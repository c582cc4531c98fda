use vasa::frontier::Frontier;

#[test]
fn pops_in_cost_order() {
    let mut fr = Frontier::new();
    fr.push(5, 0);
    fr.push(1, 3);
    fr.push(3, 2);
    assert_eq!(fr.pop_min(), Some((1, 3)));
    assert_eq!(fr.pop_min(), Some((3, 2)));
    assert_eq!(fr.pop_min(), Some((5, 0)));
    assert_eq!(fr.pop_min(), None);
}

#[test]
fn ties_break_on_smaller_node_id() {
    let mut fr = Frontier::new();
    fr.push(2, 7);
    fr.push(2, 1);
    fr.push(2, 4);
    assert_eq!(fr.pop_min(), Some((2, 1)));
    assert_eq!(fr.pop_min(), Some((2, 4)));
    assert_eq!(fr.pop_min(), Some((2, 7)));
}

#[test]
fn duplicates_coexist() {
    let mut fr = Frontier::new();
    fr.push(4, 9);
    fr.push(4, 9);
    assert!(!fr.is_empty());
    assert_eq!(fr.len(), 2);
    assert_eq!(fr.min_cost(), Some(4));
    assert_eq!(fr.pop_min(), Some((4, 9)));
    assert_eq!(fr.pop_min(), Some((4, 9)));
    assert_eq!(fr.min_cost(), None);
}
