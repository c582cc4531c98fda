use vasa::linked_list::{LinkedList, Node, Pointer};

#[test]
fn singleton() {
    let node = Node::new(0);
    assert_eq!(node.elem, 0);
}

#[test]
fn linked_list_empty() {
    let ll: LinkedList<i32> = LinkedList::new();
    assert_eq!(
        ll,
        LinkedList {
            items: Vec::new(),
            freed: Vec::new(),
            head: Pointer::null(),
            tail: Pointer::null(),
        }
    );
}

#[test]
fn pushfront() {
    let mut ll: LinkedList<i32> = LinkedList::new();
    ll.push_front(3);
    assert_eq!(
        ll,
        LinkedList {
            items: vec![Node { prev: Pointer::null(), next: Pointer::null(), elem: 3 }],
            freed: Vec::new(),
            head: Pointer(0),
            tail: Pointer(0),
        }
    );
}

#[test]
fn pushfront_pushfront() {
    let mut ll: LinkedList<i32> = LinkedList::new();
    ll.push_front(3);
    ll.push_front(2);
    assert_eq!(
        ll,
        LinkedList {
            items: vec![
                Node { prev: Pointer(1), next: Pointer::null(), elem: 3 },
                Node { prev: Pointer::null(), next: Pointer(0), elem: 2 },
            ],
            freed: Vec::new(),
            head: Pointer(1),
            tail: Pointer(0),
        }
    );
}

#[test]
fn pushback() {
    let mut ll: LinkedList<i32> = LinkedList::new();
    ll.push_back(3);
    assert_eq!(
        ll,
        LinkedList {
            items: vec![Node { prev: Pointer::null(), next: Pointer::null(), elem: 3 }],
            freed: Vec::new(),
            head: Pointer(0),
            tail: Pointer(0),
        }
    );
}

#[test]
fn pushback_pushback_remove() {
    let mut ll: LinkedList<i32> = LinkedList::new();
    ll.push_back(3);
    let p = ll.push_back(5);
    ll.remove(p);
    assert_eq!(
        ll,
        LinkedList {
            items: vec![
                Node { prev: Pointer::null(), next: Pointer::null(), elem: 3 },
                Node { prev: Pointer(0), next: Pointer::null(), elem: 5 },
            ],
            freed: vec![Pointer(1)],
            head: Pointer(0),
            tail: Pointer(0),
        }
    );
}

#[test]
fn pushback_pushback() {
    let mut ll: LinkedList<i32> = LinkedList::new();
    ll.push_back(3);
    ll.push_back(4);
    assert_eq!(
        ll,
        LinkedList {
            items: vec![
                Node { prev: Pointer::null(), next: Pointer(1), elem: 3 },
                Node { prev: Pointer(0), next: Pointer::null(), elem: 4 },
            ],
            freed: Vec::new(),
            head: Pointer(0),
            tail: Pointer(1),
        }
    );
}

#[test]
fn insertbefore() {
    let mut ll: LinkedList<i32> = LinkedList::new();
    ll.push_back(3);
    let p = ll.push_back(5);
    ll.insert_before(p, 4);
    assert_eq!(
        ll,
        LinkedList {
            items: vec![
                Node { prev: Pointer::null(), next: Pointer(2), elem: 3 },
                Node { prev: Pointer(2), next: Pointer::null(), elem: 5 },
                Node { prev: Pointer(0), next: Pointer(1), elem: 4 },
            ],
            freed: Vec::new(),
            head: Pointer(0),
            tail: Pointer(1),
        }
    );
}

#[test]
fn insertafter() {
    let mut ll: LinkedList<i32> = LinkedList::new();
    let p = ll.push_back(3);
    ll.push_back(5);
    ll.insert_after(p, 4);
    assert_eq!(
        ll,
        LinkedList {
            items: vec![
                Node { prev: Pointer::null(), next: Pointer(2), elem: 3 },
                Node { prev: Pointer(2), next: Pointer::null(), elem: 5 },
                Node { prev: Pointer(0), next: Pointer(1), elem: 4 },
            ],
            freed: Vec::new(),
            head: Pointer(0),
            tail: Pointer(1),
        }
    );
}

#[test]
fn iterator() {
    let mut ll: LinkedList<i32> = LinkedList::new();
    let p = ll.push_back(3);
    ll.push_back(5);
    ll.insert_after(p, 4);
    let mut collected: Vec<i32> = Vec::new();
    while let Some(x) = ll.next() {
        collected.push(x);
    }
    assert_eq!(collected, vec![3, 4, 5])
}

#[test]
fn freed_slot_is_reused() {
    let mut ll: LinkedList<i32> = LinkedList::new();
    ll.push_back(1);
    let p = ll.push_back(2);
    ll.push_back(3);
    assert_eq!(ll.remove(p), 2);
    // The freed slot 1 is overwritten by the next insertion.
    let q = ll.push_back(4);
    assert_eq!(q, Pointer(1));
    assert_eq!(ll.items.len(), 3);
    let mut collected: Vec<i32> = Vec::new();
    while let Some(x) = ll.next() {
        collected.push(x);
    }
    assert_eq!(collected, vec![1, 3, 4]);
}

#[test]
fn remove_head_and_tail() {
    let mut ll: LinkedList<i32> = LinkedList::new();
    let a = ll.push_back(1);
    ll.push_back(2);
    let c = ll.push_back(3);
    assert_eq!(ll.remove(a), 1);
    assert_eq!(ll.remove(c), 3);
    assert_eq!(ll.head, Pointer(1));
    assert_eq!(ll.tail, Pointer(1));
    assert_eq!(ll.next(), Some(2));
    assert_eq!(ll.next(), None);
}

#[test]
fn null_pointer() {
    assert!(Pointer::null().is_null());
    assert!(!Pointer(0).is_null());
}
