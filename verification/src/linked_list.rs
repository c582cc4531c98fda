//! A doubly linked list over an index-addressed arena: nodes live in a
//! `Vec`, links are vector indices wrapped in [`Pointer`], and removed
//! slots go onto a free list to be overwritten by later insertions.

use vstd::prelude::*;

verus! {

/// Index for [`Node`]s.  The all-ones index stands for "no node".
#[derive(Debug, PartialEq, Eq, Structural, Copy, Clone)]
pub struct Pointer(pub usize);

impl Pointer {
    /// The null pointer: the largest possible index, which the arena can
    /// never reach.
    pub fn null() -> (r: Pointer)
        ensures
            r.0 == usize::MAX,
    {
        Pointer(usize::MAX)
    }

    /// Returns `true` if this pointer is null.
    pub fn is_null(&self) -> (r: bool)
        ensures
            r == (self.0 == usize::MAX),
    {
        self.0 == usize::MAX
    }
}

/// A list element, referencing its neighbours by [`Pointer`].
#[derive(Debug, PartialEq, Copy, Clone)]
pub struct Node<T> where T: Copy {
    /// Pointer to the previous element (or null)
    pub prev: Pointer,
    /// Pointer to the next element (or null)
    pub next: Pointer,
    /// Actual element
    pub elem: T,
}

impl<T> Node<T> where T: Copy {
    /// Creates a new `Node` holding an element, not linked yet.
    pub fn new(elem: T) -> (r: Node<T>)
        ensures
            r.prev.0 == usize::MAX,
            r.next.0 == usize::MAX,
            r.elem == elem,
    {
        Node { prev: Pointer(usize::MAX), next: Pointer(usize::MAX), elem }
    }
}

/// The arena indices visited by following `next` links from `p`, stopping
/// at a null or out-of-range pointer, or when the fuel runs out.
pub open spec fn chain_from<T: Copy>(items: Seq<Node<T>>, p: Pointer, fuel: nat) -> Seq<int>
    decreases fuel,
{
    if fuel == 0 || p.0 == usize::MAX || p.0 >= items.len() {
        Seq::empty()
    } else {
        seq![p.0 as int] + chain_from(items, items[p.0 as int].next, (fuel - 1) as nat)
    }
}

/// The structural facts a chain always satisfies: valid indices, the
/// start, `next`-adjacency, and how it ends when the fuel did not run
/// out.
proof fn lemma_chain_props<T: Copy>(items: Seq<Node<T>>, p: Pointer, fuel: nat)
    ensures
        ({
            let c = chain_from(items, p, fuel);
            &&& forall|k: int| 0 <= k < c.len() ==> 0 <= #[trigger] c[k] < items.len()
            &&& (c.len() > 0 ==> c[0] == p.0 as int)
            &&& forall|k: int| 0 <= k < c.len() - 1 ==> items[#[trigger] c[k]].next.0 as int == c[
                k + 1
            ]
            &&& (c.len() < fuel && c.len() > 0 ==> items[c.last()].next.0 == usize::MAX || items[
                c.last()
            ].next.0 >= items.len())
        }),
    decreases fuel,
{
    if fuel > 0 && p.0 != usize::MAX && p.0 < items.len() {
        lemma_chain_props(items, items[p.0 as int].next, (fuel - 1) as nat);
        let c = chain_from(items, p, fuel);
        let c2 = chain_from(items, items[p.0 as int].next, (fuel - 1) as nat);
        assert forall|k: int| 0 <= k < c.len() - 1 implies items[#[trigger] c[k]].next.0 as int
            == c[k + 1] by {
            if k > 0 {
                assert(c[k] == c2[k - 1]);
                assert(c[k + 1] == c2[k]);
            } else {
                if c2.len() > 0 {
                    assert(c2[0] == items[p.0 as int].next.0 as int);
                }
            }
        }
        if c.len() < fuel && c.len() > 0 {
            if c2.len() > 0 {
                assert(c.last() == c2.last());
            }
        }
    }
}

/// A chain is determined by its links: any sequence that starts at `p`,
/// is `next`-connected, and ends with a null link is the chain.
proof fn lemma_chain_unique<T: Copy>(items: Seq<Node<T>>, p: Pointer, fuel: nat, q: Seq<int>)
    requires
        items.len() <= usize::MAX,
        q.len() < fuel,
        q.len() == 0 ==> p.0 == usize::MAX,
        q.len() > 0 ==> q[0] == p.0 as int,
        forall|k: int| 0 <= k < q.len() ==> 0 <= #[trigger] q[k] < items.len(),
        forall|k: int| 0 <= k < q.len() - 1 ==> items[#[trigger] q[k]].next.0 as int == q[k + 1],
        q.len() > 0 ==> items[q.last()].next.0 == usize::MAX,
    ensures
        chain_from(items, p, fuel) == q,
    decreases fuel,
{
    if q.len() == 0 {
        assert(chain_from(items, p, fuel) =~= q);
    } else {
        let q2 = q.drop_first();
        let p2 = items[q[0]].next;
        if q.len() == 1 {
            assert(p2.0 == usize::MAX);
        } else {
            assert(items[q[0]].next.0 as int == q[1]);
            assert(q2[0] == q[1]);
        }
        assert forall|k: int| 0 <= k < q2.len() - 1 implies items[#[trigger] q2[k]].next.0 as int
            == q2[k + 1] by {
            assert(q2[k] == q[k + 1]);
            assert(q2[k + 1] == q[k + 2]);
        }
        if q2.len() > 0 {
            assert(q2.last() == q.last());
        }
        lemma_chain_unique(items, p2, (fuel - 1) as nat, q2);
        assert(chain_from(items, p, fuel) =~= q);
    }
}

/// The list: an arena of nodes, a free list of reusable slots, and the
/// pointers to both ends.
#[derive(Debug, PartialEq)]
pub struct LinkedList<T> where T: Copy {
    pub items: Vec<Node<T>>,
    pub freed: Vec<Pointer>,
    pub head: Pointer,
    pub tail: Pointer,
}

impl<T> LinkedList<T> where T: Copy {
    /// The arena indices of the list's nodes, in list order.
    pub open spec fn order(self) -> Seq<int> {
        chain_from(self.items@, self.head, (self.items@.len() + 1) as nat)
    }

    /// The list's elements, in list order.
    pub open spec fn view(self) -> Seq<T> {
        Seq::new(self.order().len(), |i: int| self.items@[self.order()[i]].elem)
    }

    /// The representation invariant: the `next` chain from the head lists
    /// each live slot once and ends at the tail, `prev` links mirror it,
    /// and the free list holds valid, distinct, dead slots.
    pub open spec fn wf(self) -> bool {
        let ord = self.order();
        &&& self.items@.len() < usize::MAX
        &&& ord.no_duplicates()
        &&& ord.len() + self.freed@.len() <= self.items@.len()
        &&& (ord.len() == 0 ==> self.head.0 == usize::MAX && self.tail.0 == usize::MAX)
        &&& (ord.len() > 0 ==> self.tail.0 as int == ord.last() && self.items@[ord.last()].next.0
            == usize::MAX && self.items@[ord[0]].prev.0 == usize::MAX)
        &&& forall|k: int|
            1 <= k < ord.len() ==> self.items@[#[trigger] ord[k]].prev.0 as int == ord[k - 1]
        &&& forall|k: int|
            0 <= k < self.freed@.len() ==> (#[trigger] self.freed@[k]).0 < self.items@.len()
                && !ord.contains(self.freed@[k].0 as int)
        &&& forall|k1: int, k2: int|
            0 <= k1 < k2 < self.freed@.len() ==> (#[trigger] self.freed@[k1]).0 != (
            #[trigger] self.freed@[k2]).0
    }

    /// Creates a new, empty `LinkedList`.
    pub fn new() -> (r: LinkedList<T>)
        ensures
            r.wf(),
            r.view() == Seq::<T>::empty(),
            r.order() == Seq::<int>::empty(),
            r.items@ == Seq::<Node<T>>::empty(),
            r.freed@ == Seq::<Pointer>::empty(),
            r.head.0 == usize::MAX,
            r.tail.0 == usize::MAX,
    {
        let r = LinkedList {
            items: Vec::new(),
            freed: Vec::new(),
            head: Pointer(usize::MAX),
            tail: Pointer(usize::MAX),
        };
        proof {
            assert(r.order() =~= Seq::<int>::empty());
            assert(r.view() =~= Seq::<T>::empty());
        }
        r
    }

    /// Stores a node in the arena and returns its slot, overwriting a
    /// freed slot first if one is available.  Linking is the caller's
    /// business: the chain from the head is untouched.
    fn insert(&mut self, node: Node<T>) -> (r: Pointer)
        requires
            old(self).wf(),
            old(self).items@.len() + 1 < usize::MAX,
        ensures
            r.0 < final(self).items@.len(),
            r.0 != usize::MAX,
            !old(self).order().contains(r.0 as int),
            final(self).items@[r.0 as int] == node,
            final(self).head == old(self).head,
            final(self).tail == old(self).tail,
            old(self).items@.len() <= final(self).items@.len() <= old(self).items@.len() + 1,
            forall|i: int|
                0 <= i < old(self).items@.len() && i != r.0 ==> final(self).items@[i] == old(self).items@[i],
            old(self).freed@.len() > 0 ==> final(self).freed@ == old(self).freed@.drop_last()
                && final(self).items@.len() == old(self).items@.len() && r == old(self).freed@.last(),
            old(self).freed@.len() == 0 ==> final(self).freed@ == old(self).freed@ && final(self).items@ == old(self).items@.push(node) && r.0 as int == old(self).items@.len(),
            final(self).order() == old(self).order(),
            final(self).order().len() + final(self).freed@.len() + 1 <= final(self).items@.len(),
    {
        let ghost ord = self.order();
        let ghost items0 = self.items@;
        let ghost fuel0 = (items0.len() + 1) as nat;
        proof {
            lemma_chain_props(items0, self.head, fuel0);
        }
        let popped = self.freed.pop();
        let r = match popped {
            Option::Some(ptr) => {
                self.items[ptr.0] = node;
                ptr
            },
            Option::None => {
                self.items.push(node);
                Pointer(self.items.len() - 1)
            },
        };
        proof {
            let items1 = self.items@;
            let fuel1 = (items1.len() + 1) as nat;
            assert forall|k: int| 0 <= k < ord.len() - 1 implies items1[#[trigger] ord[k]].next.0
                as int == ord[k + 1] by {
                assert(ord[k] != r.0 as int);
                assert(items1[ord[k]] == items0[ord[k]]);
            }
            if ord.len() > 0 {
                assert(ord.last() != r.0 as int);
                assert(items1[ord.last()] == items0[ord.last()]);
                assert(items1[ord.last()].next.0 == usize::MAX);
            }
            lemma_chain_unique(items1, self.head, fuel1, ord);
        }
        r
    }
}

/// Inserting a fresh value keeps a sequence duplicate-free.
proof fn lemma_insert_nodup(s: Seq<int>, i: int, x: int)
    requires
        s.no_duplicates(),
        !s.contains(x),
        0 <= i <= s.len(),
    ensures
        s.insert(i, x).no_duplicates(),
{
    s.insert_ensures(i, x);
    let s2 = s.insert(i, x);
    assert forall|a: int, b: int|
        0 <= a < s2.len() && 0 <= b < s2.len() && a != b implies s2[a] != s2[b] by {
        if s2[a] == x && a != i {
            assert(s2[a] == (if a < i { s[a] } else { s[a - 1] }));
        }
        if s2[b] == x && b != i {
            assert(s2[b] == (if b < i { s[b] } else { s[b - 1] }));
        }
        assert(a == i || s2[a] == (if a < i { s[a] } else { s[a - 1] }));
        assert(b == i || s2[b] == (if b < i { s[b] } else { s[b - 1] }));
    }
}

/// Removing an element keeps a sequence duplicate-free.
proof fn lemma_remove_nodup(s: Seq<int>, i: int)
    requires
        s.no_duplicates(),
        0 <= i < s.len(),
    ensures
        s.remove(i).no_duplicates(),
{
    s.remove_ensures(i);
    let s2 = s.remove(i);
    assert forall|a: int, b: int|
        0 <= a < s2.len() && 0 <= b < s2.len() && a != b implies s2[a] != s2[b] by {
        assert(s2[a] == (if a < i { s[a] } else { s[a + 1] }));
        assert(s2[b] == (if b < i { s[b] } else { s[b + 1] }));
    }
}

impl<T> LinkedList<T> where T: Copy {
    /// Inserts an element after the node `ptr` refers to and returns the
    /// new node's pointer.
    #[verifier::rlimit(100)]
    pub fn insert_after(&mut self, ptr: Pointer, elem: T) -> (r: Pointer)
        requires
            old(self).wf(),
            old(self).order().contains(ptr.0 as int),
            old(self).items@.len() + 1 < usize::MAX,
        ensures
            final(self).wf(),
            !old(self).order().contains(r.0 as int),
            r.0 < final(self).items@.len(),
            final(self).items@[r.0 as int].elem == elem,
            old(self).freed@.len() > 0 ==> r == old(self).freed@.last() && final(self).freed@
                == old(self).freed@.drop_last() && final(self).items@.len() == old(self).items@.len(),
            old(self).freed@.len() == 0 ==> r.0 as int == old(self).items@.len() && final(self).freed@ == old(self).freed@ && final(self).items@.len() == old(self).items@.len() + 1,
            exists|k: int|
                0 <= k < old(self).order().len() && old(self).order()[k] == ptr.0 as int
                    && final(self).order() == old(self).order().insert(k + 1, r.0 as int)
                    && final(self).view() == old(self).view().insert(k + 1, elem),
    {
        let ghost items0 = self.items@;
        let ghost ord0 = self.order();
        let ghost v0 = self.view();
        let ghost k = choose|k: int| 0 <= k < ord0.len() && ord0[k] == ptr.0 as int;
        proof {
            lemma_chain_props(items0, self.head, (items0.len() + 1) as nat);
        }
        let next = self.items[ptr.0].next;
        proof {
            if next.0 != usize::MAX {
                assert(k < ord0.len() - 1) by {
                    if k == ord0.len() - 1 {
                        assert(items0[ord0.last()].next.0 == usize::MAX);
                    }
                }
                assert(next.0 as int == ord0[k + 1]);
            } else {
                assert(k == ord0.len() - 1) by {
                    if k < ord0.len() - 1 {
                        assert(items0[ord0[k]].next.0 as int == ord0[k + 1]);
                        assert(ord0[k + 1] < items0.len() < usize::MAX);
                    }
                }
            }
        }
        let node = Node { next, prev: ptr, elem };
        let np = self.insert(node);
        let ghost freed1 = self.freed@;
        let mut pn = self.items[ptr.0];
        pn.next = np;
        self.items[ptr.0] = pn;
        if next.is_null() {
            self.tail = np;
        } else {
            let mut nn = self.items[next.0];
            nn.prev = np;
            self.items[next.0] = nn;
        }
        proof {
            let items2 = self.items@;
            let fuel2 = (items2.len() + 1) as nat;
            let q = ord0.insert(k + 1, np.0 as int);
            ord0.insert_ensures(k + 1, np.0 as int);
            assert(items2[np.0 as int] == node);
            assert(items2[ptr.0 as int].next == np);
            assert(items2[ptr.0 as int].prev == items0[ptr.0 as int].prev);
            assert(items2[ptr.0 as int].elem == items0[ptr.0 as int].elem);
            // Frame: every slot other than ptr, np and the old successor
            // is untouched, and the successor only changed its prev link.
            assert forall|i: int|
                0 <= i < items0.len() && i != ptr.0 as int && i != np.0 as int implies items2[i].next
                == items0[i].next && items2[i].elem == items0[i].elem && (i != next.0 as int
                ==> items2[i].prev == items0[i].prev) by {}
            assert forall|kk: int| 0 <= kk < q.len() implies 0 <= #[trigger] q[kk]
                < items2.len() by {
                assert(kk == k + 1 || q[kk] == (if kk < k + 1 { ord0[kk] } else { ord0[kk - 1] }));
            }
            assert forall|kk: int| 0 <= kk < q.len() - 1 implies items2[#[trigger] q[kk]].next.0
                as int == q[kk + 1] by {
                if kk < k {
                    assert(q[kk] == ord0[kk] && q[kk + 1] == ord0[kk + 1]);
                    assert(ord0[kk] != ptr.0 as int && ord0[kk] != np.0 as int);
                    assert(items2[ord0[kk]].next == items0[ord0[kk]].next);
                } else if kk == k {
                    assert(q[kk] == ord0[k] && q[kk + 1] == np.0 as int);
                } else if kk == k + 1 {
                    assert(q[kk] == np.0 as int && q[kk + 1] == ord0[k + 1]);
                    assert(next.0 as int == ord0[k + 1]);
                    assert(np.0 as int != ptr.0 as int && np.0 as int != next.0 as int);
                    assert(items2[np.0 as int].next == next);
                } else {
                    assert(q[kk] == ord0[kk - 1] && q[kk + 1] == ord0[kk]);
                    assert(ord0[kk - 1] != ptr.0 as int && ord0[kk - 1] != np.0 as int);
                    assert(items2[ord0[kk - 1]].next == items0[ord0[kk - 1]].next);
                }
            }
            assert(q.len() > 0 ==> items2[q.last()].next.0 == usize::MAX) by {
                if k == ord0.len() - 1 {
                    assert(q.last() == np.0 as int);
                    assert(next.0 == usize::MAX);
                } else {
                    assert(q.last() == ord0.last());
                    assert(ord0.last() != ptr.0 as int && ord0.last() != np.0 as int);
                    assert(items2[ord0.last()].next == items0[ord0.last()].next);
                }
            }
            assert(q[0] == ord0[0] && ord0[0] == self.head.0 as int);
            assert(q.len() < fuel2);
            lemma_chain_unique(items2, self.head, fuel2, q);
            assert(self.order() == q);
            // Well-formedness of the relinked list.
            assert(!ord0.contains(np.0 as int));
            lemma_insert_nodup(ord0, k + 1, np.0 as int);
            assert(self.order().len() + self.freed@.len() <= self.items@.len());
            assert(items2[q[0]].prev == items0[ord0[0]].prev) by {
                assert(ord0[0] != np.0 as int);
                if ord0[0] == next.0 as int {
                    assert(ord0[k + 1] == ord0[0]);
                    assert(k + 1 == 0);
                } else if ord0[0] == ptr.0 as int {
                    assert(items2[ptr.0 as int].prev == items0[ptr.0 as int].prev);
                }
            }
            assert(self.tail.0 as int == q.last()) by {
                if next.0 == usize::MAX {
                    assert(self.tail == np);
                } else {
                    assert(self.tail.0 as int == ord0.last());
                }
            }
            assert forall|kk: int| 1 <= kk < q.len() implies items2[#[trigger] q[kk]].prev.0
                as int == q[kk - 1] by {
                if kk < k {
                    assert(q[kk] == ord0[kk] && q[kk - 1] == ord0[kk - 1]);
                    assert(ord0[kk] != np.0 as int && ord0[kk] != next.0 as int);
                    assert(items2[ord0[kk]].prev == items0[ord0[kk]].prev);
                } else if kk == k {
                    assert(q[kk] == ord0[k] && q[kk - 1] == ord0[k - 1]);
                    assert(items2[ord0[k]].prev == items0[ord0[k]].prev);
                    assert(ord0[k] != np.0 as int && ord0[k] != next.0 as int);
                } else if kk == k + 1 {
                    assert(q[kk] == np.0 as int && q[kk - 1] == ord0[k]);
                    assert(items2[np.0 as int].prev == ptr);
                } else if kk == k + 2 {
                    assert(q[kk] == ord0[k + 1] && q[kk - 1] == np.0 as int);
                    assert(ord0[k + 1] == next.0 as int);
                    assert(items2[next.0 as int].prev == np);
                } else {
                    assert(q[kk] == ord0[kk - 1] && q[kk - 1] == ord0[kk - 2]);
                    assert(ord0[kk - 1] != np.0 as int && ord0[kk - 1] != next.0 as int);
                    assert(items2[ord0[kk - 1]].prev == items0[ord0[kk - 1]].prev);
                }
            }
            assert forall|kk: int| 0 <= kk < self.freed@.len() implies (
            #[trigger] self.freed@[kk]).0 < self.items@.len() && !q.contains(
                self.freed@[kk].0 as int,
            ) by {
                assert(freed1[kk].0 != np.0 as int) by {
                    if old(self).freed@.len() > 0 {
                        assert(freed1 == old(self).freed@.drop_last());
                        assert(old(self).freed@[kk] == freed1[kk]);
                        assert(old(self).freed@.last() == np);
                    } else {
                        assert(old(self).freed@[kk].0 < items0.len());
                    }
                }
                assert(old(self).freed@[kk] == freed1[kk]);
                assert(!ord0.contains(freed1[kk].0 as int));
                if q.contains(freed1[kk].0 as int) {
                    let bad = choose|b: int| 0 <= b < q.len() && q[b] == freed1[kk].0 as int;
                    assert(q[bad] == (if bad < k + 1 { ord0[bad] } else if bad == k + 1 { np.0 as int } else { ord0[bad - 1] }));
                }
            }
            assert(self.wf());
            // The elements: the new slot holds `elem`, every other live
            // slot kept its element.
            assert forall|i: int| 0 <= i < self.view().len() implies self.view()[i] == v0.insert(
                k + 1,
                elem,
            )[i] by {
                v0.insert_ensures(k + 1, elem);
                if i < k + 1 {
                    assert(q[i] == ord0[i]);
                    assert(items2[ord0[i]].elem == items0[ord0[i]].elem);
                } else if i == k + 1 {
                    assert(q[i] == np.0 as int);
                } else {
                    assert(q[i] == ord0[i - 1]);
                    assert(items2[ord0[i - 1]].elem == items0[ord0[i - 1]].elem);
                }
            }
            assert(self.view() =~= v0.insert(k + 1, elem));
        }
        np
    }

    /// Inserts an element before the node `ptr` refers to and returns the
    /// new node's pointer.
    #[verifier::rlimit(100)]
    pub fn insert_before(&mut self, ptr: Pointer, elem: T) -> (r: Pointer)
        requires
            old(self).wf(),
            old(self).order().contains(ptr.0 as int),
            old(self).items@.len() + 1 < usize::MAX,
        ensures
            final(self).wf(),
            !old(self).order().contains(r.0 as int),
            r.0 < final(self).items@.len(),
            final(self).items@[r.0 as int].elem == elem,
            old(self).freed@.len() > 0 ==> r == old(self).freed@.last() && final(self).freed@
                == old(self).freed@.drop_last() && final(self).items@.len() == old(self).items@.len(),
            old(self).freed@.len() == 0 ==> r.0 as int == old(self).items@.len() && final(self).freed@ == old(self).freed@ && final(self).items@.len() == old(self).items@.len() + 1,
            exists|k: int|
                0 <= k < old(self).order().len() && old(self).order()[k] == ptr.0 as int
                    && final(self).order() == old(self).order().insert(k, r.0 as int)
                    && final(self).view() == old(self).view().insert(k, elem),
    {
        let ghost items0 = self.items@;
        let ghost ord0 = self.order();
        let ghost v0 = self.view();
        let ghost k = choose|k: int| 0 <= k < ord0.len() && ord0[k] == ptr.0 as int;
        proof {
            lemma_chain_props(items0, self.head, (items0.len() + 1) as nat);
        }
        let prev = self.items[ptr.0].prev;
        proof {
            if prev.0 != usize::MAX {
                assert(k > 0) by {
                    if k == 0 {
                        assert(items0[ord0[0]].prev.0 == usize::MAX);
                    }
                }
                assert(prev.0 as int == ord0[k - 1]);
            } else {
                assert(k == 0) by {
                    if k > 0 {
                        assert(items0[ord0[k]].prev.0 as int == ord0[k - 1]);
                        assert(ord0[k - 1] < items0.len() < usize::MAX);
                    }
                }
            }
        }
        let node = Node { next: ptr, prev, elem };
        let np = self.insert(node);
        let ghost freed1 = self.freed@;
        let mut pn = self.items[ptr.0];
        pn.prev = np;
        self.items[ptr.0] = pn;
        if prev.is_null() {
            self.head = np;
        } else {
            let mut nn = self.items[prev.0];
            nn.next = np;
            self.items[prev.0] = nn;
        }
        proof {
            let items2 = self.items@;
            let fuel2 = (items2.len() + 1) as nat;
            let q = ord0.insert(k, np.0 as int);
            ord0.insert_ensures(k, np.0 as int);
            assert(items2[np.0 as int] == node);
            assert(items2[ptr.0 as int].prev == np);
            assert(items2[ptr.0 as int].next == items0[ptr.0 as int].next);
            assert(items2[ptr.0 as int].elem == items0[ptr.0 as int].elem);
            assert forall|i: int|
                0 <= i < items0.len() && i != ptr.0 as int && i != np.0 as int implies items2[i].prev
                == items0[i].prev && items2[i].elem == items0[i].elem && (i != prev.0 as int
                ==> items2[i].next == items0[i].next) by {}
            assert forall|kk: int| 0 <= kk < q.len() implies 0 <= #[trigger] q[kk]
                < items2.len() by {
                assert(kk == k || q[kk] == (if kk < k { ord0[kk] } else { ord0[kk - 1] }));
            }
            assert forall|kk: int| 0 <= kk < q.len() - 1 implies items2[#[trigger] q[kk]].next.0
                as int == q[kk + 1] by {
                if kk < k - 1 {
                    assert(q[kk] == ord0[kk] && q[kk + 1] == ord0[kk + 1]);
                    assert(ord0[kk] != ptr.0 as int && ord0[kk] != np.0 as int && ord0[kk]
                        != prev.0 as int);
                    assert(items2[ord0[kk]].next == items0[ord0[kk]].next);
                } else if kk == k - 1 {
                    assert(q[kk] == ord0[k - 1] && q[kk + 1] == np.0 as int);
                    assert(ord0[k - 1] == prev.0 as int);
                    assert(items2[prev.0 as int].next == np);
                } else if kk == k {
                    assert(q[kk] == np.0 as int && q[kk + 1] == ord0[k]);
                    assert(items2[np.0 as int].next == ptr);
                } else {
                    assert(q[kk] == ord0[kk - 1] && q[kk + 1] == ord0[kk]);
                    assert(ord0[kk - 1] != np.0 as int && ord0[kk - 1] != prev.0 as int);
                    if ord0[kk - 1] == ptr.0 as int {
                        assert(kk - 1 == k);
                        assert(items2[ptr.0 as int].next == items0[ptr.0 as int].next);
                    } else {
                        assert(items2[ord0[kk - 1]].next == items0[ord0[kk - 1]].next);
                    }
                }
            }
            assert(q.len() > 0 ==> items2[q.last()].next.0 == usize::MAX) by {
                assert(q.last() == ord0.last());
                assert(ord0.last() != np.0 as int);
                if ord0.last() == ptr.0 as int {
                    assert(items2[ptr.0 as int].next == items0[ptr.0 as int].next);
                } else if ord0.last() == prev.0 as int {
                    assert(ord0[k - 1] == ord0.last());
                    assert(k - 1 == ord0.len() - 1);
                } else {
                    assert(items2[ord0.last()].next == items0[ord0.last()].next);
                }
            }
            assert(q[0] == self.head.0 as int) by {
                if prev.0 == usize::MAX {
                    assert(q[0] == np.0 as int);
                } else {
                    assert(q[0] == ord0[0]);
                }
            }
            assert(q.len() < fuel2);
            lemma_chain_unique(items2, self.head, fuel2, q);
            assert(self.order() == q);
            assert(!ord0.contains(np.0 as int));
            lemma_insert_nodup(ord0, k, np.0 as int);
            assert(self.order().len() + self.freed@.len() <= self.items@.len());
            assert(items2[q[0]].prev.0 == usize::MAX) by {
                if prev.0 == usize::MAX {
                    assert(q[0] == np.0 as int);
                } else {
                    assert(q[0] == ord0[0] && ord0[0] != ptr.0 as int && ord0[0] != np.0 as int);
                    assert(items2[ord0[0]].prev == items0[ord0[0]].prev);
                }
            }
            assert(self.tail.0 as int == q.last()) by {
                assert(q.last() == ord0.last());
            }
            assert forall|kk: int| 1 <= kk < q.len() implies items2[#[trigger] q[kk]].prev.0
                as int == q[kk - 1] by {
                if kk < k {
                    assert(q[kk] == ord0[kk] && q[kk - 1] == ord0[kk - 1]);
                    assert(ord0[kk] != np.0 as int && ord0[kk] != ptr.0 as int);
                    assert(items2[ord0[kk]].prev == items0[ord0[kk]].prev);
                } else if kk == k {
                    assert(q[kk] == np.0 as int && q[kk - 1] == ord0[k - 1]);
                    assert(items2[np.0 as int].prev == prev);
                    assert(prev.0 as int == ord0[k - 1]);
                } else if kk == k + 1 {
                    assert(q[kk] == ord0[k] && q[kk - 1] == np.0 as int);
                    assert(items2[ptr.0 as int].prev == np);
                } else {
                    assert(q[kk] == ord0[kk - 1] && q[kk - 1] == ord0[kk - 2]);
                    assert(ord0[kk - 1] != np.0 as int && ord0[kk - 1] != ptr.0 as int);
                    assert(items2[ord0[kk - 1]].prev == items0[ord0[kk - 1]].prev);
                }
            }
            assert forall|kk: int| 0 <= kk < self.freed@.len() implies (
            #[trigger] self.freed@[kk]).0 < self.items@.len() && !q.contains(
                self.freed@[kk].0 as int,
            ) by {
                assert(freed1[kk].0 != np.0 as int) by {
                    if old(self).freed@.len() > 0 {
                        assert(freed1 == old(self).freed@.drop_last());
                        assert(old(self).freed@[kk] == freed1[kk]);
                        assert(old(self).freed@.last() == np);
                    } else {
                        assert(old(self).freed@[kk].0 < items0.len());
                    }
                }
                assert(old(self).freed@[kk] == freed1[kk]);
                assert(!ord0.contains(freed1[kk].0 as int));
                if q.contains(freed1[kk].0 as int) {
                    let bad = choose|b: int| 0 <= b < q.len() && q[b] == freed1[kk].0 as int;
                    assert(q[bad] == (if bad < k {
                        ord0[bad]
                    } else if bad == k {
                        np.0 as int
                    } else {
                        ord0[bad - 1]
                    }));
                }
            }
            assert(self.wf());
            assert forall|i: int| 0 <= i < self.view().len() implies self.view()[i] == v0.insert(
                k,
                elem,
            )[i] by {
                v0.insert_ensures(k, elem);
                if i < k {
                    assert(q[i] == ord0[i]);
                    assert(items2[ord0[i]].elem == items0[ord0[i]].elem);
                } else if i == k {
                    assert(q[i] == np.0 as int);
                } else {
                    assert(q[i] == ord0[i - 1]);
                    assert(items2[ord0[i - 1]].elem == items0[ord0[i - 1]].elem);
                }
            }
            assert(self.view() =~= v0.insert(k, elem));
        }
        np
    }

    /// Pushes an item at the end of the list and returns its pointer.
    pub fn push_back(&mut self, elem: T) -> (r: Pointer)
        requires
            old(self).wf(),
            old(self).items@.len() + 1 < usize::MAX,
        ensures
            final(self).wf(),
            !old(self).order().contains(r.0 as int),
            r.0 < final(self).items@.len(),
            final(self).items@[r.0 as int].elem == elem,
            old(self).freed@.len() > 0 ==> r == old(self).freed@.last() && final(self).freed@
                == old(self).freed@.drop_last() && final(self).items@.len() == old(self).items@.len(),
            old(self).freed@.len() == 0 ==> r.0 as int == old(self).items@.len() && final(self).freed@ == old(self).freed@ && final(self).items@.len() == old(self).items@.len() + 1,
            final(self).order() == old(self).order().push(r.0 as int),
            final(self).view() == old(self).view().push(elem),
    {
        let ghost items0 = self.items@;
        let ghost ord0 = self.order();
        let ghost v0 = self.view();
        if self.tail.is_null() {
            proof {
                lemma_chain_props(items0, self.head, (items0.len() + 1) as nat);
                assert(ord0.len() == 0) by {
                    if ord0.len() > 0 {
                        assert(self.tail.0 as int == ord0.last());
                        assert(ord0.last() < items0.len() < usize::MAX);
                    }
                }
            }
            let node = Node::new(elem);
            let np = self.insert(node);
            self.tail = np;
            self.head = np;
            proof {
                let items2 = self.items@;
                let fuel2 = (items2.len() + 1) as nat;
                let q = seq![np.0 as int];
                lemma_chain_unique(items2, self.head, fuel2, q);
                assert(self.order() == q);
                assert(q =~= ord0.push(np.0 as int));
                assert(self.view() =~= v0.push(elem));
                assert(self.wf());
            }
            np
        } else {
            proof {
                lemma_chain_props(items0, self.head, (items0.len() + 1) as nat);
                assert(ord0.len() > 0) by {
                    if ord0.len() == 0 {
                        assert(self.tail.0 == usize::MAX);
                    }
                }
                assert(ord0[ord0.len() - 1] == self.tail.0 as int);
                assert(ord0.contains(self.tail.0 as int));
            }
            let t = self.tail;
            let np = self.insert_after(t, elem);
            proof {
                let k = choose|k: int|
                    0 <= k < ord0.len() && ord0[k] == t.0 as int && self.order() == ord0.insert(
                        k + 1,
                        np.0 as int,
                    ) && self.view() == v0.insert(k + 1, elem);
                assert(k == ord0.len() - 1) by {
                    assert(ord0[k] == ord0[ord0.len() - 1]);
                }
                assert(ord0.insert(k + 1, np.0 as int) =~= ord0.push(np.0 as int));
                assert(v0.insert(k + 1, elem) =~= v0.push(elem));
            }
            np
        }
    }

    /// Makes a new item the first of the list and returns its pointer.
    pub fn push_front(&mut self, elem: T) -> (r: Pointer)
        requires
            old(self).wf(),
            old(self).items@.len() + 1 < usize::MAX,
        ensures
            final(self).wf(),
            !old(self).order().contains(r.0 as int),
            r.0 < final(self).items@.len(),
            final(self).items@[r.0 as int].elem == elem,
            old(self).freed@.len() > 0 ==> r == old(self).freed@.last() && final(self).freed@
                == old(self).freed@.drop_last() && final(self).items@.len() == old(self).items@.len(),
            old(self).freed@.len() == 0 ==> r.0 as int == old(self).items@.len() && final(self).freed@ == old(self).freed@ && final(self).items@.len() == old(self).items@.len() + 1,
            final(self).order() == old(self).order().insert(0, r.0 as int),
            final(self).view() == old(self).view().insert(0, elem),
    {
        let ghost items0 = self.items@;
        let ghost ord0 = self.order();
        let ghost v0 = self.view();
        if self.head.is_null() {
            proof {
                assert(ord0.len() == 0);
                lemma_chain_props(items0, self.head, (items0.len() + 1) as nat);
            }
            let np = self.push_back(elem);
            proof {
                assert(ord0.push(np.0 as int) =~= ord0.insert(0, np.0 as int));
                assert(v0.push(elem) =~= v0.insert(0, elem));
            }
            np
        } else {
            proof {
                lemma_chain_props(items0, self.head, (items0.len() + 1) as nat);
                assert(ord0.len() > 0);
                assert(ord0[0] == self.head.0 as int);
                assert(ord0.contains(self.head.0 as int));
            }
            let h = self.head;
            let np = self.insert_before(h, elem);
            proof {
                let k = choose|k: int|
                    0 <= k < ord0.len() && ord0[k] == h.0 as int && self.order() == ord0.insert(
                        k,
                        np.0 as int,
                    ) && self.view() == v0.insert(k, elem);
                assert(k == 0) by {
                    assert(ord0[k] == ord0[0]);
                }
            }
            np
        }
    }

    /// Unlinks the node `ptr` refers to and returns its element.  The
    /// slot is not erased; its pointer goes onto the free list and will
    /// be overwritten by a later insertion.
    #[verifier::rlimit(100)]
    pub fn remove(&mut self, ptr: Pointer) -> (r: T)
        requires
            old(self).wf(),
            old(self).order().contains(ptr.0 as int),
        ensures
            final(self).wf(),
            final(self).freed@ == old(self).freed@.push(ptr),
            final(self).items@.len() == old(self).items@.len(),
            exists|k: int|
                0 <= k < old(self).order().len() && old(self).order()[k] == ptr.0 as int
                    && final(self).order() == old(self).order().remove(k)
                    && final(self).view() == old(self).view().remove(k)
                    && r == old(self).view()[k],
    {
        let ghost items0 = self.items@;
        let ghost ord0 = self.order();
        let ghost v0 = self.view();
        let ghost k = choose|k: int| 0 <= k < ord0.len() && ord0[k] == ptr.0 as int;
        proof {
            lemma_chain_props(items0, self.head, (items0.len() + 1) as nat);
        }
        let node = self.items[ptr.0];
        proof {
            if node.prev.0 != usize::MAX {
                assert(k > 0) by {
                    if k == 0 {
                        assert(items0[ord0[0]].prev.0 == usize::MAX);
                    }
                }
                assert(node.prev.0 as int == ord0[k - 1]);
            } else {
                assert(k == 0) by {
                    if k > 0 {
                        assert(items0[ord0[k]].prev.0 as int == ord0[k - 1]);
                        assert(ord0[k - 1] < items0.len() < usize::MAX);
                    }
                }
            }
            if node.next.0 != usize::MAX {
                assert(k < ord0.len() - 1) by {
                    if k == ord0.len() - 1 {
                        assert(items0[ord0.last()].next.0 == usize::MAX);
                    }
                }
                assert(node.next.0 as int == ord0[k + 1]);
            } else {
                assert(k == ord0.len() - 1) by {
                    if k < ord0.len() - 1 {
                        assert(items0[ord0[k]].next.0 as int == ord0[k + 1]);
                        assert(ord0[k + 1] < items0.len() < usize::MAX);
                    }
                }
            }
        }
        if node.prev.is_null() {
            self.head = node.next;
        } else {
            let mut pn = self.items[node.prev.0];
            pn.next = node.next;
            self.items[node.prev.0] = pn;
        }
        if node.next.is_null() {
            self.tail = node.prev;
        } else {
            let mut nn = self.items[node.next.0];
            nn.prev = node.prev;
            self.items[node.next.0] = nn;
        }
        self.freed.push(ptr);
        proof {
            let items2 = self.items@;
            let fuel2 = (items2.len() + 1) as nat;
            let q = ord0.remove(k);
            ord0.remove_ensures(k);
            assert forall|i: int|
                0 <= i < items0.len() && i != node.prev.0 as int && i != node.next.0 as int implies
                items2[i] == items0[i] by {}
            assert(node.prev.0 != usize::MAX ==> items2[node.prev.0 as int].next == node.next
                && items2[node.prev.0 as int].prev == items0[node.prev.0 as int].prev
                && items2[node.prev.0 as int].elem == items0[node.prev.0 as int].elem);
            assert(node.next.0 != usize::MAX ==> items2[node.next.0 as int].prev == node.prev
                && items2[node.next.0 as int].next == items0[node.next.0 as int].next
                && items2[node.next.0 as int].elem == items0[node.next.0 as int].elem);
            assert forall|kk: int| 0 <= kk < q.len() implies 0 <= #[trigger] q[kk]
                < items2.len() by {
                assert(q[kk] == (if kk < k { ord0[kk] } else { ord0[kk + 1] }));
            }
            assert forall|kk: int| 0 <= kk < q.len() - 1 implies items2[#[trigger] q[kk]].next.0
                as int == q[kk + 1] by {
                if kk < k - 1 {
                    assert(q[kk] == ord0[kk] && q[kk + 1] == ord0[kk + 1]);
                    assert(ord0[kk] != ptr.0 as int && ord0[kk] != node.next.0 as int && ord0[kk]
                        != node.prev.0 as int);
                    assert(items2[ord0[kk]] == items0[ord0[kk]]);
                } else if kk == k - 1 {
                    assert(q[kk] == ord0[k - 1] && q[kk + 1] == ord0[k + 1]);
                    assert(ord0[k - 1] == node.prev.0 as int);
                    assert(items2[node.prev.0 as int].next == node.next);
                    assert(node.next.0 as int == ord0[k + 1]);
                } else {
                    assert(q[kk] == ord0[kk + 1] && q[kk + 1] == ord0[kk + 2]);
                    assert(ord0[kk + 1] != ptr.0 as int && ord0[kk + 1] != node.prev.0 as int);
                    if ord0[kk + 1] == node.next.0 as int {
                        assert(kk + 1 == k + 1);
                        assert(items2[node.next.0 as int].next == items0[node.next.0 as int].next);
                    } else {
                        assert(items2[ord0[kk + 1]] == items0[ord0[kk + 1]]);
                    }
                }
            }
            assert(q.len() > 0 ==> items2[q.last()].next.0 == usize::MAX) by {
                if q.len() > 0 {
                    if k == ord0.len() - 1 {
                        assert(q.last() == ord0[k - 1]);
                        assert(ord0[k - 1] == node.prev.0 as int);
                        assert(items2[node.prev.0 as int].next == node.next);
                        assert(node.next.0 == usize::MAX);
                    } else {
                        assert(q.last() == ord0.last());
                        assert(ord0.last() != ptr.0 as int && ord0.last() != node.prev.0 as int);
                        if ord0.last() == node.next.0 as int {
                            assert(items2[node.next.0 as int].next == items0[node.next.0 as int].next);
                        } else {
                            assert(items2[ord0.last()] == items0[ord0.last()]);
                        }
                    }
                }
            }
            assert(q.len() == 0 ==> self.head.0 == usize::MAX && self.tail.0 == usize::MAX) by {
                if q.len() == 0 {
                    assert(k == 0 && k == ord0.len() - 1);
                }
            }
            assert(q.len() > 0 ==> q[0] == self.head.0 as int) by {
                if q.len() > 0 {
                    if k == 0 {
                        assert(q[0] == ord0[1]);
                        assert(self.head == node.next);
                        assert(node.next.0 as int == ord0[1]);
                    } else {
                        assert(q[0] == ord0[0]);
                    }
                }
            }
            assert(q.len() < fuel2);
            lemma_chain_unique(items2, self.head, fuel2, q);
            assert(self.order() == q);
            lemma_remove_nodup(ord0, k);
            assert(self.order().len() + self.freed@.len() <= self.items@.len());
            assert(q.len() > 0 ==> self.tail.0 as int == q.last()) by {
                if q.len() > 0 && k == ord0.len() - 1 {
                    assert(self.tail == node.prev);
                    assert(q.last() == ord0[k - 1]);
                }
            }
            assert(q.len() > 0 ==> items2[q[0]].prev.0 == usize::MAX) by {
                if q.len() > 0 {
                    if k == 0 {
                        assert(q[0] == ord0[1] && ord0[1] == node.next.0 as int);
                        assert(items2[node.next.0 as int].prev == node.prev);
                        assert(node.prev.0 == usize::MAX);
                    } else {
                        assert(q[0] == ord0[0]);
                        assert(ord0[0] != ptr.0 as int && ord0[0] != node.next.0 as int);
                        if ord0[0] == node.prev.0 as int {
                            assert(items2[node.prev.0 as int].prev == items0[node.prev.0 as int].prev);
                        } else {
                            assert(items2[ord0[0]] == items0[ord0[0]]);
                        }
                        assert(items2[ord0[0]].prev == items0[ord0[0]].prev);
                    }
                }
            }
            assert forall|kk: int| 1 <= kk < q.len() implies items2[#[trigger] q[kk]].prev.0
                as int == q[kk - 1] by {
                if kk < k {
                    assert(q[kk] == ord0[kk] && q[kk - 1] == ord0[kk - 1]);
                    assert(ord0[kk] != ptr.0 as int && ord0[kk] != node.next.0 as int);
                    if ord0[kk] == node.prev.0 as int {
                        assert(items2[node.prev.0 as int].prev == items0[node.prev.0 as int].prev);
                    } else {
                        assert(items2[ord0[kk]] == items0[ord0[kk]]);
                    }
                    assert(items2[ord0[kk]].prev == items0[ord0[kk]].prev);
                } else if kk == k {
                    assert(q[kk] == ord0[k + 1] && ord0[k + 1] == node.next.0 as int);
                    assert(items2[node.next.0 as int].prev == node.prev);
                    assert(node.prev.0 as int == ord0[k - 1]);
                    assert(q[kk - 1] == ord0[k - 1]);
                } else {
                    assert(q[kk] == ord0[kk + 1] && q[kk - 1] == ord0[kk]);
                    assert(ord0[kk + 1] != ptr.0 as int && ord0[kk + 1] != node.next.0 as int);
                    if ord0[kk + 1] == node.prev.0 as int {
                        assert(items2[node.prev.0 as int].prev == items0[node.prev.0 as int].prev);
                    } else {
                        assert(items2[ord0[kk + 1]] == items0[ord0[kk + 1]]);
                    }
                    assert(items2[ord0[kk + 1]].prev == items0[ord0[kk + 1]].prev);
                }
            }
            assert forall|kk: int| 0 <= kk < self.freed@.len() implies (
            #[trigger] self.freed@[kk]).0 < self.items@.len() && !q.contains(
                self.freed@[kk].0 as int,
            ) by {
                if kk < old(self).freed@.len() {
                    assert(self.freed@[kk] == old(self).freed@[kk]);
                    if q.contains(self.freed@[kk].0 as int) {
                        let bad = choose|b: int| 0 <= b < q.len() && q[b] == self.freed@[kk].0 as int;
                        assert(q[bad] == (if bad < k { ord0[bad] } else { ord0[bad + 1] }));
                    }
                } else {
                    assert(self.freed@[kk] == ptr);
                    if q.contains(ptr.0 as int) {
                        let bad = choose|b: int| 0 <= b < q.len() && q[b] == ptr.0 as int;
                        assert(q[bad] == (if bad < k { ord0[bad] } else { ord0[bad + 1] }));
                        assert(q[bad] == ord0[k]);
                    }
                }
            }
            assert forall|k1: int, k2: int|
                0 <= k1 < k2 < self.freed@.len() implies (#[trigger] self.freed@[k1]).0 != (
            #[trigger] self.freed@[k2]).0 by {
                if k2 == self.freed@.len() - 1 {
                    assert(self.freed@[k2] == ptr);
                    assert(!ord0.contains(old(self).freed@[k1].0 as int));
                    if old(self).freed@[k1].0 == ptr.0 {
                        assert(ord0[k] == old(self).freed@[k1].0 as int);
                    }
                }
            }
            assert(self.wf());
            assert forall|i: int| 0 <= i < self.view().len() implies self.view()[i] == v0.remove(
                k,
            )[i] by {
                v0.remove_ensures(k);
                if i < k {
                    assert(q[i] == ord0[i]);
                    assert(items2[ord0[i]].elem == items0[ord0[i]].elem);
                } else {
                    assert(q[i] == ord0[i + 1]);
                    assert(items2[ord0[i + 1]].elem == items0[ord0[i + 1]].elem);
                }
            }
            assert(self.view() =~= v0.remove(k));
            assert(node.elem == v0[k]);
        }
        node.elem
    }

    /// Removes and returns the first element, draining the list front to
    /// back; nothing on an empty list.
    pub fn next(&mut self) -> (r: Option<T>)
        requires
            old(self).wf(),
        ensures
            final(self).wf(),
            match r {
                Option::Some(x) => {
                    &&& old(self).view().len() > 0
                    &&& x == old(self).view()[0]
                    &&& final(self).view() == old(self).view().drop_first()
                },
                Option::None => old(self).view().len() == 0 && *final(self) == *old(self),
            },
    {
        let ghost ord0 = self.order();
        let ghost v0 = self.view();
        if self.head.is_null() {
            proof {
                assert(ord0.len() == 0);
            }
            Option::None
        } else {
            proof {
                lemma_chain_props(self.items@, self.head, (self.items@.len() + 1) as nat);
                assert(ord0.len() > 0);
                assert(ord0[0] == self.head.0 as int);
                assert(ord0.contains(self.head.0 as int));
            }
            let h = self.head;
            let x = self.remove(h);
            proof {
                let k = choose|k: int|
                    0 <= k < ord0.len() && ord0[k] == h.0 as int && self.order() == ord0.remove(k)
                        && self.view() == v0.remove(k) && x == v0[k];
                assert(k == 0) by {
                    assert(ord0[k] == ord0[0]);
                }
                assert(v0.remove(0) =~= v0.drop_first());
            }
            Option::Some(x)
        }
    }
}

} // verus!
