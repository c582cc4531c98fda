//! A FIFO queue over a growable ring buffer.
//!
//! The queue keeps its elements in a `Vec` used as a ring: `h` is the slot
//! of the first element, the `n` elements occupy consecutive slots modulo
//! `cap`, and `t` is the first free slot.  `cap` mirrors the capacity the
//! backing vector grows through, so the slot arithmetic is part of the
//! struct rather than a question to the allocator.  Popped elements are
//! not erased; their slots are overwritten by later pushes.

use vstd::prelude::*;

verus! {

/// Wraps a position of the doubled range `[0, 2 * c)` into the ring
/// `[0, c)`.
pub open spec fn ring_pos(p: int, c: int) -> int {
    if p < c {
        p
    } else {
        p - c
    }
}

/// A bounded-style FIFO queue: bounded in that a fixed ring capacity is
/// used until it runs out, at which point the ring doubles.
#[derive(Debug, PartialEq, Eq)]
pub struct BoundedFIFO<T> where T: Copy {
    /// backing vector of slots
    pub b: Vec<T>,
    /// slot of the first element
    pub h: usize,
    /// first free slot
    pub t: usize,
    /// current ring capacity
    pub cap: usize,
    /// number of live elements
    pub n: usize,
}

impl<T> BoundedFIFO<T> where T: Copy {
    /// The ring is consistent: the live slots fit the backing vector and
    /// `t` sits one past the live block.
    pub open spec fn wf(self) -> bool {
        &&& self.cap >= 1
        &&& self.b@.len() <= self.cap
        &&& (self.h as int) < self.cap
        &&& (self.t as int) < self.cap
        &&& self.n <= self.cap
        &&& self.t <= self.b@.len()
        &&& self.t as int == ring_pos(self.h + self.n, self.cap as int)
        &&& forall|i: int|
            0 <= i < self.n ==> #[trigger] ring_pos(self.h + i, self.cap as int) < self.b@.len()
    }

    /// The queue's contents, first element first.
    pub open spec fn view(self) -> Seq<T> {
        Seq::new(self.n as nat, |i: int| self.b@[ring_pos(self.h + i, self.cap as int)])
    }

    /// Creates a new queue with ring capacity `sz`.
    pub fn new(sz: usize) -> (r: BoundedFIFO<T>)
        requires
            sz >= 1,
        ensures
            r.wf(),
            r.view() == Seq::<T>::empty(),
            r.cap == sz,
    {
        let r = BoundedFIFO { b: Vec::with_capacity(sz), h: 0, t: 0, cap: sz, n: 0 };
        proof {
            assert(r.view() =~= Seq::<T>::empty());
        }
        r
    }

    /// Tests whether the queue holds no element.
    pub fn is_empty(&self) -> (r: bool)
        ensures
            r == (self.view().len() == 0),
    {
        self.n == 0
    }

    /// Returns the number of elements in the queue.
    pub fn size(&self) -> (r: usize)
        ensures
            r == self.view().len(),
    {
        self.n
    }

    /// Returns a reference to the first element in the queue.
    pub fn first(&self) -> (r: &T)
        requires
            self.wf(),
            self.view().len() > 0,
        ensures
            *r == self.view()[0],
    {
        proof {
            assert(ring_pos(self.h + 0, self.cap as int) == self.h as int);
        }
        &self.b[self.h]
    }

    /// Adds a new element at the end of the queue.  The ring doubles when
    /// it runs out of room, as the backing vector's capacity would.
    pub fn push_back(&mut self, elem: T)
        requires
            old(self).wf(),
            old(self).cap <= usize::MAX / 2,
        ensures
            final(self).wf(),
            final(self).view() == old(self).view().push(elem),
            final(self).cap <= 4 * old(self).cap,
    {
        let ghost v0 = self.view();
        let ghost n0 = self.n as int;
        if self.n == self.cap {
            // Full ring: realign the live block to start at slot zero,
            // then append, letting the ring double with the vector.
            proof {
                assert(ring_pos(self.h + (self.cap - 1 - self.h), self.cap as int)
                    < self.b@.len());
                assert(self.b@.len() == self.cap);
            }
            let len = self.b.len();
            let mut nb: Vec<T> = Vec::new();
            let mut i: usize = 0;
            while i < len
                invariant
                    i <= len,
                    len == self.b@.len(),
                    len == self.cap,
                    self.cap <= usize::MAX / 2,
                    self.wf(),
                    self.n == self.cap,
                    nb@.len() == i,
                    forall|k: int|
                        0 <= k < i ==> #[trigger] nb@[k] == self.b@[ring_pos(
                            self.h + k,
                            self.cap as int,
                        )],
                decreases len - i,
            {
                let idx = if self.h + i < len {
                    self.h + i
                } else {
                    self.h + i - len
                };
                proof {
                    assert(idx as int == ring_pos(self.h + i, self.cap as int));
                    assert(ring_pos(self.h + i, self.cap as int) < self.b@.len());
                }
                nb.push(self.b[idx]);
                i = i + 1;
            }
            self.b = nb;
            self.h = 0;
            self.t = len;
            self.cap = 2 * self.cap;
            self.b.push(elem);
            proof {
                assert forall|k: int| 0 <= k < n0 + 1 implies self.b@[#[trigger] ring_pos(
                    self.h + k,
                    self.cap as int,
                )] == v0.push(elem)[k] by {
                    assert(ring_pos(self.h + k, self.cap as int) == k);
                }
            }
        } else if self.t == self.b.len() {
            // The first free slot is the vector's end: append.
            self.b.push(elem);
            proof {
                assert forall|k: int| 0 <= k < n0 + 1 implies self.b@[#[trigger] ring_pos(
                    self.h + k,
                    self.cap as int,
                )] == v0.push(elem)[k] by {
                    if k < n0 {
                        assert(ring_pos(self.h + k, self.cap as int) < old(self).b@.len());
                    } else {
                        assert(ring_pos(self.h + k, self.cap as int) == self.t as int);
                    }
                }
            }
        } else {
            // The first free slot holds a popped element: overwrite it.
            proof {
                assert forall|k: int| 0 <= k < n0 implies #[trigger] ring_pos(
                    self.h + k,
                    self.cap as int,
                ) != self.t as int by {}
            }
            self.b[self.t] = elem;
            proof {
                assert forall|k: int| 0 <= k < n0 + 1 implies self.b@[#[trigger] ring_pos(
                    self.h + k,
                    self.cap as int,
                )] == v0.push(elem)[k] by {
                    if k < n0 {
                        assert(ring_pos(self.h + k, self.cap as int) != self.t as int);
                    } else {
                        assert(ring_pos(self.h + k, self.cap as int) == self.t as int);
                    }
                }
            }
        }
        let ghost capm = self.cap as int;
        if self.t + 1 == self.cap && self.h == 0 {
            // The next append would wrap onto slot zero while the block
            // is anchored there: double the ring ahead of time, as the
            // backing vector's reservation would.
            self.cap = 2 * self.cap;
        }
        self.t = if self.t + 1 == self.cap {
            0
        } else {
            self.t + 1
        };
        self.n = self.n + 1;
        proof {
            assert forall|k: int| 0 <= k < self.n implies self.view()[k] == v0.push(elem)[k] by {
                assert(ring_pos(self.h + k, capm) == ring_pos(self.h + k, self.cap as int));
                assert(self.b@[ring_pos(self.h + k, capm)] == v0.push(elem)[k]);
            }
            assert(self.view() =~= v0.push(elem));
        }
    }

    /// Pops the first element from the queue.  The slot is not erased,
    /// merely regarded as free; a later push will overwrite it.
    pub fn pop_front(&mut self) -> (r: Option<T>)
        requires
            old(self).wf(),
        ensures
            final(self).wf(),
            match r {
                Option::Some(x) => {
                    &&& old(self).view().len() > 0
                    &&& x == old(self).view()[0]
                    &&& final(self).view() == old(self).view().drop_first()
                },
                Option::None => old(self).view().len() == 0 && *final(self) == *old(self),
            },
    {
        if self.n == 0 {
            Option::None
        } else {
            let ghost v0 = self.view();
            proof {
                assert(ring_pos(self.h + 0, self.cap as int) == self.h as int);
            }
            let res = self.b[self.h];
            self.h = if self.h + 1 == self.cap {
                0
            } else {
                self.h + 1
            };
            self.n = self.n - 1;
            proof {
                assert forall|i: int| 0 <= i < self.n implies #[trigger] ring_pos(
                    self.h + i,
                    self.cap as int,
                ) == ring_pos(old(self).h + (i + 1), self.cap as int) by {}
                assert(self.view() =~= v0.drop_first());
            }
            Option::Some(res)
        }
    }
}

} // verus!
