//! The doubly-linked structural shape.
//!
//! [`DoublyLink`] is the structural state a doubly-linked engine keeps in
//! each link record; the operations on [`LinkedListDynLinkOps`] are the
//! structural-operations protocol for this shape, each one a single read or
//! write of one record's state, addressed purely by record address.
//! [`DynLinkedList`] is the collection engine built on that protocol: it
//! never sees an element, only record addresses, and recovery of elements
//! goes through each record's own captured binding.

use vstd::prelude::*;

use crate::arena::{same_footprint, Arena};
use crate::{LinkState, LinkedListDynLinkOps};

verus! {

/// Structural state of one record in a doubly-linked collection.
#[derive(Clone, Copy)]
pub struct DoublyLink {
    /// Whether the record is currently held by a collection.
    pub linked: bool,
    /// Address of the next record, if any.
    pub next: Option<usize>,
    /// Address of the previous record, if any.
    pub prev: Option<usize>,
}

impl LinkState for DoublyLink {
    open spec fn is_unlinked(self) -> bool {
        &&& !self.linked
        &&& self.next is None
        &&& self.prev is None
    }

    fn unlinked() -> (s: Self) {
        DoublyLink { linked: false, next: None, prev: None }
    }
}

impl LinkedListDynLinkOps<DoublyLink> {
    /// Take hold of an unlinked record for insertion bookkeeping.  Returns
    /// whether the record was free to take; a record already held by a
    /// collection is left untouched.
    pub fn acquire_link(&self, mem: &mut Arena<DoublyLink>, ptr: usize) -> (r: bool)
        requires
            old(mem).is_record(ptr),
        ensures
            r == old(mem).rec_link(ptr).is_unlinked(),
            same_footprint(*old(mem), *final(mem)),
            old(mem).wf() ==> final(mem).wf(),
            final(mem).is_record(ptr),
            final(mem).rec_off(ptr) == old(mem).rec_off(ptr),
            r ==> final(mem).rec_link(ptr) == (DoublyLink {
                linked: true,
                next: None,
                prev: None,
            }),
            !r ==> *final(mem) == *old(mem),
            forall|a: usize|
                #[trigger] old(mem).is_record(a) && a != ptr ==> final(mem).is_record(a)
                    && final(mem).rec(a) == old(mem).rec(a),
    {
        let s: DoublyLink = mem.link_of(ptr);
        if !s.linked && s.next.is_none() && s.prev.is_none() {
            mem.set_link(ptr, DoublyLink { linked: true, next: None, prev: None });
            true
        } else {
            false
        }
    }

    /// Give a record back: reset its structural state to unlinked.
    pub fn release_link(&self, mem: &mut Arena<DoublyLink>, ptr: usize)
        requires
            old(mem).is_record(ptr),
        ensures
            same_footprint(*old(mem), *final(mem)),
            old(mem).wf() ==> final(mem).wf(),
            final(mem).is_record(ptr),
            final(mem).rec_off(ptr) == old(mem).rec_off(ptr),
            final(mem).rec_link(ptr).is_unlinked(),
            forall|a: usize|
                #[trigger] old(mem).is_record(a) && a != ptr ==> final(mem).is_record(a)
                    && final(mem).rec(a) == old(mem).rec(a),
    {
        mem.set_link(ptr, DoublyLink { linked: false, next: None, prev: None });
    }

    /// Read the successor of the record at `ptr`.
    pub fn next(&self, mem: &Arena<DoublyLink>, ptr: usize) -> (n: Option<usize>)
        requires
            mem.is_record(ptr),
        ensures
            n == mem.rec_link(ptr).next,
    {
        mem.link_of(ptr).next
    }

    /// Read the predecessor of the record at `ptr`.
    pub fn prev(&self, mem: &Arena<DoublyLink>, ptr: usize) -> (n: Option<usize>)
        requires
            mem.is_record(ptr),
        ensures
            n == mem.rec_link(ptr).prev,
    {
        mem.link_of(ptr).prev
    }

    /// Point the record at `ptr` to a new successor.
    pub fn set_next(&self, mem: &mut Arena<DoublyLink>, ptr: usize, next: Option<usize>)
        requires
            old(mem).is_record(ptr),
        ensures
            same_footprint(*old(mem), *final(mem)),
            old(mem).wf() ==> final(mem).wf(),
            final(mem).is_record(ptr),
            final(mem).rec_off(ptr) == old(mem).rec_off(ptr),
            final(mem).rec_link(ptr) == (DoublyLink {
                linked: old(mem).rec_link(ptr).linked,
                next,
                prev: old(mem).rec_link(ptr).prev,
            }),
            forall|a: usize|
                #[trigger] old(mem).is_record(a) && a != ptr ==> final(mem).is_record(a)
                    && final(mem).rec(a) == old(mem).rec(a),
    {
        let s: DoublyLink = mem.link_of(ptr);
        mem.set_link(ptr, DoublyLink { linked: s.linked, next, prev: s.prev });
    }

    /// Point the record at `ptr` to a new predecessor.
    pub fn set_prev(&self, mem: &mut Arena<DoublyLink>, ptr: usize, prev: Option<usize>)
        requires
            old(mem).is_record(ptr),
        ensures
            same_footprint(*old(mem), *final(mem)),
            old(mem).wf() ==> final(mem).wf(),
            final(mem).is_record(ptr),
            final(mem).rec_off(ptr) == old(mem).rec_off(ptr),
            final(mem).rec_link(ptr) == (DoublyLink {
                linked: old(mem).rec_link(ptr).linked,
                next: old(mem).rec_link(ptr).next,
                prev,
            }),
            forall|a: usize|
                #[trigger] old(mem).is_record(a) && a != ptr ==> final(mem).is_record(a)
                    && final(mem).rec(a) == old(mem).rec(a),
    {
        let s: DoublyLink = mem.link_of(ptr);
        mem.set_link(ptr, DoublyLink { linked: s.linked, next: s.next, prev });
    }
}

/// A sequence of record addresses forms a doubly-linked chain in the arena:
/// each record is linked, points forward to its successor and back to its
/// predecessor, and no address appears twice.
pub open spec fn chain_ok(s: Seq<usize>, mem: Arena<DoublyLink>) -> bool {
    &&& forall|i: int| 0 <= i < s.len() ==> mem.is_record(#[trigger] s[i])
    &&& forall|i: int| 0 <= i < s.len() ==> mem.rec_link(#[trigger] s[i]).linked
    &&& forall|i: int|
        0 <= i < s.len() ==> mem.rec_link(#[trigger] s[i]).next == (if i + 1 < s.len() {
            Some(s[i + 1])
        } else {
            None::<usize>
        })
    &&& forall|i: int|
        0 <= i < s.len() ==> mem.rec_link(#[trigger] s[i]).prev == (if i > 0 {
            Some(s[i - 1])
        } else {
            None::<usize>
        })
    &&& forall|i: int, j: int| #![trigger s[i], s[j]] 0 <= i < j < s.len() ==> s[i] != s[j]
}

/// Unlinking position `i` of a well-formed chain, after its two neighbours
/// have been rewired around it, leaves a well-formed chain of the rest.
#[verifier::rlimit(100)]
#[verifier::spinoff_prover]
proof fn lemma_chain_remove(m0: Arena<DoublyLink>, m3: Arena<DoublyLink>, s: Seq<usize>, i: int)
    requires
        chain_ok(s, m0),
        0 <= i < s.len(),
        forall|j: int|
            0 <= j < s.len() && j != i && j != i - 1 && j != i + 1 ==> m3.is_record(
                #[trigger] s[j],
            ) && m3.rec_link(s[j]) == m0.rec_link(s[j]),
        i > 0 ==> m3.is_record(s[i - 1]) && m3.rec_link(s[i - 1]) == (DoublyLink {
            linked: m0.rec_link(s[i - 1]).linked,
            next: if i + 1 < s.len() {
                Some(s[i + 1])
            } else {
                None::<usize>
            },
            prev: m0.rec_link(s[i - 1]).prev,
        }),
        i + 1 < s.len() ==> m3.is_record(s[i + 1]) && m3.rec_link(s[i + 1]) == (DoublyLink {
            linked: m0.rec_link(s[i + 1]).linked,
            next: m0.rec_link(s[i + 1]).next,
            prev: if i > 0 {
                Some(s[i - 1])
            } else {
                None::<usize>
            },
        }),
    ensures
        chain_ok(s.remove(i), m3),
{
    let s2 = s.remove(i);
    assert forall|j: int| 0 <= j < s2.len() implies m3.is_record(#[trigger] s2[j]) && m3.rec_link(
        s2[j],
    ).linked by {
        assert(s2[j] == (if j < i {
            s[j]
        } else {
            s[j + 1]
        }));
    }
    assert forall|j: int| 0 <= j < s2.len() implies m3.rec_link(#[trigger] s2[j]).next == (if j + 1
        < s2.len() {
        Some(s2[j + 1])
    } else {
        None::<usize>
    }) by {
        assert(s2[j] == (if j < i {
            s[j]
        } else {
            s[j + 1]
        }));
        if j + 1 < s2.len() {
            assert(s2[j + 1] == (if j + 1 < i {
                s[j + 1]
            } else {
                s[j + 2]
            }));
        }
    }
    assert forall|j: int| 0 <= j < s2.len() implies m3.rec_link(#[trigger] s2[j]).prev == (if j > 0 {
        Some(s2[j - 1])
    } else {
        None::<usize>
    }) by {
        assert(s2[j] == (if j < i {
            s[j]
        } else {
            s[j + 1]
        }));
        if j > 0 {
            assert(s2[j - 1] == (if j - 1 < i {
                s[j - 1]
            } else {
                s[j]
            }));
        }
    }
    assert forall|j: int, k: int| #![trigger s2[j], s2[k]] 0 <= j < k < s2.len() implies s2[j]
        != s2[k] by {
        assert(s2[j] == (if j < i {
            s[j]
        } else {
            s[j + 1]
        }));
        assert(s2[k] == (if k < i {
            s[k]
        } else {
            s[k + 1]
        }));
    }
}

/// A doubly-linked collection over link records.
///
/// The engine holds only record addresses; its view is the sequence of
/// record addresses it currently links, in order.  It knows nothing of the
/// elements those records are embedded in.
pub struct DynLinkedList {
    head: Option<usize>,
    tail: Option<usize>,
    ops: LinkedListDynLinkOps<DoublyLink>,
    recs: Ghost<Seq<usize>>,
}

impl View for DynLinkedList {
    type V = Seq<usize>;

    closed spec fn view(&self) -> Seq<usize> {
        self.recs@
    }
}

impl DynLinkedList {
    /// Head and tail agree with the ends of the tracked sequence.
    pub closed spec fn wf_shape(self) -> bool {
        &&& self.head == (if self.recs@.len() > 0 {
            Some(self.recs@[0])
        } else {
            None::<usize>
        })
        &&& self.tail == (if self.recs@.len() > 0 {
            Some(self.recs@[self.recs@.len() - 1])
        } else {
            None::<usize>
        })
    }

    /// The records of the list, in the arena, form exactly the chain the
    /// tracked sequence describes.
    pub closed spec fn links_ok(self, mem: Arena<DoublyLink>) -> bool {
        chain_ok(self.recs@, mem)
    }

    /// Full invariant of a list against the arena its records live in.
    pub closed spec fn inv(self, mem: Arena<DoublyLink>) -> bool {
        self.wf_shape() && self.links_ok(mem)
    }

    /// An empty list, valid against any arena.
    pub fn new() -> (l: Self)
        ensures
            l@.len() == 0,
            l.wf_shape(),
            forall|mem: Arena<DoublyLink>| l.inv(mem),
    {
        DynLinkedList {
            head: None,
            tail: None,
            ops: LinkedListDynLinkOps::new(),
            recs: Ghost(Seq::empty()),
        }
    }

    /// Whether the list links no record.
    pub fn is_empty(&self) -> (r: bool)
        requires
            self.wf_shape(),
        ensures
            r == (self@.len() == 0),
    {
        self.head.is_none()
    }

    /// Append the record at `rec` at the back.
    pub fn push_back(&mut self, mem: &mut Arena<DoublyLink>, rec: usize)
        requires
            old(self).inv(*old(mem)),
            old(mem).wf(),
            old(mem).is_record(rec),
            old(mem).rec_link(rec).is_unlinked(),
        ensures
            final(self).inv(*final(mem)),
            final(self).wf_shape(),
            final(mem).wf(),
            final(self)@ == old(self)@.push(rec),
            same_footprint(*old(mem), *final(mem)),
            final(mem).is_record(rec),
            forall|a: usize|
                #[trigger] old(mem).is_record(a) && a != rec && (old(self)@.len() == 0 || a
                    != old(self)@.last()) ==> final(mem).rec_link(a) == old(mem).rec_link(a),
    {
        proof {
            assert forall|i: int| 0 <= i < self.recs@.len() implies self.recs@[i] != rec by {
                assert(old(mem).rec_link(self.recs@[i]).linked);
            }
        }
        let acquired: bool = self.ops.acquire_link(mem, rec);
        proof {
            assert(acquired);
        }
        let ghost m1: Arena<DoublyLink> = *mem;
        match self.tail {
            None => {
                self.head = Some(rec);
                self.tail = Some(rec);
                proof {
                    assert(old(self).recs@.len() == 0);
                    self.recs@ = self.recs@.push(rec);
                }
            },
            Some(t) => {
                proof {
                    assert(t == old(self)@[old(self)@.len() - 1]);
                    assert(old(mem).is_record(t));
                    assert(t != rec);
                }
                self.ops.set_prev(mem, rec, Some(t));
                let ghost m2: Arena<DoublyLink> = *mem;
                self.ops.set_next(mem, t, Some(rec));
                self.tail = Some(rec);
                proof {
                    crate::arena::lemma_footprint_trans(*old(mem), m1, m2);
                    crate::arena::lemma_footprint_trans(*old(mem), m2, *mem);
                    let s = old(self).recs@;
                    let n = s.len() as int;
                    self.recs@ = s.push(rec);
                    assert forall|i: int| 0 <= i < n - 1 implies mem.is_record(#[trigger] s[i])
                        && mem.rec(s[i]) == old(mem).rec(s[i]) by {
                        assert(old(mem).is_record(s[i]));
                        assert(s[i] != rec);
                        assert(s[i] != t);
                        assert(m1.is_record(s[i]) && m1.rec(s[i]) == old(mem).rec(s[i]));
                        assert(m2.is_record(s[i]) && m2.rec(s[i]) == m1.rec(s[i]));
                    }
                    assert(m1.rec_link(rec) == DoublyLink { linked: true, next: None, prev: None });
                    assert(m2.rec_link(rec) == DoublyLink {
                        linked: true,
                        next: None,
                        prev: Some(t),
                    });
                    assert(mem.is_record(rec) && mem.rec(rec) == m2.rec(rec));
                    assert(m1.is_record(t) && m1.rec(t) == old(mem).rec(t));
                    assert(m2.is_record(t) && m2.rec(t) == m1.rec(t));
                    assert(mem.rec_link(t) == DoublyLink {
                        linked: old(mem).rec_link(t).linked,
                        next: Some(rec),
                        prev: old(mem).rec_link(t).prev,
                    });
                }
            },
        }
    }

    /// Prepend the record at `rec` at the front.
    pub fn push_front(&mut self, mem: &mut Arena<DoublyLink>, rec: usize)
        requires
            old(self).inv(*old(mem)),
            old(mem).wf(),
            old(mem).is_record(rec),
            old(mem).rec_link(rec).is_unlinked(),
        ensures
            final(self).inv(*final(mem)),
            final(self).wf_shape(),
            final(mem).wf(),
            final(self)@ == seq![rec] + old(self)@,
            same_footprint(*old(mem), *final(mem)),
            final(mem).is_record(rec),
            forall|a: usize|
                #[trigger] old(mem).is_record(a) && a != rec && (old(self)@.len() == 0 || a
                    != old(self)@[0]) ==> final(mem).rec_link(a) == old(mem).rec_link(a),
    {
        proof {
            assert forall|i: int| 0 <= i < self.recs@.len() implies self.recs@[i] != rec by {
                assert(old(mem).rec_link(self.recs@[i]).linked);
            }
        }
        let acquired: bool = self.ops.acquire_link(mem, rec);
        proof {
            assert(acquired);
        }
        let ghost m1: Arena<DoublyLink> = *mem;
        match self.head {
            None => {
                self.head = Some(rec);
                self.tail = Some(rec);
                proof {
                    assert(old(self).recs@.len() == 0);
                    self.recs@ = seq![rec] + self.recs@;
                    assert(self.recs@.len() == 1);
                    assert(self.recs@[0] == rec);
                }
            },
            Some(h) => {
                proof {
                    assert(h == old(self)@[0]);
                    assert(old(mem).is_record(h));
                    assert(h != rec);
                }
                self.ops.set_next(mem, rec, Some(h));
                let ghost m2: Arena<DoublyLink> = *mem;
                self.ops.set_prev(mem, h, Some(rec));
                self.head = Some(rec);
                proof {
                    crate::arena::lemma_footprint_trans(*old(mem), m1, m2);
                    crate::arena::lemma_footprint_trans(*old(mem), m2, *mem);
                    let s = old(self).recs@;
                    let n = s.len() as int;
                    self.recs@ = seq![rec] + s;
                    let s2 = self.recs@;
                    assert(s2[0] == rec);
                    assert forall|i: int| 1 <= i < s2.len() implies s2[i] == s[i - 1] by {}
                    assert forall|i: int| 1 <= i < n implies mem.is_record(#[trigger] s[i])
                        && mem.rec(s[i]) == old(mem).rec(s[i]) by {
                        assert(old(mem).is_record(s[i]));
                        assert(s[i] != rec);
                        assert(s[i] != h);
                        assert(m1.rec(s[i]) == old(mem).rec(s[i]));
                        assert(m2.rec(s[i]) == m1.rec(s[i]));
                    }
                    assert(m1.rec_link(rec) == DoublyLink { linked: true, next: None, prev: None });
                    assert(m2.rec_link(rec) == DoublyLink {
                        linked: true,
                        next: Some(h),
                        prev: None,
                    });
                    assert(mem.is_record(rec) && mem.rec(rec) == m2.rec(rec));
                    assert(m1.rec(h) == old(mem).rec(h));
                    assert(m2.rec(h) == m1.rec(h));
                    assert(mem.rec_link(h) == DoublyLink {
                        linked: old(mem).rec_link(h).linked,
                        next: old(mem).rec_link(h).next,
                        prev: Some(rec),
                    });
                    assert forall|i: int| 0 <= i < s2.len() implies mem.rec_link(
                        #[trigger] s2[i],
                    ).next == (if i + 1 < s2.len() {
                        Some(s2[i + 1])
                    } else {
                        None::<usize>
                    }) by {
                        if i >= 1 {
                            assert(s2[i] == s[i - 1]);
                            if i + 1 < s2.len() {
                                assert(s2[i + 1] == s[i]);
                            }
                        } else {
                            if s2.len() > 1 {
                                assert(s2[1] == s[0]);
                            }
                        }
                    }
                    assert forall|i: int| 0 <= i < s2.len() implies mem.rec_link(
                        #[trigger] s2[i],
                    ).prev == (if i > 0 {
                        Some(s2[i - 1])
                    } else {
                        None::<usize>
                    }) by {
                        if i >= 1 {
                            assert(s2[i] == s[i - 1]);
                            if i >= 2 {
                                assert(s2[i - 1] == s[i - 2]);
                            }
                        }
                    }
                    assert(s2[s2.len() - 1] == s[n - 1]);
                }
            },
        }
    }

    /// Detach and return the record at the front, resetting its structural
    /// state to unlinked.  Its captured binding — and so what it recovers
    /// to — is untouched.
    pub fn pop_front(&mut self, mem: &mut Arena<DoublyLink>) -> (r: Option<usize>)
        requires
            old(self).inv(*old(mem)),
            old(mem).wf(),
        ensures
            final(self).inv(*final(mem)),
            final(self).wf_shape(),
            final(mem).wf(),
            same_footprint(*old(mem), *final(mem)),
            old(self)@.len() == 0 ==> r is None && final(self)@ == old(self)@ && *final(mem)
                == *old(mem),
            old(self)@.len() > 0 ==> r == Some(old(self)@[0]) && final(self)@ == old(
                self,
            )@.subrange(1, old(self)@.len() as int) && final(mem).is_record(old(self)@[0])
                && final(mem).rec_link(old(self)@[0]).is_unlinked(),
            forall|a: usize|
                #[trigger] old(mem).is_record(a) && (old(self)@.len() == 0 || a != old(self)@[0])
                    && (old(self)@.len() <= 1 || a != old(self)@[1]) ==> final(mem).rec_link(a)
                    == old(mem).rec_link(a),
    {
        match self.head {
            None => {
                proof {
                    assert(old(self)@.len() == 0);
                }
                None
            },
            Some(h) => {
                proof {
                    assert(h == old(self)@[0]);
                    assert(old(mem).is_record(h));
                }
                let n: Option<usize> = self.ops.next(mem, h);
                match n {
                    None => {
                        proof {
                            assert(old(self)@.len() == 1);
                        }
                        self.tail = None;
                    },
                    Some(nx) => {
                        proof {
                            assert(old(self)@.len() > 1);
                            assert(nx == old(self)@[1]);
                            assert(nx != h);
                        }
                        self.ops.set_prev(mem, nx, None);
                    },
                }
                self.head = n;
                let ghost m1: Arena<DoublyLink> = *mem;
                self.ops.release_link(mem, h);
                proof {
                    crate::arena::lemma_footprint_trans(*old(mem), m1, *mem);
                    let s = old(self).recs@;
                    let n_ = s.len() as int;
                    self.recs@ = s.subrange(1, n_);
                    assert forall|i: int| 1 <= i < n_ implies mem.is_record(#[trigger] s[i])
                        && mem.rec_off(s[i]) == old(mem).rec_off(s[i]) && mem.rec_link(s[i]).linked
                        && mem.rec_link(s[i]).next == old(mem).rec_link(s[i]).next && (i > 1
                        ==> mem.rec_link(s[i]).prev == old(mem).rec_link(s[i]).prev) by {
                        assert(old(mem).is_record(s[i]));
                        assert(s[i] != h);
                        if i > 1 {
                            assert(s[i] != s[1]);
                        }
                        if n_ > 1 && i == 1 {
                            assert(m1.rec_link(s[1]) == DoublyLink {
                                linked: old(mem).rec_link(s[1]).linked,
                                next: old(mem).rec_link(s[1]).next,
                                prev: None,
                            });
                        }
                    }
                    assert forall|i: int| 0 <= i < self.recs@.len() implies mem.rec_link(
                        #[trigger] self.recs@[i],
                    ).next == (if i + 1 < self.recs@.len() {
                        Some(self.recs@[i + 1])
                    } else {
                        None::<usize>
                    }) by {
                        assert(self.recs@[i] == s[i + 1]);
                    }
                    assert forall|i: int| 0 <= i < self.recs@.len() implies mem.rec_link(
                        #[trigger] self.recs@[i],
                    ).prev == (if i > 0 {
                        Some(self.recs@[i - 1])
                    } else {
                        None::<usize>
                    }) by {
                        assert(self.recs@[i] == s[i + 1]);
                    }
                }
                Some(h)
            },
        }
    }

    /// Detach and return the record at the back, resetting its structural
    /// state to unlinked.
    pub fn pop_back(&mut self, mem: &mut Arena<DoublyLink>) -> (r: Option<usize>)
        requires
            old(self).inv(*old(mem)),
            old(mem).wf(),
        ensures
            final(self).inv(*final(mem)),
            final(self).wf_shape(),
            final(mem).wf(),
            same_footprint(*old(mem), *final(mem)),
            old(self)@.len() == 0 ==> r is None && final(self)@ == old(self)@ && *final(mem)
                == *old(mem),
            old(self)@.len() > 0 ==> r == Some(old(self)@.last()) && final(self)@ == old(
                self,
            )@.subrange(0, old(self)@.len() - 1) && final(mem).is_record(old(self)@.last())
                && final(mem).rec_link(old(self)@.last()).is_unlinked(),
            forall|a: usize|
                #[trigger] old(mem).is_record(a) && (old(self)@.len() == 0 || a != old(
                    self,
                )@.last()) && (old(self)@.len() <= 1 || a != old(self)@[old(self)@.len() - 2])
                    ==> final(mem).rec_link(a) == old(mem).rec_link(a),
    {
        match self.tail {
            None => {
                proof {
                    assert(old(self)@.len() == 0);
                }
                None
            },
            Some(t) => {
                proof {
                    assert(t == old(self)@[old(self)@.len() - 1]);
                    assert(old(mem).is_record(t));
                }
                let p: Option<usize> = self.ops.prev(mem, t);
                match p {
                    None => {
                        proof {
                            assert(old(self)@.len() == 1);
                        }
                        self.head = None;
                    },
                    Some(pp) => {
                        proof {
                            assert(old(self)@.len() > 1);
                            assert(pp == old(self)@[old(self)@.len() - 2]);
                            assert(pp != t);
                        }
                        self.ops.set_next(mem, pp, None);
                    },
                }
                self.tail = p;
                let ghost m1: Arena<DoublyLink> = *mem;
                self.ops.release_link(mem, t);
                proof {
                    crate::arena::lemma_footprint_trans(*old(mem), m1, *mem);
                    let s = old(self).recs@;
                    let n_ = s.len() as int;
                    self.recs@ = s.subrange(0, n_ - 1);
                    assert forall|i: int| 0 <= i < n_ - 1 implies mem.is_record(#[trigger] s[i])
                        && mem.rec_link(s[i]).linked && mem.rec_link(s[i]).prev == old(
                        mem,
                    ).rec_link(s[i]).prev && (i < n_ - 2 ==> mem.rec_link(s[i]).next == old(
                        mem,
                    ).rec_link(s[i]).next) && (i == n_ - 2 ==> mem.rec_link(s[i]).next
                        is None) by {
                        assert(old(mem).is_record(s[i]));
                        assert(s[i] != t);
                        if i < n_ - 2 {
                            assert(s[i] != s[n_ - 2]);
                        }
                        if n_ > 1 && i == n_ - 2 {
                            assert(m1.rec_link(s[i]) == DoublyLink {
                                linked: old(mem).rec_link(s[i]).linked,
                                next: None,
                                prev: old(mem).rec_link(s[i]).prev,
                            });
                        }
                    }
                    let s2 = self.recs@;
                    assert forall|i: int| 0 <= i < s2.len() implies mem.rec_link(
                        #[trigger] s2[i],
                    ).next == (if i + 1 < s2.len() {
                        Some(s2[i + 1])
                    } else {
                        None::<usize>
                    }) by {
                        assert(s2[i] == s[i]);
                        if i + 1 < s2.len() {
                            assert(s2[i + 1] == s[i + 1]);
                        }
                    }
                    assert forall|i: int| 0 <= i < s2.len() implies mem.rec_link(
                        #[trigger] s2[i],
                    ).prev == (if i > 0 {
                        Some(s2[i - 1])
                    } else {
                        None::<usize>
                    }) by {
                        assert(s2[i] == s[i]);
                        if i > 0 {
                            assert(s2[i - 1] == s[i - 1]);
                        }
                    }
                }
                Some(t)
            },
        }
    }

    /// Detach the record at `rec` from wherever it stands in the list,
    /// patching its neighbours together, and reset its structural state to
    /// unlinked.  No other record moves; the record's captured binding is
    /// untouched, so it still recovers its element afterwards.
    #[verifier::rlimit(100)]
    #[verifier::spinoff_prover]
    pub fn remove(&mut self, mem: &mut Arena<DoublyLink>, rec: usize)
        requires
            old(self).inv(*old(mem)),
            old(mem).wf(),
            old(self)@.contains(rec),
        ensures
            final(self).inv(*final(mem)),
            final(self).wf_shape(),
            final(mem).wf(),
            same_footprint(*old(mem), *final(mem)),
            final(self)@ == old(self)@.remove(old(self)@.index_of(rec)),
            final(mem).is_record(rec),
            final(mem).rec_link(rec).is_unlinked(),
            forall|a: usize|
                #[trigger] old(mem).is_record(a) && a != rec && old(mem).rec_link(rec).prev
                    != Some(a) && old(mem).rec_link(rec).next != Some(a) ==> final(mem).rec_link(a)
                    == old(mem).rec_link(a),
    {
        let ghost s = old(self).recs@;
        let ghost i = s.index_of(rec);
        proof {
            assert(s.contains(rec));
            assert(0 <= i < s.len() && s[i] == rec);
            assert(old(mem).is_record(rec));
        }
        let p: Option<usize> = self.ops.prev(mem, rec);
        let n: Option<usize> = self.ops.next(mem, rec);
        proof {
            assert(p == (if i > 0 {
                Some(s[i - 1])
            } else {
                None::<usize>
            }));
            assert(n == (if i + 1 < s.len() {
                Some(s[i + 1])
            } else {
                None::<usize>
            }));
            if i > 0 {
                assert(s[i - 1] != rec);
            }
            if i + 1 < s.len() {
                assert(s[i + 1] != rec);
                if i > 0 {
                    assert(s[i - 1] != s[i + 1]);
                }
            }
        }
        match p {
            Some(pp) => {
                self.ops.set_next(mem, pp, n);
            },
            None => {
                self.head = n;
            },
        }
        let ghost m1: Arena<DoublyLink> = *mem;
        match n {
            Some(nn) => {
                proof {
                    assert(m1.is_record(nn));
                }
                self.ops.set_prev(mem, nn, p);
            },
            None => {
                self.tail = p;
            },
        }
        let ghost m2: Arena<DoublyLink> = *mem;
        self.ops.release_link(mem, rec);
        proof {
            crate::arena::lemma_footprint_trans(*old(mem), m1, m2);
            crate::arena::lemma_footprint_trans(*old(mem), m2, *mem);
            self.recs@ = s.remove(i);
            let s2 = self.recs@;
            // How each surviving record's state reads in the final arena.
            assert forall|j: int|
                0 <= j < s.len() && j != i && j != i - 1 && j != i + 1 implies mem.is_record(
                #[trigger] s[j],
            ) && mem.rec_link(s[j]) == old(mem).rec_link(s[j]) by {
                assert(old(mem).is_record(s[j]));
                assert(s[j] != rec);
                if i > 0 {
                    assert(s[j] != s[i - 1]);
                }
                if i + 1 < s.len() {
                    assert(s[j] != s[i + 1]);
                }
                assert(m1.rec(s[j]) == old(mem).rec(s[j]));
                assert(m2.rec(s[j]) == m1.rec(s[j]));
                assert(mem.rec(s[j]) == m2.rec(s[j]));
            }
            if i > 0 {
                assert(m1.rec_link(s[i - 1]) == DoublyLink {
                    linked: old(mem).rec_link(s[i - 1]).linked,
                    next: n,
                    prev: old(mem).rec_link(s[i - 1]).prev,
                });
                if i + 1 < s.len() {
                    assert(s[i - 1] != s[i + 1]);
                }
                assert(m2.rec(s[i - 1]) == m1.rec(s[i - 1]));
                assert(mem.rec(s[i - 1]) == m2.rec(s[i - 1]));
            }
            if i + 1 < s.len() {
                assert(m1.rec(s[i + 1]) == old(mem).rec(s[i + 1]));
                assert(m2.rec_link(s[i + 1]) == DoublyLink {
                    linked: m1.rec_link(s[i + 1]).linked,
                    next: m1.rec_link(s[i + 1]).next,
                    prev: p,
                });
                assert(mem.rec(s[i + 1]) == m2.rec(s[i + 1]));
            }
            lemma_chain_remove(*old(mem), *mem, s, i);
            if i > 0 {
                assert(self.head == (if s2.len() > 0 {
                    Some(s2[0])
                } else {
                    None::<usize>
                }));
            }
            if i + 1 < s.len() {
                assert(s2[s2.len() - 1] == s[s.len() - 1]);
            }
        }
    }

    /// Collect the record addresses the list links, in order.
    pub fn to_vec(&self, mem: &Arena<DoublyLink>) -> (v: Vec<usize>)
        requires
            self.inv(*mem),
        ensures
            v@ == self@,
    {
        let mut v: Vec<usize> = Vec::new();
        let mut cur: Option<usize> = self.head;
        while cur.is_some()
            invariant
                self.inv(*mem),
                v@.len() <= self@.len(),
                v@ == self@.subrange(0, v@.len() as int),
                cur == (if v@.len() < self@.len() {
                    Some(self@[v@.len() as int])
                } else {
                    None::<usize>
                }),
            decreases self@.len() - v@.len(),
        {
            let c: usize = cur.unwrap();
            proof {
                assert(c == self.recs@[v@.len() as int]);
                assert(mem.is_record(c));
            }
            v.push(c);
            cur = self.ops.next(mem, c);
            proof {
                assert(v@ =~= self@.subrange(0, v@.len() as int));
            }
        }
        proof {
            assert(v@ =~= self@);
        }
        v
    }
}

} // verus!
