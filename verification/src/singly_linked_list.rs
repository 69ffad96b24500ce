//! The singly-linked structural shape.
//!
//! Each record stores only a forward pointer; the collection is a stack-like
//! chain reached from its head.  The operations on
//! [`LinkedListDynLinkOps`] are the structural-operations protocol for this
//! shape; [`SinglyDynList`] is the collection engine built on it.

use vstd::prelude::*;

use crate::arena::{same_footprint, Arena};
use crate::{LinkState, LinkedListDynLinkOps};

verus! {

/// Structural state of one record in a singly-linked collection.
#[derive(Clone, Copy)]
pub struct SinglyLink {
    /// Whether the record is currently held by a collection.
    pub linked: bool,
    /// Address of the next record, if any.
    pub next: Option<usize>,
}

impl LinkState for SinglyLink {
    open spec fn is_unlinked(self) -> bool {
        &&& !self.linked
        &&& self.next is None
    }

    fn unlinked() -> (s: Self) {
        SinglyLink { linked: false, next: None }
    }
}

impl LinkedListDynLinkOps<SinglyLink> {
    /// Take hold of an unlinked record for insertion bookkeeping.
    pub fn acquire_link(&self, mem: &mut Arena<SinglyLink>, ptr: usize) -> (r: bool)
        requires
            old(mem).is_record(ptr),
        ensures
            r == old(mem).rec_link(ptr).is_unlinked(),
            same_footprint(*old(mem), *final(mem)),
            old(mem).wf() ==> final(mem).wf(),
            final(mem).is_record(ptr),
            r ==> final(mem).rec_link(ptr) == (SinglyLink { linked: true, next: None }),
            !r ==> *final(mem) == *old(mem),
            forall|a: usize|
                #[trigger] old(mem).is_record(a) && a != ptr ==> final(mem).is_record(a)
                    && final(mem).rec(a) == old(mem).rec(a),
    {
        let s: SinglyLink = mem.link_of(ptr);
        if !s.linked && s.next.is_none() {
            mem.set_link(ptr, SinglyLink { linked: true, next: None });
            true
        } else {
            false
        }
    }

    /// Give a record back: reset its structural state to unlinked.
    pub fn release_link(&self, mem: &mut Arena<SinglyLink>, ptr: usize)
        requires
            old(mem).is_record(ptr),
        ensures
            same_footprint(*old(mem), *final(mem)),
            old(mem).wf() ==> final(mem).wf(),
            final(mem).is_record(ptr),
            final(mem).rec_link(ptr).is_unlinked(),
            forall|a: usize|
                #[trigger] old(mem).is_record(a) && a != ptr ==> final(mem).is_record(a)
                    && final(mem).rec(a) == old(mem).rec(a),
    {
        mem.set_link(ptr, SinglyLink { linked: false, next: None });
    }

    /// Read the successor of the record at `ptr`.
    pub fn next(&self, mem: &Arena<SinglyLink>, ptr: usize) -> (n: Option<usize>)
        requires
            mem.is_record(ptr),
        ensures
            n == mem.rec_link(ptr).next,
    {
        mem.link_of(ptr).next
    }

    /// Point the record at `ptr` to a new successor.
    pub fn set_next(&self, mem: &mut Arena<SinglyLink>, ptr: usize, next: Option<usize>)
        requires
            old(mem).is_record(ptr),
        ensures
            same_footprint(*old(mem), *final(mem)),
            old(mem).wf() ==> final(mem).wf(),
            final(mem).is_record(ptr),
            final(mem).rec_link(ptr) == (SinglyLink {
                linked: old(mem).rec_link(ptr).linked,
                next,
            }),
            forall|a: usize|
                #[trigger] old(mem).is_record(a) && a != ptr ==> final(mem).is_record(a)
                    && final(mem).rec(a) == old(mem).rec(a),
    {
        let s: SinglyLink = mem.link_of(ptr);
        mem.set_link(ptr, SinglyLink { linked: s.linked, next });
    }
}

/// A sequence of record addresses forms a singly-linked chain in the arena.
pub open spec fn schain_ok(s: Seq<usize>, mem: Arena<SinglyLink>) -> bool {
    &&& forall|i: int| 0 <= i < s.len() ==> mem.is_record(#[trigger] s[i])
    &&& forall|i: int| 0 <= i < s.len() ==> mem.rec_link(#[trigger] s[i]).linked
    &&& forall|i: int|
        0 <= i < s.len() ==> mem.rec_link(#[trigger] s[i]).next == (if i + 1 < s.len() {
            Some(s[i + 1])
        } else {
            None::<usize>
        })
    &&& forall|i: int, j: int| #![trigger s[i], s[j]] 0 <= i < j < s.len() ==> s[i] != s[j]
}

/// A singly-linked collection over link records, used from its front end.
pub struct SinglyDynList {
    head: Option<usize>,
    ops: LinkedListDynLinkOps<SinglyLink>,
    recs: Ghost<Seq<usize>>,
}

impl View for SinglyDynList {
    type V = Seq<usize>;

    closed spec fn view(&self) -> Seq<usize> {
        self.recs@
    }
}

impl SinglyDynList {
    /// The head agrees with the front of the tracked sequence.
    pub closed spec fn wf_shape(self) -> bool {
        self.head == (if self.recs@.len() > 0 {
            Some(self.recs@[0])
        } else {
            None::<usize>
        })
    }

    /// Full invariant of a list against the arena its records live in.
    pub closed spec fn inv(self, mem: Arena<SinglyLink>) -> bool {
        self.wf_shape() && schain_ok(self.recs@, mem)
    }

    /// An empty list, valid against any arena.
    pub fn new() -> (l: Self)
        ensures
            l@.len() == 0,
            l.wf_shape(),
            forall|mem: Arena<SinglyLink>| l.inv(mem),
    {
        SinglyDynList { head: None, ops: LinkedListDynLinkOps::new(), recs: Ghost(Seq::empty()) }
    }

    /// Whether the list links no record.
    pub fn is_empty(&self) -> (r: bool)
        requires
            self.wf_shape(),
        ensures
            r == (self@.len() == 0),
    {
        self.head.is_none()
    }

    /// Prepend the record at `rec` at the front.
    pub fn push_front(&mut self, mem: &mut Arena<SinglyLink>, rec: usize)
        requires
            old(self).inv(*old(mem)),
            old(mem).wf(),
            old(mem).is_record(rec),
            old(mem).rec_link(rec).is_unlinked(),
        ensures
            final(self).inv(*final(mem)),
            final(self).wf_shape(),
            final(mem).wf(),
            final(self)@ == seq![rec] + old(self)@,
            same_footprint(*old(mem), *final(mem)),
            final(mem).is_record(rec),
            forall|a: usize|
                #[trigger] old(mem).is_record(a) && a != rec ==> final(mem).rec_link(a) == old(
                    mem,
                ).rec_link(a),
    {
        proof {
            assert forall|i: int| 0 <= i < self.recs@.len() implies self.recs@[i] != rec by {
                assert(old(mem).rec_link(self.recs@[i]).linked);
            }
        }
        let acquired: bool = self.ops.acquire_link(mem, rec);
        proof {
            assert(acquired);
        }
        let ghost m1: Arena<SinglyLink> = *mem;
        let h: Option<usize> = self.head;
        self.ops.set_next(mem, rec, h);
        self.head = Some(rec);
        proof {
            crate::arena::lemma_footprint_trans(*old(mem), m1, *mem);
            let s = old(self).recs@;
            self.recs@ = seq![rec] + s;
            let s2 = self.recs@;
            assert(s2[0] == rec);
            assert forall|i: int| 1 <= i < s2.len() implies s2[i] == s[i - 1] by {}
            assert forall|i: int| 0 <= i < s.len() implies mem.is_record(#[trigger] s[i])
                && mem.rec(s[i]) == old(mem).rec(s[i]) by {
                assert(old(mem).is_record(s[i]));
                assert(s[i] != rec);
                assert(m1.rec(s[i]) == old(mem).rec(s[i]));
            }
            assert(mem.rec_link(rec) == SinglyLink { linked: true, next: h });
            assert forall|i: int| 0 <= i < s2.len() implies mem.rec_link(#[trigger] s2[i]).next
                == (if i + 1 < s2.len() {
                Some(s2[i + 1])
            } else {
                None::<usize>
            }) by {
                if i == 0 {
                    if s.len() > 0 {
                        assert(s2[1] == s[0]);
                    }
                } else {
                    assert(s2[i] == s[i - 1]);
                    if i + 1 < s2.len() {
                        assert(s2[i + 1] == s[i]);
                    }
                }
            }
        }
    }

    /// Detach and return the record at the front, resetting its structural
    /// state to unlinked.
    pub fn pop_front(&mut self, mem: &mut Arena<SinglyLink>) -> (r: Option<usize>)
        requires
            old(self).inv(*old(mem)),
            old(mem).wf(),
        ensures
            final(self).inv(*final(mem)),
            final(self).wf_shape(),
            final(mem).wf(),
            same_footprint(*old(mem), *final(mem)),
            old(self)@.len() == 0 ==> r is None && final(self)@ == old(self)@ && *final(mem)
                == *old(mem),
            old(self)@.len() > 0 ==> r == Some(old(self)@[0]) && final(self)@ == old(
                self,
            )@.subrange(1, old(self)@.len() as int) && final(mem).is_record(old(self)@[0])
                && final(mem).rec_link(old(self)@[0]).is_unlinked(),
            forall|a: usize|
                #[trigger] old(mem).is_record(a) && (old(self)@.len() == 0 || a != old(self)@[0])
                    ==> final(mem).rec_link(a) == old(mem).rec_link(a),
    {
        match self.head {
            None => {
                proof {
                    assert(old(self)@.len() == 0);
                }
                None
            },
            Some(h) => {
                proof {
                    assert(h == old(self)@[0]);
                    assert(old(mem).is_record(h));
                }
                let n: Option<usize> = self.ops.next(mem, h);
                self.head = n;
                self.ops.release_link(mem, h);
                proof {
                    let s = old(self).recs@;
                    let n_ = s.len() as int;
                    self.recs@ = s.subrange(1, n_);
                    assert forall|i: int| 1 <= i < n_ implies mem.is_record(#[trigger] s[i])
                        && mem.rec(s[i]) == old(mem).rec(s[i]) by {
                        assert(old(mem).is_record(s[i]));
                        assert(s[i] != h);
                    }
                    assert forall|i: int| 0 <= i < self.recs@.len() implies mem.rec_link(
                        #[trigger] self.recs@[i],
                    ).next == (if i + 1 < self.recs@.len() {
                        Some(self.recs@[i + 1])
                    } else {
                        None::<usize>
                    }) by {
                        assert(self.recs@[i] == s[i + 1]);
                    }
                }
                Some(h)
            },
        }
    }

    /// Collect the record addresses the list links, in order.
    pub fn to_vec(&self, mem: &Arena<SinglyLink>) -> (v: Vec<usize>)
        requires
            self.inv(*mem),
        ensures
            v@ == self@,
    {
        let mut v: Vec<usize> = Vec::new();
        let mut cur: Option<usize> = self.head;
        while cur.is_some()
            invariant
                self.inv(*mem),
                v@.len() <= self@.len(),
                v@ == self@.subrange(0, v@.len() as int),
                cur == (if v@.len() < self@.len() {
                    Some(self@[v@.len() as int])
                } else {
                    None::<usize>
                }),
            decreases self@.len() - v@.len(),
        {
            let c: usize = cur.unwrap();
            proof {
                assert(c == self.recs@[v@.len() as int]);
                assert(mem.is_record(c));
            }
            v.push(c);
            cur = self.ops.next(mem, c);
            proof {
                assert(v@ =~= self@.subrange(0, v@.len() as int));
            }
        }
        proof {
            assert(v@ =~= self@);
        }
        v
    }
}

} // verus!
