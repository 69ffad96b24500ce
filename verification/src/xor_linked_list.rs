//! The XOR-encoded doubly-linked structural shape.
//!
//! Each record stores a single word: the XOR of its two neighbours' record
//! addresses (with `0` standing for "no neighbour"; the arena reserves
//! address `0`, so no record ever has it).  Traversal keeps the address it
//! came from and XORs it away to find where to go next.  The operations on
//! [`LinkedListDynLinkOps`] are the structural-operations protocol for this
//! shape; [`XorDynList`] is the collection engine built on it.

use vstd::prelude::*;

use crate::arena::{same_footprint, Arena};
use crate::{LinkState, LinkedListDynLinkOps};

verus! {

/// Structural state of one record in an XOR-encoded collection.
#[derive(Clone, Copy)]
pub struct XorLink {
    /// Whether the record is currently held by a collection.
    pub linked: bool,
    /// XOR of the addresses of the two neighbouring records.
    pub both: usize,
}

impl LinkState for XorLink {
    open spec fn is_unlinked(self) -> bool {
        &&& !self.linked
        &&& self.both == 0
    }

    fn unlinked() -> (s: Self) {
        XorLink { linked: false, both: 0 }
    }
}

/// Address of a neighbour, with `0` for none.
pub open spec fn enc(o: Option<usize>) -> usize {
    match o {
        None => 0,
        Some(a) => a,
    }
}

/// Inverse of [`enc`] on nonzero addresses.
pub open spec fn dec(x: usize) -> Option<usize> {
    if x == 0 {
        None
    } else {
        Some(x)
    }
}

/// The XOR identities the encoding rests on.
proof fn lemma_xor_basics(a: usize, b: usize)
    by (bit_vector)
    ensures
        a ^ 0 == a,
        0 ^ a == a,
        (a ^ b) ^ b == a,
        (a ^ b) ^ a == b,
        a ^ b == b ^ a,
{
}

impl LinkedListDynLinkOps<XorLink> {
    /// Take hold of an unlinked record for insertion bookkeeping.
    pub fn acquire_link(&self, mem: &mut Arena<XorLink>, ptr: usize) -> (r: bool)
        requires
            old(mem).is_record(ptr),
        ensures
            r == old(mem).rec_link(ptr).is_unlinked(),
            same_footprint(*old(mem), *final(mem)),
            old(mem).wf() ==> final(mem).wf(),
            final(mem).is_record(ptr),
            r ==> final(mem).rec_link(ptr) == (XorLink { linked: true, both: 0 }),
            !r ==> *final(mem) == *old(mem),
            forall|a: usize|
                #[trigger] old(mem).is_record(a) && a != ptr ==> final(mem).is_record(a)
                    && final(mem).rec(a) == old(mem).rec(a),
    {
        let s: XorLink = mem.link_of(ptr);
        if !s.linked && s.both == 0 {
            mem.set_link(ptr, XorLink { linked: true, both: 0 });
            true
        } else {
            false
        }
    }

    /// Give a record back: reset its structural state to unlinked.
    pub fn release_link(&self, mem: &mut Arena<XorLink>, ptr: usize)
        requires
            old(mem).is_record(ptr),
        ensures
            same_footprint(*old(mem), *final(mem)),
            old(mem).wf() ==> final(mem).wf(),
            final(mem).is_record(ptr),
            final(mem).rec_link(ptr).is_unlinked(),
            forall|a: usize|
                #[trigger] old(mem).is_record(a) && a != ptr ==> final(mem).is_record(a)
                    && final(mem).rec(a) == old(mem).rec(a),
    {
        mem.set_link(ptr, XorLink { linked: false, both: 0 });
    }

    /// Step forward: the neighbour of `ptr` away from `prev`.
    pub fn next(&self, mem: &Arena<XorLink>, ptr: usize, prev: Option<usize>) -> (r: Option<usize>)
        requires
            mem.is_record(ptr),
        ensures
            r == dec(mem.rec_link(ptr).both ^ enc(prev)),
    {
        let p: usize = match prev {
            Some(a) => a,
            None => 0,
        };
        let x: usize = mem.link_of(ptr).both ^ p;
        if x == 0 {
            None
        } else {
            Some(x)
        }
    }

    /// Step backward: the neighbour of `ptr` away from `next`.
    pub fn prev(&self, mem: &Arena<XorLink>, ptr: usize, next: Option<usize>) -> (r: Option<usize>)
        requires
            mem.is_record(ptr),
        ensures
            r == dec(mem.rec_link(ptr).both ^ enc(next)),
    {
        let n: usize = match next {
            Some(a) => a,
            None => 0,
        };
        let x: usize = mem.link_of(ptr).both ^ n;
        if x == 0 {
            None
        } else {
            Some(x)
        }
    }

    /// Write both neighbours of the record at `ptr` at once.
    pub fn set(
        &self,
        mem: &mut Arena<XorLink>,
        ptr: usize,
        prev: Option<usize>,
        next: Option<usize>,
    )
        requires
            old(mem).is_record(ptr),
        ensures
            same_footprint(*old(mem), *final(mem)),
            old(mem).wf() ==> final(mem).wf(),
            final(mem).is_record(ptr),
            final(mem).rec_link(ptr) == (XorLink {
                linked: old(mem).rec_link(ptr).linked,
                both: enc(prev) ^ enc(next),
            }),
            forall|a: usize|
                #[trigger] old(mem).is_record(a) && a != ptr ==> final(mem).is_record(a)
                    && final(mem).rec(a) == old(mem).rec(a),
    {
        let p: usize = match prev {
            Some(a) => a,
            None => 0,
        };
        let n: usize = match next {
            Some(a) => a,
            None => 0,
        };
        let s: XorLink = mem.link_of(ptr);
        mem.set_link(ptr, XorLink { linked: s.linked, both: p ^ n });
    }

    /// Swap one neighbour of the record at `ptr` for another, leaving the
    /// other neighbour in place.
    pub fn replace_next_or_prev(
        &self,
        mem: &mut Arena<XorLink>,
        ptr: usize,
        old_n: Option<usize>,
        new_n: Option<usize>,
    )
        requires
            old(mem).is_record(ptr),
        ensures
            same_footprint(*old(mem), *final(mem)),
            old(mem).wf() ==> final(mem).wf(),
            final(mem).is_record(ptr),
            final(mem).rec_link(ptr) == (XorLink {
                linked: old(mem).rec_link(ptr).linked,
                both: old(mem).rec_link(ptr).both ^ enc(old_n) ^ enc(new_n),
            }),
            forall|a: usize|
                #[trigger] old(mem).is_record(a) && a != ptr ==> final(mem).is_record(a)
                    && final(mem).rec(a) == old(mem).rec(a),
    {
        let o: usize = match old_n {
            Some(a) => a,
            None => 0,
        };
        let w: usize = match new_n {
            Some(a) => a,
            None => 0,
        };
        let s: XorLink = mem.link_of(ptr);
        mem.set_link(ptr, XorLink { linked: s.linked, both: s.both ^ o ^ w });
    }
}

/// The neighbour at position `i - 1` of a chain, if any.
pub open spec fn prev_of(s: Seq<usize>, i: int) -> Option<usize> {
    if i > 0 {
        Some(s[i - 1])
    } else {
        None
    }
}

/// The neighbour at position `i + 1` of a chain, if any.
pub open spec fn next_of(s: Seq<usize>, i: int) -> Option<usize> {
    if i + 1 < s.len() {
        Some(s[i + 1])
    } else {
        None
    }
}

/// A sequence of record addresses forms an XOR-encoded chain in the arena.
pub open spec fn xchain_ok(s: Seq<usize>, mem: Arena<XorLink>) -> bool {
    &&& forall|i: int| 0 <= i < s.len() ==> mem.is_record(#[trigger] s[i])
    &&& forall|i: int| 0 <= i < s.len() ==> mem.rec_link(#[trigger] s[i]).linked
    &&& forall|i: int|
        0 <= i < s.len() ==> mem.rec_link(#[trigger] s[i]).both == enc(prev_of(s, i)) ^ enc(
            next_of(s, i),
        )
    &&& forall|i: int, j: int| #![trigger s[i], s[j]] 0 <= i < j < s.len() ==> s[i] != s[j]
}

/// An XOR-encoded collection over link records.
///
/// Same engine contract as the doubly-linked shape, with the two neighbour
/// pointers of each record folded into one XOR-encoded word.
pub struct XorDynList {
    head: Option<usize>,
    tail: Option<usize>,
    ops: LinkedListDynLinkOps<XorLink>,
    recs: Ghost<Seq<usize>>,
}

impl View for XorDynList {
    type V = Seq<usize>;

    closed spec fn view(&self) -> Seq<usize> {
        self.recs@
    }
}

impl XorDynList {
    /// Head and tail agree with the ends of the tracked sequence.
    pub closed spec fn wf_shape(self) -> bool {
        &&& self.head == (if self.recs@.len() > 0 {
            Some(self.recs@[0])
        } else {
            None::<usize>
        })
        &&& self.tail == (if self.recs@.len() > 0 {
            Some(self.recs@[self.recs@.len() - 1])
        } else {
            None::<usize>
        })
    }

    /// Full invariant of a list against the arena its records live in.
    pub closed spec fn inv(self, mem: Arena<XorLink>) -> bool {
        self.wf_shape() && xchain_ok(self.recs@, mem)
    }

    /// An empty list, valid against any arena.
    pub fn new() -> (l: Self)
        ensures
            l@.len() == 0,
            l.wf_shape(),
            forall|mem: Arena<XorLink>| l.inv(mem),
    {
        XorDynList {
            head: None,
            tail: None,
            ops: LinkedListDynLinkOps::new(),
            recs: Ghost(Seq::empty()),
        }
    }

    /// Whether the list links no record.
    pub fn is_empty(&self) -> (r: bool)
        requires
            self.wf_shape(),
        ensures
            r == (self@.len() == 0),
    {
        self.head.is_none()
    }

    /// Append the record at `rec` at the back.
    pub fn push_back(&mut self, mem: &mut Arena<XorLink>, rec: usize)
        requires
            old(self).inv(*old(mem)),
            old(mem).wf(),
            old(mem).is_record(rec),
            old(mem).rec_link(rec).is_unlinked(),
        ensures
            final(self).inv(*final(mem)),
            final(self).wf_shape(),
            final(mem).wf(),
            final(self)@ == old(self)@.push(rec),
            same_footprint(*old(mem), *final(mem)),
            final(mem).is_record(rec),
            forall|a: usize|
                #[trigger] old(mem).is_record(a) && a != rec && (old(self)@.len() == 0 || a
                    != old(self)@.last()) ==> final(mem).rec_link(a) == old(mem).rec_link(a),
    {
        proof {
            assert forall|i: int| 0 <= i < self.recs@.len() implies self.recs@[i] != rec by {
                assert(old(mem).rec_link(self.recs@[i]).linked);
            }
        }
        let acquired: bool = self.ops.acquire_link(mem, rec);
        proof {
            assert(acquired);
        }
        let ghost m1: Arena<XorLink> = *mem;
        match self.tail {
            None => {
                self.head = Some(rec);
                self.tail = Some(rec);
                proof {
                    assert(old(self).recs@.len() == 0);
                    self.recs@ = self.recs@.push(rec);
                    lemma_xor_basics(0, 0);
                }
            },
            Some(t) => {
                proof {
                    assert(t == old(self)@[old(self)@.len() - 1]);
                    assert(old(mem).is_record(t));
                    assert(t != rec);
                }
                self.ops.set(mem, rec, Some(t), None);
                let ghost m2: Arena<XorLink> = *mem;
                self.ops.replace_next_or_prev(mem, t, None, Some(rec));
                self.tail = Some(rec);
                proof {
                    crate::arena::lemma_footprint_trans(*old(mem), m1, m2);
                    crate::arena::lemma_footprint_trans(*old(mem), m2, *mem);
                    let s = old(self).recs@;
                    let n = s.len() as int;
                    self.recs@ = s.push(rec);
                    assert forall|i: int| 0 <= i < n - 1 implies mem.is_record(#[trigger] s[i])
                        && mem.rec(s[i]) == old(mem).rec(s[i]) by {
                        assert(old(mem).is_record(s[i]));
                        assert(s[i] != rec);
                        assert(s[i] != t);
                        assert(m1.rec(s[i]) == old(mem).rec(s[i]));
                        assert(m2.rec(s[i]) == m1.rec(s[i]));
                    }
                    assert(m2.rec_link(rec) == XorLink { linked: true, both: enc(Some(t)) ^ 0 });
                    assert(mem.rec(rec) == m2.rec(rec));
                    assert(m1.rec(t) == old(mem).rec(t));
                    assert(m2.rec(t) == m1.rec(t));
                    let ob = old(mem).rec_link(t).both;
                    assert(mem.rec_link(t) == XorLink {
                        linked: old(mem).rec_link(t).linked,
                        both: ob ^ 0 ^ rec,
                    });
                    assert(ob == enc(prev_of(s, n - 1)) ^ 0);
                    lemma_xor_basics(enc(prev_of(s, n - 1)), rec);
                    lemma_xor_basics(ob, rec);
                    assert(ob ^ 0 ^ rec == enc(prev_of(s, n - 1)) ^ rec) by {
                        lemma_xor_chain(enc(prev_of(s, n - 1)), rec);
                    }
                    let s2 = self.recs@;
                    assert forall|i: int| 0 <= i < s2.len() implies mem.rec_link(
                        #[trigger] s2[i],
                    ).both == enc(prev_of(s2, i)) ^ enc(next_of(s2, i)) by {
                        if i < n - 1 {
                            assert(s2[i] == s[i]);
                            assert(prev_of(s2, i) == prev_of(s, i));
                            assert(next_of(s2, i) == next_of(s, i));
                        } else if i == n - 1 {
                            assert(s2[i] == t);
                            assert(prev_of(s2, i) == prev_of(s, n - 1));
                            assert(next_of(s2, i) == Some(rec));
                        } else {
                            assert(s2[i] == rec);
                            assert(prev_of(s2, i) == Some(t));
                            assert(next_of(s2, i) is None);
                            lemma_xor_basics(t, 0);
                        }
                    }
                }
            },
        }
    }

    /// Detach and return the record at the front, resetting its structural
    /// state to unlinked.  Its captured binding — and so what it recovers
    /// to — is untouched.
    pub fn pop_front(&mut self, mem: &mut Arena<XorLink>) -> (r: Option<usize>)
        requires
            old(self).inv(*old(mem)),
            old(mem).wf(),
        ensures
            final(self).inv(*final(mem)),
            final(self).wf_shape(),
            final(mem).wf(),
            same_footprint(*old(mem), *final(mem)),
            old(self)@.len() == 0 ==> r is None && final(self)@ == old(self)@ && *final(mem)
                == *old(mem),
            old(self)@.len() > 0 ==> r == Some(old(self)@[0]) && final(self)@ == old(
                self,
            )@.subrange(1, old(self)@.len() as int) && final(mem).is_record(old(self)@[0])
                && final(mem).rec_link(old(self)@[0]).is_unlinked(),
    {
        match self.head {
            None => {
                proof {
                    assert(old(self)@.len() == 0);
                }
                None
            },
            Some(h) => {
                let ghost s = old(self).recs@;
                let ghost n_ = s.len() as int;
                proof {
                    assert(h == s[0]);
                    assert(old(mem).is_record(h));
                    lemma_xor_basics(enc(next_of(s, 0)), 0);
                }
                let nx: Option<usize> = self.ops.next(mem, h, None);
                proof {
                    if n_ > 1 {
                        assert(mem.is_record(s[1]));
                        assert(s[1] >= 1);
                        assert(nx == Some(s[1]));
                    } else {
                        assert(nx is None);
                    }
                }
                match nx {
                    None => {
                        self.tail = None;
                    },
                    Some(nh) => {
                        proof {
                            assert(nh == s[1]);
                            assert(nh != h);
                        }
                        self.ops.replace_next_or_prev(mem, nh, Some(h), None);
                    },
                }
                self.head = nx;
                let ghost m1: Arena<XorLink> = *mem;
                self.ops.release_link(mem, h);
                proof {
                    crate::arena::lemma_footprint_trans(*old(mem), m1, *mem);
                    self.recs@ = s.subrange(1, n_);
                    let s2 = self.recs@;
                    assert forall|i: int| 1 <= i < n_ implies mem.is_record(#[trigger] s[i])
                        && mem.rec_link(s[i]).linked && (i > 1 ==> mem.rec_link(s[i]) == old(
                        mem,
                    ).rec_link(s[i])) by {
                        assert(old(mem).is_record(s[i]));
                        assert(s[i] != h);
                        if i > 1 {
                            assert(s[i] != s[1]);
                            assert(m1.rec(s[i]) == old(mem).rec(s[i]));
                            assert(mem.rec(s[i]) == m1.rec(s[i]));
                        }
                    }
                    if n_ > 1 {
                        let ob = old(mem).rec_link(s[1]).both;
                        assert(ob == enc(Some(h)) ^ enc(next_of(s, 1)));
                        assert(m1.rec_link(s[1]) == XorLink {
                            linked: old(mem).rec_link(s[1]).linked,
                            both: ob ^ enc(Some(h)) ^ 0,
                        });
                        assert(mem.rec(s[1]) == m1.rec(s[1]));
                        lemma_xor_basics(h, enc(next_of(s, 1)));
                        lemma_xor_basics(h ^ enc(next_of(s, 1)), h);
                        lemma_xor_basics((h ^ enc(next_of(s, 1))) ^ h, 0);
                        assert((h ^ enc(next_of(s, 1))) ^ h == enc(next_of(s, 1)));
                        assert(mem.rec_link(s[1]).both == 0 ^ enc(next_of(s, 1)));
                    }
                    assert forall|i: int| 0 <= i < s2.len() implies mem.rec_link(
                        #[trigger] s2[i],
                    ).both == enc(prev_of(s2, i)) ^ enc(next_of(s2, i)) by {
                        assert(s2[i] == s[i + 1]);
                        if i > 0 {
                            assert(s2[i - 1] == s[i]);
                            assert(prev_of(s2, i) == prev_of(s, i + 1));
                        }
                        if i + 1 < s2.len() {
                            assert(s2[i + 1] == s[i + 2]);
                            assert(next_of(s2, i) == next_of(s, i + 1));
                        }
                    }
                }
                Some(h)
            },
        }
    }

    /// Collect the record addresses the list links, front to back.
    pub fn to_vec(&self, mem: &Arena<XorLink>) -> (v: Vec<usize>)
        requires
            self.inv(*mem),
            mem.wf(),
        ensures
            v@ == self@,
    {
        let mut v: Vec<usize> = Vec::new();
        let mut prv: Option<usize> = None;
        let mut cur: Option<usize> = self.head;
        while cur.is_some()
            invariant
                self.inv(*mem),
                mem.wf(),
                v@.len() <= self@.len(),
                v@ == self@.subrange(0, v@.len() as int),
                cur == (if v@.len() < self@.len() {
                    Some(self@[v@.len() as int])
                } else {
                    None::<usize>
                }),
                v@.len() < self@.len() ==> prv == prev_of(self.recs@, v@.len() as int),
            decreases self@.len() - v@.len(),
        {
            let c: usize = cur.unwrap();
            let ghost k = v@.len() as int;
            proof {
                assert(c == self.recs@[k]);
                assert(mem.is_record(c));
            }
            v.push(c);
            let nx: Option<usize> = self.ops.next(mem, c, prv);
            proof {
                let s = self.recs@;
                lemma_xor_basics(enc(prev_of(s, k)), enc(next_of(s, k)));
                assert(mem.rec_link(c).both ^ enc(prev_of(s, k)) == enc(next_of(s, k)));
                if k + 1 < s.len() {
                    assert(mem.is_record(s[k + 1]));
                    assert(s[k + 1] >= 1);
                    assert(nx == Some(s[k + 1]));
                } else {
                    assert(nx is None);
                }
                assert(v@ =~= s.subrange(0, v@.len() as int));
            }
            prv = Some(c);
            cur = nx;
        }
        proof {
            assert(v@ =~= self@);
        }
        v
    }

    /// Collect the record addresses the list links, back to front.
    pub fn to_vec_rev(&self, mem: &Arena<XorLink>) -> (v: Vec<usize>)
        requires
            self.inv(*mem),
            mem.wf(),
        ensures
            v@ == self@.reverse(),
    {
        let mut v: Vec<usize> = Vec::new();
        let mut nxt: Option<usize> = None;
        let mut cur: Option<usize> = self.tail;
        while cur.is_some()
            invariant
                self.inv(*mem),
                mem.wf(),
                v@.len() <= self@.len(),
                forall|j: int| 0 <= j < v@.len() ==> v@[j] == self@[self@.len() - 1 - j],
                cur == (if v@.len() < self@.len() {
                    Some(self@[self@.len() - 1 - v@.len() as int])
                } else {
                    None::<usize>
                }),
                v@.len() < self@.len() ==> nxt == next_of(
                    self.recs@,
                    self@.len() - 1 - v@.len() as int,
                ),
            decreases self@.len() - v@.len(),
        {
            let c: usize = cur.unwrap();
            let ghost k = self.recs@.len() - 1 - v@.len() as int;
            proof {
                assert(c == self.recs@[k]);
                assert(mem.is_record(c));
            }
            v.push(c);
            let px: Option<usize> = self.ops.prev(mem, c, nxt);
            proof {
                let s = self.recs@;
                lemma_xor_basics(enc(prev_of(s, k)), enc(next_of(s, k)));
                assert(mem.rec_link(c).both ^ enc(next_of(s, k)) == enc(prev_of(s, k)));
                if k > 0 {
                    assert(mem.is_record(s[k - 1]));
                    assert(s[k - 1] >= 1);
                    assert(px == Some(s[k - 1]));
                } else {
                    assert(px is None);
                }
            }
            nxt = Some(c);
            cur = px;
        }
        proof {
            assert(v@ =~= self@.reverse());
        }
        v
    }
}

/// XOR with a fresh rightmost operand distributes over a trailing zero.
proof fn lemma_xor_chain(a: usize, b: usize)
    by (bit_vector)
    ensures
        a ^ 0 ^ b == a ^ b,
        (a ^ 0) ^ 0 ^ b == a ^ b,
{
}

} // verus!
