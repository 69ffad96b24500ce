//! The address space in which elements and their link records live.
//!
//! An [`Arena`] is a sequence of cells; an address is a cell index.  An
//! element occupies a contiguous run of cells: its payload at the base
//! address, and its embedded link record at `base + offset`, where the
//! offset is the per-concrete-type binding distance.  Different concrete
//! layouts use different offsets, so the records of a heterogeneous
//! collection sit at different distances from their owning elements —
//! exactly the situation the captured binding resolves.
//!
//! The arena enforces the crate's one standing invariant: once an element is
//! laid out, the binding captured in its record is never overwritten, and
//! the payload the record recovers to stays where it is.  Collection engines
//! only ever rewrite the structural state of records.

use vstd::prelude::*;

use crate::{DynBinding, LinkState, LinkedListDynLink};

verus! {

/// One cell of the address space.
pub enum Slot<S> {
    /// Unoccupied padding.
    Free,
    /// An element's payload: what the element's polymorphic interface
    /// answers when asked for its name.
    Value(String),
    /// An embedded link record.
    Record(LinkedListDynLink<S>),
}

/// The address space.  Address `0` is reserved so that every record has a
/// nonzero address (the XOR-encoded shape uses `0` as its null).
pub struct Arena<S> {
    slots: Vec<Slot<S>>,
}

impl<S> View for Arena<S> {
    type V = Seq<Slot<S>>;

    closed spec fn view(&self) -> Seq<Slot<S>> {
        self.slots@
    }
}

impl<S> Arena<S> {
    /// Whether a link record sits at address `a`.
    pub open spec fn is_record(self, a: usize) -> bool {
        a < self@.len() && self@[a as int] is Record
    }

    /// The record at address `a`.
    pub open spec fn rec(self, a: usize) -> LinkedListDynLink<S>
        recommends
            self.is_record(a),
    {
        self@[a as int]->Record_0
    }

    /// Structural state of the record at `a`.
    pub open spec fn rec_link(self, a: usize) -> S
        recommends
            self.is_record(a),
    {
        self.rec(a).link
    }

    /// Captured binding offset of the record at `a`.
    pub open spec fn rec_off(self, a: usize) -> usize
        recommends
            self.is_record(a),
    {
        self.rec(a).binding.offset
    }

    /// Whether an element payload sits at address `a`.
    pub open spec fn is_value(self, a: usize) -> bool {
        a < self@.len() && self@[a as int] is Value
    }

    /// The payload at address `a`.
    pub open spec fn name_at(self, a: usize) -> Seq<char>
        recommends
            self.is_value(a),
    {
        (self@[a as int]->Value_0)@
    }

    /// Base address of the element owning the record at `a`: the record
    /// address translated back through the captured binding.
    pub open spec fn dyn_value(self, a: usize) -> usize
        recommends
            self.is_record(a),
    {
        (a - self.rec_off(a)) as usize
    }

    /// The payload the record at `a` recovers to.
    pub open spec fn dyn_name(self, a: usize) -> Seq<char>
        recommends
            self.is_record(a),
    {
        self.name_at(self.dyn_value(a))
    }

    /// Well-formedness: address `0` is reserved, and every record was laid
    /// out by an element: its captured offset leads back, within bounds, to
    /// that element's payload.
    pub open spec fn wf(self) -> bool {
        &&& 1 <= self@.len()
        &&& self@[0] is Free
        &&& forall|a: usize|
            #[trigger] self.is_record(a) ==> 1 <= self.rec_off(a) && self.rec_off(a) < a
                && self.is_value((a - self.rec_off(a)) as usize)
    }

    /// A fresh, empty address space.
    pub fn new() -> (r: Self)
        ensures
            r.wf(),
            r@.len() == 1,
            forall|a: usize| !(#[trigger] r.is_record(a)) && !r.is_value(a),
    {
        let mut slots: Vec<Slot<S>> = Vec::new();
        slots.push(Slot::Free);
        Arena { slots }
    }

    /// Read the captured binding offset of the record at `r`.
    pub fn offset_at(&self, r: usize) -> (off: usize)
        requires
            self.is_record(r),
        ensures
            off == self.rec_off(r),
    {
        match &self.slots[r] {
            Slot::Record(l) => l.binding.offset,
            _ => vstd::pervasive::unreached(),
        }
    }

    /// Read the payload at `a`.
    pub fn name(&self, a: usize) -> (n: &String)
        requires
            self.is_value(a),
        ensures
            n@ == self.name_at(a),
    {
        match &self.slots[a] {
            Slot::Value(n) => n,
            _ => vstd::pervasive::unreached(),
        }
    }

    /// Overwrite the structural state of the record at `r`.  The captured
    /// binding is kept: this is the only way any part of this crate touches
    /// a record once it exists.
    pub fn set_link(&mut self, r: usize, s: S)
        requires
            old(self).is_record(r),
        ensures
            final(self)@ == old(self)@.update(
                r as int,
                Slot::Record(LinkedListDynLink { link: s, binding: old(self).rec(r).binding }),
            ),
            final(self).is_record(r),
            final(self).rec_link(r) == s,
            final(self).rec_off(r) == old(self).rec_off(r),
            same_footprint(*old(self), *final(self)),
            old(self).wf() ==> final(self).wf(),
            forall|a: usize|
                #[trigger] old(self).is_record(a) && a != r ==> final(self).is_record(a)
                    && final(self).rec(a) == old(self).rec(a),
            forall|a: usize|
                #[trigger] old(self).is_value(a) ==> final(self).is_value(a)
                    && final(self).name_at(a) == old(self).name_at(a),
    {
        let b: DynBinding = match &self.slots[r] {
            Slot::Record(l) => l.binding,
            _ => vstd::pervasive::unreached(),
        };
        self.slots[r] = Slot::Record(LinkedListDynLink { link: s, binding: b });
        proof {
            assert forall|a: usize| #[trigger] old(self).is_value(a) implies self.is_value(a)
                && self.name_at(a) == old(self).name_at(a) by {
                assert(self@[a as int] == old(self)@[a as int]);
            }
            if old(self).wf() {
                assert forall|a: usize| #[trigger] self.is_record(a) implies 1 <= self.rec_off(a)
                    && self.rec_off(a) < a && self.is_value((a - self.rec_off(a)) as usize) by {
                    assert(old(self).is_record(a));
                    assert(self.rec_off(a) == old(self).rec_off(a));
                    assert(old(self).is_value((a - old(self).rec_off(a)) as usize));
                }
            }
        }
    }

}

impl<S: Copy> Arena<S> {
    /// Read the structural state of the record at `r`.
    pub fn link_of(&self, r: usize) -> (s: S)
        requires
            self.is_record(r),
        ensures
            s == self.rec_link(r),
    {
        match &self.slots[r] {
            Slot::Record(l) => l.link,
            _ => vstd::pervasive::unreached(),
        }
    }
}

impl<S: LinkState> Arena<S> {
    /// Lay out a new element: its payload at the returned base address, and
    /// a fresh link record, with `binding` captured, at `base +
    /// binding.offset`.  Every existing cell is untouched.
    pub fn alloc_element(&mut self, name: String, binding: DynBinding) -> (base: usize)
        requires
            old(self).wf(),
            1 <= binding.offset,
            old(self)@.len() + binding.offset + 1 <= usize::MAX,
        ensures
            final(self).wf(),
            base == old(self)@.len(),
            final(self)@.len() == old(self)@.len() + binding.offset + 1,
            forall|i: int| 0 <= i < old(self)@.len() ==> final(self)@[i] == old(self)@[i],
            forall|a: usize|
                #[trigger] old(self).is_record(a) ==> final(self).is_record(a)
                    && final(self).rec(a) == old(self).rec(a),
            forall|a: usize|
                #[trigger] old(self).is_value(a) ==> final(self).is_value(a)
                    && final(self).name_at(a) == old(self).name_at(a),
            final(self).is_value(base),
            final(self).name_at(base) == name@,
            final(self).is_record((base + binding.offset) as usize),
            final(self).rec_off((base + binding.offset) as usize) == binding.offset,
            final(self).rec_link((base + binding.offset) as usize).is_unlinked(),
            final(self).dyn_value((base + binding.offset) as usize) == base,
            final(self).dyn_name((base + binding.offset) as usize) == name@,
    {
        let ghost gname: Seq<char> = name@;
        let base: usize = self.slots.len();
        self.slots.push(Slot::Value(name));
        let mut pad: usize = 1;
        while pad < binding.offset
            invariant
                1 <= pad <= binding.offset,
                self@.len() == base + pad,
                forall|i: int| 0 <= i < base ==> self@[i] == old(self)@[i],
                self@[base as int] is Value,
                (self@[base as int]->Value_0)@ == gname,
                forall|i: int| base < i < self@.len() ==> self@[i] is Free,
                base == old(self)@.len(),
                base + binding.offset + 1 <= usize::MAX,
            decreases binding.offset - pad,
        {
            self.slots.push(Slot::Free);
            pad = pad + 1;
        }
        let rec_addr: usize = base + binding.offset;
        self.slots.push(Slot::Record(LinkedListDynLink::new(binding)));
        proof {
            assert(self.is_value(base));
            assert(self.is_record(rec_addr));
            assert(self.rec_off(rec_addr) == binding.offset);
            assert forall|a: usize| #[trigger] self.is_record(a) implies 1 <= self.rec_off(a)
                && self.rec_off(a) < a && self.is_value((a - self.rec_off(a)) as usize) by {
                if a < old(self)@.len() {
                    assert(self@[a as int] == old(self)@[a as int]);
                    assert(old(self).is_record(a));
                    assert(old(self).is_value((a - old(self).rec_off(a)) as usize));
                    let v = (a - old(self).rec_off(a)) as usize;
                    assert(self@[v as int] == old(self)@[v as int]);
                } else if a == rec_addr {
                    assert(self.is_value(base));
                } else {
                    assert(!(self@[a as int] is Record));
                }
            }
        }
        base
    }
}

/// Two arenas with the same footprint: same size, cells of the same kind in
/// the same places, equal payloads, and records with equal captured
/// bindings.  Only structural link states may differ.
///
/// Every structural operation of this crate turns an arena into one of the
/// same footprint: what a record recovers to is therefore stable across
/// arbitrary collection activity.
pub open spec fn keeps_identity<S>(c1: Slot<S>, c2: Slot<S>) -> bool {
    match c1 {
        Slot::Free => c2 is Free,
        Slot::Value(n) => c2 is Value && (c2->Value_0)@ == n@,
        Slot::Record(r) => c2 is Record && (c2->Record_0).binding == r.binding,
    }
}

/// See [`keeps_identity`]: pointwise footprint agreement of two arenas.
pub open spec fn same_footprint<S>(m1: Arena<S>, m2: Arena<S>) -> bool {
    &&& m1@.len() == m2@.len()
    &&& forall|i: int| 0 <= i < m1@.len() ==> keeps_identity(m1@[i], #[trigger] m2@[i])
}

/// Footprint agreement is transitive, so it chains across any sequence of
/// structural operations.
pub proof fn lemma_footprint_trans<S>(m1: Arena<S>, m2: Arena<S>, m3: Arena<S>)
    requires
        same_footprint(m1, m2),
        same_footprint(m2, m3),
    ensures
        same_footprint(m1, m3),
{
    assert forall|i: int| 0 <= i < m1@.len() implies keeps_identity(m1@[i], #[trigger] m3@[i]) by {
        assert(keeps_identity(m1@[i], m2@[i]));
        assert(keeps_identity(m2@[i], m3@[i]));
    }
}

/// Recovery is stable: across any structural operation (anything that keeps
/// the footprint), a record still recovers the same element base address
/// and the same payload, through the same captured binding.
pub proof fn lemma_dispatch_preserved<S>(m1: Arena<S>, m2: Arena<S>, r: usize)
    requires
        m1.wf(),
        same_footprint(m1, m2),
        m1.is_record(r),
    ensures
        m2.is_record(r),
        m2.rec_off(r) == m1.rec_off(r),
        m2.dyn_value(r) == m1.dyn_value(r),
        m2.dyn_name(r) == m1.dyn_name(r),
{
    assert(keeps_identity(m1@[r as int], m2@[r as int]));
    let v = (r - m1.rec_off(r)) as usize;
    assert(m1.is_value(v));
    assert(keeps_identity(m1@[v as int], m2@[v as int]));
}

} // verus!
