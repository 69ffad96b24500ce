//! Intrusive collections over heterogeneous elements.
//!
//! A collection engine in this crate never sees the concrete type of an
//! element.  It manipulates *link records* by their address alone: a link
//! record is a fixed-size value embedded inside every participating element,
//! holding the structural state one shape of engine needs (doubly-linked,
//! XOR-encoded, singly-linked) together with one captured piece of
//! information, the per-concrete-type binding, which is the only thing that
//! distinguishes elements of different concrete layouts once they are linked.
//!
//! Recovering the element from a link record is pure address arithmetic:
//! the binding knows the fixed distance between an element's base address and
//! its embedded link record, in both directions.  The whole safety story of
//! the crate is that this arithmetic is exact: `get_value` after `get_link`
//! returns the address it started from, and the captured binding of a record
//! is never overwritten once the owning element exists.
//!
//! Addresses here are indices into an [`arena::Arena`], the crate's model of
//! the address space in which elements and their embedded records live.

use vstd::prelude::*;

pub mod arena;
pub mod linked_list;
pub mod rbtree;
pub mod singly_linked_list;
pub mod xor_linked_list;

use crate::arena::Arena;

verus! {

/// Per-concrete-type binding: the two address translations between an
/// element's base address and the address of its embedded link record.
///
/// One binding exists per (concrete element layout, link field) pair; it is
/// fixed when the element is laid out and captured into the element's link
/// record exactly once.
pub trait DynAdaptor {
    /// The distance, in cells, from the element's base address to its
    /// embedded link record.
    spec fn spec_offset(&self) -> usize;

    /// Address of the embedded link record of the element based at `value`.
    fn get_link(&self, value: usize) -> (link: usize)
        requires
            value + self.spec_offset() <= usize::MAX,
        ensures
            link == value + self.spec_offset(),
    ;

    /// Base address of the element whose embedded link record sits at
    /// `link`.  Exact inverse of [`DynAdaptor::get_link`].
    fn get_value(&self, link: usize) -> (value: usize)
        requires
            self.spec_offset() <= link,
        ensures
            value == link - self.spec_offset(),
    ;
}

/// The one concrete binding shape: a plain cell offset.
///
/// Distinct concrete element layouts use distinct offsets; the offset is all
/// a record needs to capture in order to recover its owning element later.
#[derive(Clone, Copy)]
pub struct DynBinding {
    /// Distance from the element's base address to its embedded link record.
    pub offset: usize,
}

impl DynAdaptor for DynBinding {
    open spec fn spec_offset(&self) -> usize {
        self.offset
    }

    fn get_link(&self, value: usize) -> (link: usize) {
        value + self.offset
    }

    fn get_value(&self, link: usize) -> (value: usize) {
        link - self.offset
    }
}

/// Offset inverse law: translating an element address to its link record
/// address and back returns the original address, for every binding and
/// every element address at which the translation is defined.
pub proof fn lemma_offset_round_trip<A: DynAdaptor>(a: A, value: usize, link: usize, value2: usize)
    requires
        value + a.spec_offset() <= usize::MAX,
        link == value + a.spec_offset(),
        value2 == link - a.spec_offset(),
    ensures
        value2 == value,
{
}

/// Structural state of a link record, for one shape of collection engine.
///
/// Every shape has a distinguished *unlinked* state, the state a record is
/// born in and returns to when its element leaves a collection.
pub trait LinkState: Sized + Copy {
    /// Whether this state is the shape's unlinked state.
    spec fn is_unlinked(self) -> bool;

    /// The unlinked state a fresh record starts in.
    fn unlinked() -> (s: Self)
        ensures
            s.is_unlinked(),
    ;
}

/// A link record: the structural state one engine shape needs, plus the
/// captured per-concrete-type binding.
///
/// A record is embedded in its owning element when the element is laid out,
/// lives exactly as long as the element, and its address is the identity a
/// collection engine tracks.  The captured binding is set once, at
/// construction, and no operation of this crate ever overwrites it.
pub struct LinkedListDynLink<S> {
    /// Structural state, touched only by the engine's structural operations.
    pub link: S,
    /// The captured binding through which the owning element is recovered.
    pub binding: DynBinding,
}

impl<S: LinkState> LinkedListDynLink<S> {
    /// A fresh record: unlinked structural state, with `binding` captured.
    pub fn new(binding: DynBinding) -> (r: Self)
        ensures
            r.link.is_unlinked(),
            r.binding == binding,
    {
        LinkedListDynLink { link: S::unlinked(), binding }
    }

    /// Recover the base address of the element owning the record at `link`,
    /// through the binding that record captured.
    ///
    /// This is the type-erasure bridge: the caller holds only a record
    /// address, and the captured binding alone decides which translation is
    /// applied.  The result is a function of the arena and the address, so
    /// repeated calls without intervening reinitialization agree.
    pub fn get_dyn_value(mem: &Arena<S>, link: usize) -> (value: usize)
        requires
            mem.wf(),
            mem.is_record(link),
        ensures
            value == mem.dyn_value(link),
            mem.is_value(value),
    {
        let off: usize = mem.offset_at(link);
        link - off
    }
}

/// Recovery is idempotent: recovering from the same record address twice,
/// with no reinitialization of the record in between, yields one and the
/// same element address.  [`LinkedListDynLink::get_dyn_value`] pins its
/// result to `dyn_value`, so any two of its calls on one arena agree.
pub proof fn lemma_recover_idempotent<S>(mem: Arena<S>, link: usize, v1: usize, v2: usize)
    requires
        mem.is_record(link),
        v1 == mem.dyn_value(link),
        v2 == mem.dyn_value(link),
    ensures
        v1 == v2,
{
}

/// Round-trip of identity through type erasure: two records laid out by
/// elements of different concrete layouts, sharing one collection, each
/// keep recovering their own element — base address and payload — across
/// any structural activity.  Every collection operation of this crate keeps
/// the arena's footprint, so this law carries recovery across arbitrary
/// insertions, removals and traversals.
pub proof fn lemma_heterogeneous_round_trip<S>(m0: Arena<S>, m1: Arena<S>, r1: usize, r2: usize)
    requires
        m0.wf(),
        crate::arena::same_footprint(m0, m1),
        m0.is_record(r1),
        m0.is_record(r2),
    ensures
        m1.dyn_value(r1) == m0.dyn_value(r1),
        m1.dyn_value(r2) == m0.dyn_value(r2),
        m1.dyn_name(r1) == m0.dyn_name(r1),
        m1.dyn_name(r2) == m0.dyn_name(r2),
{
    crate::arena::lemma_dispatch_preserved(m0, m1, r1);
    crate::arena::lemma_dispatch_preserved(m0, m1, r2);
}

/// The structural-operations surface a collection engine calls.
///
/// One value of this type serves a whole collection; it carries no
/// element-type information.  Each engine shape gives it the operations that
/// shape needs, every one of them a pure read or write of one record's
/// structural state.
pub struct LinkedListDynLinkOps<S> {
    marker: core::marker::PhantomData<S>,
}

impl<S> LinkedListDynLinkOps<S> {
    /// The stateless operations value.
    pub fn new() -> (r: Self) {
        LinkedListDynLinkOps { marker: core::marker::PhantomData }
    }
}

} // verus!
