//! The balanced-tree structural shape.
//!
//! [`TreeLink`] is the structural state a red-black tree engine keeps in
//! each link record; the operations on [`LinkedListDynLinkOps`] are the
//! structural-operations protocol for this shape.  The tree engine itself
//! is an external collaborator consumed through this protocol: what this
//! crate adds for the tree shape — as for every shape — is the
//! record-addressed surface over which elements stay recoverable through
//! their captured bindings.

use vstd::prelude::*;

use crate::arena::{same_footprint, Arena};
use crate::{LinkState, LinkedListDynLinkOps};

verus! {

/// Color of a record in a red-black tree.
#[derive(Clone, Copy, Debug, PartialEq, Eq)]
pub enum Color {
    /// A red node.
    Red,
    /// A black node.
    Black,
}

/// Structural state of one record in a red-black tree collection.
#[derive(Clone, Copy)]
pub struct TreeLink {
    /// Whether the record is currently held by a collection.
    pub linked: bool,
    /// Address of the left child record, if any.
    pub left: Option<usize>,
    /// Address of the right child record, if any.
    pub right: Option<usize>,
    /// Address of the parent record, if any.
    pub parent: Option<usize>,
    /// Color of the node.
    pub color: Color,
}

impl LinkState for TreeLink {
    open spec fn is_unlinked(self) -> bool {
        &&& !self.linked
        &&& self.left is None
        &&& self.right is None
        &&& self.parent is None
        &&& self.color is Black
    }

    fn unlinked() -> (s: Self) {
        TreeLink { linked: false, left: None, right: None, parent: None, color: Color::Black }
    }
}

impl LinkedListDynLinkOps<TreeLink> {
    /// Take hold of an unlinked record for insertion bookkeeping.
    pub fn acquire_link(&self, mem: &mut Arena<TreeLink>, ptr: usize) -> (r: bool)
        requires
            old(mem).is_record(ptr),
        ensures
            r == old(mem).rec_link(ptr).is_unlinked(),
            same_footprint(*old(mem), *final(mem)),
            old(mem).wf() ==> final(mem).wf(),
            final(mem).is_record(ptr),
            r ==> final(mem).rec_link(ptr) == (TreeLink {
                linked: true,
                left: None,
                right: None,
                parent: None,
                color: Color::Black,
            }),
            !r ==> *final(mem) == *old(mem),
            forall|a: usize|
                #[trigger] old(mem).is_record(a) && a != ptr ==> final(mem).is_record(a)
                    && final(mem).rec(a) == old(mem).rec(a),
    {
        let s: TreeLink = mem.link_of(ptr);
        if !s.linked && s.left.is_none() && s.right.is_none() && s.parent.is_none() && matches!(
            s.color,
            Color::Black,
        ) {
            mem.set_link(
                ptr,
                TreeLink {
                    linked: true,
                    left: None,
                    right: None,
                    parent: None,
                    color: Color::Black,
                },
            );
            true
        } else {
            false
        }
    }

    /// Give a record back: reset its structural state to unlinked.
    pub fn release_link(&self, mem: &mut Arena<TreeLink>, ptr: usize)
        requires
            old(mem).is_record(ptr),
        ensures
            same_footprint(*old(mem), *final(mem)),
            old(mem).wf() ==> final(mem).wf(),
            final(mem).is_record(ptr),
            final(mem).rec_link(ptr).is_unlinked(),
            forall|a: usize|
                #[trigger] old(mem).is_record(a) && a != ptr ==> final(mem).is_record(a)
                    && final(mem).rec(a) == old(mem).rec(a),
    {
        mem.set_link(
            ptr,
            TreeLink { linked: false, left: None, right: None, parent: None, color: Color::Black },
        );
    }

    /// Read the left child of the record at `ptr`.
    pub fn left(&self, mem: &Arena<TreeLink>, ptr: usize) -> (n: Option<usize>)
        requires
            mem.is_record(ptr),
        ensures
            n == mem.rec_link(ptr).left,
    {
        mem.link_of(ptr).left
    }

    /// Read the right child of the record at `ptr`.
    pub fn right(&self, mem: &Arena<TreeLink>, ptr: usize) -> (n: Option<usize>)
        requires
            mem.is_record(ptr),
        ensures
            n == mem.rec_link(ptr).right,
    {
        mem.link_of(ptr).right
    }

    /// Read the parent of the record at `ptr`.
    pub fn parent(&self, mem: &Arena<TreeLink>, ptr: usize) -> (n: Option<usize>)
        requires
            mem.is_record(ptr),
        ensures
            n == mem.rec_link(ptr).parent,
    {
        mem.link_of(ptr).parent
    }

    /// Read the color of the record at `ptr`.
    pub fn color(&self, mem: &Arena<TreeLink>, ptr: usize) -> (c: Color)
        requires
            mem.is_record(ptr),
        ensures
            c == mem.rec_link(ptr).color,
    {
        mem.link_of(ptr).color
    }

    /// Point the record at `ptr` to a new left child.
    pub fn set_left(&self, mem: &mut Arena<TreeLink>, ptr: usize, left: Option<usize>)
        requires
            old(mem).is_record(ptr),
        ensures
            same_footprint(*old(mem), *final(mem)),
            old(mem).wf() ==> final(mem).wf(),
            final(mem).is_record(ptr),
            final(mem).rec_link(ptr) == (TreeLink {
                linked: old(mem).rec_link(ptr).linked,
                left,
                right: old(mem).rec_link(ptr).right,
                parent: old(mem).rec_link(ptr).parent,
                color: old(mem).rec_link(ptr).color,
            }),
            forall|a: usize|
                #[trigger] old(mem).is_record(a) && a != ptr ==> final(mem).is_record(a)
                    && final(mem).rec(a) == old(mem).rec(a),
    {
        let s: TreeLink = mem.link_of(ptr);
        mem.set_link(ptr, TreeLink { linked: s.linked, left, right: s.right, parent: s.parent, color: s.color });
    }

    /// Point the record at `ptr` to a new right child.
    pub fn set_right(&self, mem: &mut Arena<TreeLink>, ptr: usize, right: Option<usize>)
        requires
            old(mem).is_record(ptr),
        ensures
            same_footprint(*old(mem), *final(mem)),
            old(mem).wf() ==> final(mem).wf(),
            final(mem).is_record(ptr),
            final(mem).rec_link(ptr) == (TreeLink {
                linked: old(mem).rec_link(ptr).linked,
                left: old(mem).rec_link(ptr).left,
                right,
                parent: old(mem).rec_link(ptr).parent,
                color: old(mem).rec_link(ptr).color,
            }),
            forall|a: usize|
                #[trigger] old(mem).is_record(a) && a != ptr ==> final(mem).is_record(a)
                    && final(mem).rec(a) == old(mem).rec(a),
    {
        let s: TreeLink = mem.link_of(ptr);
        mem.set_link(ptr, TreeLink { linked: s.linked, left: s.left, right, parent: s.parent, color: s.color });
    }

    /// Point the record at `ptr` to a new parent.
    pub fn set_parent(&self, mem: &mut Arena<TreeLink>, ptr: usize, parent: Option<usize>)
        requires
            old(mem).is_record(ptr),
        ensures
            same_footprint(*old(mem), *final(mem)),
            old(mem).wf() ==> final(mem).wf(),
            final(mem).is_record(ptr),
            final(mem).rec_link(ptr) == (TreeLink {
                linked: old(mem).rec_link(ptr).linked,
                left: old(mem).rec_link(ptr).left,
                right: old(mem).rec_link(ptr).right,
                parent,
                color: old(mem).rec_link(ptr).color,
            }),
            forall|a: usize|
                #[trigger] old(mem).is_record(a) && a != ptr ==> final(mem).is_record(a)
                    && final(mem).rec(a) == old(mem).rec(a),
    {
        let s: TreeLink = mem.link_of(ptr);
        mem.set_link(ptr, TreeLink { linked: s.linked, left: s.left, right: s.right, parent, color: s.color });
    }

    /// Repaint the record at `ptr`.
    pub fn set_color(&self, mem: &mut Arena<TreeLink>, ptr: usize, color: Color)
        requires
            old(mem).is_record(ptr),
        ensures
            same_footprint(*old(mem), *final(mem)),
            old(mem).wf() ==> final(mem).wf(),
            final(mem).is_record(ptr),
            final(mem).rec_link(ptr) == (TreeLink {
                linked: old(mem).rec_link(ptr).linked,
                left: old(mem).rec_link(ptr).left,
                right: old(mem).rec_link(ptr).right,
                parent: old(mem).rec_link(ptr).parent,
                color,
            }),
            forall|a: usize|
                #[trigger] old(mem).is_record(a) && a != ptr ==> final(mem).is_record(a)
                    && final(mem).rec(a) == old(mem).rec(a),
    {
        let s: TreeLink = mem.link_of(ptr);
        mem.set_link(ptr, TreeLink { linked: s.linked, left: s.left, right: s.right, parent: s.parent, color });
    }
}

} // verus!
