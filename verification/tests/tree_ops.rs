use intrusive_collections_dyn::arena::Arena;
use intrusive_collections_dyn::rbtree::{Color, TreeLink};
use intrusive_collections_dyn::{DynAdaptor, DynBinding, LinkedListDynLink, LinkedListDynLinkOps};

#[test]
fn tree_ops_wire_a_small_tree() {
    // The tree engine is external; this drives its structural-operations
    // protocol directly: acquire three records, wire them as a root with
    // two children, and read the shape back.
    let mut mem: Arena<TreeLink> = Arena::new();
    let ops: LinkedListDynLinkOps<TreeLink> = LinkedListDynLinkOps::new();
    let b1 = DynBinding { offset: 1 };
    let b2 = DynBinding { offset: 2 };
    let b3 = DynBinding { offset: 3 };
    let t1 = mem.alloc_element(String::from("root"), b1);
    let t2 = mem.alloc_element(String::from("left"), b2);
    let t3 = mem.alloc_element(String::from("right"), b3);
    let r1 = b1.get_link(t1);
    let r2 = b2.get_link(t2);
    let r3 = b3.get_link(t3);

    assert!(ops.acquire_link(&mut mem, r1));
    assert!(ops.acquire_link(&mut mem, r2));
    assert!(ops.acquire_link(&mut mem, r3));
    // A second acquire of a held record must fail and change nothing.
    assert!(!ops.acquire_link(&mut mem, r1));

    ops.set_left(&mut mem, r1, Some(r2));
    ops.set_right(&mut mem, r1, Some(r3));
    ops.set_parent(&mut mem, r2, Some(r1));
    ops.set_parent(&mut mem, r3, Some(r1));
    ops.set_color(&mut mem, r2, Color::Red);
    ops.set_color(&mut mem, r3, Color::Red);

    assert_eq!(ops.left(&mem, r1), Some(r2));
    assert_eq!(ops.right(&mem, r1), Some(r3));
    assert_eq!(ops.parent(&mem, r2), Some(r1));
    assert_eq!(ops.parent(&mem, r3), Some(r1));
    assert_eq!(ops.color(&mem, r1), Color::Black);
    assert_eq!(ops.color(&mem, r2), Color::Red);
    assert_eq!(ops.parent(&mem, r1), None);

    // Recovery still goes through each record's own captured binding.
    let v2 = LinkedListDynLink::get_dyn_value(&mem, r2);
    assert_eq!(v2, t2);
    assert_eq!(mem.name(v2).as_str(), "left");

    ops.release_link(&mut mem, r2);
    assert_eq!(ops.parent(&mem, r2), None);
    assert!(ops.acquire_link(&mut mem, r2));
}
