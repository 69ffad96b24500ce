use intrusive_collections_dyn::arena::Arena;
use intrusive_collections_dyn::linked_list::{DoublyLink, DynLinkedList};
use intrusive_collections_dyn::{DynAdaptor, DynBinding, LinkedListDynLink};

#[test]
fn happy() {
    let mut mem: Arena<DoublyLink> = Arena::new();
    let mut ll = DynLinkedList::new();
    let b1 = DynBinding { offset: 1 };
    let b2 = DynBinding { offset: 2 };
    let t1 = mem.alloc_element(String::from("test"), b1);
    let t2 = mem.alloc_element(String::from("test2"), b2);
    ll.push_back(&mut mem, b1.get_link(t1));
    ll.push_back(&mut mem, b2.get_link(t2));

    let r = ll.pop_front(&mut mem).unwrap();
    let v = LinkedListDynLink::get_dyn_value(&mem, r);
    assert_eq!(mem.name(v).as_str(), "test");
    let r = ll.pop_front(&mut mem).unwrap();
    let v = LinkedListDynLink::get_dyn_value(&mem, r);
    assert_eq!(mem.name(v).as_str(), "test2");
}

#[test]
fn empty_list_reports_empty_and_accepts_insertion() {
    let mut mem: Arena<DoublyLink> = Arena::new();
    let mut ll = DynLinkedList::new();
    assert!(ll.is_empty());
    assert_eq!(ll.to_vec(&mem), Vec::<usize>::new());
    assert_eq!(ll.pop_front(&mut mem), None);

    let b = DynBinding { offset: 4 };
    let t = mem.alloc_element(String::from("only"), b);
    let r = b.get_link(t);
    ll.push_back(&mut mem, r);
    assert!(!ll.is_empty());
    assert_eq!(ll.to_vec(&mem), vec![r]);
    assert_eq!(ll.pop_front(&mut mem), Some(r));
    assert!(ll.is_empty());
}

#[test]
fn remove_middle_of_three() {
    let mut mem: Arena<DoublyLink> = Arena::new();
    let mut ll = DynLinkedList::new();
    let b1 = DynBinding { offset: 1 };
    let b2 = DynBinding { offset: 2 };
    let b3 = DynBinding { offset: 3 };
    let t1 = mem.alloc_element(String::from("first"), b1);
    let t2 = mem.alloc_element(String::from("middle"), b2);
    let t3 = mem.alloc_element(String::from("last"), b3);
    let r1 = b1.get_link(t1);
    let r2 = b2.get_link(t2);
    let r3 = b3.get_link(t3);
    ll.push_back(&mut mem, r1);
    ll.push_back(&mut mem, r2);
    ll.push_back(&mut mem, r3);

    ll.remove(&mut mem, r2);
    assert_eq!(ll.to_vec(&mem), vec![r1, r3]);

    // The two remaining records still recover their own elements.
    let v1 = LinkedListDynLink::get_dyn_value(&mem, r1);
    let v3 = LinkedListDynLink::get_dyn_value(&mem, r3);
    assert_eq!(v1, t1);
    assert_eq!(v3, t3);
    assert_eq!(mem.name(v1).as_str(), "first");
    assert_eq!(mem.name(v3).as_str(), "last");

    // The removed record is unlinked but untouched otherwise: it still
    // recovers its element, and it can go back into the collection.
    let v2 = LinkedListDynLink::get_dyn_value(&mem, r2);
    assert_eq!(mem.name(v2).as_str(), "middle");
    ll.push_back(&mut mem, r2);
    assert_eq!(ll.to_vec(&mem), vec![r1, r3, r2]);
}

#[test]
fn remove_front_and_back() {
    let mut mem: Arena<DoublyLink> = Arena::new();
    let mut ll = DynLinkedList::new();
    let b = DynBinding { offset: 1 };
    let r1 = b.get_link(mem.alloc_element(String::from("a"), b));
    let r2 = b.get_link(mem.alloc_element(String::from("b"), b));
    let r3 = b.get_link(mem.alloc_element(String::from("c"), b));
    ll.push_back(&mut mem, r1);
    ll.push_back(&mut mem, r2);
    ll.push_back(&mut mem, r3);
    ll.remove(&mut mem, r1);
    assert_eq!(ll.to_vec(&mem), vec![r2, r3]);
    ll.remove(&mut mem, r3);
    assert_eq!(ll.to_vec(&mem), vec![r2]);
    ll.remove(&mut mem, r2);
    assert!(ll.is_empty());
}

#[test]
fn push_front_and_pop_back_make_a_deque() {
    let mut mem: Arena<DoublyLink> = Arena::new();
    let mut ll = DynLinkedList::new();
    let b = DynBinding { offset: 1 };
    let r1 = b.get_link(mem.alloc_element(String::from("a"), b));
    let r2 = b.get_link(mem.alloc_element(String::from("b"), b));
    let r3 = b.get_link(mem.alloc_element(String::from("c"), b));
    ll.push_front(&mut mem, r2);
    ll.push_front(&mut mem, r1);
    ll.push_back(&mut mem, r3);
    assert_eq!(ll.to_vec(&mem), vec![r1, r2, r3]);
    assert_eq!(ll.pop_back(&mut mem), Some(r3));
    assert_eq!(ll.pop_back(&mut mem), Some(r2));
    assert_eq!(ll.pop_back(&mut mem), Some(r1));
    assert_eq!(ll.pop_back(&mut mem), None);
    assert!(ll.is_empty());
}

#[test]
fn recover_is_idempotent_across_collection_activity() {
    let mut mem: Arena<DoublyLink> = Arena::new();
    let mut ll = DynLinkedList::new();
    let b1 = DynBinding { offset: 7 };
    let t1 = mem.alloc_element(String::from("stable"), b1);
    let r1 = b1.get_link(t1);

    let va = LinkedListDynLink::get_dyn_value(&mem, r1);
    let vb = LinkedListDynLink::get_dyn_value(&mem, r1);
    assert_eq!(va, vb);

    // Push it, push a neighbour, pop both: recovery is unchanged.
    let b2 = DynBinding { offset: 1 };
    let t2 = mem.alloc_element(String::from("noise"), b2);
    ll.push_back(&mut mem, r1);
    ll.push_back(&mut mem, b2.get_link(t2));
    ll.pop_front(&mut mem);
    ll.pop_front(&mut mem);

    let vc = LinkedListDynLink::get_dyn_value(&mem, r1);
    assert_eq!(va, vc);
    assert_eq!(mem.name(vc).as_str(), "stable");
}
