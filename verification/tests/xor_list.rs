use intrusive_collections_dyn::arena::Arena;
use intrusive_collections_dyn::xor_linked_list::{XorDynList, XorLink};
use intrusive_collections_dyn::{DynAdaptor, DynBinding, LinkedListDynLink};

#[test]
fn xor_forward_matches_insertion_and_reverse_matches_reverse() {
    // The same two concrete layouts as the doubly-linked scenario, in an
    // independent collection instance of the XOR-encoded shape.
    let mut mem: Arena<XorLink> = Arena::new();
    let mut xl = XorDynList::new();
    let b1 = DynBinding { offset: 1 };
    let b2 = DynBinding { offset: 2 };
    let t1 = mem.alloc_element(String::from("test"), b1);
    let t2 = mem.alloc_element(String::from("test2"), b2);
    let r1 = b1.get_link(t1);
    let r2 = b2.get_link(t2);
    xl.push_back(&mut mem, r1);
    xl.push_back(&mut mem, r2);

    assert_eq!(xl.to_vec(&mem), vec![r1, r2]);
    assert_eq!(xl.to_vec_rev(&mem), vec![r2, r1]);

    let v1 = LinkedListDynLink::get_dyn_value(&mem, r1);
    let v2 = LinkedListDynLink::get_dyn_value(&mem, r2);
    assert_eq!(mem.name(v1).as_str(), "test");
    assert_eq!(mem.name(v2).as_str(), "test2");
}

#[test]
fn xor_three_elements_traverse_both_ways() {
    let mut mem: Arena<XorLink> = Arena::new();
    let mut xl = XorDynList::new();
    let b = DynBinding { offset: 1 };
    let r1 = b.get_link(mem.alloc_element(String::from("a"), b));
    let r2 = b.get_link(mem.alloc_element(String::from("b"), b));
    let r3 = b.get_link(mem.alloc_element(String::from("c"), b));
    xl.push_back(&mut mem, r1);
    xl.push_back(&mut mem, r2);
    xl.push_back(&mut mem, r3);
    assert_eq!(xl.to_vec(&mem), vec![r1, r2, r3]);
    assert_eq!(xl.to_vec_rev(&mem), vec![r3, r2, r1]);
}

#[test]
fn xor_pop_front_yields_insertion_order() {
    let mut mem: Arena<XorLink> = Arena::new();
    let mut xl = XorDynList::new();
    let b1 = DynBinding { offset: 1 };
    let b2 = DynBinding { offset: 2 };
    let t1 = mem.alloc_element(String::from("test"), b1);
    let t2 = mem.alloc_element(String::from("test2"), b2);
    let r1 = b1.get_link(t1);
    let r2 = b2.get_link(t2);
    xl.push_back(&mut mem, r1);
    xl.push_back(&mut mem, r2);

    let r = xl.pop_front(&mut mem).unwrap();
    let v = LinkedListDynLink::get_dyn_value(&mem, r);
    assert_eq!(mem.name(v).as_str(), "test");
    let r = xl.pop_front(&mut mem).unwrap();
    let v = LinkedListDynLink::get_dyn_value(&mem, r);
    assert_eq!(mem.name(v).as_str(), "test2");
    assert_eq!(xl.pop_front(&mut mem), None);
    assert!(xl.is_empty());
}

#[test]
fn xor_empty_reports_empty_and_accepts_insertion() {
    let mut mem: Arena<XorLink> = Arena::new();
    let mut xl = XorDynList::new();
    assert!(xl.is_empty());
    assert_eq!(xl.to_vec(&mem), Vec::<usize>::new());
    let b = DynBinding { offset: 2 };
    let r = b.get_link(mem.alloc_element(String::from("one"), b));
    xl.push_back(&mut mem, r);
    assert!(!xl.is_empty());
    assert_eq!(xl.to_vec(&mem), vec![r]);
}
