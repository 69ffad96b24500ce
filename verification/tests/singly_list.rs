use intrusive_collections_dyn::arena::Arena;
use intrusive_collections_dyn::singly_linked_list::{SinglyDynList, SinglyLink};
use intrusive_collections_dyn::{DynAdaptor, DynBinding, LinkedListDynLink};

#[test]
fn singly_push_front_pop_front_is_lifo() {
    let mut mem: Arena<SinglyLink> = Arena::new();
    let mut sl = SinglyDynList::new();
    let b1 = DynBinding { offset: 1 };
    let b2 = DynBinding { offset: 3 };
    let t1 = mem.alloc_element(String::from("test"), b1);
    let t2 = mem.alloc_element(String::from("test2"), b2);
    let r1 = b1.get_link(t1);
    let r2 = b2.get_link(t2);
    sl.push_front(&mut mem, r1);
    sl.push_front(&mut mem, r2);
    assert_eq!(sl.to_vec(&mem), vec![r2, r1]);

    let r = sl.pop_front(&mut mem).unwrap();
    let v = LinkedListDynLink::get_dyn_value(&mem, r);
    assert_eq!(mem.name(v).as_str(), "test2");
    let r = sl.pop_front(&mut mem).unwrap();
    let v = LinkedListDynLink::get_dyn_value(&mem, r);
    assert_eq!(mem.name(v).as_str(), "test");
    assert!(sl.is_empty());
}

#[test]
fn singly_empty_reports_empty_and_accepts_insertion() {
    let mut mem: Arena<SinglyLink> = Arena::new();
    let mut sl = SinglyDynList::new();
    assert!(sl.is_empty());
    assert_eq!(sl.pop_front(&mut mem), None);
    let b = DynBinding { offset: 1 };
    let r = b.get_link(mem.alloc_element(String::from("one"), b));
    sl.push_front(&mut mem, r);
    assert_eq!(sl.to_vec(&mem), vec![r]);
}
