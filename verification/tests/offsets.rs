use intrusive_collections_dyn::linked_list::DoublyLink;
use intrusive_collections_dyn::{DynAdaptor, DynBinding, LinkedListDynLink};

#[test]
fn get_value_inverts_get_link() {
    for off in [1usize, 2, 5, 100] {
        let b = DynBinding { offset: off };
        for base in [1usize, 9, 4096, 123_456] {
            let link = b.get_link(base);
            assert_eq!(link, base + off);
            assert_eq!(b.get_value(link), base);
        }
    }
}

#[test]
fn get_link_inverts_get_value() {
    let b = DynBinding { offset: 12 };
    for link in [12usize, 13, 777] {
        let base = b.get_value(link);
        assert_eq!(b.get_link(base), link);
    }
}

#[test]
fn fresh_record_is_unlinked_with_captured_binding() {
    let b = DynBinding { offset: 3 };
    let rec: LinkedListDynLink<DoublyLink> = LinkedListDynLink::new(b);
    assert!(!rec.link.linked);
    assert_eq!(rec.link.next, None);
    assert_eq!(rec.link.prev, None);
    assert_eq!(rec.binding.offset, 3);
}
