use freelist_alloc::linked_list::LinkedList;

#[test]
fn single_node_list() {
    let list = LinkedList::new(5);
    assert_eq!(*list.value(), 5);
    assert!(!list.is_head());
}

#[test]
fn push_appends_at_the_end() {
    let mut list = LinkedList::new(1);
    list.push(2);
    list.push(3);
    assert!(list.is_head());
    assert_eq!(*list.value(), 1);
    assert_eq!(list.next(), Some(&2));
    assert_eq!(list.next(), Some(&3));
    assert!(!list.is_head());
    assert_eq!(list.next(), None);
    assert_eq!(*list.value(), 3);
}

#[test]
fn replace_changes_this_node_only() {
    let mut list = LinkedList::new('a');
    list.push('b');
    list.replace('z');
    assert_eq!(*list.value(), 'z');
    assert_eq!(list.next(), Some(&'b'));
}

#[test]
fn remove_joins_neighbours() {
    let mut list = LinkedList::new(10);
    for v in [20, 30, 40] {
        list.push(v);
    }
    list.remove(2);
    assert_eq!(list.next(), Some(&20));
    assert_eq!(list.next(), Some(&40));
    assert_eq!(list.next(), None);
}

#[test]
fn remove_last_node() {
    let mut list = LinkedList::new(1);
    list.push(2);
    list.remove(1);
    assert!(!list.is_head());
    assert_eq!(list.next(), None);
}
