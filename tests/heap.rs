use rox::heap::Heap;

#[test]
fn interning_returns_the_same_handle() {
    let mut h = Heap::new();
    let a = h.alloc_string(b"hello".to_vec());
    let b = h.alloc_string(b"hello".to_vec());
    assert_eq!(a.index(), b.index());
    assert_eq!(a, b);
    let c = h.alloc_string(b"world".to_vec());
    assert_ne!(a.index(), c.index());
    assert_eq!(h.deref(a), &b"hello".to_vec());
    assert_eq!(h.deref(c), &b"world".to_vec());
}

#[test]
fn allocate_does_not_intern() {
    let mut h = Heap::new();
    let a = h.allocate(b"x".to_vec());
    let b = h.alloc_string(b"x".to_vec());
    assert_ne!(a.index(), b.index());
    let c = h.alloc_string(b"x".to_vec());
    assert_eq!(b, c);
}

#[test]
fn deref_mut_changes_a_plain_allocation() {
    let mut h = Heap::new();
    let a = h.allocate(b"ab".to_vec());
    h.deref_mut(a).push(b'c');
    assert_eq!(h.deref(a), &b"abc".to_vec());
}

#[test]
fn empty_string_interns() {
    let mut h = Heap::new();
    let a = h.alloc_string(Vec::new());
    let b = h.alloc_string(Vec::new());
    assert_eq!(a, b);
    assert!(h.deref(a).is_empty());
}

#[test]
fn byte_counter_counts_each_allocation_once() {
    let mut h = Heap::new();
    assert_eq!(h.bytes_allocated(), 0);
    h.alloc_string(b"ab".to_vec());
    assert_eq!(h.bytes_allocated(), 2 + rox::heap::ALLOCATION_OVERHEAD);
    h.alloc_string(b"ab".to_vec());
    assert_eq!(h.bytes_allocated(), 2 + rox::heap::ALLOCATION_OVERHEAD);
    h.allocate(b"xyz".to_vec());
    assert_eq!(h.bytes_allocated(), 5 + 2 * rox::heap::ALLOCATION_OVERHEAD);
}
