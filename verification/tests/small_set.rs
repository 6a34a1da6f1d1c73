use amba::small_set::{optimal_size, SmallU64Set};

#[test]
fn print_optimal_size() {
    println!("{}", optimal_size());
    assert_eq!(
        optimal_size(),
        std::mem::size_of::<std::collections::BTreeSet<u64>>() / std::mem::size_of::<u64>()
    );
}

#[test]
fn optimal_size_fits_a_tree_set() {
    assert_eq!(optimal_size(), std::mem::size_of::<std::collections::BTreeSet<u64>>() / 8);
}

#[test]
fn small_set_insert_remove() {
    let mut s = SmallU64Set::new();
    assert!(s.is_empty());
    assert!(s.insert(3));
    assert!(!s.insert(3));
    assert!(s.insert(5));
    assert_eq!(s.len(), 2);
    assert!(s.contains(&3));
    assert!(s.remove(&3));
    assert!(!s.remove(&3));
    assert!(!s.contains(&3));
    assert_eq!(s.len(), 1);
    assert_eq!(s.get_any(), 5);
}

#[test]
fn small_set_grows_past_inline_capacity() {
    let mut s = SmallU64Set::new();
    for i in 0..20u64 {
        assert!(s.insert(i * 7));
    }
    assert_eq!(s.len(), 20);
    for i in 0..20u64 {
        assert!(s.contains(&(i * 7)));
    }
    assert!(!s.contains(&1));
    let mut items = s.iter();
    items.sort();
    assert_eq!(items, (0..20u64).map(|i| i * 7).collect::<Vec<_>>());
}

#[test]
fn small_set_union_and_equality() {
    let mut a = SmallU64Set::collect(&[1, 2, 3]);
    let b = SmallU64Set::collect(&[3, 4]);
    a.union(&b);
    assert!(a.same_elements(&SmallU64Set::collect(&[4, 3, 2, 1])));
    assert!(!a.same_elements(&b));
    let c = a.clone();
    assert!(c.same_elements(&a));
}
