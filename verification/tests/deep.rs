use radix_route_matcher::iterator::RaxIterator;
use radix_route_matcher::rax::Rax;

#[test]
fn a_deep_chain_of_nested_keys() {
    let depth = 12000;
    let key = vec![b'a'; depth];
    let mut t = Rax::new();
    for n in 1..=depth {
        assert_eq!(t.insert(&key[..n], n as i32), Ok(None));
    }
    assert!(t.is_compressed());
    for n in 1..=depth {
        assert_eq!(t.find(&key[..n]), Some(n as i32));
    }
    let mut it = RaxIterator::new(&t);
    assert!(it.seek_at_or_before(&key));
    let mut seen = 0;
    while it.move_to_nearest_enclosing_key() {
        seen += 1;
        assert_eq!(it.value(), Some((depth + 1 - seen) as i32));
    }
    assert_eq!(seen, depth);
    for n in (1..=depth).rev() {
        assert_eq!(t.remove(&key[..n]), Ok(()));
        assert!(n % 500 != 0 || t.is_compressed());
    }
    assert_eq!(t.find(b"a"), None);
}

#[test]
fn a_long_key_in_one_node() {
    let key = vec![b'x'; 100_000];
    let mut t = Rax::new();
    assert_eq!(t.insert(&key, 7), Ok(None));
    assert_eq!(t.find(&key), Some(7));
    assert_eq!(t.find(&key[..99_999]), None);
    assert_eq!(t.insert(&key[..50_000], 8), Ok(None));
    assert_eq!(t.find(&key), Some(7));
    assert_eq!(t.find(&key[..50_000]), Some(8));
    let mut it = RaxIterator::new(&t);
    assert!(it.seek_at_or_before(&key));
    assert_eq!(it.key().map(|k| k.len()), Some(100_000));
    assert!(it.next());
    assert!(it.move_to_nearest_enclosing_key());
    assert_eq!(it.key().map(|k| k.len()), Some(50_000));
    assert_eq!(t.remove(&key[..50_000]), Ok(()));
    assert_eq!(t.find(&key), Some(7));
    assert!(t.is_compressed());
}
