use radix_route_matcher::radix_tree::{RadixIterator, RadixTree};
use radix_route_matcher::rax::Rax;
use std::collections::BTreeMap;

fn routes(keys: &[&str]) -> RadixTree {
    let mut tree = RadixTree::new().unwrap();
    for (i, k) in keys.iter().enumerate() {
        tree.insert(k, i as i32 + 1).unwrap();
    }
    tree
}

#[test]
fn previous_match_walks_back_over_the_prefixes() {
    let tree = routes(&["/", "/a", "/a/b", "/a/c", "/b"]);
    let mut iter = tree.create_iter().unwrap();
    let path = "/a/b/x";
    assert!(tree.search(&mut iter, path));
    assert_eq!(tree.previous_match(&mut iter, path), Some(3));
    assert_eq!(iter.key(), Some(&b"/a/b"[..]));
    assert_eq!(tree.previous_match(&mut iter, path), Some(2));
    assert_eq!(tree.previous_match(&mut iter, path), Some(1));
    assert_eq!(tree.previous_match(&mut iter, path), None);
    assert_eq!(iter.key(), None);
    assert_eq!(tree.previous_match(&mut iter, path), None);
}

#[test]
fn previous_match_skips_keys_that_are_no_prefix() {
    let tree = routes(&["/a", "/a/a", "/a/a/a", "/a/a/b", "/a/b"]);
    let mut iter = tree.create_iter().unwrap();
    let path = "/a/b";
    assert!(tree.search(&mut iter, "/a/b"));
    assert_eq!(tree.previous_match(&mut iter, path), Some(5));
    // "/a/a/b", "/a/a/a" and "/a/a" come before and are no prefixes.
    assert_eq!(tree.previous_match(&mut iter, path), Some(1));
    assert_eq!(tree.previous_match(&mut iter, path), None);
}

#[test]
fn next_match_walks_on_to_the_longer_prefixes() {
    let tree = routes(&["/", "/a", "/a/b", "/a/c", "/b"]);
    let mut iter = tree.create_iter().unwrap();
    let path = "/a/b/x";
    assert!(tree.search(&mut iter, "/"));
    assert_eq!(tree.next_match(&mut iter, path), Some(1));
    assert_eq!(tree.next_match(&mut iter, path), Some(2));
    assert_eq!(tree.next_match(&mut iter, path), Some(3));
    assert_eq!(iter.key(), Some(&b"/a/b"[..]));
    assert_eq!(tree.next_match(&mut iter, path), None);
    assert_eq!(iter.key(), None);
}

#[test]
fn next_match_retries_until_a_prefix_is_found() {
    let tree = routes(&["a", "aa", "ab", "abc"]);
    let mut iter = tree.create_iter().unwrap();
    let path = "abcd";
    assert!(tree.search(&mut iter, "a"));
    assert_eq!(tree.next_match(&mut iter, path), Some(1));
    // "aa" follows and is no prefix: the walk goes on to "ab".
    assert_eq!(tree.next_match(&mut iter, path), Some(3));
    assert_eq!(tree.next_match(&mut iter, path), Some(4));
    assert_eq!(tree.next_match(&mut iter, path), None);
}

#[test]
fn matching_on_a_cursor_that_is_nowhere_finds_nothing() {
    let tree = routes(&["/a"]);
    let mut iter = tree.create_iter().unwrap();
    assert_eq!(tree.next_match(&mut iter, "/a"), None);
    assert_eq!(tree.previous_match(&mut iter, "/a"), None);
    assert_eq!(tree.next_prefix(&mut iter, "/a"), None);
}

#[test]
fn cursor_queries_take_bytes_that_are_no_text() {
    let mut t = Rax::new();
    t.insert(&[0xff], 1).unwrap();
    t.insert(&[0xff, 0x00], 2).unwrap();
    t.insert(&[0xff, 0x00, 0xfe], 3).unwrap();
    t.insert(&[0x00], 4).unwrap();
    let mut it = RadixIterator::new(&t);
    assert_eq!(it.longest_prefix(&[0xff, 0x00, 0xfe, 0x01]), Some(3));
    assert_eq!(it.find_all_prefixes(&[0xff, 0x00, 0xff]), vec![2, 1]);
    assert_eq!(it.longest_prefix(&[0x00, 0x00]), Some(4));
    assert_eq!(it.longest_prefix(&[0x01]), None);
    assert!(it.search(&[0xff, 0x00, 0xfe]));
    assert_eq!(it.next_prefix(&[0xff, 0x00, 0xfe]), Some(3));
    it.stop();
    assert_eq!(it.key(), None);
    assert_eq!(it.value(), None);
}

#[test]
fn the_trie_stays_compressed() {
    let mut t = Rax::new();
    assert!(t.is_compressed());
    for k in ["romane", "romanus", "romulus", "rubens", "ruber", "rubicon", "rubicundus", "r", ""] {
        t.insert(k.as_bytes(), 1).unwrap();
        assert!(t.is_compressed());
    }
    for k in ["romanus", "r", "rubicon", "", "romane", "rubens", "ruber", "romulus", "rubicundus"] {
        assert_eq!(t.remove(k.as_bytes()), Ok(()));
        assert!(t.is_compressed());
        assert_eq!(t.find(k.as_bytes()), None);
    }
    let mut it = radix_route_matcher::iterator::RaxIterator::new(&t);
    assert!(!it.seek_at_or_before(&[0xff]));
}

#[test]
fn reinserting_a_key_adds_no_key() {
    let mut t = Rax::new();
    for k in ["a", "ab", "abc", "b"] {
        t.insert(k.as_bytes(), 1).unwrap();
    }
    let count = |t: &Rax| {
        let mut it = radix_route_matcher::iterator::RaxIterator::new(t);
        let mut n = 0;
        if it.seek_at_or_before(&[0xff]) {
            while it.previous() {
                n += 1;
            }
        }
        n
    };
    assert_eq!(count(&t), 4);
    assert_eq!(t.insert(b"ab", 9), Ok(Some(1)));
    assert_eq!(count(&t), 4);
    assert_eq!(t.find(b"ab"), Some(9));
    assert_eq!(t.find(b"abc"), Some(1));
}

struct Lcg(u64);

impl Lcg {
    fn next(&mut self) -> u64 {
        self.0 = self.0.wrapping_mul(6364136223846793005).wrapping_add(1442695040888963407);
        self.0 >> 33
    }

    fn key(&mut self, max: u64) -> Vec<u8> {
        let len = (self.next() % max) as usize;
        (0..len).map(|_| b"ab/"[(self.next() % 3) as usize]).collect()
    }
}

#[test]
fn random_prefix_queries_agree_with_a_search_by_hand() {
    let mut rng = Lcg(7);
    for _ in 0..40 {
        let mut t = Rax::new();
        let mut model: BTreeMap<Vec<u8>, i32> = BTreeMap::new();
        for v in 0..60 {
            let k = rng.key(6);
            if rng.next() % 4 == 0 {
                assert_eq!(t.remove(&k).is_ok(), model.remove(&k).is_some());
            } else {
                t.insert(&k, v).unwrap();
                model.insert(k, v);
            }
            assert!(t.is_compressed());
        }
        let mut it = RadixIterator::new(&t);
        for _ in 0..60 {
            let q = rng.key(8);
            let mut want: Vec<i32> = Vec::new();
            for n in (0..=q.len()).rev() {
                if let Some(v) = model.get(&q[..n]) {
                    want.push(*v);
                }
            }
            assert_eq!(it.longest_prefix(&q), want.first().copied());
            assert_eq!(it.find_all_prefixes(&q), want);
            // Walk back from the last key up to the query.
            let mut back: Vec<i32> = Vec::new();
            if it.search(&q) {
                while let Some(v) = it.previous_match(&q) {
                    back.push(v);
                }
            }
            assert_eq!(back, want);
            // Walk on from the first key.
            let mut on: Vec<i32> = Vec::new();
            if let Some(first) = model.keys().next() {
                assert!(it.search(first));
                while let Some(v) = it.next_match(&q) {
                    on.push(v);
                }
            }
            want.reverse();
            assert_eq!(on, want);
        }
    }
}

#[test]
fn the_route_cursor_steps_through_the_routes_in_order() {
    let tree = routes(&["/b", "/a", "/a/b", "/c"]);
    let mut iter = tree.create_iter().unwrap();
    assert!(!iter.next());
    assert!(iter.search(b"/a"));
    let mut seen: Vec<(Vec<u8>, i32)> = Vec::new();
    while iter.next() {
        seen.push((iter.key().unwrap().to_vec(), iter.value().unwrap()));
    }
    assert_eq!(
        seen,
        vec![
            (b"/a".to_vec(), 2),
            (b"/a/b".to_vec(), 3),
            (b"/b".to_vec(), 1),
            (b"/c".to_vec(), 4),
        ]
    );
    assert!(iter.search(b"/b"));
    assert!(iter.previous());
    assert_eq!(iter.key(), Some(&b"/b"[..]));
    assert!(iter.previous());
    assert_eq!(iter.key(), Some(&b"/a/b"[..]));
    assert!(iter.previous());
    assert!(!iter.previous());
    assert_eq!(iter.value(), None);
}

#[test]
fn a_new_route_cursor_holds_no_frame() {
    let tree = routes(&["/a", "/a/b"]);
    let mut iter = tree.create_iter().unwrap();
    assert_eq!(iter.depth(), 0);
    assert_eq!(tree.longest_prefix(&mut iter, "/a/b/c"), Some(2));
    assert_eq!(iter.depth(), 3);
    iter.stop();
    assert_eq!(iter.depth(), 0);
    assert_eq!(tree.find_all_prefixes(&mut iter, "/a/b/c"), vec![2, 1]);
    assert_eq!(iter.depth(), 0);
}
