use radix_route_matcher::error::RaxError;
use radix_route_matcher::iterator::RaxIterator;
use radix_route_matcher::rax::Rax;
use std::collections::BTreeMap;

fn trie(keys: &[&str]) -> Rax {
    let mut t = Rax::new();
    for (i, k) in keys.iter().enumerate() {
        assert_eq!(t.insert(k.as_bytes(), i as i32), Ok(None));
    }
    t
}

fn key_of(it: &RaxIterator) -> Option<Vec<u8>> {
    it.key().map(|k| k.to_vec())
}

#[test]
fn trie_insert_find_remove() {
    let mut t = Rax::new();
    assert_eq!(t.find(b"/api"), None);
    assert_eq!(t.insert(b"/api", 1), Ok(None));
    assert_eq!(t.insert(b"/api/users", 2), Ok(None));
    assert_eq!(t.insert(b"/apx", 3), Ok(None));
    assert_eq!(t.insert(b"/a", 4), Ok(None));
    assert_eq!(t.insert(b"", 0), Ok(None));
    assert_eq!(t.find(b"/api"), Some(1));
    assert_eq!(t.find(b"/api/users"), Some(2));
    assert_eq!(t.find(b"/apx"), Some(3));
    assert_eq!(t.find(b"/a"), Some(4));
    assert_eq!(t.find(b""), Some(0));
    assert_eq!(t.find(b"/ap"), None);
    assert_eq!(t.find(b"/api/"), None);
    assert_eq!(t.insert(b"/api", 7), Ok(Some(1)));
    assert_eq!(t.find(b"/api"), Some(7));
    assert_eq!(t.remove(b"/ap"), Err(RaxError::NotFound));
    assert_eq!(t.remove(b"/api"), Ok(()));
    assert_eq!(t.find(b"/api"), None);
    assert_eq!(t.find(b"/api/users"), Some(2));
    assert_eq!(t.remove(b"/api/users"), Ok(()));
    assert_eq!(t.find(b"/apx"), Some(3));
    assert_eq!(t.find(b"/a"), Some(4));
    assert_eq!(t.remove(b""), Ok(()));
    assert_eq!(t.find(b""), None);
}

#[test]
fn insert_returns_the_previous_value() {
    let mut t = Rax::new();
    assert_eq!(t.insert(b"k", 1), Ok(None));
    assert_eq!(t.insert(b"k", 2), Ok(Some(1)));
    assert_eq!(t.insert(b"k", 2), Ok(Some(2)));
    assert_eq!(t.find(b"k"), Some(2));
}

#[test]
fn split_in_the_middle_of_a_label() {
    let mut t = Rax::new();
    t.insert(b"romane", 1).unwrap();
    t.insert(b"romanus", 2).unwrap();
    t.insert(b"romulus", 3).unwrap();
    t.insert(b"rubens", 4).unwrap();
    t.insert(b"ruber", 5).unwrap();
    t.insert(b"rubicon", 6).unwrap();
    t.insert(b"rubicundus", 7).unwrap();
    t.insert(b"rom", 8).unwrap();
    for (k, v) in [
        ("romane", 1),
        ("romanus", 2),
        ("romulus", 3),
        ("rubens", 4),
        ("ruber", 5),
        ("rubicon", 6),
        ("rubicundus", 7),
        ("rom", 8),
    ] {
        assert_eq!(t.find(k.as_bytes()), Some(v));
    }
    for k in ["r", "ro", "roman", "rub", "rubic", "romanes", "x", ""] {
        assert_eq!(t.find(k.as_bytes()), None);
    }
}

#[test]
fn remove_merges_and_keeps_the_rest() {
    let mut t = trie(&["ab", "abcd", "abce", "abcef", "x"]);
    assert_eq!(t.remove(b"abce"), Ok(()));
    assert_eq!(t.find(b"abcef"), Some(3));
    assert_eq!(t.find(b"abcd"), Some(1));
    assert_eq!(t.remove(b"abcd"), Ok(()));
    assert_eq!(t.find(b"abcef"), Some(3));
    assert_eq!(t.find(b"ab"), Some(0));
    assert_eq!(t.remove(b"ab"), Ok(()));
    assert_eq!(t.find(b"abcef"), Some(3));
    assert_eq!(t.remove(b"abcef"), Ok(()));
    assert_eq!(t.find(b"x"), Some(4));
    assert_eq!(t.remove(b"x"), Ok(()));
    assert_eq!(t.find(b"x"), None);
    assert_eq!(t.insert(b"abc", 5), Ok(None));
    assert_eq!(t.find(b"abc"), Some(5));
}

#[test]
fn next_visits_all_keys_in_ascending_order() {
    let keys = ["b", "a", "ab", "abc", "abd", "ac", "", "ba", "c/d", "c"];
    let t = trie(&keys);
    let mut sorted: Vec<Vec<u8>> = keys.iter().map(|k| k.as_bytes().to_vec()).collect();
    sorted.sort();
    let mut it = RaxIterator::new(&t);
    assert!(it.seek_at_or_before(b""));
    let mut seen: Vec<Vec<u8>> = Vec::new();
    while it.next() {
        seen.push(key_of(&it).unwrap());
        assert_eq!(it.value(), t.find(it.key().unwrap()));
    }
    assert_eq!(seen, sorted);
    assert_eq!(it.key(), None);
    assert!(!it.next());
    assert!(!it.previous());
}

#[test]
fn previous_visits_all_keys_in_descending_order() {
    let keys = ["b", "a", "ab", "abc", "abd", "ac", "", "ba", "c/d", "c"];
    let t = trie(&keys);
    let mut sorted: Vec<Vec<u8>> = keys.iter().map(|k| k.as_bytes().to_vec()).collect();
    sorted.sort();
    sorted.reverse();
    let mut it = RaxIterator::new(&t);
    assert!(it.seek_at_or_before(&[0xff, 0xff, 0xff]));
    let mut seen: Vec<Vec<u8>> = Vec::new();
    while it.previous() {
        seen.push(key_of(&it).unwrap());
    }
    assert_eq!(seen, sorted);
    assert!(!it.previous());
    assert_eq!(it.key(), None);
}

#[test]
fn next_after_the_last_key_reports_exhaustion() {
    let t = trie(&["a", "b"]);
    let mut it = RaxIterator::new(&t);
    assert!(it.seek_at_or_before(b"b"));
    assert!(it.next());
    assert_eq!(key_of(&it), Some(b"b".to_vec()));
    assert!(!it.next());
    assert_eq!(it.key(), None);
    assert_eq!(it.value(), None);
}

#[test]
fn previous_before_the_first_key_reports_exhaustion() {
    let t = trie(&["a", "b"]);
    let mut it = RaxIterator::new(&t);
    assert!(it.seek_at_or_before(b"a"));
    assert!(it.previous());
    assert_eq!(key_of(&it), Some(b"a".to_vec()));
    assert!(!it.previous());
    assert_eq!(it.key(), None);
}

#[test]
fn a_new_cursor_is_nowhere() {
    let t = trie(&["a"]);
    let mut it = RaxIterator::new(&t);
    assert_eq!(it.key(), None);
    assert_eq!(it.value(), None);
    assert!(!it.next());
    assert!(!it.previous());
    assert!(!it.move_to_nearest_enclosing_key());
}

#[test]
fn seek_lands_on_the_greatest_key_not_after_the_query() {
    let t = trie(&["/a", "/a/b", "/a/b/c", "/a/c", "/b"]);
    let mut it = RaxIterator::new(&t);
    let cases: [(&str, Option<&str>); 12] = [
        ("/a/b", Some("/a/b")),
        ("/a/b/", Some("/a/b")),
        ("/a/b/d", Some("/a/b/c")),
        ("/a/bz", Some("/a/b/c")),
        ("/a/", Some("/a")),
        ("/a/a", Some("/a")),
        ("/a0", Some("/a/c")),
        ("/b", Some("/b")),
        ("/c", Some("/b")),
        ("/", None),
        ("", None),
        ("/a", Some("/a")),
    ];
    for (q, want) in cases {
        let found = it.seek_at_or_before(q.as_bytes());
        assert_eq!(found, want.is_some());
        assert_eq!(key_of(&it), want.map(|w| w.as_bytes().to_vec()));
    }
}

#[test]
fn a_seek_leaves_its_key_pending() {
    let t = trie(&["a", "ab", "b"]);
    let mut it = RaxIterator::new(&t);
    assert!(it.seek_at_or_before(b"ab"));
    assert!(it.next());
    assert_eq!(key_of(&it), Some(b"ab".to_vec()));
    assert!(it.next());
    assert_eq!(key_of(&it), Some(b"b".to_vec()));
    assert!(it.seek_at_or_before(b"ab"));
    assert!(it.previous());
    assert_eq!(key_of(&it), Some(b"ab".to_vec()));
    assert!(it.previous());
    assert_eq!(key_of(&it), Some(b"a".to_vec()));
    assert!(it.seek_at_or_before(b"ab"));
    assert!(it.move_to_nearest_enclosing_key());
    assert_eq!(key_of(&it), Some(b"ab".to_vec()));
    assert!(it.move_to_nearest_enclosing_key());
    assert_eq!(key_of(&it), Some(b"a".to_vec()));
    assert!(!it.move_to_nearest_enclosing_key());
    assert_eq!(it.key(), None);
}

#[test]
fn enclosing_keys_skip_inner_nodes() {
    let t = trie(&["", "team", "teams/x", "teams/y", "teams/y/z"]);
    let mut it = RaxIterator::new(&t);
    assert!(it.seek_at_or_before(b"teams/y/z"));
    assert!(it.next());
    assert!(it.move_to_nearest_enclosing_key());
    assert_eq!(key_of(&it), Some(b"teams/y".to_vec()));
    assert_eq!(it.value(), Some(3));
    assert!(it.move_to_nearest_enclosing_key());
    assert_eq!(key_of(&it), Some(b"team".to_vec()));
    assert!(it.move_to_nearest_enclosing_key());
    assert_eq!(key_of(&it), Some(b"".to_vec()));
    assert_eq!(it.value(), Some(0));
    assert!(!it.move_to_nearest_enclosing_key());
}

#[test]
fn stop_takes_the_cursor_off() {
    let t = trie(&["a"]);
    let mut it = RaxIterator::new(&t);
    assert!(it.seek_at_or_before(b"a"));
    it.stop();
    assert_eq!(it.key(), None);
    assert!(!it.next());
    assert!(it.seek_at_or_before(b"a"));
    assert_eq!(key_of(&it), Some(b"a".to_vec()));
}

struct Lcg(u64);

impl Lcg {
    fn next(&mut self) -> u64 {
        self.0 = self.0.wrapping_mul(6364136223846793005).wrapping_add(1442695040888963407);
        self.0 >> 33
    }

    fn key(&mut self) -> Vec<u8> {
        let len = (self.next() % 6) as usize;
        (0..len).map(|_| b"abc/"[(self.next() % 4) as usize]).collect()
    }
}

fn check_against(t: &Rax, model: &BTreeMap<Vec<u8>, i32>, rng: &mut Lcg) {
    for (k, v) in model.iter() {
        assert_eq!(t.find(k), Some(*v));
    }
    let mut it = RaxIterator::new(t);
    for _ in 0..40 {
        let q = rng.key();
        assert_eq!(t.find(&q), model.get(&q).copied());
        let want = model.range(..=q.clone()).next_back();
        assert_eq!(it.seek_at_or_before(&q), want.is_some());
        assert_eq!(key_of(&it), want.map(|(k, _)| k.clone()));
        assert_eq!(it.value(), want.map(|(_, v)| *v));
        if let Some((floor, _)) = want {
            assert!(it.next());
            let step = rng.next() % 3;
            if step == 0 {
                let after = model.range(floor.clone()..).nth(1);
                assert_eq!(it.next(), after.is_some());
                assert_eq!(key_of(&it), after.map(|(k, _)| k.clone()));
            } else if step == 1 {
                let before = model.range(..floor.clone()).next_back();
                assert_eq!(it.previous(), before.is_some());
                assert_eq!(key_of(&it), before.map(|(k, _)| k.clone()));
            } else {
                let above = (0..floor.len()).rev().map(|n| &floor[..n]).find(|p| model.contains_key(*p));
                assert_eq!(it.move_to_nearest_enclosing_key(), above.is_some());
                assert_eq!(key_of(&it), above.map(|p| p.to_vec()));
            }
        }
    }
    let mut all: Vec<Vec<u8>> = Vec::new();
    if it.seek_at_or_before(b"") || {
        let first = model.keys().next();
        first.is_some() && it.seek_at_or_before(first.unwrap())
    } {
        while it.next() {
            all.push(key_of(&it).unwrap());
        }
    }
    assert_eq!(all, model.keys().cloned().collect::<Vec<_>>());
}

#[test]
fn random_operations_agree_with_an_ordered_map() {
    let mut rng = Lcg(42);
    for round in 0..30 {
        let mut t = Rax::new();
        let mut model: BTreeMap<Vec<u8>, i32> = BTreeMap::new();
        for step in 0..120 {
            let k = rng.key();
            if rng.next() % 3 == 0 {
                let r = t.remove(&k);
                assert_eq!(r.is_ok(), model.remove(&k).is_some());
                if r.is_err() {
                    assert_eq!(r, Err(RaxError::NotFound));
                }
            } else {
                let v = (round * 1000 + step) as i32;
                assert_eq!(t.insert(&k, v), Ok(model.insert(k.clone(), v)));
            }
            if step % 20 == 19 {
                check_against(&t, &model, &mut rng);
            }
        }
    }
}

#[test]
fn a_new_cursor_holds_no_frame() {
    let t = trie(&["a", "ab", "abc"]);
    let it = RaxIterator::new(&t);
    assert_eq!(it.depth(), 0);
    assert_eq!(it.key(), None);
    let empty = Rax::new();
    assert_eq!(RaxIterator::new(&empty).depth(), 0);
}

#[test]
fn the_stack_holds_the_way_to_the_key() {
    let t = trie(&["a", "ab", "abc", "b"]);
    let mut it = RaxIterator::new(&t);
    assert!(it.seek_at_or_before(b"abc"));
    // The root, and one node for each of the three nested keys.
    assert_eq!(it.depth(), 4);
    assert!(it.next());
    assert!(it.move_to_nearest_enclosing_key());
    assert_eq!(it.depth(), 3);
    assert!(it.next());
    assert_eq!(it.key(), Some(&b"abc"[..]));
    assert!(it.next());
    assert_eq!(it.key(), Some(&b"b"[..]));
    assert_eq!(it.depth(), 2);
    assert!(!it.next());
    assert_eq!(it.depth(), 0);
}

#[test]
fn stop_empties_the_stack() {
    let t = trie(&["a", "ab"]);
    let mut it = RaxIterator::new(&t);
    assert!(it.seek_at_or_before(b"ab"));
    assert_eq!(it.depth(), 3);
    it.stop();
    assert_eq!(it.depth(), 0);
    assert_eq!(it.key(), None);
    assert_eq!(it.value(), None);
    assert!(!it.seek_at_or_before(b"A"));
    assert_eq!(it.depth(), 0);
}
