use radix_route_matcher::error::{reserved, RaxError};
use radix_route_matcher::radix_tree::RadixTree;

#[test]
fn insert_and_find_exact() {
    let mut tree = RadixTree::new().expect("create tree");
    tree.insert("/api", 1).expect("insert /api");
    tree.insert("/api/users", 2).expect("insert /api/users");

    assert_eq!(tree.find_exact("/api"), Some(1));
    assert_eq!(tree.find_exact("/api/users"), Some(2));
    assert_eq!(tree.find_exact("/api/posts"), None);
}

#[test]
fn longest_prefix_and_all_prefixes() {
    let mut tree = RadixTree::new().expect("create tree");
    tree.insert("/", 1).unwrap();
    tree.insert("/api", 2).unwrap();
    tree.insert("/api/users", 3).unwrap();

    let mut iter = tree.create_iter().expect("create iter");
    assert_eq!(tree.longest_prefix(&mut iter, "/api/users/123"), Some(3));

    let prefixes = tree.find_all_prefixes(&mut iter, "/api/users/123");
    assert_eq!(prefixes, vec![3, 2, 1]);
}

#[test]
fn remove_routes() {
    let mut tree = RadixTree::new().expect("create tree");
    tree.insert("/foo", 10).unwrap();
    tree.insert("/foo/bar", 11).unwrap();

    tree.remove("/foo").expect("remove /foo");
    assert_eq!(tree.find_exact("/foo"), None);
    assert_eq!(tree.find_exact("/foo/bar"), Some(11));
}

fn sample() -> RadixTree {
    let mut tree = RadixTree::new().unwrap();
    tree.insert("/", 1).unwrap();
    tree.insert("/api", 2).unwrap();
    tree.insert("/api/users", 3).unwrap();
    tree
}

#[test]
fn longest_prefix_of_a_deep_path() {
    let tree = sample();
    let mut iter = tree.create_iter().unwrap();
    assert_eq!(tree.longest_prefix(&mut iter, "/api/users/123"), Some(3));
    assert_eq!(iter.key(), Some(&b"/api/users"[..]));
    assert_eq!(iter.value(), Some(3));
}

#[test]
fn longest_prefix_falls_back_to_the_root_route() {
    let tree = sample();
    let mut iter = tree.create_iter().unwrap();
    assert_eq!(tree.longest_prefix(&mut iter, "/zzz"), Some(1));
    assert_eq!(tree.longest_prefix(&mut iter, "/apx"), Some(1));
    assert_eq!(tree.longest_prefix(&mut iter, "/api/user"), Some(2));
    assert_eq!(tree.longest_prefix(&mut iter, "/api"), Some(2));
    assert_eq!(tree.longest_prefix(&mut iter, "/"), Some(1));
}

#[test]
fn longest_prefix_without_a_match_is_absent() {
    let mut tree = RadixTree::new().unwrap();
    tree.insert("/api", 2).unwrap();
    tree.insert("/api/users", 3).unwrap();
    let mut iter = tree.create_iter().unwrap();
    assert_eq!(tree.longest_prefix(&mut iter, "/zzz"), None);
    assert_eq!(iter.key(), None);
    assert_eq!(tree.longest_prefix(&mut iter, "zzz"), None);
    assert_eq!(tree.longest_prefix(&mut iter, ""), None);
    assert_eq!(tree.longest_prefix(&mut iter, "/ap"), None);
    assert_eq!(tree.longest_prefix(&mut iter, "/"), None);
}

#[test]
fn longest_prefix_skips_keys_that_are_before_but_no_prefix() {
    let mut tree = RadixTree::new().unwrap();
    tree.insert("/a", 1).unwrap();
    tree.insert("/a/b", 2).unwrap();
    tree.insert("/a/b/c", 3).unwrap();
    tree.insert("/a/c", 4).unwrap();
    let mut iter = tree.create_iter().unwrap();
    // The last key up to the query is "/a/b/c", which is not a prefix of it.
    assert_eq!(tree.longest_prefix(&mut iter, "/a/b/d"), Some(2));
    // A prefix is a prefix of bytes, whatever a path segment is.
    assert_eq!(tree.longest_prefix(&mut iter, "/a/bz"), Some(2));
    assert_eq!(tree.longest_prefix(&mut iter, "/a/az"), Some(1));
    assert_eq!(tree.longest_prefix(&mut iter, "/a/d/e"), Some(1));
    assert_eq!(tree.longest_prefix(&mut iter, "/b"), None);
}

#[test]
fn all_prefixes_longest_first() {
    let tree = sample();
    let mut iter = tree.create_iter().unwrap();
    let all = tree.find_all_prefixes(&mut iter, "/api/users/123/profile");
    assert_eq!(all, vec![3, 2, 1]);
    assert_eq!(tree.find_all_prefixes(&mut iter, "/api/x"), vec![2, 1]);
    assert_eq!(tree.find_all_prefixes(&mut iter, "/"), vec![1]);
    assert_eq!(tree.find_all_prefixes(&mut iter, ""), Vec::<i32>::new());
    assert_eq!(tree.find_all_prefixes(&mut iter, "api"), Vec::<i32>::new());
}

#[test]
fn all_prefixes_with_the_empty_route() {
    let mut tree = RadixTree::new().unwrap();
    tree.insert("", 9).unwrap();
    tree.insert("a", 1).unwrap();
    tree.insert("ab", 2).unwrap();
    tree.insert("abd", 4).unwrap();
    let mut iter = tree.create_iter().unwrap();
    assert_eq!(tree.find_all_prefixes(&mut iter, "abc"), vec![2, 1, 9]);
    assert_eq!(tree.find_all_prefixes(&mut iter, ""), vec![9]);
    assert_eq!(tree.find_all_prefixes(&mut iter, "b"), vec![9]);
    assert_eq!(tree.longest_prefix(&mut iter, "abde"), Some(4));
}

#[test]
fn search_then_next_prefix_walks_up() {
    let mut tree = RadixTree::new().unwrap();
    tree.insert("/", 1).unwrap();
    tree.insert("/api", 2).unwrap();
    tree.insert("/api/v1", 3).unwrap();
    let mut iter = tree.create_iter().unwrap();
    let path = "/api/v1/users";
    assert!(tree.search(&mut iter, path));
    assert_eq!(tree.next_prefix(&mut iter, path), Some(3));
    assert_eq!(iter.key(), Some(&b"/api/v1"[..]));
    assert_eq!(tree.next_prefix(&mut iter, path), Some(2));
    assert_eq!(tree.next_prefix(&mut iter, path), Some(1));
    assert_eq!(tree.next_prefix(&mut iter, path), None);
    assert_eq!(tree.next_prefix(&mut iter, path), None);
    assert_eq!(iter.key(), None);
}

#[test]
fn search_reports_whether_a_key_comes_before() {
    let mut tree = RadixTree::new().unwrap();
    tree.insert("/b", 1).unwrap();
    let mut iter = tree.create_iter().unwrap();
    assert!(!tree.search(&mut iter, "/a"));
    assert_eq!(iter.key(), None);
    assert!(tree.search(&mut iter, "/c"));
    assert_eq!(iter.key(), Some(&b"/b"[..]));
    assert!(tree.search(&mut iter, "/b"));
    let empty = RadixTree::new().unwrap();
    let mut none = empty.create_iter().unwrap();
    assert!(!empty.search(&mut none, "/a"));
    assert_eq!(empty.next_prefix(&mut none, "/a"), None);
}

#[test]
fn zero_and_negative_indices_are_values() {
    let mut tree = RadixTree::new().unwrap();
    tree.insert("/zero", 0).unwrap();
    tree.insert("/neg", -5).unwrap();
    tree.insert("/min", i32::MIN).unwrap();
    assert_eq!(tree.find_exact("/zero"), Some(0));
    assert_eq!(tree.find_exact("/neg"), Some(-5));
    assert_eq!(tree.find_exact("/min"), Some(i32::MIN));
    let mut iter = tree.create_iter().unwrap();
    assert_eq!(tree.longest_prefix(&mut iter, "/zero/x"), Some(0));
    assert_eq!(tree.longest_prefix(&mut iter, "/neg/x"), Some(-5));
    assert_eq!(tree.find_all_prefixes(&mut iter, "/min/x"), vec![i32::MIN]);
}

#[test]
fn reinsert_updates_in_place() {
    let mut tree = RadixTree::new().unwrap();
    tree.insert("/api", 1).unwrap();
    tree.insert("/api/users", 2).unwrap();
    tree.insert("/api", 7).unwrap();
    assert_eq!(tree.find_exact("/api"), Some(7));
    assert_eq!(tree.find_exact("/api/users"), Some(2));
    let mut iter = tree.create_iter().unwrap();
    assert_eq!(tree.find_all_prefixes(&mut iter, "/api/users"), vec![2, 7]);
}

#[test]
fn remove_of_an_absent_route_reports_not_found() {
    let mut tree = RadixTree::new().unwrap();
    tree.insert("/foo", 10).unwrap();
    assert_eq!(tree.remove("/fo"), Err(RaxError::NotFound.code()));
    assert_eq!(tree.remove("/foo/bar"), Err(RaxError::NotFound.code()));
    assert_eq!(tree.remove(""), Err(RaxError::NotFound.code()));
    assert_eq!(tree.find_exact("/foo"), Some(10));
    assert_eq!(tree.remove("/foo"), Ok(()));
    assert_eq!(tree.remove("/foo"), Err(RaxError::NotFound.code()));
}

#[test]
fn status_codes_are_negative_and_differ() {
    let codes = [
        RaxError::InvalidArgument.code(),
        RaxError::OutOfMemory.code(),
        RaxError::NotFound.code(),
    ];
    assert_eq!(codes, [-2, -3, -4]);
    assert_eq!(radix_route_matcher::error::STATUS_OK, 0);
    assert_eq!(radix_route_matcher::error::STATUS_NO_HANDLE, -1);
    assert!(codes.iter().all(|c| *c < radix_route_matcher::error::STATUS_NO_HANDLE));
}

#[test]
fn routes_with_multibyte_characters() {
    let mut tree = RadixTree::new().unwrap();
    tree.insert("/用户", 1).unwrap();
    tree.insert("/用户/资料", 2).unwrap();
    tree.insert("/用", 3).unwrap();
    assert_eq!(tree.find_exact("/用户"), Some(1));
    assert_eq!(tree.find_exact("/用户/资料"), Some(2));
    let mut iter = tree.create_iter().unwrap();
    assert_eq!(tree.find_all_prefixes(&mut iter, "/用户/资料/头像"), vec![2, 1, 3]);
}

#[test]
fn a_failed_reservation_is_out_of_memory() {
    let mut bytes: Vec<u8> = Vec::new();
    assert_eq!(reserved(bytes.try_reserve(usize::MAX)), Err(RaxError::OutOfMemory));
    assert_eq!(reserved(bytes.try_reserve(8)), Ok(()));
    assert_eq!(reserved(Ok(())), Ok(()));
    assert!(bytes.is_empty());
}

#[test]
fn a_new_tree_is_empty() {
    let tree = RadixTree::new().unwrap();
    assert_eq!(tree.find_exact(""), None);
    assert_eq!(tree.find_exact("/"), None);
    let mut iter = tree.create_iter().unwrap();
    assert!(!tree.search(&mut iter, "\u{10ffff}"));
    assert_eq!(tree.find_all_prefixes(&mut iter, "/a/b"), Vec::<i32>::new());
}

#[test]
fn insert_returns_the_index_that_the_route_had() {
    let mut tree = RadixTree::new().unwrap();
    assert_eq!(tree.insert("/api", 1), Ok(None));
    assert_eq!(tree.insert("/api/users", 2), Ok(None));
    assert_eq!(tree.insert("/api", 7), Ok(Some(1)));
    assert_eq!(tree.insert("/api", 0), Ok(Some(7)));
    assert_eq!(tree.insert("/ap", 3), Ok(None));
    assert_eq!(tree.insert("", 4), Ok(None));
    assert_eq!(tree.insert("", 5), Ok(Some(4)));
    assert_eq!(tree.find_exact("/api"), Some(0));
    assert_eq!(tree.find_exact("/api/users"), Some(2));
}
