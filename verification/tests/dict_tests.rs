use iroha_python::compare::CompareOp;
use iroha_python::dict::Dict;
use iroha_python::items::{Items, Keys, Values};

/// Sets `k` (hash `kh`) to `v` (hash `vh`), keys being equal when they are the same string.
fn set(d: &mut Dict<&'static str, i32>, k: &'static str, kh: isize, v: i32, vh: isize) {
    d.set_item(k, kh, v, vh, move |x: &&str| *x == k);
}

fn sample() -> Dict<&'static str, i32> {
    // (key, key hash, value, value hash)
    let mut d: Dict<&str, i32> = Dict::new();
    set(&mut d, "b", 20, 2, 200);
    set(&mut d, "a", 10, 1, 100);
    set(&mut d, "c", 30, 3, 300);
    d
}

#[test]
fn new_dict_is_empty() {
    let d: Dict<&str, i32> = Dict::new();
    assert!(d.is_empty());
    assert_eq!(d.len(), 0);
    assert_eq!(d.hash(), 0);
    let e: Dict<&str, i32> = Dict::default();
    assert!(e.is_empty());
}

#[test]
fn get_after_set() {
    let d = sample();
    assert_eq!(d.len(), 3);
    assert!(!d.is_empty());
    assert_eq!(d.get_item(10, |k: &&str| *k == "a"), Some(&1));
    assert_eq!(d.get_item(20, |k: &&str| *k == "b"), Some(&2));
    assert_eq!(d.get_item(30, |k: &&str| *k == "c"), Some(&3));
}

#[test]
fn get_missing_key() {
    let d = sample();
    assert_eq!(d.get_item(40, |k: &&str| *k == "d"), None);
    // same hash as "a", but not equal to it
    assert_eq!(d.get_item(10, |k: &&str| *k == "z"), None);
}

#[test]
fn colliding_keys_share_a_bucket() {
    let mut d: Dict<&str, i32> = Dict::new();
    set(&mut d, "x", 7, 1, 11);
    set(&mut d, "y", 7, 2, 22);
    assert_eq!(d.len(), 2);
    assert_eq!(d.get_item(7, |k: &&str| *k == "x"), Some(&1));
    assert_eq!(d.get_item(7, |k: &&str| *k == "y"), Some(&2));
}

#[test]
fn setting_same_pair_replaces() {
    let mut d: Dict<&str, i32> = Dict::new();
    set(&mut d, "a", 1, 5, 50);
    set(&mut d, "a", 1, 6, 50);
    assert_eq!(d.len(), 1);
    assert_eq!(d.get_item(1, |k: &&str| *k == "a"), Some(&6));
}

#[test]
fn setting_key_again_replaces_its_value() {
    let mut d: Dict<&str, i32> = Dict::new();
    set(&mut d, "a", 1, 5, 50);
    set(&mut d, "a", 1, 6, 60);
    assert_eq!(d.len(), 1);
    assert_eq!(d.get_item(1, |k: &&str| *k == "a"), Some(&6));
    assert_eq!(d.iter(), vec![(&"a", &6)]);
}

#[test]
fn setting_integer_key_again_keeps_latest_value() {
    // Python: hash(1) == 1, hash(5) == 5, hash(10) == 10
    let mut d: Dict<i64, i64> = Dict::new();
    d.set_item(1, 1, 5, 5, |x: &i64| *x == 1);
    d.set_item(1, 1, 10, 10, |x: &i64| *x == 1);
    assert_eq!(d.len(), 1);
    assert_eq!(d.get_item(1, |x: &i64| *x == 1), Some(&10));
}

#[test]
fn unequal_keys_with_colliding_hashes_are_both_kept() {
    // Python: hash(-1) == hash(-2) == -2, hash(0) == 0
    let mut d: Dict<i64, i64> = Dict::new();
    d.set_item(-1, -2, 0, 0, |x: &i64| *x == -1);
    d.set_item(-2, -2, 0, 0, |x: &i64| *x == -2);
    assert_eq!(d.len(), 2);
    assert_eq!(d.get_item(-2, |x: &i64| *x == -1), Some(&0));
    assert_eq!(d.get_item(-2, |x: &i64| *x == -2), Some(&0));
    // within one pair of hashes, entries keep the order in which they were set
    assert_eq!(d.keys(), vec![&-1, &-2]);
    assert_eq!(d.remove_item(-2, |x: &i64| *x == -1), Some(0));
    assert_eq!(d.len(), 1);
    assert_eq!(d.get_item(-2, |x: &i64| *x == -1), None);
    assert_eq!(d.get_item(-2, |x: &i64| *x == -2), Some(&0));
}

#[test]
fn setting_existing_key_keeps_length_new_key_adds_one() {
    let mut d = sample();
    set(&mut d, "b", 20, 7, 700);
    assert_eq!(d.len(), 3);
    assert_eq!(d.get_item(20, |k: &&str| *k == "b"), Some(&7));
    assert_eq!(d.get_item(10, |k: &&str| *k == "a"), Some(&1));
    set(&mut d, "e", 20, 8, 700);
    assert_eq!(d.len(), 4);
    assert_eq!(d.get_item(20, |k: &&str| *k == "b"), Some(&7));
}

#[test]
fn set_other_key_leaves_lookup() {
    let mut d = sample();
    set(&mut d, "q", 99, 9, 990);
    assert_eq!(d.get_item(10, |k: &&str| *k == "a"), Some(&1));
    assert_eq!(d.len(), 4);
}

#[test]
fn remove_then_get_finds_nothing() {
    let mut d = sample();
    assert_eq!(d.remove_item(20, |k: &&str| *k == "b"), Some(2));
    assert_eq!(d.get_item(20, |k: &&str| *k == "b"), None);
    assert_eq!(d.len(), 2);
    assert_eq!(d.get_item(10, |k: &&str| *k == "a"), Some(&1));
    assert_eq!(d.get_item(30, |k: &&str| *k == "c"), Some(&3));
}

#[test]
fn remove_missing_key_changes_nothing() {
    let mut d = sample();
    assert_eq!(d.remove_item(20, |k: &&str| *k == "zz"), None);
    assert_eq!(d.remove_item(77, |k: &&str| *k == "b"), None);
    assert_eq!(d.len(), 3);
}

#[test]
fn remove_takes_the_key_and_leaves_its_bucket_mates() {
    let mut d: Dict<&str, i32> = Dict::new();
    set(&mut d, "a", 1, 5, 50);
    set(&mut d, "a", 1, 6, 60);
    set(&mut d, "b", 1, 7, 70);
    assert_eq!(d.len(), 2);
    assert_eq!(d.remove_item(1, |k: &&str| *k == "a"), Some(6));
    assert_eq!(d.len(), 1);
    assert_eq!(d.get_item(1, |k: &&str| *k == "a"), None);
    assert_eq!(d.get_item(1, |k: &&str| *k == "b"), Some(&7));
}

#[test]
fn remove_last_entry_empties() {
    let mut d: Dict<&str, i32> = Dict::new();
    set(&mut d, "a", 1, 5, 50);
    assert_eq!(d.remove_item(1, |k: &&str| *k == "a"), Some(5));
    assert!(d.is_empty());
    assert_eq!(d.len(), 0);
}

#[test]
fn iteration_order_follows_hashes() {
    let d = sample();
    assert_eq!(d.iter(), vec![(&"a", &1), (&"b", &2), (&"c", &3)]);
    assert_eq!(d.keys(), vec![&"a", &"b", &"c"]);
    assert_eq!(d.values(), vec![&1, &2, &3]);
    assert_eq!(d.iter().len(), d.len());
}

#[test]
fn consuming_iteration() {
    assert_eq!(sample().into_iter(), vec![("a", 1), ("b", 2), ("c", 3)]);
    assert_eq!(sample().into_keys(), vec!["a", "b", "c"]);
    assert_eq!(sample().into_values(), vec![1, 2, 3]);
}

#[test]
fn within_a_bucket_order_is_by_value_hash() {
    let mut d: Dict<&str, i32> = Dict::new();
    set(&mut d, "x", 7, 1, 30);
    set(&mut d, "y", 7, 2, -5);
    set(&mut d, "z", -3, 3, 0);
    assert_eq!(d.into_iter(), vec![("z", 3), ("y", 2), ("x", 1)]);
}

#[test]
fn insertion_order_does_not_matter() {
    let mut d1: Dict<&str, i32> = Dict::new();
    set(&mut d1, "a", 1, 10, 100);
    set(&mut d1, "b", 2, 20, 200);
    let mut d2: Dict<&str, i32> = Dict::new();
    set(&mut d2, "b", 2, 20, 200);
    set(&mut d2, "a", 1, 10, 100);
    assert_eq!(d1.hash(), d2.hash());
    assert_eq!(d1.into_iter(), d2.into_iter());
}

#[test]
fn hash_folds_entry_hashes() {
    let mut d: Dict<&str, i32> = Dict::new();
    set(&mut d, "a", 1, 10, 2);
    // entry: hash(1 + 2) = 3; fold: hash(0 + 3) = 3
    assert_eq!(d.hash(), 3);
    set(&mut d, "b", 5, 20, 7);
    // entries (1, 2) then (5, 7): 3, then hash(3 + hash(12)) = 15
    assert_eq!(d.hash(), 15);
}

#[test]
fn hash_depends_on_filing_only() {
    let mut d1: Dict<&str, i32> = Dict::new();
    set(&mut d1, "a", 1, 10, 2);
    let mut d2: Dict<&str, i32> = Dict::new();
    set(&mut d2, "other", 1, 99, 2);
    assert_eq!(d1.hash(), d2.hash());
    assert!(d1.richcmp(&d2, CompareOp::Eq));
}

#[test]
fn richcmp_only_answers_equality() {
    let d1 = sample();
    let d2 = sample();
    let mut d3 = sample();
    set(&mut d3, "d", 40, 4, 400);
    assert!(d1.richcmp(&d1, CompareOp::Eq));
    assert!(d1.richcmp(&d2, CompareOp::Eq));
    assert!(d2.richcmp(&d1, CompareOp::Eq));
    assert!(!d1.richcmp(&d3, CompareOp::Eq));
    assert!(!d1.richcmp(&d2, CompareOp::Ne));
    assert!(!d1.richcmp(&d3, CompareOp::Lt));
    assert!(!d1.richcmp(&d3, CompareOp::Gt));
}

#[test]
fn items_keys_values_iterate_in_order() {
    let mut it = Items::new(sample());
    assert_eq!(it.next(), Some(("a", 1)));
    assert_eq!(it.next(), Some(("b", 2)));
    assert_eq!(it.next(), Some(("c", 3)));
    assert_eq!(it.next(), None);
    assert_eq!(it.next(), None);

    let mut ks = Keys::new(sample());
    assert_eq!(ks.next(), Some("a"));
    assert_eq!(ks.next(), Some("b"));
    assert_eq!(ks.next(), Some("c"));
    assert_eq!(ks.next(), None);

    let mut vs = Values::new(sample());
    assert_eq!(vs.next(), Some(1));
    assert_eq!(vs.next(), Some(2));
    assert_eq!(vs.next(), Some(3));
    assert_eq!(vs.next(), None);
}

#[test]
fn drained_iterator_keeps_giving_nothing() {
    let d = sample();
    let n = d.len();
    let expected = d.clone().into_iter();
    let mut it = Items::new(d);
    let mut got = Vec::new();
    for _ in 0..n {
        got.push(it.next().unwrap());
    }
    assert_eq!(got, expected);
    for _ in 0..5 {
        assert_eq!(it.next(), None);
    }
}

#[test]
fn clone_keeps_entries() {
    let d = sample();
    let c = d.clone();
    assert_eq!(c.iter(), d.iter());
    assert_eq!(c.hash(), d.hash());
}

#[test]
fn any_order_of_unequal_keys_gives_the_same_hash() {
    let pairs: [(&'static str, isize, i32, isize); 4] =
        [("a", 3, 1, 10), ("b", 3, 2, 10), ("c", -7, 3, 5), ("d", 12, 4, -1)];
    let orders: [[usize; 4]; 4] = [[0, 1, 2, 3], [3, 2, 1, 0], [1, 3, 0, 2], [2, 0, 3, 1]];
    let mut hashes = Vec::new();
    for order in orders.iter() {
        let mut d: Dict<&str, i32> = Dict::new();
        for &i in order.iter() {
            let (k, kh, v, vh) = pairs[i];
            set(&mut d, k, kh, v, vh);
        }
        assert_eq!(d.len(), 4);
        hashes.push(d.hash());
    }
    assert!(hashes.iter().all(|h| *h == hashes[0]));
}

#[test]
fn a_run_of_calls_reads_back_the_last_write_and_lists_each_key_once() {
    let mut d: Dict<&str, i32> = Dict::new();
    set(&mut d, "a", 1, 1, 10);
    set(&mut d, "b", 1, 2, 20);
    set(&mut d, "a", 1, 3, 30);
    set(&mut d, "c", 2, 4, 40);
    assert_eq!(d.remove_item(1, |k: &&str| *k == "b"), Some(2));
    set(&mut d, "b", 1, 5, 50);
    set(&mut d, "c", 2, 6, 10);
    assert_eq!(d.get_item(1, |k: &&str| *k == "a"), Some(&3));
    assert_eq!(d.get_item(1, |k: &&str| *k == "b"), Some(&5));
    assert_eq!(d.get_item(2, |k: &&str| *k == "c"), Some(&6));
    assert_eq!(d.len(), 3);
    let keys = d.keys();
    assert_eq!(keys, vec![&"a", &"b", &"c"]);
}
