use iroha_python::compare::CompareOp;
use iroha_python::list::{IndexError, List};

#[derive(Clone, Debug, PartialEq)]
enum Obj {
    Int(isize),
    Text(&'static str),
    Unhashable,
}

/// Small integers hash to themselves; a text hashes to the sum of its bytes.
fn item_hash(o: &Obj) -> Result<isize, String> {
    match o {
        Obj::Int(n) => Ok(*n),
        Obj::Text(t) => Ok(t.bytes().map(|b| b as isize).sum()),
        Obj::Unhashable => Err("unhashable type".to_string()),
    }
}

#[test]
fn get_item_in_range() {
    let l = List::from_vec(vec![Obj::Int(1), Obj::Text("a")]);
    assert_eq!(l.len(), 2);
    assert_eq!(l.get_item(0), Ok(&Obj::Int(1)));
    assert_eq!(l.get_item(1), Ok(&Obj::Text("a")));
}

#[test]
fn get_item_out_of_range_is_refused() {
    let l = List::from_vec(vec![Obj::Int(1)]);
    assert_eq!(l.get_item(1), Err(IndexError { index: 1 }));
    assert_eq!(l.get_item(-1), Err(IndexError { index: -1 }));
    assert_eq!(l.get_item(isize::MIN), Err(IndexError { index: isize::MIN }));
}

#[test]
fn set_item_then_get_item() {
    let mut l = List::from_vec(vec![Obj::Int(1), Obj::Int(2), Obj::Int(3)]);
    assert_eq!(l.set_item(1, Obj::Text("b")), Ok(()));
    assert_eq!(l.get_item(1), Ok(&Obj::Text("b")));
    assert_eq!(l.get_item(0), Ok(&Obj::Int(1)));
    assert_eq!(l.get_item(2), Ok(&Obj::Int(3)));
}

#[test]
fn set_item_out_of_range_leaves_list() {
    let mut l = List::from_vec(vec![Obj::Int(1)]);
    assert_eq!(l.set_item(3, Obj::Int(9)), Err(IndexError { index: 3 }));
    assert_eq!(l.set_item(-2, Obj::Int(9)), Err(IndexError { index: -2 }));
    assert_eq!(l.iter(), &[Obj::Int(1)]);
}

#[test]
fn hash_folds_integer_items() {
    let l = List::from_vec(vec![Obj::Int(1), Obj::Int(2), Obj::Int(3)]);
    // 0 -> hash(0 + 1) = 1 -> hash(1 + 2) = 3 -> hash(3 + 3) = 6
    assert_eq!(l.hash(item_hash), Ok(6));
}

#[test]
fn hash_counts_every_item() {
    let with_text = List::from_vec(vec![Obj::Int(1), Obj::Text("a"), Obj::Int(2)]);
    // 0 -> 1 -> hash(1 + 97) = 98 -> hash(98 + 2) = 100
    assert_eq!(with_text.hash(item_hash), Ok(100));
    let a = List::from_vec(vec![Obj::Text("a")]);
    let b = List::from_vec(vec![Obj::Text("b")]);
    assert_eq!(a.hash(item_hash), Ok(97));
    assert_eq!(b.hash(item_hash), Ok(98));
    assert_eq!(a.richcmp(&b, CompareOp::Eq, item_hash), Ok(false));
}

#[test]
fn unhashable_item_is_an_error() {
    let l = List::from_vec(vec![Obj::Int(1), Obj::Unhashable, Obj::Int(2)]);
    assert_eq!(l.hash(item_hash), Err("unhashable type".to_string()));
    let ok = List::from_vec(vec![Obj::Int(1)]);
    assert_eq!(ok.richcmp(&l, CompareOp::Eq, item_hash), Err("unhashable type".to_string()));
    assert_eq!(l.richcmp(&ok, CompareOp::Eq, item_hash), Err("unhashable type".to_string()));
    // only equality hashes: other comparisons are false whatever the items
    assert_eq!(l.richcmp(&ok, CompareOp::Ne, item_hash), Ok(false));
    assert_eq!(ok.richcmp(&l, CompareOp::Lt, item_hash), Ok(false));
    assert_eq!(l.richcmp(&l, CompareOp::Ge, item_hash), Ok(false));
}

#[test]
fn empty_list_hashes_to_zero() {
    let empty: List<Obj> = List::new();
    assert_eq!(empty.hash(item_hash), Ok(0));
    assert_eq!(empty.len(), 0);
}

#[test]
fn hash_wraps_through_python_hash() {
    let l = List::from_vec(vec![Obj::Int(isize::MAX), Obj::Int(1)]);
    // hash(isize::MAX) = 3, then hash(3 + 1) = 4
    assert_eq!(l.hash(item_hash), Ok(4));
}

#[test]
fn richcmp_compares_hashes_for_equality_only() {
    let a = List::from_vec(vec![Obj::Int(1), Obj::Int(2)]);
    let b = List::from_vec(vec![Obj::Int(2), Obj::Int(1)]);
    let c = List::from_vec(vec![Obj::Int(2), Obj::Int(2)]);
    // hash(0 + 1) = 1, hash(1 + 2) = 3; hash(0 + 2) = 2, hash(2 + 1) = 3
    assert_eq!(a.richcmp(&b, CompareOp::Eq, item_hash), Ok(true));
    assert_eq!(b.richcmp(&a, CompareOp::Eq, item_hash), Ok(true));
    assert_eq!(a.richcmp(&a, CompareOp::Eq, item_hash), Ok(true));
    assert_eq!(a.richcmp(&c, CompareOp::Eq, item_hash), Ok(false));
    assert_eq!(a.richcmp(&b, CompareOp::Ne, item_hash), Ok(false));
    assert_eq!(a.richcmp(&a, CompareOp::Le, item_hash), Ok(false));
}
