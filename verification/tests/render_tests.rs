use iroha_python::render::{render_dict, render_entry, render_list};

#[test]
fn list_text_joins_with_commas() {
    let items = vec!["1".to_string(), "'a'".to_string(), "None".to_string()];
    assert_eq!(render_list(&items), "[1,'a',None]");
}

#[test]
fn list_text_of_empty_and_single() {
    assert_eq!(render_list(&vec![]), "[]");
    assert_eq!(render_list(&vec!["x".to_string()]), "[x]");
}

#[test]
fn entry_text_has_colon_and_space() {
    assert_eq!(render_entry("a", "1"), "a: 1");
}

#[test]
fn dict_text_joins_entries() {
    let entries = vec![
        ("a".to_string(), "1".to_string()),
        ("b".to_string(), "2".to_string()),
    ];
    assert_eq!(render_dict(&entries), "{a: 1,b: 2}");
    assert_eq!(render_dict(&vec![]), "{}");
}
