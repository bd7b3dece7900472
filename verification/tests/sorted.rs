use gm_docs_parser::sorted::Sorted;

#[test]
fn entries_stay_in_the_order_of_their_keys() {
    let mut table = Sorted::new();
    assert!(table.is_empty());
    for (key, value) in [("b", 2), ("a", 1), ("c", 3), ("ab", 4), ("", 5), ("B", 6)] {
        table.insert(key.to_string(), value);
    }
    assert_eq!(
        table.entries,
        vec![
            ("".to_string(), 5),
            ("B".to_string(), 6),
            ("a".to_string(), 1),
            ("ab".to_string(), 4),
            ("b".to_string(), 2),
            ("c".to_string(), 3),
        ]
    );
    assert_eq!(table.len(), 6);
    assert!(!table.is_empty());
}

#[test]
fn last_write_wins() {
    let mut table = Sorted::new();
    table.insert("k".to_string(), 1);
    table.insert("j".to_string(), 2);
    table.insert("k".to_string(), 3);
    assert_eq!(table.entries, vec![("j".to_string(), 2), ("k".to_string(), 3)]);
    assert_eq!(table.get("k"), Some(&3));
    assert_eq!(table.get("j"), Some(&2));
    assert_eq!(table.get("i"), None);
    assert_eq!(table.get("kk"), None);
}

#[test]
fn first_entry_is_taken_out() {
    let mut table = Sorted::new();
    assert_eq!(table.remove_first(), None::<(String, u8)>);
    table.insert("b".to_string(), 2);
    table.insert("a".to_string(), 1);
    assert_eq!(table.remove_first(), Some(("a".to_string(), 1)));
    assert_eq!(table.remove_first(), Some(("b".to_string(), 2)));
    assert_eq!(table.remove_first(), None);
    assert!(table.is_empty());
}

#[test]
fn order_agrees_with_std_strings() {
    let keys = ["é", "z", "zz", "", "Z", "a\u{10000}", "a\u{ffff}", "a b", "a-b", "a/b"];
    let mut table = Sorted::new();
    for key in keys {
        table.insert(key.to_string(), ());
    }
    let mut expected: Vec<String> = keys.iter().map(|k| k.to_string()).collect();
    expected.sort();
    let got: Vec<String> = table.entries.iter().map(|(k, _)| k.clone()).collect();
    assert_eq!(got, expected);
}

#[test]
fn order_of_entries_is_checked() {
    let mut table = Sorted::new();
    assert!(table.is_sorted());
    table.insert("a".to_string(), 1);
    table.insert("b".to_string(), 2);
    assert!(table.is_sorted());
    table.entries.push(("b".to_string(), 3));
    assert!(!table.is_sorted());
    table.entries.pop();
    table.entries.push(("ab".to_string(), 3));
    assert!(!table.is_sorted());
}
