use pxc::codec::{load_text, save_text};
use pxc::entry::{Store, StoreError};
use pxc::ident::{gen_char_sequence, generate_identifier, ID_LEN};

fn is_id_char(c: char) -> bool {
    ('A'..='F').contains(&c) || c.is_ascii_digit()
}

#[test]
fn add_then_find_has_category() {
    let mut store = Store::new();
    let e = store.add("deploy", "ops").unwrap();
    assert_eq!(e.name, "deploy");
    let found = store.get_entry_by_name("deploy").unwrap();
    assert_eq!(found.category, "ops");
    assert_eq!(found.filehash, e.filehash);
}

#[test]
fn add_with_empty_category_uses_default() {
    let mut store = Store::new();
    store.add("deploy", "").unwrap();
    assert_eq!(store.get_entry_by_name("deploy").unwrap().category, "default");
}

#[test]
fn add_existing_name_is_duplicate() {
    let mut store = Store::new();
    store.add("deploy", "ops").unwrap();
    store.add("build", "dev").unwrap();
    assert_eq!(store.add("deploy", "other").err(), Some(StoreError::DuplicateName));
    assert_eq!(store.len(), 2);
    assert_eq!(store.get_entry_by_name("deploy").unwrap().category, "ops");
}

#[test]
fn add_entry_rejects_taken_identifier() {
    let mut store = Store::new();
    store.add_entry("a", "x", "0000000A").unwrap();
    assert_eq!(store.add_entry("b", "x", "0000000A").err(), Some(StoreError::IdentifierCollision));
    assert_eq!(store.add_entry("a", "x", "0000000B").err(), Some(StoreError::DuplicateName));
    assert_eq!(store.len(), 1);
}

#[test]
fn remove_then_find_is_absent() {
    let mut store = Store::new();
    store.add("a", "x").unwrap();
    let b = store.add("b", "x").unwrap();
    store.add("c", "x").unwrap();
    let removed = store.remove("b").unwrap();
    assert_eq!(removed.filehash, b.filehash);
    assert!(store.get_entry_by_name("b").is_none());
    assert!(!store.check_entry_exists("b"));
    assert_eq!(store.len(), 2);
    assert_eq!(store.get(0).name, "a");
    assert_eq!(store.get(1).name, "c");
}

#[test]
fn remove_missing_is_not_found() {
    let mut store = Store::new();
    store.add("a", "x").unwrap();
    assert_eq!(store.remove("zzz").err(), Some(StoreError::NotFound));
    assert_eq!(store.len(), 1);
}

#[test]
fn set_category_moves_entry() {
    let mut store = Store::new();
    store.add("a", "x").unwrap();
    store.set_category("a", "y").unwrap();
    assert_eq!(store.get_entry_by_name("a").unwrap().category, "y");
    assert_eq!(store.set_category("b", "y"), Err(StoreError::NotFound));
}

#[test]
fn categories_are_distinct() {
    let mut store = Store::new();
    store.add("a", "x").unwrap();
    store.add("b", "y").unwrap();
    store.add("c", "x").unwrap();
    let cats = store.get_categories();
    assert_eq!(cats, vec!["x".to_string(), "y".to_string()]);
    let xs = store.entries_in_category("x");
    assert_eq!(xs.len(), 2);
    assert_eq!(xs[0].name, "a");
    assert_eq!(xs[1].name, "c");
}

#[test]
fn identifiers_are_valid_and_distinct() {
    let mut store = Store::new();
    for i in 0..200 {
        store.add(&format!("cmd{}", i), "x").unwrap();
    }
    for i in 0..store.len() {
        let id = &store.get(i).filehash;
        assert_eq!(id.chars().count(), ID_LEN);
        assert!(id.chars().all(is_id_char));
        for j in 0..i {
            assert_ne!(&store.get(j).filehash, id);
        }
    }
    let fresh = generate_identifier(&store).unwrap();
    assert!(!store.check_sequence_exists(&fresh));
}

#[test]
fn generated_sequence_uses_alphabet() {
    for _ in 0..50 {
        let s = gen_char_sequence();
        assert_eq!(s.len(), 8);
        assert!(s.chars().all(is_id_char));
    }
}

#[test]
fn save_writes_one_line_per_entry() {
    let mut store = Store::new();
    store.add_entry("build", "dev", "0123ABCD").unwrap();
    store.add_entry("deploy", "ops", "FFFF0000").unwrap();
    assert_eq!(save_text(&store), "build;dev;0123ABCD\ndeploy;ops;FFFF0000\n");
}

#[test]
fn save_then_load_round_trip() {
    let mut store = Store::new();
    store.add("build", "dev").unwrap();
    store.add("deploy", "").unwrap();
    store.add("ünï", "cat").unwrap();
    let text = save_text(&store);
    let back = load_text(&text).unwrap();
    assert_eq!(back.len(), store.len());
    for i in 0..store.len() {
        assert_eq!(back.get(i).name, store.get(i).name);
        assert_eq!(back.get(i).category, store.get(i).category);
        assert_eq!(back.get(i).filehash, store.get(i).filehash);
    }
}

#[test]
fn load_without_final_newline() {
    let store = load_text("test;test;00000000").unwrap();
    assert_eq!(store.len(), 1);
    assert_eq!(store.get(0).name, "test");
    assert_eq!(store.get(0).filehash, "00000000");
    assert_eq!(load_text("").unwrap().len(), 0);
}

#[test]
fn load_rejects_malformed_lines() {
    assert_eq!(load_text("a;b\n").err(), Some(StoreError::Malformed));
    assert_eq!(load_text("a;b;c;d\n").err(), Some(StoreError::Malformed));
    assert_eq!(load_text("a;b;c\n\nd;e;f\n").err(), Some(StoreError::Malformed));
    assert_eq!(load_text(";b;c\n").err(), Some(StoreError::Malformed));
}

#[test]
fn load_rejects_duplicates() {
    assert_eq!(load_text("a;x;00000001\na;y;00000002\n").err(), Some(StoreError::Malformed));
    assert_eq!(load_text("a;x;00000001\nb;y;00000001\n").err(), Some(StoreError::Malformed));
}
