use pxc::codec::{load_text, save_text};
use pxc::config::editor_from_config;
use pxc::entry::Store;
use pxc::ident::identifier_from_draws;
use pxc::search::find_entries_containing;

#[test]
fn draws_spell_identifier() {
    assert_eq!(identifier_from_draws(&vec![0, 5, 6, 15, 10, 1, 9, 2]), "AF094B3C");
    assert_eq!(identifier_from_draws(&vec![15; 8]), "99999999");
}

#[test]
fn add_on_empty_store_succeeds() {
    let mut store = Store::new();
    assert!(store.add("first", "").is_ok());
    assert_eq!(store.len(), 1);
}

#[test]
fn editor_line_is_read() {
    assert_eq!(editor_from_config("editor;nano\n"), Some("nano".to_string()));
    assert_eq!(editor_from_config("editor;vi\nother;x\neditor;emacs -nw\n"), Some("emacs -nw".to_string()));
    assert_eq!(editor_from_config("editor;a;b"), Some("a;b".to_string()));
    assert_eq!(editor_from_config("editors;x\n"), None);
    assert_eq!(editor_from_config(""), None);
}

#[test]
fn listing_groups_by_category() {
    let store = load_text("a;x;00000001\nb;y;00000002\nc;x;00000003\n").unwrap();
    let all = store.listing("");
    assert_eq!(all.len(), 2);
    assert_eq!(all[0].0, "x");
    assert_eq!(all[0].1.iter().map(|e| e.name.clone()).collect::<Vec<_>>(), vec!["a", "c"]);
    assert_eq!(all[1].0, "y");
    assert_eq!(all[1].1.len(), 1);
    let one = store.listing("y");
    assert_eq!(one.len(), 1);
    assert_eq!(one[0].1[0].name, "b");
    assert!(store.listing("zz")[0].1.is_empty());
}

#[test]
fn longer_query_narrows() {
    let store = load_text("build;x;00000001\nbuildall;x;00000002\nb;x;00000003\n").unwrap();
    assert_eq!(find_entries_containing(&store, "b").len(), 3);
    assert_eq!(find_entries_containing(&store, "bu"), vec!["build", "buildall"]);
    assert_eq!(find_entries_containing(&store, "bua").len(), 0);
}

#[test]
fn save_after_load_gives_file_back() {
    let text = "test;test;00000000\nb;x;ABCDEF12\n";
    assert_eq!(save_text(&load_text(text).unwrap()), text);
    assert_eq!(save_text(&load_text("").unwrap()), "");
}
