use pxc::codec::load_text;
use pxc::search::{contains_str, find_entries_containing, sort_names_by_len};
use pxc::text::{split_fields, str_eq};

#[test]
fn empty_query_returns_all_names() {
    let store = load_text("b;x;00000001\nbuild;x;00000002\nzz;y;00000003\n").unwrap();
    assert_eq!(find_entries_containing(&store, ""), vec!["b", "build", "zz"]);
}

#[test]
fn query_keeps_containing_names_in_store_order() {
    let store = load_text("buildall;x;00000001\nrebuild;x;00000002\nzz;y;00000003\nb;x;00000004\n").unwrap();
    assert_eq!(find_entries_containing(&store, "uil"), vec!["buildall", "rebuild"]);
    assert_eq!(find_entries_containing(&store, "q"), Vec::<String>::new());
}

#[test]
fn filter_is_case_sensitive() {
    let store = load_text("Build;x;00000001\n").unwrap();
    assert!(find_entries_containing(&store, "build").is_empty());
}

#[test]
fn contains_str_cases() {
    assert!(contains_str("deploy-prod", "y-p"));
    assert!(contains_str("abc", ""));
    assert!(contains_str("abc", "abc"));
    assert!(!contains_str("abc", "abcd"));
    assert!(!contains_str("abc", "C"));
}

#[test]
fn sort_by_length_is_stable() {
    let v: Vec<String> = vec!["buildall", "bb", "b", "aa", "build"].into_iter().map(String::from).collect();
    assert_eq!(sort_names_by_len(&v), vec!["b", "bb", "aa", "build", "buildall"]);
    assert!(sort_names_by_len(&Vec::new()).is_empty());
}

#[test]
fn split_and_compare() {
    assert_eq!(split_fields("a;;b", ';'), vec!["a", "", "b"]);
    assert_eq!(split_fields("", ';'), vec![""]);
    assert!(str_eq("same", "same"));
    assert!(!str_eq("same", "Same"));
}
