use pxc::codec::load_text;
use pxc::dispatch::{choose_match, key_from_code, resolve, Action, Key, Resolution, Session};
use pxc::entry::StoreError;

fn redraw_matches(a: Action) -> (String, Vec<String>, usize) {
    match a {
        Action::Redraw { query, matches, clear } => (query, matches, clear),
        _ => panic!("expected a redraw"),
    }
}

#[test]
fn interactive_typing_ranks_and_confirm_runs_shortest() {
    let store = load_text("build;x;00000001\nbuildall;x;00000002\nb;x;00000003\n").unwrap();
    let mut s = Session::new();
    let (q, m, clear) = redraw_matches(s.step(&store, Key::Printable('b')));
    assert_eq!(q, "b");
    assert_eq!(m, vec!["b", "build", "buildall"]);
    assert_eq!(clear, 0);
    assert_eq!(s.drawn(), 3);
    match s.step(&store, Key::Confirm) {
        Action::Execute(n) => assert_eq!(n, "b"),
        _ => panic!("expected execute"),
    }
}

#[test]
fn interactive_erase_and_clear_rows() {
    let store = load_text("build;x;00000001\nbuildall;x;00000002\nb;x;00000003\n").unwrap();
    let mut s = Session::new();
    s.step(&store, Key::Printable('b'));
    let (q, m, clear) = redraw_matches(s.step(&store, Key::Printable('u')));
    assert_eq!(q, "bu");
    assert_eq!(m, vec!["build", "buildall"]);
    assert_eq!(clear, 3);
    let (q, m, clear) = redraw_matches(s.step(&store, Key::Erase));
    assert_eq!(q, "b");
    assert_eq!(m.len(), 3);
    assert_eq!(clear, 2);
    s.step(&store, Key::Erase);
    let (q, m, _) = redraw_matches(s.step(&store, Key::Erase));
    assert_eq!(q, "");
    assert_eq!(m.len(), 3);
}

#[test]
fn interactive_confirm_without_match_stays() {
    let store = load_text("build;x;00000001\n").unwrap();
    let mut s = Session::new();
    s.step(&store, Key::Printable('q'));
    assert!(matches!(s.step(&store, Key::Confirm), Action::Stay));
    assert_eq!(s.query(), "q");
    assert!(matches!(s.step(&store, Key::Cancel), Action::Exit));
}

#[test]
fn key_codes() {
    assert_eq!(key_from_code(27), Some(Key::Cancel));
    assert_eq!(key_from_code(263), Some(Key::Erase));
    assert_eq!(key_from_code(10), Some(Key::Confirm));
    assert_eq!(key_from_code(98), Some(Key::Printable('b')));
    assert_eq!(key_from_code(-1), None);
    assert_eq!(key_from_code(0xD800), None);
}

#[test]
fn ambiguous_resolution_by_number() {
    let store = load_text("deploy-dev;x;00000001\ndeploy-prod;x;00000002\n").unwrap();
    let choices = match resolve(&store, "deploy") {
        Resolution::Several(v) => v,
        _ => panic!("expected several"),
    };
    assert_eq!(choices, vec!["deploy-dev", "deploy-prod"]);
    assert_eq!(choose_match(&choices, "2"), Ok("deploy-prod".to_string()));
    assert_eq!(choose_match(&choices, "1"), Ok("deploy-dev".to_string()));
    assert_eq!(choose_match(&choices, "abc"), Err(StoreError::InvalidSelection));
    assert_eq!(choose_match(&choices, "3"), Err(StoreError::InvalidSelection));
    assert_eq!(choose_match(&choices, "0"), Err(StoreError::InvalidSelection));
    assert_eq!(choose_match(&choices, ""), Err(StoreError::InvalidSelection));
    assert_eq!(choose_match(&choices, "99999999999999999999999"), Err(StoreError::InvalidSelection));
    assert_eq!(choose_match(&choices, "002"), Ok("deploy-prod".to_string()));
}

#[test]
fn resolution_exact_single_none() {
    let store = load_text("deploy-dev;x;00000001\ndeploy;x;00000002\n").unwrap();
    assert!(matches!(resolve(&store, "deploy"), Resolution::Exact(n) if n == "deploy"));
    assert!(matches!(resolve(&store, "dev"), Resolution::Single(n) if n == "deploy-dev"));
    assert!(matches!(resolve(&store, "zz"), Resolution::NoMatch));
    let one = vec!["deploy-dev".to_string()];
    assert_eq!(choose_match(&one, ""), Ok("deploy-dev".to_string()));
}
