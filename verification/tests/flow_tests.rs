use sunrise::flows::apply_review;
use sunrise::flows::apply_stale;
use sunrise::flows::first_with_store;
use sunrise::flows::init_action;
use sunrise::flows::parse_decision;
use sunrise::flows::parse_review;
use sunrise::flows::Decision;
use sunrise::flows::InitAction;
use sunrise::flows::ReviewDecision;
use sunrise::order::str_compare;
use sunrise::order::Cmp;
use sunrise::paths::depth;
use sunrise::paths::normalize;
use sunrise::render::render;
use sunrise::store::Store;
use sunrise::Error;

fn comps(parts: &[&str]) -> Vec<String> {
    parts.iter().map(|p| p.to_string()).collect()
}

#[test]
fn decision_vocabulary_is_case_insensitive() {
    assert_eq!(parse_decision("y"), Some(Decision::Yes));
    assert_eq!(parse_decision("Y"), Some(Decision::Yes));
    assert_eq!(parse_decision("yes"), Some(Decision::Yes));
    assert_eq!(parse_decision("YES PLEASE"), Some(Decision::Yes));
    assert_eq!(parse_decision("n"), Some(Decision::No));
    assert_eq!(parse_decision("No"), Some(Decision::No));
    assert_eq!(parse_decision("NO THANKS"), Some(Decision::No));
    assert_eq!(parse_decision(""), None);
    assert_eq!(parse_decision("maybe"), None);
    assert_eq!(parse_decision("yess"), None);
}

#[test]
fn review_vocabulary() {
    assert!(matches!(parse_review(""), ReviewDecision::Skip));
    assert!(matches!(parse_review("d"), ReviewDecision::Delete));
    match parse_review("D") {
        ReviewDecision::Update(t) => assert_eq!(t.as_str(), "D"),
        _ => panic!("expected an update: only the literal d deletes"),
    }
    match parse_review("new words") {
        ReviewDecision::Update(t) => assert_eq!(t.as_str(), "new words"),
        _ => panic!("expected an update"),
    }
}

#[test]
fn stale_entry_removed_on_yes() {
    let mut st = Store::new();
    st.set("old/file", "desc");
    let changed = apply_stale(&mut st, "old/file", Decision::Yes);
    assert!(changed);
    assert!(st.get("old/file").is_none());
    assert_eq!(st.known_paths().len(), 0);
}

#[test]
fn stale_entry_kept_on_no() {
    let mut st = Store::new();
    st.set("old/file", "desc");
    let changed = apply_stale(&mut st, "old/file", Decision::No);
    assert!(!changed);
    assert_eq!(st.get("old/file").map(|s| s.as_str()), Some("desc"));
}

#[test]
fn review_delete_skip_update() {
    let mut deleted = Store::new();
    deleted.set("src/main", "entry point");
    assert!(apply_review(&mut deleted, "src/main", &parse_review("d")));
    assert!(deleted.get("src/main").is_none());

    let mut skipped = Store::new();
    skipped.set("src/main", "entry point");
    assert!(!apply_review(&mut skipped, "src/main", &parse_review("")));
    assert_eq!(skipped.get("src/main").map(|s| s.as_str()), Some("entry point"));

    let mut updated = Store::new();
    updated.set("src/main", "entry point");
    assert!(apply_review(&mut updated, "src/main", &parse_review("where it starts")));
    assert_eq!(updated.get("src/main").map(|s| s.as_str()), Some("where it starts"));
}

#[test]
fn init_creates_only_where_absent() {
    assert_eq!(init_action(false), InitAction::CreateEmpty);
    assert_eq!(init_action(true), InitAction::AlreadyExists);
    assert_eq!(Store::new().encode().as_str(), "");
}

#[test]
fn locator_picks_nearest_ancestor() {
    assert_eq!(first_with_store(&vec![false, true, true]), Some(1));
    assert_eq!(first_with_store(&vec![true]), Some(0));
    assert_eq!(first_with_store(&vec![false, false]), None);
    assert_eq!(first_with_store(&vec![]), None);
}

#[test]
fn normalize_gives_relative_key() {
    let root = comps(&["home", "user", "proj"]);
    let target = comps(&["home", "user", "proj", "src", "main.rs"]);
    assert_eq!(normalize(&root, &target).unwrap().as_str(), "src/main.rs");
}

#[test]
fn normalize_rejects_root_itself_and_outsiders() {
    let root = comps(&["home", "user", "proj"]);
    assert!(matches!(normalize(&root, &root), Err(Error::Unrelated)));
    let outside = comps(&["home", "user", "other", "file"]);
    assert!(matches!(normalize(&root, &outside), Err(Error::Unrelated)));
    let above = comps(&["home", "user"]);
    assert!(matches!(normalize(&root, &above), Err(Error::Unrelated)));
}

#[test]
fn depth_counts_separators() {
    assert_eq!(depth("a"), 0);
    assert_eq!(depth("src/main.rs"), 1);
    assert_eq!(depth("a/b/c"), 2);
}

#[test]
fn render_plain_and_inline() {
    let mut st = Store::new();
    st.set("src/main", "entry point");
    let files = comps(&["src", "src/main", "src/util"]);
    let plain = render(&st, &files, false);
    let plain_views: Vec<&str> = plain.iter().map(|l| l.as_str()).collect();
    assert_eq!(plain_views, vec!["src", "   // entry point", "  src/main", "  src/util"]);
    let inline = render(&st, &files, true);
    let inline_views: Vec<&str> = inline.iter().map(|l| l.as_str()).collect();
    assert_eq!(inline_views, vec!["src", "  src/main // entry point", "  src/util"]);
}

#[test]
fn string_comparison_is_lexicographic() {
    assert_eq!(str_compare("a", "b"), Cmp::Lt);
    assert_eq!(str_compare("b", "a"), Cmp::Gt);
    assert_eq!(str_compare("same", "same"), Cmp::Eq);
    assert_eq!(str_compare("ab", "abc"), Cmp::Lt);
    assert_eq!(str_compare("abc", "ab"), Cmp::Gt);
}
