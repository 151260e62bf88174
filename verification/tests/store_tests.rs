use sunrise::flows::add_description;
use sunrise::store::Store;
use sunrise::Error;

#[test]
fn set_then_get_returns_description() {
    let mut st = Store::new();
    st.set("src/main", "entry point");
    assert_eq!(st.get("src/main").map(|s| s.as_str()), Some("entry point"));
    st.set("src/main", "the entry point");
    assert_eq!(st.get("src/main").map(|s| s.as_str()), Some("the entry point"));
}

#[test]
fn remove_then_get_returns_none() {
    let mut st = Store::new();
    st.set("src/main", "entry point");
    st.remove("src/main");
    assert!(st.get("src/main").is_none());
}

#[test]
fn set_empty_is_remove() {
    let mut st = Store::new();
    st.set("src/main", "entry point");
    st.set("src/main", "");
    assert!(st.get("src/main").is_none());
    assert_eq!(st.encode().as_str(), "");
}

#[test]
fn set_empty_on_absent_path_is_harmless() {
    let mut st = Store::new();
    st.set("src/main", "");
    assert!(st.get("src/main").is_none());
    assert_eq!(st.known_paths().len(), 0);
}

#[test]
fn remove_is_idempotent() {
    let mut st = Store::new();
    st.set("a", "one");
    st.set("b", "two");
    st.remove("a");
    let once = st.encode();
    st.remove("a");
    assert_eq!(st.encode(), once);
    assert_eq!(st.get("b").map(|s| s.as_str()), Some("two"));
}

#[test]
fn known_paths_are_sorted_whatever_insertion_order() {
    let mut st = Store::new();
    st.set("zeta", "z");
    st.set("alpha", "a");
    st.set("midway/file", "m");
    let paths = st.known_paths();
    let views: Vec<&str> = paths.iter().map(|p| p.as_str()).collect();
    assert_eq!(views, vec!["alpha", "midway/file", "zeta"]);
}

#[test]
fn encode_decode_round_trip_plain() {
    let mut st = Store::new();
    st.set("src/main", "entry point");
    st.set("src/util", "helper");
    let text = st.encode();
    let st2 = Store::load(text.as_str()).unwrap();
    assert_eq!(st2.get("src/main").map(|s| s.as_str()), Some("entry point"));
    assert_eq!(st2.get("src/util").map(|s| s.as_str()), Some("helper"));
    assert_eq!(st2.known_paths().len(), 2);
    assert_eq!(st2.encode(), text);
}

#[test]
fn encode_decode_round_trip_special_characters() {
    let mut st = Store::new();
    st.set("weird", "a=b\\c\nnext line");
    st.set("spaced path", "has = sign");
    let text = st.encode();
    let st2 = Store::load(text.as_str()).unwrap();
    assert_eq!(st2.get("weird").map(|s| s.as_str()), Some("a=b\\c\nnext line"));
    assert_eq!(st2.get("spaced path").map(|s| s.as_str()), Some("has = sign"));
}

#[test]
fn encoded_form_is_one_line_per_entry() {
    let mut st = Store::new();
    st.set("b", "two");
    st.set("a", "one");
    assert_eq!(st.encode().as_str(), "a=one\nb=two\n");
}

#[test]
fn equal_mappings_encode_identically() {
    let mut a = Store::new();
    a.set("x", "one");
    a.set("y", "two");
    let mut b = Store::new();
    b.set("y", "two");
    b.set("x", "one");
    assert_eq!(a.encode(), b.encode());
}

#[test]
fn load_of_empty_text_is_empty_store() {
    let st = Store::load("").unwrap();
    assert_eq!(st.known_paths().len(), 0);
    assert_eq!(st.encode().as_str(), "");
}

#[test]
fn load_rejects_text_without_separator() {
    assert!(matches!(Store::load("just some text\n"), Err(Error::Malformed)));
}

#[test]
fn load_rejects_unterminated_line() {
    assert!(matches!(Store::load("a=b"), Err(Error::Malformed)));
}

#[test]
fn load_rejects_duplicate_path() {
    assert!(matches!(Store::load("a=one\na=two\n"), Err(Error::Malformed)));
}

#[test]
fn load_rejects_empty_path_or_description() {
    assert!(matches!(Store::load("=value\n"), Err(Error::Malformed)));
    assert!(matches!(Store::load("key=\n"), Err(Error::Malformed)));
}

#[test]
fn load_rejects_bare_separator_in_value() {
    assert!(matches!(Store::load("a=b=c\n"), Err(Error::Malformed)));
}

#[test]
fn load_accepts_unsorted_file_and_sorts_it() {
    let st = Store::load("zeta=z\nalpha=a\n").unwrap();
    let paths = st.known_paths();
    let views: Vec<&str> = paths.iter().map(|p| p.as_str()).collect();
    assert_eq!(views, vec!["alpha", "zeta"]);
    assert_eq!(st.encode().as_str(), "alpha=a\nzeta=z\n");
}

#[test]
fn error_messages_name_the_failure() {
    assert_eq!(Error::NotFound.message(), ".sunrise not found");
    assert_eq!(Error::Unrelated.message(), "path is not inside the store's root");
    assert_eq!(Error::Malformed.message(), "the .sunrise file is malformed");
}

#[test]
fn discovery_with_text_adds_entry() {
    let mut st = Store::new();
    st.set("src/main", "entry point");
    let changed = add_description(&mut st, "src/util", "helper");
    assert!(changed);
    assert_eq!(st.get("src/main").map(|s| s.as_str()), Some("entry point"));
    assert_eq!(st.get("src/util").map(|s| s.as_str()), Some("helper"));
}

#[test]
fn discovery_with_empty_input_changes_nothing() {
    let mut st = Store::new();
    st.set("src/main", "entry point");
    let before = st.encode();
    let changed = add_description(&mut st, "src/util", "");
    assert!(!changed);
    assert_eq!(st.encode(), before);
    assert!(st.get("src/util").is_none());
}
