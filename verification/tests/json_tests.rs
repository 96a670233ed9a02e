use contest_solvers::json::{stupid_json, try_stupid_json};

fn id64(c: char) -> String {
    std::iter::repeat(c).take(64).collect()
}

#[test]
fn reads_plain_entries() {
    let doc = format!("[[\"{}\",\"hello\"],[\"{}\",\"world\"]]", id64('a'), id64('b'));
    let v = stupid_json(&doc);
    assert_eq!(v.len(), 2);
    assert_eq!(v[0].0, id64('a').into_bytes());
    assert_eq!(v[0].1, "hello");
    assert_eq!(v[1].0, id64('b').into_bytes());
    assert_eq!(v[1].1, "world");
}

#[test]
fn reads_escapes() {
    let doc = format!("[[\"{}\",\"a\\\"b\\\\c\\nd\\u0041\"]]", id64('c'));
    let v = stupid_json(&doc);
    assert_eq!(v.len(), 1);
    assert_eq!(v[0].1, "a\"b\\c\ndA");
}

#[test]
fn no_entries_in_an_empty_list() {
    assert_eq!(stupid_json("[]").len(), 0);
}

#[test]
fn broken_document_is_refused() {
    let doc = format!("[[\"{}", id64('d'));
    assert!(try_stupid_json(&doc).is_none());
}
