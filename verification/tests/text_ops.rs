use luabundle::text::{
    before_first, after_first, contains_sub, find_sub, join, replace_all, replace_first, split,
    strip_leading_sigils, trim, trim_path_delims,
};

fn strings(parts: &[&str]) -> Vec<String> {
    parts.iter().map(|s| s.to_string()).collect()
}

#[test]
fn find_sub_first_occurrence() {
    assert_eq!(find_sub("abcabc", "bc"), Some(1));
    assert_eq!(find_sub("abcabc", "zz"), None);
    assert_eq!(find_sub("abc", ""), Some(0));
}

#[test]
fn contains_sub_basic() {
    assert!(contains_sub("loadmodule(\"x\")", "loadmodule("));
    assert!(!contains_sub("print(1)", "loadmodule("));
}

#[test]
fn split_on_separator() {
    assert_eq!(split("a,b,c", ","), strings(&["a", "b", "c"]));
    assert_eq!(split("a--b--c", "--"), strings(&["a", "b", "c"]));
    assert_eq!(split("abc", ","), strings(&["abc"]));
    assert_eq!(split("", ","), strings(&[""]));
    assert_eq!(split(",a,", ","), strings(&["", "a", ""]));
}

#[test]
fn split_on_empty_separator() {
    assert_eq!(split("ab", ""), strings(&["", "a", "b", ""]));
    assert_eq!(split("", ""), strings(&["", ""]));
}

#[test]
fn join_fields() {
    assert_eq!(join(&strings(&["a", "b", "c"]), ","), "a,b,c");
    assert_eq!(join(&strings(&["a"]), ","), "a");
    assert_eq!(join(&strings(&[]), ","), "");
}

#[test]
fn join_undoes_split() {
    let text = "x, y ,,z";
    assert_eq!(join(&split(text, ","), ","), text);
}

#[test]
fn trim_whitespace() {
    assert_eq!(trim("  foo \t"), "foo");
    assert_eq!(trim("\r\n"), "");
    assert_eq!(trim("bar"), "bar");
}

#[test]
fn trim_path_delims_strips_quotes_and_commas() {
    assert_eq!(trim_path_delims("\"x.lua\""), "x.lua");
    assert_eq!(trim_path_delims("'x.lua',"), "x.lua");
    assert_eq!(trim_path_delims(",\"'x.lua'\","), "x.lua");
    assert_eq!(trim_path_delims("x.lua"), "x.lua");
}

#[test]
fn strip_sigils() {
    assert_eq!(strip_leading_sigils("@x.lua"), "x.lua");
    assert_eq!(strip_leading_sigils("@@x"), "x");
    assert_eq!(strip_leading_sigils("x@y"), "x@y");
}

#[test]
fn before_after_first() {
    assert_eq!(before_first("a--b--c", "--"), "a");
    assert_eq!(before_first("abc", "--"), "abc");
    assert_eq!(after_first("load(x)", "load("), "x)");
    assert_eq!(after_first("abc", "--"), "abc");
}

#[test]
fn replace_first_only() {
    assert_eq!(replace_first("aXbXc", "X", "-"), "a-bXc");
    assert_eq!(replace_first("abc", "X", "-"), "abc");
}

#[test]
fn replace_all_occurrences() {
    assert_eq!(replace_all("aXbXc", "X", "--"), "a--b--c");
    assert_eq!(replace_all("abc", "X", "-"), "abc");
    assert_eq!(
        replace_all("print(\"{{filename}}\")", "{{filename}}", "main.lua"),
        "print(\"main.lua\")"
    );
}
