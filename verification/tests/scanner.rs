use luabundle::bundler::{get_relative_folder, get_require_arguments, get_require_content, join_path};
use luabundle::utils::{get_macros, require_function_commented, Macro};

fn s(v: &str) -> String {
    v.to_string()
}

#[test]
fn commented_when_marker_before_token() {
    assert!(require_function_commented(s("-- load(\"x.lua\")"), s("load")));
    assert!(require_function_commented(s("x = 1 -- load(\"x.lua\")"), s("load")));
}

#[test]
fn not_commented_when_marker_after_token() {
    assert!(!require_function_commented(s("load(\"x.lua\") -- note"), s("load")));
    assert!(!require_function_commented(s("load(\"x.lua\")"), s("load")));
    assert!(!require_function_commented(s("-- nothing here"), s("load")));
}

#[test]
fn marker_inside_string_still_suppresses() {
    // The heuristic is purely positional, by design: a comment marker inside
    // a string literal before the token also suppresses resolution.
    assert!(require_function_commented(s("print(\"--\") load(\"x.lua\")"), s("load")));
}

#[test]
fn get_macros_records_marked_lines() {
    let lines = vec![s("print(1)"), s("load(\"x.lua\") -- [abs_path]"), s("print(2)")];
    let (macros, cleaned) = get_macros(&lines);
    assert_eq!(cleaned.len(), 3);
    assert_eq!(cleaned[0], "print(1)");
    assert_eq!(cleaned[1], "load(\"x.lua\")");
    assert_eq!(cleaned[2], "print(2)");
    assert_eq!(macros.get(&1), Some(&vec![Macro::AbsPath]));
    assert_eq!(macros.get(&0), None);
    assert_eq!(macros.get(&2), None);
}

#[test]
fn get_macros_passes_unmarked_lines_through() {
    let lines = vec![s("a -- comment stays"), s("b")];
    let (macros, cleaned) = get_macros(&lines);
    assert_eq!(cleaned, lines);
    assert!(macros.is_empty());
}

#[test]
fn require_content_between_parens() {
    assert_eq!(get_require_content(&s("load(\"x.lua\")"), &s("load")), "\"x.lua\"");
    assert_eq!(
        get_require_content(&s("local m = load(\"x.lua\", 1, 2)()"), &s("load")),
        "\"x.lua\", 1, 2"
    );
}

#[test]
fn require_arguments_after_first_comma() {
    assert_eq!(get_require_arguments(&s("\"x.lua\", 1, \"two\", a")), " 1, \"two\", a");
    assert_eq!(get_require_arguments(&s("\"x.lua\"")), "");
}

#[test]
fn relative_folder_of_path() {
    assert_eq!(get_relative_folder(&s("a/b/x.lua")), "a/b");
    assert_eq!(get_relative_folder(&s("x.lua")), "");
}

#[test]
fn join_path_against_base() {
    assert_eq!(join_path(&s("a/b"), &s("y.lua")), "a/b/y.lua");
    assert_eq!(join_path(&s(""), &s("y.lua")), "y.lua");
}
