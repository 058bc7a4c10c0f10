use luabundle::bundler::{bundle, BundleError, SourceFile};

fn files(entries: &[(&str, &str)]) -> Vec<SourceFile> {
    entries
        .iter()
        .map(|(p, t)| SourceFile { path: p.to_string(), text: t.to_string() })
        .collect()
}

fn run(entries: &[(&str, &str)], entry: &str, token: &str) -> Result<String, BundleError> {
    bundle(&files(entries), &entry.to_string(), &token.to_string())
}

const BANNER: &str = "-- Bundled with LuaBundle\n\n";

#[test]
fn plain_file_reproduced_with_banner() {
    let out = run(&[("main.lua", "  print(1)  \n\nprint(2)\n")], "main.lua", "load").unwrap();
    assert_eq!(out, format!("{}print(1)\nprint(2)", BANNER));
}

#[test]
fn simple_require_is_inlined() {
    let out = run(
        &[("main.lua", "load(\"x.lua\")"), ("x.lua", "return 1")],
        "main.lua",
        "load",
    )
    .unwrap();
    assert_eq!(out, format!("{}(function(...) return 1 end)()", BANNER));
}

#[test]
fn filename_template_substituted() {
    let out = run(&[("main.lua", "print(\"{{filename}}\")")], "main.lua", "load").unwrap();
    assert_eq!(out, format!("{}print(\"main.lua\")", BANNER));
}

#[test]
fn forwarded_arguments_preserved_exactly() {
    let out = run(
        &[("main.lua", "local m = load(\"x.lua\", 1, \"two\", a)()"), ("x.lua", "return ...")],
        "main.lua",
        "load",
    )
    .unwrap();
    assert_eq!(
        out,
        format!("{}local m = (function(...) return ... end)( 1, \"two\", a)()", BANNER)
    );
}

#[test]
fn commented_require_left_untouched() {
    // x.lua does not exist; the run still succeeds because the commented
    // line is never resolved.
    let out = run(
        &[("main.lua", "-- load(\"x.lua\")\nprint(1)")],
        "main.lua",
        "load",
    )
    .unwrap();
    assert_eq!(out, format!("{}-- load(\"x.lua\")\nprint(1)", BANNER));
}

#[test]
fn missing_module_aborts_with_resolved_path() {
    let err = run(&[("main.lua", "load(\"missing.lua\")")], "main.lua", "load").unwrap_err();
    match err {
        BundleError::ModuleNotFound { path } => assert_eq!(path, "missing.lua"),
        other => panic!("expected ModuleNotFound, got {:?}", other),
    }
}

#[test]
fn entry_not_found_aborts() {
    let err = run(&[("other.lua", "print(1)")], "main.lua", "load").unwrap_err();
    match err {
        BundleError::EntryNotFound { path } => assert_eq!(path, "main.lua"),
        other => panic!("expected EntryNotFound, got {:?}", other),
    }
}

#[test]
fn nested_relative_resolves_against_requiring_file() {
    // a/b/x.lua requires "y.lua" with no sigil: the resolver must look in
    // a/b/, not in a/ nor in the project root.
    let out = run(
        &[
            ("a/main.lua", "load(\"b/x.lua\")"),
            ("a/b/x.lua", "load(\"y.lua\")"),
            ("a/b/y.lua", "print(\"right\")"),
            ("a/y.lua", "print(\"wrong-sibling\")"),
            ("y.lua", "print(\"wrong-root\")"),
        ],
        "a/main.lua",
        "load",
    )
    .unwrap();
    assert!(out.contains("print(\"right\")"));
    assert!(!out.contains("wrong-sibling"));
    assert!(!out.contains("wrong-root"));
}

#[test]
fn sigil_resolves_against_root_despite_sibling() {
    let out = run(
        &[
            ("a/main.lua", "load(\"@x.lua\")"),
            ("x.lua", "print(\"root\")"),
            ("a/x.lua", "print(\"sibling\")"),
        ],
        "a/main.lua",
        "load",
    )
    .unwrap();
    assert!(out.contains("print(\"root\")"));
    assert!(!out.contains("sibling"));
}

#[test]
fn abs_path_macro_resolves_against_root() {
    let out = run(
        &[
            ("a/main.lua", "load(\"x.lua\") -- [abs_path]"),
            ("x.lua", "print(\"root\")"),
            ("a/x.lua", "print(\"sibling\")"),
        ],
        "a/main.lua",
        "load",
    )
    .unwrap();
    assert!(out.contains("print(\"root\")"));
    assert!(!out.contains("sibling"));
}

#[test]
fn semicolon_injected_after_closing_paren_line() {
    let out = run(
        &[("main.lua", "foo()\n(load(\"x.lua\"))()"), ("x.lua", "return 1")],
        "main.lua",
        "load",
    )
    .unwrap();
    assert_eq!(
        out,
        format!("{}foo()\n(;(function(...) return 1 end)())()", BANNER)
    );
}

#[test]
fn no_semicolon_for_assignment_line() {
    let out = run(
        &[("main.lua", "foo()\nlocal r = load(\"x.lua\")()"), ("x.lua", "return 1")],
        "main.lua",
        "load",
    )
    .unwrap();
    assert_eq!(
        out,
        format!("{}foo()\nlocal r = (function(...) return 1 end)()()", BANNER)
    );
}

#[test]
fn no_semicolon_on_first_line() {
    let out = run(
        &[("main.lua", "(load(\"x.lua\"))()"), ("x.lua", "return 1")],
        "main.lua",
        "load",
    )
    .unwrap();
    assert_eq!(out, format!("{}((function(...) return 1 end)())()", BANNER));
}

#[test]
fn require_cycle_aborts() {
    let err = run(
        &[("a.lua", "load(\"b.lua\")"), ("b.lua", "load(\"a.lua\")")],
        "a.lua",
        "load",
    )
    .unwrap_err();
    match err {
        BundleError::CyclicRequire { path } => assert_eq!(path, "a.lua"),
        other => panic!("expected CyclicRequire, got {:?}", other),
    }
}

#[test]
fn self_require_aborts() {
    let err = run(&[("main.lua", "load(\"main.lua\")")], "main.lua", "load").unwrap_err();
    match err {
        BundleError::CyclicRequire { path } => assert_eq!(path, "main.lua"),
        other => panic!("expected CyclicRequire, got {:?}", other),
    }
}

#[test]
fn token_without_call_is_malformed() {
    let err = run(&[("main.lua", "load")], "main.lua", "load").unwrap_err();
    match err {
        BundleError::MalformedRequire { path, line } => {
            assert_eq!(path, "main.lua");
            assert_eq!(line, "load");
        },
        other => panic!("expected MalformedRequire, got {:?}", other),
    }
}

#[test]
fn unclosed_call_is_malformed() {
    let err = run(&[("main.lua", "load(\"x.lua\"")], "main.lua", "load").unwrap_err();
    match err {
        BundleError::MalformedRequire { path, .. } => assert_eq!(path, "main.lua"),
        other => panic!("expected MalformedRequire, got {:?}", other),
    }
}

#[test]
fn rerun_is_byte_identical() {
    let entries = [
        ("a/main.lua", "load(\"b/x.lua\", 1)\nprint(\"{{filename}}\")"),
        ("a/b/x.lua", "load(\"@y.lua\")"),
        ("y.lua", "return 0"),
    ];
    let first = run(&entries, "a/main.lua", "load").unwrap();
    let second = run(&entries, "a/main.lua", "load").unwrap();
    assert_eq!(first, second);
}

#[test]
fn two_requires_on_separate_lines() {
    let out = run(
        &[
            ("main.lua", "load(\"a.lua\")\nload(\"b.lua\")"),
            ("a.lua", "print(\"a\")"),
            ("b.lua", "print(\"b\")"),
        ],
        "main.lua",
        "load",
    )
    .unwrap();
    // The second require line follows a line ending in `)`, so its
    // replacement carries the defensive statement separator.
    assert_eq!(
        out,
        format!(
            "{}(function(...) print(\"a\") end)()\n;(function(...) print(\"b\") end)()",
            BANNER
        )
    );
}

#[test]
fn repeated_require_is_inlined_each_time() {
    // No memoization: a module required from two places is inlined at each
    // require site.
    let out = run(
        &[
            ("main.lua", "load(\"a.lua\")\nload(\"b.lua\")"),
            ("a.lua", "load(\"c.lua\")"),
            ("b.lua", "load(\"c.lua\")"),
            ("c.lua", "print(\"shared\")"),
        ],
        "main.lua",
        "load",
    )
    .unwrap();
    assert_eq!(out.matches("print(\"shared\")").count(), 2);
}

#[test]
fn macro_index_survives_blank_line_removal() {
    // Blank lines are dropped before macro extraction, so the marker still
    // attaches to the require line it was written on.
    let out = run(
        &[
            ("a/main.lua", "\n\n\nload(\"x.lua\") -- [abs_path]"),
            ("x.lua", "print(\"root\")"),
            ("a/x.lua", "print(\"sibling\")"),
        ],
        "a/main.lua",
        "load",
    )
    .unwrap();
    assert!(out.contains("print(\"root\")"));
    assert!(!out.contains("sibling"));
}

#[test]
fn carriage_returns_trimmed_from_lines() {
    let out = run(&[("main.lua", "print(1)\r\nprint(2)\r\n")], "main.lua", "load").unwrap();
    assert_eq!(out, format!("{}print(1)\nprint(2)", BANNER));
}

#[test]
fn single_quoted_literal_resolves() {
    let out = run(
        &[("main.lua", "load('x.lua')"), ("x.lua", "return 1")],
        "main.lua",
        "load",
    )
    .unwrap();
    assert_eq!(out, format!("{}(function(...) return 1 end)()", BANNER));
}

#[test]
fn parse_inlines_without_banner() {
    let fs = files(&[("main.lua", "load(\"x.lua\")"), ("x.lua", "return 1")]);
    let out = luabundle::bundler::parse(
        &fs,
        &String::new(),
        &"main.lua".to_string(),
        &"load".to_string(),
        &Vec::new(),
    )
    .unwrap();
    assert_eq!(out, "(function(...) return 1 end)()");
}

#[test]
fn custom_require_token() {
    let out = run(
        &[("main.lua", "loadmodule(\"m.lua\")"), ("m.lua", "return 9")],
        "main.lua",
        "loadmodule",
    )
    .unwrap();
    assert_eq!(out, format!("{}(function(...) return 9 end)()", BANNER));
}

