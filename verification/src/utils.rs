//! Line-level scanning: the comment-position heuristic that suppresses
//! require calls, and extraction of per-line macro annotations.

use vstd::prelude::*;

use crate::text::{
    before_first_spec, before_first, contains_sub, contains_sub_spec, find_sub, find_sub_spec,
    trim, trim_spec,
};
use std::collections::HashMap;

verus! {

broadcast use vstd::std_specs::hash::group_hash_axioms;

/// A line-scoped annotation that alters resolution policy for the require
/// call on that line.
#[derive(Eq, Hash, PartialEq, Clone, Debug, Structural)]
pub enum Macro {
    /// Do not invoke the inlined module (recognized as a variant, not yet
    /// produced by any marker).
    DontRun,
    /// Resolve the call on this line against the project root.
    AbsPath,
}

/// The annotation marker that attaches `Macro::AbsPath` to a line.
pub open spec fn abs_marker() -> Seq<char> {
    "[abs_path]"@
}

/// The line-comment introducer of the target language.
pub open spec fn comment_marker() -> Seq<char> {
    "--"@
}

/// A require occurrence counts as commented out exactly when a comment
/// marker appears strictly before the first occurrence of the require
/// token. Purely positional: a marker inside a string literal also
/// suppresses, by design.
pub open spec fn commented_spec(line: Seq<char>, token: Seq<char>) -> bool {
    match (find_sub_spec(line, comment_marker()), find_sub_spec(line, token)) {
        (Some(c), Some(t)) => c < t,
        _ => false,
    }
}

/// Whether a line carries the absolute-path annotation marker.
pub open spec fn has_marker_spec(line: Seq<char>) -> bool {
    contains_sub_spec(line, abs_marker())
}

/// A marked line is replaced by what stands before the comment introducer,
/// trimmed; the marker itself is discarded with the comment.
pub open spec fn marker_cleaned_spec(line: Seq<char>) -> Seq<char> {
    if has_marker_spec(line) {
        trim_spec(before_first_spec(line, comment_marker()))
    } else {
        line
    }
}

/// The whole line sequence after marker extraction: same length and order,
/// marked lines cleaned, others untouched.
pub open spec fn strip_markers_spec(lines: Seq<Seq<char>>) -> Seq<Seq<char>> {
    Seq::new(lines.len(), |i: int| marker_cleaned_spec(lines[i]))
}

/// Decides whether the require occurrence on `line` is commented out: true
/// exactly when a `--` appears strictly before the require token.
pub fn require_function_commented(line: String, require_function: String) -> (r: bool)
    ensures
        r == commented_spec(line@, require_function@),
{
    let comment_position = find_sub(line.as_str(), "--");
    let loadmodule_position = find_sub(line.as_str(), require_function.as_str());
    match (comment_position, loadmodule_position) {
        (Some(c), Some(t)) => c < t,
        _ => false,
    }
}

/// Scans the cleaned lines for annotation markers. Returns the macros found,
/// keyed by line index, and the revised lines: a marked line keeps only what
/// stands before its comment introducer, trimmed; every other line passes
/// through unchanged. Line count and order are preserved.
pub fn get_macros(lines: &Vec<String>) -> (r: (HashMap<usize, Vec<Macro>>, Vec<String>))
    ensures
        r.1.deep_view() == strip_markers_spec(lines.deep_view()),
        forall|k: usize|
            k < lines@.len() ==> (#[trigger] r.0@.contains_key(k) == has_marker_spec(
                lines.deep_view()[k as int],
            )),
        forall|k: usize| #[trigger]
            r.0@.contains_key(k) ==> k < lines@.len() && r.0@[k]@ == seq![Macro::AbsPath],
{
    let mut macro_lines: HashMap<usize, Vec<Macro>> = HashMap::new();
    let mut new_lines: Vec<String> = Vec::new();
    let n = lines.len();
    let mut i: usize = 0;
    while i < n
        invariant
            0 <= i <= n,
            n == lines@.len(),
            new_lines.deep_view() =~= strip_markers_spec(lines.deep_view().take(i as int)),
            forall|k: usize|
                k < i ==> (#[trigger] macro_lines@.contains_key(k) == has_marker_spec(
                    lines.deep_view()[k as int],
                )),
            forall|k: usize| #[trigger]
                macro_lines@.contains_key(k) ==> k < i && macro_lines@[k]@ == seq![Macro::AbsPath],
        decreases n - i,
    {
        let ghost prev = new_lines.deep_view();
        let line = &lines[i];
        if contains_sub(line.as_str(), "[abs_path]") {
            let mut macros: Vec<Macro> = Vec::new();
            macros.push(Macro::AbsPath);
            proof {
                assert(macros@ =~= seq![Macro::AbsPath]);
            }
            macro_lines.insert(i, macros);
            let without_comment = before_first(line.as_str(), "--");
            new_lines.push(trim(without_comment.as_str()));
        } else {
            new_lines.push(line.clone());
        }
        proof {
            assert(lines.deep_view()[i as int] == lines@[i as int]@);
            assert(new_lines.deep_view() =~= prev.push(
                marker_cleaned_spec(lines.deep_view()[i as int]),
            ));
            assert(new_lines.deep_view() =~= strip_markers_spec(
                lines.deep_view().take(i + 1),
            ));
        }
        i = i + 1;
    }
    proof {
        assert(lines.deep_view().take(n as int) =~= lines.deep_view());
    }
    (macro_lines, new_lines)
}

} // verus!
