//! The require-resolution and inlining engine: call-argument parsing, path
//! resolution under the relative / absolute-path policy, the recursive
//! inliner, and the bundle assembler.
//!
//! Paths are modelled as `/`-separated strings relative to the project
//! root, and the filesystem as a list of [`SourceFile`]s; the caller reads
//! the real files and hands them in. The project root itself is the empty
//! path, so the entry file's path names it directly.

use vstd::prelude::*;
use vstd::seq_lib::*;
use vstd::set_lib::lemma_len_subset;

use crate::text::{
    after_first, after_first_spec, before_first, before_first_spec, contains_sub,
    contains_sub_spec,
    find_sub_spec, first_char_is, is_path_delim, is_sigil, join, join_spec, last_char_is,
    lemma_find_sub, replace_all, replace_all_spec, replace_first, replace_first_spec, split,
    split_spec, strip_leading_sigils, trim, trim_by, trim_path_delims, trim_spec, trim_start_by,
};
use crate::utils::{
    commented_spec, get_macros, has_marker_spec, marker_cleaned_spec, require_function_commented,
    strip_markers_spec, Macro,
};

verus! {

/// One source file: its path relative to the project root, with `/` as the
/// separator, and its raw text.
pub struct SourceFile {
    pub path: String,
    pub text: String,
}

/// Why a bundling run aborted. Every failure is fatal: no partial bundle is
/// ever produced.
#[derive(Debug)]
pub enum BundleError {
    /// The entry file is not among the given files.
    EntryNotFound { path: String },
    /// A require call resolved to a path that names no given file.
    ModuleNotFound { path: String },
    /// An uncommented require token without a parsable `token(...)` call on
    /// the same line (the offending file and line are carried along).
    MalformedRequire { path: String, line: String },
    /// A require chain returned to a file still being inlined.
    CyclicRequire { path: String },
}

/// The spec-level image of a [`BundleError`].
pub ghost enum ErrSpec {
    EntryNotFound(Seq<char>),
    ModuleNotFound(Seq<char>),
    MalformedRequire(Seq<char>, Seq<char>),
    CyclicRequire(Seq<char>),
}

impl View for BundleError {
    type V = ErrSpec;

    open spec fn view(&self) -> ErrSpec {
        match self {
            BundleError::EntryNotFound { path } => ErrSpec::EntryNotFound(path@),
            BundleError::ModuleNotFound { path } => ErrSpec::ModuleNotFound(path@),
            BundleError::MalformedRequire { path, line } => ErrSpec::MalformedRequire(
                path@,
                line@,
            ),
            BundleError::CyclicRequire { path } => ErrSpec::CyclicRequire(path@),
        }
    }
}

/// The spec-level image of a bundling result.
pub open spec fn result_view(r: Result<String, BundleError>) -> Result<Seq<char>, ErrSpec> {
    match r {
        Ok(s) => Ok(s@),
        Err(e) => Err(e@),
    }
}

/// The index of the last `/` in `p`, if any.
pub open spec fn rfind_slash_spec(p: Seq<char>) -> Option<int>
    decreases p.len(),
{
    if p.len() == 0 {
        None
    } else if p.last() == '/' {
        Some(p.len() - 1)
    } else {
        rfind_slash_spec(p.drop_last())
    }
}

/// The directory containing `p`: everything before the last `/`, or the
/// project root (the empty path) if `p` has no directory part.
pub open spec fn parent_dir_spec(p: Seq<char>) -> Seq<char> {
    match rfind_slash_spec(p) {
        None => Seq::empty(),
        Some(i) => p.take(i),
    }
}

/// The file name of `p`: everything after the last `/`, or all of `p`.
pub open spec fn file_name_spec(p: Seq<char>) -> Seq<char> {
    match rfind_slash_spec(p) {
        None => p,
        Some(i) => p.skip(i + 1),
    }
}

/// `rel` resolved against the directory `base`; the empty base is the
/// project root itself.
pub open spec fn join_path_spec(base: Seq<char>, rel: Seq<char>) -> Seq<char> {
    if base.len() == 0 {
        rel
    } else {
        base + seq!['/'] + rel
    }
}

/// Finds the index of the last `/` in `p`, if any.
fn rfind_slash(p: &str) -> (r: Option<usize>)
    ensures
        match r {
            Some(i) => rfind_slash_spec(p@) == Some(i as int),
            None => rfind_slash_spec(p@) is None,
        },
{
    let len = p.unicode_len();
    let mut j: usize = len;
    proof {
        assert(p@.take(len as int) =~= p@);
    }
    while j > 0
        invariant
            0 <= j <= len,
            len == p@.len(),
            rfind_slash_spec(p@) == rfind_slash_spec(p@.take(j as int)),
        decreases j,
    {
        if p.get_char(j - 1) == '/' {
            proof {
                assert(p@.take(j as int).last() == p@[j - 1]);
            }
            return Some(j - 1);
        }
        proof {
            assert(p@.take(j as int).drop_last() =~= p@.take(j - 1));
        }
        j = j - 1;
    }
    proof {
        assert(p@.take(0) =~= Seq::<char>::empty());
    }
    None
}

/// The directory containing `input_file`, as a project-relative path; the
/// empty path stands for the project root.
pub fn get_relative_folder(input_file: &String) -> (r: String)
    ensures
        r@ == parent_dir_spec(input_file@),
{
    match rfind_slash(input_file.as_str()) {
        None => String::new(),
        Some(i) => {
            proof {
                lemma_rfind_slash_bounds(input_file@);
                assert(input_file@.subrange(0, i as int) == input_file@.take(i as int));
            }
            input_file.as_str().substring_char(0, i).to_owned()
        },
    }
}

/// The file name of `input_file`: its last path component.
pub fn get_file_name(input_file: &String) -> (r: String)
    ensures
        r@ == file_name_spec(input_file@),
{
    match rfind_slash(input_file.as_str()) {
        None => input_file.clone(),
        Some(i) => {
            proof {
                lemma_rfind_slash_bounds(input_file@);
            }
            let len = input_file.as_str().unicode_len();
            input_file.as_str().substring_char(i + 1, len).to_owned()
        },
    }
}

/// What `rfind_slash_spec` returns is an index into `p`.
proof fn lemma_rfind_slash_bounds(p: Seq<char>)
    ensures
        match rfind_slash_spec(p) {
            Some(i) => 0 <= i < p.len() && p[i] == '/',
            None => true,
        },
    decreases p.len(),
{
    if p.len() > 0 && p.last() != '/' {
        lemma_rfind_slash_bounds(p.drop_last());
    }
}

/// Joins `rel` onto the directory `base`.
pub fn join_path(base: &String, rel: &String) -> (r: String)
    ensures
        r@ == join_path_spec(base@, rel@),
{
    if base.as_str().unicode_len() == 0 {
        rel.clone()
    } else {
        let mut out = base.clone();
        out.append("/");
        out.append(rel.as_str());
        proof {
            reveal_strlit("/");
            assert("/"@ =~= seq!['/']);
        }
        out
    }
}

/// The text of the first file whose path is `p`, if any.
pub open spec fn lookup_spec(files: Seq<SourceFile>, p: Seq<char>) -> Option<Seq<char>>
    decreases files.len(),
{
    if files.len() == 0 {
        None
    } else if files[0].path@ == p {
        Some(files[0].text@)
    } else {
        lookup_spec(files.drop_first(), p)
    }
}

/// Finds the text of the first file whose path is `p`.
pub fn lookup(files: &Vec<SourceFile>, p: &String) -> (r: Option<String>)
    ensures
        match r {
            Some(t) => lookup_spec(files@, p@) == Some(t@),
            None => lookup_spec(files@, p@) is None,
        },
{
    let n = files.len();
    let mut i: usize = 0;
    proof {
        assert(files@.skip(0) =~= files@);
    }
    while i < n
        invariant
            0 <= i <= n,
            n == files@.len(),
            lookup_spec(files@, p@) == lookup_spec(files@.skip(i as int), p@),
        decreases n - i,
    {
        if files[i].path.eq(p) {
            proof {
                assert(files@.skip(i as int)[0] == files@[i as int]);
            }
            return Some(files[i].text.clone());
        }
        proof {
            assert(files@.skip(i as int).drop_first() =~= files@.skip(i + 1));
        }
        i = i + 1;
    }
    proof {
        assert(files@.skip(n as int) =~= Seq::<SourceFile>::empty());
    }
    None
}

/// A found path occurs among the file paths.
proof fn lemma_lookup_some_in_paths(files: Seq<SourceFile>, p: Seq<char>)
    requires
        lookup_spec(files, p) is Some,
    ensures
        files.map_values(|f: SourceFile| f.path@).to_set().contains(p),
    decreases files.len(),
{
    let paths = files.map_values(|f: SourceFile| f.path@);
    if files[0].path@ == p {
        assert(paths[0] == p);
    } else {
        lemma_lookup_some_in_paths(files.drop_first(), p);
        assert(files.drop_first().map_values(|f: SourceFile| f.path@) =~= paths.drop_first());
        let i = choose|i: int|
            0 <= i < paths.drop_first().len() && paths.drop_first()[i] == p;
        assert(paths[i + 1] == p);
    }
}

/// The template token replaced by the containing file's name.
pub open spec fn template_token() -> Seq<char> {
    "{{filename}}"@
}

/// The call opener: the require token immediately followed by `(`.
pub open spec fn token_paren_spec(token: Seq<char>) -> Seq<char> {
    token + "("@
}

/// The closing delimiter of a call's argument text.
pub open spec fn close_paren() -> Seq<char> {
    ")"@
}

/// The full argument text of the first require call on `line`: what stands
/// between the call opener and the next `)`.
pub open spec fn require_content_spec(line: Seq<char>, token: Seq<char>) -> Seq<char> {
    before_first_spec(after_first_spec(line, token_paren_spec(token)), close_paren())
}

/// The forwarded-argument text: every comma-separated field of the argument
/// text after the first, rejoined exactly as written.
pub open spec fn args_spec(content: Seq<char>) -> Seq<char> {
    join_spec(split_spec(content, ","@).drop_first(), ","@)
}

/// The first comma-separated field of the argument text, stripped of
/// surrounding quote characters and comma noise: the module-path literal,
/// still carrying its sigil if one was written.
pub open spec fn literal_field_spec(content: Seq<char>) -> Seq<char> {
    trim_by(split_spec(content, ","@)[0], |c: char| is_path_delim(c))
}

/// The path literal begins with the absolute-path sigil.
pub open spec fn has_sigil_spec(field: Seq<char>) -> bool {
    field.len() > 0 && field[0] == '@'
}

/// The path literal with its leading sigils stripped.
pub open spec fn module_literal_spec(field: Seq<char>) -> Seq<char> {
    trim_start_by(field, |c: char| is_sigil(c))
}

/// The path a call's argument text resolves to: against the project root
/// when the sigil or the line's absolute-path macro says so, else against
/// the referencing file's directory.
pub open spec fn resolved_path_spec(
    root: Seq<char>,
    path: Seq<char>,
    content: Seq<char>,
    marker: bool,
) -> Seq<char> {
    let field = literal_field_spec(content);
    let base = if has_sigil_spec(field) || marker {
        root
    } else {
        parent_dir_spec(path)
    };
    join_path_spec(base, module_literal_spec(field))
}

/// Extracts the full argument text of the require call on `line`: the text
/// between the call opener and the first `)` after it.
pub fn get_require_content(line: &String, require_function: &String) -> (r: String)
    requires
        contains_sub_spec(line@, token_paren_spec(require_function@)),
    ensures
        r@ == require_content_spec(line@, require_function@),
{
    let mut require_split = require_function.clone();
    require_split.append("(");
    let after = after_first(line.as_str(), require_split.as_str());
    before_first(after.as_str(), ")")
}

/// Extracts the forwarded-argument text of a call: every comma-separated
/// field of the argument text after the first, rejoined with commas.
pub fn get_require_arguments(require_content: &String) -> (r: String)
    ensures
        r@ == args_spec(require_content@),
{
    let mut arguments = split(require_content.as_str(), ",");
    let ghost whole = arguments.deep_view();
    proof {
        crate::text::lemma_split_len(require_content@, ","@);
    }
    arguments.remove(0);
    proof {
        assert(arguments.deep_view() =~= whole.drop_first());
    }
    join(&arguments, ",")
}

/// Whether a line's recorded macro set carries the absolute-path macro.
fn macros_has_abs(v: &Vec<Macro>) -> (r: bool)
    ensures
        r == v@.contains(Macro::AbsPath),
{
    let n = v.len();
    let mut j: usize = 0;
    while j < n
        invariant
            0 <= j <= n,
            n == v@.len(),
            forall|k: int| 0 <= k < j ==> v@[k] != Macro::AbsPath,
        decreases n - j,
    {
        if v[j] == Macro::AbsPath {
            return true;
        }
        j = j + 1;
    }
    false
}

/// Whether `s` occurs among the strings of `v`.
fn contains_string(v: &Vec<String>, s: &String) -> (r: bool)
    ensures
        r == v.deep_view().contains(s@),
{
    let n = v.len();
    let mut j: usize = 0;
    while j < n
        invariant
            0 <= j <= n,
            n == v@.len(),
            forall|k: int| 0 <= k < j ==> v.deep_view()[k] != s@,
        decreases n - j,
    {
        if v[j].eq(s) {
            proof {
                assert(v.deep_view()[j as int] == s@);
            }
            return true;
        }
        j = j + 1;
    }
    false
}

/// An element-for-element copy of a string vector.
fn clone_strings(v: &Vec<String>) -> (r: Vec<String>)
    ensures
        r.deep_view() == v.deep_view(),
        r@.len() == v@.len(),
{
    let n = v.len();
    let mut r: Vec<String> = Vec::new();
    let mut j: usize = 0;
    while j < n
        invariant
            0 <= j <= n,
            n == v@.len(),
            r@.len() == j,
            r.deep_view() =~= v.deep_view().take(j as int),
        decreases n - j,
    {
        let ghost prev = r.deep_view();
        r.push(v[j].clone());
        proof {
            assert(r.deep_view() =~= prev.push(v.deep_view()[j as int]));
            assert(r.deep_view() =~= v.deep_view().take(j + 1));
        }
        j = j + 1;
    }
    proof {
        assert(v.deep_view().take(n as int) =~= v.deep_view());
    }
    r
}

/// A duplicate-free sequence of paths that all name given files cannot hold
/// more entries than there are files.
pub proof fn lemma_stack_bounded(files: Seq<SourceFile>, stack: Seq<Seq<char>>)
    requires
        stack.no_duplicates(),
        forall|k: int| 0 <= k < stack.len() ==> lookup_spec(files, #[trigger] stack[k]) is Some,
    ensures
        stack.len() <= files.len(),
{
    let paths = files.map_values(|f: SourceFile| f.path@);
    stack.unique_seq_to_set();
    paths.lemma_cardinality_of_set();
    assert forall|p: Seq<char>| stack.to_set().contains(p) implies paths.to_set().contains(
        p,
    ) by {
        let k = choose|k: int| 0 <= k < stack.len() && stack[k] == p;
        lemma_lookup_some_in_paths(files, p);
    }
    assert(stack.to_set().subset_of(paths.to_set()));
    seq_to_set_is_finite::<Seq<char>>(paths);
    seq_to_set_is_finite::<Seq<char>>(stack);
    lemma_len_subset(stack.to_set(), paths.to_set());
}

/// The newline separator between logical lines.
pub open spec fn newline() -> Seq<char> {
    "\n"@
}

/// The comment banner placed at the head of every bundle.
pub open spec fn banner() -> Seq<char> {
    "-- Bundled with LuaBundle\n\n"@
}

/// The opener of the anonymous-function wrapper around an inlined module.
pub open spec fn func_open() -> Seq<char> {
    "(function(...) "@
}

/// The closer of the anonymous-function wrapper.
pub open spec fn func_close() -> Seq<char> {
    " end)"@
}

/// The stretch that may force a defensive statement separator: `=`.
pub open spec fn eq_mark() -> Seq<char> {
    "="@
}

/// Raw lines cleaned: each trimmed of surrounding whitespace, those empty
/// after trimming dropped, order kept.
pub open spec fn clean_lines_spec(ls: Seq<Seq<char>>) -> Seq<Seq<char>>
    decreases ls.len(),
{
    if ls.len() == 0 {
        Seq::empty()
    } else {
        let t = trim_spec(ls[0]);
        if t.len() == 0 {
            clean_lines_spec(ls.drop_first())
        } else {
            seq![t] + clean_lines_spec(ls.drop_first())
        }
    }
}

/// The cleaned, indexed line sequence of a file's raw text: template token
/// replaced by the file's name, split on newlines, trimmed, blanks dropped.
pub open spec fn preprocess_spec(raw: Seq<char>, path: Seq<char>) -> Seq<Seq<char>> {
    clean_lines_spec(split_spec(replace_all_spec(raw, template_token(), file_name_spec(path)), newline()))
}

/// The last cleaned line before index `i` ends with `)`; decides whether a
/// replacement on line `i` needs a leading statement separator.
pub open spec fn ends_paren_spec(s: Seq<char>) -> bool {
    s.len() > 0 && s.last() == ')'
}

/// The exact call-expression text on the line: the require token, the
/// opening parenthesis, the full original argument text, and the closer.
pub open spec fn call_text_spec(token: Seq<char>, content: Seq<char>) -> Seq<char> {
    token + "("@ + content + ")"@
}

/// The text spliced in for a resolved call: an anonymous variadic function
/// holding the inlined body, immediately invoked with the forwarded
/// arguments, preceded by a separator where one is owed.
pub open spec fn replacement_spec(semi: bool, body: Seq<char>, args: Seq<char>) -> Seq<char> {
    (if semi {
        ";"@
    } else {
        Seq::<char>::empty()
    }) + func_open() + body + func_close() + "("@ + args + ")"@
}

/// What becomes of cleaned line `i` of file `path`. A line without an
/// uncommented require call passes through; a resolvable call is spliced
/// over with the wrapped, recursively inlined target; anything else is a
/// fatal error.
pub open spec fn line_step_spec(
    files: Seq<SourceFile>,
    root: Seq<char>,
    path: Seq<char>,
    token: Seq<char>,
    stack: Seq<Seq<char>>,
    cls: Seq<Seq<char>>,
    i: int,
    d: nat,
) -> Result<Seq<char>, ErrSpec>
    decreases d, 0nat, 0nat,
{
    let cl = cls[i];
    let line = marker_cleaned_spec(cl);
    if !contains_sub_spec(line, token) {
        Ok(line)
    } else if commented_spec(line, token) {
        Ok(line)
    } else if !contains_sub_spec(line, token_paren_spec(token)) {
        Err(ErrSpec::MalformedRequire(path, line))
    } else {
        let after = after_first_spec(line, token_paren_spec(token));
        if !contains_sub_spec(after, close_paren()) {
            Err(ErrSpec::MalformedRequire(path, line))
        } else {
            let content = before_first_spec(after, close_paren());
            let args = args_spec(content);
            let resolved = resolved_path_spec(root, path, content, has_marker_spec(cl));
            match lookup_spec(files, resolved) {
                None => Err(ErrSpec::ModuleNotFound(resolved)),
                Some(_) => {
                    if resolved == path || stack.contains(resolved) || d == 0 {
                        Err(ErrSpec::CyclicRequire(resolved))
                    } else {
                        match parse_spec(files, root, resolved, token, stack.push(path), (d - 1) as nat) {
                            Err(e) => Err(e),
                            Ok(body) => {
                                let semi = i > 0 && ends_paren_spec(marker_cleaned_spec(cls[i - 1]))
                                    && !contains_sub_spec(line, eq_mark());
                                Ok(replace_first_spec(
                                    line,
                                    call_text_spec(token, content),
                                    replacement_spec(semi, body, args),
                                ))
                            },
                        }
                    }
                },
            }
        }
    }
}

/// The processed forms of cleaned lines `i..` of file `path`, or the first
/// fatal error among them.
pub open spec fn process_lines_spec(
    files: Seq<SourceFile>,
    root: Seq<char>,
    path: Seq<char>,
    token: Seq<char>,
    stack: Seq<Seq<char>>,
    cls: Seq<Seq<char>>,
    i: int,
    d: nat,
) -> Result<Seq<Seq<char>>, ErrSpec>
    decreases d, 0nat, cls.len() - i + 1,
{
    if i < 0 || i >= cls.len() {
        Ok(Seq::empty())
    } else {
        match line_step_spec(files, root, path, token, stack, cls, i, d) {
            Err(e) => Err(e),
            Ok(l) => match process_lines_spec(files, root, path, token, stack, cls, i + 1, d) {
                Err(e) => Err(e),
                Ok(rest) => Ok(seq![l] + rest),
            },
        }
    }
}

/// The fully inlined text of the file at `path`: its cleaned lines, each
/// processed, joined with newlines; or the first fatal error. `stack` holds
/// the chain of files whose inlining is in progress, `d` bounds the
/// remaining recursion depth.
pub open spec fn parse_spec(
    files: Seq<SourceFile>,
    root: Seq<char>,
    path: Seq<char>,
    token: Seq<char>,
    stack: Seq<Seq<char>>,
    d: nat,
) -> Result<Seq<char>, ErrSpec>
    decreases d, 1nat, 0nat,
{
    match lookup_spec(files, path) {
        None => Err(ErrSpec::ModuleNotFound(path)),
        Some(raw) => {
            let cls = preprocess_spec(raw, path);
            match process_lines_spec(files, root, path, token, stack, cls, 0, d) {
                Err(e) => Err(e),
                Ok(outs) => Ok(join_spec(outs, newline())),
            }
        },
    }
}

/// A fatal step while processing a line is the fate of the whole tail.
proof fn lemma_line_err(
    files: Seq<SourceFile>,
    root: Seq<char>,
    path: Seq<char>,
    token: Seq<char>,
    stack: Seq<Seq<char>>,
    cls: Seq<Seq<char>>,
    i: int,
    d: nat,
    e: ErrSpec,
)
    requires
        0 <= i < cls.len(),
        line_step_spec(files, root, path, token, stack, cls, i, d) == Err::<Seq<char>, ErrSpec>(e),
    ensures
        process_lines_spec(files, root, path, token, stack, cls, i, d) == Err::<
            Seq<Seq<char>>,
            ErrSpec,
        >(e),
{
}

/// `parse_spec` is line processing over the preprocessed lines, joined.
proof fn lemma_parse_unfold(
    files: Seq<SourceFile>,
    root: Seq<char>,
    path: Seq<char>,
    token: Seq<char>,
    stack: Seq<Seq<char>>,
    raw: Seq<char>,
    d: nat,
)
    requires
        lookup_spec(files, path) == Some(raw),
    ensures
        parse_spec(files, root, path, token, stack, d) == (match process_lines_spec(
            files,
            root,
            path,
            token,
            stack,
            preprocess_spec(raw, path),
            0,
            d,
        ) {
            Ok(outs) => Ok::<Seq<char>, ErrSpec>(join_spec(outs, newline())),
            Err(e) => Err::<Seq<char>, ErrSpec>(e),
        }),
{
}

/// Inlines the file at `input_file`, recursing into each require target it
/// resolves. `stack` holds the files whose inlining is in progress further
/// up the chain; a require that returns into it is a fatal cycle.
pub fn parse(
    files: &Vec<SourceFile>,
    root_path: &String,
    input_file: &String,
    require_function: &String,
    stack: &Vec<String>,
) -> (r: Result<String, BundleError>)
    requires
        lookup_spec(files@, input_file@) is Some,
        stack.deep_view().no_duplicates(),
        !stack.deep_view().contains(input_file@),
        forall|k: int|
            0 <= k < stack.deep_view().len() ==> lookup_spec(
                files@,
                #[trigger] stack.deep_view()[k],
            ) is Some,
    ensures
        result_view(r) == parse_spec(
            files@,
            root_path@,
            input_file@,
            require_function@,
            stack.deep_view(),
            (files@.len() - stack@.len()) as nat,
        ),
    decreases files@.len() - stack@.len(),
{
    broadcast use vstd::std_specs::hash::group_hash_axioms;

    let ghost stack_dv = stack.deep_view();
    proof {
        assert(stack_dv.push(input_file@).no_duplicates());
        assert forall|k: int|
            0 <= k < stack_dv.push(input_file@).len() implies lookup_spec(
            files@,
            #[trigger] stack_dv.push(input_file@)[k],
        ) is Some by {
            if k == stack_dv.len() {
                assert(stack_dv.push(input_file@)[k] == input_file@);
            }
        }
        lemma_stack_bounded(files@, stack_dv.push(input_file@));
    }
    let ghost d = (files@.len() - stack@.len()) as nat;

    let file_name = get_file_name(input_file);
    let raw = lookup(files, input_file).unwrap();
    proof {
        reveal_strlit("{{filename}}");
    }
    let text = replace_all(raw.as_str(), "{{filename}}", file_name.as_str());

    let raw_lines = split(text.as_str(), "\n");
    let mut lines: Vec<String> = Vec::new();
    let nraw = raw_lines.len();
    let mut i: usize = 0;
    proof {
        assert(raw_lines.deep_view().skip(0) =~= raw_lines.deep_view());
    }
    while i < nraw
        invariant
            0 <= i <= nraw,
            nraw == raw_lines@.len(),
            clean_lines_spec(raw_lines.deep_view()) =~= lines.deep_view() + clean_lines_spec(
                raw_lines.deep_view().skip(i as int),
            ),
        decreases nraw - i,
    {
        let ghost pre = lines.deep_view();
        let t = trim(raw_lines[i].as_str());
        let keep = t.as_str().unicode_len() > 0;
        if keep {
            lines.push(t);
        }
        proof {
            let suf = raw_lines.deep_view().skip(i as int);
            assert(suf[0] == raw_lines.deep_view()[i as int]);
            assert(raw_lines.deep_view()[i as int] == raw_lines@[i as int]@);
            assert(suf.drop_first() =~= raw_lines.deep_view().skip(i + 1));
            if keep {
                assert(lines.deep_view() =~= pre.push(trim_spec(raw_lines@[i as int]@)));
            }
            assert(clean_lines_spec(raw_lines.deep_view()) =~= lines.deep_view()
                + clean_lines_spec(raw_lines.deep_view().skip(i + 1)));
        }
        i = i + 1;
    }
    proof {
        assert(raw_lines.deep_view().skip(nraw as int) =~= Seq::<Seq<char>>::empty());
    }
    let ghost cls = preprocess_spec(raw@, input_file@);
    proof {
        assert(cls =~= lines.deep_view());
        assert(cls == lines.deep_view());
    }

    let pair = get_macros(&lines);
    let macros = pair.0;
    let plines = pair.1;

    let mut out_lines: Vec<String> = Vec::new();
    let m = plines.len();
    proof {
        assert(plines.deep_view().len() == plines@.len());
        assert(strip_markers_spec(cls).len() == cls.len());
        match process_lines_spec(
            files@,
            root_path@,
            input_file@,
            require_function@,
            stack_dv,
            cls,
            0,
            d,
        ) {
            Ok(rest) => {
                assert(out_lines.deep_view() + rest =~= rest);
            },
            Err(e) => {},
        }
    }
    let mut i: usize = 0;
    while i < m
        invariant
            0 <= i <= m,
            m == cls.len(),
            cls == lines.deep_view(),
            plines.deep_view() == strip_markers_spec(cls),
            plines@.len() == cls.len(),
            stack_dv == stack.deep_view(),
            d == (files@.len() - stack@.len()) as nat,
            d >= 1,
            files@.len() - stack@.len() >= 1,
            lookup_spec(files@, input_file@) == Some(raw@),
            cls == preprocess_spec(raw@, input_file@),
            stack_dv.no_duplicates(),
            !stack_dv.contains(input_file@),
            forall|k: int|
                0 <= k < stack_dv.len() ==> lookup_spec(files@, #[trigger] stack_dv[k]) is Some,
            forall|k: usize|
                k < lines@.len() ==> (#[trigger] macros@.contains_key(k) == has_marker_spec(
                    cls[k as int],
                )),
            forall|k: usize| #[trigger]
                macros@.contains_key(k) ==> macros@[k]@ == seq![Macro::AbsPath],
            (process_lines_spec(
                files@,
                root_path@,
                input_file@,
                require_function@,
                stack_dv,
                cls,
                0,
                d,
            ) == (match process_lines_spec(
                files@,
                root_path@,
                input_file@,
                require_function@,
                stack_dv,
                cls,
                i as int,
                d,
            ) {
                Ok(rest) => Ok::<Seq<Seq<char>>, ErrSpec>(out_lines.deep_view() + rest),
                Err(e) => Err(e),
            })),
        decreases m - i,
    {
        let ghost prev_out = out_lines.deep_view();
        let ghost lstep = line_step_spec(
            files@,
            root_path@,
            input_file@,
            require_function@,
            stack_dv,
            cls,
            i as int,
            d,
        );
        let line: &String = &plines[i];
        proof {
            assert(plines.deep_view()[i as int] == plines@[i as int]@);
            assert(line@ == marker_cleaned_spec(cls[i as int]));
        }
        if !contains_sub(line.as_str(), require_function.as_str()) {
            out_lines.push(line.clone());
            proof {
                assert(lstep == Ok::<Seq<char>, ErrSpec>(line@));
                assert(out_lines.deep_view() =~= prev_out.push(line@));
            }
        } else if require_function_commented(line.clone(), require_function.clone()) {
            out_lines.push(line.clone());
            proof {
                assert(lstep == Ok::<Seq<char>, ErrSpec>(line@));
                assert(out_lines.deep_view() =~= prev_out.push(line@));
            }
        } else {
            let mut require_split = require_function.clone();
            require_split.append("(");
            if !contains_sub(line.as_str(), require_split.as_str()) {
                let e = BundleError::MalformedRequire {
                    path: input_file.clone(),
                    line: line.clone(),
                };
                proof {
                    assert(lstep == Err::<Seq<char>, ErrSpec>(e@));
                    lemma_line_err(
                        files@,
                        root_path@,
                        input_file@,
                        require_function@,
                        stack_dv,
                        cls,
                        i as int,
                        d,
                        e@,
                    );
                    lemma_parse_unfold(
                        files@,
                        root_path@,
                        input_file@,
                        require_function@,
                        stack_dv,
                        raw@,
                        d,
                    );
                }
                return Err(e);
            }
            let after = after_first(line.as_str(), require_split.as_str());
            if !contains_sub(after.as_str(), ")") {
                let e = BundleError::MalformedRequire {
                    path: input_file.clone(),
                    line: line.clone(),
                };
                proof {
                    assert(lstep == Err::<Seq<char>, ErrSpec>(e@));
                    lemma_line_err(
                        files@,
                        root_path@,
                        input_file@,
                        require_function@,
                        stack_dv,
                        cls,
                        i as int,
                        d,
                        e@,
                    );
                    lemma_parse_unfold(
                        files@,
                        root_path@,
                        input_file@,
                        require_function@,
                        stack_dv,
                        raw@,
                        d,
                    );
                }
                return Err(e);
            }
            let content = before_first(after.as_str(), ")");
            let arguments = get_require_arguments(&content);
            let content_parts = split(content.as_str(), ",");
            proof {
                crate::text::lemma_split_len(content@, ","@);
                assert(content_parts.deep_view()[0] == split_spec(content@, ","@)[0]);
                assert(content_parts@[0]@ == split_spec(content@, ","@)[0]);
            }
            let field = trim_path_delims(content_parts[0].as_str());
            let abs_sigil = first_char_is(field.as_str(), '@');
            let lit = strip_leading_sigils(field.as_str());
            let got = macros.get(&i);
            let is_macro_abs = match got {
                Some(v) => macros_has_abs(v),
                None => false,
            };
            proof {
                assert(vstd::std_specs::hash::obeys_key_model::<usize>());
                assert(vstd::std_specs::hash::builds_valid_hashers::<
                    std::collections::hash_map::RandomState,
                >());
                assert(cls.len() == lines@.len());
                match got {
                    Some(v) => {
                        assert(macros@.contains_key(i));
                        assert(v@ == macros@[i]@);
                        assert(seq![Macro::AbsPath][0] == Macro::AbsPath);
                        assert(macros@[i]@.contains(Macro::AbsPath));
                    },
                    None => {
                        assert(!macros@.contains_key(i));
                    },
                }
                assert(is_macro_abs == has_marker_spec(cls[i as int]));
            }
            let is_abs = abs_sigil || is_macro_abs;
            let base = if is_abs {
                root_path.clone()
            } else {
                get_relative_folder(input_file)
            };
            let require_path = join_path(&base, &lit);
            proof {
                assert(field@ == literal_field_spec(content@));
                assert(lit@ == module_literal_spec(field@));
                assert(require_path@ == resolved_path_spec(
                    root_path@,
                    input_file@,
                    content@,
                    has_marker_spec(cls[i as int]),
                ));
            }
            let found = lookup(files, &require_path);
            if found.is_none() {
                let e = BundleError::ModuleNotFound { path: require_path };
                proof {
                    assert(lstep == Err::<Seq<char>, ErrSpec>(e@));
                    lemma_line_err(
                        files@,
                        root_path@,
                        input_file@,
                        require_function@,
                        stack_dv,
                        cls,
                        i as int,
                        d,
                        e@,
                    );
                    lemma_parse_unfold(
                        files@,
                        root_path@,
                        input_file@,
                        require_function@,
                        stack_dv,
                        raw@,
                        d,
                    );
                }
                return Err(e);
            }
            if input_file.eq(&require_path) || contains_string(stack, &require_path) {
                let e = BundleError::CyclicRequire { path: require_path };
                proof {
                    assert(lstep == Err::<Seq<char>, ErrSpec>(e@));
                    lemma_line_err(
                        files@,
                        root_path@,
                        input_file@,
                        require_function@,
                        stack_dv,
                        cls,
                        i as int,
                        d,
                        e@,
                    );
                    lemma_parse_unfold(
                        files@,
                        root_path@,
                        input_file@,
                        require_function@,
                        stack_dv,
                        raw@,
                        d,
                    );
                }
                return Err(e);
            }
            let mut child_stack = clone_strings(stack);
            child_stack.push(input_file.clone());
            proof {
                assert(child_stack.deep_view() =~= stack_dv.push(input_file@));
                assert(child_stack.deep_view().no_duplicates());
                assert(!child_stack.deep_view().contains(require_path@));
                assert forall|k: int|
                    0 <= k < child_stack.deep_view().len() implies lookup_spec(
                    files@,
                    #[trigger] child_stack.deep_view()[k],
                ) is Some by {
                    if k == stack_dv.len() {
                        assert(child_stack.deep_view()[k] == input_file@);
                    } else {
                        assert(child_stack.deep_view()[k] == stack_dv[k]);
                    }
                }
                lemma_stack_bounded(files@, child_stack.deep_view().push(require_path@));
                assert(child_stack.deep_view().push(require_path@).no_duplicates());
            }
            let sub = parse(files, root_path, &require_path, require_function, &child_stack);
            let body = match sub {
                Ok(b) => b,
                Err(e) => {
                    proof {
                        assert((files@.len() - child_stack@.len()) as nat == (d - 1) as nat);
                        assert(lstep == Err::<Seq<char>, ErrSpec>(e@));
                        lemma_line_err(
                            files@,
                            root_path@,
                            input_file@,
                            require_function@,
                            stack_dv,
                            cls,
                            i as int,
                            d,
                            e@,
                        );
                        lemma_parse_unfold(
                            files@,
                            root_path@,
                            input_file@,
                            require_function@,
                            stack_dv,
                            raw@,
                            d,
                        );
                    }
                    return Err(e);
                },
            };
            let semi = if i > 0 {
                last_char_is(plines[i - 1].as_str(), ')') && !contains_sub(line.as_str(), "=")
            } else {
                false
            };
            proof {
                if i > 0 {
                    assert(plines.deep_view()[i - 1] == plines@[i - 1]@);
                    assert(plines@[i - 1]@ == marker_cleaned_spec(cls[i - 1]));
                }
            }
            let mut whole = require_function.clone();
            whole.append("(");
            whole.append(content.as_str());
            whole.append(")");
            let mut repl = String::new();
            if semi {
                repl.append(";");
            }
            repl.append("(function(...) ");
            repl.append(body.as_str());
            repl.append(" end)");
            repl.append("(");
            repl.append(arguments.as_str());
            repl.append(")");
            let spliced = replace_first(line.as_str(), whole.as_str(), repl.as_str());
            out_lines.push(spliced);
            proof {
                assert((files@.len() - child_stack@.len()) as nat == (d - 1) as nat);
                assert(whole@ =~= call_text_spec(require_function@, content@));
                assert(repl@ =~= replacement_spec(semi, body@, arguments@));
                assert(lstep == Ok::<Seq<char>, ErrSpec>(
                    replace_first_spec(
                        line@,
                        call_text_spec(require_function@, content@),
                        replacement_spec(semi, body@, arguments@),
                    ),
                ));
                assert(out_lines.deep_view() =~= prev_out.push(
                    replace_first_spec(
                        line@,
                        call_text_spec(require_function@, content@),
                        replacement_spec(semi, body@, arguments@),
                    ),
                ));
            }
        }
        proof {
            let pl_i = process_lines_spec(
                files@,
                root_path@,
                input_file@,
                require_function@,
                stack_dv,
                cls,
                i as int,
                d,
            );
            let pl_next = process_lines_spec(
                files@,
                root_path@,
                input_file@,
                require_function@,
                stack_dv,
                cls,
                i + 1,
                d,
            );
            match lstep {
                Ok(l) => {
                    assert(out_lines.deep_view() =~= prev_out.push(l));
                    match pl_next {
                        Ok(rest) => {
                            assert(pl_i == Ok::<Seq<Seq<char>>, ErrSpec>(seq![l] + rest));
                            assert(prev_out + (seq![l] + rest) =~= out_lines.deep_view() + rest);
                        },
                        Err(e) => {},
                    }
                },
                Err(e) => {},
            }
        }
        i = i + 1;
    }
    let joined = join(&out_lines, "\n");
    proof {
        assert(process_lines_spec(
            files@,
            root_path@,
            input_file@,
            require_function@,
            stack_dv,
            cls,
            m as int,
            d,
        ) == Ok::<Seq<Seq<char>>, ErrSpec>(Seq::empty()));
        assert(out_lines.deep_view() + Seq::<Seq<char>>::empty() =~= out_lines.deep_view());
        lemma_parse_unfold(
            files@,
            root_path@,
            input_file@,
            require_function@,
            stack_dv,
            raw@,
            d,
        );
    }
    Ok(joined)
}

/// The whole bundling operation: the entry file, fully inlined against the
/// project root (the empty path), behind the banner; or the fatal error
/// that aborted the run.
pub open spec fn bundle_spec(
    files: Seq<SourceFile>,
    entry: Seq<char>,
    token: Seq<char>,
) -> Result<Seq<char>, ErrSpec> {
    if lookup_spec(files, entry) is None {
        Err(ErrSpec::EntryNotFound(entry))
    } else {
        match parse_spec(files, Seq::empty(), entry, token, Seq::empty(), files.len()) {
            Err(e) => Err(e),
            Ok(text) => Ok(banner() + text),
        }
    }
}

/// Bundles the entry file against the given files: inlines its require
/// graph and prepends the banner. Fails, with no partial output, on the
/// first missing module, malformed call, or require cycle.
pub fn bundle(files: &Vec<SourceFile>, entry_file: &String, require_function: &String) -> (r:
    Result<String, BundleError>)
    ensures
        result_view(r) == bundle_spec(files@, entry_file@, require_function@),
{
    let found = lookup(files, entry_file);
    if found.is_none() {
        return Err(BundleError::EntryNotFound { path: entry_file.clone() });
    }
    let empty_root = String::new();
    let empty_stack: Vec<String> = Vec::new();
    proof {
        assert(empty_stack.deep_view() =~= Seq::<Seq<char>>::empty());
        assert(empty_stack.deep_view() == Seq::<Seq<char>>::empty());
    }
    let out = parse(files, &empty_root, entry_file, require_function, &empty_stack);
    match out {
        Err(e) => Err(e),
        Ok(text) => {
            let mut banner_text = String::new();
            banner_text.append("-- Bundled with LuaBundle\n\n");
            banner_text.append(text.as_str());
            proof {
                assert(banner_text@ =~= banner() + text@);
            }
            Ok(banner_text)
        },
    }
}

/// Bundling is deterministic: any two results that meet [`bundle`]'s
/// contract on the same files, entry and token are byte-identical — the
/// output is a function of the inputs alone, with no timestamps and no
/// nondeterministic ordering.
pub proof fn lemma_bundle_deterministic(
    files: Seq<SourceFile>,
    entry: Seq<char>,
    token: Seq<char>,
    r1: Result<String, BundleError>,
    r2: Result<String, BundleError>,
)
    requires
        result_view(r1) == bundle_spec(files, entry, token),
        result_view(r2) == bundle_spec(files, entry, token),
    ensures
        result_view(r1) == result_view(r2),
{
}

/// Lines without the require token pass through verbatim, in their original
/// positions: successful processing yields exactly one output line per
/// cleaned line, and every line on which no require token occurs comes out
/// unchanged.
pub proof fn lemma_plain_lines_verbatim(
    files: Seq<SourceFile>,
    root: Seq<char>,
    path: Seq<char>,
    token: Seq<char>,
    stack: Seq<Seq<char>>,
    cls: Seq<Seq<char>>,
    i: int,
    d: nat,
    outs: Seq<Seq<char>>,
)
    requires
        0 <= i <= cls.len(),
        process_lines_spec(files, root, path, token, stack, cls, i, d) == Ok::<
            Seq<Seq<char>>,
            ErrSpec,
        >(outs),
    ensures
        outs.len() == cls.len() - i,
        forall|k: int|
            i <= k < cls.len() && !contains_sub_spec(
                marker_cleaned_spec(cls[k]),
                token,
            ) ==> outs[k - i] == marker_cleaned_spec(cls[k]),
    decreases cls.len() - i,
{
    if i < cls.len() {
        match line_step_spec(files, root, path, token, stack, cls, i, d) {
            Err(e) => {},
            Ok(l) => {
                match process_lines_spec(files, root, path, token, stack, cls, i + 1, d) {
                    Err(e) => {},
                    Ok(rest) => {
                        lemma_plain_lines_verbatim(
                            files,
                            root,
                            path,
                            token,
                            stack,
                            cls,
                            i + 1,
                            d,
                            rest,
                        );
                        assert(outs == seq![l] + rest);
                        assert(outs[0] == l);
                        assert forall|k: int|
                            i <= k < cls.len() && !contains_sub_spec(
                                marker_cleaned_spec(cls[k]),
                                token,
                            ) implies outs[k - i] == marker_cleaned_spec(cls[k]) by {
                            if k > i {
                                assert(outs[k - i] == rest[k - (i + 1)]);
                            }
                        }
                    },
                }
            },
        }
    }
}

/// A stretch of lines on which the require token never occurs is
/// reproduced exactly: processing succeeds and returns those lines,
/// marker-cleaned but otherwise untouched, in order.
pub proof fn lemma_token_free_lines_reproduced(
    files: Seq<SourceFile>,
    root: Seq<char>,
    path: Seq<char>,
    token: Seq<char>,
    stack: Seq<Seq<char>>,
    cls: Seq<Seq<char>>,
    i: int,
    d: nat,
)
    requires
        0 <= i <= cls.len(),
        forall|k: int|
            i <= k < cls.len() ==> !contains_sub_spec(marker_cleaned_spec(#[trigger] cls[k]), token),
    ensures
        process_lines_spec(files, root, path, token, stack, cls, i, d) == Ok::<
            Seq<Seq<char>>,
            ErrSpec,
        >(strip_markers_spec(cls).skip(i)),
    decreases cls.len() - i,
{
    if i >= cls.len() {
        assert(strip_markers_spec(cls).skip(i) =~= Seq::<Seq<char>>::empty());
    } else {
        lemma_token_free_lines_reproduced(files, root, path, token, stack, cls, i + 1, d);
        assert(line_step_spec(files, root, path, token, stack, cls, i, d) == Ok::<
            Seq<char>,
            ErrSpec,
        >(marker_cleaned_spec(cls[i])));
        assert(seq![marker_cleaned_spec(cls[i])] + strip_markers_spec(cls).skip(i + 1)
            =~= strip_markers_spec(cls).skip(i));
    }
}

/// The forwarded-argument text is exactly the argument text after its first
/// comma, preserved as written: no truncation and no reordering.
pub proof fn lemma_forwarded_args_exact(content: Seq<char>)
    ensures
        match find_sub_spec(content, ","@) {
            Some(c) => args_spec(content) == content.skip(c + 1),
            None => args_spec(content) == Seq::<char>::empty(),
        },
{
    reveal_strlit(",");
    lemma_find_sub(content, ","@);
    match find_sub_spec(content, ","@) {
        None => {
            assert(split_spec(content, ","@) == seq![content]);
            assert(seq![content].drop_first() =~= Seq::<Seq<char>>::empty());
        },
        Some(c) => {
            let rest = content.skip(c + 1);
            assert(content.skip(c + ","@.len() as int) == rest);
            let parts = seq![content.take(c)] + split_spec(rest, ","@);
            assert(split_spec(content, ","@) == parts);
            assert(parts.drop_first() =~= split_spec(rest, ","@));
            crate::text::lemma_split_join_roundtrip(rest, ","@);
        },
    }
}

/// The absolute-path sigil overrides relative resolution: when the stripped
/// path literal carries the sigil, the call resolves against the project
/// root, whatever the referencing file's own directory holds.
pub proof fn lemma_abs_sigil_resolves_from_root(
    root: Seq<char>,
    path: Seq<char>,
    content: Seq<char>,
    marker: bool,
)
    requires
        has_sigil_spec(literal_field_spec(content)),
    ensures
        resolved_path_spec(root, path, content, marker) == join_path_spec(
            root,
            module_literal_spec(literal_field_spec(content)),
        ),
{
}

/// A line whose comment marker stands strictly before the require token is
/// left byte-for-byte unchanged, whatever files, stack or depth surround
/// it: the line is not resolved and nothing is recursed into.
pub proof fn lemma_commented_line_unchanged(
    files: Seq<SourceFile>,
    root: Seq<char>,
    path: Seq<char>,
    token: Seq<char>,
    stack: Seq<Seq<char>>,
    cls: Seq<Seq<char>>,
    i: int,
    d: nat,
)
    requires
        0 <= i < cls.len(),
        commented_spec(marker_cleaned_spec(cls[i]), token),
    ensures
        line_step_spec(files, root, path, token, stack, cls, i, d) == Ok::<Seq<char>, ErrSpec>(
            marker_cleaned_spec(cls[i]),
        ),
{
}

} // verus!
