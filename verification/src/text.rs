//! Character-sequence utilities: substring search, splitting, joining,
//! trimming and replacement, each with an exact specification over
//! `Seq<char>` views.

use vstd::prelude::*;

verus! {

/// The needle `n` occurs in `h` starting at position `i`.
pub open spec fn matches_at(h: Seq<char>, n: Seq<char>, i: int) -> bool {
    0 <= i && i + n.len() <= h.len() && h.subrange(i, i + n.len() as int) == n
}

/// Position of the first occurrence of `n` in `h` at or after `i`, if any.
pub open spec fn find_from(h: Seq<char>, n: Seq<char>, i: int) -> Option<int>
    decreases h.len() - i,
{
    if i < 0 || i + n.len() > h.len() {
        None
    } else if matches_at(h, n, i) {
        Some(i)
    } else if i < h.len() {
        find_from(h, n, i + 1)
    } else {
        None
    }
}

/// Position of the first occurrence of `n` in `h`, if any.
pub open spec fn find_sub_spec(h: Seq<char>, n: Seq<char>) -> Option<int> {
    find_from(h, n, 0)
}

/// `n` occurs somewhere in `h`.
pub open spec fn contains_sub_spec(h: Seq<char>, n: Seq<char>) -> bool {
    find_sub_spec(h, n) is Some
}

/// What `find_from` returns is the first match at or after `i`.
pub proof fn lemma_find_from(h: Seq<char>, n: Seq<char>, i: int)
    requires
        0 <= i <= h.len(),
    ensures
        match find_from(h, n, i) {
            Some(j) => i <= j && matches_at(h, n, j) && forall|k: int|
                i <= k < j ==> !matches_at(h, n, k),
            None => forall|k: int| i <= k ==> !matches_at(h, n, k),
        },
    decreases h.len() - i,
{
    if i + n.len() > h.len() {
        assert forall|k: int| i <= k implies !matches_at(h, n, k) by {}
    } else if matches_at(h, n, i) {
    } else if i < h.len() {
        lemma_find_from(h, n, i + 1);
    } else {
        assert(matches_at(h, n, i)) by {
            assert(h.subrange(i, i + n.len() as int) =~= n);
        }
    }
}

/// What `find_sub_spec` returns is the first match in `h`.
pub proof fn lemma_find_sub(h: Seq<char>, n: Seq<char>)
    ensures
        match find_sub_spec(h, n) {
            Some(j) => 0 <= j && matches_at(h, n, j) && forall|k: int|
                0 <= k < j ==> !matches_at(h, n, k),
            None => forall|k: int| !matches_at(h, n, k),
        },
{
    lemma_find_from(h, n, 0);
}

/// Whether `h[i..i+n.len()]` equals `n`, decided character by character.
fn eq_at(h: &str, n: &str, i: usize) -> (r: bool)
    requires
        i + n@.len() <= h@.len(),
    ensures
        r == matches_at(h@, n@, i as int),
{
    let h_len = h.unicode_len();
    let n_len = n.unicode_len();
    let mut k: usize = 0;
    while k < n_len
        invariant
            0 <= k <= n_len,
            h_len == h@.len(),
            n_len == n@.len(),
            i + n@.len() <= h@.len(),
            forall|m: int| 0 <= m < k ==> h@[i + m] == n@[m],
        decreases n_len - k,
    {
        if h.get_char(i + k) != n.get_char(k) {
            assert(h@.subrange(i as int, i + n@.len()) != n@) by {
                assert(h@.subrange(i as int, i + n@.len())[k as int] != n@[k as int]);
            }
            return false;
        }
        k = k + 1;
    }
    assert(h@.subrange(i as int, i + n@.len()) =~= n@);
    true
}

/// Position of the first occurrence of `n` in `h`, if any.
pub fn find_sub(h: &str, n: &str) -> (r: Option<usize>)
    ensures
        match r {
            Some(j) => find_sub_spec(h@, n@) == Some(j as int),
            None => find_sub_spec(h@, n@) is None,
        },
{
    let h_len = h.unicode_len();
    let n_len = n.unicode_len();
    if n_len > h_len {
        proof {
            lemma_find_sub(h@, n@);
        }
        return None;
    }
    let mut i: usize = 0;
    while i <= h_len - n_len
        invariant
            0 <= i <= h_len - n_len + 1,
            n_len <= h_len,
            h_len == h@.len(),
            n_len == n@.len(),
            find_from(h@, n@, 0) == find_from(h@, n@, i as int),
        decreases h_len - i,
    {
        if eq_at(h, n, i) {
            return Some(i);
        }
        assert(find_from(h@, n@, i as int) == find_from(h@, n@, i + 1)) by {
            if n@.len() == 0 {
                assert(h@.subrange(i as int, i as int + n@.len() as int) =~= n@);
            }
        }
        i = i + 1;
    }
    None
}

/// `n` occurs somewhere in `h`.
pub fn contains_sub(h: &str, n: &str) -> (r: bool)
    ensures
        r == contains_sub_spec(h@, n@),
{
    find_sub(h, n).is_some()
}

/// Splitting on an empty separator yields an empty field, one field per
/// character, and a final empty field.
pub open spec fn split_chars_spec(h: Seq<char>) -> Seq<Seq<char>> {
    seq![Seq::<char>::empty()] + h.map_values(|c: char| seq![c]) + seq![Seq::<char>::empty()]
}

/// The fields of `h` between occurrences of the separator `sep`, in order.
pub open spec fn split_spec(h: Seq<char>, sep: Seq<char>) -> Seq<Seq<char>>
    decreases h.len(),
        via split_spec_decreases
{
    if sep.len() == 0 {
        split_chars_spec(h)
    } else {
        match find_sub_spec(h, sep) {
            None => seq![h],
            Some(i) => seq![h.take(i)] + split_spec(h.skip(i + sep.len() as int), sep),
        }
    }
}

#[via_fn]
proof fn split_spec_decreases(h: Seq<char>, sep: Seq<char>) {
    if sep.len() > 0 {
        lemma_find_sub(h, sep);
    }
}

/// The fields joined back with `sep` between them.
pub open spec fn join_spec(parts: Seq<Seq<char>>, sep: Seq<char>) -> Seq<char>
    decreases parts.len(),
{
    if parts.len() == 0 {
        Seq::empty()
    } else if parts.len() == 1 {
        parts[0]
    } else {
        parts[0] + sep + join_spec(parts.drop_first(), sep)
    }
}

/// Splitting never yields an empty field list.
pub proof fn lemma_split_len(h: Seq<char>, sep: Seq<char>)
    ensures
        split_spec(h, sep).len() >= 1,
{
}

/// Joining what splitting produced restores the original text exactly.
pub proof fn lemma_split_join_roundtrip(h: Seq<char>, sep: Seq<char>)
    requires
        sep.len() >= 1,
    ensures
        join_spec(split_spec(h, sep), sep) == h,
    decreases h.len(),
{
    lemma_find_sub(h, sep);
    match find_sub_spec(h, sep) {
        None => {
            assert(join_spec(seq![h], sep) == h);
        },
        Some(i) => {
            let rest = h.skip(i + sep.len() as int);
            let parts = seq![h.take(i)] + split_spec(rest, sep);
            lemma_split_join_roundtrip(rest, sep);
            lemma_split_len(rest, sep);
            assert(parts.drop_first() =~= split_spec(rest, sep));
            assert(parts.len() >= 2);
            assert(join_spec(parts, sep) == h.take(i) + sep + join_spec(split_spec(rest, sep), sep));
            assert(h.take(i) + sep + rest =~= h) by {
                assert(h.subrange(i, i + sep.len() as int) == sep);
            }
        },
    }
}

/// The splitter. Fields are the stretches of `input` between occurrences of
/// `to_split`; an empty separator splits between every character.
pub fn split(input: &str, to_split: &str) -> (r: Vec<String>)
    ensures
        r.deep_view() == split_spec(input@, to_split@),
{
    let sep_len = to_split.unicode_len();
    let mut parts: Vec<String> = Vec::new();
    if sep_len == 0 {
        let in_len = input.unicode_len();
        parts.push(String::new());
        let mut i: usize = 0;
        while i < in_len
            invariant
                0 <= i <= in_len,
                in_len == input@.len(),
                parts.deep_view() =~= seq![Seq::<char>::empty()] + input@.take(i as int).map_values(
                    |c: char| seq![c],
                ),
            decreases in_len - i,
        {
            let ghost prev = parts.deep_view();
            parts.push(input.substring_char(i, i + 1).to_owned());
            proof {
                assert(parts.deep_view() =~= prev.push(input@.subrange(i as int, i + 1)));
                assert(input@.subrange(i as int, i + 1) =~= seq![input@[i as int]]);
                assert(input@.take(i + 1).map_values(|c: char| seq![c]) =~= input@.take(
                    i as int,
                ).map_values(|c: char| seq![c]).push(seq![input@[i as int]]));
            }
            i = i + 1;
        }
        let ghost prev = parts.deep_view();
        parts.push(String::new());
        proof {
            assert(parts.deep_view() =~= prev.push(Seq::<char>::empty()));
            assert(input@.take(in_len as int) =~= input@);
            assert(parts.deep_view() =~= split_chars_spec(input@));
        }
        return parts;
    }
    let mut rest: &str = input;
    loop
        invariant
            sep_len == to_split@.len(),
            sep_len >= 1,
            split_spec(input@, to_split@) =~= parts.deep_view() + split_spec(rest@, to_split@),
        decreases rest@.len(),
    {
        let ghost prev = parts.deep_view();
        match find_sub(rest, to_split) {
            Some(i) => {
                proof {
                    lemma_find_sub(rest@, to_split@);
                }
                let rest_len = rest.unicode_len();
                parts.push(rest.substring_char(0, i).to_owned());
                proof {
                    assert(parts.deep_view() =~= prev.push(rest@.subrange(0, i as int)));
                    assert(rest@.subrange(0, i as int) == rest@.take(i as int));
                }
                let ghost old_rest = rest@;
                rest = rest.substring_char(i + sep_len, rest_len);
                proof {
                    assert(rest@ == old_rest.skip(i + to_split@.len() as int));
                    assert(split_spec(input@, to_split@) =~= parts.deep_view() + split_spec(
                        rest@,
                        to_split@,
                    ));
                }
            },
            None => {
                parts.push(rest.to_owned());
                proof {
                    assert(parts.deep_view() =~= prev.push(rest@));
                    assert(split_spec(rest@, to_split@) =~= seq![rest@]);
                    assert(parts.deep_view() =~= split_spec(input@, to_split@));
                }
                return parts;
            },
        }
    }
}

/// Joins `parts[from..]` with `sep` between fields.
fn join_from(parts: &Vec<String>, sep: &str, from: usize) -> (r: String)
    requires
        from <= parts@.len(),
    ensures
        r@ == join_spec(parts.deep_view().skip(from as int), sep@),
    decreases parts@.len() - from,
{
    let len = parts.len();
    if from >= len {
        proof {
            if from as int <= parts.deep_view().len() {
                assert(parts.deep_view().skip(from as int) =~= Seq::<Seq<char>>::empty());
            }
        }
        String::new()
    } else if from == len - 1 {
        let r = parts[from].clone();
        proof {
            let s = parts.deep_view().skip(from as int);
            assert(s.len() == 1);
            assert(s[0] == parts.deep_view()[from as int]);
        }
        r
    } else {
        let tail = join_from(parts, sep, from + 1);
        let mut out = parts[from].clone();
        out.append(sep);
        out.append(tail.as_str());
        proof {
            let s = parts.deep_view().skip(from as int);
            assert(s.len() >= 2);
            assert(s[0] == parts.deep_view()[from as int]);
            assert(s.drop_first() =~= parts.deep_view().skip(from + 1));
        }
        out
    }
}

/// Joins the fields with `sep` between them.
pub fn join(parts: &Vec<String>, sep: &str) -> (r: String)
    ensures
        r@ == join_spec(parts.deep_view(), sep@),
{
    let r = join_from(parts, sep, 0);
    proof {
        assert(parts.deep_view().skip(0) =~= parts.deep_view());
    }
    r
}

/// `s` with its leading characters satisfying `p` removed.
pub open spec fn trim_start_by(s: Seq<char>, p: spec_fn(char) -> bool) -> Seq<char>
    decreases s.len(),
{
    if s.len() > 0 && p(s[0]) {
        trim_start_by(s.drop_first(), p)
    } else {
        s
    }
}

/// `s` with its trailing characters satisfying `p` removed.
pub open spec fn trim_end_by(s: Seq<char>, p: spec_fn(char) -> bool) -> Seq<char>
    decreases s.len(),
{
    if s.len() > 0 && p(s.last()) {
        trim_end_by(s.drop_last(), p)
    } else {
        s
    }
}

/// `s` with leading and trailing characters satisfying `p` removed.
pub open spec fn trim_by(s: Seq<char>, p: spec_fn(char) -> bool) -> Seq<char> {
    trim_end_by(trim_start_by(s, p), p)
}

/// If the first `a` characters satisfy `p` and the next does not, trimming
/// the start removes exactly those `a` characters.
pub proof fn lemma_trim_start_by_skip(s: Seq<char>, p: spec_fn(char) -> bool, a: int)
    requires
        0 <= a <= s.len(),
        forall|k: int| 0 <= k < a ==> p(s[k]),
        a < s.len() ==> !p(s[a]),
    ensures
        trim_start_by(s, p) == s.skip(a),
    decreases a,
{
    if a == 0 {
        assert(s.skip(0) =~= s);
    } else {
        lemma_trim_start_by_skip(s.drop_first(), p, a - 1);
        assert(s.drop_first().skip(a - 1) =~= s.skip(a));
    }
}

/// If the characters from `b` on satisfy `p` and the one before does not,
/// trimming the end keeps exactly the first `b` characters.
pub proof fn lemma_trim_end_by_take(s: Seq<char>, p: spec_fn(char) -> bool, b: int)
    requires
        0 <= b <= s.len(),
        forall|k: int| b <= k < s.len() ==> p(s[k]),
        b > 0 ==> !p(s[b - 1]),
    ensures
        trim_end_by(s, p) == s.take(b),
    decreases s.len(),
{
    if s.len() > 0 && p(s.last()) {
        lemma_trim_end_by_take(s.drop_last(), p, b);
        assert(s.drop_last().take(b) =~= s.take(b));
    } else {
        assert(s.take(b) =~= s);
    }
}

/// Whitespace for line cleaning.
pub open spec fn is_space(c: char) -> bool {
    c == ' ' || c == '\t' || c == '\r' || c == '\n'
}

/// The characters stripped from around a module-path literal: the two quote
/// styles and the comma left over from splitting the argument text.
pub open spec fn is_path_delim(c: char) -> bool {
    c == '"' || c == '\'' || c == ','
}

/// The absolute-path sigil.
pub open spec fn is_sigil(c: char) -> bool {
    c == '@'
}

/// `s` without leading and trailing whitespace.
pub open spec fn trim_spec(s: Seq<char>) -> Seq<char> {
    trim_by(s, |c: char| is_space(c))
}

fn is_space_char(c: char) -> (r: bool)
    ensures
        r == is_space(c),
{
    c == ' ' || c == '\t' || c == '\r' || c == '\n'
}

fn is_path_delim_char(c: char) -> (r: bool)
    ensures
        r == is_path_delim(c),
{
    c == '"' || c == '\'' || c == ','
}

/// Scans for the end of the leading stretch of characters satisfying the
/// whitespace predicate (`ws`) or the delimiter predicate (`!ws`).
fn scan_start(s: &str, ws: bool) -> (a: usize)
    ensures
        a <= s@.len(),
        forall|k: int| 0 <= k < a ==> (if ws {
            is_space(s@[k])
        } else {
            is_path_delim(s@[k])
        }),
        a < s@.len() ==> !(if ws {
            is_space(s@[a as int])
        } else {
            is_path_delim(s@[a as int])
        }),
{
    let len = s.unicode_len();
    let mut a: usize = 0;
    while a < len
        invariant
            0 <= a <= len,
            len == s@.len(),
            forall|k: int|
                0 <= k < a ==> (if ws {
                    is_space(s@[k])
                } else {
                    is_path_delim(s@[k])
                }),
        decreases len - a,
    {
        let c = s.get_char(a);
        let hit = if ws {
            is_space_char(c)
        } else {
            is_path_delim_char(c)
        };
        if !hit {
            return a;
        }
        a = a + 1;
    }
    a
}

/// Scans for the start of the trailing stretch, from the end down to `a`.
fn scan_end(s: &str, a: usize, ws: bool) -> (b: usize)
    requires
        a <= s@.len(),
    ensures
        a <= b <= s@.len(),
        forall|k: int| b <= k < s@.len() ==> (if ws {
            is_space(s@[k])
        } else {
            is_path_delim(s@[k])
        }),
        b > a ==> !(if ws {
            is_space(s@[b - 1])
        } else {
            is_path_delim(s@[b - 1])
        }),
{
    let len = s.unicode_len();
    let mut b: usize = len;
    while b > a
        invariant
            a <= b <= len,
            len == s@.len(),
            forall|k: int|
                b <= k < len ==> (if ws {
                    is_space(s@[k])
                } else {
                    is_path_delim(s@[k])
                }),
        decreases b,
    {
        let c = s.get_char(b - 1);
        let hit = if ws {
            is_space_char(c)
        } else {
            is_path_delim_char(c)
        };
        if !hit {
            return b;
        }
        b = b - 1;
    }
    b
}

/// `s` without leading and trailing whitespace.
pub fn trim(s: &str) -> (r: String)
    ensures
        r@ == trim_spec(s@),
{
    let a = scan_start(s, true);
    let b = scan_end(s, a, true);
    proof {
        let p = |c: char| is_space(c);
        lemma_trim_start_by_skip(s@, p, a as int);
        let t = s@.skip(a as int);
        lemma_trim_end_by_take(t, p, b - a);
        assert(t.take(b - a) =~= s@.subrange(a as int, b as int));
    }
    s.substring_char(a, b).to_owned()
}

/// `s` without leading and trailing quote and comma characters.
pub fn trim_path_delims(s: &str) -> (r: String)
    ensures
        r@ == trim_by(s@, |c: char| is_path_delim(c)),
{
    let a = scan_start(s, false);
    let b = scan_end(s, a, false);
    proof {
        let p = |c: char| is_path_delim(c);
        lemma_trim_start_by_skip(s@, p, a as int);
        let t = s@.skip(a as int);
        lemma_trim_end_by_take(t, p, b - a);
        assert(t.take(b - a) =~= s@.subrange(a as int, b as int));
    }
    s.substring_char(a, b).to_owned()
}

/// `s` without its leading absolute-path sigils.
pub fn strip_leading_sigils(s: &str) -> (r: String)
    ensures
        r@ == trim_start_by(s@, |c: char| is_sigil(c)),
{
    let len = s.unicode_len();
    let mut a: usize = 0;
    while a < len && s.get_char(a) == '@'
        invariant
            0 <= a <= len,
            len == s@.len(),
            forall|k: int| 0 <= k < a ==> is_sigil(s@[k]),
        decreases len - a,
    {
        a = a + 1;
    }
    proof {
        lemma_trim_start_by_skip(s@, |c: char| is_sigil(c), a as int);
    }
    s.substring_char(a, len).to_owned()
}

/// The first character of `s` is `c`.
pub fn first_char_is(s: &str, c: char) -> (r: bool)
    ensures
        r == (s@.len() > 0 && s@[0] == c),
{
    let len = s.unicode_len();
    len > 0 && s.get_char(0) == c
}

/// The last character of `s` is `c`.
pub fn last_char_is(s: &str, c: char) -> (r: bool)
    ensures
        r == (s@.len() > 0 && s@[s@.len() - 1] == c),
{
    let len = s.unicode_len();
    len > 0 && s.get_char(len - 1) == c
}

/// The text before the first occurrence of `n` in `h`; all of `h` if `n`
/// does not occur.
pub open spec fn before_first_spec(h: Seq<char>, n: Seq<char>) -> Seq<char> {
    match find_sub_spec(h, n) {
        None => h,
        Some(i) => h.take(i),
    }
}

/// The text after the first occurrence of `n` in `h`.
pub open spec fn after_first_spec(h: Seq<char>, n: Seq<char>) -> Seq<char>
    recommends
        contains_sub_spec(h, n),
{
    match find_sub_spec(h, n) {
        None => h,
        Some(i) => h.skip(i + n.len() as int),
    }
}

/// The text before the first occurrence of `n` in `h`.
pub fn before_first(h: &str, n: &str) -> (r: String)
    ensures
        r@ == before_first_spec(h@, n@),
{
    match find_sub(h, n) {
        None => h.to_owned(),
        Some(i) => {
            proof {
                lemma_find_sub(h@, n@);
                assert(h@.subrange(0, i as int) == h@.take(i as int));
            }
            h.substring_char(0, i).to_owned()
        },
    }
}

/// The text after the first occurrence of `n` in `h`.
pub fn after_first(h: &str, n: &str) -> (r: String)
    ensures
        r@ == after_first_spec(h@, n@),
{
    match find_sub(h, n) {
        None => h.to_owned(),
        Some(i) => {
            proof {
                lemma_find_sub(h@, n@);
            }
            let h_len = h.unicode_len();
            let n_len = n.unicode_len();
            h.substring_char(i + n_len, h_len).to_owned()
        },
    }
}

/// `h` with its first occurrence of `n` replaced by `r`; `h` itself if `n`
/// does not occur.
pub open spec fn replace_first_spec(h: Seq<char>, n: Seq<char>, r: Seq<char>) -> Seq<char> {
    match find_sub_spec(h, n) {
        None => h,
        Some(i) => h.take(i) + r + h.skip(i + n.len() as int),
    }
}

/// `h` with every occurrence of `n` replaced by `r`, scanning left to right.
pub open spec fn replace_all_spec(h: Seq<char>, n: Seq<char>, r: Seq<char>) -> Seq<char>
    decreases h.len(),
        via replace_all_decreases
{
    if n.len() == 0 {
        h
    } else {
        match find_sub_spec(h, n) {
            None => h,
            Some(i) => h.take(i) + r + replace_all_spec(h.skip(i + n.len() as int), n, r),
        }
    }
}

#[via_fn]
proof fn replace_all_decreases(h: Seq<char>, n: Seq<char>, r: Seq<char>) {
    if n.len() > 0 {
        lemma_find_sub(h, n);
    }
}

/// `h` with its first occurrence of `n` replaced by `r`.
pub fn replace_first(h: &str, n: &str, r: &str) -> (res: String)
    ensures
        res@ == replace_first_spec(h@, n@, r@),
{
    match find_sub(h, n) {
        None => h.to_owned(),
        Some(i) => {
            proof {
                lemma_find_sub(h@, n@);
            }
            let h_len = h.unicode_len();
            let n_len = n.unicode_len();
            let mut out = h.substring_char(0, i).to_owned();
            out.append(r);
            out.append(h.substring_char(i + n_len, h_len));
            proof {
                assert(h@.subrange(0, i as int) == h@.take(i as int));
            }
            out
        },
    }
}

/// `h` with every occurrence of `n` replaced by `r`.
pub fn replace_all(h: &str, n: &str, r: &str) -> (res: String)
    requires
        n@.len() >= 1,
    ensures
        res@ == replace_all_spec(h@, n@, r@),
{
    let n_len = n.unicode_len();
    let mut out = String::new();
    let mut rest: &str = h;
    loop
        invariant
            n_len == n@.len(),
            n_len >= 1,
            replace_all_spec(h@, n@, r@) == out@ + replace_all_spec(rest@, n@, r@),
        decreases rest@.len(),
    {
        match find_sub(rest, n) {
            None => {
                out.append(rest);
                return out;
            },
            Some(i) => {
                proof {
                    lemma_find_sub(rest@, n@);
                }
                let rest_len = rest.unicode_len();
                out.append(rest.substring_char(0, i));
                out.append(r);
                let ghost old_rest = rest@;
                rest = rest.substring_char(i + n_len, rest_len);
                proof {
                    assert(old_rest.subrange(0, i as int) == old_rest.take(i as int));
                    assert(rest@ == old_rest.skip(i + n@.len() as int));
                }
            },
        }
    }
}

} // verus!
