//! The dependency-list formatter: every `deps = [ ... ]` attribute in a
//! build file is rewritten into a canonical form — entries deduplicated by
//! their quoted label (first occurrence, with its trailing comment, wins),
//! sorted by ordinal comparison of the label, one entry per line at fixed
//! indentation. Text outside `deps` attributes, and `deps` occurrences inside
//! strings or `#` comments, are copied unchanged.
//!
//! An entry line is read as the original formatter's structural matcher read
//! it: an optional `#` comment is split off first, trailing commas and blanks
//! around the quoted label are dropped, and a line that holds no quoted label
//! contributes nothing. A kept comment is re-emitted two blanks after the
//! entry's comma. Blanks and tabs may sit between `deps`, `=` and `[`; the
//! list runs to the matching `]`, skipping over strings and comments.
use vstd::prelude::*;

verus! {

pub open spec fn is_ws(c: char) -> bool {
    c == ' ' || c == '\t' || c == '\r'
}

pub open spec fn is_ident_char(c: char) -> bool {
    ('a' <= c && c <= 'z') || ('A' <= c && c <= 'Z') || ('0' <= c && c <= '9') || c == '_'
}

/// First index at or after `i` holding a character that is not a blank.
pub open spec fn ws_end(s: Seq<char>, i: int) -> int
    decreases s.len() - i,
{
    if i < 0 || i >= s.len() {
        i
    } else if is_ws(s[i]) {
        ws_end(s, i + 1)
    } else {
        i
    }
}

/// First index at or after `i` holding a newline, or the end of `s`.
pub open spec fn line_end(s: Seq<char>, i: int) -> int
    decreases s.len() - i,
{
    if i < 0 || i >= s.len() {
        s.len() as int
    } else if s[i] == '\n' {
        i
    } else {
        line_end(s, i + 1)
    }
}

/// Index just past the closing quote of a string whose body starts at `i`
/// (backslash escapes skipped); the end of `s` when unterminated.
pub open spec fn str_end(s: Seq<char>, i: int) -> int
    decreases s.len() - i,
{
    if i < 0 || i >= s.len() {
        s.len() as int
    } else if s[i] == '\\' {
        if i + 1 < s.len() {
            str_end(s, i + 2)
        } else {
            s.len() as int
        }
    } else if s[i] == '"' {
        i + 1
    } else {
        str_end(s, i + 1)
    }
}

/// Index just past the `]` matching `depth` opened brackets, scanning from
/// `i`, skipping strings and comments; `None` when the list never closes.
pub open spec fn list_end(s: Seq<char>, i: int, depth: int, in_str: bool, in_cm: bool) -> Option<
    int,
>
    decreases s.len() - i,
{
    if i < 0 || i >= s.len() {
        None
    } else if in_str {
        if s[i] == '\\' && i + 1 < s.len() {
            list_end(s, i + 2, depth, true, false)
        } else if s[i] == '"' {
            list_end(s, i + 1, depth, false, false)
        } else {
            list_end(s, i + 1, depth, true, false)
        }
    } else if in_cm {
        if s[i] == '\n' {
            list_end(s, i + 1, depth, false, false)
        } else {
            list_end(s, i + 1, depth, false, true)
        }
    } else if s[i] == '"' {
        list_end(s, i + 1, depth, true, false)
    } else if s[i] == '#' {
        list_end(s, i + 1, depth, false, true)
    } else if s[i] == '[' {
        list_end(s, i + 1, depth + 1, false, false)
    } else if s[i] == ']' {
        if depth == 1 {
            Some(i + 1)
        } else {
            list_end(s, i + 1, depth - 1, false, false)
        }
    } else {
        list_end(s, i + 1, depth, false, false)
    }
}

/// A `deps = [` attribute head starting exactly at `i`: the opening bracket's
/// index and the index just past the matching `]`.
pub open spec fn deps_region_at(s: Seq<char>, i: int) -> Option<(int, int)> {
    if 0 <= i && i + 4 <= s.len() && s[i] == 'd' && s[i + 1] == 'e' && s[i + 2] == 'p' && s[i + 3]
        == 's' && (i == 0 || !is_ident_char(s[i - 1])) {
        let a = ws_end(s, i + 4);
        if a < s.len() && s[a] == '=' {
            let b = ws_end(s, a + 1);
            if b < s.len() && s[b] == '[' {
                match list_end(s, b + 1, 1, false, false) {
                    Some(e) => Some((b, e)),
                    None => None,
                }
            } else {
                None
            }
        } else {
            None
        }
    } else {
        None
    }
}

/// Drop leading blanks.
pub open spec fn trim_left(t: Seq<char>) -> Seq<char> {
    t.skip(ws_end(t, 0))
}

/// Last index before which no trailing blanks remain.
pub open spec fn content_end(t: Seq<char>) -> int
    decreases t.len(),
{
    if t.len() == 0 {
        0
    } else if is_ws(t.last()) {
        content_end(t.drop_last())
    } else {
        t.len() as int
    }
}

/// Drop trailing blanks.
pub open spec fn trim_right(t: Seq<char>) -> Seq<char> {
    t.take(content_end(t))
}

pub open spec fn trim(t: Seq<char>) -> Seq<char> {
    trim_right(trim_left(t))
}

/// Last index before which no trailing commas remain.
pub open spec fn comma_end(t: Seq<char>) -> int
    decreases t.len(),
{
    if t.len() == 0 {
        0
    } else if t.last() == ',' {
        comma_end(t.drop_last())
    } else {
        t.len() as int
    }
}

/// Drop trailing commas.
pub open spec fn strip_commas(t: Seq<char>) -> Seq<char> {
    t.take(comma_end(t))
}

/// First index holding `#`, or the end of `t`.
pub open spec fn hash_pos(t: Seq<char>, i: int) -> int
    decreases t.len() - i,
{
    if i < 0 || i >= t.len() {
        t.len() as int
    } else if t[i] == '#' {
        i
    } else {
        hash_pos(t, i + 1)
    }
}

/// One list line as `(label, comment)`: the text inside the quotes, and the
/// right-trimmed comment from `#` on (empty when there is none). A line that
/// is not a quoted label, once its comment, surrounding blanks and trailing
/// commas are dropped, yields nothing.
pub open spec fn parse_entry(line: Seq<char>) -> Option<(Seq<char>, Seq<char>)> {
    let h = hash_pos(line, 0);
    let comment = trim_right(line.skip(h));
    let code = trim(strip_commas(trim(line.take(h))));
    if code.len() >= 2 && code[0] == '"' && code.last() == '"' {
        Some((code.subrange(1, code.len() - 1), comment))
    } else {
        None
    }
}

/// The entries of the list text `s[i..end]`, line by line, in order.
pub open spec fn parse_lines(s: Seq<char>, i: int, end: int) -> Seq<(Seq<char>, Seq<char>)>
    decreases end - i,
{
    if i < 0 || i >= end || end > s.len() {
        Seq::empty()
    } else {
        let le = line_end(s, i);
        let stop = if i <= le && le < end {
            le
        } else {
            end
        };
        let rest = parse_lines(s, if stop < end {
            stop + 1
        } else {
            end
        }, end);
        match parse_entry(s.subrange(i, stop)) {
            Some(x) => seq![x] + rest,
            None => rest,
        }
    }
}

/// Keep the first entry for each label, in first-occurrence order.
pub open spec fn dedup_from(es: Seq<(Seq<char>, Seq<char>)>, i: int, seen: Seq<Seq<char>>) -> Seq<
    (Seq<char>, Seq<char>),
>
    decreases es.len() - i,
{
    if i < 0 || i >= es.len() {
        Seq::empty()
    } else if seen.contains(es[i].0) {
        dedup_from(es, i + 1, seen)
    } else {
        seq![es[i]] + dedup_from(es, i + 1, seen.push(es[i].0))
    }
}

/// Ordinal (code-point-wise) order on labels.
pub open spec fn lex_le(a: Seq<char>, b: Seq<char>) -> bool
    decreases a.len(),
{
    if a.len() == 0 {
        true
    } else if b.len() == 0 {
        false
    } else if a[0] != b[0] {
        a[0] < b[0]
    } else {
        lex_le(a.skip(1), b.skip(1))
    }
}

/// Insert `e` in front of the first entry whose label is not below `e`'s.
pub open spec fn insert_sorted(e: (Seq<char>, Seq<char>), sorted: Seq<(Seq<char>, Seq<char>)>) -> Seq<
    (Seq<char>, Seq<char>),
>
    decreases sorted.len(),
{
    if sorted.len() == 0 {
        seq![e]
    } else if lex_le(e.0, sorted[0].0) {
        seq![e] + sorted
    } else {
        seq![sorted[0]] + insert_sorted(e, sorted.skip(1))
    }
}

/// Insertion sort of `es[i..]` into the already sorted `acc`.
pub open spec fn sort_into(es: Seq<(Seq<char>, Seq<char>)>, i: int, acc: Seq<(Seq<char>, Seq<char>)>) -> Seq<
    (Seq<char>, Seq<char>),
>
    decreases es.len() - i,
{
    if i < 0 || i >= es.len() {
        acc
    } else {
        sort_into(es, i + 1, insert_sorted(es[i], acc))
    }
}

/// The canonical order of a list's entries: first occurrences only, sorted by
/// label.
pub open spec fn canon_entries(es: Seq<(Seq<char>, Seq<char>)>) -> Seq<(Seq<char>, Seq<char>)> {
    sort_into(dedup_from(es, 0, Seq::empty()), 0, Seq::empty())
}

/// One canonical output line per entry.
pub open spec fn emit_lines(es: Seq<(Seq<char>, Seq<char>)>, i: int) -> Seq<char>
    decreases es.len() - i,
{
    if i < 0 || i >= es.len() {
        Seq::empty()
    } else {
        "        \""@ + es[i].0 + "\","@ + (if es[i].1.len() > 0 {
            "  "@ + es[i].1
        } else {
            Seq::empty()
        }) + "\n"@ + emit_lines(es, i + 1)
    }
}

/// The canonical text replacing a whole `deps` attribute.
pub open spec fn emit(es: Seq<(Seq<char>, Seq<char>)>) -> Seq<char> {
    if es.len() == 0 {
        "deps = []"@
    } else {
        "deps = [\n"@ + emit_lines(es, 0) + "    ]"@
    }
}

/// The replacement for the `deps` attribute spanning `s[start..e]` with its
/// opening bracket at `b`.
pub open spec fn canon_region(s: Seq<char>, b: int, e: int) -> Seq<char> {
    emit(canon_entries(parse_lines(s, b + 1, e - 1)))
}

/// The formatted document from position `i` on: copy strings, comments and
/// plain text; replace each `deps` attribute by its canonical form.
pub open spec fn rewrite_from(s: Seq<char>, i: int) -> Seq<char>
    decreases s.len() - i,
{
    if i < 0 || i >= s.len() {
        Seq::empty()
    } else if s[i] == '"' {
        let e = str_end(s, i + 1);
        if i < e <= s.len() {
            s.subrange(i, e) + rewrite_from(s, e)
        } else {
            seq![s[i]] + rewrite_from(s, i + 1)
        }
    } else if s[i] == '#' {
        let e = line_end(s, i);
        if i < e <= s.len() {
            s.subrange(i, e) + rewrite_from(s, e)
        } else {
            seq![s[i]] + rewrite_from(s, i + 1)
        }
    } else if deps_region_at(s, i) is Some {
        let (b, e) = deps_region_at(s, i).unwrap();
        if i < e <= s.len() {
            canon_region(s, b, e) + rewrite_from(s, e)
        } else {
            seq![s[i]] + rewrite_from(s, i + 1)
        }
    } else {
        seq![s[i]] + rewrite_from(s, i + 1)
    }
}

/// The whole formatted document.
pub open spec fn spec_format(s: Seq<char>) -> Seq<char> {
    rewrite_from(s, 0)
}

/// Relies on std's `String::push`: appends the given character to the end of
/// the string.
pub assume_specification[ String::push ](s: &mut String, c: char)
    ensures
        final(s)@ == old(s)@.push(c),
;

/// The characters of `s`, as a vector.
pub fn str_to_chars(s: &str) -> (v: Vec<char>)
    ensures
        v@ == s@,
{
    let n = s.unicode_len();
    let mut v: Vec<char> = Vec::new();
    let mut i: usize = 0;
    while i < n
        invariant
            i <= n,
            n == s@.len(),
            v@ == s@.take(i as int),
        decreases n - i,
    {
        v.push(s.get_char(i));
        proof {
            assert(s@.take(i + 1) =~= s@.take(i as int).push(s@[i as int]));
        }
        i = i + 1;
    }
    proof {
        assert(s@.take(n as int) =~= s@);
    }
    v
}

/// The characters of `v`, as a string.
pub fn chars_to_string(v: &Vec<char>) -> (s: String)
    ensures
        s@ == v@,
{
    let mut s = String::new();
    let mut i: usize = 0;
    while i < v.len()
        invariant
            i <= v@.len(),
            s@ == v@.take(i as int),
        decreases v@.len() - i,
    {
        s.push(v[i]);
        proof {
            assert(v@.take(i + 1) =~= v@.take(i as int).push(v@[i as int]));
        }
        i = i + 1;
    }
    proof {
        assert(v@.take(v@.len() as int) =~= v@);
    }
    s
}

proof fn lemma_ws_end_bounds(s: Seq<char>, i: int)
    requires
        0 <= i <= s.len(),
    ensures
        i <= ws_end(s, i) <= s.len(),
    decreases s.len() - i,
{
    if i < s.len() && is_ws(s[i]) {
        lemma_ws_end_bounds(s, i + 1);
    }
}

proof fn lemma_line_end_bounds(s: Seq<char>, i: int)
    requires
        0 <= i <= s.len(),
    ensures
        i <= line_end(s, i) <= s.len(),
    decreases s.len() - i,
{
    if i < s.len() && s[i] != '\n' {
        lemma_line_end_bounds(s, i + 1);
    }
}

proof fn lemma_str_end_bounds(s: Seq<char>, i: int)
    requires
        0 <= i <= s.len(),
    ensures
        i <= str_end(s, i) <= s.len(),
    decreases s.len() - i,
{
    if i < s.len() {
        if s[i] == '\\' {
            if i + 1 < s.len() {
                lemma_str_end_bounds(s, i + 2);
            }
        } else if s[i] != '"' {
            lemma_str_end_bounds(s, i + 1);
        }
    }
}

proof fn lemma_list_end_bounds(s: Seq<char>, i: int, depth: int, in_str: bool, in_cm: bool)
    requires
        0 <= i,
        list_end(s, i, depth, in_str, in_cm) is Some,
    ensures
        i < list_end(s, i, depth, in_str, in_cm).unwrap() <= s.len(),
    decreases s.len() - i,
{
    if i < s.len() {
        if in_str {
            if s[i] == '\\' && i + 1 < s.len() {
                lemma_list_end_bounds(s, i + 2, depth, true, false);
            } else if s[i] == '"' {
                lemma_list_end_bounds(s, i + 1, depth, false, false);
            } else {
                lemma_list_end_bounds(s, i + 1, depth, true, false);
            }
        } else if in_cm {
            if s[i] == '\n' {
                lemma_list_end_bounds(s, i + 1, depth, false, false);
            } else {
                lemma_list_end_bounds(s, i + 1, depth, false, true);
            }
        } else if s[i] == '"' {
            lemma_list_end_bounds(s, i + 1, depth, true, false);
        } else if s[i] == '#' {
            lemma_list_end_bounds(s, i + 1, depth, false, true);
        } else if s[i] == '[' {
            lemma_list_end_bounds(s, i + 1, depth + 1, false, false);
        } else if s[i] == ']' {
            if depth != 1 {
                lemma_list_end_bounds(s, i + 1, depth - 1, false, false);
            }
        } else {
            lemma_list_end_bounds(s, i + 1, depth, false, false);
        }
    }
}

proof fn lemma_hash_pos_bounds(t: Seq<char>, i: int)
    requires
        0 <= i <= t.len(),
    ensures
        i <= hash_pos(t, i) <= t.len(),
    decreases t.len() - i,
{
    if i < t.len() && t[i] != '#' {
        lemma_hash_pos_bounds(t, i + 1);
    }
}

#[verifier::loop_isolation(false)]
pub(crate) fn exec_ws_end(s: &Vec<char>, i: usize) -> (r: usize)
    requires
        i <= s@.len(),
    ensures
        r == ws_end(s@, i as int),
        i <= r <= s@.len(),
{
    let mut j = i;
    while j < s.len() && (s[j] == ' ' || s[j] == '\t' || s[j] == '\r')
        invariant
            i <= j <= s@.len(),
            ws_end(s@, i as int) == ws_end(s@, j as int),
        decreases s@.len() - j,
    {
        j = j + 1;
    }
    j
}

#[verifier::loop_isolation(false)]
pub(crate) fn exec_line_end(s: &Vec<char>, i: usize) -> (r: usize)
    requires
        i <= s@.len(),
    ensures
        r == line_end(s@, i as int),
        i <= r <= s@.len(),
{
    let mut j = i;
    while j < s.len() && s[j] != '\n'
        invariant
            i <= j <= s@.len(),
            line_end(s@, i as int) == line_end(s@, j as int),
        decreases s@.len() - j,
    {
        j = j + 1;
    }
    j
}

#[verifier::loop_isolation(false)]
pub(crate) fn exec_hash_pos(s: &Vec<char>, i: usize) -> (r: usize)
    requires
        i <= s@.len(),
    ensures
        r == hash_pos(s@, i as int),
        i <= r <= s@.len(),
{
    let mut j = i;
    while j < s.len() && s[j] != '#'
        invariant
            i <= j <= s@.len(),
            hash_pos(s@, i as int) == hash_pos(s@, j as int),
        decreases s@.len() - j,
    {
        j = j + 1;
    }
    j
}

#[verifier::loop_isolation(false)]
pub(crate) fn exec_str_end(s: &Vec<char>, i: usize) -> (r: usize)
    requires
        i <= s@.len(),
    ensures
        r == str_end(s@, i as int),
        i <= r <= s@.len(),
{
    proof {
        lemma_str_end_bounds(s@, i as int);
    }
    let mut j = i;
    loop
        invariant
            i <= j <= s@.len(),
            str_end(s@, i as int) == str_end(s@, j as int),
        decreases s@.len() - j,
    {
        if j >= s.len() {
            return s.len();
        }
        let c = s[j];
        if c == '\\' {
            if j + 1 < s.len() {
                j = j + 2;
            } else {
                return s.len();
            }
        } else if c == '"' {
            return j + 1;
        } else {
            j = j + 1;
        }
        proof {
            lemma_str_end_bounds(s@, j as int);
        }
    }
}

#[verifier::loop_isolation(false)]
pub(crate) fn exec_list_end(s: &Vec<char>, i: usize) -> (r: Option<usize>)
    requires
        i <= s@.len(),
    ensures
        match r {
            Some(e) => list_end(s@, i as int, 1, false, false) == Some(e as int) && i < e
                <= s@.len(),
            None => list_end(s@, i as int, 1, false, false) is None,
        },
{
    let mut j = i;
    let mut depth: u128 = 1;
    let mut in_str = false;
    let mut in_cm = false;
    loop
        invariant
            i <= j <= s@.len(),
            1 <= depth <= 1 + (j - i),
            !(in_str && in_cm),
            list_end(s@, i as int, 1, false, false) == list_end(
                s@,
                j as int,
                depth as int,
                in_str,
                in_cm,
            ),
        decreases s@.len() - j,
    {
        if j >= s.len() {
            return None;
        }
        let ghost j0 = j as int;
        let ghost d0 = depth as int;
        let ghost st0 = in_str;
        let ghost cm0 = in_cm;
        let c = s[j];
        if in_str {
            if c == '\\' && j + 1 < s.len() {
                j = j + 2;
            } else {
                if c == '"' {
                    in_str = false;
                }
                j = j + 1;
            }
        } else if in_cm {
            if c == '\n' {
                in_cm = false;
            }
            j = j + 1;
        } else if c == '"' {
            in_str = true;
            j = j + 1;
        } else if c == '#' {
            in_cm = true;
            j = j + 1;
        } else if c == '[' {
            depth = depth + 1;
            j = j + 1;
        } else if c == ']' {
            if depth == 1 {
                proof {
                    lemma_list_end_bounds(s@, i as int, 1, false, false);
                }
                return Some(j + 1);
            }
            depth = depth - 1;
            j = j + 1;
        } else {
            j = j + 1;
        }
        proof {
            assert(list_end(s@, j0, d0, st0, cm0) == list_end(
                s@,
                j as int,
                depth as int,
                in_str,
                in_cm,
            ));
        }
    }
}

fn exec_is_ident(c: char) -> (r: bool)
    ensures
        r == is_ident_char(c),
{
    ('a' <= c && c <= 'z') || ('A' <= c && c <= 'Z') || ('0' <= c && c <= '9') || c == '_'
}

/// The `deps = [` attribute head starting exactly at `i`, if any.
pub(crate) fn exec_region_at(s: &Vec<char>, i: usize) -> (r: Option<(usize, usize)>)
    requires
        i < s@.len(),
    ensures
        match r {
            Some((b, e)) => deps_region_at(s@, i as int) == Some((b as int, e as int)) && i < b
                && b + 2 <= e <= s@.len(),
            None => deps_region_at(s@, i as int) is None,
        },
{
    if s.len() - i < 4 {
        return None;
    }
    if !(s[i] == 'd' && s[i + 1] == 'e' && s[i + 2] == 'p' && s[i + 3] == 's') {
        return None;
    }
    if i > 0 && exec_is_ident(s[i - 1]) {
        return None;
    }
    let a = exec_ws_end(s, i + 4);
    if a == s.len() {
        return None;
    }
    if s[a] != '=' {
        return None;
    }
    let b = exec_ws_end(s, a + 1);
    if b == s.len() {
        return None;
    }
    if s[b] != '[' {
        return None;
    }
    match exec_list_end(s, b + 1) {
        Some(e) => Some((b, e)),
        None => None,
    }
}

/// A copy of `s[lo..hi]`.
fn subvec(s: &Vec<char>, lo: usize, hi: usize) -> (r: Vec<char>)
    requires
        lo <= hi <= s@.len(),
    ensures
        r@ == s@.subrange(lo as int, hi as int),
{
    let mut r: Vec<char> = Vec::new();
    let mut j = lo;
    while j < hi
        invariant
            lo <= j <= hi <= s@.len(),
            r@ == s@.subrange(lo as int, j as int),
        decreases hi - j,
    {
        r.push(s[j]);
        proof {
            assert(s@.subrange(lo as int, j + 1) =~= s@.subrange(lo as int, j as int).push(
                s@[j as int],
            ));
        }
        j = j + 1;
    }
    r
}

#[verifier::loop_isolation(false)]
fn exec_content_end(v: &Vec<char>) -> (r: usize)
    ensures
        r == content_end(v@),
        r <= v@.len(),
{
    let mut e = v.len();
    proof {
        assert(v@.take(v@.len() as int) =~= v@);
    }
    while e > 0 && (v[e - 1] == ' ' || v[e - 1] == '\t' || v[e - 1] == '\r')
        invariant
            e <= v@.len(),
            content_end(v@) == content_end(v@.take(e as int)),
        decreases e,
    {
        proof {
            assert(v@.take(e as int).last() == v@[e - 1]);
            assert(v@.take(e as int).drop_last() =~= v@.take(e - 1));
        }
        e = e - 1;
    }
    proof {
        if e > 0 {
            assert(v@.take(e as int).last() == v@[e - 1]);
        }
    }
    e
}

#[verifier::loop_isolation(false)]
fn exec_comma_end(v: &Vec<char>) -> (r: usize)
    ensures
        r == comma_end(v@),
        r <= v@.len(),
{
    let mut e = v.len();
    proof {
        assert(v@.take(v@.len() as int) =~= v@);
    }
    while e > 0 && v[e - 1] == ','
        invariant
            e <= v@.len(),
            comma_end(v@) == comma_end(v@.take(e as int)),
        decreases e,
    {
        proof {
            assert(v@.take(e as int).last() == v@[e - 1]);
            assert(v@.take(e as int).drop_last() =~= v@.take(e - 1));
        }
        e = e - 1;
    }
    proof {
        if e > 0 {
            assert(v@.take(e as int).last() == v@[e - 1]);
        }
    }
    e
}

/// A copy of `v` with surrounding blanks dropped.
fn exec_trim(v: &Vec<char>) -> (r: Vec<char>)
    ensures
        r@ == trim(v@),
{
    let l = exec_ws_end(v, 0);
    let left = subvec(v, l, v.len());
    proof {
        assert(left@ =~= trim_left(v@));
    }
    let e = exec_content_end(&left);
    let r = subvec(&left, 0, e);
    proof {
        assert(r@ =~= trim_right(left@));
    }
    r
}

/// One parsed `deps` entry: the label inside the quotes and the trailing
/// comment (empty when there is none).
pub struct DepEntry {
    pub name: Vec<char>,
    pub comment: Vec<char>,
}

pub open spec fn dep_model(e: DepEntry) -> (Seq<char>, Seq<char>) {
    (e.name@, e.comment@)
}

pub open spec fn models(v: Seq<DepEntry>) -> Seq<(Seq<char>, Seq<char>)> {
    v.map_values(|e: DepEntry| dep_model(e))
}

impl Clone for DepEntry {
    fn clone(&self) -> (r: Self)
        ensures
            dep_model(r) == dep_model(*self),
    {
        let r = DepEntry { name: self.name.clone(), comment: self.comment.clone() };
        proof {
            assert forall|x: int| 0 <= x < r.name@.len() implies r.name@[x] == self.name@[x] by {
                assert(cloned::<char>(self.name@[x], r.name@[x]));
            }
            assert(r.name@ =~= self.name@);
            assert forall|x: int| 0 <= x < r.comment@.len() implies r.comment@[x]
                == self.comment@[x] by {
                assert(cloned::<char>(self.comment@[x], r.comment@[x]));
            }
            assert(r.comment@ =~= self.comment@);
        }
        r
    }
}

/// Parse one list line.
fn exec_parse_entry(line: &Vec<char>) -> (r: Option<DepEntry>)
    ensures
        match r {
            Some(e) => parse_entry(line@) == Some(dep_model(e)),
            None => parse_entry(line@) is None,
        },
{
    let h = exec_hash_pos(line, 0);
    let cm_raw = subvec(line, h, line.len());
    proof {
        assert(cm_raw@ =~= line@.skip(h as int));
    }
    let ce = exec_content_end(&cm_raw);
    let comment = subvec(&cm_raw, 0, ce);
    proof {
        assert(comment@ =~= trim_right(line@.skip(h as int)));
    }
    let code0 = subvec(line, 0, h);
    proof {
        assert(code0@ =~= line@.take(h as int));
    }
    let t1 = exec_trim(&code0);
    let ke = exec_comma_end(&t1);
    let t2 = subvec(&t1, 0, ke);
    proof {
        assert(t2@ =~= strip_commas(t1@));
    }
    let code = exec_trim(&t2);
    if code.len() >= 2 && code[0] == '"' && code[code.len() - 1] == '"' {
        let name = subvec(&code, 1, code.len() - 1);
        Some(DepEntry { name, comment })
    } else {
        None
    }
}

/// All entries of the list text `s[lo..hi]`, line by line.
#[verifier::loop_isolation(false)]
fn exec_parse_region(s: &Vec<char>, lo: usize, hi: usize) -> (r: Vec<DepEntry>)
    requires
        lo <= hi <= s@.len(),
    ensures
        models(r@) == parse_lines(s@, lo as int, hi as int),
{
    let mut out: Vec<DepEntry> = Vec::new();
    let mut i = lo;
    while i < hi
        invariant
            lo <= i <= hi,
            models(out@) + parse_lines(s@, i as int, hi as int) == parse_lines(
                s@,
                lo as int,
                hi as int,
            ),
        decreases hi - i,
    {
        let ghost out0 = models(out@);
        let le = exec_line_end(s, i);
        let stop = if le < hi {
            le
        } else {
            hi
        };
        let line = subvec(s, i, stop);
        let next = if stop < hi {
            stop + 1
        } else {
            hi
        };
        match exec_parse_entry(&line) {
            Some(e) => {
                let ghost m = dep_model(e);
                out.push(e);
                proof {
                    assert(models(out@) =~= out0.push(m));
                    assert(out0.push(m) =~= out0 + seq![m]);
                    assert(models(out@) + parse_lines(s@, next as int, hi as int) =~= out0 + (
                    seq![m] + parse_lines(s@, next as int, hi as int)));
                }
            },
            None => {},
        }
        i = next;
    }
    proof {
        assert(models(out@) + parse_lines(s@, i as int, hi as int) =~= models(out@));
    }
    out
}

/// Whether two character vectors hold the same text.
fn chars_eq(a: &Vec<char>, b: &Vec<char>) -> (r: bool)
    ensures
        r == (a@ == b@),
{
    if a.len() != b.len() {
        return false;
    }
    let mut i: usize = 0;
    while i < a.len()
        invariant
            i <= a@.len(),
            a@.len() == b@.len(),
            forall|t: int| 0 <= t < i ==> a@[t] == b@[t],
        decreases a@.len() - i,
    {
        if a[i] != b[i] {
            return false;
        }
        i = i + 1;
    }
    proof {
        assert(a@ =~= b@);
    }
    true
}

/// Keep the first entry for each label.
#[verifier::loop_isolation(false)]
fn exec_dedup(es: &Vec<DepEntry>) -> (r: Vec<DepEntry>)
    ensures
        models(r@) == dedup_from(models(es@), 0, Seq::empty()),
{
    let mut out: Vec<DepEntry> = Vec::new();
    let ghost mut seen: Seq<Seq<char>> = Seq::empty();
    let mut i: usize = 0;
    while i < es.len()
        invariant
            i <= es@.len(),
            models(out@) + dedup_from(models(es@), i as int, seen) == dedup_from(
                models(es@),
                0,
                Seq::empty(),
            ),
            seen.len() == out@.len(),
            forall|t: int| 0 <= t < seen.len() ==> seen[t] == out@[t].name@,
        decreases es@.len() - i,
    {
        let ghost out0 = models(out@);
        let mut found = false;
        let mut t: usize = 0;
        while t < out.len()
            invariant
                t <= out@.len(),
                found == exists|w: int| 0 <= w < t && out@[w].name@ == es@[i as int].name@,
            decreases out@.len() - t,
        {
            if chars_eq(&out[t].name, &es[i].name) {
                found = true;
            }
            t = t + 1;
        }
        proof {
            assert(found == seen.contains(models(es@)[i as int].0)) by {
                if found {
                    let w = choose|w: int|
                        0 <= w < out@.len() && (#[trigger] out@[w]).name@ == es@[i as int].name@;
                    assert(seen[w] == es@[i as int].name@);
                }
                if seen.contains(models(es@)[i as int].0) {
                    let w = choose|w: int|
                        0 <= w < seen.len() && seen[w] == models(es@)[i as int].0;
                    assert(out@[w].name@ == es@[i as int].name@);
                }
            }
        }
        if !found {
            let e = es[i].clone();
            let ghost m = dep_model(e);
            out.push(e);
            proof {
                assert(models(out@) =~= out0.push(m));
                assert(out0.push(m) =~= out0 + seq![m]);
                seen = seen.push(m.0);
                assert(models(out@) + dedup_from(models(es@), i + 1, seen) =~= out0 + (seq![m]
                    + dedup_from(models(es@), i + 1, seen)));
            }
        }
        i = i + 1;
    }
    proof {
        assert(models(out@) + dedup_from(models(es@), i as int, seen) =~= models(out@));
    }
    out
}

/// Ordinal comparison of two labels.
#[verifier::loop_isolation(false)]
fn exec_lex_le(a: &Vec<char>, b: &Vec<char>) -> (r: bool)
    ensures
        r == lex_le(a@, b@),
{
    proof {
        assert(a@.skip(0) =~= a@);
        assert(b@.skip(0) =~= b@);
    }
    let mut i: usize = 0;
    while i < a.len() && i < b.len() && a[i] == b[i]
        invariant
            i <= a@.len(),
            i <= b@.len(),
            lex_le(a@, b@) == lex_le(a@.skip(i as int), b@.skip(i as int)),
        decreases a@.len() - i,
    {
        proof {
            assert(a@.skip(i as int)[0] == a@[i as int]);
            assert(b@.skip(i as int)[0] == b@[i as int]);
            assert(a@.skip(i as int).skip(1) =~= a@.skip(i + 1));
            assert(b@.skip(i as int).skip(1) =~= b@.skip(i + 1));
        }
        i = i + 1;
    }
    if i == a.len() {
        true
    } else if i == b.len() {
        proof {
            assert(a@.skip(i as int).len() > 0);
        }
        false
    } else {
        proof {
            assert(a@.skip(i as int)[0] == a@[i as int]);
            assert(b@.skip(i as int)[0] == b@[i as int]);
        }
        a[i] < b[i]
    }
}

/// `insert_sorted` drops `e` in front of the first entry whose label is not
/// below `e`'s.
proof fn lemma_insert_sorted_at(e: (Seq<char>, Seq<char>), sorted: Seq<(Seq<char>, Seq<char>)>, p: int)
    requires
        0 <= p <= sorted.len(),
        forall|t: int| 0 <= t < p ==> !lex_le(e.0, (#[trigger] sorted[t]).0),
        p < sorted.len() ==> lex_le(e.0, sorted[p].0),
    ensures
        insert_sorted(e, sorted) == sorted.take(p) + seq![e] + sorted.skip(p),
    decreases sorted.len(),
{
    if sorted.len() == 0 {
        assert(insert_sorted(e, sorted) =~= sorted.take(p) + seq![e] + sorted.skip(p));
    } else if p == 0 {
        assert(lex_le(e.0, sorted[0].0));
        assert(insert_sorted(e, sorted) =~= sorted.take(0) + seq![e] + sorted.skip(0));
    } else {
        assert(!lex_le(e.0, sorted[0].0));
        assert forall|t: int| 0 <= t < p - 1 implies !lex_le(
            e.0,
            (#[trigger] sorted.skip(1)[t]).0,
        ) by {
            assert(sorted.skip(1)[t] == sorted[t + 1]);
        }
        lemma_insert_sorted_at(e, sorted.skip(1), p - 1);
        assert(seq![sorted[0]] + insert_sorted(e, sorted.skip(1)) =~= sorted.take(p) + seq![e]
            + sorted.skip(p)) by {
            assert(sorted.skip(1).take(p - 1) =~= sorted.subrange(1, p));
            assert(sorted.skip(1).skip(p - 1) =~= sorted.skip(p));
        }
    }
}

/// Insertion sort by label.
#[verifier::loop_isolation(false)]
fn exec_sort(es: &Vec<DepEntry>) -> (r: Vec<DepEntry>)
    ensures
        models(r@) == sort_into(models(es@), 0, Seq::empty()),
{
    let mut out: Vec<DepEntry> = Vec::new();
    let mut i: usize = 0;
    while i < es.len()
        invariant
            i <= es@.len(),
            sort_into(models(es@), i as int, models(out@)) == sort_into(
                models(es@),
                0,
                Seq::empty(),
            ),
        decreases es@.len() - i,
    {
        let ghost acc0 = models(out@);
        let e = es[i].clone();
        let ghost m = dep_model(e);
        let mut p: usize = 0;
        while p < out.len() && !exec_lex_le(&e.name, &out[p].name)
            invariant
                p <= out@.len(),
                forall|t: int| 0 <= t < p ==> !lex_le(m.0, (#[trigger] models(out@)[t]).0),
            decreases out@.len() - p,
        {
            p = p + 1;
        }
        proof {
            lemma_insert_sorted_at(m, acc0, p as int);
        }
        out.insert(p, e);
        proof {
            assert(models(out@) =~= acc0.take(p as int) + seq![m] + acc0.skip(p as int)) by {
                assert(out@.len() == acc0.len() + 1);
                assert forall|t: int| 0 <= t < out@.len() implies models(out@)[t] == (acc0.take(
                    p as int,
                ) + seq![m] + acc0.skip(p as int))[t] by {
                    if t < p {
                    } else if t == p {
                    } else {
                    }
                }
            }
            assert(models(out@) == insert_sorted(m, acc0));
        }
        i = i + 1;
    }
    out
}

/// Append the characters of `s`.
fn push_str(out: &mut Vec<char>, s: &str)
    ensures
        final(out)@ == old(out)@ + s@,
{
    let n = s.unicode_len();
    let mut i: usize = 0;
    while i < n
        invariant
            i <= n,
            n == s@.len(),
            out@ == old(out)@ + s@.take(i as int),
        decreases n - i,
    {
        out.push(s.get_char(i));
        proof {
            assert(old(out)@ + s@.take(i + 1) =~= (old(out)@ + s@.take(i as int)).push(
                s@[i as int],
            ));
        }
        i = i + 1;
    }
    proof {
        assert(s@.take(n as int) =~= s@);
    }
}

/// Append the characters of `v`.
fn push_chars(out: &mut Vec<char>, v: &Vec<char>)
    ensures
        final(out)@ == old(out)@ + v@,
{
    let mut i: usize = 0;
    while i < v.len()
        invariant
            i <= v@.len(),
            out@ == old(out)@ + v@.take(i as int),
        decreases v@.len() - i,
    {
        out.push(v[i]);
        proof {
            assert(old(out)@ + v@.take(i + 1) =~= (old(out)@ + v@.take(i as int)).push(
                v@[i as int],
            ));
        }
        i = i + 1;
    }
    proof {
        assert(v@.take(v@.len() as int) =~= v@);
    }
}

/// The canonical text of a whole `deps` attribute.
#[verifier::loop_isolation(false)]
fn exec_emit(es: &Vec<DepEntry>) -> (r: Vec<char>)
    ensures
        r@ == emit(models(es@)),
{
    let mut out: Vec<char> = Vec::new();
    if es.len() == 0 {
        push_str(&mut out, "deps = []");
        proof {
            assert(out@ =~= "deps = []"@);
        }
        return out;
    }
    push_str(&mut out, "deps = [\n");
    proof {
        assert(out@ =~= "deps = [\n"@);
    }
    let mut i: usize = 0;
    while i < es.len()
        invariant
            i <= es@.len(),
            out@ == "deps = [\n"@ + emit_lines(models(es@), 0).take(out@.len()
                - "deps = [\n"@.len()),
            out@.len() >= "deps = [\n"@.len(),
            emit_lines(models(es@), 0) == out@.skip("deps = [\n"@.len() as int) + emit_lines(
                models(es@),
                i as int,
            ),
        decreases es@.len() - i,
    {
        let ghost out0 = out@;
        let ghost line = "        \""@ + models(es@)[i as int].0 + "\","@ + (if models(
            es@,
        )[i as int].1.len() > 0 {
            "  "@ + models(es@)[i as int].1
        } else {
            Seq::<char>::empty()
        }) + "\n"@;
        push_str(&mut out, "        \"");
        push_chars(&mut out, &es[i].name);
        push_str(&mut out, "\",");
        if es[i].comment.len() > 0 {
            push_str(&mut out, "  ");
            push_chars(&mut out, &es[i].comment);
        }
        push_str(&mut out, "\n");
        proof {
            assert(out@ =~= out0 + line);
            assert(emit_lines(models(es@), i as int) == line + emit_lines(models(es@), i + 1));
            assert(out@.skip("deps = [\n"@.len() as int) =~= out0.skip("deps = [\n"@.len() as int)
                + line);
            assert(out@.skip("deps = [\n"@.len() as int) + emit_lines(models(es@), i + 1)
                =~= out0.skip("deps = [\n"@.len() as int) + (line + emit_lines(
                models(es@),
                i + 1,
            )));
            assert(out@ =~= "deps = [\n"@ + out@.skip("deps = [\n"@.len() as int));
            assert(out@.skip("deps = [\n"@.len() as int) =~= emit_lines(models(es@), 0).take(
                out@.len() - "deps = [\n"@.len(),
            ));
        }
        i = i + 1;
    }
    let ghost mid = out@;
    push_str(&mut out, "    ]");
    proof {
        assert(emit_lines(models(es@), es@.len() as int) =~= Seq::<char>::empty());
        assert(mid.skip("deps = [\n"@.len() as int) + Seq::<char>::empty() =~= mid.skip(
            "deps = [\n"@.len() as int,
        ));
        assert(mid =~= "deps = [\n"@ + emit_lines(models(es@), 0));
        assert(out@ =~= "deps = [\n"@ + emit_lines(models(es@), 0) + "    ]"@);
        assert(models(es@).len() > 0);
    }
    out
}

/// Copy `s[lo..hi]` onto the end of `out`.
fn extend_range(out: &mut Vec<char>, s: &Vec<char>, lo: usize, hi: usize)
    requires
        lo <= hi <= s@.len(),
    ensures
        final(out)@ == old(out)@ + s@.subrange(lo as int, hi as int),
{
    let piece = subvec(s, lo, hi);
    push_chars(out, &piece);
}

/// The formatted document text.
#[verifier::loop_isolation(false)]
fn exec_rewrite(s: &Vec<char>) -> (out: Vec<char>)
    ensures
        out@ == rewrite_from(s@, 0),
{
    let mut out: Vec<char> = Vec::new();
    let mut i: usize = 0;
    while i < s.len()
        invariant
            i <= s@.len(),
            out@ + rewrite_from(s@, i as int) == rewrite_from(s@, 0),
        decreases s@.len() - i,
    {
        let ghost out0 = out@;
        let ghost i0 = i as int;
        let c = s[i];
        if c == '"' {
            let e = exec_str_end(s, i + 1);
            proof {
                assert(rewrite_from(s@, i0) == s@.subrange(i0, e as int) + rewrite_from(
                    s@,
                    e as int,
                ));
            }
            extend_range(&mut out, s, i, e);
            i = e;
        } else if c == '#' {
            let e = exec_line_end(s, i);
            proof {
                lemma_line_end_bounds(s@, i0 + 1);
                assert(e > i);
                assert(rewrite_from(s@, i0) == s@.subrange(i0, e as int) + rewrite_from(
                    s@,
                    e as int,
                ));
            }
            extend_range(&mut out, s, i, e);
            i = e;
        } else {
            match exec_region_at(s, i) {
                Some((b, e)) => {
                    proof {
                        assert(rewrite_from(s@, i0) == canon_region(s@, b as int, e as int)
                            + rewrite_from(s@, e as int));
                    }
                    let entries = exec_parse_region(s, b + 1, e - 1);
                    let dd = exec_dedup(&entries);
                    let so = exec_sort(&dd);
                    let text = exec_emit(&so);
                    push_chars(&mut out, &text);
                    proof {
                        assert(text@ == canon_region(s@, b as int, e as int));
                    }
                    i = e;
                },
                None => {
                    proof {
                        assert(rewrite_from(s@, i0) == seq![s@[i0]] + rewrite_from(s@, i0 + 1));
                    }
                    out.push(c);
                    proof {
                        assert(out@ =~= out0 + seq![s@[i0]]);
                    }
                    i = i + 1;
                },
            }
        }
        proof {
            assert((out0 + (out@.skip(out0.len() as int))) =~= out@);
            assert(out@ + rewrite_from(s@, i as int) =~= out0 + (out@.skip(out0.len() as int)
                + rewrite_from(s@, i as int)));
        }
    }
    proof {
        assert(rewrite_from(s@, s@.len() as int) =~= Seq::<char>::empty());
        assert(out@ + Seq::<char>::empty() =~= out@);
    }
    out
}

/// Rewrite every `deps = [ ... ]` attribute of `source` into canonical form:
/// entries deduplicated by label keeping the first occurrence and its
/// comment, sorted by ordinal label order, one per line at fixed indentation;
/// everything else is copied unchanged.
pub fn sort_deps_in_text(source: &str) -> (r: String)
    ensures
        r@ == spec_format(source@),
{
    let cs = str_to_chars(source);
    let out = exec_rewrite(&cs);
    chars_to_string(&out)
}


/// Labels are totally ordered by `lex_le`.
proof fn lemma_lex_total(a: Seq<char>, b: Seq<char>)
    ensures
        lex_le(a, b) || lex_le(b, a),
    decreases a.len(),
{
    if a.len() > 0 && b.len() > 0 {
        if a[0] == b[0] {
            lemma_lex_total(a.skip(1), b.skip(1));
        } else {
            assert(a[0] as int != b[0] as int);
        }
    }
}

/// `lex_le` in both directions means equal labels.
proof fn lemma_lex_antisym(a: Seq<char>, b: Seq<char>)
    requires
        lex_le(a, b),
        lex_le(b, a),
    ensures
        a == b,
    decreases a.len(),
{
    if a.len() == 0 {
        assert(b.len() == 0);
        assert(a =~= b);
    } else {
        assert(b.len() > 0);
        assert(a[0] == b[0]);
        lemma_lex_antisym(a.skip(1), b.skip(1));
        assert(a =~= b) by {
            assert(forall|t: int| 1 <= t < a.len() ==> a[t] == a.skip(1)[t - 1]);
            assert(forall|t: int| 1 <= t < b.len() ==> b[t] == b.skip(1)[t - 1]);
        }
    }
}

/// `lex_le` chains.
proof fn lemma_lex_trans(a: Seq<char>, b: Seq<char>, c: Seq<char>)
    requires
        lex_le(a, b),
        lex_le(b, c),
    ensures
        lex_le(a, c),
    decreases a.len(),
{
    if a.len() > 0 && b.len() > 0 && c.len() > 0 {
        if a[0] == b[0] && b[0] == c[0] {
            lemma_lex_trans(a.skip(1), b.skip(1), c.skip(1));
        }
    }
}

/// Entries in strict label order: every label strictly below all later ones.
pub open spec fn strictly_sorted(es: Seq<(Seq<char>, Seq<char>)>) -> bool {
    forall|a: int, b: int|
        0 <= a < b < es.len() ==> !lex_le((#[trigger] es[b]).0, (#[trigger] es[a]).0)
}

/// Pairwise distinct labels.
pub open spec fn distinct_labels(es: Seq<(Seq<char>, Seq<char>)>) -> bool {
    forall|a: int, b: int|
        0 <= a < b < es.len() ==> (#[trigger] es[a]).0 != (#[trigger] es[b]).0
}

/// Re-sorting a strictly sorted run changes nothing.
proof fn lemma_sort_into_sorted(es: Seq<(Seq<char>, Seq<char>)>, i: int)
    requires
        strictly_sorted(es),
        0 <= i <= es.len(),
    ensures
        sort_into(es, i, es.take(i)) == es,
    decreases es.len() - i,
{
    if i < es.len() {
        assert forall|t: int| 0 <= t < i implies !lex_le(es[i as int].0, (#[trigger] es.take(i)[t]).0) by {
            assert(es.take(i)[t] == es[t]);
        }
        lemma_insert_sorted_at(es[i], es.take(i), i);
        assert(insert_sorted(es[i], es.take(i)) =~= es.take(i + 1)) by {
            assert(es.take(i).take(i) =~= es.take(i));
            assert(es.take(i).skip(i) =~= Seq::<(Seq<char>, Seq<char>)>::empty());
        }
        lemma_sort_into_sorted(es, i + 1);
    } else {
        assert(es.take(i) =~= es);
    }
}

/// A run whose labels are pairwise distinct and unseen survives
/// deduplication unchanged.
proof fn lemma_dedup_distinct(es: Seq<(Seq<char>, Seq<char>)>, i: int, seen: Seq<Seq<char>>)
    requires
        0 <= i <= es.len(),
        distinct_labels(es),
        forall|a: int| i <= a < es.len() ==> !seen.contains((#[trigger] es[a]).0),
    ensures
        dedup_from(es, i, seen) == es.skip(i),
    decreases es.len() - i,
{
    if i < es.len() {
        assert(!seen.contains(es[i as int].0));
        assert forall|a: int| i + 1 <= a < es.len() implies !seen.push(es[i as int].0).contains(
            (#[trigger] es[a]).0,
        ) by {
            if seen.push(es[i as int].0).contains(es[a].0) {
                let w = choose|w: int|
                    0 <= w < seen.push(es[i as int].0).len() && seen.push(es[i as int].0)[w] == es[a].0;
                if w < seen.len() {
                    assert(seen[w] == es[a].0);
                } else {
                    assert(es[i as int].0 == es[a].0);
                }
            }
        }
        lemma_dedup_distinct(es, i + 1, seen.push(es[i as int].0));
        assert(seq![es[i as int]] + es.skip(i + 1) =~= es.skip(i));
    } else {
        assert(es.skip(i) =~= Seq::<(Seq<char>, Seq<char>)>::empty());
    }
}

/// Inserting a fresh label into a strictly sorted run keeps it strictly
/// sorted; the run gains exactly that entry.
proof fn lemma_insert_sorted_strict(e: (Seq<char>, Seq<char>), sorted: Seq<(Seq<char>, Seq<char>)>)
    requires
        strictly_sorted(sorted),
        forall|t: int| 0 <= t < sorted.len() ==> (#[trigger] sorted[t]).0 != e.0,
    ensures
        strictly_sorted(insert_sorted(e, sorted)),
        insert_sorted(e, sorted).len() == sorted.len() + 1,
        forall|x: (Seq<char>, Seq<char>)|
            #[trigger] insert_sorted(e, sorted).contains(x) <==> (sorted.contains(x) || x == e),
    decreases sorted.len(),
{
    if sorted.len() == 0 {
        let r = insert_sorted(e, sorted);
        assert(r =~= seq![e]);
        assert forall|x: (Seq<char>, Seq<char>)| #[trigger]
            r.contains(x) <==> (sorted.contains(x) || x == e) by {
            if x == e {
                assert(r[0] == e);
            }
        }
    } else if lex_le(e.0, sorted[0].0) {
        let r = seq![e] + sorted;
        assert(insert_sorted(e, sorted) == r);
        assert forall|a: int, b: int| 0 <= a < b < r.len() implies !lex_le(
            (#[trigger] r[b]).0,
            (#[trigger] r[a]).0,
        ) by {
            if a == 0 {
                assert(r[b] == sorted[b - 1]);
                if lex_le(sorted[b - 1].0, e.0) {
                    lemma_lex_trans(sorted[b - 1].0, e.0, sorted[0].0);
                    if b - 1 > 0 {
                        lemma_lex_total(sorted[0].0, sorted[b - 1].0);
                    } else {
                        lemma_lex_antisym(sorted[0].0, e.0);
                    }
                }
            } else {
                assert(r[a] == sorted[a - 1] && r[b] == sorted[b - 1]);
            }
        }
        assert forall|x: (Seq<char>, Seq<char>)| #[trigger]
            r.contains(x) <==> (sorted.contains(x) || x == e) by {
            if x == e {
                assert(r[0] == e);
            }
            if sorted.contains(x) {
                let w = choose|w: int| 0 <= w < sorted.len() && sorted[w] == x;
                assert(r[w + 1] == x);
            }
            if r.contains(x) {
                let w = choose|w: int| 0 <= w < r.len() && r[w] == x;
                if w > 0 {
                    assert(sorted[w - 1] == x);
                }
            }
        }
    } else {
        assert forall|a: int, b: int|
            0 <= a < b < sorted.skip(1).len() implies !lex_le(
            (#[trigger] sorted.skip(1)[b]).0,
            (#[trigger] sorted.skip(1)[a]).0,
        ) by {
            assert(sorted.skip(1)[a] == sorted[a + 1]);
            assert(sorted.skip(1)[b] == sorted[b + 1]);
        }
        assert forall|t: int| 0 <= t < sorted.skip(1).len() implies (
        #[trigger] sorted.skip(1)[t]).0 != e.0 by {
            assert(sorted.skip(1)[t] == sorted[t + 1]);
        }
        lemma_insert_sorted_strict(e, sorted.skip(1));
        let tail = insert_sorted(e, sorted.skip(1));
        let r = seq![sorted[0]] + tail;
        assert(insert_sorted(e, sorted) == r);
        // the head stays strictly below everything behind it
        assert forall|t: int| 0 <= t < tail.len() implies !lex_le(
            (#[trigger] tail[t]).0,
            sorted[0].0,
        ) by {
            assert(tail.contains(tail[t]));
            if tail[t] == e {
                lemma_lex_total(e.0, sorted[0].0);
                if lex_le(e.0, sorted[0].0) {
                }
            } else {
                assert(sorted.skip(1).contains(tail[t]));
                let w = choose|w: int| 0 <= w < sorted.skip(1).len() && sorted.skip(1)[w] == tail[t];
                assert(sorted[w + 1] == tail[t]);
            }
        }
        assert forall|a: int, b: int| 0 <= a < b < r.len() implies !lex_le(
            (#[trigger] r[b]).0,
            (#[trigger] r[a]).0,
        ) by {
            if a == 0 {
                assert(r[b] == tail[b - 1]);
            } else {
                assert(r[a] == tail[a - 1] && r[b] == tail[b - 1]);
            }
        }
        assert forall|x: (Seq<char>, Seq<char>)| #[trigger]
            r.contains(x) <==> (sorted.contains(x) || x == e) by {
            if r.contains(x) {
                let w = choose|w: int| 0 <= w < r.len() && r[w] == x;
                if w == 0 {
                    assert(sorted[0] == x);
                } else {
                    assert(tail[w - 1] == x);
                    assert(tail.contains(x));
                    if sorted.skip(1).contains(x) {
                        let v = choose|v: int| 0 <= v < sorted.skip(1).len() && sorted.skip(1)[v] == x;
                        assert(sorted[v + 1] == x);
                    }
                }
            }
            if sorted.contains(x) {
                let w = choose|w: int| 0 <= w < sorted.len() && sorted[w] == x;
                if w == 0 {
                    assert(r[0] == x);
                } else {
                    assert(sorted.skip(1)[w - 1] == x);
                    assert(tail.contains(x));
                    let v = choose|v: int| 0 <= v < tail.len() && tail[v] == x;
                    assert(r[v + 1] == x);
                }
            }
            if x == e {
                assert(tail.contains(x));
                let v = choose|v: int| 0 <= v < tail.len() && tail[v] == x;
                assert(r[v + 1] == x);
            }
        }
    }
}

/// Sorting a run of distinct labels yields a strictly sorted run of the same
/// entries.
proof fn lemma_sort_into_props(es: Seq<(Seq<char>, Seq<char>)>, i: int, acc: Seq<(Seq<char>, Seq<char>)>)
    requires
        0 <= i <= es.len(),
        distinct_labels(es),
        strictly_sorted(acc),
        // the accumulator holds exactly the entries seen so far
        forall|x: (Seq<char>, Seq<char>)|
            #[trigger] acc.contains(x) <==> es.take(i).contains(x),
        acc.len() == i,
    ensures
        strictly_sorted(sort_into(es, i, acc)),
        forall|x: (Seq<char>, Seq<char>)|
            #[trigger] sort_into(es, i, acc).contains(x) <==> es.contains(x),
        sort_into(es, i, acc).len() == es.len(),
    decreases es.len() - i,
{
    if i < es.len() {
        let e = es[i];
        assert forall|t: int| 0 <= t < acc.len() implies (#[trigger] acc[t]).0 != e.0 by {
            assert(acc.contains(acc[t]));
            assert(es.take(i).contains(acc[t]));
            let w = choose|w: int| 0 <= w < es.take(i).len() && es.take(i)[w] == acc[t];
            assert(es[w] == acc[t]);
        }
        lemma_insert_sorted_strict(e, acc);
        let acc2 = insert_sorted(e, acc);
        assert forall|x: (Seq<char>, Seq<char>)| #[trigger]
            acc2.contains(x) <==> es.take(i + 1).contains(x) by {
            if acc2.contains(x) {
                if acc.contains(x) {
                    let w = choose|w: int| 0 <= w < es.take(i).len() && es.take(i)[w] == x;
                    assert(es.take(i + 1)[w] == x);
                } else {
                    assert(x == e);
                    assert(es.take(i + 1)[i] == e);
                }
            }
            if es.take(i + 1).contains(x) {
                let w = choose|w: int|
                    0 <= w < es.take(i + 1).len() && #[trigger] es.take(i + 1)[w] == x;
                if w < i {
                    assert(es.take(i)[w] == x);
                } else {
                    assert(x == e);
                }
            }
        }
        lemma_sort_into_props(es, i + 1, acc2);
        assert forall|x: (Seq<char>, Seq<char>)| #[trigger]
            sort_into(es, i, acc).contains(x) <==> es.contains(x) by {}
    } else {
        assert(es.take(i) =~= es);
    }
}

/// The canonical entries of a list: pairwise distinct, strictly sorted, and
/// exactly the first occurrences.
proof fn lemma_canon_props(es: Seq<(Seq<char>, Seq<char>)>)
    ensures
        strictly_sorted(canon_entries(es)),
        distinct_labels(canon_entries(es)),
{
    let dd = dedup_from(es, 0, Seq::empty());
    lemma_dedup_labels(es, 0, Seq::empty());
    assert(forall|x: (Seq<char>, Seq<char>)|
        #[trigger] Seq::<(Seq<char>, Seq<char>)>::empty().contains(x) <==> dd.take(0).contains(x));
    lemma_sort_into_props(dd, 0, Seq::empty());
    let c = canon_entries(es);
    assert forall|a: int, b: int| 0 <= a < b < c.len() implies (#[trigger] c[a]).0 != (
    #[trigger] c[b]).0 by {
        if c[a].0 == c[b].0 {
            assert(c.contains(c[a]) && c.contains(c[b]));
            assert(dd.contains(c[a]) && dd.contains(c[b]));
            let wa = choose|w: int| 0 <= w < dd.len() && dd[w] == c[a];
            let wb = choose|w: int| 0 <= w < dd.len() && dd[w] == c[b];
            assert(!lex_le(c[b].0, c[a].0));
            lemma_lex_total(c[a].0, c[b].0);
            lemma_lex_antisym(c[a].0, c[b].0);
        }
    }
}

/// Deduplication leaves pairwise distinct labels, none of them seen before.
proof fn lemma_dedup_labels(es: Seq<(Seq<char>, Seq<char>)>, i: int, seen: Seq<Seq<char>>)
    requires
        0 <= i <= es.len(),
    ensures
        distinct_labels(dedup_from(es, i, seen)),
        forall|t: int|
            0 <= t < dedup_from(es, i, seen).len() ==> !seen.contains(
                (#[trigger] dedup_from(es, i, seen)[t]).0,
            ),
    decreases es.len() - i,
{
    if i < es.len() {
        if seen.contains(es[i as int].0) {
            lemma_dedup_labels(es, i + 1, seen);
        } else {
            lemma_dedup_labels(es, i + 1, seen.push(es[i as int].0));
            let rest = dedup_from(es, i + 1, seen.push(es[i as int].0));
            let r = seq![es[i as int]] + rest;
            assert forall|a: int, b: int| 0 <= a < b < r.len() implies (#[trigger] r[a]).0 != (
            #[trigger] r[b]).0 by {
                if a == 0 {
                    assert(r[b] == rest[b - 1]);
                    assert(!seen.push(es[i as int].0).contains(rest[b - 1].0));
                    assert(seen.push(es[i as int].0)[seen.len() as int] == es[i as int].0);
                } else {
                    assert(r[a] == rest[a - 1] && r[b] == rest[b - 1]);
                }
            }
            assert forall|t: int| 0 <= t < r.len() implies !seen.contains((#[trigger] r[t]).0) by {
                if t > 0 {
                    assert(r[t] == rest[t - 1]);
                    assert(!seen.push(es[i as int].0).contains(rest[t - 1].0));
                    if seen.contains(rest[t - 1].0) {
                        let w = choose|w: int| 0 <= w < seen.len() && seen[w] == rest[t - 1].0;
                        assert(seen.push(es[i as int].0)[w] == rest[t - 1].0);
                    }
                }
            }
        }
    }
}

/// Formatter idempotence at the entry level: the canonical order of a `deps`
/// list — first occurrences only, sorted by label — is a fixed point of
/// canonicalisation, so re-formatting an already canonical list of entries
/// changes nothing.
pub proof fn lemma_canon_entries_idempotent(es: Seq<(Seq<char>, Seq<char>)>)
    ensures
        canon_entries(canon_entries(es)) == canon_entries(es),
{
    let c = canon_entries(es);
    lemma_canon_props(es);
    assert forall|a: int| 0 <= a < c.len() implies !Seq::<Seq<char>>::empty().contains(
        (#[trigger] c[a]).0,
    ) by {}
    lemma_dedup_distinct(c, 0, Seq::empty());
    assert(c.skip(0) =~= c);
    assert(dedup_from(c, 0, Seq::empty()) == c);
    assert(c.take(0) =~= Seq::<(Seq<char>, Seq<char>)>::empty());
    lemma_sort_into_sorted(c, 0);
}

/// `ws_end` from 0 is pinned by its characterisation.
proof fn lemma_ws_end_unique(t: Seq<char>, r: int)
    requires
        0 <= r <= t.len(),
        forall|p: int| 0 <= p < r ==> is_ws(#[trigger] t[p]),
        r < t.len() ==> !is_ws(t[r]),
    ensures
        ws_end(t, 0) == r,
{
    lemma_ws_end_steps(t, 0, r);
}

proof fn lemma_ws_end_steps(t: Seq<char>, i: int, r: int)
    requires
        0 <= i <= r <= t.len(),
        forall|p: int| i <= p < r ==> is_ws(#[trigger] t[p]),
        r < t.len() ==> !is_ws(t[r]),
    ensures
        ws_end(t, i) == r,
    decreases r - i,
{
    if i < r {
        lemma_ws_end_steps(t, i + 1, r);
    }
}

/// `hash_pos` from 0 is pinned by its characterisation.
proof fn lemma_hash_pos_unique(t: Seq<char>, r: int)
    requires
        0 <= r <= t.len(),
        forall|p: int| 0 <= p < r ==> #[trigger] t[p] != '#',
        r < t.len() ==> t[r] == '#',
    ensures
        hash_pos(t, 0) == r,
{
    lemma_hash_pos_steps(t, 0, r);
}

proof fn lemma_hash_pos_steps(t: Seq<char>, i: int, r: int)
    requires
        0 <= i <= r <= t.len(),
        forall|p: int| i <= p < r ==> #[trigger] t[p] != '#',
        r < t.len() ==> t[r] == '#',
    ensures
        hash_pos(t, i) == r,
    decreases r - i,
{
    if i < r {
        lemma_hash_pos_steps(t, i + 1, r);
    }
}

/// One canonical output line re-reads as the entry it was written from: the
/// per-line heart of formatter idempotence. It asks only what holds of every
/// entry the parser itself produces — a label free of `#`, and a comment that
/// is empty or starts with `#` and carries no trailing blank.
#[verifier::rlimit(80)]
pub proof fn lemma_entry_line_round_trip(name: Seq<char>, comment: Seq<char>)
    requires
        forall|p: int| 0 <= p < name.len() ==> #[trigger] name[p] != '#',
        comment.len() > 0 ==> comment[0] == '#' && !is_ws(comment.last()),
    ensures
        parse_entry(
            "        \""@ + name + "\","@ + (if comment.len() > 0 {
                "  "@ + comment
            } else {
                Seq::<char>::empty()
            }),
        ) == Some((name, comment)),
{
    reveal_strlit("        \"");
    reveal_strlit("\",");
    reveal_strlit("  ");
    let lit1 = "        \""@;
    let lit2 = "\","@;
    let lit3 = "  "@;
    assert(lit1.len() == 9 && lit2.len() == 2 && lit3.len() == 2);
    let n = name.len() as int;
    let line = lit1 + name + lit2 + (if comment.len() > 0 {
        lit3 + comment
    } else {
        Seq::<char>::empty()
    });
    let h = if comment.len() > 0 {
        n + 13
    } else {
        n + 11
    };
    assert(line.len() == h + comment.len());
    assert forall|p: int| 0 <= p < h implies #[trigger] line[p] != '#' by {
        if p < 9 {
            assert(line[p] == lit1[p]);
        } else if p < 9 + n {
            assert(line[p] == name[p - 9]);
        } else if p < 11 + n {
            assert(line[p] == lit2[p - 9 - n]);
        } else {
            assert(line[p] == lit3[p - 11 - n]);
        }
    }
    if comment.len() > 0 {
        assert(line[h] == comment[0]);
    }
    lemma_hash_pos_unique(line, h);
    // the comment half
    assert(line.skip(h) =~= comment);
    if comment.len() > 0 {
        assert(trim_right(comment) =~= comment);
    } else {
        assert(trim_right(comment) =~= comment);
    }
    // the code half
    let code0 = line.take(h);
    let body = seq!['"'] + name + seq!['"'];
    assert(code0 =~= lit1 + name + lit2 + (if comment.len() > 0 {
        lit3
    } else {
        Seq::<char>::empty()
    }));
    assert forall|p: int| 0 <= p < 8 implies is_ws(#[trigger] code0[p]) by {
        assert(code0[p] == lit1[p]);
    }
    assert(!is_ws(code0[8]));
    lemma_ws_end_unique(code0, 8);
    let t1 = trim_left(code0);
    assert(t1 =~= body + seq![','] + (if comment.len() > 0 {
        lit3
    } else {
        Seq::<char>::empty()
    }));
    let t2 = if comment.len() > 0 {
        assert(is_ws(t1.last()));
        assert(t1.drop_last() =~= body + seq![','] + seq![' ']);
        assert(is_ws(t1.drop_last().last()));
        assert(t1.drop_last().drop_last() =~= body + seq![',']);
        assert(!is_ws((body + seq![',']).last()));
        assert(content_end(body + seq![',']) == (body + seq![',']).len());
        assert(content_end(t1.drop_last()) == (body + seq![',']).len());
        assert(content_end(t1) == (body + seq![',']).len());
        let t2 = trim_right(t1);
        assert(t2 =~= body + seq![',']);
        t2
    } else {
        assert(!is_ws(t1.last()));
        let t2 = trim_right(t1);
        assert(t2 =~= body + seq![',']);
        t2
    };
    // drop the trailing comma
    assert(t2.last() == ',');
    assert(t2.drop_last() =~= body);
    assert(body.last() == '"');
    assert(comma_end(body) == body.len());
    assert(comma_end(t2) == body.len());
    let t3 = strip_commas(t2);
    assert(t3 =~= body);
    // a second trim changes nothing: quotes shield the label
    assert(!is_ws(t3[0]));
    lemma_ws_end_unique(t3, 0);
    assert(trim_left(t3) =~= t3);
    assert(!is_ws(t3.last()));
    assert(trim_right(trim_left(t3)) =~= t3);
    let code = trim(strip_commas(trim(code0)));
    assert(code =~= body);
    assert(code[0] == '"' && code.last() == '"' && code.len() >= 2);
    assert(code.subrange(1, code.len() - 1) =~= name);
    assert(parse_entry(line) == Some((name, comment)));
}

/// `line_end` is pinned by its characterisation.
proof fn lemma_line_end_unique(t: Seq<char>, i: int, r: int)
    requires
        0 <= i <= r <= t.len(),
        forall|p: int| i <= p < r ==> #[trigger] t[p] != '\n',
        r < t.len() ==> t[r] == '\n',
    ensures
        line_end(t, i) == r,
    decreases r - i,
{
    if i < r {
        lemma_line_end_unique(t, i + 1, r);
    }
}

/// Entries as the parser itself produces them: labels without `#` or
/// newlines, and comments that are empty or `#`-headed, newline-free and
/// right-trimmed. Labels free of `"` and `\` keep the list scanner aligned.
pub open spec fn wf_entry(e: (Seq<char>, Seq<char>)) -> bool {
    &&& (forall|p: int|
        0 <= p < e.0.len() ==> #[trigger] e.0[p] != '#' && e.0[p] != '\n' && e.0[p] != '"'
            && e.0[p] != '\\')
    &&& (e.1.len() > 0 ==> e.1[0] == '#' && !is_ws(e.1.last()))
    &&& (forall|p: int| 0 <= p < e.1.len() ==> #[trigger] e.1[p] != '\n')
}

pub open spec fn wf_entries(es: Seq<(Seq<char>, Seq<char>)>) -> bool {
    forall|i: int| 0 <= i < es.len() ==> wf_entry(#[trigger] es[i])
}

/// The text of one emitted line, without its newline.
pub open spec fn entry_line(e: (Seq<char>, Seq<char>)) -> Seq<char> {
    "        \""@ + e.0 + "\","@ + (if e.1.len() > 0 {
        "  "@ + e.1
    } else {
        Seq::<char>::empty()
    })
}

/// The emitted lines of `es[i..]` re-read as exactly `es[i..]`: the parse
/// side of formatter idempotence, one line per entry.
pub proof fn lemma_parse_lines_of_emitted(
    s: Seq<char>,
    pos: int,
    end: int,
    es: Seq<(Seq<char>, Seq<char>)>,
    i: int,
)
    requires
        0 <= pos <= end <= s.len(),
        0 <= i <= es.len(),
        wf_entries(es),
        s.subrange(pos, end) == emit_lines(es, i) + "    "@,
    ensures
        parse_lines(s, pos, end) == es.skip(i),
    decreases es.len() - i,
{
    reveal_strlit("        \"");
    reveal_strlit("\",");
    reveal_strlit("  ");
    reveal_strlit("\n");
    reveal_strlit("    ");
    let w = s.subrange(pos, end);
    if i == es.len() {
        assert(emit_lines(es, i) =~= Seq::<char>::empty());
        assert(w =~= "    "@);
        assert(end - pos == 4);
        assert forall|p: int| pos <= p < end implies #[trigger] s[p] != '\n' by {
            assert(s[p] == w[p - pos]);
        }
        lemma_line_end_bounds(s, pos);
        if line_end(s, pos) < end {
            lemma_line_end_is_newline(s, pos);
            assert(false);
        }
        assert(line_end(s, pos) >= end);
        let line = s.subrange(pos, end);
        assert(parse_entry(line) is None) by {
            let h = hash_pos(line, 0);
            lemma_hash_pos_unique(line, 4);
            assert(line.take(4) =~= line);
            assert forall|p: int| 0 <= p < 4 implies is_ws(#[trigger] line[p]) by {}
            lemma_ws_end_unique(line, 4);
            assert(trim_left(line) =~= Seq::<char>::empty());
            assert(content_end(Seq::<char>::empty()) == 0);
            assert(trim(line) =~= Seq::<char>::empty());
            assert(strip_commas(Seq::<char>::empty()) =~= Seq::<char>::empty());
            assert(trim(strip_commas(trim(line.take(h)))).len() == 0);
        }
        assert(parse_lines(s, end, end) =~= Seq::<(Seq<char>, Seq<char>)>::empty());
        assert(parse_lines(s, pos, end) =~= es.skip(i));
    } else {
        let e = es[i];
        let line = entry_line(e);
        let ll = line.len() as int;
        assert(emit_lines(es, i) == line + "\n"@ + emit_lines(es, i + 1));
        assert(w.len() == ll + 1 + emit_lines(es, i + 1).len() + 4);
        assert forall|p: int| 0 <= p < ll implies w[p] == line[p] by {}
        // the first newline of the remainder ends the current line
        assert forall|p: int| pos <= p < pos + ll implies #[trigger] s[p] != '\n' by {
            assert(s[p] == w[p - pos]);
            assert(w[p - pos] == line[p - pos]);
            lemma_entry_line_no_newline(e, p - pos);
        }
        assert(s[pos + ll] == w[ll] == '\n');
        lemma_line_end_unique(s, pos, pos + ll);
        let stop = pos + ll;
        assert(s.subrange(pos, stop) =~= line);
        lemma_entry_line_round_trip(e.0, e.1);
        assert(parse_entry(s.subrange(pos, stop)) == Some((e.0, e.1)));
        assert((e.0, e.1) == e);
        let next = stop + 1;
        assert(w =~= line + "\n"@ + (emit_lines(es, i + 1) + "    "@));
        assert forall|q: int| 0 <= q < end - next implies #[trigger] s.subrange(next, end)[q]
            == (emit_lines(es, i + 1) + "    "@)[q] by {
            assert(s.subrange(next, end)[q] == s[next + q]);
            assert(s[next + q] == w[next - pos + q]);
            assert(w[next - pos + q] == (line + "\n"@ + (emit_lines(es, i + 1) + "    "@))[ll + 1
                + q]);
            assert((line + "\n"@ + (emit_lines(es, i + 1) + "    "@))[ll + 1 + q] == (emit_lines(
                es,
                i + 1,
            ) + "    "@)[q]);
        }
        assert(s.subrange(next, end).len() == emit_lines(es, i + 1).len() + 4);
        assert(s.subrange(next, end) =~= emit_lines(es, i + 1) + "    "@);
        lemma_parse_lines_of_emitted(s, next, end, es, i + 1);
        assert(parse_lines(s, pos, end) =~= seq![e] + es.skip(i + 1));
        assert(seq![e] + es.skip(i + 1) =~= es.skip(i));
    }
}

/// Only `line_end`'s own position may carry the newline it stops on.
proof fn lemma_line_end_is_newline(s: Seq<char>, i: int)
    requires
        0 <= i <= s.len(),
        line_end(s, i) < s.len(),
    ensures
        s[line_end(s, i)] == '\n',
        line_end(s, i) >= i,
    decreases s.len() - i,
{
    if i < s.len() && s[i] != '\n' {
        lemma_line_end_is_newline(s, i + 1);
    }
}

/// No character of an emitted line is a newline.
proof fn lemma_entry_line_no_newline(e: (Seq<char>, Seq<char>), p: int)
    requires
        wf_entry(e),
        0 <= p < entry_line(e).len(),
    ensures
        entry_line(e)[p] != '\n',
{
    reveal_strlit("        \"");
    reveal_strlit("\",");
    reveal_strlit("  ");
    let n = e.0.len() as int;
    let line = entry_line(e);
    if p < 9 {
        assert(line[p] == "        \""@[p]);
    } else if p < 9 + n {
        assert(line[p] == e.0[p - 9]);
    } else if p < 11 + n {
        assert(line[p] == "\","@[p - 9 - n]);
    } else if p < 13 + n {
        assert(line[p] == "  "@[p - 11 - n]);
    } else {
        assert(line[p] == e.1[p - 13 - n]);
    }
}

/// Inside a string, the scanner passes over anything but quotes and
/// backslashes.
proof fn lemma_scan_str_skips(s: Seq<char>, a: int, b: int, depth: int)
    requires
        0 <= a <= b <= s.len(),
        forall|p: int| a <= p < b ==> #[trigger] s[p] != '"' && s[p] != '\\',
    ensures
        list_end(s, a, depth, true, false) == list_end(s, b, depth, true, false),
    decreases b - a,
{
    if a < b {
        lemma_scan_str_skips(s, a + 1, b, depth);
    }
}

/// Inside a comment, the scanner passes over anything but newlines.
proof fn lemma_scan_cm_skips(s: Seq<char>, a: int, b: int, depth: int)
    requires
        0 <= a <= b <= s.len(),
        forall|p: int| a <= p < b ==> #[trigger] s[p] != '\n',
    ensures
        list_end(s, a, depth, false, true) == list_end(s, b, depth, false, true),
    decreases b - a,
{
    if a < b {
        lemma_scan_cm_skips(s, a + 1, b, depth);
    }
}

/// In plain text, the scanner passes over anything that opens no string,
/// comment or bracket.
proof fn lemma_scan_plain_skips(s: Seq<char>, a: int, b: int, depth: int)
    requires
        0 <= a <= b <= s.len(),
        forall|p: int|
            a <= p < b ==> #[trigger] s[p] != '"' && s[p] != '#' && s[p] != '[' && s[p] != ']',
    ensures
        list_end(s, a, depth, false, false) == list_end(s, b, depth, false, false),
    decreases b - a,
{
    if a < b {
        lemma_scan_plain_skips(s, a + 1, b, depth);
    }
}

/// The scanner walks one emitted line onto the next: the quotes around the
/// label and the comment after the comma keep it aligned, and no bracket is
/// touched.
proof fn lemma_scan_entry_line(s: Seq<char>, pos: int, e: (Seq<char>, Seq<char>), depth: int)
    requires
        wf_entry(e),
        0 <= pos,
        pos + entry_line(e).len() + 1 <= s.len(),
        s.subrange(pos, pos + entry_line(e).len() + 1) == entry_line(e) + "\n"@,
    ensures
        list_end(s, pos, depth, false, false) == list_end(
            s,
            pos + entry_line(e).len() + 1,
            depth,
            false,
            false,
        ),
{
    reveal_strlit("        \"");
    reveal_strlit("\",");
    reveal_strlit("  ");
    reveal_strlit("\n");
    let line = entry_line(e);
    let n = e.0.len() as int;
    let ll = line.len() as int;
    let w = s.subrange(pos, pos + ll + 1);
    assert forall|p: int| pos <= p < pos + ll implies #[trigger] s[p] == line[p - pos] by {
        assert(s[p] == w[p - pos]);
        assert(w[p - pos] == (line + "\n"@)[p - pos]);
    }
    assert(s[pos + ll] == w[ll] == '\n');
    // eight blanks
    assert forall|p: int| pos <= p < pos + 8 implies #[trigger] s[p] != '"' && s[p] != '#' && s[p]
        != '[' && s[p] != ']' by {
        assert(s[p] == line[p - pos]);
        assert(line[p - pos] == "        \""@[p - pos]);
    }
    lemma_scan_plain_skips(s, pos, pos + 8, depth);
    // the opening quote
    assert(s[pos + 8] == line[8]);
    assert(line[8] == '"');
    assert(list_end(s, pos + 8, depth, false, false) == list_end(s, pos + 9, depth, true, false));
    // the label, inside the string
    assert forall|p: int| pos + 9 <= p < pos + 9 + n implies #[trigger] s[p] != '"' && s[p]
        != '\\' by {
        assert(s[p] == line[p - pos]);
        assert(line[p - pos] == e.0[p - pos - 9]);
    }
    lemma_scan_str_skips(s, pos + 9, pos + 9 + n, depth);
    // the closing quote
    assert(s[pos + 9 + n] == line[9 + n]);
    assert(line[9 + n] == '"');
    assert(list_end(s, pos + 9 + n, depth, true, false) == list_end(
        s,
        pos + 10 + n,
        depth,
        false,
        false,
    ));
    // the comma
    assert(s[pos + 10 + n] == line[10 + n]);
    assert(line[10 + n] == ',');
    assert(list_end(s, pos + 10 + n, depth, false, false) == list_end(
        s,
        pos + 11 + n,
        depth,
        false,
        false,
    ));
    if e.1.len() > 0 {
        let m = e.1.len() as int;
        // two blanks
        assert forall|p: int| pos + 11 + n <= p < pos + 13 + n implies #[trigger] s[p] != '"'
            && s[p] != '#' && s[p] != '[' && s[p] != ']' by {
            assert(s[p] == line[p - pos]);
            assert(line[p - pos] == "  "@[p - pos - 11 - n]);
        }
        lemma_scan_plain_skips(s, pos + 11 + n, pos + 13 + n, depth);
        // the comment, to the end of the line
        assert(s[pos + 13 + n] == line[13 + n]);
        assert(line[13 + n] == e.1[0]);
        assert(s[pos + 13 + n] == '#');
        assert(list_end(s, pos + 13 + n, depth, false, false) == list_end(
            s,
            pos + 14 + n,
            depth,
            false,
            true,
        ));
        assert forall|p: int| pos + 14 + n <= p < pos + 13 + n + m implies #[trigger] s[p]
            != '\n' by {
            assert(s[p] == line[p - pos]);
            assert(line[p - pos] == e.1[p - pos - 13 - n]);
        }
        lemma_scan_cm_skips(s, pos + 14 + n, pos + 13 + n + m, depth);
        // the newline leaves the comment
        assert(ll == 13 + n + m);
        assert(list_end(s, pos + ll, depth, false, true) == list_end(
            s,
            pos + ll + 1,
            depth,
            false,
            false,
        ));
    } else {
        assert(ll == 11 + n);
        assert(list_end(s, pos + ll, depth, false, false) == list_end(
            s,
            pos + ll + 1,
            depth,
            false,
            false,
        ));
    }
}

/// The scanner runs through the emitted lines and closes on the final `]`.
proof fn lemma_scan_emitted_lines(
    s: Seq<char>,
    pos: int,
    end: int,
    es: Seq<(Seq<char>, Seq<char>)>,
    i: int,
)
    requires
        0 <= pos <= end <= s.len(),
        0 <= i <= es.len(),
        wf_entries(es),
        s.subrange(pos, end) == emit_lines(es, i) + "    ]"@,
    ensures
        list_end(s, pos, 1, false, false) == Some(end),
    decreases es.len() - i,
{
    reveal_strlit("    ]");
    reveal_strlit("\n");
    let w = s.subrange(pos, end);
    if i == es.len() {
        assert(emit_lines(es, i) =~= Seq::<(char)>::empty());
        assert(w =~= "    ]"@);
        assert(end - pos == 5);
        assert forall|p: int| pos <= p < pos + 4 implies #[trigger] s[p] != '"' && s[p] != '#'
            && s[p] != '[' && s[p] != ']' by {
            assert(s[p] == w[p - pos]);
        }
        lemma_scan_plain_skips(s, pos, pos + 4, 1);
        assert(s[pos + 4] == w[4] == ']');
        assert(list_end(s, pos + 4, 1, false, false) == Some(pos + 5));
    } else {
        let e = es[i];
        let line = entry_line(e);
        let ll = line.len() as int;
        assert(emit_lines(es, i) == line + "\n"@ + emit_lines(es, i + 1));
        assert(w.len() == ll + 1 + emit_lines(es, i + 1).len() + 5);
        assert(w =~= line + "\n"@ + (emit_lines(es, i + 1) + "    ]"@));
        assert forall|q: int| 0 <= q < ll + 1 implies #[trigger] s.subrange(pos, pos + ll + 1)[q]
            == (line + "\n"@)[q] by {
            assert(s.subrange(pos, pos + ll + 1)[q] == s[pos + q]);
            assert(s[pos + q] == w[q]);
            assert(w[q] == (line + "\n"@ + (emit_lines(es, i + 1) + "    ]"@))[q]);
        }
        assert(s.subrange(pos, pos + ll + 1) =~= line + "\n"@);
        lemma_scan_entry_line(s, pos, e, 1);
        let next = pos + ll + 1;
        assert(w =~= line + "\n"@ + (emit_lines(es, i + 1) + "    ]"@));
        assert forall|q: int| 0 <= q < end - next implies #[trigger] s.subrange(next, end)[q]
            == (emit_lines(es, i + 1) + "    ]"@)[q] by {
            assert(s.subrange(next, end)[q] == s[next + q]);
            assert(s[next + q] == w[next - pos + q]);
            assert(w[next - pos + q] == (line + "\n"@ + (emit_lines(es, i + 1) + "    ]"@))[ll + 1
                + q]);
            assert((line + "\n"@ + (emit_lines(es, i + 1) + "    ]"@))[ll + 1 + q] == (emit_lines(
                es,
                i + 1,
            ) + "    ]"@)[q]);
        }
        assert(s.subrange(next, end).len() == emit_lines(es, i + 1).len() + 5);
        assert(s.subrange(next, end) =~= emit_lines(es, i + 1) + "    ]"@);
        lemma_scan_emitted_lines(s, next, end, es, i + 1);
    }
}

/// Deduplication only ever keeps entries of the run itself.
proof fn lemma_dedup_subset(es: Seq<(Seq<char>, Seq<char>)>, i: int, seen: Seq<Seq<char>>)
    requires
        0 <= i <= es.len(),
    ensures
        forall|v: int|
            0 <= v < dedup_from(es, i, seen).len() ==> es.contains(
                #[trigger] dedup_from(es, i, seen)[v],
            ),
    decreases es.len() - i,
{
    if i < es.len() {
        if seen.contains(es[i as int].0) {
            lemma_dedup_subset(es, i + 1, seen);
            assert(dedup_from(es, i, seen) == dedup_from(es, i + 1, seen));
            assert forall|v: int| 0 <= v < dedup_from(es, i, seen).len() implies es.contains(
                #[trigger] dedup_from(es, i, seen)[v],
            ) by {
                assert(dedup_from(es, i, seen)[v] == dedup_from(es, i + 1, seen)[v]);
            }
        } else {
            lemma_dedup_subset(es, i + 1, seen.push(es[i as int].0));
            let rest = dedup_from(es, i + 1, seen.push(es[i as int].0));
            assert(dedup_from(es, i, seen) == seq![es[i as int]] + rest);
            assert forall|v: int| 0 <= v < dedup_from(es, i, seen).len() implies es.contains(
                #[trigger] dedup_from(es, i, seen)[v],
            ) by {
                if v == 0 {
                    assert(dedup_from(es, i, seen)[0] == es[i as int]);
                    assert(es.contains(es[i as int]));
                } else {
                    assert(dedup_from(es, i, seen)[v] == rest[v - 1]);
                }
            }
        }
    }
}

/// The canonical entries are entries of the original run, so they are as
/// well-formed as it was.
proof fn lemma_canon_wf(es: Seq<(Seq<char>, Seq<char>)>)
    requires
        wf_entries(es),
    ensures
        wf_entries(canon_entries(es)),
{
    let dd = dedup_from(es, 0, Seq::empty());
    lemma_dedup_labels(es, 0, Seq::empty());
    lemma_dedup_subset(es, 0, Seq::empty());
    assert(forall|x: (Seq<char>, Seq<char>)|
        #[trigger] Seq::<(Seq<char>, Seq<char>)>::empty().contains(x) <==> dd.take(0).contains(x));
    lemma_sort_into_props(dd, 0, Seq::empty());
    let cs = canon_entries(es);
    assert forall|x: int| 0 <= x < cs.len() implies wf_entry(#[trigger] cs[x]) by {
        assert(cs.contains(cs[x]));
        assert(dd.contains(cs[x]));
        let u = choose|u: int| 0 <= u < dd.len() && dd[u] == cs[x];
        assert(es.contains(dd[u]));
        let v = choose|v: int| 0 <= v < es.len() && es[v] == cs[x];
        assert(wf_entry(es[v]));
    }
}

/// An empty line yields no entry.
proof fn lemma_parse_entry_empty()
    ensures
        parse_entry(Seq::<char>::empty()) is None,
{
    let line = Seq::<char>::empty();
    assert(hash_pos(line, 0) == 0);
    assert(line.take(0) =~= line);
    assert(ws_end(line, 0) == 0);
    assert(trim_left(line) =~= line);
    assert(content_end(line) == 0);
    assert(trim_right(line) =~= line);
    assert(strip_commas(trim(line)) =~= line);
    assert(trim(strip_commas(trim(line))).len() == 0);
}

/// Formatter idempotence at the attribute level: the canonical text written
/// for a `deps` attribute scans as one region spanning exactly itself, and
/// re-canonicalising that region reproduces the text byte for byte. Holds of
/// entries as the parser produces them, with labels free of `"` and `\`,
/// which would re-open the quoting the emitter relies on.
pub proof fn lemma_emit_region_fixed_point(es: Seq<(Seq<char>, Seq<char>)>)
    requires
        wf_entries(es),
    ensures
        ({
            let w = emit(canon_entries(es));
            &&& deps_region_at(w, 0) == Some((7int, w.len() as int))
            &&& canon_region(w, 7, w.len() as int) == w
        }),
{
    lemma_canon_wf(es);
    lemma_canon_entries_idempotent(es);
    let cs = canon_entries(es);
    let w = emit(cs);
    if cs.len() == 0 {
        reveal_strlit("deps = []");
        assert(w == "deps = []"@);
        assert(w.len() == 9);
        assert(w[0] == 'd' && w[1] == 'e' && w[2] == 'p' && w[3] == 's');
        assert(is_ws(w[4]) && !is_ws(w[5]));
        lemma_ws_end_steps(w, 4, 5);
        assert(w[5] == '=');
        assert(!is_ws(w[6]) == false && !is_ws(w[7]));
        lemma_ws_end_steps(w, 6, 7);
        assert(w[7] == '[');
        assert(w[8] == ']');
        assert(list_end(w, 8, 1, false, false) == Some(9int));
        assert(deps_region_at(w, 0) == Some((7int, 9int)));
        assert(parse_lines(w, 8, 8) =~= Seq::<(Seq<char>, Seq<char>)>::empty());
        assert(dedup_from(Seq::<(Seq<char>, Seq<char>)>::empty(), 0, Seq::<Seq<char>>::empty())
            =~= Seq::<(Seq<char>, Seq<char>)>::empty());
        assert(canon_entries(parse_lines(w, 8, 8)) =~= Seq::<(Seq<char>, Seq<char>)>::empty());
        assert(canon_region(w, 7, 9) == w);
    } else {
        reveal_strlit("deps = [\n");
        reveal_strlit("    ]");
        reveal_strlit("    ");
        reveal_strlit("\n");
        let hd = "deps = [\n"@;
        let lines = emit_lines(cs, 0);
        assert(w == hd + lines + "    ]"@);
        assert(hd.len() == 9);
        let len = w.len() as int;
        assert(len == 9 + lines.len() + 5);
        assert forall|p: int| 0 <= p < 9 implies #[trigger] w[p] == hd[p] by {}
        assert(w[0] == 'd' && w[1] == 'e' && w[2] == 'p' && w[3] == 's');
        assert(is_ws(w[4]) && !is_ws(w[5]));
        lemma_ws_end_steps(w, 4, 5);
        assert(w[5] == '=');
        assert(!is_ws(w[7]));
        lemma_ws_end_steps(w, 6, 7);
        assert(w[7] == '[');
        assert(w[8] == '\n');
        // the scan: past the newline, down the lines, onto the final `]`
        lemma_scan_plain_skips(w, 8, 9, 1);
        assert forall|q: int| 0 <= q < len - 9 implies #[trigger] w.subrange(9, len)[q] == (lines
            + "    ]"@)[q] by {
            assert(w.subrange(9, len)[q] == w[9 + q]);
            assert(w[9 + q] == (hd + lines + "    ]"@)[9 + q]);
            assert((hd + lines + "    ]"@)[9 + q] == (lines + "    ]"@)[q]);
        }
        assert(w.subrange(9, len) =~= lines + "    ]"@);
        lemma_scan_emitted_lines(w, 9, len, cs, 0);
        assert(list_end(w, 8, 1, false, false) == Some(len));
        assert(deps_region_at(w, 0) == Some((7int, len)));
        // the re-parse: one blank first line, then the entries
        assert(w[8] == '\n');
        lemma_line_end_unique(w, 8, 8);
        assert(w.subrange(8, 8) =~= Seq::<char>::empty());
        lemma_parse_entry_empty();
        assert forall|q: int| 0 <= q < len - 1 - 9 implies #[trigger] w.subrange(9, len - 1)[q]
            == (lines + "    "@)[q] by {
            assert(w.subrange(9, len - 1)[q] == w[9 + q]);
            assert(w[9 + q] == (hd + lines + "    ]"@)[9 + q]);
            assert((hd + lines + "    ]"@)[9 + q] == (lines + "    ]"@)[q]);
            if q < lines.len() {
                assert((lines + "    ]"@)[q] == (lines + "    "@)[q]);
            } else {
                assert((lines + "    ]"@)[q] == "    ]"@[q - lines.len()]);
                assert((lines + "    "@)[q] == "    "@[q - lines.len()]);
            }
        }
        assert(w.subrange(9, len - 1).len() == lines.len() + 4);
        assert(w.subrange(9, len - 1) =~= lines + "    "@);
        lemma_parse_lines_of_emitted(w, 9, len - 1, cs, 0);
        assert(parse_lines(w, 9, len - 1) == cs.skip(0));
        assert(cs.skip(0) =~= cs);
        assert(parse_lines(w, 8, len - 1) == cs) by {
            assert(8 < len - 1);
            assert(line_end(w, 8) == 8);
            assert(parse_entry(w.subrange(8, 8)) is None);
        }
        assert(canon_region(w, 7, len) == emit(canon_entries(cs)));
        assert(canon_entries(cs) == cs);
    }
}

} // verus!
