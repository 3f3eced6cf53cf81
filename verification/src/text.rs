//! Positions in document text. A position is a line number and a character
//! offset on that line; lines are split at `\n`, offsets count characters. A
//! position past the end of its line, or a line past the end of the document,
//! is clamped — the conversions below are total.
use vstd::prelude::*;

verus! {

/// The character index at which line `l` starts; the end of `s` for lines
/// past the last one.
pub open spec fn line_start(s: Seq<char>, l: int) -> int
    decreases l,
{
    if l <= 0 {
        0
    } else {
        let p = line_start(s, l - 1);
        let e = crate::format::line_end(s, p);
        if 0 <= e && e < s.len() {
            e + 1
        } else {
            s.len() as int
        }
    }
}

/// The character index of position `(l, c)`, clamped to its line.
pub open spec fn pos_index(s: Seq<char>, l: int, c: int) -> int {
    let st = line_start(s, l);
    let e = crate::format::line_end(s, st);
    if c <= e - st {
        st + c
    } else {
        e
    }
}

pub proof fn lemma_line_start_bounds(s: Seq<char>, l: int)
    ensures
        0 <= line_start(s, l) <= s.len(),
    decreases l,
{
    if l > 0 {
        lemma_line_start_bounds(s, l - 1);
    }
}

/// `line_end` never runs backwards.
proof fn lemma_line_end_lo(s: Seq<char>, i: int)
    requires
        0 <= i <= s.len(),
    ensures
        i <= crate::format::line_end(s, i) <= s.len(),
    decreases s.len() - i,
{
    if i < s.len() && s[i] != '\n' {
        lemma_line_end_lo(s, i + 1);
    }
}

/// Turn a protocol position into a character index of `s`.
#[verifier::loop_isolation(false)]
pub(crate) fn exec_pos_index(s: &Vec<char>, line: u32, character: u32) -> (r: usize)
    ensures
        r == pos_index(s@, line as int, character as int),
        r <= s@.len(),
{
    let mut st: usize = 0;
    let mut l: u32 = 0;
    proof {
        lemma_line_start_bounds(s@, line as int);
    }
    while l < line
        invariant
            l <= line,
            st == line_start(s@, l as int),
            st <= s@.len(),
        decreases line - l,
    {
        let e = crate::format::exec_line_end(s, st);
        if e < s.len() {
            st = e + 1;
        } else {
            st = s.len();
        }
        l = l + 1;
    }
    let e = crate::format::exec_line_end(s, st);
    proof {
        lemma_line_end_lo(s@, st as int);
    }
    if (character as usize) <= e - st {
        st + (character as usize)
    } else {
        e
    }
}

/// The text of line `line` up to (and excluding) character `character`:
/// what the completion engine scans for a trigger.
pub fn line_prefix(text: &str, line: u32, character: u32) -> (r: String)
    ensures
        r@ == text@.subrange(
            line_start(text@, line as int),
            pos_index(text@, line as int, character as int),
        ),
{
    let cs = crate::format::str_to_chars(text);
    let idx = exec_pos_index(&cs, line, character);
    let mut st: usize = 0;
    let mut l: u32 = 0;
    proof {
        lemma_line_start_bounds(cs@, line as int);
    }
    while l < line
        invariant
            l <= line,
            st == line_start(cs@, l as int),
            st <= cs@.len(),
        decreases line - l,
    {
        let e = crate::format::exec_line_end(&cs, st);
        if e < cs.len() {
            st = e + 1;
        } else {
            st = cs.len();
        }
        l = l + 1;
    }
    proof {
        lemma_line_end_lo(cs@, st as int);
    }
    let mut out = String::new();
    let mut i = st;
    while i < idx
        invariant
            st <= i,
            i <= idx || i == st,
            idx <= cs@.len(),
            out@ == cs@.subrange(st as int, i as int),
        decreases idx - i,
    {
        out.push(cs[i]);
        proof {
            assert(cs@.subrange(st as int, i + 1) =~= cs@.subrange(st as int, i as int).push(
                cs@[i as int],
            ));
        }
        i = i + 1;
    }
    out
}

/// Replace the span between two positions with `new_text`, as an incremental
/// document edit does. A span whose end lies before its start is treated as
/// empty.
pub fn apply_content_change(
    text: &str,
    start_line: u32,
    start_character: u32,
    end_line: u32,
    end_character: u32,
    new_text: &str,
) -> (r: String)
    ensures
        ({
            let i1 = pos_index(text@, start_line as int, start_character as int);
            let i2 = pos_index(text@, end_line as int, end_character as int);
            let j = if i2 < i1 {
                i1
            } else {
                i2
            };
            r@ == text@.take(i1) + new_text@ + text@.skip(j)
        }),
{
    let cs = crate::format::str_to_chars(text);
    let i1 = exec_pos_index(&cs, start_line, start_character);
    let i2 = exec_pos_index(&cs, end_line, end_character);
    let j = if i2 < i1 {
        i1
    } else {
        i2
    };
    let mut out = String::new();
    let mut i: usize = 0;
    while i < i1
        invariant
            i <= i1 <= cs@.len(),
            out@ == cs@.subrange(0, i as int),
        decreases i1 - i,
    {
        out.push(cs[i]);
        proof {
            assert(cs@.subrange(0, i + 1) =~= cs@.subrange(0, i as int).push(cs@[i as int]));
        }
        i = i + 1;
    }
    proof {
        assert(cs@.subrange(0, i1 as int) =~= cs@.take(i1 as int));
    }
    out.append(new_text);
    let ghost mid = out@;
    let mut k = j;
    while k < cs.len()
        invariant
            j <= k <= cs@.len(),
            out@ == mid + cs@.subrange(j as int, k as int),
        decreases cs@.len() - k,
    {
        out.push(cs[k]);
        proof {
            assert(cs@.subrange(j as int, k + 1) =~= cs@.subrange(j as int, k as int).push(
                cs@[k as int],
            ));
        }
        k = k + 1;
    }
    proof {
        assert(cs@.subrange(j as int, cs@.len() as int) =~= cs@.skip(j as int));
        assert(out@ =~= cs@.take(i1 as int) + new_text@ + cs@.skip(j as int));
    }
    out
}

/// Whether the character at `idx` lies strictly between the brackets of some
/// `deps = [ ... ]` attribute, scanning from `i` as the formatter scans.
pub open spec fn in_deps_from(s: Seq<char>, i: int, idx: int) -> bool
    decreases s.len() - i,
{
    if i < 0 || i >= s.len() {
        false
    } else if s[i] == '"' {
        let e = crate::format::str_end(s, i + 1);
        if i < e <= s.len() {
            in_deps_from(s, e, idx)
        } else {
            in_deps_from(s, i + 1, idx)
        }
    } else if s[i] == '#' {
        let e = crate::format::line_end(s, i);
        if i < e <= s.len() {
            in_deps_from(s, e, idx)
        } else {
            in_deps_from(s, i + 1, idx)
        }
    } else if crate::format::deps_region_at(s, i) is Some {
        let (b, e) = crate::format::deps_region_at(s, i).unwrap();
        if i < e <= s.len() {
            if b < idx && idx < e - 1 {
                true
            } else {
                in_deps_from(s, e, idx)
            }
        } else {
            in_deps_from(s, i + 1, idx)
        }
    } else {
        in_deps_from(s, i + 1, idx)
    }
}

/// Whether the given position sits inside the list of a `deps` attribute,
/// which decides if target completion applies at all.
#[verifier::loop_isolation(false)]
pub fn is_in_deps_attribute(text: &str, line: u32, character: u32) -> (r: bool)
    ensures
        r == in_deps_from(text@, 0, pos_index(text@, line as int, character as int)),
{
    let cs = crate::format::str_to_chars(text);
    let idx = exec_pos_index(&cs, line, character);
    let ghost gidx = idx as int;
    let mut i: usize = 0;
    while i < cs.len()
        invariant
            i <= cs@.len(),
            in_deps_from(cs@, 0, gidx) == in_deps_from(cs@, i as int, gidx),
        decreases cs@.len() - i,
    {
        let c = cs[i];
        if c == '"' {
            let e = crate::format::exec_str_end(&cs, i + 1);
            i = e;
        } else if c == '#' {
            let e = crate::format::exec_line_end(&cs, i);
            proof {
                lemma_line_end_lo(cs@, i + 1);
            }
            i = e;
        } else {
            match crate::format::exec_region_at(&cs, i) {
                Some((b, e)) => {
                    if b < idx && idx < e - 1 {
                        return true;
                    }
                    i = e;
                },
                None => {
                    i = i + 1;
                },
            }
        }
    }
    false
}

} // verus!
