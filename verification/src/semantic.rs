//! Delta encoding of semantic token spans, as the protocol expects them:
//! spans sorted by line and start column, then each token written relative
//! to the one before it. Degenerate spans (an end before its start, or spans
//! out of order after sorting) encode with saturated-to-zero differences
//! rather than failing.
use vstd::prelude::*;

verus! {

/// One highlighted span on a line, with its token class.
#[derive(Debug, Clone, Copy, PartialEq, Eq)]
pub struct TokenSpan {
    pub line: u32,
    pub start: u32,
    pub end: u32,
    pub kind: u32,
}

/// One delta-encoded token.
#[derive(Debug, Clone, Copy, PartialEq, Eq)]
pub struct EncodedToken {
    pub delta_line: u32,
    pub delta_start: u32,
    pub length: u32,
    pub token_type: u32,
}

/// Strict document order on spans — by line, then by start column — used to
/// keep the sort stable.
pub open spec fn span_lt(a: TokenSpan, b: TokenSpan) -> bool {
    a.line < b.line || (a.line == b.line && a.start < b.start)
}

/// Insert `e` in front of the first span strictly after it.
pub open spec fn insert_span(e: TokenSpan, sorted: Seq<TokenSpan>) -> Seq<TokenSpan>
    decreases sorted.len(),
{
    if sorted.len() == 0 {
        seq![e]
    } else if span_lt(e, sorted[0]) {
        seq![e] + sorted
    } else {
        seq![sorted[0]] + insert_span(e, sorted.skip(1))
    }
}

/// Insertion sort of `spans[i..]` into the already sorted `acc`.
pub open spec fn sort_spans_into(spans: Seq<TokenSpan>, i: int, acc: Seq<TokenSpan>) -> Seq<
    TokenSpan,
>
    decreases spans.len() - i,
{
    if i < 0 || i >= spans.len() {
        acc
    } else {
        sort_spans_into(spans, i + 1, insert_span(spans[i], acc))
    }
}

/// The delta encoding of `spans[i..]`, the previous token having started at
/// `(prev_line, prev_start)`; differences that would run backwards saturate
/// to zero.
pub open spec fn encode_from(spans: Seq<TokenSpan>, i: int, prev_line: int, prev_start: int) -> Seq<
    EncodedToken,
>
    decreases spans.len() - i,
{
    if i < 0 || i >= spans.len() {
        Seq::empty()
    } else {
        let sp = spans[i];
        let ds: int = if sp.line == prev_line {
            if sp.start >= prev_start {
                sp.start - prev_start
            } else {
                0
            }
        } else {
            sp.start as int
        };
        let dl: int = if i == 0 {
            sp.line as int
        } else if sp.line >= prev_line {
            sp.line - prev_line
        } else {
            0
        };
        let ln: int = if sp.end >= sp.start {
            sp.end - sp.start
        } else {
            0
        };
        seq![
            EncodedToken {
                delta_line: dl as u32,
                delta_start: ds as u32,
                length: ln as u32,
                token_type: sp.kind,
            },
        ] + encode_from(spans, i + 1, sp.line as int, sp.start as int)
    }
}

/// `insert_span` drops `e` in front of the first span strictly after it.
proof fn lemma_insert_span_at(e: TokenSpan, sorted: Seq<TokenSpan>, p: int)
    requires
        0 <= p <= sorted.len(),
        forall|t: int| 0 <= t < p ==> !span_lt(e, #[trigger] sorted[t]),
        p < sorted.len() ==> span_lt(e, sorted[p]),
    ensures
        insert_span(e, sorted) == sorted.take(p) + seq![e] + sorted.skip(p),
    decreases sorted.len(),
{
    if sorted.len() == 0 {
        assert(insert_span(e, sorted) =~= sorted.take(p) + seq![e] + sorted.skip(p));
    } else if p == 0 {
        assert(insert_span(e, sorted) =~= sorted.take(0) + seq![e] + sorted.skip(0));
    } else {
        assert forall|t: int| 0 <= t < p - 1 implies !span_lt(e, #[trigger] sorted.skip(1)[t]) by {
            assert(sorted.skip(1)[t] == sorted[t + 1]);
        }
        lemma_insert_span_at(e, sorted.skip(1), p - 1);
        assert(seq![sorted[0]] + insert_span(e, sorted.skip(1)) =~= sorted.take(p) + seq![e]
            + sorted.skip(p)) by {
            assert(sorted.skip(1).take(p - 1) =~= sorted.subrange(1, p));
            assert(sorted.skip(1).skip(p - 1) =~= sorted.skip(p));
        }
    }
}

/// Sort spans into document order, stably.
#[verifier::loop_isolation(false)]
fn sort_spans(spans: &Vec<TokenSpan>) -> (r: Vec<TokenSpan>)
    ensures
        r@ == sort_spans_into(spans@, 0, Seq::empty()),
{
    let mut out: Vec<TokenSpan> = Vec::new();
    let mut i: usize = 0;
    while i < spans.len()
        invariant
            i <= spans@.len(),
            sort_spans_into(spans@, i as int, out@) == sort_spans_into(spans@, 0, Seq::empty()),
        decreases spans@.len() - i,
    {
        let ghost acc0 = out@;
        let e = spans[i];
        let mut p: usize = 0;
        while p < out.len() && !(e.line < out[p].line || (e.line == out[p].line && e.start
            < out[p].start))
            invariant
                p <= out@.len(),
                forall|t: int| 0 <= t < p ==> !span_lt(e, #[trigger] out@[t]),
            decreases out@.len() - p,
        {
            p = p + 1;
        }
        proof {
            lemma_insert_span_at(e, acc0, p as int);
        }
        out.insert(p, e);
        proof {
            assert(out@ =~= acc0.take(p as int) + seq![e] + acc0.skip(p as int));
        }
        i = i + 1;
    }
    out
}

/// Delta-encode the given spans in document order.
#[verifier::loop_isolation(false)]
pub fn encode_semantic_tokens(spans: &Vec<TokenSpan>) -> (r: Vec<EncodedToken>)
    ensures
        r@ == encode_from(sort_spans_into(spans@, 0, Seq::empty()), 0, 0, 0),
{
    let sorted = sort_spans(spans);
    let mut out: Vec<EncodedToken> = Vec::new();
    let mut prev_line: u32 = 0;
    let mut prev_start: u32 = 0;
    let mut i: usize = 0;
    while i < sorted.len()
        invariant
            i <= sorted@.len(),
            i == 0 ==> prev_line == 0 && prev_start == 0,
            i > 0 ==> prev_line == sorted@[i - 1].line && prev_start == sorted@[i - 1].start,
            out@ + encode_from(sorted@, i as int, prev_line as int, prev_start as int)
                == encode_from(sorted@, 0, 0, 0),
            out@.len() == i,
        decreases sorted@.len() - i,
    {
        let ghost out0 = out@;
        let sp = sorted[i];
        let delta_start: u32 = if sp.line == prev_line {
            if sp.start >= prev_start {
                sp.start - prev_start
            } else {
                0
            }
        } else {
            sp.start
        };
        let delta_line: u32 = if i == 0 {
            sp.line
        } else if sp.line >= prev_line {
            sp.line - prev_line
        } else {
            0
        };
        let length: u32 = if sp.end >= sp.start {
            sp.end - sp.start
        } else {
            0
        };
        let tok = EncodedToken { delta_line, delta_start, length, token_type: sp.kind };
        out.push(tok);
        proof {
            assert(encode_from(sorted@, i as int, prev_line as int, prev_start as int) == seq![tok]
                + encode_from(sorted@, i + 1, sp.line as int, sp.start as int));
            assert(out@ =~= out0 + seq![tok]);
            assert(out@ + encode_from(sorted@, i + 1, sp.line as int, sp.start as int) =~= out0 + (
            seq![tok] + encode_from(sorted@, i + 1, sp.line as int, sp.start as int)));
        }
        prev_line = sp.line;
        prev_start = sp.start;
        i = i + 1;
    }
    proof {
        assert(encode_from(sorted@, sorted@.len() as int, prev_line as int, prev_start as int)
            =~= Seq::<EncodedToken>::empty());
        assert(out@ + Seq::<EncodedToken>::empty() =~= out@);
    }
    out
}

} // verus!
