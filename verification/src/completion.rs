//! The completion engine: decide from the line text before the cursor
//! whether a target reference is being typed (a `//` or `:` right after the
//! nearest quote), and turn the matching rules into concrete replacement
//! candidates.
use crate::paths;
use crate::target_trie::{search_matches, RuleInfo, TargetTrie};
use vstd::prelude::*;

verus! {

#[derive(Debug, PartialEq, Eq, Clone, Copy)]
pub enum TriggerType {
    DoubleSlash,
    Colon,
}

/// Where completion was triggered on the line: the kind of trigger, the
/// character position just after the quote, and the text typed after the
/// trigger itself.
#[derive(Debug, PartialEq)]
pub struct TriggerResult<'a> {
    pub trigger_type: TriggerType,
    pub trigger_pos: usize,
    pub text_after_trigger: &'a str,
}

/// Index of the last `"` in `s`, or `-1` when there is none.
pub open spec fn last_quote(s: Seq<char>) -> int
    decreases s.len(),
{
    if s.len() == 0 {
        -1
    } else if s.last() == '"' {
        s.len() - 1
    } else {
        last_quote(s.drop_last())
    }
}

/// What `find_trigger_position` answers: `//` right after the last quote is a
/// double-slash trigger, `:` right after it a colon trigger, anything else —
/// including a line without quotes — no trigger.
pub open spec fn spec_trigger(s: Seq<char>) -> Option<(TriggerType, int, Seq<char>)> {
    let q = last_quote(s);
    if q < 0 {
        None
    } else if q + 2 < s.len() && s[q + 1] == '/' && s[q + 2] == '/' {
        Some((TriggerType::DoubleSlash, q + 1, s.skip(q + 3)))
    } else if q + 1 < s.len() && s[q + 1] == ':' {
        Some((TriggerType::Colon, q + 1, s.skip(q + 2)))
    } else {
        None
    }
}

/// Scan the line up to the cursor for a completion trigger.
#[verifier::loop_isolation(false)]
pub fn find_trigger_position<'a>(line_up_to_cursor: &'a str) -> (r: Option<TriggerResult<'a>>)
    ensures
        match r {
            Some(t) => spec_trigger(line_up_to_cursor@) == Some(
                (t.trigger_type, t.trigger_pos as int, t.text_after_trigger@),
            ),
            None => spec_trigger(line_up_to_cursor@) is None,
        },
{
    let n = line_up_to_cursor.unicode_len();
    proof {
        assert(line_up_to_cursor@.take(n as int) =~= line_up_to_cursor@);
    }
    let mut q = n;
    while q > 0 && line_up_to_cursor.get_char(q - 1) != '"'
        invariant
            q <= n,
            n == line_up_to_cursor@.len(),
            last_quote(line_up_to_cursor@) == last_quote(line_up_to_cursor@.take(q as int)),
        decreases q,
    {
        proof {
            assert(line_up_to_cursor@.take(q as int).last() == line_up_to_cursor@[q - 1]);
            assert(line_up_to_cursor@.take(q as int).drop_last() =~= line_up_to_cursor@.take(
                q - 1,
            ));
        }
        q = q - 1;
    }
    proof {
        assert(line_up_to_cursor@.take(n as int) =~= line_up_to_cursor@);
        if q > 0 {
            assert(line_up_to_cursor@.take(q as int).last() == line_up_to_cursor@[q - 1]);
        }
    }
    if q == 0 {
        return None;
    }
    let ghost lq = (q - 1) as int;
    proof {
        assert(last_quote(line_up_to_cursor@) == lq);
    }
    if n - q > 1 && line_up_to_cursor.get_char(q) == '/' && line_up_to_cursor.get_char(q + 1)
        == '/' {
        let rest = line_up_to_cursor.substring_char(q + 2, n);
        proof {
            assert(rest@ =~= line_up_to_cursor@.skip(lq + 3));
        }
        Some(
            TriggerResult {
                trigger_type: TriggerType::DoubleSlash,
                trigger_pos: q,
                text_after_trigger: rest,
            },
        )
    } else if q < n && line_up_to_cursor.get_char(q) == ':' {
        let rest = line_up_to_cursor.substring_char(q + 1, n);
        proof {
            assert(rest@ =~= line_up_to_cursor@.skip(lq + 2));
        }
        Some(
            TriggerResult {
                trigger_type: TriggerType::Colon,
                trigger_pos: q,
                text_after_trigger: rest,
            },
        )
    } else {
        None
    }
}

/// The replacement text a candidate writes over the trigger: the full label
/// for a `//` trigger (and when no trigger is known), `:name` for a `:`
/// trigger, judged by the text typed after the quote.
pub open spec fn edit_text_spec(tr: Option<TriggerResult>, rule: RuleInfo) -> Seq<char> {
    match tr {
        Some(t) => {
            let s = t.text_after_trigger@;
            if s.len() >= 2 && s[0] == '/' && s[1] == '/' {
                rule.full_build_path@
            } else if s.len() >= 1 && s[0] == ':' {
                ":"@ + rule.name@
            } else {
                rule.full_build_path@
            }
        },
        None => rule.full_build_path@,
    }
}

/// Build the text a completion writes over the trigger span.
pub fn create_edit_text_in_workspace<'a>(
    trigger_result: &Option<TriggerResult<'a>>,
    rule: &RuleInfo,
) -> (r: String)
    ensures
        r@ == edit_text_spec(*trigger_result, *rule),
{
    match trigger_result {
        Some(t) => {
            let s = t.text_after_trigger;
            let n = s.unicode_len();
            if n >= 2 && s.get_char(0) == '/' && s.get_char(1) == '/' {
                rule.full_build_path.clone()
            } else if n >= 1 && s.get_char(0) == ':' {
                let mut out = String::from_str(":");
                out.append(rule.name.as_str());
                out
            } else {
                rule.full_build_path.clone()
            }
        },
        None => rule.full_build_path.clone(),
    }
}

/// One completion candidate: the label and descriptions shown to the user,
/// and the replacement text for the span from the trigger to the cursor.
pub struct CompletionCandidate {
    pub label: String,
    pub detail: String,
    pub documentation: String,
    pub new_text: String,
}

/// The candidate a rule produces.
pub open spec fn candidate_of(tr: Option<TriggerResult>, rule: RuleInfo, c: CompletionCandidate) -> bool {
    &&& c.label@ == rule.full_build_path@
    &&& c.detail@ == "Target: "@ + rule.full_build_path@
    &&& c.documentation@ == "Bazel target: "@ + rule.full_build_path@
    &&& c.new_text@ == edit_text_spec(tr, rule)
}

/// The rules of a run of groups, in order.
pub open spec fn flatten_groups(groups: Seq<Vec<RuleInfo>>, i: int) -> Seq<RuleInfo>
    decreases groups.len() - i,
{
    if i < 0 || i >= groups.len() {
        Seq::empty()
    } else {
        groups[i]@ + flatten_groups(groups, i + 1)
    }
}

fn candidate_for(tr: &Option<TriggerResult>, rule: &RuleInfo) -> (c: CompletionCandidate)
    ensures
        candidate_of(*tr, *rule, c),
{
    let mut detail = String::from_str("Target: ");
    detail.append(rule.full_build_path.as_str());
    let mut documentation = String::from_str("Bazel target: ");
    documentation.append(rule.full_build_path.as_str());
    let new_text = create_edit_text_in_workspace(tr, rule);
    CompletionCandidate { label: rule.full_build_path.clone(), detail, documentation, new_text }
}

/// Workspace-mode completion: one candidate per rule whose key extends the
/// typed text, drawn from the index.
#[verifier::loop_isolation(false)]
pub fn completion_in_workspace<'a>(trie: &TargetTrie, trigger_result: &Option<TriggerResult<'a>>) -> (r:
    Vec<CompletionCandidate>)
    requires
        trie.wf(),
    ensures
        match *trigger_result {
            Some(t) => exists|groups: Seq<Vec<RuleInfo>>, keys: Seq<Seq<char>>|
                {
                    &&& #[trigger] search_matches(
                        *trie,
                        paths::search_key(t.text_after_trigger@),
                        groups,
                        keys,
                    )
                    &&& r@.len() == flatten_groups(groups, 0).len()
                    &&& (forall|x: int|
                        0 <= x < r@.len() ==> candidate_of(
                            *trigger_result,
                            flatten_groups(groups, 0)[x],
                            #[trigger] r@[x],
                        ))
                },
            None => r@.len() == 0,
        },
{
    let mut out: Vec<CompletionCandidate> = Vec::new();
    match trigger_result {
        Some(t) => {
            let groups = trie.starts_with(t.text_after_trigger);
            let ghost keys = choose|keys: Seq<Seq<char>>|
                #[trigger] search_matches(
                    *trie,
                    paths::search_key(t.text_after_trigger@),
                    groups@,
                    keys,
                );
            let mut i: usize = 0;
            while i < groups.len()
                invariant
                    i <= groups@.len(),
                    out@.len() + flatten_groups(groups@, i as int).len() == flatten_groups(
                        groups@,
                        0,
                    ).len(),
                    forall|x: int|
                        0 <= x < out@.len() ==> candidate_of(
                            *trigger_result,
                            flatten_groups(groups@, 0)[x],
                            #[trigger] out@[x],
                        ),
                    forall|x: int|
                        0 <= x < flatten_groups(groups@, i as int).len()
                            ==> #[trigger] flatten_groups(groups@, i as int)[x] == flatten_groups(
                            groups@,
                            0,
                        )[out@.len() + x],
                decreases groups@.len() - i,
            {
                let ghost before = out@.len() as int;
                let mut j: usize = 0;
                while j < groups[i].len()
                    invariant
                        i < groups@.len(),
                        j <= groups@[i as int]@.len(),
                        out@.len() == before + j,
                        forall|x: int|
                            0 <= x < out@.len() ==> candidate_of(
                                *trigger_result,
                                flatten_groups(groups@, 0)[x],
                                #[trigger] out@[x],
                            ),
                        forall|x: int|
                            0 <= x < flatten_groups(groups@, i as int).len()
                                ==> #[trigger] flatten_groups(groups@, i as int)[x]
                                == flatten_groups(groups@, 0)[before + x],
                        flatten_groups(groups@, i as int) == groups@[i as int]@ + flatten_groups(
                            groups@,
                            i + 1,
                        ),
                    decreases groups@[i as int]@.len() - j,
                {
                    let c = candidate_for(trigger_result, &groups[i][j]);
                    proof {
                        assert(flatten_groups(groups@, i as int)[j as int] == groups@[i as int]@[j as int]);
                    }
                    out.push(c);
                    j = j + 1;
                }
                proof {
                    assert forall|x: int|
                        0 <= x < flatten_groups(groups@, i + 1).len() implies #[trigger] flatten_groups(
                        groups@,
                        i + 1,
                    )[x] == flatten_groups(groups@, 0)[out@.len() + x] by {
                        assert(flatten_groups(groups@, i as int)[groups@[i as int]@.len() + x]
                            == flatten_groups(groups@, i + 1)[x]);
                    }
                }
                i = i + 1;
            }
            proof {
                assert(flatten_groups(groups@, groups@.len() as int) =~= Seq::<RuleInfo>::empty());
            }
        },
        None => {},
    }
    out
}

/// Single-file completion: no candidates for a `//` trigger (the index is
/// not available), otherwise the locally extracted target names that start
/// with the typed text, as plain labels.
#[verifier::loop_isolation(false)]
pub fn completion_in_file<'a>(
    trigger_result: &Option<TriggerResult<'a>>,
    target_names: &Vec<String>,
) -> (r: Option<Vec<CompletionCandidate>>)
    ensures
        match *trigger_result {
            Some(t) => {
                if t.trigger_type == TriggerType::DoubleSlash {
                    r is None
                } else {
                    match r {
                        Some(v) => {
                            let kept = Seq::new(target_names@.len(), |x: int| target_names@[x]@)
                                .filter(|n: Seq<char>| t.text_after_trigger@.is_prefix_of(n));
                            &&& v@.len() == kept.len()
                            &&& (forall|x: int|
                                0 <= x < v@.len() ==> {
                                    &&& (#[trigger] v@[x]).label@ == kept[x]
                                    &&& v@[x].detail@ == "Target: "@ + kept[x]
                                    &&& v@[x].documentation@ == "Bazel target: "@ + kept[x]
                                    &&& v@[x].new_text@ == kept[x]
                                })
                        },
                        None => false,
                    }
                }
            },
            None => match r {
                Some(v) => v@.len() == 0,
                None => false,
            },
        },
{
    match trigger_result {
        Some(t) => {
            if matches!(t.trigger_type, TriggerType::DoubleSlash) {
                return None;
            }
            let ghost names = Seq::new(target_names@.len(), |x: int| target_names@[x]@);
            let ghost pred = |n: Seq<char>| t.text_after_trigger@.is_prefix_of(n);
            let mut out: Vec<CompletionCandidate> = Vec::new();
            let mut i: usize = 0;
            proof {
        assert(names.take(0) =~= Seq::<Seq<char>>::empty());
                assert(names.take(0).filter(pred) =~= Seq::<Seq<char>>::empty());
            }
            while i < target_names.len()
                invariant
                    i <= target_names@.len(),
                    names.len() == target_names@.len(),
                    forall|x: int| 0 <= x < names.len() ==> names[x] == target_names@[x]@,
                    ({
                        let kept = names.take(i as int).filter(pred);
                        &&& out@.len() == kept.len()
                        &&& (forall|x: int|
                            0 <= x < out@.len() ==> {
                                &&& (#[trigger] out@[x]).label@ == kept[x]
                                &&& out@[x].detail@ == "Target: "@ + kept[x]
                                &&& out@[x].documentation@ == "Bazel target: "@ + kept[x]
                                &&& out@[x].new_text@ == kept[x]
                            })
                    }),
                decreases target_names@.len() - i,
            {
                let ghost kept0 = names.take(i as int).filter(pred);
                let name = &target_names[i];
                let keep = is_char_prefix(t.text_after_trigger, name.as_str());
                if keep {
                    let mut detail = String::from_str("Target: ");
                    detail.append(name.as_str());
                    let mut documentation = String::from_str("Bazel target: ");
                    documentation.append(name.as_str());
                    out.push(
                        CompletionCandidate {
                            label: name.clone(),
                            detail,
                            documentation,
                            new_text: name.clone(),
                        },
                    );
                }
                proof {
                    assert(names.take(i + 1) =~= names.take(i as int).push(names[i as int]));
                    seq_filter_push(names.take(i as int), pred, names[i as int]);
                    if keep {
                        assert(names.take(i + 1).filter(pred) =~= kept0.push(names[i as int]));
                    } else {
                        assert(names.take(i + 1).filter(pred) =~= kept0);
                    }
                }
                i = i + 1;
            }
            proof {
                assert(names.take(names.len() as int) =~= names);
            }
            Some(out)
        },
        None => Some(Vec::new()),
    }
}

/// `filter` looks at a pushed element last.
proof fn seq_filter_push<A>(s: Seq<A>, pred: spec_fn(A) -> bool, e: A)
    ensures
        s.push(e).filter(pred) == if pred(e) {
            s.filter(pred).push(e)
        } else {
            s.filter(pred)
        },
{
    reveal(Seq::filter);
    assert(s.push(e).drop_last() =~= s);
    assert(s.push(e).last() == e);
}

/// Whether `p`'s characters lead `s`.
#[verifier::loop_isolation(false)]
fn is_char_prefix(p: &str, s: &str) -> (r: bool)
    ensures
        r == p@.is_prefix_of(s@),
{
    let np = p.unicode_len();
    let ns = s.unicode_len();
    if np > ns {
        proof {
            assert(!p@.is_prefix_of(s@));
        }
        return false;
    }
    let mut i: usize = 0;
    while i < np
        invariant
            i <= np <= ns,
            np == p@.len(),
            ns == s@.len(),
            forall|t: int| 0 <= t < i ==> p@[t] == s@[t],
        decreases np - i,
    {
        if p.get_char(i) != s.get_char(i) {
            proof {
                assert(s@.take(p@.len() as int)[i as int] == s@[i as int]);
            }
            return false;
        }
        i = i + 1;
    }
    proof {
        assert(s@.take(p@.len() as int) =~= p@);
    }
    true
}

} // verus!
