//! Code-lens actions for extracted targets: a closed classification of rule
//! types by suffix, and the commands offered for each class. A `*_test` rule
//! gets a test action, a `*_binary` rule a run action, and every rule a
//! build action, each carrying the target's fully qualified label.
use crate::index;
use vstd::prelude::*;

verus! {

#[derive(Debug, PartialEq, Eq, Clone, Copy)]
pub enum RuleKind {
    Test,
    Binary,
    Other,
}

/// The action class of a rule type, decided by its suffix.
pub open spec fn classify_spec(rule_type: Seq<char>) -> RuleKind {
    if "_test"@.is_suffix_of(rule_type) {
        RuleKind::Test
    } else if "_binary"@.is_suffix_of(rule_type) {
        RuleKind::Binary
    } else {
        RuleKind::Other
    }
}

/// Whether `suf`'s characters end `s`.
#[verifier::loop_isolation(false)]
fn has_suffix(s: &str, suf: &str) -> (r: bool)
    ensures
        r == suf@.is_suffix_of(s@),
{
    let n = s.unicode_len();
    let m = suf.unicode_len();
    if m > n {
        proof {
            assert(!suf@.is_suffix_of(s@));
        }
        return false;
    }
    let mut i: usize = 0;
    while i < m
        invariant
            i <= m <= n,
            n == s@.len(),
            m == suf@.len(),
            forall|t: int| 0 <= t < i ==> suf@[t] == s@[n - m + t],
        decreases m - i,
    {
        if suf.get_char(i) != s.get_char(n - m + i) {
            proof {
                assert(s@.skip(n - m)[i as int] == s@[n - m + i]);
            }
            return false;
        }
        i = i + 1;
    }
    proof {
        assert(s@.skip(n - m) =~= suf@);
    }
    true
}

/// Classify a rule type by its suffix.
pub fn classify_rule_kind(rule_type: &str) -> (r: RuleKind)
    ensures
        r == classify_spec(rule_type@),
{
    if has_suffix(rule_type, "_test") {
        RuleKind::Test
    } else if has_suffix(rule_type, "_binary") {
        RuleKind::Binary
    } else {
        RuleKind::Other
    }
}

/// One offered action: the title shown on the lens, the command it fires,
/// and the target label handed to the command.
pub struct LensSpec {
    pub title: String,
    pub command: String,
    pub target: String,
}

pub open spec fn lens_ok(l: LensSpec, title: Seq<char>, command: Seq<char>, target: Seq<char>) -> bool {
    l.title@ == title && l.command@ == command && l.target@ == target
}

fn build_title(prefix: &str, name: &str) -> (r: String)
    ensures
        r@ == prefix@ + name@,
{
    let mut out = String::new();
    out.append(prefix);
    out.append(name);
    proof {
        assert(out@ =~= prefix@ + name@);
    }
    out
}

/// The actions offered for one target: the class-specific action first, then
/// the build action every target gets.
pub fn lenses_for_target(name: &str, rule_type: &str, package_path: &str) -> (r: Vec<LensSpec>)
    ensures
        ({
            let full = index::spec_label(package_path@, name@);
            match classify_spec(rule_type@) {
                RuleKind::Test => r@.len() == 2 && lens_ok(
                    r@[0],
                    "Test "@ + name@,
                    "bazel.test"@,
                    full,
                ) && lens_ok(r@[1], "Build "@ + name@, "bazel.build"@, full),
                RuleKind::Binary => r@.len() == 2 && lens_ok(
                    r@[0],
                    "\u{25b6} Run "@ + name@,
                    "bazel.run"@,
                    full,
                ) && lens_ok(r@[1], "Build "@ + name@, "bazel.build"@, full),
                RuleKind::Other => r@.len() == 1 && lens_ok(
                    r@[0],
                    "Build "@ + name@,
                    "bazel.build"@,
                    full,
                ),
            }
        }),
{
    let mut out: Vec<LensSpec> = Vec::new();
    let kind = classify_rule_kind(rule_type);
    match kind {
        RuleKind::Test => {
            out.push(
                LensSpec {
                    title: build_title("Test ", name),
                    command: String::from_str("bazel.test"),
                    target: index::full_label(package_path, name),
                },
            );
        },
        RuleKind::Binary => {
            out.push(
                LensSpec {
                    title: build_title("\u{25b6} Run ", name),
                    command: String::from_str("bazel.run"),
                    target: index::full_label(package_path, name),
                },
            );
        },
        RuleKind::Other => {},
    }
    out.push(
        LensSpec {
            title: build_title("Build ", name),
            command: String::from_str("bazel.build"),
            target: index::full_label(package_path, name),
        },
    );
    out
}

} // verus!
