//! The workspace indexer's computing half: turn a build file's package path
//! and extracted target names into fully qualified labels and feed them to
//! the trie. Reading files and extracting targets happens outside; this
//! module is handed plain strings.
use crate::paths;
use crate::target_trie::{RuleInfo, TargetTrie};
use vstd::prelude::*;

verus! {

/// The fully qualified label `//<package_path>:<name>` (the root package
/// gives `//:name`).
pub open spec fn spec_label(pkg: Seq<char>, name: Seq<char>) -> Seq<char> {
    "//"@ + pkg + ":"@ + name
}

/// The path a target is inserted under: `package/path:name`, or the bare
/// name for the root package.
pub open spec fn spec_key_path(pkg: Seq<char>, name: Seq<char>) -> Seq<char> {
    if pkg.len() == 0 {
        name
    } else {
        pkg + ":"@ + name
    }
}

pub fn full_label(package_path: &str, name: &str) -> (r: String)
    ensures
        r@ == spec_label(package_path@, name@),
{
    let mut out = String::from_str("//");
    out.append(package_path);
    out.append(":");
    out.append(name);
    proof {
        assert(out@ =~= spec_label(package_path@, name@));
    }
    out
}

fn target_key_path(package_path: &str, name: &str) -> (r: String)
    ensures
        r@ == spec_key_path(package_path@, name@),
{
    if package_path.unicode_len() == 0 {
        let mut out = String::new();
        out.append(name);
        proof {
            assert(out@ =~= name@);
        }
        out
    } else {
        let mut out = String::new();
        out.append(package_path);
        out.append(":");
        out.append(name);
        proof {
            assert(out@ =~= package_path@ + ":"@ + name@);
        }
        out
    }
}

/// The rule record stored for one extracted target.
pub fn make_rule(package_path: &str, name: &str) -> (r: RuleInfo)
    ensures
        r.name@ == name@,
        r.full_build_path@ == spec_label(package_path@, name@),
{
    let mut n = String::new();
    n.append(name);
    proof {
        assert(n@ =~= name@);
    }
    RuleInfo { name: n, full_build_path: full_label(package_path, name) }
}

/// The trie key the target `names[j]` of package `pkg` lands on.
pub open spec fn target_key(pkg: Seq<char>, names: Seq<String>, j: int) -> Seq<char> {
    paths::insert_key(spec_key_path(pkg, names[j]@))
}

/// Some rule in `t`'s bucket at `k` carries the given name and label.
pub open spec fn has_rule_at(t: TargetTrie, k: Seq<char>, name: Seq<char>, label: Seq<char>) -> bool {
    exists|x: int|
        0 <= x < t.bucket(k).len() && (#[trigger] t.bucket(k)[x]).name@ == name && t.bucket(
            k,
        )[x].full_build_path@ == label
}

/// Index every extracted target of one build file: each gains a rule record
/// `(name, //pkg:name)` appended to its key's bucket; buckets of other keys
/// do not change, existing entries stay where they were, and
/// package-boundary marks only get added.
#[verifier::loop_isolation(false)]
pub fn index_build_file(trie: &mut TargetTrie, package_path: &str, target_names: &Vec<String>)
    requires
        old(trie).wf(),
    ensures
        final(trie).wf(),
        forall|k: Seq<char>|
            (forall|j: int|
                0 <= j < target_names@.len() ==> k != target_key(
                    package_path@,
                    target_names@,
                    j,
                )) ==> #[trigger] final(trie).bucket(k) == old(trie).bucket(k),
        forall|k: Seq<char>|
            (#[trigger] old(trie).bucket(k)).is_prefix_of(final(trie).bucket(k)),
        forall|j: int|
            0 <= j < target_names@.len() ==> has_rule_at(
                *final(trie),
                #[trigger] target_key(package_path@, target_names@, j),
                target_names@[j]@,
                spec_label(package_path@, target_names@[j]@),
            ),
        forall|k: Seq<char>| old(trie).pkg_mark(k) ==> #[trigger] final(trie).pkg_mark(k),
{
    let mut i: usize = 0;
    while i < target_names.len()
        invariant
            trie.wf(),
            i <= target_names@.len(),
            forall|k: Seq<char>|
                (forall|j: int|
                    0 <= j < i ==> k != target_key(package_path@, target_names@, j))
                    ==> #[trigger] trie.bucket(k) == old(trie).bucket(k),
            forall|k: Seq<char>|
                (#[trigger] old(trie).bucket(k)).is_prefix_of(trie.bucket(k)),
            forall|j: int|
                0 <= j < i ==> has_rule_at(
                    *trie,
                    #[trigger] target_key(package_path@, target_names@, j),
                    target_names@[j]@,
                    spec_label(package_path@, target_names@[j]@),
                ),
            forall|k: Seq<char>| old(trie).pkg_mark(k) ==> #[trigger] trie.pkg_mark(k),
        decreases target_names@.len() - i,
    {
        let ghost pre = *trie;
        let name = &target_names[i];
        let rule = make_rule(package_path, name.as_str());
        let kp = target_key_path(package_path, name.as_str());
        trie.insert_target(kp.as_str(), rule);
        proof {
            let ghost ki = target_key(package_path@, target_names@, i as int);
            assert(kp@ == spec_key_path(package_path@, target_names@[i as int]@));
            assert(trie.bucket(ki) == pre.bucket(ki).push(rule));
            assert forall|k: Seq<char>| #[trigger]
                pre.bucket(k).is_prefix_of(trie.bucket(k)) by {
                if k == ki {
                    assert(pre.bucket(k).push(rule).take(pre.bucket(k).len() as int)
                        =~= pre.bucket(k));
                } else {
                    assert(trie.bucket(k) == pre.bucket(k));
                    assert(pre.bucket(k).take(pre.bucket(k).len() as int) =~= pre.bucket(k));
                }
            }
            assert forall|k: Seq<char>| #[trigger]
                old(trie).bucket(k).is_prefix_of(trie.bucket(k)) by {
                assert(old(trie).bucket(k).is_prefix_of(pre.bucket(k)));
                assert(pre.bucket(k).is_prefix_of(trie.bucket(k)));
                assert(old(trie).bucket(k) =~= trie.bucket(k).take(old(trie).bucket(k).len() as int));
            }
            assert forall|j: int| 0 <= j < i + 1 implies has_rule_at(
                *trie,
                #[trigger] target_key(package_path@, target_names@, j),
                target_names@[j]@,
                spec_label(package_path@, target_names@[j]@),
            ) by {
                let k = target_key(package_path@, target_names@, j);
                if j == i {
                    let x = trie.bucket(ki).len() - 1;
                    assert(trie.bucket(ki)[x] == rule);
                } else {
                    assert(has_rule_at(
                        pre,
                        k,
                        target_names@[j]@,
                        spec_label(package_path@, target_names@[j]@),
                    ));
                    let x0 = choose|x: int|
                        0 <= x < pre.bucket(k).len() && (#[trigger] pre.bucket(k)[x]).name@
                            == target_names@[j]@ && pre.bucket(k)[x].full_build_path@
                            == spec_label(package_path@, target_names@[j]@);
                    if k == ki {
                        assert(trie.bucket(k)[x0] == pre.bucket(k)[x0]);
                    } else {
                        assert(trie.bucket(k) == pre.bucket(k));
                        assert(trie.bucket(k)[x0] == pre.bucket(k)[x0]);
                    }
                }
            }
        }
        i = i + 1;
    }
}

/// Whether `dir` lies strictly below `root`: `root` followed by `/` leads it.
pub open spec fn below_root(root: Seq<char>, dir: Seq<char>) -> bool {
    dir.len() > root.len() && dir.take(root.len() as int) == root && dir[root.len() as int] == '/'
}

/// The package directory relative to the workspace root: `Some("")` for the
/// root itself, the remainder after `root/` for a directory below it, `None`
/// for anything else. `root` is expected without a trailing `/`.
pub fn relative_package_path(root: &str, dir: &str) -> (r: Option<String>)
    ensures
        match r {
            Some(p) => (dir@ == root@ && p@ == Seq::<char>::empty()) || (below_root(root@, dir@)
                && p@ == dir@.skip(root@.len() as int + 1)),
            None => dir@ != root@ && !below_root(root@, dir@),
        },
{
    let nr = root.unicode_len();
    let nd = dir.unicode_len();
    let mut i: usize = 0;
    while i < nr && i < nd && root.get_char(i) == dir.get_char(i)
        invariant
            i <= nr,
            i <= nd,
            nr == root@.len(),
            nd == dir@.len(),
            forall|t: int| 0 <= t < i ==> root@[t] == dir@[t],
        decreases nr - i,
    {
        i = i + 1;
    }
    if i == nr && i == nd {
        proof {
            assert(dir@ =~= root@);
        }
        return Some(String::new());
    }
    if i == nr && i < nd && dir.get_char(i) == '/' {
        let rest = String::from_str(dir.substring_char(i + 1, nd));
        proof {
            assert(dir@.take(nr as int) =~= root@);
            assert(rest@ =~= dir@.skip(nr as int + 1));
        }
        return Some(rest);
    }
    proof {
        assert(dir@ != root@) by {
            if dir@ == root@ {
                assert(i < nr || i < nd);
            }
        }
        assert(!below_root(root@, dir@)) by {
            if below_root(root@, dir@) {
                assert(forall|t: int| 0 <= t < nr ==> dir@[t] == dir@.take(nr as int)[t]);
            }
        }
    }
    None
}

} // verus!
