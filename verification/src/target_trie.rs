//! A prefix tree over the characters of `package/path:name` target labels.
use crate::paths;
use vstd::prelude::*;

verus! {

/// Inserting along `key[i..]` marks a package boundary on the node reached by
/// `k` from the current node exactly when some flagged depth `d` lies ahead.
pub open spec fn suffix_marked(key: Seq<char>, marks: Seq<bool>, i: int, k: Seq<char>) -> bool {
    exists|d: int| i <= d <= key.len() && marks[d] && k == key.subrange(i, d)
}

/// One discovered build target: its local name and its fully qualified
/// `//package/path:name` label.
#[derive(Debug)]
pub struct RuleInfo {
    pub name: String,
    pub full_build_path: String,
}

impl Clone for RuleInfo {
    fn clone(&self) -> (r: Self)
        ensures
            r == *self,
    {
        RuleInfo { name: self.name.clone(), full_build_path: self.full_build_path.clone() }
    }
}

/// One character position in the key space. `rules` holds every rule whose
/// key terminates exactly here, in insertion order.
#[derive(Debug)]
pub struct TrieNode {
    pub ch: char,
    pub is_end: bool,
    pub is_package_end: bool,
    pub rules: Vec<RuleInfo>,
    pub children: Vec<TrieNode>,
}

impl TrieNode {
    /// Children are keyed by their `ch` field; one child per distinct
    /// character, and a node is an end node exactly when rules are stored on it.
    pub open spec fn wf(self) -> bool
        decreases self,
    {
        &&& (forall|i: int, j: int|
            0 <= i < self.children.len() && 0 <= j < self.children.len() && i != j
                ==> (#[trigger] self.children[i]).ch != (#[trigger] self.children[j]).ch)
        &&& (forall|i: int|
            0 <= i < self.children.len() ==> (#[trigger] self.children[i]).wf())
        &&& (self.is_end <==> self.rules.len() > 0)
    }

    pub open spec fn has_child(self, c: char) -> bool {
        exists|i: int| 0 <= i < self.children.len() && (#[trigger] self.children[i]).ch == c
    }

    pub open spec fn child(self, c: char) -> TrieNode {
        self.children[choose|i: int|
            0 <= i < self.children.len() && (#[trigger] self.children[i]).ch == c]
    }

    /// The rule bucket reached by walking `key` from this node; empty when the
    /// walk falls off the tree or ends on a non-terminal node.
    pub open spec fn bucket_at(self, key: Seq<char>) -> Seq<RuleInfo>
        decreases key.len(),
    {
        if key.len() == 0 {
            if self.is_end {
                self.rules@
            } else {
                Seq::empty()
            }
        } else if self.has_child(key[0]) {
            self.child(key[0]).bucket_at(key.skip(1))
        } else {
            Seq::empty()
        }
    }

    /// True when some node marked as a package-segment boundary sits at the
    /// end of the walk over `key`; false when the walk falls off the tree.
    pub open spec fn mark_at(self, key: Seq<char>) -> bool
        decreases key.len(),
    {
        if key.len() == 0 {
            self.is_package_end
        } else if self.has_child(key[0]) {
            self.child(key[0]).mark_at(key.skip(1))
        } else {
            false
        }
    }

    pub fn new(ch: char) -> (node: TrieNode)
        ensures
            node.wf(),
            node.ch == ch,
            !node.is_end,
            !node.is_package_end,
            node.rules@ == Seq::<RuleInfo>::empty(),
            node.children@ == Seq::<TrieNode>::empty(),
    {
        TrieNode {
            ch,
            is_end: false,
            is_package_end: false,
            rules: Vec::new(),
            children: Vec::new(),
        }
    }

    /// The node reached by walking `key` from this node, if the walk stays on
    /// the tree.
    pub open spec fn node_at(self, key: Seq<char>) -> Option<TrieNode>
        decreases key.len(),
    {
        if key.len() == 0 {
            Some(self)
        } else if self.has_child(key[0]) {
            self.child(key[0]).node_at(key.skip(1))
        } else {
            None
        }
    }

    /// Buckets and marks below a reached node are buckets and marks of the
    /// whole tree under the concatenated key.
    proof fn lemma_node_at_lookup(self, k1: Seq<char>, k2: Seq<char>)
        ensures
            self.node_at(k1) is Some ==> self.bucket_at(k1 + k2) == self.node_at(
                k1,
            ).unwrap().bucket_at(k2),
            self.node_at(k1) is None ==> self.bucket_at(k1 + k2).len() == 0,
        decreases k1.len(),
    {
        if k1.len() == 0 {
            assert(k1 + k2 =~= k2);
        } else {
            let rest = k1 + k2;
            assert(rest.len() > 0 && rest[0] == k1[0]);
            assert(rest.skip(1) =~= k1.skip(1) + k2);
            if self.has_child(k1[0]) {
                self.child(k1[0]).lemma_node_at_lookup(k1.skip(1), k2);
            }
        }
    }

    /// Walking one more character steps into the matching child, if any.
    proof fn lemma_node_at_step(self, p: Seq<char>, c: char)
        requires
            self.node_at(p) is Some,
        ensures
            self.node_at(p.push(c)) == if self.node_at(p).unwrap().has_child(c) {
                Some(self.node_at(p).unwrap().child(c))
            } else {
                None::<TrieNode>
            },
        decreases p.len(),
    {
        if p.len() == 0 {
            assert(p.push(c).len() == 1);
            assert(p.push(c)[0] == c);
            assert(p.push(c).skip(1) =~= Seq::<char>::empty());
            assert(self.node_at(p) == Some(self));
            if self.has_child(c) {
                assert(self.child(c).node_at(p.push(c).skip(1)) == Some(self.child(c)));
                assert(self.node_at(p.push(c)) == Some(self.child(c)));
            } else {
                assert(self.node_at(p.push(c)) is None);
            }
        } else {
            assert(p.push(c)[0] == p[0]);
            assert(p.push(c).skip(1) =~= p.skip(1).push(c));
            assert(self.has_child(p[0]));
            self.child(p[0]).lemma_node_at_step(p.skip(1), c);
            assert(self.node_at(p.push(c)) == self.child(p[0]).node_at(p.skip(1).push(c)));
            assert(self.node_at(p) == self.child(p[0]).node_at(p.skip(1)));
        }
    }

    /// A node with no children and no rules answers every lookup with nothing.
    proof fn lemma_blank(self)
        requires
            self.children.len() == 0,
            !self.is_end,
            !self.is_package_end,
        ensures
            forall|k: Seq<char>| (#[trigger] self.bucket_at(k)).len() == 0,
            forall|k: Seq<char>| !(#[trigger] self.mark_at(k)),
    {
        assert forall|k: Seq<char>| (#[trigger] self.bucket_at(k)).len() == 0 && !(
        #[trigger] self.mark_at(k)) by {
            if k.len() > 0 {
                assert(!self.has_child(k[0]));
            }
        }
    }

    /// With distinct child characters, the child reached for `c` is the one
    /// stored at any index whose character is `c`.
    proof fn lemma_child_at(self, j: int)
        requires
            forall|a: int, b: int|
                0 <= a < self.children.len() && 0 <= b < self.children.len() && a != b
                    ==> (#[trigger] self.children[a]).ch != (#[trigger] self.children[b]).ch,
            0 <= j < self.children.len(),
        ensures
            self.has_child(self.children[j].ch),
            self.child(self.children[j].ch) == self.children[j],
    {
        let c = self.children[j].ch;
        assert(self.has_child(c));
        let w = choose|i: int| 0 <= i < self.children.len() && (#[trigger] self.children[i]).ch == c;
        assert(w == j);
    }
}

/// Walk `key[i..]` from `node`, creating missing nodes, append `rule` at the
/// end of the walk, and flag `is_package_end` at every depth `d` with
/// `marks[d]`. Only the bucket at `key[i..]` changes; marks are only added.
#[verifier::loop_isolation(false)]
fn insert_at(node: &mut TrieNode, key: &Vec<char>, marks: &Vec<bool>, i: usize, rule: RuleInfo)
    requires
        old(node).wf(),
        i <= key@.len(),
        marks@.len() == key@.len() + 1,
    ensures
        final(node).wf(),
        final(node).ch == old(node).ch,
        final(node).bucket_at(key@.skip(i as int)) == old(node).bucket_at(
            key@.skip(i as int),
        ).push(rule),
        forall|k: Seq<char>|
            k != key@.skip(i as int) ==> #[trigger] final(node).bucket_at(k) == old(
                node,
            ).bucket_at(k),
        forall|k: Seq<char>|
            #[trigger] final(node).mark_at(k) <==> old(node).mark_at(k) || suffix_marked(
                key@,
                marks@,
                i as int,
                k,
            ),
    decreases key@.len() - i,
{
    if marks[i] {
        node.is_package_end = true;
    }
    if i == key.len() {
        node.is_end = true;
        node.rules.push(rule);
        proof {
            let suffix = key@.skip(i as int);
            assert(suffix =~= Seq::<char>::empty());
            if !old(node).is_end {
                assert(old(node).bucket_at(suffix) =~= old(node).rules@);
            }
            assert(node.bucket_at(suffix) == old(node).bucket_at(suffix).push(rule));
            assert forall|k: Seq<char>| k != suffix implies #[trigger] node.bucket_at(k) == old(
                node,
            ).bucket_at(k) by {
                if k.len() == 0 {
                    assert(k =~= suffix);
                } else {
                    lemma_same_children(*node, *old(node), k);
                }
            }
            assert forall|k: Seq<char>| #[trigger]
                node.mark_at(k) <==> old(node).mark_at(k) || suffix_marked(
                    key@,
                    marks@,
                    i as int,
                    k,
                ) by {
                if k.len() == 0 {
                    assert(k =~= key@.subrange(i as int, i as int));
                    if marks@[i as int] {
                        assert(suffix_marked(key@, marks@, i as int, k));
                    }
                    if suffix_marked(key@, marks@, i as int, k) {
                        let d = choose|d: int|
                            i <= d <= key@.len() && marks@[d] && k == key@.subrange(i as int, d);
                        assert(key@.subrange(i as int, d).len() == d - i);
                        assert(d == i);
                    }
                } else {
                    lemma_same_children(*node, *old(node), k);
                    if suffix_marked(key@, marks@, i as int, k) {
                        let d = choose|d: int|
                            i <= d <= key@.len() && marks@[d] && k == key@.subrange(i as int, d);
                        assert(key@.subrange(i as int, d).len() == d - i);
                    }
                }
            }
        }
    } else {
        let c = key[i];
        let mut j: usize = 0;
        while j < node.children.len() && node.children[j].ch != c
            invariant
                j <= node.children.len(),
                forall|t: int| 0 <= t < j ==> (#[trigger] node.children[t as int]).ch != c,
            decreases node.children.len() - j,
        {
            j = j + 1;
        }
        if j == node.children.len() {
            node.children.push(TrieNode::new(c));
        }
        let ghost mid = *node;
        let ghost grew = mid.children@.len() != old(node).children@.len();
        let ghost m = marks@[i as int];
        proof {
            assert(mid.children[j as int].ch == c);
            assert(mid.children[j as int].wf());
            if grew {
                assert(!old(node).has_child(c)) by {
                    if old(node).has_child(c) {
                        let w = choose|t: int|
                            0 <= t < old(node).children.len() && (#[trigger] old(
                                node,
                            ).children[t]).ch == c;
                    }
                }
            }
        }
        insert_at(&mut node.children[j], key, marks, i + 1, rule);
        proof {
            let suffix = key@.skip(i as int);
            let tail = key@.skip(i + 1);
            let cnew = node.children[j as int];
            assert(suffix.len() > 0 && suffix[0] == c);
            assert(suffix.skip(1) =~= tail);
            assert(node.children@ == mid.children@.update(j as int, cnew));
            assert forall|a: int, b: int|
                0 <= a < node.children.len() && 0 <= b < node.children.len() && a != b implies (
            #[trigger] node.children[a]).ch != (#[trigger] node.children[b]).ch by {
                assert(mid.children[a].ch != mid.children[b].ch);
            }
            assert(node.wf());
            // the changed bucket
            node.lemma_child_at(j as int);
            mid.lemma_child_at(j as int);
            assert(node.bucket_at(suffix) == cnew.bucket_at(tail));
            assert(mid.bucket_at(suffix) == mid.children[j as int].bucket_at(tail));
            lemma_lookup_extend(*old(node), mid, suffix, c, grew, m);
            assert(node.bucket_at(suffix) == old(node).bucket_at(suffix).push(rule));
            // unchanged buckets
            assert forall|k: Seq<char>| k != suffix implies #[trigger] node.bucket_at(k) == old(
                node,
            ).bucket_at(k) by {
                lemma_lookup_extend(*old(node), mid, k, c, grew, m);
                if k.len() == 0 {
                    assert(node.bucket_at(k) == mid.bucket_at(k));
                } else if k[0] == c {
                    assert(k.skip(1) != tail) by {
                        if k.skip(1) == tail {
                            lemma_head_tail(k, suffix);
                        }
                    }
                    node.lemma_child_at(j as int);
                    mid.lemma_child_at(j as int);
                    assert(node.bucket_at(k) == cnew.bucket_at(k.skip(1)));
                    assert(cnew.bucket_at(k.skip(1)) == mid.children[j as int].bucket_at(
                        k.skip(1),
                    ));
                    assert(mid.bucket_at(k) == mid.children[j as int].bucket_at(k.skip(1)));
                } else {
                    lemma_update_other(mid, *node, j as int, c, k);
                    assert(node.bucket_at(k) == mid.bucket_at(k));
                }
            }
            // marks
            assert forall|k: Seq<char>| #[trigger]
                node.mark_at(k) <==> old(node).mark_at(k) || suffix_marked(
                    key@,
                    marks@,
                    i as int,
                    k,
                ) by {
                lemma_lookup_extend(*old(node), mid, k, c, grew, m);
                if k.len() == 0 {
                    assert(node.mark_at(k) == mid.mark_at(k));
                    assert(k =~= key@.subrange(i as int, i as int));
                    if m {
                        assert(suffix_marked(key@, marks@, i as int, k));
                    }
                    if suffix_marked(key@, marks@, i as int, k) {
                        let d = choose|d: int|
                            i <= d <= key@.len() && marks@[d] && k == key@.subrange(i as int, d);
                        assert(key@.subrange(i as int, d).len() == d - i);
                        assert(d == i);
                    }
                } else if k[0] != c {
                    lemma_update_other(mid, *node, j as int, c, k);
                    assert(node.mark_at(k) <==> mid.mark_at(k));
                    assert(mid.mark_at(k) <==> old(node).mark_at(k));
                    if suffix_marked(key@, marks@, i as int, k) {
                        let d = choose|d: int|
                            i <= d <= key@.len() && marks@[d] && k == key@.subrange(i as int, d);
                        assert(key@.subrange(i as int, d).len() == d - i);
                        assert(k[0] == key@.subrange(i as int, d)[0]);
                        assert(k[0] == key@[i as int]);
                    }
                } else {
                    node.lemma_child_at(j as int);
                    mid.lemma_child_at(j as int);
                    assert(node.mark_at(k) == cnew.mark_at(k.skip(1)));
                    assert(cnew.mark_at(k.skip(1)) <==> mid.children[j as int].mark_at(k.skip(1))
                        || suffix_marked(key@, marks@, i + 1, k.skip(1)));
                    assert(mid.mark_at(k) == mid.children[j as int].mark_at(k.skip(1)));
                    assert(mid.mark_at(k) <==> old(node).mark_at(k));
                    // align the witnesses of the two suffix_marked forms
                    assert(suffix_marked(key@, marks@, i + 1, k.skip(1)) <==> suffix_marked(
                        key@,
                        marks@,
                        i as int,
                        k,
                    )) by {
                        if suffix_marked(key@, marks@, i + 1, k.skip(1)) {
                            let d = choose|d: int|
                                i + 1 <= d <= key@.len() && marks@[d] && k.skip(1)
                                    == key@.subrange(i + 1, d);
                            assert(key@.subrange(i as int, d).len() == d - i);
                            assert(key@.subrange(i as int, d).skip(1) =~= key@.subrange(i + 1, d));
                            lemma_head_tail(k, key@.subrange(i as int, d));
                            assert(k == key@.subrange(i as int, d));
                        }
                        if suffix_marked(key@, marks@, i as int, k) {
                            let d = choose|d: int|
                                i <= d <= key@.len() && marks@[d] && k == key@.subrange(
                                    i as int,
                                    d,
                                );
                            assert(key@.subrange(i as int, d).len() == d - i);
                            assert(d > i);
                            assert(k.skip(1) =~= key@.subrange(i + 1, d));
                            assert(suffix_marked(key@, marks@, i + 1, k.skip(1)));
                        }
                    }
                }
            }
        }
    }
}

/// Updating the child at index `j` (whose character is `c`) changes no lookup
/// whose first character differs from `c`.
proof fn lemma_update_other(mid: TrieNode, post: TrieNode, j: int, c: char, k: Seq<char>)
    requires
        forall|s: int, t: int|
            0 <= s < mid.children.len() && 0 <= t < mid.children.len() && s != t
                ==> (#[trigger] mid.children[s]).ch != (#[trigger] mid.children[t]).ch,
        0 <= j < mid.children.len(),
        mid.children[j].ch == c,
        post.is_end == mid.is_end,
        post.rules == mid.rules,
        post.is_package_end == mid.is_package_end,
        post.children@ == mid.children@.update(j, post.children@[j]),
        post.children@[j].ch == c,
        k.len() > 0,
        k[0] != c,
    ensures
        post.bucket_at(k) == mid.bucket_at(k),
        post.mark_at(k) == mid.mark_at(k),
{
    assert forall|s: int, t: int|
        0 <= s < post.children.len() && 0 <= t < post.children.len() && s != t implies (
    #[trigger] post.children[s]).ch != (#[trigger] post.children[t]).ch by {
        assert(post.children[s].ch == mid.children[s].ch);
        assert(post.children[t].ch == mid.children[t].ch);
        assert(mid.children[s].ch != mid.children[t].ch);
    }
    if post.has_child(k[0]) {
        let w = choose|t: int|
            0 <= t < post.children.len() && (#[trigger] post.children[t]).ch == k[0];
        assert(w != j);
        assert(mid.children[w] == post.children[w]);
        post.lemma_child_at(w);
        mid.lemma_child_at(w);
        assert(post.child(k[0]) == mid.child(k[0]));
    } else {
        assert(!mid.has_child(k[0])) by {
            if mid.has_child(k[0]) {
                let w = choose|t: int|
                    0 <= t < mid.children.len() && (#[trigger] mid.children[t]).ch == k[0];
                assert(w != j);
                assert(post.children[w].ch == k[0]);
            }
        }
    }
}

/// Extending a node with a fresh blank child for `c` (when `grew` is true)
/// and possibly switching on its own package mark changes no bucket, and no
/// mark but the one at the empty key.
proof fn lemma_lookup_extend(
    pre: TrieNode,
    post: TrieNode,
    k: Seq<char>,
    c: char,
    grew: bool,
    m: bool,
)
    requires
        pre.wf(),
        post.ch == pre.ch,
        post.is_end == pre.is_end,
        post.rules == pre.rules,
        post.is_package_end == (pre.is_package_end || m),
        !grew ==> post.children@ == pre.children@,
        grew ==> {
            &&& !pre.has_child(c)
            &&& post.children@.len() == pre.children@.len() + 1
            &&& (forall|t: int|
                0 <= t < pre.children@.len() ==> post.children@[t] == pre.children@[t])
            &&& post.children@.last().ch == c
            &&& !post.children@.last().is_end
            &&& !post.children@.last().is_package_end
            &&& post.children@.last().rules.len() == 0
            &&& post.children@.last().children.len() == 0
        },
    ensures
        post.bucket_at(k) == pre.bucket_at(k),
        post.mark_at(k) <==> pre.mark_at(k) || (m && k.len() == 0),
{
    if k.len() == 0 {
    } else if !grew {
        assert(post.has_child(k[0]) == pre.has_child(k[0]));
        if pre.has_child(k[0]) {
            assert(post.child(k[0]) == pre.child(k[0]));
        }
    } else {
        let fresh = post.children@.last();
        if k[0] == c {
            assert(!pre.has_child(c));
            assert(post.children[post.children.len() - 1].ch == c);
            assert(post.has_child(c));
            let w = choose|t: int|
                0 <= t < post.children.len() && (#[trigger] post.children[t]).ch == c;
            assert(w == post.children.len() - 1) by {
                if w < post.children.len() - 1 {
                    assert(pre.children[w].ch == c);
                }
            }
            assert(post.child(c) == fresh);
            fresh.lemma_blank();
            assert(pre.bucket_at(k).len() == 0);
            assert(post.bucket_at(k) == fresh.bucket_at(k.skip(1)));
            assert(post.bucket_at(k).len() == 0);
            assert(post.bucket_at(k) =~= pre.bucket_at(k));
            assert(post.mark_at(k) == fresh.mark_at(k.skip(1)));
            assert(!post.mark_at(k));
            assert(!pre.mark_at(k));
        } else {
            assert forall|t: int| 0 <= t < pre.children.len() implies pre.children[t]
                == post.children[t] by {}
            if pre.has_child(k[0]) {
                let w = choose|t: int|
                    0 <= t < pre.children.len() && (#[trigger] pre.children[t]).ch == k[0];
                assert(post.children[w].ch == k[0]);
                assert(post.has_child(k[0]));
                let w2 = choose|t: int|
                    0 <= t < post.children.len() && (#[trigger] post.children[t]).ch == k[0];
                assert(w2 < post.children.len());
                if w2 == post.children.len() - 1 {
                    assert(post.children[w2].ch == c);
                }
                assert(pre.children[w2].ch == k[0]);
                assert(w2 == w);
                assert(post.child(k[0]) == pre.child(k[0]));
            } else {
                assert(!post.has_child(k[0])) by {
                    if post.has_child(k[0]) {
                        let w = choose|t: int|
                            0 <= t < post.children.len() && (#[trigger] post.children[t]).ch
                                == k[0];
                        if w < post.children.len() - 1 {
                            assert(pre.children[w].ch == k[0]);
                        } else {
                            assert(post.children[w].ch == c);
                        }
                    }
                }
            }
        }
    }
}

/// Nodes with the same children (with distinct characters) answer every
/// non-empty lookup alike, whatever their own fields hold.
proof fn lemma_same_children(a: TrieNode, b: TrieNode, k: Seq<char>)
    requires
        a.children == b.children,
        forall|s: int, t: int|
            0 <= s < a.children.len() && 0 <= t < a.children.len() && s != t
                ==> (#[trigger] a.children[s]).ch != (#[trigger] a.children[t]).ch,
        k.len() > 0,
    ensures
        a.bucket_at(k) == b.bucket_at(k),
        a.mark_at(k) == b.mark_at(k),
{
    if a.has_child(k[0]) {
        let w = choose|t: int| 0 <= t < a.children.len() && (#[trigger] a.children[t]).ch == k[0];
        a.lemma_child_at(w);
        assert(b.children[w].ch == k[0]);
        b.lemma_child_at(w);
        assert(a.child(k[0]) == b.child(k[0]));
    } else {
        assert(!b.has_child(k[0])) by {
            if b.has_child(k[0]) {
                let w = choose|t: int|
                    0 <= t < b.children.len() && (#[trigger] b.children[t]).ch == k[0];
                assert(a.children[w].ch == k[0]);
            }
        }
    }
}

/// What `starts_with` returns: `groups` lists, exactly once each and in no
/// particular order, the non-empty rule bucket of every key that extends the
/// search key; `keys` names the key each group sits under.
pub open spec fn search_matches(
    t: TargetTrie,
    skey: Seq<char>,
    groups: Seq<Vec<RuleInfo>>,
    keys: Seq<Seq<char>>,
) -> bool {
    &&& keys.len() == groups.len()
    &&& (forall|i: int| 0 <= i < keys.len() ==> skey.is_prefix_of(#[trigger] keys[i]))
    &&& (forall|i: int| 0 <= i < keys.len() ==> t.bucket(#[trigger] keys[i]).len() > 0)
    &&& (forall|i: int| 0 <= i < keys.len() ==> (#[trigger] groups[i])@ == t.bucket(keys[i]))
    &&& keys.no_duplicates()
    &&& (forall|k: Seq<char>|
        skey.is_prefix_of(k) && #[trigger] t.bucket(k).len() > 0 ==> keys.contains(k))
}

/// Whether a key of the subtree rooted at `node` has been reached by the time
/// the first `j` children have been collected.
spec fn in_scope(node: TrieNode, j: int, k: Seq<char>) -> bool {
    k.len() == 0 || exists|t: int| 0 <= t < j && (#[trigger] node.children[t]).ch == k[0]
}

/// Collect the non-empty rule group of every terminal node in the subtree
/// rooted at `node`, each exactly once, with the key it sits under.
#[verifier::loop_isolation(false)]
fn collect_groups(node: &TrieNode) -> (r: (Vec<Vec<RuleInfo>>, Ghost<Seq<Seq<char>>>))
    requires
        node.wf(),
    ensures
        r.1@.len() == r.0@.len(),
        forall|t: int| 0 <= t < r.1@.len() ==> node.bucket_at(#[trigger] r.1@[t]).len() > 0,
        forall|t: int| 0 <= t < r.1@.len() ==> (#[trigger] r.0@[t])@ == node.bucket_at(r.1@[t]),
        r.1@.no_duplicates(),
        forall|k: Seq<char>| node.bucket_at(k).len() > 0 ==> r.1@.contains(k),
    decreases *node,
{
    let mut groups: Vec<Vec<RuleInfo>> = Vec::new();
    let ghost mut keys: Seq<Seq<char>> = Seq::empty();
    if node.rules.len() > 0 {
        groups.push(node.rules.clone());
        proof {
            keys = keys.push(Seq::empty());
            assert(node.bucket_at(Seq::empty()) == node.rules@);
            assert(groups@[0]@ =~= node.rules@);
        }
    }
    proof {
        assert forall|k: Seq<char>|
            #[trigger] node.bucket_at(k).len() > 0 && in_scope(*node, 0, k) implies keys.contains(
            k,
        ) by {
            assert(k.len() == 0);
            assert(k =~= Seq::<char>::empty());
            assert(node.is_end);
            assert(keys[0] == Seq::<char>::empty());
        }
    }
    let mut j: usize = 0;
    while j < node.children.len()
        invariant
            node.wf(),
            j <= node.children.len(),
            keys.len() == groups@.len(),
            forall|t: int| 0 <= t < keys.len() ==> node.bucket_at(#[trigger] keys[t]).len() > 0,
            forall|t: int|
                0 <= t < keys.len() ==> (#[trigger] groups@[t])@ == node.bucket_at(keys[t]),
            keys.no_duplicates(),
            forall|k: Seq<char>|
                #[trigger] node.bucket_at(k).len() > 0 && in_scope(*node, j as int, k)
                    ==> keys.contains(k),
            forall|t: int| 0 <= t < keys.len() ==> in_scope(*node, j as int, #[trigger] keys[t]),
        decreases node.children.len() - j,
    {
        let (cg, ck) = collect_groups(&node.children[j]);
        let c = node.children[j].ch;
        proof {
            node.lemma_child_at(j as int);
        }
        let ghost base = keys.len() as int;
        let ghost keys0 = keys;
        let ghost groups0 = groups@;
        let ghost ckeys = ck@;
        let ghost child = node.children@[j as int];
        let mut t: usize = 0;
        while t < cg.len()
            invariant
                t <= cg.len(),
                keys.len() == groups@.len(),
                keys.len() == base + t,
                forall|s: int| 0 <= s < base ==> #[trigger] keys[s] == keys0[s],
                forall|s: int| 0 <= s < base ==> #[trigger] groups@[s] == groups0[s],
                forall|s: int|
                    base <= s < base + t ==> #[trigger] keys[s] == seq![c] + ckeys[s - base],
                forall|s: int|
                    base <= s < base + t ==> (#[trigger] groups@[s])@ == cg@[s - base]@,
            decreases cg.len() - t,
        {
            let g = cg[t].clone();
            proof {
                assert forall|x: int| 0 <= x < g@.len() implies g@[x] == cg@[t as int]@[x] by {
                    assert(cloned::<RuleInfo>(cg@[t as int]@[x], g@[x]));
                }
                assert(g@ =~= cg@[t as int]@);
            }
            groups.push(g);
            proof {
                keys = keys.push(seq![c] + ckeys[t as int]);
            }
            t = t + 1;
        }
        proof {
            // every new key walks through the child just collected
            assert(node.has_child(c) && node.child(c) == child);
            assert forall|s: int| base <= s < keys.len() implies {
                &&& node.bucket_at(#[trigger] keys[s]).len() > 0
                &&& groups@[s]@ == node.bucket_at(keys[s])
                &&& in_scope(*node, j + 1, keys[s])
            } by {
                let k = keys[s];
                assert(k == seq![c] + ckeys[s - base]);
                assert(k.len() > 0 && k[0] == c);
                assert(k.skip(1) =~= ckeys[s - base]);
                assert(node.bucket_at(k) == child.bucket_at(ckeys[s - base]));
            }
            assert forall|s: int| 0 <= s < base implies in_scope(*node, j + 1, #[trigger] keys[s])
                by {
                assert(in_scope(*node, j as int, keys0[s]));
            }
            // distinctness: new keys differ from old ones by their head, and
            // among themselves by their tails
            assert forall|a: int, b: int| 0 <= a < b < keys.len() implies keys[a] != keys[b] by {
                if b < base {
                    assert(keys0.no_duplicates());
                } else if a >= base {
                    if keys[a] == keys[b] {
                        assert(keys[a].skip(1) =~= ckeys[a - base]);
                        assert(keys[b].skip(1) =~= ckeys[b - base]);
                        assert(ckeys[a - base] == ckeys[b - base]);
                    }
                } else {
                    assert(in_scope(*node, j as int, keys0[a]));
                    if keys[a].len() > 0 {
                        let w = choose|w: int|
                            0 <= w < j && (#[trigger] node.children[w]).ch == keys0[a][0];
                        assert(node.children[w].ch != node.children[j as int].ch);
                        assert(keys[b][0] == c);
                    }
                }
            }
            // coverage now extends over the child just collected
            assert forall|k: Seq<char>|
                #[trigger] node.bucket_at(k).len() > 0 && in_scope(*node, j + 1, k) implies
                keys.contains(k) by {
                if in_scope(*node, j as int, k) {
                    let s = choose|s: int| 0 <= s < keys0.len() && keys0[s] == k;
                    assert(keys[s] == k);
                } else {
                    let w = choose|w: int|
                        0 <= w < j + 1 && (#[trigger] node.children[w]).ch == k[0];
                    assert(w == j);
                    assert(k[0] == c);
                    assert(node.bucket_at(k) == child.bucket_at(k.skip(1)));
                    assert(ckeys.contains(k.skip(1)));
                    let a = choose|a: int| 0 <= a < ckeys.len() && ckeys[a] == k.skip(1);
                    assert(keys[base + a] == seq![c] + ckeys[a]);
                    assert(keys[base + a] =~= k);
                    assert(keys.contains(k));
                }
            }
        }
        j = j + 1;
    }
    (groups, Ghost(keys))
}

/// The whole index: a trie over the keys of `paths::insert_key`, searched
/// with the keys of `paths::search_key`. Created empty, grown one target at
/// a time, never pruned.
#[derive(Debug)]
pub struct TargetTrie {
    root: TrieNode,
}

impl TargetTrie {
    pub closed spec fn wf(self) -> bool {
        self.root.wf()
    }

    /// The rules stored under `key`, in insertion order.
    pub closed spec fn bucket(self, key: Seq<char>) -> Seq<RuleInfo> {
        self.root.bucket_at(key)
    }

    /// Whether the node at `key` is flagged as a package-segment boundary.
    pub closed spec fn pkg_mark(self, key: Seq<char>) -> bool {
        self.root.mark_at(key)
    }

    pub fn new() -> (t: TargetTrie)
        ensures
            t.wf(),
            forall|k: Seq<char>| (#[trigger] t.bucket(k)).len() == 0,
            forall|k: Seq<char>| !(#[trigger] t.pkg_mark(k)),
    {
        let t = TargetTrie { root: TrieNode::new('\0') };
        proof {
            t.root.lemma_blank();
        }
        t
    }

    /// Append `rule` to the bucket of `path`'s insertion key, growing the
    /// tree as needed; every other bucket is untouched, and package-boundary
    /// marks are switched on exactly along `path`'s package segments.
    pub fn insert_target(&mut self, path: &str, rule: RuleInfo)
        requires
            old(self).wf(),
        ensures
            final(self).wf(),
            final(self).bucket(paths::insert_key(path@)) == old(self).bucket(
                paths::insert_key(path@),
            ).push(rule),
            forall|k: Seq<char>|
                k != paths::insert_key(path@) ==> #[trigger] final(self).bucket(k) == old(
                    self,
                ).bucket(k),
            forall|k: Seq<char>|
                #[trigger] final(self).pkg_mark(k) <==> old(self).pkg_mark(k)
                    || paths::boundary_marked(path@, k),
    {
        let (key, marks) = paths::build_insert_key(path);
        insert_at(&mut self.root, &key, &marks, 0, rule);
        proof {
            assert(key@.skip(0) =~= key@);
            assert forall|k: Seq<char>|
                suffix_marked(key@, marks@, 0, k) <==> paths::boundary_marked(path@, k) by {
                paths::lemma_boundary_key(path@, key@, marks@, k);
            }
        }
    }
}

impl TargetTrie {
    /// All rule groups under `prefix`: the non-empty bucket of every key that
    /// extends `prefix`'s search key, each exactly once, in no particular
    /// order. An empty prefix returns every group in the index.
    #[verifier::loop_isolation(false)]
    pub fn starts_with(&self, prefix: &str) -> (result: Vec<Vec<RuleInfo>>)
        requires
            self.wf(),
        ensures
            exists|keys: Seq<Seq<char>>|
                #[trigger] search_matches(*self, paths::search_key(prefix@), result@, keys),
    {
        let key = paths::build_search_key(prefix);
        let ghost skey = key@;
        let mut cur: &TrieNode = &self.root;
        let mut i: usize = 0;
        proof {
            assert(skey.take(0) =~= Seq::<char>::empty());
        }
        while i < key.len()
            invariant
                i <= key@.len(),
                self.root.node_at(key@.take(i as int)) == Some(*cur),
                cur.wf(),
            decreases key@.len() - i,
        {
            let c = key[i];
            let mut j: usize = 0;
            while j < cur.children.len() && cur.children[j].ch != c
                invariant
                    j <= cur.children.len(),
                    forall|t: int| 0 <= t < j ==> (#[trigger] cur.children[t as int]).ch != c,
                decreases cur.children.len() - j,
            {
                j = j + 1;
            }
            proof {
                assert(key@.take(i + 1) =~= key@.take(i as int).push(c));
                self.root.lemma_node_at_step(key@.take(i as int), c);
            }
            if j == cur.children.len() {
                // the walk fell off the tree: nothing in the index extends the
                // prefix
                proof {
                    assert(!cur.has_child(c)) by {
                        if cur.has_child(c) {
                            let w = choose|t: int|
                                0 <= t < cur.children.len() && (#[trigger] cur.children[t]).ch
                                    == c;
                        }
                    }
                    let dead = key@.take(i + 1);
                    assert forall|k: Seq<char>|
                        skey.is_prefix_of(k) && #[trigger] self.bucket(k).len() > 0 implies false by {
                        assert(dead.is_prefix_of(skey)) by {
                            assert(skey.take(dead.len() as int) =~= dead);
                        }
                        assert(dead.is_prefix_of(k)) by {
                            assert(k.take(dead.len() as int) =~= dead);
                        }
                        self.root.lemma_node_at_lookup(dead, k.skip(dead.len() as int));
                        assert(dead + k.skip(dead.len() as int) =~= k);
                    }
                    let empty_keys = Seq::<Seq<char>>::empty();
                    assert(search_matches(*self, skey, Seq::<Vec<RuleInfo>>::empty(), empty_keys));
                }
                let out: Vec<Vec<RuleInfo>> = Vec::new();
                return out;
            }
            proof {
                cur.lemma_child_at(j as int);
            }
            cur = &cur.children[j];
            i = i + 1;
        }
        proof {
            assert(key@.take(key@.len() as int) =~= skey);
        }
        let (groups, ck) = collect_groups(cur);
        proof {
            let sub = ck@;
            let keys = Seq::new(sub.len(), |t: int| skey + sub[t]);
            assert forall|t: int| 0 <= t < keys.len() implies {
                &&& skey.is_prefix_of(#[trigger] keys[t])
                &&& self.bucket(keys[t]).len() > 0
                &&& groups@[t]@ == self.bucket(keys[t])
            } by {
                assert(keys[t] == skey + sub[t]);
                assert((skey + sub[t]).take(skey.len() as int) =~= skey);
                self.root.lemma_node_at_lookup(skey, sub[t]);
            }
            assert(keys.no_duplicates()) by {
                assert forall|a: int, b: int| 0 <= a < b < keys.len() implies keys[a] != keys[b] by {
                    if keys[a] == keys[b] {
                        assert((skey + sub[a]).skip(skey.len() as int) =~= sub[a]);
                        assert((skey + sub[b]).skip(skey.len() as int) =~= sub[b]);
                        assert(sub[a] == sub[b]);
                    }
                }
            }
            assert forall|k: Seq<char>|
                skey.is_prefix_of(k) && #[trigger] self.bucket(k).len() > 0 implies keys.contains(
                k,
            ) by {
                let rest = k.skip(skey.len() as int);
                self.root.lemma_node_at_lookup(skey, rest);
                assert(skey + rest =~= k);
                assert(cur.bucket_at(rest).len() > 0);
                assert(sub.contains(rest));
                let a = choose|a: int| 0 <= a < sub.len() && sub[a] == rest;
                assert(keys[a] == skey + rest);
                assert(keys.contains(k));
            }
            assert(search_matches(*self, skey, groups@, keys));
        }
        groups
    }
}

/// Round trip: after inserting `rule` under `path`, searching with `path`
/// itself as the prefix returns some group that contains `rule`. It holds
/// whenever insertion and search split `path` alike — always when `path`
/// holds a `:` (see `paths::lemma_keys_agree_with_colon`); a bare rule name
/// with a `/` in it is keyed raw on insertion but flattened on search, and is
/// excluded here.
pub proof fn lemma_insert_search_round_trip(
    pre: TargetTrie,
    post: TargetTrie,
    path: Seq<char>,
    rule: RuleInfo,
    groups: Seq<Vec<RuleInfo>>,
    keys: Seq<Seq<char>>,
)
    requires
        paths::search_key(path) == paths::insert_key(path),
        post.bucket(paths::insert_key(path)) == pre.bucket(paths::insert_key(path)).push(rule),
        search_matches(post, paths::search_key(path), groups, keys),
    ensures
        exists|i: int| 0 <= i < groups.len() && (#[trigger] groups[i])@.contains(rule),
{
    let ikey = paths::insert_key(path);
    assert(post.bucket(ikey).len() > 0);
    assert(ikey.is_prefix_of(ikey)) by {
        assert(ikey.take(ikey.len() as int) =~= ikey);
    }
    assert(keys.contains(ikey));
    let i = choose|i: int| 0 <= i < keys.len() && keys[i] == ikey;
    assert(groups[i]@ == post.bucket(ikey));
    assert(groups[i]@.last() == rule);
    assert(groups[i]@.contains(rule));
}

/// Some group in `groups` holds exactly the rules `g`.
pub open spec fn has_group(groups: Seq<Vec<RuleInfo>>, g: Seq<RuleInfo>) -> bool {
    exists|j: int| 0 <= j < groups.len() && (#[trigger] groups[j])@ == g
}

/// Prefix monotonicity: every group returned for a prefix `s` is also
/// returned for any shorter prefix `p` of it; in particular a non-empty
/// result stays non-empty as the prefix is shortened.
pub proof fn lemma_search_prefix_monotonic(
    t: TargetTrie,
    p: Seq<char>,
    s: Seq<char>,
    groups_s: Seq<Vec<RuleInfo>>,
    keys_s: Seq<Seq<char>>,
    groups_p: Seq<Vec<RuleInfo>>,
    keys_p: Seq<Seq<char>>,
)
    requires
        p.is_prefix_of(s),
        search_matches(t, paths::search_key(s), groups_s, keys_s),
        search_matches(t, paths::search_key(p), groups_p, keys_p),
    ensures
        forall|i: int|
            0 <= i < groups_s.len() ==> has_group(groups_p, (#[trigger] groups_s[i])@),
        groups_s.len() > 0 ==> groups_p.len() > 0,
{
    paths::lemma_search_key_monotonic(p, s);
    let kp = paths::search_key(p);
    let ks = paths::search_key(s);
    assert forall|i: int| 0 <= i < groups_s.len() implies has_group(
        groups_p,
        (#[trigger] groups_s[i])@,
    ) by {
        let k = keys_s[i];
        assert(ks.is_prefix_of(k));
        assert(kp.is_prefix_of(k)) by {
            assert(k.take(kp.len() as int) =~= kp);
        }
        assert(t.bucket(k).len() > 0);
        assert(keys_p.contains(k));
        let j = choose|j: int| 0 <= j < keys_p.len() && keys_p[j] == k;
        assert(groups_p[j]@ == t.bucket(k));
        assert(groups_s[i]@ == t.bucket(k));
    }
    if groups_s.len() > 0 {
        let k = keys_s[0];
        assert(kp.is_prefix_of(k)) by {
            assert(k.take(kp.len() as int) =~= kp);
        }
        assert(t.bucket(k).len() > 0);
        assert(keys_p.contains(k));
        let j = choose|j: int| 0 <= j < keys_p.len() && keys_p[j] == k;
        assert(groups_p.len() > 0);
    }
}

/// Empty-prefix completeness: searching with the empty prefix lists the
/// bucket of every key that holds rules, exactly once each; together with
/// `insert_target`'s contract — each insertion appends one rule to exactly
/// one bucket — the result carries every rule ever inserted, once per
/// insertion, duplicates included.
pub proof fn lemma_empty_prefix_complete(
    t: TargetTrie,
    groups: Seq<Vec<RuleInfo>>,
    keys: Seq<Seq<char>>,
)
    requires
        search_matches(t, paths::search_key(Seq::empty()), groups, keys),
    ensures
        forall|k: Seq<char>|
            #[trigger] t.bucket(k).len() > 0 ==> exists|i: int|
                0 <= i < keys.len() && keys[i] == k && groups[i]@ == t.bucket(k),
        forall|i: int|
            0 <= i < groups.len() ==> (#[trigger] groups[i])@ == t.bucket(keys[i])
                && groups[i]@.len() > 0,
        keys.no_duplicates(),
{
    let skey = paths::search_key(Seq::empty());
    assert(skey =~= Seq::<char>::empty());
    assert forall|k: Seq<char>| #[trigger] t.bucket(k).len() > 0 implies exists|i: int|
        0 <= i < keys.len() && keys[i] == k && groups[i]@ == t.bucket(k) by {
        assert(skey.is_prefix_of(k)) by {
            assert(k.take(0) =~= skey);
        }
        assert(keys.contains(k));
        let i = choose|i: int| 0 <= i < keys.len() && keys[i] == k;
        assert(groups[i]@ == t.bucket(k));
    }
}

impl Default for TargetTrie {
    fn default() -> (t: TargetTrie)
        ensures
            t.wf(),
            forall|k: Seq<char>| (#[trigger] t.bucket(k)).len() == 0,
            forall|k: Seq<char>| !(#[trigger] t.pkg_mark(k)),
    {
        TargetTrie::new()
    }
}

/// Two non-empty sequences with equal heads and equal tails are equal.
proof fn lemma_head_tail(a: Seq<char>, b: Seq<char>)
    requires
        a.len() > 0,
        b.len() > 0,
        a[0] == b[0],
        a.skip(1) == b.skip(1),
    ensures
        a == b,
{
    assert(a.skip(1).len() == a.len() - 1);
    assert(b.skip(1).len() == b.len() - 1);
    assert(a.len() == b.len());
    assert forall|m: int| 0 <= m < a.len() implies a[m] == b[m] by {
        if m > 0 {
            assert(a[m] == a.skip(1)[m - 1]);
            assert(b[m] == b.skip(1)[m - 1]);
        }
    }
    assert(a =~= b);
}

} // verus!
