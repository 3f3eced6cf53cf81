//! Splitting target labels into package path and rule name, and flattening
//! them into the character keys the trie is indexed by.
//!
//! A label of the form `package/path:name` is split at its first `:`; the rule
//! name runs up to the next `:` (text after a second colon is dropped). A label
//! with no `:` is a bare rule name with an empty package path. The trie key is
//! the package path with every `/` removed, followed by the raw rule-name
//! characters; neither `:` nor `/` separators appear in the key.
use vstd::prelude::*;

verus! {

/// Index of the first `:` in `s`, or `s.len()` when there is none.
pub open spec fn first_colon(s: Seq<char>) -> int
    decreases s.len(),
{
    if s.len() == 0 {
        0
    } else if s[0] == ':' {
        0
    } else {
        1 + first_colon(s.skip(1))
    }
}

pub proof fn lemma_first_colon(s: Seq<char>)
    ensures
        0 <= first_colon(s) <= s.len(),
        forall|p: int| 0 <= p < first_colon(s) ==> s[p] != ':',
        first_colon(s) < s.len() ==> s[first_colon(s)] == ':',
    decreases s.len(),
{
    if s.len() == 0 {
    } else if s[0] == ':' {
    } else {
        lemma_first_colon(s.skip(1));
        assert(forall|p: int| 0 < p < first_colon(s) ==> s[p] == s.skip(1)[p - 1]);
    }
}

/// The characterisation above pins `first_colon` down uniquely.
pub proof fn lemma_first_colon_unique(s: Seq<char>, r: int)
    requires
        0 <= r <= s.len(),
        forall|p: int| 0 <= p < r ==> s[p] != ':',
        r < s.len() ==> s[r] == ':',
    ensures
        r == first_colon(s),
{
    lemma_first_colon(s);
}

/// `(package_path, rule_name)` of a label being inserted: split at the first
/// `:`; a label without `:` is all rule name.
pub open spec fn insert_split(path: Seq<char>) -> (Seq<char>, Seq<char>) {
    let i = first_colon(path);
    if i == path.len() {
        (Seq::empty(), path)
    } else {
        let rest = path.skip(i + 1);
        (path.take(i), rest.take(first_colon(rest)))
    }
}

/// `(package_path, rule_prefix)` of a search prefix: as `insert_split`, except
/// that a prefix without `:` is all package path.
pub open spec fn search_split(prefix: Seq<char>) -> (Seq<char>, Seq<char>) {
    let i = first_colon(prefix);
    if i == prefix.len() {
        (prefix, Seq::empty())
    } else {
        insert_split(prefix)
    }
}

/// The package path with every `/` removed.
pub open spec fn key_chars(package: Seq<char>) -> Seq<char>
    decreases package.len(),
{
    if package.len() == 0 {
        Seq::empty()
    } else if package.last() == '/' {
        key_chars(package.drop_last())
    } else {
        key_chars(package.drop_last()).push(package.last())
    }
}

/// The trie key a label is inserted under.
pub open spec fn insert_key(path: Seq<char>) -> Seq<char> {
    key_chars(insert_split(path).0) + insert_split(path).1
}

/// The trie key a search prefix walks along.
pub open spec fn search_key(prefix: Seq<char>) -> Seq<char> {
    key_chars(search_split(prefix).0) + search_split(prefix).1
}

/// `k` is a key prefix at which inserting `path` records a package-segment
/// boundary: the flattened package path up to some `/`.
pub open spec fn boundary_marked(path: Seq<char>, k: Seq<char>) -> bool {
    exists|p: int|
        0 <= p < insert_split(path).0.len() && insert_split(path).0[p] == '/' && k == key_chars(
            insert_split(path).0.take(p),
        )
}

/// Inserting `path` records a package-segment boundary at key depth `d`.
pub open spec fn boundary_at_depth(path: Seq<char>, d: int) -> bool {
    exists|p: int|
        0 <= p < insert_split(path).0.len() && insert_split(path).0[p] == '/' && key_chars(
            insert_split(path).0.take(p),
        ).len() == d
}

/// Flattening a prefix of the package path yields a prefix of the flattened
/// package path.
pub proof fn lemma_key_chars_prefix(a: Seq<char>, l: int)
    requires
        0 <= l <= a.len(),
    ensures
        key_chars(a.take(l)).is_prefix_of(key_chars(a)),
        key_chars(a.take(l)).len() <= key_chars(a).len(),
    decreases a.len(),
{
    if l == a.len() {
        assert(a.take(l) =~= a);
    } else {
        lemma_key_chars_prefix(a.drop_last(), l);
        assert(a.drop_last().take(l) =~= a.take(l));
    }
}

/// Scan for the first `:` at or after `from` (in character positions).
fn find_colon(path: &str, from: usize) -> (r: usize)
    requires
        from <= path@.len(),
    ensures
        from <= r <= path@.len(),
        r - from == first_colon(path@.skip(from as int)),
{
    let n = path.unicode_len();
    let mut i = from;
    while i < n && path.get_char(i) != ':'
        invariant
            from <= i <= n,
            n == path@.len(),
            forall|p: int| from <= p < i ==> path@[p] != ':',
        decreases n - i,
    {
        i = i + 1;
    }
    proof {
        let rest = path@.skip(from as int);
        assert(forall|p: int| 0 <= p < i - from ==> rest[p] == path@[p + from]);
        lemma_first_colon_unique(rest, i - from);
    }
    i
}

/// Build the flattened key for the slices `path[0..pkg_end]` (package path)
/// and `path[name_start..name_end]` (rule name), together with the
/// package-boundary flag for every key depth.
fn flatten_key(path: &str, pkg_end: usize, name_start: usize, name_end: usize) -> (r: (
    Vec<char>,
    Vec<bool>,
))
    requires
        pkg_end <= path@.len(),
        name_start <= name_end <= path@.len(),
    ensures
        r.0@ == key_chars(path@.take(pkg_end as int)) + path@.subrange(
            name_start as int,
            name_end as int,
        ),
        r.1@.len() == r.0@.len() + 1,
        forall|d: int|
            0 <= d <= r.0@.len()
                ==> (r.1@[d] <==> exists|q: int|
                0 <= q < pkg_end && path@[q] == '/' && key_chars(path@.take(q)).len() == d),
{
    let mut key: Vec<char> = Vec::new();
    let mut marks: Vec<bool> = Vec::new();
    marks.push(false);
    let mut p: usize = 0;
    while p < pkg_end
        invariant
            p <= pkg_end <= path@.len(),
            key@ == key_chars(path@.take(p as int)),
            marks@.len() == key@.len() + 1,
            forall|d: int|
                0 <= d <= key@.len()
                    ==> (marks@[d] <==> exists|q: int|
                    0 <= q < p && path@[q] == '/' && key_chars(path@.take(q)).len() == d),
        decreases pkg_end - p,
    {
        let c = path.get_char(p);
        proof {
            assert(path@.take(p + 1).drop_last() =~= path@.take(p as int));
            assert(path@.take(p + 1).last() == path@[p as int]);
        }
        if c == '/' {
            let _ = marks.pop();
            marks.push(true);
            proof {
                assert forall|q: int| 0 <= q <= p implies key_chars(path@.take(q)).len()
                    <= key@.len() by {
                    lemma_key_chars_prefix(path@.take(p as int), q);
                    assert(path@.take(p as int).take(q) =~= path@.take(q));
                }
            }
        } else {
            key.push(c);
            marks.push(false);
            proof {
                assert forall|q: int| 0 <= q <= p implies key_chars(path@.take(q)).len()
                    < key@.len() by {
                    lemma_key_chars_prefix(path@.take(p as int), q);
                    assert(path@.take(p as int).take(q) =~= path@.take(q));
                }
            }
        }
        p = p + 1;
    }
    let ghost pkg_key_len = key@.len() as int;
    let mut q = name_start;
    while q < name_end
        invariant
            name_start <= q <= name_end <= path@.len(),
            pkg_end <= path@.len(),
            key@ == key_chars(path@.take(pkg_end as int)) + path@.subrange(name_start as int, q as int),
            pkg_key_len == key_chars(path@.take(pkg_end as int)).len(),
            marks@.len() == pkg_key_len + 1,
            marks@.len() <= key@.len() + 1,
            forall|d: int|
                0 <= d <= pkg_key_len
                    ==> (marks@[d] <==> exists|qq: int|
                    0 <= qq < pkg_end && path@[qq] == '/' && key_chars(path@.take(qq)).len() == d),
        decreases name_end - q,
    {
        key.push(path.get_char(q));
        proof {
            assert(path@.subrange(name_start as int, q + 1) =~= path@.subrange(
                name_start as int,
                q as int,
            ).push(path@[q as int]));
        }
        q = q + 1;
    }
    while marks.len() <= key.len()
        invariant
            marks@.len() <= key@.len() + 1,
            marks@.len() > pkg_key_len,
            pkg_key_len <= key@.len(),
            forall|d: int|
                0 <= d < marks@.len()
                    ==> (marks@[d] <==> d <= pkg_key_len && exists|qq: int|
                    0 <= qq < pkg_end && path@[qq] == '/' && key_chars(path@.take(qq)).len() == d),
        decreases key@.len() + 1 - marks@.len(),
    {
        marks.push(false);
    }
    proof {
        assert forall|qq: int| 0 <= qq < pkg_end implies key_chars(path@.take(qq)).len()
            <= pkg_key_len by {
            lemma_key_chars_prefix(path@.take(pkg_end as int), qq);
            assert(path@.take(pkg_end as int).take(qq) =~= path@.take(qq));
        }
    }
    (key, marks)
}

/// The key a label is inserted under, and the package-boundary flag for every
/// key depth.
pub fn build_insert_key(path: &str) -> (r: (Vec<char>, Vec<bool>))
    ensures
        r.0@ == insert_key(path@),
        r.1@.len() == r.0@.len() + 1,
        forall|d: int| 0 <= d <= r.0@.len() ==> (r.1@[d] <==> boundary_at_depth(path@, d)),
{
    proof {
        assert(path@.skip(0) =~= path@);
    }
    let n = path.unicode_len();
    let c1 = find_colon(path, 0);
    let (pkg_end, name_start, name_end): (usize, usize, usize) = if c1 == n {
        (0, 0, n)
    } else {
        let c2 = find_colon(path, c1 + 1);
        (c1, c1 + 1, c2)
    };
    let r = flatten_key(path, pkg_end, name_start, name_end);
    proof {
        let pkg = insert_split(path@).0;
        let name = insert_split(path@).1;
        assert(pkg =~= path@.take(pkg_end as int));
        if c1 == n {
            assert(name =~= path@.subrange(name_start as int, name_end as int));
        } else {
            let rest = path@.skip(c1 + 1);
            assert(forall|p: int|
                0 <= p < rest.len() ==> rest[p] == path@[p + c1 + 1]);
            assert(name =~= path@.subrange(name_start as int, name_end as int));
        }
        assert(r.0@ == insert_key(path@));
        assert forall|d: int| 0 <= d <= r.0@.len() implies (r.1@[d] <==> boundary_at_depth(
            path@,
            d,
        )) by {
            if r.1@[d] {
                let q = choose|q: int|
                    0 <= q < pkg_end && path@[q] == '/' && key_chars(path@.take(q)).len() == d;
                assert(pkg[q] == '/');
                assert(pkg.take(q) =~= path@.take(q));
                assert(boundary_at_depth(path@, d));
            }
            if boundary_at_depth(path@, d) {
                let p = choose|p: int|
                    0 <= p < pkg.len() && pkg[p] == '/' && key_chars(pkg.take(p)).len() == d;
                assert(path@[p] == '/');
                assert(pkg.take(p) =~= path@.take(p));
            }
        }
    }
    r
}

/// The key a search prefix walks along.
pub fn build_search_key(prefix: &str) -> (r: Vec<char>)
    ensures
        r@ == search_key(prefix@),
{
    proof {
        assert(prefix@.skip(0) =~= prefix@);
    }
    let n = prefix.unicode_len();
    let c1 = find_colon(prefix, 0);
    let (pkg_end, name_start, name_end): (usize, usize, usize) = if c1 == n {
        (n, n, n)
    } else {
        let c2 = find_colon(prefix, c1 + 1);
        (c1, c1 + 1, c2)
    };
    let r = flatten_key(prefix, pkg_end, name_start, name_end);
    proof {
        let pkg = search_split(prefix@).0;
        let name = search_split(prefix@).1;
        assert(pkg =~= prefix@.take(pkg_end as int));
        if c1 == n {
            assert(name =~= prefix@.subrange(name_start as int, name_end as int));
        } else {
            let rest = prefix@.skip(c1 + 1);
            assert(forall|p: int|
                0 <= p < rest.len() ==> rest[p] == prefix@[p + c1 + 1]);
            assert(name =~= prefix@.subrange(name_start as int, name_end as int));
        }
        assert(r.0@ == search_key(prefix@));
    }
    r.0
}

/// A `:` visible in a prefix of `s` is the first `:` of `s` itself; a
/// colon-free prefix pushes the first `:` of `s` beyond its end.
pub proof fn lemma_first_colon_prefix(p: Seq<char>, s: Seq<char>)
    requires
        p.is_prefix_of(s),
    ensures
        first_colon(p) < p.len() ==> first_colon(s) == first_colon(p),
        first_colon(p) == p.len() ==> first_colon(s) >= p.len(),
{
    lemma_first_colon(p);
    lemma_first_colon(s);
    assert(forall|q: int| 0 <= q < p.len() ==> p[q] == s[q]);
    if first_colon(p) < p.len() {
        lemma_first_colon_unique(s, first_colon(p));
    } else {
        if first_colon(s) < p.len() {
            assert(p[first_colon(s)] == ':');
        }
    }
}

/// A prefix of something is also a prefix of any extension of it.
proof fn lemma_prefix_of_concat(a: Seq<char>, b: Seq<char>, c: Seq<char>)
    requires
        a.is_prefix_of(b),
    ensures
        a.is_prefix_of(b + c),
{
    assert((b + c).take(a.len() as int) =~= a);
}

/// Search keys grow with their prefixes: typing more characters can only
/// narrow a search further down the same branch of the trie.
pub proof fn lemma_search_key_monotonic(p: Seq<char>, s: Seq<char>)
    requires
        p.is_prefix_of(s),
    ensures
        search_key(p).is_prefix_of(search_key(s)),
    decreases s.len(),
{
    lemma_first_colon(p);
    lemma_first_colon(s);
    lemma_first_colon_prefix(p, s);
    let ip = first_colon(p);
    let is_ = first_colon(s);
    if ip < p.len() {
        // both split at the same colon
        assert(p.take(ip) =~= s.take(is_));
        let restp = p.skip(ip + 1);
        let rests = s.skip(is_ + 1);
        assert(restp.is_prefix_of(rests)) by {
            assert(rests.take(restp.len() as int) =~= restp);
        }
        lemma_first_colon(restp);
        lemma_first_colon(rests);
        lemma_first_colon_prefix(restp, rests);
        let jp = first_colon(restp);
        let js = first_colon(rests);
        if jp < restp.len() {
            assert(restp.take(jp) =~= rests.take(js));
            assert(search_key(p) == search_key(s));
        } else {
            assert(restp.take(jp) =~= restp);
            assert(restp.is_prefix_of(rests.take(js))) by {
                assert(rests.take(js).take(restp.len() as int) =~= restp);
            }
            assert(search_key(p).is_prefix_of(search_key(s))) by {
                assert(search_key(s).take(search_key(p).len() as int) =~= search_key(p));
            }
        }
    } else {
        // `p` is all package path
        assert(search_key(p) == key_chars(p));
        if is_ == s.len() {
            lemma_key_chars_prefix(s, p.len() as int);
            assert(s.take(p.len() as int) =~= p);
            assert(search_key(s) == key_chars(s));
        } else {
            let pkg = s.take(is_);
            assert(p.is_prefix_of(pkg)) by {
                assert(pkg.take(p.len() as int) =~= p);
            }
            lemma_key_chars_prefix(pkg, p.len() as int);
            assert(pkg.take(p.len() as int) =~= p);
            lemma_prefix_of_concat(key_chars(p), key_chars(pkg), insert_split(s).1);
        }
    }
}

/// For a label that holds a `:`, insertion and search agree on the split, so
/// they agree on the key.
pub proof fn lemma_keys_agree_with_colon(path: Seq<char>)
    requires
        first_colon(path) < path.len(),
    ensures
        search_key(path) == insert_key(path),
{
}

/// The flattened package prefix at a flagged depth is exactly the key prefix
/// of that length, so depth flags and boundary prefixes name the same nodes.
pub proof fn lemma_boundary_key(path: Seq<char>, key: Seq<char>, marks: Seq<bool>, k: Seq<char>)
    requires
        key == insert_key(path),
        marks.len() == key.len() + 1,
        forall|d: int| 0 <= d <= key.len() ==> (marks[d] <==> boundary_at_depth(path, d)),
    ensures
        (exists|d: int| 0 <= d <= key.len() && marks[d] && k == key.subrange(0, d))
            <==> boundary_marked(path, k),
{
    let pkg = insert_split(path).0;
    assert(key_chars(pkg).is_prefix_of(key)) by {
        assert(key.take(key_chars(pkg).len() as int) =~= key_chars(pkg));
    }
    if exists|d: int| 0 <= d <= key.len() && marks[d] && k == key.subrange(0, d) {
        let d = choose|d: int| 0 <= d <= key.len() && marks[d] && k == key.subrange(0, d);
        let p = choose|p: int|
            0 <= p < pkg.len() && pkg[p] == '/' && key_chars(pkg.take(p)).len() == d;
        lemma_key_chars_prefix(pkg, p);
        assert(key_chars(pkg.take(p)) =~= key.subrange(0, d));
        assert(boundary_marked(path, k));
    }
    if boundary_marked(path, k) {
        let p = choose|p: int|
            0 <= p < pkg.len() && pkg[p] == '/' && k == key_chars(pkg.take(p));
        lemma_key_chars_prefix(pkg, p);
        let d = key_chars(pkg.take(p)).len() as int;
        assert(boundary_at_depth(path, d));
        assert(marks[d]);
        assert(k =~= key.subrange(0, d));
        assert(0 <= d <= key.len() && marks[d] && k == key.subrange(0, d));
    }
}

} // verus!
