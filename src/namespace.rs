//! The tree materializer: folds a flat listing of paths into a namespace
//! tree whose children are ordered by segment name.
//!
//! The tree is held in pre-order: each node is stored under its full path,
//! and nodes are sorted by comparing paths segment by segment, which is
//! character order with `/` placed below every other character. A node's
//! children then follow it in name order, each before its own subtree.

use vstd::prelude::*;
use crate::text::{chars_of, str_equal};

verus! {

/// Character order of paths: `/` comes before every other character.
pub open spec fn char_less(x: char, y: char) -> bool {
    ||| (x == '/' && y != '/')
    ||| (x != '/' && y != '/' && x < y)
}

/// `a` and `b` agree on their first `i` characters.
pub open spec fn agree(a: Seq<char>, b: Seq<char>, i: int) -> bool {
    forall|j: int| 0 <= j < i ==> #[trigger] a[j] == b[j]
}

/// `a` comes before `b`, and they first differ at index `i`.
pub open spec fn less_at(a: Seq<char>, b: Seq<char>, i: int) -> bool {
    &&& 0 <= i <= a.len()
    &&& i <= b.len()
    &&& agree(a, b, i)
    &&& {
        ||| (i == a.len() && i < b.len())
        ||| (i < a.len() && i < b.len() && char_less(a[i], b[i]))
    }
}

/// Path order: lexicographic by segment, so a directory comes before its
/// contents and siblings are ordered by name.
pub open spec fn path_less(a: Seq<char>, b: Seq<char>) -> bool {
    exists|i: int| less_at(a, b, i)
}

pub proof fn lemma_path_less_irreflexive(a: Seq<char>)
    ensures
        !path_less(a, a),
{
}

pub proof fn lemma_path_less_transitive(a: Seq<char>, b: Seq<char>, c: Seq<char>)
    requires
        path_less(a, b),
        path_less(b, c),
    ensures
        path_less(a, c),
{
    let i = choose|i: int| less_at(a, b, i);
    let j = choose|j: int| less_at(b, c, j);
    let k = if i < j {
        i
    } else {
        j
    };
    assert(agree(a, c, k)) by {
        assert forall|m: int| 0 <= m < k implies #[trigger] a[m] == c[m] by {
            assert(a[m] == b[m]);
            assert(b[m] == c[m]);
        }
    }
    if i < j {
        assert(b[i] == c[i]);
    } else if j < i {
        assert(a[j] == b[j]);
    }
    assert(less_at(a, c, k));
}

proof fn lemma_path_less_total_from(a: Seq<char>, b: Seq<char>, i: int)
    requires
        0 <= i <= a.len(),
        i <= b.len(),
        agree(a, b, i),
        a != b,
    ensures
        path_less(a, b) || path_less(b, a),
    decreases a.len() - i,
{
    if i == a.len() && i == b.len() {
        assert(a =~= b);
    } else if i == a.len() {
        assert(less_at(a, b, i));
    } else if i == b.len() {
        assert(agree(b, a, i));
        assert(less_at(b, a, i));
    } else if a[i] != b[i] {
        assert(agree(b, a, i));
        if char_less(a[i], b[i]) {
            assert(less_at(a, b, i));
        } else {
            assert(a[i] as int != b[i] as int);
            assert(less_at(b, a, i));
        }
    } else {
        lemma_path_less_total_from(a, b, i + 1);
    }
}

/// Any two different paths are ordered one way.
pub proof fn lemma_path_less_total(a: Seq<char>, b: Seq<char>)
    requires
        a != b,
    ensures
        path_less(a, b) || path_less(b, a),
{
    lemma_path_less_total_from(a, b, 0);
}

pub proof fn lemma_path_less_asymmetric(a: Seq<char>, b: Seq<char>)
    requires
        path_less(a, b),
    ensures
        !path_less(b, a),
{
    if path_less(b, a) {
        lemma_path_less_transitive(a, b, a);
    }
}

/// Compares two paths in path order.
pub fn key_less(a: &Vec<char>, b: &Vec<char>) -> (r: bool)
    ensures
        r == path_less(a@, b@),
{
    let mut i: usize = 0;
    while i < a.len() && i < b.len() && a[i] == b[i]
        invariant
            i <= a@.len(),
            i <= b@.len(),
            agree(a@, b@, i as int),
        decreases a@.len() - i,
    {
        i = i + 1;
    }
    proof {
        assert(agree(b@, a@, i as int));
    }
    if i == a.len() {
        if i < b.len() {
            assert(less_at(a@, b@, i as int));
            return true;
        }
        assert(a@ =~= b@);
        return false;
    }
    if i == b.len() {
        assert(less_at(b@, a@, i as int));
        proof {
            lemma_path_less_asymmetric(b@, a@);
        }
        return false;
    }
    let ca = a[i];
    let cb = b[i];
    let less = if ca == '/' {
        true
    } else if cb == '/' {
        false
    } else {
        ca < cb
    };
    proof {
        if less {
            assert(less_at(a@, b@, i as int));
        } else {
            assert(less_at(b@, a@, i as int));
            lemma_path_less_asymmetric(b@, a@);
        }
    }
    less
}

} // verus!

verus! {

/// What a tree listing says an entry is.
#[derive(Clone, Copy, Debug, PartialEq, Eq, Structural)]
pub enum EntryKind {
    /// A file.
    Blob,
    /// A directory.
    Tree,
    /// Anything else the listing reports (a submodule commit, say).
    Other,
}

pub open spec fn entry_kind_spec(item_type: Seq<char>) -> EntryKind {
    if item_type == "blob"@ {
        EntryKind::Blob
    } else if item_type == "tree"@ {
        EntryKind::Tree
    } else {
        EntryKind::Other
    }
}

/// Reads the kind of a tree entry: `blob`, `tree`, or another.
pub fn entry_kind(item_type: &str) -> (r: EntryKind)
    ensures
        r == entry_kind_spec(item_type@),
{
    if str_equal(item_type, "blob") {
        EntryKind::Blob
    } else if str_equal(item_type, "tree") {
        EntryKind::Tree
    } else {
        EntryKind::Other
    }
}

/// One entry of a recursive tree listing.
pub struct TreeEntry {
    /// Slash-separated path from the repository root.
    pub path: String,
    pub kind: EntryKind,
}

/// `p` names a node on the way to `q`: `q` itself, or `q` cut just before one
/// of its slashes (the path of an enclosing directory).
pub open spec fn is_node_of(q: Seq<char>, p: Seq<char>) -> bool {
    &&& p.len() <= q.len()
    &&& p == q.subrange(0, p.len() as int)
    &&& (p.len() == q.len() || q[p.len() as int] == '/')
}

/// `p` is a node of the namespace of `es`.
pub open spec fn in_namespace(es: Seq<TreeEntry>, p: Seq<char>) -> bool {
    exists|i: int| 0 <= i < es.len() && is_node_of(#[trigger] es[i].path@, p)
}

/// The kind that `es` gives to the path `p`: that of the last entry with that
/// path, if there is one.
pub open spec fn tag_of(es: Seq<TreeEntry>, p: Seq<char>) -> Option<EntryKind>
    decreases es.len(),
{
    if es.len() == 0 {
        None
    } else if es.last().path@ == p {
        Some(es.last().kind)
    } else {
        tag_of(es.drop_last(), p)
    }
}

proof fn lemma_tag_in_namespace(es: Seq<TreeEntry>, p: Seq<char>)
    requires
        !in_namespace(es, p),
    ensures
        tag_of(es, p) is None,
    decreases es.len(),
{
    if es.len() > 0 {
        let last = es.len() - 1;
        if es.last().path@ == p {
            assert(is_node_of(es[last].path@, p)) by {
                assert(p =~= p.subrange(0, p.len() as int));
            }
        }
        assert forall|i: int| 0 <= i < es.drop_last().len() implies !is_node_of(
            #[trigger] es.drop_last()[i].path@,
            p,
        ) by {
            assert(es.drop_last()[i] == es[i]);
        }
        lemma_tag_in_namespace(es.drop_last(), p);
    }
}

proof fn lemma_namespace_push(es: Seq<TreeEntry>, e: TreeEntry)
    ensures
        forall|p: Seq<char>| #[trigger]
            in_namespace(es.push(e), p) == (in_namespace(es, p) || is_node_of(e.path@, p)),
{
    let t = es.push(e);
    assert forall|p: Seq<char>| #[trigger] in_namespace(t, p) == (in_namespace(es, p) || is_node_of(
        e.path@,
        p,
    )) by {
        if in_namespace(es, p) {
            let i = choose|i: int| 0 <= i < es.len() && is_node_of(#[trigger] es[i].path@, p);
            assert(t[i] == es[i]);
        }
        if is_node_of(e.path@, p) {
            assert(t[es.len() as int] == e);
        }
        if in_namespace(t, p) {
            let i = choose|i: int| 0 <= i < t.len() && is_node_of(#[trigger] t[i].path@, p);
            if i < es.len() {
                assert(t[i] == es[i]);
            }
        }
    }
}

/// Paths in strictly increasing path order.
pub open spec fn sorted(s: Seq<Seq<char>>) -> bool {
    forall|i: int, j: int| 0 <= i < j < s.len() ==> path_less(#[trigger] s[i], #[trigger] s[j])
}

/// `paths` and `tags` list, in path order and once each, the nodes that
/// `member` holds, each with the tag that `tag` gives it.
pub open spec fn describes(
    paths: Seq<Seq<char>>,
    tags: Seq<Option<EntryKind>>,
    member: spec_fn(Seq<char>) -> bool,
    tag: spec_fn(Seq<char>) -> Option<EntryKind>,
) -> bool {
    &&& paths.len() == tags.len()
    &&& sorted(paths)
    &&& forall|p: Seq<char>| paths.contains(p) <==> #[trigger] member(p)
    &&& forall|k: int| 0 <= k < paths.len() ==> #[trigger] tags[k] == tag(paths[k])
}

proof fn lemma_describes_same(
    paths: Seq<Seq<char>>,
    tags: Seq<Option<EntryKind>>,
    m1: spec_fn(Seq<char>) -> bool,
    t1: spec_fn(Seq<char>) -> Option<EntryKind>,
    m2: spec_fn(Seq<char>) -> bool,
    t2: spec_fn(Seq<char>) -> Option<EntryKind>,
)
    requires
        describes(paths, tags, m1, t1),
        forall|p: Seq<char>| #[trigger] m2(p) == m1(p),
        forall|p: Seq<char>| #[trigger] t2(p) == t1(p),
    ensures
        describes(paths, tags, m2, t2),
{
    assert forall|p: Seq<char>| paths.contains(p) <==> #[trigger] m2(p) by {
        assert(m1(p) == m2(p));
    }
    assert forall|k: int| 0 <= k < paths.len() implies #[trigger] tags[k] == t2(paths[k]) by {
        assert(t1(paths[k]) == t2(paths[k]));
    }
}

/// `paths` and `tags` are those of a namespace that `member` and `old_tag`
/// described, after the node `key` was added and, if `tag` is given, tagged.
pub open spec fn describes_after_upsert(
    paths: Seq<Seq<char>>,
    tags: Seq<Option<EntryKind>>,
    member: spec_fn(Seq<char>) -> bool,
    old_tag: spec_fn(Seq<char>) -> Option<EntryKind>,
    key: Seq<char>,
    tag: Option<EntryKind>,
) -> bool {
    &&& paths.len() == tags.len()
    &&& sorted(paths)
    &&& forall|p: Seq<char>| paths.contains(p) <==> (#[trigger] member(p) || p == key)
    &&& forall|k: int|
        0 <= k < paths.len() ==> #[trigger] tags[k] == if paths[k] == key && tag is Some {
            tag
        } else {
            old_tag(paths[k])
        }
}

#[verifier::spinoff_prover]
proof fn lemma_describes_after_upsert(
    paths: Seq<Seq<char>>,
    tags: Seq<Option<EntryKind>>,
    member: spec_fn(Seq<char>) -> bool,
    old_tag: spec_fn(Seq<char>) -> Option<EntryKind>,
    key: Seq<char>,
    tag: Option<EntryKind>,
    m2: spec_fn(Seq<char>) -> bool,
    t2: spec_fn(Seq<char>) -> Option<EntryKind>,
)
    requires
        describes_after_upsert(paths, tags, member, old_tag, key, tag),
        forall|p: Seq<char>| #[trigger] m2(p) == (member(p) || p == key),
        forall|p: Seq<char>|
            #[trigger] t2(p) == if p == key && tag is Some {
                tag
            } else {
                old_tag(p)
            },
    ensures
        describes(paths, tags, m2, t2),
{
    assert forall|p: Seq<char>| paths.contains(p) <==> #[trigger] m2(p) by {
        assert(paths.contains(p) <==> (member(p) || p == key));
        assert(m2(p) == (member(p) || p == key));
    }
    assert forall|k: int| 0 <= k < paths.len() implies #[trigger] tags[k] == t2(paths[k]) by {
        assert(t2(paths[k]) == if paths[k] == key && tag is Some {
            tag
        } else {
            old_tag(paths[k])
        });
    }
}

proof fn lemma_upsert_described(
    paths: Seq<Seq<char>>,
    tags: Seq<Option<EntryKind>>,
    member: spec_fn(Seq<char>) -> bool,
    old_tag: spec_fn(Seq<char>) -> Option<EntryKind>,
    key: Seq<char>,
    tag: Option<EntryKind>,
    m2: spec_fn(Seq<char>) -> bool,
    t2: spec_fn(Seq<char>) -> Option<EntryKind>,
)
    requires
        describes(paths, tags, m2, t2),
        forall|p: Seq<char>| #[trigger] m2(p) == (member(p) || p == key),
        forall|p: Seq<char>|
            #[trigger] t2(p) == if p == key && tag is Some {
                tag
            } else {
                old_tag(p)
            },
    ensures
        describes_after_upsert(paths, tags, member, old_tag, key, tag),
{
    assert forall|p: Seq<char>| paths.contains(p) <==> (#[trigger] member(p) || p == key) by {
        assert(m2(p) == (member(p) || p == key));
    }
    assert forall|k: int| 0 <= k < paths.len() implies #[trigger] tags[k] == if paths[k] == key
        && tag is Some {
        tag
    } else {
        old_tag(paths[k])
    } by {
        assert(t2(paths[k]) == tags[k]);
    }
}

/// One node of the namespace: its full path and, when an entry names it, its kind.
pub struct NamespaceNode {
    pub path: String,
    pub kind: Option<EntryKind>,
}

/// A namespace tree in pre-order (see the module documentation).
pub struct Namespace {
    nodes: Vec<NamespaceNode>,
    keys: Vec<Vec<char>>,
}

pub open spec fn node_paths(nodes: Seq<NamespaceNode>) -> Seq<Seq<char>> {
    nodes.map_values(|n: NamespaceNode| n.path@)
}

pub open spec fn node_tags(nodes: Seq<NamespaceNode>) -> Seq<Option<EntryKind>> {
    nodes.map_values(|n: NamespaceNode| n.kind)
}

impl Namespace {
    /// The node paths, in pre-order.
    pub closed spec fn paths(&self) -> Seq<Seq<char>> {
        node_paths(self.nodes@)
    }

    /// The node tags, in the same order.
    pub closed spec fn tags(&self) -> Seq<Option<EntryKind>> {
        node_tags(self.nodes@)
    }

    pub closed spec fn wf(&self) -> bool {
        &&& self.keys@.len() == self.nodes@.len()
        &&& forall|k: int| 0 <= k < self.keys@.len() ==> #[trigger] self.keys@[k]@ == self.nodes@[k].path@
        &&& sorted(self.paths())
    }

    /// Adds the nodes of one entry: each enclosing directory of its path,
    /// then the path itself, tagged with the entry's kind.
    fn add_entry(&mut self, e: &TreeEntry, Ghost(es): Ghost<Seq<TreeEntry>>)
        requires
            old(self).wf(),
            describes(
                old(self).paths(),
                old(self).tags(),
                |p: Seq<char>| in_namespace(es, p),
                |p: Seq<char>| tag_of(es, p),
            ),
        ensures
            final(self).wf(),
            describes(
                final(self).paths(),
                final(self).tags(),
                |p: Seq<char>| in_namespace(es.push(*e), p),
                |p: Seq<char>| tag_of(es.push(*e), p),
            ),
    {
        let ghost q = e.path@;
        let ghost t = |p: Seq<char>| tag_of(es, p);
        let cs = chars_of(e.path.as_str());
        let n = cs.len();
        let mut j: usize = 0;
        proof {
            let m0 = |p: Seq<char>| in_namespace(es, p) || (is_node_of(q, p) && p.len() < 0);
            assert forall|p: Seq<char>| #[trigger] m0(p) == in_namespace(es, p) by {}
            lemma_describes_same(
                self.paths(),
                self.tags(),
                |p: Seq<char>| in_namespace(es, p),
                t,
                m0,
                t,
            );
        }
        while j < n
            invariant
                self.wf(),
                q == e.path@,
                t == (|p: Seq<char>| tag_of(es, p)),
                cs@ == q,
                n == q.len(),
                j <= n,
                describes(
                    self.paths(),
                    self.tags(),
                    |p: Seq<char>| in_namespace(es, p) || (is_node_of(q, p) && p.len() < j),
                    t,
                ),
            decreases n - j,
        {
            let ghost member = |p: Seq<char>| in_namespace(es, p) || (is_node_of(q, p) && p.len() < j);
            if cs[j] == '/' {
                let sub = e.path.as_str().substring_char(0, j);
                let key = chars_of(sub);
                let path = String::from_str(sub);
                proof {
                    assert(key@ == q.subrange(0, j as int));
                    if !member(key@) {
                        assert(!in_namespace(es, key@));
                        lemma_tag_in_namespace(es, key@);
                        assert(t(key@) is None);
                    }
                }
                self.upsert(key, path, None, Ghost(member), Ghost(t));
                proof {
                    let next = |p: Seq<char>| in_namespace(es, p) || (is_node_of(q, p) && p.len() < j + 1);
                    assert forall|p: Seq<char>| #[trigger] next(p) == (member(p) || p == key@) by {
                        if is_node_of(q, p) && p.len() == j {
                            assert(p =~= key@);
                        }
                        if p == key@ {
                            assert(is_node_of(q, p));
                        }
                    }
                    lemma_describes_after_upsert(self.paths(), self.tags(), member, t, key@, None, next, t);
                }
            } else {
                proof {
                    let next = |p: Seq<char>| in_namespace(es, p) || (is_node_of(q, p) && p.len() < j + 1);
                    assert forall|p: Seq<char>| #[trigger] next(p) == member(p) by {}
                    lemma_describes_same(self.paths(), self.tags(), member, t, next, t);
                }
            }
            j = j + 1;
        }
        let path = e.path.clone();
        proof {
            assert(cs@ =~= q);
            lemma_namespace_push(es, *e);
        }
        let ghost member = |p: Seq<char>| in_namespace(es, p) || (is_node_of(q, p) && p.len() < n);
        proof {
            if !member(q) {
                lemma_tag_in_namespace(es, q);
            }
            assert(q.subrange(0, q.len() as int) =~= q);
            assert forall|p: Seq<char>| #[trigger] in_namespace(es.push(*e), p) == (member(p) || p == q) by {
                if is_node_of(q, p) && p.len() == n {
                    assert(p =~= q);
                }
            }
            assert forall|p: Seq<char>| #[trigger] tag_of(es.push(*e), p) == (if p == q && Some(e.kind) is Some {
                Some(e.kind)
            } else {
                t(p)
            }) by {
                assert(es.push(*e).drop_last() =~= es);
            }
        }
        self.upsert(cs, path, Some(e.kind), Ghost(member), Ghost(t));
        proof {
            lemma_describes_after_upsert(
                self.paths(),
                self.tags(),
                member,
                t,
                q,
                Some(e.kind),
                |p: Seq<char>| in_namespace(es.push(*e), p),
                |p: Seq<char>| tag_of(es.push(*e), p),
            );
        }
    }

    /// Position of `key` among the nodes: the first node not before it.
    fn search(&self, key: &Vec<char>) -> (pos: usize)
        requires
            self.wf(),
        ensures
            pos <= self.paths().len(),
            forall|k: int| 0 <= k < pos ==> path_less(#[trigger] self.paths()[k], key@),
            forall|k: int| pos <= k < self.paths().len() ==> !path_less(#[trigger] self.paths()[k], key@),
    {
        let ghost ps = self.paths();
        let mut lo: usize = 0;
        let mut hi: usize = self.keys.len();
        while lo < hi
            invariant
                self.wf(),
                ps == self.paths(),
                lo <= hi <= ps.len(),
                forall|k: int| 0 <= k < lo ==> path_less(#[trigger] ps[k], key@),
                forall|k: int| hi <= k < ps.len() ==> !path_less(#[trigger] ps[k], key@),
            decreases hi - lo,
        {
            let mid = lo + (hi - lo) / 2;
            assert(self.keys@[mid as int]@ == ps[mid as int]);
            if key_less(&self.keys[mid], key) {
                assert forall|k: int| 0 <= k <= mid implies path_less(#[trigger] ps[k], key@) by {
                    if k < mid {
                        lemma_path_less_transitive(ps[k], ps[mid as int], key@);
                    }
                }
                lo = mid + 1;
            } else {
                assert forall|k: int| mid <= k < ps.len() implies !path_less(#[trigger] ps[k], key@) by {
                    if k > mid && path_less(ps[k], key@) {
                        lemma_path_less_transitive(ps[mid as int], ps[k], key@);
                    }
                }
                hi = mid;
            }
        }
        lo
    }

    /// Adds the node `key` (whose path text is `path`) if it is missing, and
    /// tags it with `tag` when that is given.
    fn upsert(
        &mut self,
        key: Vec<char>,
        path: String,
        tag: Option<EntryKind>,
        Ghost(member): Ghost<spec_fn(Seq<char>) -> bool>,
        Ghost(old_tag): Ghost<spec_fn(Seq<char>) -> Option<EntryKind>>,
    )
        requires
            old(self).wf(),
            key@ == path@,
            describes(old(self).paths(), old(self).tags(), member, old_tag),
            !member(key@) ==> old_tag(key@) is None,
        ensures
            final(self).wf(),
            describes_after_upsert(final(self).paths(), final(self).tags(), member, old_tag, key@, tag),
    {
        let ghost ps = self.paths();
        let ghost ts = self.tags();
        let ghost new_member = |p: Seq<char>| member(p) || p == key@;
        let ghost new_tag = |p: Seq<char>|
            if p == key@ && tag is Some {
                tag
            } else {
                old_tag(p)
            };
        let ghost kv = key@;
        let pos = self.search(&key);
        let found = pos < self.keys.len() && !key_less(&key, &self.keys[pos]);
        if found {
            proof {
                assert(self.keys@[pos as int]@ == ps[pos as int]);
                if ps[pos as int] != key@ {
                    lemma_path_less_total(ps[pos as int], key@);
                }
                assert(ps[pos as int] == key@);
            }
            match tag {
                Some(_) => {
                    let p = self.nodes[pos].path.clone();
                    self.nodes.set(pos, NamespaceNode { path: p, kind: tag });
                    proof {
                        assert(self.paths() =~= ps);
                        assert(self.tags() =~= ts.update(pos as int, tag));
                        assert forall|k: int| 0 <= k < ps.len() && k != pos implies ps[k] != key@ by {
                            if k < pos {
                                lemma_path_less_irreflexive(key@);
                            } else {
                                assert(sorted(ps));
                                assert(path_less(ps[pos as int], ps[k]));
                                lemma_path_less_irreflexive(key@);
                            }
                        }
                        assert(forall|k: int| 0 <= k < self.keys@.len() ==> #[trigger] self.keys@[k]@ == self.nodes@[k].path@);
                    }
                },
                None => {
                    proof {
                        assert forall|p: Seq<char>| ps.contains(p) <==> #[trigger] new_member(p) by {
                            if p == key@ {
                                assert(ps[pos as int] == p);
                            }
                        }
                    }
                },
            }
            proof {
                assert forall|p: Seq<char>| self.paths().contains(p) <==> #[trigger] new_member(p) by {
                    if p == key@ {
                        assert(self.paths()[pos as int] == p);
                    }
                }
            }
        } else {
            proof {
                if pos < ps.len() {
                    assert(self.keys@[pos as int]@ == ps[pos as int]);
                    assert(ps[pos as int] != key@) by {
                        lemma_path_less_irreflexive(key@);
                    }
                    lemma_path_less_total(ps[pos as int], key@);
                    assert(path_less(key@, ps[pos as int]));
                }
                assert(!ps.contains(key@)) by {
                    if ps.contains(key@) {
                        let k = choose|k: int| 0 <= k < ps.len() && ps[k] == key@;
                        lemma_path_less_irreflexive(key@);
                        if k >= pos && k != pos {
                            assert(path_less(ps[pos as int], ps[k]));
                            lemma_path_less_asymmetric(key@, ps[pos as int]);
                        }
                    }
                }
            }
            let node = NamespaceNode { path, kind: tag };
            let ghost ins = node;
            self.nodes.insert(pos, node);
            self.keys.insert(pos, key);
            proof {
                let nps = self.paths();
                let nts = self.tags();
                assert(nps =~= ps.insert(pos as int, key@));
                assert(nts =~= ts.insert(pos as int, tag));
                assert forall|k: int| 0 <= k < self.keys@.len() implies #[trigger] self.keys@[k]@
                    == self.nodes@[k].path@ by {
                    if k < pos {
                        assert(self.keys@[k] == old(self).keys@[k]);
                        assert(self.nodes@[k] == old(self).nodes@[k]);
                    } else if k > pos {
                        assert(self.keys@[k] == old(self).keys@[k - 1]);
                        assert(self.nodes@[k] == old(self).nodes@[k - 1]);
                    }
                }
                assert forall|i: int, j: int| 0 <= i < j < nps.len() implies path_less(
                    #[trigger] nps[i],
                    #[trigger] nps[j],
                ) by {
                    if j < pos {
                    } else if j == pos {
                        assert(nps[i] == ps[i]);
                    } else if i == pos {
                        assert(nps[j] == ps[j - 1]);
                        if j - 1 > pos {
                            lemma_path_less_transitive(key@, ps[pos as int], ps[j - 1]);
                        }
                    } else if i < pos {
                        assert(nps[i] == ps[i]);
                        assert(nps[j] == ps[j - 1]);
                    } else {
                        assert(nps[i] == ps[i - 1]);
                        assert(nps[j] == ps[j - 1]);
                    }
                }
                assert forall|p: Seq<char>| nps.contains(p) <==> #[trigger] new_member(p) by {
                    if nps.contains(p) {
                        let k = choose|k: int| 0 <= k < nps.len() && nps[k] == p;
                        if k < pos {
                            assert(ps[k] == p);
                        } else if k > pos {
                            assert(ps[k - 1] == p);
                        }
                    }
                    if new_member(p) {
                        if p == key@ {
                            assert(nps[pos as int] == p);
                        } else {
                            assert(ps.contains(p));
                            let k = choose|k: int| 0 <= k < ps.len() && ps[k] == p;
                            if k < pos {
                                assert(nps[k] == p);
                            } else {
                                assert(nps[k + 1] == p);
                            }
                        }
                    }
                }
                assert forall|k: int| 0 <= k < nps.len() implies #[trigger] nts[k] == new_tag(nps[k]) by {
                    if k < pos {
                        assert(nps[k] == ps[k]);
                        assert(nts[k] == ts[k]);
                        assert(ps[k] != key@) by {
                            lemma_path_less_irreflexive(key@);
                        }
                    } else if k > pos {
                        assert(nps[k] == ps[k - 1]);
                        assert(nts[k] == ts[k - 1]);
                        assert(ps[k - 1] != key@) by {
                            lemma_path_less_irreflexive(key@);
                            if k - 1 > pos {
                                lemma_path_less_transitive(key@, ps[pos as int], ps[k - 1]);
                            }
                        }
                    } else {
                        assert(!member(key@));
                    }
                }
            }
        }
        proof {
            lemma_upsert_described(self.paths(), self.tags(), member, old_tag, kv, tag, new_member, new_tag);
        }
    }
}
} // verus!

verus! {

/// `paths` and `tags` are the namespace of the entries `es`: every node on the
/// way to an entry's path, once, in path order, each tagged with the kind
/// that the entries give its path (none for a directory with no entry).
pub open spec fn builds(paths: Seq<Seq<char>>, tags: Seq<Option<EntryKind>>, es: Seq<TreeEntry>) -> bool {
    describes(paths, tags, |p: Seq<char>| in_namespace(es, p), |p: Seq<char>| tag_of(es, p))
}

proof fn lemma_builds(paths: Seq<Seq<char>>, tags: Seq<Option<EntryKind>>, es: Seq<TreeEntry>)
    requires
        builds(paths, tags, es),
    ensures
        sorted(paths),
        paths.len() == tags.len(),
        forall|p: Seq<char>| #[trigger] paths.contains(p) <==> in_namespace(es, p),
        forall|k: int| 0 <= k < paths.len() ==> #[trigger] tags[k] == tag_of(es, paths[k]),
{
    let m = |p: Seq<char>| in_namespace(es, p);
    let t = |p: Seq<char>| tag_of(es, p);
    assert forall|p: Seq<char>| #[trigger] paths.contains(p) <==> in_namespace(es, p) by {
        assert(m(p) == in_namespace(es, p));
    }
    assert forall|k: int| 0 <= k < paths.len() implies #[trigger] tags[k] == tag_of(es, paths[k]) by {
        assert(t(paths[k]) == tag_of(es, paths[k]));
    }
}

/// No two entries share a path.
pub open spec fn unique_paths(es: Seq<TreeEntry>) -> bool {
    forall|i: int, j: int| 0 <= i < j < es.len() ==> #[trigger] es[i].path@ != #[trigger] es[j].path@
}

/// Folds a flat listing into its namespace tree (see `builds`).
pub fn build_namespace(entries: &Vec<TreeEntry>) -> (r: Namespace)
    ensures
        r.wf(),
        builds(r.paths(), r.tags(), entries@),
{
    let mut ns = Namespace { nodes: Vec::new(), keys: Vec::new() };
    proof {
        assert(ns.paths() =~= Seq::<Seq<char>>::empty());
        assert(ns.tags() =~= Seq::<Option<EntryKind>>::empty());
        assert(entries@.subrange(0, 0) =~= Seq::<TreeEntry>::empty());
    }
    let mut i: usize = 0;
    while i < entries.len()
        invariant
            ns.wf(),
            i <= entries@.len(),
            builds(ns.paths(), ns.tags(), entries@.subrange(0, i as int)),
        decreases entries@.len() - i,
    {
        let ghost es = entries@.subrange(0, i as int);
        ns.add_entry(&entries[i], Ghost(es));
        proof {
            let next = entries@.subrange(0, i + 1);
            assert(next =~= es.push(entries@[i as int]));
            lemma_describes_same(
                ns.paths(),
                ns.tags(),
                |p: Seq<char>| in_namespace(es.push(entries@[i as int]), p),
                |p: Seq<char>| tag_of(es.push(entries@[i as int]), p),
                |p: Seq<char>| in_namespace(next, p),
                |p: Seq<char>| tag_of(next, p),
            );
        }
        i = i + 1;
    }
    proof {
        assert(entries@.subrange(0, entries@.len() as int) =~= entries@);
    }
    ns
}

impl Namespace {
    /// The nodes in pre-order: each directory before its contents, siblings
    /// by name.
    pub fn nodes(&self) -> (r: &Vec<NamespaceNode>)
        ensures
            node_paths(r@) == self.paths(),
            node_tags(r@) == self.tags(),
    {
        &self.nodes
    }
}

proof fn lemma_tag_some(es: Seq<TreeEntry>, p: Seq<char>)
    requires
        tag_of(es, p) is Some,
    ensures
        exists|i: int|
            0 <= i < es.len() && #[trigger] es[i].path@ == p && tag_of(es, p) == Some(es[i].kind),
    decreases es.len(),
{
    if es.last().path@ != p {
        lemma_tag_some(es.drop_last(), p);
        let i = choose|i: int|
            0 <= i < es.drop_last().len() && #[trigger] es.drop_last()[i].path@ == p && tag_of(
                es.drop_last(),
                p,
            ) == Some(es.drop_last()[i].kind);
        assert(es[i] == es.drop_last()[i]);
    } else {
        assert(es[es.len() - 1].path@ == p);
    }
}

proof fn lemma_tag_unique(es: Seq<TreeEntry>, i: int)
    requires
        unique_paths(es),
        0 <= i < es.len(),
    ensures
        tag_of(es, es[i].path@) == Some(es[i].kind),
    decreases es.len(),
{
    if i < es.len() - 1 {
        assert(es[i].path@ != es[es.len() - 1].path@);
        let d = es.drop_last();
        assert(d[i] == es[i]);
        assert(unique_paths(d)) by {
            assert forall|a: int, b: int| 0 <= a < b < d.len() implies #[trigger] d[a].path@
                != #[trigger] d[b].path@ by {
                assert(d[a] == es[a]);
                assert(d[b] == es[b]);
            }
        }
        lemma_tag_unique(d, i);
    }
}

/// Round trip: building the namespace of entries with distinct paths and
/// walking its nodes in order gives back exactly those paths with their
/// kinds; every other node is an enclosing directory of some entry and
/// carries no kind; and no path appears twice.
pub proof fn lemma_round_trip(es: Seq<TreeEntry>, paths: Seq<Seq<char>>, tags: Seq<Option<EntryKind>>)
    requires
        builds(paths, tags, es),
        unique_paths(es),
    ensures
        forall|i: int|
            0 <= i < es.len() ==> exists|k: int|
                0 <= k < paths.len() && #[trigger] paths[k] == #[trigger] es[i].path@ && tags[k]
                    == Some(es[i].kind),
        forall|k: int|
            0 <= k < paths.len() && #[trigger] tags[k] is Some ==> exists|i: int|
                0 <= i < es.len() && #[trigger] es[i].path@ == paths[k] && tags[k] == Some(
                    es[i].kind,
                ),
        forall|k: int|
            0 <= k < paths.len() && #[trigger] tags[k] is None ==> exists|i: int|
                0 <= i < es.len() && is_node_of(#[trigger] es[i].path@, paths[k]) && es[i].path@
                    != paths[k],
        forall|k1: int, k2: int|
            0 <= k1 < k2 < paths.len() ==> #[trigger] paths[k1] != #[trigger] paths[k2],
{
    lemma_builds(paths, tags, es);
    assert forall|i: int| 0 <= i < es.len() implies exists|k: int|
        0 <= k < paths.len() && #[trigger] paths[k] == #[trigger] es[i].path@ && tags[k] == Some(
            es[i].kind,
        ) by {
        let q = es[i].path@;
        assert(q.subrange(0, q.len() as int) =~= q);
        assert(is_node_of(es[i].path@, q));
        assert(in_namespace(es, q));
        assert(paths.contains(q));
        let k = choose|k: int| 0 <= k < paths.len() && paths[k] == q;
        lemma_tag_unique(es, i);
        assert(tags[k] == tag_of(es, paths[k]));
    }
    assert forall|k: int| 0 <= k < paths.len() && #[trigger] tags[k] is Some implies exists|i: int|
        0 <= i < es.len() && #[trigger] es[i].path@ == paths[k] && tags[k] == Some(es[i].kind) by {
        assert(tags[k] == tag_of(es, paths[k]));
        lemma_tag_some(es, paths[k]);
    }
    assert forall|k: int| 0 <= k < paths.len() && #[trigger] tags[k] is None implies exists|i: int|
        0 <= i < es.len() && is_node_of(#[trigger] es[i].path@, paths[k]) && es[i].path@
            != paths[k] by {
        assert(paths.contains(paths[k]));
        assert(in_namespace(es, paths[k]));
        let i = choose|i: int| 0 <= i < es.len() && is_node_of(#[trigger] es[i].path@, paths[k]);
        if es[i].path@ == paths[k] {
            lemma_tag_some_of(es, i);
            assert(tags[k] == tag_of(es, paths[k]));
        }
    }
    assert forall|k1: int, k2: int| 0 <= k1 < k2 < paths.len() implies #[trigger] paths[k1]
        != #[trigger] paths[k2] by {
        assert(path_less(paths[k1], paths[k2]));
        lemma_path_less_irreflexive(paths[k1]);
    }
}

proof fn lemma_tag_some_of(es: Seq<TreeEntry>, i: int)
    requires
        0 <= i < es.len(),
    ensures
        tag_of(es, es[i].path@) is Some,
    decreases es.len(),
{
    if es.last().path@ != es[i].path@ {
        assert(es.drop_last()[i] == es[i]);
        lemma_tag_some_of(es.drop_last(), i);
    }
}

proof fn lemma_sorted_equal(a: Seq<Seq<char>>, b: Seq<Seq<char>>)
    requires
        sorted(a),
        sorted(b),
        forall|p: Seq<char>| a.contains(p) <==> b.contains(p),
    ensures
        a == b,
    decreases a.len(),
{
    if a.len() == 0 {
        if b.len() > 0 {
            assert(b.contains(b[0]));
        }
        assert(a =~= b);
    } else {
        assert(a.contains(a[0]));
        assert(b.len() > 0);
        assert(b.contains(b[0]));
        if a[0] != b[0] {
            let k = choose|k: int| 0 <= k < b.len() && b[k] == a[0];
            let m = choose|m: int| 0 <= m < a.len() && a[m] == b[0];
            assert(path_less(b[0], a[0]));
            assert(path_less(a[0], b[0]));
            lemma_path_less_asymmetric(a[0], b[0]);
        }
        let a1 = a.drop_first();
        let b1 = b.drop_first();
        assert forall|p: Seq<char>| a1.contains(p) <==> b1.contains(p) by {
            if a1.contains(p) {
                let k = choose|k: int| 0 <= k < a1.len() && a1[k] == p;
                assert(a[k + 1] == p);
                assert(path_less(a[0], p));
                lemma_path_less_irreflexive(p);
                assert(b.contains(p));
                let m = choose|m: int| 0 <= m < b.len() && b[m] == p;
                assert(m != 0);
                assert(b1[m - 1] == p);
            }
            if b1.contains(p) {
                let k = choose|k: int| 0 <= k < b1.len() && b1[k] == p;
                assert(b[k + 1] == p);
                assert(path_less(b[0], p));
                lemma_path_less_irreflexive(p);
                assert(a.contains(p));
                let m = choose|m: int| 0 <= m < a.len() && a[m] == p;
                assert(m != 0);
                assert(a1[m - 1] == p);
            }
        }
        lemma_sorted_equal(a1, b1);
        assert(a =~= seq![a[0]] + a1);
        assert(b =~= seq![b[0]] + b1);
    }
}

/// Order independence: the namespaces of two orderings of the same entries
/// with distinct paths are identical, node for node and tag for tag, so their
/// sorted child enumerations agree.
pub proof fn lemma_order_independent(
    es1: Seq<TreeEntry>,
    es2: Seq<TreeEntry>,
    paths1: Seq<Seq<char>>,
    tags1: Seq<Option<EntryKind>>,
    paths2: Seq<Seq<char>>,
    tags2: Seq<Option<EntryKind>>,
)
    requires
        es1.to_multiset() == es2.to_multiset(),
        unique_paths(es1),
        unique_paths(es2),
        builds(paths1, tags1, es1),
        builds(paths2, tags2, es2),
    ensures
        paths1 == paths2,
        tags1 == tags2,
{
    broadcast use vstd::seq_lib::group_to_multiset_ensures;

    lemma_builds(paths1, tags1, es1);
    lemma_builds(paths2, tags2, es2);
    assert forall|e: TreeEntry| es1.contains(e) <==> es2.contains(e) by {
        assert(es1.contains(e) <==> es1.to_multiset().count(e) > 0);
        assert(es2.contains(e) <==> es2.to_multiset().count(e) > 0);
    }
    assert forall|p: Seq<char>| paths1.contains(p) <==> paths2.contains(p) by {
        if in_namespace(es1, p) {
            let i = choose|i: int| 0 <= i < es1.len() && is_node_of(#[trigger] es1[i].path@, p);
            assert(es1.contains(es1[i]));
            let j = choose|j: int| 0 <= j < es2.len() && es2[j] == es1[i];
            assert(is_node_of(es2[j].path@, p));
        }
        if in_namespace(es2, p) {
            let i = choose|i: int| 0 <= i < es2.len() && is_node_of(#[trigger] es2[i].path@, p);
            assert(es2.contains(es2[i]));
            let j = choose|j: int| 0 <= j < es1.len() && es1[j] == es2[i];
            assert(is_node_of(es1[j].path@, p));
        }
    }
    lemma_sorted_equal(paths1, paths2);
    assert forall|k: int| 0 <= k < tags1.len() implies tags1[k] == tags2[k] by {
        let p = paths1[k];
        assert(tags1[k] == tag_of(es1, p));
        assert(tags2[k] == tag_of(es2, p));
        lemma_tags_agree(es1, es2, p);
        lemma_tags_agree(es2, es1, p);
    }
    assert(tags1 =~= tags2);
}

proof fn lemma_tags_agree(es1: Seq<TreeEntry>, es2: Seq<TreeEntry>, p: Seq<char>)
    requires
        forall|e: TreeEntry| es1.contains(e) ==> es2.contains(e),
        unique_paths(es2),
    ensures
        tag_of(es1, p) is Some ==> tag_of(es2, p) == tag_of(es1, p),
{
    if tag_of(es1, p) is Some {
        lemma_tag_some(es1, p);
        let i = choose|i: int|
            0 <= i < es1.len() && #[trigger] es1[i].path@ == p && tag_of(es1, p) == Some(es1[i].kind);
        assert(es1.contains(es1[i]));
        let j = choose|j: int| 0 <= j < es2.len() && es2[j] == es1[i];
        lemma_tag_unique(es2, j);
    }
}

/// Number of entries of kind `kind`.
pub open spec fn count_kind(es: Seq<TreeEntry>, kind: EntryKind) -> nat
    decreases es.len(),
{
    if es.len() == 0 {
        0
    } else {
        count_kind(es.drop_last(), kind) + if es.last().kind == kind {
            1nat
        } else {
            0nat
        }
    }
}

/// The folder and file counts of a listing: its `Tree` and `Blob` entries.
pub fn count_kinds(entries: &Vec<TreeEntry>) -> (r: (usize, usize))
    ensures
        r.0 == count_kind(entries@, EntryKind::Tree),
        r.1 == count_kind(entries@, EntryKind::Blob),
{
    let mut folders: usize = 0;
    let mut files: usize = 0;
    let mut i: usize = 0;
    while i < entries.len()
        invariant
            i <= entries@.len(),
            folders == count_kind(entries@.subrange(0, i as int), EntryKind::Tree),
            files == count_kind(entries@.subrange(0, i as int), EntryKind::Blob),
            folders <= i,
            files <= i,
        decreases entries@.len() - i,
    {
        proof {
            assert(entries@.subrange(0, i + 1).drop_last() =~= entries@.subrange(0, i as int));
        }
        match entries[i].kind {
            EntryKind::Tree => folders = folders + 1,
            EntryKind::Blob => files = files + 1,
            EntryKind::Other => {},
        }
        i = i + 1;
    }
    proof {
        assert(entries@.subrange(0, entries@.len() as int) =~= entries@);
    }
    (folders, files)
}

} // verus!

verus! {

/// Index of the last `/` of `p`, or -1.
pub open spec fn last_slash(p: Seq<char>) -> int
    decreases p.len(),
{
    if p.len() == 0 {
        -1
    } else if p.last() == '/' {
        p.len() - 1
    } else {
        last_slash(p.drop_last())
    }
}

/// Number of `/` in `p`: the depth of its node below the root.
pub open spec fn depth_of(p: Seq<char>) -> nat
    decreases p.len(),
{
    if p.len() == 0 {
        0
    } else {
        depth_of(p.drop_last()) + if p.last() == '/' {
            1nat
        } else {
            0nat
        }
    }
}

/// The enclosing directory of a node; none for a node at the root.
pub open spec fn parent_of(p: Seq<char>) -> Option<Seq<char>> {
    if last_slash(p) < 0 {
        None
    } else {
        Some(p.subrange(0, last_slash(p)))
    }
}

/// The last segment of a path: the node's name.
pub open spec fn name_of(p: Seq<char>) -> Seq<char> {
    p.subrange(last_slash(p) + 1, p.len() as int)
}

pub proof fn lemma_last_slash_bounds(p: Seq<char>)
    ensures
        -1 <= last_slash(p) < p.len(),
        last_slash(p) >= 0 ==> p[last_slash(p)] == '/',
    decreases p.len(),
{
    if p.len() > 0 && p.last() != '/' {
        lemma_last_slash_bounds(p.drop_last());
    }
}

/// Last slash and depth of `p`.
pub(crate) fn scan_path(p: &Vec<char>) -> (r: (Option<usize>, usize))
    ensures
        r.0 matches Some(i) ==> last_slash(p@) == i,
        r.0 is None ==> last_slash(p@) == -1,
        r.1 == depth_of(p@),
{
    let mut last: Option<usize> = None;
    let mut depth: usize = 0;
    let mut j: usize = 0;
    while j < p.len()
        invariant
            j <= p@.len(),
            last matches Some(i) ==> last_slash(p@.subrange(0, j as int)) == i,
            last is None ==> last_slash(p@.subrange(0, j as int)) == -1,
            depth == depth_of(p@.subrange(0, j as int)),
            depth <= j,
        decreases p@.len() - j,
    {
        proof {
            assert(p@.subrange(0, j + 1).drop_last() =~= p@.subrange(0, j as int));
        }
        if p[j] == '/' {
            last = Some(j);
            depth = depth + 1;
        }
        j = j + 1;
    }
    proof {
        assert(p@.subrange(0, p@.len() as int) =~= p@);
    }
    (last, depth)
}

/// Whether `a` and `b` have the same enclosing directory.
fn same_parent(a: &Vec<char>, b: &Vec<char>) -> (r: bool)
    ensures
        r == (parent_of(a@) == parent_of(b@)),
{
    proof {
        lemma_last_slash_bounds(a@);
        lemma_last_slash_bounds(b@);
    }
    let (la, _) = scan_path(a);
    let (lb, _) = scan_path(b);
    match (la, lb) {
        (None, None) => true,
        (Some(i), Some(j)) => {
            if i != j {
                assert(parent_of(a@)->0.len() != parent_of(b@)->0.len());
                return false;
            }
            let mut m: usize = 0;
            while m < i
                invariant
                    i <= a@.len(),
                    i <= b@.len(),
                    last_slash(a@) == i,
                    last_slash(b@) == i,
                    m <= i,
                    forall|x: int| 0 <= x < m ==> a@[x] == b@[x],
                decreases i - m,
            {
                if a[m] != b[m] {
                    assert(parent_of(a@)->0[m as int] != parent_of(b@)->0[m as int]);
                    return false;
                }
                m = m + 1;
            }
            assert(a@.subrange(0, i as int) =~= b@.subrange(0, i as int));
            true
        },
        _ => false,
    }
}

/// One line of a tree view.
pub struct DisplayLine {
    /// Depth below the root (0 for top-level nodes).
    pub depth: usize,
    pub name: String,
    pub kind: Option<EntryKind>,
    /// No later node shares this node's parent.
    pub is_last: bool,
}

/// Node `k` is the last child of its parent.
pub open spec fn last_child(paths: Seq<Seq<char>>, k: int) -> bool {
    forall|j: int| k < j < paths.len() ==> parent_of(#[trigger] paths[j]) != parent_of(paths[k])
}

impl Namespace {
    /// The lines of a tree view, one per node in pre-order.
    pub fn display_lines(&self) -> (r: Vec<DisplayLine>)
        requires
            self.wf(),
        ensures
            r@.len() == self.paths().len(),
            forall|k: int|
                0 <= k < r@.len() ==> {
                    &&& #[trigger] r@[k].depth == depth_of(self.paths()[k])
                    &&& r@[k].name@ == name_of(self.paths()[k])
                    &&& r@[k].kind == self.tags()[k]
                    &&& r@[k].is_last == last_child(self.paths(), k)
                },
    {
        let n = self.nodes.len();
        let mut r: Vec<DisplayLine> = Vec::new();
        let mut k: usize = 0;
        while k < n
            invariant
                self.wf(),
                n == self.paths().len(),
                k <= n,
                r@.len() == k,
                forall|m: int|
                    0 <= m < k ==> {
                        &&& #[trigger] r@[m].depth == depth_of(self.paths()[m])
                        &&& r@[m].name@ == name_of(self.paths()[m])
                        &&& r@[m].kind == self.tags()[m]
                        &&& r@[m].is_last == last_child(self.paths(), m)
                    },
            decreases n - k,
        {
            let key = &self.keys[k];
            assert(key@ == self.paths()[k as int]);
            let klen = key.len();
            let (ls, depth) = scan_path(key);
            proof {
                lemma_last_slash_bounds(key@);
            }
            let start = match ls {
                Some(i) => {
                    assert(i < klen);
                    i + 1
                },
                None => 0,
            };
            assert(self.nodes@[k as int].path@ == key@);
            let name = String::from_str(
                self.nodes[k].path.as_str().substring_char(start, key.len()),
            );
            let mut is_last = true;
            let mut j: usize = k + 1;
            while j < n && is_last
                invariant
                    self.wf(),
                    n == self.paths().len(),
                    k < j <= n,
                    key@ == self.paths()[k as int],
                    is_last == forall|x: int|
                        k < x < j ==> parent_of(#[trigger] self.paths()[x]) != parent_of(
                            self.paths()[k as int],
                        ),
                decreases n - j,
            {
                assert(self.keys@[j as int]@ == self.paths()[j as int]);
                if same_parent(&self.keys[j], key) {
                    is_last = false;
                }
                j = j + 1;
            }
            proof {
                if !is_last {
                    assert(!last_child(self.paths(), k as int));
                }
            }
            let line = DisplayLine { depth, name, kind: self.nodes[k].kind, is_last };
            proof {
                assert(self.tags()[k as int] == self.nodes@[k as int].kind);
                assert(line.name@ == name_of(self.paths()[k as int]));
                assert(line.is_last == last_child(self.paths(), k as int));
            }
            let ghost before = r@;
            r.push(line);
            proof {
                assert forall|m: int| 0 <= m < k implies r@[m] == before[m] by {}
            }
            k = k + 1;
        }
        r
    }
}

} // verus!

verus! {

/// One step of materializing a namespace on disk, relative to a base directory.
pub enum ScaffoldStep {
    Directory(String),
    EmptyFile(String),
}

pub enum ScaffoldStepView {
    Directory(Seq<char>),
    EmptyFile(Seq<char>),
}

impl View for ScaffoldStep {
    type V = ScaffoldStepView;

    open spec fn view(&self) -> ScaffoldStepView {
        match self {
            ScaffoldStep::Directory(p) => ScaffoldStepView::Directory(p@),
            ScaffoldStep::EmptyFile(p) => ScaffoldStepView::EmptyFile(p@),
        }
    }
}

/// The steps for nodes with these paths and tags, in order: a directory for
/// a tree node or an untagged (enclosing) node, an empty file for a blob;
/// other kinds are skipped.
pub open spec fn scaffold_spec(paths: Seq<Seq<char>>, tags: Seq<Option<EntryKind>>) -> Seq<ScaffoldStepView>
    decreases paths.len(),
{
    if paths.len() == 0 || tags.len() < paths.len() {
        Seq::empty()
    } else {
        let k = paths.len() - 1;
        let before = scaffold_spec(paths.drop_last(), tags.subrange(0, k));
        match tags[k] {
            None => before.push(ScaffoldStepView::Directory(paths[k])),
            Some(EntryKind::Tree) => before.push(ScaffoldStepView::Directory(paths[k])),
            Some(EntryKind::Blob) => before.push(ScaffoldStepView::EmptyFile(paths[k])),
            Some(EntryKind::Other) => before,
        }
    }
}

impl Namespace {
    /// The steps that lay the namespace out on disk, each directory before
    /// anything inside it.
    pub fn scaffold_steps(&self) -> (r: Vec<ScaffoldStep>)
        requires
            self.wf(),
        ensures
            r@.map_values(|s: ScaffoldStep| s@) == scaffold_spec(self.paths(), self.tags()),
    {
        let n = self.nodes.len();
        let mut r: Vec<ScaffoldStep> = Vec::new();
        let mut k: usize = 0;
        while k < n
            invariant
                n == self.paths().len(),
                n == self.tags().len(),
                k <= n,
                r@.map_values(|s: ScaffoldStep| s@) == scaffold_spec(
                    self.paths().subrange(0, k as int),
                    self.tags().subrange(0, k as int),
                ),
            decreases n - k,
        {
            let ghost ps = self.paths().subrange(0, k + 1);
            let ghost ts = self.tags().subrange(0, k + 1);
            proof {
                assert(ps.drop_last() =~= self.paths().subrange(0, k as int));
                assert(ts.subrange(0, k as int) =~= self.tags().subrange(0, k as int));
                assert(ps[k as int] == self.nodes@[k as int].path@);
                assert(ts[k as int] == self.nodes@[k as int].kind);
            }
            let ghost before = r@;
            match self.nodes[k].kind {
                Some(EntryKind::Other) => {},
                Some(EntryKind::Blob) => {
                    r.push(ScaffoldStep::EmptyFile(self.nodes[k].path.clone()));
                    assert(r@.map_values(|s: ScaffoldStep| s@) =~= before.map_values(
                        |s: ScaffoldStep| s@,
                    ).push(ScaffoldStepView::EmptyFile(ps[k as int])));
                },
                _ => {
                    r.push(ScaffoldStep::Directory(self.nodes[k].path.clone()));
                    assert(r@.map_values(|s: ScaffoldStep| s@) =~= before.map_values(
                        |s: ScaffoldStep| s@,
                    ).push(ScaffoldStepView::Directory(ps[k as int])));
                },
            }
            k = k + 1;
        }
        proof {
            assert(self.paths().subrange(0, n as int) =~= self.paths());
            assert(self.tags().subrange(0, n as int) =~= self.tags());
        }
        r
    }
}

} // verus!
