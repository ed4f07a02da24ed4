//! Byte-string keyed collections: a radix tree, an arena of nodes, and the traits of collections
//! of keys.
//!
//! In the radix tree every edge is labelled by a first byte, which tells the edges of a node
//! apart, and by the bytes that follow it. A key is found by following the edge of its first
//! byte, stripping the rest of the label off the key, and going on from the node below.

pub mod avl;
pub mod multi_trie;
pub mod nodes;

use vstd::prelude::*;

verus! {

/// The number of positions below `n` at which `l` and `r` hold the same byte.
pub open spec fn equal_count(l: Seq<u8>, r: Seq<u8>, n: int) -> nat
    decreases n,
{
    if n <= 0 {
        0
    } else {
        equal_count(l, r, n - 1) + if l[n - 1] == r[n - 1] {
            1nat
        } else {
            0nat
        }
    }
}

/// The shorter of two lengths.
pub open spec fn shorter(a: int, b: int) -> int {
    if a < b {
        a
    } else {
        b
    }
}

proof fn lemma_equal_count_bound(l: Seq<u8>, r: Seq<u8>, n: int)
    requires
        n >= 0,
    ensures
        equal_count(l, r, n) <= n,
        equal_count(l, r, n) == n ==> forall|i: int| 0 <= i < n ==> l[i] == r[i],
    decreases n,
{
    if n > 0 {
        lemma_equal_count_bound(l, r, n - 1);
    }
}

/// Splits `l` after as many bytes as there are positions at which `l` and `r` agree, and `r`
/// at the same place: the first part of `l`, the rest of `l` and the rest of `r`.
pub fn common_prefix<'a, 'b>(l: &'a [u8], r: &'b [u8]) -> (parts: (&'a [u8], &'a [u8], &'b [u8]))
    ensures
        ({
            let n = equal_count(l@, r@, shorter(l@.len() as int, r@.len() as int));
            &&& parts.0@ == l@.take(n as int)
            &&& parts.1@ == l@.skip(n as int)
            &&& parts.2@ == r@.skip(n as int)
        }),
{
    let m = if l.len() < r.len() {
        l.len()
    } else {
        r.len()
    };
    let mut len: usize = 0;
    let mut i: usize = 0;
    while i < m
        invariant
            m == shorter(l@.len() as int, r@.len() as int),
            i <= m,
            len == equal_count(l@, r@, i as int),
            len <= i,
        decreases m - i,
    {
        proof {
            lemma_equal_count_bound(l@, r@, i as int);
        }
        if l[i] == r[i] {
            len = len + 1;
        }
        i = i + 1;
    }
    let (a, b) = l.split_at(len);
    let (_, c) = r.split_at(len);
    (a, b, c)
}

/// A node: maybe a value, and edges to the nodes below, each edge with its first byte and the
/// bytes after it.
pub struct Node<T> {
    value: Option<T>,
    children: Vec<(u8, Vec<u8>, Node<T>)>,
}

/// The position of the last edge in `cs` whose first byte is `b`.
spec fn child_of<T>(cs: Seq<(u8, Vec<u8>, Node<T>)>, b: u8) -> Option<int>
    decreases cs.len(),
{
    if cs.len() == 0 {
        None
    } else if cs.last().0 == b {
        Some(cs.len() - 1)
    } else {
        child_of(cs.drop_last(), b)
    }
}

/// The value under `k` below node `n`.
spec fn node_get<T>(n: Node<T>, k: Seq<u8>) -> Option<T>
    decreases k.len(),
{
    if k.len() == 0 {
        n.value
    } else {
        match child_of(n.children@, k[0]) {
            None => None,
            Some(i) => {
                let e = n.children@[i];
                let rest = k.drop_first();
                if e.1@.is_prefix_of(rest) {
                    node_get(e.2, rest.skip(e.1@.len() as int))
                } else {
                    None
                }
            },
        }
    }
}

/// The values below node `n`, by key.
spec fn node_map<T>(n: Node<T>) -> Map<Seq<u8>, T> {
    Map::new(|k: Seq<u8>| node_get(n, k) is Some, |k: Seq<u8>| node_get(n, k)->Some_0)
}

/// The value of `m` under `k`, if any.
pub open spec fn lookup<T>(m: Map<Seq<u8>, T>, k: Seq<u8>) -> Option<T> {
    if m.contains_key(k) {
        Some(m[k])
    } else {
        None
    }
}

/// No two edges of `cs` share a first byte.
spec fn unique_bytes<T>(cs: Seq<(u8, Vec<u8>, Node<T>)>) -> bool {
    forall|i: int, j: int| 0 <= i < j < cs.len() ==> cs[i].0 != cs[j].0
}

/// Node `n` holds a value or has an edge.
spec fn node_nonempty<T>(n: Node<T>) -> bool {
    n.value is Some || n.children@.len() > 0
}

/// No node at or below `n` has two edges with the same first byte, and every node below `n`
/// holds a value or has an edge.
spec fn node_wf<T>(n: Node<T>) -> bool
    decreases n,
{
    &&& unique_bytes(n.children@)
    &&& forall|i: int|
        0 <= i < n.children@.len() ==> {
            proof {
                assert(decreases_to!(n => n.children@[i].2)) by {
                    assert(decreases_to!(n => n.children));
                    assert(decreases_to!(n.children => n.children@));
                }
            }
            node_wf(#[trigger] n.children@[i].2) && node_nonempty(n.children@[i].2)
        }
}

/// No node strictly below `n` is empty or a mere pass-through: each holds a value or has at
/// least two edges.
spec fn node_compact<T>(n: Node<T>) -> bool
    decreases n,
{
    forall|i: int|
        0 <= i < n.children@.len() ==> {
            proof {
                assert(decreases_to!(n => n.children@[i].2)) by {
                    assert(decreases_to!(n => n.children));
                    assert(decreases_to!(n.children => n.children@));
                }
            }
            &&& (#[trigger] n.children@[i].2).value is Some || n.children@[i].2.children@.len() >= 2
            &&& node_compact(n.children@[i].2)
        }
}

proof fn lemma_compact_update<T>(n1: Node<T>, n2: Node<T>, i: int, e: (u8, Vec<u8>, Node<T>))
    requires
        node_compact(n1),
        0 <= i < n1.children@.len(),
        n2.children@ == n1.children@.update(i, e),
        e.2.value is Some || e.2.children@.len() >= 2,
        node_compact(e.2),
    ensures
        node_compact(n2),
{
    assert forall|j: int| 0 <= j < n2.children@.len() implies ((#[trigger] n2.children@[j].2).value is Some
        || n2.children@[j].2.children@.len() >= 2) && node_compact(n2.children@[j].2) by {
        if j != i {
            assert(n2.children@[j] == n1.children@[j]);
        }
    }
}

proof fn lemma_compact_remove<T>(n1: Node<T>, n2: Node<T>, i: int)
    requires
        node_compact(n1),
        0 <= i < n1.children@.len(),
        n2.children@ == n1.children@.remove(i),
    ensures
        node_compact(n2),
{
    assert forall|j: int| 0 <= j < n2.children@.len() implies ((#[trigger] n2.children@[j].2).value is Some
        || n2.children@[j].2.children@.len() >= 2) && node_compact(n2.children@[j].2) by {
        if j < i {
            assert(n2.children@[j] == n1.children@[j]);
        } else {
            assert(n2.children@[j] == n1.children@[j + 1]);
        }
    }
}

proof fn lemma_child_of<T>(cs: Seq<(u8, Vec<u8>, Node<T>)>, b: u8)
    ensures
        child_of(cs, b) matches Some(i) ==> 0 <= i < cs.len() && cs[i].0 == b && forall|j: int|
            i < j < cs.len() ==> cs[j].0 != b,
        child_of(cs, b) is None ==> forall|j: int| 0 <= j < cs.len() ==> cs[j].0 != b,
    decreases cs.len(),
{
    if cs.len() > 0 {
        lemma_child_of(cs.drop_last(), b);
        if cs.last().0 != b {
            assert forall|j: int| 0 <= j < cs.len() - 1 implies cs[j] == cs.drop_last()[j] by {}
        }
    }
}

proof fn lemma_node_map_eq<T>(n: Node<T>, m: Map<Seq<u8>, T>)
    requires
        forall|k: Seq<u8>| #[trigger] node_get(n, k) == lookup(m, k),
    ensures
        node_map(n) == m,
{
    assert forall|k: Seq<u8>| #[trigger] node_map(n).contains_key(k) == m.contains_key(k) by {
        assert(node_get(n, k) == lookup(m, k));
    }
    assert forall|k: Seq<u8>| #[trigger] node_map(n).contains_key(k) implies node_map(n)[k]
        == m[k] by {
        assert(node_get(n, k) == lookup(m, k));
    }
    assert(node_map(n) =~= m);
}

/// The index of the last edge of `cs` whose first byte is `b`.
fn find_child<T>(cs: &Vec<(u8, Vec<u8>, Node<T>)>, b: u8) -> (r: Option<usize>)
    ensures
        r matches Some(i) ==> child_of(cs@, b) == Some(i as int),
        r is None ==> child_of(cs@, b) is None,
{
    let mut i: usize = cs.len();
    proof {
        assert(cs@.take(i as int) =~= cs@);
    }
    while i > 0
        invariant
            i <= cs@.len(),
            child_of(cs@, b) == child_of(cs@.take(i as int), b),
        decreases i,
    {
        let ghost t = cs@.take(i as int);
        if cs[i - 1].0 == b {
            return Some(i - 1);
        }
        proof {
            assert(t.drop_last() =~= cs@.take(i - 1));
        }
        i = i - 1;
    }
    proof {
        assert(cs@.take(0) =~= Seq::<(u8, Vec<u8>, Node<T>)>::empty());
    }
    None
}

/// Whether `p` is a prefix of `s`.
fn starts_with(s: &[u8], p: &[u8]) -> (r: bool)
    ensures
        r == p@.is_prefix_of(s@),
{
    if p.len() > s.len() {
        return false;
    }
    let mut i: usize = 0;
    while i < p.len()
        invariant
            p@.len() <= s@.len(),
            i <= p@.len(),
            forall|j: int| 0 <= j < i ==> p@[j] == s@[j],
        decreases p@.len() - i,
    {
        if p[i] != s[i] {
            proof {
                assert(p@ != s@.subrange(0, p@.len() as int)) by {
                    assert(s@.subrange(0, p@.len() as int)[i as int] == s@[i as int]);
                }
            }
            return false;
        }
        i = i + 1;
    }
    proof {
        assert(p@ =~= s@.subrange(0, p@.len() as int));
    }
    true
}

impl<T> Node<T> {
    /// The value under `key` below this node.
    fn get(&self, key: &[u8]) -> (r: Option<&T>)
        ensures
            r matches Some(v) ==> node_get(*self, key@) == Some(*v),
            r is None ==> node_get(*self, key@) is None,
        decreases key@.len(),
    {
        if key.len() == 0 {
            return match &self.value {
                Some(v) => Some(v),
                None => None,
            };
        }
        let first = key[0];
        let (_, rest) = key.split_at(1);
        proof {
            assert(rest@ =~= key@.drop_first());
        }
        let i = match find_child(&self.children, first) {
            Some(i) => i,
            None => return None,
        };
        proof {
            lemma_child_of(self.children@, first);
        }
        let entry = &self.children[i];
        if !starts_with(rest, entry.1.as_slice()) {
            return None;
        }
        let (_, sub) = rest.split_at(entry.1.len());
        proof {
            assert(sub@ =~= rest@.skip(entry.1@.len() as int));
        }
        entry.2.get(sub)
    }

    /// Whether an insert under `key` below this node is regular.
    fn insert_regular(&self, key: &[u8]) -> (r: bool)
        ensures
            r == node_insert_regular(*self, key@),
        decreases key@.len(),
    {
        if key.len() == 0 {
            return true;
        }
        let first = key[0];
        let (_, rest) = key.split_at(1);
        proof {
            assert(rest@ =~= key@.drop_first());
        }
        let i = match find_child(&self.children, first) {
            Some(i) => i,
            None => return true,
        };
        proof {
            lemma_child_of(self.children@, first);
        }
        let entry = &self.children[i];
        let p = entry.1.as_slice();
        if starts_with(rest, p) {
            let (_, sub) = rest.split_at(entry.1.len());
            proof {
                assert(sub@ =~= rest@.skip(entry.1@.len() as int));
            }
            return entry.2.insert_regular(sub);
        }
        if starts_with(p, rest) {
            return true;
        }
        let (common, _, _) = common_prefix(rest, p);
        let ghost c = equal_count(rest@, p@, shorter(rest@.len() as int, p@.len() as int)) as int;
        proof {
            lemma_equal_count_bound(rest@, p@, shorter(rest@.len() as int, p@.len() as int));
            assert(p@.take(c) =~= p@.subrange(0, c));
        }
        starts_with(p, common)
    }
}

/// A value changed in place at node `n1` itself changes the map only under the empty key.
proof fn lemma_value_changed<T>(n1: Node<T>)
    requires
        node_wf(n1),
    ensures
        forall|n2: Node<T>, v: T|
            #![trigger node_map(n2), node_map(n1).insert(Seq::<u8>::empty(), v)]
            n2.children == n1.children && n2.value == Some(v) ==> {
                &&& node_map(n2) == node_map(n1).insert(Seq::<u8>::empty(), v)
                &&& node_wf(n2)
                &&& node_nonempty(n2)
            },
{
    assert forall|n2: Node<T>, v: T|
        #![trigger node_map(n2), node_map(n1).insert(Seq::<u8>::empty(), v)]
        n2.children == n1.children && n2.value == Some(v) implies {
        &&& node_map(n2) == node_map(n1).insert(Seq::<u8>::empty(), v)
        &&& node_wf(n2)
        &&& node_nonempty(n2)
    } by {
        lemma_set_value(n1, n2, v);
    }
}

/// A change in place below the edge at `i` of node `n1` changes the map only under the keys
/// that go through that edge.
proof fn lemma_below_changed<T>(n1: Node<T>, i: int, sk: Seq<u8>)
    requires
        node_wf(n1),
        0 <= i < n1.children@.len(),
        child_of(n1.children@, n1.children@[i].0) == Some(i),
    ensures
        forall|n2: Node<T>, c2: Node<T>, v: T|
            #![trigger node_map(n2), node_map(c2), node_map(n1.children@[i].2).insert(sk, v)]
            n2.value == n1.value && n2.children@ == n1.children@.update(
                i,
                (n1.children@[i].0, n1.children@[i].1, c2),
            ) && node_map(c2) == node_map(n1.children@[i].2).insert(sk, v) && node_wf(c2)
                && node_nonempty(c2) ==> {
                &&& node_map(n2) == node_map(n1).insert(
                    seq![n1.children@[i].0] + n1.children@[i].1@ + sk,
                    v,
                )
                &&& node_wf(n2)
                &&& node_nonempty(n2) == node_nonempty(n1)
            },
        forall|n2: Node<T>, c2: Node<T>|
            #![trigger node_map(n2), node_map(c2)]
            n2.value == n1.value && n2.children@ == n1.children@.update(
                i,
                (n1.children@[i].0, n1.children@[i].1, c2),
            ) && node_map(c2) == node_map(n1.children@[i].2) && node_wf(c2) && node_nonempty(c2)
                ==> {
                &&& node_map(n2) == node_map(n1)
                &&& node_wf(n2)
                &&& node_nonempty(n2) == node_nonempty(n1)
            },
{
    let e1 = n1.children@[i];
    let pre = seq![e1.0] + e1.1@;
    lemma_replaced_same(n1, i);
    assert forall|n2: Node<T>, c2: Node<T>, v: T|
        #![trigger node_map(n2), node_map(c2), node_map(n1.children@[i].2).insert(sk, v)]
        n2.value == n1.value && n2.children@ == n1.children@.update(i, (e1.0, e1.1, c2))
            && node_map(c2) == node_map(e1.2).insert(sk, v) && node_wf(c2)
            && node_nonempty(c2) implies {
        &&& node_map(n2) == node_map(n1).insert(pre + sk, v)
        &&& node_wf(n2)
        &&& node_nonempty(n2) == node_nonempty(n1)
    } by {
        let e2 = (e1.0, e1.1, c2);
        lemma_insert_descend(n1, n2, i, e2, node_map(c2));
        lemma_replaced_insert(node_map(n1), pre, node_map(e1.2), sk, v);
        lemma_wf_update(n1, n2, i, e2);
    }
    assert forall|n2: Node<T>, c2: Node<T>|
        #![trigger node_map(n2), node_map(c2)]
        n2.value == n1.value && n2.children@ == n1.children@.update(i, (e1.0, e1.1, c2))
            && node_map(c2) == node_map(e1.2) && node_wf(c2) && node_nonempty(c2) implies {
        &&& node_map(n2) == node_map(n1)
        &&& node_wf(n2)
        &&& node_nonempty(n2) == node_nonempty(n1)
    } by {
        let e2 = (e1.0, e1.1, c2);
        lemma_insert_descend(n1, n2, i, e2, node_map(c2));
        lemma_wf_update(n1, n2, i, e2);
    }
}

impl<T> Node<T> {
    /// The value under `key` below this node, to change in place.
    fn get_mut(&mut self, key: &[u8]) -> (r: Option<&mut T>)
        requires
            node_wf(*old(self)),
        ensures
            node_wf(*final(self)),
            node_nonempty(*final(self)) == node_nonempty(*old(self)),
            r is None ==> node_get(*old(self), key@) is None && node_map(*final(self)) == node_map(
                *old(self),
            ),
            r matches Some(x) ==> node_get(*old(self), key@) == Some(*x) && node_map(*final(self))
                == node_map(*old(self)).insert(key@, *final(x)),
        decreases key@.len(),
    {
        let ghost n1 = *self;
        if key.len() == 0 {
            proof {
                assert(key@ =~= Seq::<u8>::empty());
                lemma_value_changed(n1);
            }
            return match &mut self.value {
                Some(v) => Some(v),
                None => None,
            };
        }
        let first = key[0];
        let (_, rest) = key.split_at(1);
        proof {
            assert(rest@ =~= key@.drop_first());
        }
        let i = match find_child(&self.children, first) {
            Some(i) => i,
            None => return None,
        };
        proof {
            lemma_child_of(self.children@, first);
            assert(node_wf(n1.children@[i as int].2));
        }
        if !starts_with(rest, self.children[i].1.as_slice()) {
            return None;
        }
        let ghost p = self.children@[i as int].1@;
        let (_, sub) = rest.split_at(self.children[i].1.len());
        proof {
            assert(sub@ =~= rest@.skip(p.len() as int));
            assert(seq![first] + p + sub@ =~= key@) by {
                assert(p =~= rest@.subrange(0, p.len() as int));
                assert(rest@ =~= p + sub@);
            }
            lemma_below_changed(n1, i as int, sub@);
        }
        let entry = &mut self.children[i];
        entry.2.get_mut(sub)
    }
}

/// `m` without the keys that start with `pre`.
pub open spec fn outside<T>(m: Map<Seq<u8>, T>, pre: Seq<u8>) -> Map<Seq<u8>, T> {
    Map::new(|k: Seq<u8>| m.contains_key(k) && !pre.is_prefix_of(k), |k: Seq<u8>| m[k])
}

/// `m` with `pre` put before every key.
pub open spec fn prefixed<T>(m: Map<Seq<u8>, T>, pre: Seq<u8>) -> Map<Seq<u8>, T> {
    Map::new(
        |k: Seq<u8>| pre.is_prefix_of(k) && m.contains_key(k.skip(pre.len() as int)),
        |k: Seq<u8>| m[k.skip(pre.len() as int)],
    )
}

/// `m` with the keys that start with `pre` replaced by those of `sub`, put after `pre`.
pub open spec fn replaced_under<T>(m: Map<Seq<u8>, T>, pre: Seq<u8>, sub: Map<Seq<u8>, T>) -> Map<
    Seq<u8>,
    T,
> {
    outside(m, pre).union_prefer_right(prefixed(sub, pre))
}

/// The values below node `n` once `v` is inserted under `k`.
///
/// Where the key leaves an edge in the middle of its bytes, the edge is split after as many
/// bytes as the key and the edge agree on at any position; where those are not all at the front,
/// the old values move to keys that follow the key up to the split, and a value whose key would
/// meet the old edge again after the split is not kept.
spec fn node_inserted<T>(n: Node<T>, k: Seq<u8>, v: T) -> Map<Seq<u8>, T>
    decreases k.len(),
{
    if k.len() == 0 {
        node_map(n).insert(k, v)
    } else {
        match child_of(n.children@, k[0]) {
            None => node_map(n).insert(k, v),
            Some(i) => {
                let e = n.children@[i];
                let p = e.1@;
                let rest = k.drop_first();
                let pre = seq![k[0]];
                if p.is_prefix_of(rest) {
                    replaced_under(
                        node_map(n),
                        pre + p,
                        node_inserted(e.2, rest.skip(p.len() as int), v),
                    )
                } else if rest.is_prefix_of(p) {
                    node_map(n).insert(k, v)
                } else {
                    let c = equal_count(rest, p, shorter(rest.len() as int, p.len() as int)) as int;
                    let moved = outside(node_map(n), pre).union_prefer_right(
                        prefixed(node_map(e.2), pre + rest.take(c) + p.skip(c)),
                    );
                    if rest[c] != p[c] {
                        moved.insert(k, v)
                    } else {
                        moved
                    }
                }
            },
        }
    }
}

/// Inserting under `k` below node `n` never meets the case where the key and an edge agree on
/// bytes after the first one they differ on.
spec fn node_insert_regular<T>(n: Node<T>, k: Seq<u8>) -> bool
    decreases k.len(),
{
    if k.len() == 0 {
        true
    } else {
        match child_of(n.children@, k[0]) {
            None => true,
            Some(i) => {
                let p = n.children@[i].1@;
                let rest = k.drop_first();
                if p.is_prefix_of(rest) {
                    node_insert_regular(n.children@[i].2, rest.skip(p.len() as int))
                } else if rest.is_prefix_of(p) {
                    true
                } else {
                    let c = equal_count(rest, p, shorter(rest.len() as int, p.len() as int)) as int;
                    rest.take(c) == p.take(c)
                }
            },
        }
    }
}

/// What node `n` gives for keys that start with byte `b` once its edge for `b` is `e`.
spec fn edge_get<T>(e: (u8, Vec<u8>, Node<T>), q: Seq<u8>) -> Option<T> {
    let rest = q.drop_first();
    if e.1@.is_prefix_of(rest) {
        node_get(e.2, rest.skip(e.1@.len() as int))
    } else {
        None
    }
}

proof fn lemma_get_unfold<T>(n: Node<T>, q: Seq<u8>)
    requires
        q.len() > 0,
    ensures
        child_of(n.children@, q[0]) matches Some(i) ==> node_get(n, q) == edge_get(
            n.children@[i],
            q,
        ),
        child_of(n.children@, q[0]) is None ==> node_get(n, q) is None,
{
}

proof fn lemma_child_of_update<T>(
    cs: Seq<(u8, Vec<u8>, Node<T>)>,
    i: int,
    e: (u8, Vec<u8>, Node<T>),
    x: u8,
)
    requires
        0 <= i < cs.len(),
        cs[i].0 == e.0,
    ensures
        child_of(cs.update(i, e), x) == child_of(cs, x),
    decreases cs.len(),
{
    let u = cs.update(i, e);
    if i == cs.len() - 1 {
        assert(u.drop_last() =~= cs.drop_last());
    } else {
        assert(u.drop_last() =~= cs.drop_last().update(i, e));
        lemma_child_of_update(cs.drop_last(), i, e, x);
    }
}

proof fn lemma_child_of_push<T>(cs: Seq<(u8, Vec<u8>, Node<T>)>, e: (u8, Vec<u8>, Node<T>), x: u8)
    ensures
        x == e.0 ==> child_of(cs.push(e), x) == Some(cs.len() as int),
        x != e.0 ==> child_of(cs.push(e), x) == child_of(cs, x),
{
    assert(cs.push(e).drop_last() =~= cs);
}

/// Node `n2` is node `n1` with the edge for byte `e.0`, at `i`, replaced by `e`.
proof fn lemma_replace_edge<T>(n1: Node<T>, n2: Node<T>, i: int, e: (u8, Vec<u8>, Node<T>))
    requires
        child_of(n1.children@, e.0) == Some(i),
        n2.value == n1.value,
        n2.children@ == n1.children@.update(i, e),
    ensures
        forall|q: Seq<u8>|
            #![trigger node_get(n2, q)]
            (q.len() == 0 || q[0] != e.0) ==> node_get(n2, q) == node_get(n1, q),
        forall|q: Seq<u8>|
            #![trigger node_get(n2, q)]
            q.len() > 0 && q[0] == e.0 ==> node_get(n2, q) == edge_get(e, q),
        forall|q: Seq<u8>|
            #![trigger node_get(n1, q)]
            q.len() > 0 && q[0] == e.0 ==> node_get(n1, q) == edge_get(n1.children@[i], q),
{
    lemma_child_of(n1.children@, e.0);
    assert forall|q: Seq<u8>| (q.len() == 0 || q[0] != e.0) implies #[trigger] node_get(n2, q)
        == node_get(n1, q) by {
        if q.len() > 0 {
            lemma_child_of_update(n1.children@, i, e, q[0]);
            lemma_child_of(n1.children@, q[0]);
            if let Some(j) = child_of(n1.children@, q[0]) {
                assert(j != i);
                assert(n2.children@[j] == n1.children@[j]);
            }
        }
    }
    assert forall|q: Seq<u8>| q.len() > 0 && q[0] == e.0 implies #[trigger] node_get(n2, q)
        == edge_get(e, q) by {
        lemma_child_of_update(n1.children@, i, e, q[0]);
    }
}

proof fn lemma_prefix_concat(a: Seq<u8>, b: Seq<u8>, q: Seq<u8>)
    ensures
        (a + b).is_prefix_of(q) <==> a.is_prefix_of(q) && b.is_prefix_of(q.skip(a.len() as int)),
        (a + b).is_prefix_of(q) ==> q.skip((a + b).len() as int) == q.skip(a.len() as int).skip(
            b.len() as int,
        ),
{
    if (a + b).is_prefix_of(q) {
        assert(a =~= q.subrange(0, a.len() as int)) by {
            assert forall|j: int| 0 <= j < a.len() implies a[j] == q[j] by {
                assert((a + b)[j] == q.subrange(0, (a + b).len() as int)[j]);
            }
        }
        assert(b =~= q.skip(a.len() as int).subrange(0, b.len() as int)) by {
            assert forall|j: int| 0 <= j < b.len() implies b[j] == q[a.len() + j] by {
                assert((a + b)[a.len() + j] == q.subrange(0, (a + b).len() as int)[a.len() + j]);
            }
        }
        assert(q.skip((a + b).len() as int) =~= q.skip(a.len() as int).skip(b.len() as int));
    }
    if a.is_prefix_of(q) && b.is_prefix_of(q.skip(a.len() as int)) {
        assert((a + b) =~= q.subrange(0, (a + b).len() as int)) by {
            assert forall|j: int| 0 <= j < (a + b).len() implies (a + b)[j] == q[j] by {
                if j < a.len() {
                    assert(a[j] == q.subrange(0, a.len() as int)[j]);
                } else {
                    assert(b[j - a.len()] == q.skip(a.len() as int).subrange(
                        0,
                        b.len() as int,
                    )[j - a.len()]);
                }
            }
        }
    }
}

/// A key starts with byte `b` followed by `p` exactly when `seq![b] + p` is a prefix of it.
proof fn lemma_first_then(b: u8, p: Seq<u8>, q: Seq<u8>)
    ensures
        (seq![b] + p).is_prefix_of(q) <==> q.len() > 0 && q[0] == b && p.is_prefix_of(
            q.drop_first(),
        ),
        (seq![b] + p).is_prefix_of(q) ==> q.skip(p.len() + 1int) == q.drop_first().skip(
            p.len() as int,
        ),
{
    lemma_prefix_concat(seq![b], p, q);
    if q.len() > 0 {
        assert(q.skip(1) =~= q.drop_first());
        if q[0] == b {
            assert(seq![b] =~= q.subrange(0, 1));
        }
    }
    if seq![b].is_prefix_of(q) {
        assert(q[0] == q.subrange(0, 1)[0]);
    }
}

proof fn lemma_same_first_rest(q: Seq<u8>, k: Seq<u8>)
    requires
        q.len() > 0,
        k.len() > 0,
        q[0] == k[0],
        q.drop_first() == k.drop_first(),
    ensures
        q == k,
{
    assert(q =~= seq![q[0]] + q.drop_first());
    assert(k =~= seq![k[0]] + k.drop_first());
}

proof fn lemma_lookup_node_map<T>(n: Node<T>, q: Seq<u8>)
    ensures
        lookup(node_map(n), q) == node_get(n, q),
{
}

proof fn lemma_leaf_get<T>(leaf: Node<T>, s: Seq<u8>)
    requires
        leaf.children@.len() == 0,
    ensures
        node_get(leaf, s) == if s.len() == 0 {
            leaf.value
        } else {
            None
        },
{
}

/// The key `q` after its first byte is `r`, exactly when `r` is a prefix of it that leaves
/// nothing.
proof fn lemma_whole_prefix(r: Seq<u8>, q: Seq<u8>)
    ensures
        (r.is_prefix_of(q) && q.skip(r.len() as int).len() == 0) <==> q == r,
{
    if q == r {
        assert(r =~= q.subrange(0, r.len() as int));
    }
    if r.is_prefix_of(q) && q.skip(r.len() as int).len() == 0 {
        assert(q =~= q.subrange(0, r.len() as int));
    }
}

proof fn lemma_wf_update<T>(n1: Node<T>, n2: Node<T>, i: int, e: (u8, Vec<u8>, Node<T>))
    requires
        node_wf(n1),
        0 <= i < n1.children@.len(),
        n2.children@ == n1.children@.update(i, e),
        e.0 == n1.children@[i].0,
        node_wf(e.2),
        node_nonempty(e.2),
    ensures
        node_wf(n2),
{
    assert forall|j: int| 0 <= j < n2.children@.len() implies node_wf(
        #[trigger] n2.children@[j].2,
    ) && node_nonempty(n2.children@[j].2) by {
        if j != i {
            assert(n2.children@[j] == n1.children@[j]);
        }
    }
}

proof fn lemma_wf_push<T>(n1: Node<T>, n2: Node<T>, e: (u8, Vec<u8>, Node<T>))
    requires
        node_wf(n1),
        child_of(n1.children@, e.0) is None,
        n2.children@ == n1.children@.push(e),
        node_wf(e.2),
        node_nonempty(e.2),
    ensures
        node_wf(n2),
{
    lemma_child_of(n1.children@, e.0);
    assert forall|j: int| 0 <= j < n2.children@.len() implies node_wf(
        #[trigger] n2.children@[j].2,
    ) && node_nonempty(n2.children@[j].2) by {
        if j < n1.children@.len() {
            assert(n2.children@[j] == n1.children@[j]);
        }
    }
}

proof fn lemma_wf_leaf<T>(n: Node<T>)
    requires
        n.children@.len() == 0,
    ensures
        node_wf(n),
{
}

proof fn lemma_insert_push<T>(n1: Node<T>, n2: Node<T>, k: Seq<u8>, v: T, e: (u8, Vec<u8>, Node<T>))
    requires
        k.len() > 0,
        child_of(n1.children@, k[0]) is None,
        n2.value == n1.value,
        n2.children@ == n1.children@.push(e),
        e.0 == k[0],
        e.1@ == k.drop_first(),
        e.2.value == Some(v),
        e.2.children@.len() == 0,
    ensures
        node_map(n2) == node_map(n1).insert(k, v),
{
    let m = node_map(n1).insert(k, v);
    assert forall|q: Seq<u8>| #[trigger] node_get(n2, q) == lookup(m, q) by {
        lemma_lookup_node_map(n1, q);
        if q.len() > 0 {
            lemma_child_of_push(n1.children@, e, q[0]);
            if q[0] == k[0] {
                let rest = q.drop_first();
                lemma_leaf_get(e.2, rest.skip(e.1@.len() as int));
                lemma_whole_prefix(e.1@, rest);
                if rest == k.drop_first() {
                    lemma_same_first_rest(q, k);
                }
                if q == k {
                    assert(rest == k.drop_first());
                }
            } else {
                lemma_child_of(n1.children@, q[0]);
                if let Some(j) = child_of(n1.children@, q[0]) {
                    assert(n2.children@[j] == n1.children@[j]);
                }
            }
        } else {
            assert(q != k);
        }
    }
    lemma_node_map_eq(n2, m);
}

proof fn lemma_insert_descend<T>(
    n1: Node<T>,
    n2: Node<T>,
    i: int,
    e: (u8, Vec<u8>, Node<T>),
    sub: Map<Seq<u8>, T>,
)
    requires
        child_of(n1.children@, e.0) == Some(i),
        n2.value == n1.value,
        n2.children@ == n1.children@.update(i, e),
        e.1@ == n1.children@[i].1@,
        node_map(e.2) == sub,
    ensures
        node_map(n2) == replaced_under(node_map(n1), seq![e.0] + e.1@, sub),
{
    let m = replaced_under(node_map(n1), seq![e.0] + e.1@, sub);
    lemma_replace_edge(n1, n2, i, e);
    assert forall|q: Seq<u8>| #[trigger] node_get(n2, q) == lookup(m, q) by {
        lemma_lookup_node_map(n1, q);
        lemma_lookup_node_map(e.2, q.skip(e.1@.len() + 1int));
        lemma_first_then(e.0, e.1@, q);
        if q.len() > 0 && q[0] == e.0 {
            assert(node_get(n2, q) == edge_get(e, q));
            assert(node_get(n1, q) == edge_get(n1.children@[i], q));
        } else {
            assert(node_get(n2, q) == node_get(n1, q));
        }
    }
    lemma_node_map_eq(n2, m);
}

proof fn lemma_insert_split<T>(
    n1: Node<T>,
    n2: Node<T>,
    i: int,
    k: Seq<u8>,
    v: T,
    e: (u8, Vec<u8>, Node<T>),
)
    requires
        k.len() > 0,
        child_of(n1.children@, k[0]) == Some(i),
        n2.value == n1.value,
        n2.children@ == n1.children@.update(i, e),
        e.0 == k[0],
        e.1@ == k.drop_first(),
        k.drop_first().is_prefix_of(n1.children@[i].1@),
        k.drop_first() != n1.children@[i].1@,
        e.2.value == Some(v),
        e.2.children@.len() == 1,
        e.2.children@[0].0 == n1.children@[i].1@[k.len() - 1],
        e.2.children@[0].1@ == n1.children@[i].1@.skip(k.len() as int),
        e.2.children@[0].2 == n1.children@[i].2,
    ensures
        node_map(n2) == node_map(n1).insert(k, v),
{
    let m = node_map(n1).insert(k, v);
    let rest = k.drop_first();
    let p = n1.children@[i].1@;
    let c1 = n1.children@[i].2;
    let r = rest.len() as int;
    let inner = e.2.children@[0];
    lemma_replace_edge(n1, n2, i, e);
    assert(p.len() > rest.len()) by {
        if p.len() == rest.len() {
            assert(p =~= rest);
        }
    }
    assert(p =~= rest + (seq![p[r]] + p.skip(r + 1)));
    assert(p.skip(r) =~= seq![p[r]] + p.skip(r + 1));
    assert forall|q: Seq<u8>| #[trigger] node_get(n2, q) == lookup(m, q) by {
        lemma_lookup_node_map(n1, q);
        if q.len() > 0 && q[0] == k[0] {
            let q1 = q.drop_first();
            let s = q1.skip(r);
            assert(node_get(n2, q) == edge_get(e, q));
            assert(node_get(n1, q) == edge_get(n1.children@[i], q));
            lemma_prefix_concat(rest, seq![p[r]] + p.skip(r + 1), q1);
            lemma_whole_prefix(rest, q1);
            if q1 == rest {
                lemma_same_first_rest(q, k);
            }
            if q == k {
                assert(q1 == rest);
            }
            if rest.is_prefix_of(q1) && s.len() > 0 {
                assert(e.2.children@.drop_last() =~= Seq::<(u8, Vec<u8>, Node<T>)>::empty());
                assert(child_of(Seq::<(u8, Vec<u8>, Node<T>)>::empty(), s[0]) is None);
                assert(child_of(e.2.children@, s[0]) == if s[0] == inner.0 {
                    Some(0int)
                } else {
                    None
                });
                lemma_get_unfold(e.2, s);
                lemma_first_then(p[r], p.skip(r + 1), s);
                assert(node_get(e.2, s) == if s[0] == inner.0 {
                    edge_get(inner, s)
                } else {
                    None
                });
            }
            if p.is_prefix_of(q1) {
                assert(rest.is_prefix_of(q1)) by {
                    assert(rest =~= q1.subrange(0, r));
                }
            }
        } else {
            assert(node_get(n2, q) == node_get(n1, q));
            assert(q != k);
        }
    }
    lemma_node_map_eq(n2, m);
}

proof fn lemma_split_eq(a: Seq<u8>, q: Seq<u8>, c: int)
    requires
        0 <= c <= a.len(),
    ensures
        (a.take(c).is_prefix_of(q) && q.skip(c) == a.skip(c)) <==> q == a,
{
    if a.take(c).is_prefix_of(q) && q.skip(c) == a.skip(c) {
        assert(c <= q.len());
        assert(q.skip(c).len() == a.skip(c).len());
        assert(q.len() == a.len());
        assert forall|j: int| 0 <= j < q.len() implies q[j] == a[j] by {
            if j < c {
                assert(a.take(c)[j] == q.subrange(0, c)[j]);
            } else {
                assert(q.skip(c)[j - c] == a.skip(c)[j - c]);
            }
        }
        assert(q =~= a);
    }
    if q == a {
        assert(a.take(c) =~= q.subrange(0, c));
    }
}

proof fn lemma_diverge_point(rest: Seq<u8>, p: Seq<u8>)
    requires
        !p.is_prefix_of(rest),
        !rest.is_prefix_of(p),
    ensures
        equal_count(rest, p, shorter(rest.len() as int, p.len() as int)) < shorter(
            rest.len() as int,
            p.len() as int,
        ),
{
    let m = shorter(rest.len() as int, p.len() as int);
    lemma_equal_count_bound(rest, p, m);
    if equal_count(rest, p, m) == m {
        if rest.len() <= p.len() {
            assert(rest =~= p.subrange(0, rest.len() as int));
        } else {
            assert(p =~= rest.subrange(0, p.len() as int));
        }
    }
}

/// Where the bytes before `c` agree and the count of agreeing bytes below `m` is `c`, the
/// bytes at `c` differ.
proof fn lemma_regular_split(rest: Seq<u8>, p: Seq<u8>, c: int, m: int)
    requires
        0 <= c < m,
        m <= rest.len(),
        m <= p.len(),
        equal_count(rest, p, m) == c,
        rest.take(c) == p.take(c),
    ensures
        rest[c] != p[c],
{
    assert forall|j: int| 0 <= j < c implies rest[j] == p[j] by {
        assert(rest[j] == rest.take(c)[j] && p[j] == p.take(c)[j]);
    }
    if rest[c] == p[c] {
        lemma_equal_count_all(rest, p, c + 1);
        lemma_equal_count_mono(rest, p, c + 1, m);
    }
}

proof fn lemma_compact_push<T>(n1: Node<T>, n2: Node<T>, e: (u8, Vec<u8>, Node<T>))
    requires
        node_compact(n1),
        n2.children@ == n1.children@.push(e),
        e.2.value is Some || e.2.children@.len() >= 2,
        node_compact(e.2),
    ensures
        node_compact(n2),
{
    assert forall|j: int| 0 <= j < n2.children@.len() implies ((#[trigger] n2.children@[j].2).value is Some
        || n2.children@[j].2.children@.len() >= 2) && node_compact(n2.children@[j].2) by {
        if j < n1.children@.len() {
            assert(n2.children@[j] == n1.children@[j]);
        }
    }
}

proof fn lemma_insert_diverge<T>(
    n1: Node<T>,
    n2: Node<T>,
    i: int,
    k: Seq<u8>,
    v: T,
    e: (u8, Vec<u8>, Node<T>),
)
    requires
        k.len() > 0,
        child_of(n1.children@, k[0]) == Some(i),
        n2.value == n1.value,
        n2.children@ == n1.children@.update(i, e),
        !n1.children@[i].1@.is_prefix_of(k.drop_first()),
        !k.drop_first().is_prefix_of(n1.children@[i].1@),
        ({
            let rest = k.drop_first();
            let p = n1.children@[i].1@;
            let c = equal_count(rest, p, shorter(rest.len() as int, p.len() as int)) as int;
            let inner = e.2.children@;
            &&& e.0 == k[0]
            &&& e.1@ == rest.take(c)
            &&& e.2.value is None
            &&& inner.last().0 == p[c]
            &&& inner.last().1@ == p.skip(c + 1)
            &&& inner.last().2 == n1.children@[i].2
            &&& rest[c] != p[c] ==> {
                &&& inner.len() == 2
                &&& inner[0].0 == rest[c]
                &&& inner[0].1@ == rest.skip(c + 1)
                &&& inner[0].2.value == Some(v)
                &&& inner[0].2.children@.len() == 0
            }
            &&& rest[c] == p[c] ==> inner.len() == 1
        }),
    ensures
        node_map(n2) == node_inserted(n1, k, v),
{
    let rest = k.drop_first();
    let p = n1.children@[i].1@;
    let c1 = n1.children@[i].2;
    lemma_diverge_point(rest, p);
    let c = equal_count(rest, p, shorter(rest.len() as int, p.len() as int)) as int;
    let pre = seq![k[0]];
    let mid = rest.take(c) + p.skip(c);
    let moved = outside(node_map(n1), pre).union_prefer_right(
        prefixed(node_map(c1), pre + rest.take(c) + p.skip(c)),
    );
    let target = if rest[c] != p[c] {
        moved.insert(k, v)
    } else {
        moved
    };
    assert(node_inserted(n1, k, v) == target);
    assert(pre + rest.take(c) + p.skip(c) =~= pre + mid);
    let inner = e.2.children@;
    let last = inner.last();
    lemma_replace_edge(n1, n2, i, e);
    assert(p.skip(c) =~= seq![p[c]] + p.skip(c + 1));
    assert(rest.skip(c) =~= seq![rest[c]] + rest.skip(c + 1));
    assert forall|q: Seq<u8>| #[trigger] node_get(n2, q) == lookup(target, q) by {
        lemma_lookup_node_map(n1, q);
        lemma_first_then(k[0], mid, q);
        if q.len() > 0 && q[0] == k[0] {
            let q1 = q.drop_first();
            let s = q1.skip(c);
            assert(node_get(n2, q) == edge_get(e, q));
            lemma_prefix_concat(rest.take(c), p.skip(c), q1);
            lemma_split_eq(rest, q1, c);
            assert(q == k <==> q1 == rest) by {
                if q1 == rest {
                    lemma_same_first_rest(q, k);
                }
            }
            assert(pre.is_prefix_of(q)) by {
                assert(pre =~= q.subrange(0, 1));
            }
            if rest.take(c).is_prefix_of(q1) && s.len() > 0 {
                lemma_get_unfold(e.2, s);
                lemma_first_then(p[c], p.skip(c + 1), s);
                lemma_lookup_node_map(c1, q.skip(mid.len() + 1int));
                if inner.len() == 2 {
                    assert(inner.drop_last().drop_last() =~= Seq::<(u8, Vec<u8>, Node<T>)>::empty());
                    assert(child_of(Seq::<(u8, Vec<u8>, Node<T>)>::empty(), s[0]) is None);
                    assert(child_of(inner.drop_last(), s[0]) == if s[0] == inner[0].0 {
                        Some(0int)
                    } else {
                        None
                    });
                    let lf = inner[0];
                    lemma_leaf_get(lf.2, s.drop_first().skip(lf.1@.len() as int));
                    lemma_whole_prefix(lf.1@, s.drop_first());
                    assert(s == rest.skip(c) <==> s[0] == rest[c] && s.drop_first() == rest.skip(
                        c + 1,
                    )) by {
                        assert(rest.skip(c).drop_first() =~= rest.skip(c + 1));
                        if s[0] == rest[c] && s.drop_first() == rest.skip(c + 1) {
                            lemma_same_first_rest(s, rest.skip(c));
                        }
                    }
                } else {
                    assert(inner.drop_last() =~= Seq::<(u8, Vec<u8>, Node<T>)>::empty());
                    assert(child_of(Seq::<(u8, Vec<u8>, Node<T>)>::empty(), s[0]) is None);
                    if q1 == rest {
                        assert(s == rest.skip(c));
                        assert(s[0] == rest[c]);
                    }
                }
            }
            if !rest.take(c).is_prefix_of(q1) {
                assert(q1 != rest) by {
                    if q1 == rest {
                        assert(rest.take(c) =~= q1.subrange(0, c));
                    }
                }
            }
            if s.len() == 0 && rest.take(c).is_prefix_of(q1) {
                assert(q1 != rest) by {
                    if q1 == rest {
                        assert(s.len() == rest.len() - c);
                    }
                }
            }
        } else {
            assert(node_get(n2, q) == node_get(n1, q));
            assert(q != k);
            assert(!pre.is_prefix_of(q)) by {
                if pre.is_prefix_of(q) {
                    assert(q[0] == q.subrange(0, 1)[0]);
                }
            }
        }
    }
    lemma_node_map_eq(n2, target);
}

proof fn lemma_set_value<T>(n1: Node<T>, n2: Node<T>, v: T)
    requires
        n2.children == n1.children,
        n2.value == Some(v),
    ensures
        node_map(n2) == node_map(n1).insert(Seq::empty(), v),
{
    let m = node_map(n1).insert(Seq::empty(), v);
    assert forall|q: Seq<u8>| #[trigger] node_get(n2, q) == lookup(m, q) by {
        lemma_lookup_node_map(n1, q);
        if q.len() == 0 {
            assert(q =~= Seq::<u8>::empty());
        }
    }
    lemma_node_map_eq(n2, m);
}

/// The bytes of `s`, in a vector of their own.
fn bytes_of(s: &[u8]) -> (v: Vec<u8>)
    ensures
        v@ == s@,
{
    let mut v: Vec<u8> = Vec::new();
    let mut i: usize = 0;
    while i < s.len()
        invariant
            i <= s@.len(),
            v@ == s@.take(i as int),
        decreases s@.len() - i,
    {
        v.push(s[i]);
        i = i + 1;
        proof {
            assert(v@ =~= s@.take(i as int));
        }
    }
    proof {
        assert(s@.take(i as int) =~= s@);
    }
    v
}

impl<T> Node<T> {
    /// A node that holds a value or has edges.
    fn new(value: Option<T>, children: Vec<(u8, Vec<u8>, Node<T>)>) -> (n: Self)
        requires
            value is Some || children@.len() > 0,
        ensures
            n.value == value,
            n.children == children,
    {
        Node { value, children }
    }

    /// A node that holds `value` and has no edges.
    fn new_value(value: T) -> (n: Self)
        ensures
            n.value == Some(value),
            n.children@.len() == 0,
    {
        Self::new(Some(value), Vec::new())
    }

    /// A node without a value over the edges `children`.
    fn new_children(children: Vec<(u8, Vec<u8>, Node<T>)>) -> (n: Self)
        requires
            children@.len() > 0,
        ensures
            n.value is None,
            n.children == children,
    {
        Self::new(None, children)
    }

    /// A node without a value over one edge, with first byte `first`, the bytes `rest`, and
    /// `node` below.
    fn new_child(first: u8, rest: &[u8], node: Self) -> (n: Self)
        ensures
            n.value is None,
            n.children@.len() == 1,
            n.children@[0].0 == first,
            n.children@[0].1@ == rest@,
            n.children@[0].2 == node,
    {
        let mut children: Vec<(u8, Vec<u8>, Node<T>)> = Vec::new();
        children.push((first, bytes_of(rest), node));
        Self::new_children(children)
    }

    /// Sets the edge for byte `b`: replaces the edge with that first byte, if there is one, or
    /// adds one.
    fn put_child(children: &mut Vec<(u8, Vec<u8>, Node<T>)>, b: u8, p: Vec<u8>, node: Self)
        ensures
            child_of(old(children)@, b) matches Some(j) ==> final(children)@ == old(
                children,
            )@.update(j, (b, p, node)),
            child_of(old(children)@, b) is None ==> final(children)@ == old(children)@.push(
                (b, p, node),
            ),
    {
        proof {
            lemma_child_of(children@, b);
        }
        match find_child(children, b) {
            Some(j) => children.set(j, (b, p, node)),
            None => children.push((b, p, node)),
        }
    }

    /// Puts `value` under `key` below this node, and returns the value that was there.
    fn insert(&mut self, key: &[u8], value: T) -> (r: Option<T>)
        requires
            node_wf(*old(self)),
        ensures
            node_wf(*final(self)),
            node_nonempty(*final(self)),
            node_map(*final(self)) == node_inserted(*old(self), key@, value),
            r == node_get(*old(self), key@),
            old(self).value is Some ==> final(self).value is Some,
            final(self).children@.len() >= old(self).children@.len(),
            node_compact(*old(self)) && node_insert_regular(*old(self), key@) ==> node_compact(
                *final(self),
            ),
        decreases key@.len(),
    {
        let ghost n1 = *self;
        if key.len() == 0 {
            let old = self.value.take();
            self.value = Some(value);
            proof {
                assert(key@ =~= Seq::<u8>::empty());
                lemma_set_value(n1, *self, value);
            }
            return old;
        }
        let first = key[0];
        let (_, rest) = key.split_at(1);
        proof {
            assert(rest@ =~= key@.drop_first());
        }
        match find_child(&self.children, first) {
            None => {
                let leaf = Self::new_value(value);
                let label = bytes_of(rest);
                let ghost e = (first, label, leaf);
                self.children.push((first, label, leaf));
                proof {
                    lemma_insert_push(n1, *self, key@, value, e);
                    lemma_wf_leaf(leaf);
                    lemma_wf_push(n1, *self, e);
                    if node_compact(n1) {
                        lemma_compact_push(n1, *self, e);
                    }
                }
                None
            },
            Some(i) => {
                proof {
                    lemma_child_of(n1.children@, first);
                    assert(node_wf(n1.children@[i as int].2));
                }
                let mut entry = (0u8, Vec::new(), Node { value: None, children: Vec::new() });
                self.children.set_and_swap(i, &mut entry);
                let (b, mut prefix, mut node) = entry;
                let ghost c1 = node;
                let ghost p = prefix@;
                if starts_with(rest, prefix.as_slice()) {
                    let (_, sub) = rest.split_at(prefix.len());
                    proof {
                        assert(sub@ =~= rest@.skip(p.len() as int));
                    }
                    let r = node.insert(sub, value);
                    let ghost e = (b, prefix, node);
                    self.children.set(i, (b, prefix, node));
                    proof {
                        assert(self.children@ =~= n1.children@.update(i as int, e));
                        lemma_insert_descend(n1, *self, i as int, e, node_map(node));
                        lemma_wf_update(n1, *self, i as int, e);
                        if node_compact(n1) && node_insert_regular(n1, key@) {
                            assert(n1.children@[i as int].2 == c1);
                            lemma_compact_update(n1, *self, i as int, e);
                        }
                    }
                    return r;
                }
                if starts_with(prefix.as_slice(), rest) {
                    let rl = rest.len();
                    proof {
                        assert(p.len() > rest@.len()) by {
                            if p.len() == rest@.len() {
                                assert(p =~= rest@);
                            }
                        }
                    }
                    let old_first = prefix[rl];
                    let (_, tail) = prefix.as_slice().split_at(rl + 1);
                    let old_rest = bytes_of(tail);
                    let mut new_node = Self::new_value(value);
                    new_node.children.push((old_first, old_rest, node));
                    prefix.truncate(rl);
                    proof {
                        assert(prefix@ =~= rest@);
                        assert(old_rest@ =~= p.skip(rl + 1));
                        assert(node_wf(new_node)) by {
                            assert(new_node.children@[0].2 == c1);
                        }
                    }
                    let ghost e = (b, prefix, new_node);
                    self.children.set(i, (b, prefix, new_node));
                    proof {
                        assert(self.children@ =~= n1.children@.update(i as int, e));
                        assert(key@.len() - 1 == rl);
                        lemma_insert_split(n1, *self, i as int, key@, value, e);
                        lemma_wf_update(n1, *self, i as int, e);
                        if node_compact(n1) {
                            assert(n1.children@[i as int].2 == c1);
                            assert(new_node.children@[0].2 == c1);
                            assert(node_compact(new_node));
                            lemma_compact_update(n1, *self, i as int, e);
                        }
                    }
                    return None;
                }
                proof {
                    lemma_diverge_point(rest@, p);
                }
                let (common, new, old) = common_prefix(rest, prefix.as_slice());
                let ghost c = common@.len() as int;
                let new_first = new[0];
                let (_, new_rest) = new.split_at(1);
                let old_first = old[0];
                let (_, old_tail) = old.split_at(1);
                let old_rest = bytes_of(old_tail);
                let label = bytes_of(common);
                let new_node = Self::new_value(value);
                let mut common_node = Self::new_child(new_first, new_rest, new_node);
                proof {
                    assert(new_rest@ =~= rest@.skip(c + 1));
                    assert(old_rest@ =~= p.skip(c + 1));
                    assert(common_node.children@.drop_last() =~= Seq::<
                        (u8, Vec<u8>, Node<T>),
                    >::empty());
                    assert(child_of(Seq::<(u8, Vec<u8>, Node<T>)>::empty(), old_first) is None);
                }
                Self::put_child(&mut common_node.children, old_first, old_rest, node);
                proof {
                    lemma_wf_leaf(new_node);
                    if new_first != old_first {
                        assert(common_node.children@[0].2 == new_node);
                        assert(common_node.children@[1].2 == c1);
                    } else {
                        assert(common_node.children@[0].2 == c1);
                    }
                    assert(node_wf(common_node));
                }
                let ghost e = (b, label, common_node);
                self.children.set(i, (b, label, common_node));
                proof {
                    assert(self.children@ =~= n1.children@.update(i as int, e));
                    lemma_insert_diverge(n1, *self, i as int, key@, value, e);
                    lemma_wf_update(n1, *self, i as int, e);
                    if node_compact(n1) && node_insert_regular(n1, key@) {
                        let m = shorter(rest@.len() as int, p.len() as int);
                        lemma_equal_count_bound(rest@, p, m);
                        lemma_regular_split(rest@, p, c, m);
                        assert(new_first != old_first);
                        assert(n1.children@[i as int].2 == c1);
                        assert(common_node.children@[0].2 == new_node);
                        assert(common_node.children@[1].2 == c1);
                        assert(c1.value is Some || c1.children@.len() >= 2);
                        assert(node_compact(c1));
                        assert(node_compact(new_node));
                        assert(common_node.children@.len() == 2);
                        assert(node_compact(common_node));
                        lemma_compact_update(n1, *self, i as int, e);
                    }
                }
                None
            },
        }
    }
}

proof fn lemma_single_edge<T>(n: Node<T>, q: Seq<u8>)
    requires
        n.value is None,
        n.children@.len() == 1,
    ensures
        node_get(n, q) == if q.len() > 0 && q[0] == n.children@[0].0 {
            edge_get(n.children@[0], q)
        } else {
            None
        },
{
    if q.len() > 0 {
        assert(n.children@.drop_last() =~= Seq::<(u8, Vec<u8>, Node<T>)>::empty());
        assert(child_of(Seq::<(u8, Vec<u8>, Node<T>)>::empty(), q[0]) is None);
        lemma_get_unfold(n, q);
    }
}

proof fn lemma_empty_node<T>(n: Node<T>)
    requires
        n.value is None,
        n.children@.len() == 0,
    ensures
        node_map(n) == Map::<Seq<u8>, T>::empty(),
{
    assert forall|q: Seq<u8>| #[trigger] node_get(n, q) == lookup(Map::<Seq<u8>, T>::empty(), q) by {
        if q.len() > 0 {
            lemma_get_unfold(n, q);
        }
    }
    lemma_node_map_eq(n, Map::<Seq<u8>, T>::empty());
}

proof fn lemma_clear_value<T>(n1: Node<T>, n2: Node<T>)
    requires
        n2.children == n1.children,
        n2.value is None,
    ensures
        node_map(n2) == node_map(n1).remove(Seq::empty()),
{
    let m = node_map(n1).remove(Seq::empty());
    assert forall|q: Seq<u8>| #[trigger] node_get(n2, q) == lookup(m, q) by {
        lemma_lookup_node_map(n1, q);
        if q.len() == 0 {
            assert(q =~= Seq::<u8>::empty());
        }
    }
    lemma_node_map_eq(n2, m);
}

proof fn lemma_child_of_remove<T>(cs: Seq<(u8, Vec<u8>, Node<T>)>, i: int, x: u8)
    requires
        0 <= i < cs.len(),
        unique_bytes(cs),
    ensures
        x == cs[i].0 ==> child_of(cs.remove(i), x) is None,
        x != cs[i].0 ==> match child_of(cs, x) {
            None => child_of(cs.remove(i), x) is None,
            Some(j) => child_of(cs.remove(i), x) == Some(
                if j < i {
                    j
                } else {
                    j - 1
                },
            ),
        },
{
    let r = cs.remove(i);
    lemma_child_of(cs, x);
    lemma_child_of(r, x);
    if x == cs[i].0 {
        if let Some(j) = child_of(r, x) {
            if j < i {
                assert(r[j] == cs[j]);
            } else {
                assert(r[j] == cs[j + 1]);
            }
        }
    } else {
        match child_of(cs, x) {
            None => {
                if let Some(j) = child_of(r, x) {
                    if j < i {
                        assert(r[j] == cs[j]);
                    } else {
                        assert(r[j] == cs[j + 1]);
                    }
                }
            },
            Some(j) => {
                assert(j != i);
                let jj = if j < i {
                    j
                } else {
                    j - 1
                };
                assert(r[jj] == cs[j]);
                if let Some(t) = child_of(r, x) {
                    if t > jj {
                        if t < i {
                            assert(r[t] == cs[t]);
                        } else {
                            assert(r[t] == cs[t + 1]);
                        }
                    } else if t < jj {
                        assert(r[jj].0 == x);
                    }
                }
            },
        }
    }
}

proof fn lemma_replaced_remove<T>(m: Map<Seq<u8>, T>, pre: Seq<u8>, sub: Map<Seq<u8>, T>, s: Seq<u8>)
    ensures
        replaced_under(m, pre, sub.remove(s)) == replaced_under(m, pre, sub).remove(pre + s),
{
    let a = replaced_under(m, pre, sub.remove(s));
    let b = replaced_under(m, pre, sub).remove(pre + s);
    assert forall|q: Seq<u8>| #[trigger] a.contains_key(q) == b.contains_key(q) by {
        lemma_prefix_concat(pre, s, q);
        lemma_whole_prefix(s, q.skip(pre.len() as int));
        if pre.is_prefix_of(q) && q.skip(pre.len() as int) == s {
            lemma_split_eq(pre + s, q, pre.len() as int);
            assert((pre + s).take(pre.len() as int) =~= pre);
            assert((pre + s).skip(pre.len() as int) =~= s);
        }
        if q == pre + s {
            assert(q.skip(pre.len() as int) =~= s);
            assert(pre =~= q.subrange(0, pre.len() as int));
        }
    }
    assert(a =~= b);
}

/// The map of node `n1` is that of the same node with its edge at `i` over `c1` kept as is.
proof fn lemma_replaced_same<T>(n1: Node<T>, i: int)
    requires
        0 <= i < n1.children@.len(),
        child_of(n1.children@, n1.children@[i].0) == Some(i),
    ensures
        node_map(n1) == replaced_under(
            node_map(n1),
            seq![n1.children@[i].0] + n1.children@[i].1@,
            node_map(n1.children@[i].2),
        ),
{
    assert(n1.children@ =~= n1.children@.update(i, n1.children@[i]));
    lemma_insert_descend(n1, n1, i, n1.children@[i], node_map(n1.children@[i].2));
}

proof fn lemma_edge_collapse<T>(
    e_mid: (u8, Vec<u8>, Node<T>),
    e_new: (u8, Vec<u8>, Node<T>),
    q: Seq<u8>,
)
    requires
        e_mid.2.value is None,
        e_mid.2.children@.len() == 1,
        e_new.0 == e_mid.0,
        e_new.1@ == e_mid.1@ + (seq![e_mid.2.children@[0].0] + e_mid.2.children@[0].1@),
        e_new.2 == e_mid.2.children@[0].2,
    ensures
        edge_get(e_new, q) == edge_get(e_mid, q),
{
    let q1 = q.drop_first();
    let p = e_mid.1@;
    let inner = e_mid.2.children@[0];
    let tail = seq![inner.0] + inner.1@;
    lemma_prefix_concat(p, tail, q1);
    if p.is_prefix_of(q1) {
        let s = q1.skip(p.len() as int);
        lemma_single_edge(e_mid.2, s);
        lemma_first_then(inner.0, inner.1@, s);
        if (p + tail).is_prefix_of(q1) {
            assert(q1.skip((p + tail).len() as int) =~= s.drop_first().skip(inner.1@.len() as int));
        }
    }
}

impl<T> Node<T> {
    /// Holds no value and has no edges.
    fn is_empty(&self) -> (r: bool)
        ensures
            r == (self.value is None && self.children@.len() == 0),
    {
        self.value.is_none() && self.children.len() == 0
    }

    /// Holds no value and has at most one edge, so that it can be merged into the edge above.
    fn is_collapsible(&self) -> (r: bool)
        ensures
            r == (self.value is None && self.children@.len() < 2),
    {
        self.value.is_none() && self.children.len() < 2
    }

    /// Takes the one edge of a node that can be merged into the edge above, if it has one.
    fn collapse(&mut self) -> (r: Option<(u8, Vec<u8>, Node<T>)>)
        requires
            old(self).value is None,
            old(self).children@.len() < 2,
        ensures
            old(self).children@.len() == 0 ==> r is None,
            old(self).children@.len() == 1 ==> r == Some(old(self).children@[0]),
            final(self).children@.len() == 0,
            final(self).value is None,
    {
        self.children.pop()
    }

    /// Takes the value under `key` out of this node, merging or dropping edges that are left
    /// with one node or none below them; leaves the node as it is where `key` holds no value.
    fn remove(&mut self, key: &[u8]) -> (r: Option<T>)
        requires
            node_wf(*old(self)),
        ensures
            node_wf(*final(self)),
            node_map(*final(self)) == node_map(*old(self)).remove(key@),
            r == node_get(*old(self), key@),
            r is None ==> *final(self) == *old(self),
            node_compact(*old(self)) ==> node_compact(*final(self)),
    {
        if self.get(key).is_none() {
            proof {
                lemma_lookup_node_map(*self, key@);
                assert(node_map(*self).remove(key@) =~= node_map(*self));
            }
            return None;
        }
        self.remove_below(key)
    }

    /// Takes the value under `key` out of this node, merging or dropping edges that are left
    /// with one node or none below them.
    fn remove_below(&mut self, key: &[u8]) -> (r: Option<T>)
        requires
            node_wf(*old(self)),
        ensures
            node_wf(*final(self)),
            node_map(*final(self)) == node_map(*old(self)).remove(key@),
            r == node_get(*old(self), key@),
            r is None ==> final(self).value == old(self).value && final(self).children@.len()
                == old(self).children@.len(),
            node_compact(*old(self)) ==> node_compact(*final(self)),
        decreases key@.len(),
    {
        let ghost n1 = *self;
        if key.len() == 0 {
            let r = self.value.take();
            proof {
                assert(key@ =~= Seq::<u8>::empty());
                lemma_clear_value(n1, *self);
                assert(self.children@ == n1.children@);
            }
            return r;
        }
        let first = key[0];
        let (_, rest) = key.split_at(1);
        proof {
            assert(rest@ =~= key@.drop_first());
        }
        let i = match find_child(&self.children, first) {
            Some(i) => i,
            None => {
                proof {
                    assert(!node_map(n1).contains_key(key@));
                    assert(node_map(n1).remove(key@) =~= node_map(n1));
                }
                return None;
            },
        };
        proof {
            lemma_child_of(n1.children@, first);
            assert(node_wf(n1.children@[i as int].2));
            lemma_replaced_same(n1, i as int);
        }
        let ghost e1 = n1.children@[i as int];
        let mut entry = (0u8, Vec::new(), Node { value: None, children: Vec::new() });
        self.children.set_and_swap(i, &mut entry);
        let (b, mut prefix, mut node) = entry;
        let ghost pre = seq![b] + prefix@;
        if !starts_with(rest, prefix.as_slice()) {
            self.children.set(i, (b, prefix, node));
            proof {
                assert(self.children@ =~= n1.children@);
                assert(node_get(n1, key@) == edge_get(e1, key@));
                assert(!node_map(n1).contains_key(key@));
                assert(node_map(n1).remove(key@) =~= node_map(n1));
            }
            return None;
        }
        let (_, sub) = rest.split_at(prefix.len());
        proof {
            assert(sub@ =~= rest@.skip(prefix@.len() as int));
            assert(key@ =~= pre + sub@) by {
                assert(prefix@ =~= rest@.subrange(0, prefix@.len() as int));
                assert forall|j: int| 0 <= j < rest@.len() implies rest@[j] == (prefix@ + sub@)[j] by {
                    if j < prefix@.len() {
                        assert(prefix@[j] == rest@.subrange(0, prefix@.len() as int)[j]);
                    } else {
                        assert(sub@[j - prefix@.len()] == rest@[j]);
                    }
                }
                assert(rest@ =~= prefix@ + sub@);
                assert(key@ =~= seq![b] + rest@);
            }
        }
        let r = node.remove_below(sub);
        let ghost nb = node;
        let ghost e_mid = (b, prefix, node);
        proof {
            lemma_replaced_remove(node_map(n1), pre, node_map(e1.2), sub@);
        }
        if r.is_none() {
            self.children.set(i, (b, prefix, node));
            proof {
                assert(self.children@ =~= n1.children@.update(i as int, e_mid));
                if node_compact(n1) {
                    lemma_compact_update(n1, *self, i as int, e_mid);
                }
                assert(node_map(e1.2).remove(sub@) =~= node_map(e1.2));
                lemma_insert_descend(n1, *self, i as int, e_mid, node_map(nb));
                lemma_wf_update(n1, *self, i as int, e_mid);
                assert(node_get(n1, key@) == edge_get(e1, key@));
            }
            return r;
        }
        if node.is_collapsible() {
            match node.collapse() {
                Some((inner_first, mut inner_prefix, inner_node)) => {
                    prefix.push(inner_first);
                    prefix.append(&mut inner_prefix);
                    let ghost e_new = (b, prefix, inner_node);
                    self.children.set(i, (b, prefix, inner_node));
                    proof {
                        assert(self.children@ =~= n1.children@.update(i as int, e_new));
                        assert(prefix@ =~= e_mid.1@ + (seq![inner_first] + nb.children@[0].1@));
                        lemma_replace_edge(n1, *self, i as int, e_new);
                        let target = node_map(n1).remove(key@);
                        assert(target == replaced_under(node_map(n1), pre, node_map(nb)));
                        assert forall|q: Seq<u8>| #[trigger] node_get(*self, q) == lookup(target, q) by {
                            lemma_edge_collapse(e_mid, e_new, q);
                            lemma_lookup_node_map(nb, q.skip(pre.len() as int));
                            lemma_lookup_node_map(n1, q);
                            lemma_first_then(b, prefix@, q);
                            lemma_first_then(b, e_mid.1@, q);
                            if q.len() > 0 && q[0] == b {
                                assert(node_get(*self, q) == edge_get(e_new, q));
                            } else {
                                assert(node_get(*self, q) == node_get(n1, q));
                            }
                        }
                        lemma_node_map_eq(*self, target);
                        assert(node_wf(inner_node)) by {
                            assert(nb.children@[0].2 == inner_node);
                        }
                        lemma_wf_update(n1, *self, i as int, e_new);
                        assert(node_get(n1, key@) == edge_get(e1, key@));
                        if node_compact(n1) {
                            assert(nb.children@[0].2 == inner_node);
                            assert(inner_node.value is Some || inner_node.children@.len() >= 2);
                            assert(node_compact(inner_node));
                            lemma_compact_update(n1, *self, i as int, e_new);
                        }
                    }
                },
                None => {
                    self.children.remove(i);
                    proof {
                        assert(self.children@ =~= n1.children@.remove(i as int));
                        assert(unique_bytes(n1.children@));
                        lemma_empty_node(nb);
                        let target = node_map(n1).remove(key@);
                        assert(target == replaced_under(node_map(n1), pre, node_map(nb)));
                        assert(e1.0 == b && e1.1@ == prefix@);
                        assert(nb.value is None && nb.children@.len() == 0);
                        assert forall|q: Seq<u8>| #[trigger] node_get(*self, q) == lookup(target, q) by {
                            lemma_lookup_node_map(n1, q);
                            lemma_first_then(b, e_mid.1@, q);
                            if q.len() > 0 && q[0] == b {
                                lemma_child_of_remove(n1.children@, i as int, q[0]);
                                lemma_get_unfold(*self, q);
                                lemma_get_unfold(n1, q);
                                assert(node_get(*self, q) is None);
                                assert(node_get(n1, q) == edge_get(e1, q));
                                assert(!prefixed(node_map(nb), pre).contains_key(q));
                                if node_map(n1).contains_key(q) {
                                    assert(pre.is_prefix_of(q));
                                }
                                assert(!target.contains_key(q));
                            } else if q.len() > 0 {
                                lemma_child_of_remove(n1.children@, i as int, q[0]);
                                lemma_get_unfold(*self, q);
                                lemma_get_unfold(n1, q);
                                if q[0] != b {
                                    lemma_child_of(n1.children@, q[0]);
                                    if let Some(j) = child_of(n1.children@, q[0]) {
                                        if j < i {
                                            assert(self.children@[j] == n1.children@[j]);
                                        } else {
                                            assert(self.children@[j - 1] == n1.children@[j]);
                                        }
                                    }
                                }
                            }
                        }
                        lemma_node_map_eq(*self, target);
                        assert forall|j: int| 0 <= j < self.children@.len() implies node_wf(
                            #[trigger] self.children@[j].2,
                        ) by {
                            if j < i {
                                assert(self.children@[j] == n1.children@[j]);
                            } else {
                                assert(self.children@[j] == n1.children@[j + 1]);
                            }
                        }
                        assert forall|a: int, c: int| 0 <= a < c < self.children@.len() implies self.children@[a].0
                            != self.children@[c].0 by {
                            let a2 = if a < i { a } else { a + 1 };
                            let c2 = if c < i { c } else { c + 1 };
                            assert(self.children@[a] == n1.children@[a2]);
                            assert(self.children@[c] == n1.children@[c2]);
                        }
                        assert(node_get(n1, key@) == edge_get(e1, key@));
                        if node_compact(n1) {
                            lemma_compact_remove(n1, *self, i as int);
                        }
                    }
                },
            }
        } else {
            self.children.set(i, (b, prefix, node));
            proof {
                assert(self.children@ =~= n1.children@.update(i as int, e_mid));
                if node_compact(n1) {
                    lemma_compact_update(n1, *self, i as int, e_mid);
                }
                lemma_insert_descend(n1, *self, i as int, e_mid, node_map(nb));
                lemma_wf_update(n1, *self, i as int, e_mid);
                assert(node_get(n1, key@) == edge_get(e1, key@));
            }
        }
        r
    }
}

proof fn lemma_new_root<T>(n: Node<T>, k: Seq<u8>, v: T)
    requires
        k.len() == 0 ==> n.value == Some(v) && n.children@.len() == 0,
        k.len() > 0 ==> {
            &&& n.value is None
            &&& n.children@.len() == 1
            &&& n.children@[0].0 == k[0]
            &&& n.children@[0].1@ == k.drop_first()
            &&& n.children@[0].2.value == Some(v)
            &&& n.children@[0].2.children@.len() == 0
        },
    ensures
        node_map(n) == Map::<Seq<u8>, T>::empty().insert(k, v),
{
    let m = Map::<Seq<u8>, T>::empty().insert(k, v);
    assert forall|q: Seq<u8>| #[trigger] node_get(n, q) == lookup(m, q) by {
        if k.len() == 0 {
            lemma_leaf_get(n, q);
            if q.len() == 0 {
                assert(q =~= k);
            }
        } else {
            lemma_single_edge(n, q);
            if q.len() > 0 && q[0] == k[0] {
                let e = n.children@[0];
                lemma_leaf_get(e.2, q.drop_first().skip(e.1@.len() as int));
                lemma_whole_prefix(e.1@, q.drop_first());
                if q.drop_first() == k.drop_first() {
                    lemma_same_first_rest(q, k);
                }
            }
        }
    }
    lemma_node_map_eq(n, m);
}

proof fn lemma_replaced_insert<T>(m: Map<Seq<u8>, T>, pre: Seq<u8>, sub: Map<Seq<u8>, T>, s: Seq<u8>, v: T)
    ensures
        replaced_under(m, pre, sub.insert(s, v)) == replaced_under(m, pre, sub).insert(pre + s, v),
{
    let a = replaced_under(m, pre, sub.insert(s, v));
    let b = replaced_under(m, pre, sub).insert(pre + s, v);
    assert forall|q: Seq<u8>| #[trigger] a.contains_key(q) == b.contains_key(q) && (a.contains_key(q) ==> a[q] == b[q]) by {
        lemma_prefix_concat(pre, s, q);
        lemma_whole_prefix(s, q.skip(pre.len() as int));
        if pre.is_prefix_of(q) && q.skip(pre.len() as int) == s {
            lemma_split_eq(pre + s, q, pre.len() as int);
            assert((pre + s).take(pre.len() as int) =~= pre);
            assert((pre + s).skip(pre.len() as int) =~= s);
        }
        if q == pre + s {
            assert(q.skip(pre.len() as int) =~= s);
            assert(pre =~= q.subrange(0, pre.len() as int));
        }
    }
    assert(a =~= b);
}

proof fn lemma_equal_count_mono(l: Seq<u8>, r: Seq<u8>, a: int, b: int)
    requires
        0 <= a <= b,
    ensures
        equal_count(l, r, a) <= equal_count(l, r, b),
    decreases b - a,
{
    if a < b {
        lemma_equal_count_mono(l, r, a, b - 1);
    }
}

proof fn lemma_equal_count_all(l: Seq<u8>, r: Seq<u8>, n: int)
    requires
        n >= 0,
        forall|j: int| 0 <= j < n ==> l[j] == r[j],
    ensures
        equal_count(l, r, n) == n,
    decreases n,
{
    if n > 0 {
        lemma_equal_count_all(l, r, n - 1);
    }
}

proof fn lemma_node_insert_regular<T>(n: Node<T>, k: Seq<u8>, v: T)
    requires
        node_insert_regular(n, k),
    ensures
        node_inserted(n, k, v) == node_map(n).insert(k, v),
    decreases k.len(),
{
    if k.len() > 0 {
        if let Some(i) = child_of(n.children@, k[0]) {
            lemma_child_of(n.children@, k[0]);
            let e = n.children@[i];
            let p = e.1@;
            let rest = k.drop_first();
            let pre = seq![k[0]];
            lemma_replaced_same(n, i);
            if p.is_prefix_of(rest) {
                let sub = rest.skip(p.len() as int);
                lemma_node_insert_regular(e.2, sub, v);
                lemma_replaced_insert(node_map(n), pre + p, node_map(e.2), sub, v);
                assert(k =~= (pre + p) + sub) by {
                    assert(p =~= rest.subrange(0, p.len() as int));
                    assert forall|j: int| 0 <= j < k.len() implies k[j] == ((pre + p) + sub)[j] by {
                        if 1 <= j < p.len() + 1 {
                            assert(p[j - 1] == rest.subrange(0, p.len() as int)[j - 1]);
                        }
                    }
                }
            } else if !rest.is_prefix_of(p) {
                lemma_diverge_point(rest, p);
                let c = equal_count(rest, p, shorter(rest.len() as int, p.len() as int)) as int;
                assert(rest.take(c) + p.skip(c) =~= p) by {
                    assert forall|j: int| 0 <= j < c implies rest.take(c)[j] == p[j] by {
                        assert(rest.take(c)[j] == p.take(c)[j]);
                    }
                }
                assert(rest[c] != p[c]) by {
                    if rest[c] == p[c] {
                        assert forall|j: int| 0 <= j < c + 1 implies rest[j] == p[j] by {
                            if j < c {
                                assert(rest.take(c)[j] == p.take(c)[j]);
                            }
                        }
                        lemma_equal_count_all(rest, p, c + 1);
                        lemma_equal_count_mono(rest, p, c + 1, shorter(rest.len() as int, p.len() as int));
                    }
                }
                let m = node_map(n);
                assert(outside(m, pre) == outside(m, pre + p)) by {
                    assert forall|q: Seq<u8>| #[trigger] outside(m, pre).contains_key(q) == outside(m, pre + p).contains_key(q) by {
                        lemma_first_then(k[0], p, q);
                        lemma_first_then(k[0], Seq::empty(), q);
                        assert(pre + Seq::<u8>::empty() =~= pre);
                        if q.len() > 0 && q[0] == k[0] {
                            lemma_get_unfold(n, q);
                        }
                    }
                    assert(outside(m, pre) =~= outside(m, pre + p));
                }
                assert(pre + rest.take(c) + p.skip(c) =~= pre + p);
            }
        }
    }
}

/// `a` and `b` agree only on a leading run of bytes: past the first position where they differ,
/// they differ at every position that both have.
pub open spec fn agree_on_leading_run(a: Seq<u8>, b: Seq<u8>) -> bool {
    forall|i: int, j: int| 0 <= i < j < a.len() && j < b.len() && a[i] != b[i] ==> a[j] != b[j]
}

/// `k` agrees only on a leading run of bytes with every key of `m` that starts with the byte
/// that `k` starts with.
pub open spec fn agrees_within_branch<T>(m: Map<Seq<u8>, T>, k: Seq<u8>) -> bool {
    forall|q: Seq<u8>|
        #[trigger] m.contains_key(q) && q.len() > 0 && k.len() > 0 && q[0] == k[0]
            ==> agree_on_leading_run(k, q)
}

proof fn lemma_count_flat(l: Seq<u8>, r: Seq<u8>, j: int, n: int)
    requires
        0 <= j <= n,
        forall|x: int| j <= x < n ==> l[x] != r[x],
    ensures
        equal_count(l, r, n) == equal_count(l, r, j),
    decreases n - j,
{
    if n > j {
        lemma_count_flat(l, r, j, n - 1);
    }
}

proof fn lemma_agree_shift(x: Seq<u8>, a: Seq<u8>, b: Seq<u8>)
    requires
        agree_on_leading_run(x + a, x + b),
    ensures
        agree_on_leading_run(a, b),
{
    assert forall|i: int, j: int|
        0 <= i < j < a.len() && j < b.len() && a[i] != b[i] implies a[j] != b[j] by {
        assert((x + a)[x.len() + i] == a[i]);
        assert((x + b)[x.len() + i] == b[i]);
        assert((x + a)[x.len() + j] == a[j]);
        assert((x + b)[x.len() + j] == b[j]);
    }
}

/// The keys below the edge at `i` of node `n`, with the edge's bytes put before them, are keys
/// of `n`.
proof fn lemma_edge_key<T>(n: Node<T>, i: int, k1: Seq<u8>)
    requires
        0 <= i < n.children@.len(),
        child_of(n.children@, n.children@[i].0) == Some(i),
        node_map(n.children@[i].2).contains_key(k1),
    ensures
        node_map(n).contains_key(seq![n.children@[i].0] + n.children@[i].1@ + k1),
{
    let e = n.children@[i];
    let q = (seq![e.0] + e.1@) + k1;
    lemma_prefix_concat(seq![e.0] + e.1@, k1, q);
    assert((seq![e.0] + e.1@) =~= q.subrange(0, e.1@.len() + 1int));
    lemma_first_then(e.0, e.1@, q);
    assert(q.skip(e.1@.len() + 1int) =~= k1);
    lemma_get_unfold(n, q);
}

/// An insert below node `n` is regular when the key agrees only on a leading run of bytes with
/// every key already there that starts with the same byte.
proof fn lemma_node_regular_from_keys<T>(n: Node<T>, k: Seq<u8>)
    requires
        node_wf(n),
        agrees_within_branch(node_map(n), k),
    ensures
        node_insert_regular(n, k),
    decreases k.len(),
{
    if k.len() == 0 {
        return;
    }
    let ci = child_of(n.children@, k[0]);
    if ci is None {
        return;
    }
    let i = ci->Some_0;
    lemma_child_of(n.children@, k[0]);
    let e = n.children@[i];
    let p = e.1@;
    let rest = k.drop_first();
    let pre = seq![e.0] + p;
    assert(node_wf(e.2) && node_nonempty(e.2));
    if p.is_prefix_of(rest) {
        let sub = rest.skip(p.len() as int);
        assert(k =~= pre + sub) by {
            assert(p =~= rest.subrange(0, p.len() as int));
            assert forall|j: int| 0 <= j < k.len() implies k[j] == (pre + sub)[j] by {
                if 1 <= j < p.len() + 1 {
                    assert(p[j - 1] == rest.subrange(0, p.len() as int)[j - 1]);
                }
            }
        }
        assert forall|q: Seq<u8>| #[trigger] node_map(e.2).contains_key(q) implies agree_on_leading_run(
            sub,
            q,
        ) by {
            lemma_edge_key(n, i, q);
            assert((pre + q)[0] == k[0]);
            lemma_agree_shift(pre, sub, q);
        }
        lemma_node_regular_from_keys(e.2, sub);
    } else if !rest.is_prefix_of(p) {
        lemma_nonempty_map(e.2);
        let k1 = choose|q: Seq<u8>| #[trigger] node_map(e.2).contains_key(q);
        lemma_edge_key(n, i, k1);
        let w = pre + k1;
        assert(w[0] == k[0]);
        assert(agree_on_leading_run(k, w));
        let m = shorter(rest.len() as int, p.len() as int);
        let c = equal_count(rest, p, m) as int;
        lemma_equal_count_bound(rest, p, m);
        assert forall|j: int| 0 <= j < c implies rest[j] == p[j] by {
            if rest[j] != p[j] {
                assert forall|x: int| j + 1 <= x < m implies rest[x] != p[x] by {
                    assert(k[j + 1] == rest[j] && w[j + 1] == p[j]);
                    assert(k[x + 1] == rest[x] && w[x + 1] == p[x]);
                }
                lemma_count_flat(rest, p, j + 1, m);
                lemma_equal_count_bound(rest, p, j);
            }
        }
        assert(rest.take(c) =~= p.take(c));
    }
}

proof fn lemma_nonempty_map<T>(n: Node<T>)
    requires
        node_wf(n),
        node_nonempty(n),
    ensures
        exists|k: Seq<u8>| #[trigger] node_map(n).contains_key(k),
    decreases n,
{
    if n.value is Some {
        assert(node_map(n).contains_key(Seq::empty()));
    } else {
        let e = n.children@[0];
        assert(decreases_to!(n => n.children@[0].2)) by {
            assert(decreases_to!(n => n.children));
            assert(decreases_to!(n.children => n.children@));
        }
        assert(node_wf(e.2) && node_nonempty(e.2));
        lemma_nonempty_map(e.2);
        let k1 = choose|k: Seq<u8>| #[trigger] node_map(e.2).contains_key(k);
        let q = (seq![e.0] + e.1@) + k1;
        lemma_child_of(n.children@, e.0);
        assert(child_of(n.children@, e.0) == Some(0int)) by {
            if let Some(j) = child_of(n.children@, e.0) {
                if j > 0 {
                    assert(n.children@[0].0 != n.children@[j].0);
                }
            }
        }
        lemma_prefix_concat(seq![e.0] + e.1@, k1, q);
        assert((seq![e.0] + e.1@) =~= q.subrange(0, e.1@.len() + 1int));
        lemma_first_then(e.0, e.1@, q);
        assert(q.skip(e.1@.len() + 1int) =~= k1);
        lemma_get_unfold(n, q);
        assert(node_map(n).contains_key(q));
    }
}

/// The values of `m` under the keys `s.take(j)` for `lo <= j < hi` that it holds, shortest
/// key first.
pub open spec fn values_between<T>(m: Map<Seq<u8>, T>, s: Seq<u8>, lo: int, hi: int) -> Seq<T>
    decreases hi - lo,
{
    if hi <= lo {
        Seq::empty()
    } else {
        let prev = values_between(m, s, lo, hi - 1);
        if m.contains_key(s.take(hi - 1)) {
            prev.push(m[s.take(hi - 1)])
        } else {
            prev
        }
    }
}

/// The values of `m` under every prefix of `s` (the empty one and `s` itself included) that it
/// holds, shortest prefix first.
pub open spec fn prefix_values<T>(m: Map<Seq<u8>, T>, s: Seq<u8>) -> Seq<T> {
    values_between(m, s, 0, s.len() + 1int)
}

/// The value of node `n`, if any, as a sequence of at most one value.
spec fn here_value<T>(n: Node<T>) -> Seq<T> {
    match n.value {
        Some(v) => seq![v],
        None => Seq::empty(),
    }
}

/// The values met on the walk from node `n` down the edges that `q` spells out.
spec fn node_along<T>(n: Node<T>, q: Seq<u8>) -> Seq<T>
    decreases q.len(),
{
    if q.len() == 0 {
        here_value(n)
    } else {
        match child_of(n.children@, q[0]) {
            None => here_value(n),
            Some(i) => {
                let e = n.children@[i];
                let rest = q.drop_first();
                if e.1@.is_prefix_of(rest) {
                    here_value(n) + node_along(e.2, rest.skip(e.1@.len() as int))
                } else {
                    here_value(n)
                }
            },
        }
    }
}

proof fn lemma_values_split<T>(m: Map<Seq<u8>, T>, s: Seq<u8>, lo: int, mid: int, hi: int)
    requires
        lo <= mid <= hi,
    ensures
        values_between(m, s, lo, hi) == values_between(m, s, lo, mid) + values_between(
            m,
            s,
            mid,
            hi,
        ),
    decreases hi - mid,
{
    if hi == mid {
        assert(values_between(m, s, lo, mid) + values_between(m, s, mid, hi) =~= values_between(
            m,
            s,
            lo,
            mid,
        ));
    } else {
        lemma_values_split(m, s, lo, mid, hi - 1);
        let a = values_between(m, s, lo, mid);
        let b = values_between(m, s, mid, hi - 1);
        if m.contains_key(s.take(hi - 1)) {
            assert((a + b).push(m[s.take(hi - 1)]) =~= a + b.push(m[s.take(hi - 1)]));
        }
    }
}

proof fn lemma_values_none<T>(m: Map<Seq<u8>, T>, s: Seq<u8>, lo: int, hi: int)
    requires
        forall|j: int| lo <= j < hi ==> !m.contains_key(#[trigger] s.take(j)),
    ensures
        values_between(m, s, lo, hi) == Seq::<T>::empty(),
    decreases hi - lo,
{
    if hi > lo {
        lemma_values_none(m, s, lo, hi - 1);
    }
}

proof fn lemma_values_shift<T>(
    m1: Map<Seq<u8>, T>,
    s1: Seq<u8>,
    lo1: int,
    m2: Map<Seq<u8>, T>,
    s2: Seq<u8>,
    lo2: int,
    h: int,
)
    requires
        h >= 0,
        forall|j: int|
            0 <= j < h ==> lookup(m1, #[trigger] s1.take(lo1 + j)) == lookup(m2, s2.take(lo2 + j)),
    ensures
        values_between(m1, s1, lo1, lo1 + h) == values_between(m2, s2, lo2, lo2 + h),
    decreases h,
{
    if h > 0 {
        lemma_values_shift(m1, s1, lo1, m2, s2, lo2, h - 1);
        assert(lookup(m1, s1.take(lo1 + (h - 1))) == lookup(m2, s2.take(lo2 + (h - 1))));
    }
}

/// The walk down the edges finds exactly the values under the prefixes of `q`.
proof fn lemma_node_along<T>(n: Node<T>, q: Seq<u8>)
    ensures
        node_along(n, q) == prefix_values(node_map(n), q),
    decreases q.len(),
{
    let m = node_map(n);
    lemma_values_split(m, q, 0, 1, q.len() + 1int);
    assert(q.take(0) =~= Seq::<u8>::empty());
    lemma_lookup_node_map(n, q.take(0));
    assert(values_between(m, q, 0, 1) == here_value(n)) by {
        assert(values_between(m, q, 0, 0) == Seq::<T>::empty());
        if n.value is Some {
            assert(seq![n.value->Some_0] =~= Seq::<T>::empty().push(n.value->Some_0));
        }
    }
    if q.len() == 0 {
        assert(values_between(m, q, 1, 1) == Seq::<T>::empty());
        assert(here_value(n) + Seq::<T>::empty() =~= here_value(n));
        return;
    }
    let rest = q.drop_first();
    assert forall|j: int| 1 <= j <= q.len() implies #[trigger] q.take(j).len() > 0 && q.take(j)[0]
        == q[0] && q.take(j).drop_first() == rest.take(j - 1) by {
        assert(q.take(j).drop_first() =~= rest.take(j - 1));
    }
    match child_of(n.children@, q[0]) {
        None => {
            assert forall|j: int| 1 <= j < q.len() + 1int implies !m.contains_key(
                #[trigger] q.take(j),
            ) by {
                lemma_lookup_node_map(n, q.take(j));
                lemma_get_unfold(n, q.take(j));
            }
            lemma_values_none(m, q, 1, q.len() + 1int);
            assert(here_value(n) + Seq::<T>::empty() =~= here_value(n));
        },
        Some(i) => {
            let e = n.children@[i];
            let p = e.1@;
            if p.is_prefix_of(rest) {
                let l = p.len() as int;
                let sub = rest.skip(l);
                lemma_node_along(e.2, sub);
                lemma_values_split(m, q, 1, l + 1, q.len() + 1int);
                assert forall|j: int| 1 <= j < l + 1 implies !m.contains_key(#[trigger] q.take(j)) by {
                    lemma_lookup_node_map(n, q.take(j));
                    lemma_get_unfold(n, q.take(j));
                    assert(!p.is_prefix_of(rest.take(j - 1)));
                }
                lemma_values_none(m, q, 1, l + 1);
                assert forall|j: int| 0 <= j < sub.len() + 1int implies lookup(
                    m,
                    #[trigger] q.take(l + 1 + j),
                ) == lookup(node_map(e.2), sub.take(0 + j)) by {
                    let k = q.take(l + 1 + j);
                    lemma_lookup_node_map(n, k);
                    lemma_lookup_node_map(e.2, sub.take(j));
                    lemma_get_unfold(n, k);
                    assert(k.drop_first() == rest.take(l + j));
                    assert(p =~= rest.take(l + j).subrange(0, l));
                    assert(rest.take(l + j).skip(l) =~= sub.take(j));
                }
                lemma_values_shift(m, q, l + 1, node_map(e.2), sub, 0, sub.len() + 1int);
                assert(Seq::<T>::empty() + values_between(m, q, l + 1, q.len() + 1int)
                    =~= values_between(m, q, l + 1, q.len() + 1int));
            } else {
                assert forall|j: int| 1 <= j < q.len() + 1int implies !m.contains_key(
                    #[trigger] q.take(j),
                ) by {
                    lemma_lookup_node_map(n, q.take(j));
                    lemma_get_unfold(n, q.take(j));
                    if p.is_prefix_of(rest.take(j - 1)) {
                        assert(p =~= rest.subrange(0, p.len() as int)) by {
                            assert forall|x: int| 0 <= x < p.len() implies p[x] == rest[x] by {
                                assert(p[x] == rest.take(j - 1).subrange(0, p.len() as int)[x]);
                            }
                        }
                    }
                }
                lemma_values_none(m, q, 1, q.len() + 1int);
                assert(here_value(n) + Seq::<T>::empty() =~= here_value(n));
            }
        },
    }
}

/// A map from byte strings to values, stored as a radix tree.
pub struct Trie<T> {
    root: Option<Node<T>>,
}

impl<T> Trie<T> {
    /// The values by key.
    pub closed spec fn view(&self) -> Map<Seq<u8>, T> {
        match self.root {
            None => Map::empty(),
            Some(n) => node_map(n),
        }
    }

    /// The invariant of the tree.
    pub closed spec fn wf(&self) -> bool {
        match self.root {
            None => true,
            Some(n) => node_wf(n) && node_nonempty(n),
        }
    }

    /// The values once `value` is put under `key`. Where [`Trie::insert_is_regular`] holds, this
    /// is the map with `key` set to `value`; where it does not, a split edge takes the old
    /// values to keys that agree with `key` up to the split, and `value` may be lost.
    pub closed spec fn inserted(&self, key: Seq<u8>, value: T) -> Map<Seq<u8>, T> {
        match self.root {
            None => Map::empty().insert(key, value),
            Some(n) => node_inserted(n, key, value),
        }
    }

    /// Where `key` leaves an edge in the middle, all the bytes on which the key and the edge
    /// agree come before the first one on which they differ.
    pub closed spec fn insert_is_regular(&self, key: Seq<u8>) -> bool {
        match self.root {
            None => true,
            Some(n) => node_insert_regular(n, key),
        }
    }

    /// Whether putting a value under `key` is regular (see [`Trie::insert_is_regular`]), so
    /// that the insert sets `key` and leaves every other key as it was.
    pub fn regular_insert(&self, key: &[u8]) -> (r: bool)
        requires
            self.wf(),
        ensures
            r == self.insert_is_regular(key@),
    {
        match &self.root {
            Some(n) => n.insert_regular(key),
            None => true,
        }
    }

    /// No node below the root is empty or a mere pass-through: each holds a value or has at
    /// least two edges.
    pub closed spec fn is_compact(&self) -> bool {
        match self.root {
            None => true,
            Some(n) => node_compact(n),
        }
    }

    /// Puts `value` under `key`, and returns the value that was there.
    pub fn insert(&mut self, key: &[u8], value: T) -> (r: Option<T>)
        requires
            old(self).wf(),
        ensures
            final(self).wf(),
            final(self)@ == old(self).inserted(key@, value),
            old(self).insert_is_regular(key@) ==> final(self)@ == old(self)@.insert(key@, value),
            agrees_within_branch(old(self)@, key@) ==> final(self)@ == old(self)@.insert(
                key@,
                value,
            ),
            old(self).is_compact() && old(self).insert_is_regular(key@) ==> final(self).is_compact(),
            r == lookup(old(self)@, key@),
    {
        proof {
            if agrees_within_branch(old(self)@, key@) {
                lemma_insert_is_regular(&*old(self), key@);
            }
            if old(self).insert_is_regular(key@) {
                lemma_insert_regular(&*old(self), key@, value);
            }
        }
        match self.root.take() {
            Some(mut node) => {
                let r = node.insert(key, value);
                self.root = Some(node);
                proof {
                    lemma_lookup_node_map(node, key@);
                }
                r
            },
            None => {
                let node = Node::new_value(value);
                let root = if key.len() > 0 {
                    let (_, rest) = key.split_at(1);
                    Node::new_child(key[0], rest, node)
                } else {
                    node
                };
                proof {
                    lemma_new_root(root, key@, value);
                    lemma_wf_leaf(node);
                    if key.len() > 0 {
                        assert(root.children@[0].2 == node);
                        assert(node_compact(node));
                        assert(node_compact(root));
                    }
                }
                self.root = Some(root);
                None
            },
        }
    }

    /// Takes the value under `key` out of the map.
    pub fn remove(&mut self, key: &[u8]) -> (r: Option<T>)
        requires
            old(self).wf(),
        ensures
            final(self).wf(),
            final(self)@ == old(self)@.remove(key@),
            r == lookup(old(self)@, key@),
            old(self).is_compact() ==> final(self).is_compact(),
    {
        let mut node = match self.root.take() {
            Some(n) => n,
            None => {
                proof {
                    assert(Map::<Seq<u8>, T>::empty().remove(key@) =~= Map::<Seq<u8>, T>::empty());
                }
                return None;
            },
        };
        let ghost n1 = node;
        let r = node.remove(key);
        proof {
            lemma_lookup_node_map(n1, key@);
        }
        if r.is_none() {
            self.root = Some(node);
            return None;
        }
        if !node.is_empty() {
            self.root = Some(node);
        } else {
            proof {
                lemma_empty_node(node);
            }
        }
        r
    }

    /// Whether the map holds no value.
    pub fn is_empty(&self) -> (r: bool)
        requires
            self.wf(),
        ensures
            r == (self@ == Map::<Seq<u8>, T>::empty()),
    {
        proof {
            if self.root is Some {
                let n = self.root->Some_0;
                lemma_nonempty_map(n);
                let k = choose|k: Seq<u8>| #[trigger] node_map(n).contains_key(k);
                assert(!Map::<Seq<u8>, T>::empty().contains_key(k));
            }
        }
        self.root.is_none()
    }

    /// The value under `key`.
    pub fn get(&self, key: &[u8]) -> (r: Option<&T>)
        ensures
            r matches Some(v) ==> self@.contains_key(key@) && self@[key@] == *v,
            r is None ==> !self@.contains_key(key@),
    {
        match &self.root {
            None => None,
            Some(n) => n.get(key),
        }
    }
}

impl<T> Trie<T> {
    /// The value under `key`, to change in place.
    pub fn get_mut(&mut self, key: &[u8]) -> (r: Option<&mut T>)
        requires
            old(self).wf(),
        ensures
            final(self).wf(),
            r is None ==> !old(self)@.contains_key(key@) && final(self)@ == old(self)@,
            r matches Some(x) ==> {
                &&& old(self)@.contains_key(key@)
                &&& old(self)@[key@] == *x
                &&& final(self)@ == old(self)@.insert(key@, *final(x))
            },
    {
        match &mut self.root {
            None => None,
            Some(n) => {
                proof {
                    lemma_lookup_node_map(*n, key@);
                }
                n.get_mut(key)
            },
        }
    }

    /// The values under every prefix of `suffix` (the empty key and `suffix` itself included),
    /// shortest prefix first.
    pub fn prefix_of<'a>(&'a self, suffix: &[u8]) -> (r: Vec<&'a T>)
        ensures
            r@.len() == prefix_values(self@, suffix@).len(),
            forall|i: int| 0 <= i < r@.len() ==> *r@[i] == prefix_values(self@, suffix@)[i],
    {
        let mut out: Vec<&'a T> = Vec::new();
        let root = match &self.root {
            None => {
                proof {
                    lemma_values_none(self@, suffix@, 0, suffix@.len() + 1int);
                }
                return out;
            },
            Some(n) => n,
        };
        proof {
            lemma_node_along(*root, suffix@);
        }
        let ghost total = node_along(*root, suffix@);
        let ghost mut acc: Seq<T> = Seq::empty();
        let mut node: &'a Node<T> = root;
        let mut rest_key: &[u8] = suffix;
        loop
            invariant_except_break
                acc + node_along(*node, rest_key@) == total,
            invariant
                out@.len() == acc.len(),
                forall|i: int| 0 <= i < acc.len() ==> *out@[i] == acc[i],
            ensures
                acc == total,
            decreases rest_key@.len(),
        {
            let ghost before = acc;
            if let Some(v) = &node.value {
                out.push(v);
                proof {
                    acc = acc.push(*v);
                }
            }
            proof {
                assert(acc == before + here_value(*node)) by {
                    if node.value is Some {
                        assert(before.push(node.value->Some_0) =~= before + here_value(*node));
                    } else {
                        assert(before + here_value(*node) =~= before);
                    }
                }
                assert(acc + Seq::<T>::empty() =~= acc);
            }
            if rest_key.len() == 0 {
                break;
            }
            let first = rest_key[0];
            let (_, rest) = rest_key.split_at(1);
            proof {
                assert(rest@ =~= rest_key@.drop_first());
            }
            let i = match find_child(&node.children, first) {
                Some(i) => i,
                None => break,
            };
            proof {
                lemma_child_of(node.children@, first);
            }
            let entry = &node.children[i];
            if !starts_with(rest, entry.1.as_slice()) {
                break;
            }
            let (_, sub) = rest.split_at(entry.1.len());
            proof {
                assert(sub@ =~= rest@.skip(entry.1@.len() as int));
                assert(acc + node_along(entry.2, sub@) == total) by {
                    assert(before + (here_value(*node) + node_along(entry.2, sub@)) =~= (before
                        + here_value(*node)) + node_along(entry.2, sub@));
                }
            }
            node = &entry.2;
            rest_key = sub;
        }
        out
    }
}

impl<T> Default for Trie<T> {
    fn default() -> (t: Self)
        ensures
            t@ == Map::<Seq<u8>, T>::empty(),
            t.wf(),
            t.is_compact(),
    {
        Trie { root: None }
    }
}

/// An insert is regular into an empty map, and whenever the key agrees only on a leading run of
/// bytes with every key of the map that starts with the byte the key starts with.
pub proof fn lemma_insert_is_regular<T>(t: &Trie<T>, key: Seq<u8>)
    requires
        t.wf(),
        agrees_within_branch(t@, key),
    ensures
        t.insert_is_regular(key),
{
    match t.root {
        None => {},
        Some(n) => {
            lemma_node_regular_from_keys(n, key);
        },
    }
}

/// What a read gives back of a write: inserting where [`Trie::insert_is_regular`] holds sets
/// `key` to `value` and leaves every other key as it was.
pub proof fn lemma_insert_regular<T>(t: &Trie<T>, key: Seq<u8>, value: T)
    requires
        t.wf(),
        t.insert_is_regular(key),
    ensures
        t.inserted(key, value) == t@.insert(key, value),
{
    match t.root {
        None => {},
        Some(n) => lemma_node_insert_regular(n, key, value),
    }
}

} // verus!
