//! The bookkeeping of a buffered multicast: its connections ordered by how many of the buffered
//! items each has been sent.
//!
//! One list holds every counted connection, sorted by its count; a second list holds the first
//! connection of each count, so that a connection whose count changes finds its new place next to
//! the group of its count without walking the others.

use vstd::prelude::*;

use crate::collections::linked_slab::{gap_at, neighbours, LinkedSlab};

verus! {

/// The list of every counted connection, by count.
pub const BY_SENT: usize = 0;

/// The list of the first connection of each count.
pub const FIRSTS: usize = 1;

/// The connection at position `i` of `s` starts the group of its count.
pub open spec fn is_first(s: Seq<usize>, m: Map<usize, usize>, i: int) -> bool {
    i == 0 || m[s[i - 1]] != m[s[i]]
}

/// The counts of `s` never decrease.
pub open spec fn sorted_by(s: Seq<usize>, m: Map<usize, usize>) -> bool {
    forall|i: int, j: int| 0 <= i <= j < s.len() ==> m[s[i]] <= m[s[j]]
}

/// `f` holds, by increasing count, exactly the connections that start a group of `s`.
pub open spec fn firsts_of(f: Seq<usize>, s: Seq<usize>, m: Map<usize, usize>) -> bool {
    &&& forall|i: int, j: int| 0 <= i < j < f.len() ==> m[f[i]] < m[f[j]]
    &&& forall|e: usize|
        f.contains(e) <==> exists|i: int| 0 <= i < s.len() && s[i] == e && is_first(s, m, i)
}

/// The connections that start a group of `s`, in the order of `s`.
pub open spec fn firsts_list(s: Seq<usize>, m: Map<usize, usize>) -> Seq<usize>
    decreases s.len(),
{
    if s.len() == 0 {
        Seq::empty()
    } else {
        let r = firsts_list(s.drop_last(), m);
        if is_first(s, m, s.len() - 1) {
            r.push(s.last())
        } else {
            r
        }
    }
}

proof fn lemma_firsts_list(s: Seq<usize>, m: Map<usize, usize>)
    requires
        sorted_by(s, m),
    ensures
        firsts_of(firsts_list(s, m), s, m),
    decreases s.len(),
{
    if s.len() > 0 {
        let t = s.drop_last();
        let n = s.len() - 1;
        assert(sorted_by(t, m)) by {
            assert forall|i: int, j: int| 0 <= i <= j < t.len() implies m[t[i]] <= m[t[j]] by {
                assert(t[i] == s[i] && t[j] == s[j]);
            }
        }
        lemma_firsts_list(t, m);
        let r = firsts_list(t, m);
        assert forall|i: int| 0 <= i < t.len() implies is_first(t, m, i) == is_first(s, m, i) by {
            assert(t[i] == s[i]);
            if i > 0 {
                assert(t[i - 1] == s[i - 1]);
            }
        }
        if is_first(s, m, n) {
            let r2 = r.push(s.last());
            assert forall|a: int, b: int| 0 <= a < b < r2.len() implies m[r2[a]] < m[r2[b]] by {
                if b == r.len() {
                    assert(r.contains(r[a]));
                    let i = choose|i: int| 0 <= i < t.len() && t[i] == r[a] && is_first(t, m, i);
                    assert(t[i] == s[i]);
                    assert(m[s[i]] <= m[s[n - 1]]);
                    assert(m[s[n - 1]] <= m[s[n]]);
                } else {
                    assert(r2[a] == r[a] && r2[b] == r[b]);
                }
            }
            assert forall|e: usize|
                r2.contains(e) <==> exists|i: int| 0 <= i < s.len() && s[i] == e && is_first(s, m, i) by {
                if r2.contains(e) {
                    let y = choose|y: int| 0 <= y < r2.len() && r2[y] == e;
                    if y < r.len() {
                        assert(r.contains(e));
                        let i = choose|i: int| 0 <= i < t.len() && t[i] == e && is_first(t, m, i);
                        assert(s[i] == e && is_first(s, m, i));
                    } else {
                        assert(s[n] == e);
                    }
                }
                if exists|i: int| 0 <= i < s.len() && s[i] == e && is_first(s, m, i) {
                    let i = choose|i: int| 0 <= i < s.len() && s[i] == e && is_first(s, m, i);
                    if i < n {
                        assert(t[i] == e && is_first(t, m, i));
                        assert(r.contains(e));
                        let y = choose|y: int| 0 <= y < r.len() && r[y] == e;
                        assert(r2[y] == e);
                    } else {
                        assert(r2[r.len() as int] == e);
                    }
                }
            }
        } else {
            assert forall|e: usize|
                r.contains(e) <==> exists|i: int| 0 <= i < s.len() && s[i] == e && is_first(s, m, i) by {
                if r.contains(e) {
                    let i = choose|i: int| 0 <= i < t.len() && t[i] == e && is_first(t, m, i);
                    assert(s[i] == e && is_first(s, m, i));
                }
                if exists|i: int| 0 <= i < s.len() && s[i] == e && is_first(s, m, i) {
                    let i = choose|i: int| 0 <= i < s.len() && s[i] == e && is_first(s, m, i);
                    assert(i < n);
                    assert(t[i] == e && is_first(t, m, i));
                }
            }
        }
    }
}

/// Two lists whose counts strictly increase and that hold the same connections are the same.
proof fn lemma_strict_same(f: Seq<usize>, g: Seq<usize>, m: Map<usize, usize>)
    requires
        forall|i: int, j: int| 0 <= i < j < f.len() ==> m[f[i]] < m[f[j]],
        forall|i: int, j: int| 0 <= i < j < g.len() ==> m[g[i]] < m[g[j]],
        forall|e: usize| f.contains(e) <==> g.contains(e),
    ensures
        f == g,
    decreases f.len(),
{
    if f.len() == 0 {
        if g.len() > 0 {
            assert(g.contains(g[0]));
        }
        assert(f =~= g);
    } else if g.len() == 0 {
        assert(f.contains(f[0]));
    } else {
        let a = f.last();
        let b = g.last();
        assert(f.contains(a));
        assert(g.contains(b));
        let ia = choose|i: int| 0 <= i < g.len() && g[i] == a;
        let ib = choose|i: int| 0 <= i < f.len() && f[i] == b;
        if ia < g.len() - 1 {
            assert(m[g[ia]] < m[g[g.len() - 1]]);
            if ib < f.len() - 1 {
                assert(m[f[ib]] < m[f[f.len() - 1]]);
            }
        }
        if ib < f.len() - 1 {
            assert(m[f[ib]] < m[f[f.len() - 1]]);
        }
        assert(a == b);
        let f2 = f.drop_last();
        let g2 = g.drop_last();
        assert forall|e: usize| f2.contains(e) <==> g2.contains(e) by {
            if f2.contains(e) {
                let y = choose|y: int| 0 <= y < f2.len() && f2[y] == e;
                assert(f[y] == e);
                assert(m[f[y]] < m[f[f.len() - 1]]);
                assert(f.contains(e));
                let z = choose|z: int| 0 <= z < g.len() && g[z] == e;
                assert(z != g.len() - 1);
                assert(g2[z] == e);
            }
            if g2.contains(e) {
                let y = choose|y: int| 0 <= y < g2.len() && g2[y] == e;
                assert(g[y] == e);
                assert(m[g[y]] < m[g[g.len() - 1]]);
                assert(g.contains(e));
                let z = choose|z: int| 0 <= z < f.len() && f[z] == e;
                assert(z != f.len() - 1);
                assert(f2[z] == e);
            }
        }
        lemma_strict_same(f2, g2, m);
        assert(f =~= f2.push(a));
        assert(g =~= g2.push(b));
    }
}

/// A list of firsts of `s` is the one that [`firsts_list`] gives.
proof fn lemma_firsts_exact(f: Seq<usize>, s: Seq<usize>, m: Map<usize, usize>)
    requires
        sorted_by(s, m),
        firsts_of(f, s, m),
    ensures
        f == firsts_list(s, m),
{
    lemma_firsts_list(s, m);
    lemma_strict_same(f, firsts_list(s, m), m);
}

/// `s2` is `s` with `key` put after every connection of count at most `x` and before every
/// connection of a larger count.
pub open spec fn placed_after(
    s: Seq<usize>,
    s2: Seq<usize>,
    m: Map<usize, usize>,
    key: usize,
    x: usize,
) -> bool {
    exists|p: int|
        0 <= p <= s.len() && s2 == s.insert(p, key) && (forall|i: int| 0 <= i < p ==> m[s[i]] <= x)
            && (forall|i: int| p <= i < s.len() ==> x < m[s[i]])
}

/// How many connections of `s` have a count of at most `x`.
spec fn count_at_most(s: Seq<usize>, m: Map<usize, usize>, x: usize) -> int
    decreases s.len(),
{
    if s.len() == 0 {
        0
    } else {
        count_at_most(s.drop_last(), m, x) + if m[s.last()] <= x {
            1int
        } else {
            0
        }
    }
}

proof fn lemma_count_split(s: Seq<usize>, m: Map<usize, usize>, x: usize)
    requires
        sorted_by(s, m),
    ensures
        0 <= count_at_most(s, m, x) <= s.len(),
        forall|i: int| 0 <= i < count_at_most(s, m, x) ==> m[s[i]] <= x,
        forall|i: int| count_at_most(s, m, x) <= i < s.len() ==> x < m[s[i]],
    decreases s.len(),
{
    if s.len() > 0 {
        let t = s.drop_last();
        assert(sorted_by(t, m)) by {
            assert forall|i: int, j: int| 0 <= i <= j < t.len() implies m[t[i]] <= m[t[j]] by {
                assert(t[i] == s[i] && t[j] == s[j]);
            }
        }
        lemma_count_split(t, m, x);
        let c = count_at_most(t, m, x);
        if m[s.last()] <= x {
            assert(c == t.len()) by {
                if c < t.len() {
                    assert(t[c] == s[c]);
                    assert(m[s[c]] <= m[s[s.len() - 1]]);
                }
            }
            assert forall|i: int| 0 <= i < s.len() - 1 implies m[s[i]] <= x by {
                assert(m[s[i]] <= m[s[s.len() - 1]]);
            }
        } else {
            assert forall|i: int| 0 <= i < c implies m[s[i]] <= x by {
                assert(t[i] == s[i]);
            }
            assert forall|i: int| c <= i < s.len() implies x < m[s[i]] by {
                if i < s.len() - 1 {
                    assert(t[i] == s[i]);
                }
            }
        }
    }
}

/// Every connection shares its count with a connection that starts a group.
proof fn lemma_group_start(s: Seq<usize>, m: Map<usize, usize>, i: int)
    requires
        0 <= i < s.len(),
    ensures
        exists|a: int| 0 <= a <= i && is_first(s, m, a) && m[s[a]] == m[s[i]],
    decreases i,
{
    if !is_first(s, m, i) {
        lemma_group_start(s, m, i - 1);
    }
}

/// In a list without repetitions, the connection at position `i` is found at `i`.
proof fn lemma_index_unique(s: Seq<usize>, i: int)
    requires
        s.no_duplicates(),
        0 <= i < s.len(),
    ensures
        (choose|x: int| 0 <= x < s.len() && s[x] == s[i]) == i,
{
    let x = choose|x: int| 0 <= x < s.len() && s[x] == s[i];
    if x != i {
        assert(s[x] != s[i]);
    }
}

proof fn lemma_sorted_insert(s: Seq<usize>, m: Map<usize, usize>, p: int, key: usize, x: usize)
    requires
        sorted_by(s, m),
        0 <= p <= s.len(),
        forall|i: int| 0 <= i < p ==> m[s[i]] <= x,
        forall|i: int| p <= i < s.len() ==> x < m[s[i]],
        m[key] == x,
    ensures
        sorted_by(s.insert(p, key), m),
{
    let s2 = s.insert(p, key);
    assert forall|a: int, b: int| 0 <= a <= b < s2.len() implies m[s2[a]] <= m[s2[b]] by {
        if a < p && b > p {
            assert(m[s[a]] <= x && x < m[s[b - 1]]);
        } else if a == p && b > p {
            assert(x < m[s[b - 1]]);
        } else if a < p && b == p {
            assert(m[s[a]] <= x);
        } else if a > p {
            assert(m[s[a - 1]] <= m[s[b - 1]]);
        } else if b < p {
            assert(m[s[a]] <= m[s[b]]);
        }
    }
}

/// The requirements shared by both ways of counting a connection.
spec fn count_ready(
    s: Seq<usize>,
    f: Seq<usize>,
    m: Map<usize, usize>,
    key: usize,
    x: usize,
    j: int,
    p: int,
) -> bool {
    &&& sorted_by(s, m)
    &&& firsts_of(f, s, m)
    &&& s.no_duplicates()
    &&& f.no_duplicates()
    &&& m[key] == x
    &&& !s.contains(key)
    &&& !f.contains(key)
    &&& 0 <= j <= f.len()
    &&& (j > 0 ==> m[f[j - 1]] < x)
    &&& (j < f.len() ==> x <= m[f[j]])
    &&& 0 <= p <= s.len()
    &&& (forall|i: int| 0 <= i < p ==> m[s[i]] <= x)
    &&& (forall|i: int| p <= i < s.len() ==> x < m[s[i]])
}

/// Where `key` joins the existing group of its count: right after that group, which ends where
/// the next first starts; the firsts stay as they are.
proof fn lemma_join_group(
    s: Seq<usize>,
    f: Seq<usize>,
    m: Map<usize, usize>,
    key: usize,
    x: usize,
    j: int,
    p: int,
)
    requires
        count_ready(s, f, m, key, x, j, p),
        j < f.len(),
        m[f[j]] == x,
    ensures
        0 < p,
        m[s[p - 1]] == x,
        p < s.len() ==> j + 1 < f.len() && f[j + 1] == s[p],
        p == s.len() ==> j + 1 == f.len(),
        sorted_by(s.insert(p, key), m),
        firsts_of(f, s.insert(p, key), m),
{
    let q = f[j];
    assert(f.contains(q));
    let iq = choose|i: int| 0 <= i < s.len() && s[i] == q && is_first(s, m, i);
    assert(iq < p);
    assert(m[s[iq]] <= m[s[p - 1]]);
    if p < s.len() {
        assert(is_first(s, m, p));
        assert(f.contains(s[p]));
        let jp = choose|i: int| 0 <= i < f.len() && f[i] == s[p];
        assert(jp > j) by {
            if jp < j {
                assert(m[f[jp]] < m[f[j]]);
            }
        }
        assert(jp == j + 1) by {
            if jp > j + 1 {
                let h = f[j + 1];
                assert(f.contains(h));
                let ih = choose|i: int| 0 <= i < s.len() && s[i] == h && is_first(s, m, i);
                assert(m[f[j]] < m[h] && m[h] < m[f[jp]]);
                if ih > p {
                    assert(m[s[p]] <= m[s[ih]]);
                }
            }
        }
    } else {
        assert(j + 1 == f.len()) by {
            if j + 1 < f.len() {
                let h = f[j + 1];
                assert(f.contains(h));
                let ih = choose|i: int| 0 <= i < s.len() && s[i] == h && is_first(s, m, i);
                assert(m[f[j]] < m[h]);
            }
        }
    }
    lemma_sorted_insert(s, m, p, key, x);
    let s2 = s.insert(p, key);
    assert forall|i: int| 0 <= i < s2.len() implies is_first(s2, m, i) == (if i < p {
        is_first(s, m, i)
    } else if i == p {
        false
    } else {
        is_first(s, m, i - 1)
    }) by {}
    assert forall|e: usize| f.contains(e) <==> exists|i: int|
        0 <= i < s2.len() && s2[i] == e && is_first(s2, m, i) by {
        if f.contains(e) {
            let i = choose|i: int| 0 <= i < s.len() && s[i] == e && is_first(s, m, i);
            if i < p {
                assert(s2[i] == e && is_first(s2, m, i));
            } else {
                assert(s2[i + 1] == e && is_first(s2, m, i + 1));
            }
        }
        if exists|i: int| 0 <= i < s2.len() && s2[i] == e && is_first(s2, m, i) {
            let i = choose|i: int| 0 <= i < s2.len() && s2[i] == e && is_first(s2, m, i);
            if i < p {
                assert(s[i] == e && is_first(s, m, i));
            } else {
                assert(s[i - 1] == e && is_first(s, m, i - 1));
            }
        }
    }
}

/// Where `key` starts a new group: no connection has its count yet, the next first starts the
/// next group, and `key` becomes a first in between.
proof fn lemma_new_group(
    s: Seq<usize>,
    f: Seq<usize>,
    m: Map<usize, usize>,
    key: usize,
    x: usize,
    j: int,
    p: int,
)
    requires
        count_ready(s, f, m, key, x, j, p),
        j < f.len() ==> m[f[j]] != x,
    ensures
        p < s.len() ==> j < f.len() && f[j] == s[p],
        p == s.len() ==> j == f.len(),
        sorted_by(s.insert(p, key), m),
        firsts_of(f.insert(j, key), s.insert(p, key), m),
{
    assert forall|i: int| 0 <= i < s.len() implies m[s[i]] != x by {
        lemma_group_start(s, m, i);
        let a = choose|a: int| 0 <= a <= i && is_first(s, m, a) && m[s[a]] == m[s[i]];
        if m[s[i]] == x {
            assert(f.contains(s[a]));
            let ja = choose|y: int| 0 <= y < f.len() && f[y] == s[a];
            if ja < j - 1 {
                assert(m[f[ja]] < m[f[j - 1]]);
            } else if ja > j {
                assert(m[f[j]] < m[f[ja]]);
            }
        }
    }
    if p < s.len() {
        assert(is_first(s, m, p)) by {
            if p > 0 {
                assert(m[s[p - 1]] <= x);
            }
        }
        assert(f.contains(s[p]));
        let jp = choose|y: int| 0 <= y < f.len() && f[y] == s[p];
        assert(jp >= j) by {
            if jp < j - 1 {
                assert(m[f[jp]] < m[f[j - 1]]);
            }
        }
        assert(jp == j) by {
            if jp > j {
                let h = f[j];
                assert(f.contains(h));
                let ih = choose|i: int| 0 <= i < s.len() && s[i] == h && is_first(s, m, i);
                assert(m[h] < m[f[jp]]);
                if ih > p {
                    assert(m[s[p]] <= m[s[ih]]);
                }
            }
        }
    } else {
        assert(j == f.len()) by {
            if j < f.len() {
                let h = f[j];
                assert(f.contains(h));
                let ih = choose|i: int| 0 <= i < s.len() && s[i] == h && is_first(s, m, i);
            }
        }
    }
    lemma_sorted_insert(s, m, p, key, x);
    let s2 = s.insert(p, key);
    let f2 = f.insert(j, key);
    assert forall|i: int| 0 <= i < s2.len() implies is_first(s2, m, i) == (if i < p {
        is_first(s, m, i)
    } else if i == p {
        true
    } else {
        is_first(s, m, i - 1)
    }) by {
        if i == p + 1 {
            if p > 0 {
                assert(m[s[p - 1]] <= x);
            }
        }
    }
    assert forall|a: int, b: int| 0 <= a < b < f2.len() implies m[f2[a]] < m[f2[b]] by {
        if a < j && b > j {
            if a < j - 1 {
                assert(m[f[a]] < m[f[j - 1]]);
            }
            if b - 1 > j {
                assert(m[f[j]] < m[f[b - 1]]);
            }
        } else if a == j && b > j {
            if b - 1 > j {
                assert(m[f[j]] < m[f[b - 1]]);
            }
        } else if a < j && b == j {
            if a < j - 1 {
                assert(m[f[a]] < m[f[j - 1]]);
            }
        } else if a > j {
            assert(m[f[a - 1]] < m[f[b - 1]]);
        } else {
            assert(m[f[a]] < m[f[b]]);
        }
    }
    assert forall|e: usize| f2.contains(e) <==> exists|i: int|
        0 <= i < s2.len() && s2[i] == e && is_first(s2, m, i) by {
        if f2.contains(e) {
            let y = choose|y: int| 0 <= y < f2.len() && f2[y] == e;
            if y == j {
                assert(s2[p] == e && is_first(s2, m, p));
            } else {
                let y2 = if y < j { y } else { y - 1 };
                assert(f[y2] == e);
                assert(f.contains(e));
                let i = choose|i: int| 0 <= i < s.len() && s[i] == e && is_first(s, m, i);
                if i < p {
                    assert(s2[i] == e && is_first(s2, m, i));
                } else {
                    assert(s2[i + 1] == e && is_first(s2, m, i + 1));
                }
            }
        }
        if exists|i: int| 0 <= i < s2.len() && s2[i] == e && is_first(s2, m, i) {
            let i = choose|i: int| 0 <= i < s2.len() && s2[i] == e && is_first(s2, m, i);
            if i == p {
                assert(f2[j] == key);
            } else {
                let i2 = if i < p { i } else { i - 1 };
                assert(s[i2] == e && is_first(s, m, i2));
                assert(f.contains(e));
                let y = choose|y: int| 0 <= y < f.len() && f[y] == e;
                if y < j {
                    assert(f2[y] == e);
                } else {
                    assert(f2[y + 1] == e);
                }
            }
        }
    }
}

/// The firsts once the connection at position `i` of `s` leaves the order: where it started its
/// group, the next connection of the same count takes its place, or else the group is gone.
spec fn uncounted_firsts(s: Seq<usize>, f: Seq<usize>, m: Map<usize, usize>, i: int, jf: int) -> Seq<
    usize,
> {
    if !is_first(s, m, i) {
        f
    } else if i + 1 < s.len() && m[s[i + 1]] == m[s[i]] {
        f.update(jf, s[i + 1])
    } else {
        f.remove(jf)
    }
}

proof fn lemma_uncount(s: Seq<usize>, f: Seq<usize>, m: Map<usize, usize>, i: int, jf: int)
    requires
        sorted_by(s, m),
        firsts_of(f, s, m),
        s.no_duplicates(),
        f.no_duplicates(),
        0 <= i < s.len(),
        is_first(s, m, i) ==> 0 <= jf < f.len() && f[jf] == s[i],
    ensures
        sorted_by(s.remove(i), m),
        firsts_of(uncounted_firsts(s, f, m, i, jf), s.remove(i), m),
        !s.remove(i).contains(s[i]),
        !uncounted_firsts(s, f, m, i, jf).contains(s[i]),
{
    let s2 = s.remove(i);
    let f2 = uncounted_firsts(s, f, m, i, jf);
    assert forall|a: int, b: int| 0 <= a <= b < s2.len() implies m[s2[a]] <= m[s2[b]] by {
        let a1 = if a < i { a } else { a + 1 };
        let b1 = if b < i { b } else { b + 1 };
        assert(s2[a] == s[a1] && s2[b] == s[b1]);
    }
    assert forall|a: int, b: int| 0 <= a < b < f2.len() implies m[f2[a]] < m[f2[b]] by {
        if is_first(s, m, i) && i + 1 < s.len() && m[s[i + 1]] == m[s[i]] {
            assert(m[f2[a]] == m[f[a]] && m[f2[b]] == m[f[b]]);
        } else if is_first(s, m, i) {
            assert(f2[a] == f[if a < jf { a } else { a + 1 }]);
            assert(f2[b] == f[if b < jf { b } else { b + 1 }]);
        }
    }
    assert forall|k: int| 0 <= k < i implies is_first(s2, m, k) == is_first(s, m, k) by {
        if k > 0 {
            assert(s2[k - 1] == s[k - 1]);
        }
    }
    assert forall|k: int| i < k < s2.len() implies is_first(s2, m, k) == is_first(s, m, k + 1) by {
        assert(s2[k] == s[k + 1]);
        if k - 1 >= i {
            assert(s2[k - 1] == s[k]);
        } else {
            assert(s2[k - 1] == s[k - 1]);
        }
    }
    assert(!s2.contains(s[i])) by {
        if s2.contains(s[i]) {
            let k = choose|k: int| 0 <= k < s2.len() && s2[k] == s[i];
            if k < i {
                assert(s[k] == s[i]);
            } else {
                assert(s[k + 1] == s[i]);
            }
        }
    }
    // Which connections of `f2` came from `f`.
    assert forall|e: usize| f2.contains(e) implies (f.contains(e) && e != s[i]) || (is_first(s, m, i)
        && i + 1 < s.len() && m[s[i + 1]] == m[s[i]] && e == s[i + 1]) by {
        let y = choose|y: int| 0 <= y < f2.len() && f2[y] == e;
        if !is_first(s, m, i) {
            if e == s[i] {
                let k = choose|k: int| 0 <= k < s.len() && s[k] == e && is_first(s, m, k);
                assert(k == i);
            }
        } else if i + 1 < s.len() && m[s[i + 1]] == m[s[i]] {
            if y != jf {
                assert(f[y] == e);
                assert(f[y] != f[jf]);
            }
        } else {
            let y1 = if y < jf { y } else { y + 1 };
            assert(f[y1] == e);
            assert(f[y1] != f[jf]);
        }
    }
    assert forall|e: usize| f.contains(e) && e != s[i] implies f2.contains(e) by {
        let y = choose|y: int| 0 <= y < f.len() && f[y] == e;
        if is_first(s, m, i) {
            assert(y != jf);
            if i + 1 < s.len() && m[s[i + 1]] == m[s[i]] {
                assert(f2[y] == e);
            } else {
                assert(f2[if y < jf { y } else { y - 1 }] == e);
            }
        }
    }
    assert forall|e: usize| f2.contains(e) <==> exists|k: int|
        0 <= k < s2.len() && s2[k] == e && is_first(s2, m, k) by {
        if f2.contains(e) {
            if f.contains(e) && e != s[i] {
                let k = choose|k: int| 0 <= k < s.len() && s[k] == e && is_first(s, m, k);
                if k < i {
                    assert(s2[k] == e && is_first(s2, m, k));
                } else if k > i + 1 {
                    assert(s2[k - 1] == e && is_first(s2, m, k - 1));
                } else {
                    assert(k == i + 1);
                    assert(s2[i] == e);
                    if i > 0 {
                        assert(m[s[i - 1]] <= m[s[i]]);
                        assert(m[s[i]] <= m[s[i + 1]]);
                    }
                    assert(is_first(s2, m, i));
                }
            } else {
                assert(s2[i] == e);
                if i > 0 {
                    assert(s2[i - 1] == s[i - 1]);
                }
                assert(is_first(s2, m, i));
            }
        }
        if exists|k: int| 0 <= k < s2.len() && s2[k] == e && is_first(s2, m, k) {
            let k = choose|k: int| 0 <= k < s2.len() && s2[k] == e && is_first(s2, m, k);
            if k < i {
                assert(s[k] == e && is_first(s, m, k));
                assert(e != s[i]);
            } else if k > i {
                assert(s[k + 1] == e && is_first(s, m, k + 1));
                assert(e != s[i]);
            } else {
                assert(s[i + 1] == e);
                assert(e != s[i]);
                if m[s[i]] != m[s[i + 1]] {
                    assert(is_first(s, m, i + 1));
                } else {
                    if i > 0 {
                        assert(s2[i - 1] == s[i - 1]);
                    }
                    assert(is_first(s, m, i));
                    assert(f2[jf] == e);
                }
            }
        }
    }
    assert(!f2.contains(s[i]));
}

/// In a list without repetitions, the two ends of a gap are each other's neighbours.
proof fn lemma_gap_neighbours(f: Seq<usize>, j: int)
    requires
        f.no_duplicates(),
        0 <= j <= f.len(),
    ensures
        neighbours(f, gap_at(f, j).0).1 == gap_at(f, j).1,
        neighbours(f, gap_at(f, j).1).0 == gap_at(f, j).0,
{
    if j > 0 {
        lemma_index_unique(f, j - 1);
    }
    if j < f.len() {
        lemma_index_unique(f, j);
    }
}

/// Connections with their counts, ordered by count.
pub struct SentOrder {
    slab: LinkedSlab<usize, 2>,
}

impl SentOrder {
    /// The count of each connection.
    pub closed spec fn sent(&self) -> Map<usize, usize> {
        self.slab.values()
    }

    /// The counted connections, by count; within a count, in the order they were counted.
    pub closed spec fn by_sent(&self) -> Seq<usize> {
        self.slab.list(BY_SENT as int)
    }

    /// The first connection of each count, by count.
    pub closed spec fn firsts(&self) -> Seq<usize> {
        self.slab.list(FIRSTS as int)
    }

    /// The counted connections are sorted by count and the firsts list starts each group.
    pub closed spec fn wf(&self) -> bool {
        &&& self.slab.wf()
        &&& sorted_by(self.by_sent(), self.sent())
        &&& firsts_of(self.firsts(), self.by_sent(), self.sent())
    }

    proof fn lemma_lists(&self)
        requires
            self.slab.wf(),
        ensures
            self.by_sent().no_duplicates(),
            self.firsts().no_duplicates(),
            forall|j: int|
                0 <= j < self.by_sent().len() ==> self.sent().contains_key(#[trigger] self.by_sent()[j]),
            forall|j: int|
                0 <= j < self.firsts().len() ==> self.sent().contains_key(#[trigger] self.firsts()[j]),
    {
        self.slab.lemma_lists_hold_stored_keys(BY_SENT as int);
        self.slab.lemma_lists_hold_stored_keys(FIRSTS as int);
    }

    /// No connections.
    pub fn new() -> (o: Self)
        ensures
            o.wf(),
            o.sent() == Map::<usize, usize>::empty(),
            o.by_sent() == Seq::<usize>::empty(),
            o.firsts() == Seq::<usize>::empty(),
    {
        SentOrder { slab: LinkedSlab::new() }
    }

    /// Adds a connection with count `sent`, not counted in the order yet, and returns its key.
    pub fn insert(&mut self, sent: usize) -> (key: usize)
        requires
            old(self).wf(),
            old(self).sent().len() + 1 < usize::MAX,
        ensures
            final(self).wf(),
            !old(self).sent().contains_key(key),
            final(self).sent() == old(self).sent().insert(key, sent),
            final(self).by_sent() == old(self).by_sent(),
            final(self).firsts() == old(self).firsts(),
    {
        proof {
            old(self).lemma_lists();
        }
        let key = self.slab.insert(sent);
        proof {
            let m0 = old(self).sent();
            let m1 = self.sent();
            let s = self.by_sent();
            let f = self.firsts();
            assert forall|j: int| 0 <= j < s.len() implies m1[s[j]] == m0[s[j]] by {
                assert(m0.contains_key(s[j]));
            }
            assert forall|j: int| 0 <= j < f.len() implies m1[f[j]] == m0[f[j]] by {
                assert(m0.contains_key(f[j]));
            }
            assert forall|i: int| 0 <= i < s.len() implies is_first(s, m1, i) == is_first(s, m0, i) by {
                if i > 0 {
                    assert(m1[s[i - 1]] == m0[s[i - 1]]);
                }
            }
        }
        key
    }

    /// The count of `key`, if it is a connection.
    pub fn sent_of(&self, key: usize) -> (r: Option<usize>)
        requires
            self.wf(),
        ensures
            r is Some <==> self.sent().contains_key(key),
            r is Some ==> r->Some_0 == self.sent()[key],
    {
        match self.slab.get(key) {
            Some(s) => Some(*s),
            None => None,
        }
    }

    /// The first connection of each count is the one [`firsts_list`] picks out of the order.
    pub proof fn lemma_firsts(&self)
        requires
            self.wf(),
        ensures
            self.firsts() == firsts_list(self.by_sent(), self.sent()),
    {
        lemma_firsts_exact(self.firsts(), self.by_sent(), self.sent());
    }

    /// Counts `key`, whose count is `sent`, putting it after every connection of count at most
    /// `sent`. `prev` and `next` are neighbours in the firsts list: `prev` a first of a smaller
    /// count, `next` one of a count at least `sent` (`None` past either end).
    pub fn count(&mut self, prev: Option<usize>, next: Option<usize>, key: usize, sent: usize)
        requires
            old(self).wf(),
            old(self).sent().contains_key(key),
            old(self).sent()[key] == sent,
            !old(self).by_sent().contains(key),
            prev matches Some(a) ==> old(self).firsts().contains(a) && old(self).sent()[a] < sent,
            next matches Some(b) ==> old(self).firsts().contains(b) && sent <= old(self).sent()[b],
            neighbours(old(self).firsts(), prev).1 == next,
            neighbours(old(self).firsts(), next).0 == prev,
        ensures
            final(self).wf(),
            final(self).sent() == old(self).sent(),
            placed_after(old(self).by_sent(), final(self).by_sent(), old(self).sent(), key, sent),
            final(self).firsts() == firsts_list(final(self).by_sent(), final(self).sent()),
    {
        let ghost m = self.sent();
        let ghost s = self.by_sent();
        let ghost f = self.firsts();
        proof {
            self.lemma_lists();
            lemma_count_split(s, m, sent);
            if f.contains(key) {
                let y = choose|y: int| 0 <= y < f.len() && f[y] == key;
                assert(f.contains(f[y]));
            }
        }
        let ghost p = count_at_most(s, m, sent);
        let ghost j: int = match prev {
            Some(a) => (choose|i: int| 0 <= i < f.len() && f[i] == a) + 1,
            None => 0,
        };
        proof {
            if let Some(a) = prev {
                let ia = choose|i: int| 0 <= i < f.len() && f[i] == a;
                assert(f[ia] == a);
            }
            assert(gap_at(f, j) == (prev, next));
        }
        let same = match next {
            Some(q) => {
                proof {
                    assert(f[j] == q);
                    assert(f.contains(q));
                }
                let qs = self.slab.get(q).unwrap();
                *qs == sent
            },
            None => false,
        };
        if same {
            proof {
                lemma_join_group(s, f, m, key, sent, j, p);
                lemma_index_unique(f, j);
            }
            let (_, long_next) = self.slab.link_of::<FIRSTS>(next);
            proof {
                if p < s.len() {
                    lemma_index_unique(s, p);
                }
            }
            let (short_prev, _) = self.slab.link_of::<BY_SENT>(long_next);
            proof {
                assert(gap_at(s, p) == (short_prev, long_next));
            }
            self.slab.link_insert::<BY_SENT>(short_prev, key, long_next);
            proof {
                assert(self.sent() == m);
                assert(self.firsts() == f);
            }
        } else {
            proof {
                lemma_new_group(s, f, m, key, sent, j, p);
                if p < s.len() {
                    lemma_index_unique(s, p);
                }
            }
            self.slab.link_insert::<FIRSTS>(prev, key, next);
            let (short_prev, _) = self.slab.link_of::<BY_SENT>(next);
            proof {
                assert(gap_at(s, p) == (short_prev, next));
            }
            self.slab.link_insert::<BY_SENT>(short_prev, key, next);
            proof {
                assert(self.sent() == m);
            }
        }
        proof {
            self.lemma_firsts();
        }
    }

    /// Takes the counted `key` out of the order. `first` is the first connection of its count
    /// (`key` itself where it starts its group). Returns the neighbours in the firsts list
    /// between which `key` goes back once its count grows: a first of a count at most the old
    /// one, and the first of a larger count (`None` past either end).
    pub fn uncount(&mut self, key: usize, first: usize) -> (r: (Option<usize>, Option<usize>))
        requires
            old(self).wf(),
            old(self).by_sent().contains(key),
            old(self).firsts().contains(first),
            old(self).sent()[first] == old(self).sent()[key],
        ensures
            final(self).wf(),
            final(self).sent() == old(self).sent(),
            forall|i: int|
                0 <= i < old(self).by_sent().len() && #[trigger] old(self).by_sent()[i] == key
                    ==> final(self).by_sent() == old(self).by_sent().remove(i),
            !final(self).by_sent().contains(key),
            !final(self).firsts().contains(key),
            final(self).firsts() == firsts_list(final(self).by_sent(), final(self).sent()),
            r.0 matches Some(a) ==> final(self).firsts().contains(a) && final(self).sent()[a]
                <= old(self).sent()[key],
            r.1 matches Some(b) ==> final(self).firsts().contains(b) && old(self).sent()[key]
                < final(self).sent()[b],
            neighbours(final(self).firsts(), r.0).1 == r.1,
            neighbours(final(self).firsts(), r.1).0 == r.0,
    {
        let ghost m = self.sent();
        let ghost s = self.by_sent();
        let ghost f = self.firsts();
        proof {
            self.lemma_lists();
        }
        let ghost i = choose|i: int| 0 <= i < s.len() && s[i] == key;
        let ghost jq = choose|y: int| 0 <= y < f.len() && f[y] == first;
        let ghost iq = choose|k: int| 0 <= k < s.len() && s[k] == first && is_first(s, m, k);
        proof {
            assert(s[i] == key);
            assert(f[jq] == first);
            assert(f.contains(f[jq]));
            lemma_index_unique(s, i);
            lemma_index_unique(f, jq);
            if is_first(s, m, i) {
                assert(f.contains(key));
                let y = choose|y: int| 0 <= y < f.len() && f[y] == key;
                if y != jq {
                    assert(f[y] != f[jq]);
                    if y < jq {
                        assert(m[f[y]] < m[f[jq]]);
                    } else {
                        assert(m[f[jq]] < m[f[y]]);
                    }
                }
            }
            if key == first {
                assert(iq == i);
            } else {
                assert(!is_first(s, m, i)) by {
                    if is_first(s, m, i) {
                        assert(f[jq] == key);
                    }
                }
            }
            lemma_uncount(s, f, m, i, jq);
            assert(forall|y: int| 0 <= y < s.len() ==> m.contains_key(s[y]));
        }
        let ghost f2 = uncounted_firsts(s, f, m, i, jq);
        let x = *self.slab.get(key).unwrap();
        if key == first {
            let (long_prev, long_next) = self.slab.link_of::<FIRSTS>(Some(key));
            self.slab.link_pop_at::<FIRSTS>(key);
            let (_, short_next) = self.slab.link_of::<BY_SENT>(Some(key));
            self.slab.link_pop_at::<BY_SENT>(key);
            proof {
                assert(self.by_sent() == s.remove(i));
                assert(self.firsts() == f.remove(jq));
            }
            if let Some(sn) = short_next {
                proof {
                    assert(sn == s[i + 1]);
                    assert(m.contains_key(s[i + 1]));
                }
                if *self.slab.get(sn).unwrap() == x {
                    proof {
                        let f1 = f.remove(jq);
                        assert(gap_at(f1, jq) == (long_prev, long_next));
                        assert(!f1.contains(sn)) by {
                            if f1.contains(sn) {
                                let y = choose|y: int| 0 <= y < f1.len() && f1[y] == sn;
                                let y1 = if y < jq { y } else { y + 1 };
                                assert(f[y1] == sn);
                                assert(f.contains(sn));
                                let k = choose|k: int|
                                    0 <= k < s.len() && s[k] == sn && is_first(s, m, k);
                                lemma_index_unique(s, i + 1);
                                assert(k == i + 1);
                            }
                        }
                    }
                    self.slab.link_insert::<FIRSTS>(long_prev, sn, long_next);
                    proof {
                        assert(self.firsts() == f.remove(jq).insert(jq, sn));
                        assert(self.firsts() =~= f2);
                        assert(gap_at(f2, jq + 1) == (Some(sn), long_next));
                        lemma_gap_neighbours(f2, jq + 1);
                        assert(self.sent() == m);
                        self.lemma_firsts();
                        if let Some(b) = long_next {
                            assert(m[f[jq]] < m[f[jq + 1]]);
                        }
                    }
                    return (Some(sn), long_next);
                }
            }
            proof {
                assert(self.firsts() =~= f2);
                assert(gap_at(f2, jq) == (long_prev, long_next));
                lemma_gap_neighbours(f2, jq);
                assert(self.sent() == m);
                self.lemma_firsts();
                if let Some(a) = long_prev {
                    assert(m[f[jq - 1]] < m[f[jq]]);
                }
                if let Some(b) = long_next {
                    assert(m[f[jq]] < m[f[jq + 1]]);
                }
            }
            (long_prev, long_next)
        } else {
            let (_, long_next) = self.slab.link_of::<FIRSTS>(Some(first));
            self.slab.link_pop_at::<BY_SENT>(key);
            proof {
                assert(self.by_sent() == s.remove(i));
                assert(self.firsts() == f);
                assert(f2 == f);
                assert(gap_at(f, jq + 1) == (Some(first), long_next));
                lemma_gap_neighbours(f, jq + 1);
                assert(self.sent() == m);
                self.lemma_firsts();
                if let Some(b) = long_next {
                    assert(m[f[jq]] < m[f[jq + 1]]);
                }
            }
            (Some(first), long_next)
        }
    }

    /// One more item has been sent to the counted `key`, whose group starts at `first`: its
    /// count grows by one and it moves behind every connection of the new count.
    pub fn increment_sent(&mut self, key: usize, first: usize)
        requires
            old(self).wf(),
            old(self).by_sent().contains(key),
            old(self).firsts().contains(first),
            old(self).sent()[first] == old(self).sent()[key],
            old(self).sent()[key] < usize::MAX,
        ensures
            final(self).wf(),
            final(self).sent() == old(self).sent().insert(key, (old(self).sent()[key] + 1) as usize),
            forall|i: int|
                0 <= i < old(self).by_sent().len() && #[trigger] old(self).by_sent()[i] == key
                    ==> placed_after(
                    old(self).by_sent().remove(i),
                    final(self).by_sent(),
                    final(self).sent(),
                    key,
                    (old(self).sent()[key] + 1) as usize,
                ),
            final(self).firsts() == firsts_list(final(self).by_sent(), final(self).sent()),
    {
        let ghost s0 = self.by_sent();
        let ghost m0 = self.sent();
        proof {
            self.lemma_lists();
            let i = choose|i: int| 0 <= i < s0.len() && s0[i] == key;
            assert(m0.contains_key(s0[i]));
        }
        let (prev, next) = self.uncount(key, first);
        let x = *self.slab.get(key).unwrap();
        let ghost mid: Self = *self;
        let ghost m = m0.insert(key, (x + 1) as usize);
        match self.slab.get_mut(key) {
            Some(v) => {
                *v = x + 1;
            },
            None => {},
        }
        proof {
            let s = mid.by_sent();
            let f = mid.firsts();
            mid.lemma_lists();
            assert(self.sent() == m);
            assert(self.by_sent() == s && self.firsts() == f);
            assert forall|y: int| 0 <= y < s.len() implies m[s[y]] == m0[s[y]] by {
                assert(s[y] != key);
            }
            assert forall|y: int| 0 <= y < f.len() implies m[f[y]] == m0[f[y]] by {
                assert(f[y] != key);
            }
            assert forall|y: int| 0 <= y < s.len() implies is_first(s, m, y) == is_first(s, m0, y) by {
                if y > 0 {
                    assert(m[s[y - 1]] == m0[s[y - 1]]);
                }
            }
            assert(self.wf());
            if let Some(a) = prev {
                assert(f.contains(a));
                let y = choose|y: int| 0 <= y < f.len() && f[y] == a;
                assert(m[f[y]] == m0[f[y]]);
            }
            if let Some(b) = next {
                assert(f.contains(b));
                let y = choose|y: int| 0 <= y < f.len() && f[y] == b;
                assert(m[f[y]] == m0[f[y]]);
            }
        }
        self.count(prev, next, key, x + 1);
        proof {
            assert forall|i: int|
                0 <= i < s0.len() && #[trigger] s0[i] == key implies placed_after(
                s0.remove(i),
                self.by_sent(),
                self.sent(),
                key,
                (x + 1) as usize,
            ) by {
                assert(mid.by_sent() == s0.remove(i));
            }
        }
    }

    /// The first connection of count `sent`, if any connection has that count: the entry a
    /// buffered item keeps for the connections that have been sent everything before it.
    pub fn first_of(&self, sent: usize) -> (r: Option<usize>)
        requires
            self.wf(),
        ensures
            r matches Some(k) ==> self.firsts().contains(k) && self.sent()[k] == sent,
            r is None ==> forall|j: int|
                0 <= j < self.firsts().len() ==> self.sent()[#[trigger] self.firsts()[j]] != sent,
    {
        let ghost f = self.firsts();
        let ghost m = self.sent();
        proof {
            self.lemma_lists();
        }
        let mut key = self.slab.front::<FIRSTS>();
        let ghost mut idx: int = 0;
        while key.is_some()
            invariant
                self.wf(),
                f == self.firsts(),
                m == self.sent(),
                f.no_duplicates(),
                forall|j: int| 0 <= j < f.len() ==> m.contains_key(#[trigger] f[j]),
                0 <= idx <= f.len(),
                forall|j: int| 0 <= j < idx ==> m[#[trigger] f[j]] < sent,
                key == (if idx < f.len() {
                    Some(f[idx])
                } else {
                    None::<usize>
                }),
            decreases f.len() - idx,
        {
            let k = key.unwrap();
            proof {
                assert(m.contains_key(f[idx]));
            }
            let c = *self.slab.get(k).unwrap();
            if c == sent {
                proof {
                    assert(f.contains(f[idx]));
                }
                return Some(k);
            }
            if c > sent {
                proof {
                    assert forall|j: int| 0 <= j < f.len() implies m[#[trigger] f[j]] != sent by {
                        if j > idx {
                            assert(m[f[idx]] < m[f[j]]);
                        }
                    }
                }
                return None;
            }
            proof {
                lemma_index_unique(f, idx);
                assert(f.contains(k));
            }
            let (_, n) = self.slab.link_of::<FIRSTS>(key);
            key = n;
            proof {
                idx = idx + 1;
            }
        }
        None
    }

    /// The counted connections from `start` to the end of the order: from the first one that
    /// has been sent every buffered item, those that a new item finds up to date.
    pub fn walk_from(&self, start: Option<usize>) -> (r: Vec<usize>)
        requires
            self.wf(),
            start matches Some(k) ==> self.by_sent().contains(k),
        ensures
            start is None ==> r@ == Seq::<usize>::empty(),
            start matches Some(k) ==> exists|i: int|
                0 <= i < self.by_sent().len() && self.by_sent()[i] == k && r@
                    == self.by_sent().skip(i),
    {
        let ghost s = self.by_sent();
        proof {
            self.lemma_lists();
        }
        let mut r: Vec<usize> = Vec::new();
        let ghost i0: int = match start {
            Some(k) => choose|i: int| 0 <= i < s.len() && s[i] == k,
            None => s.len() as int,
        };
        let ghost mut idx: int = i0;
        let mut key = start;
        while key.is_some()
            invariant
                self.wf(),
                s == self.by_sent(),
                s.no_duplicates(),
                0 <= i0 <= idx <= s.len(),
                start matches Some(k) ==> i0 < s.len() && s[i0] == k,
                start is None ==> i0 == s.len(),
                r@ == s.subrange(i0, idx),
                key == (if idx < s.len() {
                    Some(s[idx])
                } else {
                    None::<usize>
                }),
            decreases s.len() - idx,
        {
            let k = key.unwrap();
            r.push(k);
            proof {
                lemma_index_unique(s, idx);
                assert(s.contains(k));
            }
            let (_, n) = self.slab.link_of::<BY_SENT>(key);
            key = n;
            proof {
                idx = idx + 1;
                assert(r@ =~= s.subrange(i0, idx));
            }
        }
        proof {
            assert(r@ =~= s.skip(i0));
        }
        r
    }
}

} // verus!
