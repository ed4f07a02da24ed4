//! Merges any number of key-sorted streams into one key-sorted stream.
//!
//! Every stream is polled for one item at a time. A stream whose next item is known waits with
//! that item; once no stream is being polled, the waiting items of the least key move to the
//! floor, and the floor is yielded item by item, each yield putting its stream back to be polled.
//! The merged stream ends once nothing waits and the floor is empty.

use vstd::multiset::Multiset;
use vstd::prelude::*;

use super::key::{sorted, KeyOrder, SortKey};

verus! {

/// The entries of `es` whose key has rank `m`, and the others, each in reverse order.
pub open spec fn split_rank<K: SortKey, V, S>(es: Seq<(K, V, S)>, m: int) -> (
    Seq<(K, V, S)>,
    Seq<(K, V, S)>,
)
    decreases es.len(),
{
    if es.len() == 0 {
        (Seq::empty(), Seq::empty())
    } else {
        let (f, w) = split_rank(es.drop_last(), m);
        if es.last().0.rank() == m {
            (seq![es.last()] + f, w)
        } else {
            (f, seq![es.last()] + w)
        }
    }
}

/// `m` is the least rank of the keys of `es`.
pub open spec fn is_least<K: SortKey, V, S>(es: Seq<(K, V, S)>, m: int) -> bool {
    &&& exists|i: int| 0 <= i < es.len() && #[trigger] es[i].0.rank() == m
    &&& forall|i: int| 0 <= i < es.len() ==> m <= #[trigger] es[i].0.rank()
}

/// The least rank of the keys of a non-empty `es`.
pub open spec fn least_rank<K: SortKey, V, S>(es: Seq<(K, V, S)>) -> int {
    choose|m: int| is_least(es, m)
}

/// Streams whose next item is known, waiting to be yielded in key order.
pub struct FlattenSorted<S, K, V> {
    waiting: Vec<(K, V, S)>,
    floor: Vec<(K, V, S)>,
}

impl<S, K: SortKey, V> FlattenSorted<S, K, V> {
    /// The entries that wait for the floor to empty.
    pub closed spec fn waiting(&self) -> Seq<(K, V, S)> {
        self.waiting@
    }

    /// The entries of the least key, yielded from the back.
    pub closed spec fn floor(&self) -> Seq<(K, V, S)> {
        self.floor@
    }

    /// Nothing waits and the floor is empty.
    pub fn new() -> (f: Self)
        ensures
            f.waiting() == Seq::<(K, V, S)>::empty(),
            f.floor() == Seq::<(K, V, S)>::empty(),
    {
        FlattenSorted { waiting: Vec::new(), floor: Vec::new() }
    }

    /// Takes the last entry of the floor, to be yielded while its stream is polled again.
    pub fn pop_floor(&mut self) -> (e: Option<(K, V, S)>)
        ensures
            old(self).floor().len() == 0 ==> e is None && final(self).floor() == old(self).floor(),
            old(self).floor().len() > 0 ==> e == Some(old(self).floor().last())
                && final(self).floor() == old(self).floor().drop_last(),
            final(self).waiting() == old(self).waiting(),
    {
        self.floor.pop()
    }

    /// A polled stream gave its next item `(k, v)`: it waits with it.
    pub fn push_waiting(&mut self, k: K, v: V, s: S)
        ensures
            final(self).waiting() == old(self).waiting().push((k, v, s)),
            final(self).floor() == old(self).floor(),
    {
        self.waiting.push((k, v, s));
    }

    /// Whether any stream waits.
    pub fn has_waiting(&self) -> (r: bool)
        ensures
            r == (self.waiting().len() > 0),
    {
        self.waiting.len() > 0
    }

    /// An error from a stream is handed on and drops everything that waits.
    pub fn on_error(&mut self)
        ensures
            final(self).waiting() == Seq::<(K, V, S)>::empty(),
            final(self).floor() == Seq::<(K, V, S)>::empty(),
    {
        self.waiting.clear();
        self.floor.clear();
    }

    /// Once no stream is being polled: moves the waiting entries of the least key to the floor.
    /// Says whether the merged stream ended, which is when nothing waited.
    pub fn fill_floor(&mut self) -> (ended: bool)
        requires
            old(self).floor().len() == 0,
        ensures
            ended == (old(self).waiting().len() == 0),
            !ended ==> (final(self).floor(), final(self).waiting()) == split_rank(
                old(self).waiting(),
                least_rank(old(self).waiting()),
            ),
            ended ==> final(self).floor().len() == 0 && final(self).waiting().len() == 0,
    {
        let n = self.waiting.len();
        if n == 0 {
            return true;
        }
        let mut least: usize = 0;
        let mut i: usize = 1;
        while i < n
            invariant
                n == self.waiting.len(),
                least < i <= n,
                forall|j: int| 0 <= j < i ==> self.waiting@[least as int].0.rank() <= #[trigger] self.waiting@[j].0.rank(),
            decreases n - i,
        {
            if self.waiting[i].0.compare(&self.waiting[least].0) == KeyOrder::Less {
                least = i;
            }
            i = i + 1;
        }
        let ghost es = self.waiting@;
        let ghost m = es[least as int].0.rank();
        proof {
            assert(is_least(es, m));
            assert(least_rank(es) == m) by {
                let c = least_rank(es);
                let ci = choose|i: int| 0 <= i < es.len() && #[trigger] es[i].0.rank() == c;
                assert(c <= es[least as int].0.rank());
                assert(m <= es[ci].0.rank());
            }
        }
        let mut marks: Vec<bool> = Vec::new();
        let mut j: usize = 0;
        while j < n
            invariant
                n == self.waiting.len(),
                es == self.waiting@,
                least < n,
                m == es[least as int].0.rank(),
                j <= n,
                marks@.len() == j,
                forall|t: int| 0 <= t < j ==> marks@[t] == (#[trigger] es[t].0.rank() == m),
            decreases n - j,
        {
            let b = self.waiting[j].0.compare(&self.waiting[least].0) == KeyOrder::Equal;
            marks.push(b);
            j = j + 1;
        }
        let mut rest: Vec<(K, V, S)> = Vec::new();
        std::mem::swap(&mut rest, &mut self.waiting);
        let mut floor: Vec<(K, V, S)> = Vec::new();
        let mut waiting: Vec<(K, V, S)> = Vec::new();
        while rest.len() > 0
            invariant
                marks@.len() == rest@.len(),
                rest@ == es.take(rest@.len() as int),
                rest@.len() <= es.len(),
                forall|t: int| 0 <= t < marks@.len() ==> marks@[t] == (#[trigger] es[t].0.rank() == m),
                split_rank(es, m) == (floor@ + split_rank(rest@, m).0, waiting@ + split_rank(
                    rest@,
                    m,
                ).1),
            decreases rest.len(),
        {
            let ghost r = rest@;
            let e = rest.pop().unwrap();
            let b = marks.pop().unwrap();
            proof {
                assert(r.drop_last() =~= es.take(rest@.len() as int));
                assert(e.0.rank() == r.last().0.rank());
            }
            let ghost fr = split_rank(rest@, m);
            if b {
                floor.push(e);
                proof {
                    assert(floor@ + fr.0 =~= floor@.drop_last() + (seq![e] + fr.0));
                }
            } else {
                waiting.push(e);
                proof {
                    assert(waiting@ + fr.1 =~= waiting@.drop_last() + (seq![e] + fr.1));
                }
            }
        }
        proof {
            assert(floor@ + split_rank(rest@, m).0 =~= floor@);
            assert(waiting@ + split_rank(rest@, m).1 =~= waiting@);
        }
        self.floor = floor;
        self.waiting = waiting;
        false
    }
}

/// The items of the streams in `ss`.
pub open spec fn streams_items<K, V>(ss: Seq<Vec<(K, V)>>) -> Multiset<(K, V)>
    decreases ss.len(),
{
    if ss.len() == 0 {
        Multiset::empty()
    } else {
        streams_items(ss.drop_last()).add(ss.last()@.to_multiset())
    }
}

/// The items of the entries in `es`: the item each one waits with, and what its stream still
/// holds.
pub open spec fn entries_items<K, V>(es: Seq<(K, V, Vec<(K, V)>)>) -> Multiset<(K, V)>
    decreases es.len(),
{
    if es.len() == 0 {
        Multiset::empty()
    } else {
        entries_items(es.drop_last()).add(
            es.last().2@.to_multiset().insert((es.last().0, es.last().1)),
        )
    }
}

/// Every stream in `ss` is sorted by key.
pub open spec fn all_sorted<K: SortKey, V>(ss: Seq<Vec<(K, V)>>) -> bool {
    forall|i: int| 0 <= i < ss.len() ==> sorted(#[trigger] ss[i]@)
}

/// `r` is no less than the bound `lo`, if there is one.
pub open spec fn above(lo: Option<int>, r: int) -> bool {
    match lo {
        None => true,
        Some(b) => b <= r,
    }
}

/// A sorted stream whose keys are all above `lo`.
pub open spec fn stream_above<K: SortKey, V>(s: Seq<(K, V)>, lo: Option<int>) -> bool {
    &&& sorted(s)
    &&& forall|j: int| 0 <= j < s.len() ==> above(lo, #[trigger] s[j].0.rank())
}

/// An entry whose key is above `lo` and whose stream is sorted and holds no smaller key.
pub open spec fn entry_above<K: SortKey, V>(e: (K, V, Vec<(K, V)>), lo: Option<int>) -> bool {
    &&& above(lo, e.0.rank())
    &&& stream_above(e.2@, Some(e.0.rank()))
}

/// How the keys of a merge of sorted streams are ordered: everything still to come is above
/// `lo`, and while the floor is not empty its entries share one key that nothing else still to
/// come sorts before.
pub open spec fn flatten_ordered<K: SortKey, V>(
    active: Seq<Vec<(K, V)>>,
    waiting: Seq<(K, V, Vec<(K, V)>)>,
    floor: Seq<(K, V, Vec<(K, V)>)>,
    lo: Option<int>,
) -> bool {
    &&& forall|s: Vec<(K, V)>| active.contains(s) ==> stream_above(s@, lo)
    &&& forall|e: (K, V, Vec<(K, V)>)| waiting.contains(e) ==> entry_above(e, lo)
    &&& forall|e: (K, V, Vec<(K, V)>)| floor.contains(e) ==> entry_above(e, lo)
    &&& floor.len() > 0 ==> {
        let m = floor[0].0.rank();
        &&& forall|e: (K, V, Vec<(K, V)>)| floor.contains(e) ==> e.0.rank() == m
        &&& forall|e: (K, V, Vec<(K, V)>)| waiting.contains(e) ==> m <= e.0.rank()
        &&& forall|s: Vec<(K, V)>| active.contains(s) ==> stream_above(s@, Some(m))
    }
}

proof fn lemma_entries_concat<K, V>(a: Seq<(K, V, Vec<(K, V)>)>, b: Seq<(K, V, Vec<(K, V)>)>)
    ensures
        entries_items(a + b) == entries_items(a).add(entries_items(b)),
    decreases b.len(),
{
    broadcast use vstd::multiset::group_multiset_axioms;

    if b.len() == 0 {
        assert(a + b =~= a);
        assert(entries_items(a).add(Multiset::empty()) =~= entries_items(a));
    } else {
        lemma_entries_concat(a, b.drop_last());
        assert((a + b).drop_last() =~= a + b.drop_last());
        assert((a + b).last() == b.last());
        let x = b.last();
        let xi = x.2@.to_multiset().insert((x.0, x.1));
        assert(entries_items(a).add(entries_items(b.drop_last())).add(xi) =~= entries_items(a).add(
            entries_items(b.drop_last()).add(xi),
        ));
    }
}

proof fn lemma_split_rank<K: SortKey, V>(es: Seq<(K, V, Vec<(K, V)>)>, m: int)
    ensures
        entries_items(split_rank(es, m).0).add(entries_items(split_rank(es, m).1))
            == entries_items(es),
        split_rank(es, m).0.len() + split_rank(es, m).1.len() == es.len(),
        forall|e: (K, V, Vec<(K, V)>)|
            #[trigger] split_rank(es, m).0.contains(e) <==> es.contains(e) && e.0.rank() == m,
        forall|e: (K, V, Vec<(K, V)>)|
            #[trigger] split_rank(es, m).1.contains(e) <==> es.contains(e) && e.0.rank() != m,
    decreases es.len(),
{
    broadcast use vstd::multiset::group_multiset_axioms;

    if es.len() == 0 {
        assert(entries_items(Seq::<(K, V, Vec<(K, V)>)>::empty()).add(Multiset::empty())
            =~= Multiset::empty());
    } else {
        let x = es.last();
        let d = es.drop_last();
        lemma_split_rank(d, m);
        let (f, w) = split_rank(d, m);
        let xi = x.2@.to_multiset().insert((x.0, x.1));
        let one = seq![x];
        assert(one.drop_last() =~= Seq::<(K, V, Vec<(K, V)>)>::empty());
        assert(one.last() == x);
        assert(entries_items(one) == entries_items(one.drop_last()).add(xi));
        assert(entries_items(one) =~= xi);
        assert forall|e: (K, V, Vec<(K, V)>)| es.contains(e) <==> d.contains(e) || e == x by {
            if es.contains(e) {
                let i = choose|i: int| 0 <= i < es.len() && es[i] == e;
                if i < d.len() {
                    assert(d[i] == e);
                }
            }
            if d.contains(e) {
                let i = choose|i: int| 0 <= i < d.len() && d[i] == e;
                assert(es[i] == e);
            }
            if e == x {
                assert(es[es.len() - 1] == e);
            }
        }
        if x.0.rank() == m {
            lemma_entries_concat(seq![x], f);
            assert forall|e: (K, V, Vec<(K, V)>)| (seq![x] + f).contains(e) <==> f.contains(e) || e == x by {
                let g = seq![x] + f;
                if g.contains(e) {
                    let i = choose|i: int| 0 <= i < g.len() && g[i] == e;
                    if i > 0 {
                        assert(f[i - 1] == e);
                    }
                }
                if f.contains(e) {
                    let i = choose|i: int| 0 <= i < f.len() && f[i] == e;
                    assert(g[i + 1] == e);
                }
                if e == x {
                    assert(g[0] == e);
                }
            }
            assert(xi.add(entries_items(f)).add(entries_items(w)) =~= entries_items(d).add(xi));
            assert forall|e: (K, V, Vec<(K, V)>)| #[trigger] split_rank(es, m).0.contains(e) <==> es.contains(e) && e.0.rank() == m by {
                let g = seq![x] + f;
                assert(split_rank(es, m).0 == g);
                assert(g.contains(e) <==> f.contains(e) || e == x);
                assert(es.contains(e) <==> d.contains(e) || e == x);
                assert(f.contains(e) <==> split_rank(d, m).0.contains(e));
            }
            assert forall|e: (K, V, Vec<(K, V)>)| #[trigger] split_rank(es, m).1.contains(e) <==> es.contains(e) && e.0.rank() != m by {
                assert(split_rank(es, m).1 == w);
            }
        } else {
            lemma_entries_concat(seq![x], w);
            assert forall|e: (K, V, Vec<(K, V)>)| (seq![x] + w).contains(e) <==> w.contains(e) || e == x by {
                let g = seq![x] + w;
                if g.contains(e) {
                    let i = choose|i: int| 0 <= i < g.len() && g[i] == e;
                    if i > 0 {
                        assert(w[i - 1] == e);
                    }
                }
                if w.contains(e) {
                    let i = choose|i: int| 0 <= i < w.len() && w[i] == e;
                    assert(g[i + 1] == e);
                }
                if e == x {
                    assert(g[0] == e);
                }
            }
            assert(entries_items(f).add(xi.add(entries_items(w))) =~= entries_items(d).add(xi));
            assert forall|e: (K, V, Vec<(K, V)>)| #[trigger] split_rank(es, m).0.contains(e) <==> es.contains(e) && e.0.rank() == m by {
                assert(split_rank(es, m).0 == f);
            }
            assert forall|e: (K, V, Vec<(K, V)>)| #[trigger] split_rank(es, m).1.contains(e) <==> es.contains(e) && e.0.rank() != m by {
                let g = seq![x] + w;
                assert(split_rank(es, m).1 == g);
                assert(g.contains(e) <==> w.contains(e) || e == x);
                assert(es.contains(e) <==> d.contains(e) || e == x);
                assert(w.contains(e) <==> split_rank(d, m).1.contains(e));
            }
        }
    }
}

proof fn lemma_least_exists<K: SortKey, V, S>(es: Seq<(K, V, S)>)
    requires
        es.len() > 0,
    ensures
        is_least(es, least_rank(es)),
    decreases es.len(),
{
    if es.len() == 1 {
        assert(is_least(es, es[0].0.rank()));
    } else {
        let d = es.drop_last();
        lemma_least_exists(d);
        let md = least_rank(d);
        let id = choose|i: int| 0 <= i < d.len() && #[trigger] d[i].0.rank() == md;
        assert(es[id] == d[id]);
        if es.last().0.rank() < md {
            assert(es[es.len() - 1].0.rank() == es.last().0.rank());
            assert forall|i: int| 0 <= i < es.len() implies es.last().0.rank() <= #[trigger] es[i].0.rank() by {
                if i < d.len() {
                    assert(es[i] == d[i]);
                }
            }
            assert(is_least(es, es.last().0.rank()));
        } else {
            assert forall|i: int| 0 <= i < es.len() implies md <= #[trigger] es[i].0.rank() by {
                if i < d.len() {
                    assert(es[i] == d[i]);
                }
            }
            assert(is_least(es, md));
        }
    }
}

/// How much work a merge has left: the items still held, then the waiting entries, the floor
/// and the streams to poll.
pub open spec fn flatten_measure<K, V>(
    active: Seq<Vec<(K, V)>>,
    waiting: Seq<(K, V, Vec<(K, V)>)>,
    floor: Seq<(K, V, Vec<(K, V)>)>,
) -> nat {
    10 * (streams_items(active).len() + entries_items(waiting).len() + entries_items(floor).len())
        + 2 * waiting.len() + floor.len() + 3 * active.len()
}

/// The state of a merge of the lists `input` that has yielded `out`: every item is still held or
/// was yielded, and, where all lists are sorted, what comes is ordered after what came.
pub open spec fn flatten_inv<K: SortKey, V>(
    input: Seq<Vec<(K, V)>>,
    out: Seq<(K, V)>,
    active: Seq<Vec<(K, V)>>,
    waiting: Seq<(K, V, Vec<(K, V)>)>,
    floor: Seq<(K, V, Vec<(K, V)>)>,
    lo: Option<int>,
) -> bool {
    &&& out.to_multiset().add(streams_items(active)).add(entries_items(waiting)).add(
        entries_items(floor),
    ) == streams_items(input)
    &&& all_sorted(input) ==> {
        &&& flatten_ordered(active, waiting, floor, lo)
        &&& sorted(out)
        &&& out.len() > 0 ==> lo == Some(out.last().0.rank())
    }
}

proof fn lemma_flatten_start<K: SortKey, V>(input: Seq<Vec<(K, V)>>)
    ensures
        flatten_inv(
            input,
            Seq::empty(),
            input,
            Seq::empty(),
            Seq::empty(),
            None,
        ),
{
    broadcast use vstd::multiset::group_multiset_axioms;
    broadcast use vstd::multiset::group_multiset_properties;
    broadcast use vstd::seq_lib::group_to_multiset_ensures;

    let e = Seq::<(K, V)>::empty();
    assert(e.to_multiset().len() == 0);
    assert(e.to_multiset() =~= Multiset::empty());
    assert(entries_items(Seq::<(K, V, Vec<(K, V)>)>::empty()) == Multiset::<(K, V)>::empty());
    assert(Multiset::<(K, V)>::empty().add(streams_items(input)).add(Multiset::empty()).add(
        Multiset::empty(),
    ) =~= streams_items(input));
    if all_sorted(input) {
        assert forall|s: Vec<(K, V)>| input.contains(s) implies stream_above(s@, None) by {
            let i = choose|i: int| 0 <= i < input.len() && input[i] == s;
            assert(sorted(input[i]@));
        }
    }
}

proof fn lemma_flatten_yield<K: SortKey, V>(
    input: Seq<Vec<(K, V)>>,
    out: Seq<(K, V)>,
    active: Seq<Vec<(K, V)>>,
    waiting: Seq<(K, V, Vec<(K, V)>)>,
    floor: Seq<(K, V, Vec<(K, V)>)>,
    lo: Option<int>,
)
    requires
        flatten_inv(input, out, active, waiting, floor, lo),
        floor.len() > 0,
    ensures
        ({
            let (k, v, s) = floor.last();
            &&& flatten_inv(
                input,
                out.push((k, v)),
                active.push(s),
                waiting,
                floor.drop_last(),
                Some(k.rank()),
            )
            &&& flatten_measure(active.push(s), waiting, floor.drop_last()) < flatten_measure(
                active,
                waiting,
                floor,
            )
        }),
{
    broadcast use vstd::multiset::group_multiset_axioms;
    broadcast use vstd::seq_lib::group_to_multiset_ensures;

    let (k, v, s) = floor.last();
    let a1 = active.push(s);
    let f1 = floor.drop_last();
    let o1 = out.push((k, v));
    assert(a1.drop_last() =~= active);
    assert(a1.last() == s);
    assert(f1.push((k, v, s)) =~= floor);
    assert(entries_items(floor) == entries_items(f1).add(
        s@.to_multiset().insert((k, v)),
    ));
    assert(o1.to_multiset() =~= out.to_multiset().insert((k, v)));
    assert(o1.to_multiset().add(streams_items(a1)).add(entries_items(waiting)).add(
        entries_items(f1),
    ) =~= out.to_multiset().add(streams_items(active)).add(entries_items(waiting)).add(
        entries_items(floor),
    ));
    if all_sorted(input) {
        let m = floor[0].0.rank();
        assert(floor.contains((k, v, s))) by {
            assert(floor[floor.len() - 1] == (k, v, s));
        }
        assert(k.rank() == m);
        assert(entry_above((k, v, s), lo));
        assert forall|e: (K, V, Vec<(K, V)>)| f1.contains(e) implies floor.contains(e) by {
            let i = choose|i: int| 0 <= i < f1.len() && f1[i] == e;
            assert(floor[i] == e);
        }
        if f1.len() > 0 {
            assert(floor.contains(f1[0])) by {
                assert(floor[0] == f1[0]);
            }
        }
        assert forall|t: Vec<(K, V)>| a1.contains(t) implies stream_above(t@, Some(m)) by {
            let i = choose|i: int| 0 <= i < a1.len() && a1[i] == t;
            if i < active.len() {
                assert(active[i] == t);
                assert(active.contains(t));
            }
        }
        assert forall|e: (K, V, Vec<(K, V)>)| waiting.contains(e) implies entry_above(e, Some(m)) by {
            assert(entry_above(e, lo));
            assert(m <= e.0.rank());
        }
        assert forall|e: (K, V, Vec<(K, V)>)| f1.contains(e) implies entry_above(e, Some(m)) by {
            assert(floor.contains(e));
            assert(entry_above(e, lo));
            assert(e.0.rank() == m);
        }
        assert(o1.last() == (k, v));
        assert forall|i: int, j: int| 0 <= i <= j < o1.len() implies o1[i].0.rank() <= o1[j].0.rank() by {
            if j == o1.len() - 1 && i < j {
                assert(out[i] == o1[i]);
                assert(out[i].0.rank() <= out.last().0.rank());
            } else if j < o1.len() - 1 {
                assert(out[i] == o1[i] && out[j] == o1[j]);
            }
        }
    }
}

proof fn lemma_flatten_poll<K: SortKey, V>(
    input: Seq<Vec<(K, V)>>,
    out: Seq<(K, V)>,
    active: Seq<Vec<(K, V)>>,
    waiting: Seq<(K, V, Vec<(K, V)>)>,
    floor: Seq<(K, V, Vec<(K, V)>)>,
    lo: Option<int>,
    rest: Vec<(K, V)>,
)
    requires
        flatten_inv(input, out, active, waiting, floor, lo),
        floor.len() == 0,
        active.len() > 0,
        active.last()@.len() > 0,
        rest@ == active.last()@.drop_first(),
    ensures
        ({
            let (k, v) = active.last()@[0];
            &&& flatten_inv(
                input,
                out,
                active.drop_last(),
                waiting.push((k, v, rest)),
                floor,
                lo,
            )
            &&& flatten_measure(active.drop_last(), waiting.push((k, v, rest)), floor)
                < flatten_measure(active, waiting, floor)
        }),
{
    broadcast use vstd::multiset::group_multiset_axioms;
    broadcast use vstd::seq_lib::group_to_multiset_ensures;

    let s0 = active.last()@;
    let (k, v) = s0[0];
    let a1 = active.drop_last();
    let w1 = waiting.push((k, v, rest));
    assert(w1.drop_last() =~= waiting);
    assert(w1.last() == (k, v, rest));
    assert(s0.remove(0) =~= rest@);
    assert(rest@.to_multiset().insert((k, v)) =~= s0.to_multiset());
    assert(out.to_multiset().add(streams_items(a1)).add(entries_items(w1)).add(
        entries_items(floor),
    ) =~= out.to_multiset().add(streams_items(active)).add(entries_items(waiting)).add(
        entries_items(floor),
    ));
    if all_sorted(input) {
        assert(active.contains(active.last())) by {
            assert(active[active.len() - 1] == active.last());
        }
        assert(stream_above(s0, lo));
        assert(sorted(rest@)) by {
            assert forall|i: int, j: int| 0 <= i <= j < rest@.len() implies rest@[i].0.rank()
                <= rest@[j].0.rank() by {
                assert(rest@[i] == s0[i + 1] && rest@[j] == s0[j + 1]);
            }
        }
        assert forall|j: int| 0 <= j < rest@.len() implies above(
            Some(k.rank()),
            #[trigger] rest@[j].0.rank(),
        ) by {
            assert(rest@[j] == s0[j + 1]);
        }
        assert(above(lo, s0[0].0.rank()));
        assert(entry_above((k, v, rest), lo));
        assert forall|e: (K, V, Vec<(K, V)>)| w1.contains(e) implies entry_above(e, lo) by {
            let i = choose|i: int| 0 <= i < w1.len() && w1[i] == e;
            if i < waiting.len() {
                assert(waiting[i] == e);
                assert(waiting.contains(e));
            }
        }
        assert forall|t: Vec<(K, V)>| a1.contains(t) implies stream_above(t@, lo) by {
            let i = choose|i: int| 0 <= i < a1.len() && a1[i] == t;
            assert(active[i] == t);
            assert(active.contains(t));
        }
    }
}

proof fn lemma_flatten_drop<K: SortKey, V>(
    input: Seq<Vec<(K, V)>>,
    out: Seq<(K, V)>,
    active: Seq<Vec<(K, V)>>,
    waiting: Seq<(K, V, Vec<(K, V)>)>,
    floor: Seq<(K, V, Vec<(K, V)>)>,
    lo: Option<int>,
)
    requires
        flatten_inv(input, out, active, waiting, floor, lo),
        floor.len() == 0,
        active.len() > 0,
        active.last()@.len() == 0,
    ensures
        flatten_inv(input, out, active.drop_last(), waiting, floor, lo),
        flatten_measure(active.drop_last(), waiting, floor) < flatten_measure(
            active,
            waiting,
            floor,
        ),
{
    broadcast use vstd::multiset::group_multiset_axioms;
    broadcast use vstd::multiset::group_multiset_properties;
    broadcast use vstd::seq_lib::group_to_multiset_ensures;

    let a1 = active.drop_last();
    let s0 = active.last()@;
    assert(s0.to_multiset().len() == 0);
    assert(s0.to_multiset() =~= Multiset::empty());
    assert(streams_items(a1).add(s0.to_multiset()) =~= streams_items(a1));
    if all_sorted(input) {
        assert forall|t: Vec<(K, V)>| a1.contains(t) implies stream_above(t@, lo) by {
            let i = choose|i: int| 0 <= i < a1.len() && a1[i] == t;
            assert(active[i] == t);
            assert(active.contains(t));
        }
    }
}

proof fn lemma_flatten_fill<K: SortKey, V>(
    input: Seq<Vec<(K, V)>>,
    out: Seq<(K, V)>,
    waiting: Seq<(K, V, Vec<(K, V)>)>,
    lo: Option<int>,
)
    requires
        flatten_inv(input, out, Seq::empty(), waiting, Seq::empty(), lo),
        waiting.len() > 0,
    ensures
        ({
            let (f, w) = split_rank(waiting, least_rank(waiting));
            &&& flatten_inv(input, out, Seq::empty(), w, f, lo)
            &&& flatten_measure(Seq::empty(), w, f) < flatten_measure(
                Seq::empty(),
                waiting,
                Seq::empty(),
            )
        }),
{
    broadcast use vstd::multiset::group_multiset_axioms;

    let m = least_rank(waiting);
    lemma_least_exists(waiting);
    lemma_split_rank(waiting, m);
    let (f, w) = split_rank(waiting, m);
    let a = Seq::<Vec<(K, V)>>::empty();
    let z = Seq::<(K, V, Vec<(K, V)>)>::empty();
    assert(entries_items(z) =~= Multiset::empty());
    assert(out.to_multiset().add(streams_items(a)).add(entries_items(w)).add(entries_items(f))
        =~= out.to_multiset().add(streams_items(a)).add(entries_items(waiting)).add(
        entries_items(z),
    ));
    let i = choose|i: int| 0 <= i < waiting.len() && #[trigger] waiting[i].0.rank() == m;
    assert(waiting.contains(waiting[i]));
    assert(f.contains(waiting[i]));
    if all_sorted(input) {
        assert(f.contains(f[0]));
        assert forall|e: (K, V, Vec<(K, V)>)| w.contains(e) implies m <= e.0.rank() by {
            let j = choose|j: int| 0 <= j < waiting.len() && waiting[j] == e;
            assert(m <= waiting[j].0.rank());
        }
    }
}

proof fn lemma_flatten_end<K: SortKey, V>(
    input: Seq<Vec<(K, V)>>,
    out: Seq<(K, V)>,
    lo: Option<int>,
)
    requires
        flatten_inv(input, out, Seq::empty(), Seq::empty(), Seq::empty(), lo),
    ensures
        out.to_multiset() == streams_items(input),
        all_sorted(input) ==> sorted(out),
{
    broadcast use vstd::multiset::group_multiset_axioms;

    assert(entries_items(Seq::<(K, V, Vec<(K, V)>)>::empty()) =~= Multiset::empty());
    assert(streams_items(Seq::<Vec<(K, V)>>::empty()) =~= Multiset::empty());
    assert(out.to_multiset().add(Multiset::empty()).add(Multiset::empty()).add(Multiset::empty())
        =~= out.to_multiset());
}

/// Merges the key-sorted lists in `streams`, running the merge with every list as a stream that
/// is always ready.
pub fn flatten_sorted_all<K: SortKey, V>(streams: Vec<Vec<(K, V)>>) -> (out: Vec<(K, V)>)
    ensures
        out@.to_multiset() == streams_items(streams@),
        all_sorted(streams@) ==> sorted(out@),
{
    let ghost input = streams@;
    let mut active = streams;
    let mut core: FlattenSorted<Vec<(K, V)>, K, V> = FlattenSorted::new();
    let mut out: Vec<(K, V)> = Vec::new();
    let ghost mut lo: Option<int> = None;
    proof {
        lemma_flatten_start(input);
        assert(out@ =~= Seq::<(K, V)>::empty());
    }
    loop
        invariant_except_break
            flatten_inv(input, out@, active@, core.waiting(), core.floor(), lo),
        ensures
            out@.to_multiset() == streams_items(input),
            all_sorted(input) ==> sorted(out@),
        decreases flatten_measure(active@, core.waiting(), core.floor()),
    {
        let ghost a0 = active@;
        let ghost w0 = core.waiting();
        let ghost f0 = core.floor();
        let ghost o0 = out@;
        if let Some((k, v, s)) = core.pop_floor() {
            proof {
                lemma_flatten_yield(input, o0, a0, w0, f0, lo);
                lo = Some(k.rank());
            }
            active.push(s);
            out.push((k, v));
        } else if active.len() > 0 {
            let mut s = active.pop().unwrap();
            proof {
                assert(a0.last() == s);
                assert(a0.drop_last() =~= active@);
            }
            if s.len() > 0 {
                let ghost s0 = s@;
                let (k, v) = s.remove(0);
                proof {
                    assert(s@ =~= s0.drop_first());
                    lemma_flatten_poll(input, o0, a0, w0, f0, lo, s);
                }
                core.push_waiting(k, v, s);
            } else {
                proof {
                    lemma_flatten_drop(input, o0, a0, w0, f0, lo);
                }
            }
        } else {
            proof {
                assert(a0 =~= Seq::<Vec<(K, V)>>::empty());
                assert(f0 =~= Seq::<(K, V, Vec<(K, V)>)>::empty());
            }
            let ended = core.fill_floor();
            if ended {
                proof {
                    assert(w0 =~= Seq::<(K, V, Vec<(K, V)>)>::empty());
                    lemma_flatten_end(input, o0, lo);
                }
                break ;
            }
            proof {
                lemma_flatten_fill(input, o0, w0, lo);
            }
        }
    }
    out
}

} // verus!
