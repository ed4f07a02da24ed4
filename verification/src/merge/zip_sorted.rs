//! Pairs up the items of two key-sorted streams that have equal keys.
//!
//! Both streams are read in turns: a pair waits for a partner from the other side, the smaller of
//! two keys is dropped, and two equal keys make one output pair. The output ends as soon as either
//! stream ends.

use vstd::prelude::*;

use super::key::{sorted, strictly_sorted, KeyOrder, Side, SortKey};

verus! {

/// The pair that waits for a partner from the other stream.
#[derive(Debug)]
pub enum Held<K, Lv, Rv> {
    /// A pair read from the left stream.
    Left(K, Lv),
    /// A pair read from the right stream.
    Right(K, Rv),
}

/// What handing one polled item to a merge gave.
#[derive(Debug)]
pub enum Step<T> {
    /// Nothing to yield yet: poll again.
    Continue,
    /// An item to yield.
    Yield(T),
    /// The merged stream has ended.
    End,
}

/// The pairs of equal keys of `l` and `r`, as reading both in turns finds them.
pub open spec fn zip_spec<K: SortKey, Lv, Rv>(l: Seq<(K, Lv)>, r: Seq<(K, Rv)>) -> Seq<
    (K, (Lv, Rv)),
>
    decreases l.len() + r.len(),
{
    if l.len() == 0 || r.len() == 0 {
        Seq::empty()
    } else if l[0].0.rank() < r[0].0.rank() {
        zip_spec(l.drop_first(), r)
    } else if l[0].0.rank() == r[0].0.rank() {
        seq![(l[0].0, (l[0].1, r[0].1))] + zip_spec(l.drop_first(), r.drop_first())
    } else {
        zip_spec(l, r.drop_first())
    }
}

/// What is still to come out of a merge that holds `held`, with `l` and `r` still to be read.
pub open spec fn zip_pending<K: SortKey, Lv, Rv>(
    held: Option<Held<K, Lv, Rv>>,
    l: Seq<(K, Lv)>,
    r: Seq<(K, Rv)>,
) -> Seq<(K, (Lv, Rv))> {
    match held {
        None => zip_spec(l, r),
        Some(Held::Left(k, v)) => zip_spec(seq![(k, v)] + l, r),
        Some(Held::Right(k, v)) => zip_spec(l, seq![(k, v)] + r),
    }
}

/// The held pair and the step after the left stream gave `item`.
pub open spec fn after_left<K: SortKey, Lv, Rv>(
    held: Option<Held<K, Lv, Rv>>,
    item: Option<(K, Lv)>,
) -> (Option<Held<K, Lv, Rv>>, Step<(K, (Lv, Rv))>) {
    match item {
        None => (None, Step::End),
        Some((lk, lv)) => match held {
            Some(Held::Right(rk, rv)) => {
                if lk.rank() < rk.rank() {
                    (Some(Held::Right(rk, rv)), Step::Continue)
                } else if lk.rank() == rk.rank() {
                    (None, Step::Yield((lk, (lv, rv))))
                } else {
                    (Some(Held::Left(lk, lv)), Step::Continue)
                }
            },
            _ => (Some(Held::Left(lk, lv)), Step::Continue),
        },
    }
}

/// The held pair and the step after the right stream gave `item`, while a left pair waits.
pub open spec fn after_right<K: SortKey, Lv, Rv>(
    held: Option<Held<K, Lv, Rv>>,
    item: Option<(K, Rv)>,
) -> (Option<Held<K, Lv, Rv>>, Step<(K, (Lv, Rv))>) {
    match item {
        None => (None, Step::End),
        Some((rk, rv)) => match held {
            Some(Held::Left(lk, lv)) => {
                if lk.rank() < rk.rank() {
                    (Some(Held::Right(rk, rv)), Step::Continue)
                } else if lk.rank() == rk.rank() {
                    (None, Step::Yield((lk, (lv, rv))))
                } else {
                    (Some(Held::Left(lk, lv)), Step::Continue)
                }
            },
            _ => (held, Step::Continue),
        },
    }
}

/// The items that a step yields.
pub open spec fn yielded<T>(step: Step<T>) -> Seq<T> {
    match step {
        Step::Yield(t) => seq![t],
        _ => Seq::empty(),
    }
}

/// Two key-sorted streams `L` and `R` and the pair that waits for a partner.
pub struct ZipSorted<L, R, K, Lv, Rv> {
    l: L,
    r: R,
    last: Option<Held<K, Lv, Rv>>,
}

/// Pairs up the items of `l` and `r` that have equal keys.
pub fn zip_sorted<L, R, K, Lv, Rv>(l: L, r: R) -> (z: ZipSorted<L, R, K, Lv, Rv>)
    ensures
        z.held() is None,
        z.left() == l,
        z.right() == r,
{
    ZipSorted { l, r, last: None }
}

impl<L, R, K, Lv, Rv> ZipSorted<L, R, K, Lv, Rv> {
    /// The pair that waits for a partner.
    pub closed spec fn held(&self) -> Option<Held<K, Lv, Rv>> {
        self.last
    }

    /// The left stream.
    pub closed spec fn left(&self) -> L {
        self.l
    }

    /// The right stream.
    pub closed spec fn right(&self) -> R {
        self.r
    }

    /// The stream to poll next: the right one while a left pair waits, else the left one.
    pub fn wants(&self) -> (s: Side)
        ensures
            s == (if self.held() matches Some(Held::Left(_, _)) {
                Side::Right
            } else {
                Side::Left
            }),
    {
        match &self.last {
            Some(Held::Left(_, _)) => Side::Right,
            _ => Side::Left,
        }
    }

    /// Both streams, to be polled.
    pub fn streams_mut(&mut self) -> (r: (&mut L, &mut R))
        ensures
            *r.0 == old(self).left(),
            *r.1 == old(self).right(),
            final(self).left() == *final(r.0),
            final(self).right() == *final(r.1),
            final(self).held() == old(self).held(),
    {
        (&mut self.l, &mut self.r)
    }

    /// An error from either stream is handed on and drops the waiting pair.
    pub fn on_error(&mut self)
        ensures
            final(self).held() is None,
            final(self).left() == old(self).left(),
            final(self).right() == old(self).right(),
    {
        self.last = None;
    }
}

impl<L, R, K: SortKey, Lv, Rv> ZipSorted<L, R, K, Lv, Rv> {
    /// Hands over what the left stream gave: `None` once it has ended.
    pub fn feed_left(&mut self, item: Option<(K, Lv)>) -> (r: Step<(K, (Lv, Rv))>)
        requires
            !(old(self).held() matches Some(Held::Left(_, _))),
        ensures
            (final(self).held(), r) == after_left(old(self).held(), item),
            final(self).left() == old(self).left(),
            final(self).right() == old(self).right(),
    {
        match item {
            None => {
                self.last = None;
                Step::End
            },
            Some((lk, lv)) => match self.last.take() {
                Some(Held::Right(rk, rv)) => match lk.compare(&rk) {
                    KeyOrder::Less => {
                        self.last = Some(Held::Right(rk, rv));
                        Step::Continue
                    },
                    KeyOrder::Equal => Step::Yield((lk, (lv, rv))),
                    KeyOrder::Greater => {
                        self.last = Some(Held::Left(lk, lv));
                        Step::Continue
                    },
                },
                _ => {
                    self.last = Some(Held::Left(lk, lv));
                    Step::Continue
                },
            },
        }
    }

    /// Hands over what the right stream gave while a left pair waits: `None` once it has ended.
    pub fn feed_right(&mut self, item: Option<(K, Rv)>) -> (r: Step<(K, (Lv, Rv))>)
        requires
            old(self).held() matches Some(Held::Left(_, _)),
        ensures
            (final(self).held(), r) == after_right(old(self).held(), item),
            final(self).left() == old(self).left(),
            final(self).right() == old(self).right(),
    {
        match item {
            None => {
                self.last = None;
                Step::End
            },
            Some((rk, rv)) => match self.last.take() {
                Some(Held::Left(lk, lv)) => match lk.compare(&rk) {
                    KeyOrder::Less => {
                        self.last = Some(Held::Right(rk, rv));
                        Step::Continue
                    },
                    KeyOrder::Equal => Step::Yield((lk, (lv, rv))),
                    KeyOrder::Greater => {
                        self.last = Some(Held::Left(lk, lv));
                        Step::Continue
                    },
                },
                other => {
                    self.last = other;
                    Step::Continue
                },
            },
        }
    }
}

proof fn lemma_left_step<K: SortKey, Lv, Rv>(
    held: Option<Held<K, Lv, Rv>>,
    l: Seq<(K, Lv)>,
    r: Seq<(K, Rv)>,
)
    requires
        !(held matches Some(Held::Left(_, _))),
    ensures
        ({
            let item = if l.len() == 0 {
                None::<(K, Lv)>
            } else {
                Some(l[0])
            };
            let (h, step) = after_left(held, item);
            &&& step is End ==> zip_pending(held, l, r) == Seq::<(K, (Lv, Rv))>::empty()
            &&& !(step is End) ==> zip_pending(held, l, r) == yielded(step) + zip_pending(
                h,
                l.drop_first(),
                r,
            )
        }),
{
    if l.len() > 0 {
        assert(seq![l[0]] + l.drop_first() =~= l);
        match held {
            Some(Held::Right(rk, rv)) => {
                let rr = seq![(rk, rv)] + r;
                assert(rr[0] == (rk, rv));
                assert(rr.drop_first() =~= r);
                if l[0].0.rank() == rk.rank() {
                    assert(zip_pending(held, l, r) == seq![(l[0].0, (l[0].1, rv))] + zip_spec(
                        l.drop_first(),
                        r,
                    ));
                }
            },
            _ => {},
        }
    }
}

proof fn lemma_right_step<K: SortKey, Lv, Rv>(
    held: Option<Held<K, Lv, Rv>>,
    l: Seq<(K, Lv)>,
    r: Seq<(K, Rv)>,
)
    requires
        held matches Some(Held::Left(_, _)),
    ensures
        ({
            let item = if r.len() == 0 {
                None::<(K, Rv)>
            } else {
                Some(r[0])
            };
            let (h, step) = after_right(held, item);
            &&& step is End ==> zip_pending(held, l, r) == Seq::<(K, (Lv, Rv))>::empty()
            &&& !(step is End) ==> zip_pending(held, l, r) == yielded(step) + zip_pending(
                h,
                l,
                r.drop_first(),
            )
        }),
{
    match held {
        Some(Held::Left(lk, lv)) => {
            let ll = seq![(lk, lv)] + l;
            assert(ll[0] == (lk, lv));
            assert(ll.drop_first() =~= l);
            if r.len() > 0 {
                assert(seq![r[0]] + r.drop_first() =~= r);
                if lk.rank() == r[0].0.rank() {
                    assert(zip_pending(held, l, r) == seq![(lk, (lv, r[0].1))] + zip_spec(
                        l,
                        r.drop_first(),
                    ));
                }
            }
        },
        _ => {},
    }
}

/// Pairs up the items of two key-sorted lists, as the merged stream does when both streams are
/// always ready.
pub fn zip_sorted_all<K: SortKey, Lv, Rv>(l: Vec<(K, Lv)>, r: Vec<(K, Rv)>) -> (out: Vec<
    (K, (Lv, Rv)),
>)
    ensures
        out@ == zip_spec(l@, r@),
        sorted(l@) && sorted(r@) ==> out@ == zip_direct(l@, r@),
{
    proof {
        if sorted(l@) && sorted(r@) {
            lemma_zip_pairs_in_order(l@, r@);
        }
    }
    let ghost l0 = l@;
    let ghost r0 = r@;
    let mut z: ZipSorted<Vec<(K, Lv)>, Vec<(K, Rv)>, K, Lv, Rv> = zip_sorted(l, r);
    let mut out: Vec<(K, (Lv, Rv))> = Vec::new();
    loop
        invariant
            out@ + zip_pending(z.held(), z.left()@, z.right()@) == zip_spec(l0, r0),
        ensures
            out@ == zip_spec(l0, r0),
        decreases z.left()@.len() + z.right()@.len(),
    {
        let ghost o = out@;
        let ghost h = z.held();
        let ghost ls = z.left()@;
        let ghost rs = z.right()@;
        let step = match z.wants() {
            Side::Left => {
                let (lq, _) = z.streams_mut();
                let item = if lq.len() == 0 {
                    None
                } else {
                    Some(lq.remove(0))
                };
                proof {
                    lemma_left_step(h, ls, rs);
                }
                z.feed_left(item)
            },
            Side::Right => {
                let (_, rq) = z.streams_mut();
                let item = if rq.len() == 0 {
                    None
                } else {
                    Some(rq.remove(0))
                };
                proof {
                    lemma_right_step(h, ls, rs);
                }
                z.feed_right(item)
            },
        };
        match step {
            Step::Continue => {},
            Step::Yield(t) => {
                out.push(t);
            },
            Step::End => {
                proof {
                    assert(out@ + Seq::<(K, (Lv, Rv))>::empty() =~= out@);
                }
                break ;
            },
        }
        proof {
            assert(out@ =~= o + yielded(step));
            assert(o + (yielded(step) + zip_pending(z.held(), z.left()@, z.right()@)) =~= out@
                + zip_pending(z.held(), z.left()@, z.right()@));
        }
    }
    out
}

/// `x` pairs an item of `l` with an item of `r` of equal key.
pub open spec fn equal_key_pair<K: SortKey, Lv, Rv>(
    l: Seq<(K, Lv)>,
    r: Seq<(K, Rv)>,
    x: (K, (Lv, Rv)),
) -> bool {
    exists|i: int, j: int|
        0 <= i < l.len() && 0 <= j < r.len() && l[i].0.rank() == r[j].0.rank() && x == (
            l[i].0,
            (l[i].1, r[j].1),
        )
}

proof fn lemma_zip_pairs<K: SortKey, Lv, Rv>(l: Seq<(K, Lv)>, r: Seq<(K, Rv)>)
    requires
        strictly_sorted(l),
        strictly_sorted(r),
    ensures
        forall|x: (K, (Lv, Rv))| zip_spec(l, r).contains(x) <==> equal_key_pair(l, r, x),
        strictly_sorted(zip_spec(l, r)),
        forall|t: int| 0 <= t < zip_spec(l, r).len() ==> exists|i: int| 0 <= i < l.len()
            && #[trigger] zip_spec(l, r)[t].0 == l[i].0,
    decreases l.len() + r.len(),
{
    let z = zip_spec(l, r);
    if l.len() == 0 || r.len() == 0 {
        assert forall|x: (K, (Lv, Rv))| !equal_key_pair(l, r, x) by {}
    } else {
        let l1 = l.drop_first();
        let r1 = r.drop_first();
        assert forall|i: int, j: int| 0 <= i < j < l1.len() implies l1[i].0.rank() < l1[j].0.rank() by {
            assert(l1[i] == l[i + 1] && l1[j] == l[j + 1]);
        }
        assert forall|i: int, j: int| 0 <= i < j < r1.len() implies r1[i].0.rank() < r1[j].0.rank() by {
            assert(r1[i] == r[i + 1] && r1[j] == r[j + 1]);
        }
        if l[0].0.rank() < r[0].0.rank() {
            lemma_zip_pairs(l1, r);
            assert forall|x: (K, (Lv, Rv))| equal_key_pair(l, r, x) <==> equal_key_pair(l1, r, x) by {
                if equal_key_pair(l, r, x) {
                    let (i, j) = choose|i: int, j: int|
                        0 <= i < l.len() && 0 <= j < r.len() && l[i].0.rank() == r[j].0.rank()
                            && x == (l[i].0, (l[i].1, r[j].1));
                    if i == 0 {
                        assert(r[0].0.rank() <= r[j].0.rank());
                    }
                    assert(l1[i - 1] == l[i]);
                }
                if equal_key_pair(l1, r, x) {
                    let (i, j) = choose|i: int, j: int|
                        0 <= i < l1.len() && 0 <= j < r.len() && l1[i].0.rank() == r[j].0.rank()
                            && x == (l1[i].0, (l1[i].1, r[j].1));
                    assert(l[i + 1] == l1[i]);
                }
            }
            assert forall|t: int| 0 <= t < z.len() implies exists|i: int| 0 <= i < l.len()
                && #[trigger] z[t].0 == l[i].0 by {
                let i = choose|i: int| 0 <= i < l1.len() && #[trigger] z[t].0 == l1[i].0;
                assert(l[i + 1] == l1[i]);
            }
        } else if l[0].0.rank() == r[0].0.rank() {
            lemma_zip_pairs(l1, r1);
            let h = (l[0].0, (l[0].1, r[0].1));
            let rest = zip_spec(l1, r1);
            assert(z == seq![h] + rest);
            assert forall|x: (K, (Lv, Rv))| z.contains(x) <==> x == h || rest.contains(x) by {
                if z.contains(x) {
                    let t = choose|t: int| 0 <= t < z.len() && z[t] == x;
                    if t > 0 {
                        assert(rest[t - 1] == x);
                    }
                }
                if rest.contains(x) {
                    let t = choose|t: int| 0 <= t < rest.len() && rest[t] == x;
                    assert(z[t + 1] == x);
                }
                if x == h {
                    assert(z[0] == x);
                }
            }
            assert forall|x: (K, (Lv, Rv))| equal_key_pair(l, r, x) <==> x == h || equal_key_pair(
                l1,
                r1,
                x,
            ) by {
                if equal_key_pair(l, r, x) {
                    let (i, j) = choose|i: int, j: int|
                        0 <= i < l.len() && 0 <= j < r.len() && l[i].0.rank() == r[j].0.rank()
                            && x == (l[i].0, (l[i].1, r[j].1));
                    if i == 0 && j > 0 {
                        assert(r[0].0.rank() < r[j].0.rank());
                    } else if j == 0 && i > 0 {
                        assert(l[0].0.rank() < l[i].0.rank());
                    } else if i > 0 && j > 0 {
                        assert(l1[i - 1] == l[i] && r1[j - 1] == r[j]);
                    }
                }
                if equal_key_pair(l1, r1, x) {
                    let (i, j) = choose|i: int, j: int|
                        0 <= i < l1.len() && 0 <= j < r1.len() && l1[i].0.rank() == r1[j].0.rank()
                            && x == (l1[i].0, (l1[i].1, r1[j].1));
                    assert(l[i + 1] == l1[i] && r[j + 1] == r1[j]);
                }
                if x == h {
                    assert(l[0].0.rank() == r[0].0.rank());
                }
            }
            assert forall|t: int| 0 <= t < z.len() implies exists|i: int| 0 <= i < l.len()
                && #[trigger] z[t].0 == l[i].0 by {
                if t == 0 {
                    assert(z[0].0 == l[0].0);
                } else {
                    assert(z[t] == rest[t - 1]);
                    let i = choose|i: int| 0 <= i < l1.len() && #[trigger] rest[t - 1].0 == l1[i].0;
                    assert(l[i + 1] == l1[i]);
                }
            }
            assert forall|a: int, b: int| 0 <= a < b < z.len() implies z[a].0.rank() < z[b].0.rank() by {
                if a == 0 {
                    assert(z[b] == rest[b - 1]);
                    let i = choose|i: int| 0 <= i < l1.len() && #[trigger] rest[b - 1].0 == l1[i].0;
                    assert(l[i + 1] == l1[i]);
                } else {
                    assert(z[a] == rest[a - 1] && z[b] == rest[b - 1]);
                }
            }
        } else {
            lemma_zip_pairs(l, r1);
            assert forall|x: (K, (Lv, Rv))| equal_key_pair(l, r, x) <==> equal_key_pair(l, r1, x) by {
                if equal_key_pair(l, r, x) {
                    let (i, j) = choose|i: int, j: int|
                        0 <= i < l.len() && 0 <= j < r.len() && l[i].0.rank() == r[j].0.rank()
                            && x == (l[i].0, (l[i].1, r[j].1));
                    if j == 0 {
                        assert(l[0].0.rank() <= l[i].0.rank());
                    }
                    assert(r1[j - 1] == r[j]);
                }
                if equal_key_pair(l, r1, x) {
                    let (i, j) = choose|i: int, j: int|
                        0 <= i < l.len() && 0 <= j < r1.len() && l[i].0.rank() == r1[j].0.rank()
                            && x == (l[i].0, (l[i].1, r1[j].1));
                    assert(r[j + 1] == r1[j]);
                }
            }
        }
    }
}

/// Zipping two lists whose keys strictly increase gives exactly the pairs of items with equal
/// keys, in increasing key order.
pub proof fn lemma_zip_equal_keys<K: SortKey, Lv, Rv>(l: Seq<(K, Lv)>, r: Seq<(K, Rv)>)
    requires
        strictly_sorted(l),
        strictly_sorted(r),
    ensures
        forall|x: (K, (Lv, Rv))| zip_spec(l, r).contains(x) <==> equal_key_pair(l, r, x),
        strictly_sorted(zip_spec(l, r)),
{
    lemma_zip_pairs(l, r);
}

/// The position of the first item of `r` whose key has rank `k`, if any.
pub open spec fn first_at<K: SortKey, V>(r: Seq<(K, V)>, k: int) -> Option<int>
    decreases r.len(),
{
    if r.len() == 0 {
        None
    } else if r[0].0.rank() == k {
        Some(0)
    } else {
        match first_at(r.drop_first(), k) {
            Some(j) => Some(j + 1),
            None => None,
        }
    }
}

/// Each left item, in order, takes the earliest right item of the same key that no earlier left
/// item took; a left item left without one gives nothing. So the i-th left value of a key pairs
/// with the i-th right value of that key.
pub open spec fn zip_direct<K: SortKey, Lv, Rv>(l: Seq<(K, Lv)>, r: Seq<(K, Rv)>) -> Seq<
    (K, (Lv, Rv)),
>
    decreases l.len(),
{
    if l.len() == 0 {
        Seq::empty()
    } else {
        match first_at(r, l[0].0.rank()) {
            Some(j) => seq![(l[0].0, (l[0].1, r[j].1))] + zip_direct(l.drop_first(), r.remove(j)),
            None => zip_direct(l.drop_first(), r),
        }
    }
}

proof fn lemma_first_at_bounds<K: SortKey, V>(r: Seq<(K, V)>, k: int)
    ensures
        first_at(r, k) matches Some(j) ==> 0 <= j < r.len() && r[j].0.rank() == k,
        first_at(r, k) is None ==> forall|j: int| 0 <= j < r.len() ==> #[trigger] r[j].0.rank() != k,
    decreases r.len(),
{
    if r.len() > 0 {
        lemma_first_at_bounds(r.drop_first(), k);
        if r[0].0.rank() != k {
            assert forall|j: int| 0 < j < r.len() implies r[j] == r.drop_first()[j - 1] by {}
        }
    }
}

proof fn lemma_zip_direct_empty_right<K: SortKey, Lv, Rv>(l: Seq<(K, Lv)>, r: Seq<(K, Rv)>)
    requires
        r.len() == 0,
    ensures
        zip_direct(l, r) == Seq::<(K, (Lv, Rv))>::empty(),
    decreases l.len(),
{
    if l.len() > 0 {
        lemma_zip_direct_empty_right(l.drop_first(), r);
    }
}

/// A right item whose key no left item has is never taken.
proof fn lemma_zip_direct_skip_right<K: SortKey, Lv, Rv>(
    l: Seq<(K, Lv)>,
    x: (K, Rv),
    r: Seq<(K, Rv)>,
)
    requires
        forall|i: int| 0 <= i < l.len() ==> #[trigger] l[i].0.rank() != x.0.rank(),
    ensures
        zip_direct(l, seq![x] + r) == zip_direct(l, r),
    decreases l.len(),
{
    if l.len() > 0 {
        let xr = seq![x] + r;
        let k = l[0].0.rank();
        assert(xr.drop_first() =~= r);
        assert(xr[0] == x);
        let l2 = l.drop_first();
        assert forall|i: int| 0 <= i < l2.len() implies #[trigger] l2[i].0.rank() != x.0.rank() by {
            assert(l2[i] == l[i + 1]);
        }
        match first_at(r, k) {
            Some(j) => {
                lemma_first_at_bounds(r, k);
                assert(first_at(xr, k) == Some(j + 1));
                assert(xr.remove(j + 1) =~= seq![x] + r.remove(j));
                assert(xr[j + 1] == r[j]);
                lemma_zip_direct_skip_right(l2, x, r.remove(j));
            },
            None => {
                assert(first_at(xr, k) is None);
                lemma_zip_direct_skip_right(l2, x, r);
            },
        }
    }
}

/// Zipping two sorted lists pairs, key by key, the i-th left value with the i-th right value.
pub proof fn lemma_zip_pairs_in_order<K: SortKey, Lv, Rv>(l: Seq<(K, Lv)>, r: Seq<(K, Rv)>)
    requires
        sorted(l),
        sorted(r),
    ensures
        zip_spec(l, r) == zip_direct(l, r),
    decreases l.len() + r.len(),
{
    if l.len() == 0 {
    } else if r.len() == 0 {
        lemma_zip_direct_empty_right(l, r);
    } else {
        let l2 = l.drop_first();
        let r2 = r.drop_first();
        assert forall|i: int, j: int| 0 <= i <= j < l2.len() implies l2[i].0.rank() <= l2[j].0.rank() by {
            assert(l2[i] == l[i + 1] && l2[j] == l[j + 1]);
        }
        assert forall|i: int, j: int| 0 <= i <= j < r2.len() implies r2[i].0.rank() <= r2[j].0.rank() by {
            assert(r2[i] == r[i + 1] && r2[j] == r[j + 1]);
        }
        let lk = l[0].0.rank();
        let rk = r[0].0.rank();
        if lk < rk {
            lemma_zip_pairs_in_order(l2, r);
            lemma_first_at_bounds(r, lk);
            if let Some(j) = first_at(r, lk) {
                assert(r[0].0.rank() <= r[j].0.rank());
            }
        } else if lk == rk {
            lemma_zip_pairs_in_order(l2, r2);
            assert(r.remove(0) =~= r2);
        } else {
            lemma_zip_pairs_in_order(l, r2);
            assert forall|i: int| 0 <= i < l.len() implies #[trigger] l[i].0.rank() != r[0].0.rank() by {
                assert(l[0].0.rank() <= l[i].0.rank());
            }
            assert(seq![r[0]] + r2 =~= r);
            lemma_zip_direct_skip_right(l, r[0], r2);
        }
    }
}

} // verus!
