//! Groups the items of a right key-sorted stream under the items of a left one with equal keys.
//!
//! Every left item comes out once, together with the right values that carry its key and that
//! were not claimed by an earlier left item; right items with keys that no left item has are
//! dropped. The output ends when the left stream ends.

use vstd::prelude::*;

use super::key::{sorted, KeyOrder, Side, SortKey};
use super::product_sorted::values_at;
use super::zip_sorted::Step;

verus! {

/// The item that waits while the merge reads on.
#[derive(Debug)]
pub enum GroupHeld<K, Lv, Rv> {
    /// A left item and the right values gathered for it so far.
    Left(K, Lv, Vec<Rv>),
    /// A right item that waits for a left item with its key.
    Right(K, Rv),
}

/// [`GroupHeld`] with the gathered values as a sequence.
pub enum GroupHeldView<K, Lv, Rv> {
    /// A left item and the right values gathered for it so far.
    Left(K, Lv, Seq<Rv>),
    /// A right item that waits for a left item with its key.
    Right(K, Rv),
}

/// The view of a held item.
pub open spec fn held_view<K, Lv, Rv>(h: Option<GroupHeld<K, Lv, Rv>>) -> Option<
    GroupHeldView<K, Lv, Rv>,
> {
    match h {
        None => None,
        Some(GroupHeld::Left(k, v, t)) => Some(GroupHeldView::Left(k, v, t@)),
        Some(GroupHeld::Right(k, v)) => Some(GroupHeldView::Right(k, v)),
    }
}

/// How much a held item adds to the work left.
pub open spec fn weight<K, Lv, Rv>(h: Option<GroupHeldView<K, Lv, Rv>>) -> int {
    match h {
        Some(GroupHeldView::Left(_, _, _)) => 2,
        _ => 1,
    }
}

/// What is still to come out of a grouping merge that holds `held`, with `l` and `r` still to be
/// read.
pub open spec fn group_pending<K: SortKey, Lv, Rv>(
    held: Option<GroupHeldView<K, Lv, Rv>>,
    l: Seq<(K, Lv)>,
    r: Seq<(K, Rv)>,
) -> Seq<(K, (Lv, Seq<Rv>))>
    decreases 2 * (l.len() + r.len()) + weight(held),
{
    match held {
        None => {
            if l.len() == 0 {
                Seq::empty()
            } else {
                group_pending(
                    Some(GroupHeldView::Left(l[0].0, l[0].1, Seq::empty())),
                    l.drop_first(),
                    r,
                )
            }
        },
        Some(GroupHeldView::Left(k, v, t)) => {
            if r.len() == 0 {
                seq![(k, (v, t))] + group_pending(None, l, r)
            } else if k.rank() < r[0].0.rank() {
                seq![(k, (v, t))] + group_pending(
                    Some(GroupHeldView::Right(r[0].0, r[0].1)),
                    l,
                    r.drop_first(),
                )
            } else if k.rank() == r[0].0.rank() {
                group_pending(Some(GroupHeldView::Left(k, v, t.push(r[0].1))), l, r.drop_first())
            } else {
                group_pending(Some(GroupHeldView::Left(k, v, t)), l, r.drop_first())
            }
        },
        Some(GroupHeldView::Right(rk, rv)) => {
            if l.len() == 0 {
                Seq::empty()
            } else if l[0].0.rank() < rk.rank() {
                seq![(l[0].0, (l[0].1, Seq::empty()))] + group_pending(held, l.drop_first(), r)
            } else if l[0].0.rank() == rk.rank() {
                group_pending(
                    Some(GroupHeldView::Left(l[0].0, l[0].1, seq![rv])),
                    l.drop_first(),
                    r,
                )
            } else {
                group_pending(
                    Some(GroupHeldView::Left(l[0].0, l[0].1, Seq::empty())),
                    l.drop_first(),
                    r,
                )
            }
        },
    }
}

/// Every item of `l` with the values of `r` grouped under it.
pub open spec fn group_spec<K: SortKey, Lv, Rv>(l: Seq<(K, Lv)>, r: Seq<(K, Rv)>) -> Seq<
    (K, (Lv, Seq<Rv>)),
> {
    group_pending(None, l, r)
}

/// The output items with their groups as sequences.
pub open spec fn group_views<K, Lv, Rv>(out: Seq<(K, (Lv, Vec<Rv>))>) -> Seq<(K, (Lv, Seq<Rv>))> {
    out.map_values(|x: (K, (Lv, Vec<Rv>))| (x.0, (x.1.0, x.1.1@)))
}

/// The items a step yields, with their groups as sequences.
pub open spec fn yielded_views<K, Lv, Rv>(step: Step<(K, (Lv, Vec<Rv>))>) -> Seq<
    (K, (Lv, Seq<Rv>)),
> {
    match step {
        Step::Yield(x) => seq![(x.0, (x.1.0, x.1.1@))],
        _ => Seq::empty(),
    }
}

/// Two key-sorted streams `L` and `R` and the item that waits.
pub struct ZipGroupSorted<L, R, K, Lv, Rv> {
    l: L,
    r: R,
    last: Option<GroupHeld<K, Lv, Rv>>,
}

/// Groups the items of `r` under the items of `l` with equal keys.
pub fn zip_group_sorted<L, R, K, Lv, Rv>(l: L, r: R) -> (z: ZipGroupSorted<L, R, K, Lv, Rv>)
    ensures
        z.held() is None,
        z.left() == l,
        z.right() == r,
{
    ZipGroupSorted { l, r, last: None }
}

impl<L, R, K, Lv, Rv> ZipGroupSorted<L, R, K, Lv, Rv> {
    /// The item that waits, with its group as a sequence.
    pub closed spec fn held(&self) -> Option<GroupHeldView<K, Lv, Rv>> {
        held_view(self.last)
    }

    /// The left stream.
    pub closed spec fn left(&self) -> L {
        self.l
    }

    /// The right stream.
    pub closed spec fn right(&self) -> R {
        self.r
    }

    /// The stream to poll next: the right one while a left item gathers, else the left one.
    pub fn wants(&self) -> (s: Side)
        ensures
            s == (if self.held() matches Some(GroupHeldView::Left(_, _, _)) {
                Side::Right
            } else {
                Side::Left
            }),
    {
        match &self.last {
            Some(GroupHeld::Left(_, _, _)) => Side::Right,
            _ => Side::Left,
        }
    }

    /// Both streams, to be polled.
    pub fn streams_mut(&mut self) -> (r: (&mut L, &mut R))
        ensures
            *r.0 == old(self).left(),
            *r.1 == old(self).right(),
            final(self).left() == *final(r.0),
            final(self).right() == *final(r.1),
            final(self).held() == old(self).held(),
    {
        (&mut self.l, &mut self.r)
    }

    /// An error from either stream is handed on and drops the waiting item.
    pub fn on_error(&mut self)
        ensures
            final(self).held() is None,
            final(self).left() == old(self).left(),
            final(self).right() == old(self).right(),
    {
        self.last = None;
    }
}

impl<L, R, K: SortKey, Lv, Rv> ZipGroupSorted<L, R, K, Lv, Rv> {
    /// Hands over what the left stream gave: `None` once it has ended.
    pub fn feed_left(&mut self, item: Option<(K, Lv)>) -> (r: Step<(K, (Lv, Vec<Rv>))>)
        requires
            !(old(self).held() matches Some(GroupHeldView::Left(_, _, _))),
        ensures
            item is None ==> r is End && final(self).held() is None,
            item matches Some(x) ==> match old(self).held() {
                Some(GroupHeldView::Right(rk, rv)) => {
                    if x.0.rank() < rk.rank() {
                        yielded_views(r) == seq![(x.0, (x.1, Seq::<Rv>::empty()))]
                            && final(self).held() == old(self).held()
                    } else if x.0.rank() == rk.rank() {
                        r is Continue && final(self).held() == Some(
                            GroupHeldView::Left(x.0, x.1, seq![rv]),
                        )
                    } else {
                        r is Continue && final(self).held() == Some(
                            GroupHeldView::Left(x.0, x.1, Seq::<Rv>::empty()),
                        )
                    }
                },
                _ => r is Continue && final(self).held() == Some(
                    GroupHeldView::Left(x.0, x.1, Seq::<Rv>::empty()),
                ),
            },
            r is Yield ==> yielded_views(r).len() == 1,
            final(self).left() == old(self).left(),
            final(self).right() == old(self).right(),
    {
        match item {
            None => {
                self.last = None;
                Step::End
            },
            Some((lk, lv)) => match self.last.take() {
                Some(GroupHeld::Right(rk, rv)) => match lk.compare(&rk) {
                    KeyOrder::Less => {
                        self.last = Some(GroupHeld::Right(rk, rv));
                        Step::Yield((lk, (lv, Vec::new())))
                    },
                    KeyOrder::Equal => {
                        let mut t = Vec::new();
                        t.push(rv);
                        proof {
                            assert(t@ =~= seq![rv]);
                        }
                        self.last = Some(GroupHeld::Left(lk, lv, t));
                        Step::Continue
                    },
                    KeyOrder::Greater => {
                        self.last = Some(GroupHeld::Left(lk, lv, Vec::new()));
                        Step::Continue
                    },
                },
                _ => {
                    self.last = Some(GroupHeld::Left(lk, lv, Vec::new()));
                    Step::Continue
                },
            },
        }
    }

    /// Hands over what the right stream gave while a left item gathers: `None` once it has ended.
    pub fn feed_right(&mut self, item: Option<(K, Rv)>) -> (r: Step<(K, (Lv, Vec<Rv>))>)
        requires
            old(self).held() matches Some(GroupHeldView::Left(_, _, _)),
        ensures
            match old(self).held() {
                Some(GroupHeldView::Left(lk, lv, t)) => match item {
                    None => yielded_views(r) == seq![(lk, (lv, t))] && final(self).held() is None,
                    Some(x) => {
                        if lk.rank() < x.0.rank() {
                            yielded_views(r) == seq![(lk, (lv, t))] && final(self).held() == Some(
                                GroupHeldView::<K, Lv, Rv>::Right(x.0, x.1),
                            )
                        } else if lk.rank() == x.0.rank() {
                            r is Continue && final(self).held() == Some(
                                GroupHeldView::Left(lk, lv, t.push(x.1)),
                            )
                        } else {
                            r is Continue && final(self).held() == old(self).held()
                        }
                    },
                },
                _ => true,
            },
            r is Yield ==> yielded_views(r).len() == 1,
            !(r is End),
            final(self).left() == old(self).left(),
            final(self).right() == old(self).right(),
    {
        match self.last.take() {
            Some(GroupHeld::Left(lk, lv, mut t)) => match item {
                None => Step::Yield((lk, (lv, t))),
                Some((rk, rv)) => match lk.compare(&rk) {
                    KeyOrder::Less => {
                        self.last = Some(GroupHeld::Right(rk, rv));
                        Step::Yield((lk, (lv, t)))
                    },
                    KeyOrder::Equal => {
                        t.push(rv);
                        self.last = Some(GroupHeld::Left(lk, lv, t));
                        Step::Continue
                    },
                    KeyOrder::Greater => {
                        self.last = Some(GroupHeld::Left(lk, lv, t));
                        Step::Continue
                    },
                },
            },
            other => {
                self.last = other;
                Step::Continue
            },
        }
    }
}

/// Groups the items of a key-sorted list under the items of another, as the merged stream does
/// when both streams are always ready.
pub fn zip_group_sorted_all<K: SortKey, Lv, Rv>(l: Vec<(K, Lv)>, r: Vec<(K, Rv)>) -> (out: Vec<
    (K, (Lv, Vec<Rv>)),
>)
    ensures
        group_views(out@) == group_spec(l@, r@),
        sorted(l@) && sorted(r@) ==> group_views(out@) == group_direct(l@, r@),
{
    proof {
        if sorted(l@) && sorted(r@) {
            lemma_group_contents(l@, r@);
        }
    }
    let ghost l0 = l@;
    let ghost r0 = r@;
    let mut z: ZipGroupSorted<Vec<(K, Lv)>, Vec<(K, Rv)>, K, Lv, Rv> = zip_group_sorted(l, r);
    let mut out: Vec<(K, (Lv, Vec<Rv>))> = Vec::new();
    loop
        invariant
            group_views(out@) + group_pending(z.held(), z.left()@, z.right()@) == group_spec(
                l0,
                r0,
            ),
        ensures
            group_views(out@) == group_spec(l0, r0),
        decreases 2 * (z.left()@.len() + z.right()@.len()) + weight(z.held()),
    {
        let ghost o = out@;
        let ghost h = z.held();
        let ghost ls = z.left()@;
        let ghost rs = z.right()@;
        let step = match z.wants() {
            Side::Left => {
                let (lq, _) = z.streams_mut();
                let item = if lq.len() == 0 {
                    None
                } else {
                    Some(lq.remove(0))
                };
                proof {
                    if ls.len() > 0 {
                        assert(ls[0] == item->Some_0);
                    }
                }
                z.feed_left(item)
            },
            Side::Right => {
                let (_, rq) = z.streams_mut();
                let item = if rq.len() == 0 {
                    None
                } else {
                    Some(rq.remove(0))
                };
                proof {
                    if rs.len() > 0 {
                        assert(rs[0] == item->Some_0);
                    }
                }
                z.feed_right(item)
            },
        };
        proof {
            assert(group_pending(h, ls, rs) == yielded_views(step) + group_pending(
                z.held(),
                z.left()@,
                z.right()@,
            ) || step is End);
        }
        let ghost ys = yielded_views(step);
        match step {
            Step::Continue => {},
            Step::Yield(t) => {
                out.push(t);
            },
            Step::End => {
                proof {
                    assert(group_pending(h, ls, rs) =~= Seq::empty());
                    assert(group_views(out@) + Seq::<(K, (Lv, Seq<Rv>))>::empty() =~= group_views(
                        out@,
                    ));
                }
                break ;
            },
        }
        proof {
            assert(group_views(out@) =~= group_views(o) + ys);
            assert(group_views(o) + (ys + group_pending(z.held(), z.left()@, z.right()@))
                =~= group_views(out@) + group_pending(z.held(), z.left()@, z.right()@));
        }
    }
    out
}

/// The left items among `out`: each output item without its group.
pub open spec fn left_items<K, Lv, Rv>(out: Seq<(K, (Lv, Seq<Rv>))>) -> Seq<(K, Lv)> {
    out.map_values(|x: (K, (Lv, Seq<Rv>))| (x.0, x.1.0))
}

/// The left item that waits in `held`, if one does.
pub open spec fn held_left<K, Lv, Rv>(held: Option<GroupHeldView<K, Lv, Rv>>) -> Seq<(K, Lv)> {
    match held {
        Some(GroupHeldView::Left(k, v, _)) => seq![(k, v)],
        _ => Seq::empty(),
    }
}

proof fn lemma_pending_left_items<K: SortKey, Lv, Rv>(
    held: Option<GroupHeldView<K, Lv, Rv>>,
    l: Seq<(K, Lv)>,
    r: Seq<(K, Rv)>,
)
    ensures
        left_items(group_pending(held, l, r)) == held_left(held) + l,
    decreases 2 * (l.len() + r.len()) + weight(held),
{
    let e = Seq::<(K, (Lv, Seq<Rv>))>::empty();
    assert(left_items(e) =~= Seq::<(K, Lv)>::empty());
    match held {
        None => {
            if l.len() == 0 {
                assert(held_left(held) + l =~= Seq::<(K, Lv)>::empty());
            } else {
                let h = Some(GroupHeldView::Left(l[0].0, l[0].1, Seq::empty()));
                lemma_pending_left_items(h, l.drop_first(), r);
                assert(seq![(l[0].0, l[0].1)] + l.drop_first() =~= l);
                assert(held_left(held) + l =~= l);
            }
        },
        Some(GroupHeldView::Left(k, v, t)) => {
            if r.len() == 0 {
                lemma_pending_left_items(None, l, r);
                let rest = group_pending(None, l, r);
                assert(left_items(seq![(k, (v, t))] + rest) =~= seq![(k, v)] + left_items(rest));
                assert(held_left::<K, Lv, Rv>(None) + l =~= l);
            } else if k.rank() < r[0].0.rank() {
                let h = Some(GroupHeldView::Right(r[0].0, r[0].1));
                lemma_pending_left_items(h, l, r.drop_first());
                let rest = group_pending(h, l, r.drop_first());
                assert(left_items(seq![(k, (v, t))] + rest) =~= seq![(k, v)] + left_items(rest));
                assert(held_left(h) + l =~= l);
            } else if k.rank() == r[0].0.rank() {
                lemma_pending_left_items(
                    Some(GroupHeldView::Left(k, v, t.push(r[0].1))),
                    l,
                    r.drop_first(),
                );
            } else {
                lemma_pending_left_items(Some(GroupHeldView::Left(k, v, t)), l, r.drop_first());
            }
        },
        Some(GroupHeldView::Right(rk, rv)) => {
            if l.len() == 0 {
                assert(held_left(held) + l =~= Seq::<(K, Lv)>::empty());
            } else if l[0].0.rank() < rk.rank() {
                lemma_pending_left_items(held, l.drop_first(), r);
                let rest = group_pending(held, l.drop_first(), r);
                assert(left_items(seq![(l[0].0, (l[0].1, Seq::<Rv>::empty()))] + rest) =~= seq![
                    (l[0].0, l[0].1),
                ] + left_items(rest));
                assert(seq![(l[0].0, l[0].1)] + (held_left(held) + l.drop_first()) =~= held_left(
                    held,
                ) + l);
            } else if l[0].0.rank() == rk.rank() {
                let h = Some(GroupHeldView::Left(l[0].0, l[0].1, seq![rv]));
                lemma_pending_left_items(h, l.drop_first(), r);
                assert(held_left(h) + l.drop_first() =~= held_left(held) + l);
            } else {
                let h = Some(GroupHeldView::Left(l[0].0, l[0].1, Seq::<Rv>::empty()));
                lemma_pending_left_items(h, l.drop_first(), r);
                assert(held_left(h) + l.drop_first() =~= held_left(held) + l);
            }
        },
    }
}

/// Every left item comes out exactly once, in order, whatever the keys: dropping the groups from
/// the output gives back the left list.
pub proof fn lemma_group_keeps_left<K: SortKey, Lv, Rv>(l: Seq<(K, Lv)>, r: Seq<(K, Rv)>)
    ensures
        left_items(group_spec(l, r)) == l,
{
    lemma_pending_left_items(None, l, r);
    assert(held_left::<K, Lv, Rv>(None) + l =~= l);
}

/// Each left item of `l` in order with its group: every right value of its key in `r` if no
/// left item before it (nor the key `last`) has that key, else nothing.
pub open spec fn group_from<K: SortKey, Lv, Rv>(
    l: Seq<(K, Lv)>,
    r: Seq<(K, Rv)>,
    last: Option<int>,
) -> Seq<(K, (Lv, Seq<Rv>))>
    decreases l.len(),
{
    if l.len() == 0 {
        Seq::empty()
    } else {
        let k = l[0].0.rank();
        let t = if last == Some(k) {
            Seq::empty()
        } else {
            values_at(r, k)
        };
        seq![(l[0].0, (l[0].1, t))] + group_from(l.drop_first(), r, Some(k))
    }
}

/// Each left item in order with its group: the first left item of each key gets every right
/// value of that key, in order; later left items of the same key get none.
pub open spec fn group_direct<K: SortKey, Lv, Rv>(l: Seq<(K, Lv)>, r: Seq<(K, Rv)>) -> Seq<
    (K, (Lv, Seq<Rv>)),
> {
    group_from(l, r, None)
}

spec fn group_expect<K: SortKey, Lv, Rv>(
    held: Option<GroupHeldView<K, Lv, Rv>>,
    l: Seq<(K, Lv)>,
    r: Seq<(K, Rv)>,
    last: Option<int>,
) -> Seq<(K, (Lv, Seq<Rv>))> {
    match held {
        None => group_from(l, r, last),
        Some(GroupHeldView::Left(k, v, t)) => seq![(k, (v, t + values_at(r, k.rank())))]
            + group_from(l, r, Some(k.rank())),
        Some(GroupHeldView::Right(rk, rv)) => group_from(l, seq![(rk, rv)] + r, last),
    }
}

spec fn all_at_least<K: SortKey, V>(s: Seq<(K, V)>, k: int) -> bool {
    forall|i: int| 0 <= i < s.len() ==> k <= #[trigger] s[i].0.rank()
}

spec fn group_ctx<K: SortKey, Lv, Rv>(
    held: Option<GroupHeldView<K, Lv, Rv>>,
    l: Seq<(K, Lv)>,
    r: Seq<(K, Rv)>,
    last: Option<int>,
) -> bool {
    &&& sorted(l)
    &&& sorted(r)
    &&& match held {
        None => last matches Some(p) ==> r.len() == 0 && all_at_least(l, p),
        Some(GroupHeldView::Left(k, _, _)) => all_at_least(l, k.rank()),
        Some(GroupHeldView::Right(rk, _)) => last matches Some(p) && p < rk.rank() && all_at_least(
            l,
            p,
        ) && all_at_least(r, rk.rank()),
    }
}

proof fn lemma_sorted_rest<K: SortKey, V>(s: Seq<(K, V)>)
    requires
        sorted(s),
        s.len() > 0,
    ensures
        sorted(s.drop_first()),
        all_at_least(s.drop_first(), s[0].0.rank()),
        all_at_least(s, s[0].0.rank()),
{
    assert forall|i: int, j: int| 0 <= i <= j < s.drop_first().len() implies s.drop_first()[i].0.rank()
        <= s.drop_first()[j].0.rank() by {
        assert(s.drop_first()[i] == s[i + 1] && s.drop_first()[j] == s[j + 1]);
    }
    assert forall|i: int| 0 <= i < s.drop_first().len() implies s[0].0.rank() <= #[trigger] s.drop_first()[i].0.rank() by {
        assert(s.drop_first()[i] == s[i + 1]);
    }
    assert forall|i: int| 0 <= i < s.len() implies s[0].0.rank() <= #[trigger] s[i].0.rank() by {}
}

proof fn lemma_values_above<K: SortKey, V>(r: Seq<(K, V)>, k: int, lo: int)
    requires
        all_at_least(r, lo),
        k < lo,
    ensures
        values_at(r, k) == Seq::<V>::empty(),
    decreases r.len(),
{
    if r.len() > 0 {
        assert(all_at_least(r.drop_first(), lo)) by {
            assert forall|i: int| 0 <= i < r.drop_first().len() implies lo <= #[trigger] r.drop_first()[i].0.rank() by {
                assert(r.drop_first()[i] == r[i + 1]);
            }
        }
        lemma_values_above(r.drop_first(), k, lo);
        assert(r[0].0.rank() >= lo);
        assert(Seq::<V>::empty() + Seq::<V>::empty() =~= Seq::<V>::empty());
    }
}

/// A right item of a key at most `p` changes no group once `p` has been seen.
proof fn lemma_group_from_skip<K: SortKey, Lv, Rv>(
    l: Seq<(K, Lv)>,
    x: (K, Rv),
    r: Seq<(K, Rv)>,
    p: int,
)
    requires
        sorted(l),
        all_at_least(l, p),
        x.0.rank() <= p,
    ensures
        group_from(l, seq![x] + r, Some(p)) == group_from(l, r, Some(p)),
    decreases l.len(),
{
    if l.len() > 0 {
        let k = l[0].0.rank();
        let xr = seq![x] + r;
        assert(xr.drop_first() =~= r);
        assert(k >= p);
        if k != p {
            assert(values_at(xr, k) == values_at(r, k)) by {
                assert(xr[0] == x);
                assert(Seq::<Rv>::empty() + values_at(r, k) =~= values_at(r, k));
            }
        }
        lemma_sorted_rest(l);
        lemma_group_from_skip(l.drop_first(), x, r, k);
    }
}

proof fn lemma_group_general<K: SortKey, Lv, Rv>(
    held: Option<GroupHeldView<K, Lv, Rv>>,
    l: Seq<(K, Lv)>,
    r: Seq<(K, Rv)>,
    last: Option<int>,
)
    requires
        group_ctx(held, l, r, last),
    ensures
        group_pending(held, l, r) == group_expect(held, l, r, last),
    decreases 2 * (l.len() + r.len()) + weight(held),
{
    match held {
        None => {
            if l.len() > 0 {
                let k = l[0].0.rank();
                lemma_sorted_rest(l);
                let h = Some(GroupHeldView::Left(l[0].0, l[0].1, Seq::<Rv>::empty()));
                lemma_group_general(h, l.drop_first(), r, Some(k));
                assert(Seq::<Rv>::empty() + values_at(r, k) =~= values_at(r, k));
                if last == Some(k) {
                    assert(r.len() == 0);
                    assert(values_at(r, k) =~= Seq::<Rv>::empty());
                }
            }
        },
        Some(GroupHeldView::Left(k, v, t)) => {
            let kr = k.rank();
            if r.len() == 0 {
                lemma_group_general(None, l, r, Some(kr));
                assert(t + values_at(r, kr) =~= t);
            } else {
                let x = r[0];
                let r2 = r.drop_first();
                lemma_sorted_rest(r);
                assert(seq![x] + r2 =~= r);
                if kr < x.0.rank() {
                    let h = Some(GroupHeldView::Right(x.0, x.1));
                    lemma_group_general(h, l, r2, Some(kr));
                    lemma_values_above(r, kr, x.0.rank());
                    assert(t + values_at(r, kr) =~= t);
                } else if kr == x.0.rank() {
                    let h = Some(GroupHeldView::Left(k, v, t.push(x.1)));
                    lemma_group_general(h, l, r2, last);
                    assert(values_at(r, kr) == seq![x.1] + values_at(r2, kr));
                    assert(t.push(x.1) + values_at(r2, kr) =~= t + (seq![x.1] + values_at(r2, kr)));
                    lemma_group_from_skip(l, x, r2, kr);
                } else {
                    lemma_group_general(held, l, r2, last);
                    assert(values_at(r, kr) =~= Seq::<Rv>::empty() + values_at(r2, kr));
                    lemma_group_from_skip(l, x, r2, kr);
                }
            }
        },
        Some(GroupHeldView::Right(rk, rv)) => {
            let p = last->Some_0;
            let rkr = rk.rank();
            let big = seq![(rk, rv)] + r;
            assert(big.drop_first() =~= r);
            assert(big[0] == (rk, rv));
            if l.len() > 0 {
                let y = l[0];
                let l2 = l.drop_first();
                let yk = y.0.rank();
                lemma_sorted_rest(l);
                if yk < rkr {
                    lemma_group_general(held, l2, r, Some(yk));
                    assert(all_at_least(big, rkr)) by {
                        assert forall|i: int| 0 <= i < big.len() implies rkr <= #[trigger] big[i].0.rank() by {
                            if i > 0 {
                                assert(big[i] == r[i - 1]);
                            }
                        }
                    }
                    lemma_values_above(big, yk, rkr);
                } else if yk == rkr {
                    let h = Some(GroupHeldView::Left(y.0, y.1, seq![rv]));
                    lemma_group_general(h, l2, r, last);
                    assert(values_at(big, yk) == seq![rv] + values_at(r, yk));
                    lemma_group_from_skip(l2, (rk, rv), r, yk);
                } else {
                    let h = Some(GroupHeldView::Left(y.0, y.1, Seq::<Rv>::empty()));
                    lemma_group_general(h, l2, r, last);
                    assert(values_at(big, yk) =~= Seq::<Rv>::empty() + values_at(r, yk));
                    assert(Seq::<Rv>::empty() + values_at(r, yk) =~= values_at(r, yk));
                    lemma_group_from_skip(l2, (rk, rv), r, yk);
                }
            }
        },
    }
}

/// Grouping two sorted lists gives each left item in order with every right value of its key if
/// it is the first left item of that key, and with no value otherwise; right items whose key no
/// left item has are dropped.
pub proof fn lemma_group_contents<K: SortKey, Lv, Rv>(l: Seq<(K, Lv)>, r: Seq<(K, Rv)>)
    requires
        sorted(l),
        sorted(r),
    ensures
        group_spec(l, r) == group_direct(l, r),
{
    lemma_group_general(None, l, r, None);
}

} // verus!
