//! The product, key by key, of two key-sorted streams: every left value with every right value
//! of the same key.
//!
//! While both streams sit at the same key, the values of that key are kept; each new value on one
//! side is yielded together with every kept value of the other side. Once a stream moves past the
//! key, the other one is drained up to the next key.

use vstd::prelude::*;

use super::key::{sorted, strictly_sorted, KeyOrder, SortKey};
use super::zip_sorted::zip_spec;

verus! {

/// Which kept values are being paired with the newest value of the other side, and how far.
#[derive(Clone, Copy, Debug, PartialEq, Eq, Structural)]
pub enum Yielded {
    /// Left values from this index on, with the newest right value.
    Left(usize),
    /// Right values from this index on, with the newest left value.
    Right(usize),
}

/// A stream that has moved past the current key: its next pair, or `None` once it has ended.
#[derive(Debug)]
pub enum Next<K, Lv, Rv> {
    /// The left stream moved on; the right one is drained.
    Left(Option<(K, Lv)>),
    /// The right stream moved on; the left one is drained.
    Right(Option<(K, Rv)>),
}

/// What the merge wants to do next.
#[derive(Clone, Copy, Debug, PartialEq, Eq, Structural)]
pub enum Want {
    /// Yield the next pair of kept values, see [`ProductSorted::produce`].
    Produce,
    /// Poll the left stream; if it is pending and the flag is set, poll the right one instead.
    Left(bool),
    /// Poll the right stream.
    Right,
}

/// The state of the merge with the kept values as sequences.
pub struct ProductView<K, Lv, Rv> {
    /// The current key, what is being yielded, and the stream that moved past the key.
    pub last: Option<(K, Option<Yielded>, Option<Next<K, Lv, Rv>>)>,
    /// The kept left values of the current key.
    pub lv: Seq<Lv>,
    /// The kept right values of the current key.
    pub rv: Seq<Rv>,
}

/// The state after the merged stream ended: the kept values are dropped.
pub open spec fn stopped<K, Lv, Rv>(v: ProductView<K, Lv, Rv>) -> ProductView<K, Lv, Rv> {
    ProductView { last: v.last, lv: Seq::empty(), rv: Seq::empty() }
}

/// The state once the left stream gave `(lk, lx)` and the right one `(rk, rx)`, both past the
/// old key: the smaller key becomes current.
pub open spec fn two_nexts<K: SortKey, Lv, Rv>(lk: K, lx: Lv, rk: K, rx: Rv) -> ProductView<
    K,
    Lv,
    Rv,
> {
    if lk.rank() < rk.rank() {
        ProductView {
            last: Some((lk, None, Some(Next::Right(Some((rk, rx)))))),
            lv: Seq::empty(),
            rv: Seq::empty(),
        }
    } else if lk.rank() == rk.rank() {
        ProductView { last: Some((lk, Some(Yielded::Left(0)), None)), lv: seq![lx], rv: seq![rx] }
    } else {
        ProductView {
            last: Some((rk, None, Some(Next::Left(Some((lk, lx)))))),
            lv: Seq::empty(),
            rv: Seq::empty(),
        }
    }
}

/// What the merge wants to do in state `v`.
pub open spec fn wants_spec<K, Lv, Rv>(v: ProductView<K, Lv, Rv>) -> Want {
    match v.last {
        None => Want::Left(true),
        Some((_, Some(_), _)) => Want::Produce,
        Some((_, None, Some(Next::Left(_)))) => Want::Right,
        Some((_, None, Some(Next::Right(_)))) => Want::Left(false),
        Some((_, None, None)) => Want::Left(true),
    }
}

/// The state after the left stream gave `item`, and whether the merged stream ended.
pub open spec fn product_left<K: SortKey, Lv, Rv>(
    v: ProductView<K, Lv, Rv>,
    item: Option<(K, Lv)>,
) -> (ProductView<K, Lv, Rv>, bool) {
    match v.last {
        None => match item {
            Some((lk, x)) => (ProductView { last: Some((lk, None, None)), lv: v.lv.push(x), rv: v.rv }, false),
            None => (stopped(v), true),
        },
        Some((k, y, None)) => match item {
            Some((lk, x)) => {
                if lk.rank() == k.rank() {
                    (
                        ProductView {
                            last: Some(
                                (k, if v.rv.len() > 0 {
                                    Some(Yielded::Right(0))
                                } else {
                                    y
                                }, None),
                            ),
                            lv: v.lv.push(x),
                            rv: v.rv,
                        },
                        false,
                    )
                } else {
                    (
                        ProductView {
                            last: Some((k, y, Some(Next::Left(Some((lk, x)))))),
                            lv: v.lv,
                            rv: if v.lv.len() == 0 {
                                Seq::empty()
                            } else {
                                v.rv
                            },
                        },
                        false,
                    )
                }
            },
            None => {
                let w = ProductView { last: Some((k, y, Some(Next::Left(None)))), lv: v.lv, rv: v.rv };
                if v.lv.len() == 0 {
                    (stopped(w), true)
                } else {
                    (w, false)
                }
            },
        },
        Some((k, y, Some(Next::Right(rnext)))) => match item {
            Some((lk, x)) => {
                if lk.rank() == k.rank() {
                    if v.rv.len() > 0 {
                        (
                            ProductView {
                                last: Some((k, Some(Yielded::Right(0)), Some(Next::Right(rnext)))),
                                lv: v.lv.push(x),
                                rv: v.rv,
                            },
                            false,
                        )
                    } else {
                        (v, false)
                    }
                } else {
                    match rnext {
                        Some((rk, rx)) => (two_nexts(lk, x, rk, rx), false),
                        None => (stopped(v), true),
                    }
                }
            },
            None => (stopped(v), true),
        },
        Some((_, _, Some(Next::Left(_)))) => (v, false),
    }
}

/// The state after the right stream gave `item`, and whether the merged stream ended.
pub open spec fn product_right<K: SortKey, Lv, Rv>(
    v: ProductView<K, Lv, Rv>,
    item: Option<(K, Rv)>,
) -> (ProductView<K, Lv, Rv>, bool) {
    match v.last {
        None => match item {
            Some((rk, x)) => (ProductView { last: Some((rk, None, None)), lv: v.lv, rv: v.rv.push(x) }, false),
            None => (stopped(v), true),
        },
        Some((k, y, None)) => match item {
            Some((rk, x)) => {
                if rk.rank() == k.rank() {
                    (
                        ProductView {
                            last: Some(
                                (k, if v.lv.len() > 0 {
                                    Some(Yielded::Left(0))
                                } else {
                                    y
                                }, None),
                            ),
                            lv: v.lv,
                            rv: v.rv.push(x),
                        },
                        false,
                    )
                } else {
                    (
                        ProductView {
                            last: Some((k, y, Some(Next::Right(Some((rk, x)))))),
                            lv: if v.rv.len() == 0 {
                                Seq::empty()
                            } else {
                                v.lv
                            },
                            rv: v.rv,
                        },
                        false,
                    )
                }
            },
            None => {
                let w = ProductView { last: Some((k, y, Some(Next::Right(None)))), lv: v.lv, rv: v.rv };
                if v.rv.len() == 0 {
                    (stopped(w), true)
                } else {
                    (w, false)
                }
            },
        },
        Some((k, y, Some(Next::Left(lnext)))) => match item {
            Some((rk, x)) => {
                if rk.rank() == k.rank() {
                    if v.lv.len() > 0 {
                        (
                            ProductView {
                                last: Some((k, Some(Yielded::Left(0)), Some(Next::Left(lnext)))),
                                lv: v.lv,
                                rv: v.rv.push(x),
                            },
                            false,
                        )
                    } else {
                        (v, false)
                    }
                } else {
                    match lnext {
                        Some((lk, lx)) => (two_nexts(lk, lx, rk, x), false),
                        None => (stopped(v), true),
                    }
                }
            },
            None => (stopped(v), true),
        },
        Some((_, _, Some(Next::Right(_)))) => (v, false),
    }
}

/// The state after yielding, and the pair of kept values that is yielded.
pub open spec fn product_produce<K, Lv, Rv>(v: ProductView<K, Lv, Rv>) -> (
    ProductView<K, Lv, Rv>,
    (K, (Lv, Rv)),
) {
    match v.last {
        Some((k, Some(Yielded::Left(i)), n)) => (
            ProductView {
                last: Some((k, if i + 1 == v.lv.len() {
                    None
                } else {
                    Some(Yielded::Left((i + 1) as usize))
                }, n)),
                lv: v.lv,
                rv: v.rv,
            },
            (k, (v.lv[i as int], v.rv.last())),
        ),
        Some((k, Some(Yielded::Right(i)), n)) => (
            ProductView {
                last: Some((k, if i + 1 == v.rv.len() {
                    None
                } else {
                    Some(Yielded::Right((i + 1) as usize))
                }, n)),
                lv: v.lv,
                rv: v.rv,
            },
            (k, (v.lv.last(), v.rv[i as int])),
        ),
        _ => (v, arbitrary()),
    }
}

/// `b` is a clone of `a`, part by part.
pub open spec fn clone_of<K: Clone, Lv: Clone, Rv: Clone>(a: (K, (Lv, Rv)), b: (K, (Lv, Rv))) -> bool {
    cloned(a.0, b.0) && cloned(a.1.0, b.1.0) && cloned(a.1.1, b.1.1)
}

/// The indices of a state are in range and a drained stream has something to pair with.
pub open spec fn product_wf<K, Lv, Rv>(v: ProductView<K, Lv, Rv>) -> bool {
    match v.last {
        None => true,
        Some((_, y, n)) => {
            &&& (y matches Some(Yielded::Left(i)) ==> i < v.lv.len() && v.rv.len() > 0)
            &&& (y matches Some(Yielded::Right(i)) ==> i < v.rv.len() && v.lv.len() > 0)
            &&& (n matches Some(Next::Left(lnext)) ==> lnext is Some || v.lv.len() > 0)
            &&& (n matches Some(Next::Right(rnext)) ==> rnext is Some || v.rv.len() > 0)
        },
    }
}

/// An item polled after the current key was set must not sort before it.
pub open spec fn item_fits<K: SortKey, Lv, Rv, V>(
    v: ProductView<K, Lv, Rv>,
    item: Option<(K, V)>,
) -> bool {
    match (v.last, item) {
        (Some((k, _, _)), Some((ik, _))) => k.rank() <= ik.rank(),
        _ => true,
    }
}

/// How many pairs are left to yield from the kept values.
pub open spec fn yields_left<K, Lv, Rv>(v: ProductView<K, Lv, Rv>) -> nat {
    match v.last {
        Some((_, Some(Yielded::Left(i)), _)) => if i < v.lv.len() {
            (v.lv.len() - i) as nat
        } else {
            1
        },
        Some((_, Some(Yielded::Right(i)), _)) => if i < v.rv.len() {
            (v.rv.len() - i) as nat
        } else {
            1
        },
        _ => 0,
    }
}

/// 1 in the state that reads on from the left stream without having moved past the key.
pub open spec fn undecided<K, Lv, Rv>(v: ProductView<K, Lv, Rv>) -> nat {
    match v.last {
        Some((_, None, None)) => 1,
        _ => 0,
    }
}

/// What the merge yields from state `v` when `l` and `r` are what both streams still give, both
/// always ready.
pub open spec fn product_pending<K: SortKey, Lv, Rv>(
    v: ProductView<K, Lv, Rv>,
    l: Seq<(K, Lv)>,
    r: Seq<(K, Rv)>,
) -> Seq<(K, (Lv, Rv))>
    decreases l.len() + r.len(), yields_left(v), undecided(v),
{
    match wants_spec(v) {
        Want::Produce => {
            if v.last matches Some((_, Some(_), _)) {
                let (w, x) = product_produce(v);
                if yields_left(w) < yields_left(v) && l.len() + r.len() == l.len() + r.len() {
                    seq![x] + product_pending(w, l, r)
                } else {
                    Seq::empty()
                }
            } else {
                Seq::empty()
            }
        },
        Want::Left(_) => {
            if l.len() == 0 {
                let (w, ended) = product_left(v, None);
                if ended {
                    Seq::empty()
                } else if undecided(w) < undecided(v) && yields_left(w) == yields_left(v) {
                    product_pending(w, l, r)
                } else {
                    Seq::empty()
                }
            } else {
                let (w, ended) = product_left(v, Some(l[0]));
                if ended {
                    Seq::empty()
                } else {
                    product_pending(w, l.drop_first(), r)
                }
            }
        },
        Want::Right => {
            if r.len() == 0 {
                Seq::empty()
            } else {
                let (w, ended) = product_right(v, Some(r[0]));
                if ended {
                    Seq::empty()
                } else {
                    product_pending(w, l, r.drop_first())
                }
            }
        },
    }
}

/// The product of two key-sorted lists, as the merged stream yields it when both streams are
/// always ready.
pub open spec fn product_spec<K: SortKey, Lv, Rv>(l: Seq<(K, Lv)>, r: Seq<(K, Rv)>) -> Seq<
    (K, (Lv, Rv)),
> {
    product_pending(ProductView { last: None, lv: Seq::empty(), rv: Seq::empty() }, l, r)
}

/// Two key-sorted streams and the values kept for the current key.
pub struct ProductSorted<L, R, K, Lv, Rv> {
    l: L,
    r: R,
    last: Option<(K, Option<Yielded>, Option<Next<K, Lv, Rv>>)>,
    lv: Vec<Lv>,
    rv: Vec<Rv>,
}

/// The product, key by key, of `l` and `r`.
pub fn product_sorted<L, R, K, Lv, Rv>(l: L, r: R) -> (p: ProductSorted<L, R, K, Lv, Rv>)
    ensures
        p.view() == (ProductView::<K, Lv, Rv> {
            last: None,
            lv: Seq::empty(),
            rv: Seq::empty(),
        }),
        p.left() == l,
        p.right() == r,
{
    ProductSorted { l, r, last: None, lv: Vec::new(), rv: Vec::new() }
}

impl<L, R, K, Lv, Rv> ProductSorted<L, R, K, Lv, Rv> {
    /// The state of the merge.
    pub closed spec fn view(&self) -> ProductView<K, Lv, Rv> {
        ProductView { last: self.last, lv: self.lv@, rv: self.rv@ }
    }

    /// The left stream.
    pub closed spec fn left(&self) -> L {
        self.l
    }

    /// The right stream.
    pub closed spec fn right(&self) -> R {
        self.r
    }

    /// Both streams, to be polled.
    pub fn streams_mut(&mut self) -> (r: (&mut L, &mut R))
        ensures
            *r.0 == old(self).left(),
            *r.1 == old(self).right(),
            final(self).left() == *final(r.0),
            final(self).right() == *final(r.1),
            final(self).view() == old(self).view(),
    {
        (&mut self.l, &mut self.r)
    }

    /// What the merge wants to do next.
    pub fn wants(&self) -> (w: Want)
        ensures
            w == wants_spec(self.view()),
    {
        match &self.last {
            None => Want::Left(true),
            Some((_, Some(_), _)) => Want::Produce,
            Some((_, None, Some(Next::Left(_)))) => Want::Right,
            Some((_, None, Some(Next::Right(_)))) => Want::Left(false),
            Some((_, None, None)) => Want::Left(true),
        }
    }

    /// Whether the indices are in range, so that the merge may go on.
    pub fn is_consistent(&self) -> (r: bool)
        ensures
            r == product_wf(self.view()),
    {
        match &self.last {
            None => true,
            Some((_, y, n)) => {
                let y_ok = match y {
                    Some(Yielded::Left(i)) => *i < self.lv.len() && self.rv.len() > 0,
                    Some(Yielded::Right(i)) => *i < self.rv.len() && self.lv.len() > 0,
                    None => true,
                };
                let n_ok = match n {
                    Some(Next::Left(lnext)) => lnext.is_some() || self.lv.len() > 0,
                    Some(Next::Right(rnext)) => rnext.is_some() || self.rv.len() > 0,
                    None => true,
                };
                y_ok && n_ok
            },
        }
    }

    /// An error from either stream is handed on and drops the kept values.
    pub fn on_error(&mut self)
        ensures
            final(self).view() == stopped(old(self).view()),
            final(self).left() == old(self).left(),
            final(self).right() == old(self).right(),
    {
        self.lv.clear();
        self.rv.clear();
    }

    fn stop(&mut self)
        ensures
            final(self).view() == stopped(old(self).view()),
            final(self).left() == old(self).left(),
            final(self).right() == old(self).right(),
    {
        self.lv.clear();
        self.rv.clear();
    }
}

impl<L, R, K: SortKey, Lv, Rv> ProductSorted<L, R, K, Lv, Rv> {
    /// Whether an item with key `key` may be handed over now: it must not sort before the
    /// current key.
    pub fn fits(&self, key: &K) -> (r: bool)
        ensures
            r == item_fits::<K, Lv, Rv, ()>(self.view(), Some((*key, ()))),
    {
        match &self.last {
            Some((k, _, _)) => key.compare(k) != KeyOrder::Less,
            None => true,
        }
    }
}

impl<L, R, K: SortKey + Clone, Lv: Clone, Rv: Clone> ProductSorted<L, R, K, Lv, Rv> {
    fn set_two_nexts(&mut self, lk: K, lx: Lv, rk: K, rx: Rv)
        ensures
            final(self).view() == two_nexts(lk, lx, rk, rx),
            final(self).left() == old(self).left(),
            final(self).right() == old(self).right(),
    {
        self.lv.clear();
        self.rv.clear();
        match lk.compare(&rk) {
            KeyOrder::Less => {
                self.last = Some((lk, None, Some(Next::Right(Some((rk, rx))))));
            },
            KeyOrder::Equal => {
                self.lv.push(lx);
                self.rv.push(rx);
                self.last = Some((lk, Some(Yielded::Left(0)), None));
            },
            KeyOrder::Greater => {
                self.last = Some((rk, None, Some(Next::Left(Some((lk, lx))))));
            },
        }
        proof {
            assert(self.lv@ =~= two_nexts(lk, lx, rk, rx).lv);
            assert(self.rv@ =~= two_nexts(lk, lx, rk, rx).rv);
        }
    }

    /// Hands over what the left stream gave: `None` once it has ended. Says whether the merged
    /// stream ended.
    pub fn feed_left(&mut self, item: Option<(K, Lv)>) -> (ended: bool)
        requires
            wants_spec(old(self).view()) is Left,
            product_wf(old(self).view()),
            item_fits(old(self).view(), item),
        ensures
            (final(self).view(), ended) == product_left(old(self).view(), item),
            !ended ==> product_wf(final(self).view()),
            final(self).left() == old(self).left(),
            final(self).right() == old(self).right(),
    {
        let last = self.last.take();
        match last {
            None => match item {
                Some((lk, x)) => {
                    self.lv.push(x);
                    self.last = Some((lk, None, None));
                    false
                },
                None => {
                    self.stop();
                    true
                },
            },
            Some((k, y, None)) => match item {
                Some((lk, x)) => {
                    match lk.compare(&k) {
                        KeyOrder::Equal => {
                            self.lv.push(x);
                            let y = if self.rv.len() > 0 {
                                Some(Yielded::Right(0))
                            } else {
                                y
                            };
                            self.last = Some((k, y, None));
                        },
                        _ => {
                            if self.lv.len() == 0 {
                                self.rv.clear();
                            }
                            self.last = Some((k, y, Some(Next::Left(Some((lk, x))))));
                        },
                    }
                    false
                },
                None => {
                    self.last = Some((k, y, Some(Next::Left(None))));
                    if self.lv.len() == 0 {
                        self.stop();
                        true
                    } else {
                        false
                    }
                },
            },
            Some((k, y, Some(Next::Right(rnext)))) => match item {
                Some((lk, x)) => {
                    match lk.compare(&k) {
                        KeyOrder::Equal => {
                            if self.rv.len() > 0 {
                                self.lv.push(x);
                                self.last = Some((k, Some(Yielded::Right(0)), Some(Next::Right(rnext))));
                            } else {
                                self.last = Some((k, y, Some(Next::Right(rnext))));
                            }
                            false
                        },
                        _ => match rnext {
                            Some((rk, rx)) => {
                                self.set_two_nexts(lk, x, rk, rx);
                                false
                            },
                            None => {
                                self.last = Some((k, y, Some(Next::Right(None))));
                                self.stop();
                                true
                            },
                        },
                    }
                },
                None => {
                    self.last = Some((k, y, Some(Next::Right(rnext))));
                    self.stop();
                    true
                },
            },
            Some((k, y, Some(Next::Left(lnext)))) => {
                self.last = Some((k, y, Some(Next::Left(lnext))));
                false
            },
        }
    }

    /// Hands over what the right stream gave: `None` once it has ended. Says whether the merged
    /// stream ended.
    pub fn feed_right(&mut self, item: Option<(K, Rv)>) -> (ended: bool)
        requires
            wants_spec(old(self).view()) == Want::Right || wants_spec(old(self).view())
                == Want::Left(true),
            product_wf(old(self).view()),
            item_fits(old(self).view(), item),
        ensures
            (final(self).view(), ended) == product_right(old(self).view(), item),
            !ended ==> product_wf(final(self).view()),
            final(self).left() == old(self).left(),
            final(self).right() == old(self).right(),
    {
        let last = self.last.take();
        match last {
            None => match item {
                Some((rk, x)) => {
                    self.rv.push(x);
                    self.last = Some((rk, None, None));
                    false
                },
                None => {
                    self.stop();
                    true
                },
            },
            Some((k, y, None)) => match item {
                Some((rk, x)) => {
                    match rk.compare(&k) {
                        KeyOrder::Equal => {
                            self.rv.push(x);
                            let y = if self.lv.len() > 0 {
                                Some(Yielded::Left(0))
                            } else {
                                y
                            };
                            self.last = Some((k, y, None));
                        },
                        _ => {
                            if self.rv.len() == 0 {
                                self.lv.clear();
                            }
                            self.last = Some((k, y, Some(Next::Right(Some((rk, x))))));
                        },
                    }
                    false
                },
                None => {
                    self.last = Some((k, y, Some(Next::Right(None))));
                    if self.rv.len() == 0 {
                        self.stop();
                        true
                    } else {
                        false
                    }
                },
            },
            Some((k, y, Some(Next::Left(lnext)))) => match item {
                Some((rk, x)) => {
                    match rk.compare(&k) {
                        KeyOrder::Equal => {
                            if self.lv.len() > 0 {
                                self.rv.push(x);
                                self.last = Some((k, Some(Yielded::Left(0)), Some(Next::Left(lnext))));
                            } else {
                                self.last = Some((k, y, Some(Next::Left(lnext))));
                            }
                            false
                        },
                        _ => match lnext {
                            Some((lk, lx)) => {
                                self.set_two_nexts(lk, lx, rk, x);
                                false
                            },
                            None => {
                                self.last = Some((k, y, Some(Next::Left(None))));
                                self.stop();
                                true
                            },
                        },
                    }
                },
                None => {
                    self.last = Some((k, y, Some(Next::Left(lnext))));
                    self.stop();
                    true
                },
            },
            Some((k, y, Some(Next::Right(rnext)))) => {
                self.last = Some((k, y, Some(Next::Right(rnext))));
                false
            },
        }
    }

    /// Yields the next pair of kept values, or `None` where the merge has nothing to yield (see
    /// [`Want::Produce`]).
    pub fn produce(&mut self) -> (x: Option<(K, (Lv, Rv))>)
        requires
            product_wf(old(self).view()),
        ensures
            wants_spec(old(self).view()) == Want::Produce ==> {
                &&& final(self).view() == product_produce(old(self).view()).0
                &&& x matches Some(p) && clone_of(product_produce(old(self).view()).1, p)
                &&& product_wf(final(self).view())
            },
            wants_spec(old(self).view()) != Want::Produce ==> x is None && final(self).view()
                == old(self).view(),
            final(self).left() == old(self).left(),
            final(self).right() == old(self).right(),
    {
        let last = self.last.take();
        match last {
            Some((k, Some(Yielded::Left(i)), n)) => {
                assert(i < self.lv.len());
                let kc = k.clone();
                let a = self.lv[i].clone();
                let b = self.rv[self.rv.len() - 1].clone();
                let y = if i + 1 == self.lv.len() {
                    None
                } else {
                    Some(Yielded::Left(i + 1))
                };
                self.last = Some((k, y, n));
                Some((kc, (a, b)))
            },
            Some((k, Some(Yielded::Right(i)), n)) => {
                assert(i < self.rv.len());
                let kc = k.clone();
                let a = self.lv[self.lv.len() - 1].clone();
                let b = self.rv[i].clone();
                let y = if i + 1 == self.rv.len() {
                    None
                } else {
                    Some(Yielded::Right(i + 1))
                };
                self.last = Some((k, y, n));
                Some((kc, (a, b)))
            },
            other => {
                self.last = other;
                None
            },
        }
    }
}

/// Both lists are sorted, and no item still to come sorts before the current key or before the
/// item that its own stream gave past that key.
pub open spec fn product_ordered<K: SortKey, Lv, Rv>(
    v: ProductView<K, Lv, Rv>,
    l: Seq<(K, Lv)>,
    r: Seq<(K, Rv)>,
) -> bool {
    &&& sorted(l)
    &&& sorted(r)
    &&& match v.last {
        None => l.len() > 0 && r.len() > 0 ==> l[0].0.rank() <= r[0].0.rank(),
        Some((k, _, n)) => {
            &&& forall|i: int| 0 <= i < l.len() ==> k.rank() <= #[trigger] l[i].0.rank()
            &&& forall|j: int| 0 <= j < r.len() ==> k.rank() <= #[trigger] r[j].0.rank()
            &&& (n matches Some(Next::Left(Some(p))) ==> forall|i: int|
                0 <= i < l.len() ==> p.0.rank() <= #[trigger] l[i].0.rank())
            &&& (n matches Some(Next::Right(Some(p))) ==> forall|j: int|
                0 <= j < r.len() ==> p.0.rank() <= #[trigger] r[j].0.rank())
        },
    }
}

proof fn lemma_produce_step<K: SortKey, Lv, Rv>(
    v: ProductView<K, Lv, Rv>,
    l: Seq<(K, Lv)>,
    r: Seq<(K, Rv)>,
)
    requires
        wants_spec(v) == Want::Produce,
        product_wf(v),
        product_ordered(v, l, r),
        v.lv.len() <= usize::MAX,
        v.rv.len() <= usize::MAX,
    ensures
        product_pending(v, l, r) == seq![product_produce(v).1] + product_pending(
            product_produce(v).0,
            l,
            r,
        ),
        product_ordered(product_produce(v).0, l, r),
        yields_left(product_produce(v).0) < yields_left(v),
{
}

proof fn lemma_left_step<K: SortKey, Lv, Rv>(
    v: ProductView<K, Lv, Rv>,
    l: Seq<(K, Lv)>,
    r: Seq<(K, Rv)>,
)
    requires
        wants_spec(v) is Left,
        product_wf(v),
        product_ordered(v, l, r),
    ensures
        ({
            let item = if l.len() == 0 {
                None::<(K, Lv)>
            } else {
                Some(l[0])
            };
            let rest = if l.len() == 0 {
                l
            } else {
                l.drop_first()
            };
            let (w, ended) = product_left(v, item);
            &&& item_fits(v, item)
            &&& ended ==> product_pending(v, l, r) == Seq::<(K, (Lv, Rv))>::empty()
            &&& !ended ==> product_pending(v, l, r) == product_pending(w, rest, r)
            &&& !ended ==> product_ordered(w, rest, r)
            &&& (!ended && l.len() == 0) ==> undecided(w) < undecided(v) && yields_left(w)
                == yields_left(v)
        }),
{
    if l.len() > 0 {
        let (w, ended) = product_left(v, Some(l[0]));
        if !ended {
            let rest = l.drop_first();
            assert forall|i: int| 0 <= i < rest.len() implies l[0].0.rank() <= #[trigger] rest[i].0.rank() by {
                assert(rest[i] == l[i + 1]);
            }
            match v.last {
                Some((k, _, Some(Next::Right(Some(rn))))) => {
                    if l[0].0.rank() != k.rank() {
                        assert(r.len() > 0 ==> rn.0.rank() <= r[0].0.rank());
                    }
                },
                None => {
                    assert(r.len() > 0 ==> l[0].0.rank() <= r[0].0.rank());
                },
                _ => {},
            }
        }
    }
}

proof fn lemma_right_step<K: SortKey, Lv, Rv>(
    v: ProductView<K, Lv, Rv>,
    l: Seq<(K, Lv)>,
    r: Seq<(K, Rv)>,
)
    requires
        wants_spec(v) == Want::Right,
        product_wf(v),
        product_ordered(v, l, r),
    ensures
        ({
            let item = if r.len() == 0 {
                None::<(K, Rv)>
            } else {
                Some(r[0])
            };
            let (w, ended) = product_right(v, item);
            &&& item_fits(v, item)
            &&& r.len() == 0 ==> ended
            &&& ended ==> product_pending(v, l, r) == Seq::<(K, (Lv, Rv))>::empty()
            &&& !ended ==> product_pending(v, l, r) == product_pending(w, l, r.drop_first())
            &&& !ended ==> product_ordered(w, l, r.drop_first())
        }),
{
    if r.len() > 0 {
        let (w, ended) = product_right(v, Some(r[0]));
        if !ended {
            let rest = r.drop_first();
            assert forall|j: int| 0 <= j < rest.len() implies r[0].0.rank() <= #[trigger] rest[j].0.rank() by {
                assert(rest[j] == r[j + 1]);
            }
        }
    }
}

/// The product of two key-sorted lists, computed by running the merge with both lists as
/// streams that are always ready: for each right item in order, every left value of its key,
/// in order. The result holds clones of the kept values.
pub fn product_sorted_all<K: SortKey + Clone, Lv: Clone, Rv: Clone>(
    l: Vec<(K, Lv)>,
    r: Vec<(K, Rv)>,
) -> (out: Vec<(K, (Lv, Rv))>)
    requires
        sorted(l@),
        sorted(r@),
        l@.len() > 0 && r@.len() > 0 ==> l@[0].0.rank() <= r@[0].0.rank(),
    ensures
        out@.len() == product_direct(l@, r@).len(),
        forall|i: int| 0 <= i < out@.len() ==> clone_of(product_direct(l@, r@)[i], #[trigger] out@[i]),
{
    proof {
        assert(l@.len() == l.len() && r@.len() == r.len());
        lemma_product_is_direct(l@, r@);
    }
    let ghost spec = product_spec(l@, r@);
    let mut p: ProductSorted<Vec<(K, Lv)>, Vec<(K, Rv)>, K, Lv, Rv> = product_sorted(l, r);
    let mut out: Vec<(K, (Lv, Rv))> = Vec::new();
    let ghost mut done: Seq<(K, (Lv, Rv))> = Seq::empty();
    loop
        invariant_except_break
            done + product_pending(p.view(), p.left()@, p.right()@) == spec,
            out@.len() == done.len(),
            forall|i: int| 0 <= i < out@.len() ==> clone_of(done[i], #[trigger] out@[i]),
            product_wf(p.view()),
            product_ordered(p.view(), p.left()@, p.right()@),
        ensures
            out@.len() == spec.len(),
            forall|i: int| 0 <= i < out@.len() ==> clone_of(spec[i], #[trigger] out@[i]),
        decreases p.left()@.len() + p.right()@.len(), yields_left(p.view()), undecided(p.view()),
    {
        let ghost v = p.view();
        let ghost ls = p.left()@;
        let ghost rs = p.right()@;
        match p.wants() {
            Want::Produce => {
                proof {
                    assert(p.lv@.len() == p.lv.len() && p.rv@.len() == p.rv.len());
                    lemma_produce_step(v, ls, rs);
                }
                let x = p.produce();
                if let Some(x) = x {
                    out.push(x);
                }
                proof {
                    let y = product_produce(v).1;
                    assert(done.push(y) + product_pending(p.view(), ls, rs) =~= done + (seq![y]
                        + product_pending(p.view(), ls, rs)));
                    done = done.push(y);
                }
            },
            Want::Left(_) => {
                proof {
                    lemma_left_step(v, ls, rs);
                }
                let (lq, _) = p.streams_mut();
                let item = if lq.len() == 0 {
                    None
                } else {
                    Some(lq.remove(0))
                };
                proof {
                    if ls.len() > 0 {
                        assert(ls.remove(0) =~= ls.drop_first());
                    }
                }
                let ended = p.feed_left(item);
                if ended {
                    proof {
                        assert(done + Seq::<(K, (Lv, Rv))>::empty() =~= done);
                    }
                    break ;
                }
            },
            Want::Right => {
                proof {
                    lemma_right_step(v, ls, rs);
                }
                let (_, rq) = p.streams_mut();
                let item = if rq.len() == 0 {
                    None
                } else {
                    Some(rq.remove(0))
                };
                proof {
                    if rs.len() > 0 {
                        assert(rs.remove(0) =~= rs.drop_first());
                    }
                }
                let ended = p.feed_right(item);
                if ended {
                    proof {
                        assert(done + Seq::<(K, (Lv, Rv))>::empty() =~= done);
                    }
                    break ;
                }
            },
        }
    }
    out
}

/// The pair that state `v` yields next without reading on, if any.
pub open spec fn produced_now<K, Lv, Rv>(v: ProductView<K, Lv, Rv>) -> Seq<(K, (Lv, Rv))> {
    match v.last {
        Some((k, Some(Yielded::Left(i)), _)) => seq![(k, (v.lv[i as int], v.rv.last()))],
        Some((k, Some(Yielded::Right(i)), _)) => seq![(k, (v.lv.last(), v.rv[i as int]))],
        _ => Seq::empty(),
    }
}

/// The left items that state `v` still stands for: a kept value still unpaired, and the item the
/// left stream gave past the key.
pub open spec fn held_left_items<K, Lv, Rv>(v: ProductView<K, Lv, Rv>) -> Seq<(K, Lv)> {
    match v.last {
        None => Seq::empty(),
        Some((k, _, n)) => (if v.lv.len() > 0 && v.rv.len() == 0 {
            seq![(k, v.lv[0])]
        } else {
            Seq::empty()
        }) + match n {
            Some(Next::Left(Some(p))) => seq![p],
            _ => Seq::empty(),
        },
    }
}

/// The right items that state `v` still stands for.
pub open spec fn held_right_items<K, Lv, Rv>(v: ProductView<K, Lv, Rv>) -> Seq<(K, Rv)> {
    match v.last {
        None => Seq::empty(),
        Some((k, _, n)) => (if v.rv.len() > 0 && v.lv.len() == 0 {
            seq![(k, v.rv[0])]
        } else {
            Seq::empty()
        }) + match n {
            Some(Next::Right(Some(p))) => seq![p],
            _ => Seq::empty(),
        },
    }
}

/// The states that the merge goes through on lists with unique keys on each side, reading the
/// left list first.
pub open spec fn unique_form<K: SortKey, Lv, Rv>(
    v: ProductView<K, Lv, Rv>,
    l: Seq<(K, Lv)>,
    r: Seq<(K, Rv)>,
) -> bool {
    &&& strictly_sorted(l)
    &&& strictly_sorted(r)
    &&& match v.last {
        None => v.lv.len() == 0 && v.rv.len() == 0 && (l.len() > 0 && r.len() > 0 ==> l[0].0.rank()
            <= r[0].0.rank()),
        Some((k, y, n)) => {
            let kr = k.rank();
            &&& v.lv.len() <= 1
            &&& v.rv.len() <= 1
            &&& (y is Some ==> y == Some(Yielded::Left(0)) && v.lv.len() == 1 && v.rv.len() == 1)
            &&& (v.lv.len() == 0 ==> v.rv.len() == 0 && y is None && (n matches Some(
                Next::Left(Some(_)),
            ) || n matches Some(Next::Right(Some(_)))))
            &&& (v.lv.len() == 1 ==> (n is None || n matches Some(Next::Left(_))))
            &&& (v.lv.len() == 1 && v.rv.len() == 0 ==> y is None)
            &&& (n matches Some(Next::Left(Some(p))) ==> kr < p.0.rank() && forall|i: int|
                0 <= i < l.len() ==> p.0.rank() < #[trigger] l[i].0.rank())
            &&& (n matches Some(Next::Right(Some(p))) ==> kr < p.0.rank() && forall|j: int|
                0 <= j < r.len() ==> p.0.rank() < #[trigger] r[j].0.rank())
            &&& (n matches Some(Next::Left(None)) ==> l.len() == 0)
            &&& forall|i: int| 0 <= i < l.len() ==> kr < #[trigger] l[i].0.rank()
            &&& forall|j: int| 0 <= j < r.len() ==> kr <= #[trigger] r[j].0.rank()
            &&& (v.rv.len() == 1 || v.lv.len() == 0) ==> forall|j: int|
                0 <= j < r.len() ==> kr < #[trigger] r[j].0.rank()
        },
    }
}

proof fn lemma_sorted_tail<K: SortKey, V>(s: Seq<(K, V)>)
    requires
        strictly_sorted(s),
        s.len() > 0,
    ensures
        strictly_sorted(s.drop_first()),
        forall|i: int| 0 <= i < s.drop_first().len() ==> s[0].0.rank() < #[trigger] s.drop_first()[i].0.rank(),
{
    assert forall|i: int, j: int| 0 <= i < j < s.drop_first().len() implies s.drop_first()[i].0.rank()
        < s.drop_first()[j].0.rank() by {
        assert(s.drop_first()[i] == s[i + 1] && s.drop_first()[j] == s[j + 1]);
    }
    assert forall|i: int| 0 <= i < s.drop_first().len() implies s[0].0.rank() < #[trigger] s.drop_first()[i].0.rank() by {
        assert(s.drop_first()[i] == s[i + 1]);
    }
}

proof fn lemma_sorted_cons<K: SortKey, V>(x: (K, V), s: Seq<(K, V)>)
    requires
        strictly_sorted(s),
        forall|i: int| 0 <= i < s.len() ==> x.0.rank() < #[trigger] s[i].0.rank(),
    ensures
        strictly_sorted(seq![x] + s),
{
    let t = seq![x] + s;
    assert forall|i: int, j: int| 0 <= i < j < t.len() implies t[i].0.rank() < t[j].0.rank() by {
        if i == 0 {
            assert(t[j] == s[j - 1]);
        } else {
            assert(t[i] == s[i - 1] && t[j] == s[j - 1]);
        }
    }
}

/// `zip_spec` of two lists whose first items have keys in the given order, one step unfolded.
proof fn lemma_zip_head<K: SortKey, Lv, Rv>(a: (K, Lv), l: Seq<(K, Lv)>, b: (K, Rv), r: Seq<(K, Rv)>)
    ensures
        a.0.rank() < b.0.rank() ==> zip_spec(seq![a] + l, seq![b] + r) == zip_spec(l, seq![b] + r),
        a.0.rank() == b.0.rank() ==> zip_spec(seq![a] + l, seq![b] + r) == seq![(a.0, (a.1, b.1))]
            + zip_spec(l, r),
        a.0.rank() > b.0.rank() ==> zip_spec(seq![a] + l, seq![b] + r) == zip_spec(seq![a] + l, r),
{
    assert((seq![a] + l).drop_first() =~= l);
    assert((seq![b] + r).drop_first() =~= r);
    assert((seq![a] + l)[0] == a);
    assert((seq![b] + r)[0] == b);
}

/// What the merge still yields from state `v`, as a zip of the items it stands for.
pub open spec fn unique_pending<K: SortKey, Lv, Rv>(
    v: ProductView<K, Lv, Rv>,
    l: Seq<(K, Lv)>,
    r: Seq<(K, Rv)>,
) -> Seq<(K, (Lv, Rv))> {
    produced_now(v) + zip_spec(held_left_items(v) + l, held_right_items(v) + r)
}

proof fn lemma_two_nexts_unique<K: SortKey, Lv, Rv>(
    a: (K, Lv),
    l: Seq<(K, Lv)>,
    b: (K, Rv),
    r: Seq<(K, Rv)>,
)
    requires
        strictly_sorted(seq![a] + l),
        strictly_sorted(seq![b] + r),
    ensures
        ({
            let w = two_nexts(a.0, a.1, b.0, b.1);
            &&& unique_pending(w, l, r) == zip_spec(seq![a] + l, seq![b] + r)
            &&& unique_form(w, l, r)
            &&& product_wf(w)
        }),
{
    let la = seq![a] + l;
    let rb = seq![b] + r;
    lemma_sorted_tail(la);
    lemma_sorted_tail(rb);
    assert(la.drop_first() =~= l && la[0] == a);
    assert(rb.drop_first() =~= r && rb[0] == b);
    lemma_zip_head(a, l, b, r);
    let w = two_nexts(a.0, a.1, b.0, b.1);
    let e = Seq::<(K, (Lv, Rv))>::empty();
    if a.0.rank() < b.0.rank() {
        assert(held_left_items(w) =~= Seq::<(K, Lv)>::empty());
        assert(held_right_items(w) =~= seq![b]);
        assert(Seq::<(K, Lv)>::empty() + l =~= l);
        assert(e + zip_spec(l, seq![b] + r) =~= zip_spec(l, seq![b] + r));
    } else if a.0.rank() == b.0.rank() {
        assert(held_left_items(w) =~= Seq::<(K, Lv)>::empty());
        assert(held_right_items(w) =~= Seq::<(K, Rv)>::empty());
        assert(Seq::<(K, Lv)>::empty() + l =~= l);
        assert(Seq::<(K, Rv)>::empty() + r =~= r);
        assert(w.lv =~= seq![a.1] && w.rv =~= seq![b.1]);
    } else {
        assert(held_left_items(w) =~= seq![a]);
        assert(held_right_items(w) =~= Seq::<(K, Rv)>::empty());
        assert(Seq::<(K, Rv)>::empty() + r =~= r);
        assert(e + zip_spec(seq![a] + l, r) =~= zip_spec(seq![a] + l, r));
    }
}

proof fn lemma_zip_empty<K: SortKey, Lv, Rv>(l: Seq<(K, Lv)>, r: Seq<(K, Rv)>)
    requires
        l.len() == 0 || r.len() == 0,
    ensures
        zip_spec(l, r) == Seq::<(K, (Lv, Rv))>::empty(),
{
}

proof fn lemma_unique_left_step<K: SortKey, Lv, Rv>(
    v: ProductView<K, Lv, Rv>,
    l: Seq<(K, Lv)>,
    r: Seq<(K, Rv)>,
)
    requires
        wants_spec(v) is Left,
        unique_form(v, l, r),
        product_wf(v),
    ensures
        ({
            let item = if l.len() == 0 {
                None::<(K, Lv)>
            } else {
                Some(l[0])
            };
            let rest = if l.len() == 0 {
                l
            } else {
                l.drop_first()
            };
            let (w, ended) = product_left(v, item);
            &&& ended ==> unique_pending(v, l, r) == Seq::<(K, (Lv, Rv))>::empty()
            &&& !ended ==> unique_pending(v, l, r) == unique_pending(w, rest, r)
            &&& !ended ==> unique_form(w, rest, r) && product_wf(w)
            &&& (!ended && l.len() == 0) ==> undecided(w) < undecided(v) && yields_left(w)
                == yields_left(v)
        }),
{
    let e = Seq::<(K, (Lv, Rv))>::empty();
    let el = Seq::<(K, Lv)>::empty();
    let er = Seq::<(K, Rv)>::empty();
    assert(el + l =~= l);
    assert(er + r =~= r);
    assert(e + zip_spec(el + l, er + r) =~= zip_spec(l, r));
    if l.len() > 0 {
        lemma_sorted_tail(l);
        assert(seq![l[0]] + l.drop_first() =~= l);
    }
    match v.last {
        None => {
            if l.len() > 0 {
                let (w, _) = product_left(v, Some(l[0]));
                assert(w.lv =~= seq![l[0].1]);
                assert(held_left_items(w) =~= seq![(l[0].0, l[0].1)]);
                assert(held_right_items(w) =~= er);
                assert(e + zip_spec(seq![l[0]] + l.drop_first(), er + r) =~= zip_spec(l, r));
                assert forall|j: int| 0 <= j < r.len() implies l[0].0.rank() <= #[trigger] r[j].0.rank() by {
                    assert(r[0].0.rank() <= r[j].0.rank()) by {
                        if j > 0 {
                            assert(r[0].0.rank() < r[j].0.rank());
                        }
                    }
                }
            } else {
                lemma_zip_empty(l, r);
            }
        },
        Some((k, y, None)) => {
            if l.len() > 0 {
                let (w, _) = product_left(v, Some(l[0]));
                assert(l[0].0.rank() != k.rank());
                if v.rv.len() == 0 {
                    assert(held_left_items(v) =~= seq![(k, v.lv[0])]);
                    assert(held_left_items(w) =~= seq![(k, v.lv[0])] + seq![l[0]]);
                    assert(held_left_items(w) + l.drop_first() =~= held_left_items(v) + l);
                } else {
                    assert(held_left_items(v) =~= el);
                    assert(held_left_items(w) =~= seq![l[0]]);
                    assert(held_left_items(w) + l.drop_first() =~= held_left_items(v) + l);
                }
                assert(held_right_items(w) =~= held_right_items(v));
            } else {
                let (w, _) = product_left(v, None);
                assert(held_left_items(w) =~= held_left_items(v));
                assert(held_right_items(w) =~= held_right_items(v));
            }
        },
        Some((k, y, Some(Next::Right(rn)))) => {
            let p = rn->Some_0;
            assert(held_right_items(v) =~= seq![p]);
            assert(held_left_items(v) =~= el);
            if l.len() > 0 {
                assert(l[0].0.rank() != k.rank());
                lemma_sorted_cons(p, r);
                lemma_two_nexts_unique(l[0], l.drop_first(), p, r);
            } else {
                lemma_zip_empty(el + l, held_right_items(v) + r);
            }
        },
        Some((_, _, Some(Next::Left(_)))) => {},
    }
}

proof fn lemma_unique_right_step<K: SortKey, Lv, Rv>(
    v: ProductView<K, Lv, Rv>,
    l: Seq<(K, Lv)>,
    r: Seq<(K, Rv)>,
)
    requires
        wants_spec(v) == Want::Right,
        unique_form(v, l, r),
        product_wf(v),
    ensures
        r.len() == 0 ==> unique_pending(v, l, r) == Seq::<(K, (Lv, Rv))>::empty(),
        r.len() > 0 ==> ({
            let (w, ended) = product_right(v, Some(r[0]));
            &&& ended ==> unique_pending(v, l, r) == Seq::<(K, (Lv, Rv))>::empty()
            &&& !ended ==> unique_pending(v, l, r) == unique_pending(w, l, r.drop_first())
            &&& !ended ==> unique_form(w, l, r.drop_first()) && product_wf(w)
        }),
{
    let e = Seq::<(K, (Lv, Rv))>::empty();
    let el = Seq::<(K, Lv)>::empty();
    let er = Seq::<(K, Rv)>::empty();
    let (k, y, n) = v.last->Some_0;
    let lnext = n->Some_0->Left_0;
    assert(held_right_items(v) =~= er);
    assert(er + r =~= r);
    assert(produced_now(v) =~= e);
    if r.len() == 0 {
        lemma_zip_empty(held_left_items(v) + l, er + r);
        assert(e + zip_spec(held_left_items(v) + l, er + r) =~= e);
    } else {
        let r0 = r[0];
        let r1 = r.drop_first();
        lemma_sorted_tail(r);
        assert(seq![r0] + r1 =~= r);
        let (w, ended) = product_right(v, Some(r0));
        let tail_l = match lnext {
            Some(p) => seq![p],
            None => el,
        };
        if v.lv.len() == 1 && v.rv.len() == 0 {
            assert(held_left_items(v) =~= seq![(k, v.lv[0])] + tail_l);
            assert(held_left_items(v) + l =~= seq![(k, v.lv[0])] + (tail_l + l));
            lemma_zip_head((k, v.lv[0]), tail_l + l, r0, r1);
            if r0.0.rank() == k.rank() {
                assert(w.rv =~= seq![r0.1]);
                assert(held_left_items(w) =~= tail_l);
                assert(held_right_items(w) =~= er);
                assert(er + r1 =~= r1);
                assert(produced_now(w) =~= seq![(k, (v.lv[0], r0.1))]);
            } else {
                match lnext {
                    Some(p) => {
                        assert(tail_l + l =~= seq![p] + l);
                        lemma_sorted_cons(p, l);
                        lemma_two_nexts_unique(p, l, r0, r1);
                    },
                    None => {
                        assert(tail_l + l =~= el);
                        lemma_zip_empty(el, seq![r0] + r1);
                    },
                }
            }
        } else {
            assert(held_left_items(v) =~= tail_l);
            assert(r0.0.rank() != k.rank());
            match lnext {
                Some(p) => {
                    lemma_sorted_cons(p, l);
                    lemma_two_nexts_unique(p, l, r0, r1);
                    assert(e + zip_spec(seq![p] + l, r) =~= zip_spec(seq![p] + l, seq![r0] + r1));
                },
                None => {
                    assert(tail_l + l =~= el);
                    lemma_zip_empty(el, r);
                    assert(e + zip_spec(held_left_items(v) + l, r) =~= e);
                },
            }
        }
    }
}

proof fn lemma_product_unique<K: SortKey, Lv, Rv>(
    v: ProductView<K, Lv, Rv>,
    l: Seq<(K, Lv)>,
    r: Seq<(K, Rv)>,
)
    requires
        unique_form(v, l, r),
        product_wf(v),
    ensures
        product_pending(v, l, r) == unique_pending(v, l, r),
    decreases l.len() + r.len(), yields_left(v), undecided(v),
{
    match wants_spec(v) {
        Want::Produce => {
            let (w, x) = product_produce(v);
            assert(w.lv == v.lv && w.rv == v.rv);
            assert(held_left_items(w) =~= held_left_items(v));
            assert(held_right_items(w) =~= held_right_items(v));
            assert(produced_now(w) =~= Seq::<(K, (Lv, Rv))>::empty());
            assert(produced_now(v) =~= seq![x]);
            lemma_product_unique(w, l, r);
            let z = zip_spec(held_left_items(v) + l, held_right_items(v) + r);
            assert(Seq::<(K, (Lv, Rv))>::empty() + z =~= z);
        },
        Want::Left(_) => {
            lemma_unique_left_step(v, l, r);
            if l.len() == 0 {
                let (w, ended) = product_left(v, None);
                if !ended {
                    lemma_product_unique(w, l, r);
                }
            } else {
                let (w, ended) = product_left(v, Some(l[0]));
                if !ended {
                    lemma_product_unique(w, l.drop_first(), r);
                }
            }
        },
        Want::Right => {
            lemma_unique_right_step(v, l, r);
            if r.len() > 0 {
                let (w, ended) = product_right(v, Some(r[0]));
                if !ended {
                    lemma_product_unique(w, l, r.drop_first());
                }
            }
        },
    }
}

/// Where no key repeats within either list, the product is the zip: each key that both lists
/// have gives exactly one pair. The left list must not start after the right one, as the merge
/// reads the left stream first.
pub proof fn lemma_product_of_unique_keys<K: SortKey, Lv, Rv>(l: Seq<(K, Lv)>, r: Seq<(K, Rv)>)
    requires
        strictly_sorted(l),
        strictly_sorted(r),
        l.len() > 0 && r.len() > 0 ==> l[0].0.rank() <= r[0].0.rank(),
    ensures
        product_spec(l, r) == zip_spec(l, r),
{
    let v = ProductView::<K, Lv, Rv> { last: None, lv: Seq::empty(), rv: Seq::empty() };
    lemma_product_unique(v, l, r);
    let el = Seq::<(K, Lv)>::empty();
    let er = Seq::<(K, Rv)>::empty();
    assert(el + l =~= l);
    assert(er + r =~= r);
    assert(Seq::<(K, (Lv, Rv))>::empty() + zip_spec(l, r) =~= zip_spec(l, r));
}

/// The values of the items of `s` whose key has rank `k`, in order.
pub open spec fn values_at<K: SortKey, V>(s: Seq<(K, V)>, k: int) -> Seq<V>
    decreases s.len(),
{
    if s.len() == 0 {
        Seq::empty()
    } else {
        (if s[0].0.rank() == k {
            seq![s[0].1]
        } else {
            Seq::empty()
        }) + values_at(s.drop_first(), k)
    }
}

/// Every value of `ls`, in order, paired with `b` under key `k`.
pub open spec fn pairs_with<K, Lv, Rv>(k: K, ls: Seq<Lv>, b: Rv) -> Seq<(K, (Lv, Rv))> {
    Seq::new(ls.len(), |i: int| (k, (ls[i], b)))
}

/// The product of `l` and `r` key by key: for every right item in order, every left value of
/// the same key, in order, paired with it.
pub open spec fn product_direct<K: SortKey, Lv, Rv>(l: Seq<(K, Lv)>, r: Seq<(K, Rv)>) -> Seq<
    (K, (Lv, Rv)),
>
    decreases r.len(),
{
    if r.len() == 0 {
        Seq::empty()
    } else {
        pairs_with(r[0].0, values_at(l, r[0].0.rank()), r[0].1) + product_direct(
            l,
            r.drop_first(),
        )
    }
}

/// The values of the leading items of `s` whose key has rank `k`.
spec fn run_values<K: SortKey, V>(s: Seq<(K, V)>, k: int) -> Seq<V>
    decreases s.len(),
{
    if s.len() > 0 && s[0].0.rank() == k {
        seq![s[0].1] + run_values(s.drop_first(), k)
    } else {
        Seq::empty()
    }
}

/// `s` without its leading items whose key has rank `k`.
spec fn rest_after<K: SortKey, V>(s: Seq<(K, V)>, k: int) -> Seq<(K, V)>
    decreases s.len(),
{
    if s.len() > 0 && s[0].0.rank() == k {
        rest_after(s.drop_first(), k)
    } else {
        s
    }
}

/// The values `vals` paired, under key `k`, with each leading item of `r` of the same rank.
spec fn rights_part<K: SortKey, Lv, Rv>(k: K, vals: Seq<Lv>, r: Seq<(K, Rv)>) -> Seq<
    (K, (Lv, Rv)),
>
    decreases r.len(),
{
    if r.len() > 0 && r[0].0.rank() == k.rank() {
        pairs_with(k, vals, r[0].1) + rights_part(k, vals, r.drop_first())
    } else {
        Seq::empty()
    }
}

/// The pairs that state `v` still has to yield from its kept values.
spec fn yield_rest<K, Lv, Rv>(v: ProductView<K, Lv, Rv>) -> Seq<(K, (Lv, Rv))> {
    match v.last {
        Some((k, Some(Yielded::Left(i)), _)) => Seq::new(
            (v.lv.len() - i) as nat,
            |j: int| (k, (v.lv[i + j], v.rv.last())),
        ),
        Some((k, Some(Yielded::Right(i)), _)) => Seq::new(
            (v.rv.len() - i) as nat,
            |j: int| (k, (v.lv.last(), v.rv[i + j])),
        ),
        _ => Seq::empty(),
    }
}

/// What the merge still yields from state `v`, with `l` and `r` still to come, stated key by key.
spec fn expect_from<K: SortKey, Lv, Rv>(
    v: ProductView<K, Lv, Rv>,
    l: Seq<(K, Lv)>,
    r: Seq<(K, Rv)>,
) -> Seq<(K, (Lv, Rv))> {
    match v.last {
        None => product_direct(l, r),
        Some((k, _, n)) => yield_rest(v) + match n {
            None => (if v.rv.len() > 0 {
                pairs_with(k, run_values(l, k.rank()), v.rv.last())
            } else {
                Seq::empty()
            }) + rights_part(k, v.lv + run_values(l, k.rank()), r) + product_direct(
                rest_after(l, k.rank()),
                rest_after(r, k.rank()),
            ),
            Some(Next::Left(ln)) => rights_part(k, v.lv, r) + match ln {
                None => Seq::empty(),
                Some(x) => product_direct(seq![x] + l, rest_after(r, k.rank())),
            },
            Some(Next::Right(rn)) => match rn {
                None => Seq::empty(),
                Some(b) => product_direct(rest_after(l, k.rank()), seq![b] + r),
            },
        },
    }
}

/// The shapes of the states the merge goes through when it reads the left list first.
spec fn general_form<K: SortKey, Lv, Rv>(
    v: ProductView<K, Lv, Rv>,
    l: Seq<(K, Lv)>,
    r: Seq<(K, Rv)>,
) -> bool {
    &&& v.lv.len() + l.len() <= usize::MAX
    &&& v.rv.len() + r.len() <= usize::MAX
    &&& match v.last {
        None => v.lv.len() == 0 && v.rv.len() == 0,
        Some((_, y, n)) => match n {
            None => v.lv.len() >= 1 && v.rv.len() <= 1,
            Some(Next::Left(ln)) => !(y matches Some(Yielded::Right(_))) && (ln is Some ==> l.len()
                + 1 <= usize::MAX),
            Some(Next::Right(rn)) => v.lv.len() == 0 && v.rv.len() == 0 && y is None && (rn is Some
                ==> r.len() + 1 <= usize::MAX),
        },
    }
}

proof fn lemma_direct_empty_left<K: SortKey, Lv, Rv>(r: Seq<(K, Rv)>)
    ensures
        product_direct(Seq::<(K, Lv)>::empty(), r) == Seq::<(K, (Lv, Rv))>::empty(),
    decreases r.len(),
{
    if r.len() > 0 {
        lemma_direct_empty_left::<K, Lv, Rv>(r.drop_first());
        assert(pairs_with(r[0].0, values_at(Seq::<(K, Lv)>::empty(), r[0].0.rank()), r[0].1)
            =~= Seq::<(K, (Lv, Rv))>::empty());
    }
}

proof fn lemma_values_none<K: SortKey, V>(s: Seq<(K, V)>, k: int)
    requires
        forall|i: int| 0 <= i < s.len() ==> #[trigger] s[i].0.rank() != k,
    ensures
        values_at(s, k) == Seq::<V>::empty(),
    decreases s.len(),
{
    if s.len() > 0 {
        assert forall|i: int| 0 <= i < s.drop_first().len() implies #[trigger] s.drop_first()[i].0.rank()
            != k by {
            assert(s.drop_first()[i] == s[i + 1]);
        }
        lemma_values_none(s.drop_first(), k);
        assert(s[0].0.rank() != k);
        assert(Seq::<V>::empty() + Seq::<V>::empty() =~= Seq::<V>::empty());
    }
}

proof fn lemma_sorted_drop<K: SortKey, V>(s: Seq<(K, V)>)
    requires
        sorted(s),
        s.len() > 0,
    ensures
        sorted(s.drop_first()),
        forall|i: int| 0 <= i < s.drop_first().len() ==> s[0].0.rank() <= #[trigger] s.drop_first()[i].0.rank(),
{
    assert forall|i: int, j: int| 0 <= i <= j < s.drop_first().len() implies s.drop_first()[i].0.rank()
        <= s.drop_first()[j].0.rank() by {
        assert(s.drop_first()[i] == s[i + 1] && s.drop_first()[j] == s[j + 1]);
    }
    assert forall|i: int| 0 <= i < s.drop_first().len() implies s[0].0.rank() <= #[trigger] s.drop_first()[i].0.rank() by {
        assert(s.drop_first()[i] == s[i + 1]);
    }
}

/// On a sorted list whose keys are at least `k`, the values of rank `k` are the leading ones.
proof fn lemma_values_run<K: SortKey, V>(s: Seq<(K, V)>, k: int)
    requires
        sorted(s),
        forall|i: int| 0 <= i < s.len() ==> k <= #[trigger] s[i].0.rank(),
    ensures
        values_at(s, k) == run_values(s, k),
    decreases s.len(),
{
    if s.len() > 0 {
        lemma_sorted_drop(s);
        if s[0].0.rank() == k {
            lemma_values_run(s.drop_first(), k);
        } else {
            assert forall|i: int| 0 <= i < s.len() implies #[trigger] s[i].0.rank() != k by {
                assert(s[0].0.rank() <= s[i].0.rank());
            }
            lemma_values_none(s, k);
        }
    }
}

/// Dropping leading left items of rank `k` changes no values of another rank.
proof fn lemma_values_rest_after<K: SortKey, V>(s: Seq<(K, V)>, k: int, k2: int)
    requires
        k != k2,
    ensures
        values_at(s, k2) == values_at(rest_after(s, k), k2),
    decreases s.len(),
{
    if s.len() > 0 && s[0].0.rank() == k {
        lemma_values_rest_after(s.drop_first(), k, k2);
        assert(Seq::<V>::empty() + values_at(s.drop_first(), k2) =~= values_at(s.drop_first(), k2));
    }
}

/// Leading left items of a rank that no right item has pair with nothing.
proof fn lemma_direct_drop_left<K: SortKey, Lv, Rv>(l: Seq<(K, Lv)>, r: Seq<(K, Rv)>, k: int)
    requires
        forall|j: int| 0 <= j < r.len() ==> #[trigger] r[j].0.rank() != k,
    ensures
        product_direct(l, r) == product_direct(rest_after(l, k), r),
    decreases r.len(),
{
    if r.len() > 0 {
        assert(r[0].0.rank() != k);
        lemma_values_rest_after(l, k, r[0].0.rank());
        assert forall|j: int| 0 <= j < r.drop_first().len() implies #[trigger] r.drop_first()[j].0.rank()
            != k by {
            assert(r.drop_first()[j] == r[j + 1]);
        }
        lemma_direct_drop_left(l, r.drop_first(), k);
    }
}

/// Leading right items of a rank that no left item has pair with nothing.
proof fn lemma_direct_drop_right<K: SortKey, Lv, Rv>(l: Seq<(K, Lv)>, r: Seq<(K, Rv)>, k: int)
    requires
        values_at(l, k) == Seq::<Lv>::empty(),
    ensures
        product_direct(l, r) == product_direct(l, rest_after(r, k)),
    decreases r.len(),
{
    if r.len() > 0 && r[0].0.rank() == k {
        lemma_direct_drop_right(l, r.drop_first(), k);
        assert(pairs_with(r[0].0, values_at(l, k), r[0].1) =~= Seq::<(K, (Lv, Rv))>::empty());
        assert(Seq::<(K, (Lv, Rv))>::empty() + product_direct(l, r.drop_first()) =~= product_direct(
            l,
            r.drop_first(),
        ));
    }
}

/// The product splits at the first key of the left list: the right items of that key pair with
/// its left values, and the rest of both lists make the rest.
proof fn lemma_direct_group<K: SortKey, Lv, Rv>(l: Seq<(K, Lv)>, r: Seq<(K, Rv)>)
    requires
        sorted(l),
        sorted(r),
        l.len() > 0,
        forall|j: int| 0 <= j < r.len() ==> l[0].0.rank() <= #[trigger] r[j].0.rank(),
    ensures
        product_direct(l, r) == rights_part(l[0].0, values_at(l, l[0].0.rank()), r)
            + product_direct(rest_after(l, l[0].0.rank()), rest_after(r, l[0].0.rank())),
    decreases r.len(),
{
    let k = l[0].0;
    let kr = k.rank();
    let vals = values_at(l, kr);
    if r.len() == 0 {
        assert(rights_part(k, vals, r) + product_direct(rest_after(l, kr), r) =~= Seq::<
            (K, (Lv, Rv)),
        >::empty());
    } else if r[0].0.rank() == kr {
        lemma_sorted_drop(r);
        K::lemma_rank_injective(r[0].0, k);
        lemma_direct_group(l, r.drop_first());
        assert(pairs_with(k, vals, r[0].1) + (rights_part(k, vals, r.drop_first())
            + product_direct(rest_after(l, kr), rest_after(r, kr))) =~= (pairs_with(k, vals, r[0].1)
            + rights_part(k, vals, r.drop_first())) + product_direct(
            rest_after(l, kr),
            rest_after(r, kr),
        ));
    } else {
        assert forall|j: int| 0 <= j < r.len() implies #[trigger] r[j].0.rank() != kr by {
            assert(r[0].0.rank() <= r[j].0.rank());
        }
        lemma_direct_drop_left(l, r, kr);
        assert(Seq::<(K, (Lv, Rv))>::empty() + product_direct(rest_after(l, kr), r)
            =~= product_direct(rest_after(l, kr), r));
    }
}

proof fn lemma_rights_part_empty<K: SortKey, Lv, Rv>(k: K, r: Seq<(K, Rv)>)
    ensures
        rights_part(k, Seq::<Lv>::empty(), r) == Seq::<(K, (Lv, Rv))>::empty(),
    decreases r.len(),
{
    if r.len() > 0 && r[0].0.rank() == k.rank() {
        lemma_rights_part_empty::<K, Lv, Rv>(k, r.drop_first());
        assert(pairs_with(k, Seq::<Lv>::empty(), r[0].1) =~= Seq::<(K, (Lv, Rv))>::empty());
        assert(Seq::<(K, (Lv, Rv))>::empty() + Seq::<(K, (Lv, Rv))>::empty() =~= Seq::<
            (K, (Lv, Rv)),
        >::empty());
    }
}

/// Once both lists have moved past the current key, the merge goes on as the product of what is
/// left of them.
proof fn lemma_two_nexts_direct<K: SortKey, Lv, Rv>(
    a: (K, Lv),
    l: Seq<(K, Lv)>,
    b: (K, Rv),
    r: Seq<(K, Rv)>,
)
    requires
        sorted(seq![a] + l),
        sorted(seq![b] + r),
    ensures
        expect_from(two_nexts(a.0, a.1, b.0, b.1), l, r) == product_direct(seq![a] + l, seq![b] + r),
{
    let la = seq![a] + l;
    let rb = seq![b] + r;
    let ar = a.0.rank();
    let br = b.0.rank();
    assert(la.drop_first() =~= l);
    assert(rb.drop_first() =~= r);
    assert(la[0] == a && rb[0] == b);
    let v = two_nexts(a.0, a.1, b.0, b.1);
    if ar < br {
        assert forall|j: int| 0 <= j < rb.len() implies #[trigger] rb[j].0.rank() != ar by {
            assert(rb[0].0.rank() <= rb[j].0.rank());
        }
        lemma_direct_drop_left(la, rb, ar);
        assert(yield_rest(v) + product_direct(rest_after(l, ar), rb) =~= product_direct(
            rest_after(l, ar),
            rb,
        ));
    } else if ar > br {
        assert forall|i: int| 0 <= i < la.len() implies #[trigger] la[i].0.rank() != br by {
            assert(la[0].0.rank() <= la[i].0.rank());
        }
        lemma_values_none(la, br);
        lemma_rights_part_empty::<K, Lv, Rv>(b.0, r);
        lemma_direct_drop_right(la, r, br);
        assert(pairs_with(b.0, values_at(la, br), b.1) =~= Seq::<(K, (Lv, Rv))>::empty());
        assert(yield_rest(v) + (rights_part(b.0, Seq::<Lv>::empty(), r) + product_direct(
            la,
            rest_after(r, br),
        )) =~= product_direct(la, rest_after(r, br)));
        assert(product_direct(la, rb) =~= Seq::<(K, (Lv, Rv))>::empty() + product_direct(la, r));
    } else {
        assert forall|j: int| 0 <= j < rb.len() implies ar <= #[trigger] rb[j].0.rank() by {
            assert(rb[0].0.rank() <= rb[j].0.rank());
        }
        assert forall|i: int| 0 <= i < la.len() implies ar <= #[trigger] la[i].0.rank() by {
            assert(la[0].0.rank() <= la[i].0.rank());
        }
        lemma_direct_group(la, rb);
        lemma_values_run(la, ar);
        let run = run_values(l, ar);
        let vals = seq![a.1] + run;
        assert(run_values(la, ar) =~= vals);
        assert(rest_after(la, ar) == rest_after(l, ar));
        assert(rest_after(rb, ar) == rest_after(r, ar));
        assert(rights_part(a.0, vals, rb) == pairs_with(a.0, vals, b.1) + rights_part(a.0, vals, r));
        assert(yield_rest(v) =~= seq![(a.0, (a.1, b.1))]);
        assert(pairs_with(a.0, vals, b.1) =~= seq![(a.0, (a.1, b.1))] + pairs_with(a.0, run, b.1));
        let t = product_direct(rest_after(l, ar), rest_after(r, ar));
        assert(v.lv + run =~= vals);
        assert(yield_rest(v) + (pairs_with(a.0, run, v.rv.last()) + rights_part(a.0, v.lv + run, r) + t)
            =~= (pairs_with(a.0, vals, b.1) + rights_part(a.0, vals, r)) + t);
    }
}

proof fn lemma_sorted_push_front<K: SortKey, V>(x: (K, V), s: Seq<(K, V)>)
    requires
        sorted(s),
        forall|i: int| 0 <= i < s.len() ==> x.0.rank() <= #[trigger] s[i].0.rank(),
    ensures
        sorted(seq![x] + s),
{
    let t = seq![x] + s;
    assert forall|i: int, j: int| 0 <= i <= j < t.len() implies t[i].0.rank() <= t[j].0.rank() by {
        if i == 0 {
            if j > 0 {
                assert(t[j] == s[j - 1]);
            }
        } else {
            assert(t[i] == s[i - 1] && t[j] == s[j - 1]);
        }
    }
}

proof fn lemma_expect_produce<K: SortKey, Lv, Rv>(
    v: ProductView<K, Lv, Rv>,
    l: Seq<(K, Lv)>,
    r: Seq<(K, Rv)>,
)
    requires
        wants_spec(v) == Want::Produce,
        product_wf(v),
        general_form(v, l, r),
    ensures
        expect_from(v, l, r) == seq![product_produce(v).1] + expect_from(product_produce(v).0, l, r),
        general_form(product_produce(v).0, l, r),
{
    let (w, x) = product_produce(v);
    assert(yield_rest(v) =~= seq![x] + yield_rest(w));
    let (k, y, n) = v.last->Some_0;
    let t = match n {
        None => (if v.rv.len() > 0 {
            pairs_with(k, run_values(l, k.rank()), v.rv.last())
        } else {
            Seq::empty()
        }) + rights_part(k, v.lv + run_values(l, k.rank()), r) + product_direct(
            rest_after(l, k.rank()),
            rest_after(r, k.rank()),
        ),
        Some(Next::Left(ln)) => rights_part(k, v.lv, r) + match ln {
            None => Seq::empty(),
            Some(x) => product_direct(seq![x] + l, rest_after(r, k.rank())),
        },
        Some(Next::Right(rn)) => match rn {
            None => Seq::empty(),
            Some(b) => product_direct(rest_after(l, k.rank()), seq![b] + r),
        },
    };
    assert(expect_from(v, l, r) == yield_rest(v) + t);
    assert(expect_from(w, l, r) == yield_rest(w) + t);
    assert((seq![x] + yield_rest(w)) + t =~= seq![x] + (yield_rest(w) + t));
}

proof fn lemma_expect_left_start<K: SortKey, Lv, Rv>(
    v: ProductView<K, Lv, Rv>,
    l: Seq<(K, Lv)>,
    r: Seq<(K, Rv)>,
)
    requires
        v.last is None,
        product_ordered(v, l, r),
        general_form(v, l, r),
        l.len() > 0,
    ensures
        expect_from(v, l, r) == expect_from(product_left(v, Some(l[0])).0, l.drop_first(), r),
        general_form(product_left(v, Some(l[0])).0, l.drop_first(), r),
{
    let e = Seq::<(K, (Lv, Rv))>::empty();
    let (w, ended) = product_left(v, Some(l[0]));
    let l2 = l.drop_first();
    let k = l[0].0;
    let kr = k.rank();
    assert forall|j: int| 0 <= j < r.len() implies kr <= #[trigger] r[j].0.rank() by {
        assert(r[0].0.rank() <= r[j].0.rank());
    }
    assert forall|i: int| 0 <= i < l.len() implies kr <= #[trigger] l[i].0.rank() by {
        assert(l[0].0.rank() <= l[i].0.rank());
    }
    lemma_direct_group(l, r);
    lemma_values_run(l, kr);
    assert(run_values(l, kr) == seq![l[0].1] + run_values(l2, kr));
    assert(rest_after(l, kr) == rest_after(l2, kr));
    assert(w.lv + run_values(l2, kr) =~= seq![l[0].1] + run_values(l2, kr));
    assert(yield_rest(w) =~= e);
    assert(expect_from(w, l2, r) =~= rights_part(k, seq![l[0].1] + run_values(l2, kr), r)
        + product_direct(rest_after(l2, kr), rest_after(r, kr)));
}

proof fn lemma_expect_left_undecided<K: SortKey, Lv, Rv>(
    v: ProductView<K, Lv, Rv>,
    l: Seq<(K, Lv)>,
    r: Seq<(K, Rv)>,
)
    requires
        v.last matches Some((_, None, None)),
        product_wf(v),
        general_form(v, l, r),
    ensures
        ({
            let item = if l.len() == 0 {
                None::<(K, Lv)>
            } else {
                Some(l[0])
            };
            let rest = if l.len() == 0 {
                l
            } else {
                l.drop_first()
            };
            let (w, ended) = product_left(v, item);
            &&& !ended
            &&& expect_from(v, l, r) == expect_from(w, rest, r)
            &&& general_form(w, rest, r)
        }),
{
    let e = Seq::<(K, (Lv, Rv))>::empty();
    let (k, y, n) = v.last->Some_0;
    let kr = k.rank();
    assert(yield_rest(v) =~= e);
    if l.len() == 0 {
        let (w, ended) = product_left(v, None);
        lemma_direct_empty_left::<K, Lv, Rv>(rest_after(r, kr));
        let run = run_values(l, kr);
        assert(run =~= Seq::<Lv>::empty());
        assert(v.lv + run =~= v.lv);
        let pp = if v.rv.len() > 0 {
            pairs_with(k, run, v.rv.last())
        } else {
            e
        };
        assert(pp =~= e);
        assert(rest_after(l, kr) == l);
        let d = product_direct(rest_after(l, kr), rest_after(r, kr));
        assert(l =~= Seq::<(K, Lv)>::empty());
        assert(d == e);
        assert(expect_from(v, l, r) == yield_rest(v) + (pp + rights_part(k, v.lv + run, r) + d));
        assert(expect_from(v, l, r) =~= rights_part(k, v.lv, r));
        assert(yield_rest(w) =~= e);
        assert(expect_from(w, l, r) == yield_rest(w) + (rights_part(k, v.lv, r) + e));
        assert(expect_from(w, l, r) =~= rights_part(k, v.lv, r));
    } else {
        let x = l[0];
        let l2 = l.drop_first();
        let (w, ended) = product_left(v, Some(x));
        if x.0.rank() == kr {
            let run2 = run_values(l2, kr);
            assert(run_values(l, kr) == seq![x.1] + run2);
            assert(rest_after(l, kr) == rest_after(l2, kr));
            assert(v.lv + (seq![x.1] + run2) =~= v.lv.push(x.1) + run2);
            let t = rights_part(k, v.lv.push(x.1) + run2, r) + product_direct(
                rest_after(l2, kr),
                rest_after(r, kr),
            );
            if v.rv.len() > 0 {
                let p = (k, (x.1, v.rv.last()));
                assert(yield_rest(w) =~= seq![p]);
                assert(pairs_with(k, seq![x.1] + run2, v.rv.last()) =~= seq![p] + pairs_with(
                    k,
                    run2,
                    v.rv.last(),
                ));
                assert(expect_from(w, l2, r) == yield_rest(w) + (pairs_with(k, run2, v.rv.last())
                    + t));
                assert(expect_from(v, l, r) == yield_rest(v) + (pairs_with(
                    k,
                    seq![x.1] + run2,
                    v.rv.last(),
                ) + t));
                assert(e + ((seq![p] + pairs_with(k, run2, v.rv.last())) + t) =~= seq![p] + (
                pairs_with(k, run2, v.rv.last()) + t));
            } else {
                assert(yield_rest(w) =~= e);
                assert(expect_from(w, l2, r) =~= t);
                assert(expect_from(v, l, r) =~= t);
            }
        } else {
            assert(run_values(l, kr) =~= Seq::<Lv>::empty());
            assert(rest_after(l, kr) == l);
            assert(v.lv + run_values(l, kr) =~= v.lv);
            assert(pairs_with(k, Seq::<Lv>::empty(), v.rv.last()) =~= e);
            assert(seq![x] + l2 =~= l);
            assert(yield_rest(w) =~= e);
            assert(expect_from(v, l, r) =~= rights_part(k, v.lv, r) + product_direct(
                l,
                rest_after(r, kr),
            ));
            assert(expect_from(w, l2, r) =~= rights_part(k, v.lv, r) + product_direct(
                seq![x] + l2,
                rest_after(r, kr),
            ));
        }
    }
}

proof fn lemma_expect_left_right_next<K: SortKey, Lv, Rv>(
    v: ProductView<K, Lv, Rv>,
    l: Seq<(K, Lv)>,
    r: Seq<(K, Rv)>,
)
    requires
        v.last matches Some((_, None, Some(Next::Right(_)))),
        product_ordered(v, l, r),
        general_form(v, l, r),
    ensures
        ({
            let item = if l.len() == 0 {
                None::<(K, Lv)>
            } else {
                Some(l[0])
            };
            let rest = if l.len() == 0 {
                l
            } else {
                l.drop_first()
            };
            let (w, ended) = product_left(v, item);
            &&& ended ==> expect_from(v, l, r) == Seq::<(K, (Lv, Rv))>::empty()
            &&& !ended ==> expect_from(v, l, r) == expect_from(w, rest, r)
            &&& !ended ==> general_form(w, rest, r)
        }),
{
    let e = Seq::<(K, (Lv, Rv))>::empty();
    let (k, y, n) = v.last->Some_0;
    let rn = n->Some_0->Right_0;
    let kr = k.rank();
    assert(yield_rest(v) =~= e);
    if l.len() == 0 {
        assert(l =~= Seq::<(K, Lv)>::empty());
        if let Some(b) = rn {
            assert(rest_after(l, kr) == l);
            lemma_direct_empty_left::<K, Lv, Rv>(seq![b] + r);
        }
        assert(expect_from(v, l, r) =~= e);
    } else {
        let x = l[0];
        let l2 = l.drop_first();
        let (w, ended) = product_left(v, Some(x));
        if x.0.rank() == kr {
            assert(rest_after(l, kr) == rest_after(l2, kr));
            assert(w == v);
            assert(!ended);
            assert(expect_from(v, l, r) == expect_from(v, l2, r));
            assert(general_form(v, l2, r));
        } else if let Some(b) = rn {
            assert(rest_after(l, kr) == l);
            assert(seq![x] + l2 =~= l);
            lemma_sorted_push_front(b, r);
            lemma_two_nexts_direct(x, l2, b, r);
            assert(expect_from(v, l, r) =~= product_direct(l, seq![b] + r));
            assert(w == two_nexts(x.0, x.1, b.0, b.1));
            assert(general_form(w, l2, r));
        } else {
            assert(ended);
            assert(expect_from(v, l, r) =~= e);
        }
    }
}

proof fn lemma_expect_right<K: SortKey, Lv, Rv>(
    v: ProductView<K, Lv, Rv>,
    l: Seq<(K, Lv)>,
    r: Seq<(K, Rv)>,
)
    requires
        wants_spec(v) == Want::Right,
        product_wf(v),
        product_ordered(v, l, r),
        general_form(v, l, r),
    ensures
        ({
            let item = if r.len() == 0 {
                None::<(K, Rv)>
            } else {
                Some(r[0])
            };
            let rest = if r.len() == 0 {
                r
            } else {
                r.drop_first()
            };
            let (w, ended) = product_right(v, item);
            &&& ended ==> expect_from(v, l, r) == Seq::<(K, (Lv, Rv))>::empty()
            &&& !ended ==> expect_from(v, l, r) == expect_from(w, l, rest)
            &&& !ended ==> general_form(w, l, rest)
        }),
{
    let e = Seq::<(K, (Lv, Rv))>::empty();
    let (k, y, n) = v.last->Some_0;
    let kr = k.rank();
    let ln = n->Some_0->Left_0;
    assert(yield_rest(v) =~= e);
    if r.len() == 0 {
        assert(rights_part(k, v.lv, r) =~= e);
        assert(rest_after(r, kr) == r);
        if let Some(x) = ln {
            assert(product_direct(seq![x] + l, r) =~= e);
        }
        assert(expect_from(v, l, r) =~= e);
    } else {
        let b = r[0];
        let r2 = r.drop_first();
        let (w, ended) = product_right(v, Some(b));
        let tail = match ln {
            None => e,
            Some(x) => product_direct(seq![x] + l, rest_after(r2, kr)),
        };
        if b.0.rank() == kr {
            assert(rest_after(r, kr) == rest_after(r2, kr));
            assert(rights_part(k, v.lv, r) == pairs_with(k, v.lv, b.1) + rights_part(k, v.lv, r2));
            assert(expect_from(v, l, r) =~= e + (rights_part(k, v.lv, r) + tail));
            if v.lv.len() > 0 {
                assert(yield_rest(w) =~= pairs_with(k, v.lv, b.1));
                assert(expect_from(w, l, r2) == yield_rest(w) + (rights_part(k, v.lv, r2) + tail));
                assert(e + ((pairs_with(k, v.lv, b.1) + rights_part(k, v.lv, r2)) + tail)
                    =~= pairs_with(k, v.lv, b.1) + (rights_part(k, v.lv, r2) + tail));
            } else {
                assert(v.lv =~= Seq::<Lv>::empty());
                lemma_rights_part_empty::<K, Lv, Rv>(k, r);
                lemma_rights_part_empty::<K, Lv, Rv>(k, r2);
                assert(expect_from(w, l, r2) =~= e + (rights_part(k, v.lv, r2) + tail));
            }
        } else {
            assert(rights_part(k, v.lv, r) =~= e);
            assert(rest_after(r, kr) == r);
            if let Some(x) = ln {
                lemma_sorted_push_front(x, l);
                assert(seq![b] + r2 =~= r);
                lemma_two_nexts_direct(x, l, b, r2);
                assert(expect_from(v, l, r) =~= e + (e + product_direct(seq![x] + l, r)));
            } else {
                assert(expect_from(v, l, r) =~= e + (e + e));
            }
        }
    }
}

proof fn lemma_product_general<K: SortKey, Lv, Rv>(
    v: ProductView<K, Lv, Rv>,
    l: Seq<(K, Lv)>,
    r: Seq<(K, Rv)>,
)
    requires
        product_wf(v),
        product_ordered(v, l, r),
        general_form(v, l, r),
    ensures
        product_pending(v, l, r) == expect_from(v, l, r),
    decreases l.len() + r.len(), yields_left(v), undecided(v),
{
    match wants_spec(v) {
        Want::Produce => {
            lemma_produce_step(v, l, r);
            lemma_expect_produce(v, l, r);
            lemma_product_general(product_produce(v).0, l, r);
        },
        Want::Left(_) => {
            lemma_left_step(v, l, r);
            let item = if l.len() == 0 {
                None::<(K, Lv)>
            } else {
                Some(l[0])
            };
            let rest = if l.len() == 0 {
                l
            } else {
                l.drop_first()
            };
            let (w, ended) = product_left(v, item);
            match v.last {
                None => {
                    if l.len() == 0 {
                        assert(l =~= Seq::<(K, Lv)>::empty());
                        lemma_direct_empty_left::<K, Lv, Rv>(r);
                    } else {
                        lemma_expect_left_start(v, l, r);
                    }
                },
                Some((_, _, None)) => lemma_expect_left_undecided(v, l, r),
                _ => lemma_expect_left_right_next(v, l, r),
            }
            if !ended {
                lemma_product_general(w, rest, r);
            }
        },
        Want::Right => {
            lemma_right_step(v, l, r);
            lemma_expect_right(v, l, r);
            if r.len() > 0 {
                let (w, ended) = product_right(v, Some(r[0]));
                if !ended {
                    lemma_product_general(w, l, r.drop_first());
                }
            }
        },
    }
}

/// The product of two sorted lists, when the left one does not start after the right one: for
/// each right item in order, every left value of the same key, in order, paired with it; keys
/// that only one list has give nothing.
pub proof fn lemma_product_is_direct<K: SortKey, Lv, Rv>(l: Seq<(K, Lv)>, r: Seq<(K, Rv)>)
    requires
        sorted(l),
        sorted(r),
        l.len() > 0 && r.len() > 0 ==> l[0].0.rank() <= r[0].0.rank(),
        l.len() <= usize::MAX,
        r.len() <= usize::MAX,
    ensures
        product_spec(l, r) == product_direct(l, r),
{
    let v = ProductView::<K, Lv, Rv> { last: None, lv: Seq::empty(), rv: Seq::empty() };
    lemma_product_general(v, l, r);
}

} // verus!
