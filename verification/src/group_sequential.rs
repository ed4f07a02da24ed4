//! Groups the runs of consecutive items of a stream that share a key.
//!
//! Each group holds the key of its first item and the values of the run, in order; a group is
//! yielded once an item with another key arrives, or once the stream ends.

use vstd::prelude::*;

use crate::merge::key::KeyEq;
use crate::merge::zip_sorted::Step;

verus! {

/// The groups that come out of a grouping that holds `cur` when `s` is still to be read.
pub open spec fn groups_from<K: KeyEq, V>(cur: Option<(K, Seq<V>)>, s: Seq<(K, V)>) -> Seq<
    (K, Seq<V>),
>
    decreases s.len(),
{
    if s.len() == 0 {
        match cur {
            None => Seq::empty(),
            Some(g) => seq![g],
        }
    } else {
        let (k, v) = s[0];
        match cur {
            None => groups_from(Some((k, seq![v])), s.drop_first()),
            Some((ck, t)) => if k.same(&ck) {
                groups_from(Some((ck, t.push(v))), s.drop_first())
            } else {
                seq![(ck, t)] + groups_from(Some((k, seq![v])), s.drop_first())
            },
        }
    }
}

/// The runs of consecutive items of `s` that share the key of the run's first item.
pub open spec fn groups_of<K: KeyEq, V>(s: Seq<(K, V)>) -> Seq<(K, Seq<V>)> {
    groups_from(None, s)
}

/// The groups with their values as sequences.
pub open spec fn group_seqs<K, V>(out: Seq<(K, Vec<V>)>) -> Seq<(K, Seq<V>)> {
    out.map_values(|g: (K, Vec<V>)| (g.0, g.1@))
}

/// The group being gathered.
pub struct GroupSequential<K, V> {
    current: Option<(K, Vec<V>)>,
}

impl<K: KeyEq, V> GroupSequential<K, V> {
    /// The group being gathered, with its values as a sequence.
    pub closed spec fn current(&self) -> Option<(K, Seq<V>)> {
        match self.current {
            None => None,
            Some((k, t)) => Some((k, t@)),
        }
    }

    /// Nothing gathered yet.
    pub fn new() -> (g: Self)
        ensures
            g.current() is None,
    {
        GroupSequential { current: None }
    }

    /// Whether a group is being gathered.
    pub fn has_current(&self) -> (r: bool)
        ensures
            r == self.current() is Some,
    {
        self.current.is_some()
    }

    /// Hands over what the stream gave: `None` once it has ended.
    pub fn feed(&mut self, item: Option<(K, V)>) -> (r: Step<(K, Vec<V>)>)
        ensures
            item is None ==> match old(self).current() {
                None => r is End && final(self).current() is None,
                Some(g) => r matches Step::Yield(y) && (y.0, y.1@) == g
                    && final(self).current() is None,
            },
            item matches Some(x) ==> match old(self).current() {
                None => r is Continue && final(self).current() == Some((x.0, seq![x.1])),
                Some((ck, t)) => if x.0.same(&ck) {
                    r is Continue && final(self).current() == Some((ck, t.push(x.1)))
                } else {
                    r matches Step::Yield(y) && (y.0, y.1@) == (ck, t) && final(self).current()
                        == Some((x.0, seq![x.1]))
                },
            },
    {
        match item {
            None => match self.current.take() {
                None => Step::End,
                Some(g) => Step::Yield(g),
            },
            Some((k, v)) => match self.current.take() {
                None => {
                    let mut t = Vec::new();
                    t.push(v);
                    proof {
                        assert(t@ =~= seq![v]);
                    }
                    self.current = Some((k, t));
                    Step::Continue
                },
                Some((ck, mut t)) => {
                    if k.same_key(&ck) {
                        t.push(v);
                        self.current = Some((ck, t));
                        Step::Continue
                    } else {
                        let mut n = Vec::new();
                        n.push(v);
                        proof {
                            assert(n@ =~= seq![v]);
                        }
                        self.current = Some((k, n));
                        Step::Yield((ck, t))
                    }
                },
            },
        }
    }
}

/// The groups that a step yields.
pub open spec fn group_yielded<K, V>(step: Step<(K, Vec<V>)>) -> Seq<(K, Seq<V>)> {
    match step {
        Step::Yield(y) => seq![(y.0, y.1@)],
        _ => Seq::empty(),
    }
}

/// Groups the runs of `items` that share a key, running the grouping with `items` as a stream
/// that is always ready.
pub fn group_sequential_all<K: KeyEq, V>(items: Vec<(K, V)>) -> (out: Vec<(K, Vec<V>)>)
    ensures
        group_seqs(out@) == groups_of(items@),
{
    let ghost all = items@;
    let mut rest = items;
    let mut g: GroupSequential<K, V> = GroupSequential::new();
    let mut out: Vec<(K, Vec<V>)> = Vec::new();
    proof {
        assert(group_seqs(out@) =~= Seq::<(K, Seq<V>)>::empty());
        assert(Seq::<(K, Seq<V>)>::empty() + groups_from(None, all) =~= groups_from(None, all));
    }
    loop
        invariant_except_break
            group_seqs(out@) + groups_from(g.current(), rest@) == groups_of(all),
        ensures
            group_seqs(out@) == groups_of(all),
        decreases rest@.len(), if g.current() is Some {
            1int
        } else {
            0int
        },
    {
        let ghost o = group_seqs(out@);
        let ghost c = g.current();
        let ghost rs = rest@;
        let item = if rest.len() == 0 {
            None
        } else {
            Some(rest.remove(0))
        };
        proof {
            if rs.len() > 0 {
                assert(rs.remove(0) =~= rs.drop_first());
            }
        }
        let step = g.feed(item);
        let ghost y = group_yielded(step);
        match step {
            Step::Yield(x) => {
                out.push(x);
            },
            Step::End => {
                proof {
                    assert(o + Seq::<(K, Seq<V>)>::empty() =~= o);
                }
                break ;
            },
            Step::Continue => {},
        }
        proof {
            assert(group_seqs(out@) =~= o + y);
            if rs.len() == 0 {
                assert(rest@.len() == 0);
                assert(o + (y + groups_from(g.current(), rest@)) =~= group_seqs(out@) + groups_from(
                    g.current(),
                    rest@,
                ));
            } else {
                assert(o + (y + groups_from(g.current(), rest@)) =~= group_seqs(out@) + groups_from(
                    g.current(),
                    rest@,
                ));
            }
        }
    }
    out
}

/// The values of `gs`, group after group.
pub open spec fn group_values<K, V>(gs: Seq<(K, Seq<V>)>) -> Seq<V>
    decreases gs.len(),
{
    if gs.len() == 0 {
        Seq::empty()
    } else {
        gs[0].1 + group_values(gs.drop_first())
    }
}

/// The values of `s`, in order.
pub open spec fn item_values<K, V>(s: Seq<(K, V)>) -> Seq<V> {
    s.map_values(|x: (K, V)| x.1)
}

/// `cur` holds a group without values.
pub open spec fn empty_group<K, V>(cur: Option<(K, Seq<V>)>) -> bool {
    match cur {
        Some(g) => g.1.len() == 0,
        None => false,
    }
}

proof fn lemma_group_values_from<K: KeyEq, V>(cur: Option<(K, Seq<V>)>, s: Seq<(K, V)>)
    ensures
        group_values(groups_from(cur, s)) == (match cur {
            None => Seq::<V>::empty(),
            Some(g) => g.1,
        }) + item_values(s),
        forall|i: int|
            0 <= i < groups_from(cur, s).len() ==> #[trigger] groups_from(cur, s)[i].1.len() > 0
                || (i == 0 && empty_group(cur)),
    decreases s.len(),
{
    let cv = match cur {
        None => Seq::<V>::empty(),
        Some(g) => g.1,
    };
    if s.len() == 0 {
        match cur {
            None => {},
            Some(g) => {
                assert(seq![g].drop_first() =~= Seq::<(K, Seq<V>)>::empty());
                assert(g.1 + Seq::<V>::empty() =~= g.1);
            },
        }
        assert(item_values(s) =~= Seq::<V>::empty());
        assert(cv + item_values(s) =~= cv);
        assert(group_values(Seq::<(K, Seq<V>)>::empty()) =~= Seq::<V>::empty());
    } else {
        let (k, v) = s[0];
        let rest = s.drop_first();
        assert(item_values(s) =~= seq![v] + item_values(rest));
        match cur {
            None => {
                lemma_group_values_from(Some((k, seq![v])), rest);
                assert(groups_from(cur, s) == groups_from(Some((k, seq![v])), rest));
                assert(Seq::<V>::empty() + (seq![v] + item_values(rest)) =~= seq![v] + item_values(
                    rest,
                ));
            },
            Some((ck, t)) => {
                if k.same(&ck) {
                    lemma_group_values_from(Some((ck, t.push(v))), rest);
                    assert(groups_from(cur, s) == groups_from(Some((ck, t.push(v))), rest));
                    assert(t.push(v) + item_values(rest) =~= t + (seq![v] + item_values(rest)));
                } else {
                    let tail = groups_from(Some((k, seq![v])), rest);
                    lemma_group_values_from(Some((k, seq![v])), rest);
                    let gs = seq![(ck, t)] + tail;
                    assert(gs[0] == (ck, t));
                    assert(gs.drop_first() =~= tail);
                    assert(group_values(gs) == gs[0].1 + group_values(gs.drop_first()));
                    assert(group_values(tail) == seq![v] + item_values(rest));
                    assert(groups_from(cur, s) == gs);
                    assert(t + (seq![v] + item_values(rest)) =~= t + item_values(s));
                    assert forall|i: int| 0 <= i < gs.len() implies #[trigger] gs[i].1.len() > 0
                        || (i == 0 && empty_group(cur)) by {
                        if i > 0 {
                            assert(gs[i] == tail[i - 1]);
                        }
                    }
                }
            },
        }
    }
}

/// Grouping loses no value and reorders none: the values of the groups, group after group, are
/// the values of the items; and no group is empty.
pub proof fn lemma_groups_keep_values<K: KeyEq, V>(s: Seq<(K, V)>)
    ensures
        group_values(groups_of(s)) == item_values(s),
        forall|i: int| 0 <= i < groups_of(s).len() ==> #[trigger] groups_of(s)[i].1.len() > 0,
{
    lemma_group_values_from(None, s);
    assert(Seq::<V>::empty() + item_values(s) =~= item_values(s));
}

proof fn lemma_groups_split_from<K: KeyEq, V>(cur: Option<(K, Seq<V>)>, s: Seq<(K, V)>)
    ensures
        ({
            let gs = groups_from(cur, s);
            &&& cur matches Some(g) ==> gs.len() > 0 && gs[0].0 == g.0
            &&& forall|i: int| 0 <= i < gs.len() - 1 ==> !(#[trigger] gs[i + 1].0).same(&gs[i].0)
        }),
    decreases s.len(),
{
    if s.len() == 0 {
        match cur {
            None => {},
            Some(g) => {
                assert(groups_from(cur, s) == seq![g]);
            },
        }
    } else {
        let (k, v) = s[0];
        let rest = s.drop_first();
        match cur {
            None => {
                lemma_groups_split_from(Some((k, seq![v])), rest);
            },
            Some((ck, t)) => {
                if k.same(&ck) {
                    lemma_groups_split_from(Some((ck, t.push(v))), rest);
                } else {
                    let tail = groups_from(Some((k, seq![v])), rest);
                    lemma_groups_split_from(Some((k, seq![v])), rest);
                    let gs = seq![(ck, t)] + tail;
                    assert(groups_from(cur, s) == gs);
                    assert forall|i: int| 0 <= i < gs.len() - 1 implies !(#[trigger] gs[i + 1].0).same(
                        &gs[i].0,
                    ) by {
                        if i == 0 {
                            assert(gs[1] == tail[0]);
                        } else {
                            let j = i - 1;
                            assert(gs[i] == tail[j] && gs[i + 1] == tail[j + 1]);
                            assert(!(tail[j + 1].0).same(&tail[j].0));
                        }
                    }
                }
            },
        }
    }
}

/// A new group starts exactly where the key changes: the key of every group differs from the
/// key of the group before it.
pub proof fn lemma_groups_split_on_key_change<K: KeyEq, V>(s: Seq<(K, V)>)
    ensures
        forall|i: int|
            0 <= i < groups_of(s).len() - 1 ==> !(#[trigger] groups_of(s)[i + 1].0).same(
                &groups_of(s)[i].0,
            ),
{
    lemma_groups_split_from(None, s);
}

/// The key of each value of the groups: the group's key, once for every value it holds.
pub open spec fn group_keys<K, V>(gs: Seq<(K, Seq<V>)>) -> Seq<K>
    decreases gs.len(),
{
    if gs.len() == 0 {
        Seq::empty()
    } else {
        Seq::new(gs[0].1.len(), |i: int| gs[0].0) + group_keys(gs.drop_first())
    }
}

proof fn lemma_group_keys_from<K: KeyEq, V>(cur: Option<(K, Seq<V>)>, s: Seq<(K, V)>)
    ensures
        ({
            let held = match cur {
                None => Seq::<K>::empty(),
                Some(g) => Seq::new(g.1.len(), |i: int| g.0),
            };
            let gk = group_keys(groups_from(cur, s));
            &&& gk.len() == held.len() + s.len()
            &&& gk.subrange(0, held.len() as int) == held
            &&& forall|i: int| 0 <= i < s.len() ==> (#[trigger] s[i]).0.same(&gk[held.len() + i])
        }),
    decreases s.len(),
{
    let held = match cur {
        None => Seq::<K>::empty(),
        Some(g) => Seq::new(g.1.len(), |i: int| g.0),
    };
    let gk = group_keys(groups_from(cur, s));
    if s.len() == 0 {
        match cur {
            None => {},
            Some(g) => {
                let gs = seq![g];
                assert(groups_from(cur, s) == gs);
                assert(gs.drop_first() =~= Seq::<(K, Seq<V>)>::empty());
                assert(group_keys(gs.drop_first()) =~= Seq::<K>::empty());
                assert(gk == Seq::new(g.1.len(), |i: int| g.0) + group_keys(gs.drop_first()));
                assert(gk =~= held);
            },
        }
        assert(gk.subrange(0, held.len() as int) =~= held);
    } else {
        let (k, v) = s[0];
        let rest = s.drop_first();
        K::lemma_same_reflexive(k);
        match cur {
            None => {
                let c2 = Some((k, seq![v]));
                lemma_group_keys_from(c2, rest);
                let h2 = Seq::new(1, |i: int| k);
                assert forall|i: int| 0 <= i < s.len() implies (#[trigger] s[i]).0.same(
                    &gk[held.len() + i],
                ) by {
                    if i > 0 {
                        assert(s[i] == rest[i - 1]);
                    } else {
                        assert(gk.subrange(0, 1)[0] == h2[0]);
                    }
                }
                assert(gk.subrange(0, held.len() as int) =~= held);
            },
            Some((ck, t)) => {
                if k.same(&ck) {
                    let c2 = Some((ck, t.push(v)));
                    lemma_group_keys_from(c2, rest);
                    let h2 = Seq::new(t.len() + 1, |i: int| ck);
                    assert(gk.subrange(0, held.len() as int) =~= held) by {
                        assert forall|i: int| 0 <= i < held.len() implies gk.subrange(
                            0,
                            held.len() as int,
                        )[i] == held[i] by {
                            assert(gk.subrange(0, h2.len() as int)[i] == h2[i]);
                        }
                    }
                    assert forall|i: int| 0 <= i < s.len() implies (#[trigger] s[i]).0.same(
                        &gk[held.len() + i],
                    ) by {
                        if i > 0 {
                            assert(s[i] == rest[i - 1]);
                        } else {
                            assert(gk.subrange(0, h2.len() as int)[t.len() as int] == h2[t.len() as int]);
                        }
                    }
                } else {
                    let c2 = Some((k, seq![v]));
                    let tail = groups_from(c2, rest);
                    lemma_group_keys_from(c2, rest);
                    let gs = seq![(ck, t)] + tail;
                    assert(groups_from(cur, s) == gs);
                    assert(gs[0] == (ck, t));
                    assert(gs.drop_first() =~= tail);
                    let tk = group_keys(tail);
                    assert(gk == held + tk);
                    let h2 = Seq::new(1, |i: int| k);
                    assert(gk.subrange(0, held.len() as int) =~= held);
                    assert forall|i: int| 0 <= i < s.len() implies (#[trigger] s[i]).0.same(
                        &gk[held.len() + i],
                    ) by {
                        assert(gk[held.len() + i] == tk[i]);
                        if i > 0 {
                            assert(s[i] == rest[i - 1]);
                        } else {
                            assert(tk.subrange(0, 1)[0] == h2[0]);
                        }
                    }
                }
            },
        }
    }
}

/// Every value of a group was read under a key that counts as the same as the group's key:
/// the keys of the groups, repeated once per value, line up with the keys of the items.
pub proof fn lemma_groups_share_key<K: KeyEq, V>(s: Seq<(K, V)>)
    ensures
        group_keys(groups_of(s)).len() == s.len(),
        forall|i: int| 0 <= i < s.len() ==> (#[trigger] s[i]).0.same(&group_keys(groups_of(s))[i]),
{
    lemma_group_keys_from(None, s);
}

} // verus!
