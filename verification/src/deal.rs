//! Round-robin dealing: each item goes to the connection at the front of the deal list, which
//! then moves to the back, so that connections take turns in the order they joined.

use vstd::prelude::*;

use crate::collections::linked_slab::LinkedSlab;

verus! {

/// `s` after one turn: the front moves to the back.
pub open spec fn turn(s: Seq<usize>) -> Seq<usize> {
    if s.len() == 0 {
        s
    } else {
        s.drop_first().push(s[0])
    }
}

/// `s` after `j` turns.
pub open spec fn turned(s: Seq<usize>, j: nat) -> Seq<usize>
    decreases j,
{
    if j == 0 {
        s
    } else {
        turn(turned(s, (j - 1) as nat))
    }
}

/// Deals one item: picks the connection at the front of list `M` and moves it to the back.
/// Returns the connection picked, `None` if the list is empty.
pub fn deal_next<T, const N: usize, const M: usize>(slab: &mut LinkedSlab<T, N>) -> (r: Option<
    usize,
>)
    requires
        old(slab).wf(),
        M < N,
    ensures
        final(slab).wf(),
        final(slab).values() == old(slab).values(),
        forall|m: int| 0 <= m < N && m != M ==> #[trigger] final(slab).list(m) == old(slab).list(m),
        r == (if old(slab).list(M as int).len() == 0 {
            None
        } else {
            Some(old(slab).list(M as int)[0])
        }),
        final(slab).list(M as int) == turn(old(slab).list(M as int)),
{
    let key = slab.front::<M>();
    match key {
        Some(k) => {
            slab.refresh::<M>(k);
            proof {
                let s = old(slab).list(M as int);
                assert(s[0] == k);
                assert(s.remove(0) =~= s.drop_first());
            }
        },
        None => {},
    }
    key
}

/// Round robin: over as many deals as there are connections, the `j`-th deal goes to the
/// `j`-th connection of the list, so that each gets exactly one, in order; after them the list
/// is as it was.
pub proof fn lemma_round_robin(s: Seq<usize>)
    ensures
        forall|j: int| 0 <= j < s.len() ==> (#[trigger] turned(s, j as nat))[0] == s[j],
        turned(s, s.len()) == s,
{
    assert forall|j: int| 0 <= j <= s.len() implies #[trigger] turned(s, j as nat) == s.skip(j)
        + s.take(j) by {
        lemma_turned(s, j as nat);
    }
    assert forall|j: int| 0 <= j < s.len() implies (#[trigger] turned(s, j as nat))[0] == s[j] by {
        assert(turned(s, j as nat) == s.skip(j) + s.take(j));
    }
    assert(turned(s, s.len()) == s.skip(s.len() as int) + s.take(s.len() as int));
    assert(s.skip(s.len() as int) + s.take(s.len() as int) =~= s);
}

proof fn lemma_turned(s: Seq<usize>, j: nat)
    requires
        j <= s.len(),
    ensures
        turned(s, j) == s.skip(j as int) + s.take(j as int),
    decreases j,
{
    if j == 0 {
        assert(s.skip(0) + s.take(0) =~= s);
    } else {
        lemma_turned(s, (j - 1) as nat);
        let t = s.skip(j - 1) + s.take(j - 1);
        assert(t[0] == s[j - 1]);
        assert(t.drop_first().push(t[0]) =~= s.skip(j as int) + s.take(j as int));
    }
}

} // verus!
