//! A slab of values where every value may additionally sit in up to `N` ordered lists.
//!
//! Keys are handed out by [`LinkedSlab::insert`] and stay valid until [`LinkedSlab::remove`].
//! List `M` is a FIFO queue of keys without repetitions: [`LinkedSlab::link_push`] appends a key
//! that is present and not yet in the list, [`LinkedSlab::link_pop`] takes the oldest one.
//! Removing a value also takes its key out of every list.

use vstd::prelude::*;

verus! {

/// Marks a missing neighbour in a [`Link`].
pub const EMPTY: usize = usize::MAX;

/// Neighbours of a key in one list, or the last and first key of the whole list.
#[derive(Clone, Copy, Debug, PartialEq, Eq, Structural)]
struct Link {
    prev: usize,
    next: usize,
}

impl Link {
    /// A link whose both ends point at `key`.
    fn new(key: usize) -> (link: Link)
        ensures
            link.prev == key,
            link.next == key,
    {
        Link { prev: key, next: key }
    }

    /// A link with no neighbours.
    fn empty() -> (link: Link)
        ensures
            link == empty_link(),
    {
        Link::new(EMPTY)
    }
}

spec fn empty_link() -> Link {
    Link { prev: EMPTY, next: EMPTY }
}

/// The key before position `i` of a list, or [`EMPTY`] at the front.
spec fn prev_of(s: Seq<usize>, i: int) -> usize {
    if i == 0 {
        EMPTY
    } else {
        s[i - 1]
    }
}

/// The key after position `i` of a list, or [`EMPTY`] at the back.
spec fn next_of(s: Seq<usize>, i: int) -> usize {
    if i + 1 == s.len() {
        EMPTY
    } else {
        s[i + 1]
    }
}

/// The link stored for a whole list: its last key and its first key.
spec fn head_of(s: Seq<usize>) -> Link {
    if s.len() == 0 {
        empty_link()
    } else {
        Link { prev: s.last(), next: s[0] }
    }
}

/// The node link of the key at position `i` of a list.
spec fn node_link(s: Seq<usize>, i: int) -> Link {
    Link { prev: prev_of(s, i), next: next_of(s, i) }
}

/// The list `s` with every occurrence of `k` taken out.
pub open spec fn without(s: Seq<usize>, k: usize) -> Seq<usize>
    decreases s.len(),
{
    if s.len() == 0 {
        s
    } else if s.last() == k {
        without(s.drop_last(), k)
    } else {
        without(s.drop_last(), k).push(s.last())
    }
}

/// List `s` after pushing `key`, `stored` being the keys that hold values: a key is queued only
/// if it holds a value and is not queued yet.
pub open spec fn list_pushed(s: Seq<usize>, stored: Set<usize>, key: usize) -> Seq<usize> {
    if stored.contains(key) && !s.contains(key) {
        s.push(key)
    } else {
        s
    }
}

/// List `s` after a pop, and the key popped: the oldest one.
pub open spec fn list_popped(s: Seq<usize>) -> (Seq<usize>, Option<usize>) {
    if s.len() == 0 {
        (s, None)
    } else {
        (s.drop_first(), Some(s[0]))
    }
}

/// List `s` after pushing each of `keys` in order.
pub open spec fn list_pushed_all(s: Seq<usize>, stored: Set<usize>, keys: Seq<usize>) -> Seq<
    usize,
>
    decreases keys.len(),
{
    if keys.len() == 0 {
        s
    } else {
        list_pushed_all(list_pushed(s, stored, keys[0]), stored, keys.drop_first())
    }
}

/// The keys that `n` pops from list `s` give, in order.
pub open spec fn list_popped_n(s: Seq<usize>, n: nat) -> Seq<usize>
    decreases n,
{
    if n == 0 {
        Seq::empty()
    } else {
        match list_popped(s).1 {
            Some(k) => seq![k] + list_popped_n(list_popped(s).0, (n - 1) as nat),
            None => Seq::empty(),
        }
    }
}

proof fn lemma_pushed_all(s: Seq<usize>, stored: Set<usize>, keys: Seq<usize>)
    requires
        (s + keys).no_duplicates(),
        forall|i: int| 0 <= i < keys.len() ==> stored.contains(#[trigger] keys[i]),
    ensures
        list_pushed_all(s, stored, keys) == s + keys,
    decreases keys.len(),
{
    if keys.len() == 0 {
        assert(s + keys =~= s);
    } else {
        let k = keys[0];
        assert(!s.contains(k)) by {
            if s.contains(k) {
                let j = choose|j: int| 0 <= j < s.len() && s[j] == k;
                assert((s + keys)[j] == (s + keys)[s.len() as int]);
            }
        }
        assert(s.push(k) + keys.drop_first() =~= s + keys);
        assert forall|i: int| 0 <= i < keys.drop_first().len() implies stored.contains(
            #[trigger] keys.drop_first()[i],
        ) by {
            assert(keys.drop_first()[i] == keys[i + 1]);
        }
        lemma_pushed_all(s.push(k), stored, keys.drop_first());
    }
}

proof fn lemma_popped_n(s: Seq<usize>, n: nat)
    requires
        n <= s.len(),
    ensures
        list_popped_n(s, n) == s.take(n as int),
    decreases n,
{
    if n > 0 {
        lemma_popped_n(s.drop_first(), (n - 1) as nat);
        assert(seq![s[0]] + s.drop_first().take(n - 1) =~= s.take(n as int));
    } else {
        assert(s.take(0) =~= Seq::<usize>::empty());
    }
}

/// Lists are first in, first out: distinct keys that hold values, pushed in order onto an empty
/// list, are popped in the same order.
pub proof fn lemma_lists_fifo(stored: Set<usize>, keys: Seq<usize>)
    requires
        keys.no_duplicates(),
        forall|i: int| 0 <= i < keys.len() ==> stored.contains(#[trigger] keys[i]),
    ensures
        list_popped_n(list_pushed_all(Seq::empty(), stored, keys), keys.len()) == keys,
{
    assert(Seq::<usize>::empty() + keys =~= keys);
    lemma_pushed_all(Seq::empty(), stored, keys);
    lemma_popped_n(keys, keys.len());
    assert(keys.take(keys.len() as int) =~= keys);
}

/// Lists are first in, first out from any state: distinct keys that hold values, not queued
/// yet, pushed in order after what a list holds, are popped after it, in the same order.
pub proof fn lemma_lists_fifo_after(s: Seq<usize>, stored: Set<usize>, keys: Seq<usize>)
    requires
        (s + keys).no_duplicates(),
        forall|i: int| 0 <= i < keys.len() ==> stored.contains(#[trigger] keys[i]),
    ensures
        list_popped_n(list_pushed_all(s, stored, keys), s.len() + keys.len()) == s + keys,
{
    lemma_pushed_all(s, stored, keys);
    lemma_popped_n(s + keys, s.len() + keys.len());
    assert((s + keys).take((s.len() + keys.len()) as int) =~= s + keys);
}

/// Pushing a key twice queues it once.
pub proof fn lemma_push_idempotent(s: Seq<usize>, stored: Set<usize>, key: usize)
    ensures
        list_pushed(list_pushed(s, stored, key), stored, key) == list_pushed(s, stored, key),
{
    if stored.contains(key) && !s.contains(key) {
        assert(s.push(key)[s.len() as int] == key);
    }
}

proof fn lemma_without_absent(s: Seq<usize>, k: usize)
    requires
        !s.contains(k),
    ensures
        without(s, k) == s,
    decreases s.len(),
{
    if s.len() > 0 {
        assert(!s.drop_last().contains(k)) by {
            if s.drop_last().contains(k) {
                let j = choose|j: int| 0 <= j < s.drop_last().len() && s.drop_last()[j] == k;
                assert(s[j] == k);
            }
        }
        lemma_without_absent(s.drop_last(), k);
        assert(s.drop_last().push(s.last()) =~= s);
    }
}

proof fn lemma_without_at(s: Seq<usize>, k: usize, i: int)
    requires
        s.no_duplicates(),
        0 <= i < s.len(),
        s[i] == k,
    ensures
        without(s, k) == s.remove(i),
    decreases s.len(),
{
    if i == s.len() - 1 {
        assert(!s.drop_last().contains(k)) by {
            if s.drop_last().contains(k) {
                let j = choose|j: int| 0 <= j < s.drop_last().len() && s.drop_last()[j] == k;
                assert(s[j] == s[i]);
            }
        }
        lemma_without_absent(s.drop_last(), k);
        assert(s.drop_last() =~= s.remove(i));
    } else {
        lemma_without_at(s.drop_last(), k, i);
        assert(s.drop_last().remove(i).push(s.last()) =~= s.remove(i));
    }
}

proof fn lemma_remove_no_duplicates(s: Seq<usize>, i: int)
    requires
        s.no_duplicates(),
        0 <= i < s.len(),
    ensures
        s.remove(i).no_duplicates(),
        forall|k: usize| s.remove(i).contains(k) <==> (s.contains(k) && k != s[i]),
{
    let r = s.remove(i);
    assert forall|a: int, b: int| 0 <= a < r.len() && 0 <= b < r.len() && a != b implies r[a]
        != r[b] by {
        let a2 = if a < i { a } else { a + 1 };
        let b2 = if b < i { b } else { b + 1 };
        assert(r[a] == s[a2]);
        assert(r[b] == s[b2]);
    }
    assert forall|k: usize| r.contains(k) <==> (s.contains(k) && k != s[i]) by {
        if r.contains(k) {
            let a = choose|a: int| 0 <= a < r.len() && r[a] == k;
            let a2 = if a < i { a } else { a + 1 };
            assert(s[a2] == k);
        }
        if s.contains(k) && k != s[i] {
            let a = choose|a: int| 0 <= a < s.len() && s[a] == k;
            if a < i {
                assert(r[a] == k);
            } else {
                assert(r[a - 1] == k);
            }
        }
    }
}

/// The neighbours of `key` in list `s` (`None` past either end); for no key, the last and the
/// first key of the list.
pub open spec fn neighbours(s: Seq<usize>, key: Option<usize>) -> (Option<usize>, Option<usize>) {
    match key {
        None => if s.len() == 0 {
            (None, None)
        } else {
            (Some(s.last()), Some(s[0]))
        },
        Some(k) => {
            let i = choose|i: int| 0 <= i < s.len() && s[i] == k;
            (if i == 0 {
                None
            } else {
                Some(s[i - 1])
            }, if i + 1 == s.len() {
                None
            } else {
                Some(s[i + 1])
            })
        },
    }
}

/// The key before position `p` of `s` and the key at it, `None` past either end: the gap that
/// an insertion at `p` fills.
pub open spec fn gap_at(s: Seq<usize>, p: int) -> (Option<usize>, Option<usize>) {
    (if p == 0 {
        None
    } else {
        Some(s[p - 1])
    }, if p == s.len() {
        None
    } else {
        Some(s[p])
    })
}

/// `(prev, next)` is a gap of `s`: the neighbours at some position of it.
pub open spec fn is_gap(s: Seq<usize>, prev: Option<usize>, next: Option<usize>) -> bool {
    exists|p: int| 0 <= p <= s.len() && gap_at(s, p) == (prev, next)
}

/// In a list without repetitions, a gap is found at one position only.
pub proof fn lemma_gap_unique(s: Seq<usize>, p: int, q: int)
    requires
        s.no_duplicates(),
        0 <= p <= s.len(),
        0 <= q <= s.len(),
        gap_at(s, p) == gap_at(s, q),
    ensures
        p == q,
{
    if p != q {
        if p > 0 && q > 0 {
            assert(s[p - 1] == s[q - 1]);
        }
    }
}

/// The links of a stored value, one per list.
struct Node {
    links: Vec<Option<Link>>,
}

impl Node {
    /// The links of a value that is in none of the `n` lists.
    fn new(n: usize) -> (v: Node)
        ensures
            v.links@.len() == n,
            forall|m: int| 0 <= m < n ==> v.links@[m] is None,
    {
        let mut links: Vec<Option<Link>> = Vec::new();
        let mut i: usize = 0;
        while i < n
            invariant
                i <= n,
                links@.len() == i,
                forall|m: int| 0 <= m < i ==> links@[m] is None,
            decreases n - i,
        {
            links.push(None);
            i = i + 1;
        }
        Node { links }
    }
}

spec fn occupied_in(slots: Seq<Option<Node>>, k: usize) -> bool {
    0 <= k < slots.len() && slots[k as int] is Some
}

spec fn node_in(slots: Seq<Option<Node>>, k: usize) -> Node {
    slots[k as int]->Some_0
}

spec fn link_in(slots: Seq<Option<Node>>, k: usize, m: int) -> Option<Link> {
    node_in(slots, k).links@[m]
}

/// List `m` is stored as `s` in `slots` and `heads`, except for the key at position `x`, which
/// is already detached.
spec fn list_shape(slots: Seq<Option<Node>>, heads: Seq<Link>, m: int, s: Seq<usize>, x: int) -> bool {
    &&& s.no_duplicates()
    &&& forall|j: int| 0 <= j < s.len() ==> occupied_in(slots, #[trigger] s[j])
    &&& heads[m] == head_of(s)
    &&& forall|j: int|
        0 <= j < s.len() && j != x ==> link_in(slots, #[trigger] s[j], m) == Some(node_link(s, j))
    &&& forall|k: usize| occupied_in(slots, k) && (#[trigger] link_in(slots, k, m)) is Some ==> s.contains(k)
    &&& (0 <= x < s.len() ==> link_in(slots, s[x], m) is None)
}

/// A slab of values, each of which may be queued in any of `N` lists.
pub struct LinkedSlab<T, const N: usize> {
    slots: Vec<Option<Node>>,
    items: Vec<Option<T>>,
    vacant: Vec<usize>,
    len: usize,
    heads: Vec<Link>,
    keys: Ghost<Set<usize>>,
    lists: Ghost<Seq<Seq<usize>>>,
}

impl<T, const N: usize> LinkedSlab<T, N> {
    /// The stored values by key.
    pub closed spec fn values(&self) -> Map<usize, T> {
        Map::new(|k: usize| self.keys@.contains(k), |k: usize| self.items@[k as int]->Some_0)
    }

    /// The keys queued in list `m`, oldest first.
    pub closed spec fn list(&self, m: int) -> Seq<usize> {
        self.lists@[m]
    }

    #[verifier::inline]
    spec fn occupied(&self, k: usize) -> bool {
        occupied_in(self.slots@, k)
    }

    #[verifier::inline]
    spec fn node(&self, k: usize) -> Node {
        node_in(self.slots@, k)
    }

    #[verifier::inline]
    spec fn link_at(&self, k: usize, m: int) -> Option<Link> {
        link_in(self.slots@, k, m)
    }

    /// List `m` is stored as `s`, except for the key at position `x`, which is already detached.
    #[verifier::inline]
    spec fn list_wf_except(&self, m: int, s: Seq<usize>, x: int) -> bool {
        list_shape(self.slots@, self.heads@, m, s, x)
    }

    #[verifier::inline]
    spec fn list_wf(&self, m: int) -> bool {
        self.list_wf_except(m, self.lists@[m], -1)
    }

    /// Everything but the lists.
    spec fn base_wf(&self) -> bool {
        &&& self.heads@.len() == N
        &&& self.lists@.len() == N
        &&& self.slots@.len() < usize::MAX
        &&& self.items@.len() == self.slots@.len()
        &&& forall|k: int|
            0 <= k < self.slots@.len() ==> (#[trigger] self.items@[k] is Some) == (
            self.slots@[k] is Some)
        &&& self.slots@.len() == self.len + self.vacant@.len()
        &&& self.keys@.finite()
        &&& self.len == self.keys@.len()
        &&& forall|k: usize| #[trigger] self.keys@.contains(k) <==> self.occupied(k)
        &&& forall|k: usize| #[trigger] self.occupied(k) ==> self.node(k).links@.len() == N
        &&& self.vacant@.no_duplicates()
        &&& forall|j: int|
            0 <= j < self.vacant@.len() ==> #[trigger] self.vacant@[j] < self.slots@.len()
                && !self.occupied(self.vacant@[j])
    }

    /// The invariant of the slab.
    pub closed spec fn wf(&self) -> bool {
        &&& self.base_wf()
        &&& forall|m: int| 0 <= m < N ==> #[trigger] self.list_wf(m)
    }

    /// An empty slab with `N` empty lists.
    pub fn new() -> (slab: Self)
        ensures
            slab.wf(),
            slab.values() == Map::<usize, T>::empty(),
            forall|m: int| 0 <= m < N ==> #[trigger] slab.list(m) == Seq::<usize>::empty(),
    {
        let mut heads: Vec<Link> = Vec::new();
        let mut i: usize = 0;
        while i < N
            invariant
                i <= N,
                heads@.len() == i,
                forall|m: int| 0 <= m < i ==> heads@[m] == empty_link(),
            decreases N - i,
        {
            heads.push(Link::empty());
            i = i + 1;
        }
        let slab = LinkedSlab {
            slots: Vec::new(),
            items: Vec::new(),
            vacant: Vec::new(),
            len: 0,
            heads,
            keys: Ghost(Set::empty()),
            lists: Ghost(Seq::new(N as nat, |m: int| Seq::<usize>::empty())),
        };
        assert(slab.values() =~= Map::<usize, T>::empty());
        assert forall|m: int| 0 <= m < N implies #[trigger] slab.list_wf(m) by {
            assert(slab.lists@[m] == Seq::<usize>::empty());
        }
        slab
    }

    proof fn lemma_not_linked(&self, k: usize, m: int)
        requires
            self.wf(),
            0 <= m < N,
            self.occupied(k),
        ensures
            self.link_at(k, m) is None <==> !self.list(m).contains(k),
    {
        assert(self.list_wf(m));
        let s = self.lists@[m];
        if s.contains(k) {
            let j = choose|j: int| 0 <= j < s.len() && s[j] == k;
            assert(self.link_at(s[j], m) == Some(node_link(s, j)));
        }
    }

    /// Whether `key` holds a value that is not in list `M`.
    fn linkable<const M: usize>(&self, key: usize) -> (r: bool)
        requires
            self.wf(),
            M < N,
        ensures
            r == (self.values().contains_key(key) && !self.list(M as int).contains(key)),
    {
        if key < self.slots.len() {
            match &self.slots[key] {
                Some(value) => {
                    proof {
                        self.lemma_not_linked(key, M as int);
                    }
                    value.links[M].is_none()
                },
                None => false,
            }
        } else {
            false
        }
    }

    /// The last and the first key of list `M`.
    fn link<const M: usize>(&self) -> (r: Option<(usize, usize)>)
        requires
            self.wf(),
            M < N,
        ensures
            self.list(M as int).len() == 0 ==> r is None,
            self.list(M as int).len() > 0 ==> r == Some(
                (self.list(M as int).last(), self.list(M as int)[0]),
            ),
    {
        assert(self.list_wf(M as int));
        let head = self.heads[M];
        if head.prev == EMPTY {
            None
        } else {
            Some((head.prev, head.next))
        }
    }

    /// The first key of list `M`.
    fn first<const M: usize>(&self) -> (r: Option<usize>)
        requires
            self.wf(),
            M < N,
        ensures
            self.list(M as int).len() == 0 ==> r is None,
            self.list(M as int).len() > 0 ==> r == Some(self.list(M as int)[0]),
    {
        match self.link::<M>() {
            Some((_, next)) => Some(next),
            None => None,
        }
    }

    /// Replaces the link of `key` in list `m`, touching nothing else.
    fn set_link(&mut self, key: usize, m: usize, link: Option<Link>)
        requires
            old(self).occupied(key),
            old(self).node(key).links@.len() == N,
            m < N,
        ensures
            final(self).slots@.len() == old(self).slots@.len(),
            forall|k: usize| #[trigger] final(self).occupied(k) == old(self).occupied(k),
            forall|k: usize|
                k != key && k < old(self).slots@.len() ==> #[trigger] final(self).slots@[k as int]
                    == old(self).slots@[k as int],
            final(self).items == old(self).items,
            final(self).node(key).links@ == old(self).node(key).links@.update(m as int, link),
            final(self).vacant == old(self).vacant,
            final(self).len == old(self).len,
            final(self).heads == old(self).heads,
            final(self).keys == old(self).keys,
            final(self).lists == old(self).lists,
    {
        let slot = self.slots[key].take();
        let mut node = slot.unwrap();
        node.links[m] = link;
        self.slots[key] = Some(node);
    }

    /// The link of `key` in list `m`.
    fn get_link(&self, key: usize, m: usize) -> (r: Option<Link>)
        requires
            self.occupied(key),
            self.node(key).links@.len() == N,
            m < N,
        ensures
            r == self.link_at(key, m as int),
    {
        match &self.slots[key] {
            Some(value) => value.links[m],
            None => None,
        }
    }

    /// List `m` keeps its shape when its head, the occupied keys and their links in `m` stay.
    proof fn lemma_list_frame(pre: &Self, post: &Self, m: int, s: Seq<usize>, x: int)
        requires
            pre.list_wf_except(m, s, x),
            post.heads@[m] == pre.heads@[m],
            forall|k: usize| #[trigger] post.occupied(k) == pre.occupied(k),
            forall|k: usize| pre.occupied(k) ==> #[trigger] post.link_at(k, m) == pre.link_at(k, m),
        ensures
            post.list_wf_except(m, s, x),
    {
        assert forall|j: int| 0 <= j < s.len() && j != x implies post.link_at(#[trigger] s[j], m)
            == Some(node_link(s, j)) by {
            assert(pre.occupied(s[j]));
        }
        assert forall|k: usize| post.occupied(k) && (#[trigger] post.link_at(k, m)) is Some implies s.contains(k) by {
            assert(pre.occupied(k));
        }
        if 0 <= x < s.len() {
            assert(pre.occupied(s[x]));
        }
    }

    /// The shape of the slab after the key at position `i` of list `n` has been unlinked.
    proof fn lemma_unlinked(pre: &Self, post: &Self, n: int, i: int)
        requires
            pre.base_wf(),
            0 <= n < N,
            forall|m: int| 0 <= m < N && m != n ==> #[trigger] pre.list_wf(m),
            0 <= i < pre.lists@[n].len(),
            pre.list_wf_except(n, pre.lists@[n], i),
            post.slots@.len() == pre.slots@.len(),
            post.vacant == pre.vacant,
            post.len == pre.len,
            post.keys == pre.keys,
            post.heads@.len() == N,
            post.lists@ == pre.lists@.update(n, pre.lists@[n].remove(i)),
            forall|m: int| 0 <= m < N && m != n ==> post.heads@[m] == pre.heads@[m],
            post.heads@[n] == head_of(pre.lists@[n].remove(i)),
            forall|k: usize| #[trigger] post.occupied(k) == pre.occupied(k),
            post.items == pre.items,
            forall|k: usize| pre.occupied(k) ==> #[trigger] post.node(k).links@.len() == N,
            forall|k: usize, m: int|
                pre.occupied(k) && 0 <= m < N && m != n ==> #[trigger] post.link_at(k, m)
                    == pre.link_at(k, m),
            forall|k: usize|
                pre.occupied(k) && (i == 0 || k != pre.lists@[n][i - 1]) && (i + 1
                    == pre.lists@[n].len() || k != pre.lists@[n][i + 1]) ==> #[trigger] post.link_at(
                    k,
                    n,
                ) == pre.link_at(k, n),
            i > 0 ==> post.link_at(pre.lists@[n][i - 1], n) == Some(
                node_link(pre.lists@[n].remove(i), i - 1),
            ),
            i + 1 < pre.lists@[n].len() ==> post.link_at(pre.lists@[n][i + 1], n) == Some(
                node_link(pre.lists@[n].remove(i), i),
            ),
        ensures
            post.wf(),
    {
        let s = pre.lists@[n];
        let r = s.remove(i);
        lemma_remove_no_duplicates(s, i);
        assert forall|k: usize| #[trigger] post.occupied(k) implies post.node(k).links@.len() == N by {
            assert(pre.occupied(k));
        }
        assert forall|j: int| 0 <= j < post.vacant@.len() implies #[trigger] post.vacant@[j]
            < post.slots@.len() && !post.occupied(post.vacant@[j]) by {
            assert(!pre.occupied(pre.vacant@[j]));
        }
        assert forall|k: int| 0 <= k < post.slots@.len() implies (
        #[trigger] post.items@[k] is Some) == (post.slots@[k] is Some) by {
            assert(post.occupied(k as usize) == pre.occupied(k as usize));
        }
        assert(post.base_wf());
        assert forall|m: int| 0 <= m < N implies #[trigger] post.list_wf(m) by {
            if m != n {
                assert(pre.list_wf(m));
                Self::lemma_list_frame(pre, post, m, pre.lists@[m], -1);
            } else {
                assert forall|j: int| 0 <= j < r.len() implies post.link_at(#[trigger] r[j], m)
                    == Some(node_link(r, j)) by {
                    let j2 = if j < i {
                        j
                    } else {
                        j + 1
                    };
                    assert(r[j] == s[j2]);
                    assert(pre.occupied(s[j2]));
                    assert(pre.link_at(s[j2], m) == Some(node_link(s, j2)));
                }
                assert forall|k: usize|
                    post.occupied(k) && (#[trigger] post.link_at(k, m)) is Some implies r.contains(
                    k,
                ) by {
                    assert(pre.occupied(k));
                    if k != s[i] {
                        if i > 0 && k == s[i - 1] {
                            assert(s.contains(k));
                        } else if i + 1 < s.len() && k == s[i + 1] {
                            assert(s.contains(k));
                        } else {
                            assert(pre.link_at(k, m) is Some);
                        }
                    }
                }
                assert forall|j: int| 0 <= j < r.len() implies post.occupied(#[trigger] r[j]) by {
                    let j2 = if j < i {
                        j
                    } else {
                        j + 1
                    };
                    assert(r[j] == s[j2]);
                }
            }
        }
    }

    /// Takes the detached key at position `i` out of list `n`, joining its neighbours.
    fn unlink(&mut self, link: Link, n: usize, Ghost(i): Ghost<int>)
        requires
            old(self).base_wf(),
            n < N,
            forall|m: int| 0 <= m < N && m != n ==> #[trigger] old(self).list_wf(m),
            0 <= i < old(self).lists@[n as int].len(),
            old(self).list_wf_except(n as int, old(self).lists@[n as int], i),
            link == node_link(old(self).lists@[n as int], i),
        ensures
            final(self).wf(),
            final(self).lists@ == old(self).lists@.update(
                n as int,
                old(self).lists@[n as int].remove(i),
            ),
            final(self).keys == old(self).keys,
            final(self).slots@.len() == old(self).slots@.len(),
            forall|k: usize| #[trigger] final(self).occupied(k) == old(self).occupied(k),
            final(self).items == old(self).items,
            forall|k: usize, m: int|
                old(self).occupied(k) && 0 <= m < N && m != n ==> #[trigger] final(self).link_at(
                    k,
                    m,
                ) == old(self).link_at(k, m),
    {
        let ghost pre: Self = *self;
        let ghost s = self.lists@[n as int];
        proof {
            assert(pre.occupied(s[i]));
            if i > 0 {
                assert(pre.occupied(s[i - 1]));
                assert(pre.link_at(s[i - 1], n as int) == Some(node_link(s, i - 1)));
            }
            if i + 1 < s.len() {
                assert(pre.occupied(s[i + 1]));
                assert(pre.link_at(s[i + 1], n as int) == Some(node_link(s, i + 1)));
            }
        }
        if link.prev != EMPTY {
            let prev = self.get_link(link.prev, n).unwrap();
            self.set_link(link.prev, n, Some(Link { prev: prev.prev, next: link.next }));
        } else {
            let head = self.heads[n];
            self.heads.set(n, Link { prev: head.prev, next: link.next });
        }
        let ghost mid: Self = *self;
        assert(forall|k: usize| #[trigger] mid.occupied(k) == pre.occupied(k));
        if link.next != EMPTY {
            let next = self.get_link(link.next, n).unwrap();
            self.set_link(link.next, n, Some(Link { prev: link.prev, next: next.next }));
        } else {
            let head = self.heads[n];
            self.heads.set(n, Link { prev: link.prev, next: head.next });
        }
        assert(forall|k: usize| #[trigger] self.occupied(k) == mid.occupied(k));
        let ghost unlinked: Self = *self;
        proof {
            self.lists@ = self.lists@.update(n as int, s.remove(i));
            assert(self.slots == unlinked.slots);
            assert forall|k: usize| #[trigger] self.occupied(k) == pre.occupied(k) by {
                assert(unlinked.occupied(k) == mid.occupied(k));
                assert(mid.occupied(k) == pre.occupied(k));
            }
            Self::lemma_unlinked(&pre, self, n as int, i);
        }
    }

    /// Takes `key` out of list `n` if it is there; says whether it was.
    fn unlink_key(&mut self, key: usize, n: usize) -> (was: bool)
        requires
            old(self).wf(),
            old(self).occupied(key),
            n < N,
        ensures
            final(self).wf(),
            was == old(self).list(n as int).contains(key),
            final(self).lists@ == old(self).lists@.update(
                n as int,
                without(old(self).lists@[n as int], key),
            ),
            final(self).keys == old(self).keys,
            final(self).slots@.len() == old(self).slots@.len(),
            forall|k: usize| #[trigger] final(self).occupied(k) == old(self).occupied(k),
            final(self).items == old(self).items,
            forall|k: usize, m: int|
                old(self).occupied(k) && 0 <= m < N && m != n ==> #[trigger] final(self).link_at(
                    k,
                    m,
                ) == old(self).link_at(k, m),
            final(self).link_at(key, n as int) is None,
    {
        let ghost pre: Self = *self;
        let ghost s = self.lists@[n as int];
        proof {
            assert(pre.list_wf(n as int));
            pre.lemma_not_linked(key, n as int);
        }
        match self.get_link(key, n) {
            None => {
                proof {
                    lemma_without_absent(s, key);
                    assert(self.lists@.update(n as int, s) =~= self.lists@);
                }
                false
            },
            Some(link) => {
                let ghost i = choose|i: int| 0 <= i < s.len() && s[i] == key;
                proof {
                    assert(pre.link_at(s[i], n as int) == Some(node_link(s, i)));
                    lemma_without_at(s, key, i);
                }
                self.set_link(key, n, None);
                proof {
                    let post: Self = *self;
                    assert forall|m: int| 0 <= m < N && m != n implies #[trigger] post.list_wf(m) by {
                        assert(pre.list_wf(m));
                        Self::lemma_list_frame(&pre, &post, m, pre.lists@[m], -1);
                    }
                    assert forall|j: int| 0 <= j < s.len() && j != i implies post.link_at(
                        #[trigger] s[j],
                        n as int,
                    ) == Some(node_link(s, j)) by {
                        assert(pre.occupied(s[j]));
                        assert(pre.link_at(s[j], n as int) == Some(node_link(s, j)));
                    }
                    assert forall|k: usize|
                        post.occupied(k) && (#[trigger] post.link_at(k, n as int)) is Some implies s.contains(
                        k,
                    ) by {
                        assert(pre.occupied(k));
                        if k != key {
                            assert(post.slots@[k as int] == pre.slots@[k as int]);
                            assert(pre.link_at(k, n as int) is Some);
                        }
                    }
                    assert forall|j: int| 0 <= j < s.len() implies post.occupied(#[trigger] s[j]) by {
                        assert(pre.occupied(s[j]));
                    }
                    assert(post.list_wf_except(n as int, s, i));
                    assert forall|k: usize| #[trigger] post.occupied(k) implies post.node(k).links@.len() == N by {
                        assert(pre.occupied(k));
                    }
                    assert forall|j: int| 0 <= j < post.vacant@.len() implies #[trigger] post.vacant@[j]
                        < post.slots@.len() && !post.occupied(post.vacant@[j]) by {
                        assert(!pre.occupied(pre.vacant@[j]));
                    }
                    assert(post.base_wf());
                }
                let ghost mid: Self = *self;
                self.unlink(link, n, Ghost(i));
                proof {
                    lemma_remove_no_duplicates(s, i);
                    assert(!self.lists@[n as int].contains(key));
                    assert forall|k: usize| #[trigger] self.occupied(k) == pre.occupied(k) by {
                        assert(mid.occupied(k) == pre.occupied(k));
                    }
                    assert forall|k: usize, m: int|
                        old(self).occupied(k) && 0 <= m < N && m != n implies #[trigger] self.link_at(
                        k,
                        m,
                    ) == old(self).link_at(k, m) by {
                        assert(mid.occupied(k));
                        assert(mid.link_at(k, m) == pre.link_at(k, m));
                    }
                    self.lemma_not_linked(key, n as int);
                }
                true
            },
        }
    }

    /// The shape of the slab after `key` has been appended to list `n`.
    proof fn lemma_pushed(pre: &Self, post: &Self, n: int, key: usize)
        requires
            pre.wf(),
            0 <= n < N,
            pre.occupied(key),
            !pre.lists@[n].contains(key),
            post.slots@.len() == pre.slots@.len(),
            post.vacant == pre.vacant,
            post.len == pre.len,
            post.keys == pre.keys,
            post.heads@.len() == N,
            post.lists@ == pre.lists@.update(n, pre.lists@[n].push(key)),
            forall|m: int| 0 <= m < N && m != n ==> post.heads@[m] == pre.heads@[m],
            post.heads@[n] == head_of(pre.lists@[n].push(key)),
            forall|k: usize| #[trigger] post.occupied(k) == pre.occupied(k),
            post.items == pre.items,
            forall|k: usize| pre.occupied(k) ==> #[trigger] post.node(k).links@.len() == N,
            forall|k: usize, m: int|
                pre.occupied(k) && 0 <= m < N && m != n ==> #[trigger] post.link_at(k, m)
                    == pre.link_at(k, m),
            forall|k: usize|
                pre.occupied(k) && k != key && (pre.lists@[n].len() == 0 || k
                    != pre.lists@[n].last()) ==> #[trigger] post.link_at(k, n) == pre.link_at(k, n),
            post.link_at(key, n) == Some(
                node_link(pre.lists@[n].push(key), pre.lists@[n].len() as int),
            ),
            pre.lists@[n].len() > 0 ==> post.link_at(pre.lists@[n].last(), n) == Some(
                node_link(pre.lists@[n].push(key), pre.lists@[n].len() - 1),
            ),
        ensures
            post.wf(),
    {
        let s = pre.lists@[n];
        let r = s.push(key);
        assert(pre.list_wf(n));
        assert forall|k: usize| #[trigger] post.occupied(k) implies post.node(k).links@.len() == N by {
            assert(pre.occupied(k));
        }
        assert forall|j: int| 0 <= j < post.vacant@.len() implies #[trigger] post.vacant@[j]
            < post.slots@.len() && !post.occupied(post.vacant@[j]) by {
            assert(!pre.occupied(pre.vacant@[j]));
        }
        assert forall|k: int| 0 <= k < post.slots@.len() implies (
        #[trigger] post.items@[k] is Some) == (post.slots@[k] is Some) by {
            assert(post.occupied(k as usize) == pre.occupied(k as usize));
        }
        assert(post.base_wf());
        assert(r.no_duplicates()) by {
            assert forall|a: int, b: int| 0 <= a < r.len() && 0 <= b < r.len() && a != b implies r[a]
                != r[b] by {
                if a == s.len() {
                    assert(!s.contains(key));
                    assert(s[b] != key);
                } else if b == s.len() {
                    assert(s[a] != key);
                }
            }
        }
        assert forall|m: int| 0 <= m < N implies #[trigger] post.list_wf(m) by {
            if m != n {
                assert(pre.list_wf(m));
                Self::lemma_list_frame(pre, post, m, pre.lists@[m], -1);
            } else {
                assert forall|j: int| 0 <= j < r.len() implies post.link_at(#[trigger] r[j], m)
                    == Some(node_link(r, j)) by {
                    if j < s.len() {
                        assert(r[j] == s[j]);
                        assert(pre.occupied(s[j]));
                        assert(pre.link_at(s[j], m) == Some(node_link(s, j)));
                        assert(s[j] != key);
                    }
                }
                assert forall|k: usize|
                    post.occupied(k) && (#[trigger] post.link_at(k, m)) is Some implies r.contains(
                    k,
                ) by {
                    assert(pre.occupied(k));
                    if k == key {
                        assert(r[s.len() as int] == key);
                    } else if s.len() > 0 && k == s.last() {
                        assert(r[s.len() - 1] == k);
                    } else {
                        assert(pre.link_at(k, m) is Some);
                        let j = choose|j: int| 0 <= j < s.len() && s[j] == k;
                        assert(r[j] == k);
                    }
                }
                assert forall|j: int| 0 <= j < r.len() implies post.occupied(#[trigger] r[j]) by {
                    if j < s.len() {
                        assert(r[j] == s[j]);
                        assert(pre.occupied(s[j]));
                    }
                }
            }
        }
    }

    /// Appends `key` to list `M`, unless it holds no value or is already in that list.
    pub fn link_push<const M: usize>(&mut self, key: usize)
        requires
            old(self).wf(),
            M < N,
        ensures
            final(self).wf(),
            final(self).values() == old(self).values(),
            forall|m: int|
                0 <= m < N && m != M ==> #[trigger] final(self).list(m) == old(self).list(m),
            final(self).list(M as int) == list_pushed(
                old(self).list(M as int),
                old(self).values().dom(),
                key,
            ),
    {
        if !self.linkable::<M>(key) {
            return;
        }
        let ghost pre: Self = *self;
        let ghost s = self.lists@[M as int];
        proof {
            assert(pre.keys@.contains(key));
            assert(pre.list_wf(M as int));
            pre.lemma_not_linked(key, M as int);
            if s.len() > 0 {
                assert(pre.occupied(s[s.len() - 1]));
                assert(pre.link_at(s[s.len() - 1], M as int) == Some(node_link(s, s.len() - 1)));
            }
        }
        let link = match self.link::<M>() {
            None => {
                self.heads.set(M, Link::new(key));
                assert(forall|k: usize| #[trigger] self.occupied(k) == pre.occupied(k));
                Link::empty()
            },
            Some((prev, _)) => {
                let last = self.get_link(prev, M).unwrap();
                self.set_link(prev, M, Some(Link { prev: last.prev, next: key }));
                let ghost snap: Self = *self;
                assert(forall|k: usize| #[trigger] snap.occupied(k) == pre.occupied(k));
                let head = self.heads[M];
                self.heads.set(M, Link { prev: key, next: head.next });
                assert(self.slots == snap.slots);
                assert forall|k: usize| #[trigger] self.occupied(k) == pre.occupied(k) by {
                    assert(snap.occupied(k) == pre.occupied(k));
                }
                Link { prev, next: EMPTY }
            },
        };
        let ghost mid: Self = *self;
        assert(forall|k: usize| #[trigger] mid.occupied(k) == pre.occupied(k));
        self.set_link(key, M, Some(link));
        let ghost linked: Self = *self;
        proof {
            self.lists@ = self.lists@.update(M as int, s.push(key));
            assert(self.slots == linked.slots);
            assert forall|k: usize| #[trigger] self.occupied(k) == pre.occupied(k) by {
                assert(linked.occupied(k) == mid.occupied(k));
            }
            assert forall|k: usize| pre.occupied(k) implies #[trigger] self.node(k).links@.len()
                == N by {
                assert(mid.occupied(k));
                if k != key {
                    assert(linked.slots@[k as int] == mid.slots@[k as int]);
                }
            }
            assert forall|k: usize, m: int|
                pre.occupied(k) && 0 <= m < N && m != M implies #[trigger] self.link_at(k, m)
                == pre.link_at(k, m) by {
                assert(mid.occupied(k));
                if k != key {
                    assert(linked.slots@[k as int] == mid.slots@[k as int]);
                }
            }
            assert forall|k: usize|
                pre.occupied(k) && k != key && (s.len() == 0 || k != s.last()) implies #[trigger] self.link_at(k, M as int)
                == pre.link_at(k, M as int) by {
                assert(mid.occupied(k));
                assert(linked.slots@[k as int] == mid.slots@[k as int]);
            }
            Self::lemma_pushed(&pre, self, M as int, key);
            assert(self.values() =~= pre.values());
        }
    }

    /// The shape of the slab after `key` has been put at position `p` of list `n`.
    #[verifier::spinoff_prover]
    #[verifier::rlimit(40)]
    proof fn lemma_inserted(pre: &Self, post: &Self, n: int, key: usize, p: int)
        requires
            pre.wf(),
            0 <= n < N,
            pre.occupied(key),
            !pre.lists@[n].contains(key),
            0 <= p <= pre.lists@[n].len(),
            post.slots@.len() == pre.slots@.len(),
            post.vacant == pre.vacant,
            post.len == pre.len,
            post.keys == pre.keys,
            post.heads@.len() == N,
            post.lists@ == pre.lists@.update(n, pre.lists@[n].insert(p, key)),
            forall|m: int| 0 <= m < N && m != n ==> post.heads@[m] == pre.heads@[m],
            post.heads@[n] == head_of(pre.lists@[n].insert(p, key)),
            forall|k: usize| #[trigger] post.occupied(k) == pre.occupied(k),
            post.items == pre.items,
            forall|k: usize| pre.occupied(k) ==> #[trigger] post.node(k).links@.len() == N,
            forall|k: usize, m: int|
                pre.occupied(k) && 0 <= m < N && m != n ==> #[trigger] post.link_at(k, m)
                    == pre.link_at(k, m),
            forall|k: usize|
                pre.occupied(k) && k != key && (p == 0 || k != pre.lists@[n][p - 1]) && (p
                    == pre.lists@[n].len() || k != pre.lists@[n][p]) ==> #[trigger] post.link_at(
                    k,
                    n,
                ) == pre.link_at(k, n),
            post.link_at(key, n) == Some(node_link(pre.lists@[n].insert(p, key), p)),
            p > 0 ==> post.link_at(pre.lists@[n][p - 1], n) == Some(
                node_link(pre.lists@[n].insert(p, key), p - 1),
            ),
            p < pre.lists@[n].len() ==> post.link_at(pre.lists@[n][p], n) == Some(
                node_link(pre.lists@[n].insert(p, key), p + 1),
            ),
        ensures
            post.wf(),
    {
        let s = pre.lists@[n];
        let r = s.insert(p, key);
        assert(pre.list_wf(n));
        assert forall|k: usize| #[trigger] post.occupied(k) implies post.node(k).links@.len() == N by {
            assert(pre.occupied(k));
        }
        assert forall|j: int| 0 <= j < post.vacant@.len() implies #[trigger] post.vacant@[j]
            < post.slots@.len() && !post.occupied(post.vacant@[j]) by {
            assert(!pre.occupied(pre.vacant@[j]));
        }
        assert forall|k: int| 0 <= k < post.slots@.len() implies (
        #[trigger] post.items@[k] is Some) == (post.slots@[k] is Some) by {
            assert(post.occupied(k as usize) == pre.occupied(k as usize));
        }
        assert(post.base_wf());
        assert forall|j: int| 0 <= j < r.len() implies #[trigger] r[j] == (if j < p {
            s[j]
        } else if j == p {
            key
        } else {
            s[j - 1]
        }) by {}
        assert(r.no_duplicates()) by {
            assert forall|a: int, b: int| 0 <= a < r.len() && 0 <= b < r.len() && a != b implies r[a]
                != r[b] by {
                if a == p {
                    let b2 = if b < p { b } else { b - 1 };
                    assert(s[b2] != key);
                } else if b == p {
                    let a2 = if a < p { a } else { a - 1 };
                    assert(s[a2] != key);
                } else {
                    let a2 = if a < p { a } else { a - 1 };
                    let b2 = if b < p { b } else { b - 1 };
                    assert(s[a2] != s[b2]);
                }
            }
        }
        assert forall|m: int| 0 <= m < N implies #[trigger] post.list_wf(m) by {
            if m != n {
                assert(pre.list_wf(m));
                Self::lemma_list_frame(pre, post, m, pre.lists@[m], -1);
            } else {
                assert forall|j: int| 0 <= j < r.len() implies post.link_at(#[trigger] r[j], m)
                    == Some(node_link(r, j)) by {
                    if j < p - 1 {
                        assert(pre.occupied(s[j]));
                        assert(pre.link_at(s[j], m) == Some(node_link(s, j)));
                        assert(s[j] != key);
                        assert(s[j] != s[p - 1]);
                        if p < s.len() {
                            assert(s[j] != s[p]);
                        }
                    } else if j > p + 1 {
                        let j2 = j - 1;
                        assert(pre.occupied(s[j2]));
                        assert(pre.link_at(s[j2], m) == Some(node_link(s, j2)));
                        assert(s[j2] != key);
                        assert(s[j2] != s[p]);
                        if p > 0 {
                            assert(s[j2] != s[p - 1]);
                        }
                    }
                }
                assert forall|k: usize|
                    post.occupied(k) && (#[trigger] post.link_at(k, m)) is Some implies r.contains(
                    k,
                ) by {
                    assert(pre.occupied(k));
                    if k == key {
                        assert(r[p] == key);
                    } else if p > 0 && k == s[p - 1] {
                        assert(r[p - 1] == k);
                    } else if p < s.len() && k == s[p] {
                        assert(r[p + 1] == k);
                    } else {
                        assert(pre.link_at(k, m) is Some);
                        let j = choose|j: int| 0 <= j < s.len() && s[j] == k;
                        if j < p {
                            assert(r[j] == k);
                        } else {
                            assert(r[j + 1] == k);
                        }
                    }
                }
                assert forall|j: int| 0 <= j < r.len() implies post.occupied(#[trigger] r[j]) by {
                    if j < p {
                        assert(pre.occupied(s[j]));
                    } else if j > p {
                        assert(pre.occupied(s[j - 1]));
                    }
                }
            }
        }
    }

    /// The neighbours of `key` in list `M`; for no key, the last and the first key of the list.
    pub fn link_of<const M: usize>(&self, key: Option<usize>) -> (r: (Option<usize>, Option<usize>))
        requires
            self.wf(),
            M < N,
            key matches Some(k) ==> self.list(M as int).contains(k),
        ensures
            r == neighbours(self.list(M as int), key),
    {
        assert(self.list_wf(M as int));
        let s = Ghost(self.lists@[M as int]);
        let link = match key {
            Some(k) => {
                let ghost i = choose|i: int| 0 <= i < s@.len() && s@[i] == k;
                proof {
                    assert(self.link_at(s@[i], M as int) == Some(node_link(s@, i)));
                    if i > 0 {
                        assert(s@[i - 1] != EMPTY) by {
                            assert(self.occupied(s@[i - 1]));
                        }
                    }
                    if i + 1 < s@.len() {
                        assert(self.occupied(s@[i + 1]));
                    }
                }
                self.get_link(k, M).unwrap()
            },
            None => self.heads[M],
        };
        proof {
            if s@.len() > 0 {
                assert(self.occupied(s@.last()));
                assert(self.occupied(s@[0]));
            }
        }
        (if link.prev == EMPTY {
            None
        } else {
            Some(link.prev)
        }, if link.next == EMPTY {
            None
        } else {
            Some(link.next)
        })
    }

    /// The oldest key of list `M`, if any.
    pub fn front<const M: usize>(&self) -> (r: Option<usize>)
        requires
            self.wf(),
            M < N,
        ensures
            r == (if self.list(M as int).len() == 0 {
                None
            } else {
                Some(self.list(M as int)[0])
            }),
    {
        self.first::<M>()
    }

    /// Moves `key` to the back of list `M` if it is there; says whether it was.
    pub fn refresh<const M: usize>(&mut self, key: usize) -> (was: bool)
        requires
            old(self).wf(),
            M < N,
        ensures
            final(self).wf(),
            final(self).values() == old(self).values(),
            was == old(self).list(M as int).contains(key),
            forall|i: int|
                0 <= i < old(self).list(M as int).len() && #[trigger] old(self).list(M as int)[i]
                    == key ==> final(self).list(M as int) == old(self).list(M as int).remove(
                    i,
                ).push(key),
            !was ==> final(self).list(M as int) == old(self).list(M as int),
            forall|m: int|
                0 <= m < N && m != M ==> #[trigger] final(self).list(m) == old(self).list(m),
    {
        let ghost s = old(self).list(M as int);
        proof {
            old(self).lemma_lists_hold_stored_keys(M as int);
            old(self).lemma_values_dom();
        }
        let was = self.link_pop_at::<M>(key);
        if was {
            let ghost i = choose|i: int| 0 <= i < s.len() && s[i] == key;
            proof {
                assert(s[i] == key);
                assert(old(self).values().contains_key(s[i]));
                assert(!s.remove(i).contains(key)) by {
                    if s.remove(i).contains(key) {
                        let k = choose|k: int| 0 <= k < s.remove(i).len() && s.remove(i)[k] == key;
                        let k1 = if k < i { k } else { k + 1 };
                        assert(s[k1] == key);
                    }
                }
            }
            self.link_push::<M>(key);
            proof {
                assert forall|j: int| 0 <= j < s.len() && #[trigger] s[j] == key implies self.list(
                    M as int,
                ) == s.remove(j).push(key) by {
                    assert(j == i);
                }
            }
        }
        was
    }

    /// Takes `key` out of list `M` if it is there, joining its neighbours; says whether it was.
    pub fn link_pop_at<const M: usize>(&mut self, key: usize) -> (was: bool)
        requires
            old(self).wf(),
            M < N,
        ensures
            final(self).wf(),
            final(self).values() == old(self).values(),
            was == old(self).list(M as int).contains(key),
            forall|i: int|
                0 <= i < old(self).list(M as int).len() && #[trigger] old(self).list(M as int)[i]
                    == key ==> final(self).list(M as int) == old(self).list(M as int).remove(i),
            !was ==> final(self).list(M as int) == old(self).list(M as int),
            forall|m: int|
                0 <= m < N && m != M ==> #[trigger] final(self).list(m) == old(self).list(m),
    {
        proof {
            old(self).lemma_lists_hold_stored_keys(M as int);
            old(self).lemma_values_dom();
        }
        if self.get(key).is_none() {
            proof {
                if old(self).list(M as int).contains(key) {
                    let j = choose|j: int|
                        0 <= j < old(self).list(M as int).len() && #[trigger] old(self).list(
                            M as int,
                        )[j] == key;
                    assert(old(self).values().contains_key(old(self).list(M as int)[j]));
                }
            }
            return false;
        }
        let ghost pre: Self = *self;
        let was = self.unlink_key(key, M);
        proof {
            let s = pre.lists@[M as int];
            if s.contains(key) {
                assert forall|i: int| 0 <= i < s.len() && #[trigger] s[i] == key implies self.list(
                    M as int,
                ) == s.remove(i) by {
                    lemma_without_at(s, key, i);
                }
            } else {
                lemma_without_absent(s, key);
            }
            assert(self.values() =~= pre.values());
        }
        was
    }

    /// Puts `key`, which holds a value and is not in list `M`, between the neighbours `prev` and
    /// `next` of list `M` (`None` for either end).
    pub fn link_insert<const M: usize>(
        &mut self,
        prev: Option<usize>,
        key: usize,
        next: Option<usize>,
    )
        requires
            old(self).wf(),
            M < N,
            old(self).values().contains_key(key),
            !old(self).list(M as int).contains(key),
            is_gap(old(self).list(M as int), prev, next),
        ensures
            final(self).wf(),
            final(self).values() == old(self).values(),
            forall|m: int|
                0 <= m < N && m != M ==> #[trigger] final(self).list(m) == old(self).list(m),
            forall|p: int|
                0 <= p <= old(self).list(M as int).len() && #[trigger] gap_at(
                    old(self).list(M as int),
                    p,
                ) == (prev, next) ==> final(self).list(M as int) == old(self).list(
                    M as int,
                ).insert(p, key),
    {
        let ghost p = choose|p: int|
            0 <= p <= old(self).list(M as int).len() && #[trigger] gap_at(
                old(self).list(M as int),
                p,
            ) == (prev, next);
        proof {
            old(self).lemma_lists_hold_stored_keys(M as int);
            assert forall|q: int|
                0 <= q <= old(self).list(M as int).len() && #[trigger] gap_at(
                    old(self).list(M as int),
                    q,
                ) == (prev, next) implies q == p by {
                lemma_gap_unique(old(self).list(M as int), p, q);
            }
        }
        let ghost pre: Self = *self;
        let ghost s = self.lists@[M as int];
        let ghost r = s.insert(p, key);
        proof {
            assert(pre.keys@.contains(key));
            assert(pre.list_wf(M as int));
            pre.lemma_not_linked(key, M as int);
            if p > 0 {
                assert(pre.occupied(s[p - 1]));
                assert(pre.link_at(s[p - 1], M as int) == Some(node_link(s, p - 1)));
            }
            if p < s.len() {
                assert(pre.occupied(s[p]));
                assert(pre.link_at(s[p], M as int) == Some(node_link(s, p)));
            }
        }
        let prev_key = match prev {
            Some(a) => a,
            None => EMPTY,
        };
        let next_key = match next {
            Some(b) => b,
            None => EMPTY,
        };
        match prev {
            Some(a) => {
                let l = self.get_link(a, M).unwrap();
                self.set_link(a, M, Some(Link { prev: l.prev, next: key }));
            },
            None => {
                let head = self.heads[M];
                self.heads.set(M, Link { prev: head.prev, next: key });
            },
        }
        let ghost mid: Self = *self;
        assert(forall|k: usize| #[trigger] mid.occupied(k) == pre.occupied(k));
        match next {
            Some(b) => {
                let l = self.get_link(b, M).unwrap();
                self.set_link(b, M, Some(Link { prev: key, next: l.next }));
            },
            None => {
                let head = self.heads[M];
                self.heads.set(M, Link { prev: key, next: head.next });
            },
        }
        let ghost mid2: Self = *self;
        assert(forall|k: usize| #[trigger] mid2.occupied(k) == pre.occupied(k));
        self.set_link(key, M, Some(Link { prev: prev_key, next: next_key }));
        proof {
            let linked: Self = *self;
            self.lists@ = self.lists@.update(M as int, r);
            assert(self.slots == linked.slots);
            assert forall|k: usize| #[trigger] self.occupied(k) == pre.occupied(k) by {
                assert(linked.occupied(k) == mid2.occupied(k));
            }
            assert forall|k: usize| pre.occupied(k) implies #[trigger] self.node(k).links@.len()
                == N by {
                assert(mid2.occupied(k));
                assert(mid.occupied(k));
            }
            assert forall|k: usize, m: int|
                pre.occupied(k) && 0 <= m < N && m != M implies #[trigger] self.link_at(k, m)
                == pre.link_at(k, m) by {
                assert(mid2.occupied(k));
                assert(mid.occupied(k));
            }
            assert forall|k: usize|
                pre.occupied(k) && k != key && (p == 0 || k != s[p - 1]) && (p == s.len() || k
                    != s[p]) implies #[trigger] self.link_at(k, M as int) == pre.link_at(
                k,
                M as int,
            ) by {
                assert(mid2.occupied(k));
                assert(mid.occupied(k));
            }
            assert(r[p] == key);
            if p > 0 {
                assert(r[p - 1] == s[p - 1]);
                assert(s[p - 1] != key);
                if p < s.len() {
                    assert(s[p - 1] != s[p]);
                }
            }
            if p < s.len() {
                assert(r[p + 1] == s[p]);
                assert(s[p] != key);
            }
            assert(self.heads@[M as int] == head_of(r)) by {
                if s.len() > 0 {
                    assert(r.last() == (if p == s.len() { key } else { s.last() }));
                }
            }
            Self::lemma_inserted(&pre, self, M as int, key, p);
            assert(self.values() =~= pre.values());
        }
    }

    /// Takes the oldest key out of list `M`.
    pub fn link_pop<const M: usize>(&mut self) -> (r: Option<usize>)
        requires
            old(self).wf(),
            M < N,
        ensures
            final(self).wf(),
            final(self).values() == old(self).values(),
            forall|m: int|
                0 <= m < N && m != M ==> #[trigger] final(self).list(m) == old(self).list(m),
            (final(self).list(M as int), r) == list_popped(old(self).list(M as int)),
    {
        let key = match self.first::<M>() {
            Some(key) => key,
            None => return None,
        };
        let ghost pre: Self = *self;
        proof {
            assert(pre.list_wf(M as int));
            assert(pre.occupied(pre.lists@[M as int][0]));
            lemma_without_at(pre.lists@[M as int], key, 0);
        }
        self.unlink_key(key, M);
        proof {
            assert(self.values() =~= pre.values());
            assert(pre.lists@[M as int].remove(0) =~= pre.lists@[M as int].drop_first());
        }
        Some(key)
    }

    /// In every slab, each list holds each key at most once, and only keys that hold values.
    pub proof fn lemma_lists_hold_stored_keys(&self, m: int)
        requires
            self.wf(),
            0 <= m < N,
        ensures
            self.list(m).no_duplicates(),
            forall|j: int|
                0 <= j < self.list(m).len() ==> self.values().contains_key(#[trigger] self.list(m)[j]),
    {
        assert(self.list_wf(m));
        assert forall|j: int| 0 <= j < self.list(m).len() implies self.values().contains_key(
            #[trigger] self.list(m)[j],
        ) by {
            assert(occupied_in(self.slots@, self.lists@[m][j]));
        }
    }

    proof fn lemma_values_dom(&self)
        requires
            self.base_wf(),
        ensures
            self.values().dom() == self.keys@,
            self.values().len() == self.len,
    {
        assert(self.values().dom() =~= self.keys@);
    }

    /// Stores `value` under a key that holds nothing, and returns that key.
    pub fn insert(&mut self, value: T) -> (key: usize)
        requires
            old(self).wf(),
            old(self).values().len() + 1 < usize::MAX,
        ensures
            final(self).wf(),
            !old(self).values().contains_key(key),
            final(self).values() == old(self).values().insert(key, value),
            final(self).values().len() == old(self).values().len() + 1,
            forall|m: int| 0 <= m < N ==> #[trigger] final(self).list(m) == old(self).list(m),
            forall|m: int| 0 <= m < N ==> !(#[trigger] final(self).list(m)).contains(key),
    {
        let ghost pre: Self = *self;
        proof {
            pre.lemma_values_dom();
        }
        let node = Node::new(N);
        let ghost gnode = node;
        let key = match self.vacant.pop() {
            Some(key) => {
                proof {
                    assert(pre.vacant@[pre.vacant@.len() - 1] == key);
                }
                self.slots.set(key, Some(node));
                self.items.set(key, Some(value));
                key
            },
            None => {
                let key = self.slots.len();
                self.slots.push(Some(node));
                self.items.push(Some(value));
                key
            },
        };
        self.len = self.len + 1;
        proof {
            self.keys@ = self.keys@.insert(key);
            let post: Self = *self;
            assert(!pre.occupied(key));
            assert forall|k: usize| #[trigger] post.occupied(k) == (pre.occupied(k) || k == key) by {
                if k != key && k < pre.slots@.len() {
                    assert(post.slots@[k as int] == pre.slots@[k as int]);
                }
            }
            assert forall|k: usize| pre.occupied(k) implies #[trigger] post.node(k) == pre.node(k)
                && post.items@[k as int] == pre.items@[k as int] by {
                assert(post.slots@[k as int] == pre.slots@[k as int]);
            }
            assert forall|k: int| 0 <= k < post.slots@.len() implies (
            #[trigger] post.items@[k] is Some) == (post.slots@[k] is Some) by {
                if k != key && k < pre.slots@.len() {
                    assert(post.slots@[k] == pre.slots@[k]);
                    assert(post.items@[k] == pre.items@[k]);
                }
            }
            assert forall|j: int| 0 <= j < post.vacant@.len() implies #[trigger] post.vacant@[j]
                < post.slots@.len() && !post.occupied(post.vacant@[j]) by {
                assert(post.vacant@[j] == pre.vacant@[j]);
                assert(pre.vacant@[j] != key);
            }
            assert(post.vacant@.no_duplicates()) by {
                assert forall|a: int, b: int|
                    0 <= a < post.vacant@.len() && 0 <= b < post.vacant@.len() && a != b implies post.vacant@[a]
                    != post.vacant@[b] by {
                    assert(post.vacant@[a] == pre.vacant@[a]);
                    assert(post.vacant@[b] == pre.vacant@[b]);
                }
            }
            assert(post.base_wf());
            assert forall|m: int| 0 <= m < N implies #[trigger] post.list_wf(m) by {
                assert(pre.list_wf(m));
                let s = pre.lists@[m];
                assert forall|j: int| 0 <= j < s.len() implies post.occupied(#[trigger] s[j]) by {
                    assert(pre.occupied(s[j]));
                }
                assert forall|j: int| 0 <= j < s.len() implies post.link_at(#[trigger] s[j], m)
                    == Some(node_link(s, j)) by {
                    assert(pre.occupied(s[j]));
                    assert(post.node(s[j]) == pre.node(s[j]));
                }
                assert forall|k: usize|
                    post.occupied(k) && (#[trigger] post.link_at(k, m)) is Some implies s.contains(
                    k,
                ) by {
                    if k != key {
                        assert(pre.occupied(k));
                        assert(post.node(k) == pre.node(k));
                        assert(pre.link_at(k, m) is Some);
                    } else {
                        assert(post.node(key) == gnode);
                    }
                }
            }
            assert(post.values() =~= pre.values().insert(key, value));
            post.lemma_values_dom();
            assert forall|m: int| 0 <= m < N implies !(#[trigger] post.list(m)).contains(key) by {
                pre.lemma_lists_hold_stored_keys(m);
                if pre.list(m).contains(key) {
                    let j = choose|j: int| 0 <= j < pre.list(m).len() && pre.list(m)[j] == key;
                    assert(pre.values().contains_key(pre.list(m)[j]));
                }
            }
        }
        key
    }

    /// Takes the value under `key` out of the slab and out of every list.
    pub fn remove(&mut self, key: usize) -> (r: Option<T>)
        requires
            old(self).wf(),
        ensures
            final(self).wf(),
            old(self).values().contains_key(key) ==> r == Some(old(self).values()[key])
                && final(self).values() == old(self).values().remove(key)
                && final(self).values().len() + 1 == old(self).values().len(),
            !old(self).values().contains_key(key) ==> r is None && final(self).values() == old(
                self,
            ).values(),
            forall|m: int|
                0 <= m < N ==> #[trigger] final(self).list(m) == without(old(self).list(m), key),
    {
        let ghost pre: Self = *self;
        if key >= self.slots.len() || self.slots[key].is_none() {
            proof {
                assert forall|m: int| 0 <= m < N implies #[trigger] self.list(m) == without(
                    pre.list(m),
                    key,
                ) by {
                    assert(pre.list_wf(m));
                    let s = pre.lists@[m];
                    if s.contains(key) {
                        let j = choose|j: int| 0 <= j < s.len() && s[j] == key;
                        assert(pre.occupied(s[j]));
                    }
                    lemma_without_absent(s, key);
                }
            }
            return None;
        }
        let mut n: usize = 0;
        while n < N
            invariant
                n <= N,
                self.wf(),
                self.occupied(key),
                self.keys == pre.keys,
                self.slots@.len() == pre.slots@.len(),
                forall|k: usize| #[trigger] self.occupied(k) == pre.occupied(k),
                self.items == pre.items,
                forall|m: int|
                    0 <= m < n ==> #[trigger] self.lists@[m] == without(pre.lists@[m], key),
                forall|m: int| n <= m < N ==> #[trigger] self.lists@[m] == pre.lists@[m],
                forall|m: int| 0 <= m < n ==> #[trigger] self.link_at(key, m) is None,
            decreases N - n,
        {
            let ghost before: Self = *self;
            self.unlink_key(key, n);
            proof {
                assert forall|m: int| 0 <= m < n implies #[trigger] self.link_at(key, m) is None by {
                    assert(before.link_at(key, m) is None);
                }
            }
            n = n + 1;
        }
        let ghost unlinked: Self = *self;
        proof {
            assert forall|m: int| 0 <= m < N implies !(#[trigger] unlinked.lists@[m]).contains(key) by {
                assert(unlinked.link_at(key, m) is None);
                unlinked.lemma_not_linked(key, m);
            }
        }
        proof {
            assert(self.keys@.contains(key));
            assert(self.keys@.remove(key).len() + 1 == self.keys@.len());
        }
        let node = self.slots[key].take();
        let item = self.items[key].take();
        self.vacant.push(key);
        self.len = self.len - 1;
        proof {
            self.keys@ = self.keys@.remove(key);
            let post: Self = *self;
            assert forall|k: usize| #[trigger] post.occupied(k) == (unlinked.occupied(k) && k != key) by {
                if k != key && k < unlinked.slots@.len() {
                    assert(post.slots@[k as int] == unlinked.slots@[k as int]);
                }
            }
            assert forall|k: usize| unlinked.occupied(k) && k != key implies #[trigger] post.node(k)
                == unlinked.node(k) by {
                assert(post.slots@[k as int] == unlinked.slots@[k as int]);
            }
            assert forall|j: int| 0 <= j < post.vacant@.len() implies #[trigger] post.vacant@[j]
                < post.slots@.len() && !post.occupied(post.vacant@[j]) by {
                if j < unlinked.vacant@.len() {
                    assert(post.vacant@[j] == unlinked.vacant@[j]);
                    assert(!unlinked.occupied(unlinked.vacant@[j]));
                }
            }
            assert(post.vacant@.no_duplicates()) by {
                assert forall|a: int, b: int|
                    0 <= a < post.vacant@.len() && 0 <= b < post.vacant@.len() && a != b implies post.vacant@[a]
                    != post.vacant@[b] by {
                    if a < unlinked.vacant@.len() {
                        assert(!unlinked.occupied(unlinked.vacant@[a]));
                    }
                    if b < unlinked.vacant@.len() {
                        assert(!unlinked.occupied(unlinked.vacant@[b]));
                    }
                }
            }
            assert(post.base_wf());
            assert forall|m: int| 0 <= m < N implies #[trigger] post.list_wf(m) by {
                assert(unlinked.list_wf(m));
                let s = unlinked.lists@[m];
                assert(!s.contains(key));
                assert forall|j: int| 0 <= j < s.len() implies post.occupied(#[trigger] s[j]) by {
                    assert(unlinked.occupied(s[j]));
                    assert(s[j] != key);
                }
                assert forall|j: int| 0 <= j < s.len() implies post.link_at(#[trigger] s[j], m)
                    == Some(node_link(s, j)) by {
                    assert(unlinked.occupied(s[j]));
                    assert(s[j] != key);
                    assert(post.node(s[j]) == unlinked.node(s[j]));
                }
                assert forall|k: usize|
                    post.occupied(k) && (#[trigger] post.link_at(k, m)) is Some implies s.contains(
                    k,
                ) by {
                    assert(unlinked.occupied(k));
                    assert(post.node(k) == unlinked.node(k));
                    assert(unlinked.link_at(k, m) is Some);
                }
            }
            assert(post.values() =~= pre.values().remove(key));
            post.lemma_values_dom();
            pre.lemma_values_dom();
            assert forall|k: int| 0 <= k < post.slots@.len() implies (
            #[trigger] post.items@[k] is Some) == (post.slots@[k] is Some) by {
                if k != key {
                    assert(post.slots@[k] == unlinked.slots@[k]);
                    assert(post.items@[k] == unlinked.items@[k]);
                }
            }
        }
        item
    }

    /// Whether the slab holds no value.
    pub fn is_empty(&self) -> (r: bool)
        requires
            self.wf(),
        ensures
            r == self.values().is_empty(),
    {
        proof {
            self.lemma_values_dom();
            if self.len == 0 {
                self.keys@.lemma_len0_is_empty();
            } else {
                assert(!self.keys@.is_empty());
            }
            assert(self.values().is_empty() == self.keys@.is_empty());
        }
        self.len == 0
    }

    /// A mutable reference to the value under `key`, if there is one.
    pub fn get_mut(&mut self, key: usize) -> (r: Option<&mut T>)
        requires
            old(self).wf(),
        ensures
            r is None ==> !old(self).values().contains_key(key),
            r is None ==> *final(self) == *old(self),
            r is Some ==> old(self).values().contains_key(key),
            r is Some ==> *r->Some_0 == old(self).values()[key],
            r is Some ==> final(self).wf(),
            r is Some ==> final(self).values() == old(self).values().insert(
                key,
                *final(r->Some_0),
            ),
            forall|m: int| 0 <= m < N ==> #[trigger] final(self).list(m) == old(self).list(m),
    {
        if key >= self.items.len() || self.items[key].is_none() {
            return None;
        }
        match &mut self.items[key] {
            Some(value) => Some(value),
            None => None,
        }
    }

    /// A reference to the value under `key`, if there is one.
    pub fn get(&self, key: usize) -> (r: Option<&T>)
        requires
            self.wf(),
        ensures
            r is Some <==> self.values().contains_key(key),
            r is Some ==> *r->Some_0 == self.values()[key],
    {
        if key < self.items.len() {
            match &self.items[key] {
                Some(value) => Some(value),
                None => None,
            }
        } else {
            None
        }
    }
}

} // verus!
