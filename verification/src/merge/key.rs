//! Keys that the merges compare.

use vstd::prelude::*;

verus! {

/// The outcome of comparing two keys.
#[derive(Clone, Copy, Debug, PartialEq, Eq, Structural)]
pub enum KeyOrder {
    /// The first key comes before the second.
    Less,
    /// Both keys sort the same.
    Equal,
    /// The first key comes after the second.
    Greater,
}

/// Which of two streams.
#[derive(Clone, Copy, Debug, PartialEq, Eq, Structural)]
pub enum Side {
    /// The left stream.
    Left,
    /// The right stream.
    Right,
}

/// A key with a total order, given by its rank.
pub trait SortKey: Sized {
    /// Where the key stands in the order.
    spec fn rank(&self) -> int;

    /// Compares `self` with `other` by rank.
    fn compare(&self, other: &Self) -> (r: KeyOrder)
        ensures
            (r == KeyOrder::Less) == (self.rank() < other.rank()),
            (r == KeyOrder::Equal) == (self.rank() == other.rank()),
            (r == KeyOrder::Greater) == (self.rank() > other.rank()),
    ;

    /// Keys that sort the same are the same key.
    proof fn lemma_rank_injective(a: Self, b: Self)
        requires
            a.rank() == b.rank(),
        ensures
            a == b,
    ;
}

impl SortKey for i32 {
    open spec fn rank(&self) -> int {
        *self as int
    }

    proof fn lemma_rank_injective(a: Self, b: Self) {
    }

    fn compare(&self, other: &Self) -> (r: KeyOrder) {
        if *self < *other {
            KeyOrder::Less
        } else if *self == *other {
            KeyOrder::Equal
        } else {
            KeyOrder::Greater
        }
    }
}

impl SortKey for i64 {
    open spec fn rank(&self) -> int {
        *self as int
    }

    proof fn lemma_rank_injective(a: Self, b: Self) {
    }

    fn compare(&self, other: &Self) -> (r: KeyOrder) {
        if *self < *other {
            KeyOrder::Less
        } else if *self == *other {
            KeyOrder::Equal
        } else {
            KeyOrder::Greater
        }
    }
}

impl SortKey for u32 {
    open spec fn rank(&self) -> int {
        *self as int
    }

    proof fn lemma_rank_injective(a: Self, b: Self) {
    }

    fn compare(&self, other: &Self) -> (r: KeyOrder) {
        if *self < *other {
            KeyOrder::Less
        } else if *self == *other {
            KeyOrder::Equal
        } else {
            KeyOrder::Greater
        }
    }
}

impl SortKey for u64 {
    open spec fn rank(&self) -> int {
        *self as int
    }

    proof fn lemma_rank_injective(a: Self, b: Self) {
    }

    fn compare(&self, other: &Self) -> (r: KeyOrder) {
        if *self < *other {
            KeyOrder::Less
        } else if *self == *other {
            KeyOrder::Equal
        } else {
            KeyOrder::Greater
        }
    }
}

impl SortKey for usize {
    open spec fn rank(&self) -> int {
        *self as int
    }

    proof fn lemma_rank_injective(a: Self, b: Self) {
    }

    fn compare(&self, other: &Self) -> (r: KeyOrder) {
        if *self < *other {
            KeyOrder::Less
        } else if *self == *other {
            KeyOrder::Equal
        } else {
            KeyOrder::Greater
        }
    }
}

/// The keys of `s` strictly increase.
pub open spec fn strictly_sorted<K: SortKey, V>(s: Seq<(K, V)>) -> bool {
    forall|i: int, j: int| 0 <= i < j < s.len() ==> s[i].0.rank() < s[j].0.rank()
}

/// The keys of `s` never decrease.
pub open spec fn sorted<K: SortKey, V>(s: Seq<(K, V)>) -> bool {
    forall|i: int, j: int| 0 <= i <= j < s.len() ==> s[i].0.rank() <= s[j].0.rank()
}

/// A key that can be compared for equality.
pub trait KeyEq: Sized {
    /// `self` and `other` count as the same key.
    spec fn same(&self, other: &Self) -> bool;

    /// Whether `self` and `other` count as the same key.
    fn same_key(&self, other: &Self) -> (r: bool)
        ensures
            r == self.same(other),
    ;

    /// Every key counts as the same as itself.
    proof fn lemma_same_reflexive(a: Self)
        ensures
            a.same(&a),
    ;

    /// Two keys count as the same exactly when they are equal.
    proof fn lemma_same_is_equality(a: Self, b: Self)
        ensures
            a.same(&b) == (a == b),
    ;
}

impl KeyEq for i32 {
    open spec fn same(&self, other: &Self) -> bool {
        *self == *other
    }

    proof fn lemma_same_reflexive(a: Self) {
    }

    proof fn lemma_same_is_equality(a: Self, b: Self) {
    }

    fn same_key(&self, other: &Self) -> (r: bool) {
        *self == *other
    }
}

impl KeyEq for i64 {
    open spec fn same(&self, other: &Self) -> bool {
        *self == *other
    }

    proof fn lemma_same_reflexive(a: Self) {
    }

    proof fn lemma_same_is_equality(a: Self, b: Self) {
    }

    fn same_key(&self, other: &Self) -> (r: bool) {
        *self == *other
    }
}

impl KeyEq for u8 {
    open spec fn same(&self, other: &Self) -> bool {
        *self == *other
    }

    proof fn lemma_same_reflexive(a: Self) {
    }

    proof fn lemma_same_is_equality(a: Self, b: Self) {
    }

    fn same_key(&self, other: &Self) -> (r: bool) {
        *self == *other
    }
}

impl KeyEq for u32 {
    open spec fn same(&self, other: &Self) -> bool {
        *self == *other
    }

    proof fn lemma_same_reflexive(a: Self) {
    }

    proof fn lemma_same_is_equality(a: Self, b: Self) {
    }

    fn same_key(&self, other: &Self) -> (r: bool) {
        *self == *other
    }
}

impl KeyEq for u64 {
    open spec fn same(&self, other: &Self) -> bool {
        *self == *other
    }

    proof fn lemma_same_reflexive(a: Self) {
    }

    proof fn lemma_same_is_equality(a: Self, b: Self) {
    }

    fn same_key(&self, other: &Self) -> (r: bool) {
        *self == *other
    }
}

impl KeyEq for usize {
    open spec fn same(&self, other: &Self) -> bool {
        *self == *other
    }

    proof fn lemma_same_reflexive(a: Self) {
    }

    proof fn lemma_same_is_equality(a: Self, b: Self) {
    }

    fn same_key(&self, other: &Self) -> (r: bool) {
        *self == *other
    }
}

impl KeyEq for char {
    open spec fn same(&self, other: &Self) -> bool {
        *self == *other
    }

    proof fn lemma_same_reflexive(a: Self) {
    }

    proof fn lemma_same_is_equality(a: Self, b: Self) {
    }

    fn same_key(&self, other: &Self) -> (r: bool) {
        *self == *other
    }
}

impl KeyEq for bool {
    open spec fn same(&self, other: &Self) -> bool {
        *self == *other
    }

    proof fn lemma_same_reflexive(a: Self) {
    }

    proof fn lemma_same_is_equality(a: Self, b: Self) {
    }

    fn same_key(&self, other: &Self) -> (r: bool) {
        *self == *other
    }
}

/// `i32` keys sort in their natural order: one ranks below another exactly when it is
/// smaller, and ranks the same exactly when it is equal.
pub proof fn lemma_i32_rank_follows_order(a: i32, b: i32)
    ensures
        (a < b) == (a.rank() < b.rank()),
        (a == b) == (a.rank() == b.rank()),
        (a > b) == (a.rank() > b.rank()),
{
}

/// `i64` keys sort in their natural order: one ranks below another exactly when it is
/// smaller, and ranks the same exactly when it is equal.
pub proof fn lemma_i64_rank_follows_order(a: i64, b: i64)
    ensures
        (a < b) == (a.rank() < b.rank()),
        (a == b) == (a.rank() == b.rank()),
        (a > b) == (a.rank() > b.rank()),
{
}

/// `u32` keys sort in their natural order: one ranks below another exactly when it is
/// smaller, and ranks the same exactly when it is equal.
pub proof fn lemma_u32_rank_follows_order(a: u32, b: u32)
    ensures
        (a < b) == (a.rank() < b.rank()),
        (a == b) == (a.rank() == b.rank()),
        (a > b) == (a.rank() > b.rank()),
{
}

/// `u64` keys sort in their natural order: one ranks below another exactly when it is
/// smaller, and ranks the same exactly when it is equal.
pub proof fn lemma_u64_rank_follows_order(a: u64, b: u64)
    ensures
        (a < b) == (a.rank() < b.rank()),
        (a == b) == (a.rank() == b.rank()),
        (a > b) == (a.rank() > b.rank()),
{
}

/// `usize` keys sort in their natural order: one ranks below another exactly when it is
/// smaller, and ranks the same exactly when it is equal.
pub proof fn lemma_usize_rank_follows_order(a: usize, b: usize)
    ensures
        (a < b) == (a.rank() < b.rank()),
        (a == b) == (a.rank() == b.rank()),
        (a > b) == (a.rank() > b.rank()),
{
}

} // verus!
