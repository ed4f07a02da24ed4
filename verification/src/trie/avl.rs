//! The balance bookkeeping of an AVL rotation.
//!
//! Every node stores on which side, if any, its taller subtree hangs; the heights themselves are
//! not stored. A rotation towards `side` lifts the node's child on the other side into its
//! place, and has to work out the new balance of both nodes from the old ones alone. While a
//! tree is being rebalanced a stored balance may lag one step behind the true one; the mode says
//! by how much.

use vstd::prelude::*;

verus! {

/// A side of a node.
#[derive(Debug, Clone, Copy, PartialEq, Eq, Structural)]
pub enum Side {
    /// The left side.
    L,
    /// The right side.
    R,
}

/// A balance relative to a side: towards it (`Eq`) or away from it (`Ne`).
#[derive(Debug, Clone, Copy, PartialEq, Eq, Structural)]
pub enum Diff {
    /// On the same side.
    Eq,
    /// On the other side.
    Ne,
}

/// How far the stored balances lag behind the true ones when a rotation starts.
#[derive(Debug, Clone, Copy, PartialEq, Eq, Structural)]
pub enum Mode {
    /// The stored balances are the true ones.
    Balanced,
    /// The rotated node leans one step further away from the rotation than stored.
    Unbalanced,
    /// The rotated node and its lifted child both lean one step further away from the
    /// rotation than stored.
    VeryUnbalanced,
}

/// The other side.
pub open spec fn other(side: Side) -> Side {
    match side {
        Side::L => Side::R,
        Side::R => Side::L,
    }
}

/// A stored balance seen from `side`.
pub open spec fn relative_to(bias: Option<Side>, side: Side) -> Option<Diff> {
    match bias {
        None => None,
        Some(b) => Some(if b == side { Diff::Eq } else { Diff::Ne }),
    }
}

/// How much taller the subtree away from the side is than the one on the side, as stored.
pub open spec fn lean(d: Option<Diff>) -> int {
    match d {
        None => 0,
        Some(Diff::Eq) => -1,
        Some(Diff::Ne) => 1,
    }
}

/// The larger of two heights.
pub open spec fn taller(a: int, b: int) -> int {
    if a < b {
        b
    } else {
        a
    }
}

/// Heights `h1`, `h3`, `h5` of the three subtrees that a rotation moves (`h1` on the rotation's
/// side of the rotated node, `h3` and `h5` on the two sides of its lifted child) agree with
/// the stored balances `a2` and `a4`, seen from the rotation's side, and the mode.
pub open spec fn heights_fit(mode: Mode, a2: Option<Diff>, a4: Option<Diff>, h1: int, h3: int, h5: int) -> bool {
    &&& h1 >= 0 && h3 >= 0 && h5 >= 0
    &&& 1 + taller(h3, h5) - h1 == lean(a2) + if mode != Mode::Balanced { 1int } else { 0 }
    &&& h5 - h3 == lean(a4) + if mode == Mode::VeryUnbalanced { 1int } else { 0 }
}

/// The rotations that the rebalancing makes: in `Balanced` mode the rotated node leans away
/// from the rotation; otherwise the lifted child does not lean towards it.
pub open spec fn rotation_fits(mode: Mode, a2: Option<Diff>, a4: Option<Diff>) -> bool {
    match mode {
        Mode::Balanced => a2 == Some(Diff::Ne),
        Mode::Unbalanced => a2 != Some(Diff::Eq) && a4 != Some(Diff::Eq),
        Mode::VeryUnbalanced => a2 == Some(Diff::Ne) && a4 == Some(Diff::Ne),
    }
}

/// A stored balance seen from `side`.
pub fn relative(bias: Option<Side>, side: Side) -> (r: Option<Diff>)
    ensures
        r == relative_to(bias, side),
{
    match bias {
        None => None,
        Some(b) => Some(if b == side { Diff::Eq } else { Diff::Ne }),
    }
}

/// The stored balance that is `d` seen from `side`.
pub fn absolute(d: Option<Diff>, side: Side) -> (r: Option<Side>)
    ensures
        relative_to(r, side) == d,
{
    match d {
        None => None,
        Some(Diff::Eq) => Some(side),
        Some(Diff::Ne) => Some(match side {
            Side::L => Side::R,
            Side::R => Side::L,
        }),
    }
}

/// The new stored balances of a rotation towards `side` of the node with balance `b2` whose
/// child away from `side` has balance `b4`, and the mode that the next rotation starts in.
///
/// For all heights of the moved subtrees that fit the old balances and the mode, the new
/// balance of the rotated node is the true one, and so is that of the lifted child, except in
/// the one case where it comes out two steps towards `side`: then it is stored one step short
/// and the mode becomes `VeryUnbalanced`. A rotation in `Balanced` mode keeps the height of the
/// subtree; the others never raise it.
pub fn rotate_biases(side: Side, mode: Mode, b2: Option<Side>, b4: Option<Side>) -> (r: (
    Mode,
    Option<Side>,
    Option<Side>,
))
    requires
        rotation_fits(mode, relative_to(b2, side), relative_to(b4, side)),
    ensures
        mode != Mode::Balanced ==> r.0 == mode,
        mode == Mode::Balanced ==> r.0 != Mode::Balanced,
        forall|h1: int, h3: int, h5: int|
            #![trigger heights_fit(mode, relative_to(b2, side), relative_to(b4, side), h1, h3, h5)]
            heights_fit(mode, relative_to(b2, side), relative_to(b4, side), h1, h3, h5) ==> {
                let h2 = 1 + taller(h1, h3);
                let before = 1 + taller(h1, 1 + taller(h3, h5));
                let after = 1 + taller(h2, h5);
                &&& h3 - h1 == lean(relative_to(r.1, side))
                &&& mode == Mode::Balanced ==> (r.0 == Mode::VeryUnbalanced) == (h5 - h2 < -1)
                &&& h5 - h2 == lean(relative_to(r.2, side)) - if mode == Mode::Balanced && r.0
                    == Mode::VeryUnbalanced {
                    1int
                } else {
                    0
                }
                &&& mode == Mode::Balanced ==> after == before
                &&& after <= before
            },
{
    let a2 = relative(b2, side);
    let a4 = relative(b4, side);
    let (m, n2, n4) = match mode {
        Mode::Balanced => match a4 {
            None => (Mode::Unbalanced, None, Some(Diff::Eq)),
            Some(Diff::Eq) => (Mode::VeryUnbalanced, None, Some(Diff::Eq)),
            Some(Diff::Ne) => (Mode::Unbalanced, Some(Diff::Eq), Some(Diff::Eq)),
        },
        Mode::Unbalanced => match (a2, a4) {
            (None, None) => (mode, None, Some(Diff::Eq)),
            (None, _) => (mode, Some(Diff::Eq), Some(Diff::Eq)),
            (_, None) => (mode, Some(Diff::Ne), Some(Diff::Eq)),
            _ => (mode, None, None),
        },
        Mode::VeryUnbalanced => (mode, Some(Diff::Eq), None),
    };
    (m, absolute(n2, side), absolute(n4, side))
}

/// What to do at a parent whose subtree on one side changed height by one.
#[derive(Debug, Clone, Copy, PartialEq, Eq, Structural)]
pub enum Walk {
    /// Store this balance, and go on to the parent's parent: the parent's height changed too.
    Climb(Option<Side>),
    /// Store this balance, and stop: the parent's height did not change.
    Settle(Option<Side>),
    /// The parent now leans two steps: rotate it.
    Rebalance,
}

/// The step at a parent with stored balance `bias` whose subtree on `side` grew by one.
///
/// For heights `h` of that subtree and `o` of the other one that fit the stored balance, with
/// the subtree now one taller: the parent settles or climbs with its true new balance, climbing
/// exactly when its own height grew, or is rebalanced exactly when it leans two steps.
pub fn grow_step(bias: Option<Side>, side: Side) -> (r: Walk)
    ensures
        forall|h: int, o: int|
            #![trigger taller(h, o)]
            h >= 0 && o >= 0 && o - h == lean(relative_to(bias, side)) ==> {
                let h2 = h + 1;
                &&& (r is Rebalance) == (h2 - o == 2)
                &&& r matches Walk::Climb(b) ==> o - h2 == lean(relative_to(b, side)) && taller(h2, o)
                    == taller(h, o) + 1
                &&& r matches Walk::Settle(b) ==> o - h2 == lean(relative_to(b, side)) && taller(h2, o)
                    == taller(h, o)
            },
{
    match relative(bias, side) {
        Some(Diff::Eq) => Walk::Rebalance,
        Some(Diff::Ne) => Walk::Settle(None),
        None => Walk::Climb(Some(side)),
    }
}

/// The step at a parent with stored balance `bias` whose subtree on `side` shrank by one.
///
/// For heights `h` of that subtree (at least one) and `o` of the other one that fit the stored
/// balance, with the subtree now one shorter: the parent settles or climbs with its true new
/// balance, climbing exactly when its own height shrank, or is rebalanced exactly when it leans
/// two steps.
pub fn shrink_step(bias: Option<Side>, side: Side) -> (r: Walk)
    ensures
        forall|h: int, o: int|
            #![trigger taller(h, o)]
            h >= 1 && o >= 0 && o - h == lean(relative_to(bias, side)) ==> {
                let h2 = h - 1;
                &&& (r is Rebalance) == (o - h2 == 2)
                &&& r matches Walk::Climb(b) ==> o - h2 == lean(relative_to(b, side)) && taller(h2, o)
                    == taller(h, o) - 1
                &&& r matches Walk::Settle(b) ==> o - h2 == lean(relative_to(b, side)) && taller(h2, o)
                    == taller(h, o)
            },
{
    match relative(bias, side) {
        Some(Diff::Eq) => Walk::Climb(None),
        Some(Diff::Ne) => Walk::Rebalance,
        None => Walk::Settle(Some(match side {
            Side::L => Side::R,
            Side::R => Side::L,
        })),
    }
}

} // verus!
