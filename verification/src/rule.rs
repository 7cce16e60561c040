//! The adjacency rule: which sides of a board of packed tiles touch, and
//! what it means that the tiles on both sides of every touch fit.

use vstd::prelude::*;
use crate::tile::{bottom, left, mates, right, top};

verus! {

/// Whether `piece` fits at position `i` of a board of `side` columns whose
/// earlier positions are those of `s`: its left side fits the right side of
/// the tile before it, unless `i` starts a row, and its top fits the bottom of
/// the tile above it, unless `i` is in the first row.
pub open spec fn fits(s: Seq<u16>, side: int, i: int, piece: u16) -> bool {
    &&& (i % side != 0 ==> mates(right(s[i - 1]), left(piece)))
    &&& (i >= side ==> mates(bottom(s[i - side]), top(piece)))
}

/// Whether the tile at position `p` fits its left and upper neighbours.
pub open spec fn fits_at(s: Seq<u16>, side: int, p: int) -> bool {
    fits(s, side, p, s[p])
}

/// Whether the first `n` positions of a board of `side` columns fit their
/// left and upper neighbours.
pub open spec fn prefix_valid(s: Seq<u16>, side: int, n: int) -> bool {
    forall|p: int| 0 <= p < n ==> #[trigger] fits_at(s, side, p)
}

/// Whether the tile at position `p` fits its right neighbour, if it has one
/// in its row, and its lower neighbour, if it has one on the board.
pub open spec fn joins_at(s: Seq<u16>, side: int, p: int) -> bool {
    &&& ((p + 1) % side != 0 ==> mates(right(s[p]), left(s[p + 1])))
    &&& (p + side < side * side ==> mates(bottom(s[p]), top(s[p + side])))
}

/// The adjacency rule of a board of `side` rows and columns: every tile that
/// has a right neighbour in its row fits it, and every tile that has a
/// neighbour below fits that. The outer sides of the board are free.
pub open spec fn board_valid(s: Seq<u16>, side: int) -> bool {
    forall|p: int| 0 <= p < side * side ==> #[trigger] joins_at(s, side, p)
}

/// A position that does not end its row has its right neighbour on the
/// board.
pub proof fn lemma_right_neighbour(side: int, p: int)
    requires
        0 <= side <= 4,
        0 <= p < side * side,
        (p + 1) % side != 0,
    ensures
        p + 1 < side * side,
        side * side <= 16,
{
    assert(side * side <= 16) by (nonlinear_arith)
        requires
            0 <= side <= 4,
    ;
    if side == 1 {
        assert((p + 1) % 1 == 0);
    } else if side == 2 {
        assert(side * side == 4 && (p + 1) % 2 != 0);
    } else if side == 3 {
        assert(side * side == 9 && (p + 1) % 3 != 0);
    } else {
        assert(side * side == 16 && (p + 1) % 4 != 0);
    }
}

/// A board whose every position fits its left and upper neighbour obeys the
/// adjacency rule, and the other way round.
pub proof fn lemma_prefix_is_board(s: Seq<u16>, side: int)
    requires
        0 <= side <= 4,
    ensures
        prefix_valid(s, side, side * side) <==> board_valid(s, side),
{
    assert(side * side <= 16) by (nonlinear_arith)
        requires
            0 <= side <= 4,
    ;
    if prefix_valid(s, side, side * side) {
        assert forall|p: int| 0 <= p < side * side implies #[trigger] joins_at(s, side, p) by {
            if (p + 1) % side != 0 {
                lemma_right_neighbour(side, p);
                assert(fits_at(s, side, p + 1));
            }
            if p + side < side * side {
                assert(fits_at(s, side, p + side));
            }
        }
    }
    if board_valid(s, side) {
        assert forall|p: int| 0 <= p < side * side implies #[trigger] fits_at(s, side, p) by {
            if p % side != 0 {
                assert(0int % side == 0) by (nonlinear_arith)
                    requires
                        side > 0,
                ;
                assert(joins_at(s, side, p - 1));
            }
            if p >= side {
                assert(joins_at(s, side, p - side));
            }
        }
    }
}

} // verus!
