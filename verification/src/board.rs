//! The board as four 128-bit words, one for each side of the tiles, with the
//! one-hot code of a marking in the byte of its position, and the validity
//! test that looks at all sixteen positions at once.

use vstd::prelude::*;
use crate::edge::{decode, edge_of, from_one_hot, is_edge_code, swap_byte_nibbles, Edge};
use crate::edge::{lemma_complement_involution, lemma_mask_complement, lemma_code_round_trip};
use crate::rule::{board_valid, joins_at, lemma_right_neighbour};
use crate::tile::{bottom, left, lemma_join_of_sides, mates, right, tile_ok, top};
use crate::tile::{encode_tile, lemma_tile_is_its_sides};
use crate::grid::state_ok;
use crate::word::{byte_of, word_bytes, Ext};
use crate::word::{lemma_all_ones_bytes, lemma_swapped_word, swapped_word};

verus! {

/// A board in four words: byte `p` of each word holds the one-hot code of
/// the marking on that side of the tile at position `p`.
#[derive(Copy, Clone, Debug, PartialEq, Eq, Structural)]
pub struct Planes {
    pub top: u128,
    pub right: u128,
    pub bottom: u128,
    pub left: u128,
}

/// Whether two one-hot codes fit together: the first meets the second with
/// its nibbles exchanged.
pub open spec fn meets(pred: u8, succ: u8) -> bool {
    pred & swap_byte_nibbles(succ) != 0
}

/// The one-hot code of the marking that a valid four-bit code stands for.
pub open spec fn mask_of(code: u16) -> u8 {
    edge_of(code as u8).mask()
}

/// Whether a position of a board of `side` columns has a right neighbour in
/// its row.
pub open spec fn has_right(side: int, p: int) -> bool {
    0 <= p < side * side && (p + 1) % side != 0
}

/// Whether a position of a board of `side` rows has a neighbour below.
pub open spec fn has_below(side: int, p: int) -> bool {
    0 <= p && p + side < side * side
}

impl Planes {
    /// Whether the words hold the tiles of `s`, position by position.
    pub open spec fn depicts(self, s: Seq<u16>) -> bool {
        forall|p: int|
            0 <= p < 16 ==> {
                &&& #[trigger] word_bytes(self.top)[p] == mask_of(top(s[p]))
                &&& word_bytes(self.right)[p] == mask_of(right(s[p]))
                &&& word_bytes(self.bottom)[p] == mask_of(bottom(s[p]))
                &&& word_bytes(self.left)[p] == mask_of(left(s[p]))
            }
    }

    /// Whether every tile with a neighbour below fits it.
    pub open spec fn rows_fit(self, side: int) -> bool {
        forall|p: int|
            0 <= p < 16 && has_below(side, p) ==> meets(
                #[trigger] word_bytes(self.bottom)[p],
                word_bytes(self.top)[p + side],
            )
    }

    /// Whether every tile with a right neighbour in its row fits it.
    pub open spec fn columns_fit(self, side: int) -> bool {
        forall|p: int|
            0 <= p < 16 && has_right(side, p) ==> meets(
                #[trigger] word_bytes(self.right)[p],
                word_bytes(self.left)[p + 1],
            )
    }

    /// The adjacency rule on the four words. Pairs across the end of a row,
    /// across the bottom of the board or beyond its last position are not
    /// looked at.
    pub open spec fn fits(self, side: int) -> bool {
        self.rows_fit(side) && self.columns_fit(side)
    }
}

/// The word that has a byte of ones wherever a position has no right
/// neighbour in its row, on a board of `side` columns.
pub open spec fn row_end_mask(side: u128) -> u128 {
    if side == 2 {
        0xffffffffffffffffffffffffff00ff00
    } else if side == 3 {
        0xffffffffffffffff0000ff0000ff0000
    } else if side == 4 {
        0xff000000ff000000ff000000ff000000
    } else {
        0xffffffffffffffffffffffffffffffff
    }
}

/// The word that has a byte of ones wherever a position has no neighbour
/// below, on a board of `side` rows.
pub open spec fn last_row_mask(side: u128) -> u128 {
    if side == 2 {
        0xffffffffffffffffffffffffffff0000
    } else if side == 3 {
        0xffffffffffffffffffff000000000000
    } else if side == 4 {
        0xffffffff000000000000000000000000
    } else {
        0xffffffffffffffffffffffffffffffff
    }
}

proof fn lemma_masks(side: u128, p: u128)
    by (bit_vector)
    requires
        1 <= side <= 4,
        p < 16,
    ensures
        byte_of(row_end_mask(side), p) != 0 <==> !(p < side * side && ((p + 1) as u128) % side != 0),
        byte_of(last_row_mask(side), p) != 0 <==> !(p + side < side * side),
{
}

/// Byte `p` of the test word: nonzero where the mask says so, and elsewhere
/// exactly where the two one-hot codes fit.
proof fn lemma_test_byte(pred: u128, succ: u128, mask: u128, k: u128, p: u128)
    by (bit_vector)
    requires
        k <= 4,
        p < 16,
    ensures
        byte_of((pred & swapped_word(succ >> (k * 8))) | mask, p) != 0 <==> (byte_of(mask, p) != 0
            || (p + k < 16 && byte_of(pred, p) & swap_byte_nibbles(byte_of(succ, (p + k) as u128))
            != 0)),
{
}

/// The mask for the test of the pairs side by side.
fn row_end(side: usize) -> (m: u128)
    ensures
        m == row_end_mask(side as u128),
{
    if side == 2 {
        0xffffffffffffffffffffffffff00ff00
    } else if side == 3 {
        0xffffffffffffffff0000ff0000ff0000
    } else if side == 4 {
        0xff000000ff000000ff000000ff000000
    } else {
        0xffffffffffffffffffffffffffffffff
    }
}

/// The mask for the test of the pairs above and below each other.
fn last_row(side: usize) -> (m: u128)
    ensures
        m == last_row_mask(side as u128),
{
    if side == 2 {
        0xffffffffffffffffffffffffffff0000
    } else if side == 3 {
        0xffffffffffffffffffff000000000000
    } else if side == 4 {
        0xffffffff000000000000000000000000
    } else {
        0xffffffffffffffffffffffffffffffff
    }
}

/// Whether every byte of the test word for successors `k` positions on is
/// other than zero.
fn pairs_fit(pred: u128, succ: u128, mask: u128, k: usize) -> (r: bool)
    requires
        k <= 4,
    ensures
        r == (forall|p: int|
            0 <= p < 16 ==> (#[trigger] byte_of(mask, p as u128) != 0 || (p + k < 16 && meets(
                byte_of(pred, p as u128),
                byte_of(succ, (p + k) as u128),
            )))),
{
    let shift: u128 = k as u128 * 8;
    let shifted: u128 = succ >> shift;
    let turned: u128 = shifted.swap_nibbles();
    let test: u128 = (pred & turned) | mask;
    let r = test.all_bytes_nonzero();
    proof {
        assert(test.bytes() == word_bytes(test));
        assert(shifted.bytes() == word_bytes(shifted));
        assert(turned.bytes() == word_bytes(turned));
        lemma_swapped_word(shifted, turned);
        assert forall|p: int| 0 <= p < 16 implies (#[trigger] word_bytes(test)[p] != 0 <==> (
        byte_of(mask, p as u128) != 0 || (p + k < 16 && meets(
            byte_of(pred, p as u128),
            byte_of(succ, (p + k) as u128),
        )))) by {
            lemma_test_byte(pred, succ, mask, k as u128, p as u128);
        }
        if r {
            assert forall|p: int| 0 <= p < 16 implies (#[trigger] byte_of(mask, p as u128) != 0
                || (p + k < 16 && meets(
                byte_of(pred, p as u128),
                byte_of(succ, (p + k) as u128),
            ))) by {
                assert(word_bytes(test)[p] != 0);
            }
        }
    }
    r
}

/// Whether the board obeys the adjacency rule, by two tests on whole words:
/// one for the pairs above and below each other, and, if that holds, one
/// for the pairs side by side.
pub fn is_valid(planes: &Planes, side: usize) -> (r: bool)
    requires
        side <= 4,
    ensures
        r == planes.fits(side as int),
{
    let below_mask: u128 = last_row(side);
    let rows = pairs_fit(planes.bottom, planes.top, below_mask, side);
    proof {
        assert(side * side <= 16) by (nonlinear_arith)
            requires
                side <= 4,
        ;
        assert forall|p: int| 0 <= p < 16 implies (#[trigger] byte_of(below_mask, p as u128) != 0
            <==> !has_below(side as int, p)) by {
            if side >= 1 {
                lemma_masks(side as u128, p as u128);
                assert((side as u128) * (side as u128) == (side as int) * (side as int));
                assert(((p as u128 + 1) as u128) % (side as u128) == (p + 1) % (side as int));
            } else {
                assert((side as int) * (side as int) == 0) by (nonlinear_arith)
                    requires
                        side == 0,
                ;
                lemma_all_ones_bytes(below_mask, p as u128);
            }
        }
        if rows {
            assert forall|p: int| 0 <= p < 16 && has_below(side as int, p) implies meets(
                #[trigger] word_bytes(planes.bottom)[p],
                word_bytes(planes.top)[p + side],
            ) by {
                assert(byte_of(below_mask, p as u128) == 0);
            }
        } else {
            let p = choose|p: int|
                0 <= p < 16 && !(#[trigger] byte_of(below_mask, p as u128) != 0 || (p + side < 16
                    && meets(
                    byte_of(planes.bottom, p as u128),
                    byte_of(planes.top, (p + side) as u128),
                )));
            assert(has_below(side as int, p));
            assert(!meets(word_bytes(planes.bottom)[p], word_bytes(planes.top)[p + side]));
        }
    }
    if !rows {
        return false;
    }
    let beside_mask: u128 = row_end(side);
    let columns = pairs_fit(planes.right, planes.left, beside_mask, 1);
    proof {
        assert forall|p: int| 0 <= p < 16 implies (#[trigger] byte_of(beside_mask, p as u128) != 0
            <==> !has_right(side as int, p)) by {
            if side >= 1 {
                lemma_masks(side as u128, p as u128);
                assert((side as u128) * (side as u128) == (side as int) * (side as int));
                assert(((p as u128 + 1) as u128) % (side as u128) == (p + 1) % (side as int));
            } else {
                assert((side as int) * (side as int) == 0) by (nonlinear_arith)
                    requires
                        side == 0,
                ;
                lemma_all_ones_bytes(beside_mask, p as u128);
            }
        }
        if columns {
            assert forall|p: int| 0 <= p < 16 && has_right(side as int, p) implies meets(
                #[trigger] word_bytes(planes.right)[p],
                word_bytes(planes.left)[p + 1],
            ) by {
                assert(byte_of(beside_mask, p as u128) == 0);
            }
        } else {
            let p = choose|p: int|
                0 <= p < 16 && !(#[trigger] byte_of(beside_mask, p as u128) != 0 || (p + 1 < 16
                    && meets(
                    byte_of(planes.right, p as u128),
                    byte_of(planes.left, (p + 1) as u128),
                )));
            assert(has_right(side as int, p));
            lemma_right_neighbour(side as int, p);
            assert(!meets(word_bytes(planes.right)[p], word_bytes(planes.left)[p + 1]));
        }
    }
    columns
}

proof fn lemma_put_byte(w: u128, m: u8, p: u128, k: u128)
    by (bit_vector)
    requires
        p < 16,
        k < 16,
        byte_of(w, p) == 0,
    ensures
        byte_of(w | ((m as u128) << (p * 8)), k) == if k == p {
            m
        } else {
            byte_of(w, k)
        },
{
}

/// The word with byte `p`, which was zero, set to `m`.
fn with_byte(w: u128, p: usize, m: u8) -> (r: u128)
    requires
        p < 16,
        word_bytes(w)[p as int] == 0,
    ensures
        word_bytes(r) == word_bytes(w).update(p as int, m),
{
    let shift: u128 = p as u128 * 8;
    let r: u128 = w | ((m as u128) << shift);
    proof {
        assert forall|k: int| 0 <= k < 16 implies #[trigger] word_bytes(r)[k] == word_bytes(
            w,
        ).update(p as int, m)[k] by {
            lemma_put_byte(w, m, p as u128, k as u128);
        }
        assert(word_bytes(r) =~= word_bytes(w).update(p as int, m));
    }
    r
}

proof fn lemma_zero_word(k: u128)
    by (bit_vector)
    requires
        k < 16,
    ensures
        byte_of(0, k) == 0,
{
}

proof fn lemma_mates_codes(a: u16, b: u16)
    by (bit_vector)
    requires
        a <= 15,
        b <= 15,
    ensures
        mates(a, b) <==> a == 15 - b,
{
}

/// Two valid codes fit exactly when their one-hot codes meet.
pub proof fn lemma_meets_is_mates(a: u16, b: u16)
    requires
        a <= 15,
        b <= 15,
        is_edge_code(a as u8),
        is_edge_code(b as u8),
    ensures
        meets(mask_of(a), mask_of(b)) <==> mates(a, b),
{
    let ea = edge_of(a as u8);
    let eb = edge_of(b as u8);
    lemma_mates_codes(a, b);
    lemma_mask_complement(ea, eb);
    lemma_complement_involution(eb);
    lemma_code_round_trip(ea, a as u8);
    lemma_code_round_trip(eb, b as u8);
    lemma_code_round_trip(eb.opposite(), 0);
}

impl Planes {
    /// The four words of a state whose tiles are all valid.
    pub fn from_state(state: &[u16; 16]) -> (r: Planes)
        requires
            state_ok(state@),
        ensures
            r.depicts(state@),
    {
        let mut r = Planes { top: 0, right: 0, bottom: 0, left: 0 };
        let mut p: usize = 0;
        proof {
            assert forall|k: int| 0 <= k < 16 implies #[trigger] word_bytes(0)[k] == 0 by {
                lemma_zero_word(k as u128);
            }
        }
        while p < 16
            invariant
                p <= 16,
                state_ok(state@),
                forall|k: int|
                    0 <= k < p ==> #[trigger] word_bytes(r.top)[k] == mask_of(top(state@[k])),
                forall|k: int| p <= k < 16 ==> #[trigger] word_bytes(r.top)[k] == 0,
                forall|k: int|
                    0 <= k < p ==> #[trigger] word_bytes(r.right)[k] == mask_of(right(state@[k])),
                forall|k: int| p <= k < 16 ==> #[trigger] word_bytes(r.right)[k] == 0,
                forall|k: int|
                    0 <= k < p ==> #[trigger] word_bytes(r.bottom)[k] == mask_of(bottom(state@[k])),
                forall|k: int| p <= k < 16 ==> #[trigger] word_bytes(r.bottom)[k] == 0,
                forall|k: int|
                    0 <= k < p ==> #[trigger] word_bytes(r.left)[k] == mask_of(left(state@[k])),
                forall|k: int| p <= k < 16 ==> #[trigger] word_bytes(r.left)[k] == 0,
            decreases 16 - p,
        {
            let t: u16 = state[p];
            proof {
                assert(tile_ok(state@[p as int]));
                lemma_join_of_sides(t);
            }
            let a: Edge = decode((t & 0x000f) as u8);
            let b: Edge = decode(((t >> 4) & 0x000f) as u8);
            let c: Edge = decode(((t >> 8) & 0x000f) as u8);
            let d: Edge = decode(((t >> 12) & 0x000f) as u8);
            r = Planes {
                top: with_byte(r.top, p, a.one_hot()),
                right: with_byte(r.right, p, b.one_hot()),
                bottom: with_byte(r.bottom, p, c.one_hot()),
                left: with_byte(r.left, p, d.one_hot()),
            };
            p = p + 1;
        }
        r
    }

    /// The state that the four words hold, or `None` where some byte is the
    /// one-hot code of no marking, so that they hold no state.
    pub fn to_state(&self) -> (r: Option<[u16; 16]>)
        ensures
            match r {
                Some(state) => state_ok(state@) && self.depicts(state@),
                None => forall|s: Seq<u16>| s.len() == 16 ==> !self.depicts(s),
            },
    {
        let tops: [u8; 16] = self.top.as_bytes();
        let rights: [u8; 16] = self.right.as_bytes();
        let bottoms: [u8; 16] = self.bottom.as_bytes();
        let lefts: [u8; 16] = self.left.as_bytes();
        let mut state: [u16; 16] = [0, 0, 0, 0, 0, 0, 0, 0, 0, 0, 0, 0, 0, 0, 0, 0];
        let mut p: usize = 0;
        while p < 16
            invariant
                p <= 16,
                tops@ == word_bytes(self.top),
                rights@ == word_bytes(self.right),
                bottoms@ == word_bytes(self.bottom),
                lefts@ == word_bytes(self.left),
                forall|k: int| 0 <= k < p ==> tile_ok(#[trigger] state[k]),
                forall|k: int|
                    0 <= k < p ==> {
                        &&& #[trigger] word_bytes(self.top)[k] == mask_of(top(state[k]))
                        &&& word_bytes(self.right)[k] == mask_of(right(state[k]))
                        &&& word_bytes(self.bottom)[k] == mask_of(bottom(state[k]))
                        &&& word_bytes(self.left)[k] == mask_of(left(state[k]))
                    },
            decreases 16 - p,
        {
            let a = from_one_hot(tops[p]);
            let b = from_one_hot(rights[p]);
            let c = from_one_hot(bottoms[p]);
            let d = from_one_hot(lefts[p]);
            match (a, b, c, d) {
                (Some(a), Some(b), Some(c), Some(d)) => {
                    state[p] = encode_tile((a, b, c, d));
                },
                _ => {
                    proof {
                        assert forall|s: Seq<u16>| s.len() == 16 implies !self.depicts(s) by {
                            if self.depicts(s) {
                                assert(word_bytes(self.top)[p as int] == mask_of(top(s[p as int])));
                            }
                        }
                    }
                    return None;
                },
            }
            p = p + 1;
        }
        Some(state)
    }

    /// The board with the tiles at positions `i` and `j` exchanged.
    pub fn swap_tiles(self, i: usize, j: usize) -> (r: Planes)
        requires
            i < 16,
            j < 16,
        ensures
            forall|s: Seq<u16>|
                s.len() == 16 && self.depicts(s) ==> r.depicts(
                    #[trigger] s.update(i as int, s[j as int]).update(j as int, s[i as int]),
                ),
            word_bytes(r.top) == word_bytes(self.top).update(
                i as int,
                word_bytes(self.top)[j as int],
            ).update(j as int, word_bytes(self.top)[i as int]),
            word_bytes(r.right) == word_bytes(self.right).update(
                i as int,
                word_bytes(self.right)[j as int],
            ).update(j as int, word_bytes(self.right)[i as int]),
            word_bytes(r.bottom) == word_bytes(self.bottom).update(
                i as int,
                word_bytes(self.bottom)[j as int],
            ).update(j as int, word_bytes(self.bottom)[i as int]),
            word_bytes(r.left) == word_bytes(self.left).update(
                i as int,
                word_bytes(self.left)[j as int],
            ).update(j as int, word_bytes(self.left)[i as int]),
    {
        let r = Planes {
            top: self.top.swap(i, j),
            right: self.right.swap(i, j),
            bottom: self.bottom.swap(i, j),
            left: self.left.swap(i, j),
        };
        proof {
            assert forall|s: Seq<u16>| s.len() == 16 && self.depicts(s) implies r.depicts(
                #[trigger] s.update(i as int, s[j as int]).update(j as int, s[i as int]),
            ) by {
                let t = s.update(i as int, s[j as int]).update(j as int, s[i as int]);
                assert forall|p: int| 0 <= p < 16 implies {
                    &&& #[trigger] word_bytes(r.top)[p] == mask_of(top(t[p]))
                    &&& word_bytes(r.right)[p] == mask_of(right(t[p]))
                    &&& word_bytes(r.bottom)[p] == mask_of(bottom(t[p]))
                    &&& word_bytes(r.left)[p] == mask_of(left(t[p]))
                } by {
                    assert(word_bytes(self.top)[p] == mask_of(top(s[p])));
                    assert(word_bytes(self.top)[i as int] == mask_of(top(s[i as int])));
                    assert(word_bytes(self.top)[j as int] == mask_of(top(s[j as int])));
                }
            }
            assert(self.top.bytes() == word_bytes(self.top) && r.top.bytes() == word_bytes(r.top));
            assert(self.right.bytes() == word_bytes(self.right) && r.right.bytes() == word_bytes(
                r.right,
            ));
            assert(self.bottom.bytes() == word_bytes(self.bottom) && r.bottom.bytes()
                == word_bytes(r.bottom));
            assert(self.left.bytes() == word_bytes(self.left) && r.left.bytes() == word_bytes(
                r.left,
            ));
        }
        r
    }
}

/// Whether the board obeys the adjacency rule, by looking at every pair of
/// neighbours in turn.
pub fn is_valid_naive(state: &[u16; 16], side: usize) -> (r: bool)
    requires
        side <= 4,
    ensures
        r == board_valid(state@, side as int),
{
    assert(side * side <= 16) by (nonlinear_arith)
        requires
            side <= 4,
    ;
    let cells: usize = side * side;
    let mut p: usize = 0;
    while p < cells
        invariant
            p <= cells <= 16,
            cells == side * side,
            side <= 4,
            forall|q: int| 0 <= q < p ==> #[trigger] joins_at(state@, side as int, q),
        decreases cells - p,
    {
        if (p + 1) % side != 0 {
            proof {
                lemma_right_neighbour(side as int, p as int);
            }
            let l: u16 = (state[p + 1] >> 12) & 0x000f;
            if (state[p] >> 4) & 0x000f != !l & 0x000f {
                assert(!joins_at(state@, side as int, p as int));
                return false;
            }
        }
        if p + side < cells {
            let t: u16 = state[p + side] & 0x000f;
            if (state[p] >> 8) & 0x000f != !t & 0x000f {
                assert(!joins_at(state@, side as int, p as int));
                return false;
            }
        }
        assert(joins_at(state@, side as int, p as int));
        p = p + 1;
    }
    true
}

/// Whether a state of valid tiles obeys the adjacency rule, by the test on
/// whole words.
pub fn is_valid_state(state: &[u16; 16], side: usize) -> (r: bool)
    requires
        side <= 4,
        state_ok(state@),
    ensures
        r == board_valid(state@, side as int),
{
    let planes = Planes::from_state(state);
    proof {
        lemma_validity_agrees(planes, state@, side as int);
    }
    is_valid(&planes, side)
}

/// The test on whole words and the scan over the pairs of neighbours agree:
/// four words that hold a board of valid tiles fit exactly when the board
/// obeys the adjacency rule.
pub proof fn lemma_validity_agrees(planes: Planes, s: Seq<u16>, side: int)
    requires
        0 <= side <= 4,
        s.len() == 16,
        state_ok(s),
        planes.depicts(s),
    ensures
        planes.fits(side) == board_valid(s, side),
{
    assert(side * side <= 16) by (nonlinear_arith)
        requires
            0 <= side <= 4,
    ;
    assert forall|p: int, q: int| 0 <= p < 16 && 0 <= q < 16 implies (meets(
        word_bytes(planes.right)[p],
        word_bytes(planes.left)[q],
    ) <==> mates(right(s[p]), left(s[q]))) && (meets(
        word_bytes(planes.bottom)[p],
        word_bytes(planes.top)[q],
    ) <==> mates(bottom(s[p]), top(s[q]))) by {
        assert(tile_ok(s[p]) && tile_ok(s[q]));
        assert(word_bytes(planes.top)[p] == mask_of(top(s[p])));
        assert(word_bytes(planes.top)[q] == mask_of(top(s[q])));
        lemma_join_of_sides(s[p]);
        lemma_join_of_sides(s[q]);
        lemma_meets_is_mates(right(s[p]), left(s[q]));
        lemma_meets_is_mates(bottom(s[p]), top(s[q]));
    }
    if planes.fits(side) {
        assert forall|p: int| 0 <= p < side * side implies #[trigger] joins_at(s, side, p) by {
            if (p + 1) % side != 0 {
                assert(has_right(side, p));
                lemma_right_neighbour(side, p);
                assert(meets(word_bytes(planes.right)[p], word_bytes(planes.left)[p + 1]));
            }
            if p + side < side * side {
                assert(has_below(side, p));
                assert(meets(word_bytes(planes.bottom)[p], word_bytes(planes.top)[p + side]));
            }
        }
    }
    if board_valid(s, side) {
        assert forall|p: int| 0 <= p < 16 && has_below(side, p) implies meets(
            #[trigger] word_bytes(planes.bottom)[p],
            word_bytes(planes.top)[p + side],
        ) by {
            assert(joins_at(s, side, p));
        }
        assert forall|p: int| 0 <= p < 16 && has_right(side, p) implies meets(
            #[trigger] word_bytes(planes.right)[p],
            word_bytes(planes.left)[p + 1],
        ) by {
            lemma_right_neighbour(side, p);
            assert(joins_at(s, side, p));
        }
    }
}

/// Four words hold at most one state of valid tiles.
pub proof fn lemma_planes_hold_one_state(planes: Planes, s: Seq<u16>, t: Seq<u16>)
    requires
        s.len() == 16,
        t.len() == 16,
        state_ok(s),
        state_ok(t),
        planes.depicts(s),
        planes.depicts(t),
    ensures
        s == t,
{
    assert forall|p: int| 0 <= p < 16 implies s[p] == t[p] by {
        assert(tile_ok(s[p]) && tile_ok(t[p]));
        assert(word_bytes(planes.top)[p] == mask_of(top(s[p])));
        assert(word_bytes(planes.top)[p] == mask_of(top(t[p])));
        lemma_join_of_sides(s[p]);
        lemma_join_of_sides(t[p]);
        lemma_code_round_trip(Edge::HO, top(s[p]) as u8);
        lemma_code_round_trip(Edge::HO, right(s[p]) as u8);
        lemma_code_round_trip(Edge::HO, bottom(s[p]) as u8);
        lemma_code_round_trip(Edge::HO, left(s[p]) as u8);
        lemma_code_round_trip(Edge::HO, top(t[p]) as u8);
        lemma_code_round_trip(Edge::HO, right(t[p]) as u8);
        lemma_code_round_trip(Edge::HO, bottom(t[p]) as u8);
        lemma_code_round_trip(Edge::HO, left(t[p]) as u8);
        lemma_tile_is_its_sides(s[p], t[p]);
    }
    assert(s =~= t);
}

/// The outer sides of a board are free: two boards that agree on every side
/// that touches a neighbour obey the adjacency rule together or not at all.
pub proof fn lemma_outer_sides_free(s: Seq<u16>, t: Seq<u16>, side: int)
    requires
        forall|p: int|
            has_right(side, p) ==> right(#[trigger] s[p]) == right(t[p]) && left(s[p + 1]) == left(
                t[p + 1],
            ),
        forall|p: int|
            has_below(side, p) ==> bottom(#[trigger] s[p]) == bottom(t[p]) && top(s[p + side])
                == top(t[p + side]),
    ensures
        board_valid(s, side) == board_valid(t, side),
{
    if board_valid(s, side) {
        assert forall|p: int| 0 <= p < side * side implies #[trigger] joins_at(t, side, p) by {
            assert(joins_at(s, side, p));
            assert(right(s[p]) == right(t[p]) || !has_right(side, p));
            assert(bottom(s[p]) == bottom(t[p]) || !has_below(side, p));
        }
    }
    if board_valid(t, side) {
        assert forall|p: int| 0 <= p < side * side implies #[trigger] joins_at(s, side, p) by {
            assert(joins_at(t, side, p));
            assert(right(s[p]) == right(t[p]) || !has_right(side, p));
            assert(bottom(s[p]) == bottom(t[p]) || !has_below(side, p));
        }
    }
}

} // verus!
