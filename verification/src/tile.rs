//! Tiles packed into sixteen bits, four bits a side, and the rotations and the
//! mirror that turn a tile into its symmetry variants.

use vstd::prelude::*;
use crate::edge::{decode, edge_of, is_edge_code, Edge};

verus! {

/// Right shift that brings the top side into the low nibble.
pub const TOP: u8 = 0;

/// Right shift that brings the right side into the low nibble.
pub const RIGHT: u8 = 4;

/// Right shift that brings the bottom side into the low nibble.
pub const BOTTOM: u8 = 8;

/// Right shift that brings the left side into the low nibble.
pub const LEFT: u8 = 12;

/// The code on the top side of a packed tile.
pub open spec fn top(t: u16) -> u16 {
    t & 0x000f
}

/// The code on the right side of a packed tile.
pub open spec fn right(t: u16) -> u16 {
    (t >> 4) & 0x000f
}

/// The code on the bottom side of a packed tile.
pub open spec fn bottom(t: u16) -> u16 {
    (t >> 8) & 0x000f
}

/// The code on the left side of a packed tile.
pub open spec fn left(t: u16) -> u16 {
    (t >> 12) & 0x000f
}

/// The packed tile with the given codes on its sides, clockwise from the top.
pub open spec fn join(a: u16, b: u16, c: u16, d: u16) -> u16 {
    (a & 0x000f) | ((b & 0x000f) << 4) | ((c & 0x000f) << 8) | ((d & 0x000f) << 12)
}

/// One quarter turn: every side takes the code of the next side clockwise.
pub open spec fn quarter_turn(t: u16) -> u16 {
    join(right(t), bottom(t), left(t), top(t))
}

/// The tile after `k` quarter turns; only `k` modulo four counts.
pub open spec fn rotated(t: u16, k: int) -> u16 {
    if k % 4 == 0 {
        t
    } else if k % 4 == 1 {
        quarter_turn(t)
    } else if k % 4 == 2 {
        quarter_turn(quarter_turn(t))
    } else {
        quarter_turn(quarter_turn(quarter_turn(t)))
    }
}

/// The tile with its top and bottom sides exchanged; left and right stay.
pub open spec fn mirrored(t: u16) -> u16 {
    join(bottom(t), right(t), top(t), left(t))
}

/// The symmetry variant `variant` of a tile: `variant` modulo four quarter
/// turns, followed by the mirror when `variant` is four or more.
pub open spec fn transformed(t: u16, variant: int) -> u16 {
    if variant < 4 {
        rotated(t, variant)
    } else {
        mirrored(rotated(t, variant))
    }
}

/// Whether two side codes fit together: the first is the inverted second.
pub open spec fn mates(pred: u16, succ: u16) -> bool {
    pred == !succ & 0x000f
}

/// Whether each side of a packed tile holds the code of a marking.
pub open spec fn tile_ok(t: u16) -> bool {
    &&& is_edge_code(top(t) as u8)
    &&& is_edge_code(right(t) as u8)
    &&& is_edge_code(bottom(t) as u8)
    &&& is_edge_code(left(t) as u8)
}

/// The packed form of a tile given by its markings, clockwise from the top.
pub open spec fn pack_tile(t: (Edge, Edge, Edge, Edge)) -> u16 {
    join(t.0.code() as u16, t.1.code() as u16, t.2.code() as u16, t.3.code() as u16)
}

/// The markings of a packed tile, clockwise from the top.
pub open spec fn unpack_tile(t: u16) -> (Edge, Edge, Edge, Edge) {
    (
        edge_of(top(t) as u8),
        edge_of(right(t) as u8),
        edge_of(bottom(t) as u8),
        edge_of(left(t) as u8),
    )
}

proof fn lemma_sides_of_join(a: u16, b: u16, c: u16, d: u16)
    by (bit_vector)
    ensures
        top(join(a, b, c, d)) == a & 0x000f,
        right(join(a, b, c, d)) == b & 0x000f,
        bottom(join(a, b, c, d)) == c & 0x000f,
        left(join(a, b, c, d)) == d & 0x000f,
        a <= 15 ==> a & 0x000f == a,
        b <= 15 ==> b & 0x000f == b,
        c <= 15 ==> c & 0x000f == c,
        d <= 15 ==> d & 0x000f == d,
{
}

/// A packed tile is made of its four side codes, each below sixteen.
pub proof fn lemma_join_of_sides(t: u16)
    by (bit_vector)
    ensures
        join(top(t), right(t), bottom(t), left(t)) == t,
        top(t) <= 15,
        right(t) <= 15,
        bottom(t) <= 15,
        left(t) <= 15,
{
}

/// A packed tile is its four side codes and nothing more: two tiles with the
/// same codes are the same tile, and `join` puts each code on its side.
pub proof fn lemma_tile_is_its_sides(s: u16, t: u16)
    ensures
        (top(s) == top(t) && right(s) == right(t) && bottom(s) == bottom(t) && left(s) == left(
            t,
        )) ==> s == t,
        top(quarter_turn(t)) == right(t),
        right(quarter_turn(t)) == bottom(t),
        bottom(quarter_turn(t)) == left(t),
        left(quarter_turn(t)) == top(t),
        top(mirrored(t)) == bottom(t),
        right(mirrored(t)) == right(t),
        bottom(mirrored(t)) == top(t),
        left(mirrored(t)) == left(t),
{
    lemma_join_of_sides(s);
    lemma_join_of_sides(t);
    lemma_sides_of_join(right(t), bottom(t), left(t), top(t));
    lemma_sides_of_join(bottom(t), right(t), top(t), left(t));
}

/// Packs a tile given by its markings.
pub fn encode_tile(t: (Edge, Edge, Edge, Edge)) -> (r: u16)
    ensures
        r == pack_tile(t),
        tile_ok(r),
        unpack_tile(r) == t,
{
    let a: u16 = t.0.encode() as u16;
    let b: u16 = t.1.encode() as u16;
    let c: u16 = t.2.encode() as u16;
    let d: u16 = t.3.encode() as u16;
    proof {
        lemma_sides_of_join(a, b, c, d);
        assert((a << 0) | (b << 4) | (c << 8) | (d << 12) == join(a, b, c, d)) by (bit_vector)
            requires
                a <= 15,
                b <= 15,
                c <= 15,
                d <= 15,
        ;
    }
    (a << TOP) | (b << RIGHT) | (c << BOTTOM) | (d << LEFT)
}

/// The markings of a packed tile whose four codes are valid.
pub fn decode_tile(t: u16) -> (r: (Edge, Edge, Edge, Edge))
    requires
        tile_ok(t),
    ensures
        r == unpack_tile(t),
        pack_tile(r) == t,
{
    proof {
        lemma_join_of_sides(t);
    }
    let a: u8 = ((t >> TOP) & 0x000f) as u8;
    let b: u8 = ((t >> RIGHT) & 0x000f) as u8;
    let c: u8 = ((t >> BOTTOM) & 0x000f) as u8;
    let d: u8 = ((t >> LEFT) & 0x000f) as u8;
    proof {
        assert(t >> 0 == t) by (bit_vector);
    }
    (decode(a), decode(b), decode(c), decode(d))
}

/// Turns a tile by `k` quarter turns.
pub fn rotate(tile: u16, k: u32) -> (r: u16)
    ensures
        r == rotated(tile, k as int),
{
    let q: u32 = k % 4;
    proof {
        lemma_turns_as_shifts(tile);
    }
    if q == 0 {
        tile
    } else if q == 1 {
        (tile >> 4) | (tile << 12)
    } else if q == 2 {
        (tile >> 8) | (tile << 8)
    } else {
        (tile >> 12) | (tile << 4)
    }
}

/// Exchanges the top and bottom sides of a tile.
pub fn mirror(tile: u16) -> (r: u16)
    ensures
        r == mirrored(tile),
{
    let side_b_and_d: u16 = tile & 0xf0f0;
    let side_a: u16 = tile & 0x000f;
    let side_c: u16 = tile & 0x0f00;
    proof {
        assert(((tile & 0xf0f0) | ((tile & 0x000f) << 8) | ((tile & 0x0f00) >> 8)) == mirrored(
            tile,
        )) by (bit_vector);
    }
    side_b_and_d | (side_a << 8) | (side_c >> 8)
}

/// The symmetry variant `tfm` of a tile: variants 0 to 3 are the rotations,
/// variants 4 to 7 the mirrored rotations.
pub fn apply_transform(tile: u16, tfm: u32) -> (r: u16)
    ensures
        r == transformed(tile, tfm as int),
{
    let turned: u16 = rotate(tile, tfm);
    if tfm < 4 {
        turned
    } else {
        mirror(turned)
    }
}

proof fn lemma_turns_as_shifts(t: u16)
    by (bit_vector)
    ensures
        (t >> 4) | (t << 12) == quarter_turn(t),
        (t >> 8) | (t << 8) == quarter_turn(quarter_turn(t)),
        (t >> 12) | (t << 4) == quarter_turn(quarter_turn(quarter_turn(t))),
        quarter_turn(quarter_turn(quarter_turn(quarter_turn(t)))) == t,
{
}

proof fn lemma_mirror_facts(t: u16)
    by (bit_vector)
    ensures
        mirrored(mirrored(t)) == t,
        quarter_turn(mirrored(t)) == mirrored(quarter_turn(quarter_turn(quarter_turn(t)))),
{
}

/// Turning by nothing changes nothing, and two turns in a row are one turn by
/// the sum of the two.
pub proof fn lemma_rotation_group(t: u16, a: int, b: int)
    requires
        0 <= a,
        0 <= b,
    ensures
        rotated(t, 0) == t,
        rotated(rotated(t, a), b) == rotated(t, (a + b) % 4),
        rotated(rotated(t, a), b) == rotated(t, a + b),
{
    let q = quarter_turn(t);
    let qq = quarter_turn(q);
    let qqq = quarter_turn(qq);
    lemma_turns_as_shifts(t);
    lemma_turns_as_shifts(q);
    lemma_turns_as_shifts(qq);
    lemma_turns_as_shifts(qqq);
}

/// Mirroring twice gives the tile back.
pub proof fn lemma_mirror_involution(t: u16)
    ensures
        mirrored(mirrored(t)) == t,
{
    lemma_mirror_facts(t);
}

/// A turn after the mirror is the mirror after the opposite turn.
proof fn lemma_turn_after_mirror(t: u16, k: int)
    requires
        0 <= k,
    ensures
        rotated(mirrored(t), k) == mirrored(rotated(t, 4 - k % 4)),
{
    let q = quarter_turn(t);
    let qq = quarter_turn(q);
    let qqq = quarter_turn(qq);
    lemma_turns_as_shifts(t);
    lemma_mirror_facts(t);
    lemma_mirror_facts(q);
    lemma_mirror_facts(qq);
    lemma_mirror_facts(qqq);
}

/// Where a rotation of a tile is the mirror of a rotation of it, a mirrored
/// variant leaves the tile as it is.
proof fn lemma_mirror_symmetry(t: u16, x: int, y: int)
    requires
        0 <= x,
        0 <= y,
        rotated(t, x) == mirrored(rotated(t, y)),
    ensures
        exists|c: int| 1 <= c < 8 && #[trigger] transformed(t, c) == t,
{
    let back = 4 - x % 4;
    lemma_rotation_group(t, x, back);
    lemma_turn_after_mirror(rotated(t, y), back);
    lemma_rotation_group(t, y, 4 - back % 4);
    let c = 4 + (y + (4 - back % 4)) % 4;
    assert(rotated(t, c) == rotated(t, c - 4));
    assert(transformed(t, c) == t);
}

/// Two different variants of a tile coincide only where the tile has a
/// symmetry of its own: some variant other than the identity leaves it as
/// it is, and where both variants are rotations, so is that one.
pub proof fn lemma_variants_distinct(t: u16, a: int, b: int)
    requires
        0 <= a < 8,
        0 <= b < 8,
        a != b,
        transformed(t, a) == transformed(t, b),
    ensures
        exists|c: int|
            1 <= c < 8 && (a < 4 && b < 4 ==> c < 4) && #[trigger] transformed(t, c) == t,
{
    let ra = rotated(t, a);
    let rb = rotated(t, b);
    if (a < 4) == (b < 4) {
        let back = 4 - a % 4;
        lemma_rotation_group(t, a, back);
        lemma_rotation_group(t, b, back);
        lemma_mirror_facts(ra);
        lemma_mirror_facts(rb);
        assert(ra == rb);
        let c = (b + back) % 4;
        assert(rotated(t, c) == t);
        assert(c != 0);
        assert(1 <= c < 4 && transformed(t, c) == t);
    } else if a < 4 {
        lemma_mirror_symmetry(t, a, b);
        let c = choose|c: int| 1 <= c < 8 && #[trigger] transformed(t, c) == t;
        assert(1 <= c < 8 && (a < 4 && b < 4 ==> c < 4) && transformed(t, c) == t);
    } else {
        lemma_mirror_symmetry(t, b, a);
        let c = choose|c: int| 1 <= c < 8 && #[trigger] transformed(t, c) == t;
        assert(1 <= c < 8 && (a < 4 && b < 4 ==> c < 4) && transformed(t, c) == t);
    }
}

/// Packing the markings of a tile and unpacking them again gives the same
/// markings; unpacking a valid packed tile and packing it again gives the
/// same sixteen bits.
pub proof fn lemma_tile_round_trip(t: (Edge, Edge, Edge, Edge), p: u16)
    ensures
        tile_ok(pack_tile(t)),
        unpack_tile(pack_tile(t)) == t,
        tile_ok(p) ==> pack_tile(unpack_tile(p)) == p,
{
    lemma_sides_of_join(t.0.code() as u16, t.1.code() as u16, t.2.code() as u16, t.3.code() as u16);
    lemma_join_of_sides(p);
}

/// A variant of a valid tile is a valid tile.
pub proof fn lemma_variant_ok(t: u16, variant: int)
    requires
        tile_ok(t),
        0 <= variant,
    ensures
        tile_ok(transformed(t, variant)),
{
    let q = quarter_turn(t);
    let qq = quarter_turn(q);
    let qqq = quarter_turn(qq);
    lemma_tile_is_its_sides(t, t);
    lemma_tile_is_its_sides(q, q);
    lemma_tile_is_its_sides(qq, qq);
    lemma_tile_is_its_sides(qqq, qqq);
    lemma_tile_is_its_sides(rotated(t, variant), rotated(t, variant));
}

} // verus!
