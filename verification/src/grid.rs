//! The four-by-four board in its two forms: a grid of tiles given by their
//! markings, and the packed state of sixteen tiles in row-major order.

use vstd::prelude::*;
use crate::edge::Edge;
use crate::tile::{decode_tile, encode_tile, pack_tile, tile_ok, unpack_tile, lemma_tile_round_trip};

verus! {

/// Whether every tile of a packed state holds four valid codes.
pub open spec fn state_ok(state: Seq<u16>) -> bool {
    forall|p: int| 0 <= p < state.len() ==> tile_ok(#[trigger] state[p])
}

/// The packed state of a grid: position `4 * row + column` holds the packed
/// tile of that row and column.
pub open spec fn grid_state(tiles: [[(Edge, Edge, Edge, Edge); 4]; 4]) -> Seq<u16> {
    Seq::new(16, |p: int| pack_tile(tiles[p / 4][p % 4]))
}

/// The grid of a packed state, as four rows of four tiles.
pub open spec fn state_grid(state: Seq<u16>) -> Seq<Seq<(Edge, Edge, Edge, Edge)>> {
    Seq::new(4, |i: int| Seq::new(4, |j: int| unpack_tile(state[4 * i + j])))
}

/// A grid as four rows of four tiles.
pub open spec fn grid_rows(tiles: [[(Edge, Edge, Edge, Edge); 4]; 4]) -> Seq<
    Seq<(Edge, Edge, Edge, Edge)>,
> {
    Seq::new(4, |i: int| Seq::new(4, |j: int| tiles[i][j]))
}

/// Packs a grid of tiles into a state.
pub fn tiles_to_state(tiles: [[(Edge, Edge, Edge, Edge); 4]; 4]) -> (state: [u16; 16])
    ensures
        state@ == grid_state(tiles),
        state_ok(state@),
{
    let state: [u16; 16] = [
        encode_tile(tiles[0][0]),
        encode_tile(tiles[0][1]),
        encode_tile(tiles[0][2]),
        encode_tile(tiles[0][3]),
        encode_tile(tiles[1][0]),
        encode_tile(tiles[1][1]),
        encode_tile(tiles[1][2]),
        encode_tile(tiles[1][3]),
        encode_tile(tiles[2][0]),
        encode_tile(tiles[2][1]),
        encode_tile(tiles[2][2]),
        encode_tile(tiles[2][3]),
        encode_tile(tiles[3][0]),
        encode_tile(tiles[3][1]),
        encode_tile(tiles[3][2]),
        encode_tile(tiles[3][3]),
    ];
    assert(state@ =~= grid_state(tiles));
    state
}

/// Unpacks a state whose tiles are all valid into a grid of tiles.
pub fn state_to_tiles(state: [u16; 16]) -> (tiles: [[(Edge, Edge, Edge, Edge); 4]; 4])
    requires
        state_ok(state@),
    ensures
        grid_rows(tiles) == state_grid(state@),
        grid_state(tiles) == state@,
{
    let tiles: [[(Edge, Edge, Edge, Edge); 4]; 4] = [
        [
            decode_tile(state[0]),
            decode_tile(state[1]),
            decode_tile(state[2]),
            decode_tile(state[3]),
        ],
        [
            decode_tile(state[4]),
            decode_tile(state[5]),
            decode_tile(state[6]),
            decode_tile(state[7]),
        ],
        [
            decode_tile(state[8]),
            decode_tile(state[9]),
            decode_tile(state[10]),
            decode_tile(state[11]),
        ],
        [
            decode_tile(state[12]),
            decode_tile(state[13]),
            decode_tile(state[14]),
            decode_tile(state[15]),
        ],
    ];
    assert(grid_rows(tiles) =~~= state_grid(state@));
    assert(grid_state(tiles) =~= state@);
    tiles
}

/// Packing a grid and unpacking the state gives the grid back, tile for
/// tile, and the packed state of a grid is valid.
pub proof fn lemma_board_round_trip(tiles: [[(Edge, Edge, Edge, Edge); 4]; 4])
    ensures
        state_ok(grid_state(tiles)),
        state_grid(grid_state(tiles)) == grid_rows(tiles),
{
    assert forall|p: int| 0 <= p < 16 implies tile_ok(#[trigger] grid_state(tiles)[p]) by {
        lemma_tile_round_trip(tiles[p / 4][p % 4], 0);
    }
    assert forall|i: int, j: int| 0 <= i < 4 && 0 <= j < 4 implies unpack_tile(
        grid_state(tiles)[4 * i + j],
    ) == tiles[i][j] by {
        lemma_tile_round_trip(tiles[i][j], 0);
    }
    assert(state_grid(grid_state(tiles)) =~~= grid_rows(tiles));
}

} // verus!
