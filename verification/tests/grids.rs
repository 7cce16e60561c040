use edge_match::edge::Edge::{self, HA, HC, HI, HO, PA, PC, PI, PO};
use edge_match::grid::{state_to_tiles, tiles_to_state};

fn puzzle() -> [[(Edge, Edge, Edge, Edge); 4]; 4] {
    [
        [(HI, HC, PI, PI), (HI, HO, PC, PA), (HO, HI, PA, PO), (HO, HC, PO, PI)],
        [(HO, HA, PA, PA), (HA, HI, PO, PI), (HI, HI, PO, PC), (HC, HO, PO, PC)],
        [(HO, HI, PO, PO), (HI, HO, PI, PA), (HI, HA, PI, PC), (HC, HA, PO, PI)],
        [(HA, HO, PO, PC), (HO, HC, PA, PO), (HO, HC, PI, PI), (HC, HA, PC, PA)],
    ]
}

#[test]
fn tiles_to_state_is_row_major() {
    let state = tiles_to_state(puzzle());
    assert_eq!(
        state,
        [
            0xcc12, 0xde02, 0xfd20, 0xcf10, 0xdd30, 0xcf23, 0xef22, 0xef01, 0xff20, 0xdc02,
            0xec32, 0xcf31, 0xef03, 0xfd10, 0xcc10, 0xde31
        ]
    );
}

#[test]
fn state_to_tiles_inverts_tiles_to_state() {
    let tiles = puzzle();
    assert_eq!(state_to_tiles(tiles_to_state(tiles)), tiles);
}

#[test]
fn tiles_to_state_inverts_state_to_tiles() {
    let mut state = [0u16; 16];
    let codes = [0u16, 1, 2, 3, 15, 14, 12, 13];
    for (p, slot) in state.iter_mut().enumerate() {
        let a = codes[p % 8];
        let b = codes[(p * 3 + 1) % 8];
        let c = codes[(p * 5 + 2) % 8];
        let d = codes[(p * 7 + 3) % 8];
        *slot = a | (b << 4) | (c << 8) | (d << 12);
    }
    assert_eq!(tiles_to_state(state_to_tiles(state)), state);
    let tiles = state_to_tiles(state);
    assert_eq!(tiles[0][0], (HO, HC, HI, HA));
    assert_eq!(tiles[1][1], (PC, HO, HA, PI));
}
