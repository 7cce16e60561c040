use edge_match::edge::Edge;
use edge_match::tile::{apply_transform, decode_tile, encode_tile, mirror, rotate};
use edge_match::tile::{BOTTOM, LEFT, RIGHT, TOP};

fn sample_tiles() -> Vec<u16> {
    let mut tiles = vec![0x0000, 0xffff, 0xdcba, 0x3210, 0xcc12, 0xf00f, 0x1234, 0x8001];
    let mut x: u32 = 12345;
    for _ in 0..200 {
        x = x.wrapping_mul(1103515245).wrapping_add(12345);
        tiles.push((x >> 8) as u16);
    }
    tiles
}

#[test]
fn side_shifts_are_nibble_offsets() {
    assert_eq!((TOP, RIGHT, BOTTOM, LEFT), (0, 4, 8, 12));
}

#[test]
fn encode_tile_puts_top_in_low_nibble() {
    let t = encode_tile((Edge::HI, Edge::HC, Edge::PI, Edge::PI));
    assert_eq!(t, 0xcc12);
    let t = encode_tile((Edge::PO, Edge::PC, Edge::PA, Edge::HA));
    assert_eq!(t, 0x3def);
}

#[test]
fn decode_tile_inverts_encode_tile() {
    let all = [
        Edge::HO,
        Edge::HC,
        Edge::HI,
        Edge::HA,
        Edge::PO,
        Edge::PC,
        Edge::PI,
        Edge::PA,
    ];
    for a in all {
        for b in all {
            for c in all {
                for d in all {
                    assert_eq!(decode_tile(encode_tile((a, b, c, d))), (a, b, c, d));
                }
            }
        }
    }
}

#[test]
fn rotate_moves_each_side_one_place() {
    assert_eq!(rotate(0xdcba, 0), 0xdcba);
    assert_eq!(rotate(0xdcba, 1), 0xadcb);
    assert_eq!(rotate(0xdcba, 2), 0xbadc);
    assert_eq!(rotate(0xdcba, 3), 0xcbad);
    assert_eq!(rotate(0xdcba, 4), 0xdcba);
    assert_eq!(rotate(0xdcba, 7), 0xcbad);
}

#[test]
fn rotate_agrees_with_bit_rotation() {
    for t in sample_tiles() {
        for k in 0u32..12 {
            assert_eq!(rotate(t, k), t.rotate_right((k % 4) * 4));
        }
    }
}

#[test]
fn rotations_compose_by_addition() {
    for t in sample_tiles() {
        assert_eq!(rotate(t, 0), t);
        for a in 0u32..4 {
            for b in 0u32..4 {
                assert_eq!(rotate(rotate(t, a), b), rotate(t, (a + b) % 4));
            }
        }
    }
}

#[test]
fn mirror_swaps_top_and_bottom_only() {
    assert_eq!(mirror(0xdcba), 0xdabc);
    assert_eq!(mirror(0x3210), 0x3012);
}

#[test]
fn mirror_twice_is_identity() {
    for t in sample_tiles() {
        assert_eq!(mirror(mirror(t)), t);
    }
}

#[test]
fn apply_transform_enumerates_rotations_then_mirrored_rotations() {
    let t = 0xdcba;
    let got: Vec<u16> = (0u32..8).map(|v| apply_transform(t, v)).collect();
    assert_eq!(
        got,
        vec![0xdcba, 0xadcb, 0xbadc, 0xcbad, 0xdabc, 0xabcd, 0xbcda, 0xcdab]
    );
    for v in 0u32..8 {
        let turned = rotate(t, v % 4);
        let want = if v < 4 { turned } else { mirror(turned) };
        assert_eq!(apply_transform(t, v), want);
    }
}

#[test]
fn variants_of_an_asymmetric_tile_are_all_different() {
    let t = 0x3210;
    let mut seen: Vec<u16> = (0u32..8).map(|v| apply_transform(t, v)).collect();
    seen.sort();
    seen.dedup();
    assert_eq!(seen.len(), 8);
}

#[test]
fn variants_coincide_only_for_symmetric_tiles() {
    let all_same = 0x1111;
    for v in 0u32..8 {
        assert_eq!(apply_transform(all_same, v), all_same);
    }
    for t in sample_tiles() {
        let variants: Vec<u16> = (0u32..8).map(|v| apply_transform(t, v)).collect();
        let mut clash = false;
        for a in 0..8 {
            for b in (a + 1)..8 {
                clash = clash || variants[a] == variants[b];
            }
        }
        let symmetric = (1..8).any(|c| variants[c] == t);
        assert_eq!(clash, symmetric);
    }
}
