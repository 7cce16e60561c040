use edge_match::board::{is_valid, is_valid_naive, is_valid_state, Planes};

const CODES: [u16; 8] = [0, 1, 2, 3, 15, 14, 12, 13];

struct Rng(u64);

impl Rng {
    fn next(&mut self) -> u64 {
        self.0 = self.0.wrapping_mul(6364136223846793005).wrapping_add(1442695040888963407);
        self.0 >> 33
    }

    fn code(&mut self) -> u16 {
        CODES[(self.next() % 8) as usize]
    }

    fn tile(&mut self) -> u16 {
        self.code() | (self.code() << 4) | (self.code() << 8) | (self.code() << 12)
    }
}

/// A board on which every inner pair fits; the outer sides are random.
fn fitting_board(rng: &mut Rng, side: usize) -> [u16; 16] {
    let mut state = [0u16; 16];
    for slot in state.iter_mut() {
        *slot = rng.tile();
    }
    for p in 0..side * side {
        if (p + 1) % side != 0 {
            let right = (state[p] >> 4) & 15;
            state[p + 1] = (state[p + 1] & 0x0fff) | ((!right & 15) << 12);
        }
        if p + side < side * side {
            let bottom = (state[p] >> 8) & 15;
            state[p + side] = (state[p + side] & 0xfff0) | (!bottom & 15);
        }
    }
    state
}

fn scan(state: &[u16; 16], side: usize) -> bool {
    for row in 0..side {
        for col in 0..side {
            let p = row * side + col;
            if col + 1 < side && (state[p] >> 4) & 15 != !(state[p + 1] >> 12) & 15 {
                return false;
            }
            if row + 1 < side && (state[p] >> 8) & 15 != !state[p + side] & 15 {
                return false;
            }
        }
    }
    true
}

#[test]
fn planes_hold_one_hot_codes_by_position() {
    let mut state = [0u16; 16];
    state[0] = 0xcde3;
    state[5] = 0x012f;
    let planes = Planes::from_state(&state);
    assert_eq!(planes.top & 0xff, 0x80);
    assert_eq!(planes.right & 0xff, 0x02);
    assert_eq!(planes.bottom & 0xff, 0x04);
    assert_eq!(planes.left & 0xff, 0x08);
    assert_eq!((planes.top >> 40) & 0xff, 0x01);
    assert_eq!((planes.right >> 40) & 0xff, 0x40);
    assert_eq!((planes.bottom >> 40) & 0xff, 0x20);
    assert_eq!((planes.left >> 40) & 0xff, 0x10);
    assert_eq!((planes.top >> 8) & 0xff, 0x10);
}

#[test]
fn word_test_agrees_with_pair_scan_on_random_boards() {
    let mut rng = Rng(7);
    let mut valid_seen = 0;
    let mut invalid_seen = 0;
    for round in 0..1500 {
        let side = 1 + round % 4;
        let mut state = fitting_board(&mut rng, side);
        if round % 2 == 1 {
            let p = (rng.next() as usize) % 16;
            state[p] = rng.tile();
        }
        let want = scan(&state, side);
        assert_eq!(is_valid_naive(&state, side), want);
        assert_eq!(is_valid(&Planes::from_state(&state), side), want);
        assert_eq!(is_valid_state(&state, side), want);
        if want {
            valid_seen += 1;
        } else {
            invalid_seen += 1;
        }
    }
    assert!(valid_seen > 100);
    assert!(invalid_seen > 100);
}

#[test]
fn word_test_agrees_with_pair_scan_on_fully_random_boards() {
    let mut rng = Rng(99);
    for round in 0..1200 {
        let side = round % 5;
        let mut state = [0u16; 16];
        for slot in state.iter_mut() {
            *slot = rng.tile();
        }
        assert_eq!(is_valid(&Planes::from_state(&state), side), scan(&state, side));
        assert_eq!(is_valid_naive(&state, side), scan(&state, side));
    }
}

#[test]
fn every_single_inner_mismatch_is_found() {
    let mut rng = Rng(3);
    for side in 2..=4usize {
        let good = fitting_board(&mut rng, side);
        assert!(is_valid(&Planes::from_state(&good), side));
        for p in 0..side * side {
            if (p + 1) % side != 0 {
                let mut bad = good;
                bad[p] ^= 0x00f0;
                assert!(!is_valid(&Planes::from_state(&bad), side));
                assert!(!is_valid_naive(&bad, side));
            }
            if p + side < side * side {
                let mut bad = good;
                bad[p] ^= 0x0f00;
                assert!(!is_valid(&Planes::from_state(&bad), side));
                assert!(!is_valid_naive(&bad, side));
            }
        }
    }
}

#[test]
fn outer_ring_is_never_compared() {
    let mut rng = Rng(11);
    let mut state = fitting_board(&mut rng, 4);
    // the right side of each row's end against the left side of the next row's start,
    // and the bottom row against the top row: all holes of one shape, so none fits
    for row in 0..4 {
        state[row * 4 + 3] &= 0xff0f;
        state[row * 4] &= 0x0fff;
    }
    for col in 0..4 {
        state[12 + col] &= 0xf0ff;
        state[col] &= 0xfff0;
    }
    assert!(is_valid(&Planes::from_state(&state), 4));
    assert!(is_valid_naive(&state, 4));
    assert!(is_valid_state(&state, 4));
}

#[test]
fn boards_of_side_zero_and_one_are_always_valid() {
    let mut rng = Rng(5);
    for _ in 0..50 {
        let mut state = [0u16; 16];
        for slot in state.iter_mut() {
            *slot = rng.tile();
        }
        for side in 0..=1usize {
            assert!(is_valid(&Planes::from_state(&state), side));
            assert!(is_valid_naive(&state, side));
        }
    }
}

#[test]
fn swap_tiles_exchanges_two_positions() {
    let mut rng = Rng(21);
    let state = fitting_board(&mut rng, 4);
    for i in 0..16 {
        for j in 0..16 {
            let mut swapped = state;
            swapped.swap(i, j);
            assert_eq!(
                Planes::from_state(&state).swap_tiles(i, j),
                Planes::from_state(&swapped)
            );
        }
    }
}

#[test]
fn planes_give_their_state_back() {
    let mut rng = Rng(17);
    for _ in 0..200 {
        let mut state = [0u16; 16];
        for slot in state.iter_mut() {
            *slot = rng.tile();
        }
        assert_eq!(Planes::from_state(&state).to_state(), Some(state));
    }
}

#[test]
fn planes_with_a_byte_that_is_no_one_hot_code_hold_no_state() {
    let mut rng = Rng(18);
    let state = fitting_board(&mut rng, 4);
    let good = Planes::from_state(&state);
    for p in 0..16 {
        let mut bad = good;
        bad.left |= 0xffu128 << (8 * p);
        assert_eq!(bad.to_state(), None);
        let mut bad = good;
        bad.top &= !(0xffu128 << (8 * p));
        assert_eq!(bad.to_state(), None);
    }
}
