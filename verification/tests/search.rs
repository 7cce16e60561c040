use edge_match::board::is_valid_naive;
use edge_match::permute::count_valid_permutations;
use edge_match::solver::find_solutions;
use edge_match::tile::apply_transform;

const FIXTURE: [u16; 16] = [0x0200, 0xf300, 0x001d, 0xe00c, 0, 0, 0, 0, 0, 0, 0, 0, 0, 0, 0, 0];

const PUZZLE: [u16; 16] = [
    0xcc12, 0xde02, 0xfd20, 0xcf10, 0xdd30, 0xcf23, 0xef22, 0xef01, 0xff20, 0xdc02, 0xec32,
    0xcf31, 0xef03, 0xfd10, 0xcc10, 0xde31,
];

fn prefix(state: &[u16; 16], n: usize) -> [u16; 16] {
    let mut out = [0u16; 16];
    out[..n].copy_from_slice(&state[..n]);
    out
}

#[test]
fn two_by_two_fixture_has_one_arrangement_in_four_turns() {
    let found = find_solutions(FIXTURE, 2, false);
    assert_eq!(found.stats.solutions, 4);
    assert_eq!(found.boards.len(), 4);
    assert_eq!(found.boards[0], FIXTURE);
    assert_eq!(&found.boards[1][..4], &[0x0f30, 0xce00, 0x0020, 0xd001]);
    assert_eq!(&found.boards[2][..4], &[0x01d0, 0x2000, 0x00ce, 0x300f]);
    assert_eq!(&found.boards[3][..4], &[0x0ce0, 0x1d00, 0x00f3, 0x0002]);
    // the reference path does not turn tiles: it sees the arrangement once
    assert_eq!(count_valid_permutations(&FIXTURE, 2), 1);
    let unturned = found.boards.iter().filter(|b| {
        let mut tiles = b[..4].to_vec();
        tiles.sort();
        let mut given = FIXTURE[..4].to_vec();
        given.sort();
        tiles == given
    });
    assert_eq!(unturned.count(), 1);
}

#[test]
fn two_by_two_fixture_counts() {
    let found = find_solutions(FIXTURE, 2, false);
    assert_eq!(found.stats.attempts, 416);
    assert_eq!(&found.stats.no_fit[..4], &[0, 2, 12, 8]);
    assert_eq!(&found.stats.dead[..4], &[0, 10, 4, 0]);
    assert_eq!(&found.stats.live[..4], &[1, 4, 4, 4]);
    assert_eq!(&found.stats.no_fit[4..], &[0; 12]);
    assert_eq!(&found.stats.dead[4..], &[0; 12]);
    assert_eq!(&found.stats.live[4..], &[0; 12]);
}

#[test]
fn two_by_two_fixture_with_mirrored_tiles() {
    let found = find_solutions(FIXTURE, 2, true);
    assert_eq!(found.stats.solutions, 16);
    assert_eq!(found.stats.attempts, 2848);
    assert_eq!(&found.stats.no_fit[..4], &[0, 4, 40, 82]);
    assert_eq!(&found.stats.dead[..4], &[0, 18, 28, 0]);
    assert_eq!(&found.stats.live[..4], &[1, 10, 12, 14]);
}

#[test]
fn three_by_three_counts() {
    let found = find_solutions(prefix(&PUZZLE, 9), 3, false);
    assert_eq!(found.stats.solutions, 4);
    assert_eq!(found.stats.attempts, 79776);
    assert_eq!(&found.stats.no_fit[..9], &[0, 0, 2, 12, 1238, 558, 47, 370, 66]);
    assert_eq!(&found.stats.dead[..9], &[0, 32, 150, 602, 729, 240, 227, 66, 0]);
    assert_eq!(&found.stats.live[..9], &[1, 4, 4, 4, 4, 4, 4, 4, 4]);
}

#[test]
fn every_reported_board_is_valid_and_made_of_the_given_tiles() {
    for flip in [false, true] {
        let variants = if flip { 8 } else { 4 };
        let found = find_solutions(prefix(&PUZZLE, 9), 3, flip);
        assert!(found.stats.solutions > 0);
        for board in &found.boards {
            assert!(is_valid_naive(board, 3));
            let mut pool: Vec<u16> = PUZZLE[..9].to_vec();
            for tile in &board[..9] {
                let at = pool
                    .iter()
                    .position(|p| (0..variants).any(|v| apply_transform(*p, v) == *tile));
                assert!(at.is_some());
                pool.swap_remove(at.unwrap());
            }
            assert!(pool.is_empty());
            assert_eq!(&board[9..], &[0; 7]);
        }
    }
}

#[test]
fn frames_fall_into_exactly_one_class() {
    let found = find_solutions(prefix(&PUZZLE, 9), 3, false);
    let stats = &found.stats;
    // frames at depth d + 1 are the candidates placed at depth d; nothing is
    // placed from a frame in which nothing fitted
    let mut frames = [0u128; 16];
    for d in 0..9 {
        frames[d] = stats.no_fit[d] + stats.dead[d] + stats.live[d];
    }
    assert_eq!(frames[0], 1);
    assert_eq!(&frames[..9], &[1, 36, 156, 618, 1971, 802, 278, 440, 70]);
    assert!(stats.live[8] <= stats.solutions);
    assert!(stats.solutions <= 4 * stats.live[8]);
    let tried: u128 = (0..9).map(|d| frames[d] * (9 - d as u128) * 4).sum();
    assert_eq!(stats.attempts, tried);
}

#[test]
fn unsolvable_tiles_give_no_board_and_no_error() {
    let found = find_solutions([0u16; 16], 4, false);
    assert_eq!(found.stats.solutions, 0);
    assert!(found.boards.is_empty());
    assert_eq!(found.stats.attempts, 64 + 64 * 60);
    assert_eq!(found.stats.dead[0], 1);
    assert_eq!(found.stats.no_fit[1], 64);
    assert_eq!(found.stats.live, [0; 16]);
}

#[test]
fn board_of_side_one_is_solved_by_each_variant() {
    let found = find_solutions(FIXTURE, 1, false);
    assert_eq!(found.stats.solutions, 4);
    assert_eq!(found.stats.attempts, 4);
    assert_eq!(found.stats.live[0], 1);
    let firsts: Vec<u16> = found.boards.iter().map(|b| b[0]).collect();
    assert_eq!(firsts, vec![0x0200, 0x0020, 0x0002, 0x2000]);
    let found = find_solutions(FIXTURE, 1, true);
    assert_eq!(found.stats.solutions, 8);
    assert_eq!(found.stats.live[0], 1);
}

#[test]
fn board_of_side_zero_is_the_empty_board() {
    let found = find_solutions(FIXTURE, 0, false);
    assert_eq!(found.stats.solutions, 1);
    assert_eq!(found.boards, vec![FIXTURE]);
    assert_eq!(found.stats.attempts, 0);
}

#[test]
fn search_is_deterministic() {
    let a = find_solutions(prefix(&PUZZLE, 9), 3, true);
    let b = find_solutions(prefix(&PUZZLE, 9), 3, true);
    assert_eq!(a.boards, b.boards);
    assert_eq!(a.stats.attempts, b.stats.attempts);
    assert_eq!(a.stats.live, b.stats.live);
}

#[test]
fn what_the_reference_path_accepts_the_search_finds() {
    let codes = [0u16, 1, 2, 3, 15, 14, 12, 13];
    let mut x: u64 = 2024;
    let mut next = move || {
        x = x.wrapping_mul(6364136223846793005).wrapping_add(1442695040888963407);
        (x >> 33) as usize
    };
    let mut accepted = 0;
    for round in 0..300 {
        let mut state = [0u16; 16];
        for slot in state.iter_mut() {
            *slot = codes[next() % 8]
                | (codes[next() % 8] << 4)
                | (codes[next() % 8] << 8)
                | (codes[next() % 8] << 12);
        }
        if round % 2 == 0 {
            // make the four tiles fit, then put them out of order
            state[1] = (state[1] & 0x0fff) | ((!(state[0] >> 4) & 15) << 12);
            state[3] = (state[3] & 0x0fff) | ((!(state[2] >> 4) & 15) << 12);
            state[2] = (state[2] & 0xfff0) | (!(state[0] >> 8) & 15);
            state[3] = (state[3] & 0xfff0) | (!(state[1] >> 8) & 15);
            state.swap(next() % 4, next() % 4);
        }
        let by_orderings = count_valid_permutations(&state, 2);
        let found = find_solutions(state, 2, false);
        if by_orderings > 0 {
            accepted += 1;
            assert!(found.stats.solutions > 0);
            assert!(found.stats.solutions >= by_orderings as u128);
        }
        assert_eq!(found.stats.solutions, found.boards.len() as u128);
    }
    assert!(accepted >= 150);
}
