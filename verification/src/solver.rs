//! The backtracking placement search: tiles are placed position by position
//! in row-major order, every unplaced tile in every symmetry variant is tried,
//! and a candidate is kept when it fits its left and its upper neighbour.

use vstd::prelude::*;
use crate::rule::{board_valid, fits, fits_at, lemma_prefix_is_board, prefix_valid};
use crate::tile::{apply_transform, transformed};
use crate::tile::{lemma_variant_ok, tile_ok, BOTTOM, LEFT, RIGHT};

verus! {

/// What a search has seen: the complete boards in the order of their
/// discovery, the number of candidates tried, and for each depth the number
/// of frames reached there, split by how the frame ended.
pub struct Tally {
    pub solutions: Seq<Seq<u16>>,
    pub attempts: nat,
    pub frames: Seq<nat>,
    pub no_fit: Seq<nat>,
    pub dead: Seq<nat>,
    pub live: Seq<nat>,
}

/// Sixteen zero counts, one for each depth.
pub open spec fn no_counts() -> Seq<nat> {
    Seq::new(16, |d: int| 0nat)
}

/// The sum of two rows of counts, depth by depth.
pub open spec fn sum_counts(a: Seq<nat>, b: Seq<nat>) -> Seq<nat> {
    Seq::new(16, |d: int| a[d] + b[d])
}

/// A row of counts with the count of depth `i` raised by one if `hit`.
pub open spec fn raise_count(a: Seq<nat>, i: int, hit: bool) -> Seq<nat> {
    Seq::new(
        16,
        |d: int|
            if d == i && hit {
                a[d] + 1
            } else {
                a[d]
            },
    )
}

impl Tally {
    /// The tally of a search that has seen nothing.
    pub open spec fn empty() -> Tally {
        Tally {
            solutions: Seq::empty(),
            attempts: 0,
            frames: no_counts(),
            no_fit: no_counts(),
            dead: no_counts(),
            live: no_counts(),
        }
    }

    /// The tally of the terminal state: the one complete board.
    pub open spec fn leaf(s: Seq<u16>) -> Tally {
        Tally {
            solutions: seq![s],
            attempts: 0,
            frames: no_counts(),
            no_fit: no_counts(),
            dead: no_counts(),
            live: no_counts(),
        }
    }

    /// The tally of one search followed by another.
    pub open spec fn then_tally(self, next: Tally) -> Tally {
        Tally {
            solutions: self.solutions + next.solutions,
            attempts: self.attempts + next.attempts,
            frames: sum_counts(self.frames, next.frames),
            no_fit: sum_counts(self.no_fit, next.no_fit),
            dead: sum_counts(self.dead, next.dead),
            live: sum_counts(self.live, next.live),
        }
    }

    /// The tally of a frame at depth `i` that tried `tried` candidates with
    /// the outcome `self`, of which some fitted exactly if `placed`. The
    /// frame counts in one class: nothing fitted; something fitted and no
    /// board was completed below; a board was completed below.
    pub open spec fn close(self, i: int, tried: nat, placed: bool) -> Tally {
        let found = self.solutions.len() > 0;
        Tally {
            solutions: self.solutions,
            attempts: self.attempts + tried,
            frames: raise_count(self.frames, i, true),
            no_fit: raise_count(self.no_fit, i, !placed),
            dead: raise_count(self.dead, i, placed && !found),
            live: raise_count(self.live, i, placed && found),
        }
    }
}

/// The number of symmetry variants tried for each tile.
pub open spec fn variants(flip: bool) -> int {
    if flip {
        8
    } else {
        4
    }
}

/// The piece that candidate `c` at position `i` puts there: the candidates
/// run through the tiles from position `i` on, each in all its variants.
pub open spec fn candidate(s: Seq<u16>, flip: bool, i: int, c: int) -> u16 {
    transformed(s[i + c / variants(flip)], c % variants(flip))
}

/// The state with candidate `c` placed at position `i`: the tile that stood
/// there takes the candidate's old place.
pub open spec fn place(s: Seq<u16>, flip: bool, i: int, c: int) -> Seq<u16> {
    s.update(i + c / variants(flip), s[i]).update(i, candidate(s, flip, i, c))
}

/// Whether one of the first `n` candidates at position `i` fits.
pub open spec fn any_fits(s: Seq<u16>, side: int, flip: bool, i: int, n: int) -> bool {
    exists|c: int| 0 <= c < n && fits(s, side, i, #[trigger] candidate(s, flip, i, c))
}

/// The tally of the search from position `i` on, positions before `i` being
/// placed: at the end of the board the state is a solution; before it, every
/// tile from position `i` on is tried in every variant.
pub open spec fn frame(s: Seq<u16>, side: int, flip: bool, i: int) -> Tally
    decreases 16 - i, 1int, 0int,
{
    if i >= side * side || i >= 16 || i < 0 {
        Tally::leaf(s)
    } else {
        let total = (side * side - i) * variants(flip);
        sweep(s, side, flip, i, total).close(i, total as nat, any_fits(s, side, flip, i, total))
    }
}

/// The tally of the first `n` candidates at position `i`: each that fits is
/// placed and the search goes on from the next position.
pub open spec fn sweep(s: Seq<u16>, side: int, flip: bool, i: int, n: int) -> Tally
    decreases 16 - i, 0int, n,
{
    if n <= 0 || i >= 16 || i < 0 {
        Tally::empty()
    } else {
        let before = sweep(s, side, flip, i, n - 1);
        if fits(s, side, i, candidate(s, flip, i, n - 1)) {
            before.then_tally(frame(place(s, flip, i, n - 1), side, flip, i + 1))
        } else {
            before
        }
    }
}

/// The most that any one count can grow in a search from position `i` on.
pub open spec fn budget(i: int) -> nat
    decreases 16 - i,
{
    if i >= 16 {
        1
    } else {
        129 + 128 * budget(i + 1)
    }
}

/// The counts of a search.
pub struct Stats {
    /// Complete boards found.
    pub solutions: u128,
    /// Candidates tried: position, tile and variant.
    pub attempts: u128,
    /// Frames, by depth, in which no candidate fitted.
    pub no_fit: [u128; 16],
    /// Frames, by depth, in which a candidate fitted and none led to a
    /// complete board.
    pub dead: [u128; 16],
    /// Frames, by depth, from which a complete board was reached.
    pub live: [u128; 16],
}

/// The outcome of a search: the complete boards, in the order in which they
/// were found, and the counts.
pub struct Search {
    pub boards: Vec<[u16; 16]>,
    pub stats: Stats,
}

impl Stats {
    /// Whether every count can still grow by `n`.
    pub open spec fn has_room(self, n: nat) -> bool {
        &&& self.solutions + n <= u128::MAX
        &&& self.attempts + n <= u128::MAX
        &&& forall|d: int| 0 <= d < 16 ==> #[trigger] self.no_fit[d] + n <= u128::MAX
        &&& forall|d: int| 0 <= d < 16 ==> #[trigger] self.dead[d] + n <= u128::MAX
        &&& forall|d: int| 0 <= d < 16 ==> #[trigger] self.live[d] + n <= u128::MAX
    }

    /// Whether no count has grown by more than `n` since `before`.
    pub open spec fn grown_by(self, before: Stats, n: nat) -> bool {
        &&& self.solutions <= before.solutions + n
        &&& self.attempts <= before.attempts + n
        &&& forall|d: int| 0 <= d < 16 ==> #[trigger] self.no_fit[d] <= before.no_fit[d] + n
        &&& forall|d: int| 0 <= d < 16 ==> #[trigger] self.dead[d] <= before.dead[d] + n
        &&& forall|d: int| 0 <= d < 16 ==> #[trigger] self.live[d] <= before.live[d] + n
    }

    /// Whether the counts are those of `before` with those of `t` added.
    pub open spec fn adds(self, before: Stats, t: Tally) -> bool {
        &&& self.solutions == before.solutions + t.solutions.len()
        &&& self.attempts == before.attempts + t.attempts
        &&& forall|d: int| 0 <= d < 16 ==> #[trigger] self.no_fit[d] == before.no_fit[d] + t.no_fit[d]
        &&& forall|d: int| 0 <= d < 16 ==> #[trigger] self.dead[d] == before.dead[d] + t.dead[d]
        &&& forall|d: int| 0 <= d < 16 ==> #[trigger] self.live[d] == before.live[d] + t.live[d]
    }

    /// Counts that are all zero.
    pub fn new() -> (r: Stats)
        ensures
            r.adds(r, Tally::empty()),
            r.solutions == 0,
            r.attempts == 0,
            forall|d: int| 0 <= d < 16 ==> #[trigger] r.no_fit[d] == 0,
            forall|d: int| 0 <= d < 16 ==> #[trigger] r.dead[d] == 0,
            forall|d: int| 0 <= d < 16 ==> #[trigger] r.live[d] == 0,
    {
        Stats {
            solutions: 0,
            attempts: 0,
            no_fit: [0, 0, 0, 0, 0, 0, 0, 0, 0, 0, 0, 0, 0, 0, 0, 0],
            dead: [0, 0, 0, 0, 0, 0, 0, 0, 0, 0, 0, 0, 0, 0, 0, 0],
            live: [0, 0, 0, 0, 0, 0, 0, 0, 0, 0, 0, 0, 0, 0, 0, 0],
        }
    }
}

/// The boards of a list, each as the sequence of its sixteen packed tiles.
pub open spec fn boards_view(boards: Seq<[u16; 16]>) -> Seq<Seq<u16>> {
    Seq::new(boards.len(), |k: int| boards[k]@)
}

impl Search {
    /// Whether the outcome is that of `before` followed by the search `t`.
    pub open spec fn extends(self, before: Search, t: Tally) -> bool {
        &&& boards_view(self.boards@) == boards_view(before.boards@) + t.solutions
        &&& self.stats.adds(before.stats, t)
    }

    /// Whether the outcome is exactly what the search `t` has seen.
    pub open spec fn records(self, t: Tally) -> bool {
        &&& boards_view(self.boards@) == t.solutions
        &&& self.stats.solutions == t.solutions.len()
        &&& self.stats.attempts == t.attempts
        &&& forall|d: int| 0 <= d < 16 ==> #[trigger] self.stats.no_fit[d] == t.no_fit[d]
        &&& forall|d: int| 0 <= d < 16 ==> #[trigger] self.stats.dead[d] == t.dead[d]
        &&& forall|d: int| 0 <= d < 16 ==> #[trigger] self.stats.live[d] == t.live[d]
    }
}

proof fn lemma_budget_fits()
    ensures
        budget(0) <= u128::MAX,
{
    assert(budget(16) == 1);
    assert(budget(15) == 257);
    assert(budget(14) == 33025);
    assert(budget(13) == 4227329);
    assert(budget(12) == 541098241);
    assert(budget(11) == 69260574977);
    assert(budget(10) == 8865353597185);
    assert(budget(9) == 1134765260439809);
    assert(budget(8) == 145249953336295681);
    assert(budget(7) == 18591994027045847297);
    assert(budget(6) == 2379775235461868454145);
    assert(budget(5) == 304611230139119162130689);
    assert(budget(4) == 38990237457807252752728321);
    assert(budget(3) == 4990750394599328352349225217);
    assert(budget(2) == 638816050508714029100700827905);
    assert(budget(1) == 81768454465115395724889705971969);
    assert(budget(0) == 10466362171534770652785882364412161);
}

/// Whether `piece` fits at position `i` beside the tiles already placed.
fn piece_fits(state: &[u16; 16], side: usize, i: usize, piece: u16) -> (r: bool)
    requires
        0 < side <= 4,
        i < 16,
    ensures
        r == fits(state@, side as int, i as int, piece),
{
    proof {
        assert(0int % (side as int) == 0) by (nonlinear_arith)
            requires
                side > 0,
        ;
    }
    let before_ok = i % side == 0 || {
        let l: u16 = (piece >> LEFT) & 0x000f;
        (state[i - 1] >> RIGHT) & 0x000f == !l & 0x000f
    };
    if !before_ok {
        return false;
    }
    i < side || {
        let t: u16 = piece & 0x000f;
        (state[i - side] >> BOTTOM) & 0x000f == !t & 0x000f
    }
}

proof fn lemma_extends_then(a: Search, m: Search, z: Search, t1: Tally, t2: Tally)
    requires
        m.extends(a, t1),
        z.extends(m, t2),
    ensures
        z.extends(a, t1.then_tally(t2)),
{
    assert(boards_view(z.boards@) =~= boards_view(a.boards@) + (t1.solutions + t2.solutions));
}

proof fn lemma_grown_then(a: Stats, m: Stats, z: Stats, x: nat, y: nat, cap: nat)
    requires
        a.has_room(cap),
        m.grown_by(a, x),
        x + y <= cap,
        m.has_room(y) ==> z.grown_by(m, y),
    ensures
        m.has_room(y),
        z.grown_by(a, x + y),
{
}

/// One more candidate: what the sweep over `c + 1` candidates is, given the
/// sweep over `c`.
proof fn lemma_sweep_step(s: Seq<u16>, side: int, flip: bool, i: int, c: int)
    requires
        0 <= i < 16,
        0 <= c,
    ensures
        any_fits(s, side, flip, i, c + 1) == (any_fits(s, side, flip, i, c) || fits(
            s,
            side,
            i,
            candidate(s, flip, i, c),
        )),
        fits(s, side, i, candidate(s, flip, i, c)) ==> sweep(s, side, flip, i, c + 1) == sweep(
            s,
            side,
            flip,
            i,
            c,
        ).then_tally(frame(place(s, flip, i, c), side, flip, i + 1)),
        !fits(s, side, i, candidate(s, flip, i, c)) ==> sweep(s, side, flip, i, c + 1) == sweep(
            s,
            side,
            flip,
            i,
            c,
        ),
{
    if any_fits(s, side, flip, i, c + 1) {
        let w = choose|w: int|
            0 <= w < c + 1 && fits(s, side, i, #[trigger] candidate(s, flip, i, w));
        if w < c {
            assert(any_fits(s, side, flip, i, c));
        }
    }
    if any_fits(s, side, flip, i, c) {
        let w = choose|w: int| 0 <= w < c && fits(s, side, i, #[trigger] candidate(s, flip, i, w));
        assert(0 <= w < c + 1);
    }
    if fits(s, side, i, candidate(s, flip, i, c)) {
        assert(0 <= c < c + 1);
    }
}

/// The end of a frame: the sweep over all its candidates, closed.
proof fn lemma_frame_close(
    a: Search,
    m: Search,
    z: Search,
    s: Seq<u16>,
    side: int,
    flip: bool,
    i: int,
    total: int,
    placed: bool,
)
    requires
        0 <= i < 16,
        i < side * side,
        total == (side * side - i) * variants(flip),
        total >= 0,
        placed == any_fits(s, side, flip, i, total),
        m.extends(a, sweep(s, side, flip, i, total)),
        m.stats.has_room(1),
        z.boards == m.boards,
        z.stats.solutions == m.stats.solutions,
        z.stats.attempts == m.stats.attempts + total,
        z.stats.no_fit@ == raise_count_u(m.stats.no_fit@, i, !placed),
        z.stats.dead@ == raise_count_u(
            m.stats.dead@,
            i,
            placed && sweep(s, side, flip, i, total).solutions.len() == 0,
        ),
        z.stats.live@ == raise_count_u(
            m.stats.live@,
            i,
            placed && sweep(s, side, flip, i, total).solutions.len() > 0,
        ),
    ensures
        z.extends(a, frame(s, side, flip, i)),
{
    let w = sweep(s, side, flip, i, total);
    let f = frame(s, side, flip, i);
    assert(f == w.close(i, total as nat, placed));
    assert(boards_view(z.boards@) =~= boards_view(a.boards@) + f.solutions);
    assert forall|d: int| 0 <= d < 16 implies #[trigger] z.stats.no_fit[d] == a.stats.no_fit[d]
        + f.no_fit[d] by {
        assert(m.stats.no_fit[d] == a.stats.no_fit[d] + w.no_fit[d]);
        assert(m.stats.no_fit[d] + 1 <= u128::MAX);
    }
    assert forall|d: int| 0 <= d < 16 implies #[trigger] z.stats.dead[d] == a.stats.dead[d]
        + f.dead[d] by {
        assert(m.stats.dead[d] == a.stats.dead[d] + w.dead[d]);
        assert(m.stats.dead[d] + 1 <= u128::MAX);
    }
    assert forall|d: int| 0 <= d < 16 implies #[trigger] z.stats.live[d] == a.stats.live[d]
        + f.live[d] by {
        assert(m.stats.live[d] == a.stats.live[d] + w.live[d]);
        assert(m.stats.live[d] + 1 <= u128::MAX);
    }
}

/// A row of counters with the counter of depth `i` raised by one if `hit`.
spec fn raise_count_u(a: Seq<u128>, i: int, hit: bool) -> Seq<u128> {
    if hit {
        a.update(i, (a[i] + 1) as u128)
    } else {
        a
    }
}

/// The search from position `i` on, added to `out`.
fn run(state: [u16; 16], side: usize, flip: bool, i: usize, out: &mut Search) -> (found: bool)
    requires
        side <= 4,
        i <= side * side,
        old(out).stats.has_room(budget(i as int)),
    ensures
        final(out).extends(*old(out), frame(state@, side as int, flip, i as int)),
        final(out).stats.grown_by(old(out).stats, budget(i as int)),
        found == (frame(state@, side as int, flip, i as int).solutions.len() > 0),
    decreases 16 - i,
{
    assert(side * side <= 16) by (nonlinear_arith)
        requires
            side <= 4,
    ;
    let cells: usize = side * side;
    if i >= cells {
        out.boards.push(state);
        out.stats.solutions = out.stats.solutions + 1;
        proof {
            assert(boards_view(out.boards@) =~= boards_view(old(out).boards@) + seq![state@]);
        }
        return true;
    }
    let ghost s0 = state@;
    let ghost b: nat = budget(i + 1);
    let v: usize = if flip { 8 } else { 4 };
    let total: usize = (cells - i) * v;
    let mut state = state;
    let mut c: usize = 0;
    let mut any_recursed = false;
    let mut found = false;
    let ghost mut spent: nat = 0;
    proof {
        assert(boards_view(out.boards@) =~= boards_view(old(out).boards@) + Seq::empty());
        assert(0 * b == 0) by (nonlinear_arith);
    }
    while c < total
        invariant
            0 < side <= 4,
            cells == side * side,
            i < cells <= 16,
            v == variants(flip),
            total == (cells - i) * v,
            c <= total <= 128,
            b == budget(i + 1),
            budget(i as int) == 129 + 128 * b,
            old(out).stats.has_room(budget(i as int)),
            state@ == s0,
            out.extends(*old(out), sweep(s0, side as int, flip, i as int, c as int)),
            spent == c * b,
            out.stats.grown_by(old(out).stats, spent),
            any_recursed == any_fits(s0, side as int, flip, i as int, c as int),
            found == (sweep(s0, side as int, flip, i as int, c as int).solutions.len() > 0),
        decreases total - c,
    {
        let j: usize = i + c / v;
        let tfm: u32 = (c % v) as u32;
        let j_piece: u16 = state[j];
        let piece: u16 = apply_transform(j_piece, tfm);
        let ghost mid = *out;
        proof {
            assert(spent + b == (c + 1) * b && spent + b <= 128 * b) by (nonlinear_arith)
                requires
                    c < 128,
                    spent == c * b,
            ;
            lemma_sweep_step(s0, side as int, flip, i as int, c as int);
        }
        if piece_fits(&state, side, i, piece) {
            state[j] = state[i];
            state[i] = piece;
            any_recursed = true;
            assert(state@ =~= place(s0, flip, i as int, c as int));
            proof {
                lemma_grown_then(
                    old(out).stats,
                    mid.stats,
                    mid.stats,
                    spent,
                    b,
                    budget(i as int),
                );
            }
            let f = run(state, side, flip, i + 1, out);
            found = found || f;
            state[i] = state[j];
            state[j] = j_piece;
            proof {
                let sub = frame(place(s0, flip, i as int, c as int), side as int, flip, i + 1);
                assert(state@ =~= s0);
                lemma_extends_then(
                    *old(out),
                    mid,
                    *out,
                    sweep(s0, side as int, flip, i as int, c as int),
                    sub,
                );
                lemma_grown_then(
                    old(out).stats,
                    mid.stats,
                    out.stats,
                    spent,
                    b,
                    budget(i as int),
                );
            }
        }
        proof {
            spent = spent + b;
        }
        c = c + 1;
    }
    let ghost mid = *out;
    proof {
        assert(spent <= 128 * b) by (nonlinear_arith)
            requires
                spent == c * b,
                c <= 128,
        ;
    }
    out.stats.attempts = out.stats.attempts + total as u128;
    if !any_recursed {
        let n: u128 = out.stats.no_fit[i];
        out.stats.no_fit[i] = n + 1;
    } else if !found {
        let n: u128 = out.stats.dead[i];
        out.stats.dead[i] = n + 1;
    } else {
        let n: u128 = out.stats.live[i];
        out.stats.live[i] = n + 1;
    }
    proof {
        lemma_frame_close(
            *old(out),
            mid,
            *out,
            s0,
            side as int,
            flip,
            i as int,
            total as int,
            any_recursed,
        );
    }
    found
}

/// Searches for every way to fill a board of `side` rows and columns with
/// the first `side * side` tiles of `state`, each turned (and, if
/// `allow_flip`, mirrored) at will, so that all touching sides fit. The
/// boards come in the order of the search; the counts say how it went.
pub fn find_solutions(state: [u16; 16], side: usize, allow_flip: bool) -> (r: Search)
    requires
        side <= 4,
    ensures
        r.records(frame(state@, side as int, allow_flip, 0)),
{
    let mut out = Search { boards: Vec::new(), stats: Stats::new() };
    proof {
        lemma_budget_fits();
        assert(side * side >= 0) by (nonlinear_arith);
        assert(boards_view(out.boards@) =~= Seq::empty());
    }
    let ghost t = frame(state@, side as int, allow_flip, 0);
    run(state, side, allow_flip, 0, &mut out);
    proof {
        assert(boards_view(out.boards@) =~= t.solutions);
    }
    out
}

/// Every board that the search from position `i` reports obeys the adjacency
/// rule, provided the positions before `i` fit their neighbours.
pub proof fn lemma_solutions_valid(s: Seq<u16>, side: int, flip: bool, i: int, k: int)
    requires
        0 <= side <= 4,
        0 <= i <= side * side,
        s.len() == 16,
        prefix_valid(s, side, i),
        0 <= k < frame(s, side, flip, i).solutions.len(),
    ensures
        board_valid(frame(s, side, flip, i).solutions[k], side),
    decreases 16 - i, 1int, 0int,
{
    assert(side * side <= 16) by (nonlinear_arith)
        requires
            0 <= side <= 4,
    ;
    if i >= side * side {
        lemma_prefix_is_board(s, side);
    } else {
        let total = (side * side - i) * variants(flip);
        lemma_sweep_valid(s, side, flip, i, total, k);
    }
}

proof fn lemma_sweep_valid(s: Seq<u16>, side: int, flip: bool, i: int, n: int, k: int)
    requires
        0 <= side <= 4,
        0 <= i < side * side,
        s.len() == 16,
        prefix_valid(s, side, i),
        0 <= n <= (side * side - i) * variants(flip),
        0 <= k < sweep(s, side, flip, i, n).solutions.len(),
    ensures
        board_valid(sweep(s, side, flip, i, n).solutions[k], side),
    decreases 16 - i, 0int, n,
{
    assert(side * side <= 16) by (nonlinear_arith)
        requires
            0 <= side <= 4,
    ;
    if n > 0 {
        let c = n - 1;
        let before = sweep(s, side, flip, i, n - 1);
        if fits(s, side, i, candidate(s, flip, i, c)) && k >= before.solutions.len() {
            let next = place(s, flip, i, c);
            let j = i + c / variants(flip);
            assert(i <= j < side * side) by {
                if flip {
                    assert(n <= (side * side - i) * 8);
                    assert(0 <= c / 8 < side * side - i);
                } else {
                    assert(n <= (side * side - i) * 4);
                    assert(0 <= c / 4 < side * side - i);
                }
            }
            assert(side >= 1 && 0int % side == 0) by (nonlinear_arith)
                requires
                    0 <= side,
                    0 <= i < side * side,
            ;
            assert forall|p: int| 0 <= p < i + 1 implies #[trigger] fits_at(next, side, p) by {
                assert(forall|q: int| 0 <= q < i ==> next[q] == s[q]);
                assert(next[i] == candidate(s, flip, i, c));
                if p < i {
                    assert(fits_at(s, side, p));
                    assert(fits(s, side, p, s[p]));
                    assert(next[p] == s[p]);
                    if p % side != 0 {
                        assert(next[p - 1] == s[p - 1]);
                    }
                    if p >= side {
                        assert(next[p - side] == s[p - side]);
                    }
                } else {
                    if p % side != 0 {
                        assert(next[p - 1] == s[p - 1]);
                    }
                    if p >= side {
                        assert(next[p - side] == s[p - side]);
                    }
                    assert(fits(next, side, i, next[i]));
                }
            }
            lemma_solutions_valid(next, side, flip, i + 1, k - before.solutions.len());
        } else {
            lemma_sweep_valid(s, side, flip, i, n - 1, k);
        }
    }
}

/// The three ways in which a frame can end part the frames of every depth:
/// each frame reached at a depth is counted in exactly one of them.
pub proof fn lemma_frames_partition(s: Seq<u16>, side: int, flip: bool, i: int, d: int)
    requires
        0 <= d < 16,
    ensures
        frame(s, side, flip, i).frames[d] == frame(s, side, flip, i).no_fit[d] + frame(
            s,
            side,
            flip,
            i,
        ).dead[d] + frame(s, side, flip, i).live[d],
    decreases 16 - i, 1int, 0int,
{
    if !(i >= side * side || i >= 16 || i < 0) {
        let total = (side * side - i) * variants(flip);
        lemma_sweep_partition(s, side, flip, i, total, d);
    }
}

proof fn lemma_sweep_partition(s: Seq<u16>, side: int, flip: bool, i: int, n: int, d: int)
    requires
        0 <= d < 16,
    ensures
        sweep(s, side, flip, i, n).frames[d] == sweep(s, side, flip, i, n).no_fit[d] + sweep(
            s,
            side,
            flip,
            i,
            n,
        ).dead[d] + sweep(s, side, flip, i, n).live[d],
    decreases 16 - i, 0int, n,
{
    if !(n <= 0 || i >= 16 || i < 0) {
        lemma_sweep_partition(s, side, flip, i, n - 1, d);
        if fits(s, side, i, candidate(s, flip, i, n - 1)) {
            lemma_frames_partition(place(s, flip, i, n - 1), side, flip, i + 1, d);
        }
    }
}

/// At the last depth a frame is live exactly when it completes a board, and
/// it completes at most one board for each variant of the one tile that is
/// left. So the live frames of the last depth are at most as many as the
/// boards found, and the boards at most as many as variants times frames.
pub proof fn lemma_last_depth_live(s: Seq<u16>, side: int, flip: bool, i: int)
    requires
        1 <= side <= 4,
        0 <= i < side * side,
    ensures
        frame(s, side, flip, i).live[side * side - 1] <= frame(s, side, flip, i).solutions.len(),
        frame(s, side, flip, i).solutions.len() <= if flip {
            8 * frame(s, side, flip, i).live[side * side - 1]
        } else {
            4 * frame(s, side, flip, i).live[side * side - 1]
        },
    decreases 16 - i, 1int, 0int,
{
    assert(1 <= side * side <= 16) by (nonlinear_arith)
        requires
            1 <= side <= 4,
    ;
    let total = (side * side - i) * variants(flip);
    lemma_last_depth_sweep(s, side, flip, i, total);
    if i == side * side - 1 {
        assert(total == variants(flip));
        if sweep(s, side, flip, i, total).solutions.len() > 0 {
            lemma_found_fits(s, side, flip, i, total);
        }
    }
}

proof fn lemma_last_depth_sweep(s: Seq<u16>, side: int, flip: bool, i: int, n: int)
    requires
        1 <= side <= 4,
        0 <= i < side * side,
    ensures
        i < side * side - 1 ==> sweep(s, side, flip, i, n).live[side * side - 1] <= sweep(
            s,
            side,
            flip,
            i,
            n,
        ).solutions.len(),
        i < side * side - 1 ==> sweep(s, side, flip, i, n).solutions.len() <= if flip {
            8 * sweep(s, side, flip, i, n).live[side * side - 1]
        } else {
            4 * sweep(s, side, flip, i, n).live[side * side - 1]
        },
        i == side * side - 1 ==> sweep(s, side, flip, i, n).live[side * side - 1] == 0,
        i == side * side - 1 && n >= 0 ==> sweep(s, side, flip, i, n).solutions.len() <= n,
    decreases 16 - i, 0int, n,
{
    assert(1 <= side * side <= 16) by (nonlinear_arith)
        requires
            1 <= side <= 4,
    ;
    let last = side * side - 1;
    if n > 0 {
        lemma_last_depth_sweep(s, side, flip, i, n - 1);
        let before = sweep(s, side, flip, i, n - 1);
        if fits(s, side, i, candidate(s, flip, i, n - 1)) {
            let next = place(s, flip, i, n - 1);
            let sub = frame(next, side, flip, i + 1);
            assert(sweep(s, side, flip, i, n) == before.then_tally(sub));
            assert(sweep(s, side, flip, i, n).live[last] == before.live[last] + sub.live[last]);
            assert(sweep(s, side, flip, i, n).solutions.len() == before.solutions.len()
                + sub.solutions.len());
            if i + 1 < side * side {
                lemma_last_depth_live(next, side, flip, i + 1);
            } else {
                assert(sub == Tally::leaf(next));
                assert(sub.live[last] == 0);
                assert(sub.solutions.len() == 1);
            }
        } else {
            assert(sweep(s, side, flip, i, n) == before);
        }
    } else {
        assert(sweep(s, side, flip, i, n) == Tally::empty());
        assert(Tally::empty().live[last] == 0);
    }
}

/// A sweep that has completed a board has placed a candidate.
proof fn lemma_found_fits(s: Seq<u16>, side: int, flip: bool, i: int, n: int)
    requires
        0 <= i < 16,
        sweep(s, side, flip, i, n).solutions.len() > 0,
    ensures
        any_fits(s, side, flip, i, n),
    decreases n,
{
    if n > 0 {
        if fits(s, side, i, candidate(s, flip, i, n - 1)) {
            assert(0 <= n - 1 < n);
        } else {
            lemma_found_fits(s, side, flip, i, n - 1);
            let w = choose|w: int|
                0 <= w < n - 1 && fits(s, side, i, #[trigger] candidate(s, flip, i, w));
            assert(0 <= w < n);
        }
    }
}

/// A frame that has completed a board counts as live, never as one in which
/// nothing fitted.
pub proof fn lemma_found_is_placed(s: Seq<u16>, side: int, flip: bool, i: int)
    requires
        0 <= i < 16,
        i < side * side,
        frame(s, side, flip, i).solutions.len() > 0,
    ensures
        any_fits(s, side, flip, i, (side * side - i) * variants(flip)),
{
    lemma_found_fits(s, side, flip, i, (side * side - i) * variants(flip));
}

/// Whether the board `b` is the state `s` with the positions from `i` to the
/// end of the board filled anew: position `p` holds the tile that `s` has at
/// `from[p]`, in the variant `how[p]`, no tile is used twice, and all other
/// positions are as in `s`.
pub open spec fn completes(
    b: Seq<u16>,
    s: Seq<u16>,
    side: int,
    flip: bool,
    i: int,
    from: Seq<int>,
    how: Seq<int>,
) -> bool {
    &&& b.len() == 16
    &&& s.len() == 16
    &&& forall|p: int| 0 <= p < 16 && (p < i || side * side <= p) ==> #[trigger] b[p] == s[p]
    &&& forall|p: int|
        i <= p < side * side ==> i <= #[trigger] from[p] < side * side && 0 <= how[p] < variants(
            flip,
        ) && b[p] == transformed(s[from[p]], how[p])
    &&& forall|p: int, q: int|
        i <= p < side * side && i <= q < side * side && p != q ==> #[trigger] from[p]
            != #[trigger] from[q]
}

/// The boards of a sweep stay where they are when the sweep goes on.
proof fn lemma_sweep_grows(s: Seq<u16>, side: int, flip: bool, i: int, n: int, m: int, k: int)
    requires
        0 <= i < 16,
        0 <= n <= m,
        0 <= k < sweep(s, side, flip, i, n).solutions.len(),
    ensures
        k < sweep(s, side, flip, i, m).solutions.len(),
        sweep(s, side, flip, i, m).solutions[k] == sweep(s, side, flip, i, n).solutions[k],
    decreases m - n,
{
    if n < m {
        lemma_sweep_grows(s, side, flip, i, n, m - 1, k);
    }
}

/// The search misses nothing: a board that obeys the adjacency rule and is
/// made of the tiles of `s` from position `i` on, in any order and in any
/// variants, with the positions before `i` as they are, is among the boards
/// of the search from `i`. The result is its place among them.
pub proof fn lemma_search_complete(
    b: Seq<u16>,
    s: Seq<u16>,
    side: int,
    flip: bool,
    i: int,
    from: Seq<int>,
    how: Seq<int>,
) -> (k: int)
    requires
        0 <= side <= 4,
        0 <= i <= side * side,
        completes(b, s, side, flip, i, from, how),
        board_valid(b, side),
    ensures
        0 <= k < frame(s, side, flip, i).solutions.len(),
        frame(s, side, flip, i).solutions[k] == b,
    decreases 16 - i,
{
    assert(side * side <= 16) by (nonlinear_arith)
        requires
            0 <= side <= 4,
    ;
    if i >= side * side {
        assert(b =~= s);
        0
    } else {
        let v = variants(flip);
        let cells = side * side;
        let total = (cells - i) * v;
        let j = from[i];
        let t = how[i];
        let c = (j - i) * v + t;
        assert(0 <= c < total && c / v == j - i && c % v == t) by {
            if flip {
                assert(total == (cells - i) * 8);
                assert(c == (j - i) * 8 + t);
            } else {
                assert(total == (cells - i) * 4);
                assert(c == (j - i) * 4 + t);
            }
        }
        assert(candidate(s, flip, i, c) == b[i]);
        lemma_prefix_is_board(b, side);
        assert(fits_at(b, side, i));
        assert(side >= 1 && 0int % side == 0) by (nonlinear_arith)
            requires
                0 <= side,
                0 <= i < side * side,
        ;
        assert(fits(s, side, i, b[i]));
        let next = place(s, flip, i, c);
        let moved = Seq::new(
            16,
            |p: int|
                if from[p] == i {
                    j
                } else {
                    from[p]
                },
        );
        assert forall|p: int| i + 1 <= p < cells implies i + 1 <= #[trigger] moved[p] < cells && 0
            <= how[p] < v && b[p] == transformed(next[moved[p]], how[p]) by {
            assert(from[p] != from[i]);
        }
        assert forall|p: int, q: int|
            i + 1 <= p < cells && i + 1 <= q < cells && p != q implies #[trigger] moved[p]
            != #[trigger] moved[q] by {
            assert(from[p] != from[q]);
            assert(from[p] != from[i]);
            assert(from[q] != from[i]);
        }
        assert(completes(b, next, side, flip, i + 1, moved, how));
        let sub = lemma_search_complete(b, next, side, flip, i + 1, moved, how);
        lemma_sweep_step(s, side, flip, i, c);
        let k = sweep(s, side, flip, i, c).solutions.len() + sub;
        assert(sweep(s, side, flip, i, c + 1).solutions[k] == b);
        lemma_sweep_grows(s, side, flip, i, c + 1, total, k);
        k
    }
}

/// The search invents nothing: every board that the search from position
/// `i` reports is made of the tiles that `s` has from `i` on, each used
/// once, in some variant, with all other positions as in `s`. The result
/// says which tile stands where, and in which variant.
pub proof fn lemma_solution_is_arrangement(
    s: Seq<u16>,
    side: int,
    flip: bool,
    i: int,
    k: int,
) -> (r: (Seq<int>, Seq<int>))
    requires
        0 <= side <= 4,
        0 <= i <= side * side,
        s.len() == 16,
        0 <= k < frame(s, side, flip, i).solutions.len(),
    ensures
        completes(frame(s, side, flip, i).solutions[k], s, side, flip, i, r.0, r.1),
    decreases 16 - i, 1int, 0int,
{
    assert(side * side <= 16) by (nonlinear_arith)
        requires
            0 <= side <= 4,
    ;
    if i >= side * side {
        (Seq::new(16, |p: int| p), Seq::new(16, |p: int| 0int))
    } else {
        let total = (side * side - i) * variants(flip);
        lemma_sweep_is_arrangement(s, side, flip, i, total, k)
    }
}

proof fn lemma_sweep_is_arrangement(
    s: Seq<u16>,
    side: int,
    flip: bool,
    i: int,
    n: int,
    k: int,
) -> (r: (Seq<int>, Seq<int>))
    requires
        0 <= side <= 4,
        0 <= i < side * side,
        s.len() == 16,
        0 <= n <= (side * side - i) * variants(flip),
        0 <= k < sweep(s, side, flip, i, n).solutions.len(),
    ensures
        completes(sweep(s, side, flip, i, n).solutions[k], s, side, flip, i, r.0, r.1),
    decreases 16 - i, 0int, n,
{
    assert(side * side <= 16) by (nonlinear_arith)
        requires
            0 <= side <= 4,
    ;
    let cells = side * side;
    let c = n - 1;
    let before = sweep(s, side, flip, i, n - 1);
    if fits(s, side, i, candidate(s, flip, i, c)) && k >= before.solutions.len() {
        let v = variants(flip);
        let next = place(s, flip, i, c);
        let j = i + c / v;
        let t = c % v;
        assert(i <= j < cells && 0 <= t < v) by {
            if flip {
                assert(n <= (cells - i) * 8);
                assert(0 <= c / 8 < cells - i);
            } else {
                assert(n <= (cells - i) * 4);
                assert(0 <= c / 4 < cells - i);
            }
        }
        let sub = lemma_solution_is_arrangement(next, side, flip, i + 1, k - before.solutions.len());
        let b = frame(next, side, flip, i + 1).solutions[k - before.solutions.len()];
        assert(sweep(s, side, flip, i, n).solutions[k] == b);
        let from = Seq::new(
            16,
            |p: int|
                if p == i {
                    j
                } else if sub.0[p] == j {
                    i
                } else {
                    sub.0[p]
                },
        );
        let how = Seq::new(
            16,
            |p: int|
                if p == i {
                    t
                } else {
                    sub.1[p]
                },
        );
        assert forall|p: int| 0 <= p < 16 && (p < i || cells <= p) implies #[trigger] b[p]
            == s[p] by {
            assert(b[p] == next[p]);
        }
        assert forall|p: int| i <= p < cells implies i <= #[trigger] from[p] < cells && 0
            <= how[p] < v && b[p] == transformed(s[from[p]], how[p]) by {
            if p == i {
                assert(b[i] == next[i]);
            } else {
                assert(i + 1 <= sub.0[p] < cells);
                assert(b[p] == transformed(next[sub.0[p]], sub.1[p]));
            }
        }
        assert forall|p: int, q: int|
            i <= p < cells && i <= q < cells && p != q implies #[trigger] from[p]
            != #[trigger] from[q] by {
            if p != i && q != i {
                assert(sub.0[p] != sub.0[q]);
            }
            if p != i {
                assert(i + 1 <= sub.0[p] < cells);
            }
            if q != i {
                assert(i + 1 <= sub.0[q] < cells);
            }
        }
        (from, how)
    } else {
        lemma_sweep_is_arrangement(s, side, flip, i, n - 1, k)
    }
}

/// A board made of valid tiles in their variants holds only valid tiles.
pub proof fn lemma_arrangement_ok(
    b: Seq<u16>,
    s: Seq<u16>,
    side: int,
    flip: bool,
    i: int,
    from: Seq<int>,
    how: Seq<int>,
)
    requires
        0 <= side <= 4,
        0 <= i,
        completes(b, s, side, flip, i, from, how),
        forall|p: int| 0 <= p < 16 ==> tile_ok(#[trigger] s[p]),
    ensures
        forall|p: int| 0 <= p < 16 ==> tile_ok(#[trigger] b[p]),
{
    assert(side * side <= 16) by (nonlinear_arith)
        requires
            0 <= side <= 4,
    ;
    assert forall|p: int| 0 <= p < 16 implies tile_ok(#[trigger] b[p]) by {
        if i <= p < side * side {
            assert(i <= from[p] < side * side);
            assert(tile_ok(s[from[p]]));
            lemma_variant_ok(s[from[p]], how[p]);
        } else {
            assert(b[p] == s[p]);
        }
    }
}

} // verus!
