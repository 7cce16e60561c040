//! The enumerator of orderings: a counter with one digit for each element
//! says which two elements change places next, so that every step is one
//! transposition and a run over `n` elements takes `n!` states.

use vstd::prelude::*;
use crate::board::{is_valid, lemma_validity_agrees, Planes};
use crate::grid::state_ok;
use crate::rule::board_valid;
use crate::solver::{completes, frame, lemma_search_complete, variants};
use crate::tile::transformed;

verus! {

/// The factorial.
pub open spec fn fact(k: int) -> int
    decreases k,
{
    if k <= 0 {
        1
    } else {
        k * fact(k - 1)
    }
}

/// The number that the first `k` digits of a counter stand for: digit `m`
/// counts `m!`.
pub open spec fn rank(c: Seq<usize>, k: int) -> int
    decreases k,
{
    if k <= 0 {
        0
    } else {
        rank(c, k - 1) + c[k - 1] * fact(k - 1)
    }
}

/// The first digit from `i` on, below `n`, that is not yet at its limit (digit
/// `m` counts from 0 to `m`), or `n` if there is none.
pub open spec fn pivot_from(c: Seq<usize>, n: int, i: int) -> int
    decreases n - i,
{
    if i >= n {
        n
    } else if c[i] < i {
        i
    } else {
        pivot_from(c, n, i + 1)
    }
}

/// The digit that the next step raises, or `n` when the counter is at its
/// end.
pub open spec fn pivot(c: Seq<usize>, n: int) -> int {
    pivot_from(c, n, 1)
}

/// The counter after the next step: the pivot raised by one, the digits
/// before it back at zero.
pub open spec fn raised(c: Seq<usize>, n: int) -> Seq<usize> {
    Seq::new(
        16,
        |m: int|
            if m < pivot(c, n) {
                0usize
            } else if m == pivot(c, n) {
                (c[m] + 1) as usize
            } else {
                c[m]
            },
    )
}

/// The two positions that change places in the next step: the pivot and,
/// for an even pivot, position 0, for an odd one the position that the
/// pivot digit names.
pub open spec fn swap_pair(c: Seq<usize>, n: int) -> (usize, usize) {
    let p = pivot(c, n);
    if p % 2 == 0 {
        (0usize, p as usize)
    } else {
        (c[p], p as usize)
    }
}

/// The sequence with the elements at `a` and `b` exchanged.
pub open spec fn exchange(s: Seq<u16>, a: int, b: int) -> Seq<u16> {
    s.update(a, s[b]).update(b, s[a])
}

/// The number of boards that obey the adjacency rule among the state `s` and
/// the `steps` states that follow it in the enumeration.
pub open spec fn valid_ahead(s: Seq<u16>, c: Seq<usize>, n: int, side: int, steps: int) -> int
    decreases steps,
{
    let here: int = if board_valid(s, side) {
        1
    } else {
        0
    };
    if steps <= 0 {
        here
    } else {
        let pair = swap_pair(c, n);
        here + valid_ahead(exchange(s, pair.0 as int, pair.1 as int), raised(c, n), n, side, steps - 1)
    }
}

/// The digits of a counter at its start: sixteen zeros.
pub open spec fn zero_digits() -> Seq<usize> {
    Seq::new(16, |m: int| 0usize)
}

/// The counter of an enumeration over the first `n` of sixteen elements.
pub struct Counter {
    pub c: [usize; 16],
    pub n: usize,
}

impl Counter {
    /// Whether every digit is within its limit.
    pub open spec fn ok(self) -> bool {
        self.n <= 16 && forall|m: int| 0 <= m < self.n ==> #[trigger] self.c[m] <= m
    }

    /// Whether no step is left.
    pub open spec fn at_end(self) -> bool {
        pivot(self.c@, self.n as int) >= self.n
    }

    /// The counter at the start of an enumeration over `n` elements.
    pub fn new(n: usize) -> (r: Counter)
        requires
            n <= 16,
        ensures
            r.ok(),
            r.n == n,
            forall|m: int| 0 <= m < 16 ==> #[trigger] r.c[m] == 0,
    {
        Counter { c: [0, 0, 0, 0, 0, 0, 0, 0, 0, 0, 0, 0, 0, 0, 0, 0], n }
    }

    /// The two positions to exchange for the next ordering, with the counter
    /// moved on by one step; `None`, with the counter as it was, once every
    /// ordering has been given.
    pub fn next_swap(&mut self) -> (r: Option<(usize, usize)>)
        requires
            old(self).ok(),
        ensures
            final(self).ok(),
            final(self).n == old(self).n,
            old(self).at_end() ==> r.is_none() && final(self).c == old(self).c,
            !old(self).at_end() ==> r == Some(swap_pair(old(self).c@, old(self).n as int))
                && final(self).c@ == raised(old(self).c@, old(self).n as int),
            r.is_some() ==> r.unwrap().0 < r.unwrap().1 < old(self).n,
    {
        let n: usize = self.n;
        let mut i: usize = 1;
        while i < n && self.c[i] >= i
            invariant
                1 <= i,
                n <= 16,
                self.n == n,
                self.c == old(self).c,
                pivot(self.c@, n as int) == pivot_from(self.c@, n as int, i as int),
            decreases 16 - i,
        {
            i = i + 1;
        }
        if i >= n {
            return None;
        }
        let digit: usize = self.c[i];
        let from: usize = if i % 2 == 0 { 0 } else { digit };
        let mut m: usize = 1;
        while m < i
            invariant
                1 <= m <= i < n <= 16,
                self.n == n,
                forall|k: int| m <= k < 16 ==> #[trigger] self.c[k] == old(self).c[k],
                forall|k: int| 1 <= k < m ==> #[trigger] self.c[k] == 0,
                self.c[0] == old(self).c[0],
            decreases i - m,
        {
            self.c[m] = 0;
            m = m + 1;
        }
        self.c[i] = digit + 1;
        proof {
            assert(old(self).c[0] <= 0);
            assert(self.c@ =~= raised(old(self).c@, n as int));
        }
        Some((from, i))
    }
}

proof fn lemma_pivot_from(c: Seq<usize>, n: int, i: int)
    requires
        0 <= i <= n,
    ensures
        i <= pivot_from(c, n, i) <= n,
        forall|m: int| i <= m < pivot_from(c, n, i) ==> #[trigger] c[m] >= m,
        pivot_from(c, n, i) < n ==> c[pivot_from(c, n, i)] < pivot_from(c, n, i),
    decreases n - i,
{
    if i < n && c[i] >= i {
        lemma_pivot_from(c, n, i + 1);
    }
}

proof fn lemma_fact_positive(k: int)
    ensures
        fact(k) >= 1,
        k >= 0 ==> fact(k + 1) >= fact(k),
        k >= 0 ==> fact(k + 1) == (k + 1) * fact(k),
    decreases k,
{
    if k > 0 {
        lemma_fact_positive(k - 1);
        assert(k * fact(k - 1) >= 1) by (nonlinear_arith)
            requires
                k >= 1,
                fact(k - 1) >= 1,
        ;
    }
    if k >= 0 {
        assert((k + 1) * fact(k) >= fact(k)) by (nonlinear_arith)
            requires
                k >= 0,
                fact(k) >= 1,
        ;
    }
}

/// The factorial does not fall, and that of sixteen fits in 64 bits.
pub proof fn lemma_fact_bound(k: int)
    requires
        0 <= k <= 16,
    ensures
        1 <= fact(k) <= fact(16),
        fact(16) == 20922789888000,
    decreases 16 - k,
{
    lemma_fact_positive(k);
    if k < 16 {
        lemma_fact_bound(k + 1);
    } else {
        assert(fact(0) == 1);
        assert(fact(1) == 1);
        assert(fact(2) == 2);
        assert(fact(3) == 6);
        assert(fact(4) == 24);
        assert(fact(5) == 120);
        assert(fact(6) == 720);
        assert(fact(7) == 5040);
        assert(fact(8) == 40320);
        assert(fact(9) == 362880);
        assert(fact(10) == 3628800);
        assert(fact(11) == 39916800);
        assert(fact(12) == 479001600);
        assert(fact(13) == 6227020800);
        assert(fact(14) == 87178291200);
        assert(fact(15) == 1307674368000);
        assert(fact(16) == 20922789888000);
    }
}

/// Digits that are all within their limits stand for a number below the
/// factorial of their count; digits that are all at their limits stand for
/// the number just below it, and digits that are all zero for zero.
proof fn lemma_rank_range(c: Seq<usize>, k: int)
    requires
        0 <= k,
        forall|m: int| 0 <= m < k ==> #[trigger] c[m] <= m,
    ensures
        0 <= rank(c, k) <= fact(k) - 1,
        (forall|m: int| 0 <= m < k ==> #[trigger] c[m] == m) ==> rank(c, k) == fact(k) - 1,
        (forall|m: int| 0 <= m < k ==> #[trigger] c[m] == 0) ==> rank(c, k) == 0,
    decreases k,
{
    if k > 0 {
        lemma_rank_range(c, k - 1);
        lemma_fact_positive(k - 1);
        let d = c[k - 1] as int;
        let f = fact(k - 1);
        assert(0 <= d <= k - 1);
        assert(0 <= d * f <= (k - 1) * f && (k - 1) * f + f == k * f) by (nonlinear_arith)
            requires
                0 <= d <= k - 1,
                f >= 1,
        ;
        if forall|m: int| 0 <= m < k ==> #[trigger] c[m] == m {
            assert(d == k - 1);
        }
        if forall|m: int| 0 <= m < k ==> #[trigger] c[m] == 0 {
            assert(d == 0);
            assert(d * f == 0);
        }
    }
}

/// Two counters with the same digits from `i` up to `k` differ in rank at
/// `k` as they do at `i`.
proof fn lemma_rank_above(c: Seq<usize>, d: Seq<usize>, i: int, k: int)
    requires
        0 <= i <= k,
        forall|m: int| i <= m < k ==> #[trigger] c[m] == d[m],
    ensures
        rank(c, k) - rank(c, i) == rank(d, k) - rank(d, i),
    decreases k - i,
{
    if i < k {
        lemma_rank_above(c, d, i, k - 1);
        assert(c[k - 1] == d[k - 1]);
    }
}

/// One step raises the rank of a counter by one and keeps its digits within
/// their limits; a counter is at its end exactly when its rank is the
/// highest there is.
pub proof fn lemma_step_rank(c: Seq<usize>, n: int)
    requires
        0 <= n <= 16,
        c.len() == 16,
        forall|m: int| 0 <= m < n ==> #[trigger] c[m] <= m,
    ensures
        0 <= rank(c, n) <= fact(n) - 1,
        pivot(c, n) >= n <==> rank(c, n) == fact(n) - 1,
        pivot(c, n) < n ==> rank(raised(c, n), n) == rank(c, n) + 1,
        pivot(c, n) < n ==> (forall|m: int| 0 <= m < n ==> #[trigger] raised(c, n)[m] <= m),
        pivot(c, n) < n ==> 1 <= pivot(c, n) && c[pivot(c, n)] < pivot(c, n),
{
    lemma_rank_range(c, n);
    if n >= 1 {
        lemma_pivot_from(c, n, 1);
        let p = pivot(c, n);
        assert(c[0] <= 0);
        if p >= n {
            assert forall|m: int| 0 <= m < n implies #[trigger] c[m] == m by {
                if m >= 1 {
                    assert(c[m] >= m);
                    assert(c[m] <= m);
                }
            }
        } else {
            let r = raised(c, n);
            assert forall|m: int| 0 <= m < p implies #[trigger] c[m] == m by {
                if m >= 1 {
                    assert(c[m] >= m);
                    assert(c[m] <= m);
                }
            }
            assert(c[p] <= p);
            lemma_rank_range(c, p);
            lemma_rank_range(r, p);
            lemma_rank_range(r, n);
            lemma_rank_above(c, r, p + 1, n);
            lemma_fact_positive(p);
            let f = fact(p);
            let d = c[p] as int;
            assert(r[p] == d + 1);
            assert((d + 1) * f == d * f + f) by (nonlinear_arith);
            assert(rank(c, p + 1) == rank(c, p) + d * f);
            assert(rank(r, p + 1) == rank(r, p) + (d + 1) * f);
        }
    } else {
        assert(pivot(c, n) >= n);
    }
}

/// A step of the enumeration rearranges the elements: it neither adds one
/// nor loses one.
pub proof fn lemma_exchange_rearranges(s: Seq<u16>, a: int, b: int)
    requires
        0 <= a < s.len(),
        0 <= b < s.len(),
    ensures
        exchange(s, a, b).len() == s.len(),
        exchange(s, a, b).to_multiset() == s.to_multiset(),
{
    broadcast use vstd::multiset::group_multiset_axioms;

    let mid = s.update(a, s[b]);
    vstd::seq_lib::to_multiset_update(s, a, s[b]);
    vstd::seq_lib::to_multiset_update(mid, b, s[a]);
    vstd::seq_lib::to_multiset_contains(s, s[a]);
    vstd::seq_lib::to_multiset_contains(s, s[b]);
    assert(s.contains(s[a])) by {
        assert(s[a] == s[a]);
    }
    assert(s.contains(s[b])) by {
        assert(s[b] == s[b]);
    }
    assert(s.to_multiset().count(s[a]) > 0);
    assert(s.to_multiset().count(s[b]) > 0);
    assert(mid[b] == s[b]);
    assert(exchange(s, a, b).to_multiset() =~= s.to_multiset());
}

/// Sixteen times the variant that leaves a tile as it is.
pub open spec fn unturned() -> Seq<int> {
    Seq::new(16, |p: int| 0int)
}

/// Where the enumeration from an ordering `t` of the tiles of `s` comes upon
/// a board that obeys the adjacency rule, the search over the tiles of `s`
/// finds a board as well: what the reference path accepts, the search does
/// not miss.
pub proof fn lemma_walk_is_searched(
    s: Seq<u16>,
    t: Seq<u16>,
    from: Seq<int>,
    c: Seq<usize>,
    side: int,
    flip: bool,
    steps: int,
)
    requires
        0 <= side <= 4,
        c.len() == 16,
        forall|m: int| 0 <= m < side * side ==> #[trigger] c[m] <= m,
        completes(t, s, side, flip, 0, from, unturned()),
        0 <= steps <= fact(side * side) - 1 - rank(c, side * side),
        valid_ahead(t, c, side * side, side, steps) > 0,
    ensures
        frame(s, side, flip, 0).solutions.len() > 0,
    decreases steps,
{
    assert(0 <= side * side <= 16) by (nonlinear_arith)
        requires
            0 <= side <= 4,
    ;
    let n = side * side;
    if board_valid(t, side) {
        let k = lemma_search_complete(t, s, side, flip, 0, from, unturned());
    } else {
        lemma_step_rank(c, n);
        let pair = swap_pair(c, n);
        let a = pair.0 as int;
        let b = pair.1 as int;
        assert(0 <= a < b < n);
        let next = exchange(t, a, b);
        let moved = Seq::new(
            16,
            |p: int|
                if p == a {
                    from[b]
                } else if p == b {
                    from[a]
                } else {
                    from[p]
                },
        );
        assert forall|p: int| 0 <= p < n implies 0 <= #[trigger] moved[p] < n && 0 <= unturned()[p]
            < variants(flip) && next[p] == transformed(s[moved[p]], unturned()[p]) by {
            assert(0 <= from[p] < n);
            assert(0 <= from[a] < n);
            assert(0 <= from[b] < n);
            assert(t[p] == transformed(s[from[p]], unturned()[p]));
            assert(t[a] == transformed(s[from[a]], unturned()[a]));
            assert(t[b] == transformed(s[from[b]], unturned()[b]));
        }
        assert forall|p: int, q: int| 0 <= p < n && 0 <= q < n && p != q implies #[trigger] moved[p]
            != #[trigger] moved[q] by {
            assert(from[a] != from[b]);
            if p != a && p != b {
                assert(from[p] != from[a] && from[p] != from[b]);
            }
            if q != a && q != b {
                assert(from[q] != from[a] && from[q] != from[b]);
            }
            if p != a && p != b && q != a && q != b {
                assert(from[p] != from[q]);
            }
        }
        assert(completes(next, s, side, flip, 0, moved, unturned()));
        lemma_walk_is_searched(s, next, moved, raised(c, n), side, flip, steps - 1);
    }
}

/// Where the count of the valid orderings of a state is not zero, the search
/// on the same state, with or without mirrored tiles, finds a board.
pub proof fn lemma_reference_is_searched(s: Seq<u16>, side: int, flip: bool)
    requires
        0 <= side <= 4,
        s.len() == 16,
        valid_ahead(s, zero_digits(), side * side, side, fact(side * side) - 1) > 0,
    ensures
        frame(s, side, flip, 0).solutions.len() > 0,
{
    assert(0 <= side * side <= 16) by (nonlinear_arith)
        requires
            0 <= side <= 4,
    ;
    let from = Seq::new(16, |p: int| p);
    lemma_rank_range(zero_digits(), side * side);
    lemma_fact_bound(side * side);
    assert(completes(s, s, side, flip, 0, from, unturned()));
    lemma_walk_is_searched(
        s,
        s,
        from,
        zero_digits(),
        side,
        flip,
        fact(side * side) - 1,
    );
}

/// How many of the orderings of the first `side * side` tiles of `state`
/// obey the adjacency rule. The tiles are not turned. The enumeration starts
/// at `state` and takes one transposition for each further ordering, until
/// as many orderings have been tested as the tiles have.
pub fn count_valid_permutations(state: &[u16; 16], side: usize) -> (r: u64)
    requires
        side <= 4,
        state_ok(state@),
    ensures
        r == valid_ahead(
            state@,
            zero_digits(),
            side * side,
            side as int,
            fact(side * side) - 1,
        ),
{
    assert(side * side <= 16) by (nonlinear_arith)
        requires
            side <= 4,
    ;
    let n: usize = side * side;
    let mut planes = Planes::from_state(state);
    let mut counter = Counter::new(n);
    let mut found: u64 = 0;
    let ghost c0 = counter.c@;
    let ghost mut s = state@;
    let ghost mut left: int = fact(n as int) - 1;
    proof {
        assert(c0 =~= zero_digits());
        lemma_rank_range(c0, n as int);
        lemma_fact_bound(n as int);
    }
    loop
        invariant
            side <= 4,
            n == side * side,
            n <= 16,
            counter.ok(),
            counter.n == n,
            s.len() == 16,
            state_ok(s),
            planes.depicts(s),
            left == fact(n as int) - 1 - rank(counter.c@, n as int),
            0 <= left,
            found <= rank(counter.c@, n as int),
            fact(n as int) <= 20922789888000,
            c0 == zero_digits(),
            found + valid_ahead(s, counter.c@, n as int, side as int, left) == valid_ahead(
                state@,
                c0,
                n as int,
                side as int,
                fact(n as int) - 1,
            ),
        decreases left,
    {
        proof {
            lemma_validity_agrees(planes, s, side as int);
            lemma_step_rank(counter.c@, n as int);
        }
        if is_valid(&planes, side) {
            found = found + 1;
        }
        let ghost before = counter.c@;
        match counter.next_swap() {
            None => {
                return found;
            },
            Some((a, b)) => {
                planes = planes.swap_tiles(a, b);
                proof {
                    let t = exchange(s, a as int, b as int);
                    assert(state_ok(t)) by {
                        assert forall|p: int| 0 <= p < t.len() implies crate::tile::tile_ok(
                            #[trigger] t[p],
                        ) by {
                            assert(crate::tile::tile_ok(s[p]));
                            assert(crate::tile::tile_ok(s[a as int]));
                            assert(crate::tile::tile_ok(s[b as int]));
                        }
                    }
                    s = t;
                    left = left - 1;
                }
            },
        }
    }
}

} // verus!
