//! Dense ranking of the King + Pawn + Gold material slice.
//!
//! A rank is a number in `0..domain_size()` that names a Sente-to-move
//! arrangement with one King per side and two Gold tokens and two Pawn tokens,
//! each token on the board (with an owner and a face) or in a hand. The left-right
//! mirror is folded by taking the lower rank of the two images.
//!
//! The rank of an arrangement is `king_rank * per_king_size() + gold_weighted +
//! pawn_rank`: `king_rank` numbers the ordered pair of King squares, the Gold
//! placement is numbered over the 18 squares the Kings leave empty, and each Gold
//! placement is weighted by the number of Pawn placements over the squares left
//! after it.
use vstd::prelude::*;
use crate::rules::{
    has_king_capture, dirs_moves, hand_drops, piece_moves, ray_moves, slot_kind, square_drops, squares_moves, file, hand_after, hand_of, is_king_capture, lemma_moves_shape, make_ok, make_spec, move_shape, moves_spec, Move, hand_slot, in_board, lemma_fifth_step_off_board, lemma_movement_dirs, movement, movement_spec, on_board,
    rank, sq_file, sq_rank, Cell, Kind, Owner, PosView, Position,
};
use crate::packing::{
    pack, pack_spec, canonical_turn, canonical_turn_spec, flip_cell, rotate_view, lemma_mirror_involution, lemma_turn_mirror_commute, mirror, mirror_sq,
    lemma_mirror_coords, lemma_mirror_sq, mirror_move, lemma_mirror_make,
    mirror_view,
};
use vstd::set_lib::{lemma_int_range, lemma_len_subset, set_int_range};
use vstd::arithmetic::div_mod::{lemma_fundamental_div_mod_converse, lemma_fundamental_div_mod};

verus! {

// ---------------------------------------------------------------------------
// Counting
// ---------------------------------------------------------------------------

pub open spec fn c2(n: int) -> int {
    n * (n - 1) / 2
}

/// Placements of one kind's two tokens over `e` empty squares: both in hands (3
/// ways), one on the board (square, 4 faces/owners, the other token's owner), or
/// both on the board (square pair, 16 face/owner combinations).
pub open spec fn kds(e: int) -> int {
    3 + 8 * e + 16 * c2(e)
}

pub open spec fn per_king_spec() -> int {
    3 * kds(18) + 8 * 18 * kds(17) + 16 * c2(18) * kds(16)
}

pub open spec fn domain_spec() -> int {
    20 * 19 * per_king_spec()
}

proof fn lemma_c2_double(n: int)
    ensures
        2 * c2(n) == n * (n - 1),
{
    let k = n / 2;
    lemma_fundamental_div_mod(n, 2);
    if n % 2 == 0 {
        assert(n * (n - 1) == 2 * (k * (n - 1))) by (nonlinear_arith)
            requires
                n == 2 * k,
        ;
    } else {
        assert(n * (n - 1) == 2 * (n * k)) by (nonlinear_arith)
            requires
                n - 1 == 2 * k,
        ;
    }
}

proof fn lemma_sizes()
    ensures
        c2(16) == 120,
        c2(17) == 136,
        c2(18) == 153,
        kds(16) == 2051,
        kds(17) == 2315,
        kds(18) == 2595,
        per_king_spec() == 5361993,
        domain_spec() == 2037557340,
{
}

fn choose2(n: u32) -> (r: u32)
    requires
        1 <= n,
        n * (n - 1) <= u32::MAX,
    ensures
        r == c2(n as int),
{
    n * (n - 1) / 2
}

/// Number of placements of one kind over `empty` squares.
pub fn kind_domain_size(empty: u32) -> (r: u32)
    requires
        1 <= empty,
        kds(empty as int) <= u32::MAX,
    ensures
        r == kds(empty as int),
{
    proof {
        lemma_c2_double(empty as int);
        assert(empty * (empty - 1) <= u32::MAX) by (nonlinear_arith)
            requires
                2 * c2(empty as int) == empty * (empty - 1),
                kds(empty as int) <= u32::MAX,
                empty >= 1,
        ;
    }
    3 + 8 * empty + 16 * choose2(empty)
}

/// Number of Gold-and-Pawn arrangements for one placement of the two Kings.
pub fn per_king_size() -> (r: u32)
    ensures
        r == per_king_spec(),
        r == 5361993,
{
    proof {
        lemma_sizes();
    }
    let e: u32 = 20 - 2;
    3 * kind_domain_size(e) + 8 * e * kind_domain_size(e - 1) + 16 * choose2(e) * kind_domain_size(e - 2)
}

/// Size of the raw rank domain.
pub fn domain_size() -> (r: u32)
    ensures
        r == domain_spec(),
        r == 2037557340,
{
    proof {
        lemma_sizes();
    }
    20 * (20 - 1) * per_king_size()
}


// ---------------------------------------------------------------------------
// Ranking square pairs
// ---------------------------------------------------------------------------

/// Rank of the pair `i < j` among pairs of `0..e`, rows ordered by `i`.
pub open spec fn pair_rank_spec(e: int, i: int, j: int) -> int {
    i * (2 * e - i - 1) / 2 + (j - i - 1)
}

/// Number of pairs whose first element is below `i`.
pub open spec fn row_off(e: int, i: int) -> int {
    i * e - c2(i + 1)
}

proof fn lemma_row_off(e: int, i: int)
    ensures
        i * (2 * e - i - 1) / 2 == row_off(e, i),
        row_off(e, i + 1) == row_off(e, i) + (e - i - 1),
        row_off(e, 0) == 0,
{
    lemma_c2_double(i + 1);
    lemma_c2_double(i + 2);
    assert(i * (2 * e - i - 1) == 2 * (i * e) - (i + 1) * i) by (nonlinear_arith);
    assert(i * (2 * e - i - 1) == 2 * (i * e - c2(i + 1)));
    assert((i + 1) * e == i * e + e) by (nonlinear_arith);
    assert((i + 2) * (i + 1) == (i + 1) * i + 2 * (i + 1)) by (nonlinear_arith);
    lemma_c2_double(1);
}

proof fn lemma_row_off_total(e: int)
    requires
        e >= 1,
    ensures
        row_off(e, e) == c2(e),
{
    lemma_c2_double(e + 1);
    lemma_c2_double(e);
    assert(e * e == (e + 1) * e - e) by (nonlinear_arith);
    assert((e + 1) * e == e * (e - 1) + 2 * e) by (nonlinear_arith);
}

proof fn lemma_row_off_mono(e: int, i: int, k: int)
    requires
        0 <= i <= k <= e,
    ensures
        row_off(e, i) <= row_off(e, k),
        i < k ==> row_off(e, i + 1) <= row_off(e, k),
    decreases k - i,
{
    lemma_row_off(e, i);
    if i < k {
        lemma_row_off_mono(e, i + 1, k);
    }
}

/// Decoding a pair rank by walking the rows from row `i`.
pub open spec fn unrank_pair_from(e: int, i: int, r: int) -> (int, int)
    decreases e - i,
{
    if i >= e {
        (0, 0)
    } else if r < e - i - 1 {
        (i, i + 1 + r)
    } else {
        unrank_pair_from(e, i + 1, r - (e - i - 1))
    }
}

pub open spec fn unrank_pair_spec(e: int, r: int) -> (int, int) {
    unrank_pair_from(e, 0, r)
}

proof fn lemma_unrank_pair_from(e: int, i: int, r: int)
    requires
        0 <= i <= e,
        0 <= r,
        row_off(e, i) + r < c2(e),
    ensures
        ({
            let (a, b) = unrank_pair_from(e, i, r);
            &&& i <= a < b < e
            &&& pair_rank_spec(e, a, b) == row_off(e, i) + r
        }),
    decreases e - i,
{
    lemma_row_off(e, i);
    if i >= e {
        lemma_row_off_total(e);
    } else if r < e - i - 1 {
    } else {
        lemma_unrank_pair_from(e, i + 1, r - (e - i - 1));
    }
}

/// Pair ranks number the pairs `i < j < e` one to one onto `0..c2(e)`.
pub proof fn lemma_pair_rank_bijective(e: int, r: int, i: int, j: int)
    requires
        e >= 1,
    ensures
        0 <= r < c2(e) ==> ({
            let (a, b) = unrank_pair_spec(e, r);
            0 <= a < b < e && pair_rank_spec(e, a, b) == r
        }),
        0 <= i < j < e ==> 0 <= pair_rank_spec(e, i, j) < c2(e) && unrank_pair_spec(e, pair_rank_spec(e, i, j)) == (
        i,
        j,
        ),
{
    lemma_row_off(e, 0);
    if 0 <= r < c2(e) {
        lemma_unrank_pair_from(e, 0, r);
    }
    if 0 <= i < j < e {
        lemma_row_off(e, i);
        lemma_row_off_mono(e, i, e);
        lemma_row_off_total(e);
        lemma_pair_walk(e, 0, i, j);
    }
}

proof fn lemma_pair_walk(e: int, t: int, i: int, j: int)
    requires
        0 <= t <= i < j < e,
    ensures
        unrank_pair_from(e, t, pair_rank_spec(e, i, j) - row_off(e, t)) == (i, j),
    decreases i - t,
{
    lemma_row_off(e, t);
    lemma_row_off(e, i);
    lemma_row_off_mono(e, t, i);
    if t < i {
        lemma_pair_walk(e, t + 1, i, j);
    }
}


fn pair_rank(empty: u32, i: u32, j: u32) -> (r: u32)
    requires
        i < j < empty,
        2 * empty <= u32::MAX,
        i * (2 * empty - i - 1) <= u32::MAX,
        pair_rank_spec(empty as int, i as int, j as int) <= u32::MAX,
    ensures
        r == pair_rank_spec(empty as int, i as int, j as int),
{
    i * (2 * empty - i - 1) / 2 + (j - i - 1)
}

fn unrank_pair(empty: u32, rank: u32) -> (r: (u32, u32))
    requires
        rank < c2(empty as int),
    ensures
        r.0 == unrank_pair_spec(empty as int, rank as int).0,
        r.1 == unrank_pair_spec(empty as int, rank as int).1,
        r.0 < r.1 < empty,
{
    proof {
        lemma_c2_double(empty as int);
        lemma_row_off(empty as int, 0);
        lemma_unrank_pair_from(empty as int, 0, rank as int);
    }
    let mut rest = rank;
    let ghost r0 = rank as int;
    let mut i: u32 = 0;
    while i < empty
        invariant
            i <= empty,
            rest as int + row_off(empty as int, i as int) == r0,
            r0 == rank,
            r0 < c2(empty as int),
            unrank_pair_from(empty as int, i as int, rest as int) == unrank_pair_spec(empty as int, r0),
        decreases empty - i,
    {
        proof {
            lemma_row_off(empty as int, i as int);
        }
        let row = empty - i - 1;
        if rest < row {
            return (i, i + 1 + rest);
        }
        rest -= row;
        i += 1;
    }
    proof {
        lemma_row_off_total(empty as int);
    }
    // the rows hold c2(empty) pairs, so the walk ends above
    (0, 0)
}

// ---------------------------------------------------------------------------
// Placements of one kind
// ---------------------------------------------------------------------------

/// Where the two tokens of one kind are: `board_count` of them on the board, at
/// (index into the current empty-square list, variant) — variant = owner * 2 +
/// face — and the rest in the hands.
#[derive(Clone, Copy, Debug)]
pub struct KindPlacement {
    pub rank: u32,
    pub board_count: u8,
    pub board: [(u8, u8); 2],
    pub hand_sente: u8,
    pub hand_gote: u8,
}

/// The number of a placement among the `kds(e)` placements over `e` squares.
pub open spec fn kp_rank(e: int, kp: KindPlacement) -> int {
    if kp.board_count == 0 {
        kp.hand_sente as int
    } else if kp.board_count == 1 {
        3 + (kp.board[0].0 * 4 + kp.board[0].1) * 2 + (if kp.hand_sente == 1 { 0int } else { 1int })
    } else {
        3 + 8 * e + pair_rank_spec(e, kp.board[0].0 as int, kp.board[1].0 as int) * 16 + kp.board[0].1 * 4
            + kp.board[1].1
    }
}

/// A well-formed placement over `e` empty squares, carrying its own number.
pub open spec fn kp_valid(e: int, kp: KindPlacement) -> bool {
    &&& kp.board_count <= 2
    &&& kp.board_count + kp.hand_sente + kp.hand_gote == 2
    &&& forall|t: int| 0 <= t < kp.board_count ==> #[trigger] kp.board[t].0 < e && kp.board[t].1 < 4
    &&& kp.board_count == 2 ==> kp.board[0].0 < kp.board[1].0
    &&& forall|t: int| kp.board_count <= t < 2 ==> #[trigger] kp.board[t] == (0u8, 0u8)
    &&& kp.rank == kp_rank(e, kp)
}

/// Decoding of a placement number.
pub open spec fn unrank_kind_spec(e: int, r: int) -> KindPlacement {
    if r < 3 {
        KindPlacement { rank: r as u32, board_count: 0, board: [(0u8, 0u8), (0u8, 0u8)], hand_sente: r as u8, hand_gote: (2 - r) as u8 }
    } else if r - 3 < 8 * e {
        let x = r - 3;
        let sv = x / 2;
        KindPlacement {
            rank: r as u32,
            board_count: 1,
            board: [((sv / 4) as u8, (sv % 4) as u8), (0u8, 0u8)],
            hand_sente: if x % 2 == 0 { 1u8 } else { 0u8 },
            hand_gote: if x % 2 == 1 { 1u8 } else { 0u8 },
        }
    } else {
        let x = r - 3 - 8 * e;
        let ij = unrank_pair_spec(e, x / 16);
        let vs = x % 16;
        KindPlacement {
            rank: r as u32,
            board_count: 2,
            board: [(ij.0 as u8, (vs / 4) as u8), (ij.1 as u8, (vs % 4) as u8)],
            hand_sente: 0,
            hand_gote: 0,
        }
    }
}

/// Placement numbers over `e` squares name the placements one to one.
pub proof fn lemma_kind_rank_bijective(e: int, r: int, kp: KindPlacement)
    requires
        1 <= e <= 20,
    ensures
        0 <= r < kds(e) ==> kp_valid(e, unrank_kind_spec(e, r)) && kp_rank(e, unrank_kind_spec(e, r)) == r,
        kp_valid(e, kp) ==> 0 <= kp_rank(e, kp) < kds(e) && unrank_kind_spec(e, kp_rank(e, kp)) == kp,
{
    lemma_c2_double(e);
    assert(e * (e - 1) <= 380) by (nonlinear_arith)
        requires
            1 <= e <= 20,
    ;
    if 0 <= r < kds(e) {
        let d = unrank_kind_spec(e, r);
        if r < 3 {
            assert(d.board[0] == (0u8, 0u8) && d.board[1] == (0u8, 0u8));
        } else if r - 3 < 8 * e {
            let x = r - 3;
            let sv = x / 2;
            lemma_fundamental_div_mod_converse(x, 2, sv, x % 2);
            lemma_fundamental_div_mod(x, 2);
            lemma_fundamental_div_mod(sv, 4);
            assert(sv / 4 < e);
            assert(d.board[0].0 == sv / 4);
            assert(d.board[0].1 == sv % 4);
            assert(d.board[1] == (0u8, 0u8));
            assert(kp_rank(e, d) == 3 + (sv / 4 * 4 + sv % 4) * 2 + x % 2);
        } else {
            let x = r - 3 - 8 * e;
            lemma_c2_double(e);
            lemma_fundamental_div_mod(x, 16);
            lemma_fundamental_div_mod(x % 16, 4);
            assert(x / 16 < c2(e));
            lemma_pair_rank_bijective(e, x / 16, 0, 0);
            let ij = unrank_pair_spec(e, x / 16);
            assert(d.board[0].0 == ij.0 && d.board[1].0 == ij.1);
            assert(kp_rank(e, d) == 3 + 8 * e + (x / 16) * 16 + (x % 16) / 4 * 4 + (x % 16) % 4);
        }
    }
    if kp_valid(e, kp) {
        let r = kp_rank(e, kp);
        let d = unrank_kind_spec(e, r);
        if kp.board_count == 0 {
            assert(d.board =~= kp.board);
        } else if kp.board_count == 1 {
            let ho: int = if kp.hand_sente == 1 { 0 } else { 1 };
            let sv = kp.board[0].0 * 4 + kp.board[0].1;
            let x = sv * 2 + ho;
            assert(r - 3 == x);
            lemma_fundamental_div_mod_converse(x, 2, sv, ho);
            lemma_fundamental_div_mod_converse(sv, 4, kp.board[0].0 as int, kp.board[0].1 as int);
            assert(x < 8 * e);
            assert(d.board =~= kp.board);
        } else {
            let i = kp.board[0].0 as int;
            let j = kp.board[1].0 as int;
            lemma_pair_rank_bijective(e, 0, i, j);
            let pr = pair_rank_spec(e, i, j);
            let vs = kp.board[0].1 * 4 + kp.board[1].1;
            let x = pr * 16 + vs;
            assert(r - 3 - 8 * e == x);
            lemma_fundamental_div_mod_converse(x, 16, pr, vs);
            lemma_fundamental_div_mod_converse(vs, 4, kp.board[0].1 as int, kp.board[1].1 as int);
            assert(d.board =~= kp.board);
        }
    }
}


/// Offset of a Gold placement in the per-King numbering: each placement is
/// weighted by the number of Pawn placements over the squares it leaves.
pub open spec fn weighted_spec(e: int, kp: KindPlacement) -> int {
    if kp.board_count == 0 {
        kp.rank * kds(e)
    } else if kp.board_count == 1 {
        3 * kds(e) + (kp.rank - 3) * kds(e - 1)
    } else {
        3 * kds(e) + 8 * e * kds(e - 1) + (kp.rank - 3 - 8 * e) * kds(e - 2)
    }
}

/// Number of (Gold placement, Pawn placement) pairs over `e` squares.
pub open spec fn weighted_total(e: int) -> int {
    3 * kds(e) + 8 * e * kds(e - 1) + 16 * c2(e) * kds(e - 2)
}

/// Split a per-King number into a Gold placement and a Pawn placement number.
pub open spec fn unrank_weighted_spec(e: int, rank: int) -> (KindPlacement, int) {
    let b0u = kds(e);
    if rank < 3 * b0u {
        (unrank_kind_spec(e, rank / b0u), rank % b0u)
    } else {
        let x = rank - 3 * b0u;
        let b1u = kds(e - 1);
        if x < 8 * e * b1u {
            (unrank_kind_spec(e, 3 + x / b1u), x % b1u)
        } else {
            let y = x - 8 * e * b1u;
            let b2u = kds(e - 2);
            (unrank_kind_spec(e, 3 + 8 * e + y / b2u), y % b2u)
        }
    }
}

proof fn lemma_kds_pos(e: int)
    requires
        0 <= e <= 20,
    ensures
        1 <= kds(e) <= 3203,
{
    lemma_c2_double(e);
    assert(e * (e - 1) <= 380 && e * (e - 1) >= 0) by (nonlinear_arith)
        requires
            0 <= e <= 20,
    ;
}

proof fn lemma_div_below(x: int, d: int, n: int)
    requires
        d > 0,
        0 <= x < n * d,
    ensures
        0 <= x / d < n,
        0 <= x % d < d,
        x == (x / d) * d + x % d,
{
    lemma_fundamental_div_mod(x, d);
    assert(0 <= x / d < n) by (nonlinear_arith)
        requires
            d > 0,
            0 <= x < n * d,
            x == d * (x / d) + x % d,
            0 <= x % d < d,
    ;
    assert(d * (x / d) == (x / d) * d) by (nonlinear_arith);
}

proof fn lemma_mul_place(q: int, d: int, r: int, n: int)
    requires
        0 <= q < n,
        0 <= r < d,
    ensures
        0 <= q * d + r < n * d,
{
    assert(0 <= q * d + r < n * d) by (nonlinear_arith)
        requires
            0 <= q < n,
            0 <= r < d,
    ;
}

/// Per-King numbers name the (Gold placement, Pawn placement) pairs one to one.
pub proof fn lemma_weighted_bijective(e: int, rem: int, kp: KindPlacement, rp: int)
    requires
        3 <= e <= 20,
    ensures
        0 <= rem < weighted_total(e) ==> ({
            let (g, p) = unrank_weighted_spec(e, rem);
            &&& kp_valid(e, g)
            &&& 0 <= p < kds(e - g.board_count)
            &&& weighted_spec(e, g) + p == rem
        }),
        kp_valid(e, kp) && 0 <= rp < kds(e - kp.board_count) ==> {
            &&& 0 <= weighted_spec(e, kp) + rp < weighted_total(e)
            &&& unrank_weighted_spec(e, weighted_spec(e, kp) + rp) == (kp, rp)
        },
{
    lemma_kds_pos(e);
    lemma_kds_pos(e - 1);
    lemma_kds_pos(e - 2);
    let b0u = kds(e);
    let b1u = kds(e - 1);
    let b2u = kds(e - 2);
    assert(8 * e * b1u == (8 * e) * b1u) by (nonlinear_arith);
    assert(16 * c2(e) * b2u == (16 * c2(e)) * b2u) by (nonlinear_arith);
    assert(c2(e) >= 0) by {
        lemma_c2_double(e);
        assert(e * (e - 1) >= 0) by (nonlinear_arith)
            requires
                e >= 3,
        ;
    }
    if 0 <= rem < weighted_total(e) {
        if rem < 3 * b0u {
            lemma_div_below(rem, b0u, 3);
            lemma_kind_rank_bijective(e, rem / b0u, unrank_kind_spec(e, 0));
        } else {
            let x = rem - 3 * b0u;
            if x < 8 * e * b1u {
                lemma_div_below(x, b1u, 8 * e);
                lemma_kind_rank_bijective(e, 3 + x / b1u, unrank_kind_spec(e, 0));
            } else {
                let y = x - 8 * e * b1u;
                lemma_div_below(y, b2u, 16 * c2(e));
                lemma_kind_rank_bijective(e, 3 + 8 * e + y / b2u, unrank_kind_spec(e, 0));
            }
        }
    }
    if kp_valid(e, kp) && 0 <= rp < kds(e - kp.board_count) {
        lemma_kind_rank_bijective(e, 0, kp);
        let r = kp_rank(e, kp);
        if kp.board_count == 0 {
            lemma_mul_place(r, b0u, rp, 3);
            lemma_fundamental_div_mod_converse(r * b0u + rp, b0u, r, rp);
        } else if kp.board_count == 1 {
            lemma_mul_place(r - 3, b1u, rp, 8 * e);
            lemma_fundamental_div_mod_converse((r - 3) * b1u + rp, b1u, r - 3, rp);
        } else {
            lemma_mul_place(r - 3 - 8 * e, b2u, rp, 16 * c2(e));
            lemma_fundamental_div_mod_converse((r - 3 - 8 * e) * b2u + rp, b2u, r - 3 - 8 * e, rp);
        }
    }
}


fn unrank_kind(empty: u32, rank: u32) -> (kp: KindPlacement)
    requires
        1 <= empty <= 20,
        rank < kds(empty as int),
    ensures
        kp == unrank_kind_spec(empty as int, rank as int),
{
    proof {
        lemma_kds_pos(empty as int);
        lemma_c2_double(empty as int);
    }
    let ghost spec = unrank_kind_spec(empty as int, rank as int);
    if rank < 3 {
        let hand_sente = rank as u8;
        let kp = KindPlacement { rank, board_count: 0, board: [(0, 0); 2], hand_sente, hand_gote: 2 - hand_sente };
        assert(kp.board =~= spec.board);
        return kp;
    }
    let r = rank - 3;
    let b1 = 8 * empty;
    if r < b1 {
        let square_variant_hand = r;
        let hand_owner = (square_variant_hand % 2) as u8;
        let square_variant = square_variant_hand / 2;
        let kp = KindPlacement {
            rank,
            board_count: 1,
            board: [((square_variant / 4) as u8, (square_variant % 4) as u8), (0, 0)],
            hand_sente: if hand_owner == 0 { 1 } else { 0 },
            hand_gote: if hand_owner == 1 { 1 } else { 0 },
        };
        assert(kp.board =~= spec.board);
        return kp;
    }
    let r = r - b1;
    let pair = r / 16;
    let variants = r % 16;
    proof {
        lemma_div_below(r as int, 16, c2(empty as int));
    }
    let (i, j) = unrank_pair(empty, pair);
    let kp = KindPlacement {
        rank,
        board_count: 2,
        board: [(i as u8, (variants / 4) as u8), (j as u8, (variants % 4) as u8)],
        hand_sente: 0,
        hand_gote: 0,
    };
    assert(kp.board =~= spec.board);
    kp
}

fn weighted_kind_rank(empty: u32, placement: &KindPlacement) -> (r: Option<u32>)
    requires
        3 <= empty <= 20,
        kp_valid(empty as int, *placement),
    ensures
        r == Some(weighted_spec(empty as int, *placement) as u32),
        weighted_spec(empty as int, *placement) < weighted_total(empty as int),
{
    proof {
        lemma_kds_pos(empty as int);
        lemma_kds_pos(empty - 1);
        lemma_kds_pos(empty - 2);
        lemma_weighted_bijective(empty as int, 0, *placement, 0);
        lemma_c2_double(empty as int);
        assert(empty * (empty - 1) <= 380) by (nonlinear_arith)
            requires
                empty <= 20,
        ;
        lemma_kind_rank_bijective(empty as int, 0, *placement);
        assert(weighted_total(empty as int) <= 3 * 3203 + 160 * 3203 + 16 * 190 * 3203) by (nonlinear_arith)
            requires
                kds(empty as int) <= 3203,
                kds(empty - 1) <= 3203,
                kds(empty - 2) <= 3203,
                empty <= 20,
                0 <= c2(empty as int) <= 190,
                kds(empty - 1) >= 0,
                kds(empty - 2) >= 0,
        ;
    }
    let b0 = 3 * kind_domain_size(empty);
    let b1 = 8 * empty * kind_domain_size(empty - 1);
    match placement.board_count {
        0 => Some(placement.rank * kind_domain_size(empty)),
        1 => Some(b0 + (placement.rank - 3) * kind_domain_size(empty - 1)),
        2 => Some(b0 + b1 + (placement.rank - 3 - 8 * empty) * kind_domain_size(empty - 2)),
        _ => None,
    }
}

fn unrank_weighted_kind(empty: u32, rank: u32) -> (r: (KindPlacement, u32))
    requires
        3 <= empty <= 20,
        rank < weighted_total(empty as int),
    ensures
        r.0 == unrank_weighted_spec(empty as int, rank as int).0,
        r.1 == unrank_weighted_spec(empty as int, rank as int).1,
{
    proof {
        lemma_weighted_bijective(empty as int, rank as int, unrank_kind_spec(0, 0), 0);
        lemma_kds_pos(empty as int);
        lemma_kds_pos(empty - 1);
        lemma_kds_pos(empty - 2);
    }
    let b0_unit = kind_domain_size(empty);
    let b0 = 3 * b0_unit;
    if rank < b0 {
        proof {
            lemma_div_below(rank as int, b0_unit as int, 3);
        }
        return (unrank_kind(empty, rank / b0_unit), rank % b0_unit);
    }
    let rank = rank - b0;
    let b1_unit = kind_domain_size(empty - 1);
    assert(8 * empty * b1_unit <= 160 * 3203) by (nonlinear_arith)
        requires
            empty <= 20,
            b1_unit <= 3203,
    ;
    let b1 = 8 * empty * b1_unit;
    if rank < b1 {
        proof {
            lemma_div_below(rank as int, b1_unit as int, 8 * empty);
        }
        return (unrank_kind(empty, 3 + rank / b1_unit), rank % b1_unit);
    }
    let rank = rank - b1;
    let b2_unit = kind_domain_size(empty - 2);
    proof {
        assert(16 * c2(empty as int) * b2_unit == (16 * c2(empty as int)) * b2_unit) by (nonlinear_arith);
        lemma_c2_double(empty as int);
        lemma_div_below(rank as int, b2_unit as int, 16 * c2(empty as int));
    }
    (unrank_kind(empty, 3 + 8 * empty + rank / b2_unit), rank % b2_unit)
}


// ---------------------------------------------------------------------------
// Empty-square lists
// ---------------------------------------------------------------------------

/// The squares below `n` that are not in `occ`, ascending.
pub open spec fn free_upto(occ: Set<int>, n: int) -> Seq<u8>
    decreases n,
{
    if n <= 0 {
        seq![]
    } else {
        free_upto(occ, n - 1) + if occ.contains(n - 1) {
            seq![]
        } else {
            seq![(n - 1) as u8]
        }
    }
}

pub open spec fn free_list(occ: Set<int>) -> Seq<u8> {
    free_upto(occ, 20)
}

/// Position of a free square `q` in the free list: the free squares below it.
pub open spec fn free_index(occ: Set<int>, q: int) -> int {
    free_upto(occ, q).len() as int
}

pub open spec fn mask_set(m: u32) -> Set<int> {
    Set::new(|q: int| 0 <= q < 32 && (m >> (q as u32)) & 1 == 1)
}

proof fn lemma_free_basic(occ: Set<int>, n: int)
    requires
        0 <= n <= 20,
    ensures
        free_upto(occ, n).len() <= n,
        forall|i: int|
            0 <= i < free_upto(occ, n).len() ==> {
                let q = #[trigger] free_upto(occ, n)[i];
                &&& q < n
                &&& !occ.contains(q as int)
                &&& free_index(occ, q as int) == i
            },
        forall|i: int, j: int|
            0 <= i < j < free_upto(occ, n).len() ==> free_upto(occ, n)[i] < free_upto(occ, n)[j],
        forall|q: int| 0 <= q < n && !occ.contains(q) ==> #[trigger] free_index(occ, q) < free_upto(occ, n).len(),
        forall|q: int| 0 <= q < n && !occ.contains(q) ==> free_upto(occ, n)[#[trigger] free_index(occ, q)] == q,
    decreases n,
{
    if n > 0 {
        lemma_free_basic(occ, n - 1);
        let pre = free_upto(occ, n - 1);
        assert(free_upto(occ, n) == pre + if occ.contains(n - 1) {
            seq![]
        } else {
            seq![(n - 1) as u8]
        });
        assert forall|q: int| 0 <= q < n && !occ.contains(q) implies #[trigger] free_index(occ, q) < free_upto(occ, n).len()
            && free_upto(occ, n)[free_index(occ, q)] == q by {
            if q < n - 1 {
                assert(free_index(occ, q) < pre.len());
                assert(pre[free_index(occ, q)] == q);
                assert(free_upto(occ, n)[free_index(occ, q)] == pre[free_index(occ, q)]);
            } else {
                assert(free_index(occ, q) == pre.len());
            }
        }
        assert forall|i: int| 0 <= i < free_upto(occ, n).len() implies {
            let q = #[trigger] free_upto(occ, n)[i];
            &&& q < n
            &&& !occ.contains(q as int)
            &&& free_index(occ, q as int) == i
        } by {
            if i < pre.len() {
                assert(free_upto(occ, n)[i] == pre[i]);
            }
        }
    }
}

/// Adding one free square to the occupied set shortens the list by one.
proof fn lemma_free_len_insert(occ: Set<int>, q: int, n: int)
    requires
        0 <= n <= 20,
        0 <= q < 20,
        !occ.contains(q),
    ensures
        free_upto(occ.insert(q), n).len() == free_upto(occ, n).len() - (if q < n { 1int } else { 0int }),
    decreases n,
{
    if n > 0 {
        lemma_free_len_insert(occ, q, n - 1);
    }
}

proof fn lemma_free_len_empty(n: int)
    requires
        0 <= n <= 20,
    ensures
        free_upto(Set::<int>::empty(), n).len() == n,
    decreases n,
{
    if n > 0 {
        lemma_free_len_empty(n - 1);
    }
}

proof fn lemma_bit_single(a: u32, q: u32)
    by (bit_vector)
    requires
        a < 32,
        q < 32,
    ensures
        ((1u32 << a) >> q) & 1 == 1 <==> a == q,
{
}

proof fn lemma_bit_or(x: u32, y: u32, q: u32)
    by (bit_vector)
    requires
        q < 32,
    ensures
        ((x | y) >> q) & 1 == 1 <==> ((x >> q) & 1 == 1 || (y >> q) & 1 == 1),
{
}

proof fn lemma_bit_one(x: u32, q: u32)
    by (bit_vector)
    requires
        q < 32,
        (x >> q) & 1 != 0,
    ensures
        (x >> q) & 1 == 1,
{
}

proof fn lemma_bit_zero(q: u32)
    by (bit_vector)
    requires
        q < 32,
    ensures
        (0u32 >> q) & 1 == 0,
{
}

pub open spec fn bit(m: u32, q: int) -> bool {
    (m >> (q as u32)) & 1 == 1
}

/// The ascending list of squares whose bit is clear.
fn empty_squares(occupied: u32) -> (v: Vec<u8>)
    ensures
        v@ == free_list(mask_set(occupied)),
{
    let mut v: Vec<u8> = Vec::new();
    let mut sq: u8 = 0;
    while sq < 20
        invariant
            sq <= 20,
            v@ == free_upto(mask_set(occupied), sq as int),
        decreases 20 - sq,
    {
        if (occupied >> (sq as u32)) & 1 == 0 {
            v.push(sq);
            assert(!mask_set(occupied).contains(sq as int));
        } else {
            proof {
                lemma_bit_one(occupied, sq as u32);
            }
            assert(mask_set(occupied).contains(sq as int));
        }
        assert(free_upto(mask_set(occupied), sq + 1) =~= v@);
        sq += 1;
    }
    v
}


// ---------------------------------------------------------------------------
// Arrangements of the KPG slice
// ---------------------------------------------------------------------------

pub open spec fn variant_spec(owner: Owner, promo: bool) -> u8 {
    match (owner, promo) {
        (Owner::Sente, false) => 0,
        (Owner::Sente, true) => 1,
        (Owner::Gote, false) => 2,
        (Owner::Gote, true) => 3,
    }
}

pub open spec fn unvariant_spec(v: u8) -> (Owner, bool) {
    if v == 0 {
        (Owner::Sente, false)
    } else if v == 1 {
        (Owner::Sente, true)
    } else if v == 2 {
        (Owner::Gote, false)
    } else {
        (Owner::Gote, true)
    }
}

/// An arrangement: the King squares and the two placements. The Gold
/// placement indexes the squares the Kings leave empty; the Pawn placement
/// indexes the squares left after the Golds too.
pub struct KpgArr {
    pub sk: int,
    pub gk: int,
    pub gold: KindPlacement,
    pub pawn: KindPlacement,
}

pub open spec fn king_set(sk: int, gk: int) -> Set<int> {
    Set::empty().insert(sk).insert(gk)
}

/// Squares taken by the board tokens of a placement over the list `e`.
pub open spec fn placed(e: Seq<u8>, kp: KindPlacement) -> Set<int> {
    if kp.board_count == 0 {
        Set::empty()
    } else if kp.board_count == 1 {
        Set::empty().insert(e[kp.board[0].0 as int] as int)
    } else {
        Set::empty().insert(e[kp.board[0].0 as int] as int).insert(e[kp.board[1].0 as int] as int)
    }
}

pub open spec fn gold_list(a: KpgArr) -> Seq<u8> {
    free_list(king_set(a.sk, a.gk))
}

pub open spec fn pawn_occ(a: KpgArr) -> Set<int> {
    king_set(a.sk, a.gk).union(placed(gold_list(a), a.gold))
}

pub open spec fn pawn_list(a: KpgArr) -> Seq<u8> {
    free_list(pawn_occ(a))
}

/// The cell a placement puts on square `q`, if any.
pub open spec fn placed_cell(e: Seq<u8>, kp: KindPlacement, kind: Kind, q: int) -> Cell {
    if kp.board_count >= 1 && e[kp.board[0].0 as int] == q {
        Some((kind, unvariant_spec(kp.board[0].1).1, unvariant_spec(kp.board[0].1).0))
    } else if kp.board_count >= 2 && e[kp.board[1].0 as int] == q {
        Some((kind, unvariant_spec(kp.board[1].1).1, unvariant_spec(kp.board[1].1).0))
    } else {
        None
    }
}

pub open spec fn arr_cell(a: KpgArr, q: int) -> Cell {
    if q == a.sk {
        Some((Kind::King, false, Owner::Sente))
    } else if q == a.gk {
        Some((Kind::King, false, Owner::Gote))
    } else if placed_cell(gold_list(a), a.gold, Kind::Gold, q) is Some {
        placed_cell(gold_list(a), a.gold, Kind::Gold, q)
    } else {
        placed_cell(pawn_list(a), a.pawn, Kind::Pawn, q)
    }
}

/// The Sente-to-move position of an arrangement.
pub open spec fn arr_view(a: KpgArr) -> PosView {
    PosView {
        board: Seq::new(20, |q: int| arr_cell(a, q)),
        hand_sente: seq![a.gold.hand_sente, 0u8, 0u8, a.pawn.hand_sente],
        hand_gote: seq![a.gold.hand_gote, 0u8, 0u8, a.pawn.hand_gote],
        turn: Owner::Sente,
    }
}

pub open spec fn arr_valid(a: KpgArr) -> bool {
    &&& 0 <= a.sk < 20
    &&& 0 <= a.gk < 20
    &&& a.sk != a.gk
    &&& kp_valid(18, a.gold)
    &&& kp_valid(18 - a.gold.board_count, a.pawn)
}

/// Number of the ordered King pair (Sente's square, Gote's square).
pub open spec fn king_rank_spec(sk: int, gk: int) -> int {
    sk * 19 + if gk < sk { gk } else { gk - 1 }
}

pub open spec fn decode(id: int) -> KpgArr {
    let kr = id / per_king_spec();
    let rem = id % per_king_spec();
    let sk = kr / 19;
    let gi = kr % 19;
    let gw = unrank_weighted_spec(18, rem);
    KpgArr {
        sk,
        gk: if gi >= sk { gi + 1 } else { gi },
        gold: gw.0,
        pawn: unrank_kind_spec(18 - gw.0.board_count, gw.1),
    }
}

pub open spec fn encode(a: KpgArr) -> int {
    king_rank_spec(a.sk, a.gk) * per_king_spec() + weighted_spec(18, a.gold) + kp_rank(
        18 - a.gold.board_count,
        a.pawn,
    )
}

/// The position a raw rank names.
pub open spec fn unrank_spec(id: int) -> PosView {
    arr_view(decode(id))
}

proof fn lemma_decode_encode_id(id: int)
    requires
        0 <= id < domain_spec(),
    ensures
        arr_valid(decode(id)),
        encode(decode(id)) == id,
{
    lemma_sizes();
    let pk = per_king_spec();
    assert(weighted_total(18) == pk);
    lemma_div_below(id, pk, 380);
    let kr = id / pk;
    let rem = id % pk;
    lemma_div_below(kr, 19, 20);
    lemma_weighted_bijective(18, rem, unrank_kind_spec(0, 0), 0);
    let gw = unrank_weighted_spec(18, rem);
    lemma_kind_rank_bijective(18 - gw.0.board_count, gw.1, gw.0);
    let a = decode(id);
    assert(king_rank_spec(a.sk, a.gk) == kr);
    assert(encode(a) == kr * pk + rem);
}

#[verifier::rlimit(30)]
proof fn lemma_encode_arr(a: KpgArr)
    requires
        arr_valid(a),
    ensures
        0 <= encode(a) < domain_spec(),
        decode(encode(a)) == a,
{
    lemma_sizes();
    let pk = per_king_spec();
    assert(weighted_total(18) == pk);
    let kr = king_rank_spec(a.sk, a.gk);
    let gi = if a.gk < a.sk { a.gk } else { a.gk - 1 };
    lemma_mul_place(a.sk, 19, gi, 20);
    lemma_fundamental_div_mod_converse(kr, 19, a.sk, gi);
    let pr = kp_rank(18 - a.gold.board_count, a.pawn);
    lemma_kind_rank_bijective(18 - a.gold.board_count, 0, a.pawn);
    lemma_weighted_bijective(18, 0, a.gold, pr);
    let rem = weighted_spec(18, a.gold) + pr;
    lemma_mul_place(kr, pk, rem, 380);
    lemma_fundamental_div_mod_converse(kr * pk + rem, pk, kr, rem);
    assert(encode(a) == kr * pk + rem);
    let d = decode(encode(a));
    assert(d.sk == a.sk);
    assert(d.gk == a.gk);
    assert(unrank_weighted_spec(18, rem) == (a.gold, pr));
    assert(d.gold == a.gold);
    assert(d.pawn == a.pawn);
}

/// Ranks name the valid arrangements one to one.
pub proof fn lemma_encode_decode(id: int, a: KpgArr)
    ensures
        0 <= id < domain_spec() ==> arr_valid(decode(id)) && encode(decode(id)) == id,
        arr_valid(a) ==> 0 <= encode(a) < domain_spec() && decode(encode(a)) == a,
{
    if 0 <= id < domain_spec() {
        lemma_decode_encode_id(id);
    }
    if arr_valid(a) {
        lemma_encode_arr(a);
    }
}

// ---------------------------------------------------------------------------
// Building positions
// ---------------------------------------------------------------------------

proof fn lemma_mask_insert(m: u32, a: u32)
    requires
        a < 32,
    ensures
        mask_set(m | (1u32 << a)) == mask_set(m).insert(a as int),
{
    assert forall|q: int| #[trigger] mask_set(m | (1u32 << a)).contains(q) == mask_set(m).insert(a as int).contains(q) by {
        if 0 <= q < 32 {
            lemma_bit_or(m, 1u32 << a, q as u32);
            lemma_bit_single(a, q as u32);
        }
    }
    assert(mask_set(m | (1u32 << a)) =~= mask_set(m).insert(a as int));
}

proof fn lemma_mask_single(a: u32)
    requires
        a < 32,
    ensures
        mask_set(1u32 << a) == Set::<int>::empty().insert(a as int),
{
    lemma_mask_zero();
    lemma_mask_insert(0, a);
    assert(0u32 | (1u32 << a) == 1u32 << a) by (bit_vector);
}

proof fn lemma_mask_union(x: u32, y: u32)
    ensures
        mask_set(x | y) == mask_set(x).union(mask_set(y)),
{
    assert forall|q: int| #[trigger] mask_set(x | y).contains(q) == mask_set(x).union(mask_set(y)).contains(q) by {
        if 0 <= q < 32 {
            lemma_bit_or(x, y, q as u32);
        }
    }
    assert(mask_set(x | y) =~= mask_set(x).union(mask_set(y)));
}

proof fn lemma_mask_zero()
    ensures
        mask_set(0) == Set::<int>::empty(),
{
    assert forall|q: int| !#[trigger] mask_set(0).contains(q) by {
        if 0 <= q < 32 {
            lemma_bit_zero(q as u32);
        }
    }
    assert(mask_set(0) =~= Set::<int>::empty());
}

fn variant(owner: Owner, promo: bool) -> (v: u8)
    ensures
        v == variant_spec(owner, promo),
        v < 4,
        unvariant_spec(v) == (owner, promo),
{
    match (owner, promo) {
        (Owner::Sente, false) => 0,
        (Owner::Sente, true) => 1,
        (Owner::Gote, false) => 2,
        (Owner::Gote, true) => 3,
    }
}

fn unvariant(v: u8) -> (r: (Owner, bool))
    requires
        v < 4,
    ensures
        r == unvariant_spec(v),
        variant_spec(r.0, r.1) == v,
{
    if v == 0 {
        (Owner::Sente, false)
    } else if v == 1 {
        (Owner::Sente, true)
    } else if v == 2 {
        (Owner::Gote, false)
    } else {
        (Owner::Gote, true)
    }
}

pub open spec fn empty_view() -> PosView {
    PosView {
        board: Seq::new(20, |q: int| None),
        hand_sente: seq![0u8, 0u8, 0u8, 0u8],
        hand_gote: seq![0u8, 0u8, 0u8, 0u8],
        turn: Owner::Sente,
    }
}

fn empty_position() -> (p: Position)
    ensures
        p@ == empty_view(),
{
    let p = Position { board: [None; 20], hand_sente: [0; 4], hand_gote: [0; 4], turn: Owner::Sente };
    assert(p@.board =~= empty_view().board);
    assert(p@.hand_sente =~= empty_view().hand_sente);
    assert(p@.hand_gote =~= empty_view().hand_gote);
    p
}

/// The board placement is within the list `e` of squares (all below 20).
pub open spec fn placement_fits(e: Seq<u8>, kp: KindPlacement) -> bool {
    &&& kp.board_count <= 2
    &&& forall|t: int| 0 <= t < kp.board_count ==> #[trigger] kp.board[t].0 < e.len() && kp.board[t].1 < 4
    &&& forall|i: int| 0 <= i < e.len() ==> #[trigger] e[i] < 20
    &&& kp.board_count == 2 ==> e[kp.board[0].0 as int] != e[kp.board[1].0 as int]
}

fn placement_mask(empty: &[u8], placement: &KindPlacement) -> (mask: u32)
    requires
        placement_fits(empty@, *placement),
    ensures
        mask_set(mask) == placed(empty@, *placement),
{
    proof {
        lemma_mask_zero();
    }
    let mut mask = 0u32;
    let mut i: usize = 0;
    while i < placement.board_count as usize
        invariant
            i <= placement.board_count,
            placement_fits(empty@, *placement),
            mask_set(mask) == (if i == 0 {
                Set::<int>::empty()
            } else if i == 1 {
                Set::<int>::empty().insert(empty@[placement.board[0].0 as int] as int)
            } else {
                Set::<int>::empty().insert(empty@[placement.board[0].0 as int] as int).insert(
                    empty@[placement.board[1].0 as int] as int,
                )
            }),
        decreases placement.board_count - i,
    {
        let sq = empty[placement.board[i].0 as usize];
        proof {
            lemma_mask_insert(mask, sq as u32);
        }
        mask = mask | (1u32 << sq);
        i += 1;
    }
    mask
}

/// Put a placement on the board and in the hands (hand slot `hand_index`).
fn apply_placement(p: &mut Position, kind: Kind, hand_index: usize, empty: &[u8], placement: &KindPlacement)
    requires
        hand_index < 4,
        placement_fits(empty@, *placement),
    ensures
        final(p).turn == old(p).turn,
        final(p).hand_sente@ == old(p).hand_sente@.update(hand_index as int, placement.hand_sente),
        final(p).hand_gote@ == old(p).hand_gote@.update(hand_index as int, placement.hand_gote),
        forall|q: int|
            0 <= q < 20 ==> #[trigger] final(p).board@[q] == if placed_cell(empty@, *placement, kind, q) is Some {
                placed_cell(empty@, *placement, kind, q)
            } else {
                old(p).board@[q]
            },
{
    p.hand_sente[hand_index] = placement.hand_sente;
    p.hand_gote[hand_index] = placement.hand_gote;
    let ghost b0 = p.board@;
    let mut i: usize = 0;
    while i < placement.board_count as usize
        invariant
            i <= placement.board_count,
            hand_index < 4,
            placement_fits(empty@, *placement),
            p.turn == old(p).turn,
            p.hand_sente@ == old(p).hand_sente@.update(hand_index as int, placement.hand_sente),
            p.hand_gote@ == old(p).hand_gote@.update(hand_index as int, placement.hand_gote),
            b0 == old(p).board@,
            forall|q: int|
                0 <= q < 20 ==> #[trigger] p.board@[q] == if placed_cell(
                    empty@,
                    KindPlacement { board_count: i as u8, ..*placement },
                    kind,
                    q,
                ) is Some {
                    placed_cell(empty@, KindPlacement { board_count: i as u8, ..*placement }, kind, q)
                } else {
                    b0[q]
                },
        decreases placement.board_count - i,
    {
        assert(placement.board[i as int].0 < empty@.len());
        let (owner, promo) = unvariant(placement.board[i].1);
        let sq = empty[placement.board[i].0 as usize] as usize;
        p.board[sq] = Some((kind, promo, owner));
        i += 1;
    }
    assert(KindPlacement { board_count: placement.board_count, ..*placement } == *placement);
}


const TOKENS_PER_KIND: u8 = 2;

const GOLD_HAND: usize = 0;

const PAWN_HAND: usize = 3;

/// Which squares a placement covers: exactly the squares where it puts a cell.
proof fn lemma_placed_cell(e: Seq<u8>, kp: KindPlacement, kind: Kind, q: int)
    ensures
        (placed_cell(e, kp, kind, q) is Some) == placed(e, kp).contains(q),
{
}

/// A valid placement fits a strictly increasing list of the right length.
proof fn lemma_fits(occ: Set<int>, kp: KindPlacement, e: int)
    requires
        kp_valid(e, kp),
        free_list(occ).len() == e,
    ensures
        placement_fits(free_list(occ), kp),
        forall|q: int| #[trigger] placed(free_list(occ), kp).contains(q) ==> 0 <= q < 20 && !occ.contains(q),
{
    lemma_free_basic(occ, 20);
    if kp.board_count >= 1 {
        assert(kp.board[0].0 < e);
    }
    if kp.board_count == 2 {
        assert(kp.board[1].0 < e);
        assert(free_list(occ)[kp.board[0].0 as int] < free_list(occ)[kp.board[1].0 as int]);
    }
}

/// The list left after a placement has as many fewer squares as it put tokens.
proof fn lemma_fits_len(occ: Set<int>, kp: KindPlacement, e: int)
    requires
        kp_valid(e, kp),
        free_list(occ).len() == e,
    ensures
        free_list(occ.union(placed(free_list(occ), kp))).len() == e - kp.board_count,
{
    lemma_fits(occ, kp, e);
    let f = free_list(occ);
    if kp.board_count == 0 {
        assert(occ.union(placed(f, kp)) =~= occ);
    } else if kp.board_count == 1 {
        let a = f[kp.board[0].0 as int] as int;
        assert(placed(f, kp).contains(a));
        assert(occ.union(placed(f, kp)) =~= occ.insert(a));
        lemma_free_len_insert(occ, a, 20);
    } else {
        let a = f[kp.board[0].0 as int] as int;
        let b = f[kp.board[1].0 as int] as int;
        assert(placed(f, kp).contains(a));
        assert(placed(f, kp).contains(b));
        assert(occ.union(placed(f, kp)) =~= occ.insert(a).insert(b));
        lemma_free_len_insert(occ, a, 20);
        lemma_free_len_insert(occ.insert(a), b, 20);
    }
}

proof fn lemma_king_list(sk: int, gk: int)
    requires
        0 <= sk < 20,
        0 <= gk < 20,
        sk != gk,
    ensures
        free_list(king_set(sk, gk)).len() == 18,
{
    lemma_free_len_empty(20);
    lemma_free_len_insert(Set::empty(), sk, 20);
    lemma_free_len_insert(Set::empty().insert(sk), gk, 20);
}

/// The position a raw rank names.
#[verifier::rlimit(40)]
pub fn unrank_raw_sente(id: u32) -> (p: Position)
    requires
        id < domain_spec(),
    ensures
        p@ == unrank_spec(id as int),
{
    proof {
        lemma_decode_encode_id(id as int);
        lemma_sizes();
    }
    let ghost a = decode(id as int);
    let per_king = per_king_size();
    let king_rank = id / per_king;
    let mut rem = id % per_king;

    let sk = king_rank / (20 - 1);
    let g_idx = king_rank % (20 - 1);
    let gk = if g_idx >= sk { g_idx + 1 } else { g_idx };
    assert(sk == a.sk && gk == a.gk);

    let mut p = empty_position();
    p.board[sk as usize] = Some((Kind::King, false, Owner::Sente));
    p.board[gk as usize] = Some((Kind::King, false, Owner::Gote));
    let ghost kings = p.board@;

    let king_mask = (1u32 << sk) | (1u32 << gk);
    proof {
        lemma_mask_single(sk);
        lemma_mask_single(gk);
        lemma_mask_union(1u32 << sk, 1u32 << gk);
        assert(mask_set(king_mask) =~= king_set(sk as int, gk as int));
        lemma_king_list(sk as int, gk as int);
        lemma_free_basic(king_set(sk as int, gk as int), 20);
    }
    let empty_after_kings = empty_squares(king_mask);
    let (gold, pawn_remainder) = unrank_weighted_kind(empty_after_kings.len() as u32, rem);
    rem = pawn_remainder;
    assert(gold == a.gold);
    proof {
        lemma_fits(king_set(sk as int, gk as int), gold, 18);
        lemma_fits_len(king_set(sk as int, gk as int), gold, 18);
    }
    apply_placement(&mut p, Kind::Gold, GOLD_HAND, empty_after_kings.as_slice(), &gold);
    let ghost golds = p.board@;

    let gold_mask = placement_mask(empty_after_kings.as_slice(), &gold);
    proof {
        lemma_mask_union(king_mask, gold_mask);
        assert(mask_set(king_mask | gold_mask) =~= pawn_occ(a));
    }
    let empty_after_gold = empty_squares(king_mask | gold_mask);
    let pawn = unrank_kind(empty_after_gold.len() as u32, rem);
    assert(pawn == a.pawn);
    proof {
        lemma_fits(pawn_occ(a), pawn, 18 - gold.board_count);
    }
    apply_placement(&mut p, Kind::Pawn, PAWN_HAND, empty_after_gold.as_slice(), &pawn);
    proof {
        let v = unrank_spec(id as int);
        assert forall|q: int| 0 <= q < 20 implies #[trigger] p.board@[q] == v.board[q] by {
            lemma_placed_cell(gold_list(a), a.gold, Kind::Gold, q);
            lemma_placed_cell(pawn_list(a), a.pawn, Kind::Pawn, q);
            assert(golds[q] == if placed_cell(gold_list(a), a.gold, Kind::Gold, q) is Some {
                placed_cell(gold_list(a), a.gold, Kind::Gold, q)
            } else {
                kings[q]
            });
        }
        assert(p.board@ =~= v.board);
        assert(p.hand_sente@ =~= v.hand_sente);
        assert(p.hand_gote@ =~= v.hand_gote);
    }
    p
}


// ---------------------------------------------------------------------------
// Reading the arrangement of a position
// ---------------------------------------------------------------------------

/// Squares below `n` whose cell satisfies `f`, ascending.
pub open spec fn squares_where(b: Seq<Cell>, f: spec_fn(Cell) -> bool, n: int) -> Seq<int>
    decreases n,
{
    if n <= 0 {
        seq![]
    } else {
        squares_where(b, f, n - 1) + if f(b[n - 1]) {
            seq![n - 1]
        } else {
            seq![]
        }
    }
}

pub open spec fn has_kind(k: Kind) -> spec_fn(Cell) -> bool {
    |c: Cell| c matches Some(t) && t.0 == k
}

pub open spec fn has_king_of(o: Owner) -> spec_fn(Cell) -> bool {
    |c: Cell| c matches Some(t) && t.0 == Kind::King && t.2 == o
}

pub open spec fn kind_squares(b: Seq<Cell>, k: Kind) -> Seq<int> {
    squares_where(b, has_kind(k), 20)
}

pub open spec fn king_squares(b: Seq<Cell>, o: Owner) -> Seq<int> {
    squares_where(b, has_king_of(o), 20)
}

pub open spec fn cell_variant(c: Cell) -> u8 {
    match c {
        Some(t) => variant_spec(t.2, t.1),
        None => 0,
    }
}

/// The placement of kind `k` in `v`, its board tokens indexed in the free list
/// of `occ` and its hand tokens in hand slot `slot`.
pub open spec fn extract_kind(v: PosView, k: Kind, slot: int, occ: Set<int>) -> KindPlacement {
    let sqs = kind_squares(v.board, k);
    let e = free_list(occ).len() as int;
    let kp0 = KindPlacement {
        rank: 0,
        board_count: sqs.len() as u8,
        board: if sqs.len() == 0 {
            [(0u8, 0u8), (0u8, 0u8)]
        } else if sqs.len() == 1 {
            [(free_index(occ, sqs[0]) as u8, cell_variant(v.board[sqs[0]])), (0u8, 0u8)]
        } else {
            [
                (free_index(occ, sqs[0]) as u8, cell_variant(v.board[sqs[0]])),
                (free_index(occ, sqs[1]) as u8, cell_variant(v.board[sqs[1]])),
            ]
        },
        hand_sente: v.hand_sente[slot],
        hand_gote: v.hand_gote[slot],
    };
    KindPlacement { rank: kp_rank(e, kp0) as u32, ..kp0 }
}

pub open spec fn extract(v: PosView) -> KpgArr {
    let sk = king_squares(v.board, Owner::Sente)[0];
    let gk = king_squares(v.board, Owner::Gote)[0];
    let gold = extract_kind(v, Kind::Gold, 0, king_set(sk, gk));
    let pocc = king_set(sk, gk).union(placed(free_list(king_set(sk, gk)), gold));
    KpgArr { sk, gk, gold, pawn: extract_kind(v, Kind::Pawn, 3, pocc) }
}

/// Only Kings, Golds and Pawns on the board, one King per side, Sente to move,
/// and no Silver or Bishop in hand.
pub open spec fn kpg_base(v: PosView) -> bool {
    &&& v.board.len() == 20
    &&& v.hand_sente.len() == 4
    &&& v.hand_gote.len() == 4
    &&& v.turn == Owner::Sente
    &&& v.hand_sente[1] == 0 && v.hand_sente[2] == 0
    &&& v.hand_gote[1] == 0 && v.hand_gote[2] == 0
    &&& forall|q: int|
        0 <= q < 20 ==> (#[trigger] v.board[q] matches Some(t) ==> t.0 == Kind::King || t.0 == Kind::Gold || t.0
            == Kind::Pawn)
    &&& king_squares(v.board, Owner::Sente).len() == 1
    &&& king_squares(v.board, Owner::Gote).len() == 1
}

pub open spec fn tokens(v: PosView, k: Kind, slot: int) -> int {
    kind_squares(v.board, k).len() + v.hand_sente[slot] + v.hand_gote[slot]
}

/// A position of the KPG slice: two tokens of Gold and two of Pawn in all.
pub open spec fn kpg_valid(v: PosView) -> bool {
    &&& kpg_base(v)
    &&& tokens(v, Kind::Gold, 0) == 2
    &&& tokens(v, Kind::Pawn, 3) == 2
}

/// Ranking has a defined result: no token count overflows while it is checked.
pub open spec fn rank_defined(v: PosView) -> bool {
    &&& !(kpg_base(v) && kind_squares(v.board, Kind::Gold).len() <= 2 && tokens(v, Kind::Gold, 0) > 255)
    &&& !(kpg_base(v) && tokens(v, Kind::Gold, 0) == 2 && kind_squares(v.board, Kind::Pawn).len() <= 2 && tokens(
        v,
        Kind::Pawn,
        3,
    ) > 255)
}

/// The raw rank of a KPG position.
pub open spec fn rank_id(v: PosView) -> int {
    encode(extract(v))
}

/// Kings lose their (non-existent) promoted face: the form a rank stands for.
pub open spec fn normalize(v: PosView) -> PosView {
    PosView {
        board: Seq::new(
            v.board.len(),
            |q: int|
                match v.board[q] {
                    Some(t) => if t.0 == Kind::King {
                        Some((t.0, false, t.2))
                    } else {
                        Some(t)
                    },
                    None => None,
                },
        ),
        ..v
    }
}


proof fn lemma_sw_basic(b: Seq<Cell>, f: spec_fn(Cell) -> bool, n: int)
    requires
        0 <= n,
    ensures
        squares_where(b, f, n).len() <= n,
        forall|i: int|
            0 <= i < squares_where(b, f, n).len() ==> 0 <= #[trigger] squares_where(b, f, n)[i] < n && f(
                b[squares_where(b, f, n)[i]],
            ),
        forall|i: int, j: int|
            0 <= i < j < squares_where(b, f, n).len() ==> squares_where(b, f, n)[i] < squares_where(b, f, n)[j],
        forall|q: int| 0 <= q < n && f(b[q]) ==> #[trigger] squares_where(b, f, n).contains(q),
    decreases n,
{
    if n > 0 {
        lemma_sw_basic(b, f, n - 1);
        let pre = squares_where(b, f, n - 1);
        let cur = squares_where(b, f, n);
        assert forall|i: int| 0 <= i < cur.len() implies 0 <= #[trigger] cur[i] < n && f(b[cur[i]]) by {
            if i < pre.len() {
                assert(cur[i] == pre[i]);
            }
        }
        assert forall|i: int, j: int| 0 <= i < j < cur.len() implies cur[i] < cur[j] by {
            if j < pre.len() {
                assert(cur[i] == pre[i] && cur[j] == pre[j]);
            } else {
                assert(cur[i] == pre[i]);
            }
        }
        assert forall|q: int| 0 <= q < n && f(b[q]) implies #[trigger] cur.contains(q) by {
            if q < n - 1 {
                assert(pre.contains(q));
                let k = choose|k: int| 0 <= k < pre.len() && pre[k] == q;
                assert(cur[k] == q);
            } else {
                assert(cur[pre.len() as int] == q);
            }
        }
    }
}

/// The squares satisfying `f` below `n` are the sorted list of exactly those.
proof fn lemma_sw_char(b: Seq<Cell>, f: spec_fn(Cell) -> bool, n: int, s: Seq<int>)
    requires
        0 <= n,
        forall|i: int, j: int| 0 <= i < j < s.len() ==> s[i] < s[j],
        forall|i: int| 0 <= i < s.len() ==> 0 <= #[trigger] s[i] < n,
        forall|q: int| 0 <= q < n ==> (f(b[q]) <==> #[trigger] s.contains(q)),
    ensures
        squares_where(b, f, n) == s,
    decreases n,
{
    if n > 0 {
        if s.len() > 0 && s.last() == n - 1 {
            let s1 = s.drop_last();
            assert forall|q: int| 0 <= q < n - 1 implies (f(b[q]) <==> #[trigger] s1.contains(q)) by {
                if s.contains(q) {
                    let k = choose|k: int| 0 <= k < s.len() && s[k] == q;
                    assert(k != s.len() - 1);
                    assert(s1[k] == q);
                }
                if s1.contains(q) {
                    let k = choose|k: int| 0 <= k < s1.len() && s1[k] == q;
                    assert(s[k] == q);
                }
            }
            assert forall|i: int| 0 <= i < s1.len() implies 0 <= #[trigger] s1[i] < n - 1 by {
                assert(s[i] < s[s.len() - 1]);
            }
            lemma_sw_char(b, f, n - 1, s1);
            assert(s.contains(n - 1));
            assert(s1.push(n - 1) =~= s);
        } else {
            assert(!s.contains(n - 1)) by {
                if s.contains(n - 1) {
                    let k = choose|k: int| 0 <= k < s.len() && s[k] == n - 1;
                    if k < s.len() - 1 {
                        assert(s[k] < s[s.len() - 1]);
                    }
                }
            }
            assert forall|i: int| 0 <= i < s.len() implies 0 <= #[trigger] s[i] < n - 1 by {
                assert(s[i] != n - 1);
            }
            lemma_sw_char(b, f, n - 1, s);
            assert(squares_where(b, f, n) =~= s);
        }
    } else {
        assert(s.len() == 0) by {
            if s.len() > 0 {
                assert(0 <= s[0] < n);
            }
        }
        assert(s =~= seq![]);
    }
}

/// A prefix of the squares is the squares of a shorter range.
proof fn lemma_sw_prefix(b: Seq<Cell>, f: spec_fn(Cell) -> bool, n: int, m: int)
    requires
        0 <= n <= m,
    ensures
        squares_where(b, f, n).len() <= squares_where(b, f, m).len(),
        forall|i: int| 0 <= i < squares_where(b, f, n).len() ==> #[trigger] squares_where(b, f, m)[i] == squares_where(b, f, n)[i],
    decreases m - n,
{
    if n < m {
        lemma_sw_prefix(b, f, n, m - 1);
    }
}


/// Free squares keep their order in the free list.
proof fn lemma_free_index_mono(occ: Set<int>, q1: int, q2: int)
    requires
        0 <= q1 < q2 < 20,
        !occ.contains(q1),
        !occ.contains(q2),
    ensures
        free_index(occ, q1) < free_index(occ, q2) < free_list(occ).len(),
{
    lemma_free_basic(occ, 20);
    let i1 = free_index(occ, q1);
    let i2 = free_index(occ, q2);
    assert(free_list(occ)[i1] == q1);
    assert(free_list(occ)[i2] == q2);
    if i1 >= i2 {
        if i1 > i2 {
            assert(free_list(occ)[i2] < free_list(occ)[i1]);
        }
    }
}

/// No square holding `kind` is among the squares of `occ`.
pub open spec fn kind_free(b: Seq<Cell>, kind: Kind, occ: Set<int>) -> bool {
    forall|t: int| 0 <= t < kind_squares(b, kind).len() ==> !occ.contains(#[trigger] kind_squares(b, kind)[t])
}

/// The placement of one kind, read from `p` over the empty-square list `empty`
/// (the free list of `occ`); `None` when a piece of the kind stands on a square
/// of `occ`, or the kind does not have exactly two tokens, at most two of them
/// on the board.
fn rank_kind_placement(
    p: &Position,
    kind: Kind,
    hand_index: usize,
    empty: &[u8],
    Ghost(occ): Ghost<Set<int>>,
) -> (r: Option<KindPlacement>)
    requires
        hand_index < 4,
        empty@ == free_list(occ),
        !(kind_squares(p@.board, kind).len() <= 2 && kind_free(p@.board, kind, occ) && tokens(
            p@,
            kind,
            hand_index as int,
        ) > 255),
    ensures
        r == if kind_squares(p@.board, kind).len() <= 2 && kind_free(p@.board, kind, occ) && tokens(
            p@,
            kind,
            hand_index as int,
        ) == 2 {
            Some(extract_kind(p@, kind, hand_index as int, occ))
        } else {
            None
        },
{
    let ghost b = p@.board;
    let ghost ks = kind_squares(b, kind);
    proof {
        lemma_free_basic(occ, 20);
        lemma_sw_basic(b, has_kind(kind), 20);
    }
    let mut index_of_square: [u8; 20] = [255u8; 20];
    let mut i: usize = 0;
    while i < empty.len()
        invariant
            i <= empty@.len() <= 20,
            empty@ == free_list(occ),
            forall|k: int| 0 <= k < empty@.len() ==> #[trigger] empty@[k] < 20 && free_index(occ, empty@[k] as int) == k,
            forall|q: int|
                0 <= q < 20 ==> #[trigger] index_of_square@[q] == (if !occ.contains(q) && free_index(occ, q) < i {
                    free_index(occ, q) as u8
                } else {
                    255u8
                }),
        decreases empty@.len() - i,
    {
        let sq = empty[i];
        proof {
            lemma_free_basic(occ, 20);
        }
        assert(free_index(occ, sq as int) == i);
        assert(!occ.contains(sq as int));
        index_of_square[sq as usize] = i as u8;
        proof {
            assert forall|q: int| 0 <= q < 20 implies #[trigger] index_of_square@[q] == (if !occ.contains(q) && free_index(occ, q) < i + 1 {
                free_index(occ, q) as u8
            } else {
                255u8
            }) by {
                if q != sq && !occ.contains(q) && free_index(occ, q) == i {
                    assert(free_list(occ)[free_index(occ, q)] == q);
                }
            }
        }
        i += 1;
    }
    let mut board: [(u8, u8); 2] = [(0u8, 0u8); 2];
    let mut board_count: usize = 0;
    let mut sq: usize = 0;
    while sq < 20
        invariant
            sq <= 20,
            b == p@.board,
            ks == kind_squares(b, kind),
            empty@ == free_list(occ),
            forall|q: int|
                0 <= q < 20 ==> #[trigger] index_of_square@[q] == (if !occ.contains(q) {
                    free_index(occ, q) as u8
                } else {
                    255u8
                }),
            forall|t: int| 0 <= t < board_count ==> !occ.contains(#[trigger] ks[t]),
            board_count == squares_where(b, has_kind(kind), sq as int).len(),
            board_count <= 2,
            forall|t: int|
                0 <= t < board_count ==> #[trigger] board@[t] == (
                    free_index(occ, squares_where(b, has_kind(kind), sq as int)[t]) as u8,
                    cell_variant(b[squares_where(b, has_kind(kind), sq as int)[t]]),
                ),
            forall|t: int| board_count <= t < 2 ==> #[trigger] board@[t] == (0u8, 0u8),
        decreases 20 - sq,
    {
        let ghost pre = squares_where(b, has_kind(kind), sq as int);
        proof {
            lemma_free_basic(occ, 20);
            lemma_sw_prefix(b, has_kind(kind), sq + 1, 20);
            lemma_sw_prefix(b, has_kind(kind), sq as int, sq + 1);
        }
        match p.board[sq] {
            Some((cell_kind, promo, owner)) => {
                if cell_kind == kind {
                    let ghost cur = squares_where(b, has_kind(kind), sq + 1);
                    assert(cur == pre.push(sq as int));
                    assert(ks[board_count as int] == sq);
                    let idx = index_of_square[sq];
                    if idx == 255 || board_count == 2 {
                        proof {
                            if board_count < 2 {
                                if !occ.contains(sq as int) {
                                    assert(free_index(occ, sq as int) < free_list(occ).len());
                                }
                                assert(occ.contains(ks[board_count as int]));
                                assert(!kind_free(b, kind, occ));
                            } else {
                                assert(ks.len() > 2);
                            }
                        }
                        return None;
                    }
                    proof {
                        assert(!occ.contains(sq as int));
                    }
                    board[board_count] = (idx, variant(owner, promo));
                    board_count += 1;
                }
            },
            None => {},
        }
        sq += 1;
    }
    assert(squares_where(b, has_kind(kind), 20) == ks);
    assert(kind_free(b, kind, occ));
    let hand_sente = p.hand_sente[hand_index];
    let hand_gote = p.hand_gote[hand_index];
    if board_count as u8 + hand_sente + hand_gote != TOKENS_PER_KIND {
        return None;
    }
    let e = empty.len() as u32;
    let ghost kp0 = extract_kind(p@, kind, hand_index as int, occ);
    let rank = if board_count == 0 {
        hand_sente as u32
    } else if board_count == 1 {
        let hand_owner: u32 = if hand_sente == 1 && hand_gote == 0 {
            0
        } else if hand_sente == 0 && hand_gote == 1 {
            1
        } else {
            return None;
        };
        proof {
            lemma_free_basic(occ, 20);
            lemma_sw_basic(b, has_kind(kind), 20);
            assert(!occ.contains(ks[0]));
        }
        3 + ((board[0].0 as u32 * 4 + board[0].1 as u32) * 2 + hand_owner)
    } else {
        if hand_sente != 0 || hand_gote != 0 {
            return None;
        }
        let i = board[0].0 as u32;
        let j = board[1].0 as u32;
        proof {
            assert(ks[0] < ks[1]);
            lemma_free_index_mono(occ, ks[0], ks[1]);
        }
        if i >= j || j >= e {
            return None;
        }
        proof {
            assert(i * (2 * e - i - 1) <= 800) by (nonlinear_arith)
                requires
                    i < j < e <= 20,
            ;
        }
        3 + 8 * e + pair_rank(e, i, j) * 16 + board[0].1 as u32 * 4 + board[1].1 as u32
    };
    let kp = KindPlacement { rank, board_count: board_count as u8, board, hand_sente, hand_gote };
    assert(kp.board =~= kp0.board);
    Some(kp)
}


proof fn lemma_bits_ext(x: u32, y: u32)
    by (bit_vector)
    requires
        (x >> 0u32) & 1 == (y >> 0u32) & 1,
        (x >> 1u32) & 1 == (y >> 1u32) & 1,
        (x >> 2u32) & 1 == (y >> 2u32) & 1,
        (x >> 3u32) & 1 == (y >> 3u32) & 1,
        (x >> 4u32) & 1 == (y >> 4u32) & 1,
        (x >> 5u32) & 1 == (y >> 5u32) & 1,
        (x >> 6u32) & 1 == (y >> 6u32) & 1,
        (x >> 7u32) & 1 == (y >> 7u32) & 1,
        (x >> 8u32) & 1 == (y >> 8u32) & 1,
        (x >> 9u32) & 1 == (y >> 9u32) & 1,
        (x >> 10u32) & 1 == (y >> 10u32) & 1,
        (x >> 11u32) & 1 == (y >> 11u32) & 1,
        (x >> 12u32) & 1 == (y >> 12u32) & 1,
        (x >> 13u32) & 1 == (y >> 13u32) & 1,
        (x >> 14u32) & 1 == (y >> 14u32) & 1,
        (x >> 15u32) & 1 == (y >> 15u32) & 1,
        (x >> 16u32) & 1 == (y >> 16u32) & 1,
        (x >> 17u32) & 1 == (y >> 17u32) & 1,
        (x >> 18u32) & 1 == (y >> 18u32) & 1,
        (x >> 19u32) & 1 == (y >> 19u32) & 1,
        (x >> 20u32) & 1 == (y >> 20u32) & 1,
        (x >> 21u32) & 1 == (y >> 21u32) & 1,
        (x >> 22u32) & 1 == (y >> 22u32) & 1,
        (x >> 23u32) & 1 == (y >> 23u32) & 1,
        (x >> 24u32) & 1 == (y >> 24u32) & 1,
        (x >> 25u32) & 1 == (y >> 25u32) & 1,
        (x >> 26u32) & 1 == (y >> 26u32) & 1,
        (x >> 27u32) & 1 == (y >> 27u32) & 1,
        (x >> 28u32) & 1 == (y >> 28u32) & 1,
        (x >> 29u32) & 1 == (y >> 29u32) & 1,
        (x >> 30u32) & 1 == (y >> 30u32) & 1,
        (x >> 31u32) & 1 == (y >> 31u32) & 1,
    ensures
        x == y,
{
}

/// Two masks with the same squares are equal.
proof fn lemma_mask_ext(x: u32, y: u32)
    requires
        mask_set(x) == mask_set(y),
    ensures
        x == y,
{
    assert forall|q: u32| q < 32 implies (x >> q) & 1 == (y >> q) & 1 by {
        let qi = q as int;
        assert(qi as u32 == q);
        assert(mask_set(x).contains(qi) == ((x >> q) & 1 == 1));
        assert(mask_set(y).contains(qi) == ((y >> q) & 1 == 1));
        lemma_bit_one_or_zero(x, q);
        lemma_bit_one_or_zero(y, q);
    }
    lemma_bits_ext(x, y);
}

proof fn lemma_bit_one_or_zero(x: u32, q: u32)
    by (bit_vector)
    requires
        q < 32,
    ensures
        (x >> q) & 1 == 0 || (x >> q) & 1 == 1,
{
}

pub open spec fn seq_set(s: Seq<int>) -> Set<int> {
    Set::new(|q: int| s.contains(q))
}

/// The read placement is well formed and puts back the same cells.
proof fn lemma_extract_kind(v: PosView, k: Kind, slot: int, occ: Set<int>)
    requires
        v.board.len() == 20,
        0 <= slot < 4,
        v.hand_sente.len() == 4,
        v.hand_gote.len() == 4,
        kind_squares(v.board, k).len() <= 2,
        tokens(v, k, slot) == 2,
        forall|t: int|
            0 <= t < kind_squares(v.board, k).len() ==> !occ.contains(#[trigger] kind_squares(v.board, k)[t]),
    ensures
        kp_valid(free_list(occ).len() as int, extract_kind(v, k, slot, occ)),
        placement_fits(free_list(occ), extract_kind(v, k, slot, occ)),
        placed(free_list(occ), extract_kind(v, k, slot, occ)) == seq_set(kind_squares(v.board, k)),
        forall|q: int|
            0 <= q < 20 ==> #[trigger] placed_cell(free_list(occ), extract_kind(v, k, slot, occ), k, q) == if kind_squares(
                v.board,
                k,
            ).contains(q) {
                v.board[q]
            } else {
                None
            },
{
    let kp = extract_kind(v, k, slot, occ);
    let e = free_list(occ);
    let ks = kind_squares(v.board, k);
    lemma_free_basic(occ, 20);
    lemma_sw_basic(v.board, has_kind(k), 20);
    if ks.len() >= 1 {
        assert(!occ.contains(ks[0]));
        assert(e[free_index(occ, ks[0])] == ks[0]);
    }
    if ks.len() == 2 {
        assert(!occ.contains(ks[1]));
        lemma_free_index_mono(occ, ks[0], ks[1]);
        assert(e[free_index(occ, ks[1])] == ks[1]);
    }
    assert(kp.board[0].0 < e.len() || ks.len() == 0);
    assert(kp.board_count == ks.len());
    assert(kp.board_count + kp.hand_sente + kp.hand_gote == 2);
    assert forall|t: int| 0 <= t < kp.board_count implies #[trigger] kp.board[t].0 < e.len() && kp.board[t].1 < 4 by {}
    assert(kp.board_count == 2 ==> kp.board[0].0 < kp.board[1].0);
    assert forall|t: int| kp.board_count <= t < 2 implies #[trigger] kp.board[t] == (0u8, 0u8) by {}
    assert(kp.rank == kp_rank(e.len() as int, kp)) by {
        let n = e.len() as int;
        let kp0 = KindPlacement { rank: 0, ..kp };
        assert(kp_rank(n, kp) == kp_rank(n, kp0));
        if ks.len() == 2 {
            lemma_pair_rank_bijective(n, 0, kp.board[0].0 as int, kp.board[1].0 as int);
            lemma_c2_double(n);
            assert(n * (n - 1) <= 380) by (nonlinear_arith)
                requires
                    0 <= n <= 20,
            ;
        }
        assert(0 <= kp_rank(n, kp) < 100000);
    }
    assert(placed(e, kp) =~= seq_set(ks)) by {
        assert forall|q: int| placed(e, kp).contains(q) == seq_set(ks).contains(q) by {
            if ks.len() == 1 {
                if ks.contains(q) {
                    let t = choose|t: int| 0 <= t < ks.len() && ks[t] == q;
                    assert(t == 0);
                }
            }
            if ks.len() == 2 {
                if ks.contains(q) {
                    let t = choose|t: int| 0 <= t < ks.len() && ks[t] == q;
                    assert(t == 0 || t == 1);
                }
            }
        }
    }
    assert forall|q: int| 0 <= q < 20 implies #[trigger] placed_cell(e, kp, k, q) == if ks.contains(q) {
        v.board[q]
    } else {
        None
    } by {
        if ks.contains(q) {
            let t = choose|t: int| 0 <= t < ks.len() && ks[t] == q;
            assert(has_kind(k)(v.board[q]));
            if t == 1 {
                assert(ks[0] < ks[1]);
            }
        } else {
            if ks.len() >= 1 {
                assert(ks[0] != q);
            }
            if ks.len() == 2 {
                assert(ks[1] != q);
            }
        }
    }
}


/// The occupied squares below `n`.
pub open spec fn occupied_below(b: Seq<Cell>, n: int) -> Set<int> {
    Set::new(|q: int| 0 <= q < n && b[q] is Some)
}

/// Only Kings, Golds and Pawns below `n`.
pub open spec fn kgp_below(b: Seq<Cell>, n: int) -> bool {
    forall|q: int|
        0 <= q < n ==> (#[trigger] b[q] matches Some(t) ==> t.0 == Kind::King || t.0 == Kind::Gold || t.0
            == Kind::Pawn)
}

/// The first square of a list of at most one, as a `u8`.
pub open spec fn first_square(s: Seq<int>) -> Option<u8> {
    if s.len() == 0 {
        None
    } else {
        Some(s[0] as u8)
    }
}

/// The raw rank of a Sente-to-move KPG position; `None` for any other position.
pub fn rank_raw_sente(p: &Position) -> (r: Option<u32>)
    requires
        rank_defined(p@),
    ensures
        r == if kpg_valid(p@) {
            Some(rank_id(p@) as u32)
        } else {
            None
        },
{
    let ghost v = p@;
    let ghost b = p@.board;
    if p.turn != Owner::Sente {
        return None;
    }
    if p.hand_sente[1] != 0 || p.hand_sente[2] != 0 {
        return None;
    }
    if p.hand_gote[1] != 0 || p.hand_gote[2] != 0 {
        return None;
    }
    let mut sk: Option<u8> = None;
    let mut gk: Option<u8> = None;
    let mut occupied: u32 = 0;
    proof {
        lemma_mask_zero();
        assert(occupied_below(b, 0) =~= Set::<int>::empty());
    }
    let mut sq: usize = 0;
    while sq < 20
        invariant
            sq <= 20,
            v == p@,
            b == p@.board,
            b.len() == 20,
            squares_where(b, has_king_of(Owner::Sente), sq as int).len() <= 1,
            squares_where(b, has_king_of(Owner::Gote), sq as int).len() <= 1,
            sk == first_square(squares_where(b, has_king_of(Owner::Sente), sq as int)),
            gk == first_square(squares_where(b, has_king_of(Owner::Gote), sq as int)),
            kgp_below(b, sq as int),
            mask_set(occupied) == occupied_below(b, sq as int),
        decreases 20 - sq,
    {
        proof {
            lemma_sw_basic(b, has_king_of(Owner::Sente), sq as int);
            lemma_sw_basic(b, has_king_of(Owner::Gote), sq as int);
            lemma_sw_prefix(b, has_king_of(Owner::Sente), sq + 1, 20);
            lemma_sw_prefix(b, has_king_of(Owner::Gote), sq + 1, 20);
        }
        match p.board[sq] {
            None => {
                assert(occupied_below(b, sq + 1) =~= occupied_below(b, sq as int));
            },
            Some((kind, promo, owner)) => {
                proof {
                    lemma_mask_insert(occupied, sq as u32);
                    assert(occupied_below(b, sq + 1) =~= occupied_below(b, sq as int).insert(sq as int));
                }
                occupied = occupied | (1u32 << (sq as u32));
                if kind == Kind::King {
                    if owner == Owner::Sente {
                        if sk.is_some() {
                            assert(squares_where(b, has_king_of(Owner::Sente), sq + 1).len() == 2);
                            return None;
                        }
                        sk = Some(sq as u8);
                    } else {
                        if gk.is_some() {
                            assert(squares_where(b, has_king_of(Owner::Gote), sq + 1).len() == 2);
                            return None;
                        }
                        gk = Some(sq as u8);
                    }
                } else if kind != Kind::Gold && kind != Kind::Pawn {
                    assert(!kpg_base(v)) by {
                        assert(v.board[sq as int] == Some((kind, promo, owner)));
                    }
                    return None;
                }
            },
        }
        sq += 1;
    }
    let sk = match sk {
        Some(x) => x,
        None => {
            return None;
        },
    };
    let gk = match gk {
        Some(x) => x,
        None => {
            return None;
        },
    };
    proof {
        lemma_kings(v);
    }
    if sk == gk {
        return None;
    }
    let ghost kset = king_set(sk as int, gk as int);
    let king_rank: u32 = (sk as u32) * 19 + if gk < sk {
        gk as u32
    } else {
        gk as u32 - 1
    };
    let king_mask = (1u32 << (sk as u32)) | (1u32 << (gk as u32));
    proof {
        lemma_mask_single(sk as u32);
        lemma_mask_single(gk as u32);
        lemma_mask_union(1u32 << (sk as u32), 1u32 << (gk as u32));
        assert(mask_set(king_mask) =~= kset);
        lemma_king_list(sk as int, gk as int);
        lemma_sw_basic(b, has_kind(Kind::Gold), 20);
        lemma_sw_basic(b, has_kind(Kind::Pawn), 20);
    }
    let empty_after_kings = empty_squares(king_mask);
    assert(kind_free(b, Kind::Gold, kset));
    let gold = match rank_kind_placement(p, Kind::Gold, GOLD_HAND, empty_after_kings.as_slice(), Ghost(kset)) {
        Some(g) => g,
        None => {
            return None;
        },
    };
    proof {
        lemma_extract_kind(v, Kind::Gold, 0, kset);
    }
    let gold_weighted = match weighted_kind_rank(empty_after_kings.len() as u32, &gold) {
        Some(w) => w,
        None => {
            return None;
        },
    };
    let gold_mask = placement_mask(empty_after_kings.as_slice(), &gold);
    let ghost pocc = kset.union(placed(free_list(kset), gold));
    proof {
        lemma_mask_union(king_mask, gold_mask);
        assert(mask_set(king_mask | gold_mask) =~= pocc);
        lemma_fits_len(kset, gold, 18);
    }
    let empty_after_gold = empty_squares(king_mask | gold_mask);
    assert(kind_free(b, Kind::Pawn, pocc));
    let pawn = match rank_kind_placement(p, Kind::Pawn, PAWN_HAND, empty_after_gold.as_slice(), Ghost(pocc)) {
        Some(w) => w,
        None => {
            return None;
        },
    };
    proof {
        lemma_extract_kind(v, Kind::Pawn, 3, pocc);
    }
    let pawn_mask = placement_mask(empty_after_gold.as_slice(), &pawn);
    proof {
        lemma_mask_union(king_mask | gold_mask, pawn_mask);
        lemma_occupied(v);
        assert(mask_set(occupied) =~= mask_set(king_mask | gold_mask | pawn_mask));
        lemma_mask_ext(occupied, king_mask | gold_mask | pawn_mask);
    }
    if occupied != king_mask | gold_mask | pawn_mask {
        return None;
    }
    proof {
        lemma_extract_valid(v);
        lemma_encode_arr(extract(v));
        lemma_sizes();
        assert(king_rank == king_rank_spec(sk as int, gk as int));
        assert(0 <= weighted_spec(18, gold));
        assert(0 <= kp_rank(18 - gold.board_count, pawn));
        assert(king_rank * per_king_spec() <= encode(extract(v)));
    }
    Some(king_rank * per_king_size() + gold_weighted + pawn.rank)
}

/// The two Kings of a KPG-shaped position: distinct squares, the only Kings.
proof fn lemma_kings(v: PosView)
    requires
        kpg_base(v),
    ensures
        ({
            let sk = king_squares(v.board, Owner::Sente)[0];
            let gk = king_squares(v.board, Owner::Gote)[0];
            &&& 0 <= sk < 20
            &&& 0 <= gk < 20
            &&& sk != gk
            &&& v.board[sk] matches Some(t) && t.0 == Kind::King && t.2 == Owner::Sente
            &&& v.board[gk] matches Some(t) && t.0 == Kind::King && t.2 == Owner::Gote
            &&& forall|q: int|
                0 <= q < 20 ==> (#[trigger] v.board[q] matches Some(t) && t.0 == Kind::King ==> q == sk || q
                    == gk)
        }),
{
    let b = v.board;
    lemma_sw_basic(b, has_king_of(Owner::Sente), 20);
    lemma_sw_basic(b, has_king_of(Owner::Gote), 20);
    let ss = king_squares(b, Owner::Sente);
    let gs = king_squares(b, Owner::Gote);
    assert(has_king_of(Owner::Sente)(b[ss[0]]));
    assert(has_king_of(Owner::Gote)(b[gs[0]]));
    assert forall|q: int| 0 <= q < 20 && (#[trigger] b[q] matches Some(t) && t.0 == Kind::King) implies q == ss[0]
        || q == gs[0] by {
        match b[q] {
            Some(t) => {
                if t.0 == Kind::King {
                    if t.2 == Owner::Sente {
                        assert(has_king_of(Owner::Sente)(b[q]));
                        assert(ss.contains(q));
                    } else {
                        assert(has_king_of(Owner::Gote)(b[q]));
                        assert(gs.contains(q));
                    }
                }
            },
            None => {},
        }
    }
}

/// The occupied squares of a KPG position are the Kings, Golds and Pawns.
proof fn lemma_occupied(v: PosView)
    requires
        kpg_base(v),
    ensures
        occupied_below(v.board, 20) == king_set(
            king_squares(v.board, Owner::Sente)[0],
            king_squares(v.board, Owner::Gote)[0],
        ).union(seq_set(kind_squares(v.board, Kind::Gold))).union(seq_set(kind_squares(v.board, Kind::Pawn))),
{
    let b = v.board;
    lemma_kings(v);
    lemma_sw_basic(b, has_kind(Kind::Gold), 20);
    lemma_sw_basic(b, has_kind(Kind::Pawn), 20);
    let sk = king_squares(b, Owner::Sente)[0];
    let gk = king_squares(b, Owner::Gote)[0];
    let gs = kind_squares(b, Kind::Gold);
    let ps = kind_squares(b, Kind::Pawn);
    let rhs = king_set(sk, gk).union(seq_set(gs)).union(seq_set(ps));
    assert forall|q: int| occupied_below(b, 20).contains(q) == rhs.contains(q) by {
        if 0 <= q < 20 && b[q] is Some {
            if b[q] matches Some(t) && t.0 == Kind::Gold {
                assert(has_kind(Kind::Gold)(b[q]));
                assert(gs.contains(q));
            } else if b[q] matches Some(t) && t.0 == Kind::Pawn {
                assert(has_kind(Kind::Pawn)(b[q]));
                assert(ps.contains(q));
            }
        }
        if gs.contains(q) {
            let t = choose|t: int| 0 <= t < gs.len() && gs[t] == q;
            assert(has_kind(Kind::Gold)(b[gs[t]]));
        }
        if ps.contains(q) {
            let t = choose|t: int| 0 <= t < ps.len() && ps[t] == q;
            assert(has_kind(Kind::Pawn)(b[ps[t]]));
        }
    }
    assert(occupied_below(b, 20) =~= rhs);
}

/// The arrangement read from a KPG position is valid.
proof fn lemma_extract_valid(v: PosView)
    requires
        kpg_valid(v),
    ensures
        arr_valid(extract(v)),
        extract(v).gold == extract_kind(v, Kind::Gold, 0, king_set(extract(v).sk, extract(v).gk)),
        extract(v).pawn == extract_kind(v, Kind::Pawn, 3, pawn_occ(extract(v))),
{
    let b = v.board;
    lemma_kings(v);
    lemma_sw_basic(b, has_kind(Kind::Gold), 20);
    lemma_sw_basic(b, has_kind(Kind::Pawn), 20);
    let a = extract(v);
    let kset = king_set(a.sk, a.gk);
    lemma_king_list(a.sk, a.gk);
    let gs = kind_squares(b, Kind::Gold);
    let ps = kind_squares(b, Kind::Pawn);
    assert forall|t: int| 0 <= t < gs.len() implies !kset.contains(#[trigger] gs[t]) by {
        assert(has_kind(Kind::Gold)(b[gs[t]]));
    }
    lemma_extract_kind(v, Kind::Gold, 0, kset);
    lemma_fits_len(kset, a.gold, 18);
    let pocc = pawn_occ(a);
    assert forall|t: int| 0 <= t < ps.len() implies !pocc.contains(#[trigger] ps[t]) by {
        assert(has_kind(Kind::Pawn)(b[ps[t]]));
        if seq_set(gs).contains(ps[t]) {
            let u = choose|u: int| 0 <= u < gs.len() && gs[u] == ps[t];
            assert(has_kind(Kind::Gold)(b[gs[u]]));
        }
    }
    lemma_extract_kind(v, Kind::Pawn, 3, pocc);
}


// ---------------------------------------------------------------------------
// Ranks and positions are inverse
// ---------------------------------------------------------------------------

/// Reading back a placement that was put on the board gives the placement.
proof fn lemma_extract_of_placement(v: PosView, k: Kind, slot: int, occ: Set<int>, kp: KindPlacement, n: int)
    requires
        kp_valid(n, kp),
        free_list(occ).len() == n,
        v.board.len() == 20,
        v.hand_sente.len() == 4,
        v.hand_gote.len() == 4,
        0 <= slot < 4,
        v.hand_sente[slot] == kp.hand_sente,
        v.hand_gote[slot] == kp.hand_gote,
        forall|q: int| 0 <= q < 20 ==> (has_kind(k)(#[trigger] v.board[q]) <==> placed(free_list(occ), kp).contains(q)),
        forall|q: int|
            0 <= q < 20 && #[trigger] placed(free_list(occ), kp).contains(q) ==> v.board[q] == placed_cell(
                free_list(occ),
                kp,
                k,
                q,
            ),
    ensures
        kind_squares(v.board, k).len() == kp.board_count,
        extract_kind(v, k, slot, occ) == kp,
{
    let e = free_list(occ);
    lemma_fits(occ, kp, n);
    lemma_free_basic(occ, 20);
    let s: Seq<int> = if kp.board_count == 0 {
        seq![]
    } else if kp.board_count == 1 {
        seq![e[kp.board[0].0 as int] as int]
    } else {
        seq![e[kp.board[0].0 as int] as int, e[kp.board[1].0 as int] as int]
    };
    if kp.board_count == 2 {
        assert(e[kp.board[0].0 as int] < e[kp.board[1].0 as int]);
    }
    assert forall|q: int| 0 <= q < 20 implies (has_kind(k)(v.board[q]) <==> #[trigger] s.contains(q)) by {
        if placed(e, kp).contains(q) {
            if kp.board_count == 1 {
                assert(s[0] == q);
            } else if kp.board_count == 2 {
                if e[kp.board[0].0 as int] == q {
                    assert(s[0] == q);
                } else {
                    assert(s[1] == q);
                }
            }
        }
    }
    lemma_sw_char(v.board, has_kind(k), 20, s);
    let got = extract_kind(v, k, slot, occ);
    if kp.board_count >= 1 {
        let q0 = e[kp.board[0].0 as int] as int;
        assert(placed(e, kp).contains(q0));
        assert(free_index(occ, q0) == kp.board[0].0);
        assert(cell_variant(v.board[q0]) == kp.board[0].1);
    }
    if kp.board_count == 2 {
        let q1 = e[kp.board[1].0 as int] as int;
        assert(placed(e, kp).contains(q1));
        assert(free_index(occ, q1) == kp.board[1].0);
        assert(cell_variant(v.board[q1]) == kp.board[1].1);
    }
    assert(got.board =~= kp.board);
    assert(kp_rank(n, got) == kp_rank(n, kp));
}

/// A valid arrangement puts a KPG position on the board, and reading that
/// position gives the arrangement back.
proof fn lemma_arr_view_valid(a: KpgArr)
    requires
        arr_valid(a),
    ensures
        kpg_valid(arr_view(a)),
        extract(arr_view(a)) == a,
{
    let v = arr_view(a);
    let b = v.board;
    let kset = king_set(a.sk, a.gk);
    let gl = gold_list(a);
    let pl = pawn_list(a);
    lemma_king_list(a.sk, a.gk);
    lemma_fits(kset, a.gold, 18);
    lemma_fits_len(kset, a.gold, 18);
    lemma_fits(pawn_occ(a), a.pawn, 18 - a.gold.board_count);
    assert forall|q: int| 0 <= q < 20 implies (has_king_of(Owner::Sente)(b[q]) <==> #[trigger] seq![a.sk].contains(q))
        by {
        if q == a.sk {
            assert(seq![a.sk][0] == q);
        }
    }
    lemma_sw_char(b, has_king_of(Owner::Sente), 20, seq![a.sk]);
    assert forall|q: int| 0 <= q < 20 implies (has_king_of(Owner::Gote)(b[q]) <==> #[trigger] seq![a.gk].contains(q))
        by {
        if q == a.gk {
            assert(seq![a.gk][0] == q);
        }
    }
    lemma_sw_char(b, has_king_of(Owner::Gote), 20, seq![a.gk]);
    assert forall|q: int| 0 <= q < 20 implies (has_kind(Kind::Gold)(#[trigger] b[q]) <==> placed(gl, a.gold).contains(q))
        by {
        lemma_placed_cell(gl, a.gold, Kind::Gold, q);
        lemma_placed_cell(pl, a.pawn, Kind::Pawn, q);
    }
    assert forall|q: int| 0 <= q < 20 && #[trigger] placed(gl, a.gold).contains(q) implies b[q] == placed_cell(
        gl,
        a.gold,
        Kind::Gold,
        q,
    ) by {
        lemma_placed_cell(gl, a.gold, Kind::Gold, q);
    }
    lemma_extract_of_placement(v, Kind::Gold, 0, kset, a.gold, 18);
    assert forall|q: int| 0 <= q < 20 implies (has_kind(Kind::Pawn)(#[trigger] b[q]) <==> placed(pl, a.pawn).contains(q))
        by {
        lemma_placed_cell(gl, a.gold, Kind::Gold, q);
        lemma_placed_cell(pl, a.pawn, Kind::Pawn, q);
        if placed(pl, a.pawn).contains(q) {
            assert(!pawn_occ(a).contains(q));
        }
    }
    assert forall|q: int| 0 <= q < 20 && #[trigger] placed(pl, a.pawn).contains(q) implies b[q] == placed_cell(
        pl,
        a.pawn,
        Kind::Pawn,
        q,
    ) by {
        lemma_placed_cell(gl, a.gold, Kind::Gold, q);
        lemma_placed_cell(pl, a.pawn, Kind::Pawn, q);
        assert(!pawn_occ(a).contains(q));
    }
    lemma_extract_of_placement(v, Kind::Pawn, 3, pawn_occ(a), a.pawn, 18 - a.gold.board_count);
    assert forall|q: int| 0 <= q < 20 implies (#[trigger] b[q] matches Some(t) ==> t.0 == Kind::King || t.0
        == Kind::Gold || t.0 == Kind::Pawn) by {
        lemma_placed_cell(gl, a.gold, Kind::Gold, q);
        lemma_placed_cell(pl, a.pawn, Kind::Pawn, q);
    }
}

/// Reading a KPG position and putting the arrangement back gives the position,
/// with its Kings on their unpromoted face.
proof fn lemma_view_normalize(v: PosView)
    requires
        kpg_valid(v),
    ensures
        arr_view(extract(v)) == normalize(v),
{
    let b = v.board;
    let a = extract(v);
    lemma_kings(v);
    lemma_extract_valid(v);
    let kset = king_set(a.sk, a.gk);
    lemma_king_list(a.sk, a.gk);
    lemma_sw_basic(b, has_kind(Kind::Gold), 20);
    lemma_sw_basic(b, has_kind(Kind::Pawn), 20);
    let gs = kind_squares(b, Kind::Gold);
    let ps = kind_squares(b, Kind::Pawn);
    assert forall|t: int| 0 <= t < gs.len() implies !kset.contains(#[trigger] gs[t]) by {
        assert(has_kind(Kind::Gold)(b[gs[t]]));
    }
    lemma_extract_kind(v, Kind::Gold, 0, kset);
    let pocc = pawn_occ(a);
    assert forall|t: int| 0 <= t < ps.len() implies !pocc.contains(#[trigger] ps[t]) by {
        assert(has_kind(Kind::Pawn)(b[ps[t]]));
        if seq_set(gs).contains(ps[t]) {
            let u = choose|u: int| 0 <= u < gs.len() && gs[u] == ps[t];
            assert(has_kind(Kind::Gold)(b[gs[u]]));
        }
    }
    lemma_extract_kind(v, Kind::Pawn, 3, pocc);
    let w = arr_view(a);
    let n = normalize(v);
    assert forall|q: int| 0 <= q < 20 implies w.board[q] == n.board[q] by {
        if q != a.sk && q != a.gk {
            if gs.contains(q) {
                let t = choose|t: int| 0 <= t < gs.len() && gs[t] == q;
                assert(has_kind(Kind::Gold)(b[gs[t]]));
            } else if ps.contains(q) {
                let t = choose|t: int| 0 <= t < ps.len() && ps[t] == q;
                assert(has_kind(Kind::Pawn)(b[ps[t]]));
            } else {
                match b[q] {
                    Some(c) => {
                        if c.0 == Kind::Gold {
                            assert(has_kind(Kind::Gold)(b[q]));
                        } else if c.0 == Kind::Pawn {
                            assert(has_kind(Kind::Pawn)(b[q]));
                        }
                    },
                    None => {},
                }
            }
        }
    }
    assert(w.board =~= n.board);
    assert(w.hand_sente =~= n.hand_sente);
    assert(w.hand_gote =~= n.hand_gote);
}

/// Ranks and KPG positions correspond one to one: every rank in the domain
/// names a KPG position whose rank it is, and every KPG position is named by its
/// rank, up to the face its Kings show (Kings have no promoted face).
pub proof fn lemma_rank_unrank(id: int, v: PosView)
    ensures
        0 <= id < domain_spec() ==> kpg_valid(unrank_spec(id)) && rank_defined(unrank_spec(id)) && rank_id(
            unrank_spec(id),
        ) == id,
        kpg_valid(v) ==> rank_defined(v) && 0 <= rank_id(v) < domain_spec() && unrank_spec(rank_id(v))
            == normalize(v),
{
    if 0 <= id < domain_spec() {
        lemma_decode_encode_id(id);
        lemma_arr_view_valid(decode(id));
    }
    if kpg_valid(v) {
        lemma_extract_valid(v);
        lemma_encode_arr(extract(v));
        lemma_view_normalize(v);
    }
}


// ---------------------------------------------------------------------------
// Canonical ranks: turn and mirror folded
// ---------------------------------------------------------------------------

/// Counting the squares that satisfy `f` row by row does not see the mirror.
proof fn lemma_mirror_count(b: Seq<Cell>, f: spec_fn(Cell) -> bool, r: int)
    requires
        0 <= r <= 5,
        b.len() == 20,
    ensures
        squares_where(Seq::new(20, |s: int| b[mirror_sq(s)]), f, 4 * r).len() == squares_where(b, f, 4 * r).len(),
    decreases r,
{
    if r > 0 {
        lemma_mirror_count(b, f, r - 1);
        let m = Seq::new(20, |s: int| b[mirror_sq(s)]);
        let n = 4 * (r - 1);
        assert(m[n] == b[n + 3]);
        assert(m[n + 1] == b[n + 2]);
        assert(m[n + 2] == b[n + 1]);
        assert(m[n + 3] == b[n]);
        assert(squares_where(m, f, n + 1).len() == squares_where(m, f, n).len() + if f(m[n]) { 1int } else { 0int });
        assert(squares_where(m, f, n + 2).len() == squares_where(m, f, n + 1).len() + if f(m[n + 1]) {
            1int
        } else {
            0int
        });
        assert(squares_where(m, f, n + 3).len() == squares_where(m, f, n + 2).len() + if f(m[n + 2]) {
            1int
        } else {
            0int
        });
        assert(squares_where(m, f, n + 4).len() == squares_where(m, f, n + 3).len() + if f(m[n + 3]) {
            1int
        } else {
            0int
        });
        assert(squares_where(b, f, n + 1).len() == squares_where(b, f, n).len() + if f(b[n]) { 1int } else { 0int });
        assert(squares_where(b, f, n + 2).len() == squares_where(b, f, n + 1).len() + if f(b[n + 1]) {
            1int
        } else {
            0int
        });
        assert(squares_where(b, f, n + 3).len() == squares_where(b, f, n + 2).len() + if f(b[n + 2]) {
            1int
        } else {
            0int
        });
        assert(squares_where(b, f, n + 4).len() == squares_where(b, f, n + 3).len() + if f(b[n + 3]) {
            1int
        } else {
            0int
        });
    }
}

/// The mirror image of a position is in the KPG slice exactly when the position is.
proof fn lemma_mirror_kpg(v: PosView)
    requires
        v.board.len() == 20,
    ensures
        kpg_valid(mirror_view(v)) == kpg_valid(v),
        rank_defined(mirror_view(v)) == rank_defined(v),
{
    let m = mirror_view(v);
    assert(m.board == Seq::new(20, |s: int| v.board[mirror_sq(s)]));
    lemma_mirror_count(v.board, has_kind(Kind::Gold), 5);
    lemma_mirror_count(v.board, has_kind(Kind::Pawn), 5);
    lemma_mirror_count(v.board, has_king_of(Owner::Sente), 5);
    lemma_mirror_count(v.board, has_king_of(Owner::Gote), 5);
    assert(kgp_below(m.board, 20) == kgp_below(v.board, 20)) by {
        if kgp_below(v.board, 20) {
            assert forall|q: int| 0 <= q < 20 implies (#[trigger] m.board[q] matches Some(t) ==> t.0 == Kind::King
                || t.0 == Kind::Gold || t.0 == Kind::Pawn) by {
                assert(m.board[q] == v.board[mirror_sq(q)]);
            }
        }
        if kgp_below(m.board, 20) {
            assert forall|q: int| 0 <= q < 20 implies (#[trigger] v.board[q] matches Some(t) ==> t.0 == Kind::King
                || t.0 == Kind::Gold || t.0 == Kind::Pawn) by {
                assert(mirror_sq(mirror_sq(q)) == q);
                assert(m.board[mirror_sq(q)] == v.board[q]);
            }
        }
    }
}

/// The canonical rank of a position: fold the turn, then take the lower raw rank
/// of the two mirror images; `None` outside the KPG slice.
#[verifier::opaque]
pub open spec fn canonical_rank_spec(v: PosView) -> Option<u32> {
    let q = canonical_turn_spec(v);
    if kpg_valid(q) {
        let r1 = rank_id(q);
        let r2 = rank_id(mirror_view(q));
        Some((if r1 <= r2 { r1 } else { r2 }) as u32)
    } else {
        None
    }
}

/// The canonical rank of any position (see `canonical_rank_spec`).
pub fn rank_canonical(p: &Position) -> (r: Option<u32>)
    requires
        rank_defined(canonical_turn_spec(p@)),
    ensures
        r == canonical_rank_spec(p@),
{
    let q = canonical_turn(p);
    let r1 = match rank_raw_sente(&q) {
        Some(x) => x,
        None => {
            proof {
                reveal(canonical_rank_spec);
            }
            return None;
        },
    };
    let m = mirror(&q);
    proof {
        lemma_mirror_kpg(q@);
    }
    let r2 = match rank_raw_sente(&m) {
        Some(x) => x,
        None => {
            proof {
                reveal(canonical_rank_spec);
            }
            return None;
        },
    };
    proof {
        lemma_rank_unrank(0, q@);
        lemma_rank_unrank(0, m@);
        lemma_sizes();
        reveal(canonical_rank_spec);
    }
    Some(if r1 <= r2 { r1 } else { r2 })
}

/// A position and its left-right mirror image have the same canonical rank.
pub proof fn lemma_rank_canonical_mirror(v: PosView)
    requires
        v.board.len() == 20,
    ensures
        canonical_rank_spec(mirror_view(v)) == canonical_rank_spec(v),
        rank_defined(canonical_turn_spec(mirror_view(v))) == rank_defined(canonical_turn_spec(v)),
{
    reveal(canonical_rank_spec);
    lemma_turn_mirror_commute(v);
    let q = canonical_turn_spec(v);
    lemma_mirror_involution(q);
    lemma_mirror_kpg(q);
}


// ---------------------------------------------------------------------------
// A fixed-size bit set over ranks
// ---------------------------------------------------------------------------

/// A set of ranks below its capacity, one bit per rank.
#[derive(Clone, Debug)]
pub struct BitSet {
    words: Vec<u64>,
}

proof fn lemma_word_zero(c: u64)
    by (bit_vector)
    requires
        c < 64,
    ensures
        (0u64 >> c) & 1 == 0,
{
}

proof fn lemma_word_set(x: u64, b: u64, c: u64)
    by (bit_vector)
    requires
        b < 64,
        c < 64,
    ensures
        ((x | (1u64 << b)) >> c) & 1 == 1 <==> ((x >> c) & 1 == 1 || b == c),
{
}

impl BitSet {
    /// Number of ranks the set can hold.
    pub closed spec fn capacity(&self) -> int {
        (self.words@.len() * 64) as int
    }

    pub closed spec fn has(&self, i: int) -> bool {
        0 <= i < self.words@.len() * 64 && (self.words@[i / 64] >> ((i % 64) as u64)) & 1 == 1
    }
}

impl View for BitSet {
    type V = Set<int>;

    closed spec fn view(&self) -> Set<int> {
        Set::new(|i: int| self.has(i))
    }
}

impl BitSet {
    /// An empty set with room for `bits` ranks (rounded up to whole words).
    pub fn new(bits: usize) -> (s: Self)
        ensures
            s@ == Set::<int>::empty(),
            s.capacity() == (bits / 64 + if bits % 64 == 0 { 0int } else { 1int }) * 64,
    {
        let n = bits / 64 + if bits % 64 == 0 { 0 } else { 1 };
        let words: Vec<u64> = vec![0u64; n];
        let s = BitSet { words };
        assert forall|i: int| !s@.contains(i) by {
            if 0 <= i < s.words@.len() * 64 {
                assert(s.words@[i / 64] == 0u64);
                lemma_word_zero((i % 64) as u64);
            }
        }
        assert(s@ =~= Set::<int>::empty());
        s
    }

    /// Is `bit` in the set?
    pub fn get(&self, bit: u32) -> (b: bool)
        requires
            bit < self.capacity(),
        ensures
            b == self@.contains(bit as int),
    {
        let bit = bit as usize;
        (self.words[bit / 64] >> ((bit % 64) as u64)) & 1 == 1
    }

    /// Add `bit` to the set.
    pub fn set(&mut self, bit: u32)
        requires
            bit < old(self).capacity(),
        ensures
            final(self)@ == old(self)@.insert(bit as int),
            final(self).capacity() == old(self).capacity(),
    {
        let ghost old_words = self.words@;
        let b = bit as usize;
        let w = b / 64;
        let word = self.words[w] | (1u64 << ((b % 64) as u64));
        self.words.set(w, word);
        proof {
            assert forall|i: int| self@.contains(i) == old(self)@.insert(bit as int).contains(i) by {
                if 0 <= i < self.words@.len() * 64 {
                    if i / 64 == w {
                        lemma_word_set(old_words[w as int], (b % 64) as u64, (i % 64) as u64);
                    } else {
                        assert(self.words@[i / 64] == old_words[i / 64]);
                    }
                }
            }
            assert(self@ =~= old(self)@.insert(bit as int));
        }
    }
}


// ---------------------------------------------------------------------------
// The KPG start position
// ---------------------------------------------------------------------------

pub open spec fn kpg_start_view() -> PosView {
    PosView {
        board: seq![
            Some((Kind::King, false, Owner::Gote)), None, Some((Kind::Gold, false, Owner::Gote)), None,
            Some((Kind::Pawn, false, Owner::Gote)), None, None, None,
            None, None, None, None,
            None, None, None, Some((Kind::Pawn, false, Owner::Sente)),
            None, Some((Kind::Gold, false, Owner::Sente)), None, Some((Kind::King, false, Owner::Sente)),
        ],
        hand_sente: seq![0u8, 0u8, 0u8, 0u8],
        hand_gote: seq![0u8, 0u8, 0u8, 0u8],
        turn: Owner::Sente,
    }
}

/// The KPG start position, `S/k-g-/p---/----/---P/-G-K/-`: each side has its King
/// in its own corner, a Gold beside it and a Pawn in front, Sente to move.
pub fn kpg_start() -> (p: Position)
    ensures
        p@ == kpg_start_view(),
{
    let p = Position {
        board: [
            Some((Kind::King, false, Owner::Gote)), None, Some((Kind::Gold, false, Owner::Gote)), None,
            Some((Kind::Pawn, false, Owner::Gote)), None, None, None,
            None, None, None, None,
            None, None, None, Some((Kind::Pawn, false, Owner::Sente)),
            None, Some((Kind::Gold, false, Owner::Sente)), None, Some((Kind::King, false, Owner::Sente)),
        ],
        hand_sente: [0; 4],
        hand_gote: [0; 4],
        turn: Owner::Sente,
    };
    assert(p.board@ =~= kpg_start_view().board);
    assert(p.hand_sente@ =~= kpg_start_view().hand_sente);
    assert(p.hand_gote@ =~= kpg_start_view().hand_gote);
    p
}

// ---------------------------------------------------------------------------
// Un-moving: the positions a move could have come from
// ---------------------------------------------------------------------------

/// A Sente-to-move position seen from the other side: board rotated 180 degrees,
/// colours and hands swapped, Gote to move.
pub open spec fn rotate_swap_view(v: PosView) -> PosView {
    PosView { turn: Owner::Gote, ..rotate_view(v) }
}

fn rotate_swap_to_gote(p: &Position) -> (r: Position)
    requires
        p@.turn == Owner::Sente,
    ensures
        r@ == rotate_swap_view(p@),
{
    let mut board: [Cell; 20] = [None; 20];
    let mut s: usize = 0;
    while s < 20
        invariant
            s <= 20,
            forall|j: int| 0 <= j < s ==> #[trigger] board@[j] == flip_cell(p.board@[19 - j]),
        decreases 20 - s,
    {
        let r = s as i8 / 4;
        let f = s as i8 % 4;
        let s2 = ((5 - 1 - r) * 4 + (4 - 1 - f)) as usize;
        assert(s2 == 19 - s);
        board[s] = match p.board[s2] {
            Some((kind, promo, owner)) => Some((kind, promo, owner.flip())),
            None => None,
        };
        s += 1;
    }
    let r = Position { board, hand_sente: p.hand_gote, hand_gote: p.hand_sente, turn: Owner::Gote };
    assert(r@.board =~= rotate_swap_view(p@).board);
    r
}

/// The empty squares from which a piece reaches `to` moving along (dr, df),
/// from the `n`-th step back on: the walk back stops at the edge or at an
/// occupied square, and a non-slider looks one step back only.
pub open spec fn source_ray(b: Seq<Cell>, to: int, slider: bool, dr: int, df: int, n: int) -> Seq<u8>
    decreases 6 - n,
{
    if n < 1 || n > 5 {
        seq![]
    } else {
        let r = sq_rank(to) - n * dr;
        let f = sq_file(to) - n * df;
        if !in_board(r, f) || b[r * 4 + f] is Some {
            seq![]
        } else if !slider {
            seq![(r * 4 + f) as u8]
        } else {
            seq![(r * 4 + f) as u8] + source_ray(b, to, slider, dr, df, n + 1)
        }
    }
}

/// Source squares over the first `n` directions, direction by direction.
pub open spec fn source_dirs(b: Seq<Cell>, to: int, slider: bool, dirs: Seq<(i8, i8)>, n: int) -> Seq<u8>
    decreases n,
{
    if n <= 0 {
        seq![]
    } else {
        source_dirs(b, to, slider, dirs, n - 1) + source_ray(b, to, slider, dirs[n - 1].0 as int, dirs[n - 1].1 as int, 1)
    }
}

/// The empty squares from which a piece of `kind` showing `promo` for `owner`
/// moves to `to` without capturing.
pub open spec fn sources_spec(b: Seq<Cell>, to: int, kind: Kind, promo: bool, owner: Owner) -> Seq<u8> {
    let (slider, dirs) = movement_spec(kind, promo, owner);
    source_dirs(b, to, slider, dirs, dirs.len() as int)
}

fn source_squares(child: &Position, to: u8, kind: Kind, promo: bool, owner: Owner) -> (out: Vec<u8>)
    requires
        to < 20,
    ensures
        out@ == sources_spec(child@.board, to as int, kind, promo, owner),
{
    let (slider, dirs) = movement(kind, promo, owner);
    proof {
        lemma_movement_dirs(kind, promo, owner);
    }
    let tr = rank(to);
    let tf = file(to);
    let mut out: Vec<u8> = Vec::new();
    let mut i: usize = 0;
    while i < dirs.len()
        invariant
            i <= dirs@.len(),
            to < 20,
            tr == sq_rank(to as int),
            tf == sq_file(to as int),
            dirs@ == movement_spec(kind, promo, owner).1,
            slider == movement_spec(kind, promo, owner).0,
            forall|j: int|
                0 <= j < dirs@.len() ==> {
                    let d = #[trigger] dirs@[j];
                    &&& -2 <= d.0 <= 2
                    &&& -1 <= d.1 <= 1
                    &&& !(d.0 == 0 && d.1 == 0)
                },
            out@ == source_dirs(child@.board, to as int, slider, dirs@, i as int),
        decreases dirs@.len() - i,
    {
        let (dr, df) = dirs[i];
        assert(-2 <= dirs@[i as int].0 <= 2);
        let mut r = tr - dr;
        let mut f = tf - df;
        let ghost mut n: int = 1;
        let ghost before = out@;
        loop
            invariant_except_break
                1 <= n <= 5,
                to < 20,
                tr == sq_rank(to as int),
                tf == sq_file(to as int),
                -2 <= dr <= 2,
                -1 <= df <= 1,
                !(dr == 0 && df == 0),
                r == tr - n * dr,
                f == tf - n * df,
                before + source_ray(child@.board, to as int, slider, dr as int, df as int, 1) == out@ + source_ray(
                    child@.board,
                    to as int,
                    slider,
                    dr as int,
                    df as int,
                    n,
                ),
            ensures
                out@ == before + source_ray(child@.board, to as int, slider, dr as int, df as int, 1),
            decreases 5 - n,
        {
            proof {
                if n == 5 {
                    lemma_fifth_step_off_board(tr as int, tf as int, -dr as int, -df as int);
                    assert(tr - 5 * dr == tr + 5 * (-dr));
                }
            }
            let ghost rest = source_ray(child@.board, to as int, slider, dr as int, df as int, n + 1);
            if !on_board(r, f) {
                assert(source_ray(child@.board, to as int, slider, dr as int, df as int, n) =~= seq![]);
                assert(out@ + seq![] =~= out@);
                break;
            }
            let sq = (r * 4 + f) as u8;
            if child.board[sq as usize].is_some() {
                assert(source_ray(child@.board, to as int, slider, dr as int, df as int, n) =~= seq![]);
                assert(out@ + seq![] =~= out@);
                break;
            }
            out.push(sq);
            if !slider {
                assert(source_ray(child@.board, to as int, slider, dr as int, df as int, n) =~= seq![sq]);
                break;
            }
            assert(source_ray(child@.board, to as int, slider, dr as int, df as int, n) =~= seq![sq] + rest);
            r = r - dr;
            f = f - df;
            proof {
                assert((n + 1) * dr == n * dr + dr) by (nonlinear_arith);
                assert((n + 1) * df == n * df + df) by (nonlinear_arith);
                n = n + 1;
            }
        }
        i += 1;
        assert(source_dirs(child@.board, to as int, slider, dirs@, i as int) =~= source_dirs(
            child@.board,
            to as int,
            slider,
            dirs@,
            i - 1,
        ) + source_ray(child@.board, to as int, slider, dr as int, df as int, 1));
    }
    out
}


/// Sente's last move dropped the piece of `kind` now on `to`.
pub open spec fn undrop_parent(c: PosView, to: int, kind: Kind) -> PosView {
    PosView {
        board: c.board.update(to, None),
        hand_sente: hand_after(c.hand_sente, hand_slot(kind), 1),
        hand_gote: c.hand_gote,
        turn: Owner::Sente,
    }
}

/// Sente's last move brought the piece on `to` from `from` without capturing.
pub open spec fn quiet_parent(c: PosView, to: int, kind: Kind, promo: bool, from: int) -> PosView {
    PosView {
        board: c.board.update(to, None).update(from, Some((kind, promo, Owner::Sente))),
        hand_sente: c.hand_sente,
        hand_gote: c.hand_gote,
        turn: Owner::Sente,
    }
}

/// Sente's last move brought the piece on `to` from `from`, showing `old_promo`
/// before, and captured a Gote piece of `ck` showing `cp`, now in Sente's hand.
pub open spec fn capture_parent(c: PosView, to: int, kind: Kind, old_promo: bool, from: int, ck: Kind, cp: bool) -> PosView {
    PosView {
        board: c.board.update(to, Some((ck, cp, Owner::Gote))).update(from, Some((kind, old_promo, Owner::Sente))),
        hand_sente: hand_after(c.hand_sente, hand_slot(ck), -1),
        hand_gote: c.hand_gote,
        turn: Owner::Sente,
    }
}

pub open spec fn quiet_parents(c: PosView, to: int, kind: Kind, promo: bool, froms: Seq<u8>) -> Seq<PosView> {
    Seq::new(froms.len(), |i: int| quiet_parent(c, to, kind, promo, froms[i] as int))
}

/// The captures that end on `to` from `from`: of a Gold, then of a Pawn, each of
/// either face, when Sente holds one of that kind.
pub open spec fn from_captures(c: PosView, to: int, kind: Kind, old_promo: bool, from: int) -> Seq<PosView> {
    (if c.hand_sente[0] != 0 {
        seq![
            capture_parent(c, to, kind, old_promo, from, Kind::Gold, false),
            capture_parent(c, to, kind, old_promo, from, Kind::Gold, true),
        ]
    } else {
        seq![]
    }) + (if c.hand_sente[3] != 0 {
        seq![
            capture_parent(c, to, kind, old_promo, from, Kind::Pawn, false),
            capture_parent(c, to, kind, old_promo, from, Kind::Pawn, true),
        ]
    } else {
        seq![]
    })
}

pub open spec fn capture_parents(c: PosView, to: int, kind: Kind, old_promo: bool, froms: Seq<u8>) -> Seq<PosView>
    decreases froms.len(),
{
    if froms.len() == 0 {
        seq![]
    } else {
        capture_parents(c, to, kind, old_promo, froms.drop_last()) + from_captures(
            c,
            to,
            kind,
            old_promo,
            froms.last() as int,
        )
    }
}

/// The face a piece showed before a capturing move: flipped, but for a King.
pub open spec fn face_before_capture(kind: Kind, promo: bool) -> bool {
    if kind == Kind::King {
        false
    } else {
        !promo
    }
}

/// Candidate parents whose last Sente move ended on `to`: a drop (not of a King),
/// the quiet moves in, then the capturing moves in.
pub open spec fn square_parents(c: PosView, to: int) -> Seq<PosView> {
    match c.board[to] {
        Some(t) => if t.2 == Owner::Sente {
            let kind = t.0;
            let promo = t.1;
            let op = face_before_capture(kind, promo);
            (if kind != Kind::King {
                seq![undrop_parent(c, to, kind)]
            } else {
                seq![]
            }) + quiet_parents(c, to, kind, promo, sources_spec(c.board, to, kind, promo, Owner::Sente))
                + capture_parents(c, to, kind, op, sources_spec(c.board, to, kind, op, Owner::Sente))
        } else {
            seq![]
        },
        None => seq![],
    }
}

/// Candidate parents over the target squares `0..n`, square by square.
pub open spec fn unmove_parents(c: PosView, n: int) -> Seq<PosView>
    decreases n,
{
    if n <= 0 {
        seq![]
    } else {
        unmove_parents(c, n - 1) + square_parents(c, n - 1)
    }
}

/// The canonical ranks of the rankable positions of `ps`, in order.
pub open spec fn ranked(ps: Seq<PosView>) -> Seq<u32>
    decreases ps.len(),
{
    if ps.len() == 0 {
        seq![]
    } else {
        ranked(ps.drop_last()) + match canonical_rank_spec(ps.last()) {
            Some(r) => seq![r],
            None => seq![],
        }
    }
}

proof fn lemma_ranked_len(ps: Seq<PosView>)
    ensures
        ranked(ps).len() <= ps.len(),
    decreases ps.len(),
{
    if ps.len() > 0 {
        lemma_ranked_len(ps.drop_last());
    }
}

proof fn lemma_ranked_append(a: Seq<PosView>, b: Seq<PosView>)
    ensures
        ranked(a + b) == ranked(a) + ranked(b),
    decreases b.len(),
{
    if b.len() == 0 {
        assert(a + b =~= a);
        assert(ranked(a) + ranked(b) =~= ranked(a));
    } else {
        lemma_ranked_append(a, b.drop_last());
        assert((a + b).drop_last() =~= a + b.drop_last());
        assert((a + b).last() == b.last());
    }
}

/// Hand counts of at most `k` in every slot, on both sides.
pub open spec fn hands_at_most(v: PosView, k: int) -> bool {
    &&& v.hand_sente.len() == 4
    &&& v.hand_gote.len() == 4
    &&& forall|i: int| 0 <= i < 4 ==> #[trigger] v.hand_sente[i] <= k
    &&& forall|i: int| 0 <= i < 4 ==> #[trigger] v.hand_gote[i] <= k
}

/// Ranking is defined on every position whose hands hold at most three of a kind.
proof fn lemma_small_hands_defined(v: PosView)
    requires
        hands_at_most(v, 3),
    ensures
        rank_defined(v),
        rank_defined(canonical_turn_spec(v)),
{
    assert(v.hand_sente[0] <= 3 && v.hand_gote[0] <= 3);
    assert(v.hand_sente[3] <= 3 && v.hand_gote[3] <= 3);
}

fn push_ranked_parent(parent: Position, ids: &mut Vec<u32>)
    requires
        rank_defined(canonical_turn_spec(parent@)),
    ensures
        final(ids)@ == old(ids)@ + ranked(seq![parent@]),
{
    assert(seq![parent@].drop_last() =~= Seq::<PosView>::empty());
    assert(ranked(Seq::<PosView>::empty()) == Seq::<u32>::empty());
    assert(ranked(seq![parent@]) == ranked(Seq::<PosView>::empty()) + match canonical_rank_spec(parent@) {
        Some(r) => seq![r],
        None => seq![],
    });
    match rank_canonical(&parent) {
        Some(id) => {
            ids.push(id);
        },
        None => {
            assert(old(ids)@ + seq![] =~= old(ids)@);
        },
    }
}


/// Source squares are board squares, at most five per direction.
proof fn lemma_source_ray(b: Seq<Cell>, to: int, slider: bool, dr: int, df: int, n: int)
    requires
        1 <= n,
    ensures
        source_ray(b, to, slider, dr, df, n).len() <= 5,
        n <= 5 ==> source_ray(b, to, slider, dr, df, n).len() <= 6 - n,
        forall|i: int|
            0 <= i < source_ray(b, to, slider, dr, df, n).len() ==> #[trigger] source_ray(b, to, slider, dr, df, n)[i]
                < 20,
    decreases 6 - n,
{
    if n <= 5 {
        lemma_source_ray(b, to, slider, dr, df, n + 1);
        let r = sq_rank(to) - n * dr;
        let f = sq_file(to) - n * df;
        if in_board(r, f) {
            assert(0 <= r * 4 + f < 20);
        }
    }
}

proof fn lemma_source_dirs(b: Seq<Cell>, to: int, slider: bool, dirs: Seq<(i8, i8)>, n: int)
    requires
        0 <= n,
    ensures
        source_dirs(b, to, slider, dirs, n).len() <= 5 * n,
        forall|i: int|
            0 <= i < source_dirs(b, to, slider, dirs, n).len() ==> #[trigger] source_dirs(b, to, slider, dirs, n)[i]
                < 20,
    decreases n,
{
    if n > 0 {
        lemma_source_dirs(b, to, slider, dirs, n - 1);
        lemma_source_ray(b, to, slider, dirs[n - 1].0 as int, dirs[n - 1].1 as int, 1);
        let pre = source_dirs(b, to, slider, dirs, n - 1);
        let ray = source_ray(b, to, slider, dirs[n - 1].0 as int, dirs[n - 1].1 as int, 1);
        assert forall|i: int| 0 <= i < (pre + ray).len() implies #[trigger] (pre + ray)[i] < 20 by {
            if i >= pre.len() {
                assert((pre + ray)[i] == ray[i - pre.len()]);
            }
        }
    }
}

proof fn lemma_sources(b: Seq<Cell>, to: int, kind: Kind, promo: bool, owner: Owner)
    ensures
        sources_spec(b, to, kind, promo, owner).len() <= 40,
        forall|i: int|
            0 <= i < sources_spec(b, to, kind, promo, owner).len() ==> #[trigger] sources_spec(b, to, kind, promo, owner)[i]
                < 20,
{
    lemma_movement_dirs(kind, promo, owner);
    let (slider, dirs) = movement_spec(kind, promo, owner);
    lemma_source_dirs(b, to, slider, dirs, dirs.len() as int);
}

proof fn lemma_capture_parents_len(c: PosView, to: int, kind: Kind, op: bool, froms: Seq<u8>)
    ensures
        capture_parents(c, to, kind, op, froms).len() <= 4 * froms.len(),
    decreases froms.len(),
{
    if froms.len() > 0 {
        lemma_capture_parents_len(c, to, kind, op, froms.drop_last());
    }
}

proof fn lemma_unmove_len(c: PosView, n: int)
    requires
        0 <= n,
    ensures
        unmove_parents(c, n).len() <= 201 * n,
    decreases n,
{
    if n > 0 {
        lemma_unmove_len(c, n - 1);
        let to = n - 1;
        match c.board[to] {
            Some(t) => {
                if t.2 == Owner::Sente {
                    let op = face_before_capture(t.0, t.1);
                    lemma_sources(c.board, to, t.0, t.1, Owner::Sente);
                    lemma_sources(c.board, to, t.0, op, Owner::Sente);
                    lemma_capture_parents_len(c, to, t.0, op, sources_spec(c.board, to, t.0, op, Owner::Sente));
                }
            },
            None => {},
        }
    }
}

fn push_quiet_parents(
    raw_child: &Position,
    to: u8,
    kind: Kind,
    promo: bool,
    froms: &Vec<u8>,
    candidates: &mut u64,
    ids: &mut Vec<u32>,
)
    requires
        to < 20,
        hands_at_most(raw_child@, 2),
        forall|i: int| 0 <= i < froms@.len() ==> #[trigger] froms@[i] < 20,
        *old(candidates) + froms@.len() <= u64::MAX,
    ensures
        final(ids)@ == old(ids)@ + ranked(quiet_parents(raw_child@, to as int, kind, promo, froms@)),
        *final(candidates) == *old(candidates) + froms@.len(),
{
    let ghost c = raw_child@;
    let mut j: usize = 0;
    while j < froms.len()
        invariant
            j <= froms@.len(),
            c == raw_child@,
            to < 20,
            hands_at_most(c, 2),
            forall|i: int| 0 <= i < froms@.len() ==> #[trigger] froms@[i] < 20,
            *old(candidates) + froms@.len() <= u64::MAX,
            ids@ == old(ids)@ + ranked(quiet_parents(c, to as int, kind, promo, froms@.take(j as int))),
            *candidates == *old(candidates) + j,
        decreases froms@.len() - j,
    {
        let from = froms[j];
        *candidates += 1;
        let mut parent = *raw_child;
        parent.turn = Owner::Sente;
        parent.board[to as usize] = None;
        parent.board[from as usize] = Some((kind, promo, Owner::Sente));
        proof {
            assert(parent@.board =~= quiet_parent(c, to as int, kind, promo, from as int).board);
            lemma_small_hands_defined(parent@);
            assert(quiet_parents(c, to as int, kind, promo, froms@.take(j + 1)) =~= quiet_parents(
                c,
                to as int,
                kind,
                promo,
                froms@.take(j as int),
            ) + seq![parent@]);
            lemma_ranked_append(quiet_parents(c, to as int, kind, promo, froms@.take(j as int)), seq![parent@]);
        }
        push_ranked_parent(parent, ids);
        j += 1;
    }
    assert(froms@.take(froms@.len() as int) =~= froms@);
}

fn push_capture(
    raw_child: &Position,
    to: u8,
    kind: Kind,
    old_promo: bool,
    from: u8,
    captured_kind: Kind,
    captured_promo: bool,
    ids: &mut Vec<u32>,
)
    requires
        to < 20,
        from < 20,
        captured_kind != Kind::King,
        hands_at_most(raw_child@, 2),
        raw_child@.hand_sente[hand_slot(captured_kind)] != 0,
    ensures
        final(ids)@ == old(ids)@ + ranked(
            seq![capture_parent(raw_child@, to as int, kind, old_promo, from as int, captured_kind, captured_promo)],
        ),
{
    let hi = captured_kind.hand_index();
    let mut parent = *raw_child;
    parent.turn = Owner::Sente;
    parent.hand_sente[hi] -= 1;
    parent.board[to as usize] = Some((captured_kind, captured_promo, Owner::Gote));
    parent.board[from as usize] = Some((kind, old_promo, Owner::Sente));
    proof {
        let want = capture_parent(raw_child@, to as int, kind, old_promo, from as int, captured_kind, captured_promo);
        assert(parent@.board =~= want.board);
        assert(parent@.hand_sente =~= want.hand_sente);
        assert forall|i: int| 0 <= i < 4 implies #[trigger] parent@.hand_sente[i] <= 3 by {
            assert(raw_child@.hand_sente[i] <= 2);
        }
        lemma_small_hands_defined(parent@);
    }
    push_ranked_parent(parent, ids);
}

/// Both faces of a captured `captured_kind`, when Sente holds one.
pub open spec fn kind_captures(c: PosView, to: int, kind: Kind, old_promo: bool, from: int, ck: Kind) -> Seq<PosView> {
    if c.hand_sente[hand_slot(ck)] != 0 {
        seq![
            capture_parent(c, to, kind, old_promo, from, ck, false),
            capture_parent(c, to, kind, old_promo, from, ck, true),
        ]
    } else {
        seq![]
    }
}

#[verifier::rlimit(30)]
fn push_kind_captures(
    raw_child: &Position,
    to: u8,
    kind: Kind,
    old_promo: bool,
    from: u8,
    captured_kind: Kind,
    candidates: &mut u64,
    ids: &mut Vec<u32>,
)
    requires
        to < 20,
        from < 20,
        captured_kind == Kind::Gold || captured_kind == Kind::Pawn,
        hands_at_most(raw_child@, 2),
        *old(candidates) + 2 <= u64::MAX,
    ensures
        final(ids)@ == old(ids)@ + ranked(kind_captures(raw_child@, to as int, kind, old_promo, from as int, captured_kind)),
        *final(candidates) == *old(candidates) + kind_captures(
            raw_child@,
            to as int,
            kind,
            old_promo,
            from as int,
            captured_kind,
        ).len(),
{
    let ghost c = raw_child@;
    let hi = captured_kind.hand_index();
    if raw_child.hand_sente[hi] == 0 {
        assert(ranked(Seq::<PosView>::empty()) =~= Seq::<u32>::empty());
        assert(old(ids)@ + Seq::<u32>::empty() =~= old(ids)@);
        return;
    }
    *candidates += 1;
    push_capture(raw_child, to, kind, old_promo, from, captured_kind, false, ids);
    *candidates += 1;
    push_capture(raw_child, to, kind, old_promo, from, captured_kind, true, ids);
    proof {
        let g0 = capture_parent(c, to as int, kind, old_promo, from as int, captured_kind, false);
        let g1 = capture_parent(c, to as int, kind, old_promo, from as int, captured_kind, true);
        lemma_ranked_append(seq![g0], seq![g1]);
        assert(seq![g0] + seq![g1] =~= seq![g0, g1]);
    }
}

fn push_from_captures(
    raw_child: &Position,
    to: u8,
    kind: Kind,
    old_promo: bool,
    from: u8,
    candidates: &mut u64,
    ids: &mut Vec<u32>,
)
    requires
        to < 20,
        from < 20,
        hands_at_most(raw_child@, 2),
        *old(candidates) + 4 <= u64::MAX,
    ensures
        final(ids)@ == old(ids)@ + ranked(from_captures(raw_child@, to as int, kind, old_promo, from as int)),
        *final(candidates) == *old(candidates) + from_captures(raw_child@, to as int, kind, old_promo, from as int).len(),
{
    let ghost c = raw_child@;
    let ghost gs = kind_captures(c, to as int, kind, old_promo, from as int, Kind::Gold);
    let ghost ps = kind_captures(c, to as int, kind, old_promo, from as int, Kind::Pawn);
    push_kind_captures(raw_child, to, kind, old_promo, from, Kind::Gold, candidates, ids);
    push_kind_captures(raw_child, to, kind, old_promo, from, Kind::Pawn, candidates, ids);
    proof {
        lemma_ranked_append(gs, ps);
        assert(gs + ps =~= from_captures(c, to as int, kind, old_promo, from as int));
    }
}

fn push_capture_parents(
    raw_child: &Position,
    to: u8,
    kind: Kind,
    old_promo: bool,
    froms: &Vec<u8>,
    candidates: &mut u64,
    ids: &mut Vec<u32>,
)
    requires
        to < 20,
        hands_at_most(raw_child@, 2),
        forall|i: int| 0 <= i < froms@.len() ==> #[trigger] froms@[i] < 20,
        *old(candidates) + 4 * froms@.len() <= u64::MAX,
    ensures
        final(ids)@ == old(ids)@ + ranked(capture_parents(raw_child@, to as int, kind, old_promo, froms@)),
        *final(candidates) == *old(candidates) + capture_parents(raw_child@, to as int, kind, old_promo, froms@).len(),
{
    let ghost c = raw_child@;
    let mut j: usize = 0;
    while j < froms.len()
        invariant
            j <= froms@.len(),
            c == raw_child@,
            to < 20,
            hands_at_most(c, 2),
            forall|i: int| 0 <= i < froms@.len() ==> #[trigger] froms@[i] < 20,
            *old(candidates) + 4 * froms@.len() <= u64::MAX,
            ids@ == old(ids)@ + ranked(capture_parents(c, to as int, kind, old_promo, froms@.take(j as int))),
            *candidates == *old(candidates) + capture_parents(c, to as int, kind, old_promo, froms@.take(j as int)).len(),
        decreases froms@.len() - j,
    {
        let from = froms[j];
        let ghost pre = capture_parents(c, to as int, kind, old_promo, froms@.take(j as int));
        let ghost fc = from_captures(c, to as int, kind, old_promo, from as int);
        proof {
            lemma_capture_parents_len(c, to as int, kind, old_promo, froms@.take(j as int));
            assert(froms@.take(j + 1).drop_last() =~= froms@.take(j as int));
            assert(capture_parents(c, to as int, kind, old_promo, froms@.take(j + 1)) == pre + fc);
            lemma_ranked_append(pre, fc);
        }
        push_from_captures(raw_child, to, kind, old_promo, from, candidates, ids);
        j += 1;
    }
    assert(froms@.take(froms@.len() as int) =~= froms@);
}

/// The candidate parents whose last move ended on `to` are counted and their
/// ranks appended.
fn push_square_parents(raw_child: &Position, to: u8, candidates: &mut u64, ids: &mut Vec<u32>)
    requires
        to < 20,
        hands_at_most(raw_child@, 2),
        *old(candidates) + 201 <= u64::MAX,
    ensures
        final(ids)@ == old(ids)@ + ranked(square_parents(raw_child@, to as int)),
        *final(candidates) == *old(candidates) + square_parents(raw_child@, to as int).len(),
{
    let ghost c = raw_child@;
    let ghost sp = square_parents(c, to as int);
    let ghost base = ids@;
    match raw_child.board[to as usize] {
        Some((kind, promo, owner)) => {
            if owner == Owner::Sente {
                let ghost mut done: Seq<PosView> = Seq::empty();
                assert(base + ranked(done) =~= base);
                if kind != Kind::King {
                    *candidates += 1;
                    let mut parent = *raw_child;
                    parent.turn = Owner::Sente;
                    parent.board[to as usize] = None;
                    let hi = kind.hand_index();
                    parent.hand_sente[hi] += 1;
                    proof {
                        let want = undrop_parent(c, to as int, kind);
                        assert(parent@.board =~= want.board);
                        assert(parent@.hand_sente =~= want.hand_sente);
                        assert forall|i: int| 0 <= i < 4 implies #[trigger] parent@.hand_sente[i] <= 3 by {
                            assert(c.hand_sente[i] <= 2);
                        }
                        lemma_small_hands_defined(parent@);
                        done = seq![want];
                    }
                    push_ranked_parent(parent, ids);
                }
                let froms = source_squares(raw_child, to, kind, promo, Owner::Sente);
                proof {
                    lemma_sources(c.board, to as int, kind, promo, Owner::Sente);
                }
                let ghost qp = quiet_parents(c, to as int, kind, promo, froms@);
                push_quiet_parents(raw_child, to, kind, promo, &froms, candidates, ids);
                proof {
                    lemma_ranked_append(done, qp);
                    done = done + qp;
                }
                let old_promo = if kind == Kind::King {
                    false
                } else {
                    !promo
                };
                let froms2 = source_squares(raw_child, to, kind, old_promo, Owner::Sente);
                proof {
                    lemma_sources(c.board, to as int, kind, old_promo, Owner::Sente);
                    lemma_capture_parents_len(c, to as int, kind, old_promo, froms2@);
                }
                let ghost cp = capture_parents(c, to as int, kind, old_promo, froms2@);
                push_capture_parents(raw_child, to, kind, old_promo, &froms2, candidates, ids);
                proof {
                    lemma_ranked_append(done, cp);
                    done = done + cp;
                    assert(done =~= sp);
                }
            } else {
                assert(ranked(sp) =~= Seq::<u32>::empty());
                assert(base + ranked(sp) =~= base);
            }
        },
        None => {
            assert(ranked(sp) =~= Seq::<u32>::empty());
            assert(base + ranked(sp) =~= base);
        },
    }
}

/// Every candidate parent of the Gote-to-move position `raw_child` (see
/// `unmove_parents`) is counted in `candidates`, and the canonical rank of each
/// rankable one is appended to `ids`.
fn predecessor_candidates_raw(raw_child: &Position, candidates: &mut u64, ids: &mut Vec<u32>)
    requires
        raw_child@.turn == Owner::Gote,
        hands_at_most(raw_child@, 2),
        *old(candidates) + 5000 <= u64::MAX,
    ensures
        final(ids)@ == old(ids)@ + ranked(unmove_parents(raw_child@, 20)),
        *final(candidates) == *old(candidates) + unmove_parents(raw_child@, 20).len(),
{
    let ghost c = raw_child@;
    let mut to: u8 = 0;
    while to < 20
        invariant
            to <= 20,
            c == raw_child@,
            hands_at_most(c, 2),
            *old(candidates) + 5000 <= u64::MAX,
            ids@ == old(ids)@ + ranked(unmove_parents(c, to as int)),
            *candidates == *old(candidates) + unmove_parents(c, to as int).len(),
        decreases 20 - to,
    {
        proof {
            lemma_unmove_len(c, to + 1);
            lemma_unmove_len(c, to as int);
        }
        let ghost pre = unmove_parents(c, to as int);
        let ghost sp = square_parents(c, to as int);
        proof {
            lemma_ranked_append(pre, sp);
        }
        push_square_parents(raw_child, to, candidates, ids);
        assert(unmove_parents(c, to + 1) == pre + sp);
        to += 1;
    }
}


pub open spec fn strictly_increasing(s: Seq<u32>) -> bool {
    forall|i: int, j: int| 0 <= i < j < s.len() ==> s[i] < s[j]
}

/// The distinct values of `v`, ascending.
fn sort_dedup(v: &Vec<u32>) -> (out: Vec<u32>)
    ensures
        strictly_increasing(out@),
        out@.to_set() == v@.to_set(),
        out@.len() <= v@.len(),
{
    let mut out: Vec<u32> = Vec::new();
    let mut k: usize = 0;
    while k < v.len()
        invariant
            k <= v@.len(),
            strictly_increasing(out@),
            forall|y: u32| out@.contains(y) <==> v@.take(k as int).contains(y),
            out@.len() <= k,
        decreases v@.len() - k,
    {
        let x = v[k];
        let mut i: usize = 0;
        while i < out.len() && out[i] < x
            invariant
                i <= out@.len(),
                forall|j: int| 0 <= j < i ==> out@[j] < x,
            decreases out@.len() - i,
        {
            i += 1;
        }
        let ghost before = out@;
        let ghost s0 = v@.take(k as int);
        let ghost s1 = v@.take(k + 1);
        proof {
            assert(s1 =~= s0.push(x));
        }
        if i < out.len() && out[i] == x {
            assert forall|y: u32| out@.contains(y) <==> s1.contains(y) by {
                if s1.contains(y) && y == x {
                    assert(out@[i as int] == y);
                }
                if s1.contains(y) && y != x {
                    let t = choose|t: int| 0 <= t < s1.len() && s1[t] == y;
                    assert(s0[t] == y);
                }
                if s0.contains(y) {
                    let t = choose|t: int| 0 <= t < s0.len() && s0[t] == y;
                    assert(s1[t] == y);
                }
            }
        } else {
            out.insert(i, x);
            proof {
                before.insert_ensures(i as int, x);
                assert forall|a: int, b: int| 0 <= a < b < out@.len() implies out@[a] < out@[b] by {
                    if b < i {
                    } else if b == i {
                    } else if a < i {
                        assert(out@[b] == before[b - 1]);
                        if i < before.len() {
                            assert(before[i as int] > x);
                            if b - 1 > i {
                                assert(before[i as int] < before[b - 1]);
                            }
                        }
                    } else if a == i {
                        assert(out@[b] == before[b - 1]);
                        assert(before[i as int] > x);
                        if b - 1 > i {
                            assert(before[i as int] < before[b - 1]);
                        }
                    } else {
                        assert(out@[a] == before[a - 1]);
                        assert(out@[b] == before[b - 1]);
                    }
                }
                assert forall|y: u32| out@.contains(y) <==> s1.contains(y) by {
                    if out@.contains(y) {
                        let t = choose|t: int| 0 <= t < out@.len() && out@[t] == y;
                        if t < i {
                            assert(before[t] == y);
                            assert(before.contains(y));
                        } else if t > i {
                            assert(before[t - 1] == y);
                            assert(before.contains(y));
                        }
                        if y != x {
                            assert(s0.contains(y));
                            let u = choose|u: int| 0 <= u < s0.len() && s0[u] == y;
                            assert(s1[u] == y);
                        } else {
                            assert(s1[k as int] == y);
                        }
                    }
                    if s1.contains(y) {
                        if y == x {
                            assert(out@[i as int] == y);
                        } else {
                            let t = choose|t: int| 0 <= t < s1.len() && s1[t] == y;
                            assert(s0[t] == y);
                            assert(before.contains(y));
                            let u = choose|u: int| 0 <= u < before.len() && before[u] == y;
                            if u < i {
                                assert(out@[u] == y);
                            } else {
                                assert(out@[u + 1] == y);
                            }
                        }
                    }
                }
            }
        }
        k += 1;
    }
    assert(v@.take(v@.len() as int) =~= v@);
    assert(out@.to_set() =~= v@.to_set());
    out
}

/// The predecessor ranks of one child rank, with the work it took.
#[derive(Debug)]
pub struct PredecessorIds {
    /// Distinct canonical ranks of the candidate parents, ascending.
    pub ids: Vec<u32>,
    /// Candidate parents generated, rankable or not.
    pub candidates: u64,
    /// Ranks generated more than once, counted with multiplicity.
    pub duplicates: u64,
}

/// The candidate parents of the position a rank names, generated from its
/// colour-swapped rotation (Gote to move) by undoing Sente's last move.
pub open spec fn pred_parents(child_id: int) -> Seq<PosView> {
    unmove_parents(rotate_swap_view(unrank_spec(child_id)), 20)
}

proof fn lemma_unrank_hands(id: int)
    requires
        0 <= id < domain_spec(),
    ensures
        hands_at_most(unrank_spec(id), 2),
        hands_at_most(rotate_swap_view(unrank_spec(id)), 2),
        unrank_spec(id).turn == Owner::Sente,
{
    lemma_decode_encode_id(id);
    let v = unrank_spec(id);
    assert forall|i: int| 0 <= i < 4 implies #[trigger] v.hand_sente[i] <= 2 && v.hand_gote[i] <= 2 by {}
}

/// The canonical ranks of the candidate parents of `child_id`, sorted and
/// deduplicated, with the number of candidates and of duplicate ranks.
pub fn predecessor_ids(child_id: u32) -> (r: PredecessorIds)
    requires
        child_id < domain_spec(),
    ensures
        strictly_increasing(r.ids@),
        r.ids@.to_set() == ranked(pred_parents(child_id as int)).to_set(),
        r.candidates == pred_parents(child_id as int).len(),
        r.duplicates == ranked(pred_parents(child_id as int)).len() - ranked(pred_parents(child_id as int)).to_set().len(),
        r.ids@.len() == ranked(pred_parents(child_id as int)).to_set().len(),
        r.ids@.len() <= ranked(pred_parents(child_id as int)).len() <= pred_parents(child_id as int).len() <= 4020,
        forall|k: int|
            0 <= k < r.ids@.len() ==> #[trigger] r.ids@[k] < domain_spec() && canonical_rank_spec(
                unrank_spec(r.ids@[k] as int),
            ) == Some(r.ids@[k]),
{
    proof {
        lemma_unrank_hands(child_id as int);
        lemma_unmove_len(rotate_swap_view(unrank_spec(child_id as int)), 20);
        lemma_ranked_len(pred_parents(child_id as int));
    }
    let child = unrank_raw_sente(child_id);
    let mut candidates: u64 = 0;
    let mut ids: Vec<u32> = Vec::new();
    let raw_child = rotate_swap_to_gote(&child);
    predecessor_candidates_raw(&raw_child, &mut candidates, &mut ids);
    assert(ids@ =~= ranked(pred_parents(child_id as int)));
    let ghost ids0 = ids@;
    let before = ids.len();
    let sorted = sort_dedup(&ids);
    let after = sorted.len();
    proof {
        lemma_increasing_set_len(sorted@);
        let rk = ranked(pred_parents(child_id as int));
        lemma_ranked_canonical(pred_parents(child_id as int));
        assert(ids0 == rk);
        assert(sorted@.to_set() == rk.to_set());
        assert forall|k: int| 0 <= k < sorted@.len() implies #[trigger] sorted@[k] < domain_spec() && canonical_rank_spec(
            unrank_spec(sorted@[k] as int),
        ) == Some(sorted@[k]) by {
            assert(sorted@.contains(sorted@[k]));
            assert(sorted@.to_set().contains(sorted@[k]));
            assert(rk.to_set().contains(sorted@[k]));
            let w = choose|w: int| 0 <= w < rk.len() && rk[w] == sorted@[k];
            assert(rk[w] < domain_spec());
        }
    }
    PredecessorIds { ids: sorted, candidates, duplicates: (before - after) as u64 }
}


// ---------------------------------------------------------------------------
// The KPG slice is closed under moves
// ---------------------------------------------------------------------------

pub open spec fn ind(b: bool) -> int {
    if b {
        1
    } else {
        0
    }
}

/// Changing one cell changes a count by what it removes and adds.
proof fn lemma_sw_update(b: Seq<Cell>, f: spec_fn(Cell) -> bool, q: int, x: Cell, n: int)
    requires
        0 <= q < 20,
        b.len() == 20,
        0 <= n <= 20,
    ensures
        squares_where(b.update(q, x), f, n).len() == squares_where(b, f, n).len() + if q < n {
            ind(f(x)) - ind(f(b[q]))
        } else {
            0
        },
    decreases n,
{
    if n > 0 {
        lemma_sw_update(b, f, q, x, n - 1);
    }
}

/// Number of squares in `n..20` whose cell satisfies `f`.
pub open spec fn count_from(b: Seq<Cell>, f: spec_fn(Cell) -> bool, n: int) -> int
    decreases 20 - n,
{
    if n >= 20 {
        0
    } else {
        ind(f(b[n])) + count_from(b, f, n + 1)
    }
}

proof fn lemma_count_split(b: Seq<Cell>, f: spec_fn(Cell) -> bool, n: int)
    requires
        0 <= n <= 20,
    ensures
        squares_where(b, f, n).len() + count_from(b, f, n) == squares_where(b, f, 20).len(),
    decreases 20 - n,
{
    if n < 20 {
        lemma_count_split(b, f, n + 1);
    }
}

/// Counting on the rotated, colour-swapped board counts on the board itself.
proof fn lemma_rotate_count(b: Seq<Cell>, f: spec_fn(Cell) -> bool, g: spec_fn(Cell) -> bool, n: int)
    requires
        b.len() == 20,
        0 <= n <= 20,
        forall|c: Cell| #[trigger] f(flip_cell(c)) == g(c),
    ensures
        squares_where(Seq::new(20, |s: int| flip_cell(b[19 - s])), f, n).len() == count_from(b, g, 20 - n),
    decreases n,
{
    if n > 0 {
        lemma_rotate_count(b, f, g, n - 1);
        let r = Seq::new(20, |s: int| flip_cell(b[19 - s]));
        assert(r[n - 1] == flip_cell(b[20 - n]));
        assert(f(flip_cell(b[20 - n])) == g(b[20 - n]));
    }
}

proof fn lemma_rotate_counts(b: Seq<Cell>)
    requires
        b.len() == 20,
    ensures
        ({
            let r = Seq::new(20, |s: int| flip_cell(b[19 - s]));
            &&& squares_where(r, has_kind(Kind::Gold), 20).len() == squares_where(b, has_kind(Kind::Gold), 20).len()
            &&& squares_where(r, has_kind(Kind::Pawn), 20).len() == squares_where(b, has_kind(Kind::Pawn), 20).len()
            &&& squares_where(r, has_king_of(Owner::Sente), 20).len() == squares_where(
                b,
                has_king_of(Owner::Gote),
                20,
            ).len()
            &&& squares_where(r, has_king_of(Owner::Gote), 20).len() == squares_where(
                b,
                has_king_of(Owner::Sente),
                20,
            ).len()
        }),
{
    assert forall|c: Cell| #[trigger] has_kind(Kind::Gold)(flip_cell(c)) == has_kind(Kind::Gold)(c) by {}
    assert forall|c: Cell| #[trigger] has_kind(Kind::Pawn)(flip_cell(c)) == has_kind(Kind::Pawn)(c) by {}
    assert forall|c: Cell| #[trigger] has_king_of(Owner::Sente)(flip_cell(c)) == has_king_of(Owner::Gote)(c) by {}
    assert forall|c: Cell| #[trigger] has_king_of(Owner::Gote)(flip_cell(c)) == has_king_of(Owner::Sente)(c) by {}
    lemma_rotate_count(b, has_kind(Kind::Gold), has_kind(Kind::Gold), 20);
    lemma_rotate_count(b, has_kind(Kind::Pawn), has_kind(Kind::Pawn), 20);
    lemma_rotate_count(b, has_king_of(Owner::Sente), has_king_of(Owner::Gote), 20);
    lemma_rotate_count(b, has_king_of(Owner::Gote), has_king_of(Owner::Sente), 20);
    lemma_count_split(b, has_kind(Kind::Gold), 0);
    lemma_count_split(b, has_kind(Kind::Pawn), 0);
    lemma_count_split(b, has_king_of(Owner::Sente), 0);
    lemma_count_split(b, has_king_of(Owner::Gote), 0);
}

/// The KPG slice with either side to move.
pub open spec fn kpg_any_turn(v: PosView) -> bool {
    kpg_valid(PosView { turn: Owner::Sente, ..v })
}

/// Turn folding keeps a position in the KPG slice.
proof fn lemma_rotate_kpg(w: PosView)
    requires
        kpg_any_turn(w),
        w.turn == Owner::Gote,
    ensures
        kpg_valid(canonical_turn_spec(w)),
{
    let b = w.board;
    let r = canonical_turn_spec(w);
    assert(r.board == Seq::new(20, |s: int| flip_cell(b[19 - s])));
    lemma_rotate_counts(b);
    assert forall|q: int| 0 <= q < 20 implies (#[trigger] r.board[q] matches Some(t) ==> t.0 == Kind::King || t.0
        == Kind::Gold || t.0 == Kind::Pawn) by {
        assert(r.board[q] == flip_cell(b[19 - q]));
        assert(PosView { turn: Owner::Sente, ..w }.board[19 - q] == b[19 - q]);
    }
}

/// A move of a KPG position that does not capture the enemy King can be made,
/// and the position after it (turn folded to Sente) is again a KPG position: no
/// token of the slice is lost or gained, and each side keeps its King.
pub proof fn lemma_kpg_closed(v: PosView, m: Move)
    requires
        kpg_valid(v),
        moves_spec(v).contains(m),
        !is_king_capture(v, m),
    ensures
        make_ok(v, m),
        kpg_valid(canonical_turn_spec(make_spec(v, m))),
        rank_defined(canonical_turn_spec(make_spec(v, m))),
{
    lemma_moves_shape(v);
    let i = choose|i: int| 0 <= i < moves_spec(v).len() && moves_spec(v)[i] == m;
    assert(move_shape(v, moves_spec(v)[i]));
    let b = v.board;
    let w = make_spec(v, m);
    let to = m.to as int;
    let placed_cell = Some((m.kind, m.promo, Owner::Sente));
    assert(v.hand_sente[0] <= 2 && v.hand_sente[3] <= 2);
    match m.from {
        Some(sq) => {
            let sq = sq as int;
            let b1 = b.update(sq, None);
            assert(b1[to] == b[to]);
            assert(w.board == b1.update(to, placed_cell));
            lemma_sw_update(b, has_kind(Kind::Gold), sq, None, 20);
            lemma_sw_update(b1, has_kind(Kind::Gold), to, placed_cell, 20);
            lemma_sw_update(b, has_kind(Kind::Pawn), sq, None, 20);
            lemma_sw_update(b1, has_kind(Kind::Pawn), to, placed_cell, 20);
            lemma_sw_update(b, has_king_of(Owner::Sente), sq, None, 20);
            lemma_sw_update(b1, has_king_of(Owner::Sente), to, placed_cell, 20);
            lemma_sw_update(b, has_king_of(Owner::Gote), sq, None, 20);
            lemma_sw_update(b1, has_king_of(Owner::Gote), to, placed_cell, 20);
            match b[to] {
                Some(t) => {
                    assert(t.0 != Kind::King);
                },
                None => {},
            }
            assert forall|q: int| 0 <= q < 20 implies (#[trigger] w.board[q] matches Some(t) ==> t.0 == Kind::King
                || t.0 == Kind::Gold || t.0 == Kind::Pawn) by {
                if q != to && q != sq {
                    assert(w.board[q] == b[q]);
                }
            }
        },
        None => {
            assert(w.board == b.update(to, placed_cell));
            lemma_sw_update(b, has_kind(Kind::Gold), to, placed_cell, 20);
            lemma_sw_update(b, has_kind(Kind::Pawn), to, placed_cell, 20);
            lemma_sw_update(b, has_king_of(Owner::Sente), to, placed_cell, 20);
            lemma_sw_update(b, has_king_of(Owner::Gote), to, placed_cell, 20);
            assert(m.kind == Kind::Gold || m.kind == Kind::Pawn);
            assert forall|q: int| 0 <= q < 20 implies (#[trigger] w.board[q] matches Some(t) ==> t.0 == Kind::King
                || t.0 == Kind::Gold || t.0 == Kind::Pawn) by {
                if q != to {
                    assert(w.board[q] == b[q]);
                }
            }
        },
    }
    assert(kpg_any_turn(w));
    lemma_rotate_kpg(w);
}


// ---------------------------------------------------------------------------
// KPG positions have few moves
// ---------------------------------------------------------------------------

proof fn lemma_ray_len(p: PosView, sq: int, kind: Kind, promo: bool, slider: bool, dr: int, df: int, n: int)
    requires
        0 <= sq < 20,
        -2 <= dr <= 2,
        -1 <= df <= 1,
        !(dr == 0 && df == 0),
        1 <= n <= 5,
    ensures
        ray_moves(p, sq, kind, promo, slider, dr, df, n).len() <= 5 - n,
    decreases 5 - n,
{
    if n == 5 {
        lemma_fifth_step_off_board(sq_rank(sq), sq_file(sq), dr, df);
    } else {
        lemma_ray_len(p, sq, kind, promo, slider, dr, df, n + 1);
    }
}

proof fn lemma_dirs_len(p: PosView, sq: int, kind: Kind, promo: bool, slider: bool, dirs: Seq<(i8, i8)>, n: int)
    requires
        0 <= sq < 20,
        0 <= n <= dirs.len(),
        forall|i: int|
            0 <= i < dirs.len() ==> {
                let d = #[trigger] dirs[i];
                &&& -2 <= d.0 <= 2
                &&& -1 <= d.1 <= 1
                &&& !(d.0 == 0 && d.1 == 0)
            },
    ensures
        dirs_moves(p, sq, kind, promo, slider, dirs, n).len() <= 4 * n,
    decreases n,
{
    if n > 0 {
        lemma_dirs_len(p, sq, kind, promo, slider, dirs, n - 1);
        let d = dirs[n - 1];
        lemma_ray_len(p, sq, kind, promo, slider, d.0 as int, d.1 as int, 1);
    }
}

pub open spec fn owned_by(o: Owner) -> spec_fn(Cell) -> bool {
    |c: Cell| c matches Some(t) && t.2 == o
}

/// Each own piece has at most 32 board moves.
proof fn lemma_squares_moves_len(p: PosView, n: int)
    requires
        0 <= n <= 20,
    ensures
        squares_moves(p, n).len() <= 32 * squares_where(p.board, owned_by(p.turn), n).len(),
    decreases n,
{
    if n > 0 {
        lemma_squares_moves_len(p, n - 1);
        match p.board[n - 1] {
            Some(c) => {
                if c.2 == p.turn {
                    let (slider, dirs) = movement_spec(c.0, c.1, c.2);
                    lemma_movement_dirs(c.0, c.1, c.2);
                    lemma_dirs_len(p, n - 1, c.0, c.1, slider, dirs, dirs.len() as int);
                    assert(owned_by(p.turn)(p.board[n - 1]));
                }
            },
            None => {},
        }
    }
}

proof fn lemma_square_drops_len(p: PosView, kind: Kind, n: int)
    requires
        0 <= n,
    ensures
        square_drops(p, kind, n).len() <= 2 * n,
    decreases n,
{
    if n > 0 {
        lemma_square_drops_len(p, kind, n - 1);
    }
}

proof fn lemma_hand_drops_len(p: PosView, n: int)
    requires
        0 <= n <= 4,
        hand_of(p, p.turn)[1] == 0,
        hand_of(p, p.turn)[2] == 0,
    ensures
        hand_drops(p, n).len() <= if n <= 0 {
            0int
        } else if n <= 3 {
            40int
        } else {
            80int
        },
    decreases n,
{
    if n > 0 {
        lemma_hand_drops_len(p, n - 1);
        lemma_square_drops_len(p, slot_kind(n - 1), 20);
    }
}

/// A count under `f` is at most the sum of counts under predicates covering it.
proof fn lemma_sw_cover(
    b: Seq<Cell>,
    f: spec_fn(Cell) -> bool,
    g1: spec_fn(Cell) -> bool,
    g2: spec_fn(Cell) -> bool,
    g3: spec_fn(Cell) -> bool,
    n: int,
)
    requires
        0 <= n,
        forall|q: int| 0 <= q < n ==> #[trigger] f(b[q]) ==> g1(b[q]) || g2(b[q]) || g3(b[q]),
    ensures
        squares_where(b, f, n).len() <= squares_where(b, g1, n).len() + squares_where(b, g2, n).len()
            + squares_where(b, g3, n).len(),
    decreases n,
{
    if n > 0 {
        lemma_sw_cover(b, f, g1, g2, g3, n - 1);
        if f(b[n - 1]) {
            assert(g1(b[n - 1]) || g2(b[n - 1]) || g3(b[n - 1]));
        }
    }
}

/// A KPG position has at most 240 moves.
pub proof fn lemma_kpg_moves_len(v: PosView)
    requires
        kpg_valid(v),
    ensures
        moves_spec(v).len() <= 240,
{
    let b = v.board;
    lemma_squares_moves_len(v, 20);
    lemma_hand_drops_len(v, 4);
    assert forall|q: int| 0 <= q < 20 && #[trigger] owned_by(Owner::Sente)(b[q]) implies has_king_of(Owner::Sente)(
        b[q],
    ) || has_kind(Kind::Gold)(b[q]) || has_kind(Kind::Pawn)(b[q]) by {
        assert(b[q] matches Some(t) ==> t.0 == Kind::King || t.0 == Kind::Gold || t.0 == Kind::Pawn);
    }
    lemma_sw_cover(b, owned_by(Owner::Sente), has_king_of(Owner::Sente), has_kind(Kind::Gold), has_kind(Kind::Pawn), 20);
}


// ---------------------------------------------------------------------------
// Checking predecessors against forward moves
// ---------------------------------------------------------------------------

/// A canonical rank is a rank in the domain.
proof fn lemma_canonical_rank_below(v: PosView)
    ensures
        canonical_rank_spec(v) matches Some(r) ==> r < domain_spec(),
{
    reveal(canonical_rank_spec);
    let q = canonical_turn_spec(v);
    if kpg_valid(q) {
        lemma_rank_unrank(0, q);
        if q.board.len() == 20 {
            lemma_mirror_kpg(q);
        }
        lemma_rank_unrank(0, mirror_view(q));
        lemma_sizes();
    }
}

proof fn lemma_mirror_normalize(v: PosView)
    requires
        v.board.len() == 20,
    ensures
        mirror_view(normalize(v)) == normalize(mirror_view(v)),
{
    assert(mirror_view(normalize(v)).board =~= normalize(mirror_view(v)).board) by {
        assert forall|s: int| 0 <= s < 20 implies mirror_view(normalize(v)).board[s] == normalize(mirror_view(v)).board[s] by {
            crate::packing::lemma_mirror_sq(s);
        }
    }
}

/// A canonical rank names a position whose canonical rank it is.
pub proof fn lemma_canonical_rank_fixed(v: PosView)
    ensures
        canonical_rank_spec(v) matches Some(r) ==> r < domain_spec() && canonical_rank_spec(unrank_spec(r as int))
            == Some(r),
{
    reveal(canonical_rank_spec);
    lemma_canonical_rank_below(v);
    let q = canonical_turn_spec(v);
    if kpg_valid(q) {
        let m = mirror_view(q);
        lemma_mirror_kpg(q);
        lemma_rank_unrank(0, q);
        lemma_rank_unrank(0, m);
        lemma_mirror_involution(q);
        lemma_mirror_normalize(q);
        lemma_mirror_normalize(m);
        let rq = rank_id(q);
        let rm = rank_id(m);
        lemma_rank_unrank(rq, q);
        lemma_rank_unrank(rm, m);
        lemma_sizes();
        let u = if rq <= rm {
            normalize(q)
        } else {
            normalize(m)
        };
        assert(canonical_turn_spec(u) == u);
        assert(kpg_valid(u));
    }
}

/// Every rank in `ranked(ps)` is a canonical rank.
proof fn lemma_ranked_canonical(ps: Seq<PosView>)
    ensures
        forall|i: int|
            0 <= i < ranked(ps).len() ==> #[trigger] ranked(ps)[i] < domain_spec() && canonical_rank_spec(
                unrank_spec(ranked(ps)[i] as int),
            ) == Some(ranked(ps)[i]),
    decreases ps.len(),
{
    if ps.len() > 0 {
        lemma_ranked_canonical(ps.drop_last());
        lemma_canonical_rank_fixed(ps.last());
        let pre = ranked(ps.drop_last());
        assert forall|i: int| 0 <= i < ranked(ps).len() implies #[trigger] ranked(ps)[i] < domain_spec()
            && canonical_rank_spec(unrank_spec(ranked(ps)[i] as int)) == Some(ranked(ps)[i]) by {
            if i < pre.len() {
                assert(ranked(ps)[i] == pre[i]);
            }
        }
    }
}

proof fn lemma_ranked_below(ps: Seq<PosView>)
    ensures
        forall|i: int| 0 <= i < ranked(ps).len() ==> #[trigger] ranked(ps)[i] < domain_spec(),
    decreases ps.len(),
{
    if ps.len() > 0 {
        lemma_ranked_below(ps.drop_last());
        lemma_canonical_rank_below(ps.last());
        let pre = ranked(ps.drop_last());
        assert forall|i: int| 0 <= i < ranked(ps).len() implies #[trigger] ranked(ps)[i] < domain_spec() by {
            if i < pre.len() {
                assert(ranked(ps)[i] == pre[i]);
            }
        }
    }
}

proof fn lemma_filter_step(s: Seq<u32>, k: int, f: spec_fn(u32) -> bool)
    requires
        0 <= k < s.len(),
    ensures
        s.take(k + 1).filter(f) == s.take(k).filter(f) + if f(s[k]) {
            seq![s[k]]
        } else {
            seq![]
        },
{
    reveal(Seq::filter);
    assert(s.take(k + 1).drop_last() =~= s.take(k));
    assert(s.take(k).filter(f).push(s[k]) =~= s.take(k).filter(f) + seq![s[k]]);
    assert(s.take(k).filter(f) + seq![] =~= s.take(k).filter(f));
}

/// The position `v` has a move, not capturing the King, to a position of
/// canonical rank `cid`.
pub open spec fn leads_to(v: PosView, cid: u32) -> bool {
    exists|i: int|
        0 <= i < moves_spec(v).len() && !is_king_capture(v, #[trigger] moves_spec(v)[i]) && canonical_rank_spec(
            make_spec(v, moves_spec(v)[i]),
        ) == Some(cid)
}

fn has_move_to(parent: &Position, child_id: u32) -> (b: bool)
    requires
        kpg_valid(parent@),
    ensures
        b == leads_to(parent@, child_id),
{
    let moves = parent.moves();
    let mut i: usize = 0;
    while i < moves.len()
        invariant
            i <= moves@.len(),
            kpg_valid(parent@),
            moves@ == moves_spec(parent@),
            forall|j: int|
                0 <= j < i ==> !(!is_king_capture(parent@, #[trigger] moves_spec(parent@)[j]) && canonical_rank_spec(
                    make_spec(parent@, moves_spec(parent@)[j]),
                ) == Some(child_id)),
        decreases moves@.len() - i,
    {
        let m = moves[i];
        proof {
            crate::rules::lemma_moves_in_range(parent@);
            assert(crate::rules::move_in_range(moves_spec(parent@)[i as int]));
        }
        if !parent.is_terminal_win_move(&m) {
            proof {
                assert(moves_spec(parent@).contains(m));
                lemma_kpg_closed(parent@, m);
            }
            let child = parent.make(&m);
            if rank_canonical(&child) == Some(child_id) {
                return true;
            }
        }
        i += 1;
    }
    false
}

/// `predecessor_ids` restricted to the ranks whose position really has a move
/// to `child_id`.
pub fn predecessor_ids_verified(child_id: u32) -> (r: PredecessorIds)
    requires
        child_id < domain_spec(),
    ensures
        strictly_increasing(r.ids@),
        r.ids@.to_set() == ranked(pred_parents(child_id as int)).to_set().filter(
            |pid: u32| leads_to(unrank_spec(pid as int), child_id),
        ),
        r.candidates == pred_parents(child_id as int).len(),
        r.duplicates == ranked(pred_parents(child_id as int)).len() - ranked(pred_parents(child_id as int)).to_set().len(),
{
    let preds = predecessor_ids(child_id);
    let ghost all = preds.ids@;
    proof {
        lemma_ranked_below(pred_parents(child_id as int));
        assert forall|i: int| 0 <= i < all.len() implies #[trigger] all[i] < domain_spec() by {
            assert(all.to_set().contains(all[i]));
            assert(ranked(pred_parents(child_id as int)).contains(all[i]));
        }
    }
    let mut kept: Vec<u32> = Vec::new();
    let mut k: usize = 0;
    while k < preds.ids.len()
        invariant
            k <= all.len(),
            all == preds.ids@,
            strictly_increasing(all),
            forall|i: int| 0 <= i < all.len() ==> #[trigger] all[i] < domain_spec(),
            child_id < domain_spec(),
            kept@ == all.take(k as int).filter(|pid: u32| leads_to(unrank_spec(pid as int), child_id)),
        decreases all.len() - k,
    {
        let pid = preds.ids[k];
        proof {
            lemma_rank_unrank(pid as int, unrank_spec(0));
            lemma_filter_step(all, k as int, |pid: u32| leads_to(unrank_spec(pid as int), child_id));
        }
        let parent = unrank_raw_sente(pid);
        if has_move_to(&parent, child_id) {
            kept.push(pid);
        }
        k += 1;
    }
    proof {
        assert(all.take(all.len() as int) =~= all);
        lemma_filter_increasing(all, |pid: u32| leads_to(unrank_spec(pid as int), child_id));
        assert(kept@.to_set() =~= all.to_set().filter(|pid: u32| leads_to(unrank_spec(pid as int), child_id)));
    }
    PredecessorIds { ids: kept, candidates: preds.candidates, duplicates: preds.duplicates }
}


/// A strictly increasing sequence has as many elements as its set.
proof fn lemma_increasing_set_len(s: Seq<u32>)
    requires
        strictly_increasing(s),
    ensures
        s.to_set().len() == s.len(),
{
    assert(s.no_duplicates()) by {
        assert forall|i: int, j: int| 0 <= i < s.len() && 0 <= j < s.len() && i != j implies s[i] != s[j] by {
            if i < j {
                assert(s[i] < s[j]);
            } else {
                assert(s[j] < s[i]);
            }
        }
    }
    s.unique_seq_to_set();
}

/// Filtering keeps a sequence strictly increasing, and filters its set.
proof fn lemma_filter_increasing(s: Seq<u32>, f: spec_fn(u32) -> bool)
    requires
        strictly_increasing(s),
    ensures
        strictly_increasing(s.filter(f)),
        s.filter(f).to_set() == s.to_set().filter(f),
    decreases s.len(),
{
    reveal(Seq::filter);
    if s.len() > 0 {
        let d = s.drop_last();
        lemma_filter_increasing(d, f);
        let df = d.filter(f);
        assert forall|i: int| 0 <= i < df.len() implies df[i] < s.last() by {
            assert(df.contains(df[i]));
            d.lemma_filter_contains_rev(f, df[i]);
            let j = choose|j: int| 0 <= j < d.len() && d[j] == df[i];
            assert(s[j] < s[s.len() - 1]);
        }
    }
    assert forall|x: u32| s.filter(f).to_set().contains(x) == s.to_set().filter(f).contains(x) by {
        if s.filter(f).contains(x) {
            s.lemma_filter_contains_rev(f, x);
            let i = choose|i: int| 0 <= i < s.filter(f).len() && s.filter(f)[i] == x;
            s.lemma_filter_pred(f, i);
        }
        if s.contains(x) && f(x) {
            let i = choose|i: int| 0 <= i < s.len() && s[i] == x;
            s.lemma_filter_contains(f, i);
        }
    }
    assert(s.filter(f).to_set() =~= s.to_set().filter(f));
}


// ---------------------------------------------------------------------------
// Auditing a value table
// ---------------------------------------------------------------------------

/// The canonical rank of the position after `m` (0 where there is none).
pub open spec fn child_rank(v: PosView, m: Move) -> u32 {
    match canonical_rank_spec(make_spec(v, m)) {
        Some(r) => r,
        None => 0,
    }
}

/// Values lie where one more ply cannot overflow an `i16`.
pub open spec fn values_bounded(values: Seq<i16>) -> bool {
    forall|i: int| 0 <= i < values.len() ==> -32766 <= #[trigger] values[i] <= 32766
}

/// Over the first `n` moves of `v`: the shortest win found among the children
/// (a child lost in `d` plies), the longest loss (a child won in that many
/// plies), and whether some child is drawn.
pub open spec fn child_summary(v: PosView, values: Seq<i16>, n: int) -> (Option<int>, int, bool)
    decreases n,
{
    if n <= 0 {
        (None, 0, false)
    } else {
        let (best, worst, draw) = child_summary(v, values, n - 1);
        let cv = values[child_rank(v, moves_spec(v)[n - 1]) as int] as int;
        if cv < 0 {
            let d = -cv;
            (
                Some(
                    match best {
                        Some(b) => if b <= d {
                            b
                        } else {
                            d
                        },
                        None => d,
                    },
                ),
                worst,
                draw,
            )
        } else if cv > 0 {
            (best, if worst >= cv {
                worst
            } else {
                cv
            }, draw)
        } else {
            (best, worst, true)
        }
    }
}

/// The value a position must have given its children's values: 1 with a King
/// capture at hand, -2 with no move, else a win one ply longer than the shortest
/// win, a draw when some child is drawn, or a loss one ply longer than the
/// longest loss.
pub open spec fn expected_value(v: PosView, values: Seq<i16>) -> int {
    if has_king_capture(v) {
        1
    } else if moves_spec(v).len() == 0 {
        -2
    } else {
        let (best, worst, draw) = child_summary(v, values, moves_spec(v).len() as int);
        match best {
            Some(d) => d + 1,
            None => if draw {
                0
            } else {
                -(worst + 1)
            },
        }
    }
}

/// Every child rank of `v` has a value in `values`, small enough for one more ply.
pub open spec fn children_readable(v: PosView, values: Seq<i16>) -> bool {
    forall|i: int|
        0 <= i < moves_spec(v).len() ==> child_rank(v, #[trigger] moves_spec(v)[i]) < values.len() && -32766 <= values[child_rank(
            v,
            moves_spec(v)[i],
        ) as int] <= 32766
}

/// Every reachable rank has a value, and so has every child of a reachable
/// rank whose side to move has no King capture at hand.
pub open spec fn audit_readable(reach: Set<int>, values: Seq<i16>) -> bool {
    forall|id: int|
        0 <= id < domain_spec() && #[trigger] reach.contains(id) ==> id < values.len() && (!has_king_capture(
            unrank_spec(id),
        ) ==> children_readable(unrank_spec(id), values))
}

/// A full table of small values can be read wherever the audit reads.
pub proof fn lemma_bounded_readable(reach: Set<int>, values: Seq<i16>)
    requires
        values.len() >= domain_spec(),
        values_bounded(values),
    ensures
        audit_readable(reach, values),
{
    assert forall|id: int| 0 <= id < domain_spec() && #[trigger] reach.contains(id) implies id < values.len() && (
    !has_king_capture(unrank_spec(id)) ==> children_readable(unrank_spec(id), values)) by {
        if !has_king_capture(unrank_spec(id)) {
            let v = unrank_spec(id);
            lemma_rank_unrank(id, unrank_spec(0));
            assert forall|i: int| 0 <= i < moves_spec(v).len() implies child_rank(v, #[trigger] moves_spec(v)[i])
                < values.len() && -32766 <= values[child_rank(v, moves_spec(v)[i]) as int] <= 32766 by {
                let m = moves_spec(v)[i];
                assert(moves_spec(v).contains(m));
                lemma_kpg_closed(v, m);
                lemma_canonical_rank_below(make_spec(v, m));
                reveal(canonical_rank_spec);
            }
        }
    }
}

proof fn lemma_summary_bounds(v: PosView, values: Seq<i16>, n: int)
    requires
        children_readable(v, values),
        kpg_valid(v),
        !has_king_capture(v),
        0 <= n <= moves_spec(v).len(),
    ensures
        ({
            let (best, worst, draw) = child_summary(v, values, n);
            &&& (best matches Some(d) ==> 1 <= d <= 32766)
            &&& 0 <= worst <= 32766
        }),
    decreases n,
{
    if n > 0 {
        lemma_summary_bounds(v, values, n - 1);
        let m = moves_spec(v)[n - 1];
        assert(-32766 <= values[child_rank(v, m) as int] <= 32766);
    }
}

fn position_expected(p: &Position, values: &[i16]) -> (r: i16)
    requires
        kpg_valid(p@),
        !has_king_capture(p@) ==> children_readable(p@, values@),
    ensures
        r == expected_value(p@, values@),
{
    let moves = p.moves();
    proof {
        crate::rules::lemma_moves_in_range(p@);
    }
    let mut i: usize = 0;
    let mut has_win = false;
    while i < moves.len()
        invariant
            i <= moves@.len(),
            moves@ == moves_spec(p@),
            crate::rules::all_in_range(moves@),
            has_win == exists|j: int| 0 <= j < i && is_king_capture(p@, #[trigger] moves_spec(p@)[j]),
        decreases moves@.len() - i,
    {
        assert(crate::rules::move_in_range(moves@[i as int]));
        if p.is_terminal_win_move(&moves[i]) {
            has_win = true;
        }
        i += 1;
    }
    if has_win {
        return 1;
    }
    if moves.len() == 0 {
        return -2;
    }
    let mut best_win: Option<i16> = None;
    let mut worst_loss: i16 = 0;
    let mut any_draw = false;
    let mut k: usize = 0;
    while k < moves.len()
        invariant
            k <= moves@.len(),
            moves@ == moves_spec(p@),
            kpg_valid(p@),
            !has_king_capture(p@),
            children_readable(p@, values@),
            child_summary(p@, values@, k as int) == (
                match best_win {
                    Some(b) => Some(b as int),
                    None => None,
                },
                worst_loss as int,
                any_draw,
            ),
        decreases moves@.len() - k,
    {
        let m = moves[k];
        proof {
            assert(moves_spec(p@).contains(m));
            lemma_kpg_closed(p@, m);
            lemma_summary_bounds(p@, values@, k as int);
            lemma_canonical_rank_below(make_spec(p@, m));
        }
        let child = p.make(&m);
        let cid = match rank_canonical(&child) {
            Some(c) => c,
            None => {
                proof {
                    reveal(canonical_rank_spec);
                }
                0
            },
        };
        proof {
            reveal(canonical_rank_spec);
        }
        let cv = values[cid as usize];
        if cv < 0 {
            let d = -cv;
            best_win = Some(
                match best_win {
                    Some(b) => if b <= d {
                        b
                    } else {
                        d
                    },
                    None => d,
                },
            );
        } else if cv > 0 {
            if cv > worst_loss {
                worst_loss = cv;
            }
        } else {
            any_draw = true;
        }
        k += 1;
    }
    proof {
        lemma_summary_bounds(p@, values@, moves@.len() as int);
    }
    match best_win {
        Some(d) => d + 1,
        None => if any_draw {
            0
        } else {
            -(worst_loss + 1)
        },
    }
}

/// Number of reachable ranks below `n` whose value disagrees with its children.
pub open spec fn bad_count(reach: Set<int>, values: Seq<i16>, n: int) -> int
    decreases n,
{
    if n <= 0 {
        0
    } else {
        bad_count(reach, values, n - 1) + if reach.contains(n - 1) && values[n - 1] as int != expected_value(
            unrank_spec(n - 1),
            values,
        ) {
            1int
        } else {
            0int
        }
    }
}

proof fn lemma_bad_count_le(reach: Set<int>, values: Seq<i16>, n: int)
    requires
        0 <= n,
    ensures
        0 <= bad_count(reach, values, n) <= n,
    decreases n,
{
    if n > 0 {
        lemma_bad_count_le(reach, values, n - 1);
    }
}

/// The number of reachable ranks whose stored value is not the one their
/// children's values give it.
pub fn audit_dense(reachable: &BitSet, values: &[i16]) -> (bad: u64)
    requires
        reachable.capacity() >= domain_spec(),
        audit_readable(reachable@, values@),
    ensures
        bad == bad_count(reachable@, values@, domain_spec()),
{
    let domain = domain_size();
    let mut bad: u64 = 0;
    let mut id: u32 = 0;
    while id < domain
        invariant
            domain == domain_spec(),
            id <= domain,
            reachable.capacity() >= domain_spec(),
            audit_readable(reachable@, values@),
            bad == bad_count(reachable@, values@, id as int),
        decreases domain - id,
    {
        proof {
            lemma_bad_count_le(reachable@, values@, id as int);
        }
        if reachable.get(id) {
            proof {
                lemma_rank_unrank(id as int, unrank_spec(0));
            }
            let p = unrank_raw_sente(id);
            let v = values[id as usize];
            let expected = position_expected(&p, values);
            if v != expected {
                bad += 1;
            }
        }
        id += 1;
    }
    bad
}


// ---------------------------------------------------------------------------
// Solving the KPG slice: enumeration
// ---------------------------------------------------------------------------

/// The position of rank `id` is searched further: its side to move cannot
/// capture the King.
#[verifier::opaque]
pub open spec fn expands(id: u32) -> bool {
    !has_king_capture(unrank_spec(id as int))
}

/// `cid` is the canonical rank of a position one move after the position of rank `pid`.
#[verifier::opaque]
pub open spec fn is_child(pid: u32, cid: u32) -> bool {
    let v = unrank_spec(pid as int);
    exists|i: int| 0 <= i < moves_spec(v).len() && child_rank(v, #[trigger] moves_spec(v)[i]) == cid
}

/// Does any of `moves` (the moves of `p`) capture the King?
pub(crate) fn any_king_capture(p: &Position, moves: &Vec<Move>) -> (b: bool)
    requires
        moves@ == moves_spec(p@),
    ensures
        b == has_king_capture(p@),
{
    proof {
        crate::rules::lemma_moves_in_range(p@);
    }
    let mut i: usize = 0;
    while i < moves.len()
        invariant
            i <= moves@.len(),
            moves@ == moves_spec(p@),
            crate::rules::all_in_range(moves@),
            forall|j: int| 0 <= j < i ==> !is_king_capture(p@, #[trigger] moves_spec(p@)[j]),
        decreases moves@.len() - i,
    {
        assert(crate::rules::move_in_range(moves@[i as int]));
        if p.is_terminal_win_move(&moves[i]) {
            return true;
        }
        i += 1;
    }
    false
}

/// The child rank after a move of a KPG position that does not capture the King.
fn child_rank_of(p: &Position, m: &Move) -> (cid: u32)
    requires
        kpg_valid(p@),
        moves_spec(p@).contains(*m),
        !is_king_capture(p@, *m),
    ensures
        cid == child_rank(p@, *m),
        cid < domain_spec(),
        canonical_rank_spec(make_spec(p@, *m)) == Some(cid),
{
    proof {
        lemma_kpg_closed(p@, *m);
        lemma_canonical_rank_below(make_spec(p@, *m));
        reveal(canonical_rank_spec);
    }
    let child = p.make(m);
    match rank_canonical(&child) {
        Some(c) => c,
        None => 0,
    }
}

/// Every rank of `ids` is in the domain, once.
pub open spec fn ranks_listed_once(ids: Seq<u32>) -> bool {
    &&& ids.no_duplicates()
    &&& forall|i: int| 0 <= i < ids.len() ==> #[trigger] ids[i] < domain_spec()
}

/// The breadth-first search state: the listed ranks, once each, and the set of them.
#[verifier::opaque]
pub open spec fn bfs_state(reach: Set<int>, ids: Seq<u32>) -> bool {
    &&& ranks_listed_once(ids)
    &&& forall|q: int| #[trigger] reach.contains(q) <==> (0 <= q < domain_spec() && ids.contains(q as u32))
    &&& reach.finite()
    &&& reach.len() == ids.len()
    &&& reach.subset_of(set_int_range(0, domain_spec()))
}

/// Each listed rank but the first is a child of an earlier rank searched further.
#[verifier::opaque]
pub open spec fn bfs_origins(ids: Seq<u32>) -> bool {
    forall|k: int| 1 <= k < ids.len() ==> #[trigger] has_origin(ids, k)
}

/// Some rank listed before the `k`-th is searched further and has it as a child.
pub open spec fn has_origin(ids: Seq<u32>, k: int) -> bool {
    exists|j: int| 0 <= j < k && expands(#[trigger] ids[j]) && is_child(ids[j], ids[k])
}

/// The children of the first `h` listed ranks that are searched further are listed.
#[verifier::opaque]
pub open spec fn bfs_closed(ids: Seq<u32>, h: int) -> bool {
    forall|j: int, t: int|
        0 <= j < h && expands(ids[j]) && 0 <= t < moves_spec(unrank_spec(ids[j] as int)).len() ==> ids.contains(
            #[trigger] child_rank(unrank_spec(ids[j] as int), moves_spec(unrank_spec(ids[j] as int))[t]),
        )
}

proof fn lemma_bfs_start(start_id: u32)
    requires
        start_id < domain_spec(),
    ensures
        bfs_state(Set::empty().insert(start_id as int), seq![start_id]),
        bfs_origins(seq![start_id]),
        bfs_closed(seq![start_id], 0),
{
    reveal(bfs_state);
    reveal(bfs_origins);
    reveal(bfs_closed);
    lemma_sizes();
    let ids = seq![start_id];
    assert forall|q: int| #[trigger] Set::<int>::empty().insert(start_id as int).contains(q) <==> (0 <= q < domain_spec()
        && ids.contains(q as u32)) by {
        if q == start_id as int {
            assert(ids[0] == start_id);
        }
        if 0 <= q < domain_spec() && ids.contains(q as u32) {
            assert(q as u32 as int == q);
            assert(ids[0] == q as u32);
        }
    }
}

proof fn lemma_bfs_len(reach: Set<int>, ids: Seq<u32>)
    requires
        bfs_state(reach, ids),
    ensures
        ids.len() <= domain_spec(),
        ranks_listed_once(ids),
        forall|q: int| #[trigger] reach.contains(q) <==> (0 <= q < domain_spec() && ids.contains(q as u32)),
{
    reveal(bfs_state);
    lemma_int_range(0, domain_spec());
    lemma_len_subset(reach, set_int_range(0, domain_spec()));
}

proof fn lemma_bfs_push_state(reach: Set<int>, ids: Seq<u32>, cid: u32)
    requires
        bfs_state(reach, ids),
        !reach.contains(cid as int),
        cid < domain_spec(),
    ensures
        bfs_state(reach.insert(cid as int), ids.push(cid)),
{
    reveal(bfs_state);
    lemma_sizes();
    let n = ids.push(cid);
    assert(!ids.contains(cid));
    assert forall|q: int| #[trigger] reach.insert(cid as int).contains(q) <==> (0 <= q < domain_spec() && n.contains(
        q as u32,
    )) by {
        if 0 <= q < domain_spec() && n.contains(q as u32) && q != cid as int {
            let w = choose|w: int| 0 <= w < n.len() && n[w] == q as u32;
            if w < ids.len() {
                assert(ids[w] == q as u32);
                assert(ids.contains(q as u32));
            } else {
                assert(n[w] == cid);
            }
        }
        if q == cid as int {
            assert(n[ids.len() as int] == cid);
        }
        if reach.contains(q) {
            assert(ids.contains(q as u32));
            let w = choose|w: int| 0 <= w < ids.len() && ids[w] == q as u32;
            assert(n[w] == q as u32);
        }
    }
    assert(n.no_duplicates()) by {
        assert forall|a: int, b: int| 0 <= a < n.len() && 0 <= b < n.len() && a != b implies n[a] != n[b] by {
            if a < ids.len() && b < ids.len() {
                assert(ids[a] == n[a] && ids[b] == n[b]);
            } else if a == ids.len() {
                assert(ids.contains(n[b]));
            } else {
                assert(ids.contains(n[a]));
            }
        }
    }
    assert forall|q: int| 0 <= q < n.len() implies #[trigger] n[q] < domain_spec() by {
        if q < ids.len() {
            assert(n[q] == ids[q]);
        }
    }
}

/// Listing a new child keeps the search state.
proof fn lemma_bfs_push(reach: Set<int>, ids: Seq<u32>, h: int, pi: int, cid: u32)
    requires
        bfs_state(reach, ids),
        bfs_origins(ids),
        bfs_closed(ids, h),
        !reach.contains(cid as int),
        cid < domain_spec(),
        0 <= h <= ids.len(),
        0 <= pi < ids.len(),
        expands(ids[pi]),
        is_child(ids[pi], cid),
    ensures
        bfs_state(reach.insert(cid as int), ids.push(cid)),
        bfs_origins(ids.push(cid)),
        bfs_closed(ids.push(cid), h),
        forall|c: u32| ids.contains(c) ==> #[trigger] ids.push(cid).contains(c),
{
    lemma_bfs_push_state(reach, ids, cid);
    reveal(bfs_origins);
    reveal(bfs_closed);
    let n = ids.push(cid);
    assert forall|c: u32| ids.contains(c) implies #[trigger] n.contains(c) by {
        let w = choose|w: int| 0 <= w < ids.len() && ids[w] == c;
        assert(n[w] == c);
    }
    assert forall|k: int| 1 <= k < n.len() implies #[trigger] has_origin(n, k) by {
        if k < ids.len() {
            assert(has_origin(ids, k));
            let j = choose|j: int| 0 <= j < k && expands(#[trigger] ids[j]) && is_child(ids[j], ids[k]);
            assert(n[j] == ids[j] && n[k] == ids[k]);
            assert(0 <= j < k && expands(n[j]) && is_child(n[j], n[k]));
        } else {
            assert(n[pi] == ids[pi]);
            assert(n[k] == cid);
            assert(0 <= pi < k && expands(n[pi]) && is_child(n[pi], n[k]));
        }
    }
    assert(bfs_origins(n));
    assert forall|j: int, t: int|
        0 <= j < h && expands(n[j]) && 0 <= t < moves_spec(unrank_spec(n[j] as int)).len() implies n.contains(
        #[trigger] child_rank(unrank_spec(n[j] as int), moves_spec(unrank_spec(n[j] as int))[t]),
    ) by {
        assert(n[j] == ids[j]);
    }
}

/// The search of a rank whose children are all listed moves the closed prefix on.
proof fn lemma_bfs_advance(ids: Seq<u32>, h: int)
    requires
        bfs_closed(ids, h),
        0 <= h < ids.len(),
        expands(ids[h]) ==> forall|t: int|
            0 <= t < moves_spec(unrank_spec(ids[h] as int)).len() ==> ids.contains(
                #[trigger] child_rank(unrank_spec(ids[h] as int), moves_spec(unrank_spec(ids[h] as int))[t]),
            ),
    ensures
        bfs_closed(ids, h + 1),
{
    reveal(bfs_closed);
}

/// The ranks reachable from `start_id`, in breadth-first order, and the set of
/// them: the first is `start_id`, each later one is a child of an earlier one
/// that is searched further, and every child of a rank searched further is listed.
pub fn enumerate_dense(start_id: u32) -> (r: (BitSet, Vec<u32>))
    requires
        start_id < domain_spec(),
    ensures
        r.0.capacity() >= domain_spec(),
        r.1@.len() >= 1,
        r.1@[0] == start_id,
        r.1@.len() <= domain_spec(),
        ranks_listed_once(r.1@),
        forall|i: int| #[trigger] r.0@.contains(i) <==> (0 <= i < domain_spec() && r.1@.contains(i as u32)),
        bfs_origins(r.1@),
        bfs_closed(r.1@, r.1@.len() as int),
{
    let domain = domain_size();
    let mut reachable = BitSet::new(domain as usize);
    let mut ids: Vec<u32> = Vec::new();
    reachable.set(start_id);
    ids.push(start_id);
    proof {
        assert(reachable@ =~= Set::empty().insert(start_id as int));
        assert(ids@ =~= seq![start_id]);
        lemma_bfs_start(start_id);
    }
    let mut head: usize = 0;
    while head < ids.len()
        invariant
            domain == domain_spec(),
            reachable.capacity() >= domain_spec(),
            1 <= ids@.len(),
            ids@[0] == start_id,
            head <= ids@.len(),
            bfs_state(reachable@, ids@),
            bfs_origins(ids@),
            bfs_closed(ids@, head as int),
        decreases domain_spec() - ids@.len(), ids@.len() - head,
    {
        proof {
            lemma_bfs_len(reachable@, ids@);
        }
        let id = ids[head];
        proof {
            lemma_rank_unrank(id as int, unrank_spec(0));
        }
        let p = unrank_raw_sente(id);
        let moves = p.moves();
        let win = any_king_capture(&p, &moves);
        proof {
            reveal(expands);
        }
        if win {
            proof {
                lemma_bfs_advance(ids@, head as int);
            }
            head += 1;
            continue;
        }
        let ghost before = ids@;
        let mut i: usize = 0;
        while i < moves.len()
            invariant
                domain == domain_spec(),
                reachable.capacity() >= domain_spec(),
                1 <= ids@.len(),
                ids@[0] == start_id,
                head < before.len() <= ids@.len(),
                ids@[head as int] == id,
                p@ == unrank_spec(id as int),
                kpg_valid(p@),
                expands(id),
                moves@ == moves_spec(p@),
                i <= moves@.len(),
                bfs_state(reachable@, ids@),
                bfs_origins(ids@),
                bfs_closed(ids@, head as int),
                forall|t: int| 0 <= t < i ==> ids@.contains(#[trigger] child_rank(p@, moves_spec(p@)[t])),
            decreases moves@.len() - i,
        {
            let m = moves[i];
            proof {
                assert(moves_spec(p@).contains(m));
                lemma_bfs_len(reachable@, ids@);
                reveal(expands);
                assert(!is_king_capture(p@, moves_spec(p@)[i as int]));
            }
            let cid = child_rank_of(&p, &m);
            if !reachable.get(cid) {
                proof {
                    assert(is_child(ids@[head as int], cid)) by {
                        reveal(is_child);
                        assert(child_rank(p@, moves_spec(p@)[i as int]) == cid);
                    }
                    lemma_bfs_push(reachable@, ids@, head as int, head as int, cid);
                }
                let ghost old_ids = ids@;
                reachable.set(cid);
                ids.push(cid);
                proof {
                    assert(ids@[old_ids.len() as int] == cid);
                    assert forall|t: int| 0 <= t < i + 1 implies ids@.contains(#[trigger] child_rank(p@, moves_spec(p@)[t])) by {
                        if t < i {
                            assert(old_ids.contains(child_rank(p@, moves_spec(p@)[t])));
                        }
                    }
                }
            } else {
                proof {
                    assert(reachable@.contains(cid as int));
                }
            }
            i += 1;
        }
        proof {
            lemma_bfs_advance(ids@, head as int);
            lemma_bfs_len(reachable@, ids@);
        }
        head += 1;
    }
    proof {
        lemma_bfs_len(reachable@, ids@);
    }
    (reachable, ids)
}


// ---------------------------------------------------------------------------
// Solving the KPG slice: classification
// ---------------------------------------------------------------------------

/// The value of a rank before any propagation: 1 when its side to move can
/// capture the King, -2 when it has no move, else 0 (undecided).
pub open spec fn initial_value(id: u32) -> i16 {
    let v = unrank_spec(id as int);
    if has_king_capture(v) {
        1i16
    } else if moves_spec(v).len() == 0 {
        -2i16
    } else {
        0i16
    }
}

/// Moves of the listed ranks' positions, all counted.
pub open spec fn moves_total(ids: Seq<u32>) -> int
    decreases ids.len(),
{
    if ids.len() == 0 {
        0
    } else {
        moves_total(ids.drop_last()) + moves_spec(unrank_spec(ids.last() as int)).len()
    }
}

/// The tables of the dense solver: a value per rank, the undecided children
/// left per rank, and the queue of decided ranks.
pub struct DenseTables {
    pub values: Vec<i16>,
    pub remaining: Vec<u8>,
    pub queue: Vec<u32>,
    pub total_moves: u64,
}

/// Classify the listed ranks: decided ones (a King capture at hand: 1, no move:
/// -2) are queued; each undecided one records its number of moves.
#[verifier::rlimit(60)]
pub fn classify_dense(ids: &Vec<u32>) -> (t: DenseTables)
    requires
        ranks_listed_once(ids@),
        ids@.len() <= domain_spec(),
    ensures
        t.values@.len() == domain_spec(),
        t.remaining@.len() == domain_spec(),
        forall|i: int|
            0 <= i < domain_spec() ==> #[trigger] t.values@[i] == if ids@.contains(i as u32) {
                initial_value(i as u32)
            } else {
                0
            },
        forall|i: int|
            0 <= i < domain_spec() ==> #[trigger] t.remaining@[i] == if ids@.contains(i as u32) && initial_value(
                i as u32,
            ) == 0 {
                moves_spec(unrank_spec(i)).len() as u8
            } else {
                0
            },
        t.queue@ == ids@.filter(|id: u32| initial_value(id) != 0),
        t.total_moves == moves_total(ids@),
        bfs_state(nonzero_set(t.values@), t.queue@),
        queue_starts_short(t.values@, t.queue@, t.queue@.len() as int),
{
    let domain = domain_size();
    let mut values: Vec<i16> = vec![0i16; domain as usize];
    let mut remaining: Vec<u8> = vec![0u8; domain as usize];
    let mut queue: Vec<u32> = Vec::new();
    let mut total_moves: u64 = 0;
    proof {
        lemma_sizes();
        assert forall|i: int| 0 <= i < values@.len() implies values@[i] == 0 by {}
    }
    proof {
        reveal(bfs_state);
        assert(nonzero_set(values@) =~= Set::<int>::empty());
        lemma_int_range(0, domain_spec());
        assert(queue@.no_duplicates());
    }
    let mut k: usize = 0;
    while k < ids.len()
        invariant
            domain == domain_spec(),
            k <= ids@.len(),
            ids@.len() <= domain_spec(),
            ranks_listed_once(ids@),
            values@.len() == domain_spec(),
            remaining@.len() == domain_spec(),
            forall|i: int|
                0 <= i < domain_spec() ==> #[trigger] values@[i] == if ids@.take(k as int).contains(i as u32) {
                    initial_value(i as u32)
                } else {
                    0
                },
            forall|i: int|
                0 <= i < domain_spec() ==> #[trigger] remaining@[i] == if ids@.take(k as int).contains(i as u32)
                    && initial_value(i as u32) == 0 {
                    moves_spec(unrank_spec(i)).len() as u8
                } else {
                    0
                },
            queue@ == ids@.take(k as int).filter(|id: u32| initial_value(id) != 0),
            total_moves == moves_total(ids@.take(k as int)),
            total_moves <= 240 * k,
            bfs_state(nonzero_set(values@), queue@),
        decreases ids@.len() - k,
    {
        let id = ids[k];
        proof {
            lemma_rank_unrank(id as int, unrank_spec(0));
            lemma_kpg_moves_len(unrank_spec(id as int));
            lemma_filter_step(ids@, k as int, |id: u32| initial_value(id) != 0);
            assert(ids@.take(k + 1).drop_last() =~= ids@.take(k as int));
            assert(!ids@.take(k as int).contains(id)) by {
                let t0 = ids@.take(k as int);
                if t0.contains(id) {
                    let w = choose|w: int| 0 <= w < t0.len() && t0[w] == id;
                    assert(ids@[w] == ids@[k as int]);
                }
            }
            lemma_sizes();
        }
        let p = unrank_raw_sente(id);
        let moves = p.moves();
        total_moves += moves.len() as u64;
        let win = any_king_capture(&p, &moves);
        let ghost old_values = values@;
        let ghost old_remaining = remaining@;
        let ghost old_queue = queue@;
        proof {
            assert(values@[id as int] == 0);
        }
        if win {
            values.set(id as usize, 1);
            queue.push(id);
            proof {
                lemma_nonzero_set_update(old_values, id, 1i16);
                lemma_bfs_push_state(nonzero_set(old_values), old_queue, id);
            }
        } else if moves.len() == 0 {
            values.set(id as usize, -2);
            queue.push(id);
            proof {
                lemma_nonzero_set_update(old_values, id, -2i16);
                lemma_bfs_push_state(nonzero_set(old_values), old_queue, id);
            }
        } else {
            remaining.set(id as usize, moves.len() as u8);
        }
        proof {
            let t0 = ids@.take(k as int);
            let t1 = ids@.take(k + 1);
            assert forall|q: u32| #[trigger] t1.contains(q) <==> (t0.contains(q) || q == id) by {
                if t1.contains(q) && q != id {
                    let w = choose|w: int| 0 <= w < t1.len() && t1[w] == q;
                    assert(t0[w] == q);
                }
                if t0.contains(q) {
                    let w = choose|w: int| 0 <= w < t0.len() && t0[w] == q;
                    assert(t1[w] == q);
                }
                if q == id {
                    assert(t1[k as int] == q);
                }
            }
            assert forall|i: int| 0 <= i < domain_spec() implies #[trigger] values@[i] == if ids@.take(k + 1).contains(
                i as u32,
            ) {
                initial_value(i as u32)
            } else {
                0
            } by {
                if i != id as int {
                    assert(values@[i] == old_values[i]);
                    assert(i as u32 != id);
                }
            }
            assert forall|i: int| 0 <= i < domain_spec() implies #[trigger] remaining@[i] == if ids@.take(k + 1).contains(
                i as u32,
            ) && initial_value(i as u32) == 0 {
                moves_spec(unrank_spec(i)).len() as u8
            } else {
                0
            } by {
                if i != id as int {
                    assert(remaining@[i] == old_remaining[i]);
                    assert(i as u32 != id);
                }
            }
        }
        k += 1;
    }
    proof {
        assert(ids@.take(ids@.len() as int) =~= ids@);
        lemma_queue_facts(values@, queue@);
        reveal(queue_starts_short);
        assert forall|j: int| 0 <= j < queue@.len() implies #[trigger] mag(values@[queue@[j] as int]) <= 2 by {
            let i = queue@[j] as int;
            assert(ids@.contains(i as u32));
            assert(values@[i] == initial_value(i as u32));
        }
    }
    DenseTables { values, remaining, queue, total_moves }
}


/// The ranks with a decided (nonzero) value.
pub open spec fn nonzero_set(values: Seq<i16>) -> Set<int> {
    Set::new(|i: int| 0 <= i < domain_spec() && values[i] != 0)
}

proof fn lemma_nonzero_set_update(values: Seq<i16>, id: u32, x: i16)
    requires
        id < domain_spec(),
        values.len() == domain_spec(),
        values[id as int] == 0,
        x != 0,
    ensures
        nonzero_set(values.update(id as int, x)) == nonzero_set(values).insert(id as int),
{
    assert(nonzero_set(values.update(id as int, x)) =~= nonzero_set(values).insert(id as int));
}


// ---------------------------------------------------------------------------
// Solving the KPG slice: propagation
// ---------------------------------------------------------------------------

/// The ranks `predecessor_ids` gives for `c`.
pub open spec fn pred_set(c: u32) -> Set<u32> {
    ranked(pred_parents(c as int)).to_set()
}

/// A parent's value one ply beyond a child's: a lost child makes a win one ply
/// longer, a won child a loss one ply longer.
pub open spec fn step_value(cv: i16, pv: i16) -> bool {
    (cv < 0 && pv == 1 - cv) || (cv > 0 && pv == -(cv + 1))
}

/// The `k`-th queued rank got its value from an earlier queued rank it is a
/// predecessor of.
#[verifier::opaque]
pub open spec fn justified(queue: Seq<u32>, values: Seq<i16>, k: int) -> bool {
    exists|j: int|
        0 <= j < k && #[trigger] pred_set(queue[j]).contains(queue[k]) && step_value(
            values[queue[j] as int],
            values[queue[k] as int],
        )
}

/// When `c` is lost for its side to move, all its reachable predecessors are decided.
#[verifier::opaque]
pub open spec fn lost_preds_decided(reach: Set<int>, values: Seq<i16>, c: u32) -> bool {
    values[c as int] < 0 ==> forall|pid: u32|
        #[trigger] pred_set(c).contains(pid) && reach.contains(pid as int) ==> values[pid as int] != 0
}

/// Decided values stay as they are.
pub open spec fn keeps_decided(values: Seq<i16>, later: Seq<i16>) -> bool {
    &&& later.len() == values.len()
    &&& forall|i: int| 0 <= i < values.len() && values[i] != 0 ==> #[trigger] later[i] == values[i]
}

/// No value is -32768, so a value's negation fits.
pub open spec fn values_fit(values: Seq<i16>) -> bool {
    forall|i: int| 0 <= i < values.len() ==> -32767 <= #[trigger] values[i]
}

proof fn lemma_justified_mono(queue: Seq<u32>, values: Seq<i16>, q2: Seq<u32>, v2: Seq<i16>, k: int)
    requires
        justified(queue, values, k),
        0 <= k < queue.len(),
        q2.len() >= queue.len(),
        forall|i: int| 0 <= i < queue.len() ==> #[trigger] q2[i] == queue[i],
        forall|i: int| 0 <= i < queue.len() ==> 0 <= #[trigger] queue[i] < values.len() && values[queue[i] as int] != 0,
        keeps_decided(values, v2),
    ensures
        justified(q2, v2, k),
{
    reveal(justified);
    let j = choose|j: int|
        0 <= j < k && #[trigger] pred_set(queue[j]).contains(queue[k]) && step_value(
            values[queue[j] as int],
            values[queue[k] as int],
        );
    assert(q2[j] == queue[j] && q2[k] == queue[k]);
    assert(v2[queue[j] as int] == values[queue[j] as int]);
    assert(v2[queue[k] as int] == values[queue[k] as int]);
    assert(0 <= j < k && pred_set(q2[j]).contains(q2[k]) && step_value(v2[q2[j] as int], v2[q2[k] as int]));
}

proof fn lemma_lost_mono(reach: Set<int>, values: Seq<i16>, v2: Seq<i16>, c: u32)
    requires
        lost_preds_decided(reach, values, c),
        c < values.len(),
        values[c as int] != 0,
        keeps_decided(values, v2),
        forall|i: int| 0 <= i < values.len() && values[i] != 0 ==> #[trigger] v2[i] != 0,
        forall|pid: u32| #[trigger] pred_set(c).contains(pid) ==> pid < values.len(),
    ensures
        lost_preds_decided(reach, v2, c),
{
    reveal(lost_preds_decided);
    assert(v2[c as int] == values[c as int]);
    assert forall|pid: u32| #[trigger] pred_set(c).contains(pid) && reach.contains(pid as int) && v2[c as int]
        < 0 implies v2[pid as int] != 0 by {
        assert(values[pid as int] != 0);
    }
}

/// Sums over queued ranks of the work `predecessor_ids` reports for each.
pub open spec fn sum_candidates(qs: Seq<u32>) -> int
    decreases qs.len(),
{
    if qs.len() == 0 {
        0
    } else {
        sum_candidates(qs.drop_last()) + pred_parents(qs.last() as int).len()
    }
}

pub open spec fn sum_pred_ids(qs: Seq<u32>) -> int
    decreases qs.len(),
{
    if qs.len() == 0 {
        0
    } else {
        sum_pred_ids(qs.drop_last()) + pred_set(qs.last()).len()
    }
}

pub open spec fn sum_duplicates(qs: Seq<u32>) -> int
    decreases qs.len(),
{
    if qs.len() == 0 {
        0
    } else {
        sum_duplicates(qs.drop_last()) + ranked(pred_parents(qs.last() as int)).len() - pred_set(qs.last()).len()
    }
}

/// Among the first `n` queued ranks, how many are won and have `pid` among
/// their predecessors.
pub open spec fn won_hits(queue: Seq<u32>, values: Seq<i16>, pid: u32, n: int) -> int
    decreases n,
{
    if n <= 0 {
        0
    } else {
        won_hits(queue, values, pid, n - 1) + if values[queue[n - 1] as int] > 0 && pred_set(queue[n - 1]).contains(
            pid,
        ) {
            1int
        } else {
            0int
        }
    }
}

/// Every reachable undecided rank has lost one remaining child for each won
/// rank among the first `n` queued that it is a predecessor of.
pub open spec fn children_counted(
    reach: Set<int>,
    values: Seq<i16>,
    remaining: Seq<u8>,
    remaining0: Seq<u8>,
    queue: Seq<u32>,
    n: int,
) -> bool {
    forall|i: int|
        0 <= i < domain_spec() && reach.contains(i) && values[i] == 0 ==> #[trigger] remaining[i] + won_hits(
            queue,
            values,
            i as u32,
            n,
        ) == remaining0[i]
}

/// Every rank the propagation queued as lost had, where it was queued, at
/// least as many won ranks queued before it that it is a predecessor of as it
/// had children left to count when propagation began.
pub open spec fn losses_counted(values: Seq<i16>, remaining0: Seq<u8>, from: int, queue: Seq<u32>) -> bool {
    forall|k: int|
        from <= k < queue.len() && values[queue[k] as int] < 0 ==> #[trigger] won_hits(queue, values, queue[k], k)
            >= remaining0[queue[k] as int]
}

/// The distance a value stands for: its magnitude.
pub open spec fn mag(v: i16) -> int {
    if v < 0 {
        -v
    } else {
        v as int
    }
}

/// Queued ranks come in order of distance, give or take one ply: no rank is
/// more than one ply longer than a rank queued after it.
#[verifier::opaque]
pub open spec fn queue_sorted(values: Seq<i16>, queue: Seq<u32>) -> bool {
    forall|i: int, j: int|
        0 <= i < j < queue.len() ==> #[trigger] mag(values[queue[i] as int]) <= #[trigger] mag(values[queue[j] as int])
            + 1
}

/// Each rank queued at or after `from` is one ply longer than the rank queued
/// at its entry of `par`, which lies before `bound`.
#[verifier::opaque]
pub open spec fn queue_parented(values: Seq<i16>, queue: Seq<u32>, from: int, bound: int, par: Seq<int>) -> bool {
    &&& par.len() == queue.len()
    &&& forall|j: int|
        from <= j < queue.len() ==> 0 <= #[trigger] par[j] < bound && mag(values[queue[par[j]] as int]) + 1 == mag(
            values[queue[j] as int],
        )
}

/// The first `n` queued ranks are at most two plies from the end.
#[verifier::opaque]
pub open spec fn queue_starts_short(values: Seq<i16>, queue: Seq<u32>, n: int) -> bool {
    forall|j: int| 0 <= j < n ==> #[trigger] mag(values[queue[j] as int]) <= 2
}

/// What processing the `h`-th queued rank (`cid`, of value `cv`) may do to the
/// queue: keep it, and queue at most one parent one ply beyond `cid`.
pub open spec fn queue_step(
    v1: Seq<i16>,
    q1: Seq<u32>,
    v2: Seq<i16>,
    q2: Seq<u32>,
    h: int,
    cid: u32,
    cv: i16,
) -> bool {
    &&& 0 <= h < q1.len()
    &&& q1[h] == cid
    &&& v1[cid as int] == cv
    &&& cv != 0
    &&& q1.len() <= q2.len() <= q1.len() + 1
    &&& forall|k: int| 0 <= k < q1.len() ==> #[trigger] q2[k] == q1[k]
    &&& forall|k: int| 0 <= k < q1.len() ==> #[trigger] v2[q1[k] as int] == v1[q1[k] as int]
    &&& q2.len() == q1.len() + 1 ==> step_value(cv, v2[q2[q1.len() as int] as int])
}

#[verifier::rlimit(30)]
proof fn lemma_order_sorted(
    v1: Seq<i16>,
    q1: Seq<u32>,
    v2: Seq<i16>,
    q2: Seq<u32>,
    n0: int,
    h: int,
    cid: u32,
    cv: i16,
    par: Seq<int>,
)
    requires
        queue_starts_short(v1, q1, n0),
        queue_sorted(v1, q1),
        queue_parented(v1, q1, n0, h + 1, par),
        0 <= n0 <= q1.len(),
        queue_step(v1, q1, v2, q2, h, cid, cv),
    ensures
        queue_sorted(v2, q2),
{
    reveal(queue_starts_short);
    reveal(queue_sorted);
    reveal(queue_parented);
    let n1 = q1.len() as int;
    assert(mag(v1[q1[h] as int]) == mag(cv));
    assert forall|i: int, j: int| 0 <= i < j < q2.len() implies #[trigger] mag(v2[q2[i] as int]) <= #[trigger] mag(
        v2[q2[j] as int],
    ) + 1 by {
        assert(q2[i] == q1[i]);
        assert(v2[q1[i] as int] == v1[q1[i] as int]);
        let mi = mag(v1[q1[i] as int]);
        if j < n1 {
            assert(q2[j] == q1[j]);
            assert(v2[q1[j] as int] == v1[q1[j] as int]);
            assert(mi <= mag(v1[q1[j] as int]) + 1);
        } else {
            assert(mag(v2[q2[j] as int]) == mag(cv) + 1);
            if i < h {
                assert(mi <= mag(v1[q1[h] as int]) + 1);
            } else if i == h {
            } else if i < n0 {
                assert(mi <= 2);
            } else {
                let p = par[i];
                if p < h {
                    assert(mag(v1[q1[p] as int]) <= mag(v1[q1[h] as int]) + 1);
                }
            }
        }
    }
}

/// The parent list after a step: one more entry, `h`, when a parent was queued.
pub open spec fn par_step(par: Seq<int>, q1: Seq<u32>, q2: Seq<u32>, h: int) -> Seq<int> {
    if q2.len() > q1.len() {
        par.push(h)
    } else {
        par
    }
}

#[verifier::rlimit(30)]
proof fn lemma_order_parented(
    v1: Seq<i16>,
    q1: Seq<u32>,
    v2: Seq<i16>,
    q2: Seq<u32>,
    n0: int,
    h: int,
    cid: u32,
    cv: i16,
    par: Seq<int>,
)
    requires
        queue_starts_short(v1, q1, n0),
        queue_parented(v1, q1, n0, h + 1, par),
        0 <= n0 <= q1.len(),
        queue_step(v1, q1, v2, q2, h, cid, cv),
    ensures
        queue_starts_short(v2, q2, n0),
        queue_parented(v2, q2, n0, h + 1, par_step(par, q1, q2, h)),
{
    reveal(queue_starts_short);
    reveal(queue_parented);
    let n1 = q1.len() as int;
    let par2 = par_step(par, q1, q2, h);
    assert forall|j: int| 0 <= j < n0 implies #[trigger] mag(v2[q2[j] as int]) <= 2 by {
        assert(q2[j] == q1[j]);
        assert(v2[q1[j] as int] == v1[q1[j] as int]);
        assert(mag(v1[q1[j] as int]) <= 2);
    }
    assert forall|j: int| n0 <= j < q2.len() implies 0 <= #[trigger] par2[j] < h + 1 && mag(
        v2[q2[par2[j]] as int],
    ) + 1 == mag(v2[q2[j] as int]) by {
        if j < n1 {
            assert(par2[j] == par[j]);
            let p = par[j];
            assert(q2[j] == q1[j]);
            assert(v2[q1[j] as int] == v1[q1[j] as int]);
            assert(q2[p] == q1[p]);
            assert(v2[q1[p] as int] == v1[q1[p] as int]);
        } else {
            assert(par2[j] == h);
            assert(q2[h] == q1[h]);
            assert(v2[q1[h] as int] == v1[q1[h] as int]);
            assert(v1[q1[h] as int] == cv);
            assert(step_value(cv, v2[q2[n1] as int]));
        }
    }
}

proof fn lemma_parented_mono(values: Seq<i16>, queue: Seq<u32>, from: int, b1: int, b2: int, par: Seq<int>)
    requires
        queue_parented(values, queue, from, b1, par),
        b1 <= b2,
    ensures
        queue_parented(values, queue, from, b2, par),
{
    reveal(queue_parented);
}

/// A queue of one- and two-ply values is in order, with nothing queued later.
proof fn lemma_order_init(values: Seq<i16>, queue: Seq<u32>)
    requires
        queue_starts_short(values, queue, queue.len() as int),
        forall|k: int| 0 <= k < queue.len() ==> values[#[trigger] queue[k] as int] != 0,
    ensures
        queue_sorted(values, queue),
        queue_parented(values, queue, queue.len() as int, 0, Seq::new(queue.len(), |i: int| 0int)),
{
    reveal(queue_starts_short);
    reveal(queue_sorted);
    reveal(queue_parented);
    assert forall|i: int, j: int| 0 <= i < j < queue.len() implies #[trigger] mag(values[queue[i] as int]) <= #[trigger] mag(
        values[queue[j] as int],
    ) + 1 by {
        assert(mag(values[queue[i] as int]) <= 2);
        assert(values[queue[j] as int] != 0);
    }
}

proof fn lemma_won_hits_mono(q: Seq<u32>, v: Seq<i16>, pid: u32, n1: int, n2: int)
    requires
        0 <= n1 <= n2,
    ensures
        won_hits(q, v, pid, n1) <= won_hits(q, v, pid, n2),
    decreases n2 - n1,
{
    if n1 < n2 {
        lemma_won_hits_mono(q, v, pid, n1, n2 - 1);
    }
}

proof fn lemma_won_hits_stable(q1: Seq<u32>, v1: Seq<i16>, q2: Seq<u32>, v2: Seq<i16>, pid: u32, n: int)
    requires
        0 <= n <= q1.len(),
        n <= q2.len(),
        forall|k: int| 0 <= k < n ==> #[trigger] q2[k] == q1[k],
        forall|k: int| 0 <= k < n ==> #[trigger] v2[q1[k] as int] == v1[q1[k] as int],
    ensures
        won_hits(q2, v2, pid, n) == won_hits(q1, v1, pid, n),
    decreases n,
{
    if n > 0 {
        lemma_won_hits_stable(q1, v1, q2, v2, pid, n - 1);
        assert(q2[n - 1] == q1[n - 1]);
        assert(v2[q1[n - 1] as int] == v1[q1[n - 1] as int]);
    }
}

/// What propagation reports besides the tables.
pub struct PropagationStats {
    /// Updates made to undecided reachable parents.
    pub edges: u64,
    pub candidates: u64,
    pub pred_ids: u64,
    pub duplicates: u64,
}


/// What propagation keeps, relative to the tables it started from.
pub open spec fn prop_inv(
    reach: Set<int>,
    values0: Seq<i16>,
    remaining0: Seq<u8>,
    queue0: Seq<u32>,
    values: Seq<i16>,
    remaining: Seq<u8>,
    queue: Seq<u32>,
) -> bool {
    &&& values.len() == domain_spec()
    &&& remaining.len() == domain_spec()
    &&& bfs_state(nonzero_set(values), queue)
    &&& queue.len() >= queue0.len()
    &&& forall|i: int| 0 <= i < queue0.len() ==> #[trigger] queue[i] == queue0[i]
    &&& forall|i: int|
        0 <= i < domain_spec() && !reach.contains(i) ==> #[trigger] values[i] == values0[i] && remaining[i]
            == remaining0[i]
    &&& keeps_decided(values0, values)
    &&& forall|i: int| 0 <= i < domain_spec() && reach.contains(i) && #[trigger] values[i] == 0 ==> remaining[i] > 0
    &&& forall|k: int| queue0.len() <= k < queue.len() ==> #[trigger] justified(queue, values, k)
    &&& values_fit(values)
}

proof fn lemma_queue_facts(values: Seq<i16>, queue: Seq<u32>)
    requires
        bfs_state(nonzero_set(values), queue),
        values.len() == domain_spec(),
    ensures
        queue.len() <= domain_spec(),
        forall|i: int| 0 <= i < queue.len() ==> #[trigger] queue[i] < domain_spec() && values[queue[i] as int] != 0,
        forall|i: int| 0 <= i < domain_spec() ==> (#[trigger] values[i] != 0 <==> queue.contains(i as u32)),
{
    lemma_bfs_len(nonzero_set(values), queue);
    reveal(bfs_state);
    lemma_sizes();
    assert forall|i: int| 0 <= i < queue.len() implies #[trigger] queue[i] < domain_spec() && values[queue[i] as int]
        != 0 by {
        assert(queue.contains(queue[i]));
        assert(nonzero_set(values).contains(queue[i] as int));
    }
    assert forall|i: int| 0 <= i < domain_spec() implies (#[trigger] values[i] != 0 <==> queue.contains(i as u32)) by {
        assert(nonzero_set(values).contains(i) == (values[i] != 0));
    }
}

/// Update one predecessor `pid` of the decided child `cid` (the `qh`-th queued
/// rank, of value `cv`); `false` when its new value would not fit an `i16`.
#[verifier::spinoff_prover]
#[verifier::rlimit(30)]
fn resolve_parent(
    reachable: &BitSet,
    t: &mut DenseTables,
    qh: usize,
    cid: u32,
    cv: i16,
    pid: u32,
    edges: &mut u64,
    Ghost(values0): Ghost<Seq<i16>>,
    Ghost(remaining0): Ghost<Seq<u8>>,
    Ghost(queue0): Ghost<Seq<u32>>,
) -> (ok: bool)
    requires
        reachable.capacity() >= domain_spec(),
        prop_inv(reachable@, values0, remaining0, queue0, old(t).values@, old(t).remaining@, old(t).queue@),
        qh < old(t).queue@.len(),
        old(t).queue@[qh as int] == cid,
        old(t).values@[cid as int] == cv,
        pred_set(cid).contains(pid),
        pid < domain_spec(),
        *old(edges) < u64::MAX,
    ensures
        ok ==> prop_inv(reachable@, values0, remaining0, queue0, final(t).values@, final(t).remaining@, final(t).queue@),
        ok ==> keeps_decided(old(t).values@, final(t).values@),
        ok ==> forall|i: int|
            0 <= i < domain_spec() && old(t).values@[i] != 0 ==> #[trigger] final(t).values@[i] != 0,
        ok ==> final(t).queue@.len() >= old(t).queue@.len(),
        ok ==> final(t).queue@.len() <= old(t).queue@.len() + 1,
        ok ==> forall|i: int| 0 <= i < old(t).queue@.len() ==> #[trigger] final(t).queue@[i] == old(t).queue@[i],
        ok ==> forall|k: int|
            old(t).queue@.len() <= k < final(t).queue@.len() ==> #[trigger] final(t).queue@[k] == pid && step_value(
                cv,
                final(t).values@[pid as int],
            ),
        ok ==> (reachable@.contains(pid as int) && cv < 0 ==> final(t).values@[pid as int] != 0),
        ok ==> *final(edges) <= *old(edges) + 1,
        ok ==> forall|i: int|
            0 <= i < domain_spec() && (i != pid || !reachable@.contains(pid as int)) ==> #[trigger] final(t).remaining@[i]
                == old(t).remaining@[i] && final(t).values@[i] == old(t).values@[i],
        ok ==> (reachable@.contains(pid as int) && final(t).values@[pid as int] == 0 ==> old(t).values@[pid as int] == 0
            && final(t).remaining@[pid as int] == old(t).remaining@[pid as int] - 1),
        ok && final(t).queue@.len() > old(t).queue@.len() && final(t).values@[pid as int] < 0 ==> old(t).remaining@[pid as int]
            == 1 && old(t).values@[pid as int] == 0 && reachable@.contains(pid as int),
        !ok ==> cv == 32767 || cv == -32767,
        !ok ==> final(t).values@ == old(t).values@ && final(t).queue@ == old(t).queue@,
        final(t).total_moves == old(t).total_moves,
{
    proof {
        lemma_queue_facts(t.values@, t.queue@);
    }
    let ghost v_in = t.values@;
    let ghost q_in = t.queue@;
    if !reachable.get(pid) {
        return true;
    }
    if t.values[pid as usize] != 0 {
        return true;
    }
    *edges += 1;
    if cv < 0 {
        if cv == -32767 {
            return false;
        }
        let nv: i16 = -cv + 1;
        t.values.set(pid as usize, nv);
        t.queue.push(pid);
        proof {
            lemma_nonzero_set_update(v_in, pid, nv);
            lemma_bfs_push_state(nonzero_set(v_in), q_in, pid);
        }
    } else {
        let cnt = t.remaining[pid as usize];
        t.remaining.set(pid as usize, cnt - 1);
        if cnt - 1 == 0 {
            if cv == 32767 {
                return false;
            }
            let nv: i16 = -(cv + 1);
            t.values.set(pid as usize, nv);
            t.queue.push(pid);
            proof {
                lemma_nonzero_set_update(v_in, pid, nv);
                lemma_bfs_push_state(nonzero_set(v_in), q_in, pid);
            }
        }
    }
    proof {
        let v2 = t.values@;
        let q2 = t.queue@;
        assert(keeps_decided(v_in, v2));
        assert(keeps_decided(values0, v2));
        assert forall|k: int| queue0.len() <= k < q2.len() implies #[trigger] justified(q2, v2, k) by {
            if k < q_in.len() {
                lemma_justified_mono(q_in, v_in, q2, v2, k);
            } else {
                reveal(justified);
                assert(q2[k] == pid);
                assert(q2[qh as int] == cid);
                assert(v2[cid as int] == cv);
                assert(0 <= qh < k && pred_set(q2[qh as int]).contains(q2[k]) && step_value(
                    v2[q2[qh as int] as int],
                    v2[q2[k] as int],
                ));
            }
        }
        assert forall|i: int|
            0 <= i < domain_spec() && reachable@.contains(i) && #[trigger] v2[i] == 0 implies t.remaining@[i] > 0 by {
            if i != pid as int {
                assert(v_in[i] == 0);
            }
        }
    }
    true
}


/// Retrograde propagation from the queued decided ranks: a reachable undecided
/// predecessor of a lost rank becomes a win one ply longer; one of a won rank
/// loses a remaining child, and with none left becomes a loss one ply longer.
/// `None` when a value would not fit an `i16` (a distance of 32767 plies).
#[verifier::rlimit(40)]
pub fn propagate_dense(reachable: &BitSet, t: &mut DenseTables) -> (r: Option<PropagationStats>)
    requires
        reachable.capacity() >= domain_spec(),
        old(t).values@.len() == domain_spec(),
        old(t).remaining@.len() == domain_spec(),
        bfs_state(nonzero_set(old(t).values@), old(t).queue@),
        forall|i: int|
            0 <= i < domain_spec() && reachable@.contains(i) && #[trigger] old(t).values@[i] == 0 ==> old(
                t,
            ).remaining@[i] > 0,
        values_fit(old(t).values@),
    ensures
        final(t).total_moves == old(t).total_moves,
        r is Some ==> prop_inv(
            reachable@,
            old(t).values@,
            old(t).remaining@,
            old(t).queue@,
            final(t).values@,
            final(t).remaining@,
            final(t).queue@,
        ),
        r is Some ==> forall|k: int|
            0 <= k < final(t).queue@.len() ==> lost_preds_decided(reachable@, final(t).values@, #[trigger] final(t).queue@[k]),
        r is Some && queue_starts_short(old(t).values@, old(t).queue@, old(t).queue@.len() as int) ==> queue_sorted(
            final(t).values@,
            final(t).queue@,
        ),
        r is Some ==> losses_counted(final(t).values@, old(t).remaining@, old(t).queue@.len() as int, final(t).queue@),
        r is Some ==> children_counted(
            reachable@,
            final(t).values@,
            final(t).remaining@,
            old(t).remaining@,
            final(t).queue@,
            final(t).queue@.len() as int,
        ),
        r matches Some(st) ==> st.candidates == sum_candidates(final(t).queue@) && st.pred_ids == sum_pred_ids(
            final(t).queue@,
        ) && st.duplicates == sum_duplicates(final(t).queue@) && st.edges <= st.pred_ids,
        r is None ==> exists|k: int|
            0 <= k < final(t).queue@.len() && (#[trigger] final(t).values@[final(t).queue@[k] as int] == 32767
                || final(t).values@[final(t).queue@[k] as int] == -32767),
{
    let ghost values0 = t.values@;
    let ghost remaining0 = t.remaining@;
    let ghost queue0 = t.queue@;
    let ghost small0 = queue_starts_short(t.values@, t.queue@, t.queue@.len() as int);
    let ghost mut par: Seq<int> = Seq::new(t.queue@.len(), |i: int| 0int);
    proof {
        lemma_queue_facts(t.values@, t.queue@);
        if small0 {
            lemma_order_init(t.values@, t.queue@);
        }
    }
    let mut edges: u64 = 0;
    let mut candidates: u64 = 0;
    let mut pred_ids: u64 = 0;
    let mut duplicates: u64 = 0;
    let mut qhead: usize = 0;
    proof {
        reveal(justified);
        lemma_queue_facts(t.values@, t.queue@);
    }
    while qhead < t.queue.len()
        invariant
            reachable.capacity() >= domain_spec(),
            prop_inv(reachable@, values0, remaining0, queue0, t.values@, t.remaining@, t.queue@),
            t.total_moves == old(t).total_moves,
            qhead <= t.queue@.len(),
            forall|k: int| 0 <= k < qhead ==> lost_preds_decided(reachable@, t.values@, #[trigger] t.queue@[k]),
            children_counted(reachable@, t.values@, t.remaining@, remaining0, t.queue@, qhead as int),
            losses_counted(t.values@, remaining0, queue0.len() as int, t.queue@),
            small0 == queue_starts_short(old(t).values@, old(t).queue@, old(t).queue@.len() as int),
            small0 ==> queue_starts_short(t.values@, t.queue@, queue0.len() as int) && queue_sorted(t.values@, t.queue@)
                && queue_parented(t.values@, t.queue@, queue0.len() as int, qhead as int, par),
            remaining0 == old(t).remaining@,
            candidates == sum_candidates(t.queue@.take(qhead as int)),
            pred_ids == sum_pred_ids(t.queue@.take(qhead as int)),
            duplicates == sum_duplicates(t.queue@.take(qhead as int)),
            edges <= pred_ids,
            pred_ids <= 4020 * qhead,
            candidates <= 4020 * qhead,
            duplicates <= 4020 * qhead,
        decreases domain_spec() - t.queue@.len(), t.queue@.len() - qhead,
    {
        proof {
            lemma_queue_facts(t.values@, t.queue@);
        }
        let cid = t.queue[qhead];
        let cv = t.values[cid as usize];
        let preds = predecessor_ids(cid);
        let ghost q_before = t.queue@;
        let ghost v_before = t.values@;
        proof {
            assert(t.queue@.take(qhead + 1).drop_last() =~= t.queue@.take(qhead as int));
            lemma_ranked_below(pred_parents(cid as int));
            assert forall|k: int| 0 <= k < preds.ids@.len() implies #[trigger] preds.ids@[k] < domain_spec() by {
                assert(preds.ids@.to_set().contains(preds.ids@[k]));
                let r = ranked(pred_parents(cid as int));
                assert(r.contains(preds.ids@[k]));
                let w = choose|w: int| 0 <= w < r.len() && r[w] == preds.ids@[k];
            }
            lemma_sizes();
            assert(4020 * qhead <= 4020 * domain_spec());
        }
        candidates += preds.candidates;
        pred_ids += preds.ids.len() as u64;
        duplicates += preds.duplicates;
        proof {
            if small0 {
                lemma_parented_mono(t.values@, t.queue@, queue0.len() as int, qhead as int, qhead + 1, par);
            }
        }
        let mut i: usize = 0;
        while i < preds.ids.len()
            invariant
                reachable.capacity() >= domain_spec(),
                prop_inv(reachable@, values0, remaining0, queue0, t.values@, t.remaining@, t.queue@),
                t.total_moves == old(t).total_moves,
                qhead < q_before.len() <= t.queue@.len(),
                forall|k: int| 0 <= k < q_before.len() ==> #[trigger] t.queue@[k] == q_before[k],
                keeps_decided(v_before, t.values@),
                forall|k: int| 0 <= k < domain_spec() && v_before[k] != 0 ==> #[trigger] t.values@[k] != 0,
                q_before[qhead as int] == cid,
                cid < domain_spec(),
                v_before.len() == domain_spec(),
                v_before[cid as int] == cv,
                cv != 0,
                i <= preds.ids@.len(),
                preds.ids@.to_set() == pred_set(cid),
                forall|k: int| 0 <= k < preds.ids@.len() ==> #[trigger] preds.ids@[k] < domain_spec(),
                forall|k: int| 0 <= k < qhead ==> lost_preds_decided(reachable@, v_before, #[trigger] q_before[k]),
                forall|k: int|
                    0 <= k < i ==> (reachable@.contains(#[trigger] preds.ids@[k] as int) && cv < 0 ==> t.values@[preds.ids@[k] as int] != 0),
                strictly_increasing(preds.ids@),
                forall|j: int|
                    0 <= j < domain_spec() && reachable@.contains(j) && t.values@[j] == 0 ==> #[trigger] t.remaining@[j]
                        + won_hits(q_before, v_before, j as u32, qhead as int) + (if cv > 0 && preds.ids@.take(
                        i as int,
                    ).contains(j as u32) {
                        1int
                    } else {
                        0int
                    }) == remaining0[j],
                losses_counted(t.values@, remaining0, queue0.len() as int, t.queue@),
                small0 ==> queue_starts_short(t.values@, t.queue@, queue0.len() as int) && queue_sorted(t.values@, t.queue@)
                    && queue_parented(t.values@, t.queue@, queue0.len() as int, qhead + 1, par),
                queue0.len() <= q_before.len(),
                forall|k: int| 0 <= k < q_before.len() ==> v_before[#[trigger] q_before[k] as int] != 0,
                forall|k: int| 0 <= k < t.queue@.len() ==> #[trigger] t.queue@[k] < domain_spec() && t.values@[t.queue@[k] as int] != 0,
                edges <= pred_ids - preds.ids@.len() + i,
                pred_ids <= 4020 * (qhead + 1),
            decreases preds.ids@.len() - i,
        {
            let pid = preds.ids[i];
            proof {
                assert(preds.ids@.to_set().contains(pid));
                lemma_queue_facts(t.values@, t.queue@);
            }
            let ghost v_mid = t.values@;
            let ghost r_mid = t.remaining@;
            let ghost q_mid = t.queue@;
            assert(t.values@[cid as int] == cv);
            assert(t.queue@[qhead as int] == cid);
            let ok = resolve_parent(reachable, t, qhead, cid, cv, pid, &mut edges, Ghost(values0), Ghost(remaining0), Ghost(queue0));
            if !ok {
                proof {
                    assert(t.queue@[qhead as int] == cid);
                    assert(t.values@[cid as int] == cv);
                }
                return None;
            }
            proof {
                lemma_queue_facts(t.values@, t.queue@);
            }
            proof {
                assert(!preds.ids@.take(i as int).contains(pid)) by {
                    if preds.ids@.take(i as int).contains(pid) {
                        let k = choose|k: int| 0 <= k < i && #[trigger] preds.ids@.take(i as int)[k] == pid;
                        assert(preds.ids@[k] == preds.ids@[i as int]);
                    }
                }
                assert(preds.ids@.take(i + 1)[i as int] == pid);
                assert forall|j: int|
                    0 <= j < domain_spec() && reachable@.contains(j) && t.values@[j] == 0 implies #[trigger] t.remaining@[j]
                        + won_hits(q_before, v_before, j as u32, qhead as int) + (if cv > 0 && preds.ids@.take(
                        i + 1,
                    ).contains(j as u32) {
                        1int
                    } else {
                        0int
                    }) == remaining0[j] by {
                    if j == pid as int {
                        assert(v_mid[j] == 0);
                        assert(r_mid[j] + won_hits(q_before, v_before, j as u32, qhead as int) + (if cv > 0 && preds.ids@.take(
                            i as int,
                        ).contains(j as u32) {
                            1int
                        } else {
                            0int
                        }) == remaining0[j]);
                        if cv < 0 {
                            assert(t.values@[j] != 0);
                        }
                    } else {
                        lemma_sizes();
                        assert((j as u32) as int == j);
                        assert(t.remaining@[j] == r_mid[j] && t.values@[j] == v_mid[j]);
                        assert(r_mid[j] + won_hits(q_before, v_before, j as u32, qhead as int) + (if cv > 0 && preds.ids@.take(
                            i as int,
                        ).contains(j as u32) {
                            1int
                        } else {
                            0int
                        }) == remaining0[j]);
                        assert(preds.ids@.take(i + 1) == preds.ids@.take(i as int).push(pid));
                        assert(preds.ids@.take(i + 1).contains(j as u32) == preds.ids@.take(i as int).contains(j as u32)) by {
                            if preds.ids@.take(i + 1).contains(j as u32) {
                                let k = choose|k: int| 0 <= k < i + 1 && #[trigger] preds.ids@.take(i + 1)[k] == j as u32;
                                assert(k < i);
                                assert(preds.ids@.take(i as int)[k] == j as u32);
                            }
                            if preds.ids@.take(i as int).contains(j as u32) {
                                let k = choose|k: int| 0 <= k < i && #[trigger] preds.ids@.take(i as int)[k] == j as u32;
                                assert(preds.ids@.take(i + 1)[k] == j as u32);
                            }
                        }
                    }
                }
            }
            proof {
                let q2 = t.queue@;
                let v2 = t.values@;
                assert forall|k: int| 0 <= k < q_mid.len() implies #[trigger] v2[q_mid[k] as int] == v_mid[q_mid[k] as int] by {
                    assert(v_mid[q_mid[k] as int] != 0);
                }
                if small0 {
                    assert(queue_step(v_mid, q_mid, v2, q2, qhead as int, cid, cv));
                    lemma_order_sorted(v_mid, q_mid, v2, q2, queue0.len() as int, qhead as int, cid, cv, par);
                    lemma_order_parented(v_mid, q_mid, v2, q2, queue0.len() as int, qhead as int, cid, cv, par);
                }
                par = par_step(par, q_mid, q2, qhead as int);
                assert forall|k: int|
                    queue0.len() <= k < q2.len() && v2[q2[k] as int] < 0 implies #[trigger] won_hits(q2, v2, q2[k], k)
                        >= remaining0[q2[k] as int] by {
                    if k < q_mid.len() {
                        assert(q2[k] == q_mid[k]);
                        lemma_won_hits_stable(q_mid, v_mid, q2, v2, q2[k], k);
                        assert(won_hits(q_mid, v_mid, q_mid[k], k) >= remaining0[q_mid[k] as int]);
                    } else {
                        assert(q2[k] == pid);
                        assert(step_value(cv, v2[pid as int]));
                        assert(cv > 0);
                        assert(r_mid[pid as int] == 1 && v_mid[pid as int] == 0);
                        lemma_sizes();
                        assert((pid as int) as u32 == pid);
                        assert(r_mid[pid as int] + won_hits(q_before, v_before, pid, qhead as int) + (if cv > 0
                            && preds.ids@.take(i as int).contains(pid) {
                            1int
                        } else {
                            0int
                        }) == remaining0[pid as int]);
                        assert forall|x: int| 0 <= x < qhead implies #[trigger] v2[q_before[x] as int] == v_before[q_before[x] as int] by {
                            assert(v_before[q_before[x] as int] != 0);
                            assert(q2[x] == q_before[x]);
                            assert(q2[x] < domain_spec());
                            assert(keeps_decided(v_before, v2));
                            assert(0 <= q_before[x] as int && (q_before[x] as int) < v_before.len());
                        }
                        lemma_won_hits_stable(q_before, v_before, q2, v2, pid, qhead as int);
                        assert(q2[qhead as int] == cid);
                        assert(v2[cid as int] == cv);
                        assert(pred_set(cid).contains(pid)) by {
                            assert(preds.ids@.to_set().contains(pid));
                        }
                        assert(won_hits(q2, v2, pid, qhead + 1) == won_hits(q2, v2, pid, qhead as int) + 1);
                        lemma_won_hits_mono(q2, v2, pid, qhead + 1, k);
                    }
                }
            }
            proof {
                assert forall|k: int|
                    0 <= k < i + 1 && reachable@.contains(#[trigger] preds.ids@[k] as int) && cv < 0 implies t.values@[preds.ids@[k] as int] != 0 by {
                    if k < i {
                        assert(v_mid[preds.ids@[k] as int] != 0);
                    }
                }
            }
            i += 1;
        }
        proof {
            lemma_queue_facts(t.values@, t.queue@);
            assert forall|pid: u32| #[trigger] pred_set(cid).contains(pid) implies pid < v_before.len() by {
                if pred_set(cid).contains(pid) {
                    assert(preds.ids@.to_set().contains(pid));
                    let k = choose|k: int| 0 <= k < preds.ids@.len() && preds.ids@[k] == pid;
                }
            }
            assert forall|k: int| 0 <= k < qhead + 1 implies lost_preds_decided(reachable@, t.values@, #[trigger] t.queue@[k]) by {
                if k < qhead {
                    assert(t.queue@[k] == q_before[k]);
                    let c = q_before[k];
                    assert(v_before[c as int] != 0);
                    assert forall|pid: u32| #[trigger] pred_set(c).contains(pid) implies pid < v_before.len() by {
                        if pred_set(c).contains(pid) {
                            lemma_ranked_below(pred_parents(c as int));
                            let w = choose|w: int| 0 <= w < ranked(pred_parents(c as int)).len() && ranked(pred_parents(c as int))[w] == pid;
                        }
                    }
                    lemma_lost_mono(reachable@, v_before, t.values@, c);
                } else {
                    reveal(lost_preds_decided);
                    assert(t.queue@[k] == cid);
                    assert(t.values@[cid as int] == cv);
                    assert forall|pid: u32| #[trigger] pred_set(cid).contains(pid) && reachable@.contains(pid as int) && cv < 0
                        implies t.values@[pid as int] != 0 by {
                        assert(preds.ids@.to_set().contains(pid));
                        let w = choose|w: int| 0 <= w < preds.ids@.len() && preds.ids@[w] == pid;
                        assert(reachable@.contains(preds.ids@[w] as int));
                    }
                }
            }
            assert(t.queue@.take(qhead + 1) =~= q_before.take(qhead + 1));
            assert(t.queue@.take(qhead + 1).drop_last() =~= t.queue@.take(qhead as int));
            assert(t.queue@.take(qhead as int) =~= q_before.take(qhead as int));
            assert(preds.ids@.take(preds.ids@.len() as int) =~= preds.ids@);
            assert(t.values@[cid as int] == cv);
            assert forall|j: int|
                0 <= j < domain_spec() && reachable@.contains(j) && t.values@[j] == 0 implies #[trigger] t.remaining@[j]
                    + won_hits(t.queue@, t.values@, j as u32, qhead + 1) == remaining0[j] by {
                assert forall|k: int| 0 <= k < qhead implies #[trigger] t.values@[q_before[k] as int] == v_before[q_before[k] as int] by {
                    assert(q_before.contains(q_before[k]));
                    assert(v_before[q_before[k] as int] != 0);
                }
                lemma_won_hits_stable(q_before, v_before, t.queue@, t.values@, j as u32, qhead as int);
                assert(preds.ids@.contains(j as u32) == pred_set(cid).contains(j as u32)) by {
                    assert(preds.ids@.to_set().contains(j as u32) == preds.ids@.contains(j as u32));
                }
            }
        }
        qhead += 1;
    }
    proof {
        assert(t.queue@.take(qhead as int) =~= t.queue@);
    }
    Some(PropagationStats { edges, candidates, pred_ids, duplicates })
}


// ---------------------------------------------------------------------------
// Solving the KPG slice: statistics
// ---------------------------------------------------------------------------

/// Counts over the reachable ranks below `n`: positions, wins, losses, draws,
/// and the longest distance to the end.
pub open spec fn stats_spec(reach: Set<int>, values: Seq<i16>, n: int) -> (int, int, int, int, int)
    decreases n,
{
    if n <= 0 {
        (0, 0, 0, 0, 0)
    } else {
        let (p, w, l, d, m) = stats_spec(reach, values, n - 1);
        if !reach.contains(n - 1) {
            (p, w, l, d, m)
        } else {
            let v = values[n - 1] as int;
            if v > 0 {
                (p + 1, w + 1, l, d, if m >= v {
                    m
                } else {
                    v
                })
            } else if v < 0 {
                (p + 1, w, l + 1, d, if m >= -v {
                    m
                } else {
                    -v
                })
            } else {
                (p + 1, w, l, d + 1, m)
            }
        }
    }
}

proof fn lemma_stats_bounds(reach: Set<int>, values: Seq<i16>, n: int)
    requires
        0 <= n,
        values_fit(values),
        n <= values.len(),
    ensures
        ({
            let (p, w, l, d, m) = stats_spec(reach, values, n);
            &&& 0 <= p <= n
            &&& 0 <= w <= n
            &&& 0 <= l <= n
            &&& 0 <= d <= n
            &&& 0 <= m <= 32767
        }),
    decreases n,
{
    if n > 0 {
        lemma_stats_bounds(reach, values, n - 1);
        assert(-32767 <= values[n - 1]);
    }
}

/// Totals of a solved table over the reachable ranks.
pub struct DenseStats {
    pub positions: usize,
    pub wins: u64,
    pub losses: u64,
    pub draws: u64,
    pub max_dtm: i16,
}

/// Count the reachable ranks by value, and the longest distance to the end.
/// The reachable ranks among the first `n`.
pub open spec fn reach_below(reach: Set<int>, n: int) -> Set<int> {
    Set::new(|i: int| 0 <= i < n && reach.contains(i))
}

/// The totals range over reachable ranks only: the position count is the
/// number of reachable ranks, each of them a win, a loss or a draw.
pub proof fn lemma_stats_reachable(reach: Set<int>, values: Seq<i16>, n: int)
    requires
        0 <= n,
    ensures
        reach_below(reach, n).finite(),
        stats_spec(reach, values, n).0 == reach_below(reach, n).len(),
        stats_spec(reach, values, n).1 + stats_spec(reach, values, n).2 + stats_spec(reach, values, n).3 == stats_spec(
            reach,
            values,
            n,
        ).0,
    decreases n,
{
    if n == 0 {
        assert(reach_below(reach, 0) =~= Set::empty());
    } else {
        lemma_stats_reachable(reach, values, n - 1);
        if reach.contains(n - 1) {
            assert(reach_below(reach, n) =~= reach_below(reach, n - 1).insert(n - 1));
            assert(!reach_below(reach, n - 1).contains(n - 1));
        } else {
            assert(reach_below(reach, n) =~= reach_below(reach, n - 1));
        }
    }
}

/// The longest distance is that of some reachable rank (0 when none is
/// decided), and no reachable rank is further from the end.
pub proof fn lemma_stats_max(reach: Set<int>, values: Seq<i16>, n: int)
    requires
        0 <= n <= values.len(),
    ensures
        forall|i: int| 0 <= i < n && reach.contains(i) ==> mag(#[trigger] values[i]) <= stats_spec(reach, values, n).4,
        stats_spec(reach, values, n).4 == 0 || exists|i: int|
            0 <= i < n && reach.contains(i) && mag(#[trigger] values[i]) == stats_spec(reach, values, n).4,
    decreases n,
{
    if n > 0 {
        lemma_stats_max(reach, values, n - 1);
        let m0 = stats_spec(reach, values, n - 1).4;
        if stats_spec(reach, values, n).4 != 0 && stats_spec(reach, values, n).4 != m0 {
            assert(reach.contains(n - 1) && mag(values[n - 1]) == stats_spec(reach, values, n).4);
        }
        if stats_spec(reach, values, n).4 == m0 && m0 != 0 {
            let i = choose|i: int| 0 <= i < n - 1 && reach.contains(i) && mag(#[trigger] values[i]) == m0;
            assert(0 <= i < n && reach.contains(i) && mag(values[i]) == stats_spec(reach, values, n).4);
        }
    }
}

/// The dense audit finds nothing exactly when every reachable rank among the
/// first `n`, zeros included, holds the value its children give it.
pub proof fn lemma_bad_count_zero_iff(reach: Set<int>, values: Seq<i16>, n: int)
    requires
        0 <= n,
    ensures
        bad_count(reach, values, n) == 0 <==> forall|i: int|
            0 <= i < n && reach.contains(i) ==> #[trigger] values[i] as int == expected_value(unrank_spec(i), values),
    decreases n,
{
    if n > 0 {
        lemma_bad_count_zero_iff(reach, values, n - 1);
        lemma_bad_count_le(reach, values, n - 1);
        if bad_count(reach, values, n) == 0 {
            assert forall|i: int| 0 <= i < n && reach.contains(i) implies #[trigger] values[i] as int == expected_value(
                unrank_spec(i),
                values,
            ) by {
                if i < n - 1 {
                    assert(values[i] as int == expected_value(unrank_spec(i), values));
                }
            }
        }
    }
}

/// The value of an unreachable rank changes no total.
pub proof fn lemma_stats_ignore_unreachable(reach: Set<int>, values: Seq<i16>, i: int, x: i16, n: int)
    requires
        !reach.contains(i),
        0 <= i < values.len(),
        n <= values.len(),
    ensures
        stats_spec(reach, values.update(i, x), n) == stats_spec(reach, values, n),
    decreases n,
{
    if n > 0 {
        lemma_stats_ignore_unreachable(reach, values, i, x, n - 1);
        if reach.contains(n - 1) {
            assert(n - 1 != i);
            assert(values.update(i, x)[n - 1] == values[n - 1]);
        }
    }
}

pub fn dense_stats(reachable: &BitSet, values: &[i16]) -> (st: DenseStats)
    requires
        reachable.capacity() >= domain_spec(),
        values@.len() >= domain_spec(),
        values_fit(values@),
    ensures
        ({
            let (p, w, l, d, m) = stats_spec(reachable@, values@, domain_spec());
            &&& st.positions == p
            &&& st.wins == w
            &&& st.losses == l
            &&& st.draws == d
            &&& st.max_dtm == m
        }),
{
    let domain = domain_size();
    let mut positions: usize = 0;
    let mut wins: u64 = 0;
    let mut losses: u64 = 0;
    let mut draws: u64 = 0;
    let mut max_dtm: i16 = 0;
    let mut id: u32 = 0;
    while id < domain
        invariant
            domain == domain_spec(),
            id <= domain,
            reachable.capacity() >= domain_spec(),
            values@.len() >= domain_spec(),
            values_fit(values@),
            ({
                let (p, w, l, d, m) = stats_spec(reachable@, values@, id as int);
                &&& positions == p
                &&& wins == w
                &&& losses == l
                &&& draws == d
                &&& max_dtm == m
            }),
        decreases domain - id,
    {
        proof {
            lemma_stats_bounds(reachable@, values@, id as int);
            lemma_sizes();
        }
        if reachable.get(id) {
            positions += 1;
            let value = values[id as usize];
            if value > 0 {
                wins += 1;
                if value > max_dtm {
                    max_dtm = value;
                }
            } else if value < 0 {
                losses += 1;
                if -value > max_dtm {
                    max_dtm = -value;
                }
            } else {
                draws += 1;
            }
        }
        id += 1;
    }
    DenseStats { positions, wins, losses, draws, max_dtm }
}


/// The candidate parents generated from both mirror images of the position a
/// rank names (the second only when its rotation differs from the first's).
pub open spec fn both_mirror_parents(child_id: int) -> Seq<PosView> {
    let u = unrank_spec(child_id);
    let r1 = rotate_swap_view(u);
    let r2 = rotate_swap_view(mirror_view(u));
    unmove_parents(r1, 20) + if pack_spec(r2) != pack_spec(r1) {
        unmove_parents(r2, 20)
    } else {
        seq![]
    }
}

/// Like `predecessor_ids`, but generating from both mirror images of the child.
pub fn predecessor_ids_both_mirrors(child_id: u32) -> (r: PredecessorIds)
    requires
        child_id < domain_spec(),
    ensures
        strictly_increasing(r.ids@),
        r.ids@.to_set() == ranked(both_mirror_parents(child_id as int)).to_set(),
        r.candidates == both_mirror_parents(child_id as int).len(),
        r.duplicates == ranked(both_mirror_parents(child_id as int)).len() - ranked(
            both_mirror_parents(child_id as int),
        ).to_set().len(),
{
    proof {
        lemma_unrank_hands(child_id as int);
    }
    let child = unrank_raw_sente(child_id);
    let mut candidates: u64 = 0;
    let mut ids: Vec<u32> = Vec::new();
    let raw1 = rotate_swap_to_gote(&child);
    let k1 = pack(&raw1);
    predecessor_candidates_raw(&raw1, &mut candidates, &mut ids);
    proof {
        lemma_unmove_len(raw1@, 20);
    }
    let m = mirror(&child);
    let raw2 = rotate_swap_to_gote(&m);
    let ghost first = unmove_parents(raw1@, 20);
    if pack(&raw2) != k1 {
        predecessor_candidates_raw(&raw2, &mut candidates, &mut ids);
        proof {
            lemma_ranked_append(first, unmove_parents(raw2@, 20));
        }
    } else {
        proof {
            assert(first + Seq::<PosView>::empty() =~= first);
        }
    }
    assert(ids@ =~= ranked(both_mirror_parents(child_id as int)));
    let before = ids.len();
    let sorted = sort_dedup(&ids);
    let after = sorted.len();
    proof {
        lemma_increasing_set_len(sorted@);
    }
    PredecessorIds { ids: sorted, candidates, duplicates: (before - after) as u64 }
}

// ---------------------------------------------------------------------------
// Predecessors of the mirror image
// ---------------------------------------------------------------------------

/// Rotating and mirroring commute.
proof fn lemma_rotate_mirror(u: PosView)
    requires
        u.board.len() == 20,
    ensures
        rotate_swap_view(mirror_view(u)) == mirror_view(rotate_swap_view(u)),
{
    let a = rotate_swap_view(mirror_view(u));
    let b = mirror_view(rotate_swap_view(u));
    assert forall|s: int| 0 <= s < 20 implies a.board[s] == b.board[s] by {
        lemma_mirror_sq(s);
        lemma_mirror_sq(19 - s);
    }
    assert(a.board =~= b.board);
}

/// A square a piece came from to reach `to` in the mirrored board is the mirror
/// of a square a piece came from, along the mirrored direction, in the board.
#[verifier::rlimit(30)]
proof fn lemma_mirror_source_ray(b: Seq<Cell>, to: int, slider: bool, dr: int, df: int, n: int, x: u8)
    requires
        b.len() == 20,
        0 <= to < 20,
        -1 <= df <= 1,
        source_ray(Seq::new(20, |s: int| b[mirror_sq(s)]), to, slider, dr, df, n).contains(x),
    ensures
        x < 20,
        source_ray(b, mirror_sq(to), slider, dr, -df, n).contains(mirror_sq(x as int) as u8),
    decreases 6 - n,
{
    let mb = Seq::new(20, |s: int| b[mirror_sq(s)]);
    lemma_mirror_coords(to);
    let r = sq_rank(to) - n * dr;
    let f = sq_file(to) - n * df;
    assert(sq_file(mirror_sq(to)) - n * (-df) == 3 - f) by (nonlinear_arith)
        requires
            sq_file(mirror_sq(to)) == 3 - sq_file(to),
            f == sq_file(to) - n * df,
    ;
    let ray = source_ray(mb, to, slider, dr, df, n);
    let mray = source_ray(b, mirror_sq(to), slider, dr, -df, n);
    assert(1 <= n <= 5 && in_board(r, f) && mb[r * 4 + f] is None);
    let q = r * 4 + f;
    lemma_mirror_coords(q);
    assert(sq_rank(q) == r && sq_file(q) == f);
    assert(mirror_sq(q) == r * 4 + (3 - f));
    assert(mb[q] == b[mirror_sq(q)]);
    assert(mray[0] == mirror_sq(q) as u8);
    if x == q as u8 {
        assert(mray.contains(mirror_sq(x as int) as u8));
    } else {
        assert(slider);
        let rest = source_ray(mb, to, slider, dr, df, n + 1);
        assert(ray == seq![q as u8] + rest);
        let k = choose|k: int| 0 <= k < ray.len() && ray[k] == x;
        assert(rest[k - 1] == x);
        lemma_mirror_source_ray(b, to, slider, dr, df, n + 1, x);
        let mrest = source_ray(b, mirror_sq(to), slider, dr, -df, n + 1);
        assert(mray == seq![mirror_sq(q) as u8] + mrest);
        let k2 = choose|k2: int| 0 <= k2 < mrest.len() && mrest[k2] == mirror_sq(x as int) as u8;
        assert(mray[k2 + 1] == mirror_sq(x as int) as u8);
    }
}

/// A square is a source over the first `n` directions when it is one along
/// one of them.
#[verifier::rlimit(30)]
proof fn lemma_source_dirs_member(b: Seq<Cell>, to: int, slider: bool, dirs: Seq<(i8, i8)>, n: int, x: u8)
    requires
        0 <= n <= dirs.len(),
    ensures
        source_dirs(b, to, slider, dirs, n).contains(x) <==> exists|i: int|
            0 <= i < n && #[trigger] source_ray(b, to, slider, dirs[i].0 as int, dirs[i].1 as int, 1).contains(x),
    decreases n,
{
    if n > 0 {
        lemma_source_dirs_member(b, to, slider, dirs, n - 1, x);
        let a = source_dirs(b, to, slider, dirs, n - 1);
        let last = source_ray(b, to, slider, dirs[n - 1].0 as int, dirs[n - 1].1 as int, 1);
        assert(source_dirs(b, to, slider, dirs, n) == a + last);
        if (a + last).contains(x) {
            let k = choose|k: int| 0 <= k < (a + last).len() && (a + last)[k] == x;
            if k < a.len() {
                assert(a[k] == x);
                assert(a.contains(x));
                let i = choose|i: int|
                    0 <= i < n - 1 && #[trigger] source_ray(b, to, slider, dirs[i].0 as int, dirs[i].1 as int, 1).contains(x);
                assert(source_ray(b, to, slider, dirs[i].0 as int, dirs[i].1 as int, 1).contains(x));
            } else {
                assert(last[k - a.len()] == x);
                assert(last.contains(x));
                assert(source_ray(b, to, slider, dirs[n - 1].0 as int, dirs[n - 1].1 as int, 1).contains(x));
            }
        }
        if exists|i: int| 0 <= i < n && #[trigger] source_ray(b, to, slider, dirs[i].0 as int, dirs[i].1 as int, 1).contains(x) {
            let i = choose|i: int|
                0 <= i < n && #[trigger] source_ray(b, to, slider, dirs[i].0 as int, dirs[i].1 as int, 1).contains(x);
            if i < n - 1 {
                let k = choose|k: int| 0 <= k < a.len() && a[k] == x;
                assert((a + last)[k] == x);
            } else {
                let k = choose|k: int| 0 <= k < last.len() && last[k] == x;
                assert((a + last)[a.len() + k] == x);
            }
        }
    }
}

/// Where a piece's `i`-th direction lands when mirrored, in its own list.
pub open spec fn mirror_index(kind: Kind, promo: bool, i: int) -> int {
    match kind {
        Kind::King => if i == 0 { 2 } else if i == 1 { 1 } else if i == 2 { 0 } else if i == 3 { 4 } else if i == 4 { 3 }
            else if i == 5 { 7 } else if i == 6 { 6 } else { 5 },
        Kind::Gold => if !promo {
            if i == 0 { 2 } else if i == 1 { 1 } else if i == 2 { 0 } else if i == 3 { 4 } else if i == 4 { 3 } else { 5 }
        } else {
            if i == 0 { 0 } else if i == 1 { 1 } else if i == 2 { 3 } else { 2 }
        },
        Kind::Silver => if !promo {
            if i == 0 { 2 } else if i == 1 { 1 } else if i == 2 { 0 } else if i == 3 { 4 } else { 3 }
        } else {
            0
        },
        Kind::Bishop => if !promo {
            if i == 0 { 1 } else if i == 1 { 0 } else if i == 2 { 3 } else { 2 }
        } else {
            if i == 0 { 2 } else if i == 1 { 1 } else if i == 2 { 0 } else if i == 3 { 4 } else if i == 4 { 3 } else { 5 }
        },
        Kind::Pawn => if !promo {
            0
        } else {
            if i == 0 { 1 } else { 0 }
        },
    }
}

/// Every direction of a piece, mirrored, is again one of its directions.
proof fn lemma_mirror_dir(kind: Kind, promo: bool, owner: Owner, i: int)
    requires
        0 <= i < movement_spec(kind, promo, owner).1.len(),
    ensures
        ({
            let dirs = movement_spec(kind, promo, owner).1;
            let j = mirror_index(kind, promo, i);
            &&& 0 <= j < dirs.len()
            &&& dirs[j].0 == dirs[i].0
            &&& dirs[j].1 as int == -(dirs[i].1 as int)
        }),
{
    let f = crate::rules::fwd_spec(owner);
    assert(f == 1 || f == -1);
}

/// The sources of the mirrored board are the mirrors of the sources.
#[verifier::rlimit(30)]
proof fn lemma_mirror_sources(b: Seq<Cell>, to: int, kind: Kind, promo: bool, owner: Owner, x: u8)
    requires
        b.len() == 20,
        0 <= to < 20,
        sources_spec(Seq::new(20, |s: int| b[mirror_sq(s)]), to, kind, promo, owner).contains(x),
    ensures
        x < 20,
        sources_spec(b, mirror_sq(to), kind, promo, owner).contains(mirror_sq(x as int) as u8),
{
    let mb = Seq::new(20, |s: int| b[mirror_sq(s)]);
    let (slider, dirs) = movement_spec(kind, promo, owner);
    lemma_movement_dirs(kind, promo, owner);
    lemma_source_dirs_member(mb, to, slider, dirs, dirs.len() as int, x);
    let i = choose|i: int|
        0 <= i < dirs.len() && #[trigger] source_ray(mb, to, slider, dirs[i].0 as int, dirs[i].1 as int, 1).contains(x);
    let d = dirs[i];
    assert(-1 <= d.1 <= 1);
    lemma_mirror_source_ray(b, to, slider, d.0 as int, d.1 as int, 1, x);
    lemma_mirror_dir(kind, promo, owner, i);
    let j = mirror_index(kind, promo, i);
    let mx = mirror_sq(x as int) as u8;
    assert(source_ray(b, mirror_sq(to), slider, dirs[j].0 as int, dirs[j].1 as int, 1).contains(mx));
    lemma_source_dirs_member(b, mirror_sq(to), slider, dirs, dirs.len() as int, mx);
}

proof fn lemma_capture_parents_member(c: PosView, to: int, kind: Kind, op: bool, froms: Seq<u8>, q: PosView)
    requires
        capture_parents(c, to, kind, op, froms).contains(q),
    ensures
        exists|i: int| 0 <= i < froms.len() && #[trigger] from_captures(c, to, kind, op, froms[i] as int).contains(q),
    decreases froms.len(),
{
    if froms.len() > 0 {
        let a = capture_parents(c, to, kind, op, froms.drop_last());
        let last = from_captures(c, to, kind, op, froms.last() as int);
        let k = choose|k: int| 0 <= k < (a + last).len() && (a + last)[k] == q;
        if k < a.len() {
            assert(a[k] == q);
            lemma_capture_parents_member(c, to, kind, op, froms.drop_last(), q);
            let i = choose|i: int|
                0 <= i < froms.drop_last().len() && #[trigger] from_captures(c, to, kind, op, froms.drop_last()[i] as int).contains(q);
            assert(froms[i] == froms.drop_last()[i]);
            assert(from_captures(c, to, kind, op, froms[i] as int).contains(q));
        } else {
            assert(last[k - a.len()] == q);
            assert(last.contains(q));
            assert(froms[froms.len() - 1] == froms.last());
            assert(from_captures(c, to, kind, op, froms[froms.len() - 1] as int).contains(q));
        }
    }
}

proof fn lemma_capture_parents_include(c: PosView, to: int, kind: Kind, op: bool, froms: Seq<u8>, i: int, q: PosView)
    requires
        0 <= i < froms.len(),
        from_captures(c, to, kind, op, froms[i] as int).contains(q),
    ensures
        capture_parents(c, to, kind, op, froms).contains(q),
    decreases froms.len(),
{
    let a = capture_parents(c, to, kind, op, froms.drop_last());
    let last = from_captures(c, to, kind, op, froms.last() as int);
    if i < froms.len() - 1 {
        assert(froms.drop_last()[i] == froms[i]);
        lemma_capture_parents_include(c, to, kind, op, froms.drop_last(), i, q);
        let k = choose|k: int| 0 <= k < a.len() && a[k] == q;
        assert((a + last)[k] == q);
    } else {
        let k = choose|k: int| 0 <= k < last.len() && last[k] == q;
        assert((a + last)[a.len() + k] == q);
    }
}

proof fn lemma_unmove_member(c: PosView, n: int, q: PosView)
    requires
        unmove_parents(c, n).contains(q),
    ensures
        exists|to: int| 0 <= to < n && #[trigger] square_parents(c, to).contains(q),
    decreases n,
{
    if n > 0 {
        let a = unmove_parents(c, n - 1);
        let last = square_parents(c, n - 1);
        let k = choose|k: int| 0 <= k < (a + last).len() && (a + last)[k] == q;
        if k < a.len() {
            assert(a[k] == q);
            assert(a.contains(q));
            lemma_unmove_member(c, n - 1, q);
            let to = choose|to: int| 0 <= to < n - 1 && #[trigger] square_parents(c, to).contains(q);
            assert(square_parents(c, to).contains(q));
        } else {
            assert(last[k - a.len()] == q);
            assert(last.contains(q));
            assert(square_parents(c, n - 1).contains(q));
        }
    }
}

proof fn lemma_unmove_include(c: PosView, n: int, to: int, q: PosView)
    requires
        0 <= to < n,
        square_parents(c, to).contains(q),
    ensures
        unmove_parents(c, n).contains(q),
    decreases n,
{
    let a = unmove_parents(c, n - 1);
    let last = square_parents(c, n - 1);
    if to < n - 1 {
        lemma_unmove_include(c, n - 1, to, q);
        let k = choose|k: int| 0 <= k < a.len() && a[k] == q;
        assert((a + last)[k] == q);
    } else {
        let k = choose|k: int| 0 <= k < last.len() && last[k] == q;
        assert((a + last)[a.len() + k] == q);
    }
}

proof fn lemma_ranked_member(ps: Seq<PosView>, r: u32)
    requires
        ranked(ps).contains(r),
    ensures
        exists|i: int| 0 <= i < ps.len() && canonical_rank_spec(#[trigger] ps[i]) == Some(r),
    decreases ps.len(),
{
    if ps.len() > 0 {
        let a = ranked(ps.drop_last());
        let last = match canonical_rank_spec(ps.last()) {
            Some(x) => seq![x],
            None => seq![],
        };
        assert(ranked(ps) == a + last);
        let k = choose|k: int| 0 <= k < (a + last).len() && (a + last)[k] == r;
        if k < a.len() {
            assert(a[k] == r);
            lemma_ranked_member(ps.drop_last(), r);
            let i = choose|i: int| 0 <= i < ps.drop_last().len() && canonical_rank_spec(#[trigger] ps.drop_last()[i]) == Some(r);
            assert(ps[i] == ps.drop_last()[i]);
        } else {
            assert(canonical_rank_spec(ps[ps.len() - 1]) == Some(r));
        }
    }
}

proof fn lemma_ranked_include(ps: Seq<PosView>, i: int, r: u32)
    requires
        0 <= i < ps.len(),
        canonical_rank_spec(ps[i]) == Some(r),
    ensures
        ranked(ps).contains(r),
    decreases ps.len(),
{
    let a = ranked(ps.drop_last());
    let last = match canonical_rank_spec(ps.last()) {
        Some(x) => seq![x],
        None => seq![],
    };
    assert(ranked(ps) == a + last);
    if i < ps.len() - 1 {
        assert(ps.drop_last()[i] == ps[i]);
        lemma_ranked_include(ps.drop_last(), i, r);
        let k = choose|k: int| 0 <= k < a.len() && a[k] == r;
        assert((a + last)[k] == r);
    } else {
        assert((a + last)[a.len() as int] == r);
    }
}

proof fn lemma_mirror_undrop(x: PosView, to: int, kind: Kind)
    requires
        x.board.len() == 20,
        0 <= to < 20,
    ensures
        mirror_view(undrop_parent(mirror_view(x), to, kind)) == undrop_parent(x, mirror_sq(to), kind),
{
    let a = mirror_view(undrop_parent(mirror_view(x), to, kind));
    let b = undrop_parent(x, mirror_sq(to), kind);
    lemma_mirror_sq(to);
    assert forall|s: int| 0 <= s < 20 implies a.board[s] == b.board[s] by {
        lemma_mirror_sq(s);
    }
    assert(a.board =~= b.board);
}

proof fn lemma_mirror_quiet(x: PosView, to: int, kind: Kind, promo: bool, from: int)
    requires
        x.board.len() == 20,
        0 <= to < 20,
        0 <= from < 20,
    ensures
        mirror_view(quiet_parent(mirror_view(x), to, kind, promo, from)) == quiet_parent(
            x,
            mirror_sq(to),
            kind,
            promo,
            mirror_sq(from),
        ),
{
    let a = mirror_view(quiet_parent(mirror_view(x), to, kind, promo, from));
    let b = quiet_parent(x, mirror_sq(to), kind, promo, mirror_sq(from));
    lemma_mirror_sq(to);
    lemma_mirror_sq(from);
    assert forall|s: int| 0 <= s < 20 implies a.board[s] == b.board[s] by {
        lemma_mirror_sq(s);
    }
    assert(a.board =~= b.board);
}

proof fn lemma_mirror_capture(x: PosView, to: int, kind: Kind, op: bool, from: int, ck: Kind, cp: bool)
    requires
        x.board.len() == 20,
        0 <= to < 20,
        0 <= from < 20,
    ensures
        mirror_view(capture_parent(mirror_view(x), to, kind, op, from, ck, cp)) == capture_parent(
            x,
            mirror_sq(to),
            kind,
            op,
            mirror_sq(from),
            ck,
            cp,
        ),
{
    let a = mirror_view(capture_parent(mirror_view(x), to, kind, op, from, ck, cp));
    let b = capture_parent(x, mirror_sq(to), kind, op, mirror_sq(from), ck, cp);
    lemma_mirror_sq(to);
    lemma_mirror_sq(from);
    assert forall|s: int| 0 <= s < 20 implies a.board[s] == b.board[s] by {
        lemma_mirror_sq(s);
    }
    assert(a.board =~= b.board);
}

#[verifier::rlimit(30)]
proof fn lemma_mirror_from_captures(x: PosView, to: int, kind: Kind, op: bool, from: int, q: PosView)
    requires
        x.board.len() == 20,
        0 <= to < 20,
        0 <= from < 20,
        from_captures(mirror_view(x), to, kind, op, from).contains(q),
    ensures
        q.board.len() == 20,
        from_captures(x, mirror_sq(to), kind, op, mirror_sq(from)).contains(mirror_view(q)),
{
    let mx = mirror_view(x);
    let fc = from_captures(mx, to, kind, op, from);
    let fc2 = from_captures(x, mirror_sq(to), kind, op, mirror_sq(from));
    let k = choose|k: int| 0 <= k < fc.len() && fc[k] == q;
    lemma_mirror_capture(x, to, kind, op, from, Kind::Gold, false);
    lemma_mirror_capture(x, to, kind, op, from, Kind::Gold, true);
    lemma_mirror_capture(x, to, kind, op, from, Kind::Pawn, false);
    lemma_mirror_capture(x, to, kind, op, from, Kind::Pawn, true);
    assert(fc2.len() == fc.len());
    assert(fc2[k] == mirror_view(fc[k]));
}

/// A candidate parent of the mirrored position, mirrored, is a candidate parent
/// of the position, through the mirrored square.
#[verifier::rlimit(30)]
proof fn lemma_mirror_square_parents(x: PosView, to: int, q: PosView)
    requires
        x.board.len() == 20,
        0 <= to < 20,
        square_parents(mirror_view(x), to).contains(q),
    ensures
        q.board.len() == 20,
        square_parents(x, mirror_sq(to)).contains(mirror_view(q)),
{
    let mx = mirror_view(x);
    let mto = mirror_sq(to);
    lemma_mirror_sq(to);
    assert(mx.board == Seq::new(20, |s: int| x.board[mirror_sq(s)]));
    assert(mx.board[to] == x.board[mto]);
    let t = mx.board[to]->Some_0;
    let kind = t.0;
    let promo = t.1;
    let op = face_before_capture(kind, promo);
    let s1 = sources_spec(mx.board, to, kind, promo, Owner::Sente);
    let s2 = sources_spec(mx.board, to, kind, op, Owner::Sente);
    let t1 = sources_spec(x.board, mto, kind, promo, Owner::Sente);
    let t2 = sources_spec(x.board, mto, kind, op, Owner::Sente);
    let a = if kind != Kind::King { seq![undrop_parent(mx, to, kind)] } else { seq![] };
    let b = quiet_parents(mx, to, kind, promo, s1);
    let c = capture_parents(mx, to, kind, op, s2);
    let a2 = if kind != Kind::King { seq![undrop_parent(x, mto, kind)] } else { seq![] };
    let b2 = quiet_parents(x, mto, kind, promo, t1);
    let c2 = capture_parents(x, mto, kind, op, t2);
    assert(square_parents(mx, to) == a + b + c);
    assert(square_parents(x, mto) == a2 + b2 + c2);
    let sp = a + b + c;
    let sp2 = a2 + b2 + c2;
    let idx = choose|idx: int| 0 <= idx < sp.len() && sp[idx] == q;
    let mq = mirror_view(q);
    if idx < a.len() {
        assert(q == undrop_parent(mx, to, kind));
        lemma_mirror_undrop(x, to, kind);
        assert(sp2[idx] == mq);
    } else if idx < a.len() + b.len() {
        let i = idx - a.len();
        let f = s1[i];
        assert(b[i] == q);
        assert(s1.contains(f));
        lemma_mirror_sources(x.board, to, kind, promo, Owner::Sente, f);
        let mf = mirror_sq(f as int) as u8;
        let j = choose|j: int| 0 <= j < t1.len() && t1[j] == mf;
        lemma_mirror_quiet(x, to, kind, promo, f as int);
        lemma_mirror_sq(f as int);
        assert(b2[j] == mq);
        assert(sp2[a2.len() + j] == mq);
    } else {
        let i = idx - a.len() - b.len();
        assert(c[i] == q);
        assert(c.contains(q));
        lemma_capture_parents_member(mx, to, kind, op, s2, q);
        let w = choose|w: int| 0 <= w < s2.len() && #[trigger] from_captures(mx, to, kind, op, s2[w] as int).contains(q);
        let f = s2[w];
        assert(s2.contains(f));
        lemma_mirror_sources(x.board, to, kind, op, Owner::Sente, f);
        let mf = mirror_sq(f as int) as u8;
        lemma_mirror_sq(f as int);
        lemma_mirror_from_captures(x, to, kind, op, f as int, q);
        let j = choose|j: int| 0 <= j < t2.len() && t2[j] == mf;
        lemma_capture_parents_include(x, mto, kind, op, t2, j, mq);
        let k2 = choose|k2: int| 0 <= k2 < c2.len() && c2[k2] == mq;
        assert(sp2[a2.len() + b2.len() + k2] == mq);
    }
}

/// Every rank among the candidate parents of the mirrored position is a rank
/// among the candidate parents of the position.
proof fn lemma_mirror_unmove_ranks(x: PosView, r: u32)
    requires
        x.board.len() == 20,
        ranked(unmove_parents(mirror_view(x), 20)).contains(r),
    ensures
        ranked(unmove_parents(x, 20)).contains(r),
{
    let ps = unmove_parents(mirror_view(x), 20);
    lemma_ranked_member(ps, r);
    let i = choose|i: int| 0 <= i < ps.len() && canonical_rank_spec(#[trigger] ps[i]) == Some(r);
    let q = ps[i];
    assert(ps.contains(q));
    lemma_unmove_member(mirror_view(x), 20, q);
    let to = choose|to: int| 0 <= to < 20 && #[trigger] square_parents(mirror_view(x), to).contains(q);
    lemma_mirror_square_parents(x, to, q);
    lemma_mirror_sq(to);
    lemma_unmove_include(x, 20, mirror_sq(to), mirror_view(q));
    let ps2 = unmove_parents(x, 20);
    let j = choose|j: int| 0 <= j < ps2.len() && ps2[j] == mirror_view(q);
    lemma_rank_canonical_mirror(q);
    lemma_ranked_include(ps2, j, r);
}

/// Generating predecessors from one orientation of a child gives the same
/// canonical ranks as generating them from both of its mirror images.
#[verifier::rlimit(30)]
pub proof fn lemma_single_orientation(child_id: int)
    requires
        0 <= child_id < domain_spec(),
    ensures
        ranked(pred_parents(child_id)).to_set() == ranked(both_mirror_parents(child_id)).to_set(),
{
    let u = unrank_spec(child_id);
    let r1 = rotate_swap_view(u);
    let r2 = rotate_swap_view(mirror_view(u));
    lemma_rotate_mirror(u);
    let first = unmove_parents(r1, 20);
    let second = if pack_spec(r2) != pack_spec(r1) { unmove_parents(r2, 20) } else { seq![] };
    lemma_ranked_append(first, second);
    assert(both_mirror_parents(child_id) == first + second);
    assert forall|r: u32| #[trigger] ranked(both_mirror_parents(child_id)).to_set().contains(r) implies ranked(
        first,
    ).to_set().contains(r) by {
        let all = ranked(first) + ranked(second);
        assert(all.contains(r));
        let k = choose|k: int| 0 <= k < all.len() && all[k] == r;
        if k < ranked(first).len() {
            assert(ranked(first)[k] == r);
        } else {
            assert(ranked(second)[k - ranked(first).len()] == r);
            assert(ranked(second).contains(r));
            if pack_spec(r2) != pack_spec(r1) {
                lemma_mirror_unmove_ranks(r1, r);
            } else {
                assert(second == Seq::<PosView>::empty());
                assert(ranked(second) == Seq::<u32>::empty());
            }
        }
    }
    assert forall|r: u32| #[trigger] ranked(first).to_set().contains(r) implies ranked(
        both_mirror_parents(child_id),
    ).to_set().contains(r) by {
        let k = choose|k: int| 0 <= k < ranked(first).len() && ranked(first)[k] == r;
        assert((ranked(first) + ranked(second))[k] == r);
    }
    assert(ranked(pred_parents(child_id)).to_set() =~= ranked(both_mirror_parents(child_id)).to_set());
}

/// Two strictly increasing sequences with the same elements are equal.
pub proof fn lemma_increasing_unique(a: Seq<u32>, b: Seq<u32>)
    requires
        strictly_increasing(a),
        strictly_increasing(b),
        a.to_set() == b.to_set(),
    ensures
        a == b,
{
    lemma_increasing_set_len(a);
    lemma_increasing_set_len(b);
    lemma_increasing_prefix(a, b, a.len() as int);
    assert(a =~= b);
}

proof fn lemma_increasing_prefix(a: Seq<u32>, b: Seq<u32>, n: int)
    requires
        strictly_increasing(a),
        strictly_increasing(b),
        a.to_set() == b.to_set(),
        a.len() == b.len(),
        0 <= n <= a.len(),
    ensures
        forall|i: int| 0 <= i < n ==> a[i] == b[i],
    decreases n,
{
    if n > 0 {
        lemma_increasing_prefix(a, b, n - 1);
        let m = n - 1;
        assert(a.to_set().contains(a[m]));
        assert(b.to_set().contains(a[m]));
        let j = choose|j: int| 0 <= j < b.len() && b[j] == a[m];
        if j < m {
            assert(b[j] == a[j]);
        } else if j > m {
            assert(b[m] < b[j]);
        }
        assert(b[m] <= a[m]);
        assert(a.to_set().contains(b[m]));
        let j2 = choose|j2: int| 0 <= j2 < a.len() && a[j2] == b[m];
        if j2 < m {
            assert(b[j2] == a[j2]);
            assert(b[j2] < b[m]);
        } else if j2 > m {
            assert(a[m] < a[j2]);
        }
    }
}

// ---------------------------------------------------------------------------
// Every forward move is undone by a generated predecessor
// ---------------------------------------------------------------------------

/// The square `k` steps from `sq` along (dr, df).
pub open spec fn ray_sq(sq: int, dr: int, df: int, k: int) -> int {
    (sq_rank(sq) + k * dr) * 4 + sq_file(sq) + k * df
}

pub open spec fn ray_in(sq: int, dr: int, df: int, k: int) -> bool {
    in_board(sq_rank(sq) + k * dr, sq_file(sq) + k * df)
}

/// Steps `a..b` from `sq` along (dr, df) are on the board and empty.
pub open spec fn ray_clear(b: Seq<Cell>, sq: int, dr: int, df: int, lo: int, hi: int) -> bool {
    forall|k: int| lo <= k < hi ==> ray_in(sq, dr, df, k) && b[#[trigger] ray_sq(sq, dr, df, k)] is None
}

/// A move along a ray lands some steps out, past empty squares only, and only
/// a slider goes beyond the first step.
#[verifier::rlimit(30)]
proof fn lemma_ray_member(
    p: PosView,
    sq: int,
    kind: Kind,
    promo: bool,
    slider: bool,
    dr: int,
    df: int,
    n0: int,
    m: Move,
)
    requires
        1 <= n0,
        ray_moves(p, sq, kind, promo, slider, dr, df, n0).contains(m),
    ensures
        exists|n: int|
            n0 <= n <= 5 && (n == n0 || slider) && ray_clear(p.board, sq, dr, df, n0, n) && ray_in(sq, dr, df, n)
                && m.to as int == #[trigger] ray_sq(sq, dr, df, n) && m.from == Some(sq as u8),
    decreases 6 - n0,
{
    let ray = ray_moves(p, sq, kind, promo, slider, dr, df, n0);
    let k = choose|k: int| 0 <= k < ray.len() && ray[k] == m;
    let nr = sq_rank(sq) + n0 * dr;
    let nf = sq_file(sq) + n0 * df;
    assert(n0 <= 5 && in_board(nr, nf));
    let nsq = nr * 4 + nf;
    assert(nsq == ray_sq(sq, dr, df, n0));
    if k == 0 {
        assert(ray_clear(p.board, sq, dr, df, n0, n0));
        assert(m.to as int == ray_sq(sq, dr, df, n0));
    } else {
        let rest = ray_moves(p, sq, kind, promo, slider, dr, df, n0 + 1);
        assert(ray == seq![ray[0]] + rest);
        assert(rest[k - 1] == m);
        lemma_ray_member(p, sq, kind, promo, slider, dr, df, n0 + 1, m);
        let n = choose|n: int|
            n0 + 1 <= n <= 5 && (n == n0 + 1 || slider) && ray_clear(p.board, sq, dr, df, n0 + 1, n) && ray_in(
                sq,
                dr,
                df,
                n,
            ) && m.to as int == #[trigger] ray_sq(sq, dr, df, n) && m.from == Some(sq as u8);
        assert(p.board[nsq] is None);
        assert(ray_clear(p.board, sq, dr, df, n0, n));
        assert(m.to as int == ray_sq(sq, dr, df, n));
    }
}

proof fn lemma_dirs_member(
    p: PosView,
    sq: int,
    kind: Kind,
    promo: bool,
    slider: bool,
    dirs: Seq<(i8, i8)>,
    n: int,
    m: Move,
)
    requires
        dirs_moves(p, sq, kind, promo, slider, dirs, n).contains(m),
    ensures
        exists|i: int|
            0 <= i < n && #[trigger] ray_moves(p, sq, kind, promo, slider, dirs[i].0 as int, dirs[i].1 as int, 1).contains(
                m,
            ),
    decreases n,
{
    if n > 0 {
        let a = dirs_moves(p, sq, kind, promo, slider, dirs, n - 1);
        let last = ray_moves(p, sq, kind, promo, slider, dirs[n - 1].0 as int, dirs[n - 1].1 as int, 1);
        let k = choose|k: int| 0 <= k < (a + last).len() && (a + last)[k] == m;
        if k < a.len() {
            assert(a[k] == m);
            assert(a.contains(m));
            lemma_dirs_member(p, sq, kind, promo, slider, dirs, n - 1, m);
            let i = choose|i: int|
                0 <= i < n - 1 && #[trigger] ray_moves(p, sq, kind, promo, slider, dirs[i].0 as int, dirs[i].1 as int, 1).contains(m);
            assert(ray_moves(p, sq, kind, promo, slider, dirs[i].0 as int, dirs[i].1 as int, 1).contains(m));
        } else {
            assert(last[k - a.len()] == m);
            assert(last.contains(m));
        }
    }
}

proof fn lemma_squares_member(p: PosView, n: int, m: Move)
    requires
        squares_moves(p, n).contains(m),
    ensures
        exists|sq: int| 0 <= sq < n && #[trigger] piece_moves(p, sq).contains(m),
    decreases n,
{
    if n > 0 {
        let a = squares_moves(p, n - 1);
        let last = piece_moves(p, n - 1);
        let k = choose|k: int| 0 <= k < (a + last).len() && (a + last)[k] == m;
        if k < a.len() {
            assert(a[k] == m);
            assert(a.contains(m));
            lemma_squares_member(p, n - 1, m);
            let sq = choose|sq: int| 0 <= sq < n - 1 && #[trigger] piece_moves(p, sq).contains(m);
            assert(piece_moves(p, sq).contains(m));
        } else {
            assert(last[k - a.len()] == m);
            assert(last.contains(m));
        }
    }
}

proof fn lemma_square_drops_none(p: PosView, kind: Kind, n: int, m: Move)
    requires
        square_drops(p, kind, n).contains(m),
    ensures
        m.from is None,
    decreases n,
{
    if n > 0 {
        let a = square_drops(p, kind, n - 1);
        let last = if p.board[n - 1] is Some {
            seq![]
        } else {
            seq![
                Move { kind, from: None, to: (n - 1) as u8, capture: false, promo: false },
                Move { kind, from: None, to: (n - 1) as u8, capture: false, promo: true },
            ]
        };
        assert(square_drops(p, kind, n) == a + last);
        let k = choose|k: int| 0 <= k < (a + last).len() && (a + last)[k] == m;
        if k < a.len() {
            assert(a[k] == m);
            lemma_square_drops_none(p, kind, n - 1, m);
        } else {
            assert(last[k - a.len()] == m);
        }
    }
}

proof fn lemma_hand_drops_none(p: PosView, n: int, m: Move)
    requires
        hand_drops(p, n).contains(m),
    ensures
        m.from is None,
    decreases n,
{
    if n > 0 {
        let a = hand_drops(p, n - 1);
        let last = if hand_of(p, p.turn)[n - 1] == 0 {
            seq![]
        } else {
            square_drops(p, slot_kind(n - 1), 20)
        };
        assert(hand_drops(p, n) == a + last);
        let k = choose|k: int| 0 <= k < (a + last).len() && (a + last)[k] == m;
        if k < a.len() {
            assert(a[k] == m);
            lemma_hand_drops_none(p, n - 1, m);
        } else {
            assert(last[k - a.len()] == m);
            lemma_square_drops_none(p, slot_kind(n - 1), 20, m);
        }
    }
}

/// The square `k` steps back from `t` along (dr, df).
pub open spec fn back_sq(t: int, dr: int, df: int, k: int) -> int {
    (sq_rank(t) - k * dr) * 4 + sq_file(t) - k * df
}

pub open spec fn back_in(t: int, dr: int, df: int, k: int) -> bool {
    in_board(sq_rank(t) - k * dr, sq_file(t) - k * df)
}

/// Walking back from `t` over empty squares reaches an empty square `n` steps back.
proof fn lemma_source_walk(b: Seq<Cell>, t: int, slider: bool, dr: int, df: int, j: int, n: int)
    requires
        1 <= j <= n <= 5,
        n == 1 || slider,
        forall|k: int| j <= k <= n ==> back_in(t, dr, df, k) && b[#[trigger] back_sq(t, dr, df, k)] is None,
    ensures
        source_ray(b, t, slider, dr, df, j).contains(back_sq(t, dr, df, n) as u8),
    decreases n - j,
{
    let ray = source_ray(b, t, slider, dr, df, j);
    assert(back_in(t, dr, df, j) && b[back_sq(t, dr, df, j)] is None);
    if j == n {
        assert(ray[0] == back_sq(t, dr, df, n) as u8);
    } else {
        lemma_source_walk(b, t, slider, dr, df, j + 1, n);
        let rest = source_ray(b, t, slider, dr, df, j + 1);
        assert(ray == seq![back_sq(t, dr, df, j) as u8] + rest);
        let k = choose|k: int| 0 <= k < rest.len() && rest[k] == back_sq(t, dr, df, n) as u8;
        assert(ray[k + 1] == back_sq(t, dr, df, n) as u8);
    }
}

/// A board move goes from the mover's piece along one of its directions, some
/// steps out, past empty squares only.
#[verifier::rlimit(30)]
proof fn lemma_board_move_ray(p: PosView, m: Move)
    requires
        p.board.len() == 20,
        moves_spec(p).contains(m),
        m.from is Some,
    ensures
        ({
            let sq = m.from->Some_0 as int;
            let t = p.board[sq]->Some_0;
            let (slider, dirs) = movement_spec(t.0, t.1, t.2);
            &&& 0 <= sq < 20
            &&& p.board[sq] is Some
            &&& t.2 == p.turn
            &&& exists|i: int, n: int|
                0 <= i < dirs.len() && 1 <= n <= 5 && (n == 1 || slider) && ray_clear(
                    p.board,
                    sq,
                    dirs[i].0 as int,
                    dirs[i].1 as int,
                    1,
                    n,
                ) && ray_in(sq, dirs[i].0 as int, dirs[i].1 as int, n) && m.to as int == #[trigger] ray_sq(
                    sq,
                    dirs[i].0 as int,
                    dirs[i].1 as int,
                    n,
                )
        }),
{
    let a = squares_moves(p, 20);
    let h = hand_drops(p, 4);
    assert(moves_spec(p) == a + h);
    let k = choose|k: int| 0 <= k < (a + h).len() && (a + h)[k] == m;
    if k >= a.len() {
        assert(h[k - a.len()] == m);
        assert(h.contains(m));
        lemma_hand_drops_none(p, 4, m);
    }
    assert(a[k] == m);
    assert(a.contains(m));
    lemma_squares_member(p, 20, m);
    let sq = choose|sq: int| 0 <= sq < 20 && #[trigger] piece_moves(p, sq).contains(m);
    let cell = p.board[sq];
    assert(cell matches Some(c) && c.2 == p.turn);
    let t = cell->Some_0;
    let (slider, dirs) = movement_spec(t.0, t.1, t.2);
    lemma_dirs_member(p, sq, t.0, t.1, slider, dirs, dirs.len() as int, m);
    let i = choose|i: int|
        0 <= i < dirs.len() && #[trigger] ray_moves(p, sq, t.0, t.1, slider, dirs[i].0 as int, dirs[i].1 as int, 1).contains(m);
    lemma_ray_member(p, sq, t.0, t.1, slider, dirs[i].0 as int, dirs[i].1 as int, 1, m);
    let n = choose|n: int|
        1 <= n <= 5 && (n == 1 || slider) && ray_clear(p.board, sq, dirs[i].0 as int, dirs[i].1 as int, 1, n) && ray_in(
            sq,
            dirs[i].0 as int,
            dirs[i].1 as int,
            n,
        ) && m.to as int == #[trigger] ray_sq(sq, dirs[i].0 as int, dirs[i].1 as int, n) && m.from == Some(sq as u8);
    assert(m.from->Some_0 as int == sq);
    assert(m.to as int == ray_sq(sq, dirs[i].0 as int, dirs[i].1 as int, n));
}

/// Two steps along the same non-null direction land on different squares.
proof fn lemma_ray_distinct(sq: int, dr: int, df: int, a: int, b: int)
    requires
        0 <= sq < 20,
        !(dr == 0 && df == 0),
        ray_in(sq, dr, df, a),
        ray_in(sq, dr, df, b),
        a != b,
    ensures
        ray_sq(sq, dr, df, a) != ray_sq(sq, dr, df, b),
{
    let r = sq_rank(sq);
    let f = sq_file(sq);
    if ray_sq(sq, dr, df, a) == ray_sq(sq, dr, df, b) {
        let ra = r + a * dr;
        let fa = f + a * df;
        let rb = r + b * dr;
        let fb = f + b * df;
        assert(ra == rb && fa == fb) by (nonlinear_arith)
            requires
                ra * 4 + fa == rb * 4 + fb,
                0 <= fa < 4,
                0 <= fb < 4,
        ;
        assert((a - b) * dr == 0 && (a - b) * df == 0) by (nonlinear_arith)
            requires
                ra == r + a * dr,
                rb == r + b * dr,
                fa == f + a * df,
                fb == f + b * df,
                ra == rb,
                fa == fb,
        ;
        assert(false) by (nonlinear_arith)
            requires
                (a - b) * dr == 0,
                (a - b) * df == 0,
                a != b,
                !(dr == 0 && df == 0),
        ;
    }
}

/// The square a board move left is a source of its target square after the
/// move, for the piece's own face and directions.
#[verifier::rlimit(30)]
proof fn lemma_board_move_source(p: PosView, m: Move)
    requires
        p.board.len() == 20,
        moves_spec(p).contains(m),
        m.from is Some,
    ensures
        ({
            let sq = m.from->Some_0 as int;
            let t = p.board[sq]->Some_0;
            sources_spec(make_spec(p, m).board, m.to as int, t.0, t.1, t.2).contains(sq as u8)
        }),
{
    lemma_board_move_ray(p, m);
    lemma_moves_shape(p);
    let w = choose|w: int| 0 <= w < moves_spec(p).len() && moves_spec(p)[w] == m;
    assert(crate::rules::move_shape(p, moves_spec(p)[w]));
    let sq = m.from->Some_0 as int;
    let pc = p.board[sq]->Some_0;
    let (slider, dirs) = movement_spec(pc.0, pc.1, pc.2);
    let (i, n) = choose|i: int, n: int|
        0 <= i < dirs.len() && 1 <= n <= 5 && (n == 1 || slider) && ray_clear(
            p.board,
            sq,
            dirs[i].0 as int,
            dirs[i].1 as int,
            1,
            n,
        ) && ray_in(sq, dirs[i].0 as int, dirs[i].1 as int, n) && m.to as int == #[trigger] ray_sq(
            sq,
            dirs[i].0 as int,
            dirs[i].1 as int,
            n,
        );
    let dr = dirs[i].0 as int;
    let df = dirs[i].1 as int;
    lemma_movement_dirs(pc.0, pc.1, pc.2);
    assert(!(dr == 0 && df == 0));
    let t = m.to as int;
    let cb = make_spec(p, m).board;
    let placed = Some((m.kind, m.promo, p.turn));
    assert(cb == p.board.update(sq, None).update(t, placed));
    let r = sq_rank(sq);
    let f = sq_file(sq);
    lemma_mirror_coords(sq);
    assert(sq_rank(t) == r + n * dr && sq_file(t) == f + n * df) by {
        let tr = r + n * dr;
        let tf = f + n * df;
        assert(t == tr * 4 + tf);
        assert(0 <= tf < 4 && 0 <= tr < 5);
    }
    assert forall|k: int| 1 <= k <= n implies back_in(t, dr, df, k) && cb[#[trigger] back_sq(t, dr, df, k)] is None by {
        assert(back_sq(t, dr, df, k) == ray_sq(sq, dr, df, n - k) && back_in(t, dr, df, k) == ray_in(sq, dr, df, n - k))
            by (nonlinear_arith)
            requires
                sq_rank(t) == r + n * dr,
                sq_file(t) == f + n * df,
                sq_rank(sq) == r,
                sq_file(sq) == f,
        ;
        if k < n {
            assert(ray_in(sq, dr, df, n - k) && p.board[ray_sq(sq, dr, df, n - k)] is None);
            lemma_ray_distinct(sq, dr, df, n - k, n);
            assert(ray_in(sq, dr, df, 0));
            assert(ray_sq(sq, dr, df, 0) == sq);
            lemma_ray_distinct(sq, dr, df, n - k, 0);
        } else {
            assert(ray_sq(sq, dr, df, 0) == sq);
            assert(ray_in(sq, dr, df, 0));
            lemma_ray_distinct(sq, dr, df, 0, n);
        }
    }
    lemma_source_walk(cb, t, slider, dr, df, 1, n);
    assert(back_sq(t, dr, df, n) == sq) by (nonlinear_arith)
        requires
            sq_rank(t) == r + n * dr,
            sq_file(t) == f + n * df,
            sq == r * 4 + f,
    ;
    assert(source_ray(cb, t, slider, dirs[i].0 as int, dirs[i].1 as int, 1).contains(sq as u8));
    lemma_source_dirs_member(cb, t, slider, dirs, dirs.len() as int, sq as u8);
}

/// Every non-King-capturing move of a KPG position whose Kings show their one
/// face is undone by one of the candidate parents generated from its target
/// square in the position it leads to.
#[verifier::rlimit(30)]
proof fn lemma_unmove_inverse(p: PosView, m: Move)
    requires
        kpg_valid(p),
        normalize(p) == p,
        moves_spec(p).contains(m),
        !is_king_capture(p, m),
    ensures
        square_parents(make_spec(p, m), m.to as int).contains(p),
{
    lemma_moves_shape(p);
    let w = choose|w: int| 0 <= w < moves_spec(p).len() && moves_spec(p)[w] == m;
    assert(crate::rules::move_shape(p, moves_spec(p)[w]));
    let c = make_spec(p, m);
    let t = m.to as int;
    let placed = Some((m.kind, m.promo, Owner::Sente));
    assert(p.hand_sente[0] <= 2 && p.hand_sente[3] <= 2);
    match m.from {
        None => {
            let slot = hand_slot(m.kind);
            assert(c.board == p.board.update(t, placed));
            assert(c.hand_sente == hand_after(p.hand_sente, slot, -1));
            let u = undrop_parent(c, t, m.kind);
            assert(u.board =~= p.board);
            assert(u.hand_sente =~= p.hand_sente);
            assert(u == p);
            assert(square_parents(c, t)[0] == u);
        },
        Some(sq8) => {
            let sq = sq8 as int;
            let pc = p.board[sq]->Some_0;
            let k = pc.0;
            let pr = pc.1;
            assert(pc.2 == Owner::Sente);
            lemma_board_move_source(p, m);
            assert(c.board == p.board.update(sq, None).update(t, placed));
            assert(c.board[t] == placed);
            if k == Kind::King {
                assert(normalize(p).board[sq] == p.board[sq]);
                assert(!pr);
            }
            let op = face_before_capture(k, m.promo);
            let s1 = sources_spec(c.board, t, k, m.promo, Owner::Sente);
            let s2 = sources_spec(c.board, t, k, op, Owner::Sente);
            let a = if k != Kind::King { seq![undrop_parent(c, t, k)] } else { seq![] };
            let b = quiet_parents(c, t, k, m.promo, s1);
            let cc = capture_parents(c, t, k, op, s2);
            assert(square_parents(c, t) == a + b + cc);
            if !m.capture {
                assert(m.promo == pr);
                assert(s1.contains(sq as u8));
                let j = choose|j: int| 0 <= j < s1.len() && s1[j] == sq as u8;
                let q = quiet_parent(c, t, k, pr, sq);
                assert(q.board =~= p.board);
                assert(c.hand_sente == p.hand_sente);
                assert(q == p);
                assert(b[j] == p);
                assert((a + b + cc)[a.len() + j] == p);
            } else {
                let cap = p.board[t]->Some_0;
                let ck = cap.0;
                let cp = cap.1;
                assert(cap.2 == Owner::Gote);
                assert(ck != Kind::King);
                assert(ck == Kind::Gold || ck == Kind::Pawn);
                assert(op == pr);
                assert(s2.contains(sq as u8));
                let j = choose|j: int| 0 <= j < s2.len() && s2[j] == sq as u8;
                assert(c.hand_sente == hand_after(p.hand_sente, hand_slot(ck), 1));
                let q = capture_parent(c, t, k, op, sq, ck, cp);
                assert(q.board =~= p.board);
                assert(q.hand_sente =~= p.hand_sente);
                assert(q == p);
                let fc = from_captures(c, t, k, op, sq);
                if ck == Kind::Gold {
                    assert(c.hand_sente[0] != 0);
                    if cp {
                        assert(fc[1] == q);
                    } else {
                        assert(fc[0] == q);
                    }
                } else {
                    assert(c.hand_sente[3] != 0);
                    let off = if c.hand_sente[0] != 0 { 2int } else { 0int };
                    if cp {
                        assert(fc[off + 1] == q);
                    } else {
                        assert(fc[off] == q);
                    }
                }
                assert(fc.contains(p));
                assert(s2[j] as int == sq);
                lemma_capture_parents_include(c, t, k, op, s2, j, p);
                let k2 = choose|k2: int| 0 <= k2 < cc.len() && cc[k2] == p;
                assert((a + b + cc)[a.len() + b.len() + k2] == p);
            }
        },
    }
}

/// A cell does not hold a King showing the promoted face.
pub open spec fn plain_king_cell(c: Cell) -> bool {
    match c {
        Some(t) => t.0 == Kind::King ==> !t.1,
        None => true,
    }
}

/// No King on the board shows the promoted face.
pub open spec fn kings_plain(b: Seq<Cell>) -> bool {
    forall|s: int| 0 <= s < b.len() ==> plain_king_cell(#[trigger] b[s])
}

proof fn lemma_normalize_plain(v: PosView)
    ensures
        normalize(v) == v <==> kings_plain(v.board),
{
    if kings_plain(v.board) {
        assert(normalize(v).board =~= v.board);
    }
    if normalize(v) == v {
        assert forall|s: int| 0 <= s < v.board.len() implies plain_king_cell(#[trigger] v.board[s]) by {
            assert(normalize(v).board[s] == v.board[s]);
        }
    }
}

/// Seen from the other side and back, a Gote-to-move position is itself.
proof fn lemma_rotate_back(c: PosView)
    requires
        c.board.len() == 20,
        c.turn == Owner::Gote,
    ensures
        rotate_swap_view(rotate_view(c)) == c,
{
    let r = rotate_swap_view(rotate_view(c));
    assert forall|s: int| 0 <= s < 20 implies r.board[s] == c.board[s] by {
        assert(19 - (19 - s) == s);
        match c.board[s] {
            Some(t) => {
                assert(crate::rules::flip_spec(crate::rules::flip_spec(t.2)) == t.2) by {
                    match t.2 {
                        Owner::Sente => {},
                        Owner::Gote => {},
                    }
                }
            },
            None => {},
        }
    }
    assert(r.board =~= c.board);
}

/// A move keeps the Kings' faces plain.
proof fn lemma_child_plain(p: PosView, m: Move)
    requires
        kpg_valid(p),
        normalize(p) == p,
        moves_spec(p).contains(m),
    ensures
        make_spec(p, m).board.len() == 20,
        kings_plain(make_spec(p, m).board),
{
    let c = make_spec(p, m);
    let t = m.to as int;
    lemma_moves_shape(p);
    let w = choose|w: int| 0 <= w < moves_spec(p).len() && moves_spec(p)[w] == m;
    assert(crate::rules::move_shape(p, moves_spec(p)[w]));
    lemma_normalize_plain(p);
    assert forall|s: int| 0 <= s < 20 implies plain_king_cell(#[trigger] c.board[s]) by {
        if s == t {
            match m.from {
                Some(sq) => {
                    assert(plain_king_cell(p.board[sq as int]));
                },
                None => {},
            }
        } else {
            match m.from {
                Some(sq) => {
                    if s != sq as int {
                        assert(c.board[s] == p.board[s]);
                        assert(plain_king_cell(p.board[s]));
                    }
                },
                None => {
                    assert(c.board[s] == p.board[s]);
                    assert(plain_king_cell(p.board[s]));
                },
            }
        }
    }
}

/// Rotating and mirroring keep the Kings' faces plain.
proof fn lemma_turned_plain(c: PosView)
    requires
        c.board.len() == 20,
        kings_plain(c.board),
    ensures
        kings_plain(rotate_view(c).board),
        kings_plain(mirror_view(rotate_view(c)).board),
{
    let q = rotate_view(c);
    assert forall|s: int| 0 <= s < 20 implies plain_king_cell(#[trigger] q.board[s]) by {
        assert(plain_king_cell(c.board[19 - s]));
    }
    let mq = mirror_view(q);
    assert forall|s: int| 0 <= s < 20 implies plain_king_cell(#[trigger] mq.board[s]) by {
        lemma_mirror_sq(s);
        assert(plain_king_cell(q.board[mirror_sq(s)]));
    }
}

/// The canonical rank of a Gote-to-move KPG position names its rotation or the
/// mirror of its rotation, whichever ranks lower.
#[verifier::rlimit(30)]
proof fn lemma_child_rank(c: PosView)
    requires
        c.turn == Owner::Gote,
        c.board.len() == 20,
        kings_plain(c.board),
        kpg_valid(canonical_turn_spec(c)),
    ensures
        canonical_rank_spec(c) is Some,
        canonical_rank_spec(c)->Some_0 < domain_spec(),
        rotate_swap_view(unrank_spec(canonical_rank_spec(c)->Some_0 as int)) == c || rotate_swap_view(
            unrank_spec(canonical_rank_spec(c)->Some_0 as int),
        ) == mirror_view(c),
{
    let q = canonical_turn_spec(c);
    assert(q == rotate_view(c));
    lemma_turned_plain(c);
    let mq = mirror_view(q);
    lemma_normalize_plain(q);
    lemma_normalize_plain(mq);
    assert(normalize(q) == q);
    assert(normalize(mq) == mq);
    lemma_mirror_kpg(q);
    assert(kpg_valid(mq));
    lemma_rank_unrank(-1, q);
    lemma_rank_unrank(-1, mq);
    let r1 = rank_id(q);
    let r2 = rank_id(mq);
    assert(0 <= r1 < domain_spec() && unrank_spec(r1) == q);
    assert(0 <= r2 < domain_spec() && unrank_spec(r2) == mq);
    let cid = if r1 <= r2 { r1 } else { r2 };
    lemma_sizes();
    assert(cid as u32 as int == cid);
    assert(canonical_rank_spec(c) == Some(cid as u32)) by {
        reveal(canonical_rank_spec);
    }
    lemma_rotate_back(c);
    lemma_rotate_mirror(q);
    if r1 <= r2 {
        assert(rotate_swap_view(unrank_spec(cid)) == c);
    } else {
        assert(rotate_swap_view(unrank_spec(cid)) == mirror_view(c));
    }
}

/// Generated predecessors are complete: for every move of a KPG position whose
/// Kings show their one face, other than a King capture, the canonical rank of
/// the position is among the ranks generated as predecessors of the canonical
/// rank of the position the move leads to.
#[verifier::rlimit(30)]
pub proof fn lemma_predecessors_complete(p: PosView, m: Move)
    requires
        kpg_valid(p),
        normalize(p) == p,
        moves_spec(p).contains(m),
        !is_king_capture(p, m),
    ensures
        canonical_rank_spec(p) is Some,
        canonical_rank_spec(make_spec(p, m)) is Some,
        canonical_rank_spec(make_spec(p, m))->Some_0 < domain_spec(),
        ranked(pred_parents(canonical_rank_spec(make_spec(p, m))->Some_0 as int)).contains(
            canonical_rank_spec(p)->Some_0,
        ),
{
    let c = make_spec(p, m);
    let t = m.to as int;
    lemma_kpg_closed(p, m);
    lemma_moves_shape(p);
    let w = choose|w: int| 0 <= w < moves_spec(p).len() && moves_spec(p)[w] == m;
    assert(crate::rules::move_shape(p, moves_spec(p)[w]));
    assert(c.turn == Owner::Gote);
    lemma_child_plain(p, m);
    lemma_child_rank(c);
    let cid = canonical_rank_spec(c)->Some_0 as int;
    assert(canonical_rank_spec(p) is Some) by {
        reveal(canonical_rank_spec);
        assert(canonical_turn_spec(p) == p);
    }
    let pid = canonical_rank_spec(p)->Some_0;
    lemma_unmove_inverse(p, m);
    if rotate_swap_view(unrank_spec(cid)) == c {
        lemma_unmove_include(c, 20, t, p);
        let ps = unmove_parents(c, 20);
        let i = choose|i: int| 0 <= i < ps.len() && ps[i] == p;
        lemma_ranked_include(ps, i, pid);
    } else {
        let mc = mirror_view(c);
        lemma_mirror_involution(c);
        lemma_mirror_square_parents(mc, t, p);
        lemma_mirror_sq(t);
        lemma_unmove_include(mc, 20, mirror_sq(t), mirror_view(p));
        let ps = unmove_parents(mc, 20);
        let i = choose|i: int| 0 <= i < ps.len() && ps[i] == mirror_view(p);
        lemma_rank_canonical_mirror(p);
        lemma_ranked_include(ps, i, pid);
    }
}

// ---------------------------------------------------------------------------
// Mirrored moves
// ---------------------------------------------------------------------------


/// The move landing `n` steps out along a ray is generated when the squares
/// before it are empty and only a slider goes past the first step.
proof fn lemma_ray_include(
    p: PosView,
    sq: int,
    kind: Kind,
    promo: bool,
    slider: bool,
    dr: int,
    df: int,
    n0: int,
    n: int,
)
    requires
        1 <= n0 <= n <= 5,
        n == n0 || slider,
        ray_clear(p.board, sq, dr, df, n0, n),
        ray_in(sq, dr, df, n),
        !(p.board[ray_sq(sq, dr, df, n)] matches Some(c) && c.2 == p.turn),
    ensures
        ray_moves(p, sq, kind, promo, slider, dr, df, n0).contains(
            Move {
                kind,
                from: Some(sq as u8),
                to: ray_sq(sq, dr, df, n) as u8,
                capture: p.board[ray_sq(sq, dr, df, n)] is Some,
                promo: result_face_of(kind, promo, p.board[ray_sq(sq, dr, df, n)] is Some),
            },
        ),
    decreases n - n0,
{
    let target = Move {
        kind,
        from: Some(sq as u8),
        to: ray_sq(sq, dr, df, n) as u8,
        capture: p.board[ray_sq(sq, dr, df, n)] is Some,
        promo: result_face_of(kind, promo, p.board[ray_sq(sq, dr, df, n)] is Some),
    };
    let ray = ray_moves(p, sq, kind, promo, slider, dr, df, n0);
    if n0 == n {
        assert(ray[0] == target);
    } else {
        assert(ray_in(sq, dr, df, n0) && p.board[ray_sq(sq, dr, df, n0)] is None);
        lemma_ray_include(p, sq, kind, promo, slider, dr, df, n0 + 1, n);
        let rest = ray_moves(p, sq, kind, promo, slider, dr, df, n0 + 1);
        assert(ray == seq![ray[0]] + rest);
        let k = choose|k: int| 0 <= k < rest.len() && rest[k] == target;
        assert(ray[k + 1] == target);
    }
}

pub open spec fn result_face_of(kind: Kind, promo: bool, capture: bool) -> bool {
    crate::rules::result_face(kind, promo, capture)
}

proof fn lemma_dirs_include(
    p: PosView,
    sq: int,
    kind: Kind,
    promo: bool,
    slider: bool,
    dirs: Seq<(i8, i8)>,
    n: int,
    i: int,
    m: Move,
)
    requires
        0 <= i < n <= dirs.len(),
        ray_moves(p, sq, kind, promo, slider, dirs[i].0 as int, dirs[i].1 as int, 1).contains(m),
    ensures
        dirs_moves(p, sq, kind, promo, slider, dirs, n).contains(m),
    decreases n,
{
    let a = dirs_moves(p, sq, kind, promo, slider, dirs, n - 1);
    let last = ray_moves(p, sq, kind, promo, slider, dirs[n - 1].0 as int, dirs[n - 1].1 as int, 1);
    if i < n - 1 {
        lemma_dirs_include(p, sq, kind, promo, slider, dirs, n - 1, i, m);
        let k = choose|k: int| 0 <= k < a.len() && a[k] == m;
        assert((a + last)[k] == m);
    } else {
        let k = choose|k: int| 0 <= k < last.len() && last[k] == m;
        assert((a + last)[a.len() + k] == m);
    }
}

proof fn lemma_squares_include(p: PosView, n: int, sq: int, m: Move)
    requires
        0 <= sq < n,
        piece_moves(p, sq).contains(m),
    ensures
        squares_moves(p, n).contains(m),
    decreases n,
{
    let a = squares_moves(p, n - 1);
    let last = piece_moves(p, n - 1);
    if sq < n - 1 {
        lemma_squares_include(p, n - 1, sq, m);
        let k = choose|k: int| 0 <= k < a.len() && a[k] == m;
        assert((a + last)[k] == m);
    } else {
        let k = choose|k: int| 0 <= k < last.len() && last[k] == m;
        assert((a + last)[a.len() + k] == m);
    }
}

/// A piece of the side to move reaches, along its `t`-th direction, the `n`-th
/// square when the squares before it are empty (`n` is 1 for a stepping face).
proof fn lemma_face_move(p: PosView, sq: int, c: (Kind, bool, Owner), t: int, n: int)
    requires
        p.board.len() == 20,
        0 <= sq < 20,
        p.board[sq] == Some(c),
        c.2 == p.turn,
        0 <= t < movement_spec(c.0, c.1, c.2).1.len(),
        1 <= n <= 5,
        n == 1 || movement_spec(c.0, c.1, c.2).0,
        ray_clear(
            p.board,
            sq,
            movement_spec(c.0, c.1, c.2).1[t].0 as int,
            movement_spec(c.0, c.1, c.2).1[t].1 as int,
            1,
            n,
        ),
        ray_in(sq, movement_spec(c.0, c.1, c.2).1[t].0 as int, movement_spec(c.0, c.1, c.2).1[t].1 as int, n),
        !(p.board[ray_sq(
            sq,
            movement_spec(c.0, c.1, c.2).1[t].0 as int,
            movement_spec(c.0, c.1, c.2).1[t].1 as int,
            n,
        )] matches Some(x) && x.2 == p.turn),
    ensures
        exists|i: int|
            0 <= i < moves_spec(p).len() && (#[trigger] moves_spec(p)[i]).from == Some(sq as u8) && moves_spec(p)[i].to
                == ray_sq(
                sq,
                movement_spec(c.0, c.1, c.2).1[t].0 as int,
                movement_spec(c.0, c.1, c.2).1[t].1 as int,
                n,
            ) as u8,
{
    let (slider, dirs) = movement_spec(c.0, c.1, c.2);
    let dr = dirs[t].0 as int;
    let df = dirs[t].1 as int;
    lemma_ray_include(p, sq, c.0, c.1, slider, dr, df, 1, n);
    let tgt = ray_sq(sq, dr, df, n);
    let m = Move {
        kind: c.0,
        from: Some(sq as u8),
        to: tgt as u8,
        capture: p.board[tgt] is Some,
        promo: result_face_of(c.0, c.1, p.board[tgt] is Some),
    };
    lemma_dirs_include(p, sq, c.0, c.1, slider, dirs, dirs.len() as int, t, m);
    lemma_squares_include(p, 20, sq, m);
    let a = squares_moves(p, 20);
    let k = choose|k: int| 0 <= k < a.len() && a[k] == m;
    assert(moves_spec(p)[k] == m);
}

proof fn lemma_unit_ray_short(sq: int, dr: int, df: int, n: int)
    requires
        0 <= sq < 20,
        -1 <= dr <= 1,
        -1 <= df <= 1,
        dr != 0 || df != 0,
        1 <= n,
        ray_in(sq, dr, df, n),
    ensures
        n <= 5,
{
    assert(dr == 1 ==> n * dr == n) by (nonlinear_arith);
    assert(dr == -1 ==> n * dr == -n) by (nonlinear_arith);
    assert(df == 1 ==> n * df == n) by (nonlinear_arith);
    assert(df == -1 ==> n * df == -n) by (nonlinear_arith);
    assert(0 <= sq / 4 < 5 && 0 <= sq % 4 < 4);
}

/// The rank step straight ahead for `o`: -1 for Sente, 1 for Gote.
pub open spec fn ahead(o: Owner) -> int {
    if o == Owner::Sente {
        -1
    } else {
        1
    }
}

/// A square reached from `sq` on the board, by a step of (dr, df) or a slide of
/// `n` such steps, holds no piece of the side to move.
pub open spec fn open_target(p: PosView, sq: int, dr: int, df: int, n: int) -> bool {
    &&& ray_in(sq, dr, df, n)
    &&& !(p.board[ray_sq(sq, dr, df, n)] matches Some(x) && x.2 == p.turn)
}

/// The King steps one square in any of the eight directions.
pub proof fn lemma_king_steps(p: PosView, sq: int, promo: bool, dr: int, df: int)
    requires
        p.board.len() == 20,
        0 <= sq < 20,
        p.board[sq] == Some((Kind::King, promo, p.turn)),
        -1 <= dr <= 1,
        -1 <= df <= 1,
        dr != 0 || df != 0,
        open_target(p, sq, dr, df, 1),
    ensures
        exists|i: int|
            0 <= i < moves_spec(p).len() && (#[trigger] moves_spec(p)[i]).from == Some(sq as u8) && moves_spec(p)[i].to
                == ray_sq(sq, dr, df, 1) as u8,
{
    let c = (Kind::King, promo, p.turn);
    let dirs = movement_spec(c.0, c.1, c.2).1;
    let t = if dr == -1 {
        df + 1
    } else if dr == 0 {
        if df == -1 {
            3
        } else {
            4
        }
    } else {
        df + 6
    };
    assert(dirs[t].0 as int == dr && dirs[t].1 as int == df);
    lemma_face_move(p, sq, c, t, 1);
}

/// The piece showing the Rook face (a Gold turned over) slides any number of
/// empty squares along a rank or a file.
pub proof fn lemma_rook_face_slides(p: PosView, sq: int, dr: int, df: int, n: int)
    requires
        p.board.len() == 20,
        0 <= sq < 20,
        p.board[sq] == Some((Kind::Gold, true, p.turn)),
        (dr == 0 && (df == 1 || df == -1)) || (df == 0 && (dr == 1 || dr == -1)),
        1 <= n,
        ray_clear(p.board, sq, dr, df, 1, n),
        open_target(p, sq, dr, df, n),
    ensures
        exists|i: int|
            0 <= i < moves_spec(p).len() && (#[trigger] moves_spec(p)[i]).from == Some(sq as u8) && moves_spec(p)[i].to
                == ray_sq(sq, dr, df, n) as u8,
{
    let c = (Kind::Gold, true, p.turn);
    let dirs = movement_spec(c.0, c.1, c.2).1;
    let t = if dr == -1 {
        0
    } else if dr == 1 {
        1
    } else if df == -1 {
        2
    } else {
        3
    };
    assert(dirs[t].0 as int == dr && dirs[t].1 as int == df);
    lemma_unit_ray_short(sq, dr, df, n);
    lemma_face_move(p, sq, c, t, n);
}

/// The Bishop slides any number of empty squares along a diagonal.
pub proof fn lemma_bishop_slides(p: PosView, sq: int, dr: int, df: int, n: int)
    requires
        p.board.len() == 20,
        0 <= sq < 20,
        p.board[sq] == Some((Kind::Bishop, false, p.turn)),
        dr == 1 || dr == -1,
        df == 1 || df == -1,
        1 <= n,
        ray_clear(p.board, sq, dr, df, 1, n),
        open_target(p, sq, dr, df, n),
    ensures
        exists|i: int|
            0 <= i < moves_spec(p).len() && (#[trigger] moves_spec(p)[i]).from == Some(sq as u8) && moves_spec(p)[i].to
                == ray_sq(sq, dr, df, n) as u8,
{
    let c = (Kind::Bishop, false, p.turn);
    let dirs = movement_spec(c.0, c.1, c.2).1;
    let t = if dr == -1 {
        if df == -1 {
            0
        } else {
            1
        }
    } else {
        if df == -1 {
            2
        } else {
            3
        }
    };
    assert(dirs[t].0 as int == dr && dirs[t].1 as int == df);
    lemma_unit_ray_short(sq, dr, df, n);
    lemma_face_move(p, sq, c, t, n);
}

/// The Gold face (a Gold, or a Bishop turned over) steps one square forward,
/// diagonally forward, sideways or straight back.
pub proof fn lemma_gold_face_steps(p: PosView, sq: int, kind: Kind, dr: int, df: int)
    requires
        p.board.len() == 20,
        0 <= sq < 20,
        (kind == Kind::Gold && p.board[sq] == Some((Kind::Gold, false, p.turn))) || (kind == Kind::Bishop
            && p.board[sq] == Some((Kind::Bishop, true, p.turn))),
        (dr == ahead(p.turn) && -1 <= df <= 1) || (dr == 0 && (df == 1 || df == -1)) || (dr == -ahead(p.turn)
            && df == 0),
        open_target(p, sq, dr, df, 1),
    ensures
        exists|i: int|
            0 <= i < moves_spec(p).len() && (#[trigger] moves_spec(p)[i]).from == Some(sq as u8) && moves_spec(p)[i].to
                == ray_sq(sq, dr, df, 1) as u8,
{
    let c = p.board[sq]->0;
    let dirs = movement_spec(c.0, c.1, c.2).1;
    let t = if dr == ahead(p.turn) {
        df + 1
    } else if dr == 0 {
        if df == -1 {
            3
        } else {
            4
        }
    } else {
        5
    };
    assert(dirs[t].0 as int == dr && dirs[t].1 as int == df);
    lemma_face_move(p, sq, c, t, 1);
}

/// The Silver steps one square forward, diagonally forward or diagonally back.
pub proof fn lemma_silver_steps(p: PosView, sq: int, dr: int, df: int)
    requires
        p.board.len() == 20,
        0 <= sq < 20,
        p.board[sq] == Some((Kind::Silver, false, p.turn)),
        (dr == ahead(p.turn) && -1 <= df <= 1) || (dr == -ahead(p.turn) && (df == 1 || df == -1)),
        open_target(p, sq, dr, df, 1),
    ensures
        exists|i: int|
            0 <= i < moves_spec(p).len() && (#[trigger] moves_spec(p)[i]).from == Some(sq as u8) && moves_spec(p)[i].to
                == ray_sq(sq, dr, df, 1) as u8,
{
    let c = (Kind::Silver, false, p.turn);
    let dirs = movement_spec(c.0, c.1, c.2).1;
    let t = if dr == ahead(p.turn) {
        df + 1
    } else if df == -1 {
        3
    } else {
        4
    };
    assert(dirs[t].0 as int == dr && dirs[t].1 as int == df);
    lemma_face_move(p, sq, c, t, 1);
}

/// The Pawn steps one square straight forward.
pub proof fn lemma_pawn_steps(p: PosView, sq: int)
    requires
        p.board.len() == 20,
        0 <= sq < 20,
        p.board[sq] == Some((Kind::Pawn, false, p.turn)),
        open_target(p, sq, ahead(p.turn), 0, 1),
    ensures
        exists|i: int|
            0 <= i < moves_spec(p).len() && (#[trigger] moves_spec(p)[i]).from == Some(sq as u8) && moves_spec(p)[i].to
                == ray_sq(sq, ahead(p.turn), 0, 1) as u8,
{
    let c = (Kind::Pawn, false, p.turn);
    let dirs = movement_spec(c.0, c.1, c.2).1;
    assert(dirs[0].0 as int == ahead(p.turn) && dirs[0].1 as int == 0);
    lemma_face_move(p, sq, c, 0, 1);
}

/// The Knight face (a Pawn turned over) jumps two squares forward and one to
/// the side, over any piece in between.
pub proof fn lemma_knight_face_jumps(p: PosView, sq: int, df: int)
    requires
        p.board.len() == 20,
        0 <= sq < 20,
        p.board[sq] == Some((Kind::Pawn, true, p.turn)),
        df == 1 || df == -1,
        open_target(p, sq, 2 * ahead(p.turn), df, 1),
    ensures
        exists|i: int|
            0 <= i < moves_spec(p).len() && (#[trigger] moves_spec(p)[i]).from == Some(sq as u8) && moves_spec(p)[i].to
                == ray_sq(sq, 2 * ahead(p.turn), df, 1) as u8,
{
    let c = (Kind::Pawn, true, p.turn);
    let dirs = movement_spec(c.0, c.1, c.2).1;
    let t = if df == -1 {
        0
    } else {
        1
    };
    assert(dirs[t].0 as int == 2 * ahead(p.turn) && dirs[t].1 as int == df);
    lemma_face_move(p, sq, c, t, 1);
}

/// The kind, face and owner of the piece in a cell (unused for an empty cell).
pub open spec fn cell_kind(c: Cell) -> Kind {
    match c {
        Some(t) => t.0,
        None => Kind::King,
    }
}

pub open spec fn cell_promo(c: Cell) -> bool {
    match c {
        Some(t) => t.1,
        None => false,
    }
}

pub open spec fn cell_owner(c: Cell) -> Owner {
    match c {
        Some(t) => t.2,
        None => Owner::Sente,
    }
}

/// The single steps (dr, df) a face may take, in ranks and files, for a side
/// whose forward rank step is `a`, as the rules describe them: the King any
/// neighbour; the Gold face (a Gold, or a Bishop turned over) forward, forward
/// diagonals, sideways and straight back; the Rook face (a Gold turned over)
/// along ranks and files; the Silver forward, forward diagonals and back
/// diagonals; the Lance face (a Silver turned over) straight forward; the
/// Bishop the diagonals; the Pawn straight forward; the Knight face (a Pawn
/// turned over) two forward and one aside.
pub open spec fn face_allows(kind: Kind, promo: bool, a: int, dr: int, df: int) -> bool {
    let side = df == 1 || df == -1;
    match (kind, promo) {
        (Kind::King, _) => -1 <= dr <= 1 && -1 <= df <= 1 && (dr != 0 || df != 0),
        (Kind::Gold, false) | (Kind::Bishop, true) => (dr == a && -1 <= df <= 1) || (dr == 0 && side) || (dr == -a
            && df == 0),
        (Kind::Gold, true) => (dr == 0 && side) || (df == 0 && (dr == 1 || dr == -1)),
        (Kind::Silver, false) => (dr == a && -1 <= df <= 1) || (dr == -a && side),
        (Kind::Silver, true) => dr == a && df == 0,
        (Kind::Bishop, false) => (dr == 1 || dr == -1) && side,
        (Kind::Pawn, false) => dr == a && df == 0,
        (Kind::Pawn, true) => dr == 2 * a && side,
    }
}

/// The faces that slide any number of empty squares: Rook, Lance and Bishop.
pub open spec fn face_slides(kind: Kind, promo: bool) -> bool {
    (kind == Kind::Gold && promo) || (kind == Kind::Silver && promo) || (kind == Kind::Bishop && !promo)
}

proof fn lemma_face_dirs_allowed(kind: Kind, promo: bool, o: Owner)
    ensures
        movement_spec(kind, promo, o).0 == face_slides(kind, promo),
        forall|t: int|
            0 <= t < movement_spec(kind, promo, o).1.len() ==> face_allows(
                kind,
                promo,
                ahead(o),
                (#[trigger] movement_spec(kind, promo, o).1[t]).0 as int,
                movement_spec(kind, promo, o).1[t].1 as int,
            ),
{
    let dirs = movement_spec(kind, promo, o).1;
    assert forall|t: int| 0 <= t < dirs.len() implies face_allows(
        kind,
        promo,
        ahead(o),
        (#[trigger] dirs[t]).0 as int,
        dirs[t].1 as int,
    ) by {
        if t == 0 {
        } else if t == 1 {
        } else if t == 2 {
        } else if t == 3 {
        } else if t == 4 {
        } else if t == 5 {
        } else if t == 6 {
        } else {
            assert(t == 7);
        }
    }
}

/// Where a board move of the generator comes from: a piece of the side to move
/// on its `from` square, one of its directions, and a number of steps.
proof fn lemma_board_move_origin(p: PosView, m: Move, s: int) -> (r: (int, int))
    requires
        p.board.len() == 20,
        moves_spec(p).contains(m),
        m.from == Some(s as u8),
        0 <= s < 256,
    ensures
        0 <= s < 20,
        p.board[s] is Some,
        cell_owner(p.board[s]) == p.turn,
        0 <= r.0 < movement_spec(cell_kind(p.board[s]), cell_promo(p.board[s]), p.turn).1.len(),
        1 <= r.1 <= 5,
        r.1 == 1 || movement_spec(cell_kind(p.board[s]), cell_promo(p.board[s]), p.turn).0,
        ray_clear(
            p.board,
            s,
            movement_spec(cell_kind(p.board[s]), cell_promo(p.board[s]), p.turn).1[r.0].0 as int,
            movement_spec(cell_kind(p.board[s]), cell_promo(p.board[s]), p.turn).1[r.0].1 as int,
            1,
            r.1,
        ),
        m.to as int == ray_sq(
            s,
            movement_spec(cell_kind(p.board[s]), cell_promo(p.board[s]), p.turn).1[r.0].0 as int,
            movement_spec(cell_kind(p.board[s]), cell_promo(p.board[s]), p.turn).1[r.0].1 as int,
            r.1,
        ),
{
    let a = squares_moves(p, 20);
    let b = hand_drops(p, 4);
    let k = choose|k: int| 0 <= k < moves_spec(p).len() && moves_spec(p)[k] == m;
    if k >= a.len() {
        assert(b[k - a.len()] == m);
        assert(b.contains(m));
        lemma_hand_drops_member(p, 4, m);
        let i = choose|i: int| 0 <= i < 4 && hand_of(p, p.turn)[i] != 0 && #[trigger] square_drops(p, slot_kind(i), 20).contains(m);
        lemma_square_drops_member(p, slot_kind(i), 20, m);
        assert(false);
    }
    assert(a[k] == m);
    assert(a.contains(m));
    lemma_squares_member(p, 20, m);
    let sq = choose|sq: int| 0 <= sq < 20 && #[trigger] piece_moves(p, sq).contains(m);
    let c = p.board[sq]->0;
    assert(p.board[sq] is Some && c.2 == p.turn);
    let (slider, dirs) = movement_spec(c.0, c.1, c.2);
    lemma_dirs_member(p, sq, c.0, c.1, slider, dirs, dirs.len() as int, m);
    let t = choose|t: int|
        0 <= t < dirs.len() as int && #[trigger] ray_moves(p, sq, c.0, c.1, slider, dirs[t].0 as int, dirs[t].1 as int, 1).contains(m);
    lemma_ray_member(p, sq, c.0, c.1, slider, dirs[t].0 as int, dirs[t].1 as int, 1, m);
    let n = choose|n: int|
        1 <= n <= 5 && (n == 1 || slider) && ray_clear(p.board, sq, dirs[t].0 as int, dirs[t].1 as int, 1, n) && ray_in(
            sq,
            dirs[t].0 as int,
            dirs[t].1 as int,
            n,
        ) && m.to as int == #[trigger] ray_sq(sq, dirs[t].0 as int, dirs[t].1 as int, n) && m.from == Some(sq as u8);
    assert(sq == s);
    (t, n)
}

/// Every board move is one the moving face allows: a single step in one of its
/// directions, or, for a sliding face, any number of steps in one of them over
/// empty squares.
pub proof fn lemma_board_moves_follow_faces(p: PosView, i: int)
    requires
        p.board.len() == 20,
        0 <= i < moves_spec(p).len(),
        moves_spec(p)[i].from is Some,
    ensures
        ({
            let m = moves_spec(p)[i];
            let s = m.from->0 as int;
            &&& p.board[s] is Some
            &&& cell_owner(p.board[s]) == p.turn
            &&& exists|dr: int, df: int, n: int|
                face_allows(cell_kind(p.board[s]), cell_promo(p.board[s]), ahead(p.turn), dr, df) && 1 <= n && (n == 1
                    || face_slides(cell_kind(p.board[s]), cell_promo(p.board[s]))) && ray_clear(p.board, s, dr, df, 1, n)
                    && m.to as int == #[trigger] ray_sq(s, dr, df, n)
        }),
{
    let m = moves_spec(p)[i];
    let s = m.from->0 as int;
    assert(moves_spec(p).contains(m));
    let (t, n) = lemma_board_move_origin(p, m, s);
    let c = (cell_kind(p.board[s]), cell_promo(p.board[s]), p.turn);
    lemma_face_dirs_allowed(c.0, c.1, p.turn);
    let dirs = movement_spec(c.0, c.1, p.turn).1;
    let dr = dirs[t].0 as int;
    let df = dirs[t].1 as int;
    assert(face_allows(c.0, c.1, ahead(p.turn), dr, df));
    assert(m.to as int == ray_sq(s, dr, df, n));
}

/// A piece of the side to move can drop any held kind, showing either face, on
/// every empty square.
pub proof fn lemma_drops_available(p: PosView, kind: Kind, to: int, promo: bool)
    requires
        p.board.len() == 20,
        kind != Kind::King,
        hand_of(p, p.turn).len() == 4,
        hand_of(p, p.turn)[crate::rules::hand_slot(kind)] > 0,
        0 <= to < 20,
        p.board[to] is None,
    ensures
        moves_spec(p).contains(Move { kind, from: None, to: to as u8, capture: false, promo }),
{
    let i = crate::rules::hand_slot(kind);
    assert(slot_kind(i) == kind);
    let m = Move { kind, from: None, to: to as u8, capture: false, promo };
    lemma_square_drops_include(p, kind, 20, to, promo);
    lemma_hand_drops_include(p, 4, i, m);
    let a = squares_moves(p, 20);
    let b = hand_drops(p, 4);
    let k = choose|k: int| 0 <= k < b.len() && b[k] == m;
    assert(moves_spec(p)[a.len() + k] == m);
}

/// The square `k` ranks straight ahead of `sq` for `o`: towards rank 0 for
/// Sente, towards rank 4 for Gote.
pub open spec fn ahead_sq(o: Owner, sq: int, k: int) -> int {
    if o == Owner::Sente {
        sq - 4 * k
    } else {
        sq + 4 * k
    }
}

/// A piece showing the Lance face slides: it can move to each of the empty
/// squares straight ahead of it, however many there are.
pub proof fn lemma_lance_slides(p: PosView, sq: int, n: int)
    requires
        p.board.len() == 20,
        0 <= sq < 20,
        p.board[sq] == Some((Kind::Silver, true, p.turn)),
        1 <= n,
        0 <= ahead_sq(p.turn, sq, n) < 20,
        forall|k: int| 1 <= k <= n ==> p.board[#[trigger] ahead_sq(p.turn, sq, k)] is None,
    ensures
        exists|i: int|
            0 <= i < moves_spec(p).len() && (#[trigger] moves_spec(p)[i]).from == Some(sq as u8) && moves_spec(p)[i].to
                == ahead_sq(p.turn, sq, n) as u8,
{
    let f = crate::rules::fwd_spec(p.turn);
    let (slider, dirs) = movement_spec(Kind::Silver, true, p.turn);
    assert(slider && dirs.len() == 1 && dirs[0].0 as int == f && dirs[0].1 as int == 0);
    assert forall|k: int| 1 <= k <= n implies ray_sq(sq, f, 0, k) == #[trigger] ahead_sq(p.turn, sq, k) && ray_in(
        sq,
        f,
        0,
        k,
    ) by {
        if p.turn == Owner::Sente {
            assert(f == -1);
            assert(k * f == -k);
            assert(k * 0 == 0);
            assert(0 <= sq - 4 * k);
        } else {
            assert(f == 1);
            assert(k * f == k);
            assert(k * 0 == 0);
            assert(sq + 4 * k <= sq + 4 * n);
        }
    }
    assert(ray_clear(p.board, sq, f, 0, 1, n)) by {
        assert forall|k: int| 1 <= k < n implies ray_in(sq, f, 0, k) && p.board[#[trigger] ray_sq(sq, f, 0, k)] is None by {
            assert(ray_sq(sq, f, 0, k) == ahead_sq(p.turn, sq, k));
        }
    }
    assert(ray_sq(sq, f, 0, n) == ahead_sq(p.turn, sq, n));
    assert(p.board[ray_sq(sq, f, 0, n)] is None);
    assert(n <= 5);
    lemma_ray_include(p, sq, Kind::Silver, true, slider, f, 0, 1, n);
    let m = Move {
        kind: Kind::Silver,
        from: Some(sq as u8),
        to: ray_sq(sq, f, 0, n) as u8,
        capture: p.board[ray_sq(sq, f, 0, n)] is Some,
        promo: result_face_of(Kind::Silver, true, p.board[ray_sq(sq, f, 0, n)] is Some),
    };
    lemma_dirs_include(p, sq, Kind::Silver, true, slider, dirs, 1, 0, m);
    assert(piece_moves(p, sq) == dirs_moves(p, sq, Kind::Silver, true, slider, dirs, 1));
    lemma_squares_include(p, 20, sq, m);
    let a = squares_moves(p, 20);
    let k = choose|k: int| 0 <= k < a.len() && a[k] == m;
    assert(moves_spec(p)[k] == m);
}

proof fn lemma_square_drops_member(p: PosView, kind: Kind, n: int, m: Move)
    requires
        n <= 20,
        square_drops(p, kind, n).contains(m),
    ensures
        0 <= m.to < n,
        p.board[m.to as int] is None,
        m == (Move { kind, from: None, to: m.to, capture: false, promo: m.promo }),
    decreases n,
{
    let a = square_drops(p, kind, n - 1);
    let last = if p.board[n - 1] is Some {
        seq![]
    } else {
        seq![
            Move { kind, from: None, to: (n - 1) as u8, capture: false, promo: false },
            Move { kind, from: None, to: (n - 1) as u8, capture: false, promo: true },
        ]
    };
    assert(square_drops(p, kind, n) == a + last);
    let k = choose|k: int| 0 <= k < (a + last).len() && (a + last)[k] == m;
    if k < a.len() {
        assert(a[k] == m);
        lemma_square_drops_member(p, kind, n - 1, m);
    } else {
        assert(last[k - a.len()] == m);
    }
}

proof fn lemma_square_drops_include(p: PosView, kind: Kind, n: int, to: int, promo: bool)
    requires
        0 <= to < n,
        p.board[to] is None,
    ensures
        square_drops(p, kind, n).contains(Move { kind, from: None, to: to as u8, capture: false, promo }),
    decreases n,
{
    let mv = Move { kind, from: None, to: to as u8, capture: false, promo };
    let a = square_drops(p, kind, n - 1);
    let last = if p.board[n - 1] is Some {
        seq![]
    } else {
        seq![
            Move { kind, from: None, to: (n - 1) as u8, capture: false, promo: false },
            Move { kind, from: None, to: (n - 1) as u8, capture: false, promo: true },
        ]
    };
    assert(square_drops(p, kind, n) == a + last);
    if to < n - 1 {
        lemma_square_drops_include(p, kind, n - 1, to, promo);
        let k = choose|k: int| 0 <= k < a.len() && a[k] == mv;
        assert((a + last)[k] == mv);
    } else {
        if promo {
            assert((a + last)[a.len() + 1int] == mv);
        } else {
            assert((a + last)[a.len() as int] == mv);
        }
    }
}

proof fn lemma_hand_drops_member(p: PosView, n: int, m: Move)
    requires
        hand_drops(p, n).contains(m),
    ensures
        exists|i: int| 0 <= i < n && hand_of(p, p.turn)[i] != 0 && #[trigger] square_drops(p, slot_kind(i), 20).contains(m),
    decreases n,
{
    let a = hand_drops(p, n - 1);
    let last = if hand_of(p, p.turn)[n - 1] == 0 {
        seq![]
    } else {
        square_drops(p, slot_kind(n - 1), 20)
    };
    assert(hand_drops(p, n) == a + last);
    let k = choose|k: int| 0 <= k < (a + last).len() && (a + last)[k] == m;
    if k < a.len() {
        assert(a[k] == m);
        assert(a.contains(m));
        lemma_hand_drops_member(p, n - 1, m);
        let i = choose|i: int| 0 <= i < n - 1 && hand_of(p, p.turn)[i] != 0 && #[trigger] square_drops(p, slot_kind(i), 20).contains(m);
        assert(square_drops(p, slot_kind(i), 20).contains(m));
    } else {
        assert(last[k - a.len()] == m);
        assert(square_drops(p, slot_kind(n - 1), 20).contains(m));
    }
}

proof fn lemma_hand_drops_include(p: PosView, n: int, i: int, m: Move)
    requires
        0 <= i < n,
        hand_of(p, p.turn)[i] != 0,
        square_drops(p, slot_kind(i), 20).contains(m),
    ensures
        hand_drops(p, n).contains(m),
    decreases n,
{
    let a = hand_drops(p, n - 1);
    let last = if hand_of(p, p.turn)[n - 1] == 0 {
        seq![]
    } else {
        square_drops(p, slot_kind(n - 1), 20)
    };
    assert(hand_drops(p, n) == a + last);
    if i < n - 1 {
        lemma_hand_drops_include(p, n - 1, i, m);
        let k = choose|k: int| 0 <= k < a.len() && a[k] == m;
        assert((a + last)[k] == m);
    } else {
        let k = choose|k: int| 0 <= k < last.len() && last[k] == m;
        assert((a + last)[a.len() + k] == m);
    }
}

/// Mirror coordinates of a ray: the mirrored ray is the ray along the mirrored
/// direction from the mirrored square.
proof fn lemma_mirror_ray_sq(sq: int, dr: int, df: int, k: int)
    requires
        0 <= sq < 20,
    ensures
        ray_in(mirror_sq(sq), dr, -df, k) == ray_in(sq, dr, df, k),
        ray_in(sq, dr, df, k) ==> 0 <= ray_sq(sq, dr, df, k) < 20 && ray_sq(mirror_sq(sq), dr, -df, k) == mirror_sq(
            ray_sq(sq, dr, df, k),
        ),
{
    lemma_mirror_coords(sq);
    let r = sq_rank(sq);
    let f = sq_file(sq);
    assert(sq_file(mirror_sq(sq)) + k * (-df) == 3 - (f + k * df)) by (nonlinear_arith)
        requires
            sq_file(mirror_sq(sq)) == 3 - f,
    ;
    if ray_in(sq, dr, df, k) {
        let q = ray_sq(sq, dr, df, k);
        let rr = r + k * dr;
        let ff = f + k * df;
        assert(q == rr * 4 + ff);
        lemma_mirror_coords(q);
        assert(sq_rank(q) == rr && sq_file(q) == ff);
    }
}

/// The mirror of a generated move is a generated move of the mirrored position.
#[verifier::rlimit(30)]
proof fn lemma_mirror_move_member(p: PosView, m: Move)
    requires
        p.board.len() == 20,
        moves_spec(p).contains(m),
    ensures
        moves_spec(mirror_view(p)).contains(mirror_move(m)),
{
    let mp = mirror_view(p);
    let mm = mirror_move(m);
    lemma_moves_shape(p);
    let w = choose|w: int| 0 <= w < moves_spec(p).len() && moves_spec(p)[w] == m;
    assert(crate::rules::move_shape(p, moves_spec(p)[w]));
    let a2 = squares_moves(mp, 20);
    let h2 = hand_drops(mp, 4);
    assert(moves_spec(mp) == a2 + h2);
    match m.from {
        Some(sq8) => {
            let sq = sq8 as int;
            lemma_board_move_ray(p, m);
            let pc = p.board[sq]->Some_0;
            let (slider, dirs) = movement_spec(pc.0, pc.1, pc.2);
            let (i, n) = choose|i: int, n: int|
                0 <= i < dirs.len() && 1 <= n <= 5 && (n == 1 || slider) && ray_clear(
                    p.board,
                    sq,
                    dirs[i].0 as int,
                    dirs[i].1 as int,
                    1,
                    n,
                ) && ray_in(sq, dirs[i].0 as int, dirs[i].1 as int, n) && m.to as int == #[trigger] ray_sq(
                    sq,
                    dirs[i].0 as int,
                    dirs[i].1 as int,
                    n,
                );
            let dr = dirs[i].0 as int;
            let df = dirs[i].1 as int;
            lemma_movement_dirs(pc.0, pc.1, pc.2);
            lemma_mirror_dir(pc.0, pc.1, pc.2, i);
            let j = mirror_index(pc.0, pc.1, i);
            let msq = mirror_sq(sq);
            lemma_mirror_sq(sq);
            assert(mp.board[msq] == p.board[sq]);
            assert forall|k: int| 1 <= k < n implies ray_in(msq, dr, -df, k) && mp.board[#[trigger] ray_sq(
                msq,
                dr,
                -df,
                k,
            )] is None by {
                lemma_mirror_ray_sq(sq, dr, df, k);
                assert(ray_in(sq, dr, df, k) && p.board[ray_sq(sq, dr, df, k)] is None);
                lemma_mirror_sq(ray_sq(sq, dr, df, k));
            }
            lemma_mirror_ray_sq(sq, dr, df, n);
            let t = m.to as int;
            lemma_mirror_sq(t);
            assert(mp.board[mirror_sq(t)] == p.board[t]);
            lemma_ray_include(mp, msq, pc.0, pc.1, slider, dr, -df, 1, n);
            assert(dirs[j].0 as int == dr && dirs[j].1 as int == -df);
            assert(mm == (Move {
                kind: pc.0,
                from: Some(msq as u8),
                to: ray_sq(msq, dr, -df, n) as u8,
                capture: mp.board[ray_sq(msq, dr, -df, n)] is Some,
                promo: result_face_of(pc.0, pc.1, mp.board[ray_sq(msq, dr, -df, n)] is Some),
            }));
            lemma_dirs_include(mp, msq, pc.0, pc.1, slider, dirs, dirs.len() as int, j, mm);
            assert(piece_moves(mp, msq).contains(mm));
            lemma_squares_include(mp, 20, msq, mm);
            let k = choose|k: int| 0 <= k < a2.len() && a2[k] == mm;
            assert((a2 + h2)[k] == mm);
        },
        None => {
            let a = squares_moves(p, 20);
            let h = hand_drops(p, 4);
            assert(moves_spec(p) == a + h);
            let k = choose|k: int| 0 <= k < (a + h).len() && (a + h)[k] == m;
            if k < a.len() {
                assert(a[k] == m);
                assert(a.contains(m));
                lemma_squares_member(p, 20, m);
                let sq = choose|sq: int| 0 <= sq < 20 && #[trigger] piece_moves(p, sq).contains(m);
                let pc = p.board[sq]->Some_0;
                let (slider, dirs) = movement_spec(pc.0, pc.1, pc.2);
                lemma_dirs_member(p, sq, pc.0, pc.1, slider, dirs, dirs.len() as int, m);
                let i = choose|i: int|
                    0 <= i < dirs.len() && #[trigger] ray_moves(p, sq, pc.0, pc.1, slider, dirs[i].0 as int, dirs[i].1 as int, 1).contains(m);
                lemma_ray_member(p, sq, pc.0, pc.1, slider, dirs[i].0 as int, dirs[i].1 as int, 1, m);
                assert(false);
            }
            assert(h[k - a.len()] == m);
            assert(h.contains(m));
            lemma_hand_drops_member(p, 4, m);
            let i = choose|i: int| 0 <= i < 4 && hand_of(p, p.turn)[i] != 0 && #[trigger] square_drops(p, slot_kind(i), 20).contains(m);
            lemma_square_drops_member(p, slot_kind(i), 20, m);
            let t = m.to as int;
            lemma_mirror_sq(t);
            assert(mp.board[mirror_sq(t)] == p.board[t]);
            lemma_square_drops_include(mp, slot_kind(i), 20, mirror_sq(t), m.promo);
            assert(hand_of(mp, mp.turn) == hand_of(p, p.turn));
            lemma_hand_drops_include(mp, 4, i, mm);
            let k2 = choose|k2: int| 0 <= k2 < h2.len() && h2[k2] == mm;
            assert((a2 + h2)[a2.len() + k2] == mm);
        },
    }
}

/// The canonical rank of a Sente-to-move KPG position with plain Kings names
/// the position or its mirror image.
#[verifier::rlimit(30)]
proof fn lemma_sente_rank(p: PosView)
    requires
        kpg_valid(p),
        kings_plain(p.board),
    ensures
        canonical_rank_spec(p) is Some,
        unrank_spec(canonical_rank_spec(p)->Some_0 as int) == p || unrank_spec(canonical_rank_spec(p)->Some_0 as int)
            == mirror_view(p),
{
    let mp = mirror_view(p);
    assert(kings_plain(mp.board)) by {
        assert forall|s: int| 0 <= s < 20 implies plain_king_cell(#[trigger] mp.board[s]) by {
            lemma_mirror_sq(s);
            assert(plain_king_cell(p.board[mirror_sq(s)]));
        }
    }
    lemma_normalize_plain(p);
    lemma_normalize_plain(mp);
    lemma_mirror_kpg(p);
    lemma_rank_unrank(-1, p);
    lemma_rank_unrank(-1, mp);
    let r1 = rank_id(p);
    let r2 = rank_id(mp);
    let pid = if r1 <= r2 { r1 } else { r2 };
    lemma_sizes();
    assert(pid as u32 as int == pid);
    assert(canonical_rank_spec(p) == Some(pid as u32)) by {
        reveal(canonical_rank_spec);
        assert(canonical_turn_spec(p) == p);
    }
}

/// Verified predecessors are complete too: the position, unranked from its
/// canonical rank, has a move to the child's canonical rank.
#[verifier::rlimit(30)]
pub proof fn lemma_verified_predecessors_complete(p: PosView, m: Move)
    requires
        kpg_valid(p),
        normalize(p) == p,
        moves_spec(p).contains(m),
        !is_king_capture(p, m),
    ensures
        ranked(pred_parents(canonical_rank_spec(make_spec(p, m))->Some_0 as int)).contains(
            canonical_rank_spec(p)->Some_0,
        ),
        leads_to(
            unrank_spec(canonical_rank_spec(p)->Some_0 as int),
            canonical_rank_spec(make_spec(p, m))->Some_0,
        ),
{
    lemma_predecessors_complete(p, m);
    let c = make_spec(p, m);
    let cid = canonical_rank_spec(c)->Some_0;
    lemma_normalize_plain(p);
    lemma_sente_rank(p);
    let u = unrank_spec(canonical_rank_spec(p)->Some_0 as int);
    lemma_moves_shape(p);
    let w = choose|w: int| 0 <= w < moves_spec(p).len() && moves_spec(p)[w] == m;
    assert(crate::rules::move_shape(p, moves_spec(p)[w]));
    if u == p {
        assert(moves_spec(p)[w] == m);
        assert(canonical_rank_spec(make_spec(p, moves_spec(p)[w])) == Some(cid));
    } else {
        lemma_mirror_move_member(p, m);
        lemma_mirror_make(p, m);
        let mm = mirror_move(m);
        let mp = mirror_view(p);
        lemma_kpg_closed(p, m);
        lemma_rank_canonical_mirror(c);
        let w2 = choose|w2: int| 0 <= w2 < moves_spec(mp).len() && moves_spec(mp)[w2] == mm;
        assert(!is_king_capture(mp, moves_spec(mp)[w2]));
        assert(canonical_rank_spec(make_spec(mp, moves_spec(mp)[w2])) == Some(cid));
    }
}

// ---------------------------------------------------------------------------
// Every generated predecessor is a real parent
// ---------------------------------------------------------------------------

/// Steps `lo..=hi` back from `t` along (dr, df) are on the board and empty.
pub open spec fn back_clear(b: Seq<Cell>, t: int, dr: int, df: int, lo: int, hi: int) -> bool {
    forall|k: int| lo <= k <= hi ==> back_in(t, dr, df, k) && b[#[trigger] back_sq(t, dr, df, k)] is None
}

/// A square on a source ray is reached walking back from `t` over empty
/// squares, one step only for a non-slider.
#[verifier::rlimit(30)]
proof fn lemma_source_ray_member(b: Seq<Cell>, t: int, slider: bool, dr: int, df: int, j: int, x: u8)
    requires
        1 <= j,
        source_ray(b, t, slider, dr, df, j).contains(x),
    ensures
        exists|n: int|
            j <= n <= 5 && (n == j || slider) && x as int == #[trigger] back_sq(t, dr, df, n) && back_clear(
                b,
                t,
                dr,
                df,
                j,
                n,
            ),
    decreases 6 - j,
{
    let ray = source_ray(b, t, slider, dr, df, j);
    let r = sq_rank(t) - j * dr;
    let f = sq_file(t) - j * df;
    assert(j <= 5 && in_board(r, f) && b[r * 4 + f] is None);
    assert(back_sq(t, dr, df, j) == r * 4 + f);
    let k0 = choose|k0: int| 0 <= k0 < ray.len() && ray[k0] == x;
    if k0 == 0 {
        assert(x as int == back_sq(t, dr, df, j));
        assert(back_clear(b, t, dr, df, j, j));
    } else {
        let rest = source_ray(b, t, slider, dr, df, j + 1);
        assert(ray == seq![(r * 4 + f) as u8] + rest);
        assert(rest[k0 - 1] == x);
        lemma_source_ray_member(b, t, slider, dr, df, j + 1, x);
        let n = choose|n: int|
            j + 1 <= n <= 5 && (n == j + 1 || slider) && x as int == #[trigger] back_sq(t, dr, df, n) && back_clear(
                b,
                t,
                dr,
                df,
                j + 1,
                n,
            );
        assert(back_clear(b, t, dr, df, j, n));
        assert(x as int == back_sq(t, dr, df, n));
    }
}

/// A piece on a source square of `t` moves to `t` by its own directions,
/// past the empty squares between.
#[verifier::rlimit(30)]
proof fn lemma_source_move(c: PosView, q: PosView, t: int, kind: Kind, promo: bool, from: u8)
    requires
        c.board.len() == 20,
        q.board.len() == 20,
        0 <= t < 20,
        q.turn == Owner::Sente,
        sources_spec(c.board, t, kind, promo, Owner::Sente).contains(from),
        q.board[from as int] == Some((kind, promo, Owner::Sente)),
        forall|s: int| 0 <= s < 20 && s != t && s != from as int ==> q.board[s] == c.board[s],
        !(q.board[t] matches Some(x) && x.2 == Owner::Sente),
    ensures
        moves_spec(q).contains(
            Move {
                kind,
                from: Some(from),
                to: t as u8,
                capture: q.board[t] is Some,
                promo: result_face_of(kind, promo, q.board[t] is Some),
            },
        ),
        from < 20,
        from as int != t,
{
    let (slider, dirs) = movement_spec(kind, promo, Owner::Sente);
    lemma_movement_dirs(kind, promo, Owner::Sente);
    lemma_source_dirs_member(c.board, t, slider, dirs, dirs.len() as int, from);
    let i = choose|i: int|
        0 <= i < dirs.len() && #[trigger] source_ray(c.board, t, slider, dirs[i].0 as int, dirs[i].1 as int, 1).contains(from);
    let dr = dirs[i].0 as int;
    let df = dirs[i].1 as int;
    assert(!(dr == 0 && df == 0));
    lemma_source_ray_member(c.board, t, slider, dr, df, 1, from);
    let n = choose|n: int|
        1 <= n <= 5 && (n == 1 || slider) && from as int == #[trigger] back_sq(t, dr, df, n) && back_clear(
            c.board,
            t,
            dr,
            df,
            1,
            n,
        );
    let f = from as int;
    assert(back_in(t, dr, df, n) && c.board[back_sq(t, dr, df, n)] is None);
    lemma_mirror_coords(t);
    let tr = sq_rank(t);
    let tf = sq_file(t);
    assert(sq_rank(f) == tr - n * dr && sq_file(f) == tf - n * df) by {
        let fr = tr - n * dr;
        let ff = tf - n * df;
        assert(f == fr * 4 + ff);
        assert(0 <= ff < 4 && 0 <= fr < 5);
    }
    lemma_mirror_coords(f);
    assert(ray_sq(f, dr, df, n) == t && ray_in(f, dr, df, n)) by (nonlinear_arith)
        requires
            sq_rank(f) == tr - n * dr,
            sq_file(f) == tf - n * df,
            t == tr * 4 + tf,
            0 <= tr < 5,
            0 <= tf < 4,
    ;
    assert(ray_in(f, dr, df, 0) && ray_sq(f, dr, df, 0) == f);
    lemma_ray_distinct(f, dr, df, 0, n);
    assert forall|k: int| 1 <= k < n implies ray_in(f, dr, df, k) && q.board[#[trigger] ray_sq(f, dr, df, k)] is None by {
        assert(ray_sq(f, dr, df, k) == back_sq(t, dr, df, n - k) && ray_in(f, dr, df, k) == back_in(t, dr, df, n - k))
            by (nonlinear_arith)
            requires
                sq_rank(f) == tr - n * dr,
                sq_file(f) == tf - n * df,
                tr == sq_rank(t),
                tf == sq_file(t),
        ;
        assert(back_in(t, dr, df, n - k) && c.board[back_sq(t, dr, df, n - k)] is None);
        lemma_ray_distinct(f, dr, df, k, n);
        lemma_ray_distinct(f, dr, df, k, 0);
    }
    lemma_ray_include(q, f, kind, promo, slider, dr, df, 1, n);
    let mv = Move {
        kind,
        from: Some(from),
        to: t as u8,
        capture: q.board[t] is Some,
        promo: result_face_of(kind, promo, q.board[t] is Some),
    };
    assert(f as u8 == from);
    lemma_dirs_include(q, f, kind, promo, slider, dirs, dirs.len() as int, i, mv);
    assert(piece_moves(q, f).contains(mv));
    lemma_squares_include(q, 20, f, mv);
    let a = squares_moves(q, 20);
    let h = hand_drops(q, 4);
    let k = choose|k: int| 0 <= k < a.len() && a[k] == mv;
    assert((a + h)[k] == mv);
}

/// A source square is an empty square on the board, other than the target.
#[verifier::rlimit(30)]
proof fn lemma_source_square(b: Seq<Cell>, t: int, kind: Kind, promo: bool, owner: Owner, f: u8)
    requires
        0 <= t < 20,
        sources_spec(b, t, kind, promo, owner).contains(f),
    ensures
        f < 20,
        b[f as int] is None,
        f as int != t,
{
    let (slider, dirs) = movement_spec(kind, promo, owner);
    lemma_movement_dirs(kind, promo, owner);
    lemma_source_dirs_member(b, t, slider, dirs, dirs.len() as int, f);
    let i = choose|i: int|
        0 <= i < dirs.len() && #[trigger] source_ray(b, t, slider, dirs[i].0 as int, dirs[i].1 as int, 1).contains(f);
    let dr = dirs[i].0 as int;
    let df = dirs[i].1 as int;
    lemma_source_ray_member(b, t, slider, dr, df, 1, f);
    let n = choose|n: int|
        1 <= n <= 5 && (n == 1 || slider) && f as int == #[trigger] back_sq(t, dr, df, n) && back_clear(b, t, dr, df, 1, n);
    assert(back_in(t, dr, df, n) && b[back_sq(t, dr, df, n)] is None);
    lemma_mirror_coords(t);
    let tr = sq_rank(t);
    let tf = sq_file(t);
    let fr = tr - n * dr;
    let ff = tf - n * df;
    assert(f as int == fr * 4 + ff);
    if f as int == t {
        assert(fr == tr && ff == tf) by (nonlinear_arith)
            requires
                fr * 4 + ff == tr * 4 + tf,
                0 <= ff < 4,
                0 <= tf < 4,
        ;
        assert(false) by (nonlinear_arith)
            requires
                fr == tr - n * dr,
                ff == tf - n * df,
                fr == tr,
                ff == tf,
                n >= 1,
                !(dr == 0 && df == 0),
        ;
    }
}

/// What the child of a candidate parent is: a Gote-to-move position of KPG
/// size whose hand counts leave room for one more.
pub open spec fn unmove_child(c: PosView) -> bool {
    &&& c.board.len() == 20
    &&& c.hand_sente.len() == 4
    &&& c.turn == Owner::Gote
    &&& forall|i: int| 0 <= i < 4 ==> c.hand_sente[i] < 255
    &&& kings_plain(c.board)
}

/// What a candidate parent must show: Sente to move, plain Kings, and a move,
/// not a King capture, to the child.
pub open spec fn real_parent(q: PosView, c: PosView) -> bool {
    &&& q.turn == Owner::Sente
    &&& q.board.len() == 20
    &&& kings_plain(q.board)
    &&& exists|m: Move| #[trigger] moves_spec(q).contains(m) && !is_king_capture(q, m) && make_spec(q, m) == c
}

#[verifier::rlimit(30)]
proof fn lemma_undrop_sound(c: PosView, to: int, kind: Kind, promo: bool)
    requires
        unmove_child(c),
        0 <= to < 20,
        c.board[to] == Some((kind, promo, Owner::Sente)),
        kind != Kind::King,
    ensures
        real_parent(undrop_parent(c, to, kind), c),
{
    let q = undrop_parent(c, to, kind);
    let slot = hand_slot(kind);
    let m = Move { kind, from: None, to: to as u8, capture: false, promo };
    assert(q.board[to] is None);
    assert(slot_kind(slot) == kind);
    assert(hand_of(q, q.turn)[slot] != 0);
    lemma_square_drops_include(q, kind, 20, to, promo);
    lemma_hand_drops_include(q, 4, slot, m);
    let a2 = squares_moves(q, 20);
    let h2 = hand_drops(q, 4);
    let k2 = choose|k2: int| 0 <= k2 < h2.len() && h2[k2] == m;
    assert((a2 + h2)[a2.len() + k2] == m);
    assert(moves_spec(q).contains(m));
    assert(make_spec(q, m).board =~= c.board);
    assert(make_spec(q, m).hand_sente =~= c.hand_sente);
    assert(make_spec(q, m) == c);
    assert forall|s: int| 0 <= s < 20 implies plain_king_cell(#[trigger] q.board[s]) by {
        assert(plain_king_cell(c.board[s]));
    }
}

#[verifier::rlimit(30)]
proof fn lemma_quiet_sound(c: PosView, to: int, kind: Kind, promo: bool, f: u8)
    requires
        unmove_child(c),
        0 <= to < 20,
        c.board[to] == Some((kind, promo, Owner::Sente)),
        sources_spec(c.board, to, kind, promo, Owner::Sente).contains(f),
    ensures
        real_parent(quiet_parent(c, to, kind, promo, f as int), c),
{
    let q = quiet_parent(c, to, kind, promo, f as int);
    lemma_source_square(c.board, to, kind, promo, Owner::Sente, f);
    lemma_source_move(c, q, to, kind, promo, f);
    let m = Move { kind, from: Some(f), to: to as u8, capture: false, promo };
    assert(q.board[to] is None);
    assert(make_spec(q, m).board =~= c.board);
    assert(make_spec(q, m) == c);
    assert(plain_king_cell(c.board[to]));
    assert forall|s: int| 0 <= s < 20 implies plain_king_cell(#[trigger] q.board[s]) by {
        assert(plain_king_cell(c.board[s]));
    }
}

#[verifier::rlimit(30)]
proof fn lemma_capture_sound(c: PosView, to: int, kind: Kind, promo: bool, f: u8, ck: Kind, cp: bool)
    requires
        unmove_child(c),
        0 <= to < 20,
        c.board[to] == Some((kind, promo, Owner::Sente)),
        sources_spec(c.board, to, kind, face_before_capture(kind, promo), Owner::Sente).contains(f),
        ck == Kind::Gold || ck == Kind::Pawn,
        c.hand_sente[hand_slot(ck)] != 0,
    ensures
        real_parent(capture_parent(c, to, kind, face_before_capture(kind, promo), f as int, ck, cp), c),
{
    let op = face_before_capture(kind, promo);
    let q = capture_parent(c, to, kind, op, f as int, ck, cp);
    lemma_source_square(c.board, to, kind, op, Owner::Sente, f);
    lemma_source_move(c, q, to, kind, op, f);
    assert(q.board[to] == Some((ck, cp, Owner::Gote)));
    assert(plain_king_cell(c.board[to]));
    let m = Move { kind, from: Some(f), to: to as u8, capture: true, promo: result_face_of(kind, op, true) };
    assert(m.promo == promo);
    assert(make_spec(q, m).board =~= c.board);
    assert(make_spec(q, m).hand_sente =~= c.hand_sente);
    assert(make_spec(q, m) == c);
    assert forall|s: int| 0 <= s < 20 implies plain_king_cell(#[trigger] q.board[s]) by {
        assert(plain_king_cell(c.board[s]));
    }
}

/// Every candidate parent of a Gote-to-move KPG-sized position has a move, not
/// a King capture, that leads to the position.
proof fn lemma_unmove_sound(c: PosView, to: int, q: PosView)
    requires
        unmove_child(c),
        0 <= to < 20,
        square_parents(c, to).contains(q),
    ensures
        real_parent(q, c),
{
    let t = c.board[to]->Some_0;
    let kind = t.0;
    let promo = t.1;
    assert(t.2 == Owner::Sente);
    let op = face_before_capture(kind, promo);
    let s1 = sources_spec(c.board, to, kind, promo, Owner::Sente);
    let s2 = sources_spec(c.board, to, kind, op, Owner::Sente);
    let a = if kind != Kind::King { seq![undrop_parent(c, to, kind)] } else { seq![] };
    let b = quiet_parents(c, to, kind, promo, s1);
    let cc = capture_parents(c, to, kind, op, s2);
    assert(square_parents(c, to) == a + b + cc);
    let idx = choose|idx: int| 0 <= idx < (a + b + cc).len() && (a + b + cc)[idx] == q;
    if idx < a.len() {
        assert(q == undrop_parent(c, to, kind));
        lemma_undrop_sound(c, to, kind, promo);
    } else if idx < a.len() + b.len() {
        let j = idx - a.len();
        let f = s1[j];
        assert(s1.contains(f));
        assert(q == quiet_parent(c, to, kind, promo, f as int));
        lemma_quiet_sound(c, to, kind, promo, f);
    } else {
        let i = idx - a.len() - b.len();
        assert(cc[i] == q);
        assert(cc.contains(q));
        lemma_capture_parents_member(c, to, kind, op, s2, q);
        let w = choose|w: int| 0 <= w < s2.len() && #[trigger] from_captures(c, to, kind, op, s2[w] as int).contains(q);
        let f = s2[w];
        assert(s2.contains(f));
        let fc = from_captures(c, to, kind, op, f as int);
        let k = choose|k: int| 0 <= k < fc.len() && fc[k] == q;
        let ck: Kind = if k < 2 && c.hand_sente[0] != 0 { Kind::Gold } else { Kind::Pawn };
        let cp: bool = if c.hand_sente[0] != 0 { k % 2 == 1 } else { k == 1 };
        assert(q == capture_parent(c, to, kind, op, f as int, ck, cp));
        assert(c.hand_sente[hand_slot(ck)] != 0);
        lemma_capture_sound(c, to, kind, promo, f, ck, cp);
    }
}

/// Turned to Gote and normalised back, a Sente-to-move position is itself.
proof fn lemma_rotate_there_back(u: PosView)
    requires
        u.board.len() == 20,
        u.turn == Owner::Sente,
    ensures
        rotate_view(rotate_swap_view(u)) == u,
{
    let r = rotate_view(rotate_swap_view(u));
    assert forall|s: int| 0 <= s < 20 implies r.board[s] == u.board[s] by {
        assert(19 - (19 - s) == s);
        match u.board[s] {
            Some(t) => {
                assert(crate::rules::flip_spec(crate::rules::flip_spec(t.2)) == t.2) by {
                    match t.2 {
                        Owner::Sente => {},
                        Owner::Gote => {},
                    }
                }
            },
            None => {},
        }
    }
    assert(r.board =~= u.board);
}

/// Generated predecessors are sound: when a rank is the canonical rank of the
/// position it names, every rank generated as its predecessor names a position
/// with a move, other than a King capture, to it.
#[verifier::rlimit(30)]
pub proof fn lemma_predecessors_sound(child_id: int, pid: u32)
    requires
        0 <= child_id < domain_spec(),
        canonical_rank_spec(unrank_spec(child_id)) == Some(child_id as u32),
        ranked(pred_parents(child_id)).contains(pid),
    ensures
        leads_to(unrank_spec(pid as int), child_id as u32),
{
    let u = unrank_spec(child_id);
    lemma_rank_unrank(child_id, u);
    lemma_normalize_plain(u);
    let c = rotate_swap_view(u);
    assert(u.hand_gote[0] <= 2 && u.hand_gote[3] <= 2);
    assert forall|s: int| 0 <= s < 20 implies plain_king_cell(#[trigger] c.board[s]) by {
        assert(plain_king_cell(u.board[19 - s]));
    }
    let ps = pred_parents(child_id);
    lemma_ranked_member(ps, pid);
    let i = choose|i: int| 0 <= i < ps.len() && canonical_rank_spec(#[trigger] ps[i]) == Some(pid);
    let q = ps[i];
    assert(ps.contains(q));
    lemma_unmove_member(c, 20, q);
    let to = choose|to: int| 0 <= to < 20 && #[trigger] square_parents(c, to).contains(q);
    lemma_unmove_sound(c, to, q);
    assert(real_parent(q, c));
    let m = choose|m: Move| #[trigger] moves_spec(q).contains(m) && !is_king_capture(q, m) && make_spec(q, m) == c;
    lemma_rotate_there_back(u);
    assert(canonical_rank_spec(c) == Some(child_id as u32)) by {
        reveal(canonical_rank_spec);
        assert(canonical_turn_spec(c) == u);
        assert(canonical_turn_spec(u) == u);
    }
    assert(kpg_valid(q)) by {
        reveal(canonical_rank_spec);
        assert(canonical_turn_spec(q) == q);
    }
    lemma_sente_rank(q);
    lemma_moves_shape(q);
    let w = choose|w: int| 0 <= w < moves_spec(q).len() && moves_spec(q)[w] == m;
    assert(crate::rules::move_shape(q, moves_spec(q)[w]));
    if unrank_spec(pid as int) == q {
        assert(canonical_rank_spec(make_spec(q, moves_spec(q)[w])) == Some(child_id as u32));
    } else {
        lemma_mirror_move_member(q, m);
        lemma_mirror_make(q, m);
        lemma_rank_canonical_mirror(c);
        let mq = mirror_view(q);
        let mm = mirror_move(m);
        let w2 = choose|w2: int| 0 <= w2 < moves_spec(mq).len() && moves_spec(mq)[w2] == mm;
        assert(!is_king_capture(mq, moves_spec(mq)[w2]));
        assert(canonical_rank_spec(make_spec(mq, moves_spec(mq)[w2])) == Some(child_id as u32));
    }
}

/// For a canonical rank, checking each generated predecessor against the
/// forward moves keeps them all: the generated and the checked predecessors are
/// the same ranks.
pub proof fn lemma_checked_predecessors_same(child_id: u32)
    requires
        child_id < domain_spec(),
        canonical_rank_spec(unrank_spec(child_id as int)) == Some(child_id),
    ensures
        ranked(pred_parents(child_id as int)).to_set().filter(|pid: u32| leads_to(unrank_spec(pid as int), child_id))
            == ranked(pred_parents(child_id as int)).to_set(),
{
    let all = ranked(pred_parents(child_id as int)).to_set();
    let f = |pid: u32| leads_to(unrank_spec(pid as int), child_id);
    assert forall|pid: u32| all.contains(pid) implies #[trigger] f(pid) by {
        lemma_predecessors_sound(child_id as int, pid);
    }
    assert(all.filter(f) =~= all);
}

} // verus!
