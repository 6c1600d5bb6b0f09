//! Packing a position into a `u128` key, and the symmetry folds (turn
//! normalisation by 180-degree rotation with colour swap, left-right mirror)
//! that give a canonical key.
//!
//! Layout: 20 cells x 5 bits (codes 0..=18) in bits 0..100, eight hand counts
//! x 2 bits (Sente's four slots, then Gote's) in bits 100..116, and the turn in
//! bit 116.
use vstd::prelude::*;
use crate::rules::{
    Cell, Kind, Move, Owner, PosView, Position, dirs_moves, flip_spec, hand_drops, in_board, moves_spec,
    movement_spec, piece_moves, ray_moves, sq_file, sq_rank, square_drops, squares_moves, is_king_capture, make_spec,
    perft_spec, perft_sum, result_face, hand_of, slot_kind,
};

verus! {

broadcast use vstd::array::group_array_axioms;

// ---------------------------------------------------------------------------
// Bit fields
// ---------------------------------------------------------------------------

/// The field of `x` selected by `mask` after shifting right by `s`.
pub open spec fn field(x: u128, s: u128, mask: u128) -> u128 {
    (x >> s) & mask
}

proof fn lemma_field_insert(x: u128, y: u128, s: u128, w: u128, mask: u128)
    by (bit_vector)
    requires
        1 <= w <= 8,
        s + w < 128,
        mask == ((1u128 << w) - 1) as u128,
        y <= mask,
        x < (1u128 << s),
    ensures
        (x | (y << s)) < (1u128 << (s + w)),
        ((x | (y << s)) >> s) & mask == y,
{
}

proof fn lemma_field_keep(x: u128, y: u128, s: u128, t: u128, w: u128, mask: u128)
    by (bit_vector)
    requires
        1 <= w <= 8,
        t + w <= s,
        s < 128,
        mask == ((1u128 << w) - 1) as u128,
    ensures
        ((x | (y << s)) >> t) & mask == (x >> t) & mask,
{
}

proof fn lemma_masks()
    by (bit_vector)
    ensures
        31u128 == ((1u128 << 5u128) - 1) as u128,
        3u128 == ((1u128 << 2u128) - 1) as u128,
        1u128 == ((1u128 << 1u128) - 1) as u128,
        0u128 < (1u128 << 0u128),
{
}

// ---------------------------------------------------------------------------
// Cell codes
// ---------------------------------------------------------------------------

pub open spec fn face_code(k: Kind, promo: bool) -> u32 {
    match k {
        Kind::King => 0,
        Kind::Gold => if promo { 2 } else { 1 },
        Kind::Silver => if promo { 4 } else { 3 },
        Kind::Bishop => if promo { 6 } else { 5 },
        Kind::Pawn => if promo { 8 } else { 7 },
    }
}

/// 0 for an empty cell, else `face * 2 + (Gote ? 1 : 0) + 1` (at most 18).
pub open spec fn cell_code_spec(c: Cell) -> u32 {
    match c {
        None => 0,
        Some(t) => (face_code(t.0, t.1) * 2 + (if t.2 == Owner::Gote { 1u32 } else { 0u32 }) + 1) as u32,
    }
}

pub open spec fn code_face(base: u32) -> (Kind, bool) {
    if base == 0 {
        (Kind::King, false)
    } else if base == 1 {
        (Kind::Gold, false)
    } else if base == 2 {
        (Kind::Gold, true)
    } else if base == 3 {
        (Kind::Silver, false)
    } else if base == 4 {
        (Kind::Silver, true)
    } else if base == 5 {
        (Kind::Bishop, false)
    } else if base == 6 {
        (Kind::Bishop, true)
    } else if base == 7 {
        (Kind::Pawn, false)
    } else {
        (Kind::Pawn, true)
    }
}

/// Decoding of a cell code; codes above 18 decode as a Knight.
pub open spec fn code_cell_spec(code: u32) -> Cell {
    if code == 0 {
        None
    } else {
        let owner = if (code - 1) % 2 == 1 { Owner::Gote } else { Owner::Sente };
        let f = code_face(((code - 1) / 2) as u32);
        Some((f.0, f.1, owner))
    }
}

/// A cell that survives encoding: a King always shows its only face.
pub open spec fn cell_canonical(c: Cell) -> bool {
    c matches Some(t) ==> (t.0 == Kind::King ==> !t.1)
}

// ---------------------------------------------------------------------------
// The packed key
// ---------------------------------------------------------------------------

/// Cells `0..n` OR-ed into their 5-bit fields.
pub open spec fn pack_board(b: Seq<Cell>, n: nat) -> u128
    decreases n,
{
    if n == 0 {
        0
    } else {
        pack_board(b, (n - 1) as nat) | ((cell_code_spec(b[n - 1]) as u128) << ((5 * (n - 1)) as u128))
    }
}

/// Hand count number `i` of the eight (Sente's four slots, then Gote's).
pub open spec fn hand_count(v: PosView, i: int) -> u8 {
    if i < 4 {
        v.hand_sente[i]
    } else {
        v.hand_gote[i - 4]
    }
}

/// The board followed by hand counts `0..n` OR-ed into their 2-bit fields.
/// (A count above 3 spills into the next field, as the encoding does.)
pub open spec fn pack_hands(v: PosView, n: nat) -> u128
    decreases n,
{
    if n == 0 {
        pack_board(v.board, 20)
    } else {
        pack_hands(v, (n - 1) as nat) | ((hand_count(v, n - 1) as u128) << ((100 + 2 * (n - 1)) as u128))
    }
}

pub open spec fn pack_spec(v: PosView) -> u128 {
    if v.turn == Owner::Gote {
        pack_hands(v, 8) | (1u128 << 116u128)
    } else {
        pack_hands(v, 8)
    }
}

pub open spec fn unpack_spec(x: u128) -> PosView {
    PosView {
        board: Seq::new(20, |sq: int| code_cell_spec(field(x, (5 * sq) as u128, 31) as u32)),
        hand_sente: Seq::new(4, |i: int| field(x, (100 + 2 * i) as u128, 3) as u8),
        hand_gote: Seq::new(4, |i: int| field(x, (108 + 2 * i) as u128, 3) as u8),
        turn: if field(x, 116, 1) == 1 { Owner::Gote } else { Owner::Sente },
    }
}

/// Positions that the key represents exactly: every King unpromoted and every
/// hand count at most 3.
pub open spec fn pack_valid(v: PosView) -> bool {
    &&& v.board.len() == 20
    &&& v.hand_sente.len() == 4
    &&& v.hand_gote.len() == 4
    &&& forall|i: int| 0 <= i < 4 ==> #[trigger] v.hand_sente[i] <= 3
    &&& forall|i: int| 0 <= i < 4 ==> #[trigger] v.hand_gote[i] <= 3
    &&& forall|sq: int| 0 <= sq < 20 ==> cell_canonical(#[trigger] v.board[sq])
}

proof fn lemma_code_bounds(c: Cell)
    ensures
        cell_code_spec(c) <= 18,
        cell_canonical(c) ==> code_cell_spec(cell_code_spec(c)) == c,
{
}

proof fn lemma_pack_board_fields(b: Seq<Cell>, n: nat)
    requires
        n <= 20,
    ensures
        pack_board(b, n) < (1u128 << ((5 * n) as u128)),
        forall|sq: int| 0 <= sq < n ==> #[trigger] field(pack_board(b, n), (5 * sq) as u128, 31)
            == cell_code_spec(b[sq]) as u128,
    decreases n,
{
    lemma_masks();
    if n > 0 {
        let m = (n - 1) as nat;
        lemma_pack_board_fields(b, m);
        let x = pack_board(b, m);
        let y = cell_code_spec(b[m as int]) as u128;
        lemma_code_bounds(b[m as int]);
        lemma_field_insert(x, y, (5 * m) as u128, 5, 31);
        assert forall|sq: int| 0 <= sq < n implies #[trigger] field(pack_board(b, n), (5 * sq) as u128, 31)
            == cell_code_spec(b[sq]) as u128 by {
            assert(pack_board(b, n) == x | (y << ((5 * m) as u128)));
            if sq < m {
                lemma_field_keep(x, y, (5 * m) as u128, (5 * sq) as u128, 5, 31);
                assert(field(x, (5 * sq) as u128, 31) == cell_code_spec(b[sq]) as u128);
            }
        }
    }
}

proof fn lemma_pack_hands_fields(v: PosView, n: nat)
    requires
        n <= 8,
        pack_valid(v),
    ensures
        pack_hands(v, n) < (1u128 << ((100 + 2 * n) as u128)),
        forall|sq: int| 0 <= sq < 20 ==> #[trigger] field(pack_hands(v, n), (5 * sq) as u128, 31)
            == cell_code_spec(v.board[sq]) as u128,
        forall|i: int| 0 <= i < n ==> #[trigger] field(pack_hands(v, n), (100 + 2 * i) as u128, 3)
            == hand_count(v, i) as u128,
    decreases n,
{
    lemma_masks();
    if n == 0 {
        lemma_pack_board_fields(v.board, 20);
    } else {
        let m = (n - 1) as nat;
        lemma_pack_hands_fields(v, m);
        let x = pack_hands(v, m);
        let y = hand_count(v, m as int) as u128;
        assert(y <= 3) by {
            if m < 4 {
                assert(v.hand_sente[m as int] <= 3);
            } else {
                assert(v.hand_gote[m - 4] <= 3);
            }
        }
        lemma_field_insert(x, y, (100 + 2 * m) as u128, 2, 3);
        assert forall|sq: int| 0 <= sq < 20 implies #[trigger] field(pack_hands(v, n), (5 * sq) as u128, 31)
            == cell_code_spec(v.board[sq]) as u128 by {
            assert(pack_hands(v, n) == x | (y << ((100 + 2 * m) as u128)));
            lemma_field_keep(x, y, (100 + 2 * m) as u128, (5 * sq) as u128, 5, 31);
            assert(field(x, (5 * sq) as u128, 31) == cell_code_spec(v.board[sq]) as u128);
        }
        assert forall|i: int| 0 <= i < n implies #[trigger] field(pack_hands(v, n), (100 + 2 * i) as u128, 3)
            == hand_count(v, i) as u128 by {
            assert(pack_hands(v, n) == x | (y << ((100 + 2 * m) as u128)));
            if i < m {
                lemma_field_keep(x, y, (100 + 2 * m) as u128, (100 + 2 * i) as u128, 2, 3);
                assert(field(x, (100 + 2 * i) as u128, 3) == hand_count(v, i) as u128);
            }
        }
    }
}

/// Unpacking a packed position gives it back, for every position the key can
/// represent (Kings unpromoted, hand counts at most 3).
proof fn lemma_field3(x: u128, s: u128)
    by (bit_vector)
    ensures
        (x >> s) & 3 <= 3,
{
}

/// An unpacked position has 20 cells, four hand slots a side, and at most
/// three of a kind in any hand slot.
pub proof fn lemma_unpack_shape(x: u128)
    ensures
        unpack_spec(x).board.len() == 20,
        unpack_spec(x).hand_sente.len() == 4,
        unpack_spec(x).hand_gote.len() == 4,
        forall|i: int| 0 <= i < 4 ==> #[trigger] unpack_spec(x).hand_sente[i] <= 3,
        forall|i: int| 0 <= i < 4 ==> #[trigger] unpack_spec(x).hand_gote[i] <= 3,
{
    assert forall|i: int| 0 <= i < 4 implies #[trigger] unpack_spec(x).hand_sente[i] <= 3 by {
        lemma_field3(x, (100 + 2 * i) as u128);
    }
    assert forall|i: int| 0 <= i < 4 implies #[trigger] unpack_spec(x).hand_gote[i] <= 3 by {
        lemma_field3(x, (108 + 2 * i) as u128);
    }
}

/// A packed position takes 117 bits.
pub proof fn lemma_pack_bound(v: PosView)
    requires
        pack_valid(v),
    ensures
        pack_spec(v) < (1u128 << 117u128),
{
    lemma_pack_hands_fields(v, 8);
    let x = pack_hands(v, 8);
    assert(x < (1u128 << 116u128));
    assert(x < (1u128 << 116u128) ==> (x | (1u128 << 116u128)) < (1u128 << 117u128) && x < (1u128 << 117u128)) by (bit_vector);
}

pub proof fn lemma_unpack_pack(v: PosView)
    requires
        pack_valid(v),
    ensures
        unpack_spec(pack_spec(v)) == v,
{
    lemma_masks();
    lemma_pack_hands_fields(v, 8);
    let x = pack_hands(v, 8);
    let t: u128 = if v.turn == Owner::Gote { 1 } else { 0 };
    let k = pack_spec(v);
    lemma_field_insert(x, t, 116, 1, 1);
    assert(k == x | (t << 116u128)) by {
        assert(0u128 << 116u128 == 0u128) by (bit_vector);
        assert(x | 0u128 == x) by (bit_vector);
    }
    assert forall|sq: int| 0 <= sq < 20 implies #[trigger] field(k, (5 * sq) as u128, 31)
        == cell_code_spec(v.board[sq]) as u128 by {
        lemma_field_keep(x, t, 116, (5 * sq) as u128, 5, 31);
        assert(field(x, (5 * sq) as u128, 31) == cell_code_spec(v.board[sq]) as u128);
    }
    assert forall|i: int| 0 <= i < 8 implies #[trigger] field(k, (100 + 2 * i) as u128, 3)
        == hand_count(v, i) as u128 by {
        lemma_field_keep(x, t, 116, (100 + 2 * i) as u128, 2, 3);
        assert(field(x, (100 + 2 * i) as u128, 3) == hand_count(v, i) as u128);
    }
    let u = unpack_spec(k);
    assert forall|sq: int| 0 <= sq < 20 implies u.board[sq] == v.board[sq] by {
        assert(field(k, (5 * sq) as u128, 31) == cell_code_spec(v.board[sq]) as u128);
        lemma_code_bounds(v.board[sq]);
        assert(cell_canonical(v.board[sq]));
    }
    assert forall|i: int| 0 <= i < 4 implies u.hand_sente[i] == v.hand_sente[i] by {
        assert(field(k, (100 + 2 * i) as u128, 3) == hand_count(v, i) as u128);
    }
    assert forall|i: int| 0 <= i < 4 implies u.hand_gote[i] == v.hand_gote[i] by {
        assert(field(k, (100 + 2 * (i + 4)) as u128, 3) == hand_count(v, i + 4) as u128);
        assert((100 + 2 * (i + 4)) == 108 + 2 * i);
    }
    assert(u.board =~= v.board);
    assert(u.hand_sente =~= v.hand_sente);
    assert(u.hand_gote =~= v.hand_gote);
}


// ---------------------------------------------------------------------------
// Symmetries
// ---------------------------------------------------------------------------

pub open spec fn flip_cell(c: Cell) -> Cell {
    match c {
        Some(t) => Some((t.0, t.1, flip_spec(t.2))),
        None => None,
    }
}

/// Rotate the board 180 degrees and swap colours: a value-equivalent position
/// with the other side to move, here always Sente.
pub open spec fn rotate_view(v: PosView) -> PosView {
    PosView {
        board: Seq::new(20, |s: int| flip_cell(v.board[19 - s])),
        hand_sente: v.hand_gote,
        hand_gote: v.hand_sente,
        turn: Owner::Sente,
    }
}

/// Turn normalisation: a Gote-to-move position is rotated with colours swapped.
pub open spec fn canonical_turn_spec(v: PosView) -> PosView {
    if v.turn == Owner::Sente {
        v
    } else {
        rotate_view(v)
    }
}

/// The square across the vertical axis (file f <-> 3 - f).
pub open spec fn mirror_sq(s: int) -> int {
    (s / 4) * 4 + (3 - s % 4)
}

/// Left-right file mirror, a value-preserving symmetry.
pub open spec fn mirror_view(v: PosView) -> PosView {
    PosView {
        board: Seq::new(20, |s: int| v.board[mirror_sq(s)]),
        hand_sente: v.hand_sente,
        hand_gote: v.hand_gote,
        turn: v.turn,
    }
}

pub open spec fn min_u128(a: u128, b: u128) -> u128 {
    if a <= b {
        a
    } else {
        b
    }
}

/// The canonical key: fold the turn, then take the smaller key of the two
/// mirror images.
pub open spec fn canonical_key_spec(v: PosView) -> u128 {
    let q = canonical_turn_spec(v);
    min_u128(pack_spec(q), pack_spec(mirror_view(q)))
}

pub(crate) proof fn lemma_mirror_sq(s: int)
    requires
        0 <= s < 20,
    ensures
        0 <= mirror_sq(s) < 20,
        mirror_sq(mirror_sq(s)) == s,
        mirror_sq(19 - s) == 19 - mirror_sq(s),
{
}

/// Mirroring twice is the identity.
pub proof fn lemma_mirror_involution(v: PosView)
    requires
        v.board.len() == 20,
    ensures
        mirror_view(mirror_view(v)) == v,
{
    assert forall|s: int| 0 <= s < 20 implies mirror_view(mirror_view(v)).board[s] == v.board[s] by {
        lemma_mirror_sq(s);
    }
    assert(mirror_view(mirror_view(v)).board =~= v.board);
}

/// Turn normalisation commutes with the mirror.
pub proof fn lemma_turn_mirror_commute(v: PosView)
    requires
        v.board.len() == 20,
    ensures
        canonical_turn_spec(mirror_view(v)) == mirror_view(canonical_turn_spec(v)),
{
    if v.turn == Owner::Gote {
        assert forall|s: int| 0 <= s < 20 implies canonical_turn_spec(mirror_view(v)).board[s]
            == mirror_view(canonical_turn_spec(v)).board[s] by {
            lemma_mirror_sq(s);
        }
        assert(canonical_turn_spec(mirror_view(v)).board =~= mirror_view(canonical_turn_spec(v)).board);
    }
}

/// A position and its left-right mirror image have the same canonical key.
pub proof fn lemma_canonical_key_mirror(v: PosView)
    requires
        v.board.len() == 20,
    ensures
        canonical_key_spec(mirror_view(v)) == canonical_key_spec(v),
{
    lemma_turn_mirror_commute(v);
    lemma_mirror_involution(canonical_turn_spec(v));
}

/// Turn normalisation always leaves Sente to move, and is the identity on
/// Sente-to-move positions.
pub proof fn lemma_canonical_turn_sente(v: PosView)
    ensures
        canonical_turn_spec(v).turn == Owner::Sente,
        v.turn == Owner::Sente ==> canonical_turn_spec(v) == v,
{
}

/// The canonical key names a Sente-to-move position whose canonical key it is.
pub proof fn lemma_canonical_key_fixed(v: PosView)
    requires
        pack_valid(v),
    ensures
        canonical_key_spec(unpack_spec(canonical_key_spec(v))) == canonical_key_spec(v),
        unpack_spec(canonical_key_spec(v)).turn == Owner::Sente,
{
    let q = canonical_turn_spec(v);
    let mq = mirror_view(q);
    assert(pack_valid(q)) by {
        assert forall|sq: int| 0 <= sq < 20 implies cell_canonical(#[trigger] q.board[sq]) by {
            if v.turn == Owner::Gote {
                assert(cell_canonical(v.board[19 - sq]));
            }
        }
    }
    assert(pack_valid(mq)) by {
        assert forall|sq: int| 0 <= sq < 20 implies cell_canonical(#[trigger] mq.board[sq]) by {
            lemma_mirror_sq(sq);
            assert(cell_canonical(q.board[mirror_sq(sq)]));
        }
    }
    lemma_unpack_pack(q);
    lemma_unpack_pack(mq);
    lemma_canonical_turn_sente(v);
    lemma_canonical_turn_sente(q);
    lemma_canonical_turn_sente(mq);
    lemma_canonical_key_mirror(q);
    lemma_mirror_involution(q);
}

// ---------------------------------------------------------------------------
// The mirror and move generation
// ---------------------------------------------------------------------------

/// A move reflected left-right.
pub open spec fn mirror_move(m: Move) -> Move {
    Move {
        kind: m.kind,
        from: match m.from {
            Some(sq) => Some(mirror_sq(sq as int) as u8),
            None => None,
        },
        to: mirror_sq(m.to as int) as u8,
        capture: m.capture,
        promo: m.promo,
    }
}

/// Making the mirrored move in the mirrored position gives the mirror of the
/// position the move leads to.
pub proof fn lemma_mirror_make(p: PosView, m: Move)
    requires
        p.board.len() == 20,
        m.to < 20,
        m.from matches Some(sq) ==> sq < 20,
    ensures
        make_spec(mirror_view(p), mirror_move(m)) == mirror_view(make_spec(p, m)),
        is_king_capture(mirror_view(p), mirror_move(m)) == is_king_capture(p, m),
{
    let a = make_spec(mirror_view(p), mirror_move(m));
    let b = mirror_view(make_spec(p, m));
    let t = m.to as int;
    lemma_mirror_sq(t);
    match m.from {
        Some(sq) => {
            lemma_mirror_sq(sq as int);
        },
        None => {},
    }
    assert forall|s: int| 0 <= s < 20 implies a.board[s] == b.board[s] by {
        lemma_mirror_sq(s);
    }
    assert(a.board =~= b.board);
}


// ---------------------------------------------------------------------------

pub(crate) proof fn lemma_mirror_coords(s: int)
    requires
        0 <= s < 20,
    ensures
        sq_rank(mirror_sq(s)) == sq_rank(s),
        sq_file(mirror_sq(s)) == 3 - sq_file(s),
        s == sq_rank(s) * 4 + sq_file(s),
        0 <= sq_file(s) < 4,
        0 <= sq_rank(s) < 5,
{
}

/// A ray from the mirrored square, along the mirrored direction, in the
/// mirrored position has as many moves as the ray it mirrors.
#[verifier::rlimit(30)]
proof fn lemma_mirror_ray(
    v: PosView,
    sq: int,
    kind: Kind,
    promo: bool,
    slider: bool,
    dr: int,
    df: int,
    n: int,
)
    requires
        v.board.len() == 20,
        0 <= sq < 20,
        -1 <= df <= 1,
    ensures
        ray_moves(mirror_view(v), mirror_sq(sq), kind, promo, slider, dr, -df, n).len() == ray_moves(
            v,
            sq,
            kind,
            promo,
            slider,
            dr,
            df,
            n,
        ).len(),
    decreases 6 - n,
{
    let m = mirror_view(v);
    lemma_mirror_coords(sq);
    if 1 <= n <= 5 {
        let nr = sq_rank(sq) + n * dr;
        let nf = sq_file(sq) + n * df;
        assert(sq_file(mirror_sq(sq)) + n * (-df) == 3 - nf) by (nonlinear_arith)
            requires
                sq_file(mirror_sq(sq)) == 3 - sq_file(sq),
                nf == sq_file(sq) + n * df,
        ;
        if in_board(nr, nf) {
            let nsq = nr * 4 + nf;
            lemma_mirror_coords(nsq);
            assert(sq_rank(nsq) == nr && sq_file(nsq) == nf);
            assert(nr * 4 + (3 - nf) == mirror_sq(nsq));
            lemma_mirror_sq(nsq);
            assert(m.board[mirror_sq(nsq)] == v.board[nsq]);
            lemma_mirror_ray(v, sq, kind, promo, slider, dr, df, n + 1);
        }
    }
}

/// The directions of a piece, mirrored left-right.
pub open spec fn mirror_dirs(dirs: Seq<(i8, i8)>) -> Seq<(i8, i8)> {
    Seq::new(dirs.len(), |i: int| (dirs[i].0, (-dirs[i].1) as i8))
}

proof fn lemma_mirror_dirs_moves(
    v: PosView,
    sq: int,
    kind: Kind,
    promo: bool,
    slider: bool,
    dirs: Seq<(i8, i8)>,
    n: int,
)
    requires
        v.board.len() == 20,
        0 <= sq < 20,
        0 <= n <= dirs.len(),
        forall|i: int| 0 <= i < dirs.len() ==> -1 <= #[trigger] dirs[i].1 <= 1,
    ensures
        dirs_moves(mirror_view(v), mirror_sq(sq), kind, promo, slider, dirs, n).len() == dirs_moves(
            v,
            sq,
            kind,
            promo,
            slider,
            mirror_dirs(dirs),
            n,
        ).len(),
    decreases n,
{
    if n > 0 {
        lemma_mirror_dirs_moves(v, sq, kind, promo, slider, dirs, n - 1);
        let d = dirs[n - 1];
        lemma_mirror_ray(v, sq, kind, promo, slider, d.0 as int, -d.1 as int, 1);
        assert(mirror_dirs(dirs)[n - 1] == (d.0, (-d.1) as i8));
    }
}

/// Moves along one direction from `sq`.
spec fn ray_len(v: PosView, sq: int, kind: Kind, promo: bool, slider: bool, d: (i8, i8)) -> int {
    ray_moves(v, sq, kind, promo, slider, d.0 as int, d.1 as int, 1).len() as int
}

/// Moves along the first `n` directions of `dirs`, counted.
spec fn sum_rays(v: PosView, sq: int, kind: Kind, promo: bool, slider: bool, dirs: Seq<(i8, i8)>, n: int) -> int
    decreases n,
{
    if n <= 0 {
        0
    } else {
        sum_rays(v, sq, kind, promo, slider, dirs, n - 1) + ray_len(v, sq, kind, promo, slider, dirs[n - 1])
    }
}

proof fn lemma_dirs_sum(v: PosView, sq: int, kind: Kind, promo: bool, slider: bool, dirs: Seq<(i8, i8)>, n: int)
    requires
        0 <= n,
    ensures
        dirs_moves(v, sq, kind, promo, slider, dirs, n).len() == sum_rays(v, sq, kind, promo, slider, dirs, n),
    decreases n,
{
    if n > 0 {
        lemma_dirs_sum(v, sq, kind, promo, slider, dirs, n - 1);
    }
}

/// Mirroring permutes a piece's directions: the counts add up the same.
#[verifier::rlimit(30)]
proof fn lemma_mirror_perm(v: PosView, sq: int, kind: Kind, promo: bool, owner: Owner)
    ensures
        ({
            let (slider, dirs) = movement_spec(kind, promo, owner);
            sum_rays(v, sq, kind, promo, slider, mirror_dirs(dirs), dirs.len() as int) == sum_rays(
                v,
                sq,
                kind,
                promo,
                slider,
                dirs,
                dirs.len() as int,
            )
        }),
{
    let (slider, dirs) = movement_spec(kind, promo, owner);
    let md = mirror_dirs(dirs);
    let f = crate::rules::fwd_spec(owner);
    assert(f == 1 || f == -1);
    reveal_with_fuel(sum_rays, 9);
    match kind {
        Kind::King => {
            assert(md =~= seq![(-1i8, 1i8), (-1i8, 0i8), (-1i8, -1i8), (0i8, 1i8), (0i8, -1i8), (1i8, 1i8), (1i8, 0i8), (1i8, -1i8)]);
        },
        Kind::Gold => if !promo {
            assert(md =~= seq![(f as i8, 1i8), (f as i8, 0i8), (f as i8, -1i8), (0i8, 1i8), (0i8, -1i8), ((-f) as i8, 0i8)]);
        } else {
            assert(md =~= seq![(-1i8, 0i8), (1i8, 0i8), (0i8, 1i8), (0i8, -1i8)]);
        },
        Kind::Silver => if !promo {
            assert(md =~= seq![(f as i8, 1i8), (f as i8, 0i8), (f as i8, -1i8), ((-f) as i8, 1i8), ((-f) as i8, -1i8)]);
        } else {
            assert(md =~= seq![(f as i8, 0i8)]);
        },
        Kind::Bishop => if !promo {
            assert(md =~= seq![(-1i8, 1i8), (-1i8, -1i8), (1i8, 1i8), (1i8, -1i8)]);
        } else {
            assert(md =~= seq![(f as i8, 1i8), (f as i8, 0i8), (f as i8, -1i8), (0i8, 1i8), (0i8, -1i8), ((-f) as i8, 0i8)]);
        },
        Kind::Pawn => if !promo {
            assert(md =~= seq![(f as i8, 0i8)]);
        } else {
            assert(md =~= seq![((2 * f) as i8, 1i8), ((2 * f) as i8, -1i8)]);
        },
    }
}

/// Each piece's directions, mirrored, are the same directions in another order,
/// so they give as many moves.
proof fn lemma_mirror_dirs_same(v: PosView, sq: int, kind: Kind, promo: bool, owner: Owner)
    ensures
        ({
            let (slider, dirs) = movement_spec(kind, promo, owner);
            dirs_moves(v, sq, kind, promo, slider, mirror_dirs(dirs), dirs.len() as int).len() == dirs_moves(
                v,
                sq,
                kind,
                promo,
                slider,
                dirs,
                dirs.len() as int,
            ).len()
        }),
{
    let (slider, dirs) = movement_spec(kind, promo, owner);
    lemma_dirs_sum(v, sq, kind, promo, slider, dirs, dirs.len() as int);
    lemma_dirs_sum(v, sq, kind, promo, slider, mirror_dirs(dirs), dirs.len() as int);
    lemma_mirror_perm(v, sq, kind, promo, owner);
}

/// The piece on a mirrored square of the mirrored position has as many moves
/// as the piece it mirrors.
proof fn lemma_mirror_piece(v: PosView, s: int)
    requires
        v.board.len() == 20,
        0 <= s < 20,
    ensures
        piece_moves(mirror_view(v), s).len() == piece_moves(v, mirror_sq(s)).len(),
{
    let m = mirror_view(v);
    let sq = mirror_sq(s);
    lemma_mirror_sq(s);
    assert(m.board[s] == v.board[sq]);
    assert(mirror_sq(sq) == s);
    match v.board[sq] {
        Some(c) => {
            if c.2 == v.turn {
                let (slider, dirs) = movement_spec(c.0, c.1, c.2);
                assert forall|i: int| 0 <= i < dirs.len() implies -1 <= #[trigger] dirs[i].1 <= 1 by {}
                lemma_mirror_dirs_moves(v, sq, c.0, c.1, slider, dirs, dirs.len() as int);
                lemma_mirror_dirs_same(v, sq, c.0, c.1, c.2);
            }
        },
        None => {},
    }
}

/// The mirrored position has as many board moves as the position.
#[verifier::rlimit(30)]
proof fn lemma_mirror_squares(v: PosView)
    requires
        v.board.len() == 20,
    ensures
        squares_moves(mirror_view(v), 20).len() == squares_moves(v, 20).len(),
{
    let m = mirror_view(v);
    assert forall|s: int| 0 <= s < 20 implies #[trigger] piece_moves(m, s).len() == piece_moves(v, mirror_sq(s)).len() by {
        lemma_mirror_piece(v, s);
    }
    reveal_with_fuel(squares_moves, 21);
    assert(piece_moves(m, 0).len() == piece_moves(v, 3).len());
    assert(piece_moves(m, 1).len() == piece_moves(v, 2).len());
    assert(piece_moves(m, 2).len() == piece_moves(v, 1).len());
    assert(piece_moves(m, 3).len() == piece_moves(v, 0).len());
    assert(piece_moves(m, 4).len() == piece_moves(v, 7).len());
    assert(piece_moves(m, 5).len() == piece_moves(v, 6).len());
    assert(piece_moves(m, 6).len() == piece_moves(v, 5).len());
    assert(piece_moves(m, 7).len() == piece_moves(v, 4).len());
    assert(piece_moves(m, 8).len() == piece_moves(v, 11).len());
    assert(piece_moves(m, 9).len() == piece_moves(v, 10).len());
    assert(piece_moves(m, 10).len() == piece_moves(v, 9).len());
    assert(piece_moves(m, 11).len() == piece_moves(v, 8).len());
    assert(piece_moves(m, 12).len() == piece_moves(v, 15).len());
    assert(piece_moves(m, 13).len() == piece_moves(v, 14).len());
    assert(piece_moves(m, 14).len() == piece_moves(v, 13).len());
    assert(piece_moves(m, 15).len() == piece_moves(v, 12).len());
    assert(piece_moves(m, 16).len() == piece_moves(v, 19).len());
    assert(piece_moves(m, 17).len() == piece_moves(v, 18).len());
    assert(piece_moves(m, 18).len() == piece_moves(v, 17).len());
    assert(piece_moves(m, 19).len() == piece_moves(v, 16).len());
}

/// Empty squares among the first `n`.
spec fn empties(b: Seq<Cell>, n: int) -> int
    decreases n,
{
    if n <= 0 {
        0
    } else {
        empties(b, n - 1) + if b[n - 1] is Some {
            0int
        } else {
            1int
        }
    }
}

proof fn lemma_drops_empties(v: PosView, kind: Kind, n: int)
    requires
        0 <= n,
    ensures
        square_drops(v, kind, n).len() == 2 * empties(v.board, n),
    decreases n,
{
    if n > 0 {
        lemma_drops_empties(v, kind, n - 1);
    }
}

proof fn lemma_mirror_empties(v: PosView, r: int)
    requires
        v.board.len() == 20,
        0 <= r <= 5,
    ensures
        empties(mirror_view(v).board, 4 * r) == empties(v.board, 4 * r),
    decreases r,
{
    if r > 0 {
        let m = mirror_view(v);
        lemma_mirror_empties(v, r - 1);
        let s = 4 * (r - 1);
        reveal_with_fuel(empties, 5);
        assert(m.board[s] == v.board[s + 3]);
        assert(m.board[s + 1] == v.board[s + 2]);
        assert(m.board[s + 2] == v.board[s + 1]);
        assert(m.board[s + 3] == v.board[s]);
        assert(4 * r == s + 4);
    }
}

/// The mirrored position has as many drops of each kind as the position.
proof fn lemma_mirror_drops(v: PosView, kind: Kind)
    requires
        v.board.len() == 20,
    ensures
        square_drops(mirror_view(v), kind, 20).len() == square_drops(v, kind, 20).len(),
{
    lemma_drops_empties(v, kind, 20);
    lemma_drops_empties(mirror_view(v), kind, 20);
    lemma_mirror_empties(v, 5);
}

/// A position and its left-right mirror image have the same number of moves.
#[verifier::rlimit(30)]
pub proof fn lemma_mirror_moves_len(v: PosView)
    requires
        v.board.len() == 20,
    ensures
        moves_spec(mirror_view(v)).len() == moves_spec(v).len(),
{
    let m = mirror_view(v);
    lemma_mirror_squares(v);
    lemma_mirror_drops(v, Kind::Gold);
    lemma_mirror_drops(v, Kind::Silver);
    lemma_mirror_drops(v, Kind::Bishop);
    lemma_mirror_drops(v, Kind::Pawn);
    reveal_with_fuel(hand_drops, 5);
    assert(crate::rules::slot_kind(0) == Kind::Gold);
    assert(crate::rules::slot_kind(1) == Kind::Silver);
    assert(crate::rules::slot_kind(2) == Kind::Bishop);
    assert(crate::rules::slot_kind(3) == Kind::Pawn);
}

// ---------------------------------------------------------------------------
// The mirror and perft
// ---------------------------------------------------------------------------

proof fn lemma_perft_sum_concat(p: PosView, a: Seq<Move>, b: Seq<Move>, d: nat)
    ensures
        perft_sum(p, a + b, d) == perft_sum(p, a, d) + perft_sum(p, b, d),
    decreases b.len(),
{
    if b.len() > 0 && d > 0 {
        lemma_perft_sum_concat(p, a, b.drop_last(), d);
        assert((a + b).drop_last() =~= a + b.drop_last());
        assert((a + b).last() == b.last());
    } else if b.len() == 0 {
        assert(a + b =~= a);
    }
}

/// Perft counts of mirrored positions agree at depth `d`.
pub open spec fn mirror_perft_at(d: nat) -> bool {
    forall|x: PosView| x.board.len() == 20 ==> #[trigger] perft_spec(mirror_view(x), d) == perft_spec(x, d)
}

/// One mirrored move counts as many perft leaves as the move it mirrors.
proof fn lemma_mirror_term(v: PosView, mv: Move, d: nat)
    requires
        v.board.len() == 20,
        mv.to < 20,
        mv.from matches Some(sq) ==> sq < 20,
        d > 0,
        mirror_perft_at((d - 1) as nat),
    ensures
        perft_sum(mirror_view(v), seq![mirror_move(mv)], d) == perft_sum(v, seq![mv], d),
{
    let m = mirror_view(v);
    let mm = mirror_move(mv);
    lemma_mirror_make(v, mv);
    let child = make_spec(v, mv);
    assert(child.board.len() == 20);
    assert(perft_spec(mirror_view(child), (d - 1) as nat) == perft_spec(child, (d - 1) as nat));
    assert(seq![mv].drop_last() =~= Seq::<Move>::empty());
    assert(seq![mm].drop_last() =~= Seq::<Move>::empty());
    assert(perft_sum(v, seq![mv], d) == perft_sum(v, Seq::<Move>::empty(), d) + if is_king_capture(v, mv) {
        1
    } else {
        perft_spec(child, (d - 1) as nat)
    });
    assert(perft_sum(m, seq![mm], d) == perft_sum(m, Seq::<Move>::empty(), d) + if is_king_capture(m, mm) {
        1
    } else {
        perft_spec(make_spec(m, mm), (d - 1) as nat)
    });
}

/// A ray from the mirrored square along the mirrored direction in the mirrored
/// position counts as many perft leaves as the ray it mirrors.
#[verifier::rlimit(30)]
proof fn lemma_mirror_ray_perft(
    v: PosView,
    sq: int,
    kind: Kind,
    promo: bool,
    slider: bool,
    dr: int,
    df: int,
    n: int,
    d: nat,
)
    requires
        v.board.len() == 20,
        0 <= sq < 20,
        -1 <= df <= 1,
        d > 0,
        mirror_perft_at((d - 1) as nat),
    ensures
        perft_sum(mirror_view(v), ray_moves(mirror_view(v), mirror_sq(sq), kind, promo, slider, dr, -df, n), d)
            == perft_sum(v, ray_moves(v, sq, kind, promo, slider, dr, df, n), d),
    decreases 6 - n,
{
    let m = mirror_view(v);
    lemma_mirror_coords(sq);
    lemma_mirror_sq(sq);
    if 1 <= n <= 5 {
        let nr = sq_rank(sq) + n * dr;
        let nf = sq_file(sq) + n * df;
        assert(sq_file(mirror_sq(sq)) + n * (-df) == 3 - nf) by (nonlinear_arith)
            requires
                sq_file(mirror_sq(sq)) == 3 - sq_file(sq),
                nf == sq_file(sq) + n * df,
        ;
        if in_board(nr, nf) {
            let nsq = nr * 4 + nf;
            lemma_mirror_coords(nsq);
            assert(sq_rank(nsq) == nr && sq_file(nsq) == nf);
            assert(nr * 4 + (3 - nf) == mirror_sq(nsq));
            lemma_mirror_sq(nsq);
            assert(m.board[mirror_sq(nsq)] == v.board[nsq]);
            let ray = ray_moves(v, sq, kind, promo, slider, dr, df, n);
            let mray = ray_moves(m, mirror_sq(sq), kind, promo, slider, dr, -df, n);
            match v.board[nsq] {
                Some(c) if c.2 == v.turn => {
                    assert(ray =~= Seq::<Move>::empty());
                    assert(mray =~= Seq::<Move>::empty());
                },
                _ => {
                    let capture = v.board[nsq] is Some;
                    let mv = Move { kind, from: Some(sq as u8), to: nsq as u8, capture, promo: result_face(kind, promo, capture) };
                    assert(mray[0] == mirror_move(mv));
                    assert(ray[0] == mv);
                    lemma_mirror_term(v, mv, d);
                    lemma_perft_sum_concat(v, seq![mv], ray.skip(1), d);
                    lemma_perft_sum_concat(m, seq![mirror_move(mv)], mray.skip(1), d);
                    assert(seq![mv] + ray.skip(1) =~= ray);
                    assert(seq![mirror_move(mv)] + mray.skip(1) =~= mray);
                    assert(seq![mv].drop_last() =~= Seq::<Move>::empty());
                    assert(seq![mirror_move(mv)].drop_last() =~= Seq::<Move>::empty());
                    if capture || !slider {
                        assert(ray.skip(1) =~= Seq::<Move>::empty());
                        assert(mray.skip(1) =~= Seq::<Move>::empty());
                    } else {
                        lemma_mirror_ray_perft(v, sq, kind, promo, slider, dr, df, n + 1, d);
                        assert(ray.skip(1) =~= ray_moves(v, sq, kind, promo, slider, dr, df, n + 1));
                        assert(mray.skip(1) =~= ray_moves(m, mirror_sq(sq), kind, promo, slider, dr, -df, n + 1));
                    }
                    assert(perft_sum(v, ray.skip(1), d) == perft_sum(m, mray.skip(1), d));
                },
            }
            assert(perft_sum(m, mray, d) == perft_sum(v, ray, d));
        } else {
            assert(!in_board(nr, 3 - nf));
        }
    }
}

proof fn lemma_mirror_dirs_perft(
    v: PosView,
    sq: int,
    kind: Kind,
    promo: bool,
    slider: bool,
    dirs: Seq<(i8, i8)>,
    n: int,
    d: nat,
)
    requires
        v.board.len() == 20,
        0 <= sq < 20,
        0 <= n <= dirs.len(),
        forall|i: int| 0 <= i < dirs.len() ==> -1 <= #[trigger] dirs[i].1 <= 1,
        d > 0,
        mirror_perft_at((d - 1) as nat),
    ensures
        perft_sum(mirror_view(v), dirs_moves(mirror_view(v), mirror_sq(sq), kind, promo, slider, dirs, n), d)
            == perft_sum(v, dirs_moves(v, sq, kind, promo, slider, mirror_dirs(dirs), n), d),
    decreases n,
{
    if n > 0 {
        let m = mirror_view(v);
        lemma_mirror_dirs_perft(v, sq, kind, promo, slider, dirs, n - 1, d);
        let dd = dirs[n - 1];
        lemma_mirror_ray_perft(v, sq, kind, promo, slider, dd.0 as int, -dd.1 as int, 1, d);
        assert(mirror_dirs(dirs)[n - 1] == (dd.0, (-dd.1) as i8));
        lemma_perft_sum_concat(
            m,
            dirs_moves(m, mirror_sq(sq), kind, promo, slider, dirs, n - 1),
            ray_moves(m, mirror_sq(sq), kind, promo, slider, dd.0 as int, dd.1 as int, 1),
            d,
        );
        lemma_perft_sum_concat(
            v,
            dirs_moves(v, sq, kind, promo, slider, mirror_dirs(dirs), n - 1),
            ray_moves(v, sq, kind, promo, slider, dd.0 as int, -dd.1 as int, 1),
            d,
        );
    }
}

/// Perft leaves along the first `n` directions, direction by direction.
spec fn sum_ray_perft(v: PosView, sq: int, kind: Kind, promo: bool, slider: bool, dirs: Seq<(i8, i8)>, n: int, d: nat) -> int
    decreases n,
{
    if n <= 0 {
        0
    } else {
        sum_ray_perft(v, sq, kind, promo, slider, dirs, n - 1, d) + perft_sum(
            v,
            ray_moves(v, sq, kind, promo, slider, dirs[n - 1].0 as int, dirs[n - 1].1 as int, 1),
            d,
        )
    }
}

proof fn lemma_dirs_perft_sum(v: PosView, sq: int, kind: Kind, promo: bool, slider: bool, dirs: Seq<(i8, i8)>, n: int, d: nat)
    requires
        0 <= n,
    ensures
        perft_sum(v, dirs_moves(v, sq, kind, promo, slider, dirs, n), d) == sum_ray_perft(v, sq, kind, promo, slider, dirs, n, d),
    decreases n,
{
    if n > 0 {
        lemma_dirs_perft_sum(v, sq, kind, promo, slider, dirs, n - 1, d);
        lemma_perft_sum_concat(
            v,
            dirs_moves(v, sq, kind, promo, slider, dirs, n - 1),
            ray_moves(v, sq, kind, promo, slider, dirs[n - 1].0 as int, dirs[n - 1].1 as int, 1),
            d,
        );
    }
}

/// Mirroring permutes a piece's directions: the perft leaves add up the same.
#[verifier::rlimit(30)]
proof fn lemma_mirror_perm_perft(v: PosView, sq: int, kind: Kind, promo: bool, owner: Owner, d: nat)
    ensures
        ({
            let (slider, dirs) = movement_spec(kind, promo, owner);
            sum_ray_perft(v, sq, kind, promo, slider, mirror_dirs(dirs), dirs.len() as int, d) == sum_ray_perft(
                v,
                sq,
                kind,
                promo,
                slider,
                dirs,
                dirs.len() as int,
                d,
            )
        }),
{
    let (slider, dirs) = movement_spec(kind, promo, owner);
    let md = mirror_dirs(dirs);
    let f = crate::rules::fwd_spec(owner);
    assert(f == 1 || f == -1);
    reveal_with_fuel(sum_ray_perft, 9);
    match kind {
        Kind::King => {
            assert(md =~= seq![(-1i8, 1i8), (-1i8, 0i8), (-1i8, -1i8), (0i8, 1i8), (0i8, -1i8), (1i8, 1i8), (1i8, 0i8), (1i8, -1i8)]);
        },
        Kind::Gold => if !promo {
            assert(md =~= seq![(f as i8, 1i8), (f as i8, 0i8), (f as i8, -1i8), (0i8, 1i8), (0i8, -1i8), ((-f) as i8, 0i8)]);
        } else {
            assert(md =~= seq![(-1i8, 0i8), (1i8, 0i8), (0i8, 1i8), (0i8, -1i8)]);
        },
        Kind::Silver => if !promo {
            assert(md =~= seq![(f as i8, 1i8), (f as i8, 0i8), (f as i8, -1i8), ((-f) as i8, 1i8), ((-f) as i8, -1i8)]);
        } else {
            assert(md =~= seq![(f as i8, 0i8)]);
        },
        Kind::Bishop => if !promo {
            assert(md =~= seq![(-1i8, 1i8), (-1i8, -1i8), (1i8, 1i8), (1i8, -1i8)]);
        } else {
            assert(md =~= seq![(f as i8, 1i8), (f as i8, 0i8), (f as i8, -1i8), (0i8, 1i8), (0i8, -1i8), ((-f) as i8, 0i8)]);
        },
        Kind::Pawn => if !promo {
            assert(md =~= seq![(f as i8, 0i8)]);
        } else {
            assert(md =~= seq![((2 * f) as i8, 1i8), ((2 * f) as i8, -1i8)]);
        },
    }
}

/// The piece on a mirrored square of the mirrored position counts as many
/// perft leaves as the piece it mirrors.
proof fn lemma_mirror_piece_perft(v: PosView, s: int, d: nat)
    requires
        v.board.len() == 20,
        0 <= s < 20,
        d > 0,
        mirror_perft_at((d - 1) as nat),
    ensures
        perft_sum(mirror_view(v), piece_moves(mirror_view(v), s), d) == perft_sum(v, piece_moves(v, mirror_sq(s)), d),
{
    let m = mirror_view(v);
    let sq = mirror_sq(s);
    lemma_mirror_sq(s);
    assert(m.board[s] == v.board[sq]);
    assert(mirror_sq(sq) == s);
    match v.board[sq] {
        Some(c) => {
            if c.2 == v.turn {
                let (slider, dirs) = movement_spec(c.0, c.1, c.2);
                crate::rules::lemma_movement_dirs(c.0, c.1, c.2);
                assert forall|i: int| 0 <= i < dirs.len() implies -1 <= #[trigger] dirs[i].1 <= 1 by {}
                lemma_mirror_dirs_perft(v, sq, c.0, c.1, slider, dirs, dirs.len() as int, d);
                lemma_dirs_perft_sum(v, sq, c.0, c.1, slider, dirs, dirs.len() as int, d);
                lemma_dirs_perft_sum(v, sq, c.0, c.1, slider, mirror_dirs(dirs), dirs.len() as int, d);
                lemma_mirror_perm_perft(v, sq, c.0, c.1, c.2, d);
            }
        },
        None => {},
    }
}

/// Perft leaves of the pieces on squares `0..n`, square by square.
spec fn sq_perft_sum(v: PosView, n: int, d: nat) -> int
    decreases n,
{
    if n <= 0 {
        0
    } else {
        sq_perft_sum(v, n - 1, d) + perft_sum(v, piece_moves(v, n - 1), d)
    }
}

proof fn lemma_squares_perft_sum(v: PosView, n: int, d: nat)
    requires
        0 <= n,
    ensures
        perft_sum(v, squares_moves(v, n), d) == sq_perft_sum(v, n, d),
    decreases n,
{
    if n > 0 {
        lemma_squares_perft_sum(v, n - 1, d);
        lemma_perft_sum_concat(v, squares_moves(v, n - 1), piece_moves(v, n - 1), d);
    }
}

#[verifier::rlimit(30)]
proof fn lemma_mirror_squares_perft(v: PosView, d: nat)
    requires
        v.board.len() == 20,
        d > 0,
        mirror_perft_at((d - 1) as nat),
    ensures
        perft_sum(mirror_view(v), squares_moves(mirror_view(v), 20), d) == perft_sum(v, squares_moves(v, 20), d),
{
    let m = mirror_view(v);
    lemma_squares_perft_sum(v, 20, d);
    lemma_squares_perft_sum(m, 20, d);
    assert forall|s: int| 0 <= s < 20 implies #[trigger] perft_sum(m, piece_moves(m, s), d) == perft_sum(
        v,
        piece_moves(v, mirror_sq(s)),
        d,
    ) by {
        lemma_mirror_piece_perft(v, s, d);
    }
    reveal_with_fuel(sq_perft_sum, 21);
    assert(perft_sum(m, piece_moves(m, 0), d) == perft_sum(v, piece_moves(v, 3), d));
    assert(perft_sum(m, piece_moves(m, 1), d) == perft_sum(v, piece_moves(v, 2), d));
    assert(perft_sum(m, piece_moves(m, 2), d) == perft_sum(v, piece_moves(v, 1), d));
    assert(perft_sum(m, piece_moves(m, 3), d) == perft_sum(v, piece_moves(v, 0), d));
    assert(perft_sum(m, piece_moves(m, 4), d) == perft_sum(v, piece_moves(v, 7), d));
    assert(perft_sum(m, piece_moves(m, 5), d) == perft_sum(v, piece_moves(v, 6), d));
    assert(perft_sum(m, piece_moves(m, 6), d) == perft_sum(v, piece_moves(v, 5), d));
    assert(perft_sum(m, piece_moves(m, 7), d) == perft_sum(v, piece_moves(v, 4), d));
    assert(perft_sum(m, piece_moves(m, 8), d) == perft_sum(v, piece_moves(v, 11), d));
    assert(perft_sum(m, piece_moves(m, 9), d) == perft_sum(v, piece_moves(v, 10), d));
    assert(perft_sum(m, piece_moves(m, 10), d) == perft_sum(v, piece_moves(v, 9), d));
    assert(perft_sum(m, piece_moves(m, 11), d) == perft_sum(v, piece_moves(v, 8), d));
    assert(perft_sum(m, piece_moves(m, 12), d) == perft_sum(v, piece_moves(v, 15), d));
    assert(perft_sum(m, piece_moves(m, 13), d) == perft_sum(v, piece_moves(v, 14), d));
    assert(perft_sum(m, piece_moves(m, 14), d) == perft_sum(v, piece_moves(v, 13), d));
    assert(perft_sum(m, piece_moves(m, 15), d) == perft_sum(v, piece_moves(v, 12), d));
    assert(perft_sum(m, piece_moves(m, 16), d) == perft_sum(v, piece_moves(v, 19), d));
    assert(perft_sum(m, piece_moves(m, 17), d) == perft_sum(v, piece_moves(v, 18), d));
    assert(perft_sum(m, piece_moves(m, 18), d) == perft_sum(v, piece_moves(v, 17), d));
    assert(perft_sum(m, piece_moves(m, 19), d) == perft_sum(v, piece_moves(v, 16), d));
}

/// The drops of `kind` on square `s`: none on an occupied square, else both faces.
spec fn drop_block(v: PosView, kind: Kind, s: int) -> Seq<Move> {
    if v.board[s] is Some {
        seq![]
    } else {
        seq![
            Move { kind, from: None, to: s as u8, capture: false, promo: false },
            Move { kind, from: None, to: s as u8, capture: false, promo: true },
        ]
    }
}

spec fn drop_perft(v: PosView, kind: Kind, n: int, d: nat) -> int
    decreases n,
{
    if n <= 0 {
        0
    } else {
        drop_perft(v, kind, n - 1, d) + perft_sum(v, drop_block(v, kind, n - 1), d)
    }
}

proof fn lemma_drops_perft_sum(v: PosView, kind: Kind, n: int, d: nat)
    requires
        0 <= n,
    ensures
        perft_sum(v, square_drops(v, kind, n), d) == drop_perft(v, kind, n, d),
    decreases n,
{
    if n > 0 {
        lemma_drops_perft_sum(v, kind, n - 1, d);
        assert(square_drops(v, kind, n) == square_drops(v, kind, n - 1) + drop_block(v, kind, n - 1));
        lemma_perft_sum_concat(v, square_drops(v, kind, n - 1), drop_block(v, kind, n - 1), d);
    }
}

proof fn lemma_mirror_drop_block(v: PosView, kind: Kind, s: int, d: nat)
    requires
        v.board.len() == 20,
        0 <= s < 20,
        d > 0,
        mirror_perft_at((d - 1) as nat),
    ensures
        perft_sum(mirror_view(v), drop_block(mirror_view(v), kind, s), d) == perft_sum(
            v,
            drop_block(v, kind, mirror_sq(s)),
            d,
        ),
{
    let m = mirror_view(v);
    let ms = mirror_sq(s);
    lemma_mirror_sq(s);
    assert(m.board[s] == v.board[ms]);
    if v.board[ms] is None {
        let a = Move { kind, from: None, to: ms as u8, capture: false, promo: false };
        let b = Move { kind, from: None, to: ms as u8, capture: false, promo: true };
        assert(mirror_move(a) == (Move { kind, from: None, to: s as u8, capture: false, promo: false }));
        assert(mirror_move(b) == (Move { kind, from: None, to: s as u8, capture: false, promo: true }));
        lemma_mirror_term(v, a, d);
        lemma_mirror_term(v, b, d);
        lemma_perft_sum_concat(v, seq![a], seq![b], d);
        lemma_perft_sum_concat(m, seq![mirror_move(a)], seq![mirror_move(b)], d);
        assert(seq![a] + seq![b] =~= drop_block(v, kind, ms));
        assert(seq![mirror_move(a)] + seq![mirror_move(b)] =~= drop_block(m, kind, s));
    }
}

proof fn lemma_mirror_drops_rows(v: PosView, kind: Kind, r: int, d: nat)
    requires
        v.board.len() == 20,
        0 <= r <= 5,
        d > 0,
        mirror_perft_at((d - 1) as nat),
    ensures
        drop_perft(mirror_view(v), kind, 4 * r, d) == drop_perft(v, kind, 4 * r, d),
    decreases r,
{
    if r > 0 {
        let m = mirror_view(v);
        lemma_mirror_drops_rows(v, kind, r - 1, d);
        let s = 4 * (r - 1);
        reveal_with_fuel(drop_perft, 5);
        lemma_mirror_drop_block(v, kind, s, d);
        lemma_mirror_drop_block(v, kind, s + 1, d);
        lemma_mirror_drop_block(v, kind, s + 2, d);
        lemma_mirror_drop_block(v, kind, s + 3, d);
        assert(mirror_sq(s) == s + 3 && mirror_sq(s + 1) == s + 2 && mirror_sq(s + 2) == s + 1 && mirror_sq(s + 3) == s);
        assert(4 * r == s + 4);
    }
}

proof fn lemma_mirror_hand_perft(v: PosView, n: int, d: nat)
    requires
        v.board.len() == 20,
        0 <= n <= 4,
        d > 0,
        mirror_perft_at((d - 1) as nat),
    ensures
        perft_sum(mirror_view(v), hand_drops(mirror_view(v), n), d) == perft_sum(v, hand_drops(v, n), d),
    decreases n,
{
    if n > 0 {
        let m = mirror_view(v);
        lemma_mirror_hand_perft(v, n - 1, d);
        let k = slot_kind(n - 1);
        assert(hand_of(m, m.turn) == hand_of(v, v.turn));
        lemma_mirror_drops_rows(v, k, 5, d);
        lemma_drops_perft_sum(v, k, 20, d);
        lemma_drops_perft_sum(m, k, 20, d);
        let bm = if hand_of(m, m.turn)[n - 1] == 0 { seq![] } else { square_drops(m, k, 20) };
        let bv = if hand_of(v, v.turn)[n - 1] == 0 { seq![] } else { square_drops(v, k, 20) };
        assert(hand_drops(m, n) == hand_drops(m, n - 1) + bm);
        assert(hand_drops(v, n) == hand_drops(v, n - 1) + bv);
        lemma_perft_sum_concat(m, hand_drops(m, n - 1), bm, d);
        lemma_perft_sum_concat(v, hand_drops(v, n - 1), bv, d);
    }
}

proof fn lemma_mirror_perft_step(v: PosView, d: nat)
    requires
        v.board.len() == 20,
        d > 0,
        mirror_perft_at((d - 1) as nat),
    ensures
        perft_spec(mirror_view(v), d) == perft_spec(v, d),
{
    let m = mirror_view(v);
    lemma_mirror_squares_perft(v, d);
    lemma_mirror_hand_perft(v, 4, d);
    lemma_perft_sum_concat(m, squares_moves(m, 20), hand_drops(m, 4), d);
    lemma_perft_sum_concat(v, squares_moves(v, 20), hand_drops(v, 4), d);
}

proof fn lemma_mirror_perft_all(d: nat)
    ensures
        mirror_perft_at(d),
    decreases d,
{
    if d > 0 {
        lemma_mirror_perft_all((d - 1) as nat);
        assert forall|x: PosView| x.board.len() == 20 implies #[trigger] perft_spec(mirror_view(x), d) == perft_spec(
            x,
            d,
        ) by {
            lemma_mirror_perft_step(x, d);
        }
    }
}

/// A position and its left-right mirror image have the same perft count at
/// every depth.
pub proof fn lemma_mirror_perft(v: PosView, d: nat)
    requires
        v.board.len() == 20,
    ensures
        perft_spec(mirror_view(v), d) == perft_spec(v, d),
{
    lemma_mirror_perft_all(d);
}

// ---------------------------------------------------------------------------
// The colour-swapping rotation and move generation
// ---------------------------------------------------------------------------

proof fn lemma_rot_coords(s: int)
    requires
        0 <= s < 20,
    ensures
        sq_rank(19 - s) == 4 - sq_rank(s),
        sq_file(19 - s) == 3 - sq_file(s),
        s == sq_rank(s) * 4 + sq_file(s),
        0 <= sq_file(s) < 4,
        0 <= sq_rank(s) < 5,
{
}

/// A ray of a Gote piece, seen from Sente's side: the rotated ray along the
/// opposite direction has as many moves.
proof fn lemma_rot_ray(v: PosView, sq: int, kind: Kind, promo: bool, slider: bool, dr: int, df: int, n: int)
    requires
        v.board.len() == 20,
        v.turn == Owner::Gote,
        0 <= sq < 20,
    ensures
        ray_moves(rotate_view(v), 19 - sq, kind, promo, slider, -dr, -df, n).len() == ray_moves(
            v,
            sq,
            kind,
            promo,
            slider,
            dr,
            df,
            n,
        ).len(),
    decreases 6 - n,
{
    let r = rotate_view(v);
    lemma_rot_coords(sq);
    if 1 <= n <= 5 {
        let nr = sq_rank(sq) + n * dr;
        let nf = sq_file(sq) + n * df;
        assert(sq_rank(19 - sq) + n * (-dr) == 4 - nr && sq_file(19 - sq) + n * (-df) == 3 - nf) by (nonlinear_arith)
            requires
                sq_rank(19 - sq) == 4 - sq_rank(sq),
                sq_file(19 - sq) == 3 - sq_file(sq),
                nr == sq_rank(sq) + n * dr,
                nf == sq_file(sq) + n * df,
        ;
        if in_board(nr, nf) {
            let nsq = nr * 4 + nf;
            lemma_rot_coords(nsq);
            assert(sq_rank(nsq) == nr && sq_file(nsq) == nf);
            assert((4 - nr) * 4 + (3 - nf) == 19 - nsq);
            assert(r.board[19 - nsq] == flip_cell(v.board[nsq]));
            lemma_rot_ray(v, sq, kind, promo, slider, dr, df, n + 1);
        }
    }
}

/// A piece's directions seen from the other side.
pub open spec fn rot_dirs(dirs: Seq<(i8, i8)>) -> Seq<(i8, i8)> {
    Seq::new(dirs.len(), |i: int| ((-dirs[i].0) as i8, (-dirs[i].1) as i8))
}

proof fn lemma_rot_dirs_moves(
    v: PosView,
    sq: int,
    kind: Kind,
    promo: bool,
    slider: bool,
    dirs: Seq<(i8, i8)>,
    n: int,
)
    requires
        v.board.len() == 20,
        v.turn == Owner::Gote,
        0 <= sq < 20,
        0 <= n <= dirs.len(),
        forall|i: int| 0 <= i < dirs.len() ==> -2 <= #[trigger] dirs[i].0 <= 2 && -1 <= dirs[i].1 <= 1,
    ensures
        dirs_moves(rotate_view(v), 19 - sq, kind, promo, slider, rot_dirs(dirs), n).len() == dirs_moves(
            v,
            sq,
            kind,
            promo,
            slider,
            dirs,
            n,
        ).len(),
    decreases n,
{
    if n > 0 {
        lemma_rot_dirs_moves(v, sq, kind, promo, slider, dirs, n - 1);
        let d = dirs[n - 1];
        lemma_rot_ray(v, sq, kind, promo, slider, d.0 as int, d.1 as int, 1);
        assert(rot_dirs(dirs)[n - 1] == ((-d.0) as i8, (-d.1) as i8));
    }
}

/// Turned to the other side, a Gote piece's directions are the same kind's
/// Sente directions in another order.
#[verifier::rlimit(30)]
proof fn lemma_rot_perm(v: PosView, sq: int, kind: Kind, promo: bool)
    ensures
        ({
            let (slider, dirs) = movement_spec(kind, promo, Owner::Gote);
            let (slider2, dirs2) = movement_spec(kind, promo, Owner::Sente);
            &&& slider == slider2
            &&& sum_rays(v, sq, kind, promo, slider, rot_dirs(dirs), dirs.len() as int) == sum_rays(
                v,
                sq,
                kind,
                promo,
                slider,
                dirs2,
                dirs2.len() as int,
            )
        }),
{
    let (slider, dirs) = movement_spec(kind, promo, Owner::Gote);
    let rd = rot_dirs(dirs);
    reveal_with_fuel(sum_rays, 9);
    match kind {
        Kind::King => {
            assert(rd =~= seq![(1i8, 1i8), (1i8, 0i8), (1i8, -1i8), (0i8, 1i8), (0i8, -1i8), (-1i8, 1i8), (-1i8, 0i8), (-1i8, -1i8)]);
        },
        Kind::Gold => if !promo {
            assert(rd =~= seq![(-1i8, 1i8), (-1i8, 0i8), (-1i8, -1i8), (0i8, 1i8), (0i8, -1i8), (1i8, 0i8)]);
        } else {
            assert(rd =~= seq![(1i8, 0i8), (-1i8, 0i8), (0i8, 1i8), (0i8, -1i8)]);
        },
        Kind::Silver => if !promo {
            assert(rd =~= seq![(-1i8, 1i8), (-1i8, 0i8), (-1i8, -1i8), (1i8, 1i8), (1i8, -1i8)]);
        } else {
            assert(rd =~= seq![(-1i8, 0i8)]);
        },
        Kind::Bishop => if !promo {
            assert(rd =~= seq![(1i8, 1i8), (1i8, -1i8), (-1i8, 1i8), (-1i8, -1i8)]);
        } else {
            assert(rd =~= seq![(-1i8, 1i8), (-1i8, 0i8), (-1i8, -1i8), (0i8, 1i8), (0i8, -1i8), (1i8, 0i8)]);
        },
        Kind::Pawn => if !promo {
            assert(rd =~= seq![(-1i8, 0i8)]);
        } else {
            assert(rd =~= seq![(-2i8, 1i8), (-2i8, -1i8)]);
        },
    }
}

/// The piece on the rotated square has as many moves as the piece it came from.
proof fn lemma_rot_piece(v: PosView, s: int)
    requires
        v.board.len() == 20,
        v.turn == Owner::Gote,
        0 <= s < 20,
    ensures
        piece_moves(rotate_view(v), 19 - s).len() == piece_moves(v, s).len(),
{
    let r = rotate_view(v);
    assert(r.board[19 - s] == flip_cell(v.board[s]));
    match v.board[s] {
        Some(c) => {
            if c.2 == Owner::Gote {
                let (slider, dirs) = movement_spec(c.0, c.1, Owner::Gote);
                let (slider2, dirs2) = movement_spec(c.0, c.1, Owner::Sente);
                crate::rules::lemma_movement_dirs(c.0, c.1, Owner::Gote);
                assert forall|i: int| 0 <= i < dirs.len() implies -2 <= #[trigger] dirs[i].0 <= 2 && -1 <= dirs[i].1
                    <= 1 by {}
                lemma_rot_dirs_moves(v, s, c.0, c.1, slider, dirs, dirs.len() as int);
                lemma_rot_perm(r, 19 - s, c.0, c.1);
                lemma_dirs_sum(r, 19 - s, c.0, c.1, slider, rot_dirs(dirs), dirs.len() as int);
                lemma_dirs_sum(r, 19 - s, c.0, c.1, slider, dirs2, dirs2.len() as int);
            }
        },
        None => {},
    }
}

#[verifier::rlimit(30)]
proof fn lemma_rot_squares(v: PosView)
    requires
        v.board.len() == 20,
        v.turn == Owner::Gote,
    ensures
        squares_moves(rotate_view(v), 20).len() == squares_moves(v, 20).len(),
{
    let r = rotate_view(v);
    assert forall|t: int| 0 <= t < 20 implies #[trigger] piece_moves(r, t).len() == piece_moves(v, 19 - t).len() by {
        lemma_rot_piece(v, 19 - t);
    }
    reveal_with_fuel(squares_moves, 21);
    assert(piece_moves(r, 19).len() == piece_moves(v, 0).len());
    assert(piece_moves(r, 18).len() == piece_moves(v, 1).len());
    assert(piece_moves(r, 17).len() == piece_moves(v, 2).len());
    assert(piece_moves(r, 16).len() == piece_moves(v, 3).len());
    assert(piece_moves(r, 15).len() == piece_moves(v, 4).len());
    assert(piece_moves(r, 14).len() == piece_moves(v, 5).len());
    assert(piece_moves(r, 13).len() == piece_moves(v, 6).len());
    assert(piece_moves(r, 12).len() == piece_moves(v, 7).len());
    assert(piece_moves(r, 11).len() == piece_moves(v, 8).len());
    assert(piece_moves(r, 10).len() == piece_moves(v, 9).len());
    assert(piece_moves(r, 9).len() == piece_moves(v, 10).len());
    assert(piece_moves(r, 8).len() == piece_moves(v, 11).len());
    assert(piece_moves(r, 7).len() == piece_moves(v, 12).len());
    assert(piece_moves(r, 6).len() == piece_moves(v, 13).len());
    assert(piece_moves(r, 5).len() == piece_moves(v, 14).len());
    assert(piece_moves(r, 4).len() == piece_moves(v, 15).len());
    assert(piece_moves(r, 3).len() == piece_moves(v, 16).len());
    assert(piece_moves(r, 2).len() == piece_moves(v, 17).len());
    assert(piece_moves(r, 1).len() == piece_moves(v, 18).len());
    assert(piece_moves(r, 0).len() == piece_moves(v, 19).len());
}

/// The first `n` squares of the rotated board hold as many empty squares as
/// the last `n` squares of the board.
proof fn lemma_rot_empties(v: PosView, n: int)
    requires
        v.board.len() == 20,
        0 <= n <= 20,
    ensures
        empties(rotate_view(v).board, n) == empties(v.board, 20) - empties(v.board, 20 - n),
    decreases n,
{
    if n > 0 {
        let r = rotate_view(v);
        lemma_rot_empties(v, n - 1);
        assert(r.board[n - 1] == flip_cell(v.board[20 - n]));
        assert((r.board[n - 1] is Some) == (v.board[20 - n] is Some));
        assert(empties(v.board, 21 - n) == empties(v.board, 20 - n) + if v.board[20 - n] is Some {
            0int
        } else {
            1int
        });
    }
}

/// The rotated position has as many drops of each kind as the position.
proof fn lemma_rot_drops(v: PosView, kind: Kind)
    requires
        v.board.len() == 20,
    ensures
        square_drops(rotate_view(v), kind, 20).len() == square_drops(v, kind, 20).len(),
{
    lemma_drops_empties(v, kind, 20);
    lemma_drops_empties(rotate_view(v), kind, 20);
    lemma_rot_empties(v, 20);
}

/// Turning a position to Sente to move keeps its number of moves.
#[verifier::rlimit(30)]
pub proof fn lemma_turn_moves_len(v: PosView)
    requires
        v.board.len() == 20,
    ensures
        moves_spec(canonical_turn_spec(v)).len() == moves_spec(v).len(),
{
    if v.turn == Owner::Gote {
        let r = rotate_view(v);
        lemma_rot_squares(v);
        lemma_rot_drops(v, Kind::Gold);
        lemma_rot_drops(v, Kind::Silver);
        lemma_rot_drops(v, Kind::Bishop);
        lemma_rot_drops(v, Kind::Pawn);
        reveal_with_fuel(hand_drops, 5);
        assert(hand_of(r, r.turn) == hand_of(v, v.turn));
        assert(slot_kind(0) == Kind::Gold);
        assert(slot_kind(1) == Kind::Silver);
        assert(slot_kind(2) == Kind::Bishop);
        assert(slot_kind(3) == Kind::Pawn);
    }
}

// ---------------------------------------------------------------------------
// Executable packing
// ---------------------------------------------------------------------------

pub fn cell_code(c: Cell) -> (r: u32)
    ensures
        r == cell_code_spec(c),
        r <= 18,
{
    match c {
        None => 0,
        Some((k, promo, o)) => {
            let base: u32 = match k {
                Kind::King => 0,
                Kind::Gold => if promo { 2 } else { 1 },
                Kind::Silver => if promo { 4 } else { 3 },
                Kind::Bishop => if promo { 6 } else { 5 },
                Kind::Pawn => if promo { 8 } else { 7 },
            };
            base * 2 + if o == Owner::Gote { 1 } else { 0 } + 1
        },
    }
}

pub fn code_cell(code: u32) -> (c: Cell)
    ensures
        c == code_cell_spec(code),
{
    if code == 0 {
        return None;
    }
    let owner = if (code - 1) % 2 == 1 { Owner::Gote } else { Owner::Sente };
    let base = (code - 1) / 2;
    let (k, promo) = if base == 0 {
        (Kind::King, false)
    } else if base == 1 {
        (Kind::Gold, false)
    } else if base == 2 {
        (Kind::Gold, true)
    } else if base == 3 {
        (Kind::Silver, false)
    } else if base == 4 {
        (Kind::Silver, true)
    } else if base == 5 {
        (Kind::Bishop, false)
    } else if base == 6 {
        (Kind::Bishop, true)
    } else if base == 7 {
        (Kind::Pawn, false)
    } else {
        (Kind::Pawn, true)
    };
    Some((k, promo, owner))
}

/// Pack a position into its 117-bit key.
pub fn pack(p: &Position) -> (x: u128)
    ensures
        x == pack_spec(p@),
        pack_valid(p@) ==> x < (1u128 << 117u128),
{
    proof {
        if pack_valid(p@) {
            lemma_pack_bound(p@);
        }
    }
    let mut x: u128 = 0;
    let mut sq: usize = 0;
    while sq < 20
        invariant
            sq <= 20,
            x == pack_board(p.board@, sq as nat),
        decreases 20 - sq,
    {
        x = x | ((cell_code(p.board[sq]) as u128) << ((sq as u128) * 5));
        sq += 1;
    }
    let mut bit: u128 = 100;
    let mut i: usize = 0;
    while i < 8
        invariant
            i <= 8,
            bit == 100 + 2 * i,
            x == pack_hands(p@, i as nat),
        decreases 8 - i,
    {
        let c = if i < 4 { p.hand_sente[i] } else { p.hand_gote[i - 4] };
        x = x | ((c as u128) << bit);
        bit += 2;
        i += 1;
    }
    if p.turn == Owner::Gote {
        x = x | (1u128 << 116u128);
    }
    x
}

/// Unpack a key into a position.
pub fn unpack(x: u128) -> (p: Position)
    ensures
        p@ == unpack_spec(x),
{
    let mut board: [Cell; 20] = [None; 20];
    let mut sq: usize = 0;
    while sq < 20
        invariant
            sq <= 20,
            forall|j: int| 0 <= j < sq ==> #[trigger] board@[j] == unpack_spec(x).board[j],
        decreases 20 - sq,
    {
        let code = ((x >> ((sq as u128) * 5)) & 0x1F) as u32;
        board[sq] = code_cell(code);
        sq += 1;
    }
    let mut h: [u8; 8] = [0; 8];
    let mut i: usize = 0;
    while i < 8
        invariant
            i <= 8,
            forall|j: int| 0 <= j < i ==> #[trigger] h@[j] == field(x, (100 + 2 * j) as u128, 3) as u8,
        decreases 8 - i,
    {
        h[i] = ((x >> (100 + 2 * (i as u128))) & 0x3) as u8;
        i += 1;
    }
    let turn = if (x >> 116u128) & 1 == 1 { Owner::Gote } else { Owner::Sente };
    let p = Position { board, hand_sente: [h[0], h[1], h[2], h[3]], hand_gote: [h[4], h[5], h[6], h[7]], turn };
    assert(p@.board =~= unpack_spec(x).board);
    assert(p@.hand_sente =~= unpack_spec(x).hand_sente);
    assert(p@.hand_gote =~= unpack_spec(x).hand_gote);
    p
}

/// Turn-normalize: a Gote-to-move position is rotated 180 degrees with colours
/// swapped, giving an always-Sente-to-move representative.
pub fn canonical_turn(p: &Position) -> (r: Position)
    ensures
        r@ == canonical_turn_spec(p@),
{
    if p.turn == Owner::Sente {
        return *p;
    }
    let mut board: [Cell; 20] = [None; 20];
    let mut s: usize = 0;
    while s < 20
        invariant
            s <= 20,
            forall|j: int| 0 <= j < s ==> #[trigger] board@[19 - j] == flip_cell(p.board@[j]),
        decreases 20 - s,
    {
        let r = s as i8 / 4;
        let f = s as i8 % 4;
        let s2 = (((5 - 1 - r) * 4) + (4 - 1 - f)) as usize;
        board[s2] = match p.board[s] {
            Some((k, promo, o)) => Some((k, promo, o.flip())),
            None => None,
        };
        s += 1;
    }
    let r = Position { board, hand_sente: p.hand_gote, hand_gote: p.hand_sente, turn: Owner::Sente };
    assert forall|t: int| 0 <= t < 20 implies r@.board[t] == rotate_view(p@).board[t] by {
        assert(board@[19 - (19 - t)] == flip_cell(p.board@[19 - t]));
    }
    assert(r@.board =~= rotate_view(p@).board);
    r
}

/// Left-right file mirror (f <-> 3 - f), a value-preserving symmetry.
pub fn mirror(p: &Position) -> (r: Position)
    ensures
        r@ == mirror_view(p@),
{
    let mut board: [Cell; 20] = [None; 20];
    let mut s: usize = 0;
    while s < 20
        invariant
            s <= 20,
            forall|j: int| 0 <= j < s ==> #[trigger] board@[mirror_sq(j)] == p.board@[j],
        decreases 20 - s,
    {
        let r = s as i8 / 4;
        let f = s as i8 % 4;
        let s2 = (r * 4 + (4 - 1 - f)) as usize;
        board[s2] = p.board[s];
        s += 1;
    }
    let r = Position { board, hand_sente: p.hand_sente, hand_gote: p.hand_gote, turn: p.turn };
    assert forall|t: int| 0 <= t < 20 implies r@.board[t] == mirror_view(p@).board[t] by {
        assert(mirror_sq(mirror_sq(t)) == t);
        assert(board@[mirror_sq(mirror_sq(t))] == p.board@[mirror_sq(t)]);
    }
    assert(r@.board =~= mirror_view(p@).board);
    r
}

/// Canonical packed key, folding turn (180 degrees + colour swap) and the
/// left-right mirror.
pub fn canonical_key(p: &Position) -> (k: u128)
    ensures
        k == canonical_key_spec(p@),
{
    let q = canonical_turn(p);
    let a = pack(&q);
    let b = pack(&mirror(&q));
    if a <= b {
        a
    } else {
        b
    }
}

} // verus!
