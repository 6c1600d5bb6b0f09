//! Micro Shogi rules engine: pieces, movement, pseudo-legal move generation,
//! making moves, and perft.
//!
//! Squares are 0..20 with `square = rank * 4 + file`. Rank 0 is the top row
//! (Gote's back rank), rank 4 the bottom (Sente's back rank). Sente advances
//! toward rank 0. Promotion is by capture-flip (mandatory, reversible), drops are
//! unrestricted and may use either face, and the game ends by King capture.
use vstd::prelude::*;

verus! {

broadcast use vstd::array::group_array_axioms;

pub const NFILE: i8 = 4;

pub const NRANK: i8 = 5;

pub const NSQ: usize = 20;

/// A side of the game.
#[derive(Clone, Copy, PartialEq, Eq, Hash, Debug, Structural)]
pub enum Owner {
    Sente,
    Gote,
}

/// A piece kind, named by its base face.
#[derive(Clone, Copy, PartialEq, Eq, Hash, Debug, Structural)]
pub enum Kind {
    King,
    Gold,
    Silver,
    Bishop,
    Pawn,
}

/// A board cell: (kind, promoted face?, owner).
pub type Cell = Option<(Kind, bool, Owner)>;

/// A game position: board, the two hands (counts of Gold, Silver, Bishop, Pawn),
/// and the side to move.
#[derive(Clone, Copy, PartialEq, Eq, Hash, Debug)]
pub struct Position {
    pub board: [Cell; 20],
    pub hand_sente: [u8; 4],
    pub hand_gote: [u8; 4],
    pub turn: Owner,
}

/// The mathematical content of a position.
pub struct PosView {
    pub board: Seq<Cell>,
    pub hand_sente: Seq<u8>,
    pub hand_gote: Seq<u8>,
    pub turn: Owner,
}

impl View for Position {
    type V = PosView;

    open spec fn view(&self) -> PosView {
        PosView { board: self.board@, hand_sente: self.hand_sente@, hand_gote: self.hand_gote@, turn: self.turn }
    }
}

/// A move: a board move (`from` is `Some`) or a drop (`from` is `None`).
/// `promo` is the face the piece shows on `to` after the move.
#[derive(Clone, Copy, PartialEq, Eq, Debug)]
pub struct Move {
    pub kind: Kind,
    pub from: Option<u8>,
    pub to: u8,
    pub capture: bool,
    pub promo: bool,
}

// ---------------------------------------------------------------------------
// Specification of the rules
// ---------------------------------------------------------------------------

pub open spec fn sq_rank(sq: int) -> int {
    sq / 4
}

pub open spec fn sq_file(sq: int) -> int {
    sq % 4
}

pub open spec fn in_board(r: int, f: int) -> bool {
    0 <= r < 5 && 0 <= f < 4
}

pub open spec fn flip_spec(o: Owner) -> Owner {
    match o {
        Owner::Sente => Owner::Gote,
        Owner::Gote => Owner::Sente,
    }
}

/// The rank step toward the enemy back rank.
pub open spec fn fwd_spec(o: Owner) -> int {
    match o {
        Owner::Sente => -1,
        Owner::Gote => 1,
    }
}

/// Hand slot of a holdable kind (Gold, Silver, Bishop, Pawn).
pub open spec fn hand_slot(k: Kind) -> int {
    match k {
        Kind::Gold => 0,
        Kind::Silver => 1,
        Kind::Bishop => 2,
        Kind::Pawn => 3,
        Kind::King => 0,
    }
}

/// The holdable kind in a hand slot.
pub open spec fn slot_kind(i: int) -> Kind {
    if i == 0 {
        Kind::Gold
    } else if i == 1 {
        Kind::Silver
    } else if i == 2 {
        Kind::Bishop
    } else {
        Kind::Pawn
    }
}

pub open spec fn hand_of(p: PosView, o: Owner) -> Seq<u8> {
    match o {
        Owner::Sente => p.hand_sente,
        Owner::Gote => p.hand_gote,
    }
}

/// Single steps of a Gold (also a Tokin) for a side whose forward step is `f`.
pub open spec fn gold_steps(f: int) -> Seq<(i8, i8)> {
    seq![(f as i8, -1i8), (f as i8, 0i8), (f as i8, 1i8), (0i8, -1i8), (0i8, 1i8), ((-f) as i8, 0i8)]
}

/// How a piece moves: (is it a slider?, its directions). A slider moves any
/// number of empty squares along each direction; any other piece takes one step.
pub open spec fn movement_spec(kind: Kind, promo: bool, owner: Owner) -> (bool, Seq<(i8, i8)>) {
    let f = fwd_spec(owner);
    match kind {
        Kind::King => (
            false,
            seq![(-1i8, -1i8), (-1i8, 0i8), (-1i8, 1i8), (0i8, -1i8), (0i8, 1i8), (1i8, -1i8), (1i8, 0i8), (1i8, 1i8)],
        ),
        Kind::Gold => if !promo {
            (false, gold_steps(f))
        } else {
            (true, seq![(-1i8, 0i8), (1i8, 0i8), (0i8, -1i8), (0i8, 1i8)])
        },
        Kind::Silver => if !promo {
            (false, seq![(f as i8, -1i8), (f as i8, 0i8), (f as i8, 1i8), ((-f) as i8, -1i8), ((-f) as i8, 1i8)])
        } else {
            (true, seq![(f as i8, 0i8)])
        },
        Kind::Bishop => if !promo {
            (true, seq![(-1i8, -1i8), (-1i8, 1i8), (1i8, -1i8), (1i8, 1i8)])
        } else {
            (false, gold_steps(f))
        },
        Kind::Pawn => if !promo {
            (false, seq![(f as i8, 0i8)])
        } else {
            (false, seq![((2 * f) as i8, -1i8), ((2 * f) as i8, 1i8)])
        },
    }
}

/// The face a piece shows after moving: a capture flips every piece but the King.
pub open spec fn result_face(kind: Kind, promo: bool, capture: bool) -> bool {
    if capture && kind != Kind::King {
        !promo
    } else {
        promo
    }
}

/// Moves along direction (dr, df) from `sq`, starting with the `n`-th step.
/// The ray stops at the board edge or at an own piece, and ends after a capture;
/// a non-slider only takes the first step.
pub open spec fn ray_moves(
    p: PosView,
    sq: int,
    kind: Kind,
    promo: bool,
    slider: bool,
    dr: int,
    df: int,
    n: int,
) -> Seq<Move>
    decreases 6 - n,
{
    if n < 1 || n > 5 {
        seq![]
    } else {
        let nr = sq_rank(sq) + n * dr;
        let nf = sq_file(sq) + n * df;
        if !in_board(nr, nf) {
            seq![]
        } else {
            let nsq = nr * 4 + nf;
            match p.board[nsq] {
                Some(c) if c.2 == p.turn => seq![],
                cell => {
                    let capture = cell is Some;
                    let m = Move {
                        kind,
                        from: Some(sq as u8),
                        to: nsq as u8,
                        capture,
                        promo: result_face(kind, promo, capture),
                    };
                    if capture || !slider {
                        seq![m]
                    } else {
                        seq![m] + ray_moves(p, sq, kind, promo, slider, dr, df, n + 1)
                    }
                },
            }
        }
    }
}

/// Moves of the piece on `sq` along the first `n` of its directions.
pub open spec fn dirs_moves(
    p: PosView,
    sq: int,
    kind: Kind,
    promo: bool,
    slider: bool,
    dirs: Seq<(i8, i8)>,
    n: int,
) -> Seq<Move>
    decreases n,
{
    if n <= 0 {
        seq![]
    } else {
        dirs_moves(p, sq, kind, promo, slider, dirs, n - 1) + ray_moves(
            p,
            sq,
            kind,
            promo,
            slider,
            dirs[n - 1].0 as int,
            dirs[n - 1].1 as int,
            1,
        )
    }
}

/// Board moves of the piece on `sq`, if it belongs to the side to move.
pub open spec fn piece_moves(p: PosView, sq: int) -> Seq<Move> {
    match p.board[sq] {
        Some(c) if c.2 == p.turn => {
            let (slider, dirs) = movement_spec(c.0, c.1, c.2);
            dirs_moves(p, sq, c.0, c.1, slider, dirs, dirs.len() as int)
        },
        _ => seq![],
    }
}

/// Board moves of the pieces on squares `0..n`, in square order.
pub open spec fn squares_moves(p: PosView, n: int) -> Seq<Move>
    decreases n,
{
    if n <= 0 {
        seq![]
    } else {
        squares_moves(p, n - 1) + piece_moves(p, n - 1)
    }
}

/// Drops of `kind` on the empty squares among `0..n`, each in both faces.
pub open spec fn square_drops(p: PosView, kind: Kind, n: int) -> Seq<Move>
    decreases n,
{
    if n <= 0 {
        seq![]
    } else {
        square_drops(p, kind, n - 1) + if p.board[n - 1] is Some {
            seq![]
        } else {
            seq![
                Move { kind, from: None, to: (n - 1) as u8, capture: false, promo: false },
                Move { kind, from: None, to: (n - 1) as u8, capture: false, promo: true },
            ]
        }
    }
}

/// Drops from the first `n` hand slots of the side to move.
pub open spec fn hand_drops(p: PosView, n: int) -> Seq<Move>
    decreases n,
{
    if n <= 0 {
        seq![]
    } else {
        hand_drops(p, n - 1) + if hand_of(p, p.turn)[n - 1] == 0 {
            seq![]
        } else {
            square_drops(p, slot_kind(n - 1), 20)
        }
    }
}

/// All pseudo-legal moves of the side to move: board moves by square, then drops.
pub open spec fn moves_spec(p: PosView) -> Seq<Move> {
    squares_moves(p, 20) + hand_drops(p, 4)
}

/// Does `m` capture the enemy King?
pub open spec fn is_king_capture(p: PosView, m: Move) -> bool {
    m.capture && match p.board[m.to as int] {
        Some(c) => c.0 == Kind::King,
        None => false,
    }
}

/// The side to move has a King capture among its moves.
pub open spec fn has_king_capture(p: PosView) -> bool {
    exists|i: int| 0 <= i < moves_spec(p).len() && is_king_capture(p, #[trigger] moves_spec(p)[i])
}

pub open spec fn hand_after(h: Seq<u8>, slot: int, delta: int) -> Seq<u8> {
    h.update(slot, (h[slot] + delta) as u8)
}

/// When `make` is defined on `m`: squares in range, no King captured, no hand
/// count overflowing, and a dropped kind present in hand.
pub open spec fn make_ok(p: PosView, m: Move) -> bool {
    &&& m.to < 20
    &&& match m.from {
        Some(sq) => sq < 20 && (m.capture ==> match p.board[m.to as int] {
            Some(c) => c.0 != Kind::King && hand_of(p, p.turn)[hand_slot(c.0)] < 255,
            None => true,
        }),
        None => m.kind != Kind::King && hand_of(p, p.turn)[hand_slot(m.kind)] > 0,
    }
}

/// The position after `m`: the mover's piece lands on `to` showing face `m.promo`,
/// a captured piece goes to the mover's hand as its base kind, a dropped piece
/// leaves the hand, and the turn passes.
pub open spec fn make_spec(p: PosView, m: Move) -> PosView {
    let me = p.turn;
    let placed = Some((m.kind, m.promo, me));
    match m.from {
        Some(sq) => {
            let board = p.board.update(sq as int, None).update(m.to as int, placed);
            let gained: Option<Kind> = if m.capture {
                match p.board[m.to as int] {
                    Some(c) => Some(c.0),
                    None => None,
                }
            } else {
                None
            };
            match gained {
                Some(k) => match me {
                    Owner::Sente => PosView {
                        board,
                        hand_sente: hand_after(p.hand_sente, hand_slot(k), 1),
                        hand_gote: p.hand_gote,
                        turn: flip_spec(me),
                    },
                    Owner::Gote => PosView {
                        board,
                        hand_sente: p.hand_sente,
                        hand_gote: hand_after(p.hand_gote, hand_slot(k), 1),
                        turn: flip_spec(me),
                    },
                },
                None => PosView { board, hand_sente: p.hand_sente, hand_gote: p.hand_gote, turn: flip_spec(me) },
            }
        },
        None => {
            let board = p.board.update(m.to as int, placed);
            match me {
                Owner::Sente => PosView {
                    board,
                    hand_sente: hand_after(p.hand_sente, hand_slot(m.kind), -1),
                    hand_gote: p.hand_gote,
                    turn: flip_spec(me),
                },
                Owner::Gote => PosView {
                    board,
                    hand_sente: p.hand_sente,
                    hand_gote: hand_after(p.hand_gote, hand_slot(m.kind), -1),
                    turn: flip_spec(me),
                },
            }
        },
    }
}


/// Total perft count: move sequences of length `depth`, where a King capture ends
/// its line and counts as one leaf.
pub open spec fn perft_spec(p: PosView, depth: nat) -> int
    decreases depth, moves_spec(p).len() + 1,
{
    if depth == 0 {
        1
    } else {
        perft_sum(p, moves_spec(p), depth)
    }
}

/// Sum of perft counts over the moves `ms` from `p`.
pub open spec fn perft_sum(p: PosView, ms: Seq<Move>, depth: nat) -> int
    decreases depth, ms.len(),
{
    if depth == 0 || ms.len() == 0 {
        0
    } else {
        perft_sum(p, ms.drop_last(), depth) + if is_king_capture(p, ms.last()) {
            1
        } else {
            perft_spec(make_spec(p, ms.last()), (depth - 1) as nat)
        }
    }
}

/// Perft to depth 1 counts every move once, King captures included.
proof fn lemma_perft_sum_one(p: PosView, ms: Seq<Move>)
    ensures
        perft_sum(p, ms, 1) == ms.len(),
    decreases ms.len(),
{
    if ms.len() > 0 {
        lemma_perft_sum_one(p, ms.drop_last());
        assert(perft_spec(make_spec(p, ms.last()), 0) == 1);
    }
}

/// Perft to depth 1 is the number of moves: a King capture is one leaf, like
/// any other move.
pub proof fn lemma_perft_one(p: PosView)
    ensures
        perft_spec(p, 1) == moves_spec(p).len(),
{
    lemma_perft_sum_one(p, moves_spec(p));
}

/// Over the moves `ms` from `p`: one for each King capture, and the number of
/// replies after each other move.
pub open spec fn replies_total(p: PosView, ms: Seq<Move>) -> int
    decreases ms.len(),
{
    if ms.len() == 0 {
        0
    } else {
        replies_total(p, ms.drop_last()) + if is_king_capture(p, ms.last()) {
            1
        } else {
            moves_spec(make_spec(p, ms.last())).len() as int
        }
    }
}

proof fn lemma_perft_sum_two(p: PosView, ms: Seq<Move>)
    ensures
        perft_sum(p, ms, 2) == replies_total(p, ms),
    decreases ms.len(),
{
    if ms.len() > 0 {
        lemma_perft_sum_two(p, ms.drop_last());
        lemma_perft_one(make_spec(p, ms.last()));
    }
}

/// Perft to depth 2 counts, for each move, its opponent's replies, and one leaf
/// for a King capture.
pub proof fn lemma_perft_two(p: PosView)
    ensures
        perft_spec(p, 2) == replies_total(p, moves_spec(p)),
{
    lemma_perft_sum_two(p, moves_spec(p));
}

/// Perft to depth 0 counts the empty line once.
pub proof fn lemma_perft_zero(p: PosView)
    ensures
        perft_spec(p, 0) == 1,
{
}

/// At any depth of at least one, a King-capturing move adds exactly one leaf to
/// the count of the moves before it.
pub proof fn lemma_perft_capture_leaf(p: PosView, ms: Seq<Move>, m: Move, depth: nat)
    requires
        depth >= 1,
        is_king_capture(p, m),
    ensures
        perft_sum(p, ms.push(m), depth) == perft_sum(p, ms, depth) + 1,
{
    assert(ms.push(m).drop_last() =~= ms);
}

/// `make` is defined on every move that perft plays to the given depth.
pub open spec fn perft_ok(p: PosView, depth: nat) -> bool
    decreases depth,
{
    depth == 0 || forall|i: int|
        0 <= i < moves_spec(p).len() && !is_king_capture(p, moves_spec(p)[i]) ==> {
            &&& make_ok(p, #[trigger] moves_spec(p)[i])
            &&& perft_ok(make_spec(p, moves_spec(p)[i]), (depth - 1) as nat)
        }
}


// ---------------------------------------------------------------------------
// Executable rules
// ---------------------------------------------------------------------------

impl Owner {
    /// The other side.
    pub fn flip(self) -> (r: Owner)
        ensures
            r == flip_spec(self),
    {
        match self {
            Owner::Sente => Owner::Gote,
            Owner::Gote => Owner::Sente,
        }
    }

    /// Forward = the rank step toward the enemy back rank.
    fn fwd(self) -> (r: i8)
        ensures
            r == fwd_spec(self),
    {
        match self {
            Owner::Sente => -1,
            Owner::Gote => 1,
        }
    }
}

impl Kind {
    /// Hand slot of a holdable kind; the King is never held in hand.
    pub fn hand_index(self) -> (r: usize)
        requires
            self != Kind::King,
        ensures
            r == hand_slot(self),
            r < 4,
    {
        match self {
            Kind::Gold => 0,
            Kind::Silver => 1,
            Kind::Bishop => 2,
            Kind::Pawn => 3,
            Kind::King => 0,
        }
    }
}

/// The holdable kind in hand slot `i` (Gold, Silver, Bishop, Pawn).
pub fn hand_kind(i: usize) -> (k: Kind)
    requires
        i < 4,
    ensures
        k == slot_kind(i as int),
        k != Kind::King,
        hand_slot(k) == i,
{
    if i == 0 {
        Kind::Gold
    } else if i == 1 {
        Kind::Silver
    } else if i == 2 {
        Kind::Bishop
    } else {
        Kind::Pawn
    }
}

pub fn rank(sq: u8) -> (r: i8)
    requires
        sq < 128,
    ensures
        r == sq_rank(sq as int),
{
    (sq as i8) / NFILE
}

pub fn file(sq: u8) -> (r: i8)
    requires
        sq < 128,
    ensures
        r == sq_file(sq as int),
{
    (sq as i8) % NFILE
}

pub fn on_board(r: i8, f: i8) -> (b: bool)
    ensures
        b == in_board(r as int, f as int),
{
    r >= 0 && r < NRANK && f >= 0 && f < NFILE
}

/// Orthogonals and the two forward diagonals, for forward step `fwd`.
pub fn gold_dirs(fwd: i8) -> (r: [(i8, i8); 6])
    requires
        fwd == 1 || fwd == -1,
    ensures
        r@ == gold_steps(fwd as int),
{
    let r = [(fwd, -1), (fwd, 0), (fwd, 1), (0, -1), (0, 1), (-fwd, 0)];
    assert(r@ =~= gold_steps(fwd as int));
    r
}

fn gold_vec(fwd: i8) -> (v: Vec<(i8, i8)>)
    requires
        fwd == 1 || fwd == -1,
    ensures
        v@ == gold_steps(fwd as int),
{
    let g = gold_dirs(fwd);
    let v = vec![g[0], g[1], g[2], g[3], g[4], g[5]];
    assert(v@ =~= gold_steps(fwd as int));
    v
}

/// (is_slider, directions) of a piece showing face `promo` for `owner`.
pub fn movement(kind: Kind, promo: bool, owner: Owner) -> (r: (bool, Vec<(i8, i8)>))
    ensures
        r.0 == movement_spec(kind, promo, owner).0,
        r.1@ == movement_spec(kind, promo, owner).1,
{
    let f = owner.fwd();
    let b = -f;
    let f2 = 2 * f;
    let r = match kind {
        Kind::King => (false, vec![(-1, -1), (-1, 0), (-1, 1), (0, -1), (0, 1), (1, -1), (1, 0), (1, 1)]),
        Kind::Gold => if !promo {
            (false, gold_vec(f))
        } else {
            (true, vec![(-1, 0), (1, 0), (0, -1), (0, 1)])
        },
        Kind::Silver => if !promo {
            (false, vec![(f, -1), (f, 0), (f, 1), (b, -1), (b, 1)])
        } else {
            (true, vec![(f, 0)])
        },
        Kind::Bishop => if !promo {
            (true, vec![(-1, -1), (-1, 1), (1, -1), (1, 1)])
        } else {
            (false, gold_vec(f))
        },
        Kind::Pawn => if !promo {
            (false, vec![(f, 0)])
        } else {
            (false, vec![(f2, -1), (f2, 1)])
        },
    };
    assert(r.1@ =~= movement_spec(kind, promo, owner).1);
    r
}


/// Every direction has components in [-2, 2] x [-1, 1] and is not the null step.
pub proof fn lemma_movement_dirs(kind: Kind, promo: bool, owner: Owner)
    ensures
        movement_spec(kind, promo, owner).1.len() <= 8,
        forall|i: int|
            0 <= i < movement_spec(kind, promo, owner).1.len() ==> {
                let d = #[trigger] movement_spec(kind, promo, owner).1[i];
                &&& -2 <= d.0 <= 2
                &&& -1 <= d.1 <= 1
                &&& !(d.0 == 0 && d.1 == 0)
            },
{
}

/// A ray never has more than four steps on the 4x5 board.
pub proof fn lemma_fifth_step_off_board(r: int, f: int, dr: int, df: int)
    requires
        in_board(r, f),
        -2 <= dr <= 2,
        -1 <= df <= 1,
        !(dr == 0 && df == 0),
    ensures
        !in_board(r + 5 * dr, f + 5 * df),
{
}

pub open spec fn move_in_range(m: Move) -> bool {
    &&& m.to < 20
    &&& (m.from matches Some(sq) ==> sq < 20)
}

pub open spec fn all_in_range(ms: Seq<Move>) -> bool {
    forall|i: int| 0 <= i < ms.len() ==> move_in_range(#[trigger] ms[i])
}

proof fn lemma_ray_in_range(
    p: PosView,
    sq: int,
    kind: Kind,
    promo: bool,
    slider: bool,
    dr: int,
    df: int,
    n: int,
)
    requires
        0 <= sq < 20,
    ensures
        all_in_range(ray_moves(p, sq, kind, promo, slider, dr, df, n)),
    decreases 6 - n,
{
    if 1 <= n <= 5 {
        lemma_ray_in_range(p, sq, kind, promo, slider, dr, df, n + 1);
    }
}

proof fn lemma_dirs_in_range(
    p: PosView,
    sq: int,
    kind: Kind,
    promo: bool,
    slider: bool,
    dirs: Seq<(i8, i8)>,
    n: int,
)
    requires
        0 <= sq < 20,
    ensures
        all_in_range(dirs_moves(p, sq, kind, promo, slider, dirs, n)),
    decreases n,
{
    if n > 0 {
        lemma_dirs_in_range(p, sq, kind, promo, slider, dirs, n - 1);
        lemma_ray_in_range(p, sq, kind, promo, slider, dirs[n - 1].0 as int, dirs[n - 1].1 as int, 1);
    }
}

proof fn lemma_squares_in_range(p: PosView, n: int)
    requires
        n <= 20,
    ensures
        all_in_range(squares_moves(p, n)),
    decreases n,
{
    if n > 0 {
        lemma_squares_in_range(p, n - 1);
        match p.board[n - 1] {
            Some(c) => {
                let (slider, dirs) = movement_spec(c.0, c.1, c.2);
                lemma_dirs_in_range(p, n - 1, c.0, c.1, slider, dirs, dirs.len() as int);
            },
            None => {},
        }
    }
}

proof fn lemma_square_drops_in_range(p: PosView, kind: Kind, n: int)
    requires
        n <= 20,
    ensures
        all_in_range(square_drops(p, kind, n)),
    decreases n,
{
    if n > 0 {
        lemma_square_drops_in_range(p, kind, n - 1);
    }
}

proof fn lemma_hand_drops_in_range(p: PosView, n: int)
    ensures
        all_in_range(hand_drops(p, n)),
    decreases n,
{
    if n > 0 {
        lemma_hand_drops_in_range(p, n - 1);
        lemma_square_drops_in_range(p, slot_kind(n - 1), 20);
    }
}

/// Every generated move has its squares on the board.
pub proof fn lemma_moves_in_range(p: PosView)
    ensures
        all_in_range(moves_spec(p)),
{
    lemma_squares_in_range(p, 20);
    lemma_hand_drops_in_range(p, 4);
}

/// What a generated move is: a board move of the mover's own piece to an empty
/// square or onto an enemy piece (a capture), showing the face `result_face`
/// gives; or a drop of a held kind (never a King) on an empty square.
pub open spec fn move_shape(p: PosView, m: Move) -> bool {
    &&& m.to < 20
    &&& match m.from {
        Some(sq) => {
            &&& sq < 20
            &&& sq != m.to
            &&& p.board[sq as int] matches Some(t) && t.0 == m.kind && t.2 == p.turn && m.promo == result_face(
                m.kind,
                t.1,
                m.capture,
            )
            &&& m.capture == (p.board[m.to as int] is Some)
            &&& (p.board[m.to as int] matches Some(t) ==> t.2 != p.turn)
        },
        None => {
            &&& m.kind != Kind::King
            &&& !m.capture
            &&& p.board[m.to as int] is None
            &&& hand_of(p, p.turn)[hand_slot(m.kind)] > 0
        },
    }
}

pub open spec fn all_shaped(p: PosView, ms: Seq<Move>) -> bool {
    forall|i: int| 0 <= i < ms.len() ==> move_shape(p, #[trigger] ms[i])
}

proof fn lemma_ray_shape(
    p: PosView,
    sq: int,
    kind: Kind,
    promo: bool,
    slider: bool,
    dr: int,
    df: int,
    n: int,
)
    requires
        0 <= sq < 20,
        p.board[sq] matches Some(t) && t.0 == kind && t.1 == promo && t.2 == p.turn,
        -2 <= dr <= 2,
        -1 <= df <= 1,
        !(dr == 0 && df == 0),
        1 <= n,
    ensures
        all_shaped(p, ray_moves(p, sq, kind, promo, slider, dr, df, n)),
    decreases 6 - n,
{
    if n <= 5 {
        lemma_ray_shape(p, sq, kind, promo, slider, dr, df, n + 1);
        let nr = sq_rank(sq) + n * dr;
        let nf = sq_file(sq) + n * df;
        if in_board(nr, nf) {
            assert(nr * 4 + nf != sq) by (nonlinear_arith)
                requires
                    nr == sq / 4 + n * dr,
                    nf == sq % 4 + n * df,
                    0 <= nf < 4,
                    0 <= sq,
                    n >= 1,
                    !(dr == 0 && df == 0),
            ;
        }
    }
}

proof fn lemma_dirs_shape(
    p: PosView,
    sq: int,
    kind: Kind,
    promo: bool,
    slider: bool,
    dirs: Seq<(i8, i8)>,
    n: int,
)
    requires
        0 <= sq < 20,
        p.board[sq] matches Some(t) && t.0 == kind && t.1 == promo && t.2 == p.turn,
        n <= dirs.len(),
        forall|i: int|
            0 <= i < dirs.len() ==> {
                let d = #[trigger] dirs[i];
                &&& -2 <= d.0 <= 2
                &&& -1 <= d.1 <= 1
                &&& !(d.0 == 0 && d.1 == 0)
            },
    ensures
        all_shaped(p, dirs_moves(p, sq, kind, promo, slider, dirs, n)),
    decreases n,
{
    if n > 0 {
        lemma_dirs_shape(p, sq, kind, promo, slider, dirs, n - 1);
        let d = dirs[n - 1];
        lemma_ray_shape(p, sq, kind, promo, slider, d.0 as int, d.1 as int, 1);
    }
}

proof fn lemma_squares_shape(p: PosView, n: int)
    requires
        n <= 20,
    ensures
        all_shaped(p, squares_moves(p, n)),
    decreases n,
{
    if n > 0 {
        lemma_squares_shape(p, n - 1);
        match p.board[n - 1] {
            Some(c) => {
                if c.2 == p.turn {
                    let (slider, dirs) = movement_spec(c.0, c.1, c.2);
                    lemma_movement_dirs(c.0, c.1, c.2);
                    lemma_dirs_shape(p, n - 1, c.0, c.1, slider, dirs, dirs.len() as int);
                }
            },
            None => {},
        }
    }
}

proof fn lemma_square_drops_shape(p: PosView, kind: Kind, n: int)
    requires
        n <= 20,
        kind != Kind::King,
        hand_of(p, p.turn)[hand_slot(kind)] > 0,
    ensures
        all_shaped(p, square_drops(p, kind, n)),
    decreases n,
{
    if n > 0 {
        lemma_square_drops_shape(p, kind, n - 1);
    }
}

proof fn lemma_hand_drops_shape(p: PosView, n: int)
    requires
        n <= 4,
    ensures
        all_shaped(p, hand_drops(p, n)),
    decreases n,
{
    if n > 0 {
        lemma_hand_drops_shape(p, n - 1);
        if hand_of(p, p.turn)[n - 1] != 0 {
            assert(hand_slot(slot_kind(n - 1)) == n - 1);
            lemma_square_drops_shape(p, slot_kind(n - 1), 20);
        }
    }
}

/// Every generated move has the shape `move_shape` describes.
pub proof fn lemma_moves_shape(p: PosView)
    ensures
        all_shaped(p, moves_spec(p)),
{
    lemma_squares_shape(p, 20);
    lemma_hand_drops_shape(p, 4);
}

/// The other side.
pub open spec fn opponent(o: Owner) -> Owner {
    if o == Owner::Sente {
        Owner::Gote
    } else {
        Owner::Sente
    }
}

/// Making a board move of the generator: the turn passes, the piece leaves its
/// square and lands on the target, turned over when it captured (a King never
/// turns), every other square is unchanged, and a captured piece joins the
/// mover's hand as one more of its kind; without a capture no hand changes.
pub proof fn lemma_make_board_move(p: PosView, m: Move, k: Kind, f: bool, x: int)
    requires
        p.board.len() == 20,
        p.hand_sente.len() == 4,
        p.hand_gote.len() == 4,
        moves_spec(p).contains(m),
        make_ok(p, m),
        m.from is Some,
        p.board[m.from->0 as int] == Some((k, f, p.turn)),
        0 <= x < 20,
    ensures
        make_spec(p, m).turn == opponent(p.turn),
        make_spec(p, m).board[m.from->0 as int] is None,
        make_spec(p, m).board[m.to as int] == Some(
            (
                k,
                if m.capture && k != Kind::King {
                    !f
                } else {
                    f
                },
                p.turn,
            ),
        ),
        x != m.from->0 as int && x != m.to as int ==> make_spec(p, m).board[x] == p.board[x],
        m.capture == (p.board[m.to as int] is Some),
        !m.capture ==> make_spec(p, m).hand_sente == p.hand_sente && make_spec(p, m).hand_gote == p.hand_gote,
        hand_of(make_spec(p, m), opponent(p.turn)) == hand_of(p, opponent(p.turn)),
        forall|ck: Kind, cf: bool, co: Owner|
            m.capture && p.board[m.to as int] == Some((ck, cf, co)) ==> #[trigger] hand_of(make_spec(p, m), p.turn)
                == hand_of(p, p.turn).update(hand_slot(ck), (hand_of(p, p.turn)[hand_slot(ck)] + 1) as u8)
                && hand_of(p, p.turn)[hand_slot(ck)] + 1 < 256,
{
    lemma_moves_shape(p);
    let i = choose|i: int| 0 <= i < moves_spec(p).len() && moves_spec(p)[i] == m;
    assert(move_shape(p, moves_spec(p)[i]));
}

/// Making a drop: the turn passes, the dropped piece stands on the target
/// showing the chosen face, every other square is unchanged, and the mover's
/// hand holds one fewer of the kind.
pub proof fn lemma_make_drop(p: PosView, m: Move, x: int)
    requires
        p.board.len() == 20,
        p.hand_sente.len() == 4,
        p.hand_gote.len() == 4,
        moves_spec(p).contains(m),
        m.from is None,
        0 <= x < 20,
    ensures
        m.kind != Kind::King,
        p.board[m.to as int] is None,
        make_spec(p, m).turn == opponent(p.turn),
        make_spec(p, m).board[m.to as int] == Some((m.kind, m.promo, p.turn)),
        x != m.to as int ==> make_spec(p, m).board[x] == p.board[x],
        hand_of(p, p.turn)[hand_slot(m.kind)] >= 1,
        hand_of(make_spec(p, m), p.turn) == hand_of(p, p.turn).update(
            hand_slot(m.kind),
            (hand_of(p, p.turn)[hand_slot(m.kind)] - 1) as u8,
        ),
        hand_of(make_spec(p, m), opponent(p.turn)) == hand_of(p, opponent(p.turn)),
{
    lemma_moves_shape(p);
    let i = choose|i: int| 0 <= i < moves_spec(p).len() && moves_spec(p)[i] == m;
    assert(move_shape(p, moves_spec(p)[i]));
}

/// A generated move that does not capture the King can be made when the
/// mover's hand counts leave room for a capture.
pub proof fn lemma_make_ok_of_move(p: PosView, m: Move)
    requires
        moves_spec(p).contains(m),
        !is_king_capture(p, m),
        forall|i: int| 0 <= i < 4 ==> #[trigger] hand_of(p, p.turn)[i] < 255,
    ensures
        make_ok(p, m),
{
    lemma_moves_shape(p);
    let i = choose|i: int| 0 <= i < moves_spec(p).len() && moves_spec(p)[i] == m;
    assert(move_shape(p, moves_spec(p)[i]));
    match m.from {
        Some(sq) => {
            match p.board[m.to as int] {
                Some(c) => {
                    assert(hand_of(p, p.turn)[hand_slot(c.0)] < 255);
                },
                None => {},
            }
        },
        None => {},
    }
}

impl Position {
    fn hand(&self, o: Owner) -> (r: &[u8; 4])
        ensures
            r@ == hand_of(self@, o),
    {
        match o {
            Owner::Sente => &self.hand_sente,
            Owner::Gote => &self.hand_gote,
        }
    }

    fn hand_mut(&mut self, o: Owner) -> (r: &mut [u8; 4])
        ensures
            r@ == hand_of(old(self)@, o),
            final(self).board == old(self).board,
            final(self).turn == old(self).turn,
            hand_of(final(self)@, o) == final(r)@,
            hand_of(final(self)@, flip_spec(o)) == hand_of(old(self)@, flip_spec(o)),
    {
        match o {
            Owner::Sente => &mut self.hand_sente,
            Owner::Gote => &mut self.hand_gote,
        }
    }

    /// Apply a move, returning the resulting position (turn flipped). A captured
    /// piece enters the captor's hand as its base kind. Not defined on a
    /// King-capturing move, which ends the game.
    pub fn make(&self, mv: &Move) -> (r: Position)
        requires
            make_ok(self@, *mv),
        ensures
            r@ == make_spec(self@, *mv),
    {
        let mut p = *self;
        let me = self.turn;
        match mv.from {
            Some(sq) => {
                p.board[sq as usize] = None;
                if mv.capture {
                    if let Some((ck, _, _)) = self.board[mv.to as usize] {
                        let hi = ck.hand_index();
                        let h = p.hand_mut(me);
                        h[hi] = h[hi] + 1;
                    }
                }
                p.board[mv.to as usize] = Some((mv.kind, mv.promo, me));
            },
            None => {
                let hi = mv.kind.hand_index();
                let h = p.hand_mut(me);
                h[hi] = h[hi] - 1;
                p.board[mv.to as usize] = Some((mv.kind, mv.promo, me));
            },
        }
        p.turn = me.flip();
        assert(p.board@ =~= make_spec(self@, *mv).board);
        assert(p.hand_sente@ =~= make_spec(self@, *mv).hand_sente);
        assert(p.hand_gote@ =~= make_spec(self@, *mv).hand_gote);
        p
    }

    /// Does this move capture the enemy King (and so win on the spot)?
    pub fn is_terminal_win_move(&self, m: &Move) -> (r: bool)
        requires
            m.to < 20,
        ensures
            r == is_king_capture(self@, *m),
    {
        m.capture && match self.board[m.to as usize] {
            Some((Kind::King, _, _)) => true,
            _ => false,
        }
    }

    /// The side to move can capture the enemy King immediately.
    pub fn is_immediate_win(&self) -> (r: bool)
        ensures
            r == has_king_capture(self@),
    {
        let ms = self.moves();
        let mut i: usize = 0;
        while i < ms.len()
            invariant
                i <= ms@.len(),
                ms@ == moves_spec(self@),
                forall|j: int| 0 <= j < i ==> !is_king_capture(self@, #[trigger] moves_spec(self@)[j]),
            decreases ms@.len() - i,
        {
            proof {
                lemma_moves_in_range(self@);
                assert(move_in_range(moves_spec(self@)[i as int]));
            }
            if self.is_terminal_win_move(&ms[i]) {
                return true;
            }
            i += 1;
        }
        false
    }

    /// All pseudo-legal moves for the side to move (board moves, then drops).
    pub fn moves(&self) -> (out: Vec<Move>)
        ensures
            out@ == moves_spec(self@),
    {
        let mut out = Vec::with_capacity(40);
        self.board_moves(&mut out);
        self.drop_moves(&mut out);
        out
    }

    fn board_moves(&self, out: &mut Vec<Move>)
        ensures
            final(out)@ == old(out)@ + squares_moves(self@, 20),
    {
        let me = self.turn;
        let ghost base = out@;
        let mut sq: u8 = 0;
        while sq < 20
            invariant
                sq <= 20,
                me == self.turn,
                out@ == base + squares_moves(self@, sq as int),
            decreases 20 - sq,
        {
            let ghost before = out@;
            match self.board[sq as usize] {
                Some((k, promo, o)) => {
                    if o == me {
                        let r = rank(sq);
                        let f = file(sq);
                        let (slider, dirs) = movement(k, promo, me);
                        proof {
                            lemma_movement_dirs(k, promo, me);
                        }
                        let mut i: usize = 0;
                        while i < dirs.len()
                            invariant
                                i <= dirs@.len(),
                                me == self.turn,
                                sq < 20,
                                r == sq_rank(sq as int),
                                f == sq_file(sq as int),
                                dirs@ == movement_spec(k, promo, me).1,
                                slider == movement_spec(k, promo, me).0,
                                forall|j: int|
                                    0 <= j < dirs@.len() ==> {
                                        let d = #[trigger] dirs@[j];
                                        &&& -2 <= d.0 <= 2
                                        &&& -1 <= d.1 <= 1
                                        &&& !(d.0 == 0 && d.1 == 0)
                                    },
                                out@ == before + dirs_moves(self@, sq as int, k, promo, slider, dirs@, i as int),
                            decreases dirs@.len() - i,
                        {
                            let (dr, df) = dirs[i];
                            assert(-2 <= dirs@[i as int].0 <= 2);
                            let mut nr = r + dr;
                            let mut nf = f + df;
                            let ghost mut n: int = 1;
                            let ghost before_ray = out@;
                            loop
                                invariant_except_break
                                    1 <= n <= 5,
                                    me == self.turn,
                                    sq < 20,
                                    r == sq_rank(sq as int),
                                    f == sq_file(sq as int),
                                    -2 <= dr <= 2,
                                    -1 <= df <= 1,
                                    !(dr == 0 && df == 0),
                                    nr == r + n * dr,
                                    nf == f + n * df,
                                    before_ray + ray_moves(self@, sq as int, k, promo, slider, dr as int, df as int, 1)
                                        == out@ + ray_moves(self@, sq as int, k, promo, slider, dr as int, df as int, n),
                                ensures
                                    out@ == before_ray + ray_moves(self@, sq as int, k, promo, slider, dr as int, df as int, 1),
                                decreases 5 - n,
                            {
                                proof {
                                    if n == 5 {
                                        lemma_fifth_step_off_board(r as int, f as int, dr as int, df as int);
                                    }
                                }
                                if !on_board(nr, nf) {
                                    assert(ray_moves(self@, sq as int, k, promo, slider, dr as int, df as int, n) =~= seq![]);
                                    assert(out@ + seq![] =~= out@);
                                    break;
                                }
                                let nsq = (nr * 4 + nf) as u8;
                                let cell = self.board[nsq as usize];
                                assert(nsq as int == (sq_rank(sq as int) + n * dr) * 4 + sq_file(sq as int) + n * df);
                                assert(in_board(sq_rank(sq as int) + n * dr, sq_file(sq as int) + n * df));
                                assert(cell == self.board[nsq as int]);
                                let own = match cell {
                                    Some((_, _, o2)) => o2 == me,
                                    None => false,
                                };
                                if own {
                                    assert(ray_moves(self@, sq as int, k, promo, slider, dr as int, df as int, n) =~= seq![]);
                                    assert(out@ + seq![] =~= out@);
                                    break;
                                }
                                let capture = cell.is_some();
                                let result_promo = if capture && k != Kind::King {
                                    !promo
                                } else {
                                    promo
                                };
                                let m = Move { kind: k, from: Some(sq), to: nsq, capture, promo: result_promo };
                                let ghost rest = ray_moves(self@, sq as int, k, promo, slider, dr as int, df as int, n + 1);
                                out.push(m);
                                if capture || !slider {
                                    assert(ray_moves(self@, sq as int, k, promo, slider, dr as int, df as int, n) =~= seq![m]);
                                    break;
                                }
                                assert(ray_moves(self@, sq as int, k, promo, slider, dr as int, df as int, n) =~= seq![m] + rest);
                                nr = nr + dr;
                                nf = nf + df;
                                proof {
                                    assert((n + 1) * dr == n * dr + dr) by (nonlinear_arith);
                                    assert((n + 1) * df == n * df + df) by (nonlinear_arith);
                                    n = n + 1;
                                }
                            }
                            i += 1;
                            assert(dirs_moves(self@, sq as int, k, promo, slider, dirs@, i as int)
                                =~= dirs_moves(self@, sq as int, k, promo, slider, dirs@, i - 1)
                                    + ray_moves(self@, sq as int, k, promo, slider, dr as int, df as int, 1));
                        }
                        assert(piece_moves(self@, sq as int) == dirs_moves(self@, sq as int, k, promo, slider, dirs@, dirs@.len() as int));
                    } else {
                        assert(piece_moves(self@, sq as int) =~= seq![]);
                    }
                },
                None => {
                    assert(piece_moves(self@, sq as int) =~= seq![]);
                },
            }
            assert(squares_moves(self@, sq + 1) == squares_moves(self@, sq as int) + piece_moves(self@, sq as int));
            sq += 1;
        }
    }

    fn drop_moves(&self, out: &mut Vec<Move>)
        ensures
            final(out)@ == old(out)@ + hand_drops(self@, 4),
    {
        let me = self.turn;
        let ghost base = out@;
        let h = self.hand(me);
        let mut i: usize = 0;
        while i < 4
            invariant
                i <= 4,
                me == self.turn,
                h@ == hand_of(self@, self.turn),
                out@ == base + hand_drops(self@, i as int),
            decreases 4 - i,
        {
            let ghost before = out@;
            if h[i] != 0 {
                let k = hand_kind(i);
                let mut nsq: u8 = 0;
                while nsq < 20
                    invariant
                        nsq <= 20,
                        out@ == before + square_drops(self@, k, nsq as int),
                    decreases 20 - nsq,
                {
                    let ghost before_sq = out@;
                    if self.board[nsq as usize].is_none() {
                        // unrestricted drops: either face is legal
                        out.push(Move { kind: k, from: None, to: nsq, capture: false, promo: false });
                        out.push(Move { kind: k, from: None, to: nsq, capture: false, promo: true });
                    }
                    assert(square_drops(self@, k, nsq + 1) =~= square_drops(self@, k, nsq as int) + (out@.skip(before_sq.len() as int)));
                    assert(out@ =~= before_sq + out@.skip(before_sq.len() as int));
                    nsq += 1;
                }
                assert(hand_drops(self@, i + 1) =~= hand_drops(self@, i as int) + square_drops(self@, k, 20));
            } else {
                assert(hand_drops(self@, i + 1) =~= hand_drops(self@, i as int));
            }
            i += 1;
        }
    }
}


proof fn lemma_perft_nonneg(p: PosView, depth: nat)
    ensures
        perft_spec(p, depth) >= 0,
    decreases depth, moves_spec(p).len() + 1,
{
    if depth > 0 {
        lemma_perft_sum_nonneg(p, moves_spec(p), depth);
    }
}

proof fn lemma_perft_sum_nonneg(p: PosView, ms: Seq<Move>, depth: nat)
    ensures
        perft_sum(p, ms, depth) >= 0,
    decreases depth, ms.len(),
{
    if depth > 0 && ms.len() > 0 {
        lemma_perft_sum_nonneg(p, ms.drop_last(), depth);
        if !is_king_capture(p, ms.last()) {
            lemma_perft_nonneg(make_spec(p, ms.last()), (depth - 1) as nat);
        }
    }
}

/// Sums over longer prefixes are larger.
proof fn lemma_perft_sum_prefix(p: PosView, ms: Seq<Move>, depth: nat, j: int, k: int)
    requires
        0 <= j <= k <= ms.len(),
    ensures
        perft_sum(p, ms.take(j), depth) <= perft_sum(p, ms.take(k), depth),
    decreases k - j,
{
    if j < k {
        lemma_perft_sum_prefix(p, ms, depth, j, k - 1);
        assert(ms.take(k).drop_last() =~= ms.take(k - 1));
        if depth > 0 && !is_king_capture(p, ms.take(k).last()) {
            lemma_perft_nonneg(make_spec(p, ms.take(k).last()), (depth - 1) as nat);
        }
    }
}

/// Count of move sequences to `depth` (a King capture ends a line as one leaf).
#[verifier::rlimit(30)]
pub fn perft(p: &Position, depth: u32) -> (n: u64)
    requires
        perft_ok(p@, depth as nat),
        perft_spec(p@, depth as nat) <= u64::MAX,
    ensures
        n == perft_spec(p@, depth as nat),
    decreases depth,
{
    if depth == 0 {
        return 1;
    }
    let mut n: u64 = 0;
    let ms = p.moves();
    proof {
        lemma_moves_in_range(p@);
        assert(ms@.take(ms@.len() as int) =~= ms@);
    }
    let mut i: usize = 0;
    while i < ms.len()
        invariant
            depth > 0,
            i <= ms@.len(),
            ms@ == moves_spec(p@),
            all_in_range(ms@),
            perft_ok(p@, depth as nat),
            perft_spec(p@, depth as nat) <= u64::MAX,
            perft_spec(p@, depth as nat) == perft_sum(p@, ms@.take(ms@.len() as int), depth as nat),
            n == perft_sum(p@, ms@.take(i as int), depth as nat),
        decreases ms@.len() - i,
    {
        let m = ms[i];
        assert(move_in_range(ms@[i as int]));
        proof {
            lemma_perft_sum_prefix(p@, ms@, depth as nat, i + 1, ms@.len() as int);
            assert(ms@.take(i + 1).drop_last() =~= ms@.take(i as int));
            assert(ms@.take(i + 1).last() == m);
        }
        if p.is_terminal_win_move(&m) {
            n += 1;  // king capture: a leaf, no recursion
        } else {
            let child = p.make(&m);
            proof {
                lemma_perft_sum_nonneg(p@, ms@.take(i as int), depth as nat);
            }
            let c = perft(&child, depth - 1);
            n += c;
        }
        i += 1;
    }
    n
}


/// Is `make` defined on the generated move `m` (no hand count overflowing)?
fn make_defined(p: &Position, m: &Move) -> (b: bool)
    requires
        moves_spec(p@).contains(*m),
        !is_king_capture(p@, *m),
    ensures
        b == make_ok(p@, *m),
{
    proof {
        lemma_moves_shape(p@);
        let i = choose|i: int| 0 <= i < moves_spec(p@).len() && moves_spec(p@)[i] == *m;
        assert(move_shape(p@, moves_spec(p@)[i]));
    }
    match m.from {
        Some(_) => {
            if m.capture {
                match p.board[m.to as usize] {
                    Some((k, _, _)) => {
                        let h = if p.turn == Owner::Sente { p.hand_sente } else { p.hand_gote };
                        h[k.hand_index()] < 255
                    },
                    None => true,
                }
            } else {
                true
            }
        },
        None => true,
    }
}

/// Perft where it is defined: `None` when a move on the way would overflow a
/// hand count, or the count would overflow a `u64`.
pub fn perft_checked(p: &Position, depth: u32) -> (r: Option<u64>)
    ensures
        r matches Some(n) ==> perft_ok(p@, depth as nat) && n == perft_spec(p@, depth as nat),
        r is None ==> !perft_ok(p@, depth as nat) || perft_spec(p@, depth as nat) > u64::MAX,
    decreases depth,
{
    if depth == 0 {
        return Some(1);
    }
    let mut n: u64 = 0;
    let ms = p.moves();
    proof {
        lemma_moves_in_range(p@);
        assert(ms@.take(ms@.len() as int) =~= ms@);
        lemma_perft_sum_nonneg(p@, ms@, depth as nat);
    }
    let mut i: usize = 0;
    while i < ms.len()
        invariant
            depth > 0,
            i <= ms@.len(),
            ms@ == moves_spec(p@),
            all_in_range(ms@),
            perft_spec(p@, depth as nat) == perft_sum(p@, ms@.take(ms@.len() as int), depth as nat),
            n == perft_sum(p@, ms@.take(i as int), depth as nat),
            forall|j: int|
                0 <= j < i && !is_king_capture(p@, ms@[j]) ==> make_ok(p@, #[trigger] ms@[j]) && perft_ok(
                    make_spec(p@, ms@[j]),
                    (depth - 1) as nat,
                ),
        decreases ms@.len() - i,
    {
        let m = ms[i];
        assert(move_in_range(ms@[i as int]));
        proof {
            lemma_perft_sum_prefix(p@, ms@, depth as nat, i + 1, ms@.len() as int);
            assert(ms@.take(i + 1).drop_last() =~= ms@.take(i as int));
            assert(ms@.take(i + 1).last() == m);
            assert(ms@.contains(m));
        }
        if p.is_terminal_win_move(&m) {
            if n == u64::MAX {
                return None;
            }
            n += 1;
        } else {
            if !make_defined(p, &m) {
                return None;
            }
            let child = p.make(&m);
            proof {
                lemma_perft_sum_nonneg(p@, ms@.take(i as int), depth as nat);
            }
            match perft_checked(&child, depth - 1) {
                None => {
                    proof {
                        lemma_perft_nonneg(child@, (depth - 1) as nat);
                    }
                    return None;
                },
                Some(c) => {
                    if c > u64::MAX - n {
                        return None;
                    }
                    n += c;
                },
            }
        }
        i += 1;
    }
    Some(n)
}


pub open spec fn piece(k: Kind, o: Owner) -> Cell {
    Some((k, false, o))
}

/// The standard starting position `S/kbgs/p---/----/---P/SGBK/-`.
pub open spec fn initial_view() -> PosView {
    PosView {
        board: seq![
            piece(Kind::King, Owner::Gote), piece(Kind::Bishop, Owner::Gote), piece(Kind::Gold, Owner::Gote), piece(Kind::Silver, Owner::Gote),
            piece(Kind::Pawn, Owner::Gote), None, None, None,
            None, None, None, None,
            None, None, None, piece(Kind::Pawn, Owner::Sente),
            piece(Kind::Silver, Owner::Sente), piece(Kind::Gold, Owner::Sente), piece(Kind::Bishop, Owner::Sente), piece(Kind::King, Owner::Sente),
        ],
        hand_sente: seq![0u8, 0u8, 0u8, 0u8],
        hand_gote: seq![0u8, 0u8, 0u8, 0u8],
        turn: Owner::Sente,
    }
}

/// The standard starting position.
pub fn initial() -> (p: Position)
    ensures
        p@ == initial_view(),
{
    let gk = Some((Kind::King, false, Owner::Gote));
    let p = Position {
        board: [
            gk, Some((Kind::Bishop, false, Owner::Gote)), Some((Kind::Gold, false, Owner::Gote)), Some((Kind::Silver, false, Owner::Gote)),
            Some((Kind::Pawn, false, Owner::Gote)), None, None, None,
            None, None, None, None,
            None, None, None, Some((Kind::Pawn, false, Owner::Sente)),
            Some((Kind::Silver, false, Owner::Sente)), Some((Kind::Gold, false, Owner::Sente)), Some((Kind::Bishop, false, Owner::Sente)), Some((Kind::King, false, Owner::Sente)),
        ],
        hand_sente: [0; 4],
        hand_gote: [0; 4],
        turn: Owner::Sente,
    };
    assert(p.board@ =~= initial_view().board);
    assert(p.hand_sente@ =~= initial_view().hand_sente);
    assert(p.hand_gote@ =~= initial_view().hand_gote);
    p
}

} // verus!
