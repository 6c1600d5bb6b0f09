//! Position notation: `side / rank0 / rank1 / rank2 / rank3 / rank4 / hand`,
//! e.g. the start position `S/kbgs/p---/----/---P/SGBK/-`.
//!
//! A piece is written by the letter of the face it shows (King K, Gold G / Rook R,
//! Silver S / Lance L, Bishop B / Tokin T, Pawn P / Knight N), uppercase for
//! Sente and lowercase for Gote; `-` is an empty square. The hand lists Sente's
//! pieces then Gote's, by kind (Gold, Silver, Bishop, Pawn), or is `-`.
use vstd::prelude::*;
use crate::rules::{Cell, Kind, Owner, PosView, Position, hand_kind, hand_slot, slot_kind};

verus! {

broadcast use vstd::array::group_array_axioms;

// ---------------------------------------------------------------------------
// Letters
// ---------------------------------------------------------------------------

/// The uppercase letter of a face.
pub open spec fn face_letter(k: Kind, promo: bool) -> char {
    match k {
        Kind::King => 'K',
        Kind::Gold => if promo { 'R' } else { 'G' },
        Kind::Silver => if promo { 'L' } else { 'S' },
        Kind::Bishop => if promo { 'T' } else { 'B' },
        Kind::Pawn => if promo { 'N' } else { 'P' },
    }
}

/// ASCII lowercase of a letter.
pub open spec fn lower_spec(c: char) -> char {
    if 'A' <= c <= 'Z' {
        ((c as u32) + 32) as char
    } else {
        c
    }
}

/// The cell read from a piece letter (either case); `None` for any other char.
pub open spec fn char_cell_spec(c: char) -> Option<(Kind, bool, Owner)> {
    let owner = if 'A' <= c <= 'Z' { Owner::Sente } else { Owner::Gote };
    if c == 'K' || c == 'k' {
        Some((Kind::King, false, owner))
    } else if c == 'G' || c == 'g' {
        Some((Kind::Gold, false, owner))
    } else if c == 'R' || c == 'r' {
        Some((Kind::Gold, true, owner))
    } else if c == 'S' || c == 's' {
        Some((Kind::Silver, false, owner))
    } else if c == 'L' || c == 'l' {
        Some((Kind::Silver, true, owner))
    } else if c == 'B' || c == 'b' {
        Some((Kind::Bishop, false, owner))
    } else if c == 'T' || c == 't' {
        Some((Kind::Bishop, true, owner))
    } else if c == 'P' || c == 'p' {
        Some((Kind::Pawn, false, owner))
    } else if c == 'N' || c == 'n' {
        Some((Kind::Pawn, true, owner))
    } else {
        None
    }
}

/// The character written for a board cell.
pub open spec fn cell_text(c: Cell) -> char {
    match c {
        None => '-',
        Some(t) => if t.2 == Owner::Sente {
            face_letter(t.0, t.1)
        } else {
            lower_spec(face_letter(t.0, t.1))
        },
    }
}

// ---------------------------------------------------------------------------
// Writing
// ---------------------------------------------------------------------------

pub open spec fn row_text(b: Seq<Cell>, r: int) -> Seq<char> {
    Seq::new(4, |f: int| cell_text(b[r * 4 + f]))
}

/// `/row0/row1/.../row(n-1)`.
pub open spec fn rows_text(b: Seq<Cell>, n: int) -> Seq<char>
    decreases n,
{
    if n <= 0 {
        seq![]
    } else {
        rows_text(b, n - 1) + seq!['/'] + row_text(b, n - 1)
    }
}

pub open spec fn repeat_char(c: char, n: nat) -> Seq<char> {
    Seq::new(n, |i: int| c)
}

/// Letters for the first `n` hand slots: each kind repeated by its count.
pub open spec fn hand_text(h: Seq<u8>, n: int, gote: bool) -> Seq<char>
    decreases n,
{
    if n <= 0 {
        seq![]
    } else {
        let letter = face_letter(slot_kind(n - 1), false);
        hand_text(h, n - 1, gote) + repeat_char(if gote { lower_spec(letter) } else { letter }, h[n - 1] as nat)
    }
}

pub open spec fn format_spec(v: PosView) -> Seq<char> {
    let side = if v.turn == Owner::Sente { 'S' } else { 'G' };
    let hand = hand_text(v.hand_sente, 4, false) + hand_text(v.hand_gote, 4, true);
    seq![side] + rows_text(v.board, 5) + seq!['/'] + if hand.len() == 0 {
        seq!['-']
    } else {
        hand
    }
}

// ---------------------------------------------------------------------------
// Reading
// ---------------------------------------------------------------------------

/// Unicode White_Space, as `char::is_whitespace` defines it.
pub open spec fn is_ws(c: char) -> bool {
    let u = c as u32;
    ||| 0x9 <= u <= 0xD
    ||| u == 0x20
    ||| u == 0x85
    ||| u == 0xA0
    ||| u == 0x1680
    ||| 0x2000 <= u <= 0x200A
    ||| u == 0x2028
    ||| u == 0x2029
    ||| u == 0x202F
    ||| u == 0x205F
    ||| u == 0x3000
}

/// Index of the first non-whitespace char at or after `i`.
pub open spec fn lead_end(s: Seq<char>, i: int) -> int
    decreases s.len() - i,
{
    if 0 <= i < s.len() && is_ws(s[i]) {
        lead_end(s, i + 1)
    } else {
        i
    }
}

/// End of `s[lo..j]` once trailing whitespace is removed.
pub open spec fn trail_end(s: Seq<char>, lo: int, j: int) -> int
    decreases j - lo,
{
    if lo < j && j <= s.len() && is_ws(s[j - 1]) {
        trail_end(s, lo, j - 1)
    } else {
        j
    }
}

/// `s` without leading and trailing whitespace.
pub open spec fn trim_spec(s: Seq<char>) -> Seq<char> {
    let lo = lead_end(s, 0);
    s.subrange(lo, trail_end(s, lo, s.len() as int))
}

/// The fields of `s` between `/` separators (an empty `s` is one empty field).
pub open spec fn split_spec(s: Seq<char>) -> Seq<Seq<char>>
    decreases s.len(),
{
    if s.len() == 0 {
        seq![seq![]]
    } else {
        let pre = split_spec(s.drop_last());
        if s.last() == '/' {
            pre.push(seq![])
        } else {
            pre.update(pre.len() - 1, pre.last().push(s.last()))
        }
    }
}

/// State of reading the hand field left to right.
pub enum HandScan {
    /// Counts so far: Sente's slots, Gote's slots.
    Counts(Seq<u8>, Seq<u8>),
    /// A char that is no piece letter: the notation is rejected.
    Invalid,
    /// A King letter, or a count past 255: reading has no defined result.
    Fault,
}

pub open spec fn scan_step(st: HandScan, c: char) -> HandScan {
    match st {
        HandScan::Counts(hs, hg) => match char_cell_spec(c) {
            None => HandScan::Invalid,
            Some(t) => if t.0 == Kind::King {
                HandScan::Fault
            } else if t.2 == Owner::Sente {
                if hs[hand_slot(t.0)] == 255 {
                    HandScan::Fault
                } else {
                    HandScan::Counts(hs.update(hand_slot(t.0), (hs[hand_slot(t.0)] + 1) as u8), hg)
                }
            } else {
                if hg[hand_slot(t.0)] == 255 {
                    HandScan::Fault
                } else {
                    HandScan::Counts(hs, hg.update(hand_slot(t.0), (hg[hand_slot(t.0)] + 1) as u8))
                }
            },
        },
        other => other,
    }
}

pub open spec fn zero_hand() -> Seq<u8> {
    seq![0u8, 0u8, 0u8, 0u8]
}

/// Read the chars of `h` in order, starting from `st`.
pub open spec fn scan_from(st: HandScan, h: Seq<char>) -> HandScan
    decreases h.len(),
{
    if h.len() == 0 {
        st
    } else {
        scan_step(scan_from(st, h.drop_last()), h.last())
    }
}

pub open spec fn scan_hand(h: Seq<char>) -> HandScan {
    scan_from(HandScan::Counts(zero_hand(), zero_hand()), h)
}

pub open spec fn row_ok(row: Seq<char>) -> bool {
    row.len() == 4 && forall|f: int| 0 <= f < 4 ==> (#[trigger] row[f] == '-' || char_cell_spec(row[f]) is Some)
}

pub open spec fn rows_ok(parts: Seq<Seq<char>>) -> bool {
    forall|r: int| 1 <= r <= 5 ==> row_ok(#[trigger] parts[r])
}

pub open spec fn square_cell(ch: char) -> Cell {
    if ch == '-' {
        None
    } else {
        char_cell_spec(ch)
    }
}

pub open spec fn board_of(parts: Seq<Seq<char>>) -> Seq<Cell> {
    Seq::new(20, |sq: int| square_cell(parts[1 + sq / 4][sq % 4]))
}

pub open spec fn parts_of(s: Seq<char>) -> Seq<Seq<char>> {
    split_spec(trim_spec(s))
}

/// The layout is right up to the hand: seven fields, a side, five rows of four.
pub open spec fn frame_ok(parts: Seq<Seq<char>>) -> bool {
    &&& parts.len() == 7
    &&& (parts[0] == seq!['S'] || parts[0] == seq!['G'])
    &&& rows_ok(parts)
}

/// Reading has a defined result: no King letter and no count past 255 is met in
/// the hand before the text is rejected.
pub open spec fn parse_defined(s: Seq<char>) -> bool {
    let parts = parts_of(s);
    !(frame_ok(parts) && parts[6] != seq!['-'] && scan_hand(parts[6]) is Fault)
}

/// The position a notation string denotes, or `None` when it is malformed.
pub open spec fn parse_spec(s: Seq<char>) -> Option<PosView> {
    let parts = parts_of(s);
    if !frame_ok(parts) {
        None
    } else {
        let turn = if parts[0] == seq!['S'] { Owner::Sente } else { Owner::Gote };
        let board = board_of(parts);
        if parts[6] == seq!['-'] {
            Some(PosView { board, hand_sente: zero_hand(), hand_gote: zero_hand(), turn })
        } else {
            match scan_hand(parts[6]) {
                HandScan::Counts(hs, hg) => Some(PosView { board, hand_sente: hs, hand_gote: hg, turn }),
                _ => None,
            }
        }
    }
}


// ---------------------------------------------------------------------------
// Reading what was written
// ---------------------------------------------------------------------------

proof fn lemma_split_nonempty(a: Seq<char>)
    ensures
        split_spec(a).len() >= 1,
    decreases a.len(),
{
    if a.len() > 0 {
        lemma_split_nonempty(a.drop_last());
    }
}

/// Splitting at a separator splits the two sides independently.
proof fn lemma_split_join(a: Seq<char>, b: Seq<char>)
    ensures
        split_spec(a + seq!['/'] + b) == split_spec(a) + split_spec(b),
    decreases b.len(),
{
    if b.len() == 0 {
        assert(a + seq!['/'] + b =~= a.push('/'));
        assert(a.push('/').drop_last() =~= a);
        assert(split_spec(a) + split_spec(b) =~= split_spec(a).push(seq![]));
    } else {
        let b1 = b.drop_last();
        lemma_split_join(a, b1);
        assert((a + seq!['/'] + b).drop_last() =~= a + seq!['/'] + b1);
        assert((a + seq!['/'] + b).last() == b.last());
        let sa = split_spec(a);
        let sb1 = split_spec(b1);
        lemma_split_nonempty(b1);
        if b.last() == '/' {
            assert(sa + sb1.push(seq![]) =~= (sa + sb1).push(seq![]));
        } else {
            let pre = sa + sb1;
            assert(sa + sb1.update(sb1.len() - 1, sb1.last().push(b.last())) =~= pre.update(
                pre.len() - 1,
                pre.last().push(b.last()),
            ));
        }
    }
}

/// A text without separators is a single field.
proof fn lemma_split_single(a: Seq<char>)
    requires
        forall|i: int| 0 <= i < a.len() ==> #[trigger] a[i] != '/',
    ensures
        split_spec(a) == seq![a],
    decreases a.len(),
{
    if a.len() > 0 {
        lemma_split_single(a.drop_last());
        assert(a.drop_last().push(a.last()) =~= a);
        assert(seq![a.drop_last()].update(0, a.drop_last().push(a.last())) =~= seq![a]);
    } else {
        assert(a =~= seq![]);
    }
}

pub open spec fn cell_written(c: Cell) -> bool {
    c matches Some(t) ==> (t.0 == Kind::King ==> !t.1)
}

/// The char written for a canonical cell reads back as that cell.
proof fn lemma_cell_text(c: Cell)
    requires
        cell_written(c),
    ensures
        square_cell(cell_text(c)) == c,
        cell_text(c) != '/',
        !is_ws(cell_text(c)),
        cell_text(c) == '-' || char_cell_spec(cell_text(c)) is Some,
{
}

proof fn lemma_split_rows(side: char, b: Seq<Cell>, n: int)
    requires
        0 <= n <= 5,
        side != '/',
        b.len() == 20,
        forall|sq: int| 0 <= sq < 20 ==> cell_written(#[trigger] b[sq]),
    ensures
        split_spec(seq![side] + rows_text(b, n)) == seq![seq![side]] + Seq::new(n as nat, |r: int| row_text(b, r)),
    decreases n,
{
    if n == 0 {
        assert(seq![side] + rows_text(b, n) =~= seq![side]);
        lemma_split_single(seq![side]);
        assert(seq![seq![side]] + Seq::new(n as nat, |r: int| row_text(b, r)) =~= seq![seq![side]]);
    } else {
        lemma_split_rows(side, b, n - 1);
        let row = row_text(b, n - 1);
        assert forall|f: int| 0 <= f < row.len() implies #[trigger] row[f] != '/' by {
            lemma_cell_text(b[(n - 1) * 4 + f]);
        }
        lemma_split_single(row);
        assert(seq![side] + rows_text(b, n) =~= (seq![side] + rows_text(b, n - 1)) + seq!['/'] + row);
        lemma_split_join(seq![side] + rows_text(b, n - 1), row);
        assert(seq![seq![side]] + Seq::new(n as nat, |r: int| row_text(b, r)) =~= seq![seq![side]] + Seq::new(
            (n - 1) as nat,
            |r: int| row_text(b, r),
        ) + seq![row]);
    }
}

proof fn lemma_scan_append(st: HandScan, a: Seq<char>, b: Seq<char>)
    ensures
        scan_from(st, a + b) == scan_from(scan_from(st, a), b),
    decreases b.len(),
{
    if b.len() == 0 {
        assert(a + b =~= a);
    } else {
        assert((a + b).drop_last() =~= a + b.drop_last());
        assert((a + b).last() == b.last());
        lemma_scan_append(st, a, b.drop_last());
    }
}

/// Counts of the first `k` slots of `h`, zero for the rest.
pub open spec fn partial_hand(h: Seq<u8>, k: int) -> Seq<u8> {
    Seq::new(4, |j: int| if j < k { h[j] } else { 0u8 })
}

pub open spec fn slot_letter(slot: int, gote: bool) -> char {
    if gote {
        lower_spec(face_letter(slot_kind(slot), false))
    } else {
        face_letter(slot_kind(slot), false)
    }
}

proof fn lemma_scan_repeat(hs: Seq<u8>, hg: Seq<u8>, slot: int, gote: bool, n: nat)
    requires
        0 <= slot < 4,
        hs.len() == 4,
        hg.len() == 4,
        gote ==> hg[slot] + n <= 255,
        !gote ==> hs[slot] + n <= 255,
    ensures
        scan_from(HandScan::Counts(hs, hg), repeat_char(slot_letter(slot, gote), n)) == if gote {
            HandScan::Counts(hs, hg.update(slot, (hg[slot] + n) as u8))
        } else {
            HandScan::Counts(hs.update(slot, (hs[slot] + n) as u8), hg)
        },
    decreases n,
{
    let letter = slot_letter(slot, gote);
    if n == 0 {
        assert(hs.update(slot, (hs[slot] + n) as u8) =~= hs);
        assert(hg.update(slot, (hg[slot] + n) as u8) =~= hg);
    } else {
        lemma_scan_repeat(hs, hg, slot, gote, (n - 1) as nat);
        assert(repeat_char(letter, n).drop_last() =~= repeat_char(letter, (n - 1) as nat));
        assert(repeat_char(letter, n).last() == letter);
        assert(char_cell_spec(letter) == Some((slot_kind(slot), false, if gote { Owner::Gote } else { Owner::Sente })));
        assert(hand_slot(slot_kind(slot)) == slot);
        if gote {
            assert(hg.update(slot, (hg[slot] + (n - 1)) as u8).update(slot, (hg[slot] + n) as u8) =~= hg.update(
                slot,
                (hg[slot] + n) as u8,
            ));
        } else {
            assert(hs.update(slot, (hs[slot] + (n - 1)) as u8).update(slot, (hs[slot] + n) as u8) =~= hs.update(
                slot,
                (hs[slot] + n) as u8,
            ));
        }
    }
}

proof fn lemma_scan_hand_text(other: Seq<u8>, h: Seq<u8>, gote: bool, k: int)
    requires
        0 <= k <= 4,
        other.len() == 4,
        h.len() == 4,
    ensures
        gote ==> scan_from(HandScan::Counts(other, zero_hand()), hand_text(h, k, true)) == HandScan::Counts(
            other,
            partial_hand(h, k),
        ),
        !gote ==> scan_from(HandScan::Counts(zero_hand(), other), hand_text(h, k, false)) == HandScan::Counts(
            partial_hand(h, k),
            other,
        ),
    decreases k,
{
    if k == 0 {
        assert(partial_hand(h, 0) =~= zero_hand());
    } else {
        lemma_scan_hand_text(other, h, gote, k - 1);
        let rep = repeat_char(slot_letter(k - 1, gote), h[k - 1] as nat);
        assert(hand_text(h, k, gote) == hand_text(h, k - 1, gote) + rep);
        let ph = partial_hand(h, k - 1);
        assert(ph.update(k - 1, (ph[k - 1] + h[k - 1]) as u8) =~= partial_hand(h, k));
        if gote {
            lemma_scan_append(HandScan::Counts(other, zero_hand()), hand_text(h, k - 1, true), rep);
            lemma_scan_repeat(other, ph, k - 1, true, h[k - 1] as nat);
        } else {
            lemma_scan_append(HandScan::Counts(zero_hand(), other), hand_text(h, k - 1, false), rep);
            lemma_scan_repeat(ph, other, k - 1, false, h[k - 1] as nat);
        }
    }
}

proof fn lemma_hand_text_plain(h: Seq<u8>, k: int, gote: bool)
    requires
        0 <= k <= 4,
    ensures
        forall|i: int| 0 <= i < hand_text(h, k, gote).len() ==> {
            let c = #[trigger] hand_text(h, k, gote)[i];
            c != '/' && !is_ws(c) && c != '-'
        },
    decreases k,
{
    if k > 0 {
        lemma_hand_text_plain(h, k - 1, gote);
        let rep = repeat_char(slot_letter(k - 1, gote), h[k - 1] as nat);
        assert(hand_text(h, k, gote) == hand_text(h, k - 1, gote) + rep);
        assert forall|i: int| 0 <= i < hand_text(h, k, gote).len() implies {
            let c = #[trigger] hand_text(h, k, gote)[i];
            c != '/' && !is_ws(c) && c != '-'
        } by {
            if i >= hand_text(h, k - 1, gote).len() {
                assert(hand_text(h, k, gote)[i] == rep[i - hand_text(h, k - 1, gote).len()]);
            } else {
                assert(hand_text(h, k, gote)[i] == hand_text(h, k - 1, gote)[i]);
            }
        }
    }
}

/// The positions that notation writes exactly: every King unpromoted.
pub open spec fn notation_valid(v: PosView) -> bool {
    &&& v.board.len() == 20
    &&& v.hand_sente.len() == 4
    &&& v.hand_gote.len() == 4
    &&& forall|sq: int| 0 <= sq < 20 ==> cell_written(#[trigger] v.board[sq])
}

/// Reading what `format` writes gives the position back.
pub proof fn lemma_parse_format(v: PosView)
    requires
        notation_valid(v),
    ensures
        parse_defined(format_spec(v)),
        parse_spec(format_spec(v)) == Some(v),
{
    let s = format_spec(v);
    let side = if v.turn == Owner::Sente { 'S' } else { 'G' };
    let hand = hand_text(v.hand_sente, 4, false) + hand_text(v.hand_gote, 4, true);
    let hpart = if hand.len() == 0 { seq!['-'] } else { hand };
    lemma_hand_text_plain(v.hand_sente, 4, false);
    lemma_hand_text_plain(v.hand_gote, 4, true);
    assert forall|i: int| 0 <= i < hpart.len() implies {
        let c = #[trigger] hpart[i];
        c != '/' && !is_ws(c)
    } by {
        if hand.len() != 0 {
            if i < hand_text(v.hand_sente, 4, false).len() {
                assert(hpart[i] == hand_text(v.hand_sente, 4, false)[i]);
            } else {
                assert(hpart[i] == hand_text(v.hand_gote, 4, true)[i - hand_text(v.hand_sente, 4, false).len()]);
            }
        }
    }
    // trimming keeps the whole text
    assert(s == seq![side] + rows_text(v.board, 5) + seq!['/'] + hpart);
    assert(s[0] == side);
    assert(s.last() == hpart.last());
    assert(lead_end(s, 0) == 0);
    assert(trail_end(s, 0, s.len() as int) == s.len());
    assert(s.subrange(0, s.len() as int) =~= s);
    assert(trim_spec(s) == s);
    // fields
    lemma_split_rows(side, v.board, 5);
    lemma_split_single(hpart);
    lemma_split_join(seq![side] + rows_text(v.board, 5), hpart);
    let parts = parts_of(s);
    assert(parts == seq![seq![side]] + Seq::new(5, |r: int| row_text(v.board, r)) + seq![hpart]);
    assert(parts.len() == 7);
    assert(parts[0] == seq![side]);
    assert(parts[6] == hpart);
    assert forall|r: int| 1 <= r <= 5 implies #[trigger] parts[r] == row_text(v.board, r - 1) by {}
    assert forall|r: int| 1 <= r <= 5 implies row_ok(#[trigger] parts[r]) by {
        assert forall|f: int| 0 <= f < 4 implies (#[trigger] parts[r][f] == '-' || char_cell_spec(parts[r][f]) is Some) by {
            lemma_cell_text(v.board[(r - 1) * 4 + f]);
        }
    }
    assert(seq!['S'] != seq!['G']) by {
        assert(seq!['S'][0] != seq!['G'][0]);
    }
    assert(frame_ok(parts));
    assert forall|sq: int| 0 <= sq < 20 implies #[trigger] board_of(parts)[sq] == v.board[sq] by {
        assert(parts[1 + sq / 4] == row_text(v.board, sq / 4));
        assert(sq / 4 * 4 + sq % 4 == sq);
        lemma_cell_text(v.board[sq]);
    }
    assert(board_of(parts) =~= v.board);
    if hand.len() == 0 {
        assert(hand_text(v.hand_sente, 4, false).len() == 0);
        lemma_scan_hand_text(zero_hand(), v.hand_sente, false, 4);
        lemma_scan_hand_text(zero_hand(), v.hand_gote, true, 4);
        assert(v.hand_sente =~= zero_hand()) by {
            assert(scan_from(HandScan::Counts(zero_hand(), zero_hand()), hand_text(v.hand_sente, 4, false)) == HandScan::Counts(
                zero_hand(),
                zero_hand(),
            ));
            assert(partial_hand(v.hand_sente, 4) =~= v.hand_sente);
        }
        assert(v.hand_gote =~= zero_hand()) by {
            assert(partial_hand(v.hand_gote, 4) =~= v.hand_gote);
        }
    } else {
        assert(hpart != seq!['-']) by {
            if hpart == seq!['-'] {
                assert(hpart[0] == '-');
            }
        }
        lemma_scan_hand_text(zero_hand(), v.hand_sente, false, 4);
        lemma_scan_hand_text(v.hand_sente, v.hand_gote, true, 4);
        assert(partial_hand(v.hand_sente, 4) =~= v.hand_sente);
        assert(partial_hand(v.hand_gote, 4) =~= v.hand_gote);
        lemma_scan_append(
            HandScan::Counts(zero_hand(), zero_hand()),
            hand_text(v.hand_sente, 4, false),
            hand_text(v.hand_gote, 4, true),
        );
    }
}

// ---------------------------------------------------------------------------
// Executable notation
// ---------------------------------------------------------------------------

/// Appends one char to a `String`: std's `String::push`, whose result is the old
/// contents followed by `c`.
#[verifier::external_body]
pub(crate) fn push_char(s: &mut String, c: char)
    ensures
        final(s)@ == old(s)@.push(c),
{
    s.push(c);
}

/// The uppercase letter of a face.
pub fn cell_char(k: Kind, promo: bool) -> (c: char)
    ensures
        c == face_letter(k, promo),
{
    match k {
        Kind::King => 'K',
        Kind::Gold => if promo { 'R' } else { 'G' },
        Kind::Silver => if promo { 'L' } else { 'S' },
        Kind::Bishop => if promo { 'T' } else { 'B' },
        Kind::Pawn => if promo { 'N' } else { 'P' },
    }
}

/// ASCII lowercase (`char::to_ascii_lowercase`).
pub fn to_ascii_lowercase(c: char) -> (r: char)
    ensures
        r == lower_spec(c),
{
    if 'A' <= c && c <= 'Z' {
        ((c as u8) + 32) as char
    } else {
        c
    }
}

/// The cell a piece letter denotes (uppercase = Sente), or `None`.
pub fn char_cell(c: char) -> (r: Option<(Kind, bool, Owner)>)
    ensures
        r == char_cell_spec(c),
{
    let owner = if 'A' <= c && c <= 'Z' { Owner::Sente } else { Owner::Gote };
    if c == 'K' || c == 'k' {
        Some((Kind::King, false, owner))
    } else if c == 'G' || c == 'g' {
        Some((Kind::Gold, false, owner))
    } else if c == 'R' || c == 'r' {
        Some((Kind::Gold, true, owner))
    } else if c == 'S' || c == 's' {
        Some((Kind::Silver, false, owner))
    } else if c == 'L' || c == 'l' {
        Some((Kind::Silver, true, owner))
    } else if c == 'B' || c == 'b' {
        Some((Kind::Bishop, false, owner))
    } else if c == 'T' || c == 't' {
        Some((Kind::Bishop, true, owner))
    } else if c == 'P' || c == 'p' {
        Some((Kind::Pawn, false, owner))
    } else if c == 'N' || c == 'n' {
        Some((Kind::Pawn, true, owner))
    } else {
        None
    }
}

/// Write a position in notation.
pub fn format(p: &Position) -> (s: String)
    ensures
        s@ == format_spec(p@),
{
    let mut s = String::new();
    push_char(&mut s, if p.turn == Owner::Sente { 'S' } else { 'G' });
    let ghost side = s@;
    let mut r: usize = 0;
    while r < 5
        invariant
            r <= 5,
            s@ == side + rows_text(p.board@, r as int),
        decreases 5 - r,
    {
        push_char(&mut s, '/');
        let ghost before = s@;
        let mut f: usize = 0;
        while f < 4
            invariant
                r < 5,
                f <= 4,
                s@ == before + row_text(p.board@, r as int).take(f as int),
            decreases 4 - f,
        {
            match p.board[r * 4 + f] {
                None => push_char(&mut s, '-'),
                Some((k, promo, o)) => {
                    let ch = cell_char(k, promo);
                    push_char(&mut s, if o == Owner::Sente { ch } else { to_ascii_lowercase(ch) });
                },
            }
            assert(row_text(p.board@, r as int).take(f + 1) =~= row_text(p.board@, r as int).take(f as int).push(
                cell_text(p.board@[r * 4 + f]),
            ));
            f += 1;
        }
        assert(row_text(p.board@, r as int).take(4) =~= row_text(p.board@, r as int));
        assert(rows_text(p.board@, r + 1) == rows_text(p.board@, r as int) + seq!['/'] + row_text(p.board@, r as int));
        r += 1;
    }
    push_char(&mut s, '/');
    let mut hand = String::new();
    let mut i: usize = 0;
    while i < 4
        invariant
            i <= 4,
            hand@ == hand_text(p.hand_sente@, i as int, false),
        decreases 4 - i,
    {
        let letter = cell_char(hand_kind(i), false);
        let ghost before = hand@;
        let n = p.hand_sente[i];
        let mut j: u8 = 0;
        while j < n
            invariant
                j <= n,
                hand@ == before + repeat_char(letter, j as nat),
            decreases n - j,
        {
            push_char(&mut hand, letter);
            assert(repeat_char(letter, (j + 1) as nat) =~= repeat_char(letter, j as nat).push(letter));
            j += 1;
        }
        i += 1;
    }
    let ghost sente_text = hand@;
    let mut i: usize = 0;
    while i < 4
        invariant
            i <= 4,
            hand@ == sente_text + hand_text(p.hand_gote@, i as int, true),
        decreases 4 - i,
    {
        let letter = to_ascii_lowercase(cell_char(hand_kind(i), false));
        let ghost before = hand@;
        let n = p.hand_gote[i];
        let mut j: u8 = 0;
        while j < n
            invariant
                j <= n,
                hand@ == before + repeat_char(letter, j as nat),
            decreases n - j,
        {
            push_char(&mut hand, letter);
            assert(repeat_char(letter, (j + 1) as nat) =~= repeat_char(letter, j as nat).push(letter));
            j += 1;
        }
        assert(sente_text + hand_text(p.hand_gote@, i + 1, true) =~= before + repeat_char(letter, n as nat));
        i += 1;
    }
    if hand.as_str().is_empty() {
        push_char(&mut hand, '-');
        assert(hand@ =~= seq!['-']);
    }
    s.append(hand.as_str());
    assert(s@ =~= format_spec(p@));
    s
}


/// The chars of `s`, in order.
pub(crate) fn chars_of(s: &str) -> (v: Vec<char>)
    ensures
        v@ == s@,
{
    let mut v: Vec<char> = Vec::new();
    for c in it: s.chars()
        invariant
            v@ == it.seq().take(it.index() as int),
    {
        v.push(c);
    }
    v
}


/// `char::is_whitespace`: the Unicode White_Space property.
pub fn is_whitespace(c: char) -> (b: bool)
    ensures
        b == is_ws(c),
{
    let u = c as u32;
    (0x9 <= u && u <= 0xD) || u == 0x20 || u == 0x85 || u == 0xA0 || u == 0x1680 || (0x2000 <= u && u
        <= 0x200A) || u == 0x2028 || u == 0x2029 || u == 0x202F || u == 0x205F || u == 0x3000
}

/// Once reading the hand has failed, the rest of the hand does not matter.
proof fn lemma_scan_absorbs(st: HandScan, h: Seq<char>, i: int)
    requires
        0 <= i <= h.len(),
        !(scan_from(st, h.take(i)) is Counts),
    ensures
        scan_from(st, h) == scan_from(st, h.take(i)),
    decreases h.len() - i,
{
    if i < h.len() {
        assert(h.take(i + 1).drop_last() =~= h.take(i));
        lemma_scan_absorbs(st, h, i + 1);
    } else {
        assert(h.take(i) =~= h);
    }
}

/// Read a position from notation; `None` when the text is malformed.
pub fn parse(s: &str) -> (r: Option<Position>)
    requires
        parse_defined(s@),
    ensures
        r is None <==> parse_spec(s@) is None,
        r matches Some(p) ==> parse_spec(s@) == Some(p@),
{
    let cs = chars_of(s);
    let n = cs.len();
    // trim
    let mut lo: usize = 0;
    while lo < n && is_whitespace(cs[lo])
        invariant
            lo <= n,
            n == cs@.len(),
            lead_end(cs@, 0) == lead_end(cs@, lo as int),
        decreases n - lo,
    {
        lo += 1;
    }
    let mut hi: usize = n;
    while hi > lo && is_whitespace(cs[hi - 1])
        invariant
            lo <= hi <= n,
            n == cs@.len(),
            trail_end(cs@, lo as int, n as int) == trail_end(cs@, lo as int, hi as int),
        decreases hi,
    {
        hi -= 1;
    }
    let ghost t = cs@.subrange(lo as int, hi as int);
    assert(t == trim_spec(s@));
    // split on '/'
    let mut parts: Vec<Vec<char>> = Vec::new();
    let mut cur: Vec<char> = Vec::new();
    let mut i: usize = lo;
    assert(t.take(0) =~= seq![]);
    assert(parts@.map_values(|v: Vec<char>| v@) + seq![cur@] =~= split_spec(t.take(0)));
    while i < hi
        invariant
            lo <= i <= hi <= n,
            n == cs@.len(),
            t == cs@.subrange(lo as int, hi as int),
            parts@.map_values(|v: Vec<char>| v@) + seq![cur@] == split_spec(t.take(i - lo)),
        decreases hi - i,
    {
        let ghost k = i - lo;
        let ghost pre = split_spec(t.take(k));
        assert(t.take(k + 1).drop_last() =~= t.take(k));
        assert(t.take(k + 1).last() == cs@[i as int]);
        let c = cs[i];
        if c == '/' {
            let done = cur;
            parts.push(done);
            cur = Vec::new();
            assert(parts@.map_values(|v: Vec<char>| v@) + seq![cur@] =~= pre.push(seq![]));
        } else {
            cur.push(c);
            assert(parts@.map_values(|v: Vec<char>| v@) + seq![cur@] =~= pre.update(pre.len() - 1, pre.last().push(c)));
        }
        i += 1;
    }
    assert(t.take(hi - lo) =~= t);
    parts.push(cur);
    let ghost model = parts@.map_values(|v: Vec<char>| v@);
    assert(model == split_spec(t));
    assert(model == parts_of(s@));
    if parts.len() != 7 {
        return None;
    }
    let turn = if parts[0].len() == 1 && parts[0][0] == 'S' {
        assert(model[0] =~= seq!['S']);
        Owner::Sente
    } else if parts[0].len() == 1 && parts[0][0] == 'G' {
        assert(model[0] =~= seq!['G']);
        assert(model[0] != seq!['S']);
        Owner::Gote
    } else {
        assert(model[0] != seq!['S'] && model[0] != seq!['G']) by {
            if model[0] == seq!['S'] {
                assert(model[0].len() == 1 && model[0][0] == 'S');
            }
            if model[0] == seq!['G'] {
                assert(model[0].len() == 1 && model[0][0] == 'G');
            }
        }
        return None;
    };
    // board rows
    let mut board: [Cell; 20] = [None; 20];
    let mut r: usize = 0;
    while r < 5
        invariant
            r <= 5,
            parts@.len() == 7,
            model == parts@.map_values(|v: Vec<char>| v@),
            model == parts_of(s@),
            forall|rr: int| 1 <= rr <= r ==> row_ok(#[trigger] model[rr]),
            forall|sq: int| 0 <= sq < 4 * r ==> #[trigger] board@[sq] == square_cell(model[1 + sq / 4][sq % 4]),
            forall|sq: int| 4 * r <= sq < 20 ==> #[trigger] board@[sq] == None::<(Kind, bool, Owner)>,
        decreases 5 - r,
    {
        let row = &parts[1 + r];
        assert(row@ == model[1 + r]);
        if row.len() != 4 {
            assert(!row_ok(model[1 + r as int]));
            return None;
        }
        let mut f: usize = 0;
        while f < 4
            invariant
                r < 5,
                f <= 4,
                row@ == model[1 + r],
                row@.len() == 4,
                model == parts_of(s@),
                forall|ff: int| 0 <= ff < f ==> (#[trigger] row@[ff] == '-' || char_cell_spec(row@[ff]) is Some),
                forall|sq: int| 0 <= sq < 4 * r + f ==> #[trigger] board@[sq] == square_cell(model[1 + sq / 4][sq % 4]),
                forall|sq: int| 4 * r + f <= sq < 20 ==> #[trigger] board@[sq] == None::<(Kind, bool, Owner)>,
            decreases 4 - f,
        {
            let ch = row[f];
            if ch != '-' {
                match char_cell(ch) {
                    Some(c) => {
                        board[r * 4 + f] = Some(c);
                    },
                    None => {
                        assert(!row_ok(model[1 + r as int]));
                        return None;
                    },
                }
            }
            assert(square_cell(model[1 + (4 * r + f) / 4][(4 * r + f) % 4]) == square_cell(ch));
            f += 1;
        }
        assert(row_ok(model[1 + r as int]));
        r += 1;
    }
    assert(rows_ok(model));
    assert(frame_ok(model));
    // hand
    let mut hand_sente: [u8; 4] = [0; 4];
    let mut hand_gote: [u8; 4] = [0; 4];
    let h = &parts[6];
    assert(h@ == model[6]);
    if h.len() == 1 && h[0] == '-' {
        assert(model[6] =~= seq!['-']);
        assert(hand_sente@ =~= zero_hand());
        assert(hand_gote@ =~= zero_hand());
    } else {
        assert(model[6] != seq!['-']) by {
            if model[6] == seq!['-'] {
                assert(model[6].len() == 1 && model[6][0] == '-');
            }
        }
        let mut i: usize = 0;
        assert(h@.take(0) =~= seq![]);
        assert(hand_sente@ =~= zero_hand());
        assert(hand_gote@ =~= zero_hand());
        while i < h.len()
            invariant
                i <= h@.len(),
                h@ == model[6],
                model[6] != seq!['-'],
                frame_ok(model),
                parse_defined(s@),
                model == parts_of(s@),
                scan_hand(h@.take(i as int)) == HandScan::Counts(hand_sente@, hand_gote@),
            decreases h@.len() - i,
        {
            let ghost before = scan_hand(h@.take(i as int));
            assert(h@.take(i + 1).drop_last() =~= h@.take(i as int));
            assert(h@.take(i + 1).last() == h@[i as int]);
            assert(scan_hand(h@.take(i + 1)) == scan_step(before, h@[i as int]));
            match char_cell(h[i]) {
                None => {
                    proof {
                        lemma_scan_absorbs(HandScan::Counts(zero_hand(), zero_hand()), h@, i + 1);
                    }
                    return None;
                },
                Some((k, _, o)) => {
                    if k == Kind::King {
                        proof {
                            lemma_scan_absorbs(HandScan::Counts(zero_hand(), zero_hand()), h@, i + 1);
                        }
                        assert(false);
                    }
                    let hi = k.hand_index();
                    match o {
                        Owner::Sente => {
                            if hand_sente[hi] == 255 {
                                proof {
                                    lemma_scan_absorbs(HandScan::Counts(zero_hand(), zero_hand()), h@, i + 1);
                                }
                                assert(false);
                            }
                            hand_sente[hi] = hand_sente[hi] + 1;
                        },
                        Owner::Gote => {
                            if hand_gote[hi] == 255 {
                                proof {
                                    lemma_scan_absorbs(HandScan::Counts(zero_hand(), zero_hand()), h@, i + 1);
                                }
                                assert(false);
                            }
                            hand_gote[hi] = hand_gote[hi] + 1;
                        },
                    }
                    assert(scan_hand(h@.take(i + 1)) == HandScan::Counts(hand_sente@, hand_gote@));
                },
            }
            i += 1;
        }
        assert(h@.take(h@.len() as int) =~= h@);
    }
    let p = Position { board, hand_sente, hand_gote, turn };
    assert(p@.board =~= board_of(model));
    assert(turn == (if model[0] == seq!['S'] { Owner::Sente } else { Owner::Gote }));
    Some(p)
}

} // verus!
