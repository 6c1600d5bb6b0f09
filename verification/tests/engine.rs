use microshogi::rules::perft_checked;
use microshogi::packing::mirror;
use microshogi::{canonical_key, canonical_turn, initial, pack, parse, perft, unpack, Kind, Owner};

const INIT: &str = "S/kbgs/p---/----/---P/SGBK/-";

#[test]
fn init_roundtrips() {
    assert_eq!(microshogi::notation::format(&initial()), INIT);
    assert_eq!(microshogi::notation::format(&parse(INIT).unwrap()), INIT);
}

#[test]
fn pack_roundtrips() {
    let p = initial();
    assert_eq!(unpack(pack(&p)), p);
    // promoted pieces (R/L/T/N) + pieces in hand + Gote to move
    let q = parse("G/k-R-/T---/--N-/L---/---K/GSbp").unwrap();
    assert_eq!(unpack(pack(&q)), q);
    assert_ne!(pack(&p), pack(&q));
}

#[test]
fn initial_move_count_is_nine() {
    // Hand-derived: Silver 2 + Gold 3 + Bishop 2 + King 1 + Pawn 1 = 9.
    let p = initial();
    let moves = p.moves();
    assert_eq!(moves.len(), 9, "moves: {:?}", moves);
    assert!(moves.iter().all(|m| !m.capture));
    assert!(moves.iter().all(|m| m.from.is_some())); // no drops at start
}

#[test]
fn symmetry_preserves_move_count_and_key() {
    let p = initial();
    // LR mirror and the turn-swapped form must have the same number of moves
    // and the same canonical key as the start.
    let m = mirror(&p);
    assert_eq!(p.moves().len(), m.moves().len());
    assert_eq!(canonical_key(&p), canonical_key(&m));
    // perft depth 2 is mirror-invariant
    assert_eq!(perft(&p, 2), perft(&m, 2));
}

#[test]
fn canonical_turn_normalizes_to_sente() {
    let g = parse("G/kbgs/p---/----/---P/SGBK/-").unwrap();
    let c = canonical_turn(&g);
    assert_eq!(c.turn, Owner::Sente);
    // turn-normalizing a Sente position is identity
    let s = initial();
    assert_eq!(canonical_turn(&s), s);
}

#[test]
fn capture_flips_face_and_fills_hand() {
    // Sente silver at c3 (rank2,file1) captures Gote gold at a4 (rank1,file0)
    // diagonally forward-left, flipping to a Lance; the gold enters Sente's hand.
    let p = parse("S/k---/g---/-S--/----/---K/-").unwrap();
    let mv = p
        .moves()
        .into_iter()
        .find(|m| m.from == Some(2 * 4 + 1) && m.to == 4 && m.capture)
        .expect("silver capture exists");
    assert_eq!(mv.kind, Kind::Silver);
    assert!(mv.promo, "capture must flip Silver to Lance");
    let q = p.make(&mv);
    assert_eq!(q.board[4], Some((Kind::Silver, true, Owner::Sente)));
    assert_eq!(q.board[2 * 4 + 1], None);
    assert_eq!(q.hand_sente[Kind::Gold.hand_index()], 1);
    assert_eq!(q.turn, Owner::Gote);
}

#[test]
fn drops_offer_both_faces() {
    // Sente to move with a Silver in hand.
    let p = parse("S/k---/----/----/----/---K/S").unwrap();
    let moves = p.moves();
    let base = moves.iter().filter(|m| m.from.is_none() && !m.promo).count();
    let promoted = moves.iter().filter(|m| m.from.is_none() && m.promo).count();
    // 18 empty squares, each droppable in either face
    assert_eq!(base, 18);
    assert_eq!(promoted, 18);
}

#[test]
fn king_capture_is_terminal() {
    // Sente silver at c3 can capture the Gote king at a4.
    let p = parse("S/----/k---/-S--/----/---K/-").unwrap();
    assert!(p.is_immediate_win());
    let mv = p
        .moves()
        .into_iter()
        .find(|m| p.is_terminal_win_move(m))
        .unwrap();
    assert_eq!(mv.to, 4);
    assert!(mv.capture);
}

#[test]
fn perft_checked_agrees_with_perft() {
    let p = initial();
    assert_eq!(perft_checked(&p, 0), Some(1));
    assert_eq!(perft_checked(&p, 1), Some(9));
    for d in 1..=3 {
        assert_eq!(perft_checked(&p, d), Some(perft(&p, d)));
    }
    let q = parse("S/----/k---/-S--/----/---K/-").unwrap();
    assert_eq!(perft_checked(&q, 2), Some(perft(&q, 2)));
}

#[test]
fn canonical_turn_keeps_move_count() {
    let g = parse("G/kbgs/p---/----/---P/SGBK/-").unwrap();
    let c = canonical_turn(&g);
    assert_eq!(g.moves().len(), c.moves().len());
    let g2 = parse("G/k---/--g-/-S--/----/---K/GP").unwrap();
    assert_eq!(g2.moves().len(), canonical_turn(&g2).moves().len());
}

#[test]
fn packed_keys_fit_in_117_bits() {
    assert!(pack(&initial()) < (1u128 << 117));
    let g = parse("G/kbgs/p---/----/---P/SGBK/-").unwrap();
    assert!(pack(&g) < (1u128 << 117));
    assert!(pack(&g) >= (1u128 << 116));
}
