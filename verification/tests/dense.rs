use std::collections::{HashMap, HashSet, VecDeque};

use microshogi::dense_kpg::{
    domain_size, kind_domain_size, kpg_start, per_king_size, predecessor_ids, predecessor_ids_both_mirrors,
    predecessor_ids_verified, rank_canonical, rank_raw_sente, unrank_raw_sente, BitSet,
};
use microshogi::packing::mirror;
use microshogi::{canonical_turn, parse, Owner};

#[test]
fn domain_size_matches_formula() {
    assert_eq!(kind_domain_size(18), 2_595);
    assert_eq!(per_king_size(), 5_361_993);
    assert_eq!(domain_size(), 2_037_557_340);
}

#[test]
fn rank_roundtrips_samples() {
    let samples = [
        0,
        1,
        2,
        2_594,
        per_king_size() - 1,
        per_king_size(),
        domain_size() / 2,
        domain_size() - 1,
    ];
    for id in samples {
        let p = unrank_raw_sente(id);
        assert_eq!(rank_raw_sente(&p), Some(id));
    }
}

#[test]
fn start_is_rankable_and_mirror_canonical() {
    let start = kpg_start();
    let id = rank_canonical(&start).unwrap();
    assert_eq!(rank_canonical(&mirror(&start)), Some(id));
    assert_eq!(rank_raw_sente(&unrank_raw_sente(id)), Some(id));
}

#[test]
fn predecessors_cover_depth_limited_forward_edges() {
    let start = kpg_start();
    let start_id = rank_canonical(&start).unwrap();
    let mut depth = HashMap::<u32, u8>::new();
    let mut q = VecDeque::new();
    depth.insert(start_id, 0);
    q.push_back(start_id);
    let mut edges = Vec::new();
    while let Some(pid) = q.pop_front() {
        let d = depth[&pid];
        if d == 3 {
            continue;
        }
        let p = unrank_raw_sente(pid);
        if p.is_immediate_win() {
            continue;
        }
        for m in p.moves() {
            if p.is_terminal_win_move(&m) {
                continue;
            }
            let cid = rank_canonical(&p.make(&m)).unwrap();
            edges.push((pid, cid));
            if let std::collections::hash_map::Entry::Vacant(e) = depth.entry(cid) {
                e.insert(d + 1);
                q.push_back(cid);
            }
        }
    }
    assert!(!edges.is_empty());
    for (pid, cid) in edges {
        let preds = predecessor_ids_verified(cid);
        assert!(preds.ids.contains(&pid), "missing predecessor {pid} for child {cid}");
    }
}

#[test]
fn generated_predecessors_are_forward_valid_near_start() {
    let start = kpg_start();
    let start_id = rank_canonical(&start).unwrap();
    let mut children = HashSet::new();
    for m in start.moves() {
        if !start.is_terminal_win_move(&m) {
            children.insert(rank_canonical(&start.make(&m)).unwrap());
        }
    }
    for cid in children {
        let fast = predecessor_ids(cid);
        let verified = predecessor_ids_verified(cid);
        assert_eq!(fast.ids, verified.ids);
    }
    assert_eq!(rank_canonical(&start), Some(start_id));
}

#[test]
fn single_orientation_predecessors_match_mirrored_generation() {
    let start = kpg_start();
    let start_id = rank_canonical(&start).unwrap();
    let mut seen = HashSet::new();
    let mut q = VecDeque::new();
    seen.insert(start_id);
    q.push_back(start_id);
    while seen.len() < 2_000 {
        let Some(pid) = q.pop_front() else {
            break;
        };
        let p = unrank_raw_sente(pid);
        if p.is_immediate_win() {
            continue;
        }
        for m in p.moves() {
            if p.is_terminal_win_move(&m) {
                continue;
            }
            let cid = rank_canonical(&p.make(&m)).unwrap();
            if seen.insert(cid) {
                q.push_back(cid);
            }
        }
    }
    for id in seen {
        let single = predecessor_ids(id);
        let mirrored = predecessor_ids_both_mirrors(id);
        assert_eq!(single.ids, mirrored.ids, "predecessors differ for {id}");
    }
}

#[test]
fn kpg_start_is_the_named_setup() {
    assert_eq!(kpg_start(), parse("S/k-g-/p---/----/---P/-G-K/-").unwrap());
}

#[test]
fn rank_of_non_kpg_positions_is_none() {
    // a Silver on the board is outside the slice
    let with_silver = parse("S/k-g-/p---/----/-S-P/-G-K/-").unwrap();
    assert_eq!(rank_raw_sente(&with_silver), None);
    // Gote to move is not a raw rank, but has a canonical one
    let gote = parse("G/k-g-/p---/----/---P/-G-K/-").unwrap();
    assert_eq!(rank_raw_sente(&gote), None);
    assert!(rank_canonical(&gote).is_some());
    assert_eq!(rank_canonical(&gote), rank_raw_sente(&canonical_turn(&gote)).map(|r| {
        r.min(rank_raw_sente(&mirror(&canonical_turn(&gote))).unwrap())
    }));
    // three Golds in all
    let three_golds = parse("S/k-g-/p---/----/---P/-G-K/G").unwrap();
    assert_eq!(rank_raw_sente(&three_golds), None);
    // a missing King
    let one_king = parse("S/--g-/p---/----/---P/-G-K/-").unwrap();
    assert_eq!(rank_raw_sente(&one_king), None);
}

#[test]
fn unranked_positions_are_sente_kpg() {
    for id in [0u32, 7, 2_595, 1_000_000, domain_size() - 2] {
        let p = unrank_raw_sente(id);
        assert_eq!(p.turn, Owner::Sente);
        let golds = p.board.iter().filter(|c| matches!(c, Some((microshogi::Kind::Gold, _, _)))).count();
        assert_eq!(golds as u8 + p.hand_sente[0] + p.hand_gote[0], 2);
        let pawns = p.board.iter().filter(|c| matches!(c, Some((microshogi::Kind::Pawn, _, _)))).count();
        assert_eq!(pawns as u8 + p.hand_sente[3] + p.hand_gote[3], 2);
    }
}

#[test]
fn first_ranks_hold_all_tokens_in_hand() {
    // id 0: both Golds and both Pawns in Gote's hand, Kings on squares 0 and 1
    let p = unrank_raw_sente(0);
    assert_eq!(p.hand_gote[0], 2);
    assert_eq!(p.hand_gote[3], 2);
    assert_eq!(p.board[0], Some((microshogi::Kind::King, false, Owner::Sente)));
    assert_eq!(p.board[1], Some((microshogi::Kind::King, false, Owner::Gote)));
}

#[test]
fn bitset_sets_and_gets() {
    let mut b = BitSet::new(130);
    assert!(!b.get(0));
    assert!(!b.get(129));
    b.set(129);
    b.set(64);
    assert!(b.get(129));
    assert!(b.get(64));
    assert!(!b.get(63));
    assert!(!b.get(65));
}

#[test]
fn predecessor_counts_add_up() {
    let start = kpg_start();
    let start_id = rank_canonical(&start).unwrap();
    let preds = predecessor_ids(start_id);
    assert!(preds.candidates >= preds.ids.len() as u64);
    let mut sorted = preds.ids.clone();
    sorted.sort_unstable();
    sorted.dedup();
    assert_eq!(sorted, preds.ids);
}

#[test]
fn predecessor_ids_are_canonical_ranks() {
    let start = kpg_start();
    let start_id = rank_canonical(&start).unwrap();
    for m in start.moves() {
        if start.is_terminal_win_move(&m) {
            continue;
        }
        let cid = rank_canonical(&start.make(&m)).unwrap();
        for id in predecessor_ids(cid).ids {
            assert!(id < domain_size());
            assert_eq!(rank_canonical(&unrank_raw_sente(id)), Some(id));
        }
    }
    assert!(start_id < domain_size());
}
