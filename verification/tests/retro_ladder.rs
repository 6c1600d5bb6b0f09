use std::collections::HashMap;

use microshogi::retro::{audit, enumerate, forward_check, rung_start, solve, Solved};
use microshogi::{canonical_key, initial, parse, unpack};

#[test]
fn kp_solves_and_audits() {
    let start = rung_start("KP").unwrap();
    let s = solve(&start);
    assert!(s.keys.len() > 1);
    assert_eq!(audit(&s), 0, "consistency audit must pass");
}

#[test]
fn mirror_start_same_value() {
    let start = rung_start("KP").unwrap();
    let s = solve(&start);
    assert_eq!(s.values[0], solve(&unpack(canonical_key(&start))).values[0]);
}

#[test]
fn rung_names_give_their_setups() {
    assert_eq!(rung_start("KP"), parse("S/k---/p---/----/---P/---K/-"));
    assert_eq!(rung_start("KPG"), parse("S/k-g-/p---/----/---P/-G-K/-"));
    assert_eq!(rung_start("KPGS"), parse("S/k-gs/p---/----/---P/SG-K/-"));
    assert_eq!(rung_start("FULL"), Some(initial()));
    assert_eq!(rung_start("KPGSB"), Some(initial()));
    assert_eq!(rung_start("KPB"), None);
    assert_eq!(rung_start(""), None);
}

#[test]
fn kp_enumeration_numbers_keys_in_order() {
    let start = rung_start("KP").unwrap();
    let (keys, index) = enumerate(&start);
    assert_eq!(keys[0], canonical_key(&start));
    assert_eq!(keys.len(), index.len());
    for (i, k) in keys.iter().enumerate() {
        assert_eq!(index[k], i as u32);
    }
}

#[test]
fn forward_check_counts_disagreements() {
    // Sente's Silver can take the Gote King at once: a forward win.
    let p = parse("S/----/k---/-S--/----/---K/-").unwrap();
    let k = canonical_key(&p);
    let mut index = HashMap::new();
    index.insert(k, 0u32);
    let agree = Solved { keys: vec![k], index: index.clone(), values: vec![1], edges: 0, rounds: 0, fixpoint_ns: 0 };
    assert_eq!(forward_check(&agree), 0);
    let disagree = Solved { keys: vec![k], index, values: vec![0], edges: 0, rounds: 0, fixpoint_ns: 0 };
    assert_eq!(forward_check(&disagree), 1);
}

#[test]
fn terminal_values_are_fixed() {
    let start = rung_start("KP").unwrap();
    let s = solve(&start);
    for (i, &k) in s.keys.iter().enumerate() {
        let p = unpack(k);
        if p.is_immediate_win() {
            assert_eq!(s.values[i], 1);
        } else if p.moves().is_empty() {
            assert_eq!(s.values[i], -2);
        }
    }
}

#[test]
fn kp_solve_takes_rounds_over_enumerated_keys() {
    let start = rung_start("KP").unwrap();
    let s = solve(&start);
    assert!(s.rounds >= 1);
    assert!(s.rounds as usize <= s.keys.len() + 1);
    let (keys, _) = enumerate(&start);
    assert_eq!(s.keys, keys);
}
