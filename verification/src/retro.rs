//! A retrograde solver over canonical keys for small reduced-material games
//! started from a named setup, a full-table consistency audit, and an
//! independent forward negamax (repetition counts as a draw) to cross-check it.
//!
//! Values: `+d` is a win in `d` plies for the side to move, `-d` a loss in `d`
//! plies, `0` a draw (or undecided).
use vstd::prelude::*;
use std::collections::{HashMap, HashSet};
use crate::dense_kpg::{any_king_capture, kpg_start, kpg_start_view};
use crate::notation::chars_of;
use crate::rules::{initial, initial_view};
use crate::packing::{canonical_key, canonical_key_spec, lemma_unpack_shape, unpack, unpack_spec};
use crate::rules::{
    has_king_capture, hand_after, hand_of, hand_slot, is_king_capture, lemma_make_ok_of_move, lemma_moves_shape,
    make_ok, make_spec, move_shape, moves_spec, Cell, Kind, Move, Owner, PosView, Position,
};
use vstd::set_lib::{lemma_int_range, lemma_len_subset, lemma_map_size, set_int_range};

verus! {

broadcast use vstd::std_specs::hash::group_hash_axioms;

// ---------------------------------------------------------------------------
// Keys
// ---------------------------------------------------------------------------

/// Number of `u128` keys.
pub open spec fn key_count() -> int {
    0x1_0000_0000_0000_0000_0000_0000_0000_0000int
}

pub open spec fn all_keys() -> Set<u128> {
    Set::new(|k: u128| true)
}

/// Any set of keys is finite and has at most `key_count()` elements.
pub proof fn lemma_key_sets(s: Set<u128>)
    ensures
        s.finite(),
        s.len() <= key_count(),
{
    lemma_int_range(0, key_count());
    let f = |i: int| i as u128;
    assert(set_int_range(0, key_count()).map(f) =~= all_keys()) by {
        assert forall|k: u128| all_keys().contains(k) implies set_int_range(0, key_count()).map(f).contains(k) by {
            assert(set_int_range(0, key_count()).contains(k as int));
            assert(f(k as int) == k);
        }
    }
    assert(vstd::relations::injective_on(f, set_int_range(0, key_count())));
    lemma_map_size(set_int_range(0, key_count()), all_keys(), f);
    lemma_len_subset(s, all_keys());
}

/// The search goes on from the position of key `k`: its side to move cannot
/// capture the King.
#[verifier::opaque]
pub open spec fn key_expands(k: u128) -> bool {
    !has_king_capture(unpack_spec(k))
}

/// The canonical key after move `m` from the position of key `k`.
pub open spec fn key_child(k: u128, m: Move) -> u128 {
    canonical_key_spec(make_spec(unpack_spec(k), m))
}

/// `ck` is the key of a position one move after the position of key `pk`.
#[verifier::opaque]
pub open spec fn key_is_child(pk: u128, ck: u128) -> bool {
    exists|i: int|
        0 <= i < moves_spec(unpack_spec(pk)).len() && key_child(pk, #[trigger] moves_spec(unpack_spec(pk))[i]) == ck
}

/// The listed keys, once each, numbered by their place in the list (as `u32`).
#[verifier::opaque]
pub open spec fn numbered(keys: Seq<u128>, index: Map<u128, u32>) -> bool {
    &&& keys.no_duplicates()
    &&& index.dom() == keys.to_set()
    &&& forall|i: int| 0 <= i < keys.len() ==> #[trigger] index[keys[i]] == i as u32
}

/// Some key listed before the `k`-th is searched further and has it as a child.
pub open spec fn has_key_origin(keys: Seq<u128>, k: int) -> bool {
    exists|j: int| 0 <= j < k && key_expands(#[trigger] keys[j]) && key_is_child(keys[j], keys[k])
}

#[verifier::opaque]
pub open spec fn key_origins(keys: Seq<u128>) -> bool {
    forall|k: int| 1 <= k < keys.len() ==> #[trigger] has_key_origin(keys, k)
}

/// The children of the first `h` listed keys that are searched further are numbered.
#[verifier::opaque]
pub open spec fn key_closed(keys: Seq<u128>, index: Map<u128, u32>, h: int) -> bool {
    forall|j: int, t: int|
        0 <= j < h && key_expands(keys[j]) && 0 <= t < moves_spec(unpack_spec(keys[j])).len() ==> index.contains_key(
            #[trigger] key_child(keys[j], moves_spec(unpack_spec(keys[j]))[t]),
        )
}

proof fn lemma_numbered_len(keys: Seq<u128>, index: Map<u128, u32>)
    requires
        numbered(keys, index),
    ensures
        keys.len() <= key_count(),
        forall|k: u128| #[trigger] index.contains_key(k) <==> keys.contains(k),
{
    reveal(numbered);
    keys.unique_seq_to_set();
    lemma_key_sets(keys.to_set());
}

proof fn lemma_numbered_push(keys: Seq<u128>, index: Map<u128, u32>, ck: u128)
    requires
        numbered(keys, index),
        !index.contains_key(ck),
    ensures
        numbered(keys.push(ck), index.insert(ck, keys.len() as u32)),
        forall|k: u128| keys.contains(k) ==> #[trigger] keys.push(ck).contains(k),
{
    reveal(numbered);
    let n = keys.push(ck);
    assert forall|k: u128| keys.contains(k) implies #[trigger] n.contains(k) by {
        let w = choose|w: int| 0 <= w < keys.len() && keys[w] == k;
        assert(n[w] == k);
    }
    assert(!keys.contains(ck)) by {
        if keys.contains(ck) {
            assert(keys.to_set().contains(ck));
        }
    }
    assert(n.no_duplicates()) by {
        assert forall|a: int, b: int| 0 <= a < n.len() && 0 <= b < n.len() && a != b implies n[a] != n[b] by {
            if a < keys.len() && b < keys.len() {
                assert(keys[a] == n[a] && keys[b] == n[b]);
            } else if a == keys.len() {
                assert(keys.contains(n[b]));
            } else {
                assert(keys.contains(n[a]));
            }
        }
    }
    assert(index.insert(ck, keys.len() as u32).dom() =~= n.to_set()) by {
        assert forall|k: u128| n.to_set().contains(k) implies index.insert(ck, keys.len() as u32).dom().contains(k) by {
            let w = choose|w: int| 0 <= w < n.len() && n[w] == k;
            if w < keys.len() {
                assert(keys[w] == k);
                assert(keys.to_set().contains(k));
            }
        }
        assert forall|k: u128| index.insert(ck, keys.len() as u32).dom().contains(k) implies n.to_set().contains(k) by {
            if k != ck {
                assert(keys.to_set().contains(k));
                assert(keys.contains(k));
            } else {
                assert(n[keys.len() as int] == ck);
            }
        }
    }
    assert forall|i: int| 0 <= i < n.len() implies #[trigger] index.insert(ck, keys.len() as u32)[n[i]] == i as u32 by {
        if i < keys.len() {
            assert(n[i] == keys[i]);
            assert(keys[i] != ck);
        }
    }
}

proof fn lemma_key_origins_push(keys: Seq<u128>, pi: int, ck: u128)
    requires
        key_origins(keys),
        0 <= pi < keys.len(),
        key_expands(keys[pi]),
        key_is_child(keys[pi], ck),
    ensures
        key_origins(keys.push(ck)),
{
    reveal(key_origins);
    let n = keys.push(ck);
    assert forall|k: int| 1 <= k < n.len() implies #[trigger] has_key_origin(n, k) by {
        if k < keys.len() {
            assert(has_key_origin(keys, k));
            let j = choose|j: int| 0 <= j < k && key_expands(#[trigger] keys[j]) && key_is_child(keys[j], keys[k]);
            assert(n[j] == keys[j] && n[k] == keys[k]);
            assert(0 <= j < k && key_expands(n[j]) && key_is_child(n[j], n[k]));
        } else {
            assert(n[pi] == keys[pi] && n[k] == ck);
            assert(0 <= pi < k && key_expands(n[pi]) && key_is_child(n[pi], n[k]));
        }
    }
}

proof fn lemma_key_closed_grow(keys: Seq<u128>, index: Map<u128, u32>, h: int, ck: u128, id: u32)
    requires
        key_closed(keys, index, h),
        0 <= h <= keys.len(),
    ensures
        key_closed(keys.push(ck), index.insert(ck, id), h),
{
    reveal(key_closed);
    let n = keys.push(ck);
    assert forall|j: int, t: int|
        0 <= j < h && key_expands(n[j]) && 0 <= t < moves_spec(unpack_spec(n[j])).len() implies index.insert(
        ck,
        id,
    ).contains_key(#[trigger] key_child(n[j], moves_spec(unpack_spec(n[j]))[t])) by {
        assert(n[j] == keys[j]);
    }
}

proof fn lemma_key_closed_advance(keys: Seq<u128>, index: Map<u128, u32>, h: int)
    requires
        key_closed(keys, index, h),
        0 <= h < keys.len(),
        key_expands(keys[h]) ==> forall|t: int|
            0 <= t < moves_spec(unpack_spec(keys[h])).len() ==> index.contains_key(
                #[trigger] key_child(keys[h], moves_spec(unpack_spec(keys[h]))[t]),
            ),
    ensures
        key_closed(keys, index, h + 1),
{
    reveal(key_closed);
}

/// The `u`-th move of the `j`-th listed key, searched further, leads to `k`.
pub open spec fn found_at(keys: Seq<u128>, j: int, u: int, k: u128) -> bool {
    &&& 0 <= j < keys.len()
    &&& key_expands(keys[j])
    &&& 0 <= u < moves_spec(unpack_spec(keys[j])).len()
    &&& key_child(keys[j], moves_spec(unpack_spec(keys[j]))[u]) == k
}

/// `k` is reached by a move searched before the `u`-th move of the `j`-th key.
pub open spec fn found_before(keys: Seq<u128>, k: u128, j: int, u: int) -> bool {
    exists|j2: int, u2: int| (j2 < j || (j2 == j && u2 < u)) && #[trigger] found_at(keys, j2, u2, k)
}

/// Breadth-first order: of two listed keys after the first, the earlier one is
/// reached by a move searched before every move that reaches the later one.
#[verifier::opaque]
pub open spec fn bfs_ordered(keys: Seq<u128>) -> bool {
    forall|a: int, b: int, j: int, u: int|
        #![trigger keys[a], found_at(keys, j, u, keys[b])]
        1 <= a < b < keys.len() && found_at(keys, j, u, keys[b]) ==> found_before(keys, keys[a], j, u)
}

/// Every listed key after the first is reached by a move searched before the
/// `i`-th move of the `h`-th key.
#[verifier::opaque]
pub open spec fn bfs_cursor(keys: Seq<u128>, h: int, i: int) -> bool {
    forall|a: int| 1 <= a < keys.len() ==> #[trigger] found_before(keys, keys[a], h, i)
}

proof fn lemma_found_before_push(keys: Seq<u128>, ck: u128, k: u128, j: int, u: int, h: int, i: int)
    requires
        found_before(keys, k, j, u),
        j < h || (j == h && u <= i),
    ensures
        found_before(keys.push(ck), k, h, i),
{
    let (j2, u2) = choose|j2: int, u2: int| (j2 < j || (j2 == j && u2 < u)) && #[trigger] found_at(keys, j2, u2, k);
    assert(keys.push(ck)[j2] == keys[j2]);
    assert(found_at(keys.push(ck), j2, u2, k));
}

proof fn lemma_cursor_weaken(keys: Seq<u128>, h: int, i: int, h2: int, i2: int)
    requires
        bfs_cursor(keys, h, i),
        h < h2 || (h == h2 && i <= i2),
    ensures
        bfs_cursor(keys, h2, i2),
{
    reveal(bfs_cursor);
    assert forall|a: int| 1 <= a < keys.len() implies #[trigger] found_before(keys, keys[a], h2, i2) by {
        assert(found_before(keys, keys[a], h, i));
        let (j2, u2) = choose|j2: int, u2: int| (j2 < h || (j2 == h && u2 < i)) && #[trigger] found_at(keys, j2, u2, keys[a]);
        assert(found_at(keys, j2, u2, keys[a]));
    }
}

/// Appending the child reached by the `i`-th move of the `h`-th key, when it is
/// not yet listed, keeps the breadth-first order.
proof fn lemma_bfs_push(keys: Seq<u128>, index: Map<u128, u32>, h: int, i: int, ck: u128)
    requires
        bfs_ordered(keys),
        bfs_cursor(keys, h, i),
        0 <= h < keys.len(),
        key_expands(keys[h]),
        0 <= i < moves_spec(unpack_spec(keys[h])).len(),
        ck == key_child(keys[h], moves_spec(unpack_spec(keys[h]))[i]),
        !index.contains_key(ck),
        key_closed(keys, index, h),
        forall|t: int|
            0 <= t < i ==> index.contains_key(#[trigger] key_child(keys[h], moves_spec(unpack_spec(keys[h]))[t])),
    ensures
        bfs_ordered(keys.push(ck)),
        bfs_cursor(keys.push(ck), h, i + 1),
{
    reveal(bfs_cursor);
    reveal(bfs_ordered);
    let n = keys.len() as int;
    let k2 = keys.push(ck);
    assert forall|a: int| 1 <= a < k2.len() implies #[trigger] found_before(k2, k2[a], h, i + 1) by {
        if a < n {
            assert(k2[a] == keys[a]);
            assert(found_before(keys, keys[a], h, i));
            lemma_found_before_push(keys, ck, keys[a], h, i, h, i + 1);
        } else {
            assert(k2[h] == keys[h]);
            assert(found_at(k2, h, i, ck));
        }
    }
    assert forall|a: int, b: int, j: int, u: int|
        1 <= a < b < k2.len() && #[trigger] found_at(k2, j, u, k2[b]) implies found_before(k2, #[trigger] k2[a], j, u) by {
        assert(k2[a] == keys[a]);
        assert(found_before(keys, keys[a], h, i));
        if j >= n {
            lemma_found_before_push(keys, ck, keys[a], h, i, j, u);
        } else {
            assert(k2[j] == keys[j]);
            assert(found_at(keys, j, u, k2[b]));
            if b < n {
                assert(k2[b] == keys[b]);
                assert(found_before(keys, keys[a], j, u));
                lemma_found_before_push(keys, ck, keys[a], j, u, j, u);
            } else {
                assert(k2[b] == ck);
                if j < h {
                    reveal(key_closed);
                    assert(index.contains_key(key_child(keys[j], moves_spec(unpack_spec(keys[j]))[u])));
                } else if j == h && u < i {
                    assert(index.contains_key(key_child(keys[h], moves_spec(unpack_spec(keys[h]))[u])));
                } else {
                    lemma_found_before_push(keys, ck, keys[a], h, i, j, u);
                }
            }
        }
    }
}

/// A move of an unpacked position that does not capture the King can be made;
/// the key after it is its canonical key.
fn child_key(p: &Position, m: &Move, Ghost(k): Ghost<u128>) -> (ck: u128)
    requires
        p@ == unpack_spec(k),
        moves_spec(p@).contains(*m),
        !is_king_capture(p@, *m),
    ensures
        ck == key_child(k, *m),
{
    proof {
        lemma_unpack_shape(k);
        assert forall|i: int| 0 <= i < 4 implies #[trigger] hand_of(p@, p@.turn)[i] < 255 by {
            assert(p@.hand_sente[i] <= 3 && p@.hand_gote[i] <= 3);
        }
        lemma_make_ok_of_move(p@, *m);
    }
    let child = p.make(m);
    canonical_key(&child)
}

/// The canonical keys reachable from `start`, in breadth-first order, numbered by
/// their place in the list: the first is the key of `start`, each later one is a
/// child of an earlier one that is searched further (no King capture at hand),
/// and every child of a key searched further is numbered.
pub fn enumerate(start: &Position) -> (r: (Vec<u128>, HashMap<u128, u32>))
    ensures
        r.0@.len() >= 1,
        r.0@[0] == canonical_key_spec(start@),
        numbered(r.0@, r.1@),
        key_origins(r.0@),
        key_closed(r.0@, r.1@, r.0@.len() as int),
        bfs_ordered(r.0@),
{
    let mut index: HashMap<u128, u32> = HashMap::new();
    let mut keys: Vec<u128> = Vec::new();
    let k0 = canonical_key(start);
    index.insert(k0, 0);
    keys.push(k0);
    proof {
        reveal(numbered);
        reveal(key_origins);
        reveal(key_closed);
        reveal(bfs_ordered);
        reveal(bfs_cursor);
        assert(keys@.to_set() =~= index@.dom()) by {
            assert forall|k: u128| keys@.to_set().contains(k) implies index@.dom().contains(k) by {
                assert(keys@[0] == k);
            }
            assert forall|k: u128| index@.dom().contains(k) implies keys@.to_set().contains(k) by {
                assert(keys@[0] == k);
            }
        }
    }
    let mut head: usize = 0;
    while head < keys.len()
        invariant
            1 <= keys@.len(),
            keys@[0] == k0,
            k0 == canonical_key_spec(start@),
            head <= keys@.len(),
            numbered(keys@, index@),
            key_origins(keys@),
            key_closed(keys@, index@, head as int),
            bfs_ordered(keys@),
            bfs_cursor(keys@, head as int, 0),
        decreases key_count() - keys@.len(), keys@.len() - head,
    {
        proof {
            lemma_numbered_len(keys@, index@);
        }
        let k = keys[head];
        let p = unpack(k);
        let moves = p.moves();
        let win = any_king_capture(&p, &moves);
        proof {
            reveal(key_expands);
        }
        if win {
            proof {
                lemma_key_closed_advance(keys@, index@, head as int);
                lemma_cursor_weaken(keys@, head as int, 0, head + 1, 0);
            }
            head += 1;
            continue;
        }
        let ghost before = keys@;
        let mut i: usize = 0;
        while i < moves.len()
            invariant
                1 <= keys@.len(),
                keys@[0] == k0,
                head < before.len() <= keys@.len(),
                keys@[head as int] == k,
                p@ == unpack_spec(k),
                key_expands(k),
                !has_king_capture(p@),
                moves@ == moves_spec(p@),
                i <= moves@.len(),
                numbered(keys@, index@),
                key_origins(keys@),
                key_closed(keys@, index@, head as int),
                forall|t: int| 0 <= t < i ==> index@.contains_key(#[trigger] key_child(k, moves_spec(p@)[t])),
                bfs_ordered(keys@),
                bfs_cursor(keys@, head as int, i as int),
            decreases moves@.len() - i,
        {
            let m = moves[i];
            proof {
                assert(moves_spec(p@).contains(m));
                assert(!is_king_capture(p@, moves_spec(p@)[i as int]));
                lemma_numbered_len(keys@, index@);
            }
            let ck = child_key(&p, &m, Ghost(k));
            if !index.contains_key(&ck) {
                let id = keys.len() as u32;
                proof {
                    assert(key_is_child(keys@[head as int], ck)) by {
                        reveal(key_is_child);
                        assert(key_child(k, moves_spec(unpack_spec(k))[i as int]) == ck);
                    }
                    lemma_numbered_push(keys@, index@, ck);
                    lemma_key_origins_push(keys@, head as int, ck);
                    lemma_key_closed_grow(keys@, index@, head as int, ck, id);
                    lemma_bfs_push(keys@, index@, head as int, i as int, ck);
                }
                index.insert(ck, id);
                keys.push(ck);
            } else {
                proof {
                    lemma_cursor_weaken(keys@, head as int, i as int, head as int, i + 1);
                }
            }
            i += 1;
        }
        proof {
            lemma_key_closed_advance(keys@, index@, head as int);
            lemma_numbered_len(keys@, index@);
            lemma_cursor_weaken(keys@, head as int, i as int, head + 1, 0);
        }
        head += 1;
    }
    (keys, index)
}


// ---------------------------------------------------------------------------
// Retrograde solving
// ---------------------------------------------------------------------------

/// A solved table: the numbered canonical keys and a value per key (see the
/// module documentation), with the work the fixpoint took.
pub struct Solved {
    pub keys: Vec<u128>,
    pub index: HashMap<u128, u32>,
    pub values: Vec<i32>,
    /// Children looked at during the fixpoint (counted modulo 2^64).
    pub edges: u64,
    /// Fixpoint rounds to convergence (counted modulo 2^32).
    pub rounds: u32,
    /// Wall-clock nanoseconds of the fixpoint loop.
    pub fixpoint_ns: u128,
}

/// One ply more: `d + 1`, held at `i32::MAX`.
pub open spec fn step_up(d: int) -> int {
    if d < 0x7fff_ffff {
        d + 1
    } else {
        d
    }
}

/// The value the table gives the child reached by `m` from key `k`.
pub open spec fn child_value(index: Map<u128, u32>, values: Seq<i32>, k: u128, m: Move) -> int {
    values[index[key_child(k, m)] as int] as int
}

/// Over the first `n` moves from key `k`: the shortest win found among the
/// children (a child lost in `d` plies), the longest loss (a child won in that
/// many plies), and whether some child is undecided (value 0).
pub open spec fn key_summary(index: Map<u128, u32>, values: Seq<i32>, k: u128, n: int) -> (Option<int>, int, bool)
    decreases n,
{
    if n <= 0 {
        (None, 0, false)
    } else {
        let (best, worst, open) = key_summary(index, values, k, n - 1);
        let cv = child_value(index, values, k, moves_spec(unpack_spec(k))[n - 1]);
        if cv == 0 {
            (best, worst, true)
        } else if cv < 0 {
            let d = -cv;
            (
                Some(
                    match best {
                        Some(b) => if b <= d {
                            b
                        } else {
                            d
                        },
                        None => d,
                    },
                ),
                worst,
                open,
            )
        } else {
            (best, if worst >= cv {
                worst
            } else {
                cv
            }, open)
        }
    }
}

/// The summary over all the moves from key `k`.
pub open spec fn full_summary(index: Map<u128, u32>, values: Seq<i32>, k: u128) -> (Option<int>, int, bool) {
    key_summary(index, values, k, moves_spec(unpack_spec(k)).len() as int)
}

/// Every child of a key that is searched further is numbered, by a number below the count.
pub open spec fn children_numbered(keys: Seq<u128>, index: Map<u128, u32>) -> bool {
    &&& numbered(keys, index)
    &&& key_closed(keys, index, keys.len() as int)
}

/// What a stored value says, and why it holds: 1 for a King capture at hand, -2
/// for no move; a positive value is one ply beyond a lost child; a negative value
/// is one ply beyond the longest win among the children, all won; 0 is a
/// position with no lost child and an undecided one.
pub open spec fn value_justified(keys: Seq<u128>, index: Map<u128, u32>, values: Seq<i32>, id: int) -> bool {
    let k = keys[id];
    let p = unpack_spec(k);
    let ms = moves_spec(p);
    let v = values[id] as int;
    let (best, worst, open) = full_summary(index, values, k);
    if has_king_capture(p) {
        v == 1
    } else if ms.len() == 0 {
        v == -2
    } else if v > 0 {
        exists|i: int|
            0 <= i < ms.len() && child_value(index, values, k, #[trigger] ms[i]) < 0 && v == step_up(
                -child_value(index, values, k, ms[i]),
            )
    } else if v < 0 {
        best is None && !open && v == -step_up(worst)
    } else {
        best is None && open
    }
}

proof fn lemma_index_below(keys: Seq<u128>, index: Map<u128, u32>, k: u128)
    requires
        numbered(keys, index),
        index.contains_key(k),
    ensures
        (index[k] as int) < keys.len(),
{
    reveal(numbered);
    assert(keys.to_set().contains(k));
    let i = choose|i: int| 0 <= i < keys.len() && keys[i] == k;
    assert(index[keys[i]] == i as u32);
}


/// Decided values stay as they are.
pub open spec fn keeps_decided32(values: Seq<i32>, later: Seq<i32>) -> bool {
    &&& later.len() == values.len()
    &&& forall|i: int| 0 <= i < values.len() && values[i] != 0 ==> #[trigger] later[i] == values[i]
}

/// No value is `i32::MIN`, so a value's negation fits.
pub open spec fn values_fit32(values: Seq<i32>) -> bool {
    forall|i: int| 0 <= i < values.len() ==> -0x7fff_ffff <= #[trigger] values[i]
}

/// The decision a Jacobi round takes for key `k` from the current values: a win
/// one ply beyond the shortest lost child, undecided while a child is undecided,
/// else a loss one ply beyond the longest won child.
pub open spec fn judge_spec(index: Map<u128, u32>, values: Seq<i32>, k: u128) -> Option<i32> {
    let (best, worst, open) = full_summary(index, values, k);
    match best {
        Some(d) => Some(step_up(d) as i32),
        None => if open {
            None
        } else {
            Some((-step_up(worst)) as i32)
        },
    }
}

proof fn lemma_summary_bounds(index: Map<u128, u32>, values: Seq<i32>, k: u128, n: int)
    requires
        values_fit32(values),
        0 <= n,
        forall|t: int|
            0 <= t < n ==> 0 <= #[trigger] index[key_child(k, moves_spec(unpack_spec(k))[t])] < values.len(),
    ensures
        ({
            let (best, worst, open) = key_summary(index, values, k, n);
            &&& (best matches Some(d) ==> 1 <= d <= 0x7fff_ffff)
            &&& 0 <= worst <= 0x7fff_ffff
        }),
    decreases n,
{
    if n > 0 {
        lemma_summary_bounds(index, values, k, n - 1);
        let c = index[key_child(k, moves_spec(unpack_spec(k))[n - 1])];
        assert(0 <= c < values.len());
        assert(-0x7fff_ffff <= values[c as int]);
    }
}

proof fn lemma_best_witness(index: Map<u128, u32>, values: Seq<i32>, k: u128, n: int)
    requires
        0 <= n,
    ensures
        key_summary(index, values, k, n).0 matches Some(d) ==> exists|t: int|
            0 <= t < n && child_value(index, values, k, #[trigger] moves_spec(unpack_spec(k))[t]) == -d,
        key_summary(index, values, k, n).0 matches Some(d) ==> d >= 1,
    decreases n,
{
    if n > 0 {
        lemma_best_witness(index, values, k, n - 1);
        let ms = moves_spec(unpack_spec(k));
        let cv = child_value(index, values, k, ms[n - 1]);
        match key_summary(index, values, k, n - 1).0 {
            Some(b) => {
                let t = choose|t: int| 0 <= t < n - 1 && child_value(index, values, k, #[trigger] ms[t]) == -b;
                assert(0 <= t < n && child_value(index, values, k, ms[t]) == -b);
            },
            None => {},
        }
        if cv < 0 {
            assert(child_value(index, values, k, ms[n - 1]) == -(-cv));
        }
    }
}

proof fn lemma_all_won(index: Map<u128, u32>, values: Seq<i32>, k: u128, n: int)
    requires
        0 <= n,
        key_summary(index, values, k, n).0 is None,
        !key_summary(index, values, k, n).2,
    ensures
        forall|t: int| 0 <= t < n ==> child_value(index, values, k, #[trigger] moves_spec(unpack_spec(k))[t]) > 0,
    decreases n,
{
    if n > 0 {
        lemma_all_won(index, values, k, n - 1);
    }
}

proof fn lemma_summary_stable(index: Map<u128, u32>, values: Seq<i32>, v2: Seq<i32>, k: u128, n: int)
    requires
        0 <= n,
        keeps_decided32(values, v2),
        forall|t: int|
            0 <= t < n ==> 0 <= #[trigger] index[key_child(k, moves_spec(unpack_spec(k))[t])] < values.len(),
        forall|t: int| 0 <= t < n ==> child_value(index, values, k, #[trigger] moves_spec(unpack_spec(k))[t]) != 0,
    ensures
        key_summary(index, v2, k, n) == key_summary(index, values, k, n),
    decreases n,
{
    if n > 0 {
        lemma_summary_stable(index, values, v2, k, n - 1);
        let c = index[key_child(k, moves_spec(unpack_spec(k))[n - 1])];
        assert(values[c as int] != 0);
        assert(v2[c as int] == values[c as int]);
    }
}

/// The child indices of key `k` are in range (it is searched further).
proof fn lemma_child_indices(keys: Seq<u128>, index: Map<u128, u32>, id: int)
    requires
        children_numbered(keys, index),
        0 <= id < keys.len(),
        key_expands(keys[id]),
    ensures
        forall|t: int|
            0 <= t < moves_spec(unpack_spec(keys[id])).len() ==> 0 <= #[trigger] index[key_child(
                keys[id],
                moves_spec(unpack_spec(keys[id]))[t],
            )] < keys.len(),
{
    reveal(key_closed);
    assert forall|t: int| 0 <= t < moves_spec(unpack_spec(keys[id])).len() implies 0 <= #[trigger] index[key_child(
        keys[id],
        moves_spec(unpack_spec(keys[id]))[t],
    )] < keys.len() by {
        lemma_index_below(keys, index, key_child(keys[id], moves_spec(unpack_spec(keys[id]))[t]));
    }
}

/// A justified decided value stays justified while decided values stay.
proof fn lemma_justified_stable(keys: Seq<u128>, index: Map<u128, u32>, values: Seq<i32>, v2: Seq<i32>, id: int)
    requires
        children_numbered(keys, index),
        values.len() == keys.len(),
        0 <= id < keys.len(),
        values[id] != 0,
        value_justified(keys, index, values, id),
        keeps_decided32(values, v2),
    ensures
        value_justified(keys, index, v2, id),
{
    let k = keys[id];
    let p = unpack_spec(k);
    let ms = moves_spec(p);
    assert(v2[id] == values[id]);
    if !has_king_capture(p) && ms.len() != 0 {
        reveal(key_expands);
        lemma_child_indices(keys, index, id);
        if values[id] > 0 {
            let i = choose|i: int|
                0 <= i < ms.len() && child_value(index, values, k, #[trigger] ms[i]) < 0 && values[id] as int == step_up(
                    -child_value(index, values, k, ms[i]),
                );
            let c = index[key_child(k, ms[i])];
            assert(v2[c as int] == values[c as int]);
            assert(0 <= i < ms.len() && child_value(index, v2, k, ms[i]) < 0 && v2[id] as int == step_up(
                -child_value(index, v2, k, ms[i]),
            ));
        } else {
            lemma_all_won(index, values, k, ms.len() as int);
            lemma_summary_stable(index, values, v2, k, ms.len() as int);
        }
    }
}

/// A Jacobi decision taken from `values` is justified once written.
proof fn lemma_judge_justified(keys: Seq<u128>, index: Map<u128, u32>, values: Seq<i32>, v2: Seq<i32>, id: int, v: i32)
    requires
        children_numbered(keys, index),
        values.len() == keys.len(),
        values_fit32(values),
        0 <= id < keys.len(),
        key_expands(keys[id]),
        moves_spec(unpack_spec(keys[id])).len() != 0,
        judge_spec(index, values, keys[id]) == Some(v),
        keeps_decided32(values, v2),
        v2[id] == v,
    ensures
        value_justified(keys, index, v2, id),
        v != 0,
{
    let k = keys[id];
    let ms = moves_spec(unpack_spec(k));
    reveal(key_expands);
    lemma_child_indices(keys, index, id);
    lemma_summary_bounds(index, values, k, ms.len() as int);
    let (best, worst, open) = full_summary(index, values, k);
    match best {
        Some(d) => {
            lemma_best_witness(index, values, k, ms.len() as int);
            let t = choose|t: int| 0 <= t < ms.len() && child_value(index, values, k, #[trigger] ms[t]) == -d;
            let c = index[key_child(k, ms[t])];
            assert(values[c as int] != 0);
            assert(v2[c as int] == values[c as int]);
            assert(0 <= t < ms.len() && child_value(index, v2, k, ms[t]) < 0 && v2[id] as int == step_up(
                -child_value(index, v2, k, ms[t]),
            ));
        },
        None => {
            lemma_all_won(index, values, k, ms.len() as int);
            lemma_summary_stable(index, values, v2, k, ms.len() as int);
        },
    }
}


/// A Jacobi decision does not go below `-i32::MAX`.
proof fn lemma_judge_bound(keys: Seq<u128>, index: Map<u128, u32>, values: Seq<i32>, id: int)
    requires
        children_numbered(keys, index),
        values.len() == keys.len(),
        values_fit32(values),
        0 <= id < keys.len(),
        key_expands(keys[id]),
    ensures
        judge_spec(index, values, keys[id]) matches Some(v) ==> -0x7fff_ffff <= v,
{
    let k = keys[id];
    lemma_child_indices(keys, index, id);
    lemma_summary_bounds(index, values, k, moves_spec(unpack_spec(k)).len() as int);
}

// ---------------------------------------------------------------------------
// Distances by Jacobi round
// ---------------------------------------------------------------------------

/// The value of a win decided in Jacobi round `r` (round 0 classifies the
/// keys whose side to move can capture the King).
pub open spec fn win_mag(r: nat) -> int
    decreases r,
{
    if r == 0 {
        1
    } else {
        step_up(loss_mag((r - 1) as nat))
    }
}

/// Minus the value of a loss decided in Jacobi round `r` (round 0 classifies
/// the keys with no move).
pub open spec fn loss_mag(r: nat) -> int
    decreases r,
{
    if r == 0 {
        2
    } else {
        step_up(win_mag((r - 1) as nat))
    }
}

proof fn lemma_mags_step(r: nat)
    ensures
        1 <= win_mag(r) <= win_mag(r + 1) <= 0x7fff_ffff,
        2 <= loss_mag(r) <= loss_mag(r + 1) <= 0x7fff_ffff,
    decreases r,
{
    if r > 0 {
        lemma_mags_step((r - 1) as nat);
    }
    assert(win_mag(r + 1) == step_up(loss_mag(r)));
    assert(loss_mag(r + 1) == step_up(win_mag(r)));
}

/// Wins and losses decided in later rounds are at least as far from the end.
proof fn lemma_mags_mono(r1: nat, r2: nat)
    requires
        r1 <= r2,
    ensures
        1 <= win_mag(r1) <= win_mag(r2) <= 0x7fff_ffff,
        2 <= loss_mag(r1) <= loss_mag(r2) <= 0x7fff_ffff,
    decreases r2 - r1,
{
    lemma_mags_step(r1);
    if r1 < r2 {
        lemma_mags_mono(r1 + 1, r2);
    }
}

/// A round's win or loss is at most two plies beyond the round number.
proof fn lemma_mags_bound(r: nat)
    ensures
        win_mag(r) <= r + 2,
        loss_mag(r) <= r + 2,
    decreases r,
{
    if r > 0 {
        lemma_mags_bound((r - 1) as nat);
    }
}

/// Values decided before round `t` are at most `t + 1` plies long.
proof fn lemma_rounds_small(values: Seq<i32>, dr: Seq<int>, t: int)
    requires
        rounds_ok(values, dr, t),
        t + 1 <= 0x7fff_fffe,
    ensures
        values_small32(values),
{
    assert forall|i: int| 0 <= i < values.len() implies -0x7fff_fffe <= #[trigger] values[i] <= 0x7fff_fffe by {
        if values[i] != 0 {
            lemma_mags_bound(dr[i] as nat);
            lemma_mags_mono(0, dr[i] as nat);
        }
    }
}

/// The number of the child reached by the `u`-th move from key `k`.
spec fn child_id(index: Map<u128, u32>, k: u128, u: int) -> int {
    index[key_child(k, moves_spec(unpack_spec(k))[u])] as int
}

/// Every decided value was decided in a round before `t`, and is the win or
/// loss of that round.
spec fn rounds_ok(values: Seq<i32>, dr: Seq<int>, t: int) -> bool {
    &&& dr.len() == values.len()
    &&& forall|i: int|
        0 <= i < values.len() && #[trigger] values[i] != 0 ==> {
            &&& 0 <= dr[i] < t
            &&& values[i] > 0 ==> values[i] == win_mag(dr[i] as nat)
            &&& values[i] < 0 ==> -values[i] == loss_mag(dr[i] as nat)
        }
}

/// An undecided key at the start of round `t`: its lost children were decided
/// in the last round, and some child is undecided or was decided then.
spec fn fresh_open(keys: Seq<u128>, index: Map<u128, u32>, values: Seq<i32>, dr: Seq<int>, id: int, t: int) -> bool {
    let k = keys[id];
    let n = moves_spec(unpack_spec(k)).len() as int;
    &&& forall|u: int| 0 <= u < n && values[child_id(index, k, u)] < 0 ==> dr[#[trigger] child_id(index, k, u)] == t - 1
    &&& exists|u: int|
        0 <= u < n && (values[#[trigger] child_id(index, k, u)] == 0 || dr[child_id(index, k, u)] == t - 1)
}

/// A key won in round `r >= 1`: its lost children were decided in round
/// `r - 1` or later, one of them in round `r - 1`.
spec fn win_settled(keys: Seq<u128>, index: Map<u128, u32>, values: Seq<i32>, dr: Seq<int>, id: int) -> bool {
    let k = keys[id];
    let r = dr[id];
    let n = moves_spec(unpack_spec(k)).len() as int;
    &&& forall|u: int| 0 <= u < n && values[child_id(index, k, u)] < 0 ==> dr[#[trigger] child_id(index, k, u)] >= r - 1
    &&& exists|u: int| 0 <= u < n && values[#[trigger] child_id(index, k, u)] < 0 && dr[child_id(index, k, u)] == r - 1
}

/// A won key's value is one ply beyond its shortest lost child.
pub open spec fn win_shortest(keys: Seq<u128>, index: Map<u128, u32>, values: Seq<i32>, id: int) -> bool {
    let k = keys[id];
    values[id] > 0 && !has_king_capture(unpack_spec(k)) ==> (full_summary(index, values, k).0 matches Some(d)
        && values[id] == step_up(d))
}

proof fn lemma_no_lost(index: Map<u128, u32>, values: Seq<i32>, k: u128, n: int)
    requires
        0 <= n,
        key_summary(index, values, k, n).0 is None,
    ensures
        forall|u: int| 0 <= u < n ==> child_value(index, values, k, #[trigger] moves_spec(unpack_spec(k))[u]) >= 0,
    decreases n,
{
    if n > 0 {
        lemma_no_lost(index, values, k, n - 1);
    }
}

proof fn lemma_open_witness(index: Map<u128, u32>, values: Seq<i32>, k: u128, n: int)
    requires
        0 <= n,
        key_summary(index, values, k, n).2,
    ensures
        exists|u: int| 0 <= u < n && child_value(index, values, k, #[trigger] moves_spec(unpack_spec(k))[u]) == 0,
    decreases n,
{
    if n > 0 {
        let ms = moves_spec(unpack_spec(k));
        if child_value(index, values, k, ms[n - 1]) != 0 {
            lemma_open_witness(index, values, k, n - 1);
            let u = choose|u: int| 0 <= u < n - 1 && child_value(index, values, k, #[trigger] ms[u]) == 0;
            assert(0 <= u < n && child_value(index, values, k, ms[u]) == 0);
        }
    }
}

/// The longest won child: at most `w` when no child is won beyond `w`, at
/// least `w` when one is won in `w`.
proof fn lemma_worst_bounds(index: Map<u128, u32>, values: Seq<i32>, k: u128, n: int, w: int)
    requires
        0 <= n,
        0 <= w,
    ensures
        (forall|u: int| 0 <= u < n ==> child_value(index, values, k, #[trigger] moves_spec(unpack_spec(k))[u]) <= w)
            ==> key_summary(index, values, k, n).1 <= w,
        (exists|u: int| 0 <= u < n && child_value(index, values, k, #[trigger] moves_spec(unpack_spec(k))[u]) == w)
            ==> key_summary(index, values, k, n).1 >= w,
        key_summary(index, values, k, n).1 >= 0,
    decreases n,
{
    if n > 0 {
        let ms = moves_spec(unpack_spec(k));
        lemma_worst_bounds(index, values, k, n - 1, w);
        if exists|u: int| 0 <= u < n && child_value(index, values, k, #[trigger] ms[u]) == w {
            let u = choose|u: int| 0 <= u < n && child_value(index, values, k, #[trigger] ms[u]) == w;
            if u < n - 1 {
                assert(exists|u2: int| 0 <= u2 < n - 1 && child_value(index, values, k, #[trigger] ms[u2]) == w);
            }
        }
        if forall|u: int| 0 <= u < n ==> child_value(index, values, k, #[trigger] ms[u]) <= w {
            assert forall|u: int| 0 <= u < n - 1 implies child_value(index, values, k, #[trigger] ms[u]) <= w by {
                assert(child_value(index, values, k, ms[u]) <= w);
            }
        }
    }
}

/// The shortest lost child is `d` when every lost child is lost in `d` plies
/// or more and one in exactly `d`.
proof fn lemma_best_exact(index: Map<u128, u32>, values: Seq<i32>, k: u128, n: int, d: int)
    requires
        0 <= n,
        1 <= d,
        forall|u: int|
            0 <= u < n && child_value(index, values, k, #[trigger] moves_spec(unpack_spec(k))[u]) < 0 ==> -child_value(
                index,
                values,
                k,
                moves_spec(unpack_spec(k))[u],
            ) >= d,
        exists|u: int| 0 <= u < n && child_value(index, values, k, #[trigger] moves_spec(unpack_spec(k))[u]) == -d,
    ensures
        key_summary(index, values, k, n).0 == Some(d),
    decreases n,
{
    let ms = moves_spec(unpack_spec(k));
    let last = child_value(index, values, k, ms[n - 1]);
    lemma_best_witness(index, values, k, n - 1);
    if exists|u: int| 0 <= u < n - 1 && child_value(index, values, k, #[trigger] ms[u]) == -d {
        assert forall|u: int|
            0 <= u < n - 1 && child_value(index, values, k, #[trigger] ms[u]) < 0 implies -child_value(
            index,
            values,
            k,
            ms[u],
        ) >= d by {}
        lemma_best_exact(index, values, k, n - 1, d);
    } else {
        assert(last == -d);
        match key_summary(index, values, k, n - 1).0 {
            Some(b) => {
                let t = choose|t: int| 0 <= t < n - 1 && child_value(index, values, k, #[trigger] ms[t]) == -b;
                assert(-child_value(index, values, k, ms[t]) >= d);
            },
            None => {},
        }
    }
}

/// A key decided in round `t` from the values at the round's start gets the
/// win or the loss of round `t`.
proof fn lemma_decision_round(
    keys: Seq<u128>,
    index: Map<u128, u32>,
    values: Seq<i32>,
    dr: Seq<int>,
    t: int,
    id: int,
    v: i32,
)
    requires
        children_numbered(keys, index),
        values.len() == keys.len(),
        values_fit32(values),
        t >= 1,
        rounds_ok(values, dr, t),
        0 <= id < keys.len(),
        key_expands(keys[id]),
        moves_spec(unpack_spec(keys[id])).len() != 0,
        fresh_open(keys, index, values, dr, id, t),
        judge_spec(index, values, keys[id]) == Some(v),
    ensures
        v > 0 ==> v == win_mag(t as nat),
        v > 0 ==> exists|u: int|
            0 <= u < moves_spec(unpack_spec(keys[id])).len() && values[#[trigger] child_id(index, keys[id], u)] < 0
                && dr[child_id(index, keys[id], u)] == t - 1,
        v < 0 ==> v == -loss_mag(t as nat),
        v != 0,
{
    let k = keys[id];
    let ms = moves_spec(unpack_spec(k));
    let n = ms.len() as int;
    lemma_child_indices(keys, index, id);
    lemma_summary_bounds(index, values, k, n);
    lemma_mags_mono((t - 1) as nat, t as nat);
    let (best, worst, open) = full_summary(index, values, k);
    assert(forall|u: int| 0 <= u < n ==> child_value(index, values, k, #[trigger] ms[u]) == values[child_id(index, k, u)]);
    match best {
        Some(d) => {
            lemma_best_witness(index, values, k, n);
            let u = choose|u: int| 0 <= u < n && child_value(index, values, k, #[trigger] ms[u]) == -d;
            let c = child_id(index, k, u);
            assert(values[c] < 0);
            assert(dr[c] == t - 1);
            assert(-values[c] == loss_mag((t - 1) as nat));
            assert(win_mag(t as nat) == step_up(loss_mag((t - 1) as nat)));
        },
        None => {
            assert(!open);
            lemma_all_won(index, values, k, n);
            let u = choose|u: int| 0 <= u < n && (values[#[trigger] child_id(index, k, u)] == 0 || dr[child_id(index, k, u)] == t - 1);
            assert(child_value(index, values, k, ms[u]) > 0);
            let w = win_mag((t - 1) as nat);
            assert forall|u2: int| 0 <= u2 < n implies child_value(index, values, k, #[trigger] ms[u2]) <= w by {
                let c2 = child_id(index, k, u2);
                assert(values[c2] > 0);
                lemma_mags_mono(dr[c2] as nat, (t - 1) as nat);
            }
            lemma_worst_bounds(index, values, k, n, w);
            assert(worst == w);
            assert(loss_mag(t as nat) == step_up(win_mag((t - 1) as nat)));
        },
    }
}

/// The rounds after round `t`: keys decided in it get `t`.
spec fn next_rounds(before: Seq<i32>, after: Seq<i32>, dr: Seq<int>, t: int) -> Seq<int> {
    Seq::new(dr.len(), |i: int| if before[i] == 0 && after[i] != 0 { t } else { dr[i] })
}

/// What holds of the table at the start of Jacobi round `t`.
spec fn round_start(keys: Seq<u128>, index: Map<u128, u32>, values: Seq<i32>, dr: Seq<int>, t: int) -> bool {
    &&& t >= 1
    &&& rounds_ok(values, dr, t)
    &&& forall|i: int| 0 <= i < values.len() && #[trigger] values[i] == 0 ==> fresh_open(keys, index, values, dr, i, t)
    &&& forall|i: int|
        0 <= i < values.len() && #[trigger] values[i] > 0 && dr[i] >= 1 ==> win_settled(keys, index, values, dr, i)
}

/// What a Jacobi round took from the values at its start: the keys it left
/// undecided are judged undecided, the others got their judgement.
spec fn round_taken(keys: Seq<u128>, index: Map<u128, u32>, before: Seq<i32>, after: Seq<i32>) -> bool {
    &&& keeps_decided32(before, after)
    &&& forall|i: int|
        0 <= i < before.len() && #[trigger] before[i] == 0 ==> {
            &&& key_expands(keys[i])
            &&& moves_spec(unpack_spec(keys[i])).len() != 0
            &&& judge_spec(index, before, keys[i]) == if after[i] == 0 {
                None
            } else {
                Some(after[i])
            }
        }
}

proof fn lemma_step_fresh(
    keys: Seq<u128>,
    index: Map<u128, u32>,
    before: Seq<i32>,
    after: Seq<i32>,
    dr: Seq<int>,
    t: int,
    i: int,
)
    requires
        children_numbered(keys, index),
        before.len() == keys.len(),
        values_fit32(before),
        round_start(keys, index, before, dr, t),
        round_taken(keys, index, before, after),
        0 <= i < keys.len(),
        after[i] == 0,
    ensures
        fresh_open(keys, index, after, next_rounds(before, after, dr, t), i, t + 1),
{
    let nd = next_rounds(before, after, dr, t);
    let k = keys[i];
    let ms = moves_spec(unpack_spec(k));
    let n = ms.len() as int;
    assert(before[i] == 0);
    lemma_child_indices(keys, index, i);
    let (best, worst, open) = full_summary(index, before, k);
    assert(best is None && open);
    lemma_no_lost(index, before, k, n);
    lemma_open_witness(index, before, k, n);
    assert forall|u: int| 0 <= u < n && after[child_id(index, k, u)] < 0 implies nd[#[trigger] child_id(
        index,
        k,
        u,
    )] == t by {
        let c = child_id(index, k, u);
        assert(child_value(index, before, k, ms[u]) >= 0);
        assert(before[c] == 0);
    }
    let u = choose|u: int| 0 <= u < n && child_value(index, before, k, #[trigger] ms[u]) == 0;
    assert(after[child_id(index, k, u)] == 0 || nd[child_id(index, k, u)] == t);
}

proof fn lemma_step_settled(
    keys: Seq<u128>,
    index: Map<u128, u32>,
    before: Seq<i32>,
    after: Seq<i32>,
    dr: Seq<int>,
    t: int,
    i: int,
)
    requires
        children_numbered(keys, index),
        before.len() == keys.len(),
        values_fit32(before),
        round_start(keys, index, before, dr, t),
        round_taken(keys, index, before, after),
        forall|j: int| 0 <= j < keys.len() && before[j] != 0 ==> #[trigger] value_justified(keys, index, before, j),
        0 <= i < keys.len(),
        after[i] > 0,
        next_rounds(before, after, dr, t)[i] >= 1,
    ensures
        win_settled(keys, index, after, next_rounds(before, after, dr, t), i),
{
    let nd = next_rounds(before, after, dr, t);
    let k = keys[i];
    let ms = moves_spec(unpack_spec(k));
    let n = ms.len() as int;
    let r = nd[i];
    if before[i] != 0 {
        assert(before[i] == after[i]);
        assert(value_justified(keys, index, before, i));
        lemma_mags_mono(1, dr[i] as nat);
        assert(!has_king_capture(unpack_spec(k)));
        reveal(key_expands);
        lemma_child_indices(keys, index, i);
        assert(win_settled(keys, index, before, dr, i));
        assert forall|u: int| 0 <= u < n && after[child_id(index, k, u)] < 0 implies nd[#[trigger] child_id(
            index,
            k,
            u,
        )] >= r - 1 by {
            let c = child_id(index, k, u);
            if before[c] != 0 {
                assert(before[c] < 0);
            }
        }
        let u = choose|u: int| 0 <= u < n && before[#[trigger] child_id(index, k, u)] < 0 && dr[child_id(index, k, u)] == r - 1;
        assert(after[child_id(index, k, u)] < 0 && nd[child_id(index, k, u)] == r - 1);
    } else {
        lemma_child_indices(keys, index, i);
        lemma_decision_round(keys, index, before, dr, t, i, after[i]);
        assert forall|u: int| 0 <= u < n && after[child_id(index, k, u)] < 0 implies nd[#[trigger] child_id(
            index,
            k,
            u,
        )] >= r - 1 by {
            let c = child_id(index, k, u);
            if before[c] != 0 {
                assert(before[c] < 0);
                assert(dr[c] == t - 1);
            }
        }
        let u = choose|u: int|
            0 <= u < n && before[#[trigger] child_id(index, keys[i], u)] < 0 && dr[child_id(index, keys[i], u)] == t - 1;
        assert(after[child_id(index, k, u)] < 0 && nd[child_id(index, k, u)] == r - 1);
    }
}

/// One Jacobi round keeps what holds at a round's start.
proof fn lemma_round_step(
    keys: Seq<u128>,
    index: Map<u128, u32>,
    before: Seq<i32>,
    after: Seq<i32>,
    dr: Seq<int>,
    t: int,
)
    requires
        children_numbered(keys, index),
        before.len() == keys.len(),
        values_fit32(before),
        round_start(keys, index, before, dr, t),
        round_taken(keys, index, before, after),
        forall|j: int| 0 <= j < keys.len() && before[j] != 0 ==> #[trigger] value_justified(keys, index, before, j),
    ensures
        round_start(keys, index, after, next_rounds(before, after, dr, t), t + 1),
{
    let nd = next_rounds(before, after, dr, t);
    let n = keys.len();
    assert forall|i: int| 0 <= i < n && #[trigger] after[i] != 0 implies {
        &&& 0 <= nd[i] < t + 1
        &&& after[i] > 0 ==> after[i] == win_mag(nd[i] as nat)
        &&& after[i] < 0 ==> -after[i] == loss_mag(nd[i] as nat)
    } by {
        if before[i] == 0 {
            lemma_decision_round(keys, index, before, dr, t, i, after[i]);
        } else {
            assert(after[i] == before[i]);
        }
    }
    assert(rounds_ok(after, nd, t + 1));
    assert forall|i: int| 0 <= i < n && #[trigger] after[i] == 0 implies fresh_open(keys, index, after, nd, i, t + 1) by {
        lemma_step_fresh(keys, index, before, after, dr, t, i);
    }
    assert forall|i: int| 0 <= i < n && #[trigger] after[i] > 0 && nd[i] >= 1 implies win_settled(
        keys,
        index,
        after,
        nd,
        i,
    ) by {
        lemma_step_settled(keys, index, before, after, dr, t, i);
    }
}

/// At the fixpoint every won key is one ply beyond its shortest lost child.
proof fn lemma_fixpoint_shortest(
    keys: Seq<u128>,
    index: Map<u128, u32>,
    values: Seq<i32>,
    dr: Seq<int>,
    t: int,
    id: int,
)
    requires
        children_numbered(keys, index),
        values.len() == keys.len(),
        round_start(keys, index, values, dr, t),
        0 <= id < keys.len(),
        value_justified(keys, index, values, id),
    ensures
        win_shortest(keys, index, values, id),
{
    let k = keys[id];
    let ms = moves_spec(unpack_spec(k));
    let n = ms.len() as int;
    if values[id] > 0 && !has_king_capture(unpack_spec(k)) {
        reveal(key_expands);
        lemma_child_indices(keys, index, id);
        if dr[id] == 0 {
            assert(values[id] == 1);
            let u = choose|u: int|
                0 <= u < ms.len() && child_value(index, values, k, #[trigger] ms[u]) < 0 && values[id] as int
                    == step_up(-child_value(index, values, k, ms[u]));
            assert(false);
        } else {
            let r = dr[id];
            let l = loss_mag((r - 1) as nat);
            assert(win_settled(keys, index, values, dr, id));
            assert forall|u: int|
                0 <= u < n && child_value(index, values, k, #[trigger] ms[u]) < 0 implies -child_value(
                index,
                values,
                k,
                ms[u],
            ) >= l by {
                let c = child_id(index, k, u);
                assert(values[c] < 0);
                lemma_mags_mono((r - 1) as nat, dr[c] as nat);
            }
            let u = choose|u: int| 0 <= u < n && values[#[trigger] child_id(index, k, u)] < 0 && dr[child_id(index, k, u)] == r - 1;
            assert(child_value(index, values, k, ms[u]) == -l);
            lemma_mags_mono((r - 1) as nat, r as nat);
            lemma_best_exact(index, values, k, n, l);
        }
    }
}

/// After the classification (round 0) the first Jacobi round can start.
proof fn lemma_round_one(keys: Seq<u128>, index: Map<u128, u32>, values: Seq<i32>)
    requires
        children_numbered(keys, index),
        values.len() == keys.len(),
        forall|i: int| 0 <= i < values.len() ==> #[trigger] values[i] == 1 || values[i] == -2 || values[i] == 0,
        forall|i: int|
            0 <= i < values.len() && #[trigger] values[i] == 0 ==> key_expands(keys[i]) && moves_spec(
                unpack_spec(keys[i]),
            ).len() != 0,
    ensures
        round_start(keys, index, values, Seq::new(values.len(), |i: int| 0int), 1),
{
    let dr = Seq::new(values.len(), |i: int| 0int);
    assert forall|i: int| 0 <= i < values.len() && #[trigger] values[i] == 0 implies fresh_open(
        keys,
        index,
        values,
        dr,
        i,
        1,
    ) by {
        let k = keys[i];
        lemma_child_indices(keys, index, i);
        assert(0 <= child_id(index, k, 0) < values.len());
        assert(dr[child_id(index, k, 0)] == 0);
    }
}

/// The keys of undecided entries are searched further, with at least one move.
proof fn lemma_unknown_expands(
    keys: Seq<u128>,
    index: Map<u128, u32>,
    kids: Seq<u32>,
    unknown: Seq<(usize, usize, usize)>,
    values: Seq<i32>,
)
    requires
        entries_ok(keys, index, kids, unknown),
        values.len() == keys.len(),
        values.len() <= usize::MAX,
        forall|i: int| 0 <= i < values.len() ==> (#[trigger] values[i] == 0 <==> ids_of(unknown).contains(i as usize)),
    ensures
        forall|i: int|
            0 <= i < values.len() && #[trigger] values[i] == 0 ==> key_expands(keys[i]) && moves_spec(
                unpack_spec(keys[i]),
            ).len() != 0,
{
    assert forall|i: int| 0 <= i < values.len() && #[trigger] values[i] == 0 implies key_expands(keys[i])
        && moves_spec(unpack_spec(keys[i])).len() != 0 by {
        assert(ids_of(unknown).contains(i as usize));
        let w = choose|w: int| 0 <= w < ids_of(unknown).len() && ids_of(unknown)[w] == i as usize;
        assert(unknown[w].0 == i);
    }
}

// ---------------------------------------------------------------------------
// Wall-clock time of the fixpoint
// ---------------------------------------------------------------------------

/// `std::time::Instant`, carried opaque through the timing of the fixpoint.
#[verifier::external_type_specification]
#[verifier::external_body]
pub struct ExInstant(std::time::Instant);

/// `Instant::now`: the current instant. Nothing is promised of it.
#[verifier::external_body]
fn now() -> std::time::Instant {
    std::time::Instant::now()
}

/// `Instant::elapsed`: the time since `t`. Nothing is promised of it.
#[verifier::external_body]
fn elapsed(t: &std::time::Instant) -> std::time::Duration {
    t.elapsed()
}

/// `Duration::as_nanos`: the duration in whole nanoseconds. Nothing is promised
/// of it here.
#[verifier::external_body]
fn as_nanos(d: &std::time::Duration) -> u128 {
    d.as_nanos()
}

/// What a solved table promises: its keys are those `enumerate` gives for
/// `start`, and every value is justified (see `value_justified`).
pub open spec fn solved_from(start: PosView, s: Solved) -> bool {
    &&& s.keys@.len() >= 1
    &&& s.keys@[0] == canonical_key_spec(start)
    &&& children_numbered(s.keys@, s.index@)
    &&& key_origins(s.keys@)
    &&& s.values@.len() == s.keys@.len()
    &&& values_fit32(s.values@)
    &&& forall|id: int| 0 <= id < s.keys@.len() ==> #[trigger] value_justified(s.keys@, s.index@, s.values@, id)
    &&& forall|id: int| 0 <= id < s.keys@.len() ==> #[trigger] win_shortest(s.keys@, s.index@, s.values@, id)
}

/// The numbers of the children of the `id`-th key, move by move, are listed at
/// `kids[s..e]`.
pub open spec fn kids_listed(
    keys: Seq<u128>,
    index: Map<u128, u32>,
    kids: Seq<u32>,
    id: int,
    s: int,
    e: int,
) -> bool {
    let k = keys[id];
    &&& 0 <= s <= e <= kids.len()
    &&& e - s == moves_spec(unpack_spec(k)).len()
    &&& forall|t: int| 0 <= t < e - s ==> #[trigger] kids[s + t] == index[key_child(k, moves_spec(unpack_spec(k))[t])]
}

/// Judge the `id`-th key from its children's current values, its children being
/// listed at `kids[s..e]`.
fn judge(
    values: &Vec<i32>,
    kids: &Vec<u32>,
    s: usize,
    e: usize,
    Ghost(keys): Ghost<Seq<u128>>,
    Ghost(index): Ghost<Map<u128, u32>>,
    Ghost(id): Ghost<int>,
) -> (r: Option<i32>)
    requires
        children_numbered(keys, index),
        values@.len() == keys.len(),
        values_fit32(values@),
        0 <= id < keys.len(),
        key_expands(keys[id]),
        kids_listed(keys, index, kids@, id, s as int, e as int),
    ensures
        r == judge_spec(index, values@, keys[id]),
{
    let ghost k = keys[id];
    let ghost ms = moves_spec(unpack_spec(k));
    proof {
        lemma_child_indices(keys, index, id);
        lemma_summary_bounds(index, values@, k, ms.len() as int);
    }
    let mut best_win: Option<i32> = None;
    let mut worst_loss: i32 = 0;
    let mut any_unknown = false;
    let mut t: usize = s;
    while t < e
        invariant
            s <= t <= e,
            kids_listed(keys, index, kids@, id, s as int, e as int),
            k == keys[id],
            ms == moves_spec(unpack_spec(k)),
            values@.len() == keys.len(),
            values_fit32(values@),
            forall|u: int| 0 <= u < ms.len() ==> 0 <= #[trigger] index[key_child(k, ms[u])] < values@.len(),
            key_summary(index, values@, k, t - s) == (
                match best_win {
                    Some(b) => Some(b as int),
                    None => None,
                },
                worst_loss as int,
                any_unknown,
            ),
        decreases e - t,
    {
        proof {
            lemma_summary_bounds(index, values@, k, t - s);
            assert(kids@[s + (t - s)] == index[key_child(k, ms[t - s])]);
        }
        let v = values[kids[t] as usize];
        if v == 0 {
            any_unknown = true;
        } else if v < 0 {
            let d = -v;
            best_win = Some(
                match best_win {
                    Some(b) => if b <= d {
                        b
                    } else {
                        d
                    },
                    None => d,
                },
            );
        } else {
            if v > worst_loss {
                worst_loss = v;
            }
        }
        t += 1;
    }
    match best_win {
        Some(d) => Some(if d < 0x7fff_ffff {
            d + 1
        } else {
            d
        }),
        None => if any_unknown {
            None
        } else {
            Some(
                -(if worst_loss < 0x7fff_ffff {
                    worst_loss + 1
                } else {
                    worst_loss
                }),
            )
        },
    }
}

/// The keys of undecided entries.
pub open spec fn ids_of(u: Seq<(usize, usize, usize)>) -> Seq<usize> {
    Seq::new(u.len(), |t: int| u[t].0)
}

/// The undecided entries: distinct keys below `n`, each searched further with
/// at least one move, its children listed in `kids`.
pub open spec fn entries_ok(keys: Seq<u128>, index: Map<u128, u32>, kids: Seq<u32>, u: Seq<(usize, usize, usize)>) -> bool {
    &&& ids_of(u).no_duplicates()
    &&& forall|t: int|
        0 <= t < u.len() ==> {
            let x = #[trigger] u[t];
            &&& x.0 < keys.len()
            &&& key_expands(keys[x.0 as int])
            &&& moves_spec(unpack_spec(keys[x.0 as int])).len() != 0
            &&& kids_listed(keys, index, kids, x.0 as int, x.1 as int, x.2 as int)
        }
}

/// Retrograde solve: enumerate, classify (1 for a King capture at hand, -2 for
/// no move), then Jacobi rounds until a round decides nothing: each round
/// judges every undecided key from the values at the round's start.
#[verifier::rlimit(50)]
pub fn solve(start: &Position) -> (s: Solved)
    ensures
        solved_from(start@, s),
        s.keys@.len() < u32::MAX ==> 1 <= s.rounds <= s.keys@.len() + 1,
        s.keys@.len() + 3 <= 0x7fff_fffe ==> values_small32(s.values@),
        bfs_ordered(s.keys@),
{
    let (keys, index) = enumerate(start);
    let n = keys.len();
    let mut values: Vec<i32> = vec![0i32; n];
    let mut unknown: Vec<(usize, usize, usize)> = Vec::new();
    let mut kids: Vec<u32> = Vec::new();
    proof {
        reveal(key_closed);
        assert forall|i: int| 0 <= i < n implies values@[i] == 0 by {}
        assert(ids_of(unknown@) =~= Seq::<usize>::empty());
    }
    let mut id: usize = 0;
    while id < n
        invariant
            n == keys@.len(),
            id <= n,
            children_numbered(keys@, index@),
            values@.len() == n,
            forall|i: int| 0 <= i < n ==> #[trigger] values@[i] == 1 || values@[i] == -2 || values@[i] == 0,
            forall|i: int| id <= i < n ==> #[trigger] values@[i] == 0,
            entries_ok(keys@, index@, kids@, unknown@),
            forall|t: int| 0 <= t < unknown@.len() ==> #[trigger] unknown@[t].0 < id,
            unknown@.len() <= id,
            forall|i: int| 0 <= i < id ==> (#[trigger] values@[i] == 0 <==> ids_of(unknown@).contains(i as usize)),
            forall|i: int|
                0 <= i < id && values@[i] != 0 ==> #[trigger] value_justified(keys@, index@, values@, i),
        decreases n - id,
    {
        let ghost k = keys@[id as int];
        let p = unpack(keys[id]);
        let moves = p.moves();
        let win = any_king_capture(&p, &moves);
        let ghost before = values@;
        let ghost u_before = unknown@;
        if win {
            values.set(id, 1);
        } else if moves.len() == 0 {
            values.set(id, -2);
        } else {
            proof {
                reveal(key_expands);
                reveal(key_closed);
                assert(!ids_of(unknown@).contains(id)) by {
                    if ids_of(unknown@).contains(id) {
                        let t = choose|t: int| 0 <= t < ids_of(unknown@).len() && ids_of(unknown@)[t] == id;
                        assert(unknown@[t].0 == id);
                    }
                }
            }
            let start_at = kids.len();
            let ghost kids0 = kids@;
            let mut i: usize = 0;
            while i < moves.len()
                invariant
                    i <= moves@.len(),
                    moves@ == moves_spec(p@),
                    p@ == unpack_spec(k),
                    k == keys@[id as int],
                    id < n,
                    n == keys@.len(),
                    key_expands(k),
                    !has_king_capture(p@),
                    children_numbered(keys@, index@),
                    start_at == kids0.len(),
                    kids@.len() == start_at + i,
                    forall|x: int| 0 <= x < start_at ==> #[trigger] kids@[x] == kids0[x],
                    forall|t: int|
                        0 <= t < i ==> #[trigger] kids@[start_at + t] == index@[key_child(k, moves_spec(p@)[t])],
                decreases moves@.len() - i,
            {
                let m = moves[i];
                proof {
                    assert(moves_spec(p@).contains(m));
                    assert(!is_king_capture(p@, moves_spec(p@)[i as int]));
                    reveal(key_closed);
                    assert(index@.contains_key(key_child(keys@[id as int], moves_spec(unpack_spec(keys@[id as int]))[i as int])));
                }
                let ck = child_key(&p, &m, Ghost(k));
                let cid = match index.get(&ck) {
                    Some(c) => *c,
                    None => 0,
                };
                kids.push(cid);
                i += 1;
            }
            let end_at = kids.len();
            unknown.push((id, start_at, end_at));
            proof {
                assert forall|t: int| 0 <= t < u_before.len() implies kids_listed(
                    keys@,
                    index@,
                    kids@,
                    u_before[t].0 as int,
                    u_before[t].1 as int,
                    u_before[t].2 as int,
                ) by {
                    let x = u_before[t];
                    assert(kids_listed(keys@, index@, kids0, x.0 as int, x.1 as int, x.2 as int));
                    assert forall|v: int| 0 <= v < x.2 - x.1 implies #[trigger] kids@[x.1 + v] == kids0[x.1 + v] by {}
                }
                assert(kids_listed(keys@, index@, kids@, id as int, start_at as int, end_at as int));
                assert(ids_of(unknown@) =~= ids_of(u_before).push(id));
            }
        }
        proof {
            if !win && moves@.len() != 0 {
                assert(ids_of(unknown@) =~= ids_of(u_before).push(id));
            } else {
                assert(unknown@ == u_before);
            }
            assert forall|x: usize| #[trigger] ids_of(unknown@).contains(x) <==> (ids_of(u_before).contains(x) || (x
                == id && values@[id as int] == 0)) by {
                if ids_of(u_before).contains(x) {
                    let w = choose|w: int| 0 <= w < ids_of(u_before).len() && ids_of(u_before)[w] == x;
                    assert(ids_of(unknown@)[w] == x);
                }
                if ids_of(unknown@).contains(x) && x != id {
                    let w = choose|w: int| 0 <= w < ids_of(unknown@).len() && ids_of(unknown@)[w] == x;
                    if w < u_before.len() {
                        assert(ids_of(u_before)[w] == x);
                    }
                }
                if x == id && values@[id as int] == 0 {
                    assert(ids_of(unknown@)[ids_of(unknown@).len() - 1] == id);
                }
            }
            assert forall|i: int| 0 <= i < id + 1 && values@[i] != 0 implies #[trigger] value_justified(
                keys@,
                index@,
                values@,
                i,
            ) by {
                if i < id {
                    assert(before[i] != 0);
                    lemma_justified_stable(keys@, index@, before, values@, i);
                }
            }
            assert forall|i: int| 0 <= i < id + 1 implies (#[trigger] values@[i] == 0 <==> ids_of(unknown@).contains(
                i as usize,
            )) by {
                if i < id {
                    assert(values@[i] == before[i]);
                    assert(ids_of(unknown@).contains(i as usize) <==> ids_of(u_before).contains(i as usize));
                }
            }
        }
        id += 1;
    }
    let mut edges: u64 = 0;
    let mut rounds: u32 = 0;
    let ghost mut dr: Seq<int> = Seq::new(n as nat, |i: int| 0int);
    let ghost mut round: int = 1;
    let ghost mut nr: int = 0;
    proof {
        lemma_unknown_expands(keys@, index@, kids@, unknown@, values@);
        lemma_round_one(keys@, index@, values@);
    }
    let t = now();
    loop
        invariant_except_break
            n == keys@.len(),
            children_numbered(keys@, index@),
            values@.len() == n,
            values_fit32(values@),
            entries_ok(keys@, index@, kids@, unknown@),
            forall|i: int| 0 <= i < n ==> (#[trigger] values@[i] == 0 <==> ids_of(unknown@).contains(i as usize)),
            forall|i: int| 0 <= i < n && values@[i] != 0 ==> #[trigger] value_justified(keys@, index@, values@, i),
            round_start(keys@, index@, values@, dr, round),
            0 <= nr,
            round == nr + 1,
            nr + unknown@.len() <= n,
            nr <= u32::MAX ==> rounds == nr,
        ensures
            1 <= nr <= n + 1,
            round == nr + 1,
            nr <= u32::MAX ==> rounds == nr,
            n == keys@.len(),
            children_numbered(keys@, index@),
            values@.len() == n,
            values_fit32(values@),
            forall|i: int| 0 <= i < n ==> #[trigger] value_justified(keys@, index@, values@, i),
            round_start(keys@, index@, values@, dr, round),
        decreases unknown@.len(),
    {
        proof {
            lemma_unknown_expands(keys@, index@, kids@, unknown@, values@);
        }
        rounds = rounds.wrapping_add(1);
        proof {
            nr = nr + 1;
        }
        let mut decisions: Vec<(usize, i32)> = Vec::new();
        let mut next: Vec<(usize, usize, usize)> = Vec::new();
        let ghost uids = ids_of(unknown@);
        proof {
            assert(ids_of(next@) =~= Seq::<usize>::empty());
        }
        let mut j: usize = 0;
        while j < unknown.len()
            invariant
                n == keys@.len(),
                children_numbered(keys@, index@),
                values@.len() == n,
                values_fit32(values@),
                j <= unknown@.len(),
                uids == ids_of(unknown@),
                entries_ok(keys@, index@, kids@, unknown@),
                decisions@.len() + next@.len() == j,
                forall|a: int|
                    0 <= a < decisions@.len() ==> uids.take(j as int).contains(#[trigger] decisions@[a].0)
                        && judge_spec(index@, values@, keys@[decisions@[a].0 as int]) == Some(decisions@[a].1),
                forall|a: int, b: int|
                    0 <= a < b < decisions@.len() ==> #[trigger] decisions@[a].0 != #[trigger] decisions@[b].0,
                entries_ok(keys@, index@, kids@, next@),
                forall|a: int|
                    0 <= a < next@.len() ==> uids.take(j as int).contains(#[trigger] next@[a].0) && judge_spec(
                        index@,
                        values@,
                        keys@[next@[a].0 as int],
                    ) is None,
                forall|t: int|
                    0 <= t < j ==> ids_of(next@).contains(#[trigger] uids[t]) || exists|a: int|
                        0 <= a < decisions@.len() && decisions@[a].0 == uids[t],
            decreases unknown@.len() - j,
        {
            let entry = unknown[j];
            let uid = entry.0;
            proof {
                assert(uids[j as int] == uid);
            }
            let dec = judge(&values, &kids, entry.1, entry.2, Ghost(keys@), Ghost(index@), Ghost(uid as int));
            edges = edges.wrapping_add((entry.2 - entry.1) as u64);
            let ghost t0 = uids.take(j as int);
            let ghost t1 = uids.take(j + 1);
            let ghost old_dec = decisions@;
            let ghost old_next = next@;
            proof {
                assert(t1 =~= t0.push(uid));
                assert(!t0.contains(uid)) by {
                    if t0.contains(uid) {
                        let w = choose|w: int| 0 <= w < t0.len() && t0[w] == uid;
                        assert(uids[w] == uids[j as int]);
                    }
                }
                assert forall|x: usize| t0.contains(x) implies #[trigger] t1.contains(x) by {
                    let w = choose|w: int| 0 <= w < t0.len() && t0[w] == x;
                    assert(t1[w] == x);
                }
                assert(t1.contains(uid)) by {
                    assert(t1[j as int] == uid);
                }
            }
            match dec {
                Some(v) => {
                    decisions.push((uid, v));
                },
                None => {
                    proof {
                        assert(!ids_of(next@).contains(uid)) by {
                            if ids_of(next@).contains(uid) {
                                let w = choose|w: int| 0 <= w < ids_of(next@).len() && ids_of(next@)[w] == uid;
                                assert(t0.contains(next@[w].0));
                            }
                        }
                    }
                    next.push(entry);
                    proof {
                        assert(ids_of(next@) =~= ids_of(old_next).push(uid));
                    }
                },
            }
            proof {
                if dec is Some {
                    assert(next@ == old_next);
                }
                assert forall|x: usize| ids_of(old_next).contains(x) implies #[trigger] ids_of(next@).contains(x) by {
                    let w = choose|w: int| 0 <= w < ids_of(old_next).len() && ids_of(old_next)[w] == x;
                    assert(ids_of(next@)[w] == x);
                }
                assert forall|a: int| 0 <= a < old_dec.len() implies #[trigger] decisions@[a] == old_dec[a] by {}
                assert forall|t: int|
                    0 <= t < j + 1 implies ids_of(next@).contains(#[trigger] uids[t]) || exists|a: int|
                        0 <= a < decisions@.len() && decisions@[a].0 == uids[t] by {
                    if t == j {
                        if dec is Some {
                            assert(decisions@[decisions@.len() - 1].0 == uids[t]);
                        } else {
                            assert(ids_of(next@)[ids_of(next@).len() - 1] == uids[t]);
                        }
                    } else if !ids_of(old_next).contains(uids[t]) {
                        let a = choose|a: int| 0 <= a < old_dec.len() && old_dec[a].0 == uids[t];
                        assert(decisions@[a] == old_dec[a]);
                    }
                }
            }
            j += 1;
        }
        proof {
            assert(uids.take(uids.len() as int) =~= uids);
        }
        let decided = decisions.len();
        let ghost before = values@;
        let mut a: usize = 0;
        while a < decisions.len()
            invariant
                n == keys@.len(),
                a <= decisions@.len(),
                before.len() == n,
                values@.len() == n,
                forall|x: int, y: int|
                    0 <= x < y < decisions@.len() ==> #[trigger] decisions@[x].0 != #[trigger] decisions@[y].0,
                forall|x: int| 0 <= x < decisions@.len() ==> #[trigger] decisions@[x].0 < n,
                forall|i: int|
                    0 <= i < n ==> #[trigger] values@[i] == (if exists|x: int| 0 <= x < a && decisions@[x].0 == i {
                        decisions@[choose|x: int| 0 <= x < a && decisions@[x].0 == i].1
                    } else {
                        before[i]
                    }),
            decreases decisions@.len() - a,
        {
            let (did, dv) = decisions[a];
            values.set(did, dv);
            proof {
                assert forall|i: int| 0 <= i < n implies #[trigger] values@[i] == (if exists|x: int|
                    0 <= x < a + 1 && decisions@[x].0 == i {
                    decisions@[choose|x: int| 0 <= x < a + 1 && decisions@[x].0 == i].1
                } else {
                    before[i]
                }) by {
                    if i == did as int {
                        assert(decisions@[a as int].0 == i);
                        let x = choose|x: int| 0 <= x < a + 1 && decisions@[x].0 == i;
                        assert(x == a);
                    } else {
                        if exists|x: int| 0 <= x < a + 1 && decisions@[x].0 == i {
                            let x = choose|x: int| 0 <= x < a + 1 && decisions@[x].0 == i;
                            assert(x != a);
                            assert(exists|y: int| 0 <= y < a && decisions@[y].0 == i);
                        }
                    }
                }
            }
            a += 1;
        }
        proof {
            assert forall|i: int| 0 <= i < n && before[i] != 0 implies #[trigger] values@[i] == before[i] by {
                if exists|x: int| 0 <= x < decisions@.len() && decisions@[x].0 == i {
                    let x = choose|x: int| 0 <= x < decisions@.len() && decisions@[x].0 == i;
                    let w = choose|w: int| 0 <= w < uids.len() && uids[w] == decisions@[x].0;
                    assert(before[uids[w] as int] == 0);
                }
            }
            assert(keeps_decided32(before, values@));
            assert forall|i: int| 0 <= i < n implies #[trigger] value_justified(keys@, index@, values@, i)
                || values@[i] == 0 by {
                if exists|x: int| 0 <= x < decisions@.len() && decisions@[x].0 == i {
                    let x = choose|x: int| 0 <= x < decisions@.len() && decisions@[x].0 == i;
                    let w = choose|w: int| 0 <= w < uids.len() && uids[w] == decisions@[x].0;
                    assert(unknown@[w].0 == uids[w]);
                    lemma_judge_justified(keys@, index@, before, values@, i, decisions@[x].1);
                } else if before[i] != 0 {
                    lemma_justified_stable(keys@, index@, before, values@, i);
                }
            }
            assert forall|x: int| 0 <= x < decisions@.len() implies -0x7fff_ffff <= #[trigger] decisions@[x].1 by {
                let w = choose|w: int| 0 <= w < uids.len() && uids[w] == decisions@[x].0;
                assert(unknown@[w].0 == uids[w]);
                lemma_judge_bound(keys@, index@, before, decisions@[x].0 as int);
            }
            assert forall|i: int| 0 <= i < n implies -0x7fff_ffff <= #[trigger] values@[i] by {
                if exists|x: int| 0 <= x < decisions@.len() && decisions@[x].0 == i {
                    let x = choose|x: int| 0 <= x < decisions@.len() && decisions@[x].0 == i;
                    assert(-0x7fff_ffff <= decisions@[x].1);
                }
            }
            assert forall|i: int| 0 <= i < n implies (#[trigger] values@[i] == 0 <==> ids_of(next@).contains(
                i as usize,
            )) by {
                if exists|x: int| 0 <= x < decisions@.len() && decisions@[x].0 == i {
                    let x = choose|x: int| 0 <= x < decisions@.len() && decisions@[x].0 == i;
                    let w = choose|w: int| 0 <= w < uids.len() && uids[w] == decisions@[x].0;
                    assert(unknown@[w].0 == uids[w]);
                    lemma_judge_justified(keys@, index@, before, values@, i, decisions@[x].1);
                    if ids_of(next@).contains(i as usize) {
                        let y = choose|y: int| 0 <= y < ids_of(next@).len() && ids_of(next@)[y] == i as usize;
                        assert(judge_spec(index@, before, keys@[next@[y].0 as int]) is None);
                    }
                } else if before[i] != 0 {
                    if ids_of(next@).contains(i as usize) {
                        let y = choose|y: int| 0 <= y < ids_of(next@).len() && ids_of(next@)[y] == i as usize;
                        assert(uids.take(uids.len() as int).contains(next@[y].0));
                        assert(uids.contains(i as usize));
                    }
                } else {
                    assert(uids.contains(i as usize));
                    let w = choose|w: int| 0 <= w < uids.len() && uids[w] == i as usize;
                    assert(ids_of(next@).contains(uids[w]) || exists|x: int|
                        0 <= x < decisions@.len() && decisions@[x].0 == uids[w]);
                }
            }
            assert forall|i: int| 0 <= i < n && #[trigger] before[i] == 0 implies judge_spec(index@, before, keys@[i])
                == if values@[i] == 0 {
                None
            } else {
                Some(values@[i])
            } by {
                if exists|x: int| 0 <= x < decisions@.len() && decisions@[x].0 == i {
                    let x = choose|x: int| 0 <= x < decisions@.len() && decisions@[x].0 == i;
                    let w = choose|w: int| 0 <= w < uids.len() && uids[w] == decisions@[x].0;
                    assert(unknown@[w].0 == uids[w]);
                    lemma_judge_justified(keys@, index@, before, values@, i, decisions@[x].1);
                } else {
                    assert(uids.contains(i as usize));
                    let w = choose|w: int| 0 <= w < uids.len() && uids[w] == i as usize;
                    assert(ids_of(next@).contains(uids[w]) || exists|x: int|
                        0 <= x < decisions@.len() && decisions@[x].0 == uids[w]);
                    let y = choose|y: int| 0 <= y < ids_of(next@).len() && ids_of(next@)[y] == i as usize;
                    assert(judge_spec(index@, before, keys@[next@[y].0 as int]) is None);
                }
            }
            assert(round_taken(keys@, index@, before, values@));
            lemma_round_step(keys@, index@, before, values@, dr, round);
            dr = next_rounds(before, values@, dr, round);
            round = round + 1;
            if decided == 0 {
                assert(values@ =~= before);
                assert forall|i: int| 0 <= i < n implies #[trigger] value_justified(keys@, index@, values@, i) by {
                    if values@[i] == 0 {
                        let y = choose|y: int| 0 <= y < ids_of(next@).len() && ids_of(next@)[y] == i as usize;
                        assert(judge_spec(index@, before, keys@[next@[y].0 as int]) is None);
                        assert(key_expands(keys@[next@[y].0 as int]));
                        reveal(key_expands);
                    }
                }
            }
        }
        unknown = next;
        if decided == 0 {
            break;
        }
    }
    let fixpoint_ns = as_nanos(&elapsed(&t));
    proof {
        if n + 3 <= 0x7fff_fffe {
            lemma_rounds_small(values@, dr, round);
        }
        assert forall|id: int| 0 <= id < n implies #[trigger] win_shortest(keys@, index@, values@, id) by {
            lemma_fixpoint_shortest(keys@, index@, values@, dr, round, id);
        }
    }
    Solved { keys, index, values, edges, rounds, fixpoint_ns }
}

// ---------------------------------------------------------------------------
// Consistency audit
// ---------------------------------------------------------------------------

/// The value the children's values give key `k`: 1 with a King capture at hand,
/// -2 with no move, else a win one ply beyond the shortest lost child, a draw
/// when a child is drawn, or a loss one ply beyond the longest won child.
pub open spec fn audit_expected(index: Map<u128, u32>, values: Seq<i32>, k: u128) -> int {
    let p = unpack_spec(k);
    if has_king_capture(p) {
        1
    } else if moves_spec(p).len() == 0 {
        -2
    } else {
        let (best, worst, open) = full_summary(index, values, k);
        match best {
            Some(d) => d + 1,
            None => if open {
                0
            } else {
                -(worst + 1)
            },
        }
    }
}

/// Number of the first `n` keys whose value is not the one its children give it.
pub open spec fn audit_count(keys: Seq<u128>, index: Map<u128, u32>, values: Seq<i32>, n: int) -> int
    decreases n,
{
    if n <= 0 {
        0
    } else {
        audit_count(keys, index, values, n - 1) + if values[n - 1] as int != audit_expected(
            index,
            values,
            keys[n - 1],
        ) {
            1int
        } else {
            0int
        }
    }
}

/// The value the table gives the child reached by the `i`-th move from key `k`.
pub open spec fn nth_child_value(index: Map<u128, u32>, values: Seq<i32>, k: u128, i: int) -> int {
    child_value(index, values, k, moves_spec(unpack_spec(k))[i])
}

proof fn lemma_key_summary_props(index: Map<u128, u32>, values: Seq<i32>, k: u128, n: int)
    requires
        0 <= n,
    ensures
        key_summary(index, values, k, n).0.is_some() == exists|i: int|
            0 <= i < n && #[trigger] nth_child_value(index, values, k, i) < 0,
        key_summary(index, values, k, n).0.is_some() ==> (exists|i: int|
            0 <= i < n && #[trigger] nth_child_value(index, values, k, i) == -key_summary(index, values, k, n).0.unwrap())
            && forall|i: int|
            0 <= i < n && #[trigger] nth_child_value(index, values, k, i) < 0 ==> key_summary(index, values, k, n).0.unwrap()
                <= -nth_child_value(index, values, k, i),
        key_summary(index, values, k, n).0.is_some() ==> key_summary(index, values, k, n).0.unwrap() > 0,
        key_summary(index, values, k, n).2 == exists|i: int|
            0 <= i < n && #[trigger] nth_child_value(index, values, k, i) == 0,
        key_summary(index, values, k, n).1 >= 0,
        forall|i: int|
            0 <= i < n && #[trigger] nth_child_value(index, values, k, i) > 0 ==> nth_child_value(index, values, k, i)
                <= key_summary(index, values, k, n).1,
        key_summary(index, values, k, n).1 == 0 || exists|i: int|
            0 <= i < n && #[trigger] nth_child_value(index, values, k, i) == key_summary(index, values, k, n).1,
    decreases n,
{
    if n > 0 {
        lemma_key_summary_props(index, values, k, n - 1);
        let cv = nth_child_value(index, values, k, n - 1);
        let (b0, w0, o0) = key_summary(index, values, k, n - 1);
        let (b1, w1, o1) = key_summary(index, values, k, n);
        if b1.is_some() {
            if cv < 0 && (b0.is_none() || -cv < b0.unwrap()) {
                assert(nth_child_value(index, values, k, n - 1) == -b1.unwrap());
            } else {
                let i = choose|i: int| 0 <= i < n - 1 && #[trigger] nth_child_value(index, values, k, i) == -b0.unwrap();
                assert(nth_child_value(index, values, k, i) == -b1.unwrap());
            }
        }
        if b0.is_some() {
            let i = choose|i: int| 0 <= i < n - 1 && #[trigger] nth_child_value(index, values, k, i) == -b0.unwrap();
            assert(nth_child_value(index, values, k, i) < 0);
        }
        if o0 {
            let i = choose|i: int| 0 <= i < n - 1 && #[trigger] nth_child_value(index, values, k, i) == 0;
            assert(nth_child_value(index, values, k, i) == 0);
        }
        if w1 != 0 {
            if cv > 0 && cv > w0 {
                assert(nth_child_value(index, values, k, n - 1) == w1);
            } else {
                let i = choose|i: int| 0 <= i < n - 1 && #[trigger] nth_child_value(index, values, k, i) == w0;
                assert(nth_child_value(index, values, k, i) == w1);
            }
        }
    }
}

/// The value the audit expects of a key is the minimax of its children's
/// values: 1 with a King capture at hand, -2 with no move; else a win one ply
/// beyond the shortest lost child when some child is lost, a draw when no child
/// is lost and some child is drawn, and otherwise, every child won, a loss one
/// ply beyond the longest of those wins.
pub proof fn lemma_audit_expected_minimax(index: Map<u128, u32>, values: Seq<i32>, k: u128)
    ensures
        ({
            let p = unpack_spec(k);
            let n = moves_spec(p).len() as int;
            let e = audit_expected(index, values, k);
            &&& has_king_capture(p) ==> e == 1
            &&& !has_king_capture(p) && n == 0 ==> e == -2
            &&& !has_king_capture(p) && n > 0 ==> {
                &&& (e > 0) == exists|i: int| 0 <= i < n && #[trigger] nth_child_value(index, values, k, i) < 0
                &&& e > 0 ==> (exists|i: int| 0 <= i < n && #[trigger] nth_child_value(index, values, k, i) == 1 - e)
                    && forall|i: int|
                    0 <= i < n && #[trigger] nth_child_value(index, values, k, i) < 0 ==> nth_child_value(index, values, k, i)
                        <= 1 - e
                &&& (e == 0) == ((forall|i: int| 0 <= i < n ==> #[trigger] nth_child_value(index, values, k, i) >= 0)
                    && exists|i: int| 0 <= i < n && #[trigger] nth_child_value(index, values, k, i) == 0)
                &&& e < 0 ==> (forall|i: int|
                    0 <= i < n ==> 0 < #[trigger] nth_child_value(index, values, k, i) <= -e - 1) && exists|i: int|
                    0 <= i < n && #[trigger] nth_child_value(index, values, k, i) == -e - 1
            }
        }),
{
    let p = unpack_spec(k);
    let n = moves_spec(p).len() as int;
    if !has_king_capture(p) && n > 0 {
        lemma_key_summary_props(index, values, k, n);
        let (best, worst, open) = key_summary(index, values, k, n);
        if best.is_none() && !open {
            assert(nth_child_value(index, values, k, 0) > 0);
            assert(worst != 0);
        }
        if best.is_some() {
            let i = choose|i: int| 0 <= i < n && #[trigger] nth_child_value(index, values, k, i) == -best.unwrap();
            assert(nth_child_value(index, values, k, i) < 0);
        }
    }
}

/// The audit finds nothing exactly when every one of the first `n` values,
/// zeros included, is the value its children give it.
pub proof fn lemma_audit_zero_iff(keys: Seq<u128>, index: Map<u128, u32>, values: Seq<i32>, n: int)
    requires
        0 <= n,
    ensures
        audit_count(keys, index, values, n) == 0 <==> forall|i: int|
            0 <= i < n ==> #[trigger] values[i] as int == audit_expected(index, values, keys[i]),
    decreases n,
{
    if n > 0 {
        lemma_audit_zero_iff(keys, index, values, n - 1);
        lemma_audit_count_le(keys, index, values, n - 1);
        if audit_count(keys, index, values, n) == 0 {
            assert forall|i: int| 0 <= i < n implies #[trigger] values[i] as int == audit_expected(index, values, keys[i]) by {
                if i < n - 1 {
                    assert(values[i] as int == audit_expected(index, values, keys[i]));
                }
            }
        }
    }
}

/// A table that passes the audit stores 1 for every key whose side to move can
/// capture the King, and -2 for every key with no move.
pub proof fn lemma_audit_terminal(keys: Seq<u128>, index: Map<u128, u32>, values: Seq<i32>, n: int, i: int)
    requires
        0 <= i < n,
        audit_count(keys, index, values, n) == 0,
    ensures
        has_king_capture(unpack_spec(keys[i])) ==> values[i] == 1,
        !has_king_capture(unpack_spec(keys[i])) && moves_spec(unpack_spec(keys[i])).len() == 0 ==> values[i] == -2,
{
    lemma_audit_zero_iff(keys, index, values, n);
    assert(values[i] as int == audit_expected(index, values, keys[i]));
}

proof fn lemma_audit_count_le(keys: Seq<u128>, index: Map<u128, u32>, values: Seq<i32>, n: int)
    requires
        0 <= n,
    ensures
        0 <= audit_count(keys, index, values, n) <= n,
    decreases n,
{
    if n > 0 {
        lemma_audit_count_le(keys, index, values, n - 1);
    }
}

/// Values at most `i32::MAX - 1` in size, so one more ply fits.
pub open spec fn values_small32(values: Seq<i32>) -> bool {
    forall|i: int| 0 <= i < values.len() ==> -0x7fff_fffe <= #[trigger] values[i] <= 0x7fff_fffe
}

/// Every child of a listed key searched further is in `index`, numbered below `n`.
pub open spec fn children_indexed(keys: Seq<u128>, index: Map<u128, u32>, n: int) -> bool {
    forall|j: int, t: int|
        0 <= j < keys.len() && key_expands(keys[j]) && 0 <= t < moves_spec(unpack_spec(keys[j])).len() ==> index.contains_key(
            #[trigger] key_child(keys[j], moves_spec(unpack_spec(keys[j]))[t]),
        ) && index[key_child(keys[j], moves_spec(unpack_spec(keys[j]))[t])] < n
}

/// A numbered, closed key list indexes every child below its length.
pub proof fn lemma_numbered_indexed(keys: Seq<u128>, index: Map<u128, u32>)
    requires
        children_numbered(keys, index),
    ensures
        children_indexed(keys, index, keys.len() as int),
{
    assert forall|j: int, t: int|
        0 <= j < keys.len() && key_expands(keys[j]) && 0 <= t < moves_spec(unpack_spec(keys[j])).len() implies index.contains_key(
            #[trigger] key_child(keys[j], moves_spec(unpack_spec(keys[j]))[t]),
        ) && index[key_child(keys[j], moves_spec(unpack_spec(keys[j]))[t])] < keys.len() by {
        lemma_child_indices(keys, index, j);
        reveal(key_closed);
    }
}

fn expected_of(keys: &Vec<u128>, index: &HashMap<u128, u32>, values: &Vec<i32>, id: usize) -> (e: i32)
    requires
        children_indexed(keys@, index@, values@.len() as int),
        values@.len() == keys@.len(),
        values_small32(values@),
        id < keys@.len(),
    ensures
        e == audit_expected(index@, values@, keys@[id as int]),
{
    let ghost k = keys@[id as int];
    let p = unpack(keys[id]);
    let moves = p.moves();
    if any_king_capture(&p, &moves) {
        return 1;
    }
    if moves.len() == 0 {
        return -2;
    }
    proof {
        reveal(key_expands);
        assert(key_expands(k));
        assert forall|t: int| 0 <= t < moves@.len() implies index@.contains_key(
            #[trigger] key_child(k, moves_spec(unpack_spec(k))[t]),
        ) && 0 <= index@[key_child(k, moves_spec(unpack_spec(k))[t])] < values@.len() by {
            assert(key_child(keys@[id as int], moves_spec(unpack_spec(keys@[id as int]))[t]) == key_child(
                k,
                moves_spec(unpack_spec(k))[t],
            ));
        }
        assert forall|i: int| 0 <= i < values@.len() implies -0x7fff_ffff <= #[trigger] values@[i] by {}
        lemma_summary_bounds(index@, values@, k, moves@.len() as int);
    }
    let mut best_win: Option<i32> = None;
    let mut worst_loss: i32 = 0;
    let mut any_draw = false;
    let mut i: usize = 0;
    while i < moves.len()
        invariant
            i <= moves@.len(),
            moves@ == moves_spec(p@),
            p@ == unpack_spec(k),
            k == keys@[id as int],
            !has_king_capture(p@),
            values@.len() == keys@.len(),
            values_small32(values@),
            forall|t: int|
                0 <= t < moves@.len() ==> 0 <= #[trigger] index@[key_child(k, moves_spec(unpack_spec(k))[t])]
                    < values@.len(),
            forall|t: int|
                0 <= t < moves@.len() ==> index@.contains_key(#[trigger] key_child(k, moves_spec(unpack_spec(k))[t])),
            key_summary(index@, values@, k, i as int) == (
                match best_win {
                    Some(b) => Some(b as int),
                    None => None,
                },
                worst_loss as int,
                any_draw,
            ),
            best_win matches Some(b) ==> 1 <= b <= 0x7fff_fffe,
            0 <= worst_loss <= 0x7fff_fffe,
        decreases moves@.len() - i,
    {
        let m = moves[i];
        proof {
            assert(moves_spec(p@).contains(m));
            assert(!is_king_capture(p@, moves_spec(p@)[i as int]));
        }
        let ck = child_key(&p, &m, Ghost(k));
        let cid = match index.get(&ck) {
            Some(c) => *c,
            None => 0,
        };
        let cv = values[cid as usize];
        if cv < 0 {
            let d = -cv;
            best_win = Some(
                match best_win {
                    Some(b) => if b <= d {
                        b
                    } else {
                        d
                    },
                    None => d,
                },
            );
        } else if cv > 0 {
            if cv > worst_loss {
                worst_loss = cv;
            }
        } else {
            any_draw = true;
        }
        i += 1;
    }
    match best_win {
        Some(d) => d + 1,
        None => if any_draw {
            0
        } else {
            -(worst_loss + 1)
        },
    }
}

proof fn lemma_audit_key(keys: Seq<u128>, index: Map<u128, u32>, values: Seq<i32>, id: int)
    requires
        0 <= id < keys.len(),
        values.len() == keys.len(),
        values_small32(values),
        value_justified(keys, index, values, id),
        win_shortest(keys, index, values, id),
    ensures
        values[id] as int == audit_expected(index, values, keys[id]),
{
    assert(-0x7fff_fffe <= values[id] <= 0x7fff_fffe);
}

proof fn lemma_audit_zero(keys: Seq<u128>, index: Map<u128, u32>, values: Seq<i32>, n: int)
    requires
        0 <= n <= keys.len(),
        values.len() == keys.len(),
        values_small32(values),
        forall|id: int| 0 <= id < keys.len() ==> #[trigger] value_justified(keys, index, values, id),
        forall|id: int| 0 <= id < keys.len() ==> #[trigger] win_shortest(keys, index, values, id),
    ensures
        audit_count(keys, index, values, n) == 0,
    decreases n,
{
    if n > 0 {
        lemma_audit_zero(keys, index, values, n - 1);
        lemma_audit_key(keys, index, values, n - 1);
    }
}

/// A solved table passes its audit: every value is the one its children's
/// values give it, the shortest win and the longest loss, as long as no value
/// is too large for one more ply.
pub proof fn lemma_solved_audits(start: PosView, s: Solved)
    requires
        solved_from(start, s),
        values_small32(s.values@),
    ensures
        audit_count(s.keys@, s.index@, s.values@, s.keys@.len() as int) == 0,
{
    lemma_audit_zero(s.keys@, s.index@, s.values@, s.keys@.len() as int);
}

// ---------------------------------------------------------------------------
// Solved values depend on the position alone
// ---------------------------------------------------------------------------

/// What a solved table guarantees of its keys and values.
spec fn table_ok(keys: Seq<u128>, index: Map<u128, u32>, values: Seq<i32>) -> bool {
    &&& keys.len() <= 0x1_0000_0000
    &&& children_numbered(keys, index)
    &&& values.len() == keys.len()
    &&& values_small32(values)
    &&& forall|id: int| 0 <= id < keys.len() ==> #[trigger] value_justified(keys, index, values, id)
    &&& forall|id: int| 0 <= id < keys.len() ==> #[trigger] win_shortest(keys, index, values, id)
}

/// The value a table gives key `k`.
spec fn kval(index: Map<u128, u32>, values: Seq<i32>, k: u128) -> int {
    values[index[k] as int] as int
}

spec fn abs_int(x: int) -> int {
    if x < 0 {
        -x
    } else {
        x
    }
}

/// The two tables agree on every key in both whose value in either is decided
/// within `n` plies.
spec fn agree_within(
    i1: Map<u128, u32>,
    v1: Seq<i32>,
    i2: Map<u128, u32>,
    v2: Seq<i32>,
    n: int,
) -> bool {
    forall|k: u128|
        #![trigger i1.contains_key(k), i2.contains_key(k)]
        i1.contains_key(k) && i2.contains_key(k) && ((kval(i1, v1, k) != 0 && abs_int(kval(i1, v1, k)) <= n) || (
        kval(i2, v2, k) != 0 && abs_int(kval(i2, v2, k)) <= n)) ==> kval(i1, v1, k) == kval(i2, v2, k)
}

/// Summaries over children with the same values are the same.
proof fn lemma_summary_same(i1: Map<u128, u32>, v1: Seq<i32>, i2: Map<u128, u32>, v2: Seq<i32>, k: u128, n: int)
    requires
        0 <= n,
        forall|t: int|
            0 <= t < n ==> child_value(i1, v1, k, #[trigger] moves_spec(unpack_spec(k))[t]) == child_value(
                i2,
                v2,
                k,
                moves_spec(unpack_spec(k))[t],
            ),
    ensures
        key_summary(i1, v1, k, n) == key_summary(i2, v2, k, n),
    decreases n,
{
    if n > 0 {
        lemma_summary_same(i1, v1, i2, v2, k, n - 1);
    }
}

/// The shortest lost child is at most the size of any lost child.
proof fn lemma_best_le(index: Map<u128, u32>, values: Seq<i32>, k: u128, n: int, t: int)
    requires
        0 <= t < n,
        child_value(index, values, k, moves_spec(unpack_spec(k))[t]) < 0,
    ensures
        key_summary(index, values, k, n).0 matches Some(d) && d <= -child_value(
            index,
            values,
            k,
            moves_spec(unpack_spec(k))[t],
        ),
    decreases n,
{
    if t < n - 1 {
        lemma_best_le(index, values, k, n - 1, t);
    }
}

/// A key whose value in the first table is decided within `n` plies has the
/// same value in the second, when they agree below `n`.
proof fn lemma_agree_key(
    keys1: Seq<u128>,
    i1: Map<u128, u32>,
    v1: Seq<i32>,
    keys2: Seq<u128>,
    i2: Map<u128, u32>,
    v2: Seq<i32>,
    k: u128,
    n: int,
)
    requires
        table_ok(keys1, i1, v1),
        table_ok(keys2, i2, v2),
        agree_within(i1, v1, i2, v2, n - 1),
        i1.contains_key(k),
        i2.contains_key(k),
        kval(i1, v1, k) != 0,
        abs_int(kval(i1, v1, k)) <= n,
    ensures
        kval(i1, v1, k) == kval(i2, v2, k),
{
    let id1 = i1[k] as int;
    let id2 = i2[k] as int;
    lemma_index_below(keys1, i1, k);
    lemma_index_below(keys2, i2, k);
    reveal(numbered);
    assert(keys1[id1] == k) by {
        let j = choose|j: int| 0 <= j < keys1.len() && keys1[j] == k;
        assert(i1[keys1[j]] == j as u32);
    }
    assert(keys2[id2] == k) by {
        let j = choose|j: int| 0 <= j < keys2.len() && keys2[j] == k;
        assert(i2[keys2[j]] == j as u32);
    }
    let p = unpack_spec(k);
    let ms = moves_spec(p);
    let nm = ms.len() as int;
    assert(value_justified(keys1, i1, v1, id1));
    assert(value_justified(keys2, i2, v2, id2));
    assert(win_shortest(keys1, i1, v1, id1));
    assert(win_shortest(keys2, i2, v2, id2));
    let a = v1[id1] as int;
    let b = v2[id2] as int;
    assert(-0x7fff_fffe <= a <= 0x7fff_fffe);
    assert(-0x7fff_fffe <= b <= 0x7fff_fffe);
    if has_king_capture(p) || nm == 0 {
        return;
    }
    reveal(key_expands);
    lemma_child_indices(keys1, i1, id1);
    lemma_child_indices(keys2, i2, id2);
    reveal(key_closed);
    assert forall|t: int| 0 <= t < nm implies i1.contains_key(#[trigger] key_child(k, ms[t])) && i2.contains_key(
        key_child(k, ms[t]),
    ) by {}
    let (best1, worst1, open1) = full_summary(i1, v1, k);
    let (best2, worst2, open2) = full_summary(i2, v2, k);
    if a > 0 {
        let d = best1->Some_0;
        lemma_best_witness(i1, v1, k, nm);
        let t = choose|t: int| 0 <= t < nm && child_value(i1, v1, k, #[trigger] ms[t]) == -d;
        let c = key_child(k, ms[t]);
        assert(i1.contains_key(c) && i2.contains_key(c));
        assert(kval(i1, v1, c) == -d);
        assert(kval(i2, v2, c) == -d);
        lemma_best_le(i2, v2, k, nm, t);
        let d2 = best2->Some_0;
        assert(b > 0);
        lemma_best_witness(i2, v2, k, nm);
        let t2 = choose|t2: int| 0 <= t2 < nm && child_value(i2, v2, k, #[trigger] ms[t2]) == -d2;
        let c2 = key_child(k, ms[t2]);
        assert(i1.contains_key(c2) && i2.contains_key(c2));
        assert(kval(i2, v2, c2) == -d2);
        assert(kval(i1, v1, c2) == -d2);
        lemma_best_le(i1, v1, k, nm, t2);
    } else {
        assert(a < 0);
        assert(best1 is None && !open1);
        lemma_all_won(i1, v1, k, nm);
        lemma_worst_bounds(i1, v1, k, nm, worst1);
        assert forall|t: int| 0 <= t < nm implies child_value(i1, v1, k, #[trigger] ms[t]) == child_value(
            i2,
            v2,
            k,
            ms[t],
        ) by {
            let c = key_child(k, ms[t]);
            assert(i1.contains_key(c) && i2.contains_key(c));
            assert(child_value(i1, v1, k, ms[t]) > 0);
            lemma_worst_bounds(i1, v1, k, nm, child_value(i1, v1, k, ms[t]));
            assert(kval(i1, v1, c) == child_value(i1, v1, k, ms[t]));
        }
        lemma_summary_same(i1, v1, i2, v2, k, nm);
    }
}

proof fn lemma_agree(
    keys1: Seq<u128>,
    i1: Map<u128, u32>,
    v1: Seq<i32>,
    keys2: Seq<u128>,
    i2: Map<u128, u32>,
    v2: Seq<i32>,
    n: int,
)
    requires
        table_ok(keys1, i1, v1),
        table_ok(keys2, i2, v2),
        0 <= n,
    ensures
        agree_within(i1, v1, i2, v2, n),
    decreases n,
{
    if n > 0 {
        lemma_agree(keys1, i1, v1, keys2, i2, v2, n - 1);
        assert(agree_within(i2, v2, i1, v1, n - 1));
        assert forall|k: u128|
            #![trigger i1.contains_key(k), i2.contains_key(k)]
            i1.contains_key(k) && i2.contains_key(k) && ((kval(i1, v1, k) != 0 && abs_int(kval(i1, v1, k)) <= n) || (
            kval(i2, v2, k) != 0 && abs_int(kval(i2, v2, k)) <= n)) implies kval(i1, v1, k) == kval(i2, v2, k) by {
            if kval(i1, v1, k) != 0 && abs_int(kval(i1, v1, k)) <= n {
                lemma_agree_key(keys1, i1, v1, keys2, i2, v2, k, n);
            } else {
                lemma_agree_key(keys2, i2, v2, keys1, i1, v1, k, n);
            }
        }
    }
}

/// Two solved tables give every key they share the same value: a solved
/// value depends on the position alone, not on the table it was solved in
/// (as long as no value is too large for one more ply).
pub proof fn lemma_solved_tables_agree(v1: PosView, s1: Solved, v2: PosView, s2: Solved, k: u128)
    requires
        solved_from(v1, s1),
        solved_from(v2, s2),
        values_small32(s1.values@),
        values_small32(s2.values@),
        s1.keys@.len() <= 0x1_0000_0000,
        s2.keys@.len() <= 0x1_0000_0000,
        s1.index@.contains_key(k),
        s2.index@.contains_key(k),
    ensures
        s1.values@[s1.index@[k] as int] == s2.values@[s2.index@[k] as int],
{
    lemma_agree(s1.keys@, s1.index@, s1.values@, s2.keys@, s2.index@, s2.values@, 0x7fff_ffff);
    lemma_index_below(s1.keys@, s1.index@, k);
    lemma_index_below(s2.keys@, s2.index@, k);
    let a = kval(s1.index@, s1.values@, k);
    let b = kval(s2.index@, s2.values@, k);
    assert(abs_int(a) <= 0x7fff_ffff && abs_int(b) <= 0x7fff_ffff);
}

/// Solving from two positions with the same canonical key gives the start the
/// same value.
pub proof fn lemma_same_start_value(v1: PosView, s1: Solved, v2: PosView, s2: Solved)
    requires
        solved_from(v1, s1),
        solved_from(v2, s2),
        values_small32(s1.values@),
        values_small32(s2.values@),
        s1.keys@.len() <= 0x1_0000_0000,
        s2.keys@.len() <= 0x1_0000_0000,
        canonical_key_spec(v1) == canonical_key_spec(v2),
    ensures
        s1.values@[0] == s2.values@[0],
{
    let k = canonical_key_spec(v1);
    reveal(numbered);
    assert(s1.keys@[0] == k && s2.keys@[0] == k);
    assert(s1.keys@.to_set().contains(k)) by {
        assert(s1.keys@.contains(k));
    }
    assert(s2.keys@.to_set().contains(k)) by {
        assert(s2.keys@.contains(k));
    }
    assert(s1.index@[s1.keys@[0]] == 0u32);
    assert(s2.index@[s2.keys@[0]] == 0u32);
    lemma_solved_tables_agree(v1, s1, v2, s2, k);
}

/// Solving from a position and from the position its canonical key names gives
/// the start the same value.
pub proof fn lemma_canonical_start_value(v: PosView, s1: Solved, s2: Solved)
    requires
        crate::packing::pack_valid(v),
        solved_from(v, s1),
        solved_from(unpack_spec(canonical_key_spec(v)), s2),
        values_small32(s1.values@),
        values_small32(s2.values@),
        s1.keys@.len() <= 0x1_0000_0000,
        s2.keys@.len() <= 0x1_0000_0000,
    ensures
        s1.values@[0] == s2.values@[0],
{
    crate::packing::lemma_canonical_key_fixed(v);
    lemma_same_start_value(v, s1, unpack_spec(canonical_key_spec(v)), s2);
}

/// The number of keys whose value is not the one its children's values give it
/// (0: the table is consistent).
pub fn audit(s: &Solved) -> (bad: u64)
    requires
        children_indexed(s.keys@, s.index@, s.values@.len() as int),
        s.values@.len() == s.keys@.len(),
        values_small32(s.values@),
    ensures
        bad == audit_count(s.keys@, s.index@, s.values@, s.keys@.len() as int),
{
    let mut bad: u64 = 0;
    let mut id: usize = 0;
    while id < s.keys.len()
        invariant
            id <= s.keys@.len(),
            children_indexed(s.keys@, s.index@, s.values@.len() as int),
            s.values@.len() == s.keys@.len(),
            values_small32(s.values@),
            bad == audit_count(s.keys@, s.index@, s.values@, id as int),
        decreases s.keys@.len() - id,
    {
        proof {
            lemma_audit_count_le(s.keys@, s.index@, s.values@, id as int);
        }
        let v = s.values[id];
        let expected = expected_of(&s.keys, &s.index, &s.values, id);
        if v != expected {
            bad += 1;
        }
        id += 1;
    }
    bad
}


// ---------------------------------------------------------------------------
// Independent forward solver
// ---------------------------------------------------------------------------

/// Occupied squares below `n`.
pub open spec fn occupied_upto(b: Seq<Cell>, n: int) -> int
    decreases n,
{
    if n <= 0 {
        0
    } else {
        occupied_upto(b, n - 1) + if b[n - 1] is Some {
            1int
        } else {
            0int
        }
    }
}

pub open spec fn hand_sum(h: Seq<u8>) -> int {
    h[0] + h[1] + h[2] + h[3]
}

/// Pieces on the board and in both hands.
pub open spec fn token_total(v: PosView) -> int {
    occupied_upto(v.board, 20) + hand_sum(v.hand_sente) + hand_sum(v.hand_gote)
}

/// At most 44 tokens: what an unpacked position can hold (20 cells, eight hand
/// counts of at most three).
pub open spec fn token_bounded(v: PosView) -> bool {
    &&& v.board.len() == 20
    &&& v.hand_sente.len() == 4
    &&& v.hand_gote.len() == 4
    &&& token_total(v) <= 44
}

proof fn lemma_occupied_update(b: Seq<Cell>, q: int, x: Cell, n: int)
    requires
        0 <= q < b.len(),
        0 <= n <= b.len(),
    ensures
        occupied_upto(b.update(q, x), n) == occupied_upto(b, n) + if q < n {
            (if x is Some {
                1int
            } else {
                0int
            }) - (if b[q] is Some {
                1int
            } else {
                0int
            })
        } else {
            0int
        },
    decreases n,
{
    if n > 0 {
        lemma_occupied_update(b, q, x, n - 1);
    }
}

proof fn lemma_occupied_bounds(b: Seq<Cell>, n: int)
    requires
        0 <= n,
    ensures
        0 <= occupied_upto(b, n) <= n,
    decreases n,
{
    if n > 0 {
        lemma_occupied_bounds(b, n - 1);
    }
}

proof fn lemma_unpack_tokens(x: u128)
    ensures
        token_bounded(unpack_spec(x)),
{
    lemma_unpack_shape(x);
    let v = unpack_spec(x);
    lemma_occupied_bounds(v.board, 20);
    assert(v.hand_sente[0] <= 3 && v.hand_sente[1] <= 3 && v.hand_sente[2] <= 3 && v.hand_sente[3] <= 3);
    assert(v.hand_gote[0] <= 3 && v.hand_gote[1] <= 3 && v.hand_gote[2] <= 3 && v.hand_gote[3] <= 3);
}

/// A move that does not capture the King keeps the number of tokens: a capture
/// moves one from the board to a hand, a drop one from a hand to the board.
proof fn lemma_make_tokens(v: PosView, m: Move)
    requires
        token_bounded(v),
        moves_spec(v).contains(m),
        !is_king_capture(v, m),
    ensures
        make_ok(v, m),
        token_bounded(make_spec(v, m)),
{
    let b = v.board;
    lemma_occupied_bounds(b, 20);
    assert(v.hand_sente[0] <= 44 && v.hand_sente[1] <= 44 && v.hand_sente[2] <= 44 && v.hand_sente[3] <= 44);
    assert(v.hand_gote[0] <= 44 && v.hand_gote[1] <= 44 && v.hand_gote[2] <= 44 && v.hand_gote[3] <= 44);
    assert forall|i: int| 0 <= i < 4 implies #[trigger] hand_of(v, v.turn)[i] < 255 by {}
    lemma_make_ok_of_move(v, m);
    lemma_moves_shape(v);
    let i = choose|i: int| 0 <= i < moves_spec(v).len() && moves_spec(v)[i] == m;
    assert(move_shape(v, moves_spec(v)[i]));
    let w = make_spec(v, m);
    let to = m.to as int;
    let placed = Some((m.kind, m.promo, v.turn));
    match m.from {
        Some(sq) => {
            let b1 = b.update(sq as int, None);
            lemma_occupied_update(b, sq as int, None, 20);
            lemma_occupied_update(b1, to, placed, 20);
            assert(b1[to] == b[to]);
            assert(w.board == b1.update(to, placed));
        },
        None => {
            lemma_occupied_update(b, to, placed, 20);
            assert(w.board == b.update(to, placed));
        },
    }
}

/// Forward result: a win or a loss for the side to move, or a draw.
#[derive(Clone, Copy, PartialEq, Eq, Structural)]
pub enum Wdl {
    Win,
    Loss,
    Draw,
}

/// The key after the `i`-th move of `q`.
pub open spec fn move_key(q: PosView, i: int) -> u128 {
    canonical_key_spec(make_spec(q, moves_spec(q)[i]))
}

/// `q` is won by what `memo` records: a King capture at hand, or a move to a
/// key recorded as lost.
pub open spec fn win_shown(memo: Map<u128, Wdl>, q: PosView) -> bool {
    has_king_capture(q) || exists|i: int|
        0 <= i < moves_spec(q).len() && memo.contains_key(#[trigger] move_key(q, i)) && memo[move_key(q, i)]
            == Wdl::Loss
}

/// `q` is lost by what `memo` records: no King capture at hand, and every move
/// leads to a key recorded as won (or there is no move).
pub open spec fn loss_shown(memo: Map<u128, Wdl>, q: PosView) -> bool {
    !has_king_capture(q) && forall|i: int|
        0 <= i < moves_spec(q).len() ==> memo.contains_key(#[trigger] move_key(q, i)) && memo[move_key(q, i)]
            == Wdl::Win
}

/// Every recorded result is a win or a loss, shown by the record itself for some
/// position of that key.
#[verifier::opaque]
pub open spec fn memo_sound(memo: Map<u128, Wdl>) -> bool {
    forall|k: u128|
        #[trigger] memo.contains_key(k) ==> exists|q: PosView|
            canonical_key_spec(q) == k && token_bounded(q) && match memo[k] {
                Wdl::Win => win_shown(memo, q),
                Wdl::Loss => loss_shown(memo, q),
                Wdl::Draw => false,
            }
}

proof fn lemma_memo_grow(memo: Map<u128, Wdl>, m2: Map<u128, Wdl>)
    requires
        memo_sound(memo),
        memo.submap_of(m2),
        forall|k: u128| #[trigger] m2.contains_key(k) && !memo.contains_key(k) ==> exists|q: PosView|
            canonical_key_spec(q) == k && token_bounded(q) && match m2[k] {
                Wdl::Win => win_shown(m2, q),
                Wdl::Loss => loss_shown(m2, q),
                Wdl::Draw => false,
            },
    ensures
        memo_sound(m2),
{
    reveal(memo_sound);
    assert forall|k: u128| #[trigger] m2.contains_key(k) implies exists|q: PosView|
        canonical_key_spec(q) == k && token_bounded(q) && match m2[k] {
            Wdl::Win => win_shown(m2, q),
            Wdl::Loss => loss_shown(m2, q),
            Wdl::Draw => false,
        } by {
        if memo.contains_key(k) {
            let q = choose|q: PosView|
                canonical_key_spec(q) == k && token_bounded(q) && match memo[k] {
                    Wdl::Win => win_shown(memo, q),
                    Wdl::Loss => loss_shown(memo, q),
                    Wdl::Draw => false,
                };
            assert(memo.dom().contains(k));
            assert(m2[k] == memo[k]);
            match memo[k] {
                Wdl::Win => {
                    if !has_king_capture(q) {
                        let i = choose|i: int|
                            0 <= i < moves_spec(q).len() && memo.contains_key(#[trigger] move_key(q, i)) && memo[move_key(
                                q,
                                i,
                            )] == Wdl::Loss;
                        let mk = move_key(q, i);
                        assert(memo.dom().contains(mk));
                        assert(m2.dom().contains(mk));
                        assert(memo[mk] == m2[mk]);
                        assert(m2.contains_key(move_key(q, i)) && m2[move_key(q, i)] == Wdl::Loss);
                    }
                },
                Wdl::Loss => {
                    assert forall|i: int| 0 <= i < moves_spec(q).len() implies m2.contains_key(
                        #[trigger] move_key(q, i),
                    ) && m2[move_key(q, i)] == Wdl::Win by {
                        let mk = move_key(q, i);
                        assert(memo.contains_key(mk));
                        assert(memo.dom().contains(mk));
                        assert(m2.dom().contains(mk));
                        assert(memo[mk] == m2[mk]);
                    }
                },
                Wdl::Draw => {},
            }
        }
    }
}


/// What `forward` returns on `p`, and the record it leaves, from the record
/// `memo` and the keys `path` of the current line.
pub open spec fn fwd(p: PosView, memo: Map<u128, Wdl>, path: Set<u128>) -> (Wdl, Map<u128, Wdl>)
    decreases key_count() - path.len(), 0int,
{
    let key = canonical_key_spec(p);
    if memo.contains_key(key) {
        (memo[key], memo)
    } else if path.contains(key) {
        (Wdl::Draw, memo)
    } else if has_king_capture(p) {
        (Wdl::Win, memo.insert(key, Wdl::Win))
    } else if moves_spec(p).len() == 0 {
        (Wdl::Loss, memo.insert(key, Wdl::Loss))
    } else {
        proof {
            lemma_key_sets(path);
            lemma_key_sets(path.insert(key));
        }
        let t = fwd_moves(p, 0, memo, path.insert(key));
        if t.0 {
            (Wdl::Win, t.2.insert(key, Wdl::Win))
        } else if t.1 {
            (Wdl::Loss, t.2.insert(key, Wdl::Loss))
        } else {
            (Wdl::Draw, t.2)
        }
    }
}

/// The moves of `p` from the `i`-th on, searched in turn under `path` until one
/// leads to a loss: (a move led to a loss, every move searched led to a win,
/// the record left).
pub open spec fn fwd_moves(p: PosView, i: int, memo: Map<u128, Wdl>, path: Set<u128>) -> (bool, bool, Map<
    u128,
    Wdl,
>)
    decreases key_count() - path.len(), moves_spec(p).len() - i + 1,
{
    if i < 0 || i >= moves_spec(p).len() {
        (false, true, memo)
    } else {
        proof {
            lemma_key_sets(path);
        }
        let (r, m1) = fwd(make_spec(p, moves_spec(p)[i]), memo, path);
        match r {
            Wdl::Loss => (true, true, m1),
            Wdl::Win => fwd_moves(p, i + 1, m1, path),
            Wdl::Draw => {
                let t = fwd_moves(p, i + 1, m1, path);
                (t.0, false, t.2)
            },
        }
    }
}

/// What the forward search answers before looking at any move: a recorded key
/// gives its record, a key met again on the current line is a draw, a King
/// capture at hand wins, and a position with no move loses.
pub proof fn lemma_fwd_cases(p: PosView, memo: Map<u128, Wdl>, path: Set<u128>)
    ensures
        memo.contains_key(canonical_key_spec(p)) ==> fwd(p, memo, path) == (memo[canonical_key_spec(p)], memo),
        !memo.contains_key(canonical_key_spec(p)) && path.contains(canonical_key_spec(p)) ==> fwd(p, memo, path).0
            == Wdl::Draw,
        !memo.contains_key(canonical_key_spec(p)) && !path.contains(canonical_key_spec(p)) && has_king_capture(p)
            ==> fwd(p, memo, path).0 == Wdl::Win,
        !memo.contains_key(canonical_key_spec(p)) && !path.contains(canonical_key_spec(p)) && !has_king_capture(p)
            && moves_spec(p).len() == 0 ==> fwd(p, memo, path).0 == Wdl::Loss,
{
}

/// The forward search only adds to its record, and records every win or loss
/// it answers under the position's key; it never records a draw.
pub proof fn lemma_fwd_records(p: PosView, memo: Map<u128, Wdl>, path: Set<u128>)
    requires
        forall|k: u128| #[trigger] memo.contains_key(k) ==> memo[k] != Wdl::Draw,
    ensures
        memo.submap_of(fwd(p, memo, path).1),
        forall|k: u128| #[trigger] fwd(p, memo, path).1.contains_key(k) ==> fwd(p, memo, path).1[k] != Wdl::Draw,
        fwd(p, memo, path).0 != Wdl::Draw ==> fwd(p, memo, path).1.contains_key(canonical_key_spec(p))
            && fwd(p, memo, path).1[canonical_key_spec(p)] == fwd(p, memo, path).0,
    decreases key_count() - path.len(), 0int,
{
    let key = canonical_key_spec(p);
    if memo.contains_key(key) {
    } else if path.contains(key) {
    } else if has_king_capture(p) || moves_spec(p).len() == 0 {
    } else {
        lemma_key_sets(path);
        lemma_key_sets(path.insert(key));
        lemma_fwd_moves_records(p, 0, memo, path.insert(key));
        let t = fwd_moves(p, 0, memo, path.insert(key));
        assert forall|k: u128| #[trigger] memo.dom().contains(k) implies t.2.insert(key, Wdl::Win).dom().contains(k)
            && t.2.insert(key, Wdl::Win)[k] == memo[k] && t.2.insert(key, Wdl::Loss).dom().contains(k) && t.2.insert(
            key,
            Wdl::Loss,
        )[k] == memo[k] by {
            assert(memo.dom().contains(k) ==> t.2.dom().contains(k));
            assert(t.2[k] == memo[k]);
        }
    }
}

pub proof fn lemma_fwd_moves_records(p: PosView, i: int, memo: Map<u128, Wdl>, path: Set<u128>)
    requires
        forall|k: u128| #[trigger] memo.contains_key(k) ==> memo[k] != Wdl::Draw,
    ensures
        memo.submap_of(fwd_moves(p, i, memo, path).2),
        forall|k: u128| #[trigger] fwd_moves(p, i, memo, path).2.contains_key(k) ==> fwd_moves(p, i, memo, path).2[k]
            != Wdl::Draw,
    decreases key_count() - path.len(), moves_spec(p).len() - i + 1,
{
    if i < 0 || i >= moves_spec(p).len() {
    } else {
        lemma_key_sets(path);
        let c = make_spec(p, moves_spec(p)[i]);
        lemma_fwd_records(c, memo, path);
        let m1 = fwd(c, memo, path).1;
        match fwd(c, memo, path).0 {
            Wdl::Loss => {},
            _ => {
                lemma_fwd_moves_records(p, i + 1, m1, path);
                let m2 = fwd_moves(p, i + 1, m1, path).2;
                assert forall|k: u128| #[trigger] memo.dom().contains(k) implies m2.dom().contains(k) && m2[k] == memo[k] by {
                    assert(memo.dom().contains(k) ==> m1.dom().contains(k));
                    assert(m1[k] == memo[k]);
                    assert(m1.dom().contains(k) ==> m2.dom().contains(k));
                    assert(m2[k] == m1[k]);
                }
            },
        }
    }
}

/// A search result with "every move led to a win" cleared when `all_win` is false.
pub open spec fn with_all_win(all_win: bool, t: (bool, bool, Map<u128, Wdl>)) -> (bool, bool, Map<u128, Wdl>) {
    if all_win {
        t
    } else {
        (t.0, false, t.2)
    }
}

/// Forward negamax on `p`: a King capture at hand wins, no move loses, a
/// position met again on the current line is a draw, else a win if some move
/// leads to a loss for the opponent, a loss if every move leads to a win for
/// the opponent, a draw otherwise. Decided results are recorded in `memo` by
/// canonical key and reused; `path` holds the keys of the current line.
fn forward(p: &Position, memo: &mut HashMap<u128, Wdl>, path: &mut HashSet<u128>) -> (r: Wdl)
    requires
        token_bounded(p@),
        memo_sound(old(memo)@),
    ensures
        memo_sound(final(memo)@),
        old(memo)@.submap_of(final(memo)@),
        forall|k: u128|
            #[trigger] final(memo)@.contains_key(k) && !old(memo)@.contains_key(k) ==> !old(path)@.contains(k),
        final(path)@ == old(path)@,
        r != Wdl::Draw ==> final(memo)@.contains_key(canonical_key_spec(p@)) && final(memo)@[canonical_key_spec(p@)]
            == r,
        (r, final(memo)@) == fwd(p@, old(memo)@, old(path)@),
    decreases key_count() - old(path)@.len(),
{
    let key = canonical_key(p);
    match memo.get(&key) {
        Some(v) => {
            return *v;
        },
        None => {},
    }
    if path.contains(&key) {
        return Wdl::Draw;
    }
    let ms = p.moves();
    if any_king_capture(p, &ms) {
        let ghost m0 = memo@;
        memo.insert(key, Wdl::Win);
        proof {
            lemma_memo_grow(m0, memo@);
        }
        return Wdl::Win;
    }
    if ms.len() == 0 {
        let ghost m0 = memo@;
        memo.insert(key, Wdl::Loss);
        proof {
            lemma_memo_grow(m0, memo@);
        }
        return Wdl::Loss;
    }
    let ghost path0 = path@;
    let ghost memo0 = memo@;
    path.insert(key);
    proof {
        lemma_key_sets(path0);
        assert(path@.len() == path0.len() + 1);
    }
    let mut any_loss = false;
    let mut all_win = true;
    let mut i: usize = 0;
    while i < ms.len()
        invariant_except_break
            i <= ms@.len(),
            ms@ == moves_spec(p@),
            !has_king_capture(p@),
            token_bounded(p@),
            key == canonical_key_spec(p@),
            path0 == old(path)@,
            path@ == path0.insert(key),
            !path0.contains(key),
            memo_sound(memo@),
            memo0.submap_of(memo@),
            !memo@.contains_key(key),
            forall|k: u128|
                #[trigger] memo@.contains_key(k) && !memo0.contains_key(k) ==> !path0.contains(k) && k != key,
            !any_loss,
            all_win ==> forall|t: int|
                0 <= t < i ==> memo@.contains_key(#[trigger] move_key(p@, t)) && memo@[move_key(p@, t)] == Wdl::Win,
            fwd_moves(p@, 0, memo0, path0.insert(key)) == with_all_win(all_win, fwd_moves(p@, i as int, memo@, path@)),
        ensures
            ({
                let t = fwd_moves(p@, 0, memo0, path0.insert(key));
                &&& t.2 == memo@
                &&& t.0 == any_loss
                &&& !any_loss ==> t.1 == all_win
            }),
            path@ == path0.insert(key),
            memo_sound(memo@),
            memo0.submap_of(memo@),
            !memo@.contains_key(key),
            forall|k: u128|
                #[trigger] memo@.contains_key(k) && !memo0.contains_key(k) ==> !path0.contains(k) && k != key,
            any_loss ==> exists|t: int|
                0 <= t < moves_spec(p@).len() && memo@.contains_key(#[trigger] move_key(p@, t)) && memo@[move_key(
                    p@,
                    t,
                )] == Wdl::Loss,
            !any_loss && all_win ==> forall|t: int|
                0 <= t < moves_spec(p@).len() ==> memo@.contains_key(#[trigger] move_key(p@, t)) && memo@[move_key(
                    p@,
                    t,
                )] == Wdl::Win,
        decreases ms@.len() - i,
    {
        let m = ms[i];
        proof {
            assert(moves_spec(p@).contains(m));
            assert(!is_king_capture(p@, moves_spec(p@)[i as int]));
            lemma_make_tokens(p@, m);
            lemma_key_sets(path@);
            lemma_key_sets(path0);
            assert(path@.len() == path0.len() + 1);
        }
        let child = p.make(&m);
        let ghost memo_mid = memo@;
        let r = forward(&child, memo, path);
        proof {
            assert(child@ == make_spec(p@, moves_spec(p@)[i as int]));
            assert(fwd_moves(p@, i as int, memo_mid, path@) == match r {
                Wdl::Loss => (true, true, memo@),
                Wdl::Win => fwd_moves(p@, i + 1, memo@, path@),
                Wdl::Draw => {
                    let t = fwd_moves(p@, i + 1, memo@, path@);
                    (t.0, false, t.2)
                },
            });
        }
        proof {
            assert(move_key(p@, i as int) == canonical_key_spec(child@));
            assert forall|t: int| 0 <= t < i && all_win implies memo@.contains_key(#[trigger] move_key(p@, t))
                && memo@[move_key(p@, t)] == Wdl::Win by {
                assert(memo_mid.contains_key(move_key(p@, t)));
                assert(memo_mid.dom().contains(move_key(p@, t)) && memo@.dom().contains(move_key(p@, t)));
                assert(memo_mid[move_key(p@, t)] == memo@[move_key(p@, t)]);
            }
            assert(memo0.submap_of(memo@)) by {
                assert forall|k: u128| #[trigger] memo0.dom().contains(k) implies #[trigger] memo@.dom().contains(k)
                    && memo0[k] == memo@[k] by {
                    assert(memo0.dom().contains(k) && memo_mid.dom().contains(k));
                    assert(memo0[k] == memo_mid[k]);
                    assert(memo_mid.dom().contains(k) && memo@.dom().contains(k));
                    assert(memo_mid[k] == memo@[k]);
                }
            }
        }
        match r {
            Wdl::Loss => {
                any_loss = true;
                break;
            },
            Wdl::Win => {},
            Wdl::Draw => {
                all_win = false;
            },
        }
        i += 1;
    }
    path.remove(&key);
    proof {
        assert(path@ =~= path0);
    }
    let res = if any_loss {
        Wdl::Win
    } else if all_win {
        Wdl::Loss
    } else {
        Wdl::Draw
    };
    match res {
        Wdl::Draw => {},
        _ => {
            let ghost m1 = memo@;
            memo.insert(key, res);
            proof {
                if any_loss {
                    let t = choose|t: int|
                        0 <= t < moves_spec(p@).len() && m1.contains_key(#[trigger] move_key(p@, t)) && m1[move_key(
                            p@,
                            t,
                        )] == Wdl::Loss;
                    assert(move_key(p@, t) != key);
                    assert(memo@.contains_key(move_key(p@, t)) && memo@[move_key(p@, t)] == Wdl::Loss);
                    assert(win_shown(memo@, p@));
                } else {
                    assert forall|t: int| 0 <= t < moves_spec(p@).len() implies memo@.contains_key(
                        #[trigger] move_key(p@, t),
                    ) && memo@[move_key(p@, t)] == Wdl::Win by {
                        assert(m1.contains_key(move_key(p@, t)));
                        assert(move_key(p@, t) != key);
                    }
                    assert(loss_shown(memo@, p@));
                }
                lemma_memo_grow(m1, memo@);
                assert(memo0.submap_of(memo@)) by {
                    assert forall|k: u128| memo0.dom().contains(k) implies memo@.dom().contains(k) && memo0[k]
                        == memo@[k] by {
                        assert(m1.dom().contains(k));
                        assert(k != key);
                    }
                }
            }
        },
    }
    res
}

/// The class of a table value: positive wins, negative loses, zero draws.
pub open spec fn wdl_class(v: i32) -> Wdl {
    if v > 0 {
        Wdl::Win
    } else if v < 0 {
        Wdl::Loss
    } else {
        Wdl::Draw
    }
}

/// Over the first `n` keys, searched in turn with one shared record: the number
/// whose forward result differs from the class of its value, and the record left.
pub open spec fn forward_mismatches(keys: Seq<u128>, values: Seq<i32>, n: int) -> (int, Map<u128, Wdl>)
    decreases n,
{
    if n <= 0 {
        (0, Map::empty())
    } else {
        let (c, m) = forward_mismatches(keys, values, n - 1);
        let (r, m2) = fwd(unpack_spec(keys[n - 1]), m, Set::empty());
        (c + if r != wdl_class(values[n - 1]) {
            1int
        } else {
            0int
        }, m2)
    }
}

/// The forward result `r` agrees with the sign of the stored value `v`.
pub open spec fn sign_agrees(r: Wdl, v: i32) -> bool {
    ||| (r == Wdl::Win && v > 0)
    ||| (r == Wdl::Loss && v < 0)
    ||| (r == Wdl::Draw && v == 0)
}

/// Each key adds one to the cross-check's count exactly when the forward result
/// for it disagrees with the sign of its value: positive for a win, negative
/// for a loss, zero for a draw.
pub proof fn lemma_forward_mismatch_step(keys: Seq<u128>, values: Seq<i32>, n: int)
    requires
        n >= 1,
    ensures
        ({
            let (c0, m0) = forward_mismatches(keys, values, n - 1);
            let (r, _) = fwd(unpack_spec(keys[n - 1]), m0, Set::empty());
            forward_mismatches(keys, values, n).0 == c0 + if sign_agrees(r, values[n - 1]) {
                0int
            } else {
                1int
            }
        }),
{
}

/// The cross-check finds no mismatch exactly when, key by key, the forward
/// result agrees with the sign of the stored value.
pub proof fn lemma_forward_mismatch_zero(keys: Seq<u128>, values: Seq<i32>, n: int)
    requires
        0 <= n,
    ensures
        forward_mismatches(keys, values, n).0 >= 0,
        forward_mismatches(keys, values, n).0 == 0 <==> forall|i: int|
            0 <= i < n ==> sign_agrees(
                #[trigger] fwd(unpack_spec(keys[i]), forward_mismatches(keys, values, i).1, Set::empty()).0,
                values[i],
            ),
    decreases n,
{
    if n > 0 {
        lemma_forward_mismatch_zero(keys, values, n - 1);
        lemma_forward_mismatch_step(keys, values, n);
        if forward_mismatches(keys, values, n).0 == 0 {
            assert forall|i: int| 0 <= i < n implies sign_agrees(
                #[trigger] fwd(unpack_spec(keys[i]), forward_mismatches(keys, values, i).1, Set::empty()).0,
                values[i],
            ) by {
                if i < n - 1 {
                    assert(sign_agrees(
                        fwd(unpack_spec(keys[i]), forward_mismatches(keys, values, i).1, Set::empty()).0,
                        values[i],
                    ));
                }
            }
        } else {
            if forall|i: int|
                0 <= i < n ==> sign_agrees(
                    #[trigger] fwd(unpack_spec(keys[i]), forward_mismatches(keys, values, i).1, Set::empty()).0,
                    values[i],
                ) {
                assert(sign_agrees(
                    fwd(unpack_spec(keys[n - 1]), forward_mismatches(keys, values, n - 1).1, Set::empty()).0,
                    values[n - 1],
                ));
            }
        }
    }
}

/// Cross-check each key's value sign (win, loss, draw) against the forward
/// solver; the number of keys where they disagree (0: validated).
pub fn forward_check(s: &Solved) -> (mism: u64)
    requires
        s.values@.len() >= s.keys@.len(),
    ensures
        mism == forward_mismatches(s.keys@, s.values@, s.keys@.len() as int).0,
        mism <= s.keys@.len(),
{
    let mut memo: HashMap<u128, Wdl> = HashMap::new();
    proof {
        reveal(memo_sound);
    }
    let mut mism: u64 = 0;
    let mut id: usize = 0;
    while id < s.keys.len()
        invariant
            id <= s.keys@.len(),
            s.values@.len() >= s.keys@.len(),
            memo_sound(memo@),
            mism <= id,
            mism == forward_mismatches(s.keys@, s.values@, id as int).0,
            memo@ == forward_mismatches(s.keys@, s.values@, id as int).1,
        decreases s.keys@.len() - id,
    {
        let p = unpack(s.keys[id]);
        proof {
            lemma_unpack_tokens(s.keys@[id as int]);
        }
        let mut path: HashSet<u128> = HashSet::new();
        let fv = forward(&p, &mut memo, &mut path);
        let rv = s.values[id];
        let r = if rv > 0 {
            Wdl::Win
        } else if rv < 0 {
            Wdl::Loss
        } else {
            Wdl::Draw
        };
        if fv != r {
            mism += 1;
        }
        id += 1;
    }
    mism
}


// ---------------------------------------------------------------------------
// Value totals
// ---------------------------------------------------------------------------

/// Over the first `n` values: wins, losses, draws, and the longest distance.
pub open spec fn counts_spec(values: Seq<i32>, n: int) -> (int, int, int, int)
    decreases n,
{
    if n <= 0 {
        (0, 0, 0, 0)
    } else {
        let (w, l, d, m) = counts_spec(values, n - 1);
        let v = values[n - 1] as int;
        let a = if v < 0 {
            -v
        } else {
            v
        };
        let m2 = if a > m {
            a
        } else {
            m
        };
        if v > 0 {
            (w + 1, l, d, m2)
        } else if v < 0 {
            (w, l + 1, d, m2)
        } else {
            (w, l, d + 1, m)
        }
    }
}

proof fn lemma_counts_bounds(values: Seq<i32>, n: int)
    requires
        0 <= n <= values.len(),
        values_fit32(values),
    ensures
        ({
            let (w, l, d, m) = counts_spec(values, n);
            &&& 0 <= w <= n
            &&& 0 <= l <= n
            &&& 0 <= d <= n
            &&& 0 <= m <= 0x7fff_ffff
        }),
    decreases n,
{
    if n > 0 {
        lemma_counts_bounds(values, n - 1);
        assert(-0x7fff_ffff <= values[n - 1]);
    }
}

/// Totals of a value table.
pub struct ValueCounts {
    pub wins: u64,
    pub losses: u64,
    pub draws: u64,
    pub max_dtm: i32,
}

/// Count wins, losses and draws, and the longest distance to the end.
pub fn value_counts(values: &[i32]) -> (c: ValueCounts)
    requires
        values_fit32(values@),
    ensures
        ({
            let (w, l, d, m) = counts_spec(values@, values@.len() as int);
            &&& c.wins == w
            &&& c.losses == l
            &&& c.draws == d
            &&& c.max_dtm == m
        }),
{
    let mut wins: u64 = 0;
    let mut losses: u64 = 0;
    let mut draws: u64 = 0;
    let mut max_dtm: i32 = 0;
    let mut i: usize = 0;
    while i < values.len()
        invariant
            i <= values@.len(),
            values_fit32(values@),
            ({
                let (w, l, d, m) = counts_spec(values@, i as int);
                &&& wins == w
                &&& losses == l
                &&& draws == d
                &&& max_dtm == m
            }),
        decreases values@.len() - i,
    {
        proof {
            lemma_counts_bounds(values@, i as int);
        }
        let v = values[i];
        if v > 0 {
            wins += 1;
        } else if v < 0 {
            losses += 1;
        } else {
            draws += 1;
        }
        if v != 0 {
            let a = if v < 0 {
                -v
            } else {
                v
            };
            if a > max_dtm {
                max_dtm = a;
            }
        }
        i += 1;
    }
    ValueCounts { wins, losses, draws, max_dtm }
}

// ---------------------------------------------------------------------------
// The calibration ladder
// ---------------------------------------------------------------------------

/// `S/k---/p---/----/---P/---K/-`: Kings and Pawns.
pub open spec fn kp_view() -> PosView {
    PosView {
        board: seq![
            Some((Kind::King, false, Owner::Gote)), None, None, None,
            Some((Kind::Pawn, false, Owner::Gote)), None, None, None,
            None, None, None, None,
            None, None, None, Some((Kind::Pawn, false, Owner::Sente)),
            None, None, None, Some((Kind::King, false, Owner::Sente)),
        ],
        hand_sente: seq![0u8, 0u8, 0u8, 0u8],
        hand_gote: seq![0u8, 0u8, 0u8, 0u8],
        turn: Owner::Sente,
    }
}

/// `S/k-gs/p---/----/---P/SG-K/-`: Kings, Pawns, Golds and Silvers.
pub open spec fn kpgs_view() -> PosView {
    PosView {
        board: seq![
            Some((Kind::King, false, Owner::Gote)), None, Some((Kind::Gold, false, Owner::Gote)), Some((Kind::Silver, false, Owner::Gote)),
            Some((Kind::Pawn, false, Owner::Gote)), None, None, None,
            None, None, None, None,
            None, None, None, Some((Kind::Pawn, false, Owner::Sente)),
            Some((Kind::Silver, false, Owner::Sente)), Some((Kind::Gold, false, Owner::Sente)), None, Some((Kind::King, false, Owner::Sente)),
        ],
        hand_sente: seq![0u8, 0u8, 0u8, 0u8],
        hand_gote: seq![0u8, 0u8, 0u8, 0u8],
        turn: Owner::Sente,
    }
}

/// The start of a named rung: `KP`, `KPG`, `KPGS`, and the full game as `FULL`
/// or `KPGSB`.
pub open spec fn rung_view(name: Seq<char>) -> Option<PosView> {
    if name == seq!['K', 'P'] {
        Some(kp_view())
    } else if name == seq!['K', 'P', 'G'] {
        Some(kpg_start_view())
    } else if name == seq!['K', 'P', 'G', 'S'] {
        Some(kpgs_view())
    } else if name == seq!['F', 'U', 'L', 'L'] || name == seq!['K', 'P', 'G', 'S', 'B'] {
        Some(initial_view())
    } else {
        None
    }
}

fn chars_eq(a: &Vec<char>, b: &[char]) -> (r: bool)
    ensures
        r == (a@ == b@),
{
    if a.len() != b.len() {
        return false;
    }
    let mut i: usize = 0;
    while i < a.len()
        invariant
            i <= a@.len(),
            a@.len() == b@.len(),
            forall|j: int| 0 <= j < i ==> a@[j] == b@[j],
        decreases a@.len() - i,
    {
        if a[i] != b[i] {
            return false;
        }
        i += 1;
    }
    assert(a@ =~= b@);
    true
}

fn kp_start() -> (p: Position)
    ensures
        p@ == kp_view(),
{
    let p = Position {
        board: [
            Some((Kind::King, false, Owner::Gote)), None, None, None,
            Some((Kind::Pawn, false, Owner::Gote)), None, None, None,
            None, None, None, None,
            None, None, None, Some((Kind::Pawn, false, Owner::Sente)),
            None, None, None, Some((Kind::King, false, Owner::Sente)),
        ],
        hand_sente: [0; 4],
        hand_gote: [0; 4],
        turn: Owner::Sente,
    };
    assert(p.board@ =~= kp_view().board);
    assert(p.hand_sente@ =~= kp_view().hand_sente);
    assert(p.hand_gote@ =~= kp_view().hand_gote);
    p
}

fn kpgs_start() -> (p: Position)
    ensures
        p@ == kpgs_view(),
{
    let p = Position {
        board: [
            Some((Kind::King, false, Owner::Gote)), None, Some((Kind::Gold, false, Owner::Gote)), Some((Kind::Silver, false, Owner::Gote)),
            Some((Kind::Pawn, false, Owner::Gote)), None, None, None,
            None, None, None, None,
            None, None, None, Some((Kind::Pawn, false, Owner::Sente)),
            Some((Kind::Silver, false, Owner::Sente)), Some((Kind::Gold, false, Owner::Sente)), None, Some((Kind::King, false, Owner::Sente)),
        ],
        hand_sente: [0; 4],
        hand_gote: [0; 4],
        turn: Owner::Sente,
    };
    assert(p.board@ =~= kpgs_view().board);
    assert(p.hand_sente@ =~= kpgs_view().hand_sente);
    assert(p.hand_gote@ =~= kpgs_view().hand_gote);
    p
}

/// Start position for a named rung of the calibration ladder (reduced piece
/// set on the real board), `None` for an unknown name.
pub fn rung_start(name: &str) -> (r: Option<Position>)
    ensures
        match r {
            Some(p) => rung_view(name@) == Some(p@),
            None => rung_view(name@) is None,
        },
{
    let cs = chars_of(name);
    let kp: [char; 2] = ['K', 'P'];
    let kpg: [char; 3] = ['K', 'P', 'G'];
    let kpgs: [char; 4] = ['K', 'P', 'G', 'S'];
    let full: [char; 4] = ['F', 'U', 'L', 'L'];
    let kpgsb: [char; 5] = ['K', 'P', 'G', 'S', 'B'];
    proof {
        assert(kp@ =~= seq!['K', 'P']);
        assert(kpg@ =~= seq!['K', 'P', 'G']);
        assert(kpgs@ =~= seq!['K', 'P', 'G', 'S']);
        assert(full@ =~= seq!['F', 'U', 'L', 'L']);
        assert(kpgsb@ =~= seq!['K', 'P', 'G', 'S', 'B']);
    }
    if chars_eq(&cs, &kp) {
        Some(kp_start())
    } else if chars_eq(&cs, &kpg) {
        Some(kpg_start())
    } else if chars_eq(&cs, &kpgs) {
        Some(kpgs_start())
    } else if chars_eq(&cs, &full) || chars_eq(&cs, &kpgsb) {
        Some(initial())
    } else {
        None
    }
}

} // verus!
