//! The dumped-table file format and the statistics read back from it.
//!
//! A table file starts with a 20-byte header: the magic `MSHTB001`, the record
//! count as a little-endian `u64`, and the record size (20) as a little-endian
//! `u32`. Each record is a little-endian `u128` key followed by a little-endian
//! `i32` value.
use std::collections::BTreeMap;
use vstd::prelude::*;

verus! {

broadcast use {vstd::std_specs::btree::group_btree_axioms, vstd::laws_cmp::group_laws_cmp};

/// Bytes in the header and in each record.
pub const HEADER_BYTES: usize = 20;

pub const RECORD_BYTES: usize = 20;

pub open spec fn magic() -> Seq<u8> {
    seq![0x4du8, 0x53u8, 0x48u8, 0x54u8, 0x42u8, 0x30u8, 0x30u8, 0x31u8]
}

/// The `n` low bytes of `x`, least significant first.
pub open spec fn le_bytes(x: u128, n: int) -> Seq<u8> {
    Seq::new(n as nat, |i: int| ((x >> ((8 * i) as u128)) & 0xff) as u8)
}

/// The number the little-endian bytes `b` spell.
pub open spec fn le_value(b: Seq<u8>) -> int
    decreases b.len(),
{
    if b.len() == 0 {
        0
    } else {
        b[0] + 256 * le_value(b.drop_first())
    }
}

proof fn lemma_byte(x: u128, i: u128)
    by (bit_vector)
    requires
        i < 16,
    ensures
        (x >> (8 * i)) & 0xff < 256,
{
}

fn put_le(out: &mut Vec<u8>, x: u128, n: usize)
    requires
        n <= 16,
    ensures
        final(out)@ == old(out)@ + le_bytes(x, n as int),
{
    let ghost base = out@;
    let mut i: usize = 0;
    while i < n
        invariant
            i <= n <= 16,
            out@ == base + le_bytes(x, i as int),
        decreases n - i,
    {
        proof {
            lemma_byte(x, i as u128);
        }
        out.push(((x >> (8 * i as u128)) & 0xff) as u8);
        assert(le_bytes(x, i + 1) =~= le_bytes(x, i as int).push(((x >> ((8 * i) as u128)) & 0xff) as u8));
        i += 1;
    }
}

/// The header of a table of `records` records.
pub fn table_header(records: u64) -> (h: Vec<u8>)
    ensures
        h@ == magic() + le_bytes(records as u128, 8) + le_bytes(20, 4),
{
    let mut h: Vec<u8> = Vec::new();
    h.push(0x4d);
    h.push(0x53);
    h.push(0x48);
    h.push(0x54);
    h.push(0x42);
    h.push(0x30);
    h.push(0x30);
    h.push(0x31);
    assert(h@ =~= magic());
    put_le(&mut h, records as u128, 8);
    put_le(&mut h, 20, 4);
    h
}

/// One record: the key, then the value as its two's-complement bits.
pub fn table_record(key: u128, value: i32) -> (r: Vec<u8>)
    ensures
        r@ == le_bytes(key, 16) + le_bytes((value as u32) as u128, 4),
{
    let mut r: Vec<u8> = Vec::new();
    assert(r@ =~= Seq::<u8>::empty());
    put_le(&mut r, key, 16);
    let bits: u32 = value as u32;
    put_le(&mut r, bits as u128, 4);
    assert(r@ =~= le_bytes(key, 16) + le_bytes((value as u32) as u128, 4));
    r
}

proof fn lemma_byte_shift(x: u128, i: u128)
    by (bit_vector)
    requires
        i < 15,
    ensures
        (x >> (8 * (i + 1))) & 0xff == ((x >> 8) >> (8 * i)) & 0xff,
{
}

proof fn lemma_split_low_byte(x: u128)
    by (bit_vector)
    ensures
        x == (x & 0xff) + 256 * (x >> 8),
        x >> 8 == x / 256,
        (x >> 0) & 0xff == x & 0xff,
{
}

/// Spelling `x` in `n` little-endian bytes and reading them back gives `x`,
/// when `x` fits in `n` bytes.
pub proof fn lemma_le_roundtrip(x: u128, n: int)
    requires
        0 <= n <= 16,
        x < vstd::arithmetic::power2::pow2((8 * n) as nat),
    ensures
        le_value(le_bytes(x, n)) == x,
    decreases n,
{
    let b = le_bytes(x, n);
    if n == 0 {
        vstd::arithmetic::power2::lemma2_to64();
    } else {
        lemma_split_low_byte(x);
        let y = x >> 8;
        let m = (8 * (n - 1)) as nat;
        vstd::arithmetic::power2::lemma_pow2_adds(8, m);
        vstd::arithmetic::power2::lemma2_to64();
        assert((8 * n) as nat == 8 + m);
        assert(y < vstd::arithmetic::power2::pow2(m)) by (nonlinear_arith)
            requires
                x < vstd::arithmetic::power2::pow2(8) * vstd::arithmetic::power2::pow2(m),
                vstd::arithmetic::power2::pow2(8) == 256,
                y == x / 256,
        ;
        lemma_le_roundtrip(y, n - 1);
        assert forall|i: int| 0 <= i < n - 1 implies #[trigger] b.drop_first()[i] == le_bytes(y, n - 1)[i] by {
            lemma_byte_shift(x, i as u128);
        }
        assert(b.drop_first() =~= le_bytes(y, n - 1));
        assert(b[0] == x & 0xff);
    }
}

/// Reading back the header written for `records` records gives `records`.
pub proof fn lemma_header_roundtrip(records: u64)
    ensures
        ({
            let h = magic() + le_bytes(records as u128, 8) + le_bytes(20, 4);
            &&& h.len() == HEADER_BYTES
            &&& h.subrange(0, 8) == magic()
            &&& le_value(h.subrange(8, 16)) == records
            &&& le_value(h.subrange(16, 20)) == RECORD_BYTES
        }),
{
    let h = magic() + le_bytes(records as u128, 8) + le_bytes(20, 4);
    vstd::arithmetic::power2::lemma2_to64();
    vstd::arithmetic::power2::lemma2_to64_rest();
    lemma_le_roundtrip(records as u128, 8);
    lemma_le_roundtrip(20, 4);
    assert(h.subrange(0, 8) =~= magic());
    assert(h.subrange(8, 16) =~= le_bytes(records as u128, 8));
    assert(h.subrange(16, 20) =~= le_bytes(20, 4));
}

/// Reading back the value of a record written for `(key, value)` gives `value`.
pub proof fn lemma_record_roundtrip(key: u128, value: i32)
    ensures
        ({
            let r = le_bytes(key, 16) + le_bytes((value as u32) as u128, 4);
            &&& r.len() == RECORD_BYTES
            &&& le_value(r.subrange(0, 16)) == key
            &&& le_value(r.subrange(16, 20)) == value as u32
        }),
{
    let r = le_bytes(key, 16) + le_bytes((value as u32) as u128, 4);
    vstd::arithmetic::power2::lemma2_to64();
    vstd::arithmetic::power2::lemma2_to64_rest();
    assert(vstd::arithmetic::power2::pow2(128) == 0x1_0000_0000_0000_0000_0000_0000_0000_0000) by {
        vstd::arithmetic::power2::lemma_pow2_adds(64, 64);
    }
    lemma_le_roundtrip(key, 16);
    lemma_le_roundtrip((value as u32) as u128, 4);
    assert(r.subrange(0, 16) =~= le_bytes(key, 16));
    assert(r.subrange(16, 20) =~= le_bytes((value as u32) as u128, 4));
}

/// Why a header is refused.
#[derive(Clone, Copy, PartialEq, Eq, Debug)]
pub enum HeaderError {
    /// The first eight bytes are not `MSHTB001`.
    BadMagic,
    /// The record size is not 20.
    RecordSize(u32),
}

fn read_le(b: &[u8], start: usize, n: usize) -> (v: u64)
    requires
        start + n <= b@.len(),
        n <= 8,
    ensures
        v == le_value(b@.subrange(start as int, (start + n) as int)),
    decreases n,
{
    if n == 0 {
        assert(b@.subrange(start as int, start as int) =~= Seq::<u8>::empty());
        return 0;
    }
    let blen = b.len();
    assert(start + 1 <= blen);
    let rest = read_le(b, start + 1, n - 1);
    let ghost s = b@.subrange(start as int, (start + n) as int);
    assert(s.drop_first() =~= b@.subrange(start + 1, (start + n) as int));
    proof {
        lemma_le_value_bound(b@.subrange(start + 1, (start + n) as int));
        vstd::arithmetic::power2::lemma2_to64();
        vstd::arithmetic::power2::lemma2_to64_rest();
    }
    assert(rest < 0x100_0000_0000_0000) by {
        assert(le_value(b@.subrange(start + 1, (start + n) as int)) < vstd::arithmetic::power2::pow2(8 * (n - 1) as nat));
        if 8 * (n - 1) < 56 {
            vstd::arithmetic::power2::lemma_pow2_strictly_increases((8 * (n - 1)) as nat, 56);
        }
    }
    b[start] as u64 + 256 * rest
}

/// A little-endian number of `b.len()` bytes is below `2^(8 * b.len())`.
proof fn lemma_le_value_bound(b: Seq<u8>)
    ensures
        0 <= le_value(b) < vstd::arithmetic::power2::pow2(8 * b.len()),
    decreases b.len(),
{
    vstd::arithmetic::power2::lemma_pow2_pos(8 * b.len());
    if b.len() > 0 {
        lemma_le_value_bound(b.drop_first());
        let n = b.len() - 1;
        vstd::arithmetic::power2::lemma_pow2_adds(8, (8 * n) as nat);
        vstd::arithmetic::power2::lemma2_to64();
        assert(b[0] + 256 * le_value(b.drop_first()) < vstd::arithmetic::power2::pow2(8 * b.len())) by (nonlinear_arith)
            requires
                b[0] < 256,
                le_value(b.drop_first()) < vstd::arithmetic::power2::pow2((8 * n) as nat),
                vstd::arithmetic::power2::pow2(8 * b.len()) == 256 * vstd::arithmetic::power2::pow2((8 * n) as nat),
                8 * b.len() == 8 + 8 * n,
        ;
    }
}

/// Read a 20-byte header: the record count, when the magic is `MSHTB001` and the
/// record size 20.
pub fn parse_table_header(h: &[u8]) -> (r: Result<u64, HeaderError>)
    requires
        h@.len() == 20,
    ensures
        match r {
            Ok(n) => h@.subrange(0, 8) == magic() && le_value(h@.subrange(16, 20)) == 20 && n == le_value(
                h@.subrange(8, 16),
            ),
            Err(HeaderError::BadMagic) => h@.subrange(0, 8) != magic(),
            Err(HeaderError::RecordSize(s)) => h@.subrange(0, 8) == magic() && s == le_value(h@.subrange(16, 20))
                && s != 20,
        },
{
    let mut i: usize = 0;
    let m: [u8; 8] = [0x4d, 0x53, 0x48, 0x54, 0x42, 0x30, 0x30, 0x31];
    assert(m@ =~= magic());
    while i < 8
        invariant
            i <= 8,
            h@.len() == 20,
            m@ == magic(),
            forall|j: int| 0 <= j < i ==> h@[j] == magic()[j],
        decreases 8 - i,
    {
        if h[i] != m[i] {
            assert(h@.subrange(0, 8)[i as int] != magic()[i as int]);
            return Err(HeaderError::BadMagic);
        }
        i += 1;
    }
    assert(h@.subrange(0, 8) =~= magic());
    let records = read_le(h, 8, 8);
    let size = read_le(h, 16, 4);
    proof {
        lemma_le_value_bound(h@.subrange(16, 20));
        vstd::arithmetic::power2::lemma2_to64();
    }
    if size != 20 {
        return Err(HeaderError::RecordSize(size as u32));
    }
    Ok(records)
}

/// The value of a 20-byte record: its last four bytes as a little-endian `i32`.
pub fn record_value(rec: &[u8]) -> (v: i32)
    requires
        rec@.len() == 20,
    ensures
        v as u32 == le_value(rec@.subrange(16, 20)),
{
    let bits = read_le(rec, 16, 4);
    proof {
        lemma_le_value_bound(rec@.subrange(16, 20));
        vstd::arithmetic::power2::lemma2_to64();
    }
    let b32: u32 = bits as u32;
    let v = b32 as i32;
    assert(v as u32 == b32) by (bit_vector)
        requires
            v == b32 as i32,
    ;
    v
}

// ---------------------------------------------------------------------------
// Percentiles of a histogram
// ---------------------------------------------------------------------------

/// Counts of the first `n` histogram entries.
pub open spec fn cumulative(hist: Seq<(i32, u64)>, n: int) -> int
    decreases n,
{
    if n <= 0 {
        0
    } else {
        cumulative(hist, n - 1) + hist[n - 1].1
    }
}

pub open spec fn ceil_div(a: int, b: int) -> int {
    (a + b - 1) / b
}

/// The smallest key of the sorted histogram `hist` at which the cumulative count
/// reaches `numerator / denominator` of `total` (rounded up); 0 for an empty
/// total or when the histogram never reaches it.
pub open spec fn percentile_spec(hist: Seq<(i32, u64)>, total: int, numerator: int, denominator: int) -> i32 {
    if total == 0 {
        0
    } else {
        let target = ceil_div(total * numerator, denominator);
        if exists|n: int| 1 <= n <= hist.len() && cumulative(hist, n) >= target {
            let n = choose|n: int|
                1 <= n <= hist.len() && cumulative(hist, n) >= target && forall|m: int|
                    1 <= m < n ==> cumulative(hist, m) < target;
            hist[n - 1].0
        } else {
            0
        }
    }
}

proof fn lemma_cumulative_mono(hist: Seq<(i32, u64)>, a: int, b: int)
    requires
        0 <= a <= b,
    ensures
        cumulative(hist, a) <= cumulative(hist, b),
    decreases b - a,
{
    if a < b {
        lemma_cumulative_mono(hist, a, b - 1);
    }
}

/// The `numerator / denominator` percentile key of a histogram given in key order.
pub fn percentile_numerator(hist: &[(i32, u64)], total: u64, numerator: u64, denominator: u64) -> (r: i32)
    requires
        denominator > 0,
        hist@.len() < 0x1_0000_0000_0000_0000,
    ensures
        r == percentile_spec(hist@, total as int, numerator as int, denominator as int),
{
    if total == 0 {
        return 0;
    }
    assert(total as u128 * numerator as u128 <= 0xffff_ffff_ffff_fffe_0000_0000_0000_0001) by (nonlinear_arith)
        requires
            total <= 0xffff_ffff_ffff_ffff,
            numerator <= 0xffff_ffff_ffff_ffff,
    ;
    let prod: u128 = total as u128 * numerator as u128;
    let target: u128 = (prod + denominator as u128 - 1) / denominator as u128;
    assert(target == ceil_div(total * numerator, denominator as int));
    let mut cumulative_count: u128 = 0;
    let mut i: usize = 0;
    while i < hist.len()
        invariant
            i <= hist@.len(),
            hist@.len() < 0x1_0000_0000_0000_0000,
            cumulative_count == cumulative(hist@, i as int),
            cumulative_count <= i * 0xffff_ffff_ffff_ffff,
            forall|m: int| 1 <= m <= i ==> cumulative(hist@, m) < target,
            target == ceil_div(total * numerator, denominator as int),
            total > 0,
        decreases hist@.len() - i,
    {
        let (dtm, count) = hist[i];
        cumulative_count = cumulative_count + count as u128;
        if cumulative_count >= target {
            proof {
                let n = (i + 1) as int;
                assert(1 <= n <= hist@.len() && cumulative(hist@, n) >= target);
                let c = choose|c: int|
                    1 <= c <= hist@.len() && cumulative(hist@, c) >= target && forall|m: int|
                        1 <= m < c ==> cumulative(hist@, m) < target;
                assert(forall|m: int| 1 <= m < n ==> cumulative(hist@, m) < target);
                if c < n {
                    assert(cumulative(hist@, c) < target);
                } else if c > n {
                    assert(cumulative(hist@, n) < target);
                }
            }
            return dtm;
        }
        i += 1;
    }
    proof {
        assert forall|n: int| 1 <= n <= hist@.len() implies cumulative(hist@, n) < target by {}
    }
    0
}

/// The percentile key of a histogram given in key order (`percent` of 100).
pub fn percentile(hist: &[(i32, u64)], total: u64, percent: u64) -> (r: i32)
    requires
        hist@.len() < 0x1_0000_0000_0000_0000,
    ensures
        r == percentile_spec(hist@, total as int, percent as int, 100),
{
    percentile_numerator(hist, total, percent, 100)
}

/// The per-mille key of a histogram given in key order (`per_mille` of 1000).
pub fn percentile_per_mille(hist: &[(i32, u64)], total: u64, per_mille: u64) -> (r: i32)
    requires
        hist@.len() < 0x1_0000_0000_0000_0000,
    ensures
        r == percentile_spec(hist@, total as int, per_mille as int, 1000),
{
    percentile_numerator(hist, total, per_mille, 1000)
}

// ---------------------------------------------------------------------------
// Value totals of a table scan
// ---------------------------------------------------------------------------

/// Running totals of a scan of table values: a positive value is a win in
/// that many plies, a negative one a loss in minus that many, zero a draw;
/// with the histograms of the values, of the DTMs of wins and of losses, and
/// of the DTMs of both.
pub struct TableTally {
    pub wins: u64,
    pub losses: u64,
    pub draws: u64,
    pub win_dtm_sum: u128,
    pub loss_dtm_sum: u128,
    pub max_win_dtm: i32,
    pub max_loss_dtm: i32,
    pub signed: BTreeMap<i32, u64>,
    pub dtm_wins: BTreeMap<i32, u64>,
    pub dtm_losses: BTreeMap<i32, u64>,
    pub decided_dtm: BTreeMap<i32, u64>,
}

/// The totals as integers, the histograms as maps.
pub struct TallyView {
    pub wins: int,
    pub losses: int,
    pub draws: int,
    pub win_dtm_sum: int,
    pub loss_dtm_sum: int,
    pub max_win_dtm: int,
    pub max_loss_dtm: int,
    pub signed: Map<i32, u64>,
    pub dtm_wins: Map<i32, u64>,
    pub dtm_losses: Map<i32, u64>,
    pub decided_dtm: Map<i32, u64>,
}

/// One more occurrence of `k` in histogram `m`.
pub open spec fn bump(m: Map<i32, u64>, k: i32) -> Map<i32, u64> {
    m.insert(
        k,
        if m.contains_key(k) {
            (m[k] + 1) as u64
        } else {
            1
        },
    )
}

impl View for TableTally {
    type V = TallyView;

    open spec fn view(&self) -> TallyView {
        TallyView {
            wins: self.wins as int,
            losses: self.losses as int,
            draws: self.draws as int,
            win_dtm_sum: self.win_dtm_sum as int,
            loss_dtm_sum: self.loss_dtm_sum as int,
            max_win_dtm: self.max_win_dtm as int,
            max_loss_dtm: self.max_loss_dtm as int,
            signed: self.signed@,
            dtm_wins: self.dtm_wins@,
            dtm_losses: self.dtm_losses@,
            decided_dtm: self.decided_dtm@,
        }
    }
}

pub open spec fn max_of(a: int, b: int) -> int {
    if a < b {
        b
    } else {
        a
    }
}

/// The totals after one more value.
pub open spec fn tally_step(t: TallyView, v: i32) -> TallyView {
    if v > 0 {
        TallyView {
            wins: t.wins + 1,
            losses: t.losses,
            draws: t.draws,
            win_dtm_sum: t.win_dtm_sum + v,
            loss_dtm_sum: t.loss_dtm_sum,
            max_win_dtm: max_of(t.max_win_dtm, v as int),
            max_loss_dtm: t.max_loss_dtm,
            signed: bump(t.signed, v),
            dtm_wins: bump(t.dtm_wins, v),
            dtm_losses: t.dtm_losses,
            decided_dtm: bump(t.decided_dtm, v),
        }
    } else if v < 0 {
        TallyView {
            wins: t.wins,
            losses: t.losses + 1,
            draws: t.draws,
            win_dtm_sum: t.win_dtm_sum,
            loss_dtm_sum: t.loss_dtm_sum - v,
            max_win_dtm: t.max_win_dtm,
            max_loss_dtm: max_of(t.max_loss_dtm, -v),
            signed: bump(t.signed, v),
            dtm_wins: t.dtm_wins,
            dtm_losses: bump(t.dtm_losses, (-v) as i32),
            decided_dtm: bump(t.decided_dtm, (-v) as i32),
        }
    } else {
        TallyView {
            wins: t.wins,
            losses: t.losses,
            draws: t.draws + 1,
            win_dtm_sum: t.win_dtm_sum,
            loss_dtm_sum: t.loss_dtm_sum,
            max_win_dtm: t.max_win_dtm,
            max_loss_dtm: t.max_loss_dtm,
            signed: bump(t.signed, v),
            dtm_wins: t.dtm_wins,
            dtm_losses: t.dtm_losses,
            decided_dtm: t.decided_dtm,
        }
    }
}

/// The totals of a scan of `values`, in order.
pub open spec fn tally_of(values: Seq<i32>) -> TallyView
    decreases values.len(),
{
    if values.len() == 0 {
        TallyView {
            wins: 0,
            losses: 0,
            draws: 0,
            win_dtm_sum: 0,
            loss_dtm_sum: 0,
            max_win_dtm: 0,
            max_loss_dtm: 0,
            signed: Map::empty(),
            dtm_wins: Map::empty(),
            dtm_losses: Map::empty(),
            decided_dtm: Map::empty(),
        }
    } else {
        tally_step(tally_of(values.drop_last()), values.last())
    }
}

/// Every count of histogram `m` is at most `n`.
pub open spec fn counts_within(m: Map<i32, u64>, n: int) -> bool {
    forall|k: i32| m.contains_key(k) ==> #[trigger] m[k] <= n
}

fn bump_count(m: &mut BTreeMap<i32, u64>, k: i32, Ghost(n): Ghost<int>)
    requires
        counts_within(old(m)@, n),
        0 <= n < u64::MAX,
    ensures
        final(m)@ == bump(old(m)@, k),
        counts_within(final(m)@, n + 1),
{
    let c: u64 = match m.get(&k) {
        Some(c) => *c,
        None => 0,
    };
    m.insert(k, c + 1);
    assert forall|x: i32| m@.contains_key(x) implies #[trigger] m@[x] <= n + 1 by {
        if x != k {
            assert(old(m)@.contains_key(x) && m@[x] == old(m)@[x]);
        } else if old(m)@.contains_key(k) {
            assert(old(m)@[k] <= n);
            assert(c == old(m)@[k]);
        }
    }
}

impl TableTally {
    /// Sums within what the counts allow, maxima not negative.
    pub open spec fn wf(&self) -> bool {
        &&& self.win_dtm_sum <= self.wins * 0x7fff_ffff
        &&& self.loss_dtm_sum <= self.losses * 0x7fff_ffff
        &&& 0 <= self.max_win_dtm
        &&& 0 <= self.max_loss_dtm
        &&& counts_within(self.signed@, self.wins + self.losses + self.draws)
        &&& counts_within(self.dtm_wins@, self.wins + self.losses + self.draws)
        &&& counts_within(self.dtm_losses@, self.wins + self.losses + self.draws)
        &&& counts_within(self.decided_dtm@, self.wins + self.losses + self.draws)
    }

    /// No value scanned yet.
    pub fn new() -> (t: TableTally)
        ensures
            t.wf(),
            t@ == tally_of(Seq::empty()),
    {
        TableTally {
            wins: 0,
            losses: 0,
            draws: 0,
            win_dtm_sum: 0,
            loss_dtm_sum: 0,
            max_win_dtm: 0,
            max_loss_dtm: 0,
            signed: BTreeMap::new(),
            dtm_wins: BTreeMap::new(),
            dtm_losses: BTreeMap::new(),
            decided_dtm: BTreeMap::new(),
        }
    }

    /// Values scanned so far.
    pub fn records(&self) -> (n: u128)
        ensures
            n == self.wins + self.losses + self.draws,
    {
        self.wins as u128 + self.losses as u128 + self.draws as u128
    }

    /// Count one more value.
    pub fn add(&mut self, value: i32)
        requires
            old(self).wf(),
            value != i32::MIN,
            old(self).wins + old(self).losses + old(self).draws < u64::MAX,
        ensures
            final(self).wf(),
            final(self)@ == tally_step(old(self)@, value),
    {
        let ghost total = self.wins + self.losses + self.draws;
        bump_count(&mut self.signed, value, Ghost(total));
        if value > 0 {
            bump_count(&mut self.dtm_wins, value, Ghost(total));
            bump_count(&mut self.decided_dtm, value, Ghost(total));
            self.wins = self.wins + 1;
            assert(self.win_dtm_sum + value <= self.wins * 0x7fff_ffff) by (nonlinear_arith)
                requires
                    self.win_dtm_sum <= (self.wins - 1) * 0x7fff_ffff,
                    value <= 0x7fff_ffff,
            ;
            assert(self.wins * 0x7fff_ffff < 0x1_0000_0000_0000_0000 * 0x8000_0000) by (nonlinear_arith)
                requires
                    self.wins < 0x1_0000_0000_0000_0000,
            ;
            self.win_dtm_sum = self.win_dtm_sum + value as u128;
            if value > self.max_win_dtm {
                self.max_win_dtm = value;
            }
        } else if value < 0 {
            let dtm: i32 = -value;
            bump_count(&mut self.dtm_losses, dtm, Ghost(total));
            bump_count(&mut self.decided_dtm, dtm, Ghost(total));
            self.losses = self.losses + 1;
            assert(self.loss_dtm_sum + dtm <= self.losses * 0x7fff_ffff) by (nonlinear_arith)
                requires
                    self.loss_dtm_sum <= (self.losses - 1) * 0x7fff_ffff,
                    dtm <= 0x7fff_ffff,
            ;
            assert(self.losses * 0x7fff_ffff < 0x1_0000_0000_0000_0000 * 0x8000_0000) by (nonlinear_arith)
                requires
                    self.losses < 0x1_0000_0000_0000_0000,
            ;
            self.loss_dtm_sum = self.loss_dtm_sum + dtm as u128;
            if dtm > self.max_loss_dtm {
                self.max_loss_dtm = dtm;
            }
        } else {
            self.draws = self.draws + 1;
        }
    }

    /// Won and lost values together.
    pub fn decided(&self) -> (n: u64)
        requires
            self.wins + self.losses <= u64::MAX,
        ensures
            n == self.wins + self.losses,
    {
        self.wins + self.losses
    }

    /// The DTMs of won and lost values summed.
    pub fn decided_dtm_sum(&self) -> (s: u128)
        requires
            self.wf(),
        ensures
            s == self.win_dtm_sum + self.loss_dtm_sum,
    {
        assert(self.win_dtm_sum + self.loss_dtm_sum < 0x1_0000_0000_0000_0000 * 0x1_0000_0000) by (nonlinear_arith)
            requires
                self.win_dtm_sum <= self.wins * 0x7fff_ffff,
                self.loss_dtm_sum <= self.losses * 0x7fff_ffff,
                self.wins < 0x1_0000_0000_0000_0000,
                self.losses < 0x1_0000_0000_0000_0000,
        ;
        self.win_dtm_sum + self.loss_dtm_sum
    }

    /// The longest DTM of a won or lost value (0 with none).
    pub fn max_abs_dtm(&self) -> (m: i32)
        ensures
            m == max_of(self.max_win_dtm as int, self.max_loss_dtm as int),
    {
        if self.max_win_dtm < self.max_loss_dtm {
            self.max_loss_dtm
        } else {
            self.max_win_dtm
        }
    }
}

/// Every scanned value is counted once: as a win, a loss or a draw.
pub proof fn lemma_tally_counts(values: Seq<i32>)
    ensures
        tally_of(values).wins + tally_of(values).losses + tally_of(values).draws == values.len(),
        0 <= tally_of(values).wins && 0 <= tally_of(values).losses && 0 <= tally_of(values).draws,
        0 <= tally_of(values).max_win_dtm,
        0 <= tally_of(values).max_loss_dtm,
        tally_of(values).wins == 0 ==> tally_of(values).max_win_dtm == 0,
        tally_of(values).losses == 0 ==> tally_of(values).max_loss_dtm == 0,
    decreases values.len(),
{
    if values.len() > 0 {
        lemma_tally_counts(values.drop_last());
    }
}

} // verus!
