use microshogi::report::{decimal, json_string, json_string_value, opt_json_u64, opt_u64};
use microshogi::retro::value_counts;
use microshogi::table::{
    parse_table_header, percentile, percentile_numerator, percentile_per_mille, record_value, table_header,
    table_record, HeaderError, TableTally, HEADER_BYTES, RECORD_BYTES,
};

#[test]
fn header_reads_back_its_record_count() {
    for n in [0u64, 1, 20, 0x0102_0304_0506_0708, u64::MAX] {
        let h = table_header(n);
        assert_eq!(h.len(), HEADER_BYTES);
        assert_eq!(&h[..8], b"MSHTB001");
        assert_eq!(parse_table_header(&h), Ok(n));
    }
}

#[test]
fn header_bytes_are_little_endian() {
    let h = table_header(0x0102_0304_0506_0708);
    assert_eq!(&h[8..16], &[8, 7, 6, 5, 4, 3, 2, 1]);
    assert_eq!(&h[16..20], &[20, 0, 0, 0]);
}

#[test]
fn header_with_wrong_magic_is_refused() {
    let mut h = table_header(5);
    h[0] = b'X';
    assert_eq!(parse_table_header(&h), Err(HeaderError::BadMagic));
}

#[test]
fn header_with_other_record_size_is_refused() {
    let mut h = table_header(5);
    h[16] = 24;
    assert_eq!(parse_table_header(&h), Err(HeaderError::RecordSize(24)));
    h[17] = 1;
    assert_eq!(parse_table_header(&h), Err(HeaderError::RecordSize(280)));
}

#[test]
fn record_reads_back_its_value() {
    for (k, v) in [(0u128, 0i32), (u128::MAX, -1), (0x1234, 7), (99, i32::MIN), (5, i32::MAX), (1 << 100, -32767)] {
        let r = table_record(k, v);
        assert_eq!(r.len(), RECORD_BYTES);
        assert_eq!(&r[..16], &k.to_le_bytes());
        assert_eq!(&r[16..], &v.to_le_bytes());
        assert_eq!(record_value(&r), v);
    }
}

#[test]
fn percentiles_of_a_histogram() {
    let hist = [(1i32, 5u64), (3, 3), (8, 2)];
    assert_eq!(percentile(&hist, 10, 50), 1);
    assert_eq!(percentile(&hist, 10, 51), 3);
    assert_eq!(percentile(&hist, 10, 80), 3);
    assert_eq!(percentile(&hist, 10, 90), 8);
    assert_eq!(percentile_per_mille(&hist, 10, 999), 8);
    assert_eq!(percentile(&hist, 0, 50), 0);
    assert_eq!(percentile(&[], 4, 50), 0);
    assert_eq!(percentile_numerator(&hist, 10, 1, 3), 1);
    assert_eq!(percentile_numerator(&hist, 10, 2, 3), 3);
    // a total above the histogram's counts is never reached
    assert_eq!(percentile(&hist, 100, 50), 0);
}

#[test]
fn tally_counts_each_value_once() {
    let values = [3i32, -2, 0, 5, -7, 0, 1];
    let mut t = TableTally::new();
    for &v in &values {
        t.add(v);
    }
    assert_eq!(t.records(), values.len() as u128);
    assert_eq!((t.wins, t.losses, t.draws), (3, 2, 2));
    assert_eq!((t.win_dtm_sum, t.loss_dtm_sum), (9, 9));
    assert_eq!((t.max_win_dtm, t.max_loss_dtm), (5, 7));
    assert_eq!(t.decided(), 5);
    assert_eq!(t.decided_dtm_sum(), 18);
    assert_eq!(t.max_abs_dtm(), 7);
    let signed: Vec<(i32, u64)> = t.signed.iter().map(|(&k, &v)| (k, v)).collect();
    assert_eq!(signed, vec![(-7, 1), (-2, 1), (0, 2), (1, 1), (3, 1), (5, 1)]);
    let wins: Vec<(i32, u64)> = t.dtm_wins.iter().map(|(&k, &v)| (k, v)).collect();
    assert_eq!(wins, vec![(1, 1), (3, 1), (5, 1)]);
    let losses: Vec<(i32, u64)> = t.dtm_losses.iter().map(|(&k, &v)| (k, v)).collect();
    assert_eq!(losses, vec![(2, 1), (7, 1)]);
    let decided: Vec<(i32, u64)> = t.decided_dtm.iter().map(|(&k, &v)| (k, v)).collect();
    assert_eq!(decided, vec![(1, 1), (2, 1), (3, 1), (5, 1), (7, 1)]);
    assert_eq!(percentile(&decided, t.decided(), 50), 3);
}

#[test]
fn tally_counts_repeated_values() {
    let mut t = TableTally::new();
    for &v in &[4i32, -4, 4, 4, -4, 0] {
        t.add(v);
    }
    assert_eq!(t.signed.get(&4), Some(&3));
    assert_eq!(t.signed.get(&-4), Some(&2));
    assert_eq!(t.decided_dtm.get(&4), Some(&5));
    assert_eq!(t.dtm_losses.get(&4), Some(&2));
    assert_eq!(t.signed.get(&1), None);
}

#[test]
fn empty_tally_is_zero() {
    let t = TableTally::new();
    assert_eq!(t.records(), 0);
    assert_eq!(t.max_abs_dtm(), 0);
    assert_eq!(t.decided_dtm_sum(), 0);
}

#[test]
fn value_counts_of_a_table() {
    let c = value_counts(&[1, -4, 0, 2, -1, 0, 0]);
    assert_eq!((c.wins, c.losses, c.draws, c.max_dtm), (2, 2, 3, 4));
    let c = value_counts(&[]);
    assert_eq!((c.wins, c.losses, c.draws, c.max_dtm), (0, 0, 0, 0));
}

#[test]
fn json_strings_escape_backslash_and_quote() {
    assert_eq!(json_string(r#"a"b\c"#), r#"a\"b\\c"#);
    assert_eq!(json_string("plain"), "plain");
    assert_eq!(json_string(""), "");
    assert_eq!(json_string_value(r#"x"y"#), r#""x\"y""#);
    assert_eq!(json_string_value(r#"\""#), r#""\\\"""#);
}

#[test]
fn optional_counts_print_as_digits_or_a_word() {
    assert_eq!(opt_u64(Some(0)), "0");
    assert_eq!(opt_u64(Some(1234567890)), "1234567890");
    assert_eq!(opt_u64(None), "skipped");
    assert_eq!(opt_json_u64(Some(u64::MAX)), u64::MAX.to_string());
    assert_eq!(opt_json_u64(None), "null");
    assert_eq!(decimal(10), "10");
    assert_eq!(decimal(9), "9");
}
