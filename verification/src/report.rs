//! Text fields of run reports: JSON string bodies and optional counts.
use crate::notation::{chars_of, push_char};
use vstd::prelude::*;

verus! {

/// One char as it stands inside a JSON string: backslash and double quote get
/// a backslash in front.
pub open spec fn escape_char(c: char) -> Seq<char> {
    if c == '\\' {
        seq!['\\', '\\']
    } else if c == '"' {
        seq!['\\', '"']
    } else {
        seq![c]
    }
}

pub open spec fn json_escape_spec(s: Seq<char>) -> Seq<char>
    decreases s.len(),
{
    if s.len() == 0 {
        Seq::empty()
    } else {
        json_escape_spec(s.drop_last()) + escape_char(s.last())
    }
}

/// The decimal digit of `d < 10`.
pub open spec fn digit_char(d: nat) -> char {
    (48 + d) as char
}

/// The decimal spelling of `v`, without leading zeros.
pub open spec fn decimal_spec(v: nat) -> Seq<char>
    decreases v,
{
    if v < 10 {
        seq![digit_char(v)]
    } else {
        decimal_spec(v / 10).push(digit_char(v % 10))
    }
}

/// Escape backslashes and double quotes for a JSON string body.
pub fn json_string(value: &str) -> (r: String)
    ensures
        r@ == json_escape_spec(value@),
{
    let cs = chars_of(value);
    let mut r = String::new();
    let mut i: usize = 0;
    while i < cs.len()
        invariant
            i <= cs@.len(),
            cs@ == value@,
            r@ == json_escape_spec(cs@.take(i as int)),
        decreases cs@.len() - i,
    {
        let c = cs[i];
        if c == '\\' {
            push_char(&mut r, '\\');
            push_char(&mut r, '\\');
        } else if c == '"' {
            push_char(&mut r, '\\');
            push_char(&mut r, '"');
        } else {
            push_char(&mut r, c);
        }
        assert(cs@.take(i + 1).drop_last() =~= cs@.take(i as int));
        assert(r@ =~= json_escape_spec(cs@.take(i + 1)));
        i += 1;
    }
    assert(cs@.take(cs@.len() as int) =~= cs@);
    r
}

/// A JSON string: the escaped body between double quotes.
pub fn json_string_value(value: &str) -> (r: String)
    ensures
        r@ == seq!['"'] + json_escape_spec(value@) + seq!['"'],
{
    let body = json_string(value);
    let mut r = String::new();
    push_char(&mut r, '"');
    r.append(body.as_str());
    push_char(&mut r, '"');
    assert(r@ =~= seq!['"'] + json_escape_spec(value@) + seq!['"']);
    r
}

fn push_decimal(s: &mut String, v: u64)
    ensures
        final(s)@ == old(s)@ + decimal_spec(v as nat),
    decreases v,
{
    if v >= 10 {
        push_decimal(s, v / 10);
    }
    let d: u8 = (v % 10) as u8;
    let c = (48 + d) as char;
    push_char(s, c);
    assert(c == digit_char((v % 10) as nat));
    if v >= 10 {
        assert(decimal_spec(v as nat) == decimal_spec((v / 10) as nat).push(digit_char((v % 10) as nat)));
    }
}

/// The decimal spelling of `v`.
pub fn decimal(v: u64) -> (r: String)
    ensures
        r@ == decimal_spec(v as nat),
{
    let mut s = String::new();
    push_decimal(&mut s, v);
    assert(s@ =~= decimal_spec(v as nat));
    s
}

/// A count for the text report: its digits, or `skipped`.
pub fn opt_u64(value: Option<u64>) -> (r: String)
    ensures
        r@ == match value {
            Some(v) => decimal_spec(v as nat),
            None => "skipped"@,
        },
{
    match value {
        Some(v) => decimal(v),
        None => "skipped".to_owned(),
    }
}

/// A count for the JSON report: its digits, or `null`.
pub fn opt_json_u64(value: Option<u64>) -> (r: String)
    ensures
        r@ == match value {
            Some(v) => decimal_spec(v as nat),
            None => "null"@,
        },
{
    match value {
        Some(v) => decimal(v),
        None => "null".to_owned(),
    }
}

} // verus!
