//! Decimal rendering of counters for reports.

use vstd::prelude::*;

verus! {

/// The ASCII digit for `d` (0–9).
pub open spec fn spec_digit_char(d: int) -> char {
    ((48 + d) as u8) as char
}

/// The decimal digits of `v`, most significant first.
pub open spec fn spec_decimal(v: int) -> Seq<char>
    decreases v,
{
    if v < 10 {
        seq![spec_digit_char(v)]
    } else {
        spec_decimal(v / 10) + seq![spec_digit_char(v % 10)]
    }
}

/// Relies on `String::from_utf8_lossy`: bytes below 128 decode to the
/// ASCII string with exactly those characters.
#[verifier::external_body]
pub fn ascii_bytes_to_string(v: &Vec<u8>) -> (r: String)
    ensures
        (forall|i: int| 0 <= i < v@.len() ==> v@[i] < 128) ==> r@ == v@.map_values(
            |b: u8| b as char,
        ),
{
    String::from_utf8_lossy(v.as_slice()).into_owned()
}

/// The ASCII bytes of `v` in decimal.
fn decimal_bytes(v: u64) -> (r: Vec<u8>)
    ensures
        r@.map_values(|b: u8| b as char) == spec_decimal(v as int),
        forall|i: int| 0 <= i < r@.len() ==> 48 <= #[trigger] r@[i] < 58,
    decreases v,
{
    if v < 10 {
        let mut out: Vec<u8> = Vec::new();
        out.push((v as u8) + 48);
        proof {
            assert(out@.map_values(|b: u8| b as char) =~= seq![spec_digit_char(v as int)]);
        }
        out
    } else {
        let mut out = decimal_bytes(v / 10);
        out.push((v % 10) as u8 + 48);
        proof {
            assert(out@.map_values(|b: u8| b as char) =~= spec_decimal((v / 10) as int) + seq![
                spec_digit_char((v % 10) as int),
            ]);
        }
        out
    }
}

/// Render `v` in decimal.
pub fn fmt_u64(v: u64) -> (r: String)
    ensures
        r@ == spec_decimal(v as int),
{
    let bytes = decimal_bytes(v);
    let s = ascii_bytes_to_string(&bytes);
    proof {
        assert(s@ == bytes@.map_values(|b: u8| b as char));
    }
    s
}

} // verus!
