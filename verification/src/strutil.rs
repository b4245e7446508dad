//! Strings as UTF-8 bytes, and decimal rendering of integers.

use vstd::prelude::*;
use vstd::string::StrSliceExecFns;
use vstd::utf8::{encode_utf8, valid_utf8};

verus! {

/// The UTF-8 bytes of a string, tied to vstd's `encode_utf8` model.
pub fn str_utf8_bytes(s: &str) -> (r: Vec<u8>)
    ensures
        r@ == encode_utf8(s@),
{
    s.as_bytes_vec()
}

/// Relies on `core::str::from_utf8`: it accepts exactly the valid UTF-8
/// byte sequences, and the accepted string consists of those very bytes.
#[verifier::external_body]
pub fn utf8_to_string(v: &[u8]) -> (r: Option<String>)
    ensures
        match r {
            Some(s) => encode_utf8(s@) == v@,
            None => !valid_utf8(v@),
        },
{
    match core::str::from_utf8(v) {
        Ok(s) => Some(s.to_string()),
        Err(_) => None,
    }
}

/// The ASCII decimal digits of a non-negative integer, most significant
/// first, without leading zeros.
pub open spec fn dec_digits(n: int) -> Seq<u8>
    recommends
        0 <= n,
    decreases n,
{
    if n < 10 {
        seq![(48 + n) as u8]
    } else {
        dec_digits(n / 10) + seq![(48 + n % 10) as u8]
    }
}

/// Renders `n` in ASCII decimal.
pub fn u64_to_dec(n: u64) -> (r: Vec<u8>)
    ensures
        r@ == dec_digits(n as int),
    decreases n,
{
    if n < 10 {
        let mut v: Vec<u8> = Vec::new();
        v.push(48 + n as u8);
        assert(v@ =~= dec_digits(n as int));
        v
    } else {
        let mut v = u64_to_dec(n / 10);
        v.push(48 + (n % 10) as u8);
        assert(v@ =~= dec_digits(n as int));
        v
    }
}

/// A three-digit decimal in `[100, 599]` renders as exactly three digits.
pub proof fn lemma_dec_digits_status(n: int)
    requires
        100 <= n <= 599,
    ensures
        dec_digits(n) =~= seq![(48 + n / 100) as u8, (48 + (n / 10) % 10) as u8, (48 + n % 10) as u8],
{
    assert(n / 10 / 10 == n / 100) by (nonlinear_arith)
        requires
            100 <= n <= 599,
    ;
    assert(10 <= n / 10 <= 59) by (nonlinear_arith)
        requires
            100 <= n <= 599,
    ;
    assert(1 <= n / 100 <= 5) by (nonlinear_arith)
        requires
            100 <= n <= 599,
    ;
    assert(dec_digits(n / 10) =~= dec_digits(n / 10 / 10) + seq![(48 + (n / 10) % 10) as u8]);
}

} // verus!
