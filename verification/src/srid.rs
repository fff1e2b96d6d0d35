//! The `PostGIS` spatial-reference identifier.
//!
//! A spatial-reference id names the coordinate reference system a
//! geometry's ordinates are expressed in. `PostGIS` keeps an SRID in
//! `0..=999999` and rewrites anything outside that range on ingest; this
//! type carries whatever code it is given, unchanged.

use vstd::prelude::*;

verus! {

/// A `PostGIS` spatial-reference identifier: the code naming the
/// coordinate reference system a geometry's ordinates are expressed in.
///
/// The storage is `u32`. The value is carried unchanged and never
/// rewritten, so a code outside `0..=999999` round-trips faithfully.
#[derive(Debug, Clone, Copy, PartialEq, Eq, Hash, Structural)]
pub struct Srid(u32);

impl Srid {
    /// SRID 0, which `PostGIS` treats as "unknown". It is an ordinary value
    /// here, distinct from "no SRID at all".
    pub fn unknown() -> (s: Srid)
        ensures
            s.code() == 0,
    {
        Srid(0)
    }

    /// The wrapped code, as a specification value.
    pub closed spec fn code(self) -> u32 {
        self.0
    }

    /// Two identifiers are the same exactly when their codes are: the
    /// code is all an identifier holds, so `Srid::new(0)` is
    /// `Srid::unknown()`.
    pub proof fn lemma_code_determines(a: Srid, b: Srid)
        ensures
            (a.code() == b.code()) == (a == b),
    {
    }

    /// Wrap a spatial-reference code.
    pub fn new(code: u32) -> (s: Srid)
        ensures
            s.code() == code,
    {
        Srid(code)
    }

    /// The wrapped spatial-reference code.
    pub fn get(self) -> (code: u32)
        ensures
            code == self.code(),
    {
        self.0
    }

    /// The bare decimal rendering of the code, with no prefix or
    /// punctuation.
    pub fn to_decimal_string(&self) -> (s: String)
        ensures
            s@ == decimal_chars(self.code() as nat),
    {
        let digits = decimal_digits(self.0);
        proof {
            lemma_decimal_bytes_chars(self.0 as nat);
        }
        ascii_string(digits)
    }
}

/// The ASCII digit character for `d < 10`.
pub open spec fn digit_char(d: nat) -> char
    recommends
        d < 10,
{
    ((48 + d) as u8) as char
}

/// The decimal representation of `n`: most significant digit first, no
/// leading zeros, and `"0"` for zero.
pub open spec fn decimal_chars(n: nat) -> Seq<char>
    decreases n,
{
    if n < 10 {
        seq![digit_char(n)]
    } else {
        decimal_chars(n / 10).push(digit_char(n % 10))
    }
}

/// The ASCII bytes of the decimal representation of `n`.
pub open spec fn decimal_bytes(n: nat) -> Seq<u8>
    decreases n,
{
    if n < 10 {
        seq![(48 + n) as u8]
    } else {
        decimal_bytes(n / 10).push((48 + n % 10) as u8)
    }
}

proof fn lemma_decimal_bytes_chars(n: nat)
    ensures
        decimal_bytes(n).map_values(|b: u8| b as char) =~= decimal_chars(n),
        forall|i: int| 0 <= i < decimal_bytes(n).len() ==> 48 <= #[trigger] decimal_bytes(n)[i] < 58,
    decreases n,
{
    if n >= 10 {
        lemma_decimal_bytes_chars(n / 10);
        let prev = decimal_bytes(n / 10);
        assert(decimal_bytes(n) == prev.push((48 + n % 10) as u8));
        assert forall|i: int| 0 <= i < decimal_bytes(n).len() implies 48
            <= #[trigger] decimal_bytes(n)[i] < 58 by {
            if i < prev.len() {
                assert(decimal_bytes(n)[i] == prev[i]);
            }
        }
    }
}

/// The decimal digits of `n` as ASCII bytes.
fn decimal_digits(n: u32) -> (v: Vec<u8>)
    ensures
        v@ == decimal_bytes(n as nat),
{
    // Collect least significant digit first, then reverse.
    let mut rev: Vec<u8> = Vec::new();
    let mut m: u32 = n;
    loop
        invariant_except_break
            decimal_bytes(n as nat) == decimal_bytes(m as nat) + rev@.reverse(),
        ensures
            decimal_bytes(n as nat) == rev@.reverse(),
        decreases m,
    {
        let d = (m % 10) as u8;
        rev.push(48 + d);
        if m < 10 {
            proof {
                assert(decimal_bytes(m as nat) =~= seq![(48 + m) as u8]);
                assert(rev@.reverse() =~= seq![(48 + m) as u8] + rev@.drop_last().reverse());
            }
            break;
        }
        proof {
            assert(decimal_bytes(m as nat) == decimal_bytes((m / 10) as nat).push(
                (48 + m % 10) as u8,
            ));
            assert(rev@.reverse() =~= seq![(48 + m % 10) as u8] + rev@.drop_last().reverse());
            assert(decimal_bytes(m as nat) + rev@.drop_last().reverse() =~= decimal_bytes(
                (m / 10) as nat,
            ) + rev@.reverse());
        }
        m = m / 10;
    }
    let mut out: Vec<u8> = Vec::new();
    let mut i = rev.len();
    while i > 0
        invariant
            i <= rev@.len(),
            out@ =~= rev@.subrange(i as int, rev@.len() as int).reverse(),
        decreases i,
    {
        i = i - 1;
        out.push(rev[i]);
        proof {
            assert(rev@.subrange(i as int, rev@.len() as int).reverse() =~= rev@.subrange(
                i + 1,
                rev@.len() as int,
            ).reverse().push(rev@[i as int]));
        }
    }
    proof {
        assert(rev@.subrange(0, rev@.len() as int) =~= rev@);
    }
    assert(out@ =~= decimal_bytes(n as nat));
    out
}

/// Turn ASCII bytes into a `String` through `String::from_utf8`, whose
/// documentation promises that valid UTF-8 (every ASCII sequence is)
/// converts to the string of those characters. Claimed: the result holds
/// exactly the characters of the bytes.
#[verifier::external_body]
fn ascii_string(bytes: Vec<u8>) -> (s: String)
    requires
        forall|i: int| 0 <= i < bytes@.len() ==> #[trigger] bytes@[i] < 128,
    ensures
        s@ == bytes@.map_values(|b: u8| b as char),
{
    match String::from_utf8(bytes) {
        Ok(s) => s,
        Err(_) => String::new(),
    }
}

} // verus!
