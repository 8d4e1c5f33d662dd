//! Deterministic fixed-point numbers for the simulation: 16 fractional bits
//! in a signed 64-bit integer, so that every machine computes the same
//! results.

use vstd::prelude::*;
use vstd::string::StringSliceAdditionalSpecFns;

verus! {

/// Raw value of 1.0.
pub const ONE_RAW: i64 = 65536;

/// A fixed-point number: `raw / 65536`.
#[derive(Debug, Clone, Copy, PartialEq, Eq, Structural)]
pub struct SimFixed {
    pub raw: i64,
}

/// Whether a byte is an ASCII decimal digit.
pub open spec fn is_digit_byte(b: u8) -> bool {
    48 <= b <= 57
}

/// The number written by a sequence of decimal digits.
pub open spec fn digits_value(s: Seq<u8>) -> nat
    decreases s.len(),
{
    if s.len() == 0 {
        0
    } else {
        digits_value(s.drop_last()) * 10 + (s.last() - 48) as nat
    }
}

/// 10 to the power `n`.
pub open spec fn pow10(n: nat) -> nat
    decreases n,
{
    if n == 0 {
        1
    } else {
        10 * pow10((n - 1) as nat)
    }
}

/// `s` is a decimal literal whose dot stands at `d` (`d == s.len()` when
/// there is no dot): 1 to 4 integer digits, then optionally a dot and 1 to
/// 4 fraction digits.
pub open spec fn lit_form(s: Seq<u8>, d: int) -> bool {
    &&& 1 <= d <= 4
    &&& d <= s.len() <= d + 5
    &&& d != s.len() - 1
    &&& forall|i: int| 0 <= i < s.len() && i != d ==> is_digit_byte(#[trigger] s[i])
    &&& d < s.len() ==> s[d] == 46
}

/// The digits of a literal without its dot.
pub open spec fn lit_digits(s: Seq<u8>, d: int) -> Seq<u8> {
    if d >= s.len() {
        s
    } else {
        s.take(d) + s.skip(d + 1)
    }
}

/// Number of fraction digits of a literal.
pub open spec fn lit_frac_len(s: Seq<u8>, d: int) -> nat {
    if d >= s.len() {
        0
    } else {
        (s.len() - d - 1) as nat
    }
}

/// Raw value of a literal: the decimal value times 65536, rounded to the
/// nearest integer (halves round up).
pub open spec fn lit_raw(s: Seq<u8>, d: int) -> int {
    let p = pow10(lit_frac_len(s, d));
    ((digits_value(lit_digits(s, d)) * 65536 + p / 2) / p) as int
}

proof fn lemma_digits_value_bound(s: Seq<u8>)
    requires
        forall|i: int| 0 <= i < s.len() ==> is_digit_byte(#[trigger] s[i]),
    ensures
        digits_value(s) < pow10(s.len()),
    decreases s.len(),
{
    if s.len() > 0 {
        assert forall|i: int| 0 <= i < s.drop_last().len() implies is_digit_byte(#[trigger] s.drop_last()[i]) by {
            assert(s.drop_last()[i] == s[i]);
        }
        lemma_digits_value_bound(s.drop_last());
        assert(is_digit_byte(s[s.len() - 1]));
    }
}

proof fn lemma_pow10_small(n: nat)
    requires
        n <= 8,
    ensures
        1 <= pow10(n) <= 100000000,
    decreases 8 - n,
{
    if n < 8 {
        lemma_pow10_small((n + 1) as nat);
        assert(pow10((n + 1) as nat) == 10 * pow10(n));
    } else {
        reveal_with_fuel(pow10, 9);
        assert(pow10(8) == 100000000);
    }
}

impl SimFixed {
    /// 1.0
    pub fn one() -> (r: SimFixed)
        ensures
            r.raw == ONE_RAW,
    {
        SimFixed { raw: ONE_RAW }
    }

    /// 0.5
    pub fn half() -> (r: SimFixed)
        ensures
            r.raw == ONE_RAW / 2,
    {
        SimFixed { raw: ONE_RAW / 2 }
    }

    /// The fixed-point value of an integer.
    pub fn from_int(v: i32) -> (r: SimFixed)
        ensures
            r.raw == v as int * 65536,
    {
        SimFixed { raw: v as i64 * 65536 }
    }

    /// The raw representation.
    pub fn to_raw(self) -> (r: i64)
        ensures
            r == self.raw,
    {
        self.raw
    }

    /// Restrict to `[lo, hi]`.
    pub fn clamp(self, lo: SimFixed, hi: SimFixed) -> (r: SimFixed)
        requires
            lo.raw <= hi.raw,
        ensures
            r.raw == if self.raw < lo.raw {
                lo.raw as int
            } else if self.raw > hi.raw {
                hi.raw as int
            } else {
                self.raw as int
            },
    {
        if self.raw < lo.raw {
            lo
        } else if self.raw > hi.raw {
            hi
        } else {
            self
        }
    }

    /// Parse a decimal literal such as `"0.75"` or `"2"`: up to 4 integer
    /// digits and up to 4 fraction digits, rounded to the nearest
    /// representable value.
    pub fn lit(s: &str) -> (r: SimFixed)
        requires
            exists|d: int| lit_form(s.spec_bytes(), d),
        ensures
            forall|d: int| lit_form(s.spec_bytes(), d) ==> r.raw == lit_raw(s.spec_bytes(), d),
    {
        let b = s.as_bytes();
        let ghost sb = b@;
        let ghost d = choose|d: int| lit_form(sb, d);
        let n = b.len();
        let mut value: u64 = 0;
        let mut frac: u32 = 0;
        let mut seen_dot = false;
        let mut i: usize = 0;
        while i < n
            invariant
                sb == b@,
                n == sb.len(),
                lit_form(sb, d),
                i <= n,
                seen_dot == (d < i),
                value == digits_value(lit_digits(sb.take(i as int), d)),
                lit_digits(sb.take(i as int), d).len() <= 8,
                forall|j: int| 0 <= j < lit_digits(sb.take(i as int), d).len() ==> is_digit_byte(
                    #[trigger] lit_digits(sb.take(i as int), d)[j],
                ),
                frac == lit_frac_len(sb.take(i as int), d),
            decreases n - i,
        {
            let ghost prev = lit_digits(sb.take(i as int), d);
            let c = b[i];
            proof {
                assert(sb.take(i + 1).drop_last() =~= sb.take(i as int));
                lemma_digits_value_bound(prev);
                lemma_pow10_small(prev.len());
            }
            if c == 46u8 {
                proof {
                    assert(i as int == d);
                    assert(lit_digits(sb.take(i + 1), d) =~= sb.take(i + 1).take(d));
                    assert(sb.take(i + 1).take(d) =~= sb.take(i as int));
                    assert(lit_digits(sb.take(i as int), d) =~= sb.take(i as int));
                }
                seen_dot = true;
            } else {
                proof {
                    assert(i as int != d);
                    assert(is_digit_byte(sb[i as int]));
                    let next = lit_digits(sb.take(i + 1), d);
                    if d < i {
                        assert(next =~= sb.take(d) + sb.take(i + 1).skip(d + 1));
                        assert(prev =~= sb.take(d) + sb.take(i as int).skip(d + 1));
                    } else {
                        assert(next =~= sb.take(i + 1));
                        assert(prev =~= sb.take(i as int));
                    }
                    assert(next =~= prev.push(c));
                    assert(next.drop_last() =~= prev);
                    assert(value * 10 + (c - 48) < 1000000000) by (nonlinear_arith)
                        requires
                            value < 100000000,
                            48 <= c <= 57,
                    ;
                }
                value = value * 10 + (c - 48) as u64;
                if seen_dot {
                    frac = frac + 1;
                }
            }
            i = i + 1;
        }
        proof {
            assert(sb.take(n as int) =~= sb);
            lemma_digits_value_bound(lit_digits(sb, d));
            lemma_pow10_small(lit_digits(sb, d).len());
            lemma_pow10_small(lit_frac_len(sb, d));
        }
        let mut p: u64 = 1;
        let mut k: u32 = 0;
        while k < frac
            invariant
                k <= frac,
                frac <= 4,
                p == pow10(k as nat),
            decreases frac - k,
        {
            proof {
                lemma_pow10_small(k as nat);
            }
            p = p * 10;
            k = k + 1;
        }
        proof {
            assert(value * 65536 <= 100000000 * 65536) by (nonlinear_arith)
                requires
                    value < 100000000,
            ;
            assert forall|d2: int| lit_form(sb, d2) implies d2 == d by {
                if d2 < d {
                    assert(sb[d2] == 46);
                    assert(is_digit_byte(sb[d2]));
                } else if d < d2 {
                    assert(sb[d] == 46);
                    assert(is_digit_byte(sb[d]));
                }
            }
        }
        let raw = (value * 65536 + p / 2) / p;
        SimFixed { raw: raw as i64 }
    }
}

} // verus!
