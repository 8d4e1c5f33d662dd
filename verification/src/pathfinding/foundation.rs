//! Building foundation strings such as `"2x2"` or `"4x2"`.

use vstd::prelude::*;
use vstd::string::StringSliceAdditionalSpecFns;

verus! {

/// Whether every byte is an ASCII digit.
pub open spec fn all_digits(s: Seq<u8>) -> bool {
    forall|i: int| 0 <= i < s.len() ==> 48 <= #[trigger] s[i] <= 57
}

/// Decimal value of a digit string.
pub open spec fn digits_value(s: Seq<u8>) -> int
    decreases s.len(),
{
    if s.len() == 0 {
        0
    } else {
        digits_value(s.drop_last()) * 10 + (s.last() - 48)
    }
}

/// Unsigned 16-bit decimal parse: an optional leading `+`, then at least one
/// digit and nothing else, with a value that fits in 16 bits.
pub open spec fn spec_parse_u16(s: Seq<u8>) -> Option<u16> {
    let d = if s.len() > 0 && s[0] == 43 {
        s.skip(1)
    } else {
        s
    };
    if d.len() > 0 && all_digits(d) && digits_value(d) <= 65535 {
        Some(digits_value(d) as u16)
    } else {
        None
    }
}

/// Number of `x` bytes in `s`.
pub open spec fn count_x(s: Seq<u8>) -> nat
    decreases s.len(),
{
    if s.len() == 0 {
        0
    } else {
        count_x(s.drop_last()) + if s.last() == 120 {
            1nat
        } else {
            0nat
        }
    }
}

/// `v` raised to at least 1.
pub open spec fn at_least_one(v: u16) -> u16 {
    if v == 0 {
        1
    } else {
        v
    }
}

/// Foundation size of a byte string: with exactly one `x` separating two
/// parts, each part parsed as a 16-bit number (1 when it does not parse) and
/// raised to at least 1; otherwise `(1, 1)`.
pub open spec fn spec_parse_foundation(s: Seq<u8>) -> (u16, u16) {
    if count_x(s) == 1 {
        let i = choose|i: int| 0 <= i < s.len() && s[i] == 120;
        let w = match spec_parse_u16(s.take(i)) {
            Some(v) => v,
            None => 1,
        };
        let h = match spec_parse_u16(s.skip(i + 1)) {
            Some(v) => v,
            None => 1,
        };
        (at_least_one(w), at_least_one(h))
    } else {
        (1, 1)
    }
}

proof fn lemma_digits_value_push(s: Seq<u8>, b: u8)
    ensures
        digits_value(s.push(b)) == digits_value(s) * 10 + (b - 48),
{
    assert(s.push(b).drop_last() =~= s);
}

proof fn lemma_digits_value_nonneg(s: Seq<u8>)
    requires
        all_digits(s),
    ensures
        digits_value(s) >= 0,
    decreases s.len(),
{
    if s.len() > 0 {
        lemma_digits_value_nonneg(s.drop_last());
    }
}

proof fn lemma_digits_value_grows(s: Seq<u8>, t: Seq<u8>)
    requires
        all_digits(s),
        all_digits(t),
        s.len() >= 1,
    ensures
        digits_value(s + t) >= digits_value(s),
    decreases t.len(),
{
    if t.len() > 0 {
        let u = s + t;
        assert(u.drop_last() =~= s + t.drop_last());
        lemma_digits_value_grows(s, t.drop_last());
        lemma_digits_value_nonneg(s);
    } else {
        assert(s + t =~= s);
    }
}

/// Parse bytes `s[start..end]` as an unsigned 16-bit decimal.
fn parse_u16_range(s: &[u8], start: usize, end: usize) -> (r: Option<u16>)
    requires
        start <= end <= s@.len(),
    ensures
        r == spec_parse_u16(s@.subrange(start as int, end as int)),
{
    let ghost full = s@.subrange(start as int, end as int);
    let mut i = start;
    if i < end && s[i] == 43u8 {
        i = i + 1;
    }
    let ghost d = s@.subrange(i as int, end as int);
    proof {
        if start < end && s@[start as int] == 43 {
            assert(d =~= full.skip(1));
        } else {
            assert(d =~= full);
        }
    }
    if i == end {
        return None;
    }
    let begin = i;
    let mut value: u32 = 0;
    while i < end
        invariant
            begin <= i <= end <= s@.len(),
            begin < end,
            d == s@.subrange(begin as int, end as int),
            full == s@.subrange(start as int, end as int),
            d == (if full.len() > 0 && full[0] == 43 {
                full.skip(1)
            } else {
                full
            }),
            all_digits(s@.subrange(begin as int, i as int)),
            value == digits_value(s@.subrange(begin as int, i as int)),
            value <= 65535,
        decreases end - i,
    {
        let b = s[i];
        if b < 48u8 || b > 57u8 {
            proof {
                assert(d[i - begin] == b);
                assert(!all_digits(d));
            }
            return None;
        }
        proof {
            assert(s@.subrange(begin as int, i + 1) =~= s@.subrange(begin as int, i as int).push(b));
            lemma_digits_value_push(s@.subrange(begin as int, i as int), b);
        }
        value = value * 10 + (b - 48u8) as u32;
        i = i + 1;
        if value > 65535 {
            proof {
                if all_digits(d) {
                    let pre = s@.subrange(begin as int, i as int);
                    let post = s@.subrange(i as int, end as int);
                    assert(d =~= pre + post);
                    assert(all_digits(post)) by {
                        assert forall|j: int| 0 <= j < post.len() implies 48 <= #[trigger] post[j] <= 57 by {
                            assert(post[j] == d[j + (i - begin)]);
                        }
                    }
                    lemma_digits_value_grows(pre, post);
                }
            }
            return None;
        }
    }
    proof {
        assert(s@.subrange(begin as int, end as int) =~= d);
    }
    Some(value as u16)
}

/// Parse a foundation string like `"2x2"` into `(width, height)`; malformed
/// or missing input gives `(1, 1)`, and each side is at least 1.
pub fn parse_foundation(foundation: &str) -> (r: (u16, u16))
    ensures
        r == spec_parse_foundation(foundation.spec_bytes()),
{
    let bytes = foundation.as_bytes();
    let n = bytes.len();
    let mut count: usize = 0;
    let mut pos: usize = 0;
    let mut i: usize = 0;
    while i < n
        invariant
            n == bytes@.len(),
            bytes@ == foundation.spec_bytes(),
            i <= n,
            count == count_x(bytes@.take(i as int)),
            count <= i,
            count >= 1 ==> pos < i && bytes@[pos as int] == 120,
            count == 1 ==> forall|j: int| 0 <= j < i && bytes@[j] == 120 ==> j == pos,
            count == 0 ==> forall|j: int| 0 <= j < i ==> bytes@[j] != 120,
        decreases n - i,
    {
        proof {
            assert(bytes@.take(i + 1).drop_last() =~= bytes@.take(i as int));
        }
        if bytes[i] == 120u8 {
            if count == 0 {
                pos = i;
            }
            count = count + 1;
        }
        i = i + 1;
    }
    proof {
        assert(bytes@.take(n as int) =~= bytes@);
    }
    if count != 1 {
        return (1, 1);
    }
    let w = match parse_u16_range(bytes, 0, pos) {
        Some(v) => v,
        None => 1,
    };
    let h = match parse_u16_range(bytes, pos + 1, n) {
        Some(v) => v,
        None => 1,
    };
    proof {
        let s = bytes@;
        let k = choose|k: int| 0 <= k < s.len() && s[k] == 120;
        assert(k == pos);
        assert(s.subrange(0, pos as int) =~= s.take(pos as int));
        assert(s.subrange(pos + 1, n as int) =~= s.skip(pos + 1));
    }
    let w1 = if w == 0 {
        1
    } else {
        w
    };
    let h1 = if h == 0 {
        1
    } else {
        h
    };
    (w1, h1)
}

/// Index of the first `x` in `s` at or after `from`, or `s.len()` when there
/// is none.
pub open spec fn next_x(s: Seq<u8>, from: int) -> int
    decreases s.len() - from,
{
    if from < 0 || from >= s.len() {
        s.len() as int
    } else if s[from] == 120 {
        from
    } else {
        next_x(s, from + 1)
    }
}

/// Byte length of the whitespace character that `s` starts with, or 0.
/// Whitespace is what Unicode calls white space, matched on its UTF-8
/// encoding: tab to carriage return, space, U+0085, U+00A0, U+1680,
/// U+2000 to U+200A, U+2028, U+2029, U+202F, U+205F and U+3000.
pub open spec fn lead_ws_len(s: Seq<u8>) -> int {
    if s.len() >= 1 && ((9 <= s[0] <= 13) || s[0] == 32) {
        1
    } else if s.len() >= 2 && s[0] == 0xc2 && (s[1] == 0x85 || s[1] == 0xa0) {
        2
    } else if s.len() >= 3 && s[0] == 0xe1 && s[1] == 0x9a && s[2] == 0x80 {
        3
    } else if s.len() >= 3 && s[0] == 0xe2 && s[1] == 0x80 && ((0x80 <= s[2] <= 0x8a) || s[2]
        == 0xa8 || s[2] == 0xa9 || s[2] == 0xaf) {
        3
    } else if s.len() >= 3 && s[0] == 0xe2 && s[1] == 0x81 && s[2] == 0x9f {
        3
    } else if s.len() >= 3 && s[0] == 0xe3 && s[1] == 0x80 && s[2] == 0x80 {
        3
    } else {
        0
    }
}

/// Byte length of the whitespace character that `s` ends with, or 0 (the
/// same characters as `lead_ws_len`).
pub open spec fn trail_ws_len(s: Seq<u8>) -> int {
    let n = s.len() as int;
    if n >= 1 && ((9 <= s[n - 1] <= 13) || s[n - 1] == 32) {
        1
    } else if n >= 2 && s[n - 2] == 0xc2 && (s[n - 1] == 0x85 || s[n - 1] == 0xa0) {
        2
    } else if n >= 3 && s[n - 3] == 0xe1 && s[n - 2] == 0x9a && s[n - 1] == 0x80 {
        3
    } else if n >= 3 && s[n - 3] == 0xe2 && s[n - 2] == 0x80 && ((0x80 <= s[n - 1] <= 0x8a)
        || s[n - 1] == 0xa8 || s[n - 1] == 0xa9 || s[n - 1] == 0xaf) {
        3
    } else if n >= 3 && s[n - 3] == 0xe2 && s[n - 2] == 0x81 && s[n - 1] == 0x9f {
        3
    } else if n >= 3 && s[n - 3] == 0xe3 && s[n - 2] == 0x80 && s[n - 1] == 0x80 {
        3
    } else {
        0
    }
}

/// `s` without its leading whitespace.
pub open spec fn trim_start_bytes(s: Seq<u8>) -> Seq<u8>
    decreases s.len(),
{
    if lead_ws_len(s) > 0 {
        trim_start_bytes(s.skip(lead_ws_len(s)))
    } else {
        s
    }
}

/// `s` without its trailing whitespace.
pub open spec fn trim_end_bytes(s: Seq<u8>) -> Seq<u8>
    decreases s.len(),
{
    if trail_ws_len(s) > 0 {
        trim_end_bytes(s.take(s.len() - trail_ws_len(s)))
    } else {
        s
    }
}

/// `s` without leading and trailing whitespace.
pub open spec fn trim_bytes(s: Seq<u8>) -> Seq<u8> {
    trim_end_bytes(trim_start_bytes(s))
}

/// One side of a foundation: the part parsed as a 16-bit number after
/// trimming whitespace (1 when absent or unparsable), raised to at least 1.
pub open spec fn foundation_side(part: Option<Seq<u8>>) -> u16 {
    let v = match part {
        Some(p) => match spec_parse_u16(trim_bytes(p)) {
            Some(v) => v,
            None => 1,
        },
        None => 1,
    };
    at_least_one(v)
}

/// Foundation size from the first two `x`-separated parts of `s`: the width
/// from the text before the first `x`, the height from the text between the
/// first and the second `x` (1 when there is no `x`); later parts are
/// ignored.
pub open spec fn spec_foundation_dimensions(s: Seq<u8>) -> (u16, u16) {
    let a = next_x(s, 0);
    let height_part = if a < s.len() {
        Some(s.subrange(a + 1, next_x(s, a + 1)))
    } else {
        None
    };
    (foundation_side(Some(s.subrange(0, a))), foundation_side(height_part))
}

proof fn lemma_next_x_bounds(s: Seq<u8>, from: int)
    requires
        0 <= from <= s.len(),
    ensures
        from <= next_x(s, from) <= s.len(),
        next_x(s, from) < s.len() ==> s[next_x(s, from)] == 120,
    decreases s.len() - from,
{
    if from < s.len() && s[from] != 120 {
        lemma_next_x_bounds(s, from + 1);
    }
}

/// Index of the first `x` in `b` at or after `from`.
fn find_x(b: &[u8], from: usize) -> (r: usize)
    requires
        from <= b@.len(),
    ensures
        r == next_x(b@, from as int),
{
    let mut i = from;
    while i < b.len() && b[i] != 120u8
        invariant
            from <= i <= b@.len(),
            next_x(b@, from as int) == next_x(b@, i as int),
        decreases b@.len() - i,
    {
        i = i + 1;
    }
    i
}

/// Byte length of the whitespace character at `b[lo..hi]`'s start.
fn lead_ws_at(b: &[u8], lo: usize, hi: usize) -> (r: usize)
    requires
        lo <= hi <= b@.len(),
    ensures
        r == lead_ws_len(b@.subrange(lo as int, hi as int)),
{
    let ghost s = b@.subrange(lo as int, hi as int);
    let n = hi - lo;
    if n >= 1 && ((b[lo] >= 9 && b[lo] <= 13) || b[lo] == 32) {
        return 1;
    }
    if n >= 2 && b[lo] == 0xc2 && (b[lo + 1] == 0x85 || b[lo + 1] == 0xa0) {
        return 2;
    }
    if n >= 3 {
        let (c0, c1, c2) = (b[lo], b[lo + 1], b[lo + 2]);
        assert(s[0] == c0 && s[1] == c1 && s[2] == c2);
        if c0 == 0xe1 && c1 == 0x9a && c2 == 0x80 {
            return 3;
        }
        if c0 == 0xe2 && c1 == 0x80 && ((c2 >= 0x80 && c2 <= 0x8a) || c2 == 0xa8 || c2 == 0xa9
            || c2 == 0xaf) {
            return 3;
        }
        if c0 == 0xe2 && c1 == 0x81 && c2 == 0x9f {
            return 3;
        }
        if c0 == 0xe3 && c1 == 0x80 && c2 == 0x80 {
            return 3;
        }
    }
    0
}

/// Byte length of the whitespace character at `b[lo..hi]`'s end.
fn trail_ws_at(b: &[u8], lo: usize, hi: usize) -> (r: usize)
    requires
        lo <= hi <= b@.len(),
    ensures
        r == trail_ws_len(b@.subrange(lo as int, hi as int)),
{
    let ghost s = b@.subrange(lo as int, hi as int);
    let n = hi - lo;
    if n >= 1 && ((b[hi - 1] >= 9 && b[hi - 1] <= 13) || b[hi - 1] == 32) {
        return 1;
    }
    if n >= 2 && b[hi - 2] == 0xc2 && (b[hi - 1] == 0x85 || b[hi - 1] == 0xa0) {
        return 2;
    }
    if n >= 3 {
        let (c0, c1, c2) = (b[hi - 3], b[hi - 2], b[hi - 1]);
        assert(s[n - 3] == c0 && s[n - 2] == c1 && s[n - 1] == c2);
        if c0 == 0xe1 && c1 == 0x9a && c2 == 0x80 {
            return 3;
        }
        if c0 == 0xe2 && c1 == 0x80 && ((c2 >= 0x80 && c2 <= 0x8a) || c2 == 0xa8 || c2 == 0xa9
            || c2 == 0xaf) {
            return 3;
        }
        if c0 == 0xe2 && c1 == 0x81 && c2 == 0x9f {
            return 3;
        }
        if c0 == 0xe3 && c1 == 0x80 && c2 == 0x80 {
            return 3;
        }
    }
    0
}

/// Parse `b[lo..hi]` as a 16-bit number after trimming whitespace.
fn parse_trimmed_u16(b: &[u8], lo: usize, hi: usize) -> (r: Option<u16>)
    requires
        lo <= hi <= b@.len(),
    ensures
        r == spec_parse_u16(trim_bytes(b@.subrange(lo as int, hi as int))),
{
    let ghost whole = b@.subrange(lo as int, hi as int);
    let mut a = lo;
    loop
        invariant
            lo <= a <= hi <= b@.len(),
            trim_start_bytes(whole) == trim_start_bytes(b@.subrange(a as int, hi as int)),
        ensures
            lo <= a <= hi,
            trim_start_bytes(whole) == b@.subrange(a as int, hi as int),
        decreases hi - a,
    {
        let k = lead_ws_at(b, a, hi);
        if k == 0 {
            break;
        }
        proof {
            let t = b@.subrange(a as int, hi as int);
            assert(t.skip(k as int) =~= b@.subrange(a + k, hi as int));
        }
        a = a + k;
    }
    let ghost started = b@.subrange(a as int, hi as int);
    assert(trim_start_bytes(whole) == started);
    let mut z = hi;
    loop
        invariant
            a <= z <= hi <= b@.len(),
            trim_end_bytes(started) == trim_end_bytes(b@.subrange(a as int, z as int)),
        ensures
            a <= z <= hi,
            trim_end_bytes(started) == b@.subrange(a as int, z as int),
        decreases z - a,
    {
        let k = trail_ws_at(b, a, z);
        if k == 0 {
            break;
        }
        proof {
            let t = b@.subrange(a as int, z as int);
            assert(t.take(t.len() - k) =~= b@.subrange(a as int, z - k));
        }
        z = z - k;
    }
    parse_u16_range(b, a, z)
}

/// Width and height of a foundation such as `"2x2"` or `" 3 x 2 "`: the
/// text before the first `x` and the text between the first and the second
/// `x`, each trimmed of whitespace and parsed as a 16-bit number, with 1
/// for a side that is missing, does not parse or is zero.
pub fn foundation_dimensions(foundation: &str) -> (r: (u16, u16))
    ensures
        r == spec_foundation_dimensions(foundation.spec_bytes()),
{
    let b = foundation.as_bytes();
    let ghost s = b@;
    let n = b.len();
    let a = find_x(b, 0);
    proof {
        lemma_next_x_bounds(s, 0);
    }
    let w = match parse_trimmed_u16(b, 0, a) {
        Some(v) => v,
        None => 1,
    };
    let h = if a < n {
        proof {
            lemma_next_x_bounds(s, a + 1);
        }
        let e = find_x(b, a + 1);
        match parse_trimmed_u16(b, a + 1, e) {
            Some(v) => v,
            None => 1,
        }
    } else {
        1
    };
    let w1 = if w == 0 {
        1
    } else {
        w
    };
    let h1 = if h == 0 {
        1
    } else {
        h
    };
    (w1, h1)
}

} // verus!
