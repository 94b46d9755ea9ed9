use vstd::prelude::*;

verus! {

/// An exact decimal value, `mantissa / 10^scale`, as written in a source
/// literal such as `-0.25` or `36`.
#[derive(Clone, Copy, Debug, PartialEq, Eq, Structural)]
pub struct Number {
    pub mantissa: i64,
    pub scale: u32,
}

/// `10^e` over the integers.
pub open spec fn pow10(e: nat) -> int
    decreases e,
{
    if e == 0 {
        1
    } else {
        10 * pow10((e - 1) as nat)
    }
}

impl Number {
    /// The integer `n`.
    pub fn from_int(n: i64) -> (r: Number)
        ensures
            r.mantissa == n,
            r.scale == 0,
    {
        Number { mantissa: n, scale: 0 }
    }

    /// `0`, the neutral offset.
    pub fn zero() -> (r: Number)
        ensures
            r.mantissa == 0,
            r.scale == 0,
    {
        Number { mantissa: 0, scale: 0 }
    }

    /// `1`, the neutral factor.
    pub fn one() -> (r: Number)
        ensures
            r.mantissa == 1,
            r.scale == 0,
    {
        Number { mantissa: 1, scale: 0 }
    }
}

/// The largest magnitude a mantissa may reach, exclusive.
pub const MANTISSA_LIMIT: u64 = 1_000_000_000_000_000_000;

pub open spec fn digit_value(c: char) -> int {
    (c as int) - ('0' as int)
}

/// The value of a run of decimal digits.
pub open spec fn digits_value(ds: Seq<char>) -> int
    decreases ds.len(),
{
    if ds.len() == 0 {
        0
    } else {
        digits_value(ds.drop_last()) * 10 + digit_value(ds.last())
    }
}

pub open spec fn all_digits(ds: Seq<char>) -> bool {
    forall|i: int| 0 <= i < ds.len() ==> '0' <= #[trigger] ds[i] && ds[i] <= '9'
}

/// The position of the first character of `t` that is no digit, from `p` on.
pub open spec fn first_non_digit(t: Seq<char>, p: int) -> int
    decreases t.len() - p,
{
    if 0 <= p < t.len() && '0' <= t[p] && t[p] <= '9' {
        first_non_digit(t, p + 1)
    } else {
        p
    }
}

/// The digits after the point of `t`, whose integer part ends at `k`.
pub open spec fn fraction_of(t: Seq<char>, k: int) -> Seq<char> {
    if k < t.len() {
        t.subrange(k + 1, t.len() as int)
    } else {
        Seq::empty()
    }
}

/// The value of a numeric literal `[+-]?[0-9]*([.][0-9]*)?`: its digits make
/// the mantissa, those after the point its scale. `None` where the text has
/// another shape, where the scale exceeds `u32::MAX`, where the mantissa reaches `MANTISSA_LIMIT`, or, for an
/// integer literal, where the value does not fit in an `i32`.
pub open spec fn literal_value(t: Seq<char>, integer: bool) -> Option<Number> {
    let neg = t.len() > 0 && t[0] == '-';
    let b: int = if t.len() > 0 && (t[0] == '+' || t[0] == '-') { 1 } else { 0 };
    let k = first_non_digit(t, b);
    let frac = fraction_of(t, k);
    let v = digits_value(t.subrange(b, k) + frac);
    let m = if neg { -v } else { v };
    if (k < t.len() && t[k] != '.') || !all_digits(frac) || frac.len() > u32::MAX {
        None
    } else if v >= MANTISSA_LIMIT || (integer && !(i32::MIN <= m <= i32::MAX)) {
        None
    } else {
        Some(Number { mantissa: m as i64, scale: frac.len() as u32 })
    }
}

proof fn lemma_digits_value_nonneg(ds: Seq<char>)
    requires
        all_digits(ds),
    ensures
        digits_value(ds) >= 0,
    decreases ds.len(),
{
    if ds.len() > 0 {
        assert(all_digits(ds.drop_last()));
        lemma_digits_value_nonneg(ds.drop_last());
    }
}

/// Appending digits never lowers the value.
proof fn lemma_digits_value_grows(a: Seq<char>, b: Seq<char>)
    requires
        all_digits(a),
        all_digits(b),
    ensures
        digits_value(a + b) >= digits_value(a),
    decreases b.len(),
{
    if b.len() == 0 {
        assert(a + b =~= a);
    } else {
        let c = b.last();
        assert((a + b).drop_last() =~= a + b.drop_last());
        assert(all_digits(b.drop_last()));
        lemma_digits_value_grows(a, b.drop_last());
        assert(all_digits(a + b.drop_last()));
        lemma_digits_value_nonneg(a + b.drop_last());
    }
}

proof fn lemma_first_non_digit(t: Seq<char>, p: int)
    requires
        0 <= p <= t.len(),
    ensures
        p <= first_non_digit(t, p) <= t.len(),
        all_digits(t.subrange(p, first_non_digit(t, p))),
        first_non_digit(t, p) < t.len() ==> !('0' <= t[first_non_digit(t, p)] && t[first_non_digit(t, p)] <= '9'),
    decreases t.len() - p,
{
    if p < t.len() && '0' <= t[p] && t[p] <= '9' {
        lemma_first_non_digit(t, p + 1);
        let k = first_non_digit(t, p);
        assert forall|j: int| 0 <= j < k - p implies '0' <= #[trigger] t.subrange(p, k)[j] && t.subrange(p, k)[j] <= '9' by {
            if j > 0 {
                assert(t.subrange(p, k)[j] == t.subrange(p + 1, k)[j - 1]);
            }
        }
    }
}

/// Where the digits read so far already reach the limit, so does the literal.
proof fn lemma_prefix_too_long(head: Seq<char>, rest: Seq<char>)
    requires
        all_digits(head),
        digits_value(head) >= MANTISSA_LIMIT,
        all_digits(rest),
    ensures
        digits_value(head + rest) >= MANTISSA_LIMIT,
{
    lemma_digits_value_grows(head, rest);
}

/// Reads the literal `s[start..end]`.
pub fn parse_literal(s: &Vec<char>, start: usize, end: usize, integer: bool) -> (r: Option<Number>)
    requires
        start <= end <= s@.len(),
    ensures
        r == literal_value(s@.subrange(start as int, end as int), integer),
{
    let ghost t = s@.subrange(start as int, end as int);
    let neg = start < end && s[start] == '-';
    let b = if start < end && (s[start] == '+' || s[start] == '-') { start + 1 } else { start };
    let ghost bi: int = b - start;
    proof {
        if start < end {
            assert(t[0] == s@[start as int]);
        }
        lemma_first_non_digit(t, bi);
    }
    let ghost k = first_non_digit(t, bi);
    // the digits before the point
    let mut v: u64 = 0;
    let mut i = b;
    while i < end && '0' <= s[i] && s[i] <= '9'
        invariant
            start <= b <= i <= end <= s@.len(),
            t == s@.subrange(start as int, end as int),
            bi == (if t.len() > 0 && (t[0] == '+' || t[0] == '-') { 1int } else { 0int }),
            neg == (t.len() > 0 && t[0] == '-'),
            bi == b - start,
            bi <= k <= t.len(),
            k == first_non_digit(t, bi),
            first_non_digit(t, i - start) == k,
            all_digits(t.subrange(bi, k)),
            all_digits(t.subrange(bi, i - start)),
            v == digits_value(t.subrange(bi, i - start)),
            v < MANTISSA_LIMIT,
        decreases end - i,
    {
        let ghost prev = t.subrange(bi, i - start);
        let d = (s[i] as u32 - '0' as u32) as u64;
        v = v * 10 + d;
        i = i + 1;
        proof {
            assert(t.subrange(bi, i - start).drop_last() =~= prev);
            assert(all_digits(t.subrange(bi, i - start)));
        }
        if v >= MANTISSA_LIMIT {
            proof {
                let ii = i - start;
                lemma_first_non_digit(t, ii);
                assert(t.subrange(bi, k) =~= t.subrange(bi, ii) + t.subrange(ii, k));
                let frac = fraction_of(t, k);
                if all_digits(frac) {
                    assert(t.subrange(bi, k) + frac =~= t.subrange(bi, ii) + (t.subrange(ii, k) + frac));
                    lemma_prefix_too_long(t.subrange(bi, ii), t.subrange(ii, k) + frac);
                }
            }
            return None;
        }
    }
    proof {
        if i < end {
            assert(t[i - start] == s@[i as int]);
        }
        assert(i - start == k);
    }
    let mut scale: u32 = 0;
    if i < end {
        if s[i] != '.' {
            return None;
        }
        let ghost head = t.subrange(bi, k);
        i = i + 1;
        while i < end
            invariant
                start <= b <= k + start < i <= end <= s@.len(),
                t == s@.subrange(start as int, end as int),
                bi == (if t.len() > 0 && (t[0] == '+' || t[0] == '-') { 1int } else { 0int }),
                neg == (t.len() > 0 && t[0] == '-'),
                bi <= k,
                k == first_non_digit(t, bi),
                all_digits(head),
                head == t.subrange(bi, k),
                all_digits(t.subrange(k + 1, i - start)),
                v == digits_value(head + t.subrange(k + 1, i - start)),
                v < MANTISSA_LIMIT,
                scale == i - start - k - 1,
            decreases end - i,
        {
            if !('0' <= s[i] && s[i] <= '9') {
                proof {
                    assert(fraction_of(t, k)[i - start - k - 1] == t[i - start]);
                }
                return None;
            }
            if scale == u32::MAX {
                return None;
            }
            let ghost prev = head + t.subrange(k + 1, i - start);
            let d = (s[i] as u32 - '0' as u32) as u64;
            v = v * 10 + d;
            i = i + 1;
            scale = scale + 1;
            proof {
                assert((head + t.subrange(k + 1, i - start)).drop_last() =~= prev);
                assert(all_digits(t.subrange(k + 1, i - start)));
                assert(all_digits(head + t.subrange(k + 1, i - start)));
            }
            if v >= MANTISSA_LIMIT {
                proof {
                    let ii = i - start;
                    let frac = fraction_of(t, k);
                    if all_digits(frac) {
                        assert(frac =~= t.subrange(k + 1, ii) + t.subrange(ii, t.len() as int));
                        assert forall|j: int| 0 <= j < t.len() - ii implies '0' <= #[trigger] t.subrange(ii, t.len() as int)[j]
                            && t.subrange(ii, t.len() as int)[j] <= '9' by {
                            assert(t.subrange(ii, t.len() as int)[j] == frac[j + ii - k - 1]);
                        }
                        assert(head + frac =~= (head + t.subrange(k + 1, ii)) + t.subrange(ii, t.len() as int));
                        lemma_prefix_too_long(head + t.subrange(k + 1, ii), t.subrange(ii, t.len() as int));
                    }
                }
                return None;
            }
        }
        proof {
            assert(t.subrange(k + 1, i - start) =~= fraction_of(t, k));
        }
    } else {
        proof {
            assert(t.subrange(bi, k) + fraction_of(t, k) =~= t.subrange(bi, i - start));
        }
    }
    let m: i64 = if neg { -(v as i64) } else { v as i64 };
    if integer && (m < -2147483648 || m > 2147483647) {
        return None;
    }
    Some(Number { mantissa: m, scale })
}

} // verus!
