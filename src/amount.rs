use vstd::prelude::*;

verus! {

pub const DIGIT_ZERO: u8 = 48;

pub const DIGIT_NINE: u8 = 57;

/// The decimal point.
pub const POINT: u8 = 46;

/// The largest whole part whose amount in ten-thousandths can fit an `i64`.
pub const WHOLE_LIMIT: u64 = 922337203685477;

pub open spec fn is_digit(c: u8) -> bool {
    DIGIT_ZERO <= c <= DIGIT_NINE
}

pub open spec fn all_digits(s: Seq<u8>) -> bool {
    forall|i: int| 0 <= i < s.len() ==> is_digit(#[trigger] s[i])
}

/// The number that a string of decimal digits denotes.
pub open spec fn digits_value(s: Seq<u8>) -> int
    decreases s.len(),
{
    if s.len() == 0 {
        0
    } else {
        digits_value(s.drop_last()) * 10 + (s.last() - DIGIT_ZERO)
    }
}

/// The `i`-th fractional digit, zero past the end.
pub open spec fn frac_digit(f: Seq<u8>, i: int) -> int {
    if i < f.len() {
        f[i] - DIGIT_ZERO
    } else {
        0
    }
}

/// The fraction in ten-thousandths: the first four digits count, the rest
/// are cut off (rounding down, never up).
pub open spec fn frac_units(f: Seq<u8>) -> int {
    frac_digit(f, 0) * 1000 + frac_digit(f, 1) * 100 + frac_digit(f, 2) * 10 + frac_digit(f, 3)
}

/// The fraction normalized to exactly four digits.
pub open spec fn frac4(f: Seq<u8>) -> Seq<u8> {
    Seq::new(4, |i: int| if i < f.len() { f[i] } else { DIGIT_ZERO })
}

/// `k` is where the whole part of the amount text `s` ends: digits, then
/// either the end or a point followed by digits, with at least one digit
/// in all.
pub open spec fn is_split(s: Seq<u8>, k: int) -> bool {
    &&& 0 <= k <= s.len()
    &&& all_digits(s.take(k))
    &&& if k == s.len() {
        k > 0
    } else {
        s[k] == POINT && all_digits(s.skip(k + 1)) && s.len() > 1
    }
}

pub open spec fn fraction(s: Seq<u8>, k: int) -> Seq<u8> {
    if k < s.len() {
        s.skip(k + 1)
    } else {
        Seq::empty()
    }
}

/// The amount in ten-thousandths that `s` denotes when split at `k`.
pub open spec fn units_at(s: Seq<u8>, k: int) -> int {
    digits_value(s.take(k)) * 10000 + frac_units(fraction(s, k))
}

/// The text `s` is an amount that denotes `v` ten-thousandths.
pub open spec fn denotes(s: Seq<u8>, v: int) -> bool {
    exists|k: int| #[trigger] is_split(s, k) && units_at(s, k) == v
}

/// An amount text has one split at most.
pub proof fn lemma_split_unique(s: Seq<u8>, k1: int, k2: int)
    requires
        is_split(s, k1),
        is_split(s, k2),
    ensures
        k1 == k2,
{
    if k1 < k2 {
        assert(s.take(k2)[k1] == s[k1]);
    } else if k2 < k1 {
        assert(s.take(k1)[k2] == s[k2]);
    }
}

/// Normalizing is idempotent: a fraction already cut to four digits is
/// left as it is, and denotes the same ten-thousandths.
pub proof fn lemma_normalize_idempotent(f: Seq<u8>)
    ensures
        frac4(frac4(f)) == frac4(f),
        frac_units(frac4(f)) == frac_units(f),
{
    assert(frac4(frac4(f)) =~= frac4(f));
}

fn digit(c: u8) -> (r: bool)
    ensures
        r == is_digit(c),
{
    DIGIT_ZERO <= c && c <= DIGIT_NINE
}

/// The `i`-th digit after the point that ends at `k`, zero past the end.
fn frac_digit_at(s: &[u8], k: usize, i: usize) -> (r: u64)
    requires
        k <= s@.len(),
        i < 4,
        all_digits(fraction(s@, k as int)),
    ensures
        r == frac_digit(fraction(s@, k as int), i as int),
        r <= 9,
{
    let ghost f = fraction(s@, k as int);
    if k < s.len() && i < s.len() - k - 1 {
        assert(f[i as int] == s@[k + 1 + i]);
        assert(is_digit(f[i as int]));
        (s[k + 1 + i] - DIGIT_ZERO) as u64
    } else {
        0
    }
}

/// Reads a non-negative decimal amount, such as `12`, `0.5` or `.25`, as a
/// count of ten-thousandths, cutting off any digit past the fourth
/// fractional one. `None` where the text is no amount or the amount does
/// not fit an `i64`. Only plain non-negative decimals are amounts: a sign,
/// an exponent (`1e3`) or a word such as `inf` makes the text no amount.
pub fn parse_amount(s: &[u8]) -> (r: Option<i64>)
    ensures
        r matches Some(v) ==> denotes(s@, v as int),
        r is None ==> forall|k: int| #[trigger] is_split(s@, k) ==> units_at(s@, k) > i64::MAX,
{
    let n = s.len();
    let mut k: usize = 0;
    let mut whole: u64 = 0;
    let mut big = false;
    while k < n && digit(s[k])
        invariant
            k <= n,
            n == s@.len(),
            all_digits(s@.take(k as int)),
            !big ==> whole == digits_value(s@.take(k as int)) && whole <= WHOLE_LIMIT,
            big ==> digits_value(s@.take(k as int)) > WHOLE_LIMIT,
        decreases n - k,
    {
        assert(s@.take(k + 1).drop_last() =~= s@.take(k as int));
        if !big {
            let next = whole * 10 + (s[k] - DIGIT_ZERO) as u64;
            if next > WHOLE_LIMIT {
                big = true;
            } else {
                whole = next;
            }
        }
        k = k + 1;
    }
    proof {
        assert forall|j: int| #[trigger] is_split(s@, j) implies j == k by {
            if j < k {
                assert(s@.take(k as int)[j] == s@[j]);
            } else if j > k {
                assert(s@.take(j)[k as int] == s@[k as int]);
            }
        }
    }
    if k < n && s[k] != POINT {
        return None;
    }
    if n == 0 || (n == 1 && k == 0) {
        return None;
    }
    let mut j: usize = if k < n {
        k + 1
    } else {
        n
    };
    while j < n
        invariant
            k <= n,
            k < n ==> k + 1 <= j <= n,
            k == n ==> j == n,
            forall|i: int| #[trigger] is_split(s@, i) ==> i == k,
            n == s@.len(),
            forall|i: int| k + 1 <= i < j ==> is_digit(#[trigger] s@[i]),
        decreases n + 1 - j,
    {
        if !digit(s[j]) {
            proof {
                assert(s@.skip(k + 1)[j - k - 1] == s@[j as int]);
                assert(!all_digits(s@.skip(k + 1)));
                assert(!is_split(s@, k as int));
            }
            return None;
        }
        j = j + 1;
    }
    let ghost f = fraction(s@, k as int);
    proof {
        if k < n {
            assert forall|i: int| 0 <= i < f.len() implies is_digit(#[trigger] f[i]) by {
                assert(f[i] == s@[k + 1 + i]);
            }
        }
        assert(is_split(s@, k as int));
    }
    if big {
        return None;
    }
    let frac: u64 = frac_digit_at(s, k, 0) * 1000 + frac_digit_at(s, k, 1) * 100 + frac_digit_at(
        s,
        k,
        2,
    ) * 10 + frac_digit_at(s, k, 3);
    let total: u64 = whole * 10000 + frac;
    if total > i64::MAX as u64 {
        None
    } else {
        Some(total as i64)
    }
}

/// Splits an amount in ten-thousandths into its sign, its whole part and
/// its four fractional digits, for display.
pub fn split_amount(v: i64) -> (r: (bool, u64, u16))
    ensures
        r.2 < 10000,
        r.0 <==> v < 0,
        v == (if r.0 {
            -(r.1 * 10000 + r.2)
        } else {
            r.1 * 10000 + r.2
        }),
{
    let mag: u64 = if v < 0 {
        (-(v + 1)) as u64 + 1
    } else {
        v as u64
    };
    (v < 0, mag / 10000, (mag % 10000) as u16)
}

} // verus!
