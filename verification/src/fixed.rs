//! Fixed-point numeric model.
//!
//! Prices, volumes and indicator values are carried as integers scaled by
//! [`SCALE`] (eight decimal places), so that the arithmetic of the candle
//! ring and the indicator bank can be reasoned about exactly.  Exchange
//! payloads quote prices as decimal strings; [`parse_fixed`] reads such a
//! string into a scaled integer.

use vstd::prelude::*;
use vstd::string::StringSliceAdditionalSpecFns;

verus! {

/// Number of fixed-point units that make up one whole price unit.
pub const SCALE: u64 = 100_000_000;

/// Largest representable scaled price (ten million whole units).
///
/// Keeping every price below this bound lets the indicator arithmetic be
/// proved free of overflow.
pub const PRICE_MAX: u64 = 1_000_000_000_000_000;

/// `PRICE_MAX / SCALE`: largest whole-unit part of a price.
pub const UNITS_MAX: u64 = 10_000_000;

/// Largest accepted indicator period.
pub const PERIOD_MAX: usize = 1000;

/// Largest accepted SuperTrend band factor (scaled; one hundred whole units).
pub const FACTOR_MAX: u64 = 10_000_000_000;

/// ASCII digit test.
pub open spec fn is_digit(b: u8) -> bool {
    0x30 <= b <= 0x39
}

pub open spec fn all_digits(s: Seq<u8>) -> bool {
    forall|i: int| 0 <= i < s.len() ==> is_digit(#[trigger] s[i])
}

/// Value of a big-endian sequence of ASCII digits.
pub open spec fn digits_val(s: Seq<u8>) -> int
    decreases s.len(),
{
    if s.len() == 0 {
        0
    } else {
        digits_val(s.drop_last()) * 10 + (s.last() - 0x30)
    }
}

pub open spec fn pow10(n: nat) -> int
    decreases n,
{
    if n == 0 {
        1
    } else {
        10 * pow10((n - 1) as nat)
    }
}

/// Index of the first `.` in `s`, or `s.len()` if there is none.
pub open spec fn dot_index(s: Seq<u8>) -> int
    decreases s.len(),
{
    if s.len() == 0 {
        0
    } else if s.first() == 0x2Eu8 {
        0
    } else {
        1 + dot_index(s.drop_first())
    }
}

/// Shape of an unsigned decimal string: digits, at most one dot, and at
/// least one digit somewhere.
pub open spec fn valid_fixed(s: Seq<u8>) -> bool {
    let d = dot_index(s);
    &&& all_digits(s.take(d))
    &&& (d < s.len() ==> all_digits(s.skip(d + 1)))
    &&& s.len() > 0
    &&& (d > 0 || (d < s.len() && s.len() > d + 1))
}

/// Scaled value of the fraction digits: the first eight weigh in, the rest
/// lie below the resolution of [`SCALE`] and are truncated away.
pub open spec fn frac_val(f: Seq<u8>) -> int {
    let m = if f.len() <= 8 { f.len() as int } else { 8 };
    digits_val(f.take(m)) * pow10((8 - m) as nat)
}

/// Scaled value of a valid decimal string.
pub open spec fn fixed_val(s: Seq<u8>) -> int {
    let d = dot_index(s);
    if d < s.len() {
        digits_val(s.take(d)) * SCALE + frac_val(s.skip(d + 1))
    } else {
        digits_val(s) * SCALE
    }
}

/// What [`parse_fixed`] returns: the scaled value of a well-formed decimal
/// string, or `None` for a malformed string or one beyond [`PRICE_MAX`].
pub open spec fn spec_parse_fixed(s: Seq<u8>) -> Option<u64> {
    if valid_fixed(s) && fixed_val(s) <= PRICE_MAX {
        Some(fixed_val(s) as u64)
    } else {
        None
    }
}

proof fn lemma_digits_val_nonneg(s: Seq<u8>)
    requires
        all_digits(s),
    ensures
        digits_val(s) >= 0,
    decreases s.len(),
{
    if s.len() > 0 {
        assert(all_digits(s.drop_last()));
        lemma_digits_val_nonneg(s.drop_last());
    }
}

proof fn lemma_digits_val_bound(s: Seq<u8>)
    requires
        all_digits(s),
    ensures
        0 <= digits_val(s) < pow10(s.len()),
    decreases s.len(),
{
    if s.len() > 0 {
        assert(all_digits(s.drop_last()));
        lemma_digits_val_bound(s.drop_last());
        assert(s.last() - 0x30 <= 9);
    }
}

proof fn lemma_digits_val_push(s: Seq<u8>, b: u8)
    ensures
        digits_val(s.push(b)) == digits_val(s) * 10 + (b - 0x30),
{
    assert(s.push(b).drop_last() =~= s);
    assert(s.push(b).last() == b);
}

proof fn lemma_pow10_le(n: nat, m: nat)
    requires
        n <= m,
    ensures
        0 < pow10(n) <= pow10(m),
    decreases m,
{
    if n < m {
        lemma_pow10_le(n, (m - 1) as nat);
    } else if n == m && n > 0 {
        lemma_pow10_le((n - 1) as nat, (m - 1) as nat);
    }
}

proof fn lemma_pow10_add(a: nat, b: nat)
    ensures
        pow10(a) * pow10(b) == pow10(a + b),
    decreases a,
{
    if a == 0 {
    } else {
        lemma_pow10_add((a - 1) as nat, b);
        assert((10 * pow10((a - 1) as nat)) * pow10(b) == 10 * (pow10((a - 1) as nat) * pow10(b)))
            by (nonlinear_arith);
        assert(pow10(a + b) == 10 * pow10((a + b - 1) as nat));
    }
}

proof fn lemma_pow10_vals()
    ensures
        pow10(7) == 10_000_000,
        pow10(8) == 100_000_000,
{
    reveal_with_fuel(pow10, 9);
}

/// If no byte before `i` is a dot, the first dot lies at `i` or later.
proof fn lemma_dot_index_ge(s: Seq<u8>, i: int)
    requires
        0 <= i <= s.len(),
        forall|j: int| 0 <= j < i ==> s[j] != 0x2Eu8,
    ensures
        dot_index(s) >= i,
    decreases i,
{
    lemma_dot_index_le(s);
    if i > 0 {
        assert(s.first() != 0x2Eu8);
        assert forall|j: int| 0 <= j < i - 1 implies s.drop_first()[j] != 0x2Eu8 by {
            assert(s.drop_first()[j] == s[j + 1]);
        }
        lemma_dot_index_ge(s.drop_first(), i - 1);
    }
}

/// If `i` is a dot preceded by no dot, it is the first dot.
proof fn lemma_dot_index_at(s: Seq<u8>, i: int)
    requires
        0 <= i <= s.len(),
        forall|j: int| 0 <= j < i ==> s[j] != 0x2Eu8,
        i < s.len() ==> s[i] == 0x2Eu8,
    ensures
        dot_index(s) == i,
    decreases i,
{
    lemma_dot_index_ge(s, i);
    if i == s.len() {
        lemma_dot_index_le(s);
    } else if i > 0 {
        assert(s.drop_first()[i - 1] == s[i as int]);
        assert forall|j: int| 0 <= j < i - 1 implies s.drop_first()[j] != 0x2Eu8 by {
            assert(s.drop_first()[j] == s[j + 1]);
        }
        lemma_dot_index_at(s.drop_first(), i - 1);
    }
}

proof fn lemma_dot_index_le(s: Seq<u8>)
    ensures
        0 <= dot_index(s) <= s.len(),
    decreases s.len(),
{
    if s.len() > 0 && s.first() != 0x2Eu8 {
        lemma_dot_index_le(s.drop_first());
    }
}

/// Exponent table for the fraction weight; `n` is at most 8.
fn pow10_u64(n: u64) -> (r: u64)
    requires
        n <= 8,
    ensures
        r == pow10(n as nat),
{
    let mut r: u64 = 1;
    let mut i: u64 = 0;
    while i < n
        invariant
            i <= n <= 8,
            r == pow10(i as nat),
        decreases n - i,
    {
        proof {
            lemma_pow10_le(i as nat, 8);
            lemma_pow10_vals();
            assert(pow10((i + 1) as nat) == 10 * pow10(i as nat));
        }
        r = r * 10;
        i = i + 1;
    }
    r
}

/// Reads an unsigned decimal string (for example `"103.25"`) into a scaled
/// price.  Returns `None` when the string is not a plain decimal number or
/// its value exceeds [`PRICE_MAX`].
pub fn parse_fixed(s: &[u8]) -> (r: Option<u64>)
    ensures
        r == spec_parse_fixed(s@),
        r matches Some(v) ==> v <= PRICE_MAX,
{
    let n = s.len();
    if n == 0 {
        return None;
    }
    // Scan the whole-unit digits up to the dot, saturating at UNITS_MAX + 1
    // so that an oversized value is still recognised without overflow.
    let mut i: usize = 0;
    let mut int_sat: u64 = 0;
    while i < n && s[i] != 0x2Eu8
        invariant
            0 <= i <= n == s@.len(),
            forall|j: int| 0 <= j < i ==> s@[j] != 0x2Eu8,
            all_digits(s@.take(i as int)),
            int_sat == if digits_val(s@.take(i as int)) <= UNITS_MAX {
                digits_val(s@.take(i as int))
            } else {
                (UNITS_MAX + 1) as int
            },
        decreases n - i,
    {
        let b = s[i];
        if b < 0x30 || b > 0x39 {
            proof {
                lemma_dot_index_ge(s@, i + 1);
                lemma_dot_index_le(s@);
                let d = dot_index(s@);
                assert(s@.take(d)[i as int] == s@[i as int]);
                assert(!is_digit(s@.take(d)[i as int]));
            }
            return None;
        }
        proof {
            lemma_digits_val_push(s@.take(i as int), b);
            assert(s@.take(i as int).push(b) =~= s@.take(i + 1));
            lemma_digits_val_nonneg(s@.take(i as int));
        }
        let d = (b - 0x30) as u64;
        if int_sat <= UNITS_MAX {
            int_sat = int_sat * 10 + d;
            if int_sat > UNITS_MAX {
                int_sat = UNITS_MAX + 1;
            }
        }
        i = i + 1;
    }
    proof {
        lemma_dot_index_at(s@, i as int);
    }
    let dot = i;
    // Scan the fraction digits; only the first eight carry weight.
    let mut frac_head: u64 = 0;
    let mut taken: usize = 0;
    if i < n {
        i = i + 1;
        while i < n
            invariant
                dot + 1 <= i <= n == s@.len(),
                dot == dot_index(s@),
                dot < n,
                taken == if i - dot - 1 <= 8 { i - dot - 1 } else { 8int },
                all_digits(s@.subrange(dot + 1, i as int)),
                frac_head == digits_val(s@.subrange(dot + 1, dot + 1 + taken)),
                frac_head < 100_000_000,
            decreases n - i,
        {
            let b = s[i];
            if b < 0x30 || b > 0x39 {
                proof {
                    assert(s@.skip(dot + 1)[i - dot - 1] == s@[i as int]);
                    assert(!is_digit(s@.skip(dot + 1)[i - dot - 1]));
                }
                return None;
            }
            proof {
                if taken < 8 {
                    lemma_digits_val_push(s@.subrange(dot + 1, dot + 1 + taken), b);
                    lemma_digits_val_bound(s@.subrange(dot + 1, dot + 1 + taken));
                    lemma_pow10_le(taken as nat, 7);
                    lemma_pow10_vals();
                    assert(s@.subrange(dot + 1, dot + 1 + taken).push(b) =~= s@.subrange(
                        dot + 1,
                        dot + 1 + taken + 1,
                    ));
                }
                assert(s@.subrange(dot + 1, i as int).push(b) =~= s@.subrange(dot + 1, i + 1));
            }
            if taken < 8 {
                frac_head = frac_head * 10 + (b - 0x30) as u64;
                taken = taken + 1;
            }
            i = i + 1;
        }
    }
    // Reject the string that holds no digit at all: a lone dot.
    if dot == 0 && n == 1 && dot < n {
        return None;
    }
    proof {
        assert(s@.take(dot as int) =~= s@.take(dot_index(s@)));
        if dot < n {
            assert(s@.subrange(dot + 1, n as int) =~= s@.skip(dot + 1));
            let f = s@.skip(dot + 1);
            let m = if f.len() <= 8 { f.len() as int } else { 8 };
            assert(s@.subrange(dot + 1, dot + 1 + taken) =~= f.take(m));
        } else {
            assert(s@.take(dot as int) =~= s@);
        }
        lemma_digits_val_nonneg(s@.take(dot as int));
        assert(valid_fixed(s@));
    }
    if int_sat > UNITS_MAX {
        // The whole-unit part alone already exceeds PRICE_MAX.
        proof {
            let d = dot_index(s@);
            assert(digits_val(s@.take(d)) > UNITS_MAX);
            assert(digits_val(s@.take(d)) * SCALE > UNITS_MAX * SCALE) by (nonlinear_arith)
                requires
                    digits_val(s@.take(d)) > UNITS_MAX,
            ;
            if d < s@.len() {
                lemma_frac_val_nonneg(s@.skip(d + 1));
            }
        }
        return None;
    }
    let frac = if dot < n {
        let weight = pow10_u64(8 - (taken as u64));
        proof {
            let f = s@.skip(dot + 1);
            let m = if f.len() <= 8 { f.len() as int } else { 8 };
            lemma_frac_head_bound(f.take(m), taken as nat);
        }
        frac_head * weight
    } else {
        0
    };
    let v = int_sat * SCALE + frac;
    if v > PRICE_MAX {
        None
    } else {
        Some(v)
    }
}

proof fn lemma_frac_val_nonneg(f: Seq<u8>)
    requires
        all_digits(f),
    ensures
        frac_val(f) >= 0,
{
    let m = if f.len() <= 8 { f.len() as int } else { 8 };
    assert(all_digits(f.take(m)));
    lemma_digits_val_nonneg(f.take(m));
    lemma_pow10_le(0, (8 - m) as nat);
    assert(digits_val(f.take(m)) * pow10((8 - m) as nat) >= 0) by (nonlinear_arith)
        requires
            digits_val(f.take(m)) >= 0,
            pow10((8 - m) as nat) > 0,
    ;
}

/// The weighted fraction head stays below one whole scaled unit.
proof fn lemma_frac_head_bound(digs: Seq<u8>, k: nat)
    requires
        all_digits(digs),
        digs.len() == k,
        k <= 8,
    ensures
        0 <= digits_val(digs) * pow10((8 - k) as nat) < 100_000_000,
{
    lemma_digits_val_bound(digs);
    lemma_pow10_le(0, (8 - k) as nat);
    lemma_pow10_add(k, (8 - k) as nat);
    lemma_pow10_vals();
    let w = pow10((8 - k) as nat);
    assert(digits_val(digs) * w >= 0) by (nonlinear_arith)
        requires
            digits_val(digs) >= 0,
            w > 0,
    ;
    assert(digits_val(digs) * w <= (pow10(k) - 1) * w) by (nonlinear_arith)
        requires
            digits_val(digs) <= pow10(k) - 1,
            w > 0,
    ;
    assert((pow10(k) - 1) * w == pow10(k) * w - w) by (nonlinear_arith);
}

/// Reads a decimal string as [`parse_fixed`], defaulting to `0` when the
/// string is malformed or out of range, as the wire decoding does.
pub fn parse_fixed_or_zero(s: &str) -> (r: u64)
    ensures
        r == spec_parse_fixed_or_zero(s.spec_bytes()),
        r <= PRICE_MAX,
{
    match parse_fixed(s.as_bytes()) {
        Some(v) => v,
        None => 0,
    }
}

/// `spec_parse_fixed`, with `0` in place of a parse failure.
pub open spec fn spec_parse_fixed_or_zero(s: Seq<u8>) -> u64 {
    match spec_parse_fixed(s) {
        Some(v) => v,
        None => 0u64,
    }
}

} // verus!
