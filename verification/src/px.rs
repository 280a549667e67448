//! Exact non-negative rational numbers for prices and sizes.
//!
//! The venue encodes prices and sizes as decimal strings. Parsing such a
//! string into a numerator/denominator pair keeps every later comparison,
//! ratio and slice division exact: `"123.45"` becomes `12345 / 100`.

use vstd::arithmetic::mul::lemma_mul_upper_bound;
use vstd::prelude::*;
use vstd::string::StrSliceExecFns;

verus! {

/// A non-negative rational number `num / den`. Well-formed values have
/// `den >= 1`.
#[derive(Clone, Copy, Debug, PartialEq, Eq, Structural)]
pub struct Px {
    pub num: u64,
    pub den: u64,
}

/// `a` and `b` denote the same rational.
pub open spec fn rat_eq(a: Px, b: Px) -> bool {
    a.num * b.den == b.num * a.den
}

/// `a` denotes a strictly smaller rational than `b`.
pub open spec fn rat_lt(a: Px, b: Px) -> bool {
    a.num * b.den < b.num * a.den
}

/// The product of two `u64` values always fits in a `u128`.
pub proof fn lemma_u64_mul_fits_u128(a: u64, b: u64)
    ensures
        a * b <= u64::MAX * u64::MAX,
        a * b <= u128::MAX,
{
    lemma_mul_upper_bound(a as int, u64::MAX as int, b as int, u64::MAX as int);
}

/// Widening multiplication; never overflows.
fn mul_wide(a: u64, b: u64) -> (r: u128)
    ensures
        r == a * b,
{
    proof {
        lemma_u64_mul_fits_u128(a, b);
    }
    (a as u128) * (b as u128)
}

impl Px {
    /// The denominator is a positive integer.
    pub open spec fn wf(self) -> bool {
        self.den >= 1
    }

    pub fn new(num: u64, den: u64) -> (r: Px)
        requires
            den >= 1,
        ensures
            r == (Px { num, den }),
            r.wf(),
    {
        Px { num, den }
    }

    /// The rational `n / 1`.
    pub fn from_int(n: u64) -> (r: Px)
        ensures
            r == (Px { num: n, den: 1 }),
            r.wf(),
    {
        Px { num: n, den: 1 }
    }

    /// Exact comparison by cross-multiplication.
    pub fn lt(self, other: Px) -> (r: bool)
        requires
            self.wf(),
            other.wf(),
        ensures
            r == rat_lt(self, other),
    {
        mul_wide(self.num, other.den) < mul_wide(other.num, self.den)
    }

    /// Exact comparison by cross-multiplication.
    pub fn gt(self, other: Px) -> (r: bool)
        requires
            self.wf(),
            other.wf(),
        ensures
            r == rat_lt(other, self),
    {
        mul_wide(other.num, self.den) < mul_wide(self.num, other.den)
    }

    /// Exact equality of the denoted rationals.
    pub fn same_value(self, other: Px) -> (r: bool)
        requires
            self.wf(),
            other.wf(),
        ensures
            r == rat_eq(self, other),
    {
        mul_wide(self.num, other.den) == mul_wide(other.num, self.den)
    }

    /// Exact product. `None` exactly when a component overflows `u64`.
    pub fn checked_mul(self, other: Px) -> (r: Option<Px>)
        requires
            self.wf(),
            other.wf(),
        ensures
            r is Some <==> self.num * other.num <= u64::MAX && self.den * other.den <= u64::MAX,
            r is Some ==> r->0 == (Px { num: (self.num * other.num) as u64, den: (self.den * other.den) as u64 })
                && r->0.wf(),
    {
        proof {
            assert(self.den * other.den >= 1) by (nonlinear_arith)
                requires
                    self.den >= 1,
                    other.den >= 1,
            ;
        }
        match (self.num.checked_mul(other.num), self.den.checked_mul(other.den)) {
            (Some(n), Some(d)) => Some(Px { num: n, den: d }),
            _ => None,
        }
    }

    /// Exact quotient `self / other`. `None` exactly when the divisor is zero
    /// or a component overflows `u64`.
    pub fn checked_div(self, other: Px) -> (r: Option<Px>)
        requires
            self.wf(),
            other.wf(),
        ensures
            r is Some <==> other.num >= 1 && self.num * other.den <= u64::MAX && self.den * other.num
                <= u64::MAX,
            r is Some ==> r->0 == (Px { num: (self.num * other.den) as u64, den: (self.den * other.num) as u64 })
                && r->0.wf(),
    {
        if other.num == 0 {
            return None;
        }
        proof {
            assert(self.den * other.num >= 1) by (nonlinear_arith)
                requires
                    self.den >= 1,
                    other.num >= 1,
            ;
        }
        match (self.num.checked_mul(other.den), self.den.checked_mul(other.num)) {
            (Some(n), Some(d)) => Some(Px { num: n, den: d }),
            _ => None,
        }
    }

    /// Exact division by a positive integer. `None` exactly when the scaled
    /// denominator overflows `u64`.
    pub fn checked_div_int(self, k: u64) -> (r: Option<Px>)
        requires
            self.wf(),
            k >= 1,
        ensures
            r is Some <==> self.den * k <= u64::MAX,
            r is Some ==> r->0 == (Px { num: self.num, den: (self.den * k) as u64 }) && r->0.wf(),
    {
        proof {
            assert(self.den * k >= 1) by (nonlinear_arith)
                requires
                    self.den >= 1,
                    k >= 1,
            ;
        }
        match self.den.checked_mul(k) {
            Some(d) => Some(Px { num: self.num, den: d }),
            None => None,
        }
    }
}

/// `a * b` fits in a rational's components.
pub open spec fn mul_fits(a: Px, b: Px) -> bool {
    a.num * b.num <= u64::MAX && a.den * b.den <= u64::MAX
}

/// The exact product of two rationals.
pub open spec fn spec_mul(a: Px, b: Px) -> Px {
    Px { num: (a.num * b.num) as u64, den: (a.den * b.den) as u64 }
}

/// `a / b` fits in a rational's components: the divisor is nonzero and the
/// cross products stay within `u64`.
pub open spec fn div_fits(a: Px, b: Px) -> bool {
    b.num >= 1 && a.num * b.den <= u64::MAX && a.den * b.num <= u64::MAX
}

/// The exact quotient of two rationals.
pub open spec fn spec_div(a: Px, b: Px) -> Px {
    Px { num: (a.num * b.den) as u64, den: (a.den * b.num) as u64 }
}

/// `c` is one of `'0'..='9'`.
pub open spec fn is_dec_digit(c: char) -> bool {
    '0' as u32 <= c as u32 && c as u32 <= '9' as u32
}

/// Numeric value of a decimal digit character.
pub open spec fn digit_val(c: char) -> nat {
    (c as u32 - '0' as u32) as nat
}

/// Value of a string of decimal digits, most significant first.
pub open spec fn digits_val(s: Seq<char>) -> nat
    decreases s.len(),
{
    if s.len() == 0 {
        0
    } else {
        digits_val(s.drop_last()) * 10 + digit_val(s.last())
    }
}

/// The digit characters of a decimal string, with the dot removed.
pub open spec fn dec_digits_of(s: Seq<char>) -> Seq<char> {
    s.filter(|c: char| c != '.')
}

/// How many `'.'` characters the string holds.
pub open spec fn dot_count(s: Seq<char>) -> nat
    decreases s.len(),
{
    if s.len() == 0 {
        0
    } else {
        dot_count(s.drop_last()) + if s.last() == '.' {
            1nat
        } else {
            0nat
        }
    }
}

/// Index of the first `'.'` (meaningful only when one exists).
pub open spec fn first_dot(s: Seq<char>) -> int
    decreases s.len(),
{
    if s.len() == 0 {
        0
    } else if s[0] == '.' {
        0
    } else {
        1 + first_dot(s.subrange(1, s.len() as int))
    }
}

/// Ten to the `n`-th power.
pub open spec fn pow10(n: nat) -> nat
    decreases n,
{
    if n == 0 {
        1
    } else {
        10 * pow10((n - 1) as nat)
    }
}

/// Number of digits after the dot, zero when there is no dot.
pub open spec fn frac_len(s: Seq<char>) -> nat {
    if dot_count(s) == 0 {
        0
    } else {
        (s.len() - 1 - first_dot(s)) as nat
    }
}

/// Meaning of a decimal string: `"123.45"` denotes `12345 / 100`. A string
/// parses exactly when it consists of digits with at most one dot, holds at
/// least one digit, and both components fit in `u64`.
pub open spec fn spec_parse_px(s: Seq<char>) -> Option<Px> {
    if (forall|i: int| 0 <= i < s.len() ==> is_dec_digit(#[trigger] s[i]) || s[i] == '.')
        && dot_count(s) <= 1 && dec_digits_of(s).len() >= 1 && digits_val(dec_digits_of(s))
        <= u64::MAX && pow10(frac_len(s)) <= u64::MAX {
        Some(
            Px {
                num: digits_val(dec_digits_of(s)) as u64,
                den: pow10(frac_len(s)) as u64,
            },
        )
    } else {
        None
    }
}

pub proof fn lemma_pow10_pos(n: nat)
    ensures
        pow10(n) >= 1,
    decreases n,
{
    if n > 0 {
        lemma_pow10_pos((n - 1) as nat);
    }
}

pub proof fn lemma_pow10_mono(a: nat, b: nat)
    requires
        a <= b,
    ensures
        pow10(a) <= pow10(b),
    decreases b,
{
    if a < b {
        lemma_pow10_mono(a, (b - 1) as nat);
        lemma_pow10_pos((b - 1) as nat);
    }
}

/// Appending digits never decreases the denoted value.
pub proof fn lemma_digits_val_append(a: Seq<char>, b: Seq<char>)
    ensures
        digits_val(a) <= digits_val(a + b),
    decreases b.len(),
{
    if b.len() == 0 {
        assert(a + b =~= a);
    } else {
        lemma_digits_val_append(a, b.drop_last());
        assert((a + b).drop_last() =~= a + b.drop_last());
        assert(digits_val(a + b.drop_last()) <= digits_val(a + b.drop_last()) * 10) by (nonlinear_arith);
    }
}

/// Unfolding `digits_val` at the end of the string.
pub proof fn lemma_digits_val_push(s: Seq<char>, c: char)
    ensures
        digits_val(s.push(c)) == digits_val(s) * 10 + digit_val(c),
{
    assert(s.push(c).drop_last() =~= s);
}

/// Unfolding `dot_count` at the end of the string.
proof fn lemma_dot_count_push(s: Seq<char>, c: char)
    ensures
        dot_count(s.push(c)) == dot_count(s) + if c == '.' {
            1nat
        } else {
            0nat
        },
{
    assert(s.push(c).drop_last() =~= s);
}

/// Unfolding the digit filter at the end of the string.
proof fn lemma_dec_digits_push(s: Seq<char>, c: char)
    ensures
        dec_digits_of(s.push(c)) == dec_digits_of(s) + if c != '.' {
            seq![c]
        } else {
            Seq::<char>::empty()
        },
{
    reveal(Seq::filter);
    assert(s.push(c).drop_last() =~= s);
    if c != '.' {
        assert(dec_digits_of(s.push(c)) =~= dec_digits_of(s) + seq![c]);
    } else {
        assert(dec_digits_of(s.push(c)) =~= dec_digits_of(s) + Seq::<char>::empty());
    }
}

/// A dot in a prefix is a dot in the whole string.
proof fn lemma_dot_count_prefix(s: Seq<char>, i: int)
    requires
        0 <= i <= s.len(),
    ensures
        dot_count(s.take(i)) <= dot_count(s),
    decreases s.len() - i,
{
    if i < s.len() {
        lemma_dot_count_prefix(s, i + 1);
        assert(s.take(i + 1).drop_last() =~= s.take(i));
        assert(s.take(i + 1) =~= s.take(i).push(s[i]));
    } else {
        assert(s.take(i) =~= s);
    }
}

/// The first dot is the position before which no dot stands.
proof fn lemma_first_dot_at(s: Seq<char>, j: int)
    requires
        0 <= j < s.len(),
        s[j] == '.',
        forall|k: int| 0 <= k < j ==> s[k] != '.',
    ensures
        first_dot(s) == j,
    decreases j,
{
    if j > 0 {
        let t = s.subrange(1, s.len() as int);
        lemma_first_dot_at(t, j - 1);
    }
}

/// Parse a decimal string into an exact rational, per [`spec_parse_px`].
pub fn parse_px(s: &str) -> (r: Option<Px>)
    ensures
        r == spec_parse_px(s@),
        r is Some ==> r->0.wf(),
{
    proof {
        lemma_pow10_pos(frac_len(s@));
    }
    let n = s.unicode_len();
    let mut i: usize = 0;
    let mut num: u64 = 0;
    let mut dot_idx: Option<usize> = None;
    let mut saw_digit: bool = false;
    while i < n
        invariant
            n == s@.len(),
            0 <= i <= n,
            forall|k: int| 0 <= k < i ==> is_dec_digit(#[trigger] s@[k]) || s@[k] == '.',
            num == digits_val(dec_digits_of(s@.take(i as int))),
            saw_digit == (dec_digits_of(s@.take(i as int)).len() >= 1),
            match dot_idx {
                Some(j) => j < i && s@[j as int] == '.' && (forall|k: int|
                    0 <= k < j ==> s@[k] != '.') && dot_count(s@.take(i as int)) == 1,
                None => (forall|k: int| 0 <= k < i ==> s@[k] != '.') && dot_count(
                    s@.take(i as int),
                ) == 0,
            },
        decreases n - i,
    {
        let c = s.get_char(i);
        let cu = c as u32;
        proof {
            assert(s@.take(i + 1) =~= s@.take(i as int).push(s@[i as int]));
            lemma_dot_count_push(s@.take(i as int), s@[i as int]);
            lemma_dec_digits_push(s@.take(i as int), s@[i as int]);
        }
        if cu == 46 {
            // '.'
            if dot_idx.is_some() {
                proof {
                    lemma_dot_count_prefix(s@, i + 1);
                }
                return None;
            }
            dot_idx = Some(i);
        } else if 48 <= cu && cu <= 57 {
            let d = (cu - 48) as u64;
            proof {
                lemma_digits_val_push(
                    dec_digits_of(s@.take(i as int)),
                    s@[i as int],
                );
                assert(dec_digits_of(s@.take(i as int)) + seq![s@[i as int]] =~= dec_digits_of(
                    s@.take(i as int),
                ).push(s@[i as int]));
            }
            let num10 = match num.checked_mul(10) {
                Some(v) => v,
                None => {
                    proof {
                        lemma_overflow_means_none(s@, i as int);
                    }
                    return None;
                },
            };
            let num1 = match num10.checked_add(d) {
                Some(v) => v,
                None => {
                    proof {
                        lemma_overflow_means_none(s@, i as int);
                    }
                    return None;
                },
            };
            num = num1;
            saw_digit = true;
        } else {
            return None;
        }
        i += 1;
    }
    proof {
        assert(s@.take(n as int) =~= s@);
    }
    if !saw_digit {
        return None;
    }
    let frac: usize = match dot_idx {
        Some(j) => {
            proof {
                lemma_first_dot_at(s@, j as int);
            }
            n - 1 - j
        },
        None => 0,
    };
    let mut den: u64 = 1;
    let mut k: usize = 0;
    while k < frac
        invariant
            k <= frac,
            frac == frac_len(s@),
            den == pow10(k as nat),
            digits_val(dec_digits_of(s@)) <= u64::MAX,
        decreases frac - k,
    {
        den = match den.checked_mul(10) {
            Some(v) => v,
            None => {
                proof {
                    lemma_pow10_mono((k + 1) as nat, frac as nat);
                }
                return None;
            },
        };
        k += 1;
    }
    Some(Px { num, den })
}

/// If the accumulated value of a digit prefix already overflows after one
/// more digit, the whole string's value overflows.
proof fn lemma_overflow_means_none(s: Seq<char>, i: int)
    requires
        0 <= i < s.len(),
        s[i] != '.',
        digits_val(dec_digits_of(s.take(i))) * 10 + digit_val(s[i]) > u64::MAX,
    ensures
        digits_val(dec_digits_of(s)) > u64::MAX,
{
    let pre = s.take(i + 1);
    lemma_dec_digits_push(s.take(i), s[i]);
    assert(s.take(i + 1) =~= s.take(i).push(s[i]));
    lemma_digits_val_push(dec_digits_of(s.take(i)), s[i]);
    assert(dec_digits_of(s.take(i)) + seq![s[i]] =~= dec_digits_of(s.take(i)).push(s[i]));
    assert(s =~= s.take(i + 1) + s.skip(i + 1));
    Seq::<char>::filter_distributes_over_add(s.take(i + 1), s.skip(i + 1), |c: char| c != '.');
    lemma_digits_val_append(dec_digits_of(s.take(i + 1)), dec_digits_of(s.skip(i + 1)));
}

} // verus!

