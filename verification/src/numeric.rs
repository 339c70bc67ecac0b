//! Exact decimal numbers.
//!
//! Every numeric literal of the path grammar is a finite decimal, so a value
//! is kept exactly as a sign, an integer mantissa and a count of fraction
//! digits: the value denoted is `(-1)^neg * mant / 10^frac`. Scaling and
//! translation are exact integer arithmetic on this form.

use vstd::prelude::*;

verus! {

/// An exact decimal number: `(-1)^neg * mant / 10^frac`.
#[derive(Clone, Copy, PartialEq, Eq, Structural, Debug)]
pub struct Decimal {
    /// Whether the literal carried a leading minus sign.
    pub neg: bool,
    /// The digits of the literal, read as one integer.
    pub mant: u64,
    /// How many of the mantissa's trailing digits lie behind the decimal point.
    pub frac: u32,
}

/// Ten to the `k`th power.
pub open spec fn pow10(k: nat) -> nat
    decreases k,
{
    if k == 0 {
        1
    } else {
        10 * pow10((k - 1) as nat)
    }
}

/// The multiplication of two decimals stays within the machine representation.
pub open spec fn mul_fits(a: Decimal, b: Decimal) -> bool {
    a.mant * b.mant <= u64::MAX && a.frac + b.frac <= u32::MAX
}

/// The exact product of two decimals: mantissas multiply, fraction
/// lengths add, signs combine. Meaningful when `mul_fits(a, b)`.
pub open spec fn spec_mul(a: Decimal, b: Decimal) -> Decimal {
    Decimal {
        neg: a.neg != b.neg,
        mant: (a.mant * b.mant) as u64,
        frac: (a.frac + b.frac) as u32,
    }
}

/// `b` is an ASCII decimal digit.
pub open spec fn is_digit(b: u8) -> bool {
    48 <= b <= 57
}

/// Every byte of `s` is an ASCII decimal digit.
pub open spec fn all_digits(s: Seq<u8>) -> bool {
    forall|i: int| 0 <= i < s.len() ==> is_digit(#[trigger] s[i])
}

/// The integer a digit string denotes, most significant digit first.
pub open spec fn digits_val(s: Seq<u8>) -> int
    decreases s.len(),
{
    if s.len() == 0 {
        0
    } else {
        digits_val(s.drop_last()) * 10 + (s.last() - 48)
    }
}

/// Length of the run of digits at the front of `s`.
pub open spec fn digit_run(s: Seq<u8>) -> int
    decreases s.len(),
{
    if s.len() > 0 && is_digit(s[0]) {
        1 + digit_run(s.skip(1))
    } else {
        0
    }
}

pub proof fn lemma_digit_run_le_len(s: Seq<u8>)
    ensures
        0 <= digit_run(s) <= s.len(),
    decreases s.len(),
{
    if s.len() > 0 && is_digit(s[0]) {
        lemma_digit_run_le_len(s.skip(1));
    }
}

pub proof fn lemma_digit_run_digits(s: Seq<u8>)
    ensures
        all_digits(s.take(digit_run(s))),
        digit_run(s) < s.len() ==> !is_digit(s[digit_run(s)]),
    decreases s.len(),
{
    lemma_digit_run_le_len(s);
    if s.len() > 0 && is_digit(s[0]) {
        lemma_digit_run_digits(s.skip(1));
        lemma_digit_run_le_len(s.skip(1));
        assert(s.skip(1).take(digit_run(s.skip(1))) =~= s.take(digit_run(s)).skip(1));
        assert forall|i: int| 0 <= i < digit_run(s) implies is_digit(s.take(digit_run(s))[i]) by {
            if i > 0 {
                assert(is_digit(s.skip(1).take(digit_run(s.skip(1)))[i - 1]));
            }
        }
    }
}

pub proof fn lemma_digits_val_nonneg(s: Seq<u8>)
    requires
        all_digits(s),
    ensures
        digits_val(s) >= 0,
    decreases s.len(),
{
    if s.len() > 0 {
        assert(all_digits(s.drop_last()));
        lemma_digits_val_nonneg(s.drop_last());
    }
}

pub proof fn lemma_digits_val_push(p: Seq<u8>, b: u8)
    ensures
        digits_val(p.push(b)) == digits_val(p) * 10 + (b - 48),
{
    assert(p.push(b).drop_last() =~= p);
}

/// The digit shape and value of an unsigned decimal literal
/// (`digits`, `digits.digits`, `digits.` or `.digits`): the mantissa
/// digits with the dot removed, and the number of fraction digits.
/// `None` when the bytes are not such a literal or the mantissa
/// overflows the machine representation.
pub open spec fn spec_parse_unsigned(s: Seq<u8>) -> Option<(u64, u32)> {
    let d1 = digit_run(s);
    if d1 == s.len() {
        if d1 > 0 {
            spec_make_unsigned(s, Seq::empty())
        } else {
            None
        }
    } else if s[d1] == 46 {
        let f = s.skip(d1 + 1);
        if all_digits(f) && (d1 > 0 || f.len() > 0) {
            spec_make_unsigned(s.take(d1), f)
        } else {
            None
        }
    } else {
        None
    }
}

/// Combine integer digits and fraction digits into a mantissa and a
/// fraction length, refusing values beyond the machine representation.
pub open spec fn spec_make_unsigned(i_digits: Seq<u8>, f_digits: Seq<u8>) -> Option<(u64, u32)> {
    let v = digits_val(i_digits + f_digits);
    if v <= u64::MAX && f_digits.len() <= u32::MAX {
        Some((v as u64, f_digits.len() as u32))
    } else {
        None
    }
}

/// The decimal a coordinate token denotes: an optional minus sign, then an
/// unsigned decimal literal. `None` when the token is not such a literal
/// (a letter, say) or its mantissa overflows the machine representation.
pub open spec fn spec_parse_coord(t: Seq<u8>) -> Option<Decimal> {
    if t.len() == 0 {
        None
    } else {
        let neg = t[0] == 45;
        let body = if neg {
            t.skip(1)
        } else {
            t
        };
        match spec_parse_unsigned(body) {
            Some((m, f)) => Some(Decimal { neg, mant: m, frac: f }),
            None => None,
        }
    }
}

/// The integer a flag token denotes: an optional sign, then digits only,
/// within the signed 32-bit range. `None` otherwise.
pub open spec fn spec_parse_flag(t: Seq<u8>) -> Option<i32> {
    if t.len() == 0 {
        None
    } else {
        let signed = t[0] == 45 || t[0] == 43;
        let neg = t[0] == 45;
        let body = if signed {
            t.skip(1)
        } else {
            t
        };
        if body.len() > 0 && digit_run(body) == body.len() {
            let v = digits_val(body);
            if neg && v <= 2147483648 {
                Some((-v) as i32)
            } else if !neg && v <= 2147483647 {
                Some(v as i32)
            } else {
                None
            }
        } else {
            None
        }
    }
}

/// Scan the digit run starting at `from`, returning where it ends together
/// with the exact value of those digits, latched to `None` once the value
/// passes `cap`.
fn scan_digits(t: &Vec<u8>, from: usize, cap: u64) -> (r: (usize, Option<u64>))
    requires
        from <= t@.len(),
    ensures
        r.0 - from == digit_run(t@.skip(from as int)),
        from <= r.0 <= t@.len(),
        match r.1 {
            Some(v) => digits_val(t@.subrange(from as int, r.0 as int)) == v && v <= cap,
            None => digits_val(t@.subrange(from as int, r.0 as int)) > cap,
        },
{
    let ghost s = t@.skip(from as int);
    let mut j: usize = from;
    let mut acc: u64 = 0;
    let mut over: bool = false;
    proof {
        assert(t@.subrange(from as int, from as int) =~= Seq::<u8>::empty());
    }
    loop
        invariant
            from <= j <= t@.len(),
            s == t@.skip(from as int),
            digit_run(s) == (j - from) + digit_run(t@.skip(j as int)),
            all_digits(t@.subrange(from as int, j as int)),
            !over ==> acc <= cap && digits_val(t@.subrange(from as int, j as int)) == acc,
            over ==> digits_val(t@.subrange(from as int, j as int)) > cap,
        ensures
            from <= j <= t@.len(),
            digit_run(s) == j - from,
            all_digits(t@.subrange(from as int, j as int)),
            !over ==> acc <= cap && digits_val(t@.subrange(from as int, j as int)) == acc,
            over ==> digits_val(t@.subrange(from as int, j as int)) > cap,
        decreases t@.len() - j,
    {
        if j == t.len() || !(t[j] >= 48 && t[j] <= 57) {
            proof {
                assert(digit_run(t@.skip(j as int)) == 0);
            }
            break;
        }
        let d: u8 = t[j];
        proof {
            let sj = t@.skip(j as int);
            assert(sj[0] == t@[j as int]);
            assert(sj.skip(1) =~= t@.skip(j as int + 1));
            assert(digit_run(sj) == 1 + digit_run(t@.skip(j as int + 1)));
            assert(t@.subrange(from as int, j as int + 1) =~= t@.subrange(
                from as int,
                j as int,
            ).push(d));
            lemma_digits_val_push(t@.subrange(from as int, j as int), d);
            if over {
                lemma_digits_val_nonneg(t@.subrange(from as int, j as int));
            }
        }
        if !over {
            let wide: u128 = (acc as u128) * 10 + ((d - 48) as u128);
            if wide > cap as u128 {
                over = true;
            } else {
                acc = wide as u64;
            }
        }
        j = j + 1;
    }
    (j, if over {
        None
    } else {
        Some(acc)
    })
}

/// Parse an unsigned decimal literal occupying all of `t` from `start` on.
pub(crate) fn parse_unsigned_from(t: &Vec<u8>, start: usize) -> (r: Option<(u64, u32)>)
    requires
        start <= t@.len(),
    ensures
        r == spec_parse_unsigned(t@.skip(start as int)),
{
    let ghost s = t@.skip(start as int);
    let (j, int_val) = scan_digits(t, start, u64::MAX);
    proof {
        assert(t@.subrange(start as int, j as int) =~= s.take(j - start));
    }
    if j == t.len() {
        // integer literal: all of `s` is the digit run
        proof {
            assert(s.take(j - start) =~= s);
            assert(s + Seq::<u8>::empty() =~= s);
        }
        if j == start {
            return None;
        }
        match int_val {
            Some(v) => Some((v, 0)),
            None => None,
        }
    } else if t[j] == 46 {
        proof {
            assert(s[j - start] == t@[j as int]);
        }
        let (k, all_val) = scan_digits_resume(t, start, j, int_val);
        let ghost f = s.skip(j - start + 1);
        proof {
            assert(f =~= t@.skip(j as int + 1));
            lemma_digit_run_le_len(f);
            lemma_digit_run_digits(f);
        }
        if k < t.len() {
            // a byte after the fraction digits: not all digits
            proof {
                let fi = (k - j - 1) as int;
                assert(digit_run(f) == fi);
                assert(!is_digit(f[fi]));
                assert(!all_digits(f));
            }
            return None;
        }
        proof {
            assert(f =~= f.take(digit_run(f)));
            assert(all_digits(f));
            assert(s.take(j - start) =~= t@.subrange(start as int, j as int));
            assert(f =~= t@.subrange(j as int + 1, k as int));
        }
        if j == start && k == j + 1 {
            return None;
        }
        if t.len() - j - 1 > u32::MAX as usize {
            return None;
        }
        match all_val {
            Some(v) => Some((v, (k - j - 1) as u32)),
            None => None,
        }
    } else {
        proof {
            assert(s[j - start] == t@[j as int]);
        }
        None
    }
}

/// Continue a digit scan across the decimal point: scans digits from
/// `dot + 1`, extending the value accumulated for the integer digits.
fn scan_digits_resume(t: &Vec<u8>, start: usize, dot: usize, int_val: Option<u64>) -> (r: (
    usize,
    Option<u64>,
))
    requires
        start <= dot < t@.len(),
        digit_run(t@.skip(start as int)) == dot - start,
        match int_val {
            Some(v) => digits_val(t@.subrange(start as int, dot as int)) == v && v <= u64::MAX,
            None => digits_val(t@.subrange(start as int, dot as int)) > u64::MAX,
        },
    ensures
        r.0 - dot - 1 == digit_run(t@.skip(dot as int + 1)),
        dot + 1 <= r.0 <= t@.len(),
        ({
            let m = t@.subrange(start as int, dot as int) + t@.subrange(dot as int + 1, r.0 as int);
            match r.1 {
                Some(v) => digits_val(m) == v && v <= u64::MAX,
                None => digits_val(m) > u64::MAX,
            }
        }),
{
    let n = t.len();
    let mut j: usize = dot + 1;
    let mut acc: u64 = 0;
    let mut over: bool = false;
    proof {
        assert(t@.subrange(dot as int + 1, dot as int + 1) =~= Seq::<u8>::empty());
        assert(t@.subrange(start as int, dot as int) + Seq::<u8>::empty() =~= t@.subrange(
            start as int,
            dot as int,
        ));
        assert(all_digits(t@.subrange(start as int, dot as int))) by {
            lemma_digit_run_digits(t@.skip(start as int));
            assert(t@.skip(start as int).take(dot - start) =~= t@.subrange(
                start as int,
                dot as int,
            ));
        }
    }
    match int_val {
        Some(v) => {
            acc = v;
        },
        None => {
            over = true;
        },
    }
    loop
        invariant
            n == t@.len(),
            dot + 1 <= j <= t@.len(),
            start <= dot < t@.len(),
            digit_run(t@.skip(dot as int + 1)) == (j - dot - 1) + digit_run(t@.skip(j as int)),
            all_digits(t@.subrange(start as int, dot as int)),
            all_digits(t@.subrange(dot as int + 1, j as int)),
            ({
                let m = t@.subrange(start as int, dot as int) + t@.subrange(
                    dot as int + 1,
                    j as int,
                );
                if over {
                    digits_val(m) > u64::MAX
                } else {
                    digits_val(m) == acc
                }
            }),
        ensures
            dot + 1 <= j <= t@.len(),
            digit_run(t@.skip(dot as int + 1)) == j - dot - 1,
            ({
                let m = t@.subrange(start as int, dot as int) + t@.subrange(
                    dot as int + 1,
                    j as int,
                );
                if over {
                    digits_val(m) > u64::MAX
                } else {
                    acc <= u64::MAX && digits_val(m) == acc
                }
            }),
        decreases t@.len() - j,
    {
        if j == n || !(t[j] >= 48 && t[j] <= 57) {
            proof {
                assert(digit_run(t@.skip(j as int)) == 0);
            }
            break;
        }
        let d: u8 = t[j];
        proof {
            let sj = t@.skip(j as int);
            assert(sj[0] == t@[j as int]);
            assert(sj.skip(1) =~= t@.skip(j as int + 1));
            assert(digit_run(sj) == 1 + digit_run(t@.skip(j as int + 1)));
            let m = t@.subrange(start as int, dot as int) + t@.subrange(dot as int + 1, j as int);
            assert(t@.subrange(start as int, dot as int) + t@.subrange(
                dot as int + 1,
                j as int + 1,
            ) =~= m.push(d));
            lemma_digits_val_push(m, d);
            if over {
                lemma_digits_val_nonneg(m);
            }
        }
        if !over {
            let wide: u128 = (acc as u128) * 10 + ((d - 48) as u128);
            if wide > u64::MAX as u128 {
                over = true;
            } else {
                acc = wide as u64;
            }
        }
        j = j + 1;
    }
    (j, if over {
        None
    } else {
        Some(acc)
    })
}

/// Parse a coordinate token into an exact decimal.
pub fn parse_coord(t: &Vec<u8>) -> (r: Option<Decimal>)
    ensures
        r == spec_parse_coord(t@),
{
    if t.len() == 0 {
        return None;
    }
    let neg = t[0] == 45;
    let start: usize = if neg {
        1
    } else {
        0
    };
    proof {
        if !neg {
            assert(t@.skip(0) =~= t@);
        }
    }
    match parse_unsigned_from(t, start) {
        Some((m, f)) => Some(Decimal { neg, mant: m, frac: f }),
        None => None,
    }
}

/// Parse a flag token into a signed 32-bit integer.
pub fn parse_flag(t: &Vec<u8>) -> (r: Option<i32>)
    ensures
        r == spec_parse_flag(t@),
{
    if t.len() == 0 {
        return None;
    }
    let signed = t[0] == 45 || t[0] == 43;
    let neg = t[0] == 45;
    let start: usize = if signed {
        1
    } else {
        0
    };
    proof {
        if !signed {
            assert(t@.skip(0) =~= t@);
        }
    }
    let ghost body = t@.skip(start as int);
    if start == t.len() {
        return None;
    }
    let (j, val) = scan_digits(t, start, 2147483648);
    proof {
        assert(t@.subrange(start as int, j as int) =~= body.take(j - start));
        lemma_digit_run_le_len(body);
    }
    if j < t.len() {
        proof {
            assert(body[j - start] == t@[j as int]);
        }
        return None;
    }
    proof {
        assert(body.take(j - start) =~= body);
    }
    match val {
        Some(v) => {
            if neg {
                Some((-(v as i64)) as i32)
            } else if v <= 2147483647 {
                Some(v as i32)
            } else {
                None
            }
        },
        None => None,
    }
}

pub proof fn lemma_pow10_increases(i: nat, k: nat)
    requires
        i <= k,
    ensures
        0 < pow10(i) <= pow10(k),
    decreases k,
{
    if k == 0 {
    } else if i == k {
        lemma_pow10_increases((k - 1) as nat, (k - 1) as nat);
    } else {
        lemma_pow10_increases(i, (k - 1) as nat);
    }
}

/// Ten to the `k`th power, within the machine representation.
pub fn pow10_exec(k: u32) -> (r: u64)
    requires
        pow10(k as nat) <= u64::MAX,
    ensures
        r == pow10(k as nat),
{
    let mut i: u32 = 0;
    let mut acc: u64 = 1;
    while i < k
        invariant
            i <= k,
            acc == pow10(i as nat),
            pow10(k as nat) <= u64::MAX,
        decreases k - i,
    {
        proof {
            lemma_pow10_increases((i + 1) as nat, k as nat);
        }
        acc = acc * 10;
        i = i + 1;
    }
    acc
}

/// The fraction length the sum of two decimals carries: the finer of the two.
pub open spec fn add_frac(a: Decimal, b: Decimal) -> u32 {
    if a.frac >= b.frac {
        a.frac
    } else {
        b.frac
    }
}

/// The signed integer value of `d` brought to fraction length `f`.
pub open spec fn signed_scaled(d: Decimal, f: u32) -> int {
    let m = d.mant * pow10((f - d.frac) as nat);
    if d.neg {
        -m
    } else {
        m
    }
}

/// The addition of two decimals stays within the machine representation.
pub open spec fn add_fits(a: Decimal, b: Decimal) -> bool {
    let f = add_frac(a, b);
    a.mant * pow10((f - a.frac) as nat) + b.mant * pow10((f - b.frac) as nat) <= u64::MAX
}

/// The exact sum of two decimals: both are brought to the finer fraction
/// length and their signed values added; an exact zero is not negative.
/// Meaningful when `add_fits(a, b)`.
pub open spec fn spec_add(a: Decimal, b: Decimal) -> Decimal {
    let f = add_frac(a, b);
    let s = signed_scaled(a, f) + signed_scaled(b, f);
    Decimal {
        neg: s < 0,
        mant: (if s < 0 {
            -s
        } else {
            s
        }) as u64,
        frac: f,
    }
}

impl Decimal {
    /// The decimal one, the neutral scale factor.
    pub fn one() -> (r: Decimal)
        ensures
            r == (Decimal { neg: false, mant: 1u64, frac: 0u32 }),
    {
        Decimal { neg: false, mant: 1, frac: 0 }
    }

    /// Exact product; the grammar's decimals form a commutative monoid under it.
    pub fn mul(self, other: Decimal) -> (r: Decimal)
        requires
            mul_fits(self, other),
        ensures
            r == spec_mul(self, other),
    {
        Decimal {
            neg: self.neg != other.neg,
            mant: self.mant * other.mant,
            frac: self.frac + other.frac,
        }
    }

    /// Exact sum, used by translation of absolute coordinates.
    pub fn add(self, other: Decimal) -> (r: Decimal)
        requires
            add_fits(self, other),
        ensures
            r == spec_add(self, other),
    {
        let f: u32 = if self.frac >= other.frac {
            self.frac
        } else {
            other.frac
        };
        proof {
            lemma_pow10_increases(0, (f - self.frac) as nat);
            lemma_pow10_increases(0, (f - other.frac) as nat);
            assert(self.mant * pow10((f - self.frac) as nat) >= 0 && other.mant * pow10(
                (f - other.frac) as nat,
            ) >= 0) by (nonlinear_arith)
                requires
                    self.mant >= 0 && other.mant >= 0 && pow10((f - self.frac) as nat) > 0 && pow10(
                        (f - other.frac) as nat,
                    ) > 0,
            ;
        }
        let am = Decimal::aligned_mant(self, f);
        let bm = Decimal::aligned_mant(other, f);
        let sa: i128 = if self.neg {
            -(am as i128)
        } else {
            am as i128
        };
        let sb: i128 = if other.neg {
            -(bm as i128)
        } else {
            bm as i128
        };
        let s: i128 = sa + sb;
        let neg = s < 0;
        let mag: u64 = if neg {
            (-s) as u64
        } else {
            s as u64
        };
        Decimal { neg, mant: mag, frac: f }
    }

    /// The mantissa of `d` brought to fraction length `f`.
    fn aligned_mant(d: Decimal, f: u32) -> (r: u64)
        requires
            d.frac <= f,
            d.mant * pow10((f - d.frac) as nat) <= u64::MAX,
        ensures
            r == d.mant * pow10((f - d.frac) as nat),
    {
        if d.mant == 0 {
            return 0;
        }
        proof {
            lemma_pow10_increases(0, (f - d.frac) as nat);
            assert(pow10((f - d.frac) as nat) <= d.mant * pow10((f - d.frac) as nat))
                by (nonlinear_arith)
                requires
                    d.mant >= 1,
                    pow10((f - d.frac) as nat) >= 0,
            ;
        }
        let p = pow10_exec(f - d.frac);
        d.mant * p
    }
}

} // verus!
