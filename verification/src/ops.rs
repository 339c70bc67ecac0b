//! Operation requests.
//!
//! The interactive collaborator hands the core one request string per step:
//! `x` followed by an optionally signed decimal asks for a scaling, two
//! decimals each with an explicit leading sign ask for a translation. Anything else is
//! rejected before any transform runs. A request whose exact arithmetic
//! would leave the machine representation is rejected whole: the command
//! sequence is never partially transformed.

use vstd::prelude::*;
use vstd::string::StrSliceExecFns;
use vstd::string::StringSliceAdditionalSpecFns;

use crate::command::Command;
use crate::numeric::Decimal;
use crate::numeric::is_digit;
use crate::numeric::lemma_pow10_increases;
use crate::numeric::mul_fits;
use crate::numeric::add_fits;
use crate::numeric::add_frac;
use crate::numeric::parse_unsigned_from;
use crate::numeric::pow10;
use crate::numeric::pow10_exec;
use crate::numeric::spec_parse_unsigned;
use crate::transform::cmd_scale_fits;
use crate::transform::cmd_translate_fits;
use crate::transform::scale;
use crate::transform::spec_scale_cmd;
use crate::transform::spec_translate_cmd;
use crate::transform::translate;
use crate::command::CommandParam;

verus! {

/// A parsed operation request.
#[derive(Clone, Copy, PartialEq, Eq, Structural, Debug)]
pub enum Operation {
    Scale(Decimal),
    Translate(Decimal, Decimal),
}

/// Why a request was rejected.
#[derive(Clone, Copy, PartialEq, Eq, Structural, Debug)]
pub enum OperationError {
    /// The request matches neither trigger pattern.
    UnknownOperation,
    /// The scale trigger matched but its number does not parse.
    InvalidScaleFactor,
    /// The translate trigger matched but its first number does not parse.
    InvalidXOffset,
    /// The translate trigger matched but its second number does not parse.
    InvalidYOffset,
    /// The exact arithmetic would leave the machine representation.
    OutOfRange,
}

/// `b` may appear in a request's number: a digit or the decimal point.
pub open spec fn is_digit_or_dot(b: u8) -> bool {
    is_digit(b) || b == 46
}

/// `b` is an explicit sign.
pub open spec fn is_sign(b: u8) -> bool {
    b == 43 || b == 45
}

/// Length of the run of digit-or-dot bytes at the front of `s`.
pub open spec fn dd_run(s: Seq<u8>) -> int
    decreases s.len(),
{
    if s.len() > 0 && is_digit_or_dot(s[0]) {
        1 + dd_run(s.skip(1))
    } else {
        0
    }
}

/// The operation a request string denotes: `x` then an optionally signed
/// run of digits and dots asks for a scaling; a sign, digits and dots, a
/// second sign, digits and dots asks for a translation; anything else is
/// unknown. A matched trigger whose number is no decimal literal is
/// rejected by that number.
pub open spec fn spec_parse_operation(s: Seq<u8>) -> Result<Operation, OperationError> {
    if s.len() >= 2 && s[0] == 120 && {
        let b: int = if is_sign(s[1]) {
            2int
        } else {
            1int
        };
        b < s.len() && dd_run(s.skip(b)) == s.len() - b
    } {
        let b: int = if is_sign(s[1]) {
            2int
        } else {
            1int
        };
        match spec_parse_unsigned(s.skip(b)) {
            Some((m, f)) => Ok(Operation::Scale(Decimal { neg: s[1] == 45, mant: m, frac: f })),
            None => Err(OperationError::InvalidScaleFactor),
        }
    } else if s.len() >= 1 && is_sign(s[0]) && {
        let q = 1 + dd_run(s.skip(1));
        q >= 2 && q + 1 < s.len() && is_sign(s[q]) && dd_run(s.skip(q + 1)) == s.len() - q - 1
    } {
        let q = 1 + dd_run(s.skip(1));
        match spec_parse_unsigned(s.subrange(1, q)) {
            None => Err(OperationError::InvalidXOffset),
            Some((mx, fx)) => match spec_parse_unsigned(s.skip(q + 1)) {
                None => Err(OperationError::InvalidYOffset),
                Some((my, fy)) => Ok(
                    Operation::Translate(
                        Decimal { neg: s[0] == 45, mant: mx, frac: fx },
                        Decimal { neg: s[q] == 45, mant: my, frac: fy },
                    ),
                ),
            },
        }
    } else {
        Err(OperationError::UnknownOperation)
    }
}

/// Length of the run of digit-or-dot bytes starting at `i`.
fn dd_run_at(t: &Vec<u8>, i: usize) -> (n: usize)
    requires
        i <= t@.len(),
    ensures
        n == dd_run(t@.skip(i as int)),
        i + n <= t@.len(),
{
    let mut j: usize = i;
    loop
        invariant
            i <= j <= t@.len(),
            dd_run(t@.skip(i as int)) == (j - i) + dd_run(t@.skip(j as int)),
        ensures
            i <= j <= t@.len(),
            dd_run(t@.skip(i as int)) == j - i,
        decreases t@.len() - j,
    {
        if j == t.len() || !((t[j] >= 48 && t[j] <= 57) || t[j] == 46) {
            proof {
                assert(dd_run(t@.skip(j as int)) == 0);
            }
            break;
        }
        proof {
            let sj = t@.skip(j as int);
            assert(sj[0] == t@[j as int]);
            assert(sj.skip(1) =~= t@.skip(j as int + 1));
            assert(dd_run(sj) == 1 + dd_run(t@.skip(j as int + 1)));
        }
        j = j + 1;
    }
    j - i
}

/// Parse one request string into the operation it asks for.
#[verifier::loop_isolation(false)]
#[verifier::rlimit(80)]
pub fn parse_operation(op: &str) -> (r: Result<Operation, OperationError>)
    ensures
        r == spec_parse_operation(op.spec_bytes()),
{
    let bytes = op.as_bytes_vec();
    let n = bytes.len();
    if n >= 2 && bytes[0] == 120 {
        let b: usize = if bytes[1] == 43 || bytes[1] == 45 {
            2
        } else {
            1
        };
        if b < n {
            let d = dd_run_at(&bytes, b);
            if d == n - b {
                return match parse_unsigned_from(&bytes, b) {
                    Some((m, f)) => Ok(
                        Operation::Scale(Decimal { neg: bytes[1] == 45, mant: m, frac: f }),
                    ),
                    None => Err(OperationError::InvalidScaleFactor),
                };
            }
        }
    }
    if n >= 1 && (bytes[0] == 43 || bytes[0] == 45) {
        let d1 = dd_run_at(&bytes, 1);
        let q = 1 + d1;
        if q >= 2 && q < n - 1 && (bytes[q] == 43 || bytes[q] == 45) {
            let d2 = dd_run_at(&bytes, q + 1);
            if d2 == n - q - 1 {
                let mut part1: Vec<u8> = Vec::new();
                let mut w: usize = 1;
                proof {
                    assert(part1@ =~= bytes@.subrange(1, 1));
                }
                while w < q
                    invariant
                        1 <= w <= q <= bytes@.len(),
                        part1@ == bytes@.subrange(1, w as int),
                    decreases q - w,
                {
                    part1.push(bytes[w]);
                    w = w + 1;
                    proof {
                        assert(part1@ =~= bytes@.subrange(1, w as int));
                    }
                }
                proof {
                    assert(part1@.skip(0) =~= part1@);
                }
                return match parse_unsigned_from(&part1, 0) {
                    None => Err(OperationError::InvalidXOffset),
                    Some((mx, fx)) => match parse_unsigned_from(&bytes, q + 1) {
                        None => Err(OperationError::InvalidYOffset),
                        Some((my, fy)) => Ok(
                            Operation::Translate(
                                Decimal { neg: bytes[0] == 45, mant: mx, frac: fx },
                                Decimal { neg: bytes[q] == 45, mant: my, frac: fy },
                            ),
                        ),
                    },
                };
            }
        }
    }
    Err(OperationError::UnknownOperation)
}

/// All commands can be scaled by `factor` within the machine representation.
pub open spec fn all_scale_fits(s: Seq<Command>, factor: Decimal) -> bool {
    forall|i: int| 0 <= i < s.len() ==> cmd_scale_fits(#[trigger] s[i]@, factor)
}

/// All commands can be translated within the machine representation.
pub open spec fn all_translate_fits(s: Seq<Command>, ox: Decimal, oy: Decimal) -> bool {
    forall|i: int| 0 <= i < s.len() ==> cmd_translate_fits(#[trigger] s[i]@, ox, oy)
}

proof fn lemma_pow10_20_overflows()
    ensures
        pow10(20) > u64::MAX,
{
    reveal_with_fuel(pow10, 21);
    assert(pow10(20) == 100000000000000000000);
}

proof fn lemma_pow10_19_fits()
    ensures
        pow10(19) <= u64::MAX,
{
    reveal_with_fuel(pow10, 20);
    assert(pow10(19) == 10000000000000000000);
}

/// Whether `mant * pow10(diff)` stays within the machine representation,
/// and its value when it does.
fn aligned_fits(mant: u64, diff: u32) -> (r: Option<u64>)
    ensures
        match r {
            Some(v) => v == mant * pow10(diff as nat),
            None => mant * pow10(diff as nat) > u64::MAX,
        },
{
    if mant == 0 {
        proof {
            assert(0 * pow10(diff as nat) == 0);
        }
        return Some(0);
    }
    if diff > 19 {
        proof {
            lemma_pow10_20_overflows();
            lemma_pow10_increases(20, diff as nat);
            assert(pow10(diff as nat) <= mant * pow10(diff as nat)) by (nonlinear_arith)
                requires
                    mant >= 1,
                    pow10(diff as nat) >= 0,
            ;
        }
        return None;
    }
    proof {
        lemma_pow10_19_fits();
        lemma_pow10_increases(diff as nat, 19);
    }
    let p = pow10_exec(diff);
    proof {
        assert((mant as int) * (p as int) <= 0xffffffffffffffffffffffffffffffffint)
            by (nonlinear_arith)
            requires
                0 <= mant as int <= 0xffffffffffffffffint,
                0 <= p as int <= 0xffffffffffffffffint,
        ;
    }
    let wide: u128 = (mant as u128) * (p as u128);
    if wide > u64::MAX as u128 {
        None
    } else {
        Some(wide as u64)
    }
}

/// Whether scaling `d` by `factor` stays within the machine representation.
fn mul_fits_check(d: Decimal, factor: Decimal) -> (r: bool)
    ensures
        r == mul_fits(d, factor),
{
    proof {
        assert((d.mant as int) * (factor.mant as int) <= 0xffffffffffffffffffffffffffffffffint)
            by (nonlinear_arith)
            requires
                0 <= d.mant as int <= 0xffffffffffffffffint,
                0 <= factor.mant as int <= 0xffffffffffffffffint,
        ;
    }
    let wide: u128 = (d.mant as u128) * (factor.mant as u128);
    wide <= u64::MAX as u128 && d.frac <= u32::MAX - factor.frac
}

/// Whether translating `d` by `off` stays within the machine representation.
fn add_fits_check(d: Decimal, off: Decimal) -> (r: bool)
    ensures
        r == add_fits(d, off),
{
    let f: u32 = if d.frac >= off.frac {
        d.frac
    } else {
        off.frac
    };
    proof {
        assert(f == add_frac(d, off));
    }
    let a = match aligned_fits(d.mant, f - d.frac) {
        Some(a) => a,
        None => {
            proof {
                lemma_pow10_increases(0, (f - off.frac) as nat);
                assert(off.mant * pow10((f - off.frac) as nat) >= 0) by (nonlinear_arith)
                    requires
                        off.mant >= 0,
                        pow10((f - off.frac) as nat) > 0,
                ;
            }
            return false;
        },
    };
    let b = match aligned_fits(off.mant, f - off.frac) {
        Some(b) => b,
        None => {
            proof {
                lemma_pow10_increases(0, (f - d.frac) as nat);
                assert(d.mant * pow10((f - d.frac) as nat) >= 0) by (nonlinear_arith)
                    requires
                        d.mant >= 0,
                        pow10((f - d.frac) as nat) > 0,
                ;
            }
            return false;
        },
    };
    (a as u128) + (b as u128) <= u64::MAX as u128
}

/// Whether every parameter of every command accepts the operation exactly.
#[verifier::loop_isolation(false)]
fn operation_fits(commands: &Vec<Command>, op: Operation) -> (r: bool)
    ensures
        r == match op {
            Operation::Scale(f) => all_scale_fits(commands@, f),
            Operation::Translate(ox, oy) => all_translate_fits(commands@, ox, oy),
        },
{
    let n = commands.len();
    let mut i: usize = 0;
    while i < n
        invariant
            i <= n,
            match op {
                Operation::Scale(f) => forall|k: int|
                    0 <= k < i ==> cmd_scale_fits(#[trigger] commands@[k]@, f),
                Operation::Translate(ox, oy) => forall|k: int|
                    0 <= k < i ==> cmd_translate_fits(#[trigger] commands@[k]@, ox, oy),
            },
        decreases n - i,
    {
        let pm = commands[i].params.len();
        let mut j: usize = 0;
        while j < pm
            invariant
                i < n,
                j <= pm,
                pm == commands@[i as int].params@.len(),
                match op {
                    Operation::Scale(f) => forall|k: int|
                        0 <= k < j ==> crate::transform::param_scale_fits(
                            #[trigger] commands@[i as int].params@[k],
                            f,
                        ),
                    Operation::Translate(ox, oy) => forall|k: int|
                        0 <= k < j ==> crate::transform::param_translate_fits(
                            #[trigger] commands@[i as int].params@[k],
                            ox,
                            oy,
                        ),
                },
            decreases pm - j,
        {
            let p = commands[i].params[j];
            let ok = match op {
                Operation::Scale(f) => match p {
                    CommandParam::AbsoluteX(d) => mul_fits_check(d, f),
                    CommandParam::AbsoluteY(d) => mul_fits_check(d, f),
                    CommandParam::RelativeX(d) => mul_fits_check(d, f),
                    CommandParam::RelativeY(d) => mul_fits_check(d, f),
                    CommandParam::Flag(_) => true,
                },
                Operation::Translate(ox, oy) => match p {
                    CommandParam::AbsoluteX(d) => add_fits_check(d, ox),
                    CommandParam::AbsoluteY(d) => add_fits_check(d, oy),
                    CommandParam::RelativeX(_) => true,
                    CommandParam::RelativeY(_) => true,
                    CommandParam::Flag(_) => true,
                },
            };
            if !ok {
                proof {
                    match op {
                        Operation::Scale(f) => {
                            assert(commands@[i as int]@.1[j as int] == p);
                            assert(!cmd_scale_fits(commands@[i as int]@, f));
                        },
                        Operation::Translate(ox, oy) => {
                            assert(commands@[i as int]@.1[j as int] == p);
                            assert(!cmd_translate_fits(commands@[i as int]@, ox, oy));
                        },
                    }
                }
                return false;
            }
            j = j + 1;
        }
        i = i + 1;
    }
    true
}

/// Parse one request and apply it to the command sequence: scale or
/// translate it in place; on any rejection the sequence is unchanged.
pub fn handle_operation(commands: &mut Vec<Command>, op: &str) -> (r: Result<(), OperationError>)
    ensures
        match spec_parse_operation(op.spec_bytes()) {
            Err(e) => r == Err::<(), _>(e) && final(commands)@ == old(commands)@,
            Ok(o) => match o {
                Operation::Scale(f) => if all_scale_fits(old(commands)@, f) {
                    &&& r == Ok::<(), OperationError>(())
                    &&& final(commands)@.len() == old(commands)@.len()
                    &&& forall|i: int|
                        0 <= i < old(commands)@.len() ==> #[trigger] final(commands)@[i]@
                            == spec_scale_cmd(old(commands)@[i]@, f)
                } else {
                    r == Err::<(), _>(OperationError::OutOfRange) && final(commands)@ == old(
                        commands,
                    )@
                },
                Operation::Translate(ox, oy) => if all_translate_fits(old(commands)@, ox, oy) {
                    &&& r == Ok::<(), OperationError>(())
                    &&& final(commands)@.len() == old(commands)@.len()
                    &&& forall|i: int|
                        0 <= i < old(commands)@.len() ==> #[trigger] final(commands)@[i]@
                            == spec_translate_cmd(old(commands)@[i]@, ox, oy)
                } else {
                    r == Err::<(), _>(OperationError::OutOfRange) && final(commands)@ == old(
                        commands,
                    )@
                },
            },
        },
{
    let o = match parse_operation(op) {
        Ok(o) => o,
        Err(e) => {
            return Err(e);
        },
    };
    if !operation_fits(commands, o) {
        return Err(OperationError::OutOfRange);
    }
    match o {
        Operation::Scale(f) => scale(commands, f),
        Operation::Translate(ox, oy) => translate(commands, ox, oy),
    }
    Ok(())
}

} // verus!
