//! Laws of the transform engine.
//!
//! Facts that hold across the public operations, each proved once and for
//! all inputs they speak of: scaling by one changes nothing, neither
//! transform ever touches a flag, translation never touches a relative
//! coordinate, and two scalings compose into one by the product factor.

use vstd::prelude::*;

use crate::command::CommandParam;
use crate::numeric::Decimal;
use crate::numeric::mul_fits;
use crate::numeric::spec_mul;
use crate::transform::cmd_scale_fits;
use crate::transform::spec_scale_cmd;
use crate::transform::spec_scale_param;
use crate::transform::spec_translate_cmd;
use crate::transform::spec_translate_param;

verus! {

/// Scaling by one is the identity on every command: every coordinate keeps
/// its exact value, and flags are untouched as always.
pub proof fn lemma_scale_one_identity(cv: (Option<char>, Seq<CommandParam>))
    ensures
        spec_scale_cmd(cv, Decimal { neg: false, mant: 1u64, frac: 0u32 }) == cv,
{
    let one = Decimal { neg: false, mant: 1u64, frac: 0u32 };
    assert forall|j: int| 0 <= j < cv.1.len() implies spec_scale_param(#[trigger] cv.1[j], one)
        == cv.1[j] by {
        match cv.1[j] {
            CommandParam::AbsoluteX(d) => {
                assert(spec_mul(d, one) == d);
            },
            CommandParam::AbsoluteY(d) => {
                assert(spec_mul(d, one) == d);
            },
            CommandParam::RelativeX(d) => {
                assert(spec_mul(d, one) == d);
            },
            CommandParam::RelativeY(d) => {
                assert(spec_mul(d, one) == d);
            },
            CommandParam::Flag(_) => {},
        }
    }
    assert(spec_scale_cmd(cv, one).1 =~= cv.1);
}

/// Neither transform ever changes a flag parameter, whatever the factor or
/// offsets.
pub proof fn lemma_flags_untouched(p: CommandParam, f: Decimal, ox: Decimal, oy: Decimal)
    requires
        p matches CommandParam::Flag(_),
    ensures
        spec_scale_param(p, f) == p,
        spec_translate_param(p, ox, oy) == p,
{
}

/// Translation never changes a relative coordinate or a flag, for any
/// offsets: shifting the absolute anchor leaves relative deltas intact.
pub proof fn lemma_translate_preserves_relative(p: CommandParam, ox: Decimal, oy: Decimal)
    requires
        p matches CommandParam::RelativeX(_) || p matches CommandParam::RelativeY(_)
            || p matches CommandParam::Flag(_),
    ensures
        spec_translate_param(p, ox, oy) == p,
{
}

/// Two uniform scalings compose into one by the product of the factors, on
/// every coordinate parameter, whenever the exact arithmetic of both ways
/// stays within the machine representation.
pub proof fn lemma_scale_scale(cv: (Option<char>, Seq<CommandParam>), a: Decimal, b: Decimal)
    requires
        cmd_scale_fits(cv, a),
        cmd_scale_fits(spec_scale_cmd(cv, a), b),
        mul_fits(a, b),
    ensures
        spec_scale_cmd(spec_scale_cmd(cv, a), b) == spec_scale_cmd(cv, spec_mul(a, b)),
{
    let ab = spec_mul(a, b);
    assert forall|j: int| 0 <= j < cv.1.len() implies spec_scale_param(
        spec_scale_param(#[trigger] cv.1[j], a),
        b,
    ) == spec_scale_param(cv.1[j], ab) by {
        assert(spec_scale_cmd(cv, a).1[j] == spec_scale_param(cv.1[j], a));
        match cv.1[j] {
            CommandParam::Flag(_) => {},
            CommandParam::AbsoluteX(d) => {
                lemma_mul_twice(d, a, b);
            },
            CommandParam::AbsoluteY(d) => {
                lemma_mul_twice(d, a, b);
            },
            CommandParam::RelativeX(d) => {
                lemma_mul_twice(d, a, b);
            },
            CommandParam::RelativeY(d) => {
                lemma_mul_twice(d, a, b);
            },
        }
    }
    assert(spec_scale_cmd(spec_scale_cmd(cv, a), b).1 =~= spec_scale_cmd(cv, ab).1);
}

/// Multiplying a decimal by two factors in turn equals multiplying once by
/// their product, whenever every step stays within the machine
/// representation.
pub proof fn lemma_mul_twice(d: Decimal, a: Decimal, b: Decimal)
    requires
        mul_fits(d, a),
        mul_fits(spec_mul(d, a), b),
        mul_fits(a, b),
    ensures
        spec_mul(spec_mul(d, a), b) == spec_mul(d, spec_mul(a, b)),
{
    assert((d.mant * a.mant) * b.mant == d.mant * (a.mant * b.mant)) by (nonlinear_arith);
    assert(d.mant * (a.mant * b.mant) <= u64::MAX);
    assert((d.neg != a.neg) != b.neg == (d.neg != (a.neg != b.neg)));
}

} // verus!
