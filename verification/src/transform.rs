//! The transform engine.
//!
//! Two pure operations over a command sequence, dispatching on each
//! parameter's role tag: uniform scaling multiplies every coordinate by the
//! factor, translation shifts only absolute coordinates, and flags are never
//! touched. Arity and tags never change; both operations visit every
//! parameter of every command exactly once.

use vstd::prelude::*;

use crate::command::Command;
use crate::command::CommandParam;
use crate::numeric::Decimal;
use crate::numeric::add_fits;
use crate::numeric::mul_fits;
use crate::numeric::spec_add;
use crate::numeric::spec_mul;

verus! {

/// Scaling one parameter: every coordinate role is multiplied by the
/// factor, a flag is untouched.
pub open spec fn spec_scale_param(p: CommandParam, factor: Decimal) -> CommandParam {
    match p {
        CommandParam::AbsoluteX(d) => CommandParam::AbsoluteX(spec_mul(d, factor)),
        CommandParam::AbsoluteY(d) => CommandParam::AbsoluteY(spec_mul(d, factor)),
        CommandParam::RelativeX(d) => CommandParam::RelativeX(spec_mul(d, factor)),
        CommandParam::RelativeY(d) => CommandParam::RelativeY(spec_mul(d, factor)),
        CommandParam::Flag(v) => CommandParam::Flag(v),
    }
}

/// Scaling one command: the name stays, every parameter is scaled.
pub open spec fn spec_scale_cmd(cv: (Option<char>, Seq<CommandParam>), factor: Decimal) -> (
    Option<char>,
    Seq<CommandParam>,
) {
    (cv.0, cv.1.map(|i: int, p: CommandParam| spec_scale_param(p, factor)))
}

/// The scaling of one parameter stays within the machine representation.
pub open spec fn param_scale_fits(p: CommandParam, factor: Decimal) -> bool {
    match p {
        CommandParam::AbsoluteX(d) => mul_fits(d, factor),
        CommandParam::AbsoluteY(d) => mul_fits(d, factor),
        CommandParam::RelativeX(d) => mul_fits(d, factor),
        CommandParam::RelativeY(d) => mul_fits(d, factor),
        CommandParam::Flag(_) => true,
    }
}

/// The scaling of one command stays within the machine representation.
pub open spec fn cmd_scale_fits(cv: (Option<char>, Seq<CommandParam>), factor: Decimal) -> bool {
    forall|j: int| 0 <= j < cv.1.len() ==> param_scale_fits(#[trigger] cv.1[j], factor)
}

/// Translating one parameter: an absolute X is shifted by `offset_x`, an
/// absolute Y by `offset_y`; relative coordinates and flags are untouched,
/// since shifting an absolute anchor leaves relative deltas unchanged.
pub open spec fn spec_translate_param(
    p: CommandParam,
    offset_x: Decimal,
    offset_y: Decimal,
) -> CommandParam {
    match p {
        CommandParam::AbsoluteX(d) => CommandParam::AbsoluteX(spec_add(d, offset_x)),
        CommandParam::AbsoluteY(d) => CommandParam::AbsoluteY(spec_add(d, offset_y)),
        CommandParam::RelativeX(d) => CommandParam::RelativeX(d),
        CommandParam::RelativeY(d) => CommandParam::RelativeY(d),
        CommandParam::Flag(v) => CommandParam::Flag(v),
    }
}

/// Translating one command: the name stays, every parameter is translated.
pub open spec fn spec_translate_cmd(
    cv: (Option<char>, Seq<CommandParam>),
    offset_x: Decimal,
    offset_y: Decimal,
) -> (Option<char>, Seq<CommandParam>) {
    (cv.0, cv.1.map(|i: int, p: CommandParam| spec_translate_param(p, offset_x, offset_y)))
}

/// The translation of one parameter stays within the machine representation.
pub open spec fn param_translate_fits(
    p: CommandParam,
    offset_x: Decimal,
    offset_y: Decimal,
) -> bool {
    match p {
        CommandParam::AbsoluteX(d) => add_fits(d, offset_x),
        CommandParam::AbsoluteY(d) => add_fits(d, offset_y),
        CommandParam::RelativeX(_) => true,
        CommandParam::RelativeY(_) => true,
        CommandParam::Flag(_) => true,
    }
}

/// The translation of one command stays within the machine representation.
pub open spec fn cmd_translate_fits(
    cv: (Option<char>, Seq<CommandParam>),
    offset_x: Decimal,
    offset_y: Decimal,
) -> bool {
    forall|j: int|
        0 <= j < cv.1.len() ==> param_translate_fits(#[trigger] cv.1[j], offset_x, offset_y)
}

/// Scale every coordinate parameter of every command by `factor`, in place.
/// Flags are untouched; names and arities never change.
#[verifier::loop_isolation(false)]
pub fn scale(commands: &mut Vec<Command>, factor: Decimal)
    requires
        forall|i: int|
            0 <= i < old(commands)@.len() ==> cmd_scale_fits(#[trigger] old(commands)@[i]@, factor),
    ensures
        final(commands)@.len() == old(commands)@.len(),
        forall|i: int|
            0 <= i < old(commands)@.len() ==> #[trigger] final(commands)@[i]@ == spec_scale_cmd(
                old(commands)@[i]@,
                factor,
            ),
{
    let n = commands.len();
    let mut out: Vec<Command> = Vec::new();
    let mut i: usize = 0;
    while i < n
        invariant
            i <= n,
            commands@ == old(commands)@,
            out@.len() == i,
            forall|k: int|
                0 <= k < i ==> #[trigger] out@[k]@ == spec_scale_cmd(commands@[k]@, factor),
        decreases n - i,
    {
        let name = commands[i].name;
        let pm = commands[i].params.len();
        let mut ps: Vec<CommandParam> = Vec::new();
        let mut j: usize = 0;
        while j < pm
            invariant
                i < n,
                commands@ == old(commands)@,
                j <= pm,
                pm == commands@[i as int].params@.len(),
                ps@.len() == j,
                forall|k: int|
                    0 <= k < j ==> #[trigger] ps@[k] == spec_scale_param(
                        commands@[i as int].params@[k],
                        factor,
                    ),
            decreases pm - j,
        {
            let p = commands[i].params[j];
            proof {
                assert(cmd_scale_fits(commands@[i as int]@, factor));
                assert(param_scale_fits(commands@[i as int]@.1[j as int], factor));
            }
            let q = match p {
                CommandParam::AbsoluteX(d) => CommandParam::AbsoluteX(d.mul(factor)),
                CommandParam::AbsoluteY(d) => CommandParam::AbsoluteY(d.mul(factor)),
                CommandParam::RelativeX(d) => CommandParam::RelativeX(d.mul(factor)),
                CommandParam::RelativeY(d) => CommandParam::RelativeY(d.mul(factor)),
                CommandParam::Flag(v) => CommandParam::Flag(v),
            };
            ps.push(q);
            j = j + 1;
        }
        let cmd = Command { name, params: ps };
        proof {
            assert(cmd@.1 =~= spec_scale_cmd(commands@[i as int]@, factor).1);
        }
        out.push(cmd);
        i = i + 1;
    }
    *commands = out;
}

/// Shift every absolute X by `offset_x` and every absolute Y by `offset_y`,
/// in place. Relative coordinates and flags are untouched, for any offsets.
#[verifier::loop_isolation(false)]
pub fn translate(commands: &mut Vec<Command>, offset_x: Decimal, offset_y: Decimal)
    requires
        forall|i: int|
            0 <= i < old(commands)@.len() ==> cmd_translate_fits(
                #[trigger] old(commands)@[i]@,
                offset_x,
                offset_y,
            ),
    ensures
        final(commands)@.len() == old(commands)@.len(),
        forall|i: int|
            0 <= i < old(commands)@.len() ==> #[trigger] final(commands)@[i]@
                == spec_translate_cmd(old(commands)@[i]@, offset_x, offset_y),
{
    let n = commands.len();
    let mut out: Vec<Command> = Vec::new();
    let mut i: usize = 0;
    while i < n
        invariant
            i <= n,
            commands@ == old(commands)@,
            out@.len() == i,
            forall|k: int|
                0 <= k < i ==> #[trigger] out@[k]@ == spec_translate_cmd(
                    commands@[k]@,
                    offset_x,
                    offset_y,
                ),
        decreases n - i,
    {
        let name = commands[i].name;
        let pm = commands[i].params.len();
        let mut ps: Vec<CommandParam> = Vec::new();
        let mut j: usize = 0;
        while j < pm
            invariant
                i < n,
                commands@ == old(commands)@,
                j <= pm,
                pm == commands@[i as int].params@.len(),
                ps@.len() == j,
                forall|k: int|
                    0 <= k < j ==> #[trigger] ps@[k] == spec_translate_param(
                        commands@[i as int].params@[k],
                        offset_x,
                        offset_y,
                    ),
            decreases pm - j,
        {
            let p = commands[i].params[j];
            proof {
                assert(cmd_translate_fits(commands@[i as int]@, offset_x, offset_y));
                assert(param_translate_fits(commands@[i as int]@.1[j as int], offset_x, offset_y));
            }
            let q = match p {
                CommandParam::AbsoluteX(d) => CommandParam::AbsoluteX(d.add(offset_x)),
                CommandParam::AbsoluteY(d) => CommandParam::AbsoluteY(d.add(offset_y)),
                CommandParam::RelativeX(d) => CommandParam::RelativeX(d),
                CommandParam::RelativeY(d) => CommandParam::RelativeY(d),
                CommandParam::Flag(v) => CommandParam::Flag(v),
            };
            ps.push(q);
            j = j + 1;
        }
        let cmd = Command { name, params: ps };
        proof {
            assert(cmd@.1 =~= spec_translate_cmd(commands@[i as int]@, offset_x, offset_y).1);
        }
        out.push(cmd);
        i = i + 1;
    }
    *commands = out;
}

} // verus!
