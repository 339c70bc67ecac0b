//! The typed command model.
//!
//! A parsed instruction is a `Command`: an optional letter (absent for an
//! implicit continuation of the previous letter) and a fixed-arity list of
//! typed parameters. Each parameter's tag records its geometric role, which
//! is what the transforms dispatch on.

use vstd::prelude::*;

use crate::numeric::Decimal;

verus! {

/// The numeric type carried by coordinate parameters.
pub type CoordType = Decimal;

/// The numeric type carried by flag parameters.
pub type FlagType = i32;

/// A typed parameter value: the tag is the parameter's geometric role.
#[derive(Clone, Copy, PartialEq, Eq, Structural, Debug)]
pub enum CommandParam {
    AbsoluteX(CoordType),
    AbsoluteY(CoordType),
    RelativeX(CoordType),
    RelativeY(CoordType),
    Flag(FlagType),
}

/// One parsed instruction. `name` is present when this command began with
/// its own letter token and absent when it reuses the preceding letter.
#[derive(Clone, PartialEq, Debug)]
pub struct Command {
    pub name: Option<char>,
    pub params: Vec<CommandParam>,
}

impl View for Command {
    type V = (Option<char>, Seq<CommandParam>);

    open spec fn view(&self) -> (Option<char>, Seq<CommandParam>) {
        (self.name, self.params@)
    }
}

/// The views of a sequence of commands.
pub open spec fn command_views(s: Seq<Command>) -> Seq<(Option<char>, Seq<CommandParam>)> {
    Seq::new(s.len(), |i: int| s[i]@)
}

} // verus!
