//! The command grammar parser.
//!
//! A pull-based state machine over the token sequence. The state between
//! pulls is the most recently established command letter, which implicit
//! continuations reuse: after a letter's parameter group, further numeric
//! tokens repeat the same letter without naming it. Any grammar violation
//! aborts the whole parse; there is no partial result.

use vstd::prelude::*;
use vstd::string::StrSliceExecFns;
use vstd::string::StringSliceAdditionalSpecFns;

use crate::command::Command;
use crate::command::CommandParam;
use crate::command::command_views;
use crate::format::CommandFormats;
use crate::format::ParamKind;
use crate::format::spec_format;
use crate::numeric::parse_coord;
use crate::numeric::parse_flag;
use crate::numeric::spec_parse_coord;
use crate::numeric::spec_parse_flag;
use crate::tokenize::is_letter;
use crate::tokenize::lemma_tokens_nonempty;
use crate::tokenize::spec_tokens;
use crate::tokenize::tokenize;
use crate::tokenize::views_of;

verus! {

/// A grammar violation; any one aborts the entire parse.
#[derive(Clone, Copy, PartialEq, Eq, Structural, Debug)]
pub enum GrammarError {
    /// A letter token of more than one letter, or a letter outside the grammar.
    InvalidCommandName,
    /// A numeric token with no command letter established before it.
    UnresolvedContinuation,
    /// A zero-parameter command letter reached by continuation.
    UnreusableZeroArityCommand,
    /// A token that cannot be read as the numeric type its role demands.
    ParameterCoercionFailure,
    /// The token stream ends before the arity is satisfied.
    ParameterListTruncated,
}

/// Prepend a command to a parse result, passing an error through.
pub open spec fn cons_ok<T>(c: T, r: Result<Seq<T>, GrammarError>) -> Result<
    Seq<T>,
    GrammarError,
> {
    match r {
        Ok(s) => Ok(seq![c] + s),
        Err(e) => Err(e),
    }
}

/// Append a parse result to already-emitted values, passing an error through.
pub open spec fn join_ok<T>(acc: Seq<T>, r: Result<Seq<T>, GrammarError>) -> Result<
    Seq<T>,
    GrammarError,
> {
    match r {
        Ok(s) => Ok(acc + s),
        Err(e) => Err(e),
    }
}

/// Read one token as the parameter its role demands.
pub open spec fn spec_parse_param(t: Seq<u8>, k: ParamKind) -> Option<CommandParam> {
    match k {
        ParamKind::AbsX => match spec_parse_coord(t) {
            Some(d) => Some(CommandParam::AbsoluteX(d)),
            None => None,
        },
        ParamKind::AbsY => match spec_parse_coord(t) {
            Some(d) => Some(CommandParam::AbsoluteY(d)),
            None => None,
        },
        ParamKind::RelX => match spec_parse_coord(t) {
            Some(d) => Some(CommandParam::RelativeX(d)),
            None => None,
        },
        ParamKind::RelY => match spec_parse_coord(t) {
            Some(d) => Some(CommandParam::RelativeY(d)),
            None => None,
        },
        ParamKind::Flag => match spec_parse_flag(t) {
            Some(v) => Some(CommandParam::Flag(v)),
            None => None,
        },
    }
}

/// Read the parameter group demanded by `fmt` from the tokens at `start`:
/// a token that fails its numeric coercion is reported first, a stream that
/// ends before the arity is satisfied after the present tokens are read.
pub open spec fn spec_params(tokens: Seq<Seq<u8>>, start: int, fmt: Seq<ParamKind>) -> Result<
    Seq<CommandParam>,
    GrammarError,
>
    decreases fmt.len(),
{
    if fmt.len() == 0 {
        Ok(Seq::empty())
    } else if start < 0 || start >= tokens.len() {
        Err(GrammarError::ParameterListTruncated)
    } else {
        match spec_parse_param(tokens[start], fmt[0]) {
            None => Err(GrammarError::ParameterCoercionFailure),
            Some(p) => match spec_params(tokens, start + 1, fmt.skip(1)) {
                Ok(rest) => Ok(seq![p] + rest),
                Err(e) => Err(e),
            },
        }
    }
}

pub proof fn lemma_spec_params_ok(tokens: Seq<Seq<u8>>, start: int, fmt: Seq<ParamKind>)
    ensures
        spec_params(tokens, start, fmt) is Ok ==> fmt.len() == 0 || (0 <= start && start
            + fmt.len() <= tokens.len()),
        spec_params(tokens, start, fmt) matches Ok(ps) ==> ps.len() == fmt.len(),
    decreases fmt.len(),
{
    if fmt.len() > 0 && 0 <= start < tokens.len() {
        lemma_spec_params_ok(tokens, start + 1, fmt.skip(1));
    }
}

/// The commands denoted by the tokens from `i` on, given the letter
/// established before `i` (if any). Mirrors one grammar step: resolve the
/// letter (freshly named or continued), look its signature up, and read the
/// parameter group; a zero-parameter command clears the letter and cannot
/// be continued.
pub open spec fn spec_parse_from(tokens: Seq<Seq<u8>>, i: int, last: Option<char>) -> Result<
    Seq<(Option<char>, Seq<CommandParam>)>,
    GrammarError,
>
    decreases tokens.len() - i,
    via spec_parse_from_dec
{
    if i < 0 {
        Err(GrammarError::InvalidCommandName)
    } else if i >= tokens.len() {
        Ok(Seq::empty())
    } else {
        let t = tokens[i];
        if t.len() > 0 && is_letter(t[0]) {
            if t.len() != 1 {
                Err(GrammarError::InvalidCommandName)
            } else {
                let c = t[0] as char;
                match spec_format(c) {
                    None => Err(GrammarError::InvalidCommandName),
                    Some(fmt) => if fmt.len() == 0 {
                        cons_ok(
                            (Some(c), Seq::empty()),
                            spec_parse_from(tokens, i + 1, None::<char>),
                        )
                    } else {
                        match spec_params(tokens, i + 1, fmt) {
                            Err(e) => Err(e),
                            Ok(ps) => cons_ok(
                                (Some(c), ps),
                                spec_parse_from(tokens, i + 1 + fmt.len(), Some(c)),
                            ),
                        }
                    },
                }
            }
        } else {
            match last {
                None => Err(GrammarError::UnresolvedContinuation),
                Some(c) => match spec_format(c) {
                    None => Err(GrammarError::InvalidCommandName),
                    Some(fmt) => if fmt.len() == 0 {
                        Err(GrammarError::UnreusableZeroArityCommand)
                    } else {
                        match spec_params(tokens, i, fmt) {
                            Err(e) => Err(e),
                            Ok(ps) => cons_ok(
                                (None::<char>, ps),
                                spec_parse_from(tokens, i + fmt.len(), Some(c)),
                            ),
                        }
                    },
                },
            }
        }
    }
}

#[via_fn]
proof fn spec_parse_from_dec(tokens: Seq<Seq<u8>>, i: int, last: Option<char>) {
    if 0 <= i < tokens.len() {
        let t = tokens[i];
        if t.len() > 0 && is_letter(t[0]) {
            if t.len() == 1 {
                let c = t[0] as char;
                match spec_format(c) {
                    None => {},
                    Some(fmt) => {
                        lemma_spec_params_ok(tokens, i + 1, fmt);
                    },
                }
            }
        } else {
            match last {
                None => {},
                Some(c) => match spec_format(c) {
                    None => {},
                    Some(fmt) => {
                        lemma_spec_params_ok(tokens, i, fmt);
                    },
                },
            }
        }
    }
}

/// The commands denoted by a whole path-data text.
pub open spec fn spec_parse_path(bytes: Seq<u8>) -> Result<
    Seq<(Option<char>, Seq<CommandParam>)>,
    GrammarError,
> {
    spec_parse_from(spec_tokens(bytes), 0, None::<char>)
}

/// One grammar step, exactly: the command begun at token `i` under the
/// letter established before it, together with the position just past its
/// tokens and the letter it leaves established — or `Ok(None)` at the end
/// of the tokens, or the grammar error this very step raises.
pub open spec fn spec_step(tokens: Seq<Seq<u8>>, i: int, last: Option<char>) -> Result<
    Option<((Option<char>, Seq<CommandParam>), int, Option<char>)>,
    GrammarError,
> {
    if i < 0 {
        Err(GrammarError::InvalidCommandName)
    } else if i >= tokens.len() {
        Ok(None)
    } else {
        let t = tokens[i];
        if t.len() > 0 && is_letter(t[0]) {
            if t.len() != 1 {
                Err(GrammarError::InvalidCommandName)
            } else {
                let c = t[0] as char;
                match spec_format(c) {
                    None => Err(GrammarError::InvalidCommandName),
                    Some(fmt) => if fmt.len() == 0 {
                        Ok(Some(((Some(c), Seq::empty()), i + 1, None::<char>)))
                    } else {
                        match spec_params(tokens, i + 1, fmt) {
                            Err(e) => Err(e),
                            Ok(ps) => Ok(Some(((Some(c), ps), i + 1 + fmt.len(), Some(c)))),
                        }
                    },
                }
            }
        } else {
            match last {
                None => Err(GrammarError::UnresolvedContinuation),
                Some(c) => match spec_format(c) {
                    None => Err(GrammarError::InvalidCommandName),
                    Some(fmt) => if fmt.len() == 0 {
                        Err(GrammarError::UnreusableZeroArityCommand)
                    } else {
                        match spec_params(tokens, i, fmt) {
                            Err(e) => Err(e),
                            Ok(ps) => Ok(Some(((None::<char>, ps), i + fmt.len(), Some(c)))),
                        }
                    },
                },
            }
        }
    }
}

/// The whole parse from `i` is one step, then the rest from the step's
/// state: the step function and the recursive grammar agree.
pub proof fn lemma_step_parse(tokens: Seq<Seq<u8>>, i: int, last: Option<char>)
    ensures
        spec_parse_from(tokens, i, last) == (match spec_step(tokens, i, last) {
            Err(e) => Err::<Seq<(Option<char>, Seq<CommandParam>)>, GrammarError>(e),
            Ok(None) => Ok::<_, GrammarError>(Seq::<(Option<char>, Seq<CommandParam>)>::empty()),
            Ok(Some((cv, i2, l2))) => cons_ok(cv, spec_parse_from(tokens, i2, l2)),
        }),
{
}

/// Read one token as the parameter its role demands.
fn parse_param(t: &Vec<u8>, k: ParamKind) -> (r: Option<CommandParam>)
    ensures
        r == spec_parse_param(t@, k),
{
    match k {
        ParamKind::AbsX => match parse_coord(t) {
            Some(d) => Some(CommandParam::AbsoluteX(d)),
            None => None,
        },
        ParamKind::AbsY => match parse_coord(t) {
            Some(d) => Some(CommandParam::AbsoluteY(d)),
            None => None,
        },
        ParamKind::RelX => match parse_coord(t) {
            Some(d) => Some(CommandParam::RelativeX(d)),
            None => None,
        },
        ParamKind::RelY => match parse_coord(t) {
            Some(d) => Some(CommandParam::RelativeY(d)),
            None => None,
        },
        ParamKind::Flag => match parse_flag(t) {
            Some(v) => Some(CommandParam::Flag(v)),
            None => None,
        },
    }
}

/// The parser's state between pulls: the tokens, the position, and the most
/// recently established command letter.
pub struct Commands {
    formats: CommandFormats,
    tokens: Vec<Vec<u8>>,
    idx: usize,
    last_name: Option<char>,
}

impl Commands {
    /// The token sequence being parsed.
    pub closed spec fn toks(&self) -> Seq<Seq<u8>> {
        views_of(self.tokens@)
    }

    /// How many tokens have been consumed.
    pub closed spec fn pos(&self) -> int {
        self.idx as int
    }

    /// The most recently established command letter.
    pub closed spec fn last(&self) -> Option<char> {
        self.last_name
    }

    /// The format table is sound, the position is inside the tokens, and
    /// every token is nonempty.
    pub closed spec fn wf(&self) -> bool {
        &&& self.formats.wf()
        &&& 0 <= self.pos() <= self.toks().len()
        &&& forall|i: int| 0 <= i < self.toks().len() ==> (#[trigger] self.toks()[i]).len() > 0
    }

    /// Start a parse over the given text: scan it into tokens, with no
    /// command letter established yet.
    pub fn new(content: &str) -> (r: Commands)
        ensures
            r.wf(),
            r.toks() == spec_tokens(content.spec_bytes()),
            r.pos() == 0,
            r.last() == None::<char>,
    {
        let bytes = content.as_bytes_vec();
        let tokens = tokenize(&bytes);
        proof {
            lemma_tokens_nonempty(bytes@);
        }
        Commands { formats: CommandFormats::new(), tokens, idx: 0, last_name: None }
    }

    /// Pull the next command: `Ok(None)` when the tokens are exhausted,
    /// otherwise exactly the one grammar step `spec_step` describes at the
    /// current state — the emitted command, the position just past its
    /// tokens, the letter it leaves established, and the step's own error
    /// surfaced on this very pull.
    #[verifier::loop_isolation(false)]
    #[verifier::rlimit(60)]
    pub fn next(&mut self) -> (r: Result<Option<Command>, GrammarError>)
        requires
            old(self).wf(),
        ensures
            final(self).wf(),
            final(self).toks() == old(self).toks(),
            match r {
                Ok(Some(cmd)) => {
                    &&& spec_step(old(self).toks(), old(self).pos(), old(self).last())
                        == Ok::<_, GrammarError>(
                        Some((cmd@, final(self).pos(), final(self).last())),
                    )
                    &&& old(self).pos() < final(self).pos()
                },
                Ok(None) => {
                    &&& spec_step(old(self).toks(), old(self).pos(), old(self).last()) == Ok::<
                        Option<((Option<char>, Seq<CommandParam>), int, Option<char>)>,
                        GrammarError,
                    >(None)
                    &&& final(self).pos() == old(self).pos()
                    &&& final(self).last() == old(self).last()
                },
                Err(e) => spec_step(old(self).toks(), old(self).pos(), old(self).last()) == Err::<
                    Option<((Option<char>, Seq<CommandParam>), int, Option<char>)>,
                    _,
                >(e),
            },
    {
        let ghost toks = self.toks();
        let ghost i0 = self.pos();
        let ghost last0 = self.last();
        if self.idx >= self.tokens.len() {
            return Ok(None);
        }
        let i = self.idx;
        let b = self.tokens[i][0];
        proof {
            assert(toks[i as int] == self.tokens@[i as int]@);
        }
        let is_alpha = (b >= 65 && b <= 90) || (b >= 97 && b <= 122);
        let (name, is_new): (char, bool) = if is_alpha {
            if self.tokens[i].len() != 1 {
                return Err(GrammarError::InvalidCommandName);
            }
            let c = b as char;
            self.last_name = Some(c);
            (c, true)
        } else {
            match self.last_name {
                Some(c) => (c, false),
                None => {
                    return Err(GrammarError::UnresolvedContinuation);
                },
            }
        };
        let fmt = match self.formats.get_format_for(name) {
            Some(fmt) => fmt,
            None => {
                return Err(GrammarError::InvalidCommandName);
            },
        };
        if fmt.len() == 0 {
            if !is_new {
                return Err(GrammarError::UnreusableZeroArityCommand);
            }
            self.last_name = None;
            self.idx = i + 1;
            let cmd = Command { name: Some(name), params: Vec::new() };
            proof {
                assert(cmd@.1 =~= Seq::<CommandParam>::empty());
            }
            return Ok(Some(cmd));
        }
        let start = if is_new {
            i + 1
        } else {
            i
        };
        let m = fmt.len();
        let n = self.tokens.len();
        let mut ps: Vec<CommandParam> = Vec::new();
        let mut j: usize = 0;
        proof {
            assert(fmt@.skip(0) =~= fmt@);
            match spec_params(toks, start as int, fmt@) {
                Ok(ps2) => {
                    assert(Seq::<CommandParam>::empty() + ps2 =~= ps2);
                },
                Err(_) => {},
            }
        }
        while j < m
            invariant
                self.wf(),
                0 <= j <= m,
                ps@.len() == j,
                start <= n,
                toks == self.toks(),
                spec_params(toks, start as int, fmt@) == join_ok(
                    ps@,
                    spec_params(toks, start as int + j, fmt@.skip(j as int)),
                ),
            decreases m - j,
        {
            if n - start <= j {
                proof {
                    assert(fmt@.skip(j as int).len() > 0);
                }
                return Err(GrammarError::ParameterListTruncated);
            }
            let tok = &self.tokens[start + j];
            proof {
                assert(toks[start as int + j] == self.tokens@[start as int + j]@);
                assert(fmt@.skip(j as int)[0] == fmt@[j as int]);
            }
            let p = match parse_param(tok, fmt[j]) {
                Some(p) => p,
                None => {
                    return Err(GrammarError::ParameterCoercionFailure);
                },
            };
            proof {
                assert(fmt@.skip(j as int).skip(1) =~= fmt@.skip(j as int + 1));
                match spec_params(toks, start as int + j + 1, fmt@.skip(j as int + 1)) {
                    Ok(rest) => {
                        assert(ps@ + (seq![p] + rest) =~= ps@.push(p) + rest);
                    },
                    Err(e) => {},
                }
            }
            ps.push(p);
            j = j + 1;
        }
        proof {
            assert(fmt@.skip(m as int) =~= Seq::<ParamKind>::empty());
            assert(ps@ + Seq::<CommandParam>::empty() =~= ps@);
            assert(spec_params(toks, start as int, fmt@) == Ok::<_, GrammarError>(ps@));
            lemma_spec_params_ok(toks, start as int, fmt@);
        }
        self.idx = start + m;
        self.last_name = Some(name);
        Ok(
            Some(
                Command {
                    name: if is_new {
                        Some(name)
                    } else {
                        None
                    },
                    params: ps,
                },
            ),
        )
    }
}

/// Parse a whole path-data text into its command sequence, or the first
/// grammar violation, with no partial result.
pub fn parse_commands(content: &str) -> (r: Result<Vec<Command>, GrammarError>)
    ensures
        match r {
            Ok(cmds) => spec_parse_path(content.spec_bytes()) == Ok::<_, GrammarError>(
                command_views(cmds@),
            ),
            Err(e) => spec_parse_path(content.spec_bytes()) == Err::<
                Seq<(Option<char>, Seq<CommandParam>)>,
                _,
            >(e),
        },
{
    let mut cs = Commands::new(content);
    let mut out: Vec<Command> = Vec::new();
    proof {
        match spec_parse_from(cs.toks(), cs.pos(), cs.last()) {
            Ok(s) => {
                assert(command_views(out@) + s =~= s);
            },
            Err(_) => {},
        }
    }
    loop
        invariant
            cs.wf(),
            cs.toks() == spec_tokens(content.spec_bytes()),
            spec_parse_path(content.spec_bytes()) == join_ok(
                command_views(out@),
                spec_parse_from(cs.toks(), cs.pos(), cs.last()),
            ),
        decreases cs.toks().len() + 1 - cs.pos(),
    {
        let ghost t0 = cs.toks();
        let ghost p0 = cs.pos();
        let ghost l0 = cs.last();
        proof {
            lemma_step_parse(t0, p0, l0);
        }
        match cs.next() {
            Ok(Some(cmd)) => {
                proof {
                    match spec_parse_from(cs.toks(), cs.pos(), cs.last()) {
                        Ok(rest) => {
                            assert(command_views(out@) + (seq![cmd@] + rest) =~= command_views(
                                out@.push(cmd),
                            ) + rest);
                        },
                        Err(e) => {},
                    }
                }
                out.push(cmd);
            },
            Ok(None) => {
                proof {
                    assert(command_views(out@) + Seq::<(Option<char>, Seq<CommandParam>)>::empty()
                        =~= command_views(out@));
                }
                return Ok(out);
            },
            Err(e) => {
                return Err(e);
            },
        }
    }
}

} // verus!
