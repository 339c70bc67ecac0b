//! The parse–serialize round trip.
//!
//! Serializing any parsed command sequence and parsing it again yields the
//! very same commands: the serializer is a right inverse of the parser on
//! everything the parser can produce. The proof goes in three layers: every
//! rendered number re-parses to itself; the scanner cuts a rendered text
//! back into exactly the rendered tokens; and the grammar re-reads those
//! tokens into the original commands.

use vstd::prelude::*;
use vstd::arithmetic::div_mod::lemma_fundamental_div_mod;

use crate::command::CommandParam;
use crate::format::ParamKind;
use crate::format::spec_format;
use crate::numeric::Decimal;
use crate::numeric::all_digits;
use crate::numeric::digit_run;
use crate::numeric::digits_val;
use crate::numeric::is_digit;
use crate::numeric::spec_parse_coord;
use crate::numeric::spec_parse_flag;
use crate::numeric::spec_parse_unsigned;
use crate::parser::GrammarError;
use crate::parser::lemma_spec_params_ok;
use crate::parser::spec_params;
use crate::parser::spec_parse_from;
use crate::parser::spec_parse_param;
use crate::parser::spec_parse_path;
use crate::parser::spec_step;
use crate::render::dec_digits;
use crate::render::render_cmd;
use crate::render::render_cmds;
use crate::render::render_decimal;
use crate::render::render_flag;
use crate::render::render_param;
use crate::render::render_params;
use crate::render::zero_bytes;
use crate::tokenize::is_letter;
use crate::tokenize::spec_token_len;
use crate::tokenize::spec_tokens;

verus! {

/// `c` is an ASCII letter.
pub open spec fn is_ascii_letter(c: char) -> bool {
    (65 <= c as u32 <= 90) || (97 <= c as u32 <= 122)
}

/// The parameter carries exactly the role its format position demands.
pub open spec fn param_matches(p: CommandParam, k: ParamKind) -> bool {
    match p {
        CommandParam::AbsoluteX(_) => k == ParamKind::AbsX,
        CommandParam::AbsoluteY(_) => k == ParamKind::AbsY,
        CommandParam::RelativeX(_) => k == ParamKind::RelX,
        CommandParam::RelativeY(_) => k == ParamKind::RelY,
        CommandParam::Flag(_) => k == ParamKind::Flag,
    }
}

/// The parameter list realises the signature, role by role.
pub open spec fn params_match(ps: Seq<CommandParam>, fmt: Seq<ParamKind>) -> bool {
    ps.len() == fmt.len() && forall|j: int|
        0 <= j < ps.len() ==> param_matches(ps[j], #[trigger] fmt[j])
}

/// The shape every parsed command sequence has, given the letter
/// established before it: names are known letters, parameter lists realise
/// their signatures, a continuation has a preceding letter of nonzero
/// arity, and a zero-arity command clears the letter.
pub open spec fn wf_cmds(cvs: Seq<(Option<char>, Seq<CommandParam>)>, last: Option<char>) -> bool
    decreases cvs.len(),
{
    cvs.len() == 0 || {
        let cv = cvs[0];
        match cv.0 {
            Some(c) => is_ascii_letter(c) && match spec_format(c) {
                None => false,
                Some(fmt) => params_match(cv.1, fmt) && wf_cmds(
                    cvs.skip(1),
                    if fmt.len() == 0 {
                        None
                    } else {
                        Some(c)
                    },
                ),
            },
            None => match last {
                None => false,
                Some(c) => match spec_format(c) {
                    None => false,
                    Some(fmt) => fmt.len() > 0 && params_match(cv.1, fmt) && wf_cmds(
                        cvs.skip(1),
                        Some(c),
                    ),
                },
            },
        }
    }
}

/// The token each parameter serializes to.
pub open spec fn params_tokens(ps: Seq<CommandParam>) -> Seq<Seq<u8>> {
    ps.map(|i: int, p: CommandParam| render_param(p))
}

/// The tokens one command serializes to: its letter, if named, then one
/// token per parameter. A continuation's blank is no token.
pub open spec fn cmd_tokens(cv: (Option<char>, Seq<CommandParam>)) -> Seq<Seq<u8>> {
    match cv.0 {
        Some(c) => seq![seq![c as u8]] + params_tokens(cv.1),
        None => params_tokens(cv.1),
    }
}

/// The tokens a command sequence serializes to.
pub open spec fn cmds_tokens(cvs: Seq<(Option<char>, Seq<CommandParam>)>) -> Seq<Seq<u8>>
    decreases cvs.len(),
{
    if cvs.len() == 0 {
        Seq::empty()
    } else {
        cmd_tokens(cvs[0]) + cmds_tokens(cvs.skip(1))
    }
}

pub proof fn lemma_dec_digits_props(n: int)
    requires
        n >= 0,
    ensures
        all_digits(dec_digits(n)),
        dec_digits(n).len() >= 1,
        digits_val(dec_digits(n)) == n,
        is_digit(dec_digits(n)[0]),
    decreases n,
{
    if n < 10 {
        let s = dec_digits(n);
        assert(s.drop_last() =~= Seq::<u8>::empty());
        assert(s.last() == (n + 48) as u8);
        assert(s.last() - 48 == n);
        assert(digits_val(s) == digits_val(s.drop_last()) * 10 + (s.last() - 48));
    } else {
        lemma_dec_digits_props(n / 10);
        lemma_fundamental_div_mod(n, 10);
        let p = dec_digits(n / 10);
        let b = (n % 10 + 48) as u8;
        assert(p.push(b).drop_last() =~= p);
        assert forall|i: int| 0 <= i < p.push(b).len() implies is_digit(#[trigger] p.push(b)[i]) by {
            if i < p.len() {
                assert(p.push(b)[i] == p[i]);
            }
        }
        assert(dec_digits(n)[0] == p[0]);
    }
}

pub proof fn lemma_digit_run_all(s: Seq<u8>)
    requires
        all_digits(s),
    ensures
        digit_run(s) == s.len(),
    decreases s.len(),
{
    if s.len() > 0 {
        assert(all_digits(s.skip(1)));
        lemma_digit_run_all(s.skip(1));
    }
}

pub proof fn lemma_digit_run_stops(a: Seq<u8>, b: Seq<u8>)
    requires
        all_digits(a),
        b.len() == 0 || !is_digit(b[0]),
    ensures
        digit_run(a + b) == a.len(),
    decreases a.len(),
{
    if a.len() == 0 {
        assert(a + b =~= b);
    } else {
        assert((a + b)[0] == a[0]);
        assert((a + b).skip(1) =~= a.skip(1) + b);
        assert(all_digits(a.skip(1)));
        lemma_digit_run_stops(a.skip(1), b);
    }
}

pub proof fn lemma_zeros_val(z: nat)
    ensures
        digits_val(zero_bytes(z)) == 0,
        all_digits(zero_bytes(z)),
    decreases z,
{
    if z > 0 {
        lemma_zeros_val((z - 1) as nat);
        assert(zero_bytes(z).drop_last() =~= zero_bytes((z - 1) as nat));
        assert(zero_bytes(z).last() == 48);
    }
}

pub proof fn lemma_zeros_prefix_val(z: nat, s: Seq<u8>)
    ensures
        digits_val(zero_bytes(z) + s) == digits_val(s),
    decreases s.len(),
{
    if s.len() == 0 {
        assert(zero_bytes(z) + s =~= zero_bytes(z));
        lemma_zeros_val(z);
    } else {
        assert((zero_bytes(z) + s).drop_last() =~= zero_bytes(z) + s.drop_last());
        assert((zero_bytes(z) + s).last() == s.last());
        lemma_zeros_prefix_val(z, s.drop_last());
    }
}

/// Every rendered decimal parses back to the very same decimal.
pub proof fn lemma_parse_render_decimal(d: Decimal)
    ensures
        spec_parse_coord(render_decimal(d)) == Some(d),
{
    let ds = dec_digits(d.mant as int);
    lemma_dec_digits_props(d.mant as int);
    let padded = if ds.len() > d.frac {
        ds
    } else {
        zero_bytes((d.frac + 1 - ds.len()) as nat) + ds
    };
    assert(all_digits(padded) && digits_val(padded) == d.mant && padded.len() > d.frac) by {
        if ds.len() <= d.frac {
            lemma_zeros_val((d.frac + 1 - ds.len()) as nat);
            lemma_zeros_prefix_val((d.frac + 1 - ds.len()) as nat, ds);
            assert forall|i: int| 0 <= i < padded.len() implies is_digit(#[trigger] padded[i]) by {
                if i < d.frac + 1 - ds.len() {
                    assert(padded[i] == zero_bytes((d.frac + 1 - ds.len()) as nat)[i]);
                } else {
                    assert(padded[i] == ds[i - (d.frac + 1 - ds.len())]);
                }
            }
        }
    }
    let body = if d.frac == 0 {
        padded
    } else {
        padded.take(padded.len() - d.frac) + seq![46u8] + padded.skip(padded.len() - d.frac)
    };
    let t = render_decimal(d);
    // the body parses as the unsigned literal (mant, frac)
    assert(spec_parse_unsigned(body) == Some((d.mant, d.frac)) && body.len() > 0 && is_digit(
        body[0],
    )) by {
        if d.frac == 0 {
            lemma_digit_run_all(body);
            assert(body + Seq::<u8>::empty() =~= body);
        } else {
            let cut = padded.len() - d.frac;
            let ip = padded.take(cut);
            let fp = padded.skip(cut);
            assert(all_digits(ip));
            assert(all_digits(fp));
            assert(body =~= ip + (seq![46u8] + fp));
            lemma_digit_run_stops(ip, seq![46u8] + fp);
            assert(digit_run(body) == cut);
            assert(body[cut] == (seq![46u8] + fp)[0]);
            assert(body[cut] == 46);
            assert(cut < body.len());
            assert(body.skip(cut + 1) =~= fp);
            assert(body.take(cut) =~= ip);
            assert(ip + fp =~= padded);
            assert(body[0] == ip[0] && ip[0] == padded[0]);
        }
    }
    // the optional sign wraps the body
    if d.neg {
        assert(t =~= seq![45u8] + body);
        assert(t[0] == 45);
        assert(t.skip(1) =~= body);
    } else {
        assert(t =~= body);
        assert(t[0] != 45);
    }
}

/// Every rendered flag parses back to the very same flag.
pub proof fn lemma_parse_render_flag(v: i32)
    ensures
        spec_parse_flag(render_flag(v)) == Some(v),
{
    if v < 0 {
        let ds = dec_digits(-(v as int));
        lemma_dec_digits_props(-(v as int));
        lemma_digit_run_all(ds);
        let t = seq![45u8] + ds;
        assert(render_flag(v) =~= t);
        assert(t[0] == 45);
        assert(t.skip(1) =~= ds);
        assert(digits_val(ds) == -(v as int) <= 2147483648);
    } else {
        let ds = dec_digits(v as int);
        lemma_dec_digits_props(v as int);
        lemma_digit_run_all(ds);
        assert(render_flag(v) == ds);
        assert(!(ds[0] == 45 || ds[0] == 43));
        assert(digits_val(ds) == v as int <= 2147483647);
    }
}

/// An ASCII letter survives the trip to its byte and back.
pub proof fn lemma_ascii_letter_byte(c: char)
    requires
        is_ascii_letter(c),
    ensures
        is_letter(c as u8),
        (c as u8) as char == c,
{
    if 65 <= c as u32 <= 90 {
        assert(65 <= c as u8 <= 90);
    } else {
        assert(97 <= c as u8 <= 122);
    }
}

/// A rendered parameter token re-parses, under its own role, to the very
/// same parameter.
pub proof fn lemma_param_token(p: CommandParam, k: ParamKind)
    requires
        param_matches(p, k),
    ensures
        spec_parse_param(render_param(p), k) == Some(p),
{
    match p {
        CommandParam::AbsoluteX(d) => lemma_parse_render_decimal(d),
        CommandParam::AbsoluteY(d) => lemma_parse_render_decimal(d),
        CommandParam::RelativeX(d) => lemma_parse_render_decimal(d),
        CommandParam::RelativeY(d) => lemma_parse_render_decimal(d),
        CommandParam::Flag(v) => lemma_parse_render_flag(v),
    }
}

/// A rendered parameter token is nonempty and starts with a sign or digit,
/// never a letter.
pub proof fn lemma_param_first_byte(p: CommandParam)
    ensures
        render_param(p).len() > 0,
        render_param(p)[0] == 45 || is_digit(render_param(p)[0]),
        !is_letter(render_param(p)[0]),
{
    match p {
        CommandParam::Flag(v) => {
            if v < 0 {
            } else {
                lemma_dec_digits_props(v as int);
            }
        },
        CommandParam::AbsoluteX(d) => lemma_render_decimal_first(d),
        CommandParam::AbsoluteY(d) => lemma_render_decimal_first(d),
        CommandParam::RelativeX(d) => lemma_render_decimal_first(d),
        CommandParam::RelativeY(d) => lemma_render_decimal_first(d),
    }
}

proof fn lemma_render_decimal_first(d: Decimal)
    ensures
        render_decimal(d).len() > 0,
        render_decimal(d)[0] == 45 || is_digit(render_decimal(d)[0]),
{
    lemma_dec_digits_props(d.mant as int);
    let ds = dec_digits(d.mant as int);
    let padded = if ds.len() > d.frac {
        ds
    } else {
        zero_bytes((d.frac + 1 - ds.len()) as nat) + ds
    };
    assert(is_digit(padded[0])) by {
        if ds.len() <= d.frac {
            assert(padded[0] == zero_bytes((d.frac + 1 - ds.len()) as nat)[0]);
        }
    }
    if d.frac != 0 {
        assert(render_decimal(d)[if d.neg {
            1int
        } else {
            0int
        }] == padded.take(padded.len() - d.frac)[0]);
    }
}

/// A successfully parsed parameter group realises its signature.
proof fn lemma_params_match_of_ok(
    ts: Seq<Seq<u8>>,
    start: int,
    fmt: Seq<ParamKind>,
    ps: Seq<CommandParam>,
)
    requires
        spec_params(ts, start, fmt) == Ok::<_, GrammarError>(ps),
    ensures
        params_match(ps, fmt),
    decreases fmt.len(),
{
    if fmt.len() > 0 {
        let p = spec_parse_param(ts[start], fmt[0]).unwrap();
        let rest = spec_params(ts, start + 1, fmt.skip(1)).unwrap();
        lemma_params_match_of_ok(ts, start + 1, fmt.skip(1), rest);
        assert(ps =~= seq![p] + rest);
        assert(param_matches(p, fmt[0])) by {
            match fmt[0] {
                ParamKind::AbsX => {},
                ParamKind::AbsY => {},
                ParamKind::RelX => {},
                ParamKind::RelY => {},
                ParamKind::Flag => {},
            }
        }
        assert forall|j: int| 0 <= j < ps.len() implies param_matches(ps[j], #[trigger] fmt[j]) by {
            if j > 0 {
                assert(ps[j] == rest[j - 1]);
                assert(fmt.skip(1)[j - 1] == fmt[j]);
                assert(param_matches(rest[j - 1], fmt.skip(1)[j - 1]));
            }
        }
    } else {
        assert(ps =~= Seq::<CommandParam>::empty());
    }
}

/// The shape of one accepted grammar step: the command is named exactly
/// when the token at hand is a single letter, and then by that letter; a
/// continuation reuses the letter established before; either way the
/// resolved letter is in the grammar, the parameter list realises its
/// signature role by role, the step consumes the letter token (if any)
/// plus one token per parameter, and the letter it leaves established is
/// the resolved one — cleared by a zero-arity command.
pub proof fn lemma_step_shape(
    tokens: Seq<Seq<u8>>,
    i: int,
    last: Option<char>,
    cv: (Option<char>, Seq<CommandParam>),
    i2: int,
    l2: Option<char>,
)
    requires
        0 <= i,
        spec_step(tokens, i, last) == Ok::<_, GrammarError>(Some((cv, i2, l2))),
    ensures
        i < tokens.len(),
        cv.0 is Some <==> (tokens[i].len() > 0 && is_letter(tokens[i][0])),
        cv.0 matches Some(c) ==> tokens[i].len() == 1 && c == tokens[i][0] as char,
        cv.0 is None ==> last is Some,
        ({
            let c = if cv.0 is Some {
                cv.0.unwrap()
            } else {
                last.unwrap()
            };
            &&& spec_format(c) is Some
            &&& params_match(cv.1, spec_format(c).unwrap())
            &&& i2 == i + (if cv.0 is Some {
                1int
            } else {
                0int
            }) + spec_format(c).unwrap().len()
            &&& l2 == (if spec_format(c).unwrap().len() == 0 {
                None::<char>
            } else {
                Some(c)
            })
        }),
{
    let t = tokens[i];
    if t.len() > 0 && is_letter(t[0]) {
        let c = t[0] as char;
        let fmt = spec_format(c).unwrap();
        if fmt.len() == 0 {
            assert(params_match(cv.1, fmt));
        } else {
            let ps = spec_params(tokens, i + 1, fmt).unwrap();
            lemma_params_match_of_ok(tokens, i + 1, fmt, ps);
        }
    } else {
        let c = last.unwrap();
        let fmt = spec_format(c).unwrap();
        let ps = spec_params(tokens, i, fmt).unwrap();
        lemma_params_match_of_ok(tokens, i, fmt, ps);
    }
}

/// Whatever the parser accepts has the well-formed shape.
pub proof fn lemma_parse_wf(
    ts: Seq<Seq<u8>>,
    i: int,
    last: Option<char>,
    cvs: Seq<(Option<char>, Seq<CommandParam>)>,
)
    requires
        0 <= i,
        spec_parse_from(ts, i, last) == Ok::<_, GrammarError>(cvs),
    ensures
        wf_cmds(cvs, last),
    decreases ts.len() - i,
{
    if i >= ts.len() {
        assert(cvs =~= Seq::<(Option<char>, Seq<CommandParam>)>::empty());
    } else {
        let t = ts[i];
        if t.len() > 0 && is_letter(t[0]) {
            let c = t[0] as char;
            let fmt = spec_format(c).unwrap();
            if fmt.len() == 0 {
                let rest = spec_parse_from(ts, i + 1, None::<char>).unwrap();
                lemma_parse_wf(ts, i + 1, None::<char>, rest);
                assert(cvs =~= seq![(Some(c), Seq::<CommandParam>::empty())] + rest);
                assert(cvs.skip(1) =~= rest);
                assert(params_match(cvs[0].1, fmt));
            } else {
                let ps = spec_params(ts, i + 1, fmt).unwrap();
                lemma_spec_params_ok(ts, i + 1, fmt);
                let rest = spec_parse_from(ts, i + 1 + fmt.len(), Some(c)).unwrap();
                lemma_parse_wf(ts, i + 1 + fmt.len(), Some(c), rest);
                lemma_params_match_of_ok(ts, i + 1, fmt, ps);
                assert(cvs =~= seq![(Some(c), ps)] + rest);
                assert(cvs.skip(1) =~= rest);
            }
        } else {
            let c = last.unwrap();
            let fmt = spec_format(c).unwrap();
            let ps = spec_params(ts, i, fmt).unwrap();
            lemma_spec_params_ok(ts, i, fmt);
            let rest = spec_parse_from(ts, i + fmt.len(), Some(c)).unwrap();
            lemma_parse_wf(ts, i + fmt.len(), Some(c), rest);
            lemma_params_match_of_ok(ts, i, fmt, ps);
            assert(cvs =~= seq![(None::<char>, ps)] + rest);
            assert(cvs.skip(1) =~= rest);
        }
    }
}

/// A parameter group whose tokens are the rendered parameters parses back
/// to exactly those parameters.
proof fn lemma_parse_params_tokens(
    ts: Seq<Seq<u8>>,
    start: int,
    ps: Seq<CommandParam>,
    fmt: Seq<ParamKind>,
)
    requires
        0 <= start,
        start + ps.len() <= ts.len(),
        params_match(ps, fmt),
        forall|j: int| 0 <= j < ps.len() ==> ts[start + j] == render_param(#[trigger] ps[j]),
    ensures
        spec_params(ts, start, fmt) == Ok::<_, GrammarError>(ps),
    decreases fmt.len(),
{
    if fmt.len() == 0 {
        assert(ps =~= Seq::<CommandParam>::empty());
    } else {
        assert(ts[start] == render_param(ps[0]));
        lemma_param_token(ps[0], fmt[0]);
        assert forall|j: int|
            0 <= j < ps.skip(1).len() implies ts[start + 1 + j] == render_param(
            #[trigger] ps.skip(1)[j],
        ) by {
            assert(ps.skip(1)[j] == ps[j + 1]);
            assert(ts[start + 1 + j] == render_param(ps[j + 1]));
        }
        assert forall|j: int|
            0 <= j < ps.skip(1).len() implies param_matches(ps.skip(1)[j], #[trigger] fmt.skip(
            1,
        )[j]) by {
            assert(fmt.skip(1)[j] == fmt[j + 1]);
            assert(param_matches(ps[j + 1], fmt[j + 1]));
        }
        lemma_parse_params_tokens(ts, start + 1, ps.skip(1), fmt.skip(1));
        assert(ps =~= seq![ps[0]] + ps.skip(1));
    }
}

/// The tokens a well-formed command sequence serializes to parse back to
/// exactly that sequence.
pub proof fn lemma_parse_cmds_tokens(
    ts: Seq<Seq<u8>>,
    i: int,
    cvs: Seq<(Option<char>, Seq<CommandParam>)>,
    last: Option<char>,
)
    requires
        0 <= i <= ts.len(),
        ts.skip(i) == cmds_tokens(cvs),
        wf_cmds(cvs, last),
    ensures
        spec_parse_from(ts, i, last) == Ok::<_, GrammarError>(cvs),
    decreases cvs.len(),
{
    if cvs.len() == 0 {
        assert(ts.skip(i).len() == 0);
        assert(cvs =~= Seq::<(Option<char>, Seq<CommandParam>)>::empty());
    } else {
        let cv = cvs[0];
        let ct = cmd_tokens(cv);
        let rest_toks = cmds_tokens(cvs.skip(1));
        assert(ts.skip(i) == ct + rest_toks);
        match cv.0 {
            Some(c) => {
                let fmt = spec_format(c).unwrap();
                assert(ct[0] == seq![c as u8]);
                assert(ts[i] == ts.skip(i)[0]);
                assert(ts[i] == seq![c as u8]);
                assert(is_letter(c as u8));
                assert((c as u8) as char == c);
                if fmt.len() == 0 {
                    assert(cv.1 =~= Seq::<CommandParam>::empty());
                    assert(ts.skip(i + 1) =~= rest_toks) by {
                        assert(params_tokens(cv.1) =~= Seq::<Seq<u8>>::empty());
                        assert(ct.len() == 1);
                        assert(ts.skip(i + 1) =~= ts.skip(i).skip(1));
                    }
                    lemma_parse_cmds_tokens(ts, i + 1, cvs.skip(1), None::<char>);
                    assert(seq![(Some(c), Seq::<CommandParam>::empty())] + cvs.skip(1) =~= cvs);
                } else {
                    assert(ct.len() == 1 + cv.1.len());
                    assert forall|j: int|
                        0 <= j < cv.1.len() implies ts[i + 1 + j] == render_param(
                        #[trigger] cv.1[j],
                    ) by {
                        assert(ts[i + 1 + j] == ts.skip(i)[1 + j]);
                        assert(ts.skip(i)[1 + j] == ct[1 + j]);
                        assert(ct[1 + j] == params_tokens(cv.1)[j]);
                    }
                    lemma_parse_params_tokens(ts, i + 1, cv.1, fmt);
                    assert(ts.skip(i + 1 + fmt.len()) =~= rest_toks) by {
                        assert(ts.skip(i + 1 + fmt.len()) =~= ts.skip(i).skip(1 + fmt.len() as int));
                    }
                    lemma_parse_cmds_tokens(ts, i + 1 + fmt.len(), cvs.skip(1), Some(c));
                    assert(seq![cv] + cvs.skip(1) =~= cvs);
                }
            },
            None => {
                let c = last.unwrap();
                let fmt = spec_format(c).unwrap();
                assert(ct == params_tokens(cv.1));
                assert(cv.1.len() == fmt.len() && fmt.len() > 0);
                assert(ts[i] == ts.skip(i)[0]);
                assert(ts[i] == render_param(cv.1[0])) by {
                    assert(ct[0] == params_tokens(cv.1)[0]);
                }
                lemma_param_first_byte(cv.1[0]);
                assert(ts[i].len() > 0 && !is_letter(ts[i][0]));
                assert forall|j: int|
                    0 <= j < cv.1.len() implies ts[i + j] == render_param(#[trigger] cv.1[j]) by {
                    assert(ts[i + j] == ts.skip(i)[j]);
                    assert(ts.skip(i)[j] == ct[j]);
                }
                lemma_parse_params_tokens(ts, i, cv.1, fmt);
                assert(ts.skip(i + fmt.len()) =~= rest_toks) by {
                    assert(ts.skip(i + fmt.len()) =~= ts.skip(i).skip(fmt.len() as int));
                }
                lemma_parse_cmds_tokens(ts, i + fmt.len(), cvs.skip(1), Some(c));
                assert(seq![cv] + cvs.skip(1) =~= cvs);
            },
        }
    }
}

/// A separator byte starts no token: the scanner skips it.
proof fn lemma_sep_skipped(b: u8, rest: Seq<u8>)
    requires
        b == 32 || b == 10,
    ensures
        spec_tokens(seq![b] + rest) == spec_tokens(rest),
{
    let s = seq![b] + rest;
    assert(s[0] == b);
    assert(spec_token_len(s) == 0);
    assert(s.skip(1) =~= rest);
}

/// A token of exactly the length the scanner cuts is emitted whole.
proof fn lemma_token_cut(tok: Seq<u8>, rest: Seq<u8>)
    requires
        tok.len() > 0,
        spec_token_len(tok + rest) == tok.len(),
    ensures
        spec_tokens(tok + rest) == seq![tok] + spec_tokens(rest),
{
    let s = tok + rest;
    assert(s.take(tok.len() as int) =~= tok);
    assert(s.skip(tok.len() as int) =~= rest);
}

/// Followed by a separator or the end, a rendered decimal is scanned as
/// one token of exactly its own length.
#[verifier::rlimit(80)]
proof fn lemma_render_decimal_token(d: Decimal, rest: Seq<u8>)
    requires
        rest.len() == 0 || rest[0] == 32 || rest[0] == 10,
    ensures
        spec_token_len(render_decimal(d) + rest) == render_decimal(d).len(),
{
    let ds = dec_digits(d.mant as int);
    lemma_dec_digits_props(d.mant as int);
    let padded = if ds.len() > d.frac {
        ds
    } else {
        zero_bytes((d.frac + 1 - ds.len()) as nat) + ds
    };
    assert(all_digits(padded) && padded.len() > d.frac && is_digit(padded[0])) by {
        if ds.len() <= d.frac {
            lemma_zeros_val((d.frac + 1 - ds.len()) as nat);
            assert forall|i: int| 0 <= i < padded.len() implies is_digit(#[trigger] padded[i]) by {
                if i < d.frac + 1 - ds.len() {
                    assert(padded[i] == zero_bytes((d.frac + 1 - ds.len()) as nat)[i]);
                } else {
                    assert(padded[i] == ds[i - (d.frac + 1 - ds.len())]);
                }
            }
        }
    }
    let body = if d.frac == 0 {
        padded
    } else {
        padded.take(padded.len() - d.frac) + seq![46u8] + padded.skip(padded.len() - d.frac)
    };
    let t = render_decimal(d);
    let s = t + rest;
    let k: int = if d.neg {
        1int
    } else {
        0int
    };
    assert(s.skip(k) =~= body + rest);
    let rest1 = body + rest;
    if d.frac == 0 {
        lemma_digit_run_stops(body, rest);
        assert(rest1[0] == body[0]);
        assert(!is_letter(s[0]) && s[0] != 46) by {
            if d.neg {
                assert(s[0] == 45);
            } else {
                assert(s[0] == body[0]);
            }
        }
        assert(digit_run(rest1) == body.len());
        if body.len() < rest1.len() {
            assert(rest1[body.len() as int] == rest[0]);
        }
        assert(spec_token_len(s) == k + body.len());
    } else {
        let cut = padded.len() - d.frac;
        let ip = padded.take(cut);
        let fp = padded.skip(cut);
        assert(all_digits(ip) && all_digits(fp));
        assert(ip.len() == cut >= 1);
        assert(rest1 =~= ip + (seq![46u8] + (fp + rest)));
        lemma_digit_run_stops(ip, seq![46u8] + (fp + rest));
        assert(digit_run(rest1) == cut);
        assert(rest1[0] == ip[0] && ip[0] == padded[0]);
        assert(!is_letter(s[0]) && s[0] != 46) by {
            if d.neg {
                assert(s[0] == 45);
            } else {
                assert(s[0] == rest1[0]);
            }
        }
        assert(rest1[cut] == (seq![46u8] + (fp + rest))[0]);
        assert(rest1.skip(cut + 1) =~= fp + rest);
        lemma_digit_run_stops(fp, rest);
        assert(digit_run(rest1.skip(cut + 1)) == fp.len());
        assert(spec_token_len(s) == k + cut + 1 + fp.len());
        assert(t.len() == k + body.len());
    }
}

/// Followed by a separator or the end, a rendered flag is scanned as one
/// token of exactly its own length.
proof fn lemma_render_flag_token(v: i32, rest: Seq<u8>)
    requires
        rest.len() == 0 || rest[0] == 32 || rest[0] == 10,
    ensures
        spec_token_len(render_flag(v) + rest) == render_flag(v).len(),
{
    let t = render_flag(v);
    let s = t + rest;
    if v < 0 {
        let ds = dec_digits(-(v as int));
        lemma_dec_digits_props(-(v as int));
        assert(s[0] == 45);
        assert(s.skip(1) =~= ds + rest);
        lemma_digit_run_stops(ds, rest);
        assert((ds + rest)[0] == ds[0]);
        if ds.len() < (ds + rest).len() {
            assert((ds + rest)[ds.len() as int] == rest[0]);
        }
        assert(spec_token_len(s) == 1 + ds.len());
    } else {
        let ds = dec_digits(v as int);
        lemma_dec_digits_props(v as int);
        assert(s =~= ds + rest);
        assert(s.skip(0) =~= s);
        lemma_digit_run_stops(ds, rest);
        assert(s[0] == ds[0]);
        if ds.len() < s.len() {
            assert(s[ds.len() as int] == rest[0]);
        }
        assert(spec_token_len(s) == ds.len());
    }
}

/// The space-separated parameter renderings scan back to one token per
/// parameter.
proof fn lemma_params_lex(ps: Seq<CommandParam>, rest: Seq<u8>)
    requires
        rest.len() == 0 || rest[0] == 32 || rest[0] == 10,
    ensures
        spec_tokens(render_params(ps) + rest) == params_tokens(ps) + spec_tokens(rest),
    decreases ps.len(),
{
    if ps.len() == 0 {
        assert(render_params(ps) + rest =~= rest);
        assert(params_tokens(ps) + spec_tokens(rest) =~= spec_tokens(rest));
    } else {
        let rp0 = render_param(ps[0]);
        let tail = render_params(ps.skip(1)) + rest;
        assert(render_params(ps) + rest =~= seq![32u8] + (rp0 + tail));
        assert(tail.len() == 0 || tail[0] == 32 || tail[0] == 10) by {
            if ps.skip(1).len() == 0 {
                assert(tail =~= rest);
            } else {
                assert(tail[0] == render_params(ps.skip(1))[0]);
                assert(render_params(ps.skip(1))[0] == 32);
            }
        }
        match ps[0] {
            CommandParam::AbsoluteX(d) => lemma_render_decimal_token(d, tail),
            CommandParam::AbsoluteY(d) => lemma_render_decimal_token(d, tail),
            CommandParam::RelativeX(d) => lemma_render_decimal_token(d, tail),
            CommandParam::RelativeY(d) => lemma_render_decimal_token(d, tail),
            CommandParam::Flag(v) => lemma_render_flag_token(v, tail),
        }
        lemma_param_first_byte(ps[0]);
        lemma_token_cut(rp0, tail);
        lemma_sep_skipped(32, rp0 + tail);
        lemma_params_lex(ps.skip(1), rest);
        assert(params_tokens(ps) =~= seq![rp0] + params_tokens(ps.skip(1)));
        assert(seq![rp0] + (params_tokens(ps.skip(1)) + spec_tokens(rest)) =~= params_tokens(ps)
            + spec_tokens(rest));
    }
}

/// One rendered command scans back to exactly its tokens.
proof fn lemma_cmd_lex(cv: (Option<char>, Seq<CommandParam>), rest: Seq<u8>)
    requires
        rest.len() == 0 || rest[0] == 32 || rest[0] == 10,
        match cv.0 {
            Some(c) => is_ascii_letter(c),
            None => true,
        },
    ensures
        spec_tokens(render_cmd(cv) + rest) == cmd_tokens(cv) + spec_tokens(rest),
{
    match cv.0 {
        Some(c) => {
            let head = seq![c as u8];
            assert(render_cmd(cv) + rest =~= head + (render_params(cv.1) + rest));
            lemma_ascii_letter_byte(c);
            assert(spec_token_len(head + (render_params(cv.1) + rest)) == 1) by {
                assert((head + (render_params(cv.1) + rest))[0] == c as u8);
            }
            lemma_token_cut(head, render_params(cv.1) + rest);
            lemma_params_lex(cv.1, rest);
            assert(seq![head] + (params_tokens(cv.1) + spec_tokens(rest)) =~= cmd_tokens(cv)
                + spec_tokens(rest));
        },
        None => {
            assert(render_cmd(cv) + rest =~= seq![32u8] + (render_params(cv.1) + rest));
            lemma_sep_skipped(32, render_params(cv.1) + rest);
            lemma_params_lex(cv.1, rest);
        },
    }
}

/// A whole rendered command sequence scans back to exactly its tokens.
pub proof fn lemma_cmds_lex(cvs: Seq<(Option<char>, Seq<CommandParam>)>, last: Option<char>)
    requires
        wf_cmds(cvs, last),
    ensures
        spec_tokens(render_cmds(cvs)) == cmds_tokens(cvs),
    decreases cvs.len(),
{
    if cvs.len() == 0 {
    } else {
        let cv = cvs[0];
        let rest = seq![10u8] + render_cmds(cvs.skip(1));
        assert(render_cmds(cvs) =~= render_cmd(cv) + rest);
        assert(rest[0] == 10);
        lemma_cmd_lex(cv, rest);
        lemma_sep_skipped(10, render_cmds(cvs.skip(1)));
        match cv.0 {
            Some(c) => {
                let fmt = spec_format(c).unwrap();
                if fmt.len() == 0 {
                    lemma_cmds_lex(cvs.skip(1), None::<char>);
                } else {
                    lemma_cmds_lex(cvs.skip(1), Some(c));
                }
            },
            None => {
                lemma_cmds_lex(cvs.skip(1), last);
            },
        }
        assert(cmd_tokens(cv) + cmds_tokens(cvs.skip(1)) =~= cmds_tokens(cvs));
    }
}

/// Round trip: serializing whatever the parser accepted and parsing the
/// text again yields the very same command sequence, with every value
/// numerically identical.
pub proof fn lemma_serialize_parse_round_trip(
    bytes: Seq<u8>,
    cvs: Seq<(Option<char>, Seq<CommandParam>)>,
)
    requires
        spec_parse_path(bytes) == Ok::<_, GrammarError>(cvs),
    ensures
        spec_parse_path(render_cmds(cvs)) == Ok::<_, GrammarError>(cvs),
{
    lemma_parse_wf(spec_tokens(bytes), 0, None::<char>, cvs);
    lemma_cmds_lex(cvs, None::<char>);
    assert(cmds_tokens(cvs).skip(0) =~= cmds_tokens(cvs));
    lemma_parse_cmds_tokens(cmds_tokens(cvs), 0, cvs, None::<char>);
}

} // verus!
