//! The serializer.
//!
//! A command renders as its letter — or a single blank for a continuation —
//! followed by one space-separated textual value per parameter; a command
//! sequence renders one command per line. A decimal renders its mantissa
//! digits with the decimal point placed `frac` digits from the right, padded
//! with leading zeros when the mantissa is shorter than the fraction.

use vstd::prelude::*;

use crate::command::Command;
use crate::command::CommandParam;
use crate::command::command_views;
use crate::numeric::Decimal;

verus! {

/// The decimal digit string of `n`, most significant digit first, no
/// leading zeros (a lone zero for 0). Meaningful for `n >= 0`.
pub open spec fn dec_digits(n: int) -> Seq<u8>
    decreases n,
{
    if n < 10 {
        seq![(n + 48) as u8]
    } else {
        dec_digits(n / 10).push((n % 10 + 48) as u8)
    }
}

/// `n` zero digits.
pub open spec fn zero_bytes(n: nat) -> Seq<u8> {
    Seq::new(n, |i: int| 48u8)
}

/// The textual form of a decimal: optional minus sign, then the mantissa
/// digits with the decimal point `frac` digits from the right; a mantissa
/// shorter than that is padded with leading zeros, so the integer part is
/// never empty.
pub open spec fn render_decimal(d: Decimal) -> Seq<u8> {
    let ds = dec_digits(d.mant as int);
    let padded = if ds.len() > d.frac {
        ds
    } else {
        zero_bytes((d.frac + 1 - ds.len()) as nat) + ds
    };
    let body = if d.frac == 0 {
        padded
    } else {
        padded.take(padded.len() - d.frac) + seq![46u8] + padded.skip(padded.len() - d.frac)
    };
    if d.neg {
        seq![45u8] + body
    } else {
        body
    }
}

/// The textual form of a flag: optional minus sign, then digits.
pub open spec fn render_flag(v: i32) -> Seq<u8> {
    if v < 0 {
        seq![45u8] + dec_digits(-(v as int))
    } else {
        dec_digits(v as int)
    }
}

/// The textual form of one parameter value.
pub open spec fn render_param(p: CommandParam) -> Seq<u8> {
    match p {
        CommandParam::AbsoluteX(d) => render_decimal(d),
        CommandParam::AbsoluteY(d) => render_decimal(d),
        CommandParam::RelativeX(d) => render_decimal(d),
        CommandParam::RelativeY(d) => render_decimal(d),
        CommandParam::Flag(v) => render_flag(v),
    }
}

/// Each parameter preceded by one space.
pub open spec fn render_params(ps: Seq<CommandParam>) -> Seq<u8>
    decreases ps.len(),
{
    if ps.len() == 0 {
        Seq::empty()
    } else {
        seq![32u8] + render_param(ps[0]) + render_params(ps.skip(1))
    }
}

/// The letter, or a single blank for a continuation, then the parameters.
pub open spec fn render_cmd(cv: (Option<char>, Seq<CommandParam>)) -> Seq<u8> {
    let head = match cv.0 {
        Some(c) => seq![c as u8],
        None => seq![32u8],
    };
    head + render_params(cv.1)
}

/// One command per line.
pub open spec fn render_cmds(cvs: Seq<(Option<char>, Seq<CommandParam>)>) -> Seq<u8>
    decreases cvs.len(),
{
    if cvs.len() == 0 {
        Seq::empty()
    } else {
        render_cmd(cvs[0]) + seq![10u8] + render_cmds(cvs.skip(1))
    }
}

pub proof fn lemma_render_params_snoc(s: Seq<CommandParam>, j: int)
    requires
        0 <= j < s.len(),
    ensures
        render_params(s.take(j + 1)) == render_params(s.take(j)) + seq![32u8] + render_param(s[j]),
    decreases j,
{
    if j == 0 {
        assert(s.take(1)[0] == s[0]);
        assert(s.take(1).skip(1) =~= Seq::<CommandParam>::empty());
        assert(s.take(0) =~= Seq::<CommandParam>::empty());
        assert(render_params(s.take(1)) =~= render_params(s.take(0)) + seq![32u8] + render_param(
            s[0],
        ));
    } else {
        lemma_render_params_snoc(s.skip(1), j - 1);
        assert(s.take(j + 1).skip(1) =~= s.skip(1).take(j));
        assert(s.take(j).skip(1) =~= s.skip(1).take(j - 1));
        assert(s.take(j + 1)[0] == s[0]);
        assert(s.take(j)[0] == s[0]);
        assert(s.skip(1)[j - 1] == s[j]);
        assert(render_params(s.take(j + 1)) =~= render_params(s.take(j)) + seq![32u8]
            + render_param(s[j]));
    }
}

pub proof fn lemma_render_cmds_snoc(s: Seq<(Option<char>, Seq<CommandParam>)>, j: int)
    requires
        0 <= j < s.len(),
    ensures
        render_cmds(s.take(j + 1)) == render_cmds(s.take(j)) + render_cmd(s[j]) + seq![10u8],
    decreases j,
{
    if j == 0 {
        assert(s.take(1)[0] == s[0]);
        assert(s.take(1).skip(1) =~= Seq::<(Option<char>, Seq<CommandParam>)>::empty());
        assert(s.take(0) =~= Seq::<(Option<char>, Seq<CommandParam>)>::empty());
        assert(render_cmds(s.take(1)) =~= render_cmds(s.take(0)) + render_cmd(s[0]) + seq![10u8]);
    } else {
        lemma_render_cmds_snoc(s.skip(1), j - 1);
        assert(s.take(j + 1).skip(1) =~= s.skip(1).take(j));
        assert(s.take(j).skip(1) =~= s.skip(1).take(j - 1));
        assert(s.take(j + 1)[0] == s[0]);
        assert(s.take(j)[0] == s[0]);
        assert(s.skip(1)[j - 1] == s[j]);
        assert(render_cmds(s.take(j + 1)) =~= render_cmds(s.take(j)) + render_cmd(s[j])
            + seq![10u8]);
    }
}

/// Append the decimal digits of `n`.
fn push_dec_digits(n: u64, out: &mut Vec<u8>)
    ensures
        final(out)@ == old(out)@ + dec_digits(n as int),
    decreases n,
{
    if n < 10 {
        out.push((n as u8) + 48);
        proof {
            assert(final(out)@ =~= old(out)@ + dec_digits(n as int));
        }
    } else {
        push_dec_digits(n / 10, out);
        out.push(((n % 10) as u8) + 48);
        proof {
            assert(final(out)@ =~= old(out)@ + dec_digits(n as int));
        }
    }
}

/// Append the textual form of a decimal.
#[verifier::loop_isolation(false)]
#[verifier::rlimit(80)]
fn push_decimal(d: Decimal, out: &mut Vec<u8>)
    ensures
        final(out)@ == old(out)@ + render_decimal(d),
{
    let mut digs: Vec<u8> = Vec::new();
    push_dec_digits(d.mant, &mut digs);
    proof {
        assert(digs@ =~= dec_digits(d.mant as int));
    }
    if d.neg {
        out.push(45);
    }
    let ghost mid = out@;
    let dn = digs.len();
    if d.frac == 0 {
        let mut q: usize = 0;
        while q < dn
            invariant
                q <= dn,
                out@ == mid + digs@.take(q as int),
            decreases dn - q,
        {
            out.push(digs[q]);
            proof {
                assert(out@ =~= mid + digs@.take(q as int + 1));
            }
            q = q + 1;
        }
        proof {
            assert(digs@.take(dn as int) =~= digs@);
            assert(out@ =~= old(out)@ + render_decimal(d));
        }
    } else if dn > d.frac as usize {
        let cut = dn - d.frac as usize;
        let mut q: usize = 0;
        while q < dn
            invariant
                q <= dn,
                q <= cut ==> out@ == mid + digs@.take(q as int),
                q > cut ==> out@ == mid + digs@.take(cut as int) + seq![46u8] + digs@.subrange(
                    cut as int,
                    q as int,
                ),
            decreases dn - q,
        {
            if q == cut {
                out.push(46);
                proof {
                    assert(out@ =~= mid + digs@.take(cut as int) + seq![46u8] + digs@.subrange(
                        cut as int,
                        cut as int,
                    ));
                }
            }
            out.push(digs[q]);
            proof {
                if q < cut {
                    assert(out@ =~= mid + digs@.take(q as int + 1));
                } else {
                    assert(out@ =~= mid + digs@.take(cut as int) + seq![46u8] + digs@.subrange(
                        cut as int,
                        q as int + 1,
                    ));
                }
            }
            q = q + 1;
        }
        proof {
            assert(digs@.take(cut as int) =~= digs@.take(digs@.len() - d.frac));
            assert(digs@.subrange(cut as int, dn as int) =~= digs@.skip(digs@.len() - d.frac));
            assert(out@ =~= old(out)@ + render_decimal(d));
        }
    } else {
        // mantissa no longer than the fraction: pad with leading zeros
        out.push(48);
        out.push(46);
        let pad = d.frac as usize - dn;
        let mut z: usize = 0;
        let ghost mid2 = out@;
        while z < pad
            invariant
                z <= pad,
                out@ == mid2 + zero_bytes(z as nat),
            decreases pad - z,
        {
            out.push(48);
            proof {
                assert(out@ =~= mid2 + zero_bytes(z as nat + 1));
            }
            z = z + 1;
        }
        let ghost mid3 = out@;
        let mut q: usize = 0;
        while q < dn
            invariant
                q <= dn,
                out@ == mid3 + digs@.take(q as int),
            decreases dn - q,
        {
            out.push(digs[q]);
            proof {
                assert(out@ =~= mid3 + digs@.take(q as int + 1));
            }
            q = q + 1;
        }
        proof {
            let ds = dec_digits(d.mant as int);
            let padded = zero_bytes((d.frac + 1 - ds.len()) as nat) + ds;
            assert(padded.take(padded.len() - d.frac) =~= seq![48u8]);
            assert(padded.skip(padded.len() - d.frac) =~= zero_bytes(pad as nat) + ds);
            assert(digs@.take(dn as int) =~= digs@);
            assert(out@ =~= old(out)@ + render_decimal(d));
        }
    }
}

/// Append the textual form of a flag.
fn push_flag(v: i32, out: &mut Vec<u8>)
    ensures
        final(out)@ == old(out)@ + render_flag(v),
{
    if v < 0 {
        out.push(45);
        let mag: u64 = (-(v as i64)) as u64;
        push_dec_digits(mag, out);
        proof {
            assert(final(out)@ =~= old(out)@ + render_flag(v));
        }
    } else {
        push_dec_digits(v as u64, out);
        proof {
            assert(final(out)@ =~= old(out)@ + render_flag(v));
        }
    }
}

/// Append the textual form of one parameter.
fn push_param(p: CommandParam, out: &mut Vec<u8>)
    ensures
        final(out)@ == old(out)@ + render_param(p),
{
    match p {
        CommandParam::AbsoluteX(d) => push_decimal(d, out),
        CommandParam::AbsoluteY(d) => push_decimal(d, out),
        CommandParam::RelativeX(d) => push_decimal(d, out),
        CommandParam::RelativeY(d) => push_decimal(d, out),
        CommandParam::Flag(v) => push_flag(v, out),
    }
}

impl Command {
    /// The textual form of this command: its letter or a blank, then one
    /// space-separated value per parameter.
    #[verifier::loop_isolation(false)]
    pub fn render(&self) -> (r: Vec<u8>)
        ensures
            r@ == render_cmd(self@),
    {
        let mut out: Vec<u8> = Vec::new();
        match self.name {
            Some(c) => out.push(c as u8),
            None => out.push(32),
        }
        let ghost head = out@;
        proof {
            assert(self.params@.take(0) =~= Seq::<CommandParam>::empty());
            assert(out@ =~= head + render_params(self.params@.take(0)));
        }
        let pm = self.params.len();
        let mut j: usize = 0;
        while j < pm
            invariant
                j <= pm,
                out@ == head + render_params(self.params@.take(j as int)),
            decreases pm - j,
        {
            out.push(32);
            push_param(self.params[j], &mut out);
            proof {
                lemma_render_params_snoc(self.params@, j as int);
                assert(out@ =~= head + render_params(self.params@.take(j as int + 1)));
            }
            j = j + 1;
        }
        proof {
            assert(self.params@.take(pm as int) =~= self.params@);
            assert(out@ =~= render_cmd(self@));
        }
        out
    }
}

/// The textual form of a whole command sequence, one command per line.
#[verifier::loop_isolation(false)]
pub fn serialize(commands: &Vec<Command>) -> (r: Vec<u8>)
    ensures
        r@ == render_cmds(command_views(commands@)),
{
    let ghost cvs = command_views(commands@);
    let mut out: Vec<u8> = Vec::new();
    proof {
        assert(cvs.take(0) =~= Seq::<(Option<char>, Seq<CommandParam>)>::empty());
        assert(out@ =~= render_cmds(cvs.take(0)));
    }
    let n = commands.len();
    let mut i: usize = 0;
    while i < n
        invariant
            i <= n,
            out@ == render_cmds(cvs.take(i as int)),
        decreases n - i,
    {
        let line = commands[i].render();
        let lm = line.len();
        let ghost pre = out@;
        let mut q: usize = 0;
        while q < lm
            invariant
                q <= lm,
                out@ == pre + line@.take(q as int),
            decreases lm - q,
        {
            out.push(line[q]);
            proof {
                assert(out@ =~= pre + line@.take(q as int + 1));
            }
            q = q + 1;
        }
        out.push(10);
        proof {
            lemma_render_cmds_snoc(cvs, i as int);
            assert(line@.take(lm as int) =~= line@);
            assert(cvs[i as int] == commands@[i as int]@);
            assert(out@ =~= render_cmds(cvs.take(i as int + 1)));
        }
        i = i + 1;
    }
    proof {
        assert(cvs.take(n as int) =~= cvs);
    }
    out
}

} // verus!
