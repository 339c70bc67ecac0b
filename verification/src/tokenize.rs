//! Lexical scanner for path data.
//!
//! A token is either a single ASCII letter or a decimal literal: an optional
//! minus sign, then digits with an optional fraction part, where the literal
//! may also begin directly with the decimal point. At each position the
//! earliest applicable form is taken, greedily; a byte that starts no token
//! (whitespace, commas, stray signs) is skipped silently, as separators carry
//! no meaning in this grammar.

use vstd::prelude::*;

use crate::numeric::digit_run;
use crate::numeric::is_digit;
use crate::numeric::lemma_digit_run_le_len;

verus! {

/// `b` is an ASCII letter.
pub open spec fn is_letter(b: u8) -> bool {
    (65 <= b <= 90) || (97 <= b <= 122)
}

/// Length of the token starting exactly at the front of `s`, or 0 when no
/// token starts there. A letter is a one-byte token; otherwise an optional
/// minus sign is followed either by `.digits` or by `digits` with an
/// optional `.` and further digits, all taken greedily.
pub open spec fn spec_token_len(s: Seq<u8>) -> int {
    if s.len() == 0 {
        0
    } else if is_letter(s[0]) {
        1
    } else {
        let k: int = if s[0] == 45 {
            1int
        } else {
            0int
        };
        let rest = s.skip(k);
        if rest.len() > 0 && rest[0] == 46 {
            let d = digit_run(rest.skip(1));
            if d > 0 {
                k + 1 + d
            } else {
                0
            }
        } else {
            let d = digit_run(rest);
            if d > 0 {
                if d < rest.len() && rest[d] == 46 {
                    k + d + 1 + digit_run(rest.skip(d + 1))
                } else {
                    k + d
                }
            } else {
                0
            }
        }
    }
}

pub proof fn lemma_token_len_bounds(s: Seq<u8>)
    ensures
        0 <= spec_token_len(s) <= s.len(),
{
    if s.len() > 0 && !is_letter(s[0]) {
        let k: int = if s[0] == 45 {
            1int
        } else {
            0int
        };
        let rest = s.skip(k);
        if rest.len() > 0 && rest[0] == 46 {
            lemma_digit_run_le_len(rest.skip(1));
        } else {
            lemma_digit_run_le_len(rest);
            let d = digit_run(rest);
            if d > 0 && d < rest.len() && rest[d] == 46 {
                lemma_digit_run_le_len(rest.skip(d + 1));
            }
        }
    }
}

/// The token sequence of `s`: at each position, emit the token starting
/// there and move past it, or skip one byte when no token starts there.
pub open spec fn spec_tokens(s: Seq<u8>) -> Seq<Seq<u8>>
    decreases s.len(),
    via spec_tokens_dec
{
    if s.len() == 0 {
        Seq::empty()
    } else {
        let l = spec_token_len(s);
        if l == 0 {
            spec_tokens(s.skip(1))
        } else {
            seq![s.take(l)] + spec_tokens(s.skip(l))
        }
    }
}

#[via_fn]
proof fn spec_tokens_dec(s: Seq<u8>) {
    lemma_token_len_bounds(s);
}

/// Every token the scanner emits is nonempty.
pub proof fn lemma_tokens_nonempty(s: Seq<u8>)
    ensures
        forall|i: int| 0 <= i < spec_tokens(s).len() ==> (#[trigger] spec_tokens(s)[i]).len() > 0,
    decreases s.len(),
{
    lemma_token_len_bounds(s);
    if s.len() > 0 {
        let l = spec_token_len(s);
        if l == 0 {
            lemma_tokens_nonempty(s.skip(1));
            assert forall|i: int| 0 <= i < spec_tokens(s).len() implies (#[trigger] spec_tokens(
                s,
            )[i]).len() > 0 by {
                assert(spec_tokens(s)[i] == spec_tokens(s.skip(1))[i]);
            }
        } else {
            lemma_tokens_nonempty(s.skip(l));
            assert forall|i: int| 0 <= i < spec_tokens(s).len() implies (#[trigger] spec_tokens(
                s,
            )[i]).len() > 0 by {
                if i == 0 {
                    assert(spec_tokens(s)[i] == s.take(l));
                } else {
                    assert(spec_tokens(s)[i] == spec_tokens(s.skip(l))[i - 1]);
                }
            }
        }
    }
}

/// The views of a sequence of byte vectors.
pub open spec fn views_of(ts: Seq<Vec<u8>>) -> Seq<Seq<u8>> {
    Seq::new(ts.len(), |i: int| ts[i]@)
}

/// Length of the run of digits starting at `i`.
fn digit_run_at(t: &Vec<u8>, i: usize) -> (n: usize)
    requires
        i <= t@.len(),
    ensures
        n == digit_run(t@.skip(i as int)),
        i + n <= t@.len(),
{
    let mut j: usize = i;
    loop
        invariant
            i <= j <= t@.len(),
            digit_run(t@.skip(i as int)) == (j - i) + digit_run(t@.skip(j as int)),
        ensures
            i <= j <= t@.len(),
            digit_run(t@.skip(i as int)) == j - i,
        decreases t@.len() - j,
    {
        if j == t.len() || !(t[j] >= 48 && t[j] <= 57) {
            proof {
                assert(digit_run(t@.skip(j as int)) == 0);
            }
            break;
        }
        proof {
            let sj = t@.skip(j as int);
            assert(sj[0] == t@[j as int]);
            assert(sj.skip(1) =~= t@.skip(j as int + 1));
            assert(digit_run(sj) == 1 + digit_run(t@.skip(j as int + 1)));
        }
        j = j + 1;
    }
    j - i
}

/// Length of the token starting at `i`, or 0 when none starts there.
fn token_len_at(t: &Vec<u8>, i: usize) -> (l: usize)
    requires
        i <= t@.len(),
    ensures
        l == spec_token_len(t@.skip(i as int)),
        i + l <= t@.len(),
{
    let ghost s = t@.skip(i as int);
    proof {
        lemma_token_len_bounds(s);
    }
    if i == t.len() {
        return 0;
    }
    let b = t[i];
    proof {
        assert(s[0] == b);
    }
    if (b >= 65 && b <= 90) || (b >= 97 && b <= 122) {
        return 1;
    }
    let k: usize = if b == 45 {
        1
    } else {
        0
    };
    let ghost rest = s.skip(k as int);
    proof {
        assert(rest =~= t@.skip(i as int + k as int));
    }
    if i + k < t.len() && t[i + k] == 46 {
        proof {
            assert(rest[0] == t@[i as int + k as int]);
        }
        let d = digit_run_at(t, i + k + 1);
        proof {
            assert(rest.skip(1) =~= t@.skip(i as int + k as int + 1));
        }
        if d > 0 {
            k + 1 + d
        } else {
            0
        }
    } else {
        proof {
            if i + k < t.len() {
                assert(rest[0] == t@[i as int + k as int]);
            } else {
                assert(rest.len() == 0);
            }
        }
        let d = digit_run_at(t, i + k);
        if d == 0 {
            return 0;
        }
        proof {
            assert(rest =~= t@.skip(i as int + k as int));
        }
        if i + k + d < t.len() && t[i + k + d] == 46 {
            proof {
                assert(rest[d as int] == t@[i as int + k as int + d as int]);
            }
            let d2 = digit_run_at(t, i + k + d + 1);
            proof {
                assert(rest.skip(d as int + 1) =~= t@.skip(i as int + k as int + d as int + 1));
            }
            k + d + 1 + d2
        } else {
            proof {
                if i + k + d < t.len() {
                    assert(rest[d as int] == t@[i as int + k as int + d as int]);
                }
            }
            k + d
        }
    }
}

/// Copy the bytes of `t` in `[i, j)` into a fresh vector.
fn copy_range(t: &Vec<u8>, i: usize, j: usize) -> (r: Vec<u8>)
    requires
        i <= j <= t@.len(),
    ensures
        r@ == t@.subrange(i as int, j as int),
{
    let mut out: Vec<u8> = Vec::new();
    let mut p: usize = i;
    proof {
        assert(out@ =~= t@.subrange(i as int, i as int));
    }
    while p < j
        invariant
            i <= p <= j <= t@.len(),
            out@ == t@.subrange(i as int, p as int),
        decreases j - p,
    {
        out.push(t[p]);
        p = p + 1;
        proof {
            assert(out@ =~= t@.subrange(i as int, p as int));
        }
    }
    out
}

/// Scan the whole input into its token sequence.
pub fn tokenize(t: &Vec<u8>) -> (r: Vec<Vec<u8>>)
    ensures
        views_of(r@) == spec_tokens(t@),
{
    let mut out: Vec<Vec<u8>> = Vec::new();
    let mut i: usize = 0;
    proof {
        assert(t@.skip(0) =~= t@);
        assert(views_of(out@) + spec_tokens(t@) =~= spec_tokens(t@));
    }
    while i < t.len()
        invariant
            i <= t@.len(),
            spec_tokens(t@) == views_of(out@) + spec_tokens(t@.skip(i as int)),
        decreases t@.len() - i,
    {
        let ghost s = t@.skip(i as int);
        let l = token_len_at(t, i);
        if l == 0 {
            proof {
                assert(s.skip(1) =~= t@.skip(i as int + 1));
            }
            i = i + 1;
        } else {
            let tok = copy_range(t, i, i + l);
            out.push(tok);
            proof {
                assert(s.take(l as int) =~= t@.subrange(i as int, i as int + l));
                assert(s.skip(l as int) =~= t@.skip(i as int + l));
                assert(views_of(out@.drop_last().push(tok)) =~= views_of(out@.drop_last()).push(
                    tok@,
                ));
                assert(out@.drop_last().push(tok) =~= out@);
                assert(views_of(out@.drop_last()) + (seq![tok@] + spec_tokens(t@.skip(
                    i as int + l,
                ))) =~= views_of(out@) + spec_tokens(t@.skip(i as int + l)));
            }
            i = i + l;
        }
    }
    proof {
        assert(t@.skip(i as int) =~= Seq::<u8>::empty());
        assert(views_of(out@) + spec_tokens(t@.skip(i as int)) =~= views_of(out@));
    }
    out
}

} // verus!
