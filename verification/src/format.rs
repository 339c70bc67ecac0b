//! The command format table.
//!
//! Ten base letters each have a fixed signature of parameter roles; the
//! lowercase letter's signature is the uppercase one with every coordinate
//! role made relative, while flag roles are untouched. The table is built
//! once and read only.

use vstd::prelude::*;

verus! {

/// A parameter role in a format signature.
#[derive(Clone, Copy, PartialEq, Eq, Structural, Debug)]
pub enum ParamKind {
    AbsX,
    AbsY,
    RelX,
    RelY,
    Flag,
}

/// The relative counterpart of a role: coordinate roles lose their
/// absoluteness, flags have no case and stay as they are.
pub open spec fn to_relative(k: ParamKind) -> ParamKind {
    match k {
        ParamKind::AbsX => ParamKind::RelX,
        ParamKind::AbsY => ParamKind::RelY,
        ParamKind::RelX => ParamKind::RelX,
        ParamKind::RelY => ParamKind::RelY,
        ParamKind::Flag => ParamKind::Flag,
    }
}

/// The format signature of a command letter, or `None` for a letter that
/// is no command. The arc command's radii keep the relative roles its
/// signature spells, exactly as given.
pub open spec fn spec_format(c: char) -> Option<Seq<ParamKind>> {
    match c {
        'M' => Some(seq![ParamKind::AbsX, ParamKind::AbsY]),
        'm' => Some(seq![ParamKind::RelX, ParamKind::RelY]),
        'Z' => Some(Seq::empty()),
        'z' => Some(Seq::empty()),
        'L' => Some(seq![ParamKind::AbsX, ParamKind::AbsY]),
        'l' => Some(seq![ParamKind::RelX, ParamKind::RelY]),
        'H' => Some(seq![ParamKind::AbsX]),
        'h' => Some(seq![ParamKind::RelX]),
        'V' => Some(seq![ParamKind::AbsY]),
        'v' => Some(seq![ParamKind::RelY]),
        'C' => Some(
            seq![
                ParamKind::AbsX,
                ParamKind::AbsY,
                ParamKind::AbsX,
                ParamKind::AbsY,
                ParamKind::AbsX,
                ParamKind::AbsY,
            ],
        ),
        'c' => Some(
            seq![
                ParamKind::RelX,
                ParamKind::RelY,
                ParamKind::RelX,
                ParamKind::RelY,
                ParamKind::RelX,
                ParamKind::RelY,
            ],
        ),
        'S' => Some(seq![ParamKind::AbsX, ParamKind::AbsY, ParamKind::AbsX, ParamKind::AbsY]),
        's' => Some(seq![ParamKind::RelX, ParamKind::RelY, ParamKind::RelX, ParamKind::RelY]),
        'Q' => Some(seq![ParamKind::AbsX, ParamKind::AbsY, ParamKind::AbsX, ParamKind::AbsY]),
        'q' => Some(seq![ParamKind::RelX, ParamKind::RelY, ParamKind::RelX, ParamKind::RelY]),
        'T' => Some(seq![ParamKind::AbsX, ParamKind::AbsY]),
        't' => Some(seq![ParamKind::RelX, ParamKind::RelY]),
        'A' => Some(
            seq![
                ParamKind::RelX,
                ParamKind::RelY,
                ParamKind::Flag,
                ParamKind::Flag,
                ParamKind::Flag,
                ParamKind::AbsX,
                ParamKind::AbsY,
            ],
        ),
        'a' => Some(
            seq![
                ParamKind::RelX,
                ParamKind::RelY,
                ParamKind::Flag,
                ParamKind::Flag,
                ParamKind::Flag,
                ParamKind::RelX,
                ParamKind::RelY,
            ],
        ),
        _ => None,
    }
}

/// `c` is one of the ten base (uppercase) command letters.
pub open spec fn is_base_letter(c: char) -> bool {
    c == 'M' || c == 'Z' || c == 'L' || c == 'H' || c == 'V' || c == 'C' || c == 'S' || c == 'Q'
        || c == 'T' || c == 'A'
}

/// The signature of a lowercase command letter is the uppercase signature
/// with every coordinate role made relative, flags untouched.
pub proof fn lemma_lowercase_signature(c: char)
    requires
        is_base_letter(c),
    ensures
        spec_format(c) is Some,
        spec_format(((c as u32) + 32) as char) == Some(
            spec_format(c).unwrap().map(|i: int, k: ParamKind| to_relative(k)),
        ),
{
    let lower = ((c as u32) + 32) as char;
    let up = spec_format(c).unwrap();
    let derived = up.map(|i: int, k: ParamKind| to_relative(k));
    if c == 'M' {
        assert(lower == 'm');
        assert(derived =~= spec_format('m').unwrap());
    } else if c == 'Z' {
        assert(lower == 'z');
        assert(derived =~= spec_format('z').unwrap());
    } else if c == 'L' {
        assert(lower == 'l');
        assert(derived =~= spec_format('l').unwrap());
    } else if c == 'H' {
        assert(lower == 'h');
        assert(derived =~= spec_format('h').unwrap());
    } else if c == 'V' {
        assert(lower == 'v');
        assert(derived =~= spec_format('v').unwrap());
    } else if c == 'C' {
        assert(lower == 'c');
        assert(derived =~= spec_format('c').unwrap());
    } else if c == 'S' {
        assert(lower == 's');
        assert(derived =~= spec_format('s').unwrap());
    } else if c == 'Q' {
        assert(lower == 'q');
        assert(derived =~= spec_format('q').unwrap());
    } else if c == 'T' {
        assert(lower == 't');
        assert(derived =~= spec_format('t').unwrap());
    } else {
        assert(lower == 'a');
        assert(derived =~= spec_format('a').unwrap());
    }
}

/// The format table: command letters paired with their signatures.
pub struct CommandFormats {
    names: Vec<char>,
    params: Vec<Vec<ParamKind>>,
}

impl CommandFormats {
    /// The table lists exactly the letters the grammar knows, each with
    /// the signature `spec_format` gives it.
    pub closed spec fn wf(&self) -> bool {
        &&& self.names@.len() == self.params@.len()
        &&& forall|i: int|
            0 <= i < self.names@.len() ==> spec_format(#[trigger] self.names@[i]) == Some(
                self.params@[i]@,
            )
        &&& forall|c: char| spec_format(c) is Some ==> self.names@.contains(c)
    }

    /// Build the table: each base entry, then its derived lowercase entry.
    pub fn new() -> (r: CommandFormats)
        ensures
            r.wf(),
    {
        let mut names: Vec<char> = Vec::new();
        let mut params: Vec<Vec<ParamKind>> = Vec::new();

        names.push('M');
        params.push(vec![ParamKind::AbsX, ParamKind::AbsY]);
        names.push('m');
        params.push(vec![ParamKind::RelX, ParamKind::RelY]);
        names.push('Z');
        params.push(Vec::new());
        names.push('z');
        params.push(Vec::new());
        names.push('L');
        params.push(vec![ParamKind::AbsX, ParamKind::AbsY]);
        names.push('l');
        params.push(vec![ParamKind::RelX, ParamKind::RelY]);
        names.push('H');
        params.push(vec![ParamKind::AbsX]);
        names.push('h');
        params.push(vec![ParamKind::RelX]);
        names.push('V');
        params.push(vec![ParamKind::AbsY]);
        names.push('v');
        params.push(vec![ParamKind::RelY]);
        names.push('C');
        params.push(
            vec![
                ParamKind::AbsX,
                ParamKind::AbsY,
                ParamKind::AbsX,
                ParamKind::AbsY,
                ParamKind::AbsX,
                ParamKind::AbsY,
            ],
        );
        names.push('c');
        params.push(
            vec![
                ParamKind::RelX,
                ParamKind::RelY,
                ParamKind::RelX,
                ParamKind::RelY,
                ParamKind::RelX,
                ParamKind::RelY,
            ],
        );
        names.push('S');
        params.push(vec![ParamKind::AbsX, ParamKind::AbsY, ParamKind::AbsX, ParamKind::AbsY]);
        names.push('s');
        params.push(vec![ParamKind::RelX, ParamKind::RelY, ParamKind::RelX, ParamKind::RelY]);
        names.push('Q');
        params.push(vec![ParamKind::AbsX, ParamKind::AbsY, ParamKind::AbsX, ParamKind::AbsY]);
        names.push('q');
        params.push(vec![ParamKind::RelX, ParamKind::RelY, ParamKind::RelX, ParamKind::RelY]);
        names.push('T');
        params.push(vec![ParamKind::AbsX, ParamKind::AbsY]);
        names.push('t');
        params.push(vec![ParamKind::RelX, ParamKind::RelY]);
        names.push('A');
        params.push(
            vec![
                ParamKind::RelX,
                ParamKind::RelY,
                ParamKind::Flag,
                ParamKind::Flag,
                ParamKind::Flag,
                ParamKind::AbsX,
                ParamKind::AbsY,
            ],
        );
        names.push('a');
        params.push(
            vec![
                ParamKind::RelX,
                ParamKind::RelY,
                ParamKind::Flag,
                ParamKind::Flag,
                ParamKind::Flag,
                ParamKind::RelX,
                ParamKind::RelY,
            ],
        );

        let r = CommandFormats { names, params };
        proof {
            assert forall|i: int| 0 <= i < r.names@.len() implies spec_format(
                #[trigger] r.names@[i],
            ) == Some(r.params@[i]@) by {
                assert(r.params@[i]@ =~= spec_format(r.names@[i]).unwrap());
            }
            assert forall|c: char| spec_format(c) is Some implies r.names@.contains(c) by {
                if c == 'M' {
                    assert(r.names@[0] == 'M');
                } else if c == 'm' {
                    assert(r.names@[1] == 'm');
                } else if c == 'Z' {
                    assert(r.names@[2] == 'Z');
                } else if c == 'z' {
                    assert(r.names@[3] == 'z');
                } else if c == 'L' {
                    assert(r.names@[4] == 'L');
                } else if c == 'l' {
                    assert(r.names@[5] == 'l');
                } else if c == 'H' {
                    assert(r.names@[6] == 'H');
                } else if c == 'h' {
                    assert(r.names@[7] == 'h');
                } else if c == 'V' {
                    assert(r.names@[8] == 'V');
                } else if c == 'v' {
                    assert(r.names@[9] == 'v');
                } else if c == 'C' {
                    assert(r.names@[10] == 'C');
                } else if c == 'c' {
                    assert(r.names@[11] == 'c');
                } else if c == 'S' {
                    assert(r.names@[12] == 'S');
                } else if c == 's' {
                    assert(r.names@[13] == 's');
                } else if c == 'Q' {
                    assert(r.names@[14] == 'Q');
                } else if c == 'q' {
                    assert(r.names@[15] == 'q');
                } else if c == 'T' {
                    assert(r.names@[16] == 'T');
                } else if c == 't' {
                    assert(r.names@[17] == 't');
                } else if c == 'A' {
                    assert(r.names@[18] == 'A');
                } else {
                    assert(r.names@[19] == 'a');
                }
            }
        }
        r
    }

    /// Look a letter up: the signature `spec_format` assigns it, or `None`
    /// for a letter outside the grammar.
    pub fn get_format_for(&self, name: char) -> (r: Option<Vec<ParamKind>>)
        requires
            self.wf(),
        ensures
            match r {
                Some(f) => spec_format(name) == Some(f@),
                None => spec_format(name) is None,
            },
    {
        let n = self.names.len();
        let mut i: usize = 0;
        while i < n
            invariant
                self.wf(),
                n == self.names@.len(),
                i <= n,
                forall|j: int| 0 <= j < i ==> #[trigger] self.names@[j] != name,
            decreases n - i,
        {
            if self.names[i] == name {
                let src = &self.params[i];
                let m = src.len();
                let mut f: Vec<ParamKind> = Vec::new();
                let mut j: usize = 0;
                while j < m
                    invariant
                        m == src@.len(),
                        j <= m,
                        f@ == src@.take(j as int),
                    decreases m - j,
                {
                    f.push(src[j]);
                    j = j + 1;
                    proof {
                        assert(f@ =~= src@.take(j as int));
                    }
                }
                proof {
                    assert(f@ =~= src@);
                }
                return Some(f);
            }
            i = i + 1;
        }
        proof {
            if spec_format(name) is Some {
                assert(self.names@.contains(name));
            }
        }
        None
    }
}

} // verus!
