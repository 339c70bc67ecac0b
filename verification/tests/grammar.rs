use pathdata::command::CommandParam;
use pathdata::format::CommandFormats;
use pathdata::format::ParamKind;
use pathdata::numeric::Decimal;
use pathdata::parser::Commands;
use pathdata::parser::GrammarError;

#[test]
fn format_table_lookup() {
    let formats = CommandFormats::new();
    assert_eq!(
        formats.get_format_for('M'),
        Some(vec![ParamKind::AbsX, ParamKind::AbsY])
    );
    assert_eq!(
        formats.get_format_for('m'),
        Some(vec![ParamKind::RelX, ParamKind::RelY])
    );
    assert_eq!(formats.get_format_for('Z'), Some(vec![]));
    assert_eq!(formats.get_format_for('H'), Some(vec![ParamKind::AbsX]));
    assert_eq!(formats.get_format_for('v'), Some(vec![ParamKind::RelY]));
    assert_eq!(formats.get_format_for('C').map(|f| f.len()), Some(6));
    assert_eq!(formats.get_format_for('S').map(|f| f.len()), Some(4));
    assert_eq!(formats.get_format_for('q').map(|f| f.len()), Some(4));
    assert_eq!(formats.get_format_for('T').map(|f| f.len()), Some(2));
    // the arc command: radii roles as spelled, three flags, then the endpoint
    assert_eq!(
        formats.get_format_for('A'),
        Some(vec![
            ParamKind::RelX,
            ParamKind::RelY,
            ParamKind::Flag,
            ParamKind::Flag,
            ParamKind::Flag,
            ParamKind::AbsX,
            ParamKind::AbsY,
        ])
    );
    assert_eq!(formats.get_format_for('B'), None);
    assert_eq!(formats.get_format_for('x'), None);
}

#[test]
fn commands_pulls_one_at_a_time() {
    let mut cs = Commands::new("M 1 2 Z");
    let first = cs.next().unwrap().unwrap();
    assert_eq!(first.name, Some('M'));
    assert_eq!(
        first.params,
        vec![
            CommandParam::AbsoluteX(Decimal { neg: false, mant: 1, frac: 0 }),
            CommandParam::AbsoluteY(Decimal { neg: false, mant: 2, frac: 0 }),
        ]
    );
    let second = cs.next().unwrap().unwrap();
    assert_eq!(second.name, Some('Z'));
    assert!(second.params.is_empty());
    assert_eq!(cs.next(), Ok(None));
    assert_eq!(cs.next(), Ok(None));
}

#[test]
fn zero_arity_clears_the_letter_per_pull() {
    // the first pull yields the Z command; the second finds a numeric
    // token with no reusable letter, on that very pull
    let mut cs = Commands::new("Z 5");
    let z = cs.next().unwrap().unwrap();
    assert_eq!(z.name, Some('Z'));
    assert!(z.params.is_empty());
    assert_eq!(cs.next(), Err(GrammarError::UnresolvedContinuation));
}

#[test]
fn unknown_letter_errs_on_its_own_pull() {
    let mut cs = Commands::new("B 5");
    assert_eq!(cs.next(), Err(GrammarError::InvalidCommandName));
}

#[test]
fn commands_surfaces_errors() {
    let mut cs = Commands::new("L 1 2 x y");
    assert!(cs.next().unwrap().is_some());
    // 'x' names a letter outside the table
    assert_eq!(cs.next(), Err(GrammarError::InvalidCommandName));
}

#[test]
fn multi_letter_alphabetic_is_two_tokens() {
    // the scanner cuts letters one by one, so "Mx" is 'M' then 'x',
    // and 'x' fails the numeric coercion demanded by M's first role
    let mut cs = Commands::new("Mx");
    assert_eq!(cs.next(), Err(GrammarError::ParameterCoercionFailure));
}

#[test]
fn huge_mantissa_is_a_coercion_failure() {
    // one digit beyond what the mantissa can hold
    assert_eq!(
        pathdata::parser::parse_commands("L 1 184467440737095516150"),
        Err(GrammarError::ParameterCoercionFailure)
    );
}
