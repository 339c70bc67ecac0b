use pathdata::command::Command;
use pathdata::command::CommandParam;
use pathdata::numeric::Decimal;
use pathdata::parser::parse_commands;
use pathdata::render::serialize;
use pathdata::parser::GrammarError;

fn dec(neg: bool, mant: u64, frac: u32) -> Decimal {
    Decimal { neg, mant, frac }
}

#[test]
fn implicit_continuation() {
    let cmds = parse_commands("L 0 0 10 10 20 20").unwrap();
    assert_eq!(cmds.len(), 3);
    assert_eq!(cmds[0].name, Some('L'));
    assert_eq!(
        cmds[0].params,
        vec![
            CommandParam::AbsoluteX(dec(false, 0, 0)),
            CommandParam::AbsoluteY(dec(false, 0, 0)),
        ]
    );
    assert_eq!(cmds[1].name, None);
    assert_eq!(
        cmds[1].params,
        vec![
            CommandParam::AbsoluteX(dec(false, 10, 0)),
            CommandParam::AbsoluteY(dec(false, 10, 0)),
        ]
    );
    assert_eq!(cmds[2].name, None);
    assert_eq!(
        cmds[2].params,
        vec![
            CommandParam::AbsoluteX(dec(false, 20, 0)),
            CommandParam::AbsoluteY(dec(false, 20, 0)),
        ]
    );
}

#[test]
fn zero_arity_not_reusable() {
    let cmds = parse_commands("Z Z").unwrap();
    assert_eq!(cmds.len(), 2);
    for cmd in &cmds {
        assert_eq!(cmd.name, Some('Z'));
        assert!(cmd.params.is_empty());
    }
    // a numeric token right after Z has no letter to continue
    assert_eq!(
        parse_commands("Z 5"),
        Err(GrammarError::UnresolvedContinuation)
    );
}

#[test]
fn case_drives_roles() {
    let lower = parse_commands("l 5 5").unwrap();
    assert_eq!(lower.len(), 1);
    assert_eq!(lower[0].name, Some('l'));
    assert_eq!(
        lower[0].params,
        vec![
            CommandParam::RelativeX(dec(false, 5, 0)),
            CommandParam::RelativeY(dec(false, 5, 0)),
        ]
    );
    let upper = parse_commands("L 5 5").unwrap();
    assert_eq!(
        upper[0].params,
        vec![
            CommandParam::AbsoluteX(dec(false, 5, 0)),
            CommandParam::AbsoluteY(dec(false, 5, 0)),
        ]
    );
}

#[test]
fn malformed_numeric_aborts() {
    assert_eq!(
        parse_commands("L 5 abc"),
        Err(GrammarError::ParameterCoercionFailure)
    );
}

#[test]
fn unknown_letter_rejected() {
    assert_eq!(parse_commands("B 1 2"), Err(GrammarError::InvalidCommandName));
}

#[test]
fn bare_numbers_rejected() {
    assert_eq!(
        parse_commands("5 5"),
        Err(GrammarError::UnresolvedContinuation)
    );
}

#[test]
fn starved_parameters_rejected() {
    assert_eq!(
        parse_commands("L 5"),
        Err(GrammarError::ParameterListTruncated)
    );
}

#[test]
fn flag_must_be_integer() {
    // the arc's third through fifth parameters are flags; a fraction there fails
    assert_eq!(
        parse_commands("A 1 2 1.5 0 1 3 4"),
        Err(GrammarError::ParameterCoercionFailure)
    );
    let cmds = parse_commands("A 1 2 1 0 1 3 4").unwrap();
    assert_eq!(cmds[0].params[2], CommandParam::Flag(1));
    assert_eq!(cmds[0].params[3], CommandParam::Flag(0));
}

#[test]
fn decimal_forms() {
    let cmds = parse_commands("M 0.50 -.5 L 5. 6").unwrap();
    assert_eq!(cmds[0].params[0], CommandParam::AbsoluteX(dec(false, 50, 2)));
    assert_eq!(cmds[0].params[1], CommandParam::AbsoluteY(dec(true, 5, 1)));
    assert_eq!(cmds[1].params[0], CommandParam::AbsoluteX(dec(false, 5, 0)));
    assert_eq!(cmds[1].params[1], CommandParam::AbsoluteY(dec(false, 6, 0)));
}

#[test]
fn separators_are_skipped() {
    let a = parse_commands("M 1 2").unwrap();
    let b = parse_commands("M,1,,2").unwrap();
    let c = parse_commands("M\n1\t2").unwrap();
    assert_eq!(a, b);
    assert_eq!(a, c);
}

#[test]
fn empty_input_is_empty_path() {
    let cmds: Vec<Command> = parse_commands("").unwrap();
    assert!(cmds.is_empty());
}

#[test]
fn negative_zero_is_kept() {
    let cmds = parse_commands("L -0 0.0").unwrap();
    assert_eq!(cmds[0].params[0], CommandParam::AbsoluteX(dec(true, 0, 0)));
    assert_eq!(cmds[0].params[1], CommandParam::AbsoluteY(dec(false, 0, 1)));
    let text = String::from_utf8(serialize(&cmds)).unwrap();
    assert_eq!(text, "L -0 0.0\n");
    assert_eq!(parse_commands(&text).unwrap(), cmds);
}

#[test]
fn largest_mantissa_survives() {
    let cmds = parse_commands("H 18446744073709551615").unwrap();
    assert_eq!(
        cmds[0].params[0],
        CommandParam::AbsoluteX(dec(false, u64::MAX, 0))
    );
    let text = String::from_utf8(serialize(&cmds)).unwrap();
    assert_eq!(parse_commands(&text).unwrap(), cmds);
}

#[test]
fn number_glued_to_letter() {
    // tokens need no separators at all
    let cmds = parse_commands("L1-2").unwrap();
    assert_eq!(cmds[0].params[0], CommandParam::AbsoluteX(dec(false, 1, 0)));
    assert_eq!(cmds[0].params[1], CommandParam::AbsoluteY(dec(true, 2, 0)));
}
