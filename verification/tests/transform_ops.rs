use pathdata::command::CommandParam;
use pathdata::numeric::Decimal;
use pathdata::ops::handle_operation;
use pathdata::ops::parse_operation;
use pathdata::ops::Operation;
use pathdata::ops::OperationError;
use pathdata::parser::parse_commands;
use pathdata::render::serialize;
use pathdata::transform::scale;
use pathdata::transform::translate;

fn dec(neg: bool, mant: u64, frac: u32) -> Decimal {
    Decimal { neg, mant, frac }
}

#[test]
fn scale_doubles_coordinates() {
    let mut cmds = parse_commands("L 1 2").unwrap();
    scale(&mut cmds, dec(false, 2, 0));
    assert_eq!(cmds[0].params[0], CommandParam::AbsoluteX(dec(false, 2, 0)));
    assert_eq!(cmds[0].params[1], CommandParam::AbsoluteY(dec(false, 4, 0)));
}

#[test]
fn scale_by_one_is_identity() {
    let orig = parse_commands("M 1.5 -2 l 3 4 A 1 2 1 0 1 3 4 Z").unwrap();
    let mut cmds = orig.clone();
    scale(&mut cmds, dec(false, 1, 0));
    assert_eq!(cmds, orig);
}

#[test]
fn transforms_never_touch_flags() {
    let mut cmds = parse_commands("A 1 2 1 0 1 3 4").unwrap();
    scale(&mut cmds, dec(false, 7, 1));
    assert_eq!(cmds[0].params[2], CommandParam::Flag(1));
    assert_eq!(cmds[0].params[3], CommandParam::Flag(0));
    assert_eq!(cmds[0].params[4], CommandParam::Flag(1));
    translate(&mut cmds, dec(false, 9, 0), dec(true, 9, 0));
    assert_eq!(cmds[0].params[2], CommandParam::Flag(1));
    assert_eq!(cmds[0].params[3], CommandParam::Flag(0));
    assert_eq!(cmds[0].params[4], CommandParam::Flag(1));
}

#[test]
fn translate_leaves_relatives_alone() {
    let mut cmds = parse_commands("M 1 2 l 3 4").unwrap();
    translate(&mut cmds, dec(false, 10, 0), dec(true, 20, 0));
    // absolute coordinates move
    assert_eq!(cmds[0].params[0], CommandParam::AbsoluteX(dec(false, 11, 0)));
    assert_eq!(cmds[0].params[1], CommandParam::AbsoluteY(dec(true, 18, 0)));
    // relative deltas are untouched, for any offsets
    assert_eq!(cmds[1].params[0], CommandParam::RelativeX(dec(false, 3, 0)));
    assert_eq!(cmds[1].params[1], CommandParam::RelativeY(dec(false, 4, 0)));
}

#[test]
fn translate_aligns_fractions() {
    let mut cmds = parse_commands("M 1 0.25").unwrap();
    translate(&mut cmds, dec(false, 5, 1), dec(false, 5, 1));
    // 1 + 0.5 = 1.5, 0.25 + 0.50 = 0.75
    assert_eq!(cmds[0].params[0], CommandParam::AbsoluteX(dec(false, 15, 1)));
    assert_eq!(cmds[0].params[1], CommandParam::AbsoluteY(dec(false, 75, 2)));
}

#[test]
fn scaling_twice_is_scaling_by_product() {
    let a = dec(false, 3, 1);
    let b = dec(true, 2, 0);
    let src = "M 1.5 -2 l 3 4 A 1 2 1 0 1 3 4";
    let mut twice = parse_commands(src).unwrap();
    scale(&mut twice, a);
    scale(&mut twice, b);
    let mut once = parse_commands(src).unwrap();
    scale(&mut once, a.mul(b));
    assert_eq!(twice, once);
}

#[test]
fn serialize_round_trips() {
    for src in ["L 0 0 10 10 20 20", "M 0.50 -1.5 Z z", "A 1 2 1 0 -1 3 4 h .5"] {
        let cmds = parse_commands(src).unwrap();
        let text = String::from_utf8(serialize(&cmds)).unwrap();
        let again = parse_commands(&text).unwrap();
        assert_eq!(cmds, again);
    }
}

#[test]
fn serialize_textual_form() {
    let cmds = parse_commands("L 0 0 10 10").unwrap();
    let text = String::from_utf8(serialize(&cmds)).unwrap();
    assert_eq!(text, "L 0 0\n  10 10\n");
    let cmds = parse_commands("M 0.50 -.5").unwrap();
    let text = String::from_utf8(serialize(&cmds)).unwrap();
    assert_eq!(text, "M 0.50 -0.5\n");
}

#[test]
fn operation_triggers() {
    assert_eq!(
        parse_operation("x2.5"),
        Ok(Operation::Scale(dec(false, 25, 1)))
    );
    assert_eq!(
        parse_operation("+5-3.2"),
        Ok(Operation::Translate(dec(false, 5, 0), dec(true, 32, 1)))
    );
    assert_eq!(
        parse_operation("-1+1"),
        Ok(Operation::Translate(dec(true, 1, 0), dec(false, 1, 0)))
    );
    // the scale factor may carry an explicit sign
    assert_eq!(
        parse_operation("x-2"),
        Ok(Operation::Scale(dec(true, 2, 0)))
    );
    assert_eq!(
        parse_operation("x+2.5"),
        Ok(Operation::Scale(dec(false, 25, 1)))
    );
    assert_eq!(parse_operation("x-"), Err(OperationError::UnknownOperation));
    assert_eq!(parse_operation("rotate"), Err(OperationError::UnknownOperation));
    assert_eq!(parse_operation(""), Err(OperationError::UnknownOperation));
    assert_eq!(parse_operation("x"), Err(OperationError::UnknownOperation));
    assert_eq!(parse_operation("x5x5"), Err(OperationError::UnknownOperation));
    assert_eq!(parse_operation("+5"), Err(OperationError::UnknownOperation));
    assert_eq!(parse_operation("x.."), Err(OperationError::InvalidScaleFactor));
    assert_eq!(parse_operation("+.-1"), Err(OperationError::InvalidXOffset));
    assert_eq!(parse_operation("+1-."), Err(OperationError::InvalidYOffset));
}

#[test]
fn handle_operation_applies_or_rejects() {
    let orig = parse_commands("L 1 2").unwrap();
    let mut cmds = orig.clone();
    assert_eq!(handle_operation(&mut cmds, "x2"), Ok(()));
    assert_eq!(cmds[0].params[0], CommandParam::AbsoluteX(dec(false, 2, 0)));

    let mut cmds = orig.clone();
    assert_eq!(handle_operation(&mut cmds, "+1+1"), Ok(()));
    assert_eq!(cmds[0].params[1], CommandParam::AbsoluteY(dec(false, 3, 0)));

    let mut cmds = orig.clone();
    assert_eq!(handle_operation(&mut cmds, "x-1"), Ok(()));
    assert_eq!(cmds[0].params[0], CommandParam::AbsoluteX(dec(true, 1, 0)));
    assert_eq!(cmds[0].params[1], CommandParam::AbsoluteY(dec(true, 2, 0)));

    let mut cmds = orig.clone();
    assert_eq!(
        handle_operation(&mut cmds, "nonsense"),
        Err(OperationError::UnknownOperation)
    );
    assert_eq!(cmds, orig);
}

#[test]
fn handle_operation_rejects_overflow_whole() {
    let mut cmds = parse_commands("L 1 18446744073709551615").unwrap();
    let orig = cmds.clone();
    // doubling the second coordinate would overflow the mantissa
    assert_eq!(
        handle_operation(&mut cmds, "x2"),
        Err(OperationError::OutOfRange)
    );
    assert_eq!(cmds, orig);
}
