use aoc::registers::{
    BinaryOperation, Constant, Operand, Operator, ParseError, Register, Statement, MALFORMED,
    NOT_AN_IDENTIFIER, NOT_A_CONSTANT, NOT_A_STATEMENT, UNKNOWN_OPERATOR,
};

fn run(program: &[&str]) -> (Register, Vec<Option<isize>>) {
    let mut reg = Register::new();
    let mut results = Vec::new();
    for line in program {
        let statement: Statement = line.parse().unwrap();
        results.push(statement.apply(&mut reg));
    }
    (reg, results)
}

#[test]
fn example_program_leaves_one_in_a() {
    let (reg, results) = run(&[
        "b inc 5 if a > 1",
        "a inc 1 if b < 5",
        "c dec -10 if a >= 1",
        "c inc -20 if c == 10",
    ]);
    assert_eq!(results, vec![None, Some(1), Some(10), Some(-10)]);
    assert_eq!(reg.get("a"), Some(1));
    // Reading a register in a condition makes it present.
    assert_eq!(reg.get("b"), Some(0));
    assert_eq!(reg.get("c"), Some(-10));
    assert_eq!(reg.get("d"), None);
}

#[test]
fn registers_start_absent_and_are_added_on_reading() {
    let mut reg = Register::new();
    assert_eq!(reg.get("x"), None);
    assert_eq!(reg.fetch("x"), 0);
    assert_eq!(reg.get("x"), Some(0));
    reg.set("x", 5);
    reg.set("y", -2);
    assert_eq!(reg.fetch("x"), 5);
    assert_eq!(reg.get("y"), Some(-2));
    reg.set("x", 6);
    assert_eq!(reg.get("x"), Some(6));
    assert_eq!(reg.get(""), None);
}

#[test]
fn every_comparison_compares() {
    let cases = vec![
        (Operator::Eq, [false, true, false]),
        (Operator::Ne, [true, false, true]),
        (Operator::Lt, [true, false, false]),
        (Operator::Le, [true, true, false]),
        (Operator::Gt, [false, false, true]),
        (Operator::Ge, [false, true, true]),
    ];
    for (op, expected) in cases {
        for (i, right) in [3isize, 2, 1].iter().enumerate() {
            let mut reg = Register::new();
            reg.set("r", 2);
            let operation = BinaryOperation::new(
                op,
                Operand::Ident(String::from("r")),
                Operand::Const(Constant::Num(*right)),
            );
            assert_eq!(operation.apply(&mut reg), Constant::Bool(expected[i]));
        }
    }
}

#[test]
fn inc_and_dec_change_the_target() {
    let mut reg = Register::new();
    let inc = BinaryOperation::new(
        Operator::Inc,
        Operand::Ident(String::from("t")),
        Operand::Const(Constant::Num(7)),
    );
    assert_eq!(inc.apply(&mut reg), Constant::Num(7));
    assert_eq!(inc.apply(&mut reg), Constant::Num(14));
    let dec = BinaryOperation::new(
        Operator::Dec,
        Operand::Ident(String::from("t")),
        Operand::Ident(String::from("t")),
    );
    assert_eq!(dec.apply(&mut reg), Constant::Num(0));
    assert_eq!(reg.get("t"), Some(0));
    let by_other = BinaryOperation::new(
        Operator::Dec,
        Operand::Ident(String::from("t")),
        Operand::Ident(String::from("u")),
    );
    assert_eq!(by_other.apply(&mut reg), Constant::Num(0));
    assert_eq!(reg.get("u"), Some(0));
}

#[test]
fn constants_convert() {
    assert_eq!(Constant::Num(-4).as_num(), -4);
    assert_eq!(Constant::Bool(true).as_num(), 1);
    assert_eq!(Constant::Bool(false).as_num(), 0);
    assert!(Constant::Bool(true).as_bool());
    assert!(!Constant::Bool(false).as_bool());
}

#[test]
fn operands_resolve() {
    let mut reg = Register::new();
    reg.set("a", 9);
    let a = Operand::Ident(String::from("a"));
    assert!(a.is_ident());
    assert_eq!(a.ident(), "a");
    assert_eq!(a.resolve(&mut reg), 9);
    let c = Operand::Const(Constant::Num(3));
    assert!(!c.is_ident());
    assert_eq!(c.resolve(&mut reg), 3);
    assert_eq!(Operand::Const(Constant::Bool(true)).resolve(&mut reg), 1);
    assert_eq!(Operand::Ident(String::from("new")).resolve(&mut reg), 0);
    assert_eq!(reg.get("new"), Some(0));
}

#[test]
fn operators_are_read() {
    let cases = vec![
        ("inc", Operator::Inc),
        ("dec", Operator::Dec),
        ("==", Operator::Eq),
        ("!=", Operator::Ne),
        ("<", Operator::Lt),
        (">", Operator::Gt),
        ("<=", Operator::Le),
        (">=", Operator::Ge),
    ];
    for (text, op) in cases {
        assert_eq!(text.parse::<Operator>().unwrap(), op);
    }
    let error = "=".parse::<Operator>().unwrap_err();
    assert_eq!(error.msg(), UNKNOWN_OPERATOR);
    assert_eq!(error.msg(), "unknown operator");
    assert_eq!(error.data(), "=");
    assert_eq!(error.column(), 0);
}

#[test]
fn constants_and_operands_are_read() {
    assert_eq!("12".parse::<Constant>().unwrap(), Constant::Num(12));
    assert_eq!("-12".parse::<Constant>().unwrap(), Constant::Num(-12));
    assert_eq!("true".parse::<Constant>().unwrap(), Constant::Bool(true));
    assert_eq!("false".parse::<Constant>().unwrap(), Constant::Bool(false));
    let error = "abc".parse::<Constant>().unwrap_err();
    assert_eq!(error.msg(), NOT_A_CONSTANT);
    assert_eq!(error.msg(), "not a constant");
    assert_eq!(error.data(), "abc");
    match "abc".parse::<Operand>().unwrap() {
        Operand::Ident(name) => assert_eq!(name, "abc"),
        other => panic!("{:?}", other),
    }
    match "-3".parse::<Operand>().unwrap() {
        Operand::Const(c) => assert_eq!(c, Constant::Num(-3)),
        other => panic!("{:?}", other),
    }
    match "99999999999999999999".parse::<Operand>().unwrap() {
        Operand::Ident(name) => assert_eq!(name, "99999999999999999999"),
        other => panic!("{:?}", other),
    }
}

#[test]
fn malformed_statements_are_rejected() {
    let error = "a inc 1 if b <".parse::<Statement>().unwrap_err();
    assert_eq!(error.msg(), NOT_A_STATEMENT);
    assert_eq!(error.msg(), "length is not 7 or token 3 is not if");
    assert_eq!(error.data(), "a inc 1 if b <");
    let error = "a inc 1 when b < 2".parse::<Statement>().unwrap_err();
    assert_eq!(error.msg(), NOT_A_STATEMENT);
    let error = "a add 1 if b < 2".parse::<Statement>().unwrap_err();
    assert_eq!(error.msg(), UNKNOWN_OPERATOR);
    assert_eq!(error.data(), "add");
    let error = "5 inc 1 if b < 2".parse::<Statement>().unwrap_err();
    assert_eq!(error.msg(), NOT_AN_IDENTIFIER);
    assert_eq!(error.msg(), "left operand is not an identifier");
    assert_eq!(error.data(), "5 inc 1 if b < 2");
    let error = "a inc 1 if b ~ 2".parse::<Statement>().unwrap_err();
    assert_eq!(error.msg(), UNKNOWN_OPERATOR);
    assert_eq!(error.data(), "~");
    // The operator of the operation is looked at before its target.
    let error = "5 add 1 if b < 2".parse::<Statement>().unwrap_err();
    assert_eq!(error.msg(), UNKNOWN_OPERATOR);
    assert!("  a   inc 1\tif b < 2 ".parse::<Statement>().is_ok());
}

#[test]
fn statements_can_be_made_by_hand() {
    let condition = BinaryOperation::new(
        Operator::Lt,
        Operand::Const(Constant::Num(1)),
        Operand::Const(Constant::Num(2)),
    );
    let operation = BinaryOperation::new(
        Operator::Eq,
        Operand::Const(Constant::Num(1)),
        Operand::Const(Constant::Num(1)),
    );
    let mut reg = Register::new();
    // A comparison as the operation counts 1 if it holds.
    assert_eq!(Statement::new(condition, operation).apply(&mut reg), Some(1));
}

#[test]
fn register_errors_can_be_made_by_hand() {
    let error = ParseError::new("text");
    assert_eq!((error.msg(), error.data(), error.column()), (MALFORMED, "text", 0));
    assert_eq!(error.msg(), "malformed input");
    let error = ParseError::with_msg("text", NOT_A_CONSTANT);
    assert_eq!((error.msg(), error.data(), error.column()), (NOT_A_CONSTANT, "text", 0));
}

#[test]
fn largest_register_is_found() {
    let (reg, _) = run(&[
        "b inc 5 if a > 1",
        "a inc 1 if b < 5",
        "c dec -10 if a >= 1",
        "c inc -20 if c == 10",
    ]);
    assert_eq!(reg.largest(), Some((String::from("a"), 1)));
    assert_eq!(Register::new().largest(), None);
    let mut reg = Register::new();
    reg.set("x", -5);
    assert_eq!(reg.largest(), Some((String::from("x"), -5)));
    reg.set("y", -7);
    assert_eq!(reg.largest(), Some((String::from("x"), -5)));
    reg.set("z", 0);
    assert_eq!(reg.largest(), Some((String::from("z"), 0)));
}

#[test]
fn a_program_runs_until_an_instruction_cannot_be_applied() {
    let program: Vec<Statement> = [
        "a inc 9223372036854775807 if a == 0",
        "b inc 1 if a > 0",
        "a inc 1 if b == 1",
        "b inc 1 if a > 0",
    ]
    .iter()
    .map(|line| line.parse().unwrap())
    .collect();
    let mut reg = Register::new();
    assert_eq!(aoc::registers::run(&program, &mut reg), 2);
    assert_eq!(reg.get("a"), Some(isize::MAX));
    assert_eq!(reg.get("b"), Some(1));
    let mut reg = Register::new();
    assert_eq!(aoc::registers::run(&program[..2], &mut reg), 2);
    let mut reg = Register::new();
    assert_eq!(aoc::registers::run(&[], &mut reg), 0);
    assert_eq!(reg.largest(), None);
}

#[test]
fn instructions_that_cannot_be_applied_change_nothing() {
    let mut reg = Register::new();
    reg.set("a", isize::MIN);
    let dec: Statement = "a dec 1 if b == 0".parse().unwrap();
    assert!(!dec.can_apply(&reg));
    assert_eq!(dec.checked_apply(&mut reg), None);
    assert_eq!(reg.get("b"), None);
    let skipped: Statement = "a dec 1 if b == 1".parse().unwrap();
    assert!(skipped.can_apply(&reg));
    assert_eq!(skipped.checked_apply(&mut reg), Some(None));
    assert_eq!(reg.get("b"), Some(0));
    let inc: Statement = "a inc 1 if b == 0".parse().unwrap();
    assert_eq!(inc.checked_apply(&mut reg), Some(Some(isize::MIN + 1)));
    // A condition has to compare, and a target has to be a register.
    let condition = BinaryOperation::new(
        Operator::Inc,
        Operand::Ident(String::from("a")),
        Operand::Const(Constant::Num(1)),
    );
    let operation = BinaryOperation::new(
        Operator::Inc,
        Operand::Const(Constant::Num(1)),
        Operand::Const(Constant::Num(1)),
    );
    assert!(condition.can_apply(&reg));
    assert!(!operation.can_apply(&reg));
    assert!(!Statement::new(condition, operation).can_apply(&reg));
    assert_eq!(Operand::Ident(String::from("nope")).peek(&reg), 0);
    assert_eq!(reg.get("nope"), None);
    assert_eq!(Operand::Ident(String::from("a")).peek(&reg), isize::MIN + 1);
}
