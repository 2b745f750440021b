use symbolic_unwind::evaluator::parsing::{
    assignment, assignments, expr, variable, ExprParsingError, ExprParsingErrorKind,
};
use symbolic_unwind::evaluator::{Assignment, BinOp, Constant, Expr, Variable};

#[test]
fn test_expr_1() {
    let input = b"1 2 + -3 *";
    let e = Expr::Op(
        Box::new(Expr::Op(
            Box::new(Expr::Value(1i64)),
            Box::new(Expr::Value(2)),
            BinOp::Add,
        )),
        Box::new(Expr::Value(-3)),
        BinOp::Mul,
    );
    let (rest, parsed) = expr::<i64>(input).unwrap();
    assert_eq!(rest, &b""[..]);
    assert_eq!(parsed, vec![e]);
}

#[test]
fn test_var() {
    let input = b"$foo bar";
    let v = Variable(b"$foo".to_vec());
    let (rest, parsed) = variable(input).unwrap();
    assert_eq!(rest, &b" bar"[..]);
    assert_eq!(parsed, v);
}

#[test]
fn test_expr_2() {
    let input = b"1 2 ^ + -3 $foo *";
    let e1 = Expr::Op(
        Box::new(Expr::Value(1i64)),
        Box::new(Expr::Deref(Box::new(Expr::Value(2)))),
        BinOp::Add,
    );
    let e2 = Expr::Op(
        Box::new(Expr::Value(-3)),
        Box::new(Expr::Var(Variable(b"$foo".to_vec()))),
        BinOp::Mul,
    );
    let (rest, parsed) = expr::<i64>(input).unwrap();
    assert_eq!(rest, &b""[..]);
    assert_eq!(parsed, vec![e1, e2]);
}

#[test]
fn test_expr_malformed() {
    let input = b"3 +";
    let err = expr::<i8>(input).unwrap_err();
    assert_eq!(
        err,
        ExprParsingError {
            input: &b"+"[..],
            kind: ExprParsingErrorKind::NotEnoughOperands,
        }
    );
}

#[test]
fn test_assignment() {
    let input = b"$foo -4 ^ 7 @ =";
    let v = Variable(b"$foo".to_vec());
    let e = Expr::Op(
        Box::new(Expr::Deref(Box::new(Expr::Value(-4i64)))),
        Box::new(Expr::Value(7)),
        BinOp::Align,
    );

    let (rest, a) = assignment::<i64>(input).unwrap();
    assert_eq!(rest, &b""[..]);
    assert_eq!(a, Assignment(v, e));
}

#[test]
fn test_assignment_2() {
    let input = b"$foo -4 ^ = $bar baz 17 + = -42";
    let (v1, v2) = (Variable(b"$foo".to_vec()), Variable(b"$bar".to_vec()));
    let e1 = Expr::Deref(Box::new(Expr::Value(-4i64)));
    let e2 = Expr::Op(
        Box::new(Expr::Const(Constant(b"baz".to_vec()))),
        Box::new(Expr::Value(17)),
        BinOp::Add,
    );

    let (rest, a1) = assignment::<i64>(input).unwrap();
    let (rest, a2) = assignment::<i64>(rest).unwrap();
    assert_eq!(rest, &b" -42"[..]);
    assert_eq!(a1, Assignment(v1, e1));
    assert_eq!(a2, Assignment(v2, e2));
}

#[test]
fn test_assignment_malformed() {
    let input = b"$foo -4 ^ 7 =";
    let err = assignment::<i8>(input).unwrap_err();
    assert_eq!(
        err,
        ExprParsingError {
            input: &b"="[..],
            kind: ExprParsingErrorKind::MalformedAssignment,
        }
    );
}

#[test]
fn test_illegal_variable_name() {
    let err = variable(b"foo").unwrap_err();
    assert_eq!(
        err,
        ExprParsingError {
            input: &b"foo"[..],
            kind: ExprParsingErrorKind::IllegalVariableName,
        }
    );
}

#[test]
fn test_variable_missing_identifier() {
    let err = variable(b"$ foo").unwrap_err();
    assert_eq!(
        err,
        ExprParsingError {
            input: &b" foo"[..],
            kind: ExprParsingErrorKind::Syntax,
        }
    );
}

#[test]
fn test_assignment_missing_equals() {
    let err = assignment::<i64>(b"$foo 4").unwrap_err();
    assert_eq!(
        err,
        ExprParsingError {
            input: &b""[..],
            kind: ExprParsingErrorKind::Syntax,
        }
    );
}

#[test]
fn test_assignments_all_or_nothing() {
    let err = assignments::<i64>(b"$foo 1 = garbage!").unwrap_err();
    assert_eq!(
        err,
        ExprParsingError {
            input: &b"garbage!"[..],
            kind: ExprParsingErrorKind::Syntax,
        }
    );
}

#[test]
fn test_assignments_empty_input() {
    let parsed = assignments::<i64>(b"").unwrap();
    assert_eq!(parsed, vec![]);
}

#[test]
fn test_assignments_two() {
    let parsed = assignments::<u64>(b"$a 1 = $b 2 =").unwrap();
    assert_eq!(parsed.len(), 2);
    assert_eq!(
        parsed[0],
        Assignment(Variable(b"$a".to_vec()), Expr::Value(1u64))
    );
    assert_eq!(
        parsed[1],
        Assignment(Variable(b"$b".to_vec()), Expr::Value(2u64))
    );
}

// A literal too large for the value type is not a number token; an
// all-digit word then parses as a constant instead, and a lone `-` is the
// subtraction operator.
#[test]
fn test_number_overflow_becomes_constant() {
    let (rest, parsed) = expr::<u8>(b"300").unwrap();
    assert_eq!(rest, &b""[..]);
    assert_eq!(parsed, vec![Expr::Const(Constant(b"300".to_vec()))]);

    let err = expr::<u8>(b"-3").unwrap_err();
    assert_eq!(err.kind, ExprParsingErrorKind::NotEnoughOperands);
    assert_eq!(err.input, &b"-3"[..]);
}

// Round trip: rendering a parsed expression gives back the canonical text,
// and parsing a rendered tree gives back the tree.
#[test]
fn test_render_round_trip() {
    let e: Expr<i64> = Expr::Op(
        Box::new(Expr::Deref(Box::new(Expr::Value(-4)))),
        Box::new(Expr::Op(
            Box::new(Expr::Var(Variable(b"$sp".to_vec()))),
            Box::new(Expr::Const(Constant(b"wordSize8".to_vec()))),
            BinOp::Mul,
        )),
        BinOp::Align,
    );
    let text = e.render();
    assert_eq!(text, b"-4 ^ $sp wordSize8 * @".to_vec());
    let (rest, parsed) = expr::<i64>(&text).unwrap();
    assert_eq!(rest, &b""[..]);
    assert_eq!(parsed, vec![e]);
}

#[test]
fn test_render_assignment() {
    let a = Assignment(
        Variable(b"$foo".to_vec()),
        Expr::Op(
            Box::new(Expr::Value(1u64)),
            Box::new(Expr::Value(2)),
            BinOp::Add,
        ),
    );
    let text = a.render();
    assert_eq!(text, b"$foo 1 2 + =".to_vec());
    let (rest, parsed) = assignment::<u64>(&text).unwrap();
    assert_eq!(rest, &b""[..]);
    assert_eq!(parsed, a);
}

#[test]
fn test_expr_sequence() {
    let (rest, stack) = expr::<u64>(b"1 2 + 3").unwrap();
    assert_eq!(rest, &b""[..]);
    assert_eq!(stack.len(), 2);
    assert_eq!(
        stack[0],
        Expr::Op(Box::new(Expr::Value(1)), Box::new(Expr::Value(2)), BinOp::Add)
    );
    assert_eq!(stack[1], Expr::Value(3));
}

// The scan stops without error at input it cannot classify; spaces it did
// not pass over stay in the remainder.
#[test]
fn test_expr_stops_at_unknown_input() {
    let (rest, stack) = expr::<u64>(b"1 2 !").unwrap();
    assert_eq!(rest, &b"!"[..]);
    assert_eq!(stack, vec![Expr::Value(1), Expr::Value(2)]);

    let (rest, stack) = expr::<u64>(b"   ").unwrap();
    assert_eq!(rest, &b"   "[..]);
    assert_eq!(stack, vec![]);

    let (rest, stack) = expr::<u64>(b"").unwrap();
    assert_eq!(rest, &b""[..]);
    assert_eq!(stack, vec![]);
}

// Whitespace between tokens may be absent where the token boundary is
// unambiguous.
#[test]
fn test_assignment_without_spaces() {
    let (rest, a) = assignment::<u64>(b"$foo 5=").unwrap();
    assert_eq!(rest, &b""[..]);
    assert_eq!(a, Assignment(Variable(b"$foo".to_vec()), Expr::Value(5)));
}
