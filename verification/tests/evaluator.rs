use symbolic_unwind::base::{MemorySlice, RegisterValue, RuntimeEndian};
use symbolic_unwind::evaluator::parsing::ExprParsingErrorKind;
use symbolic_unwind::evaluator::{
    BinOp, Constant, EvaluationError, Expr, ExpressionError, MemoryEvaluator, Variable,
};

fn empty_evaluator<T: RegisterValue>() -> MemoryEvaluator<MemorySlice<'static>, T> {
    MemoryEvaluator::new(RuntimeEndian::Little)
}

// Arithmetic correctness: 7 + 7 on an 8-bit register type is 14.
#[test]
fn test_evaluate_add() {
    let ev = empty_evaluator::<u8>();
    let e = Expr::Op(Box::new(Expr::Value(7)), Box::new(Expr::Value(7)), BinOp::Add);
    assert_eq!(ev.evaluate(&e), Ok(14));
}

#[test]
fn test_evaluate_operators() {
    let ev = empty_evaluator::<u16>();
    let op = |a: u16, b: u16, op: BinOp| {
        Expr::Op(Box::new(Expr::Value(a)), Box::new(Expr::Value(b)), op)
    };
    assert_eq!(ev.evaluate(&op(9, 4, BinOp::Sub)), Ok(5));
    assert_eq!(ev.evaluate(&op(9, 4, BinOp::Mul)), Ok(36));
    assert_eq!(ev.evaluate(&op(9, 4, BinOp::Div)), Ok(2));
    assert_eq!(ev.evaluate(&op(9, 4, BinOp::Mod)), Ok(1));
    assert_eq!(ev.evaluate(&op(4, 9, BinOp::Sub)), Ok(0xfffb));
}

// Align semantics: aligning truncates down to the nearest multiple of the
// second operand.
#[test]
fn test_evaluate_align() {
    let ev = empty_evaluator::<u8>();
    let e = Expr::Op(Box::new(Expr::Value(10)), Box::new(Expr::Value(7)), BinOp::Align);
    assert_eq!(ev.evaluate(&e), Ok(7));
    let e = Expr::Op(Box::new(Expr::Value(21)), Box::new(Expr::Value(7)), BinOp::Align);
    assert_eq!(ev.evaluate(&e), Ok(21));
}

#[test]
fn test_evaluate_division_by_zero() {
    let ev = empty_evaluator::<u8>();
    for op in [BinOp::Div, BinOp::Mod, BinOp::Align] {
        let e = Expr::Op(Box::new(Expr::Value(1)), Box::new(Expr::Value(0)), op);
        assert_eq!(ev.evaluate(&e), Err(EvaluationError::DivisionByZero));
    }
}

// Undefined bindings: a constant or variable that is not bound fails with
// an error naming it.
#[test]
fn test_undefined_bindings() {
    let ev = empty_evaluator::<u8>();
    assert_eq!(
        ev.evaluate(&Expr::Const(Constant(b"baz".to_vec()))),
        Err(EvaluationError::UndefinedConstant(Constant(b"baz".to_vec())))
    );
    assert_eq!(
        ev.evaluate(&Expr::Var(Variable(b"$baz".to_vec()))),
        Err(EvaluationError::UndefinedVariable(Variable(b"$baz".to_vec())))
    );
}

#[test]
fn test_bound_constant_and_variable() {
    let mut ev = empty_evaluator::<u16>();
    ev.set_constant(Constant::new(b"wordSize"), 8);
    ev.set_variable(Variable::new(b"$sp"), 0x100);
    assert_eq!(Variable::new(b"$sp").name(), &b"$sp".to_vec());
    let e = Expr::Op(
        Box::new(Expr::Var(Variable(b"$sp".to_vec()))),
        Box::new(Expr::Const(Constant(b"wordSize".to_vec()))),
        BinOp::Add,
    );
    assert_eq!(ev.evaluate(&e), Ok(0x108));
    // a later binding shadows an earlier one
    ev.set_variable(Variable(b"$sp".to_vec()), 0x200);
    assert_eq!(ev.get_variable(&Variable(b"$sp".to_vec())), Some(0x200));
    assert_eq!(ev.get_constant(&Constant(b"wordSize".to_vec())), Some(8));
}

#[test]
fn test_deref_without_memory() {
    let ev = empty_evaluator::<u16>();
    let e = Expr::Deref(Box::new(Expr::Value(0x1000)));
    assert_eq!(ev.evaluate(&e), Err(EvaluationError::MemoryUnavailable));
}

// Memory bounds through the evaluator: a dereference inside the region
// succeeds, one past the end or before the base reports address, base and
// size.
#[test]
fn test_deref_memory_bounds() {
    let bytes = [0xaau8, 0xbb, 0xcc, 0xdd];
    let mut ev: MemoryEvaluator<MemorySlice, u16> = MemoryEvaluator::new(RuntimeEndian::Big);
    ev.memory = Some(MemorySlice::new(0x1000, &bytes));
    let deref_at = |a: u16| Expr::Deref(Box::new(Expr::Value(a)));
    assert_eq!(ev.evaluate(&deref_at(0x1002)), Ok(0xccdd));
    assert_eq!(
        ev.evaluate(&deref_at(0x1003)),
        Err(EvaluationError::MemoryOutOfBounds {
            address: 0x1003,
            base: 0x1000,
            size: 4,
        })
    );
    assert_eq!(
        ev.evaluate(&deref_at(0x0fff)),
        Err(EvaluationError::MemoryOutOfBounds {
            address: 0x0fff,
            base: 0x1000,
            size: 4,
        })
    );
}

#[test]
fn test_deref_endianness() {
    let bytes = [0x00u8, 0x01];
    let e = Expr::Deref(Box::new(Expr::Value(0u16)));
    let mut big: MemoryEvaluator<MemorySlice, u16> = MemoryEvaluator::new(RuntimeEndian::Big);
    big.memory = Some(MemorySlice::new(0, &bytes));
    assert_eq!(big.evaluate(&e), Ok(1));
    let mut little: MemoryEvaluator<MemorySlice, u16> = MemoryEvaluator::new(RuntimeEndian::Little);
    little.memory = Some(MemorySlice::new(0, &bytes));
    assert_eq!(little.evaluate(&e), Ok(256));
}

#[test]
fn test_assign_reports_overwrite() {
    let mut ev = empty_evaluator::<u8>();
    let a = symbolic_unwind::evaluator::Assignment(
        Variable(b"$r0".to_vec()),
        Expr::Value(5),
    );
    assert_eq!(ev.assign(&a), Ok(false));
    assert_eq!(ev.assign(&a), Ok(true));
    assert_eq!(ev.get_variable(&Variable(b"$r0".to_vec())), Some(5));
}

// Batch application order and reporting: assignments apply left to right,
// later ones may read earlier ones, and the changed set names each variable
// once.
#[test]
fn test_process_batch() {
    let mut ev = empty_evaluator::<u64>();
    let changed = ev.process(b"$foo 1 = $bar $foo 2 + =").unwrap();
    assert_eq!(changed.len(), 2);
    assert!(changed.contains(&Variable(b"$foo".to_vec())));
    assert!(changed.contains(&Variable(b"$bar".to_vec())));
    assert_eq!(ev.get_variable(&Variable(b"$foo".to_vec())), Some(1));
    assert_eq!(ev.get_variable(&Variable(b"$bar".to_vec())), Some(3));
}

#[test]
fn test_process_reports_variable_once() {
    let mut ev = empty_evaluator::<u64>();
    let changed = ev.process(b"$a 1 = $a 2 =").unwrap();
    assert_eq!(changed, vec![Variable(b"$a".to_vec())]);
    assert_eq!(ev.get_variable(&Variable(b"$a".to_vec())), Some(2));
}

#[test]
fn test_process_parse_error_applies_nothing() {
    let mut ev = empty_evaluator::<u64>();
    let err = ev.process(b"$a 1 = trailing garbage").unwrap_err();
    match err {
        ExpressionError::Parsing(pe) => {
            assert_eq!(pe.kind, ExprParsingErrorKind::Syntax);
            assert_eq!(pe.input, &b"trailing garbage"[..]);
        },
        other => panic!("expected a parsing error, got {:?}", other),
    }
    assert_eq!(ev.get_variable(&Variable(b"$a".to_vec())), None);
}

#[test]
fn test_process_stops_at_first_failure() {
    let mut ev = empty_evaluator::<u64>();
    let err = ev.process(b"$a 1 = $b $missing 1 + = $c 2 =").unwrap_err();
    match err {
        ExpressionError::Evaluation(ee) => {
            assert_eq!(
                ee,
                EvaluationError::UndefinedVariable(Variable(b"$missing".to_vec()))
            );
        },
        other => panic!("expected an evaluation error, got {:?}", other),
    }
    // the assignment before the failure stays applied, the one after it was
    // never reached
    assert_eq!(ev.get_variable(&Variable(b"$a".to_vec())), Some(1));
    assert_eq!(ev.get_variable(&Variable(b"$b".to_vec())), None);
    assert_eq!(ev.get_variable(&Variable(b"$c".to_vec())), None);
}
