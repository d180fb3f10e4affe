use kal::ast::{
    Block, BooleanOperator, ComparisonOperator, Expression, Int, List, ListElem, NumericOperator,
};
use kal::eval::Interpreter;
use kal::value::{boolean, negate, normalize_index, not, numeric, order, EvalError, Value};
use std::rc::Rc;

#[test]
fn negate_and_not() {
    assert_eq!(negate(Value::Int(5)), Ok(Value::Int(-5)));
    assert_eq!(negate(Value::Int(0)), Ok(Value::Int(0)));
    assert_eq!(negate(Value::Int(i64::MAX)), Ok(Value::Int(i64::MIN + 1)));
    assert_eq!(negate(Value::Int(i64::MIN)), Err(EvalError::IntegerOverflow));
    assert_eq!(negate(Value::Null), Err(EvalError::TypeMismatch));
    assert_eq!(not(Value::Bool(false)), Ok(Value::Bool(true)));
    assert_eq!(not(Value::Symbol(0)), Err(EvalError::TypeMismatch));
}

#[test]
fn boolean_table() {
    for a in [false, true] {
        for b in [false, true] {
            let (l, r) = (Value::Bool(a), Value::Bool(b));
            assert_eq!(boolean(BooleanOperator::And, l, r), Ok(Value::Bool(a && b)));
            assert_eq!(boolean(BooleanOperator::Or, l, r), Ok(Value::Bool(a || b)));
            assert_eq!(boolean(BooleanOperator::Xor, l, r), Ok(Value::Bool(a != b)));
        }
    }
    assert_eq!(
        boolean(BooleanOperator::Or, Value::Bool(true), Value::Null),
        Err(EvalError::TypeMismatch)
    );
    assert_eq!(
        boolean(BooleanOperator::Or, Value::Int(1), Value::Bool(true)),
        Err(EvalError::TypeMismatch)
    );
}

#[test]
fn numeric_results() {
    let op = |o: NumericOperator, a: i64, b: i64| numeric(o, Value::Int(a), Value::Int(b));
    assert_eq!(op(NumericOperator::Add, 2, 3), Ok(Value::Int(5)));
    assert_eq!(op(NumericOperator::Subtract, 2, 3), Ok(Value::Int(-1)));
    assert_eq!(op(NumericOperator::Multiply, -2, 3), Ok(Value::Int(-6)));
    assert_eq!(op(NumericOperator::Divide, 17, 5), Ok(Value::Int(3)));
    assert_eq!(op(NumericOperator::Divide, -17, 5), Ok(Value::Int(-3)));
    assert_eq!(op(NumericOperator::Divide, 17, -5), Ok(Value::Int(-3)));
    assert_eq!(op(NumericOperator::Divide, -17, -5), Ok(Value::Int(3)));
    assert_eq!(op(NumericOperator::Divide, 0, -5), Ok(Value::Int(0)));
    assert_eq!(op(NumericOperator::Modulo, 17, 5), Ok(Value::Int(2)));
    assert_eq!(op(NumericOperator::Modulo, -17, 5), Ok(Value::Int(-2)));
    assert_eq!(op(NumericOperator::Modulo, 17, -5), Ok(Value::Int(2)));
    assert_eq!(op(NumericOperator::Modulo, -17, -5), Ok(Value::Int(-2)));
    assert_eq!(op(NumericOperator::Modulo, i64::MIN, -1), Ok(Value::Int(0)));
    assert_eq!(op(NumericOperator::Divide, i64::MIN, 1), Ok(Value::Int(i64::MIN)));
    assert_eq!(op(NumericOperator::Divide, i64::MIN, -1), Err(EvalError::IntegerOverflow));
    assert_eq!(op(NumericOperator::Divide, 5, 0), Err(EvalError::DivisionByZero));
    assert_eq!(op(NumericOperator::Modulo, 5, 0), Err(EvalError::DivisionByZero));
    assert_eq!(op(NumericOperator::Divide, 0, 0), Err(EvalError::DivisionByZero));
    assert_eq!(op(NumericOperator::Add, i64::MAX, 1), Err(EvalError::IntegerOverflow));
    assert_eq!(op(NumericOperator::Add, i64::MIN, -1), Err(EvalError::IntegerOverflow));
    assert_eq!(op(NumericOperator::Subtract, i64::MIN, 1), Err(EvalError::IntegerOverflow));
    assert_eq!(op(NumericOperator::Subtract, 0, i64::MIN), Err(EvalError::IntegerOverflow));
    assert_eq!(op(NumericOperator::Multiply, i64::MIN, -1), Err(EvalError::IntegerOverflow));
    assert_eq!(op(NumericOperator::Multiply, 1 << 32, 1 << 31), Err(EvalError::IntegerOverflow));
    assert_eq!(op(NumericOperator::Multiply, 1 << 31, 1 << 31), Ok(Value::Int(1 << 62)));
    // A divisor of the wrong kind is a type mismatch, not a division by zero.
    assert_eq!(
        numeric(NumericOperator::Divide, Value::Int(1), Value::Bool(false)),
        Err(EvalError::TypeMismatch)
    );
    assert_eq!(
        numeric(NumericOperator::Add, Value::Null, Value::Int(1)),
        Err(EvalError::TypeMismatch)
    );
}

#[test]
fn order_is_for_integers() {
    let op = |o: ComparisonOperator, a: i64, b: i64| order(o, Value::Int(a), Value::Int(b));
    assert_eq!(op(ComparisonOperator::Less, 1, 2), Ok(Value::Bool(true)));
    assert_eq!(op(ComparisonOperator::Less, 2, 2), Ok(Value::Bool(false)));
    assert_eq!(op(ComparisonOperator::LessEqual, 2, 2), Ok(Value::Bool(true)));
    assert_eq!(op(ComparisonOperator::LessEqual, 3, 2), Ok(Value::Bool(false)));
    assert_eq!(op(ComparisonOperator::Greater, 3, 2), Ok(Value::Bool(true)));
    assert_eq!(op(ComparisonOperator::Greater, 2, 2), Ok(Value::Bool(false)));
    assert_eq!(op(ComparisonOperator::GreaterEqual, 2, 2), Ok(Value::Bool(true)));
    assert_eq!(op(ComparisonOperator::GreaterEqual, -3, 2), Ok(Value::Bool(false)));
    assert_eq!(
        order(ComparisonOperator::Less, Value::Symbol(0), Value::Symbol(1)),
        Err(EvalError::TypeMismatch)
    );
    assert_eq!(
        order(ComparisonOperator::Less, Value::Int(0), Value::Null),
        Err(EvalError::TypeMismatch)
    );
}

#[test]
fn index_positions() {
    assert_eq!(normalize_index(3, 0), Some(0));
    assert_eq!(normalize_index(3, 2), Some(2));
    assert_eq!(normalize_index(3, 3), None);
    assert_eq!(normalize_index(3, -1), Some(2));
    assert_eq!(normalize_index(3, -3), Some(0));
    assert_eq!(normalize_index(3, -4), None);
    assert_eq!(normalize_index(0, 0), None);
    assert_eq!(normalize_index(0, -1), None);
    assert_eq!(normalize_index(1, i64::MIN), None);
    assert_eq!(normalize_index(1, i64::MAX), None);
    assert_eq!(normalize_index(usize::MAX, -1), Some(usize::MAX - 1));
}

#[test]
fn symbols_compare_by_id() {
    let runtime = Interpreter::new();
    for a in [0u64, 1, 7] {
        for b in [0u64, 1, 7] {
            assert_eq!(runtime.equal(Value::Symbol(a), Value::Symbol(b), 0), Ok(a == b));
            assert_eq!(
                runtime.compare(ComparisonOperator::Equal, Value::Symbol(a), Value::Symbol(b)),
                Ok(Value::Bool(a == b))
            );
            assert_eq!(
                runtime.compare(ComparisonOperator::NotEqual, Value::Symbol(a), Value::Symbol(b)),
                Ok(Value::Bool(a != b))
            );
        }
    }
    assert_eq!(runtime.equal(Value::Symbol(1), Value::Int(1), 8), Err(EvalError::TypeMismatch));
}

#[test]
fn minting_counts_up() {
    let mut runtime = Interpreter::new();
    for id in 0..100u64 {
        assert_eq!(runtime.next_symbol(), id);
        assert_eq!(runtime.mint(), Ok(Value::Symbol(id)));
    }
}

#[test]
fn declare_assign_lookup() {
    let x = "x".to_string();
    let y = "y".to_string();
    let mut runtime = Interpreter::new();
    assert_eq!(runtime.lookup(0, &x), None);
    assert_eq!(runtime.resolve(0, &x), None);
    assert_eq!(runtime.assign(0, &x, Value::Int(1)), Err(EvalError::UndefinedVariable));
    assert_eq!(runtime.lookup(0, &x), None);
    runtime.declare(0, &x, Value::Int(1));
    runtime.declare(0, &y, Value::Bool(true));
    assert_eq!(runtime.lookup(0, &x), Some(Value::Int(1)));
    assert_eq!(runtime.resolve(0, &x), Some((0, 0)));
    assert_eq!(runtime.resolve(0, &y), Some((0, 1)));
    assert_eq!(runtime.assign(0, &x, Value::Int(2)), Ok(()));
    assert_eq!(runtime.lookup(0, &x), Some(Value::Int(2)));
    assert_eq!(runtime.lookup(0, &y), Some(Value::Bool(true)));
    // Declaring again replaces the binding where it stands.
    runtime.declare(0, &x, Value::Null);
    assert_eq!(runtime.lookup(0, &x), Some(Value::Null));
    assert_eq!(runtime.resolve(0, &x), Some((0, 0)));
    // There is no scope 7.
    assert_eq!(runtime.lookup(7, &x), None);
    runtime.declare(7, &x, Value::Int(9));
    assert_eq!(runtime.lookup(0, &x), Some(Value::Null));
}

#[test]
fn what_the_host_declares_the_program_sees() {
    let x = "x".to_string();
    let ast = Block {
        expression: Some(Rc::new(Expression::List(List {
            elements: vec![
                ListElem::Elem(Rc::new(Expression::Location(kal::ast::LocationChain {
                    base: kal::ast::LocationChainBase::Ident("x".to_string()),
                    parts: vec![],
                }))),
                ListElem::Elem(Rc::new(Expression::Int(Int(2)))),
            ],
        }))),
        statements: vec![],
    };
    let mut runtime = Interpreter::new();
    runtime.declare(0, &x, Value::Int(1));
    let val = runtime.eval(&ast).unwrap();
    assert_eq!(runtime.list(val).unwrap().clone(), vec![Value::Int(1), Value::Int(2)]);
    assert!(runtime.list(Value::Int(0)).is_none());
    assert!(runtime.object(val).is_none());
    // A list is not equal to a copy of itself with another element.
    let again = runtime.eval(&ast).unwrap();
    assert_ne!(val, again);
    assert_eq!(runtime.equal(val, again, 4), Ok(true));
    runtime.declare(0, &x, Value::Int(3));
    let other = runtime.eval(&ast).unwrap();
    assert_eq!(runtime.equal(val, other, 4), Ok(false));
    assert_eq!(runtime.equal(val, other, 0), Err(EvalError::RecursionLimitExceeded));
    assert_eq!(runtime.equal(val, val, 0), Ok(true));
}
