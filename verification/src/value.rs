//! Runtime values, evaluation errors and the operators that need nothing but
//! their operands.

use crate::ast::{BooleanOperator, ComparisonOperator, NumericOperator};
use vstd::prelude::*;

verus! {

/// A runtime value. Objects, lists, closures and effects live in the
/// interpreter's store and are named here by their handle, so a value is small
/// and freely copied, and two holders of one handle see each other's writes.
#[derive(Debug, Clone, Copy, PartialEq, Eq, Structural)]
pub enum Value {
    Null,
    Bool(bool),
    Int(i64),
    /// Handle of an insertion-ordered table from key to value.
    Object(usize),
    /// Handle of a sequence of values.
    List(usize),
    /// A minted atom; equal to another symbol only if the ids are equal.
    Symbol(u64),
    /// Handle of a function together with the scope it captured.
    Closure(usize),
    /// Handle of the tag and payload of a `send` that no handler took: the
    /// value of that `send`.
    Effect(usize),
}

/// Why an evaluation stopped without a value.
#[derive(Debug, Clone, Copy, PartialEq, Eq, Structural)]
pub enum EvalError {
    /// A name was read or assigned without a live binding.
    UndefinedVariable,
    /// An operator or built-in met an operand of the wrong kind.
    TypeMismatch,
    DivisionByZero,
    /// A list index, after negative indices are counted from the end, lies
    /// outside the list.
    IndexOutOfRange,
    /// A call passed a number of arguments other than the number of parameters.
    ArityMismatch,
    /// Calls and resumptions nested deeper than `RECURSION_LIMIT`.
    RecursionLimitExceeded,
    /// The result of an integer operation does not fit in 64 bits, or the
    /// symbol counter is exhausted.
    IntegerOverflow,
    /// A `Break` or `NextIteration` ran with no loop active.
    NoEnclosingLoop,
    /// The step budget ran out before the evaluation ended.
    StepLimitExceeded,
}

/// Whether two values are of one kind.
pub open spec fn same_kind(l: Value, r: Value) -> bool {
    match (l, r) {
        (Value::Null, Value::Null) => true,
        (Value::Bool(_), Value::Bool(_)) => true,
        (Value::Int(_), Value::Int(_)) => true,
        (Value::Object(_), Value::Object(_)) => true,
        (Value::List(_), Value::List(_)) => true,
        (Value::Symbol(_), Value::Symbol(_)) => true,
        (Value::Closure(_), Value::Closure(_)) => true,
        (Value::Effect(_), Value::Effect(_)) => true,
        _ => false,
    }
}

/// Whether `n` is a 64-bit signed integer.
pub open spec fn fits_i64(n: int) -> bool {
    i64::MIN <= n <= i64::MAX
}

/// The integer `n` as a value, or an overflow where it does not fit.
pub open spec fn int_result(n: int) -> Result<Value, EvalError> {
    if fits_i64(n) {
        Ok(Value::Int(n as i64))
    } else {
        Err(EvalError::IntegerOverflow)
    }
}

/// The absolute value.
pub open spec fn magnitude(n: int) -> int {
    if n < 0 {
        -n
    } else {
        n
    }
}

/// The quotient rounded toward zero, for a divisor other than zero.
pub open spec fn quotient(a: int, b: int) -> int {
    if (a < 0) == (b < 0) {
        magnitude(a) / magnitude(b)
    } else {
        -(magnitude(a) / magnitude(b))
    }
}

/// The remainder that goes with `quotient`; it has the sign of `a`.
pub open spec fn remainder(a: int, b: int) -> int {
    if a < 0 {
        -(magnitude(a) % magnitude(b))
    } else {
        magnitude(a) % magnitude(b)
    }
}

/// Arithmetic negation: of an integer, unless the result does not fit.
pub open spec fn spec_negate(v: Value) -> Result<Value, EvalError> {
    match v {
        Value::Int(n) => int_result(-n),
        _ => Err(EvalError::TypeMismatch),
    }
}

/// Logical negation: of a boolean.
pub open spec fn spec_not(v: Value) -> Result<Value, EvalError> {
    match v {
        Value::Bool(b) => Ok(Value::Bool(!b)),
        _ => Err(EvalError::TypeMismatch),
    }
}

/// The boolean operators: both operands must be booleans, and both are
/// evaluated whatever the first one is.
pub open spec fn spec_boolean(op: BooleanOperator, l: Value, r: Value) -> Result<
    Value,
    EvalError,
> {
    match (l, r) {
        (Value::Bool(a), Value::Bool(b)) => Ok(
            Value::Bool(
                match op {
                    BooleanOperator::And => a && b,
                    BooleanOperator::Or => a || b,
                    BooleanOperator::Xor => a != b,
                },
            ),
        ),
        _ => Err(EvalError::TypeMismatch),
    }
}

/// The numeric operators: both operands must be integers; a zero divisor is
/// an error of its own, and so is a result that does not fit.
pub open spec fn spec_numeric(op: NumericOperator, l: Value, r: Value) -> Result<
    Value,
    EvalError,
> {
    match (l, r) {
        (Value::Int(a), Value::Int(b)) => match op {
            NumericOperator::Add => int_result(a + b),
            NumericOperator::Subtract => int_result(a - b),
            NumericOperator::Multiply => int_result(a * b),
            NumericOperator::Divide => if b == 0 {
                Err(EvalError::DivisionByZero)
            } else {
                int_result(quotient(a as int, b as int))
            },
            NumericOperator::Modulo => if b == 0 {
                Err(EvalError::DivisionByZero)
            } else {
                int_result(remainder(a as int, b as int))
            },
        },
        _ => Err(EvalError::TypeMismatch),
    }
}

/// The four order comparisons, which are defined between integers only.
/// (`Equal` and `NotEqual` look into the store and are found there.)
pub open spec fn spec_order(op: ComparisonOperator, l: Value, r: Value) -> Result<
    Value,
    EvalError,
> {
    match (l, r) {
        (Value::Int(a), Value::Int(b)) => match op {
            ComparisonOperator::Less => Ok(Value::Bool(a < b)),
            ComparisonOperator::LessEqual => Ok(Value::Bool(a <= b)),
            ComparisonOperator::Greater => Ok(Value::Bool(a > b)),
            ComparisonOperator::GreaterEqual => Ok(Value::Bool(a >= b)),
            _ => Err(EvalError::TypeMismatch),
        },
        _ => Err(EvalError::TypeMismatch),
    }
}

/// The position that index `i` names in a list of `len` elements: itself
/// where `0 <= i < len`, `len + i` where `-len <= i < 0`, none otherwise.
pub open spec fn spec_normalize_index(len: nat, i: int) -> Option<nat> {
    if 0 <= i < len {
        Some(i as nat)
    } else if -(len as int) <= i < 0 {
        Some((len + i) as nat)
    } else {
        None
    }
}

/// Arithmetic negation.
pub fn negate(v: Value) -> (res: Result<Value, EvalError>)
    ensures
        res == spec_negate(v),
{
    match v {
        Value::Int(n) => checked(0i64.checked_sub(n)),
        _ => Err(EvalError::TypeMismatch),
    }
}

/// Logical negation.
pub fn not(v: Value) -> (res: Result<Value, EvalError>)
    ensures
        res == spec_not(v),
{
    match v {
        Value::Bool(b) => Ok(Value::Bool(!b)),
        _ => Err(EvalError::TypeMismatch),
    }
}

/// The result of boolean operator `op` on `l` and `r`.
pub fn boolean(op: BooleanOperator, l: Value, r: Value) -> (res: Result<Value, EvalError>)
    ensures
        res == spec_boolean(op, l, r),
{
    match (l, r) {
        (Value::Bool(a), Value::Bool(b)) => {
            let c = match op {
                BooleanOperator::And => a && b,
                BooleanOperator::Or => a || b,
                BooleanOperator::Xor => a != b,
            };
            Ok(Value::Bool(c))
        },
        _ => Err(EvalError::TypeMismatch),
    }
}

fn checked(n: Option<i64>) -> (res: Result<Value, EvalError>)
    ensures
        res == match n {
            Some(m) => Ok::<Value, EvalError>(Value::Int(m)),
            None => Err(EvalError::IntegerOverflow),
        },
{
    match n {
        Some(m) => Ok(Value::Int(m)),
        None => Err(EvalError::IntegerOverflow),
    }
}

/// The result of numeric operator `op` on `l` and `r`.
pub fn numeric(op: NumericOperator, l: Value, r: Value) -> (res: Result<Value, EvalError>)
    ensures
        res == spec_numeric(op, l, r),
{
    match (l, r) {
        (Value::Int(a), Value::Int(b)) => match op {
            NumericOperator::Add => checked(a.checked_add(b)),
            NumericOperator::Subtract => checked(a.checked_sub(b)),
            NumericOperator::Multiply => checked(a.checked_mul(b)),
            NumericOperator::Divide => if b == 0 {
                Err(EvalError::DivisionByZero)
            } else {
                checked(a.checked_div(b))
            },
            NumericOperator::Modulo => if b == 0 {
                Err(EvalError::DivisionByZero)
            } else if b == -1 {
                Ok(Value::Int(0))
            } else {
                checked(a.checked_rem(b))
            },
        },
        _ => Err(EvalError::TypeMismatch),
    }
}

/// The result of order comparison `op` on `l` and `r`.
pub fn order(op: ComparisonOperator, l: Value, r: Value) -> (res: Result<Value, EvalError>)
    ensures
        res == spec_order(op, l, r),
{
    match (l, r) {
        (Value::Int(a), Value::Int(b)) => match op {
            ComparisonOperator::Less => Ok(Value::Bool(a < b)),
            ComparisonOperator::LessEqual => Ok(Value::Bool(a <= b)),
            ComparisonOperator::Greater => Ok(Value::Bool(a > b)),
            ComparisonOperator::GreaterEqual => Ok(Value::Bool(a >= b)),
            _ => Err(EvalError::TypeMismatch),
        },
        _ => Err(EvalError::TypeMismatch),
    }
}

/// The position that index `i` names in a list of `len` elements, counting
/// negative indices from the end.
pub fn normalize_index(len: usize, i: i64) -> (res: Option<usize>)
    ensures
        match spec_normalize_index(len as nat, i as int) {
            Some(n) => res == Some(n as usize) && n < len,
            None => res.is_none(),
        },
{
    if i >= 0 {
        if (i as u64) < (len as u64) {
            Some(i as usize)
        } else {
            None
        }
    } else {
        let back: u64 = (-(i + 1)) as u64 + 1;
        if back <= len as u64 {
            Some(len - (back as usize))
        } else {
            None
        }
    }
}

} // verus!
