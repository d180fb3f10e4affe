use kal::ast::{
    Assignment, Block, Bool, BooleanExpression, BooleanOperator, Break, Builtin,
    ComparisonExpression, ComparisonOperator, Continue, Custom, DotExpression, DotLocation,
    Expression, ExpressionStatement, Function, FunctionInvocation, Handle, HandleMatch,
    IfExpression, IfPart, IndexExpression, IndexLocation, Int, IntoStatement, LetStatement, List,
    ListElem,
    Location, LocationChain, LocationChainBase, LoopExpression, NegativeExpression,
    NextIteration, NotExpression, Null, NumericExpression, NumericOperator, Object, SendExpr,
    Statement,
};
use kal::eval::Interpreter;
use kal::value::{EvalError, Value};
use std::rc::Rc;

type Expr = Rc<Expression>;

fn null() -> Expr {
    Rc::new(Expression::Null(Null))
}

fn boolean(b: bool) -> Expr {
    Rc::new(Expression::Bool(Bool(b)))
}

fn lit(n: i64) -> Expr {
    Rc::new(Expression::Int(Int(n)))
}

fn ident(name: &str) -> LocationChain {
    LocationChain { base: LocationChainBase::Ident(name.to_string()), parts: vec![] }
}

fn var(name: &str) -> Expr {
    Rc::new(Expression::Location(ident(name)))
}

fn dot_step(prop: &str) -> Rc<Location> {
    Rc::new(Location::Dot(DotLocation { prop: prop.to_string() }))
}

fn index_step(index: Expr) -> Rc<Location> {
    Rc::new(Location::Index(IndexLocation { index }))
}

fn chain(name: &str, parts: Vec<Rc<Location>>) -> LocationChain {
    LocationChain { base: LocationChainBase::Ident(name.to_string()), parts }
}

fn neg(expr: Expr) -> Expr {
    Rc::new(Expression::Negative(NegativeExpression { expr }))
}

fn not(expr: Expr) -> Expr {
    Rc::new(Expression::Not(NotExpression { expr }))
}

fn num(operator: NumericOperator, left: Expr, right: Expr) -> Expr {
    Rc::new(Expression::Numeric(NumericExpression { left, right, operator }))
}

fn plus(left: Expr, right: Expr) -> Expr {
    num(NumericOperator::Add, left, right)
}

fn times(left: Expr, right: Expr) -> Expr {
    num(NumericOperator::Multiply, left, right)
}

fn minus(left: Expr, right: Expr) -> Expr {
    num(NumericOperator::Subtract, left, right)
}

fn cmp(operator: ComparisonOperator, left: Expr, right: Expr) -> Expr {
    Rc::new(Expression::Comparison(ComparisonExpression { left, right, operator }))
}

fn logic(operator: BooleanOperator, left: Expr, right: Expr) -> Expr {
    Rc::new(Expression::Boolean(BooleanExpression { left, right, operator }))
}

fn dot(base: Expr, prop: &str) -> Expr {
    Rc::new(Expression::Dot(DotExpression { base, prop: prop.to_string() }))
}

fn index(base: Expr, index: Expr) -> Expr {
    Rc::new(Expression::Index(IndexExpression { base, index }))
}

fn block(statements: Vec<Rc<Statement>>, expression: Option<Expr>) -> Block {
    Block { expression, statements }
}

fn value_block(expression: Expr) -> Block {
    block(vec![], Some(expression))
}

fn block_expr(b: Block) -> Expr {
    Rc::new(Expression::Block(b))
}

fn let_(name: &str, expr: Expr) -> Rc<Statement> {
    Rc::new(Statement::Let(LetStatement { ident: name.to_string(), expr }))
}

fn assign(location: LocationChain, expr: Expr) -> Rc<Statement> {
    Rc::new(Statement::Assignment(Assignment { location, expr }))
}

fn stmt(expr: Expr) -> Rc<Statement> {
    expr.into_statement()
}

fn if_(parts: Vec<(Expr, Block)>, else_body: Option<Block>) -> Expr {
    let mut ifs = Vec::new();
    for (cond, body) in parts {
        ifs.push(IfPart { cond, body: Rc::new(body) });
    }
    Rc::new(Expression::If(IfExpression { else_body: else_body.map(Rc::new), ifs }))
}

fn loop_(body: Block) -> Expr {
    Rc::new(Expression::Loop(LoopExpression { body: Rc::new(body) }))
}

fn break_(expr: Option<Expr>) -> Expr {
    Rc::new(Expression::Break(Break { expr }))
}

fn next(expr: Option<Expr>) -> Expr {
    Rc::new(Expression::NextIteration(NextIteration { expr }))
}

fn func(parameters: &[&str], body: Block) -> Expr {
    Rc::new(Expression::Function(Function {
        body: Rc::new(body),
        parameters: parameters.iter().map(|p| p.to_string()).collect(),
    }))
}

fn call(base: Expr, parameters: Vec<Expr>) -> Expr {
    Rc::new(Expression::Invocation(FunctionInvocation { base, parameters }))
}

fn object(pairs: Vec<(&str, Expr)>) -> Expr {
    Rc::new(Expression::Object(Object {
        pairs: pairs.into_iter().map(|(k, e)| (k.to_string(), e)).collect(),
    }))
}

fn list(elements: Vec<ListElem>) -> Expr {
    Rc::new(Expression::List(List { elements }))
}

fn ints_of(elements: Vec<Expr>) -> Expr {
    list(elements.into_iter().map(ListElem::Elem).collect())
}

fn ints(values: &[i64]) -> Expr {
    list(values.iter().map(|n| ListElem::Elem(lit(*n))).collect())
}

fn handle(expr: Expr, arms: Vec<(&str, &str, Block)>) -> Expr {
    let mut match_arms = Vec::new();
    for (symbol, param, body) in arms {
        match_arms.push(HandleMatch {
            symbol: symbol.to_string(),
            param: param.to_string(),
            block: Rc::new(body),
        });
    }
    Rc::new(Expression::Handle(Handle { expr, match_arms }))
}

fn send(symbol: &str, expr: Option<Expr>) -> Expr {
    Rc::new(Expression::Send(SendExpr { symbol: symbol.to_string(), expr }))
}

fn resume(expr: Option<Expr>) -> Expr {
    Rc::new(Expression::Continue(Continue { expr }))
}

fn symbol() -> Expr {
    Rc::new(Expression::Custom(Custom::new("symbol", Builtin::Symbol)))
}

fn eval(ast: &Block) -> Result<Value, EvalError> {
    let mut runtime = Interpreter::new();
    runtime.eval(ast)
}

fn eval_expr(expr: Expr) -> Result<Value, EvalError> {
    eval(&value_block(expr))
}

fn eval_list(expr: Expr) -> Vec<Value> {
    let ast = value_block(expr);
    let mut runtime = Interpreter::new();
    let val = runtime.eval(&ast).unwrap();
    runtime.list(val).unwrap().clone()
}

fn int_values(values: &[i64]) -> Vec<Value> {
    values.iter().map(|n| Value::Int(*n)).collect()
}

#[test]
fn big_file() {
    // let num = 0; let num=num+1; let num=num+1; ... num
    let size = 4_000_000_i64;
    let step = let_("num", plus(var("num"), lit(1)));
    let mut statements = vec![let_("num", lit(0))];
    for _ in 0..size {
        statements.push(step.clone());
    }
    let ast = block(statements, Some(var("num")));
    let mut runtime = Interpreter::new();
    let val = runtime.eval(&ast);
    assert!(val == Ok(Value::Int(size)));
}

#[test]
fn handle_implicit() {
    // A function that sends is called where no handler is active:
    // let ask = fn() { send question 1 + 3 }; ask()
    let ast = block(
        vec![let_("ask", func(&[], value_block(send("question", Some(plus(lit(1), lit(3)))))))],
        Some(call(var("ask"), vec![])),
    );
    let mut runtime = Interpreter::new();
    let val = runtime.eval(&ast).unwrap();
    match runtime.effect(val) {
        Some(effect) => {
            assert!(effect.value == Value::Int(4));
            assert_eq!(effect.symbol, "question");
        },
        None => panic!("Expected an effect value, got something else."),
    }
}

#[test]
fn handle_empty() {
    // A handler without arms takes nothing: handle { send flag true } {}
    let ast = value_block(handle(send("flag", Some(boolean(true))), vec![]));
    let mut runtime = Interpreter::new();
    let val = runtime.eval(&ast).unwrap();
    match runtime.effect(val) {
        Some(effect) => assert!(effect.value == Value::Bool(true)),
        None => panic!("Expected an effect value, got something else."),
    }
}

#[test]
fn empty_file() {
    assert_eq!(eval(&block(vec![], None)), Ok(Value::Null));
}

#[test]
fn literals() {
    assert_eq!(eval_expr(null()), Ok(Value::Null));
    assert_eq!(eval_expr(boolean(true)), Ok(Value::Bool(true)));
    assert_eq!(eval_expr(lit(5)), Ok(Value::Int(5)));
    assert_eq!(eval_expr(neg(lit(5))), Ok(Value::Int(-5)));
    assert_eq!(eval_expr(not(boolean(true))), Ok(Value::Bool(false)));
}

#[test]
fn statements_yield_the_trailing_expression_or_null() {
    assert_eq!(eval(&block(vec![let_("x", lit(42))], Some(var("x")))), Ok(Value::Int(42)));
    assert_eq!(eval(&block(vec![let_("x", lit(42))], None)), Ok(Value::Null));
    assert_eq!(eval(&block(vec![stmt(lit(1)), stmt(lit(2))], Some(lit(3)))), Ok(Value::Int(3)));
}

#[test]
fn arithmetic() {
    assert_eq!(eval_expr(plus(lit(5), lit(3))), Ok(Value::Int(8)));
    assert_eq!(eval_expr(minus(lit(3), lit(5))), Ok(Value::Int(-2)));
    assert_eq!(eval_expr(times(lit(5), lit(3))), Ok(Value::Int(15)));
    assert_eq!(eval_expr(minus(lit(9), neg(lit(5)))), Ok(Value::Int(14)));
    assert_eq!(eval_expr(num(NumericOperator::Divide, lit(5), lit(2))), Ok(Value::Int(2)));
    assert_eq!(eval_expr(num(NumericOperator::Divide, lit(-7), lit(2))), Ok(Value::Int(-3)));
    assert_eq!(eval_expr(num(NumericOperator::Divide, lit(7), lit(-2))), Ok(Value::Int(-3)));
    assert_eq!(eval_expr(num(NumericOperator::Divide, lit(-7), lit(-2))), Ok(Value::Int(3)));
    assert_eq!(eval_expr(num(NumericOperator::Modulo, lit(7), lit(3))), Ok(Value::Int(1)));
    assert_eq!(eval_expr(num(NumericOperator::Modulo, lit(-7), lit(3))), Ok(Value::Int(-1)));
    assert_eq!(eval_expr(num(NumericOperator::Modulo, lit(7), lit(-3))), Ok(Value::Int(1)));
    assert_eq!(eval_expr(num(NumericOperator::Modulo, lit(i64::MIN), lit(-1))), Ok(Value::Int(0)));
}

#[test]
fn division_by_zero() {
    assert_eq!(
        eval_expr(num(NumericOperator::Divide, lit(1), lit(0))),
        Err(EvalError::DivisionByZero)
    );
    assert_eq!(
        eval_expr(num(NumericOperator::Modulo, lit(1), lit(0))),
        Err(EvalError::DivisionByZero)
    );
}

#[test]
fn integer_overflow_is_an_error() {
    assert_eq!(eval_expr(plus(lit(i64::MAX), lit(1))), Err(EvalError::IntegerOverflow));
    assert_eq!(eval_expr(minus(lit(i64::MIN), lit(1))), Err(EvalError::IntegerOverflow));
    assert_eq!(eval_expr(times(lit(i64::MAX), lit(2))), Err(EvalError::IntegerOverflow));
    assert_eq!(eval_expr(neg(lit(i64::MIN))), Err(EvalError::IntegerOverflow));
    assert_eq!(
        eval_expr(num(NumericOperator::Divide, lit(i64::MIN), lit(-1))),
        Err(EvalError::IntegerOverflow)
    );
    assert_eq!(eval_expr(plus(lit(i64::MAX), lit(0))), Ok(Value::Int(i64::MAX)));
}

#[test]
fn operands_of_the_wrong_kind() {
    assert_eq!(eval_expr(plus(lit(1), boolean(true))), Err(EvalError::TypeMismatch));
    assert_eq!(eval_expr(neg(boolean(true))), Err(EvalError::TypeMismatch));
    assert_eq!(eval_expr(not(lit(1))), Err(EvalError::TypeMismatch));
    assert_eq!(
        eval_expr(logic(BooleanOperator::And, boolean(true), lit(1))),
        Err(EvalError::TypeMismatch)
    );
    assert_eq!(
        eval_expr(cmp(ComparisonOperator::Equal, boolean(true), lit(1))),
        Err(EvalError::TypeMismatch)
    );
    assert_eq!(
        eval_expr(cmp(ComparisonOperator::Less, boolean(true), lit(1))),
        Err(EvalError::TypeMismatch)
    );
    assert_eq!(
        eval_expr(cmp(ComparisonOperator::Less, boolean(false), boolean(true))),
        Err(EvalError::TypeMismatch)
    );
    assert_eq!(
        eval_expr(if_(vec![(lit(1), value_block(lit(2)))], None)),
        Err(EvalError::TypeMismatch)
    );
    assert_eq!(eval_expr(call(lit(1), vec![])), Err(EvalError::TypeMismatch));
    assert_eq!(eval_expr(dot(lit(1), "a")), Err(EvalError::TypeMismatch));
    assert_eq!(eval_expr(index(lit(1), lit(0))), Err(EvalError::TypeMismatch));
    assert_eq!(eval_expr(index(ints(&[1]), boolean(true))), Err(EvalError::TypeMismatch));
    assert_eq!(
        eval_expr(list(vec![ListElem::Spread(lit(1))])),
        Err(EvalError::TypeMismatch)
    );
}

#[test]
fn the_left_operand_is_evaluated_first() {
    // The left operand divides by zero, the right one is of the wrong kind.
    let left = num(NumericOperator::Divide, lit(1), lit(0));
    let right = neg(boolean(true));
    assert_eq!(eval_expr(plus(left.clone(), right.clone())), Err(EvalError::DivisionByZero));
    assert_eq!(eval_expr(plus(right, left)), Err(EvalError::TypeMismatch));
}

#[test]
fn boolean_operators_do_not_short_circuit() {
    let bad = not(lit(1));
    assert_eq!(
        eval_expr(logic(BooleanOperator::Or, boolean(true), bad.clone())),
        Err(EvalError::TypeMismatch)
    );
    assert_eq!(
        eval_expr(logic(BooleanOperator::And, boolean(false), bad)),
        Err(EvalError::TypeMismatch)
    );
}

#[test]
fn boolean_operators() {
    assert_eq!(
        eval_expr(logic(BooleanOperator::And, boolean(true), boolean(false))),
        Ok(Value::Bool(false))
    );
    assert_eq!(
        eval_expr(logic(BooleanOperator::Or, boolean(true), boolean(false))),
        Ok(Value::Bool(true))
    );
    assert_eq!(
        eval_expr(logic(BooleanOperator::Xor, boolean(true), boolean(false))),
        Ok(Value::Bool(true))
    );
    assert_eq!(
        eval_expr(logic(BooleanOperator::Xor, boolean(true), boolean(true))),
        Ok(Value::Bool(false))
    );
}

#[test]
fn comparisons() {
    assert_eq!(eval_expr(cmp(ComparisonOperator::Less, lit(1), lit(2))), Ok(Value::Bool(true)));
    assert_eq!(eval_expr(cmp(ComparisonOperator::Less, lit(2), lit(2))), Ok(Value::Bool(false)));
    assert_eq!(
        eval_expr(cmp(ComparisonOperator::LessEqual, lit(2), lit(2))),
        Ok(Value::Bool(true))
    );
    assert_eq!(
        eval_expr(cmp(ComparisonOperator::Greater, lit(1), lit(2))),
        Ok(Value::Bool(false))
    );
    assert_eq!(
        eval_expr(cmp(ComparisonOperator::GreaterEqual, lit(3), lit(2))),
        Ok(Value::Bool(true))
    );
    assert_eq!(eval_expr(cmp(ComparisonOperator::Equal, lit(3), lit(3))), Ok(Value::Bool(true)));
    assert_eq!(
        eval_expr(cmp(ComparisonOperator::NotEqual, lit(3), lit(3))),
        Ok(Value::Bool(false))
    );
    assert_eq!(eval_expr(cmp(ComparisonOperator::Equal, null(), null())), Ok(Value::Bool(true)));
    assert_eq!(
        eval_expr(cmp(ComparisonOperator::Equal, boolean(true), boolean(false))),
        Ok(Value::Bool(false))
    );
}

#[test]
fn containers_compare_by_content() {
    assert_eq!(
        eval_expr(cmp(ComparisonOperator::Equal, ints(&[1, 2]), ints(&[1, 2]))),
        Ok(Value::Bool(true))
    );
    assert_eq!(
        eval_expr(cmp(ComparisonOperator::Equal, ints(&[1, 2]), ints(&[1, 3]))),
        Ok(Value::Bool(false))
    );
    assert_eq!(
        eval_expr(cmp(ComparisonOperator::NotEqual, ints(&[1, 2]), ints(&[1]))),
        Ok(Value::Bool(true))
    );
    let ab = object(vec![("a", lit(1)), ("b", ints(&[2]))]);
    let ba = object(vec![("b", ints(&[2])), ("a", lit(1))]);
    let other = object(vec![("a", lit(1)), ("c", ints(&[2]))]);
    assert_eq!(eval_expr(cmp(ComparisonOperator::Equal, ab.clone(), ba)), Ok(Value::Bool(true)));
    assert_eq!(eval_expr(cmp(ComparisonOperator::Equal, ab, other)), Ok(Value::Bool(false)));
    assert_eq!(
        eval_expr(cmp(ComparisonOperator::Equal, ints(&[1]), list(vec![ListElem::Elem(null())]))),
        Err(EvalError::TypeMismatch)
    );
}

#[test]
fn equality_gives_up_on_deep_nesting() {
    // Two lists nested deeper than the comparison looks.
    let mut a = ints(&[1]);
    let mut b = ints(&[1]);
    for _ in 0..200 {
        a = list(vec![ListElem::Elem(a)]);
        b = list(vec![ListElem::Elem(b)]);
    }
    assert_eq!(
        eval_expr(cmp(ComparisonOperator::Equal, a, b)),
        Err(EvalError::RecursionLimitExceeded)
    );
}

#[test]
fn a_list_is_equal_to_itself_even_when_it_holds_itself() {
    let ast = block(
        vec![let_("a", ints(&[0])), assign(chain("a", vec![index_step(lit(0))]), var("a"))],
        Some(cmp(ComparisonOperator::Equal, var("a"), var("a"))),
    );
    assert_eq!(eval(&ast), Ok(Value::Bool(true)));
}

#[test]
fn assignment_changes_an_existing_binding() {
    let ast = block(
        vec![let_("n", lit(0)), assign(ident("n"), plus(var("n"), lit(1)))],
        Some(var("n")),
    );
    assert_eq!(eval(&ast), Ok(Value::Int(1)));
}

#[test]
fn assignment_to_an_undeclared_name() {
    let ast = block(vec![assign(ident("n"), lit(1))], Some(lit(0)));
    assert_eq!(eval(&ast), Err(EvalError::UndefinedVariable));
    assert_eq!(eval_expr(var("n")), Err(EvalError::UndefinedVariable));
}

#[test]
fn the_target_is_resolved_before_the_value_is_computed() {
    // Both sides fail; the undeclared target is reported.
    let ast = block(vec![assign(ident("n"), num(NumericOperator::Divide, lit(1), lit(0)))], None);
    assert_eq!(eval(&ast), Err(EvalError::UndefinedVariable));
}

#[test]
fn let_shadows_and_inner_scopes_end() {
    let inner = block(vec![let_("x", lit(2)), assign(ident("y"), var("x"))], None);
    let ast = block(
        vec![let_("x", lit(1)), let_("y", lit(0)), stmt(block_expr(inner))],
        Some(plus(times(var("x"), lit(10)), var("y"))),
    );
    assert_eq!(eval(&ast), Ok(Value::Int(12)));
    let ast = block(vec![let_("x", lit(1)), let_("x", lit(999))], Some(var("x")));
    assert_eq!(eval(&ast), Ok(Value::Int(999)));
    let ast = block(vec![stmt(block_expr(block(vec![let_("z", lit(1))], None)))], Some(var("z")));
    assert_eq!(eval(&ast), Err(EvalError::UndefinedVariable));
}

#[test]
fn conditionals() {
    let pick = |parts: Vec<(Expr, Block)>, other: Option<Block>| eval_expr(if_(parts, other));
    assert_eq!(
        pick(vec![(boolean(true), value_block(lit(71)))], Some(value_block(lit(72)))),
        Ok(Value::Int(71))
    );
    assert_eq!(
        pick(vec![(boolean(false), value_block(lit(71)))], Some(value_block(lit(72)))),
        Ok(Value::Int(72))
    );
    assert_eq!(pick(vec![(boolean(false), value_block(lit(71)))], None), Ok(Value::Null));
    assert_eq!(
        pick(
            vec![
                (boolean(false), value_block(lit(75))),
                (boolean(true), value_block(lit(77))),
                (boolean(true), value_block(lit(79))),
            ],
            Some(value_block(lit(81)))
        ),
        Ok(Value::Int(77))
    );
    assert_eq!(
        pick(
            vec![(cmp(ComparisonOperator::Less, lit(2), lit(1)), value_block(lit(1)))],
            Some(value_block(lit(0)))
        ),
        Ok(Value::Int(0))
    );
}

#[test]
fn conditions_after_the_first_true_one_are_not_evaluated() {
    let bad = not(lit(1));
    assert_eq!(
        eval_expr(if_(
            vec![(boolean(true), value_block(lit(1))), (bad, value_block(lit(2)))],
            None
        )),
        Ok(Value::Int(1))
    );
}

#[test]
fn loop_break() {
    assert_eq!(eval_expr(loop_(value_block(break_(Some(lit(5)))))), Ok(Value::Int(5)));
    assert_eq!(eval_expr(loop_(value_block(break_(None)))), Ok(Value::Null));
}

#[test]
fn loop_counts_and_skips() {
    // Adds the odd numbers below ten.
    let odd = cmp(
        ComparisonOperator::Equal,
        num(NumericOperator::Modulo, var("i"), lit(2)),
        lit(0),
    );
    let body = block(
        vec![
            stmt(if_(
                vec![(
                    cmp(ComparisonOperator::GreaterEqual, var("i"), lit(10)),
                    value_block(break_(Some(var("sum")))),
                )],
                None,
            )),
            assign(ident("i"), plus(var("i"), lit(1))),
            stmt(if_(vec![(odd, value_block(next(Some(lit(99)))))], None)),
            assign(ident("sum"), plus(var("sum"), var("i"))),
        ],
        None,
    );
    let ast = block(vec![let_("i", lit(0)), let_("sum", lit(0))], Some(loop_(body)));
    assert_eq!(eval(&ast), Ok(Value::Int(25)));
}

#[test]
fn break_leaves_only_the_innermost_loop() {
    let inner = loop_(value_block(break_(Some(lit(1)))));
    let outer = loop_(value_block(break_(Some(plus(inner, lit(10))))));
    assert_eq!(eval_expr(outer), Ok(Value::Int(11)));
}

#[test]
fn break_drops_what_was_waiting_inside_the_loop() {
    let ast = value_block(plus(lit(1), loop_(value_block(plus(lit(100), break_(Some(lit(5))))))));
    assert_eq!(eval(&ast), Ok(Value::Int(6)));
}

#[test]
fn loop_exit_without_a_loop() {
    assert_eq!(eval_expr(break_(Some(lit(1)))), Err(EvalError::NoEnclosingLoop));
    assert_eq!(eval_expr(break_(None)), Err(EvalError::NoEnclosingLoop));
    assert_eq!(eval_expr(next(None)), Err(EvalError::NoEnclosingLoop));
    assert_eq!(eval_expr(next(Some(lit(1)))), Err(EvalError::NoEnclosingLoop));
}

#[test]
fn step_limit() {
    let ast = value_block(loop_(block(vec![], None)));
    let mut runtime = Interpreter::new();
    runtime.set_step_limit(10_000);
    assert_eq!(runtime.eval(&ast), Err(EvalError::StepLimitExceeded));
    // The same interpreter still evaluates.
    let ast = value_block(lit(3));
    assert_eq!(runtime.eval(&ast), Ok(Value::Int(3)));
}

#[test]
fn functions() {
    let add_one = func(&["x"], value_block(plus(var("x"), lit(1))));
    assert_eq!(eval_expr(call(add_one, vec![lit(5)])), Ok(Value::Int(6)));
    let nothing = func(&[], block(vec![], None));
    assert_eq!(eval_expr(call(nothing, vec![])), Ok(Value::Null));
    let nested = func(&["x"], value_block(func(&["y"], value_block(plus(var("x"), var("y"))))));
    assert_eq!(eval_expr(call(call(nested, vec![lit(1)]), vec![lit(3)])), Ok(Value::Int(4)));
    let several = func(
        &["a", "b"],
        block(vec![let_("c", times(var("a"), var("b")))], Some(times(var("c"), lit(2)))),
    );
    assert_eq!(eval_expr(call(several, vec![lit(5), lit(10)])), Ok(Value::Int(100)));
}

#[test]
fn recursion() {
    let body = value_block(if_(
        vec![(cmp(ComparisonOperator::LessEqual, var("n"), lit(1)), value_block(lit(1)))],
        Some(value_block(times(var("n"), call(var("fact"), vec![minus(var("n"), lit(1))])))),
    ));
    let ast =
        block(vec![let_("fact", func(&["n"], body))], Some(call(var("fact"), vec![lit(5)])));
    assert_eq!(eval(&ast), Ok(Value::Int(120)));
}

#[test]
fn arity_mismatch() {
    let f = func(&["x"], value_block(var("x")));
    assert_eq!(eval_expr(call(f.clone(), vec![])), Err(EvalError::ArityMismatch));
    assert_eq!(eval_expr(call(f.clone(), vec![lit(1), lit(2)])), Err(EvalError::ArityMismatch));
    // The arguments are evaluated before the count is checked.
    assert_eq!(
        eval_expr(call(f, vec![lit(1), num(NumericOperator::Divide, lit(1), lit(0))])),
        Err(EvalError::DivisionByZero)
    );
}

#[test]
fn recursion_limit() {
    let ast = block(
        vec![let_("f", func(&[], value_block(plus(lit(1), call(var("f"), vec![])))))],
        Some(call(var("f"), vec![])),
    );
    assert_eq!(eval(&ast), Err(EvalError::RecursionLimitExceeded));
}

#[test]
fn a_closure_shares_the_scope_it_captured() {
    // `bump` changes `count`, which the caller reads afterwards.
    let bump = func(&[], block(vec![assign(ident("count"), plus(var("count"), lit(1)))], None));
    let ast = block(
        vec![
            let_("count", lit(60)),
            let_("bump", bump),
            stmt(call(var("bump"), vec![])),
            assign(ident("count"), plus(var("count"), lit(0))),
        ],
        Some(var("count")),
    );
    assert_eq!(eval(&ast), Ok(Value::Int(61)));
    // A counter made by a function keeps its own scope alive.
    let counter = func(
        &[],
        block(
            vec![let_("n", lit(0))],
            Some(func(
                &[],
                block(vec![assign(ident("n"), plus(var("n"), lit(1)))], Some(var("n"))),
            )),
        ),
    );
    let ast = block(
        vec![
            let_("make", counter),
            let_("a", call(var("make"), vec![])),
            let_("b", call(var("make"), vec![])),
            stmt(call(var("a"), vec![])),
            stmt(call(var("a"), vec![])),
        ],
        Some(plus(times(call(var("a"), vec![]), lit(10)), call(var("b"), vec![]))),
    );
    assert_eq!(eval(&ast), Ok(Value::Int(31)));
}

#[test]
fn function_scope_is_lexical() {
    // `x` of the caller is not seen by the callee.
    let ast = block(
        vec![
            let_("f", func(&[], value_block(var("x")))),
            let_("g", func(&[], block(vec![let_("x", lit(1))], Some(call(var("f"), vec![]))))),
        ],
        Some(call(var("g"), vec![])),
    );
    assert_eq!(eval(&ast), Err(EvalError::UndefinedVariable));
}

#[test]
fn objects() {
    let ast = value_block(object(vec![]));
    let mut runtime = Interpreter::new();
    let val = runtime.eval(&ast).unwrap();
    assert!(runtime.object(val).unwrap().is_empty());

    let ast = value_block(object(vec![("cat", lit(1))]));
    let mut runtime = Interpreter::new();
    let val = runtime.eval(&ast).unwrap();
    let fields = runtime.object(val).unwrap();
    assert_eq!(fields.len(), 1);
    assert_eq!(fields[0].0, "cat");
    assert_eq!(fields[0].1, Value::Int(1));
    assert_eq!(runtime.field(val, &"cat".to_string()), Ok(Value::Int(1)));
    assert_eq!(runtime.field(val, &"dog".to_string()), Err(EvalError::UndefinedVariable));
    assert_eq!(runtime.field(Value::Int(1), &"cat".to_string()), Err(EvalError::TypeMismatch));

    assert_eq!(
        eval_expr(dot(object(vec![("a", lit(1)), ("b", lit(2))]), "b")),
        Ok(Value::Int(2))
    );
    assert_eq!(
        eval_expr(dot(dot(object(vec![("a", object(vec![("b", lit(22))]))]), "a"), "b")),
        Ok(Value::Int(22))
    );
    assert_eq!(
        eval_expr(dot(object(vec![("a", lit(1))]), "b")),
        Err(EvalError::UndefinedVariable)
    );
}

#[test]
fn a_later_pair_with_the_same_key_wins() {
    let ast = value_block(object(vec![("a", lit(1)), ("b", lit(2)), ("a", lit(3))]));
    let mut runtime = Interpreter::new();
    let val = runtime.eval(&ast).unwrap();
    let fields = runtime.object(val).unwrap();
    assert_eq!(fields.len(), 2);
    assert_eq!((fields[0].0.as_str(), fields[0].1), ("a", Value::Int(3)));
    assert_eq!((fields[1].0.as_str(), fields[1].1), ("b", Value::Int(2)));
}

#[test]
fn lists() {
    assert_eq!(eval_list(ints(&[1, 2, 3])), int_values(&[1, 2, 3]));
    assert_eq!(eval_list(list(vec![])), int_values(&[]));
    assert_eq!(eval_expr(index(ints(&[7, 29, 53]), lit(1))), Ok(Value::Int(29)));
}

#[test]
fn list_negative_index() {
    let at = |i: i64| eval_expr(index(ints(&[7, 29, 53]), lit(i)));
    assert_eq!(at(0), Ok(Value::Int(7)));
    assert_eq!(at(2), Ok(Value::Int(53)));
    assert_eq!(at(-1), Ok(Value::Int(53)));
    assert_eq!(at(-3), Ok(Value::Int(7)));
    assert_eq!(at(3), Err(EvalError::IndexOutOfRange));
    assert_eq!(at(-4), Err(EvalError::IndexOutOfRange));
    assert_eq!(at(i64::MIN), Err(EvalError::IndexOutOfRange));
    assert_eq!(at(i64::MAX), Err(EvalError::IndexOutOfRange));
    assert_eq!(eval_expr(index(list(vec![]), lit(0))), Err(EvalError::IndexOutOfRange));
}

#[test]
fn list_spread() {
    let spread = list(vec![
        ListElem::Elem(lit(1)),
        ListElem::Elem(lit(2)),
        ListElem::Spread(ints(&[3, 4])),
        ListElem::Elem(lit(5)),
    ]);
    assert_eq!(eval_list(spread), int_values(&[1, 2, 3, 4, 5]));
    let spread = list(vec![
        ListElem::Spread(list(vec![])),
        ListElem::Spread(ints(&[1, 2])),
        ListElem::Spread(ints(&[3])),
    ]);
    assert_eq!(eval_list(spread), int_values(&[1, 2, 3]));
}

#[test]
fn assignment_through_a_chain() {
    // o.items[-1] = o.items[0] + 5
    let target = chain("o", vec![dot_step("items"), index_step(lit(-1))]);
    let read = Rc::new(Expression::Location(chain(
        "o",
        vec![dot_step("items"), index_step(lit(0))],
    )));
    let ast = block(
        vec![
            let_("o", object(vec![("items", ints(&[1, 2, 3]))])),
            assign(target, plus(read, lit(5))),
        ],
        Some(dot(var("o"), "items")),
    );
    let mut runtime = Interpreter::new();
    let val = runtime.eval(&ast).unwrap();
    assert_eq!(runtime.list(val).unwrap().clone(), int_values(&[1, 2, 6]));
}

#[test]
fn assignment_adds_a_field() {
    let ast = block(
        vec![
            let_("o", object(vec![("a", lit(1))])),
            assign(chain("o", vec![dot_step("b")]), lit(2)),
            assign(chain("o", vec![dot_step("a")]), lit(3)),
        ],
        Some(plus(times(dot(var("o"), "a"), lit(10)), dot(var("o"), "b"))),
    );
    assert_eq!(eval(&ast), Ok(Value::Int(32)));
}

#[test]
fn two_names_of_one_list_see_each_other() {
    let ast = block(
        vec![
            let_("a", ints(&[1])),
            let_("b", var("a")),
            assign(chain("b", vec![index_step(lit(0))]), lit(2)),
        ],
        Some(index(var("a"), lit(0))),
    );
    assert_eq!(eval(&ast), Ok(Value::Int(2)));
}

#[test]
fn assignment_to_what_is_no_place() {
    let through_int = chain("n", vec![dot_step("a")]);
    let ast = block(vec![let_("n", lit(1)), assign(through_int, lit(2))], None);
    assert_eq!(eval(&ast), Err(EvalError::TypeMismatch));
    let through_int = chain("n", vec![dot_step("a"), dot_step("b")]);
    let ast = block(vec![let_("n", lit(1)), assign(through_int, lit(2))], None);
    assert_eq!(eval(&ast), Err(EvalError::TypeMismatch));
    let out_of_range = chain("l", vec![index_step(lit(3))]);
    let ast = block(vec![let_("l", ints(&[1, 2, 3])), assign(out_of_range, lit(2))], None);
    assert_eq!(eval(&ast), Err(EvalError::IndexOutOfRange));
    let bare = LocationChain { base: LocationChainBase::Expression(lit(1)), parts: vec![] };
    let ast = block(vec![assign(bare, lit(2))], None);
    assert_eq!(eval(&ast), Err(EvalError::TypeMismatch));
}

#[test]
fn assignment_into_the_value_of_an_expression() {
    // f().a = 5, where f returns the object that `o` names.
    let target = LocationChain {
        base: LocationChainBase::Expression(call(var("f"), vec![])),
        parts: vec![dot_step("a")],
    };
    let ast = block(
        vec![
            let_("o", object(vec![("a", lit(1))])),
            let_("f", func(&[], value_block(var("o")))),
            assign(target, lit(5)),
        ],
        Some(dot(var("o"), "a")),
    );
    assert_eq!(eval(&ast), Ok(Value::Int(5)));
}

#[test]
fn symbols_are_numbered_in_order() {
    assert_eq!(eval_expr(symbol()), Ok(Value::Symbol(0)));
    let ast = block(vec![let_("a", symbol()), let_("b", symbol())], Some(var("b")));
    assert_eq!(eval(&ast), Ok(Value::Symbol(1)));
    let ast = value_block(list(vec![
        ListElem::Elem(symbol()),
        ListElem::Elem(symbol()),
        ListElem::Elem(symbol()),
    ]));
    let mut runtime = Interpreter::new();
    let val = runtime.eval(&ast).unwrap();
    assert_eq!(
        runtime.list(val).unwrap().clone(),
        vec![Value::Symbol(0), Value::Symbol(1), Value::Symbol(2)]
    );
    // The counter belongs to the interpreter, not to the evaluation.
    assert_eq!(runtime.next_symbol(), 3);
    assert_eq!(runtime.mint(), Ok(Value::Symbol(3)));
    let ast = value_block(symbol());
    assert_eq!(runtime.eval(&ast), Ok(Value::Symbol(4)));
    let mut other = Interpreter::new();
    assert_eq!(other.eval(&ast), Ok(Value::Symbol(0)));
}

#[test]
fn symbol_equality() {
    assert_eq!(
        eval_expr(cmp(ComparisonOperator::Equal, symbol(), symbol())),
        Ok(Value::Bool(false))
    );
    // One literal, evaluated twice, gives two symbols.
    let ast = block(
        vec![
            let_("make", func(&[], value_block(symbol()))),
            let_("a", call(var("make"), vec![])),
            let_("b", call(var("make"), vec![])),
        ],
        Some(list(vec![
            ListElem::Elem(cmp(ComparisonOperator::Equal, var("a"), var("b"))),
            ListElem::Elem(cmp(ComparisonOperator::Equal, var("a"), var("a"))),
            ListElem::Elem(cmp(ComparisonOperator::NotEqual, var("a"), var("b"))),
        ])),
    );
    let mut runtime = Interpreter::new();
    let val = runtime.eval(&ast).unwrap();
    assert_eq!(
        runtime.list(val).unwrap().clone(),
        vec![Value::Bool(false), Value::Bool(true), Value::Bool(true)]
    );
}

#[test]
fn handle_resume() {
    let arm = value_block(resume(Some(plus(var("v"), lit(1)))));
    let ast = value_block(handle(send("x", Some(lit(5))), vec![("x", "v", arm)]));
    assert_eq!(eval(&ast), Ok(Value::Int(6)));
}

#[test]
fn handle_resume_into_the_middle_of_an_expression() {
    // 1 + (send x 5) * 2, resumed with 7
    let guarded = plus(lit(1), times(send("x", Some(lit(5))), lit(2)));
    let arm = value_block(plus(resume(Some(plus(var("v"), lit(2)))), lit(100)));
    let ast = value_block(handle(guarded, vec![("x", "v", arm)]));
    assert_eq!(eval(&ast), Ok(Value::Int(115)));
}

#[test]
fn handle_no_resume() {
    // The arm's value is the value of the handle expression; `1000 +` is dropped.
    let guarded = plus(lit(1000), send("x", Some(lit(5))));
    let arm = value_block(times(var("v"), lit(10)));
    let ast = value_block(plus(handle(guarded, vec![("x", "v", arm)]), lit(1)));
    assert_eq!(eval(&ast), Ok(Value::Int(51)));
}

#[test]
fn handle_without_a_send() {
    let arm = value_block(lit(0));
    let ast = value_block(handle(lit(3), vec![("x", "v", arm)]));
    assert_eq!(eval(&ast), Ok(Value::Int(3)));
}

#[test]
fn handle_multiple_resume() {
    // (send x 1) * 3, resumed with 2 and then with 3
    let guarded = times(send("x", Some(lit(1))), lit(3));
    let arm = value_block(plus(resume(Some(lit(2))), resume(Some(lit(3)))));
    let ast = value_block(handle(guarded, vec![("x", "v", arm)]));
    assert_eq!(eval(&ast), Ok(Value::Int(15)));
}

#[test]
fn every_resumption_starts_from_the_same_point() {
    // The list under construction is not shared between the two resumptions.
    let guarded = list(vec![
        ListElem::Elem(lit(1)),
        ListElem::Elem(send("x", None)),
        ListElem::Elem(lit(3)),
    ]);
    let arm = value_block(list(vec![
        ListElem::Elem(resume(Some(lit(20)))),
        ListElem::Elem(resume(Some(lit(21)))),
    ]));
    let ast = value_block(handle(guarded, vec![("x", "v", arm)]));
    let mut runtime = Interpreter::new();
    let val = runtime.eval(&ast).unwrap();
    let both = runtime.list(val).unwrap().clone();
    assert_eq!(both.len(), 2);
    assert_eq!(runtime.list(both[0]).unwrap().clone(), int_values(&[1, 20, 3]));
    assert_eq!(runtime.list(both[1]).unwrap().clone(), int_values(&[1, 21, 3]));
}

#[test]
fn resumptions_share_the_variables_they_change() {
    // The guarded expression adds to `n` after its send; two resumptions add twice.
    let guarded = block_expr(block(
        vec![stmt(send("x", None)), assign(ident("n"), plus(var("n"), lit(1)))],
        Some(var("n")),
    ));
    let arm = block(vec![stmt(resume(None))], Some(resume(None)));
    let ast = block(vec![let_("n", lit(0))], Some(handle(guarded, vec![("x", "v", arm)])));
    assert_eq!(eval(&ast), Ok(Value::Int(2)));
}

#[test]
fn handle_is_found_through_calls() {
    let ast = block(
        vec![let_("ask", func(&[], value_block(plus(send("x", Some(lit(1))), lit(1)))))],
        Some(handle(
            times(call(var("ask"), vec![]), lit(2)),
            vec![("x", "v", value_block(resume(Some(plus(var("v"), lit(10))))))],
        )),
    );
    assert_eq!(eval(&ast), Ok(Value::Int(24)));
}

#[test]
fn handle_is_not_found_lexically() {
    // The function is written inside the handler but called outside it.
    let ast = block(
        vec![let_(
            "ask",
            handle(
                func(&[], value_block(send("x", Some(lit(4))))),
                vec![("x", "v", value_block(lit(0)))],
            ),
        )],
        Some(call(var("ask"), vec![])),
    );
    let mut runtime = Interpreter::new();
    let val = runtime.eval(&ast).unwrap();
    assert_eq!(runtime.effect(val).unwrap().value, Value::Int(4));
}

#[test]
fn handle_nested() {
    // The inner handler has no arm for `b`; the outer one takes it.
    let inner =
        handle(plus(send("b", Some(lit(7))), lit(1)), vec![("a", "v", value_block(lit(0)))]);
    let ast = value_block(handle(
        times(inner, lit(5)),
        vec![("b", "v", value_block(resume(Some(plus(var("v"), lit(3))))))],
    ));
    assert_eq!(eval(&ast), Ok(Value::Int(55)));
}

#[test]
fn handle_nested_innermost_wins() {
    let inner = handle(send("a", Some(lit(7))), vec![("a", "v", value_block(lit(1)))]);
    let ast = value_block(handle(inner, vec![("a", "v", value_block(lit(2)))]));
    assert_eq!(eval(&ast), Ok(Value::Int(1)));
}

#[test]
fn handle_nested_resume() {
    // (send a 1) + (send b 10): the inner handler resumes a, the outer one b.
    let inner = handle(
        plus(send("a", Some(lit(1))), send("b", Some(lit(10)))),
        vec![("a", "v", value_block(resume(Some(plus(var("v"), lit(1))))))],
    );
    let ast = value_block(handle(
        inner,
        vec![("b", "v", value_block(resume(Some(times(var("v"), lit(2))))))],
    ));
    assert_eq!(eval(&ast), Ok(Value::Int(22)));
}

#[test]
fn a_resumed_computation_is_still_handled() {
    // Both sends of the guarded expression reach the same handler.
    let guarded = plus(send("x", Some(lit(1))), send("x", Some(lit(2))));
    let arm = value_block(resume(Some(times(var("v"), lit(10)))));
    let ast = value_block(handle(guarded, vec![("x", "v", arm)]));
    assert_eq!(eval(&ast), Ok(Value::Int(30)));
}

#[test]
fn the_first_arm_with_the_tag_answers() {
    let ast = value_block(handle(
        send("x", None),
        vec![
            ("y", "v", value_block(lit(0))),
            ("x", "v", value_block(lit(1))),
            ("x", "v", value_block(lit(2))),
        ],
    ));
    assert_eq!(eval(&ast), Ok(Value::Int(1)));
}

#[test]
fn send_without_payload_carries_null() {
    let ast = value_block(send("x", None));
    let mut runtime = Interpreter::new();
    let val = runtime.eval(&ast).unwrap();
    let effect = runtime.effect(val).unwrap();
    assert_eq!(effect.value, Value::Null);
    assert_eq!(effect.symbol, "x");
    assert_eq!(runtime.effect(Value::Int(1)).map(|e| e.value), None);
}

#[test]
fn an_unhandled_send_is_a_value() {
    // The evaluation goes on after the send, with the effect as its value.
    let ast = block(
        vec![
            let_("n", lit(0)),
            let_("e", send("x", Some(lit(9)))),
            assign(ident("n"), lit(1)),
        ],
        Some(list(vec![ListElem::Elem(var("n")), ListElem::Elem(var("e"))])),
    );
    let mut runtime = Interpreter::new();
    let val = runtime.eval(&ast).unwrap();
    let items = runtime.list(val).unwrap().clone();
    assert_eq!(items[0], Value::Int(1));
    let effect = runtime.effect(items[1]).unwrap();
    assert_eq!(effect.symbol, "x");
    assert_eq!(effect.value, Value::Int(9));
    // Dropped like any other value.
    let ast = block(vec![stmt(send("x", Some(lit(9))))], Some(lit(5)));
    assert_eq!(eval(&ast), Ok(Value::Int(5)));
}

#[test]
fn an_effect_is_no_integer() {
    assert_eq!(eval_expr(plus(send("x", Some(lit(1))), lit(1))), Err(EvalError::TypeMismatch));
    assert_eq!(
        eval_expr(if_(vec![(send("x", Some(boolean(true))), value_block(lit(1)))], None)),
        Err(EvalError::TypeMismatch)
    );
}

#[test]
fn effects_compare_by_tag_and_payload() {
    let same = cmp(ComparisonOperator::Equal, send("a", Some(lit(1))), send("a", Some(lit(1))));
    assert_eq!(eval_expr(same), Ok(Value::Bool(true)));
    let other_tag =
        cmp(ComparisonOperator::Equal, send("a", Some(lit(1))), send("b", Some(lit(1))));
    assert_eq!(eval_expr(other_tag), Ok(Value::Bool(false)));
    let other_payload =
        cmp(ComparisonOperator::NotEqual, send("a", Some(lit(1))), send("a", Some(lit(2))));
    assert_eq!(eval_expr(other_payload), Ok(Value::Bool(true)));
    let payloads_of_two_kinds =
        cmp(ComparisonOperator::Equal, send("a", Some(lit(1))), send("a", None));
    assert_eq!(eval_expr(payloads_of_two_kinds), Err(EvalError::TypeMismatch));
    let with_lists = cmp(
        ComparisonOperator::Equal,
        send("a", Some(ints(&[1, 2]))),
        send("a", Some(ints(&[1, 2]))),
    );
    assert_eq!(eval_expr(with_lists), Ok(Value::Bool(true)));
    assert_eq!(
        eval_expr(cmp(ComparisonOperator::Equal, send("a", None), lit(1))),
        Err(EvalError::TypeMismatch)
    );
}

#[test]
fn an_inner_handler_without_the_arm_lets_the_send_pass() {
    // No handler at all has an arm for `c`: the send has its effect as value,
    // inside both handlers.
    let inner = handle(send("c", Some(lit(3))), vec![("a", "v", value_block(lit(0)))]);
    let ast = value_block(handle(inner, vec![("b", "v", value_block(lit(1)))]));
    let mut runtime = Interpreter::new();
    let val = runtime.eval(&ast).unwrap();
    let effect = runtime.effect(val).unwrap();
    assert_eq!(effect.symbol, "c");
    assert_eq!(effect.value, Value::Int(3));
}

#[test]
fn continue_outside_an_arm() {
    assert_eq!(eval_expr(resume(Some(lit(1)))), Err(EvalError::UndefinedVariable));
    assert_eq!(eval_expr(resume(None)), Err(EvalError::UndefinedVariable));
}

#[test]
fn continue_resumes_the_innermost_arm() {
    // While the arm for `a` runs, `b` is sent and handled; the `continue`
    // in the arm for `b` resumes the send of `b`, not that of `a`.
    let arm_a = value_block(handle(
        plus(send("b", Some(lit(1))), lit(100)),
        vec![("b", "w", value_block(resume(Some(lit(5)))))],
    ));
    let ast = value_block(handle(plus(send("a", None), lit(1000)), vec![("a", "v", arm_a)]));
    assert_eq!(eval(&ast), Ok(Value::Int(105)));
}

#[test]
fn endless_resumption_hits_the_recursion_limit() {
    // The resumed computation sends again, and the arm resumes again.
    let guarded = loop_(block(vec![stmt(send("x", None))], None));
    let arm = value_block(resume(None));
    let ast = value_block(handle(guarded, vec![("x", "v", arm)]));
    assert_eq!(eval(&ast), Err(EvalError::RecursionLimitExceeded));
}

#[test]
fn globals_outlive_an_evaluation() {
    let first = block(vec![let_("x", lit(7))], None);
    let second = value_block(plus(var("x"), lit(1)));
    let mut runtime = Interpreter::new();
    assert_eq!(runtime.eval(&first), Ok(Value::Null));
    assert_eq!(runtime.eval(&second), Ok(Value::Int(8)));
}

#[test]
fn stepping_by_hand() {
    let ast = value_block(plus(lit(1), lit(2)));
    let mut runtime = Interpreter::new();
    assert_eq!(runtime.outcome(), Some(Ok(Value::Null)));
    runtime.load(&ast);
    assert!(!runtime.halted());
    assert_eq!(runtime.outcome(), None);
    runtime.run_for(2);
    assert!(!runtime.halted());
    runtime.run_for(100);
    assert!(runtime.halted());
    assert_eq!(runtime.outcome(), Some(Ok(Value::Int(3))));
    runtime.step();
    assert_eq!(runtime.outcome(), Some(Ok(Value::Int(3))));
}

#[test]
fn closures_are_values() {
    let ast = block(
        vec![let_("f", func(&["a", "b"], value_block(lit(1)))), let_("g", var("f"))],
        Some(list(vec![
            ListElem::Elem(cmp(ComparisonOperator::Equal, var("f"), var("g"))),
            ListElem::Elem(cmp(
                ComparisonOperator::Equal,
                var("f"),
                func(&["a", "b"], value_block(lit(1))),
            )),
            ListElem::Elem(var("f")),
        ])),
    );
    let mut runtime = Interpreter::new();
    let val = runtime.eval(&ast).unwrap();
    let items = runtime.list(val).unwrap().clone();
    assert_eq!(items[0], Value::Bool(true));
    assert_eq!(items[1], Value::Bool(false));
    let closure = runtime.closure(items[2]).unwrap();
    assert_eq!(closure.function.parameters, vec!["a".to_string(), "b".to_string()]);
    assert_eq!(closure.env, 0);
    assert!(runtime.closure(Value::Null).is_none());
}

/// `{ n = n * 2; n }` and `{ n = n + 1; n }`: what they give tells in which
/// order they ran.
fn doubling() -> Expr {
    block_expr(block(vec![assign(ident("n"), times(var("n"), lit(2)))], Some(var("n"))))
}

fn adding_one() -> Expr {
    block_expr(block(vec![assign(ident("n"), plus(var("n"), lit(1)))], Some(var("n"))))
}

#[test]
fn arguments_are_evaluated_from_left_to_right() {
    let pair = func(&["a", "b"], value_block(ints_of(vec![var("a"), var("b")])));
    let ast = block(vec![let_("n", lit(1))], Some(call(pair, vec![doubling(), adding_one()])));
    let mut runtime = Interpreter::new();
    let val = runtime.eval(&ast).unwrap();
    assert_eq!(runtime.list(val).unwrap().clone(), int_values(&[2, 3]));
}

#[test]
fn the_callee_is_evaluated_before_the_arguments() {
    // The callee is read from `f` before the argument changes `f`.
    let change = block_expr(block(
        vec![assign(ident("f"), func(&["x"], value_block(lit(0))))],
        Some(lit(7)),
    ));
    let ast = block(
        vec![let_("f", func(&["x"], value_block(plus(var("x"), lit(1)))))],
        Some(call(var("f"), vec![change])),
    );
    assert_eq!(eval(&ast), Ok(Value::Int(8)));
}

#[test]
fn elements_and_pairs_are_evaluated_in_order() {
    let ast = block(
        vec![let_("n", lit(1))],
        Some(list(vec![
            ListElem::Elem(doubling()),
            ListElem::Spread(ints_of(vec![adding_one(), doubling()])),
            ListElem::Elem(adding_one()),
        ])),
    );
    let mut runtime = Interpreter::new();
    let val = runtime.eval(&ast).unwrap();
    assert_eq!(runtime.list(val).unwrap().clone(), int_values(&[2, 3, 6, 7]));

    let ast = block(
        vec![let_("n", lit(1))],
        Some(object(vec![("a", doubling()), ("b", adding_one()), ("a", adding_one())])),
    );
    let mut runtime = Interpreter::new();
    let val = runtime.eval(&ast).unwrap();
    let fields = runtime.object(val).unwrap();
    assert_eq!(fields.len(), 2);
    assert_eq!((fields[0].0.as_str(), fields[0].1), ("a", Value::Int(4)));
    assert_eq!((fields[1].0.as_str(), fields[1].1), ("b", Value::Int(3)));
}

#[test]
fn the_right_operand_sees_what_the_left_one_changed() {
    let ast = block(vec![let_("n", lit(1))], Some(minus(doubling(), adding_one())));
    assert_eq!(eval(&ast), Ok(Value::Int(-1)));
}

#[test]
fn an_expression_makes_a_statement() {
    let made = lit(7).into_statement();
    match &*made {
        Statement::Expression(ExpressionStatement { expr }) => match &**expr {
            Expression::Int(Int(n)) => assert_eq!(*n, 7),
            _ => panic!("the statement holds another expression"),
        },
        _ => panic!("the statement is no expression statement"),
    }
    assert_eq!(eval(&block(vec![made], None)), Ok(Value::Null));
}

#[test]
fn custom_nodes_keep_their_name() {
    let node = Custom::new("symbol", Builtin::Symbol);
    assert_eq!(node.short_name(), "symbol");
    assert_eq!(*node.operation(), Builtin::Symbol);
}
