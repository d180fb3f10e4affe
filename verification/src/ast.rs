//! The program tree: a closed set of node kinds, built once and never changed
//! by evaluation. Children are shared through `Rc`, so one subtree may occur in
//! many places of a program.

use std::rc::Rc;
use vstd::prelude::*;

verus! {

/// Every node that yields a value.
#[derive(Debug)]
pub enum Expression {
    Null(Null),
    Bool(Bool),
    Int(Int),
    Negative(NegativeExpression),
    Not(NotExpression),
    Boolean(BooleanExpression),
    Comparison(ComparisonExpression),
    Numeric(NumericExpression),
    Dot(DotExpression),
    Index(IndexExpression),
    If(IfExpression),
    Loop(LoopExpression),
    Break(Break),
    NextIteration(NextIteration),
    Function(Function),
    Invocation(FunctionInvocation),
    Block(Block),
    Object(Object),
    List(List),
    Location(LocationChain),
    Handle(Handle),
    Send(SendExpr),
    Continue(Continue),
    Custom(Custom<Builtin>),
}

/// Every node that may stand in the statement list of a block.
#[derive(Debug)]
pub enum Statement {
    Let(LetStatement),
    Assignment(Assignment),
    Expression(ExpressionStatement),
}

/// An expression evaluated for its effect; its value is dropped.
#[derive(Debug)]
pub struct ExpressionStatement {
    pub expr: Rc<Expression>,
}

/// What can stand as a statement of its own.
pub trait IntoStatement: Sized {
    /// The statement that this makes.
    spec fn as_statement(self) -> Statement;

    /// Wraps this up as a statement.
    fn into_statement(self) -> (statement: Rc<Statement>)
        ensures
            *statement == self.as_statement(),
    ;
}

impl IntoStatement for Rc<Expression> {
    /// An expression makes the statement that evaluates it and drops its
    /// value.
    open spec fn as_statement(self) -> Statement {
        Statement::Expression(ExpressionStatement { expr: self })
    }

    fn into_statement(self) -> (statement: Rc<Statement>) {
        Rc::new(Statement::Expression(ExpressionStatement { expr: self }))
    }
}

/// The literal `null`.
#[derive(Debug)]
pub struct Null;

/// A boolean literal.
#[derive(Debug)]
pub struct Bool(pub bool);

/// An integer literal.
#[derive(Debug)]
pub struct Int(pub i64);

/// `let ident = expr`: a new binding in the current scope, shadowing any
/// binding of the same name.
#[derive(Debug)]
pub struct LetStatement {
    pub ident: String,
    pub expr: Rc<Expression>,
}

/// `location = expr`: a write to an existing binding, object field or list
/// element.
#[derive(Debug)]
pub struct Assignment {
    pub location: LocationChain,
    pub expr: Rc<Expression>,
}

/// Arithmetic negation.
#[derive(Debug)]
pub struct NegativeExpression {
    pub expr: Rc<Expression>,
}

/// Logical negation.
#[derive(Debug)]
pub struct NotExpression {
    pub expr: Rc<Expression>,
}

#[derive(Debug)]
pub struct BooleanExpression {
    pub left: Rc<Expression>,
    pub right: Rc<Expression>,
    pub operator: BooleanOperator,
}

#[derive(Debug, Clone, Copy, PartialEq, Eq, Structural)]
pub enum BooleanOperator {
    And,
    Or,
    Xor,
}

/// `base.prop`: a read of an object field.
#[derive(Debug)]
pub struct DotExpression {
    pub base: Rc<Expression>,
    pub prop: String,
}

/// `base[index]`: a read of a list element.
#[derive(Debug)]
pub struct IndexExpression {
    pub base: Rc<Expression>,
    pub index: Rc<Expression>,
}

#[derive(Debug)]
pub struct ComparisonExpression {
    pub left: Rc<Expression>,
    pub right: Rc<Expression>,
    pub operator: ComparisonOperator,
}

#[derive(Debug, Clone, Copy, PartialEq, Eq, Structural)]
pub enum ComparisonOperator {
    Equal,
    NotEqual,
    LessEqual,
    Less,
    GreaterEqual,
    Greater,
}

#[derive(Debug)]
pub struct NumericExpression {
    pub left: Rc<Expression>,
    pub right: Rc<Expression>,
    pub operator: NumericOperator,
}

#[derive(Debug, Clone, Copy, PartialEq, Eq, Structural)]
pub enum NumericOperator {
    Add,
    Multiply,
    Subtract,
    Divide,
    Modulo,
}

/// Conditions tried in order; the body of the first true one is the value,
/// else the `else` body, else null.
#[derive(Debug)]
pub struct IfExpression {
    pub else_body: Option<Rc<Block>>,
    pub ifs: Vec<IfPart>,
}

#[derive(Debug)]
pub struct IfPart {
    pub cond: Rc<Expression>,
    pub body: Rc<Block>,
}

/// A body repeated until a `Break` leaves it.
#[derive(Debug)]
pub struct LoopExpression {
    pub body: Rc<Block>,
}

/// A function literal; evaluating it captures the current scope.
#[derive(Debug)]
pub struct Function {
    pub body: Rc<Block>,
    pub parameters: Vec<String>,
}

/// Statements in order, then an optional trailing expression that gives the
/// block its value.
#[derive(Debug)]
pub struct Block {
    pub expression: Option<Rc<Expression>>,
    pub statements: Vec<Rc<Statement>>,
}

#[derive(Debug)]
pub struct FunctionInvocation {
    pub base: Rc<Expression>,
    pub parameters: Vec<Rc<Expression>>,
}

/// An object literal; of two pairs with one key the later one wins.
#[derive(Debug)]
pub struct Object {
    pub pairs: Vec<(String, Rc<Expression>)>,
}

/// A list literal.
#[derive(Debug)]
pub struct List {
    pub elements: Vec<ListElem>,
}

#[derive(Debug)]
pub enum ListElem {
    /// A list whose elements are inserted in place.
    Spread(Rc<Expression>),
    /// A single element.
    Elem(Rc<Expression>),
}

/// A guarded expression and the arms that intercept what is sent while it is
/// evaluated, also from inside the functions that it calls.
#[derive(Debug)]
pub struct Handle {
    pub expr: Rc<Expression>,
    pub match_arms: Vec<HandleMatch>,
}

/// One arm of a `Handle`: the tag it answers, the name its payload is bound
/// to, and its body. A tag is a name of its own kind: it is compared with the
/// tag of a `send` as written and is no variable.
#[derive(Debug)]
pub struct HandleMatch {
    pub symbol: String,
    pub param: String,
    pub block: Rc<Block>,
}

/// `send symbol expr`: raises an effect with the given tag and payload
/// (null when `expr` is absent).
#[derive(Debug)]
pub struct SendExpr {
    pub symbol: String,
    pub expr: Option<Rc<Expression>>,
}

/// `continue expr` inside a handler arm: resumes the computation that the
/// arm suspended, with the value of `expr` (null when absent) as the result
/// of its `send`.
#[derive(Debug)]
pub struct Continue {
    pub expr: Option<Rc<Expression>>,
}

/// Leaves the innermost active loop; the loop's value is that of `expr`
/// (null when absent).
#[derive(Debug)]
pub struct Break {
    pub expr: Option<Rc<Expression>>,
}

/// Abandons the current iteration of the innermost active loop and starts the
/// next one. The value of `expr` is computed and dropped.
#[derive(Debug)]
pub struct NextIteration {
    pub expr: Option<Rc<Expression>>,
}

/// A base followed by member and index steps. Read as an expression it
/// yields the value found at the end of the chain; as the target of an
/// `Assignment` it names the place to write.
#[derive(Debug)]
pub struct LocationChain {
    pub base: LocationChainBase,
    pub parts: Vec<Rc<Location>>,
}

#[derive(Debug)]
pub enum LocationChainBase {
    Ident(String),
    Expression(Rc<Expression>),
}

/// One step of a `LocationChain`.
#[derive(Debug)]
pub enum Location {
    Dot(DotLocation),
    Index(IndexLocation),
}

#[derive(Debug)]
pub struct DotLocation {
    pub prop: String,
}

#[derive(Debug)]
pub struct IndexLocation {
    pub index: Rc<Expression>,
}

/// The operations that the evaluator supplies itself rather than the grammar.
#[derive(Debug, Clone, Copy, PartialEq, Eq, Structural)]
pub enum Builtin {
    /// A symbol literal: each evaluation mints a fresh symbol.
    Symbol,
}

/// A node whose behaviour is supplied by the host: a display name and the
/// operation it stands for.
#[derive(Debug)]
pub struct Custom<T> {
    name: &'static str,
    function: T,
}

impl<T> Custom<T> {
    /// The display name.
    pub closed spec fn name(&self) -> &'static str {
        self.name
    }

    /// The operation.
    pub closed spec fn function(&self) -> T {
        self.function
    }

    /// A node with the given display name and operation.
    pub fn new(name: &'static str, function: T) -> (custom: Self)
        ensures
            custom.name() == name,
            custom.function() == function,
    {
        Custom { name, function }
    }

    /// The display name given at construction.
    pub fn short_name(&self) -> (name: &'static str)
        ensures
            name == self.name(),
    {
        self.name
    }

    /// The operation given at construction.
    pub fn operation(&self) -> (function: &T)
        ensures
            *function == self.function(),
    {
        &self.function
    }
}

} // verus!
