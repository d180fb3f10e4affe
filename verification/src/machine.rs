//! The abstract machine that defines evaluation.
//!
//! A state holds what is being done now (`Control`), the frames that wait for
//! its value (`stack`), and the store: scopes, objects, lists, closures,
//! suspended computations and unhandled effects. `State::step` gives the next
//! state. Because the waiting computation is plain data, a `send` can cut the
//! stack at the frame of its handler and keep the piece, and a `continue` can
//! put a copy of the piece back, any number of times.
//!
//! Nothing here runs; `crate::eval` holds the interpreter that is proved to
//! follow these definitions step for step.

use crate::ast::{
    Assignment, Block, BooleanOperator, Builtin, ComparisonOperator, Expression, Function,
    FunctionInvocation, Handle, HandleMatch, IfExpression, List, ListElem, Location, LocationChain,
    LocationChainBase, NumericOperator, Object, Statement,
};
use crate::value::{
    spec_boolean, spec_negate, spec_normalize_index, spec_not, spec_numeric, spec_order, EvalError,
    Value,
};
use std::rc::Rc;
use vstd::prelude::*;

verus! {

/// The number of calls and resumptions that may be active at once.
pub const RECURSION_LIMIT: usize = 1048576;

/// How many containers deep `Equal` looks before it gives up.
pub const EQUALITY_DEPTH: usize = 128;

/// A function and the scope in which its literal was evaluated.
#[derive(Debug, Clone, Copy)]
pub struct Closure<'a> {
    pub function: &'a Function,
    pub env: usize,
}

/// The tag and payload of a `send` that no handler took.
#[derive(Debug, Clone, Copy)]
pub struct Effect<'a> {
    pub symbol: &'a String,
    pub value: Value,
}

/// How a scope hangs in the scope chain.
#[derive(Debug, Clone, Copy)]
pub struct Link {
    /// The enclosing scope; it is always older than this one.
    pub parent: Option<usize>,
    /// For the scope of a handler arm, the computation that the arm suspended.
    pub resume: Option<usize>,
}

/// A scope: its own bindings, in the order in which their names first came,
/// and its place in the scope chain.
pub struct Scope<'a> {
    pub bindings: Seq<(&'a String, Value)>,
    pub parent: Option<usize>,
    pub resume: Option<usize>,
}

#[derive(Debug, Clone, Copy)]
pub enum BinaryOp {
    Boolean(BooleanOperator),
    Comparison(ComparisonOperator),
    Numeric(NumericOperator),
}

/// What the machine does next.
#[derive(Debug, Clone, Copy)]
pub enum Control<'a> {
    /// Evaluate `expr` in scope `env`.
    Eval { expr: &'a Expression, env: usize },
    /// Hand a value to the top frame.
    Deliver(Value),
    /// Evaluation has ended.
    Halted(Result<Value, EvalError>),
}

/// A computation that waits for a value.
#[allow(inconsistent_fields)]
#[derive(Debug, Clone, Copy)]
pub enum Frame<'a> {
    /// Not waiting: a value kept until the frame above has gathered enough.
    Held(Value),
    Negate,
    Not,
    /// The left operand is being evaluated; the right one comes next.
    Left { op: BinaryOp, right: &'a Expression, env: usize },
    /// The right operand is being evaluated.
    Right { op: BinaryOp, left: Value },
    Dot { prop: &'a String },
    IndexBase { index: &'a Expression, env: usize },
    IndexAt { base: Value },
    /// A condition is being evaluated: `body` belongs to it, `next` is the
    /// position of the condition to try after it.
    If { node: &'a IfExpression, body: &'a Block, next: usize, env: usize },
    /// The body of a loop is being evaluated.
    Loop { body: &'a Block, env: usize },
    Break,
    Next,
    Callee { call: &'a FunctionInvocation, env: usize },
    Arg { call: &'a FunctionInvocation, next: usize, env: usize },
    /// The boundary of a call: what lies above belongs to the callee.
    Return,
    /// A statement of `block` is being run; `next` is the one after it.
    Block { block: &'a Block, next: usize, env: usize },
    Let { name: &'a String, env: usize },
    /// A step of `chain` has been taken; `next` is the step after it.
    Chain { chain: &'a LocationChain, next: usize, env: usize, assign: Option<&'a Assignment> },
    /// The index of step `next - 1` of `chain` is being evaluated.
    ChainIndex {
        chain: &'a LocationChain,
        next: usize,
        env: usize,
        assign: Option<&'a Assignment>,
        base: Value,
    },
    StoreSlot { scope: usize, slot: usize },
    StoreField { object: usize, key: &'a String },
    StoreElement { list: usize, index: usize },
    Pair { node: &'a Object, next: usize, env: usize },
    Elem { node: &'a List, next: usize, env: usize, count: usize, spread: bool },
    /// The guarded expression of `node` is being evaluated.
    Handle { node: &'a Handle, env: usize },
    Send { tag: &'a String },
    Resume { env: usize },
    /// The boundary of a resumption: what lies above is a suspended
    /// computation that was put back.
    Resumed,
}

/// A state of the machine.
pub struct State<'a> {
    pub control: Control<'a>,
    pub stack: Seq<Frame<'a>>,
    pub scopes: Seq<Scope<'a>>,
    /// The fields of every object, in the order in which their keys first
    /// came.
    pub objects: Seq<Seq<(&'a String, Value)>>,
    pub lists: Seq<Seq<Value>>,
    pub closures: Seq<Closure<'a>>,
    /// Suspended computations: each the piece of a stack from the frame of a
    /// handler up.
    pub conts: Seq<Seq<Frame<'a>>>,
    pub effects: Seq<Effect<'a>>,
    /// The id that the next symbol literal gets.
    pub next_symbol: u64,
}

/// The first position from `i` on at which `table` holds `key`.
pub open spec fn find_from(table: Seq<(&String, Value)>, key: Seq<char>, i: int) -> Option<int>
    decreases table.len() - i,
{
    if i < 0 || i >= table.len() {
        None
    } else if table[i].0@ == key {
        Some(i)
    } else {
        find_from(table, key, i + 1)
    }
}

/// The position at which `table` holds `key`.
pub open spec fn find(table: Seq<(&String, Value)>, key: Seq<char>) -> Option<int> {
    find_from(table, key, 0)
}

/// `table` with `key` set to `v`: in place where the key is there, at the end
/// where it is new.
pub open spec fn put<'a>(table: Seq<(&'a String, Value)>, key: &'a String, v: Value) -> Seq<
    (&'a String, Value),
> {
    match find(table, key@) {
        Some(i) => table.update(i, (table[i].0, v)),
        None => table.push((key, v)),
    }
}

/// The table that binds the first `n` of `names` to the first `n` of `values`.
pub open spec fn bind_names<'a>(names: &'a Vec<String>, values: Seq<Value>, n: nat) -> Seq<
    (&'a String, Value),
>
    decreases n,
{
    if n == 0 || n > names@.len() || n > values.len() {
        Seq::empty()
    } else {
        put(bind_names(names, values, (n - 1) as nat), &names@[n - 1], values[n - 1])
    }
}

/// The table that the first `n` pairs of an object literal give, once their
/// expressions have the `values`.
pub open spec fn bind_pairs<'a>(
    pairs: &'a Vec<(String, Rc<Expression>)>,
    values: Seq<Value>,
    n: nat,
) -> Seq<(&'a String, Value)>
    decreases n,
{
    if n == 0 || n > pairs@.len() || n > values.len() {
        Seq::empty()
    } else {
        put(bind_pairs(pairs, values, (n - 1) as nat), &pairs@[n - 1].0, values[n - 1])
    }
}

/// The value that a frame holds; null for a frame that holds none.
pub open spec fn held(f: Frame) -> Value {
    match f {
        Frame::Held(v) => v,
        _ => Value::Null,
    }
}

/// How many of the top frames `n` asks for: all of them where there are fewer.
pub open spec fn top_count(stack: Seq<Frame>, n: nat) -> nat {
    if n <= stack.len() {
        n
    } else {
        stack.len()
    }
}

/// The values held by the top `n` frames, the lowest first.
pub open spec fn top_values(stack: Seq<Frame>, n: nat) -> Seq<Value> {
    let m = top_count(stack, n);
    Seq::new(m, |i: int| held(stack[stack.len() - m + i]))
}

/// The stack without its top `n` frames.
pub open spec fn below_top<'a>(stack: Seq<Frame<'a>>, n: nat) -> Seq<Frame<'a>> {
    stack.take(stack.len() - top_count(stack, n))
}

/// Each value in a frame that holds it.
pub open spec fn hold_all<'a>(values: Seq<Value>) -> Seq<Frame<'a>> {
    Seq::new(values.len(), |i: int| Frame::Held(values[i]))
}

pub open spec fn is_boundary(f: Frame) -> bool {
    f is Return || f is Resumed
}

/// The number of calls and resumptions that are active in `stack`.
pub open spec fn boundaries(stack: Seq<Frame>) -> nat
    decreases stack.len(),
{
    if stack.len() == 0 {
        0
    } else {
        boundaries(stack.drop_last()) + if is_boundary(stack.last()) {
            1nat
        } else {
            0nat
        }
    }
}

pub proof fn lemma_boundaries_bound(stack: Seq<Frame>)
    ensures
        boundaries(stack) <= stack.len(),
    decreases stack.len(),
{
    if stack.len() > 0 {
        lemma_boundaries_bound(stack.drop_last());
    }
}

pub proof fn lemma_boundaries_take(stack: Seq<Frame>, n: int)
    requires
        0 <= n <= stack.len(),
    ensures
        boundaries(stack.take(n)) <= boundaries(stack),
    decreases stack.len(),
{
    if n < stack.len() {
        assert(stack.drop_last().take(n) =~= stack.take(n));
        lemma_boundaries_take(stack.drop_last(), n);
    } else {
        assert(stack.take(n) =~= stack);
    }
}

pub proof fn lemma_boundaries_held(stack: Seq<Frame>, values: Seq<Value>)
    ensures
        boundaries(stack + hold_all(values)) == boundaries(stack),
    decreases values.len(),
{
    if values.len() == 0 {
        assert(stack + hold_all(values) =~= stack);
    } else {
        let most = values.drop_last();
        assert((stack + hold_all(values)).drop_last() =~= stack + hold_all(most));
        lemma_boundaries_held(stack, most);
    }
}

pub proof fn lemma_boundaries_push(stack: Seq<Frame>, f: Frame)
    ensures
        boundaries(stack.push(f)) == boundaries(stack) + if is_boundary(f) {
            1nat
        } else {
            0nat
        },
{
    assert(stack.push(f).drop_last() =~= stack);
}

pub proof fn lemma_boundaries_add(a: Seq<Frame>, b: Seq<Frame>)
    ensures
        boundaries(a + b) == boundaries(a) + boundaries(b),
    decreases b.len(),
{
    if b.len() == 0 {
        assert(a + b =~= a);
    } else {
        assert((a + b).drop_last() =~= a + b.drop_last());
        lemma_boundaries_add(a, b.drop_last());
    }
}

/// The position of the topmost loop frame.
pub open spec fn last_loop(stack: Seq<Frame>) -> Option<int>
    decreases stack.len(),
{
    if stack.len() == 0 {
        None
    } else if stack.last() is Loop {
        Some(stack.len() - 1)
    } else {
        last_loop(stack.drop_last())
    }
}

/// The position from `i` on of the first arm that answers `tag`.
pub open spec fn find_arm(arms: Seq<HandleMatch>, tag: Seq<char>, i: int) -> Option<int>
    decreases arms.len() - i,
{
    if i < 0 || i >= arms.len() {
        None
    } else if arms[i].symbol@ == tag {
        Some(i)
    } else {
        find_arm(arms, tag, i + 1)
    }
}

/// What `find_arm` finds is an arm that answers `tag`.
pub proof fn lemma_find_arm(arms: Seq<HandleMatch>, tag: Seq<char>, i: int)
    requires
        find_arm(arms, tag, i) is Some,
    ensures
        ({
            let a = find_arm(arms, tag, i)->0;
            &&& i <= a < arms.len()
            &&& arms[a].symbol@ == tag
            &&& forall|j: int| i <= j < a ==> (#[trigger] arms[j]).symbol@ != tag
        }),
    decreases arms.len() - i,
{
    if arms[i].symbol@ != tag {
        lemma_find_arm(arms, tag, i + 1);
    }
}

/// The arm of `f` that answers `tag`, where `f` is the frame of a handler
/// that has one.
pub open spec fn arm_in(f: Frame, tag: Seq<char>) -> Option<int> {
    match f {
        Frame::Handle { node, env } => find_arm(node.match_arms@, tag, 0),
        _ => None,
    }
}

/// The topmost frame of a handler with an arm for `tag`, and the position of
/// that arm.
pub open spec fn find_handler(stack: Seq<Frame>, tag: Seq<char>) -> Option<(int, int)>
    decreases stack.len(),
{
    if stack.len() == 0 {
        None
    } else {
        match arm_in(stack.last(), tag) {
            Some(a) => Some((stack.len() - 1, a)),
            None => find_handler(stack.drop_last(), tag),
        }
    }
}

impl<'a> State<'a> {
    /// The state of a fresh interpreter: one empty global scope, nothing to do.
    pub open spec fn initial() -> Self {
        State {
            control: Control::Halted(Ok(Value::Null)),
            stack: Seq::empty(),
            scopes: seq![Scope { bindings: Seq::empty(), parent: None, resume: None }],
            objects: Seq::empty(),
            lists: Seq::empty(),
            closures: Seq::empty(),
            conts: Seq::empty(),
            effects: Seq::empty(),
            next_symbol: 0,
        }
    }

    pub open spec fn halted(self) -> bool {
        self.control is Halted
    }

    /// The result, once evaluation has ended.
    pub open spec fn outcome(self) -> Option<Result<Value, EvalError>> {
        match self.control {
            Control::Halted(r) => Some(r),
            _ => None,
        }
    }

    /// Ends evaluation; whatever was waiting is dropped.
    pub open spec fn halt(self, r: Result<Value, EvalError>) -> Self {
        State { control: Control::Halted(r), stack: Seq::empty(), ..self }
    }

    pub open spec fn fail(self, e: EvalError) -> Self {
        self.halt(Err(e))
    }

    pub open spec fn deliver(self, v: Value) -> Self {
        State { control: Control::Deliver(v), ..self }
    }

    pub open spec fn finish(self, r: Result<Value, EvalError>) -> Self {
        match r {
            Ok(v) => self.deliver(v),
            Err(e) => self.fail(e),
        }
    }

    pub open spec fn eval(self, expr: &'a Expression, env: usize) -> Self {
        State { control: Control::Eval { expr, env }, ..self }
    }

    pub open spec fn push(self, f: Frame<'a>) -> Self {
        State { stack: self.stack.push(f), ..self }
    }

    pub open spec fn with_stack(self, stack: Seq<Frame<'a>>) -> Self {
        State { stack, ..self }
    }

    // ---- scopes -----------------------------------------------------------

    /// The scope that encloses `env`.
    pub open spec fn parent_of(self, env: usize) -> Option<usize> {
        if env < self.scopes.len() {
            match self.scopes[env as int].parent {
                Some(p) => if p < env {
                    Some(p)
                } else {
                    None
                },
                None => None,
            }
        } else {
            None
        }
    }

    /// The position of `name` in the table of scope `env` itself.
    pub open spec fn find_in(self, env: usize, name: Seq<char>) -> Option<int> {
        if env < self.scopes.len() {
            find(self.scopes[env as int].bindings, name)
        } else {
            None
        }
    }

    /// The scope and slot of the innermost binding of `name` that is visible
    /// from scope `env`.
    pub open spec fn resolve(self, env: usize, name: Seq<char>) -> Option<(usize, usize)>
        decreases env,
    {
        match self.find_in(env, name) {
            Some(i) => Some((env, i as usize)),
            None => match self.parent_of(env) {
                Some(p) => self.resolve(p, name),
                None => None,
            },
        }
    }

    /// The value of `name` as seen from scope `env`.
    pub open spec fn lookup(self, env: usize, name: Seq<char>) -> Option<Value> {
        match self.resolve(env, name) {
            Some((scope, slot)) => Some(self.scopes[scope as int].bindings[slot as int].1),
            None => None,
        }
    }

    /// Binds `name` to `v` in scope `env` itself.
    pub open spec fn declare(self, env: usize, name: &'a String, v: Value) -> Self {
        if env < self.scopes.len() {
            let scope = self.scopes[env as int];
            State {
                scopes: self.scopes.update(
                    env as int,
                    Scope { bindings: put(scope.bindings, name, v), ..scope },
                ),
                ..self
            }
        } else {
            self
        }
    }

    /// Gives the innermost binding of `name` that is visible from scope `env`
    /// the value `v`; there must be one.
    pub open spec fn assign(self, env: usize, name: Seq<char>, v: Value) -> Result<
        Self,
        EvalError,
    > {
        match self.resolve(env, name) {
            Some((scope, slot)) => Ok(self.store_slot(scope, slot, v)),
            None => Err(EvalError::UndefinedVariable),
        }
    }

    /// Adds a scope with the given bindings; its handle is the number of
    /// scopes before.
    pub open spec fn add_scope(
        self,
        table: Seq<(&'a String, Value)>,
        parent: Option<usize>,
        resume: Option<usize>,
    ) -> Self {
        State { scopes: self.scopes.push(Scope { bindings: table, parent, resume }), ..self }
    }

    /// The suspended computation that a `continue` in scope `env` resumes:
    /// that of the innermost enclosing handler arm.
    pub open spec fn continuation(self, env: usize) -> Option<usize>
        decreases env,
    {
        match self.resume_of(env) {
            Some(k) => Some(k),
            None => match self.parent_of(env) {
                Some(p) => self.continuation(p),
                None => None,
            },
        }
    }

    /// The computation that scope `env` itself resumes.
    pub open spec fn resume_of(self, env: usize) -> Option<usize> {
        if env < self.scopes.len() {
            match self.scopes[env as int].resume {
                Some(k) => if k < self.conts.len() {
                    Some(k)
                } else {
                    None
                },
                None => None,
            }
        } else {
            None
        }
    }

    // ---- the store ----------------------------------------------------------

    pub open spec fn list_of(self, v: Value) -> Option<Seq<Value>> {
        match v {
            Value::List(h) => if h < self.lists.len() {
                Some(self.lists[h as int])
            } else {
                None
            },
            _ => None,
        }
    }

    pub open spec fn object_of(self, v: Value) -> Option<usize> {
        match v {
            Value::Object(h) => if h < self.objects.len() {
                Some(h)
            } else {
                None
            },
            _ => None,
        }
    }

    pub open spec fn effect_of(self, v: Value) -> Option<Effect<'a>> {
        match v {
            Value::Effect(h) => if h < self.effects.len() {
                Some(self.effects[h as int])
            } else {
                None
            },
            _ => None,
        }
    }

    pub open spec fn closure_of(self, v: Value) -> Option<Closure<'a>> {
        match v {
            Value::Closure(h) => if h < self.closures.len() {
                Some(self.closures[h as int])
            } else {
                None
            },
            _ => None,
        }
    }

    /// The field `key` of object `v`.
    pub open spec fn member(self, v: Value, key: Seq<char>) -> Result<Value, EvalError> {
        match self.object_of(v) {
            Some(h) => match find(self.objects[h as int], key) {
                Some(i) => Ok(self.objects[h as int][i].1),
                None => Err(EvalError::UndefinedVariable),
            },
            None => Err(EvalError::TypeMismatch),
        }
    }

    /// The list and position that `base[index]` names.
    pub open spec fn place(self, base: Value, index: Value) -> Result<(usize, usize), EvalError> {
        match (base, index) {
            (Value::List(h), Value::Int(i)) => if h < self.lists.len() {
                match spec_normalize_index(self.lists[h as int].len(), i as int) {
                    Some(j) => Ok((h, j as usize)),
                    None => Err(EvalError::IndexOutOfRange),
                }
            } else {
                Err(EvalError::TypeMismatch)
            },
            _ => Err(EvalError::TypeMismatch),
        }
    }

    /// The element `index` of list `base`.
    pub open spec fn element(self, base: Value, index: Value) -> Result<Value, EvalError> {
        match self.place(base, index) {
            Ok((h, j)) => Ok(self.lists[h as int][j as int]),
            Err(e) => Err(e),
        }
    }

    /// Whether `l` and `r` are equal, looking at most `fuel` containers deep.
    /// Values of different kinds do not compare. Lists are equal when their
    /// elements are, objects when they have the same keys with equal values,
    /// effects when they have the same tag and equal payloads; symbols and
    /// closures only when they are the same one.
    pub open spec fn equal(self, l: Value, r: Value, fuel: nat) -> Result<bool, EvalError>
        decreases fuel, 0nat,
    {
        match (l, r) {
            (Value::Null, Value::Null) => Ok(true),
            (Value::Bool(a), Value::Bool(b)) => Ok(a == b),
            (Value::Int(a), Value::Int(b)) => Ok(a == b),
            (Value::Symbol(a), Value::Symbol(b)) => Ok(a == b),
            (Value::Closure(a), Value::Closure(b)) => Ok(a == b),
            (Value::Effect(a), Value::Effect(b)) => if a == b {
                Ok(true)
            } else if a >= self.effects.len() || b >= self.effects.len() {
                Err(EvalError::TypeMismatch)
            } else if self.effects[a as int].symbol@ != self.effects[b as int].symbol@ {
                Ok(false)
            } else if fuel == 0 {
                Err(EvalError::RecursionLimitExceeded)
            } else {
                self.equal(
                    self.effects[a as int].value,
                    self.effects[b as int].value,
                    (fuel - 1) as nat,
                )
            },
            (Value::List(a), Value::List(b)) => if a == b {
                Ok(true)
            } else if a >= self.lists.len() || b >= self.lists.len() {
                Err(EvalError::TypeMismatch)
            } else if self.lists[a as int].len() != self.lists[b as int].len() {
                Ok(false)
            } else if fuel == 0 {
                Err(EvalError::RecursionLimitExceeded)
            } else {
                self.equal_items(self.lists[a as int], self.lists[b as int], 0, (fuel - 1) as nat)
            },
            (Value::Object(a), Value::Object(b)) => if a == b {
                Ok(true)
            } else if a >= self.objects.len() || b >= self.objects.len() {
                Err(EvalError::TypeMismatch)
            } else if self.objects[a as int].len() != self.objects[b as int].len() {
                Ok(false)
            } else if fuel == 0 {
                Err(EvalError::RecursionLimitExceeded)
            } else {
                self.equal_fields(
                    self.objects[a as int],
                    self.objects[b as int],
                    0,
                    (fuel - 1) as nat,
                )
            },
            _ => Err(EvalError::TypeMismatch),
        }
    }

    /// Whether `xs` and `ys`, of one length, agree from position `i` on.
    pub open spec fn equal_items(self, xs: Seq<Value>, ys: Seq<Value>, i: nat, fuel: nat) -> Result<
        bool,
        EvalError,
    >
        decreases fuel, xs.len() - i + 1,
    {
        if i >= xs.len() || i >= ys.len() {
            Ok(true)
        } else {
            match self.equal(xs[i as int], ys[i as int], fuel) {
                Ok(true) => self.equal_items(xs, ys, i + 1, fuel),
                other => other,
            }
        }
    }

    /// Whether every field of `xs` from position `i` on is in `ys` with an
    /// equal value.
    pub open spec fn equal_fields(
        self,
        xs: Seq<(&'a String, Value)>,
        ys: Seq<(&'a String, Value)>,
        i: nat,
        fuel: nat,
    ) -> Result<bool, EvalError>
        decreases fuel, xs.len() - i + 1,
    {
        if i >= xs.len() {
            Ok(true)
        } else {
            match find(ys, xs[i as int].0@) {
                None => Ok(false),
                Some(j) => match self.equal(xs[i as int].1, ys[j].1, fuel) {
                    Ok(true) => self.equal_fields(xs, ys, i + 1, fuel),
                    other => other,
                },
            }
        }
    }

    pub open spec fn compare(self, op: ComparisonOperator, l: Value, r: Value) -> Result<
        Value,
        EvalError,
    > {
        match op {
            ComparisonOperator::Equal => match self.equal(l, r, EQUALITY_DEPTH as nat) {
                Ok(b) => Ok(Value::Bool(b)),
                Err(e) => Err(e),
            },
            ComparisonOperator::NotEqual => match self.equal(l, r, EQUALITY_DEPTH as nat) {
                Ok(b) => Ok(Value::Bool(!b)),
                Err(e) => Err(e),
            },
            _ => spec_order(op, l, r),
        }
    }

    pub open spec fn binary(self, op: BinaryOp, l: Value, r: Value) -> Result<Value, EvalError> {
        match op {
            BinaryOp::Boolean(o) => spec_boolean(o, l, r),
            BinaryOp::Numeric(o) => spec_numeric(o, l, r),
            BinaryOp::Comparison(o) => self.compare(o, l, r),
        }
    }

    // ---- control ----------------------------------------------------------

    /// Runs `block` from statement `idx` on in scope `env`.
    pub open spec fn run(self, block: &'a Block, idx: usize, env: usize) -> Self {
        if idx < block.statements@.len() {
            let s = self.push(Frame::Block { block, next: (idx + 1) as usize, env });
            match *block.statements@[idx as int] {
                Statement::Let(l) => s.push(Frame::Let { name: &l.ident, env }).eval(&*l.expr, env),
                Statement::Assignment(a) => s.start_chain(&a.location, env, Some(&a)),
                Statement::Expression(e) => s.eval(&*e.expr, env),
            }
        } else {
            match block.expression {
                Some(e) => self.eval(&*e, env),
                None => self.deliver(Value::Null),
            }
        }
    }

    /// Runs `block` in a new scope inside `env`.
    pub open spec fn enter(self, block: &'a Block, env: usize) -> Self {
        self.add_scope(Seq::empty(), Some(env), None).run(block, 0, self.scopes.len() as usize)
    }

    /// Tries the conditions of `node` from position `idx` on.
    pub open spec fn branch(self, node: &'a IfExpression, idx: usize, env: usize) -> Self {
        if idx < node.ifs@.len() {
            self.push(
                Frame::If {
                    node,
                    body: &*node.ifs@[idx as int].body,
                    next: (idx + 1) as usize,
                    env,
                },
            ).eval(&*node.ifs@[idx as int].cond, env)
        } else {
            match node.else_body {
                Some(b) => self.enter(&*b, env),
                None => self.deliver(Value::Null),
            }
        }
    }

    /// Ends the innermost active loop with value `v`.
    pub open spec fn leave_loop(self, v: Value) -> Self {
        match last_loop(self.stack) {
            Some(i) => self.with_stack(self.stack.take(i)).deliver(v),
            None => self.fail(EvalError::NoEnclosingLoop),
        }
    }

    /// Starts the next iteration of the innermost active loop.
    pub open spec fn next_iteration(self) -> Self {
        match last_loop(self.stack) {
            Some(i) => self.with_stack(self.stack.take(i + 1)).deliver(Value::Null),
            None => self.fail(EvalError::NoEnclosingLoop),
        }
    }

    /// Evaluates the arguments of `call` from position `idx` on, then calls.
    pub open spec fn arguments(self, call: &'a FunctionInvocation, idx: usize, env: usize) -> Self {
        if idx < call.parameters@.len() {
            self.push(Frame::Arg { call, next: (idx + 1) as usize, env }).eval(
                &*call.parameters@[idx as int],
                env,
            )
        } else {
            self.apply(call.parameters@.len())
        }
    }

    /// Calls the closure held below the top `n` frames with the values that
    /// those frames hold.
    pub open spec fn apply(self, n: nat) -> Self {
        let args = top_values(self.stack, n);
        let rest = below_top(self.stack, n);
        if rest.len() == 0 {
            self.fail(EvalError::TypeMismatch)
        } else {
            match self.closure_of(held(rest.last())) {
                None => self.fail(EvalError::TypeMismatch),
                Some(c) => if c.function.parameters@.len() != args.len() {
                    self.fail(EvalError::ArityMismatch)
                } else if boundaries(rest.drop_last()) >= RECURSION_LIMIT {
                    self.fail(EvalError::RecursionLimitExceeded)
                } else {
                    self.with_stack(rest.drop_last().push(Frame::Return)).add_scope(
                        bind_names(&c.function.parameters, args, args.len()),
                        Some(c.env),
                        None,
                    ).run(&*c.function.body, 0, self.scopes.len() as usize)
                },
            }
        }
    }

    /// Evaluates the pairs of `node` from position `idx` on, then builds the
    /// object.
    pub open spec fn pairs(self, node: &'a Object, idx: usize, env: usize) -> Self {
        if idx < node.pairs@.len() {
            self.push(Frame::Pair { node, next: (idx + 1) as usize, env }).eval(
                &*node.pairs@[idx as int].1,
                env,
            )
        } else {
            let values = top_values(self.stack, node.pairs@.len());
            State {
                stack: below_top(self.stack, node.pairs@.len()),
                objects: self.objects.push(bind_pairs(&node.pairs, values, values.len())),
                ..self
            }.deliver(Value::Object(self.objects.len() as usize))
        }
    }

    /// Evaluates the elements of `node` from position `idx` on, then builds
    /// the list from the `count` values gathered.
    pub open spec fn elements(self, node: &'a List, idx: usize, env: usize, count: usize) -> Self {
        if idx < node.elements@.len() {
            match node.elements@[idx as int] {
                ListElem::Elem(e) => self.push(
                    Frame::Elem { node, next: (idx + 1) as usize, env, count, spread: false },
                ).eval(&*e, env),
                ListElem::Spread(e) => self.push(
                    Frame::Elem { node, next: (idx + 1) as usize, env, count, spread: true },
                ).eval(&*e, env),
            }
        } else {
            State {
                stack: below_top(self.stack, count as nat),
                lists: self.lists.push(top_values(self.stack, count as nat)),
                ..self
            }.deliver(Value::List(self.lists.len() as usize))
        }
    }

    /// Takes the value `v` of an element of `node`: itself, or for a spread
    /// the elements of the list that it is.
    pub open spec fn gather(
        self,
        node: &'a List,
        next: usize,
        env: usize,
        count: usize,
        spread: bool,
        v: Value,
    ) -> Self {
        if !spread {
            if count + 1 > usize::MAX {
                self.fail(EvalError::IntegerOverflow)
            } else {
                self.push(Frame::Held(v)).elements(node, next, env, (count + 1) as usize)
            }
        } else {
            match self.list_of(v) {
                None => self.fail(EvalError::TypeMismatch),
                Some(items) => if count + items.len() > usize::MAX {
                    self.fail(EvalError::IntegerOverflow)
                } else {
                    self.with_stack(self.stack + hold_all(items)).elements(
                        node,
                        next,
                        env,
                        (count + items.len()) as usize,
                    )
                },
            }
        }
    }

    /// Starts on `chain`: to read it, or with `assign` to find the place that
    /// the assignment writes.
    pub open spec fn start_chain(
        self,
        chain: &'a LocationChain,
        env: usize,
        assign: Option<&'a Assignment>,
    ) -> Self {
        match chain.base {
            LocationChainBase::Ident(name) => if assign is Some && chain.parts@.len() == 0 {
                match self.resolve(env, name@) {
                    Some((scope, slot)) => self.push(Frame::StoreSlot { scope, slot }).eval(
                        &*assign->0.expr,
                        env,
                    ),
                    None => self.fail(EvalError::UndefinedVariable),
                }
            } else {
                match self.lookup(env, name@) {
                    Some(v) => self.walk(chain, 0, env, assign, v),
                    None => self.fail(EvalError::UndefinedVariable),
                }
            },
            LocationChainBase::Expression(e) => if assign is Some && chain.parts@.len() == 0 {
                self.fail(EvalError::TypeMismatch)
            } else {
                self.push(Frame::Chain { chain, next: 0, env, assign }).eval(&*e, env)
            },
        }
    }

    /// Takes step `idx` of `chain` from the value `cur`. The last step of an
    /// assignment's chain is not read: it names the place to write, and the
    /// assigned expression is evaluated next.
    pub open spec fn walk(
        self,
        chain: &'a LocationChain,
        idx: usize,
        env: usize,
        assign: Option<&'a Assignment>,
        cur: Value,
    ) -> Self {
        if idx >= chain.parts@.len() {
            self.deliver(cur)
        } else {
            let next = (idx + 1) as usize;
            match *chain.parts@[idx as int] {
                Location::Dot(d) => if assign is Some && next == chain.parts@.len() {
                    match self.object_of(cur) {
                        Some(object) => self.push(
                            Frame::StoreField { object, key: &d.prop },
                        ).eval(&*assign->0.expr, env),
                        None => self.fail(EvalError::TypeMismatch),
                    }
                } else {
                    match self.member(cur, d.prop@) {
                        Ok(m) => self.push(Frame::Chain { chain, next, env, assign }).deliver(m),
                        Err(e) => self.fail(e),
                    }
                },
                Location::Index(ix) => self.push(
                    Frame::ChainIndex { chain, next, env, assign, base: cur },
                ).eval(&*ix.index, env),
            }
        }
    }

    /// Finishes an index step of `chain`, now that the index has value `v`.
    pub open spec fn walk_index(
        self,
        chain: &'a LocationChain,
        next: usize,
        env: usize,
        assign: Option<&'a Assignment>,
        base: Value,
        v: Value,
    ) -> Self {
        if assign is Some && next == chain.parts@.len() {
            match self.place(base, v) {
                Ok((list, index)) => self.push(Frame::StoreElement { list, index }).eval(
                    &*assign->0.expr,
                    env,
                ),
                Err(e) => self.fail(e),
            }
        } else {
            match self.element(base, v) {
                Ok(m) => self.push(Frame::Chain { chain, next, env, assign }).deliver(m),
                Err(e) => self.fail(e),
            }
        }
    }

    pub open spec fn store_slot(self, scope: usize, slot: usize, v: Value) -> Self {
        if scope < self.scopes.len() && slot < self.scopes[scope as int].bindings.len() {
            let found = self.scopes[scope as int];
            let name = found.bindings[slot as int].0;
            State {
                scopes: self.scopes.update(
                    scope as int,
                    Scope { bindings: found.bindings.update(slot as int, (name, v)), ..found },
                ),
                ..self
            }
        } else {
            self
        }
    }

    pub open spec fn store_field(self, object: usize, key: &'a String, v: Value) -> Self {
        if object < self.objects.len() {
            State {
                objects: self.objects.update(
                    object as int,
                    put(self.objects[object as int], key, v),
                ),
                ..self
            }
        } else {
            self
        }
    }

    pub open spec fn store_element(self, list: usize, index: usize, v: Value) -> Self {
        if list < self.lists.len() && index < self.lists[list as int].len() {
            State {
                lists: self.lists.update(
                    list as int,
                    self.lists[list as int].update(index as int, v),
                ),
                ..self
            }
        } else {
            self
        }
    }

    /// Mints a symbol: the current counter, which then goes up by one.
    pub open spec fn mint(self) -> Self {
        if self.next_symbol == u64::MAX {
            self.fail(EvalError::IntegerOverflow)
        } else {
            State { next_symbol: (self.next_symbol + 1) as u64, ..self }.deliver(
                Value::Symbol(self.next_symbol),
            )
        }
    }

    /// Sends `payload` under `tag`. The topmost handler with an arm for the
    /// tag takes it: the stack is cut at that handler's frame, the piece is
    /// kept as a suspended computation, and the arm runs in place of the
    /// handle expression, with its parameter bound to the payload. Where no
    /// handler has such an arm, the `send` is no failure: its value is an
    /// effect value that carries the tag and the payload, and evaluation goes
    /// on with it as with any value.
    pub open spec fn perform(self, tag: &'a String, payload: Value) -> Self {
        match find_handler(self.stack, tag@) {
            None => State {
                effects: self.effects.push(Effect { symbol: tag, value: payload }),
                ..self
            }.deliver(Value::Effect(self.effects.len() as usize)),
            Some((h, a)) => {
                let arm = self.stack[h]->Handle_node.match_arms@[a];
                self.suspend(h, &arm.param, payload).run(
                    &*arm.block,
                    0,
                    self.scopes.len() as usize,
                )
            },
        }
    }

    /// The state in which the arm of the handler at position `h` of the stack
    /// starts: the stack is cut at `h`, the piece is kept, and `param` is
    /// bound to `payload` in a new scope.
    pub open spec fn suspend(self, h: int, param: &'a String, payload: Value) -> Self {
        State {
            stack: self.stack.take(h),
            conts: self.conts.push(self.stack.skip(h)),
            ..self
        }.add_scope(
            seq![(param, payload)],
            Some(self.stack[h]->Handle_env),
            Some(self.conts.len() as usize),
        )
    }

    /// Resumes the computation that the innermost enclosing handler arm
    /// suspended: a copy of it goes back on the stack, behind a boundary, and
    /// `v` is delivered to it as the value of its `send`. The copy starts
    /// with the handler's own frame, so what the resumed computation sends
    /// reaches the same handler again; when it ends, its value is the value
    /// of the `continue`. Each resumption starts from the same frames and
    /// meets the store as it is by then.
    pub open spec fn resume(self, env: usize, v: Value) -> Self {
        match self.continuation(env) {
            None => self.fail(EvalError::UndefinedVariable),
            Some(k) => if boundaries(self.stack) + boundaries(self.conts[k as int]) + 1
                > RECURSION_LIMIT {
                self.fail(EvalError::RecursionLimitExceeded)
            } else {
                self.with_stack(self.stack.push(Frame::Resumed) + self.conts[k as int]).deliver(v)
            },
        }
    }

    /// Starts on the evaluation of `expr` in scope `env`.
    pub open spec fn begin(self, expr: &'a Expression, env: usize) -> Self {
        match *expr {
            Expression::Null(_) => self.deliver(Value::Null),
            Expression::Bool(b) => self.deliver(Value::Bool(b.0)),
            Expression::Int(n) => self.deliver(Value::Int(n.0)),
            Expression::Negative(n) => self.push(Frame::Negate).eval(&*n.expr, env),
            Expression::Not(n) => self.push(Frame::Not).eval(&*n.expr, env),
            Expression::Boolean(b) => self.push(
                Frame::Left { op: BinaryOp::Boolean(b.operator), right: &*b.right, env },
            ).eval(&*b.left, env),
            Expression::Comparison(c) => self.push(
                Frame::Left { op: BinaryOp::Comparison(c.operator), right: &*c.right, env },
            ).eval(&*c.left, env),
            Expression::Numeric(n) => self.push(
                Frame::Left { op: BinaryOp::Numeric(n.operator), right: &*n.right, env },
            ).eval(&*n.left, env),
            Expression::Dot(d) => self.push(Frame::Dot { prop: &d.prop }).eval(&*d.base, env),
            Expression::Index(ix) => self.push(
                Frame::IndexBase { index: &*ix.index, env },
            ).eval(&*ix.base, env),
            Expression::If(node) => self.branch(&node, 0, env),
            Expression::Loop(l) => self.push(Frame::Loop { body: &*l.body, env }).enter(
                &*l.body,
                env,
            ),
            Expression::Break(b) => match b.expr {
                Some(e) => self.push(Frame::Break).eval(&*e, env),
                None => self.leave_loop(Value::Null),
            },
            Expression::NextIteration(n) => match n.expr {
                Some(e) => self.push(Frame::Next).eval(&*e, env),
                None => self.next_iteration(),
            },
            Expression::Function(f) => State {
                closures: self.closures.push(Closure { function: &f, env }),
                ..self
            }.deliver(Value::Closure(self.closures.len() as usize)),
            Expression::Invocation(c) => self.push(Frame::Callee { call: &c, env }).eval(
                &*c.base,
                env,
            ),
            Expression::Block(b) => self.enter(&b, env),
            Expression::Object(o) => self.pairs(&o, 0, env),
            Expression::List(l) => self.elements(&l, 0, env, 0),
            Expression::Location(chain) => self.start_chain(&chain, env, None),
            Expression::Handle(h) => self.push(Frame::Handle { node: &h, env }).eval(
                &*h.expr,
                env,
            ),
            Expression::Send(s) => match s.expr {
                Some(e) => self.push(Frame::Send { tag: &s.symbol }).eval(&*e, env),
                None => self.perform(&s.symbol, Value::Null),
            },
            Expression::Continue(c) => match c.expr {
                Some(e) => self.push(Frame::Resume { env }).eval(&*e, env),
                None => self.resume(env, Value::Null),
            },
            Expression::Custom(c) => match c.function() {
                Builtin::Symbol => self.mint(),
            },
        }
    }

    /// Hands `v` to frame `f`, which has been taken off the stack.
    pub open spec fn apply_frame(self, f: Frame<'a>, v: Value) -> Self {
        match f {
            Frame::Held(_) => self.deliver(v),
            Frame::Negate => self.finish(spec_negate(v)),
            Frame::Not => self.finish(spec_not(v)),
            Frame::Left { op, right, env } => self.push(Frame::Right { op, left: v }).eval(
                right,
                env,
            ),
            Frame::Right { op, left } => self.finish(self.binary(op, left, v)),
            Frame::Dot { prop } => self.finish(self.member(v, prop@)),
            Frame::IndexBase { index, env } => self.push(Frame::IndexAt { base: v }).eval(
                index,
                env,
            ),
            Frame::IndexAt { base } => self.finish(self.element(base, v)),
            Frame::If { node, body, next, env } => match v {
                Value::Bool(true) => self.enter(body, env),
                Value::Bool(false) => self.branch(node, next, env),
                _ => self.fail(EvalError::TypeMismatch),
            },
            Frame::Loop { body, env } => self.push(Frame::Loop { body, env }).enter(body, env),
            Frame::Break => self.leave_loop(v),
            Frame::Next => self.next_iteration(),
            Frame::Callee { call, env } => match self.closure_of(v) {
                Some(_) => self.push(Frame::Held(v)).arguments(call, 0, env),
                None => self.fail(EvalError::TypeMismatch),
            },
            Frame::Arg { call, next, env } => self.push(Frame::Held(v)).arguments(call, next, env),
            Frame::Return => self.deliver(v),
            Frame::Block { block, next, env } => self.run(block, next, env),
            Frame::Let { name, env } => self.declare(env, name, v).deliver(Value::Null),
            Frame::Chain { chain, next, env, assign } => self.walk(chain, next, env, assign, v),
            Frame::ChainIndex { chain, next, env, assign, base } => self.walk_index(
                chain,
                next,
                env,
                assign,
                base,
                v,
            ),
            Frame::StoreSlot { scope, slot } => self.store_slot(scope, slot, v).deliver(
                Value::Null,
            ),
            Frame::StoreField { object, key } => self.store_field(object, key, v).deliver(
                Value::Null,
            ),
            Frame::StoreElement { list, index } => self.store_element(list, index, v).deliver(
                Value::Null,
            ),
            Frame::Pair { node, next, env } => self.push(Frame::Held(v)).pairs(node, next, env),
            Frame::Elem { node, next, env, count, spread } => self.gather(
                node,
                next,
                env,
                count,
                spread,
                v,
            ),
            Frame::Handle { node, env } => self.deliver(v),
            Frame::Send { tag } => self.perform(tag, v),
            Frame::Resume { env } => self.resume(env, v),
            Frame::Resumed => self.deliver(v),
        }
    }

    /// One step of evaluation.
    pub open spec fn step(self) -> Self {
        match self.control {
            Control::Halted(_) => self,
            Control::Eval { expr, env } => self.begin(expr, env),
            Control::Deliver(v) => if self.stack.len() == 0 {
                self.halt(Ok(v))
            } else {
                self.with_stack(self.stack.drop_last()).apply_frame(self.stack.last(), v)
            },
        }
    }

    /// The state after at most `fuel` steps, fewer where evaluation ends
    /// before.
    pub open spec fn run_for(self, fuel: nat) -> Self
        decreases fuel,
    {
        if fuel == 0 || self.halted() {
            self
        } else {
            self.step().run_for((fuel - 1) as nat)
        }
    }

    /// The state in which the evaluation of `ast` starts: the stack is empty
    /// and the block runs in the global scope.
    pub open spec fn load(self, ast: &'a Block) -> Self {
        self.with_stack(Seq::empty()).run(ast, 0, 0)
    }

    /// The state in which the evaluation of `ast` ends when it may take at
    /// most `limit` steps: halted, with the step budget as the error where the
    /// steps did not suffice.
    pub open spec fn evaluate(self, ast: &'a Block, limit: nat) -> Self {
        let s = self.load(ast).run_for(limit);
        if s.halted() {
            s
        } else {
            s.fail(EvalError::StepLimitExceeded)
        }
    }
}

} // verus!
