//! The interpreter: the machine of `crate::machine` on real memory.
//!
//! Every method that changes the interpreter says which state of the machine
//! its new state is, so that what holds of `State::step` holds of what runs.

use crate::ast::{
    Assignment, Block, Builtin, ComparisonOperator, Expression, FunctionInvocation, Handle,
    HandleMatch, IfExpression, List, ListElem, Location, LocationChain, LocationChainBase, Object,
    Statement,
};
use crate::machine::{
    below_top, bind_names, bind_pairs, boundaries, find_arm, find_handler, held, hold_all,
    last_loop, lemma_boundaries_bound, lemma_boundaries_push, top_values, BinaryOp, Closure,
    Control, Effect, Frame, Link, Scope, State, EQUALITY_DEPTH, RECURSION_LIMIT,
};
use crate::sound::{lemma_sound_declare, lemma_sound_halt, lemma_sound_store_slot, lemma_sound_with};
use crate::store::{find_key, push_row, put_in, put_key, rows, set_cell};
use crate::valid::{lemma_initial_valid, lemma_load_valid, lemma_step_valid};
use crate::value::{boolean, negate, normalize_index, not, numeric, order, EvalError, Value};
use vstd::prelude::*;

verus! {

/// An evaluator instance: a machine state in memory, and a budget of steps.
pub struct Interpreter<'a> {
    control: Control<'a>,
    stack: Vec<Frame<'a>>,
    /// The number of boundary frames in `stack`.
    depth: usize,
    /// The place of each scope in the scope chain.
    links: Vec<Link>,
    /// The bindings of each scope; as many as there are links.
    bindings: Vec<Vec<(&'a String, Value)>>,
    objects: Vec<Vec<(&'a String, Value)>>,
    lists: Vec<Vec<Value>>,
    closures: Vec<Closure<'a>>,
    conts: Vec<Vec<Frame<'a>>>,
    effects: Vec<Effect<'a>>,
    next_symbol: u64,
    step_limit: u64,
}

/// The scopes that links and bindings make, taken pair by pair.
spec fn zip_scopes<'a>(
    links: Seq<Link>,
    bindings: Seq<Seq<(&'a String, Value)>>,
) -> Seq<Scope<'a>> {
    Seq::new(
        links.len(),
        |i: int| Scope { bindings: bindings[i], parent: links[i].parent, resume: links[i].resume },
    )
}

impl<'a> View for Interpreter<'a> {
    type V = State<'a>;

    closed spec fn view(&self) -> State<'a> {
        State {
            control: self.control,
            stack: self.stack@,
            scopes: zip_scopes(self.links@, rows(&self.bindings)),
            objects: rows(&self.objects),
            lists: rows(&self.lists),
            closures: self.closures@,
            conts: rows(&self.conts),
            effects: self.effects@,
            next_symbol: self.next_symbol,
        }
    }
}

impl<'a> Interpreter<'a> {
    /// What the interpreter keeps true of itself between the moves of a step.
    closed spec fn tidy(&self) -> bool {
        &&& self.depth == boundaries(self.stack@)
        &&& self.links@.len() == self.bindings@.len()
    }

    /// What every interpreter keeps true of itself: its state is one that
    /// evaluation can reach.
    pub closed spec fn wf(&self) -> bool {
        self.tidy() && self@.valid()
    }

    /// The state of a well-formed interpreter is valid: every handle names
    /// something that is in the store, and the stack is well-shaped.
    pub proof fn lemma_wf_valid(&self)
        requires
            self.wf(),
        ensures
            self@.valid(),
    {
    }

    proof fn lemma_view_fits(&self)
        requires
            self.tidy(),
        ensures
            self@.fits(),
    {
        assert(self.links@.len() == self.links.len());
        assert(self.objects@.len() == self.objects.len());
        assert(self.lists@.len() == self.lists.len());
        assert(self.closures@.len() == self.closures.len());
        assert(self.conts@.len() == self.conts.len());
        assert(self.effects@.len() == self.effects.len());
        assert forall|t: int| 0 <= t < self@.objects.len() implies (
        #[trigger] self@.objects[t]).len() <= usize::MAX by {
            assert(self.objects@[t]@.len() == self.objects@[t].len());
        }
        assert forall|e: int| 0 <= e < self@.scopes.len() implies (
        #[trigger] self@.scopes[e]).bindings.len() <= usize::MAX by {
            assert(self.bindings@[e]@.len() == self.bindings@[e].len());
        }
        assert forall|l: int| 0 <= l < self@.lists.len() implies (#[trigger] self@.lists[l]).len()
            <= usize::MAX by {
            assert(self.lists@[l]@.len() == self.lists@[l].len());
        }
    }

    /// The most steps that one `eval` takes.
    pub closed spec fn step_limit(&self) -> u64 {
        self.step_limit
    }

    /// A fresh interpreter, with the largest step budget there is.
    pub fn new() -> (interp: Self)
        ensures
            interp.wf(),
            interp@ == State::initial(),
            interp.step_limit() == u64::MAX,
    {
        let mut links: Vec<Link> = Vec::new();
        links.push(Link { parent: None, resume: None });
        let mut bindings: Vec<Vec<(&'a String, Value)>> = Vec::new();
        bindings.push(Vec::new());
        let interp = Interpreter {
            control: Control::Halted(Ok(Value::Null)),
            stack: Vec::new(),
            depth: 0,
            links,
            bindings,
            objects: Vec::new(),
            lists: Vec::new(),
            closures: Vec::new(),
            conts: Vec::new(),
            effects: Vec::new(),
            next_symbol: 0,
            step_limit: u64::MAX,
        };
        assert(interp@.scopes =~= State::initial().scopes);
        assert(interp@.objects =~= State::initial().objects);
        assert(interp@.lists =~= State::initial().lists);
        assert(interp@.conts =~= State::initial().conts);
        assert(interp@.stack =~= State::initial().stack);
        assert(interp@.closures =~= State::initial().closures);
        assert(interp@.effects =~= State::initial().effects);
        proof {
            lemma_initial_valid(interp@);
        }
        interp
    }

    /// Sets the most steps that one `eval` takes.
    pub fn set_step_limit(&mut self, limit: u64)
        requires
            old(self).wf(),
        ensures
            final(self).wf(),
            final(self)@ == old(self)@,
            final(self).step_limit() == limit,
    {
        self.step_limit = limit;
    }

    fn halt(&mut self, r: Result<Value, EvalError>)
        requires
            old(self).tidy(),
        ensures
            final(self).tidy(),
            final(self)@ == old(self)@.halt(r),
            final(self).step_limit() == old(self).step_limit(),
    {
        self.control = Control::Halted(r);
        self.stack.clear();
        self.depth = 0;
        assert(self.stack@ =~= Seq::empty());
    }

    fn fail(&mut self, e: EvalError)
        requires
            old(self).tidy(),
        ensures
            final(self).tidy(),
            final(self)@ == old(self)@.fail(e),
            final(self).step_limit() == old(self).step_limit(),
    {
        self.halt(Err(e));
    }

    fn deliver(&mut self, v: Value)
        requires
            old(self).tidy(),
        ensures
            final(self).tidy(),
            final(self)@ == old(self)@.deliver(v),
            final(self).step_limit() == old(self).step_limit(),
    {
        self.control = Control::Deliver(v);
    }

    fn finish(&mut self, r: Result<Value, EvalError>)
        requires
            old(self).tidy(),
        ensures
            final(self).tidy(),
            final(self)@ == old(self)@.finish(r),
            final(self).step_limit() == old(self).step_limit(),
    {
        match r {
            Ok(v) => self.deliver(v),
            Err(e) => self.fail(e),
        }
    }

    fn eval_next(&mut self, expr: &'a Expression, env: usize)
        requires
            old(self).tidy(),
        ensures
            final(self).tidy(),
            final(self)@ == old(self)@.eval(expr, env),
            final(self).step_limit() == old(self).step_limit(),
    {
        self.control = Control::Eval { expr, env };
    }

    /// Puts a frame on the stack.
    fn push(&mut self, f: Frame<'a>)
        requires
            old(self).tidy(),
        ensures
            final(self).tidy(),
            final(self)@ == old(self)@.push(f),
            final(self).step_limit() == old(self).step_limit(),
    {
        proof {
            lemma_boundaries_push(self.stack@, f);
        }
        self.stack.push(f);
        if matches!(f, Frame::Return | Frame::Resumed) {
            proof {
                lemma_boundaries_bound(self.stack@);
                assert(self.stack@.len() == self.stack.len());
            }
            self.depth = self.depth + 1;
        }
    }

    /// Takes the top frame off the stack.
    fn pop(&mut self) -> (f: Frame<'a>)
        requires
            old(self).tidy(),
            old(self)@.stack.len() > 0,
        ensures
            final(self).tidy(),
            final(self)@ == old(self)@.with_stack(old(self)@.stack.drop_last()),
            f == old(self)@.stack.last(),
            final(self).step_limit() == old(self).step_limit(),
    {
        let f = self.stack.pop().unwrap();
        assert(self.stack@ =~= old(self).stack@.drop_last());
        if matches!(f, Frame::Return | Frame::Resumed) {
            self.depth = self.depth - 1;
        }
        f
    }

    /// Takes frames off the stack until `len` are left.
    fn cut(&mut self, len: usize)
        requires
            old(self).tidy(),
            len <= old(self)@.stack.len(),
        ensures
            final(self).tidy(),
            final(self)@ == old(self)@.with_stack(old(self)@.stack.take(len as int)),
            final(self).step_limit() == old(self).step_limit(),
    {
        let ghost before = self.stack@;
        assert(before.take(before.len() as int) =~= before);
        while self.stack.len() > len
            invariant
                len <= self.stack@.len() <= before.len(),
                self.stack@ == before.take(self.stack@.len() as int),
                self.depth == boundaries(self.stack@),
                self.control == old(self).control,
                self.links == old(self).links,
                self.bindings == old(self).bindings,
                self.objects == old(self).objects,
                self.lists == old(self).lists,
                self.closures == old(self).closures,
                self.conts == old(self).conts,
                self.effects == old(self).effects,
                self.next_symbol == old(self).next_symbol,
                self.step_limit == old(self).step_limit,
            decreases self.stack@.len(),
        {
            let ghost cur = self.stack@;
            let f = self.stack.pop().unwrap();
            assert(self.stack@ =~= before.take(self.stack@.len() as int));
            assert(self.stack@ =~= cur.drop_last());
            if matches!(f, Frame::Return | Frame::Resumed) {
                self.depth = self.depth - 1;
            }
        }
    }

    // ---- scopes -----------------------------------------------------------

    fn parent_of(&self, env: usize) -> (res: Option<usize>)
        ensures
            res == self@.parent_of(env),
            res matches Some(p) ==> p < env,
    {
        if env < self.links.len() {
            match self.links[env].parent {
                Some(p) => if p < env {
                    Some(p)
                } else {
                    None
                },
                None => None,
            }
        } else {
            None
        }
    }

    fn find_in(&self, env: usize, name: &String) -> (res: Option<usize>)
        requires
            self.tidy(),
        ensures
            res matches Some(i) ==> self@.find_in(env, name@) == Some(i as int) && env
                < self@.scopes.len() && i < self@.scopes[env as int].bindings.len(),
            res is None ==> self@.find_in(env, name@) is None,
    {
        if env < self.links.len() {
            find_key(&self.bindings[env], name)
        } else {
            None
        }
    }

    fn locate(&self, env: usize, name: &String) -> (res: Option<(usize, usize)>)
        requires
            self.tidy(),
        ensures
            res == self@.resolve(env, name@),
            res matches Some((scope, slot)) ==> scope < self@.scopes.len() && slot
                < self@.scopes[scope as int].bindings.len(),
    {
        let mut cur = env;
        loop
            invariant
                self.tidy(),
                self@.resolve(env, name@) == self@.resolve(cur, name@),
            decreases cur,
        {
            match self.find_in(cur, name) {
                Some(i) => {
                    return Some((cur, i));
                },
                None => match self.parent_of(cur) {
                    Some(p) => {
                        cur = p;
                    },
                    None => {
                        return None;
                    },
                },
            }
        }
    }

    fn value_of(&self, env: usize, name: &String) -> (res: Option<Value>)
        requires
            self.tidy(),
        ensures
            res == self@.lookup(env, name@),
    {
        match self.locate(env, name) {
            Some((scope, slot)) => Some(self.bindings[scope][slot].1),
            None => None,
        }
    }

    /// The scope and slot of the innermost binding of `name` that is visible
    /// from scope `env`.
    pub fn resolve(&self, env: usize, name: &String) -> (res: Option<(usize, usize)>)
        requires
            self.wf(),
        ensures
            res == self@.resolve(env, name@),
    {
        self.locate(env, name)
    }

    /// The value of `name` as seen from scope `env`: that of its innermost
    /// binding, none where it has no binding.
    pub fn lookup(&self, env: usize, name: &String) -> (res: Option<Value>)
        requires
            self.wf(),
        ensures
            res == self@.lookup(env, name@),
    {
        self.value_of(env, name)
    }

    fn bind_name(&mut self, env: usize, name: &'a String, v: Value)
        requires
            old(self).tidy(),
        ensures
            final(self).tidy(),
            final(self)@ == old(self)@.declare(env, name, v),
            final(self).step_limit() == old(self).step_limit(),
    {
        if env < self.links.len() {
            put_in(&mut self.bindings, env, name, v);
            assert(self@.scopes =~= old(self)@.declare(env, name, v).scopes);
        }
    }

    /// Binds `name` to `v` in scope `env` itself, in place of any binding of
    /// that name there. Nothing changes where there is no scope `env`.
    pub fn declare(&mut self, env: usize, name: &'a String, v: Value)
        requires
            old(self).wf(),
            old(self)@.good_value(v),
        ensures
            final(self).wf(),
            final(self)@ == old(self)@.declare(env, name, v),
            final(self).step_limit() == old(self).step_limit(),
    {
        self.bind_name(env, name, v);
        proof {
            self.lemma_view_fits();
            lemma_sound_declare(old(self)@, env, name, v);
        }
    }

    /// Gives the innermost binding of `name` that is visible from scope `env`
    /// the value `v`. Where there is no such binding nothing changes and the
    /// name is reported as undefined: assignment never makes a binding.
    pub fn assign(&mut self, env: usize, name: &String, v: Value) -> (res: Result<(), EvalError>)
        requires
            old(self).wf(),
            old(self)@.good_value(v),
        ensures
            final(self).wf(),
            final(self).step_limit() == old(self).step_limit(),
            match old(self)@.assign(env, name@, v) {
                Ok(t) => res is Ok && final(self)@ == t,
                Err(e) => res == Err::<(), EvalError>(e) && final(self)@ == old(self)@,
            },
    {
        match self.locate(env, name) {
            Some((scope, slot)) => {
                self.store_slot(scope, slot, v);
                proof {
                    lemma_sound_store_slot(old(self)@, scope, slot, v);
                }
                Ok(())
            },
            None => Err(EvalError::UndefinedVariable),
        }
    }

    fn add_scope(
        &mut self,
        table: Vec<(&'a String, Value)>,
        parent: Option<usize>,
        resume: Option<usize>,
    ) -> (handle: usize)
        requires
            old(self).tidy(),
        ensures
            final(self).tidy(),
            final(self)@ == old(self)@.add_scope(table@, parent, resume),
            handle == old(self)@.scopes.len(),
            final(self).step_limit() == old(self).step_limit(),
    {
        let handle = self.links.len();
        push_row(&mut self.bindings, table);
        self.links.push(Link { parent, resume });
        assert(self@.scopes =~= old(self)@.add_scope(table@, parent, resume).scopes);
        handle
    }

    fn resume_of(&self, env: usize) -> (res: Option<usize>)
        ensures
            res == self@.resume_of(env),
            res matches Some(k) ==> k < self@.conts.len(),
    {
        if env < self.links.len() {
            match self.links[env].resume {
                Some(k) => if k < self.conts.len() {
                    Some(k)
                } else {
                    None
                },
                None => None,
            }
        } else {
            None
        }
    }

    fn continuation(&self, env: usize) -> (res: Option<usize>)
        ensures
            res == self@.continuation(env),
            res matches Some(k) ==> k < self@.conts.len(),
    {
        let mut cur = env;
        loop
            invariant
                self@.continuation(env) == self@.continuation(cur),
            decreases cur,
        {
            match self.resume_of(cur) {
                Some(k) => {
                    return Some(k);
                },
                None => match self.parent_of(cur) {
                    Some(p) => {
                        cur = p;
                    },
                    None => {
                        return None;
                    },
                },
            }
        }
    }

    // ---- the store ----------------------------------------------------------

    fn closure_of(&self, v: Value) -> (res: Option<Closure<'a>>)
        ensures
            res == self@.closure_of(v),
    {
        match v {
            Value::Closure(h) => if h < self.closures.len() {
                Some(self.closures[h])
            } else {
                None
            },
            _ => None,
        }
    }

    fn object_of(&self, v: Value) -> (res: Option<usize>)
        ensures
            res == self@.object_of(v),
            res matches Some(h) ==> h < self@.objects.len(),
    {
        match v {
            Value::Object(h) => if h < self.objects.len() {
                Some(h)
            } else {
                None
            },
            _ => None,
        }
    }

    fn member(&self, v: Value, key: &String) -> (res: Result<Value, EvalError>)
        ensures
            res == self@.member(v, key@),
    {
        match self.object_of(v) {
            Some(h) => match find_key(&self.objects[h], key) {
                Some(i) => Ok(self.objects[h][i].1),
                None => Err(EvalError::UndefinedVariable),
            },
            None => Err(EvalError::TypeMismatch),
        }
    }

    fn place(&self, base: Value, index: Value) -> (res: Result<(usize, usize), EvalError>)
        ensures
            res == self@.place(base, index),
            res matches Ok((h, j)) ==> h < self@.lists.len() && j < self@.lists[h as int].len(),
    {
        match (base, index) {
            (Value::List(h), Value::Int(i)) => if h < self.lists.len() {
                match normalize_index(self.lists[h].len(), i) {
                    Some(j) => Ok((h, j)),
                    None => Err(EvalError::IndexOutOfRange),
                }
            } else {
                Err(EvalError::TypeMismatch)
            },
            _ => Err(EvalError::TypeMismatch),
        }
    }

    fn element(&self, base: Value, index: Value) -> (res: Result<Value, EvalError>)
        ensures
            res == self@.element(base, index),
    {
        match self.place(base, index) {
            Ok((h, j)) => Ok(self.lists[h][j]),
            Err(e) => Err(e),
        }
    }

    /// Whether `l` and `r` are equal, looking at most `fuel` containers deep.
    #[verifier::loop_isolation(false)]
    pub fn equal(&self, l: Value, r: Value, fuel: usize) -> (res: Result<bool, EvalError>)
        ensures
            res == self@.equal(l, r, fuel as nat),
        decreases fuel,
    {
        match (l, r) {
            (Value::Null, Value::Null) => Ok(true),
            (Value::Bool(a), Value::Bool(b)) => Ok(a == b),
            (Value::Int(a), Value::Int(b)) => Ok(a == b),
            (Value::Symbol(a), Value::Symbol(b)) => Ok(a == b),
            (Value::Closure(a), Value::Closure(b)) => Ok(a == b),
            (Value::Effect(a), Value::Effect(b)) => {
                if a == b {
                    Ok(true)
                } else if a >= self.effects.len() || b >= self.effects.len() {
                    Err(EvalError::TypeMismatch)
                } else if *self.effects[a].symbol != *self.effects[b].symbol {
                    Ok(false)
                } else if fuel == 0 {
                    Err(EvalError::RecursionLimitExceeded)
                } else {
                    self.equal(self.effects[a].value, self.effects[b].value, fuel - 1)
                }
            },
            (Value::List(a), Value::List(b)) => {
                if a == b {
                    Ok(true)
                } else if a >= self.lists.len() || b >= self.lists.len() {
                    Err(EvalError::TypeMismatch)
                } else if self.lists[a].len() != self.lists[b].len() {
                    Ok(false)
                } else if fuel == 0 {
                    Err(EvalError::RecursionLimitExceeded)
                } else {
                    let xs = &self.lists[a];
                    let ys = &self.lists[b];
                    let mut i: usize = 0;
                    while i < xs.len()
                        invariant
                            fuel > 0,
                            i <= xs@.len(),
                            xs@.len() == ys@.len(),
                            self@.equal_items(xs@, ys@, i as nat, (fuel - 1) as nat)
                                == self@.equal_items(xs@, ys@, 0, (fuel - 1) as nat),
                        decreases xs@.len() - i,
                    {
                        match self.equal(xs[i], ys[i], fuel - 1) {
                            Ok(true) => {},
                            other => {
                                return other;
                            },
                        }
                        i += 1;
                    }
                    Ok(true)
                }
            },
            (Value::Object(a), Value::Object(b)) => {
                if a == b {
                    Ok(true)
                } else if a >= self.objects.len() || b >= self.objects.len() {
                    Err(EvalError::TypeMismatch)
                } else if self.objects[a].len() != self.objects[b].len() {
                    Ok(false)
                } else if fuel == 0 {
                    Err(EvalError::RecursionLimitExceeded)
                } else {
                    let xs = &self.objects[a];
                    let ys = &self.objects[b];
                    let mut i: usize = 0;
                    while i < xs.len()
                        invariant
                            fuel > 0,
                            i <= xs@.len(),
                            self@.equal_fields(xs@, ys@, i as nat, (fuel - 1) as nat)
                                == self@.equal_fields(xs@, ys@, 0, (fuel - 1) as nat),
                        decreases xs@.len() - i,
                    {
                        match find_key(ys, xs[i].0) {
                            None => {
                                return Ok(false);
                            },
                            Some(j) => match self.equal(xs[i].1, ys[j].1, fuel - 1) {
                                Ok(true) => {},
                                other => {
                                    return other;
                                },
                            },
                        }
                        i += 1;
                    }
                    Ok(true)
                }
            },
            _ => Err(EvalError::TypeMismatch),
        }
    }

    /// The result of comparison `op` on `l` and `r`.
    pub fn compare(&self, op: ComparisonOperator, l: Value, r: Value) -> (res: Result<
        Value,
        EvalError,
    >)
        ensures
            res == self@.compare(op, l, r),
    {
        match op {
            ComparisonOperator::Equal => match self.equal(l, r, EQUALITY_DEPTH) {
                Ok(b) => Ok(Value::Bool(b)),
                Err(e) => Err(e),
            },
            ComparisonOperator::NotEqual => match self.equal(l, r, EQUALITY_DEPTH) {
                Ok(b) => Ok(Value::Bool(!b)),
                Err(e) => Err(e),
            },
            _ => order(op, l, r),
        }
    }

    fn binary(&self, op: BinaryOp, l: Value, r: Value) -> (res: Result<Value, EvalError>)
        ensures
            res == self@.binary(op, l, r),
    {
        match op {
            BinaryOp::Boolean(o) => boolean(o, l, r),
            BinaryOp::Numeric(o) => numeric(o, l, r),
            BinaryOp::Comparison(o) => self.compare(o, l, r),
        }
    }

    // ---- control ----------------------------------------------------------

    /// Takes the top `n` frames off the stack and returns the values that
    /// they hold, the lowest first.
    fn take_top(&mut self, n: usize) -> (values: Vec<Value>)
        requires
            old(self).tidy(),
        ensures
            final(self).tidy(),
            final(self)@ == old(self)@.with_stack(below_top(old(self)@.stack, n as nat)),
            values@ == top_values(old(self)@.stack, n as nat),
            final(self).step_limit() == old(self).step_limit(),
    {
        let len = self.stack.len();
        let m = if n <= len {
            n
        } else {
            len
        };
        let start = len - m;
        let mut values: Vec<Value> = Vec::new();
        let mut i = start;
        while i < len
            invariant
                start <= i <= len,
                len == self.stack@.len(),
                values@.len() == i - start,
                forall|k: int| 0 <= k < i - start ==> values@[k] == held(self.stack@[start + k]),
            decreases len - i,
        {
            let v = match self.stack[i] {
                Frame::Held(v) => v,
                _ => Value::Null,
            };
            values.push(v);
            i += 1;
        }
        assert(values@ =~= top_values(self.stack@, n as nat));
        self.cut(start);
        values
    }

    fn bind(names: &'a Vec<String>, values: &Vec<Value>) -> (table: Vec<(&'a String, Value)>)
        requires
            values@.len() <= names@.len(),
        ensures
            table@ == bind_names(names, values@, values@.len()),
    {
        let mut table: Vec<(&'a String, Value)> = Vec::new();
        let mut i: usize = 0;
        while i < values.len()
            invariant
                i <= values@.len() <= names@.len(),
                table@ == bind_names(names, values@, i as nat),
            decreases values@.len() - i,
        {
            put_key(&mut table, &names[i], values[i]);
            i += 1;
        }
        table
    }

    fn bind_fields(node: &'a Object, values: &Vec<Value>) -> (table: Vec<(&'a String, Value)>)
        requires
            values@.len() <= node.pairs@.len(),
        ensures
            table@ == bind_pairs(&node.pairs, values@, values@.len()),
    {
        let mut table: Vec<(&'a String, Value)> = Vec::new();
        let mut i: usize = 0;
        while i < values.len()
            invariant
                i <= values@.len() <= node.pairs@.len(),
                table@ == bind_pairs(&node.pairs, values@, i as nat),
            decreases values@.len() - i,
        {
            put_key(&mut table, &node.pairs[i].0, values[i]);
            i += 1;
        }
        table
    }

    fn run(&mut self, block: &'a Block, idx: usize, env: usize)
        requires
            old(self).tidy(),
        ensures
            final(self).tidy(),
            final(self)@ == old(self)@.run(block, idx, env),
            final(self).step_limit() == old(self).step_limit(),
    {
        if idx < block.statements.len() {
            self.push(Frame::Block { block, next: idx + 1, env });
            match &*block.statements[idx] {
                Statement::Let(l) => {
                    self.push(Frame::Let { name: &l.ident, env });
                    self.eval_next(&*l.expr, env);
                },
                Statement::Assignment(a) => {
                    self.start_chain(&a.location, env, Some(a));
                },
                Statement::Expression(e) => {
                    self.eval_next(&*e.expr, env);
                },
            }
        } else {
            match &block.expression {
                Some(e) => self.eval_next(&**e, env),
                None => self.deliver(Value::Null),
            }
        }
    }

    fn enter(&mut self, block: &'a Block, env: usize)
        requires
            old(self).tidy(),
        ensures
            final(self).tidy(),
            final(self)@ == old(self)@.enter(block, env),
            final(self).step_limit() == old(self).step_limit(),
    {
        let scope = self.add_scope(Vec::new(), Some(env), None);
        self.run(block, 0, scope);
    }

    fn branch(&mut self, node: &'a IfExpression, idx: usize, env: usize)
        requires
            old(self).tidy(),
        ensures
            final(self).tidy(),
            final(self)@ == old(self)@.branch(node, idx, env),
            final(self).step_limit() == old(self).step_limit(),
    {
        if idx < node.ifs.len() {
            self.push(Frame::If { node, body: &*node.ifs[idx].body, next: idx + 1, env });
            self.eval_next(&*node.ifs[idx].cond, env);
        } else {
            match &node.else_body {
                Some(b) => self.enter(&**b, env),
                None => self.deliver(Value::Null),
            }
        }
    }

    fn find_loop(&self) -> (res: Option<usize>)
        ensures
            res matches Some(i) ==> last_loop(self@.stack) == Some(i as int) && i
                < self@.stack.len(),
            res is None ==> last_loop(self@.stack) is None,
    {
        let mut i = self.stack.len();
        assert(self.stack@.take(i as int) =~= self.stack@);
        while i > 0
            invariant
                i <= self.stack@.len(),
                last_loop(self.stack@) == last_loop(self.stack@.take(i as int)),
            decreases i,
        {
            assert(self.stack@.take(i as int).drop_last() =~= self.stack@.take(i - 1));
            if matches!(self.stack[i - 1], Frame::Loop { .. }) {
                return Some(i - 1);
            }
            i -= 1;
        }
        None
    }

    fn leave_loop(&mut self, v: Value)
        requires
            old(self).tidy(),
        ensures
            final(self).tidy(),
            final(self)@ == old(self)@.leave_loop(v),
            final(self).step_limit() == old(self).step_limit(),
    {
        match self.find_loop() {
            Some(i) => {
                self.cut(i);
                self.deliver(v);
            },
            None => self.fail(EvalError::NoEnclosingLoop),
        }
    }

    fn next_iteration(&mut self)
        requires
            old(self).tidy(),
        ensures
            final(self).tidy(),
            final(self)@ == old(self)@.next_iteration(),
            final(self).step_limit() == old(self).step_limit(),
    {
        match self.find_loop() {
            Some(i) => {
                proof {
                    assert(self.stack@.len() == self.stack.len());
                }
                self.cut(i + 1);
                self.deliver(Value::Null);
            },
            None => self.fail(EvalError::NoEnclosingLoop),
        }
    }

    fn arguments(&mut self, call: &'a FunctionInvocation, idx: usize, env: usize)
        requires
            old(self).tidy(),
        ensures
            final(self).tidy(),
            final(self)@ == old(self)@.arguments(call, idx, env),
            final(self).step_limit() == old(self).step_limit(),
    {
        if idx < call.parameters.len() {
            self.push(Frame::Arg { call, next: idx + 1, env });
            self.eval_next(&*call.parameters[idx], env);
        } else {
            self.apply(call.parameters.len());
        }
    }

    fn apply(&mut self, n: usize)
        requires
            old(self).tidy(),
        ensures
            final(self).tidy(),
            final(self)@ == old(self)@.apply(n as nat),
            final(self).step_limit() == old(self).step_limit(),
    {
        let args = self.take_top(n);
        let len = self.stack.len();
        if len == 0 {
            self.fail(EvalError::TypeMismatch);
            return ;
        }
        let callee = match self.stack[len - 1] {
            Frame::Held(v) => v,
            _ => Value::Null,
        };
        match self.closure_of(callee) {
            None => self.fail(EvalError::TypeMismatch),
            Some(c) => {
                if c.function.parameters.len() != args.len() {
                    self.fail(EvalError::ArityMismatch);
                } else {
                    let ghost rest = self.stack@;
                    self.cut(len - 1);
                    assert(self.stack@ =~= rest.drop_last());
                    if self.depth >= RECURSION_LIMIT {
                        self.fail(EvalError::RecursionLimitExceeded);
                    } else {
                        self.push(Frame::Return);
                        let table = Self::bind(&c.function.parameters, &args);
                        let scope = self.add_scope(table, Some(c.env), None);
                        self.run(&*c.function.body, 0, scope);
                    }
                }
            },
        }
    }

    fn pairs(&mut self, node: &'a Object, idx: usize, env: usize)
        requires
            old(self).tidy(),
        ensures
            final(self).tidy(),
            final(self)@ == old(self)@.pairs(node, idx, env),
            final(self).step_limit() == old(self).step_limit(),
    {
        if idx < node.pairs.len() {
            self.push(Frame::Pair { node, next: idx + 1, env });
            self.eval_next(&*node.pairs[idx].1, env);
        } else {
            let values = self.take_top(node.pairs.len());
            let table = Self::bind_fields(node, &values);
            let handle = push_row(&mut self.objects, table);
            self.deliver(Value::Object(handle));
        }
    }

    fn elements(&mut self, node: &'a List, idx: usize, env: usize, count: usize)
        requires
            old(self).tidy(),
        ensures
            final(self).tidy(),
            final(self)@ == old(self)@.elements(node, idx, env, count),
            final(self).step_limit() == old(self).step_limit(),
    {
        if idx < node.elements.len() {
            match &node.elements[idx] {
                ListElem::Elem(e) => {
                    self.push(Frame::Elem { node, next: idx + 1, env, count, spread: false });
                    self.eval_next(&**e, env);
                },
                ListElem::Spread(e) => {
                    self.push(Frame::Elem { node, next: idx + 1, env, count, spread: true });
                    self.eval_next(&**e, env);
                },
            }
        } else {
            let values = self.take_top(count);
            let handle = push_row(&mut self.lists, values);
            self.deliver(Value::List(handle));
        }
    }

    /// Puts every element of list `handle` on the stack, each in a frame that
    /// holds it.
    fn hold_list(&mut self, handle: usize)
        requires
            old(self).tidy(),
            handle < old(self)@.lists.len(),
        ensures
            final(self).tidy(),
            final(self)@ == old(self)@.with_stack(
                old(self)@.stack + hold_all(old(self)@.lists[handle as int]),
            ),
            final(self).step_limit() == old(self).step_limit(),
    {
        let ghost base = self.stack@;
        let ghost items = self@.lists[handle as int];
        let n = self.lists[handle].len();
        let mut i: usize = 0;
        assert(self@.stack =~= base + hold_all::<'a>(items).take(0));
        while i < n
            invariant
                i <= n,
                n == items.len(),
                handle < old(self)@.lists.len(),
                items == old(self)@.lists[handle as int],
                base == old(self)@.stack,
                self.tidy(),
                self@ == old(self)@.with_stack(base + hold_all::<'a>(items).take(i as int)),
                self.step_limit() == old(self).step_limit(),
            decreases n - i,
        {
            let v = self.lists[handle][i];
            self.push(Frame::Held(v));
            assert(self@.stack =~= base + hold_all::<'a>(items).take(i + 1));
            i += 1;
        }
        assert(hold_all::<'a>(items).take(n as int) =~= hold_all::<'a>(items));
    }

    fn gather(
        &mut self,
        node: &'a List,
        next: usize,
        env: usize,
        count: usize,
        spread: bool,
        v: Value,
    )
        requires
            old(self).tidy(),
        ensures
            final(self).tidy(),
            final(self)@ == old(self)@.gather(node, next, env, count, spread, v),
            final(self).step_limit() == old(self).step_limit(),
    {
        if !spread {
            if count == usize::MAX {
                self.fail(EvalError::IntegerOverflow);
            } else {
                self.push(Frame::Held(v));
                self.elements(node, next, env, count + 1);
            }
        } else {
            match v {
                Value::List(h) => {
                    if h < self.lists.len() {
                        let n = self.lists[h].len();
                        if n > usize::MAX - count {
                            self.fail(EvalError::IntegerOverflow);
                        } else {
                            self.hold_list(h);
                            self.elements(node, next, env, count + n);
                        }
                    } else {
                        self.fail(EvalError::TypeMismatch);
                    }
                },
                _ => self.fail(EvalError::TypeMismatch),
            }
        }
    }

    fn start_chain(
        &mut self,
        chain: &'a LocationChain,
        env: usize,
        assign: Option<&'a Assignment>,
    )
        requires
            old(self).tidy(),
        ensures
            final(self).tidy(),
            final(self)@ == old(self)@.start_chain(chain, env, assign),
            final(self).step_limit() == old(self).step_limit(),
    {
        match &chain.base {
            LocationChainBase::Ident(name) => {
                match assign {
                    Some(a) if chain.parts.len() == 0 => {
                        match self.locate(env, name) {
                            Some((scope, slot)) => {
                                self.push(Frame::StoreSlot { scope, slot });
                                self.eval_next(&*a.expr, env);
                            },
                            None => self.fail(EvalError::UndefinedVariable),
                        }
                    },
                    _ => {
                        match self.value_of(env, name) {
                            Some(v) => self.walk(chain, 0, env, assign, v),
                            None => self.fail(EvalError::UndefinedVariable),
                        }
                    },
                }
            },
            LocationChainBase::Expression(e) => {
                if assign.is_some() && chain.parts.len() == 0 {
                    self.fail(EvalError::TypeMismatch);
                } else {
                    self.push(Frame::Chain { chain, next: 0, env, assign });
                    self.eval_next(&**e, env);
                }
            },
        }
    }

    fn walk(
        &mut self,
        chain: &'a LocationChain,
        idx: usize,
        env: usize,
        assign: Option<&'a Assignment>,
        cur: Value,
    )
        requires
            old(self).tidy(),
        ensures
            final(self).tidy(),
            final(self)@ == old(self)@.walk(chain, idx, env, assign, cur),
            final(self).step_limit() == old(self).step_limit(),
    {
        if idx >= chain.parts.len() {
            self.deliver(cur);
        } else {
            let next = idx + 1;
            match &*chain.parts[idx] {
                Location::Dot(d) => {
                    match assign {
                        Some(a) if next == chain.parts.len() => {
                            match self.object_of(cur) {
                                Some(object) => {
                                    self.push(Frame::StoreField { object, key: &d.prop });
                                    self.eval_next(&*a.expr, env);
                                },
                                None => self.fail(EvalError::TypeMismatch),
                            }
                        },
                        _ => {
                            match self.member(cur, &d.prop) {
                                Ok(m) => {
                                    self.push(Frame::Chain { chain, next, env, assign });
                                    self.deliver(m);
                                },
                                Err(e) => self.fail(e),
                            }
                        },
                    }
                },
                Location::Index(ix) => {
                    self.push(Frame::ChainIndex { chain, next, env, assign, base: cur });
                    self.eval_next(&*ix.index, env);
                },
            }
        }
    }

    fn walk_index(
        &mut self,
        chain: &'a LocationChain,
        next: usize,
        env: usize,
        assign: Option<&'a Assignment>,
        base: Value,
        v: Value,
    )
        requires
            old(self).tidy(),
        ensures
            final(self).tidy(),
            final(self)@ == old(self)@.walk_index(chain, next, env, assign, base, v),
            final(self).step_limit() == old(self).step_limit(),
    {
        match assign {
            Some(a) if next == chain.parts.len() => {
                match self.place(base, v) {
                    Ok((list, index)) => {
                        self.push(Frame::StoreElement { list, index });
                        self.eval_next(&*a.expr, env);
                    },
                    Err(e) => self.fail(e),
                }
            },
            _ => {
                match self.element(base, v) {
                    Ok(m) => {
                        self.push(Frame::Chain { chain, next, env, assign });
                        self.deliver(m);
                    },
                    Err(e) => self.fail(e),
                }
            },
        }
    }

    fn store_slot(&mut self, scope: usize, slot: usize, v: Value)
        requires
            old(self).tidy(),
        ensures
            final(self).tidy(),
            final(self)@ == old(self)@.store_slot(scope, slot, v),
            final(self).step_limit() == old(self).step_limit(),
    {
        if scope < self.links.len() && slot < self.bindings[scope].len() {
            let name = self.bindings[scope][slot].0;
            set_cell(&mut self.bindings, scope, slot, (name, v));
            assert(self@.scopes =~= old(self)@.store_slot(scope, slot, v).scopes);
        }
    }

    fn store_field(&mut self, object: usize, key: &'a String, v: Value)
        requires
            old(self).tidy(),
        ensures
            final(self).tidy(),
            final(self)@ == old(self)@.store_field(object, key, v),
            final(self).step_limit() == old(self).step_limit(),
    {
        if object < self.objects.len() {
            put_in(&mut self.objects, object, key, v);
        }
    }

    fn store_element(&mut self, list: usize, index: usize, v: Value)
        requires
            old(self).tidy(),
        ensures
            final(self).tidy(),
            final(self)@ == old(self)@.store_element(list, index, v),
            final(self).step_limit() == old(self).step_limit(),
    {
        if list < self.lists.len() && index < self.lists[list].len() {
            set_cell(&mut self.lists, list, index, v);
        }
    }

    fn mint_next(&mut self)
        requires
            old(self).tidy(),
        ensures
            final(self).tidy(),
            final(self)@ == old(self)@.mint(),
            final(self).step_limit() == old(self).step_limit(),
    {
        if self.next_symbol == u64::MAX {
            self.fail(EvalError::IntegerOverflow);
        } else {
            let id = self.next_symbol;
            self.next_symbol = id + 1;
            self.deliver(Value::Symbol(id));
        }
    }

    // ---- effects ----------------------------------------------------------

    fn find_arm_in(node: &'a Handle, tag: &String) -> (res: Option<usize>)
        ensures
            res matches Some(a) ==> find_arm(node.match_arms@, tag@, 0) == Some(a as int) && a
                < node.match_arms@.len(),
            res is None ==> find_arm(node.match_arms@, tag@, 0) is None,
    {
        let mut i: usize = 0;
        while i < node.match_arms.len()
            invariant
                i <= node.match_arms@.len(),
                find_arm(node.match_arms@, tag@, 0) == find_arm(node.match_arms@, tag@, i as int),
            decreases node.match_arms@.len() - i,
        {
            if node.match_arms[i].symbol == *tag {
                return Some(i);
            }
            i += 1;
        }
        None
    }

    /// The topmost handler with an arm for `tag`: the position of its frame,
    /// the arm, and the scope of the handle expression.
    fn find_handler(&self, tag: &String) -> (res: Option<(usize, &'a HandleMatch, usize)>)
        ensures
            res matches Some((h, arm, env)) ==> h < self@.stack.len() && (find_handler(
                self@.stack,
                tag@,
            ) matches Some((hh, a)) && hh == h && (self@.stack[h as int] matches Frame::Handle {
                node,
                env: e,
            } && e == env && 0 <= a < node.match_arms@.len() && *arm == node.match_arms@[a])),
            res is None ==> find_handler(self@.stack, tag@) is None,
    {
        let mut i = self.stack.len();
        assert(self.stack@.take(i as int) =~= self.stack@);
        while i > 0
            invariant
                i <= self.stack@.len(),
                find_handler(self.stack@, tag@) == find_handler(self.stack@.take(i as int), tag@),
            decreases i,
        {
            assert(self.stack@.take(i as int).drop_last() =~= self.stack@.take(i - 1));
            match self.stack[i - 1] {
                Frame::Handle { node, env } => {
                    match Self::find_arm_in(node, tag) {
                        Some(a) => {
                            return Some((i - 1, &node.match_arms[a], env));
                        },
                        None => {},
                    }
                },
                _ => {},
            }
            i -= 1;
        }
        None
    }

    /// A copy of the stack from position `from` up.
    fn copy_from(&self, from: usize) -> (piece: Vec<Frame<'a>>)
        requires
            from <= self@.stack.len(),
        ensures
            piece@ == self@.stack.skip(from as int),
    {
        let mut piece: Vec<Frame<'a>> = Vec::new();
        let mut i = from;
        while i < self.stack.len()
            invariant
                from <= i <= self.stack@.len(),
                piece@.len() == i - from,
                forall|k: int| 0 <= k < i - from ==> piece@[k] == self.stack@[from + k],
            decreases self.stack@.len() - i,
        {
            piece.push(self.stack[i]);
            i += 1;
        }
        assert(piece@ =~= self.stack@.skip(from as int));
        piece
    }

    fn perform(&mut self, tag: &'a String, payload: Value)
        requires
            old(self).tidy(),
        ensures
            final(self).tidy(),
            final(self)@ == old(self)@.perform(tag, payload),
            final(self).step_limit() == old(self).step_limit(),
    {
        match self.find_handler(tag) {
            None => {
                let k = self.effects.len();
                self.effects.push(Effect { symbol: tag, value: payload });
                self.deliver(Value::Effect(k));
            },
            Some((h, arm, env)) => {
                let piece = self.copy_from(h);
                let k = push_row(&mut self.conts, piece);
                self.cut(h);
                let mut table: Vec<(&'a String, Value)> = Vec::new();
                table.push((&arm.param, payload));
                assert(table@ =~= seq![(&arm.param, payload)]);
                let scope = self.add_scope(table, Some(env), Some(k));
                self.run(&*arm.block, 0, scope);
            },
        }
    }

    fn count_boundaries(frames: &Vec<Frame<'a>>) -> (n: usize)
        ensures
            n == boundaries(frames@),
    {
        let mut n: usize = 0;
        let mut i: usize = 0;
        assert(frames@.take(0) =~= Seq::empty());
        while i < frames.len()
            invariant
                i <= frames@.len(),
                n <= i,
                n == boundaries(frames@.take(i as int)),
            decreases frames@.len() - i,
        {
            assert(frames@.take(i + 1).drop_last() =~= frames@.take(i as int));
            if matches!(frames[i], Frame::Return | Frame::Resumed) {
                n += 1;
            }
            i += 1;
        }
        assert(frames@.take(i as int) =~= frames@);
        n
    }

    /// Puts a copy of suspended computation `k` on the stack.
    fn put_back(&mut self, k: usize)
        requires
            old(self).tidy(),
            k < old(self)@.conts.len(),
        ensures
            final(self).tidy(),
            final(self)@ == old(self)@.with_stack(old(self)@.stack + old(self)@.conts[k as int]),
            final(self).step_limit() == old(self).step_limit(),
    {
        let ghost base = self.stack@;
        let ghost piece = self@.conts[k as int];
        let n = self.conts[k].len();
        let mut i: usize = 0;
        assert(self@.stack =~= base + piece.take(0));
        while i < n
            invariant
                i <= n,
                n == piece.len(),
                k < old(self)@.conts.len(),
                piece == old(self)@.conts[k as int],
                base == old(self)@.stack,
                self.tidy(),
                self@ == old(self)@.with_stack(base + piece.take(i as int)),
                self.step_limit() == old(self).step_limit(),
            decreases n - i,
        {
            let f = self.conts[k][i];
            self.push(f);
            assert(self@.stack =~= base + piece.take(i + 1));
            i += 1;
        }
        assert(piece.take(n as int) =~= piece);
    }

    fn resume(&mut self, env: usize, v: Value)
        requires
            old(self).tidy(),
        ensures
            final(self).tidy(),
            final(self)@ == old(self)@.resume(env, v),
            final(self).step_limit() == old(self).step_limit(),
    {
        match self.continuation(env) {
            None => self.fail(EvalError::UndefinedVariable),
            Some(k) => {
                let extra = Self::count_boundaries(&self.conts[k]);
                if extra >= RECURSION_LIMIT || self.depth >= RECURSION_LIMIT - extra {
                    self.fail(EvalError::RecursionLimitExceeded);
                } else {
                    self.push(Frame::Resumed);
                    self.put_back(k);
                    self.deliver(v);
                }
            },
        }
    }

    // ---- steps ------------------------------------------------------------

    fn begin(&mut self, expr: &'a Expression, env: usize)
        requires
            old(self).tidy(),
        ensures
            final(self).tidy(),
            final(self)@ == old(self)@.begin(expr, env),
            final(self).step_limit() == old(self).step_limit(),
    {
        match expr {
            Expression::Null(_) => self.deliver(Value::Null),
            Expression::Bool(b) => self.deliver(Value::Bool(b.0)),
            Expression::Int(n) => self.deliver(Value::Int(n.0)),
            Expression::Negative(n) => {
                self.push(Frame::Negate);
                self.eval_next(&*n.expr, env);
            },
            Expression::Not(n) => {
                self.push(Frame::Not);
                self.eval_next(&*n.expr, env);
            },
            Expression::Boolean(b) => {
                self.push(Frame::Left { op: BinaryOp::Boolean(b.operator), right: &*b.right, env });
                self.eval_next(&*b.left, env);
            },
            Expression::Comparison(c) => {
                self.push(
                    Frame::Left { op: BinaryOp::Comparison(c.operator), right: &*c.right, env },
                );
                self.eval_next(&*c.left, env);
            },
            Expression::Numeric(n) => {
                self.push(Frame::Left { op: BinaryOp::Numeric(n.operator), right: &*n.right, env });
                self.eval_next(&*n.left, env);
            },
            Expression::Dot(d) => {
                self.push(Frame::Dot { prop: &d.prop });
                self.eval_next(&*d.base, env);
            },
            Expression::Index(ix) => {
                self.push(Frame::IndexBase { index: &*ix.index, env });
                self.eval_next(&*ix.base, env);
            },
            Expression::If(node) => self.branch(node, 0, env),
            Expression::Loop(l) => {
                self.push(Frame::Loop { body: &*l.body, env });
                self.enter(&*l.body, env);
            },
            Expression::Break(b) => match &b.expr {
                Some(e) => {
                    self.push(Frame::Break);
                    self.eval_next(&**e, env);
                },
                None => self.leave_loop(Value::Null),
            },
            Expression::NextIteration(n) => match &n.expr {
                Some(e) => {
                    self.push(Frame::Next);
                    self.eval_next(&**e, env);
                },
                None => self.next_iteration(),
            },
            Expression::Function(f) => {
                let handle = self.closures.len();
                self.closures.push(Closure { function: f, env });
                self.deliver(Value::Closure(handle));
            },
            Expression::Invocation(c) => {
                self.push(Frame::Callee { call: c, env });
                self.eval_next(&*c.base, env);
            },
            Expression::Block(b) => self.enter(b, env),
            Expression::Object(o) => self.pairs(o, 0, env),
            Expression::List(l) => self.elements(l, 0, env, 0),
            Expression::Location(chain) => self.start_chain(chain, env, None),
            Expression::Handle(h) => {
                self.push(Frame::Handle { node: h, env });
                self.eval_next(&*h.expr, env);
            },
            Expression::Send(s) => match &s.expr {
                Some(e) => {
                    self.push(Frame::Send { tag: &s.symbol });
                    self.eval_next(&**e, env);
                },
                None => self.perform(&s.symbol, Value::Null),
            },
            Expression::Continue(c) => match &c.expr {
                Some(e) => {
                    self.push(Frame::Resume { env });
                    self.eval_next(&**e, env);
                },
                None => self.resume(env, Value::Null),
            },
            Expression::Custom(c) => match c.operation() {
                Builtin::Symbol => self.mint_next(),
            },
        }
    }

    fn apply_frame(&mut self, f: Frame<'a>, v: Value)
        requires
            old(self).tidy(),
        ensures
            final(self).tidy(),
            final(self)@ == old(self)@.apply_frame(f, v),
            final(self).step_limit() == old(self).step_limit(),
    {
        match f {
            Frame::Held(_) => self.deliver(v),
            Frame::Negate => self.finish(negate(v)),
            Frame::Not => self.finish(not(v)),
            Frame::Left { op, right, env } => {
                self.push(Frame::Right { op, left: v });
                self.eval_next(right, env);
            },
            Frame::Right { op, left } => {
                let r = self.binary(op, left, v);
                self.finish(r);
            },
            Frame::Dot { prop } => {
                let r = self.member(v, prop);
                self.finish(r);
            },
            Frame::IndexBase { index, env } => {
                self.push(Frame::IndexAt { base: v });
                self.eval_next(index, env);
            },
            Frame::IndexAt { base } => {
                let r = self.element(base, v);
                self.finish(r);
            },
            Frame::If { node, body, next, env } => match v {
                Value::Bool(true) => self.enter(body, env),
                Value::Bool(false) => self.branch(node, next, env),
                _ => self.fail(EvalError::TypeMismatch),
            },
            Frame::Loop { body, env } => {
                self.push(Frame::Loop { body, env });
                self.enter(body, env);
            },
            Frame::Break => self.leave_loop(v),
            Frame::Next => self.next_iteration(),
            Frame::Callee { call, env } => match self.closure_of(v) {
                Some(_) => {
                    self.push(Frame::Held(v));
                    self.arguments(call, 0, env);
                },
                None => self.fail(EvalError::TypeMismatch),
            },
            Frame::Arg { call, next, env } => {
                self.push(Frame::Held(v));
                self.arguments(call, next, env);
            },
            Frame::Return => self.deliver(v),
            Frame::Block { block, next, env } => self.run(block, next, env),
            Frame::Let { name, env } => {
                self.bind_name(env, name, v);
                self.deliver(Value::Null);
            },
            Frame::Chain { chain, next, env, assign } => self.walk(chain, next, env, assign, v),
            Frame::ChainIndex { chain, next, env, assign, base } => self.walk_index(
                chain,
                next,
                env,
                assign,
                base,
                v,
            ),
            Frame::StoreSlot { scope, slot } => {
                self.store_slot(scope, slot, v);
                self.deliver(Value::Null);
            },
            Frame::StoreField { object, key } => {
                self.store_field(object, key, v);
                self.deliver(Value::Null);
            },
            Frame::StoreElement { list, index } => {
                self.store_element(list, index, v);
                self.deliver(Value::Null);
            },
            Frame::Pair { node, next, env } => {
                self.push(Frame::Held(v));
                self.pairs(node, next, env);
            },
            Frame::Elem { node, next, env, count, spread } => self.gather(
                node,
                next,
                env,
                count,
                spread,
                v,
            ),
            Frame::Handle { node, env } => self.deliver(v),
            Frame::Send { tag } => self.perform(tag, v),
            Frame::Resume { env } => self.resume(env, v),
            Frame::Resumed => self.deliver(v),
        }
    }

    /// Takes one step of evaluation.
    pub fn step(&mut self)
        requires
            old(self).wf(),
        ensures
            final(self).wf(),
            final(self)@ == old(self)@.step(),
            final(self).step_limit() == old(self).step_limit(),
    {
        match self.control {
            Control::Halted(_) => {},
            Control::Eval { expr, env } => self.begin(expr, env),
            Control::Deliver(v) => {
                if self.stack.len() == 0 {
                    self.halt(Ok(v));
                } else {
                    let f = self.pop();
                    self.apply_frame(f, v);
                }
            },
        }
        proof {
            self.lemma_view_fits();
            lemma_step_valid(old(self)@);
        }
    }

    /// Whether evaluation has ended.
    pub fn halted(&self) -> (res: bool)
        ensures
            res == self@.halted(),
    {
        matches!(self.control, Control::Halted(_))
    }

    /// The result, once evaluation has ended.
    pub fn outcome(&self) -> (res: Option<Result<Value, EvalError>>)
        ensures
            res == self@.outcome(),
    {
        match self.control {
            Control::Halted(r) => Some(r),
            _ => None,
        }
    }

    /// Takes at most `fuel` steps, fewer where evaluation ends before.
    pub fn run_for(&mut self, fuel: u64)
        requires
            old(self).wf(),
        ensures
            final(self).wf(),
            final(self)@ == old(self)@.run_for(fuel as nat),
            final(self).step_limit() == old(self).step_limit(),
    {
        let mut left = fuel;
        while left > 0 && !self.halted()
            invariant
                self.wf(),
                self@.run_for(left as nat) == old(self)@.run_for(fuel as nat),
                self.step_limit() == old(self).step_limit(),
            decreases left,
        {
            self.step();
            left -= 1;
        }
    }

    /// Makes the interpreter ready to evaluate `ast` in the global scope.
    /// What an earlier evaluation left in the store stays.
    pub fn load(&mut self, ast: &'a Block)
        requires
            old(self).wf(),
        ensures
            final(self).wf(),
            final(self)@ == old(self)@.load(ast),
            final(self).step_limit() == old(self).step_limit(),
    {
        self.cut(0);
        assert(self@.stack =~= Seq::empty());
        self.run(ast, 0, 0);
        proof {
            lemma_load_valid(old(self)@, ast);
        }
    }

    /// Evaluates `ast` in the global scope. The result is the value of the
    /// block, or the error that stopped evaluation, `StepLimitExceeded` where
    /// the step budget ran out first.
    pub fn eval(&mut self, ast: &'a Block) -> (res: Result<Value, EvalError>)
        requires
            old(self).wf(),
        ensures
            final(self).wf(),
            final(self)@ == old(self)@.evaluate(ast, old(self).step_limit() as nat),
            final(self)@.outcome() == Some(res),
            res matches Ok(v) ==> final(self)@.good_value(v),
            final(self).step_limit() == old(self).step_limit(),
    {
        self.load(ast);
        let limit = self.step_limit;
        self.run_for(limit);
        match self.control {
            Control::Halted(r) => r,
            _ => {
                proof {
                    lemma_sound_halt(self@, Err(EvalError::StepLimitExceeded));
                }
                self.fail(EvalError::StepLimitExceeded);
                Err(EvalError::StepLimitExceeded)
            },
        }
    }

    // ---- what the host may ask ----------------------------------------------

    /// Mints a symbol outside any evaluation: the current counter, which then
    /// goes up by one. Fails, and changes nothing, once the counter is at its
    /// largest value.
    pub fn mint(&mut self) -> (res: Result<Value, EvalError>)
        requires
            old(self).wf(),
        ensures
            final(self).wf(),
            final(self).step_limit() == old(self).step_limit(),
            old(self)@.next_symbol < u64::MAX ==> res == Ok::<Value, EvalError>(
                Value::Symbol(old(self)@.next_symbol),
            ) && final(self)@ == (State {
                next_symbol: (old(self)@.next_symbol + 1) as u64,
                ..old(self)@
            }),
            old(self)@.next_symbol == u64::MAX ==> res == Err::<Value, EvalError>(
                EvalError::IntegerOverflow,
            ) && final(self)@ == old(self)@,
    {
        if self.next_symbol == u64::MAX {
            Err(EvalError::IntegerOverflow)
        } else {
            let id = self.next_symbol;
            self.next_symbol = id + 1;
            proof {
                lemma_sound_with(old(self)@, self@);
            }
            Ok(Value::Symbol(id))
        }
    }

    /// The elements of `v`, where it is a list.
    pub fn list(&self, v: Value) -> (res: Option<&Vec<Value>>)
        ensures
            match self@.list_of(v) {
                Some(items) => res matches Some(found) && found@ == items,
                None => res is None,
            },
    {
        match v {
            Value::List(h) => if h < self.lists.len() {
                Some(&self.lists[h])
            } else {
                None
            },
            _ => None,
        }
    }

    /// The fields of `v`, where it is an object, in the order in which their
    /// keys first came.
    pub fn object(&self, v: Value) -> (res: Option<&Vec<(&'a String, Value)>>)
        ensures
            match self@.object_of(v) {
                Some(h) => res matches Some(found) && found@ == self@.objects[h as int],
                None => res is None,
            },
    {
        match v {
            Value::Object(h) => if h < self.objects.len() {
                Some(&self.objects[h])
            } else {
                None
            },
            _ => None,
        }
    }

    /// The field `key` of `v`: an undefined name where the object has no such
    /// field, a type mismatch where `v` is no object.
    pub fn field(&self, v: Value, key: &String) -> (res: Result<Value, EvalError>)
        ensures
            res == self@.member(v, key@),
    {
        self.member(v, key)
    }

    /// The function and captured scope of `v`, where it is a closure.
    pub fn closure(&self, v: Value) -> (res: Option<Closure<'a>>)
        ensures
            res == self@.closure_of(v),
    {
        self.closure_of(v)
    }

    /// The tag and payload of `v`, where it is an effect.
    pub fn effect(&self, v: Value) -> (res: Option<Effect<'a>>)
        ensures
            res == self@.effect_of(v),
    {
        match v {
            Value::Effect(h) => if h < self.effects.len() {
                Some(self.effects[h])
            } else {
                None
            },
            _ => None,
        }
    }

    /// The id that the next symbol gets.
    pub fn next_symbol(&self) -> (id: u64)
        ensures
            id == self@.next_symbol,
    {
        self.next_symbol
    }
}

} // verus!
