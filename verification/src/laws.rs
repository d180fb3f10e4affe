//! What holds of every evaluation, proved of the machine of `crate::machine`.

use crate::ast::{
    Assignment, Block, ComparisonOperator, Expression, FunctionInvocation, IfExpression, List,
    LocationChain, LocationChainBase, NumericOperator, Statement,
};
use crate::machine::{
    arm_in, below_top, bind_names, bind_pairs, boundaries, find, find_from, find_handler, held,
    hold_all, last_loop, lemma_find_arm, put, top_values, Control, Effect, Frame, State,
    RECURSION_LIMIT,
};
use crate::shape::{all_held, frame_fits, shaped};
use crate::sound::{lemma_continuation_good, lemma_find, lemma_resolve_good};
use crate::value::{same_kind, spec_normalize_index, spec_numeric, EvalError, Value};
use vstd::prelude::*;

verus! {

// ---- runs -------------------------------------------------------------------

/// A halted state stays as it is.
pub proof fn lemma_halted_stays(s: State, n: nat)
    requires
        s.halted(),
    ensures
        s.run_for(n) == s,
        s.step() == s,
{
}

/// Running one step longer is running, then taking one step.
pub proof fn lemma_run_one_more(s: State, n: nat)
    ensures
        s.run_for(n + 1) == s.run_for(n).step(),
    decreases n,
{
    if s.halted() {
        lemma_halted_stays(s, n);
        lemma_halted_stays(s, n + 1);
    } else if n == 0 {
        assert(s.run_for(1) == s.step().run_for(0));
    } else {
        lemma_run_one_more(s.step(), (n - 1) as nat);
    }
}

// ---- symbols ----------------------------------------------------------------

impl<'a> State<'a> {
    /// Whether the next step evaluates a symbol literal with success.
    pub open spec fn mints(self) -> bool {
        &&& self.control matches Control::Eval { expr, env }
        &&& *expr is Custom
        &&& self.next_symbol < u64::MAX
    }

    /// How many of the first `n` steps from here mint a symbol.
    pub open spec fn minted(self, n: nat) -> nat
        decreases n,
    {
        if n == 0 {
            0
        } else {
            self.minted((n - 1) as nat) + if self.run_for((n - 1) as nat).mints() {
                1nat
            } else {
                0nat
            }
        }
    }
}

impl<'a> State<'a> {
    /// Whether `t` has the symbol counter of this state.
    pub open spec fn same_counter(self, t: Self) -> bool {
        t.next_symbol == self.next_symbol
    }
}

proof fn lemma_counter_step_of_chain<'a>(
    s: State<'a>,
    chain: &'a LocationChain,
    idx: usize,
    env: usize,
    assign: Option<&'a Assignment>,
    cur: Value,
    v: Value,
)
    ensures
        s.same_counter(s.walk(chain, idx, env, assign, cur)),
        s.same_counter(s.walk_index(chain, idx, env, assign, cur, v)),
{
}

proof fn lemma_counter_walk<'a>(
    s: State<'a>,
    chain: &'a LocationChain,
    idx: usize,
    env: usize,
    assign: Option<&'a Assignment>,
    cur: Value,
    v: Value,
)
    ensures
        s.same_counter(s.walk(chain, idx, env, assign, cur)),
        s.same_counter(s.walk_index(chain, idx, env, assign, cur, v)),
        s.same_counter(s.start_chain(chain, env, assign)),
{
    lemma_counter_step_of_chain(s, chain, idx, env, assign, cur, v);
    match chain.base {
        LocationChainBase::Ident(name) => {
            if s.lookup(env, name@) is Some {
                lemma_counter_step_of_chain(
                    s,
                    chain,
                    0,
                    env,
                    assign,
                    s.lookup(env, name@)->0,
                    v,
                );
            }
        },
        _ => {},
    }
}

proof fn lemma_counter_run<'a>(s: State<'a>, block: &'a Block, idx: usize, env: usize)
    ensures
        s.same_counter(s.run(block, idx, env)),
        s.same_counter(s.enter(block, env)),
{
    if idx < block.statements@.len() {
        let s1 = s.push(Frame::Block { block, next: (idx + 1) as usize, env });
        match *block.statements@[idx as int] {
            Statement::Assignment(a) => {
                lemma_counter_walk(s1, &a.location, 0, env, Some(&a), Value::Null, Value::Null);
            },
            _ => {},
        }
    }
    let s2 = s.add_scope(Seq::empty(), Some(env), None);
    if 0 < block.statements@.len() {
        let s3 = s2.push(Frame::Block { block, next: 1, env: s.scopes.len() as usize });
        match *block.statements@[0] {
            Statement::Assignment(a) => {
                lemma_counter_walk(
                    s3,
                    &a.location,
                    0,
                    s.scopes.len() as usize,
                    Some(&a),
                    Value::Null,
                    Value::Null,
                );
            },
            _ => {},
        }
    }
}

proof fn lemma_counter_branch<'a>(s: State<'a>, node: &'a IfExpression, idx: usize, env: usize)
    ensures
        s.same_counter(s.branch(node, idx, env)),
{
    if idx >= node.ifs@.len() {
        match node.else_body {
            Some(b) => lemma_counter_run(s, &*b, 0, env),
            None => {},
        }
    }
}

proof fn lemma_counter_apply<'a>(
    s: State<'a>,
    call: &'a FunctionInvocation,
    idx: usize,
    env: usize,
    n: nat,
)
    ensures
        s.same_counter(s.apply(n)),
        s.same_counter(s.arguments(call, idx, env)),
{
    lemma_counter_apply_only(s, n);
    lemma_counter_apply_only(s, call.parameters@.len());
}

proof fn lemma_counter_apply_only<'a>(s: State<'a>, n: nat)
    ensures
        s.same_counter(s.apply(n)),
{
    let args = top_values(s.stack, n);
    let rest = below_top(s.stack, n);
    if rest.len() > 0 {
        match s.closure_of(held(rest.last())) {
            Some(c) => {
                let s1 = s.with_stack(rest.drop_last().push(Frame::Return)).add_scope(
                    bind_names(&c.function.parameters, args, args.len()),
                    Some(c.env),
                    None,
                );
                lemma_counter_run(s1, &*c.function.body, 0, s.scopes.len() as usize);
            },
            None => {},
        }
    }
}

proof fn lemma_counter_elements<'a>(
    s: State<'a>,
    node: &'a List,
    idx: usize,
    env: usize,
    count: usize,
    spread: bool,
    v: Value,
)
    ensures
        s.same_counter(s.elements(node, idx, env, count)),
        s.same_counter(s.gather(node, idx, env, count, spread, v)),
{
}

proof fn lemma_counter_perform<'a>(s: State<'a>, tag: &'a String, payload: Value)
    ensures
        s.same_counter(s.perform(tag, payload)),
{
    match find_handler(s.stack, tag@) {
        Some((h, a)) => {
            let arm = s.stack[h]->Handle_node.match_arms@[a];
            lemma_counter_run(
                s.suspend(h, &arm.param, payload),
                &*arm.block,
                0,
                s.scopes.len() as usize,
            );
        },
        None => {},
    }
}

proof fn lemma_counter_begin<'a>(s: State<'a>, expr: &'a Expression, env: usize)
    ensures
        !(*expr is Custom) ==> s.same_counter(s.begin(expr, env)),
{
    match *expr {
        Expression::If(node) => lemma_counter_branch(s, &node, 0, env),
        Expression::Loop(l) => lemma_counter_run(
            s.push(Frame::Loop { body: &*l.body, env }),
            &*l.body,
            0,
            env,
        ),
        Expression::Block(b) => lemma_counter_run(s, &b, 0, env),
        Expression::Object(o) => {},
        Expression::List(l) => lemma_counter_elements(s, &l, 0, env, 0, false, Value::Null),
        Expression::Location(chain) => lemma_counter_walk(
            s,
            &chain,
            0,
            env,
            None,
            Value::Null,
            Value::Null,
        ),
        Expression::Send(sd) => lemma_counter_perform(s, &sd.symbol, Value::Null),
        _ => {},
    }
}

proof fn lemma_counter_apply_frame<'a>(s: State<'a>, f: Frame<'a>, v: Value)
    ensures
        s.same_counter(s.apply_frame(f, v)),
{
    match f {
        Frame::If { node, body, next, env } => {
            lemma_counter_run(s, body, 0, env);
            lemma_counter_branch(s, node, next, env);
        },
        Frame::Loop { body, env } => lemma_counter_run(
            s.push(Frame::Loop { body, env }),
            body,
            0,
            env,
        ),
        Frame::Callee { call, env } => lemma_counter_apply(
            s.push(Frame::Held(v)),
            call,
            0,
            env,
            0,
        ),
        Frame::Arg { call, next, env } => lemma_counter_apply(
            s.push(Frame::Held(v)),
            call,
            next,
            env,
            0,
        ),
        Frame::Block { block, next, env } => lemma_counter_run(s, block, next, env),
        Frame::Chain { chain, next, env, assign } => lemma_counter_walk(
            s,
            chain,
            next,
            env,
            assign,
            v,
            v,
        ),
        Frame::ChainIndex { chain, next, env, assign, base } => lemma_counter_walk(
            s,
            chain,
            next,
            env,
            assign,
            base,
            v,
        ),
        Frame::Elem { node, next, env, count, spread } => lemma_counter_elements(
            s,
            node,
            next,
            env,
            count,
            spread,
            v,
        ),
        Frame::Send { tag } => lemma_counter_perform(s, tag, v),
        _ => {},
    }
}

/// A step that mints delivers the symbol whose id is the counter, and the
/// counter goes up by one; every other step leaves the counter alone.
pub proof fn lemma_step_counts_symbols(s: State)
    ensures
        s.mints() ==> s.step().control == Control::Deliver(Value::Symbol(s.next_symbol))
            && s.step().next_symbol == s.next_symbol + 1,
        !s.mints() ==> s.step().next_symbol == s.next_symbol,
{
    match s.control {
        Control::Eval { expr, env } => lemma_counter_begin(s, expr, env),
        Control::Deliver(v) => {
            if s.stack.len() > 0 {
                lemma_counter_apply_frame(s.with_stack(s.stack.drop_last()), s.stack.last(), v);
            }
        },
        _ => {},
    }
}

/// Symbols are numbered in the order in which they are minted: after `n`
/// steps the counter has gone up by the number of symbols minted in them, so
/// the symbol minted after `k` others has the id `k` above the counter at the
/// start, which is 0 in a fresh interpreter.
pub proof fn lemma_symbols_numbered(s: State, n: nat)
    ensures
        s.run_for(n).next_symbol == s.next_symbol + s.minted(n),
        s.run_for(n).mints() ==> s.run_for(n + 1).control == Control::Deliver(
            Value::Symbol((s.next_symbol + s.minted(n)) as u64),
        ),
    decreases n,
{
    if n > 0 {
        lemma_symbols_numbered(s, (n - 1) as nat);
        lemma_run_one_more(s, (n - 1) as nat);
        lemma_step_counts_symbols(s.run_for((n - 1) as nat));
    }
    lemma_run_one_more(s, n);
    lemma_step_counts_symbols(s.run_for(n));
}

/// The count of minted symbols never goes down.
pub proof fn lemma_minted_grows(s: State, i: nat, j: nat)
    requires
        i <= j,
    ensures
        s.minted(i) <= s.minted(j),
    decreases j,
{
    if i < j {
        lemma_minted_grows(s, i, (j - 1) as nat);
    }
}

/// Two symbols minted at different steps of one run differ: the later one
/// has the larger id.
pub proof fn lemma_symbols_distinct(s: State, i: nat, j: nat)
    requires
        i < j,
        s.run_for(i).mints(),
        s.run_for(j).mints(),
    ensures
        s.run_for(i).next_symbol < s.run_for(j).next_symbol,
        s.run_for(i + 1).control == Control::Deliver(Value::Symbol(s.run_for(i).next_symbol)),
        s.run_for(j + 1).control == Control::Deliver(Value::Symbol(s.run_for(j).next_symbol)),
{
    lemma_symbols_numbered(s, i);
    lemma_symbols_numbered(s, j);
    lemma_minted_grows(s, i + 1, j);
    assert(s.minted(i + 1) == s.minted(i) + 1);
}

/// Starting an evaluation leaves the counter alone, so the numbering goes on
/// from one evaluation of an interpreter to the next.
pub proof fn lemma_load_keeps_counter<'a>(s: State<'a>, ast: &'a Block)
    ensures
        s.load(ast).next_symbol == s.next_symbol,
{
}

/// Two symbols are equal exactly when their ids are, whatever the store holds
/// and however deep the comparison may look.
pub proof fn lemma_symbol_equality(s: State, a: u64, b: u64, fuel: nat)
    ensures
        s.equal(Value::Symbol(a), Value::Symbol(b), fuel) == Ok::<bool, EvalError>(a == b),
        s.compare(ComparisonOperator::Equal, Value::Symbol(a), Value::Symbol(b)) == Ok::<
            Value,
            EvalError,
        >(Value::Bool(a == b)),
{
}

// ---- operators --------------------------------------------------------------

/// Division and remainder by zero fail with `DivisionByZero`, whatever the
/// dividend; with any other divisor they do not.
pub proof fn lemma_division_by_zero(op: NumericOperator, a: i64, b: i64)
    requires
        op == NumericOperator::Divide || op == NumericOperator::Modulo,
    ensures
        spec_numeric(op, Value::Int(a), Value::Int(b)) == Err::<Value, EvalError>(
            EvalError::DivisionByZero,
        ) <==> b == 0,
{
}

/// A comparison between values of different kinds fails with `TypeMismatch`.
pub proof fn lemma_mismatched_comparison(s: State, op: ComparisonOperator, l: Value, r: Value)
    requires
        !same_kind(l, r),
    ensures
        s.compare(op, l, r) == Err::<Value, EvalError>(EvalError::TypeMismatch),
{
}

/// In a list of `n` elements the index `-1` names the last one, `-n` the
/// first, and `n` and `-n - 1` name none.
pub proof fn lemma_index_from_the_end(n: nat)
    requires
        n > 0,
    ensures
        spec_normalize_index(n, -1) == Some((n - 1) as nat),
        spec_normalize_index(n, -(n as int)) == Some(0nat),
        spec_normalize_index(n, n as int) == None::<nat>,
        spec_normalize_index(n, -(n as int) - 1) == None::<nat>,
{
}

/// Reading a list at an index: every index from `-n` to `n - 1` gives an
/// element, the negative ones counted from the end, and every other index
/// is out of range.
pub proof fn lemma_list_index(s: State, h: usize, i: i64)
    requires
        h < s.lists.len(),
        s.lists[h as int].len() <= usize::MAX,
    ensures
        ({
            let items = s.lists[h as int];
            let n = items.len() as int;
            s.element(Value::List(h), Value::Int(i)) == if 0 <= i < n {
                Ok::<Value, EvalError>(items[i as int])
            } else if -n <= i < 0 {
                Ok(items[n + i])
            } else {
                Err(EvalError::IndexOutOfRange)
            }
        }),
{
}

// ---- effects ----------------------------------------------------------------

/// No handler is found for a tag exactly when no frame of the stack is a
/// handler with an arm for it.
pub proof fn lemma_no_handler(stack: Seq<Frame>, tag: Seq<char>)
    ensures
        find_handler(stack, tag) is None <==> forall|i: int|
            0 <= i < stack.len() ==> arm_in(#[trigger] stack[i], tag) is None,
    decreases stack.len(),
{
    if stack.len() > 0 {
        lemma_no_handler(stack.drop_last(), tag);
        if find_handler(stack, tag) is None {
            assert forall|i: int| 0 <= i < stack.len() implies arm_in(
                #[trigger] stack[i],
                tag,
            ) is None by {
                if i < stack.len() - 1 {
                    assert(stack.drop_last()[i] == stack[i]);
                }
            }
        } else if arm_in(stack.last(), tag) is None {
            let i = choose|i: int|
                0 <= i < stack.drop_last().len() && !(arm_in(
                    #[trigger] stack.drop_last()[i],
                    tag,
                ) is None);
            assert(stack[i] == stack.drop_last()[i]);
        }
    }
}

/// The handler that is found is the topmost frame with an arm for the tag.
pub proof fn lemma_innermost_handler(stack: Seq<Frame>, tag: Seq<char>)
    requires
        find_handler(stack, tag) is Some,
    ensures
        ({
            let (h, a) = find_handler(stack, tag)->0;
            &&& 0 <= h < stack.len()
            &&& arm_in(stack[h], tag) == Some(a)
            &&& forall|i: int| h < i < stack.len() ==> arm_in(#[trigger] stack[i], tag) is None
        }),
    decreases stack.len(),
{
    if arm_in(stack.last(), tag) is None {
        lemma_innermost_handler(stack.drop_last(), tag);
        let (h, a) = find_handler(stack, tag)->0;
        assert(stack.drop_last()[h] == stack[h]);
        assert forall|i: int| h < i < stack.len() implies arm_in(
            #[trigger] stack[i],
            tag,
        ) is None by {
            if i < stack.len() - 1 {
                assert(stack.drop_last()[i] == stack[i]);
            }
        }
    }
}

/// A `send` that finds no handler with an arm for its tag is no failure:
/// its value is an effect value that carries the tag and the payload of the
/// `send`. The value is delivered to what waited for the `send` like any
/// other value, and nothing else changes.
pub proof fn lemma_unhandled_send<'a>(s: State<'a>, tag: &'a String, payload: Value)
    requires
        forall|i: int| 0 <= i < s.stack.len() ==> arm_in(#[trigger] s.stack[i], tag@) is None,
        s.effects.len() <= usize::MAX,
    ensures
        ({
            let t = s.perform(tag, payload);
            &&& t.control matches Control::Deliver(v)
            &&& t.effect_of(v) == Some(Effect { symbol: tag, value: payload })
            &&& v == Value::Effect(s.effects.len() as usize)
            &&& t == (State { effects: t.effects, ..s }).deliver(v)
            &&& t.effects == s.effects.push(Effect { symbol: tag, value: payload })
        }),
{
    lemma_no_handler(s.stack, tag@);
}

/// A `send` for which a handler has an arm. The frames from the handler's
/// frame up, which are the computation that the `send` suspends, leave the
/// stack and are kept as the newest suspended computation; nothing else of
/// the store changes. The arm's block then runs on what is left of the
/// stack, which is what waited for the value of the handle expression: so
/// the value of the arm's block, unless the arm resumes, is delivered where
/// the value of the handle expression was awaited, and nothing of the
/// suspended computation runs. The arm's parameter is bound to the payload in
/// a new scope, inside the scope of the handle expression, that names the
/// suspended computation as the one to resume.
pub proof fn lemma_handled_send<'a>(s: State<'a>, tag: &'a String, payload: Value)
    requires
        find_handler(s.stack, tag@) is Some,
        s.scopes.len() <= usize::MAX,
        s.conts.len() <= usize::MAX,
    ensures
        ({
            let (h, a) = find_handler(s.stack, tag@)->0;
            let arm = s.stack[h]->Handle_node.match_arms@[a];
            let scope = s.scopes.len() as usize;
            let base = s.suspend(h, &arm.param, payload);
            &&& 0 <= h < s.stack.len()
            &&& s.stack[h] is Handle
            &&& arm.symbol@ == tag@
            &&& s.perform(tag, payload) == base.run(&*arm.block, 0, scope)
            &&& base.stack == s.stack.take(h)
            &&& base.conts == s.conts.push(s.stack.skip(h))
            &&& base.scopes.len() == scope + 1
            &&& base.scopes.take(scope as int) == s.scopes
            &&& base.objects == s.objects
            &&& base.lists == s.lists
            &&& base.next_symbol == s.next_symbol
            &&& base.scopes[scope as int].parent == Some(s.stack[h]->Handle_env)
            &&& base.resume_of(scope) == Some(s.conts.len() as usize)
            &&& base.lookup(scope, arm.param@) == Some(payload)
        }),
{
    lemma_innermost_handler(s.stack, tag@);
    let (h, a) = find_handler(s.stack, tag@)->0;
    let arm = s.stack[h]->Handle_node.match_arms@[a];
    let base = s.suspend(h, &arm.param, payload);
    lemma_find_arm(s.stack[h]->Handle_node.match_arms@, tag@, 0);
    assert(base.scopes.take(s.scopes.len() as int) =~= s.scopes);
    let table = base.scopes[s.scopes.len() as int].bindings;
    assert(table =~= seq![(&arm.param, payload)]);
    assert(find(table, arm.param@) == Some(0int));
}

/// A `continue` in a handler arm, or in a scope inside one. A copy of the
/// computation that the arm suspended goes on the stack, behind a boundary,
/// and takes the value as the value of its `send`. Its lowest frame is the
/// frame of the handler that took the `send`: what the resumed computation
/// sends reaches that handler again. The store is left as it is, so the
/// resumed computation sees every change made since the `send`; resuming the
/// same arm again puts the same frames back. The resumption fails with
/// `RecursionLimitExceeded` where it would take the calls and resumptions in
/// progress over `RECURSION_LIMIT`, and with `UndefinedVariable` where no
/// enclosing scope is that of a handler arm.
pub proof fn lemma_resume<'a>(s: State<'a>, env: usize, v: Value)
    requires
        s.valid(),
    ensures
        s.continuation(env) is None ==> s.resume(env, v) == s.fail(EvalError::UndefinedVariable),
        s.continuation(env) matches Some(k) ==> k < s.conts.len() && s.conts[k as int].len() > 0
            && s.conts[k as int][0] is Handle && s.resume(env, v) == if boundaries(s.stack)
            + boundaries(s.conts[k as int]) + 1 > RECURSION_LIMIT {
            s.fail(EvalError::RecursionLimitExceeded)
        } else {
            s.with_stack(s.stack.push(Frame::Resumed) + s.conts[k as int]).deliver(v)
        },
        s.continuation(env) == match s.resume_of(env) {
            Some(k) => Some(k),
            None => match s.parent_of(env) {
                Some(p) => s.continuation(p),
                None => None,
            },
        },
{
    lemma_continuation_good(s, env);
}

/// A handler's frame hands on the value that it is given: the value of the
/// guarded expression is the value of the handle expression.
pub proof fn lemma_handler_passes_value<'a>(s: State<'a>, f: Frame<'a>, v: Value)
    requires
        f is Handle,
    ensures
        s.push(f).deliver(v).step() == s.deliver(v),
{
    assert(s.push(f).deliver(v).stack.drop_last() =~= s.stack);
}

// ---- names ------------------------------------------------------------------

proof fn lemma_find_after_update(
    table: Seq<(&String, Value)>,
    key: Seq<char>,
    i: int,
    j: int,
    v: Value,
)
    requires
        0 <= j < table.len(),
    ensures
        find_from(table.update(j, (table[j].0, v)), key, i) == find_from(table, key, i),
    decreases table.len() - i,
{
    if 0 <= i < table.len() {
        lemma_find_after_update(table, key, i + 1, j, v);
    }
}

proof fn lemma_find_after_push(
    table: Seq<(&String, Value)>,
    key: Seq<char>,
    i: int,
    entry: (&String, Value),
)
    requires
        0 <= i <= table.len(),
    ensures
        find_from(table.push(entry), key, i) == match find_from(table, key, i) {
            Some(k) => Some(k),
            None => if entry.0@ == key {
                Some(table.len() as int)
            } else {
                None
            },
        },
    decreases table.len() - i,
{
    if i < table.len() {
        lemma_find_after_push(table, key, i + 1, entry);
    } else {
        assert(find_from(table.push(entry), key, i + 1) is None);
    }
}

/// A table that has been given a value for a key holds that value under the
/// key, and holds under every other key what it held before.
pub proof fn lemma_put<'a>(
    table: Seq<(&'a String, Value)>,
    key: &'a String,
    v: Value,
    other: Seq<char>,
)
    ensures
        ({
            let after = put(table, key, v);
            &&& find(after, key@) matches Some(i) && 0 <= i < after.len() && after[i].1 == v
            &&& other != key@ ==> find(after, other) == find(table, other) && (find(
                table,
                other,
            ) matches Some(j) ==> after[j] == table[j])
        }),
{
    match find(table, key@) {
        Some(i) => {
            lemma_find(table, key@, 0);
            lemma_find_after_update(table, key@, 0, i, v);
            lemma_find_after_update(table, other, 0, i, v);
            if find(table, other) is Some {
                lemma_find(table, other, 0);
            }
        },
        None => {
            lemma_find_after_push(table, key@, 0, (key, v));
            lemma_find_after_push(table, other, 0, (key, v));
            if find(table, other) is Some {
                lemma_find(table, other, 0);
            }
        },
    }
}

/// `let` binds in the current scope: after it the name has the new value as
/// seen from that scope, whatever it had before and wherever.
pub proof fn lemma_declare_then_lookup<'a>(s: State<'a>, env: usize, name: &'a String, v: Value)
    requires
        s.good_env(env),
        s.declare(env, name, v).fits(),
    ensures
        s.declare(env, name, v).lookup(env, name@) == Some(v),
{
    lemma_put(s.scopes[env as int].bindings, name, v, name@);
}

/// `let` changes no other name: every name but the one declared has, from
/// every scope, the value that it had.
pub proof fn lemma_declare_keeps_others<'a>(
    s: State<'a>,
    env: usize,
    name: &'a String,
    v: Value,
    from: usize,
    other: Seq<char>,
)
    requires
        s.fits(),
        other != name@,
    ensures
        s.declare(env, name, v).resolve(from, other) == s.resolve(from, other),
        s.declare(env, name, v).lookup(from, other) == s.lookup(from, other),
    decreases from,
{
    let t = s.declare(env, name, v);
    if env < s.scopes.len() {
        lemma_put(s.scopes[env as int].bindings, name, v, other);
        assert(t.find_in(from, other) == s.find_in(from, other));
        if s.find_in(from, other) is Some {
            let table = s.scopes[from as int].bindings;
            lemma_find(table, other, 0);
            assert(table.len() <= usize::MAX);
        }
        if s.find_in(from, other) is None {
            match s.parent_of(from) {
                Some(p) => lemma_declare_keeps_others(s, env, name, v, p, other),
                None => {},
            }
        }
    }
}

/// `let` in a scope is not seen from outside it: whatever is declared in
/// scope `env`, every name has, from every scope that was made before `env`,
/// the value that it had.
pub proof fn lemma_declare_is_local<'a>(
    s: State<'a>,
    env: usize,
    name: &'a String,
    v: Value,
    from: usize,
    any: Seq<char>,
)
    requires
        from < env,
    ensures
        s.declare(env, name, v).resolve(from, any) == s.resolve(from, any),
        s.declare(env, name, v).lookup(from, any) == s.lookup(from, any),
    decreases from,
{
    let t = s.declare(env, name, v);
    if env < s.scopes.len() {
        assert(t.find_in(from, any) == s.find_in(from, any));
        match s.find_in(from, any) {
            Some(i) => {},
            None => match s.parent_of(from) {
                Some(p) => lemma_declare_is_local(s, env, name, v, p, any),
                None => {},
            },
        }
    }
}

/// Assignment writes to the innermost visible binding and makes none: it
/// fails, with an undefined name, exactly when the name has no binding that
/// is visible from the scope, and after it has succeeded the name has the
/// new value as seen from the scope.
pub proof fn lemma_assign<'a>(s: State<'a>, env: usize, name: Seq<char>, v: Value)
    requires
        s.sound(),
    ensures
        s.lookup(env, name) is None <==> s.assign(env, name, v) is Err,
        s.assign(env, name, v) matches Err(e) ==> e == EvalError::UndefinedVariable,
        s.assign(env, name, v) matches Ok(t) ==> t.lookup(env, name) == Some(v) && t.resolve(
            env,
            name,
        ) == s.resolve(env, name),
{
    lemma_resolve_good(s, env, name);
    match s.resolve(env, name) {
        Some((scope, slot)) => {
            lemma_store_keeps_places(s, scope, slot, v, env, name);
        },
        None => {},
    }
}

/// Writing to a slot moves no binding: every name is found where it was.
proof fn lemma_store_keeps_places<'a>(
    s: State<'a>,
    scope: usize,
    slot: usize,
    v: Value,
    from: usize,
    name: Seq<char>,
)
    ensures
        s.store_slot(scope, slot, v).resolve(from, name) == s.resolve(from, name),
    decreases from,
{
    let t = s.store_slot(scope, slot, v);
    if scope < s.scopes.len() && slot < s.scopes[scope as int].bindings.len() {
        lemma_find_after_update(s.scopes[scope as int].bindings, name, 0, slot as int, v);
        assert(t.find_in(from, name) == s.find_in(from, name));
        if s.find_in(from, name) is None {
            match s.parent_of(from) {
                Some(p) => lemma_store_keeps_places(s, scope, slot, v, p, name),
                None => {},
            }
        }
    }
}

// ---- calls and literals ---------------------------------------------------------

/// The values held by a run of `n` frames and then `v`.
pub open spec fn run_and(stack: Seq<Frame>, n: nat, v: Value) -> Seq<Value> {
    top_values(stack, n).push(v)
}

/// A call whose last argument arrives. Below the frame that gathers the
/// arguments lie the arguments before the last, and below them the closure.
/// The call fails with `ArityMismatch` where the closure has another number
/// of parameters, else with `RecursionLimitExceeded` where `RECURSION_LIMIT`
/// calls and resumptions are in progress already; else its body runs, behind
/// a call boundary, in a new scope that lies inside the scope that the
/// closure captured and binds the parameters to the arguments in order.
pub proof fn lemma_call<'a>(s: State<'a>, v: Value)
    requires
        s.valid(),
        s.control == Control::Deliver(v),
        s.stack.len() > 0,
        s.stack.last() is Arg,
        s.stack.last()->Arg_next == s.stack.last()->Arg_call.parameters@.len(),
    ensures
        ({
            let n = s.stack.last()->Arg_next as nat;
            let below = s.stack.drop_last();
            let base = below.take(below.len() - n);
            let callee = held(below[below.len() - n]);
            let args = run_and(below, (n - 1) as nat, v);
            &&& 1 <= n <= below.len()
            &&& s.closure_of(callee) is Some
            &&& args.len() == n
            &&& ({
                let c = s.closure_of(callee)->0;
                s.step() == if c.function.parameters@.len() != n {
                    s.fail(EvalError::ArityMismatch)
                } else if boundaries(base) >= RECURSION_LIMIT {
                    s.fail(EvalError::RecursionLimitExceeded)
                } else {
                    s.with_stack(base.push(Frame::Return)).add_scope(
                        bind_names(&c.function.parameters, args, n),
                        Some(c.env),
                        None,
                    ).run(&*c.function.body, 0, s.scopes.len() as usize)
                }
            })
        }),
{
    let f = s.stack.last();
    let n = f->Arg_next as nat;
    let call = f->Arg_call;
    let below = s.stack.drop_last();
    assert(shaped(s.stack));
    assert(frame_fits(f, below));
    assert(below[below.len() - n] is Held);
    assert(s.good_frame(s.stack[below.len() - n]));
    let popped = s.with_stack(below);
    let pushed = popped.push(Frame::Held(v));
    assert(s.step() == pushed.apply(n));
    let args = run_and(below, (n - 1) as nat, v);
    assert(top_values(pushed.stack, n) =~= args);
    assert(below_top(pushed.stack, n) =~= below.take(below.len() - n + 1));
    let rest = below_top(pushed.stack, n);
    assert(rest.last() == below[below.len() - n]);
    assert(rest.drop_last() =~= below.take(below.len() - n));
}

/// A call without arguments, once the callee has been evaluated to a closure:
/// as a call with arguments, with nothing to bind.
pub proof fn lemma_call_without_arguments<'a>(s: State<'a>, v: Value)
    requires
        s.valid(),
        s.control == Control::Deliver(v),
        s.stack.len() > 0,
        s.stack.last() is Callee,
        s.stack.last()->Callee_call.parameters@.len() == 0,
        s.closure_of(v) is Some,
    ensures
        ({
            let base = s.stack.drop_last();
            let c = s.closure_of(v)->0;
            s.step() == if c.function.parameters@.len() != 0 {
                s.fail(EvalError::ArityMismatch)
            } else if boundaries(base) >= RECURSION_LIMIT {
                s.fail(EvalError::RecursionLimitExceeded)
            } else {
                s.with_stack(base.push(Frame::Return)).add_scope(
                    Seq::empty(),
                    Some(c.env),
                    None,
                ).run(&*c.function.body, 0, s.scopes.len() as usize)
            }
        }),
{
    let base = s.stack.drop_last();
    let pushed = s.with_stack(base).push(Frame::Held(v));
    assert(s.step() == pushed.apply(0));
    assert(top_values(pushed.stack, 0) =~= Seq::empty());
    assert(below_top(pushed.stack, 0) =~= pushed.stack);
    assert(pushed.stack.drop_last() =~= base);
}

/// An object literal whose last value arrives: the object is made of all
/// the pairs of the literal, each key with the value of its expression, a
/// later pair with the same key in place of the earlier one.
pub proof fn lemma_object_literal<'a>(s: State<'a>, v: Value)
    requires
        s.valid(),
        s.control == Control::Deliver(v),
        s.stack.len() > 0,
        s.stack.last() is Pair,
        s.stack.last()->Pair_next == s.stack.last()->Pair_node.pairs@.len(),
    ensures
        ({
            let node = s.stack.last()->Pair_node;
            let n = node.pairs@.len();
            let below = s.stack.drop_last();
            let values = run_and(below, (n - 1) as nat, v);
            &&& 1 <= n <= below.len() + 1
            &&& values.len() == n
            &&& s.step() == (State {
                stack: below.take(below.len() - (n - 1)),
                objects: s.objects.push(bind_pairs(&node.pairs, values, n)),
                ..s
            }).deliver(Value::Object(s.objects.len() as usize))
        }),
{
    let f = s.stack.last();
    let node = f->Pair_node;
    let n = node.pairs@.len();
    let below = s.stack.drop_last();
    assert(frame_fits(f, below));
    let pushed = s.with_stack(below).push(Frame::Held(v));
    let values = run_and(below, (n - 1) as nat, v);
    assert(top_values(pushed.stack, n) =~= values);
    assert(below_top(pushed.stack, n) =~= below.take(below.len() - (n - 1)));
}

/// A list literal gathers its elements in order: a single element goes after
/// what has been gathered, and the elements of a spread list go after it in
/// their own order.
pub proof fn lemma_list_gathers_in_order(stack: Seq<Frame>, count: nat, v: Value, items: Seq<Value>)
    requires
        all_held(stack, count),
    ensures
        top_values(stack.push(Frame::Held(v)), count + 1) == top_values(stack, count).push(v),
        top_values(stack + hold_all(items), count + items.len()) == top_values(stack, count)
            + items,
{
    assert(top_values(stack.push(Frame::Held(v)), count + 1) =~= top_values(stack, count).push(v));
    assert(top_values(stack + hold_all(items), count + items.len()) =~= top_values(stack, count)
        + items);
}

/// A list literal whose elements have all arrived: the list is made of
/// exactly the values gathered, in the order in which they were gathered.
pub proof fn lemma_list_literal<'a>(
    s: State<'a>,
    node: &'a List,
    idx: usize,
    env: usize,
    count: usize,
)
    requires
        idx >= node.elements@.len(),
        all_held(s.stack, count as nat),
    ensures
        ({
            let t = s.elements(node, idx, env, count);
            &&& t.control == Control::Deliver(Value::List(s.lists.len() as usize))
            &&& t.lists == s.lists.push(top_values(s.stack, count as nat))
            &&& top_values(s.stack, count as nat).len() == count
            &&& t.stack == s.stack.take(s.stack.len() - count)
        }),
{
}

/// In a valid state a value is never delivered to a frame that only holds
/// one: whatever is on top of the stack waits for the value.
pub proof fn lemma_delivery_is_awaited(s: State)
    requires
        s.valid(),
        s.stack.len() > 0,
    ensures
        !(s.stack.last() is Held),
{
}

// ---- control ------------------------------------------------------------------

/// A condition that has been evaluated. Where it is true, the body that
/// belongs to it runs in a new scope and no later condition is tried; where
/// it is false, the next condition is evaluated, or after the last one the
/// `else` body runs, or without one the conditional is null. A condition
/// that is no boolean is a type mismatch.
pub proof fn lemma_condition<'a>(s: State<'a>, f: Frame<'a>, v: Value)
    requires
        f is If,
    ensures
        ({
            let node = f->If_node;
            let env = f->If_env;
            let next = f->If_next;
            s.apply_frame(f, v) == match v {
                Value::Bool(true) => s.enter(f->If_body, env),
                Value::Bool(false) => if next < node.ifs@.len() {
                    s.push(
                        Frame::If {
                            node,
                            body: &*node.ifs@[next as int].body,
                            next: (next + 1) as usize,
                            env,
                        },
                    ).eval(&*node.ifs@[next as int].cond, env)
                } else {
                    match node.else_body {
                        Some(b) => s.enter(&*b, env),
                        None => s.deliver(Value::Null),
                    }
                },
                _ => s.fail(EvalError::TypeMismatch),
            }
        }),
{
}

/// `break` with value `v`: the innermost loop in progress ends, whatever was
/// waiting inside it is dropped, and `v` is delivered to what waited for the
/// value of the loop. Without a loop in progress it is an error.
pub proof fn lemma_break<'a>(s: State<'a>, v: Value)
    ensures
        last_loop(s.stack) is None ==> s.leave_loop(v) == s.fail(
            EvalError::NoEnclosingLoop,
        ),
        last_loop(s.stack) matches Some(i) ==> {
            &&& 0 <= i < s.stack.len()
            &&& s.stack[i] is Loop
            &&& forall|j: int| i < j < s.stack.len() ==> !(#[trigger] s.stack[j] is Loop)
            &&& s.leave_loop(v) == s.with_stack(s.stack.take(i)).deliver(v)
            &&& s.next_iteration() == s.with_stack(s.stack.take(i + 1)).deliver(Value::Null)
        },
{
    lemma_innermost_loop(s.stack);
}

proof fn lemma_innermost_loop(stack: Seq<Frame>)
    ensures
        last_loop(stack) matches Some(i) ==> 0 <= i < stack.len() && stack[i] is Loop
            && forall|j: int| i < j < stack.len() ==> !(#[trigger] stack[j] is Loop),
    decreases stack.len(),
{
    if stack.len() > 0 && !(stack.last() is Loop) {
        lemma_innermost_loop(stack.drop_last());
        match last_loop(stack) {
            Some(i) => {
                assert(stack.drop_last()[i] == stack[i]);
                assert forall|j: int| i < j < stack.len() implies !(
                #[trigger] stack[j] is Loop) by {
                    if j < stack.len() - 1 {
                        assert(stack.drop_last()[j] == stack[j]);
                    }
                }
            },
            None => {},
        }
    }
}

/// An assignment to a bare name: the name is resolved before the assigned
/// expression is evaluated, and without a visible binding the assignment
/// fails with `UndefinedVariable`; it never makes a binding.
pub proof fn lemma_assignment_to_name<'a>(
    s: State<'a>,
    target: &'a LocationChain,
    env: usize,
    assign: &'a Assignment,
)
    requires
        target.base is Ident,
        target.parts@.len() == 0,
    ensures
        ({
            let name = target.base->Ident_0@;
            s.start_chain(target, env, Some(assign)) == match s.resolve(env, name) {
                Some((scope, slot)) => s.push(Frame::StoreSlot { scope, slot }).eval(
                    &*assign.expr,
                    env,
                ),
                None => s.fail(EvalError::UndefinedVariable),
            }
        }),
{
}

} // verus!
