//! Evaluation does not look at what waits for it. A computation that runs to
//! its end on an empty stack, and handles itself whatever it sends, runs in
//! the same way on top of any stack, takes as many steps, changes the store
//! alike and hands its value to the frame on which it stood
//! (`lemma_run_under`). A loop to leave below it would have been missed on
//! the empty stack, and only the limit on calls and resumptions counts the
//! frames below.

use crate::ast::{
    Assignment, Block, Expression, FunctionInvocation, IfExpression, LetStatement, List, Location,
    LocationChain, LocationChainBase, Object, Statement,
};
use crate::laws::{lemma_innermost_handler, lemma_run_one_more};
use crate::machine::{
    arm_in, below_top, bind_names, bind_pairs, boundaries, find, find_handler, held, hold_all,
    is_boundary, last_loop, lemma_boundaries_add, lemma_boundaries_held, lemma_boundaries_push,
    lemma_boundaries_take, top_values, BinaryOp, Closure, Control, Frame, State, EQUALITY_DEPTH,
    RECURSION_LIMIT,
};
use crate::shape::{
    frame_fits, gathered, gathering, lemma_formed_block, lemma_shaped_skip, lemma_step_formed,
    shaped,
};
use crate::sound::{lemma_continuation_good, lemma_last_loop};
use crate::value::{EvalError, Value};
use vstd::prelude::*;

verus! {

impl<'a> State<'a> {
    /// This state with `base` below its stack.
    pub open spec fn under(self, base: Seq<Frame<'a>>) -> Self {
        State { stack: base + self.stack, ..self }
    }

    /// Whether the computation that started on the empty stack has handed
    /// back its value.
    pub open spec fn returned(self) -> bool {
        self.control is Deliver && self.stack.len() == 0
    }

    /// The tag that the next step sends, if it is a `send`.
    pub open spec fn sending(self) -> Option<&'a String> {
        match self.control {
            Control::Eval { expr, env } => match *expr {
                Expression::Send(sd) => if sd.expr is None {
                    Some(&sd.symbol)
                } else {
                    None
                },
                _ => None,
            },
            Control::Deliver(v) => if self.stack.len() > 0 {
                match self.stack.last() {
                    Frame::Send { tag } => Some(tag),
                    _ => None,
                }
            } else {
                None
            },
            Control::Halted(_) => None,
        }
    }

    /// Whether the next step sends what no handler on this stack takes.
    pub open spec fn escapes(self) -> bool {
        match self.sending() {
            Some(tag) => match self.control {
                Control::Deliver(_) => find_handler(self.stack.drop_last(), tag@) is None,
                _ => find_handler(self.stack, tag@) is None,
            },
            None => false,
        }
    }
}

// ---- what does not depend on the stack ------------------------------------------

proof fn lemma_under_resolve<'a>(t: State<'a>, base: Seq<Frame<'a>>, env: usize, name: Seq<char>)
    ensures
        t.under(base).resolve(env, name) == t.resolve(env, name),
        t.under(base).lookup(env, name) == t.lookup(env, name),
        t.under(base).continuation(env) == t.continuation(env),
    decreases env,
{
    match t.parent_of(env) {
        Some(p) => lemma_under_resolve(t, base, p, name),
        None => {},
    }
}

proof fn lemma_under_equal<'a>(t: State<'a>, base: Seq<Frame<'a>>, l: Value, r: Value, fuel: nat)
    ensures
        t.under(base).equal(l, r, fuel) == t.equal(l, r, fuel),
    decreases fuel, 0nat,
{
    match (l, r) {
        (Value::Effect(a), Value::Effect(b)) => {
            if a != b && a < t.effects.len() && b < t.effects.len() && fuel > 0 {
                lemma_under_equal(
                    t,
                    base,
                    t.effects[a as int].value,
                    t.effects[b as int].value,
                    (fuel - 1) as nat,
                );
            }
        },
        (Value::List(a), Value::List(b)) => {
            if a != b && a < t.lists.len() && b < t.lists.len() && fuel > 0 {
                lemma_under_equal_items(
                    t,
                    base,
                    t.lists[a as int],
                    t.lists[b as int],
                    0,
                    (fuel - 1) as nat,
                );
            }
        },
        (Value::Object(a), Value::Object(b)) => {
            if a != b && a < t.objects.len() && b < t.objects.len() && fuel > 0 {
                lemma_under_equal_fields(
                    t,
                    base,
                    t.objects[a as int],
                    t.objects[b as int],
                    0,
                    (fuel - 1) as nat,
                );
            }
        },
        _ => {},
    }
}

proof fn lemma_under_equal_items<'a>(
    t: State<'a>,
    base: Seq<Frame<'a>>,
    xs: Seq<Value>,
    ys: Seq<Value>,
    i: nat,
    fuel: nat,
)
    ensures
        t.under(base).equal_items(xs, ys, i, fuel) == t.equal_items(xs, ys, i, fuel),
    decreases fuel, xs.len() - i + 1,
{
    if !(i >= xs.len() || i >= ys.len()) {
        lemma_under_equal(t, base, xs[i as int], ys[i as int], fuel);
        lemma_under_equal_items(t, base, xs, ys, i + 1, fuel);
    }
}

proof fn lemma_under_equal_fields<'a>(
    t: State<'a>,
    base: Seq<Frame<'a>>,
    xs: Seq<(&'a String, Value)>,
    ys: Seq<(&'a String, Value)>,
    i: nat,
    fuel: nat,
)
    ensures
        t.under(base).equal_fields(xs, ys, i, fuel) == t.equal_fields(xs, ys, i, fuel),
    decreases fuel, xs.len() - i + 1,
{
    if i < xs.len() {
        match find(ys, xs[i as int].0@) {
            Some(j) => {
                lemma_under_equal(t, base, xs[i as int].1, ys[j].1, fuel);
                lemma_under_equal_fields(t, base, xs, ys, i + 1, fuel);
            },
            None => {},
        }
    }
}

proof fn lemma_under_binary<'a>(
    t: State<'a>,
    base: Seq<Frame<'a>>,
    op: BinaryOp,
    l: Value,
    r: Value,
)
    ensures
        t.under(base).binary(op, l, r) == t.binary(op, l, r),
{
    lemma_under_equal(t, base, l, r, EQUALITY_DEPTH as nat);
}

/// The moves that put something on the stack or change the store do the
/// same with and without `base` below.
proof fn lemma_under_moves<'a>(t: State<'a>, base: Seq<Frame<'a>>)
    ensures
        forall|f: Frame<'a>| #[trigger] t.under(base).push(f) == t.push(f).under(base),
        forall|e: &'a Expression, env: usize| #[trigger]
            t.under(base).eval(e, env) == t.eval(e, env).under(base),
        forall|v: Value| #[trigger] t.under(base).deliver(v) == t.deliver(v).under(base),
{
    assert forall|f: Frame<'a>| #[trigger] t.under(base).push(f) == t.push(f).under(base) by {
        assert((base + t.stack).push(f) =~= base + t.stack.push(f));
    }
}

proof fn lemma_last_loop_under(base: Seq<Frame>, stack: Seq<Frame>)
    requires
        last_loop(stack) is Some,
    ensures
        last_loop(base + stack) == Some(base.len() + last_loop(stack)->0),
    decreases stack.len(),
{
    assert((base + stack).drop_last() =~= base + stack.drop_last());
    if !(stack.last() is Loop) {
        lemma_last_loop_under(base, stack.drop_last());
    }
}

proof fn lemma_find_handler_under(base: Seq<Frame>, stack: Seq<Frame>, tag: Seq<char>)
    requires
        find_handler(stack, tag) is Some,
    ensures
        ({
            let (h, a) = find_handler(stack, tag)->0;
            find_handler(base + stack, tag) == Some((base.len() + h, a))
        }),
    decreases stack.len(),
{
    assert((base + stack).drop_last() =~= base + stack.drop_last());
    if arm_in(stack.last(), tag) is None {
        lemma_find_handler_under(base, stack.drop_last(), tag);
    }
}

proof fn lemma_top_under(base: Seq<Frame>, stack: Seq<Frame>, n: nat)
    requires
        n <= stack.len(),
    ensures
        top_values(base + stack, n) == top_values(stack, n),
        below_top(base + stack, n) == base + below_top(stack, n),
{
    assert(top_values(base + stack, n) =~= top_values(stack, n));
    assert(below_top(base + stack, n) =~= base + below_top(stack, n));
}

// ---- the moves of a step ------------------------------------------------------

proof fn lemma_under_walk<'a>(
    t: State<'a>,
    base: Seq<Frame<'a>>,
    chain: &'a LocationChain,
    idx: usize,
    env: usize,
    assign: Option<&'a Assignment>,
    cur: Value,
    v: Value,
)
    ensures
        !t.walk(chain, idx, env, assign, cur).halted() ==> t.under(base).walk(
            chain,
            idx,
            env,
            assign,
            cur,
        ) == t.walk(chain, idx, env, assign, cur).under(base) && boundaries(
            t.walk(chain, idx, env, assign, cur).stack,
        ) == boundaries(t.stack),
        !t.walk_index(chain, idx, env, assign, cur, v).halted() ==> t.under(base).walk_index(
            chain,
            idx,
            env,
            assign,
            cur,
            v,
        ) == t.walk_index(chain, idx, env, assign, cur, v).under(base) && boundaries(
            t.walk_index(chain, idx, env, assign, cur, v).stack,
        ) == boundaries(t.stack),
{
    lemma_under_moves(t, base);
    let u = t.under(base);
    assert forall|f: Frame<'a>| !is_boundary(f) implies boundaries(
        #[trigger] t.stack.push(f),
    ) == boundaries(t.stack) by {
        lemma_boundaries_push(t.stack, f);
    }
    let w = t.walk(chain, idx, env, assign, cur);
    if !w.halted() && idx < chain.parts@.len() {
        let next = (idx + 1) as usize;
        match *chain.parts@[idx as int] {
            Location::Dot(d) => {
                if assign is Some && next == chain.parts@.len() {
                    let f = Frame::StoreField { object: t.object_of(cur)->0, key: &d.prop };
                    lemma_under_moves(t.push(f), base);
                } else {
                    let f = Frame::Chain { chain, next, env, assign };
                    lemma_under_moves(t.push(f), base);
                }
            },
            Location::Index(ix) => {
                let f = Frame::ChainIndex { chain, next, env, assign, base: cur };
                lemma_under_moves(t.push(f), base);
            },
        }
    }
    let x = t.walk_index(chain, idx, env, assign, cur, v);
    if !x.halted() {
        if assign is Some && idx == chain.parts@.len() {
            let (list, index) = t.place(cur, v)->Ok_0;
            lemma_under_moves(t.push(Frame::StoreElement { list, index }), base);
        } else {
            lemma_under_moves(t.push(Frame::Chain { chain, next: idx, env, assign }), base);
        }
    }
}

proof fn lemma_under_start_chain<'a>(
    t: State<'a>,
    base: Seq<Frame<'a>>,
    chain: &'a LocationChain,
    env: usize,
    assign: Option<&'a Assignment>,
)
    requires
        !t.start_chain(chain, env, assign).halted(),
    ensures
        t.under(base).start_chain(chain, env, assign) == t.start_chain(chain, env, assign).under(
            base,
        ),
        boundaries(t.start_chain(chain, env, assign).stack) == boundaries(t.stack),
{
    lemma_under_moves(t, base);
    match chain.base {
        LocationChainBase::Ident(name) => {
            lemma_under_resolve(t, base, env, name@);
            if assign is Some && chain.parts@.len() == 0 {
                let (scope, slot) = t.resolve(env, name@)->0;
                let f = Frame::StoreSlot { scope, slot };
                lemma_boundaries_push(t.stack, f);
                lemma_under_moves(t.push(f), base);
            } else {
                let v = t.lookup(env, name@)->0;
                lemma_under_walk(t, base, chain, 0, env, assign, v, v);
            }
        },
        LocationChainBase::Expression(e) => {
            let f = Frame::Chain { chain, next: 0, env, assign };
            lemma_boundaries_push(t.stack, f);
            lemma_under_moves(t.push(f), base);
        },
    }
}

proof fn lemma_under_run<'a>(
    t: State<'a>,
    base: Seq<Frame<'a>>,
    block: &'a Block,
    idx: usize,
    env: usize,
)
    requires
        !t.run(block, idx, env).halted(),
    ensures
        t.under(base).run(block, idx, env) == t.run(block, idx, env).under(base),
        boundaries(t.run(block, idx, env).stack) == boundaries(t.stack),
{
    lemma_under_moves(t, base);
    if idx < block.statements@.len() {
        let f = Frame::Block { block, next: (idx + 1) as usize, env };
        let t1 = t.push(f);
        lemma_boundaries_push(t.stack, f);
        lemma_under_moves(t1, base);
        match *block.statements@[idx as int] {
            Statement::Let(l) => {
                let g = Frame::Let { name: &l.ident, env };
                lemma_boundaries_push(t1.stack, g);
                lemma_under_moves(t1.push(g), base);
            },
            Statement::Assignment(a) => {
                lemma_under_start_chain(t1, base, &a.location, env, Some(&a));
            },
            Statement::Expression(e) => {},
        }
    }
}

proof fn lemma_under_enter<'a>(t: State<'a>, base: Seq<Frame<'a>>, block: &'a Block, env: usize)
    requires
        !t.enter(block, env).halted(),
    ensures
        t.under(base).enter(block, env) == t.enter(block, env).under(base),
        boundaries(t.enter(block, env).stack) == boundaries(t.stack),
{
    let t1 = t.add_scope(Seq::empty(), Some(env), None);
    assert(t.under(base).add_scope(Seq::empty(), Some(env), None) == t1.under(base));
    lemma_under_run(t1, base, block, 0, t.scopes.len() as usize);
}

proof fn lemma_under_branch<'a>(
    t: State<'a>,
    base: Seq<Frame<'a>>,
    node: &'a IfExpression,
    idx: usize,
    env: usize,
)
    requires
        !t.branch(node, idx, env).halted(),
    ensures
        t.under(base).branch(node, idx, env) == t.branch(node, idx, env).under(base),
        boundaries(t.branch(node, idx, env).stack) == boundaries(t.stack),
{
    lemma_under_moves(t, base);
    if idx < node.ifs@.len() {
        let f = Frame::If {
            node,
            body: &*node.ifs@[idx as int].body,
            next: (idx + 1) as usize,
            env,
        };
        lemma_boundaries_push(t.stack, f);
        lemma_under_moves(t.push(f), base);
    } else {
        match node.else_body {
            Some(b) => lemma_under_enter(t, base, &*b, env),
            None => {},
        }
    }
}

proof fn lemma_under_loop_exit<'a>(t: State<'a>, base: Seq<Frame<'a>>, v: Value)
    ensures
        !t.leave_loop(v).halted() ==> t.under(base).leave_loop(v) == t.leave_loop(v).under(base)
            && boundaries(t.leave_loop(v).stack) <= boundaries(t.stack),
        !t.next_iteration().halted() ==> t.under(base).next_iteration()
            == t.next_iteration().under(base) && boundaries(t.next_iteration().stack)
            <= boundaries(t.stack),
{
    match last_loop(t.stack) {
        Some(i) => {
            lemma_last_loop(t.stack);
            lemma_last_loop_under(base, t.stack);
            assert((base + t.stack).take(base.len() + i) =~= base + t.stack.take(i));
            assert((base + t.stack).take(base.len() + i + 1) =~= base + t.stack.take(i + 1));
            lemma_boundaries_take(t.stack, i);
            lemma_boundaries_take(t.stack, i + 1);
        },
        None => {},
    }
}

proof fn lemma_under_apply<'a>(t: State<'a>, base: Seq<Frame<'a>>, n: nat)
    requires
        n + 1 <= t.stack.len(),
        !t.apply(n).halted(),
        boundaries(base) + boundaries(t.apply(n).stack) <= RECURSION_LIMIT,
    ensures
        t.under(base).apply(n) == t.apply(n).under(base),
{
    let args = top_values(t.stack, n);
    let rest = below_top(t.stack, n);
    lemma_top_under(base, t.stack, n);
    let below = rest.drop_last();
    assert((base + rest).drop_last() =~= base + below);
    assert((base + rest).last() == rest.last());
    let c = t.closure_of(held(rest.last()))->0;
    let t1 = t.with_stack(below.push(Frame::Return));
    let t2 = t1.add_scope(bind_names(&c.function.parameters, args, args.len()), Some(c.env), None);
    let scope = t.scopes.len() as usize;
    lemma_under_run(t2, base, &*c.function.body, 0, scope);
    lemma_boundaries_push(below, Frame::Return);
    lemma_boundaries_add(base, below);
    assert((base + below).push(Frame::Return) =~= base + below.push(Frame::Return));
}

proof fn lemma_under_arguments<'a>(
    t: State<'a>,
    base: Seq<Frame<'a>>,
    call: &'a FunctionInvocation,
    idx: usize,
    env: usize,
)
    requires
        call.parameters@.len() + 1 <= t.stack.len() || idx < call.parameters@.len(),
        !t.arguments(call, idx, env).halted(),
        boundaries(base) + boundaries(t.arguments(call, idx, env).stack) <= RECURSION_LIMIT,
    ensures
        t.under(base).arguments(call, idx, env) == t.arguments(call, idx, env).under(base),
{
    lemma_under_moves(t, base);
    if idx < call.parameters@.len() {
        lemma_under_moves(t.push(Frame::Arg { call, next: (idx + 1) as usize, env }), base);
    } else {
        lemma_under_apply(t, base, call.parameters@.len());
    }
}

proof fn lemma_under_pairs<'a>(
    t: State<'a>,
    base: Seq<Frame<'a>>,
    node: &'a Object,
    idx: usize,
    env: usize,
)
    requires
        node.pairs@.len() <= t.stack.len() || idx < node.pairs@.len(),
    ensures
        t.under(base).pairs(node, idx, env) == t.pairs(node, idx, env).under(base),
        boundaries(t.pairs(node, idx, env).stack) <= boundaries(t.stack),
{
    lemma_under_moves(t, base);
    if idx < node.pairs@.len() {
        let f = Frame::Pair { node, next: (idx + 1) as usize, env };
        lemma_boundaries_push(t.stack, f);
        lemma_under_moves(t.push(f), base);
    } else {
        lemma_top_under(base, t.stack, node.pairs@.len());
        lemma_boundaries_take(t.stack, t.stack.len() - node.pairs@.len());
    }
}

proof fn lemma_under_elements<'a>(
    t: State<'a>,
    base: Seq<Frame<'a>>,
    node: &'a List,
    idx: usize,
    env: usize,
    count: usize,
)
    requires
        count <= t.stack.len(),
    ensures
        t.under(base).elements(node, idx, env, count) == t.elements(node, idx, env, count).under(
            base,
        ),
        boundaries(t.elements(node, idx, env, count).stack) <= boundaries(t.stack),
{
    lemma_under_moves(t, base);
    if idx < node.elements@.len() {
        let next = (idx + 1) as usize;
        let f = Frame::Elem { node, next, env, count, spread: false };
        let g = Frame::Elem { node, next, env, count, spread: true };
        lemma_boundaries_push(t.stack, f);
        lemma_boundaries_push(t.stack, g);
        lemma_under_moves(t.push(f), base);
        lemma_under_moves(t.push(g), base);
    } else {
        lemma_top_under(base, t.stack, count as nat);
        lemma_boundaries_take(t.stack, t.stack.len() - count);
    }
}

proof fn lemma_under_gather<'a>(
    t: State<'a>,
    base: Seq<Frame<'a>>,
    node: &'a List,
    next: usize,
    env: usize,
    count: usize,
    spread: bool,
    v: Value,
)
    requires
        count <= t.stack.len(),
        !t.gather(node, next, env, count, spread, v).halted(),
    ensures
        t.under(base).gather(node, next, env, count, spread, v) == t.gather(
            node,
            next,
            env,
            count,
            spread,
            v,
        ).under(base),
        boundaries(t.gather(node, next, env, count, spread, v).stack) <= boundaries(t.stack),
{
    lemma_under_moves(t, base);
    if !spread {
        let t1 = t.push(Frame::Held(v));
        lemma_boundaries_push(t.stack, Frame::Held(v));
        lemma_under_elements(t1, base, node, next, env, (count + 1) as usize);
    } else {
        let items = t.list_of(v)->0;
        let t1 = t.with_stack(t.stack + hold_all(items));
        assert((base + t.stack) + hold_all::<'a>(items) =~= base + (t.stack + hold_all(items)));
        lemma_boundaries_held(t.stack, items);
        lemma_under_elements(t1, base, node, next, env, (count + items.len()) as usize);
    }
}

proof fn lemma_under_perform<'a>(
    t: State<'a>,
    base: Seq<Frame<'a>>,
    tag: &'a String,
    payload: Value,
)
    requires
        find_handler(t.stack, tag@) is Some,
        !t.perform(tag, payload).halted(),
    ensures
        t.under(base).perform(tag, payload) == t.perform(tag, payload).under(base),
        boundaries(t.perform(tag, payload).stack) <= boundaries(t.stack),
{
    lemma_innermost_handler(t.stack, tag@);
    lemma_find_handler_under(base, t.stack, tag@);
    let (h, a) = find_handler(t.stack, tag@)->0;
    let arm = t.stack[h]->Handle_node.match_arms@[a];
    assert((base + t.stack).take(base.len() + h) =~= base + t.stack.take(h));
    assert((base + t.stack).skip(base.len() + h) =~= t.stack.skip(h));
    let t1 = t.suspend(h, &arm.param, payload);
    assert(t.under(base).suspend(base.len() + h, &arm.param, payload) == t1.under(base));
    lemma_under_run(t1, base, &*arm.block, 0, t.scopes.len() as usize);
    lemma_boundaries_take(t.stack, h);
}

proof fn lemma_under_resume<'a>(t: State<'a>, base: Seq<Frame<'a>>, env: usize, v: Value)
    requires
        !t.resume(env, v).halted(),
        boundaries(base) + boundaries(t.resume(env, v).stack) <= RECURSION_LIMIT,
    ensures
        t.under(base).resume(env, v) == t.resume(env, v).under(base),
{
    lemma_under_resolve(t, base, env, Seq::empty());
    let k = t.continuation(env)->0;
    let piece = t.conts[k as int];
    lemma_boundaries_push(t.stack, Frame::Resumed);
    lemma_boundaries_add(t.stack.push(Frame::Resumed), piece);
    lemma_boundaries_add(base, t.stack);
    assert((base + t.stack).push(Frame::Resumed) + piece =~= base + (t.stack.push(Frame::Resumed)
        + piece));
}

proof fn lemma_under_begin<'a>(
    t: State<'a>,
    base: Seq<Frame<'a>>,
    expr: &'a Expression,
    env: usize,
)
    requires
        !t.eval(expr, env).escapes(),
        !t.begin(expr, env).halted(),
        boundaries(base) + boundaries(t.begin(expr, env).stack) <= RECURSION_LIMIT,
    ensures
        t.under(base).begin(expr, env) == t.begin(expr, env).under(base),
{
    lemma_under_moves(t, base);
    match *expr {
        Expression::Negative(n) => lemma_under_moves(t.push(Frame::Negate), base),
        Expression::Not(n) => lemma_under_moves(t.push(Frame::Not), base),
        Expression::Boolean(b) => lemma_under_moves(
            t.push(Frame::Left { op: BinaryOp::Boolean(b.operator), right: &*b.right, env }),
            base,
        ),
        Expression::Comparison(c) => lemma_under_moves(
            t.push(Frame::Left { op: BinaryOp::Comparison(c.operator), right: &*c.right, env }),
            base,
        ),
        Expression::Numeric(n) => lemma_under_moves(
            t.push(Frame::Left { op: BinaryOp::Numeric(n.operator), right: &*n.right, env }),
            base,
        ),
        Expression::Dot(d) => lemma_under_moves(t.push(Frame::Dot { prop: &d.prop }), base),
        Expression::Index(ix) => lemma_under_moves(
            t.push(Frame::IndexBase { index: &*ix.index, env }),
            base,
        ),
        Expression::If(node) => lemma_under_branch(t, base, &node, 0, env),
        Expression::Loop(l) => {
            let f = Frame::Loop { body: &*l.body, env };
            lemma_under_enter(t.push(f), base, &*l.body, env);
        },
        Expression::Break(b) => match b.expr {
            Some(e) => lemma_under_moves(t.push(Frame::Break), base),
            None => lemma_under_loop_exit(t, base, Value::Null),
        },
        Expression::NextIteration(n) => match n.expr {
            Some(e) => lemma_under_moves(t.push(Frame::Next), base),
            None => lemma_under_loop_exit(t, base, Value::Null),
        },
        Expression::Function(f) => {
            let t1 = State {
                closures: t.closures.push(Closure { function: &f, env }),
                ..t
            };
            lemma_under_moves(t1, base);
        },
        Expression::Invocation(c) => lemma_under_moves(
            t.push(Frame::Callee { call: &c, env }),
            base,
        ),
        Expression::Block(b) => lemma_under_enter(t, base, &b, env),
        Expression::Object(o) => {
            if o.pairs@.len() == 0 {
                lemma_top_under(base, t.stack, 0);
                let t1 = State {
                    stack: below_top(t.stack, 0),
                    objects: t.objects.push(
                        bind_pairs(&o.pairs, top_values(t.stack, 0), 0),
                    ),
                    ..t
                };
                lemma_under_moves(t1, base);
            } else {
                lemma_under_pairs(t, base, &o, 0, env);
            }
        },
        Expression::List(l) => lemma_under_elements(t, base, &l, 0, env, 0),
        Expression::Location(chain) => lemma_under_start_chain(t, base, &chain, env, None),
        Expression::Handle(h) => lemma_under_moves(t.push(Frame::Handle { node: &h, env }), base),
        Expression::Send(sd) => match sd.expr {
            Some(e) => lemma_under_moves(t.push(Frame::Send { tag: &sd.symbol }), base),
            None => lemma_under_perform(t, base, &sd.symbol, Value::Null),
        },
        Expression::Continue(c) => match c.expr {
            Some(e) => lemma_under_moves(t.push(Frame::Resume { env }), base),
            None => lemma_under_resume(t, base, env, Value::Null),
        },
        Expression::Custom(c) => {
            let t1 = State { next_symbol: (t.next_symbol + 1) as u64, ..t };
            lemma_under_moves(t1, base);
        },
        _ => {},
    }
}

proof fn lemma_under_apply_frame<'a>(t: State<'a>, base: Seq<Frame<'a>>, f: Frame<'a>, v: Value)
    requires
        frame_fits(f, t.stack),
        gathering(t.stack, gathered(f)),
        f matches Frame::Send { tag } ==> find_handler(t.stack, tag@) is Some,
        !t.apply_frame(f, v).halted(),
        boundaries(base) + boundaries(t.apply_frame(f, v).stack) <= RECURSION_LIMIT,
    ensures
        t.under(base).apply_frame(f, v) == t.apply_frame(f, v).under(base),
{
    lemma_under_moves(t, base);
    match f {
        Frame::Left { op, right, env } => lemma_under_moves(
            t.push(Frame::Right { op, left: v }),
            base,
        ),
        Frame::Right { op, left } => lemma_under_binary(t, base, op, left, v),
        Frame::IndexBase { index, env } => lemma_under_moves(
            t.push(Frame::IndexAt { base: v }),
            base,
        ),
        Frame::If { node, body, next, env } => match v {
            Value::Bool(true) => lemma_under_enter(t, base, body, env),
            Value::Bool(false) => lemma_under_branch(t, base, node, next, env),
            _ => {},
        },
        Frame::Loop { body, env } => lemma_under_enter(t.push(f), base, body, env),
        Frame::Break => lemma_under_loop_exit(t, base, v),
        Frame::Next => lemma_under_loop_exit(t, base, v),
        Frame::Callee { call, env } => {
            lemma_under_arguments(t.push(Frame::Held(v)), base, call, 0, env);
        },
        Frame::Arg { call, next, env } => {
            lemma_under_arguments(t.push(Frame::Held(v)), base, call, next, env);
        },
        Frame::Block { block, next, env } => lemma_under_run(t, base, block, next, env),
        Frame::Let { name, env } => lemma_under_moves(t.declare(env, name, v), base),
        Frame::Chain { chain, next, env, assign } => lemma_under_walk(
            t,
            base,
            chain,
            next,
            env,
            assign,
            v,
            v,
        ),
        Frame::ChainIndex { chain, next, env, assign, base: b } => lemma_under_walk(
            t,
            base,
            chain,
            next,
            env,
            assign,
            b,
            v,
        ),
        Frame::StoreSlot { scope, slot } => lemma_under_moves(
            t.store_slot(scope, slot, v),
            base,
        ),
        Frame::StoreField { object, key } => lemma_under_moves(
            t.store_field(object, key, v),
            base,
        ),
        Frame::StoreElement { list, index } => lemma_under_moves(
            t.store_element(list, index, v),
            base,
        ),
        Frame::Pair { node, next, env } => {
            lemma_under_pairs(t.push(Frame::Held(v)), base, node, next, env);
        },
        Frame::Elem { node, next, env, count, spread } => lemma_under_gather(
            t,
            base,
            node,
            next,
            env,
            count,
            spread,
            v,
        ),
        Frame::Send { tag } => lemma_under_perform(t, base, tag, v),
        Frame::Resume { env } => lemma_under_resume(t, base, env, v),
        _ => {},
    }
}

/// A step that neither ends the evaluation, nor hands back the value of the
/// whole computation, nor sends what no handler on the stack takes, is the
/// same step with `base` below the stack, as long as the calls and
/// resumptions in progress stay within the limit there too.
pub proof fn lemma_step_under<'a>(t: State<'a>, base: Seq<Frame<'a>>)
    requires
        shaped(t.stack),
        !t.returned(),
        !t.escapes(),
        !t.step().halted(),
        boundaries(base) + boundaries(t.step().stack) <= RECURSION_LIMIT,
    ensures
        t.under(base).step() == t.step().under(base),
{
    match t.control {
        Control::Halted(_) => {},
        Control::Eval { expr, env } => lemma_under_begin(t, base, expr, env),
        Control::Deliver(v) => {
            let below = t.stack.drop_last();
            assert((base + t.stack).drop_last() =~= base + below);
            assert(t.under(base).with_stack((base + t.stack).drop_last()) == t.with_stack(
                below,
            ).under(base));
            lemma_under_apply_frame(t.with_stack(below), base, t.stack.last(), v);
        },
    }
}

impl<'a> State<'a> {
    /// Whether the first `n` steps from here neither end the evaluation, nor
    /// find the stack empty, nor send what no handler on the stack takes;
    /// the last of them may lead to a state that hands back a value on the
    /// empty stack.
    pub open spec fn proceeds(self, n: nat) -> bool {
        &&& forall|k: nat| k < n ==> !(#[trigger] self.run_for(k)).returned()
        &&& forall|k: nat| k < n ==> !(#[trigger] self.run_for(k)).escapes()
        &&& forall|k: nat| k <= n ==> !(#[trigger] self.run_for(k)).halted()
    }

    /// Whether, with `base` below the stack, the calls and resumptions in
    /// progress stay within the limit during the first `n` steps.
    pub open spec fn stays_within(self, base: Seq<Frame<'a>>, n: nat) -> bool {
        forall|k: nat|
            k <= n ==> boundaries(base) + boundaries((#[trigger] self.run_for(k)).stack)
                <= RECURSION_LIMIT
    }
}

proof fn lemma_run_formed(t: State, n: nat)
    requires
        t.formed(),
    ensures
        t.run_for(n).formed(),
    decreases n,
{
    if n > 0 {
        lemma_run_formed(t, (n - 1) as nat);
        lemma_run_one_more(t, (n - 1) as nat);
        lemma_step_formed(t.run_for((n - 1) as nat));
    }
}

/// Evaluation does not look at what waits for it: steps that neither end the
/// evaluation, nor find the stack empty, nor send what is not handled above
/// `base`, are the same steps with `base` below the stack. So a computation
/// that on the empty stack comes to a value, and handles itself whatever it
/// sends, comes to the same value on `base`, after as many steps and with
/// the same changes to the store, and hands the value to the top frame of
/// `base`.
pub proof fn lemma_run_under<'a>(t: State<'a>, base: Seq<Frame<'a>>, n: nat)
    requires
        t.formed(),
        t.proceeds(n),
        t.stays_within(base, n),
    ensures
        t.under(base).run_for(n) == t.run_for(n).under(base),
    decreases n,
{
    if n > 0 {
        let m = (n - 1) as nat;
        assert(t.proceeds(m)) by {
            assert forall|k: nat| k <= m implies !(#[trigger] t.run_for(k)).halted() by {
                assert(k <= n);
            }
        }
        assert(t.stays_within(base, m)) by {
            assert forall|k: nat| k <= m implies boundaries(base) + boundaries(
                (#[trigger] t.run_for(k)).stack,
            ) <= RECURSION_LIMIT by {
                assert(k <= n);
            }
        }
        lemma_run_under(t, base, m);
        lemma_run_one_more(t, m);
        lemma_run_one_more(t.under(base), m);
        lemma_run_formed(t, m);
        let u = t.run_for(m);
        assert(!u.returned());
        assert(!u.escapes());
        assert(u.step() == t.run_for(n));
        assert(!t.run_for(n).halted());
        assert(boundaries(base) + boundaries(t.run_for(n).stack) <= RECURSION_LIMIT);
        lemma_step_under(u, base);
    } else {
        assert(t.under(base).run_for(0) == t.under(base));
    }
}

/// The position of the topmost frame of a handler with an arm for `tag`.
pub open spec fn handler_position(stack: Seq<Frame>, tag: Seq<char>) -> int {
    let (h, a) = find_handler(stack, tag)->0;
    h
}

/// The arm of a handler, run alone: the state in which the arm of the
/// topmost handler for `tag` starts when `payload` is sent, with nothing
/// below it on the stack.
pub open spec fn arm_alone<'a>(s: State<'a>, tag: &'a String, payload: Value) -> State<'a> {
    let (h, a) = find_handler(s.stack, tag@)->0;
    let arm = s.stack[h]->Handle_node.match_arms@[a];
    s.suspend(h, &arm.param, payload).with_stack(Seq::empty()).run(
        &*arm.block,
        0,
        s.scopes.len() as usize,
    )
}

/// The value of a handler's arm is the value of the handle expression. When
/// a `send` is taken by a handler, and the arm's block, run alone, comes to
/// a value after `n` steps, then the evaluation comes after the same `n`
/// steps to the state in which that value is delivered to what waited for
/// the handle expression: the frames below the handler's frame. The
/// computation that the `send` suspended is not among them; unless the arm
/// resumed it, nothing of it has run.
pub proof fn lemma_arm_value<'a>(s: State<'a>, tag: &'a String, payload: Value, n: nat)
    requires
        s.valid(),
        find_handler(s.stack, tag@) is Some,
        arm_alone(s, tag, payload).proceeds(n),
        arm_alone(s, tag, payload).run_for(n).returned(),
        arm_alone(s, tag, payload).stays_within(s.stack.take(handler_position(s.stack, tag@)), n),
    ensures
        ({
            let (h, a) = find_handler(s.stack, tag@)->0;
            let end = arm_alone(s, tag, payload).run_for(n);
            &&& 0 <= h < s.stack.len()
            &&& s.perform(tag, payload).run_for(n) == end.under(s.stack.take(h))
            &&& s.perform(tag, payload).run_for(n).control == end.control
            &&& s.perform(tag, payload).run_for(n).stack == s.stack.take(h)
        }),
{
    lemma_innermost_handler(s.stack, tag@);
    let (h, a) = find_handler(s.stack, tag@)->0;
    let arm = s.stack[h]->Handle_node.match_arms@[a];
    let base = s.stack.take(h);
    let started = s.suspend(h, &arm.param, payload);
    let alone = started.with_stack(Seq::empty());
    let t0 = arm_alone(s, tag, payload);
    assert(base + Seq::<Frame<'a>>::empty() =~= base);
    assert(alone.under(base) == started);
    assert(t0 == t0.run_for(0));
    assert(!t0.halted());
    lemma_under_run(alone, base, &*arm.block, 0, s.scopes.len() as usize);
    assert(s.perform(tag, payload) == t0.under(base));
    assert(alone.formed()) by {
        lemma_shaped_skip(s.stack, h);
        assert forall|k: int| 0 <= k < alone.conts.len() implies shaped(#[trigger] alone.conts[k])
            && alone.conts[k].len() > 0 && alone.conts[k][0] is Handle by {
            if k < s.conts.len() {
                assert(shaped(s.conts[k]));
            }
        }
    }
    lemma_run_formed(alone, 0);
    lemma_formed_block(alone, &*arm.block, 0, s.scopes.len() as usize);
    lemma_run_under(t0, base, n);
    assert(base + Seq::<Frame<'a>>::empty() =~= base);
}

// ---- evaluation in pieces -------------------------------------------------------

/// Running `m` steps and then `n` is running `m + n`.
pub proof fn lemma_run_add(s: State, m: nat, n: nat)
    ensures
        s.run_for(m + n) == s.run_for(m).run_for(n),
    decreases n,
{
    if n > 0 {
        lemma_run_add(s, m, (n - 1) as nat);
        lemma_run_one_more(s, (m + n - 1) as nat);
        lemma_run_one_more(s.run_for(m), (n - 1) as nat);
    }
}

impl<'a> State<'a> {
    /// The state in which `expr` is evaluated alone: with this store and
    /// with nothing waiting for its value.
    pub open spec fn alone(self, expr: &'a Expression, env: usize) -> Self {
        self.with_stack(Seq::empty()).eval(expr, env)
    }

    /// Whether the evaluation that starts here comes, after `n` steps and not
    /// before, to the value `v` with nothing left on the stack, and handles
    /// itself whatever it sends on the way.
    pub open spec fn comes_to(self, n: nat, v: Value) -> bool {
        &&& self.proceeds(n)
        &&& self.run_for(n).returned()
        &&& self.run_for(n).control == Control::Deliver(v)
    }
}

/// An expression is evaluated in the same way wherever it stands. If its
/// evaluation alone comes to a value after `n` steps, handling itself
/// whatever it sends, then its evaluation with any frames waiting comes
/// after `n` steps to the state in which that value is delivered to those
/// frames, and the store is as the evaluation alone leaves it.
pub proof fn lemma_eval_anywhere<'a>(
    s: State<'a>,
    expr: &'a Expression,
    env: usize,
    n: nat,
    v: Value,
)
    requires
        s.conts_formed(),
        s.alone(expr, env).comes_to(n, v),
        s.alone(expr, env).stays_within(s.stack, n),
    ensures
        s.eval(expr, env).run_for(n) == s.alone(expr, env).run_for(n).with_stack(s.stack),
        s.eval(expr, env).run_for(n).control == Control::Deliver(v),
{
    let t = s.alone(expr, env);
    assert(s.stack + Seq::<Frame<'a>>::empty() =~= s.stack);
    assert(s.eval(expr, env) == t.under(s.stack));
    assert(shaped(Seq::<Frame>::empty()));
    lemma_run_under(t, s.stack, n);
    assert(t.run_for(n).stack =~= Seq::empty());
    assert(t.run_for(n).under(s.stack) == t.run_for(n).with_stack(s.stack));
}

/// A binary operator evaluates its left operand, then its right operand in
/// the store that the left one has left, then combines the two values. If
/// the left operand alone comes to `a` after `m` steps, and after it the
/// right operand alone comes to `b` after `n` steps, then the expression
/// comes after `m + n + 3` steps to what the operator makes of `a` and `b`:
/// its value, delivered to what waited for the expression, or its error.
pub proof fn lemma_binary_operator<'a>(
    s: State<'a>,
    op: BinaryOp,
    left: &'a Expression,
    right: &'a Expression,
    env: usize,
    m: nat,
    a: Value,
    n: nat,
    b: Value,
)
    requires
        s.conts_formed(),
        s.alone(left, env).comes_to(m, a),
        s.alone(left, env).stays_within(s.stack, m),
        s.alone(left, env).run_for(m).alone(right, env).comes_to(n, b),
        s.alone(left, env).run_for(m).alone(right, env).stays_within(s.stack, n),
    ensures
        ({
            let after = s.alone(left, env).run_for(m).alone(right, env).run_for(n).with_stack(
                s.stack,
            );
            s.push(Frame::Left { op, right, env }).eval(left, env).run_for(m + n + 2)
                == after.finish(after.binary(op, a, b))
        }),
{
    let first = Frame::Left { op, right, env };
    let second = Frame::Right { op, left: a };
    let s1 = s.push(first);
    // The left operand, with the first frame waiting.
    assert(s1.alone(left, env) == s.alone(left, env));
    lemma_boundaries_push(s.stack, first);
    lemma_eval_anywhere(s1, left, env, m, a);
    let mid = s.alone(left, env).run_for(m);
    let s2 = mid.with_stack(s1.stack);
    assert(s1.eval(left, env).run_for(m) == s2);
    // The first frame takes the value and asks for the right operand.
    assert(s2.stack.drop_last() =~= s.stack);
    let s3 = mid.with_stack(s.stack).push(second);
    assert(s2.step() == s3.eval(right, env));
    // The right operand, with the second frame waiting.
    assert(shaped(Seq::<Frame>::empty()));
    lemma_run_formed(s.alone(left, env), m);
    assert(s3.alone(right, env) == mid.alone(right, env));
    lemma_boundaries_push(s.stack, second);
    lemma_eval_anywhere(s3, right, env, n, b);
    let end = mid.alone(right, env).run_for(n);
    let s4 = end.with_stack(s3.stack);
    assert(s3.eval(right, env).run_for(n) == s4);
    // The second frame takes the value and combines.
    assert(s4.stack.drop_last() =~= s.stack);
    let after = end.with_stack(s.stack);
    lemma_under_binary(end.with_stack(Seq::empty()), s.stack, op, a, b);
    assert(s4.step() == after.finish(after.binary(op, a, b))) by {
        lemma_under_binary(end.with_stack(Seq::empty()), s4.stack.drop_last(), op, a, b);
        lemma_under_binary(end.with_stack(Seq::empty()), end.stack, op, a, b);
    }
    // The steps in a row.
    lemma_run_add(s1.eval(left, env), m, n + 2);
    lemma_run_add(s2, 1, n + 1);
    assert(s2.run_for(1) == s2.step()) by {
        lemma_run_one_more(s2, 0);
    }
    lemma_run_add(s3.eval(right, env), n, 1);
    assert(s4.run_for(1) == s4.step()) by {
        lemma_run_one_more(s4, 0);
    }
}

/// The operator and operands of a boolean, comparison or numeric expression.
pub open spec fn operator_of<'a>(expr: &'a Expression) -> Option<
    (BinaryOp, &'a Expression, &'a Expression),
> {
    match *expr {
        Expression::Boolean(b) => Some((BinaryOp::Boolean(b.operator), &*b.left, &*b.right)),
        Expression::Comparison(c) => Some(
            (BinaryOp::Comparison(c.operator), &*c.left, &*c.right),
        ),
        Expression::Numeric(n) => Some((BinaryOp::Numeric(n.operator), &*n.left, &*n.right)),
        _ => None,
    }
}

/// `lemma_binary_operator`, said of the expression: a boolean, comparison or
/// numeric expression whose operands alone come to `a` and `b`, the left one
/// after `m` steps and then the right one after `n`, comes after
/// `m + n + 3` steps to what its operator makes of `a` and `b`.
pub proof fn lemma_binary_expression<'a>(
    s: State<'a>,
    expr: &'a Expression,
    env: usize,
    m: nat,
    a: Value,
    n: nat,
    b: Value,
)
    requires
        operator_of(expr) is Some,
        s.conts_formed(),
        ({
            let (op, left, right) = operator_of(expr)->0;
            &&& s.alone(left, env).comes_to(m, a)
            &&& s.alone(left, env).stays_within(s.stack, m)
            &&& s.alone(left, env).run_for(m).alone(right, env).comes_to(n, b)
            &&& s.alone(left, env).run_for(m).alone(right, env).stays_within(s.stack, n)
        }),
    ensures
        ({
            let (op, left, right) = operator_of(expr)->0;
            let after = s.alone(left, env).run_for(m).alone(right, env).run_for(n).with_stack(
                s.stack,
            );
            s.eval(expr, env).run_for(m + n + 3) == after.finish(after.binary(op, a, b))
        }),
{
    let (op, left, right) = operator_of(expr)->0;
    let start = s.eval(expr, env);
    assert(start.step() == s.push(Frame::Left { op, right, env }).eval(left, env));
    lemma_binary_operator(s, op, left, right, env, m, a, n, b);
    lemma_run_add(start, 1, m + n + 2);
    lemma_run_one_more(start, 0);
}

/// A conditional tries its first condition and goes by its value. If the
/// condition alone comes to `c` after `m` steps, then the conditional comes
/// after `m + 2` steps to this: where `c` is true, the first body runs in a
/// new scope; where `c` is false, the conditions after the first are tried,
/// and where there is none the `else` body runs in a new scope, or without
/// one the conditional has the value null; where `c` is no boolean, the
/// evaluation fails with a type mismatch.
pub proof fn lemma_conditional<'a>(
    s: State<'a>,
    expr: &'a Expression,
    env: usize,
    m: nat,
    c: Value,
)
    requires
        *expr is If,
        expr->If_0.ifs@.len() > 0,
        s.conts_formed(),
        s.alone(&*expr->If_0.ifs@[0].cond, env).comes_to(m, c),
        s.alone(&*expr->If_0.ifs@[0].cond, env).stays_within(s.stack, m),
    ensures
        ({
            let node = &expr->If_0;
            let after = s.alone(&*node.ifs@[0].cond, env).run_for(m).with_stack(s.stack);
            s.eval(expr, env).run_for(m + 2) == match c {
                Value::Bool(true) => after.enter(&*node.ifs@[0].body, env),
                Value::Bool(false) => if node.ifs@.len() > 1 {
                    after.branch(node, 1, env)
                } else {
                    match node.else_body {
                        Some(b) => after.enter(&*b, env),
                        None => after.deliver(Value::Null),
                    }
                },
                _ => after.fail(EvalError::TypeMismatch),
            }
        }),
{
    let node = &expr->If_0;
    let cond = &*node.ifs@[0].cond;
    let f = Frame::If { node, body: &*node.ifs@[0].body, next: 1, env };
    let start = s.eval(expr, env);
    assert(node.ifs@.len() == node.ifs.len());
    let s1 = s.push(f);
    assert(start.step() == s1.eval(cond, env));
    assert(s1.alone(cond, env) == s.alone(cond, env));
    lemma_boundaries_push(s.stack, f);
    lemma_eval_anywhere(s1, cond, env, m, c);
    let mid = s.alone(cond, env).run_for(m);
    let s2 = mid.with_stack(s1.stack);
    assert(s2.stack.drop_last() =~= s.stack);
    let after = mid.with_stack(s.stack);
    assert(s2.step() == after.apply_frame(f, c));
    lemma_run_add(start, 1, m + 1);
    lemma_run_one_more(start, 0);
    lemma_run_add(s1.eval(cond, env), m, 1);
    lemma_run_one_more(s2, 0);
}

/// `break` with an expression ends the innermost loop in progress with the
/// value of the expression. If the expression alone comes to `v` after `m`
/// steps, then the `break` comes after `m + 2` steps to the state in which
/// `v` is delivered to what waited for the value of the innermost loop;
/// whatever was waiting inside the loop is dropped. Without a loop in
/// progress the evaluation fails.
pub proof fn lemma_break_with_value<'a>(
    s: State<'a>,
    expr: &'a Expression,
    env: usize,
    m: nat,
    v: Value,
)
    requires
        *expr is Break,
        expr->Break_0.expr is Some,
        s.conts_formed(),
        s.alone(&*expr->Break_0.expr->0, env).comes_to(m, v),
        s.alone(&*expr->Break_0.expr->0, env).stays_within(s.stack, m),
    ensures
        ({
            let after = s.alone(&*expr->Break_0.expr->0, env).run_for(m).with_stack(s.stack);
            s.eval(expr, env).run_for(m + 2) == match last_loop(s.stack) {
                Some(i) => after.with_stack(s.stack.take(i)).deliver(v),
                None => after.fail(EvalError::NoEnclosingLoop),
            }
        }),
{
    let inner = &*expr->Break_0.expr->0;
    let start = s.eval(expr, env);
    let s1 = s.push(Frame::Break);
    assert(start.step() == s1.eval(inner, env));
    assert(s1.alone(inner, env) == s.alone(inner, env));
    lemma_boundaries_push(s.stack, Frame::Break);
    lemma_eval_anywhere(s1, inner, env, m, v);
    let mid = s.alone(inner, env).run_for(m);
    let s2 = mid.with_stack(s1.stack);
    assert(s2.stack.drop_last() =~= s.stack);
    let after = mid.with_stack(s.stack);
    assert(s2.step() == after.leave_loop(v));
    lemma_run_add(start, 1, m + 1);
    lemma_run_one_more(start, 0);
    lemma_run_add(s1.eval(inner, env), m, 1);
    lemma_run_one_more(s2, 0);
}

/// A handle expression whose guarded expression needs no handler outside
/// itself has the value of the guarded expression. If the guarded expression
/// alone comes to `v` after `m` steps, then the handle expression comes to
/// `v` after `m + 2` steps, and its arms have not run.
pub proof fn lemma_handle_unused<'a>(
    s: State<'a>,
    expr: &'a Expression,
    env: usize,
    m: nat,
    v: Value,
)
    requires
        *expr is Handle,
        s.conts_formed(),
        s.alone(&*expr->Handle_0.expr, env).comes_to(m, v),
        s.alone(&*expr->Handle_0.expr, env).stays_within(s.stack, m),
    ensures
        s.eval(expr, env).run_for(m + 2) == s.alone(&*expr->Handle_0.expr, env).run_for(
            m,
        ).with_stack(s.stack),
        s.eval(expr, env).run_for(m + 2).control == Control::Deliver(v),
{
    let inner = &*expr->Handle_0.expr;
    let f = Frame::Handle { node: &expr->Handle_0, env };
    let start = s.eval(expr, env);
    let s1 = s.push(f);
    assert(start.step() == s1.eval(inner, env));
    assert(s1.alone(inner, env) == s.alone(inner, env));
    lemma_boundaries_push(s.stack, f);
    lemma_eval_anywhere(s1, inner, env, m, v);
    let mid = s.alone(inner, env).run_for(m);
    let s2 = mid.with_stack(s1.stack);
    assert(s2.stack.drop_last() =~= s.stack);
    assert(s2.step() == mid.with_stack(s.stack));
    lemma_run_add(start, 1, m + 1);
    lemma_run_one_more(start, 0);
    lemma_run_add(s1.eval(inner, env), m, 1);
    lemma_run_one_more(s2, 0);
}

/// The value of a `continue` is the value of the computation that it
/// resumes. If the suspended computation, taken alone and given `w` as the
/// value of its `send`, comes to `r` after `m` steps, then resuming it with
/// `w` comes after `m + 1` steps to the state in which `r` is delivered to
/// what waited for the `continue`, and the store is as the resumed
/// computation leaves it.
pub proof fn lemma_continue_value<'a>(s: State<'a>, env: usize, w: Value, m: nat, r: Value)
    requires
        s.conts_formed(),
        s.continuation(env) is Some,
        s.with_stack(s.conts[s.continuation(env)->0 as int]).deliver(w).comes_to(m, r),
        s.with_stack(s.conts[s.continuation(env)->0 as int]).deliver(w).stays_within(
            s.stack.push(Frame::Resumed),
            m,
        ),
    ensures
        ({
            let alone = s.with_stack(s.conts[s.continuation(env)->0 as int]).deliver(w);
            &&& s.resume(env, w).run_for(m + 1) == alone.run_for(m).with_stack(s.stack)
            &&& s.resume(env, w).run_for(m + 1).control == Control::Deliver(r)
        }),
{
    lemma_continuation_good(s, env);
    let k = s.continuation(env)->0;
    let piece = s.conts[k as int];
    let base = s.stack.push(Frame::Resumed);
    let alone = s.with_stack(piece).deliver(w);
    assert(alone == alone.run_for(0));
    lemma_boundaries_push(s.stack, Frame::Resumed);
    assert(s.resume(env, w) == alone.under(base));
    assert(shaped(piece));
    lemma_run_under(alone, base, m);
    let end = alone.run_for(m);
    assert(end.stack =~= Seq::empty());
    let s2 = end.under(base);
    assert(s2.stack =~= base);
    assert(s2.stack.drop_last() =~= s.stack);
    assert(s2.step() == end.with_stack(s.stack));
    lemma_run_add(s.resume(env, w), m, 1);
    lemma_run_one_more(s2, 0);
}

// ---- statements -----------------------------------------------------------------

/// A block runs its statements in order and then has the value of its
/// trailing expression, or null without one.
pub proof fn lemma_block_end<'a>(s: State<'a>, block: &'a Block, idx: usize, env: usize)
    requires
        idx >= block.statements@.len(),
    ensures
        s.run(block, idx, env) == match block.expression {
            Some(e) => s.eval(&*e, env),
            None => s.deliver(Value::Null),
        },
{
}

/// Running a block does not ask what was being done before.
proof fn lemma_run_ignores_control<'a>(
    x: State<'a>,
    block: &'a Block,
    idx: usize,
    env: usize,
    control: Control<'a>,
)
    ensures
        (State { control, ..x }).run(block, idx, env) == x.run(block, idx, env),
{
    let y = State { control, ..x };
    if idx < block.statements@.len() {
        let f = Frame::Block { block, next: (idx + 1) as usize, env };
        match *block.statements@[idx as int] {
            Statement::Assignment(a) => {
                lemma_chain_ignores_control(x.push(f), &a.location, env, Some(&a), control);
                assert(y.push(f) == (State { control, ..x.push(f) }));
            },
            _ => {},
        }
    }
}

proof fn lemma_chain_ignores_control<'a>(
    x: State<'a>,
    chain: &'a LocationChain,
    env: usize,
    assign: Option<&'a Assignment>,
    control: Control<'a>,
)
    ensures
        (State { control, ..x }).start_chain(chain, env, assign) == x.start_chain(
            chain,
            env,
            assign,
        ),
{
    let y = State { control, ..x };
    match chain.base {
        LocationChainBase::Ident(name) => {
            lemma_store_reads(x, y, env, name@);
        },
        _ => {},
    }
}

/// What is read from the store depends on the store only.
proof fn lemma_store_reads<'a>(x: State<'a>, y: State<'a>, env: usize, name: Seq<char>)
    requires
        x.scopes == y.scopes,
        x.conts == y.conts,
    ensures
        x.resolve(env, name) == y.resolve(env, name),
        x.lookup(env, name) == y.lookup(env, name),
    decreases env,
{
    match x.parent_of(env) {
        Some(p) => lemma_store_reads(x, y, p, name),
        None => {},
    }
}

/// The `let` that is statement `idx` of `block`.
pub open spec fn let_at<'a>(block: &'a Block, idx: usize) -> &'a LetStatement {
    &block.statements@[idx as int]->Let_0
}

/// The expression that is statement `idx` of `block`.
pub open spec fn expression_at<'a>(block: &'a Block, idx: usize) -> &'a Expression {
    &*block.statements@[idx as int]->Expression_0.expr
}

/// The assignment that is statement `idx` of `block`.
pub open spec fn assignment_at<'a>(block: &'a Block, idx: usize) -> &'a Assignment {
    &block.statements@[idx as int]->Assignment_0
}

proof fn lemma_step_to_frame<'a>(x: State<'a>, v: Value)
    requires
        x.control == Control::Deliver(v),
        x.stack.len() > 0,
    ensures
        x.step() == x.with_stack(x.stack.drop_last()).apply_frame(x.stack.last(), v),
{
}

proof fn lemma_frame_of_statement<'a>(
    x: State<'a>,
    block: &'a Block,
    next: usize,
    name: &'a String,
    scope: usize,
    slot: usize,
    env: usize,
    v: Value,
)
    ensures
        x.apply_frame(Frame::Block { block, next, env }, v) == x.run(block, next, env),
        x.apply_frame(Frame::Let { name, env }, v) == x.declare(env, name, v).deliver(Value::Null),
        x.apply_frame(Frame::StoreSlot { scope, slot }, v) == x.store_slot(scope, slot, v).deliver(
            Value::Null,
        ),
{
}

/// `let` binds in the scope in which the block runs. If the expression of
/// the `let` alone comes to `v` after `m` steps, then after `m + 2` steps
/// the name is bound to `v` in that scope, in place of any binding that it
/// had there, and the block goes on with its next statement.
#[verifier::rlimit(40)]
pub proof fn lemma_let_statement<'a>(
    s: State<'a>,
    block: &'a Block,
    idx: usize,
    env: usize,
    m: nat,
    v: Value,
)
    requires
        idx < block.statements@.len(),
        *block.statements@[idx as int] is Let,
        s.conts_formed(),
        s.alone(&*let_at(block, idx).expr, env).comes_to(m, v),
        s.alone(&*let_at(block, idx).expr, env).stays_within(s.stack, m),
    ensures
        ({
            let l = let_at(block, idx);
            let after = s.alone(&*l.expr, env).run_for(m).with_stack(s.stack);
            s.run(block, idx, env).run_for(m + 2) == after.declare(env, &l.ident, v).run(
                block,
                (idx + 1) as usize,
                env,
            )
        }),
{
    let l = let_at(block, idx);
    let inner = &*l.expr;
    assert(block.statements@.len() == block.statements.len());
    let next = (idx + 1) as usize;
    let f = Frame::Block { block, next, env };
    let g = Frame::Let { name: &l.ident, env };
    let s1 = s.push(f).push(g);
    assert(s.run(block, idx, env) == s1.eval(inner, env));
    assert(s1.alone(inner, env) == s.alone(inner, env));
    lemma_boundaries_push(s.stack, f);
    lemma_boundaries_push(s.stack.push(f), g);
    lemma_eval_anywhere(s1, inner, env, m, v);
    let mid = s.alone(inner, env).run_for(m);
    let s2 = mid.with_stack(s1.stack);
    assert(s2.stack.drop_last() =~= s.stack.push(f));
    let after = mid.with_stack(s.stack);
    let s3 = after.push(f).declare(env, &l.ident, v).deliver(Value::Null);
    lemma_step_to_frame(s2, v);
    lemma_frame_of_statement(after.push(f), block, next, &l.ident, 0, 0, env, v);
    assert(s2.with_stack(s2.stack.drop_last()) == after.push(f));
    assert(s2.step() == s3);
    assert(s3.stack.drop_last() =~= s.stack);
    lemma_step_to_frame(s3, Value::Null);
    let bound = after.declare(env, &l.ident, v);
    lemma_frame_of_statement(bound, block, next, &l.ident, 0, 0, env, Value::Null);
    assert(s3.with_stack(s3.stack.drop_last()) == bound.deliver(Value::Null));
    assert(bound.deliver(Value::Null).run(block, next, env) == bound.run(block, next, env)) by {
        lemma_run_ignores_control(bound, block, next, env, Control::Deliver(Value::Null));
    }
    lemma_frame_of_statement(
        bound.deliver(Value::Null),
        block,
        next,
        &l.ident,
        0,
        0,
        env,
        Value::Null,
    );
    assert(s3.step() == bound.run(block, next, env));
    lemma_run_add(s1.eval(inner, env), m, 2);
    lemma_run_add(s2, 1, 1);
    lemma_run_one_more(s2, 0);
    lemma_run_one_more(s3, 0);
}

/// A statement that is an expression is evaluated and its value is dropped.
/// If the expression alone comes to a value after `m` steps, then after
/// `m + 1` steps the block goes on with its next statement.
pub proof fn lemma_expression_statement<'a>(
    s: State<'a>,
    block: &'a Block,
    idx: usize,
    env: usize,
    m: nat,
    v: Value,
)
    requires
        idx < block.statements@.len(),
        *block.statements@[idx as int] is Expression,
        s.conts_formed(),
        s.alone(expression_at(block, idx), env).comes_to(m, v),
        s.alone(expression_at(block, idx), env).stays_within(s.stack, m),
    ensures
        ({
            let inner = expression_at(block, idx);
            let after = s.alone(inner, env).run_for(m).with_stack(s.stack);
            s.run(block, idx, env).run_for(m + 1) == after.run(block, (idx + 1) as usize, env)
        }),
{
    let inner = expression_at(block, idx);
    assert(block.statements@.len() == block.statements.len());
    let next = (idx + 1) as usize;
    let f = Frame::Block { block, next, env };
    let s1 = s.push(f);
    assert(s.run(block, idx, env) == s1.eval(inner, env));
    assert(s1.alone(inner, env) == s.alone(inner, env));
    lemma_boundaries_push(s.stack, f);
    lemma_eval_anywhere(s1, inner, env, m, v);
    let mid = s.alone(inner, env).run_for(m);
    let s2 = mid.with_stack(s1.stack);
    assert(s2.stack.drop_last() =~= s.stack);
    assert(s2.step() == mid.with_stack(s.stack).run(block, next, env));
    lemma_run_add(s1.eval(inner, env), m, 1);
    lemma_run_one_more(s2, 0);
}

/// An assignment to a bare name writes to the innermost binding of the name
/// that is visible when the statement starts. If there is one, and the
/// assigned expression alone comes to `v` after `m` steps, then after
/// `m + 2` steps that binding has the value `v` and the block goes on with
/// its next statement. If there is none, the evaluation fails at once.
#[verifier::rlimit(40)]
pub proof fn lemma_assignment_statement<'a>(
    s: State<'a>,
    block: &'a Block,
    idx: usize,
    env: usize,
    m: nat,
    v: Value,
)
    requires
        idx < block.statements@.len(),
        *block.statements@[idx as int] is Assignment,
        assignment_at(block, idx).location.base is Ident,
        assignment_at(block, idx).location.parts@.len() == 0,
        s.conts_formed(),
        s.alone(&*assignment_at(block, idx).expr, env).comes_to(m, v),
        s.alone(&*assignment_at(block, idx).expr, env).stays_within(s.stack, m),
    ensures
        ({
            let a = assignment_at(block, idx);
            let name = a.location.base->Ident_0@;
            let after = s.alone(&*a.expr, env).run_for(m).with_stack(s.stack);
            match s.resolve(env, name) {
                Some((scope, slot)) => s.run(block, idx, env).run_for(m + 2) == after.store_slot(
                    scope,
                    slot,
                    v,
                ).run(block, (idx + 1) as usize, env),
                None => s.run(block, idx, env) == s.fail(EvalError::UndefinedVariable),
            }
        }),
{
    let a = assignment_at(block, idx);
    let name = a.location.base->Ident_0@;
    let inner = &*a.expr;
    assert(block.statements@.len() == block.statements.len());
    let next = (idx + 1) as usize;
    let f = Frame::Block { block, next, env };
    lemma_under_resolve(s.with_stack(Seq::empty()), s.stack.push(f), env, name);
    lemma_under_resolve(s.with_stack(Seq::empty()), s.stack, env, name);
    assert(s.with_stack(Seq::empty()).under(s.stack.push(f)) == s.push(f)) by {
        assert(s.stack.push(f) + Seq::<Frame<'a>>::empty() =~= s.stack.push(f));
    }
    assert(s.with_stack(Seq::empty()).under(s.stack) == s) by {
        assert(s.stack + Seq::<Frame<'a>>::empty() =~= s.stack);
    }
    match s.resolve(env, name) {
        Some((scope, slot)) => {
            let g = Frame::StoreSlot { scope, slot };
            let s1 = s.push(f).push(g);
            assert(s.run(block, idx, env) == s1.eval(inner, env));
            assert(s1.alone(inner, env) == s.alone(inner, env));
            lemma_boundaries_push(s.stack, f);
            lemma_boundaries_push(s.stack.push(f), g);
            lemma_eval_anywhere(s1, inner, env, m, v);
            let mid = s.alone(inner, env).run_for(m);
            let s2 = mid.with_stack(s1.stack);
            assert(s2.stack.drop_last() =~= s.stack.push(f));
            let after = mid.with_stack(s.stack);
            let s3 = after.push(f).store_slot(scope, slot, v).deliver(Value::Null);
            lemma_step_to_frame(s2, v);
            lemma_frame_of_statement(
                after.push(f),
                block,
                next,
                &a.location.base->Ident_0,
                scope,
                slot,
                env,
                v,
            );
            assert(s2.with_stack(s2.stack.drop_last()) == after.push(f));
            assert(s2.step() == s3);
            assert(s3.stack.drop_last() =~= s.stack);
            lemma_step_to_frame(s3, Value::Null);
            let stored = after.store_slot(scope, slot, v);
            assert(s3.with_stack(s3.stack.drop_last()) == stored.deliver(Value::Null));
            lemma_run_ignores_control(stored, block, next, env, Control::Deliver(Value::Null));
            lemma_frame_of_statement(
                stored.deliver(Value::Null),
                block,
                next,
                &a.location.base->Ident_0,
                scope,
                slot,
                env,
                Value::Null,
            );
            assert(s3.step() == stored.run(block, next, env));
            lemma_run_add(s1.eval(inner, env), m, 2);
            lemma_run_add(s2, 1, 1);
            lemma_run_one_more(s2, 0);
            lemma_run_one_more(s3, 0);
        },
        None => {},
    }
}

} // verus!
