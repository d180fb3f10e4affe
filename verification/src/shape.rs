//! The shape of the stack. A call, an object literal and a list literal keep
//! the values that they have gathered so far in frames of their own, directly
//! below the frame that gathers. A well-shaped stack is one in which every
//! held value belongs to such a run, every run is as long as its frame says,
//! and a call's run starts with the closure that is called.
//! `lemma_step_formed` shows that steps keep the stack, and every suspended
//! piece of one, well-shaped.

use crate::ast::{
    Assignment, Block, Expression, FunctionInvocation, IfExpression, List, Location, LocationChain,
    LocationChainBase, Object, Statement,
};
use crate::laws::lemma_innermost_handler;
use crate::machine::{
    below_top, bind_names, find_handler, held, hold_all, last_loop, top_values, BinaryOp, Control,
    Frame, State,
};
use crate::sound::{lemma_continuation_good, lemma_last_loop};
use crate::value::Value;
use vstd::prelude::*;

verus! {

/// Whether the top `n` frames of `stack` all hold a value.
pub open spec fn all_held(stack: Seq<Frame>, n: nat) -> bool {
    &&& n <= stack.len()
    &&& forall|i: int| stack.len() - n <= i < stack.len() ==> (#[trigger] stack[i]) is Held
}

/// How many held values `f` keeps directly below itself.
pub open spec fn gathered(f: Frame) -> nat {
    match f {
        Frame::Arg { call, next, env } => next as nat,
        Frame::Pair { node, next, env } => if next >= 1 {
            (next - 1) as nat
        } else {
            0
        },
        Frame::Elem { node, next, env, count, spread } => count as nat,
        _ => 0,
    }
}

/// Whether `f` neither holds a value nor gathers any.
pub open spec fn plain(f: Frame) -> bool {
    !(f is Held) && !(f is Arg) && !(f is Pair) && !(f is Elem)
}

/// Whether `f` may stand on `below`: what it has gathered is there.
pub open spec fn frame_fits(f: Frame, below: Seq<Frame>) -> bool {
    match f {
        Frame::Held(_) => false,
        Frame::Arg { call, next, env } => {
            &&& 1 <= next <= call.parameters@.len()
            &&& all_held(below, next as nat)
            &&& held(below[below.len() - next]) is Closure
        },
        Frame::Pair { node, next, env } => {
            &&& 1 <= next <= node.pairs@.len()
            &&& all_held(below, (next - 1) as nat)
        },
        Frame::Elem { node, next, env, count, spread } => all_held(below, count as nat),
        _ => true,
    }
}

/// Whether `stack` is well-shaped.
pub open spec fn shaped(stack: Seq<Frame>) -> bool
    decreases stack.len(),
{
    if stack.len() == 0 {
        true
    } else {
        let below = stack.drop_last();
        if frame_fits(stack.last(), below) {
            shaped(below.take(below.len() - gathered(stack.last())))
        } else {
            false
        }
    }
}

/// Whether the top `n` frames of `stack` hold values and what lies below
/// them is well-shaped.
pub open spec fn gathering(stack: Seq<Frame>, n: nat) -> bool {
    all_held(stack, n) && shaped(stack.take(stack.len() - n))
}

impl<'a> State<'a> {
    /// Whether every suspended computation is well-shaped and starts with the
    /// frame of a handler.
    pub open spec fn conts_formed(self) -> bool {
        forall|k: int|
            0 <= k < self.conts.len() ==> shaped(#[trigger] self.conts[k]) && self.conts[k].len()
                > 0 && self.conts[k][0] is Handle
    }

    /// Whether the stack and every suspended computation are well-shaped.
    pub open spec fn formed(self) -> bool {
        shaped(self.stack) && self.conts_formed()
    }
}

pub proof fn lemma_shaped_plain(stack: Seq<Frame>, f: Frame)
    requires
        shaped(stack),
        plain(f),
    ensures
        shaped(stack.push(f)),
{
    let after = stack.push(f);
    assert(after.drop_last() =~= stack);
    assert(stack.take(stack.len() - 0) =~= stack);
}

pub proof fn lemma_shaped_gatherer(stack: Seq<Frame>, f: Frame)
    requires
        frame_fits(f, stack),
        gathering(stack, gathered(f)),
    ensures
        shaped(stack.push(f)),
{
    assert(stack.push(f).drop_last() =~= stack);
}

/// A plain frame on top of a well-shaped stack stands on a well-shaped stack.
pub proof fn lemma_shaped_below_plain(stack: Seq<Frame>)
    requires
        shaped(stack),
        stack.len() > 0,
        plain(stack.last()),
    ensures
        shaped(stack.drop_last()),
{
    let below = stack.drop_last();
    assert(below.take(below.len() - 0) =~= below);
}

/// Cutting a well-shaped stack just above a frame that holds no value leaves
/// a well-shaped stack; so does cutting just below a plain frame.
pub proof fn lemma_shaped_take(stack: Seq<Frame>, i: int)
    requires
        shaped(stack),
        0 <= i < stack.len(),
        !(stack[i] is Held),
    ensures
        shaped(stack.take(i + 1)),
        plain(stack[i]) ==> shaped(stack.take(i)),
    decreases stack.len(),
{
    let below = stack.drop_last();
    if i == stack.len() - 1 {
        assert(stack.take(i + 1) =~= stack);
        assert(stack.take(i) =~= below);
        if plain(stack[i]) {
            lemma_shaped_below_plain(stack);
        }
    } else {
        let k = gathered(stack.last());
        let lower = below.take(below.len() - k);
        if i >= below.len() - k {
            assert(below[i] is Held);
        }
        assert(lower[i] == stack[i]);
        lemma_shaped_take(lower, i);
        assert(lower.take(i + 1) =~= stack.take(i + 1));
        assert(lower.take(i) =~= stack.take(i));
    }
}

/// The piece of a well-shaped stack from a plain frame up is well-shaped.
pub proof fn lemma_shaped_skip(stack: Seq<Frame>, h: int)
    requires
        shaped(stack),
        0 <= h < stack.len(),
        plain(stack[h]),
    ensures
        shaped(stack.skip(h)),
    decreases stack.len(),
{
    let f = stack.last();
    let below = stack.drop_last();
    let piece = stack.skip(h);
    if h == stack.len() - 1 {
        assert(piece.drop_last() =~= Seq::empty());
        assert(piece.drop_last().take(0) =~= Seq::empty());
        assert(shaped(Seq::<Frame>::empty()));
        assert(piece.last() == f);
        assert(gathered(f) == 0);
    } else {
        let k = gathered(f);
        let lower = below.take(below.len() - k);
        if h >= below.len() - k {
            assert(below[h] is Held);
        }
        let pb = below.skip(h);
        assert(piece.drop_last() =~= pb);
        assert(piece.last() == f);
        assert(all_held(pb, k)) by {
            assert forall|i: int| pb.len() - k <= i < pb.len() implies (
            #[trigger] pb[i]) is Held by {
                assert(below[h + i] is Held);
            }
        }
        assert(frame_fits(f, pb)) by {
            match f {
                Frame::Arg { call, next, env } => {
                    assert(pb[pb.len() - next] == below[below.len() - next]);
                },
                _ => {},
            }
        }
        assert(lower[h] == stack[h]);
        lemma_shaped_skip(lower, h);
        assert(pb.take(pb.len() - k) =~= lower.skip(h));
    }
}

/// A well-shaped stack on top of a well-shaped stack is a well-shaped stack.
pub proof fn lemma_shaped_add(a: Seq<Frame>, b: Seq<Frame>)
    requires
        shaped(a),
        shaped(b),
    ensures
        shaped(a + b),
    decreases b.len(),
{
    if b.len() == 0 {
        assert(a + b =~= a);
    } else {
        let f = b.last();
        let bb = b.drop_last();
        let k = gathered(f);
        let whole = a + b;
        let below = a + bb;
        assert(whole.drop_last() =~= below);
        assert(whole.last() == f);
        assert(all_held(below, k)) by {
            assert forall|i: int| below.len() - k <= i < below.len() implies (
            #[trigger] below[i]) is Held by {
                assert(bb[i - a.len()] is Held);
            }
        }
        assert(frame_fits(f, below)) by {
            match f {
                Frame::Arg { call, next, env } => {
                    assert(below[below.len() - next] == bb[bb.len() - next]);
                },
                _ => {},
            }
        }
        lemma_shaped_add(a, bb.take(bb.len() - k));
        assert(below.take(below.len() - k) =~= a + bb.take(bb.len() - k));
    }
}

/// Held values put on top of a run make a longer run.
pub proof fn lemma_gathering_more(stack: Seq<Frame>, n: nat, values: Seq<Value>)
    requires
        gathering(stack, n),
    ensures
        gathering(stack + hold_all(values), n + values.len()),
{
    let after = stack + hold_all(values);
    assert forall|i: int| after.len() - (n + values.len()) <= i < after.len() implies (
    #[trigger] after[i]) is Held by {
        if i < stack.len() {
            assert(stack[i] is Held);
        }
    }
    assert(after.take(after.len() - (n + values.len())) =~= stack.take(stack.len() - n));
}

pub proof fn lemma_gathering_one(stack: Seq<Frame>, n: nat, v: Value)
    requires
        gathering(stack, n),
    ensures
        gathering(stack.push(Frame::Held(v)), n + 1),
{
    let after = stack.push(Frame::Held(v));
    assert forall|i: int| after.len() - (n + 1) <= i < after.len() implies (
    #[trigger] after[i]) is Held by {
        if i < stack.len() {
            assert(stack[i] is Held);
        }
    }
    assert(after.take(after.len() - (n + 1)) =~= stack.take(stack.len() - n));
}

/// A well-shaped stack is a run of no values on a well-shaped stack.
pub proof fn lemma_gathering_none(stack: Seq<Frame>)
    requires
        shaped(stack),
    ensures
        gathering(stack, 0),
{
    assert(stack.take(stack.len() - 0) =~= stack);
}

/// Taking a run off the stack leaves what lay below it.
pub proof fn lemma_gathering_taken(stack: Seq<Frame>, n: nat)
    requires
        gathering(stack, n),
    ensures
        shaped(below_top(stack, n)),
        top_values(stack, n).len() == n,
{
}

// ---- the moves of a step ------------------------------------------------------

proof fn lemma_formed_walk<'a>(
    s: State<'a>,
    chain: &'a LocationChain,
    idx: usize,
    env: usize,
    assign: Option<&'a Assignment>,
    cur: Value,
    v: Value,
)
    requires
        s.formed(),
    ensures
        s.walk(chain, idx, env, assign, cur).formed(),
        s.walk_index(chain, idx, env, assign, cur, v).formed(),
{
    lemma_shaped_plain(s.stack, Frame::Chain { chain, next: idx, env, assign });
    match s.place(cur, v) {
        Ok((list, index)) => lemma_shaped_plain(s.stack, Frame::StoreElement { list, index }),
        Err(_) => {},
    }
    if idx < chain.parts@.len() {
        let next = (idx + 1) as usize;
        lemma_shaped_plain(s.stack, Frame::Chain { chain, next, env, assign });
        lemma_shaped_plain(s.stack, Frame::ChainIndex { chain, next, env, assign, base: cur });
        match *chain.parts@[idx as int] {
            Location::Dot(d) => {
                match s.object_of(cur) {
                    Some(object) => lemma_shaped_plain(
                        s.stack,
                        Frame::StoreField { object, key: &d.prop },
                    ),
                    None => {},
                }
            },
            _ => {},
        }
    }
}

proof fn lemma_formed_start_chain<'a>(
    s: State<'a>,
    chain: &'a LocationChain,
    env: usize,
    assign: Option<&'a Assignment>,
)
    requires
        s.formed(),
    ensures
        s.start_chain(chain, env, assign).formed(),
{
    lemma_shaped_plain(s.stack, Frame::Chain { chain, next: 0, env, assign });
    match chain.base {
        LocationChainBase::Ident(name) => {
            match s.resolve(env, name@) {
                Some((scope, slot)) => lemma_shaped_plain(
                    s.stack,
                    Frame::StoreSlot { scope, slot },
                ),
                None => {},
            }
            match s.lookup(env, name@) {
                Some(v) => lemma_formed_walk(s, chain, 0, env, assign, v, v),
                None => {},
            }
        },
        _ => {},
    }
}

/// Running a block keeps the stack and the suspended pieces well-shaped.
pub proof fn lemma_formed_block<'a>(s: State<'a>, block: &'a Block, idx: usize, env: usize)
    requires
        s.formed(),
    ensures
        s.run(block, idx, env).formed(),
{
    lemma_formed_run(s, block, idx, env);
}

proof fn lemma_formed_run<'a>(s: State<'a>, block: &'a Block, idx: usize, env: usize)
    requires
        s.formed(),
    ensures
        s.run(block, idx, env).formed(),
{
    if idx < block.statements@.len() {
        let f = Frame::Block { block, next: (idx + 1) as usize, env };
        lemma_shaped_plain(s.stack, f);
        let s1 = s.push(f);
        match *block.statements@[idx as int] {
            Statement::Let(l) => lemma_shaped_plain(s1.stack, Frame::Let { name: &l.ident, env }),
            Statement::Assignment(a) => lemma_formed_start_chain(s1, &a.location, env, Some(&a)),
            Statement::Expression(e) => {},
        }
    }
}

proof fn lemma_formed_enter<'a>(s: State<'a>, block: &'a Block, env: usize)
    requires
        s.formed(),
    ensures
        s.enter(block, env).formed(),
{
    lemma_formed_run(s.add_scope(Seq::empty(), Some(env), None), block, 0, s.scopes.len() as usize);
}

proof fn lemma_formed_branch<'a>(s: State<'a>, node: &'a IfExpression, idx: usize, env: usize)
    requires
        s.formed(),
    ensures
        s.branch(node, idx, env).formed(),
{
    if idx < node.ifs@.len() {
        lemma_shaped_plain(
            s.stack,
            Frame::If { node, body: &*node.ifs@[idx as int].body, next: (idx + 1) as usize, env },
        );
    } else {
        match node.else_body {
            Some(b) => lemma_formed_enter(s, &*b, env),
            None => {},
        }
    }
}

proof fn lemma_formed_loop_exit<'a>(s: State<'a>, v: Value)
    requires
        s.formed(),
    ensures
        s.leave_loop(v).formed(),
        s.next_iteration().formed(),
{
    match last_loop(s.stack) {
        Some(i) => {
            lemma_last_loop(s.stack);
            lemma_shaped_take(s.stack, i);
        },
        None => {},
    }
}

proof fn lemma_formed_apply<'a>(s: State<'a>, n: nat)
    requires
        s.conts_formed(),
        gathering(s.stack, n + 1),
    ensures
        s.apply(n).formed(),
{
    let args = top_values(s.stack, n);
    let rest = below_top(s.stack, n);
    assert(rest.drop_last() =~= s.stack.take(s.stack.len() - (n + 1)));
    match s.closure_of(held(rest.last())) {
        Some(c) => {
            lemma_shaped_plain(rest.drop_last(), Frame::Return);
            let s1 = s.with_stack(rest.drop_last().push(Frame::Return)).add_scope(
                bind_names(&c.function.parameters, args, args.len()),
                Some(c.env),
                None,
            );
            lemma_formed_run(s1, &*c.function.body, 0, s.scopes.len() as usize);
        },
        None => {},
    }
}

proof fn lemma_formed_arguments<'a>(
    s: State<'a>,
    call: &'a FunctionInvocation,
    idx: usize,
    env: usize,
)
    requires
        s.conts_formed(),
        idx <= call.parameters@.len(),
        gathering(s.stack, (idx + 1) as nat),
        held(s.stack[s.stack.len() - idx - 1]) is Closure,
    ensures
        s.arguments(call, idx, env).formed(),
{
    if idx < call.parameters@.len() {
        assert(call.parameters@.len() == call.parameters.len());
        lemma_shaped_gatherer(s.stack, Frame::Arg { call, next: (idx + 1) as usize, env });
    } else {
        lemma_formed_apply(s, call.parameters@.len());
    }
}

proof fn lemma_formed_pairs<'a>(s: State<'a>, node: &'a Object, idx: usize, env: usize)
    requires
        s.conts_formed(),
        idx <= node.pairs@.len(),
        gathering(s.stack, idx as nat),
    ensures
        s.pairs(node, idx, env).formed(),
{
    if idx < node.pairs@.len() {
        assert(node.pairs@.len() == node.pairs.len());
        lemma_shaped_gatherer(s.stack, Frame::Pair { node, next: (idx + 1) as usize, env });
    } else {
        lemma_gathering_taken(s.stack, idx as nat);
    }
}

proof fn lemma_formed_elements<'a>(
    s: State<'a>,
    node: &'a List,
    idx: usize,
    env: usize,
    count: usize,
)
    requires
        s.conts_formed(),
        gathering(s.stack, count as nat),
    ensures
        s.elements(node, idx, env, count).formed(),
{
    if idx < node.elements@.len() {
        let next = (idx + 1) as usize;
        lemma_shaped_gatherer(s.stack, Frame::Elem { node, next, env, count, spread: false });
        lemma_shaped_gatherer(s.stack, Frame::Elem { node, next, env, count, spread: true });
    } else {
        lemma_gathering_taken(s.stack, count as nat);
    }
}

proof fn lemma_formed_gather<'a>(
    s: State<'a>,
    node: &'a List,
    next: usize,
    env: usize,
    count: usize,
    spread: bool,
    v: Value,
)
    requires
        s.conts_formed(),
        gathering(s.stack, count as nat),
    ensures
        s.gather(node, next, env, count, spread, v).formed(),
{
    if !spread {
        if count + 1 <= usize::MAX {
            lemma_gathering_one(s.stack, count as nat, v);
            lemma_formed_elements(s.push(Frame::Held(v)), node, next, env, (count + 1) as usize);
        }
    } else {
        match s.list_of(v) {
            Some(items) => {
                if count + items.len() <= usize::MAX {
                    lemma_gathering_more(s.stack, count as nat, items);
                    lemma_formed_elements(
                        s.with_stack(s.stack + hold_all(items)),
                        node,
                        next,
                        env,
                        (count + items.len()) as usize,
                    );
                }
            },
            None => {},
        }
    }
}

proof fn lemma_formed_perform<'a>(s: State<'a>, tag: &'a String, payload: Value)
    requires
        s.formed(),
    ensures
        s.perform(tag, payload).formed(),
{
    match find_handler(s.stack, tag@) {
        Some((h, a)) => {
            lemma_innermost_handler(s.stack, tag@);
            lemma_shaped_take(s.stack, h);
            lemma_shaped_skip(s.stack, h);
            let arm = s.stack[h]->Handle_node.match_arms@[a];
            let base = s.suspend(h, &arm.param, payload);
            assert(base.conts_formed()) by {
                assert forall|k: int| 0 <= k < base.conts.len() implies shaped(
                    #[trigger] base.conts[k],
                ) && base.conts[k].len() > 0 && base.conts[k][0] is Handle by {
                    if k < s.conts.len() {
                        assert(shaped(s.conts[k]));
                    }
                }
            }
            lemma_formed_run(base, &*arm.block, 0, s.scopes.len() as usize);
        },
        None => {},
    }
}

proof fn lemma_formed_resume<'a>(s: State<'a>, env: usize, v: Value)
    requires
        s.formed(),
    ensures
        s.resume(env, v).formed(),
{
    lemma_continuation_good(s, env);
    match s.continuation(env) {
        Some(k) => {
            lemma_shaped_plain(s.stack, Frame::Resumed);
            assert(shaped(s.conts[k as int]));
            lemma_shaped_add(s.stack.push(Frame::Resumed), s.conts[k as int]);
        },
        None => {},
    }
}

proof fn lemma_formed_begin<'a>(s: State<'a>, expr: &'a Expression, env: usize)
    requires
        s.formed(),
    ensures
        s.begin(expr, env).formed(),
{
    lemma_gathering_none(s.stack);
    match *expr {
        Expression::Negative(n) => lemma_shaped_plain(s.stack, Frame::Negate),
        Expression::Not(n) => lemma_shaped_plain(s.stack, Frame::Not),
        Expression::Boolean(b) => lemma_shaped_plain(
            s.stack,
            Frame::Left { op: BinaryOp::Boolean(b.operator), right: &*b.right, env },
        ),
        Expression::Comparison(c) => lemma_shaped_plain(
            s.stack,
            Frame::Left {
                op: BinaryOp::Comparison(c.operator),
                right: &*c.right,
                env,
            },
        ),
        Expression::Numeric(n) => lemma_shaped_plain(
            s.stack,
            Frame::Left { op: BinaryOp::Numeric(n.operator), right: &*n.right, env },
        ),
        Expression::Dot(d) => lemma_shaped_plain(s.stack, Frame::Dot { prop: &d.prop }),
        Expression::Index(ix) => lemma_shaped_plain(
            s.stack,
            Frame::IndexBase { index: &*ix.index, env },
        ),
        Expression::If(node) => lemma_formed_branch(s, &node, 0, env),
        Expression::Loop(l) => {
            let f = Frame::Loop { body: &*l.body, env };
            lemma_shaped_plain(s.stack, f);
            lemma_formed_enter(s.push(f), &*l.body, env);
        },
        Expression::Break(b) => {
            lemma_shaped_plain(s.stack, Frame::Break);
            lemma_formed_loop_exit(s, Value::Null);
        },
        Expression::NextIteration(n) => {
            lemma_shaped_plain(s.stack, Frame::Next);
            lemma_formed_loop_exit(s, Value::Null);
        },
        Expression::Invocation(c) => lemma_shaped_plain(s.stack, Frame::Callee { call: &c, env }),
        Expression::Block(b) => lemma_formed_enter(s, &b, env),
        Expression::Object(o) => lemma_formed_pairs(s, &o, 0, env),
        Expression::List(l) => lemma_formed_elements(s, &l, 0, env, 0),
        Expression::Location(chain) => lemma_formed_start_chain(s, &chain, env, None),
        Expression::Handle(h) => lemma_shaped_plain(s.stack, Frame::Handle { node: &h, env }),
        Expression::Send(sd) => {
            lemma_shaped_plain(s.stack, Frame::Send { tag: &sd.symbol });
            lemma_formed_perform(s, &sd.symbol, Value::Null);
        },
        Expression::Continue(c) => {
            lemma_shaped_plain(s.stack, Frame::Resume { env });
            lemma_formed_resume(s, env, Value::Null);
        },
        _ => {},
    }
}

proof fn lemma_formed_apply_frame<'a>(s: State<'a>, f: Frame<'a>, v: Value)
    requires
        s.conts_formed(),
        frame_fits(f, s.stack),
        gathering(s.stack, gathered(f)),
    ensures
        s.apply_frame(f, v).formed(),
{
    if plain(f) {
        assert(s.stack.take(s.stack.len() - 0) =~= s.stack);
    }
    match f {
        Frame::Left { op, right, env } => lemma_shaped_plain(s.stack, Frame::Right { op, left: v }),
        Frame::IndexBase { index, env } => lemma_shaped_plain(s.stack, Frame::IndexAt { base: v }),
        Frame::If { node, body, next, env } => {
            lemma_formed_enter(s, body, env);
            lemma_formed_branch(s, node, next, env);
        },
        Frame::Loop { body, env } => {
            lemma_shaped_plain(s.stack, f);
            lemma_formed_enter(s.push(f), body, env);
        },
        Frame::Break => lemma_formed_loop_exit(s, v),
        Frame::Next => lemma_formed_loop_exit(s, v),
        Frame::Callee { call, env } => {
            if s.closure_of(v) is Some {
                lemma_gathering_none(s.stack);
                lemma_gathering_one(s.stack, 0, v);
                lemma_formed_arguments(s.push(Frame::Held(v)), call, 0, env);
            }
        },
        Frame::Arg { call, next, env } => {
            lemma_gathering_one(s.stack, next as nat, v);
            let s1 = s.push(Frame::Held(v));
            assert(s1.stack[s1.stack.len() - next - 1] == s.stack[s.stack.len() - next]);
            lemma_formed_arguments(s1, call, next, env);
        },
        Frame::Block { block, next, env } => lemma_formed_run(s, block, next, env),
        Frame::Chain { chain, next, env, assign } => lemma_formed_walk(
            s,
            chain,
            next,
            env,
            assign,
            v,
            v,
        ),
        Frame::ChainIndex { chain, next, env, assign, base } => lemma_formed_walk(
            s,
            chain,
            next,
            env,
            assign,
            base,
            v,
        ),
        Frame::Pair { node, next, env } => {
            lemma_gathering_one(s.stack, (next - 1) as nat, v);
            lemma_formed_pairs(s.push(Frame::Held(v)), node, next, env);
        },
        Frame::Elem { node, next, env, count, spread } => lemma_formed_gather(
            s,
            node,
            next,
            env,
            count,
            spread,
            v,
        ),
        Frame::Send { tag } => lemma_formed_perform(s, tag, v),
        Frame::Resume { env } => lemma_formed_resume(s, env, v),
        _ => {},
    }
}

/// A step keeps the stack, and every suspended piece of one, well-shaped.
pub proof fn lemma_step_formed(s: State)
    requires
        s.formed(),
    ensures
        s.step().formed(),
{
    match s.control {
        Control::Halted(_) => {},
        Control::Eval { expr, env } => lemma_formed_begin(s, expr, env),
        Control::Deliver(v) => {
            if s.stack.len() > 0 {
                lemma_formed_apply_frame(s.with_stack(s.stack.drop_last()), s.stack.last(), v);
            }
        },
    }
}

/// Starting an evaluation keeps the stack and the suspended pieces
/// well-shaped.
pub proof fn lemma_load_formed<'a>(s: State<'a>, ast: &'a Block)
    requires
        s.formed(),
    ensures
        s.load(ast).formed(),
{
    lemma_formed_run(s.with_stack(Seq::empty()), ast, 0, 0);
}

} // verus!
