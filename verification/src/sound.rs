//! The states that evaluation can reach: every handle names something that is
//! in the store, and the calls and resumptions in progress stay within the
//! limit. `lemma_step_sound` shows that a step never leaves these states.

use crate::ast::{
    Assignment, Block, Expression, FunctionInvocation, IfExpression, List, ListElem, Location,
    LocationChain, LocationChainBase, Object, Statement,
};
use crate::laws::lemma_innermost_handler;
use crate::machine::{
    below_top, bind_names, bind_pairs, boundaries, find, find_from, find_handler, held, hold_all,
    is_boundary, last_loop, lemma_boundaries_add, lemma_boundaries_held, lemma_boundaries_push,
    lemma_boundaries_take, put, top_count, top_values, BinaryOp, Closure, Control, Effect, Frame,
    State, RECURSION_LIMIT,
};
use crate::value::{spec_negate, spec_not, EvalError, Value};
use std::rc::Rc;
use vstd::prelude::*;

verus! {

impl<'a> State<'a> {
    /// Whether every part of the store is small enough for its handles.
    pub open spec fn fits(self) -> bool {
        &&& self.scopes.len() <= usize::MAX
        &&& self.objects.len() <= usize::MAX
        &&& self.lists.len() <= usize::MAX
        &&& self.closures.len() <= usize::MAX
        &&& self.conts.len() <= usize::MAX
        &&& self.effects.len() <= usize::MAX
        &&& forall|e: int|
            0 <= e < self.scopes.len() ==> (#[trigger] self.scopes[e]).bindings.len() <= usize::MAX
        &&& forall|t: int|
            0 <= t < self.objects.len() ==> (#[trigger] self.objects[t]).len() <= usize::MAX
        &&& forall|l: int|
            0 <= l < self.lists.len() ==> (#[trigger] self.lists[l]).len() <= usize::MAX
    }

    /// Whether `v` names something that is in the store.
    pub open spec fn good_value(self, v: Value) -> bool {
        match v {
            Value::Object(h) => h < self.objects.len(),
            Value::List(h) => h < self.lists.len(),
            Value::Closure(h) => h < self.closures.len(),
            Value::Effect(h) => h < self.effects.len(),
            _ => true,
        }
    }

    pub open spec fn good_env(self, env: usize) -> bool {
        env < self.scopes.len()
    }

    /// Whether everything that `f` names is in the store.
    pub open spec fn good_frame(self, f: Frame<'a>) -> bool {
        match f {
            Frame::Held(v) => self.good_value(v),
            Frame::Left { op, right, env } => self.good_env(env),
            Frame::Right { op, left } => self.good_value(left),
            Frame::IndexBase { index, env } => self.good_env(env),
            Frame::IndexAt { base } => self.good_value(base),
            Frame::If { node, body, next, env } => self.good_env(env),
            Frame::Loop { body, env } => self.good_env(env),
            Frame::Callee { call, env } => self.good_env(env),
            Frame::Arg { call, next, env } => self.good_env(env),
            Frame::Block { block, next, env } => self.good_env(env),
            Frame::Let { name, env } => self.good_env(env),
            Frame::Chain { chain, next, env, assign } => self.good_env(env),
            Frame::ChainIndex { chain, next, env, assign, base } => self.good_env(env)
                && self.good_value(base),
            Frame::StoreSlot { scope, slot } => scope < self.scopes.len() && slot
                < self.scopes[scope as int].bindings.len(),
            Frame::StoreField { object, key } => object < self.objects.len(),
            Frame::StoreElement { list, index } => list < self.lists.len() && index
                < self.lists[list as int].len(),
            Frame::Pair { node, next, env } => self.good_env(env),
            Frame::Elem { node, next, env, count, spread } => self.good_env(env),
            Frame::Handle { node, env } => self.good_env(env),
            Frame::Resume { env } => self.good_env(env),
            _ => true,
        }
    }

    pub open spec fn good_frames(self, frames: Seq<Frame<'a>>) -> bool {
        forall|i: int| 0 <= i < frames.len() ==> self.good_frame(#[trigger] frames[i])
    }

    pub open spec fn good_values(self, values: Seq<Value>) -> bool {
        forall|i: int| 0 <= i < values.len() ==> self.good_value(#[trigger] values[i])
    }

    pub open spec fn good_table(self, table: Seq<(&'a String, Value)>) -> bool {
        forall|i: int| 0 <= i < table.len() ==> self.good_value((#[trigger] table[i]).1)
    }

    pub open spec fn good_scope(self, e: int) -> bool {
        &&& self.good_table(self.scopes[e].bindings)
        &&& self.scopes[e].parent matches Some(p) ==> p < e
        &&& self.scopes[e].resume matches Some(k) ==> k < self.conts.len()
    }

    pub open spec fn good_control(self) -> bool {
        match self.control {
            Control::Eval { expr, env } => self.good_env(env),
            Control::Deliver(v) => self.good_value(v),
            Control::Halted(Ok(v)) => self.good_value(v),
            Control::Halted(Err(_)) => true,
        }
    }

    /// Whether everything that the store holds names something in the store.
    pub open spec fn good_store(self) -> bool {
        &&& self.scopes.len() >= 1
        &&& forall|e: int| 0 <= e < self.scopes.len() ==> #[trigger] self.good_scope(e)
        &&& forall|t: int|
            0 <= t < self.objects.len() ==> self.good_table(#[trigger] self.objects[t])
        &&& forall|l: int| 0 <= l < self.lists.len() ==> self.good_values(#[trigger] self.lists[l])
        &&& forall|c: int|
            0 <= c < self.closures.len() ==> self.good_env((#[trigger] self.closures[c]).env)
        &&& forall|k: int| 0 <= k < self.conts.len() ==> self.good_frames(#[trigger] self.conts[k])
        &&& forall|e: int|
            0 <= e < self.effects.len() ==> self.good_value((#[trigger] self.effects[e]).value)
    }

    /// Whether every handle names something that is in the store, and the
    /// calls and resumptions in progress are within the limit.
    pub open spec fn sound(self) -> bool {
        &&& self.fits()
        &&& self.good_store()
        &&& self.good_frames(self.stack)
        &&& self.good_control()
        &&& boundaries(self.stack) <= RECURSION_LIMIT
    }

    /// Whether this state's store has everything that `s` has: no part of the
    /// store is shorter than it is in `s`.
    pub open spec fn extends(self, s: Self) -> bool {
        &&& self.scopes.len() >= s.scopes.len()
        &&& self.objects.len() >= s.objects.len()
        &&& self.lists.len() >= s.lists.len()
        &&& self.closures.len() >= s.closures.len()
        &&& self.conts.len() >= s.conts.len()
        &&& self.effects.len() >= s.effects.len()
        &&& forall|e: int|
            0 <= e < s.scopes.len() ==> (#[trigger] self.scopes[e]).bindings.len()
                >= s.scopes[e].bindings.len()
        &&& forall|l: int|
            0 <= l < s.lists.len() ==> (#[trigger] self.lists[l]).len() >= s.lists[l].len()
    }
}

/// What is good in a state is good in every state that extends it.
pub proof fn lemma_extends<'a>(s: State<'a>, t: State<'a>)
    requires
        t.extends(s),
    ensures
        forall|v: Value| s.good_value(v) ==> #[trigger] t.good_value(v),
        forall|f: Frame<'a>| s.good_frame(f) ==> #[trigger] t.good_frame(f),
        forall|frames: Seq<Frame<'a>>| s.good_frames(frames) ==> #[trigger] t.good_frames(frames),
        forall|values: Seq<Value>| s.good_values(values) ==> #[trigger] t.good_values(values),
        forall|table: Seq<(&'a String, Value)>|
            s.good_table(table) ==> #[trigger] t.good_table(table),
{
    assert forall|f: Frame<'a>| s.good_frame(f) implies #[trigger] t.good_frame(f) by {
        match f {
            Frame::StoreSlot { scope, slot } => {
                assert(t.scopes[scope as int].bindings.len()
                    >= s.scopes[scope as int].bindings.len());
            },
            Frame::StoreElement { list, index } => {
                assert(t.lists[list as int].len() >= s.lists[list as int].len());
            },
            _ => {},
        }
    }
    assert forall|frames: Seq<Frame<'a>>| s.good_frames(frames) implies #[trigger] t.good_frames(
        frames,
    ) by {
        assert forall|i: int| 0 <= i < frames.len() implies t.good_frame(#[trigger] frames[i]) by {
            assert(s.good_frame(frames[i]));
        }
    }
    assert forall|values: Seq<Value>| s.good_values(values) implies #[trigger] t.good_values(
        values,
    ) by {
        assert forall|i: int| 0 <= i < values.len() implies t.good_value(#[trigger] values[i]) by {
            assert(s.good_value(values[i]));
        }
    }
    assert forall|table: Seq<(&'a String, Value)>| s.good_table(table) implies (
    #[trigger] t.good_table(table)) by {
        assert forall|i: int| 0 <= i < table.len() implies t.good_value(
            (#[trigger] table[i]).1,
        ) by {
            assert(s.good_value(table[i].1));
        }
    }
}

/// A state that differs from a sound one in its control and stack only, and
/// has them good and within the limit, is sound.
pub proof fn lemma_sound_with<'a>(s: State<'a>, t: State<'a>)
    requires
        s.sound(),
        t.scopes == s.scopes,
        t.objects == s.objects,
        t.lists == s.lists,
        t.closures == s.closures,
        t.conts == s.conts,
        t.effects == s.effects,
        t.good_frames(t.stack),
        t.good_control(),
        boundaries(t.stack) <= RECURSION_LIMIT,
    ensures
        t.sound(),
{
    lemma_extends(s, t);
    assert forall|e: int| 0 <= e < t.scopes.len() implies #[trigger] t.good_scope(e) by {
        assert(s.good_scope(e));
    }
    assert forall|t0: int| 0 <= t0 < t.objects.len() implies t.good_table(
        #[trigger] t.objects[t0],
    ) by {
        assert(s.good_table(s.objects[t0]));
    }
    assert forall|l: int| 0 <= l < t.lists.len() implies t.good_values(#[trigger] t.lists[l]) by {
        assert(s.good_values(s.lists[l]));
    }
    assert forall|k: int| 0 <= k < t.conts.len() implies t.good_frames(#[trigger] t.conts[k]) by {
        assert(s.good_frames(s.conts[k]));
    }
}

// ---- the small moves ----------------------------------------------------------

pub proof fn lemma_sound_push<'a>(s: State<'a>, f: Frame<'a>)
    requires
        s.sound(),
        s.good_frame(f),
        !is_boundary(f),
    ensures
        s.push(f).sound(),
{
    lemma_boundaries_push(s.stack, f);
    lemma_sound_with(s, s.push(f));
}

pub proof fn lemma_sound_eval<'a>(s: State<'a>, expr: &'a Expression, env: usize)
    requires
        s.sound(),
        s.good_env(env),
    ensures
        s.eval(expr, env).sound(),
{
    lemma_sound_with(s, s.eval(expr, env));
}

pub proof fn lemma_sound_deliver<'a>(s: State<'a>, v: Value)
    requires
        s.sound(),
        s.good_value(v),
    ensures
        s.deliver(v).sound(),
{
    lemma_sound_with(s, s.deliver(v));
}

pub proof fn lemma_sound_halt<'a>(s: State<'a>, r: Result<Value, EvalError>)
    requires
        s.sound(),
        r matches Ok(v) ==> s.good_value(v),
    ensures
        s.halt(r).sound(),
{
    lemma_sound_with(s, s.halt(r));
}

pub proof fn lemma_sound_finish<'a>(s: State<'a>, r: Result<Value, EvalError>)
    requires
        s.sound(),
        r matches Ok(v) ==> s.good_value(v),
    ensures
        s.finish(r).sound(),
{
    lemma_sound_with(s, s.finish(r));
}

pub proof fn lemma_sound_cut<'a>(s: State<'a>, n: int)
    requires
        s.sound(),
        0 <= n <= s.stack.len(),
    ensures
        s.with_stack(s.stack.take(n)).sound(),
{
    lemma_boundaries_take(s.stack, n);
    lemma_sound_with(s, s.with_stack(s.stack.take(n)));
}

pub proof fn lemma_sound_pop<'a>(s: State<'a>)
    requires
        s.sound(),
        s.stack.len() > 0,
    ensures
        s.with_stack(s.stack.drop_last()).sound(),
        s.good_frame(s.stack.last()),
{
    assert(s.stack.drop_last() =~= s.stack.take(s.stack.len() - 1));
    lemma_sound_cut(s, s.stack.len() - 1);
}

// ---- what the store hands out -------------------------------------------------

pub proof fn lemma_find(table: Seq<(&String, Value)>, key: Seq<char>, i: int)
    requires
        0 <= i,
        find_from(table, key, i) is Some,
    ensures
        i <= find_from(table, key, i)->0 < table.len(),
        table[find_from(table, key, i)->0].0@ == key,
    decreases table.len() - i,
{
    if table[i].0@ != key {
        lemma_find(table, key, i + 1);
    }
}

pub proof fn lemma_put_good<'a>(
    s: State<'a>,
    table: Seq<(&'a String, Value)>,
    key: &'a String,
    v: Value,
)
    requires
        s.good_table(table),
        s.good_value(v),
    ensures
        s.good_table(put(table, key, v)),
        table.len() <= put(table, key, v).len() <= table.len() + 1,
{
    if find(table, key@) is Some {
        lemma_find(table, key@, 0);
    }
    let after = put(table, key, v);
    assert forall|i: int| 0 <= i < after.len() implies s.good_value((#[trigger] after[i]).1) by {
        if i < table.len() {
            assert(s.good_value(table[i].1));
        }
    }
}

pub proof fn lemma_bind_names_good<'a>(
    s: State<'a>,
    names: &'a Vec<String>,
    values: Seq<Value>,
    n: nat,
)
    requires
        s.good_values(values),
    ensures
        s.good_table(bind_names(names, values, n)),
        bind_names(names, values, n).len() <= n,
    decreases n,
{
    if !(n == 0 || n > names@.len() || n > values.len()) {
        lemma_bind_names_good(s, names, values, (n - 1) as nat);
        assert(s.good_value(values[n - 1]));
        lemma_put_good(s, bind_names(names, values, (n - 1) as nat), &names@[n - 1], values[n - 1]);
    }
}

pub proof fn lemma_bind_pairs_good<'a>(
    s: State<'a>,
    pairs: &'a Vec<(String, Rc<Expression>)>,
    values: Seq<Value>,
    n: nat,
)
    requires
        s.good_values(values),
    ensures
        s.good_table(bind_pairs(pairs, values, n)),
        bind_pairs(pairs, values, n).len() <= n,
    decreases n,
{
    if !(n == 0 || n > pairs@.len() || n > values.len()) {
        lemma_bind_pairs_good(s, pairs, values, (n - 1) as nat);
        assert(s.good_value(values[n - 1]));
        lemma_put_good(
            s,
            bind_pairs(pairs, values, (n - 1) as nat),
            &pairs@[n - 1].0,
            values[n - 1],
        );
    }
}

pub proof fn lemma_top_good<'a>(s: State<'a>, stack: Seq<Frame<'a>>, n: nat)
    requires
        s.good_frames(stack),
    ensures
        s.good_values(top_values(stack, n)),
        s.good_frames(below_top(stack, n)),
        boundaries(below_top(stack, n)) <= boundaries(stack),
        top_values(stack, n).len() <= n,
{
    let m = top_count(stack, n);
    let values = top_values(stack, n);
    assert forall|i: int| 0 <= i < values.len() implies s.good_value(#[trigger] values[i]) by {
        assert(s.good_frame(stack[stack.len() - m + i]));
    }
    let rest = below_top(stack, n);
    assert forall|i: int| 0 <= i < rest.len() implies s.good_frame(#[trigger] rest[i]) by {
        assert(s.good_frame(stack[i]));
    }
    lemma_boundaries_take(stack, stack.len() - m);
}

pub proof fn lemma_hold_all_good<'a>(s: State<'a>, values: Seq<Value>)
    requires
        s.good_values(values),
    ensures
        s.good_frames(hold_all(values)),
{
    let frames = hold_all::<'a>(values);
    assert forall|i: int| 0 <= i < frames.len() implies s.good_frame(#[trigger] frames[i]) by {
        assert(s.good_value(values[i]));
    }
}

pub proof fn lemma_resolve_good<'a>(s: State<'a>, env: usize, name: Seq<char>)
    requires
        s.sound(),
    ensures
        s.resolve(env, name) matches Some((scope, slot)) ==> scope <= env && scope
            < s.scopes.len() && slot < s.scopes[scope as int].bindings.len() && s.good_value(
            s.scopes[scope as int].bindings[slot as int].1,
        ),
        s.lookup(env, name) matches Some(v) ==> s.good_value(v),
    decreases env,
{
    match s.find_in(env, name) {
        Some(i) => {
            let table = s.scopes[env as int].bindings;
            lemma_find(table, name, 0);
            assert(s.good_scope(env as int));
            assert(s.good_value(table[i].1));
        },
        None => match s.parent_of(env) {
            Some(p) => lemma_resolve_good(s, p, name),
            None => {},
        },
    }
}

pub proof fn lemma_continuation_good<'a>(s: State<'a>, env: usize)
    ensures
        s.continuation(env) matches Some(k) ==> k < s.conts.len(),
    decreases env,
{
    if s.resume_of(env) is None {
        match s.parent_of(env) {
            Some(p) => lemma_continuation_good(s, p),
            None => {},
        }
    }
}

pub proof fn lemma_member_good<'a>(s: State<'a>, v: Value, key: Seq<char>)
    requires
        s.sound(),
    ensures
        s.member(v, key) matches Ok(m) ==> s.good_value(m),
{
    match s.object_of(v) {
        Some(h) => {
            if find(s.objects[h as int], key) is Some {
                lemma_find(s.objects[h as int], key, 0);
                assert(s.good_table(s.objects[h as int]));
            }
        },
        None => {},
    }
}

pub proof fn lemma_element_good<'a>(s: State<'a>, base: Value, index: Value)
    requires
        s.sound(),
    ensures
        s.place(base, index) matches Ok((list, j)) ==> list < s.lists.len() && j
            < s.lists[list as int].len(),
        s.element(base, index) matches Ok(m) ==> s.good_value(m),
{
    match s.place(base, index) {
        Ok((list, j)) => {
            assert(s.lists[list as int].len() <= usize::MAX);
            assert(s.good_values(s.lists[list as int]));
        },
        Err(_) => {},
    }
}

pub proof fn lemma_binary_good<'a>(s: State<'a>, op: BinaryOp, l: Value, r: Value)
    ensures
        s.binary(op, l, r) matches Ok(v) ==> (v is Bool || v is Int),
{
}

// ---- the moves that change the store --------------------------------------------

/// A state whose stack and control are those of a sound state, and whose
/// store holds, at each place, either what the sound state holds there or
/// something good, is sound.
pub proof fn lemma_sound_grown<'a>(s: State<'a>, t: State<'a>)
    requires
        s.sound(),
        t.fits(),
        t.extends(s),
        t.stack == s.stack,
        t.control == s.control,
        forall|e: int|
            0 <= e < t.scopes.len() ==> (e < s.scopes.len() && t.scopes[e] == s.scopes[e])
                || #[trigger] t.good_scope(e),
        forall|i: int|
            0 <= i < t.objects.len() ==> (i < s.objects.len() && t.objects[i] == s.objects[i])
                || t.good_table(#[trigger] t.objects[i]),
        forall|i: int|
            0 <= i < t.lists.len() ==> (i < s.lists.len() && t.lists[i] == s.lists[i])
                || t.good_values(#[trigger] t.lists[i]),
        forall|i: int|
            0 <= i < t.closures.len() ==> (i < s.closures.len() && t.closures[i] == s.closures[i])
                || t.good_env((#[trigger] t.closures[i]).env),
        forall|i: int|
            0 <= i < t.conts.len() ==> (i < s.conts.len() && t.conts[i] == s.conts[i])
                || t.good_frames(#[trigger] t.conts[i]),
        forall|i: int|
            0 <= i < t.effects.len() ==> (i < s.effects.len() && t.effects[i] == s.effects[i])
                || t.good_value((#[trigger] t.effects[i]).value),
    ensures
        t.sound(),
{
    lemma_extends(s, t);
    assert forall|e: int| 0 <= e < t.scopes.len() implies #[trigger] t.good_scope(e) by {
        if e < s.scopes.len() && t.scopes[e] == s.scopes[e] {
            assert(s.good_scope(e));
        }
    }
    assert forall|i: int| 0 <= i < t.objects.len() implies t.good_table(
        #[trigger] t.objects[i],
    ) by {
        if i < s.objects.len() && t.objects[i] == s.objects[i] {
            assert(s.good_table(s.objects[i]));
        }
    }
    assert forall|i: int| 0 <= i < t.lists.len() implies t.good_values(#[trigger] t.lists[i]) by {
        if i < s.lists.len() && t.lists[i] == s.lists[i] {
            assert(s.good_values(s.lists[i]));
        }
    }
    assert forall|i: int| 0 <= i < t.closures.len() implies t.good_env(
        (#[trigger] t.closures[i]).env,
    ) by {
        if i < s.closures.len() && t.closures[i] == s.closures[i] {
            assert(s.good_env(s.closures[i].env));
        }
    }
    assert forall|i: int| 0 <= i < t.conts.len() implies t.good_frames(#[trigger] t.conts[i]) by {
        if i < s.conts.len() && t.conts[i] == s.conts[i] {
            assert(s.good_frames(s.conts[i]));
        }
    }
    assert forall|i: int| 0 <= i < t.effects.len() implies t.good_value(
        (#[trigger] t.effects[i]).value,
    ) by {
        if i < s.effects.len() && t.effects[i] == s.effects[i] {
            assert(s.good_value(s.effects[i].value));
        }
    }
    assert(t.good_frames(s.stack));
}

pub proof fn lemma_sound_add_scope<'a>(
    s: State<'a>,
    table: Seq<(&'a String, Value)>,
    parent: Option<usize>,
    resume: Option<usize>,
)
    requires
        s.sound(),
        s.good_table(table),
        parent matches Some(p) ==> p < s.scopes.len(),
        resume matches Some(k) ==> k < s.conts.len(),
        s.add_scope(table, parent, resume).fits(),
    ensures
        s.add_scope(table, parent, resume).sound(),
        s.add_scope(table, parent, resume).extends(s),
        s.add_scope(table, parent, resume).good_env(s.scopes.len() as usize),
{
    let t = s.add_scope(table, parent, resume);
    lemma_extends(s, t);
    assert(t.good_scope(s.scopes.len() as int));
    lemma_sound_grown(s, t);
}

pub proof fn lemma_sound_declare<'a>(s: State<'a>, env: usize, name: &'a String, v: Value)
    requires
        s.sound(),
        s.good_value(v),
        s.declare(env, name, v).fits(),
    ensures
        s.declare(env, name, v).sound(),
        s.declare(env, name, v).extends(s),
{
    let t = s.declare(env, name, v);
    if env < s.scopes.len() {
        assert(s.good_scope(env as int));
        lemma_put_good(s, s.scopes[env as int].bindings, name, v);
        lemma_extends(s, t);
        assert(t.good_scope(env as int));
        lemma_sound_grown(s, t);
    }
}

pub proof fn lemma_sound_store_field<'a>(s: State<'a>, object: usize, key: &'a String, v: Value)
    requires
        s.sound(),
        s.good_value(v),
        s.store_field(object, key, v).fits(),
    ensures
        s.store_field(object, key, v).sound(),
        s.store_field(object, key, v).extends(s),
{
    let t = s.store_field(object, key, v);
    if object < s.objects.len() {
        let h = object as int;
        assert(s.good_table(s.objects[h]));
        lemma_put_good(s, s.objects[h], key, v);
        lemma_extends(s, t);
        lemma_sound_grown(s, t);
    }
}

pub proof fn lemma_sound_store_slot<'a>(s: State<'a>, scope: usize, slot: usize, v: Value)
    requires
        s.sound(),
        s.good_value(v),
    ensures
        s.store_slot(scope, slot, v).sound(),
        s.store_slot(scope, slot, v).extends(s),
{
    let t = s.store_slot(scope, slot, v);
    if scope < s.scopes.len() && slot < s.scopes[scope as int].bindings.len() {
        let before = s.scopes[scope as int].bindings;
        let after = t.scopes[scope as int].bindings;
        assert(s.good_scope(scope as int));
        assert forall|i: int| 0 <= i < after.len() implies s.good_value(
            (#[trigger] after[i]).1,
        ) by {
            if i != slot {
                assert(s.good_value(before[i].1));
            }
        }
        lemma_extends(s, t);
        assert(t.good_scope(scope as int));
        lemma_sound_grown(s, t);
    }
}

pub proof fn lemma_sound_store_element<'a>(s: State<'a>, list: usize, index: usize, v: Value)
    requires
        s.sound(),
        s.good_value(v),
    ensures
        s.store_element(list, index, v).sound(),
        s.store_element(list, index, v).extends(s),
{
    let t = s.store_element(list, index, v);
    if list < s.lists.len() && index < s.lists[list as int].len() {
        let h = list as int;
        let before = s.lists[h];
        let after = t.lists[h];
        assert(s.good_values(before));
        assert forall|i: int| 0 <= i < after.len() implies s.good_value(#[trigger] after[i]) by {
            if i != index {
                assert(s.good_value(before[i]));
            }
        }
        lemma_extends(s, t);
        lemma_sound_grown(s, t);
    }
}

// ---- the moves of a step ------------------------------------------------------

impl<'a> State<'a> {
    /// Whether `t` has the store of this state.
    pub open spec fn same_store(self, t: Self) -> bool {
        &&& t.scopes == self.scopes
        &&& t.objects == self.objects
        &&& t.lists == self.lists
        &&& t.closures == self.closures
        &&& t.conts == self.conts
        &&& t.effects == self.effects
        &&& t.next_symbol == self.next_symbol
    }
}

proof fn lemma_sound_walk<'a>(
    s: State<'a>,
    chain: &'a LocationChain,
    idx: usize,
    env: usize,
    assign: Option<&'a Assignment>,
    cur: Value,
)
    requires
        s.sound(),
        s.good_env(env),
        s.good_value(cur),
    ensures
        s.walk(chain, idx, env, assign, cur).sound(),
        s.same_store(s.walk(chain, idx, env, assign, cur)),
{
    if idx >= chain.parts@.len() {
        lemma_sound_deliver(s, cur);
    } else {
        let next = (idx + 1) as usize;
        match *chain.parts@[idx as int] {
            Location::Dot(d) => {
                if assign is Some && next == chain.parts@.len() {
                    match s.object_of(cur) {
                        Some(object) => {
                            let f = Frame::StoreField { object, key: &d.prop };
                            lemma_sound_push(s, f);
                            lemma_sound_eval(s.push(f), &*assign->0.expr, env);
                        },
                        None => lemma_sound_halt(s, Err(EvalError::TypeMismatch)),
                    }
                } else {
                    lemma_member_good(s, cur, d.prop@);
                    match s.member(cur, d.prop@) {
                        Ok(m) => {
                            let f = Frame::Chain { chain, next, env, assign };
                            lemma_sound_push(s, f);
                            lemma_sound_deliver(s.push(f), m);
                        },
                        Err(e) => lemma_sound_halt(s, Err(e)),
                    }
                }
            },
            Location::Index(ix) => {
                let f = Frame::ChainIndex { chain, next, env, assign, base: cur };
                lemma_sound_push(s, f);
                lemma_sound_eval(s.push(f), &*ix.index, env);
            },
        }
    }
}

proof fn lemma_sound_walk_index<'a>(
    s: State<'a>,
    chain: &'a LocationChain,
    next: usize,
    env: usize,
    assign: Option<&'a Assignment>,
    base: Value,
    v: Value,
)
    requires
        s.sound(),
        s.good_env(env),
        s.good_value(base),
        s.good_value(v),
    ensures
        s.walk_index(chain, next, env, assign, base, v).sound(),
        s.same_store(s.walk_index(chain, next, env, assign, base, v)),
{
    lemma_element_good(s, base, v);
    if assign is Some && next == chain.parts@.len() {
        match s.place(base, v) {
            Ok((list, index)) => {
                let f = Frame::StoreElement { list, index };
                lemma_sound_push(s, f);
                lemma_sound_eval(s.push(f), &*assign->0.expr, env);
            },
            Err(e) => lemma_sound_halt(s, Err(e)),
        }
    } else {
        match s.element(base, v) {
            Ok(m) => {
                let f = Frame::Chain { chain, next, env, assign };
                lemma_sound_push(s, f);
                lemma_sound_deliver(s.push(f), m);
            },
            Err(e) => lemma_sound_halt(s, Err(e)),
        }
    }
}

proof fn lemma_sound_start_chain<'a>(
    s: State<'a>,
    chain: &'a LocationChain,
    env: usize,
    assign: Option<&'a Assignment>,
)
    requires
        s.sound(),
        s.good_env(env),
    ensures
        s.start_chain(chain, env, assign).sound(),
        s.same_store(s.start_chain(chain, env, assign)),
{
    match chain.base {
        LocationChainBase::Ident(name) => {
            lemma_resolve_good(s, env, name@);
            if assign is Some && chain.parts@.len() == 0 {
                match s.resolve(env, name@) {
                    Some((scope, slot)) => {
                        let f = Frame::StoreSlot { scope, slot };
                        lemma_sound_push(s, f);
                        lemma_sound_eval(s.push(f), &*assign->0.expr, env);
                    },
                    None => lemma_sound_halt(s, Err(EvalError::UndefinedVariable)),
                }
            } else {
                match s.lookup(env, name@) {
                    Some(v) => lemma_sound_walk(s, chain, 0, env, assign, v),
                    None => lemma_sound_halt(s, Err(EvalError::UndefinedVariable)),
                }
            }
        },
        LocationChainBase::Expression(e) => {
            if assign is Some && chain.parts@.len() == 0 {
                lemma_sound_halt(s, Err(EvalError::TypeMismatch));
            } else {
                let f = Frame::Chain { chain, next: 0, env, assign };
                lemma_sound_push(s, f);
                lemma_sound_eval(s.push(f), &*e, env);
            }
        },
    }
}

proof fn lemma_sound_run<'a>(s: State<'a>, block: &'a Block, idx: usize, env: usize)
    requires
        s.sound(),
        s.good_env(env),
    ensures
        s.run(block, idx, env).sound(),
        s.same_store(s.run(block, idx, env)),
{
    if idx < block.statements@.len() {
        let f = Frame::Block { block, next: (idx + 1) as usize, env };
        lemma_sound_push(s, f);
        let s1 = s.push(f);
        match *block.statements@[idx as int] {
            Statement::Let(l) => {
                let g = Frame::Let { name: &l.ident, env };
                lemma_sound_push(s1, g);
                lemma_sound_eval(s1.push(g), &*l.expr, env);
            },
            Statement::Assignment(a) => lemma_sound_start_chain(s1, &a.location, env, Some(&a)),
            Statement::Expression(e) => lemma_sound_eval(s1, &*e.expr, env),
        }
    } else {
        match block.expression {
            Some(e) => lemma_sound_eval(s, &*e, env),
            None => lemma_sound_deliver(s, Value::Null),
        }
    }
}

proof fn lemma_sound_enter<'a>(s: State<'a>, block: &'a Block, env: usize)
    requires
        s.sound(),
        s.good_env(env),
        s.enter(block, env).fits(),
    ensures
        s.enter(block, env).sound(),
{
    let s1 = s.add_scope(Seq::empty(), Some(env), None);
    let scope = s.scopes.len() as usize;
    assert(s1.good_env(scope));
    assert(s1.fits()) by {
        let t = s.enter(block, env);
        lemma_run_same_store(s1, block, 0, scope);
    }
    lemma_sound_add_scope(s, Seq::empty(), Some(env), None);
    lemma_sound_run(s1, block, 0, scope);
}

/// Running a block changes nothing in the store.
proof fn lemma_run_same_store<'a>(s: State<'a>, block: &'a Block, idx: usize, env: usize)
    ensures
        s.same_store(s.run(block, idx, env)),
{
    if idx < block.statements@.len() {
        let s1 = s.push(Frame::Block { block, next: (idx + 1) as usize, env });
        match *block.statements@[idx as int] {
            Statement::Assignment(a) => {
                match a.location.base {
                    LocationChainBase::Ident(name) => {
                        if s1.lookup(env, name@) is Some {
                            let v = s1.lookup(env, name@)->0;
                            assert(s1.same_store(s1.walk(&a.location, 0, env, Some(&a), v)));
                        }
                    },
                    _ => {},
                }
            },
            _ => {},
        }
    }
}

proof fn lemma_sound_branch<'a>(s: State<'a>, node: &'a IfExpression, idx: usize, env: usize)
    requires
        s.sound(),
        s.good_env(env),
        s.branch(node, idx, env).fits(),
    ensures
        s.branch(node, idx, env).sound(),
{
    if idx < node.ifs@.len() {
        let f = Frame::If {
            node,
            body: &*node.ifs@[idx as int].body,
            next: (idx + 1) as usize,
            env,
        };
        lemma_sound_push(s, f);
        lemma_sound_eval(s.push(f), &*node.ifs@[idx as int].cond, env);
    } else {
        match node.else_body {
            Some(b) => lemma_sound_enter(s, &*b, env),
            None => lemma_sound_deliver(s, Value::Null),
        }
    }
}

pub proof fn lemma_last_loop(stack: Seq<Frame>)
    requires
        last_loop(stack) is Some,
    ensures
        0 <= last_loop(stack)->0 < stack.len(),
        stack[last_loop(stack)->0] is Loop,
    decreases stack.len(),
{
    if !(stack.last() is Loop) {
        lemma_last_loop(stack.drop_last());
    }
}

proof fn lemma_sound_loop_exit<'a>(s: State<'a>, v: Value)
    requires
        s.sound(),
        s.good_value(v),
    ensures
        s.leave_loop(v).sound(),
        s.next_iteration().sound(),
{
    match last_loop(s.stack) {
        Some(i) => {
            lemma_last_loop(s.stack);
            lemma_sound_cut(s, i);
            lemma_sound_deliver(s.with_stack(s.stack.take(i)), v);
            lemma_sound_cut(s, i + 1);
            lemma_sound_deliver(s.with_stack(s.stack.take(i + 1)), Value::Null);
        },
        None => lemma_sound_halt(s, Err(EvalError::NoEnclosingLoop)),
    }
}

proof fn lemma_sound_apply<'a>(s: State<'a>, n: nat)
    requires
        s.sound(),
        s.apply(n).fits(),
    ensures
        s.apply(n).sound(),
{
    let args = top_values(s.stack, n);
    let rest = below_top(s.stack, n);
    lemma_top_good(s, s.stack, n);
    if rest.len() == 0 {
        lemma_sound_halt(s, Err(EvalError::TypeMismatch));
    } else {
        match s.closure_of(held(rest.last())) {
            None => lemma_sound_halt(s, Err(EvalError::TypeMismatch)),
            Some(c) => {
                if c.function.parameters@.len() != args.len() {
                    lemma_sound_halt(s, Err(EvalError::ArityMismatch));
                } else if boundaries(rest.drop_last()) >= RECURSION_LIMIT {
                    lemma_sound_halt(s, Err(EvalError::RecursionLimitExceeded));
                } else {
                    let stack = rest.drop_last().push(Frame::Return);
                    let s1 = s.with_stack(stack);
                    lemma_boundaries_push(rest.drop_last(), Frame::Return);
                    assert(s1.good_frames(stack)) by {
                        assert forall|i: int| 0 <= i < stack.len() implies s1.good_frame(
                            #[trigger] stack[i],
                        ) by {
                            if i < rest.len() - 1 {
                                assert(s.good_frame(rest[i]));
                            }
                        }
                    }
                    lemma_sound_with(s, s1);
                    let table = bind_names(&c.function.parameters, args, args.len());
                    lemma_bind_names_good(s, &c.function.parameters, args, args.len());
                    let s2 = s1.add_scope(table, Some(c.env), None);
                    let scope = s.scopes.len() as usize;
                    assert(s.good_env(c.env));
                    lemma_run_same_store(s2, &*c.function.body, 0, scope);
                    lemma_sound_add_scope(s1, table, Some(c.env), None);
                    lemma_sound_run(s2, &*c.function.body, 0, scope);
                }
            },
        }
    }
}

proof fn lemma_sound_arguments<'a>(
    s: State<'a>,
    call: &'a FunctionInvocation,
    idx: usize,
    env: usize,
)
    requires
        s.sound(),
        s.good_env(env),
        s.arguments(call, idx, env).fits(),
    ensures
        s.arguments(call, idx, env).sound(),
{
    if idx < call.parameters@.len() {
        let f = Frame::Arg { call, next: (idx + 1) as usize, env };
        lemma_sound_push(s, f);
        lemma_sound_eval(s.push(f), &*call.parameters@[idx as int], env);
    } else {
        lemma_sound_apply(s, call.parameters@.len());
    }
}

proof fn lemma_sound_pairs<'a>(s: State<'a>, node: &'a Object, idx: usize, env: usize)
    requires
        s.sound(),
        s.good_env(env),
        s.pairs(node, idx, env).fits(),
    ensures
        s.pairs(node, idx, env).sound(),
{
    if idx < node.pairs@.len() {
        let f = Frame::Pair { node, next: (idx + 1) as usize, env };
        lemma_sound_push(s, f);
        lemma_sound_eval(s.push(f), &*node.pairs@[idx as int].1, env);
    } else {
        let n = node.pairs@.len();
        let values = top_values(s.stack, n);
        lemma_top_good(s, s.stack, n);
        let s1 = s.with_stack(below_top(s.stack, n));
        lemma_sound_with(s, s1);
        let table = bind_pairs(&node.pairs, values, values.len());
        lemma_bind_pairs_good(s, &node.pairs, values, values.len());
        let s2 = State { objects: s.objects.push(table), ..s1 };
        lemma_extends(s1, s2);
        lemma_sound_grown(s1, s2);
        lemma_sound_deliver(s2, Value::Object(s.objects.len() as usize));
    }
}

proof fn lemma_sound_elements<'a>(
    s: State<'a>,
    node: &'a List,
    idx: usize,
    env: usize,
    count: usize,
)
    requires
        s.sound(),
        s.good_env(env),
        s.elements(node, idx, env, count).fits(),
    ensures
        s.elements(node, idx, env, count).sound(),
{
    if idx < node.elements@.len() {
        match node.elements@[idx as int] {
            ListElem::Elem(e) => {
                let f = Frame::Elem { node, next: (idx + 1) as usize, env, count, spread: false };
                lemma_sound_push(s, f);
                lemma_sound_eval(s.push(f), &*e, env);
            },
            ListElem::Spread(e) => {
                let f = Frame::Elem { node, next: (idx + 1) as usize, env, count, spread: true };
                lemma_sound_push(s, f);
                lemma_sound_eval(s.push(f), &*e, env);
            },
        }
    } else {
        let values = top_values(s.stack, count as nat);
        lemma_top_good(s, s.stack, count as nat);
        let s1 = s.with_stack(below_top(s.stack, count as nat));
        lemma_sound_with(s, s1);
        let s2 = State { lists: s.lists.push(values), ..s1 };
        lemma_extends(s1, s2);
        lemma_sound_grown(s1, s2);
        lemma_sound_deliver(s2, Value::List(s.lists.len() as usize));
    }
}

proof fn lemma_sound_gather<'a>(
    s: State<'a>,
    node: &'a List,
    next: usize,
    env: usize,
    count: usize,
    spread: bool,
    v: Value,
)
    requires
        s.sound(),
        s.good_env(env),
        s.good_value(v),
        s.gather(node, next, env, count, spread, v).fits(),
    ensures
        s.gather(node, next, env, count, spread, v).sound(),
{
    if !spread {
        if count + 1 > usize::MAX {
            lemma_sound_halt(s, Err(EvalError::IntegerOverflow));
        } else {
            lemma_sound_push(s, Frame::Held(v));
            lemma_sound_elements(s.push(Frame::Held(v)), node, next, env, (count + 1) as usize);
        }
    } else {
        match s.list_of(v) {
            None => lemma_sound_halt(s, Err(EvalError::TypeMismatch)),
            Some(items) => {
                if count + items.len() > usize::MAX {
                    lemma_sound_halt(s, Err(EvalError::IntegerOverflow));
                } else {
                    let stack = s.stack + hold_all(items);
                    let s1 = s.with_stack(stack);
                    assert(s.good_values(items));
                    lemma_hold_all_good(s, items);
                    lemma_boundaries_held(s.stack, items);
                    assert(s1.good_frames(stack)) by {
                        assert forall|i: int| 0 <= i < stack.len() implies s1.good_frame(
                            #[trigger] stack[i],
                        ) by {
                            if i < s.stack.len() {
                                assert(s.good_frame(s.stack[i]));
                            } else {
                                assert(s.good_frame(hold_all::<'a>(items)[i - s.stack.len()]));
                            }
                        }
                    }
                    lemma_sound_with(s, s1);
                    lemma_sound_elements(s1, node, next, env, (count + items.len()) as usize);
                }
            },
        }
    }
}

proof fn lemma_sound_mint<'a>(s: State<'a>)
    requires
        s.sound(),
    ensures
        s.mint().sound(),
{
    if s.next_symbol == u64::MAX {
        lemma_sound_halt(s, Err(EvalError::IntegerOverflow));
    } else {
        let s1 = State { next_symbol: (s.next_symbol + 1) as u64, ..s };
        lemma_sound_with(s, s1);
        lemma_sound_deliver(s1, Value::Symbol(s.next_symbol));
    }
}

proof fn lemma_sound_perform<'a>(s: State<'a>, tag: &'a String, payload: Value)
    requires
        s.sound(),
        s.good_value(payload),
        s.perform(tag, payload).fits(),
    ensures
        s.perform(tag, payload).sound(),
{
    match find_handler(s.stack, tag@) {
        None => {
            let s1 = State {
                effects: s.effects.push(Effect { symbol: tag, value: payload }),
                ..s
            };
            lemma_extends(s, s1);
            lemma_sound_grown(s, s1);
            lemma_sound_deliver(s1, Value::Effect(s.effects.len() as usize));
        },
        Some((h, a)) => {
            lemma_innermost_handler(s.stack, tag@);
            let arm = s.stack[h]->Handle_node.match_arms@[a];
            let env = s.stack[h]->Handle_env;
            let scope = s.scopes.len() as usize;
            assert(s.good_frame(s.stack[h]));
            let s1 = s.with_stack(s.stack.take(h));
            lemma_sound_cut(s, h);
            let piece = s.stack.skip(h);
            let s2 = State { conts: s.conts.push(piece), ..s1 };
            let table = seq![(&arm.param, payload)];
            let s3 = s2.add_scope(table, Some(env), Some(s.conts.len() as usize));
            assert(s3 == s.suspend(h, &arm.param, payload));
            lemma_run_same_store(s3, &*arm.block, 0, scope);
            lemma_extends(s1, s2);
            assert(s2.good_frames(piece)) by {
                assert forall|i: int| 0 <= i < piece.len() implies s2.good_frame(
                    #[trigger] piece[i],
                ) by {
                    assert(s.good_frame(s.stack[h + i]));
                }
            }
            lemma_sound_grown(s1, s2);
            assert(s2.good_table(table));
            lemma_sound_add_scope(s2, table, Some(env), Some(s.conts.len() as usize));
            lemma_sound_run(s3, &*arm.block, 0, scope);
        },
    }
}

proof fn lemma_sound_resume<'a>(s: State<'a>, env: usize, v: Value)
    requires
        s.sound(),
        s.good_value(v),
    ensures
        s.resume(env, v).sound(),
{
    lemma_continuation_good(s, env);
    match s.continuation(env) {
        None => lemma_sound_halt(s, Err(EvalError::UndefinedVariable)),
        Some(k) => {
            let piece = s.conts[k as int];
            if boundaries(s.stack) + boundaries(piece) + 1 > RECURSION_LIMIT {
                lemma_sound_halt(s, Err(EvalError::RecursionLimitExceeded));
            } else {
                let stack = s.stack.push(Frame::Resumed) + piece;
                let s1 = s.with_stack(stack);
                lemma_boundaries_push(s.stack, Frame::Resumed);
                lemma_boundaries_add(s.stack.push(Frame::Resumed), piece);
                assert(s.good_frames(piece));
                assert(s1.good_frames(stack)) by {
                    assert forall|i: int| 0 <= i < stack.len() implies s1.good_frame(
                        #[trigger] stack[i],
                    ) by {
                        if i < s.stack.len() {
                            assert(s.good_frame(s.stack[i]));
                        } else if i > s.stack.len() {
                            assert(s.good_frame(piece[i - s.stack.len() - 1]));
                        }
                    }
                }
                lemma_sound_with(s, s1);
                lemma_sound_deliver(s1, v);
            }
        },
    }
}

proof fn lemma_sound_begin<'a>(s: State<'a>, expr: &'a Expression, env: usize)
    requires
        s.sound(),
        s.good_env(env),
        s.begin(expr, env).fits(),
    ensures
        s.begin(expr, env).sound(),
{
    match *expr {
        Expression::Null(_) => lemma_sound_deliver(s, Value::Null),
        Expression::Bool(b) => lemma_sound_deliver(s, Value::Bool(b.0)),
        Expression::Int(n) => lemma_sound_deliver(s, Value::Int(n.0)),
        Expression::Negative(n) => {
            lemma_sound_push(s, Frame::Negate);
            lemma_sound_eval(s.push(Frame::Negate), &*n.expr, env);
        },
        Expression::Not(n) => {
            lemma_sound_push(s, Frame::Not);
            lemma_sound_eval(s.push(Frame::Not), &*n.expr, env);
        },
        Expression::Boolean(b) => {
            let f = Frame::Left {
                op: BinaryOp::Boolean(b.operator),
                right: &*b.right,
                env,
            };
            lemma_sound_push(s, f);
            lemma_sound_eval(s.push(f), &*b.left, env);
        },
        Expression::Comparison(c) => {
            let f = Frame::Left {
                op: BinaryOp::Comparison(c.operator),
                right: &*c.right,
                env,
            };
            lemma_sound_push(s, f);
            lemma_sound_eval(s.push(f), &*c.left, env);
        },
        Expression::Numeric(n) => {
            let f = Frame::Left {
                op: BinaryOp::Numeric(n.operator),
                right: &*n.right,
                env,
            };
            lemma_sound_push(s, f);
            lemma_sound_eval(s.push(f), &*n.left, env);
        },
        Expression::Dot(d) => {
            let f = Frame::Dot { prop: &d.prop };
            lemma_sound_push(s, f);
            lemma_sound_eval(s.push(f), &*d.base, env);
        },
        Expression::Index(ix) => {
            let f = Frame::IndexBase { index: &*ix.index, env };
            lemma_sound_push(s, f);
            lemma_sound_eval(s.push(f), &*ix.base, env);
        },
        Expression::If(node) => lemma_sound_branch(s, &node, 0, env),
        Expression::Loop(l) => {
            let f = Frame::Loop { body: &*l.body, env };
            lemma_sound_push(s, f);
            lemma_sound_enter(s.push(f), &*l.body, env);
        },
        Expression::Break(b) => match b.expr {
            Some(e) => {
                lemma_sound_push(s, Frame::Break);
                lemma_sound_eval(s.push(Frame::Break), &*e, env);
            },
            None => lemma_sound_loop_exit(s, Value::Null),
        },
        Expression::NextIteration(n) => match n.expr {
            Some(e) => {
                lemma_sound_push(s, Frame::Next);
                lemma_sound_eval(s.push(Frame::Next), &*e, env);
            },
            None => lemma_sound_loop_exit(s, Value::Null),
        },
        Expression::Function(f) => {
            let s1 = State {
                closures: s.closures.push(Closure { function: &f, env }),
                ..s
            };
            lemma_extends(s, s1);
            lemma_sound_grown(s, s1);
            lemma_sound_deliver(s1, Value::Closure(s.closures.len() as usize));
        },
        Expression::Invocation(c) => {
            let f = Frame::Callee { call: &c, env };
            lemma_sound_push(s, f);
            lemma_sound_eval(s.push(f), &*c.base, env);
        },
        Expression::Block(b) => lemma_sound_enter(s, &b, env),
        Expression::Object(o) => lemma_sound_pairs(s, &o, 0, env),
        Expression::List(l) => lemma_sound_elements(s, &l, 0, env, 0),
        Expression::Location(chain) => lemma_sound_start_chain(s, &chain, env, None),
        Expression::Handle(h) => {
            let f = Frame::Handle { node: &h, env };
            lemma_sound_push(s, f);
            lemma_sound_eval(s.push(f), &*h.expr, env);
        },
        Expression::Send(sd) => match sd.expr {
            Some(e) => {
                let f = Frame::Send { tag: &sd.symbol };
                lemma_sound_push(s, f);
                lemma_sound_eval(s.push(f), &*e, env);
            },
            None => lemma_sound_perform(s, &sd.symbol, Value::Null),
        },
        Expression::Continue(c) => match c.expr {
            Some(e) => {
                let f = Frame::Resume { env };
                lemma_sound_push(s, f);
                lemma_sound_eval(s.push(f), &*e, env);
            },
            None => lemma_sound_resume(s, env, Value::Null),
        },
        Expression::Custom(c) => lemma_sound_mint(s),
    }
}

proof fn lemma_sound_apply_frame<'a>(s: State<'a>, f: Frame<'a>, v: Value)
    requires
        s.sound(),
        s.good_frame(f),
        s.good_value(v),
        s.apply_frame(f, v).fits(),
    ensures
        s.apply_frame(f, v).sound(),
{
    match f {
        Frame::Held(_) => lemma_sound_deliver(s, v),
        Frame::Negate => lemma_sound_finish(s, spec_negate(v)),
        Frame::Not => lemma_sound_finish(s, spec_not(v)),
        Frame::Left { op, right, env } => {
            let g = Frame::Right { op, left: v };
            lemma_sound_push(s, g);
            lemma_sound_eval(s.push(g), right, env);
        },
        Frame::Right { op, left } => {
            lemma_binary_good(s, op, left, v);
            lemma_sound_finish(s, s.binary(op, left, v));
        },
        Frame::Dot { prop } => {
            lemma_member_good(s, v, prop@);
            lemma_sound_finish(s, s.member(v, prop@));
        },
        Frame::IndexBase { index, env } => {
            let g = Frame::IndexAt { base: v };
            lemma_sound_push(s, g);
            lemma_sound_eval(s.push(g), index, env);
        },
        Frame::IndexAt { base } => {
            lemma_element_good(s, base, v);
            lemma_sound_finish(s, s.element(base, v));
        },
        Frame::If { node, body, next, env } => match v {
            Value::Bool(true) => lemma_sound_enter(s, body, env),
            Value::Bool(false) => lemma_sound_branch(s, node, next, env),
            _ => lemma_sound_halt(s, Err(EvalError::TypeMismatch)),
        },
        Frame::Loop { body, env } => {
            let g = Frame::Loop { body, env };
            lemma_sound_push(s, g);
            lemma_sound_enter(s.push(g), body, env);
        },
        Frame::Break => lemma_sound_loop_exit(s, v),
        Frame::Next => lemma_sound_loop_exit(s, v),
        Frame::Callee { call, env } => match s.closure_of(v) {
            Some(_) => {
                lemma_sound_push(s, Frame::Held(v));
                lemma_sound_arguments(s.push(Frame::Held(v)), call, 0, env);
            },
            None => lemma_sound_halt(s, Err(EvalError::TypeMismatch)),
        },
        Frame::Arg { call, next, env } => {
            lemma_sound_push(s, Frame::Held(v));
            lemma_sound_arguments(s.push(Frame::Held(v)), call, next, env);
        },
        Frame::Return => lemma_sound_deliver(s, v),
        Frame::Block { block, next, env } => lemma_sound_run(s, block, next, env),
        Frame::Let { name, env } => {
            lemma_sound_declare(s, env, name, v);
            lemma_sound_deliver(s.declare(env, name, v), Value::Null);
        },
        Frame::Chain { chain, next, env, assign } => lemma_sound_walk(
            s,
            chain,
            next,
            env,
            assign,
            v,
        ),
        Frame::ChainIndex { chain, next, env, assign, base } => lemma_sound_walk_index(
            s,
            chain,
            next,
            env,
            assign,
            base,
            v,
        ),
        Frame::StoreSlot { scope, slot } => {
            lemma_sound_store_slot(s, scope, slot, v);
            lemma_sound_deliver(s.store_slot(scope, slot, v), Value::Null);
        },
        Frame::StoreField { object, key } => {
            lemma_sound_store_field(s, object, key, v);
            lemma_sound_deliver(s.store_field(object, key, v), Value::Null);
        },
        Frame::StoreElement { list, index } => {
            lemma_sound_store_element(s, list, index, v);
            lemma_sound_deliver(s.store_element(list, index, v), Value::Null);
        },
        Frame::Pair { node, next, env } => {
            lemma_sound_push(s, Frame::Held(v));
            lemma_sound_pairs(s.push(Frame::Held(v)), node, next, env);
        },
        Frame::Elem { node, next, env, count, spread } => lemma_sound_gather(
            s,
            node,
            next,
            env,
            count,
            spread,
            v,
        ),
        Frame::Handle { node, env } => lemma_sound_deliver(s, v),
        Frame::Send { tag } => lemma_sound_perform(s, tag, v),
        Frame::Resume { env } => lemma_sound_resume(s, env, v),
        Frame::Resumed => lemma_sound_deliver(s, v),
    }
}

/// A fresh interpreter is in a sound state.
pub proof fn lemma_initial_sound(s: State)
    requires
        s == State::initial(),
    ensures
        s.sound(),
{
    assert(s.good_scope(0));
}

/// A step leads from a sound state to a sound state, as long as the store
/// still fits in memory: no handle ever names what is not there, and the
/// calls and resumptions in progress never exceed `RECURSION_LIMIT`.
pub proof fn lemma_step_sound(s: State)
    requires
        s.sound(),
        s.step().fits(),
    ensures
        s.step().sound(),
{
    match s.control {
        Control::Halted(_) => {},
        Control::Eval { expr, env } => lemma_sound_begin(s, expr, env),
        Control::Deliver(v) => {
            if s.stack.len() == 0 {
                lemma_sound_halt(s, Ok(v));
            } else {
                lemma_sound_pop(s);
                lemma_sound_apply_frame(s.with_stack(s.stack.drop_last()), s.stack.last(), v);
            }
        },
    }
}

/// Starting an evaluation leads from a sound state to a sound state.
pub proof fn lemma_load_sound<'a>(s: State<'a>, ast: &'a Block)
    requires
        s.sound(),
    ensures
        s.load(ast).sound(),
{
    assert(Seq::<Frame<'a>>::empty() =~= s.stack.take(0));
    lemma_sound_cut(s, 0);
    lemma_sound_run(s.with_stack(Seq::empty()), ast, 0, 0);
}

} // verus!
