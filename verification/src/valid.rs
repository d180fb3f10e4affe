//! The states that evaluation can reach.

use crate::ast::Block;
use crate::laws::lemma_run_one_more;
use crate::machine::State;
use crate::shape::{lemma_load_formed, lemma_step_formed};
use crate::sound::{lemma_initial_sound, lemma_load_sound, lemma_step_sound};
use vstd::prelude::*;

verus! {

impl<'a> State<'a> {
    /// The states that evaluation can reach: every handle names something
    /// that is in the store, the calls and resumptions in progress are within
    /// the limit, and the stack and every suspended piece of one are
    /// well-shaped.
    pub open spec fn valid(self) -> bool {
        self.sound() && self.formed()
    }
}

/// A fresh interpreter is in a valid state.
pub proof fn lemma_initial_valid(s: State)
    requires
        s == State::initial(),
    ensures
        s.valid(),
{
    lemma_initial_sound(s);
}

/// A step leads from a valid state to a valid state, as long as the store
/// still fits in memory.
pub proof fn lemma_step_valid(s: State)
    requires
        s.valid(),
        s.step().fits(),
    ensures
        s.step().valid(),
{
    lemma_step_sound(s);
    lemma_step_formed(s);
}

/// Starting an evaluation leads from a valid state to a valid state.
pub proof fn lemma_load_valid<'a>(s: State<'a>, ast: &'a Block)
    requires
        s.valid(),
    ensures
        s.load(ast).valid(),
{
    lemma_load_sound(s, ast);
    lemma_load_formed(s, ast);
}

/// Steps lead from a valid state to valid states, as long as the store still
/// fits in memory after each of them.
pub proof fn lemma_run_valid(s: State, n: nat)
    requires
        s.valid(),
        forall|k: nat| k <= n ==> (#[trigger] s.run_for(k)).fits(),
    ensures
        s.run_for(n).valid(),
    decreases n,
{
    if n > 0 {
        lemma_run_valid(s, (n - 1) as nat);
        lemma_run_one_more(s, (n - 1) as nat);
        assert(s.run_for(n).fits());
        lemma_step_valid(s.run_for((n - 1) as nat));
    }
}

} // verus!
