//! The execution core of kal, a small dynamically typed expression language
//! with closures, mutable lexical scopes and algebraic effect handlers.
//!
//! The core takes a program tree (`ast`), which something else has parsed,
//! and evaluates it to a value or an error (`value`). Evaluation is defined
//! by an abstract machine (`machine`) whose states are plain data: what is
//! being done, the frames that wait for it, and the store. That is what makes
//! `send`, `handle` and `continue` possible: a `send` cuts the waiting frames
//! at its handler and keeps the piece, a `continue` puts a copy of it back.
//! The interpreter (`eval`) is the machine on real memory, and is proved to
//! take the machine's steps.
//!
//! What holds of every evaluation is proved of the machine: `sound`, `shape`
//! and `valid` show which states can be reached; `laws` states what a step
//! does for symbols, names, operators, calls, literals and effects;
//! `context` shows that an expression is evaluated in the same way wherever
//! it stands, and from that what operators, conditionals, statements,
//! handlers and resumptions come to.
//!
//! Choices that a reader should know:
//! - The tag of a `send` and of a handler arm is a name. Tags are compared as
//!   written and are not looked up in any scope.
//! - A `send` that no handler takes is no failure: its value is an effect
//!   value, which is passed on like any other value and is the result of the
//!   evaluation where nothing else is made of it.
//! - Objects and lists are shared, not copied: two names of one list see each
//!   other's writes. Every resumption of a suspended computation sees the
//!   store as it is then, not as it was at the `send`.
//! - `Equal` and `NotEqual` compare values of one kind: lists, objects and
//!   effects by content, symbols by id, closures by identity. The order
//!   comparisons are for integers.
//! - Integer results that do not fit in 64 bits are errors. Division rounds
//!   toward zero.
//! - Nothing is released before the interpreter is.

pub mod ast;
pub mod context;
pub mod eval;
pub mod laws;
pub mod machine;
pub mod shape;
pub mod sound;
mod store;
pub mod valid;
pub mod value;
