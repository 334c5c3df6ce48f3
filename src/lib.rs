//! An interpreter for a small APL-like language of integer arrays.
//!
//! A line is split into tokens (`token`), evaluated right to left against a set of
//! variable bindings (`eval`, `env`) by the primitive verbs (`verbs`) over nestable
//! arrays (`array`), and written out as text (`render`). Every function is verified
//! against a mathematical model of its result; `laws` states properties that relate
//! several of them.
use vstd::prelude::*;

pub mod array;
pub mod verbs;
pub mod token;
pub mod env;
pub mod eval;
pub mod laws;
pub mod render;

verus! {

} // verus!
