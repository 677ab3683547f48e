// An interpreter for a small dynamically typed language: a scanner that yields tokens on
// demand, a single-pass precedence-climbing compiler that emits bytecode into a chunk, and
// a stack machine that runs the chunk against a heap of interned strings.
//
// Numbers are IEEE-754 doubles held as their bit patterns. Reading a number literal and
// the four arithmetic operations are supplied by the caller as functions on bit patterns;
// equality, ordering and negation are computed here.
use vstd::prelude::*;

pub mod chunk;
pub mod compiler;
pub mod debug;
pub mod error;
pub mod grammar;
pub mod heap;
pub mod location;
pub mod number;
pub mod scanner;
pub mod token;
pub mod vm;

verus! {

} // verus!
