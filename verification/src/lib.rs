//! An interpreter for a minimal eight-symbol tape language: a generic
//! auto-growing, pointer-addressed linear memory ("tape") and an execution
//! engine that dispatches the symbols `< > + - . , [ ]` over a program tape
//! and a byte-memory tape, matching brackets with a stack.

pub mod engine;
pub mod tape;
