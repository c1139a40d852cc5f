//! A toolchain for the AWA5.0 language: the Abyss and its bubbles, the
//! instructions and their three written forms, and the interpreter that
//! carries them out.
//!
//! Every function states what it returns over a model of its data (the chain
//! of bubbles is a sequence of trees, a program a sequence of instructions,
//! a source a sequence of bytes), and is proved to do so.
pub mod abyss;
pub mod arena;
pub mod assembly;
pub mod awascii;
pub mod awatalk;
pub mod awatism;
pub mod batch;
pub mod bits;
pub mod buffered;
mod cast;
pub mod codec;
pub mod combine;
pub mod debugger;
pub mod error;
pub mod format;
pub mod interpreter;
pub mod iter;
pub mod laws;
pub mod linked;
pub mod program;
pub mod text;
pub mod u5;
