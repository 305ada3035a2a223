//! A compiler for a small stack language: source text is split into tokens,
//! macros are expanded, tokens become commands, and commands become x86-64
//! assembly for nasm, or are run by a simulator.
#[allow(unused_imports)]
use vstd::prelude::*;

pub mod text;
pub mod lexer;
pub mod instructions;
pub mod parser;
pub mod expansion;
pub mod pairing;
pub mod simulator;
pub mod generator;
pub mod comparison;
pub mod generated_code;
pub mod compiler;
