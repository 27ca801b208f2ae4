//! A small ahead-of-time compiler for a strict, expression-oriented language
//! with first-class functions, tuples and a conditional.
//!
//! Source text is parsed into a syntax tree ([`parser`], [`ast`]). The tree
//! is compiled into a program in single-assignment form ([`compiler`],
//! [`ir`]); expressions are typed on the way ([`types`]), and a function is
//! compiled once for every shape of argument that it is called with
//! ([`impls`]). The program can be printed ([`listing`]), run
//! ([`execute`]), and analysed for a register allocator
//! ([`register_allocator`]).
//!
//! What the compiler does is laid down in [`elaboration`], and what holds of
//! every program that it makes in [`state`], [`cursor`] and [`defined`]. What a program
//! means is laid down in [`semantics`]; that the compiled program computes
//! it is shown in [`agreement`], [`soundness`] and [`running`]. What the walk
//! of the register allocator comes to is shown in [`reach`] and [`uses`].

pub mod agreement;
pub mod ast;
pub mod compiler;
pub mod cursor;
pub mod defined;
pub mod elaboration;
pub mod execute;
pub mod impls;
pub mod ir;
pub mod listing;
pub mod literal;
pub mod parser;
pub mod position;
pub mod pretty;
pub mod reach;
pub mod register_allocator;
pub mod running;
pub mod scope;
pub mod semantics;
pub mod soundness;
pub mod state;
pub mod text;
pub mod types;
pub mod uses;
