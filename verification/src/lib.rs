//! A small ahead-of-time compiler for a parenthesized language.
//!
//! Source text is lexed into tokens ([`lex`]), parsed into a nested-list
//! syntax tree ([`parse`]), lowered into a program of named functions
//! ([`lower`], [`program`]), and emitted as textual x86-64 assembly
//! ([`scope`], [`emit`], [`codegen`], [`amd64`]). Every stage is a verified
//! function whose contract is stated over a mathematical model of its input
//! and output.

pub mod amd64;
pub mod chars;
pub mod codegen;
pub mod emit;
pub mod lex;
pub mod lower;
pub mod parse;
pub mod program;
pub mod scope;
