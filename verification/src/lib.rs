//! Makefile generation for C and C++ source trees.
//!
//! The include resolver turns the `#include` lines of a source tree into a
//! dependency graph; the emitter turns that graph into the text of a Makefile.
pub mod closure;
pub mod config;
pub mod generator;
pub mod graph;
pub mod makefile;
pub mod parser;
pub mod path;
pub mod scan;
pub mod text;
