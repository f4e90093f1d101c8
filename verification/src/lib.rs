//! A compiler pipeline core for the ZZ systems language: qualified names, the
//! syntax tree and its lowering from parse trees, name resolution, macro
//! expansion, flattening, the C emitter and the binding emitter, the build
//! cache, and the build driver's decisions, each with a machine-checked
//! contract.

pub mod text;
pub mod assoc;
pub mod name;
pub mod order;
pub mod ast;
pub mod parser;
pub mod lower;
pub mod flatten;
pub mod closed;
pub mod resolver;
pub mod resolve_ast;
pub mod makro;
pub mod expand;
pub mod alias;
pub mod abs;
pub mod settled;
pub mod loader;
pub mod graph;
pub mod uses;
pub mod emitter_rs;
pub mod emitter;
pub mod project;
pub mod pipeline;
pub mod buildcache;
