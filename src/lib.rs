use vstd::prelude::*;

pub mod dependency;
pub mod module;
pub mod module_graph;
pub mod factory;
pub mod scanner;
pub mod compiler;
pub mod chunk_graph;
pub mod linker;
pub mod compilation;
pub mod plugin;
pub mod laws;
