//! A small dynamic-language interpreter stack: a granule-addressed managed
//! heap with mark-and-sweep collection, a tagged machine-word value
//! representation, a closure-conversion pass, a bytecode assembler and a
//! register virtual machine.

pub mod layout;
pub mod value;
pub mod freelist;
pub mod heap;
pub mod interp;
pub mod ast;
pub mod bytecode;
pub mod vm;
pub mod flatten;
