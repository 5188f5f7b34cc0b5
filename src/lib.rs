//! Execution core for Quake 3 virtual machine bytecode: a bounds-checked
//! interpreter over a flat memory image, and a symbol table that turns raw
//! addresses into readable `name+offset` locations.

pub mod interp;
pub mod program;
pub mod symbols;

pub use interp::{Fault, FaultKind, Interpreter, NativeHandler, State, STACK_SIZE};
pub use program::Program;
pub use symbols::{Symbol, SymbolMap};
