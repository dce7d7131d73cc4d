//! Recovery of basic blocks and control-flow edges from x86 machine code.
//!
//! `insn` decodes single instructions, `builder` sweeps a function's bytes,
//! computes its leaders and cuts it into blocks, `cfg` holds the resulting
//! graph with its queries and block splitting, `driver` builds the graphs of
//! every function reachable by direct calls, and `determinism` shows that a
//! graph is a function of the buffer and the entry alone.
pub mod error;
pub mod insn;
pub mod cfg;
pub mod builder;
pub mod driver;
pub mod determinism;
