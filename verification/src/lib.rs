//! A meta-tracing runtime core: the phase machine that decides, at each control point of an
//! interpreted program, whether to count, trace, compile or run compiled code; and the reader of
//! the MIR control-flow-graph section that maps hardware traces back to MIR blocks.

pub mod metatracer;
pub mod trace_mapping;
