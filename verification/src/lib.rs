//! DSCH: a compiler for a structured music composition language.
//!
//! The library holds the language's syntax tree, the context arena that the
//! composer fills, the sequencing pass that merges concurrent voices into a
//! timeline, and the scheduler that turns the timeline into MIDI events.
pub mod compiler;
