//! Parsing of a sampling profiler's per-sample text report into events, and
//! attribution of the samples to source lines of a project.

pub mod attribute;
pub mod event;
pub mod grammar;
pub mod parser;
pub mod text;

pub use attribute::{
    attribute, attribution_of, parse_and_attribute, AttributeError, AttributedPerf, LineLoc,
};
pub use event::{Event, SourceLine, StackFrame};
pub use grammar::{parse_event_line, parse_src_line, parse_stack_line, Header, SrcOutcome};
pub use parser::{parse_events, Parser, ParserState};
pub use text::{char_vec, parse_usize, trim_range};
