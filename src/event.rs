//! Parsed events: one sampled occurrence with its call stack.

use vstd::prelude::*;

verus! {

/// A source file path and a line number in it.
#[derive(Debug, Clone)]
pub struct SourceLine {
    pub path: String,
    pub line: usize,
}

/// One frame of a captured call stack.
#[derive(Debug, Clone)]
pub struct StackFrame {
    pub funcname: String,
    pub srcline: Option<SourceLine>,
}

/// One sampled occurrence: its weight, its kind and its stack, innermost frame first.
#[derive(Debug, Clone)]
pub struct Event {
    pub period: Option<usize>,
    pub kind: String,
    pub stack: Vec<StackFrame>,
}

pub ghost struct SourceLineView {
    pub path: Seq<char>,
    pub line: usize,
}

pub ghost struct StackFrameView {
    pub funcname: Seq<char>,
    pub srcline: Option<SourceLineView>,
}

pub ghost struct EventView {
    pub period: Option<usize>,
    pub kind: Seq<char>,
    pub stack: Seq<StackFrameView>,
}

impl View for SourceLine {
    type V = SourceLineView;

    open spec fn view(&self) -> SourceLineView {
        SourceLineView { path: self.path@, line: self.line }
    }
}

pub open spec fn opt_srcline_view(s: Option<SourceLine>) -> Option<SourceLineView> {
    match s {
        Some(l) => Some(l@),
        None => None,
    }
}

impl View for StackFrame {
    type V = StackFrameView;

    open spec fn view(&self) -> StackFrameView {
        StackFrameView { funcname: self.funcname@, srcline: opt_srcline_view(self.srcline) }
    }
}

impl View for Event {
    type V = EventView;

    open spec fn view(&self) -> EventView {
        EventView {
            period: self.period,
            kind: self.kind@,
            stack: self.stack@.map_values(|f: StackFrame| f@),
        }
    }
}

/// The event that a block starts from: no weight, no kind, no frames.
pub open spec fn empty_event() -> EventView {
    EventView { period: None, kind: Seq::empty(), stack: Seq::empty() }
}

impl Event {
    pub fn empty() -> (r: Event)
        ensures
            r@ == empty_event(),
    {
        let r = Event { period: None, kind: String::new(), stack: Vec::new() };
        assert(r@.stack =~= Seq::<StackFrameView>::empty());
        r
    }
}

} // verus!
