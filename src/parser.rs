//! The block state machine: turns lines into events, one block at a time.

use vstd::prelude::*;
use crate::event::{empty_event, Event, EventView, SourceLineView, StackFrame, StackFrameView};
use crate::grammar::{
    frame_spec, header_spec, is_unknown_frame, parse_event_line, parse_src_line, parse_stack_line,
    src_spec, SrcOutcome, SrcView,
};
use crate::text::{trim, trim_str};

verus! {

/// What the parser expects of the next line.
#[derive(PartialEq, Eq, Structural, Clone, Copy, Debug)]
pub enum ParserState {
    /// Ready to parse a new event.
    Start,
    /// After the first line of the event.
    AfterEventLine,
    /// After a header line that carried its frame.
    AfterCombinedLine,
    /// After a stack-frame line.
    AfterStackLine,
    /// After a frame's source-location line.
    AfterSrcLine,
}

pub ghost struct StepView {
    pub state: ParserState,
    pub cur: EventView,
    pub emitted: Option<EventView>,
    pub malformed: bool,
}

pub open spec fn push_frame(e: EventView, name: Seq<char>) -> EventView {
    EventView {
        period: e.period,
        kind: e.kind,
        stack: e.stack.push(StackFrameView { funcname: name, srcline: None }),
    }
}

/// `e` with its last frame given the source location `l`.
pub open spec fn annotate_last(e: EventView, l: SourceLineView) -> EventView {
    if e.stack.len() == 0 {
        e
    } else {
        EventView {
            period: e.period,
            kind: e.kind,
            stack: e.stack.update(
                e.stack.len() - 1,
                StackFrameView { funcname: e.stack.last().funcname, srcline: Some(l) },
            ),
        }
    }
}

pub open spec fn apply_src(e: EventView, o: SrcView) -> EventView {
    match o {
        SrcView::Located(l) => annotate_last(e, l),
        _ => e,
    }
}

/// One line read in state `st` with the event `cur` under construction: the
/// next state, the event then under construction, the event completed by the
/// line if any, and whether the line was malformed.
///
/// A blank line completes the event under construction, and is skipped
/// between blocks. A header that does not parse is reported, and the lines
/// after it are read as the frames of an event without period or kind. A
/// frame whose name and module are both unresolved has no source line after
/// it. A header that carries its frame takes exactly one more line, that
/// frame's source location, and completes the event.
pub open spec fn step_spec(st: ParserState, cur: EventView, line: Seq<char>) -> StepView {
    let t = trim(line);
    if t.len() == 0 {
        if st == ParserState::Start {
            StepView { state: st, cur, emitted: None, malformed: false }
        } else {
            StepView { state: ParserState::Start, cur: empty_event(), emitted: Some(cur), malformed: false }
        }
    } else {
        match st {
            ParserState::Start => match header_spec(t) {
                None => StepView { state: ParserState::AfterEventLine, cur, emitted: None, malformed: true },
                Some(h) => {
                    let c1 = EventView { period: h.period, kind: h.kind, stack: cur.stack };
                    match h.inline_frame {
                        None => StepView {
                            state: ParserState::AfterEventLine,
                            cur: c1,
                            emitted: None,
                            malformed: false,
                        },
                        Some(ft) => match frame_spec(ft) {
                            None => StepView {
                                state: ParserState::AfterEventLine,
                                cur: c1,
                                emitted: None,
                                malformed: true,
                            },
                            Some(fm) => StepView {
                                state: ParserState::AfterCombinedLine,
                                cur: push_frame(c1, fm.0),
                                emitted: None,
                                malformed: false,
                            },
                        },
                    }
                },
            },
            ParserState::AfterStackLine => match src_spec(t) {
                SrcView::Malformed => StepView { state: st, cur, emitted: None, malformed: true },
                o => StepView {
                    state: ParserState::AfterSrcLine,
                    cur: apply_src(cur, o),
                    emitted: None,
                    malformed: false,
                },
            },
            ParserState::AfterCombinedLine => {
                let o = src_spec(t);
                StepView {
                    state: ParserState::Start,
                    cur: empty_event(),
                    emitted: Some(apply_src(cur, o)),
                    malformed: o is Malformed,
                }
            },
            _ => match frame_spec(t) {
                None => StepView { state: st, cur, emitted: None, malformed: true },
                Some(fm) => StepView {
                    state: if is_unknown_frame(fm.0, fm.1) {
                        st
                    } else {
                        ParserState::AfterStackLine
                    },
                    cur: push_frame(cur, fm.0),
                    emitted: None,
                    malformed: false,
                },
            },
        }
    }
}

pub ghost struct RunView {
    pub event: Option<EventView>,
    pub state: ParserState,
    pub cur: EventView,
    pub pos: int,
    pub malformed: Seq<Seq<char>>,
}

/// Reading from line `pos` on until an event is complete or the lines run
/// out: the event, the state and position after it, and the malformed lines
/// met on the way. Running out of lines completes the event under
/// construction, unless the parser is at the start of a block.
pub open spec fn run_spec(st: ParserState, cur: EventView, lines: Seq<Seq<char>>, pos: int) -> RunView
    decreases lines.len() - pos,
{
    if pos < 0 || pos >= lines.len() {
        if st == ParserState::Start {
            RunView { event: None, state: st, cur, pos, malformed: Seq::empty() }
        } else {
            RunView {
                event: Some(cur),
                state: ParserState::Start,
                cur: empty_event(),
                pos,
                malformed: Seq::empty(),
            }
        }
    } else {
        let s = step_spec(st, cur, lines[pos]);
        let bad = if s.malformed {
            seq![trim(lines[pos])]
        } else {
            Seq::empty()
        };
        if s.emitted is Some {
            RunView { event: s.emitted, state: s.state, cur: s.cur, pos: pos + 1, malformed: bad }
        } else {
            let r = run_spec(s.state, s.cur, lines, pos + 1);
            RunView { event: r.event, state: r.state, cur: r.cur, pos: r.pos, malformed: bad + r.malformed }
        }
    }
}

/// A run from a state where no event is half-built ends in such a state,
/// after its starting line, and reads at least one line where any is left.
pub proof fn lemma_run_advances(st: ParserState, cur: EventView, lines: Seq<Seq<char>>, pos: int)
    requires
        0 <= pos <= lines.len(),
        st == ParserState::Start ==> cur == empty_event(),
    ensures
        ({
            let r = run_spec(st, cur, lines, pos);
            &&& r.state == ParserState::Start
            &&& r.cur == empty_event()
            &&& pos <= r.pos <= lines.len()
            &&& (pos < lines.len() ==> pos < r.pos)
            &&& (r.event is None ==> r.pos == lines.len())
        }),
    decreases lines.len() - pos,
{
    if pos < lines.len() {
        let s = step_spec(st, cur, lines[pos]);
        if s.emitted is None {
            lemma_run_advances(s.state, s.cur, lines, pos + 1);
        }
    }
}

/// All the events of `lines`, read from line `pos` on.
pub open spec fn events_from(lines: Seq<Seq<char>>, pos: int) -> Seq<EventView>
    decreases lines.len() - pos,
{
    let r = run_spec(ParserState::Start, empty_event(), lines, pos);
    match r.event {
        None => Seq::empty(),
        Some(e) => if pos < r.pos <= lines.len() {
            seq![e] + events_from(lines, r.pos)
        } else {
            seq![e]
        },
    }
}

/// The malformed lines of `lines`, read from line `pos` on.
pub open spec fn malformed_from(lines: Seq<Seq<char>>, pos: int) -> Seq<Seq<char>>
    decreases lines.len() - pos,
{
    let r = run_spec(ParserState::Start, empty_event(), lines, pos);
    if r.event is Some && pos < r.pos <= lines.len() {
        r.malformed + malformed_from(lines, r.pos)
    } else {
        r.malformed
    }
}

/// All the events of a report, and its malformed lines.
pub open spec fn parse_spec(lines: Seq<Seq<char>>) -> (Seq<EventView>, Seq<Seq<char>>) {
    (events_from(lines, 0), malformed_from(lines, 0))
}

pub open spec fn strings_view(v: Seq<String>) -> Seq<Seq<char>> {
    v.map_values(|s: String| s@)
}

pub open spec fn opt_event_view(e: Option<Event>) -> Option<EventView> {
    match e {
        Some(e) => Some(e@),
        None => None,
    }
}

/// Turns the lines of a report into events, one block at a time. Malformed
/// lines are skipped and kept, trimmed, for the caller to report.
pub struct Parser {
    lines: Vec<String>,
    pos: usize,
    state: ParserState,
    cur_event: Event,
    malformed: Vec<String>,
}

impl Parser {
    pub closed spec fn lines(&self) -> Seq<Seq<char>> {
        strings_view(self.lines@)
    }

    pub closed spec fn pos(&self) -> int {
        self.pos as int
    }

    pub closed spec fn state(&self) -> ParserState {
        self.state
    }

    pub closed spec fn cur(&self) -> EventView {
        self.cur_event@
    }

    pub closed spec fn malformed(&self) -> Seq<Seq<char>> {
        strings_view(self.malformed@)
    }

    pub fn new(lines: Vec<String>) -> (r: Parser)
        ensures
            r.lines() == strings_view(lines@),
            r.pos() == 0,
            r.state() == ParserState::Start,
            r.cur() == empty_event(),
            r.malformed() == Seq::<Seq<char>>::empty(),
    {
        let r = Parser {
            lines,
            pos: 0,
            state: ParserState::Start,
            cur_event: Event::empty(),
            malformed: Vec::new(),
        };
        assert(r.malformed() =~= Seq::<Seq<char>>::empty());
        r
    }

    /// The malformed lines met so far, trimmed, in the order read.
    pub fn malformed_lines(&self) -> (r: &Vec<String>)
        ensures
            strings_view(r@) == self.malformed(),
    {
        &self.malformed
    }

    /// The malformed lines met, trimmed, in the order read.
    pub fn into_malformed(self) -> (r: Vec<String>)
        ensures
            strings_view(r@) == self.malformed(),
    {
        self.malformed
    }

    fn take_event(&mut self) -> (r: Event)
        ensures
            r@ == old(self).cur_event@,
            final(self).cur_event@ == empty_event(),
            final(self).lines == old(self).lines,
            final(self).pos == old(self).pos,
            final(self).state == old(self).state,
            final(self).malformed == old(self).malformed,
    {
        let mut e = Event::empty();
        std::mem::swap(&mut e, &mut self.cur_event);
        e
    }

    fn push_frame(&mut self, name: String)
        ensures
            final(self).cur_event@ == push_frame(old(self).cur_event@, name@),
            final(self).lines == old(self).lines,
            final(self).pos == old(self).pos,
            final(self).state == old(self).state,
            final(self).malformed == old(self).malformed,
    {
        self.cur_event.stack.push(StackFrame { funcname: name, srcline: None });
        assert(self.cur_event@.stack =~= push_frame(old(self).cur_event@, name@).stack);
    }

    fn apply_src(&mut self, o: SrcOutcome)
        ensures
            final(self).cur_event@ == apply_src(old(self).cur_event@, o@),
            final(self).lines == old(self).lines,
            final(self).pos == old(self).pos,
            final(self).state == old(self).state,
            final(self).malformed == old(self).malformed,
    {
        match o {
            SrcOutcome::Located(l) => {
                match self.cur_event.stack.pop() {
                    Some(f) => {
                        self.cur_event.stack.push(StackFrame { funcname: f.funcname, srcline: Some(l) });
                        assert(self.cur_event@.stack =~= apply_src(old(self).cur_event@, o@).stack);
                    },
                    None => {},
                }
            },
            _ => {},
        }
    }

    fn note_malformed(&mut self, line: &str)
        ensures
            final(self).malformed() == old(self).malformed().push(trim(line@)),
            final(self).lines == old(self).lines,
            final(self).pos == old(self).pos,
            final(self).state == old(self).state,
            final(self).cur_event == old(self).cur_event,
    {
        self.malformed.push(trim_str(line).to_owned());
        assert(self.malformed() =~= old(self).malformed().push(trim(line@)));
    }

    fn step(&mut self, line: &str) -> (r: Option<Event>)
        ensures
            ({
                let s = step_spec(old(self).state, old(self).cur_event@, line@);
                &&& opt_event_view(r) == s.emitted
                &&& final(self).state == s.state
                &&& final(self).cur_event@ == s.cur
                &&& final(self).malformed() == if s.malformed {
                    old(self).malformed().push(trim(line@))
                } else {
                    old(self).malformed()
                }
            }),
            final(self).lines == old(self).lines,
            final(self).pos == old(self).pos,
    {
        let t = trim_str(line);
        if t.is_empty() {
            if self.state == ParserState::Start {
                return None;
            }
            self.state = ParserState::Start;
            return Some(self.take_event());
        }
        match self.state {
            ParserState::Start => match parse_event_line(t) {
                None => {
                    self.state = ParserState::AfterEventLine;
                    self.note_malformed(line);
                    None
                },
                Some(h) => {
                    self.cur_event.period = h.period;
                    self.cur_event.kind = h.kind;
                    self.state = ParserState::AfterEventLine;
                    match h.inline_frame {
                        None => {},
                        Some(ft) => match parse_stack_line(ft.as_str()) {
                            None => {
                                self.note_malformed(line);
                            },
                            Some(f) => {
                                self.push_frame(f.0);
                                self.state = ParserState::AfterCombinedLine;
                            },
                        },
                    }
                    None
                },
            },
            ParserState::AfterStackLine => {
                let o = parse_src_line(t);
                match o {
                    SrcOutcome::Malformed => {
                        self.note_malformed(line);
                    },
                    _ => {
                        self.apply_src(o);
                        self.state = ParserState::AfterSrcLine;
                    },
                }
                None
            },
            ParserState::AfterCombinedLine => {
                let o = parse_src_line(t);
                if let SrcOutcome::Malformed = o {
                    self.note_malformed(line);
                }
                self.apply_src(o);
                self.state = ParserState::Start;
                Some(self.take_event())
            },
            _ => match parse_stack_line(t) {
                None => {
                    self.note_malformed(line);
                    None
                },
                Some(f) => {
                    self.push_frame(f.0);
                    if !f.1 {
                        self.state = ParserState::AfterStackLine;
                    }
                    None
                },
            },
        }
    }

    /// The next event: reads lines until a block is complete or the lines run
    /// out.
    pub fn next(&mut self) -> (r: Option<Event>)
        ensures
            ({
                let run = run_spec(old(self).state(), old(self).cur(), old(self).lines(), old(self).pos());
                &&& opt_event_view(r) == run.event
                &&& final(self).state() == run.state
                &&& final(self).cur() == run.cur
                &&& final(self).pos() == run.pos
                &&& final(self).malformed() == old(self).malformed() + run.malformed
            }),
            final(self).lines() == old(self).lines(),
    {
        let ghost run = run_spec(self.state(), self.cur(), self.lines(), self.pos());
        loop
            invariant
                self.lines() == old(self).lines(),
                run == run_spec(old(self).state(), old(self).cur(), old(self).lines(), old(self).pos()),
                ({
                    let now = run_spec(self.state(), self.cur(), self.lines(), self.pos());
                    &&& now.event == run.event
                    &&& now.state == run.state
                    &&& now.cur == run.cur
                    &&& now.pos == run.pos
                    &&& self.malformed() + now.malformed == old(self).malformed() + run.malformed
                }),
            decreases self.lines@.len() - self.pos,
        {
            if self.pos >= self.lines.len() {
                assert(self.malformed() + Seq::<Seq<char>>::empty() =~= self.malformed());
                assert(self.pos() >= self.lines().len());
                if self.state == ParserState::Start {
                    return None;
                }
                self.state = ParserState::Start;
                return Some(self.take_event());
            }
            let line = self.lines[self.pos].clone();
            let ghost before = self.malformed();
            let ghost st0 = self.state;
            let ghost cur0 = self.cur_event@;
            let ghost p = self.pos as int;
            let ghost now = run_spec(st0, cur0, self.lines(), p);
            assert(self.lines()[p] == line@);
            let out = self.step(line.as_str());
            self.pos = self.pos + 1;
            proof {
                let s = step_spec(st0, cur0, line@);
                let bad = if s.malformed {
                    seq![trim(line@)]
                } else {
                    Seq::<Seq<char>>::empty()
                };
                assert(self.malformed() =~= before + bad);
                if s.emitted is None {
                    let r = run_spec(s.state, s.cur, self.lines(), p + 1);
                    assert(now.malformed == bad + r.malformed);
                    assert(self.malformed() + r.malformed =~= before + now.malformed);
                }
            }
            match out {
                Some(e) => {
                    return Some(e);
                },
                None => {},
            }
        }
    }
}

pub open spec fn is_blank(line: Seq<char>) -> bool {
    trim(line).len() == 0
}

/// A non-blank line that opens a block.
pub open spec fn block_starts_at(lines: Seq<Seq<char>>, i: int) -> bool {
    !is_blank(lines[i]) && (i == 0 || is_blank(lines[i - 1]))
}

/// The number of blocks (maximal runs of non-blank lines) from line `i` on.
pub open spec fn blocks_from(lines: Seq<Seq<char>>, i: int) -> nat
    decreases lines.len() - i,
{
    if i < 0 || i >= lines.len() {
        0
    } else if block_starts_at(lines, i) {
        1 + blocks_from(lines, i + 1)
    } else {
        blocks_from(lines, i + 1)
    }
}

/// A header that carries no frame of its own, as in the verbose form.
pub open spec fn verbose_header(line: Seq<char>) -> bool {
    match header_spec(trim(line)) {
        Some(h) => h.inline_frame is None,
        None => true,
    }
}

pub open spec fn in_block(st: ParserState) -> bool {
    st == ParserState::AfterEventLine || st == ParserState::AfterStackLine || st
        == ParserState::AfterSrcLine
}

proof fn lemma_block_rest(st: ParserState, cur: EventView, lines: Seq<Seq<char>>, i: int)
    requires
        1 <= i <= lines.len(),
        !is_blank(lines[i - 1]),
        in_block(st),
    ensures
        ({
            let r = run_spec(st, cur, lines, i);
            &&& r.event is Some
            &&& i <= r.pos <= lines.len()
            &&& (r.pos == lines.len() || is_blank(lines[r.pos - 1]))
            &&& blocks_from(lines, i) == blocks_from(lines, r.pos)
        }),
    decreases lines.len() - i,
{
    if i < lines.len() {
        let s = step_spec(st, cur, lines[i]);
        if !is_blank(lines[i]) {
            lemma_block_rest(s.state, s.cur, lines, i + 1);
        }
    }
}

proof fn lemma_block_whole(lines: Seq<Seq<char>>, i: int)
    requires
        0 <= i <= lines.len(),
        i == 0 || i == lines.len() || is_blank(lines[i - 1]),
        forall|k: int| 0 <= k < lines.len() && block_starts_at(lines, k) ==> verbose_header(
            #[trigger] lines[k],
        ),
    ensures
        ({
            let r = run_spec(ParserState::Start, empty_event(), lines, i);
            &&& r.event is None ==> blocks_from(lines, i) == 0
            &&& r.event is Some ==> {
                &&& i < r.pos <= lines.len()
                &&& (r.pos == lines.len() || is_blank(lines[r.pos - 1]))
                &&& blocks_from(lines, i) == 1 + blocks_from(lines, r.pos)
            }
        }),
    decreases lines.len() - i,
{
    if i < lines.len() {
        if is_blank(lines[i]) {
            lemma_block_whole(lines, i + 1);
        } else {
            assert(block_starts_at(lines, i));
            assert(verbose_header(lines[i]));
            let s = step_spec(ParserState::Start, empty_event(), lines[i]);
            assert(s.state == ParserState::AfterEventLine && s.emitted is None);
            lemma_block_rest(s.state, s.cur, lines, i + 1);
        }
    }
}

proof fn lemma_events_count(lines: Seq<Seq<char>>, i: int)
    requires
        0 <= i <= lines.len(),
        i == 0 || i == lines.len() || is_blank(lines[i - 1]),
        forall|k: int| 0 <= k < lines.len() && block_starts_at(lines, k) ==> verbose_header(
            #[trigger] lines[k],
        ),
    ensures
        events_from(lines, i).len() == blocks_from(lines, i),
    decreases lines.len() - i,
{
    lemma_block_whole(lines, i);
    let r = run_spec(ParserState::Start, empty_event(), lines, i);
    if r.event is Some {
        lemma_events_count(lines, r.pos);
    }
}

/// Where each block opens with a header that carries no frame of its own,
/// there are as many events as blocks of non-blank lines, the last block
/// counting whether a blank line ends it or not.
pub proof fn lemma_one_event_per_block(lines: Seq<Seq<char>>)
    requires
        forall|k: int| 0 <= k < lines.len() && block_starts_at(lines, k) ==> verbose_header(
            #[trigger] lines[k],
        ),
    ensures
        parse_spec(lines).0.len() == blocks_from(lines, 0),
{
    lemma_events_count(lines, 0);
}

/// Whether reading `line` in state `st` parses a stack-frame line, on its own
/// or carried by a header.
pub open spec fn parses_frame(st: ParserState, line: Seq<char>) -> bool {
    let t = trim(line);
    t.len() > 0 && match st {
        ParserState::Start => match header_spec(t) {
            Some(h) => match h.inline_frame {
                Some(ft) => frame_spec(ft) is Some,
                None => false,
            },
            None => false,
        },
        ParserState::AfterEventLine | ParserState::AfterSrcLine => frame_spec(t) is Some,
        _ => false,
    }
}

/// The number of stack-frame lines parsed while reading from line `pos` on
/// until an event is complete.
pub open spec fn frames_in_run(st: ParserState, cur: EventView, lines: Seq<Seq<char>>, pos: int) -> nat
    decreases lines.len() - pos,
{
    if pos < 0 || pos >= lines.len() {
        0
    } else {
        let s = step_spec(st, cur, lines[pos]);
        let here: nat = if parses_frame(st, lines[pos]) {
            1
        } else {
            0
        };
        if s.emitted is Some {
            here
        } else {
            here + frames_in_run(s.state, s.cur, lines, pos + 1)
        }
    }
}

/// An event's stack holds the frames it had when the run began, and one more
/// for each stack-frame line parsed on the way; malformed lines add none.
pub proof fn lemma_stack_counts_frame_lines(
    st: ParserState,
    cur: EventView,
    lines: Seq<Seq<char>>,
    pos: int,
)
    ensures
        ({
            let r = run_spec(st, cur, lines, pos);
            r.event is Some ==> r.event->0.stack.len() == cur.stack.len() + frames_in_run(
                st,
                cur,
                lines,
                pos,
            )
        }),
    decreases lines.len() - pos,
{
    if 0 <= pos < lines.len() {
        let s = step_spec(st, cur, lines[pos]);
        if s.emitted is None {
            lemma_stack_counts_frame_lines(s.state, s.cur, lines, pos + 1);
        }
    }
}

/// Each event read from the start of a block has one frame per stack-frame
/// line parsed in its block.
pub proof fn lemma_block_stack_length(lines: Seq<Seq<char>>, pos: int)
    ensures
        ({
            let r = run_spec(ParserState::Start, empty_event(), lines, pos);
            r.event is Some ==> r.event->0.stack.len() == frames_in_run(
                ParserState::Start,
                empty_event(),
                lines,
                pos,
            )
        }),
{
    lemma_stack_counts_frame_lines(ParserState::Start, empty_event(), lines, pos);
}

pub open spec fn events_view(v: Seq<Event>) -> Seq<EventView> {
    v.map_values(|e: Event| e@)
}

/// Reads all the events of a report; gives them, and the malformed lines
/// (trimmed) in the order met.
pub fn parse_events(lines: Vec<String>) -> (r: (Vec<Event>, Vec<String>))
    ensures
        events_view(r.0@) == parse_spec(strings_view(lines@)).0,
        strings_view(r.1@) == parse_spec(strings_view(lines@)).1,
{
    let ghost ls = strings_view(lines@);
    let mut p = Parser::new(lines);
    let mut events: Vec<Event> = Vec::new();
    assert(events_view(events@) + events_from(ls, 0) =~= events_from(ls, 0));
    assert(p.malformed() + malformed_from(ls, 0) =~= malformed_from(ls, 0));
    loop
        invariant
            p.lines() == ls,
            ls == strings_view(lines@),
            p.state() == ParserState::Start,
            p.cur() == empty_event(),
            0 <= p.pos() <= ls.len(),
            events_view(events@) + events_from(ls, p.pos()) == events_from(ls, 0),
            p.malformed() + malformed_from(ls, p.pos()) == malformed_from(ls, 0),
        decreases ls.len() - p.pos(),
    {
        let ghost pos = p.pos();
        let ghost before = p.malformed();
        proof {
            lemma_run_advances(ParserState::Start, empty_event(), ls, pos);
        }
        let ghost evs_before = events_view(events@);
        match p.next() {
            Some(e) => {
                let ghost ev = e@;
                events.push(e);
                proof {
                    let r = run_spec(ParserState::Start, empty_event(), ls, pos);
                    assert(events_view(events@) =~= evs_before.push(ev));
                    assert(events_from(ls, pos) == seq![ev] + events_from(ls, r.pos));
                    assert(evs_before.push(ev) + events_from(ls, r.pos) =~= evs_before + (seq![ev]
                        + events_from(ls, r.pos)));
                    assert(malformed_from(ls, pos) == r.malformed + malformed_from(ls, r.pos));
                    assert(before + r.malformed + malformed_from(ls, r.pos) =~= before + (
                    r.malformed + malformed_from(ls, r.pos)));
                }
            },
            None => {
                proof {
                    let r = run_spec(ParserState::Start, empty_event(), ls, pos);
                    assert(events_from(ls, pos) =~= Seq::<EventView>::empty());
                    assert(events_view(events@) + Seq::<EventView>::empty() =~= events_view(events@));
                    assert(p.malformed() =~= before + r.malformed);
                }
                let malformed = p.into_malformed();
                return (events, malformed);
            },
        }
    }
}

} // verus!
