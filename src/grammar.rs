//! The three line shapes of a block: the event header, a stack frame and a
//! source location.

use vstd::prelude::*;
use crate::event::{SourceLine, SourceLineView};
use crate::text::{
    char_vec, find_first, find_last, find_last_pair, first_from, last_before, last_pair_before,
    parse_usize, skip_char, skip_run, trim, trim_str, usize_of,
};

verus! {

/// Start and end of the first run of characters other than `:` at or after `i`
/// (the next non-empty piece of a split on `:`).
pub open spec fn chunk_at(s: Seq<char>, i: int) -> Option<(int, int)> {
    let a = skip_char(s, ':', i);
    if a >= s.len() {
        None
    } else {
        match first_from(s, ':', a) {
            Some(b) => Some((a, b)),
            None => Some((a, s.len() as int)),
        }
    }
}

pub ghost struct HeaderView {
    pub period: Option<usize>,
    pub kind: Seq<char>,
    pub inline_frame: Option<Seq<char>>,
}

/// The `<period> <kind>` field of a header line and its inline frame, if
/// any. The fields are separated by `:`: a leading metadata field, the
/// `<period> <kind>` field, then optionally the frame. A line of one field
/// holds the metadata as its first word and `<period> <kind>` after it.
pub open spec fn header_fields(t: Seq<char>) -> Option<(Seq<char>, Option<Seq<char>>)> {
    match chunk_at(t, 0) {
        None => None,
        Some(c1) => match chunk_at(t, c1.1) {
            Some(c2) => Some(
                (
                    t.subrange(c2.0, c2.1),
                    match chunk_at(t, c2.1) {
                        Some(c3) => Some(t.subrange(c3.0, c3.1)),
                        None => None,
                    },
                ),
            ),
            None => {
                let f = t.subrange(c1.0, c1.1);
                match first_from(f, ' ', 0) {
                    Some(a) => Some((f.subrange(a + 1, f.len() as int), None)),
                    None => None,
                }
            },
        },
    }
}

/// A header line: its period (where the period field is a number), its kind,
/// and its inline frame.
pub open spec fn header_spec(line: Seq<char>) -> Option<HeaderView> {
    match header_fields(trim(line)) {
        None => None,
        Some(fields) => {
            let pk = trim(fields.0);
            match first_from(pk, ' ', 0) {
                None => None,
                Some(sp) => Some(
                    HeaderView {
                        period: usize_of(pk.subrange(0, sp)),
                        kind: pk.subrange(sp + 1, pk.len() as int),
                        inline_frame: fields.1,
                    },
                ),
            }
        },
    }
}

/// The name and module of a frame's text, `<name> (<module>)`; a name without
/// a module in parentheses has the empty module.
pub open spec fn split_module(rest: Seq<char>) -> (Seq<char>, Seq<char>) {
    match last_pair_before(rest, ' ', '(', rest.len() as int) {
        Some(k) => {
            let m = rest.subrange(k + 2, rest.len() as int);
            if m.len() > 0 && m.last() == ')' {
                (rest.subrange(0, k), m.drop_last())
            } else {
                (rest, Seq::empty())
            }
        },
        None => (rest, Seq::empty()),
    }
}

/// A function name without its `+<offset>` suffix.
pub open spec fn strip_offset(f: Seq<char>) -> Seq<char> {
    match last_before(f, '+', f.len() as int) {
        Some(k) => f.subrange(0, k),
        None => f,
    }
}

/// A stack-frame line: an address, a space, then the name and the module.
/// Gives the function name and the module.
pub open spec fn frame_spec(line: Seq<char>) -> Option<(Seq<char>, Seq<char>)> {
    let t = trim(line);
    match first_from(t, ' ', 0) {
        None => None,
        Some(sp) => {
            let nm = split_module(t.subrange(sp + 1, t.len() as int));
            Some((strip_offset(nm.0), nm.1))
        },
    }
}

/// The name that stands for a symbol or a module that could not be resolved.
pub open spec fn unknown_marker() -> Seq<char> {
    seq!['[', 'u', 'n', 'k', 'n', 'o', 'w', 'n', ']']
}

/// A frame whose name and module are both unresolved.
pub open spec fn is_unknown_frame(f: Seq<char>, m: Seq<char>) -> bool {
    f == unknown_marker() && m == unknown_marker()
}

pub ghost enum SrcView {
    NoLocation,
    Malformed,
    Located(SourceLineView),
}

/// A source-location line: `<path>:<line>`, then a space and a module.
pub open spec fn src_spec(line: Seq<char>) -> SrcView {
    let t = trim(line);
    let info = match last_before(t, ' ', t.len() as int) {
        Some(k) => t.subrange(0, k),
        None => t,
    };
    match last_before(info, ':', info.len() as int) {
        None => SrcView::NoLocation,
        Some(k) => match usize_of(info.subrange(k + 1, info.len() as int)) {
            None => SrcView::Malformed,
            Some(n) => SrcView::Located(SourceLineView { path: info.subrange(0, k), line: n }),
        },
    }
}

/// A parsed header line.
pub struct Header {
    pub period: Option<usize>,
    pub kind: String,
    pub inline_frame: Option<String>,
}

impl View for Header {
    type V = HeaderView;

    open spec fn view(&self) -> HeaderView {
        HeaderView {
            period: self.period,
            kind: self.kind@,
            inline_frame: match self.inline_frame {
                Some(s) => Some(s@),
                None => None,
            },
        }
    }
}

/// A parsed source-location line.
pub enum SrcOutcome {
    NoLocation,
    Malformed,
    Located(SourceLine),
}

impl View for SrcOutcome {
    type V = SrcView;

    open spec fn view(&self) -> SrcView {
        match self {
            SrcOutcome::NoLocation => SrcView::NoLocation,
            SrcOutcome::Malformed => SrcView::Malformed,
            SrcOutcome::Located(l) => SrcView::Located(l@),
        }
    }
}

fn next_chunk(s: &Vec<char>, i: usize) -> (r: Option<(usize, usize)>)
    requires
        i <= s@.len(),
    ensures
        match r {
            Some(c) => chunk_at(s@, i as int) == Some((c.0 as int, c.1 as int)) && c.0 <= c.1
                <= s@.len(),
            None => chunk_at(s@, i as int) is None,
        },
{
    let a = skip_run(s, ':', i);
    if a >= s.len() {
        return None;
    }
    match find_first(s, ':', a) {
        Some(b) => {
            proof {
                lemma_first_from_bounds(s@, ':', a as int);
            }
            Some((a, b))
        },
        None => Some((a, s.len())),
    }
}

proof fn lemma_first_from_bounds(s: Seq<char>, c: char, i: int)
    requires
        0 <= i,
    ensures
        match first_from(s, c, i) {
            Some(k) => i <= k < s.len() && s[k] == c,
            None => true,
        },
    decreases s.len() - i,
{
    if i < s.len() && s[i] != c {
        lemma_first_from_bounds(s, c, i + 1);
    }
}

proof fn lemma_last_before_bounds(s: Seq<char>, c: char, j: int)
    ensures
        match last_before(s, c, j) {
            Some(k) => 0 <= k < j <= s.len() && s[k] == c,
            None => true,
        },
    decreases j,
{
    if 0 < j <= s.len() && s[j - 1] != c {
        lemma_last_before_bounds(s, c, j - 1);
    }
}

proof fn lemma_last_pair_bounds(s: Seq<char>, a: char, b: char, j: int)
    ensures
        match last_pair_before(s, a, b, j) {
            Some(k) => 0 <= k && k + 2 <= j <= s.len(),
            None => true,
        },
    decreases j,
{
    if 2 <= j <= s.len() && !(s[j - 2] == a && s[j - 1] == b) {
        lemma_last_pair_bounds(s, a, b, j - 1);
    }
}

/// Parses a header line.
pub fn parse_event_line(line: &str) -> (r: Option<Header>)
    ensures
        match r {
            Some(h) => header_spec(line@) == Some(h@),
            None => header_spec(line@) is None,
        },
{
    let t = trim_str(line);
    let tc = char_vec(t);
    let c1 = match next_chunk(&tc, 0) {
        Some(c) => c,
        None => return None,
    };
    let (field, inline_frame) = match next_chunk(&tc, c1.1) {
        Some(c2) => {
            let inline_frame = match next_chunk(&tc, c2.1) {
                Some(c3) => Some(t.substring_char(c3.0, c3.1).to_owned()),
                None => None,
            };
            (t.substring_char(c2.0, c2.1), inline_frame)
        },
        None => {
            let f = t.substring_char(c1.0, c1.1);
            let fc = char_vec(f);
            match find_first(&fc, ' ', 0) {
                Some(a) => {
                    proof {
                        lemma_first_from_bounds(f@, ' ', 0);
                        assert(first_from(f@, ' ', 0) == Some(a as int));
                    }
                    (f.substring_char(a + 1, fc.len()), None)
                },
                None => return None,
            }
        },
    };
    assert(header_fields(t@) == Some((field@, match inline_frame {
        Some(s) => Some(s@),
        None => None,
    })));
    let pk = trim_str(field);
    let pkc = char_vec(pk);
    let sp = match find_first(&pkc, ' ', 0) {
        Some(k) => k,
        None => return None,
    };
    proof {
        lemma_first_from_bounds(pk@, ' ', 0);
        assert(first_from(pk@, ' ', 0) == Some(sp as int));
    }
    let kind = pk.substring_char(sp + 1, pkc.len()).to_owned();
    let pre = pk.substring_char(0, sp);
    let prec = char_vec(pre);
    let period = parse_usize(&prec, 0, prec.len());
    assert(pre@.subrange(0, pre@.len() as int) =~= pre@);
    Some(Header { period, kind, inline_frame })
}

fn is_marker(s: &Vec<char>, a: usize, b: usize) -> (r: bool)
    requires
        a <= b <= s@.len(),
    ensures
        r == (s@.subrange(a as int, b as int) == unknown_marker()),
{
    let m = ['[', 'u', 'n', 'k', 'n', 'o', 'w', 'n', ']'];
    assert(m@ == unknown_marker());
    if b - a != 9 {
        return false;
    }
    let mut i: usize = 0;
    while i < 9
        invariant
            i <= 9,
            b - a == 9,
            a <= b <= s@.len(),
            m@ == unknown_marker(),
            forall|k: int| 0 <= k < i ==> s@[a + k] == m@[k],
        decreases 9 - i,
    {
        if s[a + i] != m[i] {
            assert(s@.subrange(a as int, b as int)[i as int] != unknown_marker()[i as int]);
            return false;
        }
        i = i + 1;
    }
    assert(s@.subrange(a as int, b as int) =~= unknown_marker());
    true
}

/// Parses a stack-frame line: gives the function name, and whether the name
/// and the module are both unresolved.
pub fn parse_stack_line(line: &str) -> (r: Option<(String, bool)>)
    ensures
        match r {
            Some(p) => match frame_spec(line@) {
                Some(fm) => p.0@ == fm.0 && p.1 == is_unknown_frame(fm.0, fm.1),
                None => false,
            },
            None => frame_spec(line@) is None,
        },
{
    let t = trim_str(line);
    let tc = char_vec(t);
    let sp = match find_first(&tc, ' ', 0) {
        Some(k) => k,
        None => return None,
    };
    proof {
        lemma_first_from_bounds(t@, ' ', 0);
        assert(first_from(t@, ' ', 0) == Some(sp as int));
    }
    let rest = t.substring_char(sp + 1, tc.len());
    let rc = char_vec(rest);
    let n = rc.len();
    // the name is rest[0..fe], the module rest[ma..mb]
    let mut fe = n;
    let mut ma: usize = 0;
    let mut mb: usize = 0;
    match find_last_pair(&rc, ' ', '(') {
        Some(k) => {
            proof {
                lemma_last_pair_bounds(rest@, ' ', '(', rest@.len() as int);
            }
            if k + 2 < n && rc[n - 1] == ')' {
                fe = k;
                ma = k + 2;
                mb = n - 1;
            }
        },
        None => {},
    }
    let ghost nm = split_module(rest@);
    assert(nm.0 == rest@.subrange(0, fe as int));
    assert(nm.1 =~= rest@.subrange(ma as int, mb as int));
    let f = rest.substring_char(0, fe);
    let fc = char_vec(f);
    let name_end = match find_last(&fc, '+') {
        Some(k) => {
            proof {
                lemma_last_before_bounds(f@, '+', f@.len() as int);
            }
            k
        },
        None => {
            assert(f@.subrange(0, f@.len() as int) =~= f@);
            fc.len()
        },
    };
    let name = f.substring_char(0, name_end);
    let unknown = is_marker(&fc, 0, name_end) && is_marker(&rc, ma, mb);
    Some((name.to_owned(), unknown))
}

/// Parses a source-location line.
pub fn parse_src_line(line: &str) -> (r: SrcOutcome)
    ensures
        r@ == src_spec(line@),
{
    let t = trim_str(line);
    let tc = char_vec(t);
    let info = match find_last(&tc, ' ') {
        Some(k) => {
            proof {
                lemma_last_before_bounds(t@, ' ', t@.len() as int);
            }
            t.substring_char(0, k)
        },
        None => {
            assert(t@.subrange(0, t@.len() as int) =~= t@);
            t.substring_char(0, tc.len())
        },
    };
    let ic = char_vec(info);
    match find_last(&ic, ':') {
        None => SrcOutcome::NoLocation,
        Some(k) => {
            proof {
                lemma_last_before_bounds(info@, ':', info@.len() as int);
            }
            match parse_usize(&ic, k + 1, ic.len()) {
                None => SrcOutcome::Malformed,
                Some(n) => SrcOutcome::Located(
                    SourceLine { path: info.substring_char(0, k).to_owned(), line: n },
                ),
            }
        },
    }
}

} // verus!
