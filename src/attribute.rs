//! Attribution of events to project source lines, and their aggregation.

use vstd::prelude::*;
use crate::event::{Event, EventView, StackFrameView};
use crate::parser::{events_view, parse_events, parse_spec, strings_view};

verus! {

/// What `std::path::Path::strip_prefix` leaves of `path` once the root
/// `root` is taken off it, component by component; `None` where `path` is
/// not `root` or below it.
pub uninterp spec fn path_under_root(path: Seq<char>, root: Seq<char>) -> Option<Seq<char>>;

pub open spec fn opt_string_view(s: Option<String>) -> Option<Seq<char>> {
    match s {
        Some(s) => Some(s@),
        None => None,
    }
}

/// Relies on `std::path::Path::strip_prefix`, which compares whole path
/// components, and on `Path::to_str`: the path relative to `root`, or `None`
/// where `path` does not lie under `root`.
#[verifier::external_body]
fn strip_root(path: &str, root: &str) -> (r: Option<String>)
    ensures
        opt_string_view(r) == path_under_root(path@, root@),
{
    std::path::Path::new(path).strip_prefix(root).ok().and_then(std::path::Path::to_str).map(
        str::to_owned,
    )
}

/// A source line of the project: its path relative to the project root, and
/// its line number.
#[derive(Debug, Clone, Hash)]
pub struct LineLoc {
    pub path: String,
    pub line: u64,
}

pub ghost struct LineLocView {
    pub path: Seq<char>,
    pub line: u64,
}

impl View for LineLoc {
    type V = LineLocView;

    open spec fn view(&self) -> LineLocView {
        LineLocView { path: self.path@, line: self.line }
    }
}

impl PartialEq for LineLoc {
    fn eq(&self, o: &LineLoc) -> (r: bool)
        ensures
            r == (self@ == o@),
    {
        self.line == o.line && self.path == o.path
    }
}

impl vstd::std_specs::cmp::PartialEqSpecImpl for LineLoc {
    open spec fn obeys_eq_spec() -> bool {
        true
    }

    open spec fn eq_spec(&self, o: &LineLoc) -> bool {
        self@ == o@
    }
}

impl Eq for LineLoc {}

impl LineLoc {
    pub fn copy(&self) -> (r: LineLoc)
        ensures
            r@ == self@,
    {
        LineLoc { path: self.path.clone(), line: self.line }
    }
}

/// A frame qualifies when it has a source location under `root`.
pub open spec fn qualifies(f: StackFrameView, root: Seq<char>) -> bool {
    match f.srcline {
        Some(l) => path_under_root(l.path, root) is Some,
        None => false,
    }
}

/// Index of the first frame at or after `i` that qualifies.
pub open spec fn first_qualifying(stack: Seq<StackFrameView>, root: Seq<char>, i: int) -> Option<int>
    decreases stack.len() - i,
{
    if i < 0 || i >= stack.len() {
        None
    } else if qualifies(stack[i], root) {
        Some(i)
    } else {
        first_qualifying(stack, root, i + 1)
    }
}

/// The location that a qualifying frame stands for.
pub open spec fn loc_of(f: StackFrameView, root: Seq<char>) -> LineLocView {
    LineLocView {
        path: path_under_root(f.srcline->0.path, root)->0,
        line: f.srcline->0.line as u64,
    }
}

/// The location an event is attributed to: that of its innermost frame that
/// lies under `root`.
pub open spec fn attribution(e: EventView, root: Seq<char>) -> Option<LineLocView> {
    match first_qualifying(e.stack, root, 0) {
        Some(i) => Some(loc_of(e.stack[i], root)),
        None => None,
    }
}

/// The weight of an event: its period as a 64-bit count, or one where it has
/// none.
pub open spec fn weight(e: EventView) -> nat {
    match e.period {
        Some(p) => (p as u64) as nat,
        None => 1,
    }
}

/// Index of the entry for `loc` in a table, searching from `i`.
pub open spec fn find_loc(t: Seq<(LineLocView, nat)>, loc: LineLocView, i: int) -> Option<int>
    decreases t.len() - i,
{
    if i < 0 || i >= t.len() {
        None
    } else if t[i].0 == loc {
        Some(i)
    } else {
        find_loc(t, loc, i + 1)
    }
}

/// The table with `w` more hits at `loc`: added to its entry, or in a new
/// entry at the end.
pub open spec fn add_hit(t: Seq<(LineLocView, nat)>, loc: LineLocView, w: nat) -> Seq<(LineLocView, nat)> {
    match find_loc(t, loc, 0) {
        Some(k) => t.update(k, (loc, t[k].1 + w)),
        None => t.push((loc, w)),
    }
}

/// The hit table of a sequence of events, in the order locations were first met.
pub open spec fn tally(evs: Seq<EventView>, root: Seq<char>) -> Seq<(LineLocView, nat)>
    decreases evs.len(),
{
    if evs.len() == 0 {
        Seq::empty()
    } else {
        let t = tally(evs.drop_last(), root);
        match attribution(evs.last(), root) {
            Some(loc) => add_hit(t, loc, weight(evs.last())),
            None => t,
        }
    }
}

/// The sum of the weights of the events that are attributed.
pub open spec fn attributed_weight(evs: Seq<EventView>, root: Seq<char>) -> nat
    decreases evs.len(),
{
    if evs.len() == 0 {
        0
    } else {
        attributed_weight(evs.drop_last(), root) + if attribution(evs.last(), root) is Some {
            weight(evs.last())
        } else {
            0
        }
    }
}

pub open spec fn sum_hits(t: Seq<(LineLocView, nat)>) -> nat
    decreases t.len(),
{
    if t.len() == 0 {
        0
    } else {
        sum_hits(t.drop_last()) + t.last().1
    }
}

pub open spec fn distinct_locs(t: Seq<(LineLocView, nat)>) -> bool {
    forall|i: int, j: int| 0 <= i < j < t.len() ==> t[i].0 != t[j].0
}

pub open spec fn table_view(v: Seq<(LineLoc, u64)>) -> Seq<(LineLocView, nat)> {
    v.map_values(|p: (LineLoc, u64)| (p.0@, p.1 as nat))
}

proof fn lemma_count_le_sum(t: Seq<(LineLocView, nat)>, k: int)
    requires
        0 <= k < t.len(),
    ensures
        t[k].1 <= sum_hits(t),
    decreases t.len(),
{
    if k < t.len() - 1 {
        lemma_count_le_sum(t.drop_last(), k);
    }
}

proof fn lemma_sum_update(t: Seq<(LineLocView, nat)>, k: int, w: nat)
    requires
        0 <= k < t.len(),
    ensures
        sum_hits(t.update(k, (t[k].0, t[k].1 + w))) == sum_hits(t) + w,
    decreases t.len(),
{
    let u = t.update(k, (t[k].0, t[k].1 + w));
    if k < t.len() - 1 {
        assert(u.drop_last() =~= t.drop_last().update(k, (t[k].0, t[k].1 + w)));
        lemma_sum_update(t.drop_last(), k, w);
    } else {
        assert(u.drop_last() =~= t.drop_last());
    }
}

proof fn lemma_update_distinct(t: Seq<(LineLocView, nat)>, k: int, w: nat)
    requires
        0 <= k < t.len(),
        distinct_locs(t),
    ensures
        distinct_locs(t.update(k, (t[k].0, t[k].1 + w))),
{
    let u = t.update(k, (t[k].0, t[k].1 + w));
    assert forall|i: int, j: int| 0 <= i < j < u.len() implies u[i].0 != u[j].0 by {
        assert(u[i].0 == t[i].0 && u[j].0 == t[j].0);
    }
}

proof fn lemma_find_none(t: Seq<(LineLocView, nat)>, loc: LineLocView, i: int)
    requires
        0 <= i,
        find_loc(t, loc, i) is None,
    ensures
        forall|j: int| i <= j < t.len() ==> t[j].0 != loc,
    decreases t.len() - i,
{
    if i < t.len() {
        lemma_find_none(t, loc, i + 1);
    }
}

proof fn lemma_find_some(t: Seq<(LineLocView, nat)>, loc: LineLocView, i: int)
    requires
        0 <= i,
    ensures
        match find_loc(t, loc, i) {
            Some(k) => i <= k < t.len() && t[k].0 == loc,
            None => true,
        },
    decreases t.len() - i,
{
    if i < t.len() && t[i].0 != loc {
        lemma_find_some(t, loc, i + 1);
    }
}

/// First index at or after `i` whose count is below `c` (or the length).
pub open spec fn insert_pos(r: Seq<(LineLocView, nat)>, c: nat, i: int) -> int
    decreases r.len() - i,
{
    if 0 <= i < r.len() && r[i].1 >= c {
        insert_pos(r, c, i + 1)
    } else {
        i
    }
}

/// `e` placed after every entry whose count is at least its own.
pub open spec fn insert_desc(r: Seq<(LineLocView, nat)>, e: (LineLocView, nat)) -> Seq<(LineLocView, nat)> {
    r.insert(insert_pos(r, e.1, 0), e)
}

/// The entries of a table ordered by count, highest first, ties in table order.
pub open spec fn ranked_spec(t: Seq<(LineLocView, nat)>) -> Seq<(LineLocView, nat)>
    decreases t.len(),
{
    if t.len() == 0 {
        Seq::empty()
    } else {
        insert_desc(ranked_spec(t.drop_last()), t.last())
    }
}

pub open spec fn sorted_desc(r: Seq<(LineLocView, nat)>) -> bool {
    forall|a: int, b: int| 0 <= a < b < r.len() ==> r[a].1 >= r[b].1
}

/// Why attribution failed.
#[derive(Debug, PartialEq, Eq, Structural, Clone, Copy)]
pub enum AttributeError {
    /// The total weight does not fit in 64 bits.
    TooManyHits,
}

pub ghost struct AttributedView {
    pub hits: Seq<(LineLocView, nat)>,
    pub total: nat,
}

/// Hit counts per source line, in the order the lines were first met, and
/// their total.
pub struct AttributedPerf {
    hit_count: Vec<(LineLoc, u64)>,
    total_hits: u64,
}

impl View for AttributedPerf {
    type V = AttributedView;

    closed spec fn view(&self) -> AttributedView {
        AttributedView { hits: table_view(self.hit_count@), total: self.total_hits as nat }
    }
}

impl AttributedPerf {
    /// Locations are distinct, and the total is the sum of the counts.
    pub open spec fn wf(&self) -> bool {
        &&& distinct_locs(self@.hits)
        &&& self@.total == sum_hits(self@.hits)
    }

    /// The profile with no hits.
    pub fn new() -> (r: AttributedPerf)
        ensures
            r.wf(),
            r@.hits == Seq::<(LineLocView, nat)>::empty(),
            r@.total == 0,
    {
        let r = AttributedPerf { hit_count: Vec::new(), total_hits: 0 };
        assert(r@.hits =~= Seq::<(LineLocView, nat)>::empty());
        r
    }

    /// Adds `w` hits at `loc`; fails, and changes nothing, where the total
    /// would not fit in 64 bits.
    pub fn record(&mut self, loc: LineLoc, w: u64) -> (r: Result<(), AttributeError>)
        requires
            old(self).wf(),
        ensures
            final(self).wf(),
            match r {
                Ok(()) => old(self)@.total + w <= u64::MAX && final(self)@.hits == add_hit(
                    old(self)@.hits,
                    loc@,
                    w as nat,
                ) && final(self)@.total == old(self)@.total + w,
                Err(e) => e == AttributeError::TooManyHits && old(self)@.total + w > u64::MAX
                    && final(self)@ == old(self)@,
            },
    {
        if w > u64::MAX - self.total_hits {
            return Err(AttributeError::TooManyHits);
        }
        let ghost t = self@.hits;
        let n = self.hit_count.len();
        let mut i: usize = 0;
        while i < n
            invariant
                n == self.hit_count@.len(),
                i <= n,
                t == table_view(self.hit_count@),
                self@ == old(self)@,
                self.wf(),
                self.total_hits + w <= u64::MAX,
                find_loc(t, loc@, 0) == find_loc(t, loc@, i as int),
            decreases n - i,
        {
            if self.hit_count[i].0 == loc {
                let c = self.hit_count[i].1;
                proof {
                    lemma_count_le_sum(t, i as int);
                    assert(t[i as int].1 == c as nat);
                }
                let ghost l = loc@;
                self.hit_count.set(i, (loc, c + w));
                self.total_hits = self.total_hits + w;
                proof {
                    assert(self@.hits =~= t.update(i as int, (l, (t[i as int].1 + w) as nat)));
                    lemma_sum_update(t, i as int, w as nat);
                    lemma_update_distinct(t, i as int, w as nat);
                }
                return Ok(());
            }
            i = i + 1;
        }
        let ghost l = loc@;
        self.hit_count.push((loc, w));
        self.total_hits = self.total_hits + w;
        proof {
            assert(self@.hits =~= t.push((l, w as nat)));
            assert(t.push((l, w as nat)).drop_last() =~= t);
            lemma_find_none(t, l, 0);
            let u = t.push((l, w as nat));
            assert forall|a: int, b: int| 0 <= a < b < u.len() implies u[a].0 != u[b].0 by {
                if b < t.len() {
                    assert(u[a] == t[a] && u[b] == t[b]);
                }
            }
        }
        Ok(())
    }

    /// The entries ordered by count, highest first; entries with equal counts
    /// keep the order in which their locations were first met.
    pub fn ranked(&self) -> (r: Vec<(LineLoc, u64)>)
        ensures
            table_view(r@) == ranked_spec(self@.hits),
    {
        let ghost t = self@.hits;
        let n = self.hit_count.len();
        let mut out: Vec<(LineLoc, u64)> = Vec::new();
        let mut i: usize = 0;
        assert(t.take(0) =~= Seq::<(LineLocView, nat)>::empty());
        assert(table_view(out@) =~= Seq::<(LineLocView, nat)>::empty());
        while i < n
            invariant
                n == self.hit_count@.len() == t.len(),
                t == self@.hits,
                i <= n,
                table_view(out@) == ranked_spec(t.take(i as int)),
                out@.len() == i,
            decreases n - i,
        {
            let c = self.hit_count[i].1;
            let ghost e = t[i as int];
            let ghost r = table_view(out@);
            let mut k: usize = 0;
            while k < out.len() && out[k].1 >= c
                invariant
                    k <= out@.len(),
                    r == table_view(out@),
                    insert_pos(r, c as nat, 0) == insert_pos(r, c as nat, k as int),
                decreases out@.len() - k,
            {
                k = k + 1;
            }
            let loc = self.hit_count[i].0.copy();
            out.insert(k, (loc, c));
            proof {
                assert(t.take(i as int + 1).drop_last() =~= t.take(i as int));
                assert(e == (loc@, c as nat));
                assert(table_view(out@) =~= r.insert(k as int, e));
            }
            i = i + 1;
        }
        assert(t.take(n as int) =~= t);
        out
    }

    /// The hit counts, one entry per location, in the order first met.
    pub fn hit_count(&self) -> (r: &Vec<(LineLoc, u64)>)
        ensures
            table_view(r@) == self@.hits,
    {
        &self.hit_count
    }

    /// The sum of all hit counts.
    pub fn total_hits(&self) -> (r: u64)
        ensures
            r == self@.total,
    {
        self.total_hits
    }
}

/// The location that an event is attributed to.
pub fn attribution_of(e: &Event, project_root: &str) -> (r: Option<LineLoc>)
    ensures
        match r {
            Some(l) => attribution(e@, project_root@) == Some(l@),
            None => attribution(e@, project_root@) is None,
        },
{
    let ghost stack = e@.stack;
    let n = e.stack.len();
    let mut i: usize = 0;
    while i < n
        invariant
            n == stack.len() == e.stack@.len(),
            stack == e@.stack,
            i <= n,
            first_qualifying(stack, project_root@, 0) == first_qualifying(
                stack,
                project_root@,
                i as int,
            ),
        decreases n - i,
    {
        assert(stack[i as int] == e.stack@[i as int]@);
        match &e.stack[i].srcline {
            Some(l) => match strip_root(l.path.as_str(), project_root) {
                Some(rel) => {
                    return Some(LineLoc { path: rel, line: l.line as u64 });
                },
                None => {},
            },
            None => {},
        }
        i = i + 1;
    }
    None
}

/// The weight of an event: its period, or one where it has none.
pub fn weight_of(e: &Event) -> (r: u64)
    ensures
        r as nat == weight(e@),
{
    match e.period {
        Some(p) => p as u64,
        None => 1,
    }
}

proof fn lemma_weight_prefix(evs: Seq<EventView>, root: Seq<char>, i: int)
    requires
        0 <= i <= evs.len(),
    ensures
        attributed_weight(evs.take(i), root) <= attributed_weight(evs, root),
    decreases evs.len(),
{
    if i < evs.len() {
        assert(evs.drop_last().take(i) =~= evs.take(i));
        lemma_weight_prefix(evs.drop_last(), root, i);
    } else {
        assert(evs.take(i) =~= evs);
    }
}

/// Attributes each event to the innermost frame of its stack whose source
/// location lies under `project_root`, and adds up the weights per location.
/// Fails where the total weight does not fit in 64 bits.
pub fn attribute(events: &Vec<Event>, project_root: &str) -> (r: Result<
    AttributedPerf,
    AttributeError,
>)
    ensures
        match r {
            Ok(p) => {
                &&& p.wf()
                &&& p@.hits == tally(events_view(events@), project_root@)
                &&& p@.total == attributed_weight(events_view(events@), project_root@)
                &&& attributed_weight(events_view(events@), project_root@) <= u64::MAX
            },
            Err(e) => e == AttributeError::TooManyHits && attributed_weight(
                events_view(events@),
                project_root@,
            ) > u64::MAX,
        },
{
    let ghost evs = events_view(events@);
    let ghost root = project_root@;
    let mut p = AttributedPerf::new();
    let n = events.len();
    let mut i: usize = 0;
    while i < n
        invariant
            n == events@.len() == evs.len(),
            evs == events_view(events@),
            root == project_root@,
            i <= n,
            p.wf(),
            p@.hits == tally(evs.take(i as int), root),
            p@.total == attributed_weight(evs.take(i as int), root),
        decreases n - i,
    {
        let ghost pre = evs.take(i as int);
        let ghost next = evs.take(i as int + 1);
        assert(next.drop_last() =~= pre);
        assert(next.last() == events@[i as int]@);
        let e = &events[i];
        match attribution_of(e, project_root) {
            Some(loc) => {
                let w = weight_of(e);
                match p.record(loc, w) {
                    Ok(()) => {},
                    Err(err) => {
                        proof {
                            lemma_weight_prefix(evs, root, i as int + 1);
                        }
                        return Err(err);
                    },
                }
            },
            None => {},
        }
        i = i + 1;
    }
    assert(evs.take(n as int) =~= evs);
    Ok(p)
}

/// Reads a report, and attributes its events to the source lines under
/// `project_root`.
pub fn parse_and_attribute(lines: Vec<String>, project_root: &str) -> (r: Result<
    AttributedPerf,
    AttributeError,
>)
    ensures
        ({
            let evs = parse_spec(strings_view(lines@)).0;
            match r {
                Ok(p) => {
                    &&& p.wf()
                    &&& p@.hits == tally(evs, project_root@)
                    &&& p@.total == attributed_weight(evs, project_root@)
                },
                Err(e) => e == AttributeError::TooManyHits && attributed_weight(evs, project_root@)
                    > u64::MAX,
            }
        }),
{
    let (events, _malformed) = parse_events(lines);
    attribute(&events, project_root)
}

/// The hit table's counts add up to the attributed weight of the events.
pub proof fn lemma_tally_sum(evs: Seq<EventView>, root: Seq<char>)
    ensures
        sum_hits(tally(evs, root)) == attributed_weight(evs, root),
        distinct_locs(tally(evs, root)),
    decreases evs.len(),
{
    if evs.len() > 0 {
        let t = tally(evs.drop_last(), root);
        lemma_tally_sum(evs.drop_last(), root);
        match attribution(evs.last(), root) {
            Some(loc) => {
                let w = weight(evs.last());
                lemma_find_some(t, loc, 0);
                match find_loc(t, loc, 0) {
                    Some(k) => {
                        lemma_sum_update(t, k, w);
                        lemma_update_distinct(t, k, w);
                    },
                    None => {
                        lemma_find_none(t, loc, 0);
                        let u = t.push((loc, w));
                        assert(u.drop_last() =~= t);
                        assert forall|a: int, b: int| 0 <= a < b < u.len() implies u[a].0 != u[b].0 by {
                            if b < t.len() {
                                assert(u[a] == t[a] && u[b] == t[b]);
                            }
                        }
                    },
                }
            },
            None => {},
        }
    }
}

proof fn lemma_first_qualifying(stack: Seq<StackFrameView>, root: Seq<char>, i: int)
    requires
        0 <= i,
    ensures
        match first_qualifying(stack, root, i) {
            Some(k) => i <= k < stack.len() && qualifies(stack[k], root) && forall|j: int|
                i <= j < k ==> !qualifies(#[trigger] stack[j], root),
            None => forall|j: int| i <= j < stack.len() ==> !qualifies(#[trigger] stack[j], root),
        },
    decreases stack.len() - i,
{
    if i < stack.len() && !qualifies(stack[i], root) {
        lemma_first_qualifying(stack, root, i + 1);
    }
}

/// An event is attributed only to a frame whose source location lies under
/// the root, and to the first such frame of its stack, innermost first; an
/// event with no such frame is not attributed.
pub proof fn lemma_attribution_picks_first(e: EventView, root: Seq<char>)
    ensures
        match attribution(e, root) {
            Some(l) => exists|k: int|
                0 <= k < e.stack.len() && qualifies(#[trigger] e.stack[k], root) && l == loc_of(
                    e.stack[k],
                    root,
                ) && forall|j: int| 0 <= j < k ==> !qualifies(#[trigger] e.stack[j], root),
            None => forall|j: int| 0 <= j < e.stack.len() ==> !qualifies(#[trigger] e.stack[j], root),
        },
{
    lemma_first_qualifying(e.stack, root, 0);
    match first_qualifying(e.stack, root, 0) {
        Some(k) => {
            assert(qualifies(e.stack[k], root));
        },
        None => {},
    }
}

/// In every well-formed profile the total is the sum of the hit counts, and
/// each location has one entry.
pub proof fn lemma_total_is_sum(p: &AttributedPerf)
    requires
        p.wf(),
    ensures
        p@.total == sum_hits(p@.hits),
        distinct_locs(p@.hits),
{
}

proof fn lemma_insert_pos(r: Seq<(LineLocView, nat)>, c: nat, i: int)
    requires
        0 <= i <= r.len(),
    ensures
        i <= insert_pos(r, c, i) <= r.len(),
        forall|j: int| i <= j < insert_pos(r, c, i) ==> #[trigger] r[j].1 >= c,
        insert_pos(r, c, i) < r.len() ==> r[insert_pos(r, c, i)].1 < c,
    decreases r.len() - i,
{
    if i < r.len() && r[i].1 >= c {
        lemma_insert_pos(r, c, i + 1);
    }
}

proof fn lemma_sum_insert(r: Seq<(LineLocView, nat)>, k: int, e: (LineLocView, nat))
    requires
        0 <= k <= r.len(),
    ensures
        sum_hits(r.insert(k, e)) == sum_hits(r) + e.1,
    decreases r.len(),
{
    let u = r.insert(k, e);
    if k == r.len() {
        assert(u.drop_last() =~= r);
    } else {
        assert(u.drop_last() =~= r.drop_last().insert(k, e));
        lemma_sum_insert(r.drop_last(), k, e);
    }
}

/// The ranking of a table is ordered by count, highest first, has as many
/// entries as the table, and the same sum of counts; so the shares of the
/// total that its entries stand for add up to the whole.
pub proof fn lemma_ranked_sorted(t: Seq<(LineLocView, nat)>)
    ensures
        sorted_desc(ranked_spec(t)),
        ranked_spec(t).len() == t.len(),
        sum_hits(ranked_spec(t)) == sum_hits(t),
    decreases t.len(),
{
    if t.len() > 0 {
        let r = ranked_spec(t.drop_last());
        lemma_ranked_sorted(t.drop_last());
        let e = t.last();
        lemma_insert_pos(r, e.1, 0);
        let k = insert_pos(r, e.1, 0);
        let u = r.insert(k, e);
        assert forall|a: int, b: int| 0 <= a < b < u.len() implies u[a].1 >= u[b].1 by {
            if b < k {
                assert(u[a] == r[a] && u[b] == r[b]);
            } else if b == k {
                assert(u[a] == r[a]);
            } else if a < k {
                assert(u[a] == r[a] && u[b] == r[b - 1]);
            } else if a == k {
                assert(u[b] == r[b - 1]);
                assert(r[k].1 >= r[b - 1].1);
            } else {
                assert(u[a] == r[a - 1] && u[b] == r[b - 1]);
            }
        }
        lemma_sum_insert(r, k, e);
        assert(t.drop_last().push(e) =~= t);
        assert(sum_hits(t) == sum_hits(t.drop_last()) + e.1);
    }
}

/// Ranking the same profile twice gives the same entries in the same order.
pub proof fn lemma_ranked_repeatable(p: &AttributedPerf, q: &AttributedPerf)
    requires
        p@ == q@,
    ensures
        ranked_spec(p@.hits) == ranked_spec(q@.hits),
{
}

} // verus!
