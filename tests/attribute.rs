use perfparser::{
    attribute, attribution_of, parse_and_attribute, AttributeError, AttributedPerf, Event, LineLoc,
    SourceLine, StackFrame,
};

fn lines(v: &[&str]) -> Vec<String> {
    v.iter().map(|s| s.to_string()).collect()
}

fn frame(path: Option<(&str, usize)>) -> StackFrame {
    StackFrame {
        funcname: "f".to_string(),
        srcline: path.map(|(p, l)| SourceLine { path: p.to_string(), line: l }),
    }
}

fn event(period: Option<usize>, frames: Vec<StackFrame>) -> Event {
    Event { period, kind: "cycles".to_string(), stack: frames }
}

fn loc(p: &str, l: u64) -> LineLoc {
    LineLoc { path: p.to_string(), line: l }
}

#[test]
fn scenario_weight_goes_to_relative_location() {
    let p = parse_and_attribute(
        lines(&[
            "123456 1000 cycles",
            " ffff deadbeef mymodule.so.func_a (mymodule.so)",
            "/proj/src/a.c:42 mymodule.so",
            "",
        ]),
        "/proj",
    )
    .unwrap();
    assert_eq!(p.hit_count(), &vec![(loc("src/a.c", 42), 1000)]);
    assert_eq!(p.total_hits(), 1000);
}

#[test]
fn empty_input_gives_empty_profile() {
    let p = parse_and_attribute(Vec::new(), "/proj").unwrap();
    assert_eq!(p.total_hits(), 0);
    assert!(p.hit_count().is_empty());
    assert!(p.ranked().is_empty());
}

#[test]
fn innermost_frame_under_root_is_chosen() {
    let e = event(
        Some(3),
        vec![
            frame(None),
            frame(Some(("/usr/include/x.h", 1))),
            frame(Some(("/proj/src/a.c", 5))),
            frame(Some(("/proj/src/b.c", 6))),
        ],
    );
    assert_eq!(attribution_of(&e, "/proj"), Some(loc("src/a.c", 5)));
}

#[test]
fn sibling_directory_is_not_under_root() {
    let e = event(None, vec![frame(Some(("/project/a.c", 1)))]);
    assert_eq!(attribution_of(&e, "/proj"), None);
    let p = attribute(&vec![e], "/proj").unwrap();
    assert_eq!(p.total_hits(), 0);
}

#[test]
fn missing_period_counts_one() {
    let evs = vec![
        event(None, vec![frame(Some(("/proj/a.c", 1)))]),
        event(Some(4), vec![frame(Some(("/proj/a.c", 1)))]),
        event(Some(2), vec![frame(Some(("/elsewhere/a.c", 1)))]),
    ];
    let p = attribute(&evs, "/proj").unwrap();
    assert_eq!(p.hit_count(), &vec![(loc("a.c", 1), 5)]);
    assert_eq!(p.total_hits(), 5);
}

#[test]
fn total_is_sum_of_counts() {
    let evs = vec![
        event(Some(7), vec![frame(Some(("/proj/a.c", 1)))]),
        event(Some(2), vec![frame(Some(("/proj/b.c", 2)))]),
        event(Some(9), vec![frame(Some(("/proj/a.c", 1)))]),
        event(None, vec![frame(Some(("/proj/c.c", 3)))]),
    ];
    let p = attribute(&evs, "/proj").unwrap();
    let sum: u64 = p.hit_count().iter().map(|(_, c)| *c).sum();
    assert_eq!(sum, p.total_hits());
    assert_eq!(p.total_hits(), 19);
    assert_eq!(
        p.hit_count(),
        &vec![(loc("a.c", 1), 16), (loc("b.c", 2), 2), (loc("c.c", 3), 1)]
    );
}

#[test]
fn ranking_is_descending_with_ties_in_first_seen_order() {
    let evs = vec![
        event(Some(2), vec![frame(Some(("/proj/a.c", 1)))]),
        event(Some(5), vec![frame(Some(("/proj/b.c", 2)))]),
        event(Some(2), vec![frame(Some(("/proj/c.c", 3)))]),
        event(Some(9), vec![frame(Some(("/proj/d.c", 4)))]),
    ];
    let p = attribute(&evs, "/proj").unwrap();
    let r = p.ranked();
    assert_eq!(
        r,
        vec![(loc("d.c", 4), 9), (loc("b.c", 2), 5), (loc("a.c", 1), 2), (loc("c.c", 3), 2)]
    );
    assert_eq!(p.ranked(), r);
    let shares: f64 = r.iter().map(|(_, c)| *c as f64 / p.total_hits() as f64).sum();
    assert!((shares - 1.0).abs() < 1e-9);
}

#[test]
fn overflowing_total_is_an_error() {
    let mut p = AttributedPerf::new();
    assert_eq!(p.record(loc("a.c", 1), u64::MAX), Ok(()));
    assert_eq!(p.record(loc("b.c", 1), 1), Err(AttributeError::TooManyHits));
    assert_eq!(p.total_hits(), u64::MAX);
    assert_eq!(p.hit_count().len(), 1);
    let evs = vec![
        event(Some(usize::MAX), vec![frame(Some(("/proj/a.c", 1)))]),
        event(Some(1), vec![frame(Some(("/proj/a.c", 1)))]),
    ];
    assert_eq!(attribute(&evs, "/proj").err(), Some(AttributeError::TooManyHits));
}

#[test]
fn record_adds_to_existing_entry() {
    let mut p = AttributedPerf::new();
    p.record(loc("a.c", 1), 3).unwrap();
    p.record(loc("b.c", 1), 4).unwrap();
    p.record(loc("a.c", 1), 5).unwrap();
    assert_eq!(p.hit_count(), &vec![(loc("a.c", 1), 8), (loc("b.c", 1), 4)]);
    assert_eq!(p.total_hits(), 12);
}
