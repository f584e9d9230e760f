use perfparser::{char_vec, parse_events, parse_usize, trim_range, Event, Parser, ParserState};

fn lines(v: &[&str]) -> Vec<String> {
    v.iter().map(|s| s.to_string()).collect()
}

fn events_of(v: &[&str]) -> Vec<Event> {
    parse_events(lines(v)).0
}

#[test]
fn verbose_block_with_one_frame() {
    let evs = events_of(&[
        "123456 1000 cycles",
        " ffff deadbeef mymodule.so.func_a (mymodule.so)",
        "/proj/src/a.c:42 mymodule.so",
        "",
    ]);
    assert_eq!(evs.len(), 1);
    let e = &evs[0];
    assert_eq!(e.period, Some(1000));
    assert_eq!(e.kind, "cycles");
    assert_eq!(e.stack.len(), 1);
    assert_eq!(e.stack[0].funcname, "deadbeef mymodule.so.func_a");
    let l = e.stack[0].srcline.as_ref().unwrap();
    assert_eq!(l.path, "/proj/src/a.c");
    assert_eq!(l.line, 42);
}

#[test]
fn colon_separated_header() {
    let evs = events_of(&[
        "perf 4242 [001] 10.5:     2000 cycles:u: ",
        "  7f00 main+0x1c (/usr/bin/app)",
        "  /proj/main.c:10 app",
        "",
    ]);
    assert_eq!(evs.len(), 1);
    assert_eq!(evs[0].period, Some(2000));
    assert_eq!(evs[0].kind, "cycles");
    assert_eq!(evs[0].stack[0].funcname, "main");
    assert_eq!(evs[0].stack[0].srcline.as_ref().unwrap().line, 10);
}

#[test]
fn combined_header_carries_one_frame() {
    let evs = events_of(&[
        "perf 1 [0] 2.0: 500 instructions: ffff compute+0x10 (/bin/x)",
        "/proj/b.c:7 x",
        "perf 1 [0] 2.1: 600 instructions: ffff other (/bin/x)",
        "/proj/c.c:8 x",
    ]);
    assert_eq!(evs.len(), 2);
    assert_eq!(evs[0].period, Some(500));
    assert_eq!(evs[0].kind, "instructions");
    assert_eq!(evs[0].stack.len(), 1);
    assert_eq!(evs[0].stack[0].funcname, "compute");
    assert_eq!(evs[0].stack[0].srcline.as_ref().unwrap().path, "/proj/b.c");
    assert_eq!(evs[1].stack[0].srcline.as_ref().unwrap().line, 8);
}

#[test]
fn unknown_frame_takes_no_source_line() {
    let evs = events_of(&[
        "1 10 cycles",
        " 0 [unknown] ([unknown])",
        " ffff f (m.so)",
        "/proj/a.c:3 m.so",
        "",
    ]);
    assert_eq!(evs.len(), 1);
    assert_eq!(evs[0].stack.len(), 2);
    assert_eq!(evs[0].stack[0].funcname, "[unknown]");
    assert!(evs[0].stack[0].srcline.is_none());
    assert_eq!(evs[0].stack[1].funcname, "f");
    assert_eq!(evs[0].stack[1].srcline.as_ref().unwrap().line, 3);
}

#[test]
fn unknown_name_with_known_module_expects_source_line() {
    let evs = events_of(&["1 10 cycles", " 0 [unknown] (m.so)", "/proj/a.c:3 m.so", ""]);
    assert_eq!(evs[0].stack.len(), 1);
    assert_eq!(evs[0].stack[0].srcline.as_ref().unwrap().path, "/proj/a.c");
}

#[test]
fn malformed_line_number_is_skipped() {
    let (evs, bad) = parse_events(lines(&[
        "1 10 cycles",
        " ffff f (m.so)",
        "/proj/src/a.c:notanumber",
        "",
    ]));
    assert_eq!(evs.len(), 1);
    assert_eq!(evs[0].stack.len(), 1);
    assert!(evs[0].stack[0].srcline.is_none());
    assert_eq!(bad, vec!["/proj/src/a.c:notanumber".to_string()]);
}

#[test]
fn empty_input_gives_no_events() {
    let (evs, bad) = parse_events(Vec::new());
    assert!(evs.is_empty());
    assert!(bad.is_empty());
}

#[test]
fn blocks_count_events() {
    let evs = events_of(&[
        "1 10 cycles",
        " ffff f (m.so)",
        "/proj/a.c:1 m.so",
        "",
        "",
        "2 20 cycles",
        " ffff g (m.so)",
        "/proj/a.c:2 m.so",
        "",
        "3 30 cycles",
        " ffff h (m.so)",
        "/proj/a.c:3 m.so",
    ]);
    assert_eq!(evs.len(), 3);
    assert_eq!(evs[2].period, Some(30));
    assert_eq!(evs[2].stack.len(), 1);
}

#[test]
fn stack_holds_each_parsed_frame_line() {
    let (evs, bad) = parse_events(lines(&[
        "1 10 cycles",
        " ffff f (m.so)",
        "/proj/a.c:1 m.so",
        " ffff g (m.so)",
        "??",
        "garbage",
        "",
    ]));
    assert_eq!(evs.len(), 1);
    let names: Vec<&str> = evs[0].stack.iter().map(|f| f.funcname.as_str()).collect();
    assert_eq!(names, vec!["f", "g"]);
    assert!(evs[0].stack[1].srcline.is_none());
    assert_eq!(bad, vec!["garbage".to_string()]);
}

#[test]
fn malformed_header_is_reported() {
    let (evs, bad) = parse_events(lines(&["nonsense", " ffff f (m.so)", "/proj/a.c:1 m.so", ""]));
    assert_eq!(bad, vec!["nonsense".to_string()]);
    assert_eq!(evs.len(), 1);
    assert_eq!(evs[0].period, None);
    assert_eq!(evs[0].kind, "");
    assert_eq!(evs[0].stack.len(), 1);
}

#[test]
fn period_that_is_not_a_number_is_absent() {
    let evs = events_of(&["x: many cycles:", ""]);
    assert_eq!(evs.len(), 1);
    assert_eq!(evs[0].period, None);
    assert_eq!(evs[0].kind, "cycles");
}

#[test]
fn parser_yields_then_stops() {
    let mut p = Parser::new(lines(&["1 5 cycles", " ffff f (m)", "/a.c:1 m"]));
    let e = p.next().unwrap();
    assert_eq!(e.period, Some(5));
    assert!(p.next().is_none());
    assert!(p.malformed_lines().is_empty());
    assert_eq!(ParserState::Start, ParserState::Start);
}

#[test]
fn decimal_parsing() {
    let p = |s: &str| {
        let c = char_vec(s);
        parse_usize(&c, 0, c.len())
    };
    assert_eq!(p("42"), Some(42));
    assert_eq!(p("+12"), Some(12));
    assert_eq!(p(""), None);
    assert_eq!(p("+"), None);
    assert_eq!(p("-1"), None);
    assert_eq!(p("4x"), None);
    assert_eq!(p("18446744073709551615"), Some(usize::MAX));
    assert_eq!(p("18446744073709551616"), None);
}

#[test]
fn trimming_unicode_whitespace() {
    let c = char_vec("\u{3000} ab c\t\n");
    assert_eq!(trim_range(&c), (2, 6));
    let e = char_vec("   ");
    let (a, b) = trim_range(&e);
    assert_eq!(a, b);
}
