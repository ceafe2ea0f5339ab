use cpow_log_parser::finder::{CPOWFinder, Desync, Test, CPOW};
use cpow_log_parser::path::file_name_of;
use cpow_log_parser::report::{direct_lines, shown_indirect, Report};
use cpow_log_parser::tokenizer::{tokenize_line, LogLine, Parser};

fn parser_of(lines: &[&str]) -> Parser {
    Parser::new(lines.iter().map(|l| l.as_bytes().to_vec()).collect())
}

fn run(lines: &[&str], include_shims: bool) -> Result<Vec<Test>, Desync> {
    CPOWFinder::compile_cpows(parser_of(lines), include_shims)
}

fn text(b: &[u8]) -> String {
    String::from_utf8(b.to_vec()).unwrap()
}

const START: &str = "TEST-START | a/b/fooTest.js";
const HARNESS: &str = "#1 0xBBBBBBBB i chrome://mochitests/content/harness.js:99 (x)";

#[test]
fn scenario_a_direct_use() {
    let tests = run(
        &[START, "#0 0xAAAAAAAA i chrome://mochitests/content/fooTest.js:10 (x)", HARNESS],
        false,
    )
    .unwrap();
    assert_eq!(tests.len(), 1);
    assert_eq!(text(&tests[0].testname), "fooTest.js");
    assert_eq!(tests[0].cpows, vec![CPOW { line_no: 10, shim: false }]);
    assert!(tests[0].indirect_cpows.is_empty());
}

#[test]
fn scenario_b_indirect_use() {
    let tests = run(
        &[START, "#0 0xAAAAAAAA i chrome://mochitests/content/lib/helper.js:22 (x)", HARNESS],
        false,
    )
    .unwrap();
    assert_eq!(tests.len(), 1);
    assert!(tests[0].cpows.is_empty());
    assert_eq!(tests[0].indirect_cpows.len(), 1);
    let i = &tests[0].indirect_cpows[0];
    assert_eq!(i.line_no, 22);
    assert!(!i.shim);
    assert_eq!(text(&i.filename), "chrome://mochitests/content/lib/helper.js");
}

#[test]
fn scenario_c_no_harness_frame() {
    let tests = run(
        &[
            START,
            "#0 0xAAAAAAAA i resource://gre/modules/fooTest.js:3 (x)",
            "#1 0xBBBBBBBB i resource://gre/modules/Other.jsm:4 (x)",
        ],
        true,
    )
    .unwrap();
    assert!(tests.is_empty());
}

#[test]
fn direct_use_at_later_harness_frame() {
    let tests = run(
        &[
            START,
            "#0 0xAAAAAAAA i resource://gre/modules/Lib.jsm:5 (x)",
            "#1 0xBBBBBBBB i chrome://mochitests/content/fooTest.js:40 (x)",
        ],
        false,
    )
    .unwrap();
    assert_eq!(tests[0].cpows, vec![CPOW { line_no: 40, shim: false }]);
}

#[test]
fn mochikit_prefix_counts_as_harness() {
    let tests = run(
        &[START, "#0 0x1 i chrome://mochikit/content/fooTest.js:7 (x)"],
        false,
    )
    .unwrap();
    assert_eq!(tests[0].cpows, vec![CPOW { line_no: 7, shim: false }]);
}

#[test]
fn shim_marks_and_filters_uses() {
    let lines = [
        START,
        "#0 0xA i chrome://mochitests/content/fooTest.js:10 (x)",
        "#1 0xB i resource://gre/modules/RemoteAddonsParent.jsm:300 (x)",
        "#0 0xA i chrome://mochitests/content/lib/helper.js:22 (x)",
        "#1 0xB i resource://gre/modules/RemoteAddonsParent.jsm:301 (x)",
        "#0 0xA i chrome://mochitests/content/fooTest.js:12 (x)",
    ];
    let with = run(&lines, true).unwrap();
    assert_eq!(
        with[0].cpows,
        vec![CPOW { line_no: 10, shim: true }, CPOW { line_no: 12, shim: false }]
    );
    assert_eq!(with[0].indirect_cpows.len(), 1);
    assert!(with[0].indirect_cpows[0].shim);
    let without = run(&lines, false).unwrap();
    assert_eq!(without[0].cpows, vec![CPOW { line_no: 12, shim: false }]);
    assert!(without[0].indirect_cpows.is_empty());
}

#[test]
fn shim_at_top_frame_marks_use() {
    let tests = run(
        &[
            START,
            "#0 0xA i chrome://mochitests/content/RemoteAddonsParent.jsm:1 (x)",
        ],
        true,
    )
    .unwrap();
    assert!(tests[0].indirect_cpows[0].shim);
}

#[test]
fn uses_sorted_by_line_stable() {
    let tests = run(
        &[
            START,
            "#0 0xA i chrome://mochitests/content/fooTest.js:30 (x)",
            "#0 0xA i chrome://mochitests/content/fooTest.js:10 (x)",
            "#0 0xA i chrome://mochitests/content/b.js:20 (x)",
            "#0 0xA i chrome://mochitests/content/a.js:20 (x)",
            "#0 0xA i chrome://mochitests/content/c.js:5 (x)",
        ],
        false,
    )
    .unwrap();
    let lines: Vec<u32> = tests[0].cpows.iter().map(|c| c.line_no).collect();
    assert_eq!(lines, vec![10, 30]);
    let ind: Vec<String> = tests[0].indirect_cpows.iter().map(|i| text(&i.filename)).collect();
    assert_eq!(
        ind,
        vec![
            "chrome://mochitests/content/c.js",
            "chrome://mochitests/content/b.js",
            "chrome://mochitests/content/a.js"
        ]
    );
}

#[test]
fn tests_split_at_test_start() {
    let tests = run(
        &[
            "TEST-START | x/one.js",
            "#0 0xA i chrome://mochitests/content/one.js:1 (x)",
            "TEST-START | x/empty.js",
            "TEST-START | x/two.js",
            "#0 0xA i chrome://mochitests/content/two.js:2 (x)",
        ],
        false,
    )
    .unwrap();
    let names: Vec<String> = tests.iter().map(|t| text(&t.testname)).collect();
    assert_eq!(names, vec!["one.js", "two.js"]);
}

#[test]
fn frame_before_any_test_is_desync() {
    let r = run(&["#0 0xA i chrome://mochitests/content/one.js:1 (x)"], false);
    assert_eq!(r.err(), Some(Desync::FrameOutsideTest));
}

#[test]
fn continuation_without_top_frame_is_desync() {
    let r = run(&[START, HARNESS], false);
    assert_eq!(r.err(), Some(Desync::ContinuationWithoutTop));
}

#[test]
fn empty_source_has_no_tests() {
    assert!(run(&[], false).unwrap().is_empty());
    assert!(run(&["noise", "more noise"], false).unwrap().is_empty());
}

#[test]
fn rerun_gives_identical_report() {
    let lines = [
        START,
        "#0 0xA i chrome://mochitests/content/fooTest.js:10 (x)",
        "#0 0xA i chrome://mochitests/content/lib/helper.js:22 (x)",
    ];
    let a = run(&lines, true).unwrap();
    let b = run(&lines, true).unwrap();
    assert_eq!(a.len(), b.len());
    assert_eq!(a[0].cpows, b[0].cpows);
    assert_eq!(a[0].indirect_cpows.len(), b[0].indirect_cpows.len());
    assert_eq!(a[0].indirect_cpows[0].filename, b[0].indirect_cpows[0].filename);
    let mut once = Report::new();
    once.add_source(run(&lines, true).unwrap());
    let mut twice = Report::new();
    twice.add_source(run(&lines, true).unwrap());
    twice.add_source(run(&lines, true).unwrap());
    assert_eq!(once.test_count(), twice.test_count());
    assert_eq!(once.total_uses(), twice.total_uses());
    assert_eq!(once.tests()[0].cpows, twice.tests()[0].cpows);
}

#[test]
fn tokenize_test_start() {
    match tokenize_line(b"0:01 INFO TEST-START  |  browser/base/content/test/browser_x.js") {
        Some(LogLine::TestStart(n)) => assert_eq!(text(&n), "browser_x.js"),
        _ => panic!("expected a test start"),
    }
    match tokenize_line(b"TEST-START|plain.js") {
        Some(LogLine::TestStart(n)) => assert_eq!(text(&n), "plain.js"),
        _ => panic!("expected a test start"),
    }
    assert!(tokenize_line(b"TEST-START browser_x.js").is_none());
}

#[test]
fn tokenize_stack_frame() {
    match tokenize_line(b"#12 0x7f00ab b chrome://mochitests/content/a/b.js:345 (Foo.bar)") {
        Some(LogLine::StackComponent(i, p, f, l)) => {
            assert_eq!(i, 12);
            assert_eq!(text(&p), "chrome://mochitests/content/a/b.js");
            assert_eq!(text(&f), "b.js");
            assert_eq!(l, 345);
        }
        _ => panic!("expected a frame"),
    }
    match tokenize_line(b"#0 7f00 i file.js:1 (x)") {
        Some(LogLine::StackComponent(0, _, f, 1)) => assert_eq!(text(&f), "file.js"),
        _ => panic!("expected a frame without 0x"),
    }
}

#[test]
fn tokenize_drops_malformed_frames() {
    assert!(tokenize_line(b"#0 0xA i chrome://x/a.js:abc (x)").is_none());
    assert!(tokenize_line(b"#0 0xA i chrome://x/a.js (x)").is_none());
    assert!(tokenize_line(b"#99999999999 0xA i chrome://x/a.js:1 (x)").is_none());
    assert!(tokenize_line(b"#0 0xA i chrome://x/a.js:4294967296 (x)").is_none());
    assert!(tokenize_line(b"#0 0xA q chrome://x/a.js:1 (x)").is_none());
    assert!(tokenize_line(b"#0 0xA i chrome://x/a.js:1").is_none());
    assert!(tokenize_line(b"#0 0xA i chrome://x/a.js:1 (x) trailing").is_none());
    assert!(tokenize_line(b"#x 0xA i chrome://x/a.js:1 (x)").is_none());
    assert!(tokenize_line(b"").is_none());
}

#[test]
fn tokenize_largest_line_number() {
    match tokenize_line(b"#0 0xA i a.js:4294967295 (x)") {
        Some(LogLine::StackComponent(_, _, _, l)) => assert_eq!(l, u32::MAX),
        _ => panic!("expected a frame"),
    }
}

#[test]
fn bare_file_names() {
    assert_eq!(text(&file_name_of(b"a/b/c.js")), "c.js");
    assert_eq!(text(&file_name_of(b"c.js")), "c.js");
    assert_eq!(text(&file_name_of(b"a/")), "");
    assert_eq!(text(&file_name_of(b"")), "");
}

#[test]
fn direct_lines_dedup() {
    let cpows: Vec<CPOW> = [5, 5, 7, 7, 7, 9]
        .iter()
        .map(|&l| CPOW { line_no: l, shim: false })
        .collect();
    assert_eq!(direct_lines(&cpows, false), vec![5, 7, 9]);
    assert!(direct_lines(&cpows, true).is_empty());
}

#[test]
fn direct_lines_split_by_shim() {
    let cpows = vec![
        CPOW { line_no: 1, shim: false },
        CPOW { line_no: 2, shim: true },
        CPOW { line_no: 2, shim: true },
        CPOW { line_no: 3, shim: false },
    ];
    assert_eq!(direct_lines(&cpows, false), vec![1, 3]);
    assert_eq!(direct_lines(&cpows, true), vec![2]);
}

#[test]
fn indirect_adjacent_suppression() {
    let tests = run(
        &[
            START,
            "#0 0xA i chrome://mochitests/content/a.js:4 (x)",
            "#0 0xA i chrome://mochitests/content/b.js:4 (x)",
            "#0 0xA i chrome://mochitests/content/c.js:6 (x)",
            "#0 0xA i chrome://mochitests/content/d.js:4 (x)",
        ],
        false,
    )
    .unwrap();
    assert_eq!(shown_indirect(&tests[0].indirect_cpows), vec![true, false, false, true]);
}

#[test]
fn report_merges_sources_by_name() {
    let first = run(
        &[
            "TEST-START | x/b.js",
            "#0 0xA i chrome://mochitests/content/b.js:1 (x)",
            "#0 0xA i chrome://mochitests/content/b.js:2 (x)",
            "TEST-START | x/a.js",
            "#0 0xA i chrome://mochitests/content/h.js:3 (x)",
        ],
        false,
    )
    .unwrap();
    let second = run(
        &["TEST-START | y/b.js", "#0 0xA i chrome://mochitests/content/b.js:9 (x)"],
        false,
    )
    .unwrap();
    let mut report = Report::new();
    report.add_source(first);
    assert_eq!(report.test_count(), 2);
    assert_eq!(report.total_uses(), 3);
    report.add_source(second);
    assert_eq!(report.test_count(), 2);
    assert_eq!(report.total_uses(), 2);
    let names: Vec<String> = report.tests().iter().map(|t| text(&t.testname)).collect();
    assert_eq!(names, vec!["a.js", "b.js"]);
    assert_eq!(report.tests()[1].cpows, vec![CPOW { line_no: 9, shim: false }]);
}

#[test]
fn use_count_is_direct_plus_indirect() {
    let tests = run(
        &[
            START,
            "#0 0xA i chrome://mochitests/content/fooTest.js:1 (x)",
            "#0 0xA i chrome://mochitests/content/fooTest.js:1 (x)",
            "#0 0xA i chrome://mochitests/content/h.js:2 (x)",
        ],
        false,
    )
    .unwrap();
    let direct = tests[0].cpows.len() as u64;
    let indirect = tests[0].indirect_cpows.len() as u64;
    let mut report = Report::new();
    report.add_source(tests);
    assert_eq!(report.total_uses(), direct + indirect);
    assert_eq!(report.total_uses(), 3);
}
