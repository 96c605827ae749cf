use shiftinclude::link::LineRange;
use shiftinclude::string::{
    common_leading_ws, shift_line, shift_lines, take_anchored_lines_with_shift,
    take_lines_with_shift, ExplicitShift, Shift,
};

fn to_lines(lines: &[&str]) -> Vec<String> {
    let mut out = Vec::new();
    for l in lines {
        out.push(l.to_string());
    }
    out
}

#[test]
fn common_leading_ws_test() {
    let tests = [
        (["  line1", "    line2", "  line3"], "  "),
        (["  line1", "    line2", "line3"], ""),
        (["\t\tline1", "\t\t  line2", "\t\tline3"], "\t\t"),
        (["\t line1", " \tline2", "  \t\tline3"], ""),
    ];
    for (lines, want) in tests {
        let lines = to_lines(&lines);
        let got = common_leading_ws(&lines);
        assert_eq!(got, want, "for input {lines:?}");
    }
}

#[test]
fn shift_line_test() {
    let s = "    Line with 4 space intro";
    assert_eq!(shift_line(s, ExplicitShift::Unchanged), s);
    assert_eq!(
        shift_line(s, ExplicitShift::Left(4)),
        "Line with 4 space intro"
    );
    assert_eq!(
        shift_line(s, ExplicitShift::Left(2)),
        "  Line with 4 space intro"
    );
    assert_eq!(
        shift_line(s, ExplicitShift::Left(6)),
        "ne with 4 space intro"
    );
    assert_eq!(
        shift_line(s, ExplicitShift::Right(2)),
        "      Line with 4 space intro"
    );
}

#[test]
fn take_lines_with_shift_test() {
    let s = "  Lorem\n  ipsum\n    dolor\n  sit\n  amet";
    assert_eq!(
        take_lines_with_shift(s, LineRange::Range(1, 3), Shift::Unchanged),
        "  ipsum\n    dolor"
    );
    assert_eq!(
        take_lines_with_shift(s, LineRange::Range(1, 3), Shift::Left(2)),
        "ipsum\n  dolor"
    );
    assert_eq!(
        take_lines_with_shift(s, LineRange::Range(1, 3), Shift::Right(2)),
        "    ipsum\n      dolor"
    );
    assert_eq!(
        take_lines_with_shift(s, LineRange::Range(1, 3), Shift::Auto),
        "ipsum\n  dolor"
    );
    assert_eq!(
        take_lines_with_shift(s, LineRange::RangeFrom(3), Shift::Unchanged),
        "  sit\n  amet"
    );
    assert_eq!(
        take_lines_with_shift(s, LineRange::RangeFrom(3), Shift::Right(1)),
        "   sit\n   amet"
    );
    assert_eq!(
        take_lines_with_shift(s, LineRange::RangeFrom(3), Shift::Left(1)),
        " sit\n amet"
    );
    assert_eq!(
        take_lines_with_shift(s, LineRange::RangeTo(3), Shift::Unchanged),
        "  Lorem\n  ipsum\n    dolor"
    );
    assert_eq!(
        take_lines_with_shift(s, LineRange::RangeTo(3), Shift::Auto),
        "Lorem\nipsum\n  dolor"
    );
    assert_eq!(
        take_lines_with_shift(s, LineRange::RangeTo(3), Shift::Right(4)),
        "      Lorem\n      ipsum\n        dolor"
    );
    assert_eq!(
        take_lines_with_shift(s, LineRange::RangeTo(3), Shift::Left(4)),
        "rem\nsum\ndolor"
    );
    assert_eq!(
        take_lines_with_shift(s, LineRange::RangeFull, Shift::Unchanged),
        s
    );
    assert_eq!(
        take_lines_with_shift(s, LineRange::RangeFull, Shift::Auto),
        "Lorem\nipsum\n  dolor\nsit\namet"
    );
    // corner cases
    assert_eq!(
        take_lines_with_shift(s, LineRange::Range(4, 3), Shift::Unchanged),
        ""
    );
    assert_eq!(
        take_lines_with_shift(s, LineRange::Range(4, 3), Shift::Left(2)),
        ""
    );
    assert_eq!(
        take_lines_with_shift(s, LineRange::Range(4, 3), Shift::Right(2)),
        ""
    );
    assert_eq!(
        take_lines_with_shift(s, LineRange::RangeTo(100), Shift::Unchanged),
        s
    );
    assert_eq!(
        take_lines_with_shift(s, LineRange::RangeTo(100), Shift::Right(2)),
        "    Lorem\n    ipsum\n      dolor\n    sit\n    amet"
    );
    assert_eq!(
        take_lines_with_shift(s, LineRange::RangeTo(100), Shift::Left(2)),
        "Lorem\nipsum\n  dolor\nsit\namet"
    );
}

#[test]
fn take_anchored_lines_with_shift_test() {
    let s = "Lorem\nipsum\ndolor\nsit\namet";
    assert_eq!(
        take_anchored_lines_with_shift(s, "test", Shift::Unchanged),
        ""
    );
    assert_eq!(
        take_anchored_lines_with_shift(s, "test", Shift::Right(2)),
        ""
    );
    assert_eq!(take_anchored_lines_with_shift(s, "test", Shift::Left(2)), "");

    let s = "Lorem\nipsum\ndolor\nANCHOR_END: test\nsit\namet";
    assert_eq!(
        take_anchored_lines_with_shift(s, "test", Shift::Unchanged),
        ""
    );
    assert_eq!(
        take_anchored_lines_with_shift(s, "test", Shift::Right(2)),
        ""
    );
    assert_eq!(take_anchored_lines_with_shift(s, "test", Shift::Left(2)), "");

    let s = "  Lorem\n  ipsum\n  ANCHOR: test\n  dolor\n  sit\n  amet";
    assert_eq!(
        take_anchored_lines_with_shift(s, "test", Shift::Unchanged),
        "  dolor\n  sit\n  amet"
    );
    assert_eq!(
        take_anchored_lines_with_shift(s, "test", Shift::Right(2)),
        "    dolor\n    sit\n    amet"
    );
    assert_eq!(
        take_anchored_lines_with_shift(s, "test", Shift::Left(2)),
        "dolor\nsit\namet"
    );
    assert_eq!(
        take_anchored_lines_with_shift(s, "test", Shift::Auto),
        "dolor\nsit\namet"
    );
    assert_eq!(
        take_anchored_lines_with_shift(s, "something", Shift::Unchanged),
        ""
    );
    assert_eq!(
        take_anchored_lines_with_shift(s, "something", Shift::Right(2)),
        ""
    );
    assert_eq!(
        take_anchored_lines_with_shift(s, "something", Shift::Left(2)),
        ""
    );

    let s = "  Lorem\n  ipsum\n  ANCHOR: test\n  dolor\n  sit\n  amet\n  ANCHOR_END: test\n  lorem\n  ipsum";
    assert_eq!(
        take_anchored_lines_with_shift(s, "test", Shift::Unchanged),
        "  dolor\n  sit\n  amet"
    );
    assert_eq!(
        take_anchored_lines_with_shift(s, "test", Shift::Right(2)),
        "    dolor\n    sit\n    amet"
    );
    assert_eq!(
        take_anchored_lines_with_shift(s, "test", Shift::Left(2)),
        "dolor\nsit\namet"
    );
    assert_eq!(
        take_anchored_lines_with_shift(s, "test", Shift::Auto),
        "dolor\nsit\namet"
    );
    assert_eq!(
        take_anchored_lines_with_shift(s, "test", Shift::Left(4)),
        "lor\nt\net"
    );
    assert_eq!(
        take_anchored_lines_with_shift(s, "test", Shift::Left(44)),
        "\n\n"
    );
    assert_eq!(
        take_anchored_lines_with_shift(s, "something", Shift::Unchanged),
        ""
    );

    let s = "  Lorem\n  ANCHOR: test\n  ipsum\n  ANCHOR: test\n  dolor\n\n\n  sit\n  amet\n  ANCHOR_END: test\n  lorem\n  ipsum";
    assert_eq!(
        take_anchored_lines_with_shift(s, "test", Shift::Unchanged),
        "  ipsum\n  dolor\n\n\n  sit\n  amet"
    );
    assert_eq!(
        take_anchored_lines_with_shift(s, "test", Shift::Right(2)),
        "    ipsum\n    dolor\n  \n  \n    sit\n    amet"
    );
    assert_eq!(
        take_anchored_lines_with_shift(s, "test", Shift::Left(2)),
        "ipsum\ndolor\n\n\nsit\namet"
    );
    assert_eq!(
        take_anchored_lines_with_shift(s, "test", Shift::Auto),
        "ipsum\ndolor\n\n\nsit\namet"
    );
    assert_eq!(
        take_anchored_lines_with_shift(s, "something", Shift::Unchanged),
        ""
    );
    assert_eq!(
        take_anchored_lines_with_shift(s, "something", Shift::Right(2)),
        ""
    );
    assert_eq!(
        take_anchored_lines_with_shift(s, "something", Shift::Left(2)),
        ""
    );
    assert_eq!(
        take_anchored_lines_with_shift(s, "something", Shift::Auto),
        ""
    );

    // Include non-ASCII.
    let s = "  Lorem\n  ANCHOR:    test2\n  ípsum\n  ANCHOR: test\n  dôlor\n  sit\n  amet\n  ANCHOR_END: test\n  lorem\n  ANCHOR_END:test2\n  ipsum";
    assert_eq!(
        take_anchored_lines_with_shift(s, "test2", Shift::Unchanged),
        "  ípsum\n  dôlor\n  sit\n  amet\n  lorem"
    );
    assert_eq!(
        take_anchored_lines_with_shift(s, "test2", Shift::Right(2)),
        "    ípsum\n    dôlor\n    sit\n    amet\n    lorem"
    );
    assert_eq!(
        take_anchored_lines_with_shift(s, "test2", Shift::Left(2)),
        "ípsum\ndôlor\nsit\namet\nlorem"
    );
    assert_eq!(
        take_anchored_lines_with_shift(s, "test2", Shift::Left(4)),
        "sum\nlor\nt\net\nrem"
    );
    assert_eq!(
        take_anchored_lines_with_shift(s, "test", Shift::Unchanged),
        "  dôlor\n  sit\n  amet"
    );
    assert_eq!(
        take_anchored_lines_with_shift(s, "test", Shift::Right(2)),
        "    dôlor\n    sit\n    amet"
    );
    assert_eq!(
        take_anchored_lines_with_shift(s, "test", Shift::Left(2)),
        "dôlor\nsit\namet"
    );
    assert_eq!(
        take_anchored_lines_with_shift(s, "something", Shift::Unchanged),
        ""
    );
}

#[test]
fn range_extraction_matches_slice_of_full_extraction() {
    let s = "one\ntwo\nthree\nfour\nfive";
    let full = take_lines_with_shift(s, LineRange::RangeFull, Shift::Unchanged);
    let sliced: Vec<&str> = full.split('\n').collect();
    assert_eq!(
        take_lines_with_shift(s, LineRange::Range(1, 3), Shift::Unchanged),
        sliced[1..3].join("\n")
    );
    assert_eq!(
        take_lines_with_shift(s, LineRange::Range(0, 5), Shift::Unchanged),
        sliced[0..5].join("\n")
    );
}

#[test]
fn line_splitting_edge_cases() {
    // No trailing empty line after a final line feed; a carriage return is
    // dropped only as part of a CRLF ending.
    assert_eq!(
        take_lines_with_shift("", LineRange::RangeFull, Shift::Unchanged),
        ""
    );
    assert_eq!(
        take_lines_with_shift("a\n", LineRange::RangeFull, Shift::Unchanged),
        "a"
    );
    assert_eq!(
        take_lines_with_shift("a\r\nb", LineRange::RangeFull, Shift::Unchanged),
        "a\nb"
    );
    assert_eq!(
        take_lines_with_shift("a\rb\r", LineRange::RangeFull, Shift::Unchanged),
        "a\rb\r"
    );
}

#[test]
fn shift_right_then_left_returns_original() {
    let lines = to_lines(&["alpha", "  beta", "", "\tgamma"]);
    let shifted = shift_lines(&lines, Shift::Right(3));
    assert_eq!(
        shifted,
        to_lines(&["   alpha", "     beta", "   ", "   \tgamma"])
    );
    let back = shift_lines(&shifted, Shift::Left(3));
    assert_eq!(back, lines);
}

#[test]
fn auto_shift_without_common_whitespace_is_noop() {
    let lines = to_lines(&["  alpha", "beta", "   gamma"]);
    assert_eq!(shift_lines(&lines, Shift::Auto), lines);
}
