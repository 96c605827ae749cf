use shiftinclude::link::{parse_include_path, parse_usize, LineRange, LinkType, RangeOrAnchor};
use shiftinclude::string::Shift;

#[test]
fn parse_without_colon_includes_all() {
    let link_type = parse_include_path("arbitrary");
    assert_eq!(
        link_type,
        LinkType::Include(
            String::from("arbitrary"),
            RangeOrAnchor::Range(LineRange::RangeFull),
            Shift::Unchanged
        )
    );
}

#[test]
fn parse_with_nothing_after_colon_includes_all() {
    let link_type = parse_include_path("arbitrary:");
    assert_eq!(
        link_type,
        LinkType::Include(
            String::from("arbitrary"),
            RangeOrAnchor::Range(LineRange::RangeFull),
            Shift::Unchanged
        )
    );
}

#[test]
fn parse_with_two_colons_includes_all() {
    let link_type = parse_include_path("arbitrary::");
    assert_eq!(
        link_type,
        LinkType::Include(
            String::from("arbitrary"),
            RangeOrAnchor::Range(LineRange::RangeFull),
            Shift::Unchanged
        )
    );
}

#[test]
fn parse_with_garbage_after_two_colons_includes_all() {
    let link_type = parse_include_path("arbitrary::NaN");
    assert_eq!(
        link_type,
        LinkType::Include(
            String::from("arbitrary"),
            RangeOrAnchor::Range(LineRange::RangeFull),
            Shift::Unchanged
        )
    );
}

#[test]
fn parse_with_one_number_after_colon_only_that_line() {
    let link_type = parse_include_path("arbitrary:5");
    assert_eq!(
        link_type,
        LinkType::Include(
            String::from("arbitrary"),
            RangeOrAnchor::Range(LineRange::Range(4, 5)),
            Shift::Unchanged
        )
    );
}

#[test]
fn parse_with_one_based_start_becomes_zero_based() {
    let link_type = parse_include_path("arbitrary:1");
    assert_eq!(
        link_type,
        LinkType::Include(
            String::from("arbitrary"),
            RangeOrAnchor::Range(LineRange::Range(0, 1)),
            Shift::Unchanged
        )
    );
}

#[test]
fn parse_with_zero_based_start_stays_zero_based_but_is_probably_an_error() {
    let link_type = parse_include_path("arbitrary:0");
    assert_eq!(
        link_type,
        LinkType::Include(
            String::from("arbitrary"),
            RangeOrAnchor::Range(LineRange::Range(0, 1)),
            Shift::Unchanged
        )
    );
}

#[test]
fn parse_start_only_range() {
    let link_type = parse_include_path("arbitrary:5:");
    assert_eq!(
        link_type,
        LinkType::Include(
            String::from("arbitrary"),
            RangeOrAnchor::Range(LineRange::RangeFrom(4)),
            Shift::Unchanged
        )
    );
}

#[test]
fn parse_start_with_garbage_interpreted_as_start_only_range() {
    let link_type = parse_include_path("arbitrary:5:NaN");
    assert_eq!(
        link_type,
        LinkType::Include(
            String::from("arbitrary"),
            RangeOrAnchor::Range(LineRange::RangeFrom(4)),
            Shift::Unchanged
        )
    );
}

#[test]
fn parse_end_only_range() {
    let link_type = parse_include_path("arbitrary::5");
    assert_eq!(
        link_type,
        LinkType::Include(
            String::from("arbitrary"),
            RangeOrAnchor::Range(LineRange::RangeTo(5)),
            Shift::Unchanged
        )
    );
}

#[test]
fn parse_start_and_end_range() {
    let link_type = parse_include_path("arbitrary:5:10");
    assert_eq!(
        link_type,
        LinkType::Include(
            String::from("arbitrary"),
            RangeOrAnchor::Range(LineRange::Range(4, 10)),
            Shift::Unchanged
        )
    );
}

#[test]
fn parse_with_negative_interpreted_as_anchor() {
    let link_type = parse_include_path("arbitrary:-5");
    assert_eq!(
        link_type,
        LinkType::Include(
            String::from("arbitrary"),
            RangeOrAnchor::Anchor("-5".to_string()),
            Shift::Unchanged
        )
    );
}

#[test]
fn parse_with_floating_point_interpreted_as_anchor() {
    let link_type = parse_include_path("arbitrary:-5.7");
    assert_eq!(
        link_type,
        LinkType::Include(
            String::from("arbitrary"),
            RangeOrAnchor::Anchor("-5.7".to_string()),
            Shift::Unchanged
        )
    );
}

#[test]
fn parse_with_anchor_followed_by_colon() {
    let link_type = parse_include_path("arbitrary:some-anchor:this-gets-ignored");
    assert_eq!(
        link_type,
        LinkType::Include(
            String::from("arbitrary"),
            RangeOrAnchor::Anchor("some-anchor".to_string()),
            Shift::Unchanged
        )
    );
}

#[test]
fn parse_with_more_than_three_colons_ignores_everything_after_third_colon() {
    let link_type = parse_include_path("arbitrary:5:10:17:anything:");
    assert_eq!(
        link_type,
        LinkType::Include(
            String::from("arbitrary"),
            RangeOrAnchor::Range(LineRange::Range(4, 10)),
            Shift::Unchanged
        )
    );
}

#[test]
fn parse_usize_accepts_plus_and_rejects_garbage() {
    assert_eq!(parse_usize("17"), Some(17));
    assert_eq!(parse_usize("+17"), Some(17));
    assert_eq!(parse_usize("0"), Some(0));
    assert_eq!(parse_usize(""), None);
    assert_eq!(parse_usize("+"), None);
    assert_eq!(parse_usize("-5"), None);
    assert_eq!(parse_usize("1.5"), None);
    assert_eq!(parse_usize("99999999999999999999999999999999"), None);
}
