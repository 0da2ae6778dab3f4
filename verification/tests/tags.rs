//! Tag-list format tests.

use dspa::records::CommentBlacklistRecord;
use dspa::tags::{format_tags, parse_tags};

fn chars(s: &str) -> Vec<char> {
    s.chars().collect()
}

fn text(v: &[char]) -> String {
    v.iter().collect()
}

#[test]
fn format_prints_canonically() {
    assert_eq!(text(&format_tags(&vec![])), "");
    assert_eq!(text(&format_tags(&vec![7])), "[7]");
    assert_eq!(text(&format_tags(&vec![1, 2, 3])), "[1, 2, 3]");
    assert_eq!(text(&format_tags(&vec![10, 0, 205])), "[10, 0, 205]");
}

#[test]
fn parse_inverts_format() {
    for tags in [vec![], vec![0], vec![42], vec![1, 2, 3], vec![999, 1000, 0]] {
        let printed = format_tags(&tags);
        assert_eq!(parse_tags(&printed), Some(tags));
    }
}

#[test]
fn parse_covers_the_whole_id_range() {
    // the largest id prints and parses exactly
    let tags = vec![2147483647, 0];
    let printed = format_tags(&tags);
    assert_eq!(text(&printed), "[2147483647, 0]");
    assert_eq!(parse_tags(&printed), Some(tags));
    // one past the largest id is no canonical print of any id
    assert_eq!(parse_tags(&chars("[2147483648]")), None);
}

#[test]
fn parse_rejects_ill_formed_text() {
    assert_eq!(parse_tags(&chars("[")), None);
    assert_eq!(parse_tags(&chars("[]")), None);
    assert_eq!(parse_tags(&chars("[1,2]")), None);
    assert_eq!(parse_tags(&chars("[1, ]")), None);
    assert_eq!(parse_tags(&chars("[01]")), None);
    assert_eq!(parse_tags(&chars("1, 2")), None);
    assert_eq!(parse_tags(&chars("[1, 2")), None);
    assert_eq!(parse_tags(&chars("[a]")), None);
}

#[test]
fn blacklist_record_yields_its_comment_id() {
    let record = CommentBlacklistRecord {
        comment_id: 5,
        reply_to_comment_id: 2,
        root_comment_id: 1,
    };
    let id: i32 = record.into();
    assert_eq!(id, 5);
}
