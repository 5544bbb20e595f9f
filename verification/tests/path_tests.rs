use doc_cache::error::{DocError, ErrorKind};
use doc_cache::path::{format_number, next_numeral, parse, PathExpr};
use doc_cache::text::{chars_of, less_than, same_text};

fn pairs(expr: &PathExpr) -> Vec<(String, usize)> {
    expr.segments.iter().map(|s| (s.tag.clone(), s.index)).collect()
}

fn path(segments: &[(&str, usize)]) -> PathExpr {
    let mut expr = PathExpr::new();
    for (tag, index) in segments {
        expr.push(tag, *index);
    }
    expr
}

#[test]
fn parse_reads_tags_and_indexes() {
    let expr = parse("/project/target[1]/groups/group[2]/files/file[3]").unwrap();
    assert_eq!(
        pairs(&expr),
        vec![
            ("project".to_string(), 1),
            ("target".to_string(), 1),
            ("groups".to_string(), 1),
            ("group".to_string(), 2),
            ("files".to_string(), 1),
            ("file".to_string(), 3),
        ]
    );
}

#[test]
fn parse_defaults_a_missing_index_to_one() {
    let expr = parse("/project").unwrap();
    assert_eq!(pairs(&expr), vec![("project".to_string(), 1)]);
}

#[test]
fn parse_passes_over_empty_pieces() {
    let expr = parse("//a///b[12]/").unwrap();
    assert_eq!(pairs(&expr), vec![("a".to_string(), 1), ("b".to_string(), 12)]);
    assert_eq!(pairs(&parse("").unwrap()), vec![]);
    assert_eq!(pairs(&parse("/").unwrap()), vec![]);
}

#[test]
fn parse_accepts_leading_zeros() {
    let expr = parse("/a[007]").unwrap();
    assert_eq!(pairs(&expr), vec![("a".to_string(), 7)]);
}

#[test]
fn parse_rejects_a_non_numeric_index() {
    assert_eq!(parse("/a[x]").unwrap_err(), DocError::MalformedPath);
    assert_eq!(parse("/a[1x]").unwrap_err(), DocError::MalformedPath);
    assert_eq!(parse("/a[+1]").unwrap_err(), DocError::MalformedPath);
    assert_eq!(parse("/a[]").unwrap_err(), DocError::MalformedPath);
}

#[test]
fn parse_rejects_a_missing_name() {
    assert_eq!(parse("/[2]").unwrap_err(), DocError::MalformedPath);
    assert_eq!(parse("/a/[1]/b").unwrap_err(), DocError::MalformedPath);
}

#[test]
fn parse_rejects_an_unclosed_or_trailing_bracket() {
    assert_eq!(parse("/a[1").unwrap_err(), DocError::MalformedPath);
    assert_eq!(parse("/a[1]b").unwrap_err(), DocError::MalformedPath);
    assert_eq!(parse("/a[").unwrap_err(), DocError::MalformedPath);
}

#[test]
fn parse_rejects_index_zero_and_overflow() {
    assert_eq!(parse("/a[0]").unwrap_err(), DocError::MalformedPath);
    assert_eq!(parse("/a[000]").unwrap_err(), DocError::MalformedPath);
    assert_eq!(
        parse("/a[99999999999999999999999999999999999999999]").unwrap_err(),
        DocError::MalformedPath
    );
    let max = format!("/a[{}]", usize::MAX);
    assert_eq!(pairs(&parse(&max).unwrap()), vec![("a".to_string(), usize::MAX)]);
}

#[test]
fn malformed_path_has_its_kind_and_message() {
    let err = parse("/a[x]").unwrap_err();
    assert_eq!(err.kind(), ErrorKind::MalformedPath);
    assert_eq!(err.message(), "invalid path");
}

#[test]
fn parse_remembers_whether_the_index_was_written() {
    let expr = parse("/project/target[1]/groups/group[2]").unwrap();
    let written: Vec<bool> = expr.segments.iter().map(|s| s.indexed).collect();
    assert_eq!(written, vec![false, true, false, true]);
    assert_eq!(expr.segments[1].index, 1);
    assert_eq!(expr.segments[2].index, 1);
}

#[test]
fn format_writes_the_index_where_the_segment_writes_it() {
    let mut expr = PathExpr::new();
    expr.push_plain("project");
    expr.push("target", 1);
    expr.push_plain("groups");
    expr.push("group", 2);
    expr.push_plain("files");
    expr.push("file", 120);
    assert_eq!(expr.format(), "/project/target[1]/groups/group[2]/files/file[120]");
    assert_eq!(PathExpr::new().format(), "");
    assert_eq!(path(&[("file", 1)]).format(), "/file[1]");
    let mut root = PathExpr::new();
    root.push_plain("project");
    assert_eq!(root.format(), "/project");
}

#[test]
fn format_gives_back_the_text_that_was_parsed() {
    for text in ["/project", "/project/target[1]/groups/group[2]/files/file[3]", "/a[1]/b/c[10]", ""] {
        assert_eq!(parse(text).unwrap().format(), text);
    }
    assert_eq!(parse("//a[007]/").unwrap().format(), "/a[7]");
}

#[test]
fn parse_inverts_format() {
    let cases: Vec<Vec<(&str, usize, bool)>> = vec![
        vec![],
        vec![("project", 1, false)],
        vec![("project", 1, false), ("target", 1, true), ("groups", 1, false), ("group", 10, true), ("files", 1, false), ("file", 101, true)],
        vec![("a]b", 2, true), ("x y", 1, false), ("é", usize::MAX, true)],
    ];
    for case in cases {
        let mut expr = PathExpr::new();
        for (tag, index, indexed) in &case {
            if *indexed {
                expr.push(tag, *index);
            } else {
                expr.push_plain(tag);
            }
        }
        let back = parse(&expr.format()).unwrap();
        assert_eq!(back, expr);
    }
}

#[test]
fn child_appends_a_segment_to_a_copy() {
    let base = path(&[("project", 1)]);
    let child = base.child("target", 4);
    assert_eq!(pairs(&child), vec![("project".to_string(), 1), ("target".to_string(), 4)]);
    assert_eq!(pairs(&base), vec![("project".to_string(), 1)]);
    assert_eq!(child.len(), 2);
    let plain = child.child_plain("groups");
    assert_eq!(plain.format(), "/project[1]/target[4]/groups");
    assert_eq!(plain.copy(), plain);
}

#[test]
fn positions_are_told_by_the_last_two_tags() {
    let group = parse("/project/target[1]/groups/group[2]").unwrap();
    let file = parse("/project/target[1]/groups/group[2]/files/file[3]").unwrap();
    let target = parse("/project/target[1]").unwrap();
    assert!(group.is_group_position());
    assert!(!group.is_file_position());
    assert!(file.is_file_position());
    assert!(!file.is_group_position());
    assert!(!target.is_group_position());
    assert!(!target.is_file_position());
    assert!(!parse("/group").unwrap().is_group_position());
    assert!(parse("/groups[2]/group").unwrap().is_group_position());
}

#[test]
fn format_number_writes_decimal_digits() {
    assert_eq!(format_number(0), "0");
    assert_eq!(format_number(7), "7");
    assert_eq!(format_number(10), "10");
    assert_eq!(format_number(1234567890), "1234567890");
    assert_eq!(format_number(usize::MAX), usize::MAX.to_string());
}

#[test]
fn less_than_is_the_lexicographic_order() {
    assert!(less_than("A", "B"));
    assert!(!less_than("B", "A"));
    assert!(!less_than("A", "A"));
    assert!(less_than("", "A"));
    assert!(!less_than("A", ""));
    assert!(!less_than("", ""));
    assert!(less_than("ab", "abc"));
    assert!(less_than("abc", "abd"));
    assert!(less_than("Z", "a"));
    assert!(less_than("a10", "a9"));
    assert!(less_than("z", "é"));
    assert!(less_than("é", "日"));
}

#[test]
fn less_than_agrees_with_the_order_of_strings() {
    let words = ["", "a", "A", "ab", "b", "é", "e", "日本", "zz", "a b", "a-b", "\u{10000}", "\u{ffff}"];
    for x in words {
        for y in words {
            assert_eq!(less_than(x, y), x < y, "{:?} {:?}", x, y);
            assert_eq!(same_text(x, y), x == y);
        }
    }
}

#[test]
fn chars_of_lists_the_characters() {
    assert_eq!(chars_of("a/é"), vec!['a', '/', 'é']);
    assert_eq!(chars_of(""), Vec::<char>::new());
}

#[test]
fn next_numeral_counts_without_bound() {
    assert_eq!(next_numeral("0"), "1");
    assert_eq!(next_numeral("8"), "9");
    assert_eq!(next_numeral("9"), "10");
    assert_eq!(next_numeral("199"), "200");
    assert_eq!(next_numeral("999"), "1000");
    assert_eq!(next_numeral(""), "1");
    assert_eq!(next_numeral("18446744073709551615"), "18446744073709551616");
    assert_eq!(next_numeral("99999999999999999999999999"), "100000000000000000000000000");
}
