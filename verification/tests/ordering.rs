use concat::sort::{
    byte_is_digit, compare_bytes, path_rank, version_path_cmp, version_str_cmp, Segment, Segments,
};
use std::cmp::Ordering;

#[test]
fn numeric_segments_compare_by_value() {
    assert_eq!(version_path_cmp("file2", "file10"), Ordering::Less);
    assert_eq!(version_path_cmp("file10", "file2"), Ordering::Greater);
    assert_eq!(version_path_cmp("file2", "file2"), Ordering::Equal);
    assert_eq!(version_str_cmp("v1.9.0", "v1.10.0"), Ordering::Less);
}

#[test]
fn text_comes_before_digits() {
    assert_eq!(version_str_cmp("a", "1"), Ordering::Less);
    assert_eq!(version_str_cmp("1", "a"), Ordering::Greater);
    assert_eq!(version_str_cmp("file", "1file"), Ordering::Less);
    assert_eq!(version_str_cmp("dir/a", "dir/1"), Ordering::Greater);
}

#[test]
fn the_shorter_path_comes_first() {
    assert_eq!(version_str_cmp("", "a"), Ordering::Less);
    assert_eq!(version_str_cmp("a", ""), Ordering::Greater);
    assert_eq!(version_str_cmp("", ""), Ordering::Equal);
    assert_eq!(version_str_cmp("a1", "a1b"), Ordering::Less);
    assert_eq!(version_str_cmp("abc", "abcd"), Ordering::Less);
}

#[test]
fn text_segments_compare_byte_by_byte() {
    assert_eq!(version_str_cmp("abc", "abd"), Ordering::Less);
    assert_eq!(version_str_cmp("B", "a"), Ordering::Less);
    assert_eq!(version_str_cmp("src/z", "src/é"), Ordering::Less);
}

#[test]
fn leading_zeros_do_not_count() {
    assert_eq!(version_str_cmp("007", "7"), Ordering::Equal);
    assert_eq!(version_str_cmp("a007b", "a7c"), Ordering::Less);
    assert_eq!(version_str_cmp("000", "0"), Ordering::Equal);
    assert_eq!(version_str_cmp("08", "9"), Ordering::Less);
}

#[test]
fn a_run_too_long_for_128_bits_ranks_as_zero() {
    let max = "340282366920938463463374607431768211455";
    let over = "340282366920938463463374607431768211456";
    assert!(matches!(Segments::new(max).next(), Some(Segment::Number(u128::MAX))));
    assert!(matches!(Segments::new(over).next(), Some(Segment::Number(0))));
    assert!(matches!(Segments::new("00042").next(), Some(Segment::Number(42))));
    assert_eq!(version_str_cmp(over, "0"), Ordering::Equal);
    assert_eq!(version_str_cmp(over, "1"), Ordering::Less);
    assert_eq!(version_str_cmp(max, "1"), Ordering::Greater);
}

#[test]
fn the_order_is_antisymmetric_and_transitive_on_examples() {
    let paths = ["a", "a1", "a01", "a2", "a10", "b", "1", "", "a/b", "a/1", "a1b"];
    for a in paths {
        assert_eq!(version_str_cmp(a, a), Ordering::Equal);
        for b in paths {
            assert_eq!(version_str_cmp(a, b), version_str_cmp(b, a).reverse());
            for c in paths {
                if version_str_cmp(a, b) == Ordering::Less
                    && version_str_cmp(b, c) == Ordering::Less
                {
                    assert_eq!(version_str_cmp(a, c), Ordering::Less);
                }
            }
        }
    }
}

#[test]
fn segments_come_out_in_turn() {
    let mut segments = Segments::new("src12/007x");
    assert!(matches!(segments.next(), Some(Segment::Text(b"src"))));
    assert!(matches!(segments.next(), Some(Segment::Number(12))));
    assert!(matches!(segments.next(), Some(Segment::Text(b"/"))));
    assert!(matches!(segments.next(), Some(Segment::Number(7))));
    assert!(matches!(segments.next(), Some(Segment::Text(b"x"))));
    assert!(segments.next().is_none());
    assert!(segments.next().is_none());
}

#[test]
fn ranks_of_paths_given_as_bytes() {
    assert_eq!(path_rank(b"file2", b"file10"), -1);
    assert_eq!(path_rank(b"file10", b"file2"), 1);
    assert_eq!(path_rank(b"x01", b"x1"), 0);
    assert_eq!(compare_bytes(b"ab", b"abc"), -1);
    assert_eq!(compare_bytes(b"b", b"abc"), 1);
    assert_eq!(compare_bytes(b"", b""), 0);
    assert!(byte_is_digit(b'0') && byte_is_digit(b'9'));
    assert!(!byte_is_digit(b'/') && !byte_is_digit(b':'));
}
