use crop::rope::range::{range_bounds_to_start_end, RangeEnd};
use crop::rope::rope_slice::RopeSlice;
use crop::tree::node::Tree;

fn leaf(s: &str) -> Tree {
    Tree::from_chunk(s.to_string()).unwrap()
}

fn tree_of(chunks: &[&str]) -> Tree {
    if chunks.len() == 1 {
        return leaf(chunks[0]);
    }
    Tree::from_children(chunks.iter().map(|c| leaf(c)).collect()).unwrap()
}

/// A tree two levels deep: groups of leaves under internal nodes.
fn deep_tree(groups: &[&[&str]]) -> Tree {
    Tree::from_children(groups.iter().map(|g| tree_of(g)).collect()).unwrap()
}

fn text(s: &RopeSlice) -> String {
    s.to_string()
}

#[test]
fn is_empty_examples() {
    let r = tree_of(&[""]);
    let s = RopeSlice::from_tree(&r);
    let all = s.byte_slice(0..s.byte_len());
    assert!(all.is_empty());

    let r = tree_of(&["foo"]);
    let s = RopeSlice::from_tree(&r);
    assert!(!s.line_slice(0..1).is_empty());
}

#[test]
fn byte_and_byte_len_across_chunks() {
    let r = deep_tree(&[&["ab", "c"], &["de\n", "f"]]);
    let s = RopeSlice::from_tree(&r);
    assert_eq!(s.byte_len(), 7);
    let expected = b"abcde\nf";
    for i in 0..7 {
        assert_eq!(s.byte(i), expected[i]);
    }
    assert_eq!(s.bytes(), expected.to_vec());
}

#[test]
fn line_len_counts_closing_break() {
    let r = tree_of(&["a\nb\n"]);
    let s = RopeSlice::from_tree(&r);
    assert_eq!(s.line_len(), 2);
    let r = tree_of(&["a\nb"]);
    let s = RopeSlice::from_tree(&r);
    assert_eq!(s.line_len(), 2);
    let r = tree_of(&[""]);
    let s = RopeSlice::from_tree(&r);
    assert_eq!(s.line_len(), 1);
    let r = tree_of(&["\n"]);
    let s = RopeSlice::from_tree(&r);
    assert_eq!(s.line_len(), 1);
}

#[test]
fn byte_of_line_and_line_of_byte() {
    let r = deep_tree(&[&["one\nt", "wo\n"], &["three\n", "four"]]);
    let s = RopeSlice::from_tree(&r);
    assert_eq!(s.line_len(), 4);
    assert_eq!(s.byte_of_line(0), 0);
    assert_eq!(s.byte_of_line(1), 4);
    assert_eq!(s.byte_of_line(2), 8);
    assert_eq!(s.byte_of_line(3), 14);
    assert_eq!(s.line_of_byte(0), 0);
    assert_eq!(s.line_of_byte(3), 0);
    assert_eq!(s.line_of_byte(4), 1);
    assert_eq!(s.line_of_byte(7), 1);
    assert_eq!(s.line_of_byte(8), 2);
    assert_eq!(s.line_of_byte(17), 3);
}

#[test]
fn line_keeps_its_break() {
    let r = deep_tree(&[&["one\nt", "wo\n"], &["three\n", "four"]]);
    let s = RopeSlice::from_tree(&r);
    assert_eq!(text(&s.line(0)), "one\n");
    assert_eq!(text(&s.line(1)), "two\n");
    assert_eq!(text(&s.line(2)), "three\n");
    assert_eq!(text(&s.line(3)), "four");
    // a line does not count its own break as closing it
    assert_eq!(s.line(0).line_len(), 2);
    assert_eq!(s.line(3).line_len(), 1);
}

#[test]
fn line_slice_ranges() {
    let r = deep_tree(&[&["one\nt", "wo\n"], &["three\n", "four"]]);
    let s = RopeSlice::from_tree(&r);
    assert_eq!(text(&s.line_slice(1..3)), "two\nthree\n");
    assert_eq!(s.line_slice(1..3).line_len(), 2);
    assert_eq!(text(&s.line_slice(0..4)), "one\ntwo\nthree\nfour");
    assert_eq!(text(&s.line_slice(2..2)), "");
    assert_eq!(text(&s.line_slice(3..4)), "four");
}

#[test]
fn byte_slice_sets_closing_break() {
    let r = tree_of(&["ab\n", "cd\n"]);
    let s = RopeSlice::from_tree(&r);
    let a = s.byte_slice(1..3);
    assert_eq!(text(&a), "b\n");
    assert_eq!(a.line_len(), 1);
    let b = s.byte_slice(1..4);
    assert_eq!(text(&b), "b\nc");
    assert_eq!(b.line_len(), 2);
    let c = b.byte_slice(1..2);
    assert_eq!(text(&c), "\n");
}

#[test]
fn lines_are_the_lines() {
    let r = deep_tree(&[&["one\nt", "wo\n"], &["three\n", "four"]]);
    let s = RopeSlice::from_tree(&r);
    let lines: Vec<String> = s.lines().iter().map(|l| l.to_string()).collect();
    assert_eq!(lines, vec!["one\n", "two\n", "three\n", "four"]);

    let r = tree_of(&["a\n", "b\n"]);
    let s = RopeSlice::from_tree(&r);
    let lines: Vec<String> = s.lines().iter().map(|l| l.to_string()).collect();
    assert_eq!(lines, vec!["a\n", "b\n"]);

    let r = tree_of(&[""]);
    let s = RopeSlice::from_tree(&r);
    let lines: Vec<String> = s.lines().iter().map(|l| l.to_string()).collect();
    assert_eq!(lines, vec![""]);
}

#[test]
fn lines_of_a_line_end_with_an_empty_one() {
    let r = tree_of(&["a\nb\n"]);
    let s = RopeSlice::from_tree(&r);
    let first = s.line(0);
    let lines: Vec<String> = first.lines().iter().map(|l| l.to_string()).collect();
    assert_eq!(lines, vec!["a\n", ""]);
}

#[test]
fn chars_and_chunks_with_multibyte_text() {
    let r = tree_of(&["héllo ", "wörld", "→!"]);
    let s = RopeSlice::from_tree(&r);
    assert_eq!(s.chars(), "héllo wörld→!".chars().collect::<Vec<char>>());
    assert_eq!(s.to_string(), "héllo wörld→!");
    let chunks = s.chunks();
    assert_eq!(chunks, vec!["héllo ", "wörld", "→!"]);
    let mid = s.byte_slice(1..10);
    assert_eq!(mid.to_string(), "éllo wö");
    assert_eq!(mid.chunks(), vec!["éllo ", "wö"]);
    assert_eq!(mid.chars(), vec!['é', 'l', 'l', 'o', ' ', 'w', 'ö']);
}

#[test]
fn char_boundaries() {
    let r = tree_of(&["aé", "→"]);
    let s = RopeSlice::from_tree(&r);
    assert_eq!(s.byte_len(), 6);
    assert!(s.is_char_boundary(0));
    assert!(s.is_char_boundary(1));
    assert!(!s.is_char_boundary(2));
    assert!(s.is_char_boundary(3));
    assert!(!s.is_char_boundary(4));
    assert!(!s.is_char_boundary(5));
    assert!(s.is_char_boundary(6));
    assert!(!s.is_char_boundary(7));
}

#[test]
fn equality_with_strings_and_slices() {
    let r = tree_of(&["ab", "c"]);
    let s = RopeSlice::from_tree(&r);
    let r2 = tree_of(&["a", "bc"]);
    let s2 = RopeSlice::from_tree(&r2);
    assert!(s == s2);
    assert!(s == *"abc");
    assert!(s == "abc");
    assert!(s == String::from("abc"));
    assert!("abc" == s);
    assert!(String::from("abc") == s);
    assert!(s != "abd");
    assert!(s != "ab");
    assert!(s.byte_slice(0..2) != s2);
    assert!(s.eq_str("abc"));
    assert!(s.eq_slice(&s2));
}

#[test]
fn graphemes_of_a_slice() {
    let r = tree_of(&["a\r", "\nb🇷🇺", "🇸🇹"]);
    let s = RopeSlice::from_tree(&r);
    assert_eq!(s.graphemes(), vec!["a", "\r\n", "b", "🇷🇺", "🇸🇹"]);
    let r = tree_of(&["a\u{310}e\u{301}o\u{308}\u{332}"]);
    let s = RopeSlice::from_tree(&r);
    assert_eq!(s.graphemes(), vec!["a\u{310}", "e\u{301}", "o\u{308}\u{332}"]);
}

#[test]
fn grapheme_boundaries() {
    let r = tree_of(&["a\r", "\nb"]);
    let s = RopeSlice::from_tree(&r);
    assert!(s.is_grapheme_boundary(0));
    assert!(s.is_grapheme_boundary(1));
    assert!(!s.is_grapheme_boundary(2));
    assert!(s.is_grapheme_boundary(3));
    assert!(s.is_grapheme_boundary(4));
    let r = tree_of(&["é"]);
    let s = RopeSlice::from_tree(&r);
    assert!(!s.is_grapheme_boundary(1));
}

#[test]
fn range_ends_to_offsets() {
    assert_eq!(range_bounds_to_start_end(RangeEnd::Included(2), RangeEnd::Excluded(5), 0, 9), (2, 5));
    assert_eq!(range_bounds_to_start_end(RangeEnd::Excluded(2), RangeEnd::Included(5), 0, 9), (3, 6));
    assert_eq!(range_bounds_to_start_end(RangeEnd::Unbounded, RangeEnd::Unbounded, 1, 9), (1, 9));
}
