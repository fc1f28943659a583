use crop::tree::node::Tree;
use crop::tree::text::{ByteMetric, LineMetric};
use crop::tree::tree_slice::TreeSlice;
use crop::tree::units::Units;

fn leaf(s: &str) -> Tree {
    Tree::from_chunk(s.to_string()).unwrap()
}

fn tree_of(chunks: &[&str]) -> Tree {
    if chunks.len() == 1 {
        return leaf(chunks[0]);
    }
    Tree::from_children(chunks.iter().map(|c| leaf(c)).collect()).unwrap()
}

fn deep_tree(groups: &[&[&str]]) -> Tree {
    Tree::from_children(groups.iter().map(|g| tree_of(g)).collect()).unwrap()
}

fn bytes_of(ts: &TreeSlice) -> Vec<u8> {
    (0..ts.byte_len()).map(|i| ts.byte(i)).collect()
}

fn string_of(ts: &TreeSlice) -> String {
    String::from_utf8(bytes_of(ts)).unwrap()
}

fn forward_lines(tree: &Tree) -> Vec<String> {
    let mut units = Units::<LineMetric>::from_tree(tree);
    let mut out = Vec::new();
    while let Some(ts) = units.next() {
        out.push(string_of(&ts));
    }
    out
}

fn backward_lines(tree: &Tree) -> Vec<String> {
    let mut units = Units::<LineMetric>::from_tree(tree);
    let mut out = Vec::new();
    while let Some(ts) = units.next_back() {
        out.push(string_of(&ts));
    }
    out
}

#[test]
fn line_units_forward() {
    let t = deep_tree(&[&["aa\nb", "b"], &["\n", "cc\ndd"], &["\n\n"]]);
    assert_eq!(forward_lines(&t), vec!["aa\n", "bb\n", "cc\n", "dd\n", "\n"]);
    let t = tree_of(&["x\ny"]);
    assert_eq!(forward_lines(&t), vec!["x\n", "y"]);
    let t = tree_of(&[""]);
    assert_eq!(forward_lines(&t), Vec::<String>::new());
    let t = tree_of(&["no break"]);
    assert_eq!(forward_lines(&t), vec!["no break"]);
}

#[test]
fn line_units_skip_subtrees_without_breaks() {
    let t = deep_tree(&[&["a", "b"], &["c", "d"], &["e\n", "f"], &["g", "h"]]);
    assert_eq!(forward_lines(&t), vec!["abcde\n", "fgh"]);
}

#[test]
fn line_units_backward() {
    let t = deep_tree(&[&["aa\nb", "b"], &["\n", "cc\ndd"], &["\n\n"]]);
    assert_eq!(backward_lines(&t), vec!["\n", "dd\n", "cc\n", "bb\n", "aa\n"]);
    let t = tree_of(&["x\ny"]);
    assert_eq!(backward_lines(&t), vec!["y", "x\n"]);
}

#[test]
fn line_units_from_both_ends_meet() {
    let t = deep_tree(&[&["1\n2\n", "3\n"], &["4\n5"]]);
    let mut units = Units::<LineMetric>::from_tree(&t);
    assert_eq!(string_of(&units.next().unwrap()), "1\n");
    assert_eq!(string_of(&units.next_back().unwrap()), "5");
    assert_eq!(string_of(&units.next().unwrap()), "2\n");
    assert_eq!(string_of(&units.next_back().unwrap()), "4\n");
    assert_eq!(string_of(&units.next().unwrap()), "3\n");
    assert!(units.next().is_none());
    assert!(units.next_back().is_none());
}

#[test]
fn byte_units() {
    let t = tree_of(&["ab", "c"]);
    let mut units = Units::<ByteMetric>::from_tree(&t);
    let mut out = Vec::new();
    while let Some(ts) = units.next() {
        out.push(bytes_of(&ts));
    }
    assert_eq!(out, vec![vec![b'a'], vec![b'b'], vec![b'c']]);
}

#[test]
fn units_of_a_slice() {
    let t = deep_tree(&[&["aa\nb", "b"], &["\n", "cc\ndd"]]);
    let whole = TreeSlice::from_tree(&t);
    let part = whole.slice(1, 9);
    assert_eq!(string_of(&part), "a\nbb\ncc\n");
    let mut units = Units::<LineMetric>::from_tree_slice(&part);
    let mut out = Vec::new();
    while let Some(ts) = units.next() {
        out.push(string_of(&ts));
    }
    assert_eq!(out, vec!["a\n", "bb\n", "cc\n"]);
    let part = whole.slice(4, 11);
    let mut units = Units::<LineMetric>::from_tree_slice(&part);
    let mut out = Vec::new();
    while let Some(ts) = units.next_back() {
        out.push(string_of(&ts));
    }
    assert_eq!(out, vec!["dd", "cc\n", "b\n"]);
}

#[test]
fn tree_slice_counts() {
    let t = deep_tree(&[&["aa\nb", "b"], &["\n", "cc\ndd"]]);
    let whole = TreeSlice::from_tree(&t);
    assert_eq!(whole.byte_len(), 11);
    assert_eq!(whole.summary().line_breaks, 3);
    assert_eq!(whole.units_before::<LineMetric>(3), 1);
    assert_eq!(whole.units_before::<LineMetric>(5), 1);
    assert_eq!(whole.units_before::<LineMetric>(6), 2);
    assert_eq!(whole.unit_boundary::<LineMetric>(0), 0);
    assert_eq!(whole.unit_boundary::<LineMetric>(1), 3);
    assert_eq!(whole.unit_boundary::<LineMetric>(2), 6);
    assert_eq!(whole.unit_boundary::<LineMetric>(3), 9);
    assert_eq!(whole.unit_boundary::<LineMetric>(4), 11);
    assert_eq!(whole.unit_boundary::<ByteMetric>(5), 5);
    let part = whole.slice(4, 11);
    assert_eq!(part.summary().line_breaks, 2);
    assert_eq!(part.unit_boundary::<LineMetric>(1), 2);
    assert_eq!(part.units_before::<LineMetric>(4), 1);
}

#[test]
fn tree_building() {
    assert!(Tree::from_children(Vec::new()).is_none());
    assert!(Tree::from_children(vec![leaf("a"), leaf("")]).is_none());
    let t = Tree::from_children(vec![leaf("a"), leaf("b")]).unwrap();
    let s = TreeSlice::from_tree(&t);
    assert_eq!(bytes_of(&s), b"ab".to_vec());
    let e = leaf("");
    assert_eq!(TreeSlice::from_tree(&e).byte_len(), 0);
}

#[test]
fn units_of_empty_slices() {
    let t = deep_tree(&[&["ab\n", "c"], &["d\n"]]);
    let whole = TreeSlice::from_tree(&t);
    for at in [0, 2, 3, 4, whole.byte_len()] {
        let empty = whole.slice(at, at);
        let mut units = Units::<LineMetric>::from_tree_slice(&empty);
        assert!(units.next().is_none());
        assert!(units.next_back().is_none());
        let mut bytes = Units::<ByteMetric>::from_tree_slice(&empty);
        assert!(bytes.next().is_none());
    }
}

#[test]
fn units_clipped_at_a_slice_end_inside_a_leaf() {
    let t = deep_tree(&[&["a\nbc", "d\ne"], &["f\ngh\n"]]);
    let whole = TreeSlice::from_tree(&t);
    // ends inside the last leaf, past a break, before the next one
    let part = whole.slice(2, 10);
    assert_eq!(string_of(&part), "bcd\nef\ng");
    let mut units = Units::<LineMetric>::from_tree_slice(&part);
    let mut out = Vec::new();
    while let Some(ts) = units.next() {
        out.push(string_of(&ts));
    }
    assert_eq!(out, vec!["bcd\n", "ef\n", "g"]);
    let mut units = Units::<LineMetric>::from_tree_slice(&part);
    let mut first = units.next().unwrap();
    assert_eq!(string_of(&first), "bcd\n");
    first = units.next_back().unwrap();
    assert_eq!(string_of(&first), "g");
    assert_eq!(string_of(&units.next().unwrap()), "ef\n");
    assert!(units.next().is_none());
    assert!(units.next_back().is_none());
}
