use crop::rope::rope_slice::RopeSlice;
use crop::tree::node::Tree;
use crop::tree::text::{ByteMetric, LineMetric};
use crop::tree::tree_slice::TreeSlice;
use crop::tree::units::Units;

fn leaf(s: &str) -> Tree {
    Tree::from_chunk(s.to_string()).unwrap()
}

fn tree_of(chunks: &[&str]) -> Tree {
    if chunks.len() == 1 {
        return leaf(chunks[0]);
    }
    Tree::from_children(chunks.iter().map(|c| leaf(c)).collect()).unwrap()
}

fn deep_tree(groups: &[&[&str]]) -> Tree {
    Tree::from_children(groups.iter().map(|g| tree_of(g)).collect()).unwrap()
}

fn string_of(ts: &TreeSlice) -> String {
    String::from_utf8((0..ts.byte_len()).map(|i| ts.byte(i)).collect()).unwrap()
}

fn samples() -> Vec<Tree> {
    vec![
        deep_tree(&[&["one\nt", "wo\n"], &["three\n", "four"]]),
        deep_tree(&[&["a\n", "\n"], &["\n", "b\n"]]),
        tree_of(&["no breaks at all"]),
        tree_of(&["\n"]),
        tree_of(&[""]),
        tree_of(&["héllo\n", "wörld\n", "→"]),
    ]
}

#[test]
fn lines_join_back_into_the_slice() {
    for t in samples() {
        let s = RopeSlice::from_tree(&t);
        let joined: String = (0..s.line_len()).map(|i| s.line(i).to_string()).collect();
        assert_eq!(joined, s.to_string());
        let via_lines: String = s.lines().iter().map(|l| l.to_string()).collect();
        assert_eq!(via_lines, s.to_string());
        assert_eq!(s.lines().len(), s.line_len());
    }
}

#[test]
fn line_of_byte_undoes_byte_of_line() {
    for t in samples() {
        let s = RopeSlice::from_tree(&t);
        for i in 0..s.line_len() {
            let b = s.byte_of_line(i);
            if b < s.byte_len() {
                assert_eq!(s.line_of_byte(b), i);
            }
        }
    }
}

#[test]
fn every_byte_lies_in_its_line() {
    for t in samples() {
        let s = RopeSlice::from_tree(&t);
        for b in 0..s.byte_len() {
            let l = s.line_of_byte(b);
            assert!(s.byte_of_line(l) <= b);
            if l + 1 < s.line_len() {
                assert!(b < s.byte_of_line(l + 1));
            }
        }
    }
}

#[test]
fn forward_units_cover_the_text() {
    for t in samples() {
        let whole = TreeSlice::from_tree(&t);
        let mut units = Units::<LineMetric>::from_tree(&t);
        let mut joined = String::new();
        let mut pieces: Vec<String> = Vec::new();
        while let Some(ts) = units.next() {
            let piece = string_of(&ts);
            assert!(!piece.is_empty());
            joined.push_str(&piece);
            pieces.push(piece);
        }
        assert_eq!(joined, string_of(&whole));
        // every unit but the last ends with its one line break
        for (i, p) in pieces.iter().enumerate() {
            let breaks = p.bytes().filter(|b| *b == b'\n').count();
            if i + 1 < pieces.len() {
                assert!(p.ends_with('\n'));
                assert_eq!(breaks, 1);
            } else {
                assert!(breaks <= 1);
            }
        }
        // the walk stays finished
        assert!(units.next().is_none());
        assert!(units.next().is_none());
    }
}

#[test]
fn backward_units_are_the_forward_ones_reversed() {
    for t in samples() {
        let mut fwd: Vec<String> = Vec::new();
        let mut units = Units::<LineMetric>::from_tree(&t);
        while let Some(ts) = units.next() {
            fwd.push(string_of(&ts));
        }
        let mut bwd: Vec<String> = Vec::new();
        let mut units = Units::<LineMetric>::from_tree(&t);
        while let Some(ts) = units.next_back() {
            bwd.push(string_of(&ts));
        }
        bwd.reverse();
        assert_eq!(fwd, bwd);
        assert!(units.next_back().is_none());
    }
}

#[test]
fn byte_units_count_the_bytes() {
    for t in samples() {
        let whole = TreeSlice::from_tree(&t);
        let mut units = Units::<ByteMetric>::from_tree(&t);
        let mut n = 0;
        while let Some(ts) = units.next() {
            assert_eq!(ts.byte_len(), 1);
            n += 1;
        }
        assert_eq!(n, whole.byte_len());
    }
}

#[test]
fn graphemes_join_back_into_the_text() {
    let mut all = samples();
    all.push(tree_of(&["a\r", "\nb🇷🇺", "🇸🇹"]));
    all.push(tree_of(&["a\u{310}e\u{301}o\u{308}\u{332}"]));
    for t in all {
        let s = RopeSlice::from_tree(&t);
        let gs = s.graphemes();
        assert!(gs.iter().all(|g| !g.is_empty()));
        assert_eq!(gs.concat(), s.to_string());
        assert!(s.is_grapheme_boundary(0));
        assert!(s.is_grapheme_boundary(s.byte_len()));
    }
}

#[test]
fn interleaved_steps_cut_the_same_units() {
    for t in samples() {
        let mut fwd: Vec<String> = Vec::new();
        let mut units = Units::<LineMetric>::from_tree(&t);
        while let Some(ts) = units.next() {
            fwd.push(string_of(&ts));
        }
        for pattern in [0usize, 1, 2] {
            let mut units = Units::<LineMetric>::from_tree(&t);
            let mut front: Vec<String> = Vec::new();
            let mut back: Vec<String> = Vec::new();
            let mut k = 0usize;
            loop {
                let from_back = (k + pattern) % 3 == 0;
                let got = if from_back { units.next_back() } else { units.next() };
                match got {
                    Some(ts) if from_back => back.push(string_of(&ts)),
                    Some(ts) => front.push(string_of(&ts)),
                    None => break,
                }
                k += 1;
            }
            back.reverse();
            front.extend(back);
            assert_eq!(front, fwd);
        }
    }
}

#[test]
fn one_piece_per_unit_and_one_for_the_tail() {
    for t in samples() {
        let text = string_of(&TreeSlice::from_tree(&t));
        let breaks = text.bytes().filter(|b| *b == b'\n').count();
        let tail = if !text.is_empty() && !text.ends_with('\n') { 1 } else { 0 };
        let mut units = Units::<LineMetric>::from_tree(&t);
        let mut n = 0;
        while units.next().is_some() {
            n += 1;
        }
        assert_eq!(n, breaks + tail);
    }
}
