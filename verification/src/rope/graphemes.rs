use vstd::prelude::*;
use vstd::utf8::{is_char_boundary, decode_utf8, encode_utf8};
use vstd::string::{StringSliceAdditionalSpecFns, StringExecFns};
use unicode_segmentation::{GraphemeCursor, GraphemeIncomplete, UnicodeSegmentation};
use super::rope_slice::RopeSlice;
use crate::tree::tree_slice::pieces_chars;

verus! {

#[verifier::external_type_specification]
#[verifier::external_body]
pub struct ExGraphemeIncomplete(GraphemeIncomplete);

/// The grapheme clusters of a text, as `unicode_segmentation` finds them:
/// the extended clusters when `extended` holds, else the legacy ones.
pub uninterp spec fn grapheme_clusters(text: Seq<char>, extended: bool) -> Seq<Seq<char>>;

/// Whether byte `offset` of a text lies on a grapheme cluster boundary, as
/// `unicode_segmentation` decides it: an extended cluster boundary when
/// `extended` holds, else a legacy one.
pub uninterp spec fn grapheme_boundary(text: Seq<char>, offset: int, extended: bool) -> bool;

/// The clusters `cs`, joined in order.
pub open spec fn joined(cs: Seq<Seq<char>>) -> Seq<char>
    decreases cs.len(),
{
    if cs.len() == 0 {
        Seq::empty()
    } else {
        joined(cs.drop_last()) + cs.last()
    }
}

/// Whether byte `offset` is where one of the clusters `cs` starts or where
/// the last one ends: 0, or the byte length of the first clusters joined.
pub open spec fn at_cluster_edge(cs: Seq<Seq<char>>, offset: int) -> bool
    decreases cs.len(),
{
    if cs.len() == 0 {
        offset == 0
    } else {
        offset == encode_utf8(joined(cs)).len() || at_cluster_edge(cs.drop_last(), offset)
    }
}

/// Clusters that join into a text have an edge at its start and at its
/// end, and every edge lies within the text's bytes.
pub proof fn law_cluster_edges_span(cs: Seq<Seq<char>>, text: Seq<char>, offset: int)
    requires
        joined(cs) == text,
    ensures
        at_cluster_edge(cs, 0),
        at_cluster_edge(cs, encode_utf8(text).len() as int),
        at_cluster_edge(cs, offset) ==> 0 <= offset <= encode_utf8(text).len(),
    decreases cs.len(),
{
    if cs.len() > 0 {
        let init = cs.drop_last();
        law_cluster_edges_span(init, joined(init), offset);
        crate::tree::boundary::lemma_encode_concat(joined(init), cs.last());
    } else {
        assert(encode_utf8(text) =~= Seq::<u8>::empty());
    }
}

proof fn lemma_pieces_joined(ps: Seq<&str>, cs: Seq<Seq<char>>)
    requires
        ps.len() == cs.len(),
        forall|i: int| 0 <= i < ps.len() ==> (#[trigger] ps[i])@ == cs[i],
    ensures
        pieces_chars(ps) == joined(cs),
    decreases ps.len(),
{
    if ps.len() > 0 {
        lemma_pieces_joined(ps.drop_last(), cs.drop_last());
        assert(ps[ps.len() - 1]@ == cs[cs.len() - 1]);
    }
}

/// Calls `UnicodeSegmentation::graphemes(extended)` on `s` and collects the
/// clusters: the extended ones when `extended` holds, else the legacy ones.
/// Claimed: the clusters are those the name `grapheme_clusters` gives for
/// `s` and the same choice; they are non-empty and, joined in order, give
/// back `s` (the iterator hands out `&s[start..next]` from one boundary to
/// the next, from offset 0 to the end).
#[verifier::external_body]
fn split_graphemes(s: &str, extended: bool) -> (r: Vec<&str>)
    ensures
        r@.len() == grapheme_clusters(s@, extended).len(),
        forall|i: int| 0 <= i < r@.len() ==> (#[trigger] r@[i])@ == grapheme_clusters(s@, extended)[i],
        forall|i: int| 0 <= i < r@.len() ==> (#[trigger] r@[i])@.len() > 0,
        pieces_chars(r@) == s@,
{
    s.graphemes(extended).collect()
}

/// Calls `GraphemeCursor::new(offset, s.len(), extended).is_boundary(s, 0)`:
/// the whole of `s` is the only chunk. Claimed: the answer is `Ok`, since
/// the chunk starts at 0 and holds the offset (the source returns an error
/// only for a chunk that starts later or misses the offset), and is the
/// value the name `grapheme_boundary` gives; at offset 0 and at the end it
/// is `true` (the cursor starts in the break state there). It is also true
/// exactly where a cluster of `graphemes(extended)` starts or the last one
/// ends: both find the UAX #29 grapheme cluster boundaries of the same kind
/// (`Graphemes::next` steps a cursor of the same kind from boundary to
/// boundary with `next_boundary`, which stops where `is_boundary` holds).
#[verifier::external_body]
fn cursor_is_boundary(s: &str, offset: usize, extended: bool) -> (r: Result<bool, GraphemeIncomplete>)
    requires
        is_char_boundary(s.spec_bytes(), offset as int),
    ensures
        r is Ok,
        r matches Ok(b) ==> b == grapheme_boundary(s@, offset as int, extended),
        r matches Ok(b) ==> (offset == 0 || offset == s.spec_bytes().len()) ==> b,
        r matches Ok(b) ==> b == at_cluster_edge(grapheme_clusters(s@, extended), offset as int),
{
    GraphemeCursor::new(offset, s.len(), extended).is_boundary(s, 0)
}

impl<'a> RopeSlice<'a> {
    /// The extended grapheme clusters of this slice, in order: none empty,
    /// and joined they give back the slice's characters.
    pub fn graphemes(&self) -> (r: Vec<String>)
        ensures
            r@.len() == grapheme_clusters(decode_utf8(self@), true).len(),
            forall|i: int|
                0 <= i < r@.len() ==> (#[trigger] r@[i])@ == grapheme_clusters(decode_utf8(self@), true)[i],
            forall|i: int|
                0 <= i < r@.len() ==> (#[trigger] grapheme_clusters(decode_utf8(self@), true)[i]).len() > 0,
            joined(grapheme_clusters(decode_utf8(self@), true)) == decode_utf8(self@),
    {
        let text = self.to_string();
        let pieces = split_graphemes(text.as_str(), true);
        proof {
            lemma_pieces_joined(pieces@, grapheme_clusters(text@, true));
            assert(joined(grapheme_clusters(text@, true)) == text@);
            assert forall|j: int| 0 <= j < pieces@.len() implies (#[trigger] grapheme_clusters(text@, true)[j]).len() > 0 by {
                assert(pieces@[j]@ == grapheme_clusters(text@, true)[j]);
            }
        }
        let mut out: Vec<String> = Vec::new();
        let mut i: usize = 0;
        while i < pieces.len()
            invariant
                text@ == decode_utf8(self@),
                pieces@.len() == grapheme_clusters(text@, true).len(),
                forall|j: int| 0 <= j < pieces@.len() ==> (#[trigger] pieces@[j])@ == grapheme_clusters(text@, true)[j],
                forall|j: int| 0 <= j < pieces@.len() ==> (#[trigger] grapheme_clusters(text@, true)[j]).len() > 0,
                i <= pieces@.len(),
                out@.len() == i,
                forall|j: int| 0 <= j < i ==> (#[trigger] out@[j])@ == grapheme_clusters(text@, true)[j],
                joined(grapheme_clusters(text@, true)) == text@,
            decreases pieces@.len() - i,
        {
            let s = String::from_str(pieces[i]);
            out.push(s);
            i = i + 1;
        }
        out
    }

    /// Whether byte `byte_idx` lies on an extended grapheme cluster boundary:
    /// never inside a character, always at the start and the end, and
    /// otherwise exactly where one of the clusters `graphemes` gives starts.
    pub fn is_grapheme_boundary(&self, byte_idx: usize) -> (r: bool)
        requires
            byte_idx <= self@.len(),
        ensures
            r == (is_char_boundary(self@, byte_idx as int) && grapheme_boundary(
                decode_utf8(self@),
                byte_idx as int,
                true,
            )),
            r == (is_char_boundary(self@, byte_idx as int) && at_cluster_edge(
                grapheme_clusters(decode_utf8(self@), true),
                byte_idx as int,
            )),
            byte_idx == 0 || byte_idx == self@.len() ==> r,
    {
        proof {
            use_type_invariant(self);
            use_type_invariant(&self.tree_slice);
            self.lemma_facts();
            vstd::utf8::is_char_boundary_start_end_of_seq(self@);
        }
        if !self.is_char_boundary(byte_idx) {
            return false;
        }
        let text = self.to_string();
        match cursor_is_boundary(text.as_str(), byte_idx, true) {
            Ok(b) => b,
            Err(_) => false,
        }
    }
}

} // verus!
