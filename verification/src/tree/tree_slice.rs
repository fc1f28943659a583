use vstd::prelude::*;
use super::text::{
    Summary, Metric, LineMetric, count_units, summarizes, unit_boundary, lemma_count_units_concat,
    lemma_count_units_bound, lemma_unit_boundary_concat, lemma_unit_boundary_bound,
};
use super::node::{
    Node, Tree, children_text, children_wf, lemma_children_wf, lemma_children_text_at,
    lemma_child_boundaries, lemma_decreases_to_children, lemma_children_text_all,
};
use super::boundary::{lemma_sub_boundaries, lemma_encode_concat};
use vstd::utf8::{encode_utf8, is_char_boundary};
use vstd::string::StringSliceAdditionalSpecFns;

verus! {

/// A contiguous range of the text below a node: `summary.bytes` bytes from
/// offset `before` on.
#[derive(Clone, Copy)]
pub struct TreeSlice<'a> {
    pub(crate) root: &'a Node,
    pub(crate) before: usize,
    pub(crate) summary: Summary,
}

/// The text of `root` from `before`, `summary.bytes` long, is what `summary`
/// describes.
pub open spec fn slice_ok(root: Node, before: int, summary: Summary) -> bool {
    &&& root.wf()
    &&& 0 <= before
    &&& before + summary.bytes <= root.text().len()
    &&& summarizes(summary, root.text().subrange(before, before + summary.bytes))
}

impl<'a> TreeSlice<'a> {
    #[verifier::type_invariant]
    pub(crate) open spec fn inv(self) -> bool {
        slice_ok(*self.root, self.before as int, self.summary)
    }

    /// The node this slice is taken from.
    pub closed spec fn root_node(self) -> Node {
        *self.root
    }

    /// The whole text below the node this slice is taken from.
    pub open spec fn root_text(self) -> Seq<u8> {
        self.root_node().text()
    }

    /// Where this slice starts in `root_text`.
    pub closed spec fn offset(self) -> int {
        self.before as int
    }

    /// The non-empty parts of the leaves below the slice's node that fall
    /// in the slice, one per leaf, left to right.
    pub closed spec fn leaf_parts(self) -> Seq<Seq<u8>> {
        leaf_pieces(*self.root, self.before as int, self.before + self.summary.bytes)
    }

    /// The number of leaves the slice spans.
    pub open spec fn num_leaves(self) -> nat {
        self.leaf_parts().len()
    }

    /// The slice's part of the first leaf it spans.
    pub open spec fn first_part(self) -> Seq<u8> {
        self.leaf_parts()[0]
    }

    /// The slice's part of the last leaf it spans.
    pub open spec fn last_part(self) -> Seq<u8> {
        self.leaf_parts().last()
    }

    /// The parts of the leaves a slice spans join back into it; a slice
    /// that is not empty spans at least one leaf.
    pub(crate) proof fn lemma_leaf_parts_join(self)
        requires
            self.inv(),
        ensures
            joined(self.leaf_parts()) == self@,
            self@.len() > 0 ==> self.num_leaves() >= 1,
    {
        lemma_leaf_pieces_join(*self.root, self.before as int, self.before + self.summary.bytes);
        if self@.len() > 0 && self.num_leaves() == 0 {
            assert(self.leaf_parts() =~= Seq::<Seq<u8>>::empty());
        }
    }

    /// A slice taken from a leaf spans that leaf alone, and its part of it
    /// is the whole slice.
    pub(crate) proof fn lemma_leaf_rooted(self)
        requires
            self.inv(),
            self.root_node() is Leaf,
            self@.len() > 0,
        ensures
            self.num_leaves() == 1,
            self.first_part() == self@,
            self.last_part() == self@,
    {
        assert(self.summary.bytes > 0);
        assert(self.leaf_parts() == seq![self@]);
    }

    /// A slice of `root`, trusted by the caller to be consistent.
    pub(crate) fn new(root: &'a Node, before: usize, summary: Summary) -> (s: TreeSlice<'a>)
        requires
            slice_ok(*root, before as int, summary),
        ensures
            s.root_text() == root.text(),
            s.offset() == before,
            s@ == root.text().subrange(before as int, before + summary.bytes),
    {
        TreeSlice { root, before, summary }
    }

    /// The bytes `start..end` below `root`.
    pub(crate) fn from_range(root: &'a Node, start: usize, end: usize) -> (s: TreeSlice<'a>)
        requires
            root.wf(),
            start <= end <= root.text().len(),
        ensures
            s@ == root.text().subrange(start as int, end as int),
            s.root_node() == *root,
            s.root_text() == root.text(),
            s.offset() == start,
    {
        let a = root.measure_before::<LineMetric>(start);
        let b = root.measure_before::<LineMetric>(end);
        let ghost g = root.text();
        let ghost v = g.subrange(start as int, end as int);
        proof {
            lemma_slice_counts::<LineMetric>(g, start as int, v, v.len() as int);
            assert(v.take(v.len() as int) =~= v);
            lemma_count_units_bound::<LineMetric>(v);
        }
        TreeSlice { root, before: start, summary: Summary { bytes: end - start, line_breaks: b - a } }
    }

    /// The slice of a whole tree.
    pub fn from_tree(tree: &'a Tree) -> (s: TreeSlice<'a>)
        ensures
            s@ == tree@,
            s.root_text() == tree@,
            s.root_text().len() < usize::MAX,
            s.offset() == 0,
    {
        let root = tree.root();
        let summary = root.summary();
        proof {
            assert(root.text().subrange(0, root.text().len() as int) =~= root.text());
        }
        TreeSlice { root, before: 0, summary }
    }

    pub fn summary(&self) -> (s: Summary)
        ensures
            summarizes(s, self@),
    {
        proof {
            use_type_invariant(self);
        }
        self.summary
    }

    pub fn byte_len(&self) -> (n: usize)
        ensures
            n == self@.len(),
    {
        proof {
            use_type_invariant(self);
        }
        self.summary.bytes
    }

    /// Facts that hold of every slice.
    pub(crate) proof fn lemma_inv(self)
        requires
            self.inv(),
        ensures
            self.root_text() == self.root.text(),
            self.offset() == self.before,
            self@ == self.root.text().subrange(self.before as int, self.before + self.summary.bytes),
            summarizes(self.summary, self@),
            0 <= self.offset(),
            self.offset() + self@.len() <= self.root_text().len(),
            self.root_text().len() <= usize::MAX,
            self@ == self.root_text().subrange(self.offset(), self.offset() + self@.len()),
            vstd::utf8::valid_utf8(self.root_text()),
    {
        lemma_wf_len(*self.root);
        super::node::lemma_text_valid_utf8(*self.root);
    }

    /// The `i`-th byte of the slice.
    pub fn byte(&self, i: usize) -> (b: u8)
        requires
            i < self@.len(),
        ensures
            b == self@[i as int],
    {
        proof {
            use_type_invariant(self);
        }
        self.root.byte_at(self.before + i)
    }

    /// Number of unit-ending bytes among the first `pos` bytes of the slice.
    pub fn units_before<M: Metric>(&self, pos: usize) -> (r: usize)
        requires
            pos <= self@.len(),
        ensures
            r == count_units::<M>(self@.take(pos as int)),
    {
        proof {
            use_type_invariant(self);
            lemma_slice_counts::<M>(self.root.text(), self.before as int, self@, pos as int);
        }
        let at_start = self.root.measure_before::<M>(self.before);
        let at_pos = self.root.measure_before::<M>(self.before + pos);
        at_pos - at_start
    }

    /// Offset in the slice just past its `k`-th unit-ending byte, or its
    /// length when it has fewer.
    pub fn unit_boundary<M: Metric>(&self, k: usize) -> (r: usize)
        ensures
            r == unit_boundary::<M>(self@, k as nat),
    {
        proof {
            use_type_invariant(self);
            lemma_unit_boundary_bound::<M>(self@, k as nat);
            M::lemma_measure(self@, self.summary);
        }
        if k == 0 {
            return 0;
        }
        let total = M::measure(&self.summary);
        if k > total {
            return self.summary.bytes;
        }
        let at_start = self.root.measure_before::<M>(self.before);
        proof {
            lemma_slice_counts::<M>(self.root.text(), self.before as int, self@, self@.len() as int);
            lemma_slice_boundary::<M>(self.root.text(), self.before as int, self@, k as nat);
            lemma_count_units_bound::<M>(self.root.text().take(self.before + self@.len()));
            lemma_wf_len(*self.root);
            assert(self@.take(self@.len() as int) =~= self@);
        }
        let g = self.root.unit_boundary_at::<M>(at_start + k);
        g - self.before
    }

    /// The bytes `start..end` of this slice.
    pub fn slice(&self, start: usize, end: usize) -> (s: TreeSlice<'a>)
        requires
            start <= end <= self@.len(),
        ensures
            s@ == self@.subrange(start as int, end as int),
            s.root_text() == self.root_text(),
            s.offset() == self.offset() + start,
    {
        proof {
            use_type_invariant(self);
            lemma_slice_counts::<LineMetric>(self.root.text(), self.before as int, self@, start as int);
            lemma_slice_counts::<LineMetric>(self.root.text(), self.before as int, self@, end as int);
            let v = self@;
            assert(v.take(end as int) =~= v.take(start as int) + v.subrange(start as int, end as int));
            lemma_count_units_concat::<LineMetric>(v.take(start as int), v.subrange(start as int, end as int));
            lemma_count_units_bound::<LineMetric>(v.subrange(start as int, end as int));
        }
        let a = self.root.measure_before::<LineMetric>(self.before + start);
        let b = self.root.measure_before::<LineMetric>(self.before + end);
        let summary = Summary { bytes: end - start, line_breaks: b - a };
        proof {
            let g = self.root.text();
            assert(g.subrange(self.before + start, self.before + start + summary.bytes) =~= self@.subrange(start as int, end as int));
        }
        TreeSlice { root: self.root, before: self.before + start, summary }
    }
}

impl<'a> TreeSlice<'a> {
    /// The pieces of leaf chunks that make up this slice, left to right,
    /// none of them empty.
    pub fn chunks(&self) -> (r: Vec<&'a str>)
        requires
            is_char_boundary(self.root_text(), self.offset()),
            is_char_boundary(self.root_text(), self.offset() + self@.len()),
        ensures
            pieces_text(r@) == self@,
            pieces_bytes(r@) == self.leaf_parts(),
            forall|i: int| 0 <= i < r@.len() ==> #[trigger] r@[i]@.len() > 0,
    {
        proof {
            use_type_invariant(self);
        }
        let mut out: Vec<&'a str> = Vec::new();
        proof {
            assert(pieces_text(out@) =~= Seq::<u8>::empty());
            assert(pieces_bytes(out@) =~= Seq::<Seq<u8>>::empty());
        }
        collect_pieces(self.root, self.before, self.before + self.summary.bytes, &mut out);
        proof {
            assert(Seq::<u8>::empty() + self@ =~= self@);
            assert(Seq::<Seq<u8>>::empty() + self.leaf_parts() =~= self.leaf_parts());
        }
        out
    }
}

impl<'a> View for TreeSlice<'a> {
    type V = Seq<u8>;

    closed spec fn view(&self) -> Seq<u8> {
        self.root.text().subrange(self.before as int, self.before + self.summary.bytes)
    }
}

pub proof fn lemma_wf_len(n: Node)
    requires
        n.wf(),
    ensures
        n.text().len() == n.spec_summary().bytes,
        n.text().len() <= usize::MAX,
{
}

/// Counting in a slice is counting in the whole text, less what comes before.
pub proof fn lemma_slice_counts<M: Metric>(g: Seq<u8>, b: int, v: Seq<u8>, p: int)
    requires
        0 <= b,
        b + v.len() <= g.len(),
        v == g.subrange(b, b + v.len()),
        0 <= p <= v.len(),
    ensures
        count_units::<M>(g.take(b + p)) == count_units::<M>(g.take(b)) + count_units::<M>(v.take(p)),
        count_units::<M>(g.take(b)) <= count_units::<M>(g.take(b + p)),
{
    assert(g.take(b + p) =~= g.take(b) + v.take(p));
    lemma_count_units_concat::<M>(g.take(b), v.take(p));
}

/// Boundaries in a slice are boundaries in the whole text, shifted.
pub proof fn lemma_slice_boundary<M: Metric>(g: Seq<u8>, b: int, v: Seq<u8>, k: nat)
    requires
        0 <= b,
        b + v.len() <= g.len(),
        v == g.subrange(b, b + v.len()),
        1 <= k <= count_units::<M>(v),
    ensures
        unit_boundary::<M>(g, count_units::<M>(g.take(b)) + k) == b + unit_boundary::<M>(v, k),
{
    let a = g.take(b);
    let rest = g.skip(b + v.len());
    assert(g =~= a + (v + rest));
    lemma_unit_boundary_concat::<M>(a, v + rest, count_units::<M>(a) + k);
    lemma_unit_boundary_concat::<M>(v, rest, k);
}

/// The bytes of a sequence of string pieces, left to right.
pub open spec fn pieces_text(ps: Seq<&str>) -> Seq<u8>
    decreases ps.len(),
{
    if ps.len() == 0 {
        Seq::empty()
    } else {
        pieces_text(ps.drop_last()) + ps.last().spec_bytes()
    }
}

/// The bytes of each of a sequence of string pieces.
pub open spec fn pieces_bytes(ps: Seq<&str>) -> Seq<Seq<u8>> {
    ps.map_values(|p: &str| p.spec_bytes())
}

/// The non-empty parts of leaf text that make up bytes `lo..hi` below `n`,
/// one per leaf, left to right.
pub open spec fn leaf_pieces(n: Node, lo: int, hi: int) -> Seq<Seq<u8>>
    decreases n,
{
    match n {
        Node::Leaf { .. } => if lo < hi {
            seq![n.text().subrange(lo, hi)]
        } else {
            Seq::empty()
        },
        Node::Internal { children, .. } => children_pieces(children@, lo, hi),
    }
}

/// The same for bytes `lo..hi` below a sequence of sibling nodes: each
/// child contributes the parts of its leaves that fall in the range.
pub open spec fn children_pieces(cs: Seq<Node>, lo: int, hi: int) -> Seq<Seq<u8>>
    decreases cs,
{
    if cs.len() == 0 {
        Seq::empty()
    } else {
        let before = children_text(cs.drop_last()).len() as int;
        let len = cs.last().text().len() as int;
        children_pieces(cs.drop_last(), lo, hi) + leaf_pieces(
            cs.last(),
            clamp(lo - before, 0, len),
            clamp(hi - before, 0, len),
        )
    }
}

/// Pieces of text, joined left to right.
pub open spec fn joined(ps: Seq<Seq<u8>>) -> Seq<u8>
    decreases ps.len(),
{
    if ps.len() == 0 {
        Seq::empty()
    } else {
        joined(ps.drop_last()) + ps.last()
    }
}

/// Joining two runs of pieces one after the other.
pub proof fn lemma_joined_concat(a: Seq<Seq<u8>>, b: Seq<Seq<u8>>)
    ensures
        joined(a + b) == joined(a) + joined(b),
    decreases b.len(),
{
    if b.len() == 0 {
        assert(a + b =~= a);
        assert(joined(a) + joined(b) =~= joined(a));
    } else {
        lemma_joined_concat(a, b.drop_last());
        assert((a + b).drop_last() =~= a + b.drop_last());
        assert(joined(a) + joined(b) =~= joined(a) + joined(b.drop_last()) + b.last());
    }
}

/// The leaf parts of a range below a node join back into the node's text
/// over that range.
pub proof fn lemma_leaf_pieces_join(n: Node, lo: int, hi: int)
    requires
        0 <= lo <= hi <= n.text().len(),
    ensures
        joined(leaf_pieces(n, lo, hi)) == n.text().subrange(lo, hi),
        forall|i: int| 0 <= i < leaf_pieces(n, lo, hi).len() ==> #[trigger] leaf_pieces(n, lo, hi)[i].len() > 0,
    decreases n,
{
    match n {
        Node::Leaf { .. } => {
            if lo < hi {
                let x = n.text().subrange(lo, hi);
                assert(seq![x].drop_last() =~= Seq::<Seq<u8>>::empty());
                assert(joined(Seq::<Seq<u8>>::empty()) == Seq::<u8>::empty());
                assert(seq![x].last() == x);
                assert(Seq::<u8>::empty() + x =~= x);
            } else {
                assert(n.text().subrange(lo, hi) =~= Seq::<u8>::empty());
            }
        },
        Node::Internal { children, .. } => {
            lemma_children_pieces_join(children@, lo, hi);
        },
    }
}

/// The same below a sequence of siblings, for a range clipped to their
/// text.
pub proof fn lemma_children_pieces_join(cs: Seq<Node>, lo: int, hi: int)
    requires
        lo <= hi,
    ensures
        joined(children_pieces(cs, lo, hi)) == children_text(cs).subrange(
            clamp(lo, 0, children_text(cs).len() as int),
            clamp(hi, 0, children_text(cs).len() as int),
        ),
        forall|i: int| 0 <= i < children_pieces(cs, lo, hi).len() ==> #[trigger] children_pieces(cs, lo, hi)[i].len() > 0,
    decreases cs,
{
    if cs.len() == 0 {
        assert(children_text(cs).subrange(0, 0) =~= Seq::<u8>::empty());
    } else {
        let init = cs.drop_last();
        let last = cs.last();
        let before = children_text(init).len() as int;
        let len = last.text().len() as int;
        let clo = clamp(lo - before, 0, len);
        let chi = clamp(hi - before, 0, len);
        lemma_children_pieces_join(init, lo, hi);
        lemma_leaf_pieces_join(last, clo, chi);
        lemma_joined_concat(children_pieces(init, lo, hi), leaf_pieces(last, clo, chi));
        let t = children_text(cs);
        assert(t == children_text(init) + last.text());
        assert(t.subrange(clamp(lo, 0, t.len() as int), clamp(hi, 0, t.len() as int)) =~= children_text(init).subrange(
            clamp(lo, 0, before),
            clamp(hi, 0, before),
        ) + last.text().subrange(clo, chi));
        let ps = children_pieces(cs, lo, hi);
        let a = children_pieces(init, lo, hi);
        let b = leaf_pieces(last, clo, chi);
        assert(ps == a + b);
        assert forall|i: int| 0 <= i < ps.len() implies #[trigger] ps[i].len() > 0 by {
            if i < a.len() {
                assert(ps[i] == a[i]);
            } else {
                assert(ps[i] == b[i - a.len()]);
            }
        }
    }
}

/// An empty range holds no piece.
pub proof fn lemma_leaf_pieces_empty(n: Node, lo: int, hi: int)
    requires
        hi <= lo,
    ensures
        leaf_pieces(n, lo, hi) == Seq::<Seq<u8>>::empty(),
    decreases n,
{
    match n {
        Node::Leaf { .. } => {},
        Node::Internal { children, .. } => {
            lemma_children_pieces_empty(children@, lo, hi);
        },
    }
}

/// An empty range holds no piece, below siblings either.
pub proof fn lemma_children_pieces_empty(cs: Seq<Node>, lo: int, hi: int)
    requires
        hi <= lo,
    ensures
        children_pieces(cs, lo, hi) == Seq::<Seq<u8>>::empty(),
    decreases cs,
{
    if cs.len() > 0 {
        let before = children_text(cs.drop_last()).len() as int;
        let len = cs.last().text().len() as int;
        lemma_children_pieces_empty(cs.drop_last(), lo, hi);
        lemma_leaf_pieces_empty(cs.last(), clamp(lo - before, 0, len), clamp(hi - before, 0, len));
        assert(children_pieces(cs, lo, hi) =~= Seq::<Seq<u8>>::empty());
    }
}

/// The characters of a sequence of string pieces, left to right.
pub open spec fn pieces_chars(ps: Seq<&str>) -> Seq<char>
    decreases ps.len(),
{
    if ps.len() == 0 {
        Seq::empty()
    } else {
        pieces_chars(ps.drop_last()) + ps.last()@
    }
}

/// The bytes of the pieces encode their characters.
pub proof fn lemma_pieces_encode(ps: Seq<&str>)
    ensures
        pieces_text(ps) == encode_utf8(pieces_chars(ps)),
    decreases ps.len(),
{
    if ps.len() == 0 {
        assert(encode_utf8(Seq::<char>::empty()) =~= Seq::<u8>::empty());
    } else {
        lemma_pieces_encode(ps.drop_last());
        lemma_encode_concat(pieces_chars(ps.drop_last()), ps.last()@);
    }
}

/// Appends to `out` the pieces of leaf chunks that make up the bytes
/// `lo..hi` below `node`, skipping empty pieces.
pub fn collect_pieces<'a>(node: &'a Node, lo: usize, hi: usize, out: &mut Vec<&'a str>)
    requires
        node.wf(),
        lo <= hi <= node.text().len(),
        is_char_boundary(node.text(), lo as int),
        is_char_boundary(node.text(), hi as int),
        forall|i: int| 0 <= i < old(out)@.len() ==> #[trigger] old(out)@[i]@.len() > 0,
    ensures
        pieces_text(final(out)@) == pieces_text(old(out)@) + node.text().subrange(lo as int, hi as int),
        pieces_bytes(final(out)@) == pieces_bytes(old(out)@) + leaf_pieces(*node, lo as int, hi as int),
        forall|i: int| 0 <= i < final(out)@.len() ==> #[trigger] final(out)@[i]@.len() > 0,
    decreases node,
{
    match node {
        Node::Leaf { chunk, .. } => {
            if lo < hi {
                let s = chunk.as_str();
                let ghost t = node.text();
                proof {
                    super::node::lemma_text_valid_utf8(*node);
                    vstd::utf8::is_char_boundary_start_end_of_seq(t);
                    lemma_sub_boundaries(t, lo as int, t.len() - lo);
                    assert(t.subrange(lo as int, lo + (t.len() - lo)) =~= t.subrange(lo as int, t.len() as int));
                }
                let (_, rest) = s.split_at(lo);
                let (piece, _) = rest.split_at(hi - lo);
                proof {
                    assert(piece.spec_bytes() =~= t.subrange(lo as int, hi as int));
                    if piece@.len() == 0 {
                        assert(encode_utf8(piece@) =~= Seq::<u8>::empty());
                    }
                }
                let ghost before_push = out@;
                out.push(piece);
                proof {
                    assert(out@.drop_last() =~= before_push);
                    assert(pieces_bytes(out@) =~= pieces_bytes(before_push) + leaf_pieces(*node, lo as int, hi as int));
                }
            } else {
                proof {
                    assert(node.text().subrange(lo as int, hi as int) =~= Seq::<u8>::empty());
                    assert(pieces_text(out@) + Seq::<u8>::empty() =~= pieces_text(out@));
                    assert(pieces_bytes(out@) + leaf_pieces(*node, lo as int, hi as int) =~= pieces_bytes(out@));
                }
            }
        },
        Node::Internal { children, .. } => {
            let ghost cs = children@;
            let ghost t = node.text();
            let ghost start_out = out@;
            let mut j: usize = 0;
            let mut before: usize = 0;
            proof {
                assert(cs.take(0) =~= Seq::<Node>::empty());
                lemma_decreases_to_children(*node);
                lemma_wf_len(*node);
                super::node::lemma_text_valid_utf8(*node);
                assert(t.subrange(lo as int, lo as int) =~= Seq::<u8>::empty());
                assert(pieces_text(start_out) + Seq::<u8>::empty() =~= pieces_text(start_out));
                assert(pieces_bytes(start_out) + children_pieces(cs.take(0), lo as int, hi as int) =~= pieces_bytes(start_out));
            }
            while j < children.len()
                invariant
                    cs == children@,
                    forall|k: int| 0 <= k < cs.len() ==> decreases_to!(*node => #[trigger] cs[k]),
                    children_wf(cs),
                    t == children_text(cs),
                    t == node.text(),
                    t.len() <= usize::MAX,
                    vstd::utf8::valid_utf8(t),
                    lo <= hi <= t.len(),
                    is_char_boundary(t, lo as int),
                    is_char_boundary(t, hi as int),
                    j <= cs.len(),
                    before == children_text(cs.take(j as int)).len(),
                    pieces_text(out@) == pieces_text(start_out) + t.subrange(lo as int, clamp(before as int, lo as int, hi as int)),
                    pieces_bytes(out@) == pieces_bytes(start_out) + children_pieces(cs.take(j as int), lo as int, hi as int),
                    forall|i: int| 0 <= i < out@.len() ==> #[trigger] out@[i]@.len() > 0,
                decreases cs.len() - j,
            {
                let child = &children[j];
                proof {
                    lemma_children_wf(cs, j as int);
                    lemma_children_text_at(cs, j as int);
                    lemma_child_boundaries(cs, j as int);
                    lemma_wf_len(*child);
                }
                let len = child.summary().bytes;
                let end = before + len;
                let clo: usize = if lo > before { lo - before } else { 0 };
                let chi: usize = if hi < end { if hi > before { hi - before } else { 0 } } else { len };
                let ghost clo_c = clamp(lo - before, 0, len as int);
                let ghost chi_c = clamp(hi - before, 0, len as int);
                let ghost pre_out = out@;
                proof {
                    assert(cs.take(j + 1).drop_last() =~= cs.take(j as int));
                    assert(cs.take(j + 1).last() == cs[j as int]);
                    assert(children_pieces(cs.take(j + 1), lo as int, hi as int) == children_pieces(
                        cs.take(j as int),
                        lo as int,
                        hi as int,
                    ) + leaf_pieces(cs[j as int], clo_c, chi_c));
                }
                if clo < chi {
                    proof {
                        lemma_sub_boundaries(t, before as int, len as int);
                        assert(t.subrange(before as int, before + len) == child.text());
                        assert(is_char_boundary(t, before + clo));
                        assert(is_char_boundary(t, before + chi));
                    }
                    let ghost mid = out@;
                    collect_pieces(child, clo, chi, out);
                    proof {
                        assert(child.text().subrange(clo as int, chi as int) =~= t.subrange(before + clo, before + chi));
                        assert(t.subrange(lo as int, clamp(end as int, lo as int, hi as int)) =~= t.subrange(lo as int, clamp(before as int, lo as int, hi as int)) + t.subrange(before + clo, before + chi));
                    }
                    proof {
                        assert(clo as int == clo_c && chi as int == chi_c);
                        assert(pieces_bytes(out@) =~= pieces_bytes(start_out) + children_pieces(cs.take(j + 1), lo as int, hi as int));
                    }
                } else {
                    proof {
                        assert(clamp(end as int, lo as int, hi as int) == clamp(before as int, lo as int, hi as int));
                        lemma_leaf_pieces_empty(cs[j as int], clo_c, chi_c);
                        assert(pieces_bytes(out@) =~= pieces_bytes(start_out) + children_pieces(cs.take(j + 1), lo as int, hi as int));
                    }
                }
                before = end;
                j = j + 1;
            }
            proof {
                lemma_children_text_all(cs);
                assert(clamp(before as int, lo as int, hi as int) == hi);
                assert(cs.take(cs.len() as int) =~= cs);
            }
        },
    }
}

/// `x` brought into `lo..=hi`.
pub open spec fn clamp(x: int, lo: int, hi: int) -> int {
    if x < lo { lo } else if x > hi { hi } else { x }
}

} // verus!
