use vstd::prelude::*;
use core::ops::Range;
use std::borrow::Cow;
use vstd::utf8::{valid_utf8, is_char_boundary, decode_utf8};
use vstd::string::{StringSliceAdditionalSpecFns, StringExecFns, StrSliceExecFns};
use crate::tree::text::{
    NEWLINE, LineMetric, count_newlines, line_start, lemma_unit_boundary_bound,
    lemma_unit_boundary_mono, lemma_count_units_bound,
};
use crate::tree::tree_slice::{TreeSlice, pieces_text, pieces_chars, pieces_bytes, lemma_pieces_encode};
use crate::tree::node::Tree;
use crate::tree::boundary::{lemma_sub_boundaries, lemma_line_start_boundary, lemma_boundary_in_stretch};
use crate::tree::units::Units;
use crate::tree::text::{
    count_units, unit_boundary, lemma_count_at_boundary, lemma_boundary_before_end,
    lemma_boundary_at_count,
};

verus! {

/// An immutable view into a range of a tree of text.
#[derive(Clone, Copy)]
pub struct RopeSlice<'a> {
    pub(crate) tree_slice: TreeSlice<'a>,
    pub(crate) last_byte_is_newline: bool,
}

impl<'a> View for RopeSlice<'a> {
    type V = Seq<u8>;

    closed spec fn view(&self) -> Seq<u8> {
        self.tree_slice@
    }
}

impl<'a> RopeSlice<'a> {
    #[verifier::type_invariant]
    pub(crate) closed spec fn inv(self) -> bool {
        &&& self.tree_slice.root_text().len() < usize::MAX
        &&& valid_utf8(self.tree_slice.root_text())
        &&& is_char_boundary(self.tree_slice.root_text(), self.tree_slice.offset())
        &&& is_char_boundary(
            self.tree_slice.root_text(),
            self.tree_slice.offset() + self.tree_slice@.len(),
        )
        &&& self.last_byte_is_newline ==> self.tree_slice@.len() > 0
            && self.tree_slice@.last() == NEWLINE
    }

    /// Whether the slice counts a line break that ends it as closing its last
    /// line (see `line_len`).
    pub closed spec fn spec_last_byte_is_newline(self) -> bool {
        self.last_byte_is_newline
    }

    /// The number of lines: one more than the line breaks, less one when the
    /// last byte is a line break that closes the last line.
    pub open spec fn spec_line_len(self) -> int {
        count_newlines(self@) + 1 - (if self.spec_last_byte_is_newline() { 1int } else { 0int })
    }

    /// The slice ends in a line break.
    pub open spec fn ends_with_newline(s: Seq<u8>) -> bool {
        s.len() > 0 && s.last() == NEWLINE
    }

    pub(crate) proof fn lemma_facts(self)
        requires
            self.inv(),
            self.tree_slice.inv(),
        ensures
            valid_utf8(self@),
            self@.len() < usize::MAX,
            count_newlines(self@) <= self@.len(),
            self.spec_last_byte_is_newline() ==> Self::ends_with_newline(self@),
            self.spec_last_byte_is_newline() ==> count_newlines(self@) >= 1,
            forall|i: int|
                0 <= i <= self@.len() ==> (is_char_boundary(
                    self.tree_slice.root_text(),
                    self.tree_slice.offset() + i,
                ) <==> #[trigger] is_char_boundary(self@, i)),
    {
        self.tree_slice.lemma_inv();
        lemma_sub_boundaries(
            self.tree_slice.root_text(),
            self.tree_slice.offset(),
            self@.len() as int,
        );
        lemma_count_units_bound::<LineMetric>(self@);
        if self.last_byte_is_newline {
            let v = self@;
            assert(v =~= v.drop_last() + seq![NEWLINE]);
            crate::tree::text::lemma_count_units_concat::<LineMetric>(v.drop_last(), seq![NEWLINE]);
            assert(seq![NEWLINE].drop_first() =~= Seq::<u8>::empty());
        }
    }

    /// A slice made from a slice of a tree, whose last line is closed by a
    /// line break that ends it.
    pub(crate) fn from_tree_slice(tree_slice: TreeSlice<'a>) -> (s: RopeSlice<'a>)
        requires
            tree_slice.root_text().len() < usize::MAX,
            is_char_boundary(tree_slice.root_text(), tree_slice.offset()),
            is_char_boundary(tree_slice.root_text(), tree_slice.offset() + tree_slice@.len()),
        ensures
            s.tree_slice == tree_slice,
            s@ == tree_slice@,
            s.spec_last_byte_is_newline() == Self::ends_with_newline(tree_slice@),
    {
        proof {
            use_type_invariant(&tree_slice);
            tree_slice.lemma_inv();
        }
        let n = tree_slice.byte_len();
        let last_byte_is_newline = n > 0 && tree_slice.byte(n - 1) == NEWLINE;
        RopeSlice { tree_slice, last_byte_is_newline }
    }

    /// The slice of a whole tree.
    pub fn from_tree(tree: &'a Tree) -> (s: RopeSlice<'a>)
        ensures
            s@ == tree@,
            s.spec_last_byte_is_newline() == Self::ends_with_newline(tree@),
    {
        let ts = TreeSlice::from_tree(tree);
        proof {
            use_type_invariant(&ts);
            ts.lemma_inv();
            vstd::utf8::is_char_boundary_start_end_of_seq(ts.root_text());
        }
        Self::from_tree_slice(ts)
    }

    /// The `byte_idx`-th byte.
    pub fn byte(&self, byte_idx: usize) -> (b: u8)
        requires
            byte_idx < self@.len(),
        ensures
            b == self@[byte_idx as int],
    {
        self.tree_slice.byte(byte_idx)
    }

    pub fn byte_len(&self) -> (n: usize)
        ensures
            n == self@.len(),
    {
        self.tree_slice.byte_len()
    }

    /// The byte offset at which line `line_idx` starts.
    pub fn byte_of_line(&self, line_idx: usize) -> (r: usize)
        requires
            line_idx < self.spec_line_len(),
        ensures
            r == line_start(self@, line_idx as nat),
    {
        self.tree_slice.unit_boundary::<LineMetric>(line_idx)
    }

    /// The bytes in `byte_range`, whose ends must fall on character
    /// boundaries.
    pub fn byte_slice(&self, byte_range: Range<usize>) -> (s: RopeSlice<'a>)
        requires
            byte_range.start <= byte_range.end <= self@.len(),
            is_char_boundary(self@, byte_range.start as int),
            is_char_boundary(self@, byte_range.end as int),
        ensures
            s@ == self@.subrange(byte_range.start as int, byte_range.end as int),
            s.spec_last_byte_is_newline() == Self::ends_with_newline(s@),
    {
        let start = byte_range.start;
        let end = byte_range.end;
        proof {
            use_type_invariant(self);
            use_type_invariant(&self.tree_slice);
            self.lemma_facts();
            assert(is_char_boundary(self@, start as int));
            assert(is_char_boundary(self@, end as int));
        }
        let ts = self.tree_slice.slice(start, end);
        Self::from_tree_slice(ts)
    }

    /// The non-empty parts of the tree's leaves that fall in this slice, one
    /// per leaf, left to right.
    pub closed spec fn leaf_parts(self) -> Seq<Seq<u8>> {
        self.tree_slice.leaf_parts()
    }

    /// The pieces of text this slice is made of: the parts of the leaves
    /// that fall in it, left to right, none empty.
    pub fn chunks(&self) -> (r: Vec<&'a str>)
        ensures
            pieces_text(r@) == self@,
            pieces_bytes(r@) == self.leaf_parts(),
            forall|i: int| 0 <= i < r@.len() ==> #[trigger] r@[i]@.len() > 0,
    {
        proof {
            use_type_invariant(self);
        }
        self.tree_slice.chunks()
    }

    /// The bytes of this slice.
    pub fn bytes(&self) -> (r: Vec<u8>)
        ensures
            r@ == self@,
    {
        let chunks = self.chunks();
        let mut out: Vec<u8> = Vec::new();
        let mut i: usize = 0;
        proof {
            assert(chunks@.take(0) =~= Seq::<&str>::empty());
            assert(out@ =~= pieces_text(chunks@.take(0)));
        }
        while i < chunks.len()
            invariant
                i <= chunks@.len(),
                out@ == pieces_text(chunks@.take(i as int)),
            decreases chunks@.len() - i,
        {
            let piece = chunks[i];
            let b = piece.as_bytes();
            let ghost base = out@;
            let mut k: usize = 0;
            while k < b.len()
                invariant
                    k <= b@.len(),
                    out@ == base + b@.take(k as int),
                decreases b@.len() - k,
            {
                out.push(b[k]);
                k = k + 1;
                proof {
                    assert(out@ =~= base + b@.take(k as int));
                }
            }
            proof {
                assert(chunks@.take(i + 1).drop_last() =~= chunks@.take(i as int));
                assert(b@.take(b@.len() as int) =~= b@);
            }
            i = i + 1;
        }
        proof {
            assert(chunks@.take(chunks@.len() as int) =~= chunks@);
        }
        out
    }

    /// The characters of this slice.
    pub fn chars(&self) -> (r: Vec<char>)
        ensures
            r@ == decode_utf8(self@),
    {
        let chunks = self.chunks();
        let mut out: Vec<char> = Vec::new();
        let mut i: usize = 0;
        proof {
            assert(chunks@.take(0) =~= Seq::<&str>::empty());
            assert(out@ =~= pieces_chars(chunks@.take(0)));
        }
        while i < chunks.len()
            invariant
                i <= chunks@.len(),
                out@ == pieces_chars(chunks@.take(i as int)),
            decreases chunks@.len() - i,
        {
            let piece = chunks[i];
            let n = piece.unicode_len();
            let ghost base = out@;
            let mut k: usize = 0;
            while k < n
                invariant
                    n == piece@.len(),
                    k <= n,
                    out@ == base + piece@.take(k as int),
                decreases n - k,
            {
                out.push(piece.get_char(k));
                k = k + 1;
                proof {
                    assert(out@ =~= base + piece@.take(k as int));
                }
            }
            proof {
                assert(chunks@.take(i + 1).drop_last() =~= chunks@.take(i as int));
                assert(piece@.take(piece@.len() as int) =~= piece@);
            }
            i = i + 1;
        }
        proof {
            assert(chunks@.take(chunks@.len() as int) =~= chunks@);
            lemma_pieces_encode(chunks@);
            vstd::utf8::encode_utf8_decode_utf8(pieces_chars(chunks@));
        }
        out
    }

    /// The text of this slice.
    pub fn to_string(&self) -> (r: String)
        ensures
            r@ == decode_utf8(self@),
            vstd::utf8::encode_utf8(r@) == self@,
    {
        let chunks = self.chunks();
        let mut out = String::new();
        let mut i: usize = 0;
        proof {
            assert(chunks@.take(0) =~= Seq::<&str>::empty());
            assert(out@ =~= pieces_chars(chunks@.take(0)));
        }
        while i < chunks.len()
            invariant
                i <= chunks@.len(),
                out@ == pieces_chars(chunks@.take(i as int)),
            decreases chunks@.len() - i,
        {
            out.append(chunks[i]);
            proof {
                assert(chunks@.take(i + 1).drop_last() =~= chunks@.take(i as int));
            }
            i = i + 1;
        }
        proof {
            assert(chunks@.take(chunks@.len() as int) =~= chunks@);
            lemma_pieces_encode(chunks@);
            vstd::utf8::encode_utf8_decode_utf8(pieces_chars(chunks@));
        }
        out
    }

    /// Whether `byte_idx` falls on a character boundary: the start, the end,
    /// or a byte that is not a UTF-8 continuation byte.
    pub fn is_char_boundary(&self, byte_idx: usize) -> (r: bool)
        ensures
            r == is_char_boundary(self@, byte_idx as int),
    {
        proof {
            use_type_invariant(self);
            use_type_invariant(&self.tree_slice);
            self.lemma_facts();
            vstd::utf8::is_char_boundary_start_end_of_seq(self@);
        }
        let n = self.byte_len();
        if byte_idx == 0 || byte_idx == n {
            return true;
        }
        if byte_idx > n {
            return false;
        }
        let b = self.byte(byte_idx);
        proof {
            vstd::utf8::is_char_boundary_iff_not_is_continuation_byte(self@, byte_idx as int);
        }
        !(0x80u8 <= b && b <= 0xbfu8)
    }

    /// `true` when the slice holds no bytes.
    pub fn is_empty(&self) -> (r: bool)
        ensures
            r == (self@.len() == 0),
    {
        self.byte_len() == 0
    }

    /// Line `line_idx`: the bytes from its start to the start of the next
    /// line, its line break included.
    pub fn line(&self, line_idx: usize) -> (s: RopeSlice<'a>)
        requires
            line_idx < self.spec_line_len(),
        ensures
            s@ == self@.subrange(
                line_start(self@, line_idx as nat),
                line_start(self@, line_idx as nat + 1),
            ),
            !s.spec_last_byte_is_newline(),
    {
        proof {
            use_type_invariant(self);
            use_type_invariant(&self.tree_slice);
            self.lemma_facts();
            lemma_unit_boundary_bound::<LineMetric>(self@, line_idx as nat);
            lemma_unit_boundary_bound::<LineMetric>(self@, line_idx as nat + 1);
            lemma_unit_boundary_mono::<LineMetric>(self@, line_idx as nat, line_idx as nat + 1);
            lemma_line_start_boundary(self@, line_idx as nat);
            lemma_line_start_boundary(self@, line_idx as nat + 1);
        }
        let start = self.tree_slice.unit_boundary::<LineMetric>(line_idx);
        let end = self.tree_slice.unit_boundary::<LineMetric>(line_idx + 1);
        let ts = self.tree_slice.slice(start, end);
        proof {
            assert(is_char_boundary(self@, start as int));
            assert(is_char_boundary(self@, end as int));
        }
        RopeSlice { tree_slice: ts, last_byte_is_newline: false }
    }

    /// The number of lines: one more than the line breaks, less one when
    /// the slice counts a line break that ends it as closing its last line.
    pub fn line_len(&self) -> (n: usize)
        ensures
            n == self.spec_line_len(),
            n == count_newlines(self@) + 1 - (if self.spec_last_byte_is_newline() { 1int } else { 0int }),
            self.spec_last_byte_is_newline() ==> self@.len() > 0 && self@.last() == NEWLINE,
    {
        proof {
            use_type_invariant(self);
            use_type_invariant(&self.tree_slice);
            self.lemma_facts();
        }
        let breaks = self.tree_slice.summary().line_breaks;
        if self.last_byte_is_newline {
            breaks
        } else {
            breaks + 1
        }
    }

    /// The line that byte `byte_idx` belongs to: the number of line breaks
    /// before it.
    pub fn line_of_byte(&self, byte_idx: usize) -> (r: usize)
        requires
            byte_idx < self@.len(),
        ensures
            r == count_newlines(self@.take(byte_idx as int)),
    {
        self.tree_slice.units_before::<LineMetric>(byte_idx)
    }

    /// The lines in `line_range`: from the start of its first line to the
    /// start of the line at its end.
    pub fn line_slice(&self, line_range: Range<usize>) -> (s: RopeSlice<'a>)
        requires
            line_range.start <= line_range.end <= self.spec_line_len(),
        ensures
            s@ == self@.subrange(
                line_start(self@, line_range.start as nat),
                line_start(self@, line_range.end as nat),
            ),
            s.spec_last_byte_is_newline() == Self::ends_with_newline(s@),
    {
        let start = line_range.start;
        let end = line_range.end;
        proof {
            use_type_invariant(self);
            use_type_invariant(&self.tree_slice);
            self.lemma_facts();
            lemma_unit_boundary_bound::<LineMetric>(self@, start as nat);
            lemma_unit_boundary_bound::<LineMetric>(self@, end as nat);
            lemma_unit_boundary_mono::<LineMetric>(self@, start as nat, end as nat);
            lemma_line_start_boundary(self@, start as nat);
            lemma_line_start_boundary(self@, end as nat);
        }
        let s = self.tree_slice.unit_boundary::<LineMetric>(start);
        let e = self.tree_slice.unit_boundary::<LineMetric>(end);
        let ts = self.tree_slice.slice(s, e);
        proof {
            assert(is_char_boundary(self@, s as int));
            assert(is_char_boundary(self@, e as int));
        }
        Self::from_tree_slice(ts)
    }

    /// `true` when both slices hold the same bytes.
    pub fn eq_slice(&self, other: &RopeSlice) -> (r: bool)
        ensures
            r == (self@ == other@),
    {
        if self.byte_len() != other.byte_len() {
            return false;
        }
        let a = self.bytes();
        let b = other.bytes();
        let mut i: usize = 0;
        while i < a.len()
            invariant
                a@ == self@,
                b@ == other@,
                a@.len() == b@.len(),
                i <= a@.len(),
                forall|k: int| 0 <= k < i ==> a@[k] == b@[k],
            decreases a@.len() - i,
        {
            if a[i] != b[i] {
                return false;
            }
            i = i + 1;
        }
        proof {
            assert(a@ =~= b@);
        }
        true
    }

    /// `true` when this slice holds the bytes of `s`.
    pub fn eq_str(&self, s: &str) -> (r: bool)
        ensures
            r == (self@ == s.spec_bytes()),
    {
        let b = s.as_bytes();
        if self.byte_len() != b.len() {
            return false;
        }
        let a = self.bytes();
        let mut i: usize = 0;
        while i < a.len()
            invariant
                a@ == self@,
                b@ == s.spec_bytes(),
                a@.len() == b@.len(),
                i <= a@.len(),
                forall|k: int| 0 <= k < i ==> a@[k] == b@[k],
            decreases a@.len() - i,
        {
            if a[i] != b[i] {
                return false;
            }
            i = i + 1;
        }
        proof {
            assert(a@ =~= b@);
        }
        true
    }

    /// Every line, in order: the `i`-th is `line(i)`.
    pub fn lines(&self) -> (r: Vec<RopeSlice<'a>>)
        ensures
            r@.len() == self.spec_line_len(),
            forall|i: int|
                #![trigger r@[i]]
                0 <= i < r@.len() ==> r@[i]@ == self@.subrange(
                    line_start(self@, i as nat),
                    line_start(self@, i as nat + 1),
                ) && !r@[i].spec_last_byte_is_newline(),
    {
        proof {
            use_type_invariant(self);
            use_type_invariant(&self.tree_slice);
            self.lemma_facts();
        }
        let ghost t = self@;
        let ghost c = count_units::<LineMetric>(t);
        let mut units = Units::<LineMetric>::from_tree_slice(&self.tree_slice);
        let mut out: Vec<RopeSlice<'a>> = Vec::new();
        let mut k: usize = 0;
        proof {
            lemma_unit_boundary_bound::<LineMetric>(t, 0);
        }
        loop
            invariant_except_break
                t == self@,
                c == count_units::<LineMetric>(t),
                c <= t.len() < usize::MAX,
                units.text() == t,
                units.root_text() == self.tree_slice.root_text(),
                units.offset() == self.tree_slice.offset(),
                units.back() == t.len(),
                units.front() == unit_boundary::<LineMetric>(t, k as nat),
                k <= c + 1,
                k > 0 ==> unit_boundary::<LineMetric>(t, (k - 1) as nat) < t.len(),
                out@.len() == k,
                valid_utf8(self.tree_slice.root_text()),
                self.tree_slice.root_text().len() < usize::MAX,
                forall|i: int|
                    0 <= i <= t.len() ==> (is_char_boundary(
                        self.tree_slice.root_text(),
                        self.tree_slice.offset() + i,
                    ) <==> #[trigger] is_char_boundary(t, i)),
                valid_utf8(t),
                forall|i: int|
                    #![trigger out@[i]]
                    0 <= i < k ==> out@[i]@ == t.subrange(
                        line_start(t, i as nat),
                        line_start(t, i as nat + 1),
                    ) && !out@[i].spec_last_byte_is_newline(),
            ensures
                t == self@,
                c == count_units::<LineMetric>(t),
                c <= t.len() < usize::MAX,
                units.text() == t,
                units.root_text() == self.tree_slice.root_text(),
                units.offset() == self.tree_slice.offset(),
                units.back() == t.len(),
                units.front() == unit_boundary::<LineMetric>(t, k as nat),
                k <= c + 1,
                k > 0 ==> unit_boundary::<LineMetric>(t, (k - 1) as nat) < t.len(),
                out@.len() == k,
                valid_utf8(self.tree_slice.root_text()),
                self.tree_slice.root_text().len() < usize::MAX,
                forall|i: int|
                    0 <= i <= t.len() ==> (is_char_boundary(
                        self.tree_slice.root_text(),
                        self.tree_slice.offset() + i,
                    ) <==> #[trigger] is_char_boundary(t, i)),
                valid_utf8(t),
                forall|i: int|
                    #![trigger out@[i]]
                    0 <= i < k ==> out@[i]@ == t.subrange(
                        line_start(t, i as nat),
                        line_start(t, i as nat + 1),
                    ) && !out@[i].spec_last_byte_is_newline(),
                units.front() == t.len(),
            decreases units.back() - units.front(),
        {
            let ts = match units.next() {
                Some(ts) => ts,
                None => {
                    break;
                },
            };
            proof {
                lemma_unit_boundary_bound::<LineMetric>(t, k as nat);
                if k > c {
                    assert(false);
                }
                lemma_count_at_boundary::<LineMetric>(t, k as nat);
                lemma_unit_boundary_bound::<LineMetric>(t, k as nat + 1);
                lemma_line_start_boundary(t, k as nat);
                lemma_line_start_boundary(t, k as nat + 1);
                assert(is_char_boundary(t, unit_boundary::<LineMetric>(t, k as nat)));
                assert(is_char_boundary(t, unit_boundary::<LineMetric>(t, k as nat + 1)));
                // the line is a slice of a node whose text is a stretch of the
                // slice's own root text
                let big = self.tree_slice.root_text();
                let a = self.tree_slice.offset() + unit_boundary::<LineMetric>(t, k as nat);
                let b = self.tree_slice.offset() + unit_boundary::<LineMetric>(t, k as nat + 1);
                let q = a - ts.offset();
                let m = ts.root_text().len() as int;
                use_type_invariant(&ts);
                ts.lemma_inv();
                assert(big.subrange(q, q + m) == ts.root_text());
                lemma_boundary_in_stretch(big, q, m, a);
                lemma_boundary_in_stretch(big, q, m, b);
            }
            let line = RopeSlice { tree_slice: ts, last_byte_is_newline: false };
            out.push(line);
            k = k + 1;
        }
        proof {
            lemma_unit_boundary_bound::<LineMetric>(t, k as nat);
            if k < c {
                lemma_boundary_before_end::<LineMetric>(t, k as nat);
            }
            if self.last_byte_is_newline {
                assert(t.take(t.len() as int) =~= t);
                lemma_boundary_at_count::<LineMetric>(t, t.len() as int);
            }
        }
        if k < self.line_len() {
            let n = self.tree_slice.byte_len();
            proof {
                lemma_unit_boundary_bound::<LineMetric>(t, k as nat);
                lemma_unit_boundary_bound::<LineMetric>(t, k as nat + 1);
                vstd::utf8::is_char_boundary_start_end_of_seq(t);
                assert(is_char_boundary(t, n as int));
                assert(t.subrange(n as int, n as int) =~= t.subrange(
                    line_start(t, k as nat),
                    line_start(t, k as nat + 1),
                ));
            }
            let ts = self.tree_slice.slice(n, n);
            let ghost before_push = out@;
            out.push(RopeSlice { tree_slice: ts, last_byte_is_newline: false });
            proof {
                assert forall|i: int| #![trigger out@[i]] 0 <= i < out@.len() implies out@[i]@ == t.subrange(
                    line_start(t, i as nat),
                    line_start(t, i as nat + 1),
                ) && !out@[i].spec_last_byte_is_newline() by {
                    if i < k {
                        assert(out@[i] == before_push[i]);
                    }
                }
            }
        }
        proof {
            assert(t == self@);
            assert forall|i: int| #![trigger out@[i]] 0 <= i < out@.len() implies out@[i]@ == self@.subrange(
                line_start(self@, i as nat),
                line_start(self@, i as nat + 1),
            ) && !out@[i].spec_last_byte_is_newline() by {
                assert(out@[i]@ == t.subrange(line_start(t, i as nat), line_start(t, i as nat + 1)));
            }
        }
        out
    }
}

impl<'a, 'b> PartialEq<RopeSlice<'b>> for RopeSlice<'a> {
    fn eq(&self, other: &RopeSlice<'b>) -> (r: bool) {
        self.eq_slice(other)
    }
}

impl<'a, 'b> vstd::std_specs::cmp::PartialEqSpecImpl<RopeSlice<'b>> for RopeSlice<'a> {
    open spec fn obeys_eq_spec() -> bool {
        true
    }

    open spec fn eq_spec(&self, other: &RopeSlice<'b>) -> bool {
        self@ == other@
    }
}

impl<'a> PartialEq<str> for RopeSlice<'a> {
    fn eq(&self, other: &str) -> (r: bool) {
        self.eq_str(other)
    }
}

impl<'a> vstd::std_specs::cmp::PartialEqSpecImpl<str> for RopeSlice<'a> {
    open spec fn obeys_eq_spec() -> bool {
        true
    }

    open spec fn eq_spec(&self, other: &str) -> bool {
        self@ == other.spec_bytes()
    }
}

impl<'a, 'b> PartialEq<&'b str> for RopeSlice<'a> {
    fn eq(&self, other: &&'b str) -> (r: bool) {
        self.eq_str(*other)
    }
}

impl<'a, 'b> vstd::std_specs::cmp::PartialEqSpecImpl<&'b str> for RopeSlice<'a> {
    open spec fn obeys_eq_spec() -> bool {
        true
    }

    open spec fn eq_spec(&self, other: &&'b str) -> bool {
        self@ == other.spec_bytes()
    }
}

impl<'a> PartialEq<String> for RopeSlice<'a> {
    fn eq(&self, other: &String) -> (r: bool) {
        self.eq_str(other.as_str())
    }
}

impl<'a> vstd::std_specs::cmp::PartialEqSpecImpl<String> for RopeSlice<'a> {
    open spec fn obeys_eq_spec() -> bool {
        true
    }

    open spec fn eq_spec(&self, other: &String) -> bool {
        self@ == vstd::utf8::encode_utf8(other@)
    }
}

impl<'a> PartialEq<RopeSlice<'a>> for str {
    fn eq(&self, other: &RopeSlice<'a>) -> (r: bool) {
        other.eq_str(self)
    }
}

impl<'a> vstd::std_specs::cmp::PartialEqSpecImpl<RopeSlice<'a>> for str {
    open spec fn obeys_eq_spec() -> bool {
        true
    }

    open spec fn eq_spec(&self, other: &RopeSlice<'a>) -> bool {
        self.spec_bytes() == other@
    }
}

impl<'a, 'b> PartialEq<RopeSlice<'a>> for &'b str {
    fn eq(&self, other: &RopeSlice<'a>) -> (r: bool) {
        other.eq_str(*self)
    }
}

impl<'a, 'b> vstd::std_specs::cmp::PartialEqSpecImpl<RopeSlice<'a>> for &'b str {
    open spec fn obeys_eq_spec() -> bool {
        true
    }

    open spec fn eq_spec(&self, other: &RopeSlice<'a>) -> bool {
        self.spec_bytes() == other@
    }
}

impl<'a> PartialEq<RopeSlice<'a>> for String {
    fn eq(&self, other: &RopeSlice<'a>) -> (r: bool) {
        other.eq_str(self.as_str())
    }
}

impl<'a> vstd::std_specs::cmp::PartialEqSpecImpl<RopeSlice<'a>> for String {
    open spec fn obeys_eq_spec() -> bool {
        true
    }

    open spec fn eq_spec(&self, other: &RopeSlice<'a>) -> bool {
        vstd::utf8::encode_utf8(self@) == other@
    }
}

impl<'a, 'b> PartialEq<Cow<'b, str>> for RopeSlice<'a> {
    fn eq(&self, other: &Cow<'b, str>) -> (r: bool) {
        match other {
            Cow::Borrowed(b) => self.eq_str(b),
            Cow::Owned(o) => self.eq_str(o.as_str()),
        }
    }
}

impl<'a, 'b> vstd::std_specs::cmp::PartialEqSpecImpl<Cow<'b, str>> for RopeSlice<'a> {
    open spec fn obeys_eq_spec() -> bool {
        true
    }

    open spec fn eq_spec(&self, other: &Cow<'b, str>) -> bool {
        self@ == vstd::utf8::encode_utf8(other@)
    }
}

impl<'a, 'b> PartialEq<RopeSlice<'a>> for Cow<'b, str> {
    fn eq(&self, other: &RopeSlice<'a>) -> (r: bool) {
        match self {
            Cow::Borrowed(b) => other.eq_str(b),
            Cow::Owned(o) => other.eq_str(o.as_str()),
        }
    }
}

impl<'a, 'b> vstd::std_specs::cmp::PartialEqSpecImpl<RopeSlice<'a>> for Cow<'b, str> {
    open spec fn obeys_eq_spec() -> bool {
        true
    }

    open spec fn eq_spec(&self, other: &RopeSlice<'a>) -> bool {
        vstd::utf8::encode_utf8(self@) == other@
    }
}

impl<'a> Eq for RopeSlice<'a> {
}

} // verus!
