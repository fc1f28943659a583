use vstd::prelude::*;
use vstd::utf8::{encode_utf8, valid_utf8, is_char_boundary};
use super::boundary::lemma_concat_boundary;
use super::text::{
    Summary, Metric, LineMetric, NEWLINE, count_units, count_newlines, summarizes, unit_boundary,
    lemma_count_units_concat, lemma_count_units_push, lemma_unit_boundary_concat,
    lemma_unit_boundary_bound, lemma_count_units_bound,
};

verus! {

/// A node of the tree: an internal node holds its children, a leaf holds a
/// chunk of text. Each node keeps the summary of the text below it.
pub enum Node {
    Internal { children: Vec<Node>, summary: Summary },
    Leaf { chunk: String, summary: Summary },
}

/// The text below a sequence of sibling nodes, left to right.
pub open spec fn children_text(cs: Seq<Node>) -> Seq<u8>
    decreases cs,
{
    if cs.len() == 0 {
        Seq::empty()
    } else {
        children_text(cs.drop_last()) + cs.last().text()
    }
}

/// No node of the sequence has an empty text.
pub open spec fn children_nonempty(cs: Seq<Node>) -> bool {
    forall|k: int| 0 <= k < cs.len() ==> #[trigger] cs[k].text().len() > 0
}

/// Every node of the sequence is well formed.
pub open spec fn children_wf(cs: Seq<Node>) -> bool
    decreases cs,
{
    if cs.len() == 0 {
        true
    } else {
        children_wf(cs.drop_last()) && cs.last().wf()
    }
}

impl Node {
    /// The bytes below this node, left to right.
    pub open spec fn text(self) -> Seq<u8>
        decreases self,
    {
        match self {
            Node::Leaf { chunk, .. } => encode_utf8(chunk@),
            Node::Internal { children, .. } => children_text(children@),
        }
    }

    pub open spec fn spec_summary(self) -> Summary {
        match self {
            Node::Internal { summary, .. } => summary,
            Node::Leaf { summary, .. } => summary,
        }
    }

    /// Every summary describes the text below its node, no internal node is
    /// childless, and no child of an internal node has an empty text.
    pub open spec fn wf(self) -> bool
        decreases self,
    {
        match self {
            Node::Leaf { chunk, summary } => summarizes(summary, encode_utf8(chunk@)),
            Node::Internal { children, summary } => {
                &&& children.len() > 0
                &&& children_wf(children@)
                &&& children_nonempty(children@)
                &&& summarizes(summary, children_text(children@))
            },
        }
    }

    pub fn summary(&self) -> (s: Summary)
        ensures
            s == self.spec_summary(),
    {
        match self {
            Node::Internal { summary, .. } => *summary,
            Node::Leaf { summary, .. } => *summary,
        }
    }
}

pub proof fn lemma_children_wf(cs: Seq<Node>, j: int)
    requires
        children_wf(cs),
        0 <= j < cs.len(),
    ensures
        cs[j].wf(),
    decreases cs.len(),
{
    if j < cs.len() - 1 {
        lemma_children_wf(cs.drop_last(), j);
    }
}

pub proof fn lemma_children_text_concat(a: Seq<Node>, b: Seq<Node>)
    ensures
        children_text(a + b) == children_text(a) + children_text(b),
    decreases b.len(),
{
    if b.len() == 0 {
        assert(a + b =~= a);
        assert(children_text(a) + children_text(b) =~= children_text(a));
    } else {
        lemma_children_text_concat(a, b.drop_last());
        assert((a + b).drop_last() =~= a + b.drop_last());
        assert((a + b).last() == b.last());
        assert(children_text(a + b) =~= children_text(a) + children_text(b));
    }
}

/// Where the `j`-th child's text lies in the text of its siblings.
pub proof fn lemma_children_text_at(cs: Seq<Node>, j: int)
    requires
        0 <= j < cs.len(),
    ensures
        children_text(cs.take(j + 1)) == children_text(cs.take(j)) + cs[j].text(),
        children_text(cs) == children_text(cs.take(j + 1)) + children_text(cs.skip(j + 1)),
        children_text(cs.take(j)).len() + cs[j].text().len() <= children_text(cs).len(),
        children_text(cs).subrange(
            children_text(cs.take(j)).len() as int,
            (children_text(cs.take(j)).len() + cs[j].text().len()) as int,
        ) == cs[j].text(),
{
    assert(cs.take(j + 1).drop_last() =~= cs.take(j));
    assert(cs.take(j + 1).last() == cs[j]);
    assert(cs =~= cs.take(j + 1) + cs.skip(j + 1));
    lemma_children_text_concat(cs.take(j + 1), cs.skip(j + 1));
    let p = children_text(cs.take(j));
    let whole = children_text(cs);
    assert(whole.subrange(p.len() as int, (p.len() + cs[j].text().len()) as int) =~= cs[j].text());
}

pub proof fn lemma_children_text_all(cs: Seq<Node>)
    ensures
        children_text(cs.take(cs.len() as int)) == children_text(cs),
{
    assert(cs.take(cs.len() as int) =~= cs);
}

/// A node is larger than each of its children, for termination.
pub proof fn lemma_decreases_to_children(n: Node)
    requires
        n is Internal,
    ensures
        forall|k: int| 0 <= k < n->children@.len() ==> decreases_to!(n => #[trigger] n->children@[k]),
{
    broadcast use vstd::std_specs::vec::axiom_vec_decreases_to_view;
    broadcast use vstd::seq::axiom_seq_index_decreases;
    assert(decreases_to!(n => n->children));
    assert(decreases_to!(n->children => n->children@));
    assert forall|k: int| 0 <= k < n->children@.len() implies decreases_to!(n => #[trigger] n->children@[k]) by {
        assert(decreases_to!(n->children@ => n->children@[k]));
    }
}

impl Node {
    /// The `i`-th byte of the text below this node.
    pub fn byte_at(&self, i: usize) -> (b: u8)
        requires
            self.wf(),
            i < self.text().len(),
        ensures
            b == self.text()[i as int],
        decreases self,
    {
        match self {
            Node::Leaf { chunk, .. } => {
                let bytes = chunk.as_str().as_bytes();
                bytes[i]
            },
            Node::Internal { children, summary } => {
                let ghost cs = children@;
                let mut j: usize = 0;
                let mut before: usize = 0;
                proof {
                    assert(cs.take(0) =~= Seq::<Node>::empty());
                    lemma_decreases_to_children(*self);
                }
                while j < children.len()
                    invariant
                        cs == children@,
                        forall|k: int| 0 <= k < cs.len() ==> decreases_to!(*self => #[trigger] cs[k]),
                        children_wf(cs),
                        self.text() == children_text(cs),
                        i < children_text(cs).len(),
                        j <= cs.len(),
                        before == children_text(cs.take(j as int)).len(),
                        before <= i,
                    decreases cs.len() - j,
                {
                    let child = &children[j];
                    proof {
                        lemma_children_wf(cs, j as int);
                        lemma_children_text_at(cs, j as int);
                        assert(summarizes(child.spec_summary(), child.text())) by {
                            assert(child.wf());
                        }
                    }
                    let len = child.summary().bytes;
                    if i - before < len {
                        let b = child.byte_at(i - before);
                        proof {
                            let whole = children_text(cs);
                            assert(whole.subrange(before as int, before + len)[(i - before) as int]
                                == whole[i as int]);
                        }
                        return b;
                    }
                    before = before + len;
                    j = j + 1;
                }
                proof {
                    lemma_children_text_all(cs);
                }
                0u8
            },
        }
    }
}

impl Node {
    /// Number of unit-ending bytes among the first `pos` bytes below this node.
    pub fn measure_before<M: Metric>(&self, pos: usize) -> (r: usize)
        requires
            self.wf(),
            pos <= self.text().len(),
        ensures
            r == count_units::<M>(self.text().take(pos as int)),
        decreases self,
    {
        match self {
            Node::Leaf { chunk, summary } => {
                let bytes = chunk.as_str().as_bytes();
                let ghost s = self.text();
                let mut i: usize = 0;
                let mut c: usize = 0;
                proof {
                    assert(s.take(0) =~= Seq::<u8>::empty());
                    M::lemma_count_step(s.take(0));
                }
                while i < pos
                    invariant
                        s == bytes@,
                        pos <= s.len(),
                        i <= pos,
                        c == count_units::<M>(s.take(i as int)),
                    decreases pos - i,
                {
                    proof {
                        lemma_count_units_push::<M>(s, i as int);
                        lemma_count_units_bound::<M>(s.take(i as int));
                    }
                    if M::ends_unit(bytes[i]) {
                        c = c + 1;
                    }
                    i = i + 1;
                }
                c
            },
            Node::Internal { children, summary } => {
                let ghost cs = children@;
                let ghost s = self.text();
                let mut j: usize = 0;
                let mut before: usize = 0;
                let mut acc: usize = 0;
                proof {
                    assert(cs.take(0) =~= Seq::<Node>::empty());
                    M::lemma_count_step(children_text(cs.take(0)));
                    lemma_decreases_to_children(*self);
                }
                while j < children.len()
                    invariant
                        cs == children@,
                        forall|k: int| 0 <= k < cs.len() ==> decreases_to!(*self => #[trigger] cs[k]),
                        children_wf(cs),
                        s == children_text(cs),
                        s == self.text(),
                        pos <= s.len(),
                        j <= cs.len(),
                        before == children_text(cs.take(j as int)).len(),
                        acc == count_units::<M>(children_text(cs.take(j as int))),
                        before <= pos,
                    decreases cs.len() - j,
                {
                    let child = &children[j];
                    let ghost a = children_text(cs.take(j as int));
                    proof {
                        lemma_children_wf(cs, j as int);
                        lemma_children_text_at(cs, j as int);
                        M::lemma_measure(child.text(), child.spec_summary());
                        lemma_count_units_concat::<M>(a, child.text());
                        lemma_count_units_bound::<M>(a + child.text());
                    }
                    let sum = child.summary();
                    let len = sum.bytes;
                    if pos - before < len {
                        let r = child.measure_before::<M>(pos - before);
                        proof {
                            let t = child.text().take(pos - before);
                            lemma_count_units_concat::<M>(a, t);
                            assert(s.take(pos as int) =~= a + t);
                            lemma_count_units_bound::<M>(a + t);
                            assert(count_units::<M>(a + t) == acc + r);
                            assert(count_units::<M>(s.take(pos as int)) == acc + r);
                        }
                        return acc + r;
                    }
                    acc = acc + M::measure(&sum);
                    before = before + len;
                    j = j + 1;
                }
                proof {
                    lemma_children_text_all(cs);
                    assert(s.take(pos as int) =~= s);
                }
                acc
            },
        }
    }

    /// Offset just past the `k`-th unit-ending byte below this node, or the end
    /// of its text when there are fewer.
    pub fn unit_boundary_at<M: Metric>(&self, k: usize) -> (r: usize)
        requires
            self.wf(),
        ensures
            r == unit_boundary::<M>(self.text(), k as nat),
        decreases self,
    {
        proof {
            lemma_unit_boundary_bound::<M>(self.text(), k as nat);
        }
        if k == 0 {
            return 0;
        }
        match self {
            Node::Leaf { chunk, summary } => {
                let bytes = chunk.as_str().as_bytes();
                let ghost s = self.text();
                let mut i: usize = 0;
                let mut c: usize = 0;
                proof {
                    assert(s.take(0) =~= Seq::<u8>::empty());
                    M::lemma_count_step(s.take(0));
                }
                while i < bytes.len()
                    invariant
                        s == bytes@,
                        s == self.text(),
                        k > 0,
                        i <= s.len(),
                        c == count_units::<M>(s.take(i as int)),
                        c < k,
                    decreases s.len() - i,
                {
                    proof {
                        lemma_count_units_push::<M>(s, i as int);
                        lemma_count_units_bound::<M>(s.take(i as int));
                        assert(s =~= s.take(i as int) + s.skip(i as int));
                        lemma_unit_boundary_concat::<M>(s.take(i as int), s.skip(i as int), k as nat);
                        assert(s =~= s.take(i + 1) + s.skip(i + 1));
                        lemma_unit_boundary_concat::<M>(s.take(i + 1), s.skip(i + 1), k as nat);
                        assert(s.skip(i as int)[0] == s[i as int]);
                        assert(s.skip(i as int).drop_first() =~= s.skip(i + 1));
                    }
                    if M::ends_unit(bytes[i]) {
                        c = c + 1;
                        if c == k {
                            proof {
                                lemma_unit_boundary_bound::<M>(s.skip(i + 1), 0);
                                let b = s.skip(i as int);
                                assert(unit_boundary::<M>(b, 1) == 1 + unit_boundary::<M>(b.drop_first(), 0));
                                assert(unit_boundary::<M>(s, k as nat) == i + unit_boundary::<M>(b, 1));
                            }
                            return i + 1;
                        }
                    }
                    i = i + 1;
                }
                proof {
                    assert(s.take(s.len() as int) =~= s);
                }
                bytes.len()
            },
            Node::Internal { children, summary } => {
                let ghost cs = children@;
                let ghost s = self.text();
                let mut j: usize = 0;
                let mut before: usize = 0;
                let mut acc: usize = 0;
                proof {
                    assert(cs.take(0) =~= Seq::<Node>::empty());
                    M::lemma_count_step(children_text(cs.take(0)));
                    lemma_decreases_to_children(*self);
                }
                while j < children.len()
                    invariant
                        cs == children@,
                        forall|k: int| 0 <= k < cs.len() ==> decreases_to!(*self => #[trigger] cs[k]),
                        children_wf(cs),
                        s == children_text(cs),
                        s == self.text(),
                        s.len() == summary.bytes,
                        j <= cs.len(),
                        before == children_text(cs.take(j as int)).len(),
                        acc == count_units::<M>(children_text(cs.take(j as int))),
                        acc < k,
                    decreases cs.len() - j,
                {
                    let child = &children[j];
                    let ghost a = children_text(cs.take(j as int));
                    let ghost rest = children_text(cs.skip(j + 1));
                    proof {
                        lemma_children_wf(cs, j as int);
                        lemma_children_text_at(cs, j as int);
                        M::lemma_measure(child.text(), child.spec_summary());
                        lemma_count_units_concat::<M>(a, child.text());
                        lemma_count_units_bound::<M>(a + child.text());
                        assert(s =~= a + (child.text() + rest));
                        lemma_unit_boundary_concat::<M>(a, child.text() + rest, k as nat);
                    }
                    let sum = child.summary();
                    let m = M::measure(&sum);
                    if k - acc <= m {
                        let r = child.unit_boundary_at::<M>(k - acc);
                        proof {
                            lemma_unit_boundary_concat::<M>(child.text(), rest, (k - acc) as nat);
                            lemma_unit_boundary_bound::<M>(child.text(), (k - acc) as nat);
                            assert(m == count_units::<M>(child.text()));
                            assert(unit_boundary::<M>(s, k as nat) == before + unit_boundary::<M>(child.text() + rest, (k - acc) as nat));
                            assert(unit_boundary::<M>(child.text() + rest, (k - acc) as nat) == r);
                        }
                        return before + r;
                    }
                    acc = acc + m;
                    before = before + sum.bytes;
                    j = j + 1;
                }
                proof {
                    lemma_children_text_all(cs);
                }
                summary.bytes
            },
        }
    }
}

/// The text below a well-formed node is valid UTF-8.
pub proof fn lemma_text_valid_utf8(n: Node)
    requires
        n.wf(),
    ensures
        valid_utf8(n.text()),
    decreases n,
{
    broadcast use vstd::utf8::encode_utf8_valid_utf8;
    match n {
        Node::Leaf { chunk, .. } => {
            vstd::utf8::encode_utf8_valid_utf8(chunk@);
            assert(n.text() == encode_utf8(chunk@));
        },
        Node::Internal { children, .. } => {
            lemma_decreases_to_children(n);
            lemma_children_text_valid_utf8(n, children@, children@.len() as int);
            lemma_children_text_all(children@);
        },
    }
}

proof fn lemma_children_text_valid_utf8(n: Node, cs: Seq<Node>, j: int)
    requires
        n is Internal,
        cs == n->children@,
        children_wf(cs),
        0 <= j <= cs.len(),
        forall|k: int| 0 <= k < cs.len() ==> decreases_to!(n => #[trigger] cs[k]),
    ensures
        valid_utf8(children_text(cs.take(j))),
    decreases n, j,
{
    broadcast use vstd::utf8::valid_utf8_concat;
    if j == 0 {
        assert(cs.take(0) =~= Seq::<Node>::empty());
        assert(children_text(cs.take(0)) =~= Seq::<u8>::empty());
        reveal_with_fuel(valid_utf8, 1);
    } else {
        lemma_children_text_valid_utf8(n, cs, j - 1);
        lemma_children_text_at(cs, j - 1);
        lemma_children_wf(cs, j - 1);
        lemma_text_valid_utf8(cs[j - 1]);
    }
}

impl Node {
    /// A leaf holding `chunk`.
    pub fn leaf(chunk: String) -> (n: Node)
        ensures
            n.wf(),
            n is Leaf,
            n.text() == encode_utf8(chunk@),
    {
        let bytes = chunk.as_str().as_bytes();
        let ghost s = bytes@;
        let mut i: usize = 0;
        let mut c: usize = 0;
        proof {
            assert(s.take(0) =~= Seq::<u8>::empty());
        }
        while i < bytes.len()
            invariant
                s == bytes@,
                i <= s.len(),
                c == count_newlines(s.take(i as int)),
            decreases s.len() - i,
        {
            proof {
                lemma_count_units_push::<LineMetric>(s, i as int);
                lemma_count_units_bound::<LineMetric>(s.take(i as int));
            }
            if bytes[i] == NEWLINE {
                c = c + 1;
            }
            i = i + 1;
        }
        proof {
            assert(s.take(s.len() as int) =~= s);
        }
        let len = bytes.len();
        Node::Leaf { chunk, summary: Summary { bytes: len, line_breaks: c } }
    }

    /// An internal node over `children`, or `None` when there are no children,
    /// one of them has an empty text, or their text is longer than
    /// `usize::MAX` bytes.
    pub fn internal(children: Vec<Node>) -> (r: Option<Node>)
        requires
            children_wf(children@),
        ensures
            r is Some <==> children@.len() > 0 && children_nonempty(children@)
                && children_text(children@).len() <= usize::MAX,
            r matches Some(n) ==> n.wf() && n.text() == children_text(children@) && n is Internal,
    {
        let ghost cs = children@;
        let mut j: usize = 0;
        let mut bytes: usize = 0;
        let mut breaks: usize = 0;
        proof {
            assert(cs.take(0) =~= Seq::<Node>::empty());
        }
        while j < children.len()
            invariant
                cs == children@,
                children_wf(cs),
                j <= cs.len(),
                bytes == children_text(cs.take(j as int)).len(),
                breaks == count_newlines(children_text(cs.take(j as int))),
                forall|k: int| 0 <= k < j ==> #[trigger] cs[k].text().len() > 0,
            decreases cs.len() - j,
        {
            let ghost a = children_text(cs.take(j as int));
            proof {
                lemma_children_wf(cs, j as int);
                lemma_children_text_at(cs, j as int);
                lemma_count_units_concat::<LineMetric>(a, cs[j as int].text());
                lemma_count_units_bound::<LineMetric>(a + cs[j as int].text());
                assert(summarizes(cs[j as int].spec_summary(), cs[j as int].text())) by {
                    assert(cs[j as int].wf());
                }
            }
            let sum = children[j].summary();
            if sum.bytes == 0 {
                return None;
            }
            match bytes.checked_add(sum.bytes) {
                Some(total) => {
                    bytes = total;
                    breaks = breaks + sum.line_breaks;
                },
                None => {
                    proof {
                        // the text of the first `j + 1` children is a prefix of the whole
                        assert(children_text(cs).len() >= a.len() + cs[j as int].text().len());
                    }
                    return None;
                },
            }
            j = j + 1;
        }
        proof {
            lemma_children_text_all(cs);
        }
        if j == 0 {
            return None;
        }
        Some(Node::Internal { children, summary: Summary { bytes, line_breaks: breaks } })
    }
}

/// A tree of text chunks, kept well formed.
pub struct Tree {
    pub(crate) root: Node,
}

impl Tree {
    #[verifier::type_invariant]
    spec fn inv(self) -> bool {
        &&& self.root.wf()
        &&& self.root.text().len() < usize::MAX
    }

    /// A tree of a single leaf holding `chunk`, or `None` when the chunk is
    /// `usize::MAX` bytes long.
    pub fn from_chunk(chunk: String) -> (r: Option<Tree>)
        ensures
            r is Some <==> encode_utf8(chunk@).len() < usize::MAX,
            r matches Some(t) ==> t@ == encode_utf8(chunk@),
    {
        let root = Node::leaf(chunk);
        proof {
            super::tree_slice::lemma_wf_len(root);
        }
        if root.summary().bytes == usize::MAX {
            return None;
        }
        Some(Tree { root })
    }

    /// A tree whose root has the given trees as its children, or `None` when
    /// there are none, one of them is empty, or their text together is
    /// `usize::MAX` bytes or longer.
    pub fn from_children(children: Vec<Tree>) -> (r: Option<Tree>)
        ensures
            r is Some <==> children@.len() > 0
                && (forall|k: int| 0 <= k < children@.len() ==> #[trigger] children@[k]@.len() > 0)
                && trees_text(children@).len() < usize::MAX,
            r matches Some(t) ==> t@ == trees_text(children@),
    {
        let ghost orig = children@;
        let mut rest = children;
        let mut nodes: Vec<Node> = Vec::new();
        let mut i: usize = 0;
        let total = rest.len();
        proof {
            assert(orig.take(0) =~= Seq::<Tree>::empty());
            assert(nodes@ =~= Seq::<Node>::empty());
        }
        while rest.len() > 0
            invariant
                i <= orig.len(),
                orig.len() == total,
                rest@ == orig.skip(i as int),
                children_wf(nodes@),
                children_text(nodes@) == trees_text(orig.take(i as int)),
                nodes@.len() == i,
                forall|k: int| 0 <= k < i ==> #[trigger] nodes@[k].text() == orig[k]@,
            decreases rest@.len(),
        {
            proof {
                assert(orig.skip(i as int).len() == orig.len() - i);
            }
            let ghost rest_before = rest@;
            let t = rest.remove(0);
            let n = t.into_root();
            proof {
                assert(rest@ =~= orig.skip(i + 1)) by {
                    assert(rest@ == rest_before.remove(0));
                }
                assert(orig.take(i + 1).drop_last() =~= orig.take(i as int));
                assert(orig[i as int] == t);
            }
            let ghost before_push = nodes@;
            nodes.push(n);
            proof {
                assert(nodes@.drop_last() =~= before_push);
            }
            i = i + 1;
        }
        proof {
            assert(orig.take(i as int) =~= orig);
            assert(children_nonempty(nodes@) <==> (forall|k: int| 0 <= k < orig.len() ==> #[trigger] orig[k]@.len() > 0)) by {
                if children_nonempty(nodes@) {
                    assert forall|k: int| 0 <= k < orig.len() implies #[trigger] orig[k]@.len() > 0 by {
                        assert(nodes@[k].text().len() > 0);
                    }
                }
                if forall|k: int| 0 <= k < orig.len() ==> #[trigger] orig[k]@.len() > 0 {
                    assert forall|k: int| 0 <= k < nodes@.len() implies #[trigger] nodes@[k].text().len() > 0 by {
                        assert(orig[k]@.len() > 0);
                    }
                }
            }
        }
        match Node::internal(nodes) {
            Some(root) => {
                if root.summary().bytes == usize::MAX {
                    return None;
                }
                Some(Tree { root })
            },
            None => None,
        }
    }

    /// The root of the tree.
    pub(crate) fn root(&self) -> (n: &Node)
        ensures
            n.wf(),
            n.text() == self@,
            n.text().len() < usize::MAX,
    {
        proof {
            use_type_invariant(self);
        }
        &self.root
    }

    fn into_root(self) -> (n: Node)
        ensures
            n.wf(),
            n.text() == self@,
    {
        proof {
            use_type_invariant(&self);
        }
        self.root
    }
}

impl View for Tree {
    type V = Seq<u8>;

    closed spec fn view(&self) -> Seq<u8> {
        self.root.text()
    }
}

/// The text of a sequence of trees, left to right.
pub open spec fn trees_text(ts: Seq<Tree>) -> Seq<u8>
    decreases ts.len(),
{
    if ts.len() == 0 {
        Seq::empty()
    } else {
        trees_text(ts.drop_last()) + ts.last()@
    }
}

/// `children_wf` holds exactly when every node of the sequence is well formed.
pub proof fn lemma_children_wf_all(cs: Seq<Node>)
    ensures
        children_wf(cs) <==> forall|k: int| 0 <= k < cs.len() ==> #[trigger] cs[k].wf(),
    decreases cs.len(),
{
    if cs.len() > 0 {
        lemma_children_wf_all(cs.drop_last());
        if forall|k: int| 0 <= k < cs.len() ==> #[trigger] cs[k].wf() {
            assert forall|k: int| 0 <= k < cs.drop_last().len() implies #[trigger] cs.drop_last()[k].wf() by {
                assert(cs.drop_last()[k] == cs[k]);
                assert(cs[k].wf());
            }
            assert(cs[cs.len() - 1].wf());
            assert(children_wf(cs));
        }
        if children_wf(cs) {
            assert forall|k: int| 0 <= k < cs.len() implies #[trigger] cs[k].wf() by {
                if k < cs.len() - 1 {
                    assert(cs.drop_last()[k] == cs[k]);
                    assert(cs.drop_last()[k].wf());
                }
            }
        }
    }
}

/// The text below well-formed siblings is valid UTF-8.
pub proof fn lemma_children_valid(cs: Seq<Node>)
    requires
        children_wf(cs),
    ensures
        valid_utf8(children_text(cs)),
    decreases cs.len(),
{
    if cs.len() == 0 {
        reveal_with_fuel(valid_utf8, 1);
    } else {
        lemma_children_valid(cs.drop_last());
        lemma_text_valid_utf8(cs.last());
        vstd::utf8::valid_utf8_concat(children_text(cs.drop_last()), cs.last().text());
    }
}

/// Each child's text starts and ends on character boundaries of its
/// siblings' text.
pub proof fn lemma_child_boundaries(cs: Seq<Node>, j: int)
    requires
        children_wf(cs),
        0 <= j < cs.len(),
    ensures
        valid_utf8(children_text(cs)),
        is_char_boundary(children_text(cs), children_text(cs.take(j)).len() as int),
        is_char_boundary(
            children_text(cs),
            (children_text(cs.take(j)).len() + cs[j].text().len()) as int,
        ),
{
    lemma_children_wf_all(cs);
    lemma_children_wf_all(cs.take(j));
    lemma_children_wf_all(cs.take(j + 1));
    lemma_children_wf_all(cs.skip(j + 1));
    assert forall|k: int| 0 <= k < cs.take(j).len() implies #[trigger] cs.take(j)[k].wf() by {
        assert(cs.take(j)[k] == cs[k]);
    }
    assert forall|k: int| 0 <= k < cs.take(j + 1).len() implies #[trigger] cs.take(j + 1)[k].wf() by {
        assert(cs.take(j + 1)[k] == cs[k]);
    }
    assert forall|k: int| 0 <= k < cs.skip(j + 1).len() implies #[trigger] cs.skip(j + 1)[k].wf() by {
        assert(cs.skip(j + 1)[k] == cs[j + 1 + k]);
    }
    lemma_children_valid(cs);
    lemma_children_valid(cs.take(j));
    lemma_children_valid(cs.take(j + 1));
    lemma_children_valid(cs.skip(j + 1));
    lemma_children_wf(cs, j);
    lemma_text_valid_utf8(cs[j]);
    lemma_children_text_at(cs, j);
    let a = children_text(cs.take(j));
    let c = cs[j].text();
    let r = children_text(cs.skip(j + 1));
    vstd::utf8::valid_utf8_concat(c, r);
    assert(children_text(cs) =~= a + (c + r));
    lemma_concat_boundary(a, c + r);
    lemma_concat_boundary(a + c, r);
}

} // verus!
