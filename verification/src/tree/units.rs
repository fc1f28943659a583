use vstd::prelude::*;
use core::marker::PhantomData;
use super::text::{
    Summary, Metric, LineMetric, count_units, summarizes, unit_boundary, lemma_count_units_concat,
    lemma_count_units_bound, lemma_count_units_push, lemma_unit_boundary_concat,
    lemma_unit_boundary_bound, lemma_next_unit_end, lemma_rest_unit_end, lemma_count_split, lemma_next_boundary_after,
    lemma_unit_boundary_shape, lemma_boundary_within_prefix, lemma_boundary_at_count,
    lemma_count_prefix_mono, lemma_unit_boundary_mono, lemma_count_at_boundary,
};
use super::node::{
    Node, Tree, children_text, children_wf, children_nonempty, lemma_children_wf,
    lemma_children_text_at, lemma_children_text_all, lemma_decreases_to_children,
};
use super::tree_slice::{TreeSlice, slice_ok, lemma_wf_len, lemma_slice_counts};
use super::laws::{next_unit_end, prev_unit_start, units_between, law_back_takes_last};
use super::holding::{
    holds_deepest, rooted_deepest, path_parts_ok, deepest_on_path, prefix_bytes,
    lemma_deepest_by,
};

verus! {

pub open spec fn is_internal(n: Node) -> bool {
    n is Internal
}

/// Length of the text of the first `i` children of `n`.
pub open spec fn prefix_len(n: Node, i: int) -> int {
    children_text(n->children@.take(i)).len() as int
}

/// The `i`-th child of `n`.
pub open spec fn child_of(n: Node, i: int) -> Node {
    n->children@[i]
}

/// `n` is well formed and its text is found in `g` at `start`.
pub open spec fn placed(g: Seq<u8>, n: Node, start: int) -> bool {
    &&& n.wf()
    &&& 0 <= start
    &&& start + n.text().len() <= g.len()
    &&& g.subrange(start, start + n.text().len()) == n.text()
}

/// A stack of internal nodes from `root` down, each with the index of the
/// child the path goes through, and where each node's text starts in `g`.
#[verifier::opaque]
pub open spec fn chain_ok(g: Seq<u8>, root: Node, st: Seq<(&Node, usize)>, starts: Seq<int>) -> bool {
    &&& st.len() == starts.len()
    &&& st.len() > 0 ==> *st[0].0 == root && starts[0] == 0
    &&& forall|k: int|
        #![trigger st[k]]
        0 <= k < st.len() ==> {
            &&& is_internal(*st[k].0)
            &&& st[k].1 < (*st[k].0)->children@.len()
            &&& placed(g, *st[k].0, starts[k])
        }
    &&& forall|k: int|
        #![trigger st[k]]
        0 <= k < st.len() - 1 ==> {
            &&& *st[k + 1].0 == child_of(*st[k].0, st[k].1 as int)
            &&& starts[k + 1] == starts[k] + prefix_len(*st[k].0, st[k].1 as int)
        }
}

/// The node a path reaches and where its text starts: the root when the
/// stack is empty, else the chosen child of the last node.
pub open spec fn reached(root: Node, st: Seq<(&Node, usize)>, starts: Seq<int>, n: Node, start: int) -> bool {
    &&& st.len() == 0 ==> n == root && start == 0
    &&& st.len() > 0 ==> n == child_of(*st.last().0, st.last().1 as int) && start == starts.last()
        + prefix_len(*st.last().0, st.last().1 as int)
}

/// Going one level further down keeps the stack consistent.
pub proof fn lemma_chain_push(
    g: Seq<u8>,
    root: Node,
    st: Seq<(&Node, usize)>,
    starts: Seq<int>,
    node: &Node,
    k: usize,
    start: int,
)
    requires
        chain_ok(g, root, st, starts),
        reached(root, st, starts, *node, start),
        placed(g, *node, start),
        *node is Internal,
        k < node->children@.len(),
    ensures
        chain_ok(g, root, st.push((node, k)), starts.push(start)),
        reached(root, st.push((node, k)), starts.push(start), child_of(*node, k as int), start + prefix_len(*node, k as int)),
{
    reveal(chain_ok);
    let st2 = st.push((node, k));
    let s2 = starts.push(start);
    assert forall|j: int| #![trigger st2[j]] 0 <= j < st2.len() implies {
        &&& is_internal(*st2[j].0)
        &&& st2[j].1 < (*st2[j].0)->children@.len()
        &&& placed(g, *st2[j].0, s2[j])
    } by {
        if j < st.len() {
            assert(st2[j] == st[j]);
            assert(is_internal(*st[j].0));
        } else {
            assert(st2[j].0 == node);
            assert(is_internal(*node));
        }
    }
    assert forall|j: int| #![trigger st2[j]] 0 <= j < st2.len() - 1 implies {
        &&& *st2[j + 1].0 == child_of(*st2[j].0, st2[j].1 as int)
        &&& s2[j + 1] == s2[j] + prefix_len(*st2[j].0, st2[j].1 as int)
    } by {
        if j < st.len() - 1 {
            assert(st2[j] == st[j]);
            assert(st2[j + 1] == st[j + 1]);
            assert(*st[j + 1].0 == child_of(*st[j].0, st[j].1 as int));
        }
    }
}

/// Leaving the deepest node keeps the stack consistent, and the stack then
/// reaches the node that was left.
pub proof fn lemma_chain_pop(g: Seq<u8>, root: Node, st: Seq<(&Node, usize)>, starts: Seq<int>)
    requires
        chain_ok(g, root, st, starts),
        st.len() > 0,
    ensures
        chain_ok(g, root, st.drop_last(), starts.drop_last()),
        reached(root, st.drop_last(), starts.drop_last(), *st.last().0, starts.last()),
        placed(g, *st.last().0, starts.last()),
        is_internal(*st.last().0),
        st.last().1 < (*st.last().0)->children@.len(),
{
    reveal(chain_ok);
    let st2 = st.drop_last();
    let s2 = starts.drop_last();
    assert(st[st.len() - 1] == st.last());
    assert forall|j: int| #![trigger st2[j]] 0 <= j < st2.len() implies {
        &&& is_internal(*st2[j].0)
        &&& st2[j].1 < (*st2[j].0)->children@.len()
        &&& placed(g, *st2[j].0, s2[j])
    } by {
        assert(st2[j] == st[j]);
    }
    assert forall|j: int| #![trigger st2[j]] 0 <= j < st2.len() - 1 implies {
        &&& *st2[j + 1].0 == child_of(*st2[j].0, st2[j].1 as int)
        &&& s2[j + 1] == s2[j] + prefix_len(*st2[j].0, st2[j].1 as int)
    } by {
        assert(st2[j] == st[j]);
        assert(st2[j + 1] == st[j + 1]);
    }
    if st2.len() > 0 {
        assert(st[st.len() - 2] == st2.last());
    }
}

/// Moving the deepest node's child index keeps the stack consistent.
pub proof fn lemma_chain_set_last(
    g: Seq<u8>,
    root: Node,
    st: Seq<(&Node, usize)>,
    starts: Seq<int>,
    i: usize,
)
    requires
        chain_ok(g, root, st, starts),
        st.len() > 0,
        i < (*st.last().0)->children@.len(),
    ensures
        chain_ok(g, root, st.update(st.len() - 1, (st.last().0, i)), starts),
        reached(
            root,
            st.update(st.len() - 1, (st.last().0, i)),
            starts,
            child_of(*st.last().0, i as int),
            starts.last() + prefix_len(*st.last().0, i as int),
        ),
{
    reveal(chain_ok);
    let n = st.len() - 1;
    let st2 = st.update(n, (st.last().0, i));
    assert(st[n] == st.last());
    assert forall|j: int| #![trigger st2[j]] 0 <= j < st2.len() implies {
        &&& is_internal(*st2[j].0)
        &&& st2[j].1 < (*st2[j].0)->children@.len()
        &&& placed(g, *st2[j].0, starts[j])
    } by {
        assert(st[j].0 == st2[j].0);
        if j < n {
            assert(st2[j] == st[j]);
        }
    }
    assert forall|j: int| #![trigger st2[j]] 0 <= j < st2.len() - 1 implies {
        &&& *st2[j + 1].0 == child_of(*st2[j].0, st2[j].1 as int)
        &&& starts[j + 1] == starts[j] + prefix_len(*st2[j].0, st2[j].1 as int)
    } by {
        assert(st2[j] == st[j]);
        assert(st2[j + 1].0 == st[j + 1].0);
    }
}

/// Counts over `g[a..b]`.
pub open spec fn count_in<M: Metric>(g: Seq<u8>, a: int, b: int) -> nat {
    count_units::<M>(g.subrange(a, b))
}

/// Where the `i`-th child of a placed node is placed.
pub proof fn lemma_child_placed(g: Seq<u8>, n: Node, start: int, i: int)
    requires
        placed(g, n, start),
        n is Internal,
        0 <= i < n->children@.len(),
    ensures
        placed(g, child_of(n, i), start + prefix_len(n, i)),
        prefix_len(n, i + 1) == prefix_len(n, i) + child_of(n, i).text().len(),
        prefix_len(n, i + 1) <= n.text().len(),
        child_of(n, i).text().len() > 0,
        0 <= prefix_len(n, i),
{
    let cs = n->children@;
    lemma_children_wf(cs, i);
    lemma_children_text_at(cs, i);
    let p = prefix_len(n, i);
    let c = child_of(n, i).text();
    assert(g.subrange(start + p, start + p + c.len()) =~= n.text().subrange(p, p + c.len()));
    assert(children_nonempty(cs));
    assert(cs[i].text().len() > 0);
}

pub proof fn lemma_prefix_ends(n: Node)
    requires
        n.wf(),
        n is Internal,
    ensures
        prefix_len(n, 0) == 0,
        prefix_len(n, n->children@.len() as int) == n.text().len(),
{
    let cs = n->children@;
    assert(cs.take(0) =~= Seq::<Node>::empty());
    lemma_children_text_all(cs);
}

/// Counting over adjacent ranges.
pub proof fn lemma_count_in_split<M: Metric>(g: Seq<u8>, a: int, b: int, c: int)
    requires
        0 <= a <= b <= c <= g.len(),
    ensures
        count_in::<M>(g, a, c) == count_in::<M>(g, a, b) + count_in::<M>(g, b, c),
{
    assert(g.subrange(a, c) =~= g.subrange(a, b) + g.subrange(b, c));
    lemma_count_units_concat::<M>(g.subrange(a, b), g.subrange(b, c));
}

/// Walks the units of a metric over a slice of a tree from its start.
pub(crate) struct UnitsForward<'a, M: Metric> {
    pub(crate) is_initialized: bool,
    /// The internal nodes from the root to the current leaf, each with the
    /// index of the child the path goes through.
    pub(crate) stack: Vec<(&'a Node, usize)>,
    /// Where the text of each node of the stack starts.
    pub(crate) starts: Ghost<Seq<int>>,
    pub(crate) root: &'a Node,
    /// The leaf the walk is in, and where its text starts.
    pub(crate) leaf_node: &'a Node,
    pub(crate) leaf_start: usize,
    pub(crate) base_offset: usize,
    pub(crate) base_yielded: usize,
    pub(crate) base_total: usize,
    pub(crate) units_yielded: usize,
    pub(crate) units_total: usize,
    pub(crate) metric: PhantomData<M>,
}

impl<'a, M: Metric> UnitsForward<'a, M> {
    pub(crate) open spec fn g(self) -> Seq<u8> {
        self.root.text()
    }

    /// The text being walked.
    pub(crate) open spec fn text(self) -> Seq<u8> {
        self.g().subrange(self.base_offset as int, self.base_offset + self.base_total)
    }

    /// Where the walk stands in the root's text.
    pub(crate) open spec fn pos(self) -> int {
        self.base_offset + self.base_yielded
    }

    pub(crate) open spec fn leaf_end(self) -> int {
        self.leaf_start + self.leaf_node.text().len()
    }

    pub(crate) open spec fn path_ok(self) -> bool {
        path_parts_ok(self.g(), *self.root, self.stack@, self.starts@, *self.leaf_node, self.leaf_start as int)
    }

    /// Where the part of the current leaf inside the slice ends.
    pub(crate) open spec fn leaf_stop(self) -> int {
        if self.leaf_end() <= self.base_offset + self.base_total {
            self.leaf_end()
        } else {
            self.base_offset + self.base_total
        }
    }

    /// The counters agree with the text: what has been yielded is a prefix
    /// of the slice, and the unit counts are those of the slice and of that
    /// prefix.
    pub(crate) open spec fn counts_ok(self) -> bool {
        &&& self.root.wf()
        &&& self.g().len() <= usize::MAX
        &&& self.base_offset + self.base_total <= self.g().len()
        &&& self.base_yielded <= self.base_total
        &&& self.units_total == count_units::<M>(self.text())
        &&& self.units_yielded == count_units::<M>(self.text().take(self.base_yielded as int))
    }

    pub(crate) open spec fn wf(self) -> bool {
        &&& self.counts_ok()
        &&& !self.is_initialized ==> self.base_yielded == 0 && self.stack@.len() == 0
            && self.starts@.len() == 0 && self.leaf_node == self.root && self.leaf_start == 0
        &&& self.is_initialized ==> self.path_ok()
        &&& self.is_initialized && self.base_yielded < self.base_total ==> self.leaf_start
            <= self.pos() <= self.leaf_end()
    }

    /// Goes down from `node`, the node the stack reaches, to the leaf that
    /// holds byte `target`.
    fn descend_to(&mut self, node: &'a Node, start: usize, target: usize)
        requires
            chain_ok(old(self).g(), *old(self).root, old(self).stack@, old(self).starts@),
            reached(*old(self).root, old(self).stack@, old(self).starts@, *node, start as int),
            placed(old(self).g(), *node, start as int),
            start <= target < start + node.text().len(),
            old(self).g().len() <= usize::MAX,
        ensures
            final(self).path_ok(),
            final(self).leaf_start <= target < final(self).leaf_end(),
            start == target ==> final(self).leaf_start == target,
            final(self).root == old(self).root,
            final(self).is_initialized == old(self).is_initialized,
            final(self).base_offset == old(self).base_offset,
            final(self).base_yielded == old(self).base_yielded,
            final(self).base_total == old(self).base_total,
            final(self).units_yielded == old(self).units_yielded,
            final(self).units_total == old(self).units_total,
        decreases node,
    {
        match node {
            Node::Leaf { .. } => {
                self.leaf_node = node;
                self.leaf_start = start;
            },
            Node::Internal { children, .. } => {
                let ghost g = self.g();
                let ghost pre = *self;
                let mut k: usize = 0;
                let mut measured: usize = 0;
                proof {
                    lemma_prefix_ends(*node);
                    lemma_decreases_to_children(*node);
                }
                while k < children.len()
                    invariant
                        *self == pre,
                        pre == *old(self),
                        g == pre.g(),
                        chain_ok(g, *pre.root, pre.stack@, pre.starts@),
                        reached(*pre.root, pre.stack@, pre.starts@, *node, start as int),
                        forall|i: int| 0 <= i < node->children@.len() ==> decreases_to!(*node => #[trigger] node->children@[i]),
                        *node is Internal,
                        children@ == node->children@,
                        placed(g, *node, start as int),
                        g.len() <= usize::MAX,
                        k <= children@.len(),
                        measured == prefix_len(*node, k as int),
                        start + measured <= target,
                        start <= target < start + node.text().len(),
                        prefix_len(*node, children@.len() as int) == node.text().len(),
                    decreases children@.len() - k,
                {
                    proof {
                        lemma_child_placed(g, *node, start as int, k as int);
                    }
                    let len = children[k].summary().bytes;
                    proof {
                        lemma_wf_len(child_of(*node, k as int));
                    }
                    if target - start < measured + len {
                        let child = &children[k];
                        let ghost old_st = self.stack@;
                        self.stack.push((node, k));
                        self.starts = Ghost(self.starts@.push(start as int));
                        proof {
                            lemma_chain_push(g, *pre.root, old_st, pre.starts@, node, k, start as int);
                        }
                        self.descend_to(child, start + measured, target);
                        return;
                    }
                    measured = measured + len;
                    k = k + 1;
                }
            },
        }
    }
}

impl<'a, M: Metric> UnitsForward<'a, M> {
    /// Where the part of the current leaf inside the slice ends: the leaf's
    /// end, or the slice's end when the leaf runs past it.
    fn current_leaf_stop(&self) -> (stop: usize)
        requires
            self.path_ok(),
            self.g().len() <= usize::MAX,
            self.base_offset + self.base_total <= self.g().len(),
        ensures
            stop == self.leaf_stop(),
    {
        proof {
            lemma_wf_len(*self.leaf_node);
        }
        let leaf_end = self.leaf_start + self.leaf_node.summary().bytes;
        let end = self.base_offset + self.base_total;
        if leaf_end <= end {
            leaf_end
        } else {
            end
        }
    }

    /// Moves to the leaf right after the current one, and returns where the
    /// part of that leaf inside the slice ends.
    fn next_leaf(&mut self) -> (stop: usize)
        requires
            old(self).path_ok(),
            old(self).leaf_end() < old(self).g().len(),
            old(self).g().len() <= usize::MAX,
            old(self).base_offset + old(self).base_total <= old(self).g().len(),
        ensures
            stop == final(self).leaf_stop(),
            final(self).path_ok(),
            final(self).leaf_start == old(self).leaf_end(),
            final(self).leaf_start < final(self).leaf_end(),
            final(self).root == old(self).root,
            final(self).is_initialized == old(self).is_initialized,
            final(self).base_offset == old(self).base_offset,
            final(self).base_yielded == old(self).base_yielded,
            final(self).base_total == old(self).base_total,
            final(self).units_yielded == old(self).units_yielded,
            final(self).units_total == old(self).units_total,
    {
        let ghost g = self.g();
        let ghost pre = *self;
        proof {
            lemma_wf_len(*self.leaf_node);
            if self.stack@.len() > 0 {
                lemma_chain_pop(g, *self.root, self.stack@, self.starts@);
                lemma_child_placed(g, *self.stack@.last().0, self.starts@.last(), self.stack@.last().1 as int);
            }
        }
        let target = self.leaf_start + self.leaf_node.summary().bytes;
        loop
            invariant
                pre == *old(self),
                g == self.g(),
                self.root == pre.root,
                self.is_initialized == pre.is_initialized,
                self.base_offset == pre.base_offset,
                self.base_yielded == pre.base_yielded,
                self.base_total == pre.base_total,
                self.units_yielded == pre.units_yielded,
                self.units_total == pre.units_total,
                g.len() <= usize::MAX,
                target == pre.leaf_end(),
                target < g.len(),
                pre.base_offset + pre.base_total <= g.len(),
                chain_ok(g, *self.root, self.stack@, self.starts@),
                self.stack@.len() > 0,
                target == self.starts@.last() + prefix_len(*self.stack@.last().0, self.stack@.last().1 + 1),
            decreases self.stack@.len(),
        {
            let last = self.stack.len() - 1;
            let (node, idx) = self.stack[last];
            proof {
                lemma_chain_pop(g, *self.root, self.stack@, self.starts@);
                assert(self.stack@[last as int] == self.stack@.last());
            }
            match node {
                Node::Internal { children, .. } => {
                    if idx + 1 < children.len() {
                        proof {
                            lemma_chain_set_last(g, *self.root, self.stack@, self.starts@, (idx + 1) as usize);
                            lemma_child_placed(g, *node, self.starts@.last(), idx + 1);
                        }
                        self.stack.set(last, (node, idx + 1));
                        let child = &children[idx + 1];
                        self.descend_to(child, target, target);
                        return self.current_leaf_stop();
                    }
                    proof {
                        lemma_prefix_ends(*node);
                    }
                    let ghost old_st = self.stack@;
                    let ghost old_starts = self.starts@;
                    self.stack.pop();
                    self.starts = Ghost(self.starts@.drop_last());
                    proof {
                        assert(self.stack@ =~= old_st.drop_last());
                        if self.stack@.len() > 0 {
                            lemma_chain_pop(g, *self.root, self.stack@, self.starts@);
                            lemma_child_placed(g, *self.stack@.last().0, self.starts@.last(), self.stack@.last().1 as int);
                        } else {
                            assert(*node == *self.root);
                        }
                    }
                },
                Node::Leaf { .. } => {
                    proof {
                        assert(false);
                    }
                    return 0;
                },
            }
        }
    }

    /// Where the first unit that ends in the current leaf between the walk's
    /// position and `stop` ends, if one does there.
    fn unit_end_in_leaf(&self, stop: usize) -> (r: Option<usize>)
        requires
            self.path_ok(),
            self.leaf_start <= self.pos() <= stop <= self.leaf_end(),
            self.g().len() <= usize::MAX,
        ensures
            r matches Some(e) ==> {
                &&& self.pos() < e <= stop
                &&& count_in::<M>(self.g(), self.pos(), e - 1) == 0
                &&& M::spec_ends_unit(self.g()[e - 1])
            },
            r is None ==> count_in::<M>(self.g(), self.pos(), stop as int) == 0,
    {
        let ghost g = self.g();
        let ghost p = self.pos();
        match self.leaf_node {
            Node::Leaf { chunk, .. } => {
                let bytes = chunk.as_str().as_bytes();
                let mut i: usize = self.base_offset + self.base_yielded - self.leaf_start;
                let ghost i0 = i as int;
                proof {
                    assert(g.subrange(p, p) =~= Seq::<u8>::empty());
                    M::lemma_count_step(g.subrange(p, p));
                }
                let n = stop - self.leaf_start;
                while i < n
                    invariant
                        n == stop - self.leaf_start,
                        stop <= self.leaf_end(),
                        bytes@ == self.leaf_node.text(),
                        g.subrange(self.leaf_start as int, self.leaf_end()) == bytes@,
                        self.leaf_end() <= g.len(),
                        g.len() <= usize::MAX,
                        p == self.leaf_start + i0,
                        p == self.pos(),
                        g == self.g(),
                        0 <= p,
                        i0 <= i <= n,
                        self.leaf_start + bytes@.len() <= g.len(),
                        self.leaf_end() == self.leaf_start + bytes@.len(),
                        count_in::<M>(g, p, self.leaf_start + i) == 0,
                    decreases n - i,
                {
                    proof {
                        assert(g[self.leaf_start + i] == bytes@[i as int]);
                        lemma_count_in_push::<M>(g, p, self.leaf_start + i);
                    }
                    if M::ends_unit(bytes[i]) {
                        return Some(self.leaf_start + i + 1);
                    }
                    i = i + 1;
                }
                None
            },
            Node::Internal { .. } => {
                proof {
                    assert(false);
                }
                None
            },
        }
    }

    /// Goes down from `node`, the node the stack reaches, to the leaf holding
    /// the first unit-ending byte below it, and returns the offset just past
    /// that byte.
    fn descend_to_unit(&mut self, node: &'a Node, start: usize) -> (e: usize)
        requires
            chain_ok(old(self).g(), *old(self).root, old(self).stack@, old(self).starts@),
            reached(*old(self).root, old(self).stack@, old(self).starts@, *node, start as int),
            placed(old(self).g(), *node, start as int),
            count_units::<M>(node.text()) > 0,
            old(self).g().len() <= usize::MAX,
        ensures
            final(self).path_ok(),
            final(self).leaf_start < e <= final(self).leaf_end(),
            start < e <= start + node.text().len(),
            count_in::<M>(final(self).g(), start as int, e - 1) == 0,
            M::spec_ends_unit(final(self).g()[e - 1]),
            final(self).root == old(self).root,
            final(self).is_initialized == old(self).is_initialized,
            final(self).base_offset == old(self).base_offset,
            final(self).base_yielded == old(self).base_yielded,
            final(self).base_total == old(self).base_total,
            final(self).units_yielded == old(self).units_yielded,
            final(self).units_total == old(self).units_total,
        decreases node,
    {
        let ghost g = self.g();
        proof {
            assert(g.subrange(start as int, start as int) =~= Seq::<u8>::empty());
            M::lemma_count_step(g.subrange(start as int, start as int));
        }
        match node {
            Node::Leaf { chunk, .. } => {
                let ghost pre = *self;
                let bytes = chunk.as_str().as_bytes();
                let mut i: usize = 0;
                while i < bytes.len()
                    invariant
                        *self == pre,
                        pre == *old(self),
                        g == pre.g(),
                        chain_ok(g, *pre.root, pre.stack@, pre.starts@),
                        reached(*pre.root, pre.stack@, pre.starts@, *node, start as int),
                        placed(g, *node, start as int),
                        *node is Leaf,
                        bytes@ == node.text(),
                        g.subrange(start as int, start + bytes@.len()) == bytes@,
                        start + bytes@.len() <= g.len(),
                        g.len() <= usize::MAX,
                        count_units::<M>(node.text()) > 0,
                        i <= bytes@.len(),
                        count_in::<M>(g, start as int, start + i) == 0,
                    decreases bytes@.len() - i,
                {
                    proof {
                        assert(g[start + i] == bytes@[i as int]);
                        lemma_count_in_push::<M>(g, start as int, start + i);
                    }
                    if M::ends_unit(bytes[i]) {
                        self.leaf_node = node;
                        self.leaf_start = start;
                        return start + i + 1;
                    }
                    i = i + 1;
                }
                proof {
                    assert(g.subrange(start as int, start + i) == bytes@);
                    assert(false);
                }
                start
            },
            Node::Internal { children, .. } => {
                let ghost pre = *self;
                let mut k: usize = 0;
                let mut measured: usize = 0;
                proof {
                    lemma_prefix_ends(*node);
                    lemma_decreases_to_children(*node);
                    lemma_wf_len(*node);
                }
                while k < children.len()
                    invariant
                        *self == pre,
                        pre == *old(self),
                        g == pre.g(),
                        chain_ok(g, *pre.root, pre.stack@, pre.starts@),
                        reached(*pre.root, pre.stack@, pre.starts@, *node, start as int),
                        forall|i: int| 0 <= i < node->children@.len() ==> decreases_to!(*node => #[trigger] node->children@[i]),
                        *node is Internal,
                        children@ == node->children@,
                        placed(g, *node, start as int),
                        g.len() <= usize::MAX,
                        k <= children@.len(),
                        measured == prefix_len(*node, k as int),
                        count_in::<M>(g, start as int, start + measured) == 0,
                        count_in::<M>(g, start as int, start + node.text().len()) > 0,
                        prefix_len(*node, children@.len() as int) == node.text().len(),
                    decreases children@.len() - k,
                {
                    proof {
                        lemma_child_placed(g, *node, start as int, k as int);
                        lemma_wf_len(child_of(*node, k as int));
                        M::lemma_measure(child_of(*node, k as int).text(), child_of(*node, k as int).spec_summary());
                        lemma_count_in_split::<M>(g, start as int, start + measured, start + measured + child_of(*node, k as int).text().len());
                    }
                    let sum = children[k].summary();
                    if M::measure(&sum) > 0 {
                        let child = &children[k];
                        proof {
                            lemma_chain_push(g, *pre.root, pre.stack@, pre.starts@, node, k, start as int);
                        }
                        self.stack.push((node, k));
                        self.starts = Ghost(self.starts@.push(start as int));
                        let e = self.descend_to_unit(child, start + measured);
                        proof {
                            lemma_count_in_split::<M>(g, start as int, start + measured, e - 1);
                        }
                        return e;
                    }
                    measured = measured + sum.bytes;
                    k = k + 1;
                }
                proof {
                    assert(false);
                }
                start
            },
        }
    }
}

impl<'a, M: Metric> UnitsForward<'a, M> {
    /// When the rest of the current leaf holds no unit-ending byte: climbs
    /// the stack, skipping every sibling subtree whose summary counts no
    /// unit, and goes down into the first one that does, to the byte that
    /// ends the current unit. Returns the offset just past that byte, with
    /// the node the climb stopped at, the deepest one that holds the unit,
    /// and where its text starts; the counters are left as they were.
    fn unit_end_in_stack(&mut self) -> (r: (usize, &'a Node, usize))
        requires
            old(self).path_ok(),
            old(self).leaf_start <= old(self).pos() < old(self).leaf_end(),
            old(self).pos() <= old(self).base_offset + old(self).base_total,
            old(self).base_offset + old(self).base_total <= old(self).g().len(),
            old(self).g().len() <= usize::MAX,
            count_in::<M>(old(self).g(), old(self).pos(), old(self).leaf_end()) == 0,
            count_in::<M>(old(self).g(), old(self).pos(), old(self).base_offset + old(self).base_total) > 0,
        ensures
            final(self).path_ok(),
            final(self).leaf_start < r.0 <= final(self).leaf_end(),
            old(self).pos() < r.0 <= old(self).base_offset + old(self).base_total,
            count_in::<M>(old(self).g(), old(self).pos(), r.0 - 1) == 0,
            M::spec_ends_unit(old(self).g()[r.0 - 1]),
            placed(old(self).g(), *r.1, r.2 as int),
            holds_deepest(*r.1, r.2 as int, old(self).pos(), r.0 as int),
            final(self).root == old(self).root,
            final(self).is_initialized == old(self).is_initialized,
            final(self).base_offset == old(self).base_offset,
            final(self).base_yielded == old(self).base_yielded,
            final(self).base_total == old(self).base_total,
            final(self).units_yielded == old(self).units_yielded,
            final(self).units_total == old(self).units_total,
    {
        let ghost g = self.g();
        let ghost pre = *self;
        let ghost p = self.pos();
        let ghost end = self.base_offset + self.base_total;
        proof {
            lemma_wf_len(*self.leaf_node);
            if self.stack@.len() > 0 {
                lemma_chain_pop(g, *self.root, self.stack@, self.starts@);
                lemma_child_placed(g, *self.stack@.last().0, self.starts@.last(), self.stack@.last().1 as int);
            } else {
                lemma_count_in_split::<M>(g, p, end, g.len() as int);
            }
        }
        let mut cur: usize = self.leaf_start + self.leaf_node.summary().bytes;
        loop
            invariant
                pre == *old(self),
                g == self.g(),
                self.root == pre.root,
                self.is_initialized == pre.is_initialized,
                self.base_offset == pre.base_offset,
                self.base_yielded == pre.base_yielded,
                self.base_total == pre.base_total,
                self.units_yielded == pre.units_yielded,
                self.units_total == pre.units_total,
                g.len() <= usize::MAX,
                p == pre.pos(),
                end == pre.base_offset + pre.base_total,
                0 <= p <= end <= g.len(),
                p <= cur,
                count_in::<M>(g, p, cur as int) == 0,
                count_in::<M>(g, p, end) > 0,
                chain_ok(g, *self.root, self.stack@, self.starts@),
                self.stack@.len() > 0,
                cur == self.starts@.last() + prefix_len(*self.stack@.last().0, self.stack@.last().1 + 1),
                self.starts@.last() + prefix_len(*self.stack@.last().0, self.stack@.last().1 as int) <= p,
                p < cur,
            decreases self.stack@.len(),
        {
            let last = self.stack.len() - 1;
            let (node, idx) = self.stack[last];
            proof {
                lemma_chain_pop(g, *self.root, self.stack@, self.starts@);
                assert(self.stack@[last as int] == self.stack@.last());
                lemma_prefix_ends(*node);
                lemma_wf_len(*node);
            }
            match node {
                Node::Internal { children, .. } => {
                    let ghost mid = *self;
                    let ghost ns0 = mid.starts@.last();
                    proof {
                        lemma_child_placed(g, *node, ns0, idx as int);
                    }
                    let mut k: usize = idx + 1;
                    while k < children.len()
                        invariant
                            *self == mid,
                            pre == *old(self),
                            p == pre.pos(),
                            end == pre.base_offset + pre.base_total,
                            g == pre.g(),
                            mid.root == pre.root,
                            mid.is_initialized == pre.is_initialized,
                            mid.base_offset == pre.base_offset,
                            mid.base_yielded == pre.base_yielded,
                            mid.base_total == pre.base_total,
                            mid.units_yielded == pre.units_yielded,
                            mid.units_total == pre.units_total,
                            g == mid.g(),
                            *node is Internal,
                            children@ == node->children@,
                            chain_ok(g, *mid.root, mid.stack@, mid.starts@),
                            mid.stack@.len() > 0,
                            last == mid.stack@.len() - 1,
                            *mid.stack@.last().0 == *node,
                            placed(g, *node, mid.starts@.last()),
                            g.len() <= usize::MAX,
                            0 <= p <= end <= g.len(),
                            p <= cur,
                            k <= children@.len(),
                            count_in::<M>(g, p, cur as int) == 0,
                            count_in::<M>(g, p, end) > 0,
                            cur == mid.starts@.last() + prefix_len(*node, k as int),
                            ns0 == mid.starts@.last(),
                            idx < k,
                            idx < children@.len(),
                            ns0 + prefix_len(*node, idx as int) <= p,
                            p < ns0 + prefix_len(*node, idx + 1),
                            ns0 + prefix_len(*node, idx + 1) <= cur,
                            0 <= prefix_len(*node, idx as int),
                            prefix_len(*node, idx + 1) == prefix_len(*node, idx as int) + child_of(*node, idx as int).text().len(),
                        decreases children@.len() - k,
                    {
                        proof {
                            lemma_child_placed(g, *node, mid.starts@.last(), k as int);
                            lemma_wf_len(child_of(*node, k as int));
                            M::lemma_measure(child_of(*node, k as int).text(), child_of(*node, k as int).spec_summary());
                            lemma_count_in_split::<M>(g, p, cur as int, cur + child_of(*node, k as int).text().len());
                        }
                        let sum = children[k].summary();
                        if M::measure(&sum) > 0 {
                            proof {
                                lemma_chain_set_last(g, *self.root, self.stack@, self.starts@, k);
                            }
                            self.stack.set(last, (node, k));
                            let e = self.descend_to_unit(&children[k], cur);
                            proof {
                                lemma_count_in_split::<M>(g, p, cur as int, e - 1);
                                if e - 1 >= end {
                                    lemma_count_in_split::<M>(g, p, end, e - 1);
                                }
                                lemma_wf_len(*node);
                            }
                            let ns = cur - prefix_bytes(node, k);
                            proof {
                                assert(ns == ns0);
                                lemma_deepest_by(*node, ns as int, idx as int, p, e as int, p);
                            }
                            return (e, node, ns);
                        }
                        cur = cur + sum.bytes;
                        k = k + 1;
                    }
                    let ghost old_st = self.stack@;
                    self.stack.pop();
                    self.starts = Ghost(self.starts@.drop_last());
                    proof {
                        assert(self.stack@ =~= old_st.drop_last());
                        if self.stack@.len() > 0 {
                            lemma_chain_pop(g, *self.root, self.stack@, self.starts@);
                            lemma_child_placed(g, *self.stack@.last().0, self.starts@.last(), self.stack@.last().1 as int);
                        } else {
                            assert(*node == *self.root);
                            lemma_count_in_split::<M>(g, p, end, g.len() as int);
                        }
                    }
                },
                Node::Leaf { .. } => {
                    proof {
                        assert(false);
                    }
                    return (0, node, 0);
                },
            }
        }
    }
}

impl<'a, M: Metric> UnitsForward<'a, M> {
    /// A fresh walk over the same slice: not initialized, nothing yielded.
    /// It allocates nothing.
    fn restarted(&self) -> (r: Self)
        requires
            self.wf(),
        ensures
            r.wf(),
            !r.is_initialized,
            r.root == self.root,
            r.base_offset == self.base_offset,
            r.base_total == self.base_total,
            r.units_total == self.units_total,
            r.base_yielded == 0,
    {
        proof {
            assert(self.text().take(0) =~= Seq::<u8>::empty());
            M::lemma_count_step(self.text().take(0));
        }
        UnitsForward {
            is_initialized: false,
            stack: Vec::new(),
            starts: Ghost(Seq::empty()),
            root: self.root,
            leaf_node: self.root,
            leaf_start: 0,
            base_offset: self.base_offset,
            base_yielded: 0,
            base_total: self.base_total,
            units_yielded: 0,
            units_total: self.units_total,
            metric: PhantomData,
        }
    }

    /// A walk over the units of `slice`, from its start. It is not yet
    /// initialized: its stack is empty and its leaf is the slice's root.
    pub(crate) fn new(slice: &TreeSlice<'a>) -> (r: Self)
        ensures
            r.wf(),
            !r.is_initialized,
            r.stack@.len() == 0,
            r.root == slice.root,
            r.leaf_node == slice.root,
            r.g() == slice.root_text(),
            r.base_offset == slice.offset(),
            r.text() == slice@,
            r.base_yielded == 0,
            r.units_yielded == 0,
            r.units_total == count_units::<M>(slice@),
    {
        proof {
            use_type_invariant(slice);
            slice.lemma_inv();
            M::lemma_measure(slice@, slice.summary);
            assert(slice@.take(0) =~= Seq::<u8>::empty());
            M::lemma_count_step(slice@.take(0));
            lemma_wf_len(*slice.root);
        }
        UnitsForward {
            is_initialized: false,
            stack: Vec::new(),
            starts: Ghost(Seq::empty()),
            root: slice.root,
            leaf_node: slice.root,
            leaf_start: 0,
            base_offset: slice.before,
            base_yielded: 0,
            base_total: slice.summary.bytes,
            units_yielded: 0,
            units_total: M::measure(&slice.summary),
            metric: PhantomData,
        }
    }

    /// Goes down from the root to the leaf that holds the slice's first
    /// byte (the last leaf, for a slice that starts at the end of the tree),
    /// and keeps the path in the stack.
    fn initialize(&mut self)
        requires
            old(self).wf(),
            !old(self).is_initialized,
        ensures
            final(self).wf(),
            final(self).is_initialized,
            final(self).path_ok(),
            final(self).leaf_start <= final(self).pos() <= final(self).leaf_end(),
            final(self).pos() < final(self).g().len() ==> final(self).pos() < final(self).leaf_end(),
            final(self).root == old(self).root,
            final(self).base_offset == old(self).base_offset,
            final(self).base_yielded == old(self).base_yielded,
            final(self).base_total == old(self).base_total,
            final(self).units_yielded == old(self).units_yielded,
            final(self).units_total == old(self).units_total,
    {
        proof {
            reveal(chain_ok);
            assert(self.g().subrange(0, self.g().len() as int) =~= self.g());
        }
        self.is_initialized = true;
        let root = self.root;
        match root {
            Node::Leaf { .. } => {
                self.leaf_node = root;
                self.leaf_start = 0;
            },
            Node::Internal { .. } => {
                proof {
                    lemma_child_placed(self.g(), *root, 0, 0);
                    lemma_prefix_ends(*root);
                    lemma_wf_len(*root);
                }
                let len = root.summary().bytes;
                let target = if self.base_offset < len {
                    self.base_offset
                } else {
                    len - 1
                };
                self.descend_to(root, 0, target);
            },
        }
    }

    /// Counts the unit from the walk's position to `e`, the offset just past
    /// the first unit-ending byte from there on, moves the walk to `e` and
    /// returns the unit as a slice of `node`, the deepest node that holds
    /// it, whose text starts at `node_start`.
    fn take_unit(&mut self, e: usize, node: &'a Node, node_start: usize) -> (r: TreeSlice<'a>)
        requires
            placed(old(self).g(), *node, node_start as int),
            holds_deepest(*node, node_start as int, old(self).pos(), e as int),
            old(self).counts_ok(),
            old(self).is_initialized,
            old(self).path_ok(),
            old(self).base_yielded < old(self).base_total,
            old(self).units_yielded < old(self).units_total,
            old(self).pos() < e,
            old(self).leaf_start < e <= old(self).leaf_end(),
            count_in::<M>(old(self).g(), old(self).pos(), e - 1) == 0,
            M::spec_ends_unit(old(self).g()[e - 1]),
        ensures
            final(self).wf(),
            *final(self) == (UnitsForward {
                base_yielded: final(self).base_yielded,
                units_yielded: final(self).units_yielded,
                ..*old(self)
            }),
            final(self).units_yielded == old(self).units_yielded + 1,
            final(self).base_yielded == next_unit_end::<M>(old(self).text(), old(self).base_yielded as int),
            final(self).pos() == e,
            r@ == old(self).text().subrange(old(self).base_yielded as int, final(self).base_yielded as int),
            r.root_node() == *node,
            r.offset() == old(self).pos() - node_start,
            rooted_deepest(r, old(self).g(), old(self).pos(), e as int),
    {
        let ghost g = self.g();
        let ghost t = self.text();
        let ghost f = self.base_yielded as int;
        let ghost o = self.base_offset as int;
        let ghost n = self.base_total as int;
        let start = self.base_offset + self.base_yielded;
        proof {
            lemma_count_split::<M>(t, f);
            assert(t.skip(f) =~= g.subrange(start as int, o + n));
            lemma_count_units_bound::<M>(t.take(f));
            if e - 1 >= o + n {
                lemma_count_in_split::<M>(g, start as int, o + n, e - 1);
            }
            assert(t.subrange(f, e - o - 1) =~= g.subrange(start as int, e - 1));
            assert(t[e - o - 1] == g[e - 1]);
            lemma_next_unit_end::<M>(t, f, e - o - 1);
        }
        self.units_yielded = self.units_yielded + 1;
        self.base_yielded = e - self.base_offset;
        let r = TreeSlice::from_range(node, start - node_start, e - node_start);
        proof {
            assert(g.subrange(start as int, e as int) =~= t.subrange(f, e - o));
            assert(node.text().subrange(start - node_start, e - node_start) =~= g.subrange(start as int, e as int));
            use_type_invariant(&r);
            r.lemma_leaf_parts_join();
        }
        r
    }

    /// When the next unit ends in the part of the current leaf inside the
    /// slice: moves the walk past it, counts it and returns it as a slice of
    /// that leaf. Otherwise leaves the walk as it is.
    fn next_unit_in_leaf(&mut self) -> (r: Option<TreeSlice<'a>>)
        requires
            old(self).wf(),
            old(self).is_initialized,
            old(self).base_yielded < old(self).base_total,
            old(self).units_yielded < old(self).units_total,
        ensures
            r is None ==> *final(self) == *old(self) && count_in::<M>(
                old(self).g(),
                old(self).pos(),
                old(self).leaf_stop(),
            ) == 0,
            r is Some ==> {
                &&& final(self).wf()
                &&& *final(self) == (UnitsForward {
                    base_yielded: final(self).base_yielded,
                    units_yielded: final(self).units_yielded,
                    ..*old(self)
                })
                &&& final(self).units_yielded == old(self).units_yielded + 1
                &&& final(self).base_yielded == next_unit_end::<M>(
                    old(self).text(),
                    old(self).base_yielded as int,
                )
                &&& old(self).pos() < final(self).pos() <= old(self).leaf_stop()
                &&& r->0@ == old(self).text().subrange(
                    old(self).base_yielded as int,
                    final(self).base_yielded as int,
                )
                &&& r->0.root_node() == *old(self).leaf_node
                &&& r->0.offset() == old(self).pos() - old(self).leaf_start
                &&& r->0.num_leaves() == 1
                &&& r->0.first_part() == r->0@
                &&& r->0.last_part() == r->0@
                &&& rooted_deepest(r->0, old(self).g(), old(self).pos(), final(self).pos())
            },
    {
        let stop = self.current_leaf_stop();
        match self.unit_end_in_leaf(stop) {
            Some(e) => {
                let leaf = self.leaf_node;
                let leaf_start = self.leaf_start;
                let piece = self.take_unit(e, leaf, leaf_start);
                proof {
                    use_type_invariant(&piece);
                    piece.lemma_leaf_rooted();
                }
                Some(piece)
            },
            None => None,
        }
    }

    /// When the next unit does not end in the part of the current leaf
    /// inside the slice: moves to the next leaf if the current one is used
    /// up, and takes the unit there if it ends in it; otherwise climbs the
    /// stack to the subtree where it ends. Moves the walk past the unit,
    /// counts it and returns it as a slice of the deepest node that holds
    /// it: the leaf it ends in, or the node the climb stopped at.
    fn next_unit_in_stack(&mut self) -> (r: TreeSlice<'a>)
        requires
            old(self).wf(),
            old(self).is_initialized,
            old(self).base_yielded < old(self).base_total,
            old(self).units_yielded < old(self).units_total,
            count_in::<M>(old(self).g(), old(self).pos(), old(self).leaf_stop()) == 0,
        ensures
            final(self).wf(),
            final(self).is_initialized,
            final(self).root == old(self).root,
            final(self).base_offset == old(self).base_offset,
            final(self).base_total == old(self).base_total,
            final(self).units_total == old(self).units_total,
            final(self).units_yielded == old(self).units_yielded + 1,
            final(self).base_yielded == next_unit_end::<M>(old(self).text(), old(self).base_yielded as int),
            r@ == old(self).text().subrange(old(self).base_yielded as int, final(self).base_yielded as int),
            rooted_deepest(r, old(self).g(), old(self).pos(), final(self).pos()),
    {
        let ghost g = self.g();
        let ghost t = self.text();
        let ghost f = self.base_yielded as int;
        let ghost o = self.base_offset as int;
        let ghost n = self.base_total as int;
        let ghost p = self.pos();
        proof {
            lemma_count_split::<M>(t, f);
            assert(t.skip(f) =~= g.subrange(p, o + n));
            lemma_count_units_bound::<M>(t.take(f));
            lemma_wf_len(*self.leaf_node);
        }
        let leaf_end = self.leaf_start + self.leaf_node.summary().bytes;
        if self.base_offset + self.base_yielded == leaf_end {
            let stop = self.next_leaf();
            match self.unit_end_in_leaf(stop) {
                Some(e) => {
                    let leaf = self.leaf_node;
                    let leaf_start = self.leaf_start;
                    return self.take_unit(e, leaf, leaf_start);
                },
                None => {},
            }
        }
        proof {
            assert(count_in::<M>(g, p, self.leaf_stop()) == 0);
            if self.leaf_stop() == o + n {
                assert(false);
            }
            assert(self.leaf_start <= p < self.leaf_end());
        }
        let (e, node, node_start) = self.unit_end_in_stack();
        self.take_unit(e, node, node_start)
    }

    /// When every unit of the slice has been counted: yields what is left
    /// of it, the text after its last unit-ending byte, and moves the walk
    /// to the slice's end. The piece is a slice of the deepest node that
    /// holds it: the current leaf when it fits there (after stepping to the
    /// next leaf if the current one is used up), else the deepest node of
    /// the stack that does.
    fn yield_remaining(&mut self) -> (r: TreeSlice<'a>)
        requires
            old(self).wf(),
            old(self).is_initialized,
            old(self).units_yielded == old(self).units_total,
            old(self).base_yielded < old(self).base_total,
        ensures
            final(self).wf(),
            final(self).root == old(self).root,
            final(self).is_initialized,
            final(self).base_offset == old(self).base_offset,
            final(self).base_total == old(self).base_total,
            final(self).units_total == old(self).units_total,
            final(self).units_yielded == old(self).units_yielded,
            final(self).base_yielded == old(self).base_total,
            final(self).base_yielded == next_unit_end::<M>(old(self).text(), old(self).base_yielded as int),
            r@ == old(self).text().subrange(old(self).base_yielded as int, old(self).base_total as int),
            rooted_deepest(r, old(self).g(), old(self).pos(), final(self).pos()),
            old(self).pos() < old(self).leaf_end() && old(self).base_offset + old(self).base_total
                <= old(self).leaf_end() ==> {
                &&& r.root_node() == *old(self).leaf_node
                &&& r.offset() == old(self).pos() - old(self).leaf_start
                &&& r.num_leaves() == 1
                &&& r.first_part() == r@
                &&& r.last_part() == r@
            },
    {
        let ghost t = self.text();
        let ghost g = self.g();
        let ghost f = self.base_yielded as int;
        let start = self.base_offset + self.base_yielded;
        let end = self.base_offset + self.base_total;
        proof {
            lemma_rest_unit_end::<M>(t, f);
            assert(t.take(t.len() as int) =~= t);
            lemma_wf_len(*self.leaf_node);
            lemma_wf_len(*self.root);
        }
        let leaf_end = self.leaf_start + self.leaf_node.summary().bytes;
        if start == leaf_end {
            self.next_leaf();
        }
        let (node, node_start) = deepest_on_path(
            self.root,
            &self.stack,
            self.starts,
            self.leaf_node,
            self.leaf_start,
            start,
            end,
            Ghost(start as int),
        );
        self.base_yielded = self.base_total;
        let r = TreeSlice::from_range(node, start - node_start, end - node_start);
        proof {
            assert(g.subrange(start as int, end as int) =~= t.subrange(f, t.len() as int));
            assert(node.text().subrange(start - node_start, end - node_start) =~= g.subrange(start as int, end as int));
            use_type_invariant(&r);
            r.lemma_leaf_parts_join();
            if (*node) is Leaf {
                r.lemma_leaf_rooted();
            }
        }
        r
    }

    /// The next unit of the slice, if any is left: taken from the current
    /// leaf when it ends there, else found through the stack; once every
    /// unit has been counted, the rest of the slice; then nothing. Each piece
    /// is a slice of the deepest node that holds it.
    pub(crate) fn next(&mut self) -> (r: Option<TreeSlice<'a>>)
        requires
            old(self).wf(),
        ensures
            final(self).wf(),
            final(self).is_initialized,
            final(self).root == old(self).root,
            final(self).base_offset == old(self).base_offset,
            final(self).base_total == old(self).base_total,
            final(self).units_total == old(self).units_total,
            old(self).base_yielded == old(self).base_total ==> r is None && final(self).base_yielded
                == old(self).base_yielded,
            old(self).base_yielded < old(self).base_total ==> {
                &&& final(self).base_yielded == next_unit_end::<M>(
                    old(self).text(),
                    old(self).base_yielded as int,
                )
                &&& r is Some
                &&& r->0@ == old(self).text().subrange(
                    old(self).base_yielded as int,
                    final(self).base_yielded as int,
                )
                &&& rooted_deepest(r->0, old(self).g(), old(self).pos(), final(self).pos())
            },
    {
        if !self.is_initialized {
            self.initialize();
        }
        proof {
            let t = self.text();
            assert(t.take(t.len() as int) =~= t);
            lemma_count_prefix_mono::<M>(t, self.base_yielded as int, t.len() as int);
        }
        if self.units_yielded < self.units_total {
            match self.next_unit_in_leaf() {
                Some(piece) => Some(piece),
                None => Some(self.next_unit_in_stack()),
            }
        } else if self.base_yielded < self.base_total {
            Some(self.yield_remaining())
        } else {
            None
        }
    }
}

/// Walks the units of a metric over a slice of a tree from its end. It keeps
/// the forward walk's state, with what has been yielded counted from the
/// end; once initialized, its path goes down to the leaf that holds the last
/// byte not yet yielded.
pub(crate) struct UnitsBackward<'a, M: Metric> {
    pub(crate) is_initialized: bool,
    /// The internal nodes from the root to the current leaf, each with the
    /// index of the child the path goes through.
    pub(crate) stack: Vec<(&'a Node, usize)>,
    /// Where the text of each node of the stack starts.
    pub(crate) starts: Ghost<Seq<int>>,
    pub(crate) root: &'a Node,
    /// The leaf the walk is in, and where its text starts.
    pub(crate) leaf_node: &'a Node,
    pub(crate) leaf_start: usize,
    pub(crate) base_offset: usize,
    /// Bytes yielded so far, from the end.
    pub(crate) base_yielded: usize,
    pub(crate) base_total: usize,
    /// Units yielded so far, from the end: the unit-ending bytes from the
    /// back on.
    pub(crate) units_yielded: usize,
    pub(crate) units_total: usize,
    pub(crate) metric: PhantomData<M>,
}

impl<'a, M: Metric> UnitsBackward<'a, M> {
    pub(crate) open spec fn g(self) -> Seq<u8> {
        self.root.text()
    }

    /// The text being walked.
    pub(crate) open spec fn text(self) -> Seq<u8> {
        self.g().subrange(self.base_offset as int, self.base_offset + self.base_total)
    }

    /// Where the part not yet yielded ends, in the text walked.
    pub(crate) open spec fn back(self) -> int {
        self.base_total - self.base_yielded
    }

    pub(crate) open spec fn path_ok(self) -> bool {
        path_parts_ok(self.g(), *self.root, self.stack@, self.starts@, *self.leaf_node, self.leaf_start as int)
    }

    pub(crate) open spec fn wf(self) -> bool {
        &&& self.root.wf()
        &&& self.g().len() <= usize::MAX
        &&& self.base_offset + self.base_total <= self.g().len()
        &&& self.base_yielded <= self.base_total
        &&& self.units_total == count_units::<M>(self.text())
        &&& self.units_yielded + count_units::<M>(self.text().take(self.back())) == self.units_total
        &&& !self.is_initialized ==> self.base_yielded == 0 && self.stack@.len() == 0
            && self.starts@.len() == 0 && self.leaf_node == self.root && self.leaf_start == 0
        &&& self.is_initialized && self.back() > 0 ==> {
            &&& self.path_ok()
            &&& self.leaf_start <= self.base_offset + self.back() - 1 < self.leaf_start
                + self.leaf_node.text().len()
        }
    }

    /// A fresh walk over the same slice: not initialized, nothing yielded.
    /// It allocates nothing.
    fn restarted(&self) -> (r: Self)
        requires
            self.wf(),
        ensures
            r.wf(),
            !r.is_initialized,
            r.root == self.root,
            r.base_offset == self.base_offset,
            r.base_total == self.base_total,
            r.units_total == self.units_total,
            r.base_yielded == 0,
    {
        proof {
            assert(self.text().take(self.text().len() as int) =~= self.text());
        }
        UnitsBackward {
            is_initialized: false,
            stack: Vec::new(),
            starts: Ghost(Seq::empty()),
            root: self.root,
            leaf_node: self.root,
            leaf_start: 0,
            base_offset: self.base_offset,
            base_yielded: 0,
            base_total: self.base_total,
            units_yielded: 0,
            units_total: self.units_total,
            metric: PhantomData,
        }
    }

    /// A walk over the units of `slice`, from its end. Its state is the one
    /// the forward walk starts from: not initialized, an empty stack, the
    /// slice's root as its leaf, nothing yielded.
    pub(crate) fn new(slice: &TreeSlice<'a>) -> (r: Self)
        ensures
            r.wf(),
            !r.is_initialized,
            r.stack@.len() == 0,
            r.root == slice.root,
            r.leaf_node == slice.root,
            r.leaf_start == 0,
            r.g() == slice.root_text(),
            r.base_offset == slice.offset(),
            r.text() == slice@,
            r.base_yielded == 0,
            r.units_yielded == 0,
            r.units_total == count_units::<M>(slice@),
    {
        proof {
            use_type_invariant(slice);
            slice.lemma_inv();
            M::lemma_measure(slice@, slice.summary);
            assert(slice@.take(slice@.len() as int) =~= slice@);
            lemma_wf_len(*slice.root);
        }
        UnitsBackward {
            is_initialized: false,
            stack: Vec::new(),
            starts: Ghost(Seq::empty()),
            root: slice.root,
            leaf_node: slice.root,
            leaf_start: 0,
            base_offset: slice.before,
            base_yielded: 0,
            base_total: slice.summary.bytes,
            units_yielded: 0,
            units_total: M::measure(&slice.summary),
            metric: PhantomData,
        }
    }

    /// Sets the path to go from the root down to the leaf that holds byte
    /// `target` of the root's text, as the forward walk goes down.
    fn locate(&mut self, target: usize)
        requires
            old(self).root.wf(),
            old(self).g().len() <= usize::MAX,
            target < old(self).g().len(),
        ensures
            final(self).path_ok(),
            final(self).leaf_start <= target < final(self).leaf_start + final(self).leaf_node.text().len(),
            final(self).is_initialized == old(self).is_initialized,
            final(self).root == old(self).root,
            final(self).base_offset == old(self).base_offset,
            final(self).base_yielded == old(self).base_yielded,
            final(self).base_total == old(self).base_total,
            final(self).units_yielded == old(self).units_yielded,
            final(self).units_total == old(self).units_total,
    {
        let root = self.root;
        let mut walk = UnitsForward::<'a, M> {
            is_initialized: true,
            stack: Vec::new(),
            starts: Ghost(Seq::empty()),
            root,
            leaf_node: root,
            leaf_start: 0,
            base_offset: 0,
            base_yielded: 0,
            base_total: 0,
            units_yielded: 0,
            units_total: 0,
            metric: PhantomData,
        };
        proof {
            reveal(chain_ok);
            assert(root.text().subrange(0, root.text().len() as int) =~= root.text());
        }
        walk.descend_to(root, 0, target);
        let UnitsForward { stack, starts, leaf_node, leaf_start, .. } = walk;
        self.stack = stack;
        self.starts = starts;
        self.leaf_node = leaf_node;
        self.leaf_start = leaf_start;
    }

    /// Goes down from the root to the leaf that holds the slice's last byte.
    fn initialize(&mut self)
        requires
            old(self).wf(),
            !old(self).is_initialized,
        ensures
            final(self).wf(),
            final(self).is_initialized,
            final(self).root == old(self).root,
            final(self).base_offset == old(self).base_offset,
            final(self).base_yielded == old(self).base_yielded,
            final(self).base_total == old(self).base_total,
            final(self).units_yielded == old(self).units_yielded,
            final(self).units_total == old(self).units_total,
    {
        self.is_initialized = true;
        if self.base_total > 0 {
            self.locate(self.base_offset + self.base_total - 1);
        }
    }

    /// The last unit not yet yielded: from just past the last unit-ending
    /// byte before its final byte, to where the part not yet yielded ends.
    /// It is a slice of the deepest node of the path that holds it.
    pub(crate) fn next(&mut self) -> (r: TreeSlice<'a>)
        requires
            old(self).wf(),
            old(self).back() > 0,
        ensures
            final(self).wf(),
            final(self).is_initialized,
            final(self).root == old(self).root,
            final(self).base_offset == old(self).base_offset,
            final(self).base_total == old(self).base_total,
            final(self).units_total == old(self).units_total,
            final(self).back() == prev_unit_start::<M>(old(self).text(), old(self).back()),
            r@ == old(self).text().subrange(final(self).back(), old(self).back()),
            rooted_deepest(
                r,
                old(self).g(),
                old(self).base_offset + final(self).back(),
                old(self).base_offset + old(self).back(),
            ),
    {
        if !self.is_initialized {
            self.initialize();
        }
        let back = self.base_total - self.base_yielded;
        proof {
            lemma_wf_len(*self.root);
        }
        let whole = TreeSlice::from_range(self.root, self.base_offset, self.base_offset + self.base_total);
        let ghost t = whole@;
        let c = whole.units_before::<M>(back - 1);
        let start = whole.unit_boundary::<M>(c);
        proof {
            lemma_boundary_within_prefix::<M>(t, back - 1);
            lemma_count_units_bound::<M>(t.take(back - 1));
            lemma_count_prefix_mono::<M>(t, back - 1, t.len() as int);
            assert(t.take(t.len() as int) =~= t);
            lemma_count_at_boundary::<M>(t, c as nat);
        }
        let (node, node_start) = deepest_on_path(
            self.root,
            &self.stack,
            self.starts,
            self.leaf_node,
            self.leaf_start,
            self.base_offset + start,
            self.base_offset + back,
            Ghost(self.base_offset + back - 1),
        );
        self.units_yielded = self.units_total - c;
        self.base_yielded = self.base_total - start;
        if start > 0 {
            self.locate(self.base_offset + start - 1);
        }
        let r = TreeSlice::from_range(node, self.base_offset + start - node_start, self.base_offset + back - node_start);
        proof {
            use_type_invariant(&r);
            r.lemma_leaf_parts_join();
            let g = self.g();
            assert(node.text().subrange(self.base_offset + start - node_start, self.base_offset + back - node_start)
                =~= g.subrange(self.base_offset + start, self.base_offset + back));
            assert(g.subrange(self.base_offset + start, self.base_offset + back) =~= t.subrange(start as int, back as int));
        }
        r
    }

    /// A copy of this walk, at the same place.
    fn copy(&self) -> (r: Self)
        ensures
            r.is_initialized == self.is_initialized,
            r.stack@ == self.stack@,
            r.starts@ == self.starts@,
            r.root == self.root,
            r.leaf_node == self.leaf_node,
            r.leaf_start == self.leaf_start,
            r.base_offset == self.base_offset,
            r.base_yielded == self.base_yielded,
            r.base_total == self.base_total,
            r.units_yielded == self.units_yielded,
            r.units_total == self.units_total,
    {
        UnitsBackward {
            is_initialized: self.is_initialized,
            stack: copy_stack(&self.stack),
            starts: Ghost(self.starts@),
            root: self.root,
            leaf_node: self.leaf_node,
            leaf_start: self.leaf_start,
            base_offset: self.base_offset,
            base_yielded: self.base_yielded,
            base_total: self.base_total,
            units_yielded: self.units_yielded,
            units_total: self.units_total,
            metric: PhantomData,
        }
    }
}

/// A copy of a walk's stack.
fn copy_stack<'a>(stack: &Vec<(&'a Node, usize)>) -> (r: Vec<(&'a Node, usize)>)
    ensures
        r@ == stack@,
{
    let mut out: Vec<(&'a Node, usize)> = Vec::new();
    let mut i: usize = 0;
    while i < stack.len()
        invariant
            i <= stack@.len(),
            out@ == stack@.take(i as int),
        decreases stack@.len() - i,
    {
        out.push(stack[i]);
        i = i + 1;
        proof {
            assert(out@ =~= stack@.take(i as int));
        }
    }
    proof {
        assert(stack@.take(i as int) =~= stack@);
    }
    out
}

/// An iterator over the consecutive units of a metric in a slice of a tree,
/// from either end. Every piece it yields is a slice of the deepest node
/// that holds it, below the node the iterated slice is taken from.
pub struct Units<'a, M: Metric> {
    forward: UnitsForward<'a, M>,
    backward: UnitsBackward<'a, M>,
    total: usize,
}

/// `x` is where a unit may start or end in `t`: its start, its end, or just
/// past a unit-ending byte.
pub open spec fn at_boundary<M: Metric>(t: Seq<u8>, x: int) -> bool {
    x == 0 || x == t.len() || (0 < x <= t.len() && M::spec_ends_unit(t[x - 1]))
}

impl<'a, M: Metric> Units<'a, M> {
    #[verifier::type_invariant]
    spec fn inv(self) -> bool {
        &&& self.forward.wf()
        &&& self.backward.wf()
        &&& self.forward.root == self.backward.root
        &&& self.forward.base_offset == self.backward.base_offset
        &&& self.forward.base_total == self.backward.base_total
        &&& self.total == self.forward.base_total
        &&& self.forward.base_yielded <= self.backward.back()
        &&& at_boundary::<M>(self.forward.text(), self.forward.base_yielded as int)
        &&& at_boundary::<M>(self.forward.text(), self.backward.back())
    }

    /// The text being iterated over.
    pub closed spec fn text(self) -> Seq<u8> {
        self.forward.text()
    }

    /// Where the units not yet yielded start.
    pub closed spec fn front(self) -> int {
        self.forward.base_yielded as int
    }

    /// Where the units not yet yielded end.
    pub closed spec fn back(self) -> int {
        self.backward.back()
    }

    /// The text below the node the slice is taken from.
    pub closed spec fn root_text(self) -> Seq<u8> {
        self.forward.g()
    }

    /// Where the slice starts in `root_text`.
    pub closed spec fn offset(self) -> int {
        self.forward.base_offset as int
    }

    /// The units of `slice`.
    pub fn from_tree_slice(slice: &TreeSlice<'a>) -> (u: Self)
        ensures
            u.text() == slice@,
            u.root_text() == slice.root_text(),
            u.offset() == slice.offset(),
            u.front() == 0,
            u.back() == slice@.len(),
            0 <= u.front() <= u.back() <= u.text().len(),
    {
        let forward = UnitsForward::new(slice);
        let backward = UnitsBackward::new(slice);
        let total = slice.byte_len();
        Units { forward, backward, total }
    }

    /// The units of a whole tree.
    pub fn from_tree(tree: &'a Tree) -> (u: Self)
        ensures
            u.text() == tree@,
            u.front() == 0,
            u.back() == tree@.len(),
    {
        let slice = TreeSlice::from_tree(tree);
        Self::from_tree_slice(&slice)
    }

    /// The next unit from the front: from `front` to just past the first
    /// unit-ending byte at or after it, or to the end of the text. It is the
    /// first of the units between `front` and `back`, and the others are left.
    /// The piece is a slice of the deepest node below the walk's own that
    /// holds it.
    pub fn next(&mut self) -> (r: Option<TreeSlice<'a>>)
        ensures
            final(self).text() == old(self).text(),
            final(self).root_text() == old(self).root_text(),
            final(self).offset() == old(self).offset(),
            final(self).back() == old(self).back(),
            0 <= old(self).front() <= old(self).back() <= old(self).text().len(),
            0 <= final(self).front() <= final(self).back() <= final(self).text().len(),
            at_boundary::<M>(final(self).text(), final(self).front()),
            at_boundary::<M>(final(self).text(), final(self).back()),
            old(self).front() == old(self).back() ==> r is None && final(self).front() == old(self).front(),
            old(self).front() < old(self).back() ==> {
                &&& old(self).front() < final(self).front() <= old(self).back()
                &&& final(self).front() == next_unit_end::<M>(old(self).text(), old(self).front())
                &&& r is Some
                &&& r->0@ == old(self).text().subrange(old(self).front(), final(self).front())
                &&& r->0@ == units_between::<M>(old(self).text(), old(self).front(), old(self).back())[0]
                &&& units_between::<M>(final(self).text(), final(self).front(), final(self).back())
                    == units_between::<M>(old(self).text(), old(self).front(), old(self).back()).drop_first()
                &&& rooted_deepest(
                    r->0,
                    old(self).root_text(),
                    old(self).offset() + old(self).front(),
                    old(self).offset() + final(self).front(),
                )
            },
    {
        proof {
            use_type_invariant(&*self);
        }
        if self.forward.base_yielded + self.backward.base_yielded == self.total {
            return None;
        }
        proof {
            let t = self.forward.text();
            let f = self.forward.base_yielded as int;
            let b = self.backward.back();
            lemma_forward_step_within::<M>(t, f, b);
        }
        // The walk is stepped outside `self`, whose invariant must hold at
        // every call; a fresh walk over the same slice stands in meanwhile.
        let mut forward = self.forward.restarted();
        core::mem::swap(&mut forward, &mut self.forward);
        let r = forward.next();
        core::mem::swap(&mut forward, &mut self.forward);
        r
    }

    /// The next unit from the back: from just past the last unit-ending byte
    /// before the final byte of what is left, to `back`. It is the last of
    /// the units between `front` and `back`, and the others are left. The
    /// piece is a slice of the deepest node below the walk's own that holds
    /// it.
    pub fn next_back(&mut self) -> (r: Option<TreeSlice<'a>>)
        ensures
            final(self).text() == old(self).text(),
            final(self).root_text() == old(self).root_text(),
            final(self).offset() == old(self).offset(),
            final(self).front() == old(self).front(),
            0 <= old(self).front() <= old(self).back() <= old(self).text().len(),
            0 <= final(self).front() <= final(self).back() <= final(self).text().len(),
            at_boundary::<M>(final(self).text(), final(self).front()),
            at_boundary::<M>(final(self).text(), final(self).back()),
            old(self).front() == old(self).back() ==> r is None && final(self).back() == old(self).back(),
            old(self).front() < old(self).back() ==> {
                &&& old(self).front() <= final(self).back() < old(self).back()
                &&& final(self).back() == prev_unit_start::<M>(old(self).text(), old(self).back())
                &&& r is Some
                &&& r->0@ == old(self).text().subrange(final(self).back(), old(self).back())
                &&& r->0@ == units_between::<M>(old(self).text(), old(self).front(), old(self).back()).last()
                &&& units_between::<M>(final(self).text(), final(self).front(), final(self).back())
                    == units_between::<M>(old(self).text(), old(self).front(), old(self).back()).drop_last()
                &&& rooted_deepest(
                    r->0,
                    old(self).root_text(),
                    old(self).offset() + final(self).back(),
                    old(self).offset() + old(self).back(),
                )
            },
    {
        proof {
            use_type_invariant(&*self);
        }
        if self.forward.base_yielded + self.backward.base_yielded == self.total {
            return None;
        }
        proof {
            let t = self.forward.text();
            let f = self.forward.base_yielded as int;
            let b = self.backward.back();
            lemma_backward_step_within::<M>(t, f, b);
            law_back_takes_last::<M>(t, f, b);
        }
        // As in `next`: the backward walk is stepped outside `self`.
        let mut backward = self.backward.restarted();
        core::mem::swap(&mut backward, &mut self.backward);
        let r = backward.next();
        core::mem::swap(&mut backward, &mut self.backward);
        Some(r)
    }
}

impl<'a, M: Metric> UnitsForward<'a, M> {
    /// A copy of this walk, at the same place.
    fn copy(&self) -> (r: Self)
        ensures
            r.is_initialized == self.is_initialized,
            r.stack@ == self.stack@,
            r.starts@ == self.starts@,
            r.root == self.root,
            r.leaf_node == self.leaf_node,
            r.leaf_start == self.leaf_start,
            r.base_offset == self.base_offset,
            r.base_yielded == self.base_yielded,
            r.base_total == self.base_total,
            r.units_yielded == self.units_yielded,
            r.units_total == self.units_total,
    {
        let stack = copy_stack(&self.stack);
        UnitsForward {
            is_initialized: self.is_initialized,
            stack,
            starts: Ghost(self.starts@),
            root: self.root,
            leaf_node: self.leaf_node,
            leaf_start: self.leaf_start,
            base_offset: self.base_offset,
            base_yielded: self.base_yielded,
            base_total: self.base_total,
            units_yielded: self.units_yielded,
            units_total: self.units_total,
            metric: PhantomData,
        }
    }
}

impl<'a, M: Metric> Clone for Units<'a, M> {
    /// An iterator at the same place as this one.
    fn clone(&self) -> (r: Self)
        ensures
            r.text() == self.text(),
            r.root_text() == self.root_text(),
            r.offset() == self.offset(),
            r.front() == self.front(),
            r.back() == self.back(),
            0 <= r.front() <= r.back() <= r.text().len(),
            at_boundary::<M>(r.text(), r.front()),
            at_boundary::<M>(r.text(), r.back()),
    {
        proof {
            use_type_invariant(self);
        }
        Units { forward: self.forward.copy(), backward: self.backward.copy(), total: self.total }
    }
}

/// A step from the front stays short of the back.
pub proof fn lemma_forward_step_within<M: Metric>(t: Seq<u8>, f: int, b: int)
    requires
        0 <= f < b <= t.len(),
        at_boundary::<M>(t, b),
    ensures
        f < unit_boundary::<M>(t, count_units::<M>(t.take(f)) + 1) <= b,
        at_boundary::<M>(t, unit_boundary::<M>(t, count_units::<M>(t.take(f)) + 1)),
{
    let c = count_units::<M>(t.take(f));
    lemma_next_boundary_after::<M>(t, f);
    lemma_unit_boundary_shape::<M>(t, c + 1);
    if b < t.len() {
        lemma_count_prefix_mono::<M>(t, f, b);
        lemma_boundary_at_count::<M>(t, b);
        lemma_unit_boundary_mono::<M>(t, c + 1, count_units::<M>(t.take(b)));
    }
}

/// A step from the back stays past the front.
pub proof fn lemma_backward_step_within<M: Metric>(t: Seq<u8>, f: int, b: int)
    requires
        0 <= f < b <= t.len(),
        at_boundary::<M>(t, f),
    ensures
        f <= unit_boundary::<M>(t, count_units::<M>(t.take(b - 1))) < b,
        at_boundary::<M>(t, unit_boundary::<M>(t, count_units::<M>(t.take(b - 1)))),
{
    let c = count_units::<M>(t.take(b - 1));
    lemma_boundary_within_prefix::<M>(t, b - 1);
    if c >= 1 {
        lemma_unit_boundary_shape::<M>(t, c);
    }
    if f > 0 {
        lemma_count_prefix_mono::<M>(t, f, b - 1);
        lemma_boundary_at_count::<M>(t, f);
        lemma_unit_boundary_mono::<M>(t, count_units::<M>(t.take(f)), c);
    }
}

/// Counting over one more byte.
pub proof fn lemma_count_in_push<M: Metric>(g: Seq<u8>, a: int, b: int)
    requires
        0 <= a <= b < g.len(),
    ensures
        count_in::<M>(g, a, b + 1) == count_in::<M>(g, a, b) + (if M::spec_ends_unit(g[b]) {
            1nat
        } else {
            0nat
        }),
{
    let s = g.subrange(a, b + 1);
    assert(s.take(b - a) =~= g.subrange(a, b));
    assert(s.take(b - a + 1) =~= s);
    lemma_count_units_push::<M>(s, b - a);
}

} // verus!
