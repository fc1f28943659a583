use vstd::prelude::*;
use super::node::Node;
use super::tree_slice::{TreeSlice, lemma_wf_len, joined};
use super::units::{
    chain_ok, reached, placed, child_of, prefix_len, lemma_child_placed, lemma_prefix_ends,
};

verus! {

/// `n`, whose text starts at `s`, holds the bytes `a..b`.
pub open spec fn holds(n: Node, s: int, a: int, b: int) -> bool {
    s <= a && b <= s + n.text().len()
}

/// `n` holds the bytes `a..b` and none of its children does: it is the
/// deepest node that holds them.
pub open spec fn holds_deepest(n: Node, s: int, a: int, b: int) -> bool {
    &&& holds(n, s, a, b)
    &&& n is Internal ==> forall|i: int|
        0 <= i < n->children@.len() ==> !#[trigger] holds(
            child_of(n, i),
            s + prefix_len(n, i),
            a,
            b,
        )
}

/// `r` is the non-empty text `a..b` of `g`, taken from the deepest node
/// that holds those bytes, whose text starts at `a - r.offset()` in `g`; the
/// parts of the leaves it spans, at least one, join back into it.
pub open spec fn rooted_deepest(r: TreeSlice, g: Seq<u8>, a: int, b: int) -> bool {
    &&& a < b
    &&& placed(g, r.root_node(), a - r.offset())
    &&& holds_deepest(r.root_node(), a - r.offset(), a, b)
    &&& r@ == g.subrange(a, b)
    &&& joined(r.leaf_parts()) == r@
    &&& r.num_leaves() >= 1
}

/// A path from `root` down to `leaf`, whose text starts at `leaf_start`:
/// the stack of internal nodes it goes through, each with the index of the
/// child taken and where its text starts in `g`.
pub open spec fn path_parts_ok(
    g: Seq<u8>,
    root: Node,
    st: Seq<(&Node, usize)>,
    starts: Seq<int>,
    leaf: Node,
    leaf_start: int,
) -> bool {
    &&& chain_ok(g, root, st, starts)
    &&& reached(root, st, starts, leaf, leaf_start)
    &&& leaf is Leaf
    &&& placed(g, leaf, leaf_start)
}

/// The children's texts follow one another: the start of a later child is
/// no earlier than the start of an earlier one.
pub proof fn lemma_prefix_mono(n: Node, i: int, j: int)
    requires
        n.wf(),
        n is Internal,
        0 <= i <= j <= n->children@.len(),
    ensures
        prefix_len(n, i) <= prefix_len(n, j),
    decreases j - i,
{
    if i < j {
        assert(n.text().subrange(0, n.text().len() as int) =~= n.text());
        lemma_child_placed(n.text(), n, 0, j - 1);
        lemma_prefix_mono(n, i, j - 1);
    }
}

/// A byte lies in one child only.
pub proof fn lemma_only_child(n: Node, i: int, j: int, x: int)
    requires
        n.wf(),
        n is Internal,
        0 <= i < n->children@.len(),
        0 <= j < n->children@.len(),
        prefix_len(n, i) <= x < prefix_len(n, i + 1),
        prefix_len(n, j) <= x < prefix_len(n, j + 1),
    ensures
        i == j,
{
    if i < j {
        lemma_prefix_mono(n, i + 1, j);
    } else if j < i {
        lemma_prefix_mono(n, j + 1, i);
    }
}

/// A node that holds `a..b` is the deepest one when the child holding byte
/// `x` of that range does not hold it all.
pub proof fn lemma_deepest_by(n: Node, s: int, k: int, a: int, b: int, x: int)
    requires
        n.wf(),
        n is Internal,
        0 <= k < n->children@.len(),
        a <= x < b,
        holds(n, s, a, b),
        s + prefix_len(n, k) <= x < s + prefix_len(n, k + 1),
        !holds(child_of(n, k), s + prefix_len(n, k), a, b),
    ensures
        holds_deepest(n, s, a, b),
{
    assert(n.text().subrange(0, n.text().len() as int) =~= n.text());
    assert forall|i: int| 0 <= i < n->children@.len() implies !#[trigger] holds(
        child_of(n, i),
        s + prefix_len(n, i),
        a,
        b,
    ) by {
        lemma_child_placed(n.text(), n, 0, i);
        if holds(child_of(n, i), s + prefix_len(n, i), a, b) {
            lemma_child_placed(n.text(), n, 0, k);
            lemma_only_child(n, i, k, x - s);
        }
    }
}

/// Each node of a path holds, in the child the path takes, the whole text
/// of the leaf the path reaches.
pub proof fn lemma_path_nesting(
    g: Seq<u8>,
    root: Node,
    st: Seq<(&Node, usize)>,
    starts: Seq<int>,
    leaf: Node,
    leaf_start: int,
    k: int,
)
    requires
        path_parts_ok(g, root, st, starts, leaf, leaf_start),
        0 <= k < st.len(),
    ensures
        starts[k] + prefix_len(*st[k].0, st[k].1 as int) <= leaf_start,
        leaf_start + leaf.text().len() <= starts[k] + prefix_len(*st[k].0, st[k].1 + 1),
    decreases st.len() - k,
{
    reveal(chain_ok);
    assert(is_internal_at(st, k));
    lemma_child_placed(g, *st[k].0, starts[k], st[k].1 as int);
    if k == st.len() - 1 {
        assert(st[k] == st.last());
    } else {
        lemma_path_nesting(g, root, st, starts, leaf, leaf_start, k + 1);
        assert(is_internal_at(st, k + 1));
        assert(*st[k + 1].0 == child_of(*st[k].0, st[k].1 as int));
        lemma_child_placed(g, *st[k + 1].0, starts[k + 1], st[k + 1].1 as int);
    }
}

spec fn is_internal_at(st: Seq<(&Node, usize)>, k: int) -> bool {
    (*st[k].0) is Internal
}

/// The length of the text of the first `k` children of `node`.
pub fn prefix_bytes(node: &Node, k: usize) -> (r: usize)
    requires
        node.wf(),
        *node is Internal,
        k <= node->children@.len(),
        node.text().len() <= usize::MAX,
    ensures
        r == prefix_len(*node, k as int),
{
    match node {
        Node::Internal { children, .. } => {
            let ghost t = node.text();
            proof {
                assert(t.subrange(0, t.len() as int) =~= t);
                lemma_prefix_ends(*node);
            }
            let mut sum: usize = 0;
            let mut j: usize = 0;
            while j < k
                invariant
                    children@ == node->children@,
                    *node is Internal,
                    node.wf(),
                    t == node.text(),
                    placed(t, *node, 0),
                    t.len() <= usize::MAX,
                    k <= children@.len(),
                    j <= k,
                    sum == prefix_len(*node, j as int),
                decreases k - j,
            {
                proof {
                    lemma_child_placed(t, *node, 0, j as int);
                    lemma_wf_len(child_of(*node, j as int));
                }
                sum = sum + children[j].summary().bytes;
                j = j + 1;
            }
            sum
        },
        Node::Leaf { .. } => 0,
    }
}

/// The deepest node on a path that holds the bytes `a..b`, one of which,
/// `x`, lies in the leaf the path reaches; with where its text starts.
pub fn deepest_on_path<'a>(
    root: &'a Node,
    stack: &Vec<(&'a Node, usize)>,
    starts: Ghost<Seq<int>>,
    leaf: &'a Node,
    leaf_start: usize,
    a: usize,
    b: usize,
    x: Ghost<int>,
) -> (r: (&'a Node, usize))
    requires
        root.wf(),
        root.text().len() <= usize::MAX,
        path_parts_ok(root.text(), *root, stack@, starts@, *leaf, leaf_start as int),
        leaf_start <= x@ < leaf_start + leaf.text().len(),
        a <= x@ < b <= root.text().len(),
    ensures
        placed(root.text(), *r.0, r.1 as int),
        holds_deepest(*r.0, r.1 as int, a as int, b as int),
        leaf_start <= a && b <= leaf_start + leaf.text().len() ==> *r.0 == *leaf && r.1 == leaf_start,
{
    let ghost g = root.text();
    proof {
        lemma_wf_len(*leaf);
    }
    let leaf_end = leaf_start + leaf.summary().bytes;
    if leaf_start <= a && b <= leaf_end {
        return (leaf, leaf_start);
    }
    proof {
        reveal(chain_ok);
        if stack@.len() == 0 {
            assert(*leaf == *root);
            assert(false);
        }
        assert(is_internal_at(stack@, 0));
    }
    let n = stack.len();
    let mut k: usize = 0;
    let mut s: usize = 0;
    proof {
        assert(g.subrange(0, g.len() as int) =~= g);
    }
    loop
        invariant
            g == root.text(),
            g.len() <= usize::MAX,
            path_parts_ok(g, *root, stack@, starts@, *leaf, leaf_start as int),
            leaf_start <= x@ < leaf_start + leaf.text().len(),
            leaf_end == leaf_start + leaf.text().len(),
            a <= x@ < b <= g.len(),
            !(leaf_start <= a && b <= leaf_end),
            n == stack@.len(),
            k < n,
            s == starts@[k as int],
            placed(g, *stack@[k as int].0, s as int),
            holds(*stack@[k as int].0, s as int, a as int, b as int),
        decreases n - k,
    {
        let (node, idx) = stack[k];
        proof {
            reveal(chain_ok);
            assert(is_internal_at(stack@, k as int));
            lemma_wf_len(*node);
            lemma_child_placed(g, *node, s as int, idx as int);
            lemma_path_nesting(g, *root, stack@, starts@, *leaf, leaf_start as int, k as int);
        }
        let cs = s + prefix_bytes(node, idx);
        let clen = match node {
            Node::Internal { children, .. } => {
                proof {
                    lemma_wf_len(child_of(*node, idx as int));
                }
                children[idx].summary().bytes
            },
            Node::Leaf { .. } => 0,
        };
        if cs <= a && b <= cs + clen {
            if k + 1 == n {
                proof {
                    assert(stack@[k as int] == stack@.last());
                }
                return (leaf, leaf_start);
            }
            proof {
                assert(*stack@[k + 1].0 == child_of(*node, idx as int));
                assert(is_internal_at(stack@, k + 1));
            }
            k = k + 1;
            s = cs;
        } else {
            proof {
                lemma_deepest_by(*node, s as int, idx as int, a as int, b as int, x@);
            }
            return (node, s);
        }
    }
}

} // verus!
