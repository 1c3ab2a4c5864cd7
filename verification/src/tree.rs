//! Traversals of a [`SyntaxTree`].
use vstd::prelude::*;

use crate::syntax::SyntaxTree;

verus! {

/// Node `k` is reached by a preorder walk from `root` that descends into a node's children only
/// where `descend` holds for the node: it lies under `root`, and every ancestor of it from `root`
/// down descends.
pub open spec fn visited(t: &SyntaxTree, root: int, descend: Seq<bool>, k: int) -> bool {
    &&& root <= k < t.end(root)
    &&& forall|a: int| root <= a < k && k < #[trigger] t.end(a) ==> descend[a]
}

/// The nodes before `p` that the walk from `root` visits, in preorder.
pub open spec fn visited_before(t: &SyntaxTree, root: int, descend: Seq<bool>, p: int) -> Seq<usize>
    decreases p - root,
{
    if p <= root {
        seq![]
    } else if visited(t, root, descend, p - 1) {
        visited_before(t, root, descend, p - 1).push((p - 1) as usize)
    } else {
        visited_before(t, root, descend, p - 1)
    }
}

/// The nodes that the walk from `root` visits, in preorder.
pub open spec fn walk_order(t: &SyntaxTree, root: int, descend: Seq<bool>) -> Seq<usize> {
    visited_before(t, root, descend, t.end(root))
}

/// The visited nodes before `p` are visited nodes below `p`, in increasing order.
pub proof fn lemma_visited_before(t: &SyntaxTree, root: int, descend: Seq<bool>, p: int)
    requires
        0 <= root,
    ensures
        forall|k: int|
            0 <= k < visited_before(t, root, descend, p).len() ==> root <= #[trigger] visited_before(
                t,
                root,
                descend,
                p,
            )[k] < p && visited(t, root, descend, visited_before(t, root, descend, p)[k] as int),
        forall|j: int, k: int|
            0 <= j < k < visited_before(t, root, descend, p).len() ==> visited_before(
                t,
                root,
                descend,
                p,
            )[j] < visited_before(t, root, descend, p)[k],
    decreases p - root,
{
    if p > root {
        lemma_visited_before(t, root, descend, p - 1);
        let prev = visited_before(t, root, descend, p - 1);
        let all = visited_before(t, root, descend, p);
        if visited(t, root, descend, p - 1) {
            assert(p - 1 < t.end(root));
            assert(((p - 1) as usize) as int == p - 1);
            assert(all == prev.push((p - 1) as usize));
            assert forall|k: int| 0 <= k < all.len() implies root <= #[trigger] all[k] < p
                && visited(t, root, descend, all[k] as int) by {
                if k < prev.len() {
                    assert(all[k] == prev[k]);
                }
            }
            assert forall|j: int, k: int| 0 <= j < k < all.len() implies all[j] < all[k] by {
                assert(all[j] == prev[j]);
                if k < prev.len() {
                    assert(all[k] == prev[k]);
                }
            }
        }
    }
}

proof fn lemma_skip_subtree(t: &SyntaxTree, root: int, descend: Seq<bool>, p: int, q: int)
    requires
        t.wf_shape(),
        0 <= root <= p < q <= t.end(p),
        t.end(p) <= t.end(root),
        !descend[p],
    ensures
        visited_before(t, root, descend, q) == visited_before(t, root, descend, p + 1),
    decreases q - p,
{
    if q > p + 1 {
        lemma_skip_subtree(t, root, descend, p, q - 1);
        assert(!visited(t, root, descend, q - 1)) by {
            assert(p < q - 1 < t.end(p));
        }
    }
}

/// The nodes under `root` (itself included) that a preorder walk visits when it descends into a
/// node's children only where `descend` holds for the node. The walk iterates rather than
/// recursing, so deeply nested trees need no deep stack.
pub fn walk(tree: &SyntaxTree, root: usize, descend: &Vec<bool>) -> (order: Vec<usize>)
    requires
        tree.wf_shape(),
        root < tree.len(),
        descend@.len() == tree.len(),
    ensures
        order@ == walk_order(tree, root as int, descend@),
{
    let stop = tree.nodes[root].subtree_end;
    proof {
        assert(root < tree.end(root as int));
    }
    let mut order: Vec<usize> = Vec::new();
    let mut p = root;
    while p < stop
        invariant
            tree.wf_shape(),
            root < tree.len(),
            descend@.len() == tree.len(),
            stop == tree.end(root as int),
            root <= p <= stop,
            p < stop ==> visited(tree, root as int, descend@, p as int),
            order@ == visited_before(tree, root as int, descend@, p as int),
        decreases stop - p,
    {
        order.push(p);
        proof {
            assert(tree.end(p as int) <= stop) by {
                if p > root {
                    assert(root < p < tree.end(root as int));
                }
            }
        }
        if descend[p] {
            proof {
                if p + 1 < stop {
                    assert forall|a: int|
                        root <= a < p + 1 && p + 1 < #[trigger] tree.end(a) implies descend@[a] by {
                        if a < p {
                            assert(p < tree.end(a));
                        }
                    }
                }
            }
            p = p + 1;
        } else {
            let q = tree.nodes[p].subtree_end;
            proof {
                lemma_skip_subtree(tree, root as int, descend@, p as int, q as int);
                if q < stop {
                    assert forall|a: int|
                        root <= a < q && q < #[trigger] tree.end(a) implies descend@[a] by {
                        if a > p {
                            assert(tree.end(a) <= tree.end(p as int));
                        } else if a < p {
                            assert(p < tree.end(a));
                        }
                    }
                }
            }
            p = q;
        }
    }
    order
}

/// The nearest code sibling at or before `s`: the first node of the chain of previous siblings
/// from `s` that is not an extra.
pub open spec fn code_at_or_before(t: &SyntaxTree, s: Option<usize>) -> Option<usize>
    decreases (match s {
        Some(x) => x + 1,
        None => 0,
    }),
{
    match s {
        None => None,
        Some(x) => if x >= t.len() {
            None
        } else if !t.nodes@[x as int].is_extra {
            Some(x)
        } else {
            match t.nodes@[x as int].prev_sibling {
                Some(y) => if y < x {
                    code_at_or_before(t, Some(y))
                } else {
                    None
                },
                None => None,
            }
        },
    }
}

/// The nearest code sibling at or after `s`: the first node of the chain of next siblings from
/// `s` that is not an extra.
pub open spec fn code_at_or_after(t: &SyntaxTree, s: Option<usize>) -> Option<usize>
    decreases (match s {
        Some(x) => t.len() - x,
        None => 0,
    }),
{
    match s {
        None => None,
        Some(x) => if x >= t.len() {
            None
        } else if !t.nodes@[x as int].is_extra {
            Some(x)
        } else {
            match t.next_sibling_of(x as int) {
                Some(y) => if x < y < t.len() {
                    code_at_or_after(t, Some(y))
                } else {
                    None
                },
                None => None,
            }
        },
    }
}

/// The nearest earlier sibling that is not an extra such as a comment, which is not code.
pub fn prev_code_sibling(tree: &SyntaxTree, node: usize) -> (r: Option<usize>)
    requires
        tree.wf_shape(),
        node < tree.len(),
    ensures
        r == code_at_or_before(tree, tree.nodes@[node as int].prev_sibling),
{
    let mut cur = tree.nodes[node].prev_sibling;
    while cur.is_some()
        invariant
            tree.wf_shape(),
            code_at_or_before(tree, tree.nodes@[node as int].prev_sibling) == code_at_or_before(
                tree,
                cur,
            ),
            cur matches Some(x) ==> x < tree.len(),
        decreases (match cur {
            Some(x) => x + 1,
            None => 0,
        }),
    {
        let x = cur.unwrap();
        if !tree.nodes[x].is_extra {
            return Some(x);
        }
        cur = tree.nodes[x].prev_sibling;
    }
    None
}

/// The nearest later sibling that is not an extra such as a comment, which is not code.
pub fn next_code_sibling(tree: &SyntaxTree, node: usize) -> (r: Option<usize>)
    requires
        tree.wf_shape(),
        node < tree.len(),
    ensures
        r == code_at_or_after(tree, tree.next_sibling_of(node as int)),
{
    let mut cur = tree.next_sibling(node);
    while cur.is_some()
        invariant
            tree.wf_shape(),
            code_at_or_after(tree, tree.next_sibling_of(node as int)) == code_at_or_after(tree, cur),
            cur matches Some(x) ==> x < tree.len(),
        decreases (match cur {
            Some(x) => tree.len() - x,
            None => 0,
        }),
    {
        let x = cur.unwrap();
        if !tree.nodes[x].is_extra {
            return Some(x);
        }
        let next = tree.next_sibling(x);
        proof {
            if let Some(y) = next {
                let p = tree.parent_ix(x as int);
                assert(x < tree.end(x as int));
            }
        }
        cur = next;
    }
    None
}

} // verus!
