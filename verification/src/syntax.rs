//! A syntax tree held as plain values: the nodes in preorder, each with the end of its subtree.
use vstd::prelude::*;
use vstd::string::*;
use vstd::utf8::*;

use crate::sitter;
use crate::sitter::{
    GrammarId, descendants_at, depth_at, end_at, error_at, extra_at, field_at, has_error_at, kind_at,
    missing_at, named_at, start_at,
};
use crate::text::{is_boundary, substr, str_eq, text_of};

verus! {

/// The most nodes a tree may have: tree-sitter counts the nodes of a tree in a `u32`.
pub const MAX_NODES: usize = 0xFFFF_FFFF;

/// A node as tree-sitter reports it, placed in the preorder of its tree.
pub struct SyntaxNode {
    /// The grammar's name for the node (`Node::kind`).
    pub kind: String,
    /// The field under which the node is a child of its parent.
    pub field_name: Option<String>,
    pub is_named: bool,
    /// Not required by the grammar, such as a comment.
    pub is_extra: bool,
    pub is_error: bool,
    pub is_missing: bool,
    /// The node is or holds a syntax error.
    pub has_error: bool,
    pub start_byte: usize,
    pub end_byte: usize,
    /// The preorder index of the parent.
    pub parent: Option<usize>,
    /// The preorder index of the previous sibling.
    pub prev_sibling: Option<usize>,
    /// The index just after the node's last descendant.
    pub subtree_end: usize,
}

/// The end of the subtree of node `i`.
pub open spec fn end_of(nodes: Seq<SyntaxNode>, i: int) -> int {
    nodes[i].subtree_end as int
}

/// The index of the parent of node `i`, or -1 for the root.
pub open spec fn parent_of(nodes: Seq<SyntaxNode>, i: int) -> int {
    match nodes[i].parent {
        Some(p) => p as int,
        None => -1,
    }
}

/// The links between the nodes, those of a preorder: subtrees are nested intervals, a node's
/// parent is its nearest ancestor, and a node's previous sibling is the child of the same parent
/// whose subtree ends where the node starts.
pub open spec fn links_ok(nodes: Seq<SyntaxNode>) -> bool {
    let n = nodes.len() as int;
    &&& forall|i: int, k: int|
        #![trigger end_of(nodes, i), end_of(nodes, k)]
        0 <= i < k < end_of(nodes, i) && k < n ==> end_of(nodes, k) <= end_of(nodes, i)
    &&& forall|k: int|
        0 < k < n ==> {
            let p = #[trigger] parent_of(nodes, k);
            0 <= p < k < end_of(nodes, p)
        }
    &&& forall|a: int, k: int|
        #![trigger end_of(nodes, a), parent_of(nodes, k)]
        0 <= a < k < n && k < end_of(nodes, a) ==> a <= parent_of(nodes, k)
    &&& forall|k: int|
        #![trigger nodes[k].prev_sibling]
        0 <= k < n ==> match nodes[k].prev_sibling {
            Some(s) => s < k && end_of(nodes, s as int) == k && parent_of(nodes, s as int)
                == parent_of(nodes, k),
            None => k > 0 ==> parent_of(nodes, k) == k - 1,
        }
}

/// The nodes form a tree in preorder.
pub open spec fn shape_ok(nodes: Seq<SyntaxNode>) -> bool {
    let n = nodes.len() as int;
    &&& 0 < n <= MAX_NODES
    &&& nodes[0].parent is None
    &&& nodes[0].prev_sibling is None
    &&& end_of(nodes, 0) == n
    &&& forall|i: int| 0 <= i < n ==> i < #[trigger] end_of(nodes, i) <= n
    &&& links_ok(nodes)
}

/// Each node spans characters of `source`.
pub open spec fn text_ok(nodes: Seq<SyntaxNode>, source: &str) -> bool {
    &&& source.spec_bytes().len() <= usize::MAX
    &&& forall|i: int|
        0 <= i < nodes.len() ==> {
            let node = #[trigger] nodes[i];
            &&& node.start_byte <= node.end_byte <= source.spec_bytes().len()
            &&& is_boundary(source, node.start_byte as int)
            &&& is_boundary(source, node.end_byte as int)
        }
}

/// The byte ranges follow the preorder: starts never decrease, and a node ends before the node
/// after its subtree starts.
#[verifier::opaque]
pub open spec fn order_ok(nodes: Seq<SyntaxNode>) -> bool {
    let n = nodes.len() as int;
    &&& forall|k: int| 0 < k < n ==> nodes[k - 1].start_byte <= #[trigger] nodes[k].start_byte
    &&& forall|i: int|
        0 <= i < n && end_of(nodes, i) < n ==> #[trigger] nodes[i].end_byte <= nodes[end_of(
            nodes,
            i,
        )].start_byte
}

/// The nodes of a syntax tree in preorder; `nodes[0]` is the root.
pub struct SyntaxTree {
    pub nodes: Vec<SyntaxNode>,
}

impl SyntaxTree {
    pub open spec fn len(&self) -> int {
        self.nodes@.len() as int
    }

    pub open spec fn end(&self, i: int) -> int {
        end_of(self.nodes@, i)
    }

    /// The parent's index, or -1 for the root.
    pub open spec fn parent_ix(&self, i: int) -> int {
        parent_of(self.nodes@, i)
    }

    /// The shape of a preorder: subtrees are nested intervals, each node's parent is its nearest
    /// ancestor, and a previous sibling ends where the node starts.
    pub open spec fn wf_shape(&self) -> bool {
        shape_ok(self.nodes@)
    }

    /// Each node spans characters of `source`.
    pub open spec fn wf_text(&self, source: &str) -> bool {
        text_ok(self.nodes@, source)
    }

    /// The byte ranges follow the preorder.
    pub open spec fn wf_order(&self) -> bool {
        order_ok(self.nodes@)
    }

    pub open spec fn wf(&self, source: &str) -> bool {
        self.wf_shape() && self.wf_text(source) && self.wf_order()
    }

    pub open spec fn kind(&self, i: int) -> Seq<char> {
        self.nodes@[i].kind@
    }

    /// The node is a child under the field `name`.
    pub open spec fn has_field(&self, i: int, name: Seq<char>) -> bool {
        self.nodes@[i].field_name matches Some(f) && f@ == name
    }

    /// The siblings from `c` on that start before `stop`.
    pub open spec fn chain(&self, c: int, stop: int) -> Seq<usize>
        decreases stop - c,
    {
        if c < 0 || c >= stop || c >= self.len() {
            seq![]
        } else if self.end(c) <= c || self.end(c) >= stop {
            seq![c as usize]
        } else {
            seq![c as usize] + self.chain(self.end(c), stop)
        }
    }

    /// The children of `p`, in order.
    pub open spec fn children(&self, p: int) -> Seq<usize> {
        self.chain(p + 1, self.end(p))
    }

    /// The sibling after `i`.
    pub open spec fn next_sibling_of(&self, i: int) -> Option<usize> {
        let p = self.parent_ix(i);
        if p >= 0 && self.end(i) < self.end(p) {
            Some(self.end(i) as usize)
        } else {
            None
        }
    }

    pub proof fn lemma_chain_unfold(&self, c: int, stop: int)
        requires
            self.wf_shape(),
            0 <= c < stop,
            c < self.len(),
        ensures
            self.chain(c, stop) == seq![c as usize] + self.chain(self.end(c), stop),
    {
        assert(c < self.end(c));
        if self.end(c) >= stop {
            assert(self.chain(self.end(c), stop) == Seq::<usize>::empty());
            assert(seq![c as usize] + Seq::<usize>::empty() =~= seq![c as usize]);
        }
    }

}

impl SyntaxTree {
    /// The first node of `s` that is a child under the field `name`.
    pub open spec fn first_with_field(&self, s: Seq<usize>, name: Seq<char>) -> Option<usize>
        decreases s.len(),
    {
        if s.len() == 0 {
            None
        } else if self.has_field(s[0] as int, name) {
            Some(s[0])
        } else {
            self.first_with_field(s.drop_first(), name)
        }
    }

    /// The first named node of `s`.
    pub open spec fn first_named(&self, s: Seq<usize>) -> Option<usize>
        decreases s.len(),
    {
        if s.len() == 0 {
            None
        } else if self.nodes@[s[0] as int].is_named {
            Some(s[0])
        } else {
            self.first_named(s.drop_first())
        }
    }

    /// The nodes of a chain lie between its start and its stop.
    pub proof fn lemma_chain_bounds(&self, c: int, stop: int)
        requires
            self.len() <= MAX_NODES,
        ensures
            forall|k: int|
                0 <= k < self.chain(c, stop).len() ==> c <= #[trigger] self.chain(c, stop)[k] < stop
                    && self.chain(c, stop)[k] < self.len(),
        decreases stop - c,
    {
        if 0 <= c < stop && c < self.len() {
            if c < self.end(c) < stop {
                self.lemma_chain_bounds(self.end(c), stop);
                let rest = self.chain(self.end(c), stop);
                let all = self.chain(c, stop);
                assert(all == seq![c as usize] + rest);
                assert forall|k: int| 0 <= k < all.len() implies c <= #[trigger] all[k] < stop
                    && all[k] < self.len() by {
                    if k > 0 {
                        assert(all[k] == rest[k - 1]);
                    }
                }
            } else {
                assert(self.chain(c, stop) == seq![c as usize]);
            }
        }
    }

    /// The children of `p` lie in its subtree.
    pub proof fn lemma_children_bounds(&self, p: int)
        requires
            self.wf_shape(),
            0 <= p < self.len(),
        ensures
            forall|k: int|
                0 <= k < self.children(p).len() ==> p < #[trigger] self.children(p)[k] < self.end(p)
                    && self.children(p)[k] < self.len(),
    {
        self.lemma_chain_bounds(p + 1, self.end(p));
    }

    pub proof fn lemma_first_found(&self, s: Seq<usize>, name: Seq<char>)
        ensures
            self.first_named(s) matches Some(x) ==> s.contains(x),
            self.first_with_field(s, name) matches Some(x) ==> s.contains(x),
        decreases s.len(),
    {
        if s.len() > 0 {
            self.lemma_first_found(s.drop_first(), name);
            if let Some(x) = self.first_named(s.drop_first()) {
                let k = choose|k: int| 0 <= k < s.drop_first().len() && s.drop_first()[k] == x;
                assert(s[k + 1] == x);
            }
            if let Some(x) = self.first_with_field(s.drop_first(), name) {
                let k = choose|k: int| 0 <= k < s.drop_first().len() && s.drop_first()[k] == x;
                assert(s[k + 1] == x);
            }
        }
    }

    pub proof fn lemma_first_cons(&self, c: usize, rest: Seq<usize>, name: Seq<char>)
        ensures
            self.first_with_field(seq![c] + rest, name) == if self.has_field(c as int, name) {
                Some(c)
            } else {
                self.first_with_field(rest, name)
            },
            self.first_named(seq![c] + rest) == if self.nodes@[c as int].is_named {
                Some(c)
            } else {
                self.first_named(rest)
            },
    {
        assert((seq![c] + rest).drop_first() =~= rest);
    }
}

impl SyntaxTree {
    /// The first child of `p` that satisfies `pred`, of the children `chain(c, end(p))` that
    /// remain from `c` on.
    proof fn lemma_chain_step(&self, p: int, c: int)
        requires
            self.wf_shape(),
            0 <= p < self.len(),
            p < c < self.end(p),
        ensures
            self.end(c) <= self.end(p),
            c < self.end(c),
            self.chain(c, self.end(p)) == seq![c as usize] + self.chain(self.end(c), self.end(p)),
    {
        self.lemma_chain_unfold(c, self.end(p));
    }

    /// The parent and the previous sibling of a node come before it, and only the root has no
    /// parent.
    pub proof fn lemma_links(&self, i: int)
        requires
            self.wf_shape(),
            0 <= i < self.len(),
        ensures
            self.nodes@[i].parent matches Some(p) ==> p < i,
            self.nodes@[i].parent is None <==> i == 0,
            self.nodes@[i].prev_sibling matches Some(s) ==> s < i,
            i < self.end(i) <= self.len(),
    {
        if i > 0 {
            assert(0 <= parent_of(self.nodes@, i) < i);
        }
        assert(self.nodes@[i].prev_sibling == self.nodes@[i].prev_sibling);
    }

    /// The children of `p`, in order.
    pub fn children_of(&self, p: usize) -> (r: Vec<usize>)
        requires
            self.wf_shape(),
            p < self.len(),
        ensures
            r@ == self.children(p as int),
            forall|k: int| 0 <= k < r@.len() ==> p < #[trigger] r@[k] < self.end(p as int) && r@[k] < self.len(),
    {
        let stop = self.nodes[p].subtree_end;
        let mut kids: Vec<usize> = Vec::new();
        let mut c = p + 1;
        proof {
            self.lemma_children_bounds(p as int);
            self.lemma_links(p as int);
        }
        while c < stop
            invariant
                self.wf_shape(),
                p < self.len(),
                stop == self.end(p as int),
                stop <= self.len(),
                p < c <= stop,
                kids@ + self.chain(c as int, stop as int) == self.children(p as int),
            decreases stop - c,
        {
            proof {
                self.lemma_chain_step(p as int, c as int);
                assert(kids@.push(c) + self.chain(self.end(c as int), stop as int) =~= kids@ + self.chain(
                    c as int,
                    stop as int,
                ));
            }
            kids.push(c);
            c = self.nodes[c].subtree_end;
        }
        proof {
            assert(kids@ + self.chain(c as int, stop as int) =~= kids@);
        }
        kids
    }

    /// The first child of `p` under the field `name` (`Node::child_by_field_name`).
    pub fn child_by_field_name(&self, p: usize, name: &str) -> (r: Option<usize>)
        requires
            self.wf_shape(),
            p < self.len(),
        ensures
            r == self.first_with_field(self.children(p as int), name@),
            r matches Some(c) ==> p < c < self.end(p as int) && c < self.len(),
    {
        proof {
            self.lemma_children_bounds(p as int);
            self.lemma_first_found(self.children(p as int), name@);
        }
        let stop = self.nodes[p].subtree_end;
        let mut c = p + 1;
        while c < stop
            invariant
                self.wf_shape(),
                p < self.len(),
                stop == self.end(p as int),
                p < c <= stop,
                self.first_with_field(self.children(p as int), name@) == self.first_with_field(
                    self.chain(c as int, stop as int),
                    name@,
                ),
            decreases stop - c,
        {
            proof {
                self.lemma_chain_step(p as int, c as int);
                self.lemma_first_cons(c, self.chain(self.end(c as int), stop as int), name@);
            }
            let found = match &self.nodes[c].field_name {
                Some(f) => str_eq(f.as_str(), name),
                None => false,
            };
            if found {
                return Some(c);
            }
            c = self.nodes[c].subtree_end;
        }
        None
    }

    /// The first named child of `p` (`Node::named_child(0)`).
    pub fn first_named_child(&self, p: usize) -> (r: Option<usize>)
        requires
            self.wf_shape(),
            p < self.len(),
        ensures
            r == self.first_named(self.children(p as int)),
            r matches Some(c) ==> p < c < self.end(p as int) && c < self.len(),
    {
        proof {
            self.lemma_children_bounds(p as int);
            self.lemma_first_found(self.children(p as int), Seq::empty());
        }
        let stop = self.nodes[p].subtree_end;
        let mut c = p + 1;
        while c < stop
            invariant
                self.wf_shape(),
                p < self.len(),
                stop == self.end(p as int),
                p < c <= stop,
                self.first_named(self.children(p as int)) == self.first_named(
                    self.chain(c as int, stop as int),
                ),
            decreases stop - c,
        {
            proof {
                self.lemma_chain_step(p as int, c as int);
                self.lemma_first_cons(c, self.chain(self.end(c as int), stop as int), Seq::empty());
            }
            if self.nodes[c].is_named {
                return Some(c);
            }
            c = self.nodes[c].subtree_end;
        }
        None
    }

    /// The first child of `p` (`Node::child(0)`).
    pub fn first_child(&self, p: usize) -> (r: Option<usize>)
        requires
            self.wf_shape(),
            p < self.len(),
        ensures
            r == (if self.children(p as int).len() > 0 {
                Some(self.children(p as int)[0])
            } else {
                None
            }),
    {
        let stop = self.nodes[p].subtree_end;
        if p + 1 < stop {
            proof {
                self.lemma_chain_step(p as int, p + 1);
            }
            Some(p + 1)
        } else {
            None
        }
    }

    /// The sibling after `i` (`Node::next_sibling`).
    pub fn next_sibling(&self, i: usize) -> (r: Option<usize>)
        requires
            self.wf_shape(),
            i < self.len(),
        ensures
            r == self.next_sibling_of(i as int),
            r matches Some(x) ==> i < x < self.len(),
    {
        proof {
            self.lemma_links(i as int);
        }
        match self.nodes[i].parent {
            Some(p) => {
                proof {
                    assert(self.parent_ix(i as int) == p);
                }
                if self.nodes[i].subtree_end < self.nodes[p].subtree_end {
                    Some(self.nodes[i].subtree_end)
                } else {
                    None
                }
            },
            None => None,
        }
    }

    /// The text of node `i` (`&source[node.byte_range()]`).
    pub fn node_text<'a>(&self, source: &'a str, i: usize) -> (r: &'a str)
        requires
            self.wf(source),
            i < self.len(),
        ensures
            r@ == text_of(source, self.nodes@[i as int].start_byte as int, self.nodes@[i as int].end_byte as int),
            r.spec_bytes() == source.spec_bytes().subrange(
                self.nodes@[i as int].start_byte as int,
                self.nodes@[i as int].end_byte as int,
            ),
    {
        let node = &self.nodes[i];
        substr(source, node.start_byte, node.end_byte)
    }
}

impl SyntaxTree {
    /// Whether the byte ranges follow the preorder, as tree-sitter's nodes do.
    pub fn check_order(&self) -> (r: bool)
        requires
            self.wf_shape(),
        ensures
            r == self.wf_order(),
    {
        reveal(order_ok);
        let n = self.nodes.len();
        let mut k: usize = 0;
        while k < n
            invariant
                self.wf_shape(),
                n == self.len(),
                k <= n,
                forall|j: int| 0 < j < k ==> self.nodes@[j - 1].start_byte <= #[trigger] self.nodes@[j].start_byte,
                forall|i: int|
                    0 <= i < k && end_of(self.nodes@, i) < n ==> #[trigger] self.nodes@[i].end_byte
                        <= self.nodes@[end_of(self.nodes@, i)].start_byte,
            decreases n - k,
        {
            if k > 0 && self.nodes[k - 1].start_byte > self.nodes[k].start_byte {
                proof {
                    reveal(order_ok);
                    assert(!(self.nodes@[k - 1].start_byte <= self.nodes@[k as int].start_byte));
                }
                return false;
            }
            let e = self.nodes[k].subtree_end;
            if e < n && self.nodes[k].end_byte > self.nodes[e].start_byte {
                proof {
                    reveal(order_ok);
                    assert(!(self.nodes@[k as int].end_byte <= self.nodes@[end_of(
                        self.nodes@,
                        k as int,
                    )].start_byte));
                }
                return false;
            }
            k = k + 1;
        }
        true
    }
}

// ---------------------------------------------------------------------------------------------
// Reading a tree of tree-sitter
/// Every node ends after itself, within the nodes read so far unless its subtree is still open,
/// which `usize::MAX` marks.
#[verifier::opaque]
pub open spec fn ends_ok(nodes: Seq<SyntaxNode>) -> bool {
    let n = nodes.len() as int;
    forall|i: int|
        0 <= i < n ==> i < #[trigger] end_of(nodes, i) && (end_of(nodes, i) <= n || end_of(nodes, i)
            == usize::MAX)
}

/// `open` lists, from the root down, the nodes whose subtrees are still open; all others are
/// closed.
#[verifier::opaque]
pub open spec fn stack_ok(nodes: Seq<SyntaxNode>, open: Seq<usize>) -> bool {
    let n = nodes.len() as int;
    let m = open.len() as int;
    &&& (m == 0 <==> n == 0)
    &&& n > 0 ==> open[0] == 0
    &&& forall|j: int| 0 <= j < m ==> #[trigger] open[j] < n
    &&& forall|j: int, k: int| 0 <= j < k < m ==> open[j] < open[k]
    &&& forall|j: int| 0 <= j < m ==> end_of(nodes, #[trigger] open[j] as int) == usize::MAX
    &&& forall|j: int| 0 < j < m ==> parent_of(nodes, #[trigger] open[j] as int) == open[j - 1]
    &&& forall|j: int, k: int|
        #![trigger open[j], end_of(nodes, k)]
        0 <= j < m - 1 && open[j] < k < open[j + 1] ==> end_of(nodes, k) <= n
    &&& forall|k: int| m > 0 && open[m - 1] < k < n ==> #[trigger] end_of(nodes, k) <= n
}

/// The nodes read so far form the start of a preorder, with `open` the nodes still being read.
pub open spec fn reading(nodes: Seq<SyntaxNode>, open: Seq<usize>) -> bool {
    &&& nodes.len() <= MAX_NODES
    &&& nodes.len() > 0 ==> nodes[0].parent is None && nodes[0].prev_sibling is None
    &&& ends_ok(nodes)
    &&& stack_ok(nodes, open)
    &&& links_ok(nodes)
}

/// `last` is the last closed child of the innermost open node, or `None` when that node has no
/// child yet.
pub open spec fn last_child_ok(nodes: Seq<SyntaxNode>, open: Seq<usize>, last: Option<usize>) -> bool {
    if nodes.len() == 0 {
        last is None
    } else {
        match last {
            Some(c) => c < nodes.len() && end_of(nodes, c as int) == nodes.len()
                && nodes[c as int].parent == Some(open.last()),
            None => nodes.len() == open.last() + 1,
        }
    }
}

proof fn lemma_reading_start()
    ensures
        reading(Seq::<SyntaxNode>::empty(), Seq::<usize>::empty()),
{
    reveal(ends_ok);
    reveal(stack_ok);
}

proof fn lemma_stack_facts(nodes: Seq<SyntaxNode>, open: Seq<usize>)
    requires
        stack_ok(nodes, open),
    ensures
        open.len() == 0 <==> nodes.len() == 0,
        open.len() > 0 ==> open.last() < nodes.len() && end_of(nodes, open.last() as int)
            == usize::MAX,
        open.len() > 1 ==> parent_of(nodes, open.last() as int) == open[open.len() - 2],
        open.len() == 1 ==> open.last() == 0,
{
    reveal(stack_ok);
    if open.len() > 0 {
        assert(open[open.len() - 1] < nodes.len());
    }
}

/// Appending a node under the innermost open node keeps the preorder.
proof fn lemma_push_ends(before: Seq<SyntaxNode>, nodes: Seq<SyntaxNode>)
    requires
        ends_ok(before),
        nodes.len() == before.len() + 1,
        forall|i: int| 0 <= i < before.len() ==> nodes[i] == before[i],
        nodes.last().subtree_end == usize::MAX,
        before.len() < usize::MAX,
    ensures
        ends_ok(nodes),
{
    reveal(ends_ok);
    let n = before.len() as int;
    assert forall|i: int| 0 <= i < n + 1 implies i < #[trigger] end_of(nodes, i) && (end_of(
        nodes,
        i,
    ) <= n + 1 || end_of(nodes, i) == usize::MAX) by {
        if i < n {
            assert(nodes[i] == before[i]);
            assert(i < end_of(before, i));
        }
    }
}

#[verifier::spinoff_prover]
#[verifier::rlimit(40)]
proof fn lemma_push_stack(
    before: Seq<SyntaxNode>,
    open_before: Seq<usize>,
    nodes: Seq<SyntaxNode>,
    open: Seq<usize>,
)
    requires
        stack_ok(before, open_before),
        before.len() < MAX_NODES,
        nodes.len() == before.len() + 1,
        forall|i: int| 0 <= i < before.len() ==> nodes[i] == before[i],
        open == open_before.push(before.len() as usize),
        nodes.last().subtree_end == usize::MAX,
        nodes.last().parent == if open_before.len() == 0 {
            None
        } else {
            Some(open_before.last())
        },
    ensures
        stack_ok(nodes, open),
{
    reveal(stack_ok);
    let n = before.len() as int;
    let m = open_before.len() as int;
    assert forall|i: int| 0 <= i < n implies end_of(nodes, i) == end_of(before, i) && parent_of(
        nodes,
        i,
    ) == parent_of(before, i) by {
        assert(nodes[i] == before[i]);
    }
    if n > 0 {
        assert(open[0] == open_before[0]);
    }
    assert forall|j: int, k: int|
        #![trigger open[j], end_of(nodes, k)]
        0 <= j < open.len() - 1 && open[j] < k < open[j + 1] implies end_of(nodes, k) <= n + 1 by {
        if j == open.len() - 2 {
            assert(open[j] == open_before[m - 1]);
            assert(end_of(before, k) <= n);
        } else {
            assert(open[j] == open_before[j]);
            assert(open[j + 1] == open_before[j + 1]);
            assert(end_of(before, k) <= n);
        }
    }
    assert forall|j: int| 0 <= j < open.len() implies end_of(nodes, #[trigger] open[j] as int)
        == usize::MAX by {
        if j < open.len() - 1 {
            assert(open[j] == open_before[j]);
            assert(open_before[j] < n);
            assert(nodes[open[j] as int] == before[open[j] as int]);
        } else {
            assert(open[j] == n);
            assert(nodes[n] == nodes.last());
        }
    }
    assert forall|j: int| 0 < j < open.len() implies parent_of(nodes, #[trigger] open[j] as int)
        == open[j - 1] by {
        if j < open.len() - 1 {
            assert(open[j] == open_before[j]);
            assert(open[j - 1] == open_before[j - 1]);
            assert(open_before[j] < n);
            assert(nodes[open[j] as int] == before[open[j] as int]);
        } else {
            assert(open[j - 1] == open_before[m - 1]);
            assert(open[j] == n);
            assert(nodes[n] == nodes.last());
        }
    }
    assert forall|j: int, k: int| 0 <= j < k < open.len() implies open[j] < open[k] by {
        assert(open[j] == open_before[j]);
        if k < open.len() - 1 {
            assert(open[k] == open_before[k]);
        }
    }
    assert forall|j: int| 0 <= j < open.len() implies #[trigger] open[j] < n + 1 by {
        if j < open.len() - 1 {
            assert(open[j] == open_before[j]);
        }
    }
}

#[verifier::spinoff_prover]
#[verifier::rlimit(40)]
proof fn lemma_push_links(before: Seq<SyntaxNode>, open_before: Seq<usize>, nodes: Seq<SyntaxNode>)
    requires
        links_ok(before),
        ends_ok(before),
        stack_ok(before, open_before),
        before.len() < MAX_NODES,
        nodes.len() == before.len() + 1,
        forall|i: int| 0 <= i < before.len() ==> nodes[i] == before[i],
        nodes.last().subtree_end == usize::MAX,
        nodes.last().parent == if open_before.len() == 0 {
            None
        } else {
            Some(open_before.last())
        },
        last_child_ok(before, open_before, nodes.last().prev_sibling),
    ensures
        links_ok(nodes),
{
    let n = before.len() as int;
    let m = open_before.len() as int;
    assert forall|i: int| 0 <= i < n implies end_of(nodes, i) == end_of(before, i) && parent_of(
        nodes,
        i,
    ) == parent_of(before, i) && nodes[i].prev_sibling == before[i].prev_sibling by {
        assert(nodes[i] == before[i]);
    }
    lemma_stack_facts(before, open_before);
    // The open nodes are the ancestors of the new node, and the innermost one is the last.
    assert forall|a: int| 0 <= a < n && n < end_of(before, a) implies a <= open_before.last() by {
        reveal(ends_ok);
        reveal(stack_ok);
        assert(end_of(before, a) == usize::MAX);
        if a > open_before[m - 1] {
            assert(end_of(before, a) <= n);
        }
    }
    assert forall|i: int, k: int|
        #![trigger end_of(nodes, i), end_of(nodes, k)]
        0 <= i < k < end_of(nodes, i) && k < n + 1 implies end_of(nodes, k) <= end_of(nodes, i) by {
        if k == n {
            reveal(ends_ok);
            assert(end_of(before, i) <= n || end_of(before, i) == usize::MAX);
        } else {
            assert(end_of(before, k) <= end_of(before, i));
        }
    }
    assert forall|k: int| 0 < k < n + 1 implies {
        let p = #[trigger] parent_of(nodes, k);
        0 <= p < k < end_of(nodes, p)
    } by {
        if k < n {
            assert(0 <= parent_of(before, k) < k < end_of(before, parent_of(before, k)));
        } else {
            let top = open_before.last() as int;
            assert(nodes[n] == nodes.last());
            assert(parent_of(nodes, k) == top);
            assert(end_of(nodes, top) == end_of(before, top));
        }
    }
    assert forall|a: int, k: int|
        #![trigger end_of(nodes, a), parent_of(nodes, k)]
        0 <= a < k < n + 1 && k < end_of(nodes, a) implies a <= parent_of(nodes, k) by {
        if k < n {
            assert(a <= parent_of(before, k));
        }
    }
    assert forall|k: int|
        #![trigger nodes[k].prev_sibling]
        0 <= k < n + 1 implies match nodes[k].prev_sibling {
        Some(s) => s < k && end_of(nodes, s as int) == k && parent_of(nodes, s as int) == parent_of(
            nodes,
            k,
        ),
        None => k > 0 ==> parent_of(nodes, k) == k - 1,
    } by {
        if k < n {
            match before[k].prev_sibling {
                Some(s) => {
                    assert(end_of(before, s as int) == k);
                },
                None => {},
            }
        }
    }
}

/// Closing the innermost open node at the current length keeps the preorder.
proof fn lemma_close_ends(nodes_before: Seq<SyntaxNode>, open_before: Seq<usize>, nodes: Seq<SyntaxNode>)
    requires
        ends_ok(nodes_before),
        stack_ok(nodes_before, open_before),
        open_before.len() > 0,
        nodes.len() == nodes_before.len(),
        forall|i: int|
            0 <= i < nodes.len() && i != open_before.last() ==> nodes[i] == nodes_before[i],
        end_of(nodes, open_before.last() as int) == nodes.len(),
    ensures
        ends_ok(nodes),
{
    reveal(ends_ok);
    lemma_stack_facts(nodes_before, open_before);
    let n = nodes.len() as int;
    let c = open_before.last() as int;
    assert forall|i: int| 0 <= i < n implies i < #[trigger] end_of(nodes, i) && (end_of(nodes, i)
        <= n || end_of(nodes, i) == usize::MAX) by {
        if i != c {
            assert(nodes[i] == nodes_before[i]);
            assert(i < end_of(nodes_before, i));
        }
    }
}

#[verifier::spinoff_prover]
#[verifier::rlimit(40)]
proof fn lemma_close_stack(
    nodes_before: Seq<SyntaxNode>,
    open_before: Seq<usize>,
    nodes: Seq<SyntaxNode>,
    open: Seq<usize>,
)
    requires
        stack_ok(nodes_before, open_before),
        open_before.len() > 1,
        open == open_before.drop_last(),
        nodes.len() == nodes_before.len(),
        forall|i: int|
            0 <= i < nodes.len() && i != open_before.last() ==> nodes[i] == nodes_before[i],
        end_of(nodes, open_before.last() as int) == nodes.len(),
    ensures
        stack_ok(nodes, open),
{
    reveal(stack_ok);
    let n = nodes.len() as int;
    let c = open_before.last() as int;
    let m = open_before.len() as int;
    assert(open_before[m - 1] == c);
    assert forall|i: int| 0 <= i < n && i != c implies end_of(nodes, i) == end_of(nodes_before, i)
        && parent_of(nodes, i) == parent_of(nodes_before, i) by {
        assert(nodes[i] == nodes_before[i]);
    }
    assert forall|j: int, k: int|
        #![trigger open[j], end_of(nodes, k)]
        0 <= j < open.len() - 1 && open[j] < k < open[j + 1] implies end_of(nodes, k) <= n by {
        assert(open[j] == open_before[j]);
        assert(open[j + 1] == open_before[j + 1]);
        assert(end_of(nodes_before, k) <= n);
    }
    assert forall|k: int| open.len() > 0 && open[open.len() - 1] < k < n implies #[trigger] end_of(
        nodes,
        k,
    ) <= n by {
        assert(open[open.len() - 1] == open_before[m - 2]);
        if k < c {
            assert(end_of(nodes_before, k) <= n);
        } else if k > c {
            assert(end_of(nodes_before, k) <= n);
        }
    }
    assert forall|j: int| 0 <= j < open.len() implies end_of(nodes, #[trigger] open[j] as int)
        == usize::MAX by {
        assert(open[j] == open_before[j]);
        assert(open_before[j] < open_before[m - 1]);
    }
    assert forall|j: int| 0 < j < open.len() implies parent_of(nodes, #[trigger] open[j] as int)
        == open[j - 1] by {
        assert(open[j] == open_before[j]);
        assert(open[j - 1] == open_before[j - 1]);
        assert(open_before[j] < open_before[m - 1]);
    }
    assert forall|j: int| 0 <= j < open.len() implies #[trigger] open[j] < n by {
        assert(open[j] == open_before[j]);
    }
    assert forall|j: int, k: int| 0 <= j < k < open.len() implies open[j] < open[k] by {
        assert(open[j] == open_before[j]);
        assert(open[k] == open_before[k]);
    }
    assert(open[0] == open_before[0]);
}

#[verifier::spinoff_prover]
#[verifier::rlimit(40)]
proof fn lemma_close_links(
    nodes_before: Seq<SyntaxNode>,
    open_before: Seq<usize>,
    nodes: Seq<SyntaxNode>,
)
    requires
        links_ok(nodes_before),
        ends_ok(nodes_before),
        stack_ok(nodes_before, open_before),
        open_before.len() > 0,
        nodes.len() == nodes_before.len(),
        forall|i: int|
            0 <= i < nodes.len() && i != open_before.last() ==> nodes[i] == nodes_before[i],
        nodes[open_before.last() as int].parent == nodes_before[open_before.last() as int].parent,
        nodes[open_before.last() as int].prev_sibling
            == nodes_before[open_before.last() as int].prev_sibling,
        end_of(nodes, open_before.last() as int) == nodes.len(),
    ensures
        links_ok(nodes),
{
    lemma_stack_facts(nodes_before, open_before);
    let n = nodes.len() as int;
    let c = open_before.last() as int;
    let m = open_before.len() as int;
    assert forall|i: int| 0 <= i < n implies parent_of(nodes, i) == parent_of(nodes_before, i)
        && nodes[i].prev_sibling == nodes_before[i].prev_sibling && (i != c ==> end_of(nodes, i)
        == end_of(nodes_before, i)) by {
        if i != c {
            assert(nodes[i] == nodes_before[i]);
        }
    }
    // Every node after `c` is closed and ends within the nodes read.
    assert forall|k: int| c < k < n implies end_of(nodes_before, k) <= n by {
        reveal(stack_ok);
        assert(open_before[m - 1] == c);
    }
    assert forall|i: int, k: int|
        #![trigger end_of(nodes, i), end_of(nodes, k)]
        0 <= i < k < end_of(nodes, i) && k < n implies end_of(nodes, k) <= end_of(nodes, i) by {
        if i == c {
            assert(end_of(nodes_before, k) <= n);
        } else if k == c {
            reveal(ends_ok);
            if end_of(nodes_before, i) != usize::MAX {
                assert(end_of(nodes_before, c) <= end_of(nodes_before, i));
            }
        } else {
            assert(end_of(nodes_before, k) <= end_of(nodes_before, i));
        }
    }
    assert forall|a: int, k: int|
        #![trigger end_of(nodes, a), parent_of(nodes, k)]
        0 <= a < k < n && k < end_of(nodes, a) implies a <= parent_of(nodes, k) by {
        assert(k < end_of(nodes_before, a));
        assert(a <= parent_of(nodes_before, k));
    }
    assert forall|k: int| 0 < k < n implies {
        let p = #[trigger] parent_of(nodes, k);
        0 <= p < k < end_of(nodes, p)
    } by {
        let p = parent_of(nodes_before, k);
        assert(0 <= p < k < end_of(nodes_before, p));
    }
    assert forall|k: int|
        #![trigger nodes[k].prev_sibling]
        0 <= k < n implies match nodes[k].prev_sibling {
        Some(s) => s < k && end_of(nodes, s as int) == k && parent_of(nodes, s as int) == parent_of(
            nodes,
            k,
        ),
        None => k > 0 ==> parent_of(nodes, k) == k - 1,
    } by {
        match nodes_before[k].prev_sibling {
            Some(s) => {
                assert(end_of(nodes_before, s as int) == k);
            },
            None => {},
        }
    }
}

/// After the root closes, the nodes form a whole tree.
proof fn lemma_close_root(nodes_before: Seq<SyntaxNode>, open_before: Seq<usize>, nodes: Seq<SyntaxNode>)
    requires
        reading(nodes_before, open_before),
        ends_ok(nodes),
        links_ok(nodes),
        open_before.len() == 1,
        nodes.len() == nodes_before.len(),
        nodes[0].parent == nodes_before[0].parent,
        nodes[0].prev_sibling == nodes_before[0].prev_sibling,
        forall|i: int| 0 < i < nodes.len() ==> nodes[i] == nodes_before[i],
        end_of(nodes, 0) == nodes.len(),
    ensures
        shape_ok(nodes),
{
    reveal(ends_ok);
    reveal(stack_ok);
    let n = nodes.len() as int;
    assert(open_before[0] == 0);
    assert forall|i: int| 0 <= i < n implies i < #[trigger] end_of(nodes, i) <= n by {
        if i > 0 {
            assert(nodes[i] == nodes_before[i]);
            assert(end_of(nodes_before, i) <= n);
        }
    }
}

/// A node as the cursor of tree-sitter reports it, with its depth below the root.
pub struct RawNode {
    pub kind: String,
    pub field_name: Option<String>,
    pub is_named: bool,
    pub is_extra: bool,
    pub is_error: bool,
    pub is_missing: bool,
    pub has_error: bool,
    pub start_byte: usize,
    pub end_byte: usize,
    pub depth: usize,
}

/// The records list one tree in preorder: the first is the root at depth 0, and each later one
/// is at least one level below the root and at most one level below the record before it.
pub open spec fn depths_ok(raw: Seq<RawNode>) -> bool {
    &&& raw.len() > 0
    &&& raw[0].depth == 0
    &&& forall|k: int| 0 < k < raw.len() ==> 1 <= #[trigger] raw[k].depth <= raw[k - 1].depth + 1
}

/// Each record spans characters of `source`.
pub open spec fn raw_text_ok(raw: Seq<RawNode>, source: &str) -> bool {
    forall|k: int|
        0 <= k < raw.len() ==> {
            let r = #[trigger] raw[k];
            &&& r.start_byte <= r.end_byte <= source.spec_bytes().len()
            &&& is_boundary(source, r.start_byte as int)
            &&& is_boundary(source, r.end_byte as int)
        }
}

/// The records describe a tree over `source` that fits [`MAX_NODES`].
pub open spec fn raw_ok(raw: Seq<RawNode>, source: &str) -> bool {
    &&& raw.len() <= MAX_NODES
    &&& depths_ok(raw)
    &&& raw_text_ok(raw, source)
}

/// The number of ancestors of node `k`.
pub open spec fn node_depth(nodes: Seq<SyntaxNode>, k: int) -> nat
    decreases k,
{
    if k <= 0 {
        0
    } else {
        match nodes[k].parent {
            Some(p) => if p < k {
                node_depth(nodes, p as int) + 1
            } else {
                0
            },
            None => 0,
        }
    }
}

/// The node holds what the record reports.
pub open spec fn same_fields(node: SyntaxNode, r: RawNode) -> bool {
    &&& node.kind == r.kind
    &&& node.field_name == r.field_name
    &&& node.is_named == r.is_named
    &&& node.is_extra == r.is_extra
    &&& node.is_error == r.is_error
    &&& node.is_missing == r.is_missing
    &&& node.has_error == r.has_error
    &&& node.start_byte == r.start_byte
    &&& node.end_byte == r.end_byte
}

/// The tree holds the records' nodes in their order, each at its depth.
pub open spec fn tree_of_raw(t: &SyntaxTree, raw: Seq<RawNode>) -> bool {
    &&& t.len() == raw.len()
    &&& forall|k: int|
        0 <= k < raw.len() ==> same_fields(#[trigger] t.nodes@[k], raw[k]) && node_depth(
            t.nodes@,
            k,
        ) == raw[k].depth
}

/// Depths follow the parent links alone.
proof fn lemma_depths_frame(a: Seq<SyntaxNode>, b: Seq<SyntaxNode>)
    requires
        a.len() <= b.len(),
        forall|i: int| 0 <= i < a.len() ==> #[trigger] a[i].parent == b[i].parent,
    ensures
        forall|i: int| 0 <= i < a.len() ==> #[trigger] node_depth(a, i) == node_depth(b, i),
{
    assert forall|i: int| 0 <= i < a.len() implies #[trigger] node_depth(a, i) == node_depth(b, i) by {
        lemma_depth_frame(a, b, i);
    }
}

proof fn lemma_depth_frame(a: Seq<SyntaxNode>, b: Seq<SyntaxNode>, k: int)
    requires
        a.len() <= b.len(),
        0 <= k < a.len(),
        forall|i: int| 0 <= i < a.len() ==> #[trigger] a[i].parent == b[i].parent,
    ensures
        node_depth(a, k) == node_depth(b, k),
    decreases k,
{
    assert(a[k].parent == b[k].parent);
    if k > 0 {
        if let Some(p) = a[k].parent {
            if p < k {
                lemma_depth_frame(a, b, p as int);
            }
        }
    }
}

/// Whether the records describe a tree over `source` that fits [`MAX_NODES`].
#[verifier::spinoff_prover]
pub fn check_raw(raw: &Vec<RawNode>, source: &str) -> (r: bool)
    ensures
        r == raw_ok(raw@, source),
{
    let n = raw.len();
    if n == 0 || n > MAX_NODES || raw[0].depth != 0 {
        return false;
    }
    let src_len = source.as_bytes().len();
    let mut k: usize = 0;
    while k < n
        invariant
            n == raw@.len(),
            0 < n <= MAX_NODES,
            raw@[0].depth == 0,
            src_len == source.spec_bytes().len(),
            k <= n,
            forall|j: int| 0 < j < k ==> 1 <= #[trigger] raw@[j].depth <= raw@[j - 1].depth + 1,
            forall|j: int|
                0 <= j < k ==> {
                    let r = #[trigger] raw@[j];
                    &&& r.start_byte <= r.end_byte <= source.spec_bytes().len()
                    &&& is_boundary(source, r.start_byte as int)
                    &&& is_boundary(source, r.end_byte as int)
                },
        decreases n - k,
    {
        let depth = raw[k].depth;
        if k > 0 && (depth == 0 || depth - 1 > raw[k - 1].depth) {
            assert(!(1 <= raw@[k as int].depth <= raw@[k - 1].depth + 1));
            return false;
        }
        let start = raw[k].start_byte;
        let end = raw[k].end_byte;
        if !(start <= end && end <= src_len && source.is_char_boundary(start)
            && source.is_char_boundary(end)) {
            assert(!raw_text_ok(raw@, source)) by {
                let r = raw@[k as int];
                assert(r.start_byte == start && r.end_byte == end);
            }
            return false;
        }
        k = k + 1;
    }
    true
}

/// The node of record `k`, placed under `parent` after `prev_sibling`, with its subtree open.
fn node_of(r: &RawNode, parent: Option<usize>, prev_sibling: Option<usize>) -> (node: SyntaxNode)
    ensures
        same_fields(node, *r),
        node.parent == parent,
        node.prev_sibling == prev_sibling,
        node.subtree_end == usize::MAX,
{
    SyntaxNode {
        kind: r.kind.clone(),
        field_name: match &r.field_name {
            Some(f) => Some(f.clone()),
            None => None,
        },
        is_named: r.is_named,
        is_extra: r.is_extra,
        is_error: r.is_error,
        is_missing: r.is_missing,
        has_error: r.has_error,
        start_byte: r.start_byte,
        end_byte: r.end_byte,
        parent,
        prev_sibling,
        subtree_end: usize::MAX,
    }
}

/// The nodes read so far form the start of a preorder over `source`, with `open` the nodes still
/// being read.
#[verifier::opaque]
pub open spec fn building(nodes: Seq<SyntaxNode>, open: Seq<usize>, source: &str) -> bool {
    reading(nodes, open) && text_ok(nodes, source)
}

/// The two nodes agree in all but the end of their subtrees.
pub open spec fn same_but_end(a: SyntaxNode, b: SyntaxNode) -> bool {
    &&& a.kind == b.kind
    &&& a.field_name == b.field_name
    &&& a.is_named == b.is_named
    &&& a.is_extra == b.is_extra
    &&& a.is_error == b.is_error
    &&& a.is_missing == b.is_missing
    &&& a.has_error == b.has_error
    &&& a.start_byte == b.start_byte
    &&& a.end_byte == b.end_byte
    &&& a.parent == b.parent
    &&& a.prev_sibling == b.prev_sibling
}

/// Closes the innermost open node: its subtree ends after the nodes read so far.
#[verifier::spinoff_prover]
fn close_last(nodes: &mut Vec<SyntaxNode>, open: &mut Vec<usize>, source: &str) -> (c: usize)
    requires
        building(old(nodes)@, old(open)@, source),
        old(open)@.len() > 0,
    ensures
        c == old(open)@.last(),
        c < old(nodes)@.len(),
        final(open)@ == old(open)@.drop_last(),
        final(nodes)@.len() == old(nodes)@.len(),
        forall|i: int| 0 <= i < final(nodes)@.len() ==> #[trigger] same_but_end(final(nodes)@[i], old(nodes)@[i]),
        forall|i: int| 0 <= i < final(nodes)@.len() ==> #[trigger] node_depth(final(nodes)@, i) == node_depth(old(nodes)@, i),
        forall|j: int| 0 <= j < final(open)@.len() ==> #[trigger] final(open)@[j] < final(nodes)@.len(),
        final(open)@.len() > 0 ==> building(final(nodes)@, final(open)@, source) && last_child_ok(
            final(nodes)@,
            final(open)@,
            Some(c),
        ),
        final(open)@.len() == 0 ==> shape_ok(final(nodes)@) && text_ok(final(nodes)@, source),
        final(nodes)@.len() <= MAX_NODES,
{
    reveal(building);
    let ghost nodes_before = nodes@;
    let ghost open_before = open@;
    proof {
        lemma_stack_facts(nodes@, open@);
    }
    let c = open.pop().unwrap();
    let len = nodes.len();
    nodes[c].subtree_end = len;
    proof {
        assert(open@ == open_before.drop_last());
        assert forall|i: int| 0 <= i < nodes@.len() && i != c implies nodes@[i] == nodes_before[i] by {}
        assert(end_of(nodes@, c as int) == nodes@.len());
        lemma_close_ends(nodes_before, open_before, nodes@);
        lemma_close_links(nodes_before, open_before, nodes@);
        assert forall|i: int| 0 <= i < nodes@.len() implies {
            let node = #[trigger] nodes@[i];
            &&& node.start_byte <= node.end_byte <= source.spec_bytes().len()
            &&& is_boundary(source, node.start_byte as int)
            &&& is_boundary(source, node.end_byte as int)
        } by {
            assert(nodes_before[i].start_byte == nodes@[i].start_byte);
            assert(nodes_before[i].end_byte == nodes@[i].end_byte);
        }
        assert(nodes@[c as int].parent == nodes_before[c as int].parent);
        assert forall|i: int| 0 <= i < nodes@.len() implies #[trigger] same_but_end(nodes@[i], nodes_before[i]) by {}
        assert forall|i: int| 0 <= i < nodes@.len() implies #[trigger] nodes@[i].parent
            == nodes_before[i].parent by {
            assert(same_but_end(nodes@[i], nodes_before[i]));
        }
        lemma_depths_frame(nodes@, nodes_before);
        assert forall|j: int| 0 <= j < open@.len() implies #[trigger] open@[j] < nodes@.len() by {
            reveal(stack_ok);
            assert(open@[j] == open_before[j]);
        }
        if open@.len() > 0 {
            lemma_close_stack(nodes_before, open_before, nodes@, open@);
        } else {
            assert(c == 0);
            lemma_close_root(nodes_before, open_before, nodes@);
        }
    }
    c
}

/// Appends a node under the innermost open node and opens its subtree.
#[verifier::spinoff_prover]
fn push_node(nodes: &mut Vec<SyntaxNode>, open: &mut Vec<usize>, node: SyntaxNode, source: &str)
    requires
        building(old(nodes)@, old(open)@, source),
        old(nodes)@.len() < MAX_NODES,
        node.subtree_end == usize::MAX,
        node.parent == if old(open)@.len() == 0 {
            None
        } else {
            Some(old(open)@.last())
        },
        last_child_ok(old(nodes)@, old(open)@, node.prev_sibling),
        node.start_byte <= node.end_byte <= source.spec_bytes().len(),
        is_boundary(source, node.start_byte as int),
        is_boundary(source, node.end_byte as int),
        old(open)@.len() > 0 ==> node_depth(old(nodes)@, old(open)@.last() as int) == old(open)@.len() - 1,
    ensures
        final(nodes)@ == old(nodes)@.push(node),
        final(open)@ == old(open)@.push(old(nodes)@.len() as usize),
        building(final(nodes)@, final(open)@, source),
        last_child_ok(final(nodes)@, final(open)@, None),
        forall|i: int| 0 <= i < old(nodes)@.len() ==> #[trigger] node_depth(final(nodes)@, i) == node_depth(old(nodes)@, i),
        node_depth(final(nodes)@, old(nodes)@.len() as int) == old(open)@.len(),
        forall|j: int| 0 <= j < final(open)@.len() ==> #[trigger] final(open)@[j] < final(nodes)@.len(),
{
    reveal(building);
    let ghost before = nodes@;
    let ghost open_before = open@;
    proof {
        lemma_stack_facts(nodes@, open@);
    }
    let idx = nodes.len();
    nodes.push(node);
    open.push(idx);
    proof {
        assert forall|i: int| 0 <= i < before.len() implies nodes@[i] == before[i] by {}
        lemma_push_ends(before, nodes@);
        lemma_push_stack(before, open_before, nodes@, open@);
        lemma_push_links(before, open_before, nodes@);
        assert forall|i: int| 0 <= i < nodes@.len() implies {
            let node = #[trigger] nodes@[i];
            &&& node.start_byte <= node.end_byte <= source.spec_bytes().len()
            &&& is_boundary(source, node.start_byte as int)
            &&& is_boundary(source, node.end_byte as int)
        } by {
            if i < before.len() {
                assert(nodes@[i] == before[i]);
            }
        }
        lemma_stack_facts(nodes@, open@);
        assert forall|i: int| 0 <= i < before.len() implies #[trigger] before[i].parent
            == nodes@[i].parent by {}
        lemma_depths_frame(before, nodes@);
        if open_before.len() > 0 {
            let p = open_before.last() as int;
            assert(p < before.len());
            assert(node_depth(nodes@, p) == node_depth(before, p));
        }
        assert forall|j: int| 0 <= j < open@.len() implies #[trigger] open@[j] < nodes@.len() by {
            reveal(stack_ok);
        }
    }
}

/// Builds the tree that the records describe: each node's parent is the nearest earlier record
/// one level up, and its subtree ends at the next record at its level or above.
#[verifier::spinoff_prover]
#[verifier::rlimit(60)]
fn construct(raw: &Vec<RawNode>, source: &str) -> (t: SyntaxTree)
    requires
        raw_ok(raw@, source),
    ensures
        t.wf_shape(),
        t.wf_text(source),
        tree_of_raw(&t, raw@),
{
    let src_len = source.as_bytes().len();
    let n = raw.len();
    let mut nodes: Vec<SyntaxNode> = Vec::new();
    let mut open: Vec<usize> = Vec::new();
    let mut last_child: Option<usize> = None;
    proof {
        lemma_reading_start();
        assert(nodes@ =~= Seq::<SyntaxNode>::empty());
        assert(open@ =~= Seq::<usize>::empty());
        reveal(building);
    }
    let mut k: usize = 0;
    while k < n
        invariant
            raw_ok(raw@, source),
            n == raw@.len(),
            src_len == source.spec_bytes().len(),
            k <= n,
            nodes@.len() == k,
            building(nodes@, open@, source),
            last_child_ok(nodes@, open@, last_child),
            k > 0 ==> open@.len() == raw@[k - 1].depth + 1 && last_child is None,
            forall|i: int| 0 <= i < k ==> #[trigger] same_fields(nodes@[i], raw@[i]),
            forall|i: int| 0 <= i < k ==> #[trigger] node_depth(nodes@, i) == raw@[i].depth,
            forall|j: int| 0 <= j < open@.len() ==> node_depth(nodes@, #[trigger] open@[j] as int) == j,
        decreases n - k,
    {
        let d = raw[k].depth;
        proof {
            if k > 0 {
                assert(1 <= raw@[k as int].depth <= raw@[k - 1].depth + 1);
            }
        }
        if k > 0 {
        while open.len() > d
            invariant
                raw_ok(raw@, source),
                n == raw@.len(),
                src_len == source.spec_bytes().len(),
                0 < k < n,
                d == raw@[k as int].depth,
                1 <= d <= open@.len(),
                nodes@.len() == k,
                building(nodes@, open@, source),
                last_child_ok(nodes@, open@, last_child),
                forall|i: int| 0 <= i < k ==> #[trigger] same_fields(nodes@[i], raw@[i]),
                forall|i: int| 0 <= i < k ==> #[trigger] node_depth(nodes@, i) == raw@[i].depth,
                forall|j: int|
                    0 <= j < open@.len() ==> node_depth(nodes@, #[trigger] open@[j] as int) == j,
            decreases open@.len(),
        {
            let ghost nodes_before = nodes@;
            let ghost open_before = open@;
            let c = close_last(&mut nodes, &mut open, source);
            proof {
                assert forall|i: int| 0 <= i < k implies #[trigger] same_fields(nodes@[i], raw@[i]) by {
                    assert(same_fields(nodes_before[i], raw@[i]));
                    assert(same_but_end(nodes@[i], nodes_before[i]));
                }
                assert forall|i: int| 0 <= i < k implies #[trigger] node_depth(nodes@, i) == raw@[i].depth by {
                    assert(node_depth(nodes_before, i) == raw@[i].depth);
                }
                assert forall|j: int| 0 <= j < open@.len() implies node_depth(
                    nodes@,
                    #[trigger] open@[j] as int,
                ) == j by {
                    assert(open@[j] == open_before[j]);
                    assert(open@[j] < nodes@.len());
                    assert(node_depth(nodes_before, open_before[j] as int) == j);
                }
            }
            last_child = Some(c);
        }
        }
        proof {
            reveal(building);
            lemma_stack_facts(nodes@, open@);
            assert(nodes@.len() == k && k < n && n <= MAX_NODES);
            assert(raw_text_ok(raw@, source));
            assert(raw@[k as int] == raw@[k as int]);
        }
        let parent = if open.len() == 0 {
            None
        } else {
            Some(open[open.len() - 1])
        };
        let record = node_of(&raw[k], parent, last_child);
        let ghost before = nodes@;
        let ghost open_before = open@;
        proof {
            if open_before.len() > 0 {
                assert(open_before[open_before.len() - 1] == open_before.last());
            }
        }
        push_node(&mut nodes, &mut open, record, source);
        last_child = None;
        proof {
            assert forall|i: int| 0 <= i < k + 1 implies #[trigger] same_fields(nodes@[i], raw@[i]) by {
                if i < k {
                    assert(nodes@[i] == before[i]);
                }
            }
            assert forall|i: int| 0 <= i < k + 1 implies #[trigger] node_depth(nodes@, i)
                == raw@[i].depth by {
                if i < k {
                    assert(node_depth(before, i) == raw@[i].depth);
                }
            }
            assert forall|j: int| 0 <= j < open@.len() implies node_depth(
                nodes@,
                #[trigger] open@[j] as int,
            ) == j by {
                if j < open_before.len() {
                    assert(open@[j] == open_before[j]);
                    assert(open@[j] < before.len()) by {
                        reveal(stack_ok);
                    }
                    assert(node_depth(before, open_before[j] as int) == j);
                }
            }
        }
        k = k + 1;
    }
    loop
        invariant
            raw_ok(raw@, source),
            n == raw@.len(),
            src_len == source.spec_bytes().len(),
            nodes@.len() == n,
            open@.len() > 0,
            building(nodes@, open@, source),
            forall|i: int| 0 <= i < n ==> #[trigger] same_fields(nodes@[i], raw@[i]),
            forall|i: int| 0 <= i < n ==> #[trigger] node_depth(nodes@, i) == raw@[i].depth,
        decreases open@.len(),
    {
        let ghost nodes_before = nodes@;
        let c = close_last(&mut nodes, &mut open, source);
        proof {
            assert forall|i: int| 0 <= i < n implies #[trigger] same_fields(nodes@[i], raw@[i]) by {
                assert(same_fields(nodes_before[i], raw@[i]));
                assert(same_but_end(nodes@[i], nodes_before[i]));
            }
            assert forall|i: int| 0 <= i < n implies #[trigger] node_depth(nodes@, i) == raw@[i].depth by {
                assert(node_depth(nodes_before, i) == raw@[i].depth);
            }
        }
        if open.len() == 0 {
            return SyntaxTree { nodes };
        }
    }
}

/// The tree that the records describe, or `None` where they describe none: see [`raw_ok`].
pub fn build_tree(raw: &Vec<RawNode>, source: &str) -> (r: Option<SyntaxTree>)
    ensures
        r is Some <==> raw_ok(raw@, source),
        r matches Some(t) ==> t.wf_shape() && t.wf_text(source) && tree_of_raw(&t, raw@),
{
    if check_raw(raw, source) {
        Some(construct(raw, source))
    } else {
        None
    }
}

/// What tree-sitter reports of one node, as plain values: its fields, its span and its depth
/// below the root.
pub struct NodeRecord {
    pub kind: Seq<char>,
    pub field_name: Option<Seq<char>>,
    pub is_named: bool,
    pub is_extra: bool,
    pub is_error: bool,
    pub is_missing: bool,
    pub has_error: bool,
    pub start_byte: usize,
    pub end_byte: usize,
    pub depth: usize,
}

/// What a record read from tree-sitter holds.
pub open spec fn record_of(r: RawNode) -> NodeRecord {
    NodeRecord {
        kind: r.kind@,
        field_name: match r.field_name {
            Some(f) => Some(f@),
            None => None,
        },
        is_named: r.is_named,
        is_extra: r.is_extra,
        is_error: r.is_error,
        is_missing: r.is_missing,
        has_error: r.has_error,
        start_byte: r.start_byte,
        end_byte: r.end_byte,
        depth: r.depth,
    }
}

/// What the records read from tree-sitter hold.
pub open spec fn records_of(raw: Seq<RawNode>) -> Seq<NodeRecord> {
    raw.map_values(|r: RawNode| record_of(r))
}

/// What tree-sitter reports of node `k` in preorder of the tree that `grammar` parses from `text`.
pub open spec fn record_at(grammar: GrammarId, text: Seq<char>, k: nat) -> NodeRecord {
    NodeRecord {
        kind: kind_at(grammar, text, k),
        field_name: field_at(grammar, text, k),
        is_named: named_at(grammar, text, k),
        is_extra: extra_at(grammar, text, k),
        is_error: error_at(grammar, text, k),
        is_missing: missing_at(grammar, text, k),
        has_error: has_error_at(grammar, text, k),
        start_byte: start_at(grammar, text, k),
        end_byte: end_at(grammar, text, k),
        depth: depth_at(grammar, text, k) as usize,
    }
}

/// The records of all nodes of the tree that `grammar` parses from `text`, in preorder.
pub open spec fn parsed_records(grammar: GrammarId, text: Seq<char>) -> Seq<NodeRecord> {
    Seq::new(descendants_at(grammar, text, 0) as nat, |k: int| record_at(grammar, text, k as nat))
}

/// The records list a tree over `source` that fits [`MAX_NODES`]: see [`raw_ok`].
pub open spec fn records_ok(recs: Seq<NodeRecord>, source: &str) -> bool {
    &&& recs.len() <= MAX_NODES
    &&& recs.len() > 0
    &&& recs[0].depth == 0
    &&& forall|k: int| 0 < k < recs.len() ==> 1 <= #[trigger] recs[k].depth <= recs[k - 1].depth + 1
    &&& forall|k: int|
        0 <= k < recs.len() ==> {
            let r = #[trigger] recs[k];
            &&& r.start_byte <= r.end_byte <= source.spec_bytes().len()
            &&& is_boundary(source, r.start_byte as int)
            &&& is_boundary(source, r.end_byte as int)
        }
}

/// The tree holds the records' nodes in their order, each at its depth.
pub open spec fn tree_of_records(t: &SyntaxTree, recs: Seq<NodeRecord>) -> bool {
    &&& t.len() == recs.len()
    &&& forall|k: int|
        0 <= k < recs.len() ==> {
            let node = #[trigger] t.nodes@[k];
            let r = recs[k];
            &&& node.kind@ == r.kind
            &&& match node.field_name {
                Some(f) => r.field_name == Some(f@),
                None => r.field_name is None,
            }
            &&& node.is_named == r.is_named
            &&& node.is_extra == r.is_extra
            &&& node.is_error == r.is_error
            &&& node.is_missing == r.is_missing
            &&& node.has_error == r.has_error
            &&& node.start_byte == r.start_byte
            &&& node.end_byte == r.end_byte
            &&& node_depth(t.nodes@, k) == r.depth
        }
}

/// The tree that `grammar` parses from `source` can be read: its records list a tree over
/// `source` within [`MAX_NODES`], and every tree they list has its byte ranges in preorder.
pub open spec fn readable(grammar: GrammarId, source: &str) -> bool {
    let recs = parsed_records(grammar, source@);
    &&& records_ok(recs, source)
    &&& forall|t: SyntaxTree|
        t.wf_shape() && t.wf_text(source) && tree_of_records(&t, recs) ==> #[trigger] t.wf_order()
}

proof fn lemma_records_of_raw(raw: Seq<RawNode>, source: &str)
    ensures
        raw_ok(raw, source) == records_ok(records_of(raw), source),
        forall|t: SyntaxTree|
            tree_of_raw(&t, raw) ==> #[trigger] tree_of_records(&t, records_of(raw)),
{
    let recs = records_of(raw);
    assert(raw_ok(raw, source) ==> records_ok(recs, source)) by {
        if raw_ok(raw, source) {
            assert forall|k: int| 0 < k < recs.len() implies 1 <= #[trigger] recs[k].depth <= recs[k - 1].depth + 1 by {
                assert(1 <= raw[k].depth <= raw[k - 1].depth + 1);
            }
            assert forall|k: int| 0 <= k < recs.len() implies {
                let r = #[trigger] recs[k];
                &&& r.start_byte <= r.end_byte <= source.spec_bytes().len()
                &&& is_boundary(source, r.start_byte as int)
                &&& is_boundary(source, r.end_byte as int)
            } by {
                let r = raw[k];
                assert(r.start_byte <= r.end_byte <= source.spec_bytes().len());
            }
        }
    }
    assert(records_ok(recs, source) ==> raw_ok(raw, source)) by {
        if records_ok(recs, source) {
            assert forall|k: int| 0 < k < raw.len() implies 1 <= #[trigger] raw[k].depth <= raw[k - 1].depth + 1 by {
                assert(1 <= recs[k].depth <= recs[k - 1].depth + 1);
            }
            assert forall|k: int| 0 <= k < raw.len() implies {
                let r = #[trigger] raw[k];
                &&& r.start_byte <= r.end_byte <= source.spec_bytes().len()
                &&& is_boundary(source, r.start_byte as int)
                &&& is_boundary(source, r.end_byte as int)
            } by {
                let r = recs[k];
                assert(r.start_byte <= r.end_byte <= source.spec_bytes().len());
            }
        }
    }
    assert forall|t: SyntaxTree| tree_of_raw(&t, raw) implies #[trigger] tree_of_records(&t, recs) by {
        assert forall|k: int| 0 <= k < recs.len() implies {
            let node = #[trigger] t.nodes@[k];
            let r = recs[k];
            &&& node.kind@ == r.kind
            &&& match node.field_name {
                Some(f) => r.field_name == Some(f@),
                None => r.field_name is None,
            }
            &&& node.is_named == r.is_named
            &&& node.is_extra == r.is_extra
            &&& node.is_error == r.is_error
            &&& node.is_missing == r.is_missing
            &&& node.has_error == r.has_error
            &&& node.start_byte == r.start_byte
            &&& node.end_byte == r.end_byte
            &&& node_depth(t.nodes@, k) == r.depth
        } by {
            assert(same_fields(t.nodes@[k], raw[k]));
        }
    }
}

/// Reads each node of the tree in preorder, with its depth below the root.
#[verifier::spinoff_prover]
fn read_raw(tree: &sitter::SourceTree) -> (raw: Vec<RawNode>)
    ensures
        records_of(raw@) == parsed_records(tree.grammar(), tree.text()),
        raw@.len() <= MAX_NODES,
{
    let ghost g = tree.grammar();
    let ghost text = tree.text();
    let root = sitter::root_node(tree);
    let count = sitter::node_descendant_count(&root);
    let mut cursor = sitter::node_cursor(&root);
    let mut raw: Vec<RawNode> = Vec::new();
    let mut k: usize = 0;
    while k < count
        invariant
            count == descendants_at(g, text, 0),
            count <= MAX_NODES,
            cursor.grammar() == g,
            cursor.text() == text,
            k <= count,
            raw@.len() == k,
            forall|j: int| 0 <= j < k ==> record_of(#[trigger] raw@[j]) == record_at(g, text, j as nat),
        decreases count - k,
    {
        sitter::goto_descendant(&mut cursor, k);
        let node = sitter::cursor_node(&cursor);
        let depth = sitter::cursor_depth(&cursor);
        let r = RawNode {
            kind: sitter::node_kind(&node),
            field_name: sitter::cursor_field_name(&cursor),
            is_named: sitter::node_is_named(&node),
            is_extra: sitter::node_is_extra(&node),
            is_error: sitter::node_is_error(&node),
            is_missing: sitter::node_is_missing(&node),
            has_error: sitter::node_has_error(&node),
            start_byte: sitter::node_start_byte(&node),
            end_byte: sitter::node_end_byte(&node),
            depth: depth as usize,
        };
        assert(record_of(r) == record_at(g, text, k as nat));
        raw.push(r);
        k = k + 1;
    }
    assert(records_of(raw@) =~= parsed_records(g, text));
    raw
}

/// Reads the tree that tree-sitter parsed from `source` into a [`SyntaxTree`] that holds its
/// records. Returns `None` only where the tree cannot be read: see [`readable`].
pub fn read_tree(tree: &sitter::SourceTree, source: &str) -> (r: Option<SyntaxTree>)
    requires
        tree.text() == source@,
    ensures
        readable(tree.grammar(), source) ==> r is Some,
        r matches Some(t) ==> t.wf(source) && tree_of_records(&t, parsed_records(tree.grammar(), source@)),
{
    let ghost recs = parsed_records(tree.grammar(), source@);
    let raw = read_raw(tree);
    proof {
        lemma_records_of_raw(raw@, source);
    }
    match build_tree(&raw, source) {
        Some(t) => if t.check_order() {
            proof {
                assert(tree_of_records(&t, recs));
            }
            Some(t)
        } else {
            proof {
                assert(tree_of_records(&t, recs));
            }
            None
        },
        None => None,
    }
}

} // verus!
