//! Removing trailing whitespace outside value regions such as literals and preformatted text.
use std::ops::Range;

use vstd::prelude::*;
use vstd::string::*;
use vstd::utf8::*;

use crate::syntax::SyntaxTree;
use crate::text::{
    bytes_eq_ascii_case, eq_ascii_case, has_sub, is_ascii_space, is_boundary, is_trailing_space,
    lemma_after_ascii, lemma_ascii_is_boundary, lemma_line_end_from_bounds, line_end_from,
    str_contains, str_eq, NEWLINE,
};
use crate::tree::{lemma_visited_before, walk, walk_order};

verus! {

// ---------------------------------------------------------------------------------------------
// Trailing whitespace
/// The start of the run of `' '`, `'\t'` and `'\r'` that ends the bytes `lo..e`.
pub open spec fn trim_back(b: Seq<u8>, lo: int, e: int) -> int
    decreases e - lo,
{
    if e <= lo {
        lo
    } else if is_trailing_space(b[e - 1]) {
        trim_back(b, lo, e - 1)
    } else {
        e
    }
}

/// The end of the last-ending value that overlaps the bytes `s..e`, or `s` where none ends past
/// it: where a blank run `s..e` starts once the values that reach into it are skipped.
pub open spec fn past_values(values: Seq<Range<usize>>, s: int, e: int) -> int
    decreases values.len(),
{
    if values.len() == 0 {
        s
    } else {
        let rest = past_values(values.drop_last(), s, e);
        let v = values.last();
        if v.start < e && v.end > s && v.end > rest {
            v.end as int
        } else {
            rest
        }
    }
}

/// The start of the line's trailing whitespace once every value that reaches into it is skipped.
pub open spec fn ws_start(b: Seq<u8>, values: Seq<Range<usize>>, line_start: int) -> int {
    let e = line_end_from(b, line_start);
    past_values(values, trim_back(b, line_start, e), e)
}

/// The trailing whitespace of the lines from the one starting at `line_start` on.
pub open spec fn trailing_from(b: Seq<u8>, values: Seq<Range<usize>>, line_start: int) -> Seq<
    Range<usize>,
>
    decreases b.len() - line_start,
{
    if line_start < 0 || line_start >= b.len() {
        seq![]
    } else {
        let e = line_end_from(b, line_start);
        let s = ws_start(b, values, line_start);
        let next = if e < b.len() {
            e + 1
        } else {
            b.len() as int
        };
        let rest = if next > line_start {
            trailing_from(b, values, next)
        } else {
            seq![]
        };
        if s < e {
            seq![Range { start: s as usize, end: e as usize }] + rest
        } else {
            rest
        }
    }
}

pub proof fn lemma_trim_back(b: Seq<u8>, lo: int, e: int)
    requires
        0 <= lo <= e <= b.len(),
    ensures
        lo <= trim_back(b, lo, e) <= e,
        forall|k: int| trim_back(b, lo, e) <= k < e ==> is_trailing_space(#[trigger] b[k]),
        trim_back(b, lo, e) > lo ==> !is_trailing_space(b[trim_back(b, lo, e) - 1]),
    decreases e - lo,
{
    if e > lo && is_trailing_space(b[e - 1]) {
        lemma_trim_back(b, lo, e - 1);
    }
}

/// The skipped start lies at or after `s`, past every value that overlaps `s..e`.
pub proof fn lemma_past_values(values: Seq<Range<usize>>, s: int, e: int)
    ensures
        past_values(values, s, e) >= s,
        forall|j: int|
            0 <= j < values.len() && #[trigger] values[j].start < e && values[j].end > s
                ==> values[j].end <= past_values(values, s, e),
        past_values(values, s, e) == s || exists|j: int|
            0 <= j < values.len() && values[j].start < e && values[j].end > s
                && #[trigger] values[j].end == past_values(values, s, e),
    decreases values.len(),
{
    if values.len() > 0 {
        let init = values.drop_last();
        lemma_past_values(init, s, e);
        assert forall|j: int|
            0 <= j < values.len() && #[trigger] values[j].start < e && values[j].end > s implies values[j].end
            <= past_values(values, s, e) by {
            if j < init.len() {
                assert(init[j] == values[j]);
            }
        }
        if past_values(init, s, e) != s && past_values(values, s, e) == past_values(init, s, e) {
            let j = choose|j: int|
                0 <= j < init.len() && init[j].start < e && init[j].end > s
                    && #[trigger] init[j].end == past_values(init, s, e);
            assert(values[j] == init[j]);
        }
        if past_values(values, s, e) != past_values(init, s, e) {
            assert(values[values.len() - 1] == values.last());
        }
    }
}

/// Byte ranges of whitespace before each line break or the end of `source`, excluding whitespace
/// inside `values` where it is part of the value.
pub fn trailing_whitespace(source: &str, values: &[Range<usize>]) -> (ranges: Vec<Range<usize>>)
    ensures
        ranges@ == trailing_from(source.spec_bytes(), values@, 0),
        forall|k: int, j: int|
            0 <= k < ranges@.len() && 0 <= j < values@.len() ==> #[trigger] ranges@[k].end
                <= #[trigger] values@[j].start || values@[j].end <= ranges@[k].start,
{
    let bytes = source.as_bytes();
    let n = bytes.len();
    let mut ranges: Vec<Range<usize>> = Vec::new();
    let mut line_start: usize = 0;
    while line_start < n
        invariant
            bytes@ == source.spec_bytes(),
            n == bytes@.len(),
            line_start <= n,
            trailing_from(bytes@, values@, 0) == ranges@ + trailing_from(
                bytes@,
                values@,
                line_start as int,
            ),
        decreases n - line_start,
    {
        // The end of the line's content, before its line feed.
        let mut e = line_start;
        while e < n && bytes[e] != NEWLINE
            invariant
                bytes@ == source.spec_bytes(),
                n == bytes@.len(),
                line_start <= e <= n,
                line_end_from(bytes@, line_start as int) == line_end_from(bytes@, e as int),
            decreases n - e,
        {
            e = e + 1;
        }
        // The start of the whitespace that ends the content.
        let mut s = e;
        while s > line_start && (bytes[s - 1] == 32 || bytes[s - 1] == 9 || bytes[s - 1] == 13)
            invariant
                bytes@ == source.spec_bytes(),
                n == bytes@.len(),
                line_start <= s <= e <= n,
                trim_back(bytes@, line_start as int, e as int) == trim_back(
                    bytes@,
                    line_start as int,
                    s as int,
                ),
            decreases s,
        {
            s = s - 1;
        }
        proof {
            assert(e == line_end_from(bytes@, line_start as int));
            assert(s == trim_back(bytes@, line_start as int, e as int));
        }
        // Every value that reaches into the blank run keeps the whitespace before its end.
        let s0 = s;
        let mut j: usize = 0;
        while j < values.len()
            invariant
                j <= values@.len(),
                s == past_values(values@.take(j as int), s0 as int, e as int),
            decreases values@.len() - j,
        {
            proof {
                assert(values@.take(j + 1).drop_last() =~= values@.take(j as int));
                assert(values@.take(j + 1).last() == values@[j as int]);
            }
            if values[j].start < e && values[j].end > s0 && values[j].end > s {
                s = values[j].end;
            }
            j = j + 1;
        }
        proof {
            assert(values@.take(values@.len() as int) =~= values@);
        }
        let next = if e < n {
            e + 1
        } else {
            n
        };
        if s < e {
            ranges.push(Range { start: s, end: e });
        }
        proof {
            lemma_line_end_from_bounds(bytes@, line_start as int);
            assert(ranges@ + trailing_from(bytes@, values@, next as int) =~= ranges@ + trailing_from(
                bytes@,
                values@,
                next as int,
            ));
        }
        line_start = next;
    }
    proof {
        assert(ranges@ + trailing_from(bytes@, values@, line_start as int) =~= ranges@);
        lemma_trailing_from(bytes@, values@, 0);
    }
    ranges
}

// ---------------------------------------------------------------------------------------------
// Value regions
/// Node kinds of values: literals whose kind names them (strings, heredocs, regular
/// expressions, ...), and markup text, attribute values, and embedded code in HTML, JSP
/// (embedded-template), and PHP templates, whose inner literals no grammar models.
pub open spec fn literal_kind(kind: Seq<char>) -> bool {
    ||| has_sub(kind, "string"@)
    ||| has_sub(kind, "heredoc"@)
    ||| has_sub(kind, "nowdoc"@)
    ||| has_sub(kind, "quasiquote"@)
    ||| has_sub(kind, "uninterpreted"@)
    ||| has_sub(kind, "regex"@)
    ||| has_sub(kind, "subshell"@)
    ||| kind == "text"@
    ||| kind == "raw_text"@
    ||| kind == "attribute_value"@
    ||| kind == "quoted_attribute_value"@
    ||| kind == "code"@
    ||| kind == "content"@
}

pub fn is_literal_kind(kind: &str) -> (r: bool)
    ensures
        r == literal_kind(kind@),
{
    str_contains(kind, "string") || str_contains(kind, "heredoc") || str_contains(kind, "nowdoc")
        || str_contains(kind, "quasiquote") || str_contains(kind, "uninterpreted")
        || str_contains(kind, "regex") || str_contains(kind, "subshell")
        || str_eq(kind, "text") || str_eq(kind, "raw_text") || str_eq(kind, "attribute_value")
        || str_eq(kind, "quoted_attribute_value") || str_eq(kind, "code")
        || str_eq(kind, "content")
}

/// The number of named nodes of `s`.
pub open spec fn named_count(t: &SyntaxTree, s: Seq<usize>) -> nat
    decreases s.len(),
{
    if s.len() == 0 {
        0
    } else {
        (if t.nodes@[s[0] as int].is_named {
            1nat
        } else {
            0nat
        }) + named_count(t, s.drop_first())
    }
}

/// Every named node of `s` has a kind that contains `string_literal`.
pub open spec fn named_all_string_literals(t: &SyntaxTree, s: Seq<usize>) -> bool
    decreases s.len(),
{
    if s.len() == 0 {
        true
    } else {
        (!t.nodes@[s[0] as int].is_named || has_sub(t.kind(s[0] as int), "string_literal"@))
            && named_all_string_literals(t, s.drop_first())
    }
}

/// Some node of `s` has the kind `kind`.
pub open spec fn any_of_kind(t: &SyntaxTree, s: Seq<usize>, kind: Seq<char>) -> bool
    decreases s.len(),
{
    if s.len() == 0 {
        false
    } else {
        t.kind(s[0] as int) == kind || any_of_kind(t, s.drop_first(), kind)
    }
}

/// The node joins separate literals, whose parts are protected one by one because the whitespace
/// between them is code. Dart puts adjacent literals in one `string_literal` whose named children
/// are all quoted literals, while other grammars' `string_literal` holds fragments.
pub open spec fn concatenation(t: &SyntaxTree, i: int) -> bool {
    let kind = t.kind(i);
    ||| kind == "concatenated_string"@
    ||| kind == "chained_string"@
    ||| kind == "string_array"@
    ||| named_count(t, t.children(i)) > 1 && named_all_string_literals(t, t.children(i))
}

/// The bytes of node `i`.
pub open spec fn node_bytes(t: &SyntaxTree, source: &str, i: int) -> Seq<u8> {
    source.spec_bytes().subrange(t.nodes@[i].start_byte as int, t.nodes@[i].end_byte as int)
}

/// An HTML `<pre>` or `<textarea>` element, whose text keeps its whitespace; the grammar's `text`
/// nodes exclude the whitespace at their edges.
pub open spec fn preformatted(t: &SyntaxTree, source: &str, i: int) -> bool {
    &&& t.kind(i) == "element"@
    &&& t.children(i).len() > 0
    &&& match t.first_named(t.children(t.children(i)[0] as int)) {
        Some(name) => {
            &&& t.kind(name as int) == "tag_name"@
            &&& (eq_ascii_case(node_bytes(t, source, name as int), "pre".spec_bytes())
                || eq_ascii_case(node_bytes(t, source, name as int), "textarea".spec_bytes()))
        },
        None => false,
    }
}

/// The node is a value region, whose whitespace belongs to the value. An escaped space is a value
/// byte even where no value node encloses it.
pub open spec fn is_value(t: &SyntaxTree, source: &str, i: int) -> bool {
    ||| literal_kind(t.kind(i)) && !concatenation(t, i)
    ||| has_sub(t.kind(i), "escape_sequence"@)
    ||| preformatted(t, source, i)
}

/// The length of the run of ASCII whitespace at `i`.
pub open spec fn ascii_space_run(b: Seq<u8>, i: int) -> nat
    decreases b.len() - i,
{
    if 0 <= i < b.len() && is_ascii_space(b[i]) {
        1 + ascii_space_run(b, i + 1)
    } else {
        0
    }
}

/// The bytes of value node `i`. The grammar ends an element without an end tag at its last
/// child, before the whitespace that is still its content.
pub open spec fn value_range(t: &SyntaxTree, source: &str, i: int) -> Range<usize> {
    let node = t.nodes@[i];
    if t.kind(i) == "element"@ && !any_of_kind(t, t.children(i), "end_tag"@) {
        Range {
            start: node.start_byte,
            end: (node.end_byte + ascii_space_run(source.spec_bytes(), node.end_byte as int)) as usize,
        }
    } else {
        Range { start: node.start_byte, end: node.end_byte }
    }
}

/// The nodes that a walk stops at: those that are not values are descended into.
pub open spec fn value_descend(t: &SyntaxTree, source: &str) -> Seq<bool> {
    Seq::new(t.nodes@.len(), |i: int| !is_value(t, source, i))
}

/// The ranges of the values among the nodes `s`, in order.
pub open spec fn ranges_of_values(t: &SyntaxTree, source: &str, s: Seq<usize>) -> Seq<Range<usize>>
    decreases s.len(),
{
    if s.len() == 0 {
        seq![]
    } else {
        let rest = ranges_of_values(t, source, s.drop_last());
        if is_value(t, source, s.last() as int) {
            rest.push(value_range(t, source, s.last() as int))
        } else {
            rest
        }
    }
}

/// The byte ranges of the outermost value nodes of the tree, in preorder.
pub open spec fn value_nodes_ranges(t: &SyntaxTree, source: &str) -> Seq<Range<usize>> {
    ranges_of_values(t, source, walk_order(t, 0, value_descend(t, source)))
}

/// The ranges `rs`, each cut off where the next one starts.
pub open spec fn clamped(rs: Seq<Range<usize>>) -> Seq<Range<usize>> {
    Seq::new(
        rs.len(),
        |i: int|
            if i + 1 < rs.len() && rs[i].end > rs[i + 1].start {
                Range { start: rs[i].start, end: rs[i + 1].start }
            } else {
                rs[i]
            },
    )
}

/// The byte ranges of the outermost value regions of the tree, in document order and disjoint:
/// the whitespace after an element without an end tag belongs to it up to the next value.
pub open spec fn value_ranges_of(t: &SyntaxTree, source: &str) -> Seq<Range<usize>> {
    clamped(value_nodes_ranges(t, source))
}

/// Whether node `i` joins separate literals.
pub fn is_concatenation(tree: &SyntaxTree, i: usize) -> (r: bool)
    requires
        tree.wf_shape(),
        i < tree.len(),
    ensures
        r == concatenation(tree, i as int),
{
    let kind = tree.nodes[i].kind.as_str();
    if str_eq(kind, "concatenated_string") || str_eq(kind, "chained_string") || str_eq(
        kind,
        "string_array",
    ) {
        return true;
    }
    let stop = tree.nodes[i].subtree_end;
    proof {
        assert(i < tree.end(i as int));
    }
    let mut c = i + 1;
    let mut named: usize = 0;
    let mut all = true;
    while c < stop
        invariant
            tree.wf_shape(),
            i < tree.len(),
            stop == tree.end(i as int),
            i < c <= stop,
            named <= c,
            named_count(tree, tree.children(i as int)) == named + named_count(
                tree,
                tree.chain(c as int, stop as int),
            ),
            named_all_string_literals(tree, tree.children(i as int)) == (all
                && named_all_string_literals(tree, tree.chain(c as int, stop as int))),
        decreases stop - c,
    {
        proof {
            tree.lemma_chain_unfold(c as int, stop as int);
            let rest = tree.chain(tree.end(c as int), stop as int);
            assert((seq![c] + rest).drop_first() =~= rest);
            assert(tree.end(c as int) <= stop);
        }
        if tree.nodes[c].is_named {
            named = named + 1;
            if !str_contains(tree.nodes[c].kind.as_str(), "string_literal") {
                all = false;
            }
        }
        c = tree.nodes[c].subtree_end;
    }
    named > 1 && all
}

/// Whether some child of `p` has the kind `kind`.
pub fn has_child_of_kind(tree: &SyntaxTree, p: usize, kind: &str) -> (r: bool)
    requires
        tree.wf_shape(),
        p < tree.len(),
    ensures
        r == any_of_kind(tree, tree.children(p as int), kind@),
{
    let stop = tree.nodes[p].subtree_end;
    proof {
        assert(p < tree.end(p as int));
    }
    let mut c = p + 1;
    while c < stop
        invariant
            tree.wf_shape(),
            p < tree.len(),
            stop == tree.end(p as int),
            p < c <= stop,
            any_of_kind(tree, tree.children(p as int), kind@) == any_of_kind(
                tree,
                tree.chain(c as int, stop as int),
                kind@,
            ),
        decreases stop - c,
    {
        proof {
            tree.lemma_chain_unfold(c as int, stop as int);
            let rest = tree.chain(tree.end(c as int), stop as int);
            assert((seq![c] + rest).drop_first() =~= rest);
            assert(tree.end(c as int) <= stop);
        }
        if str_eq(tree.nodes[c].kind.as_str(), kind) {
            return true;
        }
        c = tree.nodes[c].subtree_end;
    }
    false
}

/// Whether node `i` is an HTML `<pre>` or `<textarea>` element.
pub fn is_preformatted_element(source: &str, tree: &SyntaxTree, i: usize) -> (r: bool)
    requires
        tree.wf(source),
        i < tree.len(),
    ensures
        r == preformatted(tree, source, i as int),
{
    if !str_eq(tree.nodes[i].kind.as_str(), "element") {
        return false;
    }
    match tree.first_child(i) {
        None => false,
        Some(start_tag) => {
            proof {
                tree.lemma_children_bounds(i as int);
            }
            match tree.first_named_child(start_tag) {
                None => false,
                Some(name) => {
                    proof {
                        tree.lemma_children_bounds(start_tag as int);
                        tree.lemma_first_found(tree.children(start_tag as int), Seq::empty());
                    }
                    if !str_eq(tree.nodes[name].kind.as_str(), "tag_name") {
                        return false;
                    }
                    let text = tree.node_text(source, name).as_bytes();
                    bytes_eq_ascii_case(text, "pre".as_bytes()) || bytes_eq_ascii_case(
                        text,
                        "textarea".as_bytes(),
                    )
                },
            }
        },
    }
}

/// Whether node `i` is a value region.
pub fn node_is_value(source: &str, tree: &SyntaxTree, i: usize) -> (r: bool)
    requires
        tree.wf(source),
        i < tree.len(),
    ensures
        r == is_value(tree, source, i as int),
{
    let kind = tree.nodes[i].kind.as_str();
    (is_literal_kind(kind) && !is_concatenation(tree, i)) || str_contains(kind, "escape_sequence")
        || is_preformatted_element(source, tree, i)
}

/// Collects the outermost value nodes, because a grammar can leave value bytes outside every
/// child node, such as the leading whitespace of a Rust raw string or a whitespace-only PHP
/// heredoc body.
pub fn collect_value_ranges(source: &str, tree: &SyntaxTree, ranges: &mut Vec<Range<usize>>)
    requires
        tree.wf(source),
    ensures
        final(ranges)@ == old(ranges)@ + value_ranges_of(tree, source),
{
    let bytes = source.as_bytes();
    let n = tree.nodes.len();
    let mut descend: Vec<bool> = Vec::new();
    let mut i: usize = 0;
    while i < n
        invariant
            tree.wf(source),
            n == tree.len(),
            i <= n,
            descend@.len() == i,
            forall|k: int| 0 <= k < i ==> descend@[k] == !is_value(tree, source, k),
        decreases n - i,
    {
        descend.push(!node_is_value(source, tree, i));
        i = i + 1;
    }
    proof {
        assert(descend@ =~= value_descend(tree, source));
    }
    let order = walk(tree, 0, &descend);
    proof {
        lemma_visited_before(tree, 0, descend@, tree.end(0));
    }
    let ghost start = ranges@;
    let start_len = ranges.len();
    proof {
        assert(order@.take(0) =~= Seq::<usize>::empty());
        assert(start + clamped(Seq::<Range<usize>>::empty()) =~= start);
    }
    let mut j: usize = 0;
    while j < order.len()
        invariant
            tree.wf(source),
            bytes@ == source.spec_bytes(),
            n == tree.len(),
            descend@ == value_descend(tree, source),
            order@ == walk_order(tree, 0, descend@),
            j <= order@.len(),
            ranges@ == start + clamped(ranges_of_values(tree, source, order@.take(j as int))),
            forall|k: int| 0 <= k < order@.len() ==> #[trigger] order@[k] < n,
            start_len == start.len(),
        decreases order@.len() - j,
    {
        let k = order[j];
        proof {
            assert(order@.take(j + 1).drop_last() =~= order@.take(j as int));
        }
        if !descend[k] {
            let node = &tree.nodes[k];
            let mut end = node.end_byte;
            if str_eq(node.kind.as_str(), "element") && !has_child_of_kind(tree, k, "end_tag") {
                let ghost base = end;
                while end < bytes.len() && (bytes[end] == 32 || bytes[end] == 9 || bytes[end] == 10
                    || bytes[end] == 12 || bytes[end] == 13)
                    invariant
                        base <= end <= bytes@.len(),
                        base + ascii_space_run(bytes@, base as int) == end + ascii_space_run(
                            bytes@,
                            end as int,
                        ),
                    decreases bytes@.len() - end,
                {
                    end = end + 1;
                }
            }
            let ghost before = ranges_of_values(tree, source, order@.take(j as int));
            let ghost x = Range { start: node.start_byte, end };
            let last = ranges.len();
            if last > start_len && ranges[last - 1].end > node.start_byte {
                // The whitespace after an element without an end tag stops at the next value.
                let prev_start = ranges[last - 1].start;
                ranges.set(last - 1, Range { start: prev_start, end: node.start_byte });
            }
            ranges.push(Range { start: node.start_byte, end });
            proof {
                assert(ranges_of_values(tree, source, order@.take(j + 1)) == before.push(x));
                assert(ranges@ =~= start + clamped(before.push(x)));
            }
        }
        j = j + 1;
    }
    proof {
        assert(order@.take(order@.len() as int) =~= order@);
    }
}

/// Byte ranges of the outermost value regions, in document order and disjoint.
pub fn value_ranges(source: &str, tree: Option<&SyntaxTree>) -> (ranges: Vec<Range<usize>>)
    requires
        tree matches Some(t) ==> t.wf(source),
    ensures
        ranges@ == match tree {
            Some(t) => value_ranges_of(t, source),
            None => Seq::empty(),
        },
        forall|k: int|
            0 <= k < ranges@.len() ==> {
                let r = #[trigger] ranges@[k];
                &&& r.start <= r.end <= source.spec_bytes().len()
                &&& is_boundary(source, r.start as int)
                &&& is_boundary(source, r.end as int)
            },
{
    let mut ranges = Vec::new();
    if let Some(tree) = tree {
        collect_value_ranges(source, tree, &mut ranges);
        proof {
            lemma_value_ranges_ok(tree, source);
        }
    }
    ranges
}

// ---------------------------------------------------------------------------------------------
// Facts about the ranges
proof fn lemma_ascii_space_run(b: Seq<u8>, i: int)
    requires
        0 <= i <= b.len(),
    ensures
        i + ascii_space_run(b, i) <= b.len(),
        ascii_space_run(b, i) > 0 ==> is_ascii_space(b[i + ascii_space_run(b, i) - 1]),
    decreases b.len() - i,
{
    if i < b.len() && is_ascii_space(b[i]) {
        lemma_ascii_space_run(b, i + 1);
    }
}

/// The value ranges span characters of the source.
pub proof fn lemma_value_ranges_ok(t: &SyntaxTree, source: &str)
    requires
        t.wf(source),
    ensures
        forall|k: int|
            0 <= k < value_ranges_of(t, source).len() ==> {
                let r = #[trigger] value_ranges_of(t, source)[k];
                &&& r.start <= r.end <= source.spec_bytes().len()
                &&& is_boundary(source, r.start as int)
                &&& is_boundary(source, r.end as int)
            },
{
    let order = walk_order(t, 0, value_descend(t, source));
    lemma_visited_before(t, 0, value_descend(t, source), t.end(0));
    lemma_ranges_of_values_ok(t, source, order);
    crate::laws::lemma_value_nodes_in_order(t, source);
    let raw = value_nodes_ranges(t, source);
    let r = value_ranges_of(t, source);
    assert forall|k: int| 0 <= k < r.len() implies {
        let x = #[trigger] r[k];
        &&& x.start <= x.end <= source.spec_bytes().len()
        &&& is_boundary(source, x.start as int)
        &&& is_boundary(source, x.end as int)
    } by {
        assert(raw[k] == ranges_of_values(t, source, order)[k]);
        if k + 1 < r.len() {
            assert(raw[k + 1] == ranges_of_values(t, source, order)[k + 1]);
            assert(raw[k].start <= raw[k + 1].start);
        }
    }
}

proof fn lemma_ranges_of_values_ok(t: &SyntaxTree, source: &str, s: Seq<usize>)
    requires
        t.wf(source),
        forall|k: int| 0 <= k < s.len() ==> #[trigger] s[k] < t.len(),
    ensures
        forall|k: int|
            0 <= k < ranges_of_values(t, source, s).len() ==> {
                let r = #[trigger] ranges_of_values(t, source, s)[k];
                &&& r.start <= r.end <= source.spec_bytes().len()
                &&& is_boundary(source, r.start as int)
                &&& is_boundary(source, r.end as int)
            },
    decreases s.len(),
{
    if s.len() > 0 {
        let init = s.drop_last();
        assert forall|k: int| 0 <= k < init.len() implies #[trigger] init[k] < t.len() by {
            assert(init[k] == s[k]);
        }
        lemma_ranges_of_values_ok(t, source, init);
        let i = s.last() as int;
        assert(s[s.len() - 1] < t.len());
        let rest = ranges_of_values(t, source, init);
        assert(t.nodes@[i] == t.nodes@[i]);
        if is_value(t, source, i) {
            let node = t.nodes@[i];
            let b = source.spec_bytes();
            lemma_ascii_space_run(b, node.end_byte as int);
            let run = ascii_space_run(b, node.end_byte as int);
            if run > 0 {
                encode_utf8_valid_utf8(source@);
                lemma_after_ascii(b, node.end_byte + run);
            }
            let all = rest.push(value_range(t, source, i));
            assert(ranges_of_values(t, source, s) == all);
            assert forall|k: int| 0 <= k < all.len() implies {
                let r = #[trigger] all[k];
                &&& r.start <= r.end <= source.spec_bytes().len()
                &&& is_boundary(source, r.start as int)
                &&& is_boundary(source, r.end as int)
            } by {
                if k < rest.len() {
                    assert(all[k] == rest[k]);
                }
            }
        }
    }
}

/// The trailing whitespace ranges lie in order, each within a line's content up to its end,
/// consist of `' '`, `'\t'` and `'\r'`, and share no byte with a value.
pub proof fn lemma_trailing_from(b: Seq<u8>, values: Seq<Range<usize>>, ls: int)
    requires
        0 <= ls,
        b.len() <= usize::MAX,
    ensures
        forall|k: int|
            0 <= k < trailing_from(b, values, ls).len() ==> {
                let r = #[trigger] trailing_from(b, values, ls)[k];
                &&& ls <= r.start < r.end <= b.len()
                &&& r.end == b.len() || b[r.end as int] == NEWLINE
                &&& forall|j: int| r.start <= j < r.end ==> is_trailing_space(#[trigger] b[j])
            },
        forall|j: int, k: int|
            #![trigger trailing_from(b, values, ls)[j], trailing_from(b, values, ls)[k]]
            0 <= j < k < trailing_from(b, values, ls).len() ==> trailing_from(b, values, ls)[j].end
                < trailing_from(b, values, ls)[k].start,
        forall|k: int, j: int|
            #![trigger trailing_from(b, values, ls)[k], values[j]]
            0 <= k < trailing_from(b, values, ls).len() && 0 <= j < values.len()
                ==> trailing_from(b, values, ls)[k].end <= values[j].start || values[j].end
                <= trailing_from(b, values, ls)[k].start,
    decreases b.len() - ls,
{
    if ls < b.len() {
        let e = line_end_from(b, ls);
        lemma_line_end_from_bounds(b, ls);
        let s0 = trim_back(b, ls, e);
        lemma_trim_back(b, ls, e);
        let s = ws_start(b, values, ls);
        let next = if e < b.len() {
            e + 1
        } else {
            b.len() as int
        };
        let rest = trailing_from(b, values, next);
        lemma_trailing_from(b, values, next);
        lemma_past_values(values, s0, e);
        if s < e {
            let r = Range { start: s as usize, end: e as usize };
            let all = seq![r] + rest;
            assert(trailing_from(b, values, ls) == all);
            assert forall|k: int| 0 <= k < all.len() implies {
                let r = #[trigger] all[k];
                &&& ls <= r.start < r.end <= b.len()
                &&& r.end == b.len() || b[r.end as int] == NEWLINE
                &&& forall|j: int| r.start <= j < r.end ==> is_trailing_space(#[trigger] b[j])
            } by {
                if k > 0 {
                    assert(all[k] == rest[k - 1]);
                }
            }
            assert forall|j: int, k: int|
                #![trigger all[j], all[k]]
                0 <= j < k < all.len() implies all[j].end < all[k].start by {
                assert(all[k] == rest[k - 1]);
                if j > 0 {
                    assert(all[j] == rest[j - 1]);
                }
            }
            assert forall|k: int, j: int|
                #![trigger all[k], values[j]]
                0 <= k < all.len() && 0 <= j < values.len() implies all[k].end <= values[j].start
                || values[j].end <= all[k].start by {
                if k > 0 {
                    assert(all[k] == rest[k - 1]);
                } else {
                    if values[j].start < e && values[j].end > s0 {
                        assert(values[j].end <= s);
                    }
                }
            }
        }
    }
}

// ---------------------------------------------------------------------------------------------
// Formatting
/// The end of the bytes `0..e` once trailing `'\n'`, `' '`, `'\t'` and `'\r'` are trimmed.
pub open spec fn trimmed_len(b: Seq<u8>, e: int) -> int
    decreases e,
{
    if e <= 0 {
        0
    } else if is_trailing_space(b[e - 1]) || b[e - 1] == NEWLINE {
        trimmed_len(b, e - 1)
    } else {
        e
    }
}

/// The end of the value region that ends last, or 0 where there is none.
pub open spec fn values_end(values: Seq<Range<usize>>) -> int
    decreases values.len(),
{
    if values.len() == 0 {
        0
    } else {
        let rest = values_end(values.drop_last());
        if values.last().end > rest {
            values.last().end as int
        } else {
            rest
        }
    }
}

pub proof fn lemma_values_end(values: Seq<Range<usize>>)
    ensures
        values_end(values) >= 0,
        forall|j: int| 0 <= j < values.len() ==> #[trigger] values[j].end <= values_end(values),
        values.len() > 0 ==> exists|j: int|
            0 <= j < values.len() && #[trigger] values[j].end == values_end(values),
    decreases values.len(),
{
    if values.len() > 0 {
        let init = values.drop_last();
        lemma_values_end(init);
        assert forall|j: int| 0 <= j < values.len() implies #[trigger] values[j].end <= values_end(
            values,
        ) by {
            if j < init.len() {
                assert(init[j] == values[j]);
            }
        }
        if values_end(values) == values_end(init) && init.len() > 0 {
            let j = choose|j: int| 0 <= j < init.len() && #[trigger] init[j].end == values_end(init);
            assert(values[j] == init[j]);
        } else {
            assert(values[values.len() - 1] == values.last());
        }
    }
}

/// Where the content ends: after the last byte that is not trailing whitespace, or after the
/// value region that ends last, which can reach the end of the file.
pub open spec fn content_end(b: Seq<u8>, values: Seq<Range<usize>>) -> int {
    let trimmed = trimmed_len(b, b.len() as int);
    if trimmed >= values_end(values) {
        trimmed
    } else {
        values_end(values)
    }
}

/// The bytes from `last` to `stop` without the whitespace ranges `ws` that start before `stop`.
pub open spec fn kept_from(b: Seq<u8>, ws: Seq<Range<usize>>, last: int, stop: int) -> Seq<u8>
    decreases ws.len(),
{
    if ws.len() == 0 || ws[0].start >= stop {
        b.subrange(last, stop)
    } else {
        b.subrange(last, ws[0].start as int) + kept_from(b, ws.drop_first(), ws[0].end as int, stop)
    }
}

/// The last value region reaches the end of the file.
pub open spec fn ends_in_value(b: Seq<u8>, values: Seq<Range<usize>>) -> bool {
    values.len() > 0 && values_end(values) == b.len()
}

/// The formatted bytes: the content without trailing whitespace outside value regions, ended by
/// a line feed unless it is empty, ends in one, or ends inside a value region, which may lack a
/// closing delimiter (an unterminated heredoc, `__END__` data, an unclosed `<pre>`, template
/// text) so that a line feed there could join its value.
pub open spec fn format_bytes(b: Seq<u8>, values: Seq<Range<usize>>) -> Seq<u8> {
    let kept = kept_from(b, trailing_from(b, values, 0), 0, content_end(b, values));
    if kept.len() > 0 && !ends_in_value(b, values) && kept.last() != NEWLINE {
        kept.push(NEWLINE)
    } else {
        kept
    }
}

/// No trailing whitespace range that starts before the end of the content reaches past it.
/// Where one does, the content after the last removed range is empty and out of order.
pub open spec fn format_defined(b: Seq<u8>, values: Seq<Range<usize>>) -> bool {
    let ws = trailing_from(b, values, 0);
    let stop = content_end(b, values);
    forall|k: int| 0 <= k < ws.len() && #[trigger] ws[k].start < stop ==> ws[k].end <= stop
}

pub proof fn lemma_trimmed_len(b: Seq<u8>, e: int)
    requires
        0 <= e <= b.len(),
    ensures
        0 <= trimmed_len(b, e) <= e,
        forall|j: int|
            trimmed_len(b, e) <= j < e ==> is_trailing_space(#[trigger] b[j]) || b[j] == NEWLINE,
    decreases e,
{
    if e > 0 && (is_trailing_space(b[e - 1]) || b[e - 1] == NEWLINE) {
        lemma_trimmed_len(b, e - 1);
    }
}

pub proof fn lemma_trimmed_last(b: Seq<u8>, e: int)
    requires
        0 <= e <= b.len(),
    ensures
        trimmed_len(b, e) > 0 ==> !is_trailing_space(b[trimmed_len(b, e) - 1]) && b[trimmed_len(b, e) - 1]
            != NEWLINE,
    decreases e,
{
    if e > 0 && (is_trailing_space(b[e - 1]) || b[e - 1] == NEWLINE) {
        lemma_trimmed_last(b, e - 1);
    }
}

/// No whitespace range that starts inside the content reaches past its end. Where the content
/// ends at its last non-blank byte, a range past it would hold that byte; where it ends at a
/// value, a range past it would overlap that value, which ranges skip.
pub proof fn lemma_format_defined(b: Seq<u8>, values: Seq<Range<usize>>)
    requires
        b.len() <= usize::MAX,
        forall|j: int| 0 <= j < values.len() ==> #[trigger] values[j].start <= values[j].end,
    ensures
        format_defined(b, values),
{
    let ws = trailing_from(b, values, 0);
    let stop = content_end(b, values);
    lemma_trailing_from(b, values, 0);
    lemma_trimmed_len(b, b.len() as int);
    lemma_trimmed_last(b, b.len() as int);
    lemma_values_end(values);
    assert forall|k: int| 0 <= k < ws.len() && #[trigger] ws[k].start < stop implies ws[k].end
        <= stop by {
        if ws[k].end > stop {
            if stop == trimmed_len(b, b.len() as int) {
                assert(is_trailing_space(b[stop - 1]));
            } else {
                let j = choose|j: int| 0 <= j < values.len() && #[trigger] values[j].end == values_end(values);
                assert(ws[k].end <= values[j].start || values[j].end <= ws[k].start);
            }
        }
    }
}

/// The end of the value region that ends last, or 0.
fn values_end_of(values: &Vec<Range<usize>>) -> (r: usize)
    requires
        forall|k: int| 0 <= k < values@.len() ==> #[trigger] values@[k].end <= usize::MAX,
    ensures
        r == values_end(values@),
{
    let mut r: usize = 0;
    let mut j: usize = 0;
    while j < values.len()
        invariant
            j <= values@.len(),
            r == values_end(values@.take(j as int)),
        decreases values@.len() - j,
    {
        proof {
            assert(values@.take(j + 1).drop_last() =~= values@.take(j as int));
            assert(values@.take(j + 1).last() == values@[j as int]);
        }
        if values[j].end > r {
            r = values[j].end;
        }
        j = j + 1;
    }
    proof {
        assert(values@.take(values@.len() as int) =~= values@);
    }
    r
}

/// The end of the content, computed as `format` does.
fn content_end_of(source: &str, values: &Vec<Range<usize>>) -> (r: usize)
    requires
        forall|k: int| 0 <= k < values@.len() ==> #[trigger] values@[k].end <= source.spec_bytes().len(),
    ensures
        r == content_end(source.spec_bytes(), values@),
{
    let bytes = source.as_bytes();
    let mut trimmed = bytes.len();
    while trimmed > 0 && (bytes[trimmed - 1] == 10 || bytes[trimmed - 1] == 32 || bytes[trimmed
        - 1] == 9 || bytes[trimmed - 1] == 13)
        invariant
            bytes@ == source.spec_bytes(),
            trimmed <= bytes@.len(),
            trimmed_len(bytes@, bytes@.len() as int) == trimmed_len(bytes@, trimmed as int),
        decreases trimmed,
    {
        trimmed = trimmed - 1;
    }
    let value_end = values_end_of(values);
    if trimmed >= value_end {
        trimmed
    } else {
        value_end
    }
}

proof fn lemma_kept_step(b: Seq<u8>, ws: Seq<Range<usize>>, k: int, last: int, stop: int)
    requires
        0 <= k < ws.len(),
        ws[k].start < stop,
    ensures
        kept_from(b, ws.skip(k), last, stop) == b.subrange(last, ws[k].start as int) + kept_from(
            b,
            ws.skip(k + 1),
            ws[k].end as int,
            stop,
        ),
{
    assert(ws.skip(k).drop_first() =~= ws.skip(k + 1));
    assert(ws.skip(k)[0] == ws[k]);
}

proof fn lemma_kept_stop(b: Seq<u8>, ws: Seq<Range<usize>>, k: int, last: int, stop: int)
    requires
        0 <= k <= ws.len(),
        k == ws.len() || ws[k].start >= stop,
    ensures
        kept_from(b, ws.skip(k), last, stop) == b.subrange(last, stop),
{
    if k < ws.len() {
        assert(ws.skip(k)[0] == ws[k]);
    }
}

/// Appends the characters of `source` between two boundaries, whose bytes are then appended to
/// the encoding of `out`.
fn push_slice(out: &mut String, source: &str, a: usize, b: usize)
    requires
        a <= b <= source.spec_bytes().len(),
        is_boundary(source, a as int),
        is_boundary(source, b as int),
    ensures
        encode_utf8(final(out)@) == encode_utf8(old(out)@) + source.spec_bytes().subrange(
            a as int,
            b as int,
        ),
{
    let piece = crate::text::substr(source, a, b);
    out.append(piece);
    proof {
        crate::text::lemma_encode_append(old(out)@, piece@);
        encode_utf8_decode_utf8(piece@);
        assert(encode_utf8(piece@) == piece.spec_bytes());
    }
}

/// The value regions of `source` under `tree`, none without a tree.
pub open spec fn values_of(source: &str, tree: Option<&SyntaxTree>) -> Seq<Range<usize>> {
    match tree {
        Some(t) => value_ranges_of(t, source),
        None => Seq::empty(),
    }
}

/// Removes trailing whitespace (including the `\r` of CRLF) and trailing blank lines outside
/// value regions, and ends non-empty code with a single newline unless it ends inside one.
#[verifier::rlimit(50)]
pub fn format(source: &str, tree: Option<&SyntaxTree>) -> (r: String)
    requires
        tree matches Some(t) ==> t.wf(source),
    ensures
        encode_utf8(r@) == format_bytes(source.spec_bytes(), values_of(source, tree)),
        // The bytes left out are the trailing whitespace ranges that start before the content's
        // end, and the bytes after it; none of them lies in a value region.
        format_defined(source.spec_bytes(), values_of(source, tree)),
        forall|k: int, j: int|
            #![trigger trailing_from(source.spec_bytes(), values_of(source, tree), 0)[k], values_of(source, tree)[j]]
            0 <= k < trailing_from(source.spec_bytes(), values_of(source, tree), 0).len() && 0 <= j
                < values_of(source, tree).len() ==> trailing_from(
                source.spec_bytes(),
                values_of(source, tree),
                0,
            )[k].end <= values_of(source, tree)[j].start || values_of(source, tree)[j].end
                <= trailing_from(source.spec_bytes(), values_of(source, tree), 0)[k].start,
        forall|j: int|
            0 <= j < values_of(source, tree).len() ==> #[trigger] values_of(source, tree)[j].end
                <= content_end(source.spec_bytes(), values_of(source, tree)),
{
    let ranges = value_ranges(source, tree);
    let bytes = source.as_bytes();
    let n = bytes.len();
    let ghost b = bytes@;
    proof {
        encode_utf8_valid_utf8(source@);
        if let Some(t) = tree {
            lemma_value_ranges_ok(t, source);
        }
    }
    // A value region can reach the end of the file, where the trailing blank run then stops.
    let stop = content_end_of(source, &ranges);
    let ws = trailing_whitespace(source, ranges.as_slice());
    proof {
        lemma_trailing_from(b, ranges@, 0);
        lemma_trimmed_len(b, b.len() as int);
        let t = trimmed_len(b, b.len() as int);
        lemma_ascii_is_boundary(b, t);
        lemma_format_defined(b, ranges@);
        lemma_values_end(ranges@);
        if stop != t {
            let j = choose|j: int| 0 <= j < ranges@.len() && #[trigger] ranges@[j].end == values_end(ranges@);
            assert(is_boundary(source, ranges@[j].end as int));
        }
    }
    let mut formatted = String::new();
    let mut last: usize = 0;
    let mut ends_with_newline = false;
    proof {
        assert(ws@.skip(0) =~= ws@);
        assert(encode_utf8(formatted@) =~= Seq::<u8>::empty());
        assert(Seq::<u8>::empty() + kept_from(b, ws@, 0, stop as int) =~= kept_from(b, ws@, 0, stop as int));
        is_char_boundary_start_end_of_seq(b);
    }
    let mut k: usize = 0;
    while k < ws.len() && ws[k].start < stop
        invariant
            bytes@ == b,
            b == source.spec_bytes(),
            valid_utf8(b),
            n == b.len(),
            stop == content_end(b, ranges@),
            stop <= n,
            is_boundary(source, stop as int),
            ws@ == trailing_from(b, ranges@, 0),
            format_defined(b, ranges@),
            forall|j: int|
                0 <= j < ranges@.len() ==> #[trigger] is_boundary(source, ranges@[j].end as int),
            k <= ws@.len(),
            last <= n,
            is_boundary(source, last as int),
            k > 0 ==> last == ws@[k - 1].end && last <= stop,
            k == 0 ==> last == 0,
            kept_from(b, ws@, 0, stop as int) == encode_utf8(formatted@) + kept_from(
                b,
                ws@.skip(k as int),
                last as int,
                stop as int,
            ),
            encode_utf8(formatted@).len() > 0 ==> ends_with_newline == (encode_utf8(
                formatted@,
            ).last() == NEWLINE),
            encode_utf8(formatted@).len() == 0 ==> !ends_with_newline,
        decreases ws@.len() - k,
    {
        let r = &ws[k];
        proof {
            lemma_kept_step(b, ws@, k as int, last as int, stop as int);
            let tf = trailing_from(b, ranges@, 0);
            lemma_trailing_from(b, ranges@, 0);
            if k > 0 {
                assert(tf[k - 1].end < tf[k as int].start);
            }
            let rs = ws@[k as int].start as int;
            assert(tf[k as int] == ws@[k as int]);
            assert(is_boundary(source, rs)) by {
                assert(is_trailing_space(b[rs]));
                lemma_ascii_is_boundary(b, rs);
            }
            assert(is_boundary(source, ws@[k as int].end as int)) by {
                lemma_ascii_is_boundary(b, ws@[k as int].end as int);
            }
        }
        let ghost before = encode_utf8(formatted@);
        push_slice(&mut formatted, source, last, r.start);
        if last < r.start {
            ends_with_newline = bytes[r.start - 1] == NEWLINE;
        }
        proof {
            let piece = b.subrange(last as int, ws@[k as int].start as int);
            if piece.len() > 0 {
                assert(encode_utf8(formatted@).last() == piece.last());
            } else {
                assert(encode_utf8(formatted@) =~= before);
            }
            assert(encode_utf8(formatted@) + kept_from(b, ws@.skip(k + 1), ws@[k as int].end as int, stop as int)
                =~= before + (piece + kept_from(b, ws@.skip(k + 1), ws@[k as int].end as int, stop as int)));
        }
        last = r.end;
        k = k + 1;
    }
    proof {
        lemma_kept_stop(b, ws@, k as int, last as int, stop as int);
    }
    let ghost before = encode_utf8(formatted@);
    push_slice(&mut formatted, source, last, stop);
    if last < stop {
        ends_with_newline = bytes[stop - 1] == NEWLINE;
    }
    proof {
        let piece = b.subrange(last as int, stop as int);
        if piece.len() > 0 {
            assert(encode_utf8(formatted@).last() == piece.last());
        } else {
            assert(encode_utf8(formatted@) =~= before);
        }
    }
    // A value region reaching the end of the file may lack a closing delimiter, so a newline
    // there could join its value.
    let ends_in_value = ranges.len() > 0 && values_end_of(&ranges) == n;
    let ghost kept = encode_utf8(formatted@);
    if kept_nonempty(&formatted) && !ends_in_value && !ends_with_newline {
        let ghost prev = formatted@;
        formatted.append("\n");
        proof {
            reveal_strlit("\n");
            crate::text::lemma_encode_append(prev, "\n"@);
            assert("\n"@ =~= seq!['\n']);
            lemma_encode_newline();
            assert(encode_utf8(formatted@) =~= kept.push(NEWLINE));
        }
    }
    formatted
}

proof fn lemma_encode_newline()
    ensures
        encode_utf8(seq!['\n']) == seq![NEWLINE],
{
    let c = '\n';
    assert(c as u32 == 10);
    assert((10u32 & 0x7Fu32) as u8 == 10u8) by (bit_vector);
    assert(seq![c].drop_first() =~= Seq::<char>::empty());
    assert(encode_utf8(seq![c]) =~= encode_scalar(10u32) + encode_utf8(Seq::<char>::empty()));
    assert(encode_utf8(seq![c]) =~= seq![NEWLINE]);
}

/// Whether the encoding of `s` is not empty.
fn kept_nonempty(s: &String) -> (r: bool)
    ensures
        r == (encode_utf8(s@).len() > 0),
{
    let text = s.as_str();
    let bytes = text.as_bytes();
    bytes.len() > 0
}

} // verus!
