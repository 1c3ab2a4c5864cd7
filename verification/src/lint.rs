//! Diagnostics: syntax errors and trailing whitespace.
use std::ops::Range;

use vstd::prelude::*;
use vstd::string::*;
use vstd::utf8::*;

use crate::format::{
    lemma_trailing_from, trailing_from, trailing_whitespace, value_ranges, value_ranges_of,
};
use crate::syntax::SyntaxTree;
use crate::text::{
    is_boundary, last_at_most, lemma_after_ascii, lemma_ascii_is_boundary, lemma_line_of,
    lemma_line_start_of_bounds, lemma_line_starts_shape, lemma_newlines_le, line_start_of,
    line_starts, line_starts_upto, newlines_before, str_eq, substr, text_of, utf16_len,
    utf16_units, NEWLINE,
};
use crate::tree::{lemma_visited_before, walk, walk_order};

verus! {

/// 1-based line and column, with columns counted in UTF-16 code units like JavaScript strings.
#[derive(Clone, Copy, Debug, PartialEq, Eq, Structural)]
pub struct Position {
    pub line: u32,
    pub column: u32,
}

#[derive(Debug)]
pub struct Diagnostic {
    pub rule: &'static str,
    pub message: String,
    pub start: Position,
    pub end: Position,
}

/// A [`Diagnostic`] with its texts taken by their characters.
pub struct DiagnosticView {
    pub rule: Seq<char>,
    pub message: Seq<char>,
    pub start: Position,
    pub end: Position,
}

impl View for Diagnostic {
    type V = DiagnosticView;

    open spec fn view(&self) -> DiagnosticView {
        DiagnosticView { rule: self.rule@, message: self.message@, start: self.start, end: self.end }
    }
}

pub open spec fn views(s: Seq<Diagnostic>) -> Seq<DiagnosticView> {
    s.map_values(|d: Diagnostic| d@)
}

/// The position of byte offset `byte` of `source`.
pub open spec fn position_at(source: &str, byte: int) -> Position {
    let b = source.spec_bytes();
    let start = line_start_of(b, byte);
    Position {
        line: (newlines_before(b, byte) + 1) as u32,
        column: (utf16_units(text_of(source, start, byte)) + 1) as u32,
    }
}

/// The start of each line of a source text.
pub struct LineIndex<'a> {
    pub source: &'a str,
    pub line_starts: Vec<usize>,
}

impl<'a> LineIndex<'a> {
    pub open spec fn wf(&self) -> bool {
        &&& self.line_starts@ == line_starts(self.source.spec_bytes())
        &&& self.source.spec_bytes().len() <= usize::MAX
    }

    pub fn new(source: &'a str) -> (r: Self)
        ensures
            r.source == source,
            r.wf(),
    {
        let bytes = source.as_bytes();
        let n = bytes.len();
        let mut line_starts: Vec<usize> = Vec::new();
        line_starts.push(0);
        let mut i: usize = 0;
        while i < n
            invariant
                bytes@ == source.spec_bytes(),
                n == bytes@.len(),
                i <= n,
                line_starts@ == line_starts_upto(bytes@, i as int),
            decreases n - i,
        {
            if bytes[i] == NEWLINE {
                line_starts.push(i + 1);
            }
            i = i + 1;
        }
        LineIndex { source, line_starts }
    }

    /// The 0-based line of byte offset `byte`: the number of line feeds before it.
    pub fn line_of(&self, byte: usize) -> (r: usize)
        requires
            self.wf(),
            byte <= self.source.spec_bytes().len(),
        ensures
            r == newlines_before(self.source.spec_bytes(), byte as int),
            r <= byte,
    {
        let ghost b = self.source.spec_bytes();
        proof {
            lemma_line_starts_shape(b, b.len() as int);
            lemma_line_of(b, byte as int);
            lemma_newlines_le(b, byte as int);
        }
        let line = last_at_most(&self.line_starts, byte);
        proof {
            let nb = newlines_before(b, byte as int) as int;
            if line < nb {
                assert(self.line_starts@[line + 1] <= byte);
            }
        }
        line
    }

    /// The position of byte offset `byte`.
    pub fn position(&self, byte: usize) -> (r: Position)
        requires
            self.wf(),
            byte <= self.source.spec_bytes().len(),
            is_boundary(self.source, byte as int),
            self.source.spec_bytes().len() < u32::MAX,
        ensures
            r == position_at(self.source, byte as int),
    {
        let ghost b = self.source.spec_bytes();
        let line = self.line_of(byte);
        proof {
            lemma_line_starts_shape(b, b.len() as int);
            lemma_line_of(b, byte as int);
            lemma_line_start_of_bounds(b, byte as int);
            let start = line_start_of(b, byte as int);
            encode_utf8_valid_utf8(self.source@);
            if start > 0 {
                lemma_after_ascii(b, start);
            } else {
                is_char_boundary_start_end_of_seq(b);
            }
        }
        let start = self.line_starts[line];
        let piece = substr(self.source, start, byte);
        let column = utf16_len(piece);
        proof {
            crate::text::lemma_utf16_units_le_bytes(piece@);
        }
        Position { line: line as u32 + 1, column: column as u32 + 1 }
    }
}

// ---------------------------------------------------------------------------------------------
// Syntax errors
/// Every node of `s` is named and holds no syntax error.
pub open spec fn all_named_clean(t: &SyntaxTree, s: Seq<usize>) -> bool
    decreases s.len(),
{
    if s.len() == 0 {
        true
    } else {
        t.nodes@[s[0] as int].is_named && !t.nodes@[s[0] as int].has_error && all_named_clean(
            t,
            s.drop_first(),
        )
    }
}

/// tree-sitter-kotlin-ng parses a valid one-line class body such as `class A { val x = 1 }` as an
/// `enum_class_body` whose member sits in an ERROR node, although the member itself parses
/// cleanly.
pub open spec fn recovered_kotlin_member(t: &SyntaxTree, i: int) -> bool {
    &&& t.nodes@[i].is_error
    &&& t.nodes@[i].parent matches Some(p) && t.kind(p as int) == "enum_class_body"@
    &&& all_named_clean(t, t.children(i))
}

/// The walk for syntax errors descends into nodes that hold an error without being one.
pub open spec fn error_descend(t: &SyntaxTree) -> Seq<bool> {
    Seq::new(
        t.nodes@.len(),
        |i: int|
            t.nodes@[i].has_error && !recovered_kotlin_member(t, i) && !t.nodes@[i].is_error
                && !t.nodes@[i].is_missing,
    )
}

/// The node is an error or a missing node that the walk reports.
pub open spec fn reports_error(t: &SyntaxTree, i: int) -> bool {
    t.nodes@[i].has_error && !recovered_kotlin_member(t, i) && (t.nodes@[i].is_error
        || t.nodes@[i].is_missing)
}

/// The diagnostic for the error or missing node `i`.
pub open spec fn syntax_error_at(t: &SyntaxTree, source: &str, i: int) -> DiagnosticView {
    let node = t.nodes@[i];
    DiagnosticView {
        rule: "syntax-error"@,
        message: if node.is_error {
            "Unexpected syntax"@
        } else {
            "Missing "@ + t.kind(i)
        },
        start: position_at(source, node.start_byte as int),
        end: position_at(source, node.end_byte as int),
    }
}

/// The diagnostics for the reported nodes of `s`, in order.
pub open spec fn syntax_errors_in(t: &SyntaxTree, source: &str, s: Seq<usize>) -> Seq<
    DiagnosticView,
>
    decreases s.len(),
{
    if s.len() == 0 {
        seq![]
    } else {
        let rest = syntax_errors_in(t, source, s.drop_last());
        if reports_error(t, s.last() as int) {
            rest.push(syntax_error_at(t, source, s.last() as int))
        } else {
            rest
        }
    }
}

/// The syntax errors of the tree, in preorder.
pub open spec fn syntax_errors(t: &SyntaxTree, source: &str) -> Seq<DiagnosticView> {
    syntax_errors_in(t, source, walk_order(t, 0, error_descend(t)))
}

/// Whether node `i` is a Kotlin member that the grammar wrapped in an error.
pub fn is_recovered_kotlin_member(tree: &SyntaxTree, i: usize) -> (r: bool)
    requires
        tree.wf_shape(),
        i < tree.len(),
    ensures
        r == recovered_kotlin_member(tree, i as int),
{
    if !tree.nodes[i].is_error {
        return false;
    }
    let parent_ok = match tree.nodes[i].parent {
        Some(p) => {
            proof {
                if i > 0 {
                    assert(tree.parent_ix(i as int) == p);
                }
            }
            str_eq(tree.nodes[p].kind.as_str(), "enum_class_body")
        },
        None => false,
    };
    if !parent_ok {
        return false;
    }
    let stop = tree.nodes[i].subtree_end;
    proof {
        assert(i < tree.end(i as int));
    }
    let mut c = i + 1;
    while c < stop
        invariant
            tree.wf_shape(),
            i < tree.len(),
            stop == tree.end(i as int),
            i < c <= stop,
            all_named_clean(tree, tree.children(i as int)) == all_named_clean(
                tree,
                tree.chain(c as int, stop as int),
            ),
        decreases stop - c,
    {
        proof {
            tree.lemma_chain_unfold(c as int, stop as int);
            let rest = tree.chain(tree.end(c as int), stop as int);
            assert((seq![c] + rest).drop_first() =~= rest);
            assert(tree.end(c as int) <= stop);
        }
        if !tree.nodes[c].is_named || tree.nodes[c].has_error {
            return false;
        }
        c = tree.nodes[c].subtree_end;
    }
    true
}

/// The nodes that the walk for syntax errors descends into.
fn error_descend_of(tree: &SyntaxTree) -> (d: Vec<bool>)
    requires
        tree.wf_shape(),
    ensures
        d@ == error_descend(tree),
{
    let n = tree.nodes.len();
    let mut d: Vec<bool> = Vec::new();
    let mut i: usize = 0;
    while i < n
        invariant
            tree.wf_shape(),
            n == tree.len(),
            i <= n,
            d@.len() == i,
            forall|k: int| 0 <= k < i ==> d@[k] == error_descend(tree)[k],
        decreases n - i,
    {
        let node = &tree.nodes[i];
        d.push(node.has_error && !is_recovered_kotlin_member(tree, i) && !node.is_error
            && !node.is_missing);
        i = i + 1;
    }
    proof {
        assert(d@ =~= error_descend(tree));
    }
    d
}

/// Appends the syntax errors of the tree to `diagnostics`: error nodes as unexpected syntax and
/// missing nodes as missing.
pub fn collect_syntax_errors(lines: &LineIndex, tree: &SyntaxTree, diagnostics: &mut Vec<Diagnostic>)
    requires
        lines.wf(),
        tree.wf(lines.source),
        lines.source.spec_bytes().len() < u32::MAX,
    ensures
        views(final(diagnostics)@) == views(old(diagnostics)@) + syntax_errors(tree, lines.source),
{
    let descend = error_descend_of(tree);
    let order = walk(tree, 0, &descend);
    proof {
        lemma_visited_before(tree, 0, descend@, tree.end(0));
    }
    let ghost start = views(diagnostics@);
    let mut j: usize = 0;
    while j < order.len()
        invariant
            lines.wf(),
            tree.wf(lines.source),
            lines.source.spec_bytes().len() < u32::MAX,
            descend@ == error_descend(tree),
            order@ == walk_order(tree, 0, descend@),
            j <= order@.len(),
            views(diagnostics@) == start + syntax_errors_in(tree, lines.source, order@.take(j as int)),
            forall|k: int| 0 <= k < order@.len() ==> #[trigger] order@[k] < tree.len(),
        decreases order@.len() - j,
    {
        let k = order[j];
        proof {
            assert(order@.take(j + 1).drop_last() =~= order@.take(j as int));
            assert(order@.take(j + 1).last() == k);
        }
        let node = &tree.nodes[k];
        if node.has_error && !is_recovered_kotlin_member(tree, k) && (node.is_error
            || node.is_missing) {
            let message = if node.is_error {
                "Unexpected syntax".to_owned()
            } else {
                let mut m = "Missing ".to_owned();
                m.append(node.kind.as_str());
                m
            };
            let d = Diagnostic {
                rule: "syntax-error",
                message,
                start: lines.position(node.start_byte),
                end: lines.position(node.end_byte),
            };
            let ghost prev = diagnostics@;
            diagnostics.push(d);
            proof {
                assert(views(diagnostics@) =~= views(prev).push(d@));
            }
        }
        j = j + 1;
    }
    proof {
        assert(order@.take(order@.len() as int) =~= order@);
    }
}

proof fn lemma_syntax_errors_nonempty(t: &SyntaxTree, source: &str, s: Seq<usize>)
    ensures
        syntax_errors_in(t, source, s).len() > 0 <==> exists|k: int|
            0 <= k < s.len() && reports_error(t, #[trigger] s[k] as int),
    decreases s.len(),
{
    if s.len() > 0 {
        let init = s.drop_last();
        lemma_syntax_errors_nonempty(t, source, init);
        if exists|k: int| 0 <= k < init.len() && reports_error(t, #[trigger] init[k] as int) {
            let k = choose|k: int| 0 <= k < init.len() && reports_error(t, #[trigger] init[k] as int);
            assert(s[k] == init[k]);
        }
        if exists|k: int| 0 <= k < s.len() && reports_error(t, #[trigger] s[k] as int) {
            let k = choose|k: int| 0 <= k < s.len() && reports_error(t, #[trigger] s[k] as int);
            if k < init.len() {
                assert(init[k] == s[k]);
            }
        }
    }
}

/// Whether `lint` reports a `syntax-error`. `has_error` alone also counts invisible zero-width
/// missing tokens that tree-sitter-kotlin-ng inserts into valid one-line class bodies.
pub fn has_syntax_errors(source: &str, tree: &SyntaxTree) -> (r: bool)
    requires
        tree.wf(source),
    ensures
        r == (syntax_errors(tree, source).len() > 0),
{
    let descend = error_descend_of(tree);
    let order = walk(tree, 0, &descend);
    proof {
        lemma_visited_before(tree, 0, descend@, tree.end(0));
        lemma_syntax_errors_nonempty(tree, source, order@);
    }
    let mut j: usize = 0;
    while j < order.len()
        invariant
            tree.wf(source),
            j <= order@.len(),
            forall|k: int| 0 <= k < order@.len() ==> #[trigger] order@[k] < tree.len(),
            forall|k: int| 0 <= k < j ==> !reports_error(tree, #[trigger] order@[k] as int),
            (syntax_errors(tree, source).len() > 0) <==> exists|k: int|
                0 <= k < order@.len() && reports_error(tree, #[trigger] order@[k] as int),
        decreases order@.len() - j,
    {
        let k = order[j];
        let node = &tree.nodes[k];
        if node.has_error && !is_recovered_kotlin_member(tree, k) && (node.is_error
            || node.is_missing) {
            proof {
                assert(reports_error(tree, order@[j as int] as int));
            }
            return true;
        }
        j = j + 1;
    }
    false
}

// ---------------------------------------------------------------------------------------------
// Trailing whitespace and the whole lint
/// The end of the whitespace range that a diagnostic marks: a CRLF line ending alone is not
/// trailing whitespace, although `format` converts it.
pub open spec fn flagged_end(b: Seq<u8>, r: Range<usize>) -> int {
    if r.start < r.end && b[r.end - 1] == 13 {
        r.end - 1
    } else {
        r.end as int
    }
}

/// The trailing-whitespace diagnostics for the ranges `ws`, in order.
pub open spec fn whitespace_diagnostics(source: &str, ws: Seq<Range<usize>>) -> Seq<DiagnosticView>
    decreases ws.len(),
{
    if ws.len() == 0 {
        seq![]
    } else {
        let rest = whitespace_diagnostics(source, ws.drop_last());
        let r = ws.last();
        let end = flagged_end(source.spec_bytes(), r);
        if r.start < end {
            rest.push(
                DiagnosticView {
                    rule: "trailing-whitespace"@,
                    message: "Trailing whitespace"@,
                    start: position_at(source, r.start as int),
                    end: position_at(source, end),
                },
            )
        } else {
            rest
        }
    }
}

/// The diagnostics before sorting: the syntax errors, then the trailing whitespace.
pub open spec fn lint_unsorted(source: &str, tree: Option<&SyntaxTree>) -> Seq<DiagnosticView> {
    let values = match tree {
        Some(t) => value_ranges_of(t, source),
        None => Seq::empty(),
    };
    let errors = match tree {
        Some(t) => syntax_errors(t, source),
        None => Seq::empty(),
    };
    errors + whitespace_diagnostics(source, trailing_from(source.spec_bytes(), values, 0))
}

/// Where a diagnostic sorts: by its start.
pub open spec fn start_key(d: DiagnosticView) -> (u32, u32) {
    (d.start.line, d.start.column)
}

pub open spec fn key_le(a: (u32, u32), b: (u32, u32)) -> bool {
    a.0 < b.0 || (a.0 == b.0 && a.1 <= b.1)
}

/// The diagnostics of `s` that start at `k`, in order.
pub open spec fn starting_at(s: Seq<DiagnosticView>, k: (u32, u32)) -> Seq<DiagnosticView> {
    s.filter(|d: DiagnosticView| start_key(d) == k)
}

/// `out` is `input` sorted by start, with diagnostics of equal starts in their order in `input`.
pub open spec fn stably_sorted(out: Seq<DiagnosticView>, input: Seq<DiagnosticView>) -> bool {
    &&& forall|i: int, j: int| 0 <= i < j < out.len() ==> key_le(start_key(out[i]), start_key(out[j]))
    &&& forall|k: (u32, u32)| #[trigger] starting_at(out, k) == starting_at(input, k)
}

pub proof fn lemma_starting_at_step(s: Seq<DiagnosticView>, k: (u32, u32))
    requires
        s.len() > 0,
    ensures
        starting_at(s, k) == if start_key(s.last()) == k {
            starting_at(s.drop_last(), k).push(s.last())
        } else {
            starting_at(s.drop_last(), k)
        },
{
    reveal(Seq::filter);
}

pub proof fn lemma_starting_at_none(s: Seq<DiagnosticView>, k: (u32, u32))
    requires
        forall|i: int| 0 <= i < s.len() ==> start_key(#[trigger] s[i]) != k,
    ensures
        starting_at(s, k) == Seq::<DiagnosticView>::empty(),
    decreases s.len(),
{
    reveal(Seq::filter);
    if s.len() > 0 {
        assert(start_key(s[s.len() - 1]) != k);
        lemma_starting_at_none(s.drop_last(), k);
        lemma_starting_at_step(s, k);
    } else {
        assert(starting_at(s, k) =~= Seq::<DiagnosticView>::empty());
    }
}

pub proof fn lemma_starting_at_has(s: Seq<DiagnosticView>, i: int)
    requires
        0 <= i < s.len(),
    ensures
        starting_at(s, start_key(s[i])).len() > 0,
    decreases s.len(),
{
    lemma_starting_at_step(s, start_key(s[i]));
    if i < s.len() - 1 {
        assert(s.drop_last()[i] == s[i]);
        lemma_starting_at_has(s.drop_last(), i);
    }
}

pub proof fn lemma_starting_at_add(a: Seq<DiagnosticView>, b: Seq<DiagnosticView>, k: (u32, u32))
    ensures
        starting_at(a + b, k) == starting_at(a, k) + starting_at(b, k),
    decreases b.len(),
{
    if b.len() == 0 {
        assert(a + b =~= a);
        lemma_starting_at_none(b, k);
        assert(starting_at(a, k) + starting_at(b, k) =~= starting_at(a, k));
    } else {
        lemma_starting_at_add(a, b.drop_last(), k);
        assert((a + b).drop_last() =~= a + b.drop_last());
        assert((a + b).last() == b.last());
        lemma_starting_at_step(a + b, k);
        lemma_starting_at_step(b, k);
        if start_key(b.last()) == k {
            assert(starting_at(a, k) + starting_at(b.drop_last(), k).push(b.last()) =~= (starting_at(
                a,
                k,
            ) + starting_at(b.drop_last(), k)).push(b.last()));
        }
    }
}

/// Diagnostic `d` starts strictly before diagnostic `e`.
pub open spec fn starts_before(d: DiagnosticView, e: DiagnosticView) -> bool {
    let a = start_key(d);
    let b = start_key(e);
    a.0 < b.0 || (a.0 == b.0 && a.1 < b.1)
}

/// Sorts the diagnostics by where they start, keeping those that start together in their order:
/// each, from the last to the first, goes before the sorted ones that start at or after it.
fn sort_by_start(diagnostics: Vec<Diagnostic>) -> (out: Vec<Diagnostic>)
    ensures
        stably_sorted(views(out@), views(diagnostics@)),
{
    let ghost all = views(diagnostics@);
    let mut input = diagnostics;
    let mut out: Vec<Diagnostic> = Vec::new();
    proof {
        assert(views(out@) =~= Seq::<DiagnosticView>::empty());
        assert forall|k: (u32, u32)| #[trigger] starting_at(views(out@), k) == starting_at(
            all.subrange(all.len() as int, all.len() as int),
            k,
        ) by {
            assert(all.subrange(all.len() as int, all.len() as int) =~= views(out@));
        }
    }
    while input.len() > 0
        invariant
            input@.len() <= all.len(),
            views(input@) == all.subrange(0, input@.len() as int),
            forall|i: int, j: int|
                0 <= i < j < out@.len() ==> key_le(start_key(#[trigger] out@[i]@), start_key(#[trigger] out@[j]@)),
            forall|k: (u32, u32)|
                #[trigger] starting_at(views(out@), k) == starting_at(
                    all.subrange(input@.len() as int, all.len() as int),
                    k,
                ),
        decreases input@.len(),
    {
        let ghost m = input@.len() as int;
        let ghost before = views(out@);
        let ghost taken = input@;
        let x = input.pop().unwrap();
        proof {
            assert(views(input@) =~= all.subrange(0, m - 1));
            assert(x == taken[m - 1]);
            assert(all[m - 1] == views(taken)[m - 1]);
            assert(all[m - 1] == x@);
        }
        let mut p: usize = 0;
        while p < out.len() && (out[p].start.line < x.start.line || (out[p].start.line == x.start.line
            && out[p].start.column < x.start.column))
            invariant
                p <= out@.len(),
                forall|i: int| 0 <= i < p ==> starts_before(#[trigger] out@[i]@, x@),
            decreases out@.len() - p,
        {
            p = p + 1;
        }
        let ghost kx = start_key(x@);
        proof {
            assert forall|i: int| p <= i < out@.len() implies key_le(kx, start_key(#[trigger] out@[i]@)) by {
                assert(!starts_before(out@[p as int]@, x@));
                if i > p {
                    assert(key_le(start_key(out@[p as int]@), start_key(out@[i]@)));
                }
            }
        }
        let ghost lo = before.subrange(0, p as int);
        let ghost hi = before.subrange(p as int, before.len() as int);
        out.insert(p, x);
        proof {
            assert(views(out@) =~= lo + seq![x@] + hi);
            assert(before =~= lo + hi);
            let suffix = all.subrange(m - 1, all.len() as int);
            assert(suffix =~= seq![x@] + all.subrange(m, all.len() as int));
            assert forall|k: (u32, u32)| #[trigger] starting_at(views(out@), k) == starting_at(suffix, k) by {
                lemma_starting_at_add(lo + seq![x@], hi, k);
                lemma_starting_at_add(lo, seq![x@], k);
                lemma_starting_at_add(lo, hi, k);
                lemma_starting_at_add(seq![x@], all.subrange(m, all.len() as int), k);
                lemma_starting_at_step(seq![x@], k);
                lemma_starting_at_none(Seq::<DiagnosticView>::empty(), k);
                assert(seq![x@].drop_last() =~= Seq::<DiagnosticView>::empty());
                assert forall|i: int| 0 <= i < lo.len() implies start_key(#[trigger] lo[i]) != kx by {
                    assert(lo[i] == out@[i]@);
                }
                if k == kx {
                    lemma_starting_at_none(lo, k);
                    assert(starting_at(lo, k) + starting_at(seq![x@], k) + starting_at(hi, k) =~= seq![x@] + (starting_at(lo, k) + starting_at(hi, k)));
                } else {
                    assert(starting_at(lo, k) + starting_at(seq![x@], k) + starting_at(hi, k) =~= starting_at(lo, k) + starting_at(hi, k));
                }
            }
            assert forall|i: int, j: int|
                0 <= i < j < out@.len() implies key_le(start_key(#[trigger] out@[i]@), start_key(#[trigger] out@[j]@)) by {
                let v = views(out@);
                assert(v[i] == out@[i]@ && v[j] == out@[j]@);
                if j < p {
                    assert(v[i] == before[i] && v[j] == before[j]);
                } else if j == p {
                    assert(v[i] == before[i]);
                    assert(starts_before(before[i], x@));
                } else if i == p {
                    assert(v[j] == before[j - 1]);
                } else if i < p {
                    assert(v[i] == before[i] && v[j] == before[j - 1]);
                    assert(starts_before(before[i], x@));
                } else {
                    assert(v[i] == before[i - 1] && v[j] == before[j - 1]);
                }
            }
        }
    }
    proof {
        assert(all.subrange(0, all.len() as int) =~= all);
    }
    out
}

/// The syntax errors and the trailing whitespace of `source`, sorted by where they start.
pub fn lint(source: &str, tree: Option<&SyntaxTree>) -> (r: Vec<Diagnostic>)
    requires
        tree matches Some(t) ==> t.wf(source),
        source.spec_bytes().len() < u32::MAX,
    ensures
        stably_sorted(views(r@), lint_unsorted(source, tree)),
{
    let lines = LineIndex::new(source);
    let mut diagnostics: Vec<Diagnostic> = Vec::new();
    if let Some(tree) = tree {
        collect_syntax_errors(&lines, tree, &mut diagnostics);
    }
    let values = value_ranges(source, tree);
    let ws = trailing_whitespace(source, values.as_slice());
    let bytes = source.as_bytes();
    let ghost b = bytes@;
    let ghost errors = views(diagnostics@);
    proof {
        assert(views(Seq::<Diagnostic>::empty()) =~= Seq::<DiagnosticView>::empty());
        encode_utf8_valid_utf8(source@);
        lemma_trailing_from(b, values@, 0);
    }
    let mut k: usize = 0;
    while k < ws.len()
        invariant
            lines.wf(),
            lines.source == source,
            bytes@ == b,
            b == source.spec_bytes(),
            valid_utf8(b),
            b.len() < u32::MAX,
            ws@ == trailing_from(b, values@, 0),
            k <= ws@.len(),
            views(diagnostics@) == errors + whitespace_diagnostics(source, ws@.take(k as int)),
        decreases ws@.len() - k,
    {
        let start = ws[k].start;
        let mut end = ws[k].end;
        proof {
            lemma_trailing_from(b, values@, 0);
            assert(ws@.take(k + 1).drop_last() =~= ws@.take(k as int));
            assert(ws@.take(k + 1).last() == ws@[k as int]);
            assert(ws@[k as int] == trailing_from(b, values@, 0)[k as int]);
            lemma_ascii_is_boundary(b, start as int);
            lemma_ascii_is_boundary(b, end as int);
        }
        if bytes[end - 1] == 13 {
            end = end - 1;
            proof {
                lemma_ascii_is_boundary(b, end as int);
            }
        }
        if start < end {
            let d = Diagnostic {
                rule: "trailing-whitespace",
                message: "Trailing whitespace".to_owned(),
                start: lines.position(start),
                end: lines.position(end),
            };
            let ghost prev = diagnostics@;
            diagnostics.push(d);
            proof {
                assert(views(diagnostics@) =~= views(prev).push(d@));
            }
        }
        k = k + 1;
    }
    proof {
        assert(ws@.take(ws@.len() as int) =~= ws@);
    }
    sort_by_start(diagnostics)
}

} // verus!
