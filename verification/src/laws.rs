//! Properties that hold across the library's functions.
use std::ops::Range;

use vstd::prelude::*;
use vstd::string::*;
use vstd::utf8::*;

use crate::format::{
    ascii_space_run, concatenation, content_end, named_count, ends_in_value, format_bytes, is_value,
    kept_from, node_bytes, preformatted,
    lemma_format_defined, lemma_past_values, lemma_trailing_from, lemma_trim_back,
    lemma_trimmed_last, lemma_trimmed_len, lemma_value_ranges_ok, lemma_values_end, past_values,
    ranges_of_values, trailing_from, trim_back, trimmed_len, value_descend, value_nodes_ranges,
    value_range, value_ranges_of, values_end, ws_start,
};
use crate::language::{has_grammar, language_ids_spec, profile_view_of, ProfileView};
use crate::lint::{
    key_le, lemma_starting_at_has, lemma_starting_at_none, lemma_starting_at_step, lint_unsorted,
    start_key, starting_at, stably_sorted, syntax_errors, syntax_errors_in,
    position_at, whitespace_diagnostics, DiagnosticView, Position,
};
use crate::metrics::{
    any_in, case_guarded, comment_node, comprehension_filter, condition_guard, count_kind,
    dart_handler_block, default_case, field_child, inner_nesting, lemma_effect_bounds,
    line_metrics, operator_text, outer_nesting, totals, visit_effect, when_guard, LineKind,
    Nesting,
};
use crate::syntax::{
    end_of, node_depth, order_ok, parent_of, shape_ok, tree_of_records, NodeRecord, SyntaxNode,
    SyntaxTree,
};
use crate::text::{
    ascii_lower, eq_ascii_case, has_sub, is_ascii_space, is_boundary, lemma_encode_append, occurs_at, is_trailing_space, lemma_after_ascii, lemma_ascii_is_boundary, lemma_boundary_in_suffix,
    lemma_line_end_from_bounds, lemma_utf16_units_le_bytes, lemma_utf16_units_prefix, line_count,
    line_end_from, line_start_of, newlines_before, text_of, utf16_units, NEWLINE,
};
use crate::tree::{code_at_or_after, code_at_or_before, lemma_visited_before, walk_order};

verus! {

proof fn lemma_counts_sum(source: &str, tree: Option<&SyntaxTree>, m: int)
    requires
        m >= 0,
    ensures
        count_kind(source, tree, LineKind::Code, m) + count_kind(source, tree, LineKind::Comment, m)
            + count_kind(source, tree, LineKind::Blank, m) == m,
        tree is None ==> count_kind(source, tree, LineKind::Comment, m) == 0,
    decreases m,
{
    if m > 0 {
        lemma_counts_sum(source, tree, m - 1);
    }
}

/// Every line is exactly one of a code, a comment and a blank line, and plain text, which has no
/// syntax tree, has no comment lines.
pub proof fn law_lines_partition(source: &str, tree: Option<&SyntaxTree>)
    requires
        line_count(source.spec_bytes()) <= u32::MAX,
    ensures
        line_metrics(source, tree).total == line_metrics(source, tree).code + line_metrics(source, tree).comment
            + line_metrics(source, tree).blank,
        tree is None ==> line_metrics(source, tree).comment == 0,
{
    let n = line_count(source.spec_bytes()) as int;
    lemma_counts_sum(source, tree, n);
}

proof fn lemma_totals_bounds(t: &SyntaxTree, source: &str, pv: ProfileView, m: int)
    requires
        t.wf_shape(),
        0 <= m <= t.len(),
    ensures
        totals(t, source, pv, m).1 >= totals(t, source, pv, m).0 >= 0,
        totals(t, source, pv, m).2 >= 0,
        totals(t, source, pv, m).3 >= 0,
        forall|k: int| 0 <= k < m ==> (#[trigger] inner_nesting(t, source, pv, k)).control <= k + 1
            && inner_nesting(t, source, pv, k).cognitive <= k + 1 && inner_nesting(t, source, pv, k).function
            <= k + 1,
    decreases m,
{
    if m > 0 {
        lemma_totals_bounds(t, source, pv, m - 1);
        let k = m - 1;
        let n = outer_nesting(t, source, pv, k);
        t.lemma_links(k);
        assert(n.cognitive <= k && n.control <= k && n.function <= k) by {
            let p = t.parent_ix(k);
            if 0 <= p < k {
                assert(n == inner_nesting(t, source, pv, p));
            }
        }
        lemma_effect_bounds(t, source, pv, k, n);
    }
}

/// The cyclomatic complexity counts the file itself and each function as a path, so it exceeds
/// the number of functions; no count is negative.
pub proof fn law_cyclomatic_exceeds_functions(t: &SyntaxTree, source: &str, pv: ProfileView)
    requires
        t.wf_shape(),
    ensures
        1 + totals(t, source, pv, t.len()).1 > totals(t, source, pv, t.len()).0 >= 0,
        totals(t, source, pv, t.len()).2 >= 0,
        totals(t, source, pv, t.len()).3 >= 0,
{
    lemma_totals_bounds(t, source, pv, t.len());
}

proof fn lemma_filter_within<A>(s: Seq<A>, pred: spec_fn(A) -> bool, x: A)
    requires
        s.filter(pred).contains(x),
    ensures
        s.contains(x),
    decreases s.len(),
{
    reveal(Seq::filter);
    if s.len() > 0 {
        let sub = s.drop_last().filter(pred);
        if sub.contains(x) {
            lemma_filter_within(s.drop_last(), pred, x);
            let k = choose|k: int| 0 <= k < s.drop_last().len() && s.drop_last()[k] == x;
            assert(s[k] == x);
        } else {
            let f = s.filter(pred);
            assert(f == if pred(s.last()) {
                sub.push(s.last())
            } else {
                sub
            });
            let k = choose|k: int| 0 <= k < f.len() && f[k] == x;
            if k < sub.len() {
                assert(sub[k] == x);
            }
            assert(s[s.len() - 1] == x);
        }
    }
}

/// A stable sort keeps every diagnostic and adds none.
proof fn lemma_sorted_same_items(out: Seq<DiagnosticView>, input: Seq<DiagnosticView>, d: DiagnosticView)
    requires
        stably_sorted(out, input),
    ensures
        out.contains(d) <==> input.contains(d),
{
    broadcast use vstd::seq_lib::group_filter_ensures;

    let k = start_key(d);
    let pred = |e: DiagnosticView| start_key(e) == k;
    assert(starting_at(out, k) == starting_at(input, k));
    if out.contains(d) {
        let i = choose|i: int| 0 <= i < out.len() && out[i] == d;
        assert(out.filter(pred).contains(out[i]));
        lemma_filter_within(input, pred, d);
    }
    if input.contains(d) {
        let i = choose|i: int| 0 <= i < input.len() && input[i] == d;
        assert(input.filter(pred).contains(input[i]));
        lemma_filter_within(out, pred, d);
    }
}

proof fn lemma_error_rules(t: &SyntaxTree, source: &str, s: Seq<usize>)
    ensures
        forall|i: int|
            0 <= i < syntax_errors_in(t, source, s).len() ==> (#[trigger] syntax_errors_in(t, source, s)[i]).rule
                == "syntax-error"@,
    decreases s.len(),
{
    if s.len() > 0 {
        lemma_error_rules(t, source, s.drop_last());
        let rest = syntax_errors_in(t, source, s.drop_last());
        let all = syntax_errors_in(t, source, s);
        assert forall|i: int| 0 <= i < all.len() implies (#[trigger] all[i]).rule == "syntax-error"@ by {
            if i < rest.len() {
                assert(all[i] == rest[i]);
            }
        }
    }
}

proof fn lemma_whitespace_rules(source: &str, ws: Seq<std::ops::Range<usize>>)
    ensures
        forall|i: int|
            0 <= i < whitespace_diagnostics(source, ws).len() ==> (#[trigger] whitespace_diagnostics(
                source,
                ws,
            )[i]).rule == "trailing-whitespace"@,
    decreases ws.len(),
{
    if ws.len() > 0 {
        lemma_whitespace_rules(source, ws.drop_last());
        let rest = whitespace_diagnostics(source, ws.drop_last());
        let all = whitespace_diagnostics(source, ws);
        assert forall|i: int| 0 <= i < all.len() implies (#[trigger] all[i]).rule == "trailing-whitespace"@ by {
            if i < rest.len() {
                assert(all[i] == rest[i]);
            }
        }
    }
}

/// `has_syntax_errors` holds exactly where `lint` reports a `syntax-error`: given the tree,
/// the syntax errors are non-empty if and only if the sorted diagnostics hold one with that rule.
pub proof fn law_syntax_errors_are_linted(t: &SyntaxTree, source: &str, out: Seq<DiagnosticView>)
    requires
        t.wf(source),
        stably_sorted(out, lint_unsorted(source, Some(t))),
    ensures
        (syntax_errors(t, source).len() > 0) <==> exists|i: int|
            0 <= i < out.len() && (#[trigger] out[i]).rule == "syntax-error"@,
{
    let errors = syntax_errors(t, source);
    let input = lint_unsorted(source, Some(t));
    let ws = whitespace_diagnostics(
        source,
        crate::format::trailing_from(source.spec_bytes(), crate::format::value_ranges_of(t, source), 0),
    );
    assert(input == errors + ws);
    lemma_error_rules(t, source, crate::tree::walk_order(t, 0, crate::lint::error_descend(t)));
    lemma_whitespace_rules(
        source,
        crate::format::trailing_from(source.spec_bytes(), crate::format::value_ranges_of(t, source), 0),
    );
    reveal_strlit("syntax-error");
    reveal_strlit("trailing-whitespace");
    assert("syntax-error"@.len() != "trailing-whitespace"@.len());
    if errors.len() > 0 {
        let d = errors[0];
        assert(input[0] == d);
        lemma_sorted_same_items(out, input, d);
        let i = choose|i: int| 0 <= i < out.len() && out[i] == d;
        assert(out[i].rule == "syntax-error"@);
    }
    if exists|i: int| 0 <= i < out.len() && (#[trigger] out[i]).rule == "syntax-error"@ {
        let i = choose|i: int| 0 <= i < out.len() && (#[trigger] out[i]).rule == "syntax-error"@;
        lemma_sorted_same_items(out, input, out[i]);
        let j = choose|j: int| 0 <= j < input.len() && input[j] == out[i];
        if j >= errors.len() {
            assert(input[j] == ws[j - errors.len()]);
        }
    }
}

/// The complexity metrics are omitted exactly for the languages without functions or control
/// flow: CSS, HTML, JSP and plain text; only plain text has no grammar.
pub proof fn law_languages_without_complexity(id: Seq<char>)
    requires
        language_ids_spec().contains(id),
    ensures
        (profile_view_of(id) is None) <==> (id == "css"@ || id == "html"@ || id == "jsp"@ || id
            == "text"@),
        !has_grammar(id) <==> id == "text"@,
{
    reveal_strlit("c");
    reveal_strlit("cpp");
    reveal_strlit("csharp");
    reveal_strlit("css");
    reveal_strlit("dart");
    reveal_strlit("haskell");
    reveal_strlit("html");
    reveal_strlit("java");
    reveal_strlit("javascript");
    reveal_strlit("jsp");
    reveal_strlit("kotlin");
    reveal_strlit("php");
    reveal_strlit("python");
    reveal_strlit("ruby");
    reveal_strlit("rust");
    reveal_strlit("text");
    reveal_strlit("tsx");
    reveal_strlit("typescript");
    reveal_strlit("zig");
    assert("c"@.len() == 1);
    assert("c"@[0] == 'c');
    assert("cpp"@.len() == 3);
    assert("cpp"@[0] == 'c');
    assert("cpp"@[1] == 'p');
    assert("cpp"@[2] == 'p');
    assert("csharp"@.len() == 6);
    assert("csharp"@[0] == 'c');
    assert("csharp"@[1] == 's');
    assert("csharp"@[2] == 'h');
    assert("css"@.len() == 3);
    assert("css"@[0] == 'c');
    assert("css"@[1] == 's');
    assert("css"@[2] == 's');
    assert("dart"@.len() == 4);
    assert("dart"@[0] == 'd');
    assert("dart"@[1] == 'a');
    assert("dart"@[2] == 'r');
    assert("haskell"@.len() == 7);
    assert("haskell"@[0] == 'h');
    assert("haskell"@[1] == 'a');
    assert("haskell"@[2] == 's');
    assert("html"@.len() == 4);
    assert("html"@[0] == 'h');
    assert("html"@[1] == 't');
    assert("html"@[2] == 'm');
    assert("java"@.len() == 4);
    assert("java"@[0] == 'j');
    assert("java"@[1] == 'a');
    assert("java"@[2] == 'v');
    assert("javascript"@.len() == 10);
    assert("javascript"@[0] == 'j');
    assert("javascript"@[1] == 'a');
    assert("javascript"@[2] == 'v');
    assert("jsp"@.len() == 3);
    assert("jsp"@[0] == 'j');
    assert("jsp"@[1] == 's');
    assert("jsp"@[2] == 'p');
    assert("kotlin"@.len() == 6);
    assert("kotlin"@[0] == 'k');
    assert("kotlin"@[1] == 'o');
    assert("kotlin"@[2] == 't');
    assert("php"@.len() == 3);
    assert("php"@[0] == 'p');
    assert("php"@[1] == 'h');
    assert("php"@[2] == 'p');
    assert("python"@.len() == 6);
    assert("python"@[0] == 'p');
    assert("python"@[1] == 'y');
    assert("python"@[2] == 't');
    assert("ruby"@.len() == 4);
    assert("ruby"@[0] == 'r');
    assert("ruby"@[1] == 'u');
    assert("ruby"@[2] == 'b');
    assert("rust"@.len() == 4);
    assert("rust"@[0] == 'r');
    assert("rust"@[1] == 'u');
    assert("rust"@[2] == 's');
    assert("text"@.len() == 4);
    assert("text"@[0] == 't');
    assert("text"@[1] == 'e');
    assert("text"@[2] == 'x');
    assert("tsx"@.len() == 3);
    assert("tsx"@[0] == 't');
    assert("tsx"@[1] == 's');
    assert("tsx"@[2] == 'x');
    assert("typescript"@.len() == 10);
    assert("typescript"@[0] == 't');
    assert("typescript"@[1] == 'y');
    assert("typescript"@[2] == 'p');
    assert("zig"@.len() == 3);
    assert("zig"@[0] == 'z');
    assert("zig"@[1] == 'i');
    assert("zig"@[2] == 'g');
    let k = choose|k: int| 0 <= k < language_ids_spec().len() && language_ids_spec()[k] == id;
    assert(language_ids_spec()[k] == id);
}

/// A node follows its previous sibling.
proof fn lemma_next_of_prev(t: &SyntaxTree, k: int)
    requires
        t.wf_shape(),
        0 <= k < t.len(),
        t.nodes@[k].prev_sibling is Some,
    ensures
        t.next_sibling_of(t.nodes@[k].prev_sibling->0 as int) == Some(k as usize),
{
    let s = t.nodes@[k].prev_sibling->0 as int;
    assert(t.nodes@[k].prev_sibling == t.nodes@[k].prev_sibling);
    assert(0 <= parent_of(t.nodes@, k) < k < t.end(parent_of(t.nodes@, k)));
}

/// The next sibling of a node comes after it.
proof fn lemma_next_after(t: &SyntaxTree, x: int)
    requires
        t.wf_shape(),
        0 <= x < t.len(),
    ensures
        t.next_sibling_of(x) matches Some(z) ==> x < z < t.len(),
{
    t.lemma_links(x);
    let p = t.parent_ix(x);
    if p >= 0 {
        t.lemma_links(p);
    }
}

proof fn lemma_back_to_code(t: &SyntaxTree, k: int, x: int)
    requires
        t.wf_shape(),
        0 <= x < k < t.len(),
        code_at_or_after(t, t.next_sibling_of(x)) == Some(k as usize),
    ensures
        code_at_or_before(t, Some(x as usize)) matches Some(p) ==> code_at_or_after(
            t,
            t.next_sibling_of(p as int),
        ) == Some(k as usize),
    decreases x,
{
    if t.nodes@[x].is_extra {
        t.lemma_links(x);
        if let Some(y) = t.nodes@[x].prev_sibling {
            lemma_next_of_prev(t, x);
            lemma_next_after(t, x);
            assert(code_at_or_after(t, Some(x as usize)) == Some(k as usize));
            lemma_back_to_code(t, k, y as int);
        }
    }
}

/// The nearest code sibling before a code node has that node as its nearest code sibling after.
pub proof fn law_code_siblings_meet(t: &SyntaxTree, k: int)
    requires
        t.wf_shape(),
        0 <= k < t.len(),
        !t.nodes@[k].is_extra,
    ensures
        code_at_or_before(t, t.nodes@[k].prev_sibling) matches Some(p) ==> code_at_or_after(
            t,
            t.next_sibling_of(p as int),
        ) == Some(k as usize),
{
    t.lemma_links(k);
    if let Some(s) = t.nodes@[k].prev_sibling {
        lemma_next_of_prev(t, k);
        assert(code_at_or_after(t, Some(k as usize)) == Some(k as usize));
        lemma_back_to_code(t, k, s as int);
    }
}

/// A node is the previous sibling of its next sibling.
proof fn lemma_prev_of_next(t: &SyntaxTree, x: int)
    requires
        t.wf_shape(),
        0 <= x < t.len(),
        t.next_sibling_of(x) is Some,
    ensures
        t.nodes@[t.next_sibling_of(x)->0 as int].prev_sibling == Some(x as usize),
{
    let nodes = t.nodes@;
    let p = t.parent_ix(x);
    let z = t.end(x);
    t.lemma_links(x);
    assert(0 <= p < x < t.end(p));
    assert(z < t.len());
    // The parent of `z` is `p`.
    let q = parent_of(nodes, z);
    assert(0 <= q < z < t.end(q));
    assert(p <= q) by {
        assert(t.end(p) == end_of(nodes, p));
    }
    if q > p {
        if q > x {
            assert(end_of(nodes, q) <= end_of(nodes, x));
        } else if q < x {
            assert(q <= parent_of(nodes, x));
        }
    }
    assert(q == p);
    match nodes[z].prev_sibling {
        Some(s) => {
            let s = s as int;
            assert(end_of(nodes, s) == z && parent_of(nodes, s) == p);
            if s < x {
                assert(s <= parent_of(nodes, x));
                assert(0 <= parent_of(nodes, s) < s);
            } else if s > x {
                assert(x <= parent_of(nodes, s));
            }
        },
        None => {
            assert(parent_of(nodes, z) == z - 1);
        },
    }
}

proof fn lemma_forward_to_code(t: &SyntaxTree, k: int, x: int)
    requires
        t.wf_shape(),
        0 <= k < x < t.len(),
        code_at_or_before(t, t.nodes@[x].prev_sibling) == Some(k as usize),
    ensures
        code_at_or_after(t, Some(x as usize)) matches Some(q) ==> code_at_or_before(
            t,
            t.nodes@[q as int].prev_sibling,
        ) == Some(k as usize),
    decreases t.len() - x,
{
    if t.nodes@[x].is_extra {
        lemma_next_after(t, x);
        if let Some(z) = t.next_sibling_of(x) {
            lemma_prev_of_next(t, x);
            t.lemma_links(x);
            assert(code_at_or_before(t, Some(x as usize)) == Some(k as usize));
            lemma_forward_to_code(t, k, z as int);
        }
    }
}

/// The nearest code sibling after a code node has that node as its nearest code sibling before.
pub proof fn law_code_siblings_meet_back(t: &SyntaxTree, k: int)
    requires
        t.wf_shape(),
        0 <= k < t.len(),
        !t.nodes@[k].is_extra,
    ensures
        code_at_or_after(t, t.next_sibling_of(k)) matches Some(q) ==> code_at_or_before(
            t,
            t.nodes@[q as int].prev_sibling,
        ) == Some(k as usize),
{
    lemma_next_after(t, k);
    if let Some(x) = t.next_sibling_of(k) {
        lemma_prev_of_next(t, k);
        assert(code_at_or_before(t, Some(k as usize)) == Some(k as usize));
        lemma_forward_to_code(t, k, x as int);
    }
}

/// Node starts never decrease in preorder.
proof fn lemma_starts_increase(t: &SyntaxTree, a: int, b: int)
    requires
        t.wf_order(),
        0 <= a <= b < t.len(),
    ensures
        t.nodes@[a].start_byte <= t.nodes@[b].start_byte,
    decreases b - a,
{
    reveal(order_ok);
    if a < b {
        lemma_starts_increase(t, a, b - 1);
        assert(t.nodes@[b - 1].start_byte <= t.nodes@[b].start_byte);
    }
}

/// A node ends before a node after its subtree starts.
proof fn lemma_ends_before(t: &SyntaxTree, i: int, j: int)
    requires
        t.wf_shape(),
        t.wf_order(),
        0 <= i < t.len(),
        t.end(i) <= j < t.len(),
    ensures
        t.nodes@[i].end_byte <= t.nodes@[j].start_byte,
{
    reveal(order_ok);
    assert(t.nodes@[i].end_byte <= t.nodes@[t.end(i)].start_byte);
    lemma_starts_increase(t, t.end(i), j);
}

proof fn lemma_space_run(b: Seq<u8>, i: int, k: int)
    requires
        0 <= i <= k < i + ascii_space_run(b, i),
    ensures
        is_ascii_space(b[k]),
    decreases k - i,
{
    if k > i {
        lemma_space_run(b, i + 1, k);
    }
}

/// The ranges of the values among `s` start at or before a later value node `y`, and end
/// before it but for the whitespace after an element without an end tag.
proof fn lemma_before_value(t: &SyntaxTree, source: &str, s: Seq<usize>, y: int)
    requires
        t.wf(source),
        0 <= y < t.len(),
        forall|p: int| 0 <= p < s.len() ==> #[trigger] s[p] < y,
        forall|p: int| 0 <= p < s.len() && is_value(t, source, #[trigger] s[p] as int) ==> t.end(s[p] as int) <= y,
    ensures
        forall|j: int|
            0 <= j < ranges_of_values(t, source, s).len() ==> {
                let r = #[trigger] ranges_of_values(t, source, s)[j];
                &&& r.start <= t.nodes@[y].start_byte
                &&& r.end <= t.nodes@[y].start_byte || is_ascii_space(
                    source.spec_bytes()[t.nodes@[y].start_byte as int],
                )
            },
    decreases s.len(),
{
    if s.len() > 0 {
        let init = s.drop_last();
        assert forall|p: int| 0 <= p < init.len() implies #[trigger] init[p] < y by {
            assert(init[p] == s[p]);
        }
        assert forall|p: int| 0 <= p < init.len() && is_value(t, source, #[trigger] init[p] as int) implies t.end(
            init[p] as int,
        ) <= y by {
            assert(init[p] == s[p]);
        }
        lemma_before_value(t, source, init, y);
        let x = s.last() as int;
        assert(s[s.len() - 1] < y);
        let rest = ranges_of_values(t, source, init);
        let all = ranges_of_values(t, source, s);
        if !is_value(t, source, x) {
            assert(all == rest);
        } else {
            assert(all == rest.push(value_range(t, source, x)));
            assert(t.end(x) <= y);
            lemma_ends_before(t, x, y);
            lemma_starts_increase(t, x, y);
            let node = t.nodes@[x];
            let ys = t.nodes@[y].start_byte as int;
            if value_range(t, source, x).end > ys {
                lemma_space_run(source.spec_bytes(), node.end_byte as int, ys);
            }
            assert forall|j: int| 0 <= j < all.len() implies {
                let r = #[trigger] all[j];
                &&& r.start <= ys
                &&& r.end <= ys || is_ascii_space(source.spec_bytes()[ys])
            } by {
                if j < rest.len() {
                    assert(all[j] == rest[j]);
                }
            }
        }
    }
}

proof fn lemma_ranges_in_order(t: &SyntaxTree, source: &str, s: Seq<usize>)
    requires
        t.wf(source),
        forall|p: int| 0 <= p < s.len() ==> #[trigger] s[p] < t.len(),
        forall|p: int, q: int| 0 <= p < q < s.len() ==> s[p] < s[q],
        forall|p: int, q: int|
            0 <= p < q < s.len() && is_value(t, source, s[p] as int) ==> t.end(s[p] as int) <= s[q],
    ensures
        forall|j: int, k: int|
            #![trigger ranges_of_values(t, source, s)[j], ranges_of_values(t, source, s)[k]]
            0 <= j < k < ranges_of_values(t, source, s).len() ==> {
                let r = ranges_of_values(t, source, s);
                &&& r[j].start <= r[k].start
                &&& r[j].end <= r[k].start || is_ascii_space(
                    source.spec_bytes()[r[k].start as int],
                )
            },
    decreases s.len(),
{
    if s.len() > 0 {
        let init = s.drop_last();
        let n = s.len() - 1;
        assert forall|p: int| 0 <= p < init.len() implies #[trigger] init[p] < t.len() by {
            assert(init[p] == s[p]);
        }
        assert forall|p: int, q: int| 0 <= p < q < init.len() implies init[p] < init[q] by {
            assert(init[p] == s[p] && init[q] == s[q]);
        }
        assert forall|p: int, q: int|
            0 <= p < q < init.len() && is_value(t, source, init[p] as int) implies t.end(init[p] as int)
            <= init[q] by {
            assert(init[p] == s[p] && init[q] == s[q]);
        }
        lemma_ranges_in_order(t, source, init);
        let y = s[n] as int;
        assert(s.last() == s[n]);
        if !is_value(t, source, y) {
            assert(ranges_of_values(t, source, s) == ranges_of_values(t, source, init));
        } else {
            assert forall|p: int| 0 <= p < init.len() implies #[trigger] init[p] < y by {
                assert(init[p] == s[p]);
            }
            assert forall|p: int| 0 <= p < init.len() && is_value(t, source, #[trigger] init[p] as int) implies t.end(
                init[p] as int,
            ) <= y by {
                assert(init[p] == s[p]);
            }
            lemma_before_value(t, source, init, y);
            let rest = ranges_of_values(t, source, init);
            let all = ranges_of_values(t, source, s);
            assert(all == rest.push(value_range(t, source, y)));
            assert forall|j: int, k: int| 0 <= j < k < all.len() implies {
                &&& all[j].start <= all[k].start
                &&& all[j].end <= all[k].start || is_ascii_space(source.spec_bytes()[all[k].start as int])
            } by {
                assert(all[j] == rest[j]);
                if k < rest.len() {
                    assert(all[k] == rest[k]);
                }
            }
        }
    }
}

/// The ranges of the value nodes start in document order, and each ends before the next value
/// starts but for the whitespace added after an element without an end tag.
pub(crate) proof fn lemma_value_nodes_in_order(t: &SyntaxTree, source: &str)
    requires
        t.wf(source),
    ensures
        ({
            let r = value_nodes_ranges(t, source);
            forall|j: int, k: int|
                #![trigger r[j], r[k]]
                0 <= j < k < r.len() ==> {
                    &&& r[j].start <= r[k].start
                    &&& r[j].end <= r[k].start || is_ascii_space(source.spec_bytes()[r[k].start as int])
                }
        }),
{
    let d = value_descend(t, source);
    let order = walk_order(t, 0, d);
    lemma_visited_before(t, 0, d, t.end(0));
    assert forall|p: int, q: int|
        0 <= p < q < order.len() && is_value(t, source, order[p] as int) implies t.end(
        order[p] as int,
    ) <= order[q] by {
        let a = order[p] as int;
        let k = order[q] as int;
        if k < t.end(a) {
            assert(d[a]);
        }
    }
    lemma_ranges_in_order(t, source, order);
}

/// The value ranges are in document order and disjoint.
pub proof fn law_value_ranges_in_order(t: &SyntaxTree, source: &str)
    requires
        t.wf(source),
    ensures
        forall|k: int|
            0 <= k < value_ranges_of(t, source).len() ==> #[trigger] value_ranges_of(t, source)[k].start
                <= value_ranges_of(t, source)[k].end,
        forall|j: int, k: int|
            #![trigger value_ranges_of(t, source)[j], value_ranges_of(t, source)[k]]
            0 <= j < k < value_ranges_of(t, source).len() ==> value_ranges_of(t, source)[j].end
                <= value_ranges_of(t, source)[k].start,
{
    lemma_value_ranges_ok(t, source);
    lemma_value_nodes_in_order(t, source);
    let raw = value_nodes_ranges(t, source);
    let r = value_ranges_of(t, source);
    assert forall|j: int, k: int| #![trigger r[j], r[k]] 0 <= j < k < r.len() implies r[j].end <= r[k].start by {
        assert(r[j + 1].start == raw[j + 1].start);
        assert(r[k].start == raw[k].start);
        if j + 1 < k {
            assert(raw[j + 1].start <= raw[k].start);
        }
    }
}

// ---------------------------------------------------------------------------------------------
// Formatting and linting
/// No byte before a line feed inside `s` is `' '`, `'\t'` or `'\r'`.
pub open spec fn clean_inside(s: Seq<u8>) -> bool {
    forall|j: int| 0 <= j && j + 1 < s.len() && s[j + 1] == NEWLINE ==> !is_trailing_space(#[trigger] s[j])
}

/// No line of `s` ends in `' '`, `'\t'` or `'\r'`.
pub open spec fn no_trailing_space(s: Seq<u8>) -> bool {
    &&& clean_inside(s)
    &&& s.len() > 0 ==> !is_trailing_space(s.last())
}

proof fn lemma_clean_concat(a: Seq<u8>, b: Seq<u8>)
    requires
        clean_inside(a),
        clean_inside(b),
        a.len() > 0 && b.len() > 0 && b[0] == NEWLINE ==> !is_trailing_space(a.last()),
    ensures
        clean_inside(a + b),
{
    let c = a + b;
    assert forall|j: int| 0 <= j && j + 1 < c.len() && c[j + 1] == NEWLINE implies !is_trailing_space(
        #[trigger] c[j],
    ) by {
        if j + 1 < a.len() {
            assert(c[j] == a[j] && c[j + 1] == a[j + 1]);
        } else if j + 1 == a.len() {
            assert(c[j] == a.last());
            assert(c[j + 1] == b[0]);
        } else {
            assert(c[j] == b[j - a.len()] && c[j + 1] == b[j + 1 - a.len()]);
        }
    }
}

/// A text whose lines end in no whitespace has no trailing whitespace ranges.
proof fn lemma_clean_no_ranges(s: Seq<u8>, ls: int)
    requires
        no_trailing_space(s),
        0 <= ls,
    ensures
        trailing_from(s, Seq::empty(), ls) == Seq::<std::ops::Range<usize>>::empty(),
    decreases s.len() - ls,
{
    if ls < s.len() {
        let e = line_end_from(s, ls);
        lemma_line_end_from_bounds(s, ls);
        lemma_trim_back(s, ls, e);
        if e > ls {
            if e < s.len() {
                assert(s[e] == NEWLINE);
                assert(!is_trailing_space(s[e - 1]));
            } else {
                assert(s[e - 1] == s.last());
            }
            assert(trim_back(s, ls, e) == e);
        }
        assert(past_values(Seq::<std::ops::Range<usize>>::empty(), trim_back(s, ls, e), e) == trim_back(s, ls, e));
        assert(ws_start(s, Seq::empty(), ls) == e);
        let next = if e < s.len() {
            e + 1
        } else {
            s.len() as int
        };
        lemma_clean_no_ranges(s, next);
    }
}

/// The bytes kept from line `ls` on, after the bytes from `last` that are pending, are clean
/// inside and end with the last byte of the content.
#[verifier::rlimit(40)]
proof fn lemma_kept_clean(b: Seq<u8>, ls: int, last: int, stop: int)
    requires
        b.len() <= usize::MAX,
        stop == trimmed_len(b, b.len() as int),
        0 <= last <= ls <= b.len(),
        last <= stop,
        ls == 0 || ls == b.len() || b[ls - 1] == NEWLINE,
        clean_inside(b.subrange(last, if ls < stop { ls } else { stop })),
    ensures
        clean_inside(kept_from(b, trailing_from(b, Seq::empty(), ls), last, stop)),
        kept_from(b, trailing_from(b, Seq::empty(), ls), last, stop).len() > 0 ==> stop > 0
            && kept_from(b, trailing_from(b, Seq::empty(), ls), last, stop).last() == b[stop - 1],
        last < ls && last < stop ==> kept_from(b, trailing_from(b, Seq::empty(), ls), last, stop).len()
            > 0 && kept_from(b, trailing_from(b, Seq::empty(), ls), last, stop)[0] == b[last],
    decreases b.len() - ls,
{
    let values = Seq::<std::ops::Range<usize>>::empty();
    let ws = trailing_from(b, values, ls);
    let kept = kept_from(b, ws, last, stop);
    lemma_trimmed_len(b, b.len() as int);
    lemma_trimmed_last(b, b.len() as int);
    if ls >= b.len() {
        assert(ws == Seq::<std::ops::Range<usize>>::empty());
        assert(kept == b.subrange(last, stop));
    } else {
        let e = line_end_from(b, ls);
        lemma_line_end_from_bounds(b, ls);
        let s0 = trim_back(b, ls, e);
        lemma_trim_back(b, ls, e);
        assert(past_values(values, s0, e) == s0);
        assert(ws_start(b, values, ls) == s0);
        let next = if e < b.len() {
            e + 1
        } else {
            b.len() as int
        };
        let rest_ws = trailing_from(b, values, next);
        let pending = b.subrange(last, if ls < stop { ls } else { stop });
        if s0 == e {
            assert(ws == rest_ws);
            let upto = if next < stop { next } else { stop };
            let wider = b.subrange(last, upto);
            assert forall|j: int| 0 <= j && j + 1 < wider.len() && wider[j + 1] == NEWLINE implies !is_trailing_space(
                #[trigger] wider[j],
            ) by {
                let x = last + j;
                assert(wider[j] == b[x] && wider[j + 1] == b[x + 1]);
                if x + 1 < ls && x + 1 < stop {
                    assert(pending[j] == b[x] && pending[j + 1] == b[x + 1]);
                } else if x + 1 == ls {
                } else {
                    assert(x + 1 == e);
                }
            }
            lemma_kept_clean(b, next, last, stop);
        } else if s0 >= stop {
            assert(ws == seq![std::ops::Range { start: s0 as usize, end: e as usize }] + rest_ws);
            assert(kept == b.subrange(last, stop));
            assert forall|j: int| 0 <= j && j + 1 < kept.len() && kept[j + 1] == NEWLINE implies !is_trailing_space(
                #[trigger] kept[j],
            ) by {
                let x = last + j;
                assert(kept[j] == b[x] && kept[j + 1] == b[x + 1]);
                if x + 1 < ls {
                    assert(pending[j] == b[x] && pending[j + 1] == b[x + 1]);
                } else if x + 1 == ls {
                } else {
                    assert(x + 1 == e);
                }
            }
        } else {
            let r = std::ops::Range { start: s0 as usize, end: e as usize };
            assert(ws == seq![r] + rest_ws);
            assert(ws[0] == r);
            assert(ws.drop_first() =~= rest_ws);
            if e >= stop {
                assert(is_trailing_space(b[stop - 1]));
            }
            assert(b[e] == NEWLINE);
            let piece = b.subrange(last, s0);
            let rest = kept_from(b, rest_ws, e, stop);
            assert(kept == piece + rest);
            assert(clean_inside(b.subrange(e, e + 1))) by {
                assert(b.subrange(e, e + 1).len() == 1);
            }
            lemma_kept_clean(b, next, e, stop);
            assert forall|j: int| 0 <= j && j + 1 < piece.len() && piece[j + 1] == NEWLINE implies !is_trailing_space(
                #[trigger] piece[j],
            ) by {
                let x = last + j;
                assert(piece[j] == b[x] && piece[j + 1] == b[x + 1]);
                if x + 1 < ls {
                    assert(pending[j] == b[x] && pending[j + 1] == b[x + 1]);
                } else if x + 1 == ls {
                } else {
                    assert(x + 1 < e);
                }
            }
            if piece.len() > 0 {
                assert(piece.last() == b[s0 - 1]);
                if s0 == ls {
                    assert(b[ls - 1] == NEWLINE);
                }
            }
            lemma_clean_concat(piece, rest);
            assert(kept.last() == rest.last());
        }
    }
}

/// Formatting plain text, which has no value regions, leaves no line that ends in whitespace,
/// and ends non-empty text with a single newline.
pub proof fn law_formatted_text_is_clean(b: Seq<u8>)
    requires
        b.len() <= usize::MAX,
    ensures
        no_trailing_space(format_bytes(b, Seq::empty())),
        format_bytes(b, Seq::empty()).len() > 0 ==> {
            let out = format_bytes(b, Seq::empty());
            &&& out.len() >= 2
            &&& out.last() == NEWLINE
            &&& out[out.len() - 2] != NEWLINE
        },
        trailing_from(format_bytes(b, Seq::empty()), Seq::empty(), 0) == Seq::<std::ops::Range<usize>>::empty(),
{
    let values = Seq::<std::ops::Range<usize>>::empty();
    let stop = content_end(b, values);
    lemma_trimmed_len(b, b.len() as int);
    lemma_trimmed_last(b, b.len() as int);
    assert(stop == trimmed_len(b, b.len() as int));
    assert(clean_inside(b.subrange(0, 0)));
    lemma_kept_clean(b, 0, 0, stop);
    let kept = kept_from(b, trailing_from(b, values, 0), 0, stop);
    let out = format_bytes(b, values);
    if kept.len() > 0 {
        assert(out == kept.push(NEWLINE));
        assert(kept.push(NEWLINE) =~= kept + seq![NEWLINE]);
        lemma_clean_concat(kept, seq![NEWLINE]);
    } else {
        assert(out == kept);
    }
    lemma_clean_no_ranges(out, 0);
}

/// Formatting plain text twice gives what formatting it once gives.
#[verifier::rlimit(40)]
#[verifier::spinoff_prover]
pub proof fn law_formatting_text_is_idempotent(b: Seq<u8>)
    requires
        b.len() < usize::MAX,
    ensures
        format_bytes(format_bytes(b, Seq::empty()), Seq::empty()) == format_bytes(b, Seq::empty()),
{
    let values = Seq::<std::ops::Range<usize>>::empty();
    let stop = content_end(b, values);
    lemma_trimmed_len(b, b.len() as int);
    lemma_trimmed_last(b, b.len() as int);
    lemma_kept_clean(b, 0, 0, stop);
    assert(clean_inside(b.subrange(0, 0)));
    law_formatted_text_is_clean(b);
    let kept = kept_from(b, trailing_from(b, values, 0), 0, stop);
    let out = format_bytes(b, values);
    let ws2 = trailing_from(out, values, 0);
    assert(ws2 == Seq::<std::ops::Range<usize>>::empty());
    if kept.len() > 0 {
        assert(out == kept.push(NEWLINE));
        let n = out.len() as int;
        assert(out[n - 1] == NEWLINE);
        assert(out[n - 2] == kept.last());
        assert(trimmed_len(out, n - 1) == n - 1);
        assert(trimmed_len(out, n) == n - 1);
        assert(content_end(out, values) == n - 1);
        assert(kept_from(out, ws2, 0, n - 1) == out.subrange(0, n - 1));
        assert(out.subrange(0, n - 1) =~= kept);
    } else {
        assert(out == kept);
        assert(out.len() == 0);
        assert(trimmed_len(out, 0) == 0);
        assert(kept_from(out, ws2, 0, 0) =~= out);
    }
}

/// What `format` makes of plain text, `lint` finds nothing to report in.
pub proof fn law_formatted_text_lints_clean(source: &str, out: &str)
    requires
        source.spec_bytes().len() <= usize::MAX,
        crate::formatted_as(out@, source, None),
    ensures
        lint_unsorted(out, None) == Seq::<DiagnosticView>::empty(),
{
    law_formatted_text_is_clean(source.spec_bytes());
    assert(out.spec_bytes() == format_bytes(source.spec_bytes(), Seq::empty()));
    assert(whitespace_diagnostics(out, Seq::empty()) == Seq::<DiagnosticView>::empty());
    assert(Seq::<DiagnosticView>::empty() + Seq::<DiagnosticView>::empty() =~= Seq::<DiagnosticView>::empty());
}

/// A range of `without` ends where `r` ends and starts no later than `r`.
pub open spec fn covered(without: Seq<Range<usize>>, r: Range<usize>) -> bool {
    exists|j: int|
        #![trigger without[j]]
        0 <= j < without.len() && without[j].start <= r.start && without[j].end == r.end
}

/// Each range of `with` ends where a range of `without` ends, and starts no earlier than it.
pub open spec fn shortens(with: Seq<Range<usize>>, without: Seq<Range<usize>>) -> bool {
    forall|i: int| 0 <= i < with.len() ==> #[trigger] covered(without, with[i])
}

/// Trailing whitespace from line `ls` on, with and without values: see
/// [`law_values_only_shorten_trailing_whitespace`].
proof fn lemma_values_shorten_from(b: Seq<u8>, values: Seq<Range<usize>>, ls: int)
    requires
        0 <= ls,
        b.len() <= usize::MAX,
    ensures
        shortens(trailing_from(b, values, ls), trailing_from(b, Seq::empty(), ls)),
    decreases b.len() - ls,
{
    if ls < b.len() {
        let with = trailing_from(b, values, ls);
        let without = trailing_from(b, Seq::empty(), ls);
        let e = line_end_from(b, ls);
        lemma_line_end_from_bounds(b, ls);
        let t = trim_back(b, ls, e);
        lemma_trim_back(b, ls, e);
        lemma_past_values(values, t, e);
        let sv = ws_start(b, values, ls);
        let s0 = ws_start(b, Seq::empty(), ls);
        assert(s0 == t);
        let next = if e < b.len() {
            e + 1
        } else {
            b.len() as int
        };
        let rest_v = if next > ls {
            trailing_from(b, values, next)
        } else {
            seq![]
        };
        let rest_0 = if next > ls {
            trailing_from(b, Seq::empty(), next)
        } else {
            seq![]
        };
        if next > ls {
            lemma_values_shorten_from(b, values, next);
        }
        let off_v: int = if sv < e { 1 } else { 0 };
        let off_0: int = if s0 < e { 1 } else { 0 };
        assert(with == if sv < e { seq![Range { start: sv as usize, end: e as usize }] + rest_v } else { rest_v });
        assert(without == if s0 < e { seq![Range { start: s0 as usize, end: e as usize }] + rest_0 } else { rest_0 });
        assert forall|i: int| 0 <= i < with.len() implies #[trigger] covered(without, with[i]) by {
            if sv < e && i == 0 {
                assert(without[0].start <= with[0].start && without[0].end == with[0].end);
            } else {
                let i2 = i - off_v;
                assert(with[i] == rest_v[i2]);
                assert(covered(rest_0, rest_v[i2]));
                let j2 = choose|j: int|
                    #![trigger rest_0[j]]
                    0 <= j < rest_0.len() && rest_0[j].start <= rest_v[i2].start && rest_0[j].end
                        == rest_v[i2].end;
                assert(without[j2 + off_0] == rest_0[j2]);
            }
        }
        assert(shortens(with, without));
    } else {
        assert(trailing_from(b, values, ls).len() == 0);
    }
}

/// Values only shorten or drop trailing whitespace ranges: each range reported with values ends
/// where a range reported without them ends, and starts no earlier than it.
pub proof fn law_values_only_shorten_trailing_whitespace(source: &str, values: Seq<Range<usize>>)
    requires
        source.spec_bytes().len() <= usize::MAX,
    ensures
        shortens(
            trailing_from(source.spec_bytes(), values, 0),
            trailing_from(source.spec_bytes(), Seq::empty(), 0),
        ),
{
    lemma_values_shorten_from(source.spec_bytes(), values, 0);
}

/// The ranges `rs`, each moved `d` bytes on.
pub open spec fn shifted(rs: Seq<Range<usize>>, d: int) -> Seq<Range<usize>> {
    rs.map_values(|r: Range<usize>| Range { start: (r.start + d) as usize, end: (r.end + d) as usize })
}

proof fn lemma_line_end_shift(a: Seq<u8>, b: Seq<u8>, m: int)
    requires
        0 <= m,
    ensures
        line_end_from(a + b, a.len() + m) == a.len() + line_end_from(b, m),
    decreases b.len() - m,
{
    if m < b.len() {
        assert((a + b)[a.len() + m] == b[m]);
        lemma_line_end_shift(a, b, m + 1);
    }
}

proof fn lemma_trim_back_shift(a: Seq<u8>, b: Seq<u8>, lo: int, e: int)
    requires
        0 <= lo <= e <= b.len(),
    ensures
        trim_back(a + b, a.len() + lo, a.len() + e) == a.len() + trim_back(b, lo, e),
    decreases e - lo,
{
    if e > lo {
        assert((a + b)[a.len() + e - 1] == b[e - 1]);
        lemma_trim_back_shift(a, b, lo, e - 1);
    }
}

proof fn lemma_trailing_shift(a: Seq<u8>, b: Seq<u8>, m: int)
    requires
        0 <= m,
        a.len() + b.len() <= usize::MAX,
    ensures
        trailing_from(a + b, Seq::empty(), a.len() + m) == shifted(trailing_from(b, Seq::empty(), m), a.len() as int),
    decreases b.len() - m,
{
    let c = a + b;
    let n = a.len() as int;
    if m >= b.len() {
        assert(shifted(trailing_from(b, Seq::empty(), m), n) =~= Seq::<Range<usize>>::empty());
    } else {
        let e = line_end_from(b, m);
        lemma_line_end_from_bounds(b, m);
        lemma_line_end_shift(a, b, m);
        lemma_trim_back_shift(a, b, m, e);
        lemma_trim_back(b, m, e);
        let next = if e < b.len() {
            e + 1
        } else {
            b.len() as int
        };
        lemma_trailing_shift(a, b, next);
        let s = ws_start(b, Seq::empty(), m);
        assert(ws_start(c, Seq::empty(), n + m) == n + s);
        let rest = trailing_from(b, Seq::empty(), next);
        if s < e {
            let r = Range { start: s as usize, end: e as usize };
            assert(trailing_from(b, Seq::empty(), m) == seq![r] + rest);
            assert(shifted(seq![r] + rest, n) =~= seq![Range { start: (n + s) as usize, end: (n + e) as usize }] + shifted(rest, n));
        } else {
            assert(trailing_from(b, Seq::empty(), m) == rest);
        }
    }
}

proof fn lemma_line_end_prefix(a: Seq<u8>, b: Seq<u8>, i: int)
    requires
        0 <= i < a.len(),
        a.last() == NEWLINE,
    ensures
        line_end_from(a + b, i) == line_end_from(a, i),
        line_end_from(a, i) < a.len(),
    decreases a.len() - i,
{
    assert((a + b)[i] == a[i]);
    if a[i] != NEWLINE {
        lemma_line_end_prefix(a, b, i + 1);
    }
}

proof fn lemma_trim_back_prefix(a: Seq<u8>, b: Seq<u8>, lo: int, e: int)
    requires
        0 <= lo <= e <= a.len(),
    ensures
        trim_back(a + b, lo, e) == trim_back(a, lo, e),
    decreases e - lo,
{
    if e > lo {
        assert((a + b)[e - 1] == a[e - 1]);
        lemma_trim_back_prefix(a, b, lo, e - 1);
    }
}

proof fn lemma_trailing_prefix(a: Seq<u8>, b: Seq<u8>, ls: int)
    requires
        0 <= ls <= a.len(),
        a.len() > 0,
        a.last() == NEWLINE,
        a.len() + b.len() <= usize::MAX,
    ensures
        trailing_from(a + b, Seq::empty(), ls) == trailing_from(a, Seq::empty(), ls) + shifted(
            trailing_from(b, Seq::empty(), 0),
            a.len() as int,
        ),
    decreases a.len() - ls,
{
    let c = a + b;
    let tail = shifted(trailing_from(b, Seq::empty(), 0), a.len() as int);
    if ls == a.len() {
        lemma_trailing_shift(a, b, 0);
        assert(trailing_from(a, Seq::empty(), ls) + tail =~= tail);
    } else {
        let e = line_end_from(a, ls);
        lemma_line_end_prefix(a, b, ls);
        lemma_line_end_from_bounds(a, ls);
        lemma_trim_back_prefix(a, b, ls, e);
        assert(ws_start(c, Seq::empty(), ls) == ws_start(a, Seq::empty(), ls));
        lemma_trailing_prefix(a, b, e + 1);
        let s = ws_start(a, Seq::empty(), ls);
        let rest_a = trailing_from(a, Seq::empty(), e + 1);
        if s < e {
            let r = Range { start: s as usize, end: e as usize };
            assert(trailing_from(a, Seq::empty(), ls) == seq![r] + rest_a);
            assert(seq![r] + (rest_a + tail) =~= (seq![r] + rest_a) + tail);
        }
    }
}

/// The trailing whitespace of a text made of `a`, empty or ending with a line feed, and then `b`
/// is that of `a` followed by that of `b`, moved on by the length of `a`.
pub proof fn law_trailing_whitespace_of_concat(a: Seq<u8>, b: Seq<u8>)
    requires
        a.len() == 0 || a.last() == NEWLINE,
        a.len() + b.len() <= usize::MAX,
    ensures
        trailing_from(a + b, Seq::empty(), 0) == trailing_from(a, Seq::empty(), 0) + shifted(
            trailing_from(b, Seq::empty(), 0),
            a.len() as int,
        ),
{
    if a.len() == 0 {
        lemma_trailing_shift(a, b, 0);
        assert(trailing_from(a, Seq::empty(), 0) == Seq::<Range<usize>>::empty());
        assert(trailing_from(a, Seq::empty(), 0) + shifted(trailing_from(b, Seq::empty(), 0), 0) =~= shifted(trailing_from(b, Seq::empty(), 0), 0));
    } else {
        lemma_trailing_prefix(a, b, 0);
    }
}

/// The bytes kept from `last` to `stop` end with the bytes from `x` on, where every range to
/// remove ends by `x`.
proof fn lemma_kept_suffix(b: Seq<u8>, ws: Seq<Range<usize>>, last: int, stop: int, x: int)
    requires
        0 <= last <= x <= stop <= b.len(),
        forall|k: int| 0 <= k < ws.len() ==> last <= #[trigger] ws[k].start <= ws[k].end <= x,
        forall|j: int, k: int| 0 <= j < k < ws.len() ==> #[trigger] ws[j].end < #[trigger] ws[k].start,
    ensures
        ({
            let out = kept_from(b, ws, last, stop);
            &&& out.len() >= stop - x
            &&& out.subrange(out.len() - (stop - x), out.len() as int) == b.subrange(x, stop)
        }),
    decreases ws.len(),
{
    let out = kept_from(b, ws, last, stop);
    if ws.len() == 0 || ws[0].start >= stop {
        assert(out == b.subrange(last, stop));
        assert(out.subrange(out.len() - (stop - x), out.len() as int) =~= b.subrange(x, stop));
    } else {
        let rest = ws.drop_first();
        assert forall|k: int| 0 <= k < rest.len() implies ws[0].end <= #[trigger] rest[k].start <= rest[k].end <= x by {
            assert(rest[k] == ws[k + 1]);
            assert(ws[0].end < ws[k + 1].start);
        }
        assert forall|j: int, k: int| 0 <= j < k < rest.len() implies #[trigger] rest[j].end < #[trigger] rest[k].start by {
            assert(rest[j] == ws[j + 1] && rest[k] == ws[k + 1]);
        }
        lemma_kept_suffix(b, rest, ws[0].end as int, stop, x);
        let head = b.subrange(last, ws[0].start as int);
        let tail = kept_from(b, rest, ws[0].end as int, stop);
        assert(out == head + tail);
        assert(out.subrange(out.len() - (stop - x), out.len() as int) =~= tail.subrange(
            tail.len() - (stop - x),
            tail.len() as int,
        ));
    }
}

/// A value region that reaches the end of the text, such as an unterminated heredoc or an
/// unclosed `<pre>`, ends the formatted text as it stands, with no line feed after it.
pub proof fn law_value_at_end_is_kept(b: Seq<u8>, values: Seq<Range<usize>>, i: int)
    requires
        b.len() <= usize::MAX,
        forall|j: int| 0 <= j < values.len() ==> #[trigger] values[j].end <= b.len(),
        0 <= i < values.len(),
        values[i].start <= values[i].end,
        values[i].end == b.len(),
    ensures
        ({
            let out = format_bytes(b, values);
            let tail = b.subrange(values[i].start as int, b.len() as int);
            &&& out.len() >= tail.len()
            &&& out.subrange(out.len() - tail.len(), out.len() as int) == tail
        }),
{
    let ws = trailing_from(b, values, 0);
    let x = values[i].start as int;
    let n = b.len() as int;
    lemma_values_end(values);
    lemma_trimmed_len(b, n);
    lemma_trailing_from(b, values, 0);
    assert(values_end(values) == n);
    assert(content_end(b, values) == n);
    assert(ends_in_value(b, values));
    assert forall|k: int| 0 <= k < ws.len() implies 0 <= #[trigger] ws[k].start <= ws[k].end <= x by {
        assert(ws[k].end <= values[i].start || values[i].end <= ws[k].start);
    }
    lemma_kept_suffix(b, ws, 0, n, x);
}

proof fn lemma_newlines_grow(b: Seq<u8>, i: int, j: int)
    requires
        0 <= i <= j <= b.len(),
    ensures
        newlines_before(b, i) <= newlines_before(b, j) <= newlines_before(b, i) + (j - i),
        newlines_before(b, i) == newlines_before(b, j) ==> line_start_of(b, j) == line_start_of(b, i)
            || j == i,
    decreases j - i,
{
    if j > i {
        lemma_newlines_grow(b, i, j - 1);
        if newlines_before(b, i) == newlines_before(b, j) {
            assert(b[j - 1] != NEWLINE);
            if j - 1 > i {
                assert(line_start_of(b, j - 1) == line_start_of(b, i));
            }
        }
    }
}

proof fn lemma_newlines_at_most(b: Seq<u8>, i: int)
    requires
        0 <= i <= b.len(),
    ensures
        newlines_before(b, i) <= i,
{
    lemma_newlines_grow(b, 0, i);
}

proof fn lemma_line_start_bounds(b: Seq<u8>, i: int)
    requires
        0 <= i <= b.len(),
    ensures
        0 <= line_start_of(b, i) <= i,
        line_start_of(b, i) == 0 || b[line_start_of(b, i) - 1] == NEWLINE,
    decreases i,
{
    if i > 0 && b[i - 1] != NEWLINE {
        lemma_line_start_bounds(b, i - 1);
    }
}

proof fn lemma_utf16_concat(p: Seq<char>, q: Seq<char>)
    ensures
        utf16_units(p + q) == utf16_units(p) + utf16_units(q),
    decreases q.len(),
{
    if q.len() > 0 {
        lemma_utf16_concat(p, q.drop_last());
        assert((p + q).drop_last() =~= p + q.drop_last());
        assert((p + q).last() == q.last());
    } else {
        assert(p + q =~= p);
    }
}

/// The text between two character boundaries is the text up to a boundary between them and the
/// text after it.
proof fn lemma_text_split(s: &str, st: int, b1: int, b2: int)
    requires
        0 <= st <= b1 <= b2 <= s.spec_bytes().len(),
        is_boundary(s, st),
        is_boundary(s, b1),
        is_boundary(s, b2),
    ensures
        text_of(s, st, b2) == text_of(s, st, b1) + text_of(s, b1, b2),
        b1 < b2 ==> text_of(s, b1, b2).len() > 0,
        utf16_units(text_of(s, st, b2)) <= b2 - st,
{
    let bytes = s.spec_bytes();
    encode_utf8_valid_utf8(s@);
    lemma_boundary_in_suffix(bytes, st, b2);
    lemma_boundary_in_suffix(bytes, st, b1);
    let t = bytes.subrange(st, bytes.len() as int);
    valid_utf8_split(t, b2 - st);
    let x = t.subrange(0, b2 - st);
    assert(x =~= bytes.subrange(st, b2));
    is_char_boundary_start_end_of_seq(x);
    if b1 < b2 {
        is_char_boundary_iff_not_is_continuation_byte(t, b1 - st);
        is_char_boundary_iff_not_is_continuation_byte(x, b1 - st);
    }
    assert(is_char_boundary(x, b1 - st));
    decode_utf8_split(x, b1 - st);
    valid_utf8_split(x, b1 - st);
    assert(x.subrange(0, b1 - st) =~= bytes.subrange(st, b1));
    assert(x.subrange(b1 - st, x.len() as int) =~= bytes.subrange(b1, b2));
    let tail = bytes.subrange(b1, b2);
    decode_utf8_encode_utf8(tail);
    if b1 < b2 && decode_utf8(tail).len() == 0 {
        assert(decode_utf8(tail) =~= Seq::<char>::empty());
        assert(encode_utf8(Seq::<char>::empty()) =~= Seq::<u8>::empty());
    }
    decode_utf8_encode_utf8(x);
    lemma_utf16_units_le_bytes(decode_utf8(x));
}

/// `p` comes before `q`: on an earlier line, or earlier on the same line.
pub open spec fn position_lt(p: Position, q: Position) -> bool {
    p.line < q.line || (p.line == q.line && p.column < q.column)
}

/// Positions grow with the byte offset: of two character boundaries, the later one is on a later
/// line, or further along the same line.
pub proof fn law_positions_grow(source: &str, b1: int, b2: int)
    requires
        0 <= b1 < b2 <= source.spec_bytes().len(),
        source.spec_bytes().len() < u32::MAX,
        is_boundary(source, b1),
        is_boundary(source, b2),
    ensures
        position_lt(position_at(source, b1), position_at(source, b2)),
{
    let b = source.spec_bytes();
    lemma_newlines_grow(b, b1, b2);
    lemma_newlines_at_most(b, b2);
    if newlines_before(b, b1) == newlines_before(b, b2) {
        let st = line_start_of(b, b1);
        lemma_line_start_bounds(b, b1);
        encode_utf8_valid_utf8(source@);
        if st > 0 {
            lemma_after_ascii(b, st);
        } else {
            is_char_boundary_start_end_of_seq(b);
        }
        lemma_text_split(source, st, b1, b2);
        lemma_utf16_concat(text_of(source, st, b1), text_of(source, b1, b2));
        let q = text_of(source, b1, b2);
        lemma_utf16_units_prefix(q, 1);
        assert(q.take(1).drop_last() =~= Seq::<char>::empty());
        assert(utf16_units(q.take(1)) >= 1);
    }
}

/// Key `a` sorts strictly before key `b`.
pub open spec fn key_lt(a: (u32, u32), b: (u32, u32)) -> bool {
    a.0 < b.0 || (a.0 == b.0 && a.1 < b.1)
}

/// A stable sort of diagnostics whose starts already increase strictly leaves them as they are.
proof fn lemma_sorted_stays(out: Seq<DiagnosticView>, input: Seq<DiagnosticView>)
    requires
        forall|i: int, j: int| 0 <= i < j < input.len() ==> key_lt(start_key(#[trigger] input[i]), start_key(#[trigger] input[j])),
        stably_sorted(out, input),
    ensures
        out == input,
    decreases input.len(),
{
    if input.len() == 0 {
        if out.len() > 0 {
            let k = start_key(out[0]);
            lemma_starting_at_has(out, 0);
            lemma_starting_at_none(input, k);
            assert(starting_at(out, k) == starting_at(input, k));
        }
        assert(out =~= input);
    } else {
        let n = input.len() as int;
        let last = input.last();
        let kl = start_key(last);
        let init = input.drop_last();
        assert forall|i: int| 0 <= i < init.len() implies start_key(#[trigger] init[i]) != kl by {
            assert(init[i] == input[i]);
            assert(key_lt(start_key(input[i]), start_key(input[n - 1])));
        }
        lemma_starting_at_none(init, kl);
        lemma_starting_at_step(input, kl);
        assert(starting_at(input, kl) =~= seq![last]);
        assert(starting_at(out, kl) == starting_at(input, kl));
        if out.len() == 0 {
            lemma_starting_at_none(out, kl);
            assert(false);
        }
        let m = out.len() - 1;
        let o = out.last();
        let ko = start_key(o);
        if ko != kl {
            // Every start of `input` sorts at or before `kl`, so a later key of `out` would start
            // diagnostics that `input` lacks.
            if exists|i: int| 0 <= i < out.len() && start_key(#[trigger] out[i]) == kl {
                let i = choose|i: int| 0 <= i < out.len() && start_key(#[trigger] out[i]) == kl;
                assert(key_le(start_key(out[i]), start_key(out[m])) || i == m);
            } else {
                lemma_starting_at_none(out, kl);
            }
            assert(key_lt(kl, ko));
            assert forall|i: int| 0 <= i < input.len() implies start_key(#[trigger] input[i]) != ko by {
                if i < n - 1 {
                    assert(key_lt(start_key(input[i]), start_key(input[n - 1])));
                }
            }
            lemma_starting_at_none(input, ko);
            lemma_starting_at_has(out, m);
            assert(starting_at(out, ko) == starting_at(input, ko));
            assert(false);
        }
        lemma_starting_at_step(out, kl);
        assert(starting_at(out, kl).len() == 1);
        assert(starting_at(out.drop_last(), kl).len() == 0);
        assert(starting_at(out, kl)[0] == o);
        assert(o == last);
        let oi = out.drop_last();
        assert forall|k: (u32, u32)| #[trigger] starting_at(oi, k) == starting_at(init, k) by {
            lemma_starting_at_step(out, k);
            lemma_starting_at_step(input, k);
            assert(starting_at(out, k) == starting_at(input, k));
            if k == kl {
                assert(starting_at(oi, k).len() == 0);
                assert(starting_at(oi, k) =~= starting_at(init, k));
            }
        }
        assert forall|i: int, j: int| 0 <= i < j < oi.len() implies key_le(start_key(oi[i]), start_key(oi[j])) by {
            assert(oi[i] == out[i] && oi[j] == out[j]);
        }
        assert forall|i: int, j: int| 0 <= i < j < init.len() implies key_lt(start_key(#[trigger] init[i]), start_key(#[trigger] init[j])) by {
            assert(init[i] == input[i] && init[j] == input[j]);
        }
        lemma_sorted_stays(oi, init);
        assert(out =~= oi.push(o));
        assert(input =~= init.push(last));
    }
}

/// The trailing-whitespace diagnostics of increasing ranges start in increasing positions, each
/// at the start of one of the ranges.
proof fn lemma_whitespace_diagnostics_sorted(source: &str, ws: Seq<Range<usize>>)
    requires
        source.spec_bytes().len() < u32::MAX,
        forall|k: int|
            0 <= k < ws.len() ==> {
                let r = #[trigger] ws[k];
                &&& r.start < r.end <= source.spec_bytes().len()
                &&& is_boundary(source, r.start as int)
            },
        forall|j: int, k: int| 0 <= j < k < ws.len() ==> #[trigger] ws[j].end < #[trigger] ws[k].start,
    ensures
        ({
            let d = whitespace_diagnostics(source, ws);
            &&& forall|i: int, j: int|
                0 <= i < j < d.len() ==> key_lt(start_key(#[trigger] d[i]), start_key(#[trigger] d[j]))
            &&& forall|i: int|
                0 <= i < d.len() ==> exists|j: int|
                    0 <= j < ws.len() && #[trigger] d[i].start == position_at(source, ws[j].start as int)
        }),
    decreases ws.len(),
{
    if ws.len() > 0 {
        let init = ws.drop_last();
        assert forall|j: int, k: int| 0 <= j < k < init.len() implies #[trigger] init[j].end < #[trigger] init[k].start by {
            assert(init[j] == ws[j] && init[k] == ws[k]);
        }
        assert forall|k: int| 0 <= k < init.len() implies {
            let r = #[trigger] init[k];
            &&& r.start < r.end <= source.spec_bytes().len()
            &&& is_boundary(source, r.start as int)
        } by {
            assert(init[k] == ws[k]);
        }
        lemma_whitespace_diagnostics_sorted(source, init);
        let rest = whitespace_diagnostics(source, init);
        let d = whitespace_diagnostics(source, ws);
        let n = ws.len() - 1;
        let r = ws[n];
        assert(ws.last() == r);
        assert forall|i: int| 0 <= i < rest.len() implies key_lt(
            start_key(#[trigger] rest[i]),
            position_key(position_at(source, r.start as int)),
        ) by {
            let j = choose|j: int|
                0 <= j < init.len() && #[trigger] rest[i].start == position_at(source, init[j].start as int);
            assert(init[j] == ws[j]);
            assert(ws[j].end < ws[n].start);
            law_positions_grow(source, ws[j].start as int, r.start as int);
        }
        if d.len() > rest.len() {
            assert(d == rest.push(d.last()));
            assert(d.last().start == position_at(source, r.start as int));
            assert forall|i: int, j: int| 0 <= i < j < d.len() implies key_lt(start_key(#[trigger] d[i]), start_key(#[trigger] d[j])) by {
                if j < rest.len() {
                    assert(d[i] == rest[i] && d[j] == rest[j]);
                } else {
                    assert(d[i] == rest[i]);
                }
            }
            assert forall|i: int| 0 <= i < d.len() implies exists|j: int|
                0 <= j < ws.len() && #[trigger] d[i].start == position_at(source, ws[j].start as int) by {
                if i < rest.len() {
                    assert(d[i] == rest[i]);
                    let j = choose|j: int|
                        0 <= j < init.len() && #[trigger] rest[i].start == position_at(source, init[j].start as int);
                    assert(init[j] == ws[j]);
                } else {
                    assert(d[i].start == position_at(source, ws[n].start as int));
                }
            }
        } else {
            assert(d == rest);
            assert forall|i: int| 0 <= i < d.len() implies exists|j: int|
                0 <= j < ws.len() && #[trigger] d[i].start == position_at(source, ws[j].start as int) by {
                let j = choose|j: int|
                    0 <= j < init.len() && #[trigger] rest[i].start == position_at(source, init[j].start as int);
                assert(init[j] == ws[j]);
            }
        }
    }
}

/// The key of a position.
pub open spec fn position_key(p: Position) -> (u32, u32) {
    (p.line, p.column)
}

/// Without a tree, `lint` reports the trailing whitespace in the order of the text: the stable
/// sort by start leaves its diagnostics as they were found.
pub proof fn law_lint_without_tree_keeps_order(source: &str, out: Seq<DiagnosticView>)
    requires
        source.spec_bytes().len() < u32::MAX,
        stably_sorted(out, lint_unsorted(source, None)),
    ensures
        out == whitespace_diagnostics(source, trailing_from(source.spec_bytes(), Seq::empty(), 0)),
{
    let b = source.spec_bytes();
    let ws = trailing_from(b, Seq::empty(), 0);
    lemma_trailing_from(b, Seq::empty(), 0);
    encode_utf8_valid_utf8(source@);
    assert forall|k: int| 0 <= k < ws.len() implies {
        let r = #[trigger] ws[k];
        &&& r.start < r.end <= b.len()
        &&& is_boundary(source, r.start as int)
    } by {
        let r = ws[k];
        assert(is_trailing_space(b[r.start as int]));
        lemma_ascii_is_boundary(b, r.start as int);
    }
    assert forall|j: int, k: int| 0 <= j < k < ws.len() implies #[trigger] ws[j].end < #[trigger] ws[k].start by {
    }
    lemma_whitespace_diagnostics_sorted(source, ws);
    let d = whitespace_diagnostics(source, ws);
    assert(lint_unsorted(source, None) =~= d);
    lemma_sorted_stays(out, d);
}

proof fn lemma_depth_step(nodes: Seq<SyntaxNode>, k: int)
    requires
        shape_ok(nodes),
        0 < k < nodes.len(),
    ensures
        node_depth(nodes, k) == node_depth(nodes, parent_of(nodes, k)) + 1,
{
    let p = parent_of(nodes, k);
    assert(0 <= p < k);
}

/// A node inside the subtree of `a` lies deeper than `a`.
proof fn lemma_subtree_deeper(nodes: Seq<SyntaxNode>, a: int, k: int)
    requires
        shape_ok(nodes),
        0 <= a < k < end_of(nodes, a),
        k < nodes.len(),
    ensures
        node_depth(nodes, k) > node_depth(nodes, a),
    decreases k,
{
    let p = parent_of(nodes, k);
    assert(0 <= p < k < end_of(nodes, p));
    assert(a <= p);
    lemma_depth_step(nodes, k);
    if p > a {
        lemma_subtree_deeper(nodes, a, p);
    }
}

/// The parent of node `k` is the last node before it that lies less deep.
proof fn lemma_parent_by_depth(nodes: Seq<SyntaxNode>, k: int, j: int)
    requires
        shape_ok(nodes),
        0 < k < nodes.len(),
        parent_of(nodes, k) < j < k,
    ensures
        node_depth(nodes, j) >= node_depth(nodes, k),
{
    let p = parent_of(nodes, k);
    assert(0 <= p < k < end_of(nodes, p));
    lemma_subtree_deeper(nodes, p, j);
    lemma_depth_step(nodes, k);
}

/// The subtree of node `i` ends at the first node after it that lies no deeper, or at the end.
proof fn lemma_end_by_depth(nodes: Seq<SyntaxNode>, i: int)
    requires
        shape_ok(nodes),
        0 <= i < nodes.len(),
    ensures
        forall|k: int| i < k < end_of(nodes, i) ==> node_depth(nodes, k) > node_depth(nodes, i),
        end_of(nodes, i) < nodes.len() ==> node_depth(nodes, end_of(nodes, i)) <= node_depth(nodes, i),
{
    let n = nodes.len() as int;
    let e = end_of(nodes, i);
    assert(i < e <= n);
    assert forall|k: int| i < k < end_of(nodes, i) implies node_depth(nodes, k) > node_depth(nodes, i) by {
        lemma_subtree_deeper(nodes, i, k);
    }
    if e < n {
        let p = parent_of(nodes, e);
        assert(0 <= p < e < end_of(nodes, p));
        if p >= i {
            if p > i {
                assert(end_of(nodes, p) <= end_of(nodes, i));
            }
            assert(false);
        }
        lemma_subtree_deeper(nodes, p, i);
        lemma_depth_step(nodes, e);
    }
}

/// Two trees that hold the same records for their nodes hold the same nodes: the records fix
/// each node's fields and texts (by their characters) and, through the depths, the links
/// between the nodes.
pub proof fn law_records_determine_tree(t1: &SyntaxTree, t2: &SyntaxTree, recs: Seq<NodeRecord>)
    requires
        t1.wf_shape(),
        t2.wf_shape(),
        tree_of_records(t1, recs),
        tree_of_records(t2, recs),
    ensures
        t1.len() == t2.len(),
        forall|k: int|
            0 <= k < t1.len() ==> {
                let a = #[trigger] t1.nodes@[k];
                let b = t2.nodes@[k];
                &&& a.kind@ == b.kind@
                &&& (match (a.field_name, b.field_name) {
                    (Some(f), Some(g)) => f@ == g@,
                    (None, None) => true,
                    _ => false,
                })
                &&& a.is_named == b.is_named && a.is_extra == b.is_extra && a.is_error == b.is_error
                &&& a.is_missing == b.is_missing && a.has_error == b.has_error
                &&& a.start_byte == b.start_byte && a.end_byte == b.end_byte
                &&& a.parent == b.parent
                &&& a.prev_sibling == b.prev_sibling
                &&& a.subtree_end == b.subtree_end
            },
{
    let n1 = t1.nodes@;
    let n2 = t2.nodes@;
    let n = n1.len() as int;
    assert forall|k: int| 0 <= k < n implies #[trigger] node_depth(n1, k) == node_depth(n2, k) by {
        assert(node_depth(n1, k) == recs[k].depth);
        assert(node_depth(n2, k) == recs[k].depth);
    }
    // The parents agree.
    assert forall|k: int| 0 <= k < n implies #[trigger] parent_of(n1, k) == parent_of(n2, k) by {
        if k > 0 {
            let p1 = parent_of(n1, k);
            let p2 = parent_of(n2, k);
            assert(0 <= p1 < k && 0 <= p2 < k);
            lemma_depth_step(n1, k);
            lemma_depth_step(n2, k);
            assert(node_depth(n1, p1) == node_depth(n2, p1));
            assert(node_depth(n1, p2) == node_depth(n2, p2));
            assert(node_depth(n1, k) == node_depth(n2, k));
            if p1 < p2 {
                lemma_parent_by_depth(n1, k, p2);
            } else if p2 < p1 {
                lemma_parent_by_depth(n2, k, p1);
            }
        }
    }
    // The subtree ends agree.
    assert forall|i: int| 0 <= i < n implies #[trigger] end_of(n1, i) == end_of(n2, i) by {
        lemma_end_by_depth(n1, i);
        lemma_end_by_depth(n2, i);
        let e1 = end_of(n1, i);
        let e2 = end_of(n2, i);
        if e1 < e2 {
            assert(node_depth(n1, e1) == node_depth(n2, e1));
            assert(node_depth(n1, i) == node_depth(n2, i));
        } else if e2 < e1 {
            assert(node_depth(n1, e2) == node_depth(n2, e2));
            assert(node_depth(n1, i) == node_depth(n2, i));
        }
    }
    assert forall|k: int| 0 <= k < n implies {
        let a = #[trigger] n1[k];
        let b = n2[k];
        &&& a.kind@ == b.kind@
        &&& (match (a.field_name, b.field_name) {
            (Some(f), Some(g)) => f@ == g@,
            (None, None) => true,
            _ => false,
        })
        &&& a.is_named == b.is_named && a.is_extra == b.is_extra && a.is_error == b.is_error
        &&& a.is_missing == b.is_missing && a.has_error == b.has_error
        &&& a.start_byte == b.start_byte && a.end_byte == b.end_byte
        &&& a.parent == b.parent
        &&& a.prev_sibling == b.prev_sibling
        &&& a.subtree_end == b.subtree_end
    } by {
        let a = n1[k];
        let b = n2[k];
        assert(t1.nodes@[k] == a && t2.nodes@[k] == b);
        assert(parent_of(n1, k) == parent_of(n2, k));
        assert(end_of(n1, k) == end_of(n2, k));
        if k == 0 {
            assert(a.parent is None && b.parent is None);
        } else {
            assert(a.parent is Some && b.parent is Some);
        }
        // The previous siblings agree.
        match (a.prev_sibling, b.prev_sibling) {
            (Some(s1), Some(s2)) => {
                assert(end_of(n1, s1 as int) == k && end_of(n2, s2 as int) == k);
                assert(parent_of(n1, s1 as int) == parent_of(n1, k));
                assert(parent_of(n2, s2 as int) == parent_of(n2, k));
                assert(parent_of(n1, s2 as int) == parent_of(n2, s2 as int));
                assert(end_of(n1, s1 as int) == end_of(n2, s1 as int));
                if s1 < s2 {
                    assert(parent_of(n1, s2 as int) < s2);
                    assert(s1 <= parent_of(n1, s2 as int));
                    assert(parent_of(n1, s1 as int) < s1 || s1 == 0);
                    assert(false);
                } else if s2 < s1 {
                    assert(parent_of(n2, s1 as int) < s1);
                    assert(s2 <= parent_of(n2, s1 as int));
                    assert(parent_of(n2, s2 as int) < s2 || s2 == 0);
                    assert(false);
                }
            },
            (Some(s1), None) => {
                assert(parent_of(n2, k) == k - 1);
                assert(parent_of(n1, s1 as int) == parent_of(n1, k));
                if s1 == 0 {
                    assert(parent_of(n1, 0) == -1);
                } else {
                    assert(parent_of(n1, s1 as int) < s1);
                }
                assert(false);
            },
            (None, Some(s2)) => {
                assert(parent_of(n1, k) == k - 1);
                assert(parent_of(n2, s2 as int) == parent_of(n2, k));
                if s2 == 0 {
                    assert(parent_of(n2, 0) == -1);
                } else {
                    assert(parent_of(n2, s2 as int) < s2);
                }
                assert(false);
            },
            (None, None) => {},
        }
        if a.parent is Some {
            assert(a.parent->0 == b.parent->0);
        }
    }
}

/// The offsets `last + 0, last + 1, ..` up to `end`.
pub open spec fn offsets(last: int, end: int) -> Seq<int> {
    Seq::new((end - last) as nat, |i: int| last + i)
}

/// The offsets of the bytes that [`kept_from`] keeps.
pub open spec fn kept_offsets(ws: Seq<Range<usize>>, last: int, stop: int) -> Seq<int>
    decreases ws.len(),
{
    if ws.len() == 0 || ws[0].start >= stop {
        offsets(last, stop)
    } else {
        offsets(last, ws[0].start as int) + kept_offsets(ws.drop_first(), ws[0].end as int, stop)
    }
}

/// The bytes of `b` at the offsets `ks`.
pub open spec fn pick(b: Seq<u8>, ks: Seq<int>) -> Seq<u8> {
    ks.map_values(|k: int| b[k])
}

/// Offset `k` lies in one of the ranges `ws`.
pub open spec fn in_some(ws: Seq<Range<usize>>, k: int) -> bool {
    exists|m: int| 0 <= m < ws.len() && #[trigger] ws[m].start <= k < ws[m].end
}

proof fn lemma_kept_offsets(b: Seq<u8>, ws: Seq<Range<usize>>, last: int, stop: int)
    requires
        0 <= last <= stop <= b.len(),
        forall|m: int| 0 <= m < ws.len() ==> last <= #[trigger] ws[m].start <= ws[m].end,
        forall|m: int| 0 <= m < ws.len() && #[trigger] ws[m].start < stop ==> ws[m].end <= stop,
        forall|j: int, m: int| 0 <= j < m < ws.len() ==> #[trigger] ws[j].end <= #[trigger] ws[m].start,
    ensures
        ({
            let ks = kept_offsets(ws, last, stop);
            &&& kept_from(b, ws, last, stop) == pick(b, ks)
            &&& forall|i: int, j: int| 0 <= i < j < ks.len() ==> #[trigger] ks[i] < #[trigger] ks[j]
            &&& forall|i: int| 0 <= i < ks.len() ==> last <= #[trigger] ks[i] < stop
            &&& forall|k: int| last <= k < stop && !ks.contains(k) ==> #[trigger] in_some(ws, k)
        }),
    decreases ws.len(),
{
    let ks = kept_offsets(ws, last, stop);
    if ws.len() == 0 || ws[0].start >= stop {
        assert(pick(b, ks) =~= b.subrange(last, stop));
        assert forall|k: int| last <= k < stop && !ks.contains(k) implies #[trigger] in_some(ws, k) by {
            assert(ks[k - last] == k);
        }
    } else {
        let s0 = ws[0].start as int;
        let e0 = ws[0].end as int;
        let rest = ws.drop_first();
        assert forall|m: int| 0 <= m < rest.len() implies e0 <= #[trigger] rest[m].start <= rest[m].end by {
            assert(rest[m] == ws[m + 1]);
        }
        assert forall|m: int| 0 <= m < rest.len() && #[trigger] rest[m].start < stop implies rest[m].end <= stop by {
            assert(rest[m] == ws[m + 1]);
        }
        assert forall|j: int, m: int| 0 <= j < m < rest.len() implies #[trigger] rest[j].end <= #[trigger] rest[m].start by {
            assert(rest[j] == ws[j + 1] && rest[m] == ws[m + 1]);
        }
        lemma_kept_offsets(b, rest, e0, stop);
        let head = offsets(last, s0);
        let tail = kept_offsets(rest, e0, stop);
        assert(ks == head + tail);
        assert(pick(b, head) =~= b.subrange(last, s0));
        assert(pick(b, ks) =~= pick(b, head) + pick(b, tail));
        assert forall|i: int, j: int| 0 <= i < j < ks.len() implies #[trigger] ks[i] < #[trigger] ks[j] by {
            if j < head.len() {
            } else if i < head.len() {
                assert(tail[j - head.len()] >= e0);
            } else {
                assert(ks[i] == tail[i - head.len()] && ks[j] == tail[j - head.len()]);
            }
        }
        assert forall|i: int| 0 <= i < ks.len() implies last <= #[trigger] ks[i] < stop by {
            if i >= head.len() {
                assert(ks[i] == tail[i - head.len()]);
            }
        }
        assert forall|k: int| last <= k < stop && !ks.contains(k) implies #[trigger] in_some(ws, k) by {
            if k < s0 {
                assert(ks[k - last] == k);
            } else if k < e0 {
                assert(ws[0].start <= k < ws[0].end);
            } else {
                if tail.contains(k) {
                    let i = choose|i: int| 0 <= i < tail.len() && tail[i] == k;
                    assert(ks[i + head.len()] == k);
                }
                assert(in_some(rest, k));
                let m = choose|m: int| 0 <= m < rest.len() && #[trigger] rest[m].start <= k < rest[m].end;
                assert(rest[m] == ws[m + 1]);
            }
        }
    }
}

/// `format` keeps the bytes of the source in their order and removes only whitespace: each
/// removed byte is `' '`, `'\t'`, `'\r'` or `'\n'` and lies in no value range, and a removed line
/// feed lies after the last other byte of the content and after every value. At most one line
/// feed is added at the end.
pub proof fn law_format_removes_only_whitespace(b: Seq<u8>, values: Seq<Range<usize>>)
    requires
        b.len() <= usize::MAX,
        forall|j: int| 0 <= j < values.len() ==> #[trigger] values[j].start <= values[j].end <= b.len(),
    ensures
        exists|ks: Seq<int>|
            {
                &&& forall|i: int, j: int| 0 <= i < j < ks.len() ==> #[trigger] ks[i] < #[trigger] ks[j]
                &&& forall|i: int| 0 <= i < ks.len() ==> 0 <= #[trigger] ks[i] < b.len()
                &&& format_bytes(b, values) == pick(b, ks) || format_bytes(b, values) == pick(b, ks).push(
                    NEWLINE,
                )
                &&& forall|k: int|
                    0 <= k < b.len() && !ks.contains(k) ==> {
                        &&& is_trailing_space(#[trigger] b[k]) || b[k] == NEWLINE
                        &&& forall|j: int|
                            0 <= j < values.len() ==> !(#[trigger] values[j].start <= k < values[j].end)
                        &&& b[k] == NEWLINE ==> k >= trimmed_len(b, b.len() as int) && forall|j: int|
                            0 <= j < values.len() ==> #[trigger] values[j].end <= k
                    }
            },
{
    let n = b.len() as int;
    let ws = trailing_from(b, values, 0);
    let stop = content_end(b, values);
    lemma_trailing_from(b, values, 0);
    lemma_trimmed_len(b, n);
    lemma_values_end(values);
    lemma_format_defined(b, values);
    if values.len() > 0 {
        let j = choose|j: int| 0 <= j < values.len() && #[trigger] values[j].end == values_end(values);
        assert(values[j].start <= values[j].end <= n);
    }
    assert(stop <= n);
    assert forall|j: int, m: int| 0 <= j < m < ws.len() implies #[trigger] ws[j].end <= #[trigger] ws[m].start by {
    }
    lemma_kept_offsets(b, ws, 0, stop);
    let ks = kept_offsets(ws, 0, stop);
    assert forall|k: int| 0 <= k < b.len() && !ks.contains(k) implies {
        &&& is_trailing_space(#[trigger] b[k]) || b[k] == NEWLINE
        &&& forall|j: int| 0 <= j < values.len() ==> !(#[trigger] values[j].start <= k < values[j].end)
        &&& b[k] == NEWLINE ==> k >= trimmed_len(b, b.len() as int) && forall|j: int|
            0 <= j < values.len() ==> #[trigger] values[j].end <= k
    } by {
        if k < stop {
            assert(in_some(ws, k));
            let m = choose|m: int| 0 <= m < ws.len() && #[trigger] ws[m].start <= k < ws[m].end;
            assert(is_trailing_space(b[k]));
            assert forall|j: int| 0 <= j < values.len() implies !(#[trigger] values[j].start <= k < values[j].end) by {
                assert(ws[m].end <= values[j].start || values[j].end <= ws[m].start);
            }
        } else {
            assert(k >= trimmed_len(b, n));
            assert forall|j: int| 0 <= j < values.len() implies #[trigger] values[j].end <= k by {
                assert(values[j].end <= values_end(values));
            }
        }
    }
    let kept = kept_from(b, ws, 0, stop);
    assert(kept == pick(b, ks));
    assert(format_bytes(b, values) == pick(b, ks) || format_bytes(b, values) == pick(b, ks).push(NEWLINE));
    assert forall|i: int| 0 <= i < ks.len() implies 0 <= #[trigger] ks[i] < b.len() by {
    }
}

// ---------------------------------------------------------------------------------------------
// What single nodes add to the complexities, and which nodes are comments or values
/// An `else` token that opens a branch of its own, its parent being no case, switch or
/// conditional expression, adds exactly one to the cognitive complexity and no path.
pub proof fn law_else_adds_one_to_cognitive(
    t: &SyntaxTree,
    source: &str,
    pv: ProfileView,
    i: int,
    n: Nesting,
)
    requires
        t.wf(source),
        0 <= i < t.len(),
        !t.nodes@[i].is_named,
        t.kind(i) == "else"@,
        !pv.logical_operators.contains("else"@),
        t.nodes@[i].parent matches Some(p) && {
            let owner = t.kind(p as int);
            &&& owner != "else"@
            &&& !pv.cases.contains(owner)
            &&& !pv.switches.contains(owner)
            &&& owner != "conditional_expression"@
        },
    ensures
        visit_effect(t, source, pv, i, n).cognitive == 1,
        visit_effect(t, source, pv, i, n).cyclomatic == 0,
        visit_effect(t, source, pv, i, n).functions == 0,
{
    reveal(visit_effect);
}

/// A node that reaches the profile's cases, and is no function, branch, switch or operator.
pub open spec fn plain_case(t: &SyntaxTree, pv: ProfileView, i: int) -> bool {
    let kind = t.kind(i);
    &&& t.nodes@[i].is_named
    &&& pv.operator_node != Some(kind)
    &&& !pv.functions.contains(kind)
    &&& !pv.chained_branches.contains(kind)
    &&& !pv.branches.contains(kind)
    &&& kind != "boolean"@
    &&& kind != "block"@
    &&& !pv.alternative_branches.contains(kind)
    &&& !pv.switches.contains(kind)
    &&& pv.cases.contains(kind)
}

/// The case carries no guard of any form: no `guard` field, no guard clause child, no
/// condition on its pattern, no `when` and no Haskell `guards`.
pub open spec fn unguarded(t: &SyntaxTree, pv: ProfileView, i: int) -> bool {
    &&& field_child(t, i, "guard"@) is None
    &&& forall|k: int|
        0 <= k < t.children(i).len() ==> {
            let c = #[trigger] t.children(i)[k] as int;
            &&& !(t.nodes@[c].is_named && pv.chained_branches.contains(t.kind(c)))
            &&& !(!t.nodes@[c].is_named && t.kind(c) == "when"@)
        }
    &&& field_child(t, i, "pattern"@) matches Some(q) ==> field_child(t, q as int, "condition"@) is None
    &&& field_child(t, i, "match"@) matches Some(m) ==> field_child(t, m as int, "guards"@) is None
}

/// A default case, marked by a `default`, `else` or `_` keyword among its children and carrying
/// no guard, adds no path to the cyclomatic complexity and nothing to the cognitive one.
pub proof fn law_default_case_adds_no_path(
    t: &SyntaxTree,
    source: &str,
    pv: ProfileView,
    i: int,
    n: Nesting,
    k: int,
)
    requires
        t.wf(source),
        0 <= i < t.len(),
        plain_case(t, pv, i),
        unguarded(t, pv, i),
        0 <= k < t.children(i).len(),
        ({
            let c = t.children(i)[k] as int;
            &&& !t.nodes@[c].is_named
            &&& (t.kind(c) == "default"@ || t.kind(c) == "else"@ || t.kind(c) == "_"@)
        }),
    ensures
        visit_effect(t, source, pv, i, n).cyclomatic == 0,
        visit_effect(t, source, pv, i, n).cognitive == 0,
{
    reveal(visit_effect);
    let children = t.children(i);
    let c = children[k];
    assert(!t.nodes@[i].is_named == false);
    assert(operator_text(t, source, pv, i) is None);
    assert(!comprehension_filter(t, i) && !dart_handler_block(t, i));
    assert(any_in(
        children,
        |c: usize|
            !t.nodes@[c as int].is_named && (t.kind(c as int) == "default"@ || t.kind(c as int)
                == "else"@ || t.kind(c as int) == "_"@),
    ));
    if any_in(children, |c: usize| t.nodes@[c as int].is_named && pv.chained_branches.contains(t.kind(c as int))) {
        let j = choose|j: int| 0 <= j < children.len() && (|c: usize| t.nodes@[c as int].is_named && pv.chained_branches.contains(t.kind(c as int)))(#[trigger] children[j]);
        assert(children[j] == t.children(i)[j]);
    }
    if any_in(children, |c: usize| when_guard(t, c as int)) {
        let j = choose|j: int| 0 <= j < children.len() && (|c: usize| when_guard(t, c as int))(#[trigger] children[j]);
        assert(children[j] == t.children(i)[j]);
    }
    assert(!case_guarded(t, pv, i));
    assert(default_case(t, source, pv, i));
    assert(!condition_guard(t, i));
}

/// A case with no `default`, `else` or `_` keyword among its children, of a kind whose pattern is
/// no wildcard, adds a path to the cyclomatic complexity.
pub proof fn law_other_case_adds_a_path(
    t: &SyntaxTree,
    source: &str,
    pv: ProfileView,
    i: int,
    n: Nesting,
)
    requires
        t.wf(source),
        0 <= i < t.len(),
        plain_case(t, pv, i),
        !pv.wildcard_cases.contains(t.kind(i)),
        forall|k: int|
            0 <= k < t.children(i).len() ==> {
                let c = #[trigger] t.children(i)[k] as int;
                !(!t.nodes@[c].is_named && (t.kind(c) == "default"@ || t.kind(c) == "else"@ || t.kind(c)
                    == "_"@))
            },
    ensures
        visit_effect(t, source, pv, i, n).cyclomatic >= 1,
        unguarded(t, pv, i) ==> visit_effect(t, source, pv, i, n).cyclomatic == 1,
{
    reveal(visit_effect);
    let children = t.children(i);
    assert(operator_text(t, source, pv, i) is None);
    assert(!comprehension_filter(t, i) && !dart_handler_block(t, i));
    if any_in(
        children,
        |c: usize|
            !t.nodes@[c as int].is_named && (t.kind(c as int) == "default"@ || t.kind(c as int)
                == "else"@ || t.kind(c as int) == "_"@),
    ) {
        let j = choose|j: int|
            0 <= j < children.len() && (|c: usize|
                !t.nodes@[c as int].is_named && (t.kind(c as int) == "default"@ || t.kind(c as int)
                    == "else"@ || t.kind(c as int) == "_"@))(#[trigger] children[j]);
        assert(children[j] == t.children(i)[j]);
    }
    assert(!default_case(t, source, pv, i));
    if unguarded(t, pv, i) {
        assert(!condition_guard(t, i));
    }
}

/// `kind` holds the characters `part` at some position.
pub open spec fn holds_at(kind: Seq<char>, part: Seq<char>, k: int) -> bool {
    0 <= k && k + part.len() <= kind.len() && kind.subrange(k, k + part.len()) == part
}

proof fn lemma_holds_has_sub(kind: Seq<char>, part: Seq<char>, k: int)
    requires
        holds_at(kind, part, k),
    ensures
        has_sub(kind, part),
{
    let pre = kind.subrange(0, k);
    let post = kind.subrange(k + part.len(), kind.len() as int);
    assert(kind =~= pre + part + post);
    lemma_encode_append(pre + part, post);
    lemma_encode_append(pre, part);
    let hay = encode_utf8(kind);
    let needle = encode_utf8(part);
    let at = encode_utf8(pre).len() as int;
    assert(hay == encode_utf8(pre) + needle + encode_utf8(post));
    assert(hay.subrange(at, at + needle.len()) =~= needle);
    assert(occurs_at(hay, needle, at));
}

/// Every named node whose kind contains `comment`, such as `line_comment` or `block_comment`, is
/// a comment node.
pub proof fn law_comment_kinds_are_comments(t: &SyntaxTree, source: &str, i: int, k: int)
    requires
        0 <= i < t.len(),
        t.nodes@[i].is_named,
        holds_at(t.kind(i), "comment"@, k),
        t.kind(i) != "directive"@,
        t.kind(i) != "output_directive"@,
    ensures
        comment_node(t, source, i),
{
    lemma_holds_has_sub(t.kind(i), "comment"@, k);
}

/// An HTML element whose start tag's name is `pre`, in any case of its letters, is a value
/// region, so its whitespace is kept.
pub proof fn law_pre_elements_are_values(t: &SyntaxTree, source: &str, i: int, name: usize)
    requires
        t.wf(source),
        0 <= i < t.len(),
        t.kind(i) == "element"@,
        t.children(i).len() > 0,
        t.first_named(t.children(t.children(i)[0] as int)) == Some(name),
        t.kind(name as int) == "tag_name"@,
        ({
            let nb = node_bytes(t, source, name as int);
            &&& nb.len() == 3
            &&& nb[0] == 0x70 || nb[0] == 0x50
            &&& nb[1] == 0x72 || nb[1] == 0x52
            &&& nb[2] == 0x65 || nb[2] == 0x45
        }),
    ensures
        is_value(t, source, i),
{
    reveal_strlit("pre");
    let pre = "pre"@;
    assert(is_ascii_chars(pre));
    is_ascii_chars_encode_utf8(pre);
    let pb = "pre".spec_bytes();
    assert(pb.len() == 3);
    assert(pb[0] == pre[0] as u8 && pb[1] == pre[1] as u8 && pb[2] == pre[2] as u8);
    let nb = node_bytes(t, source, name as int);
    assert forall|j: int| 0 <= j < nb.len() implies ascii_lower(#[trigger] nb[j]) == ascii_lower(pb[j]) by {
    }
    assert(eq_ascii_case(nb, pb));
    assert(preformatted(t, source, i));
}

/// A node that joins adjacent literals (`concatenated_string`, `chained_string`,
/// `string_array`) is no value region: only its parts are, so the whitespace between them is
/// code.
pub proof fn law_joined_literals_are_no_value(t: &SyntaxTree, source: &str, i: int)
    requires
        t.wf(source),
        0 <= i < t.len(),
        t.kind(i) == "concatenated_string"@ || t.kind(i) == "chained_string"@ || t.kind(i)
            == "string_array"@,
    ensures
        !is_value(t, source, i),
{
    reveal_strlit("concatenated_string");
    reveal_strlit("chained_string");
    reveal_strlit("string_array");
    reveal_strlit("escape_sequence");
    reveal_strlit("element");
    let kind = t.kind(i);
    let needle = "escape_sequence"@;
    assert(is_ascii_chars(kind));
    assert(is_ascii_chars(needle));
    is_ascii_chars_encode_utf8(kind);
    is_ascii_chars_encode_utf8(needle);
    let hay = encode_utf8(kind);
    let nb = encode_utf8(needle);
    assert(nb.len() == 15);
    assert(nb[1] == needle[1] as u8);
    assert forall|o: int| !occurs_at(hay, nb, o) by {
        if 0 <= o && o + 15 <= hay.len() {
            assert(hay.len() == 19);
            assert(hay.subrange(o, o + 15)[1] == hay[o + 1]);
            assert(hay[o + 1] == kind[o + 1] as u8);
        }
    }
    assert(!has_sub(kind, needle));
    assert(kind != "element"@) by {
        assert(kind.len() != "element"@.len());
    }
    assert(concatenation(t, i));
}

proof fn lemma_no_named(t: &SyntaxTree, s: Seq<usize>)
    requires
        forall|k: int| 0 <= k < s.len() ==> !t.nodes@[#[trigger] s[k] as int].is_named,
    ensures
        named_count(t, s) == 0,
    decreases s.len(),
{
    if s.len() > 0 {
        assert forall|k: int| 0 <= k < s.drop_first().len() implies !t.nodes@[#[trigger] s.drop_first()[k] as int].is_named by {
            assert(s.drop_first()[k] == s[k + 1]);
        }
        lemma_no_named(t, s.drop_first());
    }
}

/// A literal whose kind contains `string` and that has at most its unnamed delimiters as
/// children, such as a Python `string` with no interpolation, is a value region.
pub proof fn law_plain_strings_are_values(t: &SyntaxTree, source: &str, i: int, k: int)
    requires
        t.wf(source),
        0 <= i < t.len(),
        holds_at(t.kind(i), "string"@, k),
        t.kind(i) != "concatenated_string"@,
        t.kind(i) != "chained_string"@,
        t.kind(i) != "string_array"@,
        forall|j: int| 0 <= j < t.children(i).len() ==> !t.nodes@[#[trigger] t.children(i)[j] as int].is_named,
    ensures
        is_value(t, source, i),
{
    lemma_holds_has_sub(t.kind(i), "string"@, k);
    lemma_no_named(t, t.children(i));
    assert(!concatenation(t, i));
}

} // verus!
