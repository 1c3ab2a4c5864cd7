//! Line counts and complexity metrics.
use vstd::prelude::*;
use vstd::string::*;
use vstd::utf8::*;

use crate::language::{profile_views, Profile, ProfileView};
use crate::lint::LineIndex;
use crate::syntax::SyntaxTree;
use crate::text::{
    bytes_occur_at, has_sub, is_blank, is_blank_chars, is_boundary, lemma_after_ascii,
    lemma_ascii_is_boundary, lemma_line_end_from_bounds, lemma_line_end_skip,
    lemma_line_starts_shape, lemma_newlines_le, line_count, line_end_from, line_starts,
    list_contains, newlines_before, occurs_at, str_contains, str_eq, substr, text_of, NEWLINE,
};
use crate::tree::{walk, walk_order};

verus! {

// ---------------------------------------------------------------------------------------------
// Node predicates
/// The option's string taken by its characters.
pub open spec fn opt_chars(s: Option<&str>) -> Option<Seq<char>> {
    match s {
        Some(x) => Some(x@),
        None => None,
    }
}

/// Some node of the chain of previous siblings from `s` satisfies `pred`.
pub open spec fn any_before(t: &SyntaxTree, s: Option<usize>, pred: spec_fn(usize) -> bool) -> bool
    decreases (match s {
        Some(x) => x + 1,
        None => 0,
    }),
{
    match s {
        None => false,
        Some(x) => if x >= t.len() {
            false
        } else if pred(x) {
            true
        } else {
            match t.nodes@[x as int].prev_sibling {
                Some(y) => if y < x {
                    any_before(t, Some(y), pred)
                } else {
                    false
                },
                None => false,
            }
        },
    }
}

/// Some node of `s` satisfies `pred`.
pub open spec fn any_in(s: Seq<usize>, pred: spec_fn(usize) -> bool) -> bool {
    exists|k: int| 0 <= k < s.len() && pred(#[trigger] s[k])
}

/// The child of `p` under the field `name`.
pub open spec fn field_child(t: &SyntaxTree, p: int, name: Seq<char>) -> Option<usize> {
    t.first_with_field(t.children(p), name)
}

/// The text of an operator: an anonymous node's kind, or the source text of a named node of
/// the profile's operator kind.
pub open spec fn operator_text(t: &SyntaxTree, source: &str, pv: ProfileView, i: int) -> Option<
    Seq<char>,
> {
    let node = t.nodes@[i];
    if !node.is_named {
        Some(t.kind(i))
    } else if pv.operator_node == Some(t.kind(i)) {
        Some(text_of(source, node.start_byte as int, node.end_byte as int))
    } else {
        None
    }
}

/// The node has a named node on each side, as a binary operator does.
pub open spec fn between_operands(t: &SyntaxTree, i: int) -> bool {
    &&& t.nodes@[i].prev_sibling matches Some(s) && t.nodes@[s as int].is_named
    &&& t.next_sibling_of(i) matches Some(s) && t.nodes@[s as int].is_named
}

/// The node is the `operator` of a parent with a `left` and a `right`.
pub open spec fn is_binary_operator(t: &SyntaxTree, i: int) -> bool {
    t.nodes@[i].parent matches Some(p) && {
        &&& field_child(t, p as int, "operator"@) == Some(i as usize)
        &&& field_child(t, p as int, "left"@) is Some
        &&& field_child(t, p as int, "right"@) is Some
    }
}

/// The logical operator of a binary logical expression, excluding the same token used
/// otherwise, such as C++'s rvalue reference `T&&` and Haskell's operator section `(&&)`. An
/// operand can be an anonymous keyword such as Zig's `unreachable`, so the parent's `operator`
/// field decides where the grammar provides one.
pub open spec fn operator_of(t: &SyntaxTree, source: &str, pv: ProfileView, i: int) -> Option<
    Seq<char>,
> {
    match operator_text(t, source, pv, i) {
        Some(text) => if pv.logical_operators.contains(text) && (is_binary_operator(t, i)
            || between_operands(t, i)) {
            Some(text)
        } else {
            None
        },
        None => None,
    }
}

/// The node is the logical operator `op`.
pub open spec fn is_operator(t: &SyntaxTree, source: &str, pv: ProfileView, op: Seq<char>) -> spec_fn(
    usize,
) -> bool {
    |c: usize| operator_of(t, source, pv, c as int) == Some(op)
}

/// The operator continues a sequence of the same operator, as in `a && b && c`: an adjacent
/// operand contains it (nested chains) or an earlier sibling is it (flat chains such as Dart's
/// `??`).
pub open spec fn continues_sequence(
    t: &SyntaxTree,
    source: &str,
    pv: ProfileView,
    i: int,
    op: Seq<char>,
) -> bool {
    let has_op = is_operator(t, source, pv, op);
    let prev = t.nodes@[i].prev_sibling;
    let next = t.next_sibling_of(i);
    ||| prev matches Some(o) && any_in(t.children(o as int), has_op)
    ||| next matches Some(o) && any_in(t.children(o as int), has_op)
    ||| any_before(t, prev, has_op)
}

/// Haskell's grammar names a list comprehension filter `boolean`, as it does a guard's
/// condition, which its `guards` case already scores.
pub open spec fn comprehension_filter(t: &SyntaxTree, i: int) -> bool {
    &&& t.kind(i) == "boolean"@
    &&& t.nodes@[i].parent matches Some(p) && t.kind(p as int) == "qualifiers"@
}

/// A Rust match arm's pattern carries an `if` guard in its `condition` field.
pub open spec fn condition_guard(t: &SyntaxTree, case: int) -> bool {
    field_child(t, case, "pattern"@) matches Some(pattern) && field_child(
        t,
        pattern as int,
        "condition"@,
    ) is Some
}

/// The body of a Dart exception handler; the grammar keeps a handler's `catch` clause or `on`
/// type as siblings of its block in the `try_statement`.
pub open spec fn dart_handler_block(t: &SyntaxTree, i: int) -> bool {
    &&& t.kind(i) == "block"@
    &&& t.nodes@[i].parent matches Some(p) && t.kind(p as int) == "try_statement"@ && field_child(
        t,
        p as int,
        "body"@,
    ) != Some(i as usize)
}

/// The `when` of a Dart pattern guard, which the grammar leaves unwrapped in the `if` or `case`
/// holding the pattern. Other grammars' `when` keywords start their node.
pub open spec fn when_guard(t: &SyntaxTree, i: int) -> bool {
    !t.nodes@[i].is_named && t.kind(i) == "when"@ && t.nodes@[i].prev_sibling is Some
}

/// The guard of a case, as Python's `if_clause` is, which the grammar also uses for
/// comprehension filters.
pub open spec fn guard_of_case(t: &SyntaxTree, i: int) -> bool {
    t.nodes@[i].parent matches Some(p) && field_child(t, p as int, "guard"@) == Some(i as usize)
}

/// The node has a body: in `body`, as an expression body in `value` (C# properties and
/// indexers, whose `value` also holds an auto-property's initializer), or as a `function_body`
/// child.
pub open spec fn with_body(t: &SyntaxTree, i: int) -> bool {
    ||| field_child(t, i, "body"@) is Some
    ||| field_child(t, i, "value"@) matches Some(v) && t.kind(v as int) == "arrow_expression_clause"@
    ||| any_in(t.children(i), |c: usize| t.kind(c as int) == "function_body"@)
}

/// Haskell's grammar names function types `function` as well as function declarations.
pub open spec fn function_type(t: &SyntaxTree, i: int) -> bool {
    field_child(t, i, "result"@) is Some
}

/// The node directly follows an `else` token.
pub open spec fn after_else(t: &SyntaxTree, i: int) -> bool {
    t.nodes@[i].prev_sibling matches Some(s) && !t.nodes@[s as int].is_named && t.kind(s as int)
        == "else"@
}

/// The node that owns an `else` token: its parent, or the parent of Ruby's `else` node, which
/// wraps the keyword and its body.
pub open spec fn else_owner(t: &SyntaxTree, token: int) -> Option<usize> {
    match t.nodes@[token].parent {
        Some(p) => if t.kind(p as int) == "else"@ {
            t.nodes@[p as int].parent
        } else {
            Some(p)
        },
        None => None,
    }
}

/// Excludes `else` tokens that do not open a branch of their own: the fallback arm of a switch
/// and the second operand of a conditional expression such as Python's `a if c else b`.
pub open spec fn else_branch(t: &SyntaxTree, pv: ProfileView, token: int) -> bool {
    match else_owner(t, token) {
        None => true,
        Some(o) => {
            let kind = t.kind(o as int);
            !pv.cases.contains(kind) && !pv.switches.contains(kind) && kind
                != "conditional_expression"@
        },
    }
}

/// The pattern of a case: its `pattern` field or else its first named child.
pub open spec fn case_pattern(t: &SyntaxTree, i: int) -> Option<usize> {
    match field_child(t, i, "pattern"@) {
        Some(p) => Some(p),
        None => t.first_named(t.children(i)),
    }
}

/// The text of node `i` is `"_"` or `"otherwise"`.
pub open spec fn wildcard_text(t: &SyntaxTree, source: &str, i: int) -> bool {
    let text = text_of(source, t.nodes@[i].start_byte as int, t.nodes@[i].end_byte as int);
    text == "_"@ || text == "otherwise"@
}

/// The case carries a guard. Haskell's `guards` names its own condition `guard`, which is its
/// pattern here; a Haskell alternative keeps its guards in its `match`.
pub open spec fn case_guarded(t: &SyntaxTree, pv: ProfileView, i: int) -> bool {
    let children = t.children(i);
    ||| field_child(t, i, "guard"@) matches Some(g) && Some(g) != case_pattern(t, i)
    ||| any_in(
        children,
        |c: usize| t.nodes@[c as int].is_named && pv.chained_branches.contains(t.kind(c as int)),
    )
    ||| condition_guard(t, i)
    ||| any_in(children, |c: usize| when_guard(t, c as int))
    ||| field_child(t, i, "match"@) matches Some(m) && field_child(t, m as int, "guards"@) is Some
}

/// A default case is marked by a `default` or `else` keyword, or has the wildcard `_` (or
/// Haskell's `otherwise` guard) as its entire pattern where the label is a pattern, and carries
/// no guard.
pub open spec fn default_case(t: &SyntaxTree, source: &str, pv: ProfileView, i: int) -> bool {
    let keyword = any_in(
        t.children(i),
        |c: usize|
            !t.nodes@[c as int].is_named && (t.kind(c as int) == "default"@ || t.kind(c as int)
                == "else"@ || t.kind(c as int) == "_"@),
    );
    let catch_all = pv.wildcard_cases.contains(t.kind(i)) && (case_pattern(t, i) matches Some(p)
        && wildcard_text(t, source, p as int));
    (keyword || catch_all) && !case_guarded(t, pv, i)
}

// ---------------------------------------------------------------------------------------------
// Node predicates, computed
/// The node's kind is `kind`.
fn kind_is(tree: &SyntaxTree, i: usize, kind: &str) -> (r: bool)
    requires
        i < tree.len(),
    ensures
        r == (tree.kind(i as int) == kind@),
{
    str_eq(tree.nodes[i].kind.as_str(), kind)
}

/// Haskell's grammar names a list comprehension filter `boolean`, as it does a guard's
/// condition, which its `guards` case already scores.
pub fn is_comprehension_filter(tree: &SyntaxTree, i: usize) -> (r: bool)
    requires
        tree.wf_shape(),
        i < tree.len(),
    ensures
        r == comprehension_filter(tree, i as int),
{
    proof {
        tree.lemma_links(i as int);
    }
    kind_is(tree, i, "boolean") && match tree.nodes[i].parent {
        Some(p) => kind_is(tree, p, "qualifiers"),
        None => false,
    }
}

/// Whether a Rust match arm's pattern carries an `if` guard in its `condition` field.
pub fn has_condition_guard(tree: &SyntaxTree, case: usize) -> (r: bool)
    requires
        tree.wf_shape(),
        case < tree.len(),
    ensures
        r == condition_guard(tree, case as int),
{
    match tree.child_by_field_name(case, "pattern") {
        Some(pattern) => tree.child_by_field_name(pattern, "condition").is_some(),
        None => false,
    }
}

/// Whether the node is the body of a Dart exception handler; the grammar keeps a handler's
/// `catch` clause or `on` type as siblings of its block in the `try_statement`.
pub fn is_dart_handler_block(tree: &SyntaxTree, i: usize) -> (r: bool)
    requires
        tree.wf_shape(),
        i < tree.len(),
    ensures
        r == dart_handler_block(tree, i as int),
{
    proof {
        tree.lemma_links(i as int);
    }
    if !kind_is(tree, i, "block") {
        return false;
    }
    match tree.nodes[i].parent {
        Some(p) => kind_is(tree, p, "try_statement") && match tree.child_by_field_name(p, "body") {
            Some(body) => body != i,
            None => true,
        },
        None => false,
    }
}

/// Whether the token is the `when` of a Dart pattern guard, which the grammar leaves unwrapped
/// in the `if` or `case` holding the pattern. Other grammars' `when` keywords start their node.
pub fn is_when_guard(tree: &SyntaxTree, token: usize) -> (r: bool)
    requires
        token < tree.len(),
    ensures
        r == when_guard(tree, token as int),
{
    !tree.nodes[token].is_named && kind_is(tree, token, "when") && tree.nodes[token].prev_sibling.is_some()
}

/// Whether the node is the guard of a case, as Python's `if_clause` is, which the grammar also
/// uses for comprehension filters.
pub fn is_guard(tree: &SyntaxTree, i: usize) -> (r: bool)
    requires
        tree.wf_shape(),
        i < tree.len(),
    ensures
        r == guard_of_case(tree, i as int),
{
    proof {
        tree.lemma_links(i as int);
    }
    match tree.nodes[i].parent {
        Some(p) => match tree.child_by_field_name(p, "guard") {
            Some(guard) => guard == i,
            None => false,
        },
        None => false,
    }
}

/// Whether the node has a body: in `body`, as an expression body in `value` (C# properties and
/// indexers, whose `value` also holds an auto-property's initializer), or as a `function_body`
/// child.
pub fn has_body(tree: &SyntaxTree, i: usize) -> (r: bool)
    requires
        tree.wf_shape(),
        i < tree.len(),
    ensures
        r == with_body(tree, i as int),
{
    if tree.child_by_field_name(i, "body").is_some() {
        return true;
    }
    if let Some(value) = tree.child_by_field_name(i, "value") {
        if kind_is(tree, value, "arrow_expression_clause") {
            return true;
        }
    }
    let kids = tree.children_of(i);
    for j in 0..kids.len()
        invariant
            kids@ == tree.children(i as int),
            forall|k: int| 0 <= k < kids@.len() ==> #[trigger] kids@[k] < tree.len(),
            forall|k: int| 0 <= k < j ==> tree.kind(#[trigger] kids@[k] as int) != "function_body"@,
    {
        if kind_is(tree, kids[j], "function_body") {
            return true;
        }
    }
    false
}

/// Haskell's grammar names function types `function` as well as function declarations.
pub fn is_function_type(tree: &SyntaxTree, i: usize) -> (r: bool)
    requires
        tree.wf_shape(),
        i < tree.len(),
    ensures
        r == function_type(tree, i as int),
{
    tree.child_by_field_name(i, "result").is_some()
}

/// Whether the node directly follows an `else` token.
pub fn follows_else(tree: &SyntaxTree, i: usize) -> (r: bool)
    requires
        tree.wf_shape(),
        i < tree.len(),
    ensures
        r == after_else(tree, i as int),
{
    proof {
        tree.lemma_links(i as int);
    }
    match tree.nodes[i].prev_sibling {
        Some(s) => !tree.nodes[s].is_named && kind_is(tree, s, "else"),
        None => false,
    }
}

/// Excludes `else` tokens that do not open a branch of their own: the fallback arm of a switch
/// and the second operand of a conditional expression such as Python's `a if c else b`.
pub fn is_else_branch(tree: &SyntaxTree, token: usize, profile: &Profile) -> (r: bool)
    requires
        tree.wf_shape(),
        token < tree.len(),
    ensures
        r == else_branch(tree, profile@, token as int),
{
    proof {
        tree.lemma_links(token as int);
    }
    let mut owner = tree.nodes[token].parent;
    // Ruby wraps the `else` keyword and its body in an `else` node.
    if let Some(parent) = owner {
        proof {
            tree.lemma_links(parent as int);
        }
        if kind_is(tree, parent, "else") {
            owner = tree.nodes[parent].parent;
        }
    }
    match owner {
        None => true,
        Some(o) => {
            let kind = tree.nodes[o].kind.as_str();
            !list_contains(&profile.cases, kind) && !list_contains(&profile.switches, kind)
                && !str_eq(kind, "conditional_expression")
        },
    }
}

/// The pattern of a case: its `pattern` field or else its first named child.
fn pattern_of(tree: &SyntaxTree, case: usize) -> (r: Option<usize>)
    requires
        tree.wf_shape(),
        case < tree.len(),
    ensures
        r == case_pattern(tree, case as int),
        r matches Some(p) ==> p < tree.len(),
{
    match tree.child_by_field_name(case, "pattern") {
        Some(p) => Some(p),
        None => tree.first_named_child(case),
    }
}

/// Whether the case carries a guard.
fn has_case_guard(tree: &SyntaxTree, case: usize, profile: &Profile) -> (r: bool)
    requires
        tree.wf_shape(),
        case < tree.len(),
    ensures
        r == case_guarded(tree, profile@, case as int),
{
    let pattern = pattern_of(tree, case);
    // Haskell's `guards` names its own condition `guard`; that condition is the pattern here.
    if let Some(guard) = tree.child_by_field_name(case, "guard") {
        let is_pattern = match pattern {
            Some(p) => p == guard,
            None => false,
        };
        if !is_pattern {
            return true;
        }
    }
    let kids = tree.children_of(case);
    for j in 0..kids.len()
        invariant
            tree.wf_shape(),
            kids@ == tree.children(case as int),
            forall|k: int| 0 <= k < kids@.len() ==> #[trigger] kids@[k] < tree.len(),
            forall|k: int|
                0 <= k < j ==> !(tree.nodes@[#[trigger] kids@[k] as int].is_named
                    && profile@.chained_branches.contains(tree.kind(kids@[k] as int))),
    {
        let c = kids[j];
        if tree.nodes[c].is_named && list_contains(&profile.chained_branches, tree.nodes[c].kind.as_str()) {
            return true;
        }
    }
    if has_condition_guard(tree, case) {
        return true;
    }
    for j in 0..kids.len()
        invariant
            tree.wf_shape(),
            kids@ == tree.children(case as int),
            forall|k: int| 0 <= k < kids@.len() ==> #[trigger] kids@[k] < tree.len(),
            forall|k: int| 0 <= k < j ==> !when_guard(tree, #[trigger] kids@[k] as int),
    {
        if is_when_guard(tree, kids[j]) {
            return true;
        }
    }
    // A Haskell alternative keeps its guards in its `match`.
    match tree.child_by_field_name(case, "match") {
        Some(m) => tree.child_by_field_name(m, "guards").is_some(),
        None => false,
    }
}

/// Whether a child token of the case is `default`, `else` or `_`.
fn has_default_keyword(tree: &SyntaxTree, case: usize) -> (r: bool)
    requires
        tree.wf_shape(),
        case < tree.len(),
    ensures
        r == any_in(
            tree.children(case as int),
            |c: usize|
                !tree.nodes@[c as int].is_named && (tree.kind(c as int) == "default"@ || tree.kind(
                    c as int,
                ) == "else"@ || tree.kind(c as int) == "_"@),
        ),
{
    let kids = tree.children_of(case);
    for j in 0..kids.len()
        invariant
            kids@ == tree.children(case as int),
            forall|k: int| 0 <= k < kids@.len() ==> #[trigger] kids@[k] < tree.len(),
            forall|k: int|
                0 <= k < j ==> !(!tree.nodes@[#[trigger] kids@[k] as int].is_named && (tree.kind(
                    kids@[k] as int,
                ) == "default"@ || tree.kind(kids@[k] as int) == "else"@ || tree.kind(kids@[k] as int)
                    == "_"@)),
    {
        let c = kids[j];
        if !tree.nodes[c].is_named && (kind_is(tree, c, "default") || kind_is(tree, c, "else")
            || kind_is(tree, c, "_")) {
            return true;
        }
    }
    false
}

/// A default case is marked by a `default` or `else` keyword, or has the wildcard `_` (or
/// Haskell's `otherwise` guard) as its entire pattern where the label is a pattern, and carries
/// no guard.
pub fn is_default_case(tree: &SyntaxTree, source: &str, case: usize, profile: &Profile) -> (r: bool)
    requires
        tree.wf(source),
        case < tree.len(),
    ensures
        r == default_case(tree, source, profile@, case as int),
{
    let keyword = has_default_keyword(tree, case);
    let catch_all = list_contains(&profile.wildcard_cases, tree.nodes[case].kind.as_str()) && match pattern_of(
        tree,
        case,
    ) {
        Some(p) => {
            let text = tree.node_text(source, p);
            str_eq(text, "_") || str_eq(text, "otherwise")
        },
        None => false,
    };
    (keyword || catch_all) && !has_case_guard(tree, case, profile)
}

// ---------------------------------------------------------------------------------------------
// Complexity
/// The nesting that a node puts its children in.
#[derive(Clone, Copy, Debug, PartialEq, Eq, Structural)]
pub struct Nesting {
    /// Nesting level for cognitive complexity, which nested functions also increase.
    pub cognitive: u32,
    /// Depth of control structures.
    pub control: u32,
    pub function: u32,
}

pub open spec fn no_nesting() -> Nesting {
    Nesting { cognitive: 0, control: 0, function: 0 }
}

/// What visiting one node adds to the counts, and the nesting of its children.
pub struct Effect {
    pub functions: int,
    pub cyclomatic: int,
    pub cognitive: int,
    pub inner: Nesting,
}

pub open spec fn deeper(n: Nesting, cognitive: bool, control: bool, function: bool) -> Nesting {
    Nesting {
        cognitive: if cognitive {
            (n.cognitive + 1) as u32
        } else {
            n.cognitive
        },
        control: if control {
            (n.control + 1) as u32
        } else {
            n.control
        },
        function: if function {
            (n.function + 1) as u32
        } else {
            n.function
        },
    }
}

/// Scores node `i` in the nesting `n`: one path per function and per decision (McCabe), and for
/// cognitive complexity (a simplified SonarSource model) one per control structure plus its
/// nesting level, one per `else` or chained branch, and one per sequence of like logical
/// operators.
#[verifier::opaque]
pub open spec fn visit_effect(
    t: &SyntaxTree,
    source: &str,
    pv: ProfileView,
    i: int,
    n: Nesting,
) -> Effect {
    let kind = t.kind(i);
    let named = t.nodes@[i].is_named;
    let none = Effect { functions: 0, cyclomatic: 0, cognitive: 0, inner: n };
    if operator_of(t, source, pv, i) is Some {
        let op = operator_of(t, source, pv, i)->0;
        Effect {
            cyclomatic: 1,
            cognitive: if continues_sequence(t, source, pv, i, op) {
                0
            } else {
                1
            },
            ..none
        }
    } else if !named {
        if kind == "else"@ && else_branch(t, pv, i) {
            Effect { cognitive: 1, ..none }
        } else if when_guard(t, i) {
            Effect { cyclomatic: 1, cognitive: 1, ..none }
        } else {
            none
        }
    } else if pv.functions.contains(kind) && !function_type(t, i) && !(
    pv.optional_body_functions.contains(kind) && !with_body(t, i)) {
        Effect { functions: 1, cyclomatic: 1, inner: deeper(n, n.function > 0, false, true), ..none }
    } else if pv.chained_branches.contains(kind) || (pv.branches.contains(kind) && guard_of_case(
        t,
        i,
    )) {
        Effect { cyclomatic: 1, cognitive: 1, ..none }
    } else if pv.branches.contains(kind) || comprehension_filter(t, i) || dart_handler_block(t, i) {
        // `else if` is scored by its `else` and continues the chain at the same level.
        if after_else(t, i) {
            Effect { cyclomatic: 1, ..none }
        } else {
            Effect {
                cyclomatic: 1,
                cognitive: 1 + n.cognitive,
                inner: deeper(n, true, true, false),
                ..none
            }
        }
    } else if pv.alternative_branches.contains(kind) {
        Effect {
            cyclomatic: if field_child(t, i, "alternative"@) is Some {
                1
            } else {
                0
            },
            ..none
        }
    } else if pv.switches.contains(kind) {
        Effect { cognitive: 1 + n.cognitive, inner: deeper(n, true, true, false), ..none }
    } else if pv.cases.contains(kind) {
        let scored = !default_case(t, source, pv, i);
        // Haskell's `guards` clause is itself a guard.
        let leading_guard = field_child(t, i, "guard"@) is Some && field_child(t, i, "guard"@)
            == t.first_named(t.children(i));
        let guard = condition_guard(t, i);
        Effect {
            cyclomatic: (if scored {
                1int
            } else {
                0int
            }) + (if guard {
                1int
            } else {
                0int
            }),
            cognitive: (if scored && leading_guard {
                1int
            } else {
                0int
            }) + (if guard {
                1int
            } else {
                0int
            }),
            ..none
        }
    } else {
        none
    }
}

/// The nesting that node `k` puts its children in.
pub open spec fn inner_nesting(t: &SyntaxTree, source: &str, pv: ProfileView, k: int) -> Nesting
    decreases k,
{
    visit_effect(t, source, pv, k, outer_nesting(t, source, pv, k)).inner
}

/// The nesting that node `k` is in: that of its parent, or none for the root.
pub open spec fn outer_nesting(t: &SyntaxTree, source: &str, pv: ProfileView, k: int) -> Nesting
    decreases k, 0int,
{
    let p = t.parent_ix(k);
    if 0 <= p < k {
        inner_nesting(t, source, pv, p)
    } else {
        no_nesting()
    }
}

/// The effect of visiting node `k` in its nesting.
pub open spec fn effect_at(t: &SyntaxTree, source: &str, pv: ProfileView, k: int) -> Effect {
    visit_effect(t, source, pv, k, outer_nesting(t, source, pv, k))
}

/// The counts over the nodes before `m`: functions, cyclomatic, cognitive, and the deepest
/// control nesting.
pub open spec fn totals(t: &SyntaxTree, source: &str, pv: ProfileView, m: int) -> (int, int, int, int)
    decreases m,
{
    if m <= 0 {
        (0, 0, 0, 0)
    } else {
        let prev = totals(t, source, pv, m - 1);
        let e = effect_at(t, source, pv, m - 1);
        (
            prev.0 + e.functions,
            prev.1 + e.cyclomatic,
            prev.2 + e.cognitive,
            if e.inner.control > prev.3 {
                e.inner.control as int
            } else {
                prev.3
            },
        )
    }
}

/// Counts cyclomatic complexity (McCabe: one per function and per decision) and cognitive
/// complexity (a simplified SonarSource model: one per control structure plus its nesting level,
/// one per `else` or chained branch, and one per sequence of like logical operators).
pub struct ComplexityCounter<'a> {
    pub source: &'a str,
    pub tree: &'a SyntaxTree,
    pub profile: &'a Profile,
    pub function_count: u32,
    pub cyclomatic: u32,
    pub cognitive: u64,
    pub max_nesting_depth: u32,
}

impl<'a> ComplexityCounter<'a> {
    pub open spec fn wf(&self) -> bool {
        self.tree.wf(self.source)
    }

    /// Returns the operator of a binary logical expression, excluding the same token used
    /// otherwise, such as C++'s rvalue reference `T&&` and Haskell's operator section `(&&)`.
    pub fn logical_operator(&self, i: usize) -> (r: Option<&'a str>)
        requires
            self.wf(),
            i < self.tree.len(),
        ensures
            opt_chars(r) == operator_of(self.tree, self.source, self.profile@, i as int),
    {
        let tree: &'a SyntaxTree = self.tree;
        let source: &'a str = self.source;
        let node = &tree.nodes[i];
        let text: &'a str = if !node.is_named {
            node.kind.as_str()
        } else {
            match self.profile.operator_node {
                Some(kind) => if str_eq(kind, node.kind.as_str()) {
                    tree.node_text(source, i)
                } else {
                    return None;
                },
                None => return None,
            }
        };
        if !list_contains(&self.profile.logical_operators, text) {
            return None;
        }
        proof {
            tree.lemma_links(i as int);
        }
        // An operand can be an anonymous keyword such as Zig's `unreachable`, so the parent's
        // `operator` field decides where the grammar provides one.
        let is_binary_operator = match node.parent {
            Some(p) => {
                let is_operator_field = match tree.child_by_field_name(p, "operator") {
                    Some(o) => o == i,
                    None => false,
                };
                is_operator_field && tree.child_by_field_name(p, "left").is_some()
                    && tree.child_by_field_name(p, "right").is_some()
            },
            None => false,
        };
        let prev_is_operand = match node.prev_sibling {
            Some(s) => tree.nodes[s].is_named,
            None => false,
        };
        let next_is_operand = match tree.next_sibling(i) {
            Some(s) => tree.nodes[s].is_named,
            None => false,
        };
        if is_binary_operator || (prev_is_operand && next_is_operand) {
            Some(text)
        } else {
            None
        }
    }

    /// Whether node `c` is the logical operator `op`.
    fn is_operator(&self, c: usize, op: &str) -> (r: bool)
        requires
            self.wf(),
            c < self.tree.len(),
        ensures
            r == is_operator(self.tree, self.source, self.profile@, op@)(c),
    {
        match self.logical_operator(c) {
            Some(o) => str_eq(o, op),
            None => false,
        }
    }

    /// Whether a child of `p` is the logical operator `op`.
    fn has_operator_child(&self, p: usize, op: &str) -> (r: bool)
        requires
            self.wf(),
            p < self.tree.len(),
        ensures
            r == any_in(self.tree.children(p as int), is_operator(self.tree, self.source, self.profile@, op@)),
    {
        let kids = self.tree.children_of(p);
        for j in 0..kids.len()
            invariant
                self.wf(),
                kids@ == self.tree.children(p as int),
                forall|k: int| 0 <= k < kids@.len() ==> #[trigger] kids@[k] < self.tree.len(),
                forall|k: int|
                    0 <= k < j ==> !is_operator(self.tree, self.source, self.profile@, op@)(
                        #[trigger] kids@[k],
                    ),
        {
            if self.is_operator(kids[j], op) {
                return true;
            }
        }
        false
    }

    /// Whether the operator continues a sequence of the same operator, as in `a && b && c`: an
    /// adjacent operand contains it (nested chains) or an earlier sibling is it (flat chains
    /// such as Dart's `??`).
    pub fn continues_logical_sequence(&self, i: usize, op: &str) -> (r: bool)
        requires
            self.wf(),
            i < self.tree.len(),
        ensures
            r == continues_sequence(self.tree, self.source, self.profile@, i as int, op@),
    {
        let tree = self.tree;
        proof {
            tree.lemma_links(i as int);
        }
        let prev = tree.nodes[i].prev_sibling;
        if let Some(o) = prev {
            if self.has_operator_child(o, op) {
                return true;
            }
        }
        if let Some(o) = tree.next_sibling(i) {
            if self.has_operator_child(o, op) {
                return true;
            }
        }
        let ghost pred = is_operator(self.tree, self.source, self.profile@, op@);
        let mut s = prev;
        while s.is_some()
            invariant
                self.wf(),
                pred == is_operator(self.tree, self.source, self.profile@, op@),
                i < self.tree.len(),
                prev == self.tree.nodes@[i as int].prev_sibling,
                any_before(self.tree, prev, pred) == any_before(self.tree, s, pred),
                s matches Some(x) ==> x < self.tree.len(),
            decreases (match s {
                Some(x) => x + 1,
                None => 0,
            }),
        {
            let x = s.unwrap();
            if self.is_operator(x, op) {
                return true;
            }
            proof {
                self.tree.lemma_links(x as int);
            }
            s = self.tree.nodes[x].prev_sibling;
        }
        false
    }
}

impl<'a> ComplexityCounter<'a> {
    /// Scores node `i` and returns the nesting its children are in.
    pub fn visit(&mut self, i: usize, nesting: Nesting) -> (inner: Nesting)
        requires
            old(self).wf(),
            i < old(self).tree.len(),
            old(self).function_count < u32::MAX,
            old(self).cyclomatic + 2 <= u32::MAX,
            old(self).cognitive + 2 + nesting.cognitive <= u64::MAX,
            nesting.cognitive < u32::MAX,
            nesting.control < u32::MAX,
            nesting.function < u32::MAX,
        ensures
            final(self).source == old(self).source,
            final(self).tree == old(self).tree,
            final(self).profile == old(self).profile,
            inner == visit_effect(old(self).tree, old(self).source, old(self).profile@, i as int, nesting).inner,
            final(self).function_count == old(self).function_count + visit_effect(
                old(self).tree,
                old(self).source,
                old(self).profile@,
                i as int,
                nesting,
            ).functions,
            final(self).cyclomatic == old(self).cyclomatic + visit_effect(
                old(self).tree,
                old(self).source,
                old(self).profile@,
                i as int,
                nesting,
            ).cyclomatic,
            final(self).cognitive == old(self).cognitive + visit_effect(
                old(self).tree,
                old(self).source,
                old(self).profile@,
                i as int,
                nesting,
            ).cognitive,
            final(self).max_nesting_depth == (if inner.control > old(self).max_nesting_depth {
                inner.control
            } else {
                old(self).max_nesting_depth
            }),
    {
        reveal(visit_effect);
        let tree: &'a SyntaxTree = self.tree;
        let source: &'a str = self.source;
        let profile: &'a Profile = self.profile;
        let kind = tree.nodes[i].kind.as_str();
        let mut inner = nesting;
        if let Some(operator) = self.logical_operator(i) {
            self.cyclomatic = self.cyclomatic + 1;
            if !self.continues_logical_sequence(i, operator) {
                self.cognitive = self.cognitive + 1;
            }
        } else if !tree.nodes[i].is_named {
            if str_eq(kind, "else") && is_else_branch(tree, i, profile) {
                self.cognitive = self.cognitive + 1;
            } else if is_when_guard(tree, i) {
                self.cyclomatic = self.cyclomatic + 1;
                self.cognitive = self.cognitive + 1;
            }
        } else if list_contains(&profile.functions, kind) && !is_function_type(tree, i) && !(
        list_contains(&profile.optional_body_functions, kind) && !has_body(tree, i)) {
            self.function_count = self.function_count + 1;
            self.cyclomatic = self.cyclomatic + 1;
            if nesting.function > 0 {
                inner.cognitive = inner.cognitive + 1;
            }
            inner.function = inner.function + 1;
        } else if list_contains(&profile.chained_branches, kind) || (list_contains(
            &profile.branches,
            kind,
        ) && is_guard(tree, i)) {
            self.cyclomatic = self.cyclomatic + 1;
            self.cognitive = self.cognitive + 1;
        } else if list_contains(&profile.branches, kind) || is_comprehension_filter(tree, i)
            || is_dart_handler_block(tree, i) {
            self.cyclomatic = self.cyclomatic + 1;
            // `else if` is scored by its `else` and continues the chain at the same level.
            if !follows_else(tree, i) {
                self.cognitive = self.cognitive + 1 + nesting.cognitive as u64;
                inner.cognitive = inner.cognitive + 1;
                inner.control = inner.control + 1;
            }
        } else if list_contains(&profile.alternative_branches, kind) {
            if tree.child_by_field_name(i, "alternative").is_some() {
                self.cyclomatic = self.cyclomatic + 1;
            }
        } else if list_contains(&profile.switches, kind) {
            self.cognitive = self.cognitive + 1 + nesting.cognitive as u64;
            inner.cognitive = inner.cognitive + 1;
            inner.control = inner.control + 1;
        } else if list_contains(&profile.cases, kind) {
            if !is_default_case(tree, source, i, profile) {
                self.cyclomatic = self.cyclomatic + 1;
                // Haskell's `guards` clause is itself a guard.
                let guard = tree.child_by_field_name(i, "guard");
                if let Some(g) = guard {
                    let leading = match tree.first_named_child(i) {
                        Some(first) => first == g,
                        None => false,
                    };
                    if leading {
                        self.cognitive = self.cognitive + 1;
                    }
                }
            }
            if has_condition_guard(tree, i) {
                self.cyclomatic = self.cyclomatic + 1;
                self.cognitive = self.cognitive + 1;
            }
        }
        if inner.control > self.max_nesting_depth {
            self.max_nesting_depth = inner.control;
        }
        inner
    }
}

// ---------------------------------------------------------------------------------------------
// Lines
/// How a line counts.
#[derive(Clone, Copy, Debug, PartialEq, Eq, Structural)]
pub enum LineKind {
    Blank,
    Comment,
    Code,
}

/// Line counts: each line is a blank, a comment or a code line.
#[derive(Clone, Copy, Debug, PartialEq, Eq, Structural)]
pub struct LineMetrics {
    pub total: u32,
    pub code: u32,
    pub comment: u32,
    pub blank: u32,
}

/// A comment: a named node whose kind is `haddock` or holds `comment`, or a JSP comment, which
/// the embedded-template grammar parses as a directive that starts with `<%--`.
pub open spec fn comment_node(t: &SyntaxTree, source: &str, i: int) -> bool {
    let kind = t.kind(i);
    &&& t.nodes@[i].is_named
    &&& if kind == "haddock"@ {
        true
    } else if kind == "directive"@ || kind == "output_directive"@ {
        occurs_at(source.spec_bytes(), "<%--".spec_bytes(), t.nodes@[i].start_byte as int)
    } else {
        has_sub(kind, "comment"@)
    }
}

/// The lines on which the bytes `[pos, end)` of `source` show non-blank text, `row` being the
/// line of `pos`: the pieces between line feeds, as `split('\n')` gives them, each on the line
/// after the previous one.
pub open spec fn touched_rows(source: &str, pos: int, end: int, row: int) -> Set<int>
    decreases end - pos,
{
    let b = source.spec_bytes();
    if 0 <= pos < end <= b.len() {
        proof {
            lemma_line_end_from_bounds(b, pos);
        }
        let j = if line_end_from(b, pos) < end {
            line_end_from(b, pos)
        } else {
            end
        };
        let here = if is_blank_chars(text_of(source, pos, j)) {
            Set::<int>::empty()
        } else {
            set![row]
        };
        if j < end {
            here.union(touched_rows(source, j + 1, end, row + 1))
        } else {
            here
        }
    } else {
        Set::empty()
    }
}

/// Node `i` shows non-blank text on line `r`.
pub open spec fn touches(t: &SyntaxTree, source: &str, i: int, r: int) -> bool {
    let node = t.nodes@[i];
    touched_rows(
        source,
        node.start_byte as int,
        node.end_byte as int,
        newlines_before(source.spec_bytes(), node.start_byte as int) as int,
    ).contains(r)
}

/// The walk that marks lines descends into a node that has children and is no comment.
pub open spec fn mark_descend(t: &SyntaxTree, source: &str) -> Seq<bool> {
    Seq::new(t.len() as nat, |i: int| !comment_node(t, source, i) && t.end(i) > i + 1)
}

/// The nodes that mark lines: those the walk reaches and does not descend into.
pub open spec fn mark_order(t: &SyntaxTree, source: &str) -> Seq<usize> {
    walk_order(t, 0, mark_descend(t, source))
}

/// Node `i` marks line `r`, as a comment line where `comment` holds and as a code line where not.
pub open spec fn marking(t: &SyntaxTree, source: &str, i: int, r: int, comment: bool) -> bool {
    &&& !mark_descend(t, source)[i]
    &&& comment_node(t, source, i) == comment
    &&& touches(t, source, i, r)
}

/// One of the first `q` nodes of `order` marks line `r`.
pub open spec fn marked_upto(
    t: &SyntaxTree,
    source: &str,
    order: Seq<usize>,
    q: int,
    r: int,
    comment: bool,
) -> bool {
    exists|k: int| 0 <= k < q && #[trigger] marking(t, source, order[k] as int, r, comment)
}

/// A line holding code is a code line, and one holding only comments a comment line.
pub open spec fn classify(code: bool, comment: bool) -> LineKind {
    if code {
        LineKind::Code
    } else if comment {
        LineKind::Comment
    } else {
        LineKind::Blank
    }
}

/// The order of line kinds: blank, then comment, then code.
pub open spec fn kind_rank(k: LineKind) -> int {
    match k {
        LineKind::Blank => 0,
        LineKind::Comment => 1,
        LineKind::Code => 2,
    }
}

/// The higher of two line kinds.
pub open spec fn kind_max(a: LineKind, b: LineKind) -> LineKind {
    if kind_rank(a) >= kind_rank(b) {
        a
    } else {
        b
    }
}

/// How the tokens and comments of the tree mark line `r`.
pub open spec fn marked_kind(t: &SyntaxTree, source: &str, r: int) -> LineKind {
    let order = mark_order(t, source);
    classify(
        marked_upto(t, source, order, order.len() as int, r, false),
        marked_upto(t, source, order, order.len() as int, r, true),
    )
}

/// The offset just past line `r`: its line feed, or the end of the text.
pub open spec fn line_end(source: &str, r: int) -> int {
    let b = source.spec_bytes();
    let ls = line_starts(b);
    if r + 1 < ls.len() {
        ls[r + 1] - 1
    } else {
        b.len() as int
    }
}

/// The characters of line `r`, without its line feed.
pub open spec fn line_text(source: &str, r: int) -> Seq<char> {
    text_of(source, line_starts(source.spec_bytes())[r] as int, line_end(source, r))
}

/// A line is blank when it holds only whitespace, a comment line when every token on it is part
/// of a comment, and a code line otherwise; without a tree every non-blank line is code.
pub open spec fn line_kind(source: &str, tree: Option<&SyntaxTree>, r: int) -> LineKind {
    if is_blank_chars(line_text(source, r)) {
        LineKind::Blank
    } else {
        match tree {
            Some(t) => if marked_kind(t, source, r) == LineKind::Comment {
                LineKind::Comment
            } else {
                LineKind::Code
            },
            None => LineKind::Code,
        }
    }
}

/// The number of the first `m` lines of kind `kind`.
pub open spec fn count_kind(source: &str, tree: Option<&SyntaxTree>, kind: LineKind, m: int) -> nat
    decreases m,
{
    if m <= 0 {
        0
    } else {
        count_kind(source, tree, kind, m - 1) + if line_kind(source, tree, m - 1) == kind {
            1nat
        } else {
            0nat
        }
    }
}

/// The line counts of `source`.
pub open spec fn line_metrics(source: &str, tree: Option<&SyntaxTree>) -> LineMetrics {
    let n = line_count(source.spec_bytes()) as int;
    LineMetrics {
        total: n as u32,
        code: count_kind(source, tree, LineKind::Code, n) as u32,
        comment: count_kind(source, tree, LineKind::Comment, n) as u32,
        blank: count_kind(source, tree, LineKind::Blank, n) as u32,
    }
}

/// Whether node `i` is a comment.
pub fn is_comment_node(tree: &SyntaxTree, source: &str, i: usize) -> (r: bool)
    requires
        tree.wf(source),
        i < tree.len(),
    ensures
        r == comment_node(tree, source, i as int),
{
    if !tree.nodes[i].is_named {
        return false;
    }
    let kind = tree.nodes[i].kind.as_str();
    if str_eq(kind, "haddock") {
        true
    } else if str_eq(kind, "directive") || str_eq(kind, "output_directive") {
        bytes_occur_at(source.as_bytes(), "<%--".as_bytes(), tree.nodes[i].start_byte)
    } else {
        str_contains(kind, "comment")
    }
}

/// The pieces of `[pos, end)` between line feeds lie on line `row` and after.
proof fn lemma_touched_rows_after(source: &str, pos: int, end: int, row: int)
    ensures
        forall|x: int| touched_rows(source, pos, end, row).contains(x) ==> x >= row,
    decreases end - pos,
{
    let b = source.spec_bytes();
    if 0 <= pos < end <= b.len() {
        lemma_line_end_from_bounds(b, pos);
        let j = if line_end_from(b, pos) < end {
            line_end_from(b, pos)
        } else {
            end
        };
        if j < end {
            lemma_touched_rows_after(source, j + 1, end, row + 1);
        }
        assert forall|x: int| touched_rows(source, pos, end, row).contains(x) implies x >= row by {
            if j < end && touched_rows(source, j + 1, end, row + 1).contains(x) {
            }
        }
    }
}

/// Marks the lines on which node `i` shows non-blank text as `kind`, except code lines.
fn mark_node(
    source: &str,
    tree: &SyntaxTree,
    lines: &LineIndex,
    i: usize,
    kind: LineKind,
    kinds: &mut Vec<LineKind>,
)
    requires
        tree.wf(source),
        lines.wf(),
        lines.source == source,
        i < tree.len(),
    ensures
        final(kinds)@.len() == old(kinds)@.len(),
        forall|r: int|
            0 <= r < old(kinds)@.len() ==> final(kinds)@[r] == (if touches(tree, source, i as int, r)
                && old(kinds)@[r] != LineKind::Code {
                kind
            } else {
                old(kinds)@[r]
            }),
{
    let ghost initial = kinds@;
    let bytes = source.as_bytes();
    let ghost b = source.spec_bytes();
    let start = tree.nodes[i].start_byte;
    let end = tree.nodes[i].end_byte;
    proof {
        assert(tree.wf_text(source));
        let node = tree.nodes@[i as int];
        assert(node.start_byte <= node.end_byte <= b.len());
        encode_utf8_valid_utf8(source@);
    }
    let row0 = lines.line_of(start);
    let ghost all = touched_rows(source, start as int, end as int, row0 as int);
    let ghost mut done: Set<int> = Set::empty();
    let mut pos = start;
    let mut row = row0;
    proof {
        assert(all == done.union(touched_rows(source, pos as int, end as int, row as int)));
    }
    while pos < end
        invariant
            bytes@ == b,
            b == source.spec_bytes(),
            valid_utf8(b),
            start <= pos <= end <= b.len(),
            is_boundary(source, pos as int),
            is_boundary(source, end as int),
            row0 <= start,
            row0 <= row,
            row - row0 <= pos - start,
            all == done.union(touched_rows(source, pos as int, end as int, row as int)),
            forall|x: int| done.contains(x) ==> x < row,
            kinds@.len() == initial.len(),
            forall|r: int|
                0 <= r < kinds@.len() ==> kinds@[r] == (if done.contains(r) && initial[r]
                    != LineKind::Code {
                    kind
                } else {
                    initial[r]
                }),
        decreases end - pos,
    {
        let mut j = pos;
        while j < end && bytes[j] != NEWLINE
            invariant
                bytes@ == b,
                pos <= j <= end <= b.len(),
                forall|k: int| pos <= k < j ==> #[trigger] b[k] != NEWLINE,
            decreases end - j,
        {
            j = j + 1;
        }
        proof {
            lemma_line_end_skip(b, pos as int, j as int);
            lemma_line_end_from_bounds(b, j as int);
            lemma_line_end_from_bounds(b, pos as int);
            if j < end {
                assert(b[j as int] == NEWLINE);
                lemma_ascii_is_boundary(b, j as int);
                lemma_after_ascii(b, j + 1);
            }
            lemma_touched_rows_after(source, j + 1, end as int, row + 1);
        }
        let text = substr(source, pos, j);
        let blank = is_blank(text);
        let ghost before = kinds@;
        let ghost done_before = done;
        if !blank && row < kinds.len() && kinds[row] != LineKind::Code {
            kinds.set(row, kind);
        }
        let ghost here: Set<int> = if blank {
            Set::empty()
        } else {
            set![row as int]
        };
        proof {
            assert(touched_rows(source, pos as int, end as int, row as int) == if j < end {
                here.union(touched_rows(source, j + 1, end as int, row + 1))
            } else {
                here
            });
            done = done.union(here);
            assert forall|r: int| 0 <= r < kinds@.len() implies kinds@[r] == (if done.contains(r)
                && initial[r] != LineKind::Code {
                kind
            } else {
                initial[r]
            }) by {
                if r != row {
                    assert(kinds@[r] == before[r]);
                    assert(done.contains(r) == done_before.contains(r));
                } else {
                    assert(!done_before.contains(r));
                }
            }
        }
        if j < end {
            pos = j + 1;
        } else {
            pos = end;
        }
        row = row + 1;
        proof {
            assert(all =~= done.union(touched_rows(source, pos as int, end as int, row as int)));
        }
    }
    proof {
        assert(all =~= done);
    }
}

proof fn lemma_marked_step(
    t: &SyntaxTree,
    source: &str,
    order: Seq<usize>,
    q: int,
    r: int,
    comment: bool,
)
    requires
        0 <= q < order.len(),
    ensures
        marked_upto(t, source, order, q + 1, r, comment) == (marked_upto(t, source, order, q, r, comment)
            || marking(t, source, order[q] as int, r, comment)),
{
    if marking(t, source, order[q] as int, r, comment) {
        assert(marked_upto(t, source, order, q + 1, r, comment));
    }
    if marked_upto(t, source, order, q, r, comment) {
        let k = choose|k: int| 0 <= k < q && #[trigger] marking(t, source, order[k] as int, r, comment);
        assert(marked_upto(t, source, order, q + 1, r, comment));
    }
}

/// Marks each line by the tokens and comments on it: a comment marks its lines as comment
/// lines, any other node without children its lines as code lines. A line keeps the higher of
/// its mark and the new one, so code stays code.
fn mark_lines(source: &str, tree: &SyntaxTree, lines: &LineIndex, kinds: &mut Vec<LineKind>)
    requires
        tree.wf(source),
        lines.wf(),
        lines.source == source,
    ensures
        final(kinds)@.len() == old(kinds)@.len(),
        forall|r: int|
            0 <= r < old(kinds)@.len() ==> final(kinds)@[r] == kind_max(
                old(kinds)@[r],
                marked_kind(tree, source, r),
            ),
{
    let ghost initial = kinds@;
    let n = tree.nodes.len();
    let mut comments: Vec<bool> = Vec::new();
    let mut descend: Vec<bool> = Vec::new();
    for i in 0..n
        invariant
            n == tree.len(),
            tree.wf(source),
            comments@.len() == i,
            descend@.len() == i,
            forall|k: int| 0 <= k < i ==> #[trigger] comments@[k] == comment_node(tree, source, k),
            forall|k: int| 0 <= k < i ==> #[trigger] descend@[k] == mark_descend(tree, source)[k],
    {
        let comment = is_comment_node(tree, source, i);
        comments.push(comment);
        descend.push(!comment && tree.nodes[i].subtree_end > i + 1);
    }
    proof {
        assert(descend@ =~= mark_descend(tree, source));
    }
    let order = walk(tree, 0, &descend);
    proof {
        crate::tree::lemma_visited_before(tree, 0, descend@, tree.end(0));
    }
    for q in 0..order.len()
        invariant
            tree.wf(source),
            lines.wf(),
            lines.source == source,
            n == tree.len(),
            comments@.len() == n,
            descend@ == mark_descend(tree, source),
            forall|k: int| 0 <= k < n ==> #[trigger] comments@[k] == comment_node(tree, source, k),
            order@ == mark_order(tree, source),
            forall|k: int| 0 <= k < order@.len() ==> #[trigger] order@[k] < n,
            kinds@.len() == initial.len(),
            forall|r: int|
                0 <= r < kinds@.len() ==> kinds@[r] == kind_max(
                    initial[r],
                    classify(
                        marked_upto(tree, source, order@, q as int, r, false),
                        marked_upto(tree, source, order@, q as int, r, true),
                    ),
                ),
    {
        let i = order[q];
        let ghost before = kinds@;
        if !descend[i] {
            let kind = if comments[i] {
                LineKind::Comment
            } else {
                LineKind::Code
            };
            mark_node(source, tree, lines, i, kind, kinds);
        }
        proof {
            assert forall|r: int| 0 <= r < kinds@.len() implies kinds@[r] == kind_max(
                initial[r],
                classify(
                    marked_upto(tree, source, order@, q + 1, r, false),
                    marked_upto(tree, source, order@, q + 1, r, true),
                ),
            ) by {
                lemma_marked_step(tree, source, order@, q as int, r, false);
                lemma_marked_step(tree, source, order@, q as int, r, true);
                assert(before[r] == kind_max(
                    initial[r],
                    classify(
                        marked_upto(tree, source, order@, q as int, r, false),
                        marked_upto(tree, source, order@, q as int, r, true),
                    ),
                ));
            }
        }
    }
    proof {
        assert forall|r: int| 0 <= r < initial.len() implies kinds@[r] == kind_max(
            initial[r],
            marked_kind(tree, source, r),
        ) by {
            assert(kinds@[r] == kind_max(
                initial[r],
                classify(
                    marked_upto(tree, source, order@, order@.len() as int, r, false),
                    marked_upto(tree, source, order@, order@.len() as int, r, true),
                ),
            ));
        }
    }
}

/// A line is blank when it holds only whitespace, a comment line when every token on it is part
/// of a comment, and a code line otherwise.
pub fn measure_lines(source: &str, tree: Option<&SyntaxTree>) -> (m: LineMetrics)
    requires
        source.spec_bytes().len() <= u32::MAX,
        tree matches Some(t) ==> t.wf(source),
    ensures
        m == line_metrics(source, tree),
{
    let lines = LineIndex::new(source);
    let bytes = source.as_bytes();
    let ghost b = source.spec_bytes();
    let n_bytes = bytes.len();
    let n_starts = lines.line_starts.len();
    proof {
        lemma_line_starts_shape(b, b.len() as int);
        encode_utf8_valid_utf8(source@);
        if n_bytes > 0 {
            lemma_newlines_le(b, n_bytes - 1);
        }
    }
    // `str::lines` ends the last line at a final line feed instead of starting an empty one.
    let total: usize = if n_bytes == 0 {
        0
    } else if bytes[n_bytes - 1] == NEWLINE {
        n_starts - 1
    } else {
        n_starts
    };
    assert(total == line_count(b));
    let mut kinds: Vec<LineKind> = Vec::new();
    for r in 0..total
        invariant
            kinds@.len() == r,
            forall|k: int| 0 <= k < r ==> #[trigger] kinds@[k] == LineKind::Blank,
    {
        kinds.push(LineKind::Blank);
    }
    if let Some(t) = tree {
        mark_lines(source, t, &lines, &mut kinds);
    }
    let mut code: u32 = 0;
    let mut comment: u32 = 0;
    let mut blank: u32 = 0;
    for r in 0..total
        invariant
            lines.wf(),
            lines.source == source,
            b == source.spec_bytes(),
            valid_utf8(b),
            n_bytes == b.len(),
            n_starts == lines.line_starts@.len(),
            n_starts == line_starts(b).len(),
            total <= n_starts,
            total == line_count(b),
            total <= u32::MAX,
            kinds@.len() == total,
            tree matches Some(t) ==> forall|k: int|
                0 <= k < total ==> #[trigger] kinds@[k] == marked_kind(t, source, k),
            code == count_kind(source, tree, LineKind::Code, r as int),
            comment == count_kind(source, tree, LineKind::Comment, r as int),
            blank == count_kind(source, tree, LineKind::Blank, r as int),
            code + comment + blank == r,
            forall|k: int| 0 <= k < n_starts ==> #[trigger] line_starts(b)[k] <= n_bytes,
            forall|j: int, k: int| 0 <= j < k < n_starts ==> line_starts(b)[j] < line_starts(b)[k],
            forall|k: int| 0 < k < n_starts ==> b[line_starts(b)[k] - 1] == NEWLINE,
            line_starts(b)[0] == 0,
    {
        let start = lines.line_starts[r];
        let end = if r + 1 < n_starts {
            lines.line_starts[r + 1] - 1
        } else {
            n_bytes
        };
        proof {
            if r > 0 {
                lemma_after_ascii(b, start as int);
            } else {
                is_char_boundary_start_end_of_seq(b);
            }
            if r + 1 < n_starts {
                assert(line_starts(b)[r as int] < line_starts(b)[r + 1]);
                lemma_ascii_is_boundary(b, end as int);
            } else {
                lemma_ascii_is_boundary(b, n_bytes as int);
            }
        }
        let text = substr(source, start, end);
        if is_blank(text) {
            blank = blank + 1;
        } else {
            let is_comment = match tree {
                Some(_) => kinds[r] == LineKind::Comment,
                None => false,
            };
            if is_comment {
                comment = comment + 1;
            } else {
                code = code + 1;
            }
        }
    }
    LineMetrics { total: total as u32, code, comment, blank }
}

// ---------------------------------------------------------------------------------------------
// Metrics
/// The metrics of a source text. The complexity metrics are present where the text was parsed
/// and its language has functions or control flow.
#[derive(Clone, Copy, Debug)]
pub struct Metrics {
    pub lines: LineMetrics,
    pub function_count: Option<u32>,
    pub cyclomatic_complexity: Option<u32>,
    /// Grows quadratically with nesting, so deeply nested input would overflow `u32`.
    pub cognitive_complexity: Option<u64>,
    pub max_nesting_depth: Option<u32>,
}

/// Visiting a node adds at most one function, two paths, and two plus the nesting level to the
/// cognitive complexity, and nests its children at most one level deeper.
pub proof fn lemma_effect_bounds(t: &SyntaxTree, source: &str, pv: ProfileView, i: int, n: Nesting)
    requires
        n.cognitive < u32::MAX,
        n.control < u32::MAX,
        n.function < u32::MAX,
    ensures
        0 <= visit_effect(t, source, pv, i, n).functions <= 1,
        visit_effect(t, source, pv, i, n).functions <= visit_effect(t, source, pv, i, n).cyclomatic,
        0 <= visit_effect(t, source, pv, i, n).cyclomatic <= 2,
        0 <= visit_effect(t, source, pv, i, n).cognitive <= 2 + n.cognitive,
        n.cognitive <= visit_effect(t, source, pv, i, n).inner.cognitive <= n.cognitive + 1,
        n.control <= visit_effect(t, source, pv, i, n).inner.control <= n.control + 1,
        n.function <= visit_effect(t, source, pv, i, n).inner.function <= n.function + 1,
{
    reveal(visit_effect);
}

/// The most nodes whose complexity is counted: each node adds at most two paths to the
/// cyclomatic complexity, which must fit its `u32` beside the path of the file itself.
pub const MEASURABLE_NODES: usize = 0x7FFF_FFFF;

/// `m` holds the line counts of `source` and, where it was parsed and its language has the
/// profile `pv`, the functions and the complexities of the code.
pub open spec fn measured(m: Metrics, source: &str, tree: Option<&SyntaxTree>, pv: Option<ProfileView>) -> bool {
    &&& m.lines == line_metrics(source, tree)
    &&& match (tree, pv) {
        (Some(t), Some(p)) => {
            let counts = totals(t, source, p, t.len());
            &&& m.function_count matches Some(f) && f == counts.0
            // The file itself is one path even without any function.
            &&& m.cyclomatic_complexity matches Some(c) && c == 1 + counts.1
            &&& m.cognitive_complexity matches Some(c) && c == counts.2
            &&& m.max_nesting_depth matches Some(d) && d == counts.3
        },
        _ => {
            &&& m.function_count is None
            &&& m.cyclomatic_complexity is None
            &&& m.cognitive_complexity is None
            &&& m.max_nesting_depth is None
        },
    }
}

/// Counts the lines of `source` and, where it was parsed and its language has a profile, the
/// functions and the complexities of the code.
pub fn measure(source: &str, tree: Option<&SyntaxTree>, profile: Option<&Profile>) -> (m: Metrics)
    requires
        source.spec_bytes().len() <= u32::MAX,
        tree matches Some(t) ==> t.wf(source),
        tree matches Some(t) ==> (profile is Some ==> t.len() <= MEASURABLE_NODES),
    ensures
        measured(m, source, tree, profile_views(profile)),
{
    let lines = measure_lines(source, tree);
    let (t, p) = match (tree, profile) {
        (Some(t), Some(p)) => (t, p),
        _ => {
            return Metrics {
                lines,
                function_count: None,
                cyclomatic_complexity: None,
                cognitive_complexity: None,
                max_nesting_depth: None,
            };
        },
    };
    let ghost pv = p@;
    let mut counter = ComplexityCounter {
        source,
        tree: t,
        profile: p,
        function_count: 0,
        cyclomatic: 1,
        cognitive: 0,
        max_nesting_depth: 0,
    };
    // `inners[k]` holds the nesting that node `k` gives its children.
    let mut inners: Vec<Nesting> = Vec::new();
    let n = t.nodes.len();
    for k in 0..n
        invariant
            t.wf(source),
            n == t.len(),
            n <= MEASURABLE_NODES,
            pv == p@,
            counter.source == source,
            counter.tree == t,
            counter.profile == p,
            inners@.len() == k,
            forall|j: int| 0 <= j < k ==> #[trigger] inners@[j] == inner_nesting(t, source, pv, j),
            forall|j: int|
                0 <= j < k ==> #[trigger] inners@[j].cognitive <= j + 1 && inners@[j].control <= j
                    + 1 && inners@[j].function <= j + 1,
            counter.function_count == totals(t, source, pv, k as int).0,
            counter.cyclomatic == 1 + totals(t, source, pv, k as int).1,
            counter.cognitive == totals(t, source, pv, k as int).2,
            counter.max_nesting_depth == totals(t, source, pv, k as int).3,
            totals(t, source, pv, k as int).0 <= k,
            totals(t, source, pv, k as int).1 <= 2 * k,
            totals(t, source, pv, k as int).2 <= k * 0x8000_0001,
            0 <= totals(t, source, pv, k as int).3 <= k,
    {
        proof {
            t.lemma_links(k as int);
        }
        let outer = match t.nodes[k].parent {
            Some(parent) => inners[parent],
            None => Nesting { cognitive: 0, control: 0, function: 0 },
        };
        proof {
            assert(outer == outer_nesting(t, source, pv, k as int));
            lemma_effect_bounds(t, source, pv, k as int, outer);
        }
        let inner = counter.visit(k, outer);
        inners.push(inner);
    }
    Metrics {
        lines,
        function_count: Some(counter.function_count),
        cyclomatic_complexity: Some(counter.cyclomatic),
        cognitive_complexity: Some(counter.cognitive),
        max_nesting_depth: Some(counter.max_nesting_depth),
    }
}

} // verus!
