//! The calls into tree-sitter and its grammars.
//!
//! What tree-sitter computes is named here, not restated: the tree that a grammar parses from a
//! text is a function of the two, and each fact the library reads of node `k` in preorder is a
//! name applied to the grammar, the text and `k`. The library reads each node once, through
//! these functions, into a [`crate::syntax::SyntaxTree`], and checks there what its logic relies
//! on.
use vstd::prelude::*;

verus! {

#[verifier::external_type_specification]
#[verifier::external_body]
pub struct ExParser(tree_sitter::Parser);

#[verifier::external_type_specification]
#[verifier::external_body]
pub struct ExTree(tree_sitter::Tree);

#[verifier::external_type_specification]
#[verifier::external_body]
pub struct ExNode<'tree>(tree_sitter::Node<'tree>);

#[verifier::external_type_specification]
#[verifier::external_body]
pub struct ExTreeCursor<'tree>(tree_sitter::TreeCursor<'tree>);

#[verifier::external_type_specification]
#[verifier::external_body]
pub struct ExLanguage(tree_sitter::Language);

#[verifier::external_type_specification]
#[verifier::external_body]
pub struct ExLanguageError(tree_sitter::LanguageError);

/// The grammars that the library parses with.
#[derive(Clone, Copy, Debug, PartialEq, Eq, Structural)]
pub enum GrammarId {
    C,
    Cpp,
    CSharp,
    Css,
    Dart,
    Haskell,
    Html,
    Java,
    JavaScript,
    EmbeddedTemplate,
    Kotlin,
    Php,
    Python,
    Ruby,
    Rust,
    Tsx,
    TypeScript,
    Zig,
}

/// A grammar of a tree-sitter grammar crate, tagged with which one it is. Only the functions of
/// this module make one.
pub struct Grammar {
    language: tree_sitter::Language,
    tag: Ghost<GrammarId>,
}

impl Grammar {
    /// Which grammar it is.
    pub closed spec fn id(&self) -> GrammarId {
        self.tag@
    }

    /// The tree-sitter language of the grammar.
    pub fn language(&self) -> &tree_sitter::Language {
        &self.language
    }
}

/// A tree-sitter parser, with the grammar it was given, if any.
pub struct SourceParser {
    parser: tree_sitter::Parser,
    grammar: Ghost<Option<GrammarId>>,
}

impl SourceParser {
    /// The grammar the parser was given, if any.
    pub closed spec fn grammar(&self) -> Option<GrammarId> {
        self.grammar@
    }
}

/// The tree that tree-sitter parses from `text` with the grammar `grammar`.
pub struct SourceTree {
    tree: tree_sitter::Tree,
    grammar: Ghost<GrammarId>,
    text: Ghost<Seq<char>>,
}

impl SourceTree {
    pub closed spec fn grammar(&self) -> GrammarId {
        self.grammar@
    }

    pub closed spec fn text(&self) -> Seq<char> {
        self.text@
    }
}

/// Node `at`, in preorder, of the tree parsed from `text` with `grammar`; the root is node 0.
pub struct SourceNode<'t> {
    node: tree_sitter::Node<'t>,
    grammar: Ghost<GrammarId>,
    text: Ghost<Seq<char>>,
    at: Ghost<nat>,
}

impl<'t> SourceNode<'t> {
    pub closed spec fn grammar(&self) -> GrammarId {
        self.grammar@
    }

    pub closed spec fn text(&self) -> Seq<char> {
        self.text@
    }

    pub closed spec fn at(&self) -> nat {
        self.at@
    }
}

/// A cursor over the tree parsed from `text` with `grammar`, made at its root and standing on
/// node `at` in preorder.
pub struct NodeCursor<'t> {
    cursor: tree_sitter::TreeCursor<'t>,
    grammar: Ghost<GrammarId>,
    text: Ghost<Seq<char>>,
    at: Ghost<nat>,
}

impl<'t> NodeCursor<'t> {
    pub closed spec fn grammar(&self) -> GrammarId {
        self.grammar@
    }

    pub closed spec fn text(&self) -> Seq<char> {
        self.text@
    }

    pub closed spec fn at(&self) -> nat {
        self.at@
    }
}

/// `Node::descendant_count` of node `k` of the tree that tree-sitter parses from `text` with
/// `grammar`: the nodes of its subtree, itself included.
pub uninterp spec fn descendants_at(grammar: GrammarId, text: Seq<char>, k: nat) -> usize;

/// `Node::kind` of node `k` in preorder of the tree that tree-sitter parses from `text` with
/// `grammar`.
pub uninterp spec fn kind_at(grammar: GrammarId, text: Seq<char>, k: nat) -> Seq<char>;

/// `TreeCursor::field_name` on node `k` in preorder of the tree that tree-sitter parses from
/// `text` with `grammar`.
pub uninterp spec fn field_at(grammar: GrammarId, text: Seq<char>, k: nat) -> Option<Seq<char>>;

/// `Node::is_named` of node `k` (as for [`kind_at`]).
pub uninterp spec fn named_at(grammar: GrammarId, text: Seq<char>, k: nat) -> bool;

/// `Node::is_extra` of node `k` (as for [`kind_at`]).
pub uninterp spec fn extra_at(grammar: GrammarId, text: Seq<char>, k: nat) -> bool;

/// `Node::is_error` of node `k` (as for [`kind_at`]).
pub uninterp spec fn error_at(grammar: GrammarId, text: Seq<char>, k: nat) -> bool;

/// `Node::is_missing` of node `k` (as for [`kind_at`]).
pub uninterp spec fn missing_at(grammar: GrammarId, text: Seq<char>, k: nat) -> bool;

/// `Node::has_error` of node `k` (as for [`kind_at`]).
pub uninterp spec fn has_error_at(grammar: GrammarId, text: Seq<char>, k: nat) -> bool;

/// `Node::start_byte` of node `k` (as for [`kind_at`]).
pub uninterp spec fn start_at(grammar: GrammarId, text: Seq<char>, k: nat) -> usize;

/// `Node::end_byte` of node `k` (as for [`kind_at`]).
pub uninterp spec fn end_at(grammar: GrammarId, text: Seq<char>, k: nat) -> usize;

/// `TreeCursor::depth` of a cursor made at the root and standing on node `k` (as for
/// [`kind_at`]): the number of ancestors of node `k`.
pub uninterp spec fn depth_at(grammar: GrammarId, text: Seq<char>, k: nat) -> u32;

/// `Node::to_sexp` of node `k` (as for [`kind_at`]).
pub uninterp spec fn sexp_at(grammar: GrammarId, text: Seq<char>, k: nat) -> Seq<char>;

/// `Parser::new`: a parser without a grammar.
#[verifier::external_body]
pub(crate) fn new_parser() -> (p: SourceParser)
    ensures
        p.grammar() is None,
{
    SourceParser { parser: tree_sitter::Parser::new(), grammar: Ghost(None) }
}

/// `Parser::set_language`. It fails only for a grammar of an ABI version outside 13 to 15 or one
/// without a lexer; the grammars of this module are generated for ABI 14 or 15 with a lexer, so
/// it succeeds, and the parser then parses with the grammar.
#[verifier::external_body]
pub(crate) fn set_parser_language(parser: &mut SourceParser, grammar: &Grammar) -> (r: Result<
    (),
    tree_sitter::LanguageError,
>)
    ensures
        r is Ok,
        final(parser).grammar() == Some(grammar.id()),
{
    parser.parser.set_language(&grammar.language)
}

/// `Parser::parse` of the whole text with no earlier tree. It returns no tree only for a parser
/// without a grammar.
#[verifier::external_body]
pub(crate) fn parse_text(parser: &mut SourceParser, source: &str) -> (r: Option<SourceTree>)
    requires
        old(parser).grammar() is Some,
    ensures
        final(parser).grammar() == old(parser).grammar(),
        r is Some,
        r->0.grammar() == old(parser).grammar()->0,
        r->0.text() == source@,
{
    match parser.parser.parse(source, None) {
        Some(tree) => Some(
            SourceTree { tree, grammar: Ghost(parser.grammar()->0), text: Ghost(source@) },
        ),
        None => None,
    }
}

/// `Tree::root_node`: node 0.
#[verifier::external_body]
pub(crate) fn root_node(tree: &SourceTree) -> (n: SourceNode<'_>)
    ensures
        n.grammar() == tree.grammar(),
        n.text() == tree.text(),
        n.at() == 0,
{
    SourceNode { node: tree.tree.root_node(), grammar: Ghost(tree.grammar()), text: Ghost(tree.text()), at: Ghost(0) }
}

/// `Node::walk` on the root: a cursor standing on the root.
#[verifier::external_body]
pub(crate) fn node_cursor<'t>(node: &SourceNode<'t>) -> (c: NodeCursor<'t>)
    requires
        node.at() == 0,
    ensures
        c.grammar() == node.grammar(),
        c.text() == node.text(),
        c.at() == 0,
{
    NodeCursor { cursor: node.node.walk(), grammar: Ghost(node.grammar()), text: Ghost(node.text()), at: Ghost(0) }
}

/// `TreeCursor::goto_descendant`: the cursor moves to node `k` in preorder.
#[verifier::external_body]
pub(crate) fn goto_descendant(cursor: &mut NodeCursor, k: usize)
    requires
        k < descendants_at(old(cursor).grammar(), old(cursor).text(), 0),
    ensures
        final(cursor).grammar() == old(cursor).grammar(),
        final(cursor).text() == old(cursor).text(),
        final(cursor).at() == k,
{
    cursor.cursor.goto_descendant(k)
}

/// `TreeCursor::node`: the node under the cursor.
#[verifier::external_body]
pub(crate) fn cursor_node<'t>(cursor: &NodeCursor<'t>) -> (n: SourceNode<'t>)
    ensures
        n.grammar() == cursor.grammar(),
        n.text() == cursor.text(),
        n.at() == cursor.at(),
{
    SourceNode { node: cursor.cursor.node(), grammar: Ghost(cursor.grammar()), text: Ghost(cursor.text()), at: Ghost(cursor.at()) }
}

/// `TreeCursor::field_name`: the field under which the node under the cursor is a child.
#[verifier::external_body]
pub(crate) fn cursor_field_name(cursor: &NodeCursor) -> (r: Option<String>)
    ensures
        match r {
            Some(s) => field_at(cursor.grammar(), cursor.text(), cursor.at()) == Some(s@),
            None => field_at(cursor.grammar(), cursor.text(), cursor.at()) is None,
        },
{
    cursor.cursor.field_name().map(str::to_owned)
}

/// `TreeCursor::depth`.
#[verifier::external_body]
pub(crate) fn cursor_depth(cursor: &NodeCursor) -> (r: u32)
    ensures
        r == depth_at(cursor.grammar(), cursor.text(), cursor.at()),
{
    cursor.cursor.depth()
}

/// `Node::descendant_count`, which widens the `u32` count of tree-sitter's C library.
#[verifier::external_body]
pub(crate) fn node_descendant_count(node: &SourceNode) -> (r: usize)
    ensures
        r == descendants_at(node.grammar(), node.text(), node.at()),
        r <= u32::MAX,
{
    node.node.descendant_count()
}

/// `Node::kind`.
#[verifier::external_body]
pub(crate) fn node_kind(node: &SourceNode) -> (r: String)
    ensures
        r@ == kind_at(node.grammar(), node.text(), node.at()),
{
    node.node.kind().to_owned()
}

/// `Node::is_named`.
#[verifier::external_body]
pub(crate) fn node_is_named(node: &SourceNode) -> (r: bool)
    ensures
        r == named_at(node.grammar(), node.text(), node.at()),
{
    node.node.is_named()
}

/// `Node::is_extra`.
#[verifier::external_body]
pub(crate) fn node_is_extra(node: &SourceNode) -> (r: bool)
    ensures
        r == extra_at(node.grammar(), node.text(), node.at()),
{
    node.node.is_extra()
}

/// `Node::is_error`.
#[verifier::external_body]
pub(crate) fn node_is_error(node: &SourceNode) -> (r: bool)
    ensures
        r == error_at(node.grammar(), node.text(), node.at()),
{
    node.node.is_error()
}

/// `Node::is_missing`.
#[verifier::external_body]
pub(crate) fn node_is_missing(node: &SourceNode) -> (r: bool)
    ensures
        r == missing_at(node.grammar(), node.text(), node.at()),
{
    node.node.is_missing()
}

/// `Node::has_error`.
#[verifier::external_body]
pub(crate) fn node_has_error(node: &SourceNode) -> (r: bool)
    ensures
        r == has_error_at(node.grammar(), node.text(), node.at()),
{
    node.node.has_error()
}

/// `Node::start_byte`.
#[verifier::external_body]
pub(crate) fn node_start_byte(node: &SourceNode) -> (r: usize)
    ensures
        r == start_at(node.grammar(), node.text(), node.at()),
{
    node.node.start_byte()
}

/// `Node::end_byte`.
#[verifier::external_body]
pub(crate) fn node_end_byte(node: &SourceNode) -> (r: usize)
    ensures
        r == end_at(node.grammar(), node.text(), node.at()),
{
    node.node.end_byte()
}

/// `Node::to_sexp`: the tree under the node as an S-expression.
#[verifier::external_body]
pub(crate) fn node_to_sexp(node: &SourceNode) -> (r: String)
    ensures
        r@ == sexp_at(node.grammar(), node.text(), node.at()),
{
    node.node.to_sexp()
}

/// The C grammar of `tree_sitter_c`.
#[verifier::external_body]
pub(crate) fn c_grammar() -> (g: Grammar)
    ensures
        g.id() == GrammarId::C,
{
    Grammar { language: tree_sitter_c::LANGUAGE.into(), tag: Ghost(GrammarId::C) }
}

/// The C++ grammar of `tree_sitter_cpp`.
#[verifier::external_body]
pub(crate) fn cpp_grammar() -> (g: Grammar)
    ensures
        g.id() == GrammarId::Cpp,
{
    Grammar { language: tree_sitter_cpp::LANGUAGE.into(), tag: Ghost(GrammarId::Cpp) }
}

/// The C# grammar of `tree_sitter_c_sharp`.
#[verifier::external_body]
pub(crate) fn csharp_grammar() -> (g: Grammar)
    ensures
        g.id() == GrammarId::CSharp,
{
    Grammar { language: tree_sitter_c_sharp::LANGUAGE.into(), tag: Ghost(GrammarId::CSharp) }
}

/// The CSS grammar of `tree_sitter_css`.
#[verifier::external_body]
pub(crate) fn css_grammar() -> (g: Grammar)
    ensures
        g.id() == GrammarId::Css,
{
    Grammar { language: tree_sitter_css::LANGUAGE.into(), tag: Ghost(GrammarId::Css) }
}

/// The Dart grammar of `tree_sitter_dart`.
#[verifier::external_body]
pub(crate) fn dart_grammar() -> (g: Grammar)
    ensures
        g.id() == GrammarId::Dart,
{
    Grammar { language: tree_sitter_dart::LANGUAGE.into(), tag: Ghost(GrammarId::Dart) }
}

/// The Haskell grammar of `tree_sitter_haskell`.
#[verifier::external_body]
pub(crate) fn haskell_grammar() -> (g: Grammar)
    ensures
        g.id() == GrammarId::Haskell,
{
    Grammar { language: tree_sitter_haskell::LANGUAGE.into(), tag: Ghost(GrammarId::Haskell) }
}

/// The HTML grammar of `tree_sitter_html`.
#[verifier::external_body]
pub(crate) fn html_grammar() -> (g: Grammar)
    ensures
        g.id() == GrammarId::Html,
{
    Grammar { language: tree_sitter_html::LANGUAGE.into(), tag: Ghost(GrammarId::Html) }
}

/// The Java grammar of `tree_sitter_java`.
#[verifier::external_body]
pub(crate) fn java_grammar() -> (g: Grammar)
    ensures
        g.id() == GrammarId::Java,
{
    Grammar { language: tree_sitter_java::LANGUAGE.into(), tag: Ghost(GrammarId::Java) }
}

/// The JavaScript grammar of `tree_sitter_javascript`.
#[verifier::external_body]
pub(crate) fn javascript_grammar() -> (g: Grammar)
    ensures
        g.id() == GrammarId::JavaScript,
{
    Grammar { language: tree_sitter_javascript::LANGUAGE.into(), tag: Ghost(GrammarId::JavaScript) }
}

/// The embedded-template grammar of `tree_sitter_embedded_template`.
#[verifier::external_body]
pub(crate) fn embedded_template_grammar() -> (g: Grammar)
    ensures
        g.id() == GrammarId::EmbeddedTemplate,
{
    Grammar { language: tree_sitter_embedded_template::LANGUAGE.into(), tag: Ghost(GrammarId::EmbeddedTemplate) }
}

/// The Kotlin grammar of `tree_sitter_kotlin_ng`.
#[verifier::external_body]
pub(crate) fn kotlin_grammar() -> (g: Grammar)
    ensures
        g.id() == GrammarId::Kotlin,
{
    Grammar { language: tree_sitter_kotlin_ng::LANGUAGE.into(), tag: Ghost(GrammarId::Kotlin) }
}

/// The PHP grammar (with its HTML text) of `tree_sitter_php`.
#[verifier::external_body]
pub(crate) fn php_grammar() -> (g: Grammar)
    ensures
        g.id() == GrammarId::Php,
{
    Grammar { language: tree_sitter_php::LANGUAGE_PHP.into(), tag: Ghost(GrammarId::Php) }
}

/// The Python grammar of `tree_sitter_python`.
#[verifier::external_body]
pub(crate) fn python_grammar() -> (g: Grammar)
    ensures
        g.id() == GrammarId::Python,
{
    Grammar { language: tree_sitter_python::LANGUAGE.into(), tag: Ghost(GrammarId::Python) }
}

/// The Ruby grammar of `tree_sitter_ruby`.
#[verifier::external_body]
pub(crate) fn ruby_grammar() -> (g: Grammar)
    ensures
        g.id() == GrammarId::Ruby,
{
    Grammar { language: tree_sitter_ruby::LANGUAGE.into(), tag: Ghost(GrammarId::Ruby) }
}

/// The Rust grammar of `tree_sitter_rust`.
#[verifier::external_body]
pub(crate) fn rust_grammar() -> (g: Grammar)
    ensures
        g.id() == GrammarId::Rust,
{
    Grammar { language: tree_sitter_rust::LANGUAGE.into(), tag: Ghost(GrammarId::Rust) }
}

/// The TSX grammar of `tree_sitter_typescript`.
#[verifier::external_body]
pub(crate) fn tsx_grammar() -> (g: Grammar)
    ensures
        g.id() == GrammarId::Tsx,
{
    Grammar { language: tree_sitter_typescript::LANGUAGE_TSX.into(), tag: Ghost(GrammarId::Tsx) }
}

/// The TypeScript grammar of `tree_sitter_typescript`.
#[verifier::external_body]
pub(crate) fn typescript_grammar() -> (g: Grammar)
    ensures
        g.id() == GrammarId::TypeScript,
{
    Grammar { language: tree_sitter_typescript::LANGUAGE_TYPESCRIPT.into(), tag: Ghost(GrammarId::TypeScript) }
}

/// The Zig grammar of `tree_sitter_zig`.
#[verifier::external_body]
pub(crate) fn zig_grammar() -> (g: Grammar)
    ensures
        g.id() == GrammarId::Zig,
{
    Grammar { language: tree_sitter_zig::LANGUAGE.into(), tag: Ghost(GrammarId::Zig) }
}

} // verus!
