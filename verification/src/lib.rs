//! Line counts, complexity metrics, lint diagnostics and whitespace formatting for source code in
//! the languages that tree-sitter grammars cover.
pub mod format;
pub mod language;
pub mod laws;
pub mod lint;
pub mod metrics;
pub mod sitter;
pub mod syntax;
pub mod text;
pub mod tree;

use vstd::prelude::*;
use vstd::string::*;

use crate::format::{format_bytes, value_ranges_of};
use crate::language::{
    grammar_of, has_grammar, language_ids, language_ids_spec, profile_view_of, resolve,
    LanguageSpec,
};
use crate::lint::{
    has_syntax_errors, lint_unsorted, stably_sorted, syntax_errors, views, Diagnostic,
};
use crate::metrics::{measured, Metrics, MEASURABLE_NODES};
use crate::sitter::{descendants_at, sexp_at, SourceTree};
use crate::syntax::{parsed_records, read_tree, readable, tree_of_records, SyntaxTree};
use crate::text::str_eq;

verus! {

/// Why a request fails.
#[derive(Debug)]
pub enum ApiError {
    /// The language identifier is not one of [`supported_languages`].
    UnsupportedLanguage(String),
    /// The language has no grammar, so its text has no syntax tree.
    NoSyntaxTree(String),
    /// The parser refused the grammar. The bundled grammars are all of an ABI version that
    /// tree-sitter accepts, so [`parse`] never returns it.
    Language(tree_sitter::LanguageError),
    /// The parser returned no tree, which it does only without a grammar, so [`parse`] never
    /// returns it.
    ParsingCancelled,
    /// The parsed tree cannot be read: see [`readable`].
    UnreadableTree,
    /// The parsed tree has more nodes than the complexity metrics can count in their `u32`s:
    /// see [`crate::metrics::MEASURABLE_NODES`].
    TooManyNodes,
    /// Formatting is refused for text with syntax errors, where whitespace may belong to an
    /// unterminated literal.
    SyntaxErrors,
}

/// `LanguageError`'s `Display`: its message.
#[verifier::external_body]
fn language_error_message(error: &tree_sitter::LanguageError) -> String {
    error.to_string()
}

impl ApiError {
    /// The error's message.
    pub fn message(&self) -> (r: String)
        ensures
            self matches ApiError::UnsupportedLanguage(id) ==> r@ == "Unsupported language: "@ + id@,
            self matches ApiError::NoSyntaxTree(id) ==> r@ == id@ + " has no syntax tree"@,
            self is ParsingCancelled ==> r@ == "Parsing was cancelled"@,
            self is SyntaxErrors ==> r@ == "Cannot format code with syntax errors"@,
            self is UnreadableTree ==> r@ == "The syntax tree does not fit its text"@,
            self is TooManyNodes ==> r@ == "The syntax tree has too many nodes to measure"@,
    {
        match self {
            ApiError::UnsupportedLanguage(id) => {
                let mut m = "Unsupported language: ".to_owned();
                m.append(id.as_str());
                m
            },
            ApiError::NoSyntaxTree(id) => {
                let mut m = id.as_str().to_owned();
                m.append(" has no syntax tree");
                m
            },
            ApiError::Language(error) => language_error_message(error),
            ApiError::ParsingCancelled => "Parsing was cancelled".to_owned(),
            ApiError::UnreadableTree => "The syntax tree does not fit its text".to_owned(),
            ApiError::TooManyNodes => "The syntax tree has too many nodes to measure".to_owned(),
            ApiError::SyntaxErrors => "Cannot format code with syntax errors".to_owned(),
        }
    }
}

/// The identifiers of the supported languages.
pub fn supported_languages() -> (ids: Vec<String>)
    ensures
        ids@.map_values(|s: String| s@) == language_ids_spec(),
{
    let all = language_ids();
    let mut ids: Vec<String> = Vec::new();
    for i in 0..all.len()
        invariant
            all@.map_values(|s: &str| s@) == language_ids_spec(),
            ids@.len() == i,
            forall|k: int| 0 <= k < i ==> (#[trigger] ids@[k])@ == all@[k]@,
    {
        ids.push(all[i].to_owned());
    }
    proof {
        assert(ids@.map_values(|s: String| s@) =~= all@.map_values(|s: &str| s@));
    }
    ids
}

/// The resolved language of `language` and, where it has a grammar, the tree that tree-sitter
/// parses from `source` with it.
pub fn parse(language: &str, source: &str) -> (r: Result<(LanguageSpec, Option<SourceTree>), ApiError>)
    ensures
        r is Err <==> !language_ids_spec().contains(language@),
        r matches Err(e) ==> e matches ApiError::UnsupportedLanguage(id) && id@ == language@,
        r matches Ok((spec, tree)) ==> {
            &&& spec.grammar is Some <==> has_grammar(language@)
            &&& spec.grammar matches Some(g) ==> g.id() == grammar_of(language@)
            &&& spec.profile_view() == profile_view_of(language@)
            &&& tree is Some <==> has_grammar(language@)
            &&& tree matches Some(t) ==> t.grammar() == grammar_of(language@) && t.text() == source@
        },
{
    let spec = match resolve(language) {
        Some(spec) => spec,
        None => {
            return Err(ApiError::UnsupportedLanguage(language.to_owned()));
        },
    };
    let tree = match &spec.grammar {
        None => None,
        Some(grammar) => {
            let mut parser = crate::sitter::new_parser();
            if let Err(error) = crate::sitter::set_parser_language(&mut parser, grammar) {
                return Err(ApiError::Language(error));
            }
            match crate::sitter::parse_text(&mut parser, source) {
                Some(tree) => Some(tree),
                None => {
                    return Err(ApiError::ParsingCancelled);
                },
            }
        },
    };
    Ok((spec, tree))
}

/// The tree that tree-sitter parses from `source` with the grammar of `language`, as read by
/// [`read_tree`].
pub open spec fn read_from(t: &SyntaxTree, language: Seq<char>, source: &str) -> bool {
    t.wf(source) && tree_of_records(t, parsed_records(grammar_of(language), source@))
}

/// [`parse`], with the tree read into plain values.
pub fn parse_syntax(language: &str, source: &str) -> (r: Result<(LanguageSpec, Option<SyntaxTree>), ApiError>)
    ensures
        (r matches Err(ApiError::UnsupportedLanguage(_))) <==> !language_ids_spec().contains(language@),
        r matches Err(ApiError::UnsupportedLanguage(id)) ==> id@ == language@,
        r matches Err(e) ==> e is UnsupportedLanguage || (has_grammar(language@) && e is UnreadableTree
            && !readable(grammar_of(language@), source)),
        has_grammar(language@) && readable(grammar_of(language@), source) ==> r is Ok,
        language_ids_spec().contains(language@) && !has_grammar(language@) ==> r is Ok,
        r matches Ok((spec, tree)) ==> {
            &&& spec.grammar is Some <==> has_grammar(language@)
            &&& spec.grammar matches Some(g) ==> g.id() == grammar_of(language@)
            &&& spec.profile_view() == profile_view_of(language@)
            &&& tree is Some <==> has_grammar(language@)
            &&& tree matches Some(t) ==> read_from(&t, language@, source)
        },
{
    let (spec, raw) = parse(language, source)?;
    match raw {
        None => Ok((spec, None)),
        Some(raw) => match read_tree(&raw, source) {
            Some(tree) => Ok((spec, Some(tree))),
            None => Err(ApiError::UnreadableTree),
        },
    }
}

/// Parses `source` and returns its syntax tree as an S-expression.
pub fn syntax_tree(language: &str, source: &str) -> (r: Result<String, ApiError>)
    ensures
        (r matches Err(ApiError::UnsupportedLanguage(_))) <==> !language_ids_spec().contains(language@),
        r matches Err(ApiError::UnsupportedLanguage(id)) ==> id@ == language@,
        (r matches Err(ApiError::NoSyntaxTree(_))) <==> language_ids_spec().contains(language@)
            && !has_grammar(language@),
        r matches Err(ApiError::NoSyntaxTree(id)) ==> id@ == language@,
        r matches Err(e) ==> e is UnsupportedLanguage || e is NoSyntaxTree,
        has_grammar(language@) ==> (r matches Ok(s) && s@ == sexp_at(grammar_of(language@), source@, 0)),
{
    let (_, tree) = parse(language, source)?;
    match tree {
        Some(tree) => {
            let root = crate::sitter::root_node(&tree);
            Ok(crate::sitter::node_to_sexp(&root))
        },
        None => Err(ApiError::NoSyntaxTree(language.to_owned())),
    }
}

/// The line counts and, for languages with functions or control flow, the complexity metrics of
/// `source`.
pub fn measure(language: &str, source: &str) -> (r: Result<Metrics, ApiError>)
    requires
        source.spec_bytes().len() <= u32::MAX,
    ensures
        (r matches Err(ApiError::UnsupportedLanguage(_))) <==> !language_ids_spec().contains(language@),
        r matches Err(ApiError::UnsupportedLanguage(id)) ==> id@ == language@,
        r matches Err(e) ==> e is UnsupportedLanguage || (has_grammar(language@) && (e is UnreadableTree
            || e is TooManyNodes)),
        r matches Err(ApiError::UnreadableTree) ==> !readable(grammar_of(language@), source),
        r matches Err(ApiError::TooManyNodes) ==> profile_view_of(language@) is Some
            && descendants_at(grammar_of(language@), source@, 0) > MEASURABLE_NODES,
        has_grammar(language@) && readable(grammar_of(language@), source) && (profile_view_of(
            language@,
        ) is None || descendants_at(grammar_of(language@), source@, 0) <= MEASURABLE_NODES) ==> r is Ok,
        language_ids_spec().contains(language@) && !has_grammar(language@) ==> (r matches Ok(m)
            && measured(m, source, None, profile_view_of(language@))),
        has_grammar(language@) && r is Ok ==> exists|t: SyntaxTree|
            read_from(&t, language@, source) && measured(r->Ok_0, source, Some(&t), profile_view_of(language@)),
{
    let (spec, tree) = parse_syntax(language, source)?;
    if let (Some(t), Some(_)) = (&tree, &spec.profile) {
        if t.nodes.len() > MEASURABLE_NODES {
            return Err(ApiError::TooManyNodes);
        }
    }
    let m = crate::metrics::measure(source, tree.as_ref(), spec.profile.as_ref());
    proof {
        if let Some(t) = tree {
            assert(read_from(&t, language@, source) && measured(m, source, Some(&t), profile_view_of(language@)));
        }
    }
    Ok(m)
}

/// The syntax errors and the trailing whitespace of `source`, sorted by where they start.
pub fn lint(language: &str, source: &str) -> (r: Result<Vec<Diagnostic>, ApiError>)
    requires
        source.spec_bytes().len() < u32::MAX,
    ensures
        (r matches Err(ApiError::UnsupportedLanguage(_))) <==> !language_ids_spec().contains(language@),
        r matches Err(ApiError::UnsupportedLanguage(id)) ==> id@ == language@,
        r matches Err(e) ==> e is UnsupportedLanguage || (has_grammar(language@) && e is UnreadableTree
            && !readable(grammar_of(language@), source)),
        has_grammar(language@) && readable(grammar_of(language@), source) ==> r is Ok,
        language_ids_spec().contains(language@) && !has_grammar(language@) ==> (r matches Ok(d)
            && stably_sorted(views(d@), lint_unsorted(source, None))),
        has_grammar(language@) && r is Ok ==> exists|t: SyntaxTree|
            read_from(&t, language@, source) && stably_sorted(views(r->Ok_0@), lint_unsorted(source, Some(&t))),
{
    let (_, tree) = parse_syntax(language, source)?;
    let d = crate::lint::lint(source, tree.as_ref());
    proof {
        if let Some(t) = tree {
            assert(read_from(&t, language@, source) && stably_sorted(views(d@), lint_unsorted(source, Some(&t))));
        }
    }
    Ok(d)
}

/// The formatted text of `source` with the tree `tree`: trailing whitespace and trailing blank
/// lines removed outside value regions, and a final newline.
pub open spec fn formatted_as(out: Seq<char>, source: &str, tree: Option<&SyntaxTree>) -> bool {
    vstd::utf8::encode_utf8(out) == format_bytes(
        source.spec_bytes(),
        match tree {
            Some(t) => value_ranges_of(t, source),
            None => Seq::empty(),
        },
    )
}

/// Removes trailing whitespace and trailing blank lines outside value regions and ends the text
/// with a newline. Refuses text with syntax errors, where whitespace may belong to an
/// unterminated literal, and returns `source` unchanged where formatting would introduce one.
pub fn format(language: &str, source: &str) -> (r: Result<String, ApiError>)
    ensures
        (r matches Err(ApiError::UnsupportedLanguage(_))) <==> !language_ids_spec().contains(language@),
        r matches Err(ApiError::UnsupportedLanguage(id)) ==> id@ == language@,
        r matches Err(e) ==> e is UnsupportedLanguage || (has_grammar(language@) && (e is UnreadableTree
            || e is SyntaxErrors)),
        r matches Err(ApiError::SyntaxErrors) ==> exists|t: SyntaxTree|
            read_from(&t, language@, source) && syntax_errors(&t, source).len() > 0,
        r matches Err(ApiError::UnreadableTree) ==> !readable(grammar_of(language@), source)
            || exists|t: SyntaxTree, out: &str|
            {
                &&& read_from(&t, language@, source)
                &&& syntax_errors(&t, source).len() == 0
                &&& formatted_as(out@, source, Some(&t))
                &&& !readable(grammar_of(language@), out)
            },
        language_ids_spec().contains(language@) && !has_grammar(language@) ==> (r matches Ok(out)
            && formatted_as(out@, source, None)),
        has_grammar(language@) && r is Ok ==> exists|t: SyntaxTree, out: &str|
            {
                &&& read_from(&t, language@, source)
                &&& syntax_errors(&t, source).len() == 0
                &&& formatted_as(out@, source, Some(&t))
                &&& out@ == source@ ==> r->Ok_0@ == source@
                &&& out@ != source@ ==> exists|u: SyntaxTree|
                    {
                        &&& read_from(&u, language@, out)
                        &&& syntax_errors(&u, out).len() == 0 ==> r->Ok_0@ == out@
                        &&& syntax_errors(&u, out).len() > 0 ==> r->Ok_0@ == source@
                    }
            },
{
    let (_, tree) = parse_syntax(language, source)?;
    if let Some(t) = &tree {
        if has_syntax_errors(source, t) {
            proof {
                assert(read_from(t, language@, source) && syntax_errors(t, source).len() > 0);
            }
            return Err(ApiError::SyntaxErrors);
        }
    }
    let formatted = crate::format::format(source, tree.as_ref());
    let out = formatted.as_str();
    if str_eq(out, source) {
        proof {
            if let Some(t) = tree {
                assert(read_from(&t, language@, source) && syntax_errors(&t, source).len() == 0
                    && formatted_as(out@, source, Some(&t)));
            }
        }
        return Ok(formatted);
    }
    // Whitespace can change a parse, as a final newline does after Ruby's `x = y&`, so the output
    // must stay free of the syntax errors `lint` reports.
    let formatted_tree = match parse_syntax(language, out) {
        Ok((_, u)) => u,
        Err(e) => {
            proof {
                if let Some(t) = tree {
                    assert(read_from(&t, language@, source) && syntax_errors(&t, source).len() == 0
                        && formatted_as(out@, source, Some(&t)) && !readable(grammar_of(language@), out));
                }
            }
            return Err(e);
        },
    };
    let breaks_syntax = match &formatted_tree {
        Some(u) => has_syntax_errors(out, u),
        None => false,
    };
    if breaks_syntax {
        proof {
            if let Some(t) = tree {
                let u = formatted_tree->0;
                assert(read_from(&u, language@, out) && syntax_errors(&u, out).len() > 0);
                assert(read_from(&t, language@, source) && syntax_errors(&t, source).len() == 0
                    && formatted_as(out@, source, Some(&t)));
            }
        }
        Ok(source.to_owned())
    } else {
        proof {
            if let Some(t) = tree {
                let u = formatted_tree->0;
                assert(read_from(&u, language@, out) && syntax_errors(&u, out).len() == 0);
                assert(read_from(&t, language@, source) && syntax_errors(&t, source).len() == 0
                    && formatted_as(out@, source, Some(&t)));
            }
        }
        Ok(formatted)
    }
}

} // verus!
