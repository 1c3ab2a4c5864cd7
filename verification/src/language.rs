//! The supported languages: their identifiers, grammars, and the node kinds that drive the
//! complexity metrics.
use vstd::prelude::*;

use crate::sitter;
use crate::sitter::{Grammar, GrammarId};
use crate::text::{names, str_eq};

verus! {

/// The language identifiers, which follow Exercode's judge language IDs, plus `tsx`.
pub open spec fn language_ids_spec() -> Seq<Seq<char>> {
    seq!["c"@, "cpp"@, "csharp"@, "css"@, "dart"@, "haskell"@, "html"@, "java"@, "javascript"@, "jsp"@, "kotlin"@, "php"@, "python"@, "ruby"@, "rust"@, "text"@, "tsx"@, "typescript"@, "zig"@]
}

/// The identifiers of the supported languages, in the order of [`language_ids_spec`].
pub fn language_ids() -> (ids: Vec<&'static str>)
    ensures
        ids@.map_values(|s: &str| s@) == language_ids_spec(),
{
    let ids = vec!["c", "cpp", "csharp", "css", "dart", "haskell", "html", "java", "javascript", "jsp", "kotlin", "php", "python", "ruby", "rust", "text", "tsx", "typescript", "zig"];
    proof {
        assert(ids@.map_values(|s: &str| s@) =~= language_ids_spec());
    }
    ids
}

/// Node kinds that drive complexity metrics; each list names kinds of the language's grammar.
pub struct Profile {
    pub functions: Vec<&'static str>,
    /// Conditionals, loops, and handlers: they add a path and nest the code inside them.
    pub branches: Vec<&'static str>,
    /// Branches that continue a chain (e.g., `elif`) and therefore do not nest.
    pub chained_branches: Vec<&'static str>,
    /// Multi-way branches, whose paths are counted by their `cases` instead.
    pub switches: Vec<&'static str>,
    pub cases: Vec<&'static str>,
    pub logical_operators: Vec<&'static str>,
    /// Functions that count only where they have a body, such as property accessors.
    pub optional_body_functions: Vec<&'static str>,
    /// Nodes that add a path only where they have an `alternative`.
    pub alternative_branches: Vec<&'static str>,
    /// A named node whose text is a logical operator.
    pub operator_node: Option<&'static str>,
    /// Cases that a wildcard pattern makes the default case.
    pub wildcard_cases: Vec<&'static str>,
}

/// A [`Profile`] with each name taken by its characters.
#[verifier::ext_equal]
pub struct ProfileView {
    pub functions: Seq<Seq<char>>,
    pub branches: Seq<Seq<char>>,
    pub chained_branches: Seq<Seq<char>>,
    pub switches: Seq<Seq<char>>,
    pub cases: Seq<Seq<char>>,
    pub logical_operators: Seq<Seq<char>>,
    pub optional_body_functions: Seq<Seq<char>>,
    pub alternative_branches: Seq<Seq<char>>,
    pub operator_node: Option<Seq<char>>,
    pub wildcard_cases: Seq<Seq<char>>,
}

impl View for Profile {
    type V = ProfileView;

    open spec fn view(&self) -> ProfileView {
        ProfileView {
            functions: names(self.functions@),
            branches: names(self.branches@),
            chained_branches: names(self.chained_branches@),
            switches: names(self.switches@),
            cases: names(self.cases@),
            logical_operators: names(self.logical_operators@),
            optional_body_functions: names(self.optional_body_functions@),
            alternative_branches: names(self.alternative_branches@),
            operator_node: match self.operator_node {
                Some(s) => Some(s@),
                None => None,
            },
            wildcard_cases: names(self.wildcard_cases@),
        }
    }
}

/// What the library needs of a language: its grammar, if it has one, and its profile.
pub struct LanguageSpec {
    pub grammar: Option<Grammar>,
    /// `None` for languages without functions or control flow, such as markup and style sheets.
    pub profile: Option<Profile>,
}

/// The view of an optional profile.
pub open spec fn profile_views(p: Option<&Profile>) -> Option<ProfileView> {
    match p {
        Some(p) => Some(p@),
        None => None,
    }
}

impl LanguageSpec {
    /// The view of the profile, if any.
    pub open spec fn profile_view(&self) -> Option<ProfileView> {
        match self.profile {
            Some(p) => Some(p@),
            None => None,
        }
    }
}

/// The language has a grammar: every supported language but plain text.
pub open spec fn has_grammar(id: Seq<char>) -> bool {
    language_ids_spec().contains(id) && id != "text"@
}

/// The grammar of a language that has one.
pub open spec fn grammar_of(id: Seq<char>) -> GrammarId {
    if id == "c"@ {
        GrammarId::C
    } else if id == "cpp"@ {
        GrammarId::Cpp
    } else if id == "csharp"@ {
        GrammarId::CSharp
    } else if id == "css"@ {
        GrammarId::Css
    } else if id == "dart"@ {
        GrammarId::Dart
    } else if id == "haskell"@ {
        GrammarId::Haskell
    } else if id == "html"@ {
        GrammarId::Html
    } else if id == "java"@ {
        GrammarId::Java
    } else if id == "javascript"@ {
        GrammarId::JavaScript
    } else if id == "jsp"@ {
        GrammarId::EmbeddedTemplate
    } else if id == "kotlin"@ {
        GrammarId::Kotlin
    } else if id == "php"@ {
        GrammarId::Php
    } else if id == "python"@ {
        GrammarId::Python
    } else if id == "ruby"@ {
        GrammarId::Ruby
    } else if id == "rust"@ {
        GrammarId::Rust
    } else if id == "tsx"@ {
        GrammarId::Tsx
    } else if id == "typescript"@ {
        GrammarId::TypeScript
    } else {
        GrammarId::Zig
    }
}

/// The profile of the language, where it has functions or control flow.
pub open spec fn profile_view_of(id: Seq<char>) -> Option<ProfileView> {
    if id == "c"@ {
        Some(c_profile_view())
    } else if id == "cpp"@ {
        Some(cpp_profile_view())
    } else if id == "csharp"@ {
        Some(csharp_profile_view())
    } else if id == "css"@ {
        None
    } else if id == "dart"@ {
        Some(dart_profile_view())
    } else if id == "haskell"@ {
        Some(haskell_profile_view())
    } else if id == "html"@ {
        None
    } else if id == "java"@ {
        Some(java_profile_view())
    } else if id == "javascript"@ {
        Some(javascript_profile_view())
    } else if id == "jsp"@ {
        None
    } else if id == "kotlin"@ {
        Some(kotlin_profile_view())
    } else if id == "php"@ {
        Some(php_profile_view())
    } else if id == "python"@ {
        Some(python_profile_view())
    } else if id == "ruby"@ {
        Some(ruby_profile_view())
    } else if id == "rust"@ {
        Some(rust_profile_view())
    } else if id == "text"@ {
        None
    } else if id == "tsx"@ {
        Some(javascript_profile_view())
    } else if id == "typescript"@ {
        Some(javascript_profile_view())
    } else if id == "zig"@ {
        Some(zig_profile_view())
    } else {
        None
    }
}

/// The grammar and profile of the language with the identifier `id`, or `None` for an
/// unsupported identifier.
pub fn resolve(id: &str) -> (r: Option<LanguageSpec>)
    ensures
        r is Some <==> language_ids_spec().contains(id@),
        r matches Some(spec) ==> {
            &&& spec.grammar is Some <==> has_grammar(id@)
            &&& spec.grammar matches Some(g) ==> g.id() == grammar_of(id@)
            &&& spec.profile_view() == profile_view_of(id@)
        },
{
    proof {
        reveal_strlit("c");
        reveal_strlit("cpp");
        reveal_strlit("csharp");
        reveal_strlit("css");
        reveal_strlit("dart");
        reveal_strlit("haskell");
        reveal_strlit("html");
        reveal_strlit("java");
        reveal_strlit("javascript");
        reveal_strlit("jsp");
        reveal_strlit("kotlin");
        reveal_strlit("php");
        reveal_strlit("python");
        reveal_strlit("ruby");
        reveal_strlit("rust");
        reveal_strlit("text");
        reveal_strlit("tsx");
        reveal_strlit("typescript");
        reveal_strlit("zig");
        assert("c"@.len() == 1);
        assert("cpp"@.len() == 3);
        assert("csharp"@.len() == 6);
        assert("css"@.len() == 3);
        assert("dart"@.len() == 4);
        assert("haskell"@.len() == 7);
        assert("html"@.len() == 4);
        assert("java"@.len() == 4);
        assert("javascript"@.len() == 10);
        assert("jsp"@.len() == 3);
        assert("kotlin"@.len() == 6);
        assert("php"@.len() == 3);
        assert("python"@.len() == 6);
        assert("ruby"@.len() == 4);
        assert("rust"@.len() == 4);
        assert("text"@.len() == 4);
        assert("tsx"@.len() == 3);
        assert("typescript"@.len() == 10);
        assert("zig"@.len() == 3);
        assert("c"@[0] == 'c');
        assert("cpp"@[0] == 'c');
        assert("csharp"@[0] == 'c');
        assert("css"@[0] == 'c');
        assert("dart"@[0] == 'd');
        assert("haskell"@[0] == 'h');
        assert("html"@[0] == 'h');
        assert("java"@[0] == 'j');
        assert("javascript"@[0] == 'j');
        assert("jsp"@[0] == 'j');
        assert("kotlin"@[0] == 'k');
        assert("php"@[0] == 'p');
        assert("python"@[0] == 'p');
        assert("ruby"@[0] == 'r');
        assert("rust"@[0] == 'r');
        assert("text"@[0] == 't');
        assert("tsx"@[0] == 't');
        assert("typescript"@[0] == 't');
        assert("zig"@[0] == 'z');
    }
    let (grammar, profile): (Option<Grammar>, Option<Profile>) = if str_eq(id, "c") {
        (Some(sitter::c_grammar()), Some(c_profile()))
    } else if str_eq(id, "cpp") {
        (Some(sitter::cpp_grammar()), Some(cpp_profile()))
    } else if str_eq(id, "csharp") {
        (Some(sitter::csharp_grammar()), Some(csharp_profile()))
    } else if str_eq(id, "css") {
        (Some(sitter::css_grammar()), None)
    } else if str_eq(id, "dart") {
        (Some(sitter::dart_grammar()), Some(dart_profile()))
    } else if str_eq(id, "haskell") {
        (Some(sitter::haskell_grammar()), Some(haskell_profile()))
    } else if str_eq(id, "html") {
        (Some(sitter::html_grammar()), None)
    } else if str_eq(id, "java") {
        (Some(sitter::java_grammar()), Some(java_profile()))
    } else if str_eq(id, "javascript") {
        (Some(sitter::javascript_grammar()), Some(javascript_profile()))
    } else if str_eq(id, "jsp") {
        // JSP scriptlets share ERB's `<% %>` delimiters, so the embedded-template grammar splits
        // them from the surrounding markup.
        (Some(sitter::embedded_template_grammar()), None)
    } else if str_eq(id, "kotlin") {
        (Some(sitter::kotlin_grammar()), Some(kotlin_profile()))
    } else if str_eq(id, "php") {
        (Some(sitter::php_grammar()), Some(php_profile()))
    } else if str_eq(id, "python") {
        (Some(sitter::python_grammar()), Some(python_profile()))
    } else if str_eq(id, "ruby") {
        (Some(sitter::ruby_grammar()), Some(ruby_profile()))
    } else if str_eq(id, "rust") {
        (Some(sitter::rust_grammar()), Some(rust_profile()))
    } else if str_eq(id, "text") {
        (None, None)
    } else if str_eq(id, "tsx") {
        (Some(sitter::tsx_grammar()), Some(javascript_profile()))
    } else if str_eq(id, "typescript") {
        (Some(sitter::typescript_grammar()), Some(javascript_profile()))
    } else if str_eq(id, "zig") {
        (Some(sitter::zig_grammar()), Some(zig_profile()))
    } else {
        return None;
    };
    proof {
        assert(language_ids_spec().contains(id@)) by {
            let k = choose|k: int| 0 <= k < language_ids_spec().len() && language_ids_spec()[k] == id@;
        }
    }
    Some(LanguageSpec { grammar, profile })
}

/// The node kinds of C.
pub open spec fn c_profile_view() -> ProfileView {
    ProfileView {
        functions: seq!["function_definition"@],
        branches: seq!["if_statement"@, "for_statement"@, "while_statement"@, "do_statement"@, "conditional_expression"@],
        chained_branches: seq![],
        switches: seq!["switch_statement"@],
        cases: seq!["case_statement"@],
        logical_operators: seq!["&&"@, "||"@],
        optional_body_functions: seq![],
        alternative_branches: seq![],
        operator_node: None,
        wildcard_cases: seq![],
    }
}

/// The node kinds of C.
pub fn c_profile() -> (p: Profile)
    ensures
        p@ == c_profile_view(),
{
    let p = Profile {
        functions: vec!["function_definition"],
        branches: vec!["if_statement", "for_statement", "while_statement", "do_statement", "conditional_expression"],
        chained_branches: vec![],
        switches: vec!["switch_statement"],
        cases: vec!["case_statement"],
        logical_operators: vec!["&&", "||"],
        optional_body_functions: vec![],
        alternative_branches: vec![],
        operator_node: None,
        wildcard_cases: vec![],
    };
    proof {
        assert(p@ =~= c_profile_view());
    }
    p
}

/// The node kinds of C++.
pub open spec fn cpp_profile_view() -> ProfileView {
    ProfileView {
        functions: seq!["function_definition"@, "lambda_expression"@],
        branches: seq!["if_statement"@, "for_statement"@, "for_range_loop"@, "while_statement"@, "do_statement"@, "conditional_expression"@, "catch_clause"@],
        chained_branches: seq![],
        switches: seq!["switch_statement"@],
        cases: seq!["case_statement"@],
        logical_operators: seq!["&&"@, "||"@, "and"@, "or"@],
        optional_body_functions: seq![],
        alternative_branches: seq![],
        operator_node: None,
        wildcard_cases: seq![],
    }
}

/// The node kinds of C++.
pub fn cpp_profile() -> (p: Profile)
    ensures
        p@ == cpp_profile_view(),
{
    let p = Profile {
        functions: vec!["function_definition", "lambda_expression"],
        branches: vec!["if_statement", "for_statement", "for_range_loop", "while_statement", "do_statement", "conditional_expression", "catch_clause"],
        chained_branches: vec![],
        switches: vec!["switch_statement"],
        cases: vec!["case_statement"],
        logical_operators: vec!["&&", "||", "and", "or"],
        optional_body_functions: vec![],
        alternative_branches: vec![],
        operator_node: None,
        wildcard_cases: vec![],
    };
    proof {
        assert(p@ =~= cpp_profile_view());
    }
    p
}

/// The node kinds of C#.
pub open spec fn csharp_profile_view() -> ProfileView {
    ProfileView {
        functions: seq!["method_declaration"@, "constructor_declaration"@, "local_function_statement"@, "lambda_expression"@, "anonymous_method_expression"@, "operator_declaration"@, "conversion_operator_declaration"@, "accessor_declaration"@],
        branches: seq!["if_statement"@, "for_statement"@, "foreach_statement"@, "while_statement"@, "do_statement"@, "conditional_expression"@, "catch_clause"@],
        chained_branches: seq![],
        switches: seq!["switch_statement"@, "switch_expression"@],
        cases: seq!["switch_section"@, "switch_expression_arm"@],
        logical_operators: seq!["&&"@, "||"@, "??"@],
        optional_body_functions: seq![],
        alternative_branches: seq![],
        operator_node: None,
        wildcard_cases: seq![],
    }
}

/// The node kinds of C#.
pub fn csharp_profile() -> (p: Profile)
    ensures
        p@ == csharp_profile_view(),
{
    let p = Profile {
        functions: vec!["method_declaration", "constructor_declaration", "local_function_statement", "lambda_expression", "anonymous_method_expression", "operator_declaration", "conversion_operator_declaration", "accessor_declaration"],
        branches: vec!["if_statement", "for_statement", "foreach_statement", "while_statement", "do_statement", "conditional_expression", "catch_clause"],
        chained_branches: vec![],
        switches: vec!["switch_statement", "switch_expression"],
        cases: vec!["switch_section", "switch_expression_arm"],
        logical_operators: vec!["&&", "||", "??"],
        optional_body_functions: vec![],
        alternative_branches: vec![],
        operator_node: None,
        wildcard_cases: vec![],
    };
    proof {
        assert(p@ =~= csharp_profile_view());
    }
    p
}

/// The node kinds of Dart.
pub open spec fn dart_profile_view() -> ProfileView {
    ProfileView {
        functions: seq!["function_body"@, "function_expression"@],
        branches: seq!["if_statement"@, "if_element"@, "for_statement"@, "for_element"@, "while_statement"@, "do_statement"@, "conditional_expression"@, "catch_clause"@],
        chained_branches: seq![],
        switches: seq!["switch_statement"@, "switch_expression"@],
        cases: seq!["switch_statement_case"@, "switch_expression_case"@],
        logical_operators: seq!["&&"@, "||"@, "??"@],
        optional_body_functions: seq![],
        alternative_branches: seq![],
        operator_node: None,
        wildcard_cases: seq![],
    }
}

/// The node kinds of Dart.
pub fn dart_profile() -> (p: Profile)
    ensures
        p@ == dart_profile_view(),
{
    let p = Profile {
        functions: vec!["function_body", "function_expression"],
        branches: vec!["if_statement", "if_element", "for_statement", "for_element", "while_statement", "do_statement", "conditional_expression", "catch_clause"],
        chained_branches: vec![],
        switches: vec!["switch_statement", "switch_expression"],
        cases: vec!["switch_statement_case", "switch_expression_case"],
        logical_operators: vec!["&&", "||", "??"],
        optional_body_functions: vec![],
        alternative_branches: vec![],
        operator_node: None,
        wildcard_cases: vec![],
    };
    proof {
        assert(p@ =~= dart_profile_view());
    }
    p
}

/// The node kinds of Haskell.
pub open spec fn haskell_profile_view() -> ProfileView {
    ProfileView {
        functions: seq!["function"@, "lambda"@, "lambda_case"@],
        branches: seq!["conditional"@],
        chained_branches: seq![],
        switches: seq!["case"@, "multi_way_if"@],
        cases: seq!["alternative"@, "guards"@],
        logical_operators: seq![],
        optional_body_functions: seq![],
        alternative_branches: seq![],
        operator_node: None,
        wildcard_cases: seq![],
    }
}

/// The node kinds of Haskell.
pub fn haskell_profile() -> (p: Profile)
    ensures
        p@ == haskell_profile_view(),
{
    let p = Profile {
        functions: vec!["function", "lambda", "lambda_case"],
        branches: vec!["conditional"],
        chained_branches: vec![],
        switches: vec!["case", "multi_way_if"],
        cases: vec!["alternative", "guards"],
        logical_operators: vec![],
        optional_body_functions: vec![],
        alternative_branches: vec![],
        operator_node: None,
        wildcard_cases: vec![],
    };
    proof {
        assert(p@ =~= haskell_profile_view());
    }
    p
}

/// The node kinds of Java.
pub open spec fn java_profile_view() -> ProfileView {
    ProfileView {
        functions: seq!["method_declaration"@, "constructor_declaration"@, "compact_constructor_declaration"@, "lambda_expression"@],
        branches: seq!["if_statement"@, "for_statement"@, "enhanced_for_statement"@, "while_statement"@, "do_statement"@, "ternary_expression"@, "catch_clause"@],
        chained_branches: seq![],
        switches: seq!["switch_expression"@],
        cases: seq!["switch_label"@],
        logical_operators: seq!["&&"@, "||"@],
        optional_body_functions: seq![],
        alternative_branches: seq![],
        operator_node: None,
        wildcard_cases: seq![],
    }
}

/// The node kinds of Java.
pub fn java_profile() -> (p: Profile)
    ensures
        p@ == java_profile_view(),
{
    let p = Profile {
        functions: vec!["method_declaration", "constructor_declaration", "compact_constructor_declaration", "lambda_expression"],
        branches: vec!["if_statement", "for_statement", "enhanced_for_statement", "while_statement", "do_statement", "ternary_expression", "catch_clause"],
        chained_branches: vec![],
        switches: vec!["switch_expression"],
        cases: vec!["switch_label"],
        logical_operators: vec!["&&", "||"],
        optional_body_functions: vec![],
        alternative_branches: vec![],
        operator_node: None,
        wildcard_cases: vec![],
    };
    proof {
        assert(p@ =~= java_profile_view());
    }
    p
}

/// The node kinds of JavaScript, TypeScript, and TSX, whose grammars use the same node kinds.
pub open spec fn javascript_profile_view() -> ProfileView {
    ProfileView {
        functions: seq!["function_declaration"@, "function_expression"@, "generator_function"@, "generator_function_declaration"@, "arrow_function"@, "method_definition"@],
        branches: seq!["if_statement"@, "for_statement"@, "for_in_statement"@, "while_statement"@, "do_statement"@, "ternary_expression"@, "catch_clause"@],
        chained_branches: seq![],
        switches: seq!["switch_statement"@],
        cases: seq!["switch_case"@],
        logical_operators: seq!["&&"@, "||"@, "??"@],
        optional_body_functions: seq![],
        alternative_branches: seq![],
        operator_node: None,
        wildcard_cases: seq![],
    }
}

/// The node kinds of JavaScript, TypeScript, and TSX, whose grammars use the same node kinds.
pub fn javascript_profile() -> (p: Profile)
    ensures
        p@ == javascript_profile_view(),
{
    let p = Profile {
        functions: vec!["function_declaration", "function_expression", "generator_function", "generator_function_declaration", "arrow_function", "method_definition"],
        branches: vec!["if_statement", "for_statement", "for_in_statement", "while_statement", "do_statement", "ternary_expression", "catch_clause"],
        chained_branches: vec![],
        switches: vec!["switch_statement"],
        cases: vec!["switch_case"],
        logical_operators: vec!["&&", "||", "??"],
        optional_body_functions: vec![],
        alternative_branches: vec![],
        operator_node: None,
        wildcard_cases: vec![],
    };
    proof {
        assert(p@ =~= javascript_profile_view());
    }
    p
}

/// The node kinds of Kotlin.
pub open spec fn kotlin_profile_view() -> ProfileView {
    ProfileView {
        functions: seq!["function_declaration"@, "anonymous_function"@, "lambda_literal"@, "secondary_constructor"@, "getter"@, "setter"@],
        branches: seq!["if_expression"@, "for_statement"@, "while_statement"@, "do_while_statement"@, "catch_block"@],
        chained_branches: seq![],
        switches: seq!["when_expression"@],
        cases: seq!["when_entry"@],
        logical_operators: seq!["&&"@, "||"@],
        optional_body_functions: seq![],
        alternative_branches: seq![],
        operator_node: None,
        wildcard_cases: seq![],
    }
}

/// The node kinds of Kotlin.
pub fn kotlin_profile() -> (p: Profile)
    ensures
        p@ == kotlin_profile_view(),
{
    let p = Profile {
        functions: vec!["function_declaration", "anonymous_function", "lambda_literal", "secondary_constructor", "getter", "setter"],
        branches: vec!["if_expression", "for_statement", "while_statement", "do_while_statement", "catch_block"],
        chained_branches: vec![],
        switches: vec!["when_expression"],
        cases: vec!["when_entry"],
        logical_operators: vec!["&&", "||"],
        optional_body_functions: vec![],
        alternative_branches: vec![],
        operator_node: None,
        wildcard_cases: vec![],
    };
    proof {
        assert(p@ =~= kotlin_profile_view());
    }
    p
}

/// The node kinds of PHP.
pub open spec fn php_profile_view() -> ProfileView {
    ProfileView {
        functions: seq!["function_definition"@, "method_declaration"@, "anonymous_function"@, "arrow_function"@],
        branches: seq!["if_statement"@, "for_statement"@, "foreach_statement"@, "while_statement"@, "do_statement"@, "conditional_expression"@, "catch_clause"@],
        chained_branches: seq!["else_if_clause"@],
        switches: seq!["switch_statement"@, "match_expression"@],
        cases: seq!["case_statement"@, "match_conditional_expression"@],
        logical_operators: seq!["&&"@, "||"@, "and"@, "or"@, "??"@],
        optional_body_functions: seq![],
        alternative_branches: seq![],
        operator_node: None,
        wildcard_cases: seq![],
    }
}

/// The node kinds of PHP.
pub fn php_profile() -> (p: Profile)
    ensures
        p@ == php_profile_view(),
{
    let p = Profile {
        functions: vec!["function_definition", "method_declaration", "anonymous_function", "arrow_function"],
        branches: vec!["if_statement", "for_statement", "foreach_statement", "while_statement", "do_statement", "conditional_expression", "catch_clause"],
        chained_branches: vec!["else_if_clause"],
        switches: vec!["switch_statement", "match_expression"],
        cases: vec!["case_statement", "match_conditional_expression"],
        logical_operators: vec!["&&", "||", "and", "or", "??"],
        optional_body_functions: vec![],
        alternative_branches: vec![],
        operator_node: None,
        wildcard_cases: vec![],
    };
    proof {
        assert(p@ =~= php_profile_view());
    }
    p
}

/// The node kinds of Python.
pub open spec fn python_profile_view() -> ProfileView {
    ProfileView {
        functions: seq!["function_definition"@, "lambda"@],
        branches: seq!["if_statement"@, "for_statement"@, "while_statement"@, "conditional_expression"@, "except_clause"@],
        chained_branches: seq!["elif_clause"@],
        switches: seq!["match_statement"@],
        cases: seq!["case_clause"@],
        logical_operators: seq!["and"@, "or"@],
        optional_body_functions: seq![],
        alternative_branches: seq![],
        operator_node: None,
        wildcard_cases: seq![],
    }
}

/// The node kinds of Python.
pub fn python_profile() -> (p: Profile)
    ensures
        p@ == python_profile_view(),
{
    let p = Profile {
        functions: vec!["function_definition", "lambda"],
        branches: vec!["if_statement", "for_statement", "while_statement", "conditional_expression", "except_clause"],
        chained_branches: vec!["elif_clause"],
        switches: vec!["match_statement"],
        cases: vec!["case_clause"],
        logical_operators: vec!["and", "or"],
        optional_body_functions: vec![],
        alternative_branches: vec![],
        operator_node: None,
        wildcard_cases: vec![],
    };
    proof {
        assert(p@ =~= python_profile_view());
    }
    p
}

/// The node kinds of Ruby.
pub open spec fn ruby_profile_view() -> ProfileView {
    ProfileView {
        functions: seq!["method"@, "singleton_method"@, "lambda"@, "block"@, "do_block"@],
        branches: seq!["if"@, "unless"@, "while"@, "until"@, "for"@, "conditional"@, "rescue"@, "if_modifier"@, "unless_modifier"@, "while_modifier"@, "until_modifier"@, "rescue_modifier"@],
        chained_branches: seq!["elsif"@],
        switches: seq!["case"@, "case_match"@],
        cases: seq!["when"@, "in_clause"@],
        logical_operators: seq!["&&"@, "||"@, "and"@, "or"@],
        optional_body_functions: seq![],
        alternative_branches: seq![],
        operator_node: None,
        wildcard_cases: seq![],
    }
}

/// The node kinds of Ruby.
pub fn ruby_profile() -> (p: Profile)
    ensures
        p@ == ruby_profile_view(),
{
    let p = Profile {
        functions: vec!["method", "singleton_method", "lambda", "block", "do_block"],
        branches: vec!["if", "unless", "while", "until", "for", "conditional", "rescue", "if_modifier", "unless_modifier", "while_modifier", "until_modifier", "rescue_modifier"],
        chained_branches: vec!["elsif"],
        switches: vec!["case", "case_match"],
        cases: vec!["when", "in_clause"],
        logical_operators: vec!["&&", "||", "and", "or"],
        optional_body_functions: vec![],
        alternative_branches: vec![],
        operator_node: None,
        wildcard_cases: vec![],
    };
    proof {
        assert(p@ =~= ruby_profile_view());
    }
    p
}

/// The node kinds of Rust.
pub open spec fn rust_profile_view() -> ProfileView {
    ProfileView {
        functions: seq!["function_item"@, "closure_expression"@],
        branches: seq!["if_expression"@, "for_expression"@, "while_expression"@, "loop_expression"@],
        chained_branches: seq![],
        switches: seq!["match_expression"@],
        cases: seq!["match_arm"@],
        logical_operators: seq!["&&"@, "||"@],
        optional_body_functions: seq![],
        alternative_branches: seq![],
        operator_node: None,
        wildcard_cases: seq![],
    }
}

/// The node kinds of Rust.
pub fn rust_profile() -> (p: Profile)
    ensures
        p@ == rust_profile_view(),
{
    let p = Profile {
        functions: vec!["function_item", "closure_expression"],
        branches: vec!["if_expression", "for_expression", "while_expression", "loop_expression"],
        chained_branches: vec![],
        switches: vec!["match_expression"],
        cases: vec!["match_arm"],
        logical_operators: vec!["&&", "||"],
        optional_body_functions: vec![],
        alternative_branches: vec![],
        operator_node: None,
        wildcard_cases: vec![],
    };
    proof {
        assert(p@ =~= rust_profile_view());
    }
    p
}

/// The node kinds of Zig.
pub open spec fn zig_profile_view() -> ProfileView {
    ProfileView {
        functions: seq!["function_declaration"@],
        branches: seq!["if_statement"@, "if_expression"@, "for_statement"@, "for_expression"@, "while_statement"@, "while_expression"@, "catch_expression"@],
        chained_branches: seq![],
        switches: seq!["switch_expression"@],
        cases: seq!["switch_case"@],
        logical_operators: seq!["and"@, "or"@],
        optional_body_functions: seq![],
        alternative_branches: seq![],
        operator_node: None,
        wildcard_cases: seq![],
    }
}

/// The node kinds of Zig.
pub fn zig_profile() -> (p: Profile)
    ensures
        p@ == zig_profile_view(),
{
    let p = Profile {
        functions: vec!["function_declaration"],
        branches: vec!["if_statement", "if_expression", "for_statement", "for_expression", "while_statement", "while_expression", "catch_expression"],
        chained_branches: vec![],
        switches: vec!["switch_expression"],
        cases: vec!["switch_case"],
        logical_operators: vec!["and", "or"],
        optional_body_functions: vec![],
        alternative_branches: vec![],
        operator_node: None,
        wildcard_cases: vec![],
    };
    proof {
        assert(p@ =~= zig_profile_view());
    }
    p
}

} // verus!
