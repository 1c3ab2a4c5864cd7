use ultra_uni::language::{language_ids, resolve};
use ultra_uni::supported_languages;

// A misspelled kind never matches any node, which silently lowers the metrics.
#[test]
fn profiles_name_existing_node_kinds() {
    for id in language_ids() {
        let spec = resolve(id).unwrap();
        let (Some(grammar), Some(profile)) = (spec.grammar, spec.profile) else {
            continue;
        };
        let named_kinds = [
            &profile.functions,
            &profile.branches,
            &profile.chained_branches,
            &profile.switches,
            &profile.cases,
        ];
        for kind in named_kinds.iter().flat_map(|kinds| kinds.iter()) {
            assert_ne!(grammar.language().id_for_node_kind(kind, true), 0, "{id}: {kind}");
        }
        for kind in &profile.logical_operators {
            assert_ne!(grammar.language().id_for_node_kind(kind, false), 0, "{id}: {kind}");
        }
    }
}

#[test]
fn supported_languages_lists_every_identifier_in_order() {
    let ids = supported_languages();
    assert_eq!(
        ids,
        vec![
            "c", "cpp", "csharp", "css", "dart", "haskell", "html", "java", "javascript", "jsp",
            "kotlin", "php", "python", "ruby", "rust", "text", "tsx", "typescript", "zig",
        ]
    );
}

#[test]
fn every_supported_language_resolves() {
    for id in supported_languages() {
        let spec = resolve(&id).unwrap();
        assert_eq!(spec.grammar.is_some(), id != "text", "{id}");
        let without_complexity = ["css", "html", "jsp", "text"].contains(&id.as_str());
        assert_eq!(spec.profile.is_none(), without_complexity, "{id}");
    }
}

#[test]
fn unknown_identifiers_do_not_resolve() {
    assert!(resolve("cobol").is_none());
    assert!(resolve("").is_none());
    assert!(resolve("Python").is_none());
}

#[test]
fn typescript_and_tsx_share_the_javascript_profile() {
    let js = resolve("javascript").unwrap().profile.unwrap();
    for id in ["typescript", "tsx"] {
        let profile = resolve(id).unwrap().profile.unwrap();
        assert_eq!(profile.functions, js.functions);
        assert_eq!(profile.branches, js.branches);
        assert_eq!(profile.logical_operators, js.logical_operators);
    }
}

#[test]
fn languages_resolve_to_their_grammars() {
    let name = |id: &str| resolve(id).unwrap().grammar.unwrap().language().name().map(str::to_owned);
    assert_eq!(name("python").as_deref(), Some("python"));
    assert_eq!(name("jsp").as_deref(), Some("embedded_template"));
    assert_eq!(name("php").as_deref(), Some("php"));
    assert!(resolve("text").unwrap().grammar.is_none());
}
