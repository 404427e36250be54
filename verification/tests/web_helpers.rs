use asterconf::types::{Context, Extension, Registry};
use asterconf::web_server::{
    error_display, forward_from_form, mark_string_at_positions, search_extensions,
    string_fuzzy_match, FormError, ForwardFormData,
};

#[test]
fn fuzzy_match_success() {
    let search = "rs";
    let term = "rust";
    assert_eq!(string_fuzzy_match(search, term), Some(vec![0, 2]));

    let search = "usf";
    let term = "usomef";
    assert_eq!(string_fuzzy_match(search, term).unwrap(), vec![0, 1, 5]);

    let search = "abc";
    let term = "ababcab";
    assert_eq!(string_fuzzy_match(search, term).unwrap(), vec![0, 1, 4]);

    let search = "AbC";
    let term = "aBabcab";
    assert_eq!(string_fuzzy_match(search, term).unwrap(), vec![0, 1, 4]);
}

#[test]
fn fuzzy_match_fail() {
    let search = "no";
    let term = "this is neg a match";
    assert_eq!(string_fuzzy_match(search, term), None);
}

#[test]
fn mark_string() {
    let string = "Hello There";
    let positions = vec![2];
    assert_eq!(
        mark_string_at_positions(string, positions),
        Some("He<b>l</b>lo There".to_string())
    );

    let string = "Hello There";
    let positions = vec![0, 2];
    assert_eq!(
        mark_string_at_positions(string, positions),
        Some("<b>H</b>e<b>l</b>lo There".to_string())
    );

    let string = "Hello There";
    let positions = vec![100];
    assert_eq!(mark_string_at_positions(string, positions), None);
}

#[test]
fn mark_string_whole_string_and_empty_positions() {
    assert_eq!(
        mark_string_at_positions("ab", vec![0, 1]),
        Some("<b>a</b><b>b</b>".to_string())
    );
    assert_eq!(mark_string_at_positions("ab", vec![]), Some("ab".to_string()));
    assert_eq!(mark_string_at_positions("", vec![]), Some("".to_string()));
}

#[test]
fn fuzzy_match_empty_search_matches_everywhere() {
    assert_eq!(string_fuzzy_match("", "anything"), Some(vec![]));
    assert_eq!(string_fuzzy_match("", ""), Some(vec![]));
    assert_eq!(string_fuzzy_match("a", ""), None);
}

#[test]
fn search_extensions_marks_matches_and_skips_the_rest() {
    let registry = Registry::new(
        vec![
            Extension { name: Some("Bob".to_string()), extension: "702".to_string() },
            Extension { name: None, extension: "555".to_string() },
        ],
        vec![],
    );
    // "Bob (702)" matches case-insensitively; "555" does not.
    let results = search_extensions(&registry, "bb7");
    assert_eq!(results.len(), 1);
    assert_eq!(results[0].0, "<b>B</b>o<b>b</b> (<b>7</b>02)");
    assert_eq!(results[0].1, "702");

    let results = search_extensions(&registry, "5");
    assert_eq!(results.len(), 1);
    assert_eq!(results[0].1, "555");

    let results = search_extensions(&registry, "zzz");
    assert!(results.is_empty());

    let displayed = Extension { name: Some("Bob".to_string()), extension: "702".to_string() }
        .display_string();
    assert_eq!(displayed, "Bob (702)");
}

#[test]
fn forward_form_is_validated_against_the_registry() {
    let registry = Registry::new(
        vec![Extension { name: Some("Bob".to_string()), extension: "702".to_string() }],
        vec![Context {
            display_name: "from an external trunk".to_string(),
            asterisk_name: "from_external".to_string(),
        }],
    );

    // The source must be a known extension.
    let form = ForwardFormData {
        from: "999".to_string(),
        to: "702".to_string(),
        ctx_checkboxes: Some(vec!["from_external".to_string()]),
    };
    assert_eq!(forward_from_form(&registry, form), Err(FormError::UnknownFromExtension));

    // At least one context box must be checked.
    let form = ForwardFormData {
        from: "702".to_string(),
        to: "999".to_string(),
        ctx_checkboxes: None,
    };
    assert_eq!(forward_from_form(&registry, form), Err(FormError::MissingContexts));

    // Every checked context must exist.
    let form = ForwardFormData {
        from: "702".to_string(),
        to: "999".to_string(),
        ctx_checkboxes: Some(vec!["from_nowhere".to_string()]),
    };
    assert_eq!(
        forward_from_form(&registry, form),
        Err(FormError::UnknownContext("from_nowhere".to_string()))
    );

    // A well-formed submission becomes a rule; the destination may be an
    // extension the registry does not know.
    let form = ForwardFormData {
        from: "702".to_string(),
        to: "12341234".to_string(),
        ctx_checkboxes: Some(vec!["from_external".to_string()]),
    };
    let rule = forward_from_form(&registry, form).unwrap();
    assert_eq!(rule.from.name, Some("Bob".to_string()));
    assert_eq!(rule.to.extension, "12341234");
    assert_eq!(rule.to.name, None);
    assert_eq!(rule.in_contexts.len(), 1);
    assert_eq!(rule.in_contexts[0].asterisk_name, "from_external");
}

#[test]
fn error_display_wraps_message_in_div() {
    let marked = error_display("boom");
    assert_eq!(
        marked,
        "<div class=\"text-red-500 flex justify-center\" id=\"error_display\" _=\"on htmx:beforeSend from elsewhere set my innerHTML to ''\">boom</div>"
    );
}
