use asterconf::agi_server::{handle_call_forward_query, resolve, SessionError};
use asterconf::db::RuleStore;
use asterconf::types::{CallForward, Context, Extension, NoId, Registry};

fn routing_registry() -> Registry {
    let extensions = vec![Extension { name: Some("Bob".to_string()), extension: "702".to_string() }];
    let contexts = vec![
        Context {
            display_name: "from an internal line".to_string(),
            asterisk_name: "from_internal".to_string(),
        },
        Context {
            display_name: "from the sales lines".to_string(),
            asterisk_name: "from_sales".to_string(),
        },
    ];
    Registry::new(extensions, contexts)
}

#[test]
fn resolve_picks_matching_rule_and_falls_back_to_source() {
    let registry = routing_registry();
    let mut store = RuleStore::new();
    let forward = CallForward::<NoId>::new(
        &registry,
        "702".to_string(),
        "999".to_string(),
        vec!["from_internal".to_string()],
    )
    .unwrap();
    store.new_call_forward(forward).unwrap();

    assert_eq!(resolve(&store, "702", "from_internal"), "999");
    // No rule matches this context: the call keeps its original destination.
    assert_eq!(resolve(&store, "702", "from_sales"), "702");
}

#[test]
fn resolve_without_rules_returns_the_source() {
    let store = RuleStore::new();
    assert_eq!(resolve(&store, "702", "from_internal"), "702");
    assert_eq!(resolve(&store, "12341234", "from_sales"), "12341234");
}

#[test]
fn query_handler_answers_with_the_result_variable() {
    let registry = routing_registry();
    let mut store = RuleStore::new();
    let forward = CallForward::<NoId>::new(
        &registry,
        "702".to_string(),
        "999".to_string(),
        vec!["from_internal".to_string()],
    )
    .unwrap();
    store.new_call_forward(forward).unwrap();

    let dest = "702".to_string();
    let ctx = "from_internal".to_string();
    let answer = handle_call_forward_query(&store, Some(&dest), Some(&ctx)).unwrap();
    assert_eq!(answer.0, "CALL_FORWARDED_TO");
    assert_eq!(answer.1, "999");
}

#[test]
fn first_match_wins_even_when_an_update_reintroduced_an_overlap() {
    let registry = routing_registry();
    let mut store = RuleStore::new();
    let first = CallForward::<NoId>::new(
        &registry,
        "702".to_string(),
        "999".to_string(),
        vec!["from_internal".to_string()],
    )
    .unwrap();
    store.new_call_forward(first).unwrap();
    let second = CallForward::<NoId>::new(
        &registry,
        "702".to_string(),
        "555".to_string(),
        vec!["from_sales".to_string()],
    )
    .unwrap();
    let mut second = store.new_call_forward(second).unwrap();

    // The update operation does not re-check the overlap invariant, so both
    // rules now apply in from_internal; resolution stays deterministic and
    // picks the rule that comes first in store order.
    second.in_contexts = vec![Context {
        display_name: "from an internal line".to_string(),
        asterisk_name: "from_internal".to_string(),
    }];
    store.update_call_forward(&second).unwrap();

    assert_eq!(resolve(&store, "702", "from_internal"), "999");
}

#[test]
fn query_handler_rejects_missing_arguments() {
    let store = RuleStore::new();
    let ctx = "from_internal".to_string();
    assert_eq!(
        handle_call_forward_query(&store, None, Some(&ctx)),
        Err(SessionError::MissingArgument(0, 2))
    );
    let dest = "702".to_string();
    assert_eq!(
        handle_call_forward_query(&store, Some(&dest), None),
        Err(SessionError::MissingArgument(1, 2))
    );
}
