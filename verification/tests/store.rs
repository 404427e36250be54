use asterconf::db::{convert_to_call_forwards, DBError, ForwardRow, RuleStore};
use asterconf::types::{CallForward, Context, Extension, NoId, Registry};

fn test_registry() -> Registry {
    let extensions = vec![
        Extension { name: Some("Bob".to_string()), extension: "702".to_string() },
        Extension { name: Some("Alice".to_string()), extension: "704".to_string() },
        Extension { name: None, extension: "23".to_string() },
    ];
    let contexts = vec![
        Context {
            display_name: "from an external trunk".to_string(),
            asterisk_name: "from_external".to_string(),
        },
        Context {
            display_name: "from an internal line".to_string(),
            asterisk_name: "from_internal".to_string(),
        },
        Context {
            display_name: "from the sales lines".to_string(),
            asterisk_name: "from_sales".to_string(),
        },
    ];
    Registry::new(extensions, contexts)
}

fn context_names(fwd: &CallForward<asterconf::types::HasId>) -> Vec<String> {
    fwd.in_contexts.iter().map(|c| c.asterisk_name.clone()).collect()
}

#[test]
fn insert_call_forward() {
    let registry = test_registry();
    let mut store = RuleStore::new();
    let forward = CallForward::<NoId>::new(
        &registry,
        "702".to_string(),
        "12341234".to_string(),
        vec!["from_external".to_string()],
    )
    .unwrap();
    let inserted = store.new_call_forward(forward).unwrap();
    assert_eq!(inserted.from.extension, "702");
    assert_eq!(inserted.to.extension, "12341234");
    assert_eq!(context_names(&inserted), vec!["from_external".to_string()]);
}

#[test]
fn insert_conflicting_context() {
    let registry = test_registry();
    let mut store = RuleStore::new();
    let first = CallForward::<NoId>::new(
        &registry,
        "702".to_string(),
        "12341234".to_string(),
        vec!["from_external".to_string()],
    )
    .unwrap();
    store.new_call_forward(first).unwrap();

    let second = CallForward::<NoId>::new(
        &registry,
        "702".to_string(),
        "555".to_string(),
        vec!["from_external".to_string()],
    )
    .unwrap();
    let newly_inserted = store.new_call_forward(second);
    assert_eq!(
        newly_inserted,
        Err(DBError::OverlappingCallForwards(
            Extension::create_from_name(&registry, "702".to_string()),
            Context::create_from_name(&registry, "from_external").unwrap()
        ))
    );
    // The failed creation wrote nothing.
    assert_eq!(store.get_all_call_forwards().len(), 1);
}

#[test]
fn disjoint_contexts_from_same_extension_are_allowed() {
    let registry = test_registry();
    let mut store = RuleStore::new();
    let first = CallForward::<NoId>::new(
        &registry,
        "702".to_string(),
        "12341234".to_string(),
        vec!["from_external".to_string()],
    )
    .unwrap();
    store.new_call_forward(first).unwrap();
    let second = CallForward::<NoId>::new(
        &registry,
        "702".to_string(),
        "555".to_string(),
        vec!["from_internal".to_string()],
    )
    .unwrap();
    store.new_call_forward(second).unwrap();

    // The non-overlap invariant holds over all persisted rules.
    let all = store.get_all_call_forwards();
    assert_eq!(all.len(), 2);
    for a in all.iter() {
        for b in all.iter() {
            if a.fwd_id != b.fwd_id && a.from.extension == b.from.extension {
                for ctx in context_names(a) {
                    assert!(!context_names(b).contains(&ctx));
                }
            }
        }
    }
}

#[test]
fn unknown_context_is_rejected_at_rule_construction() {
    let registry = test_registry();
    let res = CallForward::<NoId>::new(
        &registry,
        "702".to_string(),
        "555".to_string(),
        vec!["from_nowhere".to_string()],
    );
    assert_eq!(res, Err(DBError::ContextDoesNotExist("from_nowhere".to_string())));
}

#[test]
fn create_then_get_round_trip() {
    let registry = test_registry();
    let mut store = RuleStore::new();
    let forward = CallForward::<NoId>::new(
        &registry,
        "702".to_string(),
        "999".to_string(),
        vec!["from_internal".to_string()],
    )
    .unwrap();
    let inserted = store.new_call_forward(forward).unwrap();

    let fetched = store.get_call_forward_by_id(inserted.fwd_id.id).unwrap();
    assert_eq!(fetched.from.extension, "702");
    assert_eq!(fetched.to.extension, "999");
    assert_eq!(context_names(&fetched), vec!["from_internal".to_string()]);
}

#[test]
fn delete_call_forward() {
    let registry = test_registry();
    let mut store = RuleStore::new();
    let forward = CallForward::<NoId>::new(
        &registry,
        "702".to_string(),
        "999".to_string(),
        vec!["from_internal".to_string()],
    )
    .unwrap();
    let inserted = store.new_call_forward(forward).unwrap();
    let id = inserted.fwd_id.id;

    store.delete_call_forward_by_id(id).unwrap();
    assert_eq!(
        store.get_call_forward_by_id(id),
        Err(DBError::CannotSelectCallForward(id))
    );
    // Deleting an id that is gone is not distinguished from success.
    assert_eq!(store.delete_call_forward_by_id(id), Ok(()));
}

#[test]
fn update_call_forward_change_dest_and_source() {
    let registry = test_registry();
    let mut store = RuleStore::new();
    let forward = CallForward::<NoId>::new(
        &registry,
        "702".to_string(),
        "999".to_string(),
        vec!["from_internal".to_string()],
    )
    .unwrap();
    let mut rule = store.new_call_forward(forward).unwrap();

    rule.from = Extension::create_from_name(&registry, "704".to_string());
    rule.to = Extension::create_from_name(&registry, "702".to_string());
    store.update_call_forward(&rule).unwrap();

    let fetched = store.get_call_forward_by_id(rule.fwd_id.id).unwrap();
    assert_eq!(fetched.from.extension, "704");
    assert_eq!(fetched.to.extension, "702");
}

#[test]
fn update_context_diff_leaves_exactly_the_desired_set() {
    let registry = test_registry();
    let mut store = RuleStore::new();
    let forward = CallForward::<NoId>::new(
        &registry,
        "702".to_string(),
        "999".to_string(),
        vec!["from_internal".to_string(), "from_sales".to_string()],
    )
    .unwrap();
    let mut rule = store.new_call_forward(forward).unwrap();

    // Desired set: (old set plus from_external) minus from_sales.
    rule.in_contexts = vec![
        Context::create_from_name(&registry, "from_internal").unwrap(),
        Context::create_from_name(&registry, "from_external").unwrap(),
    ];
    store.update_call_forward(&rule).unwrap();

    let fetched = store.get_call_forward_by_id(rule.fwd_id.id).unwrap();
    let mut names = context_names(&fetched);
    names.sort();
    assert_eq!(
        names,
        vec!["from_external".to_string(), "from_internal".to_string()]
    );
}

#[test]
fn update_of_missing_rule_reports_not_found() {
    let registry = test_registry();
    let mut store = RuleStore::new();
    let forward = CallForward::<NoId>::new(
        &registry,
        "702".to_string(),
        "999".to_string(),
        vec!["from_internal".to_string()],
    )
    .unwrap();
    let mut rule = store.new_call_forward(forward).unwrap();
    rule.fwd_id = asterconf::types::HasId::new(4242);
    let res = store.update_call_forward(&rule);
    assert_eq!(res, Err(DBError::CannotSelectCallForward(4242)));
}

#[test]
fn get_call_forwards_from_startpoint() {
    let registry = test_registry();
    let mut store = RuleStore::new();
    for (from, to, ctx) in [
        ("702", "23", "from_internal"),
        ("702", "555", "from_external"),
        ("704", "23", "from_internal"),
    ] {
        let forward = CallForward::<NoId>::new(
            &registry,
            from.to_string(),
            to.to_string(),
            vec![ctx.to_string()],
        )
        .unwrap();
        store.new_call_forward(forward).unwrap();
    }
    let startpoint = Extension::create_from_name(&registry, "702".to_string());
    let res = store.get_call_forwards_from_startpoint(&startpoint);
    assert_eq!(res.len(), 2);
    assert_eq!(res[0].to.extension, "23");
    assert_eq!(res[1].to.extension, "555");
    assert_eq!(store.get_all_call_forwards().len(), 3);
}

#[test]
fn intersecting_contexts_reports_shared_names() {
    let registry = test_registry();
    let a = CallForward::<NoId>::new(
        &registry,
        "702".to_string(),
        "23".to_string(),
        vec!["from_internal".to_string(), "from_sales".to_string()],
    )
    .unwrap();
    let b = CallForward::<NoId>::new(
        &registry,
        "702".to_string(),
        "555".to_string(),
        vec!["from_sales".to_string(), "from_external".to_string()],
    )
    .unwrap();
    let shared = a.intersecting_contexts(&b);
    assert_eq!(shared.len(), 1);
    assert_eq!(shared[0].asterisk_name, "from_sales");
}

#[test]
fn convert_rows_groups_by_rule_id() {
    let registry = test_registry();
    let rows = vec![
        ForwardRow {
            fwd_id: 1,
            from_extension: "702".to_string(),
            to_extension: "23".to_string(),
            context: "from_internal".to_string(),
        },
        ForwardRow {
            fwd_id: 1,
            from_extension: "702".to_string(),
            to_extension: "23".to_string(),
            context: "from_external".to_string(),
        },
        ForwardRow {
            fwd_id: 2,
            from_extension: "704".to_string(),
            to_extension: "555".to_string(),
            context: "from_sales".to_string(),
        },
    ];
    let forwards = convert_to_call_forwards(&registry, rows).unwrap();
    assert_eq!(forwards.len(), 2);
    assert_eq!(forwards[0].fwd_id.id, 1);
    assert_eq!(
        context_names(&forwards[0]),
        vec!["from_internal".to_string(), "from_external".to_string()]
    );
    assert_eq!(forwards[1].fwd_id.id, 2);
    assert_eq!(forwards[1].from.extension, "704");
}

#[test]
fn convert_rows_keeps_distinct_rules_with_the_same_endpoints_apart() {
    // Two persisted rules may share source and destination as long as their
    // contexts are disjoint; a rule's identity is its id, so their rows must
    // assemble into two rules.
    let registry = test_registry();
    let rows = vec![
        ForwardRow {
            fwd_id: 1,
            from_extension: "702".to_string(),
            to_extension: "23".to_string(),
            context: "from_internal".to_string(),
        },
        ForwardRow {
            fwd_id: 7,
            from_extension: "702".to_string(),
            to_extension: "23".to_string(),
            context: "from_external".to_string(),
        },
    ];
    let forwards = convert_to_call_forwards(&registry, rows).unwrap();
    assert_eq!(forwards.len(), 2);
    assert_eq!(forwards[0].fwd_id.id, 1);
    assert_eq!(context_names(&forwards[0]), vec!["from_internal".to_string()]);
    assert_eq!(forwards[1].fwd_id.id, 7);
    assert_eq!(context_names(&forwards[1]), vec!["from_external".to_string()]);
}

#[test]
fn convert_rows_rejects_unknown_context() {
    let registry = test_registry();
    let rows = vec![ForwardRow {
        fwd_id: 1,
        from_extension: "702".to_string(),
        to_extension: "23".to_string(),
        context: "no_such_context".to_string(),
    }];
    let res = convert_to_call_forwards(&registry, rows);
    assert_eq!(res, Err(DBError::ContextDoesNotExist("no_such_context".to_string())));
}

#[test]
fn error_messages_carry_the_details() {
    assert_eq!(
        DBError::CannotSelectCallForward(17).message(),
        "Unable to select call forward from its id 17"
    );
    assert_eq!(
        DBError::CannotSelectCallForward(-405).message(),
        "Unable to select call forward from its id -405"
    );
    assert_eq!(
        DBError::ContextDoesNotExist("from_nowhere".to_string()).message(),
        "The context with name from_nowhere does not exit in the config"
    );
    assert_eq!(
        DBError::CannotDeleteContextMapping("from_sales".to_string(), 3).message(),
        "Unable to delete context from_sales for call forward 3"
    );
    let registry = test_registry();
    let err = DBError::OverlappingCallForwards(
        Extension::create_from_name(&registry, "702".to_string()),
        Context::create_from_name(&registry, "from_external").unwrap(),
    );
    assert_eq!(
        err.message(),
        "There is already a call forward from Bob (702) active in context from an external trunk."
    );
}

#[test]
fn registry_lookup_of_extensions() {
    let registry = test_registry();
    let known = Extension::create_from_name(&registry, "702".to_string());
    assert_eq!(known.name, Some("Bob".to_string()));
    let unknown = Extension::create_from_name(&registry, "12341234".to_string());
    assert_eq!(unknown.name, None);
    assert_eq!(unknown.extension, "12341234");
    assert!(Context::create_from_name(&registry, "from_nowhere").is_none());
}
