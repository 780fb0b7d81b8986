use capgrok::{
    capabilities_to_statement, extract_capabilities, resource_prefix, verify_statement, Builder,
    CapabilitySet, Error, Message, Namespace, RESOURCE_PREFIX,
};

fn strings(items: &[&str]) -> Vec<String> {
    items.iter().map(|s| s.to_string()).collect()
}

fn fresh_message(statement: Option<&str>, uri: &str, resources: &[&str]) -> Message {
    Message {
        statement: statement.map(|s| s.to_string()),
        uri: uri.to_string(),
        resources: strings(resources),
    }
}

#[test]
fn no_caps_statement_append() {
    let msg = Builder::new()
        .build(fresh_message(
            Some("Some custom statement."),
            "did:key:example",
            &[],
        ))
        .expect("failed to build delegation");

    assert_eq!(
        Some("Some custom statement.".to_string()),
        msg.statement,
        "generated message did not match expectation"
    );
    assert!(msg.resources.is_empty());
}

#[test]
fn build_delegation_statement_append() {
    let credential: Namespace = "credential".parse().unwrap();

    let msg = Builder::new()
        .with_default_actions(&credential, strings(&["present"]))
        .build(fresh_message(
            Some("Some custom statement."),
            "did:key:example",
            &["http://example.com"],
        ))
        .expect("failed to build delegation");

    let statement = msg.statement.clone().expect("statement was dropped");
    assert!(
        statement.starts_with("Some custom statement. "),
        "prior statement was not kept as a prefix"
    );
    assert_eq!(
        statement,
        "Some custom statement. I further authorize did:key:example to perform the following \
         actions on my behalf: 'present' for any resource under 'credential'."
    );
    assert_eq!(msg.resources.len(), 2);
    assert_eq!(msg.resources[0], "http://example.com");
    assert!(msg.resources[1].starts_with("urn:capability:credential:"));
    assert!(
        verify_statement(&msg).expect("unable to parse resources as capabilities"),
        "statement did not match capabilities"
    );
}

#[test]
fn no_caps() {
    let msg = Builder::new()
        .build(fresh_message(None, "did:key:example", &[]))
        .expect("failed to build delegation");

    assert_eq!(None, msg.statement, "generated message did not match expectation");
    assert!(msg.resources.is_empty());
    assert!(
        verify_statement(&msg).expect("unable to parse resources as capabilities"),
        "statement did not match capabilities"
    );
}

fn delegation_message() -> Message {
    let credential: Namespace = "credential".parse().unwrap();
    let kepler: Namespace = "kepler".parse().unwrap();

    Builder::new()
        .with_default_actions(&credential, strings(&["present"]))
        .with_actions(&credential, "type:type1", strings(&["present"]))
        .with_actions(
            &kepler,
            "kepler:ens:example.eth://default/kv",
            strings(&["list", "get", "metadata"]),
        )
        .with_actions(
            &kepler,
            "kepler:ens:example.eth://default/kv/public",
            strings(&["list", "get", "metadata", "put", "delete"]),
        )
        .with_actions(
            &kepler,
            "kepler:ens:example.eth://default/kv/dapp-space",
            strings(&["list", "get", "metadata", "put", "delete"]),
        )
        .build(fresh_message(None, "did:key:example", &[]))
        .expect("failed to build delegation")
}

#[test]
fn build_delegation() {
    let msg = delegation_message();

    assert_eq!(msg.resources.len(), 2, "one resource entry per namespace");
    assert!(msg.resources[0].starts_with("urn:capability:credential:"));
    assert!(msg.resources[1].starts_with("urn:capability:kepler:"));

    let set = extract_capabilities(&msg).expect("unable to parse resources as capabilities");
    assert_eq!(set.entries.len(), 2);
    let credential = &set.entries[0];
    assert_eq!(credential.namespace, "credential".parse().unwrap());
    assert_eq!(credential.capability.default_actions, strings(&["present"]));
    assert_eq!(credential.capability.grants.len(), 1);
    assert_eq!(credential.capability.grants[0].resource, "type:type1");
    assert_eq!(credential.capability.grants[0].actions, strings(&["present"]));
    let kepler = &set.entries[1];
    assert_eq!(kepler.namespace, "kepler".parse().unwrap());
    assert!(kepler.capability.default_actions.is_empty());
    assert_eq!(kepler.capability.grants.len(), 3);
    assert_eq!(
        kepler.capability.grants[1].resource,
        "kepler:ens:example.eth://default/kv/public"
    );
    assert_eq!(
        kepler.capability.grants[1].actions,
        strings(&["list", "get", "metadata", "put", "delete"])
    );

    assert!(
        verify_statement(&msg).expect("unable to parse resources as capabilities"),
        "statement did not match capabilities"
    );
}

#[test]
fn verify() {
    let msg = delegation_message();
    assert!(
        verify_statement(&msg).expect("unable to parse resources as capabilities"),
        "statement did not match capabilities"
    );

    let mut altered_msg_1 = msg.clone();
    altered_msg_1
        .statement
        .iter_mut()
        .for_each(|statement| statement.push_str(" I am the walrus!"));
    assert!(
        !verify_statement(&altered_msg_1).expect("unable to parse resources as capabilities"),
        "altered statement incorrectly matched capabilities"
    );

    let mut altered_msg_2 = msg.clone();
    altered_msg_2.uri = "did:key:altered".to_string();
    assert!(
        !verify_statement(&altered_msg_2).expect("unable to parse resources as capabilities"),
        "altered uri incorrectly matched capabilities"
    );
}

#[test]
fn verify_interleaved_resources() {
    let mut msg = delegation_message();
    // push an unrelated resource between the two capability entries
    msg.resources.insert(1, "http://unrelated.example.com".to_string());
    msg.resources.insert(0, "http://another.example.com".to_string());
    assert!(
        verify_statement(&msg).expect("unable to parse resources as capabilities"),
        "statement did not match capabilities"
    );

    // the extracted set is the same as without the interleaved entries
    let plain = delegation_message();
    assert_eq!(
        extract_capabilities(&msg).unwrap(),
        extract_capabilities(&plain).unwrap()
    );
}

#[test]
fn round_trip_exact_set() {
    let ns: Namespace = "files".parse().unwrap();
    let msg = Builder::new()
        .with_default_actions(&ns, strings(&["read"]))
        .with_actions(&ns, "file://a", strings(&["write", "read"]))
        .build(fresh_message(None, "did:key:z6Mk", &[]))
        .unwrap();
    let set = extract_capabilities(&msg).unwrap();
    assert_eq!(set.entries.len(), 1);
    assert_eq!(set.entries[0].capability.default_actions, strings(&["read"]));
    assert_eq!(set.entries[0].capability.grants[0].resource, "file://a");
    assert_eq!(
        set.entries[0].capability.grants[0].actions,
        strings(&["write", "read"])
    );
}

#[test]
fn round_trip_non_ascii_tokens() {
    let ns: Namespace = "intl".parse().unwrap();
    let msg = Builder::new()
        .with_actions(&ns, "res/\u{00e9}t\u{00e9}", strings(&["pr\u{00e9}senter", "\u{1F511}"]))
        .build(fresh_message(None, "did:key:example", &[]))
        .unwrap();
    let set = extract_capabilities(&msg).unwrap();
    assert_eq!(set.entries[0].capability.grants[0].resource, "res/\u{00e9}t\u{00e9}");
    assert_eq!(
        set.entries[0].capability.grants[0].actions,
        strings(&["pr\u{00e9}senter", "\u{1F511}"])
    );
    assert!(verify_statement(&msg).unwrap());
}

#[test]
fn concrete_scenario_statement_exact() {
    let ns: Namespace = "credential".parse().unwrap();
    let msg = Builder::new()
        .with_default_actions(&ns, strings(&["present"]))
        .with_actions(&ns, "res1", strings(&["present"]))
        .build(fresh_message(None, "did:key:example", &[]))
        .unwrap();

    assert_eq!(msg.resources.len(), 1);
    assert!(msg.resources[0].starts_with("urn:capability:credential:"));
    assert_eq!(
        msg.statement.as_deref(),
        Some(
            "I further authorize did:key:example to perform the following actions on my behalf: \
             'present' for any resource under 'credential'. 'present' for 'res1' under \
             'credential'."
        )
    );

    let set = extract_capabilities(&msg).unwrap();
    assert_eq!(set.entries.len(), 1);
    assert_eq!(set.entries[0].capability.default_actions, strings(&["present"]));
    assert_eq!(set.entries[0].capability.grants.len(), 1);
    assert_eq!(set.entries[0].capability.grants[0].resource, "res1");
    assert_eq!(set.entries[0].capability.grants[0].actions, strings(&["present"]));
}

#[test]
fn empty_grant_identity() {
    let before = fresh_message(None, "did:key:example", &["http://example.com"]);
    let after = Builder::new().build(before.clone()).unwrap();
    assert_eq!(before, after);
    assert!(verify_statement(&after).unwrap());
}

#[test]
fn declarations_merge_and_deduplicate() {
    let ns: Namespace = "files".parse().unwrap();
    let msg = Builder::new()
        .with_default_actions(&ns, strings(&["read", "read"]))
        .with_default_actions(&ns, strings(&["read", "list"]))
        .with_actions(&ns, "file://a", strings(&["write"]))
        .with_actions(&ns, "file://a", strings(&["write", "read"]))
        .build(fresh_message(None, "did:key:example", &[]))
        .unwrap();
    let set = extract_capabilities(&msg).unwrap();
    assert_eq!(set.entries.len(), 1);
    assert_eq!(set.entries[0].capability.default_actions, strings(&["read", "list"]));
    assert_eq!(set.entries[0].capability.grants.len(), 1);
    assert_eq!(set.entries[0].capability.grants[0].actions, strings(&["write", "read"]));
}

#[test]
fn merge_is_union_across_sets() {
    let ns: Namespace = "files".parse().unwrap();
    let other_ns: Namespace = "mail".parse().unwrap();
    let mut a = CapabilitySet::new();
    a.add_default_actions(&ns, &strings(&["read"])).unwrap();
    let mut b = CapabilitySet::new();
    b.add_default_actions(&ns, &strings(&["read", "list"])).unwrap();
    b.add_resource_actions(&other_ns, &"inbox".to_string(), &strings(&["open"]))
        .unwrap();
    a.merge(&b);
    assert_eq!(a.entries.len(), 2);
    assert_eq!(a.entries[0].capability.default_actions, strings(&["read", "list"]));
    assert_eq!(a.entries[1].capability.grants[0].resource, "inbox");
    assert!(!a.is_empty());
}

#[test]
fn namespace_grammar() {
    assert!("credential".parse::<Namespace>().is_ok());
    assert!("ns.with-separators_09".parse::<Namespace>().is_ok());
    assert_eq!("".parse::<Namespace>(), Err(Error::InvalidNamespace));
    assert_eq!("bad:colon".parse::<Namespace>(), Err(Error::InvalidNamespace));
    assert_eq!("space bad".parse::<Namespace>(), Err(Error::InvalidNamespace));
}

#[test]
fn empty_action_token_rejected() {
    let ns: Namespace = "files".parse().unwrap();
    let mut set = CapabilitySet::new();
    assert_eq!(
        set.add_default_actions(&ns, &strings(&["read", ""])),
        Err(Error::InvalidAction)
    );
    assert!(set.is_empty());
    assert_eq!(
        set.add_resource_actions(&ns, &"file://a".to_string(), &strings(&[""])),
        Err(Error::InvalidAction)
    );
    assert!(set.is_empty());
}

#[test]
fn oversized_grant_is_an_encoding_failure() {
    let ns: Namespace = "files".parse().unwrap();
    let huge = "x".repeat(70_000);
    let result = Builder::new()
        .with_default_actions(&ns, vec![huge])
        .build(fresh_message(None, "did:key:example", &[]));
    assert_eq!(result, Err(Error::EncodingFailure));
}

#[test]
fn malformed_capability_resource_is_an_error() {
    // capability prefix, valid namespace, but the remainder is not decodable
    let msg = fresh_message(None, "did:key:example", &["urn:capability:files:!!!"]);
    assert_eq!(extract_capabilities(&msg), Err(Error::DecodingFailure));
    assert_eq!(verify_statement(&msg), Err(Error::DecodingFailure));

    // capability prefix with an invalid namespace label
    let msg2 = fresh_message(None, "did:key:example", &["urn:capability::payload"]);
    assert_eq!(extract_capabilities(&msg2), Err(Error::InvalidNamespace));

    // capability prefix with no namespace delimiter at all
    let msg3 = fresh_message(None, "did:key:example", &["urn:capability:plain"]);
    assert_eq!(extract_capabilities(&msg3), Err(Error::InvalidNamespace));
}

#[test]
fn truncated_capability_resource_is_an_error() {
    let mut msg = delegation_message();
    let truncated_len = msg.resources[0].len() - 1;
    msg.resources[0].truncate(truncated_len);
    assert!(extract_capabilities(&msg).is_err());
    assert!(verify_statement(&msg).is_err());
}

#[test]
fn statement_regenerates_from_extracted_set() {
    let msg = delegation_message();
    let set = extract_capabilities(&msg).unwrap();
    let regenerated = capabilities_to_statement(&set, &msg.uri).unwrap();
    assert_eq!(Some(regenerated), msg.statement);

    let empty = CapabilitySet::new();
    assert_eq!(capabilities_to_statement(&empty, &msg.uri), None);
}

#[test]
fn prefix_is_fixed() {
    assert_eq!(resource_prefix(), "urn:capability:");
    assert_eq!(RESOURCE_PREFIX, "urn:capability:");
}
