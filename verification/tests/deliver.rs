use hot_potato::deliver::{a2a_push_result, push_outcome, push_target, DeliverVia, PushOutcome, Registry};

#[test]
fn registry_register_lookup_roundtrip() {
    let mut reg = Registry::new();
    reg.register("diana", "quant, data guardian", DeliverVia::A2a { url: "http://localhost:8643/".into() });
    let e = reg.lookup("diana").unwrap();
    assert_eq!(e.description, "quant, data guardian");
    assert!(e.deliver_via.is_push());
    assert!(reg.lookup("ghost").is_none());
}

#[test]
fn poll_only_is_the_default_semantics() {
    let mut reg = Registry::new();
    reg.register("victoria", "viz", DeliverVia::Poll);
    let e = reg.lookup("victoria").unwrap();
    assert!(!e.deliver_via.is_push());
}

#[test]
fn push_target_skips_strangers_and_poll_only_agents() {
    let mut reg = Registry::new();
    reg.register("diana", "quant", DeliverVia::Webhook { url: "http://diana-hook".into() });
    reg.register("victoria", "viz", DeliverVia::Poll);
    match push_target(&reg, "diana") {
        Ok(DeliverVia::Webhook { url }) => assert_eq!(url, "http://diana-hook"),
        other => panic!("expected the webhook, got {other:?}"),
    }
    assert!(matches!(push_target(&reg, "victoria"), Err(PushOutcome::Skipped { ref reason }) if reason == "poll-only"));
    assert!(matches!(push_target(&reg, "ghost"), Err(PushOutcome::Skipped { ref reason }) if reason == "not in registry"));
}

#[test]
fn a_failed_push_is_reported_not_fatal() {
    assert!(matches!(push_outcome(Ok(())), PushOutcome::Pushed));
    match push_outcome(Err("injected failure for http://x".into())) {
        PushOutcome::Failed { error } => assert_eq!(error, "injected failure for http://x"),
        other => panic!("expected a failure, got {other:?}"),
    }
}

#[test]
fn re_registering_overwrites_in_place_and_all_is_sorted() {
    let mut reg = Registry::new();
    reg.register("zoe", "first", DeliverVia::Poll);
    reg.register("amy", "a", DeliverVia::Poll);
    reg.register_tagged("zoe", "second", DeliverVia::Relay { url: "http://r".into() }, vec!["team".into()]);
    let zoe = reg.lookup("zoe").unwrap();
    assert_eq!(zoe.description, "second");
    assert_eq!(zoe.tags, ["team"]);
    let all = reg.all();
    assert_eq!(all.iter().map(|e| e.agent.as_str()).collect::<Vec<_>>(), ["amy", "zoe"]);
    assert_eq!(reg.names().len(), 2);
}

#[test]
fn defaults_are_empty_and_poll_only() {
    assert!(Registry::default().all().is_empty());
    assert!(matches!(DeliverVia::default(), DeliverVia::Poll));
    assert_eq!(DeliverVia::Webhook { url: "u".into() }, DeliverVia::Webhook { url: "u".into() });
    assert!(hot_potato::store::memory::InMemoryStore::default().list_all().unwrap().is_empty());
    assert_eq!(hot_potato::handshake::DynamicPeers::default().len(), 0);
}

#[test]
fn a_timed_out_a2a_push_counts_as_notified() {
    assert_eq!(a2a_push_result(Err("a2a push failed: timed out".into()), true), Ok(()));
    assert_eq!(a2a_push_result(Err("a2a push failed: 503".into()), false), Err("a2a push failed: 503".to_string()));
    assert_eq!(a2a_push_result(Ok(()), false), Ok(()));
}
