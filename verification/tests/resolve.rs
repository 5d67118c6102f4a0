use easyflow::link::Config;
use easyflow::{Connection, Dataflow, Error, GraphConfig, Ident, Key, Module, Version};

fn id(text: &str) -> Ident {
    Ident::new(text).expect("valid identifier")
}

fn file_exchange(dir: &str) -> Config {
    Config::File(easyflow::link::file::Config { dir: dir.to_string(), auto_clean: false })
}

/// The scenario of the two-level pub/sub setup: the root declares
/// `publisher` and `consumer` with the file-backed exchange `channel`
/// between them, and includes one module that adds nothing.
fn pubsub_config() -> GraphConfig {
    GraphConfig {
        version: Version,
        processors: vec![id("publisher"), id("consumer")],
        exchanges: vec![(id("channel"), file_exchange("channel_out"))],
        connections: vec![(
            id("channel"),
            Connection {
                sink: Some(vec![id("consumer")]),
                source: Some(vec![id("publisher")]),
            },
        )],
        modules: Some(vec![Module {
            name: id("sub"),
            path: "/conf/sub.json5".to_string(),
            graph: GraphConfig {
                version: Version,
                processors: Vec::new(),
                exchanges: Vec::new(),
                connections: Vec::new(),
                modules: None,
            },
        }]),
    }
}

#[test]
fn end_to_end_pubsub_resolution() {
    let flow = Dataflow::from_config(pubsub_config()).expect("the config is valid");

    assert_eq!(flow.processors(), &vec![id("publisher"), id("consumer")]);
    let exchanges = flow.exchanges();
    assert_eq!(exchanges.len(), 1);
    assert_eq!(exchanges[0].0, Key::parse("channel").unwrap());
    assert_eq!(exchanges[0].1, file_exchange("channel_out"));

    // Source membership feeds the receiver side; sink membership feeds
    // the sender side.
    let receiver_cfg = flow.resolve_receiver("publisher").expect("publisher has one input");
    assert_eq!(receiver_cfg, &file_exchange("channel_out"));
    let sender_cfg = flow.resolve_sender("consumer").expect("consumer has one output");
    assert_eq!(sender_cfg, &file_exchange("channel_out"));

    // The selector forms agree.
    assert!(flow.resolve_receiver_from("publisher", "channel").is_ok());
    assert!(flow.resolve_sender_to("consumer", "channel").is_ok());
}

fn multi_output_config() -> GraphConfig {
    GraphConfig {
        version: Version,
        processors: vec![id("p"), id("lonely")],
        exchanges: vec![
            (id("one"), file_exchange("one_out")),
            (id("two"), file_exchange("two_out")),
            (id("other"), file_exchange("other_out")),
        ],
        connections: vec![
            (id("one"), Connection { sink: Some(vec![id("p")]), source: None }),
            (id("two"), Connection { sink: Some(vec![id("p")]), source: None }),
            (id("other"), Connection { sink: None, source: Some(vec![id("p")]) }),
        ],
        modules: None,
    }
}

#[test]
fn resolve_sender_by_cardinality() {
    // No sink membership at all: no output available.
    let flow = Dataflow::from_config(GraphConfig {
        version: Version,
        processors: vec![id("p")],
        exchanges: vec![(id("e"), file_exchange("e_out"))],
        connections: vec![(id("e"), Connection { sink: None, source: Some(vec![id("p")]) })],
        modules: None,
    })
    .unwrap();
    assert_eq!(
        flow.resolve_sender("p").unwrap_err(),
        Error::NoOutputAvailable { processor: id("p") },
    );

    // Two sink memberships: the lookup must be disambiguated.
    let flow = Dataflow::from_config(multi_output_config()).unwrap();
    assert_eq!(
        flow.resolve_sender("p").unwrap_err(),
        Error::OutputNotSpecified { processor: id("p") },
    );

    // Exactly one sink membership: its configuration comes back.
    let flow = Dataflow::from_config(GraphConfig {
        version: Version,
        processors: vec![id("p")],
        exchanges: vec![(id("e"), file_exchange("e_out"))],
        connections: vec![(id("e"), Connection { sink: Some(vec![id("p")]), source: None })],
        modules: None,
    })
    .unwrap();
    assert_eq!(flow.resolve_sender("p").unwrap(), &file_exchange("e_out"));
}

#[test]
fn resolve_receiver_by_cardinality() {
    let flow = Dataflow::from_config(multi_output_config()).unwrap();
    // `p` has exactly one source membership.
    assert_eq!(flow.resolve_receiver("p").unwrap(), &file_exchange("other_out"));
    // `lonely` is declared but attached to nothing.
    assert_eq!(
        flow.resolve_receiver("lonely").unwrap_err(),
        Error::NoInputAvailable { processor: id("lonely") },
    );
    assert_eq!(
        flow.resolve_sender("lonely").unwrap_err(),
        Error::NoOutputAvailable { processor: id("lonely") },
    );
    // An undeclared processor is reported as such.
    assert_eq!(
        flow.resolve_receiver("stranger").unwrap_err(),
        Error::ProcessorNotFound { processor: id("stranger") },
    );
}

#[test]
fn ambiguous_input_reports_input_not_specified() {
    let flow = Dataflow::from_config(GraphConfig {
        version: Version,
        processors: vec![id("p")],
        exchanges: vec![
            (id("one"), file_exchange("one_out")),
            (id("two"), file_exchange("two_out")),
        ],
        connections: vec![
            (id("one"), Connection { sink: None, source: Some(vec![id("p")]) }),
            (id("two"), Connection { sink: None, source: Some(vec![id("p")]) }),
        ],
        modules: None,
    })
    .unwrap();
    assert_eq!(
        flow.resolve_receiver("p").unwrap_err(),
        Error::InputNotSpecified { processor: id("p") },
    );
    // The selector form still reaches either input.
    assert_eq!(flow.resolve_receiver_from("p", "one").unwrap(), &file_exchange("one_out"));
    assert_eq!(flow.resolve_receiver_from("p", "two").unwrap(), &file_exchange("two_out"));
}

#[test]
fn selector_requires_membership() {
    let flow = Dataflow::from_config(multi_output_config()).unwrap();

    // Membership on the sink side: the selector form succeeds.
    assert_eq!(flow.resolve_sender_to("p", "one").unwrap(), &file_exchange("one_out"));
    assert_eq!(flow.resolve_sender_to("p", "two").unwrap(), &file_exchange("two_out"));

    // `other` exists as an exchange but `p` is not in its sink set.
    assert_eq!(
        flow.resolve_sender_to("p", "other").unwrap_err(),
        Error::ConnectionError { processor: id("p"), exchange: Key::parse("other").unwrap() },
    );

    // A processor with no record on that side gets the same error.
    assert_eq!(
        flow.resolve_sender_to("lonely", "one").unwrap_err(),
        Error::ConnectionError { processor: id("lonely"), exchange: Key::parse("one").unwrap() },
    );

    // An undeclared processor is reported first.
    assert_eq!(
        flow.resolve_sender_to("stranger", "one").unwrap_err(),
        Error::ProcessorNotFound { processor: id("stranger") },
    );
}

#[test]
fn sink_membership_attributes_the_exchange() {
    // Exchange `E` lists `P` in its sink set, so the sender-eligible
    // set of `P` holds `E` after construction.
    let flow = Dataflow::from_config(GraphConfig {
        version: Version,
        processors: vec![id("P"), id("Q")],
        exchanges: vec![(id("E"), file_exchange("e_out"))],
        connections: vec![(
            id("E"),
            Connection { sink: Some(vec![id("P")]), source: Some(vec![id("Q")]) },
        )],
        modules: None,
    })
    .unwrap();
    assert!(flow.resolve_sender_to("P", "E").is_ok());
    // It is attributed to `P` only on the sink side, and not to `Q`.
    assert!(flow.resolve_sender_to("Q", "E").is_err());
    assert!(flow.resolve_receiver_from("Q", "E").is_ok());
    assert!(flow.resolve_receiver_from("P", "E").is_err());
}

#[test]
fn lookups_are_order_independent() {
    let flow = Dataflow::from_config(multi_output_config()).unwrap();

    let first_p = flow.resolve_receiver("p").map(|c| c.clone());
    let first_lonely = flow.resolve_receiver("lonely").map(|c| c.clone());

    // The same lookups in the opposite order observe the same results.
    let second_lonely = flow.resolve_receiver("lonely").map(|c| c.clone());
    let second_p = flow.resolve_receiver("p").map(|c| c.clone());

    assert_eq!(first_p.unwrap(), second_p.unwrap());
    assert_eq!(first_lonely.unwrap_err(), second_lonely.unwrap_err());
}

#[test]
fn dataflow_retains_the_raw_configuration() {
    let flow = Dataflow::from_config(pubsub_config()).unwrap();
    assert_eq!(flow.config(), &pubsub_config());
    assert_eq!(flow.bindings().len(), 1);
    assert_eq!(flow.bindings()[0].0, "/conf/sub.json5");
    assert_eq!(flow.bindings()[0].1.to_text(), "sub");
}

#[test]
fn connection_sides_default_to_empty() {
    let conn = Connection { sink: None, source: None };
    assert!(conn.sink_iter().is_empty());
    assert!(conn.source_iter().is_empty());
    let conn = Connection { sink: Some(vec![id("a"), id("b")]), source: None };
    assert_eq!(conn.sink_iter(), vec![id("a"), id("b")]);
    assert!(conn.source_iter().is_empty());
}

#[test]
fn error_constructors_embed_the_names() {
    assert_eq!(
        Error::processor_not_found("p"),
        Error::ProcessorNotFound { processor: id("p") },
    );
    assert_eq!(
        Error::exchange_not_found("a/b"),
        Error::ExchangeNotFound { exchange: Key::parse("a/b").unwrap() },
    );
    assert_eq!(
        Error::no_input_available("p"),
        Error::NoInputAvailable { processor: id("p") },
    );
    assert_eq!(
        Error::no_output_available("p"),
        Error::NoOutputAvailable { processor: id("p") },
    );
    assert_eq!(
        Error::input_not_specified("p"),
        Error::InputNotSpecified { processor: id("p") },
    );
    assert_eq!(
        Error::output_not_specified("p"),
        Error::OutputNotSpecified { processor: id("p") },
    );
    assert_eq!(
        Error::connection_error("p", "e"),
        Error::ConnectionError { processor: id("p"), exchange: Key::parse("e").unwrap() },
    );
}

#[test]
fn amqp_overflow_follows_reliability() {
    let reliable = easyflow::link::amqp::Config {
        address: "amqp://localhost".to_string(),
        exchange: "ex".to_string(),
        queue: None,
        max_length: Some(16),
        message_ttl_millis: None,
        reliable: true,
        force: false,
    };
    assert_eq!(reliable.overflow(), easyflow::link::amqp::Overflow::RejectPublish);
    let unreliable = easyflow::link::amqp::Config { reliable: false, ..reliable };
    assert_eq!(unreliable.overflow(), easyflow::link::amqp::Overflow::DropHead);
}

#[test]
fn empty_configuration_resolves_nothing() {
    let flow = Dataflow::from_config(GraphConfig {
        version: Version,
        processors: Vec::new(),
        exchanges: Vec::new(),
        connections: Vec::new(),
        modules: None,
    })
    .expect("an empty configuration is valid");
    assert!(flow.processors().is_empty());
    assert!(flow.exchanges().is_empty());
    assert!(flow.bindings().is_empty());
    assert_eq!(
        flow.resolve_receiver("p").unwrap_err(),
        Error::ProcessorNotFound { processor: id("p") },
    );
}

#[test]
fn null_exchange_resolves_like_any_other() {
    let null_cfg = Config::Null(easyflow::link::null::Config {
        recv: easyflow::link::null::ReceiverKind::Empty,
    });
    let flow = Dataflow::from_config(GraphConfig {
        version: Version,
        processors: vec![id("p")],
        exchanges: vec![(id("drain"), null_cfg.clone())],
        connections: vec![(id("drain"), Connection { sink: Some(vec![id("p")]), source: None })],
        modules: None,
    })
    .unwrap();
    assert_eq!(flow.resolve_sender("p").unwrap(), &null_cfg);
}
