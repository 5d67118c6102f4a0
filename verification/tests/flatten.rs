use easyflow::link::Config;
use easyflow::{Connection, FlattenError, GraphConfig, Ident, Key, Module, Version};

fn id(text: &str) -> Ident {
    Ident::new(text).expect("valid identifier")
}

fn file_exchange(dir: &str) -> Config {
    Config::File(easyflow::link::file::Config { dir: dir.to_string(), auto_clean: false })
}

fn key_of(text: &str) -> Key {
    Key::parse(text).expect("valid key text")
}

/// Look up a flat exchange entry by its `/`-joined key text.
fn exchange_at<'a>(entries: &'a [(Key, Config)], text: &str) -> Option<&'a Config> {
    entries.iter().find(|(k, _)| k.to_text() == text).map(|(_, c)| c)
}

#[test]
fn undeclared_processor_fails_flattening() {
    let graph = GraphConfig {
        version: Version,
        processors: vec![id("alice")],
        exchanges: vec![(id("wire"), file_exchange("wire_out"))],
        connections: vec![(
            id("wire"),
            Connection { sink: Some(vec![id("bob")]), source: None },
        )],
        modules: None,
    };
    let err = graph.flatten().expect_err("bob is not declared");
    assert_eq!(err, FlattenError::ProcessorNotDeclared(id("bob")));
}

#[test]
fn undeclared_exchange_fails_flattening() {
    let graph = GraphConfig {
        version: Version,
        processors: vec![id("alice")],
        exchanges: vec![(id("wire"), file_exchange("wire_out"))],
        connections: vec![(
            id("missing"),
            Connection { sink: Some(vec![id("alice")]), source: None },
        )],
        modules: None,
    };
    let err = graph.flatten().expect_err("the exchange is not declared");
    assert_eq!(err, FlattenError::ExchangeNotDeclared(id("missing")));
}

#[test]
fn validation_failure_inside_module_fails_the_tree() {
    let bad = GraphConfig {
        version: Version,
        processors: Vec::new(),
        exchanges: vec![(id("wire"), file_exchange("wire_out"))],
        connections: vec![(
            id("wire"),
            Connection { sink: None, source: Some(vec![id("ghost")]) },
        )],
        modules: None,
    };
    let root = GraphConfig {
        version: Version,
        processors: vec![id("alice")],
        exchanges: Vec::new(),
        connections: Vec::new(),
        modules: Some(vec![Module {
            name: id("inner"),
            path: "/conf/inner.json5".to_string(),
            graph: bad,
        }]),
    };
    let err = root.flatten().expect_err("the included unit is invalid");
    assert_eq!(err, FlattenError::ProcessorNotDeclared(id("ghost")));
}

#[test]
fn module_namespaces_exchanges_but_not_processors() {
    let inner = GraphConfig {
        version: Version,
        processors: vec![id("myproc")],
        exchanges: vec![(id("feed"), file_exchange("feed_out"))],
        connections: vec![(
            id("feed"),
            Connection { sink: Some(vec![id("myproc")]), source: None },
        )],
        modules: None,
    };
    let root = GraphConfig {
        version: Version,
        processors: Vec::new(),
        exchanges: Vec::new(),
        connections: Vec::new(),
        modules: Some(vec![Module {
            name: id("outer"),
            path: "/conf/outer.json5".to_string(),
            graph: inner,
        }]),
    };
    let flat = root.flatten().expect("the tree is valid");

    // The processor keeps its bare name in the flat namespace.
    assert_eq!(flat.processors, vec![id("myproc")]);

    // The exchange is reachable only under the module prefix.
    assert!(exchange_at(&flat.exchanges, "outer/feed").is_some());
    assert!(exchange_at(&flat.exchanges, "feed").is_none());

    // The connection key is namespaced the same way.
    assert_eq!(flat.connections.len(), 1);
    assert_eq!(flat.connections[0].0, key_of("outer/feed"));

    // The module file is bound at its mount point.
    assert_eq!(flat.bindings.len(), 1);
    assert_eq!(flat.bindings[0].0, "/conf/outer.json5");
    assert_eq!(flat.bindings[0].1.to_text(), "outer");
}

#[test]
fn nested_modules_stack_prefixes() {
    let leaf = GraphConfig {
        version: Version,
        processors: vec![id("worker")],
        exchanges: vec![(id("queue"), file_exchange("queue_out"))],
        connections: Vec::new(),
        modules: None,
    };
    let mid = GraphConfig {
        version: Version,
        processors: Vec::new(),
        exchanges: Vec::new(),
        connections: Vec::new(),
        modules: Some(vec![Module {
            name: id("inner"),
            path: "/conf/mid/inner.json5".to_string(),
            graph: leaf,
        }]),
    };
    let root = GraphConfig {
        version: Version,
        processors: Vec::new(),
        exchanges: vec![(id("top"), file_exchange("top_out"))],
        connections: Vec::new(),
        modules: Some(vec![Module {
            name: id("outer"),
            path: "/conf/mid.json5".to_string(),
            graph: mid,
        }]),
    };
    let flat = root.flatten().expect("the tree is valid");
    assert!(exchange_at(&flat.exchanges, "top").is_some());
    assert!(exchange_at(&flat.exchanges, "outer/inner/queue").is_some());
    assert_eq!(flat.processors, vec![id("worker")]);
    assert_eq!(flat.bindings.len(), 2);
    assert_eq!(flat.bindings[0].1.to_text(), "outer");
    assert_eq!(flat.bindings[1].1.to_text(), "outer/inner");
}

#[test]
fn duplicate_processor_names_collapse() {
    let inner = GraphConfig {
        version: Version,
        processors: vec![id("shared")],
        exchanges: Vec::new(),
        connections: Vec::new(),
        modules: None,
    };
    let root = GraphConfig {
        version: Version,
        processors: vec![id("shared"), id("own")],
        exchanges: Vec::new(),
        connections: Vec::new(),
        modules: Some(vec![Module {
            name: id("sub"),
            path: "/conf/sub.json5".to_string(),
            graph: inner,
        }]),
    };
    let flat = root.flatten().expect("the tree is valid");
    assert_eq!(flat.processors, vec![id("shared"), id("own")]);
}

#[test]
fn merge_unchecked_unions_both_sides() {
    let left = GraphConfig {
        version: Version,
        processors: vec![id("a")],
        exchanges: vec![(id("one"), file_exchange("one_out"))],
        connections: Vec::new(),
        modules: None,
    }
    .flatten()
    .unwrap();
    let right = GraphConfig {
        version: Version,
        processors: vec![id("b"), id("a")],
        exchanges: vec![(id("two"), file_exchange("two_out"))],
        connections: Vec::new(),
        modules: None,
    }
    .flatten()
    .unwrap();
    let merged = left.merge_unchecked(right);
    assert_eq!(merged.processors, vec![id("a"), id("b")]);
    assert!(exchange_at(&merged.exchanges, "one").is_some());
    assert!(exchange_at(&merged.exchanges, "two").is_some());
}

#[test]
fn first_violation_wins_in_level_then_recursion_order() {
    // The level's processor checks come before its exchange checks, a
    // connection's sink side before its source side, and the current
    // level before its modules.
    let inner_bad = GraphConfig {
        version: Version,
        processors: Vec::new(),
        exchanges: vec![(id("wire"), file_exchange("wire_out"))],
        connections: vec![(
            id("wire"),
            Connection { sink: Some(vec![id("late")]), source: None },
        )],
        modules: None,
    };
    let root = GraphConfig {
        version: Version,
        processors: vec![id("alice")],
        exchanges: vec![(id("wire"), file_exchange("wire_out"))],
        connections: vec![
            (
                id("wire"),
                Connection {
                    sink: Some(vec![id("alice"), id("early")]),
                    source: Some(vec![id("later")]),
                },
            ),
            (id("ghostly"), Connection { sink: None, source: None }),
        ],
        modules: Some(vec![Module {
            name: id("sub"),
            path: "/conf/sub.json5".to_string(),
            graph: inner_bad,
        }]),
    };
    let err = root.flatten().expect_err("several violations exist");
    assert_eq!(err, FlattenError::ProcessorNotDeclared(id("early")));
}

#[test]
fn exchange_violation_reported_after_processor_checks() {
    let graph = GraphConfig {
        version: Version,
        processors: vec![id("alice")],
        exchanges: Vec::new(),
        connections: vec![
            (id("first"), Connection { sink: Some(vec![id("alice")]), source: None }),
            (id("second"), Connection { sink: None, source: None }),
        ],
        modules: None,
    };
    let err = graph.flatten().expect_err("no exchange is declared");
    assert_eq!(err, FlattenError::ExchangeNotDeclared(id("first")));
}
