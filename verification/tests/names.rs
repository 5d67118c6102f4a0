use easyflow::{Dir, Ident, Key, Version};

fn id(text: &str) -> Ident {
    Ident::new(text).expect("valid identifier")
}

#[test]
fn ident_round_trip() {
    for text in ["a", "A-Z_09", "background-remove", "x_1", "0", "-", "_"] {
        let ident = id(text);
        assert_eq!(ident.as_str(), text);
        let again = Ident::new(ident.as_str()).expect("round trip parses");
        assert_eq!(again, ident);
    }
}

#[test]
fn ident_rejects_bad_text() {
    for text in ["", "a b", "a/b", "na\u{00ef}ve", "semi;colon", "dot.", "tab\t"] {
        assert!(Ident::new(text).is_none(), "{:?} should be rejected", text);
    }
}

#[test]
fn key_text_round_trip() {
    for text in ["a", "a/b", "outer/inner/leaf", "x-1/y_2/Z3"] {
        let key = Key::parse(text).expect("valid key text");
        assert_eq!(key.to_text(), text);
        let again = Key::parse(&key.to_text()).expect("round trip parses");
        assert_eq!(again, key);
    }
}

#[test]
fn key_rejects_bad_text() {
    for text in ["", "/", "a/", "/a", "a//b", "a b/c"] {
        assert!(Key::parse(text).is_none(), "{:?} should be rejected", text);
    }
}

#[test]
fn key_construction() {
    assert!(Key::new(Vec::new()).is_none());
    let key = Key::new(vec![id("a"), id("b")]).expect("non-empty");
    assert_eq!(key.to_text(), "a/b");
    assert!(!key.is_ident());
    assert!(key.as_ident().is_none());
    assert_eq!(key.last_ident(), &id("b"));

    let single = Key::new(vec![id("only")]).expect("non-empty");
    assert!(single.is_ident());
    assert_eq!(single.as_ident(), Some(&id("only")));
    assert_eq!(single.last_ident(), &id("only"));
}

#[test]
fn key_prepend_keeps_order() {
    let mut key = Key::parse("leaf").unwrap();
    key.prepend(&vec![id("outer"), id("inner")]);
    assert_eq!(key.to_text(), "outer/inner/leaf");
}

#[test]
fn ident_with_prefix() {
    let key = id("name").with_prefix(&vec![id("outer"), id("inner")]);
    assert_eq!(key.to_text(), "outer/inner/name");
    let bare = id("name").with_prefix(&Vec::new());
    assert_eq!(bare.to_text(), "name");
}

#[test]
fn dir_round_trip() {
    let root = Dir::parse("").expect("empty text is the root");
    assert_eq!(root.to_text(), "");
    let dir = Dir::parse("a/b").expect("valid dir text");
    assert_eq!(dir.to_text(), "a/b");
    assert!(Dir::parse("a//b").is_none());

    let from_key = Key::parse("x/y").unwrap().into_dir();
    assert_eq!(from_key.to_text(), "x/y");

    let built = Dir::new(vec![id("p"), id("q")]);
    assert_eq!(built.to_text(), "p/q");
}

#[test]
fn version_compatibility() {
    assert!(Version::parse("0.1.0").is_some());
    assert!(Version::parse("0.1.7").is_some());
    assert!(Version::parse("0.1.123").is_some());
    assert!(Version::parse("0.2.0").is_none());
    assert!(Version::parse("1.0.0").is_none());
    assert!(Version::parse("0.0.1").is_none());
    assert!(Version::parse("0.1").is_none());
    assert!(Version::parse("0.1.0.0").is_none());
    assert!(Version::parse("0.1.01").is_none());
    assert!(Version::parse("0.1.x").is_none());
    assert!(Version::parse("").is_none());
}
