use did::{
    Component, DecentralizedIdentifer, DecentralizedIdentiferParam, DecentralizedIdentiferParams,
    DecentralizedIdentiferPath, DecentralizedIdentiferUrl, Error, Stage,
};

fn ids(d: &DecentralizedIdentifer) -> Vec<String> {
    d.identifiers().to_vec()
}

fn pairs(ps: &DecentralizedIdentiferParams) -> Vec<(String, Option<String>)> {
    (0..ps.len())
        .map(|i| {
            let p = ps.get(i);
            (p.name().to_string(), p.value().map(|v| v.to_string()))
        })
        .collect()
}

#[test]
fn decode_empty_identifiers() {
    let d = DecentralizedIdentifer::decode("did:example:").unwrap();
    assert_eq!(d.method(), "example");
    assert!(ids(&d).is_empty());
    assert_eq!(d.encode(), "did:example:");
}

#[test]
fn decode_uppercase_method_fails() {
    let e = DecentralizedIdentifer::decode("did:EXAMPLE:abc").unwrap_err();
    assert!(matches!(e, Error::MalformedInput(Stage::Did, ref t) if t == "did:EXAMPLE:abc"));
    assert!(DecentralizedIdentiferUrl::decode("did:EXAMPLE:abc").is_err());
}

#[test]
fn decode_three_segments() {
    let d = DecentralizedIdentifer::decode("did:example:a:b:c").unwrap();
    assert_eq!(ids(&d), vec!["a", "b", "c"]);
}

#[test]
fn decode_inner_empty_segment() {
    let d = DecentralizedIdentifer::decode("did:example:a::b").unwrap();
    assert_eq!(ids(&d), vec!["a", "", "b"]);
}

#[test]
fn decode_full_url() {
    let u = DecentralizedIdentiferUrl::decode("did:example:123;service=agent?view=full#key-1")
        .unwrap();
    assert_eq!(u.did().method(), "example");
    assert_eq!(ids(u.did()), vec!["123"]);
    assert_eq!(pairs(u.params()), vec![("service".to_string(), Some("agent".to_string()))]);
    assert_eq!(u.path().path(), None);
    assert_eq!(pairs(u.path().params()), vec![("view".to_string(), Some("full".to_string()))]);
    assert_eq!(u.path().fragment(), Some("key-1"));
    assert_eq!(u.encode(), "did:example:123;service=agent?view=full#key-1");
}

#[test]
fn decode_valueless_method_param() {
    let u = DecentralizedIdentiferUrl::decode("did:example:123;admin").unwrap();
    assert_eq!(pairs(u.params()), vec![("admin".to_string(), None)]);
}

#[test]
fn decode_rejects_missing_method_colon() {
    assert!(DecentralizedIdentifer::decode("did:example").is_err());
    assert!(DecentralizedIdentifer::decode("did::abc").is_err());
    assert!(DecentralizedIdentifer::decode("dad:example:abc").is_err());
    assert!(DecentralizedIdentifer::decode("").is_err());
}

#[test]
fn decode_did_rejects_trailing_text() {
    assert!(DecentralizedIdentifer::decode("did:example:abc;x").is_err());
    assert!(DecentralizedIdentifer::decode("did:example:a b").is_err());
}

#[test]
fn decode_url_with_path_and_escapes() {
    let u = DecentralizedIdentiferUrl::decode(
        "did:method:example123:example456;cool;param:name=1;done=now/a/b%20c?cool=1&what#a-fragment",
    )
    .unwrap();
    assert_eq!(ids(u.did()), vec!["example123", "example456"]);
    assert_eq!(
        pairs(u.params()),
        vec![
            ("cool".to_string(), None),
            ("param:name".to_string(), Some("1".to_string())),
            ("done".to_string(), Some("now".to_string())),
        ]
    );
    assert_eq!(u.path().path(), Some("/a/b%20c"));
    assert_eq!(
        pairs(u.path().params()),
        vec![("cool".to_string(), Some("1".to_string())), ("what".to_string(), None)]
    );
    assert_eq!(u.path().fragment(), Some("a-fragment"));
}

#[test]
fn decode_url_empty_query_and_fragment_are_absent() {
    let u = DecentralizedIdentiferUrl::decode("did:example:123?#").unwrap();
    assert_eq!(pairs(u.path().params()), vec![]);
    assert_eq!(u.path().fragment(), None);
    assert_eq!(u.path().path(), None);
    assert_eq!(u.encode(), "did:example:123");
}

#[test]
fn decode_url_tolerates_empty_query_pieces() {
    let u = DecentralizedIdentiferUrl::decode("did:example:123?&a&&b=&").unwrap();
    assert_eq!(
        pairs(u.path().params()),
        vec![("a".to_string(), None), ("b".to_string(), None)]
    );
    assert_eq!(u.encode(), "did:example:123?a&b");
}

#[test]
fn decode_url_bad_query_piece_is_named() {
    let e = DecentralizedIdentiferUrl::decode("did:example:123?a=b=c&d").unwrap_err();
    assert!(matches!(e, Error::MalformedInput(Stage::Param, ref t) if t == "a=b=c"));
}

#[test]
fn decode_url_rejects_empty_method_param() {
    let e = DecentralizedIdentiferUrl::decode("did:example:123;;a").unwrap_err();
    assert!(matches!(e, Error::MalformedInput(Stage::DidUrl, _)));
    assert!(DecentralizedIdentiferUrl::decode("did:example:123;a=b=c").is_err());
    assert!(DecentralizedIdentiferUrl::decode("did:example:123;%zz").is_err());
    assert!(DecentralizedIdentiferUrl::decode("did:example:123#a#b").is_err());
    assert!(DecentralizedIdentiferUrl::decode("did:example:123/a b").is_err());
}

#[test]
fn decode_never_panics_on_odd_input() {
    let inputs = [
        "", "d", "did", "did:", "did:a", "did:a:", "did:a:%", "did:a:;", "did:a:;=", "did:a:/%4",
        "did:a:?%", "did:a:#%g0", "did:é:x", "did:a:é", "did:a:b?é", "\u{0}", "did:a:b;c=%41",
    ];
    for s in inputs.iter() {
        let _ = DecentralizedIdentifer::decode(s);
        let _ = DecentralizedIdentiferUrl::decode(s);
        let _ = DecentralizedIdentiferParams::decode(s, ';');
        let _ = DecentralizedIdentiferParam::decode(s);
    }
    assert!(DecentralizedIdentiferUrl::decode("did:a:b;c=%41").is_ok());
}

#[test]
fn did_round_trip() {
    let d = DecentralizedIdentifer::new("method")
        .unwrap()
        .add_identifier("example123")
        .unwrap()
        .add_identifier("")
        .unwrap()
        .add_identifier("ex.am-ple_4")
        .unwrap();
    let text = d.encode();
    assert_eq!(text, "did:method:example123::ex.am-ple_4");
    let back = DecentralizedIdentifer::decode(&text).unwrap();
    assert_eq!(back.method(), "method");
    assert_eq!(ids(&back), ids(&d));
    assert_eq!(back.encode(), text);
}

#[test]
fn single_empty_segment_encodes_as_no_segments() {
    let d = DecentralizedIdentifer::new("m").unwrap().add_identifier("").unwrap();
    let text = d.encode();
    assert_eq!(text, "did:m:");
    let back = DecentralizedIdentifer::decode(&text).unwrap();
    assert!(ids(&back).is_empty());
    assert_eq!(back.encode(), text);
}

#[test]
fn params_round_trip_both_separators() {
    let mut ps = DecentralizedIdentiferParams::new();
    ps.push(DecentralizedIdentiferParam::new("a", Some("1")).unwrap());
    ps.push(DecentralizedIdentiferParam::new("b", None).unwrap());
    ps.push(DecentralizedIdentiferParam::new("a", Some("%41:x")).unwrap());
    ps.push(DecentralizedIdentiferParam::new("c", Some("")).unwrap());
    for sep in [';', '&'] {
        let text = ps.encode(sep);
        let back = DecentralizedIdentiferParams::decode(&text, sep).unwrap();
        assert_eq!(pairs(&back), pairs(&ps));
    }
    assert_eq!(ps.encode(';'), ";a=1;b;a=%41:x;c");
    assert_eq!(ps.encode('&'), "&a=1&b&a=%41:x&c");
}

#[test]
fn params_decode_skips_empty_pieces() {
    let ps = DecentralizedIdentiferParams::decode(";;a=1;;b;", ';').unwrap();
    assert_eq!(pairs(&ps), vec![("a".to_string(), Some("1".to_string())), ("b".to_string(), None)]);
    assert_eq!(DecentralizedIdentiferParams::decode("", '&').unwrap().len(), 0);
}

#[test]
fn param_decode_splits_at_first_equals() {
    let p = DecentralizedIdentiferParam::decode("name=").unwrap();
    assert_eq!(p.name(), "name");
    assert_eq!(p.value(), None);
    let e = DecentralizedIdentiferParam::decode("=v").unwrap_err();
    assert!(matches!(e, Error::MalformedInput(Stage::Param, ref t) if t == "=v"));
    assert!(DecentralizedIdentiferParam::decode("a=b=c").is_err());
    assert_eq!(p.encode(), "name");
}

#[test]
fn builders_validate_components() {
    assert!(matches!(
        DecentralizedIdentifer::new("Bad").unwrap_err(),
        Error::InvalidComponent(Component::Method)
    ));
    assert!(matches!(
        DecentralizedIdentifer::new("").unwrap_err(),
        Error::InvalidComponent(Component::Method)
    ));
    let d = DecentralizedIdentifer::new("m").unwrap();
    assert!(matches!(
        d.add_identifier("a:b").unwrap_err(),
        Error::InvalidComponent(Component::Identifier)
    ));
    assert!(matches!(
        DecentralizedIdentiferParam::new("", None).unwrap_err(),
        Error::InvalidComponent(Component::ParamName)
    ));
    assert!(matches!(
        DecentralizedIdentiferParam::new("a", Some("x=y")).unwrap_err(),
        Error::InvalidComponent(Component::ParamValue)
    ));
    let mut path = DecentralizedIdentiferPath::new();
    assert!(matches!(
        path.set_path(Some("no-slash".to_string())).unwrap_err(),
        Error::InvalidComponent(Component::Path)
    ));
    assert!(matches!(
        path.set_fragment(Some("a#b".to_string())).unwrap_err(),
        Error::InvalidComponent(Component::Fragment)
    ));
    assert_eq!(path.path(), None);
    path.set_path(Some("".to_string())).unwrap();
    assert_eq!(path.path(), None);
}

#[test]
fn remove_identifier_removes_every_occurrence() {
    let d = DecentralizedIdentifer::new("m")
        .unwrap()
        .add_identifier("a")
        .unwrap()
        .add_identifier("b")
        .unwrap()
        .add_identifier("a")
        .unwrap()
        .remove_identifier("a");
    assert_eq!(ids(&d), vec!["b"]);
    assert_eq!(d.encode(), "did:m:b");
}

#[test]
fn url_built_and_encoded() {
    let did = DecentralizedIdentifer::new("example").unwrap().add_identifier("123").unwrap();
    let mut url = DecentralizedIdentiferUrl::new(did);
    let mut mp = DecentralizedIdentiferParams::new();
    mp.push(DecentralizedIdentiferParam::new("service", Some("agent")).unwrap());
    url.set_params(mp);
    let mut path = DecentralizedIdentiferPath::new();
    path.set_path(Some("/keys/1".to_string())).unwrap();
    let mut q = DecentralizedIdentiferParams::new();
    q.push(DecentralizedIdentiferParam::new("view", Some("full")).unwrap());
    q.push(DecentralizedIdentiferParam::new("x", None).unwrap());
    path.set_params(q);
    path.set_fragment(Some("key-1".to_string())).unwrap();
    url.set_path(path);
    let text = url.encode();
    assert_eq!(text, "did:example:123;service=agent/keys/1?view=full&x#key-1");
    let back = DecentralizedIdentiferUrl::decode(&text).unwrap();
    assert_eq!(back.encode(), text);
    assert_eq!(back.path().path(), Some("/keys/1"));
}

#[test]
fn error_messages() {
    let e = DecentralizedIdentifer::decode("x").unwrap_err();
    assert_eq!(e.message(), "could not parse DID: x");
    let e = DecentralizedIdentiferUrl::decode("did:a:b?x=y=z").unwrap_err();
    assert_eq!(e.message(), "could not parse parameter: x=y=z");
    let e = DecentralizedIdentifer::new("A").unwrap_err();
    assert_eq!(e.message(), "invalid method");
}

#[test]
fn defaults_are_empty() {
    let p = DecentralizedIdentiferPath::default();
    assert_eq!(p.path(), None);
    assert_eq!(p.fragment(), None);
    assert_eq!(p.params().len(), 0);
    assert_eq!(DecentralizedIdentiferParams::default().len(), 0);
    assert_eq!(p.encode(), "");
}

#[test]
fn long_inputs_decode_quickly() {
    let mut text = String::from("did:a:");
    for _ in 0..100000 {
        text.push_str("b:");
    }
    let d = DecentralizedIdentifer::decode(&text).unwrap();
    assert_eq!(d.identifiers().len(), 100001);
    let mut url = String::from("did:a:b");
    for _ in 0..50000 {
        url.push_str(";x=%41");
    }
    url.push_str("?");
    for _ in 0..50000 {
        url.push_str("&&q");
    }
    url.push_str("#");
    let u = DecentralizedIdentiferUrl::decode(&url).unwrap();
    assert_eq!(u.params().len(), 50000);
    assert_eq!(u.path().params().len(), 50000);
    let bad = format!("{};", url.trim_end_matches('#'));
    let e = DecentralizedIdentiferUrl::decode(&bad).unwrap_err();
    assert!(matches!(e, Error::MalformedInput(Stage::Param, ref t) if t == "q;"));
}
