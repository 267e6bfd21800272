use roead::byml::Byml;
use roead::aamp::AampError;

fn roundtrip(b: &Byml) -> Byml {
    let text = b.to_text().unwrap();
    Byml::from_text(&text).unwrap()
}

#[test]
fn u32_hex_round_trip() {
    let b = Byml::from_text("!u 0xdeadbeef").unwrap();
    assert_eq!(b, Byml::U32(0xDEADBEEF));
    let arr = Byml::Array(vec![Byml::U32(0xDEADBEEF)]);
    assert_eq!(roundtrip(&arr), arr);
}

#[test]
fn tagged_int_document() {
    let b = Byml::from_text("{a: !l 9999999999, b: [1, 2, 3]}").unwrap();
    let expected = Byml::Hash(vec![
        ("a".to_string(), Byml::I64(9999999999)),
        (
            "b".to_string(),
            Byml::Array(vec![Byml::I32(1), Byml::I32(2), Byml::I32(3)]),
        ),
    ]);
    assert_eq!(b, expected);
}

#[test]
fn null_root_emits_literal_null() {
    assert_eq!(Byml::Null.to_text().unwrap(), "null");
    assert_eq!(Byml::from_text("null").unwrap(), Byml::Null);
    assert_eq!(Byml::from_text("~").unwrap(), Byml::Null);
    assert_eq!(Byml::from_text("   ").unwrap(), Byml::Null);
}

#[test]
fn scalar_roots_are_refused() {
    assert!(matches!(
        Byml::Bool(true).to_text(),
        Err(AampError::InvalidData(_))
    ));
    assert!(matches!(Byml::I32(4).to_text(), Err(AampError::InvalidData(_))));
}

#[test]
fn empty_containers() {
    let arr = Byml::Array(vec![]);
    assert_eq!(roundtrip(&arr), arr);
    let hash = Byml::Hash(vec![]);
    assert_eq!(roundtrip(&hash), hash);
    assert_eq!(Byml::from_text("[]").unwrap(), Byml::Array(vec![]));
    assert_eq!(Byml::from_text("{}").unwrap(), Byml::Hash(vec![]));
}

#[test]
fn single_element_containers() {
    let arr = Byml::Array(vec![Byml::I32(7)]);
    assert_eq!(roundtrip(&arr), arr);
    let hash = Byml::Hash(vec![("only".to_string(), Byml::Bool(false))]);
    assert_eq!(roundtrip(&hash), hash);
}

#[test]
fn every_numeric_kind_round_trips() {
    let tree = Byml::Hash(vec![
        ("a".to_string(), Byml::I32(-42)),
        ("b".to_string(), Byml::U32(0xFFFFFFFF)),
        ("c".to_string(), Byml::I64(-9999999999)),
        ("d".to_string(), Byml::U64(0xFFFFFFFFFFFFFFFF)),
        ("e".to_string(), Byml::Float(3.5f32.to_bits())),
        ("f".to_string(), Byml::Double(2.25f64.to_bits())),
        ("g".to_string(), Byml::Bool(true)),
        ("h".to_string(), Byml::Null),
    ]);
    assert_eq!(roundtrip(&tree), tree);
}

#[test]
fn float_widths_are_preserved() {
    let b = Byml::from_text("[1.5, !f64 1.5]").unwrap();
    assert_eq!(
        b,
        Byml::Array(vec![
            Byml::Float(1.5f32.to_bits()),
            Byml::Double(1.5f64.to_bits()),
        ])
    );
    let weird = Byml::Array(vec![
        Byml::Float(0.1f32.to_bits()),
        Byml::Double(0.1f64.to_bits()),
    ]);
    assert_eq!(roundtrip(&weird), weird);
}

#[test]
fn untagged_integer_escalates_on_overflow() {
    let b = Byml::from_text("[2147483647, 2147483648, -2147483648, -2147483649]").unwrap();
    assert_eq!(
        b,
        Byml::Array(vec![
            Byml::I32(2147483647),
            Byml::I64(2147483648),
            Byml::I32(-2147483648),
            Byml::I64(-2147483649),
        ])
    );
}

#[test]
fn binary_blobs_round_trip() {
    for data in [
        vec![],
        vec![0xAB],
        vec![1, 2, 3],
        (0..65536u32).map(|i| (i % 251) as u8).collect::<Vec<u8>>(),
    ] {
        let tree = Byml::Array(vec![Byml::BinaryData(data)]);
        assert_eq!(roundtrip(&tree), tree);
    }
}

#[test]
fn strings_needing_quotes_round_trip() {
    let cases = [
        "true", "null", "0x10", ":", " true", " null", " 0x10", " :", "false", "~", "12",
        "-3", "1.5", "a b", "plain", "with \"quotes\"", "line\nbreak", "tab\there", "",
    ];
    let tree = Byml::Array(
        cases
            .iter()
            .map(|s| Byml::String(s.to_string()))
            .collect::<Vec<Byml>>(),
    );
    assert_eq!(roundtrip(&tree), tree);
}

#[test]
fn quoted_scalars_stay_strings() {
    let b = Byml::from_text("[\"true\", \"0x10\", \"12\", \"null\", \"\"]").unwrap();
    assert_eq!(
        b,
        Byml::Array(vec![
            Byml::String("true".to_string()),
            Byml::String("0x10".to_string()),
            Byml::String("12".to_string()),
            Byml::String("null".to_string()),
            Byml::String("".to_string()),
        ])
    );
}

#[test]
fn hash_keys_are_sorted_on_parse_and_emit() {
    let b = Byml::from_text("{zeta: 1, alpha: 2, 'mid key': 3}").unwrap();
    match &b {
        Byml::Hash(entries) => {
            let keys: Vec<&str> = entries.iter().map(|e| e.0.as_str()).collect();
            assert_eq!(keys, vec!["alpha", "mid key", "zeta"]);
        }
        _ => panic!("expected a hash"),
    }
    assert_eq!(roundtrip(&b), b);
}

#[test]
fn nested_containers_round_trip() {
    let tree = Byml::Hash(vec![
        (
            "deep".to_string(),
            Byml::Array(vec![
                Byml::Hash(vec![("k".to_string(), Byml::Array(vec![Byml::Null]))]),
                Byml::Array((0..12).map(Byml::I32).collect()),
            ]),
        ),
        ("flat".to_string(), Byml::Array(vec![Byml::I32(1), Byml::Bool(false)])),
    ]);
    assert_eq!(roundtrip(&tree), tree);
    let text = tree.to_text().unwrap();
    let reparsed = Byml::from_text(&text).unwrap();
    assert_eq!(reparsed.to_text().unwrap(), text);
}

#[test]
fn malformed_documents_are_refused() {
    assert!(Byml::from_text("[1, 2").is_err());
    assert!(Byml::from_text("{a: 1").is_err());
    assert!(Byml::from_text("{a 1}").is_err());
    assert!(Byml::from_text("[1] trailing").is_err());
    assert!(Byml::from_text("\"unterminated").is_err());
    assert!(matches!(
        Byml::from_text("!u notanumber"),
        Err(AampError::InvalidData(_))
    ));
    assert!(matches!(
        Byml::from_text("[!!binary \"???\"]"),
        Err(AampError::InvalidData(_))
    ));
}

#[test]
fn emitted_text_is_deterministic() {
    let tree = Byml::Hash(vec![
        ("b".to_string(), Byml::Array(vec![Byml::I32(1), Byml::I32(2)])),
        ("a".to_string(), Byml::U64(77)),
    ]);
    assert_eq!(tree.to_text().unwrap(), tree.to_text().unwrap());
}

#[test]
fn from_text_to_text_round_trip() {
    let docs = [
        "{a: !l 9999999999, b: [1, 2, 3]}",
        "[!u 0xdeadbeef, !ul 0xffffffffffffffff, -7, 1.25, !f64 1.25, true, null, word]",
        "{outer: {inner: [\"0x10\", {}, []]}, 'a key': !!binary AQID}",
        "[[1, 2], [3, [4, [5]]], {x: y}]",
        "[!!binary \"\", plain scalar]",
    ];
    for doc in docs {
        let once = Byml::from_text(doc).unwrap();
        let twice = Byml::from_text(&once.to_text().unwrap()).unwrap();
        assert_eq!(twice, once, "round trip failed for {doc:?}");
    }
}

#[test]
fn duplicate_mapping_keys_are_refused() {
    assert!(matches!(
        Byml::from_text("{a: 1, a: 2}"),
        Err(AampError::InvalidData(_))
    ));
    assert!(matches!(
        Byml::from_text("{a: 1, b: {x: 1, x: 2}}"),
        Err(AampError::InvalidData(_))
    ));
    assert!(Byml::from_text("{a: 1, b: 2}").is_ok());
}

#[test]
fn emitted_text_shapes() {
    assert_eq!(Byml::Array(vec![]).to_text().unwrap(), "[]\n");
    assert_eq!(Byml::Hash(vec![]).to_text().unwrap(), "{}\n");
    assert_eq!(
        Byml::Array(vec![Byml::I32(1), Byml::I32(2)]).to_text().unwrap(),
        "[1, 2]\n"
    );
    assert_eq!(
        Byml::Hash(vec![
            ("b".to_string(), Byml::I32(2)),
            ("a".to_string(), Byml::U32(31)),
        ])
        .to_text()
        .unwrap(),
        "{a: !u 0x1f, b: 2}\n"
    );
    assert_eq!(
        Byml::Array(vec![Byml::Array(vec![Byml::I32(1)])]).to_text().unwrap(),
        "[\n  [1]\n]\n"
    );
}
