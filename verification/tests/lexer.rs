use roead::byml::text::{is_binary_tag, recognize_tag, should_use_inline};
use roead::byml::Byml;
use roead::yaml::{
    i64_text, parse_int_token, parse_scalar, string_needs_quotes, u64_hex_text, Scalar,
    TagBasedType,
};

fn cv(s: &str) -> Vec<char> {
    s.chars().collect()
}

#[test]
fn integer_tokens() {
    assert_eq!(parse_int_token(&cv("0x1F")), Some(31));
    assert_eq!(parse_int_token(&cv("0Xff")), Some(255));
    assert_eq!(parse_int_token(&cv("42")), Some(42));
    assert_eq!(parse_int_token(&cv("-42")), Some(-42));
    assert_eq!(
        parse_int_token(&cv("0xFFFFFFFFFFFFFFFF")),
        Some(-1)
    );
    assert_eq!(
        parse_int_token(&cv("-9223372036854775808")),
        Some(i64::MIN)
    );
    assert_eq!(parse_int_token(&cv("9223372036854775808")), None);
    assert_eq!(parse_int_token(&cv("1.5")), None);
    assert_eq!(parse_int_token(&cv("0x")), None);
    assert_eq!(parse_int_token(&cv("")), None);
    assert_eq!(parse_int_token(&cv("-")), None);
}

#[test]
fn integer_text_formulas() {
    assert_eq!(i64_text(0), "0");
    assert_eq!(i64_text(-5), "-5");
    assert_eq!(i64_text(9999999999), "9999999999");
    assert_eq!(i64_text(i64::MIN), "-9223372036854775808");
    assert_eq!(u64_hex_text(0), "0x0");
    assert_eq!(u64_hex_text(255), "0xff");
    assert_eq!(u64_hex_text(0xDEADBEEF), "0xdeadbeef");
}

#[test]
fn scalar_lexing() {
    assert_eq!(parse_scalar(None, "true", false), Ok(Scalar::Bool(true)));
    assert_eq!(parse_scalar(None, "False", false), Ok(Scalar::Bool(false)));
    assert_eq!(parse_scalar(None, "null", false), Ok(Scalar::Null));
    assert_eq!(parse_scalar(None, "~", false), Ok(Scalar::Null));
    assert_eq!(parse_scalar(None, "", false), Ok(Scalar::Null));
    assert_eq!(parse_scalar(None, "0x10", false), Ok(Scalar::Int(16)));
    assert_eq!(
        parse_scalar(None, "true", true),
        Ok(Scalar::String("true".to_string()))
    );
    assert_eq!(
        parse_scalar(None, "word", false),
        Ok(Scalar::String("word".to_string()))
    );
    assert_eq!(
        parse_scalar(Some(TagBasedType::Float), "1.5", false),
        Ok(Scalar::Float(1.5f64.to_bits()))
    );
    assert!(parse_scalar(Some(TagBasedType::Int), "nope", false).is_err());
    assert!(parse_scalar(Some(TagBasedType::Bool), "13", false).is_err());
}

#[test]
fn quoting_rules() {
    for s in ["true", "null", "0x10", ":", " true", " null", " 0x10", " :"] {
        assert!(string_needs_quotes(s), "{s:?} must be quoted");
    }
    for s in ["word", "a b", "Fire2", "param_root"] {
        assert!(!string_needs_quotes(s), "{s:?} needs no quotes");
    }
}

#[test]
fn tag_recognition() {
    assert_eq!(recognize_tag("!f64"), Some(TagBasedType::Float));
    assert_eq!(recognize_tag("!u"), Some(TagBasedType::Int));
    assert_eq!(recognize_tag("!l"), Some(TagBasedType::Int));
    assert_eq!(recognize_tag("!ul"), Some(TagBasedType::Int));
    assert_eq!(recognize_tag("!!binary"), Some(TagBasedType::Str));
    assert_eq!(
        recognize_tag("tag:yaml.org,2002:binary"),
        Some(TagBasedType::Str)
    );
    assert_eq!(recognize_tag("!other"), None);
    assert!(is_binary_tag("!!binary"));
    assert!(is_binary_tag("tag:yaml.org,2002:binary"));
    assert!(!is_binary_tag("!u"));
}

#[test]
fn inline_style_cutoff() {
    let small = Byml::Array((0..9).map(Byml::I32).collect());
    assert!(should_use_inline(&small));
    let large = Byml::Array((0..10).map(Byml::I32).collect());
    assert!(!should_use_inline(&large));
    let nested = Byml::Array(vec![Byml::Array(vec![])]);
    assert!(!should_use_inline(&nested));
    assert!(!should_use_inline(&Byml::I32(1)));
    let flat_hash = Byml::Hash(vec![("k".to_string(), Byml::Null)]);
    assert!(should_use_inline(&flat_hash));
    let deep_hash = Byml::Hash(vec![("k".to_string(), Byml::Hash(vec![]))]);
    assert!(!should_use_inline(&deep_hash));
}
