use roead::aamp::{hash_name, AampError, Name, Parameter, ParameterStructureMap};

#[test]
fn check_hasher() {
    const HASH: u32 = 0x41afa934;
    let hashed: u32 = hash_name("The Abolition of Man");
    assert_eq!(hashed, HASH);
}

#[test]
fn hash_of_empty_text_is_zero() {
    assert_eq!(hash_name(""), 0);
}

#[test]
fn hash_of_param_root() {
    assert_eq!(hash_name("param_root"), 0xA4F6CB6C);
    assert_eq!(Name::from_str("param_root").hash(), 0xA4F6CB6C);
}

#[test]
fn name_from_conversions() {
    let a: Name = Name::from("LinkTargets");
    let b: Name = Name::from(hash_name("LinkTargets"));
    assert_eq!(a, b);
    assert_eq!(a.hash(), hash_name("LinkTargets"));
}

#[test]
fn map_insert_rejects_colliding_hash() {
    let mut map: ParameterStructureMap<Parameter> = ParameterStructureMap::new();
    map.insert(Name::from_str("a"), Parameter::Int(1)).unwrap();
    let r = map.insert(Name::from(hash_name("a")), Parameter::Int(2));
    assert!(matches!(r, Err(AampError::InvalidData(_))));
    assert_eq!(map.len(), 1);
    assert_eq!(map.get(Name::from_str("a")), Some(&Parameter::Int(1)));
    assert_eq!(map.get(Name::from_str("b")), None);
}
