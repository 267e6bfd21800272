use roead::aamp::{Name, Parameter, ParameterIO, ParameterList, ParameterListing, ParameterObject};
use roead::types::{Color, Curve, FixedSafeString, Quat, Vector2f, Vector3f, Vector4f};

fn curve() -> Curve {
    Curve {
        a: 1,
        b: 2,
        floats: [0u32; 30],
    }
}

#[test]
fn all_parameter_kinds_in_one_tree() {
    let f32_one: u32 = 1.0f32.to_bits();
    let params: Vec<Parameter> = vec![
        Parameter::Bool(true),
        Parameter::F32(f32_one),
        Parameter::Int(-5),
        Parameter::Vec2(Vector2f { x: f32_one, y: 0 }),
        Parameter::Vec3(Vector3f {
            x: 0,
            y: f32_one,
            z: 0,
        }),
        Parameter::Vec4(Vector4f {
            x: 0,
            y: 0,
            z: 0,
            t: f32_one,
        }),
        Parameter::Color(Color {
            r: f32_one,
            g: 0,
            b: 0,
            a: f32_one,
        }),
        Parameter::String32(FixedSafeString::<32>::from_string("short".to_string()).unwrap()),
        Parameter::String64(FixedSafeString::<64>::from_string("medium".to_string()).unwrap()),
        Parameter::Curve1([curve(); 1]),
        Parameter::Curve2([curve(); 2]),
        Parameter::Curve3([curve(); 3]),
        Parameter::Curve4([curve(); 4]),
        Parameter::BufferInt(vec![-1, 0, 1]),
        Parameter::BufferF32(vec![1.0f32.to_bits(), 2.0f32.to_bits()]),
        Parameter::String256(FixedSafeString::<256>::from_string("long".to_string()).unwrap()),
        Parameter::Quat(Quat {
            a: 0,
            b: 0,
            c: 0,
            d: f32_one,
        }),
        Parameter::U32(0xDEADBEEF),
        Parameter::BufferU32(vec![7]),
        Parameter::BufferBinary(vec![0, 1, 2]),
        Parameter::StringRef("a longer free string".to_string()),
    ];
    assert_eq!(params.len(), 21);
    let mut object = ParameterObject::new();
    for (i, p) in params.into_iter().enumerate() {
        assert_eq!(p.get_type(), i as u8);
        object.0.insert(Name::from(i as u32), p).unwrap();
    }
    assert_eq!(object.len(), 21);
    assert!(!object.is_empty());

    let mut root = ParameterList::new();
    root.objects.0.insert(Name::from_str("Everything"), object).unwrap();
    let pio = ParameterIO {
        version: 0,
        data_type: "xml".to_string(),
        param_root: root,
    };
    assert!(pio.object(Name::from_str("Everything")).is_some());
    assert!(pio.list(Name::from_str("Nothing")).is_none());
    assert_eq!(pio.objects().len(), 1);
    assert_eq!(pio.lists().len(), 0);
}

#[test]
fn buffer_kinds_are_buffers() {
    assert!(Parameter::BufferInt(vec![]).is_buffer_type());
    assert!(Parameter::BufferF32(vec![]).is_buffer_type());
    assert!(Parameter::BufferU32(vec![]).is_buffer_type());
    assert!(Parameter::BufferBinary(vec![]).is_buffer_type());
    assert!(!Parameter::Bool(false).is_buffer_type());
    assert!(!Parameter::StringRef(String::new()).is_buffer_type());
}

#[test]
fn string_kinds_expose_text() {
    let p = Parameter::String32(FixedSafeString::<32>::from_string("abc".to_string()).unwrap());
    assert_eq!(p.as_str(), Some("abc"));
    let p = Parameter::StringRef("xyz".to_string());
    assert_eq!(p.as_str(), Some("xyz"));
    assert_eq!(Parameter::Int(3).as_str(), None);
}

#[test]
fn fixed_string_respects_capacity() {
    assert!(FixedSafeString::<4>::from_string("abc".to_string()).is_some());
    assert!(FixedSafeString::<4>::from_string("abcd".to_string()).is_none());
    let f = FixedSafeString::<8>::from_string("hello".to_string()).unwrap();
    assert_eq!(f.as_str(), "hello");
}
