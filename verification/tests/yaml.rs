use roead::yaml::{get_tag_based_type, in_nan, is_infinity, is_negative_infinity, TagBasedType};

#[test]
fn tag_types() {
    assert_eq!(get_tag_based_type("tag:yaml.org,2002:str"), Some(TagBasedType::Str));
    assert_eq!(get_tag_based_type("Float"), Some(TagBasedType::Float));
    assert_eq!(get_tag_based_type("tag:yaml.org,2002:int"), Some(TagBasedType::Int));
    assert_eq!(get_tag_based_type("Bool"), Some(TagBasedType::Bool));
    assert_eq!(get_tag_based_type("tag:yaml.org,2002:null"), Some(TagBasedType::Null));
    assert_eq!(get_tag_based_type("str"), None);
    assert_eq!(roead::byml::recognize_tag("!ul"), Some(TagBasedType::Int));
    assert_eq!(roead::byml::recognize_tag("!!file"), Some(TagBasedType::Str));
    assert_eq!(roead::byml::recognize_tag("!f64"), Some(TagBasedType::Float));
    assert_eq!(roead::byml::recognize_tag("!f32"), None);
    assert!(roead::byml::is_binary_tag("!!binary"));
    assert!(!roead::byml::is_binary_tag("!!file"));
    assert_eq!(roead::aamp::recognize_tag("!str64"), Some(TagBasedType::Str));
    assert_eq!(roead::aamp::recognize_tag("!u"), Some(TagBasedType::Int));
    assert_eq!(roead::aamp::recognize_tag("!l"), None);
}

#[test]
fn special_floats() {
    assert!(is_infinity(".inf"));
    assert!(is_infinity("+.INF"));
    assert!(!is_infinity("-.inf"));
    assert!(is_negative_infinity("-.Inf"));
    assert!(!is_negative_infinity(".inf"));
    assert!(in_nan(".NaN"));
    assert!(!in_nan("nan"));
}
