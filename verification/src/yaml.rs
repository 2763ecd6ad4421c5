//! The scalar tags and special values of the YAML text formats.
use vstd::prelude::*;
use vstd::string::StringSliceAdditionalSpecFns;

verus! {

/// The type that a scalar's tag asks for.
#[derive(Debug, PartialEq, Eq, Clone, Copy, Structural)]
pub enum TagBasedType {
    /// A boolean.
    Bool,
    /// A string.
    Str,
    /// An integer.
    Int,
    /// A floating-point number.
    Float,
    /// Null.
    Null,
}

/// Whether two strings are equal.
pub fn str_eq(a: &str, b: &str) -> (r: bool)
    ensures
        r == (a@ == b@),
{
    let r = crate::util::bytes_eq(a.as_bytes(), b.as_bytes());
    proof {
        vstd::utf8::encode_utf8_decode_utf8(a@);
        vstd::utf8::encode_utf8_decode_utf8(b@);
    }
    r
}

/// The type that a standard YAML tag, or its short name, asks for.
pub open spec fn spec_tag_based_type(tag: Seq<char>) -> Option<TagBasedType> {
    if tag == "tag:yaml.org,2002:str"@ || tag == "Str"@ {
        Some(TagBasedType::Str)
    } else if tag == "tag:yaml.org,2002:float"@ || tag == "Float"@ {
        Some(TagBasedType::Float)
    } else if tag == "tag:yaml.org,2002:int"@ || tag == "Int"@ {
        Some(TagBasedType::Int)
    } else if tag == "tag:yaml.org,2002:bool"@ || tag == "Bool"@ {
        Some(TagBasedType::Bool)
    } else if tag == "tag:yaml.org,2002:null"@ || tag == "Null"@ {
        Some(TagBasedType::Null)
    } else {
        None
    }
}

/// The type that a standard YAML tag, or its short name, asks for.
pub fn get_tag_based_type(tag: &str) -> (r: Option<TagBasedType>)
    ensures
        r == spec_tag_based_type(tag@),
{
    if str_eq(tag, "tag:yaml.org,2002:str") || str_eq(tag, "Str") {
        Some(TagBasedType::Str)
    } else if str_eq(tag, "tag:yaml.org,2002:float") || str_eq(tag, "Float") {
        Some(TagBasedType::Float)
    } else if str_eq(tag, "tag:yaml.org,2002:int") || str_eq(tag, "Int") {
        Some(TagBasedType::Int)
    } else if str_eq(tag, "tag:yaml.org,2002:bool") || str_eq(tag, "Bool") {
        Some(TagBasedType::Bool)
    } else if str_eq(tag, "tag:yaml.org,2002:null") || str_eq(tag, "Null") {
        Some(TagBasedType::Null)
    } else {
        None
    }
}

/// Whether a value spells positive infinity.
pub fn is_infinity(input: &str) -> (r: bool)
    ensures
        r == (input@ == ".inf"@ || input@ == ".Inf"@ || input@ == ".INF"@ || input@ == "+.inf"@
            || input@ == "+.Inf"@ || input@ == "+.INF"@),
{
    str_eq(input, ".inf") || str_eq(input, ".Inf") || str_eq(input, ".INF") || str_eq(
        input,
        "+.inf",
    ) || str_eq(input, "+.Inf") || str_eq(input, "+.INF")
}

/// Whether a value spells negative infinity.
pub fn is_negative_infinity(input: &str) -> (r: bool)
    ensures
        r == (input@ == "-.inf"@ || input@ == "-.Inf"@ || input@ == "-.INF"@),
{
    str_eq(input, "-.inf") || str_eq(input, "-.Inf") || str_eq(input, "-.INF")
}

/// Whether a value spells not-a-number.
pub fn in_nan(input: &str) -> (r: bool)
    ensures
        r == (input@ == ".nan"@ || input@ == ".NaN"@ || input@ == ".NAN"@),
{
    str_eq(input, ".nan") || str_eq(input, ".NaN") || str_eq(input, ".NAN")
}

} // verus!
