//! How each parser field participates in node equality.
//!
//! Equality is *variant + atoms + children*; locations never participate.
//! Classifying by field *type* rather than by field name keeps the table tiny.

use crate::text::str_eq;
use vstd::prelude::*;

verus! {

/// How a field participates in equality.
#[derive(Debug, Clone, Copy, PartialEq, Eq, Structural)]
pub enum FieldClass {
    /// A child node, compared recursively.
    Child,
    /// An identifier, compared by resolved bytes.
    NameAtom,
    /// A literal value, compared by unescaped value.
    ValueAtom,
    /// Source position. Never compared.
    Ignored,
}

/// The classification of a field type, by its spelling.
pub open spec fn spec_classify(t: Seq<char>) -> Option<FieldClass> {
    if t == "node"@ || t == "node?"@ || t == "node[]"@ {
        Some(FieldClass::Child)
    } else if t == "constant"@ || t == "constant?"@ || t == "constant[]"@ {
        Some(FieldClass::NameAtom)
    } else if t == "string"@ || t == "integer"@ || t == "double"@ || t == "uint8"@ || t == "uint32"@ {
        Some(FieldClass::ValueAtom)
    } else if t == "location"@ || t == "location?"@ {
        Some(FieldClass::Ignored)
    } else {
        None
    }
}

/// Classify a field type. `None` means unrecognised, which a parity check
/// turns into a loud failure rather than a silent pass.
pub fn classify(field_type: &str) -> (r: Option<FieldClass>)
    ensures
        r == spec_classify(field_type@),
{
    let t = field_type;
    if str_eq(t, "node") || str_eq(t, "node?") || str_eq(t, "node[]") {
        Some(FieldClass::Child)
    } else if str_eq(t, "constant") || str_eq(t, "constant?") || str_eq(t, "constant[]") {
        Some(FieldClass::NameAtom)
    } else if str_eq(t, "string") || str_eq(t, "integer") || str_eq(t, "double") || str_eq(t, "uint8")
        || str_eq(t, "uint32") {
        Some(FieldClass::ValueAtom)
    } else if str_eq(t, "location") || str_eq(t, "location?") {
        Some(FieldClass::Ignored)
    } else {
        None
    }
}

/// Flag bits that record how the source was written rather than what it
/// means. Everything not listed is treated as semantic and compared.
pub fn parse_artifact_flags() -> (r: Vec<&'static str>)
    ensures
        r@.len() == 8,
        r@[0]@ == "VARIABLE_CALL"@,
        r@[1]@ == "FORCED_UTF8_ENCODING"@,
        r@[2]@ == "FORCED_BINARY_ENCODING"@,
        r@[3]@ == "FORCED_US_ASCII_ENCODING"@,
        r@[4]@ == "BINARY"@,
        r@[5]@ == "OCTAL"@,
        r@[6]@ == "DECIMAL"@,
        r@[7]@ == "HEXADECIMAL"@,
{
    vec![
        "VARIABLE_CALL",
        "FORCED_UTF8_ENCODING",
        "FORCED_BINARY_ENCODING",
        "FORCED_US_ASCII_ENCODING",
        "BINARY",
        "OCTAL",
        "DECIMAL",
        "HEXADECIMAL",
    ]
}

} // verus!
