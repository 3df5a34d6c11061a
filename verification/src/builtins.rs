//! Name tables for the global constructors installed on `globalThis`: how each
//! constructor's call thunk takes its arguments, and the element size of each
//! typed-array kind (`BYTES_PER_ELEMENT`).
use crate::text::str_eq;
use vstd::prelude::*;

verus! {

/// How a constructor's call thunk is registered to take its arguments.
#[derive(Debug, Clone, Copy, PartialEq, Eq)]
pub enum CallArity {
    /// Collects the arguments from this position on into one rest array.
    Rest(u32),
    /// Takes this many declared parameters.
    Fixed(u32),
}

/// Whether `name` is one of the native error constructors.
pub open spec fn is_error_constructor_name(name: Seq<char>) -> bool {
    name == "Error"@ || name == "TypeError"@ || name == "RangeError"@ || name
        == "ReferenceError"@ || name == "SyntaxError"@ || name == "EvalError"@ || name
        == "URIError"@
}

/// Whether `name` is one of the typed-array constructors.
pub open spec fn is_typed_array_name(name: Seq<char>) -> bool {
    name == "Int8Array"@ || name == "Uint8Array"@ || name == "Uint8ClampedArray"@ || name
        == "Int16Array"@ || name == "Uint16Array"@ || name == "Int32Array"@ || name
        == "Uint32Array"@ || name == "Float16Array"@ || name == "Float32Array"@ || name
        == "Float64Array"@ || name == "BigInt64Array"@ || name == "BigUint64Array"@
}

/// The arity a global constructor's call thunk is registered with; `None` for
/// the constructors that get no registration.
pub open spec fn spec_call_arity(name: Seq<char>) -> Option<CallArity> {
    if name == "Array"@ {
        Some(CallArity::Rest(0))
    } else if name == "Date"@ || name == "Object"@ || name == "String"@ || name == "Number"@
        || name == "Boolean"@ || name == "BroadcastChannel"@ || name == "Headers"@
        || is_error_constructor_name(name) {
        Some(CallArity::Fixed(1))
    } else if name == "Blob"@ || name == "Request"@ || name == "Response"@ || name
        == "URLPattern"@ {
        Some(CallArity::Fixed(2))
    } else if name == "File"@ {
        Some(CallArity::Fixed(3))
    } else if name == "MessageChannel"@ || name == "MessagePort"@ || name == "Storage"@
        || is_typed_array_name(name) {
        Some(CallArity::Fixed(0))
    } else {
        None
    }
}

/// The element size in bytes of a typed-array kind; `None` for other names.
pub open spec fn spec_bytes_per_element(name: Seq<char>) -> Option<u8> {
    if name == "Int8Array"@ || name == "Uint8Array"@ || name == "Uint8ClampedArray"@ {
        Some(1)
    } else if name == "Int16Array"@ || name == "Uint16Array"@ || name == "Float16Array"@ {
        Some(2)
    } else if name == "Int32Array"@ || name == "Uint32Array"@ || name == "Float32Array"@ {
        Some(4)
    } else if name == "Float64Array"@ || name == "BigInt64Array"@ || name == "BigUint64Array"@ {
        Some(8)
    } else {
        None
    }
}

fn is_error_constructor(name: &str) -> (b: bool)
    ensures
        b == is_error_constructor_name(name@),
{
    str_eq(name, "Error") || str_eq(name, "TypeError") || str_eq(name, "RangeError") || str_eq(
        name,
        "ReferenceError",
    ) || str_eq(name, "SyntaxError") || str_eq(name, "EvalError") || str_eq(name, "URIError")
}

fn is_typed_array(name: &str) -> (b: bool)
    ensures
        b == is_typed_array_name(name@),
{
    str_eq(name, "Int8Array") || str_eq(name, "Uint8Array") || str_eq(name, "Uint8ClampedArray")
        || str_eq(name, "Int16Array") || str_eq(name, "Uint16Array") || str_eq(name, "Int32Array")
        || str_eq(name, "Uint32Array") || str_eq(name, "Float16Array") || str_eq(
        name,
        "Float32Array",
    ) || str_eq(name, "Float64Array") || str_eq(name, "BigInt64Array") || str_eq(
        name,
        "BigUint64Array",
    )
}

/// The arity the call thunk of the global constructor `name` is registered
/// with.
pub fn constructor_call_arity(name: &str) -> (r: Option<CallArity>)
    ensures
        r == spec_call_arity(name@),
{
    if str_eq(name, "Array") {
        Some(CallArity::Rest(0))
    } else if str_eq(name, "Date") || str_eq(name, "Object") || str_eq(name, "String") || str_eq(
        name,
        "Number",
    ) || str_eq(name, "Boolean") || str_eq(name, "BroadcastChannel") || str_eq(name, "Headers")
        || is_error_constructor(name) {
        Some(CallArity::Fixed(1))
    } else if str_eq(name, "Blob") || str_eq(name, "Request") || str_eq(name, "Response")
        || str_eq(name, "URLPattern") {
        Some(CallArity::Fixed(2))
    } else if str_eq(name, "File") {
        Some(CallArity::Fixed(3))
    } else if str_eq(name, "MessageChannel") || str_eq(name, "MessagePort") || str_eq(
        name,
        "Storage",
    ) || is_typed_array(name) {
        Some(CallArity::Fixed(0))
    } else {
        None
    }
}

/// `BYTES_PER_ELEMENT` of the typed-array constructor `name`.
pub fn typed_array_bytes_per_element(name: &str) -> (r: Option<u8>)
    ensures
        r == spec_bytes_per_element(name@),
{
    if str_eq(name, "Int8Array") || str_eq(name, "Uint8Array") || str_eq(name, "Uint8ClampedArray") {
        Some(1)
    } else if str_eq(name, "Int16Array") || str_eq(name, "Uint16Array") || str_eq(
        name,
        "Float16Array",
    ) {
        Some(2)
    } else if str_eq(name, "Int32Array") || str_eq(name, "Uint32Array") || str_eq(
        name,
        "Float32Array",
    ) {
        Some(4)
    } else if str_eq(name, "Float64Array") || str_eq(name, "BigInt64Array") || str_eq(
        name,
        "BigUint64Array",
    ) {
        Some(8)
    } else {
        None
    }
}

/// Every typed-array constructor has an element size, and only those do.
pub proof fn law_bytes_per_element_exactly_for_typed_arrays(name: Seq<char>)
    ensures
        spec_bytes_per_element(name) is Some <==> is_typed_array_name(name),
{
}

} // verus!
