use perry_fastify::builtins::{constructor_call_arity, typed_array_bytes_per_element, CallArity};

#[test]
fn typed_array_element_sizes() {
    assert_eq!(typed_array_bytes_per_element("Int8Array"), Some(1));
    assert_eq!(typed_array_bytes_per_element("Uint8ClampedArray"), Some(1));
    assert_eq!(typed_array_bytes_per_element("Float16Array"), Some(2));
    assert_eq!(typed_array_bytes_per_element("Uint32Array"), Some(4));
    assert_eq!(typed_array_bytes_per_element("Float32Array"), Some(4));
    assert_eq!(typed_array_bytes_per_element("BigUint64Array"), Some(8));
    assert_eq!(typed_array_bytes_per_element("Array"), None);
    assert_eq!(typed_array_bytes_per_element("int8array"), None);
}

#[test]
fn constructor_call_arities() {
    assert_eq!(constructor_call_arity("Array"), Some(CallArity::Rest(0)));
    assert_eq!(constructor_call_arity("Date"), Some(CallArity::Fixed(1)));
    assert_eq!(constructor_call_arity("URIError"), Some(CallArity::Fixed(1)));
    assert_eq!(constructor_call_arity("Response"), Some(CallArity::Fixed(2)));
    assert_eq!(constructor_call_arity("URLPattern"), Some(CallArity::Fixed(2)));
    assert_eq!(constructor_call_arity("File"), Some(CallArity::Fixed(3)));
    assert_eq!(constructor_call_arity("Storage"), Some(CallArity::Fixed(0)));
    assert_eq!(constructor_call_arity("Float64Array"), Some(CallArity::Fixed(0)));
    assert_eq!(constructor_call_arity("Map"), None);
    assert_eq!(constructor_call_arity("Buffer"), None);
}
