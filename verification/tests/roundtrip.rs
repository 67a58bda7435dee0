use jsonarena::parser::Par;
use jsonarena::render::render;
use jsonarena::value::JsonValue;

fn canonical(src: &[u8], cap: usize) -> Vec<u8> {
    let (root, mem) = Par::parse(src, cap).unwrap();
    render(&root, &mem)
}

fn assert_roundtrip(src: &[u8], cap: usize) {
    let text = canonical(src, cap);
    let again = canonical(&text, cap);
    assert_eq!(text, again);
}

#[test]
fn roundtrip_scalars() {
    assert_roundtrip(b"true", 1);
    assert_roundtrip(b"false", 1);
    assert_roundtrip(b"null", 1);
    assert_roundtrip(b"\"hello\"", 1);
    assert_roundtrip(b"-1.25e+3", 1);
    assert_roundtrip(b"0", 1);
}

#[test]
fn roundtrip_containers() {
    assert_roundtrip(b"[]", 1);
    assert_roundtrip(b"{}", 1);
    assert_roundtrip(b"[1,2,3]", 3);
    assert_roundtrip(b"{\"a\":[1,2,{\"b\":true}]}", 5);
    assert_roundtrip(b"[[],[[]],{\"x\":{}}]", 8);
}

#[test]
fn roundtrip_escaped_strings() {
    assert_roundtrip(b"\"a\\n\\t\\\"\\\\b\"", 1);
    assert_roundtrip(b"\"\\u0007\\u00e9\\u20ac\"", 1);
    assert_roundtrip(b"[\"with space\",\"tab\\there\"]", 2);
}

#[test]
fn canonical_text_drops_whitespace_and_keeps_order() {
    let text = canonical(b" { \"a\" : [ 1 , true ] , \"b\" : null } ", 4);
    assert_eq!(text.as_slice(), b"{\"a\":[1,true],\"b\":null}".as_slice());
}

#[test]
fn canonical_text_escapes_what_it_must() {
    let text = canonical(b"\"q\\\"s\\\\t\\u0001\"", 1);
    assert_eq!(text.as_slice(), b"\"q\\\"s\\\\t\\u0001\"".as_slice());
}

#[test]
fn roundtrip_preserves_structure_and_scalars() {
    let src = b"{\"k\":[1,\"two\",{\"deep\":[false,null]}]}";
    let (root, mem) = Par::parse(src, 8).unwrap();
    let text = render(&root, &mem);
    let (root2, mem2) = Par::parse(&text, 8).unwrap();
    assert_eq!(mem.len(), mem2.len());
    let ps = match (&root, &root2) {
        (JsonValue::Object(a), JsonValue::Object(b)) => {
            assert_eq!(a.len(), b.len());
            assert_eq!(a[0].0, b[0].0);
            (a[0].1, b[0].1)
        },
        _ => panic!("expected objects"),
    };
    match (mem.fetch(ps.0), mem2.fetch(ps.1)) {
        (JsonValue::List(a), JsonValue::List(b)) => assert_eq!(a.len(), b.len()),
        _ => panic!("expected lists"),
    }
}
