use jsonarena::arena::Allocator;
use jsonarena::arena::Id;
use jsonarena::err::JsonError;
use jsonarena::parser::Par;
use jsonarena::value::JsonValue;

fn as_f64(t: &[u8]) -> f64 {
    std::str::from_utf8(t).unwrap().parse::<f64>().unwrap()
}

fn fetch_f64(mem: &Allocator<JsonValue>, id: Id<JsonValue>) -> f64 {
    match mem.fetch(id) {
        JsonValue::Number(t) => as_f64(t),
        _ => panic!("expected a number"),
    }
}

#[test]
fn empty_object_parses_with_zero_allocations() {
    let (root, mem) = Par::parse(b"{}", 1).unwrap();
    assert_eq!(mem.len(), 0);
    match root {
        JsonValue::Object(ps) => assert_eq!(ps.len(), 0),
        _ => panic!("expected an object"),
    }
}

#[test]
fn empty_list_parses_with_zero_allocations() {
    let (root, mem) = Par::parse(b"[]", 1).unwrap();
    assert_eq!(mem.len(), 0);
    match root {
        JsonValue::List(hs) => assert_eq!(hs.len(), 0),
        _ => panic!("expected a list"),
    }
}

#[test]
fn trailing_comma_in_object_is_rejected() {
    assert_eq!(Par::parse(b"{\"a\":1,}", 4).unwrap_err(), JsonError::UnexpectedToken);
}

#[test]
fn leading_comma_in_list_is_rejected() {
    assert_eq!(Par::parse(b"[,1]", 4).unwrap_err(), JsonError::UnexpectedToken);
}

#[test]
fn trailing_comma_in_list_is_rejected() {
    assert_eq!(Par::parse(b"[1,]", 4).unwrap_err(), JsonError::UnexpectedToken);
}

#[test]
fn missing_comma_between_elements_is_rejected() {
    assert_eq!(Par::parse(b"[1 2]", 4).unwrap_err(), JsonError::UnexpectedToken);
}

#[test]
fn list_of_three_numbers_with_capacity_four() {
    let (root, mem) = Par::parse(b"[1,2,3]", 4).unwrap();
    assert_eq!(mem.len(), 3);
    match root {
        JsonValue::List(hs) => {
            assert_eq!(hs.len(), 3);
            assert_eq!(fetch_f64(&mem, hs[0]), 1.0);
            assert_eq!(fetch_f64(&mem, hs[1]), 2.0);
            assert_eq!(fetch_f64(&mem, hs[2]), 3.0);
        },
        _ => panic!("expected a list"),
    }
}

#[test]
fn capacity_boundary_exact_and_one_less() {
    assert!(Par::parse(b"[1,2,3]", 3).is_ok());
    assert_eq!(Par::parse(b"[1,2,3]", 2).unwrap_err(), JsonError::CapacityExceeded);
}

#[test]
fn nested_object_and_list() {
    let (root, mem) = Par::parse(b"{\"a\":[1,2,{\"b\":true}]}", 8).unwrap();
    assert_eq!(mem.len(), 5);
    let h_list = match root {
        JsonValue::Object(ps) => {
            assert_eq!(ps.len(), 1);
            assert_eq!(ps[0].0.as_slice(), b"a");
            ps[0].1
        },
        _ => panic!("expected an object"),
    };
    let (h1, h2, h_obj) = match mem.fetch(h_list) {
        JsonValue::List(hs) => {
            assert_eq!(hs.len(), 3);
            (hs[0], hs[1], hs[2])
        },
        _ => panic!("expected a list"),
    };
    assert_eq!(fetch_f64(&mem, h1), 1.0);
    assert_eq!(fetch_f64(&mem, h2), 2.0);
    let h_bool = match mem.fetch(h_obj) {
        JsonValue::Object(ps) => {
            assert_eq!(ps.len(), 1);
            assert_eq!(ps[0].0.as_slice(), b"b");
            ps[0].1
        },
        _ => panic!("expected an object"),
    };
    match mem.fetch(h_bool) {
        JsonValue::Bool(x) => assert!(*x),
        _ => panic!("expected a boolean"),
    }
}

#[test]
fn leading_zero_number_is_malformed() {
    assert_eq!(Par::parse(b"01", 1).unwrap_err(), JsonError::MalformedNumber);
}

#[test]
fn unterminated_string_is_reported() {
    assert_eq!(Par::parse(b"\"abc", 1).unwrap_err(), JsonError::UnterminatedString);
}

#[test]
fn scalar_roots() {
    assert!(matches!(Par::parse(b"true", 1).unwrap().0, JsonValue::Bool(true)));
    assert!(matches!(Par::parse(b"false", 1).unwrap().0, JsonValue::Bool(false)));
    assert!(matches!(Par::parse(b"null", 1).unwrap().0, JsonValue::Null));
    match Par::parse(b"\"hi\"", 1).unwrap().0 {
        JsonValue::String(t) => assert_eq!(t.as_slice(), b"hi"),
        _ => panic!("expected a string"),
    }
    match Par::parse(b"-1.5e+10", 1).unwrap().0 {
        JsonValue::Number(t) => assert_eq!(as_f64(&t), -1.5e10),
        _ => panic!("expected a number"),
    }
}

#[test]
fn whitespace_is_skipped_everywhere() {
    let (root, mem) = Par::parse(b" \t\r\n[ 1 ,\n 2 ]\t", 2).unwrap();
    assert_eq!(mem.len(), 2);
    match root {
        JsonValue::List(hs) => assert_eq!(hs.len(), 2),
        _ => panic!("expected a list"),
    }
}

#[test]
fn escape_sequences_are_decoded() {
    match Par::parse(b"\"a\\n\\t\\\"\\\\\\u0041\"", 1).unwrap().0 {
        JsonValue::String(t) => assert_eq!(t.as_slice(), b"a\n\t\"\\A"),
        _ => panic!("expected a string"),
    }
    match Par::parse(b"\"\\u00e9\\u20ac\"", 1).unwrap().0 {
        JsonValue::String(t) => {
            assert_eq!(t.as_slice(), "\u{e9}\u{20ac}".as_bytes());
        },
        _ => panic!("expected a string"),
    }
}

#[test]
fn broken_escape_is_a_string_error() {
    assert_eq!(Par::parse(b"\"a\\q\"", 1).unwrap_err(), JsonError::UnterminatedString);
    assert_eq!(Par::parse(b"\"a\\u12\"", 1).unwrap_err(), JsonError::UnterminatedString);
}

#[test]
fn malformed_numbers_are_reported() {
    assert_eq!(Par::parse(b"1.", 1).unwrap_err(), JsonError::MalformedNumber);
    assert_eq!(Par::parse(b"1e", 1).unwrap_err(), JsonError::MalformedNumber);
    assert_eq!(Par::parse(b"-", 1).unwrap_err(), JsonError::MalformedNumber);
    assert_eq!(Par::parse(b"1.2.3", 1).unwrap_err(), JsonError::MalformedNumber);
}

#[test]
fn colon_and_key_errors() {
    assert_eq!(Par::parse(b"{\"a\" 1}", 2).unwrap_err(), JsonError::ExpectedColon);
    assert_eq!(Par::parse(b"{1:2}", 2).unwrap_err(), JsonError::ExpectedKeyString);
}

#[test]
fn end_of_input_errors() {
    assert_eq!(Par::parse(b"", 1).unwrap_err(), JsonError::UnexpectedEof);
    assert_eq!(Par::parse(b"   ", 1).unwrap_err(), JsonError::UnexpectedEof);
    assert_eq!(Par::parse(b"[1,", 2).unwrap_err(), JsonError::UnexpectedEof);
}

#[test]
fn illegal_identifier_is_reported() {
    assert_eq!(Par::parse(b"tru", 1).unwrap_err(), JsonError::IllegalIdentifier);
    assert_eq!(Par::parse(b"[nil]", 2).unwrap_err(), JsonError::IllegalIdentifier);
}

#[test]
fn stray_tokens_where_a_value_is_expected() {
    assert_eq!(Par::parse(b"]", 1).unwrap_err(), JsonError::UnexpectedToken);
    assert_eq!(Par::parse(b":", 1).unwrap_err(), JsonError::UnexpectedToken);
    assert_eq!(Par::parse(b",", 1).unwrap_err(), JsonError::UnexpectedToken);
}

#[test]
fn duplicate_object_keys_keep_the_last_value() {
    let (root, mem) = Par::parse(b"{\"a\":1,\"a\":2}", 4).unwrap();
    assert_eq!(mem.len(), 2);
    match root {
        JsonValue::Object(ps) => {
            assert_eq!(ps.len(), 1);
            assert_eq!(ps[0].0.as_slice(), b"a");
            assert_eq!(fetch_f64(&mem, ps[0].1), 2.0);
        },
        _ => panic!("expected an object"),
    }
}

#[test]
fn handles_are_minted_in_allocation_order() {
    let mut mem: Allocator<u8> = Allocator::make(2);
    assert_eq!(mem.capacity(), 2);
    assert_eq!(mem.len(), 0);
    let h0 = mem.allocate(7).unwrap();
    let h1 = mem.allocate(9).unwrap();
    assert_eq!(mem.len(), 2);
    assert_eq!(*mem.fetch(h0), 7);
    assert_eq!(*mem.fetch(h1), 9);
    assert_eq!(mem.allocate(11).unwrap_err(), JsonError::CapacityExceeded);
    assert_eq!(mem.len(), 2);
}

#[test]
fn raw_handles_resolve_in_allocation_order() {
    let (_, mem) = Par::parse(b"[5]", 1).unwrap();
    assert_eq!(fetch_f64(&mem, Id::id(0)), 5.0);
}

#[test]
fn open_containers_at_end_of_input() {
    assert_eq!(Par::parse(b"[", 1).unwrap_err(), JsonError::UnexpectedEof);
    assert_eq!(Par::parse(b"{", 1).unwrap_err(), JsonError::ExpectedKeyString);
    assert_eq!(Par::parse(b"{\"a\":", 1).unwrap_err(), JsonError::UnexpectedEof);
}
