use wasm_call::codec::format_value_text;
use wasm_call::error::CallError;
use wasm_call::parse::parse_value_text;
use wasm_call::value::{Value, ValueType};

fn chars(s: &str) -> Vec<char> {
    s.chars().collect()
}

fn fmt(v: &Value) -> String {
    format_value_text(v).into_iter().collect()
}

fn roundtrip(v: Value, t: &ValueType) {
    let s = format_value_text(&v);
    let back = parse_value_text(&s, t).expect("canonical text must parse");
    assert_eq!(back, v);
}

#[test]
fn round_trip_scalars() {
    roundtrip(Value::Bool(true), &ValueType::Bool);
    roundtrip(Value::Bool(false), &ValueType::Bool);
    roundtrip(Value::U8(0), &ValueType::U8);
    roundtrip(Value::U8(255), &ValueType::U8);
    roundtrip(Value::S8(-128), &ValueType::S8);
    roundtrip(Value::S64(i64::MIN), &ValueType::S64);
    roundtrip(Value::S64(i64::MAX), &ValueType::S64);
    roundtrip(Value::U64(u64::MAX), &ValueType::U64);
    roundtrip(Value::Char('x'), &ValueType::Char);
    roundtrip(Value::Char('\''), &ValueType::Char);
    roundtrip(Value::Char('\\'), &ValueType::Char);
}

#[test]
fn round_trip_text() {
    roundtrip(Value::Text(chars("")), &ValueType::Text);
    roundtrip(Value::Text(chars("Hello, Ada!")), &ValueType::Text);
    roundtrip(Value::Text(chars("quote \" and \\ slash")), &ValueType::Text);
}

#[test]
fn round_trip_containers() {
    let list_ty = ValueType::List(Box::new(ValueType::U16));
    roundtrip(Value::List(vec![]), &list_ty);
    roundtrip(
        Value::List(vec![Value::U16(1), Value::U16(300), Value::U16(65535)]),
        &list_ty,
    );
    let tup_ty = ValueType::Tuple(vec![ValueType::Bool, ValueType::Text]);
    roundtrip(
        Value::Tuple(vec![Value::Bool(false), Value::Text(chars("hi"))]),
        &tup_ty,
    );
    let rec_ty = ValueType::Record(vec![
        (chars("goodbye"), ValueType::Bool),
        (chars("name"), ValueType::Text),
    ]);
    roundtrip(
        Value::Record(vec![
            (chars("goodbye"), Value::Bool(true)),
            (chars("name"), Value::Text(chars("world"))),
        ]),
        &rec_ty,
    );
    let opt_ty = ValueType::Optional(Box::new(ValueType::Text));
    roundtrip(Value::Optional(None), &opt_ty);
    roundtrip(
        Value::Optional(Some(Box::new(Value::Text(chars("Ada"))))),
        &opt_ty,
    );
    let res_ty = ValueType::Expected(Some(Box::new(ValueType::U8)), None);
    roundtrip(Value::Expected(true, Some(Box::new(Value::U8(7)))), &res_ty);
    roundtrip(Value::Expected(false, None), &res_ty);
    let var_ty = ValueType::Variant(vec![
        (chars("red"), None),
        (chars("rgb"), Some(ValueType::U32)),
    ]);
    roundtrip(Value::Variant(chars("red"), None), &var_ty);
    roundtrip(
        Value::Variant(chars("rgb"), Some(Box::new(Value::U32(16711680)))),
        &var_ty,
    );
    let enum_ty = ValueType::Enum(vec![chars("north"), chars("south")]);
    roundtrip(Value::Enum(chars("south")), &enum_ty);
    let flags_ty = ValueType::Flags(vec![chars("read"), chars("write"), chars("exec")]);
    roundtrip(Value::Flags(vec![]), &flags_ty);
    roundtrip(Value::Flags(vec![chars("read"), chars("exec")]), &flags_ty);
}

#[test]
fn canonical_formatting() {
    assert_eq!(fmt(&Value::Bool(true)), "true");
    assert_eq!(fmt(&Value::S16(-42)), "-42");
    assert_eq!(fmt(&Value::Text(chars("Hello, Ada!"))), "\"Hello, Ada!\"");
    assert_eq!(
        fmt(&Value::List(vec![Value::U8(1), Value::U8(2)])),
        "[1,2]"
    );
    assert_eq!(
        fmt(&Value::Record(vec![(chars("x"), Value::Bool(false))])),
        "{x:false}"
    );
    assert_eq!(fmt(&Value::Optional(None)), "none");
    assert_eq!(
        fmt(&Value::Optional(Some(Box::new(Value::U8(3))))),
        "some(3)"
    );
}

#[test]
fn numeric_range_is_checked() {
    // 300 does not fit an 8-bit unsigned integer, but fits a 16-bit one.
    let r8 = parse_value_text(&chars("300"), &ValueType::U8);
    assert_eq!(r8, Err(CallError::Range));
    let r16 = parse_value_text(&chars("300"), &ValueType::U16);
    assert_eq!(r16, Ok(Value::U16(300)));
    let neg = parse_value_text(&chars("-1"), &ValueType::U32);
    assert_eq!(neg, Err(CallError::Range));
    let low = parse_value_text(&chars("-129"), &ValueType::S8);
    assert_eq!(low, Err(CallError::Range));
}

#[test]
fn record_fields_are_exact() {
    let rec_ty = ValueType::Record(vec![
        (chars("goodbye"), ValueType::Bool),
        (chars("name"), ValueType::Text),
    ]);
    // A missing declared field fails naming that field.
    let missing = parse_value_text(&chars("{goodbye: true}"), &rec_ty);
    assert_eq!(missing, Err(CallError::MissingField(chars("name"))));
    // An undeclared key fails naming that key.
    let unknown = parse_value_text(&chars("{goodbye: true, nam: \"x\"}"), &rec_ty);
    assert_eq!(unknown, Err(CallError::UnknownField(chars("nam"))));
    // A repeated key fails naming that key.
    let dup = parse_value_text(
        &chars("{goodbye: true, goodbye: false, name: \"x\"}"),
        &rec_ty,
    );
    assert_eq!(dup, Err(CallError::DuplicateField(chars("goodbye"))));
    // Field order in the text does not matter; the value is canonical.
    let swapped = parse_value_text(&chars("{name: \"Ada\", goodbye: false}"), &rec_ty);
    assert_eq!(
        swapped,
        Ok(Value::Record(vec![
            (chars("goodbye"), Value::Bool(false)),
            (chars("name"), Value::Text(chars("Ada"))),
        ]))
    );
}

#[test]
fn malformed_literals_fail() {
    // Trailing characters after a complete literal.
    assert_eq!(
        parse_value_text(&chars("true x"), &ValueType::Bool),
        Err(CallError::Syntax)
    );
    // A token that does not fit the expected type.
    assert_eq!(
        parse_value_text(&chars("maybe"), &ValueType::Bool),
        Err(CallError::TypeMismatch)
    );
    // An unterminated string.
    assert_eq!(
        parse_value_text(&chars("\"oops"), &ValueType::Text),
        Err(CallError::Syntax)
    );
    // An invalid escape.
    assert_eq!(
        parse_value_text(&chars("\"\\q\""), &ValueType::Text),
        Err(CallError::Literal)
    );
    // An unbalanced list.
    assert_eq!(
        parse_value_text(
            &chars("[1,2"),
            &ValueType::List(Box::new(ValueType::U8))
        ),
        Err(CallError::Syntax)
    );
}

#[test]
fn whitespace_is_insignificant() {
    let list_ty = ValueType::List(Box::new(ValueType::U8));
    let r = parse_value_text(&chars("  [ 1 , 2 ]  "), &list_ty);
    assert_eq!(r, Ok(Value::List(vec![Value::U8(1), Value::U8(2)])));
}

#[test]
fn flags_are_idempotent() {
    let flags_ty = ValueType::Flags(vec![chars("a"), chars("b")]);
    let r = parse_value_text(&chars("{b, a, b}"), &flags_ty);
    assert_eq!(r, Ok(Value::Flags(vec![chars("a"), chars("b")])));
    let unknown = parse_value_text(&chars("{c}"), &flags_ty);
    assert_eq!(unknown, Err(CallError::UnknownField(chars("c"))));
}

#[test]
fn variant_payload_presence_matches() {
    let var_ty = ValueType::Variant(vec![
        (chars("red"), None),
        (chars("rgb"), Some(ValueType::U32)),
    ]);
    assert_eq!(
        parse_value_text(&chars("red(1)"), &var_ty),
        Err(CallError::TypeMismatch)
    );
    assert_eq!(
        parse_value_text(&chars("rgb"), &var_ty),
        Err(CallError::TypeMismatch)
    );
    assert_eq!(
        parse_value_text(&chars("blue"), &var_ty),
        Err(CallError::TypeMismatch)
    );
}
