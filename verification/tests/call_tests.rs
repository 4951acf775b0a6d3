use wasm_call::complete::{complete_arg, complete_name};
use wasm_call::error::CallError;
use wasm_call::guest::Component;
use wasm_call::parse::parse_value_text;
use wasm_call::schema::{
    accept_results, bind_args, find_export, format_call_echo, format_results, fresh_result_slots,
    FunctionSignature,
};
use wasm_call::syntax::parse_call;
use wasm_call::value::{Value, ValueType};

fn chars(s: &str) -> Vec<char> {
    s.chars().collect()
}

fn text_of(v: &[char]) -> String {
    v.iter().collect()
}

fn hello_world_sig() -> FunctionSignature {
    FunctionSignature {
        name: chars("hello-world"),
        params: vec![
            (chars("goodbye"), ValueType::Bool),
            (chars("name"), ValueType::Optional(Box::new(ValueType::Text))),
        ],
        results: vec![ValueType::Text],
    }
}

#[test]
fn call_expression_splits() {
    let (name, args) = parse_call(&chars("hello-world(false, \"Ada\")")).unwrap();
    assert_eq!(text_of(&name), "hello-world");
    assert_eq!(args.len(), 2);
    assert_eq!(text_of(&args[0]), "false");
    assert_eq!(text_of(&args[1]), " \"Ada\"");
    let (_, none_args) = parse_call(&chars("f()")).unwrap();
    assert_eq!(none_args.len(), 0);
    // Commas inside brackets and strings do not split.
    let (_, nested) = parse_call(&chars("f([1,2], \"a,b\")")).unwrap();
    assert_eq!(nested.len(), 2);
    assert_eq!(text_of(&nested[0]), "[1,2]");
    assert_eq!(text_of(&nested[1]), " \"a,b\"");
}

#[test]
fn malformed_calls_fail_with_syntax() {
    // Unbalanced parentheses.
    assert_eq!(parse_call(&chars("f(1,2")), Err(CallError::Syntax));
    // Trailing characters after the closing parenthesis.
    assert_eq!(parse_call(&chars("f() x")), Err(CallError::Syntax));
    // An empty function name.
    assert_eq!(parse_call(&chars("(1)")), Err(CallError::Syntax));
    // No parenthesis at all.
    assert_eq!(parse_call(&chars("f")), Err(CallError::Syntax));
}

#[test]
fn undeclared_export_is_not_found() {
    let sigs = vec![hello_world_sig()];
    assert_eq!(find_export(&sigs, &chars("hello-world")), Ok(0));
    assert_eq!(
        find_export(&sigs, &chars("helo-world")),
        Err(CallError::NotFound(chars("helo-world")))
    );
}

#[test]
fn option_accepts_bare_present_value() {
    let opt_ty = ValueType::Optional(Box::new(ValueType::Text));
    // A bare value is interpreted as present.
    assert_eq!(
        parse_value_text(&chars("\"Ada\""), &opt_ty),
        Ok(Value::Optional(Some(Box::new(Value::Text(chars("Ada"))))))
    );
    // The wrapped form and the bare token still work.
    assert_eq!(
        parse_value_text(&chars("some(\"Ada\")"), &opt_ty),
        Ok(Value::Optional(Some(Box::new(Value::Text(chars("Ada"))))))
    );
    assert_eq!(parse_value_text(&chars("none"), &opt_ty), Ok(Value::Optional(None)));
    // A bare numeric payload as well.
    let opt_u8 = ValueType::Optional(Box::new(ValueType::U8));
    assert_eq!(
        parse_value_text(&chars("7"), &opt_u8),
        Ok(Value::Optional(Some(Box::new(Value::U8(7)))))
    );
}

fn run_hello_world(expr: &str) -> String {
    let sigs = vec![hello_world_sig()];
    let (name, spans) = parse_call(&chars(expr)).unwrap();
    let ix = find_export(&sigs, &name).unwrap();
    let vals = bind_args(&sigs[ix], &spans).unwrap();
    let mut it = vals.into_iter();
    let goodbye = match it.next().unwrap() {
        Value::Bool(b) => b,
        v => panic!("expected a boolean, got {v:?}"),
    };
    let name_arg = match it.next().unwrap() {
        Value::Optional(None) => None,
        Value::Optional(Some(b)) => match *b {
            Value::Text(t) => Some(t),
            v => panic!("expected text, got {v:?}"),
        },
        v => panic!("expected an option, got {v:?}"),
    };
    text_of(&Component::hello_world(goodbye, name_arg))
}

#[test]
fn hello_world_end_to_end() {
    assert_eq!(run_hello_world("hello-world(false, \"Ada\")"), "Hello, Ada!");
    assert_eq!(run_hello_world("hello-world(true, none)"), "Goodbye, world!");
    assert_eq!(run_hello_world("hello-world(false, none)"), "Hello, world!");
}

#[test]
fn function_name_completion_is_sorted() {
    let exports = vec![chars("hello-world"), chars("help")];
    let cands = complete_name(&exports, &chars("hel"));
    let cands: Vec<String> = cands.iter().map(|c| text_of(c)).collect();
    assert_eq!(cands, vec!["lo-world".to_string(), "p".to_string()]);
    // An exact name completes to the opening parenthesis.
    let exact = complete_name(&exports, &chars("help"));
    let exact: Vec<String> = exact.iter().map(|c| text_of(c)).collect();
    assert_eq!(exact, vec!["(".to_string()]);
    // No matching export: no candidates.
    assert_eq!(complete_name(&exports, &chars("x")).len(), 0);
}

#[test]
fn argument_completion_offers_literals() {
    let sig = FunctionSignature {
        name: chars("f"),
        params: vec![(chars("x"), ValueType::Bool)],
        results: vec![],
    };
    // Partial "f(": the argument text is empty.
    let cands = complete_arg(&sig, &chars("")).unwrap();
    let cands: Vec<String> = cands.iter().map(|c| text_of(c)).collect();
    assert!(cands.contains(&"true".to_string()));
    assert!(cands.contains(&"false".to_string()));
    // A typed prefix narrows to the remainders.
    let narrowed = complete_arg(&sig, &chars("tr")).unwrap();
    let narrowed: Vec<String> = narrowed.iter().map(|c| text_of(c)).collect();
    assert_eq!(narrowed, vec!["ue".to_string()]);
    // A cursor past the call is not a recognizable context.
    assert_eq!(complete_arg(&sig, &chars("true)")), Err(CallError::NoCompletions));
}

#[test]
fn results_buffer_detects_underwrites() {
    let mut slots = fresh_result_slots(2);
    assert_eq!(slots.len(), 2);
    slots[0] = Some(Value::U8(1));
    // One slot still holds the sentinel: a boundary fault.
    assert_eq!(accept_results(slots), Err(CallError::Invocation));
    let mut full = fresh_result_slots(1);
    full[0] = Some(Value::Text(chars("done")));
    assert_eq!(accept_results(full), Ok(vec![Value::Text(chars("done"))]));
}

#[test]
fn call_echo_and_results_render() {
    let echo = format_call_echo(
        &chars("hello-world"),
        &vec![Value::Bool(false), Value::Optional(Some(Box::new(Value::Text(chars("Ada")))))],
    );
    assert_eq!(text_of(&echo), "hello-world(false,some(\"Ada\"))");
    let single = format_results(&vec![Value::Text(chars("Hello, Ada!"))]);
    assert_eq!(text_of(&single), "\"Hello, Ada!\"");
    let pair = format_results(&vec![Value::U8(1), Value::U8(2)]);
    assert_eq!(text_of(&pair), "(1,2)");
}
