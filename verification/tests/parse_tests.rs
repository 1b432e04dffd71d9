use dataflow::bril::BrilValue;
use dataflow::bril_parse::{BrilParseError, BrilParser};
use dataflow::df::State;
use dataflow::smap::StrMap;
use dataflow::text::{i64_text, join_with, parse_int, str_eq, str_lt, u64_digits};

#[test]
fn parses_instruction_fields() {
    let prog = BrilParser::from_string(
        r#"{"functions":[{"name":"f","args":[{"name":"p","type":"int"}],"instrs":[
            {"op":"br","args":["c"],"labels":["t","e"]},
            {"label":"t"},
            {"op":"const","dest":"x","type":"int","value":3},
            {"op":"const","dest":"b","type":"bool","value":false},
            {"op":"const","dest":"s","type":"int","value":"12"},
            {"op":"call","funcs":["g"]}
        ]}]}"#,
    )
    .expect("parse failed");
    assert_eq!(prog.functions.len(), 1);
    let f = &prog.functions[0];
    assert_eq!(f.name, "f");
    let args = f.get_args().expect("args missing");
    assert_eq!(args.len(), 1);
    assert_eq!(args[0].name, "p");
    assert_eq!(args[0].typ, "int");
    let instrs = &f.instructions;
    assert_eq!(instrs.len(), 6);
    assert_eq!(instrs[0].get_op(), Some("br"));
    assert_eq!(instrs[0].get_args(), Some(vec!["c".to_string()]));
    assert_eq!(instrs[0].get_labels(), Some(vec!["t".to_string(), "e".to_string()]));
    assert!(instrs[1].has_label());
    assert_eq!(instrs[1].get_label(), Some("t"));
    assert_eq!(instrs[1].get_op(), None);
    assert_eq!(instrs[2].get_dest(), Some("x"));
    assert_eq!(instrs[2].get_type(), Some("int"));
    assert_eq!(instrs[2].value, Some(BrilValue::Int(3)));
    assert_eq!(instrs[3].value, Some(BrilValue::Bool(false)));
    assert_eq!(instrs[4].value, Some(BrilValue::Text("12".to_string())));
    assert_eq!(instrs[5].get_funcs(), Some(vec!["g".to_string()]));
}

#[test]
fn missing_function_name_is_unnamed() {
    let prog = BrilParser::from_string(r#"{"functions":[{"instrs":[]}]}"#).expect("parse failed");
    assert_eq!(prog.functions[0].name, "unnamed");
}

#[test]
fn missing_functions_array_fails() {
    let e = BrilParser::from_string(r#"{"funcs":[]}"#).unwrap_err();
    match &e {
        BrilParseError::InvalidFormat(m) => assert_eq!(m, "Missing 'functions' array"),
        _ => panic!("wrong error kind"),
    }
    assert_eq!(e.message(), "Invalid format: Missing 'functions' array");
}

#[test]
fn malformed_json_fails() {
    let e = BrilParser::from_string("{ not json").unwrap_err();
    match &e {
        BrilParseError::JsonError(_) => {},
        _ => panic!("wrong error kind"),
    }
    let m = e.message();
    assert!(m.starts_with("JSON error: "));
    assert!(m.len() > "JSON error: ".len());
}

#[test]
fn io_error_message() {
    let e = BrilParseError::IoError("gone".to_string());
    assert_eq!(e.message(), "IO error: gone");
}

#[test]
fn non_string_args_are_skipped() {
    let prog = BrilParser::from_string(
        r#"{"functions":[{"name":"f","instrs":[{"op":"print","args":["a",1,"b"]}]}]}"#,
    )
    .expect("parse failed");
    let instr = &prog.functions[0].instructions[0];
    assert_eq!(instr.get_args(), Some(vec!["a".to_string(), "b".to_string()]));
}

#[test]
fn parse_int_accepts_signed_decimals() {
    assert_eq!(parse_int("0"), Some(0));
    assert_eq!(parse_int("42"), Some(42));
    assert_eq!(parse_int("007"), Some(7));
    assert_eq!(parse_int("+5"), Some(5));
    assert_eq!(parse_int("-5"), Some(-5));
    assert_eq!(parse_int("-0"), Some(0));
    assert_eq!(parse_int("9223372036854775807"), Some(i64::MAX));
    assert_eq!(parse_int("-9223372036854775808"), Some(i64::MIN));
}

#[test]
fn parse_int_rejects_everything_else() {
    assert_eq!(parse_int(""), None);
    assert_eq!(parse_int("+"), None);
    assert_eq!(parse_int("-"), None);
    assert_eq!(parse_int("1.5"), None);
    assert_eq!(parse_int("12a"), None);
    assert_eq!(parse_int(" 12"), None);
    assert_eq!(parse_int("9223372036854775808"), None);
    assert_eq!(parse_int("-9223372036854775809"), None);
}

#[test]
fn decimal_rendering() {
    assert_eq!(u64_digits(0), "0");
    assert_eq!(u64_digits(90210), "90210");
    assert_eq!(i64_text(0), "0");
    assert_eq!(i64_text(-1), "-1");
    assert_eq!(i64_text(i64::MAX), "9223372036854775807");
    assert_eq!(i64_text(i64::MIN), "-9223372036854775808");
}

#[test]
fn state_rendering() {
    assert_eq!(State::Undef.to_text(), "UNDEF");
    assert_eq!(State::NAC.to_text(), "NAC");
    assert_eq!(State::Const(-42).to_text(), "-42");
}

#[test]
fn text_comparisons() {
    assert!(str_eq("abc", "abc"));
    assert!(!str_eq("abc", "abd"));
    assert!(!str_eq("abc", "ab"));
    assert!(str_lt("ab", "abc"));
    assert!(str_lt("abc", "abd"));
    assert!(!str_lt("b", "ab"));
    assert!(!str_lt("abc", "abc"));
}

#[test]
fn joining() {
    assert_eq!(join_with(&Vec::new(), ", "), "");
    assert_eq!(join_with(&vec!["f".to_string()], ", "), "f");
    assert_eq!(join_with(&vec!["f".to_string(), "g".to_string()], ", "), "f, g");
}

#[test]
fn keys_come_out_sorted() {
    let mut m: StrMap<State> = StrMap::new();
    m.set("zeta".to_string(), State::NAC);
    m.set("alpha".to_string(), State::Undef);
    m.set("beta1".to_string(), State::Const(1));
    m.set("beta".to_string(), State::Const(2));
    let keys = dataflow::report::sorted_keys(&m);
    assert_eq!(
        keys,
        vec!["alpha".to_string(), "beta".to_string(), "beta1".to_string(), "zeta".to_string()],
    );
}

#[test]
fn map_replaces_on_reinsert() {
    let mut m: StrMap<State> = StrMap::new();
    m.set("x".to_string(), State::Const(1));
    m.set("x".to_string(), State::NAC);
    assert_eq!(m.len(), 1);
    assert_eq!(*m.get("x").unwrap(), State::NAC);
    assert!(m.get("y").is_none());
}
