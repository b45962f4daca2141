use android_bp::{parse_array, parse_expr, parse_int, parse_module, BluePrint, Dict, Function, Value};

fn s(x: &str) -> Value {
    Value::String(x.to_string())
}

#[test]
fn brace_module_reads_attributes() {
    let bp = BluePrint::parse(r#"foo { bar: "baz" }"#).unwrap();
    assert_eq!(bp.modules.len(), 1);
    assert_eq!(bp.modules[0].typ, "foo");
    assert_eq!(bp.modules[0].entries, Dict(vec![("bar".to_string(), s("baz"))]));
    assert_eq!(bp.variables.len(), 0);
}

#[test]
fn extend_appends_to_array() {
    let bp = BluePrint::parse("x = [\"a\",\"b\"]\nx += [\"c\"]").unwrap();
    assert_eq!(bp.variables.get("x"), Some(&Value::Array(vec![s("a"), s("b"), s("c")])));
    assert_eq!(bp.variables.len(), 1);
}

#[test]
fn extend_adds_to_integer() {
    let bp = BluePrint::parse("n = 12\nn += 1").unwrap();
    assert_eq!(bp.variables.get("n"), Some(&Value::Integer(13)));
}

#[test]
fn missing_bracket_is_reported_in_array() {
    let msg = BluePrint::parse(r#"arr { srcs: ["a.c" }"#).unwrap_err();
    let line = r#"arr { srcs: ["a.c" }"#;
    let expected = format!(
        "0: at line 1:\n{line}\n{}^\nexpected ']', found }}\n\n\
         1: at line 1, in array:\n{line}\n{}^\n\n\
         2: at line 1, in entry:\n{line}\n{}^\n\n\
         3: at line 1, in module:\n{line}\n^\n\n",
        " ".repeat(19),
        " ".repeat(12),
        " ".repeat(6),
    );
    assert_eq!(msg, expected);
}

#[test]
fn lone_comment_without_newline_is_empty() {
    let bp = BluePrint::parse("// trailing comment, no newline").unwrap();
    assert!(bp.modules.is_empty());
    assert_eq!(bp.variables.len(), 0);
}

#[test]
fn call_form_module_reads_attributes() {
    let call = BluePrint::parse(r#"foo(name = "x")"#).unwrap();
    assert_eq!(call.modules.len(), 1);
    assert_eq!(call.modules[0].typ, "foo");
    assert_eq!(call.modules[0].get_string("name"), Some(&"x".to_string()));
    let brace = BluePrint::parse(r#"foo { name: "x" }"#).unwrap();
    assert_eq!(call.modules, brace.modules);
}

#[test]
fn module_forms_agree_with_several_attributes() {
    let call = parse_module(r#"cc_library(name = "a", srcs = ["x.c", "y.c"], shared = true)"#).unwrap().1;
    let brace = parse_module(r#"cc_library { name: "a", srcs: ["x.c", "y.c"], shared: true }"#).unwrap().1;
    assert_eq!(call, brace);
}

#[test]
fn parsing_twice_gives_equal_documents() {
    let text = "a = [\"x\"] + b\nm { k: {n: 1}, l: f(2) }\n";
    assert_eq!(BluePrint::parse(text), BluePrint::parse(text));
}

#[test]
fn strings_concatenate() {
    assert_eq!(parse_expr(r#""ab" + "" + "cd""#).unwrap().1, s("abcd"));
}

#[test]
fn arrays_append() {
    assert_eq!(
        parse_expr(r#"["a"] + [] + ["b", "c"]"#).unwrap().1,
        Value::Array(vec![s("a"), s("b"), s("c")])
    );
}

#[test]
fn symbolic_chain_is_kept_in_order() {
    let v = parse_expr(r#"["a"] + y + "c" + f(1)"#).unwrap().1;
    assert_eq!(
        v,
        Value::ConcatExpr(vec![
            Value::Array(vec![s("a")]),
            Value::Ident("y".to_string()),
            s("c"),
            Value::Function(Function { name: "f".to_string(), args: vec![Value::Integer(1)] }),
        ])
    );
}

#[test]
fn extend_string_concatenates() {
    let bp = BluePrint::parse("v = \"ab\"\nv += \"cd\" + \"e\"").unwrap();
    assert_eq!(bp.variables.get("v"), Some(&s("abcde")));
}

#[test]
fn extend_symbolic_builds_chain() {
    let bp = BluePrint::parse("v = a + [\"x\"]\nv += b").unwrap();
    assert_eq!(
        bp.variables.get("v"),
        Some(&Value::ConcatExpr(vec![
            Value::Ident("a".to_string()),
            Value::Array(vec![s("x")]),
            Value::Ident("b".to_string()),
        ]))
    );
}

#[test]
fn trailing_comma_changes_nothing() {
    assert_eq!(parse_array(r#"[1, 2,]"#), parse_array(r#"[1, 2]"#));
    let with = BluePrint::parse("m { a: 1, b: {c: true,}, }").unwrap();
    let without = BluePrint::parse("m { a: 1, b: {c: true} }").unwrap();
    assert_eq!(with, without);
}

#[test]
fn trailing_comma_not_taken_in_calls() {
    assert!(parse_expr("f(1,)").is_err());
    assert!(BluePrint::parse("m(a = 1,)").is_err());
}

#[test]
fn comments_change_nothing() {
    let plain = BluePrint::parse("x = [\"a\", \"b\"]\nm { k: x + [\"c\"] }").unwrap();
    let commented = BluePrint::parse(
        "/* head */ x /* a */ = // line\n [ /* b */ \"a\" // c\n , \"b\" /* d */ ] // e\n m /**/ { // f\n k /* g */ : x /* h */ + // i\n [\"c\"] /* j */ } // end",
    )
    .unwrap();
    assert_eq!(plain, commented);
}

#[test]
fn last_write_wins_in_module_and_variables() {
    let bp = BluePrint::parse("m { a: \"1\", b: 2, a: \"3\" }\nx = 1\nx = 2").unwrap();
    let m = &bp.modules[0];
    assert_eq!(m.entries.len(), 2);
    assert_eq!(m.get("a"), Some(&s("3")));
    assert_eq!(m.entries.keys(), vec!["a".to_string(), "b".to_string()]);
    assert_eq!(bp.variables.get("x"), Some(&Value::Integer(2)));
    assert_eq!(bp.variables.len(), 1);
}

#[test]
fn dict_values_nest() {
    let bp = BluePrint::parse("m { d: { e: [ { f: -3 } ] } }").unwrap();
    let d = bp.modules[0].get_map("d").unwrap();
    let inner = Dict(vec![("f".to_string(), Value::Integer(-3))]);
    assert_eq!(d.get("e"), Some(&Value::Array(vec![Value::Dict(inner)])));
}

#[test]
fn getters_check_the_kind() {
    let bp = BluePrint::parse("m { s: \"t\", b: false, a: [], d: {}, i: other, n: 4 }").unwrap();
    let m = &bp.modules[0];
    assert_eq!(m.get_string("s"), Some(&"t".to_string()));
    assert_eq!(m.get_bool("b"), Some(false));
    assert_eq!(m.get_array("a"), Some(&vec![]));
    assert_eq!(m.get_map("d"), Some(&Dict(vec![])));
    assert_eq!(m.get_ident("i"), Some(&"other".to_string()));
    assert_eq!(m.get("n"), Some(&Value::Integer(4)));
    assert_eq!(m.get_string("b"), None);
    assert_eq!(m.get_bool("s"), None);
    assert_eq!(m.get_array("d"), None);
    assert_eq!(m.get_map("a"), None);
    assert_eq!(m.get_ident("s"), None);
    assert_eq!(m.get("missing"), None);
    assert_eq!(m.get("S"), None);
}

#[test]
fn modules_by_type_keeps_order() {
    let bp = BluePrint::parse("a { n: 1 }\nb { n: 2 }\na { n: 3 }\nA { n: 4 }").unwrap();
    let found = bp.modules_by_type("a");
    assert_eq!(found.len(), 2);
    assert_eq!(found[0].get("n"), Some(&Value::Integer(1)));
    assert_eq!(found[1].get("n"), Some(&Value::Integer(3)));
    assert!(bp.modules_by_type("c").is_empty());
}

#[test]
fn empty_input_is_empty_document() {
    let bp = BluePrint::parse("").unwrap();
    assert!(bp.modules.is_empty());
    assert_eq!(bp.variables.len(), 0);
    let bp = BluePrint::parse(" \n\t /* only */ \r\n").unwrap();
    assert!(bp.modules.is_empty());
}

#[test]
fn integer_limits() {
    assert_eq!(parse_int("-9223372036854775808"), Ok(("", i64::MIN)));
    assert_eq!(parse_int("9223372036854775807x"), Ok(("x", i64::MAX)));
    assert!(parse_int("9223372036854775808").is_err());
    assert!(parse_int("-").is_err());
}

#[test]
fn string_escapes() {
    let v = parse_expr(r#""a\"b\\c\nd\x1b""#).unwrap();
    assert_eq!(v, ("", s("a\"b\\c\nd\\x1b")));
}

#[test]
fn keywords_are_whole_words() {
    assert_eq!(parse_expr("truely").unwrap().1, Value::Ident("truely".to_string()));
    assert_eq!(parse_expr("false").unwrap().1, Value::Boolean(false));
}

#[test]
fn not_concatenable_is_an_error() {
    let msg = BluePrint::parse("x = 1 + 2").unwrap_err();
    assert!(msg.contains("first value is not concatenable"), "{}", msg);
}

#[test]
fn mixed_types_is_an_error() {
    let msg = BluePrint::parse("x = \"a\" + [\"b\"]").unwrap_err();
    assert!(msg.contains("mixed types in concatenation"), "{}", msg);
}

#[test]
fn extend_mismatch_is_an_error() {
    let msg = BluePrint::parse("x = [\"a\"]\nx += 1").unwrap_err();
    assert!(msg.contains("mixed types in concatenation"), "{}", msg);
    assert!(msg.contains("in extend"), "{}", msg);
    let msg = BluePrint::parse("x = 1\nx += \"a\"").unwrap_err();
    assert!(msg.contains("first value is not concatenable"), "{}", msg);
}

#[test]
fn integer_overflow_is_an_error() {
    let msg = BluePrint::parse("x = 9223372036854775808").unwrap_err();
    assert!(msg.contains("integer out of range"), "{}", msg);
    let msg = BluePrint::parse("x = 9223372036854775807\nx += 1").unwrap_err();
    assert!(msg.contains("integer out of range"), "{}", msg);
}

#[test]
fn undefined_variable_is_an_error() {
    let msg = BluePrint::parse("y += 1").unwrap_err();
    assert!(msg.contains("undefined variable"), "{}", msg);
}

#[test]
fn trailing_input_is_an_error() {
    let msg = BluePrint::parse("m { a: 1 }\n123").unwrap_err();
    assert_eq!(msg, "0: at line 2, in trailing input:\n123\n^\n\n");
    assert!(BluePrint::parse("m { a: 1 } junk").is_err());
}

#[test]
fn unclosed_string_is_an_error() {
    let msg = BluePrint::parse("x = \"abc").unwrap_err();
    assert!(msg.contains("expected '\"', got end of input"), "{}", msg);
    assert!(msg.contains("in string"), "{}", msg);
}

#[test]
fn missing_colon_is_an_error() {
    let msg = BluePrint::parse("m { a \"b\" }").unwrap_err();
    assert!(msg.contains("expected ':', found \""), "{}", msg);
    assert!(msg.contains("in module"), "{}", msg);
}

#[test]
fn bad_call_argument_is_an_error() {
    let msg = BluePrint::parse("x = f(1, ]").unwrap_err();
    assert!(msg.contains("in call"), "{}", msg);
    assert!(msg.contains("in define"), "{}", msg);
}

#[test]
fn diagnostics_on_non_ascii_text() {
    let text = "x = \"é€😀\" + 1";
    let msg = BluePrint::parse(text).unwrap_err();
    assert!(msg.starts_with(&format!("0: at line 1, in mixed types in concatenation:\n{}\n    ^\n", text)), "{}", msg);
    // the caret column counts bytes: `é` takes two
    let text = "m { k: \"é\" ]";
    let msg = BluePrint::parse(text).unwrap_err();
    assert!(msg.starts_with(&format!("0: at line 1:\n{}\n{}^\nexpected '}}', found ]", text, " ".repeat(12))), "{}", msg);
}

#[test]
fn unicode_text_is_kept() {
    let bp = BluePrint::parse("m { name: \"é€😀\" }").unwrap();
    assert_eq!(bp.modules[0].get_string("name"), Some(&"é€😀".to_string()));
}

#[test]
fn long_lists_parse() {
    let items: Vec<String> = (0..20000).map(|k| format!("\"f{}.c\"", k)).collect();
    let text = format!("m {{ srcs: [{}], }}\nv = [{},]", items.join(", "), items.join(",\n"));
    let bp = BluePrint::parse(&text).unwrap();
    assert_eq!(bp.modules[0].get_array("srcs").unwrap().len(), 20000);
    assert_eq!(bp.variables.get("v"), Some(&Value::Array(bp.modules[0].get_array("srcs").unwrap().clone())));
}

#[test]
fn clones_are_equal() {
    let bp = BluePrint::parse("a = f(x) + [\"y\"]\nm { d: { e: [1, \"s\", true] } }").unwrap();
    let copy = bp.clone();
    assert_eq!(copy, bp);
    assert_eq!(copy.modules[0].clone(), bp.modules[0]);
}
