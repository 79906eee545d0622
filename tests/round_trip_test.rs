use libconfig_rs::error::{Expected, SyntaxError};
use libconfig_rs::parser::root;
use libconfig_rs::printer::print;
use libconfig_rs::value::{ArrayType, Value};

fn sample() -> Value {
    Value::Object(vec![
        ("flag".to_string(), Value::Bool(false)),
        ("count".to_string(), Value::Int(-42)),
        ("ratio".to_string(), Value::Float("2.5e-3".to_string())),
        ("name".to_string(), Value::String("say \"hi\"\n\tback\\slash é".to_string())),
        (
            "list".to_string(),
            Value::Array(vec![Value::Int(1), Value::Array(vec![], ArrayType::Array)], ArrayType::List),
        ),
        (
            "inner".to_string(),
            Value::Object(vec![("_x1".to_string(), Value::Object(vec![]))]),
        ),
    ])
}

#[test]
fn render_then_parse_gives_the_tree_back() {
    let v = sample();
    let text = v.to_string();
    assert_eq!(Value::from_str(&text).unwrap(), v);
}

#[test]
fn render_layout() {
    let v = Value::Object(vec![
        ("a".to_string(), Value::Int(1)),
        ("b".to_string(), Value::Object(vec![("c".to_string(), Value::Bool(true))])),
        ("d".to_string(), Value::Array(vec![Value::Int(1), Value::Int(2)], ArrayType::Array)),
    ]);
    assert_eq!(
        v.to_string(),
        "config : {\n    a : 1;\n    b : {\n        c : true;\n    };\n    d : [ 1, 2 ];\n};"
    );
}

#[test]
fn render_scalars() {
    assert_eq!(Value::Bool(true).to_string(), "config : true;");
    assert_eq!(Value::Int(i64::MIN).to_string(), "config : -9223372036854775808;");
    assert_eq!(Value::String("q\"".to_string()).to_string(), "config : \"q\\\"\";");
    assert_eq!(Value::Array(vec![], ArrayType::List).to_string(), "config : (  );");
    let mut out = String::new();
    print(&mut out, &Value::Object(vec![]), 4);
    assert_eq!(out, "{\n}");
}

#[test]
fn smallest_integer_round_trips() {
    let v = Value::Int(i64::MIN);
    assert_eq!(Value::from_str(&v.to_string()).unwrap(), v);
    let v = Value::Int(i64::MAX);
    assert_eq!(Value::from_str(&v.to_string()).unwrap(), v);
}

#[test]
fn integer_overflow_falls_back_to_float() {
    let v = Value::from_str("config : 99999999999999999999;").unwrap();
    assert_eq!(v, Value::Float("99999999999999999999".to_string()));
}

#[test]
fn dotted_and_exponent_numbers_are_floats() {
    assert_eq!(Value::from_str("config : 1.5;").unwrap(), Value::Float("1.5".to_string()));
    assert_eq!(Value::from_str("config : -.5;").unwrap(), Value::Float("-.5".to_string()));
    assert_eq!(Value::from_str("config : 2E10;").unwrap(), Value::Float("2E10".to_string()));
    assert_eq!(Value::from_str("config : -7L;").unwrap(), Value::Int(-7));
    assert!(Value::from_str("config : 1.2.3;").is_err());
}

#[test]
fn members_need_no_whitespace_and_later_keys_replace() {
    let v = Value::from_str("config:{a:1;b:2;a:3;};").unwrap();
    assert_eq!(
        v,
        Value::Object(vec![("a".to_string(), Value::Int(3)), ("b".to_string(), Value::Int(2))])
    );
}

#[test]
fn any_key_may_wrap_the_document() {
    let v = Value::from_str("  settings : \"x\" ;").err();
    assert!(v.is_some());
    assert_eq!(Value::from_str("\n settings : \"x\";\n\t").unwrap(), Value::String("x".to_string()));
}

#[test]
fn trailing_content_is_an_error() {
    let e = root("config : 1; other : 2;").unwrap_err();
    assert_eq!(e.offset, 12);
    assert_eq!(e.expected, Expected::End);
}

#[test]
fn errors_carry_offset_and_context() {
    let e: SyntaxError = root("config : [1, 2,];").unwrap_err();
    assert_eq!(e.offset, 15);
    assert_eq!(e.context, vec![libconfig_rs::error::Context::Array]);
    let e = root("config : \"open;").unwrap_err();
    assert_eq!(e.expected, Expected::Quote);
    let e = root("config : \"bad \\q\";").unwrap_err();
    assert_eq!(e.expected, Expected::Escape);
    let e = root("1config : 2;").unwrap_err();
    assert_eq!(e.expected, Expected::Ident);
}

#[test]
fn escapes_decode() {
    let v = Value::from_str(r#"config : "a\"b\\c\/d\ne\rf\tg\bh\fi";"#).unwrap();
    assert_eq!(v, Value::String("a\"b\\c/d\ne\rf\tg\u{8}h\u{c}i".to_string()));
}

#[test]
fn object_from_text() {
    let m = Value::obj_from_str("config : { a : true; };").unwrap();
    assert_eq!(m, vec![("a".to_string(), Value::Bool(true))]);
    assert!(Value::obj_from_str("config : 3;").is_err());
}

#[test]
fn accessors() {
    let mut v = Value::from_str("config : { s : \"t\"; l : [1]; f : 0.5; };").unwrap();
    assert!(v.as_obj().is_some());
    assert!(v.as_bool().is_none());
    let m = v.as_obj_mut().unwrap();
    assert_eq!(m[0].1.as_str(), Some("t"));
    assert_eq!(m[1].1.as_vec().unwrap().len(), 1);
    assert_eq!(m[2].1.as_float().map(|f| f.as_str()), Some("0.5"));
    *m[1].1.as_vec_mut().unwrap() = vec![Value::Int(9)];
    *m[0].1.as_str_mut().unwrap() = "u".to_string();
    let mut i = Value::Int(3);
    *i.as_int_mut().unwrap() += 1;
    assert_eq!(i.as_int(), Some(&4));
    let mut b = Value::Bool(false);
    *b.as_bool_mut().unwrap() = true;
    assert_eq!(b, Value::Bool(true));
    let mut f = Value::Float("1.0".to_string());
    f.as_float_mut().unwrap().push('5');
    assert_eq!(f, Value::Float("1.05".to_string()));
    assert_eq!(
        v.to_string(),
        "config : {\n    s : \"u\";\n    l : [ 9 ];\n    f : 0.5;\n};"
    );
}

#[test]
fn number_edges() {
    assert_eq!(Value::from_str("config : .5;").unwrap(), Value::Float(".5".to_string()));
    assert_eq!(Value::from_str("config : +5;").unwrap(), Value::Float("+5".to_string()));
    assert_eq!(Value::from_str("config : 5.;").unwrap(), Value::Float("5.".to_string()));
    assert_eq!(Value::from_str("config : 007;").unwrap(), Value::Int(7));
    assert!(Value::from_str("config : 1..2;").is_err());
    assert!(Value::from_str("config : 1e;").is_err());
    assert!(Value::from_str("config : 5.0L;").is_err());
    assert!(Value::from_str("config : -;").is_err());
    assert!(Value::float("12").is_err());
    assert!(Value::float("1e").is_err());
    assert_eq!(Value::float("1e-5").unwrap(), Value::Float("1e-5".to_string()));
}

#[test]
fn offsets_count_bytes_and_contexts_nest() {
    let e = root("config : \"é\"; x").unwrap_err();
    assert_eq!(e.position, 14);
    assert_eq!(e.offset, 15);
    assert_eq!(e.expected, Expected::End);
    let e = root("config : { a : [1, }; };").unwrap_err();
    assert_eq!(e.expected, Expected::Value);
    assert_eq!(e.position, 19);
    assert_eq!(
        e.context,
        vec![libconfig_rs::error::Context::Array, libconfig_rs::error::Context::Object]
    );
    let e = root("config 1;").unwrap_err();
    assert_eq!(e.expected, Expected::Char(':'));
    assert_eq!(e.offset, 7);
    let e = root("config : 1 ;").unwrap_err();
    assert_eq!(e.expected, Expected::Char(';'));
    assert_eq!(e.offset, 10);
    let e = Value::obj_from_str("config : [;").unwrap_err();
    assert_eq!(e, root("config : [;").unwrap_err());
}
