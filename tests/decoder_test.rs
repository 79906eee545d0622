use libconfig_rs::error::{Error, Shape, TokenKind};
use libconfig_rs::serde::deserialize::{from_str, Deserializer};
use libconfig_rs::serde::serialize::to_string;
use libconfig_rs::value::{ArrayType, Value};

#[test]
fn decode_encode_gives_the_value_back() {
    let x: Vec<i64> = vec![3, -1, 0];
    assert_eq!(from_str::<Vec<i64>>(&to_string(&x)).unwrap(), x);
    let y: (Option<i32>, String) = (Some(7), "s".to_string());
    assert_eq!(from_str::<(Option<i32>, String)>(&to_string(&y)).unwrap(), y);
    let z: (bool, ()) = (true, ());
    assert_eq!(from_str::<(bool, ())>(&to_string(&z)).unwrap(), z);
    let n: Option<Vec<bool>> = None;
    assert_eq!(from_str::<Option<Vec<bool>>>(&to_string(&n)).unwrap(), n);
}

#[test]
fn encoded_text() {
    assert_eq!(to_string(&Some(2i32)), "config : ( 2 );");
    assert_eq!(to_string(&(1i64, true)), "config : ( 1, true );");
    assert_eq!(to_string(&"a".to_string()), "config : \"a\";");
}

#[test]
fn tokens_in_order() {
    let v = Value::from_str("config : { a : [ 1, \"x\" ]; b : 2.5; };").unwrap();
    let mut d = Deserializer::new(&v);
    assert_eq!(d.deserialize_struct(), Ok(2));
    assert_eq!(d.deserialize_identifier(), Ok("a".to_string()));
    assert_eq!(d.deserialize_seq(), Ok(2));
    assert_eq!(d.deserialize_i64(), Ok(1));
    assert_eq!(d.deserialize_char(), Ok('x'));
    assert_eq!(d.deserialize_identifier(), Ok("b".to_string()));
    assert_eq!(d.deserialize_float(), Ok("2.5".to_string()));
    assert!(d.is_done());
    assert_eq!(d.deserialize_bool(), Err(Error::Truncated));
}

#[test]
fn shape_errors() {
    let v = Value::Array(vec![Value::Int(1), Value::String(String::new()), Value::Int(1 << 40)], ArrayType::List);
    let mut d = Deserializer::new(&v);
    assert_eq!(d.deserialize_any(), Err(Error::Unsupported));
    assert_eq!(d.deserialize_option(), Err(Error::BadCount { expected: Shape::Optional, count: 3 }));
    assert_eq!(d.deserialize_bool(), Err(Error::ShapeMismatch { expected: Shape::Bool, found: TokenKind::Int }));
    assert_eq!(d.deserialize_char(), Err(Error::EmptyChar));
    assert_eq!(d.deserialize_i32(), Err(Error::OutOfRange));
}

#[test]
fn counts_must_match() {
    let v = Value::Array(vec![Value::Int(1)], ArrayType::List);
    assert_eq!(Deserializer::new(&v).deserialize_unit(), Err(Error::BadCount { expected: Shape::Unit, count: 1 }));
    assert_eq!(Deserializer::new(&v).deserialize_newtype_struct(), Ok(()));
    assert_eq!(Deserializer::new(&v).deserialize_map(), Ok(1));
    assert_eq!(
        Deserializer::new(&Value::Int(3)).deserialize_map(),
        Err(Error::ShapeMismatch { expected: Shape::Mapping, found: TokenKind::Int })
    );
    let mut d = Deserializer::new(&v);
    assert_eq!(d.deserialize_option(), Ok(true));
    assert_eq!(d.deserialize_i64(), Ok(1));
}

#[test]
fn enum_forms() {
    let v = Value::String("Unit".to_string());
    let mut d = Deserializer::new(&v);
    assert_eq!(d.deserialize_enum(), Ok(("Unit".to_string(), false)));
    assert_eq!(d.unit_variant(false), Ok(()));
    let v = Value::Object(vec![("N".to_string(), Value::Array(vec![Value::Int(1)], ArrayType::List))]);
    let mut d = Deserializer::new(&v);
    assert_eq!(d.deserialize_enum(), Ok(("N".to_string(), true)));
    assert_eq!(d.newtype_variant(true), Ok(()));
    assert_eq!(d.deserialize_i64(), Ok(1));
    let v = Value::Object(vec![("U".to_string(), Value::Array(vec![], ArrayType::List))]);
    let mut d = Deserializer::new(&v);
    assert_eq!(d.deserialize_enum(), Ok(("U".to_string(), true)));
    assert_eq!(d.unit_variant(true), Ok(()));
    assert!(d.is_done());
    let v = Value::Object(vec![]);
    assert_eq!(Deserializer::new(&v).deserialize_enum(), Err(Error::BadCount { expected: Shape::Enum, count: 0 }));
}

#[test]
fn syntax_and_trailing_errors_from_typed_decoding() {
    assert!(matches!(from_str::<i64>("config : ;"), Err(Error::Syntax(_))));
    assert_eq!(from_str::<Option<i64>>("config : ( 1, 2 );"), Err(Error::BadCount { expected: Shape::Optional, count: 2 }));
    assert_eq!(from_str::<i64>("config : { a : 1; };"), Err(Error::ShapeMismatch { expected: Shape::Int, found: TokenKind::Count }));
    assert_eq!(from_str::<()>("config : ( );"), Ok(()));
    assert_eq!(from_str::<(i64, i64)>("config : ( 1 );"), Err(Error::BadCount { expected: Shape::Sequence, count: 1 }));
}

#[test]
fn map_entries_are_key_then_value() {
    let v = Value::from_str("config : { a : 1; b : 2; };").unwrap();
    let mut d = Deserializer::new(&v);
    assert_eq!(d.deserialize_map(), Ok(2));
    assert_eq!(d.deserialize_identifier(), Ok("a".to_string()));
    assert_eq!(d.deserialize_i64(), Ok(1));
    assert_eq!(d.deserialize_identifier(), Ok("b".to_string()));
    assert_eq!(d.deserialize_i64(), Ok(2));
    assert!(d.is_done());
}

#[test]
fn constructors() {
    assert_eq!(Value::list(vec![Value::Int(1)]), Value::Array(vec![Value::Int(1)], ArrayType::List));
    let v = Value::variant("A".to_string(), Value::list(vec![Value::Int(1)]));
    assert_eq!(v.to_string(), "config : {\n    A : ( 1 );\n};");
    assert!(Value::is_identifier("_a9"));
    assert!(!Value::is_identifier("9a"));
    assert!(!Value::is_identifier(""));
    assert!(!Value::is_identifier("a-b"));
}

#[test]
fn fixed_size_arrays() {
    let a: [i64; 3] = [5, -6, 7];
    assert_eq!(to_string(&a), "config : ( 5, -6, 7 );");
    assert_eq!(from_str::<[i64; 3]>(&to_string(&a)).unwrap(), a);
    assert_eq!(from_str::<[i64; 2]>("config : ( 1, 2, 3 );"), Err(Error::BadCount { expected: Shape::Sequence, count: 3 }));
}
