use libconfig_rs::error::Error;
use libconfig_rs::serde::codec::Codec;
use libconfig_rs::serde::deserialize::{from_str, Deserializer};
use libconfig_rs::serde::serialize::to_string;
use libconfig_rs::value::{ArrayType, Value};
use std::collections::HashMap;
use std::fmt::Debug;

fn object(fields: Vec<(&str, Value)>) -> Value {
    Value::Object(fields.into_iter().map(|(k, v)| (k.to_string(), v)).collect())
}

fn list(items: Vec<Value>) -> Value {
    Value::Array(items, ArrayType::List)
}

fn fields<F: FnMut(&str, &mut Deserializer) -> Result<(), Error>>(d: &mut Deserializer, mut f: F) -> Result<(), Error> {
    let n = d.deserialize_struct()?;
    for _ in 0..n {
        let key = d.deserialize_identifier()?;
        f(&key, d)?;
    }
    Ok(())
}

fn unknown(name: &str) -> Error {
    Error::Message(format!("unknown name {name}"))
}

fn integer<T: TryFrom<i64>>(d: &mut Deserializer) -> Result<T, Error> {
    T::try_from(d.deserialize_i64()?).map_err(|_| Error::OutOfRange)
}

fn int_value<T: Into<i64>>(x: T) -> Value {
    Value::Int(x.into())
}

fn float<T: std::str::FromStr>(d: &mut Deserializer) -> Result<T, Error> {
    d.deserialize_float()?.parse::<T>().map_err(|_| Error::Message("bad float".to_string()))
}

fn float_value<T: Debug>(x: T) -> Value {
    Value::float(&format!("{x:?}")).unwrap()
}

fn round_trip<T: Codec + PartialEq + Debug>(test: T) {
    let ser = to_string(&test);
    let der: T = from_str(&ser).unwrap();
    assert_eq!(test, der);
}

#[derive(PartialEq, Debug, Default)]
struct TestInteger {
    a: i8,
    b: i16,
    c: i32,
    d: i64,
}

impl Codec for TestInteger {
    fn encode(&self) -> Value {
        object(vec![("a", int_value(self.a)), ("b", int_value(self.b)), ("c", int_value(self.c)), ("d", int_value(self.d))])
    }

    fn decode(d: &mut Deserializer) -> Result<Self, Error> {
        let mut t = TestInteger::default();
        fields(d, |k, d| {
            match k {
                "a" => t.a = integer(d)?,
                "b" => t.b = integer(d)?,
                "c" => t.c = integer(d)?,
                "d" => t.d = integer(d)?,
                other => return Err(unknown(other)),
            }
            Ok(())
        })?;
        Ok(t)
    }
}

#[test]
fn test_integer() {
    round_trip(TestInteger { a: -42, b: -2, c: 3, d: 4 });
}

#[derive(PartialEq, Debug, Default)]
struct TestUnsignedInteger {
    a: u8,
    b: u16,
    c: u32,
    d: u64,
}

impl Codec for TestUnsignedInteger {
    fn encode(&self) -> Value {
        object(vec![
            ("a", int_value(self.a)),
            ("b", int_value(self.b)),
            ("c", int_value(self.c)),
            ("d", Value::Int(self.d as i64)),
        ])
    }

    fn decode(d: &mut Deserializer) -> Result<Self, Error> {
        let mut t = TestUnsignedInteger::default();
        fields(d, |k, d| {
            match k {
                "a" => t.a = integer(d)?,
                "b" => t.b = integer(d)?,
                "c" => t.c = integer(d)?,
                "d" => t.d = integer(d)?,
                other => return Err(unknown(other)),
            }
            Ok(())
        })?;
        Ok(t)
    }
}

#[test]
fn test_unsigned_integer() {
    round_trip(TestUnsignedInteger { a: 42, b: 2, c: 3, d: 4 });
}

#[derive(PartialEq, Debug, Default)]
struct TestFloat {
    a: f32,
    b: f64,
}

impl Codec for TestFloat {
    fn encode(&self) -> Value {
        object(vec![("a", float_value(self.a)), ("b", float_value(self.b))])
    }

    fn decode(d: &mut Deserializer) -> Result<Self, Error> {
        let mut t = TestFloat::default();
        fields(d, |k, d| {
            match k {
                "a" => t.a = float(d)?,
                "b" => t.b = float(d)?,
                other => return Err(unknown(other)),
            }
            Ok(())
        })?;
        Ok(t)
    }
}

#[test]
fn serialize_test_test_float() {
    round_trip(TestFloat { a: -3.0, b: 4.0 });
}

#[derive(PartialEq, Debug, Default)]
struct TestBool {
    a: bool,
    b: bool,
}

impl Codec for TestBool {
    fn encode(&self) -> Value {
        object(vec![("a", self.a.encode()), ("b", self.b.encode())])
    }

    fn decode(d: &mut Deserializer) -> Result<Self, Error> {
        let mut t = TestBool::default();
        fields(d, |k, d| {
            match k {
                "a" => t.a = bool::decode(d)?,
                "b" => t.b = bool::decode(d)?,
                other => return Err(unknown(other)),
            }
            Ok(())
        })?;
        Ok(t)
    }
}

#[test]
fn serialize_test_test_bool() {
    round_trip(TestBool { a: true, b: false });
}

#[derive(PartialEq, Debug, Default)]
struct TestChar {
    a: char,
    b: char,
}

impl Codec for TestChar {
    fn encode(&self) -> Value {
        object(vec![("a", Value::String(self.a.to_string())), ("b", Value::String(self.b.to_string()))])
    }

    fn decode(d: &mut Deserializer) -> Result<Self, Error> {
        let mut t = TestChar::default();
        fields(d, |k, d| {
            match k {
                "a" => t.a = d.deserialize_char()?,
                "b" => t.b = d.deserialize_char()?,
                other => return Err(unknown(other)),
            }
            Ok(())
        })?;
        Ok(t)
    }
}

#[test]
fn test_char() {
    round_trip(TestChar { a: 'a', b: ' ' });
}

#[derive(PartialEq, Debug, Default)]
struct TestString {
    a: String,
    b: String,
}

impl Codec for TestString {
    fn encode(&self) -> Value {
        object(vec![("a", self.a.encode()), ("b", self.b.encode())])
    }

    fn decode(d: &mut Deserializer) -> Result<Self, Error> {
        let mut t = TestString::default();
        fields(d, |k, d| {
            match k {
                "a" => t.a = String::decode(d)?,
                "b" => t.b = String::decode(d)?,
                other => return Err(unknown(other)),
            }
            Ok(())
        })?;
        Ok(t)
    }
}

#[test]
fn serialize_test_test_string() {
    round_trip(TestString { a: "".to_string(), b: "THIS IS A STRING".to_string() });
}

#[derive(PartialEq, Debug, Default)]
struct TestArray {
    a: [i32; 2],
    b: [f32; 3],
    c: Vec<i32>,
    d: Vec<f32>,
}

fn floats(d: &mut Deserializer) -> Result<Vec<f32>, Error> {
    let n = d.deserialize_seq()?;
    (0..n).map(|_| float(d)).collect()
}

impl Codec for TestArray {
    fn encode(&self) -> Value {
        object(vec![
            ("a", self.a.encode()),
            ("b", list(self.b.iter().map(|x| float_value(*x)).collect())),
            ("c", self.c.encode()),
            ("d", list(self.d.iter().map(|x| float_value(*x)).collect())),
        ])
    }

    fn decode(d: &mut Deserializer) -> Result<Self, Error> {
        let mut t = TestArray::default();
        fields(d, |k, d| {
            match k {
                "a" => t.a = <[i32; 2]>::decode(d)?,
                "b" => t.b = floats(d)?.try_into().map_err(|_| Error::Message("wrong length".to_string()))?,
                "c" => t.c = Vec::<i32>::decode(d)?,
                "d" => t.d = floats(d)?,
                other => return Err(unknown(other)),
            }
            Ok(())
        })?;
        Ok(t)
    }
}

#[test]
fn serialize_test_test_array() {
    round_trip(TestArray { a: [1, 2], b: [1.1, 2.2, 3.0], c: vec![1, 2], d: vec![1.1, 2.2, 3.0] });
}

#[derive(PartialEq, Debug, Default)]
struct TestOption {
    a: Option<()>,
    b: Option<i32>,
    c: Option<i32>,
}

impl Codec for TestOption {
    fn encode(&self) -> Value {
        object(vec![("a", self.a.encode()), ("b", self.b.encode()), ("c", self.c.encode())])
    }

    fn decode(d: &mut Deserializer) -> Result<Self, Error> {
        let mut t = TestOption::default();
        fields(d, |k, d| {
            match k {
                "a" => t.a = Option::<()>::decode(d)?,
                "b" => t.b = Option::<i32>::decode(d)?,
                "c" => t.c = Option::<i32>::decode(d)?,
                other => return Err(unknown(other)),
            }
            Ok(())
        })?;
        Ok(t)
    }
}

#[test]
fn test_option() {
    round_trip(TestOption { a: Some(()), b: None, c: None });
}

#[derive(PartialEq, Debug, Default)]
struct TestUnit {
    a: (),
}

impl Codec for TestUnit {
    fn encode(&self) -> Value {
        object(vec![("a", self.a.encode())])
    }

    fn decode(d: &mut Deserializer) -> Result<Self, Error> {
        let mut t = TestUnit::default();
        fields(d, |k, d| {
            match k {
                "a" => t.a = <()>::decode(d)?,
                other => return Err(unknown(other)),
            }
            Ok(())
        })?;
        Ok(t)
    }
}

#[test]
fn test_unit() {
    round_trip(TestUnit { a: () });
}

#[derive(PartialEq, Debug, Default)]
struct Struct {
    a: i32,
    b: f64,
}

impl Codec for Struct {
    fn encode(&self) -> Value {
        object(vec![("a", self.a.encode()), ("b", float_value(self.b))])
    }

    fn decode(d: &mut Deserializer) -> Result<Self, Error> {
        let mut t = Struct::default();
        fields(d, |k, d| {
            match k {
                "a" => t.a = i32::decode(d)?,
                "b" => t.b = float(d)?,
                other => return Err(unknown(other)),
            }
            Ok(())
        })?;
        Ok(t)
    }
}

#[derive(PartialEq, Debug, Default)]
struct TestTuple {
    a: ((), i32),
    b: (Struct, i32),
    c: (f32, i32, bool),
}

impl Codec for TestTuple {
    fn encode(&self) -> Value {
        object(vec![
            ("a", self.a.encode()),
            ("b", list(vec![self.b.0.encode(), self.b.1.encode()])),
            ("c", list(vec![float_value(self.c.0), self.c.1.encode(), self.c.2.encode()])),
        ])
    }

    fn decode(d: &mut Deserializer) -> Result<Self, Error> {
        let mut t = TestTuple::default();
        fields(d, |k, d| {
            match k {
                "a" => t.a = <((), i32)>::decode(d)?,
                "b" => t.b = <(Struct, i32)>::decode(d)?,
                "c" => {
                    if d.deserialize_seq()? != 3 {
                        return Err(Error::Message("wrong length".to_string()));
                    }
                    t.c = (float(d)?, i32::decode(d)?, bool::decode(d)?);
                },
                other => return Err(unknown(other)),
            }
            Ok(())
        })?;
        Ok(t)
    }
}

#[test]
fn test_tuple() {
    round_trip(TestTuple { a: ((), 42), b: (Struct { a: 42, b: 42.2 }, 42), c: (0.5, 42, false) });
}

#[derive(PartialEq, Debug, Default)]
struct TestHashmap {
    a: HashMap<String, String>,
    b: HashMap<i32, String>,
    c: HashMap<String, i32>,
}

/// A map with string keys is an object.
fn object_of<V: Codec>(m: &HashMap<String, V>) -> Value {
    Value::Object(m.iter().map(|(k, v)| (k.clone(), v.encode())).collect())
}

fn map_of<V: Codec>(d: &mut Deserializer) -> Result<HashMap<String, V>, Error> {
    let n = d.deserialize_map()?;
    let mut m = HashMap::new();
    for _ in 0..n {
        let k = d.deserialize_identifier()?;
        let v = V::decode(d)?;
        m.insert(k, v);
    }
    Ok(m)
}

/// Integer keys cannot be identifiers: this type writes such a map as a
/// list of its key and value pairs.
fn pairs_of(m: &HashMap<i32, String>) -> Value {
    let v: Vec<(i32, String)> = m.iter().map(|(k, v)| (*k, v.clone())).collect();
    v.encode()
}

impl Codec for TestHashmap {
    fn encode(&self) -> Value {
        object(vec![("a", object_of(&self.a)), ("b", pairs_of(&self.b)), ("c", object_of(&self.c))])
    }

    fn decode(d: &mut Deserializer) -> Result<Self, Error> {
        let mut t = TestHashmap::default();
        fields(d, |k, d| {
            match k {
                "a" => t.a = map_of(d)?,
                "b" => t.b = Vec::<(i32, String)>::decode(d)?.into_iter().collect(),
                "c" => t.c = map_of(d)?,
                other => return Err(unknown(other)),
            }
            Ok(())
        })?;
        Ok(t)
    }
}

#[test]
fn test_hashmap() {
    let mut a = HashMap::new();
    let mut b = HashMap::new();
    let mut c = HashMap::new();
    a.insert("ka".to_string(), "va".to_string());
    b.insert(42, "vb".to_string());
    c.insert("kc".to_string(), 42);
    round_trip(TestHashmap { a, b, c });
}

#[derive(PartialEq, Debug, Default)]
struct UnitStruct;

impl Codec for UnitStruct {
    fn encode(&self) -> Value {
        list(vec![])
    }

    fn decode(d: &mut Deserializer) -> Result<Self, Error> {
        d.deserialize_unit()?;
        Ok(UnitStruct)
    }
}

#[derive(PartialEq, Debug, Default)]
struct StructInStruct {
    a: Struct,
}

impl Codec for StructInStruct {
    fn encode(&self) -> Value {
        object(vec![("a", self.a.encode())])
    }

    fn decode(d: &mut Deserializer) -> Result<Self, Error> {
        let mut t = StructInStruct::default();
        fields(d, |k, d| {
            match k {
                "a" => t.a = Struct::decode(d)?,
                other => return Err(unknown(other)),
            }
            Ok(())
        })?;
        Ok(t)
    }
}

#[derive(PartialEq, Debug, Default)]
struct TestStruct {
    a: UnitStruct,
    b: Struct,
    c: StructInStruct,
}

impl Codec for TestStruct {
    fn encode(&self) -> Value {
        object(vec![("a", self.a.encode()), ("b", self.b.encode()), ("c", self.c.encode())])
    }

    fn decode(d: &mut Deserializer) -> Result<Self, Error> {
        let mut t = TestStruct::default();
        fields(d, |k, d| {
            match k {
                "a" => t.a = UnitStruct::decode(d)?,
                "b" => t.b = Struct::decode(d)?,
                "c" => t.c = StructInStruct::decode(d)?,
                other => return Err(unknown(other)),
            }
            Ok(())
        })?;
        Ok(t)
    }
}

#[test]
fn test_struct() {
    round_trip(TestStruct {
        a: UnitStruct,
        b: Struct { a: 0, b: 42.2 },
        c: StructInStruct { a: Struct { a: 0, b: 42.2 } },
    });
}

#[derive(PartialEq, Debug)]
enum Enum {
    A,
    B(i32),
    C { a: i32, b: f32 },
    D(Struct),
    E(StructInStruct),
}

impl Codec for Enum {
    fn encode(&self) -> Value {
        let (name, payload) = match self {
            Enum::A => ("A", list(vec![])),
            Enum::B(x) => ("B", list(vec![x.encode()])),
            Enum::C { a, b } => ("C", object(vec![("a", a.encode()), ("b", float_value(*b))])),
            Enum::D(x) => ("D", list(vec![x.encode()])),
            Enum::E(x) => ("E", list(vec![x.encode()])),
        };
        object(vec![(name, payload)])
    }

    fn decode(d: &mut Deserializer) -> Result<Self, Error> {
        let (name, object_form) = d.deserialize_enum()?;
        match name.as_str() {
            "A" => {
                d.unit_variant(object_form)?;
                Ok(Enum::A)
            },
            "B" => {
                d.newtype_variant(object_form)?;
                Ok(Enum::B(i32::decode(d)?))
            },
            "C" => {
                let (mut a, mut b) = (0, 0.0);
                fields(d, |k, d| {
                    match k {
                        "a" => a = i32::decode(d)?,
                        "b" => b = float(d)?,
                        other => return Err(unknown(other)),
                    }
                    Ok(())
                })?;
                Ok(Enum::C { a, b })
            },
            "D" => {
                d.newtype_variant(object_form)?;
                Ok(Enum::D(Struct::decode(d)?))
            },
            "E" => {
                d.newtype_variant(object_form)?;
                Ok(Enum::E(StructInStruct::decode(d)?))
            },
            other => Err(unknown(other)),
        }
    }
}

#[derive(PartialEq, Debug)]
struct TestEnumVariants {
    a: Enum,
    b: Enum,
    c: Enum,
    d: Enum,
    e: Enum,
}

impl Codec for TestEnumVariants {
    fn encode(&self) -> Value {
        object(vec![
            ("a", self.a.encode()),
            ("b", self.b.encode()),
            ("c", self.c.encode()),
            ("d", self.d.encode()),
            ("e", self.e.encode()),
        ])
    }

    fn decode(d: &mut Deserializer) -> Result<Self, Error> {
        let mut got: Vec<Option<Enum>> = vec![None, None, None, None, None];
        fields(d, |k, d| {
            let i = match k {
                "a" => 0,
                "b" => 1,
                "c" => 2,
                "d" => 3,
                "e" => 4,
                other => return Err(unknown(other)),
            };
            got[i] = Some(Enum::decode(d)?);
            Ok(())
        })?;
        let mut it = got.into_iter().map(|x| x.ok_or_else(|| Error::Message("missing field".to_string())));
        Ok(TestEnumVariants {
            a: it.next().unwrap()?,
            b: it.next().unwrap()?,
            c: it.next().unwrap()?,
            d: it.next().unwrap()?,
            e: it.next().unwrap()?,
        })
    }
}

#[test]
fn test_enum_variants() {
    round_trip(TestEnumVariants {
        a: Enum::A,
        b: Enum::B(42),
        c: Enum::C { a: 42, b: 42.2 },
        d: Enum::D(Struct { a: 0, b: 42.2 }),
        e: Enum::E(StructInStruct { a: Struct { a: 0, b: 42.2 } }),
    });
}

#[test]
fn test_enum() {
    round_trip(Enum::E(StructInStruct { a: Struct { a: 0, b: 42.2 } }));
}
