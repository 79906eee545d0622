use libconfig_rs::error::Error;
use libconfig_rs::serde::codec::Codec;
use libconfig_rs::serde::deserialize::{from_str, Deserializer};
use libconfig_rs::value::{ArrayType, Value};

fn float_from(d: &mut Deserializer) -> Result<f32, Error> {
    let text = d.deserialize_float()?;
    text.parse::<f32>().map_err(|e| Error::Message(format!("{e}")))
}

fn float_value(x: f32) -> Value {
    Value::Float(format!("{x:?}"))
}

fn unknown(name: &str) -> Error {
    Error::Message(format!("unknown name {name}"))
}

fn missing(name: &str) -> Error {
    Error::Message(format!("missing field {name}"))
}

struct Test1 {
    a: i32,
    b: i32,
    c: f32,
}

impl Codec for Test1 {
    fn encode(&self) -> Value {
        Value::Object(vec![
            ("a".to_string(), self.a.encode()),
            ("b".to_string(), self.b.encode()),
            ("c".to_string(), float_value(self.c)),
        ])
    }

    fn decode(d: &mut Deserializer) -> Result<Self, Error> {
        let n = d.deserialize_struct()?;
        let (mut a, mut b, mut c) = (None, None, None);
        for _ in 0..n {
            let key = d.deserialize_identifier()?;
            match key.as_str() {
                "a" => a = Some(i32::decode(d)?),
                "b" => b = Some(i32::decode(d)?),
                "c" => c = Some(float_from(d)?),
                other => return Err(unknown(other)),
            }
        }
        Ok(Test1 {
            a: a.ok_or_else(|| missing("a"))?,
            b: b.ok_or_else(|| missing("b"))?,
            c: c.ok_or_else(|| missing("c"))?,
        })
    }
}

#[test]
fn test1() {
    let config = r#"config : {
        a : 1;
        b : 2;
        c : 3.3;
    };
    "#;
    let res = from_str::<Test1>(config).unwrap();

    assert!(res.a == 1);
    assert!(res.b == 2);
    assert!(res.c == 3.3);
}

struct Test2(i32);

impl Codec for Test2 {
    fn encode(&self) -> Value {
        Value::Array(vec![self.0.encode()], ArrayType::List)
    }

    fn decode(d: &mut Deserializer) -> Result<Self, Error> {
        d.deserialize_newtype_struct()?;
        Ok(Test2(i32::decode(d)?))
    }
}

#[test]
fn test2() {
    let config = r#"config : ( 5 );"#;
    let res = from_str::<Test2>(config).unwrap();

    assert!(res.0 == 5);
}

struct Test3(i32, f32);

impl Codec for Test3 {
    fn encode(&self) -> Value {
        Value::Array(vec![self.0.encode(), float_value(self.1)], ArrayType::List)
    }

    fn decode(d: &mut Deserializer) -> Result<Self, Error> {
        let n = d.deserialize_seq()?;
        if n != 2 {
            return Err(Error::Message(format!("expected 2 items, got {n}")));
        }
        let a = i32::decode(d)?;
        let b = float_from(d)?;
        Ok(Test3(a, b))
    }
}

#[test]
fn test3() {
    let config = r#"config : ( 5, 1.0 );"#;
    let res = from_str::<Test3>(config).unwrap();

    assert!(res.0 == 5);
    assert!(res.1 == 1.0);
}

struct Test4 {
    a: Vec<i32>,
}

impl Codec for Test4 {
    fn encode(&self) -> Value {
        Value::Object(vec![("a".to_string(), self.a.encode())])
    }

    fn decode(d: &mut Deserializer) -> Result<Self, Error> {
        let n = d.deserialize_struct()?;
        let mut a = None;
        for _ in 0..n {
            let key = d.deserialize_identifier()?;
            match key.as_str() {
                "a" => a = Some(Vec::<i32>::decode(d)?),
                other => return Err(unknown(other)),
            }
        }
        Ok(Test4 { a: a.ok_or_else(|| missing("a"))? })
    }
}

#[test]
fn test4() {
    let config = r#"config : {
        a : ( 1, 2, 3 );
    };
    "#;
    let res = from_str::<Test4>(config).unwrap();

    assert!(res.a[0] == 1);
    assert!(res.a[1] == 2);
    assert!(res.a[2] == 3);
}

struct Test5 {
    a: Option<i32>,
}

impl Codec for Test5 {
    fn encode(&self) -> Value {
        Value::Object(vec![("a".to_string(), self.a.encode())])
    }

    fn decode(d: &mut Deserializer) -> Result<Self, Error> {
        let n = d.deserialize_struct()?;
        let mut a = None;
        for _ in 0..n {
            let key = d.deserialize_identifier()?;
            match key.as_str() {
                "a" => a = Some(Option::<i32>::decode(d)?),
                other => return Err(unknown(other)),
            }
        }
        Ok(Test5 { a: a.ok_or_else(|| missing("a"))? })
    }
}

#[test]
fn test5() {
    {
        let config = r#"config : {
            a : ( );
        };
        "#;
        let res = from_str::<Test5>(config).unwrap();

        assert!(res.a.is_none());
    }

    {
        let config = r#"config : {
            a : ( 2 );
        };
        "#;
        let res = from_str::<Test5>(config).unwrap();

        assert!(res.a == Some(2));
    }
}

struct Test6 {
    _a: (),
}

impl Codec for Test6 {
    fn encode(&self) -> Value {
        Value::Object(vec![("_a".to_string(), self._a.encode())])
    }

    fn decode(d: &mut Deserializer) -> Result<Self, Error> {
        let n = d.deserialize_struct()?;
        let mut a = None;
        for _ in 0..n {
            let key = d.deserialize_identifier()?;
            match key.as_str() {
                "_a" => a = Some(<()>::decode(d)?),
                other => return Err(unknown(other)),
            }
        }
        Ok(Test6 { _a: a.ok_or_else(|| missing("_a"))? })
    }
}

#[test]
fn test6() {
    {
        let config = r#"config : {
            _a : ();
        };
        "#;
        from_str::<Test6>(config).unwrap();
    }
}

#[derive(Debug, PartialEq)]
enum TestEnum1 {
    A,
    B,
    C,
}

impl Codec for TestEnum1 {
    fn encode(&self) -> Value {
        let name = match self {
            TestEnum1::A => "A",
            TestEnum1::B => "B",
            TestEnum1::C => "C",
        };
        Value::Object(vec![(name.to_string(), Value::Array(vec![], ArrayType::List))])
    }

    fn decode(d: &mut Deserializer) -> Result<Self, Error> {
        let (name, object_form) = d.deserialize_enum()?;
        d.unit_variant(object_form)?;
        match name.as_str() {
            "A" => Ok(TestEnum1::A),
            "B" => Ok(TestEnum1::B),
            "C" => Ok(TestEnum1::C),
            other => Err(unknown(other)),
        }
    }
}

#[derive(Debug, PartialEq)]
enum TestEnum2 {
    A(i32),
    B(f32),
    C(String),
}

impl Codec for TestEnum2 {
    fn encode(&self) -> Value {
        let (name, payload) = match self {
            TestEnum2::A(x) => ("A", x.encode()),
            TestEnum2::B(x) => ("B", float_value(*x)),
            TestEnum2::C(x) => ("C", x.encode()),
        };
        Value::Object(vec![(name.to_string(), Value::Array(vec![payload], ArrayType::List))])
    }

    fn decode(d: &mut Deserializer) -> Result<Self, Error> {
        let (name, object_form) = d.deserialize_enum()?;
        d.newtype_variant(object_form)?;
        match name.as_str() {
            "A" => Ok(TestEnum2::A(i32::decode(d)?)),
            "B" => Ok(TestEnum2::B(float_from(d)?)),
            "C" => Ok(TestEnum2::C(String::decode(d)?)),
            other => Err(unknown(other)),
        }
    }
}

#[derive(Debug, PartialEq)]
enum TestEnum3 {
    A { a: i32 },
    B { b: f32 },
    C { c: String },
}

impl Codec for TestEnum3 {
    fn encode(&self) -> Value {
        let (name, field, payload) = match self {
            TestEnum3::A { a } => ("A", "a", a.encode()),
            TestEnum3::B { b } => ("B", "b", float_value(*b)),
            TestEnum3::C { c } => ("C", "c", c.encode()),
        };
        Value::Object(vec![(name.to_string(), Value::Object(vec![(field.to_string(), payload)]))])
    }

    fn decode(d: &mut Deserializer) -> Result<Self, Error> {
        let (name, _) = d.deserialize_enum()?;
        let n = d.deserialize_struct()?;
        if n != 1 {
            return Err(Error::Message(format!("expected 1 field, got {n}")));
        }
        let field = d.deserialize_identifier()?;
        match (name.as_str(), field.as_str()) {
            ("A", "a") => Ok(TestEnum3::A { a: i32::decode(d)? }),
            ("B", "b") => Ok(TestEnum3::B { b: float_from(d)? }),
            ("C", "c") => Ok(TestEnum3::C { c: String::decode(d)? }),
            (other, _) => Err(unknown(other)),
        }
    }
}

struct Test7 {
    a: TestEnum1,
    b: TestEnum2,
    c: TestEnum3,
}

impl Codec for Test7 {
    fn encode(&self) -> Value {
        Value::Object(vec![
            ("a".to_string(), self.a.encode()),
            ("b".to_string(), self.b.encode()),
            ("c".to_string(), self.c.encode()),
        ])
    }

    fn decode(d: &mut Deserializer) -> Result<Self, Error> {
        let n = d.deserialize_struct()?;
        let (mut a, mut b, mut c) = (None, None, None);
        for _ in 0..n {
            let key = d.deserialize_identifier()?;
            match key.as_str() {
                "a" => a = Some(TestEnum1::decode(d)?),
                "b" => b = Some(TestEnum2::decode(d)?),
                "c" => c = Some(TestEnum3::decode(d)?),
                other => return Err(unknown(other)),
            }
        }
        Ok(Test7 {
            a: a.ok_or_else(|| missing("a"))?,
            b: b.ok_or_else(|| missing("b"))?,
            c: c.ok_or_else(|| missing("c"))?,
        })
    }
}

#[test]
fn test7() {
    {
        let config = r#"config : {
            a : "A";
            b : {
                A : ( 1 );
            };
            c : {
                A : { a : 1; };
            };
        };"#;
        let t = from_str::<Test7>(config).unwrap();
        assert_eq!(t.a, TestEnum1::A);
        assert_eq!(t.b, TestEnum2::A(1));
        assert_eq!(t.c, TestEnum3::A { a: 1 });
    }

    {
        let config = r#"config : {
            a : "B";
            b : {
                B : ( 2.0 );
            };
            c : {
                B : { b : 2.0; };
            };
        };"#;
        let t = from_str::<Test7>(config).unwrap();
        assert_eq!(t.a, TestEnum1::B);
        assert_eq!(t.b, TestEnum2::B(2.0));
        assert_eq!(t.c, TestEnum3::B { b: 2.0 });
    }

    {
        let config = r#"config : {
            a : "C";
            b : {
                C : ( "3" );
            };
            c : {
                C : { c : "3"; };
            };
        };"#;
        let t = from_str::<Test7>(config).unwrap();
        assert_eq!(t.a, TestEnum1::C);
        assert_eq!(t.b, TestEnum2::C("3".to_owned()));
        assert_eq!(t.c, TestEnum3::C { c: "3".to_owned() });
    }
}

#[test]
fn enum_round_trip_through_text() {
    let doc = libconfig_rs::serde::serialize::to_string(&TestEnum2::A(1));
    assert_eq!(doc, "config : {\n    A : ( 1 );\n};");
    assert_eq!(from_str::<TestEnum2>(&doc).unwrap(), TestEnum2::A(1));
    let doc = libconfig_rs::serde::serialize::to_string(&TestEnum1::B);
    assert_eq!(from_str::<TestEnum1>(&doc).unwrap(), TestEnum1::B);
}

#[test]
fn struct_sequence_re_encodes_as_list() {
    let config = "config : { test : (1, 2, 3); };";
    struct S {
        test: Vec<i64>,
    }
    impl Codec for S {
        fn encode(&self) -> Value {
            Value::Object(vec![("test".to_string(), self.test.encode())])
        }
        fn decode(d: &mut Deserializer) -> Result<Self, Error> {
            let n = d.deserialize_struct()?;
            let mut test = None;
            for _ in 0..n {
                let key = d.deserialize_identifier()?;
                match key.as_str() {
                    "test" => test = Some(Vec::<i64>::decode(d)?),
                    other => return Err(unknown(other)),
                }
            }
            Ok(S { test: test.ok_or_else(|| missing("test"))? })
        }
    }
    let s = from_str::<S>(config).unwrap();
    assert_eq!(s.test, vec![1, 2, 3]);
    let doc = libconfig_rs::serde::serialize::to_string(&s);
    assert_eq!(doc, "config : {\n    test : ( 1, 2, 3 );\n};");
}
