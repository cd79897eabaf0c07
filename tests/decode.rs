use ron_decode::{from_str, CommaSeparated, Deserializer, Error, Number, Value};

fn num(units: i128) -> Value {
    Value::Number(Number::new(units))
}

fn whole(v: i64) -> Value {
    Value::Number(Number::from_integer(v))
}

fn eval(s: &str) -> Value {
    Value::from_str(s).expect("Failed to parse")
}

#[test]
fn test_escape_char() {
    assert_eq!('\'', from_str::<char>("'\\''").unwrap());
}

#[test]
fn test_escape() {
    assert_eq!("\"Quoted\"", from_str::<String>(r#""\"Quoted\"""#).unwrap());
}

#[test]
fn test_string() {
    let s: String = from_str("\"String\"").unwrap();

    assert_eq!("String", s);
}

#[test]
fn test_char() {
    assert_eq!(Ok('c'), from_str("'c'"));
}

#[test]
fn test_option() {
    assert_eq!(Ok(Some(1u8)), from_str("Some(1)"));
    assert_eq!(Ok(None::<u8>), from_str("None"));
}

#[test]
fn test_none() {
    assert_eq!(eval("None"), Value::Option(None));
}

#[test]
fn golden_values_decode() {
    assert_eq!(eval("true"), Value::Bool(true));
    assert_eq!(eval("'x'"), Value::Char('x'));
    assert_eq!(eval("42"), whole(42));
    assert_eq!(eval("\"hi\""), Value::String("hi".to_string()));
    assert_eq!(eval("()"), Value::Unit);
    assert_eq!(eval("[1, 2]"), Value::List(vec![whole(1), whole(2)]));
    assert_eq!(eval("Some(1)"), Value::Option(Some(Box::new(whole(1)))));
    assert_eq!(from_str::<Vec<u64>>("[2,3,4,]"), Ok(vec![2, 3, 4]));
    assert_eq!(from_str::<Vec<u64>>("[]"), Ok(vec![]));
    assert_eq!(from_str::<i64>("-9223372036854775808"), Ok(i64::MIN));
    assert_eq!(from_str::<i32>("-17"), Ok(-17));
    assert_eq!(from_str::<i64>("+17"), Ok(17));
    assert_eq!(from_str::<i64>("9223372036854775807"), Ok(i64::MAX));
}

#[test]
fn decoding_is_deterministic() {
    let input = "{ \"a\": [1, 2.5, Some('c')], \"b\": None }";
    assert_eq!(Value::from_str(input), Value::from_str(input));
    assert_eq!(Value::from_str("[1 2]"), Value::from_str("[1 2]"));
}

#[test]
fn trailing_commas_are_tolerated() {
    assert_eq!(eval("[1,2,3,]"), eval("[1,2,3]"));
    assert_eq!(eval("(1,2,3,)"), eval("(1,2,3)"));
    assert_eq!(eval("{1:2,3:4,}"), eval("{1:2,3:4}"));
    assert_eq!(eval("(x:4,y:7,)"), eval("(x:4,y:7)"));
    assert_eq!(from_str::<Vec<u64>>("[1,2,3,]"), from_str::<Vec<u64>>("[1,2,3]"));
}

#[test]
fn map_order_follows_keys() {
    let a = eval("{(true,false,):4,(false,false,):123,}");
    let b = eval("{(false,false,):123,(true,false,):4}");
    assert_eq!(a, b);
    match a {
        Value::Dict(entries) => {
            assert_eq!(entries.len(), 2);
            assert_eq!(entries[0].0, Value::List(vec![Value::Bool(false), Value::Bool(false)]));
            assert_eq!(entries[0].1, whole(123));
            assert_eq!(entries[1].0, Value::List(vec![Value::Bool(true), Value::Bool(false)]));
            assert_eq!(entries[1].1, whole(4));
        }
        other => panic!("not a map: {:?}", other),
    }
}

#[test]
fn later_duplicate_key_wins() {
    match eval("{1: 2, 1: 3}") {
        Value::Dict(entries) => {
            assert_eq!(entries.len(), 1);
            assert_eq!(entries[0].1, whole(3));
        }
        other => panic!("not a map: {:?}", other),
    }
}

#[test]
fn option_round_trip() {
    assert_eq!(from_str::<Option<u64>>("Some(1)"), Ok(Some(1)));
    assert_eq!(from_str::<Option<u64>>("None"), Ok(None));
    assert_eq!(from_str::<Option<u64>>("Some(1"), Err(Error::ExpectedOptionEnd));
    assert_eq!(from_str::<Option<u64>>("Nothing"), Err(Error::ExpectedOption));
}

#[test]
fn named_and_bare_unit_agree() {
    let mut de = Deserializer::from_str("EmptyStruct1");
    assert_eq!(de.unit_struct("EmptyStruct1"), Ok(()));
    assert_eq!(de.end(), Ok(()));
    let mut de = Deserializer::from_str("()");
    assert_eq!(de.unit_struct("EmptyStruct1"), Ok(()));
    assert_eq!(de.end(), Ok(()));
    assert_eq!(eval("EmptyStruct2()"), eval("()"));
    assert_eq!(eval("EmptyStruct1"), Value::Unit);
}

#[test]
fn enum_variants_decode() {
    let mut de = Deserializer::from_str("A");
    assert_eq!(de.parse_identifier(), Ok(b"A".to_vec()));
    assert_eq!(de.end(), Ok(()));

    let mut de = Deserializer::from_str("B(true,)");
    assert_eq!(de.parse_identifier(), Ok(b"B".to_vec()));
    assert_eq!(de.newtype_start(""), Ok(()));
    assert_eq!(de.parse_bool(), Ok(true));
    assert_eq!(de.struct_end(), Ok(()));
    assert_eq!(de.end(), Ok(()));

    let mut de = Deserializer::from_str("C(true,3.5,)");
    assert_eq!(de.parse_identifier(), Ok(b"C".to_vec()));
    assert_eq!(de.tuple_start(""), Ok(()));
    let mut it = CommaSeparated::new(b')');
    assert_eq!(it.next_element(&mut de), Ok(true));
    assert_eq!(de.parse_bool(), Ok(true));
    assert_eq!(it.next_element(&mut de), Ok(true));
    assert_eq!(de.parse_number(), Ok(Number::new(3_500_000_000)));
    assert_eq!(it.next_element(&mut de), Ok(false));
    assert_eq!(de.tuple_end(), Ok(()));
    assert_eq!(de.end(), Ok(()));

    let mut de = Deserializer::from_str("D(a:2,b:3,)");
    assert_eq!(de.parse_identifier(), Ok(b"D".to_vec()));
    assert_eq!(de.struct_start(""), Ok(()));
    let mut it = CommaSeparated::new(b')');
    assert_eq!(it.next_key(&mut de), Ok(true));
    assert_eq!(de.parse_identifier(), Ok(b"a".to_vec()));
    assert_eq!(it.next_value(&mut de), Ok(()));
    assert_eq!(de.parse_signed(), Ok(2));
    assert_eq!(it.next_key(&mut de), Ok(true));
    assert_eq!(de.parse_identifier(), Ok(b"b".to_vec()));
    assert_eq!(it.next_value(&mut de), Ok(()));
    assert_eq!(de.parse_signed(), Ok(3));
    assert_eq!(it.next_key(&mut de), Ok(false));
    assert_eq!(de.struct_end(), Ok(()));
    assert_eq!(de.end(), Ok(()));
}

#[test]
fn records_decode_dynamically() {
    let by_name = eval("MyStruct(x:4,y:7,)");
    assert_eq!(by_name, eval("(x:4,y:7)"));
    match by_name {
        Value::Dict(entries) => {
            assert_eq!(entries[0].0, Value::String("x".to_string()));
            assert_eq!(entries[0].1, whole(4));
        }
        other => panic!("not a record: {:?}", other),
    }
    assert_eq!(eval("NewType(42)"), whole(42));
    assert_eq!(eval("TupleStruct(2,5,)"), Value::List(vec![whole(2), whole(5)]));
    assert_eq!(eval("D(a:2,b:3,)"), eval("(b:3,a:2)"));
}

#[test]
fn string_escapes_decode() {
    assert_eq!(from_str::<String>(r#""a\\b\/c\n\t""#), Ok("a\\b/c\n\t".to_string()));
    assert_eq!(from_str::<String>(r#""Aé""#), Ok("Aé".to_string()));
    assert_eq!(from_str::<String>(r#""😀""#), Ok("\u{1F600}".to_string()));
    assert_eq!(from_str::<String>(r#""\ud800""#), Ok("\u{FFFD}".to_string()));
    assert_eq!(from_str::<String>(r#""\u0041\u00e9""#), Ok("A\u{e9}".to_string()));
    assert_eq!(from_str::<String>(r#""\ud83d\ude00""#), Ok("\u{1F600}".to_string()));
    assert_eq!(from_str::<String>(r#""\ude00\u0041""#), Ok("\u{FFFD}A".to_string()));
    assert_eq!(from_str::<String>("\"é\""), Ok("é".to_string()));
    assert_eq!(from_str::<String>(""), Err(Error::ExpectedString));
}

#[test]
fn invalid_utf8_string_is_rejected() {
    let mut de = Deserializer::from_bytes(&[34, 0xff, 34]);
    assert_eq!(de.parse_string(), Err(Error::ExpectedString));
}

#[test]
fn trailing_characters_are_rejected() {
    assert_eq!(from_str::<u64>("1 x"), Err(Error::TrailingCharacters));
    assert_eq!(from_str::<u64>(" 1 \n"), Ok(1));
    assert_eq!(Value::from_str("[1] ]"), Err(Error::TrailingCharacters));
}

#[test]
fn malformed_input_gives_specific_errors() {
    assert_eq!(from_str::<Vec<u64>>("1,2]"), Err(Error::ExpectedArray));
    assert_eq!(from_str::<Vec<u64>>("[1 2]"), Err(Error::ExpectedArrayComma));
    assert_eq!(Value::from_str("{1 2}"), Err(Error::ExpectedMapColon));
    assert_eq!(Value::from_str("{1:2 3:4}"), Err(Error::ExpectedMapComma));
    assert_eq!(Value::from_str("(a:1 b:2)"), Err(Error::ExpectedMapComma));
    assert_eq!(Value::from_str("   "), Err(Error::Eof));
    let mut de = Deserializer::from_str("1:2}");
    assert_eq!(de.map_start(), Err(Error::ExpectedMap));
    let mut de = Deserializer::from_str(" )");
    assert_eq!(de.map_end(), Err(Error::ExpectedMapEnd));
    let mut de = Deserializer::from_str("]");
    assert_eq!(de.tuple_end(), Err(Error::ExpectedArrayEnd));
    let mut de = Deserializer::from_str("x");
    assert_eq!(de.seq_end(), Err(Error::ExpectedArrayEnd));
    let mut de = Deserializer::from_str("Name[");
    assert_eq!(de.struct_start("Name"), Err(Error::ExpectedStruct));
    let mut de = Deserializer::from_str(",]");
    assert_eq!(de.struct_end(), Err(Error::ExpectedStructEnd));
    let mut de = Deserializer::from_str("{");
    assert_eq!(de.unit(), Err(Error::ExpectedUnit));
    assert_eq!(from_str::<bool>("yes"), Err(Error::ExpectedBoolean));
    assert_eq!(from_str::<char>("'ab'"), Err(Error::ExpectedChar));
    assert_eq!(from_str::<char>("'\\q'"), Err(Error::InvalidEscape));
    assert_eq!(from_str::<u64>("abc"), Err(Error::ExpectedInteger));
    assert_eq!(from_str::<u64>("18446744073709551616"), Err(Error::ExpectedInteger));
    assert_eq!(from_str::<u8>("256"), Err(Error::ExpectedInteger));
    assert_eq!(from_str::<i64>("-92233720368547758080"), Err(Error::ExpectedInteger));
    assert_eq!(from_str::<i64>("9223372036854775808"), Err(Error::ExpectedInteger));
    assert_eq!(from_str::<Number>("x"), Err(Error::ExpectedFloat));
    assert_eq!(from_str::<Number>("1.1234567890"), Err(Error::ExpectedFloat));
    assert_eq!(from_str::<String>("\"abc"), Err(Error::ExpectedString));
    let mut de = Deserializer::from_str("1a");
    assert_eq!(de.parse_identifier(), Err(Error::ExpectedIdentifier));
}

#[test]
fn numbers_are_exact() {
    assert_eq!(from_str::<Number>("3.5"), Ok(Number::new(3_500_000_000)));
    assert_eq!(from_str::<Number>("-0.25"), Ok(Number::new(-250_000_000)));
    assert_eq!(from_str::<Number>("+7"), Ok(Number::new(7_000_000_000)));
    assert_eq!(from_str::<Number>("0.000000001"), Ok(Number::new(1)));
    assert_eq!(eval("2.50"), num(2_500_000_000));
    assert_eq!(from_str::<u64>("18446744073709551615"), Ok(u64::MAX));
    assert_eq!(Number::from_integer(-3).get(), -3_000_000_000);
}

#[test]
fn remainder_shows_unread_text() {
    let mut de = Deserializer::from_str("12 rest");
    assert_eq!(de.parse_unsigned(), Ok(12));
    assert_eq!(de.remainder(), " rest");
    let mut de = Deserializer::from_bytes(&[49, 32, 0xff]);
    assert_eq!(de.parse_unsigned(), Ok(1));
    assert_eq!(de.remainder(), " \u{FFFD}");
}

#[test]
fn value_order_is_by_variant_then_content() {
    assert_eq!(eval("{\"b\": 1, \"a\": 2, true: 3}"), eval("{true: 3, \"a\": 2, \"b\": 1}"));
    match eval("{\"b\": 1, \"a\": 2, true: 3}") {
        Value::Dict(entries) => {
            assert_eq!(entries[0].0, Value::Bool(true));
            assert_eq!(entries[1].0, Value::String("a".to_string()));
            assert_eq!(entries[2].0, Value::String("b".to_string()));
        }
        other => panic!("not a map: {:?}", other),
    }
    assert_ne!(eval("[1]"), eval("[1, 2]"));
}

#[test]
fn custom_error_holds_message() {
    assert_eq!(Error::custom("boom".to_string()), Error::Message("boom".to_string()));
}
