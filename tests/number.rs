use nickel_lang_document::{
    as_i128, as_i16, as_i32, as_i64, as_i8, as_u128, as_u16, as_u32, as_u64, as_u8, Error, Number,
    Value,
};

fn num(negative: bool, digits: Vec<u8>, scale: u32) -> Number {
    Number::new(negative, digits, scale).unwrap()
}

#[test]
fn digit_out_of_range_is_refused() {
    assert!(Number::new(false, vec![1, 10], 0).is_none());
}

#[test]
fn integer_literal_converts_exactly() {
    assert_eq!(num(false, vec![4, 2], 0).to_i64().unwrap(), 42);
    assert_eq!(num(true, vec![1, 2, 3], 0).to_i64().unwrap(), -123);
    assert_eq!(num(false, vec![], 0).to_i64().unwrap(), 0);
}

#[test]
fn zero_fraction_is_integral() {
    // 12.00
    assert_eq!(num(false, vec![1, 2, 0, 0], 2).to_i64().unwrap(), 12);
    // 0.0
    assert_eq!(num(false, vec![0], 3).to_i64().unwrap(), 0);
}

#[test]
fn fraction_loses_precision() {
    // 1.5
    assert!(matches!(num(false, vec![1, 5], 1).to_i64(), Err(Error::NumericPrecisionLoss)));
    // 0.005
    assert!(matches!(num(false, vec![5], 3).to_i64(), Err(Error::NumericPrecisionLoss)));
}

#[test]
fn i64_bounds() {
    let max: Vec<u8> = "9223372036854775807".bytes().map(|b| b - b'0').collect();
    let over: Vec<u8> = "9223372036854775808".bytes().map(|b| b - b'0').collect();
    assert_eq!(num(false, max.clone(), 0).to_i64().unwrap(), i64::MAX);
    assert!(matches!(num(false, over.clone(), 0).to_i64(), Err(Error::NumericPrecisionLoss)));
    assert_eq!(num(true, over, 0).to_i64().unwrap(), i64::MIN);
    let mut huge = max;
    huge.push(0);
    assert!(matches!(num(true, huge, 0).to_i64(), Err(Error::NumericPrecisionLoss)));
}

#[test]
fn leading_zeros_do_not_overflow() {
    let mut d = vec![0u8; 40];
    d.push(7);
    assert_eq!(num(false, d, 0).to_i64().unwrap(), 7);
}

#[test]
fn number_value_reads_as_integer() {
    let v: Value<u32> = Value::Number(num(true, vec![5, 0], 1));
    assert_eq!(as_i64(&v).unwrap(), -5);
    let n = num(true, vec![5, 0], 1);
    assert!(n.is_negative());
    assert_eq!(n.digits(), &vec![5, 0]);
    assert_eq!(n.scale(), 1);
}

#[test]
fn wider_integer_requests() {
    let big: Vec<u8> = "18446744073709551615".bytes().map(|b| b - b'0').collect();
    let v: Value<u32> = Value::Number(num(false, big.clone(), 0));
    assert_eq!(as_u64(&v).unwrap(), u64::MAX);
    assert!(matches!(as_i64(&v), Err(Error::NumericPrecisionLoss)));
    assert_eq!(as_i128(&v).unwrap(), u64::MAX as i128);
    assert_eq!(as_u128(&v).unwrap(), u64::MAX as u128);
    let neg: Value<u32> = Value::Number(num(true, vec![7], 0));
    assert!(matches!(as_u64(&neg), Err(Error::NumericPrecisionLoss)));
    assert!(matches!(as_u128(&neg), Err(Error::NumericPrecisionLoss)));
    assert_eq!(as_i128(&neg).unwrap(), -7);
    let neg_zero = num(true, vec![0], 0);
    assert_eq!(neg_zero.to_u64().unwrap(), 0);
    let umax: Vec<u8> = u128::MAX.to_string().bytes().map(|b| b - b'0').collect();
    assert_eq!(num(false, umax.clone(), 0).to_u128().unwrap(), u128::MAX);
    let mut over = umax;
    over.push(0);
    assert!(matches!(num(false, over, 0).to_u128(), Err(Error::NumericPrecisionLoss)));
    let imin: Vec<u8> = "170141183460469231731687303715884105728".bytes().map(|b| b - b'0').collect();
    assert_eq!(num(true, imin.clone(), 0).to_i128().unwrap(), i128::MIN);
    assert!(matches!(num(false, imin, 0).to_i128(), Err(Error::NumericPrecisionLoss)));
}

#[test]
fn error_messages() {
    assert_eq!(Error::NumericPrecisionLoss.message(), "number cannot be represented exactly");
    assert_eq!(Error::Message("m".to_string()).message(), "m");
    assert_eq!(Error::Message(String::new()).message(), "unspecified error");
    let p = vec!["a".to_string(), "b".to_string()];
    assert_eq!(Error::DuplicateField(p.clone()).message(), "duplicate field: a.b");
    assert_eq!(Error::PathConflict(p.clone()).message(), "conflicting field path: a.b");
    assert_eq!(Error::PathTooDeep(vec!["x".to_string()]).message(), "field path too long: x");
    assert_eq!(
        Error::TypeMismatch(nickel_lang_document::Shape::Mapping, nickel_lang_document::Kind::String).message(),
        "type mismatch: expected map, found string"
    );
    assert_eq!(Error::MissingOpaqueSentinel.message(), "no opaque term at this place");
    let e = Error::NumericPrecisionLoss.in_field(&p);
    assert!(matches!(&e, Error::InField(q, inner) if *q == p && matches!(**inner, Error::NumericPrecisionLoss)));
    assert_eq!(e.message(), "in field a.b: number cannot be represented exactly");
}

#[test]
fn narrow_integer_requests() {
    let v: Value<u32> = Value::Number(num(false, vec![2, 5, 5], 0));
    assert_eq!(as_u8(&v).unwrap(), 255);
    assert!(matches!(as_i8(&v), Err(Error::NumericPrecisionLoss)));
    assert_eq!(as_i16(&v).unwrap(), 255);
    let w: Value<u32> = Value::Number(num(true, vec![1, 2, 8], 0));
    assert_eq!(as_i8(&w).unwrap(), -128);
    assert!(matches!(as_u16(&w), Err(Error::NumericPrecisionLoss)));
    let big: Value<u32> = Value::Number(num(false, vec![6, 5, 5, 3, 6], 0));
    assert!(matches!(as_u16(&big), Err(Error::NumericPrecisionLoss)));
    assert_eq!(as_u32(&big).unwrap(), 65536);
    assert_eq!(as_i32(&big).unwrap(), 65536);
    let s: Value<u32> = Value::String("x".to_string());
    assert!(matches!(as_u8(&s), Err(Error::TypeMismatch(nickel_lang_document::Shape::Integer, nickel_lang_document::Kind::String))));
}
