use lib::base::OpStatus;
use lib::value::{Value, Dict, SafeVector, ToValue, to_value, values_equal};
use lib::safe_types::{SafeDict, SafeVector as ForgivingVector};
use lib::bits::{get_bit, set_bit, modify_slice};
use lib::random::{random_int, random_char};

fn s(text: &str) -> Value {
    Value::String(text.to_string())
}

#[test]
fn to_value_keeps_the_kind() {
    assert_eq!(to_value(5u8), Value::U8(5));
    assert_eq!(to_value(-5i64), Value::I64(-5));
    assert_eq!(to_value(true), Value::Bool(true));
    assert_eq!(to_value('x'), Value::Char('x'));
    assert_eq!(to_value("ab"), s("ab"));
    assert_eq!(String::from("cd").to_value(), s("cd"));
    assert_eq!(to_value(vec![1u8, 2]), Value::Bytes(vec![1, 2]));
    assert_eq!(to_value(7usize), Value::Usize(7));
}

#[test]
fn value_equality_follows_the_kinds() {
    assert!(values_equal(&Value::U8(1), &Value::U8(1)));
    assert!(!values_equal(&Value::U8(1), &Value::U16(1)));
    assert!(!values_equal(&s("a"), &s("b")));
    assert_ne!(Value::Bytes(vec![1]), Value::Bytes(vec![1, 2]));
}

#[test]
fn float_equality_is_ieee() {
    let nan = f32::NAN.to_bits();
    assert_ne!(Value::F32(nan), Value::F32(nan));
    assert_eq!(Value::F32(0.0f32.to_bits()), Value::F32((-0.0f32).to_bits()));
    assert_eq!(Value::F64(1.5f64.to_bits()), Value::F64(1.5f64.to_bits()));
    assert_ne!(Value::F64(1.5f64.to_bits()), Value::F64(2.5f64.to_bits()));
    assert_ne!(Value::F64(f64::NAN.to_bits()), Value::F64(f64::NAN.to_bits()));
    assert_eq!(Value::F64(0.0f64.to_bits()), Value::F64((-0.0f64).to_bits()));
}

#[test]
fn dict_add_get_set_remove() {
    let mut d = Dict::new();
    assert!(d.is_empty());
    d.add(s("a"), Value::I32(1));
    d.add(s("b"), Value::I32(2));
    d.add(s("a"), Value::I32(3));
    assert_eq!(d.len(), 3);
    assert_eq!(d.get(&s("a")), Ok(Value::I32(1)));
    assert_eq!(d.get(&s("z")), Err(OpStatus::IndexError));
    assert!(d.contains_key(&s("b")));
    assert!(!d.contains_key(&s("z")));
    assert_eq!(d.set(&s("a"), Value::I32(10)), Ok(()));
    assert_eq!(d.get(&s("a")), Ok(Value::I32(10)));
    assert_eq!(d.set(&s("z"), Value::I32(0)), Err(OpStatus::IndexError));
    assert_eq!(d.remove(&s("a")), Ok(Value::I32(3)));
    assert_eq!(d.len(), 2);
    assert_eq!(d.remove(&s("z")), Err(OpStatus::IndexError));
    let keys: Vec<Value> = d.keys().into_iter().cloned().collect();
    assert_eq!(keys, vec![s("a"), s("b")]);
    let values: Vec<Value> = d.values().into_iter().cloned().collect();
    assert_eq!(values, vec![Value::I32(10), Value::I32(2)]);
    assert_eq!(d.iter().len(), 2);
    d.clear();
    assert!(d.is_empty());
}

#[test]
fn dict_with_nan_key_never_finds_it() {
    let mut d = Dict::new();
    let nan = Value::F64(f64::NAN.to_bits());
    d.add(nan.clone(), Value::Bool(true));
    assert!(!d.contains_key(&nan));
    assert_eq!(d.get(&nan), Err(OpStatus::IndexError));
}

#[test]
fn dict_replace_contents_and_set_columns() {
    let mut d = Dict::new();
    d.add(Value::U8(1), Value::U8(2));
    assert!(d.replace_contents(vec![Value::U8(1)], vec![]).is_err());
    assert_eq!(d.len(), 1);
    assert_eq!(d.replace_contents(vec![Value::U8(5), Value::U8(6)], vec![s("x"), s("y")]), Ok(()));
    assert_eq!(d.get(&Value::U8(6)), Ok(s("y")));
    d.set_keys(vec![Value::U8(7), Value::U8(8)]);
    assert_eq!(d.get(&Value::U8(8)), Ok(s("y")));
    d.set_values(vec![s("p"), s("q")]);
    assert_eq!(d.get(&Value::U8(7)), Ok(s("p")));
}

#[test]
fn safe_vector_checked_access() {
    let mut v = SafeVector::new();
    v.push(Value::U8(1));
    v.push(s("two"));
    assert_eq!(v.len(), 2);
    assert_eq!(v.get_value(1), Ok(s("two")));
    assert_eq!(v.get_value(2), Err(OpStatus::IndexError));
    assert_eq!(v.set_value(0, Value::Char('c')), Ok(()));
    assert_eq!(v.set_value(5, Value::Char('c')), Err(OpStatus::IndexError));
    assert_eq!(*v.index(0), Value::Char('c'));
    assert_eq!(v.pop(), Some(s("two")));
    assert_eq!(v.pop(), Some(Value::Char('c')));
    assert_eq!(v.pop(), None);
    assert!(v.is_empty());
    let a = SafeVector::from_vec(vec![Value::U8(1)]);
    let mut b = SafeVector::from_vec(vec![Value::U8(2)]);
    b.extend(vec![Value::U8(3)]);
    let c = a.concat(b);
    assert_eq!(c.as_slice(), &[Value::U8(1), Value::U8(2), Value::U8(3)]);
    assert_eq!(c.into_vec().len(), 3);
}

#[test]
fn forgiving_vector_reads_false_past_the_end() {
    let mut v = ForgivingVector::new();
    v.push(Value::I8(-1));
    assert_eq!(v.get_value(0), Value::I8(-1));
    assert_eq!(v.get_value(9), Value::Bool(false));
    assert_eq!(v.set_value(0, Value::I8(4)), Ok(()));
    assert_eq!(v.set_value(1, Value::I8(4)), Err("Index out of SafeVector limit"));
    assert_eq!(v.get_value(0), Value::I8(4));
    v.clear();
    assert!(v.is_empty());
}

#[test]
fn safe_dict_reports_status() {
    let mut d = SafeDict::from_pairs(vec![(s("k"), Value::U16(1)), (s("k"), Value::U16(2))]);
    let found = d.get(&s("k"));
    assert_eq!((found.value, found.status), (Value::U16(1), OpStatus::Success));
    let missing = d.get(&s("x"));
    assert_eq!((missing.value, missing.status), (Value::Bool(false), OpStatus::IndexError));
    assert_eq!(d.set(&s("k"), Value::U16(9)), OpStatus::Success);
    assert_eq!(d.set(&s("x"), Value::U16(9)), OpStatus::IndexError);
    assert_eq!(d.remove(&s("k")), Some(Value::U16(2)));
    assert_eq!(d.remove(&s("x")), None);
    d.extend(vec![(s("y"), Value::U16(3))]);
    assert_eq!(d.len(), 2);
    let pairs = d.into_pairs();
    assert_eq!(pairs, vec![(s("k"), Value::U16(9)), (s("y"), Value::U16(3))]);
}

#[test]
fn get_bit_reads_representation_bits() {
    assert_eq!(get_bit(&Value::U8(0b100), 2), Ok(1));
    assert_eq!(get_bit(&Value::U8(0b100), 1), Ok(0));
    assert_eq!(get_bit(&Value::U8(1), 8), Err(OpStatus::IndexError));
    assert_eq!(get_bit(&Value::I8(-1), 7), Ok(1));
    assert_eq!(get_bit(&Value::I64(-2), 0), Ok(0));
    assert_eq!(get_bit(&Value::I64(-2), 63), Ok(1));
    assert_eq!(get_bit(&Value::Bool(true), 0), Ok(1));
    assert_eq!(get_bit(&Value::Char('A'), 0), Ok(1));
    assert_eq!(get_bit(&Value::Char('A'), 32), Err(OpStatus::IndexError));
    assert_eq!(get_bit(&Value::F32(1.0f32.to_bits()), 29), Ok(1));
    assert_eq!(get_bit(&Value::U128(1 << 127), 127), Ok(1));
    assert_eq!(get_bit(&s("a"), 0), Err(OpStatus::TypeMismatch));
    assert_eq!(get_bit(&Value::Bytes(vec![1]), 0), Err(OpStatus::TypeMismatch));
}

#[test]
fn set_bit_writes_representation_bits() {
    assert_eq!(set_bit(Value::U8(0), 3, 1), Ok(Value::U8(8)));
    assert_eq!(set_bit(Value::U8(0xFF), 0, 0), Ok(Value::U8(0xFE)));
    assert_eq!(set_bit(Value::I8(0), 7, 1), Ok(Value::I8(-128)));
    assert_eq!(set_bit(Value::I32(-1), 31, 0), Ok(Value::I32(i32::MAX)));
    assert_eq!(set_bit(Value::Bool(false), 0, 1), Ok(Value::Bool(true)));
    assert_eq!(set_bit(Value::Bool(true), 5, 0), Ok(Value::Bool(true)));
    assert_eq!(set_bit(Value::Bool(false), 5, 1), Err(OpStatus::InvalidState));
    assert_eq!(set_bit(Value::Char('\u{F800}'), 13, 0), Err(OpStatus::InvalidState));
    assert_eq!(set_bit(Value::Char('\u{10FFFF}'), 21, 1), Err(OpStatus::InvalidState));
    assert_eq!(set_bit(Value::Char('A'), 5, 1), Ok(Value::Char('a')));
    assert_eq!(set_bit(Value::F64(0), 63, 1), Ok(Value::F64((-0.0f64).to_bits())));
    assert_eq!(set_bit(Value::U16(1), 16, 1), Err(OpStatus::IndexError));
    assert_eq!(set_bit(Value::U16(1), 0, 2), Err(OpStatus::InvalidState));
    assert_eq!(set_bit(s("a"), 0, 1), Err(OpStatus::TypeMismatch));
    assert_eq!(set_bit(s("a"), 0, 7), Err(OpStatus::InvalidState));
}

#[test]
fn get_after_set_bit() {
    for i in 0..64u32 {
        let v = set_bit(Value::U64(0x0123_4567_89AB_CDEF), i, 1).unwrap();
        assert_eq!(get_bit(&v, i), Ok(1));
        let w = set_bit(v, i, 0).unwrap();
        assert_eq!(get_bit(&w, i), Ok(0));
    }
}

#[test]
fn modify_slice_sets_and_clears() {
    let mut bytes = vec![0u8, 0xFF];
    assert_eq!(modify_slice(&mut bytes, 9, 0), Ok(()));
    assert_eq!(bytes, vec![0, 0xFD]);
    assert_eq!(modify_slice(&mut bytes, 2, 1), Ok(()));
    assert_eq!(bytes, vec![4, 0xFD]);
    assert_eq!(modify_slice(&mut bytes, 3, 5), Ok(()));
    assert_eq!(bytes, vec![4, 0xFD]);
    assert_eq!(modify_slice(&mut bytes, 16, 1), Err(OpStatus::IndexError));
    assert_eq!(bytes, vec![4, 0xFD]);
}

#[test]
fn random_int_stays_in_range() {
    assert_eq!(random_int(5, 5, 1, 2, 3), 5);
    assert_eq!(random_int(9, 3, 1, 2, 3), 9);
    for n in 0..200u64 {
        let r = random_int(10, 20, n, n * 7, n ^ 0x55);
        assert!((10..=20).contains(&r));
    }
    assert!(random_int(0, u64::MAX - 1, 1, 2, 3) < u64::MAX);
}

#[test]
fn random_int_exact_mixing() {
    let x: u64 = 5u64.wrapping_add(6);
    let mut z = (x ^ (x >> 30)).wrapping_mul(0xbf58476d1ce4e5b9);
    z = (z ^ (z >> 27)).wrapping_mul(0x94d049bb133111eb);
    let raw = z ^ (z >> 31) ^ 7;
    assert_eq!(random_int(100, 1099, 5, 6, 7), 100 + raw % 1000);
}

#[test]
fn random_char_is_never_a_surrogate() {
    for n in 0..2000u64 {
        let c = random_char(n * 977, n, n << 3, 12345);
        let code = c as u32;
        assert!(!(0xD800..0xE000).contains(&code));
        assert!(code <= 0x10FFFF);
    }
}

#[test]
fn index_mut_writes_in_place() {
    let mut v = SafeVector::from_vec(vec![Value::U8(1), Value::U8(2)]);
    *v.index_mut(1) = Value::U8(20);
    assert_eq!(v.get_value(1), Ok(Value::U8(20)));
    let mut w = ForgivingVector::from_vec(vec![Value::U8(1)]);
    *w.index_mut(0) = Value::Char('z');
    assert_eq!(w.get_value(0), Value::Char('z'));
}
