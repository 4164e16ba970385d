//! `Value`, a value of one of the basic types, and `Dict`, a dictionary from
//! values to values searched in insertion order.
//!
//! Floating-point values are held by their IEEE-754 bit patterns; two of them
//! are equal as floating-point numbers are (no NaN equals anything, and the
//! two zeros are equal).
use vstd::prelude::*;
use crate::base::OpStatus;
use crate::text::{chars_of, string_of};

verus! {

/// A value of one of the basic types.
#[derive(Debug)]
pub enum Value {
    Bool(bool),
    U8(u8),
    U16(u16),
    U32(u32),
    U64(u64),
    U128(u128),
    Usize(usize),
    I8(i8),
    I16(i16),
    I32(i32),
    I64(i64),
    I128(i128),
    Isize(isize),
    /// An `f32`, by its bit pattern.
    F32(u32),
    /// An `f64`, by its bit pattern.
    F64(u64),
    Char(char),
    String(String),
    Bytes(Vec<u8>),
}

/// What a `Value` holds, with text and bytes as sequences.
pub enum ValueV {
    Bool(bool),
    U8(u8),
    U16(u16),
    U32(u32),
    U64(u64),
    U128(u128),
    Usize(usize),
    I8(i8),
    I16(i16),
    I32(i32),
    I64(i64),
    I128(i128),
    Isize(isize),
    F32(u32),
    F64(u64),
    Char(char),
    String(Seq<char>),
    Bytes(Seq<u8>),
}

impl View for Value {
    type V = ValueV;

    open spec fn view(&self) -> ValueV {
        match self {
            Value::Bool(x) => ValueV::Bool(*x),
            Value::U8(x) => ValueV::U8(*x),
            Value::U16(x) => ValueV::U16(*x),
            Value::U32(x) => ValueV::U32(*x),
            Value::U64(x) => ValueV::U64(*x),
            Value::U128(x) => ValueV::U128(*x),
            Value::Usize(x) => ValueV::Usize(*x),
            Value::I8(x) => ValueV::I8(*x),
            Value::I16(x) => ValueV::I16(*x),
            Value::I32(x) => ValueV::I32(*x),
            Value::I64(x) => ValueV::I64(*x),
            Value::I128(x) => ValueV::I128(*x),
            Value::Isize(x) => ValueV::Isize(*x),
            Value::F32(x) => ValueV::F32(*x),
            Value::F64(x) => ValueV::F64(*x),
            Value::Char(x) => ValueV::Char(*x),
            Value::String(s) => ValueV::String(s@),
            Value::Bytes(b) => ValueV::Bytes(b@),
        }
    }
}

/// Whether the `f32` bit pattern `b` is a NaN.
pub open spec fn f32_is_nan(b: u32) -> bool {
    (b & 0x7f80_0000u32) == 0x7f80_0000u32 && (b & 0x007f_ffffu32) != 0
}

/// Whether the `f64` bit pattern `b` is a NaN.
pub open spec fn f64_is_nan(b: u64) -> bool {
    (b & 0x7ff0_0000_0000_0000u64) == 0x7ff0_0000_0000_0000u64 && (b & 0x000f_ffff_ffff_ffffu64)
        != 0
}

/// Floating-point equality of two `f32` bit patterns: neither is a NaN, and
/// they are the same or both zeros.
pub open spec fn f32_eq(a: u32, b: u32) -> bool {
    !f32_is_nan(a) && !f32_is_nan(b) && (a == b || ((a | b) & 0x7fff_ffffu32) == 0)
}

/// Floating-point equality of two `f64` bit patterns.
pub open spec fn f64_eq(a: u64, b: u64) -> bool {
    !f64_is_nan(a) && !f64_is_nan(b) && (a == b || ((a | b) & 0x7fff_ffff_ffff_ffffu64) == 0)
}

/// Equality of values: the same kind holding equal contents.
pub open spec fn value_eq(a: ValueV, b: ValueV) -> bool {
    match (a, b) {
        (ValueV::Bool(x), ValueV::Bool(y)) => x == y,
        (ValueV::U8(x), ValueV::U8(y)) => x == y,
        (ValueV::U16(x), ValueV::U16(y)) => x == y,
        (ValueV::U32(x), ValueV::U32(y)) => x == y,
        (ValueV::U64(x), ValueV::U64(y)) => x == y,
        (ValueV::U128(x), ValueV::U128(y)) => x == y,
        (ValueV::Usize(x), ValueV::Usize(y)) => x == y,
        (ValueV::I8(x), ValueV::I8(y)) => x == y,
        (ValueV::I16(x), ValueV::I16(y)) => x == y,
        (ValueV::I32(x), ValueV::I32(y)) => x == y,
        (ValueV::I64(x), ValueV::I64(y)) => x == y,
        (ValueV::I128(x), ValueV::I128(y)) => x == y,
        (ValueV::Isize(x), ValueV::Isize(y)) => x == y,
        (ValueV::F32(x), ValueV::F32(y)) => f32_eq(x, y),
        (ValueV::F64(x), ValueV::F64(y)) => f64_eq(x, y),
        (ValueV::Char(x), ValueV::Char(y)) => x == y,
        (ValueV::String(x), ValueV::String(y)) => x == y,
        (ValueV::Bytes(x), ValueV::Bytes(y)) => x == y,
        _ => false,
    }
}

/// Whether two byte vectors hold the same bytes.
fn bytes_eq(a: &Vec<u8>, b: &Vec<u8>) -> (r: bool)
    ensures
        r == (a@ == b@),
{
    if a.len() != b.len() {
        return false;
    }
    let mut i: usize = 0;
    while i < a.len()
        invariant
            i <= a.len(),
            a.len() == b.len(),
            forall|k: int| 0 <= k < i ==> a@[k] == b@[k],
        decreases a.len() - i,
    {
        if a[i] != b[i] {
            return false;
        }
        i += 1;
    }
    assert(a@ =~= b@);
    true
}

/// A copy of the bytes.
fn copy_bytes(b: &Vec<u8>) -> (r: Vec<u8>)
    ensures
        r@ == b@,
{
    let mut r: Vec<u8> = Vec::new();
    let mut i: usize = 0;
    while i < b.len()
        invariant
            i <= b.len(),
            r@ == b@.take(i as int),
        decreases b.len() - i,
    {
        r.push(b[i]);
        i += 1;
        assert(r@ =~= b@.take(i as int));
    }
    assert(b@.take(b.len() as int) =~= b@);
    r
}

/// Whether two values are equal (see [`value_eq`]).
pub fn values_equal(a: &Value, b: &Value) -> (r: bool)
    ensures
        r == value_eq(a@, b@),
{
    match (a, b) {
        (Value::Bool(x), Value::Bool(y)) => *x == *y,
        (Value::U8(x), Value::U8(y)) => *x == *y,
        (Value::U16(x), Value::U16(y)) => *x == *y,
        (Value::U32(x), Value::U32(y)) => *x == *y,
        (Value::U64(x), Value::U64(y)) => *x == *y,
        (Value::U128(x), Value::U128(y)) => *x == *y,
        (Value::Usize(x), Value::Usize(y)) => *x == *y,
        (Value::I8(x), Value::I8(y)) => *x == *y,
        (Value::I16(x), Value::I16(y)) => *x == *y,
        (Value::I32(x), Value::I32(y)) => *x == *y,
        (Value::I64(x), Value::I64(y)) => *x == *y,
        (Value::I128(x), Value::I128(y)) => *x == *y,
        (Value::Isize(x), Value::Isize(y)) => *x == *y,
        (Value::F32(x), Value::F32(y)) => {
            let (x, y) = (*x, *y);
            let nan_x = (x & 0x7f80_0000u32) == 0x7f80_0000u32 && (x & 0x007f_ffffu32) != 0;
            let nan_y = (y & 0x7f80_0000u32) == 0x7f80_0000u32 && (y & 0x007f_ffffu32) != 0;
            !nan_x && !nan_y && (x == y || ((x | y) & 0x7fff_ffffu32) == 0)
        },
        (Value::F64(x), Value::F64(y)) => {
            let (x, y) = (*x, *y);
            let nan_x = (x & 0x7ff0_0000_0000_0000u64) == 0x7ff0_0000_0000_0000u64 && (x
                & 0x000f_ffff_ffff_ffffu64) != 0;
            let nan_y = (y & 0x7ff0_0000_0000_0000u64) == 0x7ff0_0000_0000_0000u64 && (y
                & 0x000f_ffff_ffff_ffffu64) != 0;
            !nan_x && !nan_y && (x == y || ((x | y) & 0x7fff_ffff_ffff_ffffu64) == 0)
        },
        (Value::Char(x), Value::Char(y)) => *x == *y,
        (Value::String(x), Value::String(y)) => *x == *y,
        (Value::Bytes(x), Value::Bytes(y)) => bytes_eq(x, y),
        _ => false,
    }
}

impl Clone for Value {
    fn clone(&self) -> (r: Value)
        ensures
            r@ == self@,
    {
        match self {
            Value::Bool(x) => Value::Bool(*x),
            Value::U8(x) => Value::U8(*x),
            Value::U16(x) => Value::U16(*x),
            Value::U32(x) => Value::U32(*x),
            Value::U64(x) => Value::U64(*x),
            Value::U128(x) => Value::U128(*x),
            Value::Usize(x) => Value::Usize(*x),
            Value::I8(x) => Value::I8(*x),
            Value::I16(x) => Value::I16(*x),
            Value::I32(x) => Value::I32(*x),
            Value::I64(x) => Value::I64(*x),
            Value::I128(x) => Value::I128(*x),
            Value::Isize(x) => Value::Isize(*x),
            Value::F32(x) => Value::F32(*x),
            Value::F64(x) => Value::F64(*x),
            Value::Char(x) => Value::Char(*x),
            Value::String(s) => Value::String(string_of(&chars_of(s.as_str()))),
            Value::Bytes(b) => Value::Bytes(copy_bytes(b)),
        }
    }
}

impl PartialEq for Value {
    fn eq(&self, other: &Value) -> (r: bool) {
        values_equal(self, other)
    }
}

impl vstd::std_specs::cmp::PartialEqSpecImpl for Value {
    open spec fn obeys_eq_spec() -> bool {
        true
    }

    open spec fn eq_spec(&self, other: &Value) -> bool {
        value_eq(self@, other@)
    }
}

/// Conversion of a basic value into a [`Value`].
pub trait ToValue: Sized {
    /// The value that `self` becomes.
    spec fn value_of(&self) -> ValueV;

    /// `self` as a `Value`.
    fn to_value(self) -> (r: Value)
        ensures
            r@ == self.value_of(),
    ;
}

impl ToValue for bool {
    open spec fn value_of(&self) -> ValueV {
        ValueV::Bool(*self)
    }

    fn to_value(self) -> (r: Value) {
        Value::Bool(self)
    }
}

impl ToValue for u8 {
    open spec fn value_of(&self) -> ValueV {
        ValueV::U8(*self)
    }

    fn to_value(self) -> (r: Value) {
        Value::U8(self)
    }
}

impl ToValue for u16 {
    open spec fn value_of(&self) -> ValueV {
        ValueV::U16(*self)
    }

    fn to_value(self) -> (r: Value) {
        Value::U16(self)
    }
}

impl ToValue for u32 {
    open spec fn value_of(&self) -> ValueV {
        ValueV::U32(*self)
    }

    fn to_value(self) -> (r: Value) {
        Value::U32(self)
    }
}

impl ToValue for u64 {
    open spec fn value_of(&self) -> ValueV {
        ValueV::U64(*self)
    }

    fn to_value(self) -> (r: Value) {
        Value::U64(self)
    }
}

impl ToValue for u128 {
    open spec fn value_of(&self) -> ValueV {
        ValueV::U128(*self)
    }

    fn to_value(self) -> (r: Value) {
        Value::U128(self)
    }
}

impl ToValue for usize {
    open spec fn value_of(&self) -> ValueV {
        ValueV::Usize(*self)
    }

    fn to_value(self) -> (r: Value) {
        Value::Usize(self)
    }
}

impl ToValue for i8 {
    open spec fn value_of(&self) -> ValueV {
        ValueV::I8(*self)
    }

    fn to_value(self) -> (r: Value) {
        Value::I8(self)
    }
}

impl ToValue for i16 {
    open spec fn value_of(&self) -> ValueV {
        ValueV::I16(*self)
    }

    fn to_value(self) -> (r: Value) {
        Value::I16(self)
    }
}

impl ToValue for i32 {
    open spec fn value_of(&self) -> ValueV {
        ValueV::I32(*self)
    }

    fn to_value(self) -> (r: Value) {
        Value::I32(self)
    }
}

impl ToValue for i64 {
    open spec fn value_of(&self) -> ValueV {
        ValueV::I64(*self)
    }

    fn to_value(self) -> (r: Value) {
        Value::I64(self)
    }
}

impl ToValue for i128 {
    open spec fn value_of(&self) -> ValueV {
        ValueV::I128(*self)
    }

    fn to_value(self) -> (r: Value) {
        Value::I128(self)
    }
}

impl ToValue for isize {
    open spec fn value_of(&self) -> ValueV {
        ValueV::Isize(*self)
    }

    fn to_value(self) -> (r: Value) {
        Value::Isize(self)
    }
}

impl ToValue for char {
    open spec fn value_of(&self) -> ValueV {
        ValueV::Char(*self)
    }

    fn to_value(self) -> (r: Value) {
        Value::Char(self)
    }
}

impl ToValue for String {
    open spec fn value_of(&self) -> ValueV {
        ValueV::String(self@)
    }

    fn to_value(self) -> (r: Value) {
        Value::String(self)
    }
}

impl<'a> ToValue for &'a str {
    open spec fn value_of(&self) -> ValueV {
        ValueV::String((*self)@)
    }

    fn to_value(self) -> (r: Value) {
        Value::String(string_of(&chars_of(self)))
    }
}

impl ToValue for Vec<u8> {
    open spec fn value_of(&self) -> ValueV {
        ValueV::Bytes(self@)
    }

    fn to_value(self) -> (r: Value) {
        Value::Bytes(self)
    }
}

/// `v` as a `Value`.
pub fn to_value<T: ToValue>(v: T) -> (r: Value)
    ensures
        r@ == v.value_of(),
{
    v.to_value()
}

// ---------------------------------------------------------------------------
// Dict
// ---------------------------------------------------------------------------
/// The entries of a dictionary as pairs of value views.
pub open spec fn entries_view(s: Seq<(Value, Value)>) -> Seq<(ValueV, ValueV)> {
    s.map_values(|e: (Value, Value)| (e.0@, e.1@))
}

/// Entry `i` has key `k`.
pub open spec fn key_at(s: Seq<(ValueV, ValueV)>, i: int, k: ValueV) -> bool {
    0 <= i < s.len() && value_eq(s[i].0, k)
}

/// Some entry has key `k`.
pub open spec fn has_key(s: Seq<(ValueV, ValueV)>, k: ValueV) -> bool {
    exists|i: int| key_at(s, i, k)
}

/// Entry `i` is the first with key `k`.
pub open spec fn first_key_at(s: Seq<(ValueV, ValueV)>, i: int, k: ValueV) -> bool {
    key_at(s, i, k) && forall|j: int| 0 <= j < i ==> !value_eq(#[trigger] s[j].0, k)
}

/// Entry `i` is the last with key `k`.
pub open spec fn last_key_at(s: Seq<(ValueV, ValueV)>, i: int, k: ValueV) -> bool {
    key_at(s, i, k) && forall|j: int| i < j < s.len() ==> !value_eq(#[trigger] s[j].0, k)
}

/// The index of the first entry with key `key`, if any.
fn find_first(entries: &Vec<(Value, Value)>, key: &Value) -> (r: Option<usize>)
    ensures
        match r {
            Some(i) => first_key_at(entries_view(entries@), i as int, key@),
            None => !has_key(entries_view(entries@), key@),
        },
{
    let ghost s = entries_view(entries@);
    let mut i: usize = 0;
    while i < entries.len()
        invariant
            i <= entries.len(),
            s == entries_view(entries@),
            forall|j: int| 0 <= j < i ==> !value_eq(#[trigger] s[j].0, key@),
        decreases entries.len() - i,
    {
        if values_equal(&entries[i].0, key) {
            return Some(i);
        }
        i += 1;
    }
    None
}

/// The index of the last entry with key `key`, if any.
fn find_last(entries: &Vec<(Value, Value)>, key: &Value) -> (r: Option<usize>)
    ensures
        match r {
            Some(i) => last_key_at(entries_view(entries@), i as int, key@),
            None => !has_key(entries_view(entries@), key@),
        },
{
    let ghost s = entries_view(entries@);
    let mut i: usize = entries.len();
    while i > 0
        invariant
            i <= entries.len(),
            s == entries_view(entries@),
            forall|j: int| i <= j < s.len() ==> !value_eq(#[trigger] s[j].0, key@),
        decreases i,
    {
        if values_equal(&entries[i - 1].0, key) {
            return Some(i - 1);
        }
        i -= 1;
    }
    None
}

/// A dictionary from values to values. Keys may repeat: lookups find the
/// first entry with the key, removal the last.
pub struct Dict {
    entries: Vec<(Value, Value)>,
}

impl View for Dict {
    type V = Seq<(ValueV, ValueV)>;

    closed spec fn view(&self) -> Seq<(ValueV, ValueV)> {
        entries_view(self.entries@)
    }
}

impl Dict {
    /// An empty dictionary.
    pub fn new() -> (r: Dict)
        ensures
            r@ == Seq::<(ValueV, ValueV)>::empty(),
    {
        let r = Dict { entries: Vec::new() };
        assert(r@ =~= Seq::<(ValueV, ValueV)>::empty());
        r
    }

    /// The number of entries.
    pub fn len(&self) -> (r: usize)
        ensures
            r == self@.len(),
    {
        self.entries.len()
    }

    /// Whether there are no entries.
    pub fn is_empty(&self) -> (r: bool)
        ensures
            r == (self@.len() == 0),
    {
        self.entries.len() == 0
    }

    /// Removes every entry.
    pub fn clear(&mut self)
        ensures
            final(self)@ == Seq::<(ValueV, ValueV)>::empty(),
    {
        self.entries.clear();
        assert(self@ =~= Seq::<(ValueV, ValueV)>::empty());
    }

    /// Appends the entry `key: value`.
    pub fn add(&mut self, key: Value, value: Value)
        ensures
            final(self)@ == old(self)@.push((key@, value@)),
    {
        let ghost prev = self@;
        self.entries.push((key, value));
        assert(self@ =~= prev.push((key@, value@)));
    }

    /// The value of the first entry with key `key`, or `IndexError`.
    pub fn get(&self, key: &Value) -> (r: Result<Value, OpStatus>)
        ensures
            match r {
                Ok(v) => exists|i: int| first_key_at(self@, i, key@) && v@ == self@[i].1,
                Err(e) => e == OpStatus::IndexError && !has_key(self@, key@),
            },
    {
        match find_first(&self.entries, key) {
            Some(i) => {
                let v = self.entries[i].1.clone();
                assert(first_key_at(self@, i as int, key@) && v@ == self@[i as int].1);
                Ok(v)
            },
            None => Err(OpStatus::IndexError),
        }
    }

    /// Replaces the value of the first entry with key `key`; without such an
    /// entry it changes nothing and reports `IndexError`.
    pub fn set(&mut self, key: &Value, value: Value) -> (r: Result<(), OpStatus>)
        ensures
            match r {
                Ok(_) => exists|i: int|
                    first_key_at(old(self)@, i, key@) && final(self)@ == old(self)@.update(
                        i,
                        (old(self)@[i].0, value@),
                    ),
                Err(e) => e == OpStatus::IndexError && !has_key(old(self)@, key@) && final(self)@
                    == old(self)@,
            },
    {
        match find_first(&self.entries, key) {
            Some(i) => {
                let ghost prev = self@;
                let k = self.entries[i].0.clone();
                let ghost vv = value@;
                self.entries.set(i, (k, value));
                assert(self@ =~= prev.update(i as int, (prev[i as int].0, vv)));
                Ok(())
            },
            None => Err(OpStatus::IndexError),
        }
    }

    /// Whether some entry has key `key`.
    pub fn contains_key(&self, key: &Value) -> (r: bool)
        ensures
            r == has_key(self@, key@),
    {
        find_first(&self.entries, key).is_some()
    }

    /// Removes the last entry with key `key` and gives its value, or reports
    /// `IndexError` and changes nothing.
    pub fn remove(&mut self, key: &Value) -> (r: Result<Value, OpStatus>)
        ensures
            match r {
                Ok(v) => exists|i: int|
                    last_key_at(old(self)@, i, key@) && v@ == old(self)@[i].1 && final(self)@ == old(
                        self,
                    )@.remove(i),
                Err(e) => e == OpStatus::IndexError && !has_key(old(self)@, key@) && final(self)@
                    == old(self)@,
            },
    {
        match find_last(&self.entries, key) {
            Some(i) => {
                let ghost prev = self@;
                let (_, v) = self.entries.remove(i);
                assert(self@ =~= prev.remove(i as int));
                Ok(v)
            },
            None => Err(OpStatus::IndexError),
        }
    }

    /// The keys, in order.
    pub fn keys(&self) -> (r: Vec<&Value>)
        ensures
            r@.len() == self@.len(),
            forall|i: int| 0 <= i < r@.len() ==> r@[i]@ == self@[i].0,
    {
        let mut r: Vec<&Value> = Vec::new();
        let mut i: usize = 0;
        while i < self.entries.len()
            invariant
                i <= self.entries.len(),
                r@.len() == i,
                forall|k: int| 0 <= k < i ==> r@[k]@ == self@[k].0,
            decreases self.entries.len() - i,
        {
            r.push(&self.entries[i].0);
            i += 1;
        }
        r
    }

    /// The values, in order.
    pub fn values(&self) -> (r: Vec<&Value>)
        ensures
            r@.len() == self@.len(),
            forall|i: int| 0 <= i < r@.len() ==> r@[i]@ == self@[i].1,
    {
        let mut r: Vec<&Value> = Vec::new();
        let mut i: usize = 0;
        while i < self.entries.len()
            invariant
                i <= self.entries.len(),
                r@.len() == i,
                forall|k: int| 0 <= k < i ==> r@[k]@ == self@[k].1,
            decreases self.entries.len() - i,
        {
            r.push(&self.entries[i].1);
            i += 1;
        }
        r
    }

    /// The entries, in order.
    pub fn iter(&self) -> (r: &[(Value, Value)])
        ensures
            entries_view(r@) == self@,
    {
        self.entries.as_slice()
    }

    /// Replaces every entry by the pairs of `new_keys` and `new_values`;
    /// vectors of different lengths are refused and change nothing.
    pub fn replace_contents(&mut self, new_keys: Vec<Value>, new_values: Vec<Value>) -> (r: Result<
        (),
        &'static str,
    >)
        ensures
            new_keys.len() == new_values.len() ==> r is Ok && final(self)@ == zip_views(
                new_keys@,
                new_values@,
            ),
            new_keys.len() != new_values.len() ==> r is Err && final(self)@ == old(self)@,
    {
        if new_keys.len() != new_values.len() {
            return Err("keys and values length mismatch");
        }
        self.entries = zip_values(new_keys, new_values);
        Ok(())
    }

    /// Replaces the keys, keeping the values; there must be one key per entry.
    pub fn set_keys(&mut self, new_keys: Vec<Value>)
        requires
            new_keys.len() == old(self)@.len(),
        ensures
            final(self)@.len() == old(self)@.len(),
            forall|i: int|
                0 <= i < old(self)@.len() ==> #[trigger] final(self)@[i] == (new_keys@[i]@, old(
                    self,
                )@[i].1),
    {
        let mut old_entries: Vec<(Value, Value)> = Vec::new();
        std::mem::swap(&mut old_entries, &mut self.entries);
        let (_, vals) = unzip_values(old_entries);
        self.entries = zip_values(new_keys, vals);
    }

    /// Replaces the values, keeping the keys; there must be one value per entry.
    pub fn set_values(&mut self, new_values: Vec<Value>)
        requires
            new_values.len() == old(self)@.len(),
        ensures
            final(self)@.len() == old(self)@.len(),
            forall|i: int|
                0 <= i < old(self)@.len() ==> #[trigger] final(self)@[i] == (old(self)@[i].0,
                new_values@[i]@),
    {
        let mut old_entries: Vec<(Value, Value)> = Vec::new();
        std::mem::swap(&mut old_entries, &mut self.entries);
        let (keys, _) = unzip_values(old_entries);
        self.entries = zip_values(keys, new_values);
    }
}

/// The pairs of `keys[i]` and `values[i]`, as views.
pub open spec fn zip_views(keys: Seq<Value>, values: Seq<Value>) -> Seq<(ValueV, ValueV)> {
    Seq::new(keys.len(), |i: int| (keys[i]@, values[i]@))
}

/// The pairs of `keys[i]` and `values[i]`.
pub fn zip_values(keys: Vec<Value>, values: Vec<Value>) -> (r: Vec<(Value, Value)>)
    requires
        keys.len() == values.len(),
    ensures
        entries_view(r@) == zip_views(keys@, values@),
{
    let ghost ks = keys@;
    let ghost vs = values@;
    let mut keys = keys;
    let mut values = values;
    let mut rev: Vec<(Value, Value)> = Vec::new();
    while keys.len() > 0
        invariant
            keys.len() == values.len(),
            keys@ == ks.take(keys.len() as int),
            values@ == vs.take(values.len() as int),
            ks.len() == vs.len(),
            keys.len() <= ks.len(),
            rev@.len() == ks.len() - keys.len(),
            forall|j: int|
                0 <= j < rev@.len() ==> (#[trigger] rev@[j]).0@ == ks[ks.len() - 1 - j]@ && rev@[j].1@
                    == vs[vs.len() - 1 - j]@,
        decreases keys.len(),
    {
        let k = keys.pop().unwrap();
        let v = values.pop().unwrap();
        assert(keys@ =~= ks.take(keys.len() as int));
        assert(values@ =~= vs.take(values.len() as int));
        rev.push((k, v));
    }
    let mut r: Vec<(Value, Value)> = Vec::new();
    let n = rev.len();
    while rev.len() > 0
        invariant
            rev.len() + r@.len() == n,
            n == ks.len(),
            ks.len() == vs.len(),
            forall|j: int|
                0 <= j < rev@.len() ==> (#[trigger] rev@[j]).0@ == ks[ks.len() - 1 - j]@ && rev@[j].1@
                    == vs[vs.len() - 1 - j]@,
            forall|j: int|
                0 <= j < r@.len() ==> (#[trigger] r@[j]).0@ == ks[j]@ && r@[j].1@ == vs[j]@,
        decreases rev.len(),
    {
        let e = rev.pop().unwrap();
        r.push(e);
    }
    assert(entries_view(r@) =~= zip_views(ks, vs));
    r
}

/// The keys and the values of `entries`, in order.
pub fn unzip_values(entries: Vec<(Value, Value)>) -> (r: (Vec<Value>, Vec<Value>))
    ensures
        r.0.len() == entries.len(),
        r.1.len() == entries.len(),
        forall|i: int| 0 <= i < entries.len() ==> (#[trigger] r.0@[i])@ == entries@[i].0@,
        forall|i: int| 0 <= i < entries.len() ==> (#[trigger] r.1@[i])@ == entries@[i].1@,
{
    let ghost es = entries@;
    let mut entries = entries;
    let mut rk: Vec<Value> = Vec::new();
    let mut rv: Vec<Value> = Vec::new();
    while entries.len() > 0
        invariant
            entries@ == es.take(entries.len() as int),
            entries.len() <= es.len(),
            rk@.len() == es.len() - entries.len(),
            rv@.len() == rk@.len(),
            forall|j: int| 0 <= j < rk@.len() ==> (#[trigger] rk@[j])@ == es[es.len() - 1 - j].0@,
            forall|j: int| 0 <= j < rv@.len() ==> (#[trigger] rv@[j])@ == es[es.len() - 1 - j].1@,
        decreases entries.len(),
    {
        let (k, v) = entries.pop().unwrap();
        assert(entries@ =~= es.take(entries.len() as int));
        rk.push(k);
        rv.push(v);
    }
    let n = rk.len();
    let mut keys: Vec<Value> = Vec::new();
    let mut values: Vec<Value> = Vec::new();
    while rk.len() > 0
        invariant
            rk.len() == rv.len(),
            rk.len() + keys@.len() == n,
            keys@.len() == values@.len(),
            n == es.len(),
            forall|j: int| 0 <= j < rk@.len() ==> (#[trigger] rk@[j])@ == es[es.len() - 1 - j].0@,
            forall|j: int| 0 <= j < rv@.len() ==> (#[trigger] rv@[j])@ == es[es.len() - 1 - j].1@,
            forall|j: int| 0 <= j < keys@.len() ==> (#[trigger] keys@[j])@ == es[j].0@,
            forall|j: int| 0 <= j < values@.len() ==> (#[trigger] values@[j])@ == es[j].1@,
        decreases rk.len(),
    {
        let k = rk.pop().unwrap();
        let v = rv.pop().unwrap();
        keys.push(k);
        values.push(v);
    }
    (keys, values)
}

/// What a read gives back of a write: after `set` succeeds, `get` with the
/// same key gives the new value (the entry it replaced is still the first
/// with that key).
pub proof fn law_set_then_get(before: Seq<(ValueV, ValueV)>, i: int, key: ValueV, value: ValueV)
    requires
        first_key_at(before, i, key),
    ensures
        first_key_at(before.update(i, (before[i].0, value)), i, key),
        before.update(i, (before[i].0, value))[i].1 == value,
{
    let after = before.update(i, (before[i].0, value));
    assert forall|j: int| 0 <= j < i implies !value_eq(#[trigger] after[j].0, key) by {
        assert(after[j] == before[j]);
    }
}

/// After `add`, the dictionary has the key; when it had it before, `get`
/// still finds the earlier entry.
pub proof fn law_add_then_contains(before: Seq<(ValueV, ValueV)>, key: ValueV, value: ValueV)
    requires
        value_eq(key, key),
    ensures
        has_key(before.push((key, value)), key),
        forall|i: int| first_key_at(before, i, key) ==> first_key_at(before.push((key, value)), i, key),
{
    let after = before.push((key, value));
    assert(key_at(after, before.len() as int, key));
    assert forall|i: int| first_key_at(before, i, key) implies first_key_at(after, i, key) by {
        assert forall|j: int| 0 <= j < i implies !value_eq(#[trigger] after[j].0, key) by {
            assert(after[j] == before[j]);
        }
    }
}

/// A value that is not a floating-point number (for those `==` is the IEEE
/// comparison: a NaN equals nothing and the two zeros are equal).
pub open spec fn not_float(v: ValueV) -> bool {
    !(v is F32) && !(v is F64)
}

/// Apart from floating-point numbers, two values are equal exactly when they
/// are the same value: the same kind holding the same contents (two strings
/// are equal exactly when their texts are).
pub proof fn law_value_eq_is_identity(a: ValueV, b: ValueV)
    requires
        not_float(a),
    ensures
        value_eq(a, b) <==> a == b,
{
}

/// Two string values are equal exactly when their texts are equal.
pub proof fn law_string_keys_equal(x: Seq<char>, y: Seq<char>)
    ensures
        value_eq(ValueV::String(x), ValueV::String(y)) <==> x == y,
{
    law_value_eq_is_identity(ValueV::String(x), ValueV::String(y));
}

/// For a key that is not a floating-point number, the entry that `get` reads
/// (the first with the key) is the first entry whose key is that very value,
/// and the dictionary has the key exactly when some entry's key is that value.
pub proof fn law_lookup_by_identical_key(s: Seq<(ValueV, ValueV)>, i: int, k: ValueV)
    requires
        not_float(k),
    ensures
        first_key_at(s, i, k) <==> (0 <= i < s.len() && s[i].0 == k && forall|j: int|
            0 <= j < i ==> s[j].0 != k),
        has_key(s, k) <==> exists|j: int| 0 <= j < s.len() && s[j].0 == k,
{
    assert forall|j: int| 0 <= j < s.len() implies (value_eq(#[trigger] s[j].0, k) <==> s[j].0
        == k) by {
        law_value_eq_is_identity(k, s[j].0);
        lemma_value_eq_identity_right(s[j].0, k);
    }
    if has_key(s, k) {
        let j = choose|j: int| key_at(s, j, k);
        assert(s[j].0 == k);
    }
    if exists|j: int| 0 <= j < s.len() && s[j].0 == k {
        let j = choose|j: int| 0 <= j < s.len() && s[j].0 == k;
        assert(key_at(s, j, k));
    }
}

proof fn lemma_value_eq_identity_right(a: ValueV, b: ValueV)
    requires
        not_float(b),
    ensures
        value_eq(a, b) <==> a == b,
{
}

// ---------------------------------------------------------------------------
// SafeVector
// ---------------------------------------------------------------------------
/// The views of a sequence of values.
pub open spec fn value_views(s: Seq<Value>) -> Seq<ValueV> {
    s.map_values(|v: Value| v@)
}

/// A growable array of values of any kind, with checked access by position.
pub struct SafeVector {
    content: Vec<Value>,
}

impl View for SafeVector {
    type V = Seq<ValueV>;

    closed spec fn view(&self) -> Seq<ValueV> {
        value_views(self.content@)
    }
}

impl SafeVector {
    /// An empty vector.
    pub fn new() -> (r: SafeVector)
        ensures
            r@ == Seq::<ValueV>::empty(),
    {
        let r = SafeVector { content: Vec::new() };
        assert(r@ =~= Seq::<ValueV>::empty());
        r
    }

    /// The number of values.
    pub fn len(&self) -> (r: usize)
        ensures
            r == self@.len(),
    {
        self.content.len()
    }

    /// Whether there are no values.
    pub fn is_empty(&self) -> (r: bool)
        ensures
            r == (self@.len() == 0),
    {
        self.content.len() == 0
    }

    /// Removes every value.
    pub fn clear(&mut self)
        ensures
            final(self)@ == Seq::<ValueV>::empty(),
    {
        self.content.clear();
        assert(self@ =~= Seq::<ValueV>::empty());
    }

    /// A copy of the value at `index`, or `IndexError` past the end.
    pub fn get_value(&self, index: u64) -> (r: Result<Value, OpStatus>)
        ensures
            match r {
                Ok(v) => index < self@.len() && v@ == self@[index as int],
                Err(e) => index >= self@.len() && e == OpStatus::IndexError,
            },
    {
        let n = self.content.len() as u64;
        if index < n {
            Ok(self.content[index as usize].clone())
        } else {
            Err(OpStatus::IndexError)
        }
    }

    /// Replaces the value at `index`; past the end it changes nothing and
    /// reports `IndexError`.
    pub fn set_value(&mut self, index: u64, val: Value) -> (r: Result<(), OpStatus>)
        ensures
            index < old(self)@.len() ==> r is Ok && final(self)@ == old(self)@.update(
                index as int,
                val@,
            ),
            index >= old(self)@.len() ==> r == Err::<(), OpStatus>(OpStatus::IndexError)
                && final(self)@ == old(self)@,
    {
        let n = self.content.len() as u64;
        if index < n {
            let ghost prev = self@;
            let ghost vv = val@;
            self.content.set(index as usize, val);
            assert(self@ =~= prev.update(index as int, vv));
            Ok(())
        } else {
            Err(OpStatus::IndexError)
        }
    }

    /// Appends a value.
    pub fn push(&mut self, val: Value)
        ensures
            final(self)@ == old(self)@.push(val@),
    {
        let ghost prev = self@;
        let ghost vv = val@;
        self.content.push(val);
        assert(self@ =~= prev.push(vv));
    }

    /// Removes and gives the last value, if any.
    pub fn pop(&mut self) -> (r: Option<Value>)
        ensures
            old(self)@.len() == 0 ==> r is None && final(self)@ == old(self)@,
            old(self)@.len() > 0 ==> r is Some && r->Some_0@ == old(self)@.last() && final(self)@
                == old(self)@.drop_last(),
    {
        let ghost prev = self@;
        let r = self.content.pop();
        assert(self@ =~= (if prev.len() > 0 {
            prev.drop_last()
        } else {
            prev
        }));
        r
    }

    /// The value at `index`, which must be in range.
    pub fn index(&self, index: usize) -> (r: &Value)
        requires
            index < self@.len(),
        ensures
            r@ == self@[index as int],
    {
        &self.content[index]
    }

    /// The value at `index`, which must be in range, for writing.
    pub fn index_mut(&mut self, index: usize) -> (r: &mut Value)
        requires
            index < old(self)@.len(),
        ensures
            (*r)@ == old(self)@[index as int],
            final(self)@ == old(self)@.update(index as int, (*final(r))@),
    {
        &mut self.content[index]
    }

    /// A vector holding the given values.
    pub fn from_vec(v: Vec<Value>) -> (r: SafeVector)
        ensures
            r@ == value_views(v@),
    {
        SafeVector { content: v }
    }

    /// Appends the given values.
    pub fn extend(&mut self, values: Vec<Value>)
        ensures
            final(self)@ == old(self)@ + value_views(values@),
    {
        let ghost prev = self@;
        let ghost added = value_views(values@);
        let mut values = values;
        self.content.append(&mut values);
        assert(self@ =~= prev + added);
    }

    /// `self` followed by `rhs`.
    pub fn concat(self, rhs: SafeVector) -> (r: SafeVector)
        ensures
            r@ == self@ + rhs@,
    {
        let mut r = self;
        r.extend(rhs.content);
        r
    }

    /// The values, as a slice.
    pub fn as_slice(&self) -> (r: &[Value])
        ensures
            value_views(r@) == self@,
    {
        self.content.as_slice()
    }

    /// The values, as a vector.
    pub fn into_vec(self) -> (r: Vec<Value>)
        ensures
            value_views(r@) == self@,
    {
        self.content
    }
}

/// What a read gives back of a write: after `set_value` at an index in
/// range, `get_value` there gives the new value and elsewhere the old one.
pub proof fn law_vector_set_then_get(before: Seq<ValueV>, index: int, val: ValueV, j: int)
    requires
        0 <= index < before.len(),
        0 <= j < before.len(),
    ensures
        before.update(index, val)[index] == val,
        j != index ==> before.update(index, val)[j] == before[j],
        before.update(index, val).len() == before.len(),
{
}

/// Pushing and popping: `pop` right after `push(v)` gives `v` back and
/// leaves the vector as it was.
pub proof fn law_push_then_pop(before: Seq<ValueV>, val: ValueV)
    ensures
        before.push(val).len() > 0,
        before.push(val).last() == val,
        before.push(val).drop_last() == before,
{
    assert(before.push(val).drop_last() =~= before);
}

} // verus!
