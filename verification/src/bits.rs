//! Reading and setting single bits of a [`Value`], by the bits of its
//! in-memory representation: a number's two's complement bits, a `bool`'s
//! byte, a `char`'s code point, a float's IEEE-754 bits. Bit `i` is bit
//! `i % 8` of byte `i / 8`, bytes in little-endian order.
use vstd::prelude::*;
use crate::base::OpStatus;
use crate::value::{Value, ValueV};
use crate::text::{char_from_u32, is_scalar_value};

verus! {

/// The bits of the value's representation and their number, or `None` for
/// text and byte strings.
pub open spec fn bit_pattern(v: ValueV) -> Option<(u128, u32)> {
    match v {
        ValueV::Bool(b) => Some((if b {
            1u128
        } else {
            0u128
        }, 8u32)),
        ValueV::U8(x) => Some((x as u128, 8u32)),
        ValueV::U16(x) => Some((x as u128, 16u32)),
        ValueV::U32(x) => Some((x as u128, 32u32)),
        ValueV::U64(x) => Some((x as u128, 64u32)),
        ValueV::U128(x) => Some((x, 128u32)),
        ValueV::Usize(x) => Some((x as u128, usize::BITS)),
        ValueV::I8(x) => Some(((x as u8) as u128, 8u32)),
        ValueV::I16(x) => Some(((x as u16) as u128, 16u32)),
        ValueV::I32(x) => Some(((x as u32) as u128, 32u32)),
        ValueV::I64(x) => Some(((x as u64) as u128, 64u32)),
        ValueV::I128(x) => Some((x as u128, 128u32)),
        ValueV::Isize(x) => Some(((x as usize) as u128, usize::BITS)),
        ValueV::F32(x) => Some((x as u128, 32u32)),
        ValueV::F64(x) => Some((x as u128, 64u32)),
        ValueV::Char(c) => Some(((c as u32) as u128, 32u32)),
        ValueV::String(_) => None,
        ValueV::Bytes(_) => None,
    }
}

/// Bit `i` of `x`.
pub open spec fn bit_at(x: u128, i: u32) -> u8 {
    ((x >> i) & 1u128) as u8
}

/// `x` with bit `i` set (`state` 1) or cleared (any other state).
pub open spec fn with_bit(x: u128, i: u32, state: u8) -> u128 {
    if state == 1 {
        x | (1u128 << i)
    } else {
        x & !(1u128 << i)
    }
}

/// `x` with bit `i` set (`state` 1) or cleared (any other state).
pub open spec fn with_bit8(x: u8, i: u32, state: u8) -> u8 {
    if state == 1 {
        x | (1u8 << i)
    } else {
        x & !(1u8 << i)
    }
}

/// Both values are of the same kind.
pub open spec fn same_kind(a: ValueV, b: ValueV) -> bool {
    match (a, b) {
        (ValueV::Bool(_), ValueV::Bool(_)) => true,
        (ValueV::U8(_), ValueV::U8(_)) => true,
        (ValueV::U16(_), ValueV::U16(_)) => true,
        (ValueV::U32(_), ValueV::U32(_)) => true,
        (ValueV::U64(_), ValueV::U64(_)) => true,
        (ValueV::U128(_), ValueV::U128(_)) => true,
        (ValueV::Usize(_), ValueV::Usize(_)) => true,
        (ValueV::I8(_), ValueV::I8(_)) => true,
        (ValueV::I16(_), ValueV::I16(_)) => true,
        (ValueV::I32(_), ValueV::I32(_)) => true,
        (ValueV::I64(_), ValueV::I64(_)) => true,
        (ValueV::I128(_), ValueV::I128(_)) => true,
        (ValueV::Isize(_), ValueV::Isize(_)) => true,
        (ValueV::F32(_), ValueV::F32(_)) => true,
        (ValueV::F64(_), ValueV::F64(_)) => true,
        (ValueV::Char(_), ValueV::Char(_)) => true,
        (ValueV::String(_), ValueV::String(_)) => true,
        (ValueV::Bytes(_), ValueV::Bytes(_)) => true,
        _ => false,
    }
}

/// The new bits are no valid value of the kind: a `bool` byte other than 0
/// or 1, or a `char` code that is no Unicode scalar value. Such a change
/// is refused with `InvalidState`.
pub open spec fn breaks_value(v: ValueV, new_bits: u128) -> bool {
    match v {
        ValueV::Bool(_) => new_bits > 1,
        ValueV::Char(_) => !is_scalar_value(new_bits as u32),
        _ => false,
    }
}

/// Setting or clearing a bit changes that bit alone.
pub proof fn law_with_bit(x: u128, i: u32, state: u8, j: u32)
    requires
        i < 128,
        j < 128,
        state <= 1,
    ensures
        bit_at(with_bit(x, i, state), i) == state,
        j != i ==> bit_at(with_bit(x, i, state), j) == bit_at(x, j),
{
    if state == 1 {
        assert((x | (1u128 << i)) >> i & 1u128 == 1u128) by (bit_vector)
            requires
                i < 128,
        ;
        assert(j != i ==> ((x | (1u128 << i)) >> j) & 1u128 == (x >> j) & 1u128) by (bit_vector)
            requires
                i < 128,
                j < 128,
        ;
    } else {
        assert((x & !(1u128 << i)) >> i & 1u128 == 0u128) by (bit_vector)
            requires
                i < 128,
        ;
        assert(j != i ==> ((x & !(1u128 << i)) >> j) & 1u128 == (x >> j) & 1u128) by (bit_vector)
            requires
                i < 128,
                j < 128,
        ;
    }
}

/// Setting or clearing a bit below `w` keeps a number of `w` bits within `w` bits.
proof fn lemma_with_bit_width(x: u128, i: u32, state: u8, w: u32)
    requires
        i < w,
        w <= 128,
        w < 128 ==> x >> w == 0,
    ensures
        w < 128 ==> with_bit(x, i, state) >> w == 0,
{
    if w < 128 {
        assert((x | (1u128 << i)) >> w == 0u128) by (bit_vector)
            requires
                i < w,
                w < 128,
                x >> w == 0u128,
        ;
        assert((x & !(1u128 << i)) >> w == 0u128) by (bit_vector)
            requires
                w < 128,
                x >> w == 0u128,
        ;
    }
}

/// The bits of `v` and their number, as [`bit_pattern`] gives them.
fn pattern_of(v: &Value) -> (r: Option<(u128, u32)>)
    ensures
        r == bit_pattern(v@),
        match r {
            Some((bits, w)) => w <= 128 && (w < 128 ==> bits >> w == 0),
            None => true,
        },
{
    match v {
        Value::Bool(b) => {
            assert(1u128 >> 8u32 == 0 && 0u128 >> 8u32 == 0) by (bit_vector);
            Some((if *b {
                1u128
            } else {
                0u128
            }, 8u32))
        },
        Value::U8(x) => {
            let y = *x;
            assert((y as u128) >> 8u32 == 0) by (bit_vector);
            Some((y as u128, 8u32))
        },
        Value::U16(x) => {
            let y = *x;
            assert((y as u128) >> 16u32 == 0) by (bit_vector);
            Some((y as u128, 16u32))
        },
        Value::U32(x) => {
            let y = *x;
            assert((y as u128) >> 32u32 == 0) by (bit_vector);
            Some((y as u128, 32u32))
        },
        Value::U64(x) => {
            let y = *x;
            assert((y as u128) >> 64u32 == 0) by (bit_vector);
            Some((y as u128, 64u32))
        },
        Value::U128(x) => Some((*x, 128u32)),
        Value::Usize(x) => {
            let y = *x;
            assert((y as u128) >> usize::BITS == 0) by (bit_vector);
            Some((y as u128, usize::BITS))
        },
        Value::I8(x) => {
            let y = *x;
            assert(((y as u8) as u128) >> 8u32 == 0) by (bit_vector);
            Some(((y as u8) as u128, 8u32))
        },
        Value::I16(x) => {
            let y = *x;
            assert(((y as u16) as u128) >> 16u32 == 0) by (bit_vector);
            Some(((y as u16) as u128, 16u32))
        },
        Value::I32(x) => {
            let y = *x;
            assert(((y as u32) as u128) >> 32u32 == 0) by (bit_vector);
            Some(((y as u32) as u128, 32u32))
        },
        Value::I64(x) => {
            let y = *x;
            assert(((y as u64) as u128) >> 64u32 == 0) by (bit_vector);
            Some(((y as u64) as u128, 64u32))
        },
        Value::I128(x) => Some((*x as u128, 128u32)),
        Value::Isize(x) => {
            let y = *x;
            assert(((y as usize) as u128) >> usize::BITS == 0) by (bit_vector);
            Some(((y as usize) as u128, usize::BITS))
        },
        Value::F32(x) => {
            let y = *x;
            assert((y as u128) >> 32u32 == 0) by (bit_vector);
            Some((y as u128, 32u32))
        },
        Value::F64(x) => {
            let y = *x;
            assert((y as u128) >> 64u32 == 0) by (bit_vector);
            Some((y as u128, 64u32))
        },
        Value::Char(c) => {
            let y = *c as u32;
            assert((y as u128) >> 32u32 == 0) by (bit_vector);
            Some((y as u128, 32u32))
        },
        Value::String(_) => None,
        Value::Bytes(_) => None,
    }
}

/// Bit `bit_idx` of the value: `TypeMismatch` for text and byte strings,
/// `IndexError` past the value's size.
pub fn get_bit(source: &Value, bit_idx: u32) -> (r: Result<u8, OpStatus>)
    ensures
        match bit_pattern(source@) {
            None => r == Err::<u8, OpStatus>(OpStatus::TypeMismatch),
            Some((bits, w)) => if bit_idx < w {
                r == Ok::<u8, OpStatus>(bit_at(bits, bit_idx))
            } else {
                r == Err::<u8, OpStatus>(OpStatus::IndexError)
            },
        },
{
    match pattern_of(source) {
        None => Err(OpStatus::TypeMismatch),
        Some((bits, w)) => {
            if bit_idx < w {
                Ok(((bits >> bit_idx) & 1u128) as u8)
            } else {
                Err(OpStatus::IndexError)
            }
        },
    }
}

/// The value of kind `kind` whose bits are `bits`.
fn rebuild(kind: &Value, bits: u128, Ghost(old_bits): Ghost<u128>, Ghost(bit_idx): Ghost<u32>, Ghost(state): Ghost<u8>) -> (r: Value)
    requires
        bit_pattern(kind@) is Some,
        bits == with_bit(old_bits, bit_idx, state),
        bit_pattern(kind@) == Some((old_bits, bit_pattern(kind@)->Some_0.1)),
        bit_idx < bit_pattern(kind@)->Some_0.1,
        state <= 1,
        !breaks_value(kind@, bits),
        bit_pattern(kind@)->Some_0.1 < 128 ==> bits >> bit_pattern(kind@)->Some_0.1 == 0,
    ensures
        same_kind(r@, kind@),
        bit_pattern(r@) == Some((bits, bit_pattern(kind@)->Some_0.1)),
{
    match kind {
        Value::Bool(b) => Value::Bool(bits == 1),
        Value::U8(_) => {
            assert(bits >> 8u32 == 0 ==> (bits as u8) as u128 == bits) by (bit_vector);
            Value::U8(bits as u8)
        },
        Value::U16(_) => {
            assert(bits >> 16u32 == 0 ==> (bits as u16) as u128 == bits) by (bit_vector);
            Value::U16(bits as u16)
        },
        Value::U32(_) => {
            assert(bits >> 32u32 == 0 ==> (bits as u32) as u128 == bits) by (bit_vector);
            Value::U32(bits as u32)
        },
        Value::U64(_) => {
            assert(bits >> 64u32 == 0 ==> (bits as u64) as u128 == bits) by (bit_vector);
            Value::U64(bits as u64)
        },
        Value::U128(_) => Value::U128(bits),
        Value::Usize(_) => {
            assert(bits >> usize::BITS == 0 ==> (bits as usize) as u128 == bits) by (bit_vector);
            Value::Usize(bits as usize)
        },
        Value::I8(_) => {
            assert(bits >> 8u32 == 0 ==> (((bits as u8) as i8) as u8) as u128 == bits)
                by (bit_vector);
            Value::I8((bits as u8) as i8)
        },
        Value::I16(_) => {
            assert(bits >> 16u32 == 0 ==> (((bits as u16) as i16) as u16) as u128 == bits)
                by (bit_vector);
            Value::I16((bits as u16) as i16)
        },
        Value::I32(_) => {
            assert(bits >> 32u32 == 0 ==> (((bits as u32) as i32) as u32) as u128 == bits)
                by (bit_vector);
            Value::I32((bits as u32) as i32)
        },
        Value::I64(_) => {
            assert(bits >> 64u32 == 0 ==> (((bits as u64) as i64) as u64) as u128 == bits)
                by (bit_vector);
            Value::I64((bits as u64) as i64)
        },
        Value::I128(_) => {
            assert(((bits as i128) as u128) == bits) by (bit_vector);
            Value::I128(bits as i128)
        },
        Value::Isize(_) => {
            assert(bits >> usize::BITS == 0 ==> (((bits as usize) as isize) as usize) as u128
                == bits) by (bit_vector);
            Value::Isize((bits as usize) as isize)
        },
        Value::F32(_) => {
            assert(bits >> 32u32 == 0 ==> (bits as u32) as u128 == bits) by (bit_vector);
            Value::F32(bits as u32)
        },
        Value::F64(_) => {
            assert(bits >> 64u32 == 0 ==> (bits as u64) as u128 == bits) by (bit_vector);
            Value::F64(bits as u64)
        },
        Value::Char(_) => {
            assert(bits >> 32u32 == 0 ==> (bits as u32) as u128 == bits) by (bit_vector);
            let code = bits as u32;
            match char_from_u32(code) {
                Some(c) => Value::Char(c),
                None => {
                    assert(false);
                    Value::Char('\0')
                },
            }
        },
        Value::String(_) => {
            assert(false);
            Value::Bool(false)
        },
        Value::Bytes(_) => {
            assert(false);
            Value::Bool(false)
        },
    }
}

/// `source` with bit `bit_idx` set (`state` 1) or cleared (`state` 0):
/// `InvalidState` for any other state or where the bits would be no valid
/// `bool` or `char`, `TypeMismatch` for text and byte strings, `IndexError`
/// past the value's size.
pub fn set_bit(source: Value, bit_idx: u32, state: u8) -> (r: Result<Value, OpStatus>)
    ensures
        state > 1 ==> r == Err::<Value, OpStatus>(OpStatus::InvalidState),
        state <= 1 ==> match bit_pattern(source@) {
            None => r == Err::<Value, OpStatus>(OpStatus::TypeMismatch),
            Some((bits, w)) => if bit_idx >= w {
                r == Err::<Value, OpStatus>(OpStatus::IndexError)
            } else if breaks_value(source@, with_bit(bits, bit_idx, state)) {
                r == Err::<Value, OpStatus>(OpStatus::InvalidState)
            } else {
                r is Ok && same_kind(r->Ok_0@, source@) && bit_pattern(r->Ok_0@) == Some(
                    (with_bit(bits, bit_idx, state), w),
                )
            },
        },
{
    if state > 1 {
        return Err(OpStatus::InvalidState);
    }
    match pattern_of(&source) {
        None => Err(OpStatus::TypeMismatch),
        Some((bits, w)) => {
            if bit_idx < w {
                let mask: u128 = 1u128 << bit_idx;
                let new_bits = if state == 1 {
                    bits | mask
                } else {
                    bits & !mask
                };
                proof {
                    lemma_with_bit_width(bits, bit_idx, state, w);
                }
                let invalid = match &source {
                    Value::Bool(_) => new_bits > 1,
                    Value::Char(_) => {
                        let code = new_bits as u32;
                        !(code < 0xD800 || (0xE000 <= code && code <= 0x10FFFF))
                    },
                    _ => false,
                };
                if invalid {
                    return Err(OpStatus::InvalidState);
                }
                Ok(rebuild(&source, new_bits, Ghost(bits), Ghost(bit_idx), Ghost(state)))
            } else {
                Err(OpStatus::IndexError)
            }
        },
    }
}

/// Sets (`state` 1) or clears (any other state) bit `bit_idx % 8` of byte
/// `bit_idx / 8`; past the last byte it changes nothing and reports
/// `IndexError`.
pub fn modify_slice(bytes: &mut Vec<u8>, bit_idx: u32, state: u8) -> (r: Result<(), OpStatus>)
    ensures
        (bit_idx / 8) < old(bytes)@.len() ==> r is Ok && final(bytes)@ == old(bytes)@.update(
            (bit_idx / 8) as int,
            with_bit8(old(bytes)@[(bit_idx / 8) as int], bit_idx % 8, state),
        ),
        (bit_idx / 8) >= old(bytes)@.len() ==> r == Err::<(), OpStatus>(OpStatus::IndexError)
            && final(bytes)@ == old(bytes)@,
{
    let byte_idx = (bit_idx / 8) as usize;
    let bit_in_byte = bit_idx % 8;
    if byte_idx < bytes.len() {
        let mask: u8 = 1u8 << bit_in_byte;
        let old_byte = bytes[byte_idx];
        if state == 1 {
            bytes.set(byte_idx, old_byte | mask);
        } else {
            bytes.set(byte_idx, old_byte & !mask);
        }
        Ok(())
    } else {
        Err(OpStatus::IndexError)
    }
}

} // verus!
