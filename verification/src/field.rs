//! Typed fields out of the dynamically typed values that the host hands over.

use vstd::arithmetic::power2::pow2;
use vstd::bits::lemma_u64_shr_is_div;
use vstd::prelude::*;

verus! {

/// What reading one field of a host object gave.
pub enum FieldValue {
    /// The object has no such field, or reading it failed.
    Missing,
    /// A number, as the bit pattern of its IEEE-754 double.
    Number(u64),
    /// A string.
    Text(String),
    /// A value that is neither a number nor a string.
    Other,
}

/// The sign bit of a double is set.
pub open spec fn sign_set(bits: u64) -> bool {
    bits >> 63 == 1
}

/// The biased exponent of a double: eleven bits.
pub open spec fn exponent_of(bits: u64) -> u64 {
    (bits >> 52) & 0x7ff
}

/// The fraction of a double: its low 52 bits.
pub open spec fn fraction_of(bits: u64) -> u64 {
    bits & 0xf_ffff_ffff_ffff
}

/// The double is not a number.
pub open spec fn is_nan(bits: u64) -> bool {
    exponent_of(bits) == 0x7ff && fraction_of(bits) != 0
}

/// The double is zero, of either sign.
pub open spec fn is_zero(bits: u64) -> bool {
    exponent_of(bits) == 0 && fraction_of(bits) == 0
}

/// The double is less than zero. Negative zero and NaN are not.
pub open spec fn below_zero(bits: u64) -> bool {
    sign_set(bits) && !is_nan(bits) && !is_zero(bits)
}

/// The magnitude of a double, rounded toward zero and capped at `u32::MAX`;
/// 0 for NaN. A double with biased exponent `e` of at least 1023 has the
/// magnitude `(2^52 + fraction) / 2^(1075 - e)`; below that it is less than 1.
pub open spec fn whole_part(bits: u64) -> u32 {
    let e = exponent_of(bits);
    if is_nan(bits) || e < 1023 {
        0
    } else if e >= 1055 {
        u32::MAX
    } else {
        ((0x10_0000_0000_0000 + fraction_of(bits)) / (pow2((1075 - e) as nat) as int)) as u32
    }
}

/// The unsigned integer in a field: that of a number which is not below
/// zero, and nothing otherwise.
pub open spec fn extracted_u32(value: FieldValue) -> Option<u32> {
    match value {
        FieldValue::Number(bits) => if below_zero(bits) {
            None
        } else {
            Some(whole_part(bits))
        },
        _ => None,
    }
}

/// The string in a field, and nothing where the field holds no string.
pub open spec fn extracted_text(value: FieldValue) -> Option<String> {
    match value {
        FieldValue::Text(text) => Some(text),
        _ => None,
    }
}

/// The number in a field, and nothing where the field holds no number.
pub open spec fn extracted_number(value: FieldValue) -> Option<u64> {
    match value {
        FieldValue::Number(bits) => Some(bits),
        _ => None,
    }
}

/// Whether a double is less than zero.
fn is_below_zero(bits: u64) -> (below: bool)
    ensures
        below == below_zero(bits),
{
    let e: u64 = (bits >> 52) & 0x7ff;
    let f: u64 = bits & 0xf_ffff_ffff_ffff;
    bits >> 63 == 1 && !(e == 0x7ff && f != 0) && !(e == 0 && f == 0)
}

/// The magnitude of a double as a `u32`, rounded toward zero and capped.
fn whole_number(bits: u64) -> (n: u32)
    ensures
        n == whole_part(bits),
{
    let e: u64 = (bits >> 52) & 0x7ff;
    let f: u64 = bits & 0xf_ffff_ffff_ffff;
    if (e == 0x7ff && f != 0) || e < 1023 {
        0
    } else if e >= 1055 {
        u32::MAX
    } else {
        let shift: u64 = 1075 - e;
        let full: u64 = 0x10_0000_0000_0000 | f;
        let n: u64 = full >> shift;
        proof {
            assert(f < 0x10_0000_0000_0000) by (bit_vector)
                requires
                    f == bits & 0xf_ffff_ffff_ffff,
            ;
            assert(full == 0x10_0000_0000_0000 + f) by (bit_vector)
                requires
                    full == 0x10_0000_0000_0000 | f,
                    f < 0x10_0000_0000_0000,
            ;
            assert(n < 0x1_0000_0000) by (bit_vector)
                requires
                    n == full >> shift,
                    21 <= shift <= 52,
                    full < 0x20_0000_0000_0000,
            ;
            lemma_u64_shr_is_div(full, shift);
        }
        n as u32
    }
}

/// Reads an unsigned integer: nothing where the field is missing, is not a
/// number, or holds a number below zero. A fraction is dropped, and a number
/// too large is capped at `u32::MAX`.
pub fn extract_u32(value: &FieldValue) -> (found: Option<u32>)
    ensures
        found == extracted_u32(*value),
{
    match value {
        FieldValue::Number(bits) => {
            if is_below_zero(*bits) {
                None
            } else {
                Some(whole_number(*bits))
            }
        },
        _ => None,
    }
}

/// Reads a string: nothing where the field is missing or is not a string.
pub fn extract_string(value: &FieldValue) -> (found: Option<String>)
    ensures
        found == extracted_text(*value),
{
    match value {
        FieldValue::Text(text) => Some(text.clone()),
        _ => None,
    }
}

/// Reads a number, as the bit pattern of its double: nothing where the field
/// is missing or is not a number.
pub fn extract_f64(value: &FieldValue) -> (found: Option<u64>)
    ensures
        found == extracted_number(*value),
{
    match value {
        FieldValue::Number(bits) => Some(*bits),
        _ => None,
    }
}

} // verus!
