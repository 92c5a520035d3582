use vstd::prelude::*;

verus! {

/// An integer PCM sample at the width that the file's bit depth asks for.
#[derive(Debug, Clone, Copy, PartialEq, Eq, Structural)]
pub enum IntSample {
    I8(i8),
    I16(i16),
    I32(i32),
}

/// Narrows `value` to the sample width for `bits_per_sample` bits: 8 bits to `i8`, 16 bits to
/// `i16`, 24 and 32 bits to `i32`, each by truncation; other depths are unsupported.
pub fn encode_int_sample(value: i64, bits_per_sample: u16) -> (r: Option<IntSample>)
    ensures
        r == (if bits_per_sample == 8 {
            Some(IntSample::I8(value as i8))
        } else if bits_per_sample == 16 {
            Some(IntSample::I16(value as i16))
        } else if bits_per_sample == 24 || bits_per_sample == 32 {
            Some(IntSample::I32(value as i32))
        } else {
            None
        }),
{
    match bits_per_sample {
        8 => Some(IntSample::I8(value as i8)),
        16 => Some(IntSample::I16(value as i16)),
        24 | 32 => Some(IntSample::I32(value as i32)),
        _ => None,
    }
}

} // verus!
