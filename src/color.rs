use vstd::prelude::*;

verus! {

/// The largest value of a quantized channel.
pub const MAX_CHANNEL: u8 = 255;

/// A channel value already scaled to the 0..=255 range and rounded, brought
/// into that range by saturation.
pub open spec fn saturate(scaled: int) -> int {
    if scaled < 0 {
        0
    } else if scaled > 255 {
        255
    } else {
        scaled
    }
}

/// Quantizing is idempotent: a saturated value lies in 0..=255 and
/// saturates to itself.
pub proof fn lemma_saturate_idempotent(scaled: int)
    ensures
        0 <= saturate(scaled) <= 255,
        saturate(saturate(scaled)) == saturate(scaled),
{
}

/// A color quantized to 8 bits per channel.
#[derive(Debug, Clone, Copy, PartialEq, Eq, Structural)]
pub struct Rgb {
    pub red: u8,
    pub green: u8,
    pub blue: u8,
}

/// Saturates one scaled and rounded channel value into 0..=255: values below
/// zero become 0, values above 255 become 255.
pub fn quantize_channel(scaled: i64) -> (r: u8)
    ensures
        r as int == saturate(scaled as int),
{
    if scaled < 0 {
        0
    } else if scaled > MAX_CHANNEL as i64 {
        MAX_CHANNEL
    } else {
        scaled as u8
    }
}

impl Rgb {
    /// Quantizes three scaled and rounded channel values, each saturated.
    pub fn quantize(red: i64, green: i64, blue: i64) -> (r: Rgb)
        ensures
            r.red as int == saturate(red as int),
            r.green as int == saturate(green as int),
            r.blue as int == saturate(blue as int),
    {
        Rgb {
            red: quantize_channel(red),
            green: quantize_channel(green),
            blue: quantize_channel(blue),
        }
    }
}

} // verus!
