use vstd::prelude::*;

verus! {

/// The 8-bit channel value for an accumulated fixed-scale component `c`
/// over `n` samples: average, scale to 256 steps, clamp into `0 ..= 255`
/// (never quite reaching pure white, as the writer clamps below 1.0).
pub open spec fn spec_tone_map(c: int, n: int) -> int {
    let scaled = if c < 0 {
        0
    } else {
        (256 * c) / (n * 65536)
    };
    if scaled > 255 {
        255
    } else {
        scaled
    }
}

/// Average each accumulated sample triple and quantize it to 8-bit
/// channels, ready for the external image encoder.
pub fn apply_samples(list: &mut Vec<i64>, samples_per_pixel: u64) -> (res: Vec<u8>)
    requires
        old(list)@.len() % 3 == 0,
        1 <= samples_per_pixel <= 0x1_0000_0000,
    ensures
        *final(list) == *old(list),
        res@.len() == old(list)@.len(),
        forall|j: int|
            0 <= j < res@.len() ==> res@[j] as int == spec_tone_map(
                old(list)@[j] as int,
                samples_per_pixel as int,
            ),
{
    let mut res: Vec<u8> = Vec::new();
    let n = list.len();
    for i in 0..n
        invariant
            n == list@.len(),
            1 <= samples_per_pixel <= 0x1_0000_0000,
            res@.len() == i,
            forall|j: int|
                0 <= j < i ==> res@[j] as int == spec_tone_map(
                    list@[j] as int,
                    samples_per_pixel as int,
                ),
    {
        let c = list[i];
        let v: u8 = if c < 0 {
            0
        } else {
            let scaled = (256 * (c as u128)) / ((samples_per_pixel as u128) * 65536);
            proof {
                vstd::arithmetic::div_mod::lemma_div_pos_is_pos(
                    256 * (c as int),
                    (samples_per_pixel as int) * 65536,
                );
            }
            if scaled > 255 {
                255
            } else {
                scaled as u8
            }
        };
        res.push(v);
    }
    res
}

} // verus!
