//! Flat and lit colours of a face.

use vstd::prelude::*;

verus! {

/// The intensity of a lit face, held to the range of a colour channel.
pub open spec fn capped(intensity: int) -> int {
    if intensity < 0 {
        0
    } else if intensity > 255 {
        255
    } else {
        intensity
    }
}

/// The brightness at which a face is painted: full for a flat material,
/// else the capped intensity of the light that falls on it.
pub open spec fn brightness(intensity: int, noshade: bool) -> int {
    if noshade {
        255
    } else {
        capped(intensity)
    }
}

/// A colour channel at the given brightness out of 255, rounded toward zero.
pub open spec fn scaled(channel: int, brightness: int) -> int {
    channel * brightness / 255
}

/// The colour in which a face of the base colour `colour` is painted.
pub open spec fn shaded(colour: (u8, u8, u8), intensity: int, noshade: bool) -> (u8, u8, u8) {
    let b = brightness(intensity, noshade);
    (
        scaled(colour.0 as int, b) as u8,
        scaled(colour.1 as int, b) as u8,
        scaled(colour.2 as int, b) as u8,
    )
}

/// Whatever the intensity, a scaled channel is a channel value, and no
/// brighter than the base colour's.
pub proof fn lemma_scaled_channel_in_range(channel: int, intensity: int, noshade: bool)
    requires
        0 <= channel <= 255,
    ensures
        0 <= scaled(channel, brightness(intensity, noshade)) <= channel,
        noshade ==> scaled(channel, brightness(intensity, noshade)) == channel,
{
    let b = brightness(intensity, noshade);
    assert(0 <= channel * b <= channel * 255) by (nonlinear_arith)
        requires
            0 <= channel,
            0 <= b <= 255,
    ;
}

/// One channel of a colour at brightness `b` out of 255.
fn scale_channel(channel: u8, b: u8) -> (out: u8)
    ensures
        out == scaled(channel as int, b as int),
        out <= channel,
{
    proof {
        assert(0 <= channel * b <= channel * 255) by (nonlinear_arith)
            requires
                0 <= channel,
                0 <= b <= 255,
        ;
    }
    let product: u32 = channel as u32 * b as u32;
    (product / 255) as u8
}

/// The colour in which a face is painted: the base colour at the face's
/// brightness. An intensity outside `0..=255` is capped first; a flat
/// material keeps the base colour.
pub fn shade(colour: (u8, u8, u8), intensity: i32, noshade: bool) -> (out: (u8, u8, u8))
    ensures
        out == shaded(colour, intensity as int, noshade),
        out.0 <= colour.0,
        out.1 <= colour.1,
        out.2 <= colour.2,
        noshade ==> out == colour,
{
    let b: u8 = if noshade || intensity > 255 {
        255
    } else if intensity < 0 {
        0
    } else {
        intensity as u8
    };
    proof {
        lemma_scaled_channel_in_range(colour.0 as int, intensity as int, noshade);
        lemma_scaled_channel_in_range(colour.1 as int, intensity as int, noshade);
        lemma_scaled_channel_in_range(colour.2 as int, intensity as int, noshade);
    }
    (scale_channel(colour.0, b), scale_channel(colour.1, b), scale_channel(colour.2, b))
}

} // verus!
