//! The standard picture sizes.
use vstd::prelude::*;

verus! {

/// Standard picture sizes. Index = resolution type; index 0 is unused, 63 is custom.
pub const RESOLUTIONS: [(u16, u16); 64] = [
    (0, 0),
    (360, 200),
    (400, 240),
    (480, 320),
    (640, 360),
    (640, 480),
    (768, 480),
    (800, 600),
    (852, 480),
    (854, 480),
    (856, 480),
    (960, 540),
    (960, 640),
    (1024, 576),
    (1024, 600),
    (1024, 768),
    (1152, 864),
    (1280, 720),
    (1280, 800),
    (1280, 1024),
    (1360, 768),
    (1366, 768),
    (1400, 1050),
    (1440, 900),
    (1600, 1200),
    (1680, 1050),
    (1920, 1080),
    (1920, 1200),
    (2048, 1080),
    (2048, 1152),
    (2048, 1536),
    (2160, 1440),
    (2560, 1440),
    (2560, 1600),
    (2560, 2048),
    (3200, 1800),
    (3200, 2048),
    (3200, 2400),
    (3440, 1440),
    (3840, 1600),
    (3840, 2160),
    (3840, 2400),
    (4096, 2160),
    (4096, 3072),
    (5120, 2880),
    (5120, 3200),
    (5120, 4096),
    (6400, 4096),
    (6400, 4800),
    (7680, 4320),
    (7680, 4800),
    (0, 0),
    (0, 0),
    (0, 0),
    (0, 0),
    (0, 0),
    (0, 0),
    (0, 0),
    (0, 0),
    (0, 0),
    (0, 0),
    (0, 0),
    (0, 0),
    (0, 0),
];

pub const RESOLUTION_CUSTOM: u8 = 63;

/// The picture size of a resolution type.
pub closed spec fn standard_size(i: int) -> (u16, u16) {
    RESOLUTIONS@[i]
}

/// The picture sizes are those of the table.
pub proof fn lemma_standard_size(i: int)
    ensures
        standard_size(i) == RESOLUTIONS@[i],
{
}

/// The types between the last standard size and the custom one are reserved.
pub proof fn lemma_reserved(i: int)
    requires
        51 <= i < 63,
    ensures
        standard_size(i) == (0u16, 0u16),
{
}

/// The picture size of a resolution type.
pub fn standard_resolution(i: usize) -> (r: (u16, u16))
    requires
        i < 64,
    ensures
        r == standard_size(i as int),
{
    RESOLUTIONS[i]
}

} // verus!
