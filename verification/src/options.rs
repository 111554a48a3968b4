//! What the options of the command line set: each its own setting, and no other.
use crate::cli;
use crate::cli::Settings;
use crate::config::{ScalingMode, TileDimensions, TransformType, UpsampleType};
use crate::numbers;
use crate::text;
use vstd::prelude::*;

verus! {

/// A number in digits is the value of the option that takes it.
#[verifier::spinoff_prover]
#[verifier::rlimit(40)]
pub proof fn law_number_options(s: Settings, v: u32)
    ensures
        ({
            let digits = text::decimal(v as nat);
            &&& cli::number_set(s, "--fps"@, digits) == Some(
                Ok::<Settings, Seq<char>>(Settings { fps: v, ..s }),
            )
            &&& cli::number_set(s, "--frames"@, digits) == Some(
                Ok::<Settings, Seq<char>>(Settings { frames: v, ..s }),
            )
            &&& cli::number_set(s, "--step-width-l1"@, digits) == Some(
                Ok::<Settings, Seq<char>>(Settings { sw_l1: v, ..s }),
            )
            &&& cli::number_set(s, "--step-width-l2"@, digits) == Some(
                Ok::<Settings, Seq<char>>(Settings { sw_l2: v, ..s }),
            )
            &&& cli::number_set(s, "--base-gop"@, digits) == Some(
                Ok::<Settings, Seq<char>>(Settings { base_gop: v as usize, ..s }),
            )
            &&& cli::number_set(s, "--target-kbps"@, digits) == Some(
                Ok::<Settings, Seq<char>>(Settings { target_kbps: Some(v), ..s }),
            )
            &&& v <= 255 ==> cli::number_set(s, "--temporal-sw-modifier"@, digits) == Some(
                Ok::<Settings, Seq<char>>(Settings { temporal_sw_modifier: v as u8, ..s }),
            )
            &&& v <= 255 ==> cli::number_set(s, "--tile-size-compression"@, digits) == Some(
                Ok::<Settings, Seq<char>>(Settings { tile_size_compression: v as u8, ..s }),
            )
            &&& v == 8 || v == 10 ==> cli::number_set(s, "--bit-depth"@, digits) == Some(
                Ok::<Settings, Seq<char>>(Settings { bit_depth: v as u8, ..s }),
            )
        }),
{
    numbers::law_decimal_read_back(v as nat);
    reveal_strlit("-f");
    reveal_strlit("--fps");
    reveal_strlit("--frames");
    reveal_strlit("--step-width-l1");
    reveal_strlit("--step-width-l2");
    reveal_strlit("--temporal-sw-modifier");
    reveal_strlit("--tile-size-compression");
    reveal_strlit("--bit-depth");
    reveal_strlit("--base-gop");
    reveal_strlit("--target-kbps");
    assert("-f"@.len() == 2 && "--fps"@.len() == 5 && "--frames"@.len() == 8);
    assert("--step-width-l1"@.len() == 15 && "--step-width-l2"@.len() == 15);
    assert("--temporal-sw-modifier"@.len() == 22 && "--tile-size-compression"@.len() == 23);
    assert("--bit-depth"@.len() == 11 && "--base-gop"@.len() == 10 && "--target-kbps"@.len() == 13);
    assert("--step-width-l1"@[14] == '1');
    assert("--step-width-l2"@[14] == '2');
}

/// The picture size is written with an `x` between width and height.
pub proof fn law_size_option(s: Settings, width: u32, height: u32)
    ensures
        cli::mode_set(
            s,
            "--size"@,
            text::decimal(width as nat) + seq!['x'] + text::decimal(height as nat),
        ) == Some(Ok::<Settings, Seq<char>>(Settings { width, height, ..s })),
{
    let w = text::decimal(width as nat);
    let h = text::decimal(height as nat);
    let t = w + seq!['x'] + h;
    numbers::law_decimal_read_back(width as nat);
    numbers::law_decimal_read_back(height as nat);
    lemma_no_cross(width as nat);
    lemma_first_cross(t, 0, w.len() as int);
    assert(t.subrange(0, w.len() as int) =~= w);
    assert(t.subrange(w.len() as int + 1, t.len() as int) =~= h);
    reveal_strlit("-s");
    reveal_strlit("--size");
}

proof fn lemma_no_cross(n: nat)
    ensures
        forall|i: int| 0 <= i < text::decimal(n).len() ==> #[trigger] text::decimal(n)[i] != 'x',
    decreases n,
{
    let s = text::decimal(n);
    if n >= 10 {
        let t = text::decimal(n / 10);
        lemma_no_cross(n / 10);
        assert forall|i: int| 0 <= i < s.len() implies #[trigger] s[i] != 'x' by {
            if i < t.len() {
                assert(s[i] == t[i]);
            } else {
                assert(s[i] as int == 48 + n % 10);
            }
        }
    } else {
        assert(s[0] as int == 48 + n);
    }
}

proof fn lemma_first_cross(t: Seq<char>, i: int, at: int)
    requires
        0 <= i <= at < t.len(),
        t[at] == 'x',
        forall|j: int| 0 <= j < at ==> #[trigger] t[j] != 'x',
    ensures
        cli::cross(t, i) == Some(at),
    decreases at - i,
{
    if i < at {
        lemma_first_cross(t, i + 1, at);
    }
}

/// The scaling of a LOQ is set by its own option: off, columns, or both.
#[verifier::spinoff_prover]
#[verifier::rlimit(40)]
pub proof fn law_scaling_options(s: Settings)
    ensures
        cli::mode_set(s, "--scaling-l1"@, "0"@) == Some(
            Ok::<Settings, Seq<char>>(Settings { scaling_l1: ScalingMode::Scale0D, ..s }),
        ),
        cli::mode_set(s, "--scaling-l1"@, "1"@) == Some(
            Ok::<Settings, Seq<char>>(Settings { scaling_l1: ScalingMode::Scale1D, ..s }),
        ),
        cli::mode_set(s, "--scaling-l1"@, "2"@) == Some(
            Ok::<Settings, Seq<char>>(Settings { scaling_l1: ScalingMode::Scale2D, ..s }),
        ),
        cli::mode_set(s, "--scaling-l2"@, "0"@) == Some(
            Ok::<Settings, Seq<char>>(Settings { scaling_l2: ScalingMode::Scale0D, ..s }),
        ),
        cli::mode_set(s, "--scaling-l2"@, "1"@) == Some(
            Ok::<Settings, Seq<char>>(Settings { scaling_l2: ScalingMode::Scale1D, ..s }),
        ),
        cli::mode_set(s, "--scaling-l2"@, "2"@) == Some(
            Ok::<Settings, Seq<char>>(Settings { scaling_l2: ScalingMode::Scale2D, ..s }),
        ),
{
    reveal_strlit("0");
    reveal_strlit("1");
    reveal_strlit("2");
    assert("0"@[0] == '0' && "1"@[0] == '1' && "2"@[0] == '2');
    lemma_mode_names();
}

/// The names of modes are all different: by their lengths, or by a letter.
proof fn lemma_mode_names()
    ensures
        "--scaling-l1"@ != "--scaling-l2"@,
        "--transform"@ != "--upsampler"@,
        "--temporal"@.len() == 10 && "--predicted-average"@.len() == 19 && "--tiles"@.len() == 7,
        "-s"@.len() == 2 && "--size"@.len() == 6 && "--transform"@.len() == 11
            && "--upsampler"@.len() == 11 && "--scaling-l1"@.len() == 12 && "--scaling-l2"@.len()
            == 12,
{
    reveal_strlit("-s");
    reveal_strlit("--size");
    reveal_strlit("--transform");
    reveal_strlit("--upsampler");
    reveal_strlit("--scaling-l1");
    reveal_strlit("--scaling-l2");
    reveal_strlit("--predicted-average");
    reveal_strlit("--temporal");
    reveal_strlit("--tiles");
    assert("--scaling-l1"@[11] == '1' && "--scaling-l2"@[11] == '2');
    assert("--transform"@[2] == 't' && "--upsampler"@[2] == 'u');
}

/// The other modes by their names.
#[verifier::spinoff_prover]
#[verifier::rlimit(40)]
pub proof fn law_mode_options(s: Settings)
    ensures
        cli::mode_set(s, "--transform"@, "2x2"@) == Some(
            Ok::<Settings, Seq<char>>(Settings { transform: TransformType::Dd, ..s }),
        ),
        cli::mode_set(s, "--transform"@, "4x4"@) == Some(
            Ok::<Settings, Seq<char>>(Settings { transform: TransformType::Dds, ..s }),
        ),
        cli::mode_set(s, "--upsampler"@, "nearest"@) == Some(
            Ok::<Settings, Seq<char>>(Settings { upsampler: UpsampleType::Nearest, ..s }),
        ),
        cli::mode_set(s, "--upsampler"@, "linear"@) == Some(
            Ok::<Settings, Seq<char>>(Settings { upsampler: UpsampleType::Linear, ..s }),
        ),
        cli::mode_set(s, "--upsampler"@, "cubic"@) == Some(
            Ok::<Settings, Seq<char>>(Settings { upsampler: UpsampleType::Cubic, ..s }),
        ),
        cli::mode_set(s, "--upsampler"@, "modified-cubic"@) == Some(
            Ok::<Settings, Seq<char>>(Settings { upsampler: UpsampleType::ModifiedCubic, ..s }),
        ),
        cli::mode_set(s, "--predicted-average"@, "on"@) == Some(
            Ok::<Settings, Seq<char>>(Settings { predicted_average: true, ..s }),
        ),
        cli::mode_set(s, "--predicted-average"@, "off"@) == Some(
            Ok::<Settings, Seq<char>>(Settings { predicted_average: false, ..s }),
        ),
        cli::mode_set(s, "--temporal"@, "on"@) == Some(
            Ok::<Settings, Seq<char>>(Settings { temporal: true, ..s }),
        ),
        cli::mode_set(s, "--temporal"@, "off"@) == Some(
            Ok::<Settings, Seq<char>>(Settings { temporal: false, ..s }),
        ),
        cli::mode_set(s, "--tiles"@, "none"@) == Some(
            Ok::<Settings, Seq<char>>(
                Settings { tiles: TileDimensions::Untiled, custom_tile: None, ..s },
            ),
        ),
        cli::mode_set(s, "--tiles"@, "512x256"@) == Some(
            Ok::<Settings, Seq<char>>(
                Settings { tiles: TileDimensions::T512x256, custom_tile: None, ..s },
            ),
        ),
        cli::mode_set(s, "--tiles"@, "1024x512"@) == Some(
            Ok::<Settings, Seq<char>>(
                Settings { tiles: TileDimensions::T1024x512, custom_tile: None, ..s },
            ),
        ),
{
    lemma_mode_names();
    reveal_strlit("2x2");
    reveal_strlit("4x4");
    reveal_strlit("nearest");
    reveal_strlit("linear");
    reveal_strlit("bilinear");
    reveal_strlit("cubic");
    reveal_strlit("modified-cubic");
    reveal_strlit("on");
    reveal_strlit("off");
    reveal_strlit("1");
    reveal_strlit("true");
    reveal_strlit("none");
    reveal_strlit("512x256");
    reveal_strlit("1024x512");
    assert("nearest"@.len() == 7 && "linear"@.len() == 6 && "bilinear"@.len() == 8);
    assert("cubic"@.len() == 5 && "modified-cubic"@.len() == 14);
    assert("on"@.len() == 2 && "off"@.len() == 3 && "1"@.len() == 1 && "true"@.len() == 4);
    assert("none"@.len() == 4 && "512x256"@.len() == 7 && "1024x512"@.len() == 8);
    assert("2x2"@[0] == '2' && "4x4"@[0] == '4');
}

} // verus!
