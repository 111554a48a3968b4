//! The command line of the encoder.
use crate::config::{ScalingMode, TileDimensions, TransformType, UpsampleType};
use crate::text;
use vstd::prelude::*;

verus! {

/// How the program is called.
pub const USAGE: &'static str = "usage: lcevc_enc -i input.yuv -s WxH -f fps [-o out.lcevc] [options]\n\
     \n\
     options:\n\
       --base-mode raw|vvc          base codec (default raw)\n\
       --base-out FILE              write the VVC base bitstream\n\
       --frames N                   number of frames to encode (default all)\n\
       --step-width-l1 N            default 512\n\
       --step-width-l2 N            default 128\n\
       --transform 2x2|4x4          default 4x4\n\
       --upsampler nearest|bilinear|cubic|modified-cubic   default bilinear\n\
       --scaling-l1 0|1|2           default 2\n\
       --scaling-l2 0|1|2           default 2\n\
       --predicted-average on|off   default on\n\
       --temporal on|off            default off\n\
       --tiles none|512x256|1024x512|WxH   default none\n\
       --tile-size-compression 0|1|2       default 0\n\
       --bit-depth 8|10             sample depth of the enhanced output (default 8)\n\
       --input-format raw|y4m       input format; y4m reads the header from the\n\
                                    stream (default: y4m when the input starts\n\
                                    with the YUV4MPEG2 magic, else raw)\n\
       --vvc-preset fast|medium|slow  vvenc preset for the VVC base (default medium)\n\
       --vvc-qp N                   vvenc QP for the VVC base (default 30)\n\
       --base-gop N                 base frames per vvenc invocation (inter\n\
                                    prediction; default 30, 1 = per-frame IDR)\n\
       --target-kbps N             target enhancement bitrate (rate control;\n\
                                    the step widths are chosen per frame to hit it)\n\
       -i -                        read from stdin (raw or y4m)\n\
       --mux FILE.mp4               also mux the VVC base + enhancement into\n\
                                    an MP4 with an LCEVC stream group\n\
                                    (requires --base-mode vvc and --base-out)\n\
       --verify                     self-check with the built-in mirror decoder\n";

/// How the program is called.
pub fn usage() -> (s: String)
    ensures
        s@ == USAGE@,
{
    USAGE.to_string()
}

/// Where a text has its first 'x'.
pub open spec fn cross(s: Seq<char>, i: int) -> Option<int>
    decreases s.len() - i,
{
    if i < 0 || i >= s.len() {
        None
    } else if s[i] == 'x' {
        Some(i)
    } else {
        cross(s, i + 1)
    }
}

/// The dimensions that a text like 1280x720 gives.
pub open spec fn size_of_text(s: Seq<char>) -> Result<(u32, u32), Seq<char>> {
    match cross(s, 0) {
        None => Err("expected WxH"@),
        Some(c) => match (
            text::number_upto(s.subrange(0, c), u32::MAX as int),
            text::number_upto(s.subrange(c + 1, s.len() as int), u32::MAX as int),
        ) {
            (None, _) => Err("bad width"@),
            (_, None) => Err("bad height"@),
            (Some(w), Some(h)) => Ok((w as u32, h as u32)),
        },
    }
}

pub fn parse_size(s: &str) -> (r: Result<(u32, u32), String>)
    ensures
        match r {
            Ok(d) => size_of_text(s@) == Ok::<(u32, u32), Seq<char>>(d),
            Err(e) => size_of_text(s@) == Err::<(u32, u32), Seq<char>>(e@),
        },
{
    let n: usize = s.unicode_len();
    let mut c: usize = 0;
    while c < n && s.get_char(c) != 'x'
        invariant
            c <= n == s@.len(),
            cross(s@, c as int) == cross(s@, 0),
        decreases n - c,
    {
        c = c + 1;
    }
    if c == n {
        return Err("expected WxH".to_string());
    }
    let w = match text::parse_number(s.substring_char(0, c), u32::MAX as u64) {
        Some(w) => w,
        None => {
            return Err("bad width".to_string());
        },
    };
    match text::parse_number(s.substring_char(c + 1, n), u32::MAX as u64) {
        Some(h) => Ok((w as u32, h as u32)),
        None => Err("bad height".to_string()),
    }
}

/// The scaling mode that a text names.
pub open spec fn scaling_of_text(s: Seq<char>) -> Option<ScalingMode> {
    if s == "0"@ {
        Some(ScalingMode::Scale0D)
    } else if s == "1"@ {
        Some(ScalingMode::Scale1D)
    } else if s == "2"@ {
        Some(ScalingMode::Scale2D)
    } else {
        None
    }
}

pub fn parse_scaling(s: &str) -> (r: Result<ScalingMode, String>)
    ensures
        match r {
            Ok(m) => scaling_of_text(s@) == Some(m),
            Err(e) => scaling_of_text(s@) is None && e@ == "bad scaling mode"@,
        },
{
    if text::same(s, "0") {
        Ok(ScalingMode::Scale0D)
    } else if text::same(s, "1") {
        Ok(ScalingMode::Scale1D)
    } else if text::same(s, "2") {
        Ok(ScalingMode::Scale2D)
    } else {
        Err("bad scaling mode".to_string())
    }
}

/// Whether a text says on or off.
pub open spec fn switch_of_text(s: Seq<char>) -> Option<bool> {
    if s == "on"@ || s == "1"@ || s == "true"@ {
        Some(true)
    } else if s == "off"@ || s == "0"@ || s == "false"@ {
        Some(false)
    } else {
        None
    }
}

pub fn parse_on_off(s: &str) -> (r: Result<bool, String>)
    ensures
        match r {
            Ok(b) => switch_of_text(s@) == Some(b),
            Err(e) => switch_of_text(s@) is None && e@ == "expected on/off"@,
        },
{
    if text::same(s, "on") || text::same(s, "1") || text::same(s, "true") {
        Ok(true)
    } else if text::same(s, "off") || text::same(s, "0") || text::same(s, "false") {
        Ok(false)
    } else {
        Err("expected on/off".to_string())
    }
}

/// The transform that a text names.
pub open spec fn transform_of_text(s: Seq<char>) -> Option<TransformType> {
    if s == "2x2"@ {
        Some(TransformType::Dd)
    } else if s == "4x4"@ {
        Some(TransformType::Dds)
    } else {
        None
    }
}

/// The upsampler that a text names.
pub open spec fn upsampler_of_text(s: Seq<char>) -> Option<UpsampleType> {
    if s == "nearest"@ {
        Some(UpsampleType::Nearest)
    } else if s == "bilinear"@ || s == "linear"@ {
        Some(UpsampleType::Linear)
    } else if s == "cubic"@ {
        Some(UpsampleType::Cubic)
    } else if s == "modified-cubic"@ {
        Some(UpsampleType::ModifiedCubic)
    } else {
        None
    }
}

/// The tiles that a text names. Custom sizes have 16 bits.
pub open spec fn tiles_of_text(s: Seq<char>) -> Result<
    (TileDimensions, Option<(u16, u16)>),
    Seq<char>,
> {
    if s == "none"@ {
        Ok((TileDimensions::Untiled, None))
    } else if s == "512x256"@ {
        Ok((TileDimensions::T512x256, None))
    } else if s == "1024x512"@ {
        Ok((TileDimensions::T1024x512, None))
    } else {
        match size_of_text(s) {
            Ok((w, h)) => Ok(
                (TileDimensions::Custom, Some(((w % 65536) as u16, (h % 65536) as u16))),
            ),
            Err(e) => Err(e),
        }
    }
}

fn parse_tiles(s: &str) -> (r: Result<(TileDimensions, Option<(u16, u16)>), String>)
    ensures
        match r {
            Ok(t) => tiles_of_text(s@) == Ok::<
                (TileDimensions, Option<(u16, u16)>),
                Seq<char>,
            >(t),
            Err(e) => tiles_of_text(s@) == Err::<
                (TileDimensions, Option<(u16, u16)>),
                Seq<char>,
            >(e@),
        },
{
    if text::same(s, "none") {
        Ok((TileDimensions::Untiled, None))
    } else if text::same(s, "512x256") {
        Ok((TileDimensions::T512x256, None))
    } else if text::same(s, "1024x512") {
        Ok((TileDimensions::T1024x512, None))
    } else {
        match parse_size(s) {
            Ok(d) => Ok(
                (TileDimensions::Custom, Some(((d.0 % 65536) as u16, (d.1 % 65536) as u16))),
            ),
            Err(e) => Err(e),
        }
    }
}

/// What the options choose: numbers, modes and switches.
#[derive(Clone, Copy, Debug, PartialEq, Eq)]
pub struct Settings {
    pub width: u32,
    pub height: u32,
    pub fps: u32,
    pub frames: u32,
    pub sw_l1: u32,
    pub sw_l2: u32,
    pub transform: TransformType,
    pub upsampler: UpsampleType,
    pub scaling_l1: ScalingMode,
    pub scaling_l2: ScalingMode,
    pub predicted_average: bool,
    pub temporal: bool,
    pub temporal_sw_modifier: u8,
    pub tiles: TileDimensions,
    pub custom_tile: Option<(u16, u16)>,
    pub tile_size_compression: u8,
    pub verify: bool,
    pub no_psnr: bool,
    pub no_rdoq: bool,
    pub dump_base: bool,
    pub dump_recon: bool,
    pub bit_depth: u8,
    pub mux_only: bool,
    pub base_gop: usize,
    pub target_kbps: Option<u32>,
}

/// What the options choose: paths, names, and numbers that are no integers.
pub struct Names {
    pub input: Option<String>,
    pub output: Option<String>,
    pub base_out: Option<String>,
    pub input_format: Option<String>,
    pub mux_out: Option<String>,
    pub base_mode: String,
    pub vvc_preset: String,
    pub vvc_qp: String,
    pub base_gop_seconds: Option<String>,
    pub qm_beta: Option<String>,
}

/// The texts of names.
#[verifier::ext_equal]
pub struct NamesModel {
    pub input: Option<Seq<char>>,
    pub output: Option<Seq<char>>,
    pub base_out: Option<Seq<char>>,
    pub input_format: Option<Seq<char>>,
    pub mux_out: Option<Seq<char>>,
    pub base_mode: Seq<char>,
    pub vvc_preset: Seq<char>,
    pub vvc_qp: Seq<char>,
    pub base_gop_seconds: Option<Seq<char>>,
    pub qm_beta: Option<Seq<char>>,
}

/// The text of an optional name.
pub open spec fn text_of(s: Option<String>) -> Option<Seq<char>> {
    match s {
        Some(t) => Some(t@),
        None => None,
    }
}

impl View for Names {
    type V = NamesModel;

    open spec fn view(&self) -> NamesModel {
        NamesModel {
            input: text_of(self.input),
            output: text_of(self.output),
            base_out: text_of(self.base_out),
            input_format: text_of(self.input_format),
            mux_out: text_of(self.mux_out),
            base_mode: self.base_mode@,
            vvc_preset: self.vvc_preset@,
            vvc_qp: self.vvc_qp@,
            base_gop_seconds: text_of(self.base_gop_seconds),
            qm_beta: text_of(self.qm_beta),
        }
    }
}

/// What a command line without options chooses.
pub open spec fn default_settings() -> Settings {
    Settings {
        width: 0,
        height: 0,
        fps: 30,
        frames: u32::MAX,
        sw_l1: 512,
        sw_l2: 128,
        transform: TransformType::Dds,
        upsampler: UpsampleType::Linear,
        scaling_l1: ScalingMode::Scale2D,
        scaling_l2: ScalingMode::Scale2D,
        predicted_average: true,
        temporal: false,
        temporal_sw_modifier: 48,
        tiles: TileDimensions::Untiled,
        custom_tile: None,
        tile_size_compression: 0,
        verify: false,
        no_psnr: false,
        no_rdoq: false,
        dump_base: false,
        dump_recon: false,
        bit_depth: 8,
        mux_only: false,
        base_gop: 30,
        target_kbps: None,
    }
}

/// The names of a command line without options.
pub open spec fn default_names() -> NamesModel {
    NamesModel {
        input: None,
        output: None,
        base_out: None,
        input_format: None,
        mux_out: None,
        base_mode: "raw"@,
        vvc_preset: "medium"@,
        vvc_qp: "30"@,
        base_gop_seconds: None,
        qm_beta: None,
    }
}

/// The settings after an option without a value; none if it is no such option.
pub open spec fn flag_set(s: Settings, a: Seq<char>) -> Option<Settings> {
    if a == "--mux-only"@ {
        Some(Settings { mux_only: true, ..s })
    } else if a == "--verify"@ {
        Some(Settings { verify: true, ..s })
    } else if a == "--no-psnr"@ {
        Some(Settings { no_psnr: true, ..s })
    } else if a == "--no-rdoq"@ {
        Some(Settings { no_rdoq: true, ..s })
    } else if a == "--dump-base"@ {
        Some(Settings { dump_base: true, ..s })
    } else if a == "--dump-recon"@ {
        Some(Settings { dump_recon: true, ..s })
    } else {
        None
    }
}

fn set_flag(s: Settings, a: &str) -> (r: Option<Settings>)
    ensures
        r == flag_set(s, a@),
{
    if text::same(a, "--mux-only") {
        Some(Settings { mux_only: true, ..s })
    } else if text::same(a, "--verify") {
        Some(Settings { verify: true, ..s })
    } else if text::same(a, "--no-psnr") {
        Some(Settings { no_psnr: true, ..s })
    } else if text::same(a, "--no-rdoq") {
        Some(Settings { no_rdoq: true, ..s })
    } else if text::same(a, "--dump-base") {
        Some(Settings { dump_base: true, ..s })
    } else if text::same(a, "--dump-recon") {
        Some(Settings { dump_recon: true, ..s })
    } else {
        None
    }
}

/// The names after an option with a text; none if it is no such option.
pub open spec fn name_set(n: NamesModel, a: Seq<char>, v: Seq<char>) -> Option<NamesModel> {
    if a == "-i"@ || a == "--input"@ {
        Some(NamesModel { input: Some(v), ..n })
    } else if a == "-o"@ || a == "--out"@ {
        Some(NamesModel { output: Some(v), ..n })
    } else if a == "--base-out"@ {
        Some(NamesModel { base_out: Some(v), ..n })
    } else if a == "--base-mode"@ {
        Some(NamesModel { base_mode: v, ..n })
    } else if a == "--input-format"@ {
        Some(NamesModel { input_format: Some(v), ..n })
    } else if a == "--mux"@ {
        Some(NamesModel { mux_out: Some(v), ..n })
    } else if a == "--vvc-preset"@ {
        Some(NamesModel { vvc_preset: v, ..n })
    } else if a == "--vvc-qp"@ {
        Some(NamesModel { vvc_qp: v, ..n })
    } else {
        None
    }
}

fn set_name(n: &mut Names, a: &str, v: &str) -> (r: bool)
    ensures
        match name_set(old(n)@, a@, v@) {
            Some(m) => r && final(n)@ == m,
            None => !r && final(n)@ == old(n)@,
        },
{
    if text::same(a, "-i") || text::same(a, "--input") {
        n.input = Some(v.to_string());
    } else if text::same(a, "-o") || text::same(a, "--out") {
        n.output = Some(v.to_string());
    } else if text::same(a, "--base-out") {
        n.base_out = Some(v.to_string());
    } else if text::same(a, "--base-mode") {
        n.base_mode = v.to_string();
    } else if text::same(a, "--input-format") {
        n.input_format = Some(v.to_string());
    } else if text::same(a, "--mux") {
        n.mux_out = Some(v.to_string());
    } else if text::same(a, "--vvc-preset") {
        n.vvc_preset = v.to_string();
    } else if text::same(a, "--vvc-qp") {
        n.vvc_qp = v.to_string();
    } else {
        return false;
    }
    true
}

/// The names after an option with a decimal fraction, and what a value that is none is answered;
/// nothing if it is no such option.
pub open spec fn fraction_set(n: NamesModel, a: Seq<char>, v: Seq<char>) -> Option<
    (NamesModel, Seq<char>),
> {
    if a == "--base-gop-seconds"@ {
        Some((NamesModel { base_gop_seconds: Some(v), ..n }, "bad base-gop-seconds"@))
    } else if a == "--qm-beta"@ {
        Some((NamesModel { qm_beta: Some(v), ..n }, "bad qm-beta"@))
    } else {
        None
    }
}

/// A setting from a number, or the message about it.
pub open spec fn number_or(v: Seq<char>, max: int, message: Seq<char>) -> Result<int, Seq<char>> {
    match text::number_upto(v, max) {
        Some(x) => Ok(x),
        None => Err(message),
    }
}

/// The settings after an option with a number, or the message about the number; nothing if it
/// is no such option.
pub open spec fn number_set(s: Settings, a: Seq<char>, v: Seq<char>) -> Option<
    Result<Settings, Seq<char>>,
> {
    if a == "-f"@ || a == "--fps"@ {
        Some(
            match number_or(v, u32::MAX as int, "bad fps"@) {
                Ok(x) => Ok(Settings { fps: x as u32, ..s }),
                Err(e) => Err(e),
            },
        )
    } else if a == "--frames"@ {
        Some(
            match number_or(v, u32::MAX as int, "bad frames"@) {
                Ok(x) => Ok(Settings { frames: x as u32, ..s }),
                Err(e) => Err(e),
            },
        )
    } else if a == "--step-width-l1"@ {
        Some(
            match number_or(v, u32::MAX as int, "bad step width"@) {
                Ok(x) => Ok(Settings { sw_l1: x as u32, ..s }),
                Err(e) => Err(e),
            },
        )
    } else if a == "--step-width-l2"@ {
        Some(
            match number_or(v, u32::MAX as int, "bad step width"@) {
                Ok(x) => Ok(Settings { sw_l2: x as u32, ..s }),
                Err(e) => Err(e),
            },
        )
    } else if a == "--temporal-sw-modifier"@ {
        Some(
            match number_or(v, 255, "bad modifier"@) {
                Ok(x) => Ok(Settings { temporal_sw_modifier: x as u8, ..s }),
                Err(e) => Err(e),
            },
        )
    } else if a == "--tile-size-compression"@ {
        Some(
            match number_or(v, 255, "bad compression"@) {
                Ok(x) => Ok(Settings { tile_size_compression: x as u8, ..s }),
                Err(e) => Err(e),
            },
        )
    } else if a == "--bit-depth"@ {
        Some(
            match number_or(v, 255, "bad bit depth"@) {
                Ok(x) => if x == 8 || x == 10 {
                    Ok(Settings { bit_depth: x as u8, ..s })
                } else {
                    Err("bit depth must be 8 or 10"@)
                },
                Err(e) => Err(e),
            },
        )
    } else if a == "--base-gop"@ {
        Some(
            match number_or(v, usize::MAX as int, "bad base-gop"@) {
                Ok(x) => Ok(Settings { base_gop: x as usize, ..s }),
                Err(e) => Err(e),
            },
        )
    } else if a == "--target-kbps"@ {
        Some(
            match number_or(v, u32::MAX as int, "bad target-kbps"@) {
                Ok(x) => Ok(Settings { target_kbps: Some(x as u32), ..s }),
                Err(e) => Err(e),
            },
        )
    } else {
        None
    }
}

/// The result of a setting.
pub open spec fn outcome(r: Option<Result<Settings, String>>) -> Option<
    Result<Settings, Seq<char>>,
> {
    match r {
        None => None,
        Some(Ok(s)) => Some(Ok(s)),
        Some(Err(e)) => Some(Err(e@)),
    }
}

fn number_of(v: &str, max: u64, message: &str) -> (r: Result<u64, String>)
    ensures
        match r {
            Ok(x) => number_or(v@, max as int, message@) == Ok::<int, Seq<char>>(x as int),
            Err(e) => number_or(v@, max as int, message@) == Err::<int, Seq<char>>(e@),
        },
        r matches Ok(x) ==> x <= max,
{
    match text::parse_number(v, max) {
        Some(x) => Ok(x),
        None => Err(message.to_string()),
    }
}

fn set_number(s: Settings, a: &str, v: &str) -> (r: Option<Result<Settings, String>>)
    ensures
        outcome(r) == number_set(s, a@, v@),
{
    let wide: u64 = u32::MAX as u64;
    if text::same(a, "-f") || text::same(a, "--fps") {
        Some(
            match number_of(v, wide, "bad fps") {
                Ok(x) => Ok(Settings { fps: x as u32, ..s }),
                Err(e) => Err(e),
            },
        )
    } else if text::same(a, "--frames") {
        Some(
            match number_of(v, wide, "bad frames") {
                Ok(x) => Ok(Settings { frames: x as u32, ..s }),
                Err(e) => Err(e),
            },
        )
    } else if text::same(a, "--step-width-l1") {
        Some(
            match number_of(v, wide, "bad step width") {
                Ok(x) => Ok(Settings { sw_l1: x as u32, ..s }),
                Err(e) => Err(e),
            },
        )
    } else if text::same(a, "--step-width-l2") {
        Some(
            match number_of(v, wide, "bad step width") {
                Ok(x) => Ok(Settings { sw_l2: x as u32, ..s }),
                Err(e) => Err(e),
            },
        )
    } else if text::same(a, "--temporal-sw-modifier") {
        Some(
            match number_of(v, 255, "bad modifier") {
                Ok(x) => Ok(Settings { temporal_sw_modifier: x as u8, ..s }),
                Err(e) => Err(e),
            },
        )
    } else if text::same(a, "--tile-size-compression") {
        Some(
            match number_of(v, 255, "bad compression") {
                Ok(x) => Ok(Settings { tile_size_compression: x as u8, ..s }),
                Err(e) => Err(e),
            },
        )
    } else if text::same(a, "--bit-depth") {
        Some(
            match number_of(v, 255, "bad bit depth") {
                Ok(x) => if x == 8 || x == 10 {
                    Ok(Settings { bit_depth: x as u8, ..s })
                } else {
                    Err("bit depth must be 8 or 10".to_string())
                },
                Err(e) => Err(e),
            },
        )
    } else if text::same(a, "--base-gop") {
        Some(
            match number_of(v, usize::MAX as u64, "bad base-gop") {
                Ok(x) => Ok(Settings { base_gop: x as usize, ..s }),
                Err(e) => Err(e),
            },
        )
    } else if text::same(a, "--target-kbps") {
        Some(
            match number_of(v, wide, "bad target-kbps") {
                Ok(x) => Ok(Settings { target_kbps: Some(x as u32), ..s }),
                Err(e) => Err(e),
            },
        )
    } else {
        None
    }
}

/// The settings after an option that names a mode, or the message about the name; nothing if
/// it is no such option.
pub open spec fn mode_set(s: Settings, a: Seq<char>, v: Seq<char>) -> Option<
    Result<Settings, Seq<char>>,
> {
    if a == "-s"@ || a == "--size"@ {
        Some(
            match size_of_text(v) {
                Ok((w, h)) => Ok(Settings { width: w, height: h, ..s }),
                Err(e) => Err(e),
            },
        )
    } else if a == "--transform"@ {
        Some(
            match transform_of_text(v) {
                Some(t) => Ok(Settings { transform: t, ..s }),
                None => Err("bad transform"@),
            },
        )
    } else if a == "--upsampler"@ {
        Some(
            match upsampler_of_text(v) {
                Some(u) => Ok(Settings { upsampler: u, ..s }),
                None => Err("bad upsampler"@),
            },
        )
    } else if a == "--scaling-l1"@ {
        Some(
            match scaling_of_text(v) {
                Some(m) => Ok(Settings { scaling_l1: m, ..s }),
                None => Err("bad scaling mode"@),
            },
        )
    } else if a == "--scaling-l2"@ {
        Some(
            match scaling_of_text(v) {
                Some(m) => Ok(Settings { scaling_l2: m, ..s }),
                None => Err("bad scaling mode"@),
            },
        )
    } else if a == "--predicted-average"@ {
        Some(
            match switch_of_text(v) {
                Some(b) => Ok(Settings { predicted_average: b, ..s }),
                None => Err("expected on/off"@),
            },
        )
    } else if a == "--temporal"@ {
        Some(
            match switch_of_text(v) {
                Some(b) => Ok(Settings { temporal: b, ..s }),
                None => Err("expected on/off"@),
            },
        )
    } else if a == "--tiles"@ {
        Some(
            match tiles_of_text(v) {
                Ok((t, c)) => Ok(Settings { tiles: t, custom_tile: c, ..s }),
                Err(e) => Err(e),
            },
        )
    } else {
        None
    }
}

fn set_mode(s: Settings, a: &str, v: &str) -> (r: Option<Result<Settings, String>>)
    ensures
        outcome(r) == mode_set(s, a@, v@),
{
    if text::same(a, "-s") || text::same(a, "--size") {
        Some(
            match parse_size(v) {
                Ok(d) => Ok(Settings { width: d.0, height: d.1, ..s }),
                Err(e) => Err(e),
            },
        )
    } else if text::same(a, "--transform") {
        if text::same(v, "2x2") {
            Some(Ok(Settings { transform: TransformType::Dd, ..s }))
        } else if text::same(v, "4x4") {
            Some(Ok(Settings { transform: TransformType::Dds, ..s }))
        } else {
            Some(Err("bad transform".to_string()))
        }
    } else if text::same(a, "--upsampler") {
        if text::same(v, "nearest") {
            Some(Ok(Settings { upsampler: UpsampleType::Nearest, ..s }))
        } else if text::same(v, "bilinear") || text::same(v, "linear") {
            Some(Ok(Settings { upsampler: UpsampleType::Linear, ..s }))
        } else if text::same(v, "cubic") {
            Some(Ok(Settings { upsampler: UpsampleType::Cubic, ..s }))
        } else if text::same(v, "modified-cubic") {
            Some(Ok(Settings { upsampler: UpsampleType::ModifiedCubic, ..s }))
        } else {
            Some(Err("bad upsampler".to_string()))
        }
    } else if text::same(a, "--scaling-l1") {
        Some(
            match parse_scaling(v) {
                Ok(m) => Ok(Settings { scaling_l1: m, ..s }),
                Err(e) => Err(e),
            },
        )
    } else if text::same(a, "--scaling-l2") {
        Some(
            match parse_scaling(v) {
                Ok(m) => Ok(Settings { scaling_l2: m, ..s }),
                Err(e) => Err(e),
            },
        )
    } else if text::same(a, "--predicted-average") {
        Some(
            match parse_on_off(v) {
                Ok(b) => Ok(Settings { predicted_average: b, ..s }),
                Err(e) => Err(e),
            },
        )
    } else if text::same(a, "--temporal") {
        Some(
            match parse_on_off(v) {
                Ok(b) => Ok(Settings { temporal: b, ..s }),
                Err(e) => Err(e),
            },
        )
    } else if text::same(a, "--tiles") {
        Some(
            match parse_tiles(v) {
                Ok(t) => Ok(Settings { tiles: t.0, custom_tile: t.1, ..s }),
                Err(e) => Err(e),
            },
        )
    } else {
        None
    }
}

/// Whether an option takes a value.
pub open spec fn takes_value(a: Seq<char>) -> bool {
    let s = default_settings();
    let n = default_names();
    ||| name_set(n, a, a) is Some
    ||| fraction_set(n, a, a) is Some
    ||| number_set(s, a, a) is Some
    ||| mode_set(s, a, a) is Some
}

/// What the command line comes to.
pub enum Chosen {
    /// Only the usage was asked for.
    Help,
    Run(Settings, NamesModel),
}

/// What the arguments from `i` on make of settings and names, or the message about them.
/// `fractions` says of each argument whether it is a decimal fraction.
pub open spec fn chosen_from(
    args: Seq<Seq<char>>,
    fractions: Seq<bool>,
    i: int,
    s: Settings,
    n: NamesModel,
) -> Result<Chosen, Seq<char>>
    decreases args.len() - i,
{
    if i < 0 || i >= args.len() {
        Ok(Chosen::Run(s, n))
    } else {
        let a = args[i];
        let v = args[i + 1];
        if a == "-h"@ || a == "--help"@ {
            Ok(Chosen::Help)
        } else if flag_set(s, a) is Some {
            chosen_from(args, fractions, i + 1, flag_set(s, a)->0, n)
        } else if !takes_value(a) {
            Err("unknown option "@ + a + "\n"@ + USAGE@)
        } else if i + 1 >= args.len() {
            Err("missing value for "@ + a)
        } else if name_set(n, a, v) is Some {
            chosen_from(args, fractions, i + 2, s, name_set(n, a, v)->0)
        } else if fraction_set(n, a, v) is Some {
            if fractions[i + 1] {
                chosen_from(args, fractions, i + 2, s, (fraction_set(n, a, v)->0).0)
            } else {
                Err((fraction_set(n, a, v)->0).1)
            }
        } else if number_set(s, a, v) is Some {
            match number_set(s, a, v)->0 {
                Ok(t) => chosen_from(args, fractions, i + 2, t, n),
                Err(e) => Err(e),
            }
        } else {
            match mode_set(s, a, v)->0 {
                Ok(t) => chosen_from(args, fractions, i + 2, t, n),
                Err(e) => Err(e),
            }
        }
    }
}

/// The options of a command line.
pub enum Parsed {
    /// Only the usage was asked for.
    Help,
    Run(Settings, Names),
}

/// The texts of arguments.
pub open spec fn texts(args: Seq<String>) -> Seq<Seq<char>> {
    Seq::new(args.len(), |i: int| args[i]@)
}

/// What was parsed.
pub open spec fn parsed(r: Result<Parsed, String>) -> Result<Chosen, Seq<char>> {
    match r {
        Ok(Parsed::Help) => Ok(Chosen::Help),
        Ok(Parsed::Run(s, n)) => Ok(Chosen::Run(s, n@)),
        Err(e) => Err(e@),
    }
}

fn unknown_option(a: &str) -> (s: String)
    ensures
        s@ == "unknown option "@ + a@ + "\n"@ + USAGE@,
{
    let mut s = "unknown option ".to_string();
    s.append(a);
    s.append("\n");
    s.append(USAGE);
    s
}

fn missing_value(a: &str) -> (s: String)
    ensures
        s@ == "missing value for "@ + a@,
{
    let mut s = "missing value for ".to_string();
    s.append(a);
    s
}

/// What one option and its value do to settings and names.
enum Step {
    Settings(Settings),
    Names,
    Unknown,
    Refused(String),
}

fn take_value(s: Settings, n: &mut Names, a: &str, v: &str, fraction: bool) -> (r: Step)
    ensures
        match r {
            Step::Settings(t) => {
                &&& final(n)@ == old(n)@
                &&& name_set(old(n)@, a@, v@) is None
                &&& fraction_set(old(n)@, a@, v@) is None
                &&& number_set(s, a@, v@) == Some(Ok::<Settings, Seq<char>>(t)) || (number_set(
                    s,
                    a@,
                    v@,
                ) is None && mode_set(s, a@, v@) == Some(Ok::<Settings, Seq<char>>(t)))
            },
            Step::Names => {
                ||| name_set(old(n)@, a@, v@) == Some(final(n)@)
                ||| {
                    &&& name_set(old(n)@, a@, v@) is None
                    &&& fraction
                    &&& fraction_set(old(n)@, a@, v@) is Some
                    &&& (fraction_set(old(n)@, a@, v@)->0).0 == final(n)@
                }
            },
            Step::Unknown => !takes_value(a@),
            Step::Refused(e) => {
                &&& name_set(old(n)@, a@, v@) is None
                &&& match fraction_set(old(n)@, a@, v@) {
                    Some(f) => !fraction && e@ == f.1,
                    None => number_set(s, a@, v@) == Some(Err::<Settings, Seq<char>>(e@)) || (
                    number_set(s, a@, v@) is None && mode_set(s, a@, v@) == Some(
                        Err::<Settings, Seq<char>>(e@),
                    )),
                }
            },
        },
        !(r is Unknown) ==> takes_value(a@),
{
    if set_name(n, a, v) {
        return Step::Names;
    }
    if text::same(a, "--base-gop-seconds") {
        if fraction {
            n.base_gop_seconds = Some(v.to_string());
            return Step::Names;
        }
        return Step::Refused("bad base-gop-seconds".to_string());
    }
    if text::same(a, "--qm-beta") {
        if fraction {
            n.qm_beta = Some(v.to_string());
            return Step::Names;
        }
        return Step::Refused("bad qm-beta".to_string());
    }
    match set_number(s, a, v) {
        Some(Ok(t)) => {
            return Step::Settings(t);
        },
        Some(Err(e)) => {
            return Step::Refused(e);
        },
        None => {},
    }
    match set_mode(s, a, v) {
        Some(Ok(t)) => Step::Settings(t),
        Some(Err(e)) => Step::Refused(e),
        None => Step::Unknown,
    }
}

/// Parse the command line; the first argument is the name of the program. `fractions` says of
/// each argument whether it is a decimal fraction.
pub fn parse_args(args: &Vec<String>, fractions: &Vec<bool>) -> (r: Result<Parsed, String>)
    requires
        fractions@.len() == args@.len(),
    ensures
        parsed(r) == chosen_from(
            texts(args@),
            fractions@,
            1,
            default_settings(),
            default_names(),
        ),
{
    let mut s = Settings {
        width: 0,
        height: 0,
        fps: 30,
        frames: u32::MAX,
        sw_l1: 512,
        sw_l2: 128,
        transform: TransformType::Dds,
        upsampler: UpsampleType::Linear,
        scaling_l1: ScalingMode::Scale2D,
        scaling_l2: ScalingMode::Scale2D,
        predicted_average: true,
        temporal: false,
        temporal_sw_modifier: 48,
        tiles: TileDimensions::Untiled,
        custom_tile: None,
        tile_size_compression: 0,
        verify: false,
        no_psnr: false,
        no_rdoq: false,
        dump_base: false,
        dump_recon: false,
        bit_depth: 8,
        mux_only: false,
        base_gop: 30,
        target_kbps: None,
    };
    let mut n = Names {
        input: None,
        output: None,
        base_out: None,
        input_format: None,
        mux_out: None,
        base_mode: "raw".to_string(),
        vvc_preset: "medium".to_string(),
        vvc_qp: "30".to_string(),
        base_gop_seconds: None,
        qm_beta: None,
    };
    let ghost all = texts(args@);
    let ghost target = chosen_from(all, fractions@, 1, default_settings(), default_names());
    let mut i: usize = 1;
    while i < args.len()
        invariant
            1 <= i,
            i <= args@.len() || i == 1,
            all == texts(args@),
            fractions@.len() == args@.len(),
            target == chosen_from(all, fractions@, 1, default_settings(), default_names()),
            chosen_from(all, fractions@, i as int, s, n@) == target,
        decreases args@.len() - i,
    {
        let a = args[i].as_str();
        assert(a@ == all[i as int]);
        if text::same(a, "-h") || text::same(a, "--help") {
            return Ok(Parsed::Help);
        }
        match set_flag(s, a) {
            Some(t) => {
                s = t;
                i = i + 1;
            },
            None => {
                let have: usize = args.len();
                if i + 1 == have {
                    // An unknown option is answered as such even where nothing follows it.
                    let mut scratch = Names {
                        input: None,
                        output: None,
                        base_out: None,
                        input_format: None,
                        mux_out: None,
                        base_mode: "raw".to_string(),
                        vvc_preset: "medium".to_string(),
                        vvc_qp: "30".to_string(),
                        base_gop_seconds: None,
                        qm_beta: None,
                    };
                    match take_value(s, &mut scratch, a, a, true) {
                        Step::Unknown => {
                            return Err(unknown_option(a));
                        },
                        _ => {
                            return Err(missing_value(a));
                        },
                    }
                }
                let v = args[i + 1].as_str();
                assert(v@ == all[i + 1]);
                match take_value(s, &mut n, a, v, fractions[i + 1]) {
                    Step::Settings(t) => {
                        s = t;
                    },
                    Step::Names => {},
                    Step::Unknown => {
                        return Err(unknown_option(a));
                    },
                    Step::Refused(e) => {
                        return Err(e);
                    },
                }
                i = i + 2;
            },
        }
    }
    Ok(Parsed::Run(s, n))
}

} // verus!
