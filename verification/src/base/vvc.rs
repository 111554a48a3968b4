//! VVC base codec integration: the options of the external encoder, the bytes that go to it
//! and the pictures that come back from the decoder.
use crate::config::{ChromaFormat, ColourInfo};
use crate::frame;
use crate::frame::{Picture, Raster};
use crate::text;
use crate::yuv;
use vstd::prelude::*;

verus! {

/// What the encoder is told.
pub struct VvcOptions {
    pub preset: String,
    pub qp: String,
}

/// Where a text has its next comma, or its end.
pub open spec fn comma(s: Seq<char>, i: int) -> int
    decreases s.len() - i,
{
    if i >= s.len() {
        s.len() as int
    } else if s[i] == ',' {
        i
    } else {
        comma(s, i + 1)
    }
}

pub proof fn lemma_comma(s: Seq<char>, i: int)
    requires
        i <= s.len(),
    ensures
        i <= comma(s, i) <= s.len(),
    decreases s.len() - i,
{
    if i < s.len() && s[i] != ',' {
        lemma_comma(s, i + 1);
    }
}

/// The pieces of a text from `i` on, between its commas.
pub open spec fn pieces(s: Seq<char>, i: int) -> Seq<Seq<char>>
    decreases s.len() - i,
{
    if i < 0 || i > s.len() {
        Seq::empty()
    } else {
        proof {
            lemma_comma(s, i);
        }
        let end = comma(s, i);
        seq![s.subrange(i, end)] + (if end < s.len() {
            pieces(s, end + 1)
        } else {
            Seq::empty()
        })
    }
}

/// What stands behind a prefix.
pub open spec fn behind(s: Seq<char>, prefix: Seq<char>) -> Option<Seq<char>> {
    if s.len() >= prefix.len() && s.subrange(0, prefix.len() as int) == prefix {
        Some(s.subrange(prefix.len() as int, s.len() as int))
    } else {
        None
    }
}

/// Preset and QP after one more option.
pub open spec fn option_step(o: (Seq<char>, Seq<char>), piece: Seq<char>) -> (
    Seq<char>,
    Seq<char>,
) {
    match behind(piece, "preset="@) {
        Some(v) => (v, o.1),
        None => match behind(piece, "qp="@) {
            Some(v) => (o.0, v),
            None => o,
        },
    }
}

/// Preset and QP after all options from `k` on.
pub open spec fn options_after(o: (Seq<char>, Seq<char>), all: Seq<Seq<char>>, k: int) -> (
    Seq<char>,
    Seq<char>,
)
    decreases all.len() - k,
{
    if k < 0 || k >= all.len() {
        o
    } else {
        options_after(option_step(o, all[k]), all, k + 1)
    }
}

fn strip<'a>(s: &'a str, prefix: &str) -> (r: Option<&'a str>)
    ensures
        match r {
            Some(v) => behind(s@, prefix@) == Some(v@),
            None => behind(s@, prefix@) is None,
        },
{
    let n: usize = s.unicode_len();
    let m: usize = prefix.unicode_len();
    if n < m || !text::same(s.substring_char(0, m), prefix) {
        None
    } else {
        Some(s.substring_char(m, n))
    }
}

/// Preset and QP from encoder options like "preset=fast,qp=27" (without: "faster" and 30).
pub fn vvc_options(extra: &str) -> (o: VvcOptions)
    ensures
        (o.preset@, o.qp@) == options_after(("faster"@, "30"@), pieces(extra@, 0), 0),
{
    let mut o = VvcOptions { preset: "faster".to_string(), qp: "30".to_string() };
    let n: usize = extra.unicode_len();
    let ghost all = pieces(extra@, 0);
    let ghost mut k: int = 0;
    let mut i: usize = 0;
    let mut more: bool = true;
    assert(all.subrange(0, all.len() as int) =~= all);
    while more
        invariant
            i <= n == extra@.len(),
            all == pieces(extra@, 0),
            0 <= k <= all.len(),
            more ==> pieces(extra@, i as int) == all.subrange(k, all.len() as int),
            !more ==> k == all.len(),
            options_after((o.preset@, o.qp@), all, k) == options_after(
                ("faster"@, "30"@),
                all,
                0,
            ),
        decreases
            n - i,
            if more {
                1int
            } else {
                0int
            },
    {
        let mut end: usize = i;
        while end < n && extra.get_char(end) != ','
            invariant
                i <= end <= n == extra@.len(),
                comma(extra@, end as int) == comma(extra@, i as int),
            decreases n - end,
        {
            end = end + 1;
        }
        let piece = extra.substring_char(i, end);
        proof {
            let rest = all.subrange(k, all.len() as int);
            assert(end == comma(extra@, i as int));
            assert(rest == pieces(extra@, i as int));
            assert(rest.len() >= 1);
            assert(rest[0] == piece@);
            assert(all[k] == rest[0]);
            if end < n {
                assert(pieces(extra@, end + 1) =~= rest.subrange(1, rest.len() as int));
                assert(pieces(extra@, end + 1) =~= all.subrange(k + 1, all.len() as int));
            } else {
                assert(rest.len() == 1);
            }
        }
        match strip(piece, "preset=") {
            Some(v) => {
                o.preset = v.to_string();
            },
            None => {
                match strip(piece, "qp=") {
                    Some(v) => {
                        o.qp = v.to_string();
                    },
                    None => {},
                }
            },
        }
        proof {
            k = k + 1;
        }
        if end < n {
            i = end + 1;
        } else {
            more = false;
        }
    }
    o
}

/// The parameters of the encoder for a number of threads. `mtprofile` 3 enables wavefronts and
/// tiles, which not every version of the encoder knows.
pub fn encoder_params(threads: u64, wavefront: bool) -> (s: String)
    ensures
        s@ == "internalbitdepth=10:inputbitdepth=10:threads="@ + text::decimal(threads as nat) + (
        if wavefront {
            ":mtprofile=3"@
        } else {
            Seq::empty()
        }),
{
    let mut s = "internalbitdepth=10:inputbitdepth=10:threads=".to_string();
    text::push_decimal(&mut s, threads);
    if wavefront {
        s.append(":mtprofile=3");
    }
    assert(s@ =~= "internalbitdepth=10:inputbitdepth=10:threads="@ + text::decimal(threads as nat)
        + (if wavefront {
        ":mtprofile=3"@
    } else {
        Seq::empty()
    }));
    s
}

/// The message about a base whose width or height is odd.
pub open spec fn odd_text(width: nat, height: nat) -> Seq<char> {
    "VVC base requires even dimensions, got "@ + text::decimal(width) + "x"@ + text::decimal(height)
}

fn odd_message(width: u32, height: u32) -> (s: String)
    ensures
        s@ == odd_text(width as nat, height as nat),
{
    let mut s = "VVC base requires even dimensions, got ".to_string();
    text::push_decimal(&mut s, width as u64);
    s.append("x");
    text::push_decimal(&mut s, height as u64);
    s
}

/// The encoder takes pictures of even width and height. Dimensions have 32 bits.
pub fn check_even(width: u32, height: u32) -> (r: Result<(), String>)
    ensures
        match r {
            Ok(_) => width % 2 == 0 && height % 2 == 0,
            Err(e) => (width % 2 != 0 || height % 2 != 0) && e@ == odd_text(
                width as nat,
                height as nat,
            ),
        },
{
    if width % 2 != 0 || height % 2 != 0 {
        Err(odd_message(width, height))
    } else {
        Ok(())
    }
}

/// The low 32 bits of a dimension.
pub open spec fn low32(v: usize) -> int {
    v as int % 0x1_0000_0000
}

/// The low 32 bits of a dimension: they tell whether it is even.
fn low_half(v: usize) -> (r: u32)
    ensures
        r == low32(v),
        r % 2 == v % 2,
{
    let r: u32 = (v as u64 % 0x1_0000_0000) as u32;
    proof {
        vstd::arithmetic::div_mod::lemma_mod_mod(v as int, 2, 0x8000_0000);
    }
    r
}

/// Whether all pictures have the dimensions of the first.
pub open spec fn consistent(frames: Seq<Picture>) -> bool {
    forall|i: int|
        0 <= i < frames.len() ==> (#[trigger] frames[i]).width == low32(frames[0].width)
            && frames[i].height == low32(frames[0].height)
}

/// The dimensions of the pictures of a GOP: none for an empty one.
pub fn gop_size(frames: &[Picture]) -> (r: Result<Option<(usize, usize)>, String>)
    ensures
        match r {
            Ok(None) => frames@.len() == 0,
            Ok(Some(d)) => {
                &&& frames@.len() > 0
                &&& d == (frames@[0].width, frames@[0].height)
                &&& d.0 % 2 == 0 && d.1 % 2 == 0
                &&& consistent(frames@)
            },
            Err(e) => {
                &&& frames@.len() > 0
                &&& if frames@[0].width % 2 != 0 || frames@[0].height % 2 != 0 {
                    e@ == odd_text(
                        low32(frames@[0].width) as nat,
                        low32(frames@[0].height) as nat,
                    )
                } else {
                    e@ == "base GOP frames have inconsistent dimensions"@ && !consistent(frames@)
                }
            },
        },
{
    if frames.len() == 0 {
        return Ok(None);
    }
    let width: u32 = low_half(frames[0].width);
    let height: u32 = low_half(frames[0].height);
    match check_even(width, height) {
        Ok(_) => {},
        Err(e) => {
            return Err(e);
        },
    }
    let mut i: usize = 0;
    while i < frames.len()
        invariant
            i <= frames@.len(),
            frames@.len() > 0,
            width == low32(frames@[0].width),
            height == low32(frames@[0].height),
            frames@[0].width % 2 == 0 && frames@[0].height % 2 == 0,
            forall|j: int|
                0 <= j < i ==> (#[trigger] frames@[j]).width == width && frames@[j].height
                    == height,
        decreases frames@.len() - i,
    {
        if frames[i].width != width as usize || frames[i].height != height as usize {
            return Err("base GOP frames have inconsistent dimensions".to_string());
        }
        i = i + 1;
    }
    Ok(Some((frames[0].width, frames[0].height)))
}

/// The bytes of pictures from `k` on, 16 bits per sample.
pub open spec fn gop_bytes(frames: Seq<Picture>, k: int) -> Seq<u8>
    decreases frames.len() - k,
{
    if k < 0 || k >= frames.len() {
        Seq::empty()
    } else {
        yuv::planes_bytes(frame::planes_view(frames[k].planes@), 0, true) + gop_bytes(frames, k + 1)
    }
}

/// The bytes of a GOP for the encoder. The encoder takes 10-bit input only, so 8-bit samples
/// pass through unchanged in 16 bits.
pub fn gop_input(frames: &[Picture]) -> (out: Vec<u8>)
    ensures
        out@ == gop_bytes(frames@, 0),
{
    let mut out: Vec<u8> = Vec::new();
    let mut k: usize = 0;
    assert(out@ + gop_bytes(frames@, 0) =~= gop_bytes(frames@, 0));
    while k < frames.len()
        invariant
            k <= frames@.len(),
            out@ + gop_bytes(frames@, k as int) == gop_bytes(frames@, 0),
        decreases frames@.len() - k,
    {
        let ghost before = out@;
        let written = yuv::write_yuv420(&frames[k], 10, &mut out);
        assert(written is Ok);
        k = k + 1;
        assert(out@ + gop_bytes(frames@, k as int) =~= before + (yuv::planes_bytes(
            frame::planes_view(frames@[k - 1].planes@),
            0,
            true,
        ) + gop_bytes(frames@, k as int)));
    }
    assert(out@ =~= gop_bytes(frames@, 0));
    out
}

/// The pictures of a decoded GOP, 16 bits per sample.
pub fn gop_pictures(
    data: &[u8],
    count: usize,
    width: usize,
    height: usize,
    chroma: ChromaFormat,
) -> (out: Vec<Picture>)
    requires
        count * yuv::frame_len(width as int, height as int, 10) <= data@.len(),
        yuv::picture_bytes_len(width as int, height as int, chroma, true) <= yuv::frame_len(
            width as int,
            height as int,
            10,
        ),
    ensures
        out@.len() == count,
        forall|k: int|
            0 <= k < count ==> {
                &&& (#[trigger] out@[k]).width == width
                &&& out@[k].height == height
                &&& frame::planes_view(out@[k].planes@) == yuv::planes_at(
                    data@,
                    k * yuv::frame_len(width as int, height as int, 10),
                    width as int,
                    height as int,
                    chroma,
                    true,
                )
            },
{
    let have: usize = data.len();
    let mut out: Vec<Picture> = Vec::new();
    if count == 0 {
        return out;
    }
    proof {
        let len = yuv::frame_len(width as int, height as int, 10);
        let half_width = width as int / 2;
        let half_height = height as int / 2;
        assert(width * height >= 0 && half_width * half_height >= 0) by (nonlinear_arith)
            requires
                width >= 0,
                height >= 0,
                half_width >= 0,
                half_height >= 0,
        ;
        assert(len <= count * len) by (nonlinear_arith)
            requires
                count >= 1,
                len >= 0,
        ;
    }
    let size: usize = match yuv::frame_bytes(width, height, 10) {
        Some(size) => size,
        None => 0,
    };
    let mut k: usize = 0;
    let mut at: usize = 0;
    while k < count
        invariant
            k <= count,
            at == k * size,
            size == yuv::frame_len(width as int, height as int, 10),
            count * size <= data@.len() == have,
            yuv::picture_bytes_len(width as int, height as int, chroma, true) <= size,
            out@.len() == k,
            forall|j: int|
                0 <= j < k ==> {
                    &&& (#[trigger] out@[j]).width == width
                    &&& out@[j].height == height
                    &&& frame::planes_view(out@[j].planes@) == yuv::planes_at(
                        data@,
                        j * size,
                        width as int,
                        height as int,
                        chroma,
                        true,
                    )
                },
        decreases count - k,
    {
        proof {
            assert(k * size + size == (k + 1) * size && (k + 1) * size <= count * size)
                by (nonlinear_arith)
                requires
                    k < count,
                    size >= 0,
            ;
        }
        out.push(yuv::read_picture(data, at, width, height, chroma, true));
        at = at + size;
        k = k + 1;
    }
    out
}

/// The planes of a decoded base picture, or the message about it.
pub open spec fn decoded_base(
    d: Seq<u8>,
    width: int,
    height: int,
    chroma: ChromaFormat,
    depth: u8,
) -> Result<Seq<Raster<u16>>, Seq<char>> {
    let expected = yuv::frame_len(width, height, depth);
    if d.len() < expected {
        Err("decoded base too small: "@ + text::decimal(d.len()) + " < "@ + text::decimal(
            expected as nat,
        ))
    } else if depth != 8 && depth != 10 {
        Err("unsupported depth "@ + text::decimal(depth as nat))
    } else {
        Ok(yuv::planes_at(d, 0, width, height, chroma, depth == 10))
    }
}

/// The decoded base picture from the bytes of the decoder.
pub fn decoded_picture(
    data: &[u8],
    width: usize,
    height: usize,
    chroma: ChromaFormat,
    depth: u8,
) -> (r: Result<Picture, String>)
    requires
        yuv::countable(width as int, height as int),
        yuv::picture_bytes_len(width as int, height as int, chroma, depth == 10) <= yuv::frame_len(
            width as int,
            height as int,
            depth,
        ),
    ensures
        match r {
            Ok(pic) => {
                &&& pic.width == width
                &&& pic.height == height
                &&& decoded_base(data@, width as int, height as int, chroma, depth) == Ok::<
                    Seq<Raster<u16>>,
                    Seq<char>,
                >(frame::planes_view(pic.planes@))
            },
            Err(e) => decoded_base(data@, width as int, height as int, chroma, depth) == Err::<
                Seq<Raster<u16>>,
                Seq<char>,
            >(e@),
        },
{
    let expected: u128 = yuv::frame_need(width, height, depth);
    if (data.len() as u128) < expected {
        let mut s = "decoded base too small: ".to_string();
        text::push_decimal(&mut s, data.len() as u64);
        s.append(" < ");
        text::push_wide(&mut s, expected);
        return Err(s);
    }
    if depth != 8 && depth != 10 {
        let mut s = "unsupported depth ".to_string();
        text::push_decimal(&mut s, depth as u64);
        return Err(s);
    }
    Ok(yuv::read_picture(data, 0, width, height, chroma, depth == 10))
}

/// Texts of arguments.
pub open spec fn args_view(v: Seq<String>) -> Seq<Seq<char>> {
    Seq::new(v.len(), |i: int| v[i]@)
}

fn arg(args: &mut Vec<String>, a: &str)
    ensures
        args_view(final(args)@) == args_view(old(args)@).push(a@),
{
    let ghost before = args_view(args@);
    args.push(a.to_string());
    assert(args_view(args@) =~= before.push(a@));
}

/// A size as it is written: width, x, height.
pub open spec fn size_text(width: u32, height: u32) -> Seq<char> {
    text::decimal(width as nat) + "x"@ + text::decimal(height as nat)
}

fn size_message(width: u32, height: u32) -> (s: String)
    ensures
        s@ == size_text(width, height),
{
    let mut s = String::new();
    text::push_decimal(&mut s, width as u64);
    assert(s@ =~= text::decimal(width as nat));
    s.append("x");
    text::push_decimal(&mut s, height as u64);
    s
}

/// How the input of the encoder is described.
pub open spec fn input_args(width: u32, height: u32) -> Seq<Seq<char>> {
    seq![
        "-hide_banner"@,
        "-loglevel"@,
        "error"@,
        "-y"@,
        "-f"@,
        "rawvideo"@,
        "-pix_fmt"@,
        "yuv420p10le"@,
        "-s"@,
        size_text(width, height),
    ]
}

/// How the encoder is chosen and set.
pub open spec fn codec_args(preset: Seq<char>, qp: Seq<char>, params: Seq<char>) -> Seq<Seq<char>> {
    seq![
        "-c:v"@,
        "libvvenc"@,
        "-preset"@,
        preset,
        "-qp"@,
        qp,
        "-vvenc-params"@,
        params,
    ]
}

fn push_input_args(args: &mut Vec<String>, width: u32, height: u32)
    ensures
        args_view(final(args)@) == args_view(old(args)@) + input_args(width, height),
{
    let ghost before = args_view(args@);
    let size = size_message(width, height);
    arg(args, "-hide_banner");
    arg(args, "-loglevel");
    arg(args, "error");
    arg(args, "-y");
    arg(args, "-f");
    arg(args, "rawvideo");
    arg(args, "-pix_fmt");
    arg(args, "yuv420p10le");
    arg(args, "-s");
    arg(args, size.as_str());
    assert(args_view(args@) =~= before + input_args(width, height));
}

fn push_codec_args(args: &mut Vec<String>, o: &VvcOptions, params: &str)
    ensures
        args_view(final(args)@) == args_view(old(args)@) + codec_args(o.preset@, o.qp@, params@),
{
    let ghost before = args_view(args@);
    arg(args, "-c:v");
    arg(args, "libvvenc");
    arg(args, "-preset");
    arg(args, o.preset.as_str());
    arg(args, "-qp");
    arg(args, o.qp.as_str());
    arg(args, "-vvenc-params");
    arg(args, params);
    assert(args_view(args@) =~= before + codec_args(o.preset@, o.qp@, params@));
}

/// The arguments of the encoder for a GOP: raw pictures in, 25 per second, and a VVC stream out,
/// both through pipes.
pub fn gop_encode_args(width: u32, height: u32, o: &VvcOptions, params: &str) -> (args: Vec<String>)
    ensures
        args_view(args@) == input_args(width, height) + seq!["-r"@, "25"@, "-i"@, "-"@]
            + codec_args(o.preset@, o.qp@, params@) + seq!["-f"@, "vvc"@, "pipe:1"@],
{
    let mut args: Vec<String> = Vec::new();
    push_input_args(&mut args, width, height);
    assert(args_view(args@) =~= input_args(width, height));
    arg(&mut args, "-r");
    arg(&mut args, "25");
    arg(&mut args, "-i");
    arg(&mut args, "-");
    assert(args_view(args@) =~= input_args(width, height) + seq!["-r"@, "25"@, "-i"@, "-"@]);
    push_codec_args(&mut args, o, params);
    let ghost before = args_view(args@);
    arg(&mut args, "-f");
    arg(&mut args, "vvc");
    arg(&mut args, "pipe:1");
    assert(args_view(args@) =~= before + seq!["-f"@, "vvc"@, "pipe:1"@]);
    args
}

/// How colours are described to the encoder.
pub open spec fn colour_args(colour: Option<ColourInfo>) -> Seq<Seq<char>> {
    match colour {
        Some(c) => seq![
            "-color_primaries"@,
            c.primaries_name@,
            "-color_trc"@,
            c.transfer_name@,
            "-colorspace"@,
            c.matrix_name@,
        ],
        None => Seq::empty(),
    }
}

/// The arguments of the encoder for one picture: from a file of raw samples to a file.
pub fn frame_encode_args(
    width: u32,
    height: u32,
    o: &VvcOptions,
    params: &str,
    input: &str,
    output: &str,
    colour: Option<&ColourInfo>,
) -> (args: Vec<String>)
    ensures
        args_view(args@) == (input_args(width, height) + seq!["-i"@, input@] + codec_args(
            o.preset@,
            o.qp@,
            params@,
        ) + colour_args(
            match colour {
                Some(c) => Some(*c),
                None => None,
            },
        )).push(output@),
{
    let mut args: Vec<String> = Vec::new();
    push_input_args(&mut args, width, height);
    assert(args_view(args@) =~= input_args(width, height));
    arg(&mut args, "-i");
    arg(&mut args, input);
    assert(args_view(args@) =~= input_args(width, height) + seq!["-i"@, input@]);
    push_codec_args(&mut args, o, params);
    let ghost before = args_view(args@);
    match colour {
        Some(c) => {
            arg(&mut args, "-color_primaries");
            arg(&mut args, c.primaries_name.as_str());
            arg(&mut args, "-color_trc");
            arg(&mut args, c.transfer_name.as_str());
            arg(&mut args, "-colorspace");
            arg(&mut args, c.matrix_name.as_str());
            assert(args_view(args@) =~= before + colour_args(Some(*c)));
        },
        None => {
            assert(before =~= before + colour_args(None));
        },
    }
    arg(&mut args, output);
    args
}

/// The arguments of the decoder: a VVC stream in, raw pictures out.
pub fn decode_args(input: &str, output: &str) -> (args: Vec<String>)
    ensures
        args_view(args@) == seq![
            "-hide_banner"@,
            "-loglevel"@,
            "error"@,
            "-y"@,
            "-i"@,
            input@,
            "-f"@,
            "rawvideo"@,
            "-pix_fmt"@,
            "yuv420p10le"@,
            output@,
        ],
{
    let mut args: Vec<String> = Vec::new();
    arg(&mut args, "-hide_banner");
    arg(&mut args, "-loglevel");
    arg(&mut args, "error");
    arg(&mut args, "-y");
    arg(&mut args, "-i");
    arg(&mut args, input);
    arg(&mut args, "-f");
    arg(&mut args, "rawvideo");
    arg(&mut args, "-pix_fmt");
    arg(&mut args, "yuv420p10le");
    arg(&mut args, output);
    args
}

/// The parameters of the next try to encode, after `failed` tries: first with wavefronts and
/// tiles, then without; none after that.
pub fn next_params(failed: u8, threads: u64) -> (params: Option<String>)
    ensures
        match params {
            Some(s) => failed <= 1 && s@ == "internalbitdepth=10:inputbitdepth=10:threads="@
                + text::decimal(threads as nat) + (if failed == 0 {
                ":mtprofile=3"@
            } else {
                Seq::empty()
            }),
            None => failed > 1,
        },
{
    if failed > 1 {
        None
    } else {
        Some(encoder_params(threads, failed == 0))
    }
}

} // verus!
