//! Raw YUV and Y4M (yuv4mpeg) pictures.
//!
//! Supports 8-bit (yuv420p) and 10-bit (yuv420p10le) planar input. A Y4M stream is read frame
//! by frame: the caller brings the bytes (from a file or a pipe), and what they mean is decided
//! here.
use crate::config;
use crate::config::ChromaFormat;
use crate::frame;
use crate::frame::{Picture, Plane, Raster};
use crate::text;
use vstd::prelude::*;

pub use crate::y4m::Y4mReader;

verus! {

/// Bytes per sample: one, or two with the low byte first.
pub open spec fn unit(wide: bool) -> int {
    if wide {
        2
    } else {
        1
    }
}

/// The sample at a position.
pub open spec fn sample_at(d: Seq<u8>, at: int, wide: bool) -> u16 {
    if wide {
        (d[at] + d[at + 1] * 256) as u16
    } else {
        d[at] as u16
    }
}

/// The plane at a position.
pub open spec fn plane_at(d: Seq<u8>, at: int, width: int, height: int, wide: bool) -> Raster<u16> {
    Raster {
        width,
        height,
        data: Seq::new((width * height) as nat, |i: int| sample_at(d, at + i * unit(wide), wide)),
    }
}

/// How many samples stand before a plane of a picture.
pub open spec fn samples_before(width: int, height: int, chroma: ChromaFormat, plane: int) -> int {
    let (cw, ch) = frame::picture_plane_size(width, height, chroma, 1);
    if plane <= 0 {
        0
    } else {
        width * height + (plane - 1) * (cw * ch)
    }
}

/// How many bytes a picture has.
pub open spec fn picture_bytes_len(
    width: int,
    height: int,
    chroma: ChromaFormat,
    wide: bool,
) -> int {
    samples_before(width, height, chroma, config::planes_of(chroma) as int) * unit(wide)
}

/// The planes of the picture at a position.
pub open spec fn planes_at(
    d: Seq<u8>,
    at: int,
    width: int,
    height: int,
    chroma: ChromaFormat,
    wide: bool,
) -> Seq<Raster<u16>> {
    Seq::new(
        config::planes_of(chroma),
        |p: int|
            {
                let (w, h) = frame::picture_plane_size(width, height, chroma, p);
                plane_at(d, at + samples_before(width, height, chroma, p) * unit(wide), w, h, wide)
            },
    )
}

/// The bytes of samples.
pub open spec fn sample_bytes(v: Seq<u16>, wide: bool) -> Seq<u8> {
    if wide {
        Seq::new(
            v.len() * 2,
            |i: int|
                if i % 2 == 0 {
                    (v[i / 2] % 256) as u8
                } else {
                    (v[i / 2] / 256) as u8
                },
        )
    } else {
        Seq::new(v.len(), |i: int| (v[i] % 256) as u8)
    }
}

/// The bytes of planes from `k` on, one after the other.
pub open spec fn planes_bytes(planes: Seq<Raster<u16>>, k: int, wide: bool) -> Seq<u8>
    decreases planes.len() - k,
{
    if k < 0 || k >= planes.len() {
        Seq::empty()
    } else {
        sample_bytes(planes[k].data, wide) + planes_bytes(planes, k + 1, wide)
    }
}

/// Whether the samples of a plane can be counted.
pub open spec fn countable(width: int, height: int) -> bool {
    width * height <= usize::MAX
}

proof fn lemma_plane_counts(width: int, height: int, chroma: ChromaFormat)
    requires
        0 <= width,
        0 <= height,
    ensures
        ({
            let (cw, ch) = frame::picture_plane_size(width, height, chroma, 1);
            let (dw, dh) = frame::picture_plane_size(width, height, chroma, 2);
            &&& frame::picture_plane_size(width, height, chroma, 0) == (width, height)
            &&& (cw, ch) == (dw, dh)
            &&& 0 <= cw * ch <= width * height
            &&& 0 <= cw && 0 <= ch
            &&& samples_before(width, height, chroma, 0) == 0
            &&& samples_before(width, height, chroma, 1) == width * height
            &&& samples_before(width, height, chroma, 2) == width * height + cw * ch
            &&& samples_before(width, height, chroma, 3) == width * height + 2 * (cw * ch)
        }),
{
    let (cw, ch) = frame::picture_plane_size(width, height, chroma, 1);
    assert(0 <= cw * ch <= width * height) by (nonlinear_arith)
        requires
            0 <= cw <= width,
            0 <= ch <= height,
    ;
    assert((1 - 1) * (cw * ch) == 0);
    assert((2 - 1) * (cw * ch) == cw * ch);
    assert((3 - 1) * (cw * ch) == 2 * (cw * ch));
}

/// A plane of samples from bytes.
fn read_plane(data: &[u8], at: usize, width: usize, height: usize, wide: bool) -> (p: Plane)
    requires
        at + width * height * unit(wide) <= data@.len(),
        width * height <= usize::MAX,
    ensures
        p@.wf(),
        p@ == plane_at(data@, at as int, width as int, height as int, wide),
{
    let have: usize = data.len();
    let n: usize = width * height;
    let mut samples: Vec<u16> = Vec::new();
    let mut i: usize = 0;
    while i < n
        invariant
            i <= n,
            n == width * height,
            at + n * unit(wide) <= data@.len() == have,
            samples@ == Seq::new(i as nat, |j: int| sample_at(data@, at + j * unit(wide), wide)),
        decreases n - i,
    {
        let ghost before = samples@;
        if wide {
            let low: u16 = data[at + i * 2] as u16;
            let high: u16 = data[at + i * 2 + 1] as u16;
            samples.push(low + high * 256);
        } else {
            samples.push(data[at + i] as u16);
        }
        i = i + 1;
        assert(samples@ =~= Seq::new(
            i as nat,
            |j: int| sample_at(data@, at + j * unit(wide), wide),
        ));
    }
    let p = Plane { width, height, data: samples };
    assert(p@.data =~= plane_at(data@, at as int, width as int, height as int, wide).data);
    p
}

/// The picture at a position.
pub(crate) fn read_picture(
    data: &[u8],
    at: usize,
    width: usize,
    height: usize,
    chroma: ChromaFormat,
    wide: bool,
) -> (pic: Picture)
    requires
        at + picture_bytes_len(width as int, height as int, chroma, wide) <= data@.len(),
    ensures
        pic.width == width,
        pic.height == height,
        frame::planes_view(pic.planes@) == planes_at(
            data@,
            at as int,
            width as int,
            height as int,
            chroma,
            wide,
        ),
        pic.planes@.len() == config::planes_of(chroma),
        forall|p: int| 0 <= p < pic.planes@.len() ==> (#[trigger] pic.planes@[p])@.wf(),
{
    let have: usize = data.len();
    let ghost (cw, ch) = frame::picture_plane_size(width as int, height as int, chroma, 1);
    proof {
        lemma_plane_counts(width as int, height as int, chroma);
        assert(width * height >= 0) by (nonlinear_arith)
            requires
                width >= 0,
                height >= 0,
        ;
    }
    let pic = Picture::new(width, height, chroma);
    let step: usize = if wide {
        2
    } else {
        1
    };
    let n: usize = width * height;
    let first = read_plane(data, at, width, height, wide);
    let mut planes: Vec<Plane> = Vec::new();
    planes.push(first);
    if pic.planes.len() == 3 {
        let chroma_width: usize = pic.planes[1].width;
        let chroma_height: usize = pic.planes[1].height;
        assert(pic.planes@[1]@.width == cw && pic.planes@[1]@.height == ch);
        assert(chroma_width * chroma_height == cw * ch);
        let m: usize = chroma_width * chroma_height;
        proof {
            let total = samples_before(width as int, height as int, chroma, 3);
            assert(total == n + 2 * m);
            if wide {
                assert(at + 2 * n + 4 * m <= have);
            } else {
                assert(at + n + 2 * m <= have);
            }
            assert(chroma_width * chroma_height * unit(wide) == m * unit(wide));
            assert(n * step == n * unit(wide) && (n + m) * step == n * unit(wide) + m * unit(wide));
        }
        let second = read_plane(data, at + n * step, chroma_width, chroma_height, wide);
        let third = read_plane(data, at + (n + m) * step, chroma_width, chroma_height, wide);
        planes.push(second);
        planes.push(third);
    }
    let out = Picture { width, height, planes };
    assert(frame::planes_view(out.planes@) =~= planes_at(
        data@,
        at as int,
        width as int,
        height as int,
        chroma,
        wide,
    ));
    out
}

/// The plane whose bytes are missing first in a frame that is too short.
pub open spec fn short_plane(len: int, width: int, height: int, wide: bool, p: int) -> int
    decreases 3 - p,
{
    if p >= 2 || samples_before(width, height, ChromaFormat::C420, p + 1) * unit(wide) > len {
        p
    } else {
        short_plane(len, width, height, wide, p + 1)
    }
}

/// The message for a frame that is too short.
pub open spec fn short_text(need: nat, have: nat) -> Seq<char> {
    "input too short: need "@ + text::decimal(need) + " bytes, have "@ + text::decimal(have)
}

/// The planes of a yuv420p frame, or the message about it.
pub open spec fn yuv420_frame(d: Seq<u8>, width: int, height: int, depth: u8) -> Result<
    Seq<Raster<u16>>,
    Seq<char>,
> {
    let wide = depth == 10;
    if depth != 8 && depth != 10 {
        Err("unsupported bit depth "@ + text::decimal(depth as nat))
    } else if picture_bytes_len(width, height, ChromaFormat::C420, wide) > d.len() {
        let p = short_plane(d.len() as int, width, height, wide, 0);
        Err(
            short_text(
                (samples_before(width, height, ChromaFormat::C420, p + 1) * unit(wide)) as nat,
                d.len(),
            ),
        )
    } else {
        Ok(planes_at(d, 0, width, height, ChromaFormat::C420, wide))
    }
}

fn short_message(need: u128, have: usize) -> (s: String)
    ensures
        s@ == short_text(need as nat, have as nat),
{
    let mut s = "input too short: need ".to_string();
    text::push_wide(&mut s, need);
    s.append(" bytes, have ");
    text::push_decimal(&mut s, have as u64);
    s
}

/// Read one yuv420p frame of the given depth (8 or 10) from a byte slice.
/// For 10-bit input the samples are little-endian 16-bit values.
pub fn read_yuv420_frame(data: &[u8], width: usize, height: usize, depth: u8) -> (r: Result<
    Picture,
    String,
>)
    requires
        countable(width as int, height as int),
    ensures
        match r {
            Ok(pic) => {
                &&& pic.width == width
                &&& pic.height == height
                &&& yuv420_frame(data@, width as int, height as int, depth) == Ok::<
                    Seq<Raster<u16>>,
                    Seq<char>,
                >(frame::planes_view(pic.planes@))
                &&& forall|p: int| 0 <= p < pic.planes@.len() ==> (#[trigger] pic.planes@[p])@.wf()
            },
            Err(e) => yuv420_frame(data@, width as int, height as int, depth) == Err::<
                Seq<Raster<u16>>,
                Seq<char>,
            >(e@),
        },
{
    if depth != 8 && depth != 10 {
        let mut s = "unsupported bit depth ".to_string();
        text::push_decimal(&mut s, depth as u64);
        return Err(s);
    }
    let wide: bool = depth == 10;
    let step: u128 = if wide {
        2
    } else {
        1
    };
    proof {
        lemma_plane_counts(width as int, height as int, ChromaFormat::C420);
        reveal_with_fuel(short_plane, 3);
        assert(width * height >= 0) by (nonlinear_arith)
            requires
                width >= 0,
                height >= 0,
        ;
    }
    let n: u128 = (width * height) as u128;
    let chroma_width: usize = width / 2 + width % 2;
    let chroma_height: usize = height / 2 + height % 2;
    let m: u128 = (chroma_width * chroma_height) as u128;
    let have: usize = data.len();
    if n * step > have as u128 {
        return Err(short_message(n * step, have));
    }
    if (n + m) * step > have as u128 {
        return Err(short_message((n + m) * step, have));
    }
    if (n + 2 * m) * step > have as u128 {
        return Err(short_message((n + 2 * m) * step, have));
    }
    Ok(read_picture(data, 0, width, height, ChromaFormat::C420, wide))
}

/// Whether the samples of a plane can be counted.
pub fn size_countable(width: usize, height: usize) -> (r: bool)
    ensures
        r == countable(width as int, height as int),
{
    width.checked_mul(height).is_some()
}

/// The bytes of one frame in a stream: chroma has half the width and half the height, rounded
/// down.
pub open spec fn frame_len(width: int, height: int, depth: u8) -> int {
    (width * height + 2 * ((width / 2) * (height / 2))) * (if depth == 10 {
        2int
    } else {
        1
    })
}

/// The bytes of one frame in a stream, as a number that always fits.
pub(crate) fn frame_need(width: usize, height: usize, depth: u8) -> (n: u128)
    requires
        countable(width as int, height as int),
    ensures
        n == frame_len(width as int, height as int, depth),
{
    let half_width: usize = width / 2;
    let half_height: usize = height / 2;
    proof {
        assert(0 <= half_width * half_height <= width * height) by (nonlinear_arith)
            requires
                0 <= half_width <= width,
                0 <= half_height <= height,
        ;
    }
    let samples: u128 = (width * height) as u128 + 2 * (half_width * half_height) as u128;
    if depth == 10 {
        samples * 2
    } else {
        samples
    }
}

/// How many bytes to read for one frame; none where they are more than can be counted.
pub fn frame_bytes(width: usize, height: usize, depth: u8) -> (r: Option<usize>)
    ensures
        match r {
            Some(n) => n == frame_len(width as int, height as int, depth),
            None => frame_len(width as int, height as int, depth) > usize::MAX,
        },
{
    if !size_countable(width, height) {
        proof {
            let half_width = width as int / 2;
            let half_height = height as int / 2;
            assert(half_width * half_height >= 0) by (nonlinear_arith)
                requires
                    half_width >= 0,
                    half_height >= 0,
            ;
        }
        return None;
    }
    let need: u128 = frame_need(width, height, depth);
    if need <= usize::MAX as u128 {
        Some(need as usize)
    } else {
        None
    }
}

/// The next frame of a stream: none where no byte is left, and a message where some are missing.
pub open spec fn stream_frame(d: Seq<u8>, width: int, height: int, depth: u8) -> Result<
    Option<Seq<Raster<u16>>>,
    Seq<char>,
> {
    if d.len() == 0 {
        Ok(None)
    } else if d.len() < frame_len(width, height, depth) {
        Err(
            "truncated frame: got "@ + text::decimal(d.len()) + " bytes, need "@ + text::decimal(
                frame_len(width, height, depth) as nat,
            ),
        )
    } else {
        match yuv420_frame(d, width, height, depth) {
            Ok(planes) => Ok(Some(planes)),
            Err(e) => Err(e),
        }
    }
}

/// The planes that a reader returned.
pub open spec fn returned(r: Result<Option<Picture>, String>) -> Result<
    Option<Seq<Raster<u16>>>,
    Seq<char>,
> {
    match r {
        Ok(Some(pic)) => Ok(Some(frame::planes_view(pic.planes@))),
        Ok(None) => Ok(None),
        Err(e) => Err(e@),
    }
}

/// Read a raw yuv420p frame from what was left of a file: at most `frame_bytes` bytes.
pub fn read_yuv420_frame_file(bytes: &[u8], width: usize, height: usize, depth: u8) -> (r: Result<
    Option<Picture>,
    String,
>)
    requires
        countable(width as int, height as int),
    ensures
        returned(r) == stream_frame(bytes@, width as int, height as int, depth),
        r matches Ok(Some(pic)) ==> pic.width == width && pic.height == height && forall|p: int|
            0 <= p < pic.planes@.len() ==> (#[trigger] pic.planes@[p])@.wf(),
{
    let need: u128 = frame_need(width, height, depth);
    if bytes.len() == 0 {
        return Ok(None);
    }
    if (bytes.len() as u128) < need {
        let mut s = "truncated frame: got ".to_string();
        text::push_decimal(&mut s, bytes.len() as u64);
        s.append(" bytes, need ");
        text::push_wide(&mut s, need);
        return Err(s);
    }
    match read_yuv420_frame(bytes, width, height, depth) {
        Ok(pic) => Ok(Some(pic)),
        Err(e) => Err(e),
    }
}

/// Append the bytes of samples.
pub(crate) fn push_samples(out: &mut Vec<u8>, v: &Vec<u16>, wide: bool)
    ensures
        final(out)@ == old(out)@ + sample_bytes(v@, wide),
{
    let ghost before = out@;
    let mut i: usize = 0;
    assert(out@ =~= before + sample_bytes(v@.subrange(0, 0), wide));
    while i < v.len()
        invariant
            i <= v@.len(),
            out@ == before + sample_bytes(v@.subrange(0, i as int), wide),
        decreases v@.len() - i,
    {
        let x: u16 = v[i];
        out.push((x % 256) as u8);
        if wide {
            out.push((x / 256) as u8);
        }
        i = i + 1;
        assert(out@ =~= before + sample_bytes(v@.subrange(0, i as int), wide));
    }
    assert(v@.subrange(0, i as int) =~= v@);
}

/// Write one frame of a YUV420p picture (luma then chroma planes): its bytes are appended.
/// 10-bit pictures are written as little-endian 16-bit samples.
pub fn write_yuv420(frame: &Picture, depth: u8, out: &mut Vec<u8>) -> (r: Result<(), String>)
    ensures
        match r {
            Ok(_) => (depth == 8 || depth == 10) && final(out)@ == old(out)@ + planes_bytes(
                frame::planes_view(frame.planes@),
                0,
                depth == 10,
            ),
            Err(e) => depth != 8 && depth != 10 && e@ == "unsupported depth"@ && final(out)@ == old(
                out,
            )@,
        },
{
    if depth != 8 && depth != 10 {
        return Err("unsupported depth".to_string());
    }
    let wide: bool = depth == 10;
    let ghost planes = frame::planes_view(frame.planes@);
    let ghost total = out@ + planes_bytes(planes, 0, wide);
    let mut k: usize = 0;
    while k < frame.planes.len()
        invariant
            k <= frame.planes@.len(),
            planes == frame::planes_view(frame.planes@),
            out@ + planes_bytes(planes, k as int, wide) == total,
        decreases frame.planes@.len() - k,
    {
        let ghost before = out@;
        push_samples(out, &frame.planes[k].data, wide);
        k = k + 1;
        assert(out@ + planes_bytes(planes, k as int, wide) =~= before + (sample_bytes(
            planes[k - 1].data,
            wide,
        ) + planes_bytes(planes, k as int, wide)));
    }
    assert(out@ =~= total);
    Ok(())
}

/// Whether planes are those of a picture, with samples that the depth can hold.
pub open spec fn writable(
    planes: Seq<Raster<u16>>,
    width: int,
    height: int,
    chroma: ChromaFormat,
    wide: bool,
) -> bool {
    &&& planes.len() == config::planes_of(chroma)
    &&& forall|p: int|
        0 <= p < planes.len() ==> {
            let (w, h) = frame::picture_plane_size(width, height, chroma, p);
            (#[trigger] planes[p]).width == w && planes[p].height == h && planes[p].wf()
        }
    &&& !wide ==> forall|p: int, i: int|
        0 <= p < planes.len() && 0 <= i < planes[p].data.len() ==> #[trigger] planes[p].data[i]
            < 256
}

proof fn lemma_sample_back(v: Seq<u16>, wide: bool, d: Seq<u8>, at: int, i: int)
    requires
        0 <= at,
        0 <= i < v.len(),
        at + v.len() * unit(wide) <= d.len(),
        d.subrange(at, at + v.len() * unit(wide)) == sample_bytes(v, wide),
        !wide ==> v[i] < 256,
    ensures
        sample_at(d, at + i * unit(wide), wide) == v[i],
{
    let s = d.subrange(at, at + v.len() * unit(wide));
    if wide {
        assert(s[2 * i] == d[at + 2 * i]);
        assert(s[2 * i + 1] == d[at + 2 * i + 1]);
        assert((2 * i) / 2 == i && (2 * i) % 2 == 0 && (2 * i + 1) / 2 == i && (2 * i + 1) % 2 == 1);
    } else {
        assert(s[i] == d[at + i]);
    }
}

proof fn lemma_planes_back(
    planes: Seq<Raster<u16>>,
    width: int,
    height: int,
    chroma: ChromaFormat,
    wide: bool,
    k: int,
    d: Seq<u8>,
)
    requires
        0 <= width,
        0 <= height,
        writable(planes, width, height, chroma, wide),
        0 <= k <= planes.len(),
        d.len() >= samples_before(width, height, chroma, k) * unit(wide),
        samples_before(width, height, chroma, k) >= 0,
        d.subrange(samples_before(width, height, chroma, k) * unit(wide), d.len() as int)
            == planes_bytes(planes, k, wide),
    ensures
        d.len() == picture_bytes_len(width, height, chroma, wide),
        forall|p: int|
            k <= p < planes.len() ==> #[trigger] planes[p] == planes_at(
                d,
                0,
                width,
                height,
                chroma,
                wide,
            )[p],
    decreases planes.len() - k,
{
    lemma_plane_counts(width, height, chroma);
    let at = samples_before(width, height, chroma, k) * unit(wide);
    let rest = d.subrange(at, d.len() as int);
    if k < planes.len() {
        let v = planes[k].data;
        let head = sample_bytes(v, wide);
        let tail = planes_bytes(planes, k + 1, wide);
        assert(rest == head + tail);
        let next = samples_before(width, height, chroma, k + 1) * unit(wide);
        assert(planes[k].wf());
        assert(v.len() == samples_before(width, height, chroma, k + 1) - samples_before(
            width,
            height,
            chroma,
            k,
        ));
        assert(next == at + v.len() * unit(wide));
        assert(head.len() == v.len() * unit(wide));
        assert(d.subrange(at, next) =~= head) by {
            assert(rest.subrange(0, head.len() as int) =~= head);
            assert(d.subrange(at, next) =~= rest.subrange(0, head.len() as int));
        }
        assert(d.subrange(next, d.len() as int) =~= tail) by {
            assert(rest.subrange(head.len() as int, rest.len() as int) =~= tail);
            assert(d.subrange(next, d.len() as int) =~= rest.subrange(
                head.len() as int,
                rest.len() as int,
            ));
        }
        lemma_planes_back(planes, width, height, chroma, wide, k + 1, d);
        let got = planes_at(d, 0, width, height, chroma, wide)[k];
        assert forall|i: int| 0 <= i < v.len() implies got.data[i] == v[i] by {
            lemma_sample_back(v, wide, d, at, i);
        }
        assert(got.data =~= v);
        assert(got =~= planes[k]);
    } else {
        assert(rest.len() == 0);
    }
}

/// Reading gives back what writing wrote: a picture whose samples the depth can hold.
pub proof fn law_yuv_roundtrip(planes: Seq<Raster<u16>>, width: int, height: int, depth: u8)
    requires
        0 <= width,
        0 <= height,
        depth == 8 || depth == 10,
        writable(planes, width, height, ChromaFormat::C420, depth == 10),
    ensures
        yuv420_frame(planes_bytes(planes, 0, depth == 10), width, height, depth) == Ok::<
            Seq<Raster<u16>>,
            Seq<char>,
        >(planes),
{
    let wide = depth == 10;
    let d = planes_bytes(planes, 0, wide);
    assert(d.subrange(0, d.len() as int) =~= d);
    lemma_planes_back(planes, width, height, ChromaFormat::C420, wide, 0, d);
    let got = planes_at(d, 0, width, height, ChromaFormat::C420, wide);
    assert(got =~= planes) by {
        assert forall|p: int| 0 <= p < planes.len() implies got[p] == planes[p] by {
            assert(planes[p] == got[p]);
        }
    }
}

} // verus!
