//! Y4M (yuv4mpeg) streams: a header line, then frames behind `FRAME` markers.
use crate::frame;
use crate::frame::{Picture, Plane, Raster};
use crate::text;
use crate::yuv;
use vstd::prelude::*;

verus! {

/// White space between the fields of a header.
pub open spec fn is_space(c: char) -> bool {
    ||| '\u{9}' <= c && c <= '\u{d}'
    ||| c == ' '
    ||| c == '\u{85}'
    ||| c == '\u{a0}'
    ||| c == '\u{1680}'
    ||| '\u{2000}' <= c && c <= '\u{200a}'
    ||| c == '\u{2028}'
    ||| c == '\u{2029}'
    ||| c == '\u{202f}'
    ||| c == '\u{205f}'
    ||| c == '\u{3000}'
}

fn space(c: char) -> (r: bool)
    ensures
        r == is_space(c),
{
    ('\u{9}' <= c && c <= '\u{d}') || c == ' ' || c == '\u{85}' || c == '\u{a0}' || c == '\u{1680}'
        || ('\u{2000}' <= c && c <= '\u{200a}') || c == '\u{2028}' || c == '\u{2029}' || c
        == '\u{202f}' || c == '\u{205f}' || c == '\u{3000}'
}

/// Where the word ends that goes on at `i`.
pub open spec fn word_end(s: Seq<char>, i: int) -> int
    decreases s.len() - i,
{
    if i >= s.len() {
        s.len() as int
    } else if is_space(s[i]) {
        i
    } else {
        word_end(s, i + 1)
    }
}

pub proof fn lemma_word_end(s: Seq<char>, i: int)
    requires
        i <= s.len(),
    ensures
        i <= word_end(s, i) <= s.len(),
        i < s.len() && !is_space(s[i]) ==> i < word_end(s, i),
    decreases s.len() - i,
{
    if i < s.len() && !is_space(s[i]) {
        lemma_word_end(s, i + 1);
    }
}

/// The words of a line from `i` on.
pub open spec fn words(s: Seq<char>, i: int) -> Seq<Seq<char>>
    decreases s.len() - i,
{
    if i < 0 || i >= s.len() {
        Seq::empty()
    } else if is_space(s[i]) {
        words(s, i + 1)
    } else {
        proof {
            lemma_word_end(s, i);
        }
        seq![s.subrange(i, word_end(s, i))] + words(s, word_end(s, i))
    }
}

/// What the fields of a header say so far.
#[derive(Clone, Copy, Debug, PartialEq, Eq, Structural)]
pub struct Y4mFields {
    pub width: usize,
    pub height: usize,
    pub fps_num: u32,
    pub fps_den: u32,
    /// 4:2:0 with 10 bits per sample; else with 8.
    pub ten: bool,
}

/// Where a text has its first colon.
pub open spec fn colon(s: Seq<char>, i: int) -> Option<int>
    decreases s.len() - i,
{
    if i < 0 || i >= s.len() {
        None
    } else if s[i] == ':' {
        Some(i)
    } else {
        colon(s, i + 1)
    }
}

/// The frame rate of a header: two numbers with a colon between.
pub open spec fn rate_field(v: Seq<char>) -> Result<(u32, u32), Seq<char>> {
    match colon(v, 0) {
        None => Err("y4m: bad F"@),
        Some(c) => match (
            text::number_upto(v.subrange(0, c), u32::MAX as int),
            text::number_upto(v.subrange(c + 1, v.len() as int), u32::MAX as int),
        ) {
            (Some(a), Some(b)) => Ok((a as u32, b as u32)),
            _ => Err("y4m: bad F "@ + v),
        },
    }
}

/// The fields of a header after one more word.
pub open spec fn field_step(f: Y4mFields, word: Seq<char>) -> Result<Y4mFields, Seq<char>> {
    let v = word.subrange(1, word.len() as int);
    if word == "YUV4MPEG2"@ || word.len() == 0 {
        Ok(f)
    } else if word[0] == 'W' {
        match text::number_upto(v, usize::MAX as int) {
            Some(n) => Ok(Y4mFields { width: n as usize, ..f }),
            None => Err("y4m: bad W "@ + v),
        }
    } else if word[0] == 'H' {
        match text::number_upto(v, usize::MAX as int) {
            Some(n) => Ok(Y4mFields { height: n as usize, ..f }),
            None => Err("y4m: bad H "@ + v),
        }
    } else if word[0] == 'F' {
        match rate_field(v) {
            Ok((a, b)) => Ok(Y4mFields { fps_num: a, fps_den: b, ..f }),
            Err(e) => Err(e),
        }
    } else if word[0] == 'C' {
        if v == "420jpeg"@ || v == "420p8"@ || v == "420"@ {
            Ok(Y4mFields { ten: false, ..f })
        } else if v == "420p10"@ {
            Ok(Y4mFields { ten: true, ..f })
        } else {
            Err("y4m: unsupported colorspace "@ + v)
        }
    } else {
        Ok(f)
    }
}

/// The fields of a header after all words from `k` on.
pub open spec fn fields_after(f: Y4mFields, all: Seq<Seq<char>>, k: int) -> Result<
    Y4mFields,
    Seq<char>,
>
    decreases all.len() - k,
{
    if k < 0 || k >= all.len() {
        Ok(f)
    } else {
        match field_step(f, all[k]) {
            Ok(g) => fields_after(g, all, k + 1),
            Err(e) => Err(e),
        }
    }
}

/// No field yet.
pub open spec fn no_fields() -> Y4mFields {
    Y4mFields { width: 0, height: 0, fps_num: 0, fps_den: 0, ten: false }
}

/// What a header line says, or the message about it.
pub open spec fn header(line: Seq<char>, depth: u8) -> Result<Y4mFields, Seq<char>> {
    match fields_after(no_fields(), words(line, 0), 0) {
        Err(e) => Err(e),
        Ok(f) => if f.width == 0 || f.height == 0 || f.fps_num == 0 {
            Err("y4m: incomplete header: "@ + line)
        } else if depth != 8 && depth != 10 {
            Err("unsupported encode depth "@ + text::decimal(depth as nat))
        } else {
            Ok(
                Y4mFields {
                    fps_den: if f.fps_den == 0 {
                        1
                    } else {
                        f.fps_den
                    },
                    ..f
                },
            )
        },
    }
}

/// A prefix and a text.
fn message(prefix: &str, v: &str) -> (s: String)
    ensures
        s@ == prefix@ + v@,
{
    let mut s = prefix.to_string();
    s.append(v);
    s
}

fn read_rate(v: &str) -> (r: Result<(u32, u32), String>)
    ensures
        match r {
            Ok(rate) => rate_field(v@) == Ok::<(u32, u32), Seq<char>>(rate),
            Err(e) => rate_field(v@) == Err::<(u32, u32), Seq<char>>(e@),
        },
{
    let n: usize = v.unicode_len();
    let mut c: usize = 0;
    while c < n && v.get_char(c) != ':'
        invariant
            c <= n == v@.len(),
            colon(v@, c as int) == colon(v@, 0),
        decreases n - c,
    {
        c = c + 1;
    }
    if c == n {
        return Err("y4m: bad F".to_string());
    }
    let a = text::parse_number(v.substring_char(0, c), u32::MAX as u64);
    let b = text::parse_number(v.substring_char(c + 1, n), u32::MAX as u64);
    match (a, b) {
        (Some(x), Some(y)) => Ok((x as u32, y as u32)),
        _ => Err(message("y4m: bad F ", v)),
    }
}

fn take_field(f: Y4mFields, word: &str) -> (r: Result<Y4mFields, String>)
    ensures
        match r {
            Ok(g) => field_step(f, word@) == Ok::<Y4mFields, Seq<char>>(g),
            Err(e) => field_step(f, word@) == Err::<Y4mFields, Seq<char>>(e@),
        },
{
    let n: usize = word.unicode_len();
    if text::same(word, "YUV4MPEG2") || n == 0 {
        return Ok(f);
    }
    let first: char = word.get_char(0);
    let v = word.substring_char(1, n);
    if first == 'W' {
        match text::parse_number(v, usize::MAX as u64) {
            Some(x) => Ok(Y4mFields { width: x as usize, ..f }),
            None => Err(message("y4m: bad W ", v)),
        }
    } else if first == 'H' {
        match text::parse_number(v, usize::MAX as u64) {
            Some(x) => Ok(Y4mFields { height: x as usize, ..f }),
            None => Err(message("y4m: bad H ", v)),
        }
    } else if first == 'F' {
        match read_rate(v) {
            Ok(rate) => Ok(Y4mFields { fps_num: rate.0, fps_den: rate.1, ..f }),
            Err(e) => Err(e),
        }
    } else if first == 'C' {
        if text::same(v, "420jpeg") || text::same(v, "420p8") || text::same(v, "420") {
            Ok(Y4mFields { ten: false, ..f })
        } else if text::same(v, "420p10") {
            Ok(Y4mFields { ten: true, ..f })
        } else {
            Err(message("y4m: unsupported colorspace ", v))
        }
    } else {
        Ok(f)
    }
}

fn read_fields(line: &str) -> (r: Result<Y4mFields, String>)
    ensures
        match r {
            Ok(g) => fields_after(no_fields(), words(line@, 0), 0) == Ok::<Y4mFields, Seq<char>>(g),
            Err(e) => fields_after(no_fields(), words(line@, 0), 0) == Err::<Y4mFields, Seq<char>>(
                e@,
            ),
        },
{
    let n: usize = line.unicode_len();
    let ghost all = words(line@, 0);
    let ghost mut k: int = 0;
    let mut f = Y4mFields { width: 0, height: 0, fps_num: 0, fps_den: 0, ten: false };
    let mut i: usize = 0;
    assert(all.subrange(0, all.len() as int) =~= all);
    while i < n
        invariant
            i <= n == line@.len(),
            all == words(line@, 0),
            0 <= k <= all.len(),
            words(line@, i as int) == all.subrange(k, all.len() as int),
            fields_after(f, all, k) == fields_after(no_fields(), all, 0),
        decreases n - i,
    {
        if space(line.get_char(i)) {
            i = i + 1;
        } else {
            let start: usize = i;
            let mut end: usize = i;
            while end < n && !space(line.get_char(end))
                invariant
                    start <= end <= n == line@.len(),
                    word_end(line@, end as int) == word_end(line@, start as int),
                decreases n - end,
            {
                end = end + 1;
            }
            let word = line.substring_char(start, end);
            proof {
                lemma_word_end(line@, start as int);
                assert(end == word_end(line@, start as int));
                let rest = all.subrange(k, all.len() as int);
                assert(rest == seq![word@] + words(line@, end as int));
                assert(all[k] == rest[0]);
                assert(rest[0] == word@);
                assert(words(line@, end as int) =~= all.subrange(k + 1, all.len() as int)) by {
                    assert(words(line@, end as int) =~= rest.subrange(1, rest.len() as int));
                }
            }
            match take_field(f, word) {
                Ok(g) => {
                    f = g;
                },
                Err(e) => {
                    return Err(e);
                },
            }
            proof {
                k = k + 1;
            }
            i = end;
        }
    }
    proof {
        assert(words(line@, i as int).len() == 0);
        assert(k == all.len());
    }
    Ok(f)
}

/// How far the search for the end of the header has come.
pub open spec fn newline(head: Seq<u8>, i: int) -> Option<int>
    decreases head.len() - i,
{
    if i < 0 || i >= head.len() {
        None
    } else if head[i] == 10 {
        Some(i)
    } else {
        newline(head, i + 1)
    }
}

/// Where the header line ends in the bytes that were read so far: nowhere yet, if more are
/// needed. No line is longer than 64 KiB, and none ends with the stream.
pub fn header_end(head: &[u8], at_end: bool) -> (r: Result<Option<usize>, String>)
    ensures
        match r {
            Ok(end) => !at_end && head@.len() <= 65536 && (match end {
                Some(p) => Some(p as int),
                None => None,
            }) == newline(head@, 0),
            Err(e) => if at_end {
                e@ == "y4m: unexpected EOF in header"@
            } else {
                head@.len() > 65536 && e@ == "y4m: header too long"@
            },
        },
{
    if at_end {
        return Err("y4m: unexpected EOF in header".to_string());
    }
    if head.len() > 65536 {
        return Err("y4m: header too long".to_string());
    }
    let mut i: usize = 0;
    while i < head.len()
        invariant
            i <= head@.len() <= 65536,
            !at_end,
            newline(head@, i as int) == newline(head@, 0),
        decreases head@.len() - i,
    {
        if head[i] == 10 {
            return Ok(Some(i));
        }
        i = i + 1;
    }
    Ok(None)
}

/// The bytes of a frame marker.
pub const FRAME_MARKER: [u8; 6] = [0x46, 0x52, 0x41, 0x4d, 0x45, 0x0a];

/// Whether six bytes are a frame marker ("FRAME" and the end of the line). Bytes that are none
/// belong to the frame.
pub fn frame_marker(bytes: &[u8]) -> (r: bool)
    ensures
        r == (bytes@ == FRAME_MARKER@),
{
    let marker: [u8; 6] = FRAME_MARKER;
    if bytes.len() != 6 {
        return false;
    }
    let r: bool = bytes[0] == marker[0] && bytes[1] == marker[1] && bytes[2] == marker[2]
        && bytes[3] == marker[3] && bytes[4] == marker[4] && bytes[5] == marker[5];
    proof {
        if r {
            assert(bytes@ =~= FRAME_MARKER@);
        }
    }
    r
}

/// The magic of a Y4M stream.
pub const Y4M_MAGIC: [u8; 9] = [0x59, 0x55, 0x56, 0x34, 0x4d, 0x50, 0x45, 0x47, 0x32];

/// Whether a stream starts with the magic of Y4M.
pub fn starts_with_magic(bytes: &[u8]) -> (r: bool)
    ensures
        r == (bytes@.len() >= 9 && bytes@.subrange(0, 9) == Y4M_MAGIC@),
{
    let magic: [u8; 9] = Y4M_MAGIC;
    if bytes.len() < 9 {
        return false;
    }
    let mut i: usize = 0;
    while i < 9
        invariant
            i <= 9 <= bytes@.len(),
            magic@ == Y4M_MAGIC@,
            forall|j: int| 0 <= j < i ==> bytes@[j] == magic@[j],
        decreases 9 - i,
    {
        if bytes[i] != magic[i] {
            assert(bytes@.subrange(0, 9)[i as int] != Y4M_MAGIC@[i as int]);
            return false;
        }
        i = i + 1;
    }
    assert(bytes@.subrange(0, 9) =~= Y4M_MAGIC@);
    true
}

/// Streaming Y4M (yuv4mpeg) input reader.
///
/// Takes the `YUV4MPEG2` header (parsing W/H/F/C) and then yields one picture per frame.
/// `C420p10` and `C420jpeg`/`C420p8` headers are accepted; 10-bit input at encode depth 8 is
/// right-shifted to 8 bits.
#[derive(Clone, Copy, Debug)]
pub struct Y4mReader {
    pub width: usize,
    pub height: usize,
    pub fps_num: u32,
    pub fps_den: u32,
    pub input_depth: u8,
    pub depth: u8,
    pub eof: bool,
}

/// The planes with two bits less per sample.
pub open spec fn shifted(planes: Seq<Raster<u16>>) -> Seq<Raster<u16>> {
    Seq::new(
        planes.len(),
        |p: int|
            Raster {
                width: planes[p].width,
                height: planes[p].height,
                data: Seq::new(planes[p].data.len(), |i: int| (planes[p].data[i] / 4) as u16),
            },
    )
}

/// What the reader returns for the bytes of the next frame.
pub open spec fn read_next(r: Y4mReader, bytes: Seq<u8>) -> Result<
    Option<Seq<Raster<u16>>>,
    Seq<char>,
> {
    if r.eof {
        Ok(None)
    } else {
        match yuv::stream_frame(bytes, r.width as int, r.height as int, r.input_depth) {
            Ok(Some(planes)) => Ok(
                Some(
                    if r.depth == r.input_depth {
                        planes
                    } else {
                        shifted(planes)
                    },
                ),
            ),
            other => other,
        }
    }
}

fn shift_planes(planes: &Vec<Plane>) -> (out: Vec<Plane>)
    ensures
        frame::planes_view(out@) == shifted(frame::planes_view(planes@)),
        out@.len() == planes@.len(),
{
    let ghost all = shifted(frame::planes_view(planes@));
    let mut out: Vec<Plane> = Vec::new();
    let mut p: usize = 0;
    while p < planes.len()
        invariant
            p <= planes@.len(),
            all == shifted(frame::planes_view(planes@)),
            out@.len() == p,
            forall|i: int| 0 <= i < p ==> #[trigger] out@[i]@ == all[i],
        decreases planes@.len() - p,
    {
        let source = &planes[p];
        let mut data: Vec<u16> = Vec::new();
        let mut i: usize = 0;
        while i < source.data.len()
            invariant
                i <= source.data@.len(),
                data@ == Seq::new(i as nat, |j: int| (source.data@[j] / 4) as u16),
            decreases source.data@.len() - i,
        {
            data.push(source.data[i] / 4);
            i = i + 1;
            assert(data@ =~= Seq::new(i as nat, |j: int| (source.data@[j] / 4) as u16));
        }
        let plane = Plane { width: source.width, height: source.height, data };
        assert(plane@ =~= all[p as int]);
        out.push(plane);
        p = p + 1;
    }
    assert(frame::planes_view(out@) =~= all);
    out
}

impl Y4mReader {
    /// Read the Y4M header: the line without its end.
    pub fn new(line: &str, depth: u8) -> (r: Result<Self, String>)
        ensures
            match r {
                Ok(y) => {
                    &&& header(line@, depth) matches Ok(f)
                    &&& y.width == f.width
                    &&& y.height == f.height
                    &&& y.fps_num == f.fps_num
                    &&& y.fps_den == f.fps_den
                    &&& y.input_depth == (if f.ten {
                        10u8
                    } else {
                        8u8
                    })
                    &&& y.depth == depth
                    &&& !y.eof
                },
                Err(e) => header(line@, depth) == Err::<Y4mFields, Seq<char>>(e@),
            },
    {
        let f = match read_fields(line) {
            Ok(f) => f,
            Err(e) => {
                return Err(e);
            },
        };
        if f.width == 0 || f.height == 0 || f.fps_num == 0 {
            return Err(message("y4m: incomplete header: ", line));
        }
        if depth != 8 && depth != 10 {
            let mut s = "unsupported encode depth ".to_string();
            text::push_decimal(&mut s, depth as u64);
            return Err(s);
        }
        Ok(
            Y4mReader {
                width: f.width,
                height: f.height,
                fps_num: f.fps_num,
                fps_den: if f.fps_den == 0 {
                    1
                } else {
                    f.fps_den
                },
                input_depth: if f.ten {
                    10
                } else {
                    8
                },
                depth,
                eof: false,
            },
        )
    }

    /// Read the next frame from the bytes behind its marker (at most as many as a frame has),
    /// or `None` at EOF.
    pub fn next_frame(&mut self, bytes: &[u8]) -> (r: Result<Option<Picture>, String>)
        requires
            yuv::countable(old(self).width as int, old(self).height as int),
        ensures
            yuv::returned(r) == read_next(*old(self), bytes@),
            r matches Ok(Some(pic)) ==> pic.width == old(self).width && pic.height == old(self).height,
            *final(self) == (Y4mReader { eof: old(self).eof || bytes@.len() == 0, ..*old(self) }),
    {
        if self.eof {
            return Ok(None);
        }
        let pic = match yuv::read_yuv420_frame_file(
            bytes,
            self.width,
            self.height,
            self.input_depth,
        ) {
            Ok(Some(pic)) => pic,
            Ok(None) => {
                self.eof = true;
                return Ok(None);
            },
            Err(e) => {
                return Err(e);
            },
        };
        if self.depth == self.input_depth {
            Ok(Some(pic))
        } else {
            // Downconvert 10 -> 8 (no upconversion path).
            let planes = shift_planes(&pic.planes);
            Ok(Some(Picture { width: pic.width, height: pic.height, planes }))
        }
    }
}

} // verus!
