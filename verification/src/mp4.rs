//! Minimal MP4 muxer for the LCEVC dual-track file (VVC base + LCEVC enhancement track with an
//! `sbas` track reference), in the layout that demuxers with LCEVC stream-group support expect.
//!
//! The VVC samples are stored Annex-B (start codes; the parameter sets are in-band in every
//! access unit) and both tracks carry a `vvcC`/`lvcC` box without extradata.
use crate::annexb;
use crate::config::ColourInfo;
use vstd::prelude::*;

pub use crate::annexb::{split_aus, split_lcevc_nals, split_nals, strip_start_code};

verus! {

/// Four bytes, big-endian, of the low 32 bits of a number.
pub open spec fn be32(v: int) -> Seq<u8> {
    seq![
        (v / 0x100_0000 % 256) as u8,
        (v / 0x1_0000 % 256) as u8,
        (v / 0x100 % 256) as u8,
        (v % 256) as u8,
    ]
}

/// Two bytes, big-endian.
pub open spec fn be16(v: int) -> Seq<u8> {
    seq![(v / 0x100 % 256) as u8, (v % 256) as u8]
}

/// `n` zero bytes.
pub open spec fn zeros(n: int) -> Seq<u8> {
    Seq::new(n as nat, |i: int| 0u8)
}

/// A box: its size, its four-character code and its payload.
pub open spec fn boxed(code: Seq<u8>, payload: Seq<u8>) -> Seq<u8> {
    be32(payload.len() as int + 8) + code + payload
}

/// Four-character codes.
pub const FTYP: [u8; 4] = [0x66, 0x74, 0x79, 0x70];

pub const FREE: [u8; 4] = [0x66, 0x72, 0x65, 0x65];

pub const MDAT: [u8; 4] = [0x6d, 0x64, 0x61, 0x74];

pub const MOOV: [u8; 4] = [0x6d, 0x6f, 0x6f, 0x76];

pub const MVHD: [u8; 4] = [0x6d, 0x76, 0x68, 0x64];

pub const TRAK: [u8; 4] = [0x74, 0x72, 0x61, 0x6b];

pub const TKHD: [u8; 4] = [0x74, 0x6b, 0x68, 0x64];

pub const EDTS: [u8; 4] = [0x65, 0x64, 0x74, 0x73];

pub const ELST: [u8; 4] = [0x65, 0x6c, 0x73, 0x74];

pub const TREF: [u8; 4] = [0x74, 0x72, 0x65, 0x66];

pub const SBAS: [u8; 4] = [0x73, 0x62, 0x61, 0x73];

pub const MDIA: [u8; 4] = [0x6d, 0x64, 0x69, 0x61];

pub const MDHD: [u8; 4] = [0x6d, 0x64, 0x68, 0x64];

pub const HDLR: [u8; 4] = [0x68, 0x64, 0x6c, 0x72];

pub const VIDE: [u8; 4] = [0x76, 0x69, 0x64, 0x65];

pub const MINF: [u8; 4] = [0x6d, 0x69, 0x6e, 0x66];

pub const VMHD: [u8; 4] = [0x76, 0x6d, 0x68, 0x64];

pub const DINF: [u8; 4] = [0x64, 0x69, 0x6e, 0x66];

pub const DREF: [u8; 4] = [0x64, 0x72, 0x65, 0x66];

pub const URL: [u8; 4] = [0x75, 0x72, 0x6c, 0x20];

pub const STBL: [u8; 4] = [0x73, 0x74, 0x62, 0x6c];

pub const STSD: [u8; 4] = [0x73, 0x74, 0x73, 0x64];

pub const STTS: [u8; 4] = [0x73, 0x74, 0x74, 0x73];

pub const STSC: [u8; 4] = [0x73, 0x74, 0x73, 0x63];

pub const STSZ: [u8; 4] = [0x73, 0x74, 0x73, 0x7a];

pub const STCO: [u8; 4] = [0x73, 0x74, 0x63, 0x6f];

pub const VVC1: [u8; 4] = [0x76, 0x76, 0x63, 0x31];

pub const VVCC: [u8; 4] = [0x76, 0x76, 0x63, 0x43];

pub const LVC1: [u8; 4] = [0x6c, 0x76, 0x63, 0x31];

pub const LVCC: [u8; 4] = [0x6c, 0x76, 0x63, 0x43];

pub const COLR: [u8; 4] = [0x63, 0x6f, 0x6c, 0x72];

pub const NCLX: [u8; 4] = [0x6e, 0x63, 0x6c, 0x78];

pub const BTRT: [u8; 4] = [0x62, 0x74, 0x72, 0x74];

pub const ISOM: [u8; 4] = [0x69, 0x73, 0x6f, 0x6d];

pub const ISO2: [u8; 4] = [0x69, 0x73, 0x6f, 0x32];

pub const MP41: [u8; 4] = [0x6d, 0x70, 0x34, 0x31];

/// "VideoHandler", padded with zeros to 17 bytes.
pub const VIDEO_HANDLER: [u8; 17] = [
    0x56,
    0x69,
    0x64,
    0x65,
    0x6f,
    0x48,
    0x61,
    0x6e,
    0x64,
    0x6c,
    0x65,
    0x72,
    0,
    0,
    0,
    0,
    0,
];

fn push4(out: &mut Vec<u8>, code: &[u8; 4])
    ensures
        final(out)@ == old(out)@ + code@,
{
    let ghost before = out@;
    out.push(code[0]);
    out.push(code[1]);
    out.push(code[2]);
    out.push(code[3]);
    assert(out@ =~= before + code@);
}

fn u32_be(out: &mut Vec<u8>, v: u32)
    ensures
        final(out)@ == old(out)@ + be32(v as int),
{
    let ghost before = out@;
    out.push((v / 0x100_0000 % 256) as u8);
    out.push((v / 0x1_0000 % 256) as u8);
    out.push((v / 0x100 % 256) as u8);
    out.push((v % 256) as u8);
    assert(out@ =~= before + be32(v as int));
}

fn u16_be(out: &mut Vec<u8>, v: u16)
    ensures
        final(out)@ == old(out)@ + be16(v as int),
{
    let ghost before = out@;
    out.push((v / 0x100 % 256) as u8);
    out.push((v % 256) as u8);
    assert(out@ =~= before + be16(v as int));
}

fn push_zeros(out: &mut Vec<u8>, n: usize)
    ensures
        final(out)@ == old(out)@ + zeros(n as int),
{
    let ghost before = out@;
    let mut i: usize = 0;
    assert(out@ =~= before + zeros(0));
    while i < n
        invariant
            i <= n,
            out@ == before + zeros(i as int),
        decreases n - i,
    {
        out.push(0);
        i = i + 1;
        assert(out@ =~= before + zeros(i as int));
    }
}

fn push_all(out: &mut Vec<u8>, v: &[u8])
    ensures
        final(out)@ == old(out)@ + v@,
{
    let ghost before = out@;
    let mut i: usize = 0;
    assert(out@ =~= before + v@.subrange(0, 0));
    while i < v.len()
        invariant
            i <= v@.len(),
            out@ == before + v@.subrange(0, i as int),
        decreases v@.len() - i,
    {
        out.push(v[i]);
        i = i + 1;
        assert(out@ =~= before + v@.subrange(0, i as int));
    }
    assert(v@.subrange(0, i as int) =~= v@);
}

/// A box of a payload.
fn box_be(code: &[u8; 4], payload: &Vec<u8>) -> (out: Vec<u8>)
    ensures
        out@ == boxed(code@, payload@),
{
    let mut out: Vec<u8> = Vec::new();
    let size: u128 = payload.len() as u128 + 8;
    out.push((size / 0x100_0000 % 256) as u8);
    out.push((size / 0x1_0000 % 256) as u8);
    out.push((size / 0x100 % 256) as u8);
    out.push((size % 256) as u8);
    assert(out@ =~= be32(payload@.len() as int + 8));
    push4(&mut out, code);
    push_all(&mut out, payload.as_slice());
    out
}

/// Append a box of a payload.
fn push_box(out: &mut Vec<u8>, code: &[u8; 4], payload: &Vec<u8>)
    ensures
        final(out)@ == old(out)@ + boxed(code@, payload@),
{
    let b = box_be(code, payload);
    push_all(out, b.as_slice());
}

/// The movie header.
pub open spec fn mvhd(duration: int, next_track_id: int) -> Seq<u8> {
    let s = Seq::<u8>::empty();
    let s = s + zeros(4);
    let s = s + zeros(8);
    let s = s + be32(1000);
    let s = s + be32(duration);
    let s = s + be32(0x1_0000);
    let s = s + be16(0x0100);
    let s = s + zeros(2);
    let s = s + zeros(8);
    let s = s + be32(0x1_0000);
    let s = s + zeros(8);
    let s = s + be32(0x1_0000);
    let s = s + zeros(12);
    let s = s + be32(0x4000_0000);
    let s = s + zeros(4);
    let s = s + zeros(24);
    let s = s + be32(next_track_id);
    boxed(MVHD@, s)
}

fn mvhd_box(duration_ticks: u32, next_track_id: u32) -> (out: Vec<u8>)
    ensures
        out@ == mvhd(duration_ticks as int, next_track_id as int),
{
    let mut p: Vec<u8> = Vec::new();
    // version + flags
    push_zeros(&mut p, 4);
    // creation + modification
    push_zeros(&mut p, 8);
    // timescale
    u32_be(&mut p, 1000);
    u32_be(&mut p, duration_ticks);
    // rate 1.0
    u32_be(&mut p, 0x1_0000);
    // volume
    u16_be(&mut p, 0x0100);
    // reserved
    push_zeros(&mut p, 2);
    push_zeros(&mut p, 8);
    // matrix
    u32_be(&mut p, 0x1_0000);
    push_zeros(&mut p, 8);
    u32_be(&mut p, 0x1_0000);
    push_zeros(&mut p, 12);
    u32_be(&mut p, 0x4000_0000);
    // matrix (9th entry)
    push_zeros(&mut p, 4);
    // pre_defined
    push_zeros(&mut p, 24);
    u32_be(&mut p, next_track_id);
    box_be(&MVHD, &p)
}

/// A track header.
pub open spec fn tkhd(track_id: int, width: int, height: int) -> Seq<u8> {
    let s = Seq::<u8>::empty();
    let s = s + be32(3);
    let s = s + zeros(8);
    let s = s + be32(track_id);
    let s = s + zeros(4);
    let s = s + be32(1);
    let s = s + zeros(8);
    let s = s + zeros(4);
    let s = s + zeros(4);
    let s = s + be32(0x1_0000);
    let s = s + zeros(8);
    let s = s + be32(0x1_0000);
    let s = s + zeros(12);
    let s = s + be32(0x4000_0000);
    let s = s + zeros(4);
    let s = s + be32(width * 0x1_0000);
    let s = s + be32(height * 0x1_0000);
    boxed(TKHD@, s)
}

fn tkhd_box(track_id: u32, width: u16, height: u16) -> (out: Vec<u8>)
    ensures
        out@ == tkhd(track_id as int, width as int, height as int),
{
    let mut p: Vec<u8> = Vec::new();
    // version 0, flags enabled|in-movie
    u32_be(&mut p, 3);
    push_zeros(&mut p, 8);
    u32_be(&mut p, track_id);
    push_zeros(&mut p, 4);
    // duration (ticks, informational)
    u32_be(&mut p, 1);
    push_zeros(&mut p, 8);
    // layer + alternate group
    push_zeros(&mut p, 4);
    // volume + reserved
    push_zeros(&mut p, 4);
    // matrix
    u32_be(&mut p, 0x1_0000);
    push_zeros(&mut p, 8);
    u32_be(&mut p, 0x1_0000);
    push_zeros(&mut p, 12);
    u32_be(&mut p, 0x4000_0000);
    // matrix (9th entry)
    push_zeros(&mut p, 4);
    // 16.16 fixed point
    u32_be(&mut p, width as u32 * 0x1_0000);
    u32_be(&mut p, height as u32 * 0x1_0000);
    box_be(&TKHD, &p)
}

/// An edit list of one segment.
pub open spec fn elst(duration: int) -> Seq<u8> {
    let s = Seq::<u8>::empty();
    let s = s + zeros(4);
    let s = s + be32(1);
    let s = s + be32(duration);
    let s = s + be32(0);
    let s = s + be32(0x1_0000);
    boxed(ELST@, s)
}

fn elst_box(segment_duration: u32) -> (out: Vec<u8>)
    ensures
        out@ == elst(segment_duration as int),
{
    let mut p: Vec<u8> = Vec::new();
    // version + flags
    push_zeros(&mut p, 4);
    // entry count
    u32_be(&mut p, 1);
    // segment duration (movie timescale)
    u32_be(&mut p, segment_duration);
    // media time
    u32_be(&mut p, 0);
    // media rate
    u32_be(&mut p, 0x1_0000);
    box_be(&ELST, &p)
}

/// A media header.
pub open spec fn mdhd(timescale: int, duration: int) -> Seq<u8> {
    let s = Seq::<u8>::empty();
    let s = s + zeros(4);
    let s = s + zeros(8);
    let s = s + be32(timescale);
    let s = s + be32(duration);
    let s = s + be16(0xc400);
    let s = s + zeros(2);
    boxed(MDHD@, s)
}

fn mdhd_box(timescale: u32, duration_ticks: u32) -> (out: Vec<u8>)
    ensures
        out@ == mdhd(timescale as int, duration_ticks as int),
{
    let mut p: Vec<u8> = Vec::new();
    push_zeros(&mut p, 4);
    push_zeros(&mut p, 8);
    u32_be(&mut p, timescale);
    u32_be(&mut p, duration_ticks);
    // language + pre_defined
    u16_be(&mut p, 0xc400);
    push_zeros(&mut p, 2);
    box_be(&MDHD, &p)
}

/// The handler of a video track.
pub open spec fn hdlr() -> Seq<u8> {
    let s = Seq::<u8>::empty();
    let s = s + zeros(4);
    let s = s + zeros(4);
    let s = s + VIDE@;
    let s = s + zeros(8);
    let s = s + VIDEO_HANDLER@;
    boxed(HDLR@, s)
}

fn hdlr_box() -> (out: Vec<u8>)
    ensures
        out@ == hdlr(),
{
    let mut p: Vec<u8> = Vec::new();
    // version + flags
    push_zeros(&mut p, 4);
    // pre_defined
    push_zeros(&mut p, 4);
    push4(&mut p, &VIDE);
    // reserved
    push_zeros(&mut p, 8);
    let name: [u8; 17] = VIDEO_HANDLER;
    push_all(&mut p, &name);
    box_be(&HDLR, &p)
}

/// The video media header.
pub open spec fn vmhd() -> Seq<u8> {
    let s = Seq::<u8>::empty();
    let s = s + be32(1);
    let s = s + zeros(8);
    boxed(VMHD@, s)
}

fn vmhd_box() -> (out: Vec<u8>)
    ensures
        out@ == vmhd(),
{
    let mut p: Vec<u8> = Vec::new();
    // version + flags
    u32_be(&mut p, 1);
    // graphics mode + opcolor
    push_zeros(&mut p, 8);
    box_be(&VMHD, &p)
}

/// The data reference: the file itself.
pub open spec fn dinf() -> Seq<u8> {
    let s = Seq::<u8>::empty();
    let s = s + zeros(4);
    let s = s + be32(1);
    let s = s + be32(12);
    let s = s + URL@;
    let s = s + be32(1);
    boxed(DINF@, boxed(DREF@, s))
}

fn dref_box() -> (out: Vec<u8>)
    ensures
        out@ == dinf(),
{
    let mut p: Vec<u8> = Vec::new();
    push_zeros(&mut p, 4);
    u32_be(&mut p, 1);
    u32_be(&mut p, 12);
    push4(&mut p, &URL);
    u32_be(&mut p, 1);
    let dref = box_be(&DREF, &p);
    box_be(&DINF, &dref)
}

/// A bit rate.
pub open spec fn btrt(buffer: int, avg: int, max: int) -> Seq<u8> {
    let s = Seq::<u8>::empty();
    let s = s + be32(buffer);
    let s = s + be32(avg);
    let s = s + be32(max);
    boxed(BTRT@, s)
}

fn btrt_box(buffer: u32, avg: u32, max: u32) -> (out: Vec<u8>)
    ensures
        out@ == btrt(buffer as int, avg as int, max as int),
{
    let mut p: Vec<u8> = Vec::new();
    u32_be(&mut p, buffer);
    u32_be(&mut p, avg);
    u32_be(&mut p, max);
    box_be(&BTRT, &p)
}

/// A colour description.
pub open spec fn colr(c: ColourInfo) -> Seq<u8> {
    let s = Seq::<u8>::empty();
    let s = s + NCLX@;
    let s = s + be16(c.primaries as int);
    let s = s + be16(c.transfer as int);
    let s = s + be16(c.matrix as int);
    let s = s.push(
        if c.full_range {
            0x80
        } else {
            0
        },
    );
    boxed(COLR@, s)
}

fn colr_box(colour: &ColourInfo) -> (out: Vec<u8>)
    ensures
        out@ == colr(*colour),
{
    let mut p: Vec<u8> = Vec::new();
    push4(&mut p, &NCLX);
    u16_be(&mut p, colour.primaries);
    u16_be(&mut p, colour.transfer);
    u16_be(&mut p, colour.matrix);
    p.push(
        if colour.full_range {
            0x80
        } else {
            0
        },
    );
    box_be(&COLR, &p)
}

/// A visual sample entry up to its codec boxes.
pub open spec fn visual_entry(code: Seq<u8>, width: int, height: int) -> Seq<u8> {
    let s = Seq::<u8>::empty();
    let s = s + code;
    let s = s + zeros(7);
    let s = s.push(1);
    let s = s + zeros(4);
    let s = s + zeros(12);
    let s = s + be16(width);
    let s = s + be16(height);
    let s = s + be32(0x0048_0000);
    let s = s + be32(0x0048_0000);
    let s = s + zeros(4);
    let s = s + be16(1);
    let s = s + zeros(32);
    let s = s + be16(0x0018);
    let s = s + be16(0xffff);
    s
}

fn visual_sample_entry(code: &[u8; 4], width: u16, height: u16) -> (entry: Vec<u8>)
    ensures
        entry@ == visual_entry(code@, width as int, height as int),
{
    let mut v: Vec<u8> = Vec::new();
    push4(&mut v, code);
    // reserved(6) + data_ref_index(1)
    push_zeros(&mut v, 7);
    v.push(1);
    // pre_defined + reserved
    push_zeros(&mut v, 4);
    // pre_defined(12)
    push_zeros(&mut v, 12);
    u16_be(&mut v, width);
    u16_be(&mut v, height);
    // horiz and vert resolution 72dpi
    u32_be(&mut v, 0x0048_0000);
    u32_be(&mut v, 0x0048_0000);
    // reserved
    push_zeros(&mut v, 4);
    // frame_count
    u16_be(&mut v, 1);
    // compressor name
    push_zeros(&mut v, 32);
    // depth 24
    u16_be(&mut v, 0x0018);
    // pre_defined
    u16_be(&mut v, 0xffff);
    v
}

/// The sample description of one entry.
#[verifier::opaque]
pub open spec fn stsd(entry: Seq<u8>) -> Seq<u8> {
    let s = Seq::<u8>::empty();
    let s = s + zeros(4);
    let s = s + be32(1);
    let s = s + be32(entry.len() as int + 4);
    let s = s + entry;
    boxed(STSD@, s)
}

fn stsd_box(entry: &Vec<u8>) -> (out: Vec<u8>)
    requires
        entry@.len() <= 0xffff,
    ensures
        out@ == stsd(entry@),
{
    proof {
        reveal(stsd);
    }
    let mut p: Vec<u8> = Vec::new();
    push_zeros(&mut p, 4);
    u32_be(&mut p, 1);
    u32_be(&mut p, entry.len() as u32 + 4);
    push_all(&mut p, entry.as_slice());
    box_be(&STSD, &p)
}

/// The sample entry of the VVC track: an empty vvcC, and the colour description if there is one.
#[verifier::opaque]
pub open spec fn vvc_entry(width: int, height: int, colour: Option<ColourInfo>) -> Seq<u8> {
    let s = visual_entry(VVC1@, width, height);
    let s = s + be32(12);
    let s = s + VVCC@;
    let s = s + zeros(4);
    let s = match colour {
        Some(c) => s + colr(c),
        None => s,
    };
    s + btrt(15, 0x69_92aa, 0x69_92aa)
}

fn stsd_box_vvc(width: u16, height: u16, colour: Option<&ColourInfo>) -> (out: Vec<u8>)
    ensures
        out@ == stsd(
            vvc_entry(
                width as int,
                height as int,
                match colour {
                    Some(c) => Some(*c),
                    None => None,
                },
            ),
        ),
{
    proof {
        reveal(vvc_entry);
    }
    let mut entry = visual_sample_entry(&VVC1, width, height);
    // empty vvcC (version 0 + flags): 12-byte box
    u32_be(&mut entry, 12);
    push4(&mut entry, &VVCC);
    push_zeros(&mut entry, 4);
    match colour {
        Some(c) => {
            let b = colr_box(c);
            push_all(&mut entry, b.as_slice());
        },
        None => {},
    }
    let b = btrt_box(15, 0x69_92aa, 0x69_92aa);
    push_all(&mut entry, b.as_slice());
    stsd_box(&entry)
}

/// The sample entry of the LCEVC track: its lvcC says that lengths of samples have four bytes.
#[verifier::opaque]
pub open spec fn lcevc_entry(width: int, height: int) -> Seq<u8> {
    let s = visual_entry(LVC1@, width, height);
    let s = s + be32(14);
    let s = s + LVCC@;
    let s = s.push(1);
    let s = s + zeros(3);
    let s = s.push(0xC0);
    let s = s + zeros(9);
    s + btrt(0, 0x1922_c555, 0x1922_c555)
}

fn stsd_box_lcevc(width: u16, height: u16) -> (out: Vec<u8>)
    ensures
        out@ == stsd(lcevc_entry(width as int, height as int)),
{
    proof {
        reveal(lcevc_entry);
    }
    let mut entry = visual_sample_entry(&LVC1, width, height);
    u32_be(&mut entry, 14);
    push4(&mut entry, &LVCC);
    entry.push(1);
    push_zeros(&mut entry, 3);
    entry.push(0xC0);
    push_zeros(&mut entry, 9);
    let b = btrt_box(0, 0x1922_c555, 0x1922_c555);
    push_all(&mut entry, b.as_slice());
    stsd_box(&entry)
}

/// All samples have the same duration.
pub open spec fn stts(n: int, delta: int) -> Seq<u8> {
    let s = Seq::<u8>::empty();
    let s = s + zeros(4);
    let s = s + be32(1);
    let s = s + be32(n);
    let s = s + be32(delta);
    boxed(STTS@, s)
}

fn stts_box(n: u32, delta: u32) -> (out: Vec<u8>)
    ensures
        out@ == stts(n as int, delta as int),
{
    let mut p: Vec<u8> = Vec::new();
    push_zeros(&mut p, 4);
    // entry count
    u32_be(&mut p, 1);
    // sample count
    u32_be(&mut p, n);
    // frame duration in ticks
    u32_be(&mut p, delta);
    box_be(&STTS, &p)
}

/// Every chunk has one sample.
pub open spec fn stsc() -> Seq<u8> {
    let s = Seq::<u8>::empty();
    let s = s + zeros(4);
    let s = s + be32(1);
    let s = s + be32(1);
    let s = s + be32(1);
    let s = s + be32(1);
    boxed(STSC@, s)
}

fn stsc_box() -> (out: Vec<u8>)
    ensures
        out@ == stsc(),
{
    let mut p: Vec<u8> = Vec::new();
    push_zeros(&mut p, 4);
    // entry count
    u32_be(&mut p, 1);
    // first chunk
    u32_be(&mut p, 1);
    // samples per chunk
    u32_be(&mut p, 1);
    // sample description index
    u32_be(&mut p, 1);
    box_be(&STSC, &p)
}

/// Numbers from `k` on, four bytes each.
pub open spec fn numbers(v: Seq<u32>, k: int) -> Seq<u8>
    decreases v.len() - k,
{
    if k < 0 || k >= v.len() {
        Seq::empty()
    } else {
        be32(v[k] as int) + numbers(v, k + 1)
    }
}

fn push_numbers(out: &mut Vec<u8>, v: &Vec<u32>)
    ensures
        final(out)@ == old(out)@ + numbers(v@, 0),
{
    let ghost total = out@ + numbers(v@, 0);
    let mut k: usize = 0;
    while k < v.len()
        invariant
            k <= v@.len(),
            out@ + numbers(v@, k as int) == total,
        decreases v@.len() - k,
    {
        let ghost before = out@;
        u32_be(out, v[k]);
        k = k + 1;
        assert(out@ + numbers(v@, k as int) =~= before + (be32(v@[k - 1] as int) + numbers(
            v@,
            k as int,
        )));
    }
    assert(out@ =~= total);
}

/// The sizes of the samples.
pub open spec fn stsz(sizes: Seq<u32>) -> Seq<u8> {
    let s = Seq::<u8>::empty();
    let s = s + zeros(4);
    let s = s + be32(0);
    let s = s + be32(sizes.len() as int);
    let s = s + numbers(sizes, 0);
    boxed(STSZ@, s)
}

fn stsz_box(sizes: &Vec<u32>) -> (out: Vec<u8>)
    requires
        sizes@.len() <= u32::MAX,
    ensures
        out@ == stsz(sizes@),
{
    let mut p: Vec<u8> = Vec::new();
    push_zeros(&mut p, 4);
    // sample size (0 = per-entry)
    u32_be(&mut p, 0);
    u32_be(&mut p, sizes.len() as u32);
    push_numbers(&mut p, sizes);
    box_be(&STSZ, &p)
}

/// Where the samples are.
pub open spec fn stco(offsets: Seq<u32>) -> Seq<u8> {
    let s = Seq::<u8>::empty();
    let s = s + zeros(4);
    let s = s + be32(offsets.len() as int);
    let s = s + numbers(offsets, 0);
    boxed(STCO@, s)
}

fn stco_box(offsets: &Vec<u32>) -> (out: Vec<u8>)
    requires
        offsets@.len() <= u32::MAX,
    ensures
        out@ == stco(offsets@),
{
    let mut p: Vec<u8> = Vec::new();
    push_zeros(&mut p, 4);
    u32_be(&mut p, offsets.len() as u32);
    push_numbers(&mut p, offsets);
    box_be(&STCO, &p)
}

/// What a track says of its samples.
#[verifier::ext_equal]
pub struct TrackModel {
    pub description: Seq<u8>,
    pub delta: int,
    pub duration: int,
    pub sizes: Seq<u32>,
    pub offsets: Seq<u32>,
}

/// The sample table of a track.
pub open spec fn stbl(t: TrackModel) -> Seq<u8> {
    let s = Seq::<u8>::empty();
    let s = s + t.description;
    let s = s + stts(t.sizes.len() as int, t.delta);
    let s = s + stsc();
    let s = s + stsz(t.sizes);
    let s = s + stco(t.offsets);
    boxed(STBL@, s)
}

fn stbl_box(stsd: &Vec<u8>, delta: u32, sizes: &Vec<u32>, offsets: &Vec<u32>) -> (out: Vec<u8>)
    requires
        sizes@.len() <= u32::MAX,
        offsets@.len() == sizes@.len(),
    ensures
        forall|t: TrackModel|
            t.description == stsd@ && t.delta == delta && t.sizes == sizes@ && t.offsets
                == offsets@ ==> out@ == #[trigger] stbl(t),
{
    let mut p: Vec<u8> = Vec::new();
    push_all(&mut p, stsd.as_slice());
    let b = stts_box(sizes.len() as u32, delta);
    push_all(&mut p, b.as_slice());
    let b = stsc_box();
    push_all(&mut p, b.as_slice());
    let b = stsz_box(sizes);
    push_all(&mut p, b.as_slice());
    let b = stco_box(offsets);
    push_all(&mut p, b.as_slice());
    box_be(&STBL, &p)
}

/// The media of a track.
pub open spec fn mdia(t: TrackModel) -> Seq<u8> {
    let m = Seq::<u8>::empty();
    let m = m + vmhd();
    let m = m + dinf();
    let m = m + stbl(t);
    let s = Seq::<u8>::empty();
    let s = s + mdhd(12800, t.duration);
    let s = s + hdlr();
    let s = s + boxed(MINF@, m);
    boxed(MDIA@, s)
}

fn mdia_box(
    stsd: &Vec<u8>,
    delta: u32,
    duration: u32,
    sizes: &Vec<u32>,
    offsets: &Vec<u32>,
) -> (out: Vec<u8>)
    requires
        sizes@.len() <= u32::MAX,
        offsets@.len() == sizes@.len(),
    ensures
        out@ == mdia(
            (TrackModel {
                description: stsd@,
                delta: delta as int,
                duration: duration as int,
                sizes: sizes@,
                offsets: offsets@,
            }),
        ),
{
    let ghost t = TrackModel {
        description: stsd@,
        delta: delta as int,
        duration: duration as int,
        sizes: sizes@,
        offsets: offsets@,
    };
    let mut m: Vec<u8> = Vec::new();
    let b = vmhd_box();
    push_all(&mut m, b.as_slice());
    let b = dref_box();
    push_all(&mut m, b.as_slice());
    let b = stbl_box(stsd, delta, sizes, offsets);
    assert(b@ == stbl(t));
    push_all(&mut m, b.as_slice());
    let minf = box_be(&MINF, &m);
    let mut p: Vec<u8> = Vec::new();
    let b = mdhd_box(12800, duration);
    push_all(&mut p, b.as_slice());
    let b = hdlr_box();
    push_all(&mut p, b.as_slice());
    push_all(&mut p, minf.as_slice());
    box_be(&MDIA, &p)
}

/// A track. The enhancement track refers to the base track.
pub open spec fn trak(
    id: int,
    width: int,
    height: int,
    movie_duration: int,
    refers: bool,
    t: TrackModel,
) -> Seq<u8> {
    let s = Seq::<u8>::empty();
    let s = s + tkhd(id, width, height);
    let s = s + boxed(EDTS@, elst(movie_duration));
    let s = if refers {
        s + boxed(TREF@, be32(12) + SBAS@ + be32(1))
    } else {
        s
    };
    let s = s + mdia(t);
    boxed(TRAK@, s)
}

fn trak_box(
    id: u32,
    width: u16,
    height: u16,
    movie_duration: u32,
    refers: bool,
    mdia: &Vec<u8>,
    Ghost(t): Ghost<TrackModel>,
) -> (out: Vec<u8>)
    requires
        mdia@ == self::mdia(t),
    ensures
        out@ == trak(
            id as int,
            width as int,
            height as int,
            movie_duration as int,
            refers,
            t,
        ),
{
    let mut p = tkhd_box(id, width, height);
    assert(p@ =~= Seq::<u8>::empty() + tkhd(id as int, width as int, height as int));
    let edits = elst_box(movie_duration);
    push_box(&mut p, &EDTS, &edits);
    if refers {
        let mut tref: Vec<u8> = Vec::new();
        u32_be(&mut tref, 12);
        push4(&mut tref, &SBAS);
        u32_be(&mut tref, 1);
        assert(tref@ =~= be32(12) + SBAS@ + be32(1));
        push_box(&mut p, &TREF, &tref);
    }
    push_all(&mut p, mdia.as_slice());
    box_be(&TRAK, &p)
}

/// What byte strings hold.
pub open spec fn views(v: Seq<Vec<u8>>) -> Seq<Seq<u8>> {
    Seq::new(v.len(), |i: int| v[i]@)
}

/// An LCEVC sample: a NAL unit without its start code behind its length in four bytes.
pub open spec fn enhancement_sample(nal: Seq<u8>) -> Seq<u8> {
    be32(annexb::bare(nal).len() as int) + annexb::bare(nal)
}

/// The samples of the first `k` frames: base and enhancement in turn.
pub open spec fn media(base: Seq<Seq<u8>>, enh: Seq<Seq<u8>>, k: int) -> Seq<u8>
    decreases k,
{
    if k <= 0 {
        Seq::empty()
    } else {
        media(base, enh, k - 1) + base[k - 1] + enhancement_sample(enh[k - 1])
    }
}

/// The file up to its media: ftyp and an empty free box.
pub open spec fn file_head() -> Seq<u8> {
    let s = Seq::<u8>::empty();
    let s = s + ISOM@;
    let s = s + be32(0x200);
    let s = s + ISOM@;
    let s = s + ISO2@;
    let s = s + MP41@;
    boxed(FTYP@, s) + be32(8) + FREE@
}

/// Where the first sample is.
pub open spec fn media_start() -> int {
    file_head().len() as int + 8
}

/// Where the base sample of frame `i` is in the file.
pub open spec fn base_offset(base: Seq<Seq<u8>>, enh: Seq<Seq<u8>>, i: int) -> int {
    media_start() + media(base, enh, i).len()
}

/// Where the enhancement sample of frame `i` is in the file.
pub open spec fn enh_offset(base: Seq<Seq<u8>>, enh: Seq<Seq<u8>>, i: int) -> int {
    base_offset(base, enh, i) + base[i].len()
}

/// Ticks per frame at 12800 ticks per second; at least 1.
pub open spec fn frame_ticks(fps: int) -> int {
    let t = 12800int / (if fps > 1 {
        fps
    } else {
        1
    });
    if t > 1 {
        t
    } else {
        1
    }
}

/// The duration of the movie in milliseconds; at least 1.
pub open spec fn movie_time(n: int, fps: int) -> int {
    let t = n * 1000 / (if fps > 1 {
        fps
    } else {
        1
    });
    if t > 1 {
        t
    } else {
        1
    }
}

/// How many frames there are: those with both samples.
pub open spec fn frame_count(base: Seq<Seq<u8>>, enh: Seq<Seq<u8>>) -> int {
    if base.len() < enh.len() {
        base.len() as int
    } else {
        enh.len() as int
    }
}

/// What the track of the base says.
pub open spec fn base_track(
    base: Seq<Seq<u8>>,
    enh: Seq<Seq<u8>>,
    width: int,
    height: int,
    fps: int,
    colour: Option<ColourInfo>,
) -> TrackModel {
    let n = frame_count(base, enh);
    TrackModel {
        description: stsd(vvc_entry(width, height, colour)),
        delta: frame_ticks(fps),
        duration: n * frame_ticks(fps),
        sizes: Seq::new(n as nat, |i: int| base[i].len() as u32),
        offsets: Seq::new(n as nat, |i: int| base_offset(base, enh, i) as u32),
    }
}

/// What the track of the enhancement says.
pub open spec fn enh_track(
    base: Seq<Seq<u8>>,
    enh: Seq<Seq<u8>>,
    width: int,
    height: int,
    fps: int,
) -> TrackModel {
    let n = frame_count(base, enh);
    TrackModel {
        description: stsd(lcevc_entry(width, height)),
        delta: frame_ticks(fps),
        duration: n * frame_ticks(fps),
        sizes: Seq::new(n as nat, |i: int| enhancement_sample(enh[i]).len() as u32),
        offsets: Seq::new(n as nat, |i: int| enh_offset(base, enh, i) as u32),
    }
}

/// The movie box.
#[verifier::opaque]
pub open spec fn moov(
    base: Seq<Seq<u8>>,
    enh: Seq<Seq<u8>>,
    width: int,
    height: int,
    fps: int,
    colour: Option<ColourInfo>,
) -> Seq<u8> {
    let time = movie_time(frame_count(base, enh), fps);
    let s = Seq::<u8>::empty();
    let s = s + mvhd(time, 3);
    let s = s + trak(
        1,
        width,
        height,
        time,
        false,
        base_track(base, enh, width, height, fps, colour),
    );
    let s = s + trak(2, width, height, time, true, enh_track(base, enh, width, height, fps));
    boxed(MOOV@, s)
}

/// The media box of the file.
pub open spec fn mdat(base: Seq<Seq<u8>>, enh: Seq<Seq<u8>>) -> Seq<u8> {
    boxed(MDAT@, media(base, enh, frame_count(base, enh)))
}

/// The whole file.
pub open spec fn movie_file(
    base: Seq<Seq<u8>>,
    enh: Seq<Seq<u8>>,
    width: int,
    height: int,
    fps: int,
    colour: Option<ColourInfo>,
) -> Seq<u8> {
    file_head() + mdat(base, enh) + moov(base, enh, width, height, fps, colour)
}

/// Whether durations and offsets fit in 32 bits.
pub open spec fn movie_fits(base: Seq<Seq<u8>>, enh: Seq<Seq<u8>>, fps: int) -> bool {
    let n = frame_count(base, enh);
    &&& n * 1000 <= u32::MAX
    &&& n * frame_ticks(fps) <= u32::MAX
    &&& base_offset(base, enh, n) <= u32::MAX
}

pub open spec fn given_colour(colour: Option<&ColourInfo>) -> Option<ColourInfo> {
    match colour {
        Some(c) => Some(*c),
        None => None,
    }
}

proof fn lemma_media_grows(base: Seq<Seq<u8>>, enh: Seq<Seq<u8>>, i: int, k: int)
    requires
        0 <= i <= k,
    ensures
        media(base, enh, i).len() <= media(base, enh, k).len(),
        media(base, enh, k).subrange(0, media(base, enh, i).len() as int) == media(base, enh, i),
    decreases k - i,
{
    if i < k {
        lemma_media_grows(base, enh, i, k - 1);
        assert(media(base, enh, k).subrange(0, media(base, enh, i).len() as int) =~= media(
            base,
            enh,
            k - 1,
        ).subrange(0, media(base, enh, i).len() as int));
    } else {
        assert(media(base, enh, k).subrange(0, media(base, enh, k).len() as int) =~= media(
            base,
            enh,
            k,
        ));
    }
}

proof fn lemma_head()
    ensures
        file_head().len() == 36,
        media_start() == 44,
{
}

/// Every sample is found where the tables of its track say: the bytes of the file at the offset,
/// as many as the size, are the sample.
pub proof fn law_samples_found(
    base: Seq<Seq<u8>>,
    enh: Seq<Seq<u8>>,
    width: int,
    height: int,
    fps: int,
    colour: Option<ColourInfo>,
    i: int,
)
    requires
        0 <= i < frame_count(base, enh),
        movie_fits(base, enh, fps),
    ensures
        ({
            let file = movie_file(base, enh, width, height, fps, colour);
            let b = base_track(base, enh, width, height, fps, colour);
            let e = enh_track(base, enh, width, height, fps);
            &&& file.subrange(b.offsets[i] as int, b.offsets[i] + b.sizes[i]) == base[i]
            &&& file.subrange(e.offsets[i] as int, e.offsets[i] + e.sizes[i])
                == enhancement_sample(enh[i])
        }),
{
    let n = frame_count(base, enh);
    let file = movie_file(base, enh, width, height, fps, colour);
    let all = media(base, enh, n);
    lemma_head();
    lemma_media_grows(base, enh, i + 1, n);
    lemma_media_inside(
        file_head(),
        be32(all.len() as int + 8),
        MDAT@,
        all,
        moov(base, enh, width, height, fps, colour),
    );
    lemma_sample_inside(
        file,
        all,
        media(base, enh, i),
        base[i],
        enhancement_sample(enh[i]),
    );
}

proof fn lemma_media_inside(
    head: Seq<u8>,
    size: Seq<u8>,
    code: Seq<u8>,
    all: Seq<u8>,
    tail: Seq<u8>,
)
    requires
        head.len() == 36,
        size.len() == 4,
        code.len() == 4,
    ensures
        (head + (size + code + all) + tail).len() >= 44 + all.len(),
        (head + (size + code + all) + tail).subrange(44, 44 + all.len() as int) == all,
{
    assert((head + (size + code + all) + tail).subrange(44, 44 + all.len() as int) =~= all);
}

proof fn lemma_sample_inside(
    file: Seq<u8>,
    all: Seq<u8>,
    before: Seq<u8>,
    first: Seq<u8>,
    second: Seq<u8>,
)
    requires
        file.len() >= 44 + all.len(),
        file.subrange(44, 44 + all.len() as int) == all,
        (before + first + second).len() <= all.len(),
        all.subrange(0, (before + first + second).len() as int) == before + first + second,
    ensures
        ({
            let b = 44 + before.len() as int;
            let e = b + first.len();
            &&& file.subrange(b, e) == first
            &&& file.subrange(e, e + second.len()) == second
        }),
{
    let upto = before + first + second;
    let b = 44 + before.len() as int;
    let e = b + first.len();
    assert forall|q: int| 0 <= q < upto.len() implies file[44 + q] == upto[q] by {
        assert(file[44 + q] == file.subrange(44, 44 + all.len() as int)[q]);
        assert(all[q] == all.subrange(0, upto.len() as int)[q]);
    }
    assert forall|j: int| 0 <= j < first.len() implies file[b + j] == first[j] by {
        assert(upto[before.len() + j] == first[j]);
    }
    assert(file.subrange(b, e) =~= first);
    assert forall|j: int| 0 <= j < second.len() implies file[e + j] == second[j] by {
        assert(upto[before.len() + first.len() + j] == second[j]);
    }
    assert(file.subrange(e, e + second.len()) =~= second);
}

/// What the tables of both tracks hold.
struct Tables {
    delta: u32,
    duration: u32,
    movie_duration: u32,
    base_sizes: Vec<u32>,
    base_off: Vec<u32>,
    enh_sizes: Vec<u32>,
    enh_off: Vec<u32>,
}

/// ftyp + free.
fn file_start() -> (out: Vec<u8>)
    ensures
        out@ == file_head(),
{
    let mut ftyp: Vec<u8> = Vec::new();
    push4(&mut ftyp, &ISOM);
    u32_be(&mut ftyp, 0x200);
    push4(&mut ftyp, &ISOM);
    push4(&mut ftyp, &ISO2);
    push4(&mut ftyp, &MP41);
    let mut out = box_be(&FTYP, &ftyp);
    u32_be(&mut out, 8);
    push4(&mut out, &FREE);
    out
}

fn moov_box(
    width: u16,
    height: u16,
    fps: u32,
    colour: Option<&ColourInfo>,
    tables: &Tables,
    Ghost(base): Ghost<Seq<Seq<u8>>>,
    Ghost(enh): Ghost<Seq<Seq<u8>>>,
) -> (out: Vec<u8>)
    requires
        ({
            let n = frame_count(base, enh);
            &&& n <= u32::MAX
            &&& tables.delta == frame_ticks(fps as int)
            &&& tables.duration == n * frame_ticks(fps as int)
            &&& tables.movie_duration == movie_time(n, fps as int)
            &&& tables.base_sizes@ == Seq::new(n as nat, |i: int| base[i].len() as u32)
            &&& tables.base_off@ == Seq::new(n as nat, |i: int| base_offset(base, enh, i) as u32)
            &&& tables.enh_sizes@ == Seq::new(
                n as nat,
                |i: int| enhancement_sample(enh[i]).len() as u32,
            )
            &&& tables.enh_off@ == Seq::new(n as nat, |i: int| enh_offset(base, enh, i) as u32)
        }),
    ensures
        out@ == moov(
            base,
            enh,
            width as int,
            height as int,
            fps as int,
            given_colour(colour),
        ),
{
    let described = stsd_box_vvc(width, height, colour);
    let ghost b = base_track(
        base,
        enh,
        width as int,
        height as int,
        fps as int,
        given_colour(colour),
    );
    let media_of = mdia_box(
        &described,
        tables.delta,
        tables.duration,
        &tables.base_sizes,
        &tables.base_off,
    );
    let trak_vvc = trak_box(1, width, height, tables.movie_duration, false, &media_of, Ghost(b));
    let described = stsd_box_lcevc(width, height);
    let ghost e = enh_track(base, enh, width as int, height as int, fps as int);
    let media_of = mdia_box(
        &described,
        tables.delta,
        tables.duration,
        &tables.enh_sizes,
        &tables.enh_off,
    );
    let trak_lcevc = trak_box(2, width, height, tables.movie_duration, true, &media_of, Ghost(e));
    let mut parts: Vec<u8> = Vec::new();
    let b = mvhd_box(tables.movie_duration, 3);
    push_all(&mut parts, b.as_slice());
    push_all(&mut parts, trak_vvc.as_slice());
    push_all(&mut parts, trak_lcevc.as_slice());
    proof {
        reveal(moov);
    }
    box_be(&MOOV, &parts)
}

/// Build the full MP4 file.
///
/// * `base_aus` — per-frame VVC access units (Annex-B, start codes kept).
/// * `enh_nals` — per-frame LCEVC NAL units (start codes kept).
/// * `width`/`height` — the base (LOQ2) picture dimensions.
/// * `fps` — frame rate (used for the media timescale).
///
/// Durations and offsets have 32 bits: what does not fit in them is refused.
pub fn mux_mp4(
    base_aus: &[Vec<u8>],
    enh_nals: &[Vec<u8>],
    width: u16,
    height: u16,
    fps: u32,
    colour: Option<&ColourInfo>,
) -> (file: Result<Vec<u8>, String>)
    ensures
        ({
            let base = views(base_aus@);
            let enh = views(enh_nals@);
            match file {
                Ok(bytes) => {
                    &&& frame_count(base, enh) > 0
                    &&& movie_fits(base, enh, fps as int)
                    &&& bytes@ == movie_file(
                        base,
                        enh,
                        width as int,
                        height as int,
                        fps as int,
                        given_colour(colour),
                    )
                },
                Err(e) => if frame_count(base, enh) == 0 {
                    e@ == "no frames to mux"@
                } else {
                    e@ == "movie too large"@ && !movie_fits(base, enh, fps as int)
                },
            }
        }),
{
    let ghost base = views(base_aus@);
    let ghost enh = views(enh_nals@);
    let count: usize = if base_aus.len() < enh_nals.len() {
        base_aus.len()
    } else {
        enh_nals.len()
    };
    if count == 0 {
        return Err("no frames to mux".to_string());
    }
    let rate: u32 = if fps > 1 {
        fps
    } else {
        1
    };
    let ticks: u32 = 12800 / rate;
    let delta: u32 = if ticks > 1 {
        ticks
    } else {
        1
    };
    proof {
        assert(count * delta <= usize::MAX * 12800) by (nonlinear_arith)
            requires
                0 <= count <= usize::MAX,
                0 <= delta <= 12800,
        ;
        assert(count * delta >= 0) by (nonlinear_arith)
            requires
                count >= 0,
                delta >= 0,
        ;
    }
    if count as u128 * 1000 > u32::MAX as u128 || count as u128 * delta as u128
        > u32::MAX as u128 {
        return Err("movie too large".to_string());
    }
    let n: u32 = count as u32;
    let duration: u32 = n * delta;
    let time: u32 = n * 1000 / rate;
    let movie_duration: u32 = if time > 1 {
        time
    } else {
        1
    };

    // ---- mdat: interleaved (base[i], enh[i]) ----
    let mut samples: Vec<u8> = Vec::new();
    let mut base_off: Vec<u32> = Vec::new();
    let mut enh_off: Vec<u32> = Vec::new();
    let mut base_sizes: Vec<u32> = Vec::new();
    let mut enh_sizes: Vec<u32> = Vec::new();
    proof {
        lemma_head();
    }
    let mut i: usize = 0;
    while i < count
        invariant
            i <= count,
            base == views(base_aus@),
            enh == views(enh_nals@),
            count == frame_count(base, enh),
            count > 0,
            media_start() == 44,
            samples@ == media(base, enh, i as int),
            base_offset(base, enh, i as int) <= u32::MAX,
            base_off@ == Seq::new(i as nat, |j: int| base_offset(base, enh, j) as u32),
            enh_off@ == Seq::new(i as nat, |j: int| enh_offset(base, enh, j) as u32),
            base_sizes@ == Seq::new(i as nat, |j: int| base[j].len() as u32),
            enh_sizes@ == Seq::new(i as nat, |j: int| enhancement_sample(enh[j]).len() as u32),
        decreases count - i,
    {
        let unit = &base_aus[i];
        // LCEVC samples are stored length-prefixed (4-byte BE length, no start code) so that
        // a reader can rebuild Annex-B NALs.
        let body = strip_start_code(enh_nals[i].as_slice());
        proof {
            assert(unit@ == base[i as int]);
            assert(body@ == annexb::bare(enh[i as int]));
            lemma_media_grows(base, enh, i + 1, count as int);
        }
        let end: u128 = 44 + samples.len() as u128 + unit.len() as u128 + 4 + body.len() as u128;
        if end > u32::MAX as u128 {
            return Err("movie too large".to_string());
        }
        base_off.push(44 + samples.len() as u32);
        base_sizes.push(unit.len() as u32);
        push_all(&mut samples, unit.as_slice());
        enh_off.push(44 + samples.len() as u32);
        enh_sizes.push(4 + body.len() as u32);
        u32_be(&mut samples, body.len() as u32);
        push_all(&mut samples, body);
        i = i + 1;
        proof {
            assert(samples@ =~= media(base, enh, i as int));
            assert(base_off@ =~= Seq::new(i as nat, |j: int| base_offset(base, enh, j) as u32));
            assert(enh_off@ =~= Seq::new(i as nat, |j: int| enh_offset(base, enh, j) as u32));
            assert(base_sizes@ =~= Seq::new(i as nat, |j: int| base[j].len() as u32));
            assert(enh_sizes@ =~= Seq::new(
                i as nat,
                |j: int| enhancement_sample(enh[j]).len() as u32,
            ));
        }
    }

    let mut out = file_start();
    push_box(&mut out, &MDAT, &samples);
    let tables = Tables {
        delta,
        duration,
        movie_duration,
        base_sizes,
        base_off,
        enh_sizes,
        enh_off,
    };
    let b = moov_box(width, height, fps, colour, &tables, Ghost(base), Ghost(enh));
    push_all(&mut out, b.as_slice());
    Ok(out)
}

} // verus!
