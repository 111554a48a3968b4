//! An MP4 file read back by the layout of its boxes: every box starts with its size and its
//! four-character code, and what a track says stands at fixed places in its boxes.
use crate::annexb;
use crate::config::ColourInfo;
use crate::mp4;
use vstd::prelude::*;

verus! {

/// The big-endian number of two bytes at a place.
#[verifier::opaque]
pub open spec fn u16_at(f: Seq<u8>, p: int) -> int {
    f[p] * 0x100 + f[p + 1]
}

/// The big-endian number of four bytes at a place.
#[verifier::opaque]
pub open spec fn u32_at(f: Seq<u8>, p: int) -> int {
    f[p] * 0x100_0000 + f[p + 1] * 0x1_0000 + f[p + 2] * 0x100 + f[p + 3]
}

/// A four-character code as a number.
pub open spec fn name(a: char, b: char, c: char, d: char) -> int {
    (a as u32) * 0x100_0000 + (b as u32) * 0x1_0000 + (c as u32) * 0x100 + (d as u32)
}

/// Where the box at a place ends.
pub open spec fn box_end(f: Seq<u8>, p: int) -> int {
    p + u32_at(f, p)
}

/// Where the first box of a code is among the boxes from `p` to `end`.
pub open spec fn find(f: Seq<u8>, p: int, end: int, code: int) -> int
    decreases end - p,
{
    if p + 8 > end || u32_at(f, p) < 8 || box_end(f, p) > end {
        -1
    } else if u32_at(f, p + 4) == code {
        p
    } else {
        find(f, box_end(f, p), end, code)
    }
}

/// Where the first box of a code is in the box at a place.
pub open spec fn child(f: Seq<u8>, p: int, code: int) -> int {
    find(f, p + 8, box_end(f, p), code)
}

/// The movie box of a file.
pub open spec fn movie_of(f: Seq<u8>) -> int {
    find(f, 0, f.len() as int, name('m', 'o', 'o', 'v'))
}

/// The first track of a file.
pub open spec fn first_track(f: Seq<u8>) -> int {
    child(f, movie_of(f), name('t', 'r', 'a', 'k'))
}

/// The second track of a file.
pub open spec fn second_track(f: Seq<u8>) -> int {
    find(
        f,
        box_end(f, first_track(f)),
        box_end(f, movie_of(f)),
        name('t', 'r', 'a', 'k'),
    )
}

/// The header of a track.
pub open spec fn header_of(f: Seq<u8>, t: int) -> int {
    child(f, t, name('t', 'k', 'h', 'd'))
}

/// The edit list of a track.
pub open spec fn edits_of(f: Seq<u8>, t: int) -> int {
    child(f, child(f, t, name('e', 'd', 't', 's')), name('e', 'l', 's', 't'))
}

/// The media of a track.
pub open spec fn media_of(f: Seq<u8>, t: int) -> int {
    child(f, t, name('m', 'd', 'i', 'a'))
}

/// The sample table of a track.
pub open spec fn table_of(f: Seq<u8>, t: int) -> int {
    child(
        f,
        child(f, media_of(f, t), name('m', 'i', 'n', 'f')),
        name('s', 't', 'b', 'l'),
    )
}

/// The first sample entry of a track.
pub open spec fn entry_of(f: Seq<u8>, t: int) -> int {
    child(f, table_of(f, t), name('s', 't', 's', 'd')) + 16
}

/// The bytes of a sample of a track, by the offset and the size that its tables have for it.
pub open spec fn sample_of(f: Seq<u8>, t: int, i: int) -> Seq<u8> {
    let size = u32_at(f, child(f, table_of(f, t), name('s', 't', 's', 'z')) + 20 + 4 * i);
    let offset = u32_at(f, child(f, table_of(f, t), name('s', 't', 'c', 'o')) + 16 + 4 * i);
    f.subrange(offset, offset + size)
}

/// A string of bytes at a place of a file.
#[verifier::opaque]
spec fn holds(f: Seq<u8>, p: int, s: Seq<u8>) -> bool {
    &&& 0 <= p
    &&& p + s.len() <= f.len()
    &&& forall|i: int| 0 <= i < s.len() ==> f[p + i] == #[trigger] s[i]
}

proof fn lemma_parts(f: Seq<u8>, p: int, a: Seq<u8>, b: Seq<u8>)
    requires
        holds(f, p, a + b),
    ensures
        holds(f, p, a),
        holds(f, p + a.len(), b),
{
    reveal(holds);
    assert forall|i: int| 0 <= i < a.len() implies f[p + i] == #[trigger] a[i] by {
        assert((a + b)[i] == a[i]);
    }
    assert forall|i: int| 0 <= i < b.len() implies f[p + a.len() + i] == #[trigger] b[i] by {
        assert((a + b)[a.len() + i] == b[i]);
    }
}

proof fn lemma_u32(f: Seq<u8>, p: int, v: int)
    requires
        holds(f, p, mp4::be32(v)),
        0 <= v <= u32::MAX,
    ensures
        u32_at(f, p) == v,
{
    reveal(u32_at);
    reveal(holds);
    let s = mp4::be32(v);
    assert(f[p + 0] == s[0] && f[p + 1] == s[1] && f[p + 2] == s[2] && f[p + 3] == s[3]);
}

proof fn lemma_u16(f: Seq<u8>, p: int, v: int)
    requires
        holds(f, p, mp4::be16(v)),
        0 <= v <= u16::MAX,
    ensures
        u16_at(f, p) == v,
{
    reveal(u16_at);
    reveal(holds);
    let s = mp4::be16(v);
    assert(f[p + 0] == s[0] && f[p + 1] == s[1]);
}

/// A box at a place: its size, its code and its payload.
proof fn lemma_box(f: Seq<u8>, p: int, code: Seq<u8>, payload: Seq<u8>)
    requires
        holds(f, p, mp4::boxed(code, payload)),
        code.len() == 4,
        payload.len() + 8 <= u32::MAX,
    ensures
        u32_at(f, p) == payload.len() + 8,
        u32_at(f, p + 4) == code[0] * 0x100_0000 + code[1] * 0x1_0000 + code[2] * 0x100 + code[3],
        holds(f, p + 8, payload),
{
    reveal(u32_at);
    reveal(holds);
    let size = mp4::be32(payload.len() as int + 8);
    lemma_parts(f, p, size + code, payload);
    lemma_parts(f, p, size, code);
    lemma_u32(f, p, payload.len() as int + 8);
    assert(f[p + 4 + 0] == code[0] && f[p + 4 + 1] == code[1] && f[p + 4 + 2] == code[2] && f[p + 4
        + 3] == code[3]);
}

/// A number of four bytes in a string at a place.
proof fn lemma_number(f: Seq<u8>, p: int, s: Seq<u8>, k: int, v: int)
    requires
        holds(f, p, s),
        0 <= k,
        k + 4 <= s.len(),
        s.subrange(k, k + 4) == mp4::be32(v),
        0 <= v <= u32::MAX,
    ensures
        u32_at(f, p + k) == v,
{
    reveal(holds);
    let b = mp4::be32(v);
    assert forall|i: int| 0 <= i < 4 implies f[p + k + i] == #[trigger] b[i] by {
        assert(b[i] == s.subrange(k, k + 4)[i]);
        assert(f[p + (k + i)] == s[k + i]);
    }
    lemma_u32(f, p + k, v);
}

/// A number of two bytes in a string at a place.
proof fn lemma_short(f: Seq<u8>, p: int, s: Seq<u8>, k: int, v: int)
    requires
        holds(f, p, s),
        0 <= k,
        k + 2 <= s.len(),
        s.subrange(k, k + 2) == mp4::be16(v),
        0 <= v <= u16::MAX,
    ensures
        u16_at(f, p + k) == v,
{
    reveal(holds);
    let b = mp4::be16(v);
    assert forall|i: int| 0 <= i < 2 implies f[p + k + i] == #[trigger] b[i] by {
        assert(b[i] == s.subrange(k, k + 2)[i]);
        assert(f[p + (k + i)] == s[k + i]);
    }
    lemma_u16(f, p + k, v);
}

#[verifier::rlimit(40)]
proof fn lemma_movie_header(f: Seq<u8>, p: int, duration: int, next: int)
    requires
        holds(f, p, mp4::mvhd(duration, next)),
        0 <= duration <= u32::MAX,
        0 <= next <= u32::MAX,
    ensures
        mp4::mvhd(duration, next).len() == 108,
        u32_at(f, p) == 108,
        u32_at(f, p + 4) == name('m', 'v', 'h', 'd'),
        u32_at(f, p + 20) == 1000,
        u32_at(f, p + 24) == duration,
        u32_at(f, p + 104) == next,
{
    let s = mp4::mvhd(duration, next);
    assert(s.subrange(0, 4) =~= mp4::be32(108));
    assert(s.subrange(4, 8) =~= mp4::be32(name('m', 'v', 'h', 'd')));
    assert(s.subrange(20, 24) =~= mp4::be32(1000));
    assert(s.subrange(24, 28) =~= mp4::be32(duration));
    assert(s.subrange(104, 108) =~= mp4::be32(next));
    lemma_number(f, p, s, 0, 108);
    lemma_number(f, p, s, 4, name('m', 'v', 'h', 'd'));
    lemma_number(f, p, s, 20, 1000);
    lemma_number(f, p, s, 24, duration);
    lemma_number(f, p, s, 104, next);
}

#[verifier::rlimit(40)]
proof fn lemma_header(f: Seq<u8>, p: int, id: int, width: int, height: int)
    requires
        holds(f, p, mp4::tkhd(id, width, height)),
        0 <= id <= u32::MAX,
        0 <= width <= u16::MAX,
        0 <= height <= u16::MAX,
    ensures
        mp4::tkhd(id, width, height).len() == 92,
        u32_at(f, p) == 92,
        u32_at(f, p + 4) == name('t', 'k', 'h', 'd'),
        u32_at(f, p + 8 + 12) == id,
        u32_at(f, p + 8 + 76) == width * 0x1_0000,
        u32_at(f, p + 8 + 80) == height * 0x1_0000,
{
    let s0 = mp4::be32(3) + mp4::zeros(8);
    let s1 = s0 + mp4::be32(id);
    let rest = mp4::zeros(4) + mp4::be32(1) + mp4::zeros(8) + mp4::zeros(4) + mp4::zeros(4)
        + mp4::be32(0x1_0000) + mp4::zeros(8) + mp4::be32(0x1_0000) + mp4::zeros(12) + mp4::be32(
        0x4000_0000,
    ) + mp4::zeros(4);
    let s2 = s1 + rest;
    let s3 = s2 + mp4::be32(width * 0x1_0000);
    let s4 = s3 + mp4::be32(height * 0x1_0000);
    assert(mp4::tkhd(id, width, height) =~= mp4::boxed(mp4::TKHD@, s4));
    lemma_box(f, p, mp4::TKHD@, s4);
    lemma_parts(f, p + 8, s3, mp4::be32(height * 0x1_0000));
    lemma_parts(f, p + 8, s2, mp4::be32(width * 0x1_0000));
    lemma_parts(f, p + 8, s1, rest);
    lemma_parts(f, p + 8, s0, mp4::be32(id));
    lemma_u32(f, p + 8 + 12, id);
    lemma_u32(f, p + 8 + 76, width * 0x1_0000);
    lemma_u32(f, p + 8 + 80, height * 0x1_0000);
}

proof fn lemma_edits(f: Seq<u8>, p: int, duration: int)
    requires
        holds(f, p, mp4::boxed(mp4::EDTS@, mp4::elst(duration))),
        0 <= duration <= u32::MAX,
    ensures
        mp4::elst(duration).len() == 28,
        u32_at(f, p) == 36,
        u32_at(f, p + 4) == name('e', 'd', 't', 's'),
        child(f, p, name('e', 'l', 's', 't')) == p + 8,
        u32_at(f, p + 20) == 1,
        u32_at(f, p + 24) == duration,
        u32_at(f, p + 28) == 0,
        u32_at(f, p + 32) == 0x1_0000,
{
    let s = mp4::boxed(mp4::EDTS@, mp4::elst(duration));
    assert(s.subrange(0, 4) =~= mp4::be32(36));
    assert(s.subrange(4, 8) =~= mp4::be32(name('e', 'd', 't', 's')));
    assert(s.subrange(8, 12) =~= mp4::be32(28));
    assert(s.subrange(12, 16) =~= mp4::be32(name('e', 'l', 's', 't')));
    assert(s.subrange(20, 24) =~= mp4::be32(1));
    assert(s.subrange(24, 28) =~= mp4::be32(duration));
    assert(s.subrange(28, 32) =~= mp4::be32(0));
    assert(s.subrange(32, 36) =~= mp4::be32(0x1_0000));
    lemma_number(f, p, s, 0, 36);
    lemma_number(f, p, s, 4, name('e', 'd', 't', 's'));
    lemma_number(f, p, s, 8, 28);
    lemma_number(f, p, s, 12, name('e', 'l', 's', 't'));
    lemma_number(f, p, s, 20, 1);
    lemma_number(f, p, s, 24, duration);
    lemma_number(f, p, s, 28, 0);
    lemma_number(f, p, s, 32, 0x1_0000);
}

proof fn lemma_media_header(f: Seq<u8>, p: int, timescale: int, duration: int)
    requires
        holds(f, p, mp4::mdhd(timescale, duration)),
        0 <= timescale <= u32::MAX,
        0 <= duration <= u32::MAX,
    ensures
        mp4::mdhd(timescale, duration).len() == 32,
        u32_at(f, p) == 32,
        u32_at(f, p + 4) == name('m', 'd', 'h', 'd'),
        u32_at(f, p + 20) == timescale,
        u32_at(f, p + 24) == duration,
{
    let s = mp4::mdhd(timescale, duration);
    assert(s.subrange(0, 4) =~= mp4::be32(32));
    assert(s.subrange(4, 8) =~= mp4::be32(name('m', 'd', 'h', 'd')));
    assert(s.subrange(20, 24) =~= mp4::be32(timescale));
    assert(s.subrange(24, 28) =~= mp4::be32(duration));
    lemma_number(f, p, s, 0, 32);
    lemma_number(f, p, s, 4, name('m', 'd', 'h', 'd'));
    lemma_number(f, p, s, 20, timescale);
    lemma_number(f, p, s, 24, duration);
}

proof fn lemma_handler(f: Seq<u8>, p: int)
    requires
        holds(f, p, mp4::hdlr()),
    ensures
        mp4::hdlr().len() == 45,
        u32_at(f, p) == 45,
        u32_at(f, p + 4) == name('h', 'd', 'l', 'r'),
        u32_at(f, p + 16) == name('v', 'i', 'd', 'e'),
{
    let s = mp4::hdlr();
    assert(s.subrange(0, 4) =~= mp4::be32(45));
    assert(s.subrange(4, 8) =~= mp4::be32(name('h', 'd', 'l', 'r')));
    assert(s.subrange(16, 20) =~= mp4::be32(name('v', 'i', 'd', 'e')));
    lemma_number(f, p, s, 0, 45);
    lemma_number(f, p, s, 4, name('h', 'd', 'l', 'r'));
    lemma_number(f, p, s, 16, name('v', 'i', 'd', 'e'));
}

proof fn lemma_durations(f: Seq<u8>, p: int, n: int, delta: int)
    requires
        holds(f, p, mp4::stts(n, delta)),
        0 <= n <= u32::MAX,
        0 <= delta <= u32::MAX,
    ensures
        mp4::stts(n, delta).len() == 24,
        u32_at(f, p) == 24,
        u32_at(f, p + 4) == name('s', 't', 't', 's'),
        u32_at(f, p + 12) == 1,
        u32_at(f, p + 16) == n,
        u32_at(f, p + 20) == delta,
{
    let s = mp4::stts(n, delta);
    assert(s.subrange(0, 4) =~= mp4::be32(24));
    assert(s.subrange(4, 8) =~= mp4::be32(name('s', 't', 't', 's')));
    assert(s.subrange(12, 16) =~= mp4::be32(1));
    assert(s.subrange(16, 20) =~= mp4::be32(n));
    assert(s.subrange(20, 24) =~= mp4::be32(delta));
    lemma_number(f, p, s, 0, 24);
    lemma_number(f, p, s, 4, name('s', 't', 't', 's'));
    lemma_number(f, p, s, 12, 1);
    lemma_number(f, p, s, 16, n);
    lemma_number(f, p, s, 20, delta);
}

proof fn lemma_chunks(f: Seq<u8>, p: int)
    requires
        holds(f, p, mp4::stsc()),
    ensures
        mp4::stsc().len() == 28,
        u32_at(f, p) == 28,
        u32_at(f, p + 4) == name('s', 't', 's', 'c'),
        u32_at(f, p + 12) == 1,
        u32_at(f, p + 16) == 1,
        u32_at(f, p + 20) == 1,
        u32_at(f, p + 24) == 1,
{
    let s = mp4::stsc();
    assert(s.subrange(0, 4) =~= mp4::be32(28));
    assert(s.subrange(4, 8) =~= mp4::be32(name('s', 't', 's', 'c')));
    assert(s.subrange(12, 16) =~= mp4::be32(1));
    assert(s.subrange(16, 20) =~= mp4::be32(1));
    assert(s.subrange(20, 24) =~= mp4::be32(1));
    assert(s.subrange(24, 28) =~= mp4::be32(1));
    lemma_number(f, p, s, 0, 28);
    lemma_number(f, p, s, 4, name('s', 't', 's', 'c'));
    lemma_number(f, p, s, 12, 1);
    lemma_number(f, p, s, 16, 1);
    lemma_number(f, p, s, 20, 1);
    lemma_number(f, p, s, 24, 1);
}

proof fn lemma_numbers_len(v: Seq<u32>, k: int)
    requires
        0 <= k <= v.len(),
    ensures
        mp4::numbers(v, k).len() == 4 * (v.len() - k),
    decreases v.len() - k,
{
    if k < v.len() {
        lemma_numbers_len(v, k + 1);
    }
}

proof fn lemma_numbers(f: Seq<u8>, p: int, v: Seq<u32>, k: int, i: int)
    requires
        holds(f, p, mp4::numbers(v, k)),
        0 <= k <= i < v.len(),
    ensures
        u32_at(f, p + 4 * (i - k)) == v[i],
    decreases i - k,
{
    lemma_parts(f, p, mp4::be32(v[k] as int), mp4::numbers(v, k + 1));
    if k < i {
        lemma_numbers(f, p + 4, v, k + 1, i);
    } else {
        lemma_u32(f, p, v[k] as int);
    }
}

proof fn lemma_sizes(f: Seq<u8>, p: int, v: Seq<u32>)
    requires
        holds(f, p, mp4::stsz(v)),
        v.len() <= 0x1000_0000,
    ensures
        mp4::stsz(v).len() == 20 + 4 * v.len(),
        u32_at(f, p) == 20 + 4 * v.len(),
        u32_at(f, p + 4) == name('s', 't', 's', 'z'),
        u32_at(f, p + 12) == 0,
        u32_at(f, p + 16) == v.len(),
        forall|i: int| 0 <= i < v.len() ==> u32_at(f, p + 20 + 4 * i) == #[trigger] v[i],
{
    lemma_numbers_len(v, 0);
    let head = mp4::zeros(4) + mp4::be32(0) + mp4::be32(v.len() as int);
    assert(Seq::<u8>::empty() + mp4::zeros(4) =~= mp4::zeros(4));
    lemma_box(f, p, mp4::STSZ@, head + mp4::numbers(v, 0));
    lemma_parts(f, p + 8, head, mp4::numbers(v, 0));
    lemma_parts(f, p + 8, mp4::zeros(4) + mp4::be32(0), mp4::be32(v.len() as int));
    lemma_parts(f, p + 8, mp4::zeros(4), mp4::be32(0));
    lemma_u32(f, p + 12, 0);
    lemma_u32(f, p + 16, v.len() as int);
    assert forall|i: int| 0 <= i < v.len() implies u32_at(f, p + 20 + 4 * i) == #[trigger] v[i] by {
        lemma_numbers(f, p + 20, v, 0, i);
    }
}

proof fn lemma_offsets(f: Seq<u8>, p: int, v: Seq<u32>)
    requires
        holds(f, p, mp4::stco(v)),
        v.len() <= 0x1000_0000,
    ensures
        mp4::stco(v).len() == 16 + 4 * v.len(),
        u32_at(f, p) == 16 + 4 * v.len(),
        u32_at(f, p + 4) == name('s', 't', 'c', 'o'),
        u32_at(f, p + 12) == v.len(),
        forall|i: int| 0 <= i < v.len() ==> u32_at(f, p + 16 + 4 * i) == #[trigger] v[i],
{
    lemma_numbers_len(v, 0);
    let head = mp4::zeros(4) + mp4::be32(v.len() as int);
    assert(Seq::<u8>::empty() + mp4::zeros(4) =~= mp4::zeros(4));
    lemma_box(f, p, mp4::STCO@, head + mp4::numbers(v, 0));
    lemma_parts(f, p + 8, head, mp4::numbers(v, 0));
    lemma_parts(f, p + 8, mp4::zeros(4), mp4::be32(v.len() as int));
    lemma_u32(f, p + 12, v.len() as int);
    assert forall|i: int| 0 <= i < v.len() implies u32_at(f, p + 16 + 4 * i) == #[trigger] v[i] by {
        lemma_numbers(f, p + 16, v, 0, i);
    }
}

proof fn lemma_description(f: Seq<u8>, p: int, entry: Seq<u8>)
    requires
        holds(f, p, mp4::stsd(entry)),
        entry.len() <= 0xffff,
    ensures
        mp4::stsd(entry).len() == entry.len() + 20,
        u32_at(f, p) == entry.len() + 20,
        u32_at(f, p + 4) == name('s', 't', 's', 'd'),
        u32_at(f, p + 12) == 1,
        u32_at(f, p + 16) == entry.len() + 4,
        holds(f, p + 20, entry),
{
    reveal(mp4::stsd);
    let s = mp4::stsd(entry);
    assert(s.subrange(0, 4) =~= mp4::be32(entry.len() as int + 20));
    assert(s.subrange(4, 8) =~= mp4::be32(name('s', 't', 's', 'd')));
    assert(s.subrange(12, 16) =~= mp4::be32(1));
    assert(s.subrange(16, 20) =~= mp4::be32(entry.len() as int + 4));
    lemma_number(f, p, s, 0, entry.len() as int + 20);
    lemma_number(f, p, s, 4, name('s', 't', 's', 'd'));
    lemma_number(f, p, s, 12, 1);
    lemma_number(f, p, s, 16, entry.len() as int + 4);
    assert(s =~= s.subrange(0, 20) + entry);
    lemma_parts(f, p, s.subrange(0, 20), entry);
}

proof fn lemma_entry(f: Seq<u8>, p: int, code: Seq<u8>, width: int, height: int)
    requires
        holds(f, p, mp4::visual_entry(code, width, height)),
        code.len() == 4,
        0 <= width <= u16::MAX,
        0 <= height <= u16::MAX,
    ensures
        mp4::visual_entry(code, width, height).len() == 82,
        u32_at(f, p) == code[0] * 0x100_0000 + code[1] * 0x1_0000 + code[2] * 0x100 + code[3],
        u16_at(f, p + 4 + 6) == 1,
        u16_at(f, p + 4 + 24) == width,
        u16_at(f, p + 4 + 26) == height,
{
    reveal(u16_at);
    reveal(u32_at);
    reveal(holds);
    let head = code + mp4::zeros(7);
    let ahead = head.push(1) + mp4::zeros(4) + mp4::zeros(12);
    let sized = ahead + mp4::be16(width);
    let upto = sized + mp4::be16(height);
    let rest = mp4::be32(0x0048_0000) + mp4::be32(0x0048_0000) + mp4::zeros(4) + mp4::be16(1)
        + mp4::zeros(32) + mp4::be16(0x0018) + mp4::be16(0xffff);
    assert(Seq::<u8>::empty() + code =~= code);
    assert(mp4::visual_entry(code, width, height) =~= upto + rest);
    lemma_parts(f, p, upto, rest);
    lemma_parts(f, p, sized, mp4::be16(height));
    lemma_parts(f, p, ahead, mp4::be16(width));
    lemma_u16(f, p + 28, width);
    lemma_u16(f, p + 30, height);
    assert(f[p + 0] == ahead[0] && f[p + 1] == ahead[1] && f[p + 2] == ahead[2] && f[p + 3]
        == ahead[3]);
    assert(f[p + 10] == ahead[10] && f[p + 11] == ahead[11]);
}

proof fn lemma_skip(f: Seq<u8>, p: int, end: int, code: int)
    requires
        u32_at(f, p) >= 8,
        box_end(f, p) <= end,
        u32_at(f, p + 4) != code,
    ensures
        find(f, p, end, code) == find(f, box_end(f, p), end, code),
{
}

/// The places of five boxes in a box.
proof fn lemma_five(
    f: Seq<u8>,
    p: int,
    code: Seq<u8>,
    a: Seq<u8>,
    b: Seq<u8>,
    c: Seq<u8>,
    d: Seq<u8>,
    e: Seq<u8>,
)
    requires
        holds(f, p, mp4::boxed(code, Seq::<u8>::empty() + a + b + c + d + e)),
        code.len() == 4,
        a.len() + b.len() + c.len() + d.len() + e.len() + 8 <= u32::MAX,
    ensures
        u32_at(f, p) == a.len() + b.len() + c.len() + d.len() + e.len() + 8,
        u32_at(f, p + 4) == code[0] * 0x100_0000 + code[1] * 0x1_0000 + code[2] * 0x100 + code[3],
        holds(f, p + 8, a),
        holds(f, p + 8 + a.len(), b),
        holds(f, p + 8 + a.len() + b.len(), c),
        holds(f, p + 8 + a.len() + b.len() + c.len(), d),
        holds(f, p + 8 + a.len() + b.len() + c.len() + d.len(), e),
{
    assert(Seq::<u8>::empty() + a =~= a);
    lemma_box(f, p, code, a + b + c + d + e);
    lemma_parts(f, p + 8, a + b + c + d, e);
    lemma_parts(f, p + 8, a + b + c, d);
    lemma_parts(f, p + 8, a + b, c);
    lemma_parts(f, p + 8, a, b);
}

/// The places of three boxes in a box.
proof fn lemma_three(f: Seq<u8>, p: int, code: Seq<u8>, a: Seq<u8>, b: Seq<u8>, c: Seq<u8>)
    requires
        holds(f, p, mp4::boxed(code, Seq::<u8>::empty() + a + b + c)),
        code.len() == 4,
        a.len() + b.len() + c.len() + 8 <= u32::MAX,
    ensures
        u32_at(f, p) == a.len() + b.len() + c.len() + 8,
        u32_at(f, p + 4) == code[0] * 0x100_0000 + code[1] * 0x1_0000 + code[2] * 0x100 + code[3],
        holds(f, p + 8, a),
        holds(f, p + 8 + a.len(), b),
        holds(f, p + 8 + a.len() + b.len(), c),
{
    assert(Seq::<u8>::empty() + a =~= a);
    lemma_box(f, p, code, a + b + c);
    lemma_parts(f, p + 8, a + b, c);
    lemma_parts(f, p + 8, a, b);
}

/// The lengths of the boxes of a sample table.
proof fn lemma_table_lengths(t: mp4::TrackModel, entry: Seq<u8>)
    requires
        t.description == mp4::stsd(entry),
        t.sizes.len() == t.offsets.len(),
    ensures
        t.description.len() == entry.len() + 20,
        mp4::stts(t.sizes.len() as int, t.delta).len() == 24,
        mp4::stsc().len() == 28,
        mp4::stsz(t.sizes).len() == 20 + 4 * t.sizes.len(),
        mp4::stco(t.offsets).len() == 16 + 4 * t.sizes.len(),
        mp4::stbl(t).len() == entry.len() + 8 * t.sizes.len() + 116,
{
    reveal(mp4::stsd);
    lemma_numbers_len(t.sizes, 0);
    lemma_numbers_len(t.offsets, 0);
}

/// Five boxes in a row, by their sizes and codes.
proof fn lemma_five_found(f: Seq<u8>, p: int, d: int, n: int)
    requires
        n >= 0,
        d >= 20,
        u32_at(f, p) == 96 + d + 8 * n,
        u32_at(f, p + 8) == d,
        u32_at(f, p + 12) == name('s', 't', 's', 'd'),
        u32_at(f, p + 8 + d) == 24,
        u32_at(f, p + 12 + d) == name('s', 't', 't', 's'),
        u32_at(f, p + 32 + d) == 28,
        u32_at(f, p + 36 + d) == name('s', 't', 's', 'c'),
        u32_at(f, p + 60 + d) == 20 + 4 * n,
        u32_at(f, p + 64 + d) == name('s', 't', 's', 'z'),
        u32_at(f, p + 80 + d + 4 * n) == 16 + 4 * n,
        u32_at(f, p + 84 + d + 4 * n) == name('s', 't', 'c', 'o'),
    ensures
        child(f, p, name('s', 't', 's', 'd')) == p + 8,
        child(f, p, name('s', 't', 't', 's')) == p + 8 + d,
        child(f, p, name('s', 't', 's', 'c')) == p + 32 + d,
        child(f, p, name('s', 't', 's', 'z')) == p + 60 + d,
        child(f, p, name('s', 't', 'c', 'o')) == p + 80 + d + 4 * n,
{
    let q = p + 8 + d;
    let end = box_end(f, p);
    lemma_skip(f, p + 8, end, name('s', 't', 't', 's'));
    lemma_skip(f, p + 8, end, name('s', 't', 's', 'c'));
    lemma_skip(f, q, end, name('s', 't', 's', 'c'));
    lemma_skip(f, p + 8, end, name('s', 't', 's', 'z'));
    lemma_skip(f, q, end, name('s', 't', 's', 'z'));
    lemma_skip(f, q + 24, end, name('s', 't', 's', 'z'));
    lemma_skip(f, p + 8, end, name('s', 't', 'c', 'o'));
    lemma_skip(f, q, end, name('s', 't', 'c', 'o'));
    lemma_skip(f, q + 24, end, name('s', 't', 'c', 'o'));
    lemma_skip(f, q + 52, end, name('s', 't', 'c', 'o'));
}

/// What the boxes of a sample table are.
#[verifier::spinoff_prover]
#[verifier::rlimit(40)]
proof fn lemma_table(f: Seq<u8>, p: int, t: mp4::TrackModel, entry: Seq<u8>)
    requires
        holds(f, p, mp4::stbl(t)),
        t.description == mp4::stsd(entry),
        entry.len() <= 0xffff,
        t.sizes.len() == t.offsets.len(),
        t.sizes.len() <= 0x100_0000,
        0 <= t.delta <= u32::MAX,
    ensures
        ({
            let n = t.sizes.len() as int;
            let q = p + 28 + entry.len();
            &&& mp4::stbl(t).len() == entry.len() + 8 * n + 116
            &&& u32_at(f, p) == entry.len() + 8 * n + 116
            &&& u32_at(f, p + 4) == name('s', 't', 'b', 'l')
            &&& child(f, p, name('s', 't', 's', 'd')) == p + 8
            &&& u32_at(f, p + 20) == 1
            &&& u32_at(f, p + 24) == entry.len() + 4
            &&& holds(f, p + 28, entry)
            &&& child(f, p, name('s', 't', 't', 's')) == q
            &&& u32_at(f, q + 12) == 1
            &&& u32_at(f, q + 16) == n
            &&& u32_at(f, q + 20) == t.delta
            &&& child(f, p, name('s', 't', 's', 'c')) == q + 24
            &&& u32_at(f, q + 36) == 1
            &&& u32_at(f, q + 40) == 1
            &&& u32_at(f, q + 44) == 1
            &&& u32_at(f, q + 48) == 1
            &&& child(f, p, name('s', 't', 's', 'z')) == q + 52
            &&& u32_at(f, q + 64) == 0
            &&& u32_at(f, q + 68) == n
            &&& forall|i: int| 0 <= i < n ==> u32_at(f, q + 72 + 4 * i) == #[trigger] t.sizes[i]
            &&& child(f, p, name('s', 't', 'c', 'o')) == q + 72 + 4 * n
            &&& u32_at(f, q + 84 + 4 * n) == n
            &&& forall|i: int|
                0 <= i < n ==> u32_at(f, q + 88 + 4 * n + 4 * i) == #[trigger] t.offsets[i]
        }),
{
    let n = t.sizes.len() as int;
    let q = p + 28 + entry.len();
    lemma_table_lengths(t, entry);
    lemma_five(
        f,
        p,
        mp4::STBL@,
        t.description,
        mp4::stts(n, t.delta),
        mp4::stsc(),
        mp4::stsz(t.sizes),
        mp4::stco(t.offsets),
    );
    lemma_description(f, p + 8, entry);
    lemma_durations(f, q, n, t.delta);
    lemma_chunks(f, q + 24);
    lemma_sizes(f, q + 52, t.sizes);
    lemma_offsets(f, q + 72 + 4 * n, t.offsets);
    lemma_five_found(f, p, entry.len() as int + 20, n);
}

/// The video media header and the data reference, by their sizes and codes.
proof fn lemma_plain_boxes(f: Seq<u8>, p: int)
    requires
        holds(f, p, mp4::vmhd()),
        holds(f, p + 20, mp4::dinf()),
    ensures
        u32_at(f, p) == 20,
        u32_at(f, p + 4) == name('v', 'm', 'h', 'd'),
        u32_at(f, p + 20) == 36,
        u32_at(f, p + 24) == name('d', 'i', 'n', 'f'),
{
    let s = mp4::vmhd();
    assert(s.subrange(0, 4) =~= mp4::be32(20));
    assert(s.subrange(4, 8) =~= mp4::be32(name('v', 'm', 'h', 'd')));
    lemma_number(f, p, s, 0, 20);
    lemma_number(f, p, s, 4, name('v', 'm', 'h', 'd'));
    let s = mp4::dinf();
    assert(s.subrange(0, 4) =~= mp4::be32(36));
    assert(s.subrange(4, 8) =~= mp4::be32(name('d', 'i', 'n', 'f')));
    lemma_number(f, p + 20, s, 0, 36);
    lemma_number(f, p + 20, s, 4, name('d', 'i', 'n', 'f'));
}

/// The lengths of the boxes of the media of a track.
proof fn lemma_media_lengths(t: mp4::TrackModel)
    ensures
        mp4::mdhd(12800, t.duration).len() == 32,
        mp4::hdlr().len() == 45,
        mp4::vmhd().len() == 20,
        mp4::dinf().len() == 36,
        mp4::mdia(t).len() == mp4::stbl(t).len() + 149,
{
}

/// A track that can be described in boxes.
spec fn track_fits(t: mp4::TrackModel, entry: Seq<u8>) -> bool {
    &&& t.description == mp4::stsd(entry)
    &&& entry.len() <= 0xffff
    &&& t.sizes.len() == t.offsets.len()
    &&& t.sizes.len() <= 0x100_0000
    &&& 0 <= t.delta <= u32::MAX
    &&& 0 <= t.duration <= u32::MAX
}

/// What the boxes of the media of a track are.
#[verifier::spinoff_prover]
#[verifier::rlimit(40)]
proof fn lemma_media(f: Seq<u8>, p: int, t: mp4::TrackModel, entry: Seq<u8>)
    requires
        holds(f, p, mp4::mdia(t)),
        track_fits(t, entry),
    ensures
        mp4::mdia(t).len() == entry.len() + 8 * t.sizes.len() + 265,
        u32_at(f, p) == mp4::mdia(t).len(),
        u32_at(f, p + 4) == name('m', 'd', 'i', 'a'),
        child(f, p, name('m', 'd', 'h', 'd')) == p + 8,
        u32_at(f, p + 28) == 12800,
        u32_at(f, p + 32) == t.duration,
        child(f, p, name('h', 'd', 'l', 'r')) == p + 40,
        u32_at(f, p + 56) == name('v', 'i', 'd', 'e'),
        child(f, p, name('m', 'i', 'n', 'f')) == p + 85,
        child(f, p + 85, name('s', 't', 'b', 'l')) == p + 149,
        holds(f, p + 149, mp4::stbl(t)),
{
    let m = Seq::<u8>::empty() + mp4::vmhd() + mp4::dinf() + mp4::stbl(t);
    lemma_media_lengths(t);
    lemma_table_lengths(t, entry);
    lemma_three(
        f,
        p,
        mp4::MDIA@,
        mp4::mdhd(12800, t.duration),
        mp4::hdlr(),
        mp4::boxed(mp4::MINF@, m),
    );
    lemma_media_header(f, p + 8, 12800, t.duration);
    lemma_handler(f, p + 40);
    lemma_three(f, p + 85, mp4::MINF@, mp4::vmhd(), mp4::dinf(), mp4::stbl(t));
    lemma_plain_boxes(f, p + 93);
    lemma_table(f, p + 149, t, entry);
    let end = box_end(f, p);
    lemma_skip(f, p + 8, end, name('h', 'd', 'l', 'r'));
    lemma_skip(f, p + 8, end, name('m', 'i', 'n', 'f'));
    lemma_skip(f, p + 40, end, name('m', 'i', 'n', 'f'));
    let end = box_end(f, p + 85);
    lemma_skip(f, p + 93, end, name('s', 't', 'b', 'l'));
    lemma_skip(f, p + 113, end, name('s', 't', 'b', 'l'));
}

/// The places of four boxes in a box.
proof fn lemma_four(
    f: Seq<u8>,
    p: int,
    code: Seq<u8>,
    a: Seq<u8>,
    b: Seq<u8>,
    c: Seq<u8>,
    d: Seq<u8>,
)
    requires
        holds(f, p, mp4::boxed(code, Seq::<u8>::empty() + a + b + c + d)),
        code.len() == 4,
        a.len() + b.len() + c.len() + d.len() + 8 <= u32::MAX,
    ensures
        u32_at(f, p) == a.len() + b.len() + c.len() + d.len() + 8,
        u32_at(f, p + 4) == code[0] * 0x100_0000 + code[1] * 0x1_0000 + code[2] * 0x100 + code[3],
        holds(f, p + 8, a),
        holds(f, p + 8 + a.len(), b),
        holds(f, p + 8 + a.len() + b.len(), c),
        holds(f, p + 8 + a.len() + b.len() + c.len(), d),
{
    assert(Seq::<u8>::empty() + a =~= a);
    lemma_box(f, p, code, a + b + c + d);
    lemma_parts(f, p + 8, a + b + c, d);
    lemma_parts(f, p + 8, a + b, c);
    lemma_parts(f, p + 8, a, b);
}

/// A reference to the first track.
spec fn reference() -> Seq<u8> {
    mp4::boxed(mp4::TREF@, mp4::be32(12) + mp4::SBAS@ + mp4::be32(1))
}

proof fn lemma_reference(f: Seq<u8>, p: int)
    requires
        holds(f, p, reference()),
    ensures
        reference().len() == 20,
        u32_at(f, p) == 20,
        u32_at(f, p + 4) == name('t', 'r', 'e', 'f'),
        child(f, p, name('s', 'b', 'a', 's')) == p + 8,
        u32_at(f, p + 8) == 12,
        u32_at(f, p + 16) == 1,
{
    let s = reference();
    assert(s.subrange(0, 4) =~= mp4::be32(20));
    assert(s.subrange(4, 8) =~= mp4::be32(name('t', 'r', 'e', 'f')));
    assert(s.subrange(8, 12) =~= mp4::be32(12));
    assert(s.subrange(12, 16) =~= mp4::be32(name('s', 'b', 'a', 's')));
    assert(s.subrange(16, 20) =~= mp4::be32(1));
    lemma_number(f, p, s, 0, 20);
    lemma_number(f, p, s, 4, name('t', 'r', 'e', 'f'));
    lemma_number(f, p, s, 8, 12);
    lemma_number(f, p, s, 12, name('s', 'b', 'a', 's'));
    lemma_number(f, p, s, 16, 1);
}

/// The lengths of the boxes of a track.
proof fn lemma_track_lengths(id: int, width: int, height: int, duration: int)
    ensures
        mp4::tkhd(id, width, height).len() == 92,
        mp4::boxed(mp4::EDTS@, mp4::elst(duration)).len() == 36,
        reference().len() == 20,
{
}

/// What the boxes of a track are.
#[verifier::spinoff_prover]
#[verifier::rlimit(40)]
proof fn lemma_track(
    f: Seq<u8>,
    p: int,
    id: int,
    width: int,
    height: int,
    duration: int,
    refers: bool,
    t: mp4::TrackModel,
    entry: Seq<u8>,
)
    requires
        holds(f, p, mp4::trak(id, width, height, duration, refers, t)),
        track_fits(t, entry),
        0 <= id <= u32::MAX,
        0 <= width <= u16::MAX,
        0 <= height <= u16::MAX,
        0 <= duration <= u32::MAX,
    ensures
        ({
            let m = if refers {
                p + 156
            } else {
                p + 136
            };
            &&& u32_at(f, p) == m - p + mp4::mdia(t).len()
            &&& u32_at(f, p + 4) == name('t', 'r', 'a', 'k')
            &&& header_of(f, p) == p + 8
            &&& u32_at(f, p + 28) == id
            &&& u32_at(f, p + 92) == width * 0x1_0000
            &&& u32_at(f, p + 96) == height * 0x1_0000
            &&& edits_of(f, p) == p + 108
            &&& u32_at(f, p + 120) == 1
            &&& u32_at(f, p + 124) == duration
            &&& u32_at(f, p + 128) == 0
            &&& u32_at(f, p + 132) == 0x1_0000
            &&& refers ==> child(f, p, name('t', 'r', 'e', 'f')) == p + 136 && child(
                f,
                p + 136,
                name('s', 'b', 'a', 's'),
            ) == p + 144 && u32_at(f, p + 144) == 12 && u32_at(f, p + 152) == 1
            &&& media_of(f, p) == m
            &&& holds(f, m, mp4::mdia(t))
        }),
{
    let a = mp4::tkhd(id, width, height);
    let b = mp4::boxed(mp4::EDTS@, mp4::elst(duration));
    lemma_track_lengths(id, width, height, duration);
    lemma_media_lengths(t);
    lemma_table_lengths(t, entry);
    if refers {
        lemma_four(f, p, mp4::TRAK@, a, b, reference(), mp4::mdia(t));
    } else {
        lemma_three(f, p, mp4::TRAK@, a, b, mp4::mdia(t));
    }
    lemma_header(f, p + 8, id, width, height);
    lemma_edits(f, p + 100, duration);
    let end = box_end(f, p);
    lemma_skip(f, p + 8, end, name('e', 'd', 't', 's'));
    lemma_skip(f, p + 8, end, name('t', 'r', 'e', 'f'));
    lemma_skip(f, p + 8, end, name('m', 'd', 'i', 'a'));
    lemma_skip(f, p + 100, end, name('t', 'r', 'e', 'f'));
    lemma_skip(f, p + 100, end, name('m', 'd', 'i', 'a'));
    if refers {
        lemma_reference(f, p + 136);
        lemma_skip(f, p + 136, end, name('m', 'd', 'i', 'a'));
        lemma_media(f, p + 156, t, entry);
    } else {
        lemma_media(f, p + 136, t, entry);
    }
}

proof fn lemma_base_entry(
    f: Seq<u8>,
    e: int,
    width: int,
    height: int,
    colour: Option<ColourInfo>,
)
    requires
        holds(f, e + 4, mp4::vvc_entry(width, height, colour)),
        u32_at(f, e) == mp4::vvc_entry(width, height, colour).len() + 4,
        0 <= width <= u16::MAX,
        0 <= height <= u16::MAX,
    ensures
        u32_at(f, e + 4) == name('v', 'v', 'c', '1'),
        u16_at(f, e + 8 + 6) == 1,
        u16_at(f, e + 8 + 24) == width,
        u16_at(f, e + 8 + 26) == height,
        colour matches Some(c) ==> {
            let k = find(f, e + 86, box_end(f, e), name('c', 'o', 'l', 'r'));
            &&& k == e + 98
            &&& u32_at(f, k + 8) == name('n', 'c', 'l', 'x')
            &&& u16_at(f, k + 12) == c.primaries
            &&& u16_at(f, k + 14) == c.transfer
            &&& u16_at(f, k + 16) == c.matrix
            &&& f[k + 18] == (if c.full_range {
                0x80u8
            } else {
                0u8
            })
        },
{
    reveal(mp4::vvc_entry);
    let v = mp4::visual_entry(mp4::VVC1@, width, height);
    let vc = mp4::be32(12) + mp4::VVCC@ + mp4::zeros(4);
    let rate = mp4::btrt(15, 0x69_92aa, 0x69_92aa);
    assert(v.len() == 82);
    assert(vc.len() == 12);
    assert(v + mp4::be32(12) + mp4::VVCC@ + mp4::zeros(4) =~= v + vc);
    match colour {
        Some(c) => {
            lemma_parts(f, e + 4, v + vc + mp4::colr(c), rate);
            lemma_parts(f, e + 4, v + vc, mp4::colr(c));
            lemma_parts(f, e + 4, v, vc);
            lemma_colours(f, e + 98, c);
            lemma_codec(f, e + 86);
            assert(rate.len() == 20);
            lemma_skip(f, e + 86, box_end(f, e), name('c', 'o', 'l', 'r'));
        },
        None => {
            lemma_parts(f, e + 4, v + vc, rate);
            lemma_parts(f, e + 4, v, vc);
        },
    }
    lemma_entry(f, e + 4, mp4::VVC1@, width, height);
}

proof fn lemma_codec(f: Seq<u8>, p: int)
    requires
        holds(f, p, mp4::be32(12) + mp4::VVCC@ + mp4::zeros(4)),
    ensures
        u32_at(f, p) == 12,
        u32_at(f, p + 4) == name('v', 'v', 'c', 'C'),
{
    let s = mp4::be32(12) + mp4::VVCC@ + mp4::zeros(4);
    assert(s.subrange(0, 4) =~= mp4::be32(12));
    assert(s.subrange(4, 8) =~= mp4::be32(name('v', 'v', 'c', 'C')));
    lemma_number(f, p, s, 0, 12);
    lemma_number(f, p, s, 4, name('v', 'v', 'c', 'C'));
}

proof fn lemma_colours(f: Seq<u8>, p: int, c: ColourInfo)
    requires
        holds(f, p, mp4::colr(c)),
    ensures
        mp4::colr(c).len() == 19,
        u32_at(f, p) == 19,
        u32_at(f, p + 4) == name('c', 'o', 'l', 'r'),
        u32_at(f, p + 8) == name('n', 'c', 'l', 'x'),
        u16_at(f, p + 12) == c.primaries,
        u16_at(f, p + 14) == c.transfer,
        u16_at(f, p + 16) == c.matrix,
        f[p + 18] == (if c.full_range {
            0x80u8
        } else {
            0u8
        }),
{
    reveal(holds);
    let s = mp4::colr(c);
    assert(s.len() == 19);
    assert(s.subrange(0, 4) =~= mp4::be32(19));
    assert(s.subrange(4, 8) =~= mp4::be32(name('c', 'o', 'l', 'r')));
    assert(s.subrange(8, 12) =~= mp4::be32(name('n', 'c', 'l', 'x')));
    assert(s.subrange(12, 14) =~= mp4::be16(c.primaries as int));
    assert(s.subrange(14, 16) =~= mp4::be16(c.transfer as int));
    assert(s.subrange(16, 18) =~= mp4::be16(c.matrix as int));
    assert(f[p + 18] == s[18]);
    lemma_number(f, p, s, 0, 19);
    lemma_number(f, p, s, 4, name('c', 'o', 'l', 'r'));
    lemma_number(f, p, s, 8, name('n', 'c', 'l', 'x'));
    lemma_short(f, p, s, 12, c.primaries as int);
    lemma_short(f, p, s, 14, c.transfer as int);
    lemma_short(f, p, s, 16, c.matrix as int);
}

proof fn lemma_enhancement_entry(f: Seq<u8>, e: int, width: int, height: int)
    requires
        holds(f, e + 4, mp4::lcevc_entry(width, height)),
        u32_at(f, e) == mp4::lcevc_entry(width, height).len() + 4,
        0 <= width <= u16::MAX,
        0 <= height <= u16::MAX,
    ensures
        u32_at(f, e + 4) == name('l', 'v', 'c', '1'),
        u16_at(f, e + 8 + 6) == 1,
        u16_at(f, e + 8 + 24) == width,
        u16_at(f, e + 8 + 26) == height,
        find(f, e + 86, box_end(f, e), name('l', 'v', 'c', 'C')) == e + 86,
        f[e + 94] == 1,
        f[e + 98] == 0xC0,
{
    reveal(mp4::lcevc_entry);
    let v = mp4::visual_entry(mp4::LVC1@, width, height);
    let lc = (mp4::be32(14) + mp4::LVCC@).push(1) + mp4::zeros(3);
    let lc = lc.push(0xC0) + mp4::zeros(9);
    let rate = mp4::btrt(0, 0x1922_c555, 0x1922_c555);
    assert(v.len() == 82);
    let parts = ((v + mp4::be32(14) + mp4::LVCC@).push(1) + mp4::zeros(3)).push(0xC0)
        + mp4::zeros(9);
    assert(parts =~= v + lc);
    lemma_parts(f, e + 4, v + lc, rate);
    lemma_parts(f, e + 4, v, lc);
    lemma_entry(f, e + 4, mp4::LVC1@, width, height);
    lemma_enhancement_codec(f, e + 86, lc);
}

proof fn lemma_enhancement_codec(f: Seq<u8>, p: int, s: Seq<u8>)
    requires
        holds(f, p, s),
        s == ((mp4::be32(14) + mp4::LVCC@).push(1) + mp4::zeros(3)).push(0xC0) + mp4::zeros(9),
    ensures
        u32_at(f, p) == 14,
        u32_at(f, p + 4) == name('l', 'v', 'c', 'C'),
        f[p + 8] == 1,
        f[p + 12] == 0xC0,
{
    reveal(holds);
    assert(s.subrange(0, 4) =~= mp4::be32(14));
    assert(s.subrange(4, 8) =~= mp4::be32(name('l', 'v', 'c', 'C')));
    assert(f[p + 8] == s[8] && f[p + 12] == s[12]);
    lemma_number(f, p, s, 0, 14);
    lemma_number(f, p, s, 4, name('l', 'v', 'c', 'C'));
}

/// A file is its head, its media and its movie box, one behind the other.
proof fn lemma_boxes_of_file(f: Seq<u8>, media: Seq<u8>, moov: Seq<u8>)
    requires
        f == mp4::file_head() + mp4::boxed(mp4::MDAT@, media) + moov,
        media.len() + 8 <= u32::MAX,
    ensures
        u32_at(f, 0) == 28,
        u32_at(f, 4) == name('f', 't', 'y', 'p'),
        u32_at(f, 28) == 8,
        u32_at(f, 32) == name('f', 'r', 'e', 'e'),
        u32_at(f, 36) == media.len() + 8,
        u32_at(f, 40) == name('m', 'd', 'a', 't'),
        holds(f, 44 + media.len() as int, moov),
        f.len() == 44 + media.len() + moov.len(),
{
    let head = mp4::file_head();
    assert(head.len() == 36);
    assert(holds(f, 0, f)) by {
        reveal(holds);
    }
    lemma_parts(f, 0, head + mp4::boxed(mp4::MDAT@, media), moov);
    lemma_parts(f, 0, head, mp4::boxed(mp4::MDAT@, media));
    lemma_box(f, 36, mp4::MDAT@, media);
    assert(head.subrange(0, 4) =~= mp4::be32(28));
    assert(head.subrange(4, 8) =~= mp4::be32(name('f', 't', 'y', 'p')));
    assert(head.subrange(28, 32) =~= mp4::be32(8));
    assert(head.subrange(32, 36) =~= mp4::be32(name('f', 'r', 'e', 'e')));
    lemma_number(f, 0, head, 0, 28);
    lemma_number(f, 0, head, 4, name('f', 't', 'y', 'p'));
    lemma_number(f, 0, head, 28, 8);
    lemma_number(f, 0, head, 32, name('f', 'r', 'e', 'e'));
}

/// The tracks of a movie can be described in boxes.
proof fn lemma_tracks_fit(
    base: Seq<Seq<u8>>,
    enh: Seq<Seq<u8>>,
    width: int,
    height: int,
    fps: int,
    colour: Option<ColourInfo>,
)
    requires
        mp4::movie_fits(base, enh, fps),
        fps >= 0,
    ensures
        ({
            let n = mp4::frame_count(base, enh);
            &&& 0 <= n <= 0x100_0000
            &&& mp4::media(base, enh, n).len() + 44 <= u32::MAX
            &&& 0 <= mp4::movie_time(n, fps) <= u32::MAX
            &&& track_fits(
                mp4::base_track(base, enh, width, height, fps, colour),
                mp4::vvc_entry(width, height, colour),
            )
            &&& track_fits(
                mp4::enh_track(base, enh, width, height, fps),
                mp4::lcevc_entry(width, height),
            )
            &&& mp4::vvc_entry(width, height, colour).len() <= 200
            &&& mp4::lcevc_entry(width, height).len() <= 200
        }),
{
    let n = mp4::frame_count(base, enh);
    let by = if fps > 1 {
        fps
    } else {
        1
    };
    assert(0 <= n * 1000 / by <= n * 1000) by (nonlinear_arith)
        requires
            n >= 0,
            by >= 1,
    ;
    assert(0 <= 12800int / by <= 12800) by (nonlinear_arith)
        requires
            by >= 1,
    ;
    assert(n * mp4::frame_ticks(fps) >= 0) by (nonlinear_arith)
        requires
            n >= 0,
            mp4::frame_ticks(fps) >= 0,
    ;
    assert(mp4::file_head().len() == 36);
    reveal(mp4::vvc_entry);
    reveal(mp4::lcevc_entry);
}

/// The movie box and its tracks are found behind the media, by sizes and codes.
proof fn lemma_tracks_found(f: Seq<u8>, media: int, first: int, second: int)
    requires
        media >= 0,
        first >= 8,
        second >= 8,
        f.len() == 44 + media + 116 + first + second,
        u32_at(f, 0) == 28,
        u32_at(f, 4) == name('f', 't', 'y', 'p'),
        u32_at(f, 28) == 8,
        u32_at(f, 32) == name('f', 'r', 'e', 'e'),
        u32_at(f, 36) == media + 8,
        u32_at(f, 40) == name('m', 'd', 'a', 't'),
        u32_at(f, 44 + media) == 116 + first + second,
        u32_at(f, 48 + media) == name('m', 'o', 'o', 'v'),
        u32_at(f, 52 + media) == 108,
        u32_at(f, 56 + media) == name('m', 'v', 'h', 'd'),
        u32_at(f, 160 + media) == first,
        u32_at(f, 164 + media) == name('t', 'r', 'a', 'k'),
        u32_at(f, 160 + media + first) == second,
        u32_at(f, 164 + media + first) == name('t', 'r', 'a', 'k'),
    ensures
        movie_of(f) == 44 + media,
        child(f, 44 + media, name('m', 'v', 'h', 'd')) == 52 + media,
        first_track(f) == 160 + media,
        second_track(f) == 160 + media + first,
{
    let end = f.len() as int;
    let code = name('m', 'o', 'o', 'v');
    lemma_skip(f, 0, end, code);
    lemma_skip(f, 28, end, code);
    lemma_skip(f, 36, end, code);
    assert(movie_of(f) == 44 + media);
    lemma_skip(f, 52 + media, box_end(f, 44 + media), name('t', 'r', 'a', 'k'));
}

/// Where the header and the tracks of a movie are.
#[verifier::spinoff_prover]
#[verifier::rlimit(40)]
proof fn lemma_tracks_placed(
    f: Seq<u8>,
    media: Seq<u8>,
    header: Seq<u8>,
    first: Seq<u8>,
    second: Seq<u8>,
)
    requires
        f == mp4::file_head() + mp4::boxed(mp4::MDAT@, media) + mp4::boxed(
            mp4::MOOV@,
            Seq::<u8>::empty() + header + first + second,
        ),
        media.len() + 8 <= u32::MAX,
        header.len() == 108,
        108 + first.len() + second.len() + 8 <= u32::MAX,
        first.len() >= 8,
        second.len() >= 8,
        forall|q: int| #[trigger]
            holds(f, q, header) ==> u32_at(f, q) == 108 && u32_at(f, q + 4) == name(
                'm',
                'v',
                'h',
                'd',
            ),
        forall|q: int| #[trigger]
            holds(f, q, first) ==> u32_at(f, q) == first.len() && u32_at(f, q + 4) == name(
                't',
                'r',
                'a',
                'k',
            ),
        forall|q: int| #[trigger]
            holds(f, q, second) ==> u32_at(f, q) == second.len() && u32_at(f, q + 4) == name(
                't',
                'r',
                'a',
                'k',
            ),
    ensures
        child(f, movie_of(f), name('m', 'v', 'h', 'd')) == movie_of(f) + 8,
        holds(f, movie_of(f) + 8, header),
        holds(f, first_track(f), first),
        holds(f, second_track(f), second),
{
    let movie = mp4::boxed(mp4::MOOV@, Seq::<u8>::empty() + header + first + second);
    lemma_boxes_of_file(f, media, movie);
    let m = 44 + media.len() as int;
    lemma_three(f, m, mp4::MOOV@, header, first, second);
    lemma_boxed_length(mp4::MOOV@, Seq::<u8>::empty() + header + first + second);
    lemma_tracks_found(f, media.len() as int, first.len() as int, second.len() as int);
}

proof fn lemma_header_shape(f: Seq<u8>, duration: int, next: int)
    requires
        0 <= duration <= u32::MAX,
        0 <= next <= u32::MAX,
    ensures
        mp4::mvhd(duration, next).len() == 108,
        forall|q: int| #[trigger]
            holds(f, q, mp4::mvhd(duration, next)) ==> u32_at(f, q) == 108 && u32_at(f, q + 4)
                == name('m', 'v', 'h', 'd'),
{
    assert forall|q: int| #[trigger] holds(f, q, mp4::mvhd(duration, next)) implies u32_at(f, q)
        == 108 && u32_at(f, q + 4) == name('m', 'v', 'h', 'd') by {
        lemma_movie_header(f, q, duration, next);
    }
}

#[verifier::rlimit(40)]
proof fn lemma_track_shape(
    f: Seq<u8>,
    id: int,
    width: int,
    height: int,
    duration: int,
    refers: bool,
    t: mp4::TrackModel,
    entry: Seq<u8>,
)
    requires
        track_fits(t, entry),
        0 <= id <= u32::MAX,
        0 <= width <= u16::MAX,
        0 <= height <= u16::MAX,
        0 <= duration <= u32::MAX,
    ensures
        ({
            let s = mp4::trak(id, width, height, duration, refers, t);
            &&& 8 <= s.len() <= 0x1000_0000
            &&& forall|q: int| #[trigger]
                holds(f, q, s) ==> u32_at(f, q) == s.len() && u32_at(f, q + 4) == name(
                    't',
                    'r',
                    'a',
                    'k',
                )
        }),
{
    let s = mp4::trak(id, width, height, duration, refers, t);
    lemma_trak_length(id, width, height, duration, refers, t, entry);
    assert forall|q: int| #[trigger] holds(f, q, s) implies u32_at(f, q) == s.len() && u32_at(
        f,
        q + 4,
    ) == name('t', 'r', 'a', 'k') by {
        lemma_track(f, q, id, width, height, duration, refers, t, entry);
    }
}

/// What a file has to say of its two tracks.
#[verifier::spinoff_prover]
#[verifier::rlimit(40)]
proof fn lemma_tracks_of(
    f: Seq<u8>,
    media: Seq<u8>,
    width: int,
    height: int,
    time: int,
    b: mp4::TrackModel,
    be: Seq<u8>,
    e: mp4::TrackModel,
    ee: Seq<u8>,
)
    requires
        ({
            let movie = Seq::<u8>::empty() + mp4::mvhd(time, 3) + mp4::trak(
                1,
                width,
                height,
                time,
                false,
                b,
            ) + mp4::trak(2, width, height, time, true, e);
            f == mp4::file_head() + mp4::boxed(mp4::MDAT@, media) + mp4::boxed(mp4::MOOV@, movie)
        }),
        media.len() + 8 <= u32::MAX,
        track_fits(b, be),
        track_fits(e, ee),
        0 <= width <= u16::MAX,
        0 <= height <= u16::MAX,
        0 <= time <= u32::MAX,
    ensures
        ({
            let m = movie_of(f);
            &&& child(f, m, name('m', 'v', 'h', 'd')) == m + 8
            &&& u32_at(f, m + 28) == 1000
            &&& u32_at(f, m + 32) == time
            &&& u32_at(f, m + 112) == 3
            &&& holds(f, first_track(f), mp4::trak(1, width, height, time, false, b))
            &&& holds(f, second_track(f), mp4::trak(2, width, height, time, true, e))
        }),
{
    let header = mp4::mvhd(time, 3);
    let first = mp4::trak(1, width, height, time, false, b);
    let second = mp4::trak(2, width, height, time, true, e);
    lemma_header_shape(f, time, 3);
    lemma_track_shape(f, 1, width, height, time, false, b, be);
    lemma_track_shape(f, 2, width, height, time, true, e, ee);
    lemma_tracks_placed(f, media, header, first, second);
    lemma_movie_header(f, movie_of(f) + 8, time, 3);
}

/// Where the tracks of a file are.
proof fn lemma_tracks(
    base: Seq<Seq<u8>>,
    enh: Seq<Seq<u8>>,
    width: int,
    height: int,
    fps: int,
    colour: Option<ColourInfo>,
)
    requires
        mp4::movie_fits(base, enh, fps),
        fps >= 0,
        0 <= width <= u16::MAX,
        0 <= height <= u16::MAX,
    ensures
        ({
            let f = mp4::movie_file(base, enh, width, height, fps, colour);
            let time = mp4::movie_time(mp4::frame_count(base, enh), fps);
            let m = movie_of(f);
            let b = mp4::base_track(base, enh, width, height, fps, colour);
            let e = mp4::enh_track(base, enh, width, height, fps);
            &&& child(f, m, name('m', 'v', 'h', 'd')) == m + 8
            &&& u32_at(f, m + 28) == 1000
            &&& u32_at(f, m + 32) == time
            &&& u32_at(f, m + 112) == 3
            &&& holds(f, first_track(f), mp4::trak(1, width, height, time, false, b))
            &&& holds(f, second_track(f), mp4::trak(2, width, height, time, true, e))
        }),
{
    let f = mp4::movie_file(base, enh, width, height, fps, colour);
    let n = mp4::frame_count(base, enh);
    let time = mp4::movie_time(n, fps);
    let b = mp4::base_track(base, enh, width, height, fps, colour);
    let e = mp4::enh_track(base, enh, width, height, fps);
    reveal(mp4::moov);
    lemma_tracks_fit(base, enh, width, height, fps, colour);
    lemma_tracks_of(
        f,
        mp4::media(base, enh, n),
        width,
        height,
        time,
        b,
        mp4::vvc_entry(width, height, colour),
        e,
        mp4::lcevc_entry(width, height),
    );
}

proof fn lemma_boxed_length(code: Seq<u8>, payload: Seq<u8>)
    requires
        code.len() == 4,
    ensures
        mp4::boxed(code, payload).len() == payload.len() + 8,
{
}

#[verifier::rlimit(40)]
proof fn lemma_trak_length(
    id: int,
    width: int,
    height: int,
    duration: int,
    refers: bool,
    t: mp4::TrackModel,
    entry: Seq<u8>,
)
    requires
        track_fits(t, entry),
    ensures
        mp4::trak(id, width, height, duration, refers, t).len() == (if refers {
            156int
        } else {
            136
        }) + mp4::mdia(t).len(),
        mp4::mdia(t).len() == entry.len() + 8 * t.sizes.len() + 265,
{
    lemma_track_lengths(id, width, height, duration);
    lemma_media_lengths(t);
    lemma_table_lengths(t, entry);
}

/// The bytes of a sample table at a place.
#[verifier::opaque]
spec fn has_table(f: Seq<u8>, p: int, t: mp4::TrackModel) -> bool {
    holds(f, p, mp4::stbl(t))
}

/// The bytes of the media of a track at a place.
#[verifier::opaque]
spec fn has_media(f: Seq<u8>, p: int, t: mp4::TrackModel) -> bool {
    holds(f, p, mp4::mdia(t))
}

/// What the head of a track says.
spec fn head_says(
    f: Seq<u8>,
    p: int,
    id: int,
    width: int,
    height: int,
    duration: int,
    refers: bool,
) -> bool {
    &&& header_of(f, p) == p + 8
    &&& u32_at(f, p + 28) == id
    &&& u32_at(f, p + 92) == width * 0x1_0000
    &&& u32_at(f, p + 96) == height * 0x1_0000
    &&& edits_of(f, p) == p + 108
    &&& u32_at(f, p + 120) == 1
    &&& u32_at(f, p + 124) == duration
    &&& u32_at(f, p + 128) == 0
    &&& u32_at(f, p + 132) == 0x1_0000
    &&& refers ==> child(f, p, name('t', 'r', 'e', 'f')) == p + 136 && child(
        f,
        p + 136,
        name('s', 'b', 'a', 's'),
    ) == p + 144 && u32_at(f, p + 144) == 12 && u32_at(f, p + 152) == 1
}

/// What the media at a place says of its time.
spec fn media_says(f: Seq<u8>, m: int, t: mp4::TrackModel) -> bool {
    &&& child(f, m, name('m', 'd', 'h', 'd')) == m + 8
    &&& u32_at(f, m + 28) == 12800
    &&& u32_at(f, m + 32) == t.duration
    &&& child(f, m, name('h', 'd', 'l', 'r')) == m + 40
    &&& u32_at(f, m + 56) == name('v', 'i', 'd', 'e')
    &&& child(f, child(f, m, name('m', 'i', 'n', 'f')), name('s', 't', 'b', 'l')) == m + 149
}

/// What the sample table at a place says.
spec fn table_says(f: Seq<u8>, p: int, t: mp4::TrackModel, entry: Seq<u8>) -> bool {
    let n = t.sizes.len() as int;
    let q = p + 28 + entry.len();
    &&& child(f, p, name('s', 't', 's', 'd')) == p + 8
    &&& u32_at(f, p + 20) == 1
    &&& u32_at(f, p + 24) == entry.len() + 4
    &&& holds(f, p + 28, entry)
    &&& child(f, p, name('s', 't', 't', 's')) == q
    &&& u32_at(f, q + 12) == 1
    &&& u32_at(f, q + 16) == n
    &&& u32_at(f, q + 20) == t.delta
    &&& child(f, p, name('s', 't', 's', 'c')) == q + 24
    &&& u32_at(f, q + 36) == 1
    &&& u32_at(f, q + 40) == 1
    &&& u32_at(f, q + 44) == 1
    &&& u32_at(f, q + 48) == 1
    &&& child(f, p, name('s', 't', 's', 'z')) == q + 52
    &&& u32_at(f, q + 64) == 0
    &&& u32_at(f, q + 68) == n
    &&& forall|i: int| 0 <= i < n ==> u32_at(f, q + 72 + 4 * i) == #[trigger] t.sizes[i]
    &&& child(f, p, name('s', 't', 'c', 'o')) == q + 72 + 4 * n
    &&& u32_at(f, q + 84 + 4 * n) == n
    &&& forall|i: int|
        0 <= i < n ==> u32_at(f, q + 88 + 4 * n + 4 * i) == #[trigger] t.offsets[i]
}

/// What a track at a place says.
#[verifier::opaque]
spec fn track_says(
    f: Seq<u8>,
    p: int,
    id: int,
    width: int,
    height: int,
    duration: int,
    refers: bool,
    t: mp4::TrackModel,
    entry: Seq<u8>,
) -> bool {
    &&& head_says(f, p, id, width, height, duration, refers)
    &&& media_says(f, media_of(f, p), t)
    &&& table_says(f, table_of(f, p), t, entry)
}

proof fn lemma_head_read(
    f: Seq<u8>,
    p: int,
    id: int,
    width: int,
    height: int,
    duration: int,
    refers: bool,
    t: mp4::TrackModel,
    entry: Seq<u8>,
)
    requires
        holds(f, p, mp4::trak(id, width, height, duration, refers, t)),
        track_fits(t, entry),
        0 <= id <= u32::MAX,
        0 <= width <= u16::MAX,
        0 <= height <= u16::MAX,
        0 <= duration <= u32::MAX,
    ensures
        head_says(f, p, id, width, height, duration, refers),
        has_media(f, media_of(f, p), t),
{
    reveal(has_media);
    lemma_track(f, p, id, width, height, duration, refers, t, entry);
}

proof fn lemma_media_read(f: Seq<u8>, m: int, t: mp4::TrackModel, entry: Seq<u8>)
    requires
        has_media(f, m, t),
        track_fits(t, entry),
    ensures
        media_says(f, m, t),
        has_table(f, m + 149, t),
{
    reveal(has_media);
    reveal(has_table);
    lemma_media(f, m, t, entry);
}

proof fn lemma_table_read(f: Seq<u8>, p: int, t: mp4::TrackModel, entry: Seq<u8>)
    requires
        has_table(f, p, t),
        track_fits(t, entry),
    ensures
        table_says(f, p, t, entry),
{
    reveal(has_table);
    lemma_table(f, p, t, entry);
}

proof fn lemma_track_says(
    f: Seq<u8>,
    p: int,
    id: int,
    width: int,
    height: int,
    duration: int,
    refers: bool,
    t: mp4::TrackModel,
    entry: Seq<u8>,
)
    requires
        holds(f, p, mp4::trak(id, width, height, duration, refers, t)),
        track_fits(t, entry),
        0 <= id <= u32::MAX,
        0 <= width <= u16::MAX,
        0 <= height <= u16::MAX,
        0 <= duration <= u32::MAX,
    ensures
        track_says(f, p, id, width, height, duration, refers, t, entry),
{
    reveal(track_says);
    lemma_head_read(f, p, id, width, height, duration, refers, t, entry);
    lemma_media_read(f, media_of(f, p), t, entry);
    lemma_table_read(f, media_of(f, p) + 149, t, entry);
}

/// What both tracks of a file say.
proof fn lemma_tracks_read(
    base: Seq<Seq<u8>>,
    enh: Seq<Seq<u8>>,
    width: int,
    height: int,
    fps: int,
    colour: Option<ColourInfo>,
)
    requires
        mp4::movie_fits(base, enh, fps),
        fps >= 0,
        0 <= width <= u16::MAX,
        0 <= height <= u16::MAX,
    ensures
        ({
            let f = mp4::movie_file(base, enh, width, height, fps, colour);
            let time = mp4::movie_time(mp4::frame_count(base, enh), fps);
            let b = mp4::base_track(base, enh, width, height, fps, colour);
            let e = mp4::enh_track(base, enh, width, height, fps);
            let m = movie_of(f);
            &&& child(f, m, name('m', 'v', 'h', 'd')) == m + 8
            &&& u32_at(f, m + 28) == 1000
            &&& u32_at(f, m + 32) == time
            &&& u32_at(f, m + 112) == 3
            &&& track_says(
                f,
                first_track(f),
                1,
                width,
                height,
                time,
                false,
                b,
                mp4::vvc_entry(width, height, colour),
            )
            &&& track_says(
                f,
                second_track(f),
                2,
                width,
                height,
                time,
                true,
                e,
                mp4::lcevc_entry(width, height),
            )
        }),
{
    let f = mp4::movie_file(base, enh, width, height, fps, colour);
    let time = mp4::movie_time(mp4::frame_count(base, enh), fps);
    lemma_tracks(base, enh, width, height, fps, colour);
    lemma_tracks_fit(base, enh, width, height, fps, colour);
    let b = mp4::base_track(base, enh, width, height, fps, colour);
    let e = mp4::enh_track(base, enh, width, height, fps);
    let of_base = mp4::vvc_entry(width, height, colour);
    let of_enh = mp4::lcevc_entry(width, height);
    lemma_track_says(f, first_track(f), 1, width, height, time, false, b, of_base);
    lemma_track_says(f, second_track(f), 2, width, height, time, true, e, of_enh);
}

/// A sample by the tables of its track.
proof fn lemma_sample_read(
    f: Seq<u8>,
    p: int,
    id: int,
    width: int,
    height: int,
    duration: int,
    refers: bool,
    t: mp4::TrackModel,
    entry: Seq<u8>,
    i: int,
)
    requires
        track_says(f, p, id, width, height, duration, refers, t, entry),
        0 <= i < t.sizes.len(),
    ensures
        sample_of(f, p, i) == f.subrange(t.offsets[i] as int, t.offsets[i] + t.sizes[i]),
{
    reveal(track_says);
    let size = t.sizes[i];
    let offset = t.offsets[i];
}

/// Both tracks show the picture in its size: the header of a track has the width and the height
/// as 16.16 numbers, and its sample entry has them as numbers of 16 bits.
pub proof fn law_dimensions_read(
    base: Seq<Seq<u8>>,
    enh: Seq<Seq<u8>>,
    width: int,
    height: int,
    fps: int,
    colour: Option<ColourInfo>,
    t: int,
)
    requires
        mp4::movie_fits(base, enh, fps),
        fps >= 0,
        0 <= width <= u16::MAX,
        0 <= height <= u16::MAX,
        ({
            let f = mp4::movie_file(base, enh, width, height, fps, colour);
            t == first_track(f) || t == second_track(f)
        }),
    ensures
        ({
            let f = mp4::movie_file(base, enh, width, height, fps, colour);
            &&& u32_at(f, header_of(f, t) + 8 + 76) == width * 0x1_0000
            &&& u32_at(f, header_of(f, t) + 8 + 80) == height * 0x1_0000
            &&& u16_at(f, entry_of(f, t) + 8 + 24) == width
            &&& u16_at(f, entry_of(f, t) + 8 + 26) == height
        }),
{
    let f = mp4::movie_file(base, enh, width, height, fps, colour);
    reveal(track_says);
    lemma_tracks_read(base, enh, width, height, fps, colour);
    if t == first_track(f) {
        lemma_base_entry(f, entry_of(f, t), width, height, colour);
    } else {
        lemma_enhancement_entry(f, entry_of(f, t), width, height);
    }
}

/// What the two tracks are: the first is VVC video with the given colours, the second is LCEVC
/// video that refers to the first by its number, and no track has the number that is next.
pub proof fn law_tracks_described(
    base: Seq<Seq<u8>>,
    enh: Seq<Seq<u8>>,
    width: int,
    height: int,
    fps: int,
    colour: Option<ColourInfo>,
)
    requires
        mp4::movie_fits(base, enh, fps),
        fps >= 0,
        0 <= width <= u16::MAX,
        0 <= height <= u16::MAX,
    ensures
        ({
            let f = mp4::movie_file(base, enh, width, height, fps, colour);
            let one = first_track(f);
            let two = second_track(f);
            let next = u32_at(f, child(f, movie_of(f), name('m', 'v', 'h', 'd')) + 8 + 96);
            let id_one = u32_at(f, header_of(f, one) + 8 + 12);
            let id_two = u32_at(f, header_of(f, two) + 8 + 12);
            let based = child(f, child(f, two, name('t', 'r', 'e', 'f')), name('s', 'b', 'a', 's'));
            &&& 0 < id_one < id_two < next
            &&& u32_at(f, based) == 12
            &&& u32_at(f, based + 8) == id_one
            &&& u32_at(f, child(f, media_of(f, one), name('h', 'd', 'l', 'r')) + 8 + 8) == name(
                'v',
                'i',
                'd',
                'e',
            )
            &&& u32_at(f, child(f, media_of(f, two), name('h', 'd', 'l', 'r')) + 8 + 8) == name(
                'v',
                'i',
                'd',
                'e',
            )
            &&& u32_at(f, entry_of(f, one) + 4) == name('v', 'v', 'c', '1')
            &&& u32_at(f, entry_of(f, two) + 4) == name('l', 'v', 'c', '1')
            &&& colour matches Some(c) ==> {
                let e = entry_of(f, one);
                let k = find(f, e + 86, box_end(f, e), name('c', 'o', 'l', 'r'));
                &&& u32_at(f, k + 8) == name('n', 'c', 'l', 'x')
                &&& u16_at(f, k + 12) == c.primaries
                &&& u16_at(f, k + 14) == c.transfer
                &&& u16_at(f, k + 16) == c.matrix
                &&& (f[k + 18] >= 0x80 <==> c.full_range)
            }
        }),
{
    let f = mp4::movie_file(base, enh, width, height, fps, colour);
    reveal(track_says);
    lemma_tracks_read(base, enh, width, height, fps, colour);
    lemma_base_entry(f, entry_of(f, first_track(f)), width, height, colour);
    lemma_enhancement_entry(f, entry_of(f, second_track(f)), width, height);
}

/// Whether `q` is the whole part of `a` by `b`, or 1 where that is 0.
pub open spec fn whole_part(q: int, a: int, b: int) -> bool {
    if a < b {
        q == 1
    } else {
        q * b <= a < (q + 1) * b
    }
}

proof fn lemma_whole_part(a: int, b: int)
    requires
        a >= 0,
        b >= 1,
    ensures
        whole_part(
            if a / b > 1 {
                a / b
            } else {
                1
            },
            a,
            b,
        ),
{
    vstd::arithmetic::div_mod::lemma_fundamental_div_mod(a, b);
    let q = a / b;
    assert(b * q == q * b) by (nonlinear_arith);
    assert((q + 1) * b == q * b + b) by (nonlinear_arith);
    assert(a < b ==> q <= 0) by (nonlinear_arith)
        requires
            a == b * q + a % b,
            0 <= a % b < b,
            b >= 1,
    ;
    assert(a >= b ==> q >= 1) by (nonlinear_arith)
        requires
            a == b * q + a % b,
            0 <= a % b < b,
            b >= 1,
    ;
}

/// How long the movie is: in thousandths of a second for the movie and its edits, and in ticks
/// for the media of both tracks, where every frame has the same number of the 12800 ticks of a
/// second.
pub proof fn law_durations_read(
    base: Seq<Seq<u8>>,
    enh: Seq<Seq<u8>>,
    width: int,
    height: int,
    fps: int,
    colour: Option<ColourInfo>,
    t: int,
)
    requires
        mp4::movie_fits(base, enh, fps),
        fps >= 0,
        0 <= width <= u16::MAX,
        0 <= height <= u16::MAX,
        fps >= 1,
        ({
            let f = mp4::movie_file(base, enh, width, height, fps, colour);
            t == first_track(f) || t == second_track(f)
        }),
    ensures
        ({
            let f = mp4::movie_file(base, enh, width, height, fps, colour);
            let n = mp4::frame_count(base, enh);
            let movie = child(f, movie_of(f), name('m', 'v', 'h', 'd'));
            let media = child(f, media_of(f, t), name('m', 'd', 'h', 'd'));
            let times = child(f, table_of(f, t), name('s', 't', 't', 's'));
            let delta = u32_at(f, times + 8 + 12);
            &&& u32_at(f, movie + 8 + 12) == 1000
            &&& whole_part(u32_at(f, movie + 8 + 16), n * 1000, fps)
            &&& u32_at(f, edits_of(f, t) + 8 + 4) == 1
            &&& u32_at(f, edits_of(f, t) + 8 + 8) == u32_at(f, movie + 8 + 16)
            &&& u32_at(f, edits_of(f, t) + 8 + 12) == 0
            &&& u32_at(f, edits_of(f, t) + 8 + 16) == 0x1_0000
            &&& u32_at(f, media + 8 + 12) == 12800
            &&& u32_at(f, media + 8 + 16) == n * delta
            &&& u32_at(f, times + 8 + 4) == 1
            &&& u32_at(f, times + 8 + 8) == n
            &&& whole_part(delta, 12800, fps)
        }),
{
    reveal(track_says);
    lemma_tracks_read(base, enh, width, height, fps, colour);
    lemma_whole_part(12800, fps);
    lemma_whole_part(mp4::frame_count(base, enh) * 1000, fps);
}

/// Every sample of every track is found by the tables of the file: a chunk has one sample, the
/// first track has the access units as they are, and the second has the LCEVC units without
/// start code behind their lengths of four bytes.
pub proof fn law_samples_read(
    base: Seq<Seq<u8>>,
    enh: Seq<Seq<u8>>,
    width: int,
    height: int,
    fps: int,
    colour: Option<ColourInfo>,
    i: int,
)
    requires
        mp4::movie_fits(base, enh, fps),
        fps >= 0,
        0 <= width <= u16::MAX,
        0 <= height <= u16::MAX,
        0 <= i < mp4::frame_count(base, enh),
    ensures
        ({
            let f = mp4::movie_file(base, enh, width, height, fps, colour);
            let second = sample_of(f, second_track(f), i);
            &&& sample_of(f, first_track(f), i) == base[i]
            &&& u32_at(second, 0) == annexb::bare(enh[i]).len()
            &&& second.subrange(4, second.len() as int) == annexb::bare(enh[i])
            &&& forall|t: int|
                t == first_track(f) || t == second_track(f) ==> {
                    let table = #[trigger] table_of(f, t);
                    let n = mp4::frame_count(base, enh);
                    let chunks = child(f, table, name('s', 't', 's', 'c'));
                    &&& u32_at(f, chunks + 8 + 4) == 1
                    &&& u32_at(f, chunks + 8 + 8) == 1
                    &&& u32_at(f, chunks + 8 + 12) == 1
                    &&& u32_at(f, chunks + 8 + 16) == 1
                    &&& u32_at(f, child(f, table, name('s', 't', 's', 'z')) + 8 + 4) == 0
                    &&& u32_at(f, child(f, table, name('s', 't', 's', 'z')) + 8 + 8) == n
                    &&& u32_at(f, child(f, table, name('s', 't', 'c', 'o')) + 8 + 4) == n
                }
        }),
{
    let f = mp4::movie_file(base, enh, width, height, fps, colour);
    let n = mp4::frame_count(base, enh);
    let time = mp4::movie_time(n, fps);
    let b = mp4::base_track(base, enh, width, height, fps, colour);
    let e = mp4::enh_track(base, enh, width, height, fps);
    let of_base = mp4::vvc_entry(width, height, colour);
    let of_enh = mp4::lcevc_entry(width, height);
    lemma_tracks_read(base, enh, width, height, fps, colour);
    lemma_sample_read(f, first_track(f), 1, width, height, time, false, b, of_base, i);
    lemma_sample_read(f, second_track(f), 2, width, height, time, true, e, of_enh, i);
    mp4::law_samples_found(base, enh, width, height, fps, colour, i);
    lemma_unit_fits(base, enh, fps, i);
    let unit = annexb::bare(enh[i]);
    let sample = mp4::enhancement_sample(enh[i]);
    assert(sample.subrange(4, sample.len() as int) =~= unit);
    assert(holds(sample, 0, sample)) by {
        reveal(holds);
    }
    lemma_parts(sample, 0, mp4::be32(unit.len() as int), unit);
    lemma_u32(sample, 0, unit.len() as int);
    reveal(track_says);
}

proof fn lemma_unit_fits(base: Seq<Seq<u8>>, enh: Seq<Seq<u8>>, fps: int, i: int)
    requires
        mp4::movie_fits(base, enh, fps),
        0 <= i < mp4::frame_count(base, enh),
    ensures
        annexb::bare(enh[i]).len() <= u32::MAX,
{
    let n = mp4::frame_count(base, enh);
    lemma_media_long(base, enh, i, n);
}

proof fn lemma_media_long(base: Seq<Seq<u8>>, enh: Seq<Seq<u8>>, i: int, k: int)
    requires
        0 <= i < k,
    ensures
        mp4::media(base, enh, k).len() >= annexb::bare(enh[i]).len(),
    decreases k,
{
    if i < k - 1 {
        lemma_media_long(base, enh, i, k - 1);
    }
}

} // verus!
