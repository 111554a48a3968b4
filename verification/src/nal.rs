//! NAL unit and process-block framing.
//!
//! Per-access-unit enhancement data layout:
//!
//! ```text
//! [0x00 0x00 0x01] [nal_header:2] [process blocks...] [0x80]
//! ```
//!
//! * Start code: `00 00 01` (3 bytes).
//! * NAL header: `forbidden_zero_bit(1)=0 forbidden_one_bit(1)=1 nal_unit_type(5)
//!   reserved_flag(9)=0b111111111`. IDR pictures use nal_unit_type 29 (header byte 0x7B),
//!   others 28 (0x79); the second byte is 0xFF.
//! * RBSP stop byte: the final byte of the NAL unit is 0x80.
//! * Emulation prevention: after two consecutive 0x00 bytes an 0x03 byte is inserted before
//!   any data byte <= 0x03. A decoder skips 0x03 whenever it follows two 0x00 bytes.
//!
//! Process block header (one byte): `payload_size_type(3) payload_type(5)`. Size types 0..5
//! are the literal sizes 0..5; type 7 (custom) is followed by a multibyte size.
use crate::bitstream;
use vstd::prelude::*;

verus! {

pub const NAL_TYPE_NON_IDR: u8 = 28;

pub const NAL_TYPE_IDR: u8 = 29;

pub const BLOCK_SEQUENCE_CONFIG: u8 = 0;

pub const BLOCK_GLOBAL_CONFIG: u8 = 1;

pub const BLOCK_PICTURE_CONFIG: u8 = 2;

pub const BLOCK_ENCODED_DATA: u8 = 3;

pub const BLOCK_ENCODED_DATA_TILED: u8 = 4;

pub const BLOCK_ADDITIONAL_INFO: u8 = 5;

pub const BLOCK_FILLER: u8 = 6;

/// The content of a list of process blocks: (payload_type, payload) each.
pub open spec fn blocks_view(blocks: Seq<(u8, Vec<u8>)>) -> Seq<(u8, Seq<u8>)> {
    Seq::new(blocks.len(), |i: int| (blocks[i].0, blocks[i].1@))
}

/// The header byte of a block.
pub open spec fn block_header(payload_type: u8, size: nat) -> u8 {
    ((if size <= 5 {
        size * 32
    } else {
        224
    }) + payload_type as nat % 32) as u8
}

/// A block: its header, its size where the header has no room for it, and its payload.
pub open spec fn block_bytes(payload_type: u8, payload: Seq<u8>) -> Seq<u8> {
    seq![block_header(payload_type, payload.len())] + (if payload.len() > 5 {
        bitstream::multibyte(payload.len())
    } else {
        Seq::empty()
    }) + payload
}

/// The blocks from `i` on, one after the other.
pub open spec fn blocks_bytes(blocks: Seq<(u8, Seq<u8>)>, i: int) -> Seq<u8>
    decreases blocks.len() - i,
{
    if i < 0 || i >= blocks.len() {
        Seq::empty()
    } else {
        block_bytes(blocks[i].0, blocks[i].1) + blocks_bytes(blocks, i + 1)
    }
}

/// The first byte of the NAL header.
pub open spec fn nal_header_byte(idr: bool) -> u8 {
    if idr {
        0x7B
    } else {
        0x79
    }
}

/// The bytes of a NAL unit before emulation prevention.
pub open spec fn raw_bytes(idr: bool, blocks: Seq<(u8, Seq<u8>)>) -> Seq<u8> {
    seq![nal_header_byte(idr), 0xFFu8] + blocks_bytes(blocks, 0)
}

/// Emulation prevention from byte `i` on, after `zeros` zero bytes.
pub open spec fn escape(s: Seq<u8>, i: int, zeros: int) -> Seq<u8>
    decreases s.len() - i,
{
    if i < 0 || i >= s.len() {
        Seq::empty()
    } else {
        let b = s[i];
        let insert = zeros == 2 && b <= 3;
        let z = if b == 0 {
            (if insert {
                0
            } else {
                zeros
            }) + 1
        } else {
            0
        };
        (if insert {
            seq![3u8, b]
        } else {
            seq![b]
        }) + escape(s, i + 1, z)
    }
}

/// A NAL unit.
pub open spec fn nal_unit(idr: bool, blocks: Seq<(u8, Seq<u8>)>) -> Seq<u8> {
    (seq![0u8, 0u8, 1u8] + escape(raw_bytes(idr, blocks), 0, 0)).push(0x80)
}

/// The bytes from `i` up to `end` without those of emulation prevention, after `zeros` zero
/// bytes.
pub open spec fn unescape(s: Seq<u8>, i: int, end: int, zeros: int) -> Seq<u8>
    decreases end - i,
{
    if i >= end {
        Seq::empty()
    } else if zeros == 2 && s[i] == 3 {
        unescape(s, i + 1, end, 0)
    } else {
        seq![s[i]] + unescape(
            s,
            i + 1,
            end,
            if s[i] == 0 {
                zeros + 1
            } else {
                0
            },
        )
    }
}

/// The blocks from `off` on; nothing where one of them runs over the end.
pub open spec fn split_blocks(s: Seq<u8>, off: int) -> Option<Seq<(u8, Seq<u8>)>>
    decreases s.len() - off,
{
    if off < 0 || off >= s.len() {
        Some(Seq::empty())
    } else {
        match block_extent(s, off) {
            None => None,
            Some((start, size)) => {
                proof {
                    lemma_extent(s, off);
                }
                match split_blocks(s, start + size) {
                    None => None,
                    Some(rest) => Some(
                        seq![((s[off] % 32) as u8, s.subrange(start, start + size))] + rest,
                    ),
                }
            },
        }
    }
}

/// Where the payload of the block at `off` starts, and its size; nothing where it runs over
/// the end.
pub open spec fn block_extent(s: Seq<u8>, off: int) -> Option<(int, int)> {
    let custom = s[off] >= 224;
    let at = if custom {
        bitstream::groups7_at(s, off + 1, 0, usize::MAX + 1)
    } else {
        Some((s[off] as int / 32, off + 1))
    };
    match at {
        None => None,
        Some((size, start)) => if start + size > s.len() {
            None
        } else {
            Some((start, size))
        },
    }
}

proof fn lemma_groups7_end(s: Seq<u8>, pos: int, acc: int, m: int)
    requires
        m > 0,
        pos >= 0,
    ensures
        bitstream::groups7_at(s, pos, acc, m) matches Some((v, p)) ==> 0 <= v < m && pos < p
            <= s.len(),
    decreases s.len() - pos,
{
    if pos < s.len() {
        let next = (acc * 128 + s[pos] as int % 128) % m;
        vstd::arithmetic::div_mod::lemma_mod_bound(acc * 128 + s[pos] as int % 128, m);
        lemma_groups7_end(s, pos + 1, next, m);
    }
}

pub proof fn lemma_extent(s: Seq<u8>, off: int)
    requires
        0 <= off < s.len(),
    ensures
        block_extent(s, off) matches Some((start, size)) ==> off < start && 0 <= size && start
            + size <= s.len(),
{
    lemma_groups7_end(s, off + 1, 0, usize::MAX + 1);
}

/// Header byte for a block whose payload size fits in a size type 0..5.
/// Sizes above 5 use the custom size type (7) with a multibyte size.
pub fn block_header_byte(payload_type: u8, payload_size: usize) -> (b: u8)
    ensures
        b == block_header(payload_type, payload_size as nat),
{
    if payload_size <= 5 {
        (payload_size as u8) * 32 + payload_type % 32
    } else {
        block_header_custom(payload_type)
    }
}

/// Header byte for a custom-sized block (size follows as a multibyte).
pub fn block_header_custom(payload_type: u8) -> (b: u8)
    ensures
        b == 224 + payload_type as int % 32,
{
    224 + payload_type % 32
}

/// Append one block.
fn push_block(out: &mut Vec<u8>, payload_type: u8, payload: &Vec<u8>)
    ensures
        final(out)@ == old(out)@ + block_bytes(payload_type, payload@),
{
    let ghost start = out@;
    let size: usize = payload.len();
    out.push(block_header_byte(payload_type, size));
    if size > 5 {
        let mut groups = bitstream::multibyte_groups(size as u64);
        out.append(&mut groups);
    }
    append_bytes(out, payload);
    assert(out@ =~= start + block_bytes(payload_type, payload@));
}

/// Append a copy of some bytes.
pub fn append_bytes(out: &mut Vec<u8>, bytes: &Vec<u8>)
    ensures
        final(out)@ == old(out)@ + bytes@,
{
    let ghost start = out@;
    let mut i: usize = 0;
    assert(out@ =~= start + bytes@.subrange(0, 0));
    while i < bytes.len()
        invariant
            i <= bytes@.len(),
            out@ == start + bytes@.subrange(0, i as int),
        decreases bytes@.len() - i,
    {
        out.push(bytes[i]);
        i = i + 1;
        assert(out@ =~= start + bytes@.subrange(0, i as int));
    }
    assert(bytes@.subrange(0, i as int) =~= bytes@);
}

/// Build one enhancement NAL unit (with start code, header, emulation prevention and RBSP stop
/// byte) from the given process blocks, each described by (payload_type, payload bytes).
pub fn build_nal_unit(idr: bool, blocks: &[(u8, Vec<u8>)]) -> (out: Vec<u8>)
    ensures
        out@ == nal_unit(idr, blocks_view(blocks@)),
{
    let ghost view = blocks_view(blocks@);
    let mut rbsp: Vec<u8> = Vec::new();
    rbsp.push(
        if idr {
            0x7B
        } else {
            0x79
        },
    );
    rbsp.push(0xFF);
    let mut k: usize = 0;
    assert(rbsp@ + blocks_bytes(view, 0) =~= raw_bytes(idr, view));
    while k < blocks.len()
        invariant
            k <= blocks@.len(),
            view == blocks_view(blocks@),
            rbsp@ + blocks_bytes(view, k as int) == raw_bytes(idr, view),
        decreases blocks@.len() - k,
    {
        let ghost before = rbsp@;
        push_block(&mut rbsp, blocks[k].0, &blocks[k].1);
        assert(rbsp@ + blocks_bytes(view, k + 1) =~= before + blocks_bytes(view, k as int));
        k = k + 1;
    }
    assert(rbsp@ =~= raw_bytes(idr, view));
    let mut out: Vec<u8> = Vec::new();
    out.push(0x00);
    out.push(0x00);
    out.push(0x01);
    let mut zeros: u32 = 0;
    let mut i: usize = 0;
    let ghost all = seq![0u8, 0u8, 1u8] + escape(rbsp@, 0, 0);
    assert(out@ + escape(rbsp@, 0, 0) =~= all);
    while i < rbsp.len()
        invariant
            i <= rbsp@.len(),
            zeros <= 2,
            out@ + escape(rbsp@, i as int, zeros as int) == all,
        decreases rbsp@.len() - i,
    {
        let ghost before = out@;
        let ghost z0 = zeros;
        let b: u8 = rbsp[i];
        if zeros == 2 && b <= 0x03 {
            out.push(0x03);
            zeros = 0;
        }
        if b == 0x00 {
            zeros = zeros + 1;
        } else {
            zeros = 0;
        }
        out.push(b);
        assert(out@ + escape(rbsp@, i + 1, zeros as int) =~= before + escape(
            rbsp@,
            i as int,
            z0 as int,
        ));
        i = i + 1;
    }
    assert(out@ =~= all);
    // RBSP stop byte (always 0x80; never needs emulation prevention).
    out.push(0x80);
    out
}

proof fn lemma_unescape(nal: Seq<u8>, p: int, end: int, s: Seq<u8>, i: int, zeros: int)
    requires
        0 <= p <= end <= nal.len(),
        0 <= i <= s.len(),
        0 <= zeros <= 2,
        nal.subrange(p, end) == escape(s, i, zeros),
    ensures
        unescape(nal, p, end, zeros) == s.subrange(i, s.len() as int),
    decreases s.len() - i,
{
    let part = nal.subrange(p, end);
    if i >= s.len() {
        assert(part.len() == 0);
        assert(s.subrange(i, s.len() as int) =~= Seq::empty());
    } else {
        let b = s[i];
        let insert = zeros == 2 && b <= 3;
        let z = if b == 0 {
            (if insert {
                0
            } else {
                zeros
            }) + 1
        } else {
            0
        };
        let rest = escape(s, i + 1, z);
        assert(s.subrange(i, s.len() as int) =~= seq![b] + s.subrange(i + 1, s.len() as int));
        if insert {
            assert(part =~= seq![3u8, b] + rest);
            assert(nal[p] == part[0] && nal[p + 1] == part[1]);
            assert(nal.subrange(p + 2, end) =~= rest) by {
                assert(nal.subrange(p + 2, end) =~= part.subrange(2, part.len() as int));
                assert(part.subrange(2, part.len() as int) =~= rest);
            }
            lemma_unescape(nal, p + 2, end, s, i + 1, z);
            assert(unescape(nal, p, end, zeros) == unescape(nal, p + 1, end, 0));
        } else {
            assert(part =~= seq![b] + rest);
            assert(nal[p] == part[0]);
            assert(nal.subrange(p + 1, end) =~= rest) by {
                assert(nal.subrange(p + 1, end) =~= part.subrange(1, part.len() as int));
                assert(part.subrange(1, part.len() as int) =~= rest);
            }
            lemma_unescape(nal, p + 1, end, s, i + 1, z);
        }
    }
}

proof fn lemma_split_blocks(s: Seq<u8>, off: int, blocks: Seq<(u8, Seq<u8>)>, k: int)
    requires
        0 <= off <= s.len(),
        0 <= k <= blocks.len(),
        forall|i: int|
            0 <= i < blocks.len() ==> #[trigger] blocks[i].0 < 32 && blocks[i].1.len()
                <= usize::MAX,
        s.subrange(off, s.len() as int) == blocks_bytes(blocks, k),
    ensures
        split_blocks(s, off) == Some(blocks.subrange(k, blocks.len() as int)),
    decreases blocks.len() - k,
{
    let part = s.subrange(off, s.len() as int);
    if k == blocks.len() {
        assert(part.len() == 0);
        assert(blocks.subrange(k, blocks.len() as int) =~= Seq::empty());
    } else {
        let (t, payload) = blocks[k];
        assert(blocks[k].0 < 32);
        let n = payload.len();
        let bb = block_bytes(t, payload);
        let rest = blocks_bytes(blocks, k + 1);
        assert(part == bb + rest);
        assert(s[off] == part[0]);
        let sizes = if n > 5 {
            bitstream::multibyte(n)
        } else {
            Seq::empty()
        };
        let start = off + 1 + sizes.len();
        if n > 5 {
            assert(s.subrange(off + 1, off + 1 + sizes.len() as int) =~= sizes) by {
                assert forall|i: int| 0 <= i < sizes.len() implies s[off + 1 + i] == sizes[i] by {
                    assert(s[off + 1 + i] == part[1 + i]);
                }
            }
            bitstream::law_multibyte_roundtrip(s, off + 1, n, usize::MAX + 1);
        }
        assert(s.subrange(start, start + n as int) =~= payload) by {
            assert forall|i: int| 0 <= i < n implies s[start + i] == payload[i] by {
                assert(s[start + i] == part[1 + sizes.len() + i]);
            }
        }
        assert(block_extent(s, off) == Some((start, n as int)));
        let next = start + n;
        assert(s.subrange(next, s.len() as int) =~= rest) by {
            assert(s.subrange(next, s.len() as int) =~= part.subrange(
                bb.len() as int,
                part.len() as int,
            ));
            assert(part.subrange(bb.len() as int, part.len() as int) =~= rest);
        }
        lemma_split_blocks(s, next, blocks, k + 1);
        assert(s[off] as int % 32 == t);
        assert(blocks.subrange(k, blocks.len() as int) =~= seq![(t, payload)] + blocks.subrange(
            k + 1,
            blocks.len() as int,
        ));
    }
}

/// What is found in a NAL unit: whether it is an IDR, and its blocks; or the message that says
/// what is wrong with it.
pub open spec fn parsed_nal(nal: Seq<u8>) -> Result<(bool, Seq<(u8, Seq<u8>)>), Seq<char>> {
    if nal.len() < 5 {
        Err("NAL too short"@)
    } else {
        let short = nal[0] == 0 && nal[1] == 0 && nal[2] == 1;
        let long = nal[0] == 0 && nal[1] == 0 && nal[2] == 0 && nal[3] == 1;
        let pos: int = if short {
            3
        } else {
            4
        };
        if !short && !long {
            Err("missing start code"@)
        } else if nal.len() < pos + 2 {
            Err("NAL too short"@)
        } else if !header_valid(nal[pos], nal[pos + 1]) {
            Err("bad NAL header"@)
        } else {
            let rbsp = unescape(nal, pos + 2, nal.len() - 1, 0);
            match split_blocks(rbsp, 0) {
                None => Err("block overruns NAL"@),
                Some(blocks) => Ok((nal[pos] as int / 2 % 32 == NAL_TYPE_IDR, blocks)),
            }
        }
    }
}

/// The two bytes of a NAL header: bit 7 of the first is zero, its bits 6 and 0 are one, and
/// the second has all bits set.
pub open spec fn header_valid(b0: u8, b1: u8) -> bool {
    64 <= b0 < 128 && b0 % 2 == 1 && b1 == 0xFF
}

/// A NAL unit is read back as it was built. Payload types have five bits.
pub proof fn law_nal_roundtrip(idr: bool, blocks: Seq<(u8, Seq<u8>)>)
    requires
        forall|i: int|
            0 <= i < blocks.len() ==> #[trigger] blocks[i].0 < 32 && blocks[i].1.len()
                <= usize::MAX,
    ensures
        parsed_nal(nal_unit(idr, blocks)) == Ok::<(bool, Seq<(u8, Seq<u8>)>), Seq<char>>(
            (idr, blocks),
        ),
{
    let raw = raw_bytes(idr, blocks);
    let nal = nal_unit(idr, blocks);
    let body = escape(raw, 2, 0);
    let b0 = nal_header_byte(idr);
    assert(raw[0] == b0 && raw[1] == 0xFF);
    assert(escape(raw, 1, 0) =~= seq![0xFFu8] + body);
    assert(escape(raw, 0, 0) =~= seq![b0] + escape(raw, 1, 0));
    let end = nal.len() - 1;
    assert(nal =~= (seq![0u8, 0u8, 1u8, b0, 0xFFu8] + body).push(0x80));
    assert(nal.subrange(5, end) =~= body);
    lemma_unescape(nal, 5, end, raw, 2, 0);
    let rbsp = unescape(nal, 5, end, 0);
    assert(rbsp =~= blocks_bytes(blocks, 0));
    assert(rbsp.subrange(0, rbsp.len() as int) =~= rbsp);
    lemma_split_blocks(rbsp, 0, blocks, 0);
    assert(blocks.subrange(0, blocks.len() as int) =~= blocks);
}

} // verus!
