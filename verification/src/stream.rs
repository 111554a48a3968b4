//! The encoded-data block of a picture that is not tiled, as a reader takes it apart: two flags
//! per layer, and the chunks of the layers that carry data.
use crate::bitstream;
use crate::decoder;
use crate::entropy::huffman::BitReader;
use crate::payload;
use crate::payload::{Chunk, ChunkModel};
use vstd::prelude::*;

verus! {

/// Number of layers of a stream.
pub open spec fn layer_count(planes: int, layers: int, signalling: bool) -> int {
    planes * payload::layers_per_plane(layers, signalling)
}

/// The chunks of the layers from `j` on, of `n` in all, in `data` from `off` on. Their flags
/// stand in the order of the layers.
pub open spec fn parsed_chunks(b: Seq<bool>, data: Seq<u8>, off: int, n: int, j: int) -> Result<
    Seq<ChunkModel>,
    Seq<char>,
>
    decreases n - j,
{
    if j >= n {
        Ok(Seq::empty())
    } else if !b[2 * j] {
        match parsed_chunks(b, data, off, n, j + 1) {
            Ok(rest) => Ok(
                seq![ChunkModel { enabled: false, rle_only: b[2 * j + 1], data: Seq::empty() }]
                    + rest,
            ),
            Err(e) => Err(e),
        }
    } else {
        match bitstream::groups7_at(data, off, 0, usize::MAX + 1) {
            None => Err("multibyte overrun"@),
            Some((size, start)) => if start + size > data.len() {
                Err("chunk overruns block"@)
            } else {
                match parsed_chunks(b, data, start + size, n, j + 1) {
                    Ok(rest) => Ok(
                        seq![
                            ChunkModel {
                                enabled: true,
                                rle_only: b[2 * j + 1],
                                data: data.subrange(start, start + size),
                            },
                        ] + rest,
                    ),
                    Err(e) => Err(e),
                }
            },
        }
    }
}

/// The chunks of an encoded-data block, one per layer of the stream, or what is wrong with the
/// block.
pub open spec fn parsed_encoded(
    block: Seq<u8>,
    planes: int,
    layers: int,
    signalling: bool,
) -> Result<Seq<ChunkModel>, Seq<char>> {
    let b = bitstream::bytes_bits(block);
    let n = layer_count(planes, layers, signalling);
    if b.len() < 2 * n {
        Err("eof"@)
    } else {
        let data = block.subrange((2 * n + 7) / 8, block.len() as int);
        parsed_chunks(b, data, 0, n, 0)
    }
}

proof fn lemma_chunks_len(b: Seq<bool>, data: Seq<u8>, off: int, n: int, j: int)
    requires
        j <= n,
    ensures
        parsed_chunks(b, data, off, n, j) matches Ok(list) ==> list.len() == n - j,
    decreases n - j,
{
    if j < n {
        if !b[2 * j] {
            lemma_chunks_len(b, data, off, n, j + 1);
        } else if let Some((size, start)) = bitstream::groups7_at(data, off, 0, usize::MAX + 1) {
            lemma_chunks_len(b, data, start + size, n, j + 1);
        }
    }
}

/// An encoded-data block holds a chunk for every layer.
pub proof fn lemma_parsed_len(block: Seq<u8>, planes: int, layers: int, signalling: bool)
    requires
        layer_count(planes, layers, signalling) >= 0,
    ensures
        parsed_encoded(block, planes, layers, signalling) matches Ok(list) ==> list.len()
            == layer_count(planes, layers, signalling),
{
    let b = bitstream::bytes_bits(block);
    let n = layer_count(planes, layers, signalling);
    if b.len() >= 2 * n {
        let data = block.subrange((2 * n + 7) / 8, block.len() as int);
        lemma_chunks_len(b, data, 0, n, 0);
    }
}

/// Read two flags per layer.
fn read_flags(r: &mut BitReader, n: usize) -> (flags: Option<Vec<(bool, bool)>>)
    requires
        old(r).wf(),
        old(r).pos() == 0,
        n <= 0x1000,
    ensures
        match flags {
            Some(v) => v@.len() == n && 2 * n <= old(r).bits().len() && forall|h: int|
                0 <= h < n ==> #[trigger] v@[h] == (old(r).bits()[2 * h], old(r).bits()[2 * h + 1]),
            None => old(r).bits().len() < 2 * n,
        },
{
    let ghost b = r.bits();
    let mut flags: Vec<(bool, bool)> = Vec::new();
    let mut h: usize = 0;
    while h < n
        invariant
            h <= n <= 0x1000,
            r.wf(),
            r.bits() == b,
            b == old(r).bits(),
            r.pos() == 2 * h,
            2 * h <= b.len(),
            flags@.len() == h,
            forall|k: int| 0 <= k < h ==> #[trigger] flags@[k] == (b[2 * k], b[2 * k + 1]),
        decreases n - h,
    {
        let e: bool = match r.read_bit() {
            Some(v) => v,
            None => {
                return None;
            },
        };
        let rle: bool = match r.read_bit() {
            Some(v) => v,
            None => {
                return None;
            },
        };
        flags.push((e, rle));
        h = h + 1;
    }
    Some(flags)
}

/// Parse an encoded-data block: the chunks in the order of the stream.
pub fn parse_encoded(block: &[u8], planes: usize, layers: usize, signalling: bool) -> (r: Result<
    Vec<Chunk>,
    String,
>)
    requires
        1 <= planes <= 3,
        layers == 4 || layers == 16,
    ensures
        match r {
            Ok(chunks) => parsed_encoded(
                block@,
                planes as int,
                layers as int,
                signalling,
            ) == Ok::<Seq<ChunkModel>, Seq<char>>(payload::tiles_view(chunks@)),
            Err(text) => parsed_encoded(block@, planes as int, layers as int, signalling) == Err::<
                Seq<ChunkModel>,
                Seq<char>,
            >(text@),
        },
{
    let ghost b = bitstream::bytes_bits(block@);
    let extra: usize = if signalling {
        1
    } else {
        0
    };
    let m: usize = 2 * layers + extra;
    let total: usize = if planes == 1 {
        m
    } else if planes == 2 {
        2 * m
    } else {
        3 * m
    };
    proof {
        assert(total == layer_count(planes as int, layers as int, signalling)) by (nonlinear_arith)
            requires
                (planes == 1 && total == m) || (planes == 2 && total == 2 * m) || (planes == 3
                    && total == 3 * m),
                m == payload::layers_per_plane(layers as int, signalling),
                layer_count(planes as int, layers as int, signalling) == planes
                    * payload::layers_per_plane(layers as int, signalling),
        ;
    }
    let mut reader = BitReader::new(block);
    let flags = match read_flags(&mut reader, total) {
        Some(f) => f,
        None => {
            return Err("eof".to_string());
        },
    };
    let from: usize = (2 * total + 7) / 8;
    let data = decoder::copy_range(block, from, block.len());
    let mut chunks: Vec<Chunk> = Vec::new();
    let mut off: usize = 0;
    let mut j: usize = 0;
    let ghost whole = parsed_chunks(b, data@, 0, total as int, 0);
    proof {
        assert(payload::tiles_view(chunks@) =~= Seq::empty());
        if whole is Ok {
            assert(payload::tiles_view(chunks@) + whole->Ok_0 =~= whole->Ok_0);
        }
    }
    while j < total
        invariant
            j <= total,
            total == layer_count(planes as int, layers as int, signalling),
            1 <= planes <= 3,
            layers == 4 || layers == 16,
            flags@.len() == total,
            forall|h: int| 0 <= h < total ==> #[trigger] flags@[h] == (b[2 * h], b[2 * h + 1]),
            off <= data@.len(),
            match parsed_chunks(b, data@, off as int, total as int, j as int) {
                Ok(rest) => whole == Ok::<Seq<ChunkModel>, Seq<char>>(
                    payload::tiles_view(chunks@) + rest,
                ),
                Err(e) => whole == Err::<Seq<ChunkModel>, Seq<char>>(e),
            },
            parsed_encoded(block@, planes as int, layers as int, signalling) == whole,
        decreases total - j,
    {
        let ghost before = payload::tiles_view(chunks@);
        let (enabled, rle_only) = flags[j];
        let mut chunk = Chunk { entropy_enabled: enabled, rle_only, data: Vec::new() };
        if enabled {
            let (size, start) = match decoder::read_multibyte(data.as_slice(), off) {
                Some(x) => x,
                None => {
                    return Err("multibyte overrun".to_string());
                },
            };
            if size > data.len() - start {
                return Err("chunk overruns block".to_string());
            }
            chunk.data = decoder::copy_range(data.as_slice(), start, start + size);
            off = start + size;
        }
        let ghost c = chunk@;
        proof {
            if !enabled {
                assert(c.data =~= Seq::empty());
            }
        }
        chunks.push(chunk);
        proof {
            assert(payload::tiles_view(chunks@) =~= before.push(c));
            let rest = parsed_chunks(b, data@, off as int, total as int, j + 1);
            if rest is Ok {
                assert(before + (seq![c] + rest->Ok_0) =~= before.push(c) + rest->Ok_0);
            }
        }
        j = j + 1;
    }
    assert(payload::tiles_view(chunks@) + Seq::empty() =~= payload::tiles_view(chunks@));
    Ok(chunks)
}

/// A chunk as a reader has it: data that is not sent is empty.
pub open spec fn sent(c: ChunkModel) -> ChunkModel {
    ChunkModel {
        data: if c.enabled {
            c.data
        } else {
            Seq::empty()
        },
        ..c
    }
}

/// The first chunks of the layers from `k` on, as a reader has them.
pub open spec fn sent_from(layers: Seq<Seq<ChunkModel>>, k: int) -> Seq<ChunkModel> {
    Seq::new((layers.len() - k) as nat, |i: int| sent(layers[k + i][0]))
}

/// The flags of a layer among those of all layers.
proof fn lemma_flag_bit(layers: Seq<Seq<ChunkModel>>, k: int, h: int)
    requires
        0 <= k <= h < layers.len(),
    ensures
        payload::flag_bits(layers, k).len() == 2 * (layers.len() - k),
        payload::flag_bits(layers, k)[2 * (h - k)] == layers[h][0].enabled,
        payload::flag_bits(layers, k)[2 * (h - k) + 1] == layers[h][0].rle_only,
    decreases layers.len() - k,
{
    let two = seq![layers[k][0].enabled, layers[k][0].rle_only];
    let rest = payload::flag_bits(layers, k + 1);
    if k + 1 < layers.len() {
        if h > k {
            lemma_flag_bit(layers, k + 1, h);
        } else {
            lemma_flag_bit(layers, k + 1, k + 1);
        }
        assert(payload::flag_bits(layers, k) == two + rest);
    } else {
        assert(rest == Seq::<bool>::empty());
        assert(payload::flag_bits(layers, k) == two + rest);
    }
}

/// The chunks from the `j`-th layer on are read back where their data starts.
proof fn lemma_chunks_read(
    b: Seq<bool>,
    data: Seq<u8>,
    off: int,
    layers: Seq<Seq<ChunkModel>>,
    j: int,
)
    requires
        0 <= j <= layers.len(),
        forall|k: int|
            0 <= k < layers.len() ==> #[trigger] layers[k].len() >= 1 && layers[k][0].data.len()
                <= usize::MAX,
        forall|h: int|
            0 <= h < layers.len() ==> b[2 * h] == #[trigger] layers[h][0].enabled && b[2 * h + 1]
                == layers[h][0].rle_only,
        0 <= off <= data.len(),
        data.subrange(off, data.len() as int) == payload::layer_data(layers, j),
    ensures
        parsed_chunks(b, data, off, layers.len() as int, j) == Ok::<
            Seq<ChunkModel>,
            Seq<char>,
        >(sent_from(layers, j)),
    decreases layers.len() - j,
{
    if j < layers.len() {
        let c = layers[j][0];
        let rest = payload::layer_data(layers, j + 1);
        let tail = data.subrange(off, data.len() as int);
        assert(layers[j].len() >= 1);
        assert(b[2 * j] == c.enabled && b[2 * j + 1] == c.rle_only);
        if c.enabled {
            let size = bitstream::multibyte(c.data.len());
            let start = off + size.len();
            let next = start + c.data.len();
            assert(tail == (size + c.data) + rest);
            assert(tail.len() == size.len() + c.data.len() + rest.len());
            assert(data.subrange(off, start) =~= tail.subrange(0, size.len() as int));
            assert(tail.subrange(0, size.len() as int) =~= size);
            bitstream::law_multibyte_roundtrip(data, off, c.data.len(), usize::MAX + 1);
            assert(data.subrange(start, next) =~= tail.subrange(
                size.len() as int,
                (size.len() + c.data.len()) as int,
            ));
            assert(data.subrange(start, next) =~= c.data);
            assert(data.subrange(next, data.len() as int) =~= rest) by {
                assert(data.subrange(next, data.len() as int) =~= tail.subrange(
                    (size.len() + c.data.len()) as int,
                    tail.len() as int,
                ));
            }
            lemma_chunks_read(b, data, next, layers, j + 1);
        } else {
            assert(Seq::<u8>::empty() + rest =~= rest);
            lemma_chunks_read(b, data, off, layers, j + 1);
        }
        assert(sent_from(layers, j) =~= seq![sent(c)] + sent_from(layers, j + 1));
    } else {
        assert(sent_from(layers, j) =~= Seq::empty());
    }
}

/// The encoded data of a picture that is not tiled is read back as it was written.
pub proof fn law_encoded_data_roundtrip(
    layers: Seq<Seq<ChunkModel>>,
    planes: int,
    n: int,
    signalling: bool,
)
    requires
        planes >= 1,
        n > 0,
        layers.len() == layer_count(planes, n, signalling),
        forall|k: int|
            0 <= k < layers.len() ==> #[trigger] layers[k].len() >= 1 && layers[k][0].data.len()
                <= usize::MAX,
    ensures
        parsed_encoded(payload::plain_payload(layers), planes, n, signalling) == Ok::<
            Seq<ChunkModel>,
            Seq<char>,
        >(sent_from(layers, 0)),
{
    let m = payload::layers_per_plane(n, signalling);
    assert(layers.len() >= 1) by (nonlinear_arith)
        requires
            layers.len() == planes * m,
            planes >= 1,
            m >= 1,
    ;
    let flags = payload::flag_bits(layers, 0);
    let head = bitstream::pack(flags);
    let rest = payload::layer_data(layers, 0);
    let block = payload::plain_payload(layers);
    let b = bitstream::bytes_bits(block);
    lemma_flag_bit(layers, 0, 0);
    bitstream::lemma_pack(flags);
    bitstream::lemma_bytes_bits_add(head, rest);
    assert forall|h: int| 0 <= h < layers.len() implies b[2 * h] == #[trigger] layers[h][0].enabled
        && b[2 * h + 1] == layers[h][0].rle_only by {
        lemma_flag_bit(layers, 0, h);
        assert(b[2 * h] == flags[2 * h]);
        assert(b[2 * h + 1] == flags[2 * h + 1]);
    }
    let data = block.subrange(head.len() as int, block.len() as int);
    assert(data =~= rest);
    assert(data.subrange(0, data.len() as int) =~= rest);
    lemma_chunks_read(b, data, 0, layers, 0);
}

} // verus!
