//! Per-picture payload writers: picture configuration and encoded (tiled) data, in the order in
//! which a decoder parses them.
use crate::bitstream;
use crate::bitstream::BitWriter;
use crate::config;
use crate::config::{LcevcConfig, TileDimensions};
use crate::entropy::rle;
use crate::nal;
use vstd::prelude::*;

verus! {

/// One encoded coefficient chunk (a layer of one plane/LOQ/tile).
pub struct Chunk {
    pub entropy_enabled: bool,
    pub rle_only: bool,
    pub data: Vec<u8>,
}

/// What a chunk holds.
#[verifier::ext_equal]
pub struct ChunkModel {
    pub enabled: bool,
    pub rle_only: bool,
    pub data: Seq<u8>,
}

impl View for Chunk {
    type V = ChunkModel;

    open spec fn view(&self) -> ChunkModel {
        ChunkModel { enabled: self.entropy_enabled, rle_only: self.rle_only, data: self.data@ }
    }
}

/// The chunks of the tiles of a layer.
pub open spec fn tiles_view(tiles: Seq<Chunk>) -> Seq<ChunkModel> {
    Seq::new(tiles.len(), |i: int| tiles[i]@)
}

/// There is a chunk of at least one tile for every layer of both LOQs of every plane, and for
/// the temporal signal of every plane where it is signalled.
pub open spec fn chunks_complete(
    residual: Seq<Vec<Vec<Vec<Chunk>>>>,
    temporal: Seq<Vec<Chunk>>,
    planes: int,
    layers: int,
    signalling: bool,
) -> bool {
    &&& residual.len() >= planes
    &&& forall|p: int| 0 <= p < planes ==> #[trigger] residual[p]@.len() >= 2
    &&& forall|p: int, q: int|
        0 <= p < planes && 0 <= q < 2 ==> #[trigger] residual[p]@[q]@.len() >= layers
    &&& forall|p: int, q: int, l: int|
        0 <= p < planes && 0 <= q < 2 && 0 <= l < layers
            ==> #[trigger] residual[p]@[q]@[l]@.len() >= 1
    &&& signalling ==> temporal.len() >= planes
    &&& signalling ==> forall|p: int|
        0 <= p < planes ==> #[trigger] temporal[p]@.len() >= 1
}

/// Layers per plane, in the order of the stream: those of LOQ1, those of LOQ0, and the temporal
/// signal where there is one.
pub open spec fn layers_per_plane(layers: int, signalling: bool) -> int {
    2 * layers + (if signalling {
        1int
    } else {
        0int
    })
}

/// The chunks of the `k`-th layer of the stream.
pub open spec fn stream_layer(
    residual: Seq<Vec<Vec<Vec<Chunk>>>>,
    temporal: Seq<Vec<Chunk>>,
    layers: int,
    signalling: bool,
    k: int,
) -> Seq<ChunkModel> {
    let m = layers_per_plane(layers, signalling);
    let p = k / m;
    let r = k % m;
    if r < 2 * layers {
        tiles_view(residual[p]@[r / layers]@[r % layers]@)
    } else {
        tiles_view(temporal[p]@)
    }
}

/// All layers of the stream.
pub open spec fn stream_layers(
    residual: Seq<Vec<Vec<Vec<Chunk>>>>,
    temporal: Seq<Vec<Chunk>>,
    planes: int,
    layers: int,
    signalling: bool,
) -> Seq<Seq<ChunkModel>> {
    Seq::new(
        (planes * layers_per_plane(layers, signalling)) as nat,
        |k: int| stream_layer(residual, temporal, layers, signalling, k),
    )
}

/// The smaller of a step width and the largest one that fits fifteen bits.
pub open spec fn step_code(sw: u32) -> nat {
    if sw < 0x7FFF {
        sw as nat
    } else {
        0x7FFF
    }
}

/// The bits of some bytes after others.
pub open spec fn with_bytes(s: Seq<bool>, bytes: Seq<u8>) -> Seq<bool> {
    s + bitstream::bytes_bits(bytes)
}

/// The fixed part of the picture configuration.
pub open spec fn picture_head_bits(sw1: u32, sw2: u32, temporal_refresh: bool) -> Seq<bool> {
    let s = Seq::<bool>::empty();
    let s = s.push(false);
    let s = s + bitstream::bits_of(5, 3);
    let s = s.push(false);
    let s = s.push(false);
    let s = s.push(temporal_refresh);
    let s = s.push(true);
    let s = s + bitstream::bits_of(step_code(sw2), 15);
    let s = s.push(false);
    let s = s + bitstream::bits_of(step_code(sw1), 15);
    s.push(false)
}

/// The bits of the picture configuration: fixed part, then both quantization matrices.
pub open spec fn picture_config_bits(
    sw1: u32,
    sw2: u32,
    temporal_refresh: bool,
    qm0: Seq<u8>,
    qm1: Seq<u8>,
) -> Seq<bool> {
    with_bytes(with_bytes(picture_head_bits(sw1, sw2, temporal_refresh), qm0), qm1)
}

/// Write all bits of some bytes.
fn write_all(w: &mut BitWriter, bytes: &Vec<u8>)
    requires
        old(w).wf(),
        old(w)@.len() + 8 * bytes@.len() <= u64::MAX,
    ensures
        final(w).wf(),
        final(w)@ == with_bytes(old(w)@, bytes@),
        final(w)@.len() == old(w)@.len() + 8 * bytes@.len(),
{
    let ghost start = w@;
    let mut i: usize = 0;
    assert(w@ =~= start + bitstream::bytes_bits(bytes@.subrange(0, 0)));
    while i < bytes.len()
        invariant
            i <= bytes@.len(),
            w.wf(),
            start.len() + 8 * bytes@.len() <= u64::MAX,
            w@.len() == start.len() + 8 * i,
            w@ == start + bitstream::bytes_bits(bytes@.subrange(0, i as int)),
        decreases bytes@.len() - i,
    {
        proof {
            bitstream::lemma_bytes_bits_push(bytes@.subrange(0, i as int), bytes@[i as int]);
            assert(bytes@.subrange(0, i + 1) =~= bytes@.subrange(0, i as int).push(
                bytes@[i as int],
            ));
        }
        let ghost before = w@;
        w.write_byte(bytes[i]);
        i = i + 1;
        assert(w@ =~= start + bitstream::bytes_bits(bytes@.subrange(0, i as int)));
    }
    assert(bytes@.subrange(0, i as int) =~= bytes@);
}

fn write_picture_head(w: &mut BitWriter, sw1: u32, sw2: u32, temporal_refresh: bool)
    requires
        old(w).wf(),
        old(w)@ == Seq::<bool>::empty(),
    ensures
        final(w).wf(),
        final(w)@ == picture_head_bits(sw1, sw2, temporal_refresh),
        final(w)@.len() == 40,
{
    // no_enhancement=0, quant_matrix_mode=5 (CustomBothUnique), dequant_offset_signalled=0,
    // picture_type=0 (frame), temporal_refresh, step_width_level1_enabled=1.
    w.write_bit(false);
    w.write_bits(5, 3);
    w.write_bit(false);
    w.write_bit(false);
    w.write_bit(temporal_refresh);
    w.write_bit(true);
    // step_width_level2 (15 bits) + dithering_control_flag (0).
    let code2: u64 = if sw2 < 0x7FFF {
        sw2 as u64
    } else {
        0x7FFF
    };
    w.write_bits(code2, 15);
    w.write_bit(false);
    // step_width_level1 (15 bits) + level1_filtering_enabled_flag (0).
    let code1: u64 = if sw1 < 0x7FFF {
        sw1 as u64
    } else {
        0x7FFF
    };
    w.write_bits(code1, 15);
    w.write_bit(false);
}

/// Write the picture configuration payload (block type 2).
///
/// `quant_matrix` carries the per-LOQ matrices; the config signals quant_matrix_mode =
/// CustomBothUnique (5) with both matrices in the stream, so a decoder needs no cross-frame
/// state.
pub fn write_picture_config(
    cfg: &LcevcConfig,
    step_width_l1: u32,
    step_width_l2: u32,
    temporal_refresh: bool,
    quant_matrix: &[Vec<u8>; 2],
) -> (out: Vec<u8>)
    requires
        quant_matrix@[0]@.len() <= 0xffff_ffff,
        quant_matrix@[1]@.len() <= 0xffff_ffff,
    ensures
        out@ == bitstream::pack(
            picture_config_bits(
                step_width_l1,
                step_width_l2,
                temporal_refresh,
                quant_matrix@[0]@,
                quant_matrix@[1]@,
            ),
        ),
        out@.len() == 5 + quant_matrix@[0]@.len() + quant_matrix@[1]@.len(),
{
    let mut w = BitWriter::new();
    write_picture_head(&mut w, step_width_l1, step_width_l2, temporal_refresh);
    write_all(&mut w, &quant_matrix[0]);
    write_all(&mut w, &quant_matrix[1]);
    proof {
        bitstream::lemma_pack(w@);
    }
    w.finish()
}

/// The flags of layers from `k` on: two bits for the first chunk of each.
pub open spec fn flag_bits(layers: Seq<Seq<ChunkModel>>, k: int) -> Seq<bool>
    decreases layers.len() - k,
{
    if k < 0 || k >= layers.len() {
        Seq::empty()
    } else {
        seq![layers[k][0].enabled, layers[k][0].rle_only] + flag_bits(layers, k + 1)
    }
}

/// A chunk as it stands in the stream: its size and its data, or nothing if it is disabled.
pub open spec fn sized_data(c: ChunkModel) -> Seq<u8> {
    if c.enabled {
        bitstream::multibyte(c.data.len()) + c.data
    } else {
        Seq::empty()
    }
}

/// The data of the first chunk of each layer from `k` on.
pub open spec fn layer_data(layers: Seq<Seq<ChunkModel>>, k: int) -> Seq<u8>
    decreases layers.len() - k,
{
    if k < 0 || k >= layers.len() {
        Seq::empty()
    } else {
        sized_data(layers[k][0]) + layer_data(layers, k + 1)
    }
}

/// The encoded data of a picture that is not tiled.
pub open spec fn plain_payload(layers: Seq<Seq<ChunkModel>>) -> Seq<u8> {
    bitstream::pack(flag_bits(layers, 0)) + layer_data(layers, 0)
}

/// One rle-only flag per layer from `k` on.
pub open spec fn rle_bits(layers: Seq<Seq<ChunkModel>>, k: int) -> Seq<bool>
    decreases layers.len() - k,
{
    if k < 0 || k >= layers.len() {
        Seq::empty()
    } else {
        seq![layers[k][0].rle_only] + rle_bits(layers, k + 1)
    }
}

/// Whether each chunk of a layer is enabled.
pub open spec fn enabled_flags(tiles: Seq<ChunkModel>) -> Seq<bool> {
    Seq::new(tiles.len(), |i: int| tiles[i].enabled)
}

/// Whether each chunk of the first `k` layers is enabled.
pub open spec fn all_enabled(layers: Seq<Seq<ChunkModel>>, k: int) -> Seq<bool>
    decreases k,
{
    if k <= 0 {
        Seq::empty()
    } else {
        all_enabled(layers, k - 1) + enabled_flags(layers[k - 1])
    }
}

/// Lengths of the runs of equal flags.
pub open spec fn run_lengths(flags: Seq<bool>) -> Seq<nat>
    decreases flags.len(),
{
    if flags.len() == 0 {
        Seq::empty()
    } else {
        let rest = run_lengths(flags.drop_last());
        if flags.len() >= 2 && flags[flags.len() - 2] == flags.last() {
            rest.update(rest.len() - 1, rest.last() + 1)
        } else {
            rest.push(1)
        }
    }
}

/// Numbers as multibytes, one after the other, from `k` on.
pub open spec fn multibytes(v: Seq<nat>, k: int) -> Seq<u8>
    decreases v.len() - k,
{
    if k < 0 || k >= v.len() {
        Seq::empty()
    } else {
        bitstream::multibyte(v[k]) + multibytes(v, k + 1)
    }
}

/// The per-tile flags, as raw bits or as the first flag and run lengths.
pub open spec fn tile_flag_bytes(flags: Seq<bool>, compressed: bool) -> Seq<u8> {
    if compressed {
        seq![
            if flags.len() > 0 && flags[0] {
                1u8
            } else {
                0u8
            },
        ] + multibytes(run_lengths(flags), 0)
    } else {
        bitstream::pack(flags)
    }
}

/// The enabled chunks.
pub open spec fn enabled_only(tiles: Seq<ChunkModel>) -> Seq<ChunkModel>
    decreases tiles.len(),
{
    if tiles.len() == 0 {
        Seq::empty()
    } else if tiles.last().enabled {
        enabled_only(tiles.drop_last()).push(tiles.last())
    } else {
        enabled_only(tiles.drop_last())
    }
}

/// Sizes of chunks, in sixteen bits.
pub open spec fn chunk_sizes16(tiles: Seq<ChunkModel>) -> Seq<u16> {
    Seq::new(tiles.len(), |i: int| (tiles[i].data.len() % 65536) as u16)
}

/// Differences of each size to the one before, in sixteen bits.
pub open spec fn size_deltas(sizes: Seq<u16>) -> Seq<u16> {
    Seq::new(
        sizes.len(),
        |i: int|
            ((sizes[i] - (if i == 0 {
                0int
            } else {
                sizes[i - 1] as int
            })) % 65536) as u16,
    )
}

/// The size stream of a layer: none, plain sizes, or differences.
pub open spec fn size_stream(tiles: Seq<ChunkModel>, compression: u8) -> Seq<u8> {
    let sizes = chunk_sizes16(tiles);
    if compression == 0 {
        Seq::empty()
    } else if compression == 2 {
        rle::sizes_chunk(size_deltas(sizes), true)
    } else {
        rle::sizes_chunk(sizes, false)
    }
}

/// The data of chunks from `k` on, each after its size where the sizes are not in a stream of
/// their own.
pub open spec fn tiles_data(tiles: Seq<ChunkModel>, inline_sizes: bool, k: int) -> Seq<u8>
    decreases tiles.len() - k,
{
    if k < 0 || k >= tiles.len() {
        Seq::empty()
    } else {
        (if inline_sizes {
            bitstream::multibyte(tiles[k].data.len())
        } else {
            Seq::empty()
        }) + tiles[k].data + tiles_data(tiles, inline_sizes, k + 1)
    }
}

/// One layer's tile data.
pub open spec fn layer_tile_data(tiles: Seq<ChunkModel>, compression: u8) -> Seq<u8> {
    let on = enabled_only(tiles);
    size_stream(on, compression) + tiles_data(on, compression == 0, 0)
}

/// The tile data of all layers from `k` on.
pub open spec fn all_tile_data(layers: Seq<Seq<ChunkModel>>, compression: u8, k: int) -> Seq<u8>
    decreases layers.len() - k,
{
    if k < 0 || k >= layers.len() {
        Seq::empty()
    } else {
        layer_tile_data(layers[k], compression) + all_tile_data(layers, compression, k + 1)
    }
}

/// The encoded data of a tiled picture.
pub open spec fn tiled_payload(
    layers: Seq<Seq<ChunkModel>>,
    flags_compressed: bool,
    compression: u8,
) -> Seq<u8> {
    bitstream::pack(rle_bits(layers, 0)) + tile_flag_bytes(
        all_enabled(layers, layers.len() as int),
        flags_compressed,
    ) + all_tile_data(layers, compression, 0)
}

/// The encoded-data payload of a picture.
pub open spec fn encoded_payload(cfg: LcevcConfig, layers: Seq<Seq<ChunkModel>>) -> Seq<u8> {
    if cfg.tile_dimensions != TileDimensions::Untiled {
        tiled_payload(layers, cfg.per_tile_entropy_compression, cfg.tile_size_compression)
    } else {
        plain_payload(layers)
    }
}

/// The chunks of a frame, one list per layer of the stream.
struct LayerOrder<'a> {
    residual: &'a [Vec<Vec<Vec<Chunk>>>],
    temporal: &'a [Vec<Chunk>],
    planes: usize,
    layers: usize,
    signalling: bool,
}

impl<'a> LayerOrder<'a> {
    spec fn wf(&self) -> bool {
        &&& chunks_complete(
            self.residual@,
            self.temporal@,
            self.planes as int,
            self.layers as int,
            self.signalling,
        )
        &&& 1 <= self.planes <= 3
        &&& 4 <= self.layers <= 16
    }

    spec fn list(&self) -> Seq<Seq<ChunkModel>> {
        stream_layers(
            self.residual@,
            self.temporal@,
            self.planes as int,
            self.layers as int,
            self.signalling,
        )
    }

    /// Number of layers.
    fn len(&self) -> (n: usize)
        requires
            self.wf(),
        ensures
            n == self.list().len(),
            n <= 99,
    {
        let per_plane: usize = 2 * self.layers + (if self.signalling {
            1usize
        } else {
            0usize
        });
        assert(0 <= self.planes * per_plane <= 3 * 33) by (nonlinear_arith)
            requires
                1 <= self.planes <= 3,
                8 <= per_plane <= 33,
        ;
        self.planes * per_plane
    }

    /// The chunks of a layer.
    fn get(&self, k: usize) -> (tiles: &Vec<Chunk>)
        requires
            self.wf(),
            k < self.list().len(),
        ensures
            tiles_view(tiles@) == self.list()[k as int],
            tiles@.len() >= 1,
    {
        let per_plane: usize = 2 * self.layers + (if self.signalling {
            1usize
        } else {
            0usize
        });
        let p: usize = k / per_plane;
        let r: usize = k % per_plane;
        proof {
            let m = per_plane as int;
            vstd::arithmetic::div_mod::lemma_fundamental_div_mod(k as int, m);
            vstd::arithmetic::div_mod::lemma_mod_bound(k as int, m);
            assert(p < self.planes) by (nonlinear_arith)
                requires
                    k == m * p + r,
                    0 <= r,
                    k < self.planes * m,
                    m > 0,
            ;
            assert(m == layers_per_plane(self.layers as int, self.signalling));
            assert(self.residual@[p as int]@.len() >= 2);
        }
        if r < 2 * self.layers {
            let q: usize = r / self.layers;
            let l: usize = r % self.layers;
            proof {
                let n = self.layers as int;
                vstd::arithmetic::div_mod::lemma_fundamental_div_mod(r as int, n);
                vstd::arithmetic::div_mod::lemma_mod_bound(r as int, n);
                assert(q < 2) by (nonlinear_arith)
                    requires
                        r == n * q + l,
                        0 <= l,
                        r < 2 * n,
                        n > 0,
                ;
                assert(self.residual@[p as int]@[q as int]@.len() >= self.layers);
                assert(self.residual@[p as int]@[q as int]@[l as int]@.len() >= 1);
            }
            &self.residual[p][q][l]
        } else {
            assert(self.temporal@[p as int]@.len() >= 1);
            &self.temporal[p]
        }
    }
}

/// Build the encoded-data payload for a frame.
///
/// `residual_chunks[plane][loq 0=L1,1=L2][layer]` is the per-tile chunk list (one chunk per tile
/// for that plane/LOQ; a single chunk when not tiled). `temporal_chunks[plane]` holds one chunk
/// per LOQ0 tile.
pub fn write_encoded_data(
    cfg: &LcevcConfig,
    residual_chunks: &[Vec<Vec<Vec<Chunk>>>],
    temporal_chunks: &[Vec<Chunk>],
    temporal_signalling_present: bool,
) -> (out: Vec<u8>)
    requires
        chunks_complete(
            residual_chunks@,
            temporal_chunks@,
            config::planes_of(cfg.chroma) as int,
            config::layers_of(cfg.transform) as int,
            temporal_signalling_present,
        ),
        cfg.tile_dimensions != TileDimensions::Untiled ==> tile_lists_bounded(
            stream_layers(
                residual_chunks@,
                temporal_chunks@,
                config::planes_of(cfg.chroma) as int,
                config::layers_of(cfg.transform) as int,
                temporal_signalling_present,
            ),
        ),
    ensures
        out@ == encoded_payload(
            *cfg,
            stream_layers(
                residual_chunks@,
                temporal_chunks@,
                config::planes_of(cfg.chroma) as int,
                config::layers_of(cfg.transform) as int,
                temporal_signalling_present,
            ),
        ),
{
    let order = LayerOrder {
        residual: residual_chunks,
        temporal: temporal_chunks,
        planes: cfg.num_planes(),
        layers: cfg.num_layers(),
        signalling: temporal_signalling_present,
    };
    if cfg.is_tiled() {
        write_encoded_data_tiled(cfg, &order)
    } else {
        write_encoded_data_plain(&order)
    }
}

/// Numbers of tiles that a stream can address.
pub open spec fn tile_lists_bounded(layers: Seq<Seq<ChunkModel>>) -> bool {
    forall|k: int| 0 <= k < layers.len() ==> #[trigger] layers[k].len() <= 0x1_0000_0000
}

/// Append a multibyte.
fn write_multibyte_into(out: &mut Vec<u8>, value: u64)
    ensures
        final(out)@ == old(out)@ + bitstream::multibyte(value as nat),
{
    let mut groups = bitstream::multibyte_groups(value);
    out.append(&mut groups);
}

fn write_encoded_data_plain(order: &LayerOrder) -> (out: Vec<u8>)
    requires
        order.wf(),
    ensures
        out@ == plain_payload(order.list()),
{
    let ghost list = order.list();
    let n: usize = order.len();
    let mut w = BitWriter::new();
    let mut k: usize = 0;
    assert(w@ + flag_bits(list, 0) =~= flag_bits(list, 0));
    while k < n
        invariant
            k <= n == list.len(),
            n <= 99,
            order.wf(),
            list == order.list(),
            w.wf(),
            w@.len() == 2 * k,
            w@ + flag_bits(list, k as int) == flag_bits(list, 0),
        decreases n - k,
    {
        let ghost before = w@;
        let tiles = order.get(k);
        w.write_bit(tiles[0].entropy_enabled);
        w.write_bit(tiles[0].rle_only);
        proof {
            assert(list[k as int][0] == tiles@[0]@);
            assert(w@ + flag_bits(list, k + 1) =~= before + flag_bits(list, k as int));
        }
        k = k + 1;
    }
    assert(w@ =~= flag_bits(list, 0));
    let mut out = w.finish();
    let ghost head = out@;
    let mut j: usize = 0;
    assert(out@ + layer_data(list, 0) =~= plain_payload(list));
    while j < n
        invariant
            j <= n == list.len(),
            order.wf(),
            list == order.list(),
            out@ + layer_data(list, j as int) == plain_payload(list),
        decreases n - j,
    {
        let ghost before = out@;
        let tiles = order.get(j);
        proof {
            assert(list[j as int][0] == tiles@[0]@);
        }
        if tiles[0].entropy_enabled {
            write_multibyte_into(&mut out, tiles[0].data.len() as u64);
            nal::append_bytes(&mut out, &tiles[0].data);
        }
        assert(out@ + layer_data(list, j + 1) =~= before + layer_data(list, j as int));
        j = j + 1;
    }
    assert(out@ =~= plain_payload(list));
    out
}

/// Append the run lengths of flags.
fn write_flag_runs(out: &mut Vec<u8>, flags: &Vec<bool>)
    ensures
        final(out)@ == old(out)@ + tile_flag_bytes(flags@, true),
{
    let ghost start = out@;
    let first: bool = flags.len() > 0 && flags[0];
    out.push(
        if first {
            1
        } else {
            0
        },
    );
    let mut runs: Vec<u64> = Vec::new();
    let mut i: usize = 0;
    assert(runs_as_nat(runs@) =~= run_lengths(flags@.subrange(0, 0)));
    while i < flags.len()
        invariant
            i <= flags@.len(),
            runs_as_nat(runs@) == run_lengths(flags@.subrange(0, i as int)),
            i > 0 ==> runs@.len() > 0,
            forall|k: int| 0 <= k < runs@.len() ==> #[trigger] runs@[k] <= i,
        decreases flags@.len() - i,
    {
        let ghost part = flags@.subrange(0, i + 1);
        let ghost before = runs@;
        assert(part.drop_last() =~= flags@.subrange(0, i as int));
        if i > 0 && flags[i - 1] == flags[i] {
            let n: usize = runs.len();
            let count: u64 = runs[n - 1];
            assert(count <= i);
            runs.set(n - 1, count + 1);
            assert(runs_as_nat(runs@) =~= runs_as_nat(before).update(
                n - 1,
                runs_as_nat(before).last() + 1,
            ));
        } else {
            runs.push(1);
            assert(runs_as_nat(runs@) =~= runs_as_nat(before).push(1));
        }
        i = i + 1;
    }
    assert(flags@.subrange(0, i as int) =~= flags@);
    let ghost all = runs_as_nat(runs@);
    let mut k: usize = 0;
    assert(out@ + multibytes(all, 0) =~= start + tile_flag_bytes(flags@, true));
    while k < runs.len()
        invariant
            k <= runs@.len(),
            all == runs_as_nat(runs@),
            out@ + multibytes(all, k as int) == start + tile_flag_bytes(flags@, true),
        decreases runs@.len() - k,
    {
        let ghost before = out@;
        write_multibyte_into(out, runs[k]);
        assert(out@ + multibytes(all, k + 1) =~= before + multibytes(all, k as int));
        k = k + 1;
    }
    assert(out@ =~= start + tile_flag_bytes(flags@, true));
}

spec fn runs_as_nat(runs: Seq<u64>) -> Seq<nat> {
    Seq::new(runs.len(), |i: int| runs[i] as nat)
}

/// The flags of the tiles of a layer, one after the other.
fn push_flags(flags: &mut Vec<bool>, tiles: &Vec<Chunk>)
    ensures
        final(flags)@ == old(flags)@ + enabled_flags(tiles_view(tiles@)),
{
    let ghost start = flags@;
    let ghost all = enabled_flags(tiles_view(tiles@));
    let mut i: usize = 0;
    assert(flags@ =~= start + all.subrange(0, 0));
    while i < tiles.len()
        invariant
            i <= tiles@.len(),
            all == enabled_flags(tiles_view(tiles@)),
            flags@ == start + all.subrange(0, i as int),
        decreases tiles@.len() - i,
    {
        flags.push(tiles[i].entropy_enabled);
        i = i + 1;
        assert(flags@ =~= start + all.subrange(0, i as int));
    }
    assert(all.subrange(0, i as int) =~= all);
}

proof fn lemma_all_enabled_len(layers: Seq<Seq<ChunkModel>>, k: int)
    requires
        0 <= k <= layers.len(),
        tile_lists_bounded(layers),
    ensures
        all_enabled(layers, k).len() <= 0x1_0000_0000 * k,
    decreases k,
{
    if k > 0 {
        lemma_all_enabled_len(layers, k - 1);
        assert(layers[k - 1].len() <= 0x1_0000_0000);
    }
}

/// The tile flags as raw bits.
fn pack_flags(flags: &Vec<bool>) -> (out: Vec<u8>)
    requires
        flags@.len() <= 0x1000_0000_0000,
    ensures
        out@ == bitstream::pack(flags@),
{
    let mut w = BitWriter::new();
    let mut i: usize = 0;
    assert(w@ =~= flags@.subrange(0, 0));
    while i < flags.len()
        invariant
            i <= flags@.len() <= 0x1000_0000_0000,
            w.wf(),
            w@ == flags@.subrange(0, i as int),
        decreases flags@.len() - i,
    {
        w.write_bit(flags[i]);
        i = i + 1;
        assert(w@ =~= flags@.subrange(0, i as int));
    }
    assert(w@ =~= flags@);
    w.finish()
}

fn write_encoded_data_tiled(cfg: &LcevcConfig, order: &LayerOrder) -> (out: Vec<u8>)
    requires
        order.wf(),
        tile_lists_bounded(order.list()),
    ensures
        out@ == tiled_payload(
            order.list(),
            cfg.per_tile_entropy_compression,
            cfg.tile_size_compression,
        ),
{
    let ghost list = order.list();
    let n: usize = order.len();
    // RLE-only flags: 1 bit per layer. Broadcast to all tiles of the layer.
    let mut w = BitWriter::new();
    let mut flags: Vec<bool> = Vec::new();
    let mut k: usize = 0;
    assert(w@ + rle_bits(list, 0) =~= rle_bits(list, 0));
    while k < n
        invariant
            k <= n == list.len(),
            n <= 99,
            order.wf(),
            list == order.list(),
            w.wf(),
            w@.len() == k,
            w@ + rle_bits(list, k as int) == rle_bits(list, 0),
            flags@ == all_enabled(list, k as int),
        decreases n - k,
    {
        let ghost before = w@;
        let tiles = order.get(k);
        w.write_bit(tiles[0].rle_only);
        push_flags(&mut flags, tiles);
        proof {
            assert(list[k as int][0] == tiles@[0]@);
            assert(w@ + rle_bits(list, k + 1) =~= before + rle_bits(list, k as int));
        }
        k = k + 1;
    }
    assert(w@ =~= rle_bits(list, 0));
    let mut out = w.finish();
    // Per-tile entropy flags: raw bits or RLE-compressed.
    proof {
        lemma_all_enabled_len(list, n as int);
    }
    if cfg.per_tile_entropy_compression {
        write_flag_runs(&mut out, &flags);
    } else {
        let mut packed = pack_flags(&flags);
        out.append(&mut packed);
    }
    // Chunk data with optional size compression.
    let ghost total = tiled_payload(
        list,
        cfg.per_tile_entropy_compression,
        cfg.tile_size_compression,
    );
    let mut j: usize = 0;
    assert(out@ + all_tile_data(list, cfg.tile_size_compression, 0) =~= total);
    while j < n
        invariant
            j <= n == list.len(),
            order.wf(),
            list == order.list(),
            tile_lists_bounded(list),
            out@ + all_tile_data(list, cfg.tile_size_compression, j as int) == total,
        decreases n - j,
    {
        let ghost before = out@;
        let tiles = order.get(j);
        assert(list[j as int].len() <= 0x1_0000_0000);
        write_layer_tile_data(cfg, &mut out, tiles);
        assert(out@ + all_tile_data(list, cfg.tile_size_compression, j + 1) =~= before
            + all_tile_data(list, cfg.tile_size_compression, j as int));
        j = j + 1;
    }
    assert(out@ =~= total);
    out
}

/// Write one layer's tile data: either per-tile multibyte sizes inline, or a compressed size
/// stream (with optional delta coding) followed by the tile data.
fn write_layer_tile_data(cfg: &LcevcConfig, out: &mut Vec<u8>, chunks: &Vec<Chunk>)
    requires
        chunks@.len() <= 0x1_0000_0000,
    ensures
        final(out)@ == old(out)@ + layer_tile_data(tiles_view(chunks@), cfg.tile_size_compression),
{
    let ghost start = out@;
    let ghost tiles = tiles_view(chunks@);
    let ghost on = enabled_only(tiles);
    let mut enabled: Vec<usize> = Vec::new();
    let mut i: usize = 0;
    assert(tiles.subrange(0, 0) =~= Seq::empty());
    while i < chunks.len()
        invariant
            i <= chunks@.len(),
            tiles == tiles_view(chunks@),
            enabled@.len() == enabled_only(tiles.subrange(0, i as int)).len(),
            enabled@.len() <= i,
            forall|k: int|
                0 <= k < enabled@.len() ==> #[trigger] enabled@[k] < chunks@.len()
                    && chunks@[enabled@[k] as int]@ == enabled_only(
                    tiles.subrange(0, i as int),
                )[k],
        decreases chunks@.len() - i,
    {
        assert(tiles.subrange(0, i + 1).drop_last() =~= tiles.subrange(0, i as int));
        if chunks[i].entropy_enabled {
            enabled.push(i);
        }
        i = i + 1;
    }
    assert(tiles.subrange(0, i as int) =~= tiles);
    if cfg.tile_size_compression != 0 {
        let mut stream = write_size_stream(chunks, &enabled, cfg.tile_size_compression == 2);
        proof {
            let sizes = Seq::new(
                enabled@.len(),
                |k: int| (chunks@[enabled@[k] as int].data@.len() % 65536) as u16,
            );
            assert(sizes =~= chunk_sizes16(on));
        }
        out.append(&mut stream);
    }
    assert(out@ =~= start + size_stream(on, cfg.tile_size_compression));
    let ghost inline_sizes: bool = cfg.tile_size_compression == 0;
    let ghost total = start + layer_tile_data(tiles, cfg.tile_size_compression);
    let mut k: usize = 0;
    assert(out@ + tiles_data(on, inline_sizes, 0) =~= total);
    while k < enabled.len()
        invariant
            k <= enabled@.len() == on.len(),
            inline_sizes == (cfg.tile_size_compression == 0),
            forall|k: int|
                0 <= k < enabled@.len() ==> #[trigger] enabled@[k] < chunks@.len()
                    && chunks@[enabled@[k] as int]@ == on[k],
            out@ + tiles_data(on, inline_sizes, k as int) == total,
        decreases enabled@.len() - k,
    {
        let ghost before = out@;
        let j: usize = enabled[k];
        assert(chunks@[enabled@[k as int] as int]@ == on[k as int]);
        if cfg.tile_size_compression == 0 {
            write_multibyte_into(out, chunks[j].data.len() as u64);
        }
        nal::append_bytes(out, &chunks[j].data);
        assert(out@ + tiles_data(on, inline_sizes, k + 1) =~= before + tiles_data(
            on,
            inline_sizes,
            k as int,
        ));
        k = k + 1;
    }
    assert(out@ =~= total);
}

/// The size stream of the chunks at the given indices.
fn write_size_stream(chunks: &Vec<Chunk>, at: &Vec<usize>, deltas: bool) -> (out: Vec<u8>)
    requires
        at@.len() <= 0x1_0000_0000,
        forall|k: int| 0 <= k < at@.len() ==> #[trigger] at@[k] < chunks@.len(),
    ensures
        ({
            let sizes = Seq::new(
                at@.len(),
                |k: int| (chunks@[at@[k] as int].data@.len() % 65536) as u16,
            );
            out@ == (if deltas {
                rle::sizes_chunk(size_deltas(sizes), true)
            } else {
                rle::sizes_chunk(sizes, false)
            })
        }),
{
    let ghost all = Seq::new(
        at@.len(),
        |k: int| (chunks@[at@[k] as int].data@.len() % 65536) as u16,
    );
    let mut sizes: Vec<u16> = Vec::new();
    let mut k: usize = 0;
    while k < at.len()
        invariant
            k <= at@.len(),
            forall|k: int| 0 <= k < at@.len() ==> #[trigger] at@[k] < chunks@.len(),
            all == Seq::new(
                at@.len(),
                |k: int| (chunks@[at@[k] as int].data@.len() % 65536) as u16,
            ),
            sizes@ == all.subrange(0, k as int),
        decreases at@.len() - k,
    {
        let j: usize = at[k];
        assert(at@[k as int] < chunks@.len());
        sizes.push((chunks[j].data.len() % 65536) as u16);
        k = k + 1;
        assert(sizes@ =~= all.subrange(0, k as int));
    }
    assert(sizes@ =~= all);
    if !deltas {
        return rle::write_sizes(sizes.as_slice(), false);
    }
    // Delta coding: a decoder adds each difference to the size before.
    let ghost diffs = size_deltas(all);
    let mut out: Vec<u16> = Vec::new();
    let mut i: usize = 0;
    while i < sizes.len()
        invariant
            i <= sizes@.len(),
            sizes@ == all,
            diffs == size_deltas(all),
            out@ == diffs.subrange(0, i as int),
        decreases sizes@.len() - i,
    {
        let prev: i32 = if i == 0 {
            0
        } else {
            sizes[i - 1] as i32
        };
        let d: i32 = sizes[i] as i32 - prev;
        let wrapped: i32 = if d < 0 {
            d + 65536
        } else {
            d
        };
        out.push(wrapped as u16);
        i = i + 1;
        assert(out@ =~= diffs.subrange(0, i as int));
    }
    assert(out@ =~= diffs);
    rle::write_sizes(out.as_slice(), true)
}

} // verus!
