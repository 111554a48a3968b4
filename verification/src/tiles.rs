//! The data of a tiled picture read back: the flags of its tiles from the lengths of their runs,
//! the sizes of its tiles from their differences, and the tiles from their sizes.
use crate::bitstream;
use crate::payload;
use crate::payload::ChunkModel;
use vstd::prelude::*;

verus! {

/// A flag, `n` times.
pub open spec fn repeated(flag: bool, n: nat) -> Seq<bool> {
    Seq::new(n, |i: int| flag)
}

/// Flags by the lengths of their runs. Every run has the other flag than the one before.
pub open spec fn flags_by_runs(first: bool, runs: Seq<nat>) -> Seq<bool>
    decreases runs.len(),
{
    if runs.len() == 0 {
        Seq::empty()
    } else {
        repeated(first, runs[0]) + flags_by_runs(!first, runs.drop_first())
    }
}

/// The flag of the last run.
spec fn last_flag(first: bool, runs: Seq<nat>) -> bool {
    first == (runs.len() % 2 == 1)
}

proof fn lemma_longer_run(first: bool, runs: Seq<nat>)
    requires
        runs.len() > 0,
    ensures
        flags_by_runs(first, runs.update(runs.len() - 1, runs.last() + 1)) == flags_by_runs(
            first,
            runs,
        ).push(last_flag(first, runs)),
    decreases runs.len(),
{
    let more = runs.update(runs.len() - 1, runs.last() + 1);
    if runs.len() == 1 {
        assert(more.drop_first() =~= Seq::<nat>::empty());
        assert(runs.drop_first() =~= Seq::<nat>::empty());
        assert(flags_by_runs(first, more) =~= flags_by_runs(first, runs).push(first));
    } else {
        let rest = runs.drop_first();
        lemma_longer_run(!first, rest);
        assert(more.drop_first() =~= rest.update(rest.len() - 1, rest.last() + 1));
        assert(flags_by_runs(first, more) =~= flags_by_runs(first, runs).push(
            last_flag(first, runs),
        ));
    }
}

proof fn lemma_one_more_run(first: bool, runs: Seq<nat>)
    ensures
        flags_by_runs(first, runs.push(1)) == flags_by_runs(first, runs).push(
            last_flag(first, runs.push(1)),
        ),
    decreases runs.len(),
{
    let more = runs.push(1);
    if runs.len() == 0 {
        assert(more.drop_first() =~= Seq::<nat>::empty());
        assert(more[0] == 1);
        assert(flags_by_runs(!first, more.drop_first()) =~= Seq::<bool>::empty());
        assert(flags_by_runs(first, runs) =~= Seq::<bool>::empty());
        assert(flags_by_runs(first, more) =~= repeated(first, 1));
        assert(flags_by_runs(first, more) =~= flags_by_runs(first, runs).push(first));
    } else {
        let rest = runs.drop_first();
        lemma_one_more_run(!first, rest);
        assert(more.drop_first() =~= rest.push(1));
        assert(flags_by_runs(first, more) =~= flags_by_runs(first, runs).push(
            last_flag(first, more),
        ));
    }
}

/// The flags of tiles are known from the first of them and the lengths of their runs, and no run
/// is empty.
pub proof fn law_flags_from_runs(flags: Seq<bool>)
    requires
        flags.len() > 0,
    ensures
        flags_by_runs(flags[0], payload::run_lengths(flags)) == flags,
        forall|i: int|
            0 <= i < payload::run_lengths(flags).len() ==> #[trigger] payload::run_lengths(flags)[i]
                >= 1,
{
    lemma_runs(flags);
}

proof fn lemma_runs(flags: Seq<bool>)
    requires
        flags.len() > 0,
    ensures
        payload::run_lengths(flags).len() > 0,
        flags_by_runs(flags[0], payload::run_lengths(flags)) == flags,
        last_flag(flags[0], payload::run_lengths(flags)) == flags.last(),
        forall|i: int|
            0 <= i < payload::run_lengths(flags).len() ==> #[trigger] payload::run_lengths(flags)[i]
                >= 1,
    decreases flags.len(),
{
    let less = flags.drop_last();
    if less.len() == 0 {
        assert(payload::run_lengths(less) =~= Seq::<nat>::empty());
        lemma_one_more_run(flags[0], payload::run_lengths(less));
        assert(flags =~= seq![flags[0]]);
        assert(flags_by_runs(flags[0], payload::run_lengths(flags)) =~= flags);
    } else {
        lemma_runs(less);
        assert(less[0] == flags[0]);
        assert(less.last() == flags[flags.len() - 2]);
        lemma_longer_run(flags[0], payload::run_lengths(less));
        lemma_one_more_run(flags[0], payload::run_lengths(less));
        assert(flags =~= less.push(flags.last()));
    }
}

/// The sum of the first `k` differences.
pub open spec fn summed(deltas: Seq<u16>, k: int) -> int
    decreases k,
{
    if k <= 0 {
        0
    } else {
        summed(deltas, k - 1) + deltas[k - 1]
    }
}

/// The sizes of tiles are the sums of their differences, in 16 bits.
pub proof fn law_sizes_from_deltas(sizes: Seq<u16>, i: int)
    requires
        0 <= i < sizes.len(),
    ensures
        summed(payload::size_deltas(sizes), i + 1) % 65536 == sizes[i],
    decreases i,
{
    if i > 0 {
        law_sizes_from_deltas(sizes, i - 1);
    } else {
        assert(summed(payload::size_deltas(sizes), 0) == 0);
    }
}

/// The tiles of which there are data keep their order.
pub proof fn law_enabled_in_order(tiles: Seq<ChunkModel>)
    ensures
        payload::enabled_only(tiles) == tiles.filter(|c: ChunkModel| c.enabled),
    decreases tiles.len(),
{
    reveal(Seq::filter);
    if tiles.len() > 0 {
        law_enabled_in_order(tiles.drop_last());
    }
}

/// The data of chunks, by themselves.
pub open spec fn data_of(tiles: Seq<ChunkModel>) -> Seq<Seq<u8>> {
    Seq::new(tiles.len(), |i: int| tiles[i].data)
}

/// `n` strings of bytes from a place on, each behind its size as a multibyte of 64 bits, and
/// where they end.
pub open spec fn read_inline(s: Seq<u8>, pos: int, n: int) -> Option<(Seq<Seq<u8>>, int)>
    decreases n,
{
    if n <= 0 {
        Some((Seq::empty(), pos))
    } else {
        match bitstream::groups7_at(s, pos, 0, 0x1_0000_0000_0000_0000) {
            Some((size, at)) => match read_inline(s, at + size, n - 1) {
                Some((rest, end)) => Some((seq![s.subrange(at, at + size)] + rest, end)),
                None => None,
            },
            None => None,
        }
    }
}

/// Strings of bytes of given sizes from a place on, and where they end.
pub open spec fn read_sized(s: Seq<u8>, pos: int, sizes: Seq<nat>) -> (Seq<Seq<u8>>, int)
    decreases sizes.len(),
{
    if sizes.len() == 0 {
        (Seq::empty(), pos)
    } else {
        let (rest, end) = read_sized(s, pos + sizes[0], sizes.drop_first());
        (seq![s.subrange(pos, pos + sizes[0])] + rest, end)
    }
}

/// The sizes of the data of chunks from `k` on.
pub open spec fn sizes_from(tiles: Seq<ChunkModel>, k: int) -> Seq<nat> {
    Seq::new((tiles.len() - k) as nat, |i: int| tiles[k + i].data.len())
}

/// The tiles of a layer are read back from their sizes, where these stand in front of them.
pub proof fn law_tiles_read_inline(s: Seq<u8>, pos: int, tiles: Seq<ChunkModel>)
    requires
        0 <= pos,
        pos + payload::tiles_data(tiles, true, 0).len() <= s.len(),
        s.subrange(pos, pos + payload::tiles_data(tiles, true, 0).len()) == payload::tiles_data(
            tiles,
            true,
            0,
        ),
        forall|i: int|
            0 <= i < tiles.len() ==> #[trigger] tiles[i].data.len() < 0x1_0000_0000_0000_0000,
    ensures
        read_inline(s, pos, tiles.len() as int) == Some(
            (data_of(tiles), pos + payload::tiles_data(tiles, true, 0).len()),
        ),
{
    lemma_read_inline(s, pos, tiles, 0);
    assert(data_of(tiles).subrange(0, tiles.len() as int) =~= data_of(tiles));
}

proof fn lemma_read_inline(s: Seq<u8>, pos: int, tiles: Seq<ChunkModel>, k: int)
    requires
        0 <= pos,
        0 <= k <= tiles.len(),
        pos + payload::tiles_data(tiles, true, k).len() <= s.len(),
        s.subrange(pos, pos + payload::tiles_data(tiles, true, k).len()) == payload::tiles_data(
            tiles,
            true,
            k,
        ),
        forall|i: int|
            0 <= i < tiles.len() ==> #[trigger] tiles[i].data.len() < 0x1_0000_0000_0000_0000,
    ensures
        read_inline(s, pos, tiles.len() - k) == Some(
            (
                data_of(tiles).subrange(k, tiles.len() as int),
                pos + payload::tiles_data(tiles, true, k).len(),
            ),
        ),
    decreases tiles.len() - k,
{
    let all = data_of(tiles);
    if k == tiles.len() {
        assert(all.subrange(k, tiles.len() as int) =~= Seq::<Seq<u8>>::empty());
    } else {
        let data = tiles[k].data;
        let head = bitstream::multibyte(data.len());
        let rest = payload::tiles_data(tiles, true, k + 1);
        let whole = payload::tiles_data(tiles, true, k);
        let at = pos + head.len();
        assert(whole == head + data + rest);
        assert(s.subrange(pos, at) =~= head) by {
            assert forall|i: int| 0 <= i < head.len() implies s[pos + i] == head[i] by {
                assert(s.subrange(pos, pos + whole.len())[i] == whole[i]);
            }
        }
        assert(s.subrange(at, at + data.len()) =~= data) by {
            assert forall|i: int| 0 <= i < data.len() implies s[at + i] == data[i] by {
                assert(s.subrange(pos, pos + whole.len())[head.len() + i] == whole[head.len() + i]);
            }
        }
        let next = at + data.len();
        assert(s.subrange(next, next + rest.len()) =~= rest) by {
            assert forall|i: int| 0 <= i < rest.len() implies s[next + i] == rest[i] by {
                let j = head.len() + data.len() + i;
                assert(s.subrange(pos, pos + whole.len())[j] == whole[j]);
            }
        }
        bitstream::law_multibyte_roundtrip(s, pos, data.len(), 0x1_0000_0000_0000_0000);
        lemma_read_inline(s, next, tiles, k + 1);
        assert(seq![data] + all.subrange(k + 1, tiles.len() as int) =~= all.subrange(
            k,
            tiles.len() as int,
        ));
    }
}

/// The tiles of a layer are read back from their sizes, where these are known.
pub proof fn law_tiles_read_sized(s: Seq<u8>, pos: int, tiles: Seq<ChunkModel>)
    requires
        0 <= pos,
        pos + payload::tiles_data(tiles, false, 0).len() <= s.len(),
        s.subrange(pos, pos + payload::tiles_data(tiles, false, 0).len()) == payload::tiles_data(
            tiles,
            false,
            0,
        ),
    ensures
        read_sized(s, pos, sizes_from(tiles, 0)) == (
            data_of(tiles),
            pos + payload::tiles_data(tiles, false, 0).len(),
        ),
{
    lemma_read_sized(s, pos, tiles, 0);
    assert(data_of(tiles).subrange(0, tiles.len() as int) =~= data_of(tiles));
}

proof fn lemma_read_sized(s: Seq<u8>, pos: int, tiles: Seq<ChunkModel>, k: int)
    requires
        0 <= pos,
        0 <= k <= tiles.len(),
        pos + payload::tiles_data(tiles, false, k).len() <= s.len(),
        s.subrange(pos, pos + payload::tiles_data(tiles, false, k).len()) == payload::tiles_data(
            tiles,
            false,
            k,
        ),
    ensures
        read_sized(s, pos, sizes_from(tiles, k)) == (
            data_of(tiles).subrange(k, tiles.len() as int),
            pos + payload::tiles_data(tiles, false, k).len(),
        ),
    decreases tiles.len() - k,
{
    let all = data_of(tiles);
    if k == tiles.len() {
        assert(all.subrange(k, tiles.len() as int) =~= Seq::<Seq<u8>>::empty());
    } else {
        let data = tiles[k].data;
        let rest = payload::tiles_data(tiles, false, k + 1);
        let whole = payload::tiles_data(tiles, false, k);
        assert(whole =~= data + rest);
        assert(s.subrange(pos, pos + data.len()) =~= data) by {
            assert forall|i: int| 0 <= i < data.len() implies s[pos + i] == data[i] by {
                assert(s.subrange(pos, pos + whole.len())[i] == whole[i]);
            }
        }
        let next = pos + data.len();
        assert(s.subrange(next, next + rest.len()) =~= rest) by {
            assert forall|i: int| 0 <= i < rest.len() implies s[next + i] == rest[i] by {
                let j = data.len() + i;
                assert(s.subrange(pos, pos + whole.len())[j] == whole[j]);
            }
        }
        lemma_read_sized(s, next, tiles, k + 1);
        assert(sizes_from(tiles, k).drop_first() =~= sizes_from(tiles, k + 1));
        assert(seq![data] + all.subrange(k + 1, tiles.len() as int) =~= all.subrange(
            k,
            tiles.len() as int,
        ));
    }
}

/// How many tiles of a layer have data.
pub open spec fn enabled_count(tiles: Seq<ChunkModel>) -> int {
    tiles.filter(|c: ChunkModel| c.enabled).len() as int
}

/// The tiles of layers from a place on, when the number of them in every layer from `k` on is
/// known, and where they end.
pub open spec fn read_layers(
    s: Seq<u8>,
    pos: int,
    counts: Seq<int>,
    k: int,
) -> Option<(Seq<Seq<Seq<u8>>>, int)>
    decreases counts.len() - k,
{
    if k < 0 || k >= counts.len() {
        Some((Seq::empty(), pos))
    } else {
        match read_inline(s, pos, counts[k]) {
            Some((tiles, at)) => match read_layers(s, at, counts, k + 1) {
                Some((rest, end)) => Some((seq![tiles] + rest, end)),
                None => None,
            },
            None => None,
        }
    }
}

/// What the layers of a picture have to send.
pub open spec fn sent_data(layers: Seq<Seq<ChunkModel>>) -> Seq<Seq<Seq<u8>>> {
    Seq::new(
        layers.len(),
        |k: int| data_of(layers[k].filter(|c: ChunkModel| c.enabled)),
    )
}

/// How many tiles the layers of a picture have to send.
pub open spec fn sent_counts(layers: Seq<Seq<ChunkModel>>) -> Seq<int> {
    Seq::new(layers.len(), |k: int| enabled_count(layers[k]))
}

/// The data of a tiled picture, where every tile has its size in front, is read back layer by
/// layer and tile by tile: behind one bit per layer and the flags of the tiles stand the tiles
/// that have data, and nothing else.
pub proof fn law_tiled_payload_read(layers: Seq<Seq<ChunkModel>>, compressed: bool)
    requires
        forall|k: int, i: int|
            0 <= k < layers.len() && 0 <= i < layers[k].len() ==> (#[trigger] layers[k][i]).data.len()
                < 0x1_0000_0000_0000_0000,
    ensures
        ({
            let s = payload::tiled_payload(layers, compressed, 0);
            let flags = payload::all_enabled(layers, layers.len() as int);
            let pos = bitstream::pack(payload::rle_bits(layers, 0)).len()
                + payload::tile_flag_bytes(flags, compressed).len();
            read_layers(s, pos as int, sent_counts(layers), 0) == Some(
                (sent_data(layers), s.len() as int),
            )
        }),
{
    let s = payload::tiled_payload(layers, compressed, 0);
    let flags = payload::all_enabled(layers, layers.len() as int);
    let head = bitstream::pack(payload::rle_bits(layers, 0)) + payload::tile_flag_bytes(
        flags,
        compressed,
    );
    let data = payload::all_tile_data(layers, 0, 0);
    assert(s =~= head + data);
    assert(s.subrange(head.len() as int, head.len() as int + data.len()) =~= data);
    lemma_read_layers(s, head.len() as int, layers, 0);
    assert(sent_data(layers).subrange(0, layers.len() as int) =~= sent_data(layers));
}

proof fn lemma_read_layers(s: Seq<u8>, pos: int, layers: Seq<Seq<ChunkModel>>, k: int)
    requires
        0 <= pos,
        0 <= k <= layers.len(),
        pos + payload::all_tile_data(layers, 0, k).len() <= s.len(),
        s.subrange(pos, pos + payload::all_tile_data(layers, 0, k).len())
            == payload::all_tile_data(layers, 0, k),
        forall|j: int, i: int|
            0 <= j < layers.len() && 0 <= i < layers[j].len() ==> (#[trigger] layers[j][i]).data.len()
                < 0x1_0000_0000_0000_0000,
    ensures
        read_layers(s, pos, sent_counts(layers), k) == Some(
            (
                sent_data(layers).subrange(k, layers.len() as int),
                pos + payload::all_tile_data(layers, 0, k).len(),
            ),
        ),
    decreases layers.len() - k,
{
    let all = sent_data(layers);
    if k == layers.len() {
        assert(all.subrange(k, layers.len() as int) =~= Seq::<Seq<Seq<u8>>>::empty());
    } else {
        let on = payload::enabled_only(layers[k]);
        law_enabled_in_order(layers[k]);
        let first = payload::tiles_data(on, true, 0);
        let rest = payload::all_tile_data(layers, 0, k + 1);
        let whole = payload::all_tile_data(layers, 0, k);
        assert(payload::layer_tile_data(layers[k], 0) =~= first);
        assert(whole == first + rest);
        let next = pos + first.len();
        assert(s.subrange(pos, next) =~= first) by {
            assert forall|i: int| 0 <= i < first.len() implies s[pos + i] == first[i] by {
                assert(s.subrange(pos, pos + whole.len())[i] == whole[i]);
            }
        }
        assert(s.subrange(next, next + rest.len()) =~= rest) by {
            assert forall|i: int| 0 <= i < rest.len() implies s[next + i] == rest[i] by {
                let j = first.len() + i;
                assert(s.subrange(pos, pos + whole.len())[j] == whole[j]);
            }
        }
        assert forall|i: int| 0 <= i < on.len() implies #[trigger] on[i].data.len()
            < 0x1_0000_0000_0000_0000 by {
            lemma_enabled_from(layers[k], i);
        }
        law_tiles_read_inline(s, pos, on);
        lemma_read_layers(s, next, layers, k + 1);
        assert(seq![data_of(on)] + all.subrange(k + 1, layers.len() as int) =~= all.subrange(
            k,
            layers.len() as int,
        ));
    }
}

/// An enabled tile is a tile.
proof fn lemma_enabled_from(tiles: Seq<ChunkModel>, i: int)
    requires
        0 <= i < payload::enabled_only(tiles).len(),
    ensures
        exists|j: int| 0 <= j < tiles.len() && tiles[j] == payload::enabled_only(tiles)[i],
    decreases tiles.len(),
{
    let less = tiles.drop_last();
    if i < payload::enabled_only(less).len() {
        lemma_enabled_from(less, i);
        let j = choose|j: int| 0 <= j < less.len() && less[j] == payload::enabled_only(less)[i];
        assert(tiles[j] == payload::enabled_only(tiles)[i]);
    } else {
        assert(tiles[tiles.len() - 1] == payload::enabled_only(tiles)[i]);
    }
}

} // verus!
