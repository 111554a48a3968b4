//! What stands at fixed places of a stream: the bytes of NAL units and their blocks, the codes of
//! a configuration, and where access units begin and end.
use crate::annexb;
use crate::config;
use crate::config::{
    ChromaFormat, LcevcConfig, ScalingMode, TileDimensions, TransformType, UpsampleType,
};
use crate::dequant;
use crate::dequant::TemporalSignal;
use crate::encoder;
use crate::nal;
use vstd::prelude::*;

verus! {

/// A NAL unit begins with a start code of three bytes and a header of two: a zero bit, a one bit,
/// the type in five bits, 29 for pictures that can be decoded by themselves and 28 for others,
/// and nine one bits. It ends with the byte 0x80.
pub proof fn law_nal_frame(idr: bool, blocks: Seq<(u8, Seq<u8>)>)
    ensures
        ({
            let u = nal::nal_unit(idr, blocks);
            &&& u.len() >= 6
            &&& u[0] == 0 && u[1] == 0 && u[2] == 1
            &&& u[3] as int / 64 == 1
            &&& (u[3] as int / 2) % 32 == (if idr {
                29int
            } else {
                28
            })
            &&& u[3] as int % 2 == 1
            &&& u[4] == 255
            &&& u[u.len() - 1] == 128
        }),
{
    let raw = nal::raw_bytes(idr, blocks);
    let e0 = nal::escape(raw, 0, 0);
    let e1 = nal::escape(raw, 1, 0);
    assert(raw[0] == nal::nal_header_byte(idr) && raw[1] == 0xFF);
    assert(e0 =~= seq![raw[0]] + e1);
    assert(e1 =~= seq![raw[1]] + nal::escape(raw, 2, 0));
}

/// The header of a block has the size of its payload in three bits, or 7 where that is more than
/// 5, and its type in five bits. Only a payload of more than 5 bytes has its size behind the
/// header.
pub proof fn law_block_header(payload_type: u8, payload: Seq<u8>)
    requires
        payload_type < 32,
    ensures
        ({
            let b = nal::block_bytes(payload_type, payload);
            &&& b[0] as int % 32 == payload_type
            &&& payload.len() <= 5 ==> b[0] as int / 32 == payload.len() && b.len()
                == payload.len() + 1
            &&& payload.len() > 5 ==> b[0] as int / 32 == 7
            &&& b.subrange(b.len() - payload.len(), b.len() as int) == payload
        }),
{
    let b = nal::block_bytes(payload_type, payload);
    assert(b.subrange(b.len() - payload.len(), b.len() as int) =~= payload);
}

/// The blocks of a frame by their types: in a picture that can be decoded by itself the
/// configurations of the sequence and of all pictures come first, as types 0 and 1. Then follow
/// the configuration of the picture, as type 2, and its data, as type 3, or 4 where it is tiled.
pub proof fn law_blocks_of_frame(
    c: LcevcConfig,
    idr: bool,
    picture_config: Seq<u8>,
    encoded_data: Seq<u8>,
)
    ensures
        ({
            let b = encoder::frame_blocks(c, idr, picture_config, encoded_data);
            let n = b.len() as int;
            &&& n == (if idr {
                4int
            } else {
                2
            })
            &&& b[n - 2] == (2u8, picture_config)
            &&& b[n - 1].1 == encoded_data
            &&& b[n - 1].0 == (if c.tile_dimensions == TileDimensions::Untiled {
                3u8
            } else {
                4u8
            })
            &&& idr ==> b[0].0 == 0 && b[1].0 == 1
        }),
{
}

/// The codes of a configuration in the stream.
pub proof fn law_syntax_codes()
    ensures
        config::transform_code(TransformType::Dd) == 0,
        config::transform_code(TransformType::Dds) == 1,
        config::layers_of(TransformType::Dd) == 4,
        config::layers_of(TransformType::Dds) == 16,
        config::upsample_code(UpsampleType::Nearest) == 0,
        config::upsample_code(UpsampleType::Linear) == 1,
        config::upsample_code(UpsampleType::Cubic) == 2,
        config::upsample_code(UpsampleType::ModifiedCubic) == 3,
        config::scaling_code(ScalingMode::Scale0D) == 0,
        config::scaling_code(ScalingMode::Scale1D) == 1,
        config::scaling_code(ScalingMode::Scale2D) == 2,
        config::chroma_code(ChromaFormat::Monochrome) == 0,
        config::chroma_code(ChromaFormat::C420) == 1,
        config::chroma_code(ChromaFormat::C422) == 2,
        config::chroma_code(ChromaFormat::C444) == 3,
        config::tile_code(TileDimensions::Untiled) == 0,
        config::tile_code(TileDimensions::T512x256) == 1,
        config::tile_code(TileDimensions::T1024x512) == 2,
        config::tile_code(TileDimensions::Custom) == 3,
        config::default_tile_size(TileDimensions::T512x256) == Some((512u16, 256u16)),
        config::default_tile_size(TileDimensions::T1024x512) == Some((1024u16, 512u16)),
        dequant::signal_index(TemporalSignal::Inter) == 0,
        dequant::signal_index(TemporalSignal::Intra) == 1,
{
}

/// The default quantization matrices of the 4x4 transform differ in few places: LOQ1 has finer
/// averages than LOQ0, and with scaling of columns only LOQ0 has the averages of the upper rows
/// for those of the lower rows.
pub proof fn law_default_matrices(scaling_1d: bool, i: int)
    requires
        0 <= i < 16,
    ensures
        ({
            let both = dequant::default_matrix(true, false, 0);
            let columns = dequant::default_matrix(true, true, 0);
            let lower = dequant::default_matrix(true, scaling_1d, 1);
            &&& both.len() == 16 && columns.len() == 16 && lower.len() == 16
            &&& both.subrange(0, 8) == seq![13u8, 26, 19, 32, 52, 1, 78, 9]
            &&& both.subrange(8, 16) == seq![26u8, 72, 0, 3, 150, 91, 91, 19]
            &&& columns[i] == (if 8 <= i < 12 {
                both[i - 8]
            } else {
                both[i]
            })
            &&& lower[i] == (if i < 3 {
                0
            } else if i == 3 {
                2
            } else {
                both[i]
            })
        }),
{
    let both = dequant::default_matrix(true, false, 0);
    assert(both.subrange(0, 8) =~= seq![13u8, 26, 19, 32, 52, 1, 78, 9]);
    assert(both.subrange(8, 16) =~= seq![26u8, 72, 0, 3, 150, 91, 91, 19]);
}

/// The unit at which an access unit begins, and where it ends.
proof fn lemma_begins(d: Seq<u8>, units: Seq<(int, int)>, k: int, start: Option<int>, j: int) -> (q:
    int)
    requires
        0 <= k <= units.len(),
        0 <= j < annexb::access_units(d, units, k, start).len(),
    ensures
        ({
            let aus = annexb::access_units(d, units, k, start);
            &&& (j == 0 && start == Some(aus[j].0)) || (k <= q < units.len() && units[q].0
                == aus[j].0 && annexb::is_delimiter(d, units[q].0))
            &&& aus[j].0 + aus[j].1 == (if j + 1 < aus.len() {
                aus[j + 1].0
            } else {
                d.len() as int
            })
            &&& start matches Some(s) ==> aus[0].0 == s
        }),
    decreases units.len() - k,
{
    let aus = annexb::access_units(d, units, k, start);
    if k == units.len() {
        k
    } else if annexb::is_delimiter(d, units[k].0) {
        let at = units[k].0;
        let rest = annexb::access_units(d, units, k + 1, Some(at));
        lemma_started(d, units, k + 1, at);
        let shift: int = if start is Some {
            1
        } else {
            0
        };
        assert(aus.len() == rest.len() + shift);
        assert(aus[shift] == rest[0]);
        if j < shift {
            k
        } else {
            assert(aus[j] == rest[j - shift]);
            assert(j + 1 < aus.len() ==> aus[j + 1] == rest[j + 1 - shift]);
            let q = lemma_begins(d, units, k + 1, Some(at), j - shift);
            if j == shift {
                k
            } else {
                q
            }
        }
    } else {
        lemma_begins(d, units, k + 1, start, j)
    }
}

proof fn lemma_started(d: Seq<u8>, units: Seq<(int, int)>, k: int, at: int)
    requires
        0 <= k <= units.len(),
    ensures
        annexb::access_units(d, units, k, Some(at)).len() > 0,
        annexb::access_units(d, units, k, Some(at))[0].0 == at,
    decreases units.len() - k,
{
    if k < units.len() && !annexb::is_delimiter(d, units[k].0) {
        lemma_started(d, units, k + 1, at);
    }
}

/// The access unit that begins at a delimiter.
proof fn lemma_begun(d: Seq<u8>, units: Seq<(int, int)>, k: int, start: Option<int>, q: int) -> (j:
    int)
    requires
        0 <= k <= q < units.len(),
        annexb::is_delimiter(d, units[q].0),
    ensures
        0 <= j < annexb::access_units(d, units, k, start).len(),
        annexb::access_units(d, units, k, start)[j].0 == units[q].0,
    decreases units.len() - k,
{
    let aus = annexb::access_units(d, units, k, start);
    if annexb::is_delimiter(d, units[k].0) {
        let at = units[k].0;
        let rest = annexb::access_units(d, units, k + 1, Some(at));
        lemma_started(d, units, k + 1, at);
        let shift: int = if start is Some {
            1
        } else {
            0
        };
        if q == k {
            assert(aus[shift] == rest[0]);
            shift
        } else {
            let i = lemma_begun(d, units, k + 1, Some(at), q);
            assert(aus[i + shift] == rest[i]);
            i + shift
        }
    } else {
        lemma_begun(d, units, k + 1, start, q)
    }
}

/// An access unit of a stream begins at a delimiter, a unit of type 20, where the stream has any,
/// and lasts until the next one begins; the last one lasts to the end.
pub proof fn law_access_unit_begins(d: Seq<u8>, j: int)
    requires
        0 <= j < annexb::all_access_units(d).len(),
    ensures
        ({
            let units = annexb::units_from(d, 0);
            let aus = annexb::all_access_units(d);
            &&& (exists|q: int|
                0 <= q < units.len() && (#[trigger] units[q]).0 == aus[j].0
                    && annexb::is_delimiter(d, aus[j].0)) || (j == 0 && aus[j] == (
                0int,
                d.len() as int,
            ) && aus.len() == 1)
            &&& aus[j].0 + aus[j].1 == (if j + 1 < aus.len() {
                aus[j + 1].0
            } else {
                d.len() as int
            })
        }),
{
    let units = annexb::units_from(d, 0);
    let found = annexb::access_units(d, units, 0, None);
    if found.len() > 0 {
        let q = lemma_begins(d, units, 0, None, j);
        assert(units[q].0 == found[j].0);
    }
}

/// At every delimiter of a stream an access unit begins.
pub proof fn law_delimiter_begins(d: Seq<u8>, q: int)
    requires
        0 <= q < annexb::units_from(d, 0).len(),
        annexb::is_delimiter(d, annexb::units_from(d, 0)[q].0),
    ensures
        exists|j: int|
            0 <= j < annexb::all_access_units(d).len() && (#[trigger] annexb::all_access_units(
                d,
            )[j]).0 == annexb::units_from(d, 0)[q].0,
{
    let units = annexb::units_from(d, 0);
    let j = lemma_begun(d, units, 0, None, q);
    assert(annexb::all_access_units(d)[j].0 == units[q].0);
}

/// A delimiter is a unit whose type, the upper five bits of the second byte behind its start
/// code, is 20.
pub proof fn law_delimiter_type(d: Seq<u8>, at: int)
    requires
        annexb::start_code(d, at) > 0,
    ensures
        ({
            let h = at + annexb::start_code(d, at) + 1;
            annexb::is_delimiter(d, at) <==> h < d.len() && 160 <= d[h] < 168
        }),
{
}

} // verus!
