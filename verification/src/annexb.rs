//! Splitting of Annex-B byte streams: NAL units behind 3- or 4-byte start codes.
use crate::nal;
use vstd::prelude::*;

verus! {

/// The length of the start code at a position: `00 00 00 01` or `00 00 01`. 0 where there is
/// none.
pub open spec fn start_code(d: Seq<u8>, i: int) -> int {
    if 0 <= i && i + 4 <= d.len() && d[i] == 0 && d[i + 1] == 0 && d[i + 2] == 0 && d[i + 3] == 1 {
        4
    } else if 0 <= i && i + 3 <= d.len() && d[i] == 0 && d[i + 1] == 0 && d[i + 2] == 1 {
        3
    } else {
        0
    }
}

/// Where a unit ends whose bytes begin at `i`: at the next start code, or at the end.
pub open spec fn unit_end(d: Seq<u8>, i: int) -> int
    decreases d.len() - i,
{
    if i >= d.len() {
        d.len() as int
    } else if start_code(d, i) > 0 {
        i
    } else {
        unit_end(d, i + 1)
    }
}

proof fn lemma_unit_end(d: Seq<u8>, i: int)
    requires
        i <= d.len(),
    ensures
        i <= unit_end(d, i) <= d.len(),
        unit_end(d, i) < d.len() ==> start_code(d, unit_end(d, i)) > 0,
        forall|p: int| i <= p < unit_end(d, i) ==> start_code(d, p) == 0,
    decreases d.len() - i,
{
    if i < d.len() && start_code(d, i) == 0 {
        lemma_unit_end(d, i + 1);
    }
}

/// The units from `i` on: where each starts, with its start code, and its length. A start code
/// in the last three bytes ends the unit before it and starts none.
pub open spec fn units_from(d: Seq<u8>, i: int) -> Seq<(int, int)>
    decreases d.len() - i,
    when i >= 0
    via units_from_decreases
{
    if i + 4 > d.len() {
        Seq::empty()
    } else if start_code(d, i) > 0 {
        let end = unit_end(d, i + start_code(d, i));
        seq![(i, end - i)] + units_from(d, end)
    } else {
        units_from(d, i + 1)
    }
}

#[via_fn]
proof fn units_from_decreases(d: Seq<u8>, i: int) {
    if i + 4 <= d.len() && start_code(d, i) > 0 {
        lemma_unit_end(d, i + start_code(d, i));
    }
}

/// Byte ranges as numbers.
pub open spec fn ranges(v: Seq<(usize, usize)>) -> Seq<(int, int)> {
    Seq::new(v.len(), |i: int| (v[i].0 as int, v[i].1 as int))
}

fn start_code_at(data: &[u8], i: usize) -> (n: usize)
    requires
        i <= data@.len(),
    ensures
        n == start_code(data@, i as int),
{
    let left: usize = data.len() - i;
    if left >= 4 && data[i] == 0 && data[i + 1] == 0 && data[i + 2] == 0 && data[i + 3] == 1 {
        4
    } else if left >= 3 && data[i] == 0 && data[i + 1] == 0 && data[i + 2] == 1 {
        3
    } else {
        0
    }
}

/// Split an Annex-B bitstream into NAL units (3- or 4-byte start codes).
/// Returns (data ranges) as (start, len) pairs *including* the start code.
pub fn split_nals(data: &[u8]) -> (out: Vec<(usize, usize)>)
    ensures
        ranges(out@) == units_from(data@, 0),
{
    let mut out: Vec<(usize, usize)> = Vec::new();
    let mut i: usize = 0;
    assert(ranges(out@) + units_from(data@, 0) =~= units_from(data@, 0));
    while i < data.len() && data.len() - i >= 4
        invariant
            i <= data@.len(),
            ranges(out@) + units_from(data@, i as int) == units_from(data@, 0),
        decreases data@.len() - i,
    {
        let h: usize = start_code_at(data, i);
        if h > 0 {
            let start: usize = i;
            let mut end: usize = i + h;
            let mut code: usize = 0;
            while end < data.len() && code == 0
                invariant
                    start + h <= end <= data@.len(),
                    start + h <= data@.len(),
                    code == 0 ==> unit_end(data@, end as int) == unit_end(data@, start + h),
                    code > 0 ==> end == unit_end(data@, start + h),
                decreases data@.len() - end, 4 - code,
            {
                code = start_code_at(data, end);
                if code == 0 {
                    end = end + 1;
                }
            }
            let ghost before = ranges(out@);
            out.push((start, end - start));
            i = end;
            proof {
                assert(ranges(out@) =~= before.push((start as int, end - start)));
                assert(ranges(out@) + units_from(data@, end as int) =~= before + (seq![
                    (start as int, end - start),
                ] + units_from(data@, end as int)));
            }
        } else {
            i = i + 1;
        }
    }
    assert(ranges(out@) =~= units_from(data@, 0));
    out
}

/// Split the LCEVC bitstream into per-picture NAL units.
pub fn split_lcevc_nals(data: &[u8]) -> (out: Vec<(usize, usize)>)
    ensures
        ranges(out@) == units_from(data@, 0),
{
    split_nals(data)
}

/// Whether the unit at a position is an access unit delimiter: type 20 in the second byte of
/// its header. A unit that ends before that byte is none.
pub open spec fn is_delimiter(d: Seq<u8>, pos: int) -> bool {
    let h: int = if d[pos + 2] == 1 {
        3
    } else {
        4
    };
    pos + h + 1 < d.len() && d[pos + h + 1] as int / 8 == 20
}

/// The access units that units from `k` on complete, after one was opened at `start`.
pub open spec fn access_units(
    d: Seq<u8>,
    units: Seq<(int, int)>,
    k: int,
    start: Option<int>,
) -> Seq<(int, int)>
    decreases units.len() - k,
{
    if k < 0 || k >= units.len() {
        match start {
            Some(s) => seq![(s, d.len() - s)],
            None => Seq::empty(),
        }
    } else if is_delimiter(d, units[k].0) {
        (match start {
            Some(s) => seq![(s, units[k].0 - s)],
            None => Seq::empty(),
        }) + access_units(d, units, k + 1, Some(units[k].0))
    } else {
        access_units(d, units, k + 1, start)
    }
}

/// The access units of a base stream: each delimiter starts one. A stream without delimiters
/// is one access unit; one without units has none.
pub open spec fn all_access_units(d: Seq<u8>) -> Seq<(int, int)> {
    let units = units_from(d, 0);
    let aus = access_units(d, units, 0, None);
    if aus.len() == 0 && units.len() > 0 {
        seq![(0, d.len() as int)]
    } else {
        aus
    }
}

/// Units start in order, at start codes.
proof fn lemma_units(d: Seq<u8>, i: int, k: int)
    requires
        0 <= i <= d.len(),
        0 <= k < units_from(d, i).len(),
    ensures
        i <= units_from(d, i)[k].0,
        units_from(d, i)[k].0 + 4 <= d.len(),
        start_code(d, units_from(d, i)[k].0) > 0,
        units_from(d, i)[k].1 >= 3,
        units_from(d, i)[k].0 + units_from(d, i)[k].1 == (if k + 1 < units_from(d, i).len() {
            units_from(d, i)[k + 1].0
        } else {
            units_from(d, i)[k].0 + units_from(d, i)[k].1
        }),
        units_from(d, i)[k].0 + units_from(d, i)[k].1 <= d.len(),
        units_from(d, i)[k].0 + units_from(d, i)[k].1 < d.len() ==> start_code(
            d,
            units_from(d, i)[k].0 + units_from(d, i)[k].1,
        ) > 0,
        forall|p: int|
            units_from(d, i)[k].0 + start_code(d, units_from(d, i)[k].0) <= p < units_from(d, i)[k].0
                + units_from(d, i)[k].1 ==> start_code(d, p) == 0,
    decreases d.len() - i,
{
    if start_code(d, i) > 0 {
        let end = unit_end(d, i + start_code(d, i));
        lemma_unit_end(d, i + start_code(d, i));
        let rest = units_from(d, end);
        assert(units_from(d, i) == seq![(i, end - i)] + rest);
        if k > 0 {
            assert(units_from(d, i)[k] == rest[k - 1]);
            lemma_units(d, end, k - 1);
            if k + 1 < units_from(d, i).len() {
                assert(units_from(d, i)[k + 1] == rest[k]);
            }
        } else if rest.len() > 0 {
            assert(units_from(d, i)[1] == rest[0]);
            assert(end + 4 <= d.len());
            assert(rest[0].0 == end);
        }
    } else {
        lemma_units(d, i + 1, k);
    }
}

/// The units of a stream lie side by side: each starts with a start code, holds no other, and
/// ends where the next one starts.
pub proof fn law_units_side_by_side(d: Seq<u8>, k: int)
    requires
        0 <= k < units_from(d, 0).len(),
    ensures
        ({
            let (start, len) = units_from(d, 0)[k];
            &&& 0 <= start
            &&& start + len <= d.len()
            &&& start_code(d, start) > 0
            &&& forall|p: int|
                start + start_code(d, start) <= p < start + len ==> start_code(d, p) == 0
            &&& k + 1 < units_from(d, 0).len() ==> start + len == units_from(d, 0)[k + 1].0
        }),
{
    lemma_units(d, 0, k);
}

/// Split the VVC base bitstream into access units: every AUD NAL (type 20)
/// starts a new unit. Returns the byte ranges of each AU (start codes kept).
pub fn split_aus(base: &[u8]) -> (aus: Vec<(usize, usize)>)
    ensures
        ranges(aus@) == all_access_units(base@),
{
    let nals = split_nals(base);
    let ghost units = units_from(base@, 0);
    let mut aus: Vec<(usize, usize)> = Vec::new();
    let mut start: Option<usize> = None;
    let ghost opened = None::<int>;
    let mut k: usize = 0;
    assert(ranges(aus@) + access_units(base@, units, 0, None) =~= access_units(
        base@,
        units,
        0,
        None,
    ));
    while k < nals.len()
        invariant
            k <= nals@.len(),
            ranges(nals@) == units,
            units == units_from(base@, 0),
            opened == (match start {
                Some(s) => Some(s as int),
                None => None,
            }),
            start matches Some(s) ==> s <= base@.len() && (k < nals@.len() ==> s <= nals@[k as int].0),
            ranges(aus@) + access_units(base@, units, k as int, opened) == access_units(
                base@,
                units,
                0,
                None,
            ),
        decreases nals@.len() - k,
    {
        proof {
            lemma_units(base@, 0, k as int);
            assert(units[k as int] == (nals@[k as int].0 as int, nals@[k as int].1 as int));
            if k + 1 < nals@.len() {
                assert(units[k + 1] == (nals@[k + 1].0 as int, nals@[k + 1].1 as int));
            }
        }
        let pos: usize = nals[k].0;
        let have: usize = base.len();
        assert(pos + 4 <= have);
        let h: usize = if base[pos + 2] == 1 {
            3
        } else {
            4
        };
        let delimiter: bool = have - pos > h + 1 && base[pos + h + 1] / 8 == 20;
        assert(delimiter == is_delimiter(base@, pos as int));
        let ghost before = ranges(aus@);
        let ghost rest = access_units(base@, units, k + 1, Some(pos as int));
        let ghost was = opened;
        if delimiter {
            match start {
                Some(s) => {
                    aus.push((s, pos - s));
                    proof {
                        assert(ranges(aus@) =~= before.push((s as int, pos - s)));
                        assert(ranges(aus@) + rest =~= before + (seq![(s as int, pos - s)] + rest));
                    }
                },
                None => {
                    assert(before + rest =~= before + (Seq::<(int, int)>::empty() + rest));
                },
            }
            start = Some(pos);
            proof {
                opened = Some(pos as int);
            }
        }
        k = k + 1;
    }
    match start {
        Some(s) => {
            let ghost before = ranges(aus@);
            aus.push((s, base.len() - s));
            proof {
                assert(ranges(aus@) =~= before + seq![(s as int, base@.len() - s)]);
            }
        },
        None => {
            assert(ranges(aus@) =~= access_units(base@, units, 0, None));
        },
    }
    if aus.len() == 0 && nals.len() > 0 {
        aus.push((0, base.len()));
        assert(ranges(aus@) =~= seq![(0int, base@.len() as int)]);
    }
    aus
}

proof fn lemma_access_units(d: Seq<u8>, k: int, start: Option<int>)
    requires
        0 <= k <= units_from(d, 0).len(),
        start matches Some(s) ==> 0 <= s <= d.len() && (k < units_from(d, 0).len() ==> s
            <= units_from(d, 0)[k].0),
    ensures
        forall|i: int|
            0 <= i < access_units(d, units_from(d, 0), k, start).len() ==> {
                let r = #[trigger] access_units(d, units_from(d, 0), k, start)[i];
                0 <= r.0 && 0 <= r.1 && r.0 + r.1 <= d.len()
            },
    decreases units_from(d, 0).len() - k,
{
    let units = units_from(d, 0);
    let all = access_units(d, units, k, start);
    if k < units.len() {
        lemma_units(d, 0, k);
        if is_delimiter(d, units[k].0) {
            let rest = access_units(d, units, k + 1, Some(units[k].0));
            lemma_access_units(d, k + 1, Some(units[k].0));
            let first = match start {
                Some(s) => seq![(s, units[k].0 - s)],
                None => Seq::empty(),
            };
            assert(all == first + rest);
            assert forall|i: int| 0 <= i < all.len() implies ({
                let r = #[trigger] all[i];
                0 <= r.0 && 0 <= r.1 && r.0 + r.1 <= d.len()
            }) by {
                if i >= first.len() {
                    assert(all[i] == rest[i - first.len()]);
                }
            }
        } else {
            lemma_access_units(d, k + 1, start);
            assert(all == access_units(d, units, k + 1, start));
        }
    } else {
        match start {
            Some(s) => {
                assert(all == seq![(s, d.len() - s)]);
            },
            None => {
                assert(all.len() == 0);
            },
        }
    }
}

/// Access units lie inside their stream.
pub proof fn lemma_access_units_inside(d: Seq<u8>)
    ensures
        forall|i: int|
            0 <= i < all_access_units(d).len() ==> {
                let r = #[trigger] all_access_units(d)[i];
                0 <= r.0 && 0 <= r.1 && r.0 + r.1 <= d.len()
            },
{
    lemma_access_units(d, 0, None);
}

/// A unit without its start code.
pub open spec fn bare(u: Seq<u8>) -> Seq<u8> {
    if u.len() >= 4 && u[0] == 0 && u[1] == 0 && u[2] == 0 && u[3] == 1 {
        u.subrange(4, u.len() as int)
    } else if u.len() >= 3 && u[0] == 0 && u[1] == 0 && u[2] == 1 {
        u.subrange(3, u.len() as int)
    } else {
        u
    }
}

/// Strip the Annex-B start code (3 or 4 bytes) from a NAL unit.
pub fn strip_start_code(nal: &[u8]) -> (body: &[u8])
    ensures
        body@ == bare(nal@),
{
    if nal.len() >= 4 && nal[0] == 0 && nal[1] == 0 && nal[2] == 0 && nal[3] == 1 {
        vstd::slice::slice_subrange(nal, 4, nal.len())
    } else if nal.len() >= 3 && nal[0] == 0 && nal[1] == 0 && nal[2] == 1 {
        vstd::slice::slice_subrange(nal, 3, nal.len())
    } else {
        nal
    }
}

/// One picture: the kind of its NAL unit and the blocks in it.
pub type PictureBlocks = (bool, Seq<(u8, Seq<u8>)>);

/// The NAL units of pictures from `k` on, one after the other.
pub open spec fn stream_of(pictures: Seq<PictureBlocks>, k: int) -> Seq<u8>
    decreases pictures.len() - k,
{
    if k < 0 || k >= pictures.len() {
        Seq::empty()
    } else {
        nal::nal_unit(pictures[k].0, pictures[k].1) + stream_of(pictures, k + 1)
    }
}

/// Where the units of pictures from `k` on lie in a stream in which they start at `at`.
pub open spec fn places(pictures: Seq<PictureBlocks>, k: int, at: int) -> Seq<(int, int)>
    decreases pictures.len() - k,
{
    if k < 0 || k >= pictures.len() {
        Seq::empty()
    } else {
        let len = nal::nal_unit(pictures[k].0, pictures[k].1).len() as int;
        seq![(at, len)] + places(pictures, k + 1, at + len)
    }
}

/// Whether two zero bytes and a byte under 3 stand at a position.
spec fn dirty_at(s: Seq<u8>, p: int) -> bool {
    s[p] == 0 && s[p + 1] == 0 && s[p + 2] < 3
}

/// Zero bytes.
spec fn zero_bytes(n: int) -> Seq<u8> {
    Seq::new(n as nat, |j: int| 0u8)
}

/// Emulation prevention leaves no two zero bytes with a byte under 3 behind them.
proof fn lemma_escape_clean(s: Seq<u8>, i: int, zeros: int, p: int)
    requires
        0 <= i,
        0 <= zeros <= 2,
        0 <= p,
        p + 2 < zeros + nal::escape(s, i, zeros).len(),
    ensures
        !dirty_at(zero_bytes(zeros) + nal::escape(s, i, zeros), p),
    decreases s.len() - i,
{
    let e = nal::escape(s, i, zeros);
    let full = zero_bytes(zeros) + e;
    if i < s.len() {
        let b = s[i];
        if zeros == 2 && b <= 3 {
            let z: int = if b == 0 {
                1
            } else {
                0
            };
            let rest = nal::escape(s, i + 1, z);
            assert(e == seq![3u8, b] + rest);
            assert(full[2] == 3);
            lemma_tail(full, zero_bytes(z) + rest, 4 - z);
            if p >= 4 - z {
                lemma_escape_clean(s, i + 1, z, p - (4 - z));
                assert(full[p] == (zero_bytes(z) + rest)[p - (4 - z)]);
                assert(full[p + 1] == (zero_bytes(z) + rest)[p + 1 - (4 - z)]);
                assert(full[p + 2] == (zero_bytes(z) + rest)[p + 2 - (4 - z)]);
            }
        } else if b == 0 {
            let rest = nal::escape(s, i + 1, zeros + 1);
            assert(e == seq![b] + rest);
            assert(full =~= zero_bytes(zeros + 1) + rest);
            lemma_escape_clean(s, i + 1, zeros + 1, p);
        } else {
            let rest = nal::escape(s, i + 1, 0);
            assert(e == seq![b] + rest);
            assert(full[zeros] == b);
            if p > zeros {
                lemma_escape_clean(s, i + 1, 0, p - (zeros + 1));
                assert(zero_bytes(0) + rest =~= rest);
                assert(full[p] == rest[p - (zeros + 1)]);
                assert(full[p + 1] == rest[p - zeros]);
                assert(full[p + 2] == rest[p - zeros + 1]);
            }
        }
    }
}

proof fn lemma_tail(full: Seq<u8>, tail: Seq<u8>, shift: int)
    requires
        shift >= 0,
        full.len() == shift + tail.len(),
        full.subrange(shift, full.len() as int) =~= tail,
    ensures
        forall|j: int| 0 <= j < tail.len() ==> full[shift + j] == tail[j],
{
    assert forall|j: int| 0 <= j < tail.len() implies full[shift + j] == tail[j] by {
        assert(full.subrange(shift, full.len() as int)[j] == tail[j]);
    }
}

/// A NAL unit holds one start code: its first three bytes.
proof fn lemma_unit_clean(picture: PictureBlocks, p: int)
    requires
        0 <= p,
        p + 2 < nal::nal_unit(picture.0, picture.1).len(),
    ensures
        ({
            let u = nal::nal_unit(picture.0, picture.1);
            &&& u.len() >= 6
            &&& u[0] == 0 && u[1] == 0 && u[2] == 1 && u[3] != 0 && u[3] != 1
            &&& u[u.len() - 1] == 0x80
            &&& p > 0 ==> !(u[p] == 0 && u[p + 1] == 0 && u[p + 2] < 3)
        }),
{
    let u = nal::nal_unit(picture.0, picture.1);
    let raw = nal::raw_bytes(picture.0, picture.1);
    let e = nal::escape(raw, 0, 0);
    assert(raw[0] == nal::nal_header_byte(picture.0));
    assert(raw[1] == 0xFF);
    assert(e == seq![raw[0]] + nal::escape(raw, 1, 0));
    assert(nal::escape(raw, 1, 0) == seq![0xFFu8] + nal::escape(raw, 2, 0));
    assert(u[3] == e[0]);
    if 3 <= p && p + 2 < u.len() - 1 {
        lemma_escape_clean(raw, 0, 0, p - 3);
        assert(zero_bytes(0) + e =~= e);
        assert(u[p] == e[p - 3] && u[p + 1] == e[p - 2] && u[p + 2] == e[p - 1]);
    }
}

proof fn lemma_stream_splits(pictures: Seq<PictureBlocks>, k: int, d: Seq<u8>, at: int)
    requires
        0 <= k <= pictures.len(),
        0 <= at <= d.len(),
        d.subrange(at, d.len() as int) == stream_of(pictures, k),
    ensures
        units_from(d, at) == places(pictures, k, at),
    decreases pictures.len() - k,
{
    let rest = d.subrange(at, d.len() as int);
    assert forall|j: int| 0 <= j < rest.len() implies d[at + j] == rest[j] by {}
    if k < pictures.len() {
        let u = nal::nal_unit(pictures[k].0, pictures[k].1);
        let tail = stream_of(pictures, k + 1);
        let len = u.len() as int;
        assert(rest == u + tail);
        lemma_unit_clean(pictures[k], 0);
        assert forall|j: int| 0 <= j < len implies d[at + j] == u[j] by {
            assert(rest[j] == u[j]);
        }
        assert(d.subrange(at + len, d.len() as int) =~= tail) by {
            assert forall|j: int| 0 <= j < tail.len() implies d[at + len + j] == tail[j] by {
                assert(rest[len + j] == tail[j]);
            }
        }
        assert(start_code(d, at) == 3) by {
            assert(d[at + 2] == u[2] && d[at + 3] == u[3]);
        }
        if k + 1 < pictures.len() {
            lemma_unit_clean(pictures[k + 1], 0);
            let v = nal::nal_unit(pictures[k + 1].0, pictures[k + 1].1);
            assert forall|j: int| 0 <= j < 4 implies d[at + len + j] == v[j] by {
                assert(tail[j] == v[j]);
                assert(rest[len + j] == tail[j]);
            }
        } else {
            assert(tail.len() == 0);
        }
        assert forall|p: int| at + 3 <= p < at + len implies start_code(d, p) == 0 by {
            if p + 3 <= at + len {
                lemma_unit_clean(pictures[k], p - at);
                assert(d[p] == u[p - at] && d[p + 1] == u[p + 1 - at] && d[p + 2] == u[p + 2 - at]);
            } else {
                // The last byte of the unit, 0x80, is one of the three.
                assert(d[at + len - 1] == u[len - 1]);
                if p == at + len - 2 {
                    assert(d[p + 1] == 0x80);
                } else {
                    assert(d[p] == 0x80);
                }
            }
        }
        lemma_ends_at(d, at + 3, at + len);
        lemma_stream_splits(pictures, k + 1, d, at + len);
        assert(units_from(d, at) == seq![(at, len)] + units_from(d, at + len));
    }
}

proof fn lemma_ends_at(d: Seq<u8>, i: int, end: int)
    requires
        0 <= i <= end <= d.len(),
        end < d.len() ==> start_code(d, end) > 0,
        forall|p: int| i <= p < end ==> start_code(d, p) == 0,
    ensures
        unit_end(d, i) == end,
    decreases end - i,
{
    if i < end {
        lemma_ends_at(d, i + 1, end);
    }
}

proof fn lemma_place(pictures: Seq<PictureBlocks>, k: int, d: Seq<u8>, at: int, j: int)
    requires
        0 <= k <= j < pictures.len(),
        0 <= at <= d.len(),
        d.subrange(at, d.len() as int) == stream_of(pictures, k),
    ensures
        places(pictures, k, at).len() == pictures.len() - k,
        ({
            let (start, len) = places(pictures, k, at)[j - k];
            d.subrange(start, start + len) == nal::nal_unit(pictures[j].0, pictures[j].1)
        }),
    decreases pictures.len() - k,
{
    let rest = d.subrange(at, d.len() as int);
    let u = nal::nal_unit(pictures[k].0, pictures[k].1);
    let tail = stream_of(pictures, k + 1);
    assert(rest == u + tail);
    assert(d.subrange(at, at + u.len()) =~= u) by {
        assert(rest.subrange(0, u.len() as int) =~= u);
        assert(d.subrange(at, at + u.len()) =~= rest.subrange(0, u.len() as int));
    }
    assert(d.subrange(at + u.len(), d.len() as int) =~= tail) by {
        assert(rest.subrange(u.len() as int, rest.len() as int) =~= tail);
        assert(d.subrange(at + u.len(), d.len() as int) =~= rest.subrange(
            u.len() as int,
            rest.len() as int,
        ));
    }
    let others = places(pictures, k + 1, at + u.len());
    assert(places(pictures, k, at) == seq![(at, u.len() as int)] + others);
    if k < j {
        lemma_place(pictures, k + 1, d, at + u.len(), j);
        assert(places(pictures, k, at)[j - k] == others[j - k - 1]);
    } else if k + 1 < pictures.len() {
        lemma_place(pictures, k + 1, d, at + u.len(), k + 1);
    }
}

/// A stream of NAL units, one per picture, splits into these units.
pub proof fn law_stream_splits(pictures: Seq<PictureBlocks>)
    ensures
        ({
            let d = stream_of(pictures, 0);
            let units = units_from(d, 0);
            &&& units.len() == pictures.len()
            &&& forall|j: int|
                #![trigger units[j]]
                0 <= j < pictures.len() ==> d.subrange(units[j].0, units[j].0 + units[j].1)
                    == nal::nal_unit(pictures[j].0, pictures[j].1)
        }),
{
    let d = stream_of(pictures, 0);
    assert(d.subrange(0, d.len() as int) =~= d);
    lemma_stream_splits(pictures, 0, d, 0);
    let units = units_from(d, 0);
    if pictures.len() > 0 {
        lemma_place(pictures, 0, d, 0, 0);
    }
    assert forall|j: int| #![trigger units[j]] 0 <= j < pictures.len() implies d.subrange(
        units[j].0,
        units[j].0 + units[j].1,
    ) == nal::nal_unit(pictures[j].0, pictures[j].1) by {
        lemma_place(pictures, 0, d, 0, j);
    }
}

} // verus!
