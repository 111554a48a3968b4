//! Where things are: the order of the TUs of a tile, the tiles of a plane, the planes of a
//! picture, and the samples of a frame in a file.
use crate::base;
use crate::coding;
use crate::config;
use crate::config::{ChromaFormat, LcevcConfig, ScalingMode, TileDimensions, UpsampleType};
use crate::frame;
use crate::frame::Raster;
use crate::geometry;
use crate::plane;
use crate::tu;
use crate::upscale;
use crate::yuv;
use vstd::prelude::*;

verus! {

/// The order of positions in rows.
pub open spec fn row_before(a: (int, int), b: (int, int)) -> bool {
    a.1 < b.1 || (a.1 == b.1 && a.0 < b.0)
}

/// The order of positions in blocks of 32x32 samples: the blocks in rows, and the positions of a
/// block in rows.
pub open spec fn block_before(a: (int, int), b: (int, int)) -> bool {
    ||| row_before((a.0 / 32, a.1 / 32), (b.0 / 32, b.1 / 32))
    ||| (a.0 / 32, a.1 / 32) == (b.0 / 32, b.1 / 32) && row_before(a, b)
}

proof fn lemma_block_span(w: int, h: int, s: int, x: int, y: int)
    requires
        0 <= w,
        0 <= h,
        s == 2 || s == 4,
        0 <= x < w / s,
        0 <= y < h / s,
    ensures
        ({
            let t = tu::per_block(s);
            let a = w / s;
            let br = y / t;
            let bc = x / t;
            let rows = tu::rows_in(h, s, br);
            let cols = tu::rows_in(w, s, bc);
            &&& 0 <= br && 0 <= bc && 0 <= x % t < cols <= t && 0 <= y % t < rows <= t
            &&& (y + t - y % t < h / s ==> rows == t)
            &&& (x + t - x % t < a ==> cols == t)
            &&& bc * t + cols <= a
            &&& 0 <= (y % t) * cols + x % t < rows * cols
            &&& bc * (rows * t) + rows * cols <= a * rows
        }),
{
    let t = tu::per_block(s);
    let a = w / s;
    let br = y / t;
    let bc = x / t;
    let rows = tu::rows_in(h, s, br);
    let cols = tu::rows_in(w, s, bc);
    if s == 2 {
        assert(w / 2 == (w / 32) * 16 + (w % 32) / 2);
        assert(h / 2 == (h / 32) * 16 + (h % 32) / 2);
    } else {
        assert(w / 4 == (w / 32) * 8 + (w % 32) / 4);
        assert(h / 4 == (h / 32) * 8 + (h % 32) / 4);
    }
    let i = y % t;
    let j = x % t;
    assert(0 <= i * cols + j < rows * cols) by (nonlinear_arith)
        requires
            0 <= j < cols,
            0 <= i < rows,
    ;
    assert(bc * (rows * t) + rows * cols <= a * rows) by (nonlinear_arith)
        requires
            bc * t + cols <= a,
            rows >= 0,
    ;
}

/// A TU comes before another in block-major order exactly where its position does: blocks of
/// 32x32 samples follow each other in rows, and so do the TUs of a block.
pub proof fn law_block_major(w: int, h: int, s: int, x: int, y: int, x2: int, y2: int)
    requires
        0 <= w,
        0 <= h,
        s == 2 || s == 4,
        0 <= x < w / s,
        0 <= y < h / s,
        0 <= x2 < w / s,
        0 <= y2 < h / s,
    ensures
        tu::block_index(w, h, s, x, y) < tu::block_index(w, h, s, x2, y2) <==> block_before(
            (x * s, y * s),
            (x2 * s, y2 * s),
        ),
{
    let a = (x * s, y * s);
    let b = (x2 * s, y2 * s);
    if block_before(a, b) {
        lemma_block_major(w, h, s, x, y, x2, y2);
    } else if block_before(b, a) {
        lemma_block_major(w, h, s, x2, y2, x, y);
    } else {
        assert(a.0 == b.0 && a.1 == b.1);
        assert(x == x2 && y == y2) by (nonlinear_arith)
            requires
                x * s == x2 * s,
                y * s == y2 * s,
                s > 0,
        ;
    }
}

proof fn lemma_sample_block(s: int, x: int)
    requires
        s == 2 || s == 4,
        x >= 0,
    ensures
        (x * s) / 32 == x / tu::per_block(s),
{
    if s == 2 {
        assert((x * 2) / 32 == x / 16);
    } else {
        assert((x * 4) / 32 == x / 8);
    }
}

proof fn lemma_block_major(w: int, h: int, s: int, x: int, y: int, x2: int, y2: int)
    requires
        0 <= w,
        0 <= h,
        s == 2 || s == 4,
        0 <= x < w / s,
        0 <= y < h / s,
        0 <= x2 < w / s,
        0 <= y2 < h / s,
        block_before((x * s, y * s), (x2 * s, y2 * s)),
    ensures
        tu::block_index(w, h, s, x, y) < tu::block_index(w, h, s, x2, y2),
{
    let t = tu::per_block(s);
    let a = w / s;
    lemma_sample_block(s, x);
    lemma_sample_block(s, y);
    lemma_sample_block(s, x2);
    lemma_sample_block(s, y2);
    lemma_block_span(w, h, s, x, y);
    lemma_block_span(w, h, s, x2, y2);
    let br = y / t;
    let bc = x / t;
    let br2 = y2 / t;
    let bc2 = x2 / t;
    let rows = tu::rows_in(h, s, br);
    let cols = tu::rows_in(w, s, bc);
    let rows2 = tu::rows_in(h, s, br2);
    let cols2 = tu::rows_in(w, s, bc2);
    let inside = (y % t) * cols + x % t;
    let inside2 = (y2 % t) * cols2 + x2 % t;
    if br < br2 {
        assert(y + t - y % t < h / s || rows == t) by {
            if s == 2 {
                assert(y - y % 16 == 16 * (y / 16) && y2 - y2 % 16 == 16 * (y2 / 16));
            } else {
                assert(y - y % 8 == 8 * (y / 8) && y2 - y2 % 8 == 8 * (y2 / 8));
            }
        }
        assert(rows == t) by {
            if s == 2 {
                assert(y - y % 16 == 16 * (y / 16) && y2 - y2 % 16 == 16 * (y2 / 16));
            } else {
                assert(y - y % 8 == 8 * (y / 8) && y2 - y2 % 8 == 8 * (y2 / 8));
            }
        }
        assert(br * (a * t) + (bc * (rows * t) + inside) < br2 * (a * t) + (bc2 * (rows2 * t)
            + inside2)) by (nonlinear_arith)
            requires
                br + 1 <= br2,
                rows == t,
                bc * (rows * t) + rows * cols <= a * rows,
                inside < rows * cols,
                0 <= inside2,
                0 <= bc2,
                0 <= rows2,
                0 <= t,
                0 <= a,
        ;
    } else if bc < bc2 {
        assert(br == br2 && rows == rows2);
        assert(cols == t) by {
            if s == 2 {
                assert(x - x % 16 == 16 * (x / 16) && x2 - x2 % 16 == 16 * (x2 / 16));
            } else {
                assert(x - x % 8 == 8 * (x / 8) && x2 - x2 % 8 == 8 * (x2 / 8));
            }
        }
        assert(bc * (rows * t) + inside < bc2 * (rows2 * t) + inside2) by (nonlinear_arith)
            requires
                bc + 1 <= bc2,
                rows == rows2,
                cols == t,
                inside < rows * cols,
                0 <= inside2,
                0 <= rows,
                0 <= t,
        ;
    } else {
        assert(br == br2 && bc == bc2);
        let i = y % t;
        let i2 = y2 % t;
        let j = x % t;
        let j2 = x2 % t;
        assert(i < i2 || (i == i2 && j < j2)) by {
            if s == 2 {
                assert(y == 16 * br + i && y2 == 16 * br2 + i2);
                assert(x == 16 * bc + j && x2 == 16 * bc2 + j2);
            } else {
                assert(y == 8 * br + i && y2 == 8 * br2 + i2);
                assert(x == 8 * bc + j && x2 == 8 * bc2 + j2);
            }
        }
        assert(i * cols + j < i2 * cols + j2) by (nonlinear_arith)
            requires
                i < i2 || (i == i2 && j < j2),
                0 <= j < cols,
                0 <= j2 < cols,
        ;
    }
}

/// In the order of a surface, a TU comes before another exactly where its position does, row by
/// row.
pub proof fn law_surface_rows(w: int, s: int, i: int, k: int)
    requires
        s == 2 || s == 4,
        w >= s,
        0 <= i,
        0 <= k,
    ensures
        i < k <==> row_before(tu::raster_tu(w, s, i), tu::raster_tu(w, s, k)),
        0 <= tu::raster_tu(w, s, i).0 < w / s,
{
    let a = w / s;
    assert(a >= 1) by {
        if s == 2 {
            assert(w / 2 >= 1);
        } else {
            assert(w / 4 >= 1);
        }
    }
    vstd::arithmetic::div_mod::lemma_fundamental_div_mod(i, a);
    vstd::arithmetic::div_mod::lemma_fundamental_div_mod(k, a);
    let (x, y) = (i % a, i / a);
    let (x2, y2) = (k % a, k / a);
    assert(i < k <==> (y < y2 || (y == y2 && x < x2))) by (nonlinear_arith)
        requires
            i == a * y + x,
            k == a * y2 + x2,
            0 <= x < a,
            0 <= x2 < a,
    ;
}

/// Every position of a plane lies in one tile: the tiles stand side by side in rows, each as
/// large as a tile or as what is left of the plane.
pub proof fn law_tiles_side_by_side(
    c: LcevcConfig,
    loq: int,
    plane: int,
    k: int,
    px: int,
    py: int,
)
    requires
        config::config_error(c) is None,
        0 <= plane < config::planes_of(c.chroma),
        loq == 0 || loq == 1,
        0 <= k < config::tile_count(c, loq, plane),
        0 <= px < config::plane_size(c, loq, plane).0,
        0 <= py < config::plane_size(c, loq, plane).1,
    ensures
        ({
            let t = geometry::tile_at(c, loq, plane, k);
            let (tw, th) = config::tile_size(c, plane);
            let across = geometry::tiles_across(c, loq, plane);
            (t.x <= px < t.x + t.width && t.y <= py < t.y + t.height) <==> k == (py / th) * across
                + px / tw
        }),
{
    geometry::lemma_tile(c, loq, plane, k);
    let t = geometry::tile_at(c, loq, plane, k);
    let (pw, ph) = config::plane_size(c, loq, plane);
    let (tw, th) = config::tile_size(c, plane);
    let across = geometry::tiles_across(c, loq, plane);
    geometry::lemma_planes(c, plane);
    geometry::lemma_tile_size(c, plane);
    vstd::arithmetic::div_mod::lemma_fundamental_div_mod(k, across);
    vstd::arithmetic::div_mod::lemma_fundamental_div_mod(px, tw);
    vstd::arithmetic::div_mod::lemma_fundamental_div_mod(py, th);
    vstd::arithmetic::div_mod::lemma_fundamental_div_mod(pw + tw - 1, tw);
    let i = k % across;
    let j = k / across;
    let a = px / tw;
    let b = py / th;
    assert(0 <= a < across) by (nonlinear_arith)
        requires
            px == tw * a + px % tw,
            0 <= px % tw < tw,
            0 <= px < pw,
            pw + tw - 1 == tw * across + (pw + tw - 1) % tw,
            0 <= (pw + tw - 1) % tw < tw,
            tw > 0,
    ;
    assert((i * tw <= px < i * tw + tw) <==> i == a) by (nonlinear_arith)
        requires
            px == tw * a + px % tw,
            0 <= px % tw < tw,
            tw > 0,
    ;
    assert((j * th <= py < j * th + th) <==> j == b) by (nonlinear_arith)
        requires
            py == th * b + py % th,
            0 <= py % th < th,
            th > 0,
    ;
    assert((i == a && j == b) <==> k == b * across + a) by (nonlinear_arith)
        requires
            k == across * j + i,
            0 <= i < across,
            0 <= a < across,
    ;
}

/// What a plane has of a valid picture: LOQ0 the whole of it, and every further LOQ half of the
/// columns where its scaling is not off, and half of the rows where it is in both directions.
/// The chroma planes have half of the columns in 4:2:0 and 4:2:2, and half of the rows in 4:2:0.
#[verifier::spinoff_prover]
#[verifier::rlimit(40)]
pub proof fn law_plane_sizes(c: LcevcConfig, plane: int)
    requires
        config::config_error(c) is None,
        0 <= plane < config::planes_of(c.chroma),
    ensures
        ({
            let (w0, h0) = config::plane_size(c, 0, plane);
            let (w1, h1) = config::plane_size(c, 1, plane);
            let (w2, h2) = config::plane_size(c, 2, plane);
            let s = config::tu_size_of(c.transform) as int;
            let narrow = plane > 0 && (c.chroma == ChromaFormat::C420 || c.chroma
                == ChromaFormat::C422);
            let low = plane > 0 && c.chroma == ChromaFormat::C420;
            &&& (if narrow {
                2 * w0 == c.width
            } else {
                w0 == c.width
            })
            &&& (if low {
                2 * h0 == c.height
            } else {
                h0 == c.height
            })
            &&& (if c.scaling_l2 != ScalingMode::Scale0D {
                2 * w1 == w0
            } else {
                w1 == w0
            })
            &&& (if c.scaling_l2 == ScalingMode::Scale2D {
                2 * h1 == h0
            } else {
                h1 == h0
            })
            &&& (if c.scaling_l1 != ScalingMode::Scale0D {
                2 * w2 == w1
            } else {
                w2 == w1
            })
            &&& (if c.scaling_l1 == ScalingMode::Scale2D {
                2 * h2 == h1
            } else {
                h2 == h1
            })
            &&& w0 % s == 0 && h0 % s == 0 && w1 % s == 0 && h1 % s == 0
        }),
{
    geometry::lemma_planes(c, plane);
    lemma_even_picture(c);
    assert(config::plane_size(c, 0, plane) == config::in_plane(
        (c.width as int, c.height as int),
        c.chroma,
        plane,
    ));
}

proof fn lemma_even_picture(c: LcevcConfig)
    requires
        config::config_error(c) is None,
    ensures
        c.width as int % 2 == 0,
        c.height as int % 2 == 0,
{
    let (h, v) = config::alignment(c);
    assert(h == 2 || h == 4 || h == 8 || h == 16);
    assert(v == 2 || v == 4 || v == 8 || v == 16);
    lemma_even(c.width as int, h);
    lemma_even(c.height as int, v);
}

proof fn lemma_even(n: int, d: int)
    requires
        d == 2 || d == 4 || d == 8 || d == 16,
        n % d == 0,
    ensures
        n % 2 == 0,
{
    if d == 4 {
        assert(n % 4 == 0);
    } else if d == 8 {
        assert(n % 8 == 0);
    } else if d == 16 {
        assert(n % 16 == 0);
    }
}

/// A sample of a 4:2:0 frame stands in its file behind the rows above it and the samples to its
/// left. The first plane is the luma, and the two chroma planes follow, of half its width and
/// half its height, rounded up. A sample of 10 bits takes two bytes, the lower one first.
pub proof fn law_sample_place(d: Seq<u8>, width: int, height: int, depth: u8, p: int, x: int, y: int)
    requires
        depth == 8 || depth == 10,
        0 <= width,
        0 <= height,
        0 <= p < 3,
        0 <= x < (if p == 0 {
            width
        } else {
            (width + 1) / 2
        }),
        0 <= y < (if p == 0 {
            height
        } else {
            (height + 1) / 2
        }),
        yuv::yuv420_frame(d, width, height, depth) is Ok,
    ensures
        ({
            let planes = yuv::yuv420_frame(d, width, height, depth)->Ok_0;
            let luma = width * height;
            let chroma = ((width + 1) / 2) * ((height + 1) / 2);
            let at = if p == 0 {
                y * width + x
            } else if p == 1 {
                luma + y * ((width + 1) / 2) + x
            } else {
                luma + chroma + y * ((width + 1) / 2) + x
            };
            &&& planes.len() == 3
            &&& depth == 8 ==> planes[p].at(x, y) == d[at]
            &&& depth == 10 ==> planes[p].at(x, y) == d[2 * at] + 256 * d[2 * at + 1]
        }),
{
    let wide = depth == 10;
    let planes = yuv::yuv420_frame(d, width, height, depth)->Ok_0;
    let (w, h) = frame::picture_plane_size(width, height, ChromaFormat::C420, p);
    assert(0 <= y * w + x < w * h) by (nonlinear_arith)
        requires
            0 <= x < w,
            0 <= y < h,
    ;
    let before = yuv::samples_before(width, height, ChromaFormat::C420, p);
    let c = ((width + 1) / 2) * ((height + 1) / 2);
    assert(0 * c == 0 && 1 * c == c);
    assert(before == (if p == 0 {
        0
    } else if p == 1 {
        width * height
    } else {
        width * height + c
    }));
    let i = y * w + x;
    let from = before * yuv::unit(wide);
    assert(planes[p] == yuv::plane_at(d, from, w, h, wide));
    assert(planes[p].at(x, y) == yuv::sample_at(d, from + i * yuv::unit(wide), wide));
    if wide {
        assert(from + i * 2 == 2 * (before + i));
    } else {
        assert(from + i * 1 == before + i);
    }
}

/// The taps of the kernels for samples between two others: the weights of the sample before,
/// the nearer one, the farther one and the one behind, in 16384ths.
pub proof fn law_kernel_taps(u: UpsampleType)
    ensures
        ({
            let k = config::kernel_of(u);
            &&& k.len() == 4
            &&& k[0] + k[1] + k[2] + k[3] == 16384
            &&& k[1] > 2 * k[2] && k[2] >= 0 && k[0] <= k[3] <= 0
            &&& u == UpsampleType::Nearest <==> k[1] == 16384
            &&& u == UpsampleType::Linear <==> k[1] == 3 * k[2]
            &&& u == UpsampleType::Cubic ==> k[0] == -1382 && k[2] == 3942 && k[3] == -461
            &&& u == UpsampleType::ModifiedCubic ==> k[0] == -2360 && k[2] == 4165 && k[3] == -1276
        }),
{
}

/// The level of a stream is the least one of four whose limit its samples per second do not
/// exceed; the last has no limit.
pub proof fn law_level_limits(samples: int, more: int)
    requires
        samples <= more,
    ensures
        1 <= config::level_of(samples) <= config::level_of(more) <= 4,
        config::level_of(samples) <= 1 <==> samples <= 29_410_000,
        config::level_of(samples) <= 2 <==> samples <= 124_560_000,
        config::level_of(samples) <= 3 <==> samples <= 527_650_000,
{
}

/// Without scaling a plane stays as it is, both ways.
pub proof fn law_no_scaling(up: Raster<i16>, down: Raster<u16>, k: Seq<i16>, pa: bool, depth: int)
    ensures
        upscale::upscaled(up, ScalingMode::Scale0D, k, pa) == up,
        upscale::downscaled(down, ScalingMode::Scale0D, depth) == down,
{
}

/// A picture that is not tiled is refused for its size only where a plane of LOQ0 or LOQ1 would
/// not be made of whole TUs.
pub proof fn law_size_refused(c: LcevcConfig)
    requires
        c.tile_dimensions == TileDimensions::Untiled,
        c.width > 0,
        c.height > 0,
    ensures
        ({
            let t = config::tu_size_of(c.transform) as int;
            let a: int = (if c.scaling_l2 != ScalingMode::Scale0D {
                2int
            } else {
                1
            }) * (if c.chroma == ChromaFormat::C420 || c.chroma == ChromaFormat::C422 {
                2int
            } else {
                1
            });
            let b: int = (if c.scaling_l2 == ScalingMode::Scale2D {
                2int
            } else {
                1
            }) * (if c.chroma == ChromaFormat::C420 {
                2int
            } else {
                1
            });
            config::config_error(c) is None <==> {
                &&& c.width as int % a == 0 && (c.width as int / a) % t == 0
                &&& c.height as int % b == 0 && (c.height as int / b) % t == 0
            }
        }),
{
    let t = config::tu_size_of(c.transform) as int;
    let (h, v) = config::alignment(c);
    lemma_multiple(c.width as int, h / t, t);
    lemma_multiple(c.height as int, v / t, t);
}

proof fn lemma_multiple(n: int, a: int, t: int)
    requires
        n >= 0,
        a == 1 || a == 2 || a == 4,
        t == 2 || t == 4,
    ensures
        n % (a * t) == 0 <==> n % a == 0 && (n / a) % t == 0,
{
    if a == 1 {
        assert(n / 1 == n && n % 1 == 0);
    } else if a == 2 {
        if t == 2 {
            assert(n % 4 == 0 <==> n % 2 == 0 && (n / 2) % 2 == 0);
        } else {
            assert(n % 8 == 0 <==> n % 2 == 0 && (n / 2) % 4 == 0);
        }
    } else {
        if t == 2 {
            assert(n % 8 == 0 <==> n % 4 == 0 && (n / 4) % 2 == 0);
        } else {
            assert(n % 16 == 0 <==> n % 4 == 0 && (n / 4) % 4 == 0);
        }
    }
}

/// What the base is made of has the size of LOQ2, plane by plane.
pub proof fn law_base_targets_size(c: LcevcConfig, source: Seq<Raster<u16>>, p: int)
    requires
        config::config_error(c) is None,
        0 <= p < config::planes_of(c.chroma),
        source.len() == config::planes_of(c.chroma),
        coding::sized(source[p], c, 0, p),
    ensures
        base::targets(c, source).len() == source.len(),
        coding::sized(base::targets(c, source)[p], c, 2, p),
{
    let depth = c.enhancement_depth as int;
    geometry::lemma_planes(c, p);
    plane::lemma_downscaled_size(source[p], c.scaling_l2, depth);
    let half = upscale::downscaled(source[p], c.scaling_l2, depth);
    plane::lemma_downscaled_size(half, c.scaling_l1, depth);
}

} // verus!
