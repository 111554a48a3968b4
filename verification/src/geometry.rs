//! Planes and tiles of a valid configuration: dimensions in whole transforms, scaling steps that
//! undo each other, and where each tile stands.
use crate::config;
use crate::config::{LcevcConfig, ScalingMode, TileDimensions};
use crate::tu;
use vstd::prelude::*;

verus! {

/// A rectangle of a plane.
#[derive(Clone, Copy, Debug)]
pub struct Tile {
    pub x: usize,
    pub y: usize,
    pub width: usize,
    pub height: usize,
}

/// Tiles side by side in a plane, rounded up.
pub open spec fn tiles_across(c: LcevcConfig, loq: int, plane: int) -> int {
    (config::plane_size(c, loq, plane).0 + config::tile_size(c, plane).0 - 1) / config::tile_size(
        c,
        plane,
    ).0
}

/// The `k`-th tile of a plane: tiles stand in raster order and are cut off at the plane's edges.
pub open spec fn tile_at(c: LcevcConfig, loq: int, plane: int, k: int) -> Tile {
    let (pw, ph) = config::plane_size(c, loq, plane);
    let (tw, th) = config::tile_size(c, plane);
    let across = tiles_across(c, loq, plane);
    let x = (k % across) * tw;
    let y = (k / across) * th;
    Tile {
        x: x as usize,
        y: y as usize,
        width: (if tw < pw - x {
            tw
        } else {
            pw - x
        }) as usize,
        height: (if th < ph - y {
            th
        } else {
            ph - y
        }) as usize,
    }
}

/// TUs of a tile.
pub open spec fn tile_tus(c: LcevcConfig, t: Tile) -> int {
    tu::tu_count(t.width as int, t.height as int, config::tu_size_of(c.transform) as int)
}

/// The position of the `i`-th TU of a tile.
pub open spec fn tile_position(c: LcevcConfig, t: Tile, block_order: bool, i: int) -> (int, int) {
    tu::tu_position(
        t.width as int,
        t.height as int,
        t.x as int,
        t.y as int,
        config::tu_size_of(c.transform) as int,
        block_order,
        i,
    )
}

/// Dimensions one scaling step up.
pub open spec fn scaled_up(d: (int, int), m: ScalingMode) -> (int, int) {
    match m {
        ScalingMode::Scale0D => d,
        ScalingMode::Scale1D => (2 * d.0, d.1),
        ScalingMode::Scale2D => (2 * d.0, 2 * d.1),
    }
}

/// A tile inside its plane that holds at least one transform, and whole ones only.
pub open spec fn tile_inside(c: LcevcConfig, loq: int, plane: int, t: Tile) -> bool {
    let (pw, ph) = config::plane_size(c, loq, plane);
    let s = config::tu_size_of(c.transform) as int;
    &&& 0 < t.width && t.x + t.width <= pw
    &&& 0 < t.height && t.y + t.height <= ph
    &&& t.width as int % s == 0
    &&& t.height as int % s == 0
}

/// The planes of a valid configuration: transforms fit in whole numbers, and the scaling steps
/// down and up lead to the same dimensions.
pub proof fn lemma_planes(c: LcevcConfig, plane: int)
    requires
        config::config_error(c) is None,
        0 <= plane < config::planes_of(c.chroma),
    ensures
        ({
            let s = config::tu_size_of(c.transform) as int;
            let p0 = config::plane_size(c, 0, plane);
            let p1 = config::plane_size(c, 1, plane);
            let p2 = config::plane_size(c, 2, plane);
            &&& 0 < p0.0 <= 65535 && 0 < p0.1 <= 65535
            &&& 0 < p1.0 <= 65535 && 0 < p1.1 <= 65535
            &&& 0 < p2.0 <= 65535 && 0 < p2.1 <= 65535
            &&& p0.0 % s == 0 && p0.1 % s == 0
            &&& p1.0 % s == 0 && p1.1 % s == 0
            &&& config::scaled_down(p0, c.scaling_l2) == p1
            &&& config::scaled_down(p1, c.scaling_l1) == p2
            &&& scaled_up(p1, c.scaling_l2) == p0
            &&& scaled_up(p2, c.scaling_l1) == p1
            &&& p1.0 <= p0.0 && p1.1 <= p0.1
        }),
{
    lemma_axis(
        c.width as int,
        config::tu_size_of(c.transform) as int,
        c.scaling_l2 != ScalingMode::Scale0D,
        c.scaling_l1 != ScalingMode::Scale0D,
        config::chroma_shift(c.chroma).0 == 1,
    );
    lemma_axis(
        c.height as int,
        config::tu_size_of(c.transform) as int,
        c.scaling_l2 == ScalingMode::Scale2D,
        c.scaling_l1 == ScalingMode::Scale2D,
        config::chroma_shift(c.chroma).1 == 1,
    );
}

/// Half of a length, rounded up, where a flag says so.
spec fn halved(n: int, flag: bool) -> int {
    if flag {
        (n + 1) / 2
    } else {
        n
    }
}

/// Twice a length, where a flag says so.
spec fn twice(n: int, flag: bool) -> int {
    if flag {
        2 * n
    } else {
        n
    }
}

/// A factor of two, where a flag says so.
spec fn factor(flag: bool) -> int {
    if flag {
        2
    } else {
        1
    }
}

/// One axis of the planes: a length that is a multiple of transform size, first scaling step and
/// subsampling.
proof fn lemma_axis(n: int, s: int, step2: bool, step1: bool, sub: bool)
    requires
        s == 2 || s == 4,
        0 < n <= 65535,
        n % (s * factor(step2) * factor(sub)) == 0,
    ensures
        ({
            let n1 = halved(n, step2);
            let n2 = halved(n1, step1);
            &&& 0 < n2 <= n1 <= n
            &&& n % s == 0
            &&& n1 % s == 0
            &&& halved(n, step2) == n1
            &&& twice(n1, step2) == n
            &&& twice(n2, step1) == n1
            &&& 0 < halved(n2, sub) <= halved(n1, sub) <= halved(n, sub)
            &&& halved(n, sub) % s == 0
            &&& halved(n1, sub) % s == 0
            &&& halved(halved(n, sub), step2) == halved(n1, sub)
            &&& halved(halved(n1, sub), step1) == halved(n2, sub)
            &&& twice(halved(n1, sub), step2) == halved(n, sub)
            &&& twice(halved(n2, sub), step1) == halved(n1, sub)
        }),
{
    if step2 && sub {
        if s == 2 {
            let k = n / 8;
            assert(n == 8 * k);
        } else {
            let k = n / 16;
            assert(n == 16 * k);
        }
    } else if step2 || sub {
        if s == 2 {
            let k = n / 4;
            assert(n == 4 * k);
        } else {
            let k = n / 8;
            assert(n == 8 * k);
        }
    } else {
        if s == 2 {
            let k = n / 2;
            assert(n == 2 * k);
        } else {
            let k = n / 4;
            assert(n == 4 * k);
        }
    }
}

/// The tile size of a plane: whole transforms.
pub proof fn lemma_tile_size(c: LcevcConfig, plane: int)
    requires
        config::config_error(c) is None,
        0 <= plane < config::planes_of(c.chroma),
    ensures
        ({
            let s = config::tu_size_of(c.transform) as int;
            let (tw, th) = config::tile_size(c, plane);
            0 < tw <= 65535 && 0 < th <= 65535 && tw % s == 0 && th % s == 0
        }),
        config::tile_size_known(c),
{
    lemma_planes(c, plane);
    if c.tile_dimensions != TileDimensions::Untiled && plane == 2 {
        assert(config::tile_size(c, 2) == config::tile_size(c, 1));
    }
}

/// A tile along one axis.
proof fn lemma_span(n: int, t: int, s: int, k: int)
    requires
        s == 2 || s == 4,
        0 < n <= 65535,
        0 < t <= 65535,
        n % s == 0,
        t % s == 0,
        0 <= k < (n + t - 1) / t,
    ensures
        0 <= k * t < n,
        (n - k * t) % s == 0,
{
    let q = (n + t - 1) / t;
    vstd::arithmetic::div_mod::lemma_fundamental_div_mod(n + t - 1, t);
    vstd::arithmetic::div_mod::lemma_mod_bound(n + t - 1, t);
    assert(k * t <= n - 1) by (nonlinear_arith)
        requires
            n + t - 1 == t * q + (n + t - 1) % t,
            0 <= (n + t - 1) % t,
            k <= q - 1,
            t > 0,
    ;
    assert(0 <= k * t) by (nonlinear_arith)
        requires
            0 <= k,
            0 < t,
    ;
    let u = t / s;
    assert(t == s * u);
    assert(k * t == s * (k * u)) by (nonlinear_arith)
        requires
            t == s * u,
    ;
    let v = k * u;
    if s == 2 {
        assert((n - 2 * v) % 2 == 0);
    } else {
        assert((n - 4 * v) % 4 == 0);
    }
}

/// Every tile stands inside its plane and holds whole transforms.
#[verifier::rlimit(60)]
pub proof fn lemma_tile(c: LcevcConfig, loq: int, plane: int, k: int)
    requires
        config::config_error(c) is None,
        0 <= plane < config::planes_of(c.chroma),
        loq == 0 || loq == 1,
        0 <= k < config::tile_count(c, loq, plane),
    ensures
        tile_inside(c, loq, plane, tile_at(c, loq, plane, k)),
        tiles_across(c, loq, plane) > 0,
        tile_at(c, loq, plane, k).x == (k % tiles_across(c, loq, plane)) * config::tile_size(
            c,
            plane,
        ).0,
        tile_at(c, loq, plane, k).y == (k / tiles_across(c, loq, plane)) * config::tile_size(
            c,
            plane,
        ).1,
        1 <= tile_tus(c, tile_at(c, loq, plane, k)) <= 0x3fff_ffff,
{
    lemma_planes(c, plane);
    lemma_tile_size(c, plane);
    let s = config::tu_size_of(c.transform) as int;
    let (pw, ph) = config::plane_size(c, loq, plane);
    let (tw, th) = config::tile_size(c, plane);
    let across = tiles_across(c, loq, plane);
    let down = (ph + th - 1) / th;
    vstd::arithmetic::div_mod::lemma_div_pos_is_pos(pw + tw - 1, tw);
    vstd::arithmetic::div_mod::lemma_div_pos_is_pos(ph + th - 1, th);
    assert(across > 0) by (nonlinear_arith)
        requires
            0 <= k < across * down,
            across >= 0,
            down >= 0,
    ;
    vstd::arithmetic::div_mod::lemma_fundamental_div_mod(k, across);
    vstd::arithmetic::div_mod::lemma_mod_bound(k, across);
    let q = k / across;
    assert(0 <= q < down) by (nonlinear_arith)
        requires
            k == across * q + k % across,
            0 <= k % across < across,
            0 <= k < across * down,
    ;
    lemma_span(pw, tw, s, k % across);
    lemma_span(ph, th, s, q);
    let t = tile_at(c, loq, plane, k);
    lemma_tus(t.width as int, t.height as int, s);
}

/// The number of TUs of a rectangle of whole TUs.
proof fn lemma_tus(w: int, h: int, s: int)
    requires
        s == 2 || s == 4,
        0 < w <= 65535,
        0 < h <= 65535,
        w % s == 0,
        h % s == 0,
    ensures
        1 <= tu::tu_count(w, h, s) <= 0x3fff_ffff,
{
    let a = w / s;
    let b = h / s;
    assert(1 <= a * b <= 0x3fff_ffff) by (nonlinear_arith)
        requires
            1 <= a <= 32767,
            1 <= b <= 32767,
    ;
}

/// A picture that is not tiled is one tile.
pub proof fn lemma_untiled(c: LcevcConfig, loq: int, plane: int)
    requires
        config::config_error(c) is None,
        0 <= plane < config::planes_of(c.chroma),
        loq == 0 || loq == 1,
        c.tile_dimensions == TileDimensions::Untiled,
    ensures
        config::tile_count(c, loq, plane) == 1,
        tile_at(c, loq, plane, 0).x == 0,
        tile_at(c, loq, plane, 0).y == 0,
        tile_at(c, loq, plane, 0).width == config::plane_size(c, loq, plane).0,
        tile_at(c, loq, plane, 0).height == config::plane_size(c, loq, plane).1,
{
    lemma_planes(c, plane);
    let (pw, ph) = config::plane_size(c, loq, plane);
    let (tw, th) = config::tile_size(c, plane);
    vstd::arithmetic::div_mod::lemma_fundamental_div_mod_converse(pw + tw - 1, tw, 1, pw - 1);
    assert((pw + tw - 1) / tw == 1);
    vstd::arithmetic::div_mod::lemma_fundamental_div_mod_converse(ph + th - 1, th, 1, ph - 1);
    assert((ph + th - 1) / th == 1);
    assert(tiles_across(c, loq, plane) == 1);
    assert((0int % 1) * tw == 0 && (0int / 1) * th == 0) by (nonlinear_arith);
}

/// Every TU of a tile stands inside it.
pub proof fn lemma_tile_position(c: LcevcConfig, t: Tile, block_order: bool, i: int)
    requires
        0 <= i < tile_tus(c, t),
        t.width as int % config::tu_size_of(c.transform) as int == 0,
        t.height as int % config::tu_size_of(c.transform) as int == 0,
    ensures
        ({
            let s = config::tu_size_of(c.transform) as int;
            let (x, y) = tile_position(c, t, block_order, i);
            t.x <= x && x + s <= t.x + t.width && t.y <= y && y + s <= t.y + t.height
        }),
{
    let s = config::tu_size_of(c.transform) as int;
    let w = t.width as int;
    let h = t.height as int;
    tu::lemma_tu_inside(w, h, s, block_order, i);
    let (x, y) = if block_order {
        tu::block_tu(w, h, s, i)
    } else {
        tu::raster_tu(w, s, i)
    };
    assert(x * s >= 0 && x * s + s <= w) by (nonlinear_arith)
        requires
            0 <= x < w / s,
            s > 0,
            w >= 0,
    ;
    assert(y * s >= 0 && y * s + s <= h) by (nonlinear_arith)
        requires
            0 <= y < h / s,
            s > 0,
            h >= 0,
    ;
}

/// The `k`-th tile of a plane.
pub fn tile_of(cfg: &LcevcConfig, loq: usize, plane: usize, k: usize) -> (t: Tile)
    requires
        config::config_error(*cfg) is None,
        plane < config::planes_of(cfg.chroma),
        loq <= 1,
        k < config::tile_count(*cfg, loq as int, plane as int),
    ensures
        t == tile_at(*cfg, loq as int, plane as int, k as int),
        tile_inside(*cfg, loq as int, plane as int, t),
        1 <= tile_tus(*cfg, t) <= 0x3fff_ffff,
{
    proof {
        lemma_planes(*cfg, plane as int);
        lemma_tile_size(*cfg, plane as int);
        lemma_tile(*cfg, loq as int, plane as int, k as int);
    }
    let (pw, ph) = cfg.plane_dimensions(loq, plane);
    let (tw, th) = cfg.tile_dimensions_plane(plane);
    let across: usize = ((pw as u32 + tw as u32 - 1) / tw as u32) as usize;
    let column: usize = k % across;
    let row: usize = k / across;
    let tw: usize = tw as usize;
    let th: usize = th as usize;
    let x: usize = column * tw;
    let y: usize = row * th;
    let wide: usize = pw as usize - x;
    let high: usize = ph as usize - y;
    Tile {
        x,
        y,
        width: if tw < wide {
            tw
        } else {
            wide
        },
        height: if th < high {
            th
        } else {
            high
        },
    }
}

} // verus!
