//! Transform unit (TU) iteration: where the TUs of a tile stand, in surface raster order and in
//! 32x32 block-major order.
use vstd::prelude::*;

verus! {

/// Block size for temporal/block-major TU ordering (32x32 samples).
const BLOCK_SIZE: usize = 32;

/// The side of a TU for a shift, in samples.
pub open spec fn tu_side(shift: u32) -> int {
    if shift == 1 {
        2
    } else {
        4
    }
}

/// TUs along the side of a 32x32 block.
pub open spec fn per_block(s: int) -> int {
    if s == 2 {
        16
    } else {
        8
    }
}

/// TUs of a rectangle.
pub open spec fn tu_count(w: int, h: int, s: int) -> int {
    (w / s) * (h / s)
}

/// Column and row of the `i`-th TU in raster order, in TUs.
pub open spec fn raster_tu(w: int, s: int, i: int) -> (int, int) {
    (i % (w / s), i / (w / s))
}

/// TU rows in the block row `br`: a full block, or what is left at the bottom.
pub open spec fn rows_in(h: int, s: int, br: int) -> int {
    if br >= h / 32 {
        (h % 32) / s
    } else {
        per_block(s)
    }
}

/// Column and row of the `i`-th TU in block-major order, in TUs: block rows from the top, the
/// blocks of a row from the left, and raster order within a block.
pub open spec fn block_tu(w: int, h: int, s: int, i: int) -> (int, int) {
    let t = per_block(s);
    let row_len = (w / s) * t;
    let br = i / row_len;
    let in_row = i % row_len;
    let rows = rows_in(h, s, br);
    let bc = in_row / (rows * t);
    let in_block = in_row % (rows * t);
    let cols = rows_in(w, s, bc);
    (bc * t + in_block % cols, br * t + in_block / cols)
}

/// The index of a TU in block-major order.
pub open spec fn block_index(w: int, h: int, s: int, x: int, y: int) -> int {
    let t = per_block(s);
    let br = y / t;
    let bc = x / t;
    let rows = rows_in(h, s, br);
    let cols = rows_in(w, s, bc);
    br * ((w / s) * t) + (bc * (rows * t) + ((y % t) * cols + x % t))
}

/// The position in samples of the `i`-th TU of a tile.
pub open spec fn tu_position(
    w: int,
    h: int,
    x0: int,
    y0: int,
    s: int,
    block_order: bool,
    i: int,
) -> (int, int) {
    let (x, y) = if block_order {
        block_tu(w, h, s, i)
    } else {
        raster_tu(w, s, i)
    };
    (x * s + x0, y * s + y0)
}

/// `n` units in whole blocks of `t` and a rest.
proof fn lemma_side(n: int, s: int)
    requires
        n >= 0,
        s == 2 || s == 4,
    ensures
        n / s == (n / 32) * per_block(s) + (n % 32) / s,
        0 <= (n % 32) / s < per_block(s),
        0 <= n / 32,
{
}

/// A row of blocks: where unit `i` of `count` lies, when whole blocks hold `full` units and a
/// last one holds the rest.
proof fn lemma_block_of(i: int, whole: int, full: int, rest: int)
    requires
        0 <= whole,
        0 <= rest < full,
        0 <= i < whole * full + rest,
    ensures
        0 <= i / full <= whole,
        i / full == whole ==> i % full < rest,
        0 <= i % full < full,
        i == (i / full) * full + i % full,
{
    vstd::arithmetic::div_mod::lemma_fundamental_div_mod(i, full);
    vstd::arithmetic::div_mod::lemma_mod_bound(i, full);
    let q = i / full;
    let r = i % full;
    assert(full * q == q * full) by (nonlinear_arith);
    assert(q >= 0) by (nonlinear_arith)
        requires
            i >= 0,
            full > 0,
            i == q * full + r,
            0 <= r < full,
    ;
    assert(q <= whole) by (nonlinear_arith)
        requires
            i < whole * full + rest,
            rest < full,
            full > 0,
            i == q * full + r,
            0 <= r,
    ;
}

/// The parts of a block-major index.
proof fn lemma_block_parts(w: int, h: int, s: int, i: int)
    requires
        0 <= w,
        0 <= h,
        s == 2 || s == 4,
        0 <= i < tu_count(w, h, s),
    ensures
        ({
            let t = per_block(s);
            let a = w / s;
            let br = i / (a * t);
            let in_row = i % (a * t);
            let rows = rows_in(h, s, br);
            let bc = in_row / (rows * t);
            let in_block = in_row % (rows * t);
            let cols = rows_in(w, s, bc);
            &&& a > 0
            &&& 0 <= br <= h / 32
            &&& 0 < rows <= t
            &&& 0 <= bc <= w / 32
            &&& 0 < cols <= t
            &&& 0 <= in_block % cols < cols
            &&& 0 <= in_block / cols < rows
            &&& in_block == (in_block / cols) * cols + in_block % cols
            &&& i == br * (a * t) + (bc * (rows * t) + in_block)
            &&& 0 <= in_block < rows * cols
            &&& br * t + rows <= h / s
            &&& bc * t + cols <= a
        }),
{
    let t = per_block(s);
    let a = w / s;
    let hr = (h % 32) / s;
    let wr = (w % 32) / s;
    lemma_side(w, s);
    lemma_side(h, s);
    assert(a > 0) by (nonlinear_arith)
        requires
            0 <= i < a * (h / s),
            a >= 0,
            h / s >= 0,
    ;
    let hb = h / 32;
    let wb = w / 32;
    // block row
    assert(a * (hb * t + hr) == hb * (a * t) + a * hr) by (nonlinear_arith);
    assert(0 <= a * hr < a * t) by (nonlinear_arith)
        requires
            0 <= hr < t,
            a > 0,
    ;
    lemma_block_of(i, hb, a * t, a * hr);
    let br = i / (a * t);
    let in_row = i % (a * t);
    let rows = rows_in(h, s, br);
    assert(in_row < a * rows) by {
        if br < hb {
            assert(rows == t);
        } else {
            assert(rows == hr);
        }
    }
    assert(rows > 0) by (nonlinear_arith)
        requires
            0 <= in_row < a * rows,
            a > 0,
    ;
    // block column
    assert((wb * t + wr) * rows == wb * (rows * t) + rows * wr) by (nonlinear_arith);
    assert(a * rows == wb * (rows * t) + rows * wr);
    assert(0 <= rows * wr < rows * t) by (nonlinear_arith)
        requires
            0 <= wr < t,
            rows > 0,
    ;
    lemma_block_of(in_row, wb, rows * t, rows * wr);
    let bc = in_row / (rows * t);
    let in_block = in_row % (rows * t);
    let cols = rows_in(w, s, bc);
    assert(in_block < rows * cols) by {
        if bc < wb {
            assert(cols == t);
        } else {
            assert(cols == wr);
        }
    }
    assert(cols > 0) by (nonlinear_arith)
        requires
            0 <= in_block < rows * cols,
            rows > 0,
    ;
    vstd::arithmetic::div_mod::lemma_fundamental_div_mod(in_block, cols);
    vstd::arithmetic::div_mod::lemma_mod_bound(in_block, cols);
    let ty = in_block / cols;
    let tx = in_block % cols;
    assert(cols * ty == ty * cols) by (nonlinear_arith);
    assert(0 <= ty < rows) by (nonlinear_arith)
        requires
            in_block == ty * cols + tx,
            0 <= tx < cols,
            0 <= in_block < rows * cols,
    ;
    assert(br * t + rows <= h / s) by {
        if br < hb {
            assert(br * t + t <= hb * t) by (nonlinear_arith)
                requires
                    br + 1 <= hb,
                    t > 0,
            ;
        }
    }
    assert(bc * t + cols <= a) by {
        if bc < wb {
            assert(bc * t + t <= wb * t) by (nonlinear_arith)
                requires
                    bc + 1 <= wb,
                    t > 0,
            ;
        }
    }
}

/// Every index of a tile stands for a TU inside it.
pub proof fn lemma_tu_inside(w: int, h: int, s: int, block_order: bool, i: int)
    requires
        0 <= w,
        0 <= h,
        s == 2 || s == 4,
        0 <= i < tu_count(w, h, s),
    ensures
        ({
            let (x, y) = if block_order {
                block_tu(w, h, s, i)
            } else {
                raster_tu(w, s, i)
            };
            0 <= x < w / s && 0 <= y < h / s
        }),
        w / s > 0,
{
    let a = w / s;
    assert(a > 0) by (nonlinear_arith)
        requires
            0 <= i < a * (h / s),
            a >= 0,
            h / s >= 0,
    ;
    if block_order {
        lemma_block_parts(w, h, s, i);
        let t = per_block(s);
        let br = i / (a * t);
        let in_row = i % (a * t);
        let rows = rows_in(h, s, br);
        let bc = in_row / (rows * t);
        assert(0 <= br * t && 0 <= bc * t) by (nonlinear_arith)
            requires
                0 <= br,
                0 <= bc,
                t > 0,
        ;
    } else {
        vstd::arithmetic::div_mod::lemma_fundamental_div_mod(i, a);
        vstd::arithmetic::div_mod::lemma_mod_bound(i, a);
        let q = i / a;
        assert(0 <= q < h / s) by (nonlinear_arith)
            requires
                i == a * q + i % a,
                0 <= i % a < a,
                0 <= i < a * (h / s),
        ;
    }
}

/// A quotient and a remainder from their sum.
proof fn lemma_div_mod_sum(q: int, d: int, r: int)
    requires
        0 <= r < d,
    ensures
        (q * d + r) / d == q,
        (q * d + r) % d == r,
{
    vstd::arithmetic::div_mod::lemma_fundamental_div_mod_converse(q * d + r, d, q, r);
}

/// Block-major order visits every TU of a tile exactly once.
pub proof fn law_block_order(w: int, h: int, s: int, x: int, y: int, i: int)
    requires
        0 <= w,
        0 <= h,
        s == 2 || s == 4,
        0 <= x < w / s,
        0 <= y < h / s,
        0 <= i < tu_count(w, h, s),
    ensures
        0 <= block_index(w, h, s, x, y) < tu_count(w, h, s),
        block_tu(w, h, s, block_index(w, h, s, x, y)) == (x, y),
        ({
            let (bx, by) = block_tu(w, h, s, i);
            block_index(w, h, s, bx, by) == i
        }),
{
    let t = per_block(s);
    let a = w / s;
    lemma_side(w, s);
    lemma_side(h, s);
    // from an index to the position and back
    lemma_block_parts(w, h, s, i);
    {
        let br = i / (a * t);
        let in_row = i % (a * t);
        let rows = rows_in(h, s, br);
        let bc = in_row / (rows * t);
        let in_block = in_row % (rows * t);
        let cols = rows_in(w, s, bc);
        lemma_div_mod_sum(br, t, in_block / cols);
        lemma_div_mod_sum(bc, t, in_block % cols);
    }
    // from a position to the index and back
    let hb = h / 32;
    let wb = w / 32;
    let hr = (h % 32) / s;
    let wr = (w % 32) / s;
    lemma_block_of(y, hb, t, hr);
    lemma_block_of(x, wb, t, wr);
    let br = y / t;
    let bc = x / t;
    let rows = rows_in(h, s, br);
    let cols = rows_in(w, s, bc);
    let ty = y % t;
    let tx = x % t;
    assert(ty < rows && tx < cols);
    let in_block = ty * cols + tx;
    assert(0 <= in_block < rows * cols) by (nonlinear_arith)
        requires
            in_block == ty * cols + tx,
            0 <= ty < rows,
            0 <= tx < cols,
    ;
    assert(rows * cols <= rows * t) by (nonlinear_arith)
        requires
            rows > 0,
            cols <= t,
    ;
    let in_row = bc * (rows * t) + in_block;
    assert(bc * t + cols <= a) by {
        if bc < wb {
            assert(bc * t + t <= wb * t) by (nonlinear_arith)
                requires
                    bc + 1 <= wb,
                    t > 0,
            ;
        }
    }
    assert(0 <= in_row < a * rows) by (nonlinear_arith)
        requires
            in_row == bc * (rows * t) + in_block,
            0 <= in_block < rows * cols,
            bc * t + cols <= a,
            bc >= 0,
            rows > 0,
            t > 0,
    ;
    assert(a * rows <= a * t) by (nonlinear_arith)
        requires
            rows <= t,
            a > 0,
    ;
    lemma_div_mod_sum(br, a * t, in_row);
    lemma_div_mod_sum(bc, rows * t, in_block);
    lemma_div_mod_sum(ty, cols, tx);
    let index = br * (a * t) + in_row;
    assert(block_index(w, h, s, x, y) == index);
    assert(br * t + rows <= h / s) by {
        if br < hb {
            assert(br * t + t <= hb * t) by (nonlinear_arith)
                requires
                    br + 1 <= hb,
                    t > 0,
            ;
        }
    }
    assert(0 <= index < a * (h / s)) by (nonlinear_arith)
        requires
            index == br * (a * t) + in_row,
            0 <= in_row < a * rows,
            br * t + rows <= h / s,
            br >= 0,
            a > 0,
            t > 0,
    ;
}

/// The TUs of a tile: a rectangle at an offset, in TUs of `1 << tu_width_shift` samples.
pub struct TuState {
    pub width: usize,
    pub height: usize,
    pub x_offset: usize,
    pub y_offset: usize,
    pub tu_width_shift: u32,
    pub num_across: usize,
    pub tu_total: usize,
}

impl TuState {
    /// The derived numbers fit the dimensions, and positions fit a machine word.
    pub open spec fn wf(&self) -> bool {
        &&& 1 <= self.tu_width_shift <= 2
        &&& self.num_across == self.width as int / tu_side(self.tu_width_shift)
        &&& self.tu_total == tu_count(
            self.width as int,
            self.height as int,
            tu_side(self.tu_width_shift),
        )
        &&& self.x_offset + self.width <= usize::MAX
        &&& self.y_offset + self.height <= usize::MAX
    }

    pub fn new(
        width: usize,
        height: usize,
        x_offset: usize,
        y_offset: usize,
        tu_width_shift: u32,
    ) -> (t: TuState)
        requires
            1 <= tu_width_shift <= 2,
            tu_count(width as int, height as int, tu_side(tu_width_shift)) <= usize::MAX,
            x_offset + width <= usize::MAX,
            y_offset + height <= usize::MAX,
        ensures
            t.wf(),
            t.width == width,
            t.height == height,
            t.x_offset == x_offset,
            t.y_offset == y_offset,
            t.tu_width_shift == tu_width_shift,
    {
        let side: usize = if tu_width_shift == 1 {
            2
        } else {
            4
        };
        let num_across: usize = width / side;
        let down: usize = height / side;
        assert(num_across * down >= 0) by (nonlinear_arith)
            requires
                0 <= num_across,
                0 <= down,
        ;
        let tu_total: usize = num_across * down;
        TuState { width, height, x_offset, y_offset, tu_width_shift, num_across, tu_total }
    }

    /// Surface raster TU position (used when temporal is disabled and the picture is not
    /// tiled).
    pub fn surface_position(&self, tu_index: usize) -> (p: (usize, usize))
        requires
            self.wf(),
            tu_index < self.tu_total,
        ensures
            (p.0 as int, p.1 as int) == tu_position(
                self.width as int,
                self.height as int,
                self.x_offset as int,
                self.y_offset as int,
                tu_side(self.tu_width_shift),
                false,
                tu_index as int,
            ),
    {
        let side: usize = if self.tu_width_shift == 1 {
            2
        } else {
            4
        };
        proof {
            lemma_tu_inside(
                self.width as int,
                self.height as int,
                side as int,
                false,
                tu_index as int,
            );
        }
        let x: usize = tu_index % self.num_across;
        let y: usize = tu_index / self.num_across;
        (x * side + self.x_offset, y * side + self.y_offset)
    }

    /// 32x32 block-major TU position.
    #[verifier::rlimit(60)]
    pub fn block_position(&self, tu_index: usize) -> (p: (usize, usize))
        requires
            self.wf(),
            tu_index < self.tu_total,
        ensures
            (p.0 as int, p.1 as int) == tu_position(
                self.width as int,
                self.height as int,
                self.x_offset as int,
                self.y_offset as int,
                tu_side(self.tu_width_shift),
                true,
                tu_index as int,
            ),
    {
        let side: usize = if self.tu_width_shift == 1 {
            2
        } else {
            4
        };
        // TUs along the side of a block.
        let dims: u128 = if self.tu_width_shift == 1 {
            16
        } else {
            8
        };
        let ghost w = self.width as int;
        let ghost h = self.height as int;
        let ghost s = side as int;
        let ghost t = per_block(s);
        proof {
            lemma_tu_inside(w, h, s, true, tu_index as int);
            lemma_block_parts(w, h, s, tu_index as int);
        }
        let index: u128 = tu_index as u128;
        let row_len: u128 = self.num_across as u128 * dims;
        let block_row: u128 = index / row_len;
        let in_row: u128 = index % row_len;
        let rows: u128 = if block_row >= (self.height / BLOCK_SIZE) as u128 {
            ((self.height % BLOCK_SIZE) / side) as u128
        } else {
            dims
        };
        let block_len: u128 = rows * dims;
        let block_col: u128 = in_row / block_len;
        let in_block: u128 = in_row % block_len;
        let cols: u128 = if block_col >= (self.width / BLOCK_SIZE) as u128 {
            ((self.width % BLOCK_SIZE) / side) as u128
        } else {
            dims
        };
        let tu_x: u128 = block_col * dims + in_block % cols;
        let tu_y: u128 = block_row * dims + in_block / cols;
        assert((tu_x as int, tu_y as int) == block_tu(w, h, s, tu_index as int));
        (tu_x as usize * side + self.x_offset, tu_y as usize * side + self.y_offset)
    }

    /// The position of a TU in the given order.
    pub fn surface_or_block_position(&self, tu_index: usize, block_order: bool) -> (p: (
        usize,
        usize,
    ))
        requires
            self.wf(),
            tu_index < self.tu_total,
        ensures
            (p.0 as int, p.1 as int) == tu_position(
                self.width as int,
                self.height as int,
                self.x_offset as int,
                self.y_offset as int,
                tu_side(self.tu_width_shift),
                block_order,
                tu_index as int,
            ),
    {
        if block_order {
            self.block_position(tu_index)
        } else {
            self.surface_position(tu_index)
        }
    }
}

} // verus!
