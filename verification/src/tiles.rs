//! Tile layout: how many pixels each primitive of a mesh occupies on the grid.

use vstd::prelude::*;

verus! {

/// The largest natural number whose square does not exceed `x`.
pub open spec fn floor_sqrt(x: nat) -> nat
    decreases x,
{
    if x == 0 {
        0
    } else {
        let r = floor_sqrt((x - 1) as nat);
        if (r + 1) * (r + 1) <= x {
            r + 1
        } else {
            r
        }
    }
}

/// `floor_sqrt(x)` squared is at most `x`, and the next square is beyond `x`.
pub proof fn lemma_floor_sqrt_bounds(x: nat)
    ensures
        floor_sqrt(x) * floor_sqrt(x) <= x,
        x < (floor_sqrt(x) + 1) * (floor_sqrt(x) + 1),
    decreases x,
{
    if x != 0 {
        lemma_floor_sqrt_bounds((x - 1) as nat);
        let r = floor_sqrt((x - 1) as nat);
        if (r + 1) * (r + 1) <= x {
            assert(floor_sqrt(x) == r + 1);
            assert((r + 2) * (r + 2) > (r + 1) * (r + 1)) by (nonlinear_arith);
            assert(r + 1 + 1 == r + 2);
        } else {
            assert(floor_sqrt(x) == r);
        }
    } else {
        assert(floor_sqrt(x) == 0);
        assert((0 + 1) * (0 + 1) == 1) by (nonlinear_arith);
    }
}

/// Only one natural number lies between the square roots of `x` and `x + 1`.
pub proof fn lemma_floor_sqrt_unique(x: nat, r: nat)
    requires
        r * r <= x,
        x < (r + 1) * (r + 1),
    ensures
        r == floor_sqrt(x),
{
    lemma_floor_sqrt_bounds(x);
    let s = floor_sqrt(x);
    if r < s {
        assert((r + 1) * (r + 1) <= s * s) by (nonlinear_arith)
            requires
                r + 1 <= s,
        ;
    } else if s < r {
        assert((s + 1) * (s + 1) <= r * r) by (nonlinear_arith)
            requires
                s + 1 <= r,
        ;
    }
}

/// The square root of `x`, rounded down.
pub fn isqrt(x: u128) -> (r: u128)
    ensures
        r == floor_sqrt(x as nat),
        r <= u64::MAX,
{
    let mut lo: u128 = 0;
    let mut hi: u128 = 0x1_0000_0000_0000_0000;
    assert(0x1_0000_0000_0000_0000 * 0x1_0000_0000_0000_0000 > u128::MAX) by (nonlinear_arith);
    while hi - lo > 1
        invariant
            lo < hi <= 0x1_0000_0000_0000_0000,
            lo * lo <= x,
            x < hi * hi,
        decreases hi - lo,
    {
        let mid: u128 = lo + (hi - lo) / 2;
        assert(mid * mid <= 0xffff_ffff_ffff_ffff * 0xffff_ffff_ffff_ffff) by (nonlinear_arith)
            requires
                0 <= mid <= 0xffff_ffff_ffff_ffff,
        ;
        if mid * mid <= x {
            lo = mid;
        } else {
            hi = mid;
        }
    }
    proof {
        lemma_floor_sqrt_unique(x as nat, lo as nat);
    }
    lo
}

/// How the pixel grid is divided into tiles, one for each primitive of a
/// mesh.
#[derive(Clone, Copy, Debug, PartialEq, Eq, Structural)]
pub struct TileLayout {
    /// Pixels per tile, across.
    pub tile_width: usize,
    /// Pixels per tile, down.
    pub tile_height: usize,
    /// Tiles in one row of the tile grid.
    pub tiles_per_row: usize,
}

/// Rows of the tile grid for `count` primitives: the square root of
/// `count * height / width`, rounded down, so that the tile grid keeps the
/// aspect ratio of the pixel grid.
pub open spec fn tile_rows(count: usize, width: usize, height: usize) -> int {
    floor_sqrt(((count * height) / (width as int)) as nat) as int
}

/// `tile_rows` is the largest number whose square is at most
/// `count * height / width`, the quotient taken without rounding.
pub proof fn lemma_tile_rows_exact(count: usize, width: usize, height: usize)
    requires
        0 < width,
    ensures
        0 <= tile_rows(count, width, height),
        tile_rows(count, width, height) * tile_rows(count, width, height) * width <= count
            * height,
        count * height < (tile_rows(count, width, height) + 1) * (tile_rows(count, width, height)
            + 1) * width,
{
    let q = ((count * height) / (width as int)) as nat;
    let r = tile_rows(count, width, height);
    lemma_floor_sqrt_bounds(q);
    assert(r * r * width <= count * height && count * height < (r + 1) * (r + 1) * width)
        by (nonlinear_arith)
        requires
            q == (count * height) / (width as int),
            0 < width,
            0 <= count * height,
            r * r <= q,
            q < (r + 1) * (r + 1),
    ;
}

/// The layout for `count` primitives on a `width` by `height` grid.
///
/// More primitives than pixels get one pixel each. Otherwise the tile grid has
/// `tile_rows` rows of `count / tile_rows` tiles, each tile an equal share of
/// the grid rounded down. There is no layout when the tile grid would have no
/// row or no column.
pub open spec fn planned(count: usize, width: usize, height: usize) -> Option<TileLayout> {
    if count > width * height {
        Some(TileLayout { tile_width: 1, tile_height: 1, tiles_per_row: width })
    } else {
        let rows = tile_rows(count, width, height);
        if rows == 0 {
            None
        } else if count as int / rows == 0 {
            None
        } else {
            let per_row = count as int / rows;
            Some(
                TileLayout {
                    tile_width: (width as int / per_row) as usize,
                    tile_height: (height as int / rows) as usize,
                    tiles_per_row: per_row as usize,
                },
            )
        }
    }
}

/// How much of a run of `len` pixels that starts at `start` lies before `bound`.
pub open spec fn clipped(start: int, len: int, bound: int) -> int {
    if start >= bound {
        0
    } else if start + len <= bound {
        len
    } else {
        bound - start
    }
}

impl TileLayout {
    /// The slot of primitive `i`: primitives beyond the last pixel wrap around
    /// onto the slots of the first ones.
    pub open spec fn slot(i: int, width: int, height: int) -> int {
        i % (width * height)
    }

    /// The row of the tile grid that holds `slot`.
    pub open spec fn tile_row(&self, slot: int) -> int {
        slot / (self.tiles_per_row as int)
    }

    /// The column of the tile grid that holds `slot`.
    pub open spec fn tile_col(&self, slot: int) -> int {
        slot - self.tiles_per_row * self.tile_row(slot)
    }

    /// The leftmost pixel column of the tile of `slot`.
    pub open spec fn origin_x(&self, slot: int) -> int {
        self.tile_col(slot) * self.tile_width
    }

    /// The topmost pixel row of the tile of `slot`.
    pub open spec fn origin_y(&self, slot: int) -> int {
        self.tile_row(slot) * self.tile_height
    }

    /// The pixels that primitive `i` is drawn into, in row-major order: its
    /// tile, without what would lie beyond the right or the lower edge of the
    /// grid. Pixel `(column, row)` has the index `row * width + column`.
    pub open spec fn block(&self, i: int, width: int, height: int) -> Seq<int> {
        let slot = Self::slot(i, width, height);
        let x = self.origin_x(slot);
        let y = self.origin_y(slot);
        let cols = clipped(x, self.tile_width as int, width);
        let rows = clipped(y, self.tile_height as int, height);
        Seq::new((rows * cols) as nat, |k: int| (y + k / cols) * width + x + k % cols)
    }
}

/// The primitives among the first `count` that are drawn into `pixel` under
/// `layout`, in ascending order.
pub open spec fn drawn_into(
    layout: TileLayout,
    count: nat,
    pixel: int,
    width: int,
    height: int,
) -> Seq<usize>
    decreases count,
{
    if count == 0 {
        Seq::empty()
    } else {
        let earlier = drawn_into(layout, (count - 1) as nat, pixel, width, height);
        if layout.block(count - 1, width, height).contains(pixel) {
            earlier.push((count - 1) as usize)
        } else {
            earlier
        }
    }
}

/// The pixels of a block are listed in ascending order, and all of them lie
/// on the grid.
pub proof fn lemma_block_ascends(
    layout: TileLayout,
    i: int,
    width: int,
    height: int,
    a: int,
    b: int,
)
    requires
        0 < width,
        0 < height,
        0 < layout.tiles_per_row,
        0 <= i,
        0 <= a <= b < layout.block(i, width, height).len(),
    ensures
        0 <= layout.block(i, width, height)[a] <= layout.block(i, width, height)[b] < width
            * height,
        a < b ==> layout.block(i, width, height)[a] < layout.block(i, width, height)[b],
{
    let slot = TileLayout::slot(i, width, height);
    let per_row = layout.tiles_per_row as int;
    let row = layout.tile_row(slot);
    let col = layout.tile_col(slot);
    let x = layout.origin_x(slot);
    let y = layout.origin_y(slot);
    let cols = clipped(x, layout.tile_width as int, width);
    let rows = clipped(y, layout.tile_height as int, height);
    assert(0 < width * height) by (nonlinear_arith)
        requires
            0 < width,
            0 < height,
    ;
    assert(0 <= row && 0 <= col) by (nonlinear_arith)
        requires
            0 <= slot,
            0 < per_row,
            row == slot / per_row,
            col == slot - per_row * row,
    ;
    assert(0 <= x && 0 <= y) by (nonlinear_arith)
        requires
            0 <= row,
            0 <= col,
            x == col * layout.tile_width,
            y == row * layout.tile_height,
    ;
    assert(0 < cols && 0 < rows) by (nonlinear_arith)
        requires
            0 <= cols,
            0 <= rows,
            0 < rows * cols,
    ;
    let ra = a / cols;
    let ca = a % cols;
    let rb = b / cols;
    let cb = b % cols;
    assert(0 <= ra <= rb < rows && 0 <= ca < cols && 0 <= cb < cols && (ra == rb ==> ca <= cb) && (
    ra == rb && a < b ==> ca < cb)) by (nonlinear_arith)
        requires
            0 <= a <= b < rows * cols,
            0 < cols,
            ra == a / cols,
            ca == a % cols,
            rb == b / cols,
            cb == b % cols,
    ;
    assert(0 <= (y + ra) * width + x + ca <= (y + rb) * width + x + cb < width * height && (a < b
        ==> (y + ra) * width + x + ca < (y + rb) * width + x + cb)) by (nonlinear_arith)
        requires
            0 <= ra <= rb,
            ra == rb ==> ca <= cb,
            ra == rb && a < b ==> ca < cb,
            0 <= ca < cols,
            0 <= cb < cols,
            0 <= x,
            0 <= y,
            x + cols <= width,
            y + rb < height,
    ;
}

/// With no more primitives than pixels there is a layout unless the tile grid
/// would have no row, which is when `count * height` is less than `width`, or
/// no column, which is when it would have more rows than there are primitives.
pub proof fn lemma_planned_exists(count: usize, width: usize, height: usize)
    requires
        0 < width,
        0 < height,
        count <= width * height,
    ensures
        planned(count, width, height) is None <==> count * height < width || count < tile_rows(
            count,
            width,
            height,
        ),
{
    let q = ((count * height) / (width as int)) as nat;
    let rows = tile_rows(count, width, height);
    lemma_floor_sqrt_bounds(q);
    assert(q == 0 <==> count * height < width) by (nonlinear_arith)
        requires
            q == (count * height) / (width as int),
            0 <= count * height,
            0 < width,
    ;
    assert(rows == 0 <==> q == 0) by (nonlinear_arith)
        requires
            0 <= rows,
            rows * rows <= q,
            q < (rows + 1) * (rows + 1),
    ;
    if rows > 0 {
        assert(count as int / rows == 0 <==> count < rows) by (nonlinear_arith)
            requires
                0 <= count,
                0 < rows,
        ;
    }
}

/// The tiles of a layout are no larger than the grid, and at least one pixel
/// high.
pub proof fn lemma_planned_shape(count: usize, width: usize, height: usize)
    requires
        0 < width,
        0 < height,
        count <= width * height,
    ensures
        tile_rows(count, width, height) <= height,
        planned(count, width, height) matches Some(l) ==> {
            &&& 0 < l.tiles_per_row <= count
            &&& l.tiles_per_row == count as int / tile_rows(count, width, height)
            &&& l.tile_width == width as int / l.tiles_per_row as int
            &&& 0 < l.tile_height == height as int / tile_rows(count, width, height)
        },
{
    let q = ((count * height) / (width as int)) as nat;
    let rows = tile_rows(count, width, height);
    lemma_floor_sqrt_bounds(q);
    assert(count * height <= width * (height * height)) by (nonlinear_arith)
        requires
            count <= width * height,
            0 < height,
    ;
    assert(q <= height * height) by (nonlinear_arith)
        requires
            q == (count * height) / (width as int),
            count * height <= width * (height * height),
            0 < width,
    ;
    assert(rows <= height) by (nonlinear_arith)
        requires
            rows * rows <= q,
            q <= height * height,
    ;
    if rows != 0 && count as int / rows != 0 {
        let per_row = count as int / rows;
        assert(0 <= per_row <= count) by (nonlinear_arith)
            requires
                per_row == count as int / rows,
                rows > 0,
        ;
        assert(0 <= width as int / per_row <= width) by (nonlinear_arith)
            requires
                per_row > 0,
        ;
        assert(0 < height as int / rows <= height) by (nonlinear_arith)
            requires
                0 < rows <= height,
        ;
    }
}

/// With no more primitives than pixels, primitive `i` has the slot `i`, and
/// the origin of its tile lies on the grid: its column always, and its row
/// whenever the tile is in one of the planned rows of the tile grid or its
/// offset is still less than the height.
pub proof fn lemma_origin_in_grid(count: usize, width: usize, height: usize, i: int)
    requires
        0 < width,
        0 < height,
        count <= width * height,
        0 <= i < count,
        planned(count, width, height) is Some,
        ({
            let l = planned(count, width, height)->0;
            l.tile_row(i) < tile_rows(count, width, height) || l.origin_y(i) < height
        }),
    ensures
        TileLayout::slot(i, width as int, height as int) == i,
        ({
            let l = planned(count, width, height)->0;
            &&& 0 <= l.origin_x(i) < width
            &&& 0 <= l.origin_y(i) < height
        }),
{
    assert(i % (width * height) == i) by (nonlinear_arith)
        requires
            0 <= i < width * height,
    ;
    lemma_planned_shape(count, width, height);
    let l = planned(count, width, height)->0;
    let rows = tile_rows(count, width, height);
    let per_row = l.tiles_per_row as int;
    let row = l.tile_row(i);
    let col = l.tile_col(i);
    let tw = l.tile_width as int;
    let th = l.tile_height as int;
    assert(0 <= row && 0 <= col < per_row) by (nonlinear_arith)
        requires
            0 <= i,
            0 < per_row,
            row == i / per_row,
            col == i - per_row * row,
    ;
    assert(0 <= col * tw < width) by (nonlinear_arith)
        requires
            0 <= col < per_row,
            tw == width as int / per_row,
            0 < width,
    ;
    assert(0 <= row * th) by (nonlinear_arith)
        requires
            0 <= row,
            0 <= th,
    ;
    if row < rows {
        assert(row * th < height) by (nonlinear_arith)
            requires
                0 <= row < rows,
                th == height as int / rows,
                0 < height,
        ;
    }
}

/// With more primitives than pixels, primitive `i` is drawn into the one pixel
/// whose index is `i` modulo the number of pixels.
pub proof fn lemma_wrapped_block(count: usize, width: usize, height: usize, i: int)
    requires
        0 < width,
        0 < height,
        count > width * height,
        0 <= i,
    ensures
        planned(count, width, height) is Some,
        planned(count, width, height)->0.block(i, width as int, height as int) == seq![
            i % (width * height),
        ],
{
    let l = planned(count, width, height)->0;
    let w = width as int;
    let h = height as int;
    let slot = TileLayout::slot(i, w, h);
    assert(0 < w * h) by (nonlinear_arith)
        requires
            0 < w,
            0 < h,
    ;
    assert(0 <= slot < w * h);
    let row = l.tile_row(slot);
    let col = l.tile_col(slot);
    assert(0 <= row < h && 0 <= col < w) by (nonlinear_arith)
        requires
            0 <= slot < w * h,
            0 < w,
            row == slot / w,
            col == slot - w * row,
    ;
    assert(l.origin_x(slot) == col) by (nonlinear_arith)
        requires
            l.origin_x(slot) == col * 1,
    ;
    assert(l.origin_y(slot) == row) by (nonlinear_arith)
        requires
            l.origin_y(slot) == row * 1,
    ;
    assert(clipped(col, 1, w) == 1);
    assert(clipped(row, 1, h) == 1);
    let b = l.block(i, w, h);
    assert(1 * 1 == 1) by (nonlinear_arith);
    assert(b.len() == 1);
    assert(b[0] == (row + 0int / 1) * w + col + 0int % 1);
    assert(row * w + col == slot) by (nonlinear_arith)
        requires
            col == slot - w * row,
    ;
    assert(b =~= seq![slot]);
}

} // verus!
