//! Destructible terrain: a width x height occupancy bitmap with procedural
//! column generation, circular excavation and a gravity-driven subsidence
//! simulation.
//!
//! Coordinates given to the public queries are screen coordinates: `(0, 0)`
//! is the bottom-left pixel and `y` grows upwards.  The backing buffer is
//! row-major from the top row down, so cell `(x, y)` lives at buffer index
//! `(height - 1 - y) * width + x`.

use vstd::prelude::*;

verus! {

/// Why a landscape could not be built.
#[derive(Debug, Clone, Copy, PartialEq, Eq, Structural)]
pub enum LandscapeError {
    /// `width` or `height` was zero.
    ZeroDimension,
}

/// Mathematical image of a [`Landscape`].
#[verifier::ext_equal]
pub ghost struct LandscapeView {
    /// Width in pixels.
    pub width: int,
    /// Height in pixels.
    pub height: int,
    /// The occupancy buffer, row-major from the top row down; a cell is
    /// empty iff it holds zero.
    pub cells: Seq<u8>,
    /// Seed for the procedural generator owned by the caller.
    pub seed: u32,
    /// Dirty flag: the buffer changed since the last texture sync.
    pub changed: bool,
    /// A subsidence run is in progress.
    pub subsiding: bool,
    /// Total drop distance already processed by the current subsidence run.
    pub sub_pos: int,
    /// Left edge of the column window still eligible to change.
    pub sub_skip: int,
    /// Width of the column window still eligible to change.
    pub sub_take: int,
}

/// Destructible terrain bitmap.
#[derive(Debug)]
pub struct Landscape {
    width: u16,
    height: u16,
    buffer: Vec<u8>,
    seed: u32,
    changed: bool,
    subsidence_active: bool,
    subsidence_last_pos: u32,
    subsidence_skip: usize,
    subsidence_take: usize,
}

impl View for Landscape {
    type V = LandscapeView;

    closed spec fn view(&self) -> LandscapeView {
        LandscapeView {
            width: self.width as int,
            height: self.height as int,
            cells: self.buffer@,
            seed: self.seed,
            changed: self.changed,
            subsiding: self.subsidence_active,
            sub_pos: self.subsidence_last_pos as int,
            sub_skip: self.subsidence_skip as int,
            sub_take: self.subsidence_take as int,
        }
    }
}

impl LandscapeView {
    /// Buffer index of screen cell `(x, y)`.
    pub open spec fn index_of(self, x: int, y: int) -> int {
        (self.height - 1 - y) * self.width + x
    }

    /// Screen cell `(x, y)` is within the bitmap.
    pub open spec fn in_bounds(self, x: int, y: int) -> bool {
        0 <= x < self.width && 0 <= y < self.height
    }

    /// Value of screen cell `(x, y)`.
    pub open spec fn cell(self, x: int, y: int) -> u8
        recommends
            self.in_bounds(x, y),
    {
        self.cells[self.index_of(x, y)]
    }

    /// The grid itself is well-formed: positive dimensions and a buffer of
    /// exactly `width * height` cells.
    pub open spec fn grid_ok(self) -> bool {
        &&& 0 < self.width <= 0xffff
        &&& 0 < self.height <= 0xffff
        &&& self.cells.len() == self.width * self.height
    }

    /// Well-formedness: a well-formed grid and a subsidence window that
    /// stays within arithmetic range.
    pub open spec fn wf(self) -> bool {
        &&& self.grid_ok()
        &&& 0 <= self.sub_skip <= 2 * self.width
        &&& 0 <= self.sub_take <= self.width
        &&& 0 <= self.sub_pos < 0x1_0000_0000
        &&& (self.subsiding ==> self.sub_skip < self.width)
    }
}

/// Number of empty cells at the top of column `x` when generating from the
/// height profile `heights`, clamped to the bitmap height.
pub open spec fn column_height(heights: Seq<u16>, height: int, x: int) -> int {
    if heights[x] > height {
        height
    } else {
        heights[x] as int
    }
}

/// The buffer produced by generating a `width` x `height` bitmap from the
/// column height profile `heights`: in each column, the clamped profile
/// value gives the count of empty cells at the top, and the rest is solid.
pub open spec fn generated_cells(width: int, height: int, heights: Seq<u16>) -> Seq<u8> {
    Seq::new(
        (width * height) as nat,
        |i: int|
            {
                let r = i / width;
                let x = i % width;
                if r < column_height(heights, height, x) {
                    0u8
                } else {
                    1u8
                }
            },
    )
}

/// Terrain generation is deterministic: one height profile yields one
/// buffer, whatever instance it is applied to.  Two landscapes of the same
/// size generated from the same profile therefore hold identical cells.
pub proof fn lemma_generate_deterministic(a: LandscapeView, b: LandscapeView, heights: Seq<u16>)
    requires
        a.width == b.width,
        a.height == b.height,
        a.cells == generated_cells(a.width, a.height, heights),
        b.cells == generated_cells(b.width, b.height, heights),
    ensures
        a.cells == b.cells,
{
}

/// Number of nonzero cells of `cells` at indices `[lo, hi)`.
pub open spec fn count_solid_range(cells: Seq<u8>, lo: int, hi: int) -> int
    decreases hi - lo,
{
    if lo >= hi {
        0
    } else {
        (if cells[lo] != 0 {
            1int
        } else {
            0int
        }) + count_solid_range(cells, lo + 1, hi)
    }
}

/// Extending a counted range by one cell on the right adds that cell's
/// contribution.
pub proof fn lemma_count_solid_snoc(cells: Seq<u8>, lo: int, hi: int)
    requires
        lo <= hi,
    ensures
        count_solid_range(cells, lo, hi + 1) == count_solid_range(cells, lo, hi) + (
        if cells[hi] != 0 {
            1int
        } else {
            0int
        }),
    decreases hi - lo,
{
    if lo < hi {
        lemma_count_solid_snoc(cells, lo + 1, hi);
    } else {
        assert(count_solid_range(cells, lo, hi) == 0);
        assert(count_solid_range(cells, lo + 1, hi + 1) == 0);
    }
}

impl LandscapeView {
    /// The soft-fail rule for row spans: the start cell must be
    /// in bounds and the length positive.
    pub open spec fn span_ok(self, x: int, y: int, len: int) -> bool {
        self.in_bounds(x, y) && len > 0
    }

    /// Length of the span at `(x, y)` after clipping to the row end.
    pub open spec fn span_clip(self, x: int, len: int) -> int {
        if self.width - x < len {
            self.width - x
        } else {
            len
        }
    }

    /// The buffer after clearing the clipped row span at `(x, y)`; an
    /// out-of-range or empty request leaves the buffer as it is.
    pub open spec fn cleared_line(self, x: int, y: int, len: int) -> Seq<u8> {
        if !self.span_ok(x, y, len) {
            self.cells
        } else {
            let start = self.index_of(x, y);
            let clip = self.span_clip(x, len);
            Seq::new(
                self.cells.len(),
                |i: int|
                    if start <= i < start + clip {
                        0u8
                    } else {
                        self.cells[i]
                    },
            )
        }
    }

    /// How many solid cells the clipped row span at `(x, y)` holds.
    pub open spec fn line_solid_count(self, x: int, y: int, len: int) -> int {
        if !self.span_ok(x, y, len) {
            0
        } else {
            count_solid_range(
                self.cells,
                self.index_of(x, y),
                self.index_of(x, y) + self.span_clip(x, len),
            )
        }
    }
}

/// One update of the midpoint-circle walk state `(x, y, err)`, taken after
/// each emitted set of boundary points.  `x` runs from `-(radius - 1)` up
/// towards zero, `y` from zero upwards.
pub open spec fn circle_step(x: int, y: int, err: int) -> (int, int, int) {
    let r0 = err;
    let y1 = if r0 <= y {
        y + 1
    } else {
        y
    };
    let e1 = if r0 <= y {
        err + 2 * y1 + 1
    } else {
        err
    };
    let x1 = if r0 > x || e1 > y1 {
        x + 1
    } else {
        x
    };
    let e2 = if r0 > x || e1 > y1 {
        e1 + 2 * x1 + 1
    } else {
        e1
    };
    (x1, y1, e2)
}

/// Start of the walk for a destruction of the given radius; the walked
/// circle has radius `radius - 1`, one ring inside the requested disk.
pub open spec fn circle_start_x(radius: int) -> int {
    -(radius - 1)
}

/// Initial error term of the walk.
pub open spec fn circle_start_err(radius: int) -> int {
    2 - 2 * (radius - 1)
}

/// Step allowance of the walk: every step moves `x` or `y` up by one, and
/// both stay within the radius, so this many steps always complete it.
pub open spec fn circle_fuel(radius: int) -> nat {
    (2 * radius + 4) as nat
}

/// The left edge, exclusive right edge and the two rows of the horizontal
/// spans excavated at walk state `(x, y)` for a circle centred at
/// `(cx, cy)`: the chord from `cx + x` to `cx - x`, clamped at zero, taken
/// at rows `cy + y` and `cy - y`.
pub open spec fn span_lo(cx: int, x: int) -> int {
    if cx + x > 0 {
        cx + x
    } else {
        0
    }
}

pub open spec fn span_hi(cx: int, x: int) -> int {
    if cx - x > 0 {
        cx - x
    } else {
        0
    }
}

/// The buffer and change flag produced by the rest of a destruction walk
/// from state `(x, y, err)`.
pub open spec fn destroyed_rec(
    v: LandscapeView,
    cx: int,
    cy: int,
    x: int,
    y: int,
    err: int,
    fuel: nat,
) -> (Seq<u8>, bool)
    decreases fuel,
{
    if fuel == 0 || x >= 0 {
        (v.cells, false)
    } else {
        let lo = span_lo(cx, x);
        let len = span_hi(cx, x) - lo;
        let step = circle_step(x, y, err);
        if len == 0 {
            destroyed_rec(v, cx, cy, step.0, step.1, step.2, (fuel - 1) as nat)
        } else {
            let ch1 = v.line_solid_count(lo, cy + y, len) > 0;
            let v1 = LandscapeView { cells: v.cleared_line(lo, cy + y, len), ..v };
            let ch2 = v1.line_solid_count(lo, cy - y, len) > 0;
            let v2 = LandscapeView { cells: v1.cleared_line(lo, cy - y, len), ..v1 };
            let rest = destroyed_rec(v2, cx, cy, step.0, step.1, step.2, (fuel - 1) as nat);
            (rest.0, ch1 || ch2 || rest.1)
        }
    }
}

/// The whole destruction of a circle of the given radius at `(cx, cy)`.
pub open spec fn destroyed(v: LandscapeView, cx: int, cy: int, radius: int) -> (Seq<u8>, bool) {
    destroyed_rec(
        v,
        cx,
        cy,
        circle_start_x(radius),
        0,
        circle_start_err(radius),
        circle_fuel(radius),
    )
}

/// A counted range of all-empty cells counts zero solid cells.
pub proof fn lemma_count_solid_zero_range(cells: Seq<u8>, lo: int, hi: int)
    requires
        forall|j: int| lo <= j < hi ==> cells[j] == 0,
    ensures
        count_solid_range(cells, lo, hi) == 0,
    decreases hi - lo,
{
    if lo < hi {
        lemma_count_solid_zero_range(cells, lo + 1, hi);
    }
}

/// An in-bounds span occupies a valid index range of the buffer.
pub proof fn lemma_span_range(v: LandscapeView, x: int, y: int, len: int)
    requires
        v.grid_ok(),
        v.span_ok(x, y, len),
    ensures
        0 <= v.index_of(x, y),
        v.index_of(x, y) + v.span_clip(x, len) <= v.cells.len(),
        v.span_clip(x, len) >= 1,
{
    let r = v.height - 1 - y;
    lemma_grid_index(r, x, v.width, v.height);
    assert(r * v.width + v.width <= v.height * v.width) by (nonlinear_arith)
        requires
            0 <= r,
            r < v.height,
            v.width >= 0,
    ;
    vstd::arithmetic::mul::lemma_mul_is_commutative(v.width, v.height);
}

/// The destruction walk never changes the buffer's length.
pub proof fn lemma_destroyed_len(
    v: LandscapeView,
    cx: int,
    cy: int,
    x: int,
    y: int,
    err: int,
    fuel: nat,
)
    ensures
        destroyed_rec(v, cx, cy, x, y, err, fuel).0.len() == v.cells.len(),
    decreases fuel,
{
    if fuel == 0 || x >= 0 {
    } else {
        let step = circle_step(x, y, err);
        let lo = span_lo(cx, x);
        let len = span_hi(cx, x) - lo;
        if len == 0 {
            lemma_destroyed_len(v, cx, cy, step.0, step.1, step.2, (fuel - 1) as nat);
        } else {
            let v1 = LandscapeView { cells: v.cleared_line(lo, cy + y, len), ..v };
            let v2 = LandscapeView { cells: v1.cleared_line(lo, cy - y, len), ..v1 };
            assert(v1.cells.len() == v.cells.len());
            assert(v2.cells.len() == v.cells.len());
            lemma_destroyed_len(v2, cx, cy, step.0, step.1, step.2, (fuel - 1) as nat);
        }
    }
}

/// The destruction walk only clears: every cell of the result holds either
/// its old value or zero.  In particular a cell that was already empty
/// stays empty.
pub proof fn lemma_destroyed_only_clears(
    v: LandscapeView,
    cx: int,
    cy: int,
    x: int,
    y: int,
    err: int,
    fuel: nat,
    i: int,
)
    requires
        0 <= i < v.cells.len(),
    ensures
        destroyed_rec(v, cx, cy, x, y, err, fuel).0[i] == v.cells[i] || destroyed_rec(
            v,
            cx,
            cy,
            x,
            y,
            err,
            fuel,
        ).0[i] == 0,
    decreases fuel,
{
    if fuel == 0 || x >= 0 {
    } else {
        let step = circle_step(x, y, err);
        let lo = span_lo(cx, x);
        let len = span_hi(cx, x) - lo;
        if len == 0 {
            lemma_destroyed_only_clears(v, cx, cy, step.0, step.1, step.2, (fuel - 1) as nat, i);
        } else {
            let v1 = LandscapeView { cells: v.cleared_line(lo, cy + y, len), ..v };
            let v2 = LandscapeView { cells: v1.cleared_line(lo, cy - y, len), ..v1 };
            assert(v2.cells[i] == v.cells[i] || v2.cells[i] == 0);
            lemma_destroyed_only_clears(v2, cx, cy, step.0, step.1, step.2, (fuel - 1) as nat, i);
        }
    }
}

/// Cells in columns outside the walked chord range are untouched by the
/// destruction walk: the walk clears nothing left of column `cx + x` nor
/// at or right of column `cx - x`.
pub proof fn lemma_destroyed_untouched_column(
    v: LandscapeView,
    cx: int,
    cy: int,
    x: int,
    y: int,
    err: int,
    fuel: nat,
    i: int,
)
    requires
        v.grid_ok(),
        0 <= i < v.cells.len(),
        i % v.width < cx + x || i % v.width >= cx - x,
    ensures
        destroyed_rec(v, cx, cy, x, y, err, fuel).0[i] == v.cells[i],
    decreases fuel,
{
    if fuel == 0 || x >= 0 {
    } else {
        let step = circle_step(x, y, err);
        let lo = span_lo(cx, x);
        let len = span_hi(cx, x) - lo;
        let c = i % v.width;
        if len == 0 {
            lemma_destroyed_untouched_column(
                v,
                cx,
                cy,
                step.0,
                step.1,
                step.2,
                (fuel - 1) as nat,
                i,
            );
        } else {
            let v1 = LandscapeView { cells: v.cleared_line(lo, cy + y, len), ..v };
            let v2 = LandscapeView { cells: v1.cleared_line(lo, cy - y, len), ..v1 };
            lemma_cleared_line_misses_column(v, lo, cy + y, len, i);
            lemma_cleared_line_misses_column(v1, lo, cy - y, len, i);
            assert(v2.cells[i] == v.cells[i]);
            lemma_destroyed_untouched_column(
                v2,
                cx,
                cy,
                step.0,
                step.1,
                step.2,
                (fuel - 1) as nat,
                i,
            );
        }
    }
}

/// A cleared span touches only cells whose column lies in
/// `[lo, lo + clip)`: an index in another column keeps its value.
pub proof fn lemma_cleared_line_misses_column(v: LandscapeView, lo: int, yy: int, len: int, i: int)
    requires
        v.grid_ok(),
        0 <= i < v.cells.len(),
        !(lo <= i % v.width < lo + len),
    ensures
        v.cleared_line(lo, yy, len)[i] == v.cells[i],
{
    if v.span_ok(lo, yy, len) {
        let start = v.index_of(lo, yy);
        let clip = v.span_clip(lo, len);
        lemma_span_range(v, lo, yy, len);
        if start <= i < start + clip {
            let r = v.height - 1 - yy;
            vstd::arithmetic::div_mod::lemma_fundamental_div_mod_converse(
                i,
                v.width,
                r,
                lo + (i - start),
            );
            assert(i % v.width == lo + (i - start));
            assert(false);
        }
    }
}

/// Destroying the same circle twice is idempotent: a second walk over a
/// buffer the first walk produced removes nothing and reports no change.
pub proof fn lemma_destroyed_rec_idempotent(
    v: LandscapeView,
    a: LandscapeView,
    cx: int,
    cy: int,
    x: int,
    y: int,
    err: int,
    fuel: nat,
)
    requires
        v.grid_ok(),
        a.width == v.width,
        a.height == v.height,
        a.cells == destroyed_rec(v, cx, cy, x, y, err, fuel).0,
    ensures
        destroyed_rec(a, cx, cy, x, y, err, fuel).0 == a.cells,
        destroyed_rec(a, cx, cy, x, y, err, fuel).1 == false,
    decreases fuel,
{
    lemma_destroyed_len(v, cx, cy, x, y, err, fuel);
    if fuel == 0 || x >= 0 {
    } else {
        let step = circle_step(x, y, err);
        let lo = span_lo(cx, x);
        let len = span_hi(cx, x) - lo;
        if len == 0 {
            lemma_destroyed_rec_idempotent(v, a, cx, cy, step.0, step.1, step.2, (fuel - 1) as nat);
        } else {
            let v1 = LandscapeView { cells: v.cleared_line(lo, cy + y, len), ..v };
            let v2 = LandscapeView { cells: v1.cleared_line(lo, cy - y, len), ..v1 };
            lemma_destroyed_len(v2, cx, cy, step.0, step.1, step.2, (fuel - 1) as nat);
            // Every cell the two spans cover is empty in `a`: the step
            // cleared it, and the rest of the walk only clears.
            assert forall|j: int|
                v.span_ok(lo, cy + y, len) && v.index_of(lo, cy + y) <= j < v.index_of(lo, cy + y)
                    + v.span_clip(lo, len) implies a.cells[j] == 0u8 by {
                lemma_span_range(v, lo, cy + y, len);
                assert(v2.cells[j] == 0);
                lemma_destroyed_only_clears(v2, cx, cy, step.0, step.1, step.2, (fuel - 1) as nat, j);
            }
            assert forall|j: int|
                v.span_ok(lo, cy - y, len) && v.index_of(lo, cy - y) <= j < v.index_of(lo, cy - y)
                    + v.span_clip(lo, len) implies a.cells[j] == 0u8 by {
                lemma_span_range(v, lo, cy - y, len);
                assert(v2.cells[j] == 0);
                lemma_destroyed_only_clears(v2, cx, cy, step.0, step.1, step.2, (fuel - 1) as nat, j);
            }
            // So the second walk's spans count no solid cell and clear
            // nothing.
            if a.span_ok(lo, cy + y, len) {
                lemma_span_range(a, lo, cy + y, len);
                lemma_count_solid_zero_range(
                    a.cells,
                    a.index_of(lo, cy + y),
                    a.index_of(lo, cy + y) + a.span_clip(lo, len),
                );
            }
            assert(a.line_solid_count(lo, cy + y, len) == 0);
            assert(a.cleared_line(lo, cy + y, len) =~= a.cells);
            let a1 = LandscapeView { cells: a.cleared_line(lo, cy + y, len), ..a };
            if a1.span_ok(lo, cy - y, len) {
                lemma_span_range(a1, lo, cy - y, len);
                lemma_count_solid_zero_range(
                    a1.cells,
                    a1.index_of(lo, cy - y),
                    a1.index_of(lo, cy - y) + a1.span_clip(lo, len),
                );
            }
            assert(a1.line_solid_count(lo, cy - y, len) == 0);
            assert(a1.cleared_line(lo, cy - y, len) =~= a.cells);
            let a2 = LandscapeView { cells: a1.cleared_line(lo, cy - y, len), ..a1 };
            assert(a2 =~= a);
            lemma_destroyed_rec_idempotent(
                v2,
                a,
                cx,
                cy,
                step.0,
                step.1,
                step.2,
                (fuel - 1) as nat,
            );
        }
    }
}

/// Buffer index `i` lies inside the clipped row span of length `len`
/// starting at column `x0` of screen row `yy`, on a `w` x `h` grid.
pub open spec fn in_span(w: int, h: int, x0: int, yy: int, len: int, i: int) -> bool {
    &&& 0 <= x0 < w
    &&& 0 <= yy < h
    &&& len > 0
    &&& (h - 1 - yy) * w + x0 <= i < (h - 1 - yy) * w + x0 + (if w - x0 < len {
        w - x0
    } else {
        len
    })
}

/// Buffer index `i` is covered by some span the destruction walk emits
/// from state `(x, y, err)`.  Coverage depends only on the grid size and
/// the walk, never on the cells.
pub open spec fn destroyed_covers(
    w: int,
    h: int,
    cx: int,
    cy: int,
    x: int,
    y: int,
    err: int,
    fuel: nat,
    i: int,
) -> bool
    decreases fuel,
{
    if fuel == 0 || x >= 0 {
        false
    } else {
        let lo = span_lo(cx, x);
        let len = span_hi(cx, x) - lo;
        let step = circle_step(x, y, err);
        ||| (len != 0 && (in_span(w, h, lo, cy + y, len, i) || in_span(w, h, lo, cy - y, len, i)))
        ||| destroyed_covers(w, h, cx, cy, step.0, step.1, step.2, (fuel - 1) as nat, i)
    }
}

/// The destruction walk exactly: a cell ends empty when some emitted span
/// covers it, and keeps its old value otherwise.
pub proof fn lemma_destroyed_exact(
    v: LandscapeView,
    cx: int,
    cy: int,
    x: int,
    y: int,
    err: int,
    fuel: nat,
    i: int,
)
    requires
        v.grid_ok(),
        0 <= i < v.cells.len(),
    ensures
        destroyed_rec(v, cx, cy, x, y, err, fuel).0[i] == (if destroyed_covers(
            v.width,
            v.height,
            cx,
            cy,
            x,
            y,
            err,
            fuel,
            i,
        ) {
            0u8
        } else {
            v.cells[i]
        }),
    decreases fuel,
{
    if fuel == 0 || x >= 0 {
    } else {
        let step = circle_step(x, y, err);
        let lo = span_lo(cx, x);
        let len = span_hi(cx, x) - lo;
        if len == 0 {
            lemma_destroyed_exact(v, cx, cy, step.0, step.1, step.2, (fuel - 1) as nat, i);
        } else {
            let v1 = LandscapeView { cells: v.cleared_line(lo, cy + y, len), ..v };
            let v2 = LandscapeView { cells: v1.cleared_line(lo, cy - y, len), ..v1 };
            if v.span_ok(lo, cy + y, len) {
                lemma_span_range(v, lo, cy + y, len);
            }
            if v.span_ok(lo, cy - y, len) {
                lemma_span_range(v, lo, cy - y, len);
            }
            assert(v2.cells[i] == (if in_span(v.width, v.height, lo, cy + y, len, i) || in_span(
                v.width,
                v.height,
                lo,
                cy - y,
                len,
                i,
            ) {
                0u8
            } else {
                v.cells[i]
            }));
            lemma_destroyed_exact(v2, cx, cy, step.0, step.1, step.2, (fuel - 1) as nat, i);
        }
    }
}

/// The whole excavation exactly, from the walk's start state: inside the
/// walked spans everything ends empty, outside them nothing moves.
pub proof fn lemma_destroy_circle_exact(v: LandscapeView, cx: int, cy: int, radius: int, i: int)
    requires
        v.grid_ok(),
        0 <= i < v.cells.len(),
    ensures
        destroyed(v, cx, cy, radius).0[i] == (if destroyed_covers(
            v.width,
            v.height,
            cx,
            cy,
            circle_start_x(radius),
            0,
            circle_start_err(radius),
            circle_fuel(radius),
            i,
        ) {
            0u8
        } else {
            v.cells[i]
        }),
{
    lemma_destroyed_exact(
        v,
        cx,
        cy,
        circle_start_x(radius),
        0,
        circle_start_err(radius),
        circle_fuel(radius),
        i,
    );
}

/// Excavation round trip: running `destroy_circle`'s transformation twice
/// with the same circle yields the same buffer as running it once, and the
/// second run reports that nothing changed -- so a second `destroy_circle`
/// call leaves the dirty flag as it found it.
pub proof fn lemma_destroy_circle_idempotent(v: LandscapeView, cx: int, cy: int, radius: int)
    requires
        v.grid_ok(),
    ensures
        ({
            let first = destroyed(v, cx, cy, radius);
            let after = LandscapeView { cells: first.0, ..v };
            let second = destroyed(after, cx, cy, radius);
            second.0 == first.0 && second.1 == false
        }),
{
    let first = destroyed(v, cx, cy, radius);
    let after = LandscapeView { cells: first.0, ..v };
    lemma_destroyed_rec_idempotent(
        v,
        after,
        cx,
        cy,
        circle_start_x(radius),
        0,
        circle_start_err(radius),
        circle_fuel(radius),
    );
}

/// During subsidence, the solid cell at buffer row `r - 1`, column `c` can
/// drop into the empty cell directly below it (buffer rows grow downward
/// on screen, so row `r` is *below* row `r - 1`).
pub open spec fn droppable(cells: Seq<u8>, w: int, r: int, c: int) -> bool {
    cells[r * w + c] == 0 && cells[(r - 1) * w + c] != 0
}

/// One pass over the row pair `(r - 1, r)` restricted to columns
/// `[lo, hi)`: every droppable cell moves down one row.
pub open spec fn dropped_row(cells: Seq<u8>, w: int, r: int, lo: int, hi: int) -> Seq<u8> {
    Seq::new(
        cells.len(),
        |i: int|
            {
                let rr = i / w;
                let cc = i % w;
                if rr == r && lo <= cc < hi && droppable(cells, w, r, cc) {
                    cells[(r - 1) * w + cc]
                } else if rr == r - 1 && lo <= cc < hi && droppable(cells, w, r, cc) {
                    0u8
                } else {
                    cells[i]
                }
            },
    )
}

/// The partial state of a row pass that has processed columns `[lo, c)` of
/// its window `[lo, hi)` so far.
pub open spec fn dropped_row_upto(
    cells: Seq<u8>,
    w: int,
    r: int,
    lo: int,
    c: int,
    hi: int,
) -> Seq<u8> {
    Seq::new(
        cells.len(),
        |i: int|
            {
                let rr = i / w;
                let cc = i % w;
                if rr == r && lo <= cc < c && cc < hi && droppable(cells, w, r, cc) {
                    cells[(r - 1) * w + cc]
                } else if rr == r - 1 && lo <= cc < c && cc < hi && droppable(cells, w, r, cc) {
                    0u8
                } else {
                    cells[i]
                }
            },
    )
}

/// The pass over row pair `(r - 1, r)` moves something.
pub open spec fn row_any(cells: Seq<u8>, w: int, r: int, lo: int, hi: int) -> bool {
    exists|c: int| lo <= c < hi && droppable(cells, w, r, c)
}

/// Leftmost droppable column of the row pair, or `hi` if none.
pub open spec fn row_min_col(cells: Seq<u8>, w: int, r: int, lo: int, hi: int) -> int
    decreases hi - lo,
{
    if lo >= hi {
        hi
    } else if droppable(cells, w, r, lo) {
        lo
    } else {
        row_min_col(cells, w, r, lo + 1, hi)
    }
}

/// Rightmost droppable column of the row pair, or `lo - 1` if none.
pub open spec fn row_max_col(cells: Seq<u8>, w: int, r: int, lo: int, hi: int) -> int
    decreases hi - lo,
{
    if lo >= hi {
        lo - 1
    } else if droppable(cells, w, r, hi - 1) {
        hi - 1
    } else {
        row_max_col(cells, w, r, lo, hi - 1)
    }
}

/// Neutral value of the minimum accumulator: larger than any column.
pub open spec fn min_neutral() -> int {
    0x20000
}

/// One whole subsidence step: every row pair from the bottom of the bitmap
/// up, restricted to columns `[lo, hi)`.  Yields the new buffer, whether
/// anything moved, and the least and greatest moved column relative to
/// `lo` (with neutral values `min_neutral()` and `0`).
pub open spec fn step_rows(cells: Seq<u8>, w: int, lo: int, hi: int, r: int) -> (
    Seq<u8>,
    bool,
    int,
    int,
)
    decreases r,
{
    if r < 1 {
        (cells, false, min_neutral(), 0)
    } else {
        let moved = row_any(cells, w, r, lo, hi);
        let mn = if moved {
            row_min_col(cells, w, r, lo, hi) - lo
        } else {
            min_neutral()
        };
        let mx = if moved {
            row_max_col(cells, w, r, lo, hi) - lo
        } else {
            0
        };
        let c1 = dropped_row(cells, w, r, lo, hi);
        let rest = step_rows(c1, w, lo, hi, r - 1);
        (
            rest.0,
            moved || rest.1,
            if mn < rest.2 {
                mn
            } else {
                rest.2
            },
            if mx > rest.3 {
                mx
            } else {
                rest.3
            },
        )
    }
}

impl LandscapeView {
    /// Right edge of the active subsidence column window.
    pub open spec fn sub_hi(self) -> int {
        if self.sub_skip + self.sub_take < self.width {
            self.sub_skip + self.sub_take
        } else {
            self.width
        }
    }

    /// One subsidence step applied to this state: the row passes plus the
    /// shrinking of the column window from the least and greatest moved
    /// columns.  Also yields
    /// whether anything moved.
    pub open spec fn subside_step(self) -> (LandscapeView, bool) {
        let res = step_rows(self.cells, self.width, self.sub_skip, self.sub_hi(), self.height - 1);
        let left = if res.2 < self.sub_take {
            res.2
        } else {
            self.sub_take
        };
        (
            LandscapeView {
                cells: res.0,
                sub_skip: self.sub_skip + left,
                sub_take: res.3 + 1,
                ..self
            },
            res.1,
        )
    }
}

/// A run of up to `steps` subsidence steps, stopping early the moment a
/// step moves nothing.  Yields the final state, whether the run finished
/// (a step moved nothing), and whether any step moved something.
pub open spec fn subside_run(v: LandscapeView, steps: nat) -> (LandscapeView, bool, bool)
    decreases steps,
{
    if steps == 0 {
        (v, false, false)
    } else {
        let sr = v.subside_step();
        if !sr.1 {
            (LandscapeView { subsiding: false, ..sr.0 }, true, false)
        } else {
            let rest = subside_run(sr.0, (steps - 1) as nat);
            (rest.0, rest.1, true)
        }
    }
}

/// The whole effect of one `update` call that finds the drop distance at
/// `drop_pos`: nothing happens unless a run is in progress; otherwise the
/// distance delta gives the step budget, the dirty flag absorbs any
/// movement, and the result says whether the run completed.
pub open spec fn subside_update(v: LandscapeView, drop_pos: int) -> (LandscapeView, bool) {
    if !v.subsiding {
        (v, false)
    } else {
        let v0 = LandscapeView { sub_pos: drop_pos, ..v };
        let run = subside_run(v0, (drop_pos - v.sub_pos) as nat);
        (LandscapeView { changed: v.changed || run.2, ..run.0 }, run.1)
    }
}

/// The leftmost droppable column: its position, droppability, and the
/// emptiness of everything left of it.
pub proof fn lemma_row_min_props(cells: Seq<u8>, w: int, r: int, lo: int, hi: int)
    requires
        lo <= hi,
    ensures
        lo <= row_min_col(cells, w, r, lo, hi) <= hi,
        row_min_col(cells, w, r, lo, hi) < hi ==> droppable(
            cells,
            w,
            r,
            row_min_col(cells, w, r, lo, hi),
        ),
        forall|c: int| lo <= c < row_min_col(cells, w, r, lo, hi) ==> !droppable(cells, w, r, c),
        row_min_col(cells, w, r, lo, hi) < hi <==> row_any(cells, w, r, lo, hi),
    decreases hi - lo,
{
    if lo >= hi {
        if row_any(cells, w, r, lo, hi) {
            let c = choose|c: int| lo <= c < hi && droppable(cells, w, r, c);
            assert(false);
        }
    } else if droppable(cells, w, r, lo) {
        assert(row_any(cells, w, r, lo, hi));
    } else {
        lemma_row_min_props(cells, w, r, lo + 1, hi);
        if row_any(cells, w, r, lo, hi) {
            let c = choose|c: int| lo <= c < hi && droppable(cells, w, r, c);
            assert(lo + 1 <= c < hi);
            assert(row_any(cells, w, r, lo + 1, hi));
        }
        if row_any(cells, w, r, lo + 1, hi) {
            let c = choose|c: int| lo + 1 <= c < hi && droppable(cells, w, r, c);
            assert(lo <= c < hi);
            assert(row_any(cells, w, r, lo, hi));
        }
    }
}

/// The rightmost droppable column: its position, droppability, and the
/// emptiness of everything right of it.
pub proof fn lemma_row_max_props(cells: Seq<u8>, w: int, r: int, lo: int, hi: int)
    requires
        lo <= hi,
    ensures
        lo - 1 <= row_max_col(cells, w, r, lo, hi) <= hi - 1,
        row_max_col(cells, w, r, lo, hi) >= lo ==> droppable(
            cells,
            w,
            r,
            row_max_col(cells, w, r, lo, hi),
        ),
        forall|c: int| row_max_col(cells, w, r, lo, hi) < c < hi ==> !droppable(cells, w, r, c),
        row_max_col(cells, w, r, lo, hi) >= lo <==> row_any(cells, w, r, lo, hi),
    decreases hi - lo,
{
    if lo >= hi {
        if row_any(cells, w, r, lo, hi) {
            let c = choose|c: int| lo <= c < hi && droppable(cells, w, r, c);
            assert(false);
        }
    } else if droppable(cells, w, r, hi - 1) {
        assert(row_any(cells, w, r, lo, hi));
    } else {
        lemma_row_max_props(cells, w, r, lo, hi - 1);
        if row_any(cells, w, r, lo, hi) {
            let c = choose|c: int| lo <= c < hi && droppable(cells, w, r, c);
            assert(lo <= c < hi - 1);
            assert(row_any(cells, w, r, lo, hi - 1));
        }
        if row_any(cells, w, r, lo, hi - 1) {
            let c = choose|c: int| lo <= c < hi - 1 && droppable(cells, w, r, c);
            assert(lo <= c < hi);
            assert(row_any(cells, w, r, lo, hi));
        }
    }
}

/// Bounds of the accumulated minimum and maximum of a whole step: relative
/// columns stay within the window, and the neutral values appear exactly
/// when nothing moves.
pub proof fn lemma_step_rows_bounds(cells: Seq<u8>, w: int, lo: int, hi: int, r: int)
    requires
        lo <= hi,
    ensures
        ({
            let res = step_rows(cells, w, lo, hi, r);
            &&& res.1 ==> 0 <= res.2 < hi - lo && 0 <= res.3 < hi - lo
            &&& !res.1 ==> res.2 == min_neutral() && res.3 == 0
        }),
    decreases r,
{
    if r < 1 {
    } else {
        let c1 = dropped_row(cells, w, r, lo, hi);
        lemma_row_min_props(cells, w, r, lo, hi);
        lemma_row_max_props(cells, w, r, lo, hi);
        lemma_step_rows_bounds(c1, w, lo, hi, r - 1);
    }
}

/// No cell of `cells` is unsupported: every solid cell either sits on the
/// bottom row or has a solid cell directly below it.
pub open spec fn settled(cells: Seq<u8>, w: int, h: int) -> bool {
    forall|r: int, c: int|
        1 <= r < h && 0 <= c < w ==> !droppable(cells, w, r, c)
}

/// On a settled buffer, a whole subsidence step moves nothing and leaves
/// the buffer as it is.
pub proof fn lemma_step_rows_settled(cells: Seq<u8>, w: int, lo: int, hi: int, r: int, h: int)
    requires
        0 < w,
        0 <= lo,
        hi <= w,
        r < h,
        settled(cells, w, h),
    ensures
        step_rows(cells, w, lo, hi, r).0 == cells,
        step_rows(cells, w, lo, hi, r).1 == false,
    decreases r,
{
    if r < 1 {
    } else {
        assert(!row_any(cells, w, r, lo, hi)) by {
            if row_any(cells, w, r, lo, hi) {
                let c = choose|c: int| lo <= c < hi && droppable(cells, w, r, c);
                assert(!droppable(cells, w, r, c));
            }
        }
        assert(dropped_row(cells, w, r, lo, hi) =~= cells);
        lemma_step_rows_settled(cells, w, lo, hi, r - 1, h);
    }
}

/// Subsidence on settled terrain is a no-op that completes at once: the
/// very first `update` call that gains at least one drop step reports
/// completion, clears the in-progress marker, and leaves every cell as it
/// was.
pub proof fn lemma_settled_completes(v: LandscapeView, drop_pos: int)
    requires
        v.wf(),
        v.subsiding,
        v.sub_pos < drop_pos,
        settled(v.cells, v.width, v.height),
    ensures
        subside_update(v, drop_pos).1 == true,
        subside_update(v, drop_pos).0.cells == v.cells,
        subside_update(v, drop_pos).0.subsiding == false,
        subside_update(v, drop_pos).0.changed == v.changed,
{
    let v0 = LandscapeView { sub_pos: drop_pos, ..v };
    let steps = (drop_pos - v.sub_pos) as nat;
    assert(steps >= 1);
    lemma_step_rows_settled(v0.cells, v0.width, v0.sub_skip, v0.sub_hi(), v0.height - 1, v0.height);
    assert(!v0.subside_step().1);
}

/// Number of solid cells of the whole buffer.
pub open spec fn total_solid(cells: Seq<u8>) -> int {
    count_solid_range(cells, 0, cells.len() as int)
}

/// Overwriting one cell changes the count of a range by that cell's
/// contribution, and leaves disjoint ranges untouched.
pub proof fn lemma_count_solid_update(s: Seq<u8>, i: int, x: u8, lo: int, hi: int)
    requires
        0 <= lo,
        hi <= s.len(),
        0 <= i < s.len(),
    ensures
        lo <= i < hi ==> count_solid_range(s.update(i, x), lo, hi) == count_solid_range(s, lo, hi)
            - (if s[i] != 0 {
            1int
        } else {
            0int
        }) + (if x != 0 {
            1int
        } else {
            0int
        }),
        !(lo <= i < hi) ==> count_solid_range(s.update(i, x), lo, hi) == count_solid_range(
            s,
            lo,
            hi,
        ),
    decreases hi - lo,
{
    if lo < hi {
        lemma_count_solid_update(s, i, x, lo + 1, hi);
    }
}

/// A partial row pass preserves the total number of solid cells: each move
/// turns one empty cell solid and one solid cell empty.
pub proof fn lemma_dropped_row_upto_count(
    cells: Seq<u8>,
    w: int,
    r: int,
    lo: int,
    c: int,
    hi: int,
    h: int,
)
    requires
        0 < w,
        cells.len() == w * h,
        1 <= r < h,
        0 <= lo,
        hi <= w,
        lo <= c,
    ensures
        total_solid(dropped_row_upto(cells, w, r, lo, c, hi)) == total_solid(cells),
    decreases c - lo,
{
    let len = cells.len() as int;
    if c <= lo {
        assert(dropped_row_upto(cells, w, r, lo, c, hi) =~= cells);
    } else {
        lemma_dropped_row_upto_count(cells, w, r, lo, c - 1, hi, h);
        let prev = dropped_row_upto(cells, w, r, lo, c - 1, hi);
        if lo <= c - 1 < hi && droppable(cells, w, r, c - 1) {
            let idx_top = (r - 1) * w + (c - 1);
            let idx_cur = r * w + (c - 1);
            lemma_grid_index(r - 1, c - 1, w, h);
            lemma_grid_index(r, c - 1, w, h);
            vstd::arithmetic::mul::lemma_mul_is_commutative(w, h);
            vstd::arithmetic::div_mod::lemma_fundamental_div_mod_converse(
                idx_top,
                w,
                r - 1,
                c - 1,
            );
            vstd::arithmetic::div_mod::lemma_fundamental_div_mod_converse(idx_cur, w, r, c - 1);
            let mid = prev.update(idx_cur, cells[idx_top]);
            assert forall|i: int|
                0 <= i < len implies dropped_row_upto(cells, w, r, lo, c, hi)[i] == mid.update(
                idx_top,
                0u8,
            )[i] by {
                lemma_grid_decompose(i, w, h);
                let rr = i / w;
                let cc = i % w;
                assert(i == rr * w + cc);
            }
            assert(dropped_row_upto(cells, w, r, lo, c, hi) =~= mid.update(idx_top, 0u8));
            assert(prev[idx_cur] == cells[idx_cur]) by {
                lemma_grid_decompose(idx_cur, w, h);
            }
            assert(prev[idx_top] == cells[idx_top]) by {
                lemma_grid_decompose(idx_top, w, h);
            }
            lemma_count_solid_update(prev, idx_cur, cells[idx_top], 0, len);
            lemma_count_solid_update(mid, idx_top, 0u8, 0, len);
            assert(mid[idx_top] == prev[idx_top]);
        } else {
            assert(dropped_row_upto(cells, w, r, lo, c, hi) =~= prev);
        }
    }
}

/// A whole subsidence step preserves the total number of solid cells.
pub proof fn lemma_step_rows_count(cells: Seq<u8>, w: int, lo: int, hi: int, r: int, h: int)
    requires
        0 < w,
        cells.len() == w * h,
        0 <= lo <= hi,
        hi <= w,
        r < h,
    ensures
        total_solid(step_rows(cells, w, lo, hi, r).0) == total_solid(cells),
        step_rows(cells, w, lo, hi, r).0.len() == cells.len(),
    decreases r,
{
    if r < 1 {
    } else {
        let c1 = dropped_row(cells, w, r, lo, hi);
        assert(c1 =~= dropped_row_upto(cells, w, r, lo, hi, hi));
        lemma_dropped_row_upto_count(cells, w, r, lo, hi, hi, h);
        lemma_step_rows_count(c1, w, lo, hi, r - 1, h);
    }
}

/// A subsidence run preserves the total number of solid cells.
pub proof fn lemma_subside_run_count(v: LandscapeView, steps: nat)
    requires
        v.wf(),
        v.sub_skip < v.width,
    ensures
        total_solid(subside_run(v, steps).0.cells) == total_solid(v.cells),
        subside_run(v, steps).0.cells.len() == v.cells.len(),
        subside_run(v, steps).0.width == v.width,
        subside_run(v, steps).0.height == v.height,
        subside_run(v, steps).0.wf(),
    decreases steps,
{
    if steps == 0 {
    } else {
        lemma_step_rows_count(v.cells, v.width, v.sub_skip, v.sub_hi(), v.height - 1, v.height);
        lemma_step_rows_bounds(v.cells, v.width, v.sub_skip, v.sub_hi(), v.height - 1);
        let sr = v.subside_step();
        if sr.1 {
            lemma_subside_run_count(sr.0, (steps - 1) as nat);
        }
    }
}

/// Subsidence never creates or destroys terrain: however many drop steps
/// an `update` call processes, the total count of solid cells afterwards
/// equals the count before.
pub proof fn lemma_subsidence_preserves_solid(v: LandscapeView, drop_pos: int)
    requires
        v.wf(),
        0 <= drop_pos < 0x1_0000_0000,
        v.subsiding ==> v.sub_pos <= drop_pos,
    ensures
        total_solid(subside_update(v, drop_pos).0.cells) == total_solid(v.cells),
{
    if v.subsiding {
        let v0 = LandscapeView { sub_pos: drop_pos, ..v };
        lemma_subside_run_count(v0, (drop_pos - v.sub_pos) as nat);
    }
}

/// The weighted height of the terrain over the index range `[lo, hi)`:
/// each solid cell counts its screen height (buffer rows grow downward,
/// so cells of buffer row `r` sit at screen height `h - 1 - r`).
pub open spec fn height_sum_range(cells: Seq<u8>, w: int, h: int, lo: int, hi: int) -> int
    decreases hi - lo,
{
    if lo >= hi {
        0
    } else {
        (if cells[lo] != 0 {
            h - 1 - lo / w
        } else {
            0int
        }) + height_sum_range(cells, w, h, lo + 1, hi)
    }
}

/// The weighted height of the whole terrain.
pub open spec fn height_sum(cells: Seq<u8>, w: int, h: int) -> int {
    height_sum_range(cells, w, h, 0, cells.len() as int)
}

/// The weighted height is never negative.
pub proof fn lemma_height_sum_nonneg(cells: Seq<u8>, w: int, h: int, lo: int, hi: int)
    requires
        0 < w,
        cells.len() == w * h,
        0 <= lo,
        hi <= cells.len(),
    ensures
        height_sum_range(cells, w, h, lo, hi) >= 0,
    decreases hi - lo,
{
    if lo < hi {
        lemma_grid_decompose(lo, w, h);
        lemma_height_sum_nonneg(cells, w, h, lo + 1, hi);
    }
}

/// Overwriting one cell changes the weighted height of a range by that
/// cell's weighted contribution, and leaves disjoint ranges untouched.
pub proof fn lemma_height_sum_update(
    s: Seq<u8>,
    i: int,
    x: u8,
    w: int,
    h: int,
    lo: int,
    hi: int,
)
    requires
        0 <= lo,
        hi <= s.len(),
        0 <= i < s.len(),
    ensures
        lo <= i < hi ==> height_sum_range(s.update(i, x), w, h, lo, hi) == height_sum_range(
            s,
            w,
            h,
            lo,
            hi,
        ) - (if s[i] != 0 {
            h - 1 - i / w
        } else {
            0int
        }) + (if x != 0 {
            h - 1 - i / w
        } else {
            0int
        }),
        !(lo <= i < hi) ==> height_sum_range(s.update(i, x), w, h, lo, hi) == height_sum_range(
            s,
            w,
            h,
            lo,
            hi,
        ),
    decreases hi - lo,
{
    if lo < hi {
        lemma_height_sum_update(s, i, x, w, h, lo + 1, hi);
    }
}

/// How many columns of `[lo, hi)` can drop at row pair `(r - 1, r)`.
pub open spec fn droppable_count(cells: Seq<u8>, w: int, r: int, lo: int, hi: int) -> int
    decreases hi - lo,
{
    if lo >= hi {
        0
    } else {
        (if droppable(cells, w, r, lo) {
            1int
        } else {
            0int
        }) + droppable_count(cells, w, r, lo + 1, hi)
    }
}

/// A row pass moves something exactly when its droppable count is
/// positive (and that count is never negative).
pub proof fn lemma_droppable_count_any(cells: Seq<u8>, w: int, r: int, lo: int, hi: int)
    ensures
        droppable_count(cells, w, r, lo, hi) >= 0,
        row_any(cells, w, r, lo, hi) <==> droppable_count(cells, w, r, lo, hi) > 0,
    decreases hi - lo,
{
    if lo >= hi {
        if row_any(cells, w, r, lo, hi) {
            let c = choose|c: int| lo <= c < hi && droppable(cells, w, r, c);
            assert(false);
        }
    } else {
        lemma_droppable_count_any(cells, w, r, lo + 1, hi);
        if droppable(cells, w, r, lo) {
            assert(row_any(cells, w, r, lo, hi));
        } else {
            if row_any(cells, w, r, lo, hi) {
                let c = choose|c: int| lo <= c < hi && droppable(cells, w, r, c);
                assert(lo + 1 <= c < hi);
                assert(row_any(cells, w, r, lo + 1, hi));
            }
            if row_any(cells, w, r, lo + 1, hi) {
                let c = choose|c: int| lo + 1 <= c < hi && droppable(cells, w, r, c);
                assert(lo <= c < hi);
                assert(row_any(cells, w, r, lo, hi));
            }
        }
    }
}

/// Each move of a row pass drops one cell one row, so the pass lowers the
/// weighted height by exactly its droppable count.
pub proof fn lemma_dropped_row_upto_height(
    cells: Seq<u8>,
    w: int,
    r: int,
    lo: int,
    c: int,
    hi: int,
    h: int,
)
    requires
        0 < w,
        cells.len() == w * h,
        1 <= r < h,
        0 <= lo,
        hi <= w,
        lo <= c <= hi,
    ensures
        height_sum(dropped_row_upto(cells, w, r, lo, c, hi), w, h) == height_sum(cells, w, h)
            - droppable_count(cells, w, r, lo, c),
    decreases c - lo,
{
    let len = cells.len() as int;
    if c <= lo {
        assert(dropped_row_upto(cells, w, r, lo, c, hi) =~= cells);
    } else {
        lemma_dropped_row_upto_height(cells, w, r, lo, c - 1, hi, h);
        lemma_droppable_count_snoc(cells, w, r, lo, c - 1);
        let prev = dropped_row_upto(cells, w, r, lo, c - 1, hi);
        if droppable(cells, w, r, c - 1) {
            let idx_top = (r - 1) * w + (c - 1);
            let idx_cur = r * w + (c - 1);
            lemma_grid_index(r - 1, c - 1, w, h);
            lemma_grid_index(r, c - 1, w, h);
            vstd::arithmetic::mul::lemma_mul_is_commutative(w, h);
            vstd::arithmetic::div_mod::lemma_fundamental_div_mod_converse(
                idx_top,
                w,
                r - 1,
                c - 1,
            );
            vstd::arithmetic::div_mod::lemma_fundamental_div_mod_converse(idx_cur, w, r, c - 1);
            let mid = prev.update(idx_cur, cells[idx_top]);
            assert forall|i: int|
                0 <= i < len implies dropped_row_upto(cells, w, r, lo, c, hi)[i] == mid.update(
                idx_top,
                0u8,
            )[i] by {
                lemma_grid_decompose(i, w, h);
                let rr = i / w;
                let cc = i % w;
                assert(i == rr * w + cc);
            }
            assert(dropped_row_upto(cells, w, r, lo, c, hi) =~= mid.update(idx_top, 0u8));
            assert(prev[idx_cur] == cells[idx_cur]) by {
                lemma_grid_decompose(idx_cur, w, h);
            }
            assert(prev[idx_top] == cells[idx_top]) by {
                lemma_grid_decompose(idx_top, w, h);
            }
            lemma_height_sum_update(prev, idx_cur, cells[idx_top], w, h, 0, len);
            lemma_height_sum_update(mid, idx_top, 0u8, w, h, 0, len);
            assert(mid[idx_top] == prev[idx_top]);
        } else {
            assert(dropped_row_upto(cells, w, r, lo, c, hi) =~= prev);
        }
    }
}

/// Extending a droppable count by one column on the right adds that
/// column's contribution.
pub proof fn lemma_droppable_count_snoc(cells: Seq<u8>, w: int, r: int, lo: int, hi: int)
    requires
        lo <= hi,
    ensures
        droppable_count(cells, w, r, lo, hi + 1) == droppable_count(cells, w, r, lo, hi) + (
        if droppable(cells, w, r, hi) {
            1int
        } else {
            0int
        }),
    decreases hi - lo,
{
    if lo < hi {
        lemma_droppable_count_snoc(cells, w, r, lo + 1, hi);
    } else {
        assert(droppable_count(cells, w, r, lo, hi) == 0);
        assert(droppable_count(cells, w, r, lo + 1, hi + 1) == 0);
    }
}

/// A whole subsidence step never raises the weighted height, and lowers
/// it strictly whenever it moves anything.
pub proof fn lemma_step_rows_height(cells: Seq<u8>, w: int, lo: int, hi: int, r: int, h: int)
    requires
        0 < w,
        cells.len() == w * h,
        0 <= lo <= hi,
        hi <= w,
        r < h,
    ensures
        height_sum(step_rows(cells, w, lo, hi, r).0, w, h) <= height_sum(cells, w, h),
        step_rows(cells, w, lo, hi, r).1 ==> height_sum(step_rows(cells, w, lo, hi, r).0, w, h)
            < height_sum(cells, w, h),
    decreases r,
{
    if r < 1 {
    } else {
        let c1 = dropped_row(cells, w, r, lo, hi);
        assert(c1 =~= dropped_row_upto(cells, w, r, lo, hi, hi));
        lemma_dropped_row_upto_height(cells, w, r, lo, hi, hi, h);
        lemma_droppable_count_any(cells, w, r, lo, hi);
        lemma_step_rows_height(c1, w, lo, hi, r - 1, h);
    }
}

/// Subsidence makes progress: a step of the collapse either moves nothing
/// (and the run then reports completion) or strictly lowers the weighted
/// height of the terrain, a nonnegative measure -- so the collapse
/// completes after finitely many moving steps.
pub proof fn lemma_subsidence_progress(v: LandscapeView)
    requires
        v.wf(),
        v.sub_skip < v.width,
    ensures
        height_sum(v.cells, v.width, v.height) >= 0,
        height_sum(v.subside_step().0.cells, v.width, v.height) <= height_sum(
            v.cells,
            v.width,
            v.height,
        ),
        v.subside_step().1 ==> height_sum(v.subside_step().0.cells, v.width, v.height)
            < height_sum(v.cells, v.width, v.height),
{
    lemma_height_sum_nonneg(v.cells, v.width, v.height, 0, v.cells.len() as int);
    lemma_step_rows_height(v.cells, v.width, v.sub_skip, v.sub_hi(), v.height - 1, v.height);
}

/// Decomposition of a buffer index into its row and column.
pub proof fn lemma_grid_decompose(i: int, w: int, h: int)
    requires
        0 < w,
        0 <= i < w * h,
    ensures
        0 <= i / w < h,
        0 <= i % w < w,
        i == (i / w) * w + i % w,
{
    vstd::arithmetic::div_mod::lemma_fundamental_div_mod(i, w);
    vstd::arithmetic::div_mod::lemma_mod_pos_bound(i, w);
    vstd::arithmetic::div_mod::lemma_div_pos_is_pos(i, w);
    assert(i / w < h) by (nonlinear_arith)
        requires
            0 < w,
            i < w * h,
            i == w * (i / w) + i % w,
            0 <= i % w,
    ;
    assert(i == (i / w) * w + i % w) by (nonlinear_arith)
        requires
            i == w * (i / w) + i % w,
    ;
}

/// A row-major index formed from a row and column in range is itself in
/// range of the buffer.
pub proof fn lemma_grid_index(r: int, c: int, w: int, h: int)
    by (nonlinear_arith)
    requires
        0 <= r < h,
        0 <= c < w,
    ensures
        0 <= r * w + c < h * w,
{
}

impl Landscape {
    /// Builds an empty landscape of the given size.
    ///
    /// The buffer starts all empty; `generate` fills it from a column height
    /// profile.  Fails exactly when either dimension is zero.
    pub fn new(width: u16, height: u16, seed: u32) -> (r: Result<Landscape, LandscapeError>)
        ensures
            r is Err <==> (width == 0 || height == 0),
            r is Ok ==> {
                let v = r->Ok_0@;
                &&& v.wf()
                &&& v.width == width
                &&& v.height == height
                &&& v.seed == seed
                &&& v.cells =~= Seq::new((width * height) as nat, |i: int| 0u8)
                &&& v.changed == true
                &&& v.subsiding == false
                &&& v.sub_pos == 0
                &&& v.sub_skip == 0
                &&& v.sub_take == width
            },
    {
        if width == 0 || height == 0 {
            return Err(LandscapeError::ZeroDimension);
        }
        proof {
            assert(width * height <= 0xffff * 0xffff) by (nonlinear_arith)
                requires
                    width <= 0xffff,
                    height <= 0xffff,
            ;
        }
        let size: usize = (width as usize) * (height as usize);
        let mut buffer: Vec<u8> = Vec::new();
        let mut i: usize = 0;
        while i < size
            invariant
                i <= size,
                buffer@.len() == i,
                forall|j: int| 0 <= j < i ==> buffer@[j] == 0u8,
            decreases size - i,
        {
            buffer.push(0u8);
            i = i + 1;
        }
        let landscape = Landscape {
            width,
            height,
            buffer,
            seed,
            changed: true,
            subsidence_active: false,
            subsidence_last_pos: 0,
            subsidence_skip: 0,
            subsidence_take: width as usize,
        };
        proof {
            assert(landscape@.cells =~= Seq::new((width * height) as nat, |i: int| 0u8));
        }
        Ok(landscape)
    }

    /// Width and height in pixels.
    pub fn size(&self) -> (r: (u16, u16))
        ensures
            r.0 == self@.width,
            r.1 == self@.height,
    {
        (self.width, self.height)
    }

    /// The seed last stored for the procedural generator.
    pub fn seed(&self) -> (r: u32)
        ensures
            r == self@.seed,
    {
        self.seed
    }

    /// Stores a new generator seed; the bitmap itself is untouched until
    /// `generate` is called again.
    pub fn set_seed(&mut self, seed: u32)
        ensures
            final(self)@ == (LandscapeView { seed, ..old(self)@ }),
    {
        self.seed = seed;
    }

    /// The dirty flag: true while the buffer differs from what the texture
    /// sync collaborator last copied out.
    pub fn changed(&self) -> (r: bool)
        ensures
            r == self@.changed,
    {
        self.changed
    }

    /// Raises the dirty flag.
    pub fn set_changed(&mut self)
        ensures
            final(self)@ == (LandscapeView { changed: true, ..old(self)@ }),
    {
        self.changed = true;
    }

    /// Clears the dirty flag after the buffer has been copied out.
    pub fn clear_changed(&mut self)
        ensures
            final(self)@ == (LandscapeView { changed: false, ..old(self)@ }),
    {
        self.changed = false;
    }

    /// Buffer index of buffer row `row` (top-down) and column `col`.
    fn index_at(&self, row: usize, col: usize) -> (i: usize)
        requires
            self@.wf(),
            row < self@.height,
            col < self@.width,
        ensures
            i == row * self@.width + col,
            i < self@.cells.len(),
    {
        proof {
            lemma_grid_index(row as int, col as int, self@.width, self@.height);
            assert(self@.height * self@.width <= 0xffff * 0xffff) by (nonlinear_arith)
                requires
                    0 < self@.height <= 0xffff,
                    0 < self@.width <= 0xffff,
            ;
            vstd::arithmetic::mul::lemma_mul_is_commutative(self@.width, self@.height);
        }
        row * (self.width as usize) + col
    }

    /// Rewrites the whole bitmap from a column height profile.
    ///
    /// `heights[x]`, clamped to the bitmap height, is the number of empty
    /// cells at the top of column `x`; everything below them is solid.  The
    /// dirty flag is not touched: callers that want a texture sync raise
    /// it themselves.
    pub fn generate(&mut self, heights: &[u16])
        requires
            old(self)@.wf(),
            heights@.len() == old(self)@.width,
        ensures
            final(self)@ == (LandscapeView {
                cells: generated_cells(old(self)@.width, old(self)@.height, heights@),
                ..old(self)@
            }),
            final(self)@.wf(),
    {
        let ghost target = generated_cells(old(self)@.width, old(self)@.height, heights@);
        let width: usize = self.width as usize;
        let height: usize = self.height as usize;
        let mut row: usize = 0;
        while row < height
            invariant
                old(self)@.wf(),
                width == old(self)@.width,
                height == old(self)@.height,
                heights@.len() == width as int,
                row <= height,
                self.width == old(self).width,
                self.height == old(self).height,
                self.seed == old(self).seed,
                self.changed == old(self).changed,
                self.subsidence_active == old(self).subsidence_active,
                self.subsidence_last_pos == old(self).subsidence_last_pos,
                self.subsidence_skip == old(self).subsidence_skip,
                self.subsidence_take == old(self).subsidence_take,
                self.buffer@.len() == old(self)@.cells.len(),
                target == generated_cells(old(self)@.width, old(self)@.height, heights@),
                forall|i: int|
                    0 <= i < row * width as int ==> self.buffer@[i] == target[i],
            decreases height - row,
        {
            let mut col: usize = 0;
            while col < width
                invariant
                    old(self)@.wf(),
                    width == old(self)@.width,
                    height == old(self)@.height,
                    heights@.len() == width as int,
                    row < height,
                    col <= width,
                    self.width == old(self).width,
                    self.height == old(self).height,
                    self.seed == old(self).seed,
                    self.changed == old(self).changed,
                    self.subsidence_active == old(self).subsidence_active,
                    self.subsidence_last_pos == old(self).subsidence_last_pos,
                    self.subsidence_skip == old(self).subsidence_skip,
                    self.subsidence_take == old(self).subsidence_take,
                    self.buffer@.len() == old(self)@.cells.len(),
                    target == generated_cells(old(self)@.width, old(self)@.height, heights@),
                    forall|i: int|
                        0 <= i < row * width as int + col ==> self.buffer@[i] == target[i],
                decreases width - col,
            {
                let limit: u16 = heights[col];
                let clamped: u16 = if limit > self.height {
                    self.height
                } else {
                    limit
                };
                let value: u8 = if row < clamped as usize {
                    0u8
                } else {
                    1u8
                };
                let index: usize = self.index_at(row, col);
                self.buffer[index] = value;
                proof {
                    vstd::arithmetic::div_mod::lemma_fundamental_div_mod_converse(
                        index as int,
                        width as int,
                        row as int,
                        col as int,
                    );
                    assert(self.buffer@[index as int] == target[index as int]);
                    assert(forall|i: int|
                        0 <= i < row * width as int + col + 1 ==> self.buffer@[i] == target[i]);
                }
                col = col + 1;
            }
            proof {
                assert((row + 1) * width as int == row * width as int + width as int)
                    by (nonlinear_arith)
                ;
            }
            row = row + 1;
        }
        proof {
            let ghost len = self.buffer@.len() as int;
            assert(height * width as int <= len) by (nonlinear_arith)
                requires
                    len == width as int * height as int,
            ;
            assert(self.buffer@ =~= target);
        }
    }

    /// Start index and clipped length of the row span at `point`, or `None`
    /// under the soft-fail rule (start out of bounds or zero
    /// length).
    fn line_span(&self, point: (i32, i32), length: u16) -> (r: Option<(usize, usize)>)
        requires
            self@.wf(),
        ensures
            r is None <==> !self@.span_ok(point.0 as int, point.1 as int, length as int),
            (r matches Some(p) ==> {
                &&& p.0 == self@.index_of(point.0 as int, point.1 as int)
                &&& p.1 == self@.span_clip(point.0 as int, length as int)
                &&& p.0 + p.1 <= self@.cells.len()
                &&& p.0 + p.1 <= usize::MAX
                &&& p.1 >= 1
            }),
    {
        let (x, y) = point;
        if x < 0 || y < 0 || x >= self.width as i32 || y >= self.height as i32 || length == 0 {
            return None;
        }
        let row: usize = (self.height as i32 - 1 - y) as usize;
        let col: usize = x as usize;
        let start: usize = self.index_at(row, col);
        let rest: usize = (self.width as usize) - col;
        let clip: usize = if rest < length as usize {
            rest
        } else {
            length as usize
        };
        proof {
            let ghost w = self@.width;
            let ghost h = self@.height;
            let ghost rr = row as int;
            assert(rr * w + w <= h * w) by (nonlinear_arith)
                requires
                    0 <= rr,
                    rr < h,
                    w >= 0,
            ;
            vstd::arithmetic::mul::lemma_mul_is_commutative(self@.width, self@.height);
        }
        let total: usize = self.buffer.len();
        proof {
            assert(start + clip <= total);
        }
        Some((start, clip))
    }

    /// Copy of the clipped row span of up to `length` cells starting at
    /// `point`, or `None` when the start is out of bounds or the length is
    /// zero.  The span never wraps to the next row.
    pub fn get_pixels_line(&self, point: (i32, i32), length: u16) -> (r: Option<Vec<u8>>)
        requires
            self@.wf(),
        ensures
            r is None <==> !self@.span_ok(point.0 as int, point.1 as int, length as int),
            (r matches Some(v) ==> v@ == self@.cells.subrange(
                self@.index_of(point.0 as int, point.1 as int),
                self@.index_of(point.0 as int, point.1 as int) + self@.span_clip(
                    point.0 as int,
                    length as int,
                ),
            )),
    {
        match self.line_span(point, length) {
            None => None,
            Some((start, clip)) => {
                let mut v: Vec<u8> = Vec::new();
                let mut i: usize = 0;
                while i < clip
                    invariant
                        i <= clip,
                        start + clip <= self@.cells.len(),
                        start + clip <= usize::MAX,
                        v@.len() == i,
                        forall|j: int| 0 <= j < i ==> v@[j] == self@.cells[start + j],
                    decreases clip - i,
                {
                    v.push(self.buffer[start + i]);
                    i = i + 1;
                }
                proof {
                    assert(v@ =~= self@.cells.subrange(start as int, start as int + clip as int));
                }
                Some(v)
            },
        }
    }

    /// Clears the clipped row span of up to `length` cells starting at
    /// `point` and reports how many cells were solid before.  An
    /// out-of-range or empty request clears nothing and reports zero.  The
    /// dirty flag is left to the caller.
    pub fn clear_pixels_line(&mut self, point: (i32, i32), length: u16) -> (n: u32)
        requires
            old(self)@.wf(),
        ensures
            final(self)@ == (LandscapeView {
                cells: old(self)@.cleared_line(point.0 as int, point.1 as int, length as int),
                ..old(self)@
            }),
            n == old(self)@.line_solid_count(point.0 as int, point.1 as int, length as int),
            final(self)@.wf(),
    {
        match self.line_span(point, length) {
            None => {
                proof {
                    assert(final(self)@ =~= (LandscapeView {
                        cells: old(self)@.cleared_line(
                            point.0 as int,
                            point.1 as int,
                            length as int,
                        ),
                        ..old(self)@
                    }));
                }
                0
            },
            Some((start, clip)) => {
                let mut n: u32 = 0;
                let mut i: usize = 0;
                while i < clip
                    invariant
                        old(self)@.wf(),
                        i <= clip,
                        clip <= old(self)@.width,
                        start + clip <= old(self)@.cells.len(),
                        start + clip <= usize::MAX,
                        self.width == old(self).width,
                        self.height == old(self).height,
                        self.seed == old(self).seed,
                        self.changed == old(self).changed,
                        self.subsidence_active == old(self).subsidence_active,
                        self.subsidence_last_pos == old(self).subsidence_last_pos,
                        self.subsidence_skip == old(self).subsidence_skip,
                        self.subsidence_take == old(self).subsidence_take,
                        self.buffer@.len() == old(self)@.cells.len(),
                        n <= i,
                        n == count_solid_range(old(self)@.cells, start as int, start as int + i),
                        forall|j: int|
                            start <= j < start + i ==> self.buffer@[j] == 0u8,
                        forall|j: int|
                            0 <= j < self.buffer@.len() && !(start <= j < start + i)
                                ==> self.buffer@[j] == old(self)@.cells[j],
                    decreases clip - i,
                {
                    let index: usize = start + i;
                    proof {
                        lemma_count_solid_snoc(old(self)@.cells, start as int, start as int + i);
                    }
                    if self.buffer[index] != 0 {
                        n = n + 1;
                    }
                    self.buffer[index] = 0u8;
                    i = i + 1;
                }
                proof {
                    assert(self.buffer@ =~= old(self)@.cleared_line(
                        point.0 as int,
                        point.1 as int,
                        length as int,
                    ));
                }
                n
            },
        }
    }

    /// How many of the up-to-`length` cells starting at `point` are empty,
    /// or `None` when the start is out of bounds or the length is zero.
    pub fn count_empty_pixels_line(&self, point: (i32, i32), length: u16) -> (r: Option<u32>)
        requires
            self@.wf(),
        ensures
            r is None <==> !self@.span_ok(point.0 as int, point.1 as int, length as int),
            (r matches Some(c) ==> c == self@.span_clip(point.0 as int, length as int)
                - self@.line_solid_count(point.0 as int, point.1 as int, length as int)),
    {
        match self.line_span(point, length) {
            None => None,
            Some((start, clip)) => {
                let mut n: u32 = 0;
                let mut i: usize = 0;
                while i < clip
                    invariant
                        self@.wf(),
                        i <= clip,
                        clip <= self@.width,
                        start + clip <= self@.cells.len(),
                        start + clip <= usize::MAX,
                        n <= i,
                        i - n == count_solid_range(self@.cells, start as int, start as int + i),
                    decreases clip - i,
                {
                    proof {
                        lemma_count_solid_snoc(self@.cells, start as int, start as int + i);
                    }
                    if self.buffer[start + i] == 0 {
                        n = n + 1;
                    }
                    i = i + 1;
                }
                Some(n)
            },
        }
    }

    /// One subsidence pass over the row pair `(r - 1, r)` within columns
    /// `[lo, hi)`: every solid cell with an empty cell directly below moves
    /// down one row.  Reports whether anything moved and, if so, the least
    /// and greatest moved column.
    #[verifier::rlimit(100)]
    fn subside_one_row(&mut self, r: usize, lo: usize, hi: usize) -> (res: (bool, usize, usize))
        requires
            old(self)@.wf(),
            1 <= r < old(self)@.height,
            hi <= old(self)@.width,
            lo <= hi,
        ensures
            final(self)@ == (LandscapeView {
                cells: dropped_row(
                    old(self)@.cells,
                    old(self)@.width,
                    r as int,
                    lo as int,
                    hi as int,
                ),
                ..old(self)@
            }),
            res.0 == row_any(old(self)@.cells, old(self)@.width, r as int, lo as int, hi as int),
            res.0 ==> {
                &&& res.1 == row_min_col(
                    old(self)@.cells,
                    old(self)@.width,
                    r as int,
                    lo as int,
                    hi as int,
                )
                &&& res.2 == row_max_col(
                    old(self)@.cells,
                    old(self)@.width,
                    r as int,
                    lo as int,
                    hi as int,
                )
                &&& lo <= res.1 <= res.2 < hi
            },
            final(self)@.wf(),
    {
        let ghost pre = old(self)@.cells;
        let ghost w_int = old(self)@.width;
        let ghost r_int = r as int;
        let w: usize = self.width as usize;
        let mut c: usize = lo;
        let mut found: bool = false;
        let mut mn: usize = 0;
        let mut mx: usize = 0;
        while c < hi
            invariant
                old(self)@.wf(),
                pre == old(self)@.cells,
                w_int == old(self)@.width,
                r_int == r as int,
                1 <= r < old(self)@.height,
                w == old(self)@.width,
                hi <= w,
                lo <= c <= hi,
                self.width == old(self).width,
                self.height == old(self).height,
                self.seed == old(self).seed,
                self.changed == old(self).changed,
                self.subsidence_active == old(self).subsidence_active,
                self.subsidence_last_pos == old(self).subsidence_last_pos,
                self.subsidence_skip == old(self).subsidence_skip,
                self.subsidence_take == old(self).subsidence_take,
                self.buffer@.len() == pre.len(),
                self.buffer@ == dropped_row_upto(pre, w_int, r_int, lo as int, c as int, hi as int),
                found == row_any(pre, w_int, r_int, lo as int, c as int),
                found ==> lo <= mn <= mx < c,
                found ==> droppable(pre, w_int, r_int, mn as int) && droppable(
                    pre,
                    w_int,
                    r_int,
                    mx as int,
                ),
                found ==> (forall|cc: int|
                    lo <= cc < mn ==> !droppable(pre, w_int, r_int, cc)),
                found ==> (forall|cc: int|
                    mx < cc < c ==> !droppable(pre, w_int, r_int, cc)),
                !found ==> (forall|cc: int|
                    lo <= cc < c ==> !droppable(pre, w_int, r_int, cc)),
            decreases hi - c,
        {
            let idx_cur: usize = self.index_at(r, c);
            let idx_top: usize = self.index_at(r - 1, c);
            proof {
                vstd::arithmetic::div_mod::lemma_fundamental_div_mod_converse(
                    idx_cur as int,
                    w_int,
                    r_int,
                    c as int,
                );
                vstd::arithmetic::div_mod::lemma_fundamental_div_mod_converse(
                    idx_top as int,
                    w_int,
                    r_int - 1,
                    c as int,
                );
                assert(self.buffer@[idx_cur as int] == pre[idx_cur as int]);
                assert(self.buffer@[idx_top as int] == pre[idx_top as int]);
                vstd::arithmetic::mul::lemma_mul_is_commutative(w_int, old(self)@.height);
            }
            let cur: u8 = self.buffer[idx_cur];
            let top: u8 = self.buffer[idx_top];
            if cur == 0 && top != 0 {
                self.buffer[idx_cur] = top;
                self.buffer[idx_top] = 0u8;
                if !found {
                    found = true;
                    mn = c;
                }
                mx = c;
                proof {
                    assert(droppable(pre, w_int, r_int, c as int));
                    assert(row_any(pre, w_int, r_int, lo as int, c as int + 1));
                }
            } else {
                proof {
                    assert(!droppable(pre, w_int, r_int, c as int));
                    if row_any(pre, w_int, r_int, lo as int, c as int + 1) && !row_any(
                        pre,
                        w_int,
                        r_int,
                        lo as int,
                        c as int,
                    ) {
                        let cc = choose|cc: int|
                            lo <= cc < c as int + 1 && droppable(pre, w_int, r_int, cc);
                        assert(cc == c as int);
                        assert(false);
                    }
                }
            }
            proof {
                let upto_next = dropped_row_upto(
                    pre,
                    w_int,
                    r_int,
                    lo as int,
                    c as int + 1,
                    hi as int,
                );
                assert forall|i: int| 0 <= i < self.buffer@.len() implies self.buffer@[i]
                    == upto_next[i] by {
                    lemma_grid_decompose(i, w_int, old(self)@.height);
                    let rr = i / w_int;
                    let cc = i % w_int;
                    assert(i == rr * w_int + cc);
                }
                assert(self.buffer@ =~= upto_next);
            }
            c = c + 1;
        }
        proof {
            lemma_row_min_props(pre, w_int, r_int, lo as int, hi as int);
            lemma_row_max_props(pre, w_int, r_int, lo as int, hi as int);
            if !found && row_any(pre, w_int, r_int, lo as int, hi as int) {
                assert(false);
            }
            if found {
                let m = row_min_col(pre, w_int, r_int, lo as int, hi as int);
                assert(mn as int == m) by {
                    if (mn as int) < m {
                        assert(!droppable(pre, w_int, r_int, mn as int));
                    }
                    if m < (mn as int) {
                        assert(!droppable(pre, w_int, r_int, m));
                    }
                }
                let mm = row_max_col(pre, w_int, r_int, lo as int, hi as int);
                assert(mx as int == mm) by {
                    if (mx as int) < mm {
                        assert(!droppable(pre, w_int, r_int, mm));
                    }
                    if mm < (mx as int) {
                        assert(!droppable(pre, w_int, r_int, mx as int));
                    }
                }
            }
            assert(self.buffer@ =~= dropped_row(pre, w_int, r_int, lo as int, hi as int));
        }
        (found, mn, mx)
    }

    /// One whole subsidence step: a pass over every row pair from the
    /// bottom of the bitmap up, restricted to the active column window,
    /// then the shrinking of the window around what actually moved.  When
    /// nothing moved the run is over and the in-progress marker is
    /// cleared.
    fn subside_one_step(&mut self) -> (moved: bool)
        requires
            old(self)@.wf(),
            old(self)@.subsiding,
        ensures
            moved == old(self)@.subside_step().1,
            moved ==> final(self)@ == old(self)@.subside_step().0,
            !moved ==> final(self)@ == (LandscapeView {
                subsiding: false,
                ..old(self)@.subside_step().0
            }),
            final(self)@.wf(),
            final(self)@.subsiding == moved,
    {
        let ghost pre = old(self)@;
        let w: usize = self.width as usize;
        let h: usize = self.height as usize;
        let lo: usize = self.subsidence_skip;
        let take0: usize = self.subsidence_take;
        let hi: usize = if lo + take0 < w {
            lo + take0
        } else {
            w
        };
        let mut left: usize = take0;
        let mut right: usize = 0;
        let mut moved_any: bool = false;
        let mut r: usize = h - 1;
        proof {
            assert(hi as int == pre.sub_hi());
            lemma_step_rows_bounds(pre.cells, pre.width, lo as int, hi as int, r as int);
        }
        while r >= 1
            invariant
                pre.wf(),
                pre.subsiding,
                pre == old(self)@,
                w == pre.width,
                h == pre.height,
                lo == pre.sub_skip,
                take0 == pre.sub_take,
                hi as int == pre.sub_hi(),
                lo <= hi <= w,
                0 <= r <= h - 1,
                self.width == old(self).width,
                self.height == old(self).height,
                self.seed == old(self).seed,
                self.changed == old(self).changed,
                self.subsidence_active == old(self).subsidence_active,
                self.subsidence_last_pos == old(self).subsidence_last_pos,
                self.subsidence_skip == old(self).subsidence_skip,
                self.subsidence_take == old(self).subsidence_take,
                self@.wf(),
                left <= take0,
                right < hi - lo || right == 0,
                step_rows(pre.cells, pre.width, lo as int, hi as int, (h - 1) as int).0
                    == step_rows(self@.cells, pre.width, lo as int, hi as int, r as int).0,
                step_rows(pre.cells, pre.width, lo as int, hi as int, (h - 1) as int).1 == (
                moved_any || step_rows(self@.cells, pre.width, lo as int, hi as int, r as int).1),
                ({
                    let full = step_rows(pre.cells, pre.width, lo as int, hi as int, (h - 1) as int);
                    let rest = step_rows(self@.cells, pre.width, lo as int, hi as int, r as int);
                    let fl = if full.2 < take0 as int {
                        full.2
                    } else {
                        take0 as int
                    };
                    let rl = if rest.2 < left as int {
                        rest.2
                    } else {
                        left as int
                    };
                    fl == rl
                }),
                ({
                    let full = step_rows(pre.cells, pre.width, lo as int, hi as int, (h - 1) as int);
                    let rest = step_rows(self@.cells, pre.width, lo as int, hi as int, r as int);
                    let rr = if rest.3 > right as int {
                        rest.3
                    } else {
                        right as int
                    };
                    full.3 == rr
                }),
            decreases r,
        {
            let ghost cur = self@.cells;
            let ghost rest_pre = step_rows(cur, pre.width, lo as int, hi as int, r as int);
            proof {
                lemma_step_rows_bounds(cur, pre.width, lo as int, hi as int, r as int);
                lemma_step_rows_bounds(
                    dropped_row(cur, pre.width, r as int, lo as int, hi as int),
                    pre.width,
                    lo as int,
                    hi as int,
                    r as int - 1,
                );
            }
            let (found, mn, mx) = self.subside_one_row(r, lo, hi);
            if found {
                moved_any = true;
                let rel_mn: usize = mn - lo;
                let rel_mx: usize = mx - lo;
                if rel_mn < left {
                    left = rel_mn;
                }
                if rel_mx > right {
                    right = rel_mx;
                }
            }
            r = r - 1;
        }
        proof {
            assert(step_rows(self@.cells, pre.width, lo as int, hi as int, 0).0 == self@.cells);
        }
        self.subsidence_skip = self.subsidence_skip + left;
        self.subsidence_take = right + 1;
        if !moved_any {
            self.subsidence_active = false;
        }
        proof {
            lemma_step_rows_bounds(pre.cells, pre.width, lo as int, hi as int, (h - 1) as int);
            if moved_any {
                assert(self@ =~= pre.subside_step().0);
            } else {
                assert(self@ =~= (LandscapeView { subsiding: false, ..pre.subside_step().0 }));
            }
        }
        moved_any
    }

    /// (Re)starts the gravity-collapse process: the drop-distance counter
    /// and the active column window are reset to cover the whole bitmap.
    pub fn subsidence(&mut self)
        requires
            old(self)@.wf(),
        ensures
            final(self)@ == (LandscapeView {
                subsiding: true,
                sub_pos: 0,
                sub_skip: 0,
                sub_take: old(self)@.width,
                ..old(self)@
            }),
            final(self)@.wf(),
    {
        self.subsidence_active = true;
        self.subsidence_last_pos = 0;
        self.subsidence_skip = 0;
        self.subsidence_take = self.width as usize;
    }

    /// True while a collapse is in progress.
    pub fn is_subsidence(&self) -> (r: bool)
        ensures
            r == self@.subsiding,
    {
        self.subsidence_active
    }

    /// Advances the collapse to the given total drop distance, processing
    /// one discrete step per distance unit gained since the last call.
    /// Returns `true` exactly when the collapse completed during this
    /// call: some step moved nothing, so no further movement is possible
    /// at this window.  The caller derives `drop_pos` from the elapsed
    /// wall time by free-fall kinematics; it never decreases within a run.
    pub fn update(&mut self, drop_pos: u32) -> (finished: bool)
        requires
            old(self)@.wf(),
            old(self)@.subsiding ==> old(self)@.sub_pos <= drop_pos as int,
        ensures
            final(self)@ == subside_update(old(self)@, drop_pos as int).0,
            finished == subside_update(old(self)@, drop_pos as int).1,
            final(self)@.wf(),
    {
        if !self.subsidence_active {
            return false;
        }
        let ghost v0 = LandscapeView { sub_pos: drop_pos as int, ..old(self)@ };
        let delta: u32 = drop_pos - self.subsidence_last_pos;
        self.subsidence_last_pos = drop_pos;
        let mut k: u32 = 0;
        let mut moved_acc: bool = false;
        while k < delta
            invariant
                old(self)@.wf(),
                old(self)@.subsiding,
                v0 == (LandscapeView { sub_pos: drop_pos as int, ..old(self)@ }),
                delta as int == drop_pos as int - old(self)@.sub_pos,
                k <= delta,
                self@.wf(),
                self@.subsiding,
                self@.sub_pos == drop_pos as int,
                self@.width == old(self)@.width,
                self@.height == old(self)@.height,
                self@.seed == old(self)@.seed,
                self@.changed == old(self)@.changed,
                subside_run(v0, delta as nat).0 == subside_run(self@, (delta - k) as nat).0,
                subside_run(v0, delta as nat).1 == subside_run(self@, (delta - k) as nat).1,
                subside_run(v0, delta as nat).2 == (moved_acc || subside_run(
                    self@,
                    (delta - k) as nat,
                ).2),
            decreases delta - k,
        {
            let ghost before = self@;
            let moved: bool = self.subside_one_step();
            if !moved {
                proof {
                    let steps = (delta - k) as nat;
                    let sr = before.subside_step();
                    assert(subside_run(before, steps).0 == (LandscapeView {
                        subsiding: false,
                        ..sr.0
                    }));
                    assert(subside_run(before, steps).1 == true);
                    assert(subside_run(before, steps).2 == false);
                    assert(self@ == subside_run(before, steps).0);
                }
                let ghost s1 = self@;
                if moved_acc {
                    self.changed = true;
                }
                proof {
                    assert(subside_run(v0, delta as nat).0 == s1);
                    assert(self@ =~= subside_update(old(self)@, drop_pos as int).0);
                }
                return true;
            }
            moved_acc = true;
            k = k + 1;
        }
        let ghost s1 = self@;
        if moved_acc {
            self.changed = true;
        }
        proof {
            assert(subside_run(s1, 0).0 == s1);
            assert(subside_run(v0, delta as nat).0 == s1);
            assert(self@ =~= subside_update(old(self)@, drop_pos as int).0);
        }
        false
    }

    /// Removes the terrain within a disk around `position` by walking the
    /// discrete circle boundary of radius `radius - 1` and clearing, for
    /// each boundary step, the horizontal chord at the two mirrored rows.
    /// Raises the dirty flag exactly when some cell actually changed.
    pub fn destroy_circle(&mut self, position: (i32, i32), radius: i32)
        requires
            old(self)@.wf(),
            0 <= radius <= 30000,
            -1_000_000 <= position.0 <= 1_000_000,
            -1_000_000 <= position.1 <= 1_000_000,
        ensures
            final(self)@ == (LandscapeView {
                cells: destroyed(old(self)@, position.0 as int, position.1 as int, radius as int).0,
                changed: old(self)@.changed || destroyed(
                    old(self)@,
                    position.0 as int,
                    position.1 as int,
                    radius as int,
                ).1,
                ..old(self)@
            }),
            final(self)@.wf(),
    {
        let cx: i64 = position.0 as i64;
        let cy: i64 = position.1 as i64;
        let mut x: i64 = -((radius as i64) - 1);
        let mut y: i64 = 0;
        let mut err: i64 = 2 - 2 * ((radius as i64) - 1);
        let fuel0: i64 = 2 * (radius as i64) + 4;
        let mut fuel: i64 = fuel0;
        let mut any_change: bool = false;
        while x < 0 && fuel > 0
            invariant
                old(self)@.wf(),
                self@.wf(),
                -1_000_000 <= cx <= 1_000_000,
                -1_000_000 <= cy <= 1_000_000,
                0 <= radius <= 30000,
                fuel0 == 2 * (radius as int) + 4,
                0 <= fuel <= fuel0,
                -30000 <= x <= 1,
                0 <= y <= fuel0 - fuel,
                -70000 - (fuel0 - fuel) * 200000 <= err <= 70000 + (fuel0 - fuel) * 200000,
                self@.width == old(self)@.width,
                self@.height == old(self)@.height,
                self@.seed == old(self)@.seed,
                self@.changed == old(self)@.changed,
                self@.subsiding == old(self)@.subsiding,
                self@.sub_pos == old(self)@.sub_pos,
                self@.sub_skip == old(self)@.sub_skip,
                self@.sub_take == old(self)@.sub_take,
                destroyed(old(self)@, cx as int, cy as int, radius as int).0 == destroyed_rec(
                    self@,
                    cx as int,
                    cy as int,
                    x as int,
                    y as int,
                    err as int,
                    fuel as nat,
                ).0,
                destroyed(old(self)@, cx as int, cy as int, radius as int).1 == (any_change
                    || destroyed_rec(
                    self@,
                    cx as int,
                    cy as int,
                    x as int,
                    y as int,
                    err as int,
                    fuel as nat,
                ).1),
            decreases fuel,
        {
            let ghost v0 = self@;
            let hi: i64 = if cx - x > 0 {
                cx - x
            } else {
                0
            };
            let lo: i64 = if cx + x > 0 {
                cx + x
            } else {
                0
            };
            let len: i64 = hi - lo;
            proof {
                assert(lo == span_lo(cx as int, x as int));
                assert(len == span_hi(cx as int, x as int) - span_lo(cx as int, x as int));
                assert(0 <= len <= 62000);
            }
            if len != 0 {
                let ys: i64 = cy + y;
                let yo: i64 = cy - y;
                let n1: u32 = self.clear_pixels_line((lo as i32, ys as i32), len as u16);
                if n1 > 0 {
                    any_change = true;
                }
                let ghost v1 = self@;
                let n2: u32 = self.clear_pixels_line((lo as i32, yo as i32), len as u16);
                if n2 > 0 {
                    any_change = true;
                }
                proof {
                    assert(v1 == (LandscapeView {
                        cells: v0.cleared_line(lo as int, cy as int + y as int, len as int),
                        ..v0
                    }));
                    assert(self@ == (LandscapeView {
                        cells: v1.cleared_line(lo as int, cy as int - y as int, len as int),
                        ..v1
                    }));
                }
            }
            let ghost px = x as int;
            let ghost py = y as int;
            let ghost perr = err as int;
            let ghost pfuel = fuel as nat;
            let r0: i64 = err;
            if r0 <= y {
                y = y + 1;
                err = err + 2 * y + 1;
            }
            if r0 > x || err > y {
                x = x + 1;
                err = err + 2 * x + 1;
            }
            fuel = fuel - 1;
            proof {
                assert(circle_step(px, py, perr) == (x as int, y as int, err as int));
                assert(destroyed_rec(v0, cx as int, cy as int, px, py, perr, pfuel).0
                    == destroyed_rec(
                    self@,
                    cx as int,
                    cy as int,
                    x as int,
                    y as int,
                    err as int,
                    fuel as nat,
                ).0);
            }
        }
        proof {
            assert(destroyed_rec(
                self@,
                cx as int,
                cy as int,
                x as int,
                y as int,
                err as int,
                fuel as nat,
            ).0 == self@.cells);
        }
        if any_change {
            self.set_changed();
        }
    }

    /// Bounds-checked occupancy query; everything outside the bitmap reads
    /// as empty.
    pub fn is_not_empty(&self, x: i32, y: i32) -> (r: bool)
        requires
            self@.wf(),
        ensures
            r == (self@.in_bounds(x as int, y as int) && self@.cell(x as int, y as int) != 0),
    {
        if x < 0 || y < 0 || x >= self.width as i32 || y >= self.height as i32 {
            return false;
        }
        let row: usize = (self.height as i32 - 1 - y) as usize;
        let col: usize = x as usize;
        proof {
            lemma_grid_index(row as int, col as int, self@.width, self@.height);
            assert(self@.height * self@.width <= 0xffff * 0xffff) by (nonlinear_arith)
                requires
                    0 < self@.height <= 0xffff,
                    0 < self@.width <= 0xffff,
            ;
            vstd::arithmetic::mul::lemma_mul_is_commutative(self@.width, self@.height);
        }
        let index: usize = row * (self.width as usize) + col;
        self.buffer[index] > 0
    }
}

} // verus!
