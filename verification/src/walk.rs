//! The walk over a rectangle of a layer's cells, row by row, that yields each
//! cell with the tile slot that the layer holds for it.
use vstd::prelude::*;
use vstd::arithmetic::div_mod::{
    lemma_fundamental_div_mod, lemma_fundamental_div_mod_converse, lemma_mod_pos_bound,
};

use crate::geometry::URect;
use crate::layer::{MapLayer, MapTile};

verus! {

/// The number of cells that a walk over `rect` takes in a row: its width,
/// but one where the width is zero (a walk still visits the first column).
pub open spec fn row_width(rect: URect) -> int {
    if rect.w == 0 {
        1
    } else {
        rect.w as int
    }
}

/// The number of cells in a full walk over `rect`.
pub open spec fn walk_len(rect: URect) -> int {
    row_width(rect) * rect.h
}

/// The `n`-th cell of a walk over `rect`, row by row from its top left cell.
pub open spec fn walk_cell(rect: URect, n: int) -> (int, int) {
    (rect.x + n % row_width(rect), rect.y + n / row_width(rect))
}

/// Where the slot of cell `(x, y)` lies in the tiles of a layer whose rows are
/// `width` cells long.
pub open spec fn cell_index(width: u32, cell: (int, int)) -> int {
    cell.1 * width + cell.0
}

/// The arithmetic that `next` does at the `n`-th cell of a walk over `rect`,
/// on a layer whose rows are `width` cells long, stays within `u32`.
pub open spec fn step_fits(rect: URect, width: u32, n: int) -> bool {
    let (cx, cy) = walk_cell(rect, n);
    &&& cx + 1 <= u32::MAX
    &&& rect.x + rect.w <= u32::MAX
    &&& cx + 1 >= rect.x + rect.w ==> cy + 1 <= u32::MAX
    &&& cy * width + cx <= u32::MAX
    &&& rect.y + rect.h <= u32::MAX
}

/// The number of cells that a walk over `rect` yields from its `n`-th cell on,
/// plus `n`: a walk stops at the end of `rect` or at the first cell whose slot
/// lies beyond the `len` slots of the layer.
pub open spec fn walk_end(rect: URect, width: u32, len: int, n: int) -> int
    decreases walk_len(rect) - n,
{
    if n < 0 || n >= walk_len(rect) || cell_index(width, walk_cell(rect, n)) >= len {
        n
    } else {
        walk_end(rect, width, len, n + 1)
    }
}

/// The number of cells that a walk over `rect` of `layer` yields.
pub open spec fn walk_count<V, P>(layer: MapLayer<V, P>, rect: URect) -> int {
    walk_end(rect, layer.grid_size.width, layer.tiles@.len() as int, 0)
}

/// The arithmetic of every step that a walk over `rect` of `layer` takes stays
/// within `u32`: at each cell it yields, and at the cell where it stops.
pub open spec fn walk_fits<V, P>(layer: MapLayer<V, P>, rect: URect) -> bool {
    forall|n: int|
        0 <= n <= walk_count(layer, rect) ==> #[trigger] step_fits(
            rect,
            layer.grid_size.width,
            n,
        )
}

/// The tiles (with their cells) among the first `n` cells of a walk over
/// `rect` of `layer`, in the order of the walk; cells without a tile are left
/// out.
pub open spec fn walk_tiles<'a, V, P>(layer: &'a MapLayer<V, P>, rect: URect, n: int) -> Seq<
    (u32, u32, &'a MapTile<V>),
>
    decreases n,
{
    if n <= 0 {
        Seq::empty()
    } else {
        let prev = walk_tiles(layer, rect, n - 1);
        let c = walk_cell(rect, n - 1);
        match layer.tiles@[cell_index(layer.grid_size.width, c)] {
            Some(tile) => prev.push((c.0 as u32, c.1 as u32, &tile)),
            None => prev,
        }
    }
}

/// A walk over a rectangle of a layer's cells, row by row from the top left
/// cell of the rectangle.
pub struct MapTileIterator<'a, V, P> {
    pub rect: URect,
    pub current: (u32, u32),
    pub layer: &'a MapLayer<V, P>,
}

impl<'a, V, P> MapTileIterator<'a, V, P> {
    /// A walk over `rect` of `layer`, at its first cell.
    pub fn new(layer: &'a MapLayer<V, P>, rect: URect) -> (r: MapTileIterator<'a, V, P>)
        ensures
            r.rect == rect,
            r.current == (rect.x, rect.y),
            r.layer == layer,
    {
        let current = (rect.x, rect.y);
        MapTileIterator { layer, rect, current }
    }

    /// How many cells the walk has yielded to reach its current cell.
    pub open spec fn steps(self) -> int {
        (self.current.1 - self.rect.y) * row_width(self.rect) + (self.current.0 - self.rect.x)
    }

    /// The current cell is one that a walk over the rectangle reaches: within
    /// the rectangle's rows (or at the start of the row just below it) and its
    /// columns.
    pub open spec fn in_walk(self) -> bool {
        &&& self.rect.x <= self.current.0 < self.rect.x + row_width(self.rect)
        &&& self.rect.y <= self.current.1 <= self.rect.y + self.rect.h
        &&& self.current.1 == self.rect.y + self.rect.h ==> self.current.0 == self.rect.x
    }

    /// The arithmetic of the next step stays within `u32`.
    pub open spec fn next_fits(self) -> bool {
        let (cx, cy) = self.current;
        &&& cx + 1 <= u32::MAX
        &&& self.rect.x + self.rect.w <= u32::MAX
        &&& cx + 1 >= self.rect.x + self.rect.w ==> cy + 1 <= u32::MAX
        &&& cy * self.layer.grid_size.width + cx <= u32::MAX
        &&& self.rect.y + self.rect.h <= u32::MAX
    }

    /// The cell that follows the current one: the next in its row, or the
    /// first of the next row after the last column of the rectangle.
    pub open spec fn following(self) -> (u32, u32) {
        let (cx, cy) = self.current;
        if cx + 1 >= self.rect.x + self.rect.w {
            (self.rect.x, (cy + 1) as u32)
        } else {
            ((cx + 1) as u32, cy)
        }
    }

    /// Yields the current cell with its tile slot and moves to the following
    /// cell; yields nothing, and stays, once the walk is below the rectangle
    /// or the slot of the current cell lies beyond the layer's tiles.
    pub fn next(&mut self) -> (r: Option<(u32, u32, &'a Option<MapTile<V>>)>)
        requires
            old(self).next_fits(),
        ensures
            ({
                let (cx, cy) = old(self).current;
                let i = cy * old(self).layer.grid_size.width + cx;
                if cy >= old(self).rect.y + old(self).rect.h || i >= old(self).layer.tiles@.len() {
                    &&& r is None
                    &&& *final(self) == *old(self)
                } else {
                    &&& r == Some((cx, cy, &old(self).layer.tiles@[i]))
                    &&& final(self).rect == old(self).rect
                    &&& final(self).layer == old(self).layer
                    &&& final(self).current == old(self).following()
                }
            }),
            old(self).in_walk() ==> final(self).in_walk(),
            old(self).in_walk() && r is Some ==> final(self).steps() == old(self).steps() + 1,
    {
        proof {
            if old(self).in_walk() && old(self).current.1 < old(self).rect.y + old(self).rect.h
                && old(self).next_fits() {
                old(self).lemma_following();
            }
        }
        let next = if self.current.0 + 1 >= self.rect.x + self.rect.w {
            (self.rect.x, self.current.1 + 1)
        } else {
            (self.current.0 + 1, self.current.1)
        };
        let layer: &'a MapLayer<V, P> = self.layer;
        let i = (self.current.1 * layer.grid_size.width + self.current.0) as usize;
        if self.current.1 >= self.rect.y + self.rect.h || i >= layer.tiles.len() {
            return None;
        }
        let res = Some((self.current.0, self.current.1, &layer.tiles[i]));
        self.current = next;
        res
    }
}


impl<'a, V, P> MapTileIterator<'a, V, P> {
    /// At a cell that a walk reaches, the walk has taken `steps()` cells, at
    /// most all of the rectangle's, and the current cell is the cell of the walk
    /// with that number; the walk has taken all cells exactly when it is below
    /// the rectangle.
    pub proof fn lemma_position(self)
        requires
            self.in_walk(),
        ensures
            0 <= self.steps() <= walk_len(self.rect),
            walk_cell(self.rect, self.steps()) == (self.current.0 as int, self.current.1 as int),
            self.steps() == walk_len(self.rect) <==> self.current.1 == self.rect.y + self.rect.h,
    {
        let w = row_width(self.rect);
        let row = self.current.1 - self.rect.y;
        let col = self.current.0 - self.rect.x;
        let n = self.steps();
        assert(n == row * w + col);
        lemma_fundamental_div_mod_converse(n, w, row, col);
        assert(0 <= row * w) by (nonlinear_arith)
            requires
                0 <= row,
                0 < w,
        ;
        if row < self.rect.h {
            assert(row * w + w <= self.rect.h * w) by (nonlinear_arith)
                requires
                    row + 1 <= self.rect.h,
                    0 < w,
            ;
        } else {
            assert(row == self.rect.h);
            assert(col == 0);
        }
        assert(walk_len(self.rect) == w * self.rect.h);
        assert(self.rect.h * w == w * self.rect.h) by (nonlinear_arith);
    }

    /// From a cell of the rectangle, a step leads to a cell that the walk
    /// reaches, one step further.
    proof fn lemma_following(self)
        requires
            self.in_walk(),
            self.next_fits(),
            self.current.1 < self.rect.y + self.rect.h,
        ensures
            ({
                let next = MapTileIterator { rect: self.rect, current: self.following(), layer: self.layer };
                &&& next.in_walk()
                &&& next.steps() == self.steps() + 1
            }),
    {
        let w = row_width(self.rect);
        let row = self.current.1 - self.rect.y;
        assert((row + 1) * w == row * w + w) by (nonlinear_arith);
        if self.current.0 + 1 >= self.rect.x + self.rect.w {
            assert(self.current.0 + 1 == self.rect.x + w);
        }
    }

    /// Where the step at the walk's current cell fits in `u32`, `next` may
    /// be called.
    pub proof fn lemma_next_fits(self)
        requires
            self.in_walk(),
            step_fits(self.rect, self.layer.grid_size.width, self.steps()),
        ensures
            self.next_fits(),
    {
        self.lemma_position();
    }
}

/// A walk that has taken its first `k` cells without stopping yields as many
/// cells as one that starts at its `k`-th cell.
pub proof fn lemma_walk_end_skip(rect: URect, width: u32, len: int, k: int)
    requires
        0 <= k,
        forall|m: int|
            0 <= m < k ==> m < walk_len(rect) && #[trigger] cell_index(width, walk_cell(rect, m))
                < len,
    ensures
        walk_end(rect, width, len, 0) == walk_end(rect, width, len, k),
    decreases k,
{
    if k > 0 {
        assert(cell_index(width, walk_cell(rect, k - 1)) < len);
        lemma_walk_end_skip(rect, width, len, k - 1);
    }
}

impl<V, P> MapLayer<V, P> {
    /// The tiles of this layer in `rect`, with their cells, in the order of a
    /// walk over `rect`; cells without a tile are left out.
    pub fn tiles_in(&self, rect: URect) -> (r: Vec<(u32, u32, &MapTile<V>)>)
        requires
            walk_fits(*self, rect),
        ensures
            r@ == walk_tiles(self, rect, walk_count(*self, rect)),
    {
        let mut it = MapTileIterator::new(self, rect);
        let mut out: Vec<(u32, u32, &MapTile<V>)> = Vec::new();
        let ghost width = self.grid_size.width;
        let ghost len = self.tiles@.len() as int;
        assert(it.steps() == 0) by {
            assert(0 * row_width(rect) == 0) by (nonlinear_arith);
        }
        loop
            invariant_except_break
                it.rect == rect,
                it.layer == self,
                it.in_walk(),
                walk_fits(*self, rect),
                width == self.grid_size.width,
                len == self.tiles@.len(),
                out@ == walk_tiles(self, rect, it.steps()),
                forall|m: int|
                    0 <= m < it.steps() ==> m < walk_len(rect) && #[trigger] cell_index(
                        width,
                        walk_cell(rect, m),
                    ) < len,
            ensures
                out@ == walk_tiles(self, rect, walk_count(*self, rect)),
            decreases walk_len(rect) - it.steps(),
        {
            proof {
                it.lemma_position();
                lemma_walk_end_skip(rect, width, len, it.steps());
                lemma_walk_end(rect, width, len, it.steps());
                assert(step_fits(rect, width, it.steps()));
                it.lemma_next_fits();
            }
            let ghost before = it;
            match it.next() {
                None => {
                    proof {
                        lemma_walk_end_skip(rect, width, len, before.steps());
                    }
                    break;
                },
                Some((x, y, slot)) => {
                    proof {
                        let n = before.steps();
                        assert(cell_index(width, walk_cell(rect, n)) == y * width + x);
                    }
                    match slot {
                        Some(tile) => out.push((x, y, tile)),
                        None => {},
                    }
                    proof {
                        let n = before.steps();
                        assert(forall|m: int|
                            0 <= m < n ==> m < walk_len(rect) && #[trigger] cell_index(
                                width,
                                walk_cell(rect, m),
                            ) < len);
                        assert(cell_index(width, walk_cell(rect, n)) < len);
                        assert forall|m: int| 0 <= m < n + 1 implies m < walk_len(rect)
                            && #[trigger] cell_index(width, walk_cell(rect, m)) < len by {
                            if m < n {
                            } else {
                                assert(m == n);
                            }
                        }
                    }
                },
            }
        }
        out
    }
}


/// The `n`-th cell of a walk over `rect` lies in the rectangle (in its first
/// column when the rectangle has no width).
pub proof fn lemma_walk_cell_in_rect(rect: URect, n: int)
    requires
        0 <= n < walk_len(rect),
    ensures
        rect.x <= walk_cell(rect, n).0 < rect.x + row_width(rect),
        rect.y <= walk_cell(rect, n).1 < rect.y + rect.h,
{
    let w = row_width(rect);
    lemma_fundamental_div_mod(n, w);
    lemma_mod_pos_bound(n, w);
    let q = n / w;
    let r = n % w;
    assert(0 <= q < rect.h) by (nonlinear_arith)
        requires
            n == w * q + r,
            0 <= r < w,
            0 <= n < w * rect.h,
            w > 0,
    ;
}

/// A walk from cell `n` on takes only cells of the rectangle whose slots lie
/// within the layer's `len` slots, up to the cell where it stops.
proof fn lemma_walk_end(rect: URect, width: u32, len: int, n: int)
    requires
        0 <= n,
    ensures
        n <= walk_end(rect, width, len, n),
        n <= walk_len(rect) ==> walk_end(rect, width, len, n) <= walk_len(rect),
        forall|m: int|
            n <= m < walk_end(rect, width, len, n) ==> m < walk_len(rect) && #[trigger] cell_index(
                width,
                walk_cell(rect, m),
            ) < len,
    decreases walk_len(rect) - n,
{
    if n < walk_len(rect) && cell_index(width, walk_cell(rect, n)) < len {
        lemma_walk_end(rect, width, len, n + 1);
    }
}

/// The tiles of the first `n` cells of a walk, for `n` up to where the walk
/// stops, are tiles of the layer at cells of the rectangle.
proof fn lemma_walk_tiles_prefix<V, P>(layer: &MapLayer<V, P>, rect: URect, n: int)
    requires
        walk_fits(*layer, rect),
        0 <= n <= walk_count(*layer, rect),
    ensures
        forall|k: int|
            0 <= k < walk_tiles(layer, rect, n).len() ==> {
                let e = #[trigger] walk_tiles(layer, rect, n)[k];
                &&& rect.x <= e.0 < rect.x + row_width(rect)
                &&& rect.y <= e.1 < rect.y + rect.h
                &&& layer.tiles@[cell_index(layer.grid_size.width, (e.0 as int, e.1 as int))] == Some(
                    *e.2,
                )
            },
    decreases n,
{
    if n > 0 {
        lemma_walk_tiles_prefix(layer, rect, n - 1);
        lemma_walk_end(rect, layer.grid_size.width, layer.tiles@.len() as int, 0);
        let c = walk_cell(rect, n - 1);
        assert(cell_index(layer.grid_size.width, c) < layer.tiles@.len());
        assert(step_fits(rect, layer.grid_size.width, n - 1));
        lemma_walk_cell_in_rect(rect, n - 1);
    }
}

/// What a walk over `rect` of `layer` yields are tiles of the layer, each with
/// its own cell, and every such cell lies in `rect`; the walk takes at most
/// the cells of `rect`.
pub proof fn law_walk_yields_tiles_of_rect<V, P>(layer: &MapLayer<V, P>, rect: URect)
    requires
        walk_fits(*layer, rect),
    ensures
        walk_count(*layer, rect) <= walk_len(rect),
        forall|k: int|
            0 <= k < walk_tiles(layer, rect, walk_count(*layer, rect)).len() ==> {
                let e = #[trigger] walk_tiles(layer, rect, walk_count(*layer, rect))[k];
                &&& rect.x <= e.0 < rect.x + row_width(rect)
                &&& rect.y <= e.1 < rect.y + rect.h
                &&& layer.tiles@[cell_index(layer.grid_size.width, (e.0 as int, e.1 as int))] == Some(
                    *e.2,
                )
            },
{
    lemma_walk_end(rect, layer.grid_size.width, layer.tiles@.len() as int, 0);
    assert(0 <= walk_len(rect)) by (nonlinear_arith)
        requires
            row_width(rect) > 0,
            rect.h >= 0,
    ;
    lemma_walk_tiles_prefix(layer, rect, walk_count(*layer, rect));
}

/// A walk that meets no cell beyond the layer's slots from cell `n` on goes on
/// to the end of the rectangle.
proof fn lemma_walk_end_full(rect: URect, width: u32, len: int, n: int)
    requires
        0 <= n <= walk_len(rect),
        forall|m: int| n <= m < walk_len(rect) ==> #[trigger] cell_index(width, walk_cell(rect, m)) < len,
    ensures
        walk_end(rect, width, len, n) == walk_len(rect),
    decreases walk_len(rect) - n,
{
    if n < walk_len(rect) {
        assert(cell_index(width, walk_cell(rect, n)) < len);
        lemma_walk_end_full(rect, width, len, n + 1);
    }
}

/// A walk over a rectangle that lies within a layer's grid, on a layer that
/// holds a slot for every cell of its grid, takes every cell of the rectangle.
pub proof fn law_walk_covers_rect<V, P>(layer: MapLayer<V, P>, rect: URect)
    requires
        rect.x + row_width(rect) <= layer.grid_size.width,
        rect.y + rect.h <= layer.grid_size.height,
        layer.tiles@.len() >= layer.grid_size.width * layer.grid_size.height,
    ensures
        walk_count(layer, rect) == walk_len(rect),
{
    let width = layer.grid_size.width;
    let height = layer.grid_size.height;
    let len = layer.tiles@.len() as int;
    assert forall|m: int| 0 <= m < walk_len(rect) implies #[trigger] cell_index(
        width,
        walk_cell(rect, m),
    ) < len by {
        lemma_walk_cell_in_rect(rect, m);
        let c = walk_cell(rect, m);
        assert(c.1 * width + c.0 < width * height) by (nonlinear_arith)
            requires
                0 <= c.0 < width,
                0 <= c.1 < height,
        ;
    }
    assert(0 <= walk_len(rect)) by (nonlinear_arith)
        requires
            row_width(rect) > 0,
            rect.h >= 0,
    ;
    lemma_walk_end_full(rect, width, len, 0);
}

/// The state of a walk over `rect` of `layer` after its first `k` steps: at
/// the `k`-th cell of the walk.
pub open spec fn walk_state<'a, V, P>(layer: &'a MapLayer<V, P>, rect: URect, k: int) -> MapTileIterator<
    'a,
    V,
    P,
> {
    MapTileIterator {
        rect,
        current: (walk_cell(rect, k).0 as u32, walk_cell(rect, k).1 as u32),
        layer,
    }
}

/// A walk's state is determined by its step count, among the cells a walk
/// reaches.
proof fn lemma_state_of_steps<'a, V, P>(it: MapTileIterator<'a, V, P>)
    requires
        it.in_walk(),
        it.rect.x + row_width(it.rect) <= u32::MAX,
        it.rect.y + it.rect.h <= u32::MAX,
    ensures
        it == walk_state(it.layer, it.rect, it.steps()),
{
    it.lemma_position();
}

/// Step `k` of a walk over `rect` of `layer` is at the cell
/// `(rect.x + k % rect.w, rect.y + k / rect.w)`, below the rectangle's last
/// row, whose slot lies within the layer's tiles, so that `next` yields that
/// cell with its slot `tiles[y * width + x]`; its arithmetic stays within
/// `u32`, and it moves on to the cell of step `k + 1`.
pub open spec fn walk_step<'a, V, P>(layer: &'a MapLayer<V, P>, rect: URect, k: int) -> bool {
    let it = walk_state(layer, rect, k);
    let (x, y) = it.current;
    &&& x == rect.x + k % (rect.w as int)
    &&& y == rect.y + k / (rect.w as int)
    &&& it.next_fits()
    &&& y < rect.y + rect.h
    &&& y * layer.grid_size.width + x < layer.tiles@.len()
    &&& it.following() == walk_state(layer, rect, k + 1).current
}

/// Step `k` of a walk over a rectangle of a layer's grid, on a layer that
/// holds a slot for each cell of its grid.
proof fn lemma_walk_step<'a, V, P>(layer: &'a MapLayer<V, P>, rect: URect, k: int)
    requires
        rect.w >= 1,
        rect.x + rect.w <= layer.grid_size.width,
        rect.y + rect.h <= layer.grid_size.height,
        layer.tiles@.len() == layer.grid_size.width * layer.grid_size.height,
        walk_fits(*layer, rect),
        0 <= k < rect.w * rect.h,
    ensures
        walk_step(layer, rect, k),
{
    law_walk_covers_rect(*layer, rect);
    assert(step_fits(rect, layer.grid_size.width, k));
    let w = rect.w as int;
    let width = layer.grid_size.width as int;
    let height = layer.grid_size.height as int;
    let it = walk_state(layer, rect, k);
    lemma_walk_cell_in_rect(rect, k);
    lemma_fundamental_div_mod(k, w);
    let (x, y) = it.current;
    assert(it.in_walk());
    let q = k / w;
    let r = k % w;
    assert(it.steps() == (y - rect.y) * w + (x - rect.x));
    assert(it.steps() == q * w + r);
    assert(q * w == w * q) by (nonlinear_arith);
    assert(it.steps() == k);
    it.lemma_next_fits();
    it.lemma_following();
    let next = MapTileIterator { rect, current: it.following(), layer };
    lemma_state_of_steps(next);
    assert(y * width + x < width * height) by (nonlinear_arith)
        requires
            0 <= x < width,
            0 <= y < height,
    ;
}

/// Distinct steps of a walk over a rectangle with columns are at distinct
/// cells.
proof fn lemma_walk_cells_distinct(rect: URect, j: int, k: int)
    requires
        rect.w >= 1,
        0 <= j < k < rect.w * rect.h,
    ensures
        walk_cell(rect, j) != walk_cell(rect, k),
{
    let w = rect.w as int;
    lemma_fundamental_div_mod(j, w);
    lemma_fundamental_div_mod(k, w);
}

/// The first and the last state of a walk over a rectangle of a layer's grid.
proof fn lemma_walk_last<'a, V, P>(layer: &'a MapLayer<V, P>, rect: URect)
    requires
        rect.w >= 1,
        rect.x + rect.w <= layer.grid_size.width,
        rect.y + rect.h <= layer.grid_size.height,
        layer.tiles@.len() == layer.grid_size.width * layer.grid_size.height,
        walk_fits(*layer, rect),
    ensures
        walk_state(layer, rect, 0).current == (rect.x, rect.y),
        walk_state(layer, rect, rect.w * rect.h).current == (rect.x, (rect.y + rect.h) as u32),
        walk_state(layer, rect, rect.w * rect.h).next_fits(),
{
    let w = rect.w as int;
    let n = w * rect.h;
    assert(n == rect.h * w + 0) by (nonlinear_arith)
        requires
            n == w * rect.h,
    ;
    lemma_fundamental_div_mod_converse(0, w, 0, 0);
    lemma_fundamental_div_mod_converse(n, w, rect.h as int, 0);
    law_walk_covers_rect(*layer, rect);
    assert(step_fits(rect, layer.grid_size.width, n));
    let last = walk_state(layer, rect, n);
    assert(last.in_walk());
    assert(last.steps() == n);
    last.lemma_next_fits();
}

/// A walk over a rectangle of a layer's grid, on a layer that holds a slot for
/// each cell of its grid, yields each cell of the rectangle once, row by row
/// from the top left, with the slot of that cell, and then nothing: the walk
/// starts at the first cell; at step `k` (of `rect.w * rect.h`) it is at the
/// cell `(rect.x + k % rect.w, rect.y + k / rect.w)`, where `next` yields that
/// cell and its slot `tiles[y * width + x]` and moves to the cell of step
/// `k + 1`; after the last step it is below the rectangle, where `next` yields
/// nothing.
pub proof fn law_walk_in_grid<'a, V, P>(layer: &'a MapLayer<V, P>, rect: URect)
    requires
        rect.w >= 1,
        rect.x + rect.w <= layer.grid_size.width,
        rect.y + rect.h <= layer.grid_size.height,
        layer.tiles@.len() == layer.grid_size.width * layer.grid_size.height,
        walk_fits(*layer, rect),
    ensures
        walk_state(layer, rect, 0).current == (rect.x, rect.y),
        forall|k: int| 0 <= k < rect.w * rect.h ==> #[trigger] walk_step(layer, rect, k),
        walk_state(layer, rect, rect.w * rect.h).current == (rect.x, (rect.y + rect.h) as u32),
        walk_state(layer, rect, rect.w * rect.h).next_fits(),
        forall|j: int, k: int|
            0 <= j < k < rect.w * rect.h ==> #[trigger] walk_state(layer, rect, j).current
                != #[trigger] walk_state(layer, rect, k).current,
{
    lemma_walk_last(layer, rect);
    assert forall|k: int| 0 <= k < rect.w * rect.h implies #[trigger] walk_step(layer, rect, k) by {
        lemma_walk_step(layer, rect, k);
    }
    assert forall|j: int, k: int|
        0 <= j < k < rect.w * rect.h implies #[trigger] walk_state(layer, rect, j).current
        != #[trigger] walk_state(layer, rect, k).current by {
        lemma_walk_cells_distinct(rect, j, k);
        lemma_walk_cell_in_rect(rect, j);
        lemma_walk_cell_in_rect(rect, k);
    }
}

/// The walk state at the `n`-th cell of a walk over `rect` reaches that cell
/// after `n` steps.
proof fn lemma_cell_state<'a, V, P>(layer: &'a MapLayer<V, P>, rect: URect, n: int)
    requires
        0 <= n <= walk_len(rect),
        rect.x + row_width(rect) <= u32::MAX,
        rect.y + rect.h <= u32::MAX,
    ensures
        walk_state(layer, rect, n).in_walk(),
        walk_state(layer, rect, n).steps() == n,
        walk_state(layer, rect, n).current == (walk_cell(rect, n).0 as u32, walk_cell(rect, n).1 as u32),
        rect.x <= walk_cell(rect, n).0 < rect.x + row_width(rect),
        rect.y <= walk_cell(rect, n).1 <= rect.y + rect.h,
        n == walk_len(rect) ==> walk_cell(rect, n) == (rect.x as int, rect.y + rect.h),
{
    let w = row_width(rect);
    let it = walk_state(layer, rect, n);
    if n < walk_len(rect) {
        lemma_walk_cell_in_rect(rect, n);
        lemma_fundamental_div_mod(n, w);
        let q = n / w;
        let r = n % w;
        assert(it.steps() == q * w + r);
        assert(q * w == w * q) by (nonlinear_arith);
    } else {
        assert(n == rect.h * w + 0) by (nonlinear_arith)
            requires
                n == w * rect.h,
        ;
        lemma_fundamental_div_mod_converse(n, w, rect.h as int, 0);
        assert(it.steps() == rect.h * w);
    }
}

impl<V, P> MapLayer<V, P> {
    /// Whether the arithmetic of a walk over `rect` of this layer stays within
    /// `u32` at every step it takes (see `walk_fits`), found by following the
    /// walk in wider integers.
    pub fn can_walk(&self, rect: URect) -> (r: bool)
        ensures
            r == walk_fits(*self, rect),
    {
        let ghost width32 = self.grid_size.width;
        let ghost glen = self.tiles@.len() as int;
        proof {
            lemma_walk_end(rect, width32, glen, 0);
        }
        let max: u64 = 0xffff_ffff;
        let rx = rect.x as u64;
        let ry = rect.y as u64;
        let rw = rect.w as u64;
        let rh = rect.h as u64;
        let width = self.grid_size.width as u64;
        let len = self.tiles.len() as u64;
        if rx + rw > max || ry + rh > max || rx + 1 > max {
            proof {
                lemma_fundamental_div_mod_converse(0, row_width(rect), 0, 0);
                assert(!step_fits(rect, width32, 0));
            }
            return false;
        }
        proof {
            lemma_fundamental_div_mod_converse(0, row_width(rect), 0, 0);
            assert(0 <= walk_len(rect)) by (nonlinear_arith)
                requires
                    row_width(rect) > 0,
                    rect.h >= 0,
            ;
        }
        let mut cx: u64 = rx;
        let mut cy: u64 = ry;
        let ghost mut n: int = 0;
        loop
            invariant
                width32 == self.grid_size.width,
                glen == self.tiles@.len(),
                max == 0xffff_ffff,
                rx == rect.x && ry == rect.y && rw == rect.w && rh == rect.h,
                width == width32,
                len == glen,
                rx + rw <= max,
                ry + rh <= max,
                rx + 1 <= max,
                0 <= n <= walk_len(rect),
                (cx as int, cy as int) == walk_cell(rect, n),
                forall|m: int|
                    0 <= m < n ==> m < walk_len(rect) && #[trigger] cell_index(
                        width32,
                        walk_cell(rect, m),
                    ) < glen,
                forall|m: int| 0 <= m < n ==> #[trigger] step_fits(rect, width32, m),
            decreases walk_len(rect) - n,
        {
            proof {
                lemma_cell_state(self, rect, n);
                lemma_walk_end_skip(rect, width32, glen, n);
                lemma_walk_end(rect, width32, glen, n);
                assert(cy * width <= 0xffff_ffff * 0xffff_ffff) by (nonlinear_arith)
                    requires
                        cy <= 0xffff_ffff,
                        width <= 0xffff_ffff,
                ;
            }
            let fits = cx + 1 <= max && (cx + 1 < rx + rw || cy + 1 <= max) && cy * width + cx
                <= max;
            if !fits {
                proof {
                    assert(!step_fits(rect, width32, n));
                }
                return false;
            }
            proof {
                assert(step_fits(rect, width32, n));
            }
            if cy >= ry + rh || cy * width + cx >= len {
                proof {
                    if n < walk_len(rect) {
                        lemma_walk_cell_in_rect(rect, n);
                    }
                    assert(walk_end(rect, width32, glen, n) == n);
                    assert forall|m: int| 0 <= m <= walk_count(*self, rect) implies #[trigger] step_fits(
                        rect,
                        width32,
                        m,
                    ) by {
                        if m < n {
                        } else {
                            assert(m == n);
                        }
                    }
                }
                return true;
            }
            let ghost before = walk_state(self, rect, n);
            proof {
                if n >= walk_len(rect) {
                    assert(cy == ry + rh);
                }
                before.lemma_following();
                let next = MapTileIterator { rect, current: before.following(), layer: self };
                next.lemma_position();
                lemma_cell_state(self, rect, n + 1);
            }
            if cx + 1 >= rx + rw {
                cx = rx;
                cy = cy + 1;
            } else {
                cx = cx + 1;
            }
            proof {
                assert forall|m: int| 0 <= m < n + 1 implies m < walk_len(rect)
                    && #[trigger] cell_index(width32, walk_cell(rect, m)) < glen by {
                    if m == n {
                    }
                }
                assert forall|m: int| 0 <= m < n + 1 implies #[trigger] step_fits(rect, width32, m) by {
                    if m == n {
                    }
                }
                n = n + 1;
            }
        }
    }
}

/// Later cells of a walk come later in row-major order: on a later row, or
/// further right on the same row.
proof fn lemma_walk_cell_order(rect: URect, m: int, n: int)
    requires
        0 <= m < n,
    ensures
        walk_cell(rect, m).1 < walk_cell(rect, n).1 || (walk_cell(rect, m).1 == walk_cell(rect, n).1
            && walk_cell(rect, m).0 < walk_cell(rect, n).0),
{
    let w = row_width(rect);
    lemma_fundamental_div_mod(m, w);
    lemma_fundamental_div_mod(n, w);
    lemma_mod_pos_bound(m, w);
    lemma_mod_pos_bound(n, w);
    let q1 = m / w;
    let r1 = m % w;
    let q2 = n / w;
    let r2 = n % w;
    assert(q1 < q2 || (q1 == q2 && r1 < r2)) by (nonlinear_arith)
        requires
            m == w * q1 + r1,
            n == w * q2 + r2,
            0 <= r1 < w,
            0 <= r2 < w,
            m < n,
    ;
}

/// The tiles of the first `n` cells of a walk come from cells of the walk, in
/// row-major order, and include the tile of every one of those cells that
/// holds one.
proof fn lemma_walk_tiles_order<V, P>(layer: &MapLayer<V, P>, rect: URect, n: int)
    requires
        walk_fits(*layer, rect),
        0 <= n <= walk_count(*layer, rect),
    ensures
        forall|k: int|
            0 <= k < walk_tiles(layer, rect, n).len() ==> exists|m: int|
                0 <= m < n && (#[trigger] walk_tiles(layer, rect, n)[k].0 as int, walk_tiles(
                    layer,
                    rect,
                    n,
                )[k].1 as int) == walk_cell(rect, m),
        forall|j: int, k: int|
            0 <= j < k < walk_tiles(layer, rect, n).len() ==> {
                let a = #[trigger] walk_tiles(layer, rect, n)[j];
                let b = #[trigger] walk_tiles(layer, rect, n)[k];
                a.1 < b.1 || (a.1 == b.1 && a.0 < b.0)
            },
        forall|m: int|
            0 <= m < n && (#[trigger] layer.tiles@[cell_index(
                layer.grid_size.width,
                walk_cell(rect, m),
            )]) is Some ==> exists|k: int|
                0 <= k < walk_tiles(layer, rect, n).len() && (walk_tiles(layer, rect, n)[k].0 as int,
                walk_tiles(layer, rect, n)[k].1 as int) == walk_cell(rect, m) && Some(
                    *walk_tiles(layer, rect, n)[k].2,
                ) == layer.tiles@[cell_index(layer.grid_size.width, walk_cell(rect, m))],
    decreases n,
{
    if n > 0 {
        lemma_walk_tiles_order(layer, rect, n - 1);
        lemma_walk_end(rect, layer.grid_size.width, layer.tiles@.len() as int, 0);
        let width = layer.grid_size.width;
        let c = walk_cell(rect, n - 1);
        assert(step_fits(rect, width, n - 1));
        lemma_walk_cell_in_rect(rect, n - 1);
        let prev = walk_tiles(layer, rect, n - 1);
        let cur = walk_tiles(layer, rect, n);
        match layer.tiles@[cell_index(width, c)] {
            Some(tile) => {
                assert(cur == prev.push((c.0 as u32, c.1 as u32, &tile)));
                assert forall|k: int| 0 <= k < cur.len() implies exists|m: int|
                    0 <= m < n && (#[trigger] cur[k].0 as int, cur[k].1 as int) == walk_cell(
                        rect,
                        m,
                    ) by {
                    if k < prev.len() {
                        assert(cur[k] == prev[k]);
                        let m = choose|m: int|
                            0 <= m < n - 1 && (prev[k].0 as int, prev[k].1 as int) == walk_cell(
                                rect,
                                m,
                            );
                        assert((cur[k].0 as int, cur[k].1 as int) == walk_cell(rect, m));
                    } else {
                        assert((cur[k].0 as int, cur[k].1 as int) == walk_cell(rect, n - 1));
                    }
                }
                assert forall|j: int, k: int| 0 <= j < k < cur.len() implies {
                    let a = #[trigger] cur[j];
                    let b = #[trigger] cur[k];
                    a.1 < b.1 || (a.1 == b.1 && a.0 < b.0)
                } by {
                    if k < prev.len() {
                        assert(cur[j] == prev[j] && cur[k] == prev[k]);
                    } else {
                        assert(cur[j] == prev[j]);
                        let m = choose|m: int|
                            0 <= m < n - 1 && (#[trigger] prev[j].0 as int, prev[j].1 as int)
                                == walk_cell(rect, m);
                        lemma_walk_cell_order(rect, m, n - 1);
                    }
                }
                assert forall|m: int|
                    0 <= m < n && (#[trigger] layer.tiles@[cell_index(width, walk_cell(rect, m))]) is Some
                    implies exists|k: int|
                    0 <= k < cur.len() && (cur[k].0 as int, cur[k].1 as int) == walk_cell(rect, m)
                        && Some(*cur[k].2) == layer.tiles@[cell_index(width, walk_cell(rect, m))] by {
                    if m < n - 1 {
                        let k = choose|k: int|
                            0 <= k < prev.len() && (prev[k].0 as int, prev[k].1 as int) == walk_cell(
                                rect,
                                m,
                            ) && Some(*prev[k].2) == layer.tiles@[cell_index(
                                width,
                                walk_cell(rect, m),
                            )];
                        assert(cur[k] == prev[k]);
                    } else {
                        assert(m == n - 1);
                        assert(cur[prev.len() as int] == (c.0 as u32, c.1 as u32, &tile));
                    }
                }
            },
            None => {
                assert(cur == prev);
                assert forall|m: int|
                    0 <= m < n && (#[trigger] layer.tiles@[cell_index(width, walk_cell(rect, m))]) is Some
                    implies exists|k: int|
                    0 <= k < cur.len() && (cur[k].0 as int, cur[k].1 as int) == walk_cell(rect, m)
                        && Some(*cur[k].2) == layer.tiles@[cell_index(width, walk_cell(rect, m))] by {
                    if m == n - 1 {
                    }
                }
                assert forall|k: int| 0 <= k < cur.len() implies exists|m: int|
                    0 <= m < n && (#[trigger] cur[k].0 as int, cur[k].1 as int) == walk_cell(
                        rect,
                        m,
                    ) by {
                    let m = choose|m: int|
                        0 <= m < n - 1 && (prev[k].0 as int, prev[k].1 as int) == walk_cell(rect, m);
                    assert((cur[k].0 as int, cur[k].1 as int) == walk_cell(rect, m));
                }
            },
        }
    }
}

/// A walk over a rectangle of a layer's grid, on a layer that holds a slot for
/// each cell of its grid, yields exactly the tiles of the rectangle, in
/// row-major order: every cell of the rectangle whose slot holds a tile comes
/// out with that tile, every tile that comes out is the tile of its own cell of
/// the rectangle, and the cells come out row by row, left to right, each once.
pub proof fn law_walk_yields_every_tile<V, P>(layer: &MapLayer<V, P>, rect: URect)
    requires
        rect.w >= 1,
        rect.x + rect.w <= layer.grid_size.width,
        rect.y + rect.h <= layer.grid_size.height,
        layer.tiles@.len() >= layer.grid_size.width * layer.grid_size.height,
        walk_fits(*layer, rect),
    ensures
        ({
            let tiles = walk_tiles(layer, rect, walk_count(*layer, rect));
            let width = layer.grid_size.width as int;
            &&& forall|x: int, y: int|
                rect.x <= x < rect.x + rect.w && rect.y <= y < rect.y + rect.h
                    && (#[trigger] layer.tiles@[y * width + x]) is Some ==> exists|k: int|
                    0 <= k < tiles.len() && tiles[k].0 == x && tiles[k].1 == y && Some(*tiles[k].2)
                        == layer.tiles@[y * width + x]
            &&& forall|k: int|
                0 <= k < tiles.len() ==> {
                    let e = #[trigger] tiles[k];
                    &&& rect.x <= e.0 < rect.x + rect.w
                    &&& rect.y <= e.1 < rect.y + rect.h
                    &&& layer.tiles@[e.1 * width + e.0] == Some(*e.2)
                }
            &&& forall|j: int, k: int|
                0 <= j < k < tiles.len() ==> {
                    let a = #[trigger] tiles[j];
                    let b = #[trigger] tiles[k];
                    a.1 < b.1 || (a.1 == b.1 && a.0 < b.0)
                }
        }),
{
    let n = walk_count(*layer, rect);
    let tiles = walk_tiles(layer, rect, n);
    let width = layer.grid_size.width as int;
    let w = rect.w as int;
    law_walk_covers_rect(*layer, rect);
    law_walk_yields_tiles_of_rect(layer, rect);
    lemma_walk_tiles_order(layer, rect, n);
    assert forall|x: int, y: int|
        rect.x <= x < rect.x + rect.w && rect.y <= y < rect.y + rect.h
            && (#[trigger] layer.tiles@[y * width + x]) is Some implies exists|k: int|
        0 <= k < tiles.len() && tiles[k].0 == x && tiles[k].1 == y && Some(*tiles[k].2)
            == layer.tiles@[y * width + x] by {
        let m = (y - rect.y) * w + (x - rect.x);
        assert(0 <= m < w * rect.h) by (nonlinear_arith)
            requires
                m == (y - rect.y) * w + (x - rect.x),
                0 <= x - rect.x < w,
                0 <= y - rect.y < rect.h,
        ;
        lemma_fundamental_div_mod_converse(m, w, y - rect.y, x - rect.x);
        assert(walk_cell(rect, m) == (x, y));
        assert(layer.tiles@[cell_index(layer.grid_size.width, walk_cell(rect, m))] is Some);
    }
}

/// The cells of `rect` whose slot in `layer` holds a tile.
pub open spec fn tile_cells_of_rect<V, P>(layer: MapLayer<V, P>, rect: URect) -> Set<(int, int)> {
    Set::new(
        |c: (int, int)|
            rect.x <= c.0 < rect.x + rect.w && rect.y <= c.1 < rect.y + rect.h
                && layer.tiles@[c.1 * layer.grid_size.width + c.0] is Some,
    )
}

/// A walk over a rectangle of a layer's grid, on a layer that holds a slot for
/// each cell of its grid, yields one tile for each cell of the rectangle whose
/// slot holds a tile, and nothing else: the cells it yields are exactly those
/// cells, and there are as many tiles as there are such cells.
pub proof fn law_walk_counts_tiles<V, P>(layer: &MapLayer<V, P>, rect: URect)
    requires
        rect.w >= 1,
        rect.x + rect.w <= layer.grid_size.width,
        rect.y + rect.h <= layer.grid_size.height,
        layer.tiles@.len() >= layer.grid_size.width * layer.grid_size.height,
        walk_fits(*layer, rect),
    ensures
        walk_tiles(layer, rect, walk_count(*layer, rect)).map_values(
            |e: (u32, u32, &MapTile<V>)| (e.0 as int, e.1 as int),
        ).to_set() == tile_cells_of_rect(*layer, rect),
        walk_tiles(layer, rect, walk_count(*layer, rect)).len() == tile_cells_of_rect(
            *layer,
            rect,
        ).len(),
{
    law_walk_yields_every_tile(layer, rect);
    let tiles = walk_tiles(layer, rect, walk_count(*layer, rect));
    let cells = tiles.map_values(|e: (u32, u32, &MapTile<V>)| (e.0 as int, e.1 as int));
    let width = layer.grid_size.width as int;
    let want = tile_cells_of_rect(*layer, rect);
    assert forall|j: int, k: int|
        0 <= j < cells.len() && 0 <= k < cells.len() && j != k implies cells[j] != cells[k] by {
        let a = tiles[j];
        let b = tiles[k];
        assert(cells[j] == (a.0 as int, a.1 as int));
        assert(cells[k] == (b.0 as int, b.1 as int));
    }
    assert(cells.no_duplicates());
    cells.unique_seq_to_set();
    assert forall|c: (int, int)| #[trigger] cells.to_set().contains(c) == want.contains(c) by {
        if cells.to_set().contains(c) {
            let k = choose|k: int| 0 <= k < cells.len() && cells[k] == c;
            let e = tiles[k];
            assert(cells[k] == (e.0 as int, e.1 as int));
        }
        if want.contains(c) {
            assert(layer.tiles@[c.1 * width + c.0] is Some);
            let k = choose|k: int|
                0 <= k < tiles.len() && tiles[k].0 == c.0 && tiles[k].1 == c.1 && Some(*tiles[k].2)
                    == layer.tiles@[c.1 * width + c.0];
            assert(cells[k] == c);
            assert(cells.contains(c));
        }
    }
    assert(cells.to_set() =~= want);
}

} // verus!
