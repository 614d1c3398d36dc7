//! The grid editor's logic: which rows sit at a cell, how the view is
//! fitted around the painted rows, and how the brush rotation steps.

use vstd::prelude::*;

use crate::model::{
    brush_kind, brush_row, compatible_rows, lemma_row_position, painted, row_at, row_position,
    Brush, DocumentView, EditableConfig, OFFSET_MAX, OFFSET_MIN,
};
use crate::scan::{larger, smaller};
use crate::types::RotationInfo;

verus! {

/// Empty cells kept around the painted area so the filter can always grow.
pub const AUTO_FIT_MARGIN: i32 = 3;
/// Smallest fitted view, in cells.
pub const MIN_VIEW_CELLS: i32 = 10;

/// Rows at one cell, split into the current layer and other layers.
pub struct CellRows {
    /// Rows at the cell on the current layer, in filter order.
    pub here: Vec<RotationInfo>,
    /// Rows at the cell on other layers.
    pub elsewhere: usize,
}

/// The rows at column `(x, z)` on `layer`, in order.
pub open spec fn rows_here(rows: Seq<RotationInfo>, x: i8, z: i8, layer: i8) -> Seq<RotationInfo>
    decreases rows.len(),
{
    if rows.len() == 0 {
        Seq::empty()
    } else {
        let rest = rows_here(rows.drop_last(), x, z, layer);
        let info = rows.last();
        if info.x == x && info.z == z && info.y == layer {
            rest.push(info)
        } else {
            rest
        }
    }
}

/// How many rows sit at column `(x, z)` on a layer other than `layer`.
pub open spec fn rows_elsewhere(rows: Seq<RotationInfo>, x: i8, z: i8, layer: i8) -> nat
    decreases rows.len(),
{
    if rows.len() == 0 {
        0
    } else {
        let info = rows.last();
        rows_elsewhere(rows.drop_last(), x, z, layer) + if info.x == x && info.z == z && info.y
            != layer {
            1nat
        } else {
            0nat
        }
    }
}

/// Rows at one cell, split into the current layer and other layers.
pub fn rows_at(config: &EditableConfig, x: i8, z: i8, layer: i8) -> (cell: CellRows)
    ensures
        cell.here@ == rows_here(config.filter@, x, z, layer),
        cell.elsewhere == rows_elsewhere(config.filter@, x, z, layer),
{
    let mut here: Vec<RotationInfo> = Vec::new();
    let mut elsewhere: usize = 0;
    let mut index: usize = 0;
    while index < config.filter.len()
        invariant
            index <= config.filter@.len(),
            here@ == rows_here(config.filter@.take(index as int), x, z, layer),
            elsewhere == rows_elsewhere(config.filter@.take(index as int), x, z, layer),
            elsewhere <= index,
        decreases config.filter@.len() - index,
    {
        let info = config.filter[index];
        assert(config.filter@.take(index + 1).drop_last() =~= config.filter@.take(index as int));
        assert(config.filter@.take(index + 1).last() == info);
        if info.x == x && info.z == z {
            if info.y == layer {
                here.push(info);
            } else {
                elsewhere = elsewhere + 1;
            }
        }
        index = index + 1;
    }
    assert(config.filter@.take(config.filter@.len() as int) =~= config.filter@);
    CellRows { here, elsewhere }
}

/// `[lo, hi]` widened one cell on each side until it spans the minimum view.
pub open spec fn widened(lo: int, hi: int) -> (int, int)
    decreases (if hi - lo + 1 < MIN_VIEW_CELLS {
        MIN_VIEW_CELLS - (hi - lo + 1)
    } else {
        0
    }),
{
    if hi - lo + 1 < MIN_VIEW_CELLS {
        widened(lo - 1, hi + 1)
    } else {
        (lo, hi)
    }
}

/// The inclusive X/Z view bounds fitted around an extent (the origin when
/// there is none): the margin added, widened to the minimum view, and kept
/// within the offsets a filter can hold.
pub open spec fn fitted(extent: Option<(i32, i32, i32, i32)>) -> (int, int, int, int) {
    let (a, b, c, d) = match extent {
        Some(e) => e,
        None => (0i32, 0i32, 0i32, 0i32),
    };
    let (x0, x1) = widened(a - AUTO_FIT_MARGIN, b + AUTO_FIT_MARGIN);
    let (z0, z1) = widened(c - AUTO_FIT_MARGIN, d + AUTO_FIT_MARGIN);
    (
        larger(x0, OFFSET_MIN as int),
        smaller(x1, OFFSET_MAX as int),
        larger(z0, OFFSET_MIN as int),
        smaller(z1, OFFSET_MAX as int),
    )
}

/// Whether every bound of an extent lies within the offsets a filter holds.
pub open spec fn extent_in_range(extent: Option<(i32, i32, i32, i32)>) -> bool {
    match extent {
        Some((a, b, c, d)) => OFFSET_MIN <= a && a <= b && b <= OFFSET_MAX && OFFSET_MIN <= c && c
            <= d && d <= OFFSET_MAX,
        None => true,
    }
}

proof fn lemma_widened(lo: int, hi: int)
    ensures
        ({
            let (l, h) = widened(lo, hi);
            &&& l <= lo && hi <= h && lo - l == h - hi
            &&& h - l + 1 >= MIN_VIEW_CELLS
            &&& hi - lo + 1 >= MIN_VIEW_CELLS ==> l == lo && h == hi
            &&& hi - lo + 1 < MIN_VIEW_CELLS ==> h - l + 1 <= MIN_VIEW_CELLS + 1
        }),
    decreases (if hi - lo + 1 < MIN_VIEW_CELLS {
        MIN_VIEW_CELLS - (hi - lo + 1)
    } else {
        0
    }),
{
    if hi - lo + 1 < MIN_VIEW_CELLS {
        lemma_widened(lo - 1, hi + 1);
    }
}

/// Auto-fit along one axis: around painted rows spanning `[low, high]`, the
/// view keeps three empty cells on each side and is at least ten cells wide,
/// growing evenly on both sides only as far as that needs, and is clipped to
/// the offsets a filter can hold.
pub open spec fn fits_axis(low: int, high: int, view_low: int, view_high: int) -> bool {
    exists|l: int, h: int| #[trigger] axis_view(low, high, l, h, view_low, view_high)
}

/// The view `[l, h]` around rows spanning `[low, high]` before clipping,
/// and `[view_low, view_high]` after.
pub open spec fn axis_view(low: int, high: int, l: int, h: int, view_low: int, view_high: int) -> bool {
    &&& l <= low - AUTO_FIT_MARGIN && high + AUTO_FIT_MARGIN <= h
    &&& (low - AUTO_FIT_MARGIN) - l == h - (high + AUTO_FIT_MARGIN)
    &&& h - l + 1 >= MIN_VIEW_CELLS
    &&& h - l + 1 <= larger(high - low + 1 + 2 * AUTO_FIT_MARGIN, MIN_VIEW_CELLS + 1)
    &&& view_low == larger(l, OFFSET_MIN as int)
    &&& view_high == smaller(h, OFFSET_MAX as int)
}

/// The auto-fitted view keeps its margin: along each axis it holds three
/// empty cells on each side of the painted rows, is at least ten cells
/// wide, grows evenly and no further than that needs, and stays within the
/// offsets a filter can hold. With no rows it is fitted around the origin.
pub proof fn lemma_fit_keeps_margin(extent: Option<(i32, i32, i32, i32)>)
    ensures
        ({
            let (a, b, c, d) = match extent {
                Some(e) => e,
                None => (0i32, 0i32, 0i32, 0i32),
            };
            let (x0, x1, z0, z1) = fitted(extent);
            &&& fits_axis(a as int, b as int, x0, x1)
            &&& fits_axis(c as int, d as int, z0, z1)
            &&& OFFSET_MIN <= x0 && x1 <= OFFSET_MAX && OFFSET_MIN <= z0 && z1 <= OFFSET_MAX
        }),
{
    let (a, b, c, d) = match extent {
        Some(e) => e,
        None => (0i32, 0i32, 0i32, 0i32),
    };
    lemma_widened(a - AUTO_FIT_MARGIN, b + AUTO_FIT_MARGIN);
    lemma_widened(c - AUTO_FIT_MARGIN, d + AUTO_FIT_MARGIN);
    let (l, h) = widened(a - AUTO_FIT_MARGIN, b + AUTO_FIT_MARGIN);
    let (m, n) = widened(c - AUTO_FIT_MARGIN, d + AUTO_FIT_MARGIN);
    let (x0, x1, z0, z1) = fitted(extent);
    assert(axis_view(a as int, b as int, l, h, x0, x1));
    assert(axis_view(c as int, d as int, m, n, z0, z1));
}

fn widen(lo: i32, hi: i32) -> (pair: (i32, i32))
    requires
        -200 <= lo <= hi <= 200,
    ensures
        (pair.0 as int, pair.1 as int) == widened(lo as int, hi as int),
        -210 <= pair.0 <= pair.1 <= 210,
{
    let mut low = lo;
    let mut high = hi;
    while high - low + 1 < MIN_VIEW_CELLS
        invariant
            -200 <= lo <= hi <= 200,
            low <= lo,
            high >= hi,
            lo - low == high - hi,
            high - low + 1 <= (if hi - lo + 1 >= MIN_VIEW_CELLS {
                hi - lo + 1
            } else {
                MIN_VIEW_CELLS + 1
            }),
            widened(low as int, high as int) == widened(lo as int, hi as int),
        decreases MIN_VIEW_CELLS + 1 - (high - low + 1),
    {
        low = low - 1;
        high = high + 1;
    }
    (low, high)
}

/// Recomputes inclusive X/Z view bounds around the rows of an extent.
pub fn fitted_bounds(extent: Option<(i32, i32, i32, i32)>) -> (bounds: (i32, i32, i32, i32))
    requires
        extent_in_range(extent),
    ensures
        (bounds.0 as int, bounds.1 as int, bounds.2 as int, bounds.3 as int) == fitted(extent),
{
    let (a, b, c, d) = match extent {
        Some(e) => e,
        None => (0, 0, 0, 0),
    };
    let (x0, x1) = widen(a - AUTO_FIT_MARGIN, b + AUTO_FIT_MARGIN);
    let (z0, z1) = widen(c - AUTO_FIT_MARGIN, d + AUTO_FIT_MARGIN);
    (
        if x0 >= OFFSET_MIN {
            x0
        } else {
            OFFSET_MIN
        },
        if x1 <= OFFSET_MAX {
            x1
        } else {
            OFFSET_MAX
        },
        if z0 >= OFFSET_MIN {
            z0
        } else {
            OFFSET_MIN
        },
        if z1 <= OFFSET_MAX {
            z1
        } else {
            OFFSET_MAX
        },
    )
}

/// The rotation after `rotation` among those `brush` accepts.
pub fn cycled_rotation(rotation: u8, brush: Brush) -> (next: u8)
    requires
        rotation < 255,
    ensures
        next == (rotation as int + 1) % (if brush == Brush::Side { 2int } else { 4int }),
{
    (rotation + 1) % brush.rotation_count()
}

/// `rotation` brought into the range `brush` accepts.
pub fn clamped_rotation(rotation: u8, brush: Brush) -> (clamped: u8)
    ensures
        clamped == rotation as int % (if brush == Brush::Side { 2int } else { 4int }),
{
    rotation % brush.rotation_count()
}

/// Whether `rows` already hold, at `(x, y, z)`, the row of `brush`'s kind
/// with exactly `rotation`.
pub open spec fn already_painted(
    rows: Seq<RotationInfo>,
    x: i8,
    y: i8,
    z: i8,
    brush: Brush,
    rotation: u8,
) -> bool {
    let index = row_position(rows, x, y, z, brush_kind(brush));
    index >= 0 && rows[index].rotation == rotation
}

fn holds_exactly(config: &EditableConfig, x: i8, y: i8, z: i8, brush: Brush, rotation: u8) -> (found: bool)
    ensures
        found == already_painted(config.filter@, x, y, z, brush, rotation),
{
    proof {
        lemma_row_position(config.filter@, x, y, z, brush_kind(brush));
    }
    match config.index_at(x, y, z, brush) {
        Some(index) => config.filter[index].rotation == rotation,
        None => false,
    }
}

/// A click on cell `(x, z)` of `layer`. Clicking a cell that already holds
/// exactly what the brush would paint first advances the brush's rotation,
/// so repeated clicks cycle the cell; then the brush paints. Returns the
/// brush's rotation afterwards.
pub fn click_cell(
    config: &mut EditableConfig,
    x: i8,
    layer: i8,
    z: i8,
    brush: Brush,
    rotation: u8,
) -> (next: u8)
    requires
        rotation < 255,
    ensures
        next == (if already_painted(old(config).filter@, x, layer, z, brush, rotation) {
            (rotation as int + 1) % (if brush == Brush::Side { 2int } else { 4int })
        } else {
            rotation as int
        }),
        final(config)@ == (DocumentView {
            filter: painted(old(config).filter@, x, layer, z, brush, next),
            ..old(config)@
        }),
{
    let next = if holds_exactly(config, x, layer, z, brush, rotation) {
        cycled_rotation(rotation, brush)
    } else {
        rotation
    };
    config.paint(x, layer, z, brush, next);
    next
}

/// A drag across cell `(x, z)` of `layer` paints it, unless it already holds
/// exactly that row. Returns whether the filter changed.
pub fn drag_cell(
    config: &mut EditableConfig,
    x: i8,
    layer: i8,
    z: i8,
    brush: Brush,
    rotation: u8,
) -> (changed: bool)
    ensures
        changed == !already_painted(old(config).filter@, x, layer, z, brush, rotation),
        final(config)@ == (if changed {
            DocumentView {
                filter: painted(old(config).filter@, x, layer, z, brush, rotation),
                ..old(config)@
            }
        } else {
            old(config)@
        }),
{
    if holds_exactly(config, x, layer, z, brush, rotation) {
        false
    } else {
        config.paint(x, layer, z, brush, rotation);
        true
    }
}

/// A cell just painted holds exactly what was painted: the next click on it
/// with the same brush and rotation advances the rotation, which is how
/// repeated clicks cycle a cell.
pub proof fn lemma_painted_cell_holds_brush(
    rows: Seq<RotationInfo>,
    x: i8,
    y: i8,
    z: i8,
    brush: Brush,
    rotation: u8,
)
    requires
        rotation < (if brush == Brush::Side { 2int } else { 4int }),
    ensures
        already_painted(painted(rows, x, y, z, brush, rotation), x, y, z, brush, rotation),
{
    let kind = brush_kind(brush);
    let kept = compatible_rows(rows, x, y, z, brush is Netherrack);
    let row = brush_row(x, y, z, brush, rotation);
    let index = row_position(kept, x, y, z, kind);
    let after = painted(rows, x, y, z, brush, rotation);
    lemma_row_position(kept, x, y, z, kind);
    lemma_row_position(after, x, y, z, kind);
    assert(row_at(row, x, y, z) && row.kind == kind);
    assert(row.rotation == rotation);
    let target = if index >= 0 {
        index
    } else {
        kept.len() as int
    };
    assert(after[target] == row);
    assert(forall|j: int| 0 <= j < target ==> after[j] == kept[j]);
    let found = row_position(after, x, y, z, kind);
    if found < target {
        if found >= 0 {
            assert(after[found] == kept[found]);
        }
    } else if found > target {
        assert(after[target] == row);
    }
    assert(found == target);
}

/// What a cell shows counts the right rows: the rows drawn in cell
/// `(x, z)` on `layer` are exactly, in filter order, the rows at that column
/// and layer, and the rows counted as painted on another layer are exactly
/// the rows at that column whose layer differs (none when nothing sits in the
/// column).
pub proof fn lemma_cell_counts_its_column(rows: Seq<RotationInfo>, x: i8, z: i8, layer: i8)
    ensures
        rows_here(rows, x, z, layer) == rows.filter(
            |info: RotationInfo| info.x == x && info.z == z && info.y == layer,
        ),
        rows_elsewhere(rows, x, z, layer) == rows.filter(
            |info: RotationInfo| info.x == x && info.z == z && info.y != layer,
        ).len(),
        (forall|i: int| 0 <= i < rows.len() ==> !(#[trigger] rows[i].x == x && rows[i].z == z))
            ==> rows_elsewhere(rows, x, z, layer) == 0,
    decreases rows.len(),
{
    let here = |info: RotationInfo| info.x == x && info.z == z && info.y == layer;
    let other = |info: RotationInfo| info.x == x && info.z == z && info.y != layer;
    if rows.len() == 0 {
        assert(rows.filter(here) =~= Seq::<RotationInfo>::empty());
        assert(rows.filter(other) =~= Seq::<RotationInfo>::empty());
    } else {
        let rest = rows.drop_last();
        lemma_cell_counts_its_column(rest, x, z, layer);
        assert(rows =~= rest.push(rows.last()));
        rest.lemma_filter_push(rows.last(), here);
        rest.lemma_filter_push(rows.last(), other);
        if forall|i: int| 0 <= i < rows.len() ==> !(#[trigger] rows[i].x == x && rows[i].z == z) {
            assert forall|i: int| 0 <= i < rest.len() implies !(#[trigger] rest[i].x == x && rest[i].z
                == z) by {
                assert(rest[i] == rows[i]);
            }
            assert(!(rows[rows.len() - 1].x == x && rows[rows.len() - 1].z == z));
        }
    }
}

} // verus!
