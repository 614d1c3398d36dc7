//! Scan planning: the search area split into tiles, one work item per tile
//! and direction, visited in linear or spiral order.

use vstd::prelude::*;

use crate::config::{ConfigView, IntRange, ScanConfig, ScanOrder, TileSize};
use crate::text::{decimal, push_decimal, push_str, string_from_chars};
use crate::types::Int3;

verus! {

/// Most work items one plan may hold.
pub const MAX_WORK_ITEMS: u64 = 0x100_0000;

/// One tile of the search area scanned at one direction.
#[derive(Clone, Copy, Debug, PartialEq, Eq, Structural)]
pub struct WorkItem {
    /// Inclusive lower corner.
    pub start: Int3,
    /// Exclusive upper corner.
    pub end: Int3,
    /// Index of the direction in the configuration's direction list.
    pub direction_index: usize,
    pub direction: i32,
}

/// The length of a half-open range.
pub open spec fn span(range: IntRange) -> int {
    range.end - range.start
}

/// How many tiles of `size` cover `length`.
pub open spec fn tile_count(length: int, size: int) -> int {
    (length + size - 1) / size
}

/// The tile index nearest the origin along one axis.
pub open spec fn origin_tile(start: int, size: int, count: int) -> int {
    if start >= 0 {
        0
    } else if (-start) / size < count {
        (-start) / size
    } else {
        count - 1
    }
}

/// `(column, row)` of every tile of column `tx`, rows ascending.
pub open spec fn column_tiles(tx: int, rows: int) -> Seq<(u32, u32)> {
    Seq::new(rows as nat, |tz: int| (tx as u32, tz as u32))
}

/// The first `count` columns of tiles, column by column.
pub open spec fn linear_tiles(count: nat, rows: int) -> Seq<(u32, u32)>
    decreases count,
{
    if count == 0 {
        Seq::empty()
    } else {
        linear_tiles((count - 1) as nat, rows) + column_tiles(count - 1, rows)
    }
}

/// The larger of two integers.
pub open spec fn larger(a: int, b: int) -> int {
    if a >= b {
        a
    } else {
        b
    }
}

/// The smaller of two integers.
pub open spec fn smaller(a: int, b: int) -> int {
    if a <= b {
        a
    } else {
        b
    }
}

/// Chebyshev distance between two tiles.
pub open spec fn ring_of(tx: int, tz: int, ox: int, oz: int) -> int {
    larger(larger(tx - ox, ox - tx), larger(tz - oz, oz - tz))
}

/// The tiles of `tiles` at distance `r` from `(ox, oz)`, in their order.
pub open spec fn ring_filter(tiles: Seq<(u32, u32)>, r: int, ox: int, oz: int) -> Seq<(u32, u32)>
    decreases tiles.len(),
{
    if tiles.len() == 0 {
        Seq::empty()
    } else {
        let rest = ring_filter(tiles.drop_last(), r, ox, oz);
        if ring_of(tiles.last().0 as int, tiles.last().1 as int, ox, oz) == r {
            rest.push(tiles.last())
        } else {
            rest
        }
    }
}

/// The tiles of the first `count` rings around `(ox, oz)`: ring by ring,
/// each ring in the order of `tiles`.
pub open spec fn by_ring(tiles: Seq<(u32, u32)>, count: nat, ox: int, oz: int) -> Seq<(u32, u32)>
    decreases count,
{
    if count == 0 {
        Seq::empty()
    } else {
        by_ring(tiles, (count - 1) as nat, ox, oz) + ring_filter(tiles, count - 1, ox, oz)
    }
}

/// How many rings reach every tile of a `cols` by `rows` grid.
pub open spec fn ring_total(cols: int, rows: int, ox: int, oz: int) -> int {
    1 + larger(larger(ox, cols - 1 - ox), larger(oz, rows - 1 - oz))
}

/// The tiles of a grid in visiting order.
pub open spec fn ordered_tiles(order: ScanOrder, cols: int, rows: int, ox: int, oz: int) -> Seq<
    (u32, u32),
> {
    match order {
        ScanOrder::Linear => linear_tiles(cols as nat, rows),
        ScanOrder::Spiral => by_ring(
            linear_tiles(cols as nat, rows),
            ring_total(cols, rows, ox, oz) as nat,
            ox,
            oz,
        ),
    }
}

/// What a plan holds.
pub struct PlanView {
    /// `(column, row)` of each tile, in visiting order.
    pub tiles: Seq<(u32, u32)>,
    pub x_range: IntRange,
    pub y_range: IntRange,
    pub z_range: IntRange,
    pub tile: TileSize,
    pub directions: Seq<i32>,
    /// Candidates over the whole plan, saturated, and whether they had to be.
    pub candidates: (u64, bool),
}

/// Every candidate of the configured area at every direction.
pub open spec fn area_candidates(config: ConfigView) -> int {
    span(config.x_range) * span(config.z_range) * span(config.y_range) * config.directions.len()
}

/// Why a plan cannot be made, if it cannot.
pub open spec fn plan_problem(config: ConfigView, tile: TileSize) -> Option<Seq<char>> {
    if tile.x <= 0 || tile.z <= 0 {
        Some("tile size must be positive"@)
    } else if span(config.x_range) <= 0 || span(config.y_range) <= 0 || span(config.z_range) <= 0 {
        Some("scan ranges must not be empty"@)
    } else if config.directions.len() == 0 {
        Some("at least one direction is required"@)
    } else if tile_count(span(config.x_range), tile.x as int) * tile_count(
        span(config.z_range),
        tile.z as int,
    ) * config.directions.len() > MAX_WORK_ITEMS {
        Some(
            "the plan needs more than "@ + decimal(MAX_WORK_ITEMS as int)
                + " work items; use a larger tile size"@,
        )
    } else {
        None
    }
}

/// The plan for a configuration and tile size, when one can be made.
pub open spec fn planned(config: ConfigView, tile: TileSize) -> PlanView {
    let cols = tile_count(span(config.x_range), tile.x as int);
    let rows = tile_count(span(config.z_range), tile.z as int);
    PlanView {
        tiles: ordered_tiles(
            config.scan_order,
            cols,
            rows,
            origin_tile(config.x_range.start as int, tile.x as int, cols),
            origin_tile(config.z_range.start as int, tile.z as int, rows),
        ),
        x_range: config.x_range,
        y_range: config.y_range,
        z_range: config.z_range,
        tile,
        directions: config.directions,
        candidates: saturated_count(area_candidates(config)),
    }
}

/// The number of work items of a plan.
pub open spec fn item_total(plan: PlanView) -> int {
    (plan.tiles.len() * plan.directions.len()) as int
}

/// Work item `n`: tile `n / directions`, direction `n % directions`.
pub open spec fn item_at(plan: PlanView, n: int) -> WorkItem {
    let d = plan.directions.len() as int;
    let (tx, tz) = plan.tiles[n / d];
    let x0 = plan.x_range.start + tx * plan.tile.x;
    let z0 = plan.z_range.start + tz * plan.tile.z;
    WorkItem {
        start: Int3 { x: x0 as i32, y: plan.y_range.start, z: z0 as i32 },
        end: Int3 {
            x: smaller(x0 + plan.tile.x, plan.x_range.end as int) as i32,
            y: plan.y_range.end,
            z: smaller(z0 + plan.tile.z, plan.z_range.end as int) as i32,
        },
        direction_index: (n % d) as usize,
        direction: plan.directions[n % d],
    }
}

/// The length of `[start, end)`, zero when it is empty.
pub open spec fn extent(start: i32, end: i32) -> int {
    if end > start {
        end - start
    } else {
        0
    }
}

/// Candidates in a work item.
pub open spec fn item_candidates(item: WorkItem) -> int {
    extent(item.start.x, item.end.x) * extent(item.start.z, item.end.z) * extent(
        item.start.y,
        item.end.y,
    )
}

/// `count` saturated at `u64::MAX`, with whether it had to be.
pub open spec fn saturated_count(count: int) -> (u64, bool) {
    if count > u64::MAX {
        (u64::MAX, true)
    } else {
        (count as u64, false)
    }
}

/// A tiling of the search area into work items.
pub struct ScanPlan {
    /// `(column, row)` of each tile, in visiting order.
    pub tiles: Vec<(u32, u32)>,
    pub x_range: IntRange,
    pub y_range: IntRange,
    pub z_range: IntRange,
    pub tile: TileSize,
    pub directions: Vec<i32>,
    /// Candidates over the whole plan, saturated at `u64::MAX`.
    pub total_candidates: u64,
    /// Whether [`ScanPlan::total_candidates`] was saturated.
    pub total_candidates_saturated: bool,
}

impl View for ScanPlan {
    type V = PlanView;

    open spec fn view(&self) -> PlanView {
        PlanView {
            tiles: self.tiles@,
            x_range: self.x_range,
            y_range: self.y_range,
            z_range: self.z_range,
            tile: self.tile,
            directions: self.directions@,
            candidates: (self.total_candidates, self.total_candidates_saturated),
        }
    }
}

impl ScanPlan {
    /// Bounds every plan satisfies.
    pub open spec fn well_formed(&self) -> bool {
        &&& self.tile.x > 0 && self.tile.z > 0
        &&& span(self.x_range) > 0 && span(self.y_range) > 0 && span(self.z_range) > 0
        &&& self.directions@.len() > 0
        &&& self.tiles@.len() * self.directions@.len() <= MAX_WORK_ITEMS
        &&& forall|i: int|
            0 <= i < self.tiles@.len() ==> (#[trigger] self.tiles@[i]).0 * self.tile.x < span(
                self.x_range,
            ) && self.tiles@[i].1 * self.tile.z < span(self.z_range)
    }

    /// The number of work items.
    pub fn total_items(&self) -> (total: usize)
        requires
            self.well_formed(),
        ensures
            total == item_total(self@),
    {
        proof {
            vstd::arithmetic::mul::lemma_mul_nonnegative(
                self.tiles@.len() as int,
                self.directions@.len() as int,
            );
        }
        self.tiles.len() * self.directions.len()
    }

    /// Work item `n`, or `None` past the last one.
    pub fn work_item(&self, n: usize) -> (item: Option<WorkItem>)
        requires
            self.well_formed(),
        ensures
            n < item_total(self@) ==> item == Some(item_at(self@, n as int)),
            n >= item_total(self@) ==> item is None,
    {
        let total = self.total_items();
        if n >= total {
            return None;
        }
        let d = self.directions.len();
        let t = n / d;
        let k = n % d;
        proof {
            vstd::arithmetic::div_mod::lemma_fundamental_div_mod(n as int, d as int);
            vstd::arithmetic::mul::lemma_mul_is_commutative(d as int, t as int);
            if t >= self.tiles@.len() {
                vstd::arithmetic::mul::lemma_mul_inequality(
                    self.tiles@.len() as int,
                    t as int,
                    d as int,
                );
            }
        }
        let (tx, tz) = self.tiles[t];
        assert(tx * self.tile.x < span(self.x_range) && tz * self.tile.z < span(self.z_range));
        let x0: i64 = self.x_range.start as i64 + (tx as i64) * (self.tile.x as i64);
        let z0: i64 = self.z_range.start as i64 + (tz as i64) * (self.tile.z as i64);
        let x_end: i64 = x0 + self.tile.x as i64;
        let z_end: i64 = z0 + self.tile.z as i64;
        let x1: i64 = if x_end <= self.x_range.end as i64 {
            x_end
        } else {
            self.x_range.end as i64
        };
        let z1: i64 = if z_end <= self.z_range.end as i64 {
            z_end
        } else {
            self.z_range.end as i64
        };
        Some(
            WorkItem {
                start: Int3 { x: x0 as i32, y: self.y_range.start, z: z0 as i32 },
                end: Int3 { x: x1 as i32, y: self.y_range.end, z: z1 as i32 },
                direction_index: k,
                direction: self.directions[k],
            },
        )
    }
}

// ---------------------------------------------------------------------------
// Building a plan
// ---------------------------------------------------------------------------

/// Whether every tile lies in a `cols` by `rows` grid.
pub open spec fn in_grid(tiles: Seq<(u32, u32)>, cols: int, rows: int) -> bool {
    forall|i: int|
        0 <= i < tiles.len() ==> (#[trigger] tiles[i]).0 < cols && tiles[i].1 < rows
}

proof fn lemma_linear_tiles(count: nat, rows: int)
    requires
        0 <= rows <= MAX_WORK_ITEMS,
        count <= MAX_WORK_ITEMS,
    ensures
        linear_tiles(count, rows).len() == count * rows,
        in_grid(linear_tiles(count, rows), count as int, rows),
    decreases count,
{
    if count > 0 {
        lemma_linear_tiles((count - 1) as nat, rows);
        assert((count - 1) * rows + rows == count * rows) by (nonlinear_arith);
        let before = linear_tiles((count - 1) as nat, rows);
        let column = column_tiles(count - 1, rows);
        let all = linear_tiles(count, rows);
        assert(all.len() == before.len() + column.len());
        assert forall|i: int| 0 <= i < all.len() implies (#[trigger] all[i]).0 < count && all[i].1
            < rows by {
            if i >= before.len() {
                assert(all[i] == column[i - before.len()]);
            } else {
                assert(all[i] == before[i]);
            }
        }
    } else {
        assert(count * rows == 0) by (nonlinear_arith)
            requires
                count == 0,
        ;
    }
}

proof fn lemma_linear_next(count: nat, rows: int)
    requires
        rows >= 0,
    ensures
        linear_tiles(count, rows) + column_tiles(count as int, rows).take(rows) == linear_tiles(
            count + 1,
            rows,
        ),
{
    assert(column_tiles(count as int, rows).take(rows) =~= column_tiles(count as int, rows));
}

proof fn lemma_ring_filter_grid(tiles: Seq<(u32, u32)>, r: int, ox: int, oz: int, cols: int, rows: int)
    requires
        in_grid(tiles, cols, rows),
    ensures
        in_grid(ring_filter(tiles, r, ox, oz), cols, rows),
        ring_filter(tiles, r, ox, oz).len() <= tiles.len(),
    decreases tiles.len(),
{
    if tiles.len() > 0 {
        let rest = tiles.drop_last();
        assert forall|i: int| 0 <= i < rest.len() implies (#[trigger] rest[i]).0 < cols && rest[i].1
            < rows by {
            assert(rest[i] == tiles[i]);
        }
        lemma_ring_filter_grid(rest, r, ox, oz, cols, rows);
        assert(tiles.last() == tiles[tiles.len() - 1]);
    }
}

proof fn lemma_by_ring_grid(tiles: Seq<(u32, u32)>, count: nat, ox: int, oz: int, cols: int, rows: int)
    requires
        in_grid(tiles, cols, rows),
    ensures
        in_grid(by_ring(tiles, count, ox, oz), cols, rows),
    decreases count,
{
    if count > 0 {
        lemma_by_ring_grid(tiles, (count - 1) as nat, ox, oz, cols, rows);
        lemma_ring_filter_grid(tiles, count - 1, ox, oz, cols, rows);
        let before = by_ring(tiles, (count - 1) as nat, ox, oz);
        let ring = ring_filter(tiles, count - 1, ox, oz);
        let all = by_ring(tiles, count, ox, oz);
        assert forall|i: int| 0 <= i < all.len() implies (#[trigger] all[i]).0 < cols && all[i].1
            < rows by {
            if i >= before.len() {
                assert(all[i] == ring[i - before.len()]);
            } else {
                assert(all[i] == before[i]);
            }
        }
    }
}

/// Adding a tile to the end adds it to exactly one ring.
proof fn lemma_by_ring_push(tiles: Seq<(u32, u32)>, count: nat, ox: int, oz: int)
    requires
        tiles.len() > 0,
    ensures
        by_ring(tiles, count, ox, oz).len() == by_ring(tiles.drop_last(), count, ox, oz).len() + (
        if 0 <= ring_of(tiles.last().0 as int, tiles.last().1 as int, ox, oz) < count {
            1int
        } else {
            0int
        }),
    decreases count,
{
    if count > 0 {
        lemma_by_ring_push(tiles, (count - 1) as nat, ox, oz);
    }
}

proof fn lemma_by_ring_empty(tiles: Seq<(u32, u32)>, count: nat, ox: int, oz: int)
    requires
        tiles.len() == 0,
    ensures
        by_ring(tiles, count, ox, oz).len() == 0,
    decreases count,
{
    if count > 0 {
        lemma_by_ring_empty(tiles, (count - 1) as nat, ox, oz);
    }
}

/// When every tile's ring is below `count`, the rings hold every tile.
proof fn lemma_by_ring_len(tiles: Seq<(u32, u32)>, count: nat, ox: int, oz: int)
    requires
        forall|i: int|
            0 <= i < tiles.len() ==> ring_of(
                (#[trigger] tiles[i]).0 as int,
                tiles[i].1 as int,
                ox,
                oz,
            ) < count,
    ensures
        by_ring(tiles, count, ox, oz).len() == tiles.len(),
    decreases tiles.len(),
{
    if tiles.len() > 0 {
        let rest = tiles.drop_last();
        assert forall|i: int| 0 <= i < rest.len() implies ring_of(
            (#[trigger] rest[i]).0 as int,
            rest[i].1 as int,
            ox,
            oz,
        ) < count by {
            assert(rest[i] == tiles[i]);
        }
        lemma_by_ring_len(rest, count, ox, oz);
        lemma_by_ring_push(tiles, count, ox, oz);
        assert(tiles.last() == tiles[tiles.len() - 1]);
    } else {
        lemma_by_ring_empty(tiles, count, ox, oz);
    }
}

fn too_many_items_message() -> (message: String)
    ensures
        message@ == "the plan needs more than "@ + decimal(MAX_WORK_ITEMS as int)
            + " work items; use a larger tile size"@,
{
    let mut out: Vec<char> = Vec::new();
    push_str(&mut out, "the plan needs more than ");
    push_decimal(&mut out, MAX_WORK_ITEMS as i64);
    push_str(&mut out, " work items; use a larger tile size");
    string_from_chars(&out)
}

fn tile_total(length: i64, size: i32) -> (count: u64)
    requires
        0 < length <= u32::MAX,
        size > 0,
    ensures
        count == tile_count(length as int, size as int),
        1 <= count <= length,
{
    let count = (length + size as i64 - 1) / size as i64;
    proof {
        assert(length + size - 1 <= length * size) by (nonlinear_arith)
            requires
                length >= 1,
                size >= 1,
        ;
        vstd::arithmetic::div_mod::lemma_div_is_ordered(size as int, length + size - 1, size as int);
        vstd::arithmetic::div_mod::lemma_div_by_self(size as int);
        vstd::arithmetic::div_mod::lemma_div_is_ordered(length + size - 1, length * size, size as int);
        vstd::arithmetic::div_mod::lemma_div_multiples_vanish(length as int, size as int);
    }
    count as u64
}

fn origin_index(start: i32, size: i32, count: u64) -> (index: u64)
    requires
        size > 0,
        count >= 1,
    ensures
        index == origin_tile(start as int, size as int, count as int),
        index < count,
{
    if start >= 0 {
        0
    } else {
        let t: i64 = (-(start as i64)) / size as i64;
        if (t as u64) < count {
            t as u64
        } else {
            count - 1
        }
    }
}

fn ring_index(tx: u64, tz: u64, ox: u64, oz: u64) -> (r: u64)
    ensures
        r == ring_of(tx as int, tz as int, ox as int, oz as int),
{
    let dx = if tx >= ox {
        tx - ox
    } else {
        ox - tx
    };
    let dz = if tz >= oz {
        tz - oz
    } else {
        oz - tz
    };
    if dx >= dz {
        dx
    } else {
        dz
    }
}

fn linear_order(cols: u64, rows: u64) -> (tiles: Vec<(u32, u32)>)
    requires
        1 <= cols <= MAX_WORK_ITEMS,
        1 <= rows <= MAX_WORK_ITEMS,
    ensures
        tiles@ == linear_tiles(cols as nat, rows as int),
{
    let mut tiles: Vec<(u32, u32)> = Vec::new();
    let mut tx: u64 = 0;
    while tx < cols
        invariant
            tx <= cols <= MAX_WORK_ITEMS,
            1 <= rows <= MAX_WORK_ITEMS,
            tiles@ == linear_tiles(tx as nat, rows as int),
        decreases cols - tx,
    {
        let mut tz: u64 = 0;
        while tz < rows
            invariant
                tx < cols <= MAX_WORK_ITEMS,
                tz <= rows <= MAX_WORK_ITEMS,
                tiles@ == linear_tiles(tx as nat, rows as int) + column_tiles(
                    tx as int,
                    rows as int,
                ).take(tz as int),
            decreases rows - tz,
        {
            tiles.push((tx as u32, tz as u32));
            assert(column_tiles(tx as int, rows as int).take(tz + 1) =~= column_tiles(
                tx as int,
                rows as int,
            ).take(tz as int).push((tx as u32, tz as u32)));
            tz = tz + 1;
        }
        proof {
            lemma_linear_next(tx as nat, rows as int);
        }
        tx = tx + 1;
    }
    tiles
}

fn spiral_order(cols: u64, rows: u64, ox: u64, oz: u64) -> (tiles: Vec<(u32, u32)>)
    requires
        1 <= cols <= MAX_WORK_ITEMS,
        1 <= rows <= MAX_WORK_ITEMS,
        ox < cols,
        oz < rows,
    ensures
        tiles@ == by_ring(
            linear_tiles(cols as nat, rows as int),
            ring_total(cols as int, rows as int, ox as int, oz as int) as nat,
            ox as int,
            oz as int,
        ),
{
    let reach_x = if ox >= cols - 1 - ox {
        ox
    } else {
        cols - 1 - ox
    };
    let reach_z = if oz >= rows - 1 - oz {
        oz
    } else {
        rows - 1 - oz
    };
    let rings: u64 = 1 + if reach_x >= reach_z {
        reach_x
    } else {
        reach_z
    };
    assert(rings == ring_total(cols as int, rows as int, ox as int, oz as int));
    let mut buckets: Vec<Vec<(u32, u32)>> = Vec::new();
    let mut made: u64 = 0;
    while made < rings
        invariant
            made <= rings,
            buckets@.len() == made,
            forall|j: int| 0 <= j < made ==> (#[trigger] buckets@[j])@ == Seq::<(u32, u32)>::empty(),
        decreases rings - made,
    {
        buckets.push(Vec::new());
        made = made + 1;
    }
    let mut tx: u64 = 0;
    proof {
        assert forall|j: int| 0 <= j < rings implies (#[trigger] buckets@[j])@ == ring_filter(
            linear_tiles(0, rows as int),
            j,
            ox as int,
            oz as int,
        ) by {}
    }
    while tx < cols
        invariant
            tx <= cols <= MAX_WORK_ITEMS,
            1 <= rows <= MAX_WORK_ITEMS,
            ox < cols,
            oz < rows,
            rings == ring_total(cols as int, rows as int, ox as int, oz as int),
            buckets@.len() == rings,
            forall|j: int|
                0 <= j < rings ==> (#[trigger] buckets@[j])@ == ring_filter(
                    linear_tiles(tx as nat, rows as int),
                    j,
                    ox as int,
                    oz as int,
                ),
        decreases cols - tx,
    {
        let mut tz: u64 = 0;
        assert(linear_tiles(tx as nat, rows as int) + column_tiles(tx as int, rows as int).take(0)
            =~= linear_tiles(tx as nat, rows as int));
        while tz < rows
            invariant
                tx < cols <= MAX_WORK_ITEMS,
                tz <= rows <= MAX_WORK_ITEMS,
                ox < cols,
                oz < rows,
                rings == ring_total(cols as int, rows as int, ox as int, oz as int),
                buckets@.len() == rings,
                forall|j: int|
                    0 <= j < rings ==> (#[trigger] buckets@[j])@ == ring_filter(
                        linear_tiles(tx as nat, rows as int) + column_tiles(
                            tx as int,
                            rows as int,
                        ).take(tz as int),
                        j,
                        ox as int,
                        oz as int,
                    ),
            decreases rows - tz,
        {
            let ghost before = linear_tiles(tx as nat, rows as int) + column_tiles(
                tx as int,
                rows as int,
            ).take(tz as int);
            let ghost after = linear_tiles(tx as nat, rows as int) + column_tiles(
                tx as int,
                rows as int,
            ).take(tz + 1);
            assert(after =~= before.push((tx as u32, tz as u32)));
            assert(after.drop_last() =~= before);
            let r = ring_index(tx, tz, ox, oz);
            let ghost old_buckets = buckets@;
            buckets[r as usize].push((tx as u32, tz as u32));
            assert forall|j: int| 0 <= j < rings implies (#[trigger] buckets@[j])@ == ring_filter(
                after,
                j,
                ox as int,
                oz as int,
            ) by {
                if j != r {
                    assert(buckets@[j] == old_buckets[j]);
                }
            }
            tz = tz + 1;
        }
        proof {
            lemma_linear_next(tx as nat, rows as int);
        }
        tx = tx + 1;
    }
    let ghost linear = linear_tiles(cols as nat, rows as int);
    let mut tiles: Vec<(u32, u32)> = Vec::new();
    let mut r: usize = 0;
    while r < buckets.len()
        invariant
            r <= buckets@.len(),
            buckets@.len() == rings,
            forall|j: int|
                0 <= j < rings ==> (#[trigger] buckets@[j])@ == ring_filter(
                    linear,
                    j,
                    ox as int,
                    oz as int,
                ),
            tiles@ == by_ring(linear, r as nat, ox as int, oz as int),
        decreases buckets@.len() - r,
    {
        let ghost start = tiles@;
        let mut k: usize = 0;
        while k < buckets[r].len()
            invariant
                r < buckets@.len(),
                k <= buckets@[r as int]@.len(),
                tiles@ == start + buckets@[r as int]@.take(k as int),
            decreases buckets@[r as int]@.len() - k,
        {
            tiles.push(buckets[r][k]);
            assert(buckets@[r as int]@.take(k + 1) =~= buckets@[r as int]@.take(k as int).push(
                buckets@[r as int]@[k as int],
            ));
            k = k + 1;
        }
        assert(buckets@[r as int]@.take(k as int) =~= buckets@[r as int]@);
        r = r + 1;
    }
    tiles
}

proof fn lemma_tile_inside(index: int, length: int, size: int)
    requires
        length >= 1,
        size >= 1,
        0 <= index < tile_count(length, size),
    ensures
        index * size < length,
{
    let count = tile_count(length, size);
    vstd::arithmetic::div_mod::lemma_fundamental_div_mod(length + size - 1, size);
    vstd::arithmetic::div_mod::lemma_mod_bound(length + size - 1, size);
    assert(size * count <= length + size - 1);
    assert(index * size <= (count - 1) * size) by (nonlinear_arith)
        requires
            index <= count - 1,
            size >= 1,
    ;
    assert((count - 1) * size == size * count - size) by (nonlinear_arith);
}

fn copy_directions(directions: &Vec<i32>) -> (copy: Vec<i32>)
    ensures
        copy@ == directions@,
{
    let mut copy: Vec<i32> = Vec::new();
    let mut index: usize = 0;
    while index < directions.len()
        invariant
            index <= directions.len(),
            copy@ == directions@.take(index as int),
        decreases directions.len() - index,
    {
        copy.push(directions[index]);
        assert(directions@.take(index + 1) =~= directions@.take(index as int).push(
            directions@[index as int],
        ));
        index = index + 1;
    }
    assert(directions@.take(directions.len() as int) =~= directions@);
    copy
}

/// Splits the configured area into tiles of `tile` and orders them.
pub fn make_plan(config: &ScanConfig, tile: TileSize) -> (plan: Result<ScanPlan, String>)
    ensures
        match plan_problem(config@, tile) {
            Some(problem) => plan matches Err(message) && message@ == problem,
            None => plan matches Ok(made) && made@ == planned(config@, tile) && made.well_formed(),
        },
{
    if tile.x <= 0 || tile.z <= 0 {
        return Err("tile size must be positive".to_owned());
    }
    let sx: i64 = config.x_range.end as i64 - config.x_range.start as i64;
    let sy: i64 = config.y_range.end as i64 - config.y_range.start as i64;
    let sz: i64 = config.z_range.end as i64 - config.z_range.start as i64;
    if sx <= 0 || sy <= 0 || sz <= 0 {
        return Err("scan ranges must not be empty".to_owned());
    }
    if config.directions.len() == 0 {
        return Err("at least one direction is required".to_owned());
    }
    let cols = tile_total(sx, tile.x);
    let rows = tile_total(sz, tile.z);
    let d: u64 = config.directions.len() as u64;
    if cols > MAX_WORK_ITEMS || rows > MAX_WORK_ITEMS || d > MAX_WORK_ITEMS {
        assert(cols * rows * d > MAX_WORK_ITEMS) by (nonlinear_arith)
            requires
                cols >= 1,
                rows >= 1,
                d >= 1,
                cols > MAX_WORK_ITEMS || rows > MAX_WORK_ITEMS || d > MAX_WORK_ITEMS,
        ;
        return Err(too_many_items_message());
    }
    assert(cols * rows <= MAX_WORK_ITEMS * MAX_WORK_ITEMS) by (nonlinear_arith)
        requires
            cols <= MAX_WORK_ITEMS,
            rows <= MAX_WORK_ITEMS,
    ;
    let area: u64 = cols * rows;
    if area > MAX_WORK_ITEMS {
        assert(cols * rows * d > MAX_WORK_ITEMS) by (nonlinear_arith)
            requires
                d >= 1,
                cols * rows > MAX_WORK_ITEMS,
        ;
        return Err(too_many_items_message());
    }
    assert(area * d <= MAX_WORK_ITEMS * MAX_WORK_ITEMS) by (nonlinear_arith)
        requires
            area <= MAX_WORK_ITEMS,
            d <= MAX_WORK_ITEMS,
    ;
    if area * d > MAX_WORK_ITEMS {
        return Err(too_many_items_message());
    }
    let ox = origin_index(config.x_range.start, tile.x, cols);
    let oz = origin_index(config.z_range.start, tile.z, rows);
    let tiles = match config.scan_order {
        ScanOrder::Linear => linear_order(cols, rows),
        ScanOrder::Spiral => spiral_order(cols, rows, ox, oz),
    };
    proof {
        let linear = linear_tiles(cols as nat, rows as int);
        lemma_linear_tiles(cols as nat, rows as int);
        if config.scan_order == ScanOrder::Spiral {
            let rings = ring_total(cols as int, rows as int, ox as int, oz as int);
            assert forall|i: int| 0 <= i < linear.len() implies ring_of(
                (#[trigger] linear[i]).0 as int,
                linear[i].1 as int,
                ox as int,
                oz as int,
            ) < rings as nat by {
                assert(linear[i].0 < cols && linear[i].1 < rows);
            }
            lemma_by_ring_len(linear, rings as nat, ox as int, oz as int);
            lemma_by_ring_grid(linear, rings as nat, ox as int, oz as int, cols as int, rows as int);
        }
        assert(in_grid(tiles@, cols as int, rows as int));
        assert(tiles@.len() == cols * rows);
        assert forall|i: int| 0 <= i < tiles@.len() implies (#[trigger] tiles@[i]).0 * tile.x < span(
            config.x_range,
        ) && tiles@[i].1 * tile.z < span(config.z_range) by {
            lemma_tile_inside(tiles@[i].0 as int, sx as int, tile.x as int);
            lemma_tile_inside(tiles@[i].1 as int, sz as int, tile.z as int);
        }
    }
    assert((sx as u128) * (sz as u128) <= 0x1_0000_0000u128 * 0x1_0000_0000u128) by (nonlinear_arith)
        requires
            0 < sx <= 0x1_0000_0000,
            0 < sz <= 0x1_0000_0000,
    ;
    let xz: u128 = (sx as u128) * (sz as u128);
    assert(xz * (sy as u128) <= 0x1_0000_0000_0000_0000u128 * 0x1_0000_0000u128) by (nonlinear_arith)
        requires
            xz <= 0x1_0000_0000_0000_0000u128,
            0 < sy <= 0x1_0000_0000,
    ;
    let xzy: u128 = xz * (sy as u128);
    assert(xzy * (d as u128) <= 0x1_0000_0000_0000_0000_0000_0000u128 * 0x100_0000u128) by (nonlinear_arith)
        requires
            xzy <= 0x1_0000_0000_0000_0000_0000_0000u128,
            d <= 0x100_0000,
    ;
    let total: u128 = xzy * (d as u128);
    let (total_candidates, total_candidates_saturated) = if total > 0xffff_ffff_ffff_ffffu128 {
        (u64::MAX, true)
    } else {
        (total as u64, false)
    };
    let plan = ScanPlan {
        tiles,
        x_range: config.x_range,
        y_range: config.y_range,
        z_range: config.z_range,
        tile,
        directions: copy_directions(&config.directions),
        total_candidates,
        total_candidates_saturated,
    };
    Ok(plan)
}

/// Candidates in a work item, saturated at `u64::MAX`, and whether they had
/// to be.
pub fn candidate_count(item: &WorkItem) -> (count: (u64, bool))
    ensures
        count == saturated_count(item_candidates(*item)),
{
    let dx: u128 = if item.end.x > item.start.x {
        (item.end.x as i64 - item.start.x as i64) as u128
    } else {
        0
    };
    let dz: u128 = if item.end.z > item.start.z {
        (item.end.z as i64 - item.start.z as i64) as u128
    } else {
        0
    };
    let dy: u128 = if item.end.y > item.start.y {
        (item.end.y as i64 - item.start.y as i64) as u128
    } else {
        0
    };
    assert(dx * dz <= 0x1_0000_0000u128 * 0x1_0000_0000u128) by (nonlinear_arith)
        requires
            dx <= 0x1_0000_0000,
            dz <= 0x1_0000_0000,
    ;
    let xz: u128 = dx * dz;
    assert(xz * dy <= 0x1_0000_0000_0000_0000u128 * 0x1_0000_0000u128) by (nonlinear_arith)
        requires
            xz <= 0x1_0000_0000_0000_0000u128,
            dy <= 0x1_0000_0000,
    ;
    let total: u128 = xz * dy;
    if total > 0xffff_ffff_ffff_ffffu128 {
        (u64::MAX, true)
    } else {
        (total as u64, false)
    }
}

// ---------------------------------------------------------------------------
// Every tile once
// ---------------------------------------------------------------------------

/// How many times `tile` occurs in `tiles`.
pub open spec fn occurrences(tiles: Seq<(u32, u32)>, tile: (u32, u32)) -> nat
    decreases tiles.len(),
{
    if tiles.len() == 0 {
        0
    } else {
        occurrences(tiles.drop_last(), tile) + if tiles.last() == tile {
            1nat
        } else {
            0nat
        }
    }
}

proof fn lemma_occurrences_concat(a: Seq<(u32, u32)>, b: Seq<(u32, u32)>, tile: (u32, u32))
    ensures
        occurrences(a + b, tile) == occurrences(a, tile) + occurrences(b, tile),
    decreases b.len(),
{
    if b.len() > 0 {
        assert((a + b).drop_last() =~= a + b.drop_last());
        lemma_occurrences_concat(a, b.drop_last(), tile);
    } else {
        assert(a + b =~= a);
    }
}

proof fn lemma_column_occurrences(tx: int, rows: int, tile: (u32, u32))
    requires
        0 <= tx <= u32::MAX,
        0 <= rows <= u32::MAX + 1,
    ensures
        occurrences(column_tiles(tx, rows), tile) == if tile.0 == tx && tile.1 < rows {
            1nat
        } else {
            0nat
        },
    decreases rows,
{
    if rows > 0 {
        assert(column_tiles(tx, rows).drop_last() =~= column_tiles(tx, rows - 1));
        lemma_column_occurrences(tx, rows - 1, tile);
    }
}

proof fn lemma_linear_occurrences(count: nat, rows: int, tile: (u32, u32))
    requires
        count <= u32::MAX + 1,
        0 <= rows <= u32::MAX + 1,
    ensures
        occurrences(linear_tiles(count, rows), tile) == if tile.0 < count && tile.1 < rows {
            1nat
        } else {
            0nat
        },
    decreases count,
{
    if count > 0 {
        lemma_linear_occurrences((count - 1) as nat, rows, tile);
        lemma_occurrences_concat(
            linear_tiles((count - 1) as nat, rows),
            column_tiles(count - 1, rows),
            tile,
        );
        lemma_column_occurrences(count - 1, rows, tile);
    }
}

proof fn lemma_ring_filter_occurrences(tiles: Seq<(u32, u32)>, r: int, ox: int, oz: int, tile: (u32, u32))
    ensures
        occurrences(ring_filter(tiles, r, ox, oz), tile) == if ring_of(
            tile.0 as int,
            tile.1 as int,
            ox,
            oz,
        ) == r {
            occurrences(tiles, tile)
        } else {
            0
        },
    decreases tiles.len(),
{
    if tiles.len() > 0 {
        let rest = ring_filter(tiles.drop_last(), r, ox, oz);
        assert(rest.push(tiles.last()).drop_last() =~= rest);
        lemma_ring_filter_occurrences(tiles.drop_last(), r, ox, oz, tile);
    }
}

proof fn lemma_by_ring_occurrences(tiles: Seq<(u32, u32)>, count: nat, ox: int, oz: int, tile: (u32, u32))
    ensures
        occurrences(by_ring(tiles, count, ox, oz), tile) == if 0 <= ring_of(
            tile.0 as int,
            tile.1 as int,
            ox,
            oz,
        ) < count {
            occurrences(tiles, tile)
        } else {
            0
        },
    decreases count,
{
    if count > 0 {
        lemma_by_ring_occurrences(tiles, (count - 1) as nat, ox, oz, tile);
        lemma_occurrences_concat(
            by_ring(tiles, (count - 1) as nat, ox, oz),
            ring_filter(tiles, count - 1, ox, oz),
            tile,
        );
        lemma_ring_filter_occurrences(tiles, count - 1, ox, oz, tile);
    }
}

/// A plan visits every tile of its grid exactly once, in either order: the
/// tiles are the `columns` by `rows` grid that covers the area, each listed
/// once, and nothing else.
pub proof fn lemma_plan_visits_every_tile_once(config: ConfigView, tile: TileSize, visited: (u32, u32))
    requires
        plan_problem(config, tile) is None,
    ensures
        occurrences(planned(config, tile).tiles, visited) == if visited.0 < tile_count(
            span(config.x_range),
            tile.x as int,
        ) && visited.1 < tile_count(span(config.z_range), tile.z as int) {
            1nat
        } else {
            0nat
        },
{
    let cols = tile_count(span(config.x_range), tile.x as int);
    let rows = tile_count(span(config.z_range), tile.z as int);
    let d = config.directions.len() as int;
    vstd::arithmetic::div_mod::lemma_div_is_ordered(tile.x as int, span(config.x_range) + tile.x - 1, tile.x as int);
    vstd::arithmetic::div_mod::lemma_div_by_self(tile.x as int);
    vstd::arithmetic::div_mod::lemma_div_is_ordered(tile.z as int, span(config.z_range) + tile.z - 1, tile.z as int);
    vstd::arithmetic::div_mod::lemma_div_by_self(tile.z as int);
    assert(cols <= MAX_WORK_ITEMS && rows <= MAX_WORK_ITEMS) by (nonlinear_arith)
        requires
            cols >= 1,
            rows >= 1,
            d >= 1,
            cols * rows * d <= MAX_WORK_ITEMS,
    ;
    let ox = origin_tile(config.x_range.start as int, tile.x as int, cols);
    let oz = origin_tile(config.z_range.start as int, tile.z as int, rows);
    lemma_linear_occurrences(cols as nat, rows, visited);
    if config.scan_order == ScanOrder::Spiral {
        let rings = ring_total(cols, rows, ox, oz);
        lemma_by_ring_occurrences(linear_tiles(cols as nat, rows), rings as nat, ox, oz, visited);
    }
}

/// Whether a work item's box holds the candidate `(x, y, z)`.
pub open spec fn item_holds(item: WorkItem, x: int, y: int, z: int) -> bool {
    &&& item.start.x <= x < item.end.x
    &&& item.start.y <= y < item.end.y
    &&& item.start.z <= z < item.end.z
}

proof fn lemma_occurrence_index(tiles: Seq<(u32, u32)>, tile: (u32, u32))
    requires
        occurrences(tiles, tile) == 1,
    ensures
        exists|i: int| 0 <= i < tiles.len() && tiles[i] == tile,
        forall|i: int, j: int|
            0 <= i < tiles.len() && 0 <= j < tiles.len() && tiles[i] == tile && tiles[j] == tile
                ==> i == j,
    decreases tiles.len(),
{
    let rest = tiles.drop_last();
    if tiles.last() == tile {
        lemma_no_occurrence(rest, tile);
        assert(tiles[tiles.len() - 1] == tile);
        assert forall|i: int, j: int|
            0 <= i < tiles.len() && 0 <= j < tiles.len() && tiles[i] == tile && tiles[j] == tile
                implies i == j by {
            if i < tiles.len() - 1 {
                assert(rest[i] == tile);
            }
            if j < tiles.len() - 1 {
                assert(rest[j] == tile);
            }
        }
    } else {
        lemma_occurrence_index(rest, tile);
        let k = choose|i: int| 0 <= i < rest.len() && rest[i] == tile;
        assert(tiles[k] == tile);
        assert forall|i: int, j: int|
            0 <= i < tiles.len() && 0 <= j < tiles.len() && tiles[i] == tile && tiles[j] == tile
                implies i == j by {
            assert(i < tiles.len() - 1 && j < tiles.len() - 1);
            assert(rest[i] == tile && rest[j] == tile);
        }
    }
}

proof fn lemma_no_occurrence(tiles: Seq<(u32, u32)>, tile: (u32, u32))
    requires
        occurrences(tiles, tile) == 0,
    ensures
        forall|i: int| 0 <= i < tiles.len() ==> tiles[i] != tile,
    decreases tiles.len(),
{
    if tiles.len() > 0 {
        lemma_no_occurrence(tiles.drop_last(), tile);
        assert forall|i: int| 0 <= i < tiles.len() implies tiles[i] != tile by {
            if i < tiles.len() - 1 {
                assert(tiles[i] == tiles.drop_last()[i]);
            }
        }
    }
}

/// Along one axis, `v` lies in tile `t` exactly when `t` is the tile index
/// of `v`.
proof fn lemma_tile_of(v: int, start: int, size: int, t: int)
    requires
        size >= 1,
        start <= v,
        t >= 0,
    ensures
        (start + t * size <= v < start + t * size + size) <==> t == (v - start) / size,
{
    vstd::arithmetic::div_mod::lemma_fundamental_div_mod(v - start, size);
    vstd::arithmetic::div_mod::lemma_mod_bound(v - start, size);
    let q = (v - start) / size;
    let r = (v - start) % size;
    if start + t * size <= v < start + t * size + size {
        assert(t == q) by (nonlinear_arith)
            requires
                size >= 1,
                v - start == size * q + r,
                0 <= r < size,
                t * size <= v - start < t * size + size,
        ;
    }
    if t == q {
        assert(start + t * size <= v < start + t * size + size) by (nonlinear_arith)
            requires
                size >= 1,
                v - start == size * q + r,
                0 <= r < size,
                t == q,
        ;
    }
}

proof fn lemma_occurs_at(tiles: Seq<(u32, u32)>, i: int)
    requires
        0 <= i < tiles.len(),
    ensures
        occurrences(tiles, tiles[i]) >= 1,
    decreases tiles.len(),
{
    if i < tiles.len() - 1 {
        assert(tiles.drop_last()[i] == tiles[i]);
        lemma_occurs_at(tiles.drop_last(), i);
    }
}

/// Every tile of a plan lies in its grid.
proof fn lemma_plan_tile_in_grid(config: ConfigView, tile: TileSize, i: int)
    requires
        plan_problem(config, tile) is None,
        0 <= i < planned(config, tile).tiles.len(),
    ensures
        planned(config, tile).tiles[i].0 < tile_count(span(config.x_range), tile.x as int),
        planned(config, tile).tiles[i].1 < tile_count(span(config.z_range), tile.z as int),
{
    let tiles = planned(config, tile).tiles;
    lemma_occurs_at(tiles, i);
    lemma_plan_visits_every_tile_once(config, tile, tiles[i]);
}

/// The box of work item `n` along X and Z.
proof fn lemma_item_box(config: ConfigView, tile: TileSize, n: int)
    requires
        plan_problem(config, tile) is None,
        0 <= n < item_total(planned(config, tile)),
    ensures
        ({
            let plan = planned(config, tile);
            let d = config.directions.len() as int;
            let (a, b) = plan.tiles[n / d];
            let item = item_at(plan, n);
            &&& 0 <= n / d < plan.tiles.len()
            &&& item.start.x == config.x_range.start + a * tile.x
            &&& item.end.x == smaller(config.x_range.start + a * tile.x + tile.x, config.x_range.end as int)
            &&& item.start.z == config.z_range.start + b * tile.z
            &&& item.end.z == smaller(config.z_range.start + b * tile.z + tile.z, config.z_range.end as int)
            &&& item.start.y == config.y_range.start && item.end.y == config.y_range.end
            &&& item.direction_index == n % d
            &&& 0 <= n % d < d
        }),
{
    let plan = planned(config, tile);
    let d = config.directions.len() as int;
    vstd::arithmetic::div_mod::lemma_div_pos_is_pos(n, d);
    vstd::arithmetic::div_mod::lemma_mod_bound(n, d);
    vstd::arithmetic::div_mod::lemma_fundamental_div_mod(n, d);
    let t = n / d;
    assert(t < plan.tiles.len()) by {
        if t >= plan.tiles.len() {
            assert(d * t >= plan.tiles.len() * d) by (nonlinear_arith)
                requires
                    t >= plan.tiles.len(),
                    d >= 1,
            ;
        }
    }
    lemma_plan_tile_in_grid(config, tile, t);
    let (a, b) = plan.tiles[t];
    lemma_tile_inside(a as int, span(config.x_range), tile.x as int);
    lemma_tile_inside(b as int, span(config.z_range), tile.z as int);
    assert(a * tile.x >= 0 && b * tile.z >= 0) by (nonlinear_arith)
        requires
            tile.x >= 1,
            tile.z >= 1,
    ;
    let cols = tile_count(span(config.x_range), tile.x as int);
    let rows = tile_count(span(config.z_range), tile.z as int);
    vstd::arithmetic::div_mod::lemma_div_is_ordered(tile.x as int, span(config.x_range) + tile.x - 1, tile.x as int);
    vstd::arithmetic::div_mod::lemma_div_by_self(tile.x as int);
    vstd::arithmetic::div_mod::lemma_div_is_ordered(tile.z as int, span(config.z_range) + tile.z - 1, tile.z as int);
    vstd::arithmetic::div_mod::lemma_div_by_self(tile.z as int);
    assert(d <= MAX_WORK_ITEMS) by (nonlinear_arith)
        requires
            cols >= 1,
            rows >= 1,
            d >= 1,
            cols * rows * d <= MAX_WORK_ITEMS,
    ;
    let item = item_at(plan, n);
    assert(item.start.x == config.x_range.start + a * tile.x);
    assert(item.end.x == smaller(config.x_range.start + a * tile.x + tile.x, config.x_range.end as int));
    assert(item.start.z == config.z_range.start + b * tile.z);
    assert(item.end.z == smaller(config.z_range.start + b * tile.z + tile.z, config.z_range.end as int));
    assert(item.direction_index == n % d);
}

/// A work item whose box holds `(x, z)` sits on the tile `target` that
/// holds it.
proof fn lemma_item_tile(config: ConfigView, tile: TileSize, n: int, x: int, z: int, target: (u32, u32))
    requires
        plan_problem(config, tile) is None,
        0 <= n < item_total(planned(config, tile)),
        config.x_range.start <= x < config.x_range.end,
        config.z_range.start <= z < config.z_range.end,
        target.0 == (x - config.x_range.start) / (tile.x as int),
        target.1 == (z - config.z_range.start) / (tile.z as int),
        item_at(planned(config, tile), n).start.x <= x < item_at(planned(config, tile), n).end.x,
        item_at(planned(config, tile), n).start.z <= z < item_at(planned(config, tile), n).end.z,
    ensures
        planned(config, tile).tiles[n / (config.directions.len() as int)] == target,
{
    let plan = planned(config, tile);
    let d = config.directions.len() as int;
    lemma_item_box(config, tile, n);
    let (a, b) = plan.tiles[n / d];
    lemma_tile_of(x, config.x_range.start as int, tile.x as int, a as int);
    lemma_tile_of(z, config.z_range.start as int, tile.z as int, b as int);
}

proof fn lemma_tile_index_in_range(offset: int, length: int, size: int)
    requires
        0 <= offset < length,
        size >= 1,
    ensures
        0 <= offset / size < tile_count(length, size),
{
    vstd::arithmetic::div_mod::lemma_div_pos_is_pos(offset, size);
    vstd::arithmetic::div_mod::lemma_fundamental_div_mod(offset, size);
    vstd::arithmetic::div_mod::lemma_mod_bound(offset, size);
    vstd::arithmetic::div_mod::lemma_fundamental_div_mod(length + size - 1, size);
    vstd::arithmetic::div_mod::lemma_mod_bound(length + size - 1, size);
    let q = offset / size;
    let r = offset % size;
    let c = (length + size - 1) / size;
    let r2 = (length + size - 1) % size;
    assert(q < c) by (nonlinear_arith)
        requires
            offset == size * q + r,
            0 <= r < size,
            length + size - 1 == size * c + r2,
            0 <= r2 < size,
            offset < length,
            size >= 1,
    ;
}

/// A plan scans every candidate of the area once at each direction: for
/// each candidate and each direction there is exactly one work item of that
/// direction whose box holds the candidate.
pub proof fn lemma_plan_covers_every_candidate(
    config: ConfigView,
    tile: TileSize,
    x: int,
    y: int,
    z: int,
    direction_index: int,
)
    requires
        plan_problem(config, tile) is None,
        config.x_range.start <= x < config.x_range.end,
        config.y_range.start <= y < config.y_range.end,
        config.z_range.start <= z < config.z_range.end,
        0 <= direction_index < config.directions.len(),
    ensures
        exists|n: int|
            0 <= n < item_total(planned(config, tile)) && #[trigger] item_at(planned(config, tile), n).direction_index
                == direction_index && item_holds(item_at(planned(config, tile), n), x, y, z),
        forall|m: int, n: int|
            0 <= m < item_total(planned(config, tile)) && 0 <= n < item_total(planned(config, tile))
                && #[trigger] item_at(planned(config, tile), m).direction_index == direction_index
                && #[trigger] item_at(planned(config, tile), n).direction_index == direction_index
                && item_holds(item_at(planned(config, tile), m), x, y, z) && item_holds(
                item_at(planned(config, tile), n),
                x,
                y,
                z,
            ) ==> m == n,
{
    let plan = planned(config, tile);
    let d = config.directions.len() as int;
    let sx = tile.x as int;
    let sz = tile.z as int;
    let xs = config.x_range.start as int;
    let zs = config.z_range.start as int;
    let tx = (x - xs) / sx;
    let tz = (z - zs) / sz;
    let cols = tile_count(span(config.x_range), sx);
    let rows = tile_count(span(config.z_range), sz);
    // The candidate's tile is in the grid.
    vstd::arithmetic::div_mod::lemma_div_pos_is_pos(x - xs, sx);
    vstd::arithmetic::div_mod::lemma_div_pos_is_pos(z - zs, sz);
    vstd::arithmetic::div_mod::lemma_div_is_ordered(x - xs, span(config.x_range) + sx - 1, sx);
    vstd::arithmetic::div_mod::lemma_div_is_ordered(z - zs, span(config.z_range) + sz - 1, sz);
    lemma_tile_of(x, xs, sx, tx);
    lemma_tile_of(z, zs, sz, tz);
    lemma_tile_index_in_range(x - xs, span(config.x_range), sx);
    lemma_tile_index_in_range(z - zs, span(config.z_range), sz);
    assert(cols <= MAX_WORK_ITEMS && rows <= MAX_WORK_ITEMS) by {
        vstd::arithmetic::div_mod::lemma_div_is_ordered(sx, span(config.x_range) + sx - 1, sx);
        vstd::arithmetic::div_mod::lemma_div_by_self(sx);
        vstd::arithmetic::div_mod::lemma_div_is_ordered(sz, span(config.z_range) + sz - 1, sz);
        vstd::arithmetic::div_mod::lemma_div_by_self(sz);
        assert(cols <= MAX_WORK_ITEMS && rows <= MAX_WORK_ITEMS) by (nonlinear_arith)
            requires
                cols >= 1,
                rows >= 1,
                d >= 1,
                cols * rows * d <= MAX_WORK_ITEMS,
        ;
    }
    let target: (u32, u32) = (tx as u32, tz as u32);
    lemma_plan_visits_every_tile_once(config, tile, target);
    lemma_occurrence_index(plan.tiles, target);
    let t = choose|i: int| 0 <= i < plan.tiles.len() && plan.tiles[i] == target;
    // Item `t * d + direction_index` is the one.
    let n = t * d + direction_index;
    assert(0 <= n < item_total(plan)) by {
        assert(t * d + direction_index < (t + 1) * d) by (nonlinear_arith)
            requires
                direction_index < d,
        ;
        assert((t + 1) * d <= plan.tiles.len() * d) by (nonlinear_arith)
            requires
                t + 1 <= plan.tiles.len(),
                d >= 1,
        ;
        assert(t * d >= 0) by (nonlinear_arith)
            requires
                t >= 0,
                d >= 1,
        ;
    }
    vstd::arithmetic::div_mod::lemma_fundamental_div_mod_converse(n, d, t, direction_index);
    let item = item_at(plan, n);
    lemma_item_box(config, tile, n);
    assert(item.direction_index == direction_index);
    assert(item_holds(item, x, y, z));
    // No other item of that direction holds it.
    assert forall|m: int, k: int|
        0 <= m < item_total(plan) && 0 <= k < item_total(plan)
            && #[trigger] item_at(plan, m).direction_index == direction_index
            && #[trigger] item_at(plan, k).direction_index == direction_index && item_holds(
            item_at(plan, m),
            x,
            y,
            z,
        ) && item_holds(item_at(plan, k), x, y, z) implies m == k by {
        lemma_item_box(config, tile, m);
        lemma_item_box(config, tile, k);
        lemma_item_tile(config, tile, m, x, z, target);
        lemma_item_tile(config, tile, k, x, z, target);
        vstd::arithmetic::div_mod::lemma_fundamental_div_mod(m, d);
        vstd::arithmetic::div_mod::lemma_fundamental_div_mod(k, d);
        assert(m / d == t && k / d == t);
    }
}

/// The ring of a tile, as a pair.
pub open spec fn tile_ring(tile: (u32, u32), ox: int, oz: int) -> int {
    ring_of(tile.0 as int, tile.1 as int, ox, oz)
}

proof fn lemma_ring_filter_ring(tiles: Seq<(u32, u32)>, r: int, ox: int, oz: int)
    ensures
        forall|k: int|
            0 <= k < ring_filter(tiles, r, ox, oz).len() ==> tile_ring(
                #[trigger] ring_filter(tiles, r, ox, oz)[k],
                ox,
                oz,
            ) == r,
    decreases tiles.len(),
{
    if tiles.len() > 0 {
        lemma_ring_filter_ring(tiles.drop_last(), r, ox, oz);
        let rest = ring_filter(tiles.drop_last(), r, ox, oz);
        assert forall|k: int|
            0 <= k < ring_filter(tiles, r, ox, oz).len() implies tile_ring(
            #[trigger] ring_filter(tiles, r, ox, oz)[k],
            ox,
            oz,
        ) == r by {
            if k < rest.len() {
                assert(ring_filter(tiles, r, ox, oz)[k] == rest[k]);
            }
        }
    }
}

proof fn lemma_by_ring_order(tiles: Seq<(u32, u32)>, count: nat, ox: int, oz: int)
    ensures
        forall|k: int|
            0 <= k < by_ring(tiles, count, ox, oz).len() ==> tile_ring(
                #[trigger] by_ring(tiles, count, ox, oz)[k],
                ox,
                oz,
            ) < count,
        forall|i: int, j: int|
            0 <= i < j < by_ring(tiles, count, ox, oz).len() ==> tile_ring(
                #[trigger] by_ring(tiles, count, ox, oz)[i],
                ox,
                oz,
            ) <= tile_ring(#[trigger] by_ring(tiles, count, ox, oz)[j], ox, oz),
    decreases count,
{
    if count > 0 {
        let before = by_ring(tiles, (count - 1) as nat, ox, oz);
        let ring = ring_filter(tiles, count - 1, ox, oz);
        let all = by_ring(tiles, count, ox, oz);
        lemma_by_ring_order(tiles, (count - 1) as nat, ox, oz);
        lemma_ring_filter_ring(tiles, count - 1, ox, oz);
        assert(all == before + ring);
        assert forall|k: int| 0 <= k < all.len() implies tile_ring(#[trigger] all[k], ox, oz)
            < count by {
            if k < before.len() {
                assert(all[k] == before[k]);
            } else {
                assert(all[k] == ring[k - before.len()]);
            }
        }
        assert forall|i: int, j: int| 0 <= i < j < all.len() implies tile_ring(
            #[trigger] all[i],
            ox,
            oz,
        ) <= tile_ring(#[trigger] all[j], ox, oz) by {
            if j < before.len() {
                assert(all[i] == before[i] && all[j] == before[j]);
            } else if i >= before.len() {
                assert(all[i] == ring[i - before.len()] && all[j] == ring[j - before.len()]);
            } else {
                assert(all[i] == before[i] && all[j] == ring[j - before.len()]);
            }
        }
    }
}

/// A spiral plan works outwards from the tile holding the origin, nearest
/// tiles first: the Chebyshev ring of the tiles it visits never decreases.
pub proof fn lemma_spiral_visits_nearest_first(config: ConfigView, tile: TileSize, i: int, j: int)
    requires
        plan_problem(config, tile) is None,
        config.scan_order == ScanOrder::Spiral,
        0 <= i < j < planned(config, tile).tiles.len(),
    ensures
        ({
            let cols = tile_count(span(config.x_range), tile.x as int);
            let rows = tile_count(span(config.z_range), tile.z as int);
            let ox = origin_tile(config.x_range.start as int, tile.x as int, cols);
            let oz = origin_tile(config.z_range.start as int, tile.z as int, rows);
            let tiles = planned(config, tile).tiles;
            tile_ring(tiles[i], ox, oz) <= tile_ring(tiles[j], ox, oz)
        }),
{
    let cols = tile_count(span(config.x_range), tile.x as int);
    let rows = tile_count(span(config.z_range), tile.z as int);
    let ox = origin_tile(config.x_range.start as int, tile.x as int, cols);
    let oz = origin_tile(config.z_range.start as int, tile.z as int, rows);
    lemma_by_ring_order(linear_tiles(cols as nat, rows), ring_total(cols, rows, ox, oz) as nat, ox, oz);
    let tiles = planned(config, tile).tiles;
    assert(tiles == by_ring(
        linear_tiles(cols as nat, rows),
        ring_total(cols, rows, ox, oz) as nat,
        ox,
        oz,
    ));
}

/// A spiral plan starts at the tile holding the origin (the tile nearest
/// it, when the area does not hold it).
pub proof fn lemma_spiral_starts_at_origin(config: ConfigView, tile: TileSize)
    requires
        plan_problem(config, tile) is None,
        config.scan_order == ScanOrder::Spiral,
    ensures
        ({
            let cols = tile_count(span(config.x_range), tile.x as int);
            let rows = tile_count(span(config.z_range), tile.z as int);
            let ox = origin_tile(config.x_range.start as int, tile.x as int, cols);
            let oz = origin_tile(config.z_range.start as int, tile.z as int, rows);
            planned(config, tile).tiles.len() > 0 && planned(config, tile).tiles[0] == (
            ox as u32,
            oz as u32,
            )
        }),
{
    let cols = tile_count(span(config.x_range), tile.x as int);
    let rows = tile_count(span(config.z_range), tile.z as int);
    let ox = origin_tile(config.x_range.start as int, tile.x as int, cols);
    let oz = origin_tile(config.z_range.start as int, tile.z as int, rows);
    let tiles = planned(config, tile).tiles;
    let origin = (ox as u32, oz as u32);
    vstd::arithmetic::div_mod::lemma_div_is_ordered(tile.x as int, span(config.x_range) + tile.x - 1, tile.x as int);
    vstd::arithmetic::div_mod::lemma_div_by_self(tile.x as int);
    vstd::arithmetic::div_mod::lemma_div_is_ordered(tile.z as int, span(config.z_range) + tile.z - 1, tile.z as int);
    vstd::arithmetic::div_mod::lemma_div_by_self(tile.z as int);
    assert(cols >= 1 && rows >= 1);
    assert(cols * rows * config.directions.len() <= MAX_WORK_ITEMS);
    assert(cols <= MAX_WORK_ITEMS && rows <= MAX_WORK_ITEMS) by (nonlinear_arith)
        requires
            cols >= 1,
            rows >= 1,
            config.directions.len() >= 1,
            cols * rows * config.directions.len() <= MAX_WORK_ITEMS,
    ;
    assert(0 <= ox < cols) by {
        if config.x_range.start < 0 && (-config.x_range.start) / (tile.x as int) < cols {
            vstd::arithmetic::div_mod::lemma_div_pos_is_pos(-config.x_range.start, tile.x as int);
        }
    }
    assert(0 <= oz < rows) by {
        if config.z_range.start < 0 && (-config.z_range.start) / (tile.z as int) < rows {
            vstd::arithmetic::div_mod::lemma_div_pos_is_pos(-config.z_range.start, tile.z as int);
        }
    }
    lemma_plan_visits_every_tile_once(config, tile, origin);
    lemma_occurrence_index(tiles, origin);
    let i = choose|i: int| 0 <= i < tiles.len() && tiles[i] == origin;
    if i > 0 {
        lemma_spiral_visits_nearest_first(config, tile, 0, i);
    }
    assert(tile_ring(tiles[0], ox, oz) == 0);
}

/// Two work items of one direction never hold the same candidate.
pub proof fn lemma_one_item_per_candidate(
    config: ConfigView,
    tile: TileSize,
    n: int,
    j: int,
    x: int,
    y: int,
    z: int,
)
    requires
        plan_problem(config, tile) is None,
        0 <= n < item_total(planned(config, tile)),
        0 <= j < item_total(planned(config, tile)),
        item_at(planned(config, tile), n).direction_index == item_at(
            planned(config, tile),
            j,
        ).direction_index,
        item_holds(item_at(planned(config, tile), n), x, y, z),
        item_holds(item_at(planned(config, tile), j), x, y, z),
    ensures
        n == j,
{
    let plan = planned(config, tile);
    let d = config.directions.len() as int;
    lemma_item_box(config, tile, n);
    let (a, b) = plan.tiles[n / d];
    assert(a * tile.x >= 0 && b * tile.z >= 0) by (nonlinear_arith)
        requires
            tile.x >= 1,
            tile.z >= 1,
    ;
    lemma_plan_covers_every_candidate(
        config,
        tile,
        x,
        y,
        z,
        item_at(plan, n).direction_index as int,
    );
}

} // verus!
