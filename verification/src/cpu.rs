//! CPU search backend: the per-candidate mismatch count, the scan of one work
//! item, and a scan of a whole plan in work-item order.

use vstd::prelude::*;
use vstd::wrapping::i32_specs;

use crate::config::{ConfigView, ScanConfig, TileSize};
use crate::filter::{
    failure_message, has_index, prepare_filters, prepared_filters, rotations_fit, FiltersPlan,
};
use crate::scan::{
    candidate_count, item_at, item_candidates, item_holds, lemma_one_item_per_candidate, plan_problem,
    planned, item_total, saturated_count, PlanView, ScanPlan,
    WorkItem,
};
use crate::texture::{texture_variant, Sodium1, Sodium2, TextureSampler, Vanilla1, Vanilla2, Vanilla3};
use crate::types::{CompiledRotation, Match, TextureAlgorithm};

verus! {

/// The 16-way model index at a candidate plus a constraint's offset; the
/// additions wrap like Java `int` arithmetic.
pub open spec fn index_at(algorithm: TextureAlgorithm, x: i32, y: i32, z: i32, c: CompiledRotation) -> int {
    texture_variant(
        algorithm,
        i32_specs::wrapping_add(x, c.x as i32),
        i32_specs::wrapping_add(y, c.y as i32),
        i32_specs::wrapping_add(z, c.z as i32),
        16,
    )
}

/// Whether a constraint holds at a candidate.
pub open spec fn satisfied(algorithm: TextureAlgorithm, x: i32, y: i32, z: i32, c: CompiledRotation) -> bool {
    has_index(c.accepted_indices, index_at(algorithm, x, y, z, c))
}

/// The mismatch count after the first `k` constraints, and whether counting
/// has stopped: it stops at the first mismatch that takes the count past
/// `tolerance`.
pub open spec fn tally(
    algorithm: TextureAlgorithm,
    x: i32,
    y: i32,
    z: i32,
    filter: Seq<CompiledRotation>,
    forced_errors: i32,
    tolerance: i32,
    k: nat,
) -> (int, bool)
    decreases k,
{
    if k == 0 {
        (forced_errors as int, false)
    } else {
        let (count, stopped) = tally(algorithm, x, y, z, filter, forced_errors, tolerance, (k - 1) as nat);
        if stopped || satisfied(algorithm, x, y, z, filter[k - 1]) {
            (count, stopped)
        } else {
            (count + 1, count + 1 > tolerance)
        }
    }
}

/// The mismatch count a candidate reports.
pub open spec fn mismatch_count(
    algorithm: TextureAlgorithm,
    x: i32,
    y: i32,
    z: i32,
    filter: Seq<CompiledRotation>,
    forced_errors: i32,
    tolerance: i32,
) -> int {
    tally(algorithm, x, y, z, filter, forced_errors, tolerance, filter.len()).0
}

/// How many of the first `k` constraints fail at a candidate.
pub open spec fn unmet(
    algorithm: TextureAlgorithm,
    x: i32,
    y: i32,
    z: i32,
    filter: Seq<CompiledRotation>,
    k: nat,
) -> int
    decreases k,
{
    if k == 0 {
        0
    } else {
        unmet(algorithm, x, y, z, filter, (k - 1) as nat) + if satisfied(
            algorithm,
            x,
            y,
            z,
            filter[k - 1],
        ) {
            0int
        } else {
            1int
        }
    }
}

fn count_mismatches<A: TextureSampler>(
    x: i32,
    y: i32,
    z: i32,
    filter: &[CompiledRotation],
    forced_errors: i32,
    tolerance: i32,
) -> (count: i64)
    ensures
        count == mismatch_count(A::algorithm(), x, y, z, filter@, forced_errors, tolerance),
{
    let mut mismatches: i64 = forced_errors as i64;
    let mut stopped = false;
    let mut index: usize = 0;
    while index < filter.len() && !stopped
        invariant
            index <= filter@.len(),
            (mismatches as int, stopped) == tally(
                A::algorithm(),
                x,
                y,
                z,
                filter@,
                forced_errors,
                tolerance,
                index as nat,
            ),
            mismatches <= (if forced_errors >= tolerance {
                forced_errors as int
            } else {
                tolerance as int
            }) + 1,
            !stopped ==> mismatches <= (if forced_errors >= tolerance {
                forced_errors as int
            } else {
                tolerance as int
            }),
        decreases filter@.len() - index,
    {
        let sample = filter[index];
        // Minecraft performs these additions as wrapping Java int operations.
        let variant = A::sample(
            x.wrapping_add(sample.x as i32),
            y.wrapping_add(sample.y as i32),
            z.wrapping_add(sample.z as i32),
            16,
        );
        let accepted = sample.accepted_indices & (1u16 << (variant as u16)) != 0;
        if !accepted {
            mismatches = mismatches + 1;
            stopped = mismatches > tolerance as i64;
        }
        index = index + 1;
    }
    proof {
        lemma_tally_stops(A::algorithm(), x, y, z, filter@, forced_errors, tolerance, index as nat);
    }
    mismatches
}

/// Once counting has stopped, later constraints change nothing.
proof fn lemma_tally_stops(
    algorithm: TextureAlgorithm,
    x: i32,
    y: i32,
    z: i32,
    filter: Seq<CompiledRotation>,
    forced_errors: i32,
    tolerance: i32,
    k: nat,
)
    requires
        k <= filter.len(),
        tally(algorithm, x, y, z, filter, forced_errors, tolerance, k).1 || k == filter.len(),
    ensures
        tally(algorithm, x, y, z, filter, forced_errors, tolerance, filter.len()) == tally(
            algorithm,
            x,
            y,
            z,
            filter,
            forced_errors,
            tolerance,
            k,
        ),
    decreases filter.len() - k,
{
    if k < filter.len() {
        lemma_tally_stops(algorithm, x, y, z, filter, forced_errors, tolerance, k + 1);
    }
}

proof fn lemma_tally(
    algorithm: TextureAlgorithm,
    x: i32,
    y: i32,
    z: i32,
    filter: Seq<CompiledRotation>,
    forced_errors: i32,
    tolerance: i32,
    k: nat,
)
    requires
        k <= filter.len(),
    ensures
        ({
            let (count, stopped) = tally(algorithm, x, y, z, filter, forced_errors, tolerance, k);
            let full = forced_errors + unmet(algorithm, x, y, z, filter, k);
            &&& !stopped ==> count == full
            &&& stopped ==> tolerance < count <= full
        }),
    decreases k,
{
    if k > 0 {
        lemma_tally(algorithm, x, y, z, filter, forced_errors, tolerance, (k - 1) as nat);
    }
}

/// Stopping the count early never changes whether a candidate matches, nor
/// the count a match reports: the count is within the tolerance exactly when
/// the forced errors plus every failed constraint are, and then equals them.
pub proof fn lemma_early_stop_is_exact(
    algorithm: TextureAlgorithm,
    x: i32,
    y: i32,
    z: i32,
    filter: Seq<CompiledRotation>,
    forced_errors: i32,
    tolerance: i32,
)
    ensures
        (mismatch_count(algorithm, x, y, z, filter, forced_errors, tolerance) <= tolerance) <==> (
        forced_errors + unmet(algorithm, x, y, z, filter, filter.len()) <= tolerance),
        mismatch_count(algorithm, x, y, z, filter, forced_errors, tolerance) <= tolerance
            ==> mismatch_count(algorithm, x, y, z, filter, forced_errors, tolerance)
            == forced_errors + unmet(algorithm, x, y, z, filter, filter.len()),
{
    lemma_tally(algorithm, x, y, z, filter, forced_errors, tolerance, filter.len());
}

// ---------------------------------------------------------------------------
// One work item
// ---------------------------------------------------------------------------

/// What a scan of one work item compares candidates against.
pub struct Probe {
    pub algorithm: TextureAlgorithm,
    pub filter: Seq<CompiledRotation>,
    pub forced_errors: i32,
    pub tolerance: i32,
    pub direction: i32,
}

/// The match a candidate yields, if its count is within the tolerance.
pub open spec fn candidate_match(probe: Probe, x: i32, y: i32, z: i32) -> Seq<Match> {
    let count = mismatch_count(
        probe.algorithm,
        x,
        y,
        z,
        probe.filter,
        probe.forced_errors,
        probe.tolerance,
    );
    if count <= probe.tolerance {
        seq![Match { x, y, z, mismatches: count as i32, direction: probe.direction }]
    } else {
        Seq::empty()
    }
}

/// The matches of column `(x, z)` over the `n` layers from `y0` up.
pub open spec fn column_matches(probe: Probe, x: i32, z: i32, y0: i32, n: nat) -> Seq<Match>
    decreases n,
{
    if n == 0 {
        Seq::empty()
    } else {
        column_matches(probe, x, z, y0, (n - 1) as nat) + candidate_match(
            probe,
            x,
            (y0 + n - 1) as i32,
            z,
        )
    }
}

/// The matches of the first `n` columns at `x` of a work item, `z` ascending.
pub open spec fn row_matches(probe: Probe, item: WorkItem, x: i32, n: nat) -> Seq<Match>
    decreases n,
{
    if n == 0 {
        Seq::empty()
    } else {
        row_matches(probe, item, x, (n - 1) as nat) + column_matches(
            probe,
            x,
            (item.start.z + n - 1) as i32,
            item.start.y,
            crate::scan::extent(item.start.y, item.end.y) as nat,
        )
    }
}

/// The matches of the first `n` values of `x` of a work item.
pub open spec fn item_matches_upto(probe: Probe, item: WorkItem, n: nat) -> Seq<Match>
    decreases n,
{
    if n == 0 {
        Seq::empty()
    } else {
        item_matches_upto(probe, item, (n - 1) as nat) + row_matches(
            probe,
            item,
            (item.start.x + n - 1) as i32,
            crate::scan::extent(item.start.z, item.end.z) as nat,
        )
    }
}

/// Every match of a work item, `x`-major, then `z`, then `y`; none when the
/// forced errors alone exceed the tolerance.
pub open spec fn item_matches(probe: Probe, item: WorkItem) -> Seq<Match> {
    if probe.forced_errors > probe.tolerance {
        Seq::empty()
    } else {
        item_matches_upto(probe, item, crate::scan::extent(item.start.x, item.end.x) as nat)
    }
}

/// The matches found before a cancelled scan stopped at a column boundary.
pub open spec fn partial_matches(probe: Probe, item: WorkItem, found: Seq<Match>) -> bool {
    exists|nx: nat, nz: nat|
        nx < crate::scan::extent(item.start.x, item.end.x) && nz < crate::scan::extent(
            item.start.z,
            item.end.z,
        ) && found == #[trigger] item_matches_upto(probe, item, nx) + #[trigger] row_matches(
            probe,
            item,
            (item.start.x + nx) as i32,
            nz,
        )
}

/// The probe of a work item's direction.
pub open spec fn probe_of(
    algorithm: TextureAlgorithm,
    filter: Seq<CompiledRotation>,
    forced_errors: i32,
    tolerance: i32,
    direction: i32,
) -> Probe {
    Probe { algorithm, filter, forced_errors, tolerance, direction }
}

/// The forced errors plus every constraint a candidate fails.
pub open spec fn full_count(probe: Probe, x: i32, y: i32, z: i32) -> int {
    probe.forced_errors + unmet(probe.algorithm, x, y, z, probe.filter, probe.filter.len())
}

/// Whether `found` is the match of its own coordinate: that candidate's
/// full count is within the tolerance, and `found` reports that count and
/// the probe's direction.
pub open spec fn reports_match(probe: Probe, found: Match) -> bool {
    &&& full_count(probe, found.x, found.y, found.z) <= probe.tolerance
    &&& found.mismatches == full_count(probe, found.x, found.y, found.z)
    &&& found.direction == probe.direction
}

proof fn lemma_unmet_nonnegative(
    algorithm: TextureAlgorithm,
    x: i32,
    y: i32,
    z: i32,
    filter: Seq<CompiledRotation>,
    k: nat,
)
    ensures
        unmet(algorithm, x, y, z, filter, k) >= 0,
    decreases k,
{
    if k > 0 {
        lemma_unmet_nonnegative(algorithm, x, y, z, filter, (k - 1) as nat);
    }
}

proof fn lemma_concat_contains(a: Seq<Match>, b: Seq<Match>, m: Match)
    ensures
        (a + b).contains(m) <==> a.contains(m) || b.contains(m),
{
    if (a + b).contains(m) {
        let i = choose|i: int| 0 <= i < (a + b).len() && (a + b)[i] == m;
        if i < a.len() {
            assert(a[i] == m);
        } else {
            assert(b[i - a.len()] == m);
        }
    }
    if a.contains(m) {
        let i = choose|i: int| 0 <= i < a.len() && a[i] == m;
        assert((a + b)[i] == m);
    }
    if b.contains(m) {
        let i = choose|i: int| 0 <= i < b.len() && b[i] == m;
        assert((a + b)[a.len() + i] == m);
    }
}

proof fn lemma_candidate_contains(probe: Probe, x: i32, y: i32, z: i32, m: Match)
    ensures
        candidate_match(probe, x, y, z).contains(m) <==> (m.x == x && m.y == y && m.z == z
            && reports_match(probe, m)),
{
    lemma_early_stop_is_exact(
        probe.algorithm,
        x,
        y,
        z,
        probe.filter,
        probe.forced_errors,
        probe.tolerance,
    );
    let count = mismatch_count(
        probe.algorithm,
        x,
        y,
        z,
        probe.filter,
        probe.forced_errors,
        probe.tolerance,
    );
    if count <= probe.tolerance {
        lemma_unmet_nonnegative(probe.algorithm, x, y, z, probe.filter, probe.filter.len());
        let only = Match { x, y, z, mismatches: count as i32, direction: probe.direction };
        assert(candidate_match(probe, x, y, z) == seq![only]);
        assert(seq![only][0] == only);
        if candidate_match(probe, x, y, z).contains(m) {
            let i = choose|i: int| 0 <= i < 1 && seq![only][i] == m;
        }
    }
}

proof fn lemma_column_contains(probe: Probe, x: i32, z: i32, y0: i32, n: nat, m: Match)
    requires
        y0 + n <= i32::MAX + 1,
    ensures
        column_matches(probe, x, z, y0, n).contains(m) <==> (m.x == x && m.z == z && y0 <= m.y
            < y0 + n && reports_match(probe, m)),
    decreases n,
{
    if n > 0 {
        lemma_column_contains(probe, x, z, y0, (n - 1) as nat, m);
        lemma_concat_contains(
            column_matches(probe, x, z, y0, (n - 1) as nat),
            candidate_match(probe, x, (y0 + n - 1) as i32, z),
            m,
        );
        lemma_candidate_contains(probe, x, (y0 + n - 1) as i32, z, m);
    }
}

proof fn lemma_row_contains(probe: Probe, item: WorkItem, x: i32, n: nat, m: Match)
    requires
        item.start.z + n <= i32::MAX + 1,
    ensures
        row_matches(probe, item, x, n).contains(m) <==> (m.x == x && item.start.z <= m.z
            < item.start.z + n && item.start.y <= m.y < item.start.y + crate::scan::extent(
            item.start.y,
            item.end.y,
        ) && reports_match(probe, m)),
    decreases n,
{
    if n > 0 {
        lemma_row_contains(probe, item, x, (n - 1) as nat, m);
        let zn = (item.start.z + n - 1) as i32;
        let ny = crate::scan::extent(item.start.y, item.end.y) as nat;
        lemma_concat_contains(
            row_matches(probe, item, x, (n - 1) as nat),
            column_matches(probe, x, zn, item.start.y, ny),
            m,
        );
        lemma_column_contains(probe, x, zn, item.start.y, ny, m);
    }
}

proof fn lemma_upto_contains(probe: Probe, item: WorkItem, n: nat, m: Match)
    requires
        item.start.x + n <= i32::MAX + 1,
    ensures
        item_matches_upto(probe, item, n).contains(m) <==> (item.start.x <= m.x < item.start.x + n
            && item.start.z <= m.z < item.start.z + crate::scan::extent(item.start.z, item.end.z)
            && item.start.y <= m.y < item.start.y + crate::scan::extent(item.start.y, item.end.y)
            && reports_match(probe, m)),
    decreases n,
{
    if n > 0 {
        lemma_upto_contains(probe, item, (n - 1) as nat, m);
        let xn = (item.start.x + n - 1) as i32;
        let nz = crate::scan::extent(item.start.z, item.end.z) as nat;
        lemma_concat_contains(
            item_matches_upto(probe, item, (n - 1) as nat),
            row_matches(probe, item, xn, nz),
            m,
        );
        lemma_row_contains(probe, item, xn, nz, m);
    }
}

proof fn lemma_concat_distinct(a: Seq<Match>, b: Seq<Match>)
    requires
        a.no_duplicates(),
        b.no_duplicates(),
        forall|m: Match| a.contains(m) ==> !b.contains(m),
    ensures
        (a + b).no_duplicates(),
{
    let c = a + b;
    assert forall|i: int, j: int| 0 <= i < c.len() && 0 <= j < c.len() && i != j implies c[i]
        != c[j] by {
        if i < a.len() && j >= a.len() {
            assert(a.contains(c[i]));
            assert(b[j - a.len()] == c[j]);
        } else if j < a.len() && i >= a.len() {
            assert(a.contains(c[j]));
            assert(b[i - a.len()] == c[i]);
        } else if i < a.len() {
            assert(c[i] == a[i] && c[j] == a[j]);
        } else {
            assert(c[i] == b[i - a.len()] && c[j] == b[j - a.len()]);
        }
    }
}

proof fn lemma_column_distinct(probe: Probe, x: i32, z: i32, y0: i32, n: nat)
    requires
        y0 + n <= i32::MAX + 1,
    ensures
        column_matches(probe, x, z, y0, n).no_duplicates(),
    decreases n,
{
    if n > 0 {
        let yn = (y0 + n - 1) as i32;
        lemma_column_distinct(probe, x, z, y0, (n - 1) as nat);
        let last = candidate_match(probe, x, yn, z);
        assert(last.len() <= 1);
        assert forall|m: Match| column_matches(probe, x, z, y0, (n - 1) as nat).contains(m)
            implies !last.contains(m) by {
            lemma_column_contains(probe, x, z, y0, (n - 1) as nat, m);
            lemma_candidate_contains(probe, x, yn, z, m);
        }
        lemma_concat_distinct(column_matches(probe, x, z, y0, (n - 1) as nat), last);
    }
}

proof fn lemma_row_distinct(probe: Probe, item: WorkItem, x: i32, n: nat)
    requires
        item.start.z + n <= i32::MAX + 1,
    ensures
        row_matches(probe, item, x, n).no_duplicates(),
    decreases n,
{
    if n > 0 {
        let zn = (item.start.z + n - 1) as i32;
        let ny = crate::scan::extent(item.start.y, item.end.y) as nat;
        lemma_row_distinct(probe, item, x, (n - 1) as nat);
        lemma_column_distinct(probe, x, zn, item.start.y, ny);
        let before = row_matches(probe, item, x, (n - 1) as nat);
        let column = column_matches(probe, x, zn, item.start.y, ny);
        assert forall|m: Match| before.contains(m) implies !column.contains(m) by {
            lemma_row_contains(probe, item, x, (n - 1) as nat, m);
            lemma_column_contains(probe, x, zn, item.start.y, ny, m);
        }
        lemma_concat_distinct(before, column);
    }
}

proof fn lemma_upto_distinct(probe: Probe, item: WorkItem, n: nat)
    requires
        item.start.x + n <= i32::MAX + 1,
    ensures
        item_matches_upto(probe, item, n).no_duplicates(),
    decreases n,
{
    if n > 0 {
        let xn = (item.start.x + n - 1) as i32;
        let nz = crate::scan::extent(item.start.z, item.end.z) as nat;
        lemma_upto_distinct(probe, item, (n - 1) as nat);
        lemma_row_distinct(probe, item, xn, nz);
        let before = item_matches_upto(probe, item, (n - 1) as nat);
        let row = row_matches(probe, item, xn, nz);
        assert forall|m: Match| before.contains(m) implies !row.contains(m) by {
            lemma_upto_contains(probe, item, (n - 1) as nat, m);
            lemma_row_contains(probe, item, xn, nz, m);
        }
        lemma_concat_distinct(before, row);
    }
}

/// A work item yields each of its matches once.
pub proof fn lemma_item_matches_distinct(probe: Probe, item: WorkItem)
    ensures
        item_matches(probe, item).no_duplicates(),
{
    if probe.forced_errors <= probe.tolerance {
        lemma_upto_distinct(probe, item, crate::scan::extent(item.start.x, item.end.x) as nat);
    }
}

/// A work item's matches are exactly the candidates in its box whose forced
/// errors plus failed constraints stay within the tolerance, each reporting
/// that count and the item's direction.
pub proof fn lemma_item_matches_exactly(probe: Probe, item: WorkItem, m: Match)
    ensures
        item_matches(probe, item).contains(m) <==> (item_holds(item, m.x as int, m.y as int, m.z as int)
            && reports_match(probe, m)),
{
    lemma_unmet_nonnegative(probe.algorithm, m.x, m.y, m.z, probe.filter, probe.filter.len());
    if probe.forced_errors <= probe.tolerance {
        lemma_upto_contains(
            probe,
            item,
            crate::scan::extent(item.start.x, item.end.x) as nat,
            m,
        );
    }
}

fn scan_item<A: TextureSampler, C: Fn() -> bool>(
    item: &WorkItem,
    filter: &[CompiledRotation],
    forced_errors: i32,
    tolerance: i32,
    cancelled: &C,
) -> (outcome: (Vec<Match>, bool))
    requires
        forall|c: C| #[trigger] call_requires(c, ()),
    ensures
        outcome.1 ==> outcome.0@ == item_matches(
            probe_of(A::algorithm(), filter@, forced_errors, tolerance, item.direction),
            *item,
        ),
        !outcome.1 ==> partial_matches(
            probe_of(A::algorithm(), filter@, forced_errors, tolerance, item.direction),
            *item,
            outcome.0@,
        ),
        !outcome.1 ==> call_ensures(*cancelled, (), true),
{
    let ghost probe = probe_of(A::algorithm(), filter@, forced_errors, tolerance, item.direction);
    let mut found: Vec<Match> = Vec::new();
    if forced_errors > tolerance {
        return (found, true);
    }
    let mut x: i32 = item.start.x;
    while x < item.end.x
        invariant
            forall|c: C| #[trigger] call_requires(c, ()),
            forced_errors <= tolerance,
            probe == probe_of(A::algorithm(), filter@, forced_errors, tolerance, item.direction),
            item.start.x <= x,
            x <= item.end.x || x == item.start.x,
            found@ == item_matches_upto(probe, *item, (x - item.start.x) as nat),
        decreases item.end.x - x,
    {
        let mut z: i32 = item.start.z;
        while z < item.end.z
            invariant
                forall|c: C| #[trigger] call_requires(c, ()),
                probe == probe_of(A::algorithm(), filter@, forced_errors, tolerance, item.direction),
                item.start.x <= x < item.end.x,
                item.start.z <= z,
                z <= item.end.z || z == item.start.z,
                found@ == item_matches_upto(probe, *item, (x - item.start.x) as nat) + row_matches(
                    probe,
                    *item,
                    x,
                    (z - item.start.z) as nat,
                ),
            decreases item.end.z - z,
        {
            let stop = cancelled();
            proof {
                lemma_answered(cancelled, stop);
            }
            if stop {
                assert(partial_matches(probe, *item, found@)) by {
                    let nx = (x - item.start.x) as nat;
                    let nz = (z - item.start.z) as nat;
                    assert(found@ == item_matches_upto(probe, *item, nx) + row_matches(
                        probe,
                        *item,
                        (item.start.x + nx) as i32,
                        nz,
                    ));
                }
                return (found, false);
            }
            let ghost before = found@;
            let mut y: i32 = item.start.y;
            while y < item.end.y
                invariant
                    probe == probe_of(
                        A::algorithm(),
                        filter@,
                        forced_errors,
                        tolerance,
                        item.direction,
                    ),
                    item.start.x <= x < item.end.x,
                    item.start.z <= z < item.end.z,
                    item.start.y <= y,
                    y <= item.end.y || y == item.start.y,
                    found@ == before + column_matches(
                        probe,
                        x,
                        z,
                        item.start.y,
                        (y - item.start.y) as nat,
                    ),
                decreases item.end.y - y,
            {
                let count = count_mismatches::<A>(x, y, z, filter, forced_errors, tolerance);
                if count <= tolerance as i64 {
                    found.push(
                        Match { x, y, z, mismatches: count as i32, direction: item.direction },
                    );
                }
                assert((item.start.y + (y - item.start.y + 1) - 1) as i32 == y);
                y = y + 1;
            }
            proof {
                if item.end.y <= item.start.y {
                    assert(crate::scan::extent(item.start.y, item.end.y) == 0);
                }
                assert((item.start.z + (z - item.start.z + 1) - 1) as i32 == z);
            }
            z = z + 1;
        }
        proof {
            if item.end.z <= item.start.z {
                assert(crate::scan::extent(item.start.z, item.end.z) == 0);
            }
            assert((item.start.x + (x - item.start.x + 1) - 1) as i32 == x);
        }
        x = x + 1;
    }
    proof {
        if item.end.x <= item.start.x {
            assert(crate::scan::extent(item.start.x, item.end.x) == 0);
        }
    }
    (found, true)
}

/// Scans one work item with the sampler of `algorithm`, checking
/// `cancelled` before each `(x, z)` column. Returns the matches in scan order
/// and whether the item was finished; it stops short only when `cancelled`
/// answered true.
pub fn scan_work_item<C: Fn() -> bool>(
    algorithm: TextureAlgorithm,
    item: &WorkItem,
    filter: &[CompiledRotation],
    forced_errors: i32,
    tolerance: i32,
    cancelled: &C,
) -> (outcome: (Vec<Match>, bool))
    requires
        forall|c: C| #[trigger] call_requires(c, ()),
    ensures
        outcome.1 ==> outcome.0@ == item_matches(
            probe_of(algorithm, filter@, forced_errors, tolerance, item.direction),
            *item,
        ),
        !outcome.1 ==> partial_matches(
            probe_of(algorithm, filter@, forced_errors, tolerance, item.direction),
            *item,
            outcome.0@,
        ),
        !outcome.1 ==> call_ensures(*cancelled, (), true),
{
    match algorithm {
        TextureAlgorithm::Vanilla1 => scan_item::<Vanilla1, C>(item, filter, forced_errors, tolerance, cancelled),
        TextureAlgorithm::Vanilla2 => scan_item::<Vanilla2, C>(item, filter, forced_errors, tolerance, cancelled),
        TextureAlgorithm::Vanilla3 => scan_item::<Vanilla3, C>(item, filter, forced_errors, tolerance, cancelled),
        TextureAlgorithm::Sodium1 => scan_item::<Sodium1, C>(item, filter, forced_errors, tolerance, cancelled),
        TextureAlgorithm::Sodium2 => scan_item::<Sodium2, C>(item, filter, forced_errors, tolerance, cancelled),
    }
}

// ---------------------------------------------------------------------------
// The scanner
// ---------------------------------------------------------------------------

/// Whether `found` is what scanning work item `n` of `plan` finds: all of
/// the item's matches, or, when the scan was cancelled part-way through the
/// item, the matches of the columns it reached.
pub open spec fn item_found(
    config: ConfigView,
    filters: FiltersPlan,
    plan: PlanView,
    n: int,
    found: Seq<Match>,
) -> bool {
    let item = item_at(plan, n);
    let direction = filters.directions[item.direction_index as int];
    let probe = probe_of(
        config.algorithm,
        direction.constraints,
        direction.forced_errors,
        config.error_tolerance,
        item.direction,
    );
    0 <= n < item_total(plan) && (found == item_matches(probe, item) || partial_matches(
        probe,
        item,
        found,
    ))
}

/// Candidates in the first `k` work items of `plan`, each item's count
/// saturated at `u64::MAX` and the running total too.
pub open spec fn checked_upto(plan: PlanView, k: nat) -> int
    decreases k,
{
    if k == 0 {
        0
    } else {
        let total = checked_upto(plan, (k - 1) as nat) + saturated_count(
            item_candidates(item_at(plan, k - 1)),
        ).0;
        if total > u64::MAX {
            u64::MAX as int
        } else {
            total
        }
    }
}

/// The probe work item `n` of `plan` is scanned with.
pub open spec fn item_probe(config: ConfigView, filters: FiltersPlan, plan: PlanView, n: int) -> Probe {
    let item = item_at(plan, n);
    let direction = filters.directions[item.direction_index as int];
    probe_of(
        config.algorithm,
        direction.constraints,
        direction.forced_errors,
        config.error_tolerance,
        item.direction,
    )
}

/// Whether work item `n` of `plan` holds `m`'s candidate and `m` is its match.
pub open spec fn item_yields(config: ConfigView, filters: FiltersPlan, plan: PlanView, n: int, m: Match) -> bool {
    item_holds(item_at(plan, n), m.x as int, m.y as int, m.z as int) && reports_match(
        item_probe(config, filters, plan, n),
        m,
    )
}

/// The matches of the first `k` work items of `plan`, in plan order: what
/// a scan that finishes them has found.
#[verifier::opaque]
pub open spec fn finished_matches(config: ConfigView, filters: FiltersPlan, plan: PlanView, k: nat) -> Seq<
    Match,
>
    decreases k,
{
    if k == 0 {
        Seq::empty()
    } else {
        finished_matches(config, filters, plan, (k - 1) as nat) + item_matches(
            item_probe(config, filters, plan, k - 1),
            item_at(plan, k - 1),
        )
    }
}

/// The progress reports after each of the first `k` work items: the
/// candidates checked so far and the items completed.
#[verifier::opaque]
pub open spec fn finished_reports(plan: PlanView, k: nat) -> Seq<(u64, usize)>
    decreases k,
{
    if k == 0 {
        Seq::empty()
    } else {
        finished_reports(plan, (k - 1) as nat).push((checked_upto(plan, k) as u64, k as usize))
    }
}

/// What a scan leaves behind: it finished the first `k` work items,
/// appending their matches and one progress report each, and then the
/// matches `cut` of the item it stopped in, which it did not report.
pub open spec fn scan_result(
    config: ConfigView,
    filters: FiltersPlan,
    plan: PlanView,
    k: nat,
    cut: Seq<Match>,
    found_before: Seq<Match>,
    found_after: Seq<Match>,
    reports_before: Seq<(u64, usize)>,
    reports_after: Seq<(u64, usize)>,
) -> bool {
    &&& k <= item_total(plan)
    &&& reports_after == reports_before + finished_reports(plan, k)
    &&& found_after == found_before + finished_matches(config, filters, plan, k) + cut
    &&& cut.len() > 0 ==> k < item_total(plan) && item_found(config, filters, plan, k as int, cut)
}

proof fn lemma_finished_empty(config: ConfigView, filters: FiltersPlan, plan: PlanView)
    ensures
        finished_matches(config, filters, plan, 0) == Seq::<Match>::empty(),
        finished_reports(plan, 0) == Seq::<(u64, usize)>::empty(),
{
    reveal(finished_matches);
    reveal(finished_reports);
}

proof fn lemma_finished_next(config: ConfigView, filters: FiltersPlan, plan: PlanView, n: nat)
    ensures
        finished_matches(config, filters, plan, n + 1) == finished_matches(config, filters, plan, n)
            + item_matches(item_probe(config, filters, plan, n as int), item_at(plan, n as int)),
        finished_reports(plan, n + 1) == finished_reports(plan, n).push(
            (checked_upto(plan, n + 1) as u64, (n + 1) as usize),
        ),
{
    reveal(finished_matches);
    reveal(finished_reports);
}

/// A finished scan finds exactly the matches of its work items: a match is
/// found when, and only when, some work item of the plan holds its
/// candidate, the forced errors plus failed constraints there stay within
/// the tolerance, and the match reports that count and the item's
/// direction.
pub proof fn lemma_scan_finds_exactly(
    config: ConfigView,
    filters: FiltersPlan,
    plan: PlanView,
    k: nat,
    m: Match,
)
    ensures
        finished_matches(config, filters, plan, k).contains(m) <==> exists|n: int|
            0 <= n < k && #[trigger] item_yields(config, filters, plan, n, m),
    decreases k,
{
    reveal(finished_matches);
    if k == 0 {
        assert(!finished_matches(config, filters, plan, k).contains(m));
    } else {
        let n = k - 1;
        lemma_scan_finds_exactly(config, filters, plan, (k - 1) as nat, m);
        let before = finished_matches(config, filters, plan, (k - 1) as nat);
        let found = item_matches(item_probe(config, filters, plan, n), item_at(plan, n));
        lemma_concat_contains(before, found, m);
        lemma_item_matches_exactly(item_probe(config, filters, plan, n), item_at(plan, n), m);
        if exists|j: int| 0 <= j < k && #[trigger] item_yields(config, filters, plan, j, m) {
            let j = choose|j: int| 0 <= j < k && #[trigger] item_yields(config, filters, plan, j, m);
            if j < n {
                assert(exists|i: int| 0 <= i < k - 1 && #[trigger] item_yields(config, filters, plan, i, m));
            }
        }
        if item_yields(config, filters, plan, n, m) {
            assert(exists|j: int| 0 <= j < k && #[trigger] item_yields(config, filters, plan, j, m));
        }
        if before.contains(m) {
            let i = choose|i: int| 0 <= i < k - 1 && #[trigger] item_yields(config, filters, plan, i, m);
            assert(exists|j: int| 0 <= j < k && #[trigger] item_yields(config, filters, plan, j, m));
        }
    }
}

proof fn lemma_finished_distinct(config: ConfigView, filters: FiltersPlan, plan: PlanView, k: nat)
    requires
        forall|n: int, j: int, m: Match|
            0 <= n < k && 0 <= j < k && #[trigger] item_yields(config, filters, plan, n, m)
                && #[trigger] item_yields(config, filters, plan, j, m) ==> n == j,
    ensures
        finished_matches(config, filters, plan, k).no_duplicates(),
    decreases k,
{
    reveal(finished_matches);
    if k == 0 {
        assert(finished_matches(config, filters, plan, k) =~= Seq::<Match>::empty());
    } else {
        let n = k - 1;
        lemma_finished_distinct(config, filters, plan, (k - 1) as nat);
        let before = finished_matches(config, filters, plan, (k - 1) as nat);
        let probe = item_probe(config, filters, plan, n);
        let found = item_matches(probe, item_at(plan, n));
        lemma_item_matches_distinct(probe, item_at(plan, n));
        assert forall|m: Match| before.contains(m) implies !found.contains(m) by {
            lemma_scan_finds_exactly(config, filters, plan, (k - 1) as nat, m);
            lemma_item_matches_exactly(probe, item_at(plan, n), m);
            if found.contains(m) {
                let i = choose|i: int| 0 <= i < k - 1 && #[trigger] item_yields(config, filters, plan, i, m);
                assert(item_yields(config, filters, plan, n, m));
            }
        }
        lemma_concat_distinct(before, found);
    }
}

/// A finished scan of a plan made for its configuration, with no direction
/// listed twice, finds each match of its area exactly once: nothing twice,
/// and (by `lemma_scan_finds_exactly`) nothing but the candidates within
/// the tolerance.
pub proof fn lemma_scan_finds_each_match_once(config: ConfigView, tile: TileSize, filters: FiltersPlan)
    requires
        plan_problem(config, tile) is None,
        config.directions.no_duplicates(),
    ensures
        finished_matches(
            config,
            filters,
            planned(config, tile),
            item_total(planned(config, tile)) as nat,
        ).no_duplicates(),
{
    let plan = planned(config, tile);
    let total = item_total(plan) as nat;
    let d = config.directions.len() as int;
    assert forall|n: int, j: int, m: Match|
        0 <= n < total && 0 <= j < total && #[trigger] item_yields(config, filters, plan, n, m)
            && #[trigger] item_yields(config, filters, plan, j, m) implies n == j by {
        vstd::arithmetic::div_mod::lemma_mod_bound(n, d);
        vstd::arithmetic::div_mod::lemma_mod_bound(j, d);
        assert(item_at(plan, n).direction == m.direction);
        assert(item_at(plan, j).direction == m.direction);
        assert(config.directions[n % d] == config.directions[j % d]);
        assert(n % d == j % d);
        lemma_one_item_per_candidate(config, tile, n, j, m.x as int, m.y as int, m.z as int);
    }
    lemma_finished_distinct(config, filters, plan, total);
}

/// Whether `cancelled` never answers true.
#[verifier::opaque]
pub open spec fn never_cancelled<C: Fn() -> bool>(cancelled: C) -> bool {
    forall|answer: bool| call_ensures(cancelled, (), answer) ==> !answer
}

/// Whether `cancelled` always answers true.
#[verifier::opaque]
pub open spec fn always_cancelled<C: Fn() -> bool>(cancelled: C) -> bool {
    forall|answer: bool| call_ensures(cancelled, (), answer) ==> answer
}

proof fn lemma_answered<C: Fn() -> bool>(cancelled: C, answer: bool)
    requires
        call_ensures(cancelled, (), answer),
    ensures
        answer ==> !never_cancelled(cancelled),
        !answer ==> !always_cancelled(cancelled),
{
    reveal(never_cancelled);
    reveal(always_cancelled);
}

/// A CPU scanner with a maximum number of worker threads.
pub struct CpuScanner {
    threads: usize,
}

impl View for CpuScanner {
    type V = usize;

    closed spec fn view(&self) -> usize {
        self.threads
    }
}

impl CpuScanner {
    /// Creates a scanner that may run up to `threads` workers concurrently.
    pub fn new(threads: usize) -> (scanner: Result<CpuScanner, String>)
        ensures
            threads == 0 ==> (scanner matches Err(message) && message@
                == "CPU thread count must be positive"@),
            threads > 0 ==> (scanner matches Ok(made) && made@ == threads),
    {
        if threads == 0 {
            return Err("CPU thread count must be positive".to_owned());
        }
        Ok(CpuScanner { threads })
    }

    /// The configured maximum worker count.
    pub fn threads(&self) -> (threads: usize)
        ensures
            threads == self@,
    {
        self.threads
    }

    /// Runs the plan's work items in order on the calling thread, appending
    /// every match found to `found`, in scan order, and after each finished
    /// item the candidates checked so far (saturating) and the items
    /// completed to `reports`. `cancelled` is asked before every item and
    /// every `(x, z)` column; a cancelled item is not counted as complete.
    pub fn scan<C: Fn() -> bool>(
        &self,
        config: &ScanConfig,
        plan: &ScanPlan,
        found: &mut Vec<Match>,
        reports: &mut Vec<(u64, usize)>,
        cancelled: C,
    ) -> (outcome: Result<(), String>)
        requires
            plan.well_formed(),
            plan@.directions.len() == config.directions@.len(),
            rotations_fit(config.filter@, config.directions@),
            forall|c: C| #[trigger] call_requires(c, ()),
        ensures
            match prepared_filters(
                config.filter@,
                config.algorithm,
                config.directions@,
                config.error_tolerance,
            ) {
                Ok(filters) => outcome is Ok && exists|k: nat, cut: Seq<Match>|
                    #[trigger] scan_result(
                        config@,
                        filters,
                        plan@,
                        k,
                        cut,
                        old(found)@,
                        final(found)@,
                        old(reports)@,
                        final(reports)@,
                    ) && (never_cancelled(cancelled) ==> k == item_total(plan@) && cut.len() == 0)
                        && (always_cancelled(cancelled) ==> k == 0 && cut.len() == 0),
                Err(failure) => outcome matches Err(message) && message@ == failure_message(
                    failure,
                    config.error_tolerance,
                ) && final(found)@ == old(found)@ && final(reports)@ == old(reports)@,
            },
    {
        let filters = match prepare_filters(
            config.filter.as_slice(),
            config.algorithm,
            config.directions.as_slice(),
            config.error_tolerance,
        ) {
            Ok(filters) => filters,
            Err(message) => {
                return Err(message);
            },
        };
        proof {
            crate::filter::lemma_prepare_prefix_shape(
                config.filter@,
                config.algorithm,
                config.directions@,
                config.error_tolerance,
                config.directions@.len(),
            );
            lemma_finished_empty(config@, filters@, plan@);
        }
        assert(filters.directions@.len() == config.directions@.len());
        let ghost found_before = found@;
        let ghost reports_before = reports@;
        let total = plan.total_items();
        let mut candidates: u64 = 0;
        let mut completed: usize = 0;
        let mut n: usize = 0;
        let ghost mut cut: Seq<Match> = Seq::empty();
        proof {
            assert(found@ =~= found_before + finished_matches(config@, filters@, plan@, 0));
            assert(reports@ =~= reports_before + finished_reports(plan@, 0));
        }
        while n < total
            invariant_except_break
                found@ == found_before + finished_matches(config@, filters@, plan@, n as nat),
                reports@ == reports_before + finished_reports(plan@, n as nat),
                cut == Seq::<Match>::empty(),
            invariant
                plan.well_formed(),
                total == item_total(plan@),
                plan@.directions.len() == filters.directions@.len(),
                completed == n,
                n <= total,
                candidates == checked_upto(plan@, n as nat),
                prepared_filters(
                    config.filter@,
                    config.algorithm,
                    config.directions@,
                    config.error_tolerance,
                ) == Ok::<FiltersPlan, crate::filter::FilterFailure>(filters@),
                forall|c: C| #[trigger] call_requires(c, ()),
                always_cancelled(cancelled) ==> n == 0,
                finished_matches(config@, filters@, plan@, 0) == Seq::<Match>::empty(),
                finished_reports(plan@, 0) == Seq::<(u64, usize)>::empty(),
            ensures
                n <= total,
                scan_result(
                    config@,
                    filters@,
                    plan@,
                    n as nat,
                    cut,
                    found_before,
                    found@,
                    reports_before,
                    reports@,
                ),
                never_cancelled(cancelled) ==> n == total && cut.len() == 0,
                always_cancelled(cancelled) ==> n == 0 && cut.len() == 0,
            decreases total - n,
        {
            let stop = cancelled();
            proof {
                lemma_answered(cancelled, stop);
            }
            if stop {
                assert(found@ =~= found_before + finished_matches(config@, filters@, plan@, n as nat)
                    + cut);
                break;
            }
            let item = match plan.work_item(n) {
                Some(item) => item,
                None => {
                    assert(false);
                    break;
                },
            };
            proof {
                let d = plan@.directions.len() as int;
                vstd::arithmetic::div_mod::lemma_mod_bound(n as int, d);
            }
            let direction = &filters.directions[item.direction_index];
            let (matches, finished) = scan_work_item(
                config.algorithm,
                &item,
                direction.constraints.as_slice(),
                direction.forced_errors,
                config.error_tolerance,
                &cancelled,
            );
            proof {
                assert(filters@.directions[item.direction_index as int] == direction@);
                assert(item_probe(config@, filters@, plan@, n as int) == probe_of(
                    config.algorithm,
                    direction.constraints@,
                    direction.forced_errors,
                    config.error_tolerance,
                    item.direction,
                ));
                assert(item_found(config@, filters@, plan@, n as int, matches@));
            }
            let ghost base = found@;
            let mut k: usize = 0;
            while k < matches.len()
                invariant
                    k <= matches.len(),
                    found@ == base + matches@.take(k as int),
                decreases matches.len() - k,
            {
                found.push(matches[k]);
                proof {
                    assert(matches@.take(k + 1) =~= matches@.take(k as int).push(matches@[k as int]));
                }
                k = k + 1;
            }
            assert(matches@.take(matches.len() as int) =~= matches@);
            let again = if finished {
                let answer = cancelled();
                proof {
                    lemma_answered(cancelled, answer);
                }
                answer
            } else {
                proof {
                    lemma_answered(cancelled, true);
                }
                true
            };
            if again {
                proof {
                    cut = matches@;
                }
                break;
            }
            candidates = candidates.saturating_add(candidate_count(&item).0);
            completed = completed + 1;
            reports.push((candidates, completed));
            proof {
                lemma_finished_next(config@, filters@, plan@, n as nat);
                assert(found@ =~= found_before + finished_matches(config@, filters@, plan@, (n + 1) as nat));
                assert(reports@ =~= reports_before + finished_reports(plan@, (n + 1) as nat));
            }
            n = n + 1;
        }
        assert(scan_result(
            config@,
            filters@,
            plan@,
            n as nat,
            cut,
            found_before,
            found@,
            reports_before,
            reports@,
        ));
        Ok(())
    }
}

} // verus!
