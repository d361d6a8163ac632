//! Points and wires bucketed by position, so that a lookup looks at a few
//! buckets only.
use crate::geometry::{coincident, gap, on_segment, point_on_segment, points_coincident, Point, Wire};
use std::collections::HashMap;
use vstd::prelude::*;

verus! {

broadcast use vstd::std_specs::hash::group_hash_axioms;

// ─── Cells ────────────────────────────────────────────────────────────────

/// The cell of a coordinate: the number of whole tolerances below it.
pub open spec fn cell_of(value: int, tolerance: int) -> int {
    value / tolerance
}

/// The cell of a coordinate.
pub fn bucket(value: i64, tolerance: i64) -> (cell: i64)
    requires
        tolerance > 0,
    ensures
        cell == cell_of(value as int, tolerance as int),
{
    let t: u64 = tolerance as u64;
    if value >= 0 {
        let q: u64 = value as u64 / t;
        proof {
            let v = value as int;
            let d = tolerance as int;
            assert(v / d <= v) by (nonlinear_arith)
                requires
                    v >= 0,
                    d > 0,
            ;
        }
        q as i64
    } else {
        let below: u64 = (-(value + 1)) as u64;
        let q: u64 = below / t;
        proof {
            let v = value as int;
            let d = tolerance as int;
            let b = below as int;
            assert(b == -(v + 1));
            assert(b / d <= b && 0 <= b / d) by (nonlinear_arith)
                requires
                    b >= 0,
                    d > 0,
            ;
            assert(v / d == -(b / d) - 1) by (nonlinear_arith)
                requires
                    b == -(v + 1),
                    b >= 0,
                    d > 0,
            ;
        }
        -(q as i64) - 1
    }
}

/// Coordinates that differ by less than the tolerance lie in the same cell or
/// in neighbouring ones.
pub proof fn lemma_close_cells(a: int, b: int, tolerance: int)
    requires
        tolerance > 0,
        gap(a, b) < tolerance,
    ensures
        cell_of(b, tolerance) - 1 <= cell_of(a, tolerance) <= cell_of(b, tolerance) + 1,
{
    let t = tolerance;
    let qa = a / t;
    let qb = b / t;
    assert(qa * t <= a < qa * t + t) by (nonlinear_arith)
        requires
            t > 0,
            qa == a / t,
    ;
    assert(qb * t <= b < qb * t + t) by (nonlinear_arith)
        requires
            t > 0,
            qb == b / t,
    ;
    assert(qb - 1 <= qa <= qb + 1) by (nonlinear_arith)
        requires
            t > 0,
            qa * t <= a,
            a < qa * t + t,
            qb * t <= b,
            b < qb * t + t,
            a - b < t,
            b - a < t,
    ;
}

// ─── Points ───────────────────────────────────────────────────────────────

/// How many of the points coincide with `p`.
pub open spec fn count_coincident(points: Seq<Point>, p: Point, tolerance: int) -> nat
    decreases points.len(),
{
    if points.len() == 0 {
        0
    } else {
        count_coincident(points.drop_last(), p, tolerance) + (if coincident(
            p,
            points.last(),
            tolerance,
        ) {
            1nat
        } else {
            0
        })
    }
}

/// The key of a pair of cells.
pub open spec fn cell_key(cx: int, cy: int) -> int {
    cx * 0x1_0000_0000_0000_0000 + (cy + 0x8000_0000_0000_0000)
}

fn pair_key(cx: i64, cy: i64) -> (k: i128)
    ensures
        k == cell_key(cx as int, cy as int),
{
    let low: i128 = cy as i128 + 0x8000_0000_0000_0000;
    let high: i128 = (cx as i128) * 0x1_0000_0000_0000_0000;
    high + low
}

/// The points of one cell, in the order in which they came.
pub open spec fn in_cell(points: Seq<Point>, cx: int, cy: int, tolerance: int) -> Seq<Point>
    decreases points.len(),
{
    if points.len() == 0 {
        Seq::empty()
    } else {
        let rest = in_cell(points.drop_last(), cx, cy, tolerance);
        let p = points.last();
        if cell_of(p.x as int, tolerance) == cx && cell_of(p.y as int, tolerance) == cy {
            rest.push(p)
        } else {
            rest
        }
    }
}

/// Points bucketed at the coincidence tolerance, so a lookup probes nine cells
/// in place of all points.
pub struct PointIndex {
    tolerance: i64,
    buckets: HashMap<i128, Vec<Point>>,
    points: Ghost<Seq<Point>>,
}

impl View for PointIndex {
    type V = Seq<Point>;

    /// The points that are indexed.
    closed spec fn view(&self) -> Seq<Point> {
        self.points@
    }
}

impl PointIndex {
    spec fn bucket_at(&self, cx: i64, cy: i64) -> Seq<Point> {
        let key = cell_key(cx as int, cy as int) as i128;
        if self.buckets@.dom().contains(key) {
            self.buckets@[key]@
        } else {
            Seq::empty()
        }
    }

    /// Every bucket holds the points of its cell.
    pub closed spec fn wf(&self) -> bool {
        &&& self.tolerance > 0
        &&& self.points@.len() <= usize::MAX
        &&& forall|cx: i64, cy: i64| #[trigger]
            self.bucket_at(cx, cy) == in_cell(
                self.points@,
                cx as int,
                cy as int,
                self.tolerance as int,
            )
    }

    /// The coincidence tolerance.
    pub closed spec fn tolerance(&self) -> int {
        self.tolerance as int
    }

    /// An index of the points.
    pub fn build(points: &Vec<Point>, tolerance: i64) -> (index: PointIndex)
        requires
            tolerance > 0,
        ensures
            index.wf(),
            index@ == points@,
            index.tolerance() == tolerance,
    {
        let mut index = PointIndex { tolerance, buckets: HashMap::new(), points: Ghost(Seq::empty()) };
        let mut i: usize = 0;
        proof {
            assert(points@.take(0) =~= Seq::<Point>::empty());
        }
        while i < points.len()
            invariant
                i <= points@.len(),
                index.wf(),
                index.points@ == points@.take(i as int),
                index.tolerance == tolerance,
                tolerance > 0,
            decreases points@.len() - i,
        {
            let p = points[i];
            let px: i64 = bucket(p.x, tolerance);
            let py: i64 = bucket(p.y, tolerance);
            let key = pair_key(px, py);
            let ghost had = index;
            let mut cell: Vec<Point> = match index.buckets.remove(&key) {
                Some(cell) => cell,
                None => Vec::new(),
            };
            proof {
                assert(cell@ == had.bucket_at(px, py));
            }
            cell.push(p);
            index.buckets.insert(key, cell);
            proof {
                let now = points@.take(i + 1);
                index.points@ = now;
                assert(now.drop_last() =~= points@.take(i as int));
                assert(now.last() == p);
                assert forall|cx: i64, cy: i64| #[trigger] index.bucket_at(cx, cy) == in_cell(
                    now,
                    cx as int,
                    cy as int,
                    tolerance as int,
                ) by {
                    assert(had.bucket_at(cx, cy) == in_cell(
                        had.points@,
                        cx as int,
                        cy as int,
                        tolerance as int,
                    ));
                    lemma_cell_key_unique(cx, cy, px, py);
                }
            }
            i += 1;
        }
        proof {
            assert(points@.take(points@.len() as int) =~= points@);
        }
        index
    }

    /// How many points of one cell coincide with `p`.
    fn count_in(&self, cx: i64, cy: i64, p: Point) -> (n: usize)
        requires
            self.wf(),
        ensures
            n == count_coincident(
                in_cell(self.points@, cx as int, cy as int, self.tolerance as int),
                p,
                self.tolerance as int,
            ),
    {
        let key = pair_key(cx, cy);
        let tolerance: i64 = self.tolerance;
        proof {
            assert(self.bucket_at(cx, cy) == in_cell(
                self.points@,
                cx as int,
                cy as int,
                tolerance as int,
            ));
        }
        match self.buckets.get(&key) {
            None => 0,
            Some(cell) => {
                let mut n: usize = 0;
                let mut i: usize = 0;
                while i < cell.len()
                    invariant
                        i <= cell@.len(),
                        n <= i,
                        tolerance > 0,
                        n == count_coincident(cell@.take(i as int), p, tolerance as int),
                    decreases cell@.len() - i,
                {
                    proof {
                        assert(cell@.take(i + 1).drop_last() =~= cell@.take(i as int));
                    }
                    if points_coincident(p, cell[i], tolerance as u64) {
                        n += 1;
                    }
                    i += 1;
                }
                proof {
                    assert(cell@.take(cell@.len() as int) =~= cell@);
                }
                n
            },
        }
    }

    /// How many indexed points coincide with `p`.
    pub fn count_at(&self, p: Point) -> (n: usize)
        requires
            self.wf(),
        ensures
            n == count_coincident(self@, p, self.tolerance()),
    {
        let cx: i64 = bucket(p.x, self.tolerance);
        let cy: i64 = bucket(p.y, self.tolerance);
        let mut found: usize = 0;
        let mut dx: i64 = -1;
        let ghost pts = self.points@;
        let ghost t = self.tolerance as int;
        proof {
            lemma_window_total(pts, p, t, cx as int, cy as int);
            assert(window_rows(pts, p, t, cx as int, cy as int, 0) == 0);
        }
        while dx <= 1
            invariant
                self.wf(),
                pts == self.points@,
                t == self.tolerance,
                -1 <= dx <= 2,
                found == window_rows(pts, p, t, cx as int, cy as int, (dx + 1) as nat),
                window_rows(pts, p, t, cx as int, cy as int, 3) <= usize::MAX,
            decreases 2 - dx,
        {
            proof {
                lemma_rows_ascend(pts, p, t, cx as int, cy as int, (dx + 2) as nat, 3);
            }
            match cx.checked_add(dx) {
                None => {
                    proof {
                        lemma_column_outside(pts, p, t, cx + dx, cy as int, 3);
                    }
                },
                Some(nx) => {
                    let row = self.count_row(nx, cy, p);
                    found += row;
                },
            }
            dx += 1;
        }
        found
    }

    /// How many points coincide with `p` in the cell `(cx, cy)` and in the
    /// ones above and below it.
    fn count_row(&self, cx: i64, cy: i64, p: Point) -> (n: usize)
        requires
            self.wf(),
            window_row(self.points@, p, self.tolerance as int, cx as int, cy as int, 3)
                <= usize::MAX,
        ensures
            n == window_row(self.points@, p, self.tolerance as int, cx as int, cy as int, 3),
    {
        let mut found: usize = 0;
        let mut dy: i64 = -1;
        let ghost pts = self.points@;
        let ghost t = self.tolerance as int;
        while dy <= 1
            invariant
                self.wf(),
                pts == self.points@,
                t == self.tolerance,
                -1 <= dy <= 2,
                found == window_row(pts, p, t, cx as int, cy as int, (dy + 1) as nat),
                window_row(pts, p, t, cx as int, cy as int, 3) <= usize::MAX,
            decreases 2 - dy,
        {
            proof {
                lemma_row_ascends(pts, p, t, cx as int, cy as int, (dy + 2) as nat, 3);
            }
            match cy.checked_add(dy) {
                None => {
                    proof {
                        lemma_cell_outside(pts, cx as int, cy + dy, t);
                    }
                },
                Some(ny) => {
                    let cell = self.count_in(cx, ny, p);
                    found += cell;
                },
            }
            dy += 1;
        }
        found
    }

    /// Whether an indexed point coincides with `p`.
    pub fn contains(&self, p: Point) -> (r: bool)
        requires
            self.wf(),
        ensures
            r == (count_coincident(self@, p, self.tolerance()) > 0),
    {
        self.count_at(p) > 0
    }
}

/// The points that coincide with `p` in the first `n` of the three cells of
/// column `cx` around `cy`.
spec fn window_row(points: Seq<Point>, p: Point, t: int, cx: int, cy: int, n: nat) -> nat
    decreases n,
{
    if n == 0 {
        0
    } else {
        window_row(points, p, t, cx, cy, (n - 1) as nat) + count_coincident(
            in_cell(points, cx, cy + n - 2, t),
            p,
            t,
        )
    }
}

/// The points that coincide with `p` in the first `n` of the three columns
/// around `cx`.
spec fn window_rows(points: Seq<Point>, p: Point, t: int, cx: int, cy: int, n: nat) -> nat
    decreases n,
{
    if n == 0 {
        0
    } else {
        window_rows(points, p, t, cx, cy, (n - 1) as nat) + window_row(
            points,
            p,
            t,
            cx + n - 2,
            cy,
            3,
        )
    }
}

proof fn lemma_row_ascends(points: Seq<Point>, p: Point, t: int, cx: int, cy: int, m: nat, n: nat)
    requires
        m <= n,
    ensures
        window_row(points, p, t, cx, cy, m) <= window_row(points, p, t, cx, cy, n),
    decreases n,
{
    if m < n {
        lemma_row_ascends(points, p, t, cx, cy, m, (n - 1) as nat);
    }
}

proof fn lemma_rows_ascend(points: Seq<Point>, p: Point, t: int, cx: int, cy: int, m: nat, n: nat)
    requires
        m <= n,
    ensures
        window_rows(points, p, t, cx, cy, m) <= window_rows(points, p, t, cx, cy, n),
    decreases n,
{
    if m < n {
        lemma_rows_ascend(points, p, t, cx, cy, m, (n - 1) as nat);
    }
}

/// A cell number is within the range of coordinates.
proof fn lemma_cell_range(v: i64, t: int)
    requires
        t > 0,
    ensures
        i64::MIN <= cell_of(v as int, t) <= i64::MAX,
{
    let x = v as int;
    assert(x >= 0 ==> 0 <= x / t <= x) by (nonlinear_arith)
        requires
            t > 0,
    ;
    assert(x < 0 ==> x <= x / t < 0) by (nonlinear_arith)
        requires
            t > 0,
    ;
}

/// A cell that no coordinate can lie in is empty.
proof fn lemma_cell_outside(points: Seq<Point>, cx: int, cy: int, t: int)
    requires
        t > 0,
        !(i64::MIN <= cx <= i64::MAX && i64::MIN <= cy <= i64::MAX),
    ensures
        in_cell(points, cx, cy, t) == Seq::<Point>::empty(),
    decreases points.len(),
{
    if points.len() > 0 {
        lemma_cell_outside(points.drop_last(), cx, cy, t);
        lemma_cell_range(points.last().x, t);
        lemma_cell_range(points.last().y, t);
    }
}

/// A column that no coordinate can lie in is empty.
proof fn lemma_column_outside(points: Seq<Point>, p: Point, t: int, cx: int, cy: int, n: nat)
    requires
        t > 0,
        !(i64::MIN <= cx <= i64::MAX),
    ensures
        window_row(points, p, t, cx, cy, n) == 0,
    decreases n,
{
    if n > 0 {
        lemma_column_outside(points, p, t, cx, cy, (n - 1) as nat);
        lemma_cell_outside(points, cx, cy + n - 2, t);
    }
}

/// Cells have keys of their own.
proof fn lemma_cell_key_unique(ax: i64, ay: i64, bx: i64, by: i64)
    ensures
        cell_key(ax as int, ay as int) == cell_key(bx as int, by as int) ==> ax == bx && ay == by,
        i128::MIN <= cell_key(ax as int, ay as int) <= i128::MAX,
        i128::MIN <= cell_key(bx as int, by as int) <= i128::MAX,
{
}

/// What one more point adds to a cell.
proof fn lemma_cell_step(points: Seq<Point>, p: Point, t: int, cx: int, cy: int)
    requires
        points.len() > 0,
    ensures
        count_coincident(in_cell(points, cx, cy, t), p, t) == count_coincident(
            in_cell(points.drop_last(), cx, cy, t),
            p,
            t,
        ) + (if coincident(p, points.last(), t) && cell_of(points.last().x as int, t) == cx
            && cell_of(points.last().y as int, t) == cy {
            1nat
        } else {
            0
        }),
{
    let rest = in_cell(points.drop_last(), cx, cy, t);
    assert(rest.push(points.last()).drop_last() =~= rest);
}

/// What one more point adds to the first `n` cells of a column.
proof fn lemma_row_step(points: Seq<Point>, p: Point, t: int, cx: int, cy: int, n: nat)
    requires
        points.len() > 0,
    ensures
        window_row(points, p, t, cx, cy, n) == window_row(points.drop_last(), p, t, cx, cy, n) + (
        if coincident(p, points.last(), t) && cell_of(points.last().x as int, t) == cx && cy - 1
            <= cell_of(points.last().y as int, t) < cy - 1 + n {
            1nat
        } else {
            0
        }),
    decreases n,
{
    if n > 0 {
        lemma_row_step(points, p, t, cx, cy, (n - 1) as nat);
        lemma_cell_step(points, p, t, cx, cy + n - 2);
    }
}

/// What one more point adds to the first `n` columns.
proof fn lemma_rows_step(points: Seq<Point>, p: Point, t: int, cx: int, cy: int, n: nat)
    requires
        points.len() > 0,
    ensures
        window_rows(points, p, t, cx, cy, n) == window_rows(points.drop_last(), p, t, cx, cy, n) + (
        if coincident(p, points.last(), t) && cx - 1 <= cell_of(points.last().x as int, t) < cx - 1
            + n && cy - 1 <= cell_of(points.last().y as int, t) < cy + 2 {
            1nat
        } else {
            0
        }),
    decreases n,
{
    if n > 0 {
        lemma_rows_step(points, p, t, cx, cy, (n - 1) as nat);
        lemma_row_step(points, p, t, cx + n - 2, cy, 3);
    }
}

proof fn lemma_row_empty(p: Point, t: int, cx: int, cy: int, n: nat)
    ensures
        window_row(Seq::empty(), p, t, cx, cy, n) == 0,
    decreases n,
{
    if n > 0 {
        lemma_row_empty(p, t, cx, cy, (n - 1) as nat);
    }
}

proof fn lemma_rows_empty(p: Point, t: int, cx: int, cy: int, n: nat)
    ensures
        window_rows(Seq::empty(), p, t, cx, cy, n) == 0,
    decreases n,
{
    if n > 0 {
        lemma_rows_empty(p, t, cx, cy, (n - 1) as nat);
        lemma_row_empty(p, t, cx + n - 2, cy, 3);
    }
}

/// The nine cells around a point hold every point that coincides with it,
/// each in one of them.
proof fn lemma_window_total(points: Seq<Point>, p: Point, t: int, cx: int, cy: int)
    requires
        t > 0,
        cx == cell_of(p.x as int, t),
        cy == cell_of(p.y as int, t),
    ensures
        window_rows(points, p, t, cx, cy, 3) == count_coincident(points, p, t),
        count_coincident(points, p, t) <= points.len(),
    decreases points.len(),
{
    if points.len() == 0 {
        assert(points =~= Seq::empty());
        lemma_rows_empty(p, t, cx, cy, 3);
    } else {
        lemma_window_total(points.drop_last(), p, t, cx, cy);
        lemma_rows_step(points, p, t, cx, cy, 3);
        let q = points.last();
        if coincident(p, q, t) {
            lemma_close_cells(q.x as int, p.x as int, t);
            lemma_close_cells(q.y as int, p.y as int, t);
        }
    }
}

// ─── Wires ────────────────────────────────────────────────────────────────

/// Whether the point lies on one of the wires, ends included.
pub open spec fn on_a_wire(wires: Seq<Wire>, p: Point, tolerance: int) -> bool {
    exists|i: int|
        0 <= i < wires.len() && on_segment(
            p,
            (#[trigger] wires[i]).start,
            wires[i].end,
            tolerance,
        )
}

/// Whether the point lies on one of the wires away from its ends.
pub open spec fn inside_a_wire(wires: Seq<Wire>, p: Point, tolerance: int) -> bool {
    exists|i: int|
        0 <= i < wires.len() && on_segment(p, (#[trigger] wires[i]).start, wires[i].end, tolerance)
            && !coincident(p, wires[i].start, tolerance) && !coincident(
            p,
            wires[i].end,
            tolerance,
        )
}

/// Wires bucketed by the coordinate they hold constant: a horizontal wire can
/// only be met in its own row, a vertical one in its own column.
pub struct WireIndex<'a> {
    tolerance: i64,
    wires: &'a Vec<Wire>,
    rows: HashMap<i64, Vec<usize>>,
    columns: HashMap<i64, Vec<usize>>,
}

/// Whether the bucket of that number lists the wire.
spec fn listed(buckets: Map<i64, Vec<usize>>, cell: int, i: int) -> bool {
    exists|k: i64| k == cell && #[trigger] buckets.dom().contains(k) && exists|j: int|
        0 <= j < buckets[k]@.len() && #[trigger] buckets[k]@[j] == i
}

/// Whether every number in the buckets is that of a wire.
spec fn in_range(buckets: Map<i64, Vec<usize>>, n: nat) -> bool {
    forall|k: i64, j: int|
        #![trigger buckets[k]@[j]]
        buckets.dom().contains(k) && 0 <= j < buckets[k]@.len() ==> buckets[k]@[j] < n
}

/// Whether the wires before `n` are listed in their row or column.
spec fn wires_listed(
    wires: Seq<Wire>,
    rows: Map<i64, Vec<usize>>,
    columns: Map<i64, Vec<usize>>,
    t: int,
    n: int,
) -> bool {
    forall|i: int|
        #![trigger wires[i]]
        0 <= i < n ==> {
            let w = wires[i];
            if gap(w.start.x as int, w.end.x as int) < t {
                listed(columns, cell_of(w.start.x as int, t), i)
            } else if gap(w.start.y as int, w.end.y as int) < t {
                listed(rows, cell_of(w.start.y as int, t), i)
            } else {
                true
            }
        }
}

/// Adds a wire to a bucket.
fn list_wire(buckets: &mut HashMap<i64, Vec<usize>>, cell: i64, i: usize)
    requires
        in_range(old(buckets)@, i as nat),
    ensures
        in_range(final(buckets)@, (i + 1) as nat),
        listed(final(buckets)@, cell as int, i as int),
        forall|c: int, j: int| listed(old(buckets)@, c, j) ==> #[trigger] listed(
            final(buckets)@,
            c,
            j,
        ),
{
    let ghost had = buckets@;
    let mut list: Vec<usize> = match buckets.remove(&cell) {
        Some(list) => list,
        None => Vec::new(),
    };
    let ghost before = list@;
    list.push(i);
    let ghost now = list@;
    buckets.insert(cell, list);
    proof {
        assert(buckets@[cell]@ == now);
        assert(now[before.len() as int] == i);
        assert(buckets@.dom().contains(cell));
        assert forall|c: int, j: int| listed(had, c, j) implies #[trigger] listed(
            buckets@,
            c,
            j,
        ) by {
            let k = choose|k: i64| k == c && #[trigger] had.dom().contains(k) && exists|m: int|
                0 <= m < had[k]@.len() && #[trigger] had[k]@[m] == j;
            let m = choose|m: int| 0 <= m < had[k]@.len() && #[trigger] had[k]@[m] == j;
            assert(buckets@.dom().contains(k));
            assert(buckets@[k]@[m] == j);
        }
        assert forall|k: i64, j: int|
            #![trigger buckets@[k]@[j]]
            buckets@.dom().contains(k) && 0 <= j < buckets@[k]@.len() implies buckets@[k]@[j] < i
            + 1 by {
            if k == cell {
                if j < before.len() {
                    assert(had[k]@[j] == before[j]);
                }
            } else {
                assert(had[k]@[j] == buckets@[k]@[j]);
            }
        }
    }
}

impl<'a> WireIndex<'a> {
    /// Every wire is listed in its row or column.
    pub closed spec fn wf(&self) -> bool {
        &&& self.tolerance > 0
        &&& in_range(self.rows@, self.wires@.len())
        &&& in_range(self.columns@, self.wires@.len())
        &&& wires_listed(
            self.wires@,
            self.rows@,
            self.columns@,
            self.tolerance as int,
            self.wires@.len() as int,
        )
    }

    /// The wires that are indexed.
    pub closed spec fn wires(&self) -> Seq<Wire> {
        self.wires@
    }

    /// The coincidence tolerance.
    pub closed spec fn tolerance(&self) -> int {
        self.tolerance as int
    }

    /// An index of the wires.
    pub fn build(wires: &'a Vec<Wire>, tolerance: i64) -> (index: WireIndex<'a>)
        requires
            tolerance > 0,
        ensures
            index.wf(),
            index.wires() == wires@,
            index.tolerance() == tolerance,
    {
        let mut rows: HashMap<i64, Vec<usize>> = HashMap::new();
        let mut columns: HashMap<i64, Vec<usize>> = HashMap::new();
        let mut i: usize = 0;
        while i < wires.len()
            invariant
                i <= wires@.len(),
                tolerance > 0,
                in_range(rows@, i as nat),
                in_range(columns@, i as nat),
                wires_listed(wires@, rows@, columns@, tolerance as int, i as int),
            decreases wires@.len() - i,
        {
            let w = &wires[i];
            let ghost had_rows = rows@;
            let ghost had_columns = columns@;
            if crate::geometry::close(w.start.x, w.end.x, tolerance as u64) {
                list_wire(&mut columns, bucket(w.start.x, tolerance), i);
            } else if crate::geometry::close(w.start.y, w.end.y, tolerance as u64) {
                list_wire(&mut rows, bucket(w.start.y, tolerance), i);
            }
            proof {
                assert forall|j: int| #![trigger wires@[j]] 0 <= j < i + 1 implies {
                    let v = wires@[j];
                    if gap(v.start.x as int, v.end.x as int) < tolerance {
                        listed(columns@, cell_of(v.start.x as int, tolerance as int), j)
                    } else if gap(v.start.y as int, v.end.y as int) < tolerance {
                        listed(rows@, cell_of(v.start.y as int, tolerance as int), j)
                    } else {
                        true
                    }
                } by {
                    let v = wires@[j];
                    if j < i {
                        if gap(v.start.x as int, v.end.x as int) < tolerance {
                            assert(listed(
                                had_columns,
                                cell_of(v.start.x as int, tolerance as int),
                                j,
                            ));
                        } else if gap(v.start.y as int, v.end.y as int) < tolerance {
                            assert(listed(
                                had_rows,
                                cell_of(v.start.y as int, tolerance as int),
                                j,
                            ));
                        }
                    }
                }
            }
            i += 1;
        }
        WireIndex { tolerance, wires, rows, columns }
    }

    /// Whether a wire of one bucket passes through `p`; with `interior` only
    /// away from its ends.
    fn met_in(&self, buckets: &HashMap<i64, Vec<usize>>, cell: i64, p: Point, interior: bool) -> (r:
        bool)
        requires
            self.tolerance > 0,
            in_range(buckets@, self.wires@.len()),
        ensures
            r == exists|i: int|
                0 <= i < self.wires@.len() && listed(buckets@, cell as int, i) && self.met(
                    i,
                    p,
                    interior,
                ),
    {
        let t: u64 = self.tolerance as u64;
        match buckets.get(&cell) {
            None => false,
            Some(list) => {
                let mut j: usize = 0;
                while j < list.len()
                    invariant
                        j <= list@.len(),
                        self.tolerance > 0,
                        t == self.tolerance,
                        in_range(buckets@, self.wires@.len()),
                        buckets@.dom().contains(cell),
                        buckets@[cell] == *list,
                        forall|m: int|
                            0 <= m < j ==> !self.met(#[trigger] list@[m] as int, p, interior),
                    decreases list@.len() - j,
                {
                    let i: usize = list[j];
                    proof {
                        assert(buckets@[cell]@[j as int] == i);
                    }
                    let w = &self.wires[i];
                    if point_on_segment(p, w.start, w.end, t) && (!interior || !points_coincident(
                        p,
                        w.start,
                        t,
                    ) && !points_coincident(p, w.end, t)) {
                        proof {
                            assert(listed(buckets@, cell as int, i as int));
                            assert(self.met(i as int, p, interior));
                        }
                        return true;
                    }
                    j += 1;
                }
                proof {
                    assert forall|i: int|
                        0 <= i < self.wires@.len() && #[trigger] listed(
                            buckets@,
                            cell as int,
                            i,
                        ) implies !self.met(i, p, interior) by {
                        let m = choose|m: int|
                            0 <= m < buckets@[cell]@.len() && #[trigger] buckets@[cell]@[m] == i;
                        assert(list@[m] == i);
                    }
                }
                false
            },
        }
    }

    spec fn met(&self, i: int, p: Point, interior: bool) -> bool {
        let w = self.wires@[i];
        let t = self.tolerance as int;
        on_segment(p, w.start, w.end, t) && (interior ==> !coincident(p, w.start, t)
            && !coincident(p, w.end, t))
    }

    /// Whether a wire passes through `p`; with `interior` only away from its
    /// ends.
    fn met_anywhere(&self, p: Point, interior: bool) -> (r: bool)
        requires
            self.wf(),
        ensures
            r == exists|i: int|
                0 <= i < self.wires@.len() && #[trigger] self.met(i, p, interior),
    {
        let cx: i64 = bucket(p.x, self.tolerance);
        let cy: i64 = bucket(p.y, self.tolerance);
        let mut delta: i64 = -1;
        while delta <= 1
            invariant
                self.wf(),
                -1 <= delta <= 2,
                forall|i: int, d: int|
                    0 <= i < self.wires@.len() && -1 <= d < delta && (#[trigger] listed(
                        self.columns@,
                        cx + d,
                        i,
                    )) ==> !self.met(i, p, interior),
                forall|i: int, d: int|
                    0 <= i < self.wires@.len() && -1 <= d < delta && (#[trigger] listed(
                        self.rows@,
                        cy + d,
                        i,
                    )) ==> !self.met(i, p, interior),
            decreases 2 - delta,
        {
            if let Some(column) = cx.checked_add(delta) {
                if self.met_in(&self.columns, column, p, interior) {
                    return true;
                }
            }
            if let Some(row) = cy.checked_add(delta) {
                if self.met_in(&self.rows, row, p, interior) {
                    return true;
                }
            }
            delta += 1;
        }
        proof {
            assert forall|i: int| 0 <= i < self.wires@.len() implies !#[trigger] self.met(
                i,
                p,
                interior,
            ) by {
                let w = self.wires@[i];
                let t = self.tolerance as int;
                if self.met(i, p, interior) {
                    if gap(w.start.x as int, w.end.x as int) < t {
                        lemma_close_cells(w.start.x as int, p.x as int, t);
                        let d = cell_of(w.start.x as int, t) - cx;
                        assert(listed(self.columns@, cx + d, i));
                    } else {
                        lemma_close_cells(w.start.y as int, p.y as int, t);
                        let d = cell_of(w.start.y as int, t) - cy;
                        assert(listed(self.rows@, cy + d, i));
                    }
                }
            }
        }
        false
    }

    /// Lies anywhere on a wire, endpoints included.
    pub fn covers(&self, p: Point) -> (r: bool)
        requires
            self.wf(),
        ensures
            r == on_a_wire(self.wires(), p, self.tolerance()),
    {
        let r = self.met_anywhere(p, false);
        proof {
            if r {
                let i = choose|i: int|
                    0 <= i < self.wires@.len() && #[trigger] self.met(i, p, false);
                assert(on_segment(
                    p,
                    self.wires@[i].start,
                    self.wires@[i].end,
                    self.tolerance as int,
                ));
            } else if on_a_wire(self.wires@, p, self.tolerance as int) {
                let i = choose|i: int|
                    0 <= i < self.wires@.len() && on_segment(
                        p,
                        (#[trigger] self.wires@[i]).start,
                        self.wires@[i].end,
                        self.tolerance as int,
                    );
                assert(self.met(i, p, false));
            }
        }
        r
    }

    /// Lies on the interior of a wire: a T-junction, which connects without
    /// splitting the crossed wire.
    pub fn covers_interior(&self, p: Point) -> (r: bool)
        requires
            self.wf(),
        ensures
            r == inside_a_wire(self.wires(), p, self.tolerance()),
    {
        let r = self.met_anywhere(p, true);
        proof {
            let t = self.tolerance as int;
            if r {
                let i = choose|i: int|
                    0 <= i < self.wires@.len() && #[trigger] self.met(i, p, true);
                assert(on_segment(p, self.wires@[i].start, self.wires@[i].end, t));
            } else if inside_a_wire(self.wires@, p, t) {
                let i = choose|i: int|
                    0 <= i < self.wires@.len() && on_segment(
                        p,
                        (#[trigger] self.wires@[i]).start,
                        self.wires@[i].end,
                        t,
                    ) && !coincident(p, self.wires@[i].start, t) && !coincident(
                        p,
                        self.wires@[i].end,
                        t,
                    );
                assert(self.met(i, p, true));
            }
        }
        r
    }
}

// ─── Laws ─────────────────────────────────────────────────────────────────

/// Whether two points are nearer than the tolerance along both axes.
pub open spec fn near(p: Point, q: Point, t: int) -> bool {
    -t < p.x - q.x < t && -t < p.y - q.y < t
}

/// Whether a wire is away from the point: the point is the tolerance or more
/// outside the rectangle between the ends of the wire, along one of the axes.
pub open spec fn far(w: Wire, p: Point, t: int) -> bool {
    ||| p.x <= w.start.x - t && p.x <= w.end.x - t
    ||| p.x >= w.start.x + t && p.x >= w.end.x + t
    ||| p.y <= w.start.y - t && p.y <= w.end.y - t
    ||| p.y >= w.start.y + t && p.y >= w.end.y + t
}

/// The points near two lists are those near the one and those near the other.
pub proof fn lemma_count_add(a: Seq<Point>, b: Seq<Point>, p: Point, t: int)
    ensures
        count_coincident(a + b, p, t) == count_coincident(a, p, t) + count_coincident(b, p, t),
    decreases b.len(),
{
    if b.len() == 0 {
        assert(a + b =~= a);
    } else {
        assert((a + b).drop_last() =~= a + b.drop_last());
        lemma_count_add(a, b.drop_last(), p, t);
    }
}

/// Every point of the list that is near is counted.
pub proof fn law_near_points_are_counted(points: Seq<Point>, p: Point, t: int, i: int)
    requires
        0 <= i < points.len(),
        near(p, points[i], t),
    ensures
        count_coincident(points, p, t) >= 1,
        forall|j: int|
            0 <= j < points.len() && j != i && near(p, #[trigger] points[j], t)
                ==> count_coincident(points, p, t) >= 2,
    decreases points.len(),
{
    let before = points.drop_last();
    if i < before.len() {
        assert(before[i] == points[i]);
        law_near_points_are_counted(before, p, t, i);
        assert forall|j: int|
            0 <= j < points.len() && j != i && near(
                p,
                #[trigger] points[j],
                t,
            ) implies count_coincident(points, p, t) >= 2 by {
            if j < before.len() {
                assert(before[j] == points[j]);
            }
        }
    } else {
        assert forall|j: int|
            0 <= j < points.len() && j != i && near(
                p,
                #[trigger] points[j],
                t,
            ) implies count_coincident(points, p, t) >= 2 by {
            assert(before[j] == points[j]);
            law_near_points_are_counted(before, p, t, j);
        }
    }
}

/// Nothing else is counted: none where no point is near, and at most one where
/// only one can be.
pub proof fn law_only_near_points_are_counted(points: Seq<Point>, p: Point, t: int, i: int)
    requires
        forall|j: int| 0 <= j < points.len() && j != i ==> !near(p, #[trigger] points[j], t),
    ensures
        count_coincident(points, p, t) <= 1,
        !(0 <= i < points.len() && near(p, points[i], t)) ==> count_coincident(points, p, t) == 0,
    decreases points.len(),
{
    if points.len() > 0 {
        let before = points.drop_last();
        assert forall|j: int| 0 <= j < before.len() && j != i implies !near(
            p,
            #[trigger] before[j],
            t,
        ) by {
            assert(before[j] == points[j]);
        }
        law_only_near_points_are_counted(before, p, t, i);
        if i < before.len() {
            assert(!near(p, points[points.len() - 1], t));
            if 0 <= i {
                assert(before[i] == points[i]);
            }
        } else if i == before.len() {
            law_only_near_points_are_counted(before, p, t, -1);
        } else {
            assert(!near(p, points[points.len() - 1], t));
        }
    }
}

} // verus!
