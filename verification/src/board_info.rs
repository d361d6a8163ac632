//! What a board's file says of the board.
use crate::geometry::Point;
use crate::sexp::{SexpNode, SexpView};
use vstd::prelude::*;

verus! {

/// The title block and the page of a board.
pub struct BoardTitle {
    pub title: String,
    pub date: String,
    pub revision: String,
    pub company: String,
    pub paper: String,
}

/// The text of a field of the title block, empty where there is none.
pub open spec fn title_text(tree: SexpView, field: Seq<char>) -> Seq<char> {
    match tree.child("title_block"@) {
        Some(tb) => match tb.child_text(field, 1) {
            Some(t) => t,
            None => Seq::empty(),
        },
        None => Seq::empty(),
    }
}

/// The page of a board.
pub open spec fn paper_of(tree: SexpView) -> Seq<char> {
    match tree.child_text("paper"@, 1) {
        Some(t) => t,
        None => "A4"@,
    }
}

fn title_field(tree: &SexpNode, field: &str) -> (r: String)
    ensures
        r@ == title_text(tree@, field@),
{
    if let Some(tb) = tree.child("title_block") {
        if let Some(t) = tb.child_text(field, 1) {
            return t.clone();
        }
    }
    let r = String::new();
    proof {
        assert(r@ =~= Seq::<char>::empty());
    }
    r
}

/// The page of the board whose file holds that tree. A file that cannot be read
/// gives the default.
pub fn paper_from_file(tree: Option<&SexpNode>) -> (r: String)
    ensures
        r@ == match tree {
            Some(t) => paper_of(t@),
            None => "A4"@,
        },
{
    match tree {
        Some(t) => match t.child_text("paper", 1) {
            Some(p) => p.clone(),
            None => "A4".to_owned(),
        },
        None => "A4".to_owned(),
    }
}

/// The title block and the page of a board.
pub fn board_title(tree: &SexpNode) -> (r: BoardTitle)
    ensures
        r.title@ == title_text(tree@, "title"@),
        r.date@ == title_text(tree@, "date"@),
        r.revision@ == title_text(tree@, "rev"@),
        r.company@ == title_text(tree@, "company"@),
        r.paper@ == paper_of(tree@),
{
    BoardTitle {
        title: title_field(tree, "title"),
        date: title_field(tree, "date"),
        revision: title_field(tree, "rev"),
        company: title_field(tree, "company"),
        paper: paper_from_file(Some(tree)),
    }
}

// ─── Extents ──────────────────────────────────────────────────────────────

/// An object on a board: its points, where all their coordinates are numbers.
/// Those of a circle are its centre and a point on it.
pub struct PlacedObject {
    pub circle: bool,
    pub points: Option<Vec<Point>>,
}

/// Whether `r` is the least whole number whose square is not less.
pub open spec fn is_root_above(r: nat, square: nat) -> bool {
    r * r >= square && (r > 0 ==> (r - 1) * (r - 1) < square)
}

/// The root of a square, rounded up.
pub open spec fn root_above(square: nat) -> nat {
    choose|r: nat| is_root_above(r, square)
}

/// The square of the distance of two points.
pub open spec fn squared_gap(a: Point, b: Point) -> nat {
    ((a.x - b.x) * (a.x - b.x) + (a.y - b.y) * (a.y - b.y)) as nat
}

/// The points that an object reaches to: its own, or the opposite corners of
/// the square round a circle.
pub open spec fn reach_of(o: PlacedObject) -> Seq<(int, int)> {
    match o.points {
        None => Seq::empty(),
        Some(points) => if o.circle && points@.len() == 2 {
            let c = points@[0];
            let r = root_above(squared_gap(c, points@[1]));
            seq![(c.x - r, c.y - r), (c.x + r, c.y + r)]
        } else {
            points@.map_values(|p: Point| (p.x as int, p.y as int))
        },
    }
}

/// The points that the first `n` objects reach to.
pub open spec fn reach(objects: Seq<PlacedObject>, n: nat) -> Seq<(int, int)>
    decreases n,
{
    if n == 0 {
        Seq::empty()
    } else {
        reach(objects, (n - 1) as nat) + reach_of(objects[n - 1])
    }
}

/// The smallest box with sides along the axes.
#[derive(Clone, Copy, PartialEq, Eq, Structural, Debug)]
pub struct Extents {
    pub x_min: i128,
    pub y_min: i128,
    pub x_max: i128,
    pub y_max: i128,
}

/// Whether the point is in the box.
pub open spec fn within(e: Extents, p: (int, int)) -> bool {
    e.x_min <= p.0 <= e.x_max && e.y_min <= p.1 <= e.y_max
}

/// Whether the box is the smallest one round the points: it holds them all,
/// and each of its sides runs through one of them.
pub open spec fn encloses(e: Extents, points: Seq<(int, int)>) -> bool {
    &&& forall|i: int| 0 <= i < points.len() ==> within(e, #[trigger] points[i])
    &&& exists|i: int| 0 <= i < points.len() && (#[trigger] points[i]).0 == e.x_min
    &&& exists|i: int| 0 <= i < points.len() && (#[trigger] points[i]).0 == e.x_max
    &&& exists|i: int| 0 <= i < points.len() && (#[trigger] points[i]).1 == e.y_min
    &&& exists|i: int| 0 <= i < points.len() && (#[trigger] points[i]).1 == e.y_max
}

/// Whether the box is that of the points; there is none of no points.
pub open spec fn is_box_of(r: Option<Extents>, points: Seq<(int, int)>) -> bool {
    match r {
        Some(e) => encloses(e, points),
        None => points.len() == 0,
    }
}

/// The box with one more point.
fn extended(r: Option<Extents>, x: i128, y: i128, Ghost(points): Ghost<Seq<(int, int)>>) -> (out:
    Option<Extents>)
    requires
        is_box_of(r, points),
    ensures
        is_box_of(out, points.push((x as int, y as int))),
{
    let ghost now = points.push((x as int, y as int));
    proof {
        assert(now[points.len() as int] == (x as int, y as int));
    }
    match r {
        None => Some(Extents { x_min: x, y_min: y, x_max: x, y_max: y }),
        Some(e) => {
            let out = Extents {
                x_min: if x < e.x_min { x } else { e.x_min },
                y_min: if y < e.y_min { y } else { e.y_min },
                x_max: if x > e.x_max { x } else { e.x_max },
                y_max: if y > e.y_max { y } else { e.y_max },
            };
            proof {
                assert forall|k: int| 0 <= k < now.len() implies within(
                    out,
                    #[trigger] now[k],
                ) by {
                    if k < points.len() {
                        assert(now[k] == points[k]);
                        assert(within(e, points[k]));
                    }
                }
                let a = choose|k: int|
                    0 <= k < points.len() && (#[trigger] points[k]).0 == e.x_min;
                let b = choose|k: int|
                    0 <= k < points.len() && (#[trigger] points[k]).0 == e.x_max;
                let c = choose|k: int|
                    0 <= k < points.len() && (#[trigger] points[k]).1 == e.y_min;
                let d = choose|k: int|
                    0 <= k < points.len() && (#[trigger] points[k]).1 == e.y_max;
                assert(now[a] == points[a] && now[b] == points[b] && now[c] == points[c] && now[d]
                    == points[d]);
            }
            Some(out)
        },
    }
}

proof fn lemma_root_is_one(r: nat, square: nat)
    requires
        is_root_above(r, square),
    ensures
        root_above(square) == r,
{
    let q = root_above(square);
    assert(is_root_above(q, square));
    if q < r {
        assert(q * q <= (r - 1) * (r - 1)) by (nonlinear_arith)
            requires
                0 <= q <= r - 1,
        ;
    } else if r < q {
        assert(r * r <= (q - 1) * (q - 1)) by (nonlinear_arith)
            requires
                0 <= r <= q - 1,
        ;
    }
}

/// The length of a way along two axes, rounded up.
fn find_root(dx: u64, dy: u64) -> (r: u128)
    requires
        dx <= 0x7fff_ffff_ffff_ffff,
        dy <= 0x7fff_ffff_ffff_ffff,
    ensures
        r == root_above((dx * dx + dy * dy) as nat),
        r <= dx + dy,
{
    proof {
        assert(dx * dx <= 0x7fff_ffff_ffff_ffff * 0x7fff_ffff_ffff_ffff) by (nonlinear_arith)
            requires
                0 <= dx <= 0x7fff_ffff_ffff_ffff,
        ;
        assert(dy * dy <= 0x7fff_ffff_ffff_ffff * 0x7fff_ffff_ffff_ffff) by (nonlinear_arith)
            requires
                0 <= dy <= 0x7fff_ffff_ffff_ffff,
        ;
        assert((dx + dy) * (dx + dy) >= dx * dx + dy * dy) by (nonlinear_arith)
            requires
                0 <= dx,
                0 <= dy,
        ;
    }
    let square: u128 = dx as u128 * dx as u128 + dy as u128 * dy as u128;
    let mut low: u128 = 0;
    let mut high: u128 = dx as u128 + dy as u128;
    while low < high
        invariant
            low <= high <= dx + dy,
            dx + dy <= 0xffff_ffff_ffff_fffe,
            high * high >= square,
            low > 0 ==> (low - 1) * (low - 1) < square,
        decreases high - low,
    {
        let mid: u128 = low + (high - low) / 2;
        proof {
            assert(mid * mid <= 0xffff_ffff_ffff_fffe * 0xffff_ffff_ffff_fffe) by (nonlinear_arith)
                requires
                    0 <= mid <= 0xffff_ffff_ffff_fffe,
            ;
        }
        if mid * mid >= square {
            high = mid;
        } else {
            low = mid + 1;
        }
    }
    proof {
        assert(square == dx * dx + dy * dy);
        lemma_root_is_one(low as nat, square as nat);
    }
    low
}

/// Whether the centre of a circle and the point on it are so close that the
/// distance can be measured.
pub open spec fn is_measurable(o: PlacedObject) -> bool {
    o.circle ==> (o.points matches Some(points) ==> points@.len() == 2 ==> {
        &&& -i64::MAX <= points@[0].x - points@[1].x <= i64::MAX
        &&& -i64::MAX <= points@[0].y - points@[1].y <= i64::MAX
    })
}

/// Whether the centre of a circle and the point on it are so close that the
/// distance can be measured.
pub fn measurable(o: &PlacedObject) -> (r: bool)
    ensures
        r == is_measurable(*o),
{
    if !o.circle {
        return true;
    }
    match &o.points {
        None => true,
        Some(points) => {
            if points.len() != 2 {
                return true;
            }
            let dx: i128 = points[0].x as i128 - points[1].x as i128;
            let dy: i128 = points[0].y as i128 - points[1].y as i128;
            -0x7fff_ffff_ffff_ffff <= dx && dx <= 0x7fff_ffff_ffff_ffff && -0x7fff_ffff_ffff_ffff
                <= dy && dy <= 0x7fff_ffff_ffff_ffff
        },
    }
}

fn gap_of(a: i64, b: i64) -> (d: u64)
    requires
        -i64::MAX <= a - b <= i64::MAX,
    ensures
        d <= 0x7fff_ffff_ffff_ffff,
        d * d == (a - b) * (a - b),
{
    let gap: i128 = a as i128 - b as i128;
    let d: u64 = if gap >= 0 { gap as u64 } else { (-gap) as u64 };
    proof {
        let g = a - b;
        assert(d * d == g * g) by (nonlinear_arith)
            requires
                d == g || d == -g,
        ;
    }
    d
}

/// The box with the points that an object reaches to.
fn with_object(r: Option<Extents>, o: &PlacedObject, Ghost(points): Ghost<Seq<(int, int)>>) -> (out:
    Option<Extents>)
    requires
        is_box_of(r, points),
        is_measurable(*o),
    ensures
        is_box_of(out, points + reach_of(*o)),
{
    let list = match &o.points {
        None => {
            proof {
                assert(points + reach_of(*o) =~= points);
            }
            return r;
        },
        Some(list) => list,
    };
    if o.circle && list.len() == 2 {
        let c = list[0];
        let dx: u64 = gap_of(c.x, list[1].x);
        let dy: u64 = gap_of(c.y, list[1].y);
        let radius: i128 = find_root(dx, dy) as i128;
        let ghost low = ((c.x - radius) as int, (c.y - radius) as int);
        let ghost high = ((c.x + radius) as int, (c.y + radius) as int);
        let first = extended(r, c.x as i128 - radius, c.y as i128 - radius, Ghost(points));
        proof {
            assert(points + reach_of(*o) =~= points.push(low).push(high));
        }
        return extended(first, c.x as i128 + radius, c.y as i128 + radius, Ghost(points.push(low)));
    }
    let ghost all = list@.map_values(|p: Point| (p.x as int, p.y as int));
    let mut out = r;
    let mut i: usize = 0;
    proof {
        assert(points + all.take(0) =~= points);
    }
    while i < list.len()
        invariant
            i <= list@.len(),
            all == list@.map_values(|p: Point| (p.x as int, p.y as int)),
            is_box_of(out, points + all.take(i as int)),
        decreases list@.len() - i,
    {
        let p = list[i];
        out = extended(out, p.x as i128, p.y as i128, Ghost(points + all.take(i as int)));
        proof {
            assert(points + all.take(i + 1) =~= (points + all.take(i as int)).push(
                (p.x as int, p.y as int),
            ));
        }
        i += 1;
    }
    proof {
        assert(all.take(all.len() as int) =~= all);
    }
    out
}

/// How far the objects of the board reach, over the points that place them; an
/// arc counts by its ends and the point between them. `None` where no object has
/// a place.
pub fn board_extents(objects: &Vec<PlacedObject>) -> (r: Option<Extents>)
    requires
        forall|i: int| 0 <= i < objects@.len() ==> is_measurable(#[trigger] objects@[i]),
    ensures
        is_box_of(r, reach(objects@, objects@.len())),
{
    let mut r: Option<Extents> = None;
    let mut i: usize = 0;
    while i < objects.len()
        invariant
            i <= objects@.len(),
            forall|k: int| 0 <= k < objects@.len() ==> is_measurable(#[trigger] objects@[k]),
            is_box_of(r, reach(objects@, i as nat)),
        decreases objects@.len() - i,
    {
        r = with_object(r, &objects[i], Ghost(reach(objects@, i as nat)));
        i += 1;
    }
    r
}

// ─── Laws ─────────────────────────────────────────────────────────────────

proof fn lemma_reached(objects: Seq<PlacedObject>, n: nat, i: int, m: int)
    requires
        0 <= i < n <= objects.len(),
        0 <= m < reach_of(objects[i]).len(),
    ensures
        reach(objects, n).contains(reach_of(objects[i])[m]),
    decreases n,
{
    let x = reach_of(objects[i])[m];
    let before = reach(objects, (n - 1) as nat);
    crate::seqs::lemma_contains_add(before, reach_of(objects[n - 1]), x);
    if i < n - 1 {
        lemma_reached(objects, (n - 1) as nat, i, m);
    } else {
        assert(reach_of(objects[i]).contains(x));
    }
}

/// The box round a board holds every point of every object on it that is no
/// circle.
pub proof fn law_extents_hold_every_point(
    objects: Seq<PlacedObject>,
    e: Extents,
    i: int,
    m: int,
)
    requires
        is_box_of(Some(e), reach(objects, objects.len())),
        0 <= i < objects.len(),
        !objects[i].circle,
        objects[i].points matches Some(points) && 0 <= m < points@.len(),
    ensures
        e.x_min <= objects[i].points->0@[m].x <= e.x_max,
        e.y_min <= objects[i].points->0@[m].y <= e.y_max,
{
    let all = reach(objects, objects.len());
    let p = objects[i].points->0@[m];
    assert(reach_of(objects[i])[m] == (p.x as int, p.y as int));
    lemma_reached(objects, objects.len(), i, m);
    let k = all.index_of((p.x as int, p.y as int));
    assert(within(e, all[k]));
}

/// The box round a board holds every circle on it: on either side of its centre
/// there is at least the distance to the point on it.
pub proof fn law_extents_hold_every_circle(
    objects: Seq<PlacedObject>,
    e: Extents,
    i: int,
    r: nat,
)
    requires
        is_box_of(Some(e), reach(objects, objects.len())),
        0 <= i < objects.len(),
        objects[i].circle,
        objects[i].points matches Some(points) && points@.len() == 2,
        is_root_above(r, squared_gap(objects[i].points->0@[0], objects[i].points->0@[1])),
    ensures
        e.x_min <= objects[i].points->0@[0].x - r,
        e.x_max >= objects[i].points->0@[0].x + r,
        e.y_min <= objects[i].points->0@[0].y - r,
        e.y_max >= objects[i].points->0@[0].y + r,
{
    let all = reach(objects, objects.len());
    let c = objects[i].points->0@[0];
    lemma_root_is_one(r, squared_gap(c, objects[i].points->0@[1]));
    let low = (c.x - r, c.y - r);
    let high = (c.x + r, c.y + r);
    assert(reach_of(objects[i])[0] == low);
    assert(reach_of(objects[i])[1] == high);
    lemma_reached(objects, objects.len(), i, 0);
    lemma_reached(objects, objects.len(), i, 1);
    assert(within(e, all[all.index_of(low)]));
    assert(within(e, all[all.index_of(high)]));
}

/// A circle reaches as far as its point: the square of what it reaches by is the
/// least that is no less than the square of the distance.
pub proof fn law_circles_reach_their_point(r: nat, c: Point, p: Point)
    requires
        is_root_above(r, squared_gap(c, p)),
    ensures
        r * r >= (c.x - p.x) * (c.x - p.x) + (c.y - p.y) * (c.y - p.y),
        r > 0 ==> (r - 1) * (r - 1) < (c.x - p.x) * (c.x - p.x) + (c.y - p.y) * (c.y - p.y),
{
    let dx = c.x - p.x;
    let dy = c.y - p.y;
    assert(dx * dx >= 0) by (nonlinear_arith);
    assert(dy * dy >= 0) by (nonlinear_arith);
}

/// There is one smallest box round the points of a board.
pub proof fn law_extents_are_determined(a: Extents, b: Extents, points: Seq<(int, int)>)
    requires
        encloses(a, points),
        encloses(b, points),
    ensures
        a == b,
{
    let i = choose|i: int| 0 <= i < points.len() && (#[trigger] points[i]).0 == a.x_min;
    let j = choose|j: int| 0 <= j < points.len() && (#[trigger] points[j]).0 == a.x_max;
    let k = choose|k: int| 0 <= k < points.len() && (#[trigger] points[k]).1 == a.y_min;
    let l = choose|l: int| 0 <= l < points.len() && (#[trigger] points[l]).1 == a.y_max;
    assert(within(b, points[i]) && within(b, points[j]) && within(b, points[k]) && within(
        b,
        points[l],
    ));
    let m = choose|m: int| 0 <= m < points.len() && (#[trigger] points[m]).0 == b.x_min;
    let n = choose|n: int| 0 <= n < points.len() && (#[trigger] points[n]).0 == b.x_max;
    let o = choose|o: int| 0 <= o < points.len() && (#[trigger] points[o]).1 == b.y_min;
    let p = choose|p: int| 0 <= p < points.len() && (#[trigger] points[p]).1 == b.y_max;
    assert(within(a, points[m]) && within(a, points[n]) && within(a, points[o]) && within(
        a,
        points[p],
    ));
}

/// A board without a page is one of A4, and a title block without a field has an
/// empty one.
pub proof fn law_missing_titles_are_empty(tree: SexpView, field: Seq<char>)
    ensures
        tree.child_text("paper"@, 1) is None ==> paper_of(tree) == "A4"@,
        tree.child_text("paper"@, 1) matches Some(t) ==> paper_of(tree) == t,
        tree.child("title_block"@) is None ==> title_text(tree, field).len() == 0,
        tree.child("title_block"@) matches Some(b) ==> (b.child_text(field, 1) matches Some(t)
            ==> title_text(tree, field) == t),
{
}

} // verus!
