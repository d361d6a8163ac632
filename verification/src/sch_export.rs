//! Netlist summaries, rule check reports and near misses of a schematic.
use crate::geometry::{coincident, gap, on_segment, Point, Wire};
use crate::net_graph::label_points;
use crate::orphans::{lemma_meets_label, lemma_meets_pin, lemma_wire_end_is, lemma_wire_ends};
use crate::pcb_export::{rank, severity_rank};
use crate::reports::ErcViolation;
use crate::sch_analysis::{name_symbols, symbols_named, NetSymbol, NetSymbolView};
use crate::sch_queries::{is_labelled, label_names};
use crate::schematic::{
    collect_label_points, collect_pin_points, collect_wire_ends, symbol_points, text_option,
    wire_ends, Sheet,
};
use crate::selections::{lemma_selects_next, selects};
use crate::seqs::{models, push_model};
use crate::spatial_index::{
    self, count_coincident, far, inside_a_wire, law_near_points_are_counted,
    law_only_near_points_are_counted, lemma_count_add, PointIndex, WireIndex,
};
use crate::text::{self, strictly_ascending};
use crate::wire_text::{
    end_numerals, end_text, law_moved_end_is_read_back, law_other_ends_stay,
    lemma_places_stay_apart, move_end, point_text, with_end_at,
};
use vstd::prelude::*;

verus! {

// ─── Netlists ─────────────────────────────────────────────────────────────

/// The nets of a sheet, and its symbols with the nets of their pins.
pub struct NetlistSummary {
    pub nets: Vec<String>,
    pub components: Vec<NetSymbol>,
}

/// Whether the symbols are those of the sheet, with the nets of their pins.
pub open spec fn summarises(sheet: Sheet, components: Seq<NetSymbolView>) -> bool {
    symbols_named(sheet, sheet.symbols@, components)
}

/// The nets of a sheet, and its symbols with the nets of their own units' pins.
pub fn netlist_summary(sheet: &Sheet) -> (r: NetlistSummary)
    ensures
        strictly_ascending(models(r.nets@)),
        forall|t: Seq<char>| #[trigger] models(r.nets@).contains(t) <==> is_labelled(*sheet, t),
        summarises(*sheet, models(r.components@)),
{
    let nets = label_names(sheet);
    let components = name_symbols(sheet);
    NetlistSummary { nets, components }
}

/// How a summary names the net of a pin: a pin on no net has a tilde.
pub fn shown_net(net: &Option<String>) -> (r: String)
    ensures
        r@ == match text_option(*net) {
            Some(n) => n,
            None => "~"@,
        },
{
    match net {
        Some(n) => n.clone(),
        None => "~".to_owned(),
    }
}

// ─── Rule checks ──────────────────────────────────────────────────────────

/// The violations that a filter lets through, and how many of them are errors
/// and warnings.
pub struct FilteredErc {
    pub violations: Vec<usize>,
    pub errors: usize,
    pub warnings: usize,
}

/// How many of the first `n` violations have a severity that counts and are
/// at least as severe as the filter says.
pub open spec fn count_severity(
    list: Seq<ErcViolation>,
    severity: Seq<char>,
    least: int,
    n: nat,
) -> nat
    decreases n,
{
    if n == 0 {
        0
    } else {
        count_severity(list, severity, least, (n - 1) as nat) + (if list[n - 1].severity@
            == severity && rank(list[n - 1].severity@) >= least {
            1nat
        } else {
            0
        })
    }
}

/// The violations that are at least as severe as the filter says, by their
/// places.
pub fn filter_erc(list: &Vec<ErcViolation>, severity: &str) -> (r: FilteredErc)
    ensures
        selects(
            r.violations@,
            list@.len(),
            |i: int| rank(list@[i].severity@) >= rank(severity@),
        ),
        r.errors == count_severity(list@, "error"@, rank(severity@), list@.len()),
        r.warnings == count_severity(list@, "warning"@, rank(severity@), list@.len()),
{
    let least: u8 = severity_rank(severity);
    let ghost keep = |i: int| rank(list@[i].severity@) >= rank(severity@);
    let mut violations: Vec<usize> = Vec::new();
    let mut errors: usize = 0;
    let mut warnings: usize = 0;
    let mut i: usize = 0;
    while i < list.len()
        invariant
            i <= list@.len(),
            least == rank(severity@),
            keep == (|i: int| rank(list@[i].severity@) >= rank(severity@)),
            selects(violations@, i as nat, keep),
            errors <= i,
            warnings <= i,
            errors == count_severity(list@, "error"@, rank(severity@), i as nat),
            warnings == count_severity(list@, "warning"@, rank(severity@), i as nat),
        decreases list@.len() - i,
    {
        let ghost before = violations@;
        let s = list[i].severity.as_str();
        if severity_rank(s) >= least {
            violations.push(i);
            if text::same(s, "error") {
                errors += 1;
            }
            if text::same(s, "warning") {
                warnings += 1;
            }
        }
        proof {
            lemma_selects_next(before, violations@, i, keep);
        }
        i += 1;
    }
    FilteredErc { violations, errors, warnings }
}

// ─── Near misses ──────────────────────────────────────────────────────────

/// Points closer than this along both axes are the same, in nanometres.
pub const EXACT_NM: i64 = 10_000;

/// What a wire end can snap to: pins, labels and wire ends, in that order.
pub open spec fn snap_targets(sheet: Sheet) -> Seq<Point> {
    symbol_points(sheet.symbols@) + label_points(sheet.labels@) + wire_ends(sheet.wires@)
}

/// The square of the distance of two points.
pub open spec fn square_distance(a: Point, b: Point) -> int {
    gap(a.x as int, b.x as int) * gap(a.x as int, b.x as int) + gap(a.y as int, b.y as int) * gap(
        a.y as int,
        b.y as int,
    )
}

/// Whether a target is near the point without being on it.
pub open spec fn is_near(p: Point, target: Point, snap: int) -> bool {
    EXACT_NM * EXACT_NM < square_distance(p, target) <= snap * snap
}

/// The first target at `from` or later that is near the point.
pub open spec fn near_target(targets: Seq<Point>, p: Point, snap: int, from: int) -> Option<Point>
    decreases targets.len() - from,
{
    if from < 0 || from >= targets.len() {
        None
    } else if is_near(p, targets[from], snap) {
        Some(targets[from])
    } else {
        near_target(targets, p, snap, from + 1)
    }
}

/// Whether a wire end is connected: something else is at it, or it is on the
/// inside of a wire.
pub open spec fn is_connected(sheet: Sheet, p: Point) -> bool {
    count_coincident(snap_targets(sheet), p, EXACT_NM as int) >= 2 || inside_a_wire(
        sheet.wires@,
        p,
        EXACT_NM as int,
    )
}

/// A wire end that is to move: the place of the wire, which end, and where it
/// is and is to be.
#[derive(Clone, Copy, PartialEq, Eq, Structural, Debug)]
pub struct Fix {
    pub wire: usize,
    pub is_start: bool,
    pub from: Point,
    pub to: Point,
}

/// The fix of a wire end, if it needs one.
pub open spec fn end_fix(sheet: Sheet, snap: int, wire: int, is_start: bool) -> Seq<Fix> {
    let p = if is_start {
        sheet.wires@[wire].start
    } else {
        sheet.wires@[wire].end
    };
    if is_connected(sheet, p) {
        Seq::empty()
    } else {
        match near_target(snap_targets(sheet), p, snap, 0) {
            Some(to) => seq![Fix { wire: wire as usize, is_start, from: p, to }],
            None => Seq::empty(),
        }
    }
}

/// The fixes of the first `n` wires: of each wire its start before its end.
pub open spec fn wire_fixes(sheet: Sheet, snap: int, n: nat) -> Seq<Fix>
    decreases n,
{
    if n == 0 {
        Seq::empty()
    } else {
        wire_fixes(sheet, snap, (n - 1) as nat) + end_fix(sheet, snap, n - 1, true) + end_fix(
            sheet,
            snap,
            n - 1,
            false,
        )
    }
}

fn distance_along(a: i64, b: i64) -> (d: u64)
    ensures
        d == gap(a as int, b as int),
{
    if a >= b {
        (a as i128 - b as i128) as u64
    } else {
        (b as i128 - a as i128) as u64
    }
}

fn near(p: Point, target: Point, snap: u64) -> (r: bool)
    ensures
        r == is_near(p, target, snap as int),
{
    let dx: u64 = distance_along(p.x, target.x);
    let dy: u64 = distance_along(p.y, target.y);
    if dx > snap || dy > snap {
        proof {
            assert(dx * dx + dy * dy > snap * snap) by (nonlinear_arith)
                requires
                    dx > snap || dy > snap,
                    dx >= 0,
                    dy >= 0,
                    snap >= 0,
            ;
        }
        return false;
    }
    proof {
        assert(dx * dx <= 0xffff_ffff_ffff_ffff * 0xffff_ffff_ffff_ffff) by (nonlinear_arith)
            requires
                0 <= dx <= 0xffff_ffff_ffff_ffff,
        ;
        assert(snap * snap <= 0xffff_ffff_ffff_ffff * 0xffff_ffff_ffff_ffff) by (nonlinear_arith)
            requires
                0 <= snap <= 0xffff_ffff_ffff_ffff,
        ;
        assert(0 <= dy * dy <= snap * snap) by (nonlinear_arith)
            requires
                0 <= dy <= snap,
        ;
        assert(0 <= dx * dx) by (nonlinear_arith);
    }
    let x2: u128 = dx as u128 * dx as u128;
    let y2: u128 = dy as u128 * dy as u128;
    let s2: u128 = snap as u128 * snap as u128;
    if x2 > s2 - y2 {
        return false;
    }
    let exact: u128 = 100_000_000;
    x2 > exact || y2 > exact || x2 + y2 > exact
}

fn find_near(targets: &Vec<Point>, p: Point, snap: u64) -> (r: Option<Point>)
    ensures
        r == near_target(targets@, p, snap as int, 0),
{
    let mut i: usize = 0;
    while i < targets.len()
        invariant
            i <= targets@.len(),
            near_target(targets@, p, snap as int, 0) == near_target(
                targets@,
                p,
                snap as int,
                i as int,
            ),
        decreases targets@.len() - i,
    {
        if near(p, targets[i], snap) {
            return Some(targets[i]);
        }
        i += 1;
    }
    None
}

fn all_targets(sheet: &Sheet) -> (out: Vec<Point>)
    ensures
        out@ == snap_targets(*sheet),
{
    let mut out = collect_pin_points(&sheet.symbols);
    let mut labels = collect_label_points(&sheet.labels);
    let mut ends = collect_wire_ends(&sheet.wires);
    out.append(&mut labels);
    out.append(&mut ends);
    out
}

fn fix_end(
    sheet: &Sheet,
    targets: &Vec<Point>,
    points: &PointIndex,
    wires: &WireIndex,
    snap: u64,
    wire: usize,
    is_start: bool,
    out: &mut Vec<Fix>,
)
    requires
        wire < sheet.wires@.len(),
        targets@ == snap_targets(*sheet),
        points.wf(),
        points@ == targets@,
        points.tolerance() == EXACT_NM,
        wires.wf(),
        wires.wires() == sheet.wires@,
        wires.tolerance() == EXACT_NM,
    ensures
        final(out)@ == old(out)@ + end_fix(*sheet, snap as int, wire as int, is_start),
{
    let ghost had = out@;
    let p = if is_start {
        sheet.wires[wire].start
    } else {
        sheet.wires[wire].end
    };
    proof {
        assert(had + Seq::<Fix>::empty() =~= had);
    }
    if points.count_at(p) >= 2 || wires.covers_interior(p) {
        return;
    }
    if let Some(to) = find_near(targets, p, snap) {
        out.push(Fix { wire, is_start, from: p, to });
        proof {
            assert(out@ =~= had + end_fix(*sheet, snap as int, wire as int, is_start));
        }
    }
}

/// The wire ends that just miss something they could connect to, and where
/// they would have to be.
pub fn find_fixes(sheet: &Sheet, snap: u64) -> (out: Vec<Fix>)
    ensures
        out@ == wire_fixes(*sheet, snap as int, sheet.wires@.len()),
{
    let targets = all_targets(sheet);
    let points = PointIndex::build(&targets, EXACT_NM);
    let wires = WireIndex::build(&sheet.wires, EXACT_NM);
    let mut out: Vec<Fix> = Vec::new();
    let mut i: usize = 0;
    while i < sheet.wires.len()
        invariant
            i <= sheet.wires@.len(),
            targets@ == snap_targets(*sheet),
            points.wf(),
            points@ == targets@,
            points.tolerance() == EXACT_NM,
            wires.wf(),
            wires.wires() == sheet.wires@,
            wires.tolerance() == EXACT_NM,
            out@ == wire_fixes(*sheet, snap as int, i as nat),
        decreases sheet.wires@.len() - i,
    {
        fix_end(sheet, &targets, &points, &wires, snap, i, true, &mut out);
        fix_end(sheet, &targets, &points, &wires, snap, i, false, &mut out);
        i += 1;
    }
    out
}

/// What is not connected and near something is moved there; what is connected
/// stays.
pub proof fn law_fix_moves_near_misses_only(sheet: Sheet, snap: int, n: nat, i: int)
    requires
        n <= sheet.wires@.len(),
        0 <= i < wire_fixes(sheet, snap, n).len(),
    ensures
        !is_connected(sheet, wire_fixes(sheet, snap, n)[i].from),
        is_near(wire_fixes(sheet, snap, n)[i].from, wire_fixes(sheet, snap, n)[i].to, snap),
        snap_targets(sheet).contains(wire_fixes(sheet, snap, n)[i].to),
    decreases n,
{
    let all = wire_fixes(sheet, snap, n);
    let rest = wire_fixes(sheet, snap, (n - 1) as nat);
    let a = end_fix(sheet, snap, n - 1, true);
    let b = end_fix(sheet, snap, n - 1, false);
    assert(all == rest + a + b);
    lemma_near_target(snap_targets(sheet), sheet.wires@[n - 1].start, snap, 0);
    lemma_near_target(snap_targets(sheet), sheet.wires@[n - 1].end, snap, 0);
    if i < rest.len() {
        law_fix_moves_near_misses_only(sheet, snap, (n - 1) as nat, i);
        assert(all[i] == rest[i]);
    } else if i < rest.len() + a.len() {
        assert(all[i] == a[i - rest.len()]);
    } else {
        assert(all[i] == b[i - rest.len() - a.len()]);
    }
}

proof fn lemma_near_target(targets: Seq<Point>, p: Point, snap: int, from: int)
    requires
        0 <= from,
    ensures
        near_target(targets, p, snap, from) matches Some(t) ==> is_near(p, t, snap)
            && targets.contains(t),
    decreases targets.len() - from,
{
    if from < targets.len() {
        if is_near(p, targets[from], snap) {
            assert(targets.contains(targets[from]));
        } else {
            lemma_near_target(targets, p, snap, from + 1);
        }
    }
}

// ─── Edits ────────────────────────────────────────────────────────────────

/// The text in which the wire end of a fix is where it is to be; `None` where
/// the text does not hold that end.
pub open spec fn with_fix(content: Seq<char>, wires: Seq<Wire>, f: Fix) -> Option<Seq<char>> {
    match text_option(wires[f.wire as int].uuid) {
        None => None,
        Some(uuid) => with_end_at(content, uuid, f.is_start, f.to),
    }
}

/// The text with the first `n` fixes made, one after the other, and how many of
/// them it took.
pub open spec fn with_fixes(
    content: Seq<char>,
    wires: Seq<Wire>,
    fixes: Seq<Fix>,
    n: nat,
) -> (Seq<char>, nat)
    decreases n,
{
    if n == 0 {
        (content, 0)
    } else {
        let before = with_fixes(content, wires, fixes, (n - 1) as nat);
        match with_fix(before.0, wires, fixes[n - 1]) {
            Some(t) => (t, before.1 + 1),
            None => before,
        }
    }
}

/// Where the text holds the wire end of a fix.
pub open spec fn fix_place(content: Seq<char>, wires: Seq<Wire>, f: Fix) -> Option<(int, int)> {
    match text_option(wires[f.wire as int].uuid) {
        None => None,
        Some(uuid) => end_numerals(content, uuid, f.is_start),
    }
}

/// The numerals that the text has for the wire end of a fix.
pub open spec fn fix_numerals(content: Seq<char>, wires: Seq<Wire>, f: Fix) -> Option<Seq<char>> {
    match text_option(wires[f.wire as int].uuid) {
        None => None,
        Some(uuid) => end_text(content, uuid, f.is_start),
    }
}

/// Whether the text holds the wire end of every fix, each in a place of its own,
/// under an id without parentheses.
pub open spec fn holds_ends(content: Seq<char>, wires: Seq<Wire>, fixes: Seq<Fix>) -> bool {
    &&& forall|i: int|
        0 <= i < fixes.len() ==> (#[trigger] fix_place(content, wires, fixes[i])) is Some
    &&& forall|i: int|
        0 <= i < fixes.len() ==> !(#[trigger] text_option(
            wires[fixes[i].wire as int].uuid,
        )->0.contains('('))
    &&& forall|i: int, j: int|
        0 <= i < j < fixes.len() ==> #[trigger] fix_place(content, wires, fixes[i])
            != #[trigger] fix_place(content, wires, fixes[j])
}

proof fn lemma_with_fixes(content: Seq<char>, wires: Seq<Wire>, fixes: Seq<Fix>, n: nat)
    requires
        holds_ends(content, wires, fixes),
        n <= fixes.len(),
    ensures
        with_fixes(content, wires, fixes, n).1 == n,
        holds_ends(with_fixes(content, wires, fixes, n).0, wires, fixes),
        forall|i: int|
            0 <= i < n ==> (#[trigger] fix_numerals(
                with_fixes(content, wires, fixes, n).0,
                wires,
                fixes[i],
            )) == Some(point_text(fixes[i].to)),
    decreases n,
{
    if n > 0 {
        lemma_with_fixes(content, wires, fixes, (n - 1) as nat);
        let s = with_fixes(content, wires, fixes, (n - 1) as nat).0;
        let f = fixes[n - 1];
        let uuid = text_option(wires[f.wire as int].uuid)->0;
        assert(fix_place(s, wires, f) is Some);
        let t = with_fixes(content, wires, fixes, n).0;
        assert(with_end_at(s, uuid, f.is_start, f.to) == Some(t));
        assert forall|i: int| 0 <= i < fixes.len() implies (#[trigger] fix_place(
            t,
            wires,
            fixes[i],
        )) is Some by {
            let g = fixes[i];
            let id = text_option(wires[g.wire as int].uuid)->0;
            assert(fix_place(s, wires, g) is Some);
            lemma_places_stay_apart(
                s,
                uuid,
                f.is_start,
                f.to,
                (id, g.is_start),
                (id, g.is_start),
            );
        }
        assert forall|i: int, j: int| 0 <= i < j < fixes.len() implies #[trigger] fix_place(
            t,
            wires,
            fixes[i],
        ) != #[trigger] fix_place(t, wires, fixes[j]) by {
            let g = fixes[i];
            let h = fixes[j];
            assert(fix_place(s, wires, g) != fix_place(s, wires, h));
            lemma_places_stay_apart(
                s,
                uuid,
                f.is_start,
                f.to,
                (text_option(wires[g.wire as int].uuid)->0, g.is_start),
                (text_option(wires[h.wire as int].uuid)->0, h.is_start),
            );
        }
        assert forall|i: int| 0 <= i < n implies (#[trigger] fix_numerals(t, wires, fixes[i]))
            == Some(point_text(fixes[i].to)) by {
            if i == n - 1 {
                law_moved_end_is_read_back(s, uuid, f.is_start, f.to);
            } else {
                let g = fixes[i];
                let id = text_option(wires[g.wire as int].uuid)->0;
                assert(fix_place(s, wires, g) != fix_place(s, wires, f));
                assert(fix_numerals(s, wires, g) == Some(point_text(g.to)));
                law_other_ends_stay(s, uuid, f.is_start, f.to, id, g.is_start);
            }
        }
    }
}

/// What is done about near misses: the fixes, the text with them, how many of
/// them it took, and whether they count as made.
pub struct ConnectivityFix {
    pub fixes: Vec<Fix>,
    pub content: String,
    pub edits: usize,
    pub applied: bool,
}

proof fn lemma_fix_wires(sheet: Sheet, snap: int, n: nat)
    requires
        n <= sheet.wires@.len(),
        sheet.wires@.len() <= usize::MAX,
    ensures
        forall|i: int|
            0 <= i < wire_fixes(sheet, snap, n).len() ==> (#[trigger] wire_fixes(
                sheet,
                snap,
                n,
            )[i]).wire < sheet.wires@.len(),
    decreases n,
{
    if n > 0 {
        lemma_fix_wires(sheet, snap, (n - 1) as nat);
        let all = wire_fixes(sheet, snap, n);
        let rest = wire_fixes(sheet, snap, (n - 1) as nat);
        let a = end_fix(sheet, snap, n - 1, true);
        let b = end_fix(sheet, snap, n - 1, false);
        assert forall|i: int| 0 <= i < all.len() implies (#[trigger] all[i]).wire
            < sheet.wires@.len() by {
            if i < rest.len() {
                assert(all[i] == rest[i]);
            } else if i < rest.len() + a.len() {
                assert(all[i] == a[i - rest.len()]);
            } else {
                assert(all[i] == b[i - rest.len() - a.len()]);
            }
        }
    }
}

/// Moves wire ends that just miss something onto it, in the text of the
/// schematic. A dry run finds the misses and changes nothing. Where the text
/// holds every end that is to move, it takes each fix once and then has the end
/// where the fix puts it.
pub fn fix_connectivity(sheet: &Sheet, content: &str, snap: u64, dry_run: bool) -> (r:
    ConnectivityFix)
    ensures
        r.fixes@ == wire_fixes(*sheet, snap as int, sheet.wires@.len()),
        (r.content@, r.edits as nat) == (if dry_run {
            (content@, 0)
        } else {
            with_fixes(content@, sheet.wires@, r.fixes@, r.fixes@.len())
        }),
        !dry_run && holds_ends(content@, sheet.wires@, r.fixes@) ==> {
            &&& r.edits == r.fixes@.len()
            &&& forall|i: int|
                0 <= i < r.fixes@.len() ==> (#[trigger] fix_numerals(
                    r.content@,
                    sheet.wires@,
                    r.fixes@[i],
                )) == Some(point_text(r.fixes@[i].to))
        },
        r.applied <==> !dry_run && r.fixes@.len() > 0,
{
    let fixes = find_fixes(sheet, snap);
    let count: usize = sheet.wires.len();
    let mut edited = content.to_owned();
    let mut edits: usize = 0;
    proof {
        assert(count == sheet.wires@.len());
        lemma_fix_wires(*sheet, snap as int, sheet.wires@.len());
        if holds_ends(content@, sheet.wires@, fixes@) {
            lemma_with_fixes(content@, sheet.wires@, fixes@, fixes@.len());
        }
    }
    if !dry_run {
        let mut i: usize = 0;
        while i < fixes.len()
            invariant
                i <= fixes@.len(),
                edits <= i,
                count == sheet.wires@.len(),
                forall|k: int| 0 <= k < fixes@.len() ==> (#[trigger] fixes@[k]).wire < count,
                (edited@, edits as nat) == with_fixes(
                    content@,
                    sheet.wires@,
                    fixes@,
                    i as nat,
                ),
            decreases fixes@.len() - i,
        {
            let f = fixes[i];
            if let Some(uuid) = &sheet.wires[f.wire].uuid {
                if let Some(t) = move_end(edited.as_str(), uuid.as_str(), f.is_start, f.to) {
                    edited = t;
                    edits += 1;
                }
            }
            i += 1;
        }
    }
    let applied = !dry_run && fixes.len() > 0;
    ConnectivityFix { fixes, content: edited, edits, applied }
}

// ─── Laws ─────────────────────────────────────────────────────────────────

proof fn lemma_targets(sheet: Sheet, p: Point)
    ensures
        count_coincident(snap_targets(sheet), p, 10_000) == count_coincident(
            symbol_points(sheet.symbols@),
            p,
            10_000,
        ) + count_coincident(label_points(sheet.labels@), p, 10_000) + count_coincident(
            wire_ends(sheet.wires@),
            p,
            10_000,
        ),
{
    let a = symbol_points(sheet.symbols@);
    let b = label_points(sheet.labels@);
    lemma_count_add(a + b, wire_ends(sheet.wires@), p, 10_000);
    lemma_count_add(a, b, p, 10_000);
}

/// A wire end within ten micrometres of a pin, of a label or of an end of another
/// wire is connected already, and is not moved.
pub proof fn law_connected_ends_are_not_moved(
    sheet: Sheet,
    snap: int,
    w: int,
    p: Point,
    i: int,
    j: int,
    k: int,
)
    requires
        0 <= w < sheet.wires@.len(),
        p == sheet.wires@[w].start || p == sheet.wires@[w].end,
        ({
            ||| 0 <= i < sheet.symbols@.len() && 0 <= j < crate::schematic::pins_of(sheet.symbols@[i]).len() && spatial_index::near(
                p,
                crate::schematic::pins_of(sheet.symbols@[i])[j].at,
                10_000,
            )
            ||| 0 <= i < sheet.labels@.len() && spatial_index::near(p, sheet.labels@[i].at, 10_000)
            ||| 0 <= i < sheet.wires@.len() && i != w && (spatial_index::near(p, sheet.wires@[i].start, 10_000)
                || spatial_index::near(p, sheet.wires@[i].end, 10_000))
        }),
        0 <= k < wire_fixes(sheet, snap, sheet.wires@.len()).len(),
    ensures
        wire_fixes(sheet, snap, sheet.wires@.len())[k].from != p,
{
    let wires = sheet.wires@;
    let ends = wire_ends(wires);
    let t: int = 10_000;
    lemma_targets(sheet, p);
    lemma_wire_ends(wires, w);
    let own = if p == wires[w].start {
        2 * w
    } else {
        2 * w + 1
    };
    assert(spatial_index::near(p, ends[own], t));
    law_near_points_are_counted(ends, p, t, own);
    lemma_meets_pin(sheet.symbols@, p, t);
    lemma_meets_label(sheet.labels@, p, t);
    if 0 <= i < wires.len() && i != w {
        lemma_wire_ends(wires, i);
        if spatial_index::near(p, wires[i].start, t) {
            assert(spatial_index::near(p, ends[2 * i], t));
        } else if spatial_index::near(p, wires[i].end, t) {
            assert(spatial_index::near(p, ends[2 * i + 1], t));
        }
    }
    assert(is_connected(sheet, p));
    law_fix_moves_near_misses_only(sheet, snap, wires.len(), k);
}

proof fn lemma_target_is_found(targets: Seq<Point>, p: Point, snap: int, from: int, m: int)
    requires
        0 <= from <= m < targets.len(),
        is_near(p, targets[m], snap),
    ensures
        near_target(targets, p, snap, from) matches Some(q) && is_near(p, q, snap),
    decreases targets.len() - from,
{
    if !is_near(p, targets[from], snap) {
        lemma_target_is_found(targets, p, snap, from + 1, m);
    }
}

proof fn lemma_fix_is_listed(sheet: Sheet, snap: int, n: nat, w: int, is_start: bool, f: Fix)
    requires
        0 <= w < n <= sheet.wires@.len(),
        end_fix(sheet, snap, w, is_start) == seq![f],
    ensures
        wire_fixes(sheet, snap, n).contains(f),
    decreases n,
{
    let a = wire_fixes(sheet, snap, (n - 1) as nat);
    let b = end_fix(sheet, snap, n - 1, true);
    let c = end_fix(sheet, snap, n - 1, false);
    crate::seqs::lemma_contains_add(a + b, c, f);
    crate::seqs::lemma_contains_add(a, b, f);
    if w < n - 1 {
        lemma_fix_is_listed(sheet, snap, (n - 1) as nat, w, is_start, f);
    } else if is_start {
        assert(b[0] == f);
    } else {
        assert(c[0] == f);
    }
}

/// A wire end that nothing else is at, but that a pin, a label or an end of
/// another wire is near without being on it, is moved onto something that near.
pub proof fn law_near_misses_are_moved(
    sheet: Sheet,
    snap: int,
    w: int,
    is_start: bool,
    p: Point,
    q: Point,
    m: int,
)
    requires
        0 <= w < sheet.wires@.len() <= usize::MAX,
        p == (if is_start {
            sheet.wires@[w].start
        } else {
            sheet.wires@[w].end
        }),
        !spatial_index::near(sheet.wires@[w].start, sheet.wires@[w].end, 10_000),
        forall|i: int, j: int|
            #![trigger crate::schematic::pins_of(sheet.symbols@[i])[j]]
            0 <= i < sheet.symbols@.len() && 0 <= j < crate::schematic::pins_of(sheet.symbols@[i]).len() ==> !spatial_index::near(
                p,
                crate::schematic::pins_of(sheet.symbols@[i])[j].at,
                10_000,
            ),
        forall|i: int|
            0 <= i < sheet.labels@.len() ==> !spatial_index::near(p, (#[trigger] sheet.labels@[i]).at, 10_000),
        forall|i: int|
            0 <= i < sheet.wires@.len() && i != w ==> far(#[trigger] sheet.wires@[i], p, 10_000),
        0 <= m < snap_targets(sheet).len(),
        q == snap_targets(sheet)[m],
        10_000 * 10_000 < (p.x - q.x) * (p.x - q.x) + (p.y - q.y) * (p.y - q.y) <= snap * snap,
    ensures
        exists|k: int|
            0 <= k < wire_fixes(sheet, snap, sheet.wires@.len()).len() && ({
                let f = #[trigger] wire_fixes(sheet, snap, sheet.wires@.len())[k];
                &&& f.wire == w
                &&& f.is_start == is_start
                &&& f.from == p
                &&& is_near(p, f.to, snap)
            }),
{
    let wires = sheet.wires@;
    let ends = wire_ends(wires);
    let t: int = 10_000;
    lemma_targets(sheet, p);
    lemma_meets_pin(sheet.symbols@, p, t);
    lemma_meets_label(sheet.labels@, p, t);
    lemma_wire_ends(wires, w);
    let own = if is_start {
        2 * w
    } else {
        2 * w + 1
    };
    assert forall|k: int| 0 <= k < ends.len() && k != own implies !spatial_index::near(
        p,
        #[trigger] ends[k],
        t,
    ) by {
        lemma_wire_end_is(wires, k);
        if k / 2 != w {
            assert(far(wires[k / 2], p, t));
        }
    }
    law_only_near_points_are_counted(ends, p, t, own);
    assert forall|j: int| 0 <= j < wires.len() implies !(on_segment(
        p,
        (#[trigger] wires[j]).start,
        wires[j].end,
        t,
    ) && !coincident(p, wires[j].start, t) && !coincident(p, wires[j].end, t)) by {
        if j != w {
            assert(far(wires[j], p, t));
            crate::geometry::law_point_on_wire(p, wires[j].start, wires[j].end, t);
        }
    }
    assert(!inside_a_wire(wires, p, t));
    assert(!is_connected(sheet, p));
    law_square_distance(p, q);
    lemma_target_is_found(snap_targets(sheet), p, snap, 0, m);
    let to = near_target(snap_targets(sheet), p, snap, 0)->0;
    let f = Fix { wire: w as usize, is_start, from: p, to };
    assert(end_fix(sheet, snap, w, is_start) == seq![f]);
    lemma_fix_is_listed(sheet, snap, wires.len(), w, is_start, f);
    let k = wire_fixes(sheet, snap, wires.len()).index_of(f);
    assert(wire_fixes(sheet, snap, wires.len())[k] == f);
}

/// The square of a distance is the sum of the squares along both axes.
pub proof fn law_square_distance(p: Point, q: Point)
    ensures
        square_distance(p, q) == (p.x - q.x) * (p.x - q.x) + (p.y - q.y) * (p.y - q.y),
{
    let dx = p.x - q.x;
    let dy = p.y - q.y;
    let gx = gap(p.x as int, q.x as int);
    let gy = gap(p.y as int, q.y as int);
    assert(gx == dx || gx == -dx);
    assert(gy == dy || gy == -dy);
    assert((-dx) * (-dx) == dx * dx) by (nonlinear_arith);
    assert((-dy) * (-dy) == dy * dy) by (nonlinear_arith);
}

proof fn lemma_count_severity(list: Seq<ErcViolation>, severity: Seq<char>, least: int, n: nat)
    requires
        n <= list.len(),
    ensures
        count_severity(list, severity, least, n) > 0 <==> rank(severity) >= least && exists|i: int|
            0 <= i < n && (#[trigger] list[i]).severity@ == severity,
    decreases n,
{
    if n > 0 {
        lemma_count_severity(list, severity, least, (n - 1) as nat);
    }
}

/// Errors are counted under every filter, warnings under every filter but that
/// for errors.
pub proof fn law_filtered_counts(list: Seq<ErcViolation>, filter: Seq<char>)
    ensures
        count_severity(list, "error"@, rank(filter), list.len()) > 0 <==> exists|i: int|
            0 <= i < list.len() && (#[trigger] list[i]).severity@ == "error"@,
        count_severity(list, "warning"@, rank(filter), list.len()) > 0 <==> filter != "error"@
            && exists|i: int| 0 <= i < list.len() && (#[trigger] list[i]).severity@ == "warning"@,
{
    reveal_strlit("error");
    reveal_strlit("warning");
    assert("error"@.len() != "warning"@.len());
    lemma_count_severity(list, "error"@, rank(filter), list.len());
    lemma_count_severity(list, "warning"@, rank(filter), list.len());
}

} // verus!
