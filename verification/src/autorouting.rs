//! Revision-bound autorouting.
//!
//! Routing happens in a run directory of its own, on a scratch board. The
//! board is replaced only where it is still the text that was approved, and
//! only after every step before that left what it should.
use crate::artifacts::{is_artifact, FileStatus};
use crate::json::{Json, JsonView};
use crate::revision::{approval, check_approval, sha256_text, text_digest, Approval};
use crate::seqs::{models, push_model};
use crate::sexp::{SexpNode, SexpView};
use crate::text::{self, decimal, joined, lines_from, lossy, trimmed};
use vstd::prelude::*;

verus! {

/// The script by which KiCad's Python exports a board for routing.
pub const EXPORT_DSN_SCRIPT: &'static str = "
import json
import pcbnew
import sys

board = pcbnew.LoadBoard(sys.argv[1])
if board is None:
    raise RuntimeError(\"KiCad could not load the source board\")
if not pcbnew.ExportSpecctraDSN(board, sys.argv[2]):
    raise RuntimeError(\"KiCad failed to export the Specctra DSN\")
print(json.dumps({\"footprints\": len(board.Footprints()), \"tracks\": len(board.Tracks())}))
";

/// The script by which KiCad's Python imports a routed session into a scratch
/// board.
pub const IMPORT_SES_SCRIPT: &'static str = "
import json
import pcbnew
import sys

board = pcbnew.LoadBoard(sys.argv[1])
if board is None:
    raise RuntimeError(\"KiCad could not load the source board\")
before_footprints = len(board.Footprints())
before_tracks = len(board.Tracks())
if not pcbnew.ImportSpecctraSES(board, sys.argv[2]):
    raise RuntimeError(\"KiCad failed to import the Specctra session\")
if len(board.Footprints()) != before_footprints:
    raise RuntimeError(\"Specctra import changed the footprint count\")
if not pcbnew.SaveBoard(sys.argv[3], board):
    raise RuntimeError(\"KiCad failed to save the routed scratch board\")
check = pcbnew.LoadBoard(sys.argv[3])
if check is None:
    raise RuntimeError(\"KiCad could not reload the routed scratch board\")
if len(check.Footprints()) != before_footprints:
    raise RuntimeError(\"Routed scratch board failed the footprint-count readback\")
print(json.dumps({
    \"footprints\": len(check.Footprints()),
    \"tracks_before\": before_tracks,
    \"tracks_after\": len(check.Tracks()),
}))
";

// ─── Programs ─────────────────────────────────────────────────────────────

/// What is told of a file that is not there.
pub open spec fn not_found(path: Seq<char>, label: Seq<char>) -> Seq<char> {
    label + " was not found at "@ + path
}

/// The path, if a file stands there.
pub fn existing_file(path: &str, is_file: bool, label: &str) -> (r: Result<String, String>)
    ensures
        r is Ok <==> is_file,
        r matches Ok(p) ==> p@ == path@,
        r matches Err(e) ==> e@ == not_found(path@, label@),
{
    if !is_file {
        return Err(text::cat3(label, " was not found at ", path));
    }
    Ok(path.to_owned())
}

/// A place where a program may stand.
pub struct Candidate {
    pub path: String,
    pub is_file: bool,
}

/// The first place at or after `from` where there is a file.
pub open spec fn first_file(places: Seq<Candidate>, from: int) -> Option<Seq<char>>
    decreases places.len() - from,
{
    if from < 0 || from >= places.len() {
        None
    } else if places[from].is_file {
        Some(places[from].path@)
    } else {
        first_file(places, from + 1)
    }
}

/// A result as texts.
pub open spec fn text_result(r: Result<String, String>) -> Result<Seq<char>, Seq<char>> {
    match r {
        Ok(t) => Ok(t@),
        Err(e) => Err(e@),
    }
}

/// Where the program is: where the caller says, which must be right, or else
/// at the first known place.
pub open spec fn resolved(
    given: Option<Candidate>,
    label: Seq<char>,
    known: Seq<Candidate>,
    missing: Seq<char>,
) -> Result<Seq<char>, Seq<char>> {
    match given {
        Some(g) => if g.is_file {
            Ok(g.path@)
        } else {
            Err(not_found(g.path@, label))
        },
        None => match first_file(known, 0) {
            Some(p) => Ok(p),
            None => Err(missing),
        },
    }
}

fn resolve_program(
    given: &Option<Candidate>,
    label: &str,
    known: &Vec<Candidate>,
    missing: &str,
) -> (r: Result<String, String>)
    ensures
        text_result(r) == resolved(*given, label@, known@, missing@),
{
    if let Some(g) = given {
        return existing_file(g.path.as_str(), g.is_file, label);
    }
    let mut i: usize = 0;
    while i < known.len()
        invariant
            i <= known@.len(),
            given is None,
            first_file(known@, 0) == first_file(known@, i as int),
        decreases known@.len() - i,
    {
        if known[i].is_file {
            return Ok(known[i].path.as_str().to_owned());
        }
        i += 1;
    }
    Err(missing.to_owned())
}

/// Where KiCad's Python is.
pub fn resolve_kicad_python(given: &Option<Candidate>, known: &Vec<Candidate>) -> (r: Result<
    String,
    String,
>)
    ensures
        text_result(r) == resolved(
            *given,
            "KiCad Python"@,
            known@,
            "KiCad Python with the pcbnew module was not found; pass kicad_python explicitly"@,
        ),
{
    resolve_program(
        given,
        "KiCad Python",
        known,
        "KiCad Python with the pcbnew module was not found; pass kicad_python explicitly",
    )
}

/// Where the autorouter is.
pub fn resolve_freerouting(given: &Option<Candidate>, known: &Vec<Candidate>) -> (r: Result<
    String,
    String,
>)
    ensures
        text_result(r) == resolved(
            *given,
            "Freerouting executable"@,
            known@,
            "Freerouting executable was not found; pass freerouting_executable explicitly"@,
        ),
{
    resolve_program(
        given,
        "Freerouting executable",
        known,
        "Freerouting executable was not found; pass freerouting_executable explicitly",
    )
}

// ─── Settings ─────────────────────────────────────────────────────────────

/// The number under that name, or the default.
pub open spec fn number_or(args: JsonView, key: Seq<char>, default: u64) -> nat {
    match args.field_number(key) {
        Some(n) => n,
        None => default as nat,
    }
}

/// What is told of a number out of its bounds.
pub open spec fn bounds_error(key: Seq<char>, min: u64, max: u64) -> Seq<char> {
    "Argument '"@ + key + "' must be between "@ + decimal(min as nat) + " and "@ + decimal(
        max as nat,
    )
}

/// The number under that name, or the default, if it is within the bounds.
pub fn parse_u64(args: &Json, key: &str, default: u64, min: u64, max: u64) -> (r: Result<
    u64,
    String,
>)
    ensures
        match r {
            Ok(n) => n == number_or(args@, key@, default) && min <= n <= max,
            Err(e) => !(min <= number_or(args@, key@, default) <= max) && e@ == bounds_error(
                key@,
                min,
                max,
            ),
        },
{
    let value: u64 = match args.get_number(key) {
        Some(n) => n,
        None => default,
    };
    if value < min || value > max {
        let low = text::decimal_text(min);
        let high = text::decimal_text(max);
        let mut e = text::cat5("Argument '", key, "' must be between ", low.as_str(), " and ");
        e.append(high.as_str());
        return Err(e);
    }
    Ok(value)
}

/// How a board is routed.
#[derive(Clone, Copy, PartialEq, Eq, Structural, Debug)]
pub struct RouteSettings {
    pub max_passes: u64,
    pub threads: u64,
    pub timeout_seconds: u64,
    pub copper_to_edge_clearance_um: u64,
    pub strict_drc: bool,
}

/// The truth value under that name; true where there is none.
pub open spec fn true_unless(args: JsonView, key: Seq<char>) -> bool {
    match args.field_bool(key) {
        Some(b) => b,
        None => true,
    }
}

/// How the arguments ask a board to be routed, or the first that is wrong.
pub open spec fn settings_of(args: JsonView) -> Result<RouteSettings, Seq<char>> {
    let passes = number_or(args, "max_passes"@, 40);
    let threads = number_or(args, "threads"@, 4);
    let timeout = number_or(args, "timeout_seconds"@, 1800);
    let clearance = number_or(args, "copper_to_edge_clearance_um"@, 500);
    if !(1 <= passes <= 200) {
        Err(bounds_error("max_passes"@, 1, 200))
    } else if !(0 <= threads <= 64) {
        Err(bounds_error("threads"@, 0, 64))
    } else if !(30 <= timeout <= 7200) {
        Err(bounds_error("timeout_seconds"@, 30, 7200))
    } else if !(0 <= clearance <= 10_000) {
        Err(bounds_error("copper_to_edge_clearance_um"@, 0, 10_000))
    } else {
        Ok(
            RouteSettings {
                max_passes: passes as u64,
                threads: threads as u64,
                timeout_seconds: timeout as u64,
                copper_to_edge_clearance_um: clearance as u64,
                strict_drc: true_unless(args, "strict_drc"@),
            },
        )
    }
}

/// How the arguments ask a board to be routed.
pub fn route_settings(args: &Json) -> (r: Result<RouteSettings, String>)
    ensures
        match r {
            Ok(s) => settings_of(args@) == Ok::<RouteSettings, Seq<char>>(s),
            Err(e) => settings_of(args@) == Err::<RouteSettings, Seq<char>>(e@),
        },
{
    let max_passes: u64 = match parse_u64(args, "max_passes", 40, 1, 200) {
        Ok(n) => n,
        Err(e) => return Err(e),
    };
    let threads: u64 = match parse_u64(args, "threads", 4, 0, 64) {
        Ok(n) => n,
        Err(e) => return Err(e),
    };
    let timeout_seconds: u64 = match parse_u64(args, "timeout_seconds", 1800, 30, 7200) {
        Ok(n) => n,
        Err(e) => return Err(e),
    };
    let copper_to_edge_clearance_um: u64 = match parse_u64(
        args,
        "copper_to_edge_clearance_um",
        500,
        0,
        10_000,
    ) {
        Ok(n) => n,
        Err(e) => return Err(e),
    };
    let strict_drc = match args.get_bool("strict_drc") {
        Some(b) => b,
        None => true,
    };
    Ok(
        RouteSettings {
            max_passes,
            threads,
            timeout_seconds,
            copper_to_edge_clearance_um,
            strict_drc,
        },
    )
}

// ─── Approval ─────────────────────────────────────────────────────────────

/// Why a path cannot be the board to route.
pub open spec fn board_error(
    path: Seq<char>,
    extension: Option<Seq<char>>,
    is_file: bool,
) -> Option<Seq<char>> {
    if extension != Some("kicad_pcb"@) {
        Some("board must end in .kicad_pcb"@)
    } else if !is_file {
        Some("Board not found: "@ + path)
    } else {
        None
    }
}

/// Whether a path can be the board to route.
pub fn accept_board(path: &str, extension: Option<&str>, is_file: bool) -> (r: Result<(), String>)
    ensures
        match r {
            Ok(_) => board_error(
                path@,
                match extension {
                    Some(e) => Some(e@),
                    None => None,
                },
                is_file,
            ) is None,
            Err(e) => board_error(
                path@,
                match extension {
                    Some(e) => Some(e@),
                    None => None,
                },
                is_file,
            ) == Some(e@),
        },
{
    let right = match extension {
        Some(e) => text::same(e, "kicad_pcb"),
        None => false,
    };
    if !right {
        return Err("board must end in .kicad_pcb".to_owned());
    }
    if !is_file {
        return Err(text::cat2("Board not found: ", path));
    }
    Ok(())
}

/// What is to be routed, and by what.
pub struct RouteJob {
    pub board_sha256: String,
    pub settings: RouteSettings,
    pub kicad_python: String,
    pub freerouting: String,
}

/// The model of a job.
pub ghost struct JobView {
    pub board_sha256: Seq<char>,
    pub settings: RouteSettings,
    pub kicad_python: Seq<char>,
    pub freerouting: Seq<char>,
}

impl View for RouteJob {
    type V = JobView;

    open spec fn view(&self) -> JobView {
        JobView {
            board_sha256: self.board_sha256@,
            settings: self.settings,
            kicad_python: self.kicad_python@,
            freerouting: self.freerouting@,
        }
    }
}

/// What comes of a request: it is refused, it is shown what would be done, or
/// it is carried out.
pub enum RoutePlan {
    Refused(String),
    Preview(RouteJob),
    Approved(RouteJob),
}

/// The model of a plan.
pub ghost enum PlanView {
    Refused(Seq<char>),
    Preview(JobView),
    Approved(JobView),
}

impl View for RoutePlan {
    type V = PlanView;

    open spec fn view(&self) -> PlanView {
        match self {
            RoutePlan::Refused(e) => PlanView::Refused(e@),
            RoutePlan::Preview(j) => PlanView::Preview(j@),
            RoutePlan::Approved(j) => PlanView::Approved(j@),
        }
    }
}

/// What comes of a request on a board of that digest and tree.
pub open spec fn planned(
    args: JsonView,
    current: Seq<char>,
    root: SexpView,
    python: Result<Seq<char>, Seq<char>>,
    router: Result<Seq<char>, Seq<char>>,
) -> PlanView {
    if root.head() != Some("kicad_pcb"@) {
        PlanView::Refused("The requested file is not one complete KiCad PCB document"@)
    } else {
        match (settings_of(args), python, router) {
            (Err(e), _, _) => PlanView::Refused(e),
            (_, Err(e), _) => PlanView::Refused(e),
            (_, _, Err(e)) => PlanView::Refused(e),
            (Ok(settings), Ok(kicad_python), Ok(freerouting)) => {
                let job = JobView { board_sha256: current, settings, kicad_python, freerouting };
                let expected = args.field_text("expected_board_sha256"@);
                if true_unless(args, "dry_run"@) {
                    PlanView::Preview(job)
                } else {
                    match approval(expected, current) {
                        Approval::Missing => PlanView::Refused(
                            "dry_run=false requires expected_board_sha256 from a dry run"@,
                        ),
                        Approval::Stale => PlanView::Refused(
                            "Board revision changed: expected "@ + expected->0 + ", current "@
                                + current + ". Run a new dry run; nothing was modified."@,
                        ),
                        Approval::Granted => PlanView::Approved(job),
                    }
                }
            },
        }
    }
}

/// What comes of a request on a board of that text and tree, with the programs
/// as they were found.
pub fn plan_autoroute(
    args: &Json,
    original: &str,
    root: &SexpNode,
    python: Result<String, String>,
    router: Result<String, String>,
) -> (plan: RoutePlan)
    ensures
        plan@ == planned(
            args@,
            text_digest(original@),
            root@,
            text_result(python),
            text_result(router),
        ),
{
    plan_revision(args, sha256_text(original), root, python, router)
}

/// What comes of a request on a board of that digest and tree.
pub fn plan_revision(
    args: &Json,
    board_sha256: String,
    root: &SexpNode,
    python: Result<String, String>,
    router: Result<String, String>,
) -> (plan: RoutePlan)
    ensures
        plan@ == planned(
            args@,
            board_sha256@,
            root@,
            text_result(python),
            text_result(router),
        ),
{
    if !root.is_headed("kicad_pcb") {
        return RoutePlan::Refused(
            "The requested file is not one complete KiCad PCB document".to_owned(),
        );
    }
    let settings = match route_settings(args) {
        Ok(s) => s,
        Err(e) => return RoutePlan::Refused(e),
    };
    let kicad_python = match python {
        Ok(p) => p,
        Err(e) => return RoutePlan::Refused(e),
    };
    let freerouting = match router {
        Ok(p) => p,
        Err(e) => return RoutePlan::Refused(e),
    };
    let dry_run = match args.get_bool("dry_run") {
        Some(b) => b,
        None => true,
    };
    let expected = args.get_text("expected_board_sha256");
    let approved = check_approval(expected, board_sha256.as_str());
    let refusal = match expected {
        Some(e) => text::cat5(
            "Board revision changed: expected ",
            e.as_str(),
            ", current ",
            board_sha256.as_str(),
            ". Run a new dry run; nothing was modified.",
        ),
        None => "dry_run=false requires expected_board_sha256 from a dry run".to_owned(),
    };
    let job = RouteJob { board_sha256, settings, kicad_python, freerouting };
    if dry_run {
        return RoutePlan::Preview(job);
    }
    match approved {
        Approval::Granted => RoutePlan::Approved(job),
        _ => RoutePlan::Refused(refusal),
    }
}

/// A board is routed only where the caller asks for it in so many words and
/// names the digest of the very text that the board holds: a request is a dry
/// run unless it says otherwise.
pub proof fn law_routing_is_revision_bound(
    args: JsonView,
    original: Seq<char>,
    root: SexpView,
    python: Result<Seq<char>, Seq<char>>,
    router: Result<Seq<char>, Seq<char>>,
)
    requires
        planned(args, text_digest(original), root, python, router) is Approved,
    ensures
        args.field_bool("dry_run"@) == Some(false),
        args.field_text("expected_board_sha256"@) == Some(text_digest(original)),
        root.head() == Some("kicad_pcb"@),
{
}

/// The digest that a dry run shows is the one that approves the board: with
/// that digest, and no longer as a dry run, the same request is carried out.
pub proof fn law_preview_leads_to_approval(
    preview: JsonView,
    apply: JsonView,
    original: Seq<char>,
    root: SexpView,
    python: Result<Seq<char>, Seq<char>>,
    router: Result<Seq<char>, Seq<char>>,
)
    requires
        planned(preview, text_digest(original), root, python, router) is Preview,
        settings_of(apply) == settings_of(preview),
        apply.field_bool("dry_run"@) == Some(false),
        apply.field_text("expected_board_sha256"@) == Some(
            planned(preview, text_digest(original), root, python, router)->Preview_0.board_sha256,
        ),
    ensures
        planned(apply, text_digest(original), root, python, router) == PlanView::Approved(
            planned(preview, text_digest(original), root, python, router)->Preview_0,
        ),
{
}

// ─── Commands ─────────────────────────────────────────────────────────────

/// The names of the files of a run.
pub struct RunFiles {
    pub dsn: String,
    pub ses: String,
    pub routed_board: String,
    pub original_backup: String,
    pub freerouting_drc: String,
}

/// The names of the files of a run for a board of that name.
pub fn run_files(stem: Option<&str>) -> (r: RunFiles)
    ensures
        ({
            let s = match stem {
                Some(s) => s@,
                None => "board"@,
            };
            &&& r.dsn@ == s + ".dsn"@
            &&& r.ses@ == s + ".ses"@
            &&& r.routed_board@ == s + ".routed.kicad_pcb"@
            &&& r.original_backup@ == s + ".original.kicad_pcb"@
            &&& r.freerouting_drc@ == s + ".freerouting-drc.json"@
        }),
{
    let s = match stem {
        Some(s) => s,
        None => "board",
    };
    RunFiles {
        dsn: text::cat2(s, ".dsn"),
        ses: text::cat2(s, ".ses"),
        routed_board: text::cat2(s, ".routed.kicad_pcb"),
        original_backup: text::cat2(s, ".original.kicad_pcb"),
        freerouting_drc: text::cat2(s, ".freerouting-drc.json"),
    }
}

/// The arguments by which KiCad's Python exports the board.
pub fn export_args<'a>(board: &'a str, dsn: &'a str) -> (args: Vec<&'a str>)
    ensures
        models(args@) == seq!["-c"@, EXPORT_DSN_SCRIPT@, board@, dsn@],
{
    let args: Vec<&'a str> = vec!["-c", EXPORT_DSN_SCRIPT, board, dsn];
    proof {
        assert(models(args@) =~= seq!["-c"@, EXPORT_DSN_SCRIPT@, board@, dsn@]);
    }
    args
}

/// The arguments by which KiCad's Python imports the session.
pub fn import_args<'a>(board: &'a str, ses: &'a str, routed: &'a str) -> (args: Vec<&'a str>)
    ensures
        models(args@) == seq!["-c"@, IMPORT_SES_SCRIPT@, board@, ses@, routed@],
{
    let args: Vec<&'a str> = vec!["-c", IMPORT_SES_SCRIPT, board, ses, routed];
    proof {
        assert(models(args@) =~= seq!["-c"@, IMPORT_SES_SCRIPT@, board@, ses@, routed@]);
    }
    args
}

/// A truth value in words.
pub open spec fn bool_text(b: bool) -> Seq<char> {
    if b {
        "true"@
    } else {
        "false"@
    }
}

/// The options that both runs of the autorouter end in.
pub open spec fn router_options(settings: RouteSettings, data: Seq<char>) -> Seq<Seq<char>> {
    seq![
        "--router.strict_drc="@ + bool_text(settings.strict_drc),
        "--router.copper_to_edge_clearance_um="@ + decimal(
            settings.copper_to_edge_clearance_um as nat,
        ),
        "--user_data_path="@ + data,
        "--logging.console.enabled=true"@,
        "--logging.console.level=INFO"@,
    ]
}

/// The arguments that route.
pub open spec fn routing_args(
    settings: RouteSettings,
    dsn: Seq<char>,
    ses: Seq<char>,
    data: Seq<char>,
) -> Seq<Seq<char>> {
    seq![
        "--gui.enabled=false"@,
        "--api_server.enabled=false"@,
        "-da"@,
        "-de"@,
        dsn,
        "-do"@,
        ses,
        "-mp"@,
        decimal(settings.max_passes as nat),
        "-mt"@,
        decimal(settings.threads as nat),
    ] + router_options(settings, data)
}

/// The arguments that check the routed session. Checking is a run of its own:
/// together with an output file the autorouter would not route.
pub open spec fn checking_args(
    settings: RouteSettings,
    dsn: Seq<char>,
    ses: Seq<char>,
    report: Seq<char>,
    data: Seq<char>,
) -> Seq<Seq<char>> {
    seq![
        "--gui.enabled=false"@,
        "--api_server.enabled=false"@,
        "-da"@,
        "-de"@,
        dsn + "+"@ + ses,
        "-drc"@,
        report,
    ] + router_options(settings, data)
}

fn push_router_options(args: &mut Vec<String>, settings: &RouteSettings, data: &str)
    ensures
        models(final(args)@) == models(old(args)@) + router_options(*settings, data@),
{
    let ghost had = models(args@);
    push_model(
        args,
        text::cat2(
            "--router.strict_drc=",
            if settings.strict_drc {
                "true"
            } else {
                "false"
            },
        ),
    );
    let clearance = text::decimal_text(settings.copper_to_edge_clearance_um);
    push_model(
        args,
        text::cat2("--router.copper_to_edge_clearance_um=", clearance.as_str()),
    );
    push_model(args, text::cat2("--user_data_path=", data));
    push_model(args, "--logging.console.enabled=true".to_owned());
    push_model(args, "--logging.console.level=INFO".to_owned());
    proof {
        assert(models(args@) =~= had + router_options(*settings, data@));
    }
}

/// The arguments that route.
pub fn route_args(settings: &RouteSettings, dsn: &str, ses: &str, data: &str) -> (args: Vec<String>)
    ensures
        models(args@) == routing_args(*settings, dsn@, ses@, data@),
{
    let mut args: Vec<String> = Vec::new();
    push_model(&mut args, "--gui.enabled=false".to_owned());
    push_model(&mut args, "--api_server.enabled=false".to_owned());
    push_model(&mut args, "-da".to_owned());
    push_model(&mut args, "-de".to_owned());
    push_model(&mut args, dsn.to_owned());
    push_model(&mut args, "-do".to_owned());
    push_model(&mut args, ses.to_owned());
    push_model(&mut args, "-mp".to_owned());
    push_model(&mut args, text::decimal_text(settings.max_passes));
    push_model(&mut args, "-mt".to_owned());
    push_model(&mut args, text::decimal_text(settings.threads));
    push_router_options(&mut args, settings, data);
    proof {
        assert(models(args@) =~= routing_args(*settings, dsn@, ses@, data@));
    }
    args
}

/// The arguments that check the routed session.
pub fn check_args(
    settings: &RouteSettings,
    dsn: &str,
    ses: &str,
    report: &str,
    data: &str,
) -> (args: Vec<String>)
    ensures
        models(args@) == checking_args(*settings, dsn@, ses@, report@, data@),
{
    let mut args: Vec<String> = Vec::new();
    push_model(&mut args, "--gui.enabled=false".to_owned());
    push_model(&mut args, "--api_server.enabled=false".to_owned());
    push_model(&mut args, "-da".to_owned());
    push_model(&mut args, "-de".to_owned());
    push_model(&mut args, text::cat3(dsn, "+", ses));
    push_model(&mut args, "-drc".to_owned());
    push_model(&mut args, report.to_owned());
    push_router_options(&mut args, settings, data);
    proof {
        assert(models(args@) =~= checking_args(*settings, dsn@, ses@, report@, data@));
    }
    args
}

/// What a command wrote: its trimmed outputs that are not empty, on lines of
/// their own.
pub open spec fn output_text(stdout: Seq<char>, stderr: Seq<char>) -> Seq<char> {
    let out = trimmed(stdout);
    let err = trimmed(stderr);
    if out.len() > 0 && err.len() > 0 {
        out + "\n"@ + err
    } else {
        out + err
    }
}

/// What a command wrote.
pub fn command_text(stdout: &[u8], stderr: &[u8]) -> (r: String)
    ensures
        r@ == output_text(lossy(stdout@), lossy(stderr@)),
{
    let out = text::from_lossy(stdout);
    let err = text::from_lossy(stderr);
    shown_output(out.as_str(), err.as_str())
}

/// What a command with these outputs wrote.
pub fn shown_output(stdout: &str, stderr: &str) -> (r: String)
    ensures
        r@ == output_text(stdout@, stderr@),
{
    let out = text::trim(stdout);
    let err = text::trim(stderr);
    if !out.as_str().is_empty() && !err.as_str().is_empty() {
        text::cat3(out.as_str(), "\n", err.as_str())
    } else {
        text::cat2(out.as_str(), err.as_str())
    }
}

/// How many lines of a log are shown.
pub const LOG_TAIL_LINES: usize = 80;

/// The last lines of a log.
pub open spec fn tail_of(log: Seq<char>) -> Seq<char> {
    let lines = lines_from(log, 0);
    if lines.len() > LOG_TAIL_LINES {
        joined(lines.skip(lines.len() - LOG_TAIL_LINES), "\n"@)
    } else {
        joined(lines, "\n"@)
    }
}

/// The last lines of a log.
pub fn log_tail(log: &str) -> (r: String)
    ensures
        r@ == tail_of(log@),
{
    let lines = text::lines(log);
    let ghost all = models(lines@);
    let from: usize = if lines.len() > LOG_TAIL_LINES {
        lines.len() - LOG_TAIL_LINES
    } else {
        0
    };
    let mut shown: Vec<String> = Vec::new();
    let mut i: usize = from;
    proof {
        assert(all.len() == lines@.len());
        assert(models(shown@) =~= all.subrange(from as int, from as int));
    }
    while i < lines.len()
        invariant
            from <= i <= lines@.len(),
            all == models(lines@),
            models(shown@) == all.subrange(from as int, i as int),
        decreases lines@.len() - i,
    {
        push_model(&mut shown, lines[i].as_str().to_owned());
        proof {
            assert(all.subrange(from as int, i + 1) =~= all.subrange(from as int, i as int).push(
                lines@[i as int]@,
            ));
        }
        i += 1;
    }
    proof {
        assert(all.subrange(from as int, all.len() as int) =~= all.skip(from as int));
        assert(all.skip(0) =~= all);
    }
    text::join(&shown, "\n")
}

// ─── Stages ───────────────────────────────────────────────────────────────

/// What is being done on an approved board.
#[derive(Clone, Copy, PartialEq, Eq, Structural, Debug)]
pub enum Stage {
    Export,
    Route,
    Check,
    Import,
    Replace,
    ReadBack,
    Done,
}

/// How a command ended.
pub enum CommandEnd {
    TimedOut,
    Failed(String),
    Succeeded,
}

/// What came of a stage: how its command ended and what stands where its file
/// was to be; whether the routed text is a whole board; whether the board could
/// be replaced, which the write itself refuses where the board has changed; and
/// whether the board reads back as the routed text.
pub enum StageReport {
    Command(CommandEnd, FileStatus),
    Routed(CommandEnd, bool),
    Replaced(Result<(), String>),
    Read(bool),
}

/// The name of a command.
pub open spec fn stage_label(stage: Stage) -> Seq<char> {
    match stage {
        Stage::Export => "KiCad Specctra export"@,
        Stage::Route => "Freerouting"@,
        Stage::Check => "Freerouting DRC"@,
        _ => "KiCad Specctra import"@,
    }
}

/// What is told where a command left no file.
pub open spec fn no_artifact(stage: Stage) -> Seq<char> {
    match stage {
        Stage::Export => "KiCad reported success but produced no Specctra DSN"@,
        Stage::Route => "Freerouting reported success but produced no Specctra session"@,
        _ => "Freerouting DRC reported success but produced no report"@,
    }
}

/// What is told of a command that did not succeed.
pub open spec fn command_error(stage: Stage, end: CommandEnd, timeout: nat) -> Option<Seq<char>> {
    match end {
        CommandEnd::TimedOut => Some(
            stage_label(stage) + " timed out after "@ + decimal(timeout) + " seconds"@,
        ),
        CommandEnd::Failed(output) => Some(stage_label(stage) + " failed: "@ + output@),
        CommandEnd::Succeeded => None,
    }
}

/// Whether the report is one that the stage gives.
pub open spec fn is_report_of(stage: Stage, report: StageReport) -> bool {
    match stage {
        Stage::Export | Stage::Route | Stage::Check => report is Command,
        Stage::Import => report is Routed,
        Stage::Replace => report is Replaced,
        Stage::ReadBack => report is Read,
        Stage::Done => false,
    }
}

/// Why a stage did not do its work.
pub open spec fn stage_error(stage: Stage, report: StageReport, timeout: nat) -> Option<Seq<char>> {
    match report {
        StageReport::Command(end, status) => match command_error(stage, end, timeout) {
            Some(e) => Some(e),
            None => if is_artifact(status) {
                None
            } else {
                Some(no_artifact(stage))
            },
        },
        StageReport::Routed(end, complete) => match command_error(stage, end, timeout) {
            Some(e) => Some(e),
            None => if complete {
                None
            } else {
                Some("KiCad's routed scratch output is not a complete PCB document"@)
            },
        },
        StageReport::Replaced(r) => match r {
            Ok(_) => None,
            Err(e) => Some(e@),
        },
        StageReport::Read(same) => if same {
            None
        } else {
            Some("Atomic board write failed readback verification"@)
        },
    }
}

/// The stage that follows.
pub open spec fn following(stage: Stage) -> Stage {
    match stage {
        Stage::Export => Stage::Route,
        Stage::Route => Stage::Check,
        Stage::Check => Stage::Import,
        Stage::Import => Stage::Replace,
        Stage::Replace => Stage::ReadBack,
        Stage::ReadBack => Stage::Done,
        Stage::Done => Stage::Done,
    }
}

fn label_of(stage: Stage) -> (r: &'static str)
    ensures
        r@ == stage_label(stage),
{
    match stage {
        Stage::Export => "KiCad Specctra export",
        Stage::Route => "Freerouting",
        Stage::Check => "Freerouting DRC",
        _ => "KiCad Specctra import",
    }
}

fn command_failure(stage: Stage, end: &CommandEnd, timeout: u64) -> (r: Option<String>)
    ensures
        match r {
            Some(e) => command_error(stage, *end, timeout as nat) == Some(e@),
            None => command_error(stage, *end, timeout as nat) is None,
        },
{
    match end {
        CommandEnd::TimedOut => {
            let n = text::decimal_text(timeout);
            Some(text::cat4(label_of(stage), " timed out after ", n.as_str(), " seconds"))
        },
        CommandEnd::Failed(output) => Some(
            text::cat3(label_of(stage), " failed: ", output.as_str()),
        ),
        CommandEnd::Succeeded => None,
    }
}

/// The stage that follows one with that report, or why there is none: the work
/// ends at the first stage that did not do what it should.
pub fn next_stage(stage: Stage, report: &StageReport, timeout_seconds: u64) -> (r: Result<
    Stage,
    String,
>)
    requires
        is_report_of(stage, *report),
    ensures
        match r {
            Ok(next) => stage_error(stage, *report, timeout_seconds as nat) is None && next
                == following(stage),
            Err(e) => stage_error(stage, *report, timeout_seconds as nat) == Some(e@),
        },
{
    match report {
        StageReport::Command(end, status) => {
            if let Some(e) = command_failure(stage, end, timeout_seconds) {
                return Err(e);
            }
            let left = match status {
                FileStatus::Size(n) => *n > 0,
                _ => false,
            };
            if !left {
                let message = match stage {
                    Stage::Export => "KiCad reported success but produced no Specctra DSN",
                    Stage::Route => "Freerouting reported success but produced no Specctra session",
                    _ => "Freerouting DRC reported success but produced no report",
                };
                return Err(message.to_owned());
            }
        },
        StageReport::Routed(end, complete) => {
            if let Some(e) = command_failure(stage, end, timeout_seconds) {
                return Err(e);
            }
            if !*complete {
                return Err(
                    "KiCad's routed scratch output is not a complete PCB document".to_owned(),
                );
            }
        },
        StageReport::Replaced(r) => {
            if let Err(e) = r {
                return Err(e.as_str().to_owned());
            }
        },
        StageReport::Read(same) => {
            if !*same {
                return Err("Atomic board write failed readback verification".to_owned());
            }
        },
    }
    Ok(
        match stage {
            Stage::Export => Stage::Route,
            Stage::Route => Stage::Check,
            Stage::Check => Stage::Import,
            Stage::Import => Stage::Replace,
            Stage::Replace => Stage::ReadBack,
            _ => Stage::Done,
        },
    )
}

/// The stage that a run reaches on the first `n` reports; `None` once a stage
/// has failed.
pub open spec fn reached(reports: Seq<StageReport>, timeout: nat, n: nat) -> Option<Stage>
    decreases n,
{
    if n == 0 {
        Some(Stage::Export)
    } else {
        match reached(reports, timeout, (n - 1) as nat) {
            None => None,
            Some(stage) => if is_report_of(stage, reports[n - 1]) && stage_error(
                stage,
                reports[n - 1],
                timeout,
            ) is None {
                Some(following(stage))
            } else {
                None
            },
        }
    }
}

/// A run comes to replacing the board only after the export, the route, its
/// check and the import have each succeeded and left what they should; and it
/// is done only where the board reads back as the routed text.
pub proof fn law_board_is_replaced_last(reports: Seq<StageReport>, timeout: nat, n: nat)
    requires
        n <= reports.len(),
    ensures
        reached(reports, timeout, n) == Some(Stage::Replace) ==> {
            &&& n == 4
            &&& stage_error(Stage::Export, reports[0], timeout) is None
            &&& stage_error(Stage::Route, reports[1], timeout) is None
            &&& stage_error(Stage::Check, reports[2], timeout) is None
            &&& stage_error(Stage::Import, reports[3], timeout) is None
        },
        reached(reports, timeout, n) == Some(Stage::Done) ==> {
            &&& n == 6
            &&& stage_error(Stage::Replace, reports[4], timeout) is None
            &&& reports[5] == StageReport::Read(true)
        },
{
    reveal_with_fuel(reached, 8);
    if n >= 7 {
        lemma_run_is_short(reports, timeout, n);
    }
}

proof fn lemma_run_is_short(reports: Seq<StageReport>, timeout: nat, n: nat)
    requires
        n >= 7,
    ensures
        reached(reports, timeout, n) is None,
    decreases n,
{
    if n == 7 {
        reveal_with_fuel(reached, 8);
    } else {
        lemma_run_is_short(reports, timeout, (n - 1) as nat);
    }
}

// ─── Laws on settings and programs ────────────────────────────────────────

/// Settings are accepted exactly within these bounds: 1 to 200 passes, at most 64
/// threads, 30 to 7200 seconds, and a clearance of at most 10 mm. Each is the
/// number that is given, or 40, 4, 1800 and 500 where none is.
pub proof fn law_route_settings_are_bounded(args: JsonView)
    ensures
        ({
            let passes = match args.field_number("max_passes"@) {
                Some(n) => n,
                None => 40,
            };
            let threads = match args.field_number("threads"@) {
                Some(n) => n,
                None => 4,
            };
            let seconds = match args.field_number("timeout_seconds"@) {
                Some(n) => n,
                None => 1800,
            };
            let clearance = match args.field_number("copper_to_edge_clearance_um"@) {
                Some(n) => n,
                None => 500,
            };
            &&& settings_of(args) is Ok <==> 1 <= passes <= 200 && threads <= 64 && 30 <= seconds
                <= 7200 && clearance <= 10_000
            &&& settings_of(args) matches Ok(s) ==> s.max_passes == passes && s.threads == threads
                && s.timeout_seconds == seconds && s.copper_to_edge_clearance_um == clearance
                && s.strict_drc == (args.field_bool("strict_drc"@) != Some(false))
        }),
{
}

proof fn lemma_first_file(places: Seq<Candidate>, from: int)
    requires
        0 <= from,
    ensures
        match first_file(places, from) {
            Some(p) => exists|i: int|
                from <= i < places.len() && (#[trigger] places[i]).is_file && places[i].path@ == p
                    && forall|j: int| from <= j < i ==> !(#[trigger] places[j]).is_file,
            None => forall|i: int| from <= i < places.len() ==> !(#[trigger] places[i]).is_file,
        },
    decreases places.len() - from,
{
    if from < places.len() {
        if places[from].is_file {
            assert(places[from].path@ == first_file(places, from)->0);
        } else {
            lemma_first_file(places, from + 1);
            if let Some(p) = first_file(places, from + 1) {
                let i = choose|i: int|
                    from + 1 <= i < places.len() && (#[trigger] places[i]).is_file
                        && places[i].path@ == p && forall|j: int|
                        from + 1 <= j < i ==> !(#[trigger] places[j]).is_file;
                assert(places[i].is_file);
            }
        }
    }
}

/// A program is taken from where the caller says, and from nowhere else if it is
/// not there; without a word of the caller it is the first known place that has
/// a file.
pub proof fn law_programs_are_resolved(
    given: Option<Candidate>,
    label: Seq<char>,
    known: Seq<Candidate>,
    missing: Seq<char>,
)
    ensures
        given matches Some(g) ==> (resolved(given, label, known, missing) is Ok <==> g.is_file),
        given matches Some(g) ==> (g.is_file ==> resolved(given, label, known, missing) == Ok::<
            Seq<char>,
            Seq<char>,
        >(g.path@)),
        given is None ==> (resolved(given, label, known, missing) is Ok <==> exists|i: int|
            0 <= i < known.len() && (#[trigger] known[i]).is_file),
        given is None ==> (resolved(given, label, known, missing) matches Ok(p) ==> exists|i: int|
            0 <= i < known.len() && (#[trigger] known[i]).is_file && known[i].path@ == p
                && forall|j: int| 0 <= j < i ==> !(#[trigger] known[j]).is_file),
{
    lemma_first_file(known, 0);
}

/// The end of a log is its last eighty lines, or all of it where it has no more.
pub proof fn law_log_tail(log: Seq<char>)
    ensures
        lines_from(log, 0).len() <= 80 ==> tail_of(log) == joined(lines_from(log, 0), "\n"@),
        lines_from(log, 0).len() > 80 ==> exists|tail: Seq<Seq<char>>|
            tail.len() == 80 && tail == lines_from(log, 0).skip(lines_from(log, 0).len() - 80)
                && tail_of(log) == #[trigger] joined(tail, "\n"@),
{
    let lines = lines_from(log, 0);
    if lines.len() > 80 {
        let tail = lines.skip(lines.len() - 80);
        assert(tail.len() == 80);
        assert(tail_of(log) == joined(tail, "\n"@));
    }
}

/// A stage is done only if its command succeeded and left what it was to leave;
/// one that ran out of time, failed or left an empty file stops the run.
pub proof fn law_stages_that_are_done(stage: Stage, end: CommandEnd, status: FileStatus, timeout: nat)
    ensures
        stage_error(stage, StageReport::Command(end, status), timeout) is None <==> end is Succeeded
            && (status matches FileStatus::Size(n) && n > 0),
        stage_error(stage, StageReport::Routed(end, true), timeout) is None <==> end is Succeeded,
        stage_error(stage, StageReport::Routed(end, false), timeout) is Some,
        stage_error(stage, StageReport::Read(false), timeout) is Some,
{
}

/// A run that routes is given the design, the session to write, the number of
/// passes and that of threads, each behind its own option, and what was asked of
/// the rules; the run that checks is given no session to write.
pub proof fn law_router_arguments(
    settings: RouteSettings,
    dsn: Seq<char>,
    ses: Seq<char>,
    report: Seq<char>,
    data: Seq<char>,
)
    ensures
        ({
            let args = routing_args(settings, dsn, ses, data);
            &&& args[3] == "-de"@ && args[4] == dsn
            &&& args[5] == "-do"@ && args[6] == ses
            &&& args[7] == "-mp"@ && args[8] == decimal(settings.max_passes as nat)
            &&& args[9] == "-mt"@ && args[10] == decimal(settings.threads as nat)
            &&& args[11] == "--router.strict_drc="@ + (if settings.strict_drc {
                "true"@
            } else {
                "false"@
            })
            &&& args[12] == "--router.copper_to_edge_clearance_um="@ + decimal(
                settings.copper_to_edge_clearance_um as nat,
            )
            &&& args.contains("--gui.enabled=false"@)
        }),
        ({
            let args = checking_args(settings, dsn, ses, report, data);
            &&& args[3] == "-de"@ && args[4] == dsn + "+"@ + ses
            &&& args[5] == "-drc"@ && args[6] == report
            &&& args.len() == routing_args(settings, dsn, ses, data).len() - 4
            &&& args.skip(7) == routing_args(settings, dsn, ses, data).skip(11)
        }),
{
    let args = routing_args(settings, dsn, ses, data);
    assert(args[0] == "--gui.enabled=false"@);
    assert(checking_args(settings, dsn, ses, report, data).skip(7) =~= args.skip(11));
}

/// A board can be routed exactly if its name ends as boards do and it is there.
pub proof fn law_boards_that_can_be_routed(
    path: Seq<char>,
    extension: Option<Seq<char>>,
    is_file: bool,
)
    ensures
        board_error(path, extension, is_file) is None <==> extension == Some("kicad_pcb"@)
            && is_file,
{
}

/// What a command wrote is shown trimmed, its errors behind its output; what is
/// empty leaves no blank line.
pub proof fn law_shown_output(stdout: Seq<char>, stderr: Seq<char>)
    ensures
        trimmed(stderr).len() == 0 ==> output_text(stdout, stderr) == trimmed(stdout),
        trimmed(stdout).len() == 0 ==> output_text(stdout, stderr) == trimmed(stderr),
        trimmed(stdout).len() > 0 && trimmed(stderr).len() > 0 ==> output_text(stdout, stderr)
            == trimmed(stdout) + "\n"@ + trimmed(stderr),
{
    assert(trimmed(stderr).len() == 0 ==> trimmed(stdout) + trimmed(stderr) =~= trimmed(stdout));
    assert(trimmed(stdout).len() == 0 ==> trimmed(stdout) + trimmed(stderr) =~= trimmed(stderr));
}

} // verus!
