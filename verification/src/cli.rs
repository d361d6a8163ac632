//! Arguments and failures of `kicad-cli`.
use crate::seqs::{models, push_model};
use crate::text::{self, decimal, joined, lossy, lowercase, signed_decimal, trimmed};
use vstd::prelude::*;

verus! {

// ─── Failures ─────────────────────────────────────────────────────────────

/// What is told of a failed command: the trimmed outputs that are not empty.
pub open spec fn diagnostics(stdout: Seq<char>, stderr: Seq<char>) -> Seq<char> {
    let out = trimmed(stdout);
    let err = trimmed(stderr);
    if out.len() > 0 && err.len() > 0 {
        "stdout:\n"@ + out + "\nstderr:\n"@ + err
    } else if out.len() > 0 {
        "stdout:\n"@ + out
    } else if err.len() > 0 {
        "stderr:\n"@ + err
    } else {
        "no diagnostic output"@
    }
}

/// What is told of a failed command with these outputs.
pub fn output_diagnostics(stdout: &str, stderr: &str) -> (r: String)
    ensures
        r@ == diagnostics(stdout@, stderr@),
{
    let out = text::trim(stdout);
    let err = text::trim(stderr);
    if !out.as_str().is_empty() && !err.as_str().is_empty() {
        text::cat4("stdout:\n", out.as_str(), "\nstderr:\n", err.as_str())
    } else if !out.as_str().is_empty() {
        text::cat2("stdout:\n", out.as_str())
    } else if !err.as_str().is_empty() {
        text::cat2("stderr:\n", err.as_str())
    } else {
        "no diagnostic output".to_owned()
    }
}

/// What is told of a failed command that wrote these bytes.
pub fn cli_failure_diagnostics(stdout: &[u8], stderr: &[u8]) -> (r: String)
    ensures
        r@ == diagnostics(lossy(stdout@), lossy(stderr@)),
{
    let out = text::from_lossy(stdout);
    let err = text::from_lossy(stderr);
    output_diagnostics(out.as_str(), err.as_str())
}

/// What is told of a command that ended with that code; without one, as after
/// a signal, the code is given as minus one.
pub fn exit_failure(code: Option<i32>, stdout: &[u8], stderr: &[u8]) -> (r: String)
    ensures
        r@ == "kicad-cli exited with "@ + signed_decimal(
            match code {
                Some(c) => c as int,
                None => -1,
            },
        ) + ":\n"@ + diagnostics(lossy(stdout@), lossy(stderr@)),
{
    let number: i32 = match code {
        Some(c) => c,
        None => -1,
    };
    let shown = text::signed_text(number);
    let told = cli_failure_diagnostics(stdout, stderr);
    text::cat4("kicad-cli exited with ", shown.as_str(), ":\n", told.as_str())
}

// ─── Schematic export ─────────────────────────────────────────────────────

/// Options of a schematic SVG export.
#[derive(Debug, Clone)]
pub struct SchematicSvgOptions<'a> {
    pub black_and_white: bool,
    pub theme: Option<&'a str>,
}

impl<'a> Default for SchematicSvgOptions<'a> {
    fn default() -> (r: Self)
        ensures
            !r.black_and_white,
            r.theme is None,
    {
        SchematicSvgOptions { black_and_white: false, theme: None }
    }
}

/// A flag, if it is set.
pub open spec fn flag(set: bool, name: Seq<char>) -> Seq<Seq<char>> {
    if set {
        seq![name]
    } else {
        Seq::empty()
    }
}

/// A flag with its value, if there is one.
pub open spec fn valued(name: Seq<char>, value: Option<&str>) -> Seq<Seq<char>> {
    match value {
        Some(v) => seq![name, v@],
        None => Seq::empty(),
    }
}

/// Arguments of a schematic SVG export.
pub fn schematic_svg_args<'a>(
    output_dir: &'a str,
    schematic: &'a str,
    options: &'a SchematicSvgOptions<'a>,
) -> (args: Vec<&'a str>)
    ensures
        models(args@) == seq!["sch"@, "export"@, "svg"@, "--output"@, output_dir@] + flag(
            options.black_and_white,
            "--black-and-white"@,
        ) + valued("--theme"@, options.theme) + seq![schematic@],
{
    let mut args: Vec<&'a str> = vec!["sch", "export", "svg", "--output", output_dir];
    if options.black_and_white {
        push_model(&mut args, "--black-and-white");
    }
    if let Some(theme) = options.theme {
        push_model(&mut args, "--theme");
        push_model(&mut args, theme);
    }
    push_model(&mut args, schematic);
    args
}

/// Options of a schematic PDF export.
#[derive(Debug, Clone)]
pub struct SchematicPdfOptions {
    pub black_and_white: bool,
    pub all_sheets: bool,
}

impl Default for SchematicPdfOptions {
    fn default() -> (r: Self)
        ensures
            !r.black_and_white,
            r.all_sheets,
    {
        SchematicPdfOptions { black_and_white: false, all_sheets: true }
    }
}

/// Arguments of a schematic PDF export.
pub fn schematic_pdf_args<'a>(
    output: &'a str,
    schematic: &'a str,
    options: &SchematicPdfOptions,
) -> (args: Vec<&'a str>)
    ensures
        models(args@) == seq!["sch"@, "export"@, "pdf"@, "--output"@, output@] + flag(
            options.black_and_white,
            "--black-and-white"@,
        ) + (if options.all_sheets {
            Seq::empty()
        } else {
            seq!["--pages"@, "1"@]
        }) + seq![schematic@],
{
    let mut args: Vec<&'a str> = vec!["sch", "export", "pdf", "--output", output];
    if options.black_and_white {
        push_model(&mut args, "--black-and-white");
    }
    if !options.all_sheets {
        push_model(&mut args, "--pages");
        push_model(&mut args, "1");
    }
    push_model(&mut args, schematic);
    args
}

/// Column and filter options of a BOM export. The defaults are those of
/// `kicad-cli` itself.
#[derive(Debug, Clone)]
pub struct BomOptions<'a> {
    /// Ordered field list.
    pub fields: Option<&'a str>,
    /// Ordered column headings.
    pub labels: Option<&'a str>,
    /// Fields whose matching references collapse into one row.
    pub group_by: Option<&'a str>,
    /// Drop parts that are not populated.
    pub exclude_dnp: bool,
}

impl<'a> Default for BomOptions<'a> {
    fn default() -> (r: Self)
        ensures
            r.fields is None,
            r.labels is None,
            r.group_by is None,
            !r.exclude_dnp,
    {
        BomOptions { fields: None, labels: None, group_by: None, exclude_dnp: false }
    }
}

/// Arguments of a BOM export.
pub fn bom_args<'a>(output: &'a str, schematic: &'a str, options: &BomOptions<'a>) -> (args: Vec<
    &'a str,
>)
    ensures
        models(args@) == seq!["sch"@, "export"@, "bom"@, "--output"@, output@] + valued(
            "--fields"@,
            options.fields,
        ) + valued("--labels"@, options.labels) + valued("--group-by"@, options.group_by) + flag(
            options.exclude_dnp,
            "--exclude-dnp"@,
        ) + seq![schematic@],
{
    let mut args: Vec<&'a str> = vec!["sch", "export", "bom", "--output", output];
    if let Some(fields) = options.fields {
        push_model(&mut args, "--fields");
        push_model(&mut args, fields);
    }
    if let Some(labels) = options.labels {
        push_model(&mut args, "--labels");
        push_model(&mut args, labels);
    }
    if let Some(group_by) = options.group_by {
        push_model(&mut args, "--group-by");
        push_model(&mut args, group_by);
    }
    if options.exclude_dnp {
        push_model(&mut args, "--exclude-dnp");
    }
    push_model(&mut args, schematic);
    args
}

/// The name that `kicad-cli` has for a netlist format; a name that it is not
/// known under is passed on in lower case.
pub open spec fn netlist_format(lower: Seq<char>) -> Seq<char> {
    if lower == "kicad"@ || lower == "kicadsexpr"@ || lower == "sexp"@ {
        "kicadsexpr"@
    } else if lower == "xml"@ || lower == "kicadxml"@ {
        "kicadxml"@
    } else if lower == "orcad"@ || lower == "orcadpcb2"@ {
        "orcadpcb2"@
    } else {
        lower
    }
}

/// The name that `kicad-cli` has for a netlist format given in lower case.
pub fn netlist_format_name(lower: &str) -> (r: String)
    ensures
        r@ == netlist_format(lower@),
{
    if text::same(lower, "kicad") || text::same(lower, "kicadsexpr") || text::same(lower, "sexp") {
        "kicadsexpr".to_owned()
    } else if text::same(lower, "xml") || text::same(lower, "kicadxml") {
        "kicadxml".to_owned()
    } else if text::same(lower, "orcad") || text::same(lower, "orcadpcb2") {
        "orcadpcb2".to_owned()
    } else {
        lower.to_owned()
    }
}

/// Arguments of a netlist export.
pub fn netlist_args(output: &str, schematic: &str, format: &str) -> (args: Vec<String>)
    ensures
        models(args@) == seq![
            "sch"@,
            "export"@,
            "netlist"@,
            "--output"@,
            output@,
            "--format"@,
            netlist_format(lowercase(format@)),
            schematic@,
        ],
{
    let lower = text::to_lower(format);
    let name = netlist_format_name(lower.as_str());
    let mut args: Vec<String> = Vec::new();
    push_model(&mut args, "sch".to_owned());
    push_model(&mut args, "export".to_owned());
    push_model(&mut args, "netlist".to_owned());
    push_model(&mut args, "--output".to_owned());
    push_model(&mut args, output.to_owned());
    push_model(&mut args, "--format".to_owned());
    push_model(&mut args, name);
    push_model(&mut args, schematic.to_owned());
    args
}

// ─── Board export ─────────────────────────────────────────────────────────

/// Arguments of a Gerber export: the whole selection is one comma-separated
/// value.
pub fn gerber_args<'a>(output_dir: &'a str, pcb: &'a str, layers_csv: &'a str) -> (args: Vec<
    &'a str,
>)
    ensures
        models(args@) == seq!["pcb"@, "export"@, "gerbers"@, "--output"@, output_dir@] + (
        if layers_csv@.len() > 0 {
            seq!["--layers"@, layers_csv@]
        } else {
            Seq::empty()
        }) + seq![pcb@],
{
    let mut args: Vec<&'a str> = vec!["pcb", "export", "gerbers", "--output", output_dir];
    if !layers_csv.is_empty() {
        push_model(&mut args, "--layers");
        push_model(&mut args, layers_csv);
    }
    push_model(&mut args, pcb);
    args
}

/// Whether the text ends in a path separator of any platform.
pub open spec fn ends_in_separator(s: Seq<char>) -> bool {
    s.len() > 0 && (s.last() == '/' || s.last() == '\\')
}

/// The directory with a separator at its end. An empty text stays empty, as a
/// bare separator would name the root.
pub open spec fn with_separator(dir: Seq<char>, separator: char) -> Seq<char> {
    if dir.len() == 0 || ends_in_separator(dir) {
        dir
    } else {
        dir.push(separator)
    }
}

/// The directory with the given separator at its end.
pub fn separated_dir_arg(output_dir: &str, separator: char) -> (arg: String)
    ensures
        arg@ == with_separator(output_dir@, separator),
{
    let chars = text::chars_of(output_dir);
    let mut arg = output_dir.to_owned();
    if chars.len() > 0 && chars[chars.len() - 1] != '/' && chars[chars.len() - 1] != '\\' {
        arg.push(separator);
    }
    arg
}

/// `std::path::MAIN_SEPARATOR`, the separator of the machine: a slash or a
/// backslash.
#[verifier::external_body]
fn main_separator() -> (c: char)
    ensures
        c == '/' || c == '\\',
{
    std::path::MAIN_SEPARATOR
}

/// The directory argument of a drill export, with the separator of the machine
/// at its end: some versions tell a directory from a file by that alone.
pub fn drill_output_dir_arg(output_dir: &str) -> (arg: String)
    ensures
        exists|separator: char|
            (separator == '/' || separator == '\\') && arg@ == #[trigger] with_separator(
                output_dir@,
                separator,
            ),
        output_dir@.len() == 0 || ends_in_separator(output_dir@) ==> arg@ == output_dir@,
{
    let separator: char = main_separator();
    let arg = separated_dir_arg(output_dir, separator);
    proof {
        assert(arg@ == with_separator(output_dir@, separator));
    }
    arg
}

/// The directory argument needs no second separator: giving it one again
/// changes nothing.
pub proof fn law_separator_is_idempotent(dir: Seq<char>, separator: char)
    requires
        separator == '/' || separator == '\\',
    ensures
        with_separator(with_separator(dir, separator), separator) == with_separator(dir, separator),
        dir.len() > 0 ==> ends_in_separator(with_separator(dir, separator)),
        with_separator(Seq::empty(), separator) == Seq::<char>::empty(),
{
}

/// Arguments of a drill export. Plated and non-plated holes become separate
/// files.
pub fn drill_args<'a>(output_dir: &'a str, pcb: &'a str) -> (args: Vec<&'a str>)
    ensures
        models(args@) == seq![
            "pcb"@,
            "export"@,
            "drill"@,
            "--excellon-separate-th"@,
            "--output"@,
            output_dir@,
            pcb@,
        ],
{
    let args: Vec<&'a str> = vec![
        "pcb",
        "export",
        "drill",
        "--excellon-separate-th",
        "--output",
        output_dir,
        pcb,
    ];
    proof {
        assert(models(args@) =~= seq![
            "pcb"@,
            "export"@,
            "drill"@,
            "--excellon-separate-th"@,
            "--output"@,
            output_dir@,
            pcb@,
        ]);
    }
    args
}

/// Copies of the texts.
fn owned(list: &[&str]) -> (out: Vec<String>)
    ensures
        models(out@) == models(list@),
{
    let mut out: Vec<String> = Vec::new();
    let mut i: usize = 0;
    while i < list.len()
        invariant
            i <= list@.len(),
            models(out@) == models(list@).take(i as int),
        decreases list@.len() - i,
    {
        push_model(&mut out, list[i].to_owned());
        i += 1;
    }
    proof {
        assert(models(list@).take(list@.len() as int) =~= models(list@));
    }
    out
}

/// The layers as one comma-separated text.
pub fn layers_csv(layers: &[&str]) -> (r: String)
    ensures
        r@ == joined(models(layers@), ","@),
{
    let list = owned(layers);
    text::join(&list, ",")
}

/// Arguments of an export that plots a board into one file.
pub fn single_file_pcb_export_args(
    format: &str,
    output: &str,
    layers: &[&str],
    black_and_white: bool,
    pcb: &str,
) -> (args: Vec<String>)
    ensures
        models(args@) == seq![
            "pcb"@,
            "export"@,
            format@,
            "--output"@,
            output@,
            "--mode-single"@,
        ] + (if layers@.len() > 0 {
            seq!["--layers"@, joined(models(layers@), ","@)]
        } else {
            Seq::empty()
        }) + flag(black_and_white, "--black-and-white"@) + seq![pcb@],
{
    let mut args: Vec<String> = Vec::new();
    push_model(&mut args, "pcb".to_owned());
    push_model(&mut args, "export".to_owned());
    push_model(&mut args, format.to_owned());
    push_model(&mut args, "--output".to_owned());
    push_model(&mut args, output.to_owned());
    push_model(&mut args, "--mode-single".to_owned());
    if layers.len() > 0 {
        push_model(&mut args, "--layers".to_owned());
        push_model(&mut args, layers_csv(layers));
    }
    if black_and_white {
        push_model(&mut args, "--black-and-white".to_owned());
    }
    push_model(&mut args, pcb.to_owned());
    args
}

/// The export command for a 3D format given in lower case.
pub open spec fn subcommand_3d(lower: Seq<char>) -> Option<Seq<char>> {
    if lower == "step"@ || lower == "stp"@ {
        Some("step"@)
    } else if lower == "vrml"@ || lower == "wrl"@ {
        Some("vrml"@)
    } else if lower == "glb"@ || lower == "gltf"@ {
        Some("glb"@)
    } else if lower == "brep"@ || lower == "stl"@ || lower == "ply"@ || lower == "stpz"@ || lower
        == "u3d"@ || lower == "xao"@ {
        Some(lower)
    } else if lower == "3dpdf"@ || lower == "pdf3d"@ {
        Some("3dpdf"@)
    } else {
        None
    }
}

/// What is told of a 3D format that there is no command for.
pub open spec fn unsupported_3d(lower: Seq<char>) -> Seq<char> {
    "Unsupported 3D format: '"@ + lower
        + "'. Supported: step, vrml, glb, brep, stl, ply, stpz, u3d, xao, 3dpdf"@
}

/// The export command for a 3D format given in lower case.
pub fn subcommand_3d_name(lower: &str) -> (r: Result<&'static str, String>)
    ensures
        match r {
            Ok(c) => subcommand_3d(lower@) == Some(c@),
            Err(e) => subcommand_3d(lower@) is None && e@ == unsupported_3d(lower@),
        },
{
    if text::same(lower, "step") || text::same(lower, "stp") {
        Ok("step")
    } else if text::same(lower, "vrml") || text::same(lower, "wrl") {
        Ok("vrml")
    } else if text::same(lower, "glb") || text::same(lower, "gltf") {
        Ok("glb")
    } else if text::same(lower, "brep") {
        Ok("brep")
    } else if text::same(lower, "stl") {
        Ok("stl")
    } else if text::same(lower, "ply") {
        Ok("ply")
    } else if text::same(lower, "stpz") {
        Ok("stpz")
    } else if text::same(lower, "u3d") {
        Ok("u3d")
    } else if text::same(lower, "xao") {
        Ok("xao")
    } else if text::same(lower, "3dpdf") || text::same(lower, "pdf3d") {
        Ok("3dpdf")
    } else {
        Err(
            text::cat3(
                "Unsupported 3D format: '",
                lower,
                "'. Supported: step, vrml, glb, brep, stl, ply, stpz, u3d, xao, 3dpdf",
            ),
        )
    }
}

/// Arguments of a 3D export.
pub fn export_3d_args<'a>(
    pcb: &'a str,
    output: &'a str,
    format: &str,
    include_unspecified: bool,
) -> (r: Result<Vec<&'a str>, String>)
    ensures
        match r {
            Ok(args) => subcommand_3d(lowercase(format@)) is Some && models(args@) == seq![
                "pcb"@,
                "export"@,
                subcommand_3d(lowercase(format@))->0,
                "--output"@,
                output@,
            ] + flag(!include_unspecified, "--no-unspecified"@) + seq![pcb@],
            Err(e) => subcommand_3d(lowercase(format@)) is None && e@ == unsupported_3d(
                lowercase(format@),
            ),
        },
{
    let lower = text::to_lower(format);
    let subcommand = match subcommand_3d_name(lower.as_str()) {
        Ok(c) => c,
        Err(e) => {
            return Err(e);
        },
    };
    let mut args: Vec<&'a str> = vec!["pcb", "export", subcommand, "--output", output];
    if !include_unspecified {
        push_model(&mut args, "--no-unspecified");
    }
    push_model(&mut args, pcb);
    Ok(args)
}

/// Arguments of a position export. Gerber coordinates have units of their own,
/// so units are named for the other formats only.
pub fn position_args<'a>(
    output: &'a str,
    pcb: &'a str,
    format: &'a str,
    units: &'a str,
    side: &'a str,
) -> (args: Vec<&'a str>)
    ensures
        models(args@) == seq![
            "pcb"@,
            "export"@,
            "pos"@,
            "--output"@,
            output@,
            "--format"@,
            format@,
            "--side"@,
            side@,
        ] + (if format@ == "gerber"@ {
            Seq::empty()
        } else {
            seq!["--units"@, units@]
        }) + seq![pcb@],
{
    let mut args: Vec<&'a str> = vec![
        "pcb",
        "export",
        "pos",
        "--output",
        output,
        "--format",
        format,
        "--side",
        side,
    ];
    if !text::same(format, "gerber") {
        push_model(&mut args, "--units");
        push_model(&mut args, units);
    }
    push_model(&mut args, pcb);
    args
}

/// Arguments of an export that takes nothing but an output and a board, such
/// as `ipcd356` and `gencad`.
pub fn plain_export_args<'a>(format: &'a str, output: &'a str, pcb: &'a str) -> (args: Vec<&'a str>)
    ensures
        models(args@) == seq!["pcb"@, "export"@, format@, "--output"@, output@, pcb@],
{
    let args: Vec<&'a str> = vec!["pcb", "export", format, "--output", output, pcb];
    proof {
        assert(models(args@) =~= seq!["pcb"@, "export"@, format@, "--output"@, output@, pcb@]);
    }
    args
}

/// Arguments of a DXF export, which writes a file per layer.
pub fn dxf_args<'a>(output_dir: &'a str, pcb: &'a str, layers_csv: &'a str) -> (args: Vec<&'a str>)
    ensures
        models(args@) == seq!["pcb"@, "export"@, "dxf"@, "--output"@, output_dir@] + (
        if layers_csv@.len() > 0 {
            seq!["--layers"@, layers_csv@]
        } else {
            Seq::empty()
        }) + seq!["--mode-multi"@, pcb@],
{
    let mut args: Vec<&'a str> = vec!["pcb", "export", "dxf", "--output", output_dir];
    if !layers_csv.is_empty() {
        push_model(&mut args, "--layers");
        push_model(&mut args, layers_csv);
    }
    push_model(&mut args, "--mode-multi");
    push_model(&mut args, pcb);
    args
}

/// Arguments of an IPC-2581 export.
pub fn ipc2581_args<'a>(
    output: &'a str,
    pcb: &'a str,
    units: &'a str,
    compress: bool,
) -> (args: Vec<&'a str>)
    ensures
        models(args@) == seq![
            "pcb"@,
            "export"@,
            "ipc2581"@,
            "--output"@,
            output@,
            "--units"@,
            units@,
        ] + flag(compress, "--compress"@) + seq![pcb@],
{
    let mut args: Vec<&'a str> = vec![
        "pcb",
        "export",
        "ipc2581",
        "--output",
        output,
        "--units",
        units,
    ];
    if compress {
        push_model(&mut args, "--compress");
    }
    push_model(&mut args, pcb);
    args
}

/// Arguments of an ODB++ export.
pub fn odb_args<'a>(output: &'a str, pcb: &'a str, units: &'a str, compression: &'a str) -> (args:
    Vec<&'a str>)
    ensures
        models(args@) == seq![
            "pcb"@,
            "export"@,
            "odb"@,
            "--output"@,
            output@,
            "--units"@,
            units@,
            "--compression"@,
            compression@,
            pcb@,
        ],
{
    let mut args: Vec<&'a str> = vec!["pcb", "export", "odb", "--output", output];
    push_model(&mut args, "--units");
    push_model(&mut args, units);
    push_model(&mut args, "--compression");
    push_model(&mut args, compression);
    push_model(&mut args, pcb);
    args
}

/// Arguments of a board rendering. It takes no layers.
pub fn render_args(output: &str, pcb: &str, width: u32, height: u32) -> (args: Vec<String>)
    ensures
        models(args@) == seq![
            "pcb"@,
            "render"@,
            "--output"@,
            output@,
            "--width"@,
            decimal(width as nat),
            "--height"@,
            decimal(height as nat),
            pcb@,
        ],
{
    let mut args: Vec<String> = Vec::new();
    push_model(&mut args, "pcb".to_owned());
    push_model(&mut args, "render".to_owned());
    push_model(&mut args, "--output".to_owned());
    push_model(&mut args, output.to_owned());
    push_model(&mut args, "--width".to_owned());
    push_model(&mut args, text::decimal_text(width as u64));
    push_model(&mut args, "--height".to_owned());
    push_model(&mut args, text::decimal_text(height as u64));
    push_model(&mut args, pcb.to_owned());
    args
}

/// Arguments of an electrical rules check.
pub fn erc_args<'a>(output: &'a str, schematic: &'a str) -> (args: Vec<&'a str>)
    ensures
        models(args@) == seq![
            "sch"@,
            "erc"@,
            "--output"@,
            output@,
            "--format"@,
            "json"@,
            schematic@,
        ],
{
    let mut args: Vec<&'a str> = vec!["sch", "erc", "--output", output];
    push_model(&mut args, "--format");
    push_model(&mut args, "json");
    push_model(&mut args, schematic);
    args
}

/// Arguments of a design rules check.
pub fn drc_args<'a>(output: &'a str, pcb: &'a str, refill_zones: bool) -> (args: Vec<&'a str>)
    ensures
        models(args@) == seq!["pcb"@, "drc"@, "--output"@, output@, "--format"@, "json"@] + flag(
            refill_zones,
            "--refill-zones"@,
        ) + seq![pcb@],
{
    let mut args: Vec<&'a str> = vec!["pcb", "drc", "--output", output];
    push_model(&mut args, "--format");
    push_model(&mut args, "json");
    if refill_zones {
        push_model(&mut args, "--refill-zones");
    }
    push_model(&mut args, pcb);
    args
}

/// The name of a netlist format is known under itself, and so is that of a 3D
/// format.
pub proof fn law_format_names_are_stable(lower: Seq<char>)
    ensures
        netlist_format(netlist_format(lower)) == netlist_format(lower),
        netlist_format("kicad"@) == "kicadsexpr"@,
        netlist_format("xml"@) == "kicadxml"@,
        netlist_format("orcad"@) == "orcadpcb2"@,
        subcommand_3d(lower) matches Some(c) ==> subcommand_3d(c) == Some(c),
        subcommand_3d("stp"@) == Some("step"@),
        subcommand_3d("wrl"@) == Some("vrml"@),
        subcommand_3d("gltf"@) == Some("glb"@),
        subcommand_3d("pdf3d"@) == Some("3dpdf"@),
{
    reveal_strlit("kicad");
    reveal_strlit("kicadsexpr");
    reveal_strlit("sexp");
    reveal_strlit("xml");
    reveal_strlit("kicadxml");
    reveal_strlit("orcad");
    reveal_strlit("orcadpcb2");
    assert("kicad"@[0] == 'k' && "orcad"@[0] == 'o' && "xml"@[0] == 'x');
    reveal_strlit("step");
    reveal_strlit("stp");
    reveal_strlit("vrml");
    reveal_strlit("wrl");
    reveal_strlit("glb");
    reveal_strlit("gltf");
    reveal_strlit("brep");
    reveal_strlit("stl");
    reveal_strlit("ply");
    reveal_strlit("stpz");
    reveal_strlit("u3d");
    reveal_strlit("xao");
    reveal_strlit("3dpdf");
    reveal_strlit("pdf3d");
    assert("step"@[0] == 's' && "vrml"@[0] == 'v' && "wrl"@[0] == 'w' && "glb"@[0] == 'g'
        && "brep"@[0] == 'b' && "ply"@[1] == 'l' && "u3d"@[0] == 'u' && "xao"@[0] == 'x'
        && "3dpdf"@[0] == '3' && "pdf3d"@[1] == 'd');
    assert("kicadsexpr"@.len() == 10 && "kicadxml"@.len() == 8 && "kicad"@.len() == 5);
    assert("gltf"@.len() == 4 && "glb"@.len() == 3 && "stp"@.len() == 3 && "step"@.len() == 4);
    assert("stp"@[2] == 'p' && "stl"@[2] == 'l' && "step"@[2] == 'e' && "stpz"@[2] == 'p');
}

/// What is told of a failed command has both of its outputs, trimmed, and says so
/// where there is neither.
pub proof fn law_failures_tell_both_outputs(stdout: Seq<char>, stderr: Seq<char>)
    ensures
        trimmed(stdout).len() > 0 && trimmed(stderr).len() > 0 ==> diagnostics(stdout, stderr)
            == "stdout:\n"@ + trimmed(stdout) + "\nstderr:\n"@ + trimmed(stderr),
        trimmed(stdout).len() > 0 && trimmed(stderr).len() == 0 ==> diagnostics(stdout, stderr)
            == "stdout:\n"@ + trimmed(stdout),
        trimmed(stdout).len() == 0 && trimmed(stderr).len() > 0 ==> diagnostics(stdout, stderr)
            == "stderr:\n"@ + trimmed(stderr),
        trimmed(stdout).len() == 0 && trimmed(stderr).len() == 0 ==> diagnostics(stdout, stderr)
            == "no diagnostic output"@,
{
}

} // verus!
