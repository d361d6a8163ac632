//! Files that an export is expected to leave behind.
use crate::seqs::{lemma_contains_push, models, push_model};
use crate::text::{self, ascii_lower, decimal, extension, strictly_ascending};
use vstd::prelude::*;

verus! {

/// What stands at a path.
#[derive(Clone, Copy, PartialEq, Eq, Structural, Debug)]
pub enum FileStatus {
    Missing,
    NotAFile,
    Size(u64),
}

/// A file of a directory.
pub struct DirFile {
    pub name: String,
    pub path: String,
    pub status: FileStatus,
}

/// What is told of an artifact that is not a file with content.
pub open spec fn artifact_error(path: Seq<char>, artifact: Seq<char>, status: FileStatus) -> Seq<
    char,
> {
    match status {
        FileStatus::Missing => artifact + " export reported success but did not create "@ + path,
        FileStatus::NotAFile => artifact + " export reported success but "@ + path
            + " is not a file"@,
        FileStatus::Size(_) => artifact
            + " export reported success but created an empty file at "@ + path,
    }
}

/// Whether an artifact is a file with content.
pub open spec fn is_artifact(status: FileStatus) -> bool {
    status matches FileStatus::Size(n) && n > 0
}

/// The size of an artifact. A command that succeeds may still not have created
/// the path it was asked for, so every artifact passes this check before it is
/// reported.
pub fn verify_nonempty_file(path: &str, artifact: &str, status: FileStatus) -> (r: Result<
    u64,
    String,
>)
    ensures
        r is Ok <==> is_artifact(status),
        r matches Ok(n) ==> status == FileStatus::Size(n),
        r matches Err(e) ==> e@ == artifact_error(path@, artifact@, status),
{
    match status {
        FileStatus::Missing => Err(
            text::cat3(artifact, " export reported success but did not create ", path),
        ),
        FileStatus::NotAFile => Err(
            text::cat4(artifact, " export reported success but ", path, " is not a file"),
        ),
        FileStatus::Size(n) => if n == 0 {
            Err(
                text::cat3(
                    artifact,
                    " export reported success but created an empty file at ",
                    path,
                ),
            )
        } else {
            Ok(n)
        },
    }
}

/// Whether the name has the extension.
pub open spec fn has_extension(name: Seq<char>, ext: Seq<char>) -> bool {
    extension(name) == Some(ext)
}

fn extension_is(name: &str, ext: &str) -> (r: bool)
    ensures
        r == has_extension(name@, ext@),
{
    match text::extension_of(name) {
        Some(e) => text::same(e.as_str(), ext),
        None => false,
    }
}

/// Whether a file is a plot of the board: its name begins with that of the
/// board, and its extension with a `g` of either case.
pub open spec fn is_gerber_name(name: Seq<char>, stem: Seq<char>) -> bool {
    stem.is_prefix_of(name) && (extension(name) matches Some(e) && e.len() > 0 && ascii_lower(e[0])
        == 'g')
}

fn gerber_name(name: &str, stem: &str) -> (r: bool)
    ensures
        r == is_gerber_name(name@, stem@),
{
    if !text::has_prefix(name, stem) {
        return false;
    }
    match text::extension_of(name) {
        Some(e) => {
            let chars = text::chars_of(e.as_str());
            chars.len() > 0 && text::lower_char(chars[0]) == 'g'
        },
        None => false,
    }
}

/// The position of the first plot among the files that has no content.
pub open spec fn first_bad_plot(files: Seq<DirFile>, stem: Seq<char>, from: int) -> Option<int>
    decreases files.len() - from,
{
    if from < 0 || from >= files.len() {
        None
    } else if is_gerber_name(files[from].name@, stem) && !is_artifact(files[from].status) {
        Some(from)
    } else {
        first_bad_plot(files, stem, from + 1)
    }
}

/// Whether the name is that of a plot among the files.
pub open spec fn is_plot_of(files: Seq<DirFile>, stem: Seq<char>, name: Seq<char>) -> bool {
    exists|i: int|
        0 <= i < files.len() && (#[trigger] files[i]).name@ == name && is_gerber_name(name, stem)
}

/// How many of the names are plots and not job files.
pub open spec fn count_plots(names: Seq<Seq<char>>) -> nat
    decreases names.len(),
{
    if names.len() == 0 {
        0
    } else {
        count_plots(names.drop_last()) + (if has_extension(names.last(), "gbrjob"@) {
            0
        } else {
            1nat
        })
    }
}

/// How many plots a selection of layers needs: one per layer, and at least
/// one.
pub open spec fn plots_needed(layers: int) -> int {
    if layers > 1 {
        layers
    } else {
        1
    }
}

fn count_plot_names(names: &Vec<String>) -> (n: usize)
    ensures
        n == count_plots(models(names@)),
{
    let ghost all = models(names@);
    let mut n: usize = 0;
    let mut i: usize = 0;
    while i < names.len()
        invariant
            i <= names@.len(),
            all == models(names@),
            n <= i,
            n == count_plots(all.take(i as int)),
        decreases names@.len() - i,
    {
        proof {
            assert(all.take(i + 1).drop_last() =~= all.take(i as int));
            assert(all.take(i + 1).last() == names@[i as int]@);
        }
        if !extension_is(names[i].as_str(), "gbrjob") {
            n += 1;
        }
        i += 1;
    }
    proof {
        assert(all.take(all.len() as int) =~= all);
    }
    n
}

/// The plots of a board among the files of a directory, in ascending order of
/// their names. Every one must have content, and there must be one for each
/// requested layer.
pub fn gerber_outputs(files: &Vec<DirFile>, stem: &str, layers: usize, dir: &str) -> (r: Result<
    Vec<String>,
    String,
>)
    ensures
        r matches Ok(names) ==> {
            &&& first_bad_plot(files@, stem@, 0) is None
            &&& strictly_ascending(models(names@))
            &&& forall|t: Seq<char>| #[trigger]
                models(names@).contains(t) <==> is_plot_of(files@, stem@, t)
            &&& count_plots(models(names@)) >= plots_needed(layers as int)
        },
        first_bad_plot(files@, stem@, 0) matches Some(i) ==> (r matches Err(e) && e@
            == artifact_error(files@[i].path@, "Gerber"@, files@[i].status)),
        first_bad_plot(files@, stem@, 0) is None ==> (r matches Err(e) ==> exists|
            names: Seq<Seq<char>>,
        |
            {
                &&& #[trigger] strictly_ascending(names)
                &&& forall|t: Seq<char>| #[trigger]
                    names.contains(t) <==> is_plot_of(files@, stem@, t)
                &&& count_plots(names) < plots_needed(layers as int)
                &&& e@ == "Gerber export reported success but produced "@ + decimal(
                    count_plots(names),
                ) + " non-empty plot file(s) for "@ + decimal(layers as nat)
                    + " requested layer(s) in "@ + dir@
            }),
{
    let mut found: Vec<String> = Vec::new();
    let mut i: usize = 0;
    while i < files.len()
        invariant
            i <= files@.len(),
            first_bad_plot(files@, stem@, 0) == first_bad_plot(files@, stem@, i as int),
            forall|t: Seq<char>| #[trigger]
                models(found@).contains(t) <==> is_plot_of(files@.take(i as int), stem@, t),
        decreases files@.len() - i,
    {
        let f = &files[i];
        let ghost had = models(found@);
        let plot = gerber_name(f.name.as_str(), stem);
        if plot {
            match verify_nonempty_file(f.path.as_str(), "Gerber", f.status) {
                Ok(_) => {},
                Err(e) => {
                    return Err(e);
                },
            }
            push_model(&mut found, f.name.clone());
        }
        proof {
            let before = files@.take(i as int);
            let after = files@.take(i + 1);
            assert forall|t: Seq<char>| #[trigger] models(found@).contains(t) <==> is_plot_of(
                after,
                stem@,
                t,
            ) by {
                lemma_contains_push(had, f.name@, t);
                assert(had.contains(t) <==> is_plot_of(before, stem@, t));
                assert(after[i as int] == *f);
                if is_plot_of(before, stem@, t) {
                    let m = choose|m: int|
                        0 <= m < before.len() && (#[trigger] before[m]).name@ == t
                            && is_gerber_name(t, stem@);
                    assert(after[m] == before[m]);
                }
                if is_plot_of(after, stem@, t) && !(plot && t == f.name@) {
                    let m = choose|m: int|
                        0 <= m < after.len() && (#[trigger] after[m]).name@ == t
                            && is_gerber_name(t, stem@);
                    assert(before[m] == after[m]);
                }
            }
        }
        i += 1;
    }
    proof {
        assert(files@.take(files@.len() as int) =~= files@);
    }
    let names = text::sorted_distinct(&found);
    proof {
        assert forall|t: Seq<char>| #[trigger] models(names@).contains(t) <==> is_plot_of(
            files@,
            stem@,
            t,
        ) by {
            assert(models(names@).contains(t) <==> models(found@).contains(t));
        }
    }
    let count: usize = count_plot_names(&names);
    let needed: usize = if layers > 1 { layers } else { 1 };
    if count < needed {
        let plots = text::decimal_text(count as u64);
        let wanted = text::decimal_text(layers as u64);
        let mut e = text::cat5(
            "Gerber export reported success but produced ",
            plots.as_str(),
            " non-empty plot file(s) for ",
            wanted.as_str(),
            " requested layer(s) in ",
        );
        e.append(dir);
        proof {
            assert(strictly_ascending(models(names@)));
        }
        return Err(e);
    }
    Ok(names)
}

/// Whether the name is that of a drill file of the directory.
pub open spec fn is_drill_file_of(names: Seq<Seq<char>>, name: Seq<char>) -> bool {
    names.contains(name) && has_extension(name, "drl"@)
}

/// The drill files among the names of a directory, in ascending order.
pub fn drill_files_in(names: &Vec<String>) -> (out: Vec<String>)
    ensures
        strictly_ascending(models(out@)),
        forall|t: Seq<char>| #[trigger]
            models(out@).contains(t) <==> is_drill_file_of(models(names@), t),
{
    let mut found: Vec<String> = Vec::new();
    let ghost all = models(names@);
    let mut i: usize = 0;
    while i < names.len()
        invariant
            i <= names@.len(),
            all == models(names@),
            forall|t: Seq<char>| #[trigger]
                models(found@).contains(t) <==> is_drill_file_of(all.take(i as int), t),
        decreases names@.len() - i,
    {
        let ghost had = models(found@);
        let drill = extension_is(names[i].as_str(), "drl");
        if drill {
            push_model(&mut found, names[i].clone());
        }
        proof {
            let n = names@[i as int]@;
            assert(all.take(i + 1) =~= all.take(i as int).push(n));
            assert forall|t: Seq<char>| #[trigger] models(found@).contains(t) <==> is_drill_file_of(
                all.take(i + 1),
                t,
            ) by {
                lemma_contains_push(all.take(i as int), n, t);
                lemma_contains_push(had, n, t);
                assert(had.contains(t) <==> is_drill_file_of(all.take(i as int), t));
            }
        }
        i += 1;
    }
    proof {
        assert(all.take(all.len() as int) =~= all);
    }
    let out = text::sorted_distinct(&found);
    proof {
        assert forall|t: Seq<char>| #[trigger] models(out@).contains(t) <==> is_drill_file_of(
            all,
            t,
        ) by {
            assert(models(out@).contains(t) <==> models(found@).contains(t));
        }
    }
    out
}

/// The position of the first drill file that has no content.
pub open spec fn first_bad_drill(files: Seq<DirFile>, from: int) -> Option<int>
    decreases files.len() - from,
{
    if from < 0 || from >= files.len() {
        None
    } else if !is_artifact(files[from].status) {
        Some(from)
    } else {
        first_bad_drill(files, from + 1)
    }
}

/// Whether a drill export did its work: it left drill files, and every one has
/// content.
pub fn verify_drill_files(files: &Vec<DirFile>, dir: &str) -> (r: Result<(), String>)
    ensures
        r is Ok <==> files@.len() > 0 && first_bad_drill(files@, 0) is None,
        r matches Err(e) ==> if files@.len() == 0 {
            e@ == "drill export reported success but produced no .drl files in "@ + dir@
        } else {
            first_bad_drill(files@, 0) matches Some(i) && e@ == artifact_error(
                files@[i].path@,
                "drill"@,
                files@[i].status,
            )
        },
{
    if files.len() == 0 {
        return Err(
            text::cat2("drill export reported success but produced no .drl files in ", dir),
        );
    }
    let mut i: usize = 0;
    while i < files.len()
        invariant
            i <= files@.len(),
            files@.len() > 0,
            first_bad_drill(files@, 0) == first_bad_drill(files@, i as int),
        decreases files@.len() - i,
    {
        match verify_nonempty_file(files[i].path.as_str(), "drill", files[i].status) {
            Ok(_) => {},
            Err(e) => {
                return Err(e);
            },
        }
        i += 1;
    }
    Ok(())
}

/// The position of the first drawing, from `from` on.
pub open spec fn first_drawing(files: Seq<DirFile>, from: int) -> Option<int>
    decreases files.len() - from,
{
    if from < 0 || from >= files.len() {
        None
    } else if has_extension(files[from].name@, "dxf"@) {
        Some(from)
    } else {
        first_drawing(files, from + 1)
    }
}

/// The position of the first drawing that has no content, from `from` on.
pub open spec fn first_bad_drawing(files: Seq<DirFile>, from: int) -> Option<int>
    decreases files.len() - from,
{
    if from < 0 || from >= files.len() {
        None
    } else if has_extension(files[from].name@, "dxf"@) && !is_artifact(files[from].status) {
        Some(from)
    } else {
        first_bad_drawing(files, from + 1)
    }
}

/// Whether a DXF export did its work: it left drawings in the directory with
/// those files, and every one has content.
pub fn verify_dxf_files(files: &Vec<DirFile>, dir: &str) -> (r: Result<(), String>)
    ensures
        r is Ok <==> first_drawing(files@, 0) is Some && first_bad_drawing(files@, 0) is None,
        r matches Err(e) ==> match first_bad_drawing(files@, 0) {
            Some(i) => e@ == artifact_error(files@[i].path@, "DXF"@, files@[i].status),
            None => e@ == "DXF export reported success but produced no .dxf files in "@ + dir@,
        },
{
    let mut any: bool = false;
    let mut i: usize = 0;
    while i < files.len()
        invariant
            i <= files@.len(),
            any ==> first_drawing(files@, 0) is Some,
            !any ==> first_drawing(files@, 0) == first_drawing(files@, i as int),
            first_bad_drawing(files@, 0) == first_bad_drawing(files@, i as int),
        decreases files@.len() - i,
    {
        if extension_is(files[i].name.as_str(), "dxf") {
            any = true;
            match verify_nonempty_file(files[i].path.as_str(), "DXF", files[i].status) {
                Ok(_) => {},
                Err(e) => {
                    return Err(e);
                },
            }
        }
        i += 1;
    }
    if any {
        Ok(())
    } else {
        Err(text::cat2("DXF export reported success but produced no .dxf files in ", dir))
    }
}

// ─── Laws ─────────────────────────────────────────────────────────────────

proof fn lemma_first_bad_plot(files: Seq<DirFile>, stem: Seq<char>, from: int)
    requires
        0 <= from,
    ensures
        match first_bad_plot(files, stem, from) {
            Some(i) => from <= i < files.len() && is_gerber_name(files[i].name@, stem)
                && !is_artifact(files[i].status),
            None => forall|i: int|
                from <= i < files.len() && is_gerber_name((#[trigger] files[i]).name@, stem)
                    ==> is_artifact(files[i].status),
        },
    decreases files.len() - from,
{
    if from < files.len() && !(is_gerber_name(files[from].name@, stem) && !is_artifact(
        files[from].status,
    )) {
        lemma_first_bad_plot(files, stem, from + 1);
    }
}

/// Plots count only if every one of them has content: one that is empty, missing
/// or no file spoils them all, and the first of these is the one that is told
/// of.
pub proof fn law_every_plot_needs_content(files: Seq<DirFile>, stem: Seq<char>)
    ensures
        first_bad_plot(files, stem, 0) is None <==> forall|i: int|
            0 <= i < files.len() && is_gerber_name((#[trigger] files[i]).name@, stem) ==> (
            files[i].status matches FileStatus::Size(n) && n > 0),
{
    lemma_first_bad_plot(files, stem, 0);
    match first_bad_plot(files, stem, 0) {
        Some(i) => {
            assert(is_gerber_name(files[i].name@, stem));
        },
        None => {},
    }
}

proof fn lemma_first_bad_drill(files: Seq<DirFile>, from: int)
    requires
        0 <= from,
    ensures
        match first_bad_drill(files, from) {
            Some(i) => from <= i < files.len() && !is_artifact(files[i].status),
            None => forall|i: int|
                from <= i < files.len() ==> is_artifact((#[trigger] files[i]).status),
        },
    decreases files.len() - from,
{
    if from < files.len() && is_artifact(files[from].status) {
        lemma_first_bad_drill(files, from + 1);
    }
}

/// Drill files count only if every one of them has content.
pub proof fn law_every_drill_file_needs_content(files: Seq<DirFile>)
    ensures
        first_bad_drill(files, 0) is None <==> forall|i: int|
            0 <= i < files.len() ==> ((#[trigger] files[i]).status matches FileStatus::Size(n) && n
                > 0),
{
    lemma_first_bad_drill(files, 0);
    match first_bad_drill(files, 0) {
        Some(i) => {
            assert(!is_artifact(files[i].status));
        },
        None => {},
    }
}

proof fn lemma_drawings(files: Seq<DirFile>, from: int)
    requires
        0 <= from,
    ensures
        match first_drawing(files, from) {
            Some(i) => from <= i < files.len() && has_extension(files[i].name@, "dxf"@),
            None => forall|i: int|
                from <= i < files.len() ==> !has_extension((#[trigger] files[i]).name@, "dxf"@),
        },
        match first_bad_drawing(files, from) {
            Some(i) => from <= i < files.len() && has_extension(files[i].name@, "dxf"@)
                && !is_artifact(files[i].status),
            None => forall|i: int|
                from <= i < files.len() && has_extension((#[trigger] files[i]).name@, "dxf"@)
                    ==> is_artifact(files[i].status),
        },
    decreases files.len() - from,
{
    if from < files.len() {
        lemma_drawings(files, from + 1);
    }
}

/// Drawings count only if there is one and every one of them has content.
pub proof fn law_every_drawing_needs_content(files: Seq<DirFile>)
    ensures
        first_drawing(files, 0) is Some && first_bad_drawing(files, 0) is None <==> (exists|i: int|
            0 <= i < files.len() && extension((#[trigger] files[i]).name@) == Some("dxf"@)) && (
        forall|i: int|
            0 <= i < files.len() && extension((#[trigger] files[i]).name@) == Some("dxf"@) ==> (
            files[i].status matches FileStatus::Size(n) && n > 0)),
{
    lemma_drawings(files, 0);
    match first_drawing(files, 0) {
        Some(i) => {
            assert(extension(files[i].name@) == Some("dxf"@));
        },
        None => {},
    }
    match first_bad_drawing(files, 0) {
        Some(i) => {
            assert(extension(files[i].name@) == Some("dxf"@));
        },
        None => {},
    }
}

/// Job files are not plots, and everything else is: a list without job files has
/// as many plots as names, and a job file adds none.
pub proof fn law_job_files_are_no_plots(names: Seq<Seq<char>>, name: Seq<char>)
    ensures
        extension(name) == Some("gbrjob"@) ==> count_plots(names.push(name)) == count_plots(names),
        extension(name) != Some("gbrjob"@) ==> count_plots(names.push(name)) == count_plots(names)
            + 1,
        count_plots(Seq::empty()) == 0,
{
    assert(names.push(name).drop_last() =~= names);
}

/// A selection of layers needs a plot for each of them, and at least one.
pub proof fn law_plots_needed(layers: int)
    ensures
        plots_needed(layers) >= layers,
        plots_needed(layers) >= 1,
        plots_needed(layers) == layers || plots_needed(layers) == 1,
{
}

/// Of files that are added to a directory those count as plots that are named
/// like one, and the plots that were there stay.
pub proof fn law_plots_are_files(
    files: Seq<DirFile>,
    f: DirFile,
    stem: Seq<char>,
    name: Seq<char>,
)
    ensures
        is_plot_of(files.push(f), stem, name) <==> is_plot_of(files, stem, name) || (f.name@ == name
            && is_gerber_name(name, stem)),
        !is_plot_of(Seq::empty(), stem, name),
{
    let all = files.push(f);
    if is_plot_of(files, stem, name) {
        let i = choose|i: int|
            0 <= i < files.len() && (#[trigger] files[i]).name@ == name && is_gerber_name(
                name,
                stem,
            );
        assert(all[i] == files[i]);
    }
    if f.name@ == name {
        assert(all[files.len() as int].name@ == name);
    }
    if is_plot_of(all, stem, name) {
        let i = choose|i: int|
            0 <= i < all.len() && (#[trigger] all[i]).name@ == name && is_gerber_name(name, stem);
        if i < files.len() {
            assert(files[i].name@ == name);
        }
    }
}

/// The drill files are the files with the extension of one.
pub proof fn law_drill_files_are_files(names: Seq<Seq<char>>, base: Seq<char>)
    requires
        base.len() > 0,
    ensures
        names.contains(base + seq!['.'] + "drl"@) ==> is_drill_file_of(
            names,
            base + seq!['.'] + "drl"@,
        ),
        is_drill_file_of(names, base) ==> names.contains(base) && base.contains('.'),
{
    reveal_strlit("drl");
    text::law_extension_is_behind_the_last_dot(base, "drl"@);
}

} // verus!
