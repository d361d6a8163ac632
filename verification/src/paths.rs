//! Paths, as the machine reads them.
//!
//! What the parts of a path are depends on the machine. Of paths without
//! backslashes and colons that do not begin with two slashes every machine makes
//! the same, and the contracts speak of those.
use crate::schematic::text_option;
use crate::text::{self, last_of, next_of};
use vstd::prelude::*;

verus! {

/// Whether every machine reads the path alike: it has neither backslashes nor
/// colons, so that slashes alone separate its parts, and it does not begin with
/// two slashes, behind which some machines read the names of a server and of
/// what it shares.
pub open spec fn is_portable(path: Seq<char>) -> bool {
    &&& forall|i: int| 0 <= i < path.len() ==> #[trigger] path[i] != '\\' && path[i] != ':'
    &&& !(path.len() >= 2 && path[0] == '/' && path[1] == '/')
}

/// What stands between the slashes of a path from `from` on.
pub open spec fn segments_from(path: Seq<char>, from: int) -> Seq<Seq<char>>
    decreases path.len() - from,
{
    let e = next_of(path, '/', from);
    if from < 0 || e < from || e >= path.len() {
        seq![path.skip(from)]
    } else {
        seq![path.subrange(from, e)] + segments_from(path, e + 1)
    }
}

/// What stands between the slashes of a path.
pub open spec fn segments(path: Seq<char>) -> Seq<Seq<char>> {
    segments_from(path, 0)
}

/// What stands behind the last slash of a path.
pub open spec fn last_segment(path: Seq<char>) -> Seq<char> {
    match last_of(path, '/') {
        Some(i) => path.skip(i + 1),
        None => path,
    }
}

/// Whether a segment is the name of something, and not a way to it.
pub open spec fn is_name(segment: Seq<char>) -> bool {
    segment.len() > 0 && segment != "."@ && segment != ".."@
}

/// Whether a path leads down by names alone: it does not begin at the root or
/// at the current directory, and nowhere leads up.
pub open spec fn leads_down(path: Seq<char>) -> bool {
    &&& !(path.len() > 0 && path[0] == '/')
    &&& segments(path)[0] != "."@
    &&& forall|i: int| 0 <= i < segments(path).len() ==> #[trigger] segments(path)[i] != ".."@
}

/// A component of a path.
#[derive(Clone, Copy, PartialEq, Eq, Structural, Debug)]
pub enum PathPart {
    Prefix,
    Root,
    Current,
    Parent,
    Name,
}

/// Whether every component is a name.
pub open spec fn all_names(parts: Seq<PathPart>) -> bool {
    forall|i: int| 0 <= i < parts.len() ==> #[trigger] parts[i] == PathPart::Name
}

/// The directory of a path whose last segment is a name: what stands before
/// the last slash, and the root where nothing does.
pub open spec fn directory(path: Seq<char>) -> Seq<char> {
    match last_of(path, '/') {
        Some(i) => if i == 0 {
            "/"@
        } else {
            path.take(i)
        },
        None => Seq::empty(),
    }
}

/// Whether the directory of a path can be read off its last slash: the segments
/// on both sides of that slash are names, or a name stands right behind the
/// root.
pub open spec fn has_plain_directory(path: Seq<char>) -> bool {
    is_portable(path) && is_name(last_segment(path)) && (last_of(path, '/') matches Some(i) ==> i
        == 0 || is_name(last_segment(path.take(i))))
}

/// `std::path::Path::parent`. An empty path and the root have no parent, and
/// that of a path that ends in a name is its directory, which is the root for a
/// name right behind it and empty without a slash. Of other paths nothing is said.
#[verifier::external_body]
pub(crate) fn path_parent(path: &str) -> (r: Option<String>)
    ensures
        path@.len() == 0 ==> r is None,
        path@ == "/"@ ==> r is None,
        has_plain_directory(path@) ==> text_option(r) == Some(directory(path@)),
{
    std::path::Path::new(path).parent().map(|p| p.to_string_lossy().into_owned())
}

/// `std::path::Path::is_absolute`. A path that does not begin with a slash is
/// relative, where every machine reads it alike. Of other paths nothing is
/// said: on some machines a slash alone makes a path absolute, on others not.
#[verifier::external_body]
pub(crate) fn path_is_absolute(path: &str) -> (r: bool)
    ensures
        is_portable(path@) && !(path@.len() > 0 && path@[0] == '/') ==> !r,
{
    std::path::Path::new(path).is_absolute()
}

/// `std::path::Path::components`, each by its variant. Where every machine
/// reads the path alike, all of them are names exactly if the path leads down:
/// a slash at its beginning is the root, a dot there the current directory, and
/// two dots anywhere lead up, while empty segments and other dots are passed
/// over. Of other paths nothing is said.
#[verifier::external_body]
pub(crate) fn path_parts(path: &str) -> (r: Vec<PathPart>)
    ensures
        is_portable(path@) ==> (all_names(r@) <==> leads_down(path@)),
{
    std::path::Path::new(path).components().map(|c| match c {
        std::path::Component::Prefix(_) => PathPart::Prefix,
        std::path::Component::RootDir => PathPart::Root,
        std::path::Component::CurDir => PathPart::Current,
        std::path::Component::ParentDir => PathPart::Parent,
        std::path::Component::Normal(_) => PathPart::Name,
    }).collect()
}

/// `std::path::Path::extension`. Of a path that ends in a name it is what stands
/// behind the last dot of that name, unless the dot begins the name. Of other
/// paths nothing is said.
#[verifier::external_body]
pub(crate) fn path_extension(path: &str) -> (r: Option<String>)
    ensures
        is_portable(path@) && is_name(last_segment(path@)) ==> text_option(r) == text::extension(
            last_segment(path@),
        ),
{
    std::path::Path::new(path).extension().map(|e| e.to_string_lossy().into_owned())
}

/// What stands before the last dot of a name.
pub open spec fn stem(name: Seq<char>) -> Seq<char> {
    match last_of(name, '.') {
        Some(i) => name.take(i),
        None => name,
    }
}

/// Whether the extension of a path can be exchanged: it ends in a name that has
/// one, behind more than a single dot.
pub open spec fn has_extension(path: Seq<char>) -> bool {
    &&& is_portable(path)
    &&& is_name(last_segment(path))
    &&& text::extension(last_segment(path)) is Some
    &&& stem(last_segment(path)) != "."@
}

/// The path with another extension in place of its own.
pub open spec fn with_other_extension(path: Seq<char>, extension: Seq<char>) -> Seq<char> {
    path.take(path.len() - text::extension(last_segment(path))->0.len()) + extension
}

/// `std::path::Path::with_extension`. Of a path that ends in a name with an
/// extension, the new one takes the place of the old one. Of other paths
/// nothing is said, nor of a name such as `..b`: without its extension it leads
/// up, and nothing is put behind it.
#[verifier::external_body]
pub(crate) fn with_extension(path: &str, extension: &str) -> (r: String)
    requires
        extension@.len() > 0,
        is_portable(extension@),
        !extension@.contains('/'),
    ensures
        has_extension(path@) ==> r@ == with_other_extension(path@, extension@),
{
    std::path::Path::new(path).with_extension(extension).to_string_lossy().into_owned()
}

// ─── Laws ─────────────────────────────────────────────────────────────────

proof fn lemma_last_slash(base: Seq<char>, name: Seq<char>)
    requires
        !name.contains('/'),
    ensures
        last_of(base + seq!['/'] + name, '/') == Some(base.len() as int),
        last_of(name, '/') is None,
    decreases name.len(),
{
    let path = base + seq!['/'] + name;
    if name.len() == 0 {
        assert(path.last() == '/');
    } else {
        let short = name.drop_last();
        assert forall|k: int| 0 <= k < short.len() implies #[trigger] short[k] != '/' by {
            assert(name[k] == short[k]);
            assert(name.contains(name[k]));
        }
        assert(name.contains(name.last()));
        assert(path.last() == name.last());
        assert(path.drop_last() =~= base + seq!['/'] + short);
        lemma_last_slash(base, short);
    }
}

/// A file in a directory has that directory, and its own name behind it.
pub proof fn law_files_have_their_directory(base: Seq<char>, name: Seq<char>)
    requires
        !name.contains('/'),
    ensures
        base.len() > 0 ==> directory(base + seq!['/'] + name) == base,
        directory(seq!['/'] + name) == "/"@,
        directory(name).len() == 0,
        last_segment(base + seq!['/'] + name) == name,
        last_segment(name) == name,
{
    let path = base + seq!['/'] + name;
    lemma_last_slash(base, name);
    lemma_last_slash(Seq::empty(), name);
    assert(Seq::<char>::empty() + seq!['/'] + name =~= seq!['/'] + name);
    assert(path.take(base.len() as int) =~= base);
    assert(path.skip(base.len() as int + 1) =~= name);
}

proof fn lemma_next_slash(s: Seq<char>, from: int)
    requires
        0 <= from <= s.len(),
    ensures
        from <= next_of(s, '/', from) <= s.len(),
        next_of(s, '/', from) < s.len() ==> s[next_of(s, '/', from)] == '/',
    decreases s.len() - from,
{
    if from < s.len() && s[from] != '/' {
        lemma_next_slash(s, from + 1);
    }
}

proof fn lemma_next_slash_joined(a: Seq<char>, b: Seq<char>, from: int)
    requires
        0 <= from <= a.len(),
    ensures
        next_of(a + seq!['/'] + b, '/', from) == next_of(a, '/', from),
    decreases a.len() - from,
{
    let s = a + seq!['/'] + b;
    if from == a.len() {
        assert(s[from] == '/');
    } else {
        assert(s[from] == a[from]);
        if a[from] != '/' {
            lemma_next_slash_joined(a, b, from + 1);
        }
    }
}

proof fn lemma_next_slash_behind(a: Seq<char>, b: Seq<char>, from: int)
    requires
        0 <= from <= b.len(),
    ensures
        next_of(a + b, '/', a.len() + from) == a.len() + next_of(b, '/', from),
    decreases b.len() - from,
{
    if from < b.len() {
        assert((a + b)[a.len() + from] == b[from]);
        if b[from] != '/' {
            lemma_next_slash_behind(a, b, from + 1);
        }
    }
}

proof fn lemma_segments_behind(a: Seq<char>, b: Seq<char>, from: int)
    requires
        0 <= from <= b.len(),
    ensures
        segments_from(a + b, a.len() + from) == segments_from(b, from),
    decreases b.len() - from,
{
    let e = next_of(b, '/', from);
    lemma_next_slash(b, from);
    lemma_next_slash_behind(a, b, from);
    assert((a + b).skip(a.len() + from) =~= b.skip(from));
    if e < b.len() {
        assert((a + b).subrange(a.len() + from, a.len() + e) =~= b.subrange(from, e));
        lemma_segments_behind(a, b, e + 1);
    }
}

proof fn lemma_segments_joined(a: Seq<char>, b: Seq<char>, from: int)
    requires
        0 <= from <= a.len(),
    ensures
        segments_from(a + seq!['/'] + b, from) == segments_from(a, from) + segments_from(b, 0),
    decreases a.len() - from,
{
    let s = a + seq!['/'] + b;
    let e = next_of(a, '/', from);
    lemma_next_slash(a, from);
    lemma_next_slash_joined(a, b, from);
    if e < a.len() {
        lemma_segments_joined(a, b, e + 1);
        assert(s.subrange(from, e) =~= a.subrange(from, e));
        assert(seq![a.subrange(from, e)] + (segments_from(a, e + 1) + segments_from(b, 0))
            =~= seq![a.subrange(from, e)] + segments_from(a, e + 1) + segments_from(b, 0));
    } else {
        assert(s.subrange(from, e) =~= a.skip(from));
        lemma_segments_behind(a + seq!['/'], b, 0);
    }
}

proof fn lemma_no_slash(name: Seq<char>, from: int)
    requires
        !name.contains('/'),
        0 <= from <= name.len(),
    ensures
        next_of(name, '/', from) == name.len(),
    decreases name.len() - from,
{
    if from < name.len() {
        assert(name.contains(name[from]));
        lemma_no_slash(name, from + 1);
    }
}

/// The segments of a path are those of its parts, and a name without a slash is
/// a single one.
pub proof fn law_segments_of_joined_paths(a: Seq<char>, b: Seq<char>)
    ensures
        segments(a + seq!['/'] + b) == segments(a) + segments(b),
        !a.contains('/') ==> segments(a) == seq![a],
{
    lemma_segments_joined(a, b, 0);
    if !a.contains('/') {
        lemma_no_slash(a, 0);
        assert(a.skip(0) =~= a);
    }
}

proof fn lemma_some_segment(path: Seq<char>, from: int)
    ensures
        segments_from(path, from).len() > 0,
{
}

/// A path that begins with a slash, or that has a segment of two dots, does not
/// lead down; a name does, unless it is one or two dots, and below what leads
/// down so does every path without a segment of two dots.
pub proof fn law_paths_that_lead_down(a: Seq<char>, b: Seq<char>)
    ensures
        !leads_down(seq!['/'] + a),
        segments(a).contains(".."@) ==> !leads_down(a),
        a.len() > 0 && !a.contains('/') ==> (leads_down(a) <==> a != "."@ && a != ".."@),
        a.len() > 0 ==> (leads_down(a + seq!['/'] + b) <==> leads_down(a) && !segments(
            b,
        ).contains(".."@)),
{
    law_segments_of_joined_paths(a, b);
    let path = a + seq!['/'] + b;
    let (x, y) = (segments(a), segments(b));
    lemma_some_segment(a, 0);
    if segments(a).contains(".."@) {
        let i = x.index_of(".."@);
        assert(x[i] == ".."@);
    }
    if a.len() > 0 {
        if !a.contains('/') {
            assert(a.contains(a[0]));
            assert(x[0] == a);
        }
        assert(path[0] == a[0]);
        assert(segments(path)[0] == x[0]);
        if leads_down(path) {
            assert forall|i: int| 0 <= i < x.len() implies #[trigger] x[i] != ".."@ by {
                assert(segments(path)[i] == x[i]);
            }
            if y.contains(".."@) {
                let i = y.index_of(".."@);
                assert(segments(path)[x.len() + i] == y[i]);
            }
        }
        if leads_down(a) && !y.contains(".."@) {
            assert forall|i: int| 0 <= i < segments(path).len() implies #[trigger] segments(path)[i]
                != ".."@ by {
                if i < x.len() {
                    assert(segments(path)[i] == x[i]);
                } else {
                    assert(segments(path)[i] == y[i - x.len()]);
                    assert(y.contains(y[i - x.len()]));
                }
            }
        }
    }
}

} // verus!
