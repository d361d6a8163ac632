//! Changes of the board that a running KiCad holds.
//!
//! A change is shown first, together with a revision of what it is based on,
//! and made only where the caller hands that revision back and it still holds.
//! Lengths are in nanometres.
use crate::geometry::Point;
use crate::revision::{sha256_bytes, sha256_hex};
use crate::schematic::{copy_text_option, text_option};
use crate::seqs::models;
use crate::text::{self, millimetres, precedes};
use vstd::bytes::{spec_u64_to_le_bytes, u64_to_le_bytes};
use vstd::prelude::*;
use vstd::utf8::encode_utf8;

verus! {

// ─── Requests ─────────────────────────────────────────────────────────────

/// Why a request is refused before anything is looked at.
pub open spec fn request_error(
    uuid: Seq<char>,
    dry_run: bool,
    expected: Option<Seq<char>>,
) -> Option<Seq<char>> {
    if uuid.len() == 0 {
        Some("Argument 'uuid' must not be empty"@)
    } else if !dry_run && expected is None {
        Some("Apply requires the plan revision returned by a current dry run."@)
    } else {
        None
    }
}

/// Whether a request can be looked at: it names an item, and a change comes
/// with the revision that it is based on.
pub fn check_request(uuid: &str, dry_run: bool, expected: &Option<String>) -> (r: Result<
    (),
    String,
>)
    ensures
        match r {
            Ok(_) => request_error(uuid@, dry_run, text_option(*expected)) is None,
            Err(e) => request_error(uuid@, dry_run, text_option(*expected)) == Some(e@),
        },
{
    if uuid.is_empty() {
        return Err("Argument 'uuid' must not be empty".to_owned());
    }
    if !dry_run && expected.is_none() {
        return Err("Apply requires the plan revision returned by a current dry run.".to_owned());
    }
    Ok(())
}

/// What comes of a request: there is nothing to change, the change is shown,
/// it is refused because it is based on something else, or it is made.
#[derive(Clone, Copy, PartialEq, Eq, Structural, Debug)]
pub enum UpdateStatus {
    Noop,
    Ready,
    Conflict,
    Apply,
}

/// What comes of a request.
pub open spec fn status_of(
    changed: bool,
    dry_run: bool,
    expected: Option<Seq<char>>,
    revision: Seq<char>,
) -> UpdateStatus {
    if !changed {
        UpdateStatus::Noop
    } else if dry_run {
        UpdateStatus::Ready
    } else if expected == Some(revision) {
        UpdateStatus::Apply
    } else {
        UpdateStatus::Conflict
    }
}

/// What comes of a request on an item of that revision.
pub fn update_status(changed: bool, dry_run: bool, expected: &Option<String>, revision: &str) -> (r:
    UpdateStatus)
    ensures
        r == status_of(changed, dry_run, text_option(*expected), revision@),
{
    if !changed {
        return UpdateStatus::Noop;
    }
    if dry_run {
        return UpdateStatus::Ready;
    }
    match expected {
        Some(e) => if text::same(e.as_str(), revision) {
            UpdateStatus::Apply
        } else {
            UpdateStatus::Conflict
        },
        None => UpdateStatus::Conflict,
    }
}

/// A change is made only where something changes, the request is no dry run,
/// and the caller names the very revision; and the revision that a dry run
/// shows is one that lets the change be made.
pub proof fn law_change_is_revision_bound(
    changed: bool,
    dry_run: bool,
    expected: Option<Seq<char>>,
    revision: Seq<char>,
)
    ensures
        status_of(changed, dry_run, expected, revision) == UpdateStatus::Apply <==> changed
            && !dry_run && expected == Some(revision),
        status_of(changed, true, expected, revision) == UpdateStatus::Ready ==> status_of(
            changed,
            false,
            Some(revision),
            revision,
        ) == UpdateStatus::Apply,
{
}

fn append_bytes(out: &mut Vec<u8>, bytes: &[u8])
    ensures
        final(out)@ == old(out)@ + bytes@,
{
    let ghost had = out@;
    let mut i: usize = 0;
    while i < bytes.len()
        invariant
            i <= bytes@.len(),
            out@ =~= had + bytes@.take(i as int),
        decreases bytes@.len() - i,
    {
        out.push(bytes[i]);
        i += 1;
    }
    proof {
        assert(bytes@.take(bytes@.len() as int) =~= bytes@);
    }
}

/// The revision that a change is based on: the digest of the board's path, the
/// item's id, the change and the item as KiCad holds it.
pub open spec fn revision_of(
    path: Seq<u8>,
    uuid: Seq<char>,
    change: Seq<u8>,
    item: Seq<u8>,
) -> Seq<char> {
    sha256_hex(path + encode_utf8(uuid) + change + item)
}

fn plan_revision(path: &[u8], uuid: &str, change: &Vec<u8>, item: &Vec<u8>) -> (r: String)
    ensures
        r@ == revision_of(path@, uuid@, change@, item@),
{
    let mut all: Vec<u8> = Vec::new();
    append_bytes(&mut all, path);
    append_bytes(&mut all, uuid.as_bytes());
    append_bytes(&mut all, change.as_slice());
    append_bytes(&mut all, item.as_slice());
    proof {
        assert(all@ =~= path@ + encode_utf8(uuid@) + change@ + item@);
    }
    sha256_bytes(all.as_slice())
}

// ─── Board texts ──────────────────────────────────────────────────────────

/// The size of a font.
#[derive(Clone, Copy, PartialEq, Eq, Structural, Debug)]
pub struct FontSize {
    pub width: i64,
    pub height: i64,
}

/// How a text is drawn.
#[derive(Clone, Copy, PartialEq, Eq, Structural, Debug)]
pub struct TextAttributes {
    pub size: Option<FontSize>,
    pub stroke_width: Option<i64>,
    pub mirrored: bool,
}

/// What a text says, where it stands and how it is drawn.
pub struct TextBody {
    pub text: String,
    pub position: Option<Point>,
    pub attributes: Option<TextAttributes>,
}

/// The model of what a text says.
pub ghost struct TextBodyView {
    pub text: Seq<char>,
    pub position: Option<Point>,
    pub attributes: Option<TextAttributes>,
}

impl View for TextBody {
    type V = TextBodyView;

    open spec fn view(&self) -> TextBodyView {
        TextBodyView { text: self.text@, position: self.position, attributes: self.attributes }
    }
}

/// A text on the board.
pub struct BoardText {
    pub id: Option<String>,
    pub text: Option<TextBody>,
    pub layer: String,
}

/// The model of a text on the board.
pub ghost struct BoardTextView {
    pub id: Option<Seq<char>>,
    pub text: Option<TextBodyView>,
    pub layer: Seq<char>,
}

impl View for BoardText {
    type V = BoardTextView;

    open spec fn view(&self) -> BoardTextView {
        BoardTextView {
            id: text_option(self.id),
            text: match self.text {
                Some(b) => Some(b@),
                None => None,
            },
            layer: self.layer@,
        }
    }
}

/// Attributes before any is set.
pub open spec fn no_attributes() -> TextAttributes {
    TextAttributes { size: None, stroke_width: None, mirrored: false }
}

/// A text before anything of it is set.
pub open spec fn no_body() -> TextBodyView {
    TextBodyView { text: Seq::empty(), position: None, attributes: None }
}

impl BoardTextView {
    /// What the text says and how, or the defaults.
    pub open spec fn body(self) -> TextBodyView {
        match self.text {
            Some(b) => b,
            None => no_body(),
        }
    }

    /// How the text is drawn, or the defaults.
    pub open spec fn attributes(self) -> TextAttributes {
        match self.body().attributes {
            Some(a) => a,
            None => no_attributes(),
        }
    }

    /// The size of the font, if it is set.
    pub open spec fn size(self) -> Option<FontSize> {
        self.attributes().size
    }

    /// Whether the text is mirrored.
    pub open spec fn mirrored(self) -> bool {
        self.attributes().mirrored
    }

    /// The text with other attributes, and all else as it is.
    pub open spec fn with_attributes(self, a: TextAttributes) -> BoardTextView {
        BoardTextView {
            text: Some(TextBodyView { attributes: Some(a), ..self.body() }),
            ..self
        }
    }
}

/// A square font.
pub open spec fn square(size: i64) -> Option<FontSize> {
    Some(FontSize { width: size, height: size })
}

fn attributes_of(t: &BoardText) -> (a: TextAttributes)
    ensures
        a == t@.attributes(),
{
    match &t.text {
        Some(b) => match &b.attributes {
            Some(a) => *a,
            None => TextAttributes { size: None, stroke_width: None, mirrored: false },
        },
        None => TextAttributes { size: None, stroke_width: None, mirrored: false },
    }
}

fn set_attributes(t: &mut BoardText, a: TextAttributes)
    ensures
        final(t)@ == old(t)@.with_attributes(a),
{
    let body = match t.text.take() {
        Some(mut b) => {
            b.attributes = Some(a);
            b
        },
        None => {
            let b = TextBody { text: String::new(), position: None, attributes: Some(a) };
            proof {
                assert(b.text@ =~= Seq::<char>::empty());
            }
            b
        },
    };
    t.text = Some(body);
}

/// The size of the font, if it is set.
pub fn board_text_size(t: &BoardText) -> (r: Option<FontSize>)
    ensures
        r == t@.size(),
{
    attributes_of(t).size
}

/// Whether the text is mirrored.
pub fn board_text_mirrored(t: &BoardText) -> (r: bool)
    ensures
        r == t@.mirrored(),
{
    attributes_of(t).mirrored
}

/// Sets the size of the font, and says what it was and whether that changed
/// the text. All else stays as it is.
pub fn set_board_text_uniform_size(t: &mut BoardText, size: i64) -> (r: (Option<FontSize>, bool))
    ensures
        r.0 == old(t)@.size(),
        r.1 <==> old(t)@.size() != square(size),
        final(t)@ == (if r.1 {
            old(t)@.with_attributes(
                TextAttributes { size: square(size), ..old(t)@.attributes() },
            )
        } else {
            old(t)@
        }),
{
    let a = attributes_of(t);
    let wanted = FontSize { width: size, height: size };
    let changed = match a.size {
        Some(s) => s.width != size || s.height != size,
        None => true,
    };
    if changed {
        set_attributes(
            t,
            TextAttributes {
                size: Some(wanted),
                stroke_width: a.stroke_width,
                mirrored: a.mirrored,
            },
        );
    }
    (a.size, changed)
}

/// Mirrors the text, or not, and says whether it was and whether that changed
/// the text. All else stays as it is.
pub fn set_board_text_mirrored_value(t: &mut BoardText, mirrored: bool) -> (r: (bool, bool))
    ensures
        r.0 == old(t)@.mirrored(),
        r.1 <==> old(t)@.mirrored() != mirrored,
        final(t)@ == (if r.1 {
            old(t)@.with_attributes(TextAttributes { mirrored, ..old(t)@.attributes() })
        } else {
            old(t)@
        }),
{
    let a = attributes_of(t);
    let changed = a.mirrored != mirrored;
    if changed {
        set_attributes(
            t,
            TextAttributes { size: a.size, stroke_width: a.stroke_width, mirrored },
        );
    }
    (a.mirrored, changed)
}

/// A change of a text. A size comes with the bits of the number that the
/// caller gave for it.
#[derive(Clone, Copy, PartialEq, Eq, Structural, Debug)]
pub enum BoardTextUpdate {
    UniformSize { size: i64, bits: u64 },
    Mirrored(bool),
}

/// The bytes by which a revision knows a change.
pub open spec fn change_bytes(u: BoardTextUpdate) -> Seq<u8> {
    match u {
        BoardTextUpdate::UniformSize { size, bits } => encode_utf8("uniform-size"@)
            + spec_u64_to_le_bytes(bits),
        BoardTextUpdate::Mirrored(m) => encode_utf8("mirrored"@).push(
            if m {
                1u8
            } else {
                0u8
            },
        ),
    }
}

impl BoardTextUpdate {
    /// What the change is called.
    pub fn operation(self) -> (r: &'static str)
        ensures
            r@ == match self {
                BoardTextUpdate::UniformSize { .. } => "board text size"@,
                BoardTextUpdate::Mirrored(_) => "board text mirrored flag"@,
            },
    {
        match self {
            BoardTextUpdate::UniformSize { .. } => "board text size",
            BoardTextUpdate::Mirrored(_) => "board text mirrored flag",
        }
    }

    /// What KiCad calls the change in its history.
    pub fn commit_label(self) -> (r: &'static str)
        ensures
            r@ == match self {
                BoardTextUpdate::UniformSize { .. } => "Set board text size"@,
                BoardTextUpdate::Mirrored(_) => "Set board text mirrored flag"@,
            },
    {
        match self {
            BoardTextUpdate::UniformSize { .. } => "Set board text size",
            BoardTextUpdate::Mirrored(_) => "Set board text mirrored flag",
        }
    }

    /// The tool that makes the change.
    pub fn tool_name(self) -> (r: &'static str)
        ensures
            r@ == match self {
                BoardTextUpdate::UniformSize { .. } => "set_board_text_size"@,
                BoardTextUpdate::Mirrored(_) => "set_board_text_mirrored"@,
            },
    {
        match self {
            BoardTextUpdate::UniformSize { .. } => "set_board_text_size",
            BoardTextUpdate::Mirrored(_) => "set_board_text_mirrored",
        }
    }

    /// How the change is taken back.
    pub fn undo_description(self) -> (r: &'static str)
        ensures
            r@ == match self {
                BoardTextUpdate::UniformSize { .. } => "Ctrl-Z reverses the board-text size change."@,
                BoardTextUpdate::Mirrored(_) => "Ctrl-Z reverses the board-text mirrored-flag change."@,
            },
    {
        match self {
            BoardTextUpdate::UniformSize { .. } => "Ctrl-Z reverses the board-text size change.",
            BoardTextUpdate::Mirrored(_) => "Ctrl-Z reverses the board-text mirrored-flag change.",
        }
    }

    fn hash_bytes(self) -> (r: Vec<u8>)
        ensures
            r@ == change_bytes(self),
    {
        let mut out: Vec<u8> = Vec::new();
        match self {
            BoardTextUpdate::UniformSize { size, bits } => {
                append_bytes(&mut out, "uniform-size".as_bytes());
                let number = u64_to_le_bytes(bits);
                append_bytes(&mut out, number.as_slice());
                proof {
                    assert(out@ =~= change_bytes(self));
                }
            },
            BoardTextUpdate::Mirrored(m) => {
                append_bytes(&mut out, "mirrored".as_bytes());
                out.push(
                    if m {
                        1u8
                    } else {
                        0u8
                    },
                );
                proof {
                    assert(out@ =~= change_bytes(self));
                }
            },
        }
        out
    }
}

/// A value that a change concerns.
#[derive(Clone, Copy, PartialEq, Eq, Structural, Debug)]
pub enum UpdateValue {
    Size(Option<FontSize>),
    Flag(bool),
}

/// The value that a text has.
pub open spec fn value_in(t: BoardTextView, u: BoardTextUpdate) -> UpdateValue {
    match u {
        BoardTextUpdate::UniformSize { .. } => UpdateValue::Size(t.size()),
        BoardTextUpdate::Mirrored(_) => UpdateValue::Flag(t.mirrored()),
    }
}

/// The value that the change gives it.
pub open spec fn value_wanted(u: BoardTextUpdate) -> UpdateValue {
    match u {
        BoardTextUpdate::UniformSize { size, .. } => UpdateValue::Size(square(size)),
        BoardTextUpdate::Mirrored(m) => UpdateValue::Flag(m),
    }
}

/// The text after the change: it has the value, and all else as it was.
pub open spec fn updated_text(t: BoardTextView, u: BoardTextUpdate) -> BoardTextView {
    if value_in(t, u) == value_wanted(u) {
        t
    } else {
        match u {
            BoardTextUpdate::UniformSize { size, .. } => t.with_attributes(
                TextAttributes { size: square(size), ..t.attributes() },
            ),
            BoardTextUpdate::Mirrored(m) => t.with_attributes(
                TextAttributes { mirrored: m, ..t.attributes() },
            ),
        }
    }
}

/// Makes the change, and says what the value was and is.
pub fn apply_board_text_update(t: &mut BoardText, u: BoardTextUpdate) -> (r: (
    UpdateValue,
    UpdateValue,
    bool,
))
    ensures
        r.0 == value_in(old(t)@, u),
        r.1 == value_wanted(u),
        r.2 <==> r.0 != r.1,
        final(t)@ == updated_text(old(t)@, u),
{
    match u {
        BoardTextUpdate::UniformSize { size, .. } => {
            let (previous, changed) = set_board_text_uniform_size(t, size);
            (
                UpdateValue::Size(previous),
                UpdateValue::Size(Some(FontSize { width: size, height: size })),
                changed,
            )
        },
        BoardTextUpdate::Mirrored(m) => {
            let (previous, changed) = set_board_text_mirrored_value(t, m);
            (UpdateValue::Flag(previous), UpdateValue::Flag(m), changed)
        },
    }
}

/// A change that was made has nothing left to do: the text has the value, and
/// making it again changes nothing. What the change does not concern stays.
pub proof fn law_text_update_is_idempotent(t: BoardTextView, u: BoardTextUpdate)
    ensures
        value_in(updated_text(t, u), u) == value_wanted(u),
        updated_text(updated_text(t, u), u) == updated_text(t, u),
        updated_text(t, u).id == t.id,
        updated_text(t, u).layer == t.layer,
        updated_text(t, u).body().text == t.body().text,
        updated_text(t, u).body().position == t.body().position,
        updated_text(t, u).attributes().stroke_width == t.attributes().stroke_width,
        u is Mirrored ==> updated_text(t, u).size() == t.size(),
        u is UniformSize ==> updated_text(t, u).mirrored() == t.mirrored(),
{
}

/// A truth value in words.
pub open spec fn flag_words(b: bool) -> Seq<char> {
    if b {
        "true"@
    } else {
        "false"@
    }
}

/// What is told of a text that reads back otherwise than it was set.
pub open spec fn read_back_error(t: BoardTextView, u: BoardTextUpdate) -> Option<Seq<char>> {
    match u {
        BoardTextUpdate::UniformSize { size, .. } => match t.size() {
            None => Some("updated board text has no font size on read-back"@),
            Some(s) => if s.width == size && s.height == size {
                None
            } else {
                Some(
                    "KiCad accepted the board-text update but read back "@ + millimetres(
                        s.width as int,
                    ) + " x "@ + millimetres(s.height as int) + " mm instead of "@ + millimetres(
                        size as int,
                    ) + " x "@ + millimetres(size as int)
                        + " mm; use Ctrl-Z and inspect the text"@,
                )
            },
        },
        BoardTextUpdate::Mirrored(m) => if t.mirrored() == m {
            None
        } else {
            Some(
                "KiCad accepted the board-text update but read back mirrored="@ + flag_words(
                    t.mirrored(),
                ) + " instead of mirrored="@ + flag_words(m)
                    + "; use Ctrl-Z and inspect the text"@,
            )
        },
    }
}

fn words_of_flag(b: bool) -> (r: &'static str)
    ensures
        r@ == flag_words(b),
{
    if b {
        "true"
    } else {
        "false"
    }
}

/// Whether the text reads back as it was set.
pub fn verify_board_text_update(t: &BoardText, u: BoardTextUpdate) -> (r: Result<(), String>)
    ensures
        match r {
            Ok(_) => read_back_error(t@, u) is None,
            Err(e) => read_back_error(t@, u) == Some(e@),
        },
{
    match u {
        BoardTextUpdate::UniformSize { size, .. } => {
            let s = match board_text_size(t) {
                Some(s) => s,
                None => {
                    return Err("updated board text has no font size on read-back".to_owned());
                },
            };
            if s.width != size || s.height != size {
                let w = text::millimetre_text(s.width);
                let h = text::millimetre_text(s.height);
                let want = text::millimetre_text(size);
                let mut e = text::cat5(
                    "KiCad accepted the board-text update but read back ",
                    w.as_str(),
                    " x ",
                    h.as_str(),
                    " mm instead of ",
                );
                e.append(want.as_str());
                e.append(" x ");
                e.append(want.as_str());
                e.append(" mm; use Ctrl-Z and inspect the text");
                return Err(e);
            }
        },
        BoardTextUpdate::Mirrored(m) => {
            let read = board_text_mirrored(t);
            if read != m {
                return Err(
                    text::cat5(
                        "KiCad accepted the board-text update but read back mirrored=",
                        words_of_flag(read),
                        " instead of mirrored=",
                        words_of_flag(m),
                        "; use Ctrl-Z and inspect the text",
                    ),
                );
            }
        },
    }
    Ok(())
}

/// A text of the board, with its bytes as KiCad sent them.
pub struct LiveText {
    pub text: BoardText,
    pub raw: Vec<u8>,
}

/// The id of an item, empty where it has none.
pub open spec fn id_or_empty(id: Option<Seq<char>>) -> Seq<char> {
    match id {
        Some(t) => t,
        None => Seq::empty(),
    }
}

/// Position of the first id at `from` or later that is the one.
pub open spec fn id_at(ids: Seq<Seq<char>>, uuid: Seq<char>, from: int) -> Option<int>
    decreases ids.len() - from,
{
    if from < 0 || from >= ids.len() {
        None
    } else if ids[from] == uuid {
        Some(from)
    } else {
        id_at(ids, uuid, from + 1)
    }
}

/// The ids of texts.
pub open spec fn text_ids(items: Seq<LiveText>) -> Seq<Seq<char>> {
    items.map_values(|t: LiveText| id_or_empty(t.text@.id))
}

fn has_id(id: &Option<String>, uuid: &str) -> (r: bool)
    ensures
        r == (id_or_empty(text_option(*id)) == uuid@),
{
    match id {
        Some(t) => text::same(t.as_str(), uuid),
        None => {
            proof {
                if uuid@.len() == 0 {
                    assert(uuid@ =~= Seq::<char>::empty());
                }
            }
            uuid.is_empty()
        },
    }
}

fn find_text_item(items: &Vec<LiveText>, uuid: &str, from: usize) -> (r: Option<usize>)
    ensures
        match r {
            Some(i) => id_at(text_ids(items@), uuid@, from as int) == Some(i as int) && i
                < items@.len(),
            None => id_at(text_ids(items@), uuid@, from as int) is None,
        },
{
    let mut i: usize = from;
    let ghost ids = text_ids(items@);
    while i < items.len()
        invariant
            ids == text_ids(items@),
            from <= i,
            id_at(ids, uuid@, from as int) == id_at(ids, uuid@, i as int),
        decreases items@.len() - i,
    {
        if has_id(&items[i].text.id, uuid) {
            return Some(i);
        }
        i += 1;
    }
    None
}

/// What a request for a change of a text comes to: the status, the revision,
/// the place of the text among those of the board, the text after the change,
/// and the value before and after.
pub struct TextPlan {
    pub status: UpdateStatus,
    pub revision: String,
    pub index: usize,
    pub text: BoardText,
    pub from: UpdateValue,
    pub to: UpdateValue,
}

/// What is told of an id that no item, or more than one, has.
pub open spec fn id_error(kind: Seq<char>, uuid: Seq<char>, problem: Seq<char>) -> Seq<char> {
    kind + " UUID '"@ + uuid + "' "@ + problem
}

fn copy_body(b: &TextBody) -> (r: TextBody)
    ensures
        r@ == b@,
{
    TextBody { text: b.text.clone(), position: b.position, attributes: b.attributes }
}

fn copy_text(t: &BoardText) -> (r: BoardText)
    ensures
        r@ == t@,
{
    let text = match &t.text {
        Some(b) => Some(copy_body(b)),
        None => None,
    };
    BoardText { id: copy_text_option(&t.id), text, layer: t.layer.clone() }
}

/// What a request for a change of a text comes to. The id must be that of
/// exactly one text.
pub fn plan_board_text_update(
    items: &Vec<LiveText>,
    path: &[u8],
    uuid: &str,
    update: BoardTextUpdate,
    dry_run: bool,
    expected: &Option<String>,
) -> (r: Result<TextPlan, String>)
    ensures
        match id_at(text_ids(items@), uuid@, 0) {
            None => r matches Err(e) && e@ == id_error("board text"@, uuid@, "was not found"@),
            Some(i) => if id_at(text_ids(items@), uuid@, i + 1) is Some {
                r matches Err(e) && e@ == id_error("board text"@, uuid@, "is not unique"@)
            } else {
                let t = items@[i].text@;
                r matches Ok(p) && {
                    &&& p.index == i
                    &&& p.from == value_in(t, update)
                    &&& p.to == value_wanted(update)
                    &&& p.text@ == updated_text(t, update)
                    &&& p.revision@ == revision_of(
                        path@,
                        uuid@,
                        change_bytes(update),
                        items@[i].raw@,
                    )
                    &&& p.status == status_of(
                        p.from != p.to,
                        dry_run,
                        text_option(*expected),
                        p.revision@,
                    )
                }
            },
        },
{
    let count: usize = items.len();
    let index: usize = match find_text_item(items, uuid, 0) {
        Some(i) => i,
        None => return Err(text::cat5("board text", " UUID '", uuid, "' ", "was not found")),
    };
    assert(index < count);
    if find_text_item(items, uuid, index + 1).is_some() {
        return Err(text::cat5("board text", " UUID '", uuid, "' ", "is not unique"));
    }
    let mut t = copy_text(&items[index].text);
    let (from, to, changed) = apply_board_text_update(&mut t, update);
    let change = update.hash_bytes();
    let revision = plan_revision(path, uuid, &change, &items[index].raw);
    let status = update_status(changed, dry_run, expected, revision.as_str());
    Ok(TextPlan { status, revision, index, text: t, from, to })
}

// ─── Zones ────────────────────────────────────────────────────────────────

/// What a copper zone is filled by.
pub struct CopperZoneSettings {
    pub clearance: Option<i64>,
    pub min_thickness: Option<i64>,
    pub net: Option<String>,
    pub island_mode: i32,
}

/// The model of the settings of a copper zone.
pub ghost struct CopperView {
    pub clearance: Option<i64>,
    pub min_thickness: Option<i64>,
    pub net: Option<Seq<char>>,
    pub island_mode: i32,
}

/// What a zone is for: copper, a rule area, or something not known.
pub enum ZoneSettings {
    Copper(CopperZoneSettings),
    RuleArea,
    Unset,
}

/// A zone of the board.
pub struct BoardZone {
    pub id: Option<String>,
    pub name: String,
    pub layers: Vec<String>,
    pub settings: ZoneSettings,
    pub priority: u32,
    pub filled: bool,
    pub filled_layer_count: usize,
}

/// The model of what a zone is for.
pub ghost enum SettingsView {
    Copper(CopperView),
    RuleArea,
    Unset,
}

/// The model of a zone.
pub ghost struct ZoneView {
    pub id: Option<Seq<char>>,
    pub name: Seq<char>,
    pub layers: Seq<Seq<char>>,
    pub settings: SettingsView,
    pub priority: u32,
    pub filled: bool,
    pub filled_layer_count: usize,
}

impl View for CopperZoneSettings {
    type V = CopperView;

    open spec fn view(&self) -> CopperView {
        CopperView {
            clearance: self.clearance,
            min_thickness: self.min_thickness,
            net: text_option(self.net),
            island_mode: self.island_mode,
        }
    }
}

impl View for ZoneSettings {
    type V = SettingsView;

    open spec fn view(&self) -> SettingsView {
        match self {
            ZoneSettings::Copper(c) => SettingsView::Copper(c@),
            ZoneSettings::RuleArea => SettingsView::RuleArea,
            ZoneSettings::Unset => SettingsView::Unset,
        }
    }
}

impl View for BoardZone {
    type V = ZoneView;

    open spec fn view(&self) -> ZoneView {
        ZoneView {
            id: text_option(self.id),
            name: self.name@,
            layers: models(self.layers@),
            settings: self.settings@,
            priority: self.priority,
            filled: self.filled,
            filled_layer_count: self.filled_layer_count,
        }
    }
}

impl ZoneView {
    /// Whether the zone is a copper zone.
    pub open spec fn is_copper(self) -> bool {
        self.settings is Copper
    }

    /// The minimum thickness of a copper zone, if it is set.
    pub open spec fn min_thickness(self) -> Option<i64> {
        self.settings->Copper_0.min_thickness
    }

    /// The zone with that minimum thickness, and all else as it is.
    pub open spec fn with_min_thickness(self, t: i64) -> ZoneView {
        ZoneView {
            settings: SettingsView::Copper(
                CopperView { min_thickness: Some(t), ..self.settings->Copper_0 },
            ),
            ..self
        }
    }
}

/// The settings of a copper zone.
pub fn copper_zone_settings(zone: &BoardZone) -> (r: Result<&CopperZoneSettings, String>)
    ensures
        match r {
            Ok(c) => zone@.settings == SettingsView::Copper(c@),
            Err(e) => !zone@.is_copper() && e@ == "zone is not a copper zone"@,
        },
{
    match &zone.settings {
        ZoneSettings::Copper(c) => Ok(c),
        _ => Err("zone is not a copper zone".to_owned()),
    }
}

/// Sets the minimum thickness of a copper zone, and says what it was and
/// whether that changed the zone. All else stays as it is, and a zone of
/// another kind is refused as it stands.
pub fn set_copper_zone_min_thickness(zone: &mut BoardZone, min_thickness: i64) -> (r: Result<
    (Option<i64>, bool),
    String,
>)
    ensures
        match r {
            Ok(p) => {
                &&& old(zone)@.is_copper()
                &&& p.0 == old(zone)@.min_thickness()
                &&& p.1 <==> p.0 != Some(min_thickness)
                &&& final(zone)@ == old(zone)@.with_min_thickness(min_thickness)
            },
            Err(e) => !old(zone)@.is_copper() && e@ == "zone is not a copper zone"@ && *final(zone)
                == *old(zone),
        },
{
    let (clearance, previous, net, island_mode) = match &zone.settings {
        ZoneSettings::Copper(c) => (
            c.clearance,
            c.min_thickness,
            copy_text_option(&c.net),
            c.island_mode,
        ),
        _ => return Err("zone is not a copper zone".to_owned()),
    };
    let changed = match previous {
        Some(v) => v != min_thickness,
        None => true,
    };
    zone.settings = ZoneSettings::Copper(
        CopperZoneSettings { clearance, min_thickness: Some(min_thickness), net, island_mode },
    );
    Ok((previous, changed))
}

/// Setting the minimum thickness of a copper zone again changes nothing, and
/// no other setting of the zone is touched.
pub proof fn law_zone_update_is_idempotent(zone: ZoneView, t: i64)
    requires
        zone.is_copper(),
    ensures
        zone.with_min_thickness(t).is_copper(),
        zone.with_min_thickness(t).min_thickness() == Some(t),
        zone.with_min_thickness(t).with_min_thickness(t) == zone.with_min_thickness(t),
        zone.with_min_thickness(t).settings->Copper_0.clearance
            == zone.settings->Copper_0.clearance,
        zone.with_min_thickness(t).settings->Copper_0.net == zone.settings->Copper_0.net,
        zone.with_min_thickness(t).settings->Copper_0.island_mode
            == zone.settings->Copper_0.island_mode,
        zone.with_min_thickness(t).layers == zone.layers,
        zone.with_min_thickness(t).priority == zone.priority,
        zone.min_thickness() == Some(t) ==> zone.with_min_thickness(t) == zone,
{
}

/// What is told of a zone that reads back otherwise than it was set.
pub open spec fn zone_read_back_error(zone: ZoneView, t: i64) -> Option<Seq<char>> {
    if !zone.is_copper() {
        Some("zone is not a copper zone"@)
    } else {
        match zone.min_thickness() {
            None => Some("updated zone has no minimum thickness on read-back"@),
            Some(v) => if v == t {
                None
            } else {
                Some(
                    "KiCad accepted the zone update but read back "@ + millimetres(v as int)
                        + " mm instead of "@ + millimetres(t as int)
                        + " mm; use Ctrl-Z and inspect the zone"@,
                )
            },
        }
    }
}

/// Whether the zone reads back as it was set.
pub fn verify_zone_min_thickness(zone: &BoardZone, min_thickness: i64) -> (r: Result<(), String>)
    ensures
        match r {
            Ok(_) => zone_read_back_error(zone@, min_thickness) is None,
            Err(e) => zone_read_back_error(zone@, min_thickness) == Some(e@),
        },
{
    let settings = match copper_zone_settings(zone) {
        Ok(c) => c,
        Err(e) => return Err(e),
    };
    match settings.min_thickness {
        None => Err("updated zone has no minimum thickness on read-back".to_owned()),
        Some(v) => {
            if v != min_thickness {
                let read = text::millimetre_text(v);
                let want = text::millimetre_text(min_thickness);
                return Err(
                    text::cat5(
                        "KiCad accepted the zone update but read back ",
                        read.as_str(),
                        " mm instead of ",
                        want.as_str(),
                        " mm; use Ctrl-Z and inspect the zone",
                    ),
                );
            }
            Ok(())
        },
    }
}

/// A zone of the board, with its bytes as KiCad sent them.
pub struct LiveZone {
    pub zone: BoardZone,
    pub raw: Vec<u8>,
}

/// The ids of zones.
pub open spec fn zone_ids(items: Seq<LiveZone>) -> Seq<Seq<char>> {
    items.map_values(|z: LiveZone| id_or_empty(z.zone@.id))
}

/// What a request for a change of a zone comes to: the status, the revision,
/// the place of the zone among those of the board, and the minimum thickness
/// before the change.
pub struct ZonePlan {
    pub status: UpdateStatus,
    pub revision: String,
    pub index: usize,
    pub previous: Option<i64>,
}

fn find_zone_item(items: &Vec<LiveZone>, uuid: &str, from: usize) -> (r: Option<usize>)
    ensures
        match r {
            Some(i) => id_at(zone_ids(items@), uuid@, from as int) == Some(i as int) && i
                < items@.len(),
            None => id_at(zone_ids(items@), uuid@, from as int) is None,
        },
{
    let mut i: usize = from;
    let ghost ids = zone_ids(items@);
    while i < items.len()
        invariant
            ids == zone_ids(items@),
            from <= i,
            id_at(ids, uuid@, from as int) == id_at(ids, uuid@, i as int),
        decreases items@.len() - i,
    {
        if has_id(&items[i].zone.id, uuid) {
            return Some(i);
        }
        i += 1;
    }
    None
}

/// What a request for a minimum thickness comes to. The id must be that of
/// exactly one zone, and the zone one of copper. `bits` are those of the number
/// that the caller gave.
pub fn plan_zone_min_thickness(
    items: &Vec<LiveZone>,
    path: &[u8],
    uuid: &str,
    min_thickness: i64,
    bits: u64,
    dry_run: bool,
    expected: &Option<String>,
) -> (r: Result<ZonePlan, String>)
    ensures
        match id_at(zone_ids(items@), uuid@, 0) {
            None => r matches Err(e) && e@ == id_error("zone"@, uuid@, "was not found"@),
            Some(i) => if !items@[i].zone@.is_copper() {
                r matches Err(e) && e@ == "zone is not a copper zone"@
            } else if id_at(zone_ids(items@), uuid@, i + 1) is Some {
                r matches Err(e) && e@ == id_error("zone"@, uuid@, "is not unique"@)
            } else {
                r matches Ok(p) && {
                    &&& p.index == i
                    &&& p.previous == items@[i].zone@.min_thickness()
                    &&& p.revision@ == revision_of(
                        path@,
                        uuid@,
                        spec_u64_to_le_bytes(bits),
                        items@[i].raw@,
                    )
                    &&& p.status == status_of(
                        p.previous != Some(min_thickness),
                        dry_run,
                        text_option(*expected),
                        p.revision@,
                    )
                }
            },
        },
{
    let count: usize = items.len();
    let index: usize = match find_zone_item(items, uuid, 0) {
        Some(i) => i,
        None => return Err(text::cat5("zone", " UUID '", uuid, "' ", "was not found")),
    };
    let previous = match copper_zone_settings(&items[index].zone) {
        Ok(c) => c.min_thickness,
        Err(e) => return Err(e),
    };
    assert(index < count);
    if find_zone_item(items, uuid, index + 1).is_some() {
        return Err(text::cat5("zone", " UUID '", uuid, "' ", "is not unique"));
    }
    let change = u64_to_le_bytes(bits);
    let revision = plan_revision(path, uuid, &change, &items[index].raw);
    let changed = match previous {
        Some(v) => v != min_thickness,
        None => true,
    };
    let status = update_status(changed, dry_run, expected, revision.as_str());
    Ok(ZonePlan { status, revision, index, previous })
}

/// Whether a zone is listed: it is one of copper, on the layer that is asked
/// for.
pub open spec fn is_listed(zone: ZoneView, layer: Option<Seq<char>>) -> bool {
    zone.is_copper() && (layer matches Some(l) ==> zone.layers.contains(l))
}

/// Whether one zone stands before another: by its id, and else by its place.
pub open spec fn listed_before(zones: Seq<BoardZone>, i: int, j: int) -> bool {
    let a = id_or_empty(zones[i]@.id);
    let b = id_or_empty(zones[j]@.id);
    precedes(a, b) || (a == b && i < j)
}

fn zone_id(zone: &BoardZone) -> (r: String)
    ensures
        r@ == id_or_empty(zone@.id),
{
    match &zone.id {
        Some(t) => t.clone(),
        None => {
            let r = String::new();
            proof {
                assert(r@ =~= Seq::<char>::empty());
            }
            r
        },
    }
}

proof fn lemma_listed_before_transitive(zones: Seq<BoardZone>, i: int, j: int, k: int)
    requires
        listed_before(zones, i, j),
        listed_before(zones, j, k),
    ensures
        listed_before(zones, i, k),
{
    let a = id_or_empty(zones[i]@.id);
    let b = id_or_empty(zones[j]@.id);
    let c = id_or_empty(zones[k]@.id);
    if precedes(a, b) && precedes(b, c) {
        text::lemma_precedes_transitive(a, b, c);
    }
}

/// Whether the places are in the order in which zones are listed.
pub open spec fn in_order(zones: Seq<BoardZone>, places: Seq<usize>) -> bool {
    forall|a: int, b: int|
        0 <= a < b < places.len() ==> listed_before(
            zones,
            #[trigger] places[a] as int,
            #[trigger] places[b] as int,
        )
}

fn place_zone(zones: &Vec<BoardZone>, places: &mut Vec<usize>, i: usize)
    requires
        i < zones@.len(),
        in_order(zones@, old(places)@),
        forall|k: int| 0 <= k < old(places)@.len() ==> #[trigger] old(places)@[k] < i,
    ensures
        in_order(zones@, final(places)@),
        forall|k: int| 0 <= k < final(places)@.len() ==> #[trigger] final(places)@[k] <= i,
        forall|p: usize| #[trigger]
            final(places)@.contains(p) <==> old(places)@.contains(p) || p == i,
{
    let ghost before = places@;
    let id = zone_id(&zones[i]);
    let mut at: usize = places.len();
    while at > 0 && text::comes_before(id.as_str(), zone_id(&zones[places[at - 1]]).as_str())
        invariant
            at <= places@.len(),
            places@ == before,
            i < zones@.len(),
            id@ == id_or_empty(zones@[i as int]@.id),
            forall|k: int| 0 <= k < before.len() ==> #[trigger] before[k] < i,
            forall|k: int|
                at <= k < before.len() ==> listed_before(
                    zones@,
                    i as int,
                    #[trigger] before[k] as int,
                ),
        decreases at,
    {
        at -= 1;
    }
    let ghost at0 = at as int;
    places.insert(at, i);
    proof {
        let after = places@;
        assert(after =~= before.insert(at0, i));
        assert forall|k: int| 0 <= k < at0 implies listed_before(
            zones@,
            #[trigger] before[k] as int,
            i as int,
        ) by {
            let last = before[at0 - 1] as int;
            text::lemma_precedes_total(
                id_or_empty(zones@[last]@.id),
                id_or_empty(zones@[i as int]@.id),
            );
            assert(listed_before(zones@, last, i as int));
            if k < at0 - 1 {
                assert(listed_before(zones@, before[k] as int, before[at0 - 1] as int));
                lemma_listed_before_transitive(zones@, before[k] as int, last, i as int);
            }
        }
        assert forall|a: int, b: int| 0 <= a < b < after.len() implies listed_before(
            zones@,
            #[trigger] after[a] as int,
            #[trigger] after[b] as int,
        ) by {
            let x = if a < at0 {
                a
            } else {
                a - 1
            };
            let y = if b < at0 {
                b
            } else {
                b - 1
            };
            if a == at0 {
                assert(after[b] == before[y]);
            } else if b == at0 {
                assert(after[a] == before[x]);
            } else {
                assert(after[a] == before[x] && after[b] == before[y]);
            }
        }
        assert forall|k: int| 0 <= k < after.len() implies #[trigger] after[k] <= i by {
            if k < at0 {
                assert(after[k] == before[k]);
            } else if k > at0 {
                assert(after[k] == before[k - 1]);
            }
        }
        assert forall|p: usize| #[trigger] after.contains(p) <==> before.contains(p) || p == i by {
            if before.contains(p) {
                let k = choose|k: int| 0 <= k < before.len() && before[k] == p;
                assert(after[if k < at0 {
                    k
                } else {
                    k + 1
                }] == p);
            }
            if p == i {
                assert(after[at0] == p);
            }
            if after.contains(p) && p != i {
                let k = choose|k: int| 0 <= k < after.len() && after[k] == p;
                assert(before[if k < at0 {
                    k
                } else {
                    k - 1
                }] == p);
            }
        }
    }
}

/// The places of the zones to list, ordered by their ids. Zones that are not of
/// copper, or not on the layer that is asked for, are left out.
pub fn list_zones(zones: &Vec<BoardZone>, layer: Option<&str>) -> (places: Vec<usize>)
    ensures
        in_order(zones@, places@),
        forall|p: usize| #[trigger]
            places@.contains(p) <==> p < zones@.len() && is_listed(
                zones@[p as int]@,
                match layer {
                    Some(l) => Some(l@),
                    None => None,
                },
            ),
{
    let ghost wanted = match layer {
        Some(l) => Some(l@),
        None => None,
    };
    let mut places: Vec<usize> = Vec::new();
    let mut i: usize = 0;
    while i < zones.len()
        invariant
            i <= zones@.len(),
            wanted == (match layer {
                Some(l) => Some(l@),
                None => None,
            }),
            in_order(zones@, places@),
            forall|k: int| 0 <= k < places@.len() ==> #[trigger] places@[k] < i,
            forall|p: usize| #[trigger]
                places@.contains(p) <==> p < i && is_listed(zones@[p as int]@, wanted),
        decreases zones@.len() - i,
    {
        let on_layer = match layer {
            Some(l) => text::list_contains(&zones[i].layers, l),
            None => true,
        };
        if on_layer && copper_zone_settings(&zones[i]).is_ok() {
            place_zone(zones, &mut places, i);
        }
        i += 1;
    }
    places
}

// ─── Laws on read-back and places ─────────────────────────────────────────

/// A text reads back as it was set exactly if it has the value that was asked
/// for: both sides of a size, or the flag.
pub proof fn law_read_back_is_what_was_set(t: BoardTextView, u: BoardTextUpdate)
    ensures
        read_back_error(t, u) is None <==> value_in(t, u) == value_wanted(u),
        read_back_error(updated_text(t, u), u) is None,
        u matches BoardTextUpdate::UniformSize { size, .. } ==> (read_back_error(t, u) is None
            <==> (t.size() matches Some(s) && s.width == size && s.height == size)),
{
    law_text_update_is_idempotent(t, u);
}

/// A zone reads back as it was set exactly if it is of copper and has the
/// thickness that was asked for.
pub proof fn law_zone_reads_back_as_set(zone: ZoneView, t: i64)
    ensures
        zone_read_back_error(zone, t) is None <==> zone.is_copper() && zone.min_thickness()
            == Some(t),
        zone.is_copper() ==> zone_read_back_error(zone.with_min_thickness(t), t) is None,
{
}

/// An item is found under its id exactly if an item has it, and the first that
/// has it is the one.
pub proof fn law_items_are_found_by_id(ids: Seq<Seq<char>>, uuid: Seq<char>, from: int)
    requires
        0 <= from,
    ensures
        match id_at(ids, uuid, from) {
            Some(i) => from <= i < ids.len() && ids[i] == uuid && forall|j: int|
                from <= j < i ==> #[trigger] ids[j] != uuid,
            None => forall|j: int| from <= j < ids.len() ==> #[trigger] ids[j] != uuid,
        },
    decreases ids.len() - from,
{
    if from < ids.len() && ids[from] != uuid {
        law_items_are_found_by_id(ids, uuid, from + 1);
    }
}

/// A request is refused before anything is looked at exactly if it names no item
/// or is to be carried out without a revision.
pub proof fn law_requests_that_are_refused(
    uuid: Seq<char>,
    dry_run: bool,
    expected: Option<Seq<char>>,
)
    ensures
        request_error(uuid, dry_run, expected) is None <==> uuid.len() > 0 && (dry_run || expected
            is Some),
{
}

/// What comes of a request: nothing where nothing changes, a preview where only
/// that is asked for, and a conflict where the item is not the one that was
/// previewed.
pub proof fn law_status_of_requests(
    dry_run: bool,
    expected: Option<Seq<char>>,
    revision: Seq<char>,
)
    ensures
        status_of(false, dry_run, expected, revision) == UpdateStatus::Noop,
        status_of(true, true, expected, revision) == UpdateStatus::Ready,
        status_of(true, false, expected, revision) == UpdateStatus::Conflict <==> expected != Some(
            revision,
        ),
{
}

/// Different changes are known to revisions by different bytes: a flag by its
/// value, and a size by the bits of its number.
pub proof fn law_changes_differ_in_their_bytes(a: BoardTextUpdate, b: BoardTextUpdate)
    requires
        change_bytes(a) == change_bytes(b),
    ensures
        a matches BoardTextUpdate::Mirrored(x) ==> (b matches BoardTextUpdate::Mirrored(y) ==> x
            == y),
        a matches BoardTextUpdate::UniformSize { bits: x, .. } ==> (
        b matches BoardTextUpdate::UniformSize { bits: y, .. } ==> x == y),
{
    vstd::bytes::lemma_auto_spec_u64_to_from_le_bytes();
    if a is Mirrored && b is Mirrored {
        let head = encode_utf8("mirrored"@);
        let (x, y) = (
            if a->Mirrored_0 {
                1u8
            } else {
                0u8
            },
            if b->Mirrored_0 {
                1u8
            } else {
                0u8
            },
        );
        assert(change_bytes(a) == head.push(x));
        assert(change_bytes(b) == head.push(y));
        assert(head.push(x)[head.len() as int] == head.push(y)[head.len() as int]);
    }
    if a is UniformSize && b is UniformSize {
        let head = encode_utf8("uniform-size"@);
        let (x, y) = (a->bits, b->bits);
        assert(change_bytes(a).skip(head.len() as int) =~= spec_u64_to_le_bytes(x));
        assert(change_bytes(b).skip(head.len() as int) =~= spec_u64_to_le_bytes(y));
    }
}

/// Zones are listed in the order of their ids, those of one id in the order of
/// their places: of two zones one stands before the other, and never both.
pub proof fn law_zones_have_one_order(zones: Seq<BoardZone>, i: int, j: int)
    requires
        i != j,
    ensures
        listed_before(zones, i, j) || listed_before(zones, j, i),
        !(listed_before(zones, i, j) && listed_before(zones, j, i)),
{
    let a = id_or_empty(zones[i]@.id);
    let b = id_or_empty(zones[j]@.id);
    text::lemma_precedes_total(a, b);
    text::lemma_precedes_irreflexive(a);
    if precedes(a, b) && precedes(b, a) {
        text::lemma_precedes_transitive(a, b, a);
    }
}

/// A flag is told as what it is.
pub proof fn law_flags_are_told_apart(a: bool)
    ensures
        flag_words(a) == "true"@ <==> a,
        flag_words(a) == "false"@ <==> !a,
{
    reveal_strlit("true");
    reveal_strlit("false");
    assert("true"@.len() == 4 && "false"@.len() == 5);
}

} // verus!
