//! Net classes, which a project's settings hold.
use crate::json::{
    copy_json, lemma_array_view, lemma_object_view, law_set_field_is_read_back, parse_json,
    set_field, json_document, text_entry, text_field, Entry, EntryView, Json, JsonView,
};
use crate::paths::{has_extension, with_extension, with_other_extension};
use crate::schematic::text_option;
use crate::seqs::{models, push_model};
use crate::text::{self, joined};
use vstd::prelude::*;

verus! {

// ─── Project files ────────────────────────────────────────────────────────

/// The path of the project that a board belongs to: next to the board, under
/// the same name.
pub fn project_settings_path(board_path: &str) -> (r: String)
    ensures
        has_extension(board_path@) ==> r@ == with_other_extension(board_path@, "kicad_pro"@),
{
    proof {
        reveal_strlit("kicad_pro");
    }
    with_extension(board_path, "kicad_pro")
}

/// What is told where there is no project.
pub open spec fn no_project(file: Seq<char>) -> Seq<char> {
    "No project file at "@ + file
        + " — net classes live in the .kicad_pro since KiCad 7, and a class written anywhere else is never read. Create the project (KiCad: File > Save a Copy, or place the board inside a project) and retry."@
}

/// What a project's settings are: those in its file, which must be there and
/// hold JSON.
pub open spec fn project_settings(file: Seq<char>, content: Option<Seq<char>>) -> Result<
    JsonView,
    Seq<char>,
> {
    match content {
        None => Err(no_project(file)),
        Some(t) => match json_document(t) {
            Ok(j) => Ok(j),
            Err(e) => Err(file + " is not valid JSON: "@ + e),
        },
    }
}

/// The settings of a project whose file has that content.
pub fn load_project_settings(file: &str, content: &Option<String>) -> (r: Result<Json, String>)
    ensures
        match r {
            Ok(j) => project_settings(file@, text_option(*content)) == Ok::<JsonView, Seq<char>>(
                j@,
            ),
            Err(e) => project_settings(file@, text_option(*content)) == Err::<JsonView, Seq<char>>(
                e@,
            ),
        },
{
    match content {
        None => Err(
            text::cat3(
                "No project file at ",
                file,
                " — net classes live in the .kicad_pro since KiCad 7, and a class written anywhere else is never read. Create the project (KiCad: File > Save a Copy, or place the board inside a project) and retry.",
            ),
        ),
        Some(t) => match parse_json(t.as_str()) {
            Ok(j) => Ok(j),
            Err(e) => Err(text::cat3(file, " is not valid JSON: ", e.as_str())),
        },
    }
}

// ─── Classes ──────────────────────────────────────────────────────────────

/// The values that a caller gives a class, as numerals.
pub struct NetclassValues {
    pub clearance: Option<String>,
    pub trace_width: Option<String>,
    pub via_drill: Option<String>,
    pub via_diameter: Option<String>,
}

/// A class after a request: the settings with it, whether it was there before,
/// whether anything changed, and the class itself.
pub struct NetclassChange {
    pub settings: Json,
    pub updated: bool,
    pub changed: bool,
    pub stored: Json,
}

/// Position of the first class of that name at `from` or later.
pub open spec fn class_at(classes: Seq<JsonView>, key: Seq<char>, name: Seq<char>, from: int) -> Option<int>
    decreases classes.len() - from,
{
    if from < 0 || from >= classes.len() {
        None
    } else if classes[from].field_text(key) == Some(name) {
        Some(from)
    } else {
        class_at(classes, key, name, from + 1)
    }
}

/// The class with a value set, if one is given.
pub open spec fn with_value(class: JsonView, key: Seq<char>, value: Option<Seq<char>>) -> JsonView {
    match value {
        Some(v) => class.with_field(key, JsonView::Number(v)),
        None => class,
    }
}

/// The class with the values that are given; the others stay as they are.
pub open spec fn updated_class(class: JsonView, v: NetclassValues) -> JsonView {
    with_value(
        with_value(
            with_value(
                with_value(class, "clearance"@, text_option(v.clearance)),
                "track_width"@,
                text_option(v.trace_width),
            ),
            "via_drill"@,
            text_option(v.via_drill),
        ),
        "via_diameter"@,
        text_option(v.via_diameter),
    )
}

/// A number, or the default.
pub open spec fn or_default(value: Option<Seq<char>>, default: Seq<char>) -> JsonView {
    JsonView::Number(
        match value {
            Some(v) => v,
            None => default,
        },
    )
}

/// A new class, with defaults for the values that are not given.
pub open spec fn new_class(name: Seq<char>, v: NetclassValues) -> JsonView {
    JsonView::Object(
        seq![
            text_entry("name"@, name),
            EntryView { name: "priority"@, value: JsonView::Number("0"@) },
            EntryView {
                name: "clearance"@,
                value: or_default(text_option(v.clearance), "0.2"@),
            },
            EntryView {
                name: "track_width"@,
                value: or_default(text_option(v.trace_width), "0.25"@),
            },
            EntryView {
                name: "via_drill"@,
                value: or_default(text_option(v.via_drill), "0.4"@),
            },
            EntryView {
                name: "via_diameter"@,
                value: or_default(text_option(v.via_diameter), "0.8"@),
            },
        ],
    )
}

/// Net settings without classes.
pub open spec fn empty_net_settings() -> JsonView {
    JsonView::Object(
        seq![
            EntryView { name: "classes"@, value: JsonView::Array(Seq::empty()) },
            EntryView {
                name: "meta"@,
                value: JsonView::Object(
                    seq![EntryView { name: "version"@, value: JsonView::Number("5"@) }],
                ),
            },
            EntryView { name: "netclass_patterns"@, value: JsonView::Array(Seq::empty()) },
        ],
    )
}

/// The value under that name, or a default.
pub open spec fn field_or(j: JsonView, name: Seq<char>, default: JsonView) -> JsonView {
    match j.field(name) {
        Some(v) => v,
        None => default,
    }
}

/// The net settings of a project, or why there are none.
pub open spec fn net_settings_of(settings: JsonView, file: Seq<char>) -> Result<
    JsonView,
    Seq<char>,
> {
    if settings !is Object {
        Err(file + ": top level is not a JSON object"@)
    } else {
        let ns = field_or(settings, "net_settings"@, empty_net_settings());
        if ns is Object {
            Ok(ns)
        } else {
            Err(file + ": net_settings is not an object"@)
        }
    }
}

/// The classes of net settings, or why there are none.
pub open spec fn classes_of(ns: JsonView, file: Seq<char>) -> Result<Seq<JsonView>, Seq<char>> {
    match field_or(ns, "classes"@, JsonView::Array(Seq::empty())) {
        JsonView::Array(items) => Ok(items),
        _ => Err(file + ": net_settings.classes is not an array"@),
    }
}

/// The settings with those classes.
pub open spec fn with_classes(settings: JsonView, ns: JsonView, classes: Seq<JsonView>) -> JsonView {
    settings.with_field("net_settings"@, ns.with_field("classes"@, JsonView::Array(classes)))
}

/// The classes after a request for the class of that name: an existing one is
/// updated in place, since classes are known by their names.
pub open spec fn requested_classes(
    classes: Seq<JsonView>,
    name: Seq<char>,
    v: NetclassValues,
) -> Seq<JsonView> {
    match class_at(classes, "name"@, name, 0) {
        Some(i) => classes.update(i, updated_class(classes[i], v)),
        None => classes.push(new_class(name, v)),
    }
}

/// Whether a request for the class of that name changes anything.
pub open spec fn request_changes(
    classes: Seq<JsonView>,
    name: Seq<char>,
    v: NetclassValues,
) -> bool {
    match class_at(classes, "name"@, name, 0) {
        Some(i) => updated_class(classes[i], v) != classes[i],
        None => true,
    }
}

/// The class of that name after a request.
pub open spec fn requested_class(
    classes: Seq<JsonView>,
    name: Seq<char>,
    v: NetclassValues,
) -> JsonView {
    match class_at(classes, "name"@, name, 0) {
        Some(i) => updated_class(classes[i], v),
        None => new_class(name, v),
    }
}

fn array_or_empty(j: &Json, name: &str) -> (r: Option<Vec<Json>>)
    ensures
        match r {
            Some(items) => field_or(j@, name@, JsonView::Array(Seq::empty())) == JsonView::Array(
                models(items@),
            ),
            None => !(field_or(j@, name@, JsonView::Array(Seq::empty())) is Array),
        },
{
    broadcast use lemma_array_view;

    match j.get(name) {
        None => {
            let none: Vec<Json> = Vec::new();
            proof {
                assert(models(none@) =~= Seq::<JsonView>::empty());
            }
            Some(none)
        },
        Some(v) => {
            let copy = copy_json(v);
            match copy {
                Json::Array(items) => {
                    proof {
                        assert(v@ == JsonView::Array(models(items@)));
                    }
                    Some(items)
                },
                _ => {
                    proof {
                        assert(!(v@ is Array));
                    }
                    None
                },
            }
        },
    }
}

fn find_class(classes: &Vec<Json>, key: &str, name: &str) -> (r: Option<usize>)
    ensures
        match r {
            Some(i) => class_at(models(classes@), key@, name@, 0) == Some(i as int) && i
                < classes@.len() && models(classes@)[i as int].field_text(key@) == Some(name@),
            None => class_at(models(classes@), key@, name@, 0) is None,
        },
{
    let mut i: usize = 0;
    proof {
        assert(models(classes@).len() == classes@.len());
    }
    while i < classes.len()
        invariant
            i <= classes@.len(),
            models(classes@).len() == classes@.len(),
            class_at(models(classes@), key@, name@, 0) == class_at(
                models(classes@),
                key@,
                name@,
                i as int,
            ),
        decreases classes@.len() - i,
    {
        proof {
            assert(models(classes@)[i as int] == classes@[i as int]@);
        }
        if let Some(t) = classes[i].get_text(key) {
            if text::same(t.as_str(), name) {
                return Some(i);
            }
        }
        i += 1;
    }
    None
}

proof fn lemma_value_changes(class: JsonView, key: Seq<char>, value: Option<Seq<char>>)
    requires
        class is Object,
    ensures
        with_value(class, key, value) is Object,
        with_value(class, key, value) == class <==> (value matches Some(v) ==> class.field(key)
            == Some(JsonView::Number(v))),
        forall|other: Seq<char>|
            other != key ==> #[trigger] with_value(class, key, value).field(other) == class.field(
                other,
            ),
{
    if let Some(v) = value {
        let n = JsonView::Number(v);
        assert forall|other: Seq<char>| other != key implies #[trigger] class.with_field(
            key,
            n,
        ).field(other) == class.field(other) by {
            law_set_field_is_read_back(class, key, n, other);
        }
        law_set_field_is_read_back(class, key, n, key);
        crate::json::lemma_entry_index(class->Object_0, key);
        if class.field(key) == Some(n) {
            let i = crate::json::entry_index(class->Object_0, key)->0;
            assert(class->Object_0.update(i, EntryView { name: key, value: n })
                =~= class->Object_0);
        }
    }
}

/// Sets a value of a class, if one is given, and says whether it changed.
fn apply_value(class: Json, key: &str, value: &Option<String>) -> (r: (Json, bool))
    requires
        class@ is Object,
    ensures
        r.0@ == with_value(class@, key@, text_option(*value)),
        r.0@ is Object,
        r.1 == (r.0@ != class@),
        forall|other: Seq<char>|
            other != key@ ==> #[trigger] r.0@.field(other) == class@.field(other),
{
    proof {
        lemma_value_changes(class@, key@, text_option(*value));
    }
    match value {
        None => (class, false),
        Some(v) => {
            let same = match class.get(key) {
                Some(Json::Number(old)) => text::same(old.as_str(), v.as_str()),
                _ => false,
            };
            (set_field(class, key, Json::Number(v.clone())), !same)
        },
    }
}

proof fn lemma_keys_differ()
    ensures
        "clearance"@ != "track_width"@,
        "clearance"@ != "via_drill"@,
        "clearance"@ != "via_diameter"@,
        "track_width"@ != "via_drill"@,
        "track_width"@ != "via_diameter"@,
        "via_drill"@ != "via_diameter"@,
        "name"@ != "clearance"@,
        "name"@ != "track_width"@,
        "name"@ != "via_drill"@,
        "name"@ != "via_diameter"@,
        "name"@ != "priority"@,
        "netclass"@ != "pattern"@,
        "classes"@ != "netclass_patterns"@,
{
    reveal_strlit("clearance");
    reveal_strlit("track_width");
    reveal_strlit("via_drill");
    reveal_strlit("via_diameter");
    reveal_strlit("name");
    reveal_strlit("priority");
    reveal_strlit("netclass");
    reveal_strlit("pattern");
    reveal_strlit("classes");
    reveal_strlit("netclass_patterns");
    assert("clearance"@.len() == 9 && "via_drill"@.len() == 9);
    assert("clearance"@[0] == 'c' && "via_drill"@[0] == 'v');
    assert("track_width"@.len() == 11 && "via_diameter"@.len() == 12);
    assert("name"@.len() == 4 && "priority"@.len() == 8);
    assert("netclass"@.len() == 8 && "pattern"@.len() == 7);
    assert("classes"@.len() == 7 && "netclass_patterns"@.len() == 17);
}

/// The class with the values that are given, and whether that changed it.
fn update_class(class: Json, v: &NetclassValues) -> (r: (Json, bool))
    requires
        class@ is Object,
    ensures
        r.0@ == updated_class(class@, *v),
        r.1 == (r.0@ != class@),
{
    let ghost start = class@;
    let (c1, d1) = apply_value(class, "clearance", &v.clearance);
    let ghost v1 = c1@;
    let (c2, d2) = apply_value(c1, "track_width", &v.trace_width);
    let ghost v2 = c2@;
    let (c3, d3) = apply_value(c2, "via_drill", &v.via_drill);
    let ghost v3 = c3@;
    let (c4, d4) = apply_value(c3, "via_diameter", &v.via_diameter);
    proof {
        lemma_keys_differ();
        lemma_value_changes(start, "clearance"@, text_option(v.clearance));
        lemma_value_changes(v1, "track_width"@, text_option(v.trace_width));
        lemma_value_changes(v2, "via_drill"@, text_option(v.via_drill));
        lemma_value_changes(v3, "via_diameter"@, text_option(v.via_diameter));
        if d1 {
            let n = JsonView::Number(v.clearance->0@);
            law_set_field_is_read_back(start, "clearance"@, n, "clearance"@);
            assert(v1.field("clearance"@) == Some(n));
            assert(c4@.field("clearance"@) == Some(n));
            assert(start.field("clearance"@) != Some(n));
        }
        if d2 {
            let n = JsonView::Number(v.trace_width->0@);
            law_set_field_is_read_back(v1, "track_width"@, n, "track_width"@);
            assert(v2.field("track_width"@) == Some(n));
            assert(c4@.field("track_width"@) == Some(n));
            assert(v1.field("track_width"@) == start.field("track_width"@));
            assert(start.field("track_width"@) != Some(n));
        }
        if d3 {
            let n = JsonView::Number(v.via_drill->0@);
            law_set_field_is_read_back(v2, "via_drill"@, n, "via_drill"@);
            assert(v3.field("via_drill"@) == Some(n));
            assert(c4@.field("via_drill"@) == Some(n));
            assert(v2.field("via_drill"@) == start.field("via_drill"@));
            assert(start.field("via_drill"@) != Some(n));
        }
        if d4 {
            let n = JsonView::Number(v.via_diameter->0@);
            law_set_field_is_read_back(v3, "via_diameter"@, n, "via_diameter"@);
            assert(c4@.field("via_diameter"@) == Some(n));
            assert(v3.field("via_diameter"@) == start.field("via_diameter"@));
            assert(start.field("via_diameter"@) != Some(n));
        }
    }
    (c4, d1 || d2 || d3 || d4)
}

fn number_entry(name: &str, value: &Option<String>, default: &str) -> (e: Entry)
    ensures
        e@ == (EntryView { name: name@, value: or_default(text_option(*value), default@) }),
{
    let t = match value {
        Some(v) => v.clone(),
        None => default.to_owned(),
    };
    Entry { name: name.to_owned(), value: Json::Number(t) }
}

fn build_class(name: &str, v: &NetclassValues) -> (j: Json)
    ensures
        j@ == new_class(name@, *v),
{
    broadcast use lemma_object_view;

    let mut entries: Vec<Entry> = Vec::new();
    push_model(&mut entries, text_field("name", name));
    push_model(
        &mut entries,
        Entry { name: "priority".to_owned(), value: Json::Number("0".to_owned()) },
    );
    push_model(&mut entries, number_entry("clearance", &v.clearance, "0.2"));
    push_model(&mut entries, number_entry("track_width", &v.trace_width, "0.25"));
    push_model(&mut entries, number_entry("via_drill", &v.via_drill, "0.4"));
    push_model(&mut entries, number_entry("via_diameter", &v.via_diameter, "0.8"));
    proof {
        assert(models(entries@) =~= new_class(name@, *v)->Object_0);
    }
    Json::Object(entries)
}

fn build_net_settings() -> (j: Json)
    ensures
        j@ == empty_net_settings(),
{
    broadcast use lemma_object_view, lemma_array_view;

    let none: Vec<Json> = Vec::new();
    let patterns: Vec<Json> = Vec::new();
    let mut meta: Vec<Entry> = Vec::new();
    push_model(
        &mut meta,
        Entry { name: "version".to_owned(), value: Json::Number("5".to_owned()) },
    );
    proof {
        assert(models(none@) =~= Seq::<JsonView>::empty());
        assert(models(patterns@) =~= Seq::<JsonView>::empty());
        assert(models(meta@) =~= seq![
            EntryView { name: "version"@, value: JsonView::Number("5"@) },
        ]);
    }
    let classes = Json::Array(none);
    let meta = Json::Object(meta);
    let patterns = Json::Array(patterns);
    proof {
        assert(classes@ == JsonView::Array(Seq::empty()));
        assert(patterns@ == JsonView::Array(Seq::empty()));
        assert(meta@ == JsonView::Object(
            seq![EntryView { name: "version"@, value: JsonView::Number("5"@) }],
        ));
    }
    let ghost meta_view = meta@;
    let mut entries: Vec<Entry> = Vec::new();
    push_model(&mut entries, Entry { name: "classes".to_owned(), value: classes });
    push_model(&mut entries, Entry { name: "meta".to_owned(), value: meta });
    push_model(&mut entries, Entry { name: "netclass_patterns".to_owned(), value: patterns });
    proof {
        let want = empty_net_settings()->Object_0;
        assert(want[1].value == meta_view);
        assert(models(entries@) =~= want);
    }
    Json::Object(entries)
}

fn open_net_settings(settings: &Json, file: &str) -> (r: Result<Json, String>)
    ensures
        match r {
            Ok(ns) => net_settings_of(settings@, file@) == Ok::<JsonView, Seq<char>>(ns@),
            Err(e) => net_settings_of(settings@, file@) == Err::<JsonView, Seq<char>>(e@),
        },
{
    if !settings.is_object() {
        return Err(text::cat2(file, ": top level is not a JSON object"));
    }
    let ns = match settings.get("net_settings") {
        Some(v) => copy_json(v),
        None => build_net_settings(),
    };
    if !ns.is_object() {
        return Err(text::cat2(file, ": net_settings is not an object"));
    }
    Ok(ns)
}

/// Creates the class of that name, or updates it. Defaults belong to creation:
/// an update changes the values that are given, and no others.
pub fn create_netclass(settings: &Json, file: &str, name: &str, values: &NetclassValues) -> (r:
    Result<NetclassChange, String>)
    ensures
        match net_settings_of(settings@, file@) {
            Err(e) => r matches Err(m) && m@ == e,
            Ok(ns) => match classes_of(ns, file@) {
                Err(e) => r matches Err(m) && m@ == e,
                Ok(classes) => r matches Ok(c) && {
                    &&& c.settings@ == with_classes(
                        settings@,
                        ns,
                        requested_classes(classes, name@, *values),
                    )
                    &&& c.updated <==> class_at(classes, "name"@, name@, 0) is Some
                    &&& c.changed <==> request_changes(classes, name@, *values)
                    &&& c.stored@ == requested_class(classes, name@, *values)
                },
            },
        },
{
    broadcast use lemma_array_view;

    let ns = match open_net_settings(settings, file) {
        Ok(ns) => ns,
        Err(e) => return Err(e),
    };
    let mut classes = match array_or_empty(&ns, "classes") {
        Some(items) => items,
        None => return Err(text::cat2(file, ": net_settings.classes is not an array")),
    };
    let ghost before = models(classes@);
    let mut updated = false;
    let mut changed = true;
    let stored: Json;
    match find_class(&classes, "name", name) {
        Some(i) => {
            let class = copy_json(&classes[i]);
            proof {
                assert(before[i as int] == classes@[i as int]@);
            }
            let (new, differs) = update_class(class, values);
            stored = copy_json(&new);
            classes.set(i, new);
            proof {
                assert(models(classes@) =~= before.update(i as int, stored@));
            }
            updated = true;
            changed = differs;
        },
        None => {
            let class = build_class(name, values);
            stored = copy_json(&class);
            push_model(&mut classes, class);
        },
    }
    proof {
        assert(models(classes@) == requested_classes(before, name@, *values));
    }
    let ns = set_field(ns, "classes", Json::Array(classes));
    let settings = set_field(copy_json(settings), "net_settings", ns);
    Ok(NetclassChange { settings, updated, changed, stored })
}

/// An update leaves what the caller does not name: a value that is not given,
/// and whatever else the class holds, stays as it was.
pub proof fn law_update_keeps_other_values(class: JsonView, v: NetclassValues, key: Seq<char>)
    requires
        class is Object,
        key == "clearance"@ ==> v.clearance is None,
        key == "track_width"@ ==> v.trace_width is None,
        key == "via_drill"@ ==> v.via_drill is None,
        key == "via_diameter"@ ==> v.via_diameter is None,
    ensures
        updated_class(class, v).field(key) == class.field(key),
{
    let v1 = with_value(class, "clearance"@, text_option(v.clearance));
    let v2 = with_value(v1, "track_width"@, text_option(v.trace_width));
    let v3 = with_value(v2, "via_drill"@, text_option(v.via_drill));
    lemma_value_changes(class, "clearance"@, text_option(v.clearance));
    lemma_value_changes(v1, "track_width"@, text_option(v.trace_width));
    lemma_value_changes(v2, "via_drill"@, text_option(v.via_drill));
    lemma_value_changes(v3, "via_diameter"@, text_option(v.via_diameter));
}

/// A request that names no value changes nothing of a class that is there.
pub proof fn law_empty_update_changes_nothing(
    classes: Seq<JsonView>,
    name: Seq<char>,
    v: NetclassValues,
)
    requires
        class_at(classes, "name"@, name, 0) is Some,
        v.clearance is None,
        v.trace_width is None,
        v.via_drill is None,
        v.via_diameter is None,
    ensures
        !request_changes(classes, name, v),
        requested_classes(classes, name, v) == classes,
{
    lemma_class_at(classes, "name"@, name, 0);
    let i = class_at(classes, "name"@, name, 0)->0;
    assert(classes.update(i, classes[i]) =~= classes);
}

proof fn lemma_class_at(classes: Seq<JsonView>, key: Seq<char>, name: Seq<char>, from: int)
    requires
        0 <= from,
    ensures
        match class_at(classes, key, name, from) {
            Some(i) => from <= i < classes.len() && classes[i].field_text(key) == Some(name)
                && forall|j: int|
                from <= j < i ==> (#[trigger] classes[j]).field_text(key) != Some(name),
            None => forall|j: int|
                from <= j < classes.len() ==> (#[trigger] classes[j]).field_text(key) != Some(name),
        },
    decreases classes.len() - from,
{
    if from < classes.len() && classes[from].field_text(key) != Some(name) {
        lemma_class_at(classes, key, name, from + 1);
    }
}

proof fn lemma_class_found(
    classes: Seq<JsonView>,
    key: Seq<char>,
    name: Seq<char>,
    from: int,
    at: int,
)
    requires
        0 <= from <= at < classes.len(),
        classes[at].field_text(key) == Some(name),
        forall|j: int|
            from <= j < at ==> (#[trigger] classes[j]).field_text(key) != Some(name),
    ensures
        class_at(classes, key, name, from) == Some(at),
    decreases at - from,
{
    if from < at {
        assert(classes[from].field_text(key) != Some(name));
        lemma_class_found(classes, key, name, from + 1, at);
    }
}

// ─── Assignment ───────────────────────────────────────────────────────────

/// What came of assigning a net to a class.
pub enum Assignment {
    Already,
    Assigned { settings: Json, previous: Option<String> },
}

/// The names of the first `n` classes that have one.
pub open spec fn class_names(classes: Seq<JsonView>, n: nat) -> Seq<Seq<char>>
    decreases n,
{
    if n == 0 {
        Seq::empty()
    } else {
        match classes[n - 1].field_text("name"@) {
            Some(t) => class_names(classes, (n - 1) as nat).push(t),
            None => class_names(classes, (n - 1) as nat),
        }
    }
}

/// The names of the classes that a project has.
pub open spec fn known_classes(settings: JsonView) -> Seq<Seq<char>> {
    match settings.field("net_settings"@) {
        Some(ns) => match ns.field_items("classes"@) {
            Some(classes) => class_names(classes, classes.len()),
            None => Seq::empty(),
        },
        None => Seq::empty(),
    }
}

/// What is told of a class that the project does not have.
pub open spec fn unknown_class(class: Seq<char>, file: Seq<char>, known: Seq<Seq<char>>) -> Seq<
    char,
> {
    "Netclass '"@ + class + "' not found in "@ + file + " — available: "@ + (if known.len() == 0 {
        "(none)"@
    } else {
        joined(known, ", "@)
    }) + ". Create it with create_netclass."@
}

/// The patterns by which nets belong to classes.
pub open spec fn patterns_of(settings: JsonView) -> JsonView {
    field_or(
        settings.field("net_settings"@)->0,
        "netclass_patterns"@,
        JsonView::Array(Seq::empty()),
    )
}

/// A pattern that assigns a net to a class.
pub open spec fn new_pattern(net: Seq<char>, class: Seq<char>) -> JsonView {
    JsonView::Object(seq![text_entry("netclass"@, class), text_entry("pattern"@, net)])
}

/// The patterns with the net in that class: its own pattern moves to the
/// class, so that none competes with it.
pub open spec fn assigned_patterns(
    patterns: Seq<JsonView>,
    net: Seq<char>,
    class: Seq<char>,
) -> Seq<JsonView> {
    match class_at(patterns, "pattern"@, net, 0) {
        Some(i) => patterns.update(
            i,
            patterns[i].with_field("netclass"@, JsonView::Text(class)),
        ),
        None => patterns.push(new_pattern(net, class)),
    }
}

/// The class that the patterns give a net.
pub open spec fn class_of_net(patterns: Seq<JsonView>, net: Seq<char>) -> Option<Seq<char>> {
    match class_at(patterns, "pattern"@, net, 0) {
        Some(i) => patterns[i].field_text("netclass"@),
        None => None,
    }
}

/// The settings with those patterns.
pub open spec fn with_patterns(settings: JsonView, patterns: Seq<JsonView>) -> JsonView {
    settings.with_field(
        "net_settings"@,
        settings.field("net_settings"@)->0.with_field(
            "netclass_patterns"@,
            JsonView::Array(patterns),
        ),
    )
}

fn names_of_classes(settings: &Json) -> (out: Vec<String>)
    ensures
        models(out@) == known_classes(settings@),
{
    let mut out: Vec<String> = Vec::new();
    proof {
        assert(models(out@) =~= Seq::<Seq<char>>::empty());
    }
    if let Some(ns) = settings.get("net_settings") {
        if let Some(classes) = ns.get_items("classes") {
            let mut i: usize = 0;
            proof {
                assert(models(classes@).len() == classes@.len());
            }
            while i < classes.len()
                invariant
                    i <= classes@.len(),
                    models(classes@).len() == classes@.len(),
                    models(out@) == class_names(models(classes@), i as nat),
                decreases classes@.len() - i,
            {
                proof {
                    assert(models(classes@)[i as int] == classes@[i as int]@);
                }
                if let Some(t) = classes[i].get_text("name") {
                    push_model(&mut out, t.clone());
                }
                i += 1;
            }
        }
    }
    out
}

/// Assigns a net to a class of the project. The class must be there: a pattern
/// with an unknown class would do nothing, in silence.
pub fn assign_net_to_class(settings: &Json, file: &str, net_name: &str, netclass: &str) -> (r:
    Result<Assignment, String>)
    ensures
        if !known_classes(settings@).contains(netclass@) {
            r matches Err(e) && e@ == unknown_class(netclass@, file@, known_classes(settings@))
        } else {
            match patterns_of(settings@) {
                JsonView::Array(patterns) => if class_of_net(patterns, net_name@) == Some(
                    netclass@,
                ) {
                    r matches Ok(Assignment::Already)
                } else {
                    r matches Ok(Assignment::Assigned { settings: s, previous }) && s@
                        == with_patterns(
                        settings@,
                        assigned_patterns(patterns, net_name@, netclass@),
                    ) && text_option(previous) == class_of_net(patterns, net_name@)
                },
                _ => r matches Err(e) && e@ == file@
                    + ": net_settings.netclass_patterns is not an array"@,
            }
        },
{
    broadcast use lemma_array_view, lemma_object_view;

    let known = names_of_classes(settings);
    proof {
        assert(models(known@).len() == known@.len());
    }
    if !text::list_contains(&known, netclass) {
        let list = if known.len() == 0 {
            "(none)".to_owned()
        } else {
            text::join(&known, ", ")
        };
        let mut e = text::cat5(
            "Netclass '",
            netclass,
            "' not found in ",
            file,
            " — available: ",
        );
        e.append(list.as_str());
        e.append(". Create it with create_netclass.");
        return Err(e);
    }
    let ns = match settings.get("net_settings") {
        Some(v) => copy_json(v),
        None => {
            proof {
                assert(known_classes(settings@).len() == 0);
            }
            Json::Null
        },
    };
    let mut patterns = match array_or_empty(&ns, "netclass_patterns") {
        Some(items) => items,
        None => {
            return Err(text::cat2(file, ": net_settings.netclass_patterns is not an array"));
        },
    };
    let ghost before = models(patterns@);
    let mut previous: Option<String> = None;
    match find_class(&patterns, "pattern", net_name) {
        Some(i) => {
            proof {
                assert(before[i as int] == patterns@[i as int]@);
            }
            if let Some(c) = patterns[i].get_text("netclass") {
                if text::same(c.as_str(), netclass) {
                    return Ok(Assignment::Already);
                }
                previous = Some(c.clone());
            }
            let entry = set_field(
                copy_json(&patterns[i]),
                "netclass",
                Json::Text(netclass.to_owned()),
            );
            let ghost e = entry@;
            patterns.set(i, entry);
            proof {
                assert(models(patterns@) =~= before.update(i as int, e));
            }
        },
        None => {
            let mut entries: Vec<Entry> = Vec::new();
            push_model(&mut entries, text_field("netclass", netclass));
            push_model(&mut entries, text_field("pattern", net_name));
            proof {
                assert(models(entries@) =~= seq![
                    text_entry("netclass"@, netclass@),
                    text_entry("pattern"@, net_name@),
                ]);
            }
            push_model(&mut patterns, Json::Object(entries));
        },
    }
    let ns = set_field(ns, "netclass_patterns", Json::Array(patterns));
    let settings = set_field(copy_json(settings), "net_settings", ns);
    Ok(Assignment::Assigned { settings, previous })
}

/// The net that was assigned belongs to the class, and every other net to the
/// class that it belonged to.
pub proof fn law_assignment_is_read_back(
    patterns: Seq<JsonView>,
    net: Seq<char>,
    class: Seq<char>,
    other: Seq<char>,
)
    ensures
        class_of_net(assigned_patterns(patterns, net, class), net) == Some(class),
        other != net ==> class_of_net(assigned_patterns(patterns, net, class), other)
            == class_of_net(patterns, other),
{
    lemma_keys_differ();
    let after = assigned_patterns(patterns, net, class);
    lemma_class_at(patterns, "pattern"@, net, 0);
    lemma_class_at(patterns, "pattern"@, other, 0);
    let at = match class_at(patterns, "pattern"@, net, 0) {
        Some(i) => {
            law_set_field_is_read_back(
                patterns[i],
                "netclass"@,
                JsonView::Text(class),
                "pattern"@,
            );
            i
        },
        None => {
            reveal_with_fuel(crate::json::entry_index, 3);
            let p = new_pattern(net, class);
            assert(p->Object_0.drop_last() =~= seq![text_entry("netclass"@, class)]);
            assert(p->Object_0.drop_last().drop_last() =~= Seq::<EntryView>::empty());
            assert(p.field_text("netclass"@) == Some(class));
            assert(p.field_text("pattern"@) == Some(net));
            patterns.len() as int
        },
    };
    assert(after[at].field_text("pattern"@) == Some(net));
    assert(after[at].field_text("netclass"@) == Some(class));
    assert forall|j: int| 0 <= j < at implies (#[trigger] after[j]).field_text("pattern"@) != Some(
        net,
    ) by {
        assert(after[j] == patterns[j]);
    }
    lemma_class_found(after, "pattern"@, net, 0, at);
    if other != net {
        lemma_class_at(after, "pattern"@, other, 0);
        match class_at(patterns, "pattern"@, other, 0) {
            Some(k) => {
                assert(k != at);
                assert(after[k] == patterns[k]);
                assert forall|j: int| 0 <= j < k implies (#[trigger] after[j]).field_text(
                    "pattern"@,
                ) != Some(other) by {
                    if j != at {
                        assert(after[j] == patterns[j]);
                    }
                }
                lemma_class_found(after, "pattern"@, other, 0, k);
            },
            None => {
                if let Some(m) = class_at(after, "pattern"@, other, 0) {
                    assert(m != at);
                    assert(after[m] == patterns[m]);
                }
            },
        }
    }
}

// ─── Laws on classes ──────────────────────────────────────────────────────

/// A request sets the values that it gives, each under its own name.
pub proof fn law_update_sets_the_given_values(class: JsonView, v: NetclassValues)
    requires
        class is Object,
    ensures
        v.clearance matches Some(t) ==> updated_class(class, v).field("clearance"@) == Some(
            JsonView::Number(t@),
        ),
        v.trace_width matches Some(t) ==> updated_class(class, v).field("track_width"@) == Some(
            JsonView::Number(t@),
        ),
        v.via_drill matches Some(t) ==> updated_class(class, v).field("via_drill"@) == Some(
            JsonView::Number(t@),
        ),
        v.via_diameter matches Some(t) ==> updated_class(class, v).field("via_diameter"@) == Some(
            JsonView::Number(t@),
        ),
{
    lemma_keys_differ();
    let a = with_value(class, "clearance"@, text_option(v.clearance));
    let b = with_value(a, "track_width"@, text_option(v.trace_width));
    let c = with_value(b, "via_drill"@, text_option(v.via_drill));
    lemma_value_set(class, "clearance"@, text_option(v.clearance), "clearance"@);
    lemma_value_set(a, "track_width"@, text_option(v.trace_width), "clearance"@);
    lemma_value_set(b, "via_drill"@, text_option(v.via_drill), "clearance"@);
    lemma_value_set(b, "via_drill"@, text_option(v.via_drill), "track_width"@);
    lemma_value_set(c, "via_diameter"@, text_option(v.via_diameter), "clearance"@);
    lemma_value_set(c, "via_diameter"@, text_option(v.via_diameter), "track_width"@);
    lemma_value_set(c, "via_diameter"@, text_option(v.via_diameter), "via_drill"@);
}

proof fn lemma_value_set(class: JsonView, key: Seq<char>, value: Option<Seq<char>>, other: Seq<char>)
    requires
        class is Object,
    ensures
        with_value(class, key, value) is Object,
        value matches Some(t) ==> with_value(class, key, value).field(key) == Some(
            JsonView::Number(t),
        ),
        other != key ==> with_value(class, key, value).field(other) == class.field(other),
{
    if let Some(t) = value {
        law_set_field_is_read_back(class, key, JsonView::Number(t), other);
    }
}

/// A new class has its name, the values that are given, and for the others 0.2
/// mm of clearance, tracks of 0.25 mm and vias of 0.8 mm with holes of 0.4 mm.
pub proof fn law_new_classes_have_defaults(name: Seq<char>, v: NetclassValues)
    ensures
        new_class(name, v).field_text("name"@) == Some(name),
        new_class(name, v).field("clearance"@) == Some(
            JsonView::Number(
                match v.clearance {
                    Some(t) => t@,
                    None => "0.2"@,
                },
            ),
        ),
        new_class(name, v).field("track_width"@) == Some(
            JsonView::Number(
                match v.trace_width {
                    Some(t) => t@,
                    None => "0.25"@,
                },
            ),
        ),
        new_class(name, v).field("via_drill"@) == Some(
            JsonView::Number(
                match v.via_drill {
                    Some(t) => t@,
                    None => "0.4"@,
                },
            ),
        ),
        new_class(name, v).field("via_diameter"@) == Some(
            JsonView::Number(
                match v.via_diameter {
                    Some(t) => t@,
                    None => "0.8"@,
                },
            ),
        ),
{
    let entries = new_class(name, v)->Object_0;
    reveal_strlit("name");
    reveal_strlit("priority");
    reveal_strlit("clearance");
    reveal_strlit("track_width");
    reveal_strlit("via_drill");
    reveal_strlit("via_diameter");
    assert("clearance"@[0] != "via_drill"@[0]);
    crate::json::lemma_entry_index(entries, "name"@);
    crate::json::lemma_entry_index(entries, "clearance"@);
    crate::json::lemma_entry_index(entries, "track_width"@);
    crate::json::lemma_entry_index(entries, "via_drill"@);
    crate::json::lemma_entry_index(entries, "via_diameter"@);
    assert(entries[0].name == "name"@);
    assert(entries[1].name == "priority"@);
    assert(entries[2].name == "clearance"@);
    assert(entries[3].name == "track_width"@);
    assert(entries[4].name == "via_drill"@);
    assert(entries[5].name == "via_diameter"@);
}

/// A request for a class touches that class only: every other class keeps its
/// place and stays as it is, a new one comes last, and no name is in the list
/// twice on account of it.
pub proof fn law_request_keeps_other_classes(
    classes: Seq<JsonView>,
    name: Seq<char>,
    v: NetclassValues,
    k: int,
)
    requires
        0 <= k < classes.len(),
    ensures
        classes[k].field_text("name"@) != Some(name) ==> requested_classes(classes, name, v)[k]
            == classes[k],
        (exists|i: int|
            0 <= i < classes.len() && (#[trigger] classes[i]).field_text("name"@) == Some(name))
            ==> requested_classes(classes, name, v).len() == classes.len(),
        (forall|i: int|
            0 <= i < classes.len() ==> (#[trigger] classes[i]).field_text("name"@) != Some(name))
            ==> requested_classes(classes, name, v) == classes.push(new_class(name, v)),
{
    lemma_first_class(classes, "name"@, name, 0);
}

proof fn lemma_first_class(classes: Seq<JsonView>, key: Seq<char>, name: Seq<char>, from: int)
    requires
        0 <= from,
    ensures
        match class_at(classes, key, name, from) {
            Some(i) => from <= i < classes.len() && classes[i].field_text(key) == Some(name)
                && forall|j: int|
                from <= j < i ==> (#[trigger] classes[j]).field_text(key) != Some(name),
            None => forall|j: int|
                from <= j < classes.len() ==> (#[trigger] classes[j]).field_text(key) != Some(name),
        },
    decreases classes.len() - from,
{
    if from < classes.len() && classes[from].field_text(key) != Some(name) {
        lemma_first_class(classes, key, name, from + 1);
    }
}

/// The rest of a project's settings stays as it is, and the classes are read
/// back.
pub proof fn law_settings_keep_the_rest(
    settings: JsonView,
    ns: JsonView,
    classes: Seq<JsonView>,
    other: Seq<char>,
)
    requires
        settings is Object,
        ns is Object,
    ensures
        other != "net_settings"@ ==> with_classes(settings, ns, classes).field(other)
            == settings.field(other),
        with_classes(settings, ns, classes).field("net_settings"@) matches Some(after)
            && after.field("classes"@) == Some(JsonView::Array(classes)) && (other != "classes"@
            ==> after.field(other) == ns.field(other)),
{
    law_set_field_is_read_back(ns, "classes"@, JsonView::Array(classes), other);
    law_set_field_is_read_back(
        settings,
        "net_settings"@,
        ns.with_field("classes"@, JsonView::Array(classes)),
        other,
    );
}

/// A request changes something exactly if the classes after it are not those
/// before it.
pub proof fn law_change_is_told_truly(classes: Seq<JsonView>, name: Seq<char>, v: NetclassValues)
    ensures
        request_changes(classes, name, v) <==> requested_classes(classes, name, v) != classes,
        requested_classes(classes, name, v).contains(requested_class(classes, name, v)),
{
    lemma_first_class(classes, "name"@, name, 0);
    let after = requested_classes(classes, name, v);
    match class_at(classes, "name"@, name, 0) {
        Some(i) => {
            assert(after[i] == updated_class(classes[i], v));
            if updated_class(classes[i], v) == classes[i] {
                assert(after =~= classes);
            }
        },
        None => {
            assert(after.len() == classes.len() + 1);
            assert(after[classes.len() as int] == new_class(name, v));
        },
    }
}

proof fn lemma_class_names(classes: Seq<JsonView>, n: nat, t: Seq<char>)
    requires
        n <= classes.len(),
    ensures
        class_names(classes, n).contains(t) <==> exists|i: int|
            0 <= i < n && (#[trigger] classes[i]).field_text("name"@) == Some(t),
    decreases n,
{
    if n > 0 {
        lemma_class_names(classes, (n - 1) as nat, t);
        if let Some(x) = classes[n - 1].field_text("name"@) {
            crate::seqs::lemma_contains_push(class_names(classes, (n - 1) as nat), x, t);
        }
    }
}

/// A project knows a class exactly if its settings hold one of that name.
pub proof fn law_known_classes(settings: JsonView, t: Seq<char>)
    ensures
        known_classes(settings).contains(t) <==> (settings.field("net_settings"@) matches Some(ns)
            && ns.field_items("classes"@) matches Some(classes) && exists|i: int|
            0 <= i < classes.len() && (#[trigger] classes[i]).field_text("name"@) == Some(t)),
{
    if let Some(ns) = settings.field("net_settings"@) {
        if let Some(classes) = ns.field_items("classes"@) {
            lemma_class_names(classes, classes.len(), t);
        }
    }
}

/// Settings without net settings have no classes to begin with, and settings of
/// another shape are refused.
pub proof fn law_settings_of_other_shapes_are_refused(settings: JsonView, file: Seq<char>)
    ensures
        !(settings is Object) ==> net_settings_of(settings, file) is Err,
        settings is Object && settings.field("net_settings"@) is None ==> (net_settings_of(
            settings,
            file,
        ) matches Ok(ns) && classes_of(ns, file) == Ok::<Seq<JsonView>, Seq<char>>(Seq::empty())),
        settings.field("net_settings"@) matches Some(ns) ==> (net_settings_of(settings, file) is Ok
            <==> ns is Object),
        settings.field("net_settings"@) matches Some(ns) ==> (ns is Object ==> (ns.field(
            "classes"@,
        ) matches Some(c) ==> (classes_of(ns, file) is Ok <==> c is Array))),
{
    let entries = empty_net_settings()->Object_0;
    crate::json::lemma_entry_index(entries, "classes"@);
    assert(entries[0].name == "classes"@);
}

/// Assigning a net leaves the rest of the settings as it is.
pub proof fn law_assignment_keeps_the_rest(
    settings: JsonView,
    patterns: Seq<JsonView>,
    other: Seq<char>,
)
    requires
        settings is Object,
        settings.field("net_settings"@) matches Some(ns) && ns is Object,
    ensures
        other != "net_settings"@ ==> with_patterns(settings, patterns).field(other)
            == settings.field(other),
        with_patterns(settings, patterns).field("net_settings"@) matches Some(after)
            && after.field("netclass_patterns"@) == Some(JsonView::Array(patterns)) && (other
            != "netclass_patterns"@ ==> after.field(other) == settings.field(
            "net_settings"@,
        )->0.field(other)),
{
    let ns = settings.field("net_settings"@)->0;
    law_set_field_is_read_back(ns, "netclass_patterns"@, JsonView::Array(patterns), other);
    law_set_field_is_read_back(
        settings,
        "net_settings"@,
        ns.with_field("netclass_patterns"@, JsonView::Array(patterns)),
        other,
    );
}

/// The assignments of a project are read back as they were set, and a project
/// without any has an empty list of them.
pub proof fn law_assignments_are_read_back(settings: JsonView, patterns: Seq<JsonView>)
    requires
        settings is Object,
        settings.field("net_settings"@) matches Some(ns) && ns is Object,
    ensures
        patterns_of(with_patterns(settings, patterns)) == JsonView::Array(patterns),
        settings.field("net_settings"@)->0.field("netclass_patterns"@) is None ==> patterns_of(
            settings,
        ) == JsonView::Array(Seq::empty()),
{
    law_assignment_keeps_the_rest(settings, patterns, "net_settings"@);
}

/// Settings are read exactly if the file is there and holds a document.
pub proof fn law_projects_that_are_read(file: Seq<char>, content: Option<Seq<char>>)
    ensures
        project_settings(file, content) is Ok <==> (content matches Some(t) && json_document(
            t,
        ) is Ok),
        project_settings(file, content) matches Ok(j) ==> Ok::<JsonView, Seq<char>>(j)
            == json_document(content->0),
{
}

} // verus!
