//! JSON values as the tools exchange them.
//!
//! A number is kept as the decimal text that denotes it, so that a coordinate
//! passes through unchanged.
use crate::seqs::models;
use crate::text::{self, numeral_value};
use vstd::prelude::*;

verus! {

/// A JSON value. An object keeps its entries in a list; the first entry of a
/// name is the one that counts.
pub enum Json {
    Null,
    Bool(bool),
    Number(String),
    Text(String),
    Array(Vec<Json>),
    Object(Vec<Entry>),
}

/// A named value of an object.
pub struct Entry {
    pub name: String,
    pub value: Json,
}

/// The model of a JSON value.
pub ghost enum JsonView {
    Null,
    Bool(bool),
    Number(Seq<char>),
    Text(Seq<char>),
    Array(Seq<JsonView>),
    Object(Seq<EntryView>),
}

/// The model of a named value.
pub ghost struct EntryView {
    pub name: Seq<char>,
    pub value: JsonView,
}

impl View for Entry {
    type V = EntryView;

    open spec fn view(&self) -> EntryView
        decreases self,
    {
        EntryView { name: self.name@, value: self.value.view() }
    }
}

impl View for Json {
    type V = JsonView;

    open spec fn view(&self) -> JsonView
        decreases self,
    {
        match self {
            Json::Null => JsonView::Null,
            Json::Bool(b) => JsonView::Bool(*b),
            Json::Number(t) => JsonView::Number(t@),
            Json::Text(t) => JsonView::Text(t@),
            Json::Array(items) => JsonView::Array(
                Seq::new(
                    items@.len(),
                    |i: int|
                        if 0 <= i < items@.len() {
                            items@[i].view()
                        } else {
                            JsonView::Null
                        },
                ),
            ),
            Json::Object(entries) => JsonView::Object(
                Seq::new(
                    entries@.len(),
                    |i: int|
                        if 0 <= i < entries@.len() {
                            entries@[i].view()
                        } else {
                            EntryView { name: Seq::empty(), value: JsonView::Null }
                        },
                ),
            ),
        }
    }
}

/// The model of an array is the array of the models.
pub broadcast proof fn lemma_array_view(items: Vec<Json>)
    ensures
        #[trigger] Json::Array(items)@ == JsonView::Array(models(items@)),
{
    assert(Json::Array(items)@->Array_0 =~= models(items@));
}

/// The model of an object is the object of the models.
pub broadcast proof fn lemma_object_view(entries: Vec<Entry>)
    ensures
        #[trigger] Json::Object(entries)@ == JsonView::Object(models(entries@)),
{
    assert(Json::Object(entries)@->Object_0 =~= models(entries@));
}

/// A copy of a value.
pub fn copy_json(j: &Json) -> (r: Json)
    ensures
        r@ == j@,
    decreases j,
{
    broadcast use lemma_array_view, lemma_object_view;

    match j {
        Json::Null => Json::Null,
        Json::Bool(b) => Json::Bool(*b),
        Json::Number(t) => Json::Number(t.clone()),
        Json::Text(t) => Json::Text(t.clone()),
        Json::Array(items) => {
            let mut out: Vec<Json> = Vec::new();
            let mut i: usize = 0;
            while i < items.len()
                invariant
                    i <= items.len(),
                    decreases_to!(j => items),
                    models(out@) == models(items@).take(i as int),
                decreases items.len() - i,
            {
                let c = copy_json(&items[i]);
                let ghost before = out@;
                out.push(c);
                proof {
                    assert(models(out@) =~= models(before).push(c@));
                    assert(models(items@).take(i + 1) =~= models(items@).take(
                        i as int,
                    ).push(items@[i as int]@));
                }
                i += 1;
            }
            proof {
                assert(models(items@).take(items@.len() as int) =~= models(items@));
            }
            Json::Array(out)
        },
        Json::Object(entries) => {
            let mut out: Vec<Entry> = Vec::new();
            let mut i: usize = 0;
            while i < entries.len()
                invariant
                    i <= entries.len(),
                    decreases_to!(j => entries),
                    models(out@) == models(entries@).take(i as int),
                decreases entries.len() - i,
            {
                let k = entries[i].name.clone();
                let c = copy_json(&entries[i].value);
                let ghost before = out@;
                let ghost e = EntryView { name: k@, value: c@ };
                out.push(Entry { name: k, value: c });
                proof {
                    assert(models(out@) =~= models(before).push(e));
                    assert(models(entries@).take(i + 1) =~= models(entries@).take(
                        i as int,
                    ).push(e));
                }
                i += 1;
            }
            proof {
                assert(models(entries@).take(entries@.len() as int) =~= models(entries@));
            }
            Json::Object(out)
        },
    }
}

/// Position of the first entry of that name.
pub open spec fn entry_index(entries: Seq<EntryView>, name: Seq<char>) -> Option<int>
    decreases entries.len(),
{
    if entries.len() == 0 {
        None
    } else {
        match entry_index(entries.drop_last(), name) {
            Some(i) => Some(i),
            None => if entries.last().name == name {
                Some(entries.len() - 1)
            } else {
                None
            },
        }
    }
}

impl JsonView {
    /// The value of the entry of that name, if this is an object that has one.
    pub open spec fn field(self, name: Seq<char>) -> Option<JsonView> {
        match self {
            JsonView::Object(entries) => match entry_index(entries, name) {
                Some(i) => Some(entries[i].value),
                None => None,
            },
            _ => None,
        }
    }

    /// The text that this value is, if it is one.
    pub open spec fn text(self) -> Option<Seq<char>> {
        match self {
            JsonView::Text(t) => Some(t),
            _ => None,
        }
    }

    /// The text of the entry of that name.
    pub open spec fn field_text(self, name: Seq<char>) -> Option<Seq<char>> {
        match self.field(name) {
            Some(v) => v.text(),
            None => None,
        }
    }

    /// The truth value under that name.
    pub open spec fn field_bool(self, name: Seq<char>) -> Option<bool> {
        match self.field(name) {
            Some(JsonView::Bool(b)) => Some(b),
            _ => None,
        }
    }

    /// The natural number under that name, if it is a plain numeral of 64 bits.
    pub open spec fn field_number(self, name: Seq<char>) -> Option<nat> {
        match self.field(name) {
            Some(JsonView::Number(t)) => numeral_value(t, u64::MAX as nat),
            _ => None,
        }
    }

    /// The items of the entry of that name, if it is an array.
    pub open spec fn field_items(self, name: Seq<char>) -> Option<Seq<JsonView>> {
        match self.field(name) {
            Some(JsonView::Array(items)) => Some(items),
            _ => None,
        }
    }
}

/// The first entry of a name is within the list, has that name, and none
/// before it has.
pub proof fn lemma_entry_index(entries: Seq<EntryView>, name: Seq<char>)
    ensures
        match entry_index(entries, name) {
            Some(i) => 0 <= i < entries.len() && entries[i].name == name && forall|j: int|
                0 <= j < i ==> (#[trigger] entries[j]).name != name,
            None => forall|j: int| 0 <= j < entries.len() ==> (#[trigger] entries[j]).name != name,
        },
    decreases entries.len(),
{
    if entries.len() > 0 {
        let rest = entries.drop_last();
        lemma_entry_index(rest, name);
        match entry_index(rest, name) {
            Some(i) => {
                assert(entries[i] == rest[i]);
                assert forall|j: int| 0 <= j < i implies (#[trigger] entries[j]).name != name by {
                    assert(entries[j] == rest[j]);
                }
            },
            None => {
                assert forall|j: int| 0 <= j < entries.len() - 1 implies (#[trigger] entries[j]).name
                    != name by {
                    assert(entries[j] == rest[j]);
                }
            },
        }
    }
}

/// Position of the first entry of that name.
pub fn find_entry(entries: &Vec<Entry>, name: &str) -> (r: Option<usize>)
    ensures
        match r {
            Some(i) => i < entries@.len() && entry_index(models(entries@), name@) == Some(
                i as int,
            ),
            None => entry_index(models(entries@), name@) is None,
        },
{
    let mut i: usize = 0;
    let ghost all = models(entries@);
    while i < entries.len()
        invariant
            i <= entries.len(),
            all == models(entries@),
            forall|j: int| 0 <= j < i ==> (#[trigger] all[j]).name != name@,
        decreases entries.len() - i,
    {
        proof {
            assert(all[i as int].name == entries@[i as int].name@);
        }
        if text::same(entries[i].name.as_str(), name) {
            proof {
                lemma_entry_index(all, name@);
            }
            return Some(i);
        }
        i += 1;
    }
    proof {
        lemma_entry_index(all, name@);
    }
    None
}

impl Json {
    /// The value of the entry of that name.
    pub fn get(&self, name: &str) -> (r: Option<&Json>)
        ensures
            match r {
                Some(v) => self@.field(name@) == Some(v@),
                None => self@.field(name@) is None,
            },
    {
        broadcast use lemma_object_view;

        match self {
            Json::Object(entries) => match find_entry(entries, name) {
                Some(i) => Some(&entries[i].value),
                None => None,
            },
            _ => None,
        }
    }

    /// The text that this value is.
    pub fn as_text(&self) -> (r: Option<&String>)
        ensures
            match r {
                Some(t) => self@.text() == Some(t@),
                None => self@.text() is None,
            },
    {
        match self {
            Json::Text(t) => Some(t),
            _ => None,
        }
    }

    /// The text of the entry of that name.
    pub fn get_text(&self, name: &str) -> (r: Option<&String>)
        ensures
            match r {
                Some(t) => self@.field_text(name@) == Some(t@),
                None => self@.field_text(name@) is None,
            },
    {
        match self.get(name) {
            Some(v) => v.as_text(),
            None => None,
        }
    }

    /// The truth value under that name.
    pub fn get_bool(&self, name: &str) -> (r: Option<bool>)
        ensures
            r == self@.field_bool(name@),
    {
        match self.get(name) {
            Some(Json::Bool(b)) => Some(*b),
            _ => None,
        }
    }

    /// The natural number under that name.
    pub fn get_number(&self, name: &str) -> (r: Option<u64>)
        ensures
            match r {
                Some(n) => self@.field_number(name@) == Some(n as nat),
                None => self@.field_number(name@) is None,
            },
    {
        match self.get(name) {
            Some(Json::Number(t)) => text::parse_numeral(t.as_str(), u64::MAX),
            _ => None,
        }
    }

    /// The items of the entry of that name, if it is an array.
    pub fn get_items(&self, name: &str) -> (r: Option<&Vec<Json>>)
        ensures
            match r {
                Some(v) => self@.field_items(name@) == Some(models(v@)),
                None => self@.field_items(name@) is None,
            },
    {
        broadcast use lemma_array_view;

        match self.get(name) {
            Some(Json::Array(items)) => Some(items),
            _ => None,
        }
    }

    /// Whether this value is an object.
    pub fn is_object(&self) -> (r: bool)
        ensures
            r == (self@ is Object),
    {
        matches!(self, Json::Object(_))
    }
}

// ─── Documents ────────────────────────────────────────────────────────────

/// What `serde_json::from_str` makes of a text: the value that it denotes, or
/// the message of the error that it reports.
pub uninterp spec fn json_document(text: Seq<char>) -> Result<JsonView, Seq<char>>;

/// `serde_json::Value`, the tree that `serde_json::from_str` builds.
#[verifier::external_type_specification]
#[verifier::external_body]
pub struct ExValue(serde_json::Value);

/// The value that a `serde_json::Value` holds, variant by variant; a
/// `serde_json::Number` becomes the text that `serde_json` writes for it.
#[verifier::external_body]
fn json_of_value(value: serde_json::Value) -> Json {
    match value {
        serde_json::Value::Null => Json::Null,
        serde_json::Value::Bool(b) => Json::Bool(b),
        serde_json::Value::Number(n) => Json::Number(n.to_string()),
        serde_json::Value::String(t) => Json::Text(t),
        serde_json::Value::Array(a) => Json::Array(a.into_iter().map(json_of_value).collect()),
        serde_json::Value::Object(o) => Json::Object(
            o.into_iter().map(|(name, v)| Entry { name, value: json_of_value(v) }).collect(),
        ),
    }
}

/// `serde_json::from_str` on a whole text, read as a `serde_json::Value`. The
/// claim is that the outcome depends on the text alone: it is the value, or
/// the error message, that `json_document` names.
#[verifier::external_body]
pub(crate) fn parse_json(text: &str) -> (r: Result<Json, String>)
    ensures
        match r {
            Ok(j) => json_document(text@) == Ok::<JsonView, Seq<char>>(j@),
            Err(e) => json_document(text@) == Err::<JsonView, Seq<char>>(e@),
        },
{
    serde_json::from_str::<serde_json::Value>(text).map(json_of_value).map_err(|e| e.to_string())
}

// ─── Building ─────────────────────────────────────────────────────────────

impl JsonView {
    /// The object with the entry of that name set. A value that is no object
    /// stays as it is.
    pub open spec fn with_field(self, name: Seq<char>, value: JsonView) -> JsonView {
        match self {
            JsonView::Object(entries) => match entry_index(entries, name) {
                Some(i) => JsonView::Object(entries.update(i, EntryView { name, value })),
                None => JsonView::Object(entries.push(EntryView { name, value })),
            },
            _ => self,
        }
    }
}

/// The object with the entry of that name set.
pub fn set_field(j: Json, name: &str, value: Json) -> (r: Json)
    ensures
        r@ == j@.with_field(name@, value@),
{
    broadcast use lemma_object_view;

    match j {
        Json::Object(mut entries) => {
            let ghost before = models(entries@);
            let ghost v = value@;
            let entry = Entry { name: name.to_owned(), value };
            match find_entry(&entries, name) {
                Some(i) => {
                    entries.set(i, entry);
                    proof {
                        assert(models(entries@) =~= before.update(
                            i as int,
                            EntryView { name: name@, value: v },
                        ));
                    }
                },
                None => {
                    entries.push(entry);
                    proof {
                        assert(models(entries@) =~= before.push(
                            EntryView { name: name@, value: v },
                        ));
                    }
                },
            }
            Json::Object(entries)
        },
        other => other,
    }
}

/// A named text.
pub open spec fn text_entry(name: Seq<char>, value: Seq<char>) -> EntryView {
    EntryView { name, value: JsonView::Text(value) }
}

/// The model of an optional text as a value.
pub open spec fn text_or_null(o: Option<Seq<char>>) -> JsonView {
    match o {
        Some(t) => JsonView::Text(t),
        None => JsonView::Null,
    }
}

/// A named text.
pub fn text_field(name: &str, value: &str) -> (e: Entry)
    ensures
        e@ == text_entry(name@, value@),
{
    Entry { name: name.to_owned(), value: Json::Text(value.to_owned()) }
}

/// An optional text as a value.
pub fn text_value(o: &Option<String>) -> (j: Json)
    ensures
        j@ == text_or_null(crate::schematic::text_option(*o)),
{
    match o {
        Some(t) => Json::Text(t.clone()),
        None => Json::Null,
    }
}

/// Setting an entry makes it the one that is read, and leaves the others.
pub proof fn law_set_field_is_read_back(j: JsonView, name: Seq<char>, value: JsonView, other: Seq<char>)
    requires
        j is Object,
    ensures
        j.with_field(name, value).field(name) == Some(value),
        other != name ==> j.with_field(name, value).field(other) == j.field(other),
{
    let entries = j->Object_0;
    let after = j.with_field(name, value)->Object_0;
    lemma_entry_index(entries, name);
    lemma_entry_index(entries, other);
    lemma_entry_index(after, name);
    lemma_entry_index(after, other);
    match entry_index(entries, name) {
        Some(i) => {
            assert(after[i].name == name);
        },
        None => {
            assert(after[entries.len() as int].name == name);
        },
    }
    if other != name {
        match entry_index(entries, other) {
            Some(k) => {
                assert(after[k] == entries[k]);
                let m = entry_index(after, other)->0;
                assert(m <= k);
                if m < k {
                    assert(entries[m].name != other);
                }
            },
            None => {
                if entry_index(after, other) is Some {
                    let m = entry_index(after, other)->0;
                    assert(after[m].name == other);
                    assert(entries[m].name != other);
                }
            },
        }
    }
    let m = entry_index(after, name)->0;
    match entry_index(entries, name) {
        Some(i) => {
            if m < i {
                assert(entries[m].name != name);
            }
        },
        None => {
            if m < entries.len() {
                assert(entries[m].name != name);
            }
        },
    }
}

} // verus!
