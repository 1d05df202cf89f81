//! Notes cross the boundary as a code plus interpolation values, so the prose
//! stays translatable at the edge instead of shipping English from here.
//!
//! A front end renders these as `t("serial.checksumNote." + code, values)`.

use crate::text::owned;
use vstd::prelude::*;

verus! {

/// The JSON object type of serde_json, carried as it is.
#[verifier::external_type_specification]
#[verifier::external_body]
#[verifier::reject_recursive_types(K)]
#[verifier::reject_recursive_types(V)]
pub struct ExJsonMap<K, V>(serde_json::Map<K, V>);

/// The JSON value type of serde_json, carried as it is.
#[verifier::external_type_specification]
#[verifier::external_body]
pub struct ExJsonValue(serde_json::Value);

/// What a note interpolates: a number or a piece of text.
pub enum NoteValue {
    Number(int),
    Text(Seq<char>),
}

/// What a JSON object holds, where its values are numbers and text.
pub uninterp spec fn json_entries(values: serde_json::Map<String, serde_json::Value>) -> Map<
    Seq<char>,
    NoteValue,
>;

/// An object without entries.
pub open spec fn no_entries() -> Map<Seq<char>, NoteValue> {
    Map::empty()
}

/// `serde_json::Map::new`: an object without entries.
#[verifier::external_body]
fn json_object() -> (r: serde_json::Map<String, serde_json::Value>)
    ensures
        json_entries(r) == no_entries(),
{
    serde_json::Map::new()
}

/// `serde_json::Map::insert` of an unsigned number: the entry for `key` becomes
/// that number, the other entries stay.
#[verifier::external_body]
fn json_insert_count(
    values: &mut serde_json::Map<String, serde_json::Value>,
    key: String,
    count: usize,
)
    ensures
        json_entries(*final(values)) == json_entries(*old(values)).insert(
            key@,
            NoteValue::Number(count as int),
        ),
{
    values.insert(key, serde_json::Value::from(count));
}

/// `serde_json::Map::insert` of a signed number: the entry for `key` becomes
/// that number, the other entries stay.
#[verifier::external_body]
fn json_insert_offset(
    values: &mut serde_json::Map<String, serde_json::Value>,
    key: String,
    offset: i32,
)
    ensures
        json_entries(*final(values)) == json_entries(*old(values)).insert(
            key@,
            NoteValue::Number(offset as int),
        ),
{
    values.insert(key, serde_json::Value::from(offset));
}

/// `serde_json::Map::insert` of a string: the entry for `key` becomes that text,
/// the other entries stay.
#[verifier::external_body]
fn json_insert_text(
    values: &mut serde_json::Map<String, serde_json::Value>,
    key: String,
    text: String,
)
    ensures
        json_entries(*final(values)) == json_entries(*old(values)).insert(
            key@,
            NoteValue::Text(text@),
        ),
{
    values.insert(key, serde_json::Value::from(text));
}

/// `Clone` of a serde_json object: the copy holds the same entries.
pub assume_specification[ <serde_json::Map<String, serde_json::Value> as Clone>::clone ](
    values: &serde_json::Map<String, serde_json::Value>,
) -> (r: serde_json::Map<String, serde_json::Value>)
    ensures
        json_entries(r) == json_entries(*values),
;

/// A translatable note: the frontend renders `t(code, values)`.
#[derive(Debug, PartialEq, Eq)]
pub struct ChecksumNote {
    pub code: String,
    pub values: serde_json::Map<String, serde_json::Value>,
}

/// What a note says, as a mathematical value.
#[verifier::ext_equal]
pub struct NoteView {
    pub code: Seq<char>,
    pub values: Map<Seq<char>, NoteValue>,
}

impl View for ChecksumNote {
    type V = NoteView;

    open spec fn view(&self) -> NoteView {
        NoteView { code: self.code@, values: json_entries(self.values) }
    }
}

impl Clone for ChecksumNote {
    fn clone(&self) -> (r: Self)
        ensures
            r@ == self@,
    {
        ChecksumNote { code: self.code.clone(), values: self.values.clone() }
    }
}

/// A note with a code and nothing to interpolate.
pub open spec fn bare_note(code: Seq<char>) -> NoteView {
    NoteView { code, values: no_entries() }
}

impl NoteView {
    /// The note with one more number to interpolate.
    pub open spec fn number(self, key: Seq<char>, value: int) -> NoteView {
        NoteView { values: self.values.insert(key, NoteValue::Number(value)), ..self }
    }

    /// The note with one more piece of text to interpolate.
    pub open spec fn text(self, key: Seq<char>, value: Seq<char>) -> NoteView {
        NoteView { values: self.values.insert(key, NoteValue::Text(value)), ..self }
    }
}

/// What each of a list of notes says.
pub open spec fn note_views(notes: Seq<ChecksumNote>) -> Seq<NoteView> {
    notes.map_values(|n: ChecksumNote| n@)
}

impl ChecksumNote {
    /// A note that interpolates nothing yet.
    pub fn new(code: &str) -> (r: Self)
        ensures
            r@ == bare_note(code@),
    {
        ChecksumNote { code: owned(code), values: json_object() }
    }

    /// The note with a count to interpolate.
    pub fn with_count(self, key: &str, count: usize) -> (r: Self)
        ensures
            r@ == self@.number(key@, count as int),
    {
        let mut values = self.values;
        json_insert_count(&mut values, owned(key), count);
        ChecksumNote { code: self.code, values }
    }

    /// The note with a byte offset to interpolate.
    pub fn with_offset(self, key: &str, offset: i32) -> (r: Self)
        ensures
            r@ == self@.number(key@, offset as int),
    {
        let mut values = self.values;
        json_insert_offset(&mut values, owned(key), offset);
        ChecksumNote { code: self.code, values }
    }

    /// The note with a piece of text to interpolate.
    pub fn with_text(self, key: &str, text: String) -> (r: Self)
        ensures
            r@ == self@.text(key@, text@),
    {
        let mut values = self.values;
        json_insert_text(&mut values, owned(key), text);
        ChecksumNote { code: self.code, values }
    }
}

/// Add a note at the end of a list.
pub(crate) fn add_note(notes: &mut Vec<ChecksumNote>, note: ChecksumNote)
    ensures
        note_views(final(notes)@) == note_views(old(notes)@).push(note@),
{
    notes.push(note);
    assert(note_views(notes@) == note_views(old(notes)@).push(note@));
}

} // verus!
