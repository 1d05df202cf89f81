//! Editable TOML documents: `toml_edit`'s, which keep comments and formatting,
//! seen through the values they hold.
//!
//! What an item of a document holds, and how it is written, is named by
//! [`item_part`]. Each function here that changes an item makes one change of
//! `toml_edit`'s and says what it does to that.

use crate::text::str_eq;
use std::cmp::Ordering;
use toml_edit::{Array, ArrayOfTables, DocumentMut, InlineTable, Item, Table, Value};
use vstd::prelude::*;

verus! {

/// How a key, a value or the header of a table is written.
#[verifier::ext_equal]
pub struct Style {
    /// The white space and comments before it, where they are set.
    pub prefix: Option<Seq<char>>,
    /// The white space and comments behind it, where they are set.
    pub suffix: Option<Seq<char>>,
    /// Its own text, where that is kept.
    pub written: Option<Seq<char>>,
    /// The place of a table's header among those of the document, where it has one.
    pub position: Option<nat>,
    /// What differs from the usual within it: white space between brackets or
    /// around dots, a comma behind the last element.
    pub inner: Seq<Option<Seq<char>>>,
}

/// The style of what is new: nothing is set.
pub open spec fn fresh() -> Style {
    Style { prefix: None, suffix: None, written: None, position: None, inner: Seq::empty() }
}

/// What an item of a document holds, and how it is written.
#[verifier::ext_equal]
pub enum Part {
    Text(Seq<char>, Style),
    /// An integer, and whether it is written in hexadecimal.
    Integer { value: i64, hex: bool, style: Style },
    /// A float, by its bit pattern.
    Float(u64, Style),
    Boolean(bool, Style),
    /// A date or time, by its text.
    Datetime(Seq<char>, Style),
    Array(Seq<Part>, Style),
    /// A table written in line, with the styles of its keys.
    Inline { entries: Seq<(Seq<char>, Part)>, marks: Map<Seq<char>, Style>, style: Style },
    /// A table with a header of its own, with the styles of its keys. An implicit one
    /// shows its header only where it holds values; a dotted one is written with
    /// dotted keys instead.
    Table {
        implicit: bool,
        dotted: bool,
        entries: Seq<(Seq<char>, Part)>,
        marks: Map<Seq<char>, Style>,
        style: Style,
    },
    /// An array of tables, each with a header of its own.
    Tables(Seq<Part>),
    /// An empty slot, which a parse never makes.
    Slot,
}

/// The place of a key among entries, from some place on.
pub open spec fn key_place(entries: Seq<(Seq<char>, Part)>, key: Seq<char>, from: int) -> Option<int>
    decreases entries.len() - from,
{
    if from < 0 || from >= entries.len() {
        None
    } else if entries[from].0 == key {
        Some(from)
    } else {
        key_place(entries, key, from + 1)
    }
}

/// Entries with one set: in its place where the key is there, else at the end.
pub open spec fn with_entry(entries: Seq<(Seq<char>, Part)>, key: Seq<char>, value: Part) -> Seq<
    (Seq<char>, Part),
> {
    match key_place(entries, key, 0) {
        Some(i) => entries.update(i, (key, value)),
        None => entries.push((key, value)),
    }
}

/// Entries without one, the others in their order.
pub open spec fn without_entry(entries: Seq<(Seq<char>, Part)>, key: Seq<char>) -> Seq<
    (Seq<char>, Part),
> {
    match key_place(entries, key, 0) {
        Some(i) => entries.remove(i),
        None => entries,
    }
}

/// The keys of entries, in their order.
pub open spec fn keys_of(entries: Seq<(Seq<char>, Part)>) -> Seq<Seq<char>> {
    entries.map_values(|e: (Seq<char>, Part)| e.0)
}

impl Part {
    /// The entries of a table, in line or not.
    pub open spec fn entries(self) -> Seq<(Seq<char>, Part)> {
        match self {
            Part::Table { entries, .. } => entries,
            Part::Inline { entries, .. } => entries,
            _ => Seq::empty(),
        }
    }

    /// The styles of a table's keys.
    pub open spec fn marks(self) -> Map<Seq<char>, Style> {
        match self {
            Part::Table { marks, .. } => marks,
            Part::Inline { marks, .. } => marks,
            _ => Map::empty(),
        }
    }

    /// The style of one of a table's keys.
    pub open spec fn mark(self, key: Seq<char>) -> Option<Style> {
        if self.marks().contains_key(key) {
            Some(self.marks()[key])
        } else {
            None
        }
    }

    /// A table with other entries.
    pub open spec fn with(self, entries: Seq<(Seq<char>, Part)>) -> Part {
        match self {
            Part::Table { implicit, dotted, marks, style, .. } => Part::Table {
                implicit,
                dotted,
                entries,
                marks,
                style,
            },
            Part::Inline { marks, style, .. } => Part::Inline { entries, marks, style },
            _ => self,
        }
    }

    /// A table with other styles of its keys.
    pub open spec fn with_marks(self, marks: Map<Seq<char>, Style>) -> Part {
        match self {
            Part::Table { implicit, dotted, entries, style, .. } => Part::Table {
                implicit,
                dotted,
                entries,
                marks,
                style,
            },
            Part::Inline { entries, style, .. } => Part::Inline { entries, marks, style },
            _ => self,
        }
    }

    /// How a value or the header of a table is written.
    pub open spec fn style(self) -> Style {
        match self {
            Part::Text(_, style) => style,
            Part::Integer { style, .. } => style,
            Part::Float(_, style) => style,
            Part::Boolean(_, style) => style,
            Part::Datetime(_, style) => style,
            Part::Array(_, style) => style,
            Part::Inline { style, .. } => style,
            Part::Table { style, .. } => style,
            Part::Tables(_) | Part::Slot => fresh(),
        }
    }

    /// A value or a table, written in another style.
    pub open spec fn with_style(self, style: Style) -> Part {
        match self {
            Part::Text(s, _) => Part::Text(s, style),
            Part::Integer { value, hex, .. } => Part::Integer { value, hex, style },
            Part::Float(bits, _) => Part::Float(bits, style),
            Part::Boolean(b, _) => Part::Boolean(b, style),
            Part::Datetime(s, _) => Part::Datetime(s, style),
            Part::Array(items, _) => Part::Array(items, style),
            Part::Inline { entries, marks, .. } => Part::Inline { entries, marks, style },
            Part::Table { implicit, dotted, entries, marks, .. } => Part::Table {
                implicit,
                dotted,
                entries,
                marks,
                style,
            },
            Part::Tables(_) | Part::Slot => self,
        }
    }

    /// A value or a table with other white space or comments before it.
    pub open spec fn with_prefix(self, prefix: Seq<char>) -> Part {
        self.with_style(Style { prefix: Some(prefix), ..self.style() })
    }

    /// A value between white space or comments.
    pub open spec fn between(self, prefix: Seq<char>, suffix: Seq<char>) -> Part {
        self.with_style(Style { prefix: Some(prefix), suffix: Some(suffix), ..self.style() })
    }

    /// What a table holds under a key.
    pub open spec fn get(self, key: Seq<char>) -> Option<Part> {
        match key_place(self.entries(), key, 0) {
            Some(i) => Some(self.entries()[i].1),
            None => None,
        }
    }

    /// A table with one entry set, its key written as it was.
    pub open spec fn set(self, key: Seq<char>, value: Part) -> Part {
        self.with(with_entry(self.entries(), key, value))
    }

    /// A table with one entry set, its key written anew.
    pub open spec fn put(self, key: Seq<char>, value: Part) -> Part {
        self.set(key, value).with_marks(self.marks().insert(key, fresh()))
    }

    /// A table with one entry set: in place of one that is there, or as a new one.
    pub open spec fn set_or_put(self, key: Seq<char>, value: Part) -> Part {
        if self.get(key) is Some {
            self.set(key, value)
        } else {
            self.put(key, value)
        }
    }

    /// A table with a table under a key: in place of a table that is there, or as a
    /// new entry.
    pub open spec fn set_table(self, key: Seq<char>, value: Part) -> Part {
        if self.get(key) matches Some(c) && c is Table {
            self.set(key, value)
        } else {
            self.put(key, value)
        }
    }

    /// A table without one entry.
    pub open spec fn unset(self, key: Seq<char>) -> Part {
        self.with(without_entry(self.entries(), key)).with_marks(self.marks().remove(key))
    }

    /// The elements of an array, of values or of tables.
    pub open spec fn elements(self) -> Seq<Part> {
        match self {
            Part::Array(items, _) => items,
            Part::Tables(items) => items,
            _ => Seq::empty(),
        }
    }

    /// Whether a part is a value, rather than tables with headers.
    pub open spec fn is_value(self) -> bool {
        !(self is Table) && !(self is Tables) && !(self is Slot)
    }

    /// Whether a part is as a parse makes it, at any depth: it holds no empty slot, no
    /// table holds a key twice, tables in line and arrays hold values, and arrays of
    /// tables hold tables.
    #[verifier::opaque]
    pub open spec fn is_sound(self) -> bool
        decreases self,
    {
        match self {
            Part::Table { entries, .. } => keys_of(entries).no_duplicates() && forall|i: int|
                0 <= i < entries.len() ==> (#[trigger] entries[i]).1.is_sound(),
            Part::Inline { entries, .. } => keys_of(entries).no_duplicates() && forall|i: int|
                0 <= i < entries.len() ==> (#[trigger] entries[i]).1.is_sound()
                    && entries[i].1.is_value(),
            Part::Array(items, _) => forall|i: int|
                0 <= i < items.len() ==> (#[trigger] items[i]).is_sound() && items[i].is_value(),
            Part::Tables(items) => forall|i: int|
                0 <= i < items.len() ==> (#[trigger] items[i]).is_sound() && items[i] is Table,
            Part::Slot => false,
            _ => true,
        }
    }

    /// Whether a part is a table, in line or not.
    pub open spec fn is_table_like(self) -> bool {
        self is Table || self is Inline
    }
}

/// A new table without entries.
pub open spec fn empty_table(implicit: bool) -> Part {
    Part::Table {
        implicit,
        dotted: false,
        entries: Seq::empty(),
        marks: Map::empty(),
        style: fresh(),
    }
}

/// A new table in line without entries.
pub open spec fn empty_inline() -> Part {
    Part::Inline { entries: Seq::empty(), marks: Map::empty(), style: fresh() }
}

/// A table without the entries of some keys.
pub open spec fn emptied(t: Part, keys: Seq<Seq<char>>) -> Part
    decreases keys.len(),
{
    if keys.len() == 0 {
        t
    } else {
        emptied(t, keys.drop_last()).unset(keys.last())
    }
}

/// What a look at an item shows: a scalar, how many elements or entries there
/// are, or the keys of a table.
#[derive(Debug)]
pub enum Look {
    Text(String),
    Integer(i64),
    Float(u64),
    Boolean(bool),
    Datetime,
    Array(usize),
    Inline(usize),
    Table { dotted: bool, keys: Vec<String> },
    Tables(usize),
}

impl Look {
    /// Whether this is what a look at a part shows.
    pub open spec fn shows(self, part: Part) -> bool {
        match self {
            Look::Text(s) => part matches Part::Text(text, _) && text == s@,
            Look::Integer(i) => part matches Part::Integer { value, .. } && value == i,
            Look::Float(bits) => part matches Part::Float(held, _) && held == bits,
            Look::Boolean(b) => part matches Part::Boolean(held, _) && held == b,
            Look::Datetime => part is Datetime,
            Look::Array(n) => part is Array && part.elements().len() == n,
            Look::Inline(n) => part is Inline && part.entries().len() == n,
            Look::Table { dotted, keys } => {
                &&& part matches Part::Table { dotted: d, .. } && d == dotted
                &&& crate::text::texts(keys@) == keys_of(part.entries())
                &&& crate::text::texts(keys@).no_duplicates()
            },
            Look::Tables(n) => {
                &&& part is Tables && part.elements().len() == n
                &&& forall|i: int| 0 <= i < n ==> (#[trigger] part.elements()[i]) is Table
            },
        }
    }
}

// ---------------------------------------------------------------------------
// Outside types and their names
// ---------------------------------------------------------------------------

/// `toml_edit`'s editable document.
#[verifier::external_type_specification]
#[verifier::external_body]
pub struct ExDocument(DocumentMut);

/// `toml_edit`'s item of an editable document.
#[verifier::external_type_specification]
#[verifier::external_body]
pub struct ExItem(Item);

/// What an item holds, and how it is written: its decoration, the text that is kept
/// of a value, the position of a table, and the same of all in it, `toml_edit`'s empty
/// slots `Item::None` among them.
pub uninterp spec fn item_part(item: Item) -> Part;

/// What the root of a document holds, and how it is written.
pub uninterp spec fn document_part(doc: DocumentMut) -> Part;

/// The white space and comments at the end of a document.
pub uninterp spec fn document_tail(doc: DocumentMut) -> Seq<char>;

/// The text of a document with a root and an end.
pub uninterp spec fn document_text(root: Part, tail: Seq<char>) -> Seq<char>;

/// What `toml_edit` makes of a text: the root of the document and its end, or the
/// text of the error.
pub uninterp spec fn editable_document(text: Seq<char>) -> Result<(Part, Seq<char>), Seq<char>>;

/// How `toml_edit` keeps an integer that it read in hexadecimal.
pub uninterp spec fn hex_style(n: i64) -> Style;

/// The bit pattern of the float a text reads as; `None` where it reads as none.
pub uninterp spec fn parsed_float(text: Seq<char>) -> Option<u64>;

/// A parse of an editable document, by its root and its end, or the text of the
/// error.
pub open spec fn root_of(r: Result<DocumentMut, String>) -> Result<(Part, Seq<char>), Seq<char>> {
    match r {
        Ok(doc) => Ok((document_part(doc), document_tail(doc))),
        Err(message) => Err(message@),
    }
}

/// What an item that may be absent holds.
pub open spec fn opt_part(item: Option<&Item>) -> Option<Part> {
    match item {
        Some(i) => Some(item_part(*i)),
        None => None,
    }
}

/// What each of a list of items holds.
pub open spec fn parts(items: Seq<Item>) -> Seq<Part> {
    items.map_values(|i: Item| item_part(i))
}

// ---------------------------------------------------------------------------
// Documents
// ---------------------------------------------------------------------------

/// `str::parse` into `toml_edit`'s `DocumentMut`, with the text of its error. The
/// root of a document is a table. No table of it holds a key twice, nothing in it is an
/// empty slot, what is written in line holds values, and arrays of tables hold tables.
#[verifier::external_body]
pub(crate) fn parse_editable(text: &str) -> (r: Result<DocumentMut, String>)
    ensures
        root_of(r) == editable_document(text@),
        r matches Ok(doc) ==> document_part(doc) is Table && document_part(doc).is_sound(),
{
    text.parse::<DocumentMut>().map_err(|e| e.to_string())
}

/// The `Display` text of `toml_edit`'s `DocumentMut`: a function of what it holds and
/// how that is written. It asks for a root that is a table, and for values where values
/// are written.
#[verifier::external_body]
pub(crate) fn write_document(doc: &DocumentMut) -> (r: String)
    requires
        document_part(*doc) is Table,
        document_part(*doc).is_sound(),
    ensures
        r@ == document_text(document_part(*doc), document_tail(*doc)),
{
    doc.to_string()
}

/// `toml_edit`'s `DocumentMut::as_item`: the root.
#[verifier::external_body]
pub(crate) fn root(doc: &DocumentMut) -> (r: &Item)
    ensures
        item_part(*r) == document_part(*doc),
{
    doc.as_item()
}

/// `toml_edit`'s `DocumentMut::as_item_mut`: the root, for changing it.
#[verifier::external_body]
pub(crate) fn root_mut(doc: &mut DocumentMut) -> (r: &mut Item)
    ensures
        item_part(*r) == document_part(*old(doc)),
        document_part(*final(doc)) == item_part(*final(r)),
        document_tail(*final(doc)) == document_tail(*old(doc)),
{
    doc.as_item_mut()
}

// ---------------------------------------------------------------------------
// Reading an item
// ---------------------------------------------------------------------------

/// The scalar that `toml_edit`'s `Item` is, if it is one.
#[verifier::external_body]
fn look_scalar(item: &Item) -> (r: Option<Look>)
    requires
        item_part(*item).is_sound(),
    ensures
        match r {
            Some(shown) => shown.shows(item_part(*item)),
            None => item_part(*item) is Array || !item_part(*item).is_value() || item_part(*item)
                is Inline,
        },
{
    match item.as_value()? {
        Value::String(s) => Some(Look::Text(s.value().clone())),
        Value::Integer(i) => Some(Look::Integer(*i.value())),
        Value::Float(f) => Some(Look::Float(f.value().to_bits())),
        Value::Boolean(b) => Some(Look::Boolean(*b.value())),
        Value::Datetime(_) => Some(Look::Datetime),
        Value::Array(_) | Value::InlineTable(_) => None,
    }
}

/// The array or table that `toml_edit`'s `Item` is, where it holds no empty slots. The
/// keys of a table differ from each other, and the elements of an array of tables are
/// tables.
#[verifier::external_body]
fn look_compound(item: &Item) -> (r: Look)
    requires
        item_part(*item).is_sound(),
        item_part(*item) is Array || !item_part(*item).is_value() || item_part(*item) is Inline,
    ensures
        r.shows(item_part(*item)),
{
    match item {
        Item::Value(Value::Array(a)) => Look::Array(a.len()),
        Item::Value(Value::InlineTable(t)) => Look::Inline(t.len()),
        Item::Table(t) => Look::Table {
            dotted: t.is_dotted(),
            keys: t.iter().map(|e| e.0.to_string()).collect(),
        },
        Item::ArrayOfTables(a) => Look::Tables(a.len()),
        Item::Value(_) | Item::None => Look::Datetime,
    }
}

/// What an item is, one level deep.
pub(crate) fn look(item: &Item) -> (r: Look)
    requires
        item_part(*item).is_sound(),
    ensures
        r.shows(item_part(*item)),
{
    match look_scalar(item) {
        Some(shown) => shown,
        None => look_compound(item),
    }
}

/// `toml_edit`'s `Item::get` by a key: what a table, in line or not, holds under
/// it.
#[verifier::external_body]
pub(crate) fn child<'a>(item: &'a Item, key: &str) -> (r: Option<&'a Item>)
    requires
        item_part(*item).is_sound(),
    ensures
        opt_part(r) == item_part(*item).get(key@),
        r matches Some(held) ==> item_part(*held).is_sound(),
{
    item.get(key)
}

/// `toml_edit`'s `Item::get` by a place: an element of an array, of values or of
/// tables.
#[verifier::external_body]
pub(crate) fn element<'a>(item: &'a Item, place: usize) -> (r: &'a Item)
    requires
        item_part(*item).is_sound(),
        place < item_part(*item).elements().len(),
    ensures
        item_part(*r) == item_part(*item).elements()[place as int],
        item_part(*r).is_sound(),
{
    item.get(place).unwrap()
}

/// `Clone` on `toml_edit`'s `Item`.
#[verifier::external_body]
pub(crate) fn copy_item(item: &Item) -> (r: Item)
    ensures
        item_part(r) == item_part(*item),
{
    item.clone()
}

// ---------------------------------------------------------------------------
// Changing an item
// ---------------------------------------------------------------------------

/// `get_mut` of `toml_edit`'s `TableLike`: what a table, in line or not, holds
/// under a key, for changing it in its place. The key, and the other entries with
/// theirs, stay as they are written. A table in line holds values only; what becomes
/// of it is claimed where the entry is left one.
#[verifier::external_body]
pub(crate) fn child_mut<'a>(item: &'a mut Item, key: &str) -> (r: Option<&'a mut Item>)
    requires
        item_part(*old(item)).is_sound(),
    ensures
        r is Some ==> item_part(*r.unwrap()).is_sound(),
        r is Some && item_part(*final(r.unwrap())).is_sound() && (item_part(*old(item)) is Inline
            ==> item_part(*final(r.unwrap())).is_value()) ==> item_part(*final(item)).is_sound(),
        r is Some <==> item_part(*old(item)).get(key@) is Some,
        r is Some ==> item_part(*r.unwrap()) == item_part(*old(item)).get(key@)->Some_0,
        r is Some && item_part(*old(item)) is Inline ==> item_part(*r.unwrap()).is_value(),
        r is Some && (item_part(*old(item)) is Inline ==> item_part(
            *final(r.unwrap()),
        ).is_value()) ==> item_part(*final(item)) == item_part(*old(item)).set(
            key@,
            item_part(*final(r.unwrap())),
        ),
        r is None ==> item_part(*final(item)) == item_part(*old(item)),
{
    item.as_table_like_mut().and_then(|t| t.get_mut(key))
}

/// `insert` of `toml_edit`'s `TableLike`: an entry is replaced in its place, or
/// added at the end, and its key loses its decoration. The other entries and their
/// keys stay as they are written. A table in line takes values only.
#[verifier::external_body]
pub(crate) fn put(item: &mut Item, key: &str, value: Item)
    requires
        item_part(*old(item)).is_table_like(),
        item_part(*old(item)).is_sound(),
        item_part(value).is_sound(),
        item_part(*old(item)) is Inline ==> item_part(value).is_value(),
    ensures
        item_part(*final(item)).is_sound(),
        item_part(*final(item)) == item_part(*old(item)).put(key@, item_part(value)),
{
    item.as_table_like_mut().unwrap().insert(key, value);
}

/// `remove` of `toml_edit`'s `TableLike`: takes an entry out with its key, the others
/// keeping their order and the way they are written.
#[verifier::external_body]
pub(crate) fn take(item: &mut Item, key: &str) -> (r: Option<Item>)
    requires
        item_part(*old(item)).is_table_like(),
        item_part(*old(item)).is_sound(),
    ensures
        item_part(*final(item)) == item_part(*old(item)).unset(key@),
        item_part(*final(item)).is_sound(),
        match r {
            Some(taken) => item_part(*old(item)).get(key@) == Some(item_part(taken)) && item_part(
                taken,
            ).is_sound(),
            None => item_part(*old(item)).get(key@) is None,
        },
{
    item.as_table_like_mut().unwrap().remove(key)
}

/// `toml_edit`'s `Array::insert`: the value is put between a space, where the array
/// is not empty, and nothing; the other values stay as they are written.
#[verifier::external_body]
pub(crate) fn insert_value(item: &mut Item, place: usize, value: Item)
    requires
        item_part(*old(item)) is Array,
        item_part(*old(item)).is_sound(),
        place <= item_part(*old(item)).elements().len(),
        item_part(value).is_value(),
        item_part(value).is_sound(),
    ensures
        item_part(*final(item)).is_sound(),
        item_part(*final(item)) == Part::Array(
            item_part(*old(item)).elements().insert(
                place as int,
                item_part(value).between(
                    if item_part(*old(item)).elements().len() > 0 {
                        seq![' ']
                    } else {
                        Seq::empty()
                    },
                    Seq::empty(),
                ),
            ),
            item_part(*old(item)).style(),
        ),
{
    item.as_array_mut().unwrap().insert(place, value.into_value().unwrap());
}

/// `toml_edit`'s `Array::push_formatted`.
#[verifier::external_body]
pub(crate) fn push_value(item: &mut Item, value: Item)
    requires
        item_part(*old(item)) is Array,
        item_part(*old(item)).is_sound(),
        item_part(value).is_value(),
        item_part(value).is_sound(),
    ensures
        item_part(*final(item)).is_sound(),
        item_part(*final(item)) == Part::Array(
            item_part(*old(item)).elements().push(item_part(value)),
            item_part(*old(item)).style(),
        ),
{
    item.as_array_mut().unwrap().push_formatted(value.into_value().unwrap());
}

/// `toml_edit`'s `Array::remove`.
#[verifier::external_body]
pub(crate) fn remove_value(item: &mut Item, place: usize)
    requires
        item_part(*old(item)) is Array,
        item_part(*old(item)).is_sound(),
        place < item_part(*old(item)).elements().len(),
    ensures
        item_part(*final(item)).is_sound(),
        item_part(*final(item)) == Part::Array(
            item_part(*old(item)).elements().remove(place as int),
            item_part(*old(item)).style(),
        ),
{
    item.as_array_mut().unwrap().remove(place);
}

/// `toml_edit`'s `ArrayOfTables::remove`.
#[verifier::external_body]
pub(crate) fn remove_table(item: &mut Item, place: usize)
    requires
        item_part(*old(item)) is Tables,
        item_part(*old(item)).is_sound(),
        place < item_part(*old(item)).elements().len(),
    ensures
        item_part(*final(item)).is_sound(),
        item_part(*final(item)) == Part::Tables(
            item_part(*old(item)).elements().remove(place as int),
        ),
{
    item.as_array_of_tables_mut().unwrap().remove(place);
}

/// `toml_edit`'s `ArrayOfTables::clear`.
#[verifier::external_body]
pub(crate) fn clear_tables(item: &mut Item)
    requires
        item_part(*old(item)) is Tables,
    ensures
        item_part(*final(item)) == Part::Tables(Seq::empty()),
        item_part(*final(item)).is_sound(),
{
    item.as_array_of_tables_mut().unwrap().clear();
}

/// `toml_edit`'s `ArrayOfTables::push`.
#[verifier::external_body]
pub(crate) fn push_table(item: &mut Item, table: Item)
    requires
        item_part(*old(item)) is Tables,
        item_part(*old(item)).is_sound(),
        item_part(table) is Table,
        item_part(table).is_sound(),
    ensures
        item_part(*final(item)).is_sound(),
        item_part(*final(item)) == Part::Tables(
            item_part(*old(item)).elements().push(item_part(table)),
        ),
{
    item.as_array_of_tables_mut().unwrap().push(table.into_table().unwrap());
}

/// `toml_edit`'s `Decor::set_prefix` on the decoration of a table: the text before
/// its header. What the table holds stays.
#[verifier::external_body]
pub(crate) fn set_prefix(item: &mut Item, prefix: &str)
    requires
        item_part(*old(item)) is Table,
        item_part(*old(item)).is_sound(),
    ensures
        item_part(*final(item)) == item_part(*old(item)).with_prefix(prefix@),
        item_part(*final(item)).is_sound(),
{
    item.as_table_mut().unwrap().decor_mut().set_prefix(prefix);
}

// ---------------------------------------------------------------------------
// New items
// ---------------------------------------------------------------------------

/// `toml_edit`'s `Table::new` and `Table::set_implicit`.
#[verifier::external_body]
pub(crate) fn new_table(implicit: bool) -> (r: Item)
    ensures
        item_part(r) == empty_table(implicit),
        item_part(r).is_sound(),
{
    let mut table = Table::new();
    table.set_implicit(implicit);
    Item::Table(table)
}

/// `toml_edit`'s `InlineTable::new`.
#[verifier::external_body]
pub(crate) fn new_inline() -> (r: Item)
    ensures
        item_part(r) == empty_inline(),
        item_part(r).is_sound(),
{
    Item::Value(Value::InlineTable(InlineTable::new()))
}

/// `toml_edit`'s `Array::new`.
#[verifier::external_body]
pub(crate) fn new_array() -> (r: Item)
    ensures
        item_part(r) == Part::Array(Seq::empty(), fresh()),
        item_part(r).is_sound(),
{
    Item::Value(Value::Array(Array::new()))
}

/// `toml_edit`'s `ArrayOfTables::new`.
#[verifier::external_body]
pub(crate) fn new_tables() -> (r: Item)
    ensures
        item_part(r) == Part::Tables(Seq::empty()),
        item_part(r).is_sound(),
{
    Item::ArrayOfTables(ArrayOfTables::new())
}

/// `toml_edit::value` of a text.
#[verifier::external_body]
pub(crate) fn text_item(text: &str) -> (r: Item)
    ensures
        item_part(r) == Part::Text(text@, fresh()),
        item_part(r).is_sound(),
{
    toml_edit::value(text)
}

/// `toml_edit::value` of an integer, which it writes in decimal.
#[verifier::external_body]
pub(crate) fn integer_item(n: i64) -> (r: Item)
    ensures
        item_part(r) == (Part::Integer { value: n, hex: false, style: fresh() }),
        item_part(r).is_sound(),
{
    toml_edit::value(n)
}

/// The integer in a document of `toml_edit`'s with nothing but that integer,
/// written in hexadecimal: a parsed integer keeps the way it was written.
#[verifier::external_body]
pub(crate) fn hex_item(n: i64) -> (r: Item)
    requires
        n >= 0,
    ensures
        item_part(r) == (Part::Integer { value: n, hex: true, style: hex_style(n) }),
        item_part(r).is_sound(),
{
    let doc = format!("v = 0x{n:X}").parse::<DocumentMut>().unwrap();
    doc.as_table().get("v").unwrap().clone()
}

/// `toml_edit::value` of a truth value.
#[verifier::external_body]
pub(crate) fn boolean_item(b: bool) -> (r: Item)
    ensures
        item_part(r) == Part::Boolean(b, fresh()),
        item_part(r).is_sound(),
{
    toml_edit::value(b)
}

/// `toml_edit::value` of the float a text reads as with `str::parse`.
#[verifier::external_body]
pub(crate) fn float_item(text: &str) -> (r: Option<Item>)
    ensures
        match r {
            Some(item) => parsed_float(text@) is Some && item_part(item) == Part::Float(
                parsed_float(text@)->Some_0,
                fresh(),
            ) && item_part(item).is_sound(),
            None => parsed_float(text@) is None,
        },
{
    match text.parse().map(toml::Value::Float) {
        Ok(toml::Value::Float(f)) => Some(toml_edit::value(f)),
        _ => None,
    }
}

/// `str::parse` into a float, by its bit pattern.
#[verifier::external_body]
pub(crate) fn float_bits(text: &str) -> (r: Option<u64>)
    ensures
        r == parsed_float(text@),
{
    match text.parse().map(toml::Value::Float) {
        Ok(toml::Value::Float(f)) => Some(f.to_bits()),
        _ => None,
    }
}

// ---------------------------------------------------------------------------
// Sorting a table
// ---------------------------------------------------------------------------

/// The rank a plan gives a key: that of its first mention, or none.
pub open spec fn rank(plan: Seq<(Seq<char>, nat)>, key: Seq<char>) -> nat
    decreases plan.len(),
{
    if plan.len() == 0 {
        0
    } else if plan[0].0 == key {
        plan[0].1
    } else {
        rank(plan.drop_first(), key)
    }
}

/// Entries in order of rank, with one more, behind all that do not rank above it.
pub open spec fn with_ranked(
    entries: Seq<(Seq<char>, Part)>,
    plan: Seq<(Seq<char>, nat)>,
    e: (Seq<char>, Part),
) -> Seq<(Seq<char>, Part)>
    decreases entries.len(),
{
    if entries.len() > 0 && rank(plan, entries.last().0) > rank(plan, e.0) {
        with_ranked(entries.drop_last(), plan, e).push(entries.last())
    } else {
        entries.push(e)
    }
}

/// Entries in order of rank; those of one rank stay in their order.
pub open spec fn ranked(entries: Seq<(Seq<char>, Part)>, plan: Seq<(Seq<char>, nat)>) -> Seq<
    (Seq<char>, Part),
>
    decreases entries.len(),
{
    if entries.len() == 0 {
        Seq::empty()
    } else {
        with_ranked(ranked(entries.drop_last(), plan), plan, entries.last())
    }
}

/// A table in order of rank, and with it those of its tables that are written with
/// dotted keys.
pub open spec fn sorted_table(part: Part, plan: Seq<(Seq<char>, nat)>) -> Part
    decreases part,
{
    match part {
        Part::Table { implicit, dotted, entries, marks, style } => Part::Table {
            implicit,
            dotted,
            entries: ranked(sorted_within(entries, plan), plan),
            marks,
            style,
        },
        _ => part,
    }
}

/// Entries with those tables among them sorted that are written with dotted keys.
pub open spec fn sorted_within(
    entries: Seq<(Seq<char>, Part)>,
    plan: Seq<(Seq<char>, nat)>,
) -> Seq<(Seq<char>, Part)>
    decreases entries,
{
    if entries.len() == 0 {
        Seq::empty()
    } else {
        let e = entries[entries.len() - 1];
        sorted_within(entries.drop_last(), plan).push(
            (
                e.0,
                if e.1 matches Part::Table { dotted: true, .. } {
                    sorted_table(e.1, plan)
                } else {
                    e.1
                },
            ),
        )
    }
}

/// A plan, as a mathematical value.
pub open spec fn plan_view(plan: Seq<(String, usize)>) -> Seq<(Seq<char>, nat)> {
    plan.map_values(|e: (String, usize)| (e.0@, e.1 as nat))
}

fn rank_of(plan: &[(String, usize)], key: &str) -> (r: usize)
    ensures
        r == rank(plan_view(plan@), key@),
{
    let ghost all = plan_view(plan@);
    let mut i: usize = 0;
    assert(all.skip(0) == all);
    while i < plan.len()
        invariant
            all == plan_view(plan@),
            i <= plan@.len(),
            rank(all, key@) == rank(all.skip(i as int), key@),
        decreases plan@.len() - i,
    {
        assert(all.skip(i as int)[0] == all[i as int]);
        if str_eq(plan[i].0.as_str(), key) {
            return plan[i].1;
        }
        assert(all.skip(i as int).drop_first() == all.skip(i + 1));
        i = i + 1;
    }
    0
}

/// How a plan orders two keys.
pub(crate) fn by_rank(plan: &[(String, usize)], a: &str, b: &str) -> (r: Ordering)
    ensures
        r == Ordering::Less <==> rank(plan_view(plan@), a@) < rank(plan_view(plan@), b@),
        r == Ordering::Greater <==> rank(plan_view(plan@), a@) > rank(plan_view(plan@), b@),
{
    let x: usize = rank_of(plan, a);
    let y: usize = rank_of(plan, b);
    if x < y {
        Ordering::Less
    } else if x > y {
        Ordering::Greater
    } else {
        Ordering::Equal
    }
}

/// `toml_edit`'s `Table::sort_values_by`, with the order of a plan: a stable sort
/// of the table, and of those of its tables that are written with dotted keys, at
/// any depth. Entries and keys stay as they are written.
#[verifier::external_body]
pub(crate) fn sort_by_plan(item: &mut Item, plan: &[(String, usize)])
    requires
        item_part(*old(item)) is Table,
        item_part(*old(item)).is_sound(),
    ensures
        item_part(*final(item)).is_sound(),
        item_part(*final(item)) == sorted_table(item_part(*old(item)), plan_view(plan@)),
{
    let table = item.as_table_mut().unwrap();
    table.sort_values_by(|a, _, b, _| by_rank(plan, a.get(), b.get()));
}

// ---------------------------------------------------------------------------
// Facts about entries
// ---------------------------------------------------------------------------

/// A key's place holds it, and no place before it does.
pub proof fn lemma_key_place(entries: Seq<(Seq<char>, Part)>, key: Seq<char>, from: int)
    requires
        0 <= from,
    ensures
        match key_place(entries, key, from) {
            Some(i) => from <= i < entries.len() && entries[i].0 == key && forall|j: int|
                from <= j < i ==> (#[trigger] entries[j]).0 != key,
            None => forall|j: int| from <= j < entries.len() ==> (#[trigger] entries[j]).0 != key,
        },
    decreases entries.len() - from,
{
    if from < entries.len() && entries[from].0 != key {
        lemma_key_place(entries, key, from + 1);
    }
}

/// Where no key occurs twice, the place of an entry's key is the entry's.
pub proof fn lemma_distinct_place(entries: Seq<(Seq<char>, Part)>, i: int)
    requires
        0 <= i < entries.len(),
        keys_of(entries).no_duplicates(),
    ensures
        key_place(entries, entries[i].0, 0) == Some(i),
{
    lemma_key_place(entries, entries[i].0, 0);
    assert(keys_of(entries)[i] == entries[i].0);
    if let Some(j) = key_place(entries, entries[i].0, 0) {
        assert(keys_of(entries)[j] == entries[j].0);
    }
}

/// A first place where a key stands is the key's place.
pub proof fn lemma_place_is_first(entries: Seq<(Seq<char>, Part)>, key: Seq<char>, i: int)
    requires
        0 <= i < entries.len(),
        entries[i].0 == key,
        forall|j: int| 0 <= j < i ==> (#[trigger] entries[j]).0 != key,
    ensures
        key_place(entries, key, 0) == Some(i),
{
    lemma_key_place(entries, key, 0);
}

/// Of two settings of one entry the last stands.
pub proof fn lemma_set_again(t: Part, key: Seq<char>, first: Part, last: Part)
    requires
        t.is_table_like(),
    ensures
        t.set(key, first).set(key, last) == t.set(key, last),
        t.put(key, first).set(key, last) == t.put(key, last),
        t.put(key, first).put(key, last) == t.put(key, last),
        t.set(key, first).get(key) == Some(first),
        t.put(key, first).get(key) == Some(first),
{
    let entries = t.entries();
    lemma_key_place(entries, key, 0);
    let once = with_entry(entries, key, first);
    match key_place(entries, key, 0) {
        Some(i) => {
            lemma_place_is_first(once, key, i);
            assert(once.update(i, (key, last)) == entries.update(i, (key, last)));
        },
        None => {
            lemma_place_is_first(once, key, entries.len() as int);
            assert(once.update(entries.len() as int, (key, last)) == entries.push((key, last)));
        },
    }
    assert(t.marks().insert(key, fresh()).insert(key, fresh()) =~= t.marks().insert(key, fresh()));
}

/// Setting an entry to what it is changes nothing.
pub proof fn lemma_set_same(t: Part, key: Seq<char>)
    ensures
        t.get(key) matches Some(c) ==> t.set(key, c) == t,
{
    lemma_key_place(t.entries(), key, 0);
    if let Some(i) = key_place(t.entries(), key, 0) {
        assert(t.entries().update(i, (key, t.entries()[i].1)) == t.entries());
    }
}

/// An entry that is set and then taken out is gone.
pub proof fn lemma_set_unset(t: Part, key: Seq<char>, value: Part)
    requires
        t.is_table_like(),
    ensures
        t.set(key, value).unset(key) == t.unset(key),
        t.put(key, value).unset(key) == t.unset(key),
{
    let entries = t.entries();
    let once = with_entry(entries, key, value);
    lemma_key_place(entries, key, 0);
    match key_place(entries, key, 0) {
        Some(i) => {
            lemma_place_is_first(once, key, i);
            assert(once.remove(i) == entries.remove(i));
        },
        None => {
            lemma_place_is_first(once, key, entries.len() as int);
            assert(once.remove(entries.len() as int) == entries);
        },
    }
    assert(t.marks().insert(key, fresh()).remove(key) =~= t.marks().remove(key));
}

/// What a table holds comes before the table.
pub proof fn lemma_child_decreases(t: Part, key: Seq<char>)
    ensures
        t.get(key) matches Some(c) ==> decreases_to!(t => c),
{
    lemma_key_place(t.entries(), key, 0);
    if let Some(i) = key_place(t.entries(), key, 0) {
        let entries = t.entries();
        assert(decreases_to!(t => entries));
        assert(decreases_to!(entries => entries[i]));
        assert(decreases_to!(entries[i] => entries[i].1));
    }
}

/// What a table in which no key occurs twice holds is such, too.
pub proof fn lemma_sound_child(t: Part, key: Seq<char>)
    requires
        t.is_sound(),
    ensures
        t.get(key) matches Some(c) ==> c.is_sound() && keys_of(c.entries()).no_duplicates(),
        keys_of(t.entries()).no_duplicates(),
{
    reveal(Part::is_sound);
    lemma_key_place(t.entries(), key, 0);
    assert(keys_of(Seq::<(Seq<char>, Part)>::empty()).len() == 0);
}

/// Setting an entry leaves the others.
pub proof fn lemma_get_other(t: Part, key: Seq<char>, value: Part, other: Seq<char>)
    requires
        other != key,
    ensures
        t.set(key, value).get(other) == t.get(other),
        t.put(key, value).get(other) == t.get(other),
{
    if t.is_table_like() {
        let entries = t.entries();
        let now = with_entry(entries, key, value);
        lemma_key_place(entries, key, 0);
        lemma_key_place(entries, other, 0);
        lemma_key_place(now, other, 0);
        match key_place(entries, other, 0) {
            Some(i) => {
                assert(now[i] == entries[i]);
                assert forall|j: int| 0 <= j < i implies (#[trigger] now[j]).0 != other by {
                    if key_place(entries, key, 0) != Some(j) {
                        assert(now[j] == entries[j]);
                    }
                }
                lemma_place_is_first(now, other, i);
            },
            None => {
                if let Some(j) = key_place(now, other, 0) {
                    if j < entries.len() && key_place(entries, key, 0) != Some(j) {
                        assert(now[j] == entries[j]);
                    }
                }
            },
        }
    }
}

/// Setting an entry keeps keys distinct.
pub proof fn lemma_set_distinct(t: Part, key: Seq<char>, value: Part)
    requires
        t.is_table_like(),
        keys_of(t.entries()).no_duplicates(),
    ensures
        keys_of(t.set(key, value).entries()).no_duplicates(),
        keys_of(t.put(key, value).entries()).no_duplicates(),
{
    let entries = t.entries();
    let keys = keys_of(entries);
    lemma_key_place(entries, key, 0);
    match key_place(entries, key, 0) {
        Some(i) => {
            assert(keys_of(entries.update(i, (key, value))) =~= keys);
        },
        None => {
            let now = keys_of(entries.push((key, value)));
            assert(now =~= keys.push(key));
            assert forall|i: int, j: int| 0 <= i < now.len() && 0 <= j < now.len() && i != j implies
                now[i] != now[j] by {
                if i < keys.len() {
                    assert(keys[i] == entries[i].0);
                }
                if j < keys.len() {
                    assert(keys[j] == entries[j].0);
                }
            }
        },
    }
}

/// Taking an entry out removes its key, where keys are distinct, and leaves the
/// others.
pub proof fn lemma_unset(t: Part, key: Seq<char>)
    requires
        t.is_table_like(),
        keys_of(t.entries()).no_duplicates(),
    ensures
        t.unset(key).get(key) is None,
        keys_of(t.unset(key).entries()).no_duplicates(),
        forall|other: Seq<char>| other != key ==> #[trigger] t.unset(key).get(other) == t.get(other),
{
    let entries = t.entries();
    let keys = keys_of(entries);
    let now = without_entry(entries, key);
    lemma_key_place(entries, key, 0);
    lemma_key_place(now, key, 0);
    if let Some(i) = key_place(entries, key, 0) {
        assert forall|j: int| 0 <= j < now.len() implies (#[trigger] now[j]).0 != key by {
            let k = if j < i {
                j
            } else {
                j + 1
            };
            assert(now[j] == entries[k]);
            assert(keys[k] == entries[k].0 && keys[i] == entries[i].0);
        }
        let left = keys_of(now);
        assert(left =~= keys.remove(i));
        assert forall|a: int, b: int| 0 <= a < left.len() && 0 <= b < left.len() && a != b implies
            left[a] != left[b] by {
            let x = if a < i {
                a
            } else {
                a + 1
            };
            let y = if b < i {
                b
            } else {
                b + 1
            };
            assert(left[a] == keys[x] && left[b] == keys[y]);
        }
    }
    assert forall|other: Seq<char>| other != key implies #[trigger] t.unset(key).get(other) == t.get(
        other,
    ) by {
        lemma_key_place(entries, other, 0);
        lemma_key_place(now, other, 0);
        if let Some(i) = key_place(entries, key, 0) {
            match key_place(entries, other, 0) {
                Some(j) => {
                    let k = if j < i {
                        j
                    } else {
                        j - 1
                    };
                    assert(now[k] == entries[j]);
                    assert forall|m: int| 0 <= m < k implies (#[trigger] now[m]).0 != other by {
                        if m < i {
                            assert(now[m] == entries[m]);
                        } else {
                            assert(now[m] == entries[m + 1]);
                        }
                    }
                    lemma_place_is_first(now, other, k);
                },
                None => {
                    if let Some(k) = key_place(now, other, 0) {
                        if k < i {
                            assert(now[k] == entries[k]);
                        } else {
                            assert(now[k] == entries[k + 1]);
                        }
                    }
                },
            }
        }
    }
}

} // verus!
