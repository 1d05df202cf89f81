//! JSON values, and what they become in an editable document.

use crate::document::{
    boolean_item, child, child_mut, float_bits, float_item, hex_item, integer_item, look, new_array,
    new_inline, new_table, new_tables, push_table, push_value, put, take, text_item, Look,
};
use crate::number::{equals_nearest, is_same_float};
use crate::text::{owned, str_eq};
use toml_edit::Item;
use vstd::prelude::*;

verus! {

/// A JSON number that is no integer: its decimal text, and the float that the text
/// reads as.
#[derive(Debug)]
pub struct JsonFloat {
    bits: u64,
    text: String,
}

impl JsonFloat {
    #[verifier::type_invariant]
    spec fn agrees(self) -> bool {
        crate::document::parsed_float(self.text@) == Some(self.bits)
    }

    /// The bit pattern of the number.
    pub closed spec fn bits(self) -> u64 {
        self.bits
    }

    /// The number a decimal text reads as; `None` where it reads as none.
    pub fn parse(text: &str) -> (r: Option<JsonFloat>)
        ensures
            match r {
                Some(f) => crate::document::parsed_float(text@) == Some(f.bits()),
                None => crate::document::parsed_float(text@) is None,
            },
    {
        match float_bits(text) {
            Some(bits) => Some(JsonFloat { bits, text: owned(text) }),
            None => None,
        }
    }

    fn pattern(&self) -> (r: u64)
        ensures
            r == self.bits(),
    {
        self.bits
    }

    fn item(&self) -> (r: Option<Item>)
        ensures
            r matches Some(item) && crate::document::item_part(item)
                == crate::document::Part::Float(self.bits(), crate::document::fresh())
                && crate::document::item_part(item).is_sound(),
    {
        proof {
            use_type_invariant(self);
        }
        float_item(self.text.as_str())
    }
}

/// A JSON value. An object holds its entries in their order.
#[derive(Debug)]
pub enum JsonValue {
    Null,
    Bool(bool),
    Integer(i64),
    /// An integer too large for the signed ones.
    Unsigned(u64),
    Float(JsonFloat),
    Text(String),
    Array(Vec<JsonValue>),
    Object(Vec<(String, JsonValue)>),
}

/// A JSON value, as a mathematical value.
#[verifier::ext_equal]
pub enum Json {
    Null,
    Bool(bool),
    Integer(i64),
    Unsigned(u64),
    Float(u64),
    Text(Seq<char>),
    Array(Seq<Json>),
    Object(Seq<(Seq<char>, Json)>),
}

impl JsonValue {
    /// The value, as a mathematical value.
    pub open spec fn json(self) -> Json
        decreases self,
    {
        match self {
            JsonValue::Null => Json::Null,
            JsonValue::Bool(b) => Json::Bool(b),
            JsonValue::Integer(i) => Json::Integer(i),
            JsonValue::Unsigned(u) => Json::Unsigned(u),
            JsonValue::Float(f) => Json::Float(f.bits()),
            JsonValue::Text(s) => Json::Text(s@),
            JsonValue::Array(items) => Json::Array(
                Seq::new(
                    items@.len(),
                    |i: int|
                        if 0 <= i < items@.len() {
                            items@[i].json()
                        } else {
                            Json::Null
                        },
                ),
            ),
            JsonValue::Object(entries) => Json::Object(
                Seq::new(
                    entries@.len(),
                    |i: int|
                        if 0 <= i < entries@.len() {
                            (entries@[i].0@, entries@[i].1.json())
                        } else {
                            (Seq::empty(), Json::Null)
                        },
                ),
            ),
        }
    }
}

/// Entries of an object, as a mathematical value.
pub open spec fn object_view(entries: Seq<(String, JsonValue)>) -> Seq<(Seq<char>, Json)> {
    entries.map_values(|e: (String, JsonValue)| (e.0@, e.1.json()))
}

/// Elements of an array, as a mathematical value.
pub open spec fn array_view(items: Seq<JsonValue>) -> Seq<Json> {
    items.map_values(|v: JsonValue| v.json())
}

/// Whether an object holds an entry for a key.
pub open spec fn has_key(object: Seq<(Seq<char>, Json)>, key: Seq<char>) -> bool {
    exists|i: int| 0 <= i < object.len() && (#[trigger] object[i]).0 == key
}

/// What an array is, as a mathematical value.
pub proof fn lemma_array_view(items: Vec<JsonValue>)
    ensures
        JsonValue::Array(items).json() == Json::Array(array_view(items@)),
{
    assert(JsonValue::Array(items).json()->Array_0 =~= array_view(items@));
}

/// What an object is, as a mathematical value.
pub proof fn lemma_object_view(entries: Vec<(String, JsonValue)>)
    ensures
        JsonValue::Object(entries).json() == Json::Object(object_view(entries@)),
{
    assert(JsonValue::Object(entries).json()->Object_0 =~= object_view(entries@));
}

// ---------------------------------------------------------------------------
// Values
// ---------------------------------------------------------------------------

/// Whether integers under a key are written in hexadecimal.
pub open spec fn is_mask_key(key: Seq<char>) -> bool {
    key == "mask"@ || key == "frame_id_mask"@
}

/// An integer under a key: a mask is written in hexadecimal.
pub open spec fn integer_part(key: Seq<char>, n: i64) -> crate::document::Part {
    if is_mask_key(key) && n >= 0 {
        crate::document::Part::Integer {
            value: n,
            hex: true,
            style: crate::document::hex_style(n),
        }
    } else {
        crate::document::Part::Integer {
            value: n,
            hex: false,
            style: crate::document::fresh(),
        }
    }
}

/// An unsigned integer as the signed one of the same bits.
pub open spec fn wrapped(u: u64) -> i64 {
    if u <= i64::MAX {
        u as i64
    } else {
        (u - 0x1_0000_0000_0000_0000) as i64
    }
}

/// The value a JSON value becomes under a key; `null` becomes none.
pub open spec fn value_part(key: Seq<char>, json: Json) -> Option<crate::document::Part>
    decreases json,
{
    match json {
        Json::Null => None,
        Json::Bool(b) => Some(crate::document::Part::Boolean(b, crate::document::fresh())),
        Json::Integer(i) => Some(integer_part(key, i)),
        Json::Unsigned(u) => Some(integer_part(key, wrapped(u))),
        Json::Float(bits) => Some(crate::document::Part::Float(bits, crate::document::fresh())),
        Json::Text(s) => Some(crate::document::Part::Text(s, crate::document::fresh())),
        Json::Array(items) => Some(
            crate::document::Part::Array(value_parts(items), crate::document::fresh()),
        ),
        Json::Object(entries) => Some(inline_part(entries)),
    }
}

/// The values of an array.
pub open spec fn value_parts(items: Seq<Json>) -> Seq<crate::document::Part>
    decreases items,
{
    if items.len() == 0 {
        Seq::empty()
    } else {
        let before = value_parts(items.drop_last());
        match value_part(Seq::empty(), items[items.len() - 1]) {
            Some(part) => before.push(part),
            None => before,
        }
    }
}

/// An object, written in line.
pub open spec fn inline_part(entries: Seq<(Seq<char>, Json)>) -> crate::document::Part
    decreases entries,
{
    if entries.len() == 0 {
        crate::document::empty_inline()
    } else {
        let before = inline_part(entries.drop_last());
        let e = entries[entries.len() - 1];
        match value_part(e.0, e.1) {
            Some(part) => before.put(e.0, part),
            None => before,
        }
    }
}

fn wrap(u: u64) -> (r: i64)
    ensures
        r == wrapped(u),
{
    if u <= i64::MAX as u64 {
        u as i64
    } else {
        (u as i128 - 0x1_0000_0000_0000_0000) as i64
    }
}

fn int_value(key: &str, n: i64) -> (r: Item)
    ensures
        crate::document::item_part(r).is_sound(),
        crate::document::item_part(r) == integer_part(key@, n),
{
    if n >= 0 && (str_eq(key, "mask") || str_eq(key, "frame_id_mask")) {
        hex_item(n)
    } else {
        integer_item(n)
    }
}

/// The value a JSON value becomes under a key.
pub(crate) fn json_to_value(key: &str, json: &JsonValue) -> (r: Option<Item>)
    ensures
        r matches Some(item) ==> crate::document::item_part(item).is_sound(),
        match r {
            Some(item) => value_part(key@, json.json()) == Some(crate::document::item_part(item)),
            None => value_part(key@, json.json()) is None,
        },
        r matches Some(item) ==> crate::document::item_part(item).is_value(),
    decreases json,
{
    match json {
        JsonValue::Null => None,
        JsonValue::Bool(b) => Some(boolean_item(*b)),
        JsonValue::Integer(i) => Some(int_value(key, *i)),
        JsonValue::Unsigned(u) => Some(int_value(key, wrap(*u))),
        JsonValue::Float(f) => f.item(),
        JsonValue::Text(s) => Some(text_item(s.as_str())),
        JsonValue::Array(items) => {
            proof {
                lemma_array_view(*items);
            }
            Some(array_item(items))
        },
        JsonValue::Object(entries) => {
            proof {
                lemma_object_view(*entries);
            }
            Some(build_inline_table(entries))
        },
    }
}

/// A table in line with the entries of an object.
pub(crate) fn build_inline_table(entries: &Vec<(String, JsonValue)>) -> (r: Item)
    ensures
        crate::document::item_part(r).is_sound(),
        crate::document::item_part(r) == inline_part(object_view(entries@)),
        crate::document::item_part(r) is Inline,
    decreases entries,
{
    let ghost all = object_view(entries@);
    let mut out = new_inline();
    for i in 0..entries.len()
        invariant
            crate::document::item_part(out).is_sound(),
            all == object_view(entries@),
            crate::document::item_part(out) == inline_part(all.take(i as int)),
            crate::document::item_part(out) is Inline,
    {
        assert(all.take(i + 1).drop_last() == all.take(i as int));
        assert(all.take(i + 1)[i as int] == all[i as int]);
        assert(decreases_to!(entries => entries@));
        assert(decreases_to!(entries@ => entries@[i as int]));
        assert(decreases_to!(entries@[i as int] => entries@[i as int].1));
        if let Some(item) = json_to_value(entries[i].0.as_str(), &entries[i].1) {
            put(&mut out, entries[i].0.as_str(), item);
        }
    }
    assert(all.take(all.len() as int) == all);
    out
}

fn array_item(items: &Vec<JsonValue>) -> (r: Item)
    ensures
        crate::document::item_part(r).is_sound(),
        crate::document::item_part(r) == crate::document::Part::Array(
            value_parts(array_view(items@)),
            crate::document::fresh(),
        ),
    decreases items,
{
    let ghost all = array_view(items@);
    let mut out = new_array();
    for i in 0..items.len()
        invariant
            crate::document::item_part(out).is_sound(),
            all == array_view(items@),
            crate::document::item_part(out) == crate::document::Part::Array(
                value_parts(all.take(i as int)),
                crate::document::fresh(),
            ),
    {
        assert(all.take(i + 1).drop_last() == all.take(i as int));
        assert(all.take(i + 1)[i as int] == all[i as int]);
        assert(decreases_to!(items => items@));
        assert(decreases_to!(items@ => items@[i as int]));
        assert(""@ == Seq::<char>::empty()) by {
            reveal_strlit("");
        }
        if let Some(item) = json_to_value("", &items[i]) {
            push_value(&mut out, item);
        }
    }
    assert(all.take(all.len() as int) == all);
    out
}

// ---------------------------------------------------------------------------
// Objects on tables
// ---------------------------------------------------------------------------

/// Whether a part is the scalar a JSON value becomes.
pub open spec fn is_same_scalar(part: crate::document::Part, json: Json) -> bool {
    match json {
        Json::Bool(b) => part matches crate::document::Part::Boolean(held, _) && held == b,
        Json::Text(s) => part matches crate::document::Part::Text(text, _) && text == s,
        Json::Integer(i) => part matches crate::document::Part::Integer { value, .. } && value == i,
        Json::Unsigned(u) => if u <= i64::MAX {
            part matches crate::document::Part::Integer { value, .. } && value == u
        } else {
            part matches crate::document::Part::Float(bits, _) && crate::number::is_nearest_float(
                bits,
                u,
            )
        },
        Json::Float(f) => part matches crate::document::Part::Float(bits, _)
            && crate::number::same_float(bits, f),
        _ => false,
    }
}

/// A table without those of some keys that an object does not hold.
pub open spec fn dropped(
    table: crate::document::Part,
    object: Seq<(Seq<char>, Json)>,
    managed: Seq<Seq<char>>,
) -> crate::document::Part
    decreases managed.len(),
{
    if managed.len() == 0 {
        table
    } else {
        let before = dropped(table, object, managed.drop_last());
        if has_key(object, managed.last()) {
            before
        } else {
            before.unset(managed.last())
        }
    }
}

/// A table with every entry of an object set, in the object's order.
pub open spec fn with_all(
    table: crate::document::Part,
    object: Seq<(Seq<char>, Json)>,
) -> crate::document::Part
    decreases object,
{
    if object.len() == 0 {
        table
    } else {
        let e = object[object.len() - 1];
        with_json(with_all(table, object.drop_last()), e.0, e.1)
    }
}

/// A table with an object applied: the managed keys that the object does not hold
/// go, its entries are set, all else stays.
pub open spec fn applied(
    table: crate::document::Part,
    object: Seq<(Seq<char>, Json)>,
    managed: Seq<Seq<char>>,
) -> crate::document::Part {
    with_all(dropped(table, object, managed), object)
}

/// The table a table holds under a key, or a new one.
pub open spec fn child_or_new(
    table: crate::document::Part,
    key: Seq<char>,
    implicit: bool,
) -> crate::document::Part {
    match table.get(key) {
        Some(c) => if c is Table {
            c
        } else {
            crate::document::empty_table(implicit)
        },
        None => crate::document::empty_table(implicit),
    }
}

/// A table with one entry set to a JSON value. An object is applied to the table
/// there, all of whose keys count as managed. An array replaces what is there.
/// `null` takes the entry out. A scalar that is there already stays as it is
/// written.
pub open spec fn with_json(
    table: crate::document::Part,
    key: Seq<char>,
    json: Json,
) -> crate::document::Part
    decreases json,
{
    match json {
        Json::Object(object) => {
            let c = child_or_new(table, key, false);
            table.set_table(
                key,
                with_all(
                    dropped(c, object, crate::document::keys_of(c.entries())),
                    object,
                ),
            )
        },
        Json::Array(items) => table.put(key, array_part(items)),
        Json::Null => table.unset(key),
        _ => match (table.get(key), value_part(key, json)) {
            (Some(part), Some(value)) => if is_same_scalar(part, json) {
                table
            } else {
                table.put(key, value)
            },
            (None, Some(value)) => table.put(key, value),
            _ => table,
        },
    }
}

/// What an array becomes: tables where it starts with an object, else values.
pub open spec fn array_part(items: Seq<Json>) -> crate::document::Part
    decreases items, 1int,
{
    if items.len() > 0 && items[0] is Object {
        crate::document::Part::Tables(table_parts(items))
    } else {
        crate::document::Part::Array(value_parts(items), crate::document::fresh())
    }
}

/// A table for each object of an array.
pub open spec fn table_parts(items: Seq<Json>) -> Seq<crate::document::Part>
    decreases items, 0int,
{
    if items.len() == 0 {
        Seq::empty()
    } else {
        let before = table_parts(items.drop_last());
        match items[items.len() - 1] {
            Json::Object(object) => before.push(
                with_all(crate::document::empty_table(false), object),
            ),
            _ => before,
        }
    }
}

fn holds_key(object: &Vec<(String, JsonValue)>, key: &str) -> (r: bool)
    ensures
        r == has_key(object_view(object@), key@),
{
    let ghost all = object_view(object@);
    for i in 0..object.len()
        invariant
            all == object_view(object@),
            forall|j: int| 0 <= j < i ==> (#[trigger] all[j]).0 != key@,
    {
        if str_eq(object[i].0.as_str(), key) {
            assert(all[i as int].0 == key@);
            return true;
        }
    }
    false
}

fn drop_absent(table: &mut Item, object: &Vec<(String, JsonValue)>, managed: &[String])
    requires
        crate::document::item_part(*old(table)).is_sound(),
        crate::document::item_part(*old(table)) is Table,
    ensures
        crate::document::item_part(*final(table)).is_sound(),
        crate::document::item_part(*final(table)) == dropped(
            crate::document::item_part(*old(table)),
            object_view(object@),
            crate::text::texts(managed@),
        ),
        crate::document::item_part(*final(table)) is Table,
{
    let ghost before = crate::document::item_part(*table);
    let ghost keys = crate::text::texts(managed@);
    for i in 0..managed.len()
        invariant
            crate::document::item_part(*table).is_sound(),
            keys == crate::text::texts(managed@),
            crate::document::item_part(*table) == dropped(
                before,
                object_view(object@),
                keys.take(i as int),
            ),
            crate::document::item_part(*table) is Table,
    {
        assert(keys.take(i + 1).drop_last() == keys.take(i as int));
        assert(keys.take(i + 1).last() == keys[i as int]);
        if !holds_key(object, managed[i].as_str()) {
            take(table, managed[i].as_str());
        }
    }
    assert(keys.take(keys.len() as int) == keys);
}

/// Applies an object to a table.
pub(crate) fn apply_object(table: &mut Item, object: &Vec<(String, JsonValue)>, managed: &[String])
    requires
        crate::document::item_part(*old(table)).is_sound(),
        crate::document::item_part(*old(table)) is Table,
    ensures
        crate::document::item_part(*final(table)).is_sound(),
        crate::document::item_part(*final(table)) == applied(
            crate::document::item_part(*old(table)),
            object_view(object@),
            crate::text::texts(managed@),
        ),
        crate::document::item_part(*final(table)) is Table,
    decreases object, 0int,
{
    drop_absent(table, object, managed);
    let ghost before = crate::document::item_part(*table);
    let ghost all = object_view(object@);
    for i in 0..object.len()
        invariant
            crate::document::item_part(*table).is_sound(),
            all == object_view(object@),
            crate::document::item_part(*table) == with_all(before, all.take(i as int)),
            crate::document::item_part(*table) is Table,
    {
        assert(all.take(i + 1).drop_last() == all.take(i as int));
        assert(all.take(i + 1)[i as int] == all[i as int]);
        assert(decreases_to!(object => object@));
        assert(decreases_to!(object@ => object@[i as int]));
        assert(decreases_to!(object@[i as int] => object@[i as int].1));
        set_key(table, object[i].0.as_str(), &object[i].1);
    }
    assert(all.take(all.len() as int) == all);
}

/// The keys of the table an item is; none where it is no table.
pub(crate) fn table_keys(item: &Item) -> (r: Vec<String>)
    requires
        crate::document::item_part(*item).is_sound(),
    ensures
        crate::document::item_part(*item) is Table ==> crate::text::texts(r@)
            == crate::document::keys_of(crate::document::item_part(*item).entries())
            && crate::text::texts(r@).no_duplicates(),
        !(crate::document::item_part(*item) is Table) ==> r@.len() == 0,
{
    match look(item) {
        Look::Table { keys, .. } => keys,
        _ => Vec::new(),
    }
}

/// Whether an item is a table with a header.
pub(crate) fn is_table(item: Option<&Item>) -> (r: bool)
    requires
        crate::document::opt_part(item) matches Some(part) ==> part.is_sound(),
    ensures
        r == (crate::document::opt_part(item) matches Some(part) && part is Table),
{
    match item {
        Some(item) => match look(item) {
            Look::Table { .. } => true,
            _ => false,
        },
        None => false,
    }
}

fn set_key(table: &mut Item, key: &str, json: &JsonValue)
    requires
        crate::document::item_part(*old(table)).is_sound(),
        crate::document::item_part(*old(table)) is Table,
    ensures
        crate::document::item_part(*final(table)).is_sound(),
        crate::document::item_part(*final(table)) == with_json(
            crate::document::item_part(*old(table)),
            key@,
            json.json(),
        ),
        crate::document::item_part(*final(table)) is Table,
    decreases json,
{
    let ghost before = crate::document::item_part(*table);
    match json {
        JsonValue::Object(object) => {
            proof {
                lemma_object_view(*object);
            }
            if !is_table(child(table, key)) {
                put(table, key, new_table(false));
            }
            let ghost c = child_or_new(before, key@, false);
            proof {
                crate::document::lemma_set_again(
                    before,
                    key@,
                    crate::document::empty_table(false),
                    applied(
                        c,
                        object_view(object@),
                        crate::document::keys_of(c.entries()),
                    ),
                );
            }
            if let Some(inner) = child_mut(table, key) {
                let keys = table_keys(inner);
                apply_object(inner, object, keys.as_slice());
            }
        },
        JsonValue::Array(items) => {
            proof {
                lemma_array_view(*items);
            }
            let item = json_array_item(items);
            put(table, key, item);
        },
        JsonValue::Null => {
            take(table, key);
        },
        _ => {
            let same = match child(table, key) {
                Some(item) => scalar_eq(item, json),
                None => false,
            };
            if !same {
                if let Some(item) = json_to_value(key, json) {
                    put(table, key, item);
                }
            }
        },
    }
}

fn json_array_item(items: &Vec<JsonValue>) -> (r: Item)
    ensures
        crate::document::item_part(r).is_sound(),
        crate::document::item_part(r) == array_part(array_view(items@)),
    decreases items,
{
    let ghost all = array_view(items@);
    let of_tables = if items.len() > 0 {
        match &items[0] {
            JsonValue::Object(_) => true,
            _ => false,
        }
    } else {
        false
    };
    assert(of_tables ==> all[0] is Object);
    assert(all.len() > 0 && all[0] is Object ==> of_tables);
    if !of_tables {
        return array_item(items);
    }
    let mut out = new_tables();
    for i in 0..items.len()
        invariant
            crate::document::item_part(out).is_sound(),
            all == array_view(items@),
            crate::document::item_part(out) == crate::document::Part::Tables(
                table_parts(all.take(i as int)),
            ),
    {
        assert(all.take(i + 1).drop_last() == all.take(i as int));
        assert(all.take(i + 1)[i as int] == all[i as int]);
        if let JsonValue::Object(object) = &items[i] {
            assert(decreases_to!(items => items@));
            assert(decreases_to!(items@ => items@[i as int]));
            proof {
                lemma_object_view(*object);
            }
            push_table(&mut out, object_table(object));
        }
    }
    assert(all.take(all.len() as int) == all);
    out
}

/// A new table with the entries of an object.
pub(crate) fn object_table(object: &Vec<(String, JsonValue)>) -> (r: Item)
    ensures
        crate::document::item_part(r).is_sound(),
        crate::document::item_part(r) == with_all(
            crate::document::empty_table(false),
            object_view(object@),
        ),
        crate::document::item_part(r) is Table,
    decreases object, 1int,
{
    let mut table = new_table(false);
    let none: Vec<String> = Vec::new();
    apply_object(&mut table, object, none.as_slice());
    table
}

fn scalar_eq(item: &Item, json: &JsonValue) -> (r: bool)
    requires
        crate::document::item_part(*item).is_sound(),
    ensures
        r == is_same_scalar(crate::document::item_part(*item), json.json()),
{
    let shown = look(item);
    match json {
        JsonValue::Bool(b) => match shown {
            Look::Boolean(held) => held == *b,
            _ => false,
        },
        JsonValue::Text(s) => match shown {
            Look::Text(held) => str_eq(held.as_str(), s.as_str()),
            _ => false,
        },
        JsonValue::Integer(i) => match shown {
            Look::Integer(held) => held == *i,
            _ => false,
        },
        JsonValue::Unsigned(u) => match shown {
            Look::Integer(held) => *u <= i64::MAX as u64 && held == *u as i64,
            Look::Float(bits) => *u > i64::MAX as u64 && equals_nearest(bits, *u),
            _ => false,
        },
        JsonValue::Float(f) => match shown {
            Look::Float(bits) => is_same_float(bits, f.pattern()),
            _ => false,
        },
        _ => false,
    }
}

/// An integer becomes an integer, in hexadecimal under a mask's key where it is not
/// negative; texts, truth values and floats become themselves, and `null` nothing.
pub proof fn law_values_become_themselves(key: Seq<char>, json: Json)
    ensures
        match json {
            Json::Null => value_part(key, json) is None,
            Json::Bool(b) => value_part(key, json) matches Some(
                crate::document::Part::Boolean(held, _),
            ) && held == b,
            Json::Integer(i) => value_part(key, json) matches Some(
                crate::document::Part::Integer { value, hex, .. },
            ) && value == i && (hex <==> (key == "mask"@ || key == "frame_id_mask"@) && i >= 0),
            Json::Unsigned(u) => u <= i64::MAX ==> (value_part(key, json) matches Some(
                crate::document::Part::Integer { value, .. },
            ) && value == u),
            Json::Float(f) => value_part(key, json) matches Some(
                crate::document::Part::Float(held, _),
            ) && held == f,
            Json::Text(s) => value_part(key, json) matches Some(
                crate::document::Part::Text(held, _),
            ) && held == s,
            Json::Array(_) => value_part(key, json) is Some && value_part(key, json)->Some_0 is Array,
            Json::Object(_) => value_part(key, json) is Some && value_part(key, json)->Some_0 is Inline,
        },
{
    if let Json::Object(entries) = json {
        lemma_inline(entries);
    }
}

proof fn lemma_inline(entries: Seq<(Seq<char>, Json)>)
    ensures
        inline_part(entries) is Inline,
    decreases entries.len(),
{
    if entries.len() > 0 {
        lemma_inline(entries.drop_last());
    }
}

/// An array without `null` keeps every element, in its place.
pub proof fn law_arrays_keep_their_elements(items: Seq<Json>, i: int)
    requires
        forall|j: int| 0 <= j < items.len() ==> !((#[trigger] items[j]) is Null),
        0 <= i < items.len(),
    ensures
        value_parts(items).len() == items.len(),
        Some(value_parts(items)[i]) == value_part(Seq::empty(), items[i]),
    decreases items.len(),
{
    let front = items.drop_last();
    assert forall|j: int| 0 <= j < front.len() implies !((#[trigger] front[j]) is Null) by {
        assert(front[j] == items[j]);
    }
    assert(!(items[items.len() - 1] is Null));
    if i < front.len() {
        law_arrays_keep_their_elements(front, i);
        assert(front[i] == items[i]);
    } else if front.len() > 0 {
        law_arrays_keep_their_elements(front, 0);
    } else {
        assert(value_parts(front).len() == 0);
    }
    assert(value_part(Seq::empty(), items[items.len() - 1]) is Some);
}

/// An array of objects becomes tables, one for each, with the object's entries.
pub proof fn law_objects_become_tables(items: Seq<Json>, i: int)
    requires
        forall|j: int| 0 <= j < items.len() ==> (#[trigger] items[j]) is Object,
        0 <= i < items.len(),
    ensures
        array_part(items) matches crate::document::Part::Tables(tables) && tables.len()
            == items.len() && tables[i] == with_all(
            crate::document::empty_table(false),
            items[i]->Object_0,
        ),
{
    lemma_table_parts(items, i);
    assert(items[0] is Object);
}

proof fn lemma_table_parts(items: Seq<Json>, i: int)
    requires
        forall|j: int| 0 <= j < items.len() ==> (#[trigger] items[j]) is Object,
    ensures
        table_parts(items).len() == items.len(),
        0 <= i < items.len() ==> table_parts(items)[i] == with_all(
            crate::document::empty_table(false),
            items[i]->Object_0,
        ),
    decreases items.len(),
{
    if items.len() > 0 {
        let front = items.drop_last();
        assert forall|j: int| 0 <= j < front.len() implies (#[trigger] front[j]) is Object by {
            assert(front[j] == items[j]);
        }
        assert(items[items.len() - 1] is Object);
        lemma_table_parts(front, i);
        if i < front.len() && 0 <= i {
            assert(front[i] == items[i]);
        }
    }
}

} // verus!
