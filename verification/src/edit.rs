//! Edits of a catalogue's text that keep its comments and formatting.
//!
//! The catalogue editor changes a document by edits rather than by writing a
//! parsed catalogue out again, which would lose every comment. An edit is made on
//! an editable document, so that only what it aims at changes. The edits are
//! document primitives: set a table, put an entry into an array of tables at its
//! sorted place, rename a key.

use crate::document::{
    child, child_mut, clear_tables, copy_item, element, insert_value, look, new_table, new_tables,
    parse_editable, push_table, put, remove_table, remove_value, root, root_mut, set_prefix, take,
    text_item, write_document, Look,
};
use crate::json::{apply_object, build_inline_table, is_table, object_table, table_keys, json_to_value, JsonValue};
use crate::number::is_greater;
use crate::order::{sort_table, strip_quotes};
use crate::text::{cat2, cat3, copy_texts, is_text_before, owned, str_eq};
use crate::value::Number;
use toml_edit::{DocumentMut, Item};
use vstd::prelude::*;

verus! {

/// One edit.
#[derive(Debug)]
pub enum EditOp {
    /// Sets every entry of `value` on the table at `path`, which is created where it
    /// is missing. The `managed_keys` that `value` does not hold are taken out; other
    /// entries stay, unless `replace_contents` clears the table first.
    SetTable {
        path: Vec<String>,
        value: Vec<(String, JsonValue)>,
        managed_keys: Vec<String>,
        replace_contents: bool,
        sort_parent_numeric: bool,
        skip_if_exists: bool,
        error_if_exists: bool,
    },
    /// Sets the entries of a frame, which keeps its signals, mux and checksums.
    /// `rename_from` moves an existing frame first. `initial_signals` go to a frame
    /// that is new. CAN frames are kept sorted.
    UpsertFrame {
        protocol: String,
        key: String,
        value: Vec<(String, JsonValue)>,
        managed_keys: Vec<String>,
        rename_from: Option<String>,
        initial_signals: Vec<Vec<(String, JsonValue)>>,
    },
    /// Adds a table to the array at `array_path`, or replaces the one at `index`,
    /// at the place that `sort_keys` give it; the other tables do not move.
    UpsertArrayItem {
        array_path: Vec<String>,
        value: Vec<(String, JsonValue)>,
        index: Option<usize>,
        sort_keys: Vec<String>,
    },
    /// Removes the entry at `index` of an array, and the array where it is then
    /// empty and `remove_if_empty` says so.
    RemoveArrayItem { array_path: Vec<String>, index: usize, remove_if_empty: bool },
    /// Renames `old` to `new` in the table at `parent_path`, applies `set_value` to
    /// the renamed table, and rewrites the references of frames to a node.
    RenameKey {
        parent_path: Vec<String>,
        old: String,
        new: String,
        set_value: Option<Vec<(String, JsonValue)>>,
        managed_keys: Vec<String>,
        sort_numeric: bool,
        update_transmitter_refs: bool,
        error_if_exists: bool,
    },
    /// Removes the entry at `path`.
    DeleteAtPath { path: Vec<String>, sort_parent_numeric: bool },
}

// ---------------------------------------------------------------------------
// Paths
// ---------------------------------------------------------------------------

/// The table at the end of a path, with new tables where there is none on the way.
/// Those before the last are implicit.
pub open spec fn leaf_at(
    t: crate::document::Part,
    path: Seq<Seq<char>>,
) -> crate::document::Part
    decreases path.len(),
{
    if path.len() == 0 {
        t
    } else {
        leaf_at(
            crate::json::child_or_new(t, crate::order::stripped(path[0]), path.len() > 1),
            path.drop_first(),
        )
    }
}

/// A table with the table at the end of a path replaced, and created on the way
/// where there is none.
pub open spec fn put_at(
    t: crate::document::Part,
    path: Seq<Seq<char>>,
    leaf: crate::document::Part,
) -> crate::document::Part
    decreases path.len(),
{
    if path.len() == 0 {
        leaf
    } else {
        let key = crate::order::stripped(path[0]);
        t.set_table(
            key,
            put_at(crate::json::child_or_new(t, key, path.len() > 1), path.drop_first(), leaf),
        )
    }
}

/// The table at the end of a path, where every step of it is a table.
pub open spec fn existing_at(
    t: crate::document::Part,
    path: Seq<Seq<char>>,
) -> Option<crate::document::Part>
    decreases path.len(),
{
    if path.len() == 0 {
        Some(t)
    } else {
        match t.get(crate::order::stripped(path[0])) {
            Some(c) => if c is Table {
                existing_at(c, path.drop_first())
            } else {
                None
            },
            None => None,
        }
    }
}

fn navigate_create<'a>(t: &'a mut Item, path: &[String], from: usize) -> (r: &'a mut Item)
    requires
        from <= path@.len(),
        crate::document::item_part(*old(t)) is Table,
        crate::document::item_part(*old(t)).is_sound(),
    ensures
        crate::document::item_part(*r) is Table,
        crate::document::item_part(*r).is_sound(),
        crate::document::item_part(*final(r)).is_sound() ==> crate::document::item_part(
            *final(t),
        ).is_sound(),
        crate::document::item_part(*final(r)) is Table ==> crate::document::item_part(*final(t))
            is Table,
        crate::document::item_part(*r) == leaf_at(
            crate::document::item_part(*old(t)),
            crate::text::texts(path@).skip(from as int),
        ),
        crate::document::item_part(*final(t)) == put_at(
            crate::document::item_part(*old(t)),
            crate::text::texts(path@).skip(from as int),
            crate::document::item_part(*final(r)),
        ),
    decreases path@.len() - from,
{
    if from == path.len() {
        return t;
    }
    let ghost before = crate::document::item_part(*t);
    let ghost keys = crate::text::texts(path@).skip(from as int);
    assert(keys[0] == path@[from as int]@);
    assert(keys.drop_first() == crate::text::texts(path@).skip(from + 1));
    let key = strip_quotes(path[from].as_str());
    if !is_table(child(t, key.as_str())) {
        put(t, key.as_str(), new_table(from + 1 < path.len()));
    }
    proof {
        let fresh = crate::document::empty_table(keys.len() > 1);
        assert forall|last: crate::document::Part|
            #![trigger before.put(key@, last)]
            before.put(key@, fresh).set(key@, last) == before.put(key@, last) by {
            crate::document::lemma_set_again(before, key@, fresh, last);
        }
        crate::document::lemma_set_again(before, key@, fresh, fresh);
    }
    let c = child_mut(t, key.as_str()).unwrap();
    navigate_create(c, path, from + 1)
}

fn navigate_existing_mut<'a>(t: &'a mut Item, path: &[String], from: usize) -> (r: Option<&'a mut Item>)
    requires
        from <= path@.len(),
        crate::document::item_part(*old(t)) is Table,
        crate::document::item_part(*old(t)).is_sound(),
    ensures
        r is Some ==> crate::document::item_part(*r.unwrap()).is_sound(),
        r is Some && crate::document::item_part(*final(r.unwrap())).is_sound()
            ==> crate::document::item_part(*final(t)).is_sound(),
        r is Some && crate::document::item_part(*final(r.unwrap())) is Table
            ==> crate::document::item_part(*final(t)) is Table,
        r is Some <==> existing_at(
            crate::document::item_part(*old(t)),
            crate::text::texts(path@).skip(from as int),
        ) is Some,
        r is Some ==> existing_at(
            crate::document::item_part(*old(t)),
            crate::text::texts(path@).skip(from as int),
        ) == Some(crate::document::item_part(*r.unwrap())),
        r is Some ==> crate::document::item_part(*r.unwrap()) is Table,
        r is Some ==> crate::document::item_part(*final(t)) == put_at(
            crate::document::item_part(*old(t)),
            crate::text::texts(path@).skip(from as int),
            crate::document::item_part(*final(r.unwrap())),
        ),
        r is None ==> crate::document::item_part(*final(t)) == crate::document::item_part(*old(t)),
    decreases path@.len() - from,
{
    if from == path.len() {
        return Some(t);
    }
    let ghost keys = crate::text::texts(path@).skip(from as int);
    assert(keys[0] == path@[from as int]@);
    assert(keys.drop_first() == crate::text::texts(path@).skip(from + 1));
    let key = strip_quotes(path[from].as_str());
    if !is_table(child(t, key.as_str())) {
        return None;
    }
    proof {
        crate::document::lemma_set_same(crate::document::item_part(*t), key@);
    }
    let c = child_mut(t, key.as_str()).unwrap();
    navigate_existing_mut(c, path, from + 1)
}

// ---------------------------------------------------------------------------
// The order of tables
// ---------------------------------------------------------------------------

/// The text a part is; empty for others.
pub open spec fn text_or_empty(part: Option<crate::document::Part>) -> Seq<char> {
    match part {
        Some(crate::document::Part::Text(s, _)) => s,
        _ => Seq::empty(),
    }
}

/// Whether one value comes after another: two integers or two floats by size, others
/// as text.
pub open spec fn value_after(
    a: Option<crate::document::Part>,
    b: Option<crate::document::Part>,
) -> bool {
    match (a, b) {
        (
            Some(crate::document::Part::Integer { value: x, .. }),
            Some(crate::document::Part::Integer { value: y, .. }),
        ) => x > y,
        (
            Some(crate::document::Part::Float(x, _)),
            Some(crate::document::Part::Float(y, _)),
        ) => crate::number::exceeds(
            crate::order::float_number(x),
            crate::order::float_number(y),
        ),
        _ => crate::text::text_before(text_or_empty(b), text_or_empty(a)),
    }
}

/// Whether one list of values comes after another: the first difference decides.
pub open spec fn values_after(
    a: Seq<Option<crate::document::Part>>,
    b: Seq<Option<crate::document::Part>>,
) -> bool
    decreases a.len(),
{
    if a.len() == 0 || b.len() == 0 {
        false
    } else if value_after(a[0], b[0]) {
        true
    } else if value_after(b[0], a[0]) {
        false
    } else {
        values_after(a.drop_first(), b.drop_first())
    }
}

/// The values of a table by which it is sorted.
pub open spec fn sort_values(t: crate::document::Part, keys: Seq<Seq<char>>) -> Seq<
    Option<crate::document::Part>,
> {
    keys.map_values(|k: Seq<char>| t.get(k))
}

/// The first entry of an object for a key.
pub open spec fn object_get(
    object: Seq<(Seq<char>, crate::json::Json)>,
    key: Seq<char>,
) -> Option<crate::json::Json>
    decreases object.len(),
{
    if object.len() == 0 {
        None
    } else if object[0].0 == key {
        Some(object[0].1)
    } else {
        object_get(object.drop_first(), key)
    }
}

/// The value of an object under a key.
pub open spec fn object_value(
    object: Seq<(Seq<char>, crate::json::Json)>,
    key: Seq<char>,
) -> Option<crate::document::Part> {
    match object_get(object, key) {
        Some(json) => crate::json::value_part(key, json),
        None => None,
    }
}

/// The values of an object by which it is sorted.
pub open spec fn object_values(
    object: Seq<(Seq<char>, crate::json::Json)>,
    keys: Seq<Seq<char>>,
) -> Seq<Option<crate::document::Part>> {
    keys.map_values(|k: Seq<char>| object_value(object, k))
}

/// The first place, from some place on, of a table that comes after some values;
/// the end where there is none. Without keys it is the end.
pub open spec fn sorted_place(
    tables: Seq<crate::document::Part>,
    values: Seq<Option<crate::document::Part>>,
    keys: Seq<Seq<char>>,
    from: int,
) -> int
    decreases tables.len() - from,
{
    if keys.len() == 0 || from < 0 || from >= tables.len() {
        tables.len() as int
    } else if tables[from].is_table_like() && values_after(sort_values(tables[from], keys), values) {
        from
    } else {
        sorted_place(tables, values, keys, from + 1)
    }
}

fn is_value_after(a: Option<&Item>, b: Option<&Item>) -> (r: bool)
    requires
        crate::document::opt_part(a) matches Some(p) ==> p.is_sound(),
        crate::document::opt_part(b) matches Some(p) ==> p.is_sound(),
    ensures
        r == value_after(crate::document::opt_part(a), crate::document::opt_part(b)),
{
    let x: Option<Look> = match a {
        Some(item) => Some(look(item)),
        None => None,
    };
    let y: Option<Look> = match b {
        Some(item) => Some(look(item)),
        None => None,
    };
    match (&x, &y) {
        (Some(Look::Integer(m)), Some(Look::Integer(n))) => return *m > *n,
        (Some(Look::Float(m)), Some(Look::Float(n))) => {
            let zero = crate::bits::DecimalValue { mantissa: 0, scale: 0 };
            return is_greater(
                Number::Float { bits: *m, decimal: zero },
                Number::Float { bits: *n, decimal: zero },
            );
        },
        _ => {},
    }
    assert(""@ == Seq::<char>::empty()) by {
        reveal_strlit("");
    }
    let s = match &x {
        Some(Look::Text(text)) => text.as_str(),
        _ => "",
    };
    let t = match &y {
        Some(Look::Text(text)) => text.as_str(),
        _ => "",
    };
    is_text_before(t, s)
}

/// Items that may be absent, by what they hold.
pub open spec fn opt_parts(items: Seq<Option<Item>>) -> Seq<Option<crate::document::Part>> {
    items.map_values(
        |i: Option<Item>|
            match i {
                Some(item) => Some(crate::document::item_part(item)),
                None => None,
            },
    )
}

/// Whether each of a list of parts is sound.
spec fn all_sound(parts: Seq<crate::document::Part>) -> bool {
    forall|i: int| 0 <= i < parts.len() ==> (#[trigger] parts[i]).is_sound()
}

/// Whether each of a list of parts that is there is sound.
spec fn all_sound_if_any(parts: Seq<Option<crate::document::Part>>) -> bool {
    forall|i: int|
        0 <= i < parts.len() ==> (#[trigger] parts[i] matches Some(p) ==> p.is_sound())
}

proof fn lemma_sound_elements(part: crate::document::Part)
    requires
        part.is_sound(),
    ensures
        all_sound(part.elements()),
{
    reveal(crate::document::Part::is_sound);
}

fn comes_after(table: &Item, values: &[Option<Item>], keys: &[String]) -> (r: bool)
    requires
        all_sound_if_any(opt_parts(values@)),
        crate::document::item_part(*table).is_sound(),
        values@.len() == keys@.len(),
    ensures
        r == values_after(
            sort_values(crate::document::item_part(*table), crate::text::texts(keys@)),
            opt_parts(values@),
        ),
{
    let ghost a = sort_values(crate::document::item_part(*table), crate::text::texts(keys@));
    let ghost b = opt_parts(values@);
    let mut i: usize = 0;
    assert(a.skip(0) == a && b.skip(0) == b);
    while i < keys.len()
        invariant
            i <= keys@.len(),
            values@.len() == keys@.len(),
            crate::document::item_part(*table).is_sound(),
            all_sound_if_any(b),
            a == sort_values(crate::document::item_part(*table), crate::text::texts(keys@)),
            b == opt_parts(values@),
            values_after(a, b) == values_after(a.skip(i as int), b.skip(i as int)),
        decreases keys@.len() - i,
    {
        let mine = child(table, keys[i].as_str());
        let other: Option<&Item> = match &values[i] {
            Some(item) => Some(item),
            None => None,
        };
        assert(crate::text::texts(keys@)[i as int] == keys@[i as int]@);
        assert(a.skip(i as int)[0] == crate::document::opt_part(mine));
        assert(b.skip(i as int)[0] == crate::document::opt_part(other));
        assert(b[i as int] == crate::document::opt_part(other));
        if is_value_after(mine, other) {
            return true;
        }
        if is_value_after(other, mine) {
            return false;
        }
        assert(a.skip(i as int).drop_first() == a.skip(i + 1));
        assert(b.skip(i as int).drop_first() == b.skip(i + 1));
        i = i + 1;
    }
    false
}

fn place_among(
    tables: &[Item],
    values: &[Option<Item>],
    keys: &[String],
) -> (r: usize)
    requires
        values@.len() == keys@.len(),
        all_sound(crate::document::parts(tables@)),
        all_sound_if_any(opt_parts(values@)),
    ensures
        r <= tables@.len(),
        r == sorted_place(
            crate::document::parts(tables@),
            opt_parts(values@),
            crate::text::texts(keys@),
            0,
        ),
{
    let ghost all = crate::document::parts(tables@);
    let ghost b = opt_parts(values@);
    let ghost names = crate::text::texts(keys@);
    if keys.len() == 0 {
        return tables.len();
    }
    let mut i: usize = 0;
    while i < tables.len()
        invariant
            i <= tables@.len(),
            values@.len() == keys@.len(),
            all_sound(all),
            all_sound_if_any(b),
            names.len() > 0,
            all == crate::document::parts(tables@),
            b == opt_parts(values@),
            names == crate::text::texts(keys@),
            sorted_place(all, b, names, 0) == sorted_place(all, b, names, i as int),
        decreases tables@.len() - i,
    {
        assert(all[i as int] == crate::document::item_part(tables@[i as int]));
        let like = match look(&tables[i]) {
            Look::Table { .. } => true,
            Look::Inline(_) => true,
            _ => false,
        };
        if like && comes_after(&tables[i], values, keys) {
            return i;
        }
        i = i + 1;
    }
    tables.len()
}

fn values_of(table: &Item, keys: &[String]) -> (r: Vec<Option<Item>>)
    requires
        crate::document::item_part(*table).is_sound(),
    ensures
        all_sound_if_any(opt_parts(r@)),
        opt_parts(r@) == sort_values(
            crate::document::item_part(*table),
            crate::text::texts(keys@),
        ),
{
    let ghost all = sort_values(crate::document::item_part(*table), crate::text::texts(keys@));
    let mut out: Vec<Option<Item>> = Vec::new();
    for i in 0..keys.len()
        invariant
            crate::document::item_part(*table).is_sound(),
            all_sound_if_any(opt_parts(out@)),
            all == sort_values(crate::document::item_part(*table), crate::text::texts(keys@)),
            opt_parts(out@) == all.take(i as int),
    {
        let value = match child(table, keys[i].as_str()) {
            Some(item) => Some(copy_item(item)),
            None => None,
        };
        let ghost before = opt_parts(out@);
        out.push(value);
        assert(crate::text::texts(keys@)[i as int] == keys@[i as int]@);
        assert(opt_parts(out@) == before.push(all[i as int]));
        assert(all.take(i + 1) == all.take(i as int).push(all[i as int]));
    }
    assert(all.take(all.len() as int) == all);
    out
}

fn values_of_object(object: &Vec<(String, JsonValue)>, keys: &[String]) -> (r: Vec<Option<Item>>)
    ensures
        all_sound_if_any(opt_parts(r@)),
        opt_parts(r@) == object_values(
            crate::json::object_view(object@),
            crate::text::texts(keys@),
        ),
{
    let ghost all = object_values(crate::json::object_view(object@), crate::text::texts(keys@));
    let mut out: Vec<Option<Item>> = Vec::new();
    for i in 0..keys.len()
        invariant
            all_sound_if_any(opt_parts(out@)),
            all == object_values(crate::json::object_view(object@), crate::text::texts(keys@)),
            opt_parts(out@) == all.take(i as int),
    {
        let value = value_under(object, keys[i].as_str());
        let ghost before = opt_parts(out@);
        out.push(value);
        assert(crate::text::texts(keys@)[i as int] == keys@[i as int]@);
        assert(opt_parts(out@) == before.push(all[i as int]));
        assert(all.take(i + 1) == all.take(i as int).push(all[i as int]));
    }
    assert(all.take(all.len() as int) == all);
    out
}

fn value_under(object: &Vec<(String, JsonValue)>, key: &str) -> (r: Option<Item>)
    ensures
        r matches Some(item) ==> crate::document::item_part(item).is_sound(),
        match r {
            Some(item) => object_value(crate::json::object_view(object@), key@) == Some(
                crate::document::item_part(item),
            ),
            None => object_value(crate::json::object_view(object@), key@) is None,
        },
{
    let ghost all = crate::json::object_view(object@);
    let mut i: usize = 0;
    assert(all.skip(0) == all);
    while i < object.len()
        invariant
            i <= object@.len(),
            all == crate::json::object_view(object@),
            object_get(all, key@) == object_get(all.skip(i as int), key@),
        decreases object@.len() - i,
    {
        assert(all.skip(i as int)[0] == all[i as int]);
        if str_eq(object[i].0.as_str(), key) {
            return json_to_value(key, &object[i].1);
        }
        assert(all.skip(i as int).drop_first() == all.skip(i + 1));
        i = i + 1;
    }
    None
}

// ---------------------------------------------------------------------------
// What the edits do
// ---------------------------------------------------------------------------

/// A document with the table at a path sorted by its keys, where there is one.
pub open spec fn sorted_at(
    root: crate::document::Part,
    path: Seq<Seq<char>>,
) -> crate::document::Part {
    match existing_at(root, path) {
        Some(t) => put_at(root, path, crate::order::sorted_by_key(t)),
        None => root,
    }
}

/// A document with a table set.
pub open spec fn table_set(
    root: crate::document::Part,
    path: Seq<Seq<char>>,
    object: Seq<(Seq<char>, crate::json::Json)>,
    managed: Seq<Seq<char>>,
    replace: bool,
    sort: bool,
) -> crate::document::Part {
    let leaf = leaf_at(root, path);
    let cleared = if replace {
        crate::document::emptied(leaf, crate::document::keys_of(leaf.entries()))
    } else {
        leaf
    };
    let done = put_at(root, path, crate::json::applied(cleared, object, managed));
    if sort && path.len() > 0 {
        sorted_at(done, path.drop_last())
    } else {
        done
    }
}

/// A table with an entry under another key: in the place of an entry that has it
/// already, else at the end.
pub open spec fn renamed(
    t: crate::document::Part,
    old_key: Seq<char>,
    new_key: Seq<char>,
) -> crate::document::Part {
    match t.get(old_key) {
        Some(item) => t.unset(old_key).put(new_key, item),
        None => t,
    }
}

/// A table for each of a list of objects.
pub open spec fn tables_of(objects: Seq<Seq<(Seq<char>, crate::json::Json)>>) -> Seq<
    crate::document::Part,
> {
    objects.map_values(
        |o: Seq<(Seq<char>, crate::json::Json)>|
            crate::json::with_all(crate::document::empty_table(false), o),
    )
}

/// The path of the frames of a protocol.
pub open spec fn section_path(protocol: Seq<char>) -> Seq<Seq<char>> {
    seq!["frame"@, crate::order::stripped(protocol)]
}

/// A document with a frame moved to another key.
pub open spec fn frame_moved(
    root: crate::document::Part,
    section: Seq<Seq<char>>,
    key: Seq<char>,
    rename_from: Option<Seq<char>>,
) -> crate::document::Part {
    match rename_from {
        Some(old_key) => if crate::order::stripped(old_key) != key {
            put_at(
                root,
                section,
                renamed(leaf_at(root, section), crate::order::stripped(old_key), key),
            )
        } else {
            root
        },
        None => root,
    }
}

/// A frame's table with the signals of a new frame, where it has none.
pub open spec fn with_signals(
    frame: crate::document::Part,
    signals: Seq<Seq<(Seq<char>, crate::json::Json)>>,
) -> crate::document::Part {
    if signals.len() > 0 && frame.get("signals"@) is None {
        frame.put("signals"@, crate::document::Part::Tables(tables_of(signals)))
    } else {
        frame
    }
}

/// A document with a frame set.
pub open spec fn frame_set(
    root: crate::document::Part,
    protocol: Seq<char>,
    key: Seq<char>,
    object: Seq<(Seq<char>, crate::json::Json)>,
    managed: Seq<Seq<char>>,
    rename_from: Option<Seq<char>>,
    signals: Seq<Seq<(Seq<char>, crate::json::Json)>>,
) -> crate::document::Part {
    let section = section_path(protocol);
    let new_key = crate::order::stripped(key);
    let moved = frame_moved(root, section, new_key, rename_from);
    let path = section.push(new_key);
    let frame = crate::json::applied(leaf_at(moved, path), object, managed);
    let done = put_at(
        moved,
        path,
        if existing_at(moved, path) is None {
            with_signals(frame, signals)
        } else {
            frame
        },
    );
    if crate::order::stripped(protocol) == "can"@ {
        sorted_at(done, section)
    } else {
        done
    }
}

/// A new table of an array, behind an empty line.
pub open spec fn new_table_part(
    object: Seq<(Seq<char>, crate::json::Json)>,
) -> crate::document::Part {
    crate::json::with_all(crate::document::empty_table(false), object).with_prefix("\n"@)
}

/// An array of tables with one added, or the one at a place changed, at its sorted
/// place.
pub open spec fn tables_with(
    tables: Seq<crate::document::Part>,
    object: Seq<(Seq<char>, crate::json::Json)>,
    index: Option<usize>,
    keys: Seq<Seq<char>>,
) -> Seq<crate::document::Part> {
    if index is Some && index->Some_0 < tables.len() {
        let i = index->Some_0 as int;
        let t = crate::json::applied(
            tables[i],
            object,
            crate::document::keys_of(tables[i].entries()),
        );
        let rest = tables.remove(i);
        rest.insert(sorted_place(rest, sort_values(t, keys), keys, 0), t)
    } else {
        let t = new_table_part(object);
        tables.insert(sorted_place(tables, sort_values(t, keys), keys, 0), t)
    }
}

/// An array of values with one added, or in place of the one at a place, at its
/// sorted place.
pub open spec fn values_with(
    values: Seq<crate::document::Part>,
    object: Seq<(Seq<char>, crate::json::Json)>,
    index: Option<usize>,
    keys: Seq<Seq<char>>,
) -> Seq<crate::document::Part> {
    let rest = if index is Some && index->Some_0 < values.len() {
        values.remove(index->Some_0 as int)
    } else {
        values
    };
    rest.insert(
        sorted_place(rest, object_values(object, keys), keys, 0),
        crate::json::inline_part(object).between(
            if rest.len() > 0 {
                seq![' ']
            } else {
                Seq::empty()
            },
            Seq::empty(),
        ),
    )
}

/// An array with an object added or changed; what is no array gives way to one.
pub open spec fn array_with(
    array: Option<crate::document::Part>,
    object: Seq<(Seq<char>, crate::json::Json)>,
    index: Option<usize>,
    keys: Seq<Seq<char>>,
) -> crate::document::Part {
    match array {
        None => crate::document::Part::Tables(tables_with(Seq::empty(), object, index, keys)),
        Some(crate::document::Part::Tables(tables)) => crate::document::Part::Tables(
            tables_with(tables, object, index, keys),
        ),
        Some(crate::document::Part::Array(values, style)) => crate::document::Part::Array(
            values_with(values, object, index, keys),
            style,
        ),
        Some(_) => crate::document::Part::Tables(
            seq![crate::json::with_all(crate::document::empty_table(false), object)],
        ),
    }
}

/// A document with an object put into an array.
pub open spec fn array_item_set(
    root: crate::document::Part,
    path: Seq<Seq<char>>,
    object: Seq<(Seq<char>, crate::json::Json)>,
    index: Option<usize>,
    keys: Seq<Seq<char>>,
) -> crate::document::Part {
    let owner = leaf_at(root, path.drop_last());
    let key = crate::order::stripped(path.last());
    put_at(
        root,
        path.drop_last(),
        owner.set_or_put(key, array_with(owner.get(key), object, index, keys)),
    )
}

/// Elements without the one at a place, where there is one.
pub open spec fn without_place(
    items: Seq<crate::document::Part>,
    index: usize,
) -> Seq<crate::document::Part> {
    if index < items.len() {
        items.remove(index as int)
    } else {
        items
    }
}

/// A table with an element removed from one of its arrays.
pub open spec fn array_item_removed(
    owner: crate::document::Part,
    key: Seq<char>,
    index: usize,
    remove_if_empty: bool,
) -> crate::document::Part {
    match owner.get(key) {
        Some(crate::document::Part::Tables(items)) => if remove_if_empty && without_place(
            items,
            index,
        ).len() == 0 {
            owner.unset(key)
        } else {
            owner.set(key, crate::document::Part::Tables(without_place(items, index)))
        },
        Some(crate::document::Part::Array(items, style)) => if remove_if_empty && without_place(
            items,
            index,
        ).len() == 0 {
            owner.unset(key)
        } else {
            owner.set(key, crate::document::Part::Array(without_place(items, index), style))
        },
        _ => owner,
    }
}

/// Whether a part is a text.
pub open spec fn is_text(part: Option<crate::document::Part>, text: Seq<char>) -> bool {
    part matches Some(crate::document::Part::Text(s, _)) && s == text
}

/// A frame's table with a reference to a node rewritten.
pub open spec fn reference_rewritten(
    frame: crate::document::Part,
    field: Seq<char>,
    old_name: Seq<char>,
    new_name: Seq<char>,
) -> crate::document::Part {
    if frame is Table && is_text(frame.get(field), old_name) {
        frame.put(field, crate::document::Part::Text(new_name, crate::document::fresh()))
    } else {
        frame
    }
}

/// The frames of a protocol with their references to a node rewritten.
pub open spec fn section_rewritten(
    frames: crate::document::Part,
    protocol: Seq<char>,
    field: Seq<char>,
    old_name: Seq<char>,
    new_name: Seq<char>,
) -> crate::document::Part {
    match frames.get(protocol) {
        Some(section) => if section is Table {
            frames.set(
                protocol,
                section.with(
                    section.entries().map_values(
                        |e: (Seq<char>, crate::document::Part)|
                            (e.0, reference_rewritten(e.1, field, old_name, new_name)),
                    ),
                ),
            )
        } else {
            frames
        },
        None => frames,
    }
}

/// A document with the references of its frames to a node rewritten: CAN frames name
/// it as `transmitter`, Modbus registers as `node`.
pub open spec fn references_rewritten(
    root: crate::document::Part,
    old_name: Seq<char>,
    new_name: Seq<char>,
) -> crate::document::Part {
    match root.get("frame"@) {
        Some(frames) => if frames is Table {
            root.set(
                "frame"@,
                section_rewritten(
                    section_rewritten(frames, "can"@, "transmitter"@, old_name, new_name),
                    "modbus"@,
                    "node"@,
                    old_name,
                    new_name,
                ),
            )
        } else {
            root
        },
        None => root,
    }
}

/// A table with one of its tables changed by an object.
pub open spec fn child_applied(
    t: crate::document::Part,
    key: Seq<char>,
    object: Seq<(Seq<char>, crate::json::Json)>,
    managed: Seq<Seq<char>>,
) -> crate::document::Part {
    match t.get(key) {
        Some(c) => if c is Table {
            t.set(key, crate::json::applied(c, object, managed))
        } else {
            t
        },
        None => t,
    }
}

/// A document without the entry at a path.
pub open spec fn deleted(
    root: crate::document::Part,
    path: Seq<Seq<char>>,
    sort: bool,
) -> crate::document::Part {
    if path.len() == 0 {
        root
    } else {
        let parent = path.drop_last();
        let done = match existing_at(root, parent) {
            Some(t) => put_at(root, parent, t.unset(crate::order::stripped(path.last()))),
            None => root,
        };
        if sort {
            sorted_at(done, parent)
        } else {
            done
        }
    }
}

/// What an edit makes of a document, or the message with which it is refused.
pub open spec fn edited(root: crate::document::Part, op: EditOp) -> Result<
    crate::document::Part,
    Seq<char>,
> {
    match op {
        EditOp::SetTable {
            path,
            value,
            managed_keys,
            replace_contents,
            sort_parent_numeric,
            skip_if_exists,
            error_if_exists,
        } => {
            let keys = crate::text::texts(path@);
            if existing_at(root, keys) is Some && skip_if_exists {
                Ok(root)
            } else if existing_at(root, keys) is Some && error_if_exists {
                Err(
                    "'"@ + (if keys.len() > 0 {
                        keys.last()
                    } else {
                        ""@
                    }) + "' already exists"@,
                )
            } else {
                Ok(
                    table_set(
                        root,
                        keys,
                        crate::json::object_view(value@),
                        crate::text::texts(managed_keys@),
                        replace_contents,
                        sort_parent_numeric,
                    ),
                )
            }
        },
        EditOp::UpsertFrame { protocol, key, value, managed_keys, rename_from, initial_signals } =>
            Ok(
            frame_set(
                root,
                protocol@,
                key@,
                crate::json::object_view(value@),
                crate::text::texts(managed_keys@),
                match rename_from {
                    Some(old_key) => Some(old_key@),
                    None => None,
                },
                objects_view(initial_signals@),
            ),
        ),
        EditOp::UpsertArrayItem { array_path, value, index, sort_keys } => if array_path@.len()
            == 0 {
            Err("empty array_path"@)
        } else {
            Ok(
                array_item_set(
                    root,
                    crate::text::texts(array_path@),
                    crate::json::object_view(value@),
                    index,
                    crate::text::texts(sort_keys@),
                ),
            )
        },
        EditOp::RemoveArrayItem { array_path, index, remove_if_empty } => {
            let keys = crate::text::texts(array_path@);
            if keys.len() == 0 {
                Ok(root)
            } else {
                match existing_at(root, keys.drop_last()) {
                    Some(owner) => Ok(
                        put_at(
                            root,
                            keys.drop_last(),
                            array_item_removed(
                                owner,
                                crate::order::stripped(keys.last()),
                                index,
                                remove_if_empty,
                            ),
                        ),
                    ),
                    None => Ok(root),
                }
            }
        },
        EditOp::RenameKey {
            parent_path,
            old,
            new,
            set_value,
            managed_keys,
            sort_numeric,
            update_transmitter_refs,
            error_if_exists,
        } => key_renamed(
            root,
            crate::text::texts(parent_path@),
            old@,
            new@,
            match set_value {
                Some(value) => Some(crate::json::object_view(value@)),
                None => None,
            },
            crate::text::texts(managed_keys@),
            sort_numeric,
            update_transmitter_refs,
            error_if_exists,
        ),
        EditOp::DeleteAtPath { path, sort_parent_numeric } => Ok(
            deleted(root, crate::text::texts(path@), sort_parent_numeric),
        ),
    }
}

/// A document with a key renamed, or the message with which that is refused.
pub open spec fn key_renamed(
    root: crate::document::Part,
    path: Seq<Seq<char>>,
    old_name: Seq<char>,
    new_name: Seq<char>,
    object: Option<Seq<(Seq<char>, crate::json::Json)>>,
    managed: Seq<Seq<char>>,
    sort: bool,
    update_references: bool,
    error_if_exists: bool,
) -> Result<crate::document::Part, Seq<char>> {
    let old_key = crate::order::stripped(old_name);
    let new_key = crate::order::stripped(new_name);
    let parent = leaf_at(root, path);
    if parent.get(old_key) is None {
        Err("'"@ + old_name + "' not found"@)
    } else if old_key != new_key && error_if_exists && parent.get(new_key) is Some {
        Err("'"@ + new_name + "' already exists"@)
    } else {
        let moved = if old_key != new_key {
            renamed(parent, old_key, new_key)
        } else {
            parent
        };
        let changed = match object {
            Some(o) => child_applied(moved, new_key, o, managed),
            None => moved,
        };
        let done = put_at(root, path, changed);
        let rewritten = if update_references && old_key != new_key {
            references_rewritten(done, old_name, new_name)
        } else {
            done
        };
        Ok(
            if sort {
                sorted_at(rewritten, path)
            } else {
                rewritten
            },
        )
    }
}

/// Objects, as a mathematical value.
pub open spec fn objects_view(objects: Seq<Vec<(String, JsonValue)>>) -> Seq<
    Seq<(Seq<char>, crate::json::Json)>,
> {
    objects.map_values(|o: Vec<(String, JsonValue)>| crate::json::object_view(o@))
}

// ---------------------------------------------------------------------------
// Making the edits
// ---------------------------------------------------------------------------

fn sort_table_numeric(t: &mut Item, path: &[String])
    requires
        crate::document::item_part(*old(t)).is_sound(),
        crate::document::item_part(*old(t)) is Table,
    ensures
        crate::document::item_part(*final(t)) is Table,
        crate::document::item_part(*final(t)).is_sound(),
        crate::document::item_part(*final(t)) == sorted_at(
            crate::document::item_part(*old(t)),
            crate::text::texts(path@),
        ),
{
    assert(crate::text::texts(path@).skip(0) == crate::text::texts(path@));
    if let Some(table) = navigate_existing_mut(t, path, 0) {
        sort_table(table);
    }
}

fn clear_table(t: &mut Item)
    requires
        crate::document::item_part(*old(t)).is_sound(),
        crate::document::item_part(*old(t)) is Table,
    ensures
        crate::document::item_part(*final(t)).is_sound(),
        crate::document::item_part(*final(t)) == crate::document::emptied(
            crate::document::item_part(*old(t)),
            crate::document::keys_of(crate::document::item_part(*old(t)).entries()),
        ),
        crate::document::item_part(*final(t)) is Table,
        crate::document::item_part(*final(t)).entries().len() == 0,
{
    let ghost before = crate::document::item_part(*t);
    let ghost entries = before.entries();
    let keys = table_keys(t);
    assert(entries.skip(0) == entries);
    assert(crate::text::texts(keys@).len() == crate::document::keys_of(entries).len());
    for i in 0..keys.len()
        invariant
            crate::document::item_part(*t).is_sound(),
            before is Table,
            entries == before.entries(),
            keys@.len() == entries.len(),
            crate::text::texts(keys@) == crate::document::keys_of(entries),
            crate::document::item_part(*t) is Table,
            crate::document::item_part(*t).entries() == entries.skip(i as int),
            crate::document::item_part(*t) == crate::document::emptied(
                before,
                crate::document::keys_of(entries).take(i as int),
            ),
    {
        let ghost gone = crate::document::keys_of(entries);
        assert(gone.take(i + 1).drop_last() == gone.take(i as int));
        assert(gone.take(i + 1).last() == gone[i as int]);
        let ghost rest = entries.skip(i as int);
        assert(rest[0] == entries[i as int]);
        assert(crate::text::texts(keys@)[i as int] == keys@[i as int]@);
        assert(crate::document::keys_of(entries)[i as int] == entries[i as int].0);
        proof {
            crate::document::lemma_place_is_first(rest, entries[i as int].0, 0);
        }
        take(t, keys[i].as_str());
        assert(rest.remove(0) == entries.skip(i + 1));
    }
    assert(entries.skip(entries.len() as int) == Seq::<(Seq<char>, crate::document::Part)>::empty());
    assert(crate::document::keys_of(entries).take(entries.len() as int)
        == crate::document::keys_of(entries));
}

fn path_without_last(path: &[String]) -> (r: Vec<String>)
    requires
        path@.len() > 0,
    ensures
        crate::text::texts(r@) == crate::text::texts(path@).drop_last(),
{
    let front = vstd::slice::slice_subrange(path, 0, path.len() - 1);
    let r = copy_texts(front);
    assert(crate::text::texts(front@) == crate::text::texts(path@).drop_last());
    r
}

fn move_frame(t: &mut Item, section: &[String], key: &str, rename_from: &Option<String>)
    requires
        crate::document::item_part(*old(t)).is_sound(),
        crate::document::item_part(*old(t)) is Table,
    ensures
        crate::document::item_part(*final(t)) is Table,
        crate::document::item_part(*final(t)).is_sound(),
        crate::document::item_part(*final(t)) == frame_moved(
            crate::document::item_part(*old(t)),
            crate::text::texts(section@),
            key@,
            match *rename_from {
                Some(old_key) => Some(old_key@),
                None => None,
            },
        ),
        crate::document::item_part(*final(t)) is Table,
{
    if let Some(from) = rename_from {
        let old_key = strip_quotes(from.as_str());
        if !str_eq(old_key.as_str(), key) {
            assert(crate::text::texts(section@).skip(0) == crate::text::texts(section@));
            let frames = navigate_create(t, section, 0);
            rename(frames, old_key.as_str(), key);
        }
    }
}

fn rename(t: &mut Item, old_key: &str, new_key: &str)
    requires
        crate::document::item_part(*old(t)).is_sound(),
        crate::document::item_part(*old(t)) is Table,
    ensures
        crate::document::item_part(*final(t)) is Table,
        crate::document::item_part(*final(t)).is_sound(),
        crate::document::item_part(*final(t)) == renamed(
            crate::document::item_part(*old(t)),
            old_key@,
            new_key@,
        ),
        crate::document::item_part(*final(t)) is Table,
{
    if child(t, old_key).is_some() {
        if let Some(item) = take(t, old_key) {
            put(t, new_key, item);
        }
    }
}

fn tables_item(objects: &Vec<Vec<(String, JsonValue)>>) -> (r: Item)
    ensures
        crate::document::item_part(r).is_sound(),
        crate::document::item_part(r) == crate::document::Part::Tables(
            tables_of(objects_view(objects@)),
        ),
{
    let ghost all = tables_of(objects_view(objects@));
    let mut out = new_tables();
    assert(all.take(0) == Seq::<crate::document::Part>::empty());
    for i in 0..objects.len()
        invariant
            crate::document::item_part(out).is_sound(),
            all == tables_of(objects_view(objects@)),
            crate::document::item_part(out) == crate::document::Part::Tables(all.take(i as int)),
    {
        push_table(&mut out, object_table(&objects[i]));
        assert(objects_view(objects@)[i as int] == crate::json::object_view(objects@[i as int]@));
        assert(all.take(i + 1) == all.take(i as int).push(all[i as int]));
    }
    assert(all.take(all.len() as int) == all);
    out
}

fn table_exists(t: &Item, path: &[String], from: usize) -> (r: bool)
    requires
        crate::document::item_part(*t).is_sound(),
        from <= path@.len(),
    ensures
        r == (existing_at(
            crate::document::item_part(*t),
            crate::text::texts(path@).skip(from as int),
        ) is Some),
    decreases path@.len() - from,
{
    if from == path.len() {
        return true;
    }
    let ghost keys = crate::text::texts(path@).skip(from as int);
    assert(keys[0] == path@[from as int]@);
    assert(keys.drop_first() == crate::text::texts(path@).skip(from + 1));
    let key = strip_quotes(path[from].as_str());
    match child(t, key.as_str()) {
        Some(c) => is_table(Some(c)) && table_exists(c, path, from + 1),
        None => false,
    }
}

fn op_upsert_frame(
    t: &mut Item,
    protocol: &str,
    key: &str,
    value: &Vec<(String, JsonValue)>,
    managed: &[String],
    rename_from: &Option<String>,
    signals: &Vec<Vec<(String, JsonValue)>>,
)
    requires
        crate::document::item_part(*old(t)).is_sound(),
        crate::document::item_part(*old(t)) is Table,
    ensures
        crate::document::item_part(*final(t)) is Table,
        crate::document::item_part(*final(t)).is_sound(),
        crate::document::item_part(*final(t)) == frame_set(
            crate::document::item_part(*old(t)),
            protocol@,
            key@,
            crate::json::object_view(value@),
            crate::text::texts(managed@),
            match *rename_from {
                Some(old_key) => Some(old_key@),
                None => None,
            },
            objects_view(signals@),
        ),
{
    let proto = strip_quotes(protocol);
    let new_key = strip_quotes(key);
    let mut path: Vec<String> = Vec::new();
    path.push(owned("frame"));
    path.push(owned(proto.as_str()));
    assert(crate::text::texts(path@) == section_path(protocol@));
    move_frame(t, path.as_slice(), new_key.as_str(), rename_from);
    let ghost moved = crate::document::item_part(*t);
    path.push(owned(new_key.as_str()));
    assert(crate::text::texts(path@) == section_path(protocol@).push(new_key@));
    assert(crate::text::texts(path@).skip(0) == crate::text::texts(path@));
    let is_new = !table_exists(t, path.as_slice(), 0);
    let frame = navigate_create(t, path.as_slice(), 0);
    apply_object(frame, value, managed);
    if is_new && signals.len() > 0 && child(frame, "signals").is_none() {
        put(frame, "signals", tables_item(signals));
    }
    if str_eq(proto.as_str(), "can") {
        let section = path_without_last(path.as_slice());
        assert(section_path(protocol@).push(new_key@).drop_last() == section_path(protocol@));
        sort_table_numeric(t, section.as_slice());
    }
}

fn copy_elements(array: &Item, count: usize) -> (r: Vec<Item>)
    requires
        crate::document::item_part(*array).is_sound(),
        count == crate::document::item_part(*array).elements().len(),
    ensures
        crate::document::parts(r@) == crate::document::item_part(*array).elements(),
        all_sound(crate::document::parts(r@)),
{
    let ghost all = crate::document::item_part(*array).elements();
    let mut out: Vec<Item> = Vec::new();
    proof {
        lemma_sound_elements(crate::document::item_part(*array));
    }
    for i in 0..count
        invariant
            crate::document::item_part(*array).is_sound(),
            all_sound(all),
            count == all.len(),
            all == crate::document::item_part(*array).elements(),
            crate::document::parts(out@) == all.take(i as int),
    {
        let ghost before = crate::document::parts(out@);
        out.push(copy_item(element(array, i)));
        assert(crate::document::parts(out@) == before.push(all[i as int]));
        assert(all.take(i + 1) == all.take(i as int).push(all[i as int]));
    }
    assert(all.take(all.len() as int) == all);
    out
}

fn upsert_aot(
    array: &mut Item,
    count: usize,
    value: &Vec<(String, JsonValue)>,
    index: Option<usize>,
    keys: &[String],
)
    requires
        crate::document::item_part(*old(array)).is_sound(),
        crate::document::item_part(*old(array)) is Tables,
        count == crate::document::item_part(*old(array)).elements().len(),
        forall|i: int|
            0 <= i < count ==> (#[trigger] crate::document::item_part(*old(array)).elements()[i])
                is Table,
    ensures
        crate::document::item_part(*final(array)).is_sound(),
        crate::document::item_part(*final(array)) == crate::document::Part::Tables(
            tables_with(
                crate::document::item_part(*old(array)).elements(),
                crate::json::object_view(value@),
                index,
                crate::text::texts(keys@),
            ),
        ),
{
    let ghost all = crate::document::item_part(*array).elements();
    let mut tables = copy_elements(array, count);
    assert(tables@.len() == all.len());
    assert(all_sound(all));
    let replaced: Option<usize> = match index {
        Some(i) => if i < tables.len() {
            Some(i)
        } else {
            None
        },
        None => None,
    };
    let new = match replaced {
        Some(i) => {
            assert(crate::document::parts(tables@)[i as int] == all[i as int]);
            let mut t = tables.remove(i);
            assert(crate::document::parts(tables@) == all.remove(i as int));
            assert(crate::document::item_part(t) == all[i as int]);
            let existing = table_keys(&t);
            apply_object(&mut t, value, existing.as_slice());
            t
        },
        None => {
            let mut t = object_table(value);
            set_prefix(&mut t, "\n");
            t
        },
    };
    let ghost rest = crate::document::parts(tables@);
    let ghost part = crate::document::item_part(new);
    assert(all_sound(rest));
    let values = values_of(&new, keys);
    assert(opt_parts(values@).len() == keys@.len());
    let at: usize = place_among(tables.as_slice(), values.as_slice(), keys);
    tables.insert(at, new);
    assert(crate::document::parts(tables@) == rest.insert(at as int, part));
    assert forall|i: int| 0 <= i < tables@.len() implies crate::document::item_part(
        #[trigger] tables@[i],
    ) is Table && crate::document::item_part(tables@[i]).is_sound() by {
        assert(crate::document::parts(tables@)[i] == crate::document::item_part(tables@[i]));
    }
    clear_tables(array);
    refill(array, tables);
}

fn refill(array: &mut Item, tables: Vec<Item>)
    requires
        crate::document::item_part(*old(array)).is_sound(),
        crate::document::item_part(*old(array)) == crate::document::Part::Tables(Seq::empty()),
        forall|i: int|
            0 <= i < tables@.len() ==> crate::document::item_part(#[trigger] tables@[i]) is Table
                && crate::document::item_part(tables@[i]).is_sound(),
    ensures
        crate::document::item_part(*final(array)).is_sound(),
        crate::document::item_part(*final(array)) == crate::document::Part::Tables(
            crate::document::parts(tables@),
        ),
{
    let ghost all = crate::document::parts(tables@);
    let mut left = tables;
    assert(all.take(0) == Seq::<crate::document::Part>::empty());
    assert(all.skip(0) == all);
    let ghost mut done: int = 0;
    while left.len() > 0
        invariant
            crate::document::item_part(*array).is_sound(),
            0 <= done <= all.len(),
            left@.len() == all.len() - done,
            crate::document::parts(left@) == all.skip(done),
            forall|i: int|
                0 <= i < left@.len() ==> crate::document::item_part(#[trigger] left@[i]) is Table
                    && crate::document::item_part(left@[i]).is_sound(),
            crate::document::item_part(*array) == crate::document::Part::Tables(all.take(done)),
        decreases left@.len(),
    {
        let ghost before = crate::document::parts(left@);
        assert(before[0] == all[done]);
        let t = left.remove(0);
        assert(crate::document::parts(left@) == before.remove(0));
        assert(before.remove(0) == all.skip(done + 1));
        push_table(array, t);
        assert(all.take(done + 1) == all.take(done).push(all[done]));
        proof {
            done = done + 1;
        }
    }
    assert(all.take(all.len() as int) == all);
}

fn upsert_inline(
    array: &mut Item,
    count: usize,
    value: &Vec<(String, JsonValue)>,
    index: Option<usize>,
    keys: &[String],
)
    requires
        crate::document::item_part(*old(array)).is_sound(),
        crate::document::item_part(*old(array)) is Array,
        count == crate::document::item_part(*old(array)).elements().len(),
    ensures
        crate::document::item_part(*final(array)).is_sound(),
        crate::document::item_part(*final(array)) == crate::document::Part::Array(
            values_with(
                crate::document::item_part(*old(array)).elements(),
                crate::json::object_view(value@),
                index,
                crate::text::texts(keys@),
            ),
            crate::document::item_part(*old(array)).style(),
        ),
{
    let mut left: usize = count;
    if let Some(i) = index {
        if i < count {
            remove_value(array, i);
            left = count - 1;
        }
    }
    let others = copy_elements(array, left);
    let values = values_of_object(value, keys);
    assert(opt_parts(values@).len() == keys@.len());
    let at: usize = place_among(others.as_slice(), values.as_slice(), keys);
    assert(crate::document::parts(others@).len() == others@.len());
    insert_value(array, at, build_inline_table(value));
}

fn op_upsert_array_item(
    t: &mut Item,
    path: &[String],
    value: &Vec<(String, JsonValue)>,
    index: Option<usize>,
    keys: &[String],
)
    requires
        crate::document::item_part(*old(t)).is_sound(),
        path@.len() > 0,
        crate::document::item_part(*old(t)) is Table,
    ensures
        crate::document::item_part(*final(t)) is Table,
        crate::document::item_part(*final(t)).is_sound(),
        crate::document::item_part(*final(t)) == array_item_set(
            crate::document::item_part(*old(t)),
            crate::text::texts(path@),
            crate::json::object_view(value@),
            index,
            crate::text::texts(keys@),
        ),
{
    let owner_path = path_without_last(path);
    let key = strip_quotes(path[path.len() - 1].as_str());
    assert(crate::text::texts(path@).last() == path@.last()@);
    assert(crate::text::texts(owner_path@).skip(0) == crate::text::texts(owner_path@));
    let owner = navigate_create(t, owner_path.as_slice(), 0);
    let ghost before = crate::document::item_part(*owner);
    if child(owner, key.as_str()).is_none() {
        put(owner, key.as_str(), new_tables());
    }
    proof {
        crate::document::lemma_set_again(
            before,
            key@,
            crate::document::Part::Tables(Seq::empty()),
            array_with(
                before.get(key@),
                crate::json::object_view(value@),
                index,
                crate::text::texts(keys@),
            ),
        );
    }
    if let Some(slot) = child_mut(owner, key.as_str()) {
        match look(slot) {
            Look::Tables(count) => upsert_aot(slot, count, value, index, keys),
            Look::Array(count) => upsert_inline(slot, count, value, index, keys),
            _ => {
                let mut tables = new_tables();
                push_table(&mut tables, object_table(value));
                assert(Seq::<crate::document::Part>::empty().push(
                    crate::json::with_all(
                        crate::document::empty_table(false),
                        crate::json::object_view(value@),
                    ),
                ) == seq![
                    crate::json::with_all(
                        crate::document::empty_table(false),
                        crate::json::object_view(value@),
                    ),
                ]);
                *slot = tables;
            },
        }
    }
}

fn remove_array_item(owner: &mut Item, key: &str, index: usize, remove_if_empty: bool)
    requires
        crate::document::item_part(*old(owner)).is_sound(),
        crate::document::item_part(*old(owner)) is Table,
    ensures
        crate::document::item_part(*final(owner)) is Table,
        crate::document::item_part(*final(owner)).is_sound(),
        crate::document::item_part(*final(owner)) == array_item_removed(
            crate::document::item_part(*old(owner)),
            key@,
            index,
            remove_if_empty,
        ),
{
    let ghost before = crate::document::item_part(*owner);
    let mut empty = false;
    proof {
        crate::document::lemma_set_same(before, key@);
    }
    if let Some(slot) = child_mut(owner, key) {
        match look(slot) {
            Look::Tables(count) => {
                if index < count {
                    remove_table(slot, index);
                }
                empty = count == 0 || (count == 1 && index < count);
            },
            Look::Array(count) => {
                if index < count {
                    remove_value(slot, index);
                }
                empty = count == 0 || (count == 1 && index < count);
            },
            _ => {},
        }
    }
    if remove_if_empty && empty {
        proof {
            if let Some(part) = before.get(key@) {
                crate::document::lemma_set_unset(
                    before,
                    key@,
                    crate::document::Part::Tables(without_place(part.elements(), index)),
                );
                crate::document::lemma_set_unset(
                    before,
                    key@,
                    crate::document::Part::Array(
                        without_place(part.elements(), index),
                        part.style(),
                    ),
                );
            }
        }
        take(owner, key);
    }
}

fn rewrite_reference(frame: &mut Item, field: &str, old_name: &str, new_name: &str)
    requires
        crate::document::item_part(*old(frame)).is_sound(),
    ensures
        crate::document::item_part(*final(frame)).is_sound(),
        crate::document::item_part(*final(frame)) == reference_rewritten(
            crate::document::item_part(*old(frame)),
            field@,
            old_name@,
            new_name@,
        ),
{
    if is_table(Some(frame)) {
        let refers = match child(frame, field) {
            Some(value) => match look(value) {
                Look::Text(s) => str_eq(s.as_str(), old_name),
                _ => false,
            },
            None => false,
        };
        if refers {
            put(frame, field, text_item(new_name));
        }
    }
}

/// A table with its first entries changed one by one, and the others as they are.
pub open spec fn partly(
    before: Seq<(Seq<char>, crate::document::Part)>,
    after: Seq<(Seq<char>, crate::document::Part)>,
    done: int,
) -> Seq<(Seq<char>, crate::document::Part)> {
    after.take(done) + before.skip(done)
}

/// Setting the next entry of a table that is changed entry by entry.
pub proof fn lemma_partly(
    before: Seq<(Seq<char>, crate::document::Part)>,
    after: Seq<(Seq<char>, crate::document::Part)>,
    i: int,
)
    requires
        0 <= i < before.len(),
        after.len() == before.len(),
        forall|j: int| 0 <= j < before.len() ==> (#[trigger] after[j]).0 == before[j].0,
        crate::document::keys_of(before).no_duplicates(),
    ensures
        crate::document::key_place(partly(before, after, i), before[i].0, 0) == Some(i),
        partly(before, after, i)[i] == before[i],
        crate::document::with_entry(partly(before, after, i), before[i].0, after[i].1) == partly(
            before,
            after,
            i + 1,
        ),
        crate::document::keys_of(partly(before, after, i)) == crate::document::keys_of(before),
{
    let now = partly(before, after, i);
    assert forall|j: int| 0 <= j < before.len() implies (#[trigger] now[j]).0 == before[j].0 by {
        if j < i {
            assert(now[j] == after[j]);
        } else {
            assert(now[j] == before[j]);
        }
    }
    assert(crate::document::keys_of(now) =~= crate::document::keys_of(before));
    crate::document::lemma_distinct_place(now, i);
    assert(now.update(i, (before[i].0, after[i].1)) =~= partly(before, after, i + 1)) by {
        assert(after[i] == (before[i].0, after[i].1));
    }
}

fn rewrite_section(
    frames: &mut Item,
    protocol: &str,
    field: &str,
    old_name: &str,
    new_name: &str,
)
    requires
        crate::document::item_part(*old(frames)).is_sound(),
        crate::document::item_part(*old(frames)) is Table,
    ensures
        crate::document::item_part(*final(frames)) is Table,
        crate::document::item_part(*final(frames)).is_sound(),
        crate::document::item_part(*final(frames)) == section_rewritten(
            crate::document::item_part(*old(frames)),
            protocol@,
            field@,
            old_name@,
            new_name@,
        ),
{
    proof {
        crate::document::lemma_set_same(crate::document::item_part(*frames), protocol@);
    }
    if let Some(section) = child_mut(frames, protocol) {
        if is_table(Some(section)) {
            rewrite_ref_field(section, field, old_name, new_name);
        }
    }
}

fn rewrite_ref_field(section: &mut Item, field: &str, old_name: &str, new_name: &str)
    requires
        crate::document::item_part(*old(section)).is_sound(),
        crate::document::item_part(*old(section)) is Table,
    ensures
        crate::document::item_part(*final(section)) is Table,
        crate::document::item_part(*final(section)).is_sound(),
        crate::document::item_part(*final(section)) == crate::document::item_part(
            *old(section),
        ).with(
            crate::document::item_part(*old(section)).entries().map_values(
                |e: (Seq<char>, crate::document::Part)|
                    (e.0, reference_rewritten(e.1, field@, old_name@, new_name@)),
            ),
        ),
{
    let ghost before = crate::document::item_part(*section);
    let ghost entries = before.entries();
    let ghost after = entries.map_values(
        |e: (Seq<char>, crate::document::Part)|
            (e.0, reference_rewritten(e.1, field@, old_name@, new_name@)),
    );
    let keys = table_keys(section);
    assert(crate::text::texts(keys@).len() == crate::document::keys_of(entries).len());
    assert(partly(entries, after, 0) == entries);
    for i in 0..keys.len()
        invariant
            crate::document::item_part(*section).is_sound(),
            before is Table,
            entries == before.entries(),
            after == entries.map_values(
                |e: (Seq<char>, crate::document::Part)|
                    (e.0, reference_rewritten(e.1, field@, old_name@, new_name@)),
            ),
            keys@.len() == entries.len(),
            crate::text::texts(keys@) == crate::document::keys_of(entries),
            crate::document::keys_of(entries).no_duplicates(),
            crate::document::item_part(*section) == before.with(
                partly(entries, after, i as int),
            ),
    {
        assert(crate::text::texts(keys@)[i as int] == keys@[i as int]@);
        assert(crate::document::keys_of(entries)[i as int] == entries[i as int].0);
        proof {
            lemma_partly(entries, after, i as int);
        }
        if let Some(frame) = child_mut(section, keys[i].as_str()) {
            rewrite_reference(frame, field, old_name, new_name);
        }
    }
    assert(partly(entries, after, entries.len() as int) == after);
}

fn update_transmitter_references(t: &mut Item, old_name: &str, new_name: &str)
    requires
        crate::document::item_part(*old(t)).is_sound(),
        crate::document::item_part(*old(t)) is Table,
    ensures
        crate::document::item_part(*final(t)) is Table,
        crate::document::item_part(*final(t)).is_sound(),
        crate::document::item_part(*final(t)) == references_rewritten(
            crate::document::item_part(*old(t)),
            old_name@,
            new_name@,
        ),
{
    proof {
        crate::document::lemma_set_same(crate::document::item_part(*t), "frame"@);
    }
    if let Some(frames) = child_mut(t, "frame") {
        if is_table(Some(frames)) {
            rewrite_section(frames, "can", "transmitter", old_name, new_name);
            rewrite_section(frames, "modbus", "node", old_name, new_name);
        }
    }
}

fn op_rename_key(
    t: &mut Item,
    path: &[String],
    old_name: &str,
    new_name: &str,
    set_value: &Option<Vec<(String, JsonValue)>>,
    managed: &[String],
    sort: bool,
    update_references: bool,
    error_if_exists: bool,
) -> (r: Result<(), String>)
    requires
        crate::document::item_part(*old(t)).is_sound(),
        crate::document::item_part(*old(t)) is Table,
    ensures
        crate::document::item_part(*final(t)) is Table,
        crate::document::item_part(*final(t)).is_sound(),
        match key_renamed(
            crate::document::item_part(*old(t)),
            crate::text::texts(path@),
            old_name@,
            new_name@,
            match *set_value {
                Some(value) => Some(crate::json::object_view(value@)),
                None => None,
            },
            crate::text::texts(managed@),
            sort,
            update_references,
            error_if_exists,
        ) {
            Ok(part) => r is Ok && crate::document::item_part(*final(t)) == part,
            Err(message) => r matches Err(m) && m@ == message && crate::document::item_part(
                *final(t),
            ) == put_at(
                crate::document::item_part(*old(t)),
                crate::text::texts(path@),
                leaf_at(crate::document::item_part(*old(t)), crate::text::texts(path@)),
            ),
        },
{
    let old_key = strip_quotes(old_name);
    let new_key = strip_quotes(new_name);
    let differ = !str_eq(old_key.as_str(), new_key.as_str());
    assert(crate::text::texts(path@).skip(0) == crate::text::texts(path@));
    let parent = navigate_create(t, path, 0);
    if child(parent, old_key.as_str()).is_none() {
        return Err(cat3("'", old_name, "' not found"));
    }
    if differ {
        if error_if_exists && child(parent, new_key.as_str()).is_some() {
            return Err(cat3("'", new_name, "' already exists"));
        }
        rename(parent, old_key.as_str(), new_key.as_str());
    }
    if let Some(value) = set_value {
        proof {
            crate::document::lemma_set_same(crate::document::item_part(*parent), new_key@);
        }
        if let Some(c) = child_mut(parent, new_key.as_str()) {
            if is_table(Some(c)) {
                apply_object(c, value, managed);
            }
        }
    }
    if update_references && differ {
        update_transmitter_references(t, old_name, new_name);
    }
    if sort {
        sort_table_numeric(t, path);
    }
    Ok(())
}

fn set_table(
    t: &mut Item,
    path: &[String],
    value: &Vec<(String, JsonValue)>,
    managed: &[String],
    replace: bool,
    sort: bool,
)
    requires
        crate::document::item_part(*old(t)).is_sound(),
        crate::document::item_part(*old(t)) is Table,
    ensures
        crate::document::item_part(*final(t)) is Table,
        crate::document::item_part(*final(t)).is_sound(),
        crate::document::item_part(*final(t)) == table_set(
            crate::document::item_part(*old(t)),
            crate::text::texts(path@),
            crate::json::object_view(value@),
            crate::text::texts(managed@),
            replace,
            sort,
        ),
{
    assert(crate::text::texts(path@).skip(0) == crate::text::texts(path@));
    let table = navigate_create(t, path, 0);
    if replace {
        clear_table(table);
    }
    apply_object(table, value, managed);
    if sort && path.len() > 0 {
        let parent = path_without_last(path);
        sort_table_numeric(t, parent.as_slice());
    }
}

fn delete_at(t: &mut Item, path: &[String], sort: bool)
    requires
        crate::document::item_part(*old(t)).is_sound(),
        crate::document::item_part(*old(t)) is Table,
    ensures
        crate::document::item_part(*final(t)) is Table,
        crate::document::item_part(*final(t)).is_sound(),
        crate::document::item_part(*final(t)) == deleted(
            crate::document::item_part(*old(t)),
            crate::text::texts(path@),
            sort,
        ),
{
    if path.len() > 0 {
        let parent = path_without_last(path);
        let key = strip_quotes(path[path.len() - 1].as_str());
        assert(crate::text::texts(path@).last() == path@.last()@);
        assert(crate::text::texts(parent@).skip(0) == crate::text::texts(parent@));
        if let Some(table) = navigate_existing_mut(t, parent.as_slice(), 0) {
            take(table, key.as_str());
        }
        if sort {
            sort_table_numeric(t, parent.as_slice());
        }
    }
}

/// What a refused edit leaves of a document: a refused renaming has made the tables on
/// the way, others have changed nothing.
pub open spec fn refused(root: crate::document::Part, op: EditOp) -> crate::document::Part {
    match op {
        EditOp::RenameKey { parent_path, .. } => put_at(
            root,
            crate::text::texts(parent_path@),
            leaf_at(root, crate::text::texts(parent_path@)),
        ),
        _ => root,
    }
}

/// Makes one edit on a document.
pub fn edit_document(doc: &mut DocumentMut, op: &EditOp) -> (r: Result<(), String>)
    requires
        crate::document::document_part(*old(doc)) is Table,
        crate::document::document_part(*old(doc)).is_sound(),
    ensures
        crate::document::document_part(*final(doc)) is Table,
        crate::document::document_part(*final(doc)).is_sound(),
        match edited(crate::document::document_part(*old(doc)), *op) {
            Ok(part) => r is Ok && crate::document::document_part(*final(doc)) == part,
            Err(message) => r matches Err(m) && m@ == message && crate::document::document_part(
                *final(doc),
            ) == refused(crate::document::document_part(*old(doc)), *op),
        },
        crate::document::document_tail(*final(doc)) == crate::document::document_tail(*old(doc)),
{
    match op {
        EditOp::SetTable {
            path,
            value,
            managed_keys,
            replace_contents,
            sort_parent_numeric,
            skip_if_exists,
            error_if_exists,
        } => {
            assert(crate::text::texts(path@).skip(0) == crate::text::texts(path@));
            let found = table_exists(root(doc), path.as_slice(), 0);
            if found && *skip_if_exists {
                return Ok(());
            }
            if found && *error_if_exists {
                let name = if path.len() > 0 {
                    path[path.len() - 1].as_str()
                } else {
                    ""
                };
                return Err(cat3("'", name, "' already exists"));
            }
            set_table(
                root_mut(doc),
                path.as_slice(),
                value,
                managed_keys.as_slice(),
                *replace_contents,
                *sort_parent_numeric,
            );
            Ok(())
        },
        EditOp::UpsertFrame { protocol, key, value, managed_keys, rename_from, initial_signals } =>
        {
            op_upsert_frame(
                root_mut(doc),
                protocol.as_str(),
                key.as_str(),
                value,
                managed_keys.as_slice(),
                rename_from,
                initial_signals,
            );
            Ok(())
        },
        EditOp::UpsertArrayItem { array_path, value, index, sort_keys } => {
            if array_path.len() == 0 {
                return Err(owned("empty array_path"));
            }
            op_upsert_array_item(
                root_mut(doc),
                array_path.as_slice(),
                value,
                *index,
                sort_keys.as_slice(),
            );
            Ok(())
        },
        EditOp::RemoveArrayItem { array_path, index, remove_if_empty } => {
            if array_path.len() > 0 {
                let parent = path_without_last(array_path.as_slice());
                let key = strip_quotes(array_path[array_path.len() - 1].as_str());
                assert(crate::text::texts(array_path@).last() == array_path@.last()@);
                assert(crate::text::texts(parent@).skip(0) == crate::text::texts(parent@));
                if let Some(owner) = navigate_existing_mut(root_mut(doc), parent.as_slice(), 0) {
                    remove_array_item(owner, key.as_str(), *index, *remove_if_empty);
                }
            }
            Ok(())
        },
        EditOp::RenameKey {
            parent_path,
            old,
            new,
            set_value,
            managed_keys,
            sort_numeric,
            update_transmitter_refs,
            error_if_exists,
        } => op_rename_key(
            root_mut(doc),
            parent_path.as_slice(),
            old.as_str(),
            new.as_str(),
            set_value,
            managed_keys.as_slice(),
            *sort_numeric,
            *update_transmitter_refs,
            *error_if_exists,
        ),
        EditOp::DeleteAtPath { path, sort_parent_numeric } => {
            delete_at(root_mut(doc), path.as_slice(), *sort_parent_numeric);
            Ok(())
        },
    }
}

/// What an edit makes of a parsed catalogue, with the end of its text, or the message
/// with which it is refused.
pub open spec fn edit_outcome(
    parsed: Result<(crate::document::Part, Seq<char>), Seq<char>>,
    op: EditOp,
) -> Result<(crate::document::Part, Seq<char>), Seq<char>> {
    match parsed {
        Ok((root, tail)) => match edited(root, op) {
            Ok(part) => Ok((part, tail)),
            Err(message) => Err(message),
        },
        Err(message) => Err("catalogue is not valid TOML: "@ + message),
    }
}

/// Makes one edit on a catalogue's text. What the edit does not name stays as it is
/// written, comments and formatting included.
pub fn apply_edit(text: &str, op: EditOp) -> (r: Result<String, String>)
    ensures
        match edit_outcome(crate::document::editable_document(text@), op) {
            Ok((part, tail)) => r matches Ok(t) && t@ == crate::document::document_text(part, tail),
            Err(message) => r matches Err(m) && m@ == message,
        },
{
    match parse_editable(text) {
        Ok(doc) => {
            let mut doc = doc;
            match edit_document(&mut doc, &op) {
                Ok(()) => Ok(write_document(&doc)),
                Err(message) => Err(message),
            }
        },
        Err(message) => Err(cat2("catalogue is not valid TOML: ", message.as_str())),
    }
}

// ---------------------------------------------------------------------------
// Laws
// ---------------------------------------------------------------------------

/// What an edit puts at a path is found there.
pub proof fn law_edits_reach_their_table(
    root: crate::document::Part,
    path: Seq<Seq<char>>,
    leaf: crate::document::Part,
)
    requires
        root is Table,
        leaf is Table,
    ensures
        existing_at(put_at(root, path, leaf), path) == Some(leaf),
        put_at(root, path, leaf) is Table,
    decreases path.len(),
{
    if path.len() > 0 {
        let key = crate::order::stripped(path[0]);
        let c = crate::json::child_or_new(root, key, path.len() > 1);
        law_edits_reach_their_table(c, path.drop_first(), leaf);
        let inner = put_at(c, path.drop_first(), leaf);
        crate::document::lemma_set_again(root, key, inner, inner);
    }
}

/// An edit at one path leaves the tables at every path that branches off it, the way
/// they are written included, and makes none there.
pub proof fn law_edits_leave_other_tables(
    root: crate::document::Part,
    path: Seq<Seq<char>>,
    leaf: crate::document::Part,
    other: Seq<Seq<char>>,
    branch: int,
)
    requires
        root is Table,
        leaf is Table,
        0 <= branch < path.len(),
        branch < other.len(),
        forall|i: int|
            0 <= i < branch ==> crate::order::stripped(#[trigger] path[i])
                == crate::order::stripped(other[i]),
        crate::order::stripped(path[branch]) != crate::order::stripped(other[branch]),
    ensures
        existing_at(put_at(root, path, leaf), other) == existing_at(root, other),
    decreases path.len(),
{
    let key = crate::order::stripped(path[0]);
    let c = crate::json::child_or_new(root, key, path.len() > 1);
    let inner = put_at(c, path.drop_first(), leaf);
    law_edits_reach_their_table(c, path.drop_first(), leaf);
    if branch == 0 {
        crate::document::lemma_get_other(root, key, inner, crate::order::stripped(other[0]));
    } else {
        assert(crate::order::stripped(path[0]) == crate::order::stripped(other[0]));
        let p = path.drop_first();
        let q = other.drop_first();
        assert forall|i: int| 0 <= i < branch - 1 implies crate::order::stripped(#[trigger] p[i])
            == crate::order::stripped(q[i]) by {
            assert(p[i] == path[i + 1] && q[i] == other[i + 1]);
        }
        assert(p[branch - 1] == path[branch] && q[branch - 1] == other[branch]);
        law_edits_leave_other_tables(c, p, leaf, q, branch - 1);
        crate::document::lemma_set_again(root, key, inner, inner);
        if c == crate::document::empty_table(path.len() > 1) {
            assert(existing_at(c, q) is None);
        }
    }
}

/// A renamed entry is found under its new key alone, and the others stay.
pub proof fn law_renaming_carries_the_entry(
    t: crate::document::Part,
    old_key: Seq<char>,
    new_key: Seq<char>,
)
    requires
        t.is_table_like(),
        crate::document::keys_of(t.entries()).no_duplicates(),
        old_key != new_key,
        t.get(old_key) is Some,
    ensures
        renamed(t, old_key, new_key).get(new_key) == t.get(old_key),
        renamed(t, old_key, new_key).get(old_key) is None,
        forall|other: Seq<char>|
            other != old_key && other != new_key ==> #[trigger] renamed(t, old_key, new_key).get(
                other,
            ) == t.get(other),
{
    let item = t.get(old_key)->Some_0;
    let left = t.unset(old_key);
    crate::document::lemma_unset(t, old_key);
    crate::document::lemma_set_again(left, new_key, item, item);
    crate::document::lemma_get_other(left, new_key, item, old_key);
    assert forall|other: Seq<char>| other != old_key && other != new_key implies #[trigger] renamed(
        t,
        old_key,
        new_key,
    ).get(other) == t.get(other) by {
        crate::document::lemma_get_other(left, new_key, item, other);
    }
}

/// After a node is renamed, no frame names it by its old name, and every frame is
/// still there.
pub proof fn law_renamed_nodes_are_not_referenced(
    frames: crate::document::Part,
    protocol: Seq<char>,
    field: Seq<char>,
    old_name: Seq<char>,
    new_name: Seq<char>,
)
    requires
        frames is Table,
        old_name != new_name,
        frames.get(protocol) matches Some(section) && section is Table,
    ensures
        section_rewritten(frames, protocol, field, old_name, new_name).get(protocol) matches Some(
            after,
        ) && crate::document::keys_of(after.entries()) == crate::document::keys_of(
            frames.get(protocol)->Some_0.entries(),
        ) && forall|i: int|
            0 <= i < after.entries().len() && (#[trigger] after.entries()[i]).1 is Table
                ==> !is_text(after.entries()[i].1.get(field), old_name),
{
    let section = frames.get(protocol)->Some_0;
    let entries = section.entries();
    let after = section.with(
        entries.map_values(
            |e: (Seq<char>, crate::document::Part)|
                (e.0, reference_rewritten(e.1, field, old_name, new_name)),
        ),
    );
    crate::document::lemma_set_again(frames, protocol, after, after);
    assert(crate::document::keys_of(after.entries()) =~= crate::document::keys_of(entries));
    assert forall|i: int|
        0 <= i < after.entries().len() && (
        #[trigger] after.entries()[i]).1 is Table implies !is_text(
        after.entries()[i].1.get(field),
        old_name,
    ) by {
        let e = entries[i];
        assert(after.entries()[i] == (e.0, reference_rewritten(e.1, field, old_name, new_name)));
        if e.1 is Table {
            crate::document::lemma_set_again(
                e.1,
                field,
                crate::document::Part::Text(new_name, crate::document::fresh()),
                crate::document::Part::Text(new_name, crate::document::fresh()),
            );
        }
    }
}

/// A deleted entry is gone, and the other entries of its table stay.
pub proof fn law_deleted_entries_are_gone(root: crate::document::Part, path: Seq<Seq<char>>)
    requires
        root is Table,
        path.len() > 0,
        existing_at(root, path.drop_last()) matches Some(t) && t is Table
            && crate::document::keys_of(t.entries()).no_duplicates(),
    ensures
        existing_at(deleted(root, path, false), path.drop_last()) matches Some(after) && after.get(
            crate::order::stripped(path.last()),
        ) is None && forall|other: Seq<char>|
            other != crate::order::stripped(path.last()) ==> #[trigger] after.get(other)
                == existing_at(root, path.drop_last())->Some_0.get(other),
{
    let t = existing_at(root, path.drop_last())->Some_0;
    let key = crate::order::stripped(path.last());
    crate::document::lemma_unset(t, key);
    law_edits_reach_their_table(root, path.drop_last(), t.unset(key));
}

/// A new table goes behind every table that does not come after it, up to the first
/// that does; the others keep their order.
pub proof fn law_new_tables_go_to_their_place(
    tables: Seq<crate::document::Part>,
    object: Seq<(Seq<char>, crate::json::Json)>,
    keys: Seq<Seq<char>>,
)
    requires
        keys.len() > 0,
        forall|i: int| 0 <= i < tables.len() ==> (#[trigger] tables[i]) is Table,
    ensures
        ({
            let t = new_table_part(object);
            let values = sort_values(t, keys);
            let at = sorted_place(tables, values, keys, 0);
            &&& 0 <= at <= tables.len()
            &&& tables_with(tables, object, None, keys) == tables.insert(at, t)
            &&& forall|i: int|
                0 <= i < at ==> !values_after(sort_values(#[trigger] tables[i], keys), values)
            &&& at < tables.len() ==> values_after(sort_values(tables[at], keys), values)
        }),
{
    let t = new_table_part(object);
    lemma_sorted_place(tables, sort_values(t, keys), keys, 0);
}

proof fn lemma_sorted_place(
    tables: Seq<crate::document::Part>,
    values: Seq<Option<crate::document::Part>>,
    keys: Seq<Seq<char>>,
    from: int,
)
    requires
        keys.len() > 0,
        0 <= from <= tables.len(),
        forall|i: int| 0 <= i < tables.len() ==> (#[trigger] tables[i]) is Table,
    ensures
        ({
            let at = sorted_place(tables, values, keys, from);
            &&& from <= at <= tables.len()
            &&& forall|i: int|
                from <= i < at ==> !values_after(sort_values(#[trigger] tables[i], keys), values)
            &&& at < tables.len() ==> values_after(sort_values(tables[at], keys), values)
        }),
    decreases tables.len() - from,
{
    if from < tables.len() && !values_after(sort_values(tables[from], keys), values) {
        lemma_sorted_place(tables, values, keys, from + 1);
    }
}

/// A truth value, a text or an integer that is set is held. Setting one that is held
/// already changes nothing, nor the way it is written.
pub proof fn law_set_scalars_are_held(
    t: crate::document::Part,
    key: Seq<char>,
    json: crate::json::Json,
)
    requires
        t is Table,
        json is Bool || json is Text || json is Integer,
    ensures
        crate::json::with_json(t, key, json).get(key) matches Some(part)
            && crate::json::is_same_scalar(part, json),
        crate::json::with_json(crate::json::with_json(t, key, json), key, json)
            == crate::json::with_json(t, key, json),
        t.get(key) matches Some(part) ==> crate::json::is_same_scalar(part, json)
            ==> crate::json::with_json(t, key, json) == t,
{
    let value = crate::json::value_part(key, json)->Some_0;
    crate::document::lemma_set_again(t, key, value, value);
}

proof fn lemma_with_json_leaves(
    t: crate::document::Part,
    at: Seq<char>,
    json: crate::json::Json,
    key: Seq<char>,
)
    requires
        t is Table,
        crate::document::keys_of(t.entries()).no_duplicates(),
        at != key,
    ensures
        crate::json::with_json(t, at, json) is Table,
        crate::document::keys_of(
            crate::json::with_json(t, at, json).entries(),
        ).no_duplicates(),
        crate::json::with_json(t, at, json).get(key) == t.get(key),
        crate::json::with_json(t, at, json).mark(key) == t.mark(key),
{
    let now = crate::json::with_json(t, at, json);
    crate::document::lemma_unset(t, at);
    if now != t && now != t.unset(at) {
        let value = match json {
            crate::json::Json::Object(object) => {
                let c = crate::json::child_or_new(t, at, false);
                crate::json::with_all(
                    crate::json::dropped(c, object, crate::document::keys_of(c.entries())),
                    object,
                )
            },
            crate::json::Json::Array(items) => crate::json::array_part(items),
            _ => crate::json::value_part(at, json)->Some_0,
        };
        assert(now == t.set(at, value) || now == t.put(at, value));
        crate::document::lemma_get_other(t, at, value, key);
        crate::document::lemma_set_distinct(t, at, value);
    }
}

proof fn lemma_with_all_leaves(
    t: crate::document::Part,
    object: Seq<(Seq<char>, crate::json::Json)>,
    key: Seq<char>,
)
    requires
        t is Table,
        crate::document::keys_of(t.entries()).no_duplicates(),
        !crate::json::has_key(object, key),
    ensures
        crate::json::with_all(t, object) is Table,
        crate::document::keys_of(crate::json::with_all(t, object).entries()).no_duplicates(),
        crate::json::with_all(t, object).get(key) == t.get(key),
        crate::json::with_all(t, object).mark(key) == t.mark(key),
    decreases object.len(),
{
    if object.len() > 0 {
        let front = object.drop_last();
        assert forall|i: int| 0 <= i < front.len() implies (#[trigger] front[i]).0 != key by {
            assert(front[i] == object[i]);
        }
        lemma_with_all_leaves(t, front, key);
        let e = object[object.len() - 1];
        lemma_with_json_leaves(crate::json::with_all(t, front), e.0, e.1, key);
    }
}

proof fn lemma_dropped_leaves(
    t: crate::document::Part,
    object: Seq<(Seq<char>, crate::json::Json)>,
    managed: Seq<Seq<char>>,
    key: Seq<char>,
)
    requires
        t is Table,
        crate::document::keys_of(t.entries()).no_duplicates(),
        !crate::json::has_key(object, key),
    ensures
        crate::json::dropped(t, object, managed) is Table,
        crate::document::keys_of(
            crate::json::dropped(t, object, managed).entries(),
        ).no_duplicates(),
        crate::json::dropped(t, object, managed).get(key) == if managed.contains(key) {
            None
        } else {
            t.get(key)
        },
        !managed.contains(key) ==> crate::json::dropped(t, object, managed).mark(key) == t.mark(
            key,
        ),
    decreases managed.len(),
{
    if managed.len() > 0 {
        let front = managed.drop_last();
        lemma_dropped_leaves(t, object, front, key);
        crate::document::lemma_unset(crate::json::dropped(t, object, front), managed.last());
        assert(managed == front.push(managed.last()));
        if managed.contains(key) && managed.last() != key {
            let i = choose|i: int| 0 <= i < managed.len() && managed[i] == key;
            assert(front[i] == key);
        }
        if front.contains(key) {
            let i = choose|i: int| 0 <= i < front.len() && front[i] == key;
            assert(managed[i] == key);
        }
        if managed.last() == key {
            assert(managed[managed.len() - 1] == key);
        }
    }
}

proof fn lemma_leaf_exists(root: crate::document::Part, path: Seq<Seq<char>>)
    requires
        existing_at(root, path) is Some,
    ensures
        existing_at(root, path) == Some(leaf_at(root, path)),
    decreases path.len(),
{
    if path.len() > 0 {
        let key = crate::order::stripped(path[0]);
        lemma_leaf_exists(root.get(key)->Some_0, path.drop_first());
    }
}

/// Setting entries of a table leaves those that are not named, its sub-tables among
/// them: what they hold and how they and their keys are written, comments included.
/// A managed entry that is not set is gone.
pub proof fn law_unnamed_entries_stay(
    root: crate::document::Part,
    path: Seq<Seq<char>>,
    object: Seq<(Seq<char>, crate::json::Json)>,
    managed: Seq<Seq<char>>,
    key: Seq<char>,
)
    requires
        root is Table,
        existing_at(root, path) matches Some(t) && t is Table && crate::document::keys_of(
            t.entries(),
        ).no_duplicates(),
        !crate::json::has_key(object, key),
    ensures
        existing_at(table_set(root, path, object, managed, false, false), path) matches Some(after)
            && after.get(key) == (if managed.contains(key) {
            None
        } else {
            existing_at(root, path)->Some_0.get(key)
        }) && (!managed.contains(key) ==> after.mark(key) == existing_at(root, path)->Some_0.mark(
            key,
        )),
{
    let t = existing_at(root, path)->Some_0;
    lemma_leaf_exists(root, path);
    lemma_dropped_leaves(t, object, managed, key);
    lemma_with_all_leaves(crate::json::dropped(t, object, managed), object, key);
    law_edits_reach_their_table(root, path, crate::json::applied(t, object, managed));
}

/// Removing an element of an array, of tables or of values, leaves one element less:
/// those before it in their places, those behind it one place further to the front, the
/// way they are written included. An array left empty goes where that is asked for, and
/// stays, empty, where it is not. A place behind the end removes nothing. The other
/// entries of the table stay.
pub proof fn law_removed_elements_leave_the_rest(
    root: crate::document::Part,
    array_path: Vec<String>,
    index: usize,
    remove_if_empty: bool,
)
    requires
        root is Table,
        array_path@.len() > 0,
        existing_at(root, crate::text::texts(array_path@).drop_last()) matches Some(owner) && (
        owner is Table && crate::document::keys_of(owner.entries()).no_duplicates() && (owner.get(
            crate::order::stripped(array_path@.last()@),
        ) matches Some(array) && (array is Tables || array is Array))),
    ensures
        ({
            let path = crate::text::texts(array_path@).drop_last();
            let key = crate::order::stripped(array_path@.last()@);
            let owner = existing_at(root, path)->Some_0;
            let array = owner.get(key)->Some_0;
            let n = array.elements().len();
            &&& edited(
                root,
                EditOp::RemoveArrayItem { array_path, index, remove_if_empty },
            ) matches Ok(after)
            &&& existing_at(after, path) matches Some(now)
            &&& forall|other: Seq<char>|
                other != key ==> #[trigger] now.get(other) == owner.get(other)
            &&& remove_if_empty && (n == 0 || n == 1 && index == 0) ==> now.get(key) is None
            &&& !(remove_if_empty && (n == 0 || n == 1 && index == 0)) ==> {
                &&& now.get(key) matches Some(left)
                &&& left is Tables <==> array is Tables
                &&& left.style() == array.style()
                &&& index < n ==> left.elements().len() == n - 1
                &&& index >= n ==> left.elements().len() == n
                &&& forall|k: int|
                    0 <= k < left.elements().len() ==> #[trigger] left.elements()[k]
                        == array.elements()[if k < index {
                        k
                    } else {
                        k + 1
                    }]
            }
        }),
{
    let keys = crate::text::texts(array_path@);
    let path = keys.drop_last();
    let key = crate::order::stripped(keys.last());
    let owner = existing_at(root, path)->Some_0;
    let array = owner.get(key)->Some_0;
    let done = array_item_removed(owner, key, index, remove_if_empty);
    let left = if array is Tables {
        crate::document::Part::Tables(without_place(array.elements(), index))
    } else {
        crate::document::Part::Array(without_place(array.elements(), index), array.style())
    };
    crate::document::lemma_unset(owner, key);
    crate::document::lemma_set_again(owner, key, left, left);
    assert forall|other: Seq<char>| other != key implies #[trigger] owner.set(key, left).get(other)
        == owner.get(other) by {
        crate::document::lemma_get_other(owner, key, left, other);
    }
    law_edits_reach_their_table(root, path, done);
}

/// Whether what a table holds is what a JSON value says: nothing for `null`, and the same
/// truth value, text or integer, however it is written.
pub open spec fn is_held(part: Option<crate::document::Part>, json: crate::json::Json) -> bool {
    match json {
        crate::json::Json::Null => part is None,
        crate::json::Json::Bool(b) => part matches Some(crate::document::Part::Boolean(held, _))
            && held == b,
        crate::json::Json::Text(s) => part matches Some(crate::document::Part::Text(held, _))
            && held == s,
        crate::json::Json::Integer(i) => part matches Some(
            crate::document::Part::Integer { value, .. },
        ) && value == i,
        _ => true,
    }
}

/// Whether a table holds the plain entries of an object: of each key what its last entry
/// says.
pub open spec fn holds_entries(
    t: crate::document::Part,
    object: Seq<(Seq<char>, crate::json::Json)>,
) -> bool {
    forall|i: int|
        0 <= i < object.len() && (forall|j: int|
            i < j < object.len() ==> (#[trigger] object[j]).0 != object[i].0) ==> is_held(
            t.get((#[trigger] object[i]).0),
            object[i].1,
        )
}

proof fn lemma_with_json_is_held(
    t: crate::document::Part,
    key: Seq<char>,
    json: crate::json::Json,
)
    requires
        t is Table,
        crate::document::keys_of(t.entries()).no_duplicates(),
    ensures
        crate::json::with_json(t, key, json) is Table,
        crate::document::keys_of(crate::json::with_json(t, key, json).entries()).no_duplicates(),
        is_held(crate::json::with_json(t, key, json).get(key), json),
{
    crate::document::lemma_unset(t, key);
    let value = match json {
        crate::json::Json::Object(object) => {
            let c = crate::json::child_or_new(t, key, false);
            crate::json::with_all(
                crate::json::dropped(c, object, crate::document::keys_of(c.entries())),
                object,
            )
        },
        crate::json::Json::Array(items) => crate::json::array_part(items),
        _ => crate::json::value_part(key, json)->Some_0,
    };
    crate::document::lemma_set_again(t, key, value, value);
    crate::document::lemma_set_distinct(t, key, value);
}

proof fn lemma_with_all_holds(
    t: crate::document::Part,
    object: Seq<(Seq<char>, crate::json::Json)>,
)
    requires
        t is Table,
        crate::document::keys_of(t.entries()).no_duplicates(),
    ensures
        crate::json::with_all(t, object) is Table,
        crate::document::keys_of(crate::json::with_all(t, object).entries()).no_duplicates(),
        holds_entries(crate::json::with_all(t, object), object),
    decreases object.len(),
{
    if object.len() > 0 {
        let front = object.drop_last();
        let before = crate::json::with_all(t, front);
        let now = crate::json::with_all(t, object);
        let e = object[object.len() - 1];
        lemma_with_all_holds(t, front);
        lemma_with_json_is_held(before, e.0, e.1);
        assert forall|i: int|
            0 <= i < object.len() && (forall|j: int|
                i < j < object.len() ==> (#[trigger] object[j]).0 != object[i].0) implies is_held(
            now.get((#[trigger] object[i]).0),
            object[i].1,
        ) by {
            if i < front.len() {
                assert(front[i] == object[i]);
                assert forall|j: int| i < j < front.len() implies (#[trigger] front[j]).0
                    != front[i].0 by {
                    assert(front[j] == object[j]);
                }
                assert(is_held(before.get(front[i].0), front[i].1));
                assert(object[object.len() - 1].0 != object[i].0);
                lemma_with_json_leaves(before, e.0, e.1, object[i].0);
            }
        }
    }
}

proof fn lemma_dropped_stays(
    t: crate::document::Part,
    object: Seq<(Seq<char>, crate::json::Json)>,
    managed: Seq<Seq<char>>,
)
    requires
        t is Table,
        crate::document::keys_of(t.entries()).no_duplicates(),
    ensures
        crate::json::dropped(t, object, managed) is Table,
        crate::document::keys_of(
            crate::json::dropped(t, object, managed).entries(),
        ).no_duplicates(),
    decreases managed.len(),
{
    if managed.len() > 0 {
        lemma_dropped_stays(t, object, managed.drop_last());
        crate::document::lemma_unset(
            crate::json::dropped(t, object, managed.drop_last()),
            managed.last(),
        );
    }
}

proof fn lemma_applied_holds(
    t: crate::document::Part,
    object: Seq<(Seq<char>, crate::json::Json)>,
    managed: Seq<Seq<char>>,
)
    requires
        t is Table,
        crate::document::keys_of(t.entries()).no_duplicates(),
    ensures
        crate::json::applied(t, object, managed) is Table,
        crate::document::keys_of(crate::json::applied(t, object, managed).entries()).no_duplicates(),
        holds_entries(crate::json::applied(t, object, managed), object),
{
    lemma_dropped_stays(t, object, managed);
    lemma_with_all_holds(crate::json::dropped(t, object, managed), object);
}

proof fn lemma_emptied_stays(t: crate::document::Part, keys: Seq<Seq<char>>, key: Seq<char>)
    requires
        t is Table,
        crate::document::keys_of(t.entries()).no_duplicates(),
    ensures
        crate::document::emptied(t, keys) is Table,
        crate::document::keys_of(crate::document::emptied(t, keys).entries()).no_duplicates(),
        keys.contains(key) ==> crate::document::emptied(t, keys).get(key) is None,
        t.get(key) is None ==> crate::document::emptied(t, keys).get(key) is None,
    decreases keys.len(),
{
    if keys.len() > 0 {
        let front = keys.drop_last();
        lemma_emptied_stays(t, front, key);
        crate::document::lemma_unset(crate::document::emptied(t, front), keys.last());
        if keys.contains(key) && keys.last() != key {
            let i = choose|i: int| 0 <= i < keys.len() && keys[i] == key;
            assert(front[i] == key);
        }
    }
}

/// Setting a table makes it hold the entries that are set, whether it was there or not.
/// One that is replaced holds nothing else. One that is there is left alone where it is
/// to be skipped, and is an error where that is asked for.
pub proof fn law_set_tables_hold_their_entries(
    root: crate::document::Part,
    path: Vec<String>,
    value: Vec<(String, JsonValue)>,
    managed_keys: Vec<String>,
    replace_contents: bool,
    skip_if_exists: bool,
    error_if_exists: bool,
    key: Seq<char>,
)
    requires
        root is Table,
        leaf_at(root, crate::text::texts(path@)) is Table,
        crate::document::keys_of(
            leaf_at(root, crate::text::texts(path@)).entries(),
        ).no_duplicates(),
    ensures
        ({
            let keys = crate::text::texts(path@);
            let object = crate::json::object_view(value@);
            let there = existing_at(root, keys) is Some;
            let r = edited(
                root,
                EditOp::SetTable {
                    path,
                    value,
                    managed_keys,
                    replace_contents,
                    sort_parent_numeric: false,
                    skip_if_exists,
                    error_if_exists,
                },
            );
            &&& there && skip_if_exists ==> r == Ok::<crate::document::Part, Seq<char>>(root)
            &&& there && !skip_if_exists && error_if_exists ==> r is Err
            &&& !there || !skip_if_exists && !error_if_exists ==> {
                &&& r matches Ok(after)
                &&& existing_at(after, keys) matches Some(t)
                &&& holds_entries(t, object)
                &&& replace_contents && !crate::json::has_key(object, key) ==> t.get(key) is None
            }
        }),
{
    let keys = crate::text::texts(path@);
    let object = crate::json::object_view(value@);
    let managed = crate::text::texts(managed_keys@);
    let leaf = leaf_at(root, keys);
    let held = crate::document::keys_of(leaf.entries());
    lemma_emptied_stays(leaf, held, key);
    let cleared = if replace_contents {
        crate::document::emptied(leaf, held)
    } else {
        leaf
    };
    lemma_applied_holds(cleared, object, managed);
    law_edits_reach_their_table(root, keys, crate::json::applied(cleared, object, managed));
    if replace_contents && !crate::json::has_key(object, key) {
        crate::document::lemma_key_place(leaf.entries(), key, 0);
        if let Some(i) = crate::document::key_place(leaf.entries(), key, 0) {
            assert(held[i] == key);
        }
        lemma_dropped_leaves(cleared, object, managed, key);
        lemma_with_all_leaves(crate::json::dropped(cleared, object, managed), object, key);
    }
}

/// A frame that is set holds the entries that are set, under its key in the section of
/// its protocol. A new one gets the signals it starts with, a table for each; one that
/// was there keeps its own.
pub proof fn law_set_frames_hold_their_entries(
    root: crate::document::Part,
    protocol: String,
    key: String,
    value: Vec<(String, JsonValue)>,
    managed_keys: Vec<String>,
    initial_signals: Vec<Vec<(String, JsonValue)>>,
    i: int,
)
    requires
        root is Table,
        crate::order::stripped(protocol@) != "can"@,
        leaf_at(root, section_path(protocol@).push(crate::order::stripped(key@))) is Table,
        crate::document::keys_of(
            leaf_at(root, section_path(protocol@).push(crate::order::stripped(key@))).entries(),
        ).no_duplicates(),
        !crate::json::has_key(crate::json::object_view(value@), "signals"@),
    ensures
        ({
            let path = seq![
                "frame"@,
                crate::order::stripped(protocol@),
                crate::order::stripped(key@),
            ];
            let object = crate::json::object_view(value@);
            let before = existing_at(root, path);
            let r = edited(
                root,
                EditOp::UpsertFrame {
                    protocol,
                    key,
                    value,
                    managed_keys,
                    rename_from: None,
                    initial_signals,
                },
            );
            &&& r matches Ok(after)
            &&& existing_at(after, path) matches Some(t)
            &&& holds_entries(t, object)
            &&& before is None && initial_signals@.len() > 0 ==> {
                &&& t.get("signals"@) matches Some(crate::document::Part::Tables(tables))
                &&& tables.len() == initial_signals@.len()
                &&& 0 <= i < tables.len() ==> holds_entries(
                    tables[i],
                    crate::json::object_view(initial_signals@[i]@),
                )
            }
            &&& before is Some && !crate::text::texts(managed_keys@).contains("signals"@) ==> t.get(
                "signals"@,
            ) == before->Some_0.get("signals"@)
        }),
{
    let path = section_path(protocol@).push(crate::order::stripped(key@));
    let object = crate::json::object_view(value@);
    let managed = crate::text::texts(managed_keys@);
    let signals = objects_view(initial_signals@);
    let leaf = leaf_at(root, path);
    assert(path =~= seq!["frame"@, crate::order::stripped(protocol@), crate::order::stripped(key@)]);
    let frame = crate::json::applied(leaf, object, managed);
    lemma_applied_holds(leaf, object, managed);
    lemma_dropped_leaves(leaf, object, managed, "signals"@);
    lemma_with_all_leaves(crate::json::dropped(leaf, object, managed), object, "signals"@);
    let done = if existing_at(root, path) is None {
        with_signals(frame, signals)
    } else {
        lemma_leaf_exists(root, path);
        frame
    };
    let tables = crate::document::Part::Tables(tables_of(signals));
    crate::document::lemma_set_again(frame, "signals"@, tables, tables);
    assert forall|k: int|
        0 <= k < object.len() && (forall|j: int|
            k < j < object.len() ==> (#[trigger] object[j]).0 != object[k].0) implies is_held(
        done.get((#[trigger] object[k]).0),
        object[k].1,
    ) by {
        assert(is_held(frame.get(object[k].0), object[k].1));
        assert(object[k].0 != "signals"@);
        crate::document::lemma_get_other(frame, "signals"@, tables, object[k].0);
    }
    law_edits_reach_their_table(root, path, done);
    if existing_at(root, path) is None && signals.len() > 0 {
        lemma_new_leaf(root, path, "signals"@);
        if 0 <= i < signals.len() {
            let empty = crate::document::empty_table(false);
            assert(crate::document::keys_of(empty.entries()) =~= Seq::empty());
            lemma_with_all_holds(empty, signals[i]);
        }
    }
}

proof fn lemma_new_leaf(root: crate::document::Part, path: Seq<Seq<char>>, key: Seq<char>)
    requires
        path.len() > 0,
        existing_at(root, path) is None,
    ensures
        leaf_at(root, path) is Table,
        leaf_at(root, path).get(key) is None,
    decreases path.len(),
{
    let c = crate::json::child_or_new(root, crate::order::stripped(path[0]), path.len() > 1);
    if path.len() > 1 {
        if existing_at(c, path.drop_first()) is Some {
            assert(c == crate::document::empty_table(true));
            assert(existing_at(c, path.drop_first()) is None);
        }
        lemma_new_leaf(c, path.drop_first(), key);
    } else {
        assert(leaf_at(c, path.drop_first()) == c);
    }
}

proof fn lemma_sorted_place_within(
    tables: Seq<crate::document::Part>,
    values: Seq<Option<crate::document::Part>>,
    keys: Seq<Seq<char>>,
    from: int,
)
    requires
        0 <= from <= tables.len(),
    ensures
        from <= sorted_place(tables, values, keys, from) <= tables.len(),
        keys.len() == 0 ==> sorted_place(tables, values, keys, from) == tables.len(),
    decreases tables.len() - from,
{
    if keys.len() > 0 && from < tables.len() {
        lemma_sorted_place_within(tables, values, keys, from + 1);
    }
}

/// Whether one list is another with one element put in.
pub open spec fn gains(
    after: Seq<crate::document::Part>,
    before: Seq<crate::document::Part>,
    at: int,
) -> bool {
    0 <= at < after.len() && after.remove(at) == before
}

proof fn lemma_tables_with(
    tables: Seq<crate::document::Part>,
    object: Seq<(Seq<char>, crate::json::Json)>,
    index: Option<usize>,
    keys: Seq<Seq<char>>,
    key: Seq<char>,
) -> (at: int)
    requires
        forall|i: int|
            0 <= i < tables.len() ==> (#[trigger] tables[i]) is Table && crate::document::keys_of(
                tables[i].entries(),
            ).no_duplicates(),
    ensures
        ({
            let now = tables_with(tables, object, index, keys);
            let place = index is Some && index->Some_0 < tables.len();
            let rest = if place {
                tables.remove(index->Some_0 as int)
            } else {
                tables
            };
            &&& gains(now, rest, at)
            &&& holds_entries(now[at], object)
            &&& keys.len() == 0 ==> at == now.len() - 1
            &&& place && !crate::json::has_key(object, key) ==> now[at].get(key) is None
        }),
{
    let place = index is Some && index->Some_0 < tables.len();
    let i = index->Some_0 as int;
    let rest = if place {
        tables.remove(i)
    } else {
        tables
    };
    let empty = crate::document::empty_table(false);
    assert(crate::document::keys_of(empty.entries()) =~= Seq::empty());
    lemma_with_all_holds(empty, object);
    let t = if place {
        crate::json::applied(tables[i], object, crate::document::keys_of(tables[i].entries()))
    } else {
        new_table_part(object)
    };
    if place {
        let held = crate::document::keys_of(tables[i].entries());
        lemma_applied_holds(tables[i], object, held);
        if !crate::json::has_key(object, key) {
            lemma_dropped_leaves(tables[i], object, held, key);
            lemma_with_all_leaves(crate::json::dropped(tables[i], object, held), object, key);
            crate::document::lemma_key_place(tables[i].entries(), key, 0);
            if let Some(k) = crate::document::key_place(tables[i].entries(), key, 0) {
                assert(held[k] == key);
            }
        }
    } else {
        let plain = crate::json::with_all(empty, object);
        assert(t.entries() == plain.entries());
        assert forall|k: int|
            0 <= k < object.len() && (forall|j: int|
                k < j < object.len() ==> (#[trigger] object[j]).0 != object[k].0) implies is_held(
            t.get((#[trigger] object[k]).0),
            object[k].1,
        ) by {
            assert(is_held(plain.get(object[k].0), object[k].1));
        }
    }
    assert(holds_entries(t, object));
    let values = crate::edit::sort_values(t, keys);
    let at = sorted_place(rest, values, keys, 0);
    lemma_sorted_place_within(rest, values, keys, 0);
    let now = rest.insert(at, t);
    assert(now.remove(at) =~= rest);
    assert(now[at] == t);
    assert(gains(now, rest, at));
    at
}

/// Whether one array of tables is another with a table put in at a place, or, where a
/// place of the other is named, with the table there out and one put in: one that holds
/// the entries of an object, and, in the latter case, no others. Without sort keys it is
/// the last.
pub open spec fn is_upserted(
    after: Seq<crate::document::Part>,
    before: Seq<crate::document::Part>,
    object: Seq<(Seq<char>, crate::json::Json)>,
    index: Option<usize>,
    sort_keys: nat,
    key: Seq<char>,
    at: int,
) -> bool {
    let swaps = index is Some && index->Some_0 < before.len();
    &&& swaps ==> gains(after, before.remove(index->Some_0 as int), at)
    &&& !swaps ==> gains(after, before, at)
    &&& holds_entries(after[at], object)
    &&& sort_keys == 0 ==> at == after.len() - 1
    &&& swaps && !crate::json::has_key(object, key) ==> after[at].get(key) is None
}

/// Putting an object into an array of tables without naming a place adds one table, which
/// holds the object's entries, and leaves the others in their order; without sort keys it
/// comes last. Naming the place of a table changes that one instead, which then holds
/// the object's entries and no others, and leaves the rest in their order.
pub proof fn law_upserted_tables_hold_their_entries(
    root: crate::document::Part,
    array_path: Vec<String>,
    value: Vec<(String, JsonValue)>,
    index: Option<usize>,
    sort_keys: Vec<String>,
    key: Seq<char>,
)
    requires
        root is Table,
        array_path@.len() > 0,
        leaf_at(root, crate::text::texts(array_path@).drop_last()) is Table,
        leaf_at(root, crate::text::texts(array_path@).drop_last()).get(
            crate::order::stripped(array_path@.last()@),
        ) matches Some(crate::document::Part::Tables(tables)) && forall|i: int|
            0 <= i < tables.len() ==> (#[trigger] tables[i]) is Table && crate::document::keys_of(
                tables[i].entries(),
            ).no_duplicates(),
    ensures
        ({
            let path = crate::text::texts(array_path@).drop_last();
            let name = crate::order::stripped(array_path@.last()@);
            let object = crate::json::object_view(value@);
            let tables = leaf_at(root, path).get(name)->Some_0->Tables_0;
            let r = edited(
                root,
                EditOp::UpsertArrayItem { array_path, value, index, sort_keys },
            );
            &&& r matches Ok(after)
            &&& existing_at(after, path) matches Some(owner)
            &&& owner.get(name) matches Some(crate::document::Part::Tables(now))
            &&& exists|at: int|
                #[trigger] is_upserted(now, tables, object, index, sort_keys@.len(), key, at)
        }),
{
    let path = crate::text::texts(array_path@).drop_last();
    let name = crate::order::stripped(array_path@.last()@);
    let object = crate::json::object_view(value@);
    let keys = crate::text::texts(sort_keys@);
    let owner = leaf_at(root, path);
    let tables = owner.get(name)->Some_0->Tables_0;
    let at = lemma_tables_with(tables, object, index, keys, key);
    let now = tables_with(tables, object, index, keys);
    assert(is_upserted(now, tables, object, index, sort_keys@.len(), key, at));
    let array = crate::document::Part::Tables(now);
    assert(array_with(owner.get(name), object, index, keys) == array);
    crate::document::lemma_set_again(owner, name, array, array);
    assert(crate::text::texts(array_path@).last() == array_path@.last()@);
    let done = owner.set_or_put(name, array);
    assert(done.get(name) == Some(array));
    law_edits_reach_their_table(root, path, done);
    let r = edited(root, EditOp::UpsertArrayItem { array_path, value, index, sort_keys });
    assert(r == Ok::<crate::document::Part, Seq<char>>(put_at(root, path, done)));
    assert(existing_at(r->Ok_0, path) == Some(done));
    let after = r->Ok_0;
    assert(r is Ok);
    let held = existing_at(after, path)->Some_0;
    assert(held.get(name) == Some(array));
    assert(held.get(name)->Some_0 is Tables);
    assert(is_upserted(
        held.get(name)->Some_0->Tables_0,
        tables,
        object,
        index,
        sort_keys@.len(),
        key,
        at,
    ));
}

/// An array of tables that is sorted by an integer under one key is still sorted after
/// an object with an integer under that key is put in.
pub proof fn law_sorted_tables_stay_sorted(
    tables: Seq<crate::document::Part>,
    object: Seq<(Seq<char>, crate::json::Json)>,
    key: Seq<char>,
    a: int,
    b: int,
)
    requires
        forall|i: int|
            0 <= i < tables.len() ==> (#[trigger] tables[i]) is Table && (tables[i].get(key) matches
                Some(crate::document::Part::Integer { .. })),
        forall|i: int, j: int|
            0 <= i < j < tables.len() ==> (#[trigger] tables[i]).get(key)->Some_0->value <= (
            #[trigger] tables[j]).get(key)->Some_0->value,
        new_table_part(object).get(key) matches Some(crate::document::Part::Integer { .. }),
        0 <= a < b <= tables.len(),
    ensures
        tables_with(tables, object, None, seq![key]).len() == tables.len() + 1,
        tables_with(tables, object, None, seq![key])[a].get(key)->Some_0->value <= tables_with(
            tables,
            object,
            None,
            seq![key],
        )[b].get(key)->Some_0->value,
{
    let keys = seq![key];
    let t = new_table_part(object);
    let values = crate::edit::sort_values(t, keys);
    let at = sorted_place(tables, values, keys, 0);
    lemma_sorted_place(tables, values, keys, 0);
    assert forall|i: int| 0 <= i < tables.len() implies values_after(
        crate::edit::sort_values(#[trigger] tables[i], keys),
        values,
    ) == (tables[i].get(key)->Some_0->value > t.get(key)->Some_0->value) by {
        let own = crate::edit::sort_values(tables[i], keys);
        assert(own[0] == tables[i].get(key) && values[0] == t.get(key));
        assert(own.drop_first().len() == 0);
        assert(!values_after(own.drop_first(), values.drop_first()));
    }
    let now = tables.insert(at, t);
    if a < at && b == at {
        assert(!values_after(crate::edit::sort_values(tables[a], keys), values));
    }
    if a == at {
        assert(now[b] == tables[b - 1]);
        if b - 1 > at {
            assert(tables[at].get(key)->Some_0->value <= tables[b - 1].get(key)->Some_0->value);
        }
    }
}

/// A renaming is refused where there is nothing under the old key, and, where that is
/// asked for, where there is something under the new one. Else the entry is found under
/// its new key and not under its old one, and the other entries of the table stay.
pub proof fn law_renaming_moves_the_entry(
    root: crate::document::Part,
    parent_path: Vec<String>,
    old_name: String,
    new_name: String,
    managed_keys: Vec<String>,
    error_if_exists: bool,
    other: Seq<char>,
)
    requires
        root is Table,
        leaf_at(root, crate::text::texts(parent_path@)) is Table,
        crate::document::keys_of(
            leaf_at(root, crate::text::texts(parent_path@)).entries(),
        ).no_duplicates(),
        crate::order::stripped(old_name@) != crate::order::stripped(new_name@),
    ensures
        ({
            let path = crate::text::texts(parent_path@);
            let before = leaf_at(root, path);
            let a = crate::order::stripped(old_name@);
            let b = crate::order::stripped(new_name@);
            let r = edited(
                root,
                EditOp::RenameKey {
                    parent_path,
                    old: old_name,
                    new: new_name,
                    set_value: None,
                    managed_keys,
                    sort_numeric: false,
                    update_transmitter_refs: false,
                    error_if_exists,
                },
            );
            &&& r is Err <==> before.get(a) is None || error_if_exists && before.get(b) is Some
            &&& r matches Ok(after) ==> {
                &&& existing_at(after, path) matches Some(now)
                &&& now.get(b) == before.get(a)
                &&& now.get(a) is None
                &&& other != a && other != b ==> now.get(other) == before.get(other)
            }
        }),
{
    let path = crate::text::texts(parent_path@);
    let before = leaf_at(root, path);
    let a = crate::order::stripped(old_name@);
    let b = crate::order::stripped(new_name@);
    if before.get(a) is Some {
        law_renaming_carries_the_entry(before, a, b);
        let item = before.get(a)->Some_0;
        crate::document::lemma_unset(before, a);
        law_edits_reach_their_table(root, path, renamed(before, a, b));
    }
}

} // verus!
