//! Upgrades of a catalogue's text to the current form, keeping its comments and
//! formatting.
//!
//! Reading a catalogue upgrades older forms in memory; this makes the same upgrades
//! in the text, so that they can be shown and saved.

use crate::catalog::slave_node_name;
use crate::document::{
    child, child_mut, integer_item, look, new_table, parse_editable, put, root, root_mut, take,
    write_document, Look,
};
use crate::json::{is_table, table_keys};
use crate::text::{cat2, cat3, owned, push_decimal, str_eq};
use toml_edit::{DocumentMut, Item};
use vstd::prelude::*;

verus! {

/// What upgrading a catalogue's text gives.
#[derive(Debug)]
pub struct Migration {
    /// Whether anything was changed.
    pub changed: bool,
    /// The upgraded text; the text itself where nothing was changed.
    pub toml: String,
    /// What was changed, line by line.
    pub summary: Vec<String>,
}

/// A decimal integer.
pub open spec fn integer(n: i64) -> crate::document::Part {
    crate::document::Part::Integer { value: n, hex: false, style: crate::document::fresh() }
}

/// The table a table holds under a key.
pub open spec fn table_at(t: crate::document::Part, key: Seq<char>) -> Option<
    crate::document::Part,
> {
    match t.get(key) {
        Some(c) => if c is Table {
            Some(c)
        } else {
            None
        },
        None => None,
    }
}

/// The table two keys lead to.
pub open spec fn table_under(
    t: crate::document::Part,
    outer: Seq<char>,
    inner: Seq<char>,
) -> Option<crate::document::Part> {
    match table_at(t, outer) {
        Some(c) => table_at(c, inner),
        None => None,
    }
}

/// A table with the table that two keys lead to replaced.
pub open spec fn put_under(
    t: crate::document::Part,
    outer: Seq<char>,
    inner: Seq<char>,
    value: crate::document::Part,
) -> crate::document::Part {
    match table_at(t, outer) {
        Some(c) => t.set(outer, c.set(inner, value)),
        None => t,
    }
}

// ---------------------------------------------------------------------------
// Slave nodes
// ---------------------------------------------------------------------------

/// Whether entries hold a frame.
pub open spec fn has_frame(entries: Seq<(Seq<char>, crate::document::Part)>) -> bool {
    exists|i: int| 0 <= i < entries.len() && (#[trigger] entries[i]).0 != "config"@
}

/// Whether a catalogue holds Modbus registers but no nodes.
pub open spec fn lacks_nodes(root: crate::document::Part) -> bool {
    &&& table_under(root, "frame"@, "modbus"@) matches Some(section) && has_frame(section.entries())
    &&& match table_at(root, "node"@) {
        Some(nodes) => nodes.entries().len() == 0,
        None => true,
    }
}

/// The device address of a catalogue without nodes; 1 where it gives none.
pub open spec fn legacy_address(root: crate::document::Part) -> u8 {
    match table_under(root, "meta"@, "modbus"@) {
        Some(meta) => match meta.get("device_address"@) {
            Some(crate::document::Part::Integer { value, .. }) => if 0 <= value <= 255 {
                value as u8
            } else {
                1
            },
            _ => 1,
        },
        None => 1,
    }
}

/// Whether an entry is a register without a node's address.
pub open spec fn is_untagged(e: (Seq<char>, crate::document::Part)) -> bool {
    e.0 != "config"@ && e.1 is Table && e.1.get("node_address"@) is None
}

/// An entry with a node's address, where it is a register without one.
pub open spec fn tagged(e: (Seq<char>, crate::document::Part), address: u8) -> (
    Seq<char>,
    crate::document::Part,
) {
    if is_untagged(e) {
        (e.0, e.1.put("node_address"@, integer(address as i64)))
    } else {
        e
    }
}

/// Registers with a node's address.
pub open spec fn all_tagged(entries: Seq<(Seq<char>, crate::document::Part)>, address: u8) -> Seq<
    (Seq<char>, crate::document::Part),
> {
    entries.map_values(|e: (Seq<char>, crate::document::Part)| tagged(e, address))
}

/// How many registers have no node's address.
pub open spec fn untagged_count(entries: Seq<(Seq<char>, crate::document::Part)>) -> nat
    decreases entries.len(),
{
    if entries.len() == 0 {
        0
    } else {
        untagged_count(entries.drop_last()) + if is_untagged(entries.last()) {
            1nat
        } else {
            0
        }
    }
}

/// A catalogue with its registers tagged.
pub open spec fn registers_tagged(root: crate::document::Part) -> crate::document::Part {
    match table_under(root, "frame"@, "modbus"@) {
        Some(section) => put_under(
            root,
            "frame"@,
            "modbus"@,
            section.with(all_tagged(section.entries(), legacy_address(root))),
        ),
        None => root,
    }
}

/// A node's table.
pub open spec fn node_body(address: u8) -> crate::document::Part {
    crate::document::empty_table(false).put("device_address"@, integer(address as i64))
}

/// A catalogue with a node for its registers.
pub open spec fn node_added(root: crate::document::Part, address: u8) -> crate::document::Part {
    root.set_table(
        "node"@,
        crate::json::child_or_new(root, "node"@, true).put(
            crate::catalog::slave_name(address),
            node_body(address),
        ),
    )
}

/// A catalogue without a device address for all its registers.
pub open spec fn address_dropped(root: crate::document::Part) -> crate::document::Part {
    match table_under(root, "meta"@, "modbus"@) {
        Some(meta) => put_under(root, "meta"@, "modbus"@, meta.unset("device_address"@)),
        None => root,
    }
}

/// Whether a catalogue gives a device address for all its registers.
pub open spec fn has_address(root: crate::document::Part) -> bool {
    table_under(root, "meta"@, "modbus"@) matches Some(meta) && meta.get("device_address"@) is Some
}

/// The ending of a word for several.
pub open spec fn plural(n: nat) -> Seq<char> {
    if n == 1 {
        ""@
    } else {
        "s"@
    }
}

/// What upgrading to slave nodes makes of a catalogue, and what it says of it.
pub open spec fn nodes_migrated(root: crate::document::Part) -> (
    crate::document::Part,
    Seq<Seq<char>>,
) {
    if !lacks_nodes(root) {
        (root, Seq::empty())
    } else {
        let address = legacy_address(root);
        let name = crate::catalog::slave_name(address);
        let with_node = node_added(registers_tagged(root), address);
        let count = untagged_count(table_under(root, "frame"@, "modbus"@)->Some_0.entries());
        let created = seq![
            "Created slave node \""@ + name + "\" (device address "@ + crate::text::decimal(
                address as nat,
            ) + ")"@,
        ];
        let assigned = if count > 0 {
            seq![
                "Assigned "@ + crate::text::decimal(count) + " register"@ + plural(count)
                    + " to \""@ + name + "\""@,
            ]
        } else {
            Seq::empty()
        };
        let removed = if has_address(with_node) {
            seq!["Removed the redundant [meta.modbus] device_address"@]
        } else {
            Seq::empty()
        };
        (address_dropped(with_node), created + assigned + removed)
    }
}

// ---------------------------------------------------------------------------
// Intervals
// ---------------------------------------------------------------------------

/// The key under which a frame's transmission table holds an interval.
pub open spec fn interval_key(tx: crate::document::Part) -> Option<Seq<char>> {
    if tx.get("interval_ms"@) is Some {
        Some("interval_ms"@)
    } else if tx.get("interval"@) is Some {
        Some("interval"@)
    } else {
        None
    }
}

/// The interval a frame's transmission table holds, in milliseconds.
pub open spec fn tx_interval(frame: crate::document::Part) -> Option<i64> {
    match frame.get("tx"@) {
        Some(tx) => if tx.is_table_like() {
            match interval_key(tx) {
                Some(key) => match tx.get(key) {
                    Some(crate::document::Part::Integer { value, .. }) => Some(value),
                    _ => None,
                },
                None => None,
            }
        } else {
            None
        },
        None => None,
    }
}

/// A frame without the intervals of its transmission table, and without that table
/// where nothing else is in it.
pub open spec fn interval_taken(frame: crate::document::Part) -> crate::document::Part {
    match frame.get("tx"@) {
        Some(tx) => if tx.is_table_like() {
            match interval_key(tx) {
                Some(_) => {
                    let left = tx.unset("interval_ms"@).unset("interval"@);
                    if tx_interval(frame) is Some && left.entries().len() == 0 {
                        frame.unset("tx"@)
                    } else {
                        frame.set("tx"@, left)
                    }
                },
                None => frame,
            }
        } else {
            frame
        },
        None => frame,
    }
}

/// A frame with the interval of its transmission table moved to its own; an
/// interval of its own wins.
pub open spec fn interval_moved(frame: crate::document::Part) -> crate::document::Part {
    let taken = interval_taken(frame);
    match tx_interval(frame) {
        Some(ms) => if taken.get("interval_ms"@) is None {
            taken.put("interval_ms"@, integer(ms))
        } else {
            taken
        },
        None => taken,
    }
}

/// Whether an entry is a frame.
pub open spec fn is_frame(e: (Seq<char>, crate::document::Part)) -> bool {
    e.0 != "config"@ && e.1 is Table
}

/// Frames with their intervals moved.
pub open spec fn all_moved(entries: Seq<(Seq<char>, crate::document::Part)>) -> Seq<
    (Seq<char>, crate::document::Part),
> {
    entries.map_values(
        |e: (Seq<char>, crate::document::Part)|
            if is_frame(e) {
                (e.0, interval_moved(e.1))
            } else {
                e
            },
    )
}

/// How many frames hold an interval in a transmission table.
pub open spec fn interval_count(entries: Seq<(Seq<char>, crate::document::Part)>) -> nat
    decreases entries.len(),
{
    if entries.len() == 0 {
        0
    } else {
        interval_count(entries.drop_last()) + if is_frame(entries.last()) && tx_interval(
            entries.last().1,
        ) is Some {
            1nat
        } else {
            0
        }
    }
}

/// A catalogue with the intervals of one protocol's frames moved.
pub open spec fn section_moved(
    root: crate::document::Part,
    protocol: Seq<char>,
) -> crate::document::Part {
    match table_under(root, "frame"@, protocol) {
        Some(section) => put_under(
            root,
            "frame"@,
            protocol,
            section.with(all_moved(section.entries())),
        ),
        None => root,
    }
}

/// How many frames of one protocol hold an interval in a transmission table.
pub open spec fn section_count(root: crate::document::Part, protocol: Seq<char>) -> nat {
    match table_under(root, "frame"@, protocol) {
        Some(section) => interval_count(section.entries()),
        None => 0,
    }
}

/// What moving intervals makes of a catalogue, and what it says of it.
pub open spec fn intervals_migrated(root: crate::document::Part) -> (
    crate::document::Part,
    Seq<Seq<char>>,
) {
    let one = section_moved(root, "can"@);
    let two = section_moved(one, "modbus"@);
    let count = section_count(root, "can"@) + section_count(one, "modbus"@) + section_count(
        two,
        "serial"@,
    );
    (
        section_moved(two, "serial"@),
        if count > 0 {
            seq![
                "Moved "@ + crate::text::decimal(count) + " frame interval"@ + plural(count)
                    + " from [tx] to interval_ms"@,
            ]
        } else {
            Seq::empty()
        },
    )
}

/// What upgrading makes of a catalogue, and what it says of it.
pub open spec fn migrated(root: crate::document::Part) -> (
    crate::document::Part,
    Seq<Seq<char>>,
) {
    let nodes = nodes_migrated(root);
    let intervals = intervals_migrated(nodes.0);
    (intervals.0, nodes.1 + intervals.1)
}

// ---------------------------------------------------------------------------
// Making the upgrades
// ---------------------------------------------------------------------------

fn find_table<'a>(t: &'a Item, outer: &str, inner: &str) -> (r: Option<&'a Item>)
    requires
        crate::document::item_part(*t).is_sound(),
    ensures
        r matches Some(item) ==> crate::document::item_part(*item).is_sound(),
        crate::document::opt_part(r) == table_under(
            crate::document::item_part(*t),
            outer@,
            inner@,
        ),
{
    match child(t, outer) {
        Some(c) => if is_table(Some(c)) {
            match child(c, inner) {
                Some(d) => if is_table(Some(d)) {
                    Some(d)
                } else {
                    None
                },
                None => None,
            }
        } else {
            None
        },
        None => None,
    }
}

fn find_table_mut<'a>(t: &'a mut Item, outer: &str, inner: &str) -> (r: Option<&'a mut Item>)
    requires
        crate::document::item_part(*old(t)).is_sound(),
    ensures
        r is Some ==> crate::document::item_part(*r.unwrap()).is_sound(),
        r is Some && crate::document::item_part(*final(r.unwrap())).is_sound()
            ==> crate::document::item_part(*final(t)).is_sound(),
        r is Some <==> table_under(crate::document::item_part(*old(t)), outer@, inner@) is Some,
        r is Some ==> table_under(crate::document::item_part(*old(t)), outer@, inner@) == Some(
            crate::document::item_part(*r.unwrap()),
        ),
        r is Some ==> crate::document::item_part(*final(t)) == put_under(
            crate::document::item_part(*old(t)),
            outer@,
            inner@,
            crate::document::item_part(*final(r.unwrap())),
        ),
        r is None ==> crate::document::item_part(*final(t)) == crate::document::item_part(*old(t)),
{
    if find_table(t, outer, inner).is_none() {
        return None;
    }
    let c = child_mut(t, outer).unwrap();
    child_mut(c, inner)
}

fn holds_frame(section: &Item) -> (r: bool)
    requires
        crate::document::item_part(*section).is_sound(),
        crate::document::item_part(*section) is Table,
    ensures
        r == has_frame(crate::document::item_part(*section).entries()),
{
    let ghost entries = crate::document::item_part(*section).entries();
    let keys = table_keys(section);
    assert(crate::text::texts(keys@).len() == crate::document::keys_of(entries).len());
    for i in 0..keys.len()
        invariant
            entries == crate::document::item_part(*section).entries(),
            keys@.len() == entries.len(),
            crate::text::texts(keys@) == crate::document::keys_of(entries),
            forall|j: int| 0 <= j < i ==> (#[trigger] entries[j]).0 == "config"@,
    {
        assert(crate::text::texts(keys@)[i as int] == keys@[i as int]@);
        assert(crate::document::keys_of(entries)[i as int] == entries[i as int].0);
        if !str_eq(keys[i].as_str(), "config") {
            assert(entries[i as int].0 != "config"@);
            return true;
        }
    }
    false
}

fn needs_nodes(t: &Item) -> (r: bool)
    requires
        crate::document::item_part(*t).is_sound(),
    ensures
        r == lacks_nodes(crate::document::item_part(*t)),
{
    let frames = match find_table(t, "frame", "modbus") {
        Some(section) => holds_frame(section),
        None => false,
    };
    if !frames {
        return false;
    }
    match child(t, "node") {
        Some(nodes) => match look(nodes) {
            Look::Table { keys, .. } => {
                assert(crate::text::texts(keys@).len() == crate::document::keys_of(
                    crate::document::item_part(*nodes).entries(),
                ).len());
                keys.len() == 0
            },
            _ => true,
        },
        None => true,
    }
}

fn read_address(t: &Item) -> (r: u8)
    requires
        crate::document::item_part(*t).is_sound(),
    ensures
        r == legacy_address(crate::document::item_part(*t)),
{
    if let Some(meta) = find_table(t, "meta", "modbus") {
        if let Some(value) = child(meta, "device_address") {
            if let Look::Integer(n) = look(value) {
                if 0 <= n && n <= 255 {
                    return n as u8;
                }
            }
        }
    }
    1
}

fn tag(frame: &mut Item, key: &str, address: u8) -> (r: bool)
    requires
        crate::document::item_part(*old(frame)).is_sound(),
    ensures
        crate::document::item_part(*final(frame)).is_sound(),
        r == is_untagged((key@, crate::document::item_part(*old(frame)))),
        crate::document::item_part(*final(frame)) == tagged(
            (key@, crate::document::item_part(*old(frame))),
            address,
        ).1,
{
    if !str_eq(key, "config") && is_table(Some(frame)) && child(frame, "node_address").is_none() {
        put(frame, "node_address", integer_item(address as i64));
        true
    } else {
        false
    }
}

fn tag_registers(section: &mut Item, address: u8) -> (r: u128)
    requires
        crate::document::item_part(*old(section)).is_sound(),
        crate::document::item_part(*old(section)) is Table,
    ensures
        crate::document::item_part(*final(section)).is_sound(),
        r == untagged_count(crate::document::item_part(*old(section)).entries()),
        crate::document::item_part(*final(section)) == crate::document::item_part(
            *old(section),
        ).with(all_tagged(crate::document::item_part(*old(section)).entries(), address)),
{
    let ghost before = crate::document::item_part(*section);
    let ghost entries = before.entries();
    let ghost after = all_tagged(entries, address);
    let keys = table_keys(section);
    let mut count: u128 = 0;
    assert(crate::text::texts(keys@).len() == crate::document::keys_of(entries).len());
    assert(crate::edit::partly(entries, after, 0) == entries);
    for i in 0..keys.len()
        invariant
            crate::document::item_part(*section).is_sound(),
            before is Table,
            entries == before.entries(),
            after == all_tagged(entries, address),
            keys@.len() == entries.len(),
            crate::text::texts(keys@) == crate::document::keys_of(entries),
            crate::document::keys_of(entries).no_duplicates(),
            count <= i,
            count == untagged_count(entries.take(i as int)),
            crate::document::item_part(*section) == before.with(
                crate::edit::partly(entries, after, i as int),
            ),
    {
        assert(crate::text::texts(keys@)[i as int] == keys@[i as int]@);
        assert(crate::document::keys_of(entries)[i as int] == entries[i as int].0);
        assert(entries.take(i + 1).drop_last() == entries.take(i as int));
        assert(entries.take(i + 1).last() == entries[i as int]);
        proof {
            crate::edit::lemma_partly(entries, after, i as int);
        }
        if let Some(frame) = child_mut(section, keys[i].as_str()) {
            if tag(frame, keys[i].as_str(), address) {
                count = count + 1;
            }
        }
    }
    assert(crate::edit::partly(entries, after, entries.len() as int) == after);
    assert(entries.take(entries.len() as int) == entries);
    count
}

fn add_node(t: &mut Item, address: u8)
    requires
        crate::document::item_part(*old(t)).is_sound(),
        crate::document::item_part(*old(t)) is Table,
    ensures
        crate::document::item_part(*final(t)).is_sound(),
        crate::document::item_part(*final(t)) == node_added(
            crate::document::item_part(*old(t)),
            address,
        ),
        crate::document::item_part(*final(t)) is Table,
{
    let ghost before = crate::document::item_part(*t);
    let mut body = new_table(false);
    put(&mut body, "device_address", integer_item(address as i64));
    if !is_table(child(t, "node")) {
        put(t, "node", new_table(true));
    }
    proof {
        let fresh = crate::document::empty_table(true);
        let nodes = fresh.put(crate::catalog::slave_name(address), node_body(address));
        crate::document::lemma_set_again(before, "node"@, fresh, nodes);
    }
    if let Some(nodes) = child_mut(t, "node") {
        put(nodes, slave_node_name(address).as_str(), body);
    }
}

fn drop_address(t: &mut Item) -> (r: bool)
    requires
        crate::document::item_part(*old(t)).is_sound(),
    ensures
        crate::document::item_part(*final(t)).is_sound(),
        r == has_address(crate::document::item_part(*old(t))),
        crate::document::item_part(*final(t)) == address_dropped(
            crate::document::item_part(*old(t)),
        ),
{
    match find_table_mut(t, "meta", "modbus") {
        Some(meta) => take(meta, "device_address").is_some(),
        None => false,
    }
}

fn ending(n: u128) -> (r: &'static str)
    ensures
        r@ == plural(n as nat),
{
    if n == 1 {
        ""
    } else {
        "s"
    }
}

fn decimal_text(n: u128) -> (r: String)
    ensures
        r@ == crate::text::decimal(n as nat),
{
    let mut out = String::new();
    push_decimal(&mut out, n);
    assert(out@ == crate::text::decimal(n as nat));
    out
}

fn migrate_modbus_nodes(t: &mut Item) -> (r: Vec<String>)
    requires
        crate::document::item_part(*old(t)).is_sound(),
        crate::document::item_part(*old(t)) is Table,
    ensures
        crate::document::item_part(*final(t)).is_sound(),
        crate::document::item_part(*final(t)) == nodes_migrated(
            crate::document::item_part(*old(t)),
        ).0,
        crate::text::texts(r@) == nodes_migrated(crate::document::item_part(*old(t))).1,
        crate::document::item_part(*final(t)) is Table,
{
    let mut summary: Vec<String> = Vec::new();
    let ghost before = crate::document::item_part(*t);
    if !needs_nodes(t) {
        assert(crate::text::texts(summary@) == Seq::<Seq<char>>::empty());
        return summary;
    }
    let address: u8 = read_address(t);
    let mut count: u128 = 0;
    if let Some(section) = find_table_mut(t, "frame", "modbus") {
        count = tag_registers(section, address);
    }
    assert(crate::document::item_part(*t) == registers_tagged(before));
    add_node(t, address);
    let removed = drop_address(t);
    let name = slave_node_name(address);
    let number = decimal_text(address as u128);
    let mut created = cat3("Created slave node \"", name.as_str(), "\" (device address ");
    created.append(number.as_str());
    created.append(")");
    summary.push(created);
    let ghost lines = nodes_migrated(before).1;
    assert(crate::text::texts(summary@) == seq![lines[0]]);
    if count > 0 {
        let many = decimal_text(count);
        let mut assigned = cat3("Assigned ", many.as_str(), " register");
        assigned.append(ending(count));
        assigned.append(" to \"");
        assigned.append(name.as_str());
        assigned.append("\"");
        summary.push(assigned);
        assert(crate::text::texts(summary@) == seq![lines[0], lines[1]]);
    }
    let ghost so_far = crate::text::texts(summary@);
    if removed {
        summary.push(owned("Removed the redundant [meta.modbus] device_address"));
        assert(crate::text::texts(summary@) == so_far.push(
            "Removed the redundant [meta.modbus] device_address"@,
        ));
    }
    assert(crate::text::texts(summary@) == lines);
    summary
}

fn take_tx_interval(frame: &mut Item) -> (r: Option<i64>)
    requires
        crate::document::item_part(*old(frame)).is_sound(),
        crate::document::item_part(*old(frame)) is Table,
    ensures
        crate::document::item_part(*final(frame)).is_sound(),
        r == tx_interval(crate::document::item_part(*old(frame))),
        crate::document::item_part(*final(frame)) == interval_taken(
            crate::document::item_part(*old(frame)),
        ),
        crate::document::item_part(*final(frame)) is Table,
{
    let ghost before = crate::document::item_part(*frame);
    proof {
        crate::document::lemma_set_same(before, "tx"@);
    }
    let mut found: Option<i64> = None;
    let mut empty = false;
    if let Some(tx) = child_mut(frame, "tx") {
        let like = match look(tx) {
            Look::Table { .. } => true,
            Look::Inline(_) => true,
            _ => false,
        };
        if like {
            let held = child(tx, "interval_ms").is_some() || child(tx, "interval").is_some();
            let taken = if held {
                let first = take(tx, "interval_ms");
                let second = take(tx, "interval");
                match first {
                    Some(item) => Some(item),
                    None => second,
                }
            } else {
                None
            };
            if let Some(item) = taken {
                if let Look::Integer(n) = look(&item) {
                    found = Some(n);
                    empty = match look(tx) {
                        Look::Table { keys, .. } => {
                            assert(crate::text::texts(keys@).len() == crate::document::keys_of(
                                crate::document::item_part(*tx).entries(),
                            ).len());
                            keys.len() == 0
                        },
                        Look::Inline(count) => count == 0,
                        _ => false,
                    };
                }
            }
        }
    }
    if empty {
        proof {
            let tx = before.get("tx"@)->Some_0;
            crate::document::lemma_set_unset(
                before,
                "tx"@,
                tx.unset("interval_ms"@).unset("interval"@),
            );
        }
        take(frame, "tx");
    }
    found
}

fn move_interval(frame: &mut Item, key: &str) -> (r: bool)
    requires
        crate::document::item_part(*old(frame)).is_sound(),
    ensures
        crate::document::item_part(*final(frame)).is_sound(),
        r == (is_frame((key@, crate::document::item_part(*old(frame)))) && tx_interval(
            crate::document::item_part(*old(frame)),
        ) is Some),
        crate::document::item_part(*final(frame)) == (if is_frame(
            (key@, crate::document::item_part(*old(frame))),
        ) {
            interval_moved(crate::document::item_part(*old(frame)))
        } else {
            crate::document::item_part(*old(frame))
        }),
{
    if str_eq(key, "config") || !is_table(Some(frame)) {
        return false;
    }
    match take_tx_interval(frame) {
        Some(ms) => {
            if child(frame, "interval_ms").is_none() {
                put(frame, "interval_ms", integer_item(ms));
            }
            true
        },
        None => false,
    }
}

fn move_intervals(section: &mut Item) -> (r: u128)
    requires
        crate::document::item_part(*old(section)).is_sound(),
        crate::document::item_part(*old(section)) is Table,
    ensures
        crate::document::item_part(*final(section)).is_sound(),
        r == interval_count(crate::document::item_part(*old(section)).entries()),
        r <= u64::MAX,
        crate::document::item_part(*final(section)) == crate::document::item_part(
            *old(section),
        ).with(all_moved(crate::document::item_part(*old(section)).entries())),
{
    let ghost before = crate::document::item_part(*section);
    let ghost entries = before.entries();
    let ghost after = all_moved(entries);
    let keys = table_keys(section);
    let mut count: u128 = 0;
    assert(crate::text::texts(keys@).len() == crate::document::keys_of(entries).len());
    assert(crate::edit::partly(entries, after, 0) == entries);
    for i in 0..keys.len()
        invariant
            crate::document::item_part(*section).is_sound(),
            before is Table,
            entries == before.entries(),
            after == all_moved(entries),
            keys@.len() == entries.len(),
            crate::text::texts(keys@) == crate::document::keys_of(entries),
            crate::document::keys_of(entries).no_duplicates(),
            count <= i,
            count == interval_count(entries.take(i as int)),
            crate::document::item_part(*section) == before.with(
                crate::edit::partly(entries, after, i as int),
            ),
    {
        assert(crate::text::texts(keys@)[i as int] == keys@[i as int]@);
        assert(crate::document::keys_of(entries)[i as int] == entries[i as int].0);
        assert(entries.take(i + 1).drop_last() == entries.take(i as int));
        assert(entries.take(i + 1).last() == entries[i as int]);
        proof {
            crate::edit::lemma_partly(entries, after, i as int);
        }
        if let Some(frame) = child_mut(section, keys[i].as_str()) {
            if move_interval(frame, keys[i].as_str()) {
                count = count + 1;
            }
        }
    }
    assert(crate::edit::partly(entries, after, entries.len() as int) == after);
    assert(entries.take(entries.len() as int) == entries);
    count
}

fn move_section(t: &mut Item, protocol: &str) -> (r: u128)
    requires
        crate::document::item_part(*old(t)).is_sound(),
        crate::document::item_part(*old(t)) is Table,
    ensures
        crate::document::item_part(*final(t)).is_sound(),
        r == section_count(crate::document::item_part(*old(t)), protocol@),
        r <= u64::MAX,
        crate::document::item_part(*final(t)) == section_moved(
            crate::document::item_part(*old(t)),
            protocol@,
        ),
        crate::document::item_part(*final(t)) is Table,
{
    match find_table_mut(t, "frame", protocol) {
        Some(section) => move_intervals(section),
        None => 0,
    }
}

fn migrate_frame_intervals(t: &mut Item) -> (r: Vec<String>)
    requires
        crate::document::item_part(*old(t)).is_sound(),
        crate::document::item_part(*old(t)) is Table,
    ensures
        crate::document::item_part(*final(t)).is_sound(),
        crate::document::item_part(*final(t)) is Table,
        crate::document::item_part(*final(t)) == intervals_migrated(
            crate::document::item_part(*old(t)),
        ).0,
        crate::text::texts(r@) == intervals_migrated(crate::document::item_part(*old(t))).1,
{
    let mut summary: Vec<String> = Vec::new();
    let mut count: u128 = move_section(t, "can");
    count = count + move_section(t, "modbus");
    count = count + move_section(t, "serial");
    if count > 0 {
        let many = decimal_text(count);
        let mut line = cat3("Moved ", many.as_str(), " frame interval");
        line.append(ending(count));
        line.append(" from [tx] to interval_ms");
        let ghost text = line@;
        summary.push(line);
        assert(crate::text::texts(summary@) == seq![text]);
    } else {
        assert(crate::text::texts(summary@) == Seq::<Seq<char>>::empty());
    }
    summary
}

/// Upgrades a document, and says what was changed.
pub fn migrate_document(doc: &mut DocumentMut) -> (r: Vec<String>)
    requires
        crate::document::document_part(*old(doc)) is Table,
        crate::document::document_part(*old(doc)).is_sound(),
    ensures
        crate::document::document_part(*final(doc)) is Table,
        crate::document::document_part(*final(doc)).is_sound(),
        crate::document::document_part(*final(doc)) == migrated(
            crate::document::document_part(*old(doc)),
        ).0,
        crate::text::texts(r@) == migrated(crate::document::document_part(*old(doc))).1,
        crate::document::document_tail(*final(doc)) == crate::document::document_tail(*old(doc)),
{
    let t = root_mut(doc);
    let mut summary = migrate_modbus_nodes(t);
    let ghost first = crate::text::texts(summary@);
    let mut more = migrate_frame_intervals(t);
    let ghost second = crate::text::texts(more@);
    let ghost all = summary@ + more@;
    summary.append(&mut more);
    assert(summary@ == all);
    assert(crate::text::texts(all) == first + second);
    summary
}

/// Upgrades a catalogue's text. The text stays as it is where nothing is to be
/// upgraded.
pub fn migrate(text: &str) -> (r: Result<Migration, String>)
    ensures
        match crate::document::editable_document(text@) {
            Ok((before, tail)) => {
                &&& r matches Ok(m)
                &&& crate::text::texts(m.summary@) == migrated(before).1
                &&& m.changed == (migrated(before).1.len() > 0)
                &&& m.changed ==> m.toml@ == crate::document::document_text(
                    migrated(before).0,
                    tail,
                )
                &&& !m.changed ==> m.toml@ == text@
            },
            Err(message) => r matches Err(m) && m@ == "catalogue is not valid TOML: "@ + message,
        },
{
    match parse_editable(text) {
        Ok(doc) => {
            let mut doc = doc;
            let summary = migrate_document(&mut doc);
            let changed = summary.len() > 0;
            assert(crate::text::texts(summary@).len() == summary@.len());
            let toml = if changed {
                write_document(&doc)
            } else {
                owned(text)
            };
            Ok(Migration { changed, toml, summary })
        },
        Err(message) => Err(cat2("catalogue is not valid TOML: ", message.as_str())),
    }
}

// ---------------------------------------------------------------------------
// Laws
// ---------------------------------------------------------------------------

/// Whether no key occurs twice in a frame, nor in its transmission table.
spec fn is_plain(frame: crate::document::Part) -> bool {
    &&& crate::document::keys_of(frame.entries()).no_duplicates()
    &&& match frame.get("tx"@) {
        Some(tx) => tx.is_table_like() ==> crate::document::keys_of(tx.entries()).no_duplicates(),
        None => true,
    }
}

/// Whether no key occurs twice in a frame among entries.
spec fn all_plain(entries: Seq<(Seq<char>, crate::document::Part)>) -> bool {
    forall|i: int| 0 <= i < entries.len() && is_frame(#[trigger] entries[i]) ==> is_plain(
        entries[i].1,
    )
}

/// Whether no key occurs twice in a frame of a protocol.
spec fn section_plain(root: crate::document::Part, protocol: Seq<char>) -> bool {
    table_under(root, "frame"@, protocol) matches Some(section) ==> all_plain(section.entries())
}

/// Whether no frame of a protocol holds an interval in a transmission table.
pub open spec fn section_settled(root: crate::document::Part, protocol: Seq<char>) -> bool {
    table_under(root, "frame"@, protocol) matches Some(section) ==> all_settled(section.entries())
}

/// Whether no frame among entries holds an interval in a transmission table.
pub open spec fn all_settled(entries: Seq<(Seq<char>, crate::document::Part)>) -> bool {
    forall|i: int| 0 <= i < entries.len() && is_frame(#[trigger] entries[i]) ==> is_settled(
        entries[i].1,
    )
}

/// Whether a frame holds no interval in a transmission table.
pub open spec fn is_settled(frame: crate::document::Part) -> bool {
    match frame.get("tx"@) {
        Some(tx) => tx.is_table_like() ==> interval_key(tx) is None,
        None => true,
    }
}

proof fn lemma_names()
    ensures
        "tx"@ != "interval_ms"@,
        "tx"@ != "node_address"@,
        "interval_ms"@ != "interval"@,
        "frame"@ != "node"@,
        "frame"@ != "meta"@,
        "node"@ != "meta"@,
        "can"@ != "modbus"@,
        "can"@ != "serial"@,
        "modbus"@ != "serial"@,
{
    reveal_strlit("tx");
    reveal_strlit("interval_ms");
    reveal_strlit("interval");
    reveal_strlit("node_address");
    reveal_strlit("frame");
    reveal_strlit("node");
    reveal_strlit("meta");
    reveal_strlit("can");
    reveal_strlit("modbus");
    reveal_strlit("serial");
    assert("interval_ms"@.len() == 11 && "interval"@.len() == 8);
    assert("frame"@.len() == 5 && "node"@.len() == 4 && "meta"@.len() == 4);
    assert("node"@[0] == 'n' && "meta"@[0] == 'm');
    assert("can"@.len() == 3 && "modbus"@.len() == 6 && "serial"@.len() == 6);
    assert("modbus"@[0] == 'm' && "serial"@[0] == 's');
    assert("tx"@.len() == 2);
}

/// A frame whose interval was moved holds none in a transmission table.
pub proof fn law_moved_intervals_are_settled(frame: crate::document::Part)
    requires
        frame is Table,
        frame.is_sound(),
    ensures
        is_settled(interval_moved(frame)),
        interval_moved(frame) is Table,
        tx_interval(frame) matches Some(ms) ==> interval_moved(frame).get("interval_ms"@) is Some,
{
    lemma_sound_frame(frame);
    lemma_moved_is_settled(frame);
}

proof fn lemma_sound_frame(frame: crate::document::Part)
    requires
        frame is Table,
        frame.is_sound(),
    ensures
        is_plain(frame),
{
    crate::document::lemma_sound_child(frame, "tx"@);
}

proof fn lemma_sound_section(root: crate::document::Part, protocol: Seq<char>)
    requires
        root is Table,
        root.is_sound(),
    ensures
        section_plain(root, protocol),
{
    crate::document::lemma_sound_child(root, "frame"@);
    if let Some(section) = table_under(root, "frame"@, protocol) {
        crate::document::lemma_sound_child(table_at(root, "frame"@)->Some_0, protocol);
        let entries = section.entries();
        assert forall|i: int| 0 <= i < entries.len() && is_frame(#[trigger] entries[i]) implies is_plain(
            entries[i].1,
        ) by {
            reveal(crate::document::Part::is_sound);
            lemma_sound_frame(entries[i].1);
        }
    }
}

proof fn lemma_moved_is_settled(frame: crate::document::Part)
    requires
        frame is Table,
        is_plain(frame),
    ensures
        is_settled(interval_moved(frame)),
        interval_moved(frame) is Table,
        tx_interval(frame) matches Some(ms) ==> interval_moved(frame).get("interval_ms"@) is Some,
{
    lemma_names();
    let taken = interval_taken(frame);
    if let Some(tx) = frame.get("tx"@) {
        if tx.is_table_like() {
            if let Some(key) = interval_key(tx) {
                let first = tx.unset("interval_ms"@);
                let left = first.unset("interval"@);
                crate::document::lemma_unset(tx, "interval_ms"@);
                crate::document::lemma_unset(first, "interval"@);
                crate::document::lemma_unset(frame, "tx"@);
                crate::document::lemma_set_again(frame, "tx"@, left, left);
                assert(left.get("interval_ms"@) is None);
                assert(left.get("interval"@) is None);
            }
        }
    }
    assert(is_settled(taken));
    if let Some(ms) = tx_interval(frame) {
        crate::document::lemma_get_other(taken, "interval_ms"@, integer(ms), "tx"@);
        crate::document::lemma_set_again(taken, "interval_ms"@, integer(ms), integer(ms));
    }
}

proof fn lemma_settled_stays(frame: crate::document::Part)
    requires
        is_settled(frame),
    ensures
        tx_interval(frame) is None,
        interval_moved(frame) == frame,
{
}

proof fn lemma_settled_count(entries: Seq<(Seq<char>, crate::document::Part)>)
    requires
        all_settled(entries),
    ensures
        interval_count(entries) == 0,
        all_moved(entries) == entries,
    decreases entries.len(),
{
    if entries.len() > 0 {
        let front = entries.drop_last();
        assert forall|i: int| 0 <= i < front.len() && is_frame(#[trigger] front[i]) implies is_settled(
            front[i].1,
        ) by {
            assert(front[i] == entries[i]);
        }
        lemma_settled_count(front);
        let last = entries[entries.len() - 1];
        if is_frame(last) {
            lemma_settled_stays(last.1);
        }
    }
    assert forall|i: int| 0 <= i < entries.len() implies all_moved(entries)[i] == entries[i] by {
        if is_frame(entries[i]) {
            lemma_settled_stays(entries[i].1);
        }
    }
    assert(all_moved(entries) =~= entries);
}

proof fn lemma_section_settles(root: crate::document::Part, protocol: Seq<char>)
    requires
        root is Table,
        section_plain(root, protocol),
    ensures
        section_settled(section_moved(root, protocol), protocol),
        section_moved(root, protocol) is Table,
        forall|other: Seq<char>|
            other != protocol ==> #[trigger] table_under(
                section_moved(root, protocol),
                "frame"@,
                other,
            ) == table_under(root, "frame"@, other),
        table_under(section_moved(root, protocol), "frame"@, protocol) is Some <==> table_under(
            root,
            "frame"@,
            protocol,
        ) is Some,
        table_under(root, "frame"@, protocol) matches Some(section) ==> crate::document::keys_of(
            table_under(section_moved(root, protocol), "frame"@, protocol)->Some_0.entries(),
        ) == crate::document::keys_of(section.entries()),
        forall|key: Seq<char>|
            key != "frame"@ ==> #[trigger] section_moved(root, protocol).get(key) == root.get(key),
{
    if let Some(section) = table_under(root, "frame"@, protocol) {
        let frames = table_at(root, "frame"@)->Some_0;
        let entries = section.entries();
        let moved = all_moved(entries);
        let after = section.with(moved);
        crate::document::lemma_set_again(frames, protocol, after, after);
        let now = frames.set(protocol, after);
        crate::document::lemma_set_again(root, "frame"@, now, now);
        assert forall|i: int| 0 <= i < moved.len() && is_frame(#[trigger] moved[i]) implies is_settled(
            moved[i].1,
        ) by {
            let e = entries[i];
            if is_frame(e) {
                lemma_moved_is_settled(e.1);
            }
        }
        assert(crate::document::keys_of(moved) =~= crate::document::keys_of(entries)) by {
            assert forall|i: int| 0 <= i < entries.len() implies (#[trigger] moved[i]).0
                == entries[i].0 by {}
        }
        assert forall|other: Seq<char>| other != protocol implies #[trigger] table_under(
            section_moved(root, protocol),
            "frame"@,
            other,
        ) == table_under(root, "frame"@, other) by {
            crate::document::lemma_get_other(frames, protocol, after, other);
        }
        assert forall|key: Seq<char>| key != "frame"@ implies #[trigger] section_moved(
            root,
            protocol,
        ).get(key) == root.get(key) by {
            crate::document::lemma_get_other(root, "frame"@, now, key);
        }
    }
}

proof fn lemma_settled_section(root: crate::document::Part, protocol: Seq<char>)
    requires
        root is Table,
        section_settled(root, protocol),
    ensures
        section_moved(root, protocol) == root,
        section_count(root, protocol) == 0,
{
    if let Some(section) = table_under(root, "frame"@, protocol) {
        let frames = table_at(root, "frame"@)->Some_0;
        lemma_settled_count(section.entries());
        assert(section.with(section.entries()) == section);
        crate::document::lemma_set_same(frames, protocol);
        crate::document::lemma_set_same(root, "frame"@);
    }
}

proof fn lemma_tagging_keeps_plain(entries: Seq<(Seq<char>, crate::document::Part)>, address: u8)
    requires
        all_plain(entries),
    ensures
        all_plain(all_tagged(entries, address)),
{
    lemma_names();
    let now = all_tagged(entries, address);
    assert forall|i: int| 0 <= i < now.len() && is_frame(#[trigger] now[i]) implies is_plain(
        now[i].1,
    ) by {
        let e = entries[i];
        assert(now[i] == tagged(e, address));
        assert(is_frame(e));
        if is_untagged(e) {
            let value = integer(address as i64);
            crate::document::lemma_set_distinct(e.1, "node_address"@, value);
            crate::document::lemma_get_other(e.1, "node_address"@, value, "tx"@);
        }
    }
}

proof fn lemma_nodes(root: crate::document::Part)
    requires
        root is Table,
        section_plain(root, "can"@),
        section_plain(root, "modbus"@),
        section_plain(root, "serial"@),
    ensures
        ({
            let now = nodes_migrated(root).0;
            &&& now is Table
            &&& section_plain(now, "can"@)
            &&& section_plain(now, "modbus"@)
            &&& section_plain(now, "serial"@)
            &&& !lacks_nodes(now)
        }),
{
    lemma_names();
    if lacks_nodes(root) {
        let address = legacy_address(root);
        let section = table_under(root, "frame"@, "modbus"@)->Some_0;
        let frames = table_at(root, "frame"@)->Some_0;
        let after = section.with(all_tagged(section.entries(), address));
        lemma_tagging_keeps_plain(section.entries(), address);
        let now = frames.set("modbus"@, after);
        crate::document::lemma_set_again(frames, "modbus"@, after, after);
        crate::document::lemma_get_other(frames, "modbus"@, after, "can"@);
        crate::document::lemma_get_other(frames, "modbus"@, after, "serial"@);
        crate::document::lemma_set_again(root, "frame"@, now, now);
        let one = registers_tagged(root);
        let name = crate::catalog::slave_name(address);
        let nodes = crate::json::child_or_new(one, "node"@, true).put(name, node_body(address));
        let two = node_added(one, address);
        assert(two == one.set_table("node"@, nodes));
        crate::document::lemma_set_again(one, "node"@, nodes, nodes);
        crate::document::lemma_get_other(one, "node"@, nodes, "frame"@);
        if let Some(meta) = table_under(two, "meta"@, "modbus"@) {
            let outer = table_at(two, "meta"@)->Some_0;
            let inner = outer.set("modbus"@, meta.unset("device_address"@));
            crate::document::lemma_get_other(two, "meta"@, inner, "frame"@);
            crate::document::lemma_get_other(two, "meta"@, inner, "node"@);
        }
        let three = address_dropped(two);
        assert(three.get("frame"@) == two.get("frame"@));
        assert(three.get("node"@) == Some(nodes));
        assert(nodes.entries().len() > 0) by {
            crate::document::lemma_key_place(
                crate::json::child_or_new(one, "node"@, true).entries(),
                name,
                0,
            );
        }
    }
}

/// Upgrading an upgraded catalogue changes nothing and says nothing.
pub proof fn law_migrating_twice_changes_nothing_more(root: crate::document::Part)
    requires
        root is Table,
        root.is_sound(),
    ensures
        migrated(migrated(root).0) == (migrated(root).0, Seq::<Seq<char>>::empty()),
{
    lemma_names();
    lemma_sound_section(root, "can"@);
    lemma_sound_section(root, "modbus"@);
    lemma_sound_section(root, "serial"@);
    lemma_nodes(root);
    let start = nodes_migrated(root).0;
    let one = section_moved(start, "can"@);
    let two = section_moved(one, "modbus"@);
    let three = section_moved(two, "serial"@);
    lemma_section_settles(start, "can"@);
    assert(table_under(one, "frame"@, "modbus"@) == table_under(start, "frame"@, "modbus"@));
    assert(table_under(one, "frame"@, "serial"@) == table_under(start, "frame"@, "serial"@));
    lemma_section_settles(one, "modbus"@);
    assert(table_under(two, "frame"@, "serial"@) == table_under(one, "frame"@, "serial"@));
    assert(table_under(two, "frame"@, "can"@) == table_under(one, "frame"@, "can"@));
    lemma_section_settles(two, "serial"@);
    assert(table_under(three, "frame"@, "can"@) == table_under(two, "frame"@, "can"@));
    assert(table_under(three, "frame"@, "modbus"@) == table_under(two, "frame"@, "modbus"@));
    assert(three.get("node"@) == start.get("node"@));
    assert(!lacks_nodes(three)) by {
        if let Some(section) = table_under(three, "frame"@, "modbus"@) {
            let first = table_under(start, "frame"@, "modbus"@)->Some_0;
            assert(crate::document::keys_of(section.entries()) == crate::document::keys_of(
                first.entries(),
            ));
            if has_frame(section.entries()) {
                let i = choose|i: int|
                    0 <= i < section.entries().len() && (#[trigger] section.entries()[i]).0
                        != "config"@;
                assert(crate::document::keys_of(section.entries())[i] == section.entries()[i].0);
                assert(crate::document::keys_of(section.entries()).len()
                    == section.entries().len());
                assert(crate::document::keys_of(first.entries()).len() == first.entries().len());
                assert(crate::document::keys_of(first.entries())[i] == first.entries()[i].0);
                assert(has_frame(first.entries()));
            }
        }
    }
    lemma_settled_section(three, "can"@);
    lemma_settled_section(three, "modbus"@);
    lemma_settled_section(three, "serial"@);
    assert(Seq::<Seq<char>>::empty() + Seq::<Seq<char>>::empty() == Seq::<Seq<char>>::empty());
}

/// Whether a part is an integer.
pub open spec fn is_integer(part: Option<crate::document::Part>, value: int) -> bool {
    part matches Some(crate::document::Part::Integer { value: held, .. }) && held == value
}

/// Moving an interval gives the frame the interval of its transmission table, unless it
/// has one of its own, which stays. Nothing else of the frame changes but that table,
/// which loses its intervals, and goes where it held nothing else.
pub proof fn law_intervals_move_to_their_frame(
    frame: crate::document::Part,
    tx: crate::document::Part,
    ms: i64,
    other: Seq<char>,
)
    requires
        frame is Table,
        frame.is_sound(),
        frame.get("tx"@) == Some(tx),
        tx.is_table_like(),
        is_integer(tx.get("interval_ms"@), ms as int) || tx.get("interval_ms"@) is None
            && is_integer(tx.get("interval"@), ms as int),
        other != "tx"@,
        other != "interval_ms"@,
    ensures
        ({
            let now = interval_moved(frame);
            &&& frame.get("interval_ms"@) is None ==> is_integer(now.get("interval_ms"@), ms as int)
            &&& frame.get("interval_ms"@) is Some ==> now.get("interval_ms"@) == frame.get(
                "interval_ms"@,
            )
            &&& now.get(other) == frame.get(other)
            &&& match now.get("tx"@) {
                Some(left) => {
                    &&& left.get("interval_ms"@) is None
                    &&& left.get("interval"@) is None
                    &&& other != "interval"@ ==> left.get(other) == tx.get(other)
                },
                None => other != "interval"@ ==> tx.get(other) is None,
            }
        }),
{
    lemma_names();
    crate::document::lemma_sound_child(frame, "tx"@);
    let first = tx.unset("interval_ms"@);
    let left = first.unset("interval"@);
    crate::document::lemma_unset(tx, "interval_ms"@);
    crate::document::lemma_unset(first, "interval"@);
    crate::document::lemma_unset(frame, "tx"@);
    crate::document::lemma_set_again(frame, "tx"@, left, left);
    crate::document::lemma_get_other(frame, "tx"@, left, "interval_ms"@);
    crate::document::lemma_get_other(frame, "tx"@, left, other);
    let taken = interval_taken(frame);
    let value = integer(ms);
    assert(tx_interval(frame) == Some(ms));
    crate::document::lemma_set_again(taken, "interval_ms"@, value, value);
    crate::document::lemma_get_other(taken, "interval_ms"@, value, other);
    crate::document::lemma_get_other(taken, "interval_ms"@, value, "tx"@);
    if left.entries().len() == 0 {
        crate::document::lemma_key_place(left.entries(), other, 0);
        assert(left.get(other) is None);
    }
}

/// A frame without an interval in a transmission table stays as it is.
pub proof fn law_frames_without_intervals_stay(frame: crate::document::Part)
    requires
        frame.get("tx"@) is None || !frame.get("tx"@)->Some_0.is_table_like() || frame.get(
            "tx"@,
        )->Some_0.get("interval_ms"@) is None && frame.get("tx"@)->Some_0.get("interval"@) is None,
    ensures
        interval_moved(frame) == frame,
{
}

/// Every frame of a section is moved alike, under its key and in its place; its `config`
/// stays.
pub proof fn law_every_frame_is_moved(entries: Seq<(Seq<char>, crate::document::Part)>, i: int)
    requires
        0 <= i < entries.len(),
    ensures
        all_moved(entries).len() == entries.len(),
        all_moved(entries)[i].0 == entries[i].0,
        entries[i].0 != "config"@ && entries[i].1 is Table ==> all_moved(entries)[i].1
            == interval_moved(entries[i].1),
        entries[i].0 == "config"@ || !(entries[i].1 is Table) ==> all_moved(entries)[i].1
            == entries[i].1,
{
}

/// Upgrading a section moves the intervals of its frames, wherever the section stands, and
/// leaves the other sections.
pub proof fn law_upgraded_sections_hold_their_frames(
    root: crate::document::Part,
    protocol: Seq<char>,
    other: Seq<char>,
    frames: crate::document::Part,
    section: crate::document::Part,
)
    requires
        root is Table,
        root.get("frame"@) == Some(frames),
        frames is Table,
        frames.get(protocol) == Some(section),
        section is Table,
        other != protocol,
    ensures
        section_moved(root, protocol).get("frame"@) matches Some(now) && {
            &&& now.get(other) == frames.get(other)
            &&& now.get(protocol) matches Some(after)
            &&& after.entries() == all_moved(section.entries())
        },
{
    let after = section.with(all_moved(section.entries()));
    let now = frames.set(protocol, after);
    crate::document::lemma_set_again(frames, protocol, after, after);
    crate::document::lemma_get_other(frames, protocol, after, other);
    crate::document::lemma_set_again(root, "frame"@, now, now);
}

/// Tagging gives every register without one the address of the node, and leaves the other
/// fields of it, and every other register, as they are.
pub proof fn law_registers_get_their_node(
    entries: Seq<(Seq<char>, crate::document::Part)>,
    address: u8,
    i: int,
    other: Seq<char>,
)
    requires
        0 <= i < entries.len(),
        other != "node_address"@,
    ensures
        ({
            let e = entries[i];
            let now = all_tagged(entries, address)[i];
            &&& all_tagged(entries, address).len() == entries.len()
            &&& now.0 == e.0
            &&& e.0 != "config"@ && e.1 is Table && e.1.get("node_address"@) is None ==> is_integer(
                now.1.get("node_address"@),
                address as int,
            ) && now.1.get(other) == e.1.get(other)
            &&& e.0 == "config"@ || !(e.1 is Table) || e.1.get("node_address"@) is Some ==> now == e
        }),
{
    let e = entries[i];
    let value = integer(address as i64);
    if e.1 is Table {
        crate::document::lemma_set_again(e.1, "node_address"@, value, value);
        crate::document::lemma_get_other(e.1, "node_address"@, value, other);
    }
}

/// Upgrading a catalogue with Modbus registers but no nodes gives it one, named after the
/// address of its registers: the one `[meta.modbus]` gives, else 1.
pub proof fn law_upgraded_catalogues_have_a_node(root: crate::document::Part)
    requires
        root is Table,
        root.is_sound(),
        lacks_nodes(root),
    ensures
        ({
            let address = match root.get("meta"@) {
                Some(meta) => match meta.get("modbus"@) {
                    Some(modbus) => match modbus.get("device_address"@) {
                        Some(crate::document::Part::Integer { value, .. }) => if meta is Table
                            && modbus is Table && 0 <= value <= 255 {
                            value as int
                        } else {
                            1
                        },
                        _ => 1,
                    },
                    None => 1,
                },
                None => 1,
            };
            let now = nodes_migrated(root).0;
            &&& nodes_migrated(root).1.len() >= 1
            &&& now.get("node"@) matches Some(nodes)
            &&& nodes.get("Slave "@ + crate::text::decimal(address as nat)) matches Some(node)
            &&& is_integer(node.get("device_address"@), address)
        }),
{
    lemma_names();
    let address = legacy_address(root);
    let name = crate::catalog::slave_name(address);
    let tagged_root = registers_tagged(root);
    let child = crate::json::child_or_new(tagged_root, "node"@, true);
    let body = node_body(address);
    let nodes = child.put(name, body);
    let value = integer(address as i64);
    crate::document::lemma_set_again(
        crate::document::empty_table(false),
        "device_address"@,
        value,
        value,
    );
    crate::document::lemma_set_again(child, name, body, body);
    assert(tagged_root is Table) by {
        assert(root is Table);
    }
    crate::document::lemma_set_again(tagged_root, "node"@, nodes, nodes);
    let with_node = node_added(tagged_root, address);
    assert(with_node.get("node"@) == Some(nodes));
    if let Some(meta) = table_at(with_node, "meta"@) {
        if let Some(modbus) = table_at(meta, "modbus"@) {
            let left = meta.set("modbus"@, modbus.unset("device_address"@));
            reveal_strlit("node");
            reveal_strlit("meta");
            assert("node"@[0] != "meta"@[0]);
            crate::document::lemma_get_other(with_node, "meta"@, left, "node"@);
        }
    }
}

} // verus!
