//! Assemble the parts of a TOML document into a [`Catalog`].

use crate::manifest::{ModbusFrame, ModbusManifest, ModbusSignal};
use crate::model::{
    copy_text, parse_protocol, CanConfig, Catalog, Frame, Meta, ModbusConfig, NodeDef,
    Protocol, RegisterType, Signal,
};
use crate::parse::{
    frame_interval, normalise_signals, parse_can_config, parse_delimiter, parse_frame_checksums,
    parse_id, parse_modbus_config, parse_nodes, parse_opt_mux, parse_serial_config, parse_tunnel,
    resolve_mirror_inheritance,
};
use crate::text::{chars_of, owned, parse_integer, push_decimal, str_eq};
use crate::value::{child, parse_document, parse_notes, set_label, Tree};
use vstd::prelude::*;

verus! {

// ---------------------------------------------------------------------------
// CAN frames
// ---------------------------------------------------------------------------

/// The default interval of CAN frames.
pub open spec fn can_interval(can: Option<crate::model::CanView>) -> Option<u64> {
    match can {
        Some(c) => c.default_interval,
        None => None,
    }
}

/// Whether CAN frames are extended by default.
pub open spec fn can_extended(can: Option<crate::model::CanView>) -> Option<bool> {
    match can {
        Some(c) => c.default_extended,
        None => None,
    }
}

/// Whether CAN frames are CAN FD by default.
pub open spec fn can_fd(can: Option<crate::model::CanView>) -> Option<bool> {
    match can {
        Some(c) => c.default_fd,
        None => None,
    }
}

/// A one-element list where a condition holds, else an empty one.
pub open spec fn when(condition: bool, name: Seq<char>) -> Seq<Seq<char>> {
    if condition {
        seq![name]
    } else {
        Seq::empty()
    }
}

/// The interval of a CAN frame: explicit, else its source's, else the
/// catalogue's default.
pub open spec fn resolved_interval(
    n: crate::value::Node,
    section: crate::value::Node,
    can: Option<crate::model::CanView>,
) -> Option<u64> {
    crate::header::first_of(
        crate::parse::interval_of(n),
        crate::header::first_of(crate::parse::inherited_interval(n, section), can_interval(can)),
    )
}

/// The fields of a CAN frame that it does not set itself. `extended` is among
/// them whenever not set explicitly, whether it comes from the catalogue's
/// default or from the id.
pub open spec fn inherited_by(
    n: crate::value::Node,
    section: crate::value::Node,
    can: Option<crate::model::CanView>,
) -> Seq<Seq<char>> {
    when(
        n.integer_at("length"@) is None && crate::parse::inherited_length(n, section) is Some,
        "length"@,
    ) + when(
        n.text_at("transmitter"@) is None && crate::parse::inherited_transmitter(
            n,
            section,
        ) is Some,
        "transmitter"@,
    ) + when(
        crate::parse::interval_of(n) is None && resolved_interval(n, section, can) is Some,
        "interval"@,
    ) + when(n.boolean_at("extended"@) is None, "extended"@) + when(
        n.boolean_at("fd"@) is None && can_fd(can) is Some,
        "fd"@,
    )
}

/// A CAN frame, from its table, its section and the catalogue's CAN defaults.
pub open spec fn can_frame(
    key: Seq<char>,
    id: u32,
    n: crate::value::Node,
    section: crate::value::Node,
    can: Option<crate::model::CanView>,
) -> crate::model::FrameView {
    crate::model::FrameView {
        key,
        frame_id: id,
        protocol: Protocol::Can,
        name: None,
        length: crate::model::or_else(
            crate::header::first_of(
                n.u32_at("length"@),
                crate::parse::inherited_length(n, section),
            ),
            8,
        ),
        transmitter: crate::header::first_of(
            n.text_at("transmitter"@),
            crate::parse::inherited_transmitter(n, section),
        ),
        interval: resolved_interval(n, section, can),
        bus: n.u32_at("bus"@),
        is_extended: Some(
            crate::model::or_else(
                crate::header::first_of(n.boolean_at("extended"@), can_extended(can)),
                id > 0x7ff,
            ),
        ),
        is_fd: Some(
            crate::model::or_else(
                crate::header::first_of(n.boolean_at("fd"@), can_fd(can)),
                false,
            ),
        ),
        signals: crate::parse::resolved_signals(n, section),
        mux: crate::parse::resolved_mux(n, section),
        tunnel: crate::parse::tunnel_of(n),
        mirror_of: crate::parse::reference(n.get("mirror_of"@)),
        copy_from: crate::parse::reference(n.get("copy"@)),
        modbus_register_type: None,
        modbus_register_count: None,
        modbus_node: None,
        modbus_device_address: None,
        delimiter: None,
        notes: crate::value::notes_of(n),
        checksums: crate::parse::checksums_of(n),
        inherited_fields: inherited_by(n, section, can),
    }
}

/// The CAN frames among the entries of a section, in their order: all but
/// `config` whose key is an id.
pub open spec fn can_frames_in(
    entries: Seq<(Seq<char>, crate::value::Node)>,
    section: crate::value::Node,
    can: Option<crate::model::CanView>,
) -> Seq<crate::model::FrameView>
    decreases entries.len(),
{
    if entries.len() == 0 {
        Seq::empty()
    } else {
        let before = can_frames_in(entries.drop_last(), section, can);
        let e = entries.last();
        match crate::parse::id_of(e.0) {
            Some(id) => if e.0 == "config"@ {
                before
            } else {
                before.push(can_frame(e.0, id as u32, e.1, section, can))
            },
            None => before,
        }
    }
}

/// The entries of a table; none where there is no table.
pub open spec fn entries_of(n: Option<crate::value::Node>) -> Seq<
    (Seq<char>, crate::value::Node),
> {
    match n {
        Some(crate::value::Node::Table(entries)) => entries,
        _ => Seq::empty(),
    }
}

/// The CAN frames of a catalogue.
pub open spec fn can_frames(root: crate::value::Node) -> Seq<crate::model::FrameView> {
    match crate::parse::frame_part(root, "can"@) {
        Some(section) => can_frames_in(
            entries_of(Some(section)),
            section,
            crate::parse::can_config(root),
        ),
        None => Seq::empty(),
    }
}

fn push_when(list: &mut Vec<String>, condition: bool, name: &str)
    ensures
        crate::text::texts(final(list)@) == crate::text::texts(old(list)@) + when(condition, name@),
{
    let ghost before = crate::text::texts(list@);
    if condition {
        list.push(owned(name));
        assert(crate::text::texts(list@) == before + seq![name@]);
    } else {
        assert(before + Seq::<Seq<char>>::empty() == before);
    }
}

fn build_can_frame(
    key: &str,
    id: u32,
    body: &Tree,
    section: &Tree,
    can: &Option<CanConfig>,
) -> (r: Frame)
    ensures
        r@ == can_frame(key@, id, body.node(), section.node(), crate::parse::opt_can(*can)),
{
    let resolved = resolve_mirror_inheritance(body, section);
    let (default_interval, default_extended, default_fd) = match can {
        Some(c) => (c.default_interval, c.default_extended, c.default_fd),
        None => (None, None, None),
    };
    let length: u32 = match body.u32_at("length") {
        Some(n) => n,
        None => match resolved.length {
            Some(n) => n,
            None => 8,
        },
    };
    let is_extended: bool = match body.boolean_at("extended") {
        Some(b) => b,
        None => match default_extended {
            Some(b) => b,
            None => id > 0x7ff,
        },
    };
    let is_fd: bool = match body.boolean_at("fd") {
        Some(b) => b,
        None => match default_fd {
            Some(b) => b,
            None => false,
        },
    };
    // Interval: explicit → copy/mirror source → catalogue default.
    let own_interval: Option<u64> = frame_interval(body);
    let interval: Option<u64> = match own_interval {
        Some(ms) => Some(ms),
        None => match resolved.interval {
            Some(ms) => Some(ms),
            None => default_interval,
        },
    };
    // Track which fields were inherited rather than set explicitly.
    let mut inherited_fields: Vec<String> = Vec::new();
    assert(crate::text::texts(inherited_fields@) == Seq::<Seq<char>>::empty());
    push_when(
        &mut inherited_fields,
        body.integer_at("length").is_none() && resolved.length.is_some(),
        "length",
    );
    push_when(
        &mut inherited_fields,
        body.text_at("transmitter").is_none() && resolved.transmitter.is_some(),
        "transmitter",
    );
    push_when(&mut inherited_fields, own_interval.is_none() && interval.is_some(), "interval");
    // `extended` is inherited whenever not set explicitly (whether from the
    // catalogue default or auto-detected from the id).
    push_when(&mut inherited_fields, body.boolean_at("extended").is_none(), "extended");
    push_when(
        &mut inherited_fields,
        body.boolean_at("fd").is_none() && default_fd.is_some(),
        "fd",
    );
    assert(crate::text::texts(inherited_fields@) == inherited_by(
        body.node(),
        section.node(),
        crate::parse::opt_can(*can),
    ));
    let transmitter: Option<String> = match body.owned_at("transmitter") {
        Some(t) => Some(t),
        None => resolved.transmitter,
    };
    Frame {
        key: owned(key),
        frame_id: id,
        protocol: Protocol::Can,
        name: None,
        length,
        transmitter,
        interval,
        bus: body.u32_at("bus"),
        is_extended: Some(is_extended),
        is_fd: Some(is_fd),
        signals: resolved.signals,
        mux: resolved.mux,
        tunnel: parse_tunnel(body),
        mirror_of: resolved.mirror_of,
        copy_from: resolved.copy_from,
        modbus_register_type: None,
        modbus_register_count: None,
        modbus_node: None,
        modbus_device_address: None,
        delimiter: None,
        notes: parse_notes(body),
        checksums: parse_frame_checksums(body),
        inherited_fields,
    }
}

fn push_can_frames(frames: &mut Vec<Frame>, section: &Tree, can: &Option<CanConfig>)
    ensures
        crate::model::frame_views(final(frames)@) == crate::model::frame_views(old(frames)@)
            + can_frames_in(
            entries_of(Some(section.node())),
            section.node(),
            crate::parse::opt_can(*can),
        ),
{
    let ghost start = crate::model::frame_views(frames@);
    let ghost cv = crate::parse::opt_can(*can);
    assert(start + Seq::<crate::model::FrameView>::empty() == start);
    let entries = match section.entries() {
        Some(entries) => entries,
        None => {
            return;
        },
    };
    let ghost all = crate::value::entry_views(entries@);
    for i in 0..entries.len()
        invariant
            all == crate::value::entry_views(entries@),
            cv == crate::parse::opt_can(*can),
            crate::model::frame_views(frames@) == start + can_frames_in(
                all.take(i as int),
                section.node(),
                cv,
            ),
    {
        let ghost before = crate::model::frame_views(frames@);
        let ghost listed = can_frames_in(all.take(i as int), section.node(), cv);
        assert(all.take(i + 1).drop_last() == all.take(i as int));
        assert(all.take(i + 1).last() == (entries@[i as int].0@, entries@[i as int].1.node()));
        let key = entries[i].0.as_str();
        if let Some(id) = parse_id(key) {
            if !str_eq(key, "config") {
                let frame = build_can_frame(key, id, &entries[i].1, section, can);
                let ghost view = frame@;
                frames.push(frame);
                assert(crate::model::frame_views(frames@) == before.push(view));
                assert(before.push(view) == start + listed.push(view));
            }
        }
    }
    assert(all.take(all.len() as int) == all);
}

// ---------------------------------------------------------------------------
// Serial frames
// ---------------------------------------------------------------------------

/// A serial frame, from its table.
pub open spec fn serial_frame(key: Seq<char>, id: u32, n: crate::value::Node) -> crate::model::FrameView {
    crate::model::FrameView {
        key,
        frame_id: id,
        protocol: Protocol::Serial,
        name: None,
        length: crate::model::or_else(n.u32_at("length"@), 0),
        transmitter: n.text_at("transmitter"@),
        interval: crate::parse::interval_of(n),
        bus: n.u32_at("bus"@),
        is_extended: None,
        is_fd: None,
        signals: crate::parse::signals_of(crate::parse::items_of(n.get("signals"@))),
        mux: crate::parse::opt_mux_of(n.get("mux"@)),
        tunnel: crate::parse::tunnel_of(n),
        mirror_of: None,
        copy_from: None,
        modbus_register_type: None,
        modbus_register_count: None,
        modbus_node: None,
        modbus_device_address: None,
        delimiter: crate::parse::delimiter_of(n),
        notes: crate::value::notes_of(n),
        checksums: crate::parse::checksums_of(n),
        inherited_fields: Seq::empty(),
    }
}

/// The serial frames among the entries of a section, in their order: all but
/// `config` whose key is an id.
pub open spec fn serial_frames_in(entries: Seq<(Seq<char>, crate::value::Node)>) -> Seq<
    crate::model::FrameView,
>
    decreases entries.len(),
{
    if entries.len() == 0 {
        Seq::empty()
    } else {
        let before = serial_frames_in(entries.drop_last());
        let e = entries.last();
        match crate::parse::id_of(e.0) {
            Some(id) => if e.0 == "config"@ {
                before
            } else {
                before.push(serial_frame(e.0, id as u32, e.1))
            },
            None => before,
        }
    }
}

/// The serial frames of a catalogue (no inheritance).
pub open spec fn serial_frames(root: crate::value::Node) -> Seq<crate::model::FrameView> {
    serial_frames_in(entries_of(crate::parse::frame_part(root, "serial"@)))
}

fn build_serial_frame(key: &str, id: u32, body: &Tree) -> (r: Frame)
    ensures
        r@ == serial_frame(key@, id, body.node()),
{
    let length: u32 = match body.u32_at("length") {
        Some(n) => n,
        None => 0,
    };
    let inherited_fields: Vec<String> = Vec::new();
    assert(crate::text::texts(inherited_fields@) == Seq::<Seq<char>>::empty());
    Frame {
        key: owned(key),
        frame_id: id,
        protocol: Protocol::Serial,
        name: None,
        length,
        transmitter: body.owned_at("transmitter"),
        interval: frame_interval(body),
        bus: body.u32_at("bus"),
        is_extended: None,
        is_fd: None,
        signals: normalise_signals(body.get("signals")),
        mux: parse_opt_mux(body.get("mux")),
        tunnel: parse_tunnel(body),
        mirror_of: None,
        copy_from: None,
        modbus_register_type: None,
        modbus_register_count: None,
        modbus_node: None,
        modbus_device_address: None,
        delimiter: parse_delimiter(body),
        notes: parse_notes(body),
        checksums: parse_frame_checksums(body),
        inherited_fields,
    }
}

fn push_serial_frames(frames: &mut Vec<Frame>, section: &Tree)
    ensures
        crate::model::frame_views(final(frames)@) == crate::model::frame_views(old(frames)@)
            + serial_frames_in(entries_of(Some(section.node()))),
{
    let ghost start = crate::model::frame_views(frames@);
    assert(start + Seq::<crate::model::FrameView>::empty() == start);
    let entries = match section.entries() {
        Some(entries) => entries,
        None => {
            return;
        },
    };
    let ghost all = crate::value::entry_views(entries@);
    for i in 0..entries.len()
        invariant
            all == crate::value::entry_views(entries@),
            crate::model::frame_views(frames@) == start + serial_frames_in(all.take(i as int)),
    {
        let ghost before = crate::model::frame_views(frames@);
        let ghost listed = serial_frames_in(all.take(i as int));
        assert(all.take(i + 1).drop_last() == all.take(i as int));
        assert(all.take(i + 1).last() == (entries@[i as int].0@, entries@[i as int].1.node()));
        let key = entries[i].0.as_str();
        if let Some(id) = parse_id(key) {
            if !str_eq(key, "config") {
                let frame = build_serial_frame(key, id, &entries[i].1);
                let ghost view = frame@;
                frames.push(frame);
                assert(crate::model::frame_views(frames@) == before.push(view));
                assert(before.push(view) == start + listed.push(view));
            }
        }
    }
    assert(all.take(all.len() as int) == all);
}

// ---------------------------------------------------------------------------
// Modbus frames
// ---------------------------------------------------------------------------

/// Whether a section holds anything besides `config`.
pub open spec fn has_frames(n: Option<crate::value::Node>) -> bool {
    exists|i: int|
        0 <= i < entries_of(n).len() && (#[trigger] entries_of(n)[i]).0 != "config"@
}

pub(crate) fn has_any_frame(section: Option<&Tree>) -> (r: bool)
    ensures
        r == has_frames(crate::value::opt_node(section)),
{
    let t = match section {
        Some(t) => t,
        None => {
            return false;
        },
    };
    let entries = match t.entries() {
        Some(entries) => entries,
        None => {
            return false;
        },
    };
    let ghost all = crate::value::entry_views(entries@);
    for i in 0..entries.len()
        invariant
            all == crate::value::entry_views(entries@),
            t.node() == crate::value::Node::Table(all),
            section == Some(t),
            forall|j: int| 0 <= j < i ==> (#[trigger] all[j]).0 == "config"@,
    {
        assert(all[i as int].0 == entries@[i as int].0@);
        if !str_eq(entries[i].0.as_str(), "config") {
            assert(entries_of(crate::value::opt_node(section))[i as int].0 != "config"@);
            return true;
        }
    }
    false
}

/// The name of the node made for a slave address.
pub open spec fn slave_name(address: u8) -> Seq<char> {
    "Slave "@ + crate::text::decimal(address as nat)
}

/// Canonical slave-node name for a Modbus device address. Shared by the parser
/// and the text migration so both spell the node they make identically.
pub fn slave_node_name(addr: u8) -> (r: String)
    ensures
        r@ == slave_name(addr),
{
    let mut out = owned("Slave ");
    push_decimal(&mut out, addr as u128);
    out
}

/// The slave address of a catalogue in the older form, with Modbus frames but no
/// nodes: `[meta.modbus].device_address`, else 1. `None` for any other.
pub open spec fn legacy_address(root: crate::value::Node) -> Option<u8> {
    if has_frames(crate::parse::frame_part(root, "modbus"@)) && crate::parse::node_entries(
        root,
    ).len() == 0 {
        match crate::parse::meta_part(root, "modbus"@) {
            Some(n) => Some(crate::model::or_else(n.u8_at("device_address"@), 1)),
            None => Some(1),
        }
    } else {
        None
    }
}

fn find_legacy_address(root: &Tree) -> (r: Option<u8>)
    ensures
        r == legacy_address(root.node()),
{
    if !has_any_frame(child(root.get("frame"), "modbus")) {
        return None;
    }
    if let Some(t) = root.get("node") {
        if let Some(entries) = t.entries() {
            if entries.len() > 0 {
                return None;
            }
        }
    }
    match child(root.get("meta"), "modbus") {
        Some(t) => match t.u8_at("device_address") {
            Some(a) => Some(a),
            None => Some(1),
        },
        None => Some(1),
    }
}

/// The node made for a slave address.
pub open spec fn slave_node(address: u8) -> crate::model::NodeDefView {
    crate::model::NodeDefView {
        name: slave_name(address),
        device_address: Some(address),
        notes: Seq::empty(),
    }
}

/// The nodes of a catalogue: those of its `[node]` table, or the one made for
/// the slave address of the older form.
pub open spec fn nodes_of(root: crate::value::Node) -> Seq<crate::model::NodeDefView> {
    match legacy_address(root) {
        Some(address) => seq![slave_node(address)],
        None => crate::parse::nodes_in(crate::parse::node_entries(root)),
    }
}

/// The first node with a slave address.
pub open spec fn node_at(nodes: Seq<crate::model::NodeDefView>, address: u8) -> Option<
    crate::model::NodeDefView,
>
    decreases nodes.len(),
{
    if nodes.len() == 0 {
        None
    } else if nodes[0].device_address == Some(address) {
        Some(nodes[0])
    } else {
        node_at(nodes.skip(1), address)
    }
}

/// The first node with a name.
pub open spec fn node_named(nodes: Seq<crate::model::NodeDefView>, name: Seq<char>) -> Option<
    crate::model::NodeDefView,
>
    decreases nodes.len(),
{
    if nodes.len() == 0 {
        None
    } else if nodes[0].name == name {
        Some(nodes[0])
    } else {
        node_named(nodes.skip(1), name)
    }
}

fn find_node_at<'a>(nodes: &'a Vec<NodeDef>, address: u8) -> (r: Option<&'a NodeDef>)
    ensures
        match r {
            Some(n) => node_at(crate::model::node_views(nodes@), address) == Some(n@),
            None => node_at(crate::model::node_views(nodes@), address) is None,
        },
{
    let ghost all = crate::model::node_views(nodes@);
    assert(all.skip(0) == all);
    for i in 0..nodes.len()
        invariant
            all == crate::model::node_views(nodes@),
            node_at(all, address) == node_at(all.skip(i as int), address),
    {
        assert(all.skip(i as int)[0] == nodes@[i as int]@);
        assert(all.skip(i as int).skip(1) == all.skip(i + 1));
        if nodes[i].device_address == Some(address) {
            return Some(&nodes[i]);
        }
    }
    assert(all.skip(all.len() as int).len() == 0);
    None
}

fn find_node_named<'a>(nodes: &'a Vec<NodeDef>, name: &str) -> (r: Option<&'a NodeDef>)
    ensures
        match r {
            Some(n) => node_named(crate::model::node_views(nodes@), name@) == Some(n@),
            None => node_named(crate::model::node_views(nodes@), name@) is None,
        },
{
    let ghost all = crate::model::node_views(nodes@);
    assert(all.skip(0) == all);
    for i in 0..nodes.len()
        invariant
            all == crate::model::node_views(nodes@),
            node_named(all, name@) == node_named(all.skip(i as int), name@),
    {
        assert(all.skip(i as int)[0] == nodes@[i as int]@);
        assert(all.skip(i as int).skip(1) == all.skip(i + 1));
        if str_eq(nodes[i].name.as_str(), name) {
            return Some(&nodes[i]);
        }
    }
    assert(all.skip(all.len() as int).len() == 0);
    None
}

/// The slave address a Modbus frame's table gives. In the older form a frame
/// without one takes the catalogue's.
pub open spec fn own_address(n: Option<crate::value::Node>, legacy: Option<u8>) -> Option<u8> {
    match crate::value::under(n, "node_address"@) {
        Some(_) => n->Some_0.u8_at("node_address"@),
        None => legacy,
    }
}

/// The node a Modbus frame is read from: the one it names, else the one with its
/// slave address.
pub open spec fn frame_node(
    n: Option<crate::value::Node>,
    legacy: Option<u8>,
    nodes: Seq<crate::model::NodeDefView>,
) -> Option<Seq<char>> {
    match crate::value::under(n, "node"@) {
        Some(crate::value::Node::Text(name)) => Some(name),
        _ => match own_address(n, legacy) {
            Some(address) => match node_at(nodes, address) {
                Some(node) => Some(node.name),
                None => None,
            },
            None => None,
        },
    }
}

/// The address of the node a Modbus frame is read from.
pub open spec fn node_address(
    n: Option<crate::value::Node>,
    legacy: Option<u8>,
    nodes: Seq<crate::model::NodeDefView>,
) -> Option<u8> {
    match frame_node(n, legacy, nodes) {
        Some(name) => match node_named(nodes, name) {
            Some(node) => node.device_address,
            None => None,
        },
        None => None,
    }
}

/// The slave address a Modbus frame is polled at: its node's, else its own, else
/// the catalogue's, else 1.
pub open spec fn poll_address(
    n: Option<crate::value::Node>,
    legacy: Option<u8>,
    nodes: Seq<crate::model::NodeDefView>,
    fallback: Option<u8>,
) -> u8 {
    crate::model::or_else(
        crate::header::first_of(
            node_address(n, legacy, nodes),
            crate::header::first_of(own_address(n, legacy), fallback),
        ),
        1,
    )
}

/// The labelled values among pairs of strings, in value order; of several keys
/// for one integer the last wins.
pub open spec fn labels_of_pairs(pairs: Seq<(Seq<char>, Seq<char>)>) -> Seq<(i64, Seq<char>)>
    decreases pairs.len(),
{
    if pairs.len() == 0 {
        Seq::empty()
    } else {
        let before = labels_of_pairs(pairs.drop_last());
        match crate::value::key_integer(pairs.last().0) {
            Some(k) => crate::value::with_label(before, k as i64, pairs.last().1),
            None => before,
        }
    }
}

/// The labelled values of a Modbus signal; `None` where it has none.
pub open spec fn modbus_labels(pairs: Option<Seq<(Seq<char>, Seq<char>)>>) -> Option<
    Seq<(i64, Seq<char>)>,
> {
    match pairs {
        Some(pairs) => if labels_of_pairs(pairs).len() > 0 {
            Some(labels_of_pairs(pairs))
        } else {
            None
        },
        None => None,
    }
}

fn map_labels(pairs: &Option<Vec<(String, String)>>) -> (r: Option<Vec<(i64, String)>>)
    ensures
        crate::model::opt_labels(r) == modbus_labels(crate::manifest::opt_pairs(*pairs)),
{
    let list = match pairs {
        Some(list) => list,
        None => {
            return None;
        },
    };
    let ghost all = crate::manifest::pair_texts(list@);
    let mut out: Vec<(i64, String)> = Vec::new();
    assert(crate::model::labels(out@) == Seq::<(i64, Seq<char>)>::empty());
    for i in 0..list.len()
        invariant
            all == crate::manifest::pair_texts(list@),
            crate::model::labels(out@) == labels_of_pairs(all.take(i as int)),
    {
        assert(all.take(i + 1).drop_last() == all.take(i as int));
        assert(all.take(i + 1).last() == (list@[i as int].0@, list@[i as int].1@));
        let chars = chars_of(list[i].0.as_str());
        let key = parse_integer(
            chars.as_slice(),
            10,
            -0x8000_0000_0000_0000,
            0x7FFF_FFFF_FFFF_FFFF,
        );
        if let Some(k) = key {
            set_label(&mut out, k as i64, owned(list[i].1.as_str()));
        }
    }
    assert(all.take(all.len() as int) == all);
    if out.len() == 0 {
        None
    } else {
        Some(out)
    }
}

/// How many bits one register of a bank holds: 16 for word registers, one for
/// coils and discretes.
pub open spec fn bits_per_register(bank: RegisterType) -> int {
    if bank.holds_registers() {
        16
    } else {
        1
    }
}

/// A signal of a Modbus frame, with its own register and span worked out from its
/// bit offset. Both wrap where they exceed their type.
pub open spec fn modbus_signal(
    s: crate::manifest::ModbusSignalView,
    base: u32,
    bank: RegisterType,
) -> crate::model::SignalView {
    let bits = bits_per_register(bank);
    crate::model::SignalView {
        name: Some(s.name),
        start_bit: Some(s.start_bit),
        bit_length: Some(s.bit_length),
        signed: Some(s.signed),
        endianness: s.byte_order,
        word_order: s.word_order,
        factor: s.factor,
        offset: s.offset,
        unit: s.unit,
        format: s.format,
        enum_map: modbus_labels(s.enum_map),
        modbus_register: Some(((base + s.start_bit as int / bits) % 0x1_0000_0000) as u32),
        modbus_register_count: Some((((s.bit_length + bits - 1) / bits) % 0x1_0000) as u16),
        ..crate::model::blank_signal()
    }
}

fn map_modbus_signal(s: &ModbusSignal, base_register: u32, bank: RegisterType) -> (r: Signal)
    ensures
        r@ == modbus_signal(s@, base_register, bank),
{
    // Word registers (holding/input) hold 16 bits each; coils/discretes are
    // 1 bit each, so the bit offset maps straight to a coil offset.
    let bits: u64 = if bank.is_register_bank() {
        16
    } else {
        1
    };
    let register: u32 = ((base_register as u64 + s.start_bit as u64 / bits) % 0x1_0000_0000) as u32;
    let count: u16 = (((s.bit_length as u64 + bits - 1) / bits) % 0x1_0000) as u16;
    let notes: Vec<String> = Vec::new();
    assert(crate::text::texts(notes@) == Seq::<Seq<char>>::empty());
    Signal {
        name: Some(owned(s.name.as_str())),
        start_bit: Some(s.start_bit),
        bit_length: Some(s.bit_length),
        signed: Some(s.signed),
        endianness: s.byte_order,
        word_order: s.word_order,
        factor: s.factor,
        offset: s.offset,
        unit: copy_text(&s.unit),
        min: None,
        max: None,
        format: s.format,
        enum_map: map_labels(&s.enum_map),
        confidence: None,
        notes,
        inherited: false,
        modbus_register: Some(register),
        modbus_register_count: Some(count),
    }
}

/// The signals of a Modbus frame.
pub open spec fn modbus_signals(f: crate::manifest::ModbusFrameView) -> Seq<
    crate::model::SignalView,
> {
    f.signals.map_values(
        |s: crate::manifest::ModbusSignalView|
            modbus_signal(s, f.register_number as u32, f.register_type),
    )
}

fn map_modbus_signals(f: &ModbusFrame) -> (r: Vec<Signal>)
    ensures
        crate::model::signal_views(r@) == modbus_signals(f@),
{
    let ghost all = modbus_signals(f@);
    let mut out: Vec<Signal> = Vec::new();
    for i in 0..f.signals.len()
        invariant
            all == modbus_signals(f@),
            all.len() == f.signals@.len(),
            crate::model::signal_views(out@) == all.take(i as int),
    {
        let ghost before = crate::model::signal_views(out@);
        let s = map_modbus_signal(&f.signals[i], f.register_number as u32, f.register_type);
        out.push(s);
        assert(crate::model::signal_views(out@) == before.push(s@));
        assert(all[i as int] == s@);
        assert(all.take(i + 1) == all.take(i as int).push(all[i as int]));
    }
    assert(all.take(all.len() as int) == all);
    out
}

/// The byte length of a register block: two bytes a register, or eight coils a
/// byte.
pub open spec fn block_length(bank: RegisterType, count: u16) -> u32 {
    if bank.holds_registers() {
        (count * 2) as u32
    } else {
        ((count + 7) / 8) as u32
    }
}

/// What a Modbus frame's place in the catalogue depends on, besides the frame.
#[verifier::ext_equal]
pub struct ModbusContext {
    pub legacy: Option<u8>,
    pub nodes: Seq<crate::model::NodeDefView>,
    pub config: Option<ModbusConfig>,
}

/// That of a catalogue.
pub open spec fn modbus_context(root: crate::value::Node) -> ModbusContext {
    ModbusContext {
        legacy: legacy_address(root),
        nodes: nodes_of(root),
        config: crate::parse::modbus_config(root),
    }
}

impl ModbusContext {
    /// The catalogue's slave address; in the older form the node owns it.
    pub open spec fn fallback(self) -> Option<u8> {
        match self.config {
            Some(c) => if self.legacy is Some {
                None
            } else {
                c.device_address
            },
            None => None,
        }
    }

    /// The catalogue's register base.
    pub open spec fn base(self) -> Option<u8> {
        match self.config {
            Some(c) => c.register_base,
            None => None,
        }
    }

    /// The catalogue's default interval.
    pub open spec fn interval(self) -> Option<u64> {
        match self.config {
            Some(c) => c.default_interval,
            None => None,
        }
    }
}

/// A Modbus frame of the catalogue, from the manifest's frame and its table.
pub open spec fn modbus_frame(
    f: crate::manifest::ModbusFrameView,
    n: Option<crate::value::Node>,
    ctx: ModbusContext,
) -> crate::model::FrameView {
    crate::model::FrameView {
        key: f.name,
        frame_id: f.register_number as u32,
        protocol: Protocol::Modbus,
        name: Some(f.name),
        length: block_length(f.register_type, f.length),
        transmitter: None,
        interval: Some(f.interval_ms),
        bus: None,
        is_extended: None,
        is_fd: None,
        signals: modbus_signals(f),
        mux: None,
        tunnel: None,
        mirror_of: None,
        copy_from: None,
        modbus_register_type: Some(f.register_type),
        modbus_register_count: Some(f.length),
        modbus_node: frame_node(n, ctx.legacy, ctx.nodes),
        modbus_device_address: Some(poll_address(n, ctx.legacy, ctx.nodes, ctx.fallback())),
        delimiter: None,
        notes: match n {
            Some(n) => crate::value::notes_of(n),
            None => Seq::empty(),
        },
        checksums: Seq::empty(),
        inherited_fields: when(ctx.fallback() is Some, "deviceAddress"@) + when(
            ctx.base() is Some,
            "registerBase"@,
        ) + when(
            (n matches Some(n) ==> crate::parse::interval_of(n) is None) && ctx.interval() is Some,
            "interval"@,
        ),
    }
}

/// The Modbus frames of a catalogue. A malformed Modbus section gives none; CAN
/// and serial frames parse independently.
pub open spec fn modbus_frames(root: crate::value::Node) -> Seq<crate::model::FrameView> {
    match crate::manifest::manifest_of(root) {
        Ok(manifest) => manifest.frames.map_values(
            |f: crate::manifest::ModbusFrameView|
                modbus_frame(
                    f,
                    crate::value::under(crate::parse::frame_part(root, "modbus"@), f.name),
                    modbus_context(root),
                ),
        ),
        Err(_) => Seq::empty(),
    }
}

/// The slave node of a Modbus frame and the address it is polled at.
fn resolve_address(
    body: Option<&Tree>,
    legacy: Option<u8>,
    nodes: &Vec<NodeDef>,
    fallback: Option<u8>,
) -> (r: (Option<String>, u8))
    ensures
        crate::model::opt_text(r.0) == frame_node(
            crate::value::opt_node(body),
            legacy,
            crate::model::node_views(nodes@),
        ),
        r.1 == poll_address(
            crate::value::opt_node(body),
            legacy,
            crate::model::node_views(nodes@),
            fallback,
        ),
{
    let own: Option<u8> = match body {
        Some(b) => if b.get("node_address").is_some() {
            b.u8_at("node_address")
        } else {
            legacy
        },
        None => legacy,
    };
    let named: Option<String> = match body {
        Some(b) => b.owned_at("node"),
        None => None,
    };
    let node: Option<String> = match named {
        Some(name) => Some(name),
        None => match own {
            Some(address) => match find_node_at(nodes, address) {
                Some(node) => Some(owned(node.name.as_str())),
                None => None,
            },
            None => None,
        },
    };
    let through: Option<u8> = match &node {
        Some(name) => match find_node_named(nodes, name.as_str()) {
            Some(n) => n.device_address,
            None => None,
        },
        None => None,
    };
    let address: u8 = match through {
        Some(a) => a,
        None => match own {
            Some(a) => a,
            None => match fallback {
                Some(a) => a,
                None => 1,
            },
        },
    };
    (node, address)
}

fn build_modbus_frame(
    f: &ModbusFrame,
    body: Option<&Tree>,
    legacy: Option<u8>,
    nodes: &Vec<NodeDef>,
    config: Option<ModbusConfig>,
) -> (r: Frame)
    ensures
        r@ == modbus_frame(
            f@,
            crate::value::opt_node(body),
            (ModbusContext { legacy, nodes: crate::model::node_views(nodes@), config }),
        ),
{
    let ghost ctx = ModbusContext { legacy, nodes: crate::model::node_views(nodes@), config };
    let (configured, base, default_interval) = match config {
        Some(c) => (c.device_address, c.register_base, c.default_interval),
        None => (None, None, None),
    };
    let fallback: Option<u8> = if legacy.is_some() {
        None
    } else {
        configured
    };
    let (node, address) = resolve_address(body, legacy, nodes, fallback);
    let length: u32 = if f.register_type.is_register_bank() {
        f.length as u32 * 2
    } else {
        (f.length as u32 + 7) / 8
    };
    let explicit: Option<u64> = match body {
        Some(b) => frame_interval(b),
        None => None,
    };
    let mut inherited: Vec<String> = Vec::new();
    assert(crate::text::texts(inherited@) == Seq::<Seq<char>>::empty());
    push_when(&mut inherited, fallback.is_some(), "deviceAddress");
    push_when(&mut inherited, base.is_some(), "registerBase");
    push_when(&mut inherited, explicit.is_none() && default_interval.is_some(), "interval");
    assert(crate::text::texts(inherited@) == modbus_frame(
        f@,
        crate::value::opt_node(body),
        ctx,
    ).inherited_fields);
    let empty: Vec<String> = Vec::new();
    assert(crate::text::texts(empty@) == Seq::<Seq<char>>::empty());
    let notes: Vec<String> = match body {
        Some(b) => parse_notes(b),
        None => empty,
    };
    let checksums: Vec<crate::model::FrameChecksum> = Vec::new();
    assert(crate::model::checksum_views(checksums@) == Seq::<
        crate::model::FrameChecksumView,
    >::empty());
    Frame {
        key: owned(f.name.as_str()),
        frame_id: f.register_number as u32,
        protocol: Protocol::Modbus,
        name: Some(owned(f.name.as_str())),
        length,
        transmitter: None,
        // Already resolved (frame → meta default → built-in default).
        interval: Some(f.interval_ms),
        bus: None,
        is_extended: None,
        is_fd: None,
        signals: map_modbus_signals(f),
        mux: None,
        tunnel: None,
        mirror_of: None,
        copy_from: None,
        modbus_register_type: Some(f.register_type),
        modbus_register_count: Some(f.length),
        modbus_node: node,
        modbus_device_address: Some(address),
        delimiter: None,
        notes,
        checksums,
        inherited_fields: inherited,
    }
}

fn push_modbus_frames(
    frames: &mut Vec<Frame>,
    root: &Tree,
    legacy: Option<u8>,
    nodes: &Vec<NodeDef>,
    config: Option<ModbusConfig>,
)
    requires
        legacy == legacy_address(root.node()),
        crate::model::node_views(nodes@) == nodes_of(root.node()),
        config == crate::parse::modbus_config(root.node()),
    ensures
        crate::model::frame_views(final(frames)@) == crate::model::frame_views(old(frames)@)
            + modbus_frames(root.node()),
{
    let ghost start = crate::model::frame_views(frames@);
    let ghost all = modbus_frames(root.node());
    assert(start + Seq::<crate::model::FrameView>::empty() == start);
    let manifest = match ModbusManifest::from_tree(root) {
        Ok(manifest) => manifest,
        Err(_) => {
            return;
        },
    };
    let section = child(root.get("frame"), "modbus");
    assert(all.take(0) == Seq::<crate::model::FrameView>::empty());
    for i in 0..manifest.frames.len()
        invariant
            all == modbus_frames(root.node()),
            legacy == legacy_address(root.node()),
            crate::model::node_views(nodes@) == nodes_of(root.node()),
            config == crate::parse::modbus_config(root.node()),
            crate::manifest::manifest_of(root.node()) == Ok::<
                crate::manifest::ManifestView,
                crate::manifest::ManifestFault,
            >(manifest@),
            crate::value::opt_node(section) == crate::parse::frame_part(root.node(), "modbus"@),
            all.len() == manifest.frames@.len(),
            crate::model::frame_views(frames@) == start + all.take(i as int),
    {
        let ghost before = crate::model::frame_views(frames@);
        let f = &manifest.frames[i];
        let body = child(section, f.name.as_str());
        assert(manifest@.frames[i as int] == f@);
        let frame = build_modbus_frame(f, body, legacy, nodes, config);
        let ghost view = frame@;
        frames.push(frame);
        assert(crate::model::frame_views(frames@) == before.push(view));
        assert(all[i as int] == view);
        assert(before.push(view) == start + all.take(i + 1));
    }
    assert(all.take(all.len() as int) == all);
}

// ---------------------------------------------------------------------------
// Catalogues
// ---------------------------------------------------------------------------

#[derive(Debug, Clone, PartialEq, Eq)]
pub enum CatalogError {
    Toml(String),
}

impl CatalogError {
    /// What the parser said of the text.
    pub open spec fn reason(self) -> Seq<char> {
        match self {
            CatalogError::Toml(m) => m@,
        }
    }

    /// What the error says.
    pub fn message(&self) -> (r: String)
        ensures
            r@ == "catalogue is not valid TOML: "@ + self.reason(),
    {
        let mut out = owned("catalogue is not valid TOML: ");
        match self {
            CatalogError::Toml(m) => {
                crate::text::push_text(&mut out, m.as_str());
            },
        }
        out
    }
}

/// The identity of a catalogue.
pub open spec fn meta_of(root: crate::value::Node) -> crate::model::MetaView {
    let meta = root.get("meta"@);
    crate::model::MetaView {
        name: match meta {
            Some(m) => crate::model::or_else(m.text_at("name"@), Seq::empty()),
            None => Seq::empty(),
        },
        version: match meta {
            Some(m) => crate::model::or_else(m.u32_at("version"@), 1),
            None => 1,
        },
        default_frame: match meta {
            Some(m) => match m.text_at("default_frame"@) {
                Some(p) => crate::model::protocol_named(p),
                None => None,
            },
            None => None,
        },
    }
}

/// The protocol of a catalogue: the one it names, else the one its frames have;
/// CAN where that is open.
pub open spec fn protocol_of(root: crate::value::Node) -> Protocol {
    let can = has_frames(crate::parse::frame_part(root, "can"@));
    let serial = has_frames(crate::parse::frame_part(root, "serial"@));
    let modbus = has_frames(crate::parse::frame_part(root, "modbus"@));
    match meta_of(root).default_frame {
        Some(p) => p,
        None => if modbus && !can && !serial {
            Protocol::Modbus
        } else if serial && !can {
            Protocol::Serial
        } else {
            Protocol::Can
        },
    }
}

/// The catalogue a document holds.
pub open spec fn catalog_of(root: crate::value::Node) -> crate::model::CatalogView {
    crate::model::CatalogView {
        meta: meta_of(root),
        protocol: protocol_of(root),
        can: crate::parse::can_config(root),
        serial: crate::parse::serial_config(root),
        modbus: crate::parse::modbus_config(root),
        frames: can_frames(root) + serial_frames(root) + modbus_frames(root),
        nodes: nodes_of(root),
    }
}

fn parse_meta(root: &Tree) -> (r: Meta)
    ensures
        r@ == meta_of(root.node()),
{
    let empty = owned("");
    proof {
        reveal_strlit("");
        assert(empty@ == Seq::<char>::empty());
    }
    match root.get("meta") {
        Some(m) => {
            let name: String = match m.owned_at("name") {
                Some(name) => name,
                None => empty,
            };
            let version: u32 = match m.u32_at("version") {
                Some(version) => version,
                None => 1,
            };
            let default_frame: Option<Protocol> = match m.text_at("default_frame") {
                Some(p) => parse_protocol(p),
                None => None,
            };
            Meta { name, version, default_frame }
        },
        None => Meta { name: empty, version: 1, default_frame: None },
    }
}

fn resolve_nodes(root: &Tree, legacy: Option<u8>) -> (r: Vec<NodeDef>)
    requires
        legacy == legacy_address(root.node()),
    ensures
        crate::model::node_views(r@) == nodes_of(root.node()),
{
    match legacy {
        Some(address) => {
            let notes: Vec<String> = Vec::new();
            assert(crate::text::texts(notes@) == Seq::<Seq<char>>::empty());
            let def = NodeDef {
                name: slave_node_name(address),
                device_address: Some(address),
                notes,
            };
            let mut out: Vec<NodeDef> = Vec::new();
            out.push(def);
            assert(crate::model::node_views(out@) == seq![slave_node(address)]);
            out
        },
        None => parse_nodes(root),
    }
}

/// The first frame with a numeric id.
pub open spec fn frame_with_id(frames: Seq<crate::model::FrameView>, id: u32) -> Option<int>
    decreases frames.len(),
{
    if frames.len() == 0 {
        None
    } else {
        match frame_with_id(frames.drop_last(), id) {
            Some(i) => Some(i),
            None => if frames.last().frame_id == id {
                Some(frames.len() - 1)
            } else {
                None
            },
        }
    }
}

impl Catalog {
    /// Read a parsed document as a catalogue.
    pub fn from_tree(root: &Tree) -> (r: Catalog)
        ensures
            r@ == catalog_of(root.node()),
    {
        let meta = parse_meta(root);
        let can = parse_can_config(root);
        let serial = parse_serial_config(root);
        let modbus = parse_modbus_config(root);
        let frame_tree = root.get("frame");
        let can_section = child(frame_tree, "can");
        let serial_section = child(frame_tree, "serial");
        let modbus_section = child(frame_tree, "modbus");
        let legacy: Option<u8> = find_legacy_address(root);
        let nodes = resolve_nodes(root, legacy);
        let mut frames: Vec<Frame> = Vec::new();
        let ghost none = Seq::<crate::model::FrameView>::empty();
        assert(crate::model::frame_views(frames@) == none);
        if let Some(section) = can_section {
            push_can_frames(&mut frames, section, &can);
        }
        assert(crate::model::frame_views(frames@) == can_frames(root.node()));
        if let Some(section) = serial_section {
            push_serial_frames(&mut frames, section);
        }
        assert(crate::model::frame_views(frames@) == can_frames(root.node()) + serial_frames(
            root.node(),
        ));
        push_modbus_frames(&mut frames, root, legacy, &nodes, modbus);
        let has_can = has_any_frame(can_section);
        let has_serial = has_any_frame(serial_section);
        let has_modbus = has_any_frame(modbus_section);
        let protocol: Protocol = match meta.default_frame {
            Some(p) => p,
            None => if has_modbus && !has_can && !has_serial {
                Protocol::Modbus
            } else if has_serial && !has_can {
                Protocol::Serial
            } else {
                Protocol::Can
            },
        };
        Catalog { meta, protocol, can, serial, modbus, frames, nodes }
    }

    /// Parse a TOML catalogue into the resolved model.
    pub fn parse(text: &str) -> (r: Result<Catalog, CatalogError>)
        ensures
            match crate::value::toml_document(text@) {
                Ok(root) => r matches Ok(c) && c@ == catalog_of(root),
                Err(message) => r matches Err(e) && e.reason() == message,
            },
    {
        match parse_document(text) {
            Ok(root) => Ok(Catalog::from_tree(&root)),
            Err(message) => Err(CatalogError::Toml(message)),
        }
    }

    /// Find a parsed frame by its numeric id.
    pub fn frame(&self, id: u32) -> (r: Option<&Frame>)
        ensures
            match r {
                Some(f) => frame_with_id(self@.frames, id) matches Some(i) && f@
                    == self@.frames[i] && *f == self.frames@[i],
                None => frame_with_id(self@.frames, id) is None,
            },
    {
        let ghost all = self@.frames;
        for i in 0..self.frames.len()
            invariant
                all == self@.frames,
                all.len() == self.frames@.len(),
                frame_with_id(all.take(i as int), id) is None,
        {
            assert(all.take(i + 1).drop_last() == all.take(i as int));
            assert(all.take(i + 1).last() == self.frames@[i as int]@);
            if self.frames[i].frame_id == id {
                proof {
                    lemma_frame_found(all, id, i + 1);
                }
                return Some(&self.frames[i]);
            }
        }
        assert(all.take(all.len() as int) == all);
        None
    }
}

proof fn lemma_frame_found(frames: Seq<crate::model::FrameView>, id: u32, n: int)
    requires
        0 <= n <= frames.len(),
        frame_with_id(frames.take(n), id) is Some,
    ensures
        frame_with_id(frames, id) == frame_with_id(frames.take(n), id),
    decreases frames.len() - n,
{
    if n < frames.len() {
        assert(frames.take(n + 1).drop_last() == frames.take(n));
        lemma_frame_found(frames, id, n + 1);
    } else {
        assert(frames.take(n) == frames);
    }
}

} // verus!
