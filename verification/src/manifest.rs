//! Modbus manifests: the register blocks to poll, the signals they hold, and the
//! writes that set them.
//!
//! ```toml
//! [meta.modbus]
//! device_address = 1
//! register_base = 0          # 0 = IEC/0-based, 1 = traditional 3xxxx/4xxxx
//! default_interval = 5000    # ms
//! default_byte_order = "big"
//! default_word_order = "little"
//!
//! [frame.modbus.battery_status]   # one Modbus read of a register block
//! register_number = 13019
//! register_type = "input"          # input | holding | coil | discrete
//! length = 9                       # register count
//! tx.interval_ms = 10000
//!
//! [[frame.modbus.battery_status.signals]]   # a bit-slice of the block
//! name = "Battery_SoC"
//! start_bit = 48
//! bit_length = 16
//! factor = 0.1
//! unit = "%"
//! ```
//!
//! Each `[frame.modbus.<name>]` is ONE Modbus read; its `signals` are
//! bit-slices decoded from the returned register block. A signal may
//! span registers (e.g. a 32-bit value across two), and multi-register
//! values honour `word_order` (Sungrow stores them low-word-first).

use crate::keyed::insert_keyed;
use crate::model::{
    parse_endianness, parse_format, parse_register_type, Endianness, RegisterType, SignalFormat,
};
use crate::text::{
    chars_of, is_text_before, owned, parse_integer, parse_natural, push_text, str_eq,
    strip_hex_prefix, trim_chars,
};
use crate::value::{parse_document, Number, Tree};
use crate::document::{
    boolean_item, child_mut, look, parse_editable, put, root_mut, take, write_document, Look,
};
use crate::text::{cat2, cat3};
use toml_edit::{DocumentMut, Item};
use vstd::prelude::*;

verus! {

/// Poll interval used when neither the frame nor `[meta.modbus]` sets one.
pub const DEFAULT_INTERVAL_MS: u64 = 5000;

#[derive(Debug, Clone, PartialEq, Eq)]
pub enum ManifestError {
    /// Not valid TOML, with the parser's message.
    Toml(String),
    /// Valid TOML, but a key has a value of the wrong kind, or a required one is
    /// missing; which one is not told.
    Shape,
    NoFrames,
    BadRegister(String),
}

/// A manifest error, as a mathematical value.
#[verifier::ext_equal]
pub enum ManifestFault {
    Toml(Seq<char>),
    Shape,
    NoFrames,
    BadRegister(Seq<char>),
}

impl View for ManifestError {
    type V = ManifestFault;

    open spec fn view(&self) -> ManifestFault {
        match self {
            ManifestError::Toml(m) => ManifestFault::Toml(m@),
            ManifestError::Shape => ManifestFault::Shape,
            ManifestError::NoFrames => ManifestFault::NoFrames,
            ManifestError::BadRegister(name) => ManifestFault::BadRegister(name@),
        }
    }
}

impl ManifestFault {
    /// What the error says.
    pub open spec fn text(self) -> Seq<char> {
        match self {
            ManifestFault::Toml(m) => "manifest is not valid TOML: "@ + m,
            ManifestFault::Shape => "manifest is not valid TOML: a key is missing or of the wrong kind"@,
            ManifestFault::NoFrames => "manifest defines no [frame.modbus.*] frames"@,
            ManifestFault::BadRegister(name) => "frame '"@ + name
                + "' has no register_number and its name is not a register address (decimal or 0x-hex)"@,
        }
    }
}

impl ManifestError {
    /// What the error says.
    pub fn message(&self) -> (r: String)
        ensures
            r@ == self@.text(),
    {
        match self {
            ManifestError::Toml(m) => {
                let mut out = owned("manifest is not valid TOML: ");
                push_text(&mut out, m.as_str());
                out
            },
            ManifestError::Shape => owned(
                "manifest is not valid TOML: a key is missing or of the wrong kind",
            ),
            ManifestError::NoFrames => owned("manifest defines no [frame.modbus.*] frames"),
            ManifestError::BadRegister(name) => {
                let mut out = owned("frame '");
                push_text(&mut out, name.as_str());
                push_text(
                    &mut out,
                    "' has no register_number and its name is not a register address (decimal or 0x-hex)",
                );
                out
            },
        }
    }
}

/// A single decoded field within a frame's register block.
#[derive(Debug, Clone, PartialEq)]
pub struct ModbusSignal {
    pub name: String,
    pub start_bit: u32,
    pub bit_length: u32,
    pub factor: Option<Number>,
    pub offset: Option<Number>,
    pub unit: Option<String>,
    pub signed: bool,
    /// Non-numeric format (ascii/hex/enum/…). When set to a string-ish one the
    /// signal is skipped by [`crate::writes::decode_frame`].
    pub format: Option<SignalFormat>,
    /// Per-signal byte order, overriding `[meta.modbus].default_byte_order`.
    /// Accepts the legacy `endianness` key too.
    pub byte_order: Option<Endianness>,
    /// Per-signal word order, overriding `[meta.modbus].default_word_order`.
    pub word_order: Option<Endianness>,
    /// Optional value↔name map for control/state registers, from the TOML
    /// `[…signals.enum]` table (`170 = "charge"`), in key order. Keys are the
    /// register value as a string; the value is the label. Used to encode a
    /// write from a canonical name. Independent of `format`: a signal may carry
    /// an `enum` map and still decode to its numeric value.
    pub enum_map: Option<Vec<(String, String)>>,
}

/// A list of pairs of strings as text.
pub open spec fn pair_texts(pairs: Seq<(String, String)>) -> Seq<(Seq<char>, Seq<char>)> {
    pairs.map_values(|p: (String, String)| (p.0@, p.1@))
}

/// An optional list of pairs of strings as text.
pub open spec fn opt_pairs(pairs: Option<Vec<(String, String)>>) -> Option<
    Seq<(Seq<char>, Seq<char>)>,
> {
    match pairs {
        Some(p) => Some(pair_texts(p@)),
        None => None,
    }
}

/// A Modbus signal, as a mathematical value.
#[verifier::ext_equal]
pub struct ModbusSignalView {
    pub name: Seq<char>,
    pub start_bit: u32,
    pub bit_length: u32,
    pub factor: Option<Number>,
    pub offset: Option<Number>,
    pub unit: Option<Seq<char>>,
    pub signed: bool,
    pub format: Option<SignalFormat>,
    pub byte_order: Option<Endianness>,
    pub word_order: Option<Endianness>,
    pub enum_map: Option<Seq<(Seq<char>, Seq<char>)>>,
}

impl View for ModbusSignal {
    type V = ModbusSignalView;

    open spec fn view(&self) -> ModbusSignalView {
        ModbusSignalView {
            name: self.name@,
            start_bit: self.start_bit,
            bit_length: self.bit_length,
            factor: self.factor,
            offset: self.offset,
            unit: crate::model::opt_text(self.unit),
            signed: self.signed,
            format: self.format,
            byte_order: self.byte_order,
            word_order: self.word_order,
            enum_map: opt_pairs(self.enum_map),
        }
    }
}

/// What each of a list of Modbus signals is.
pub open spec fn modbus_signal_views(signals: Seq<ModbusSignal>) -> Seq<ModbusSignalView> {
    signals.map_values(|s: ModbusSignal| s@)
}

/// One Modbus read: a contiguous register block plus the signals that
/// decode from it.
#[derive(Debug, Clone, PartialEq)]
pub struct ModbusFrame {
    /// Frame name (the `[frame.modbus.<name>]` table key).
    pub name: String,
    pub register_number: u16,
    pub register_type: RegisterType,
    /// Register (or coil) count to read.
    pub length: u16,
    /// Resolved poll interval (frame `tx` → flat `interval_ms` → meta default →
    /// [`DEFAULT_INTERVAL_MS`]).
    pub interval_ms: u64,
    /// Operator-set `disabled = true`: the poll task skips this frame
    /// entirely. Used to stop hammering a frame the inverter rejects
    /// (e.g. "Illegal data address").
    pub disabled: bool,
    pub signals: Vec<ModbusSignal>,
}

/// A Modbus frame, as a mathematical value.
#[verifier::ext_equal]
pub struct ModbusFrameView {
    pub name: Seq<char>,
    pub register_number: u16,
    pub register_type: RegisterType,
    pub length: u16,
    pub interval_ms: u64,
    pub disabled: bool,
    pub signals: Seq<ModbusSignalView>,
}

impl View for ModbusFrame {
    type V = ModbusFrameView;

    open spec fn view(&self) -> ModbusFrameView {
        ModbusFrameView {
            name: self.name@,
            register_number: self.register_number,
            register_type: self.register_type,
            length: self.length,
            interval_ms: self.interval_ms,
            disabled: self.disabled,
            signals: modbus_signal_views(self.signals@),
        }
    }
}

/// What each of a list of Modbus frames is.
pub open spec fn modbus_frame_views(frames: Seq<ModbusFrame>) -> Seq<ModbusFrameView> {
    frames.map_values(|f: ModbusFrame| f@)
}

/// `[meta.modbus]` connection/decoding defaults.
#[derive(Debug, Clone, Copy, PartialEq, Eq)]
pub struct ModbusMeta {
    pub device_address: u8,
    /// 0 = IEC (0-based protocol addresses); 1 = traditional 1-based with
    /// a type prefix (4xxxx holding, 3xxxx input, …).
    pub register_base: u8,
    pub default_interval_ms: Option<u64>,
    pub default_byte_order: Option<Endianness>,
    pub default_word_order: Option<Endianness>,
}

/// The defaults of a manifest without `[meta.modbus]`.
pub open spec fn default_meta() -> ModbusMeta {
    ModbusMeta {
        device_address: 1,
        register_base: 0,
        default_interval_ms: None,
        default_byte_order: None,
        default_word_order: None,
    }
}

impl Default for ModbusMeta {
    fn default() -> (r: Self)
        ensures
            r == default_meta(),
    {
        Self {
            device_address: 1,
            register_base: 0,
            default_interval_ms: None,
            default_byte_order: None,
            default_word_order: None,
        }
    }
}

/// A parsed manifest: connection defaults + the list of frames to poll.
#[derive(Debug, Clone, PartialEq)]
pub struct ModbusManifest {
    pub meta: ModbusMeta,
    pub frames: Vec<ModbusFrame>,
}

/// A manifest, as a mathematical value.
#[verifier::ext_equal]
pub struct ManifestView {
    pub meta: ModbusMeta,
    pub frames: Seq<ModbusFrameView>,
}

impl View for ModbusManifest {
    type V = ManifestView;

    open spec fn view(&self) -> ManifestView {
        ManifestView { meta: self.meta, frames: modbus_frame_views(self.frames@) }
    }
}

// ---------------------------------------------------------------------------
// Reading optional keys of a fixed kind
//
// Each reader gives `None` where the value has the wrong kind, and
// `Some(None)` where the key is absent.
// ---------------------------------------------------------------------------

/// An optional integer from `low` to `high`.
pub open spec fn optional_integer(n: Option<crate::value::Node>, low: int, high: int) -> Option<
    Option<int>,
> {
    match n {
        None => Some(None),
        Some(crate::value::Node::Integer(i)) => if low <= i <= high {
            Some(Some(i as int))
        } else {
            None
        },
        Some(_) => None,
    }
}

/// An optional boolean.
pub open spec fn optional_bool(n: Option<crate::value::Node>) -> Option<Option<bool>> {
    match n {
        None => Some(None),
        Some(crate::value::Node::Boolean(b)) => Some(Some(b)),
        Some(_) => None,
    }
}

/// An optional string.
pub open spec fn optional_text(n: Option<crate::value::Node>) -> Option<Option<Seq<char>>> {
    match n {
        None => Some(None),
        Some(crate::value::Node::Text(s)) => Some(Some(s)),
        Some(_) => None,
    }
}

/// An optional number.
pub open spec fn optional_number(n: Option<crate::value::Node>) -> Option<Option<Number>> {
    match n {
        None => Some(None),
        Some(node) => match node.number() {
            Some(number) => Some(Some(number)),
            None => None,
        },
    }
}

/// Whether a value is a table or an array with nothing in it.
pub open spec fn is_empty_value(n: crate::value::Node) -> bool {
    match n {
        crate::value::Node::Table(entries) => entries.len() == 0,
        crate::value::Node::Array(items) => items.len() == 0,
        _ => false,
    }
}

/// The name that a value is: a text, or the only key of a table with nothing under it.
pub open spec fn name_in(n: crate::value::Node) -> Option<Seq<char>> {
    match n {
        crate::value::Node::Text(s) => Some(s),
        crate::value::Node::Table(entries) => if entries.len() == 1 && is_empty_value(
            entries[0].1,
        ) {
            Some(entries[0].0)
        } else {
            None
        },
        _ => None,
    }
}

/// An optional name.
pub open spec fn optional_name(n: Option<crate::value::Node>) -> Option<Option<Seq<char>>> {
    match n {
        None => Some(None),
        Some(n) => match name_in(n) {
            Some(s) => Some(Some(s)),
            None => None,
        },
    }
}

/// An optional byte order.
pub open spec fn optional_order(n: Option<crate::value::Node>) -> Option<Option<Endianness>> {
    match optional_name(n) {
        None => None,
        Some(None) => Some(None),
        Some(Some(s)) => match crate::model::endianness_named(s) {
            Some(e) => Some(Some(e)),
            None => None,
        },
    }
}

/// An optional signal format; a name that is none of them is `Other`.
pub open spec fn optional_format(n: Option<crate::value::Node>) -> Option<Option<SignalFormat>> {
    match optional_name(n) {
        None => None,
        Some(None) => Some(None),
        Some(Some(s)) => match crate::model::format_named(s) {
            Some(f) => Some(Some(f)),
            None => Some(Some(SignalFormat::Other)),
        },
    }
}

/// An optional register class.
pub open spec fn optional_class(n: Option<crate::value::Node>) -> Option<Option<RegisterType>> {
    match optional_name(n) {
        None => None,
        Some(None) => Some(None),
        Some(Some(s)) => match crate::model::register_type_named(s) {
            Some(t) => Some(Some(t)),
            None => None,
        },
    }
}

/// The entries of a table of strings, `None` where one is no string.
pub open spec fn string_entries(entries: Seq<(Seq<char>, crate::value::Node)>) -> Option<
    Seq<(Seq<char>, Seq<char>)>,
>
    decreases entries.len(),
{
    if entries.len() == 0 {
        Some(Seq::empty())
    } else {
        match (string_entries(entries.drop_last()), entries.last().1.text()) {
            (Some(before), Some(s)) => Some(before.push((entries.last().0, s))),
            _ => None,
        }
    }
}

/// The only key of a date or time read as a table.
pub const DATETIME_KEY: &'static str = "$__toml_private_datetime";

/// An optional table of strings, in the order of its keys. A date or time reads as one
/// with its text.
pub open spec fn optional_strings(n: Option<crate::value::Node>) -> Option<
    Option<Seq<(Seq<char>, Seq<char>)>>,
> {
    match n {
        None => Some(None),
        Some(crate::value::Node::Table(entries)) => match string_entries(entries) {
            Some(list) => Some(Some(crate::keyed::by_key(list))),
            None => None,
        },
        Some(crate::value::Node::Datetime(text)) => Some(Some(seq![(DATETIME_KEY@, text)])),
        Some(_) => None,
    }
}

/// A key that may be spelled two ways, but not both at once.
pub open spec fn either(a: Option<crate::value::Node>, b: Option<crate::value::Node>) -> Option<
    Option<crate::value::Node>,
> {
    match (a, b) {
        (Some(_), Some(_)) => None,
        (Some(x), None) => Some(Some(x)),
        (None, y) => Some(y),
    }
}

fn read_integer(t: Option<&Tree>, low: i64, high: i64) -> (r: Option<Option<i64>>)
    ensures
        match (r, optional_integer(crate::value::opt_node(t), low as int, high as int)) {
            (Some(Some(a)), Some(Some(b))) => a == b,
            (Some(None), Some(None)) => true,
            (None, None) => true,
            _ => false,
        },
{
    match t {
        None => Some(None),
        Some(t) => match t.integer() {
            Some(i) => if low <= i && i <= high {
                Some(Some(i))
            } else {
                None
            },
            None => None,
        },
    }
}

fn read_bool(t: Option<&Tree>) -> (r: Option<Option<bool>>)
    ensures
        r == optional_bool(crate::value::opt_node(t)),
{
    match t {
        None => Some(None),
        Some(t) => match t.boolean() {
            Some(b) => Some(Some(b)),
            None => None,
        },
    }
}

fn read_text(t: Option<&Tree>) -> (r: Option<Option<String>>)
    ensures
        match r {
            Some(s) => optional_text(crate::value::opt_node(t)) == Some(
                crate::model::opt_text(s),
            ),
            None => optional_text(crate::value::opt_node(t)) is None,
        },
{
    match t {
        None => Some(None),
        Some(t) => match t.text() {
            Some(s) => Some(Some(owned(s))),
            None => None,
        },
    }
}

fn read_number(t: Option<&Tree>) -> (r: Option<Option<Number>>)
    ensures
        r == optional_number(crate::value::opt_node(t)),
{
    match t {
        None => Some(None),
        Some(t) => match t.number() {
            Some(n) => Some(Some(n)),
            None => None,
        },
    }
}

fn read_name(t: Option<&Tree>) -> (r: Option<Option<&str>>)
    ensures
        match r {
            Some(Some(s)) => optional_name(crate::value::opt_node(t)) == Some(Some(s@)),
            Some(None) => optional_name(crate::value::opt_node(t)) == Some(None::<Seq<char>>),
            None => optional_name(crate::value::opt_node(t)) is None,
        },
{
    let t = match t {
        Some(t) => t,
        None => {
            return Some(None);
        },
    };
    if let Some(s) = t.text() {
        return Some(Some(s));
    }
    match t.entries() {
        Some(entries) => {
            let ghost all = crate::value::entry_views(entries@);
            assert(all.len() == entries@.len());
            if entries.len() == 1 && is_nothing(&entries[0].1) {
                assert(all[0] == (entries@[0].0@, entries@[0].1.node()));
                Some(Some(entries[0].0.as_str()))
            } else {
                assert(entries@.len() == 1 ==> all[0].1 == entries@[0].1.node());
                None
            }
        },
        None => None,
    }
}

fn is_nothing(t: &Tree) -> (r: bool)
    ensures
        r == is_empty_value(t.node()),
{
    if let Some(entries) = t.entries() {
        assert(crate::value::entry_views(entries@).len() == entries@.len());
        return entries.len() == 0;
    }
    match t.items() {
        Some(items) => {
            assert(crate::value::item_views(items@).len() == items@.len());
            items.len() == 0
        },
        None => false,
    }
}

fn read_order(t: Option<&Tree>) -> (r: Option<Option<Endianness>>)
    ensures
        r == optional_order(crate::value::opt_node(t)),
{
    match read_name(t) {
        None => None,
        Some(None) => Some(None),
        Some(Some(s)) => match parse_endianness(s) {
            Some(e) => Some(Some(e)),
            None => None,
        },
    }
}

fn read_format(t: Option<&Tree>) -> (r: Option<Option<SignalFormat>>)
    ensures
        r == optional_format(crate::value::opt_node(t)),
{
    match read_name(t) {
        None => None,
        Some(None) => Some(None),
        Some(Some(s)) => match parse_format(s) {
            Some(f) => Some(Some(f)),
            None => Some(Some(SignalFormat::Other)),
        },
    }
}

fn read_class(t: Option<&Tree>) -> (r: Option<Option<RegisterType>>)
    ensures
        r == optional_class(crate::value::opt_node(t)),
{
    match read_name(t) {
        None => None,
        Some(None) => Some(None),
        Some(Some(s)) => match parse_register_type(s) {
            Some(c) => Some(Some(c)),
            None => None,
        },
    }
}

fn insert_pair(list: &mut Vec<(String, String)>, key: &str, text: &str)
    ensures
        pair_texts(final(list)@) == crate::keyed::with_key(
            pair_texts(old(list)@),
            (key@, text@),
        ),
{
    let ghost before = crate::keyed::keyed(list@);
    let ghost shown = |s: String| s@;
    let value = owned(text);
    proof {
        assert(pair_texts(list@) == crate::keyed::mapped(before, shown));
        crate::keyed::lemma_with_key_mapped(before, (key@, value), shown);
    }
    insert_keyed(list, key, value);
    assert(pair_texts(list@) == crate::keyed::mapped(crate::keyed::keyed(list@), shown));
}

fn read_strings(t: Option<&Tree>) -> (r: Option<Option<Vec<(String, String)>>>)
    ensures
        match r {
            Some(p) => optional_strings(crate::value::opt_node(t)) == Some(opt_pairs(p)),
            None => optional_strings(crate::value::opt_node(t)) is None,
        },
{
    let tree = match t {
        None => {
            return Some(None);
        },
        Some(tree) => tree,
    };
    if let Tree::Datetime(text) = tree {
        let mut only: Vec<(String, String)> = Vec::new();
        only.push((owned(DATETIME_KEY), owned(text.as_str())));
        assert(pair_texts(only@) == seq![(DATETIME_KEY@, text@)]);
        return Some(Some(only));
    }
    let entries = match tree.entries() {
        Some(entries) => entries,
        None => {
            return None;
        },
    };
    let ghost all = crate::value::entry_views(entries@);
    let ghost mut listed = Seq::<(Seq<char>, Seq<char>)>::empty();
    let mut out: Vec<(String, String)> = Vec::new();
    assert(pair_texts(out@) == Seq::<(Seq<char>, Seq<char>)>::empty());
    for i in 0..entries.len()
        invariant
            all == crate::value::entry_views(entries@),
            t is Some,
            crate::value::opt_node(t) == Some(crate::value::Node::Table(all)),
            string_entries(all.take(i as int)) == Some(listed),
            pair_texts(out@) == crate::keyed::by_key(listed),
    {
        assert(all.take(i + 1).drop_last() == all.take(i as int));
        assert(all.take(i + 1).last() == all[i as int]);
        match entries[i].1.text() {
            Some(s) => {
                insert_pair(&mut out, entries[i].0.as_str(), s);
                proof {
                    let e = (all[i as int].0, s@);
                    assert(listed.push(e).drop_last() == listed);
                    listed = listed.push(e);
                }
            },
            None => {
                proof {
                    lemma_bad_string(all, i + 1);
                }
                return None;
            },
        }
    }
    assert(all.take(all.len() as int) == all);
    Some(Some(out))
}

proof fn lemma_bad_string(entries: Seq<(Seq<char>, crate::value::Node)>, k: int)
    requires
        0 <= k <= entries.len(),
        string_entries(entries.take(k)) is None,
    ensures
        string_entries(entries) is None,
    decreases entries.len() - k,
{
    if k < entries.len() {
        assert(entries.take(k + 1).drop_last() == entries.take(k));
        lemma_bad_string(entries, k + 1);
    } else {
        assert(entries.take(k) == entries);
    }
}

// ---------------------------------------------------------------------------
// The shape of a manifest
// ---------------------------------------------------------------------------

/// A value that is there.
pub open spec fn inner<A>(o: Option<Option<A>>) -> Option<A> {
    o->Some_0
}

/// Whether a value can hold fields: a table has them by their keys, an array by their
/// places, and a date or time has none.
pub open spec fn has_fields(n: crate::value::Node) -> bool {
    n is Table || n is Array || n is Datetime
}

/// A field of a value, by its place among the fields and its key.
pub open spec fn at(n: crate::value::Node, place: int, key: Seq<char>) -> Option<
    crate::value::Node,
> {
    match n {
        crate::value::Node::Array(items) => if place < items.len() {
            Some(items[place])
        } else {
            None
        },
        _ => n.get(key),
    }
}

/// Whether a value has the shape of `[meta.modbus]`.
pub open spec fn is_meta(n: crate::value::Node) -> bool {
    &&& has_fields(n)
    &&& optional_integer(at(n, 0, "device_address"@), 0, 255) is Some
    &&& optional_integer(at(n, 1, "register_base"@), 0, 255) is Some
    &&& optional_integer(at(n, 2, "default_interval"@), 0, i64::MAX as int) is Some
    &&& optional_order(at(n, 3, "default_byte_order"@)) is Some
    &&& optional_order(at(n, 4, "default_word_order"@)) is Some
}

/// The `[meta.modbus]` a value holds.
pub open spec fn meta_of(n: crate::value::Node) -> ModbusMeta {
    ModbusMeta {
        device_address: match inner(optional_integer(at(n, 0, "device_address"@), 0, 255)) {
            Some(i) => i as u8,
            None => 1,
        },
        register_base: match inner(optional_integer(at(n, 1, "register_base"@), 0, 255)) {
            Some(i) => i as u8,
            None => 0,
        },
        default_interval_ms: match inner(
            optional_integer(at(n, 2, "default_interval"@), 0, i64::MAX as int),
        ) {
            Some(i) => Some(i as u64),
            None => None,
        },
        default_byte_order: inner(optional_order(at(n, 3, "default_byte_order"@))),
        default_word_order: inner(optional_order(at(n, 4, "default_word_order"@))),
    }
}

/// The field of a value that has one of two keys, by its place among the fields; `None`
/// where a table has both.
pub open spec fn at_either(
    n: crate::value::Node,
    place: int,
    key: Seq<char>,
    other: Seq<char>,
) -> Option<Option<crate::value::Node>> {
    if n is Array {
        Some(at(n, place, key))
    } else {
        either(at(n, place, key), at(n, place, other))
    }
}

/// The byte order of a signal, under either of its names.
pub open spec fn order_key(n: crate::value::Node) -> Option<Option<crate::value::Node>> {
    at_either(n, 8, "byte_order"@, "endianness"@)
}

/// Whether a value has the shape of a signal.
pub open spec fn is_signal(n: crate::value::Node) -> bool {
    &&& has_fields(n)
    &&& optional_text(at(n, 0, "name"@)) matches Some(Some(_))
    &&& optional_integer(at(n, 1, "start_bit"@), 0, u32::MAX as int) matches Some(Some(_))
    &&& optional_integer(at(n, 2, "bit_length"@), 0, u32::MAX as int) matches Some(Some(_))
    &&& optional_number(at(n, 3, "factor"@)) is Some
    &&& optional_number(at(n, 4, "offset"@)) is Some
    &&& optional_text(at(n, 5, "unit"@)) is Some
    &&& optional_bool(at(n, 6, "signed"@)) is Some
    &&& optional_format(at(n, 7, "format"@)) is Some
    &&& order_key(n) is Some
    &&& optional_order(inner(order_key(n))) is Some
    &&& optional_order(at(n, 9, "word_order"@)) is Some
    &&& optional_strings(at(n, 10, "enum"@)) is Some
}

/// The signal a value holds.
pub open spec fn signal_of(n: crate::value::Node) -> ModbusSignalView {
    ModbusSignalView {
        name: inner(optional_text(at(n, 0, "name"@)))->Some_0,
        start_bit: inner(optional_integer(at(n, 1, "start_bit"@), 0, u32::MAX as int))->Some_0 as u32,
        bit_length: inner(
            optional_integer(at(n, 2, "bit_length"@), 0, u32::MAX as int),
        )->Some_0 as u32,
        factor: inner(optional_number(at(n, 3, "factor"@))),
        offset: inner(optional_number(at(n, 4, "offset"@))),
        unit: inner(optional_text(at(n, 5, "unit"@))),
        signed: inner(optional_bool(at(n, 6, "signed"@))) == Some(true),
        format: inner(optional_format(at(n, 7, "format"@))),
        byte_order: inner(optional_order(inner(order_key(n)))),
        word_order: inner(optional_order(at(n, 9, "word_order"@))),
        enum_map: inner(optional_strings(at(n, 10, "enum"@))),
    }
}

/// Whether every item has the shape of a signal.
pub open spec fn all_signals(items: Seq<crate::value::Node>) -> bool {
    forall|i: int| 0 <= i < items.len() ==> is_signal(#[trigger] items[i])
}

/// Whether a value, if there is one, is an array of signals.
pub open spec fn is_signal_list(n: Option<crate::value::Node>) -> bool {
    match n {
        None => true,
        Some(crate::value::Node::Array(items)) => all_signals(items),
        Some(_) => false,
    }
}

/// The signals an array holds.
pub open spec fn signal_list(n: Option<crate::value::Node>) -> Seq<ModbusSignalView> {
    match n {
        Some(crate::value::Node::Array(items)) => items.map_values(
            |item: crate::value::Node| signal_of(item),
        ),
        _ => Seq::empty(),
    }
}

/// The interval key of a `tx` table, under either of its names.
pub open spec fn tx_key(tx: crate::value::Node) -> Option<Option<crate::value::Node>> {
    at_either(tx, 0, "interval_ms"@, "interval"@)
}

/// Whether a value, if there is one, has the shape of a `tx` table.
pub open spec fn is_tx(n: Option<crate::value::Node>) -> bool {
    match n {
        None => true,
        Some(tx) => has_fields(tx) && tx_key(tx) is Some && optional_integer(
            inner(tx_key(tx)),
            0,
            i64::MAX as int,
        ) is Some,
    }
}

/// The interval of a `tx` table.
pub open spec fn tx_interval(n: Option<crate::value::Node>) -> Option<int> {
    match n {
        None => None,
        Some(tx) => inner(optional_integer(inner(tx_key(tx)), 0, i64::MAX as int)),
    }
}

/// The interval of a frame: that of its `tx` table, or else the flat `interval_ms`
/// that a migrated catalogue has. A flat one that is no interval counts as absent.
pub open spec fn frame_interval(n: crate::value::Node) -> Option<int> {
    match tx_interval(at(n, 3, "tx"@)) {
        Some(ms) => Some(ms),
        None => match n.u64_at("interval_ms"@) {
            Some(ms) => Some(ms as int),
            None => None,
        },
    }
}

/// Whether a value has the shape of a `[frame.modbus.<name>]` table.
pub open spec fn is_frame(n: crate::value::Node) -> bool {
    &&& has_fields(n)
    &&& optional_integer(at(n, 0, "register_number"@), 0, 65535) is Some
    &&& optional_class(at(n, 1, "register_type"@)) is Some
    &&& optional_integer(at(n, 2, "length"@), 0, 65535) is Some
    &&& is_tx(at(n, 3, "tx"@))
    &&& optional_bool(at(n, 4, "disabled"@)) is Some
    &&& is_signal_list(at(n, 5, "signals"@))
    &&& optional_text(at(n, 6, "name"@)) is Some
    &&& optional_format(at(n, 7, "format"@)) is Some
    &&& optional_number(at(n, 8, "factor"@)) is Some
    &&& optional_number(at(n, 9, "offset"@)) is Some
    &&& optional_text(at(n, 10, "unit"@)) is Some
    &&& optional_bool(at(n, 11, "signed"@)) is Some
    &&& optional_strings(at(n, 12, "enum"@)) is Some
}

/// The register count of a frame.
pub open spec fn frame_length(n: crate::value::Node) -> u16 {
    match inner(optional_integer(at(n, 2, "length"@), 0, 65535)) {
        Some(i) => i as u16,
        None => 1,
    }
}

/// Whether a frame carries decoding fields of its own.
pub open spec fn has_own_fields(n: crate::value::Node) -> bool {
    ||| at(n, 6, "name"@) is Some
    ||| at(n, 7, "format"@) is Some
    ||| at(n, 8, "factor"@) is Some
    ||| at(n, 9, "offset"@) is Some
    ||| at(n, 10, "unit"@) is Some
    ||| at(n, 11, "signed"@) is Some
    ||| at(n, 12, "enum"@) is Some
}

/// The implicit signal of a frame without a signal list: the whole register
/// block, with the frame's own decoding fields.
pub open spec fn own_signal(key: Seq<char>, n: crate::value::Node) -> ModbusSignalView {
    ModbusSignalView {
        name: match inner(optional_text(at(n, 6, "name"@))) {
            Some(name) => name,
            None => key,
        },
        start_bit: 0,
        bit_length: (frame_length(n) * 16) as u32,
        factor: inner(optional_number(at(n, 8, "factor"@))),
        offset: inner(optional_number(at(n, 9, "offset"@))),
        unit: inner(optional_text(at(n, 10, "unit"@))),
        signed: inner(optional_bool(at(n, 11, "signed"@))) == Some(true),
        format: inner(optional_format(at(n, 7, "format"@))),
        byte_order: None,
        word_order: None,
        enum_map: inner(optional_strings(at(n, 12, "enum"@))),
    }
}

/// The signals of a frame, the implicit one where it lists none.
pub open spec fn frame_signals(key: Seq<char>, n: crate::value::Node) -> Seq<ModbusSignalView> {
    let listed = signal_list(at(n, 5, "signals"@));
    if listed.len() > 0 {
        listed
    } else if has_own_fields(n) {
        seq![own_signal(key, n)]
    } else {
        Seq::empty()
    }
}

/// A table key as a register address: decimal (`13049`) or hex (`0x32F9`).
pub open spec fn register_key(key: Seq<char>) -> Option<int> {
    let k = crate::text::trimmed(key);
    match crate::text::after_hex_prefix(k) {
        Some(hex) => crate::text::within(crate::text::natural(hex, 16), 0, 65535),
        None => crate::text::within(crate::text::natural(k, 10), 0, 65535),
    }
}

/// The register of a frame: the one it names, or the one its key spells.
pub open spec fn frame_register(key: Seq<char>, n: crate::value::Node) -> Option<int> {
    match inner(optional_integer(at(n, 0, "register_number"@), 0, 65535)) {
        Some(r) => Some(r),
        None => register_key(key),
    }
}

/// The frame a table holds, `None` where it has no register.
pub open spec fn frame_of(key: Seq<char>, n: crate::value::Node, default_interval: u64) -> Option<
    ModbusFrameView,
> {
    match frame_register(key, n) {
        Some(register) => Some(
            ModbusFrameView {
                name: key,
                register_number: register as u16,
                register_type: match inner(optional_class(at(n, 1, "register_type"@))) {
                    Some(t) => t,
                    None => RegisterType::Holding,
                },
                length: frame_length(n),
                interval_ms: match frame_interval(n) {
                    Some(ms) => ms as u64,
                    None => default_interval,
                },
                disabled: inner(optional_bool(at(n, 4, "disabled"@))) == Some(true),
                signals: frame_signals(key, n),
            },
        ),
        None => None,
    }
}

/// The frames of entries in their order, or the name of the first without a register.
pub open spec fn frames_of(
    entries: Seq<(Seq<char>, crate::value::Node)>,
    default_interval: u64,
) -> Result<Seq<ModbusFrameView>, Seq<char>>
    decreases entries.len(),
{
    if entries.len() == 0 {
        Ok(Seq::empty())
    } else {
        match frames_of(entries.drop_last(), default_interval) {
            Err(name) => Err(name),
            Ok(before) => match frame_of(entries.last().0, entries.last().1, default_interval) {
                Some(f) => Ok(before.push(f)),
                None => Err(entries.last().0),
            },
        }
    }
}

/// Whether a value, if there is one, can hold fields.
pub open spec fn is_holder(n: Option<crate::value::Node>) -> bool {
    match n {
        None => true,
        Some(n) => has_fields(n),
    }
}

/// The only field of a value that may be absent.
pub open spec fn only_field(n: Option<crate::value::Node>, key: Seq<char>) -> Option<
    crate::value::Node,
> {
    match n {
        Some(n) => at(n, 0, key),
        None => None,
    }
}

/// Whether a value, if there is one, is a table.
pub open spec fn is_section(n: Option<crate::value::Node>) -> bool {
    match n {
        None => true,
        Some(n) => n is Table,
    }
}

/// Whether every entry has the shape of a frame.
pub open spec fn all_frames(entries: Seq<(Seq<char>, crate::value::Node)>) -> bool {
    forall|i: int| 0 <= i < entries.len() ==> is_frame((#[trigger] entries[i]).1)
}

/// The `[meta.modbus]` of a document.
pub open spec fn meta_section(root: crate::value::Node) -> Option<crate::value::Node> {
    only_field(root.get("meta"@), "modbus"@)
}

/// The `[frame.modbus]` of a document.
pub open spec fn frame_section(root: crate::value::Node) -> Option<crate::value::Node> {
    only_field(root.get("frame"@), "modbus"@)
}

/// The entries of a section, none where it is absent.
pub open spec fn section_entries(n: Option<crate::value::Node>) -> Seq<
    (Seq<char>, crate::value::Node),
> {
    match n {
        Some(crate::value::Node::Table(entries)) => entries,
        _ => Seq::empty(),
    }
}

/// Whether a document has the shape of a manifest.
pub open spec fn is_manifest(root: crate::value::Node) -> bool {
    &&& root is Table
    &&& is_holder(root.get("meta"@))
    &&& meta_section(root) matches Some(m) ==> is_meta(m)
    &&& is_holder(root.get("frame"@))
    &&& is_section(frame_section(root))
    &&& all_frames(section_entries(frame_section(root)))
}

/// The defaults of a document.
pub open spec fn manifest_meta(root: crate::value::Node) -> ModbusMeta {
    match meta_section(root) {
        Some(m) => meta_of(m),
        None => default_meta(),
    }
}

/// The poll interval of frames that set none.
pub open spec fn fallback_interval(meta: ModbusMeta) -> u64 {
    match meta.default_interval_ms {
        Some(ms) => ms,
        None => DEFAULT_INTERVAL_MS,
    }
}

/// The manifest a document holds.
pub open spec fn manifest_of(root: crate::value::Node) -> Result<ManifestView, ManifestFault> {
    if !is_manifest(root) {
        Err(ManifestFault::Shape)
    } else {
        let meta = manifest_meta(root);
        match frames_of(
            crate::keyed::by_key(section_entries(frame_section(root))),
            fallback_interval(meta),
        ) {
            Err(name) => Err(ManifestFault::BadRegister(name)),
            Ok(frames) => if frames.len() == 0 {
                Err(ManifestFault::NoFrames)
            } else {
                Ok(ManifestView { meta, frames })
            },
        }
    }
}

// ---------------------------------------------------------------------------
// Reading a manifest
// ---------------------------------------------------------------------------

/// A field of a value, by its place among the fields and its key.
fn part<'a>(t: &'a Tree, place: usize, key: &str) -> (r: Option<&'a Tree>)
    ensures
        crate::value::opt_node(r) == at(t.node(), place as int, key@),
{
    match t.items() {
        Some(items) => {
            assert(crate::value::item_views(items@).len() == items@.len());
            if place < items.len() {
                Some(&items[place])
            } else {
                None
            }
        },
        None => t.get(key),
    }
}

fn lacks_fields(t: &Tree) -> (r: bool)
    ensures
        r == !has_fields(t.node()),
{
    match t {
        Tree::Table(_) | Tree::Array(_) | Tree::Datetime(_) => false,
        _ => true,
    }
}

fn read_meta(t: &Tree) -> (r: Option<ModbusMeta>)
    ensures
        match r {
            Some(m) => is_meta(t.node()) && m == meta_of(t.node()),
            None => !is_meta(t.node()),
        },
{
    if lacks_fields(t) {
        return None;
    }
    let address = read_integer(part(t, 0, "device_address"), 0, 255);
    let base = read_integer(part(t, 1, "register_base"), 0, 255);
    let interval = read_integer(part(t, 2, "default_interval"), 0, 0x7FFF_FFFF_FFFF_FFFF);
    let byte_order = read_order(part(t, 3, "default_byte_order"));
    let word_order = read_order(part(t, 4, "default_word_order"));
    if let (Some(address), Some(base), Some(interval), Some(byte_order), Some(word_order)) = (
        address,
        base,
        interval,
        byte_order,
        word_order,
    ) {
        Some(
            ModbusMeta {
                device_address: match address {
                    Some(i) => i as u8,
                    None => 1,
                },
                register_base: match base {
                    Some(i) => i as u8,
                    None => 0,
                },
                default_interval_ms: match interval {
                    Some(i) => Some(i as u64),
                    None => None,
                },
                default_byte_order: byte_order,
                default_word_order: word_order,
            },
        )
    } else {
        None
    }
}

fn part_either<'a>(t: &'a Tree, place: usize, key: &str, other: &str) -> (r: Option<
    Option<&'a Tree>,
>)
    ensures
        match r {
            Some(held) => at_either(t.node(), place as int, key@, other@) == Some(
                crate::value::opt_node(held),
            ),
            None => at_either(t.node(), place as int, key@, other@) is None,
        },
{
    let first = part(t, place, key);
    if t.items().is_some() {
        return Some(first);
    }
    match (first, part(t, place, other)) {
        (Some(_), Some(_)) => None,
        (Some(x), None) => Some(Some(x)),
        (None, y) => Some(y),
    }
}

fn only_part<'a>(t: Option<&'a Tree>, key: &str) -> (r: Option<&'a Tree>)
    ensures
        crate::value::opt_node(r) == only_field(crate::value::opt_node(t), key@),
{
    match t {
        Some(t) => part(t, 0, key),
        None => None,
    }
}

fn read_signal_table(t: &Tree) -> (r: Option<ModbusSignal>)
    ensures
        match r {
            Some(s) => is_signal(t.node()) && s@ == signal_of(t.node()),
            None => !is_signal(t.node()),
        },
{
    if lacks_fields(t) {
        return None;
    }
    let name: String = match read_text(part(t, 0, "name")) {
        Some(Some(name)) => name,
        _ => {
            return None;
        },
    };
    let start: i64 = match read_integer(part(t, 1, "start_bit"), 0, 0xFFFF_FFFF) {
        Some(Some(i)) => i,
        _ => {
            return None;
        },
    };
    let length: i64 = match read_integer(part(t, 2, "bit_length"), 0, 0xFFFF_FFFF) {
        Some(Some(i)) => i,
        _ => {
            return None;
        },
    };
    let order: Option<&Tree> = match part_either(t, 8, "byte_order", "endianness") {
        Some(order) => order,
        None => {
            return None;
        },
    };
    let factor = read_number(part(t, 3, "factor"));
    let offset = read_number(part(t, 4, "offset"));
    let unit = read_text(part(t, 5, "unit"));
    let signed = read_bool(part(t, 6, "signed"));
    let format = read_format(part(t, 7, "format"));
    let byte_order = read_order(order);
    let word_order = read_order(part(t, 9, "word_order"));
    let enum_map = read_strings(part(t, 10, "enum"));
    if let (
        Some(factor),
        Some(offset),
        Some(unit),
        Some(signed),
        Some(format),
        Some(byte_order),
        Some(word_order),
        Some(enum_map),
    ) = (factor, offset, unit, signed, format, byte_order, word_order, enum_map) {
        Some(
            ModbusSignal {
                name,
                start_bit: start as u32,
                bit_length: length as u32,
                factor,
                offset,
                unit,
                signed: match signed {
                    Some(b) => b,
                    None => false,
                },
                format,
                byte_order,
                word_order,
                enum_map,
            },
        )
    } else {
        None
    }
}

fn read_signal_list(t: Option<&Tree>) -> (r: Option<Vec<ModbusSignal>>)
    ensures
        match r {
            Some(list) => is_signal_list(crate::value::opt_node(t)) && modbus_signal_views(list@)
                == signal_list(crate::value::opt_node(t)),
            None => !is_signal_list(crate::value::opt_node(t)),
        },
{
    let mut out: Vec<ModbusSignal> = Vec::new();
    assert(modbus_signal_views(out@) == Seq::<ModbusSignalView>::empty());
    let tree = match t {
        None => {
            return Some(out);
        },
        Some(tree) => tree,
    };
    let items = match tree.items() {
        Some(items) => items,
        None => {
            return None;
        },
    };
    let ghost all = crate::value::item_views(items@);
    let ghost every = all.map_values(|item: crate::value::Node| signal_of(item));
    for i in 0..items.len()
        invariant
            all == crate::value::item_views(items@),
            every == all.map_values(|item: crate::value::Node| signal_of(item)),
            crate::value::opt_node(t) == Some(crate::value::Node::Array(all)),
            forall|j: int| 0 <= j < i ==> is_signal(#[trigger] all[j]),
            modbus_signal_views(out@) == every.take(i as int),
    {
        let ghost before = modbus_signal_views(out@);
        assert(all[i as int] == items@[i as int].node());
        match read_signal_table(&items[i]) {
            Some(s) => {
                out.push(s);
                assert(modbus_signal_views(out@) == before.push(s@));
                assert(every.take(i + 1) == every.take(i as int).push(every[i as int]));
            },
            None => {
                return None;
            },
        }
    }
    assert(every.take(every.len() as int) == every);
    Some(out)
}

fn read_tx(t: Option<&Tree>) -> (r: Option<Option<i64>>)
    ensures
        match r {
            Some(Some(ms)) => is_tx(crate::value::opt_node(t)) && tx_interval(
                crate::value::opt_node(t),
            ) == Some(ms as int),
            Some(None) => is_tx(crate::value::opt_node(t)) && tx_interval(
                crate::value::opt_node(t),
            ) is None,
            None => !is_tx(crate::value::opt_node(t)),
        },
{
    let tx = match t {
        None => {
            return Some(None);
        },
        Some(tx) => tx,
    };
    if lacks_fields(tx) {
        return None;
    }
    match part_either(tx, 0, "interval_ms", "interval") {
        Some(key) => read_integer(key, 0, 0x7FFF_FFFF_FFFF_FFFF),
        None => None,
    }
}

/// Parse a frame's table key as a register address: decimal (`13049`) or
/// hex (`0x32F9`/`0X32F9`). `None` for a non-numeric key (a friendly name).
pub fn parse_register_key(key: &str) -> (r: Option<u16>)
    ensures
        match r {
            Some(n) => register_key(key@) == Some(n as int),
            None => register_key(key@) is None,
        },
{
    let chars = chars_of(key);
    let k = trim_chars(chars.as_slice());
    let n: Option<u128> = match strip_hex_prefix(k.as_slice()) {
        Some(hex) => parse_natural(hex.as_slice(), 16, 65535),
        None => parse_natural(k.as_slice(), 10, 65535),
    };
    match n {
        Some(n) => Some(n as u16),
        None => None,
    }
}

/// What a frame table says beside its signals and register.
struct FrameFields {
    register: Option<i64>,
    class: Option<RegisterType>,
    length: u16,
    interval: Option<u64>,
    disabled: bool,
    signals: Vec<ModbusSignal>,
    name: Option<String>,
    format: Option<SignalFormat>,
    factor: Option<Number>,
    offset: Option<Number>,
    unit: Option<String>,
    signed: Option<bool>,
    enum_map: Option<Vec<(String, String)>>,
}

impl FrameFields {
    spec fn reads(self, n: crate::value::Node) -> bool {
        &&& match (self.register, inner(optional_integer(at(n, 0, "register_number"@), 0, 65535))) {
            (Some(a), Some(b)) => a == b,
            (None, None) => true,
            _ => false,
        }
        &&& self.class == inner(optional_class(at(n, 1, "register_type"@)))
        &&& self.length == frame_length(n)
        &&& match self.interval {
            Some(ms) => frame_interval(n) == Some(ms as int),
            None => frame_interval(n) is None,
        }
        &&& self.disabled == (inner(optional_bool(at(n, 4, "disabled"@))) == Some(true))
        &&& modbus_signal_views(self.signals@) == signal_list(at(n, 5, "signals"@))
        &&& crate::model::opt_text(self.name) == inner(optional_text(at(n, 6, "name"@)))
        &&& self.format == inner(optional_format(at(n, 7, "format"@)))
        &&& self.factor == inner(optional_number(at(n, 8, "factor"@)))
        &&& self.offset == inner(optional_number(at(n, 9, "offset"@)))
        &&& crate::model::opt_text(self.unit) == inner(optional_text(at(n, 10, "unit"@)))
        &&& self.signed == inner(optional_bool(at(n, 11, "signed"@)))
        &&& opt_pairs(self.enum_map) == inner(optional_strings(at(n, 12, "enum"@)))
    }
}

proof fn lemma_tx_interval_nonnegative(n: Option<crate::value::Node>)
    requires
        is_tx(n),
    ensures
        tx_interval(n) matches Some(ms) ==> 0 <= ms <= i64::MAX,
{
}

fn read_frame_fields(t: &Tree) -> (r: Option<FrameFields>)
    ensures
        match r {
            Some(f) => is_frame(t.node()) && f.reads(t.node()),
            None => !is_frame(t.node()),
        },
{
    if lacks_fields(t) {
        return None;
    }
    let register = read_integer(part(t, 0, "register_number"), 0, 65535);
    let class = read_class(part(t, 1, "register_type"));
    let length = read_integer(part(t, 2, "length"), 0, 65535);
    let tx = read_tx(part(t, 3, "tx"));
    let disabled = read_bool(part(t, 4, "disabled"));
    let signals = read_signal_list(part(t, 5, "signals"));
    let name = read_text(part(t, 6, "name"));
    let format = read_format(part(t, 7, "format"));
    let factor = read_number(part(t, 8, "factor"));
    let offset = read_number(part(t, 9, "offset"));
    let unit = read_text(part(t, 10, "unit"));
    let signed = read_bool(part(t, 11, "signed"));
    let enum_map = read_strings(part(t, 12, "enum"));
    let (register, class, length, tx, disabled, signals) = match (
        register,
        class,
        length,
        tx,
        disabled,
        signals,
    ) {
        (Some(a), Some(b), Some(c), Some(d), Some(e), Some(f)) => (a, b, c, d, e, f),
        _ => {
            return None;
        },
    };
    let (name, format, factor, offset, unit, signed, enum_map) = match (
        name,
        format,
        factor,
        offset,
        unit,
        signed,
        enum_map,
    ) {
        (Some(a), Some(b), Some(c), Some(d), Some(e), Some(f), Some(g)) => (a, b, c, d, e, f, g),
        _ => {
            return None;
        },
    };
    proof {
        lemma_tx_interval_nonnegative(at(t.node(), 3, "tx"@));
    }
    Some(
        FrameFields {
            register,
            class,
            length: match length {
                Some(i) => i as u16,
                None => 1,
            },
            interval: match tx {
                Some(ms) => Some(ms as u64),
                None => t.u64_at("interval_ms"),
            },
            disabled: match disabled {
                Some(b) => b,
                None => false,
            },
            signals,
            name,
            format,
            factor,
            offset,
            unit,
            signed,
            enum_map,
        },
    )
}

/// Build a frame from what its table says. `None` where it has no register.
fn build_frame(key: &str, f: FrameFields, default_interval: u64, t: &Tree) -> (r: Option<
    ModbusFrame,
>)
    requires
        is_frame(t.node()),
        f.reads(t.node()),
    ensures
        match r {
            Some(frame) => frame_of(key@, t.node(), default_interval) == Some(frame@),
            None => frame_of(key@, t.node(), default_interval) is None,
        },
{
    // Shorthand: the register may be given as the table key
    // (`[frame.modbus.0x32F9]` / `[frame.modbus.13049]`) instead of an explicit
    // `register_number`; the explicit field wins.
    let register: u16 = match f.register {
        Some(r) => r as u16,
        None => match parse_register_key(key) {
            Some(r) => r,
            None => {
                return None;
            },
        },
    };
    // Shorthand: a register with no `[[signals]]` but with frame-level decoding
    // fields (format/factor/unit/…) is itself one full-width signal. A bare
    // block with neither stays signal-less.
    let mut signals = f.signals;
    let own: bool = f.name.is_some() || f.format.is_some() || f.factor.is_some()
        || f.offset.is_some() || f.unit.is_some() || f.signed.is_some() || f.enum_map.is_some();
    assert(own == has_own_fields(t.node()));
    if signals.len() == 0 && own {
        let implicit = ModbusSignal {
            name: match f.name {
                Some(name) => name,
                None => owned(key),
            },
            start_bit: 0,
            bit_length: f.length as u32 * 16,
            factor: f.factor,
            offset: f.offset,
            unit: f.unit,
            signed: match f.signed {
                Some(b) => b,
                None => false,
            },
            format: f.format,
            byte_order: None,
            word_order: None,
            enum_map: f.enum_map,
        };
        assert(implicit@ == own_signal(key@, t.node()));
        signals.push(implicit);
        assert(modbus_signal_views(signals@) == seq![implicit@]);
    } else {
        assert(modbus_signal_views(signals@) == frame_signals(key@, t.node()));
    }
    Some(
        ModbusFrame {
            name: owned(key),
            register_number: register,
            register_type: match f.class {
                Some(class) => class,
                None => RegisterType::Holding,
            },
            length: f.length,
            interval_ms: match f.interval {
                Some(ms) => ms as u64,
                None => default_interval,
            },
            disabled: f.disabled,
            signals,
        },
    )
}

proof fn lemma_first_bad_register(
    entries: Seq<(Seq<char>, crate::value::Node)>,
    default_interval: u64,
    k: int,
)
    requires
        0 <= k <= entries.len(),
        frames_of(entries.take(k), default_interval) is Err,
    ensures
        frames_of(entries, default_interval) == frames_of(entries.take(k), default_interval),
    decreases entries.len() - k,
{
    if k < entries.len() {
        assert(entries.take(k + 1).drop_last() == entries.take(k));
        lemma_first_bad_register(entries, default_interval, k + 1);
    } else {
        assert(entries.take(k) == entries);
    }
}

/// Whether frames come in the order of their names, no name twice, and the labels of
/// each of their signals in the order of their values' texts.
pub open spec fn is_ordered(m: ManifestView) -> bool {
    &&& forall|i: int, j: int|
        0 <= i < j < m.frames.len() ==> crate::text::text_before(
            (#[trigger] m.frames[i]).name,
            (#[trigger] m.frames[j]).name,
        )
    &&& forall|i: int|
        0 <= i < m.frames.len() ==> labels_ascend((#[trigger] m.frames[i]).signals)
}

/// Whether the labels of each signal come in the order of their values' texts.
pub open spec fn labels_ascend(signals: Seq<ModbusSignalView>) -> bool {
    forall|i: int|
        0 <= i < signals.len() ==> ((#[trigger] signals[i]).enum_map matches Some(labels)
            ==> crate::keyed::keys_ascend(labels))
}

proof fn lemma_strings_ascend(n: Option<crate::value::Node>)
    requires
        optional_strings(n) is Some,
    ensures
        inner(optional_strings(n)) matches Some(labels) ==> crate::keyed::keys_ascend(labels),
{
    if let Some(crate::value::Node::Table(entries)) = n {
        if let Some(list) = string_entries(entries) {
            crate::keyed::lemma_by_key(list);
        }
    }
}

proof fn lemma_frame_labels_ascend(key: Seq<char>, n: crate::value::Node)
    requires
        is_frame(n),
    ensures
        labels_ascend(frame_signals(key, n)),
{
    let listed = signal_list(at(n, 5, "signals"@));
    assert forall|i: int| 0 <= i < listed.len() implies ((#[trigger] listed[i]).enum_map matches Some(
        labels,
    ) ==> crate::keyed::keys_ascend(labels)) by {
        let items = at(n, 5, "signals"@)->Some_0->Array_0;
        assert(is_signal(items[i]));
        lemma_strings_ascend(at(items[i], 10, "enum"@));
    }
    lemma_strings_ascend(at(n, 12, "enum"@));
}

proof fn lemma_frames_keep_order(
    entries: Seq<(Seq<char>, crate::value::Node)>,
    default_interval: u64,
)
    requires
        all_frames(entries),
    ensures
        frames_of(entries, default_interval) matches Ok(frames) ==> {
            &&& frames.len() == entries.len()
            &&& forall|i: int|
                0 <= i < frames.len() ==> (#[trigger] frames[i]).name == entries[i].0
                    && labels_ascend(frames[i].signals)
        },
    decreases entries.len(),
{
    if entries.len() > 0 {
        let front = entries.drop_last();
        assert forall|i: int| 0 <= i < front.len() implies is_frame((#[trigger] front[i]).1) by {
            assert(entries[i] == front[i]);
        }
        lemma_frames_keep_order(front, default_interval);
        assert(is_frame(entries[entries.len() - 1].1));
        lemma_frame_labels_ascend(entries.last().0, entries.last().1);
    }
}

/// A manifest gives its frames in the order of their names, and the labels of a signal
/// in the order of their values' texts, whatever the order in the document.
pub proof fn law_manifests_are_ordered(root: crate::value::Node)
    ensures
        manifest_of(root) matches Ok(m) ==> is_ordered(m),
{
    if is_manifest(root) {
        let entries = section_entries(frame_section(root));
        let sorted = crate::keyed::by_key(entries);
        crate::keyed::lemma_by_key(entries);
        assert forall|i: int| 0 <= i < sorted.len() implies is_frame((#[trigger] sorted[i]).1) by {
            assert(entries.contains(sorted[i]));
        }
        lemma_frames_keep_order(sorted, fallback_interval(manifest_meta(root)));
        if let Ok(m) = manifest_of(root) {
            assert forall|i: int, j: int| 0 <= i < j < m.frames.len() implies crate::text::text_before(
                (#[trigger] m.frames[i]).name,
                (#[trigger] m.frames[j]).name,
            ) by {
                assert(crate::text::text_before(sorted[i].0, sorted[j].0));
            }
        }
    }
}

/// The entries at some places.
spec fn at_places(
    places: Seq<usize>,
    entries: Seq<(Seq<char>, crate::value::Node)>,
) -> Seq<(Seq<char>, crate::value::Node)> {
    places.map_values(|p: usize| entries[p as int])
}

fn insert_place(places: &mut Vec<usize>, entries: &Vec<(String, Tree)>, i: usize)
    requires
        i < entries@.len(),
        forall|k: int| 0 <= k < old(places)@.len() ==> (#[trigger] old(places)@[k]) < entries@.len(),
    ensures
        at_places(final(places)@, crate::value::entry_views(entries@)) == crate::keyed::with_key(
            at_places(old(places)@, crate::value::entry_views(entries@)),
            crate::value::entry_views(entries@)[i as int],
        ),
        forall|k: int|
            0 <= k < final(places)@.len() ==> (#[trigger] final(places)@[k]) < entries@.len(),
{
    let ghost all = crate::value::entry_views(entries@);
    let ghost before = at_places(places@, all);
    let ghost e = all[i as int];
    let mut at: usize = places.len();
    assert(before.take(at as int) == before);
    assert(crate::keyed::with_key(before, e) + before.skip(at as int) == crate::keyed::with_key(before, e));
    while at > 0 && is_text_before(entries[i].0.as_str(), entries[places[at - 1]].0.as_str())
        invariant
            i < entries@.len(),
            at <= places@.len(),
            all == crate::value::entry_views(entries@),
            before == at_places(places@, all),
            e == all[i as int],
            forall|k: int| 0 <= k < places@.len() ==> (#[trigger] places@[k]) < entries@.len(),
            crate::keyed::with_key(before, e) == crate::keyed::with_key(before.take(at as int), e) + before.skip(at as int),
        decreases at,
    {
        assert(before[at - 1] == all[places@[at - 1] as int]);
        proof {
            crate::keyed::lemma_with_key_behind(before, e, at as int);
        }
        at = at - 1;
    }
    let ghost head = before.take(at as int);
    proof {
        if at > 0 {
            assert(head.last() == before[at - 1]);
            assert(before[at - 1] == all[places@[at - 1] as int]);
            crate::text::lemma_text_order_is_total(e.0, head.last().0);
        }
    }
    if at > 0 && str_eq(entries[places[at - 1]].0.as_str(), entries[i].0.as_str()) {
        places.set(at - 1, i);
        assert(at_places(places@, all) == head.drop_last().push(e) + before.skip(at as int));
    } else {
        places.insert(at, i);
        assert(at_places(places@, all) == head.push(e) + before.skip(at as int));
    }
}

fn places_by_key(entries: &Vec<(String, Tree)>) -> (r: Vec<usize>)
    ensures
        at_places(r@, crate::value::entry_views(entries@)) == crate::keyed::by_key(
            crate::value::entry_views(entries@),
        ),
        forall|k: int| 0 <= k < r@.len() ==> (#[trigger] r@[k]) < entries@.len(),
{
    let ghost all = crate::value::entry_views(entries@);
    let mut places: Vec<usize> = Vec::new();
    assert(at_places(places@, all) == crate::keyed::by_key(all.take(0)));
    for i in 0..entries.len()
        invariant
            all == crate::value::entry_views(entries@),
            at_places(places@, all) == crate::keyed::by_key(all.take(i as int)),
            forall|k: int| 0 <= k < places@.len() ==> (#[trigger] places@[k]) < entries@.len(),
    {
        assert(all.take(i + 1).drop_last() == all.take(i as int));
        assert(all.take(i + 1).last() == all[i as int]);
        insert_place(&mut places, entries, i);
    }
    assert(all.take(all.len() as int) == all);
    places
}

impl ModbusManifest {
    /// Read a manifest out of a parsed document.
    pub fn from_tree(root: &Tree) -> (r: Result<Self, ManifestError>)
        ensures
            match r {
                Ok(m) => manifest_of(root.node()) == Ok::<ManifestView, ManifestFault>(m@),
                Err(e) => manifest_of(root.node()) == Err::<ManifestView, ManifestFault>(e@),
            },
            r matches Ok(m) ==> is_ordered(m@),
    {
        proof {
            law_manifests_are_ordered(root.node());
        }
        if root.entries().is_none() {
            return Err(ManifestError::Shape);
        }
        let meta_tree = root.get("meta");
        let frame_tree = root.get("frame");
        if let Some(t) = meta_tree {
            if lacks_fields(t) {
                return Err(ManifestError::Shape);
            }
        }
        if let Some(t) = frame_tree {
            if lacks_fields(t) {
                return Err(ManifestError::Shape);
            }
        }
        let meta: ModbusMeta = match only_part(meta_tree, "modbus") {
            Some(t) => match read_meta(t) {
                Some(meta) => meta,
                None => {
                    return Err(ManifestError::Shape);
                },
            },
            None => ModbusMeta::default(),
        };
        let default_interval: u64 = match meta.default_interval_ms {
            Some(ms) => ms,
            None => DEFAULT_INTERVAL_MS,
        };
        let section = match only_part(frame_tree, "modbus") {
            Some(section) => section,
            None => {
                assert(section_entries(frame_section(root.node())) == Seq::<
                    (Seq<char>, crate::value::Node),
                >::empty());
                return Err(ManifestError::NoFrames);
            },
        };
        let entries = match section.entries() {
            Some(entries) => entries,
            None => {
                return Err(ManifestError::Shape);
            },
        };
        let ghost all = crate::value::entry_views(entries@);
        assert(section_entries(frame_section(root.node())) == all);
        for i in 0..entries.len()
            invariant
                all == crate::value::entry_views(entries@),
                section_entries(frame_section(root.node())) == all,
                forall|j: int| 0 <= j < i ==> is_frame((#[trigger] all[j]).1),
        {
            assert(all[i as int].1 == entries@[i as int].1.node());
            if read_frame_fields(&entries[i].1).is_none() {
                return Err(ManifestError::Shape);
            }
        }
        let mut frames: Vec<ModbusFrame> = Vec::new();
        assert(modbus_frame_views(frames@) == Seq::<ModbusFrameView>::empty());
        // Sorted by name, giving stable ordering for the role pickers.
        let places = places_by_key(entries);
        let ghost sorted = crate::keyed::by_key(all);
        assert(sorted.len() == places@.len());
        for i in 0..places.len()
            invariant
                all == crate::value::entry_views(entries@),
                section_entries(frame_section(root.node())) == all,
                all_frames(all),
                is_manifest(root.node()),
                sorted == crate::keyed::by_key(all),
                sorted == at_places(places@, all),
                forall|k: int| 0 <= k < places@.len() ==> (#[trigger] places@[k]) < entries@.len(),
                default_interval == fallback_interval(manifest_meta(root.node())),
                frames_of(sorted.take(i as int), default_interval) == Ok::<
                    Seq<ModbusFrameView>,
                    Seq<char>,
                >(modbus_frame_views(frames@)),
        {
            let ghost before = modbus_frame_views(frames@);
            let at: usize = places[i];
            let ghost e = all[at as int];
            assert(is_frame(all[at as int].1));
            assert(e == (entries@[at as int].0@, entries@[at as int].1.node()));
            assert(sorted.take(i + 1).drop_last() == sorted.take(i as int));
            assert(sorted.take(i + 1).last() == e);
            let key = entries[at].0.as_str();
            if let Some(fields) = read_frame_fields(&entries[at].1) {
                match build_frame(key, fields, default_interval, &entries[at].1) {
                    Some(frame) => {
                        frames.push(frame);
                        assert(modbus_frame_views(frames@) == before.push(frame@));
                    },
                    None => {
                        proof {
                            lemma_first_bad_register(sorted, default_interval, i + 1);
                        }
                        return Err(ManifestError::BadRegister(owned(key)));
                    },
                }
            }
        }
        assert(sorted.take(sorted.len() as int) == sorted);
        if frames.len() == 0 {
            return Err(ManifestError::NoFrames);
        }
        Ok(ModbusManifest { meta, frames })
    }

    /// Parse a manifest. Errors on invalid TOML or when no `[frame.modbus.*]`
    /// frames are present (an empty manifest can't bind any telemetry).
    pub fn parse(text: &str) -> (r: Result<Self, ManifestError>)
        ensures
            match crate::value::toml_document(text@) {
                Ok(root) => match r {
                    Ok(m) => manifest_of(root) == Ok::<ManifestView, ManifestFault>(m@),
                    Err(e) => manifest_of(root) == Err::<ManifestView, ManifestFault>(e@),
                },
                Err(message) => r matches Err(e) && e@ == ManifestFault::Toml(message),
            },
            r matches Ok(m) ==> is_ordered(m@),
    {
        match parse_document(text) {
            Ok(root) => ModbusManifest::from_tree(&root),
            Err(message) => Err(ManifestError::Toml(message)),
        }
    }
}

// ---------------------------------------------------------------------------
// Addresses and writable signals
// ---------------------------------------------------------------------------

/// The protocol-level start address of a frame: base 0 passes the number
/// through, base 1 strips the traditional type-prefix offset.
pub open spec fn start_address(meta: ModbusMeta, frame: ModbusFrameView) -> int {
    if meta.register_base != 1 {
        frame.register_number as int
    } else if frame.register_number >= frame.register_type.traditional_base() {
        frame.register_number - frame.register_type.traditional_base()
    } else {
        0
    }
}

/// The place of the first signal with the given name.
pub open spec fn signal_place(signals: Seq<ModbusSignalView>, name: Seq<char>, from: int) -> Option<
    int,
>
    decreases signals.len() - from,
{
    if from < 0 || from >= signals.len() {
        None
    } else if signals[from].name == name {
        Some(from)
    } else {
        signal_place(signals, name, from + 1)
    }
}

/// The place of the first writable signal with the given name: its frame, and
/// its place in it.
pub open spec fn write_place(frames: Seq<ModbusFrameView>, name: Seq<char>, from: int) -> Option<
    (int, int),
>
    decreases frames.len() - from,
{
    if from < 0 || from >= frames.len() {
        None
    } else if frames[from].register_type.accepts_writes() {
        match signal_place(frames[from].signals, name, 0) {
            Some(j) => Some((from, j)),
            None => write_place(frames, name, from + 1),
        }
    } else {
        write_place(frames, name, from + 1)
    }
}

/// `a + b`, at most 65535.
pub open spec fn capped(n: int) -> int {
    if n > 65535 {
        65535
    } else {
        n
    }
}

pub(crate) fn capped_sum(a: u16, b: u16) -> (r: u16)
    ensures
        r == capped(a + b),
{
    if a as u32 + b as u32 > 65535 {
        65535
    } else {
        a + b
    }
}

/// The register a signal starts in, as a 16-bit offset from its block.
pub open spec fn register_offset(start_bit: int) -> int {
    start_bit / 16 % 65536
}

/// A writable signal with its register.
#[verifier::ext_equal]
pub struct WriteOption {
    pub name: Seq<char>,
    pub register: u16,
}

/// Names with registers, as a mathematical value.
pub open spec fn option_views(options: Seq<(String, u16)>) -> Seq<WriteOption> {
    options.map_values(|o: (String, u16)| WriteOption { name: o.0@, register: o.1 })
}

/// The writable signals of one frame, in order.
pub open spec fn frame_options(meta: ModbusMeta, frame: ModbusFrameView) -> Seq<WriteOption> {
    if frame.register_type.accepts_writes() {
        frame.signals.map_values(
            |s: ModbusSignalView|
                WriteOption {
                    name: s.name,
                    register: capped(
                        start_address(meta, frame) + register_offset(s.start_bit as int),
                    ) as u16,
                },
        )
    } else {
        Seq::empty()
    }
}

/// A list in name order with one more in its place, after its equals.
pub open spec fn with_name(list: Seq<WriteOption>, o: WriteOption) -> Seq<WriteOption>
    decreases list.len(),
{
    if list.len() > 0 && crate::text::text_before(o.name, list.last().name) {
        with_name(list.drop_last(), o).push(list.last())
    } else {
        list.push(o)
    }
}

/// A list in name order; equals keep their order.
pub open spec fn by_name(list: Seq<WriteOption>) -> Seq<WriteOption>
    decreases list.len(),
{
    if list.len() == 0 {
        Seq::empty()
    } else {
        with_name(by_name(list.drop_last()), list.last())
    }
}

/// A list without an entry that has the name of the one before it.
pub open spec fn named_once(list: Seq<WriteOption>) -> Seq<WriteOption>
    decreases list.len(),
{
    if list.len() == 0 {
        Seq::empty()
    } else {
        let before = named_once(list.drop_last());
        if before.len() > 0 && before.last().name == list.last().name {
            before
        } else {
            before.push(list.last())
        }
    }
}

/// A list in register order with one more in its place, after its equals.
pub open spec fn with_register(list: Seq<WriteOption>, o: WriteOption) -> Seq<WriteOption>
    decreases list.len(),
{
    if list.len() > 0 && o.register < list.last().register {
        with_register(list.drop_last(), o).push(list.last())
    } else {
        list.push(o)
    }
}

/// A list in register order; equals keep their order.
pub open spec fn by_register(list: Seq<WriteOption>) -> Seq<WriteOption>
    decreases list.len(),
{
    if list.len() == 0 {
        Seq::empty()
    } else {
        with_register(by_register(list.drop_last()), list.last())
    }
}

/// Labels with their values, as a mathematical value.
pub open spec fn choice_views(choices: Seq<(String, i64)>) -> Seq<(Seq<char>, i64)> {
    choices.map_values(|c: (String, i64)| (c.0@, c.1))
}

/// A list of labels in value order with one more in its place, after its equals.
pub open spec fn with_choice(list: Seq<(Seq<char>, i64)>, c: (Seq<char>, i64)) -> Seq<
    (Seq<char>, i64),
>
    decreases list.len(),
{
    if list.len() > 0 && c.1 < list.last().1 {
        with_choice(list.drop_last(), c).push(list.last())
    } else {
        list.push(c)
    }
}

/// The labels of the entries whose key is an integer, in value order.
pub open spec fn choices_of(entries: Seq<(Seq<char>, Seq<char>)>) -> Seq<(Seq<char>, i64)>
    decreases entries.len(),
{
    if entries.len() == 0 {
        Seq::empty()
    } else {
        let before = choices_of(entries.drop_last());
        match crate::value::key_integer(entries.last().0) {
            Some(v) => with_choice(before, (entries.last().1, v as i64)),
            None => before,
        }
    }
}

/// The signals that have choices, each with them.
pub open spec fn signal_choices(signals: Seq<ModbusSignalView>) -> Seq<
    (Seq<char>, Seq<(Seq<char>, i64)>),
>
    decreases signals.len(),
{
    if signals.len() == 0 {
        Seq::empty()
    } else {
        let before = signal_choices(signals.drop_last());
        match signals.last().enum_map {
            Some(entries) => if choices_of(entries).len() > 0 {
                before.push((signals.last().name, choices_of(entries)))
            } else {
                before
            },
            None => before,
        }
    }
}

/// The choices of every writable signal that has any.
pub open spec fn write_choices(frames: Seq<ModbusFrameView>) -> Seq<
    (Seq<char>, Seq<(Seq<char>, i64)>),
>
    decreases frames.len(),
{
    if frames.len() == 0 {
        Seq::empty()
    } else {
        let before = write_choices(frames.drop_last());
        if frames.last().register_type.accepts_writes() {
            before + signal_choices(frames.last().signals)
        } else {
            before
        }
    }
}

/// Signals with their choices, as a mathematical value.
pub open spec fn enum_views(list: Seq<(String, Vec<(String, i64)>)>) -> Seq<
    (Seq<char>, Seq<(Seq<char>, i64)>),
> {
    list.map_values(|e: (String, Vec<(String, i64)>)| (e.0@, choice_views(e.1@)))
}

fn insert_by_name(list: &mut Vec<(String, u16)>, name: String, register: u16)
    ensures
        option_views(final(list)@) == with_name(
            option_views(old(list)@),
            (WriteOption { name: name@, register }),
        ),
{
    let ghost before = option_views(list@);
    let ghost o = WriteOption { name: name@, register };
    let mut at: usize = list.len();
    assert(before.take(before.len() as int) == before);
    assert(with_name(before, o) == with_name(before, o) + before.skip(before.len() as int));
    while at > 0 && is_text_before(name.as_str(), list[at - 1].0.as_str())
        invariant
            at <= list@.len(),
            list@ == old(list)@,
            o == (WriteOption { name: name@, register }),
            before == option_views(list@),
            with_name(before, o) == with_name(before.take(at as int), o) + before.skip(at as int),
        decreases at,
    {
        let ghost front = before.take(at as int);
        assert(front.drop_last() == before.take(at - 1));
        assert(front.last() == before[at - 1]);
        assert(with_name(before.take(at - 1), o).push(front.last()) + before.skip(at as int)
            == with_name(before.take(at - 1), o) + before.skip(at - 1));
        at = at - 1;
    }
    assert(at > 0 ==> before.take(at as int).last() == before[at - 1]);
    assert(with_name(before.take(at as int), o) == before.take(at as int).push(o));
    list.insert(at, (name, register));
    assert(option_views(list@) == before.take(at as int).push(o) + before.skip(at as int));
}

fn insert_by_register(list: &mut Vec<(String, u16)>, name: String, register: u16)
    ensures
        option_views(final(list)@) == with_register(
            option_views(old(list)@),
            (WriteOption { name: name@, register }),
        ),
{
    let ghost before = option_views(list@);
    let ghost o = WriteOption { name: name@, register };
    let mut at: usize = list.len();
    assert(before.take(before.len() as int) == before);
    assert(with_register(before, o) == with_register(before, o) + before.skip(
        before.len() as int,
    ));
    while at > 0 && register < list[at - 1].1
        invariant
            at <= list@.len(),
            list@ == old(list)@,
            o == (WriteOption { name: name@, register }),
            before == option_views(list@),
            with_register(before, o) == with_register(before.take(at as int), o) + before.skip(
                at as int,
            ),
        decreases at,
    {
        let ghost front = before.take(at as int);
        assert(front.drop_last() == before.take(at - 1));
        assert(front.last() == before[at - 1]);
        assert(with_register(before.take(at - 1), o).push(front.last()) + before.skip(at as int)
            == with_register(before.take(at - 1), o) + before.skip(at - 1));
        at = at - 1;
    }
    assert(at > 0 ==> before.take(at as int).last() == before[at - 1]);
    assert(with_register(before.take(at as int), o) == before.take(at as int).push(o));
    list.insert(at, (name, register));
    assert(option_views(list@) == before.take(at as int).push(o) + before.skip(at as int));
}

fn insert_choice(list: &mut Vec<(String, i64)>, label: String, value: i64)
    ensures
        choice_views(final(list)@) == with_choice(choice_views(old(list)@), (label@, value)),
{
    let ghost before = choice_views(list@);
    let ghost c = (label@, value);
    let mut at: usize = list.len();
    assert(before.take(before.len() as int) == before);
    assert(with_choice(before, c) == with_choice(before, c) + before.skip(before.len() as int));
    while at > 0 && value < list[at - 1].1
        invariant
            at <= list@.len(),
            list@ == old(list)@,
            c == (label@, value),
            before == choice_views(list@),
            with_choice(before, c) == with_choice(before.take(at as int), c) + before.skip(
                at as int,
            ),
        decreases at,
    {
        let ghost front = before.take(at as int);
        assert(front.drop_last() == before.take(at - 1));
        assert(front.last() == before[at - 1]);
        assert(with_choice(before.take(at - 1), c).push(front.last()) + before.skip(at as int)
            == with_choice(before.take(at - 1), c) + before.skip(at - 1));
        at = at - 1;
    }
    assert(at > 0 ==> before.take(at as int).last() == before[at - 1]);
    assert(with_choice(before.take(at as int), c) == before.take(at as int).push(c));
    list.insert(at, (label, value));
    assert(choice_views(list@) == before.take(at as int).push(c) + before.skip(at as int));
}

fn choices_in(entries: &Vec<(String, String)>) -> (r: Vec<(String, i64)>)
    ensures
        choice_views(r@) == choices_of(pair_texts(entries@)),
{
    let ghost all = pair_texts(entries@);
    let mut out: Vec<(String, i64)> = Vec::new();
    assert(choice_views(out@) == Seq::<(Seq<char>, i64)>::empty());
    for i in 0..entries.len()
        invariant
            all == pair_texts(entries@),
            choice_views(out@) == choices_of(all.take(i as int)),
    {
        assert(all.take(i + 1).drop_last() == all.take(i as int));
        assert(all.take(i + 1).last() == all[i as int]);
        let chars = chars_of(entries[i].0.as_str());
        if let Some(v) = parse_integer(
            chars.as_slice(),
            10,
            -0x8000_0000_0000_0000,
            0x7FFF_FFFF_FFFF_FFFF,
        ) {
            insert_choice(&mut out, owned(entries[i].1.as_str()), v as i64);
        }
    }
    assert(all.take(all.len() as int) == all);
    out
}

impl ModbusManifest {
    /// The protocol-level (0-based) start address for a frame, resolving
    /// `register_base`. Base 0 passes the number through; base 1 strips
    /// the traditional type-prefix offset.
    pub fn protocol_address(&self, frame: &ModbusFrame) -> (r: u16)
        ensures
            r == start_address(self.meta, frame@),
    {
        if self.meta.register_base != 1 {
            return frame.register_number;
        }
        let prefix: u32 = frame.register_type.base_one_prefix();
        if frame.register_number as u32 >= prefix {
            (frame.register_number as u32 - prefix) as u16
        } else {
            0
        }
    }

    /// Find a writable signal by name: a signal living in a writable
    /// (holding/coil) frame. Returns the frame + signal so the caller can
    /// resolve the absolute address and encoding. `None` if no such signal
    /// exists or it lives only in read-only (input/discrete) frames.
    pub fn find_write_signal(&self, name: &str) -> (r: Option<(&ModbusFrame, &ModbusSignal)>)
        ensures
            match r {
                Some((f, s)) => write_place(self@.frames, name@, 0) matches Some(p) && *f
                    == self.frames@[p.0] && *s == self.frames@[p.0].signals@[p.1],
                None => write_place(self@.frames, name@, 0) is None,
            },
    {
        let ghost all = self@.frames;
        for i in 0..self.frames.len()
            invariant
                all == self@.frames,
                write_place(all, name@, 0) == write_place(all, name@, i as int),
        {
            let frame = &self.frames[i];
            assert(all[i as int] == frame@);
            if frame.register_type.is_writable() {
                let ghost signals = frame@.signals;
                for j in 0..frame.signals.len()
                    invariant
                        i < self.frames@.len(),
                        *frame == self.frames@[i as int],
                        all == self@.frames,
                        all[i as int] == frame@,
                        frame@.register_type.accepts_writes(),
                        signals == frame@.signals,
                        write_place(all, name@, 0) == write_place(all, name@, i as int),
                        signal_place(signals, name@, 0) == signal_place(signals, name@, j as int),
                {
                    assert(signals[j as int] == frame.signals@[j as int]@);
                    if str_eq(frame.signals[j].name.as_str(), name) {
                        return Some((frame, &frame.signals[j]));
                    }
                }
            }
        }
        None
    }

    /// Writable signals paired with their absolute (0-based protocol)
    /// register address — for the command editor's dropdown, which shows the
    /// register alongside the name. Sorted + de-duplicated by name, then ordered
    /// by register.
    pub fn write_signal_options(&self) -> (r: Vec<(String, u16)>)
        ensures
            option_views(r@) == options_of(self@),
    {
        let ghost all = self@.frames;
        let ghost meta = self.meta;
        let ghost row = |f: ModbusFrameView| frame_options(meta, f);
        let mut sorted: Vec<(String, u16)> = Vec::new();
        assert(option_views(sorted@) == Seq::<WriteOption>::empty());
        for i in 0..self.frames.len()
            invariant
                all == self@.frames,
                meta == self.meta,
                row == (|f: ModbusFrameView| frame_options(meta, f)),
                option_views(sorted@) == by_name(crate::detect::flat(all.take(i as int), row)),
        {
            let frame = &self.frames[i];
            assert(all.take(i + 1).drop_last() == all.take(i as int));
            assert(all.take(i + 1).last() == frame@);
            let ghost before = crate::detect::flat(all.take(i as int), row);
            let ghost mine = frame_options(meta, frame@);
            assert(before + mine.take(0) == before);
            if frame.register_type.is_writable() {
                let base: u16 = self.protocol_address(frame);
                for j in 0..frame.signals.len()
                    invariant
                        *frame == self.frames@[i as int],
                        meta == self.meta,
                        base == start_address(meta, frame@),
                        mine == frame_options(meta, frame@),
                        frame@.register_type.accepts_writes(),
                        option_views(sorted@) == by_name(before + mine.take(j as int)),
                {
                    let s = &frame.signals[j];
                    let offset: u16 = (s.start_bit / 16 % 65536) as u16;
                    assert((before + mine.take(j + 1)).drop_last() == before + mine.take(j as int));
                    assert((before + mine.take(j + 1)).last() == mine[j as int]);
                    assert(frame@.signals[j as int] == s@);
                    insert_by_name(&mut sorted, owned(s.name.as_str()), capped_sum(base, offset));
                }
                assert(mine.take(mine.len() as int) == mine);
            } else {
                assert(before + mine == before);
            }
        }
        assert(all.take(all.len() as int) == all);
        let ghost listed = option_views(sorted@);
        let mut once: Vec<(String, u16)> = Vec::new();
        assert(option_views(once@) == Seq::<WriteOption>::empty());
        for i in 0..sorted.len()
            invariant
                listed == option_views(sorted@),
                option_views(once@) == named_once(listed.take(i as int)),
        {
            assert(listed.take(i + 1).drop_last() == listed.take(i as int));
            assert(listed.take(i + 1).last() == listed[i as int]);
            let ghost before = option_views(once@);
            let repeated: bool = once.len() > 0 && str_eq(
                once[once.len() - 1].0.as_str(),
                sorted[i].0.as_str(),
            );
            if !repeated {
                once.push((owned(sorted[i].0.as_str()), sorted[i].1));
                assert(option_views(once@) == before.push(listed[i as int]));
            }
        }
        assert(listed.take(listed.len() as int) == listed);
        let ghost unique = option_views(once@);
        let mut out: Vec<(String, u16)> = Vec::new();
        assert(option_views(out@) == Seq::<WriteOption>::empty());
        for i in 0..once.len()
            invariant
                unique == option_views(once@),
                option_views(out@) == by_register(unique.take(i as int)),
        {
            assert(unique.take(i + 1).drop_last() == unique.take(i as int));
            assert(unique.take(i + 1).last() == unique[i as int]);
            insert_by_register(&mut out, owned(once[i].0.as_str()), once[i].1);
        }
        assert(unique.take(unique.len() as int) == unique);
        assert(row == (|f: ModbusFrameView| frame_options(self.meta, f)));
        out
    }

    /// Writable signals that carry an `enum` map, each with its `(label,
    /// value)` entries sorted by register value — for the command editor's
    /// enum value dropdown. Signals without an enum are omitted.
    pub fn write_signal_enums(&self) -> (r: Vec<(String, Vec<(String, i64)>)>)
        ensures
            enum_views(r@) == write_choices(self@.frames),
    {
        let ghost all = self@.frames;
        let mut out: Vec<(String, Vec<(String, i64)>)> = Vec::new();
        assert(enum_views(out@) == Seq::<(Seq<char>, Seq<(Seq<char>, i64)>)>::empty());
        for i in 0..self.frames.len()
            invariant
                all == self@.frames,
                enum_views(out@) == write_choices(all.take(i as int)),
        {
            let frame = &self.frames[i];
            assert(all.take(i + 1).drop_last() == all.take(i as int));
            assert(all.take(i + 1).last() == frame@);
            if frame.register_type.is_writable() {
                let ghost before = enum_views(out@);
                let ghost signals = frame@.signals;
                assert(before + signal_choices(signals.take(0)) == before);
                for j in 0..frame.signals.len()
                    invariant
                        signals == frame@.signals,
                        enum_views(out@) == before + signal_choices(signals.take(j as int)),
                {
                    let s = &frame.signals[j];
                    assert(signals.take(j + 1).drop_last() == signals.take(j as int));
                    assert(signals.take(j + 1).last() == s@);
                    let ghost so_far = enum_views(out@);
                    if let Some(entries) = &s.enum_map {
                        let choices = choices_in(entries);
                        if choices.len() > 0 {
                            let ghost added = (s@.name, choice_views(choices@));
                            out.push((owned(s.name.as_str()), choices));
                            assert(enum_views(out@) == so_far.push(added));
                            assert(so_far.push(added) == before + signal_choices(
                                signals.take(j as int),
                            ).push(added));
                        }
                    }
                }
                assert(signals.take(signals.len() as int) == signals);
            }
        }
        assert(all.take(all.len() as int) == all);
        out
    }
}

// ---------------------------------------------------------------------------
// Laws of the write options
// ---------------------------------------------------------------------------

/// What a manifest offers for writing.
pub open spec fn options_of(manifest: ManifestView) -> Seq<WriteOption> {
    by_register(
        named_once(
            by_name(
                crate::detect::flat(
                    manifest.frames,
                    |f: ModbusFrameView| frame_options(manifest.meta, f),
                ),
            ),
        ),
    )
}

/// Whether a list is in register order.
pub open spec fn in_register_order(list: Seq<WriteOption>) -> bool {
    forall|i: int, j: int|
        0 <= i <= j < list.len() ==> (#[trigger] list[i]).register <= (#[trigger] list[j]).register
}

/// Whether a list is in name order.
pub open spec fn in_name_order(list: Seq<WriteOption>) -> bool {
    forall|i: int, j: int|
        0 <= i <= j < list.len() ==> !crate::text::text_before(
            (#[trigger] list[j]).name,
            (#[trigger] list[i]).name,
        )
}

/// Whether no two of a list have one name.
pub open spec fn has_distinct_names(list: Seq<WriteOption>) -> bool {
    forall|i: int, j: int|
        0 <= i < list.len() && 0 <= j < list.len() && i != j ==> (#[trigger] list[i]).name != (
        #[trigger] list[j]).name
}

proof fn lemma_with_name(list: Seq<WriteOption>, o: WriteOption)
    requires
        in_name_order(list),
    ensures
        in_name_order(with_name(list, o)),
        with_name(list, o).len() == list.len() + 1,
        forall|i: int|
            0 <= i < with_name(list, o).len() ==> (#[trigger] with_name(list, o)[i]) == o
                || list.contains(with_name(list, o)[i]),
    decreases list.len(),
{
    let now = with_name(list, o);
    if list.len() > 0 && crate::text::text_before(o.name, list.last().name) {
        let front = list.drop_last();
        assert forall|i: int, j: int| 0 <= i <= j < front.len() implies !crate::text::text_before(
            (#[trigger] front[j]).name,
            (#[trigger] front[i]).name,
        ) by {
            assert(front[i] == list[i] && front[j] == list[j]);
        }
        lemma_with_name(front, o);
        let inner = with_name(front, o);
        assert forall|i: int| 0 <= i < now.len() implies (#[trigger] now[i]) == o || list.contains(
            now[i],
        ) by {
            if i < inner.len() {
                assert(now[i] == inner[i]);
                if inner[i] != o {
                    let m = choose|m: int| 0 <= m < front.len() && front[m] == inner[i];
                    assert(list[m] == now[i]);
                }
            } else {
                assert(now[i] == list[list.len() - 1]);
            }
        }
        assert forall|i: int, j: int| 0 <= i <= j < now.len() implies !crate::text::text_before(
            (#[trigger] now[j]).name,
            (#[trigger] now[i]).name,
        ) by {
            if j < inner.len() {
                assert(now[i] == inner[i] && now[j] == inner[j]);
            } else {
                assert(now[j] == list[list.len() - 1]);
                if now[i] == o {
                    crate::text::lemma_text_order_is_total(o.name, list.last().name);
                } else {
                    let m = choose|m: int| 0 <= m < list.len() && list[m] == now[i];
                    assert(!crate::text::text_before(list[list.len() - 1].name, list[m].name));
                }
            }
        }
    } else {
        assert(now == list.push(o));
        assert forall|i: int| 0 <= i < now.len() implies (#[trigger] now[i]) == o || list.contains(
            now[i],
        ) by {
            if i < list.len() {
                assert(now[i] == list[i]);
            }
        }
        assert forall|i: int, j: int| 0 <= i <= j < now.len() implies !crate::text::text_before(
            (#[trigger] now[j]).name,
            (#[trigger] now[i]).name,
        ) by {
            crate::text::lemma_text_order_is_total(o.name, o.name);
            if j < list.len() {
                assert(now[i] == list[i] && now[j] == list[j]);
            } else if i < list.len() {
                let last = list[list.len() - 1];
                assert(now[i] == list[i]);
                assert(!crate::text::text_before(last.name, list[i].name));
                if crate::text::text_before(o.name, list[i].name) {
                    crate::text::lemma_text_order_is_total(last.name, list[i].name);
                    if last.name != list[i].name {
                        crate::text::lemma_text_order_is_transitive(
                            o.name,
                            list[i].name,
                            last.name,
                        );
                    }
                }
            }
        }
    }
}

proof fn lemma_by_name(list: Seq<WriteOption>)
    ensures
        in_name_order(by_name(list)),
    decreases list.len(),
{
    if list.len() > 0 {
        lemma_by_name(list.drop_last());
        lemma_with_name(by_name(list.drop_last()), list.last());
    }
}

proof fn lemma_named_once(list: Seq<WriteOption>)
    requires
        in_name_order(list),
    ensures
        has_distinct_names(named_once(list)),
        in_name_order(named_once(list)),
        list.len() > 0 ==> named_once(list).len() > 0 && named_once(list).last().name
            == list.last().name,
    decreases list.len(),
{
    if list.len() > 0 {
        let front = list.drop_last();
        let before = named_once(front);
        let now = named_once(list);
        assert forall|i: int, j: int| 0 <= i <= j < front.len() implies !crate::text::text_before(
            (#[trigger] front[j]).name,
            (#[trigger] front[i]).name,
        ) by {
            assert(front[i] == list[i] && front[j] == list[j]);
        }
        lemma_named_once(front);
        let o = list.last();
        if before.len() > 0 && before.last().name == o.name {
        } else {
            assert(now == before.push(o));
            assert forall|i: int| 0 <= i < before.len() implies crate::text::text_before(
                (#[trigger] before[i]).name,
                o.name,
            ) by {
                let last = before[before.len() - 1];
                assert(front.last().name == last.name);
                assert(front.last() == list[list.len() - 2]);
                assert(o == list[list.len() - 1]);
                assert(!crate::text::text_before(o.name, last.name));
                crate::text::lemma_text_order_is_total(o.name, last.name);
                assert(!crate::text::text_before(last.name, before[i].name));
                crate::text::lemma_text_order_is_total(last.name, before[i].name);
                if before[i].name != last.name {
                    crate::text::lemma_text_order_is_transitive(
                        before[i].name,
                        last.name,
                        o.name,
                    );
                }
            }
            assert forall|i: int, j: int| 0 <= i <= j < now.len() implies !crate::text::text_before(
                (#[trigger] now[j]).name,
                (#[trigger] now[i]).name,
            ) by {
                crate::text::lemma_text_order_is_total(o.name, o.name);
                if j < before.len() {
                    assert(now[i] == before[i] && now[j] == before[j]);
                } else if i < before.len() {
                    assert(now[i] == before[i]);
                    crate::text::lemma_text_order_is_total(before[i].name, o.name);
                }
            }
            assert forall|i: int, j: int|
                0 <= i < now.len() && 0 <= j < now.len() && i != j implies (#[trigger] now[i]).name
                != (#[trigger] now[j]).name by {
                if i < before.len() {
                    assert(now[i] == before[i]);
                    crate::text::lemma_text_order_is_total(before[i].name, before[i].name);
                }
                if j < before.len() {
                    assert(now[j] == before[j]);
                    crate::text::lemma_text_order_is_total(before[j].name, before[j].name);
                }
            }
        }
    }
}

proof fn lemma_with_register(list: Seq<WriteOption>, o: WriteOption)
    requires
        in_register_order(list),
    ensures
        in_register_order(with_register(list, o)),
        with_register(list, o).to_multiset() == list.to_multiset().insert(o),
        forall|i: int|
            0 <= i < with_register(list, o).len() ==> (#[trigger] with_register(list, o)[i]) == o
                || list.contains(with_register(list, o)[i]),
        has_distinct_names(list) && (forall|i: int|
            0 <= i < list.len() ==> (#[trigger] list[i]).name != o.name) ==> has_distinct_names(
            with_register(list, o),
        ),
    decreases list.len(),
{
    broadcast use vstd::seq_lib::group_to_multiset_ensures;

    let now = with_register(list, o);
    if list.len() > 0 && o.register < list.last().register {
        let front = list.drop_last();
        assert forall|i: int, j: int| 0 <= i <= j < front.len() implies (
        #[trigger] front[i]).register <= (#[trigger] front[j]).register by {
            assert(front[i] == list[i] && front[j] == list[j]);
        }
        lemma_with_register(front, o);
        let inner = with_register(front, o);
        assert(now == inner.push(list.last()));
        assert(list == front.push(list.last()));
        assert(now.to_multiset() =~= list.to_multiset().insert(o));
        assert forall|i: int| 0 <= i < now.len() implies (#[trigger] now[i]) == o || list.contains(
            now[i],
        ) by {
            if i < inner.len() {
                assert(now[i] == inner[i]);
                if inner[i] != o {
                    let m = choose|m: int| 0 <= m < front.len() && front[m] == inner[i];
                    assert(list[m] == now[i]);
                }
            } else {
                assert(now[i] == list[list.len() - 1]);
            }
        }
        assert forall|i: int, j: int| 0 <= i <= j < now.len() implies (#[trigger] now[i]).register
            <= (#[trigger] now[j]).register by {
            if j < inner.len() {
                assert(now[i] == inner[i] && now[j] == inner[j]);
            } else {
                assert(now[j] == list[list.len() - 1]);
                if now[i] != o {
                    let m = choose|m: int| 0 <= m < list.len() && list[m] == now[i];
                    assert(list[m].register <= list[list.len() - 1].register);
                }
            }
        }
        if has_distinct_names(list) && (forall|i: int|
            0 <= i < list.len() ==> (#[trigger] list[i]).name != o.name) {
            assert forall|i: int, j: int|
                0 <= i < front.len() && 0 <= j < front.len() && i != j implies (
            #[trigger] front[i]).name != (#[trigger] front[j]).name by {
                assert(front[i] == list[i] && front[j] == list[j]);
            }
            assert forall|i: int| 0 <= i < front.len() implies (#[trigger] front[i]).name
                != o.name by {
                assert(front[i] == list[i]);
            }
            let last = list[list.len() - 1];
            assert forall|i: int| 0 <= i < inner.len() implies (#[trigger] inner[i]).name
                != last.name by {
                if inner[i] != o {
                    let m = choose|m: int| 0 <= m < front.len() && front[m] == inner[i];
                    assert(list[m] == inner[i]);
                }
            }
            assert forall|i: int, j: int|
                0 <= i < now.len() && 0 <= j < now.len() && i != j implies (#[trigger] now[i]).name
                != (#[trigger] now[j]).name by {
                if i < inner.len() {
                    assert(now[i] == inner[i]);
                }
                if j < inner.len() {
                    assert(now[j] == inner[j]);
                }
            }
        }
    } else {
        assert(now == list.push(o));
        assert forall|i: int| 0 <= i < now.len() implies (#[trigger] now[i]) == o || list.contains(
            now[i],
        ) by {
            if i < list.len() {
                assert(now[i] == list[i]);
            }
        }
        assert forall|i: int, j: int| 0 <= i <= j < now.len() implies (#[trigger] now[i]).register
            <= (#[trigger] now[j]).register by {
            if j < list.len() {
                assert(now[i] == list[i] && now[j] == list[j]);
            } else if i < list.len() {
                assert(now[i] == list[i]);
                assert(list[i].register <= list[list.len() - 1].register);
            }
        }
    }
}

proof fn lemma_by_register(list: Seq<WriteOption>)
    requires
        has_distinct_names(list),
    ensures
        in_register_order(by_register(list)),
        has_distinct_names(by_register(list)),
        by_register(list).to_multiset() == list.to_multiset(),
    decreases list.len(),
{
    broadcast use vstd::seq_lib::group_to_multiset_ensures;

    if list.len() > 0 {
        let front = list.drop_last();
        let o = list.last();
        assert forall|i: int, j: int|
            0 <= i < front.len() && 0 <= j < front.len() && i != j implies (#[trigger] front[i]).name
            != (#[trigger] front[j]).name by {
            assert(front[i] == list[i] && front[j] == list[j]);
        }
        lemma_by_register(front);
        let before = by_register(front);
        assert forall|i: int| 0 <= i < before.len() implies (#[trigger] before[i]).name
            != o.name by {
            assert(before.contains(before[i]));
            assert(before.to_multiset().contains(before[i]));
            assert(front.contains(before[i]));
            let m = choose|m: int| 0 <= m < front.len() && front[m] == before[i];
            assert(list[m] == before[i] && o == list[list.len() - 1]);
        }
        lemma_with_register(before, o);
        assert(list == front.push(o));
    }
}

/// What a manifest offers for writing is in register order, and no name is offered
/// twice.
pub proof fn law_write_options_are_ordered_and_named_once(manifest: ManifestView)
    ensures
        in_register_order(options_of(manifest)),
        has_distinct_names(options_of(manifest)),
{
    let all = crate::detect::flat(
        manifest.frames,
        |f: ModbusFrameView| frame_options(manifest.meta, f),
    );
    lemma_by_name(all);
    lemma_named_once(by_name(all));
    lemma_by_register(named_once(by_name(all)));
}

// ---------------------------------------------------------------------------
// Switching frames off
// ---------------------------------------------------------------------------

/// A frame's table, switched off or on: the flag is set, or taken out.
pub open spec fn switched(frame: crate::document::Part, disabled: bool) -> crate::document::Part {
    if disabled {
        frame.put(
            "disabled"@,
            crate::document::Part::Boolean(true, crate::document::fresh()),
        )
    } else {
        frame.unset("disabled"@)
    }
}

/// A manifest with a frame switched off or on; `None` where it has no such frame.
pub open spec fn frame_switched(
    root: crate::document::Part,
    frame: Seq<char>,
    disabled: bool,
) -> Option<crate::document::Part> {
    match root.get("frame"@) {
        Some(frames) => match frames.get("modbus"@) {
            Some(section) => match section.get(frame) {
                Some(t) => if t.is_table_like() {
                    Some(
                        root.set(
                            "frame"@,
                            frames.set("modbus"@, section.set(frame, switched(t, disabled))),
                        ),
                    )
                } else {
                    None
                },
                None => None,
            },
            None => None,
        },
        None => None,
    }
}

fn is_table_like(item: &Item) -> (r: bool)
    requires
        crate::document::item_part(*item).is_sound(),
    ensures
        r == crate::document::item_part(*item).is_table_like(),
{
    match look(item) {
        Look::Table { .. } => true,
        Look::Inline(_) => true,
        _ => false,
    }
}

fn switch(frame: &mut Item, disabled: bool)
    requires
        crate::document::item_part(*old(frame)).is_table_like(),
        crate::document::item_part(*old(frame)).is_sound(),
    ensures
        crate::document::item_part(*final(frame)).is_sound(),
        crate::document::item_part(*final(frame)) == switched(
            crate::document::item_part(*old(frame)),
            disabled,
        ),
{
    if disabled {
        put(frame, "disabled", boolean_item(true));
    } else {
        take(frame, "disabled");
    }
}

/// Switches a frame of a document off or on; `false` where there is no such frame.
pub fn switch_frame(doc: &mut DocumentMut, frame: &str, disabled: bool) -> (r: bool)
    requires
        crate::document::document_part(*old(doc)) is Table,
        crate::document::document_part(*old(doc)).is_sound(),
    ensures
        crate::document::document_part(*final(doc)) is Table,
        crate::document::document_part(*final(doc)).is_sound(),
        match frame_switched(crate::document::document_part(*old(doc)), frame@, disabled) {
            Some(part) => r && crate::document::document_part(*final(doc)) == part,
            None => !r && crate::document::document_part(*final(doc))
                == crate::document::document_part(*old(doc)),
        },
        crate::document::document_tail(*final(doc)) == crate::document::document_tail(*old(doc)),
{
    let top = root_mut(doc);
    proof {
        let part = crate::document::item_part(*top);
        crate::document::lemma_set_same(part, "frame"@);
        if let Some(frames) = part.get("frame"@) {
            crate::document::lemma_set_same(frames, "modbus"@);
            if let Some(section) = frames.get("modbus"@) {
                crate::document::lemma_set_same(section, frame@);
            }
        }
    }
    if let Some(frames) = child_mut(top, "frame") {
        if let Some(section) = child_mut(frames, "modbus") {
            if let Some(t) = child_mut(section, frame) {
                if is_table_like(t) {
                    switch(t, disabled);
                    return true;
                }
            }
        }
    }
    false
}

/// Switches a frame of a manifest's text off or on, keeping comments and formatting.
pub fn set_frame_disabled(text: &str, frame: &str, disabled: bool) -> (r: Result<String, String>)
    ensures
        match crate::document::editable_document(text@) {
            Ok((root, tail)) => match frame_switched(root, frame@, disabled) {
                Some(part) => r matches Ok(t) && t@ == crate::document::document_text(part, tail),
                None => r matches Err(m) && m@ == "manifest has no frame '"@ + frame@ + "'"@,
            },
            Err(message) => r matches Err(m) && m@ == "manifest is not valid TOML: "@ + message,
        },
{
    match parse_editable(text) {
        Ok(doc) => {
            let mut doc = doc;
            if switch_frame(&mut doc, frame, disabled) {
                Ok(write_document(&doc))
            } else {
                Err(cat3("manifest has no frame '", frame, "'"))
            }
        },
        Err(message) => Err(cat2("manifest is not valid TOML: ", message.as_str())),
    }
}

/// A frame that is switched off and then on again has no flag, and its other fields
/// as they were.
pub proof fn law_switching_off_and_on(frame: crate::document::Part)
    requires
        frame.is_table_like(),
    ensures
        switched(switched(frame, true), false) == switched(frame, false),
        switched(frame, true).get("disabled"@) == Some(
            crate::document::Part::Boolean(true, crate::document::fresh()),
        ),
{
    let on = crate::document::Part::Boolean(true, crate::document::fresh());
    crate::document::lemma_set_unset(frame, "disabled"@, on);
    crate::document::lemma_set_again(frame, "disabled"@, on, on);
}

} // verus!
