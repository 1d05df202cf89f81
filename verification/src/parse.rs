//! Parse a TOML catalogue into the unified [`Catalog`] model.
//!
//! Resolves the CAN/Serial frame sections including mirror/copy inheritance and
//! header-field masks, and reuses [`crate::manifest::ModbusManifest`] for the
//! Modbus section so the two Modbus authoring shorthands (register-from-key,
//! signal-less register) stay single-sourced.

use crate::header::{mask_to_byte_position, parse_header_fields};
use crate::keyed::insert_keyed;
use crate::model::{
    parse_confidence, parse_format, read_endianness, CanConfig, ChecksumConfig, ChecksumParameters,
    Confidence, Endianness, FrameChecksum, FrameTunnel, HeaderField, HeaderFieldPosition,
    ModbusConfig, Mux, MuxCase, NodeDef, SerialConfig, Signal, SignalFormat, TunnelProtocol,
};
use crate::text::{
    are_digits, chars_of, owned, parse_natural, push_signed, split_commas, str_eq,
    strip_hex_prefix, trim_chars,
};
use crate::value::{child, parse_enum_map, parse_notes, Tree};
use vstd::prelude::*;

verus! {

// ---------------------------------------------------------------------------
// Ids
// ---------------------------------------------------------------------------

/// The number an id key spells: hexadecimal after `0x`, else decimal digits.
pub open spec fn id_of(key: Seq<char>) -> Option<int> {
    let t = crate::text::trimmed(key);
    match crate::text::after_hex_prefix(t) {
        Some(hex) => crate::text::within(crate::text::natural(hex, 16), 0, u32::MAX as int),
        None => if crate::text::all_digits(t) {
            crate::text::within(crate::text::natural(t, 10), 0, u32::MAX as int)
        } else {
            None
        },
    }
}

/// Parse a CAN/serial/modbus id key (hex `0x..` or decimal) to a number.
pub fn parse_id(id: &str) -> (r: Option<u32>)
    ensures
        match r {
            Some(n) => id_of(id@) == Some(n as int),
            None => id_of(id@) is None,
        },
{
    let chars = chars_of(id);
    let t = trim_chars(chars.as_slice());
    let n: Option<u128> = match strip_hex_prefix(t.as_slice()) {
        Some(hex) => parse_natural(hex.as_slice(), 16, 0xFFFF_FFFF),
        None => if are_digits(t.as_slice()) {
            parse_natural(t.as_slice(), 10, 0xFFFF_FFFF)
        } else {
            None
        },
    };
    match n {
        Some(n) => Some(n as u32),
        None => None,
    }
}

/// The first entry whose key spells a number.
pub open spec fn entry_with_id(entries: Seq<(Seq<char>, crate::value::Node)>, id: int) -> Option<
    crate::value::Node,
>
    decreases entries.len(),
{
    if entries.len() == 0 {
        None
    } else if id_of(entries[0].0) == Some(id) {
        Some(entries[0].1)
    } else {
        entry_with_id(entries.skip(1), id)
    }
}

/// The frame body of a section that a key refers to by number (so `0x123` and
/// `291` refer to the same).
pub open spec fn referred(key: Option<Seq<char>>, section: crate::value::Node) -> Option<
    crate::value::Node,
> {
    match key {
        Some(key) => match (id_of(key), section.table()) {
            (Some(id), Some(entries)) => entry_with_id(entries, id),
            _ => None,
        },
        None => None,
    }
}

/// Find a frame body in a section by its numeric id value (so `0x123` and `291`
/// match).
fn find_frame_by_numeric_id<'a>(target: &Option<String>, section: &'a Tree) -> (r: Option<
    &'a Tree,
>)
    ensures
        crate::value::opt_node(r) == referred(crate::model::opt_text(*target), section.node()),
{
    let key = match target {
        Some(key) => key,
        None => {
            return None;
        },
    };
    let id: u32 = match parse_id(key.as_str()) {
        Some(id) => id,
        None => {
            return None;
        },
    };
    let entries = match section.entries() {
        Some(entries) => entries,
        None => {
            return None;
        },
    };
    let ghost all = crate::value::entry_views(entries@);
    assert(all.skip(0) == all);
    for i in 0..entries.len()
        invariant
            all == crate::value::entry_views(entries@),
            section.node() == crate::value::Node::Table(all),
            id_of(key@) == Some(id as int),
            *target == Some(*key),
            entry_with_id(all, id as int) == entry_with_id(all.skip(i as int), id as int),
    {
        assert(all.skip(i as int)[0] == all[i as int]);
        assert(all.skip(i as int).skip(1) == all.skip(i + 1));
        if let Some(n) = parse_id(entries[i].0.as_str()) {
            if n == id {
                return Some(&entries[i].1);
            }
        }
    }
    assert(all.skip(all.len() as int).len() == 0);
    None
}

/// A reference to a frame: a number (`copy = 291`) or a string
/// (`copy = "0x123"`).
pub open spec fn reference(n: Option<crate::value::Node>) -> Option<Seq<char>> {
    match n {
        Some(crate::value::Node::Text(s)) => Some(s),
        Some(crate::value::Node::Integer(i)) => Some(crate::text::signed_decimal(i as int)),
        _ => None,
    }
}

fn id_ref_to_string(t: Option<&Tree>) -> (r: Option<String>)
    ensures
        crate::model::opt_text(r) == reference(crate::value::opt_node(t)),
{
    match t {
        Some(Tree::Text(s)) => Some(owned(s.as_str())),
        Some(Tree::Integer(i)) => {
            let mut out = owned("");
            proof {
                reveal_strlit("");
            }
            push_signed(&mut out, *i as i128);
            assert(out@ == crate::text::signed_decimal(*i as int));
            Some(out)
        },
        _ => None,
    }
}

// ---------------------------------------------------------------------------
// Signals
// ---------------------------------------------------------------------------

/// The signal a table declares.
pub open spec fn signal_of(n: crate::value::Node, inherited: bool) -> crate::model::SignalView {
    crate::model::SignalView {
        name: n.text_at("name"@),
        start_bit: n.u32_at("start_bit"@),
        bit_length: n.u32_at("bit_length"@),
        signed: n.boolean_at("signed"@),
        endianness: crate::header::first_of(
            crate::model::endianness_at(n, "byte_order"@),
            crate::model::endianness_at(n, "endianness"@),
        ),
        word_order: crate::model::endianness_at(n, "word_order"@),
        factor: n.number_at("factor"@),
        offset: n.number_at("offset"@),
        unit: n.text_at("unit"@),
        min: n.number_at("min"@),
        max: n.number_at("max"@),
        format: match n.text_at("format"@) {
            Some(s) => crate::model::format_named(s),
            None => None,
        },
        enum_map: crate::value::enum_map_of(n.get("enum"@)),
        confidence: match n.text_at("confidence"@) {
            Some(s) => crate::model::confidence_named(s),
            None => None,
        },
        notes: crate::value::notes_of(n),
        inherited: inherited || n.boolean_at("_inherited"@) == Some(true),
        modbus_register: None,
        modbus_register_count: None,
    }
}

/// Read a signal: `byte_order` (or the older `endianness`) becomes its byte
/// order, the other fields carry over.
fn normalise_signal(raw: &Tree, inherited: bool) -> (r: Signal)
    ensures
        r@ == signal_of(raw.node(), inherited),
{
    let endianness: Option<Endianness> = match read_endianness(raw, "byte_order") {
        Some(e) => Some(e),
        None => read_endianness(raw, "endianness"),
    };
    let format: Option<SignalFormat> = match raw.text_at("format") {
        Some(s) => parse_format(s),
        None => None,
    };
    let confidence: Option<Confidence> = match raw.text_at("confidence") {
        Some(s) => parse_confidence(s),
        None => None,
    };
    let marked: bool = match raw.boolean_at("_inherited") {
        Some(b) => b,
        None => false,
    };
    Signal {
        name: raw.owned_at("name"),
        start_bit: raw.u32_at("start_bit"),
        bit_length: raw.u32_at("bit_length"),
        signed: raw.boolean_at("signed"),
        endianness,
        word_order: read_endianness(raw, "word_order"),
        factor: raw.number_at("factor"),
        offset: raw.number_at("offset"),
        unit: raw.owned_at("unit"),
        min: raw.number_at("min"),
        max: raw.number_at("max"),
        format,
        enum_map: parse_enum_map(raw.get("enum")),
        confidence,
        notes: parse_notes(raw),
        inherited: inherited || marked,
        modbus_register: None,
        modbus_register_count: None,
    }
}

/// The signals the tables of a list declare.
pub open spec fn signals_of(items: Seq<crate::value::Node>) -> Seq<crate::model::SignalView> {
    items.map_values(|n: crate::value::Node| signal_of(n, false))
}

/// The items of an array; none where there is no array.
pub open spec fn items_of(n: Option<crate::value::Node>) -> Seq<crate::value::Node> {
    match n {
        Some(crate::value::Node::Array(items)) => items,
        _ => Seq::empty(),
    }
}

fn signal_list(items: &Vec<Tree>) -> (r: Vec<Signal>)
    ensures
        crate::model::signal_views(r@) == signals_of(crate::value::item_views(items@)),
{
    let ghost all = signals_of(crate::value::item_views(items@));
    let mut out: Vec<Signal> = Vec::new();
    for i in 0..items.len()
        invariant
            all == signals_of(crate::value::item_views(items@)),
            crate::model::signal_views(out@) == all.take(i as int),
    {
        let ghost before = crate::model::signal_views(out@);
        let s = normalise_signal(&items[i], false);
        out.push(s);
        assert(crate::model::signal_views(out@) == before.push(s@));
        assert(all[i as int] == s@);
        assert(all.take(i + 1) == all.take(i as int).push(all[i as int]));
    }
    assert(all.take(all.len() as int) == all);
    out
}

pub(crate) fn normalise_signals(arr: Option<&Tree>) -> (r: Vec<Signal>)
    ensures
        crate::model::signal_views(r@) == signals_of(items_of(crate::value::opt_node(arr))),
{
    let out: Vec<Signal> = Vec::new();
    assert(crate::model::signal_views(out@) == signals_of(Seq::empty()));
    match arr {
        Some(t) => match t.items() {
            Some(items) => signal_list(items),
            None => out,
        },
        None => out,
    }
}

// ---------------------------------------------------------------------------
// Multiplexers
// ---------------------------------------------------------------------------

/// The text before the first dash and the text after it.
pub open spec fn around_dash(s: Seq<char>) -> Option<(Seq<char>, Seq<char>)>
    decreases s.len(),
{
    if s.len() == 0 {
        None
    } else if s[0] == '-' {
        Some((Seq::empty(), s.skip(1)))
    } else {
        match around_dash(s.skip(1)) {
            Some((a, b)) => Some((seq![s[0]] + a, b)),
            None => None,
        }
    }
}

/// The text before the first dash and the text after it.
pub fn split_dash(s: &[char]) -> (r: Option<(Vec<char>, Vec<char>)>)
    ensures
        match r {
            Some((a, b)) => around_dash(s@) == Some((a@, b@)),
            None => around_dash(s@) is None,
        },
{
    let mut i: usize = 0;
    assert(s@.skip(0) == s@);
    while i < s.len() && s[i] != '-'
        invariant
            i <= s@.len(),
            around_dash(s@) == match around_dash(s@.skip(i as int)) {
                Some((a, b)) => Some((s@.take(i as int) + a, b)),
                None => None::<(Seq<char>, Seq<char>)>,
            },
        decreases s@.len() - i,
    {
        let ghost rest = s@.skip(i as int);
        assert(rest[0] == s@[i as int]);
        assert(rest.skip(1) == s@.skip(i + 1));
        proof {
            match around_dash(rest.skip(1)) {
                Some((a, b)) => {
                    assert(s@.take(i as int) + (seq![rest[0]] + a) == s@.take(i + 1) + a);
                },
                None => {},
            }
        }
        i = i + 1;
    }
    if i == s.len() {
        assert(s@.skip(i as int).len() == 0);
        return None;
    }
    let ghost rest = s@.skip(i as int);
    assert(rest[0] == s@[i as int]);
    assert(rest.skip(1) == s@.skip(i + 1));
    assert(s@.take(i as int) + Seq::<char>::empty() == s@.take(i as int));
    let a = vstd::slice::slice_to_vec(vstd::slice::slice_subrange(s, 0, i));
    let b = vstd::slice::slice_to_vec(vstd::slice::slice_subrange(s, i + 1, s.len()));
    assert(a@ == s@.take(i as int));
    assert(b@ == s@.skip(i + 1));
    Some((a, b))
}

/// Whether a part of a case key is a number or a range of two.
pub open spec fn is_case_part(part: Seq<char>) -> bool {
    match around_dash(crate::text::trimmed(part)) {
        Some((a, b)) => crate::text::all_digits(a) && crate::text::all_digits(b),
        None => crate::text::all_digits(crate::text::trimmed(part)),
    }
}

/// Whether a key of a multiplexer's table is reserved.
pub open spec fn is_reserved(key: Seq<char>) -> bool {
    key == "name"@ || key == "start_bit"@ || key == "bit_length"@ || key == "default"@
}

/// Whether a key of a multiplexer's table denotes a case: numbers (`1`), ranges
/// (`0-3`), or a list of them (`1,2,5`).
pub open spec fn is_case_key(key: Seq<char>) -> bool {
    !is_reserved(key) && forall|i: int|
        0 <= i < crate::text::comma_parts(key).len() ==> is_case_part(
            #[trigger] crate::text::comma_parts(key)[i],
        )
}

/// Whether a key of a multiplexer's table is reserved.
pub fn is_reserved_key(key: &str) -> (r: bool)
    ensures
        r == is_reserved(key@),
{
    str_eq(key, "name") || str_eq(key, "start_bit") || str_eq(key, "bit_length") || str_eq(
        key,
        "default",
    )
}

/// Whether a mux table key denotes a case (numeric, range `0-3`, or list
/// `1,2,5`) rather than a reserved key.
pub fn is_mux_case_key(key: &str) -> (r: bool)
    ensures
        r == is_case_key(key@),
{
    if is_reserved_key(key) {
        return false;
    }
    let chars = chars_of(key);
    let parts = split_commas(chars.as_slice());
    let ghost all = crate::text::comma_parts(key@);
    for i in 0..parts.len()
        invariant
            all == crate::text::comma_parts(key@),
            all == crate::text::char_lists(parts@),
            !is_reserved(key@),
            forall|j: int| 0 <= j < i ==> is_case_part(#[trigger] all[j]),
    {
        assert(all[i as int] == parts@[i as int]@);
        let part = trim_chars(parts[i].as_slice());
        let fits: bool = match split_dash(part.as_slice()) {
            Some((a, b)) => are_digits(a.as_slice()) && are_digits(b.as_slice()),
            None => are_digits(part.as_slice()),
        };
        if !fits {
            return false;
        }
    }
    true
}

/// What a table holds under a key comes before the table.
pub proof fn lemma_get_decreases(n: crate::value::Node, key: Seq<char>)
    ensures
        n.get(key) matches Some(m) ==> decreases_to!(n => m),
{
    if let crate::value::Node::Table(entries) = n {
        lemma_entry_is_one(entries, key);
        if let Some(m) = n.get(key) {
            let i = choose|i: int| 0 <= i < entries.len() && (#[trigger] entries[i]).1 == m;
            assert(decreases_to!(n => entries));
            assert(decreases_to!(entries => entries[i]));
            assert(decreases_to!(entries[i] => entries[i].1));
        }
    }
}

proof fn lemma_entry_is_one(entries: Seq<(Seq<char>, crate::value::Node)>, key: Seq<char>)
    ensures
        crate::value::entry(entries, key) matches Some(m) ==> exists|i: int|
            0 <= i < entries.len() && (#[trigger] entries[i]).1 == m,
    decreases entries.len(),
{
    if entries.len() > 0 && entries[0].0 != key {
        let rest = entries.skip(1);
        lemma_entry_is_one(rest, key);
        if let Some(m) = crate::value::entry(rest, key) {
            let i = choose|i: int| 0 <= i < rest.len() && (#[trigger] rest[i]).1 == m;
            assert(entries[i + 1].1 == m);
        }
    }
}

/// The multiplexer a table declares; `None` where there is no table.
pub open spec fn mux_of(n: crate::value::Node) -> Option<crate::model::MuxView>
    decreases n,
{
    match n {
        crate::value::Node::Table(entries) => Some(
            crate::model::MuxView {
                name: n.text_at("name"@),
                start_bit: crate::model::or_else(n.u32_at("start_bit"@), 0),
                bit_length: crate::model::or_else(n.u32_at("bit_length"@), 8),
                default: n.text_at("default"@),
                notes: crate::value::notes_of(n),
                cases: cases_in(entries),
            },
        ),
        _ => None,
    }
}

/// The cases among the entries of a multiplexer's table, in the order of their keys.
pub open spec fn cases_in(entries: Seq<(Seq<char>, crate::value::Node)>) -> Seq<
    (Seq<char>, crate::model::MuxCaseView),
>
    decreases entries,
{
    if entries.len() == 0 {
        Seq::empty()
    } else {
        let before = cases_in(entries.drop_last());
        let last = entries[entries.len() - 1];
        if is_case_key(last.0) {
            crate::keyed::with_key(before, (last.0, case_of(last.1)))
        } else {
            before
        }
    }
}

/// The case a table declares.
pub open spec fn case_of(n: crate::value::Node) -> crate::model::MuxCaseView
    decreases n,
{
    crate::model::MuxCaseView {
        signals: signals_of(items_of(n.get("signals"@))),
        mux: match n.get("mux"@) {
            Some(m) => {
                proof {
                    lemma_get_decreases(n, "mux"@);
                }
                match mux_of(m) {
                    Some(mux) => Some(Box::new(mux)),
                    None => None,
                }
            },
            None => None,
        },
        notes: crate::value::notes_of(n),
    }
}

/// The multiplexer a value that may be absent declares.
pub open spec fn opt_mux_of(n: Option<crate::value::Node>) -> Option<crate::model::MuxView> {
    match n {
        Some(n) => mux_of(n),
        None => None,
    }
}

/// What each of a list of cases is.
pub open spec fn case_views(cases: Seq<(String, MuxCase)>) -> Seq<
    (Seq<char>, crate::model::MuxCaseView),
> {
    cases.map_values(|c: (String, MuxCase)| (c.0@, c.1.model()))
}

/// A multiplexer's cases, as a mathematical value.
pub proof fn lemma_mux_cases(mux: Mux)
    ensures
        mux.model().cases == case_views(mux.cases@),
{
}

/// The cases of a multiplexer come in the order of their keys, no key twice.
pub proof fn law_cases_are_ordered(n: crate::value::Node)
    ensures
        mux_of(n) matches Some(mux) ==> crate::keyed::keys_ascend(mux.cases),
{
    if let crate::value::Node::Table(entries) = n {
        lemma_cases_ascend(entries);
    }
}

proof fn lemma_cases_ascend(entries: Seq<(Seq<char>, crate::value::Node)>)
    ensures
        crate::keyed::keys_ascend(cases_in(entries)),
    decreases entries.len(),
{
    if entries.len() > 0 {
        let front = entries.drop_last();
        let last = entries[entries.len() - 1];
        lemma_cases_ascend(front);
        if is_case_key(last.0) {
            crate::keyed::lemma_with_key(cases_in(front), (last.0, case_of(last.1)));
        }
    }
}

fn parse_case(case_data: &Tree) -> (r: MuxCase)
    ensures
        r.model() == case_of(case_data.node()),
    decreases case_data.node(),
{
    let signals = normalise_signals(case_data.get("signals"));
    let nested: Option<Box<Mux>> = match case_data.get("mux") {
        Some(m) => {
            proof {
                lemma_get_decreases(case_data.node(), "mux"@);
            }
            match parse_mux(m) {
                Some(mux) => Some(Box::new(mux)),
                None => None,
            }
        },
        None => None,
    };
    MuxCase { signals, mux: nested, notes: parse_notes(case_data) }
}

fn parse_mux(mux: &Tree) -> (r: Option<Mux>)
    ensures
        crate::model::opt_mux(r) == mux_of(mux.node()),
    decreases mux.node(),
{
    let entries = match mux.entries() {
        Some(entries) => entries,
        None => {
            return None;
        },
    };
    let ghost all = crate::value::entry_views(entries@);
    let mut cases: Vec<(String, MuxCase)> = Vec::new();
    assert(case_views(cases@) == Seq::<(Seq<char>, crate::model::MuxCaseView)>::empty());
    for i in 0..entries.len()
        invariant
            all == crate::value::entry_views(entries@),
            mux.node() == crate::value::Node::Table(all),
            case_views(cases@) == cases_in(all.take(i as int)),
    {
        let ghost before = case_views(cases@);
        let ghost e = all[i as int];
        assert(e == (entries@[i as int].0@, entries@[i as int].1.node()));
        assert(all.take(i + 1).drop_last() == all.take(i as int));
        assert(all.take(i + 1)[i as int] == e);
        if is_mux_case_key(entries[i].0.as_str()) {
            proof {
                assert(decreases_to!(mux.node() => mux.node()->Table_0));
                assert(decreases_to!(all => all[i as int]));
                assert(decreases_to!(all[i as int] => all[i as int].1));
            }
            let case = parse_case(&entries[i].1);
            let ghost shown = |c: MuxCase| c.model();
            let ghost kept = crate::keyed::keyed(cases@);
            proof {
                assert(before == crate::keyed::mapped(kept, shown));
                crate::keyed::lemma_with_key_mapped(kept, (e.0, case), shown);
            }
            insert_keyed(&mut cases, entries[i].0.as_str(), case);
            assert(case_views(cases@) == crate::keyed::mapped(
                crate::keyed::keyed(cases@),
                shown,
            ));
        }
    }
    assert(all.take(all.len() as int) == all);
    let start_bit: u32 = match mux.u32_at("start_bit") {
        Some(n) => n,
        None => 0,
    };
    let bit_length: u32 = match mux.u32_at("bit_length") {
        Some(n) => n,
        None => 8,
    };
    let out = Mux {
        name: mux.owned_at("name"),
        start_bit,
        bit_length,
        default: mux.owned_at("default"),
        notes: parse_notes(mux),
        cases,
    };
    proof {
        lemma_mux_cases(out);
    }
    Some(out)
}

pub(crate) fn parse_opt_mux(mux: Option<&Tree>) -> (r: Option<Mux>)
    ensures
        crate::model::opt_mux(r) == opt_mux_of(crate::value::opt_node(mux)),
{
    match mux {
        Some(mux) => parse_mux(mux),
        None => None,
    }
}

// ---------------------------------------------------------------------------
// Parts of a frame
// ---------------------------------------------------------------------------

/// The bytes among the items.
pub open spec fn bytes_in(items: Seq<crate::value::Node>) -> Seq<u8>
    decreases items.len(),
{
    if items.len() == 0 {
        Seq::empty()
    } else {
        let before = bytes_in(items.drop_last());
        match items.last().integer() {
            Some(i) => if 0 <= i <= 255 {
                before.push(i as u8)
            } else {
                before
            },
            None => before,
        }
    }
}

/// A serial frame's `delimiter`, unless it has no bytes.
pub open spec fn delimiter_of(n: crate::value::Node) -> Option<Seq<u8>> {
    match n.get("delimiter"@) {
        Some(crate::value::Node::Array(items)) => if bytes_in(items).len() > 0 {
            Some(bytes_in(items))
        } else {
            None
        },
        _ => None,
    }
}

/// Optional bytes, as a mathematical value.
pub open spec fn opt_bytes(b: Option<Vec<u8>>) -> Option<Seq<u8>> {
    match b {
        Some(b) => Some(b@),
        None => None,
    }
}

/// Parse a serial frame's `delimiter` byte array.
pub(crate) fn parse_delimiter(body: &Tree) -> (r: Option<Vec<u8>>)
    ensures
        opt_bytes(r) == delimiter_of(body.node()),
{
    let t = match body.get("delimiter") {
        Some(t) => t,
        None => {
            return None;
        },
    };
    let items = match t.items() {
        Some(items) => items,
        None => {
            return None;
        },
    };
    let ghost all = crate::value::item_views(items@);
    let mut out: Vec<u8> = Vec::new();
    for i in 0..items.len()
        invariant
            all == crate::value::item_views(items@),
            out@ == bytes_in(all.take(i as int)),
    {
        assert(all.take(i + 1).drop_last() == all.take(i as int));
        assert(all.take(i + 1).last() == items@[i as int].node());
        if let Some(n) = items[i].integer() {
            if 0 <= n && n <= 255 {
                out.push(n as u8);
            }
        }
    }
    assert(all.take(all.len() as int) == all);
    if out.len() == 0 {
        None
    } else {
        Some(out)
    }
}

/// The checksum a table declares, unless it lacks an algorithm or a position.
pub open spec fn checksum_of(n: crate::value::Node) -> Option<crate::model::FrameChecksumView> {
    match (n.text_at("algorithm"@), n.i32_at("start_byte"@)) {
        (Some(algorithm), Some(start_byte)) => Some(
            crate::model::FrameChecksumView {
                name: n.text_at("name"@),
                algorithm,
                start_byte,
                byte_length: crate::model::or_else(n.u32_at("byte_length"@), 1),
                endianness: crate::header::first_of(
                    crate::model::endianness_at(n, "byte_order"@),
                    crate::model::endianness_at(n, "endianness"@),
                ),
                calc_start_byte: crate::model::or_else(n.i32_at("calc_start_byte"@), 0),
                calc_end_byte: n.i32_at("calc_end_byte"@),
                parameters: crate::model::ChecksumParameters {
                    polynomial: n.u16_at("polynomial"@),
                    init: n.u16_at("init"@),
                    xor_out: n.u16_at("xor_out"@),
                    reflect_in: n.boolean_at("reflect_in"@),
                    reflect_out: n.boolean_at("reflect_out"@),
                    offset: n.u8_at("offset"@),
                },
                notes: crate::value::notes_of(n),
            },
        ),
        _ => None,
    }
}

/// The checksums the items declare.
pub open spec fn checksums_in(items: Seq<crate::value::Node>) -> Seq<
    crate::model::FrameChecksumView,
>
    decreases items.len(),
{
    if items.len() == 0 {
        Seq::empty()
    } else {
        let before = checksums_in(items.drop_last());
        match checksum_of(items.last()) {
            Some(c) => before.push(c),
            None => before,
        }
    }
}

/// The checksums of a frame: an array of tables, or a single table.
pub open spec fn checksums_of(n: crate::value::Node) -> Seq<crate::model::FrameChecksumView> {
    match n.get("checksum"@) {
        Some(crate::value::Node::Array(items)) => checksums_in(items),
        Some(crate::value::Node::Table(entries)) => match checksum_of(
            crate::value::Node::Table(entries),
        ) {
            Some(c) => seq![c],
            None => Seq::empty(),
        },
        _ => Seq::empty(),
    }
}

fn read_checksum(c: &Tree) -> (r: Option<FrameChecksum>)
    ensures
        match r {
            Some(f) => checksum_of(c.node()) == Some(f@),
            None => checksum_of(c.node()) is None,
        },
{
    let algorithm = match c.owned_at("algorithm") {
        Some(algorithm) => algorithm,
        None => {
            return None;
        },
    };
    let start_byte: i32 = match c.i32_at("start_byte") {
        Some(n) => n,
        None => {
            return None;
        },
    };
    let byte_length: u32 = match c.u32_at("byte_length") {
        Some(n) => n,
        None => 1,
    };
    let endianness: Option<Endianness> = match read_endianness(c, "byte_order") {
        Some(e) => Some(e),
        None => read_endianness(c, "endianness"),
    };
    let calc_start_byte: i32 = match c.i32_at("calc_start_byte") {
        Some(n) => n,
        None => 0,
    };
    Some(
        FrameChecksum {
            name: c.owned_at("name"),
            algorithm,
            start_byte,
            byte_length,
            endianness,
            calc_start_byte,
            calc_end_byte: c.i32_at("calc_end_byte"),
            parameters: ChecksumParameters {
                polynomial: c.u16_at("polynomial"),
                init: c.u16_at("init"),
                xor_out: c.u16_at("xor_out"),
                reflect_in: c.boolean_at("reflect_in"),
                reflect_out: c.boolean_at("reflect_out"),
                offset: c.u8_at("offset"),
            },
            notes: parse_notes(c),
        },
    )
}

/// Parse per-frame `[[…checksum]]` (array) or `[…checksum]` (single table).
pub(crate) fn parse_frame_checksums(body: &Tree) -> (r: Vec<FrameChecksum>)
    ensures
        crate::model::checksum_views(r@) == checksums_of(body.node()),
{
    let mut out: Vec<FrameChecksum> = Vec::new();
    assert(crate::model::checksum_views(out@) == Seq::<crate::model::FrameChecksumView>::empty());
    let t = match body.get("checksum") {
        Some(t) => t,
        None => {
            return out;
        },
    };
    if let Some(items) = t.items() {
        let ghost all = crate::value::item_views(items@);
        for i in 0..items.len()
            invariant
                all == crate::value::item_views(items@),
                crate::model::checksum_views(out@) == checksums_in(all.take(i as int)),
        {
            let ghost before = crate::model::checksum_views(out@);
            assert(all.take(i + 1).drop_last() == all.take(i as int));
            assert(all.take(i + 1).last() == items@[i as int].node());
            if let Some(c) = read_checksum(&items[i]) {
                let ghost view = c@;
                out.push(c);
                assert(crate::model::checksum_views(out@) == before.push(view));
            }
        }
        assert(all.take(all.len() as int) == all);
        return out;
    }
    if t.entries().is_some() {
        if let Some(c) = read_checksum(t) {
            let ghost view = c@;
            out.push(c);
            assert(crate::model::checksum_views(out@) == seq![view]);
        }
    }
    out
}

/// The nodes the entries of the `[node]` table declare, in their order.
pub open spec fn nodes_in(entries: Seq<(Seq<char>, crate::value::Node)>) -> Seq<
    crate::model::NodeDefView,
> {
    entries.map_values(
        |e: (Seq<char>, crate::value::Node)|
            crate::model::NodeDefView {
                name: e.0,
                device_address: e.1.u8_at("device_address"@),
                notes: crate::value::notes_of(e.1),
            },
    )
}

/// The entries of the `[node]` table; none where there is no table.
pub open spec fn node_entries(root: crate::value::Node) -> Seq<(Seq<char>, crate::value::Node)> {
    match root.get("node"@) {
        Some(crate::value::Node::Table(entries)) => entries,
        _ => Seq::empty(),
    }
}

/// Parse the `[node]` table into ordered peer definitions.
pub(crate) fn parse_nodes(root: &Tree) -> (r: Vec<NodeDef>)
    ensures
        crate::model::node_views(r@) == nodes_in(node_entries(root.node())),
{
    let mut out: Vec<NodeDef> = Vec::new();
    assert(crate::model::node_views(out@) == nodes_in(Seq::empty()));
    let t = match root.get("node") {
        Some(t) => t,
        None => {
            return out;
        },
    };
    let entries = match t.entries() {
        Some(entries) => entries,
        None => {
            return out;
        },
    };
    let ghost all = nodes_in(crate::value::entry_views(entries@));
    for i in 0..entries.len()
        invariant
            all == nodes_in(crate::value::entry_views(entries@)),
            crate::model::node_views(out@) == all.take(i as int),
    {
        let ghost before = crate::model::node_views(out@);
        let body = &entries[i].1;
        let def = NodeDef {
            name: owned(entries[i].0.as_str()),
            device_address: body.u8_at("device_address"),
            notes: parse_notes(body),
        };
        out.push(def);
        assert(crate::model::node_views(out@) == before.push(def@));
        assert(all[i as int] == def@);
        assert(all.take(i + 1) == all.take(i as int).push(all[i as int]));
    }
    assert(all.take(all.len() as int) == all);
    out
}

/// The non-negative integer under the first of two keys that holds an integer.
pub open spec fn interval_in(n: crate::value::Node) -> Option<u64> {
    match n.integer_at("interval"@) {
        Some(_) => n.u64_at("interval"@),
        None => n.u64_at("interval_ms"@),
    }
}

/// A frame's own interval: `tx.interval` / `tx.interval_ms`, or else the flat
/// `interval_ms` that a migrated catalogue has.
pub open spec fn interval_of(n: crate::value::Node) -> Option<u64> {
    match n.get("tx"@) {
        Some(tx) => if tx.integer_at("interval"@) is Some || tx.integer_at(
            "interval_ms"@,
        ) is Some {
            interval_in(tx)
        } else {
            n.u64_at("interval_ms"@)
        },
        None => n.u64_at("interval_ms"@),
    }
}

/// Frame `tx.interval` / `tx.interval_ms` (either spelling), or `interval_ms`.
pub(crate) fn frame_interval(body: &Tree) -> (r: Option<u64>)
    ensures
        r == interval_of(body.node()),
{
    if let Some(tx) = body.get("tx") {
        if tx.integer_at("interval").is_some() {
            return tx.u64_at("interval");
        }
        if tx.integer_at("interval_ms").is_some() {
            return tx.u64_at("interval_ms");
        }
    }
    body.u64_at("interval_ms")
}

/// The tunnel a frame declares, where its protocol is a known one.
pub open spec fn tunnel_of(n: crate::value::Node) -> Option<crate::model::TunnelView> {
    match n.get("tunnel"@) {
        Some(t) => if t.text_at("protocol"@) == Some("modbus_rtu"@) {
            Some(
                crate::model::TunnelView {
                    protocol: TunnelProtocol::ModbusRtu,
                    device_address: t.u8_at("device_address"@),
                    notes: crate::value::notes_of(t),
                },
            )
        } else {
            None
        },
        None => None,
    }
}

/// An optional tunnel, as a mathematical value.
pub open spec fn opt_tunnel(t: Option<FrameTunnel>) -> Option<crate::model::TunnelView> {
    match t {
        Some(t) => Some(t@),
        None => None,
    }
}

/// Parse a frame's `[…tunnel]`. A tunnel whose protocol is unknown is dropped.
pub(crate) fn parse_tunnel(body: &Tree) -> (r: Option<FrameTunnel>)
    ensures
        opt_tunnel(r) == tunnel_of(body.node()),
{
    let t = match body.get("tunnel") {
        Some(t) => t,
        None => {
            return None;
        },
    };
    match t.text_at("protocol") {
        Some(protocol) => if str_eq(protocol, "modbus_rtu") {
            Some(
                FrameTunnel {
                    protocol: TunnelProtocol::ModbusRtu,
                    device_address: t.u8_at("device_address"),
                    notes: parse_notes(t),
                },
            )
        } else {
            None
        },
        None => None,
    }
}

// ---------------------------------------------------------------------------
// Mirror / copy inheritance
// ---------------------------------------------------------------------------

/// Where a signal's table places it: start bit and length, zero where absent.
pub open spec fn bit_place(n: crate::value::Node) -> (i64, i64) {
    (
        crate::model::or_else(n.integer_at("start_bit"@), 0),
        crate::model::or_else(n.integer_at("bit_length"@), 0),
    )
}

fn bit_key(t: &Tree) -> (r: (i64, i64))
    ensures
        r == bit_place(t.node()),
{
    let start: i64 = match t.integer_at("start_bit") {
        Some(n) => n,
        None => 0,
    };
    let length: i64 = match t.integer_at("bit_length") {
        Some(n) => n,
        None => 0,
    };
    (start, length)
}

/// The signal tables of a frame, under `signals` or `signal`.
pub open spec fn own_signals(n: crate::value::Node) -> Seq<crate::value::Node> {
    items_of(crate::header::first_of(n.get("signals"@), n.get("signal"@)))
}

/// The items of an array that may be absent.
fn opt_items(t: Option<&Tree>) -> (r: Option<&Vec<Tree>>)
    ensures
        match r {
            Some(items) => crate::value::item_views(items@) == items_of(
                crate::value::opt_node(t),
            ),
            None => items_of(crate::value::opt_node(t)) == Seq::<crate::value::Node>::empty(),
        },
{
    match t {
        Some(t) => t.items(),
        None => None,
    }
}

fn raw_signals(body: &Tree) -> (r: Option<&Vec<Tree>>)
    ensures
        match r {
            Some(items) => crate::value::item_views(items@) == own_signals(body.node()),
            None => own_signals(body.node()) == Seq::<crate::value::Node>::empty(),
        },
{
    match body.get("signals") {
        Some(t) => opt_items(Some(t)),
        None => opt_items(body.get("signal")),
    }
}

/// The last of the tables at a place.
pub open spec fn last_at(items: Seq<crate::value::Node>, place: (i64, i64)) -> Option<
    crate::value::Node,
>
    decreases items.len(),
{
    if items.len() == 0 {
        None
    } else if bit_place(items.last()) == place {
        Some(items.last())
    } else {
        last_at(items.drop_last(), place)
    }
}

fn find_last_at(items: &Vec<Tree>, place: (i64, i64)) -> (r: Option<&Tree>)
    ensures
        crate::value::opt_node(r) == last_at(crate::value::item_views(items@), place),
{
    let ghost all = crate::value::item_views(items@);
    let mut n: usize = items.len();
    assert(all.take(n as int) == all);
    while n > 0
        invariant
            n <= items@.len(),
            all == crate::value::item_views(items@),
            last_at(all, place) == last_at(all.take(n as int), place),
        decreases n,
    {
        assert(all.take(n as int).last() == items@[n - 1].node());
        assert(all.take(n as int).drop_last() == all.take(n - 1));
        let p = bit_key(&items[n - 1]);
        if p.0 == place.0 && p.1 == place.1 {
            return Some(&items[n - 1]);
        }
        n = n - 1;
    }
    None
}

/// A signal of the source, as the mirror has it: overridden by the mirror's own
/// at the same place, else inherited.
pub open spec fn mirrored(own: Seq<crate::value::Node>, n: crate::value::Node) -> crate::model::SignalView {
    match last_at(own, bit_place(n)) {
        Some(over) => signal_of(over, false),
        None => signal_of(n, true),
    }
}

/// The mirror's own signals at places where the source has none.
pub open spec fn added(own: Seq<crate::value::Node>, primary: Seq<crate::value::Node>) -> Seq<
    crate::model::SignalView,
>
    decreases own.len(),
{
    if own.len() == 0 {
        Seq::empty()
    } else {
        let before = added(own.drop_last(), primary);
        if last_at(primary, bit_place(own.last())) is None {
            before.push(signal_of(own.last(), false))
        } else {
            before
        }
    }
}

/// The signals of a mirror: those of its source, then those it adds.
pub open spec fn mirror_signals(
    own: Seq<crate::value::Node>,
    primary: Seq<crate::value::Node>,
) -> Seq<crate::model::SignalView> {
    primary.map_values(|n: crate::value::Node| mirrored(own, n)) + added(own, primary)
}

fn merged_signals(own: &Vec<Tree>, primary: &Vec<Tree>) -> (r: Vec<Signal>)
    ensures
        crate::model::signal_views(r@) == mirror_signals(
            crate::value::item_views(own@),
            crate::value::item_views(primary@),
        ),
{
    let ghost mine = crate::value::item_views(own@);
    let ghost theirs = crate::value::item_views(primary@);
    let ghost first = theirs.map_values(|n: crate::value::Node| mirrored(mine, n));
    let mut out: Vec<Signal> = Vec::new();
    // Start with primary signals, overridden by position; inherited unless
    // overridden.
    for i in 0..primary.len()
        invariant
            mine == crate::value::item_views(own@),
            theirs == crate::value::item_views(primary@),
            first == theirs.map_values(|n: crate::value::Node| mirrored(mine, n)),
            crate::model::signal_views(out@) == first.take(i as int),
    {
        let ghost before = crate::model::signal_views(out@);
        let s = match find_last_at(own, bit_key(&primary[i])) {
            Some(over) => normalise_signal(over, false),
            None => normalise_signal(&primary[i], true),
        };
        out.push(s);
        assert(crate::model::signal_views(out@) == before.push(s@));
        assert(theirs[i as int] == primary@[i as int].node());
        assert(first[i as int] == s@);
        assert(first.take(i + 1) == first.take(i as int).push(first[i as int]));
    }
    assert(first.take(first.len() as int) == first);
    assert(crate::model::signal_views(out@) == first + added(mine.take(0), theirs));
    // Add mirror signals at new positions (not inherited).
    for i in 0..own.len()
        invariant
            mine == crate::value::item_views(own@),
            theirs == crate::value::item_views(primary@),
            crate::model::signal_views(out@) == first + added(mine.take(i as int), theirs),
    {
        let ghost before = crate::model::signal_views(out@);
        assert(mine.take(i + 1).drop_last() == mine.take(i as int));
        assert(mine.take(i + 1).last() == own@[i as int].node());
        if find_last_at(primary, bit_key(&own[i])).is_none() {
            let s = normalise_signal(&own[i], false);
            out.push(s);
            assert(crate::model::signal_views(out@) == before.push(s@));
            assert(before.push(s@) == first + added(mine.take(i as int), theirs).push(s@));
        }
    }
    assert(mine.take(mine.len() as int) == mine);
    out
}

/// The frame that a CAN frame's metadata comes from: its copy source, else its
/// mirror source.
pub open spec fn metadata_source(
    n: crate::value::Node,
    section: crate::value::Node,
) -> Option<crate::value::Node> {
    match reference(n.get("copy"@)) {
        Some(key) => referred(Some(key), section),
        None => referred(reference(n.get("mirror_of"@)), section),
    }
}

/// The length a frame takes over.
pub open spec fn inherited_length(
    n: crate::value::Node,
    section: crate::value::Node,
) -> Option<u32> {
    match metadata_source(n, section) {
        Some(src) => if n.integer_at("length"@) is None {
            src.u32_at("length"@)
        } else {
            None
        },
        None => None,
    }
}

/// The transmitter a frame takes over.
pub open spec fn inherited_transmitter(
    n: crate::value::Node,
    section: crate::value::Node,
) -> Option<Seq<char>> {
    match metadata_source(n, section) {
        Some(src) => if n.text_at("transmitter"@) is None {
            src.text_at("transmitter"@)
        } else {
            None
        },
        None => None,
    }
}

/// The interval a frame takes over.
pub open spec fn inherited_interval(
    n: crate::value::Node,
    section: crate::value::Node,
) -> Option<u64> {
    match metadata_source(n, section) {
        Some(src) => if interval_of(n) is None {
            interval_of(src)
        } else {
            None
        },
        None => None,
    }
}

/// The signals of a CAN frame.
pub open spec fn resolved_signals(n: crate::value::Node, section: crate::value::Node) -> Seq<
    crate::model::SignalView,
> {
    match referred(reference(n.get("mirror_of"@)), section) {
        Some(src) => mirror_signals(own_signals(n), own_signals(src)),
        None => signals_of(own_signals(n)),
    }
}

/// The multiplexer of a CAN frame: its own, else its mirror source's.
pub open spec fn resolved_mux(n: crate::value::Node, section: crate::value::Node) -> Option<
    crate::model::MuxView,
> {
    match n.get("mux"@) {
        Some(m) => mux_of(m),
        None => opt_mux_of(
            crate::value::under(referred(reference(n.get("mirror_of"@)), section), "mux"@),
        ),
    }
}

/// What a CAN frame is after its references are resolved.
pub(crate) struct Resolution {
    pub signals: Vec<Signal>,
    pub mux: Option<Mux>,
    pub mirror_of: Option<String>,
    pub copy_from: Option<String>,
    pub length: Option<u32>,
    pub transmitter: Option<String>,
    pub interval: Option<u64>,
}

fn resolve_signals(body: &Tree, source: Option<&Tree>) -> (r: Vec<Signal>)
    ensures
        crate::model::signal_views(r@) == match crate::value::opt_node(source) {
            Some(src) => mirror_signals(own_signals(body.node()), own_signals(src)),
            None => signals_of(own_signals(body.node())),
        },
{
    let none: Vec<Tree> = Vec::new();
    assert(crate::value::item_views(none@) == Seq::<crate::value::Node>::empty());
    let own = match raw_signals(body) {
        Some(items) => items,
        None => &none,
    };
    match source {
        Some(src) => {
            let primary = match raw_signals(src) {
                Some(items) => items,
                None => &none,
            };
            merged_signals(own, primary)
        },
        None => signal_list(own),
    }
}

/// Resolve a frame's `copy` (metadata only) and `mirror_of` (signals +
/// metadata) references within its section.
pub(crate) fn resolve_mirror_inheritance(body: &Tree, all_frames: &Tree) -> (r: Resolution)
    ensures
        crate::model::signal_views(r.signals@) == resolved_signals(body.node(), all_frames.node()),
        crate::model::opt_mux(r.mux) == resolved_mux(body.node(), all_frames.node()),
        crate::model::opt_text(r.mirror_of) == reference(body.node().get("mirror_of"@)),
        crate::model::opt_text(r.copy_from) == reference(body.node().get("copy"@)),
        r.length == inherited_length(body.node(), all_frames.node()),
        crate::model::opt_text(r.transmitter) == inherited_transmitter(
            body.node(),
            all_frames.node(),
        ),
        r.interval == inherited_interval(body.node(), all_frames.node()),
{
    let copy_from = id_ref_to_string(body.get("copy"));
    let mirror_of = id_ref_to_string(body.get("mirror_of"));
    let copied = find_frame_by_numeric_id(&copy_from, all_frames);
    let source = find_frame_by_numeric_id(&mirror_of, all_frames);
    let signals = resolve_signals(body, source);
    // Inherit the mux if not locally defined.
    let mux: Option<Mux> = match body.get("mux") {
        Some(m) => parse_mux(m),
        None => match source {
            Some(src) => parse_opt_mux(src.get("mux")),
            None => None,
        },
    };
    // Metadata comes from the copy source where there is one, else the mirror's.
    let metadata = if copy_from.is_some() {
        copied
    } else {
        source
    };
    let mut length: Option<u32> = None;
    let mut transmitter: Option<String> = None;
    let mut interval: Option<u64> = None;
    if let Some(src) = metadata {
        if body.integer_at("length").is_none() {
            length = src.u32_at("length");
        }
        if body.text_at("transmitter").is_none() {
            transmitter = src.owned_at("transmitter");
        }
        if frame_interval(body).is_none() {
            interval = frame_interval(src);
        }
    }
    Resolution { signals, mux, mirror_of, copy_from, length, transmitter, interval }
}

// ---------------------------------------------------------------------------
// Protocol configs
// ---------------------------------------------------------------------------

/// A part of the `[meta]` table.
pub open spec fn meta_part(root: crate::value::Node, key: Seq<char>) -> Option<
    crate::value::Node,
> {
    crate::value::under(root.get("meta"@), key)
}

/// A part of the `[frame]` table.
pub open spec fn frame_part(root: crate::value::Node, key: Seq<char>) -> Option<
    crate::value::Node,
> {
    crate::value::under(root.get("frame"@), key)
}

/// `[meta.can]` defaults with nothing set.
pub open spec fn blank_can() -> crate::model::CanView {
    crate::model::CanView {
        default_byte_order: None,
        default_interval: None,
        default_extended: None,
        default_fd: None,
        frame_id_mask: None,
        fields: Seq::empty(),
    }
}

/// The CAN defaults a section holds.
pub open spec fn can_of(n: crate::value::Node) -> crate::model::CanView {
    crate::model::CanView {
        default_byte_order: crate::header::first_of(
            crate::model::endianness_at(n, "default_byte_order"@),
            crate::model::endianness_at(n, "default_endianness"@),
        ),
        default_interval: n.u64_at("default_interval"@),
        default_extended: n.boolean_at("default_extended"@),
        default_fd: n.boolean_at("default_fd"@),
        frame_id_mask: n.u32_at("frame_id_mask"@),
        fields: crate::header::section_fields(n.get("fields"@), false),
    }
}

/// The CAN defaults of a catalogue: `[meta.can]`, or the older
/// `[frame.can.config]`; `None` where nothing is set.
pub open spec fn can_config(root: crate::value::Node) -> Option<crate::model::CanView> {
    match crate::header::first_of(
        meta_part(root, "can"@),
        crate::value::under(frame_part(root, "can"@), "config"@),
    ) {
        Some(n) => if can_of(n) == blank_can() {
            None
        } else {
            Some(can_of(n))
        },
        None => None,
    }
}

/// Optional CAN defaults, as a mathematical value.
pub open spec fn opt_can(c: Option<CanConfig>) -> Option<crate::model::CanView> {
    match c {
        Some(c) => Some(c@),
        None => None,
    }
}

pub(crate) fn parse_can_config(root: &Tree) -> (r: Option<CanConfig>)
    ensures
        opt_can(r) == can_config(root.node()),
{
    let section = match child(root.get("meta"), "can") {
        Some(section) => section,
        None => match child(child(root.get("frame"), "can"), "config") {
            Some(section) => section,
            None => {
                return None;
            },
        },
    };
    let default_byte_order: Option<Endianness> = match read_endianness(
        section,
        "default_byte_order",
    ) {
        Some(e) => Some(e),
        None => read_endianness(section, "default_endianness"),
    };
    let cfg = CanConfig {
        default_byte_order,
        default_interval: section.u64_at("default_interval"),
        default_extended: section.boolean_at("default_extended"),
        default_fd: section.boolean_at("default_fd"),
        frame_id_mask: section.u32_at("frame_id_mask"),
        fields: parse_header_fields(section.get("fields"), false),
    };
    assert(cfg@ == can_of(section.node()));
    if cfg.default_byte_order.is_none() && cfg.default_interval.is_none()
        && cfg.default_extended.is_none() && cfg.default_fd.is_none() && cfg.frame_id_mask.is_none()
        && cfg.fields.len() == 0 {
        assert(cfg@ == blank_can());
        None
    } else {
        assert(cfg@ != blank_can()) by {
            assert(cfg@.fields.len() == cfg.fields@.len());
        }
        Some(cfg)
    }
}

/// Where the fields with a bit in their mask lie, in their order.
pub open spec fn positions_in(fields: Seq<(Seq<char>, crate::model::HeaderFieldView)>) -> Seq<
    crate::model::PositionView,
>
    decreases fields.len(),
{
    if fields.len() == 0 {
        Seq::empty()
    } else {
        let before = positions_in(fields.drop_last());
        match position_of(fields.last()) {
            Some(p) => before.push(p),
            None => before,
        }
    }
}

/// Where a field lies; `None` where its mask is zero.
pub open spec fn position_of(field: (Seq<char>, crate::model::HeaderFieldView)) -> Option<
    crate::model::PositionView,
> {
    match crate::header::byte_position(field.1.mask as int) {
        Some((start, bytes)) => Some(
            crate::model::PositionView {
                name: field.0,
                mask: field.1.mask,
                byte_order: crate::model::or_else(field.1.endianness, Endianness::Big),
                format: crate::model::or_else(field.1.format, "hex"@),
                start_byte: start as u32,
                bytes: bytes as u32,
            },
        ),
        None => None,
    }
}

/// The last position with a name.
pub open spec fn position_named(positions: Seq<crate::model::PositionView>, name: Seq<char>) -> Option<
    crate::model::PositionView,
>
    decreases positions.len(),
{
    if positions.len() == 0 {
        None
    } else if positions.last().name == name {
        Some(positions.last())
    } else {
        position_named(positions.drop_last(), name)
    }
}

/// The encoding a section names, where it is a known one.
pub open spec fn encoding_of(n: crate::value::Node) -> Option<Seq<char>> {
    match n.text_at("encoding"@) {
        Some(e) => if e == "slip"@ || e == "cobs"@ || e == "raw"@ || e == "length_prefixed"@ {
            Some(e)
        } else {
            None
        },
        None => None,
    }
}

/// The default checksum a section declares.
pub open spec fn checksum_config(n: crate::value::Node) -> Option<
    crate::model::ChecksumConfigView,
> {
    match (n.text_at("algorithm"@), n.i32_at("start_byte"@)) {
        (Some(algorithm), Some(start_byte)) => Some(
            crate::model::ChecksumConfigView {
                algorithm,
                start_byte,
                byte_length: crate::model::or_else(n.u32_at("byte_length"@), 1),
                calc_start_byte: crate::model::or_else(n.i32_at("calc_start_byte"@), 0),
                calc_end_byte: n.i32_at("calc_end_byte"@),
                big_endian: crate::model::or_else(n.boolean_at("big_endian"@), false),
            },
        ),
        _ => None,
    }
}

/// The start byte of a position.
pub open spec fn start_of(p: Option<crate::model::PositionView>) -> Option<u32> {
    match p {
        Some(p) => Some(p.start_byte),
        None => None,
    }
}

/// The byte count of a position.
pub open spec fn count_of(p: Option<crate::model::PositionView>) -> Option<u32> {
    match p {
        Some(p) => Some(p.bytes),
        None => None,
    }
}

/// The byte order of a position.
pub open spec fn order_of(p: Option<crate::model::PositionView>) -> Option<Endianness> {
    match p {
        Some(p) => Some(p.byte_order),
        None => None,
    }
}

/// The serial defaults a section holds.
pub open spec fn serial_of(n: crate::value::Node) -> crate::model::SerialView {
    let fields = crate::header::section_fields(n.get("fields"@), true);
    let positions = positions_in(fields);
    let id = position_named(positions, "id"@);
    let source = position_named(positions, "source_address"@);
    crate::model::SerialView {
        encoding: encoding_of(n),
        byte_order: crate::model::endianness_at(n, "byte_order"@),
        frame_id_mask: n.u32_at("frame_id_mask"@),
        header_length: n.u32_at("header_length"@),
        min_frame_length: n.u32_at("min_frame_length"@),
        checksum: match n.get("checksum"@) {
            Some(c) => checksum_config(c),
            None => None,
        },
        fields,
        frame_id_start_byte: start_of(id),
        frame_id_bytes: count_of(id),
        frame_id_byte_order: order_of(id),
        source_address_start_byte: start_of(source),
        source_address_bytes: count_of(source),
        source_address_byte_order: order_of(source),
        header_fields: positions,
    }
}

/// `[meta.serial]` defaults with nothing set.
pub open spec fn blank_serial() -> crate::model::SerialView {
    crate::model::SerialView {
        encoding: None,
        byte_order: None,
        frame_id_mask: None,
        header_length: None,
        min_frame_length: None,
        checksum: None,
        fields: Seq::empty(),
        frame_id_start_byte: None,
        frame_id_bytes: None,
        frame_id_byte_order: None,
        source_address_start_byte: None,
        source_address_bytes: None,
        source_address_byte_order: None,
        header_fields: Seq::empty(),
    }
}

/// The serial defaults of a catalogue; `None` where nothing is set.
pub open spec fn serial_config(root: crate::value::Node) -> Option<crate::model::SerialView> {
    match meta_part(root, "serial"@) {
        Some(n) => if serial_of(n) == blank_serial() {
            None
        } else {
            Some(serial_of(n))
        },
        None => None,
    }
}

/// Optional serial defaults, as a mathematical value.
pub open spec fn opt_serial(c: Option<SerialConfig>) -> Option<crate::model::SerialView> {
    match c {
        Some(c) => Some(c@),
        None => None,
    }
}

/// An optional checksum default, as a mathematical value.
pub open spec fn opt_checksum(c: Option<ChecksumConfig>) -> Option<
    crate::model::ChecksumConfigView,
> {
    match c {
        Some(c) => Some(c@),
        None => None,
    }
}

fn parse_checksum(section: &Tree) -> (r: Option<ChecksumConfig>)
    ensures
        opt_checksum(r) == checksum_config(section.node()),
{
    let algorithm = match section.owned_at("algorithm") {
        Some(algorithm) => algorithm,
        None => {
            return None;
        },
    };
    let start_byte: i32 = match section.i32_at("start_byte") {
        Some(n) => n,
        None => {
            return None;
        },
    };
    let byte_length: u32 = match section.u32_at("byte_length") {
        Some(n) => n,
        None => 1,
    };
    let calc_start_byte: i32 = match section.i32_at("calc_start_byte") {
        Some(n) => n,
        None => 0,
    };
    let big_endian: bool = match section.boolean_at("big_endian") {
        Some(b) => b,
        None => false,
    };
    Some(
        ChecksumConfig {
            algorithm,
            start_byte,
            byte_length,
            calc_start_byte,
            calc_end_byte: section.i32_at("calc_end_byte"),
            big_endian,
        },
    )
}

/// Derive byte positions from the field masks.
fn header_positions(fields: &Vec<(String, HeaderField)>) -> (r: Vec<HeaderFieldPosition>)
    ensures
        crate::model::position_views(r@) == positions_in(crate::model::field_views(fields@)),
{
    let ghost all = crate::model::field_views(fields@);
    let mut out: Vec<HeaderFieldPosition> = Vec::new();
    assert(crate::model::position_views(out@) == Seq::<crate::model::PositionView>::empty());
    for i in 0..fields.len()
        invariant
            all == crate::model::field_views(fields@),
            crate::model::position_views(out@) == positions_in(all.take(i as int)),
    {
        let ghost before = crate::model::position_views(out@);
        let field = &fields[i].1;
        assert(all.take(i + 1).drop_last() == all.take(i as int));
        assert(all.take(i + 1).last() == (fields@[i as int].0@, field@));
        if let Some((start, bytes)) = mask_to_byte_position(field.mask) {
            let byte_order: Endianness = match field.endianness {
                Some(e) => e,
                None => Endianness::Big,
            };
            let format: String = match &field.format {
                Some(f) => owned(f.as_str()),
                None => owned("hex"),
            };
            let p = HeaderFieldPosition {
                name: owned(fields[i].0.as_str()),
                mask: field.mask,
                byte_order,
                format,
                start_byte: start as u32,
                bytes: bytes as u32,
            };
            out.push(p);
            assert(crate::model::position_views(out@) == before.push(p@));
        }
    }
    assert(all.take(all.len() as int) == all);
    out
}

fn find_position<'a>(positions: &'a Vec<HeaderFieldPosition>, name: &str) -> (r: Option<
    &'a HeaderFieldPosition,
>)
    ensures
        match r {
            Some(p) => position_named(crate::model::position_views(positions@), name@) == Some(p@),
            None => position_named(crate::model::position_views(positions@), name@) is None,
        },
{
    let ghost all = crate::model::position_views(positions@);
    let mut n: usize = positions.len();
    assert(all.take(n as int) == all);
    while n > 0
        invariant
            n <= positions@.len(),
            all == crate::model::position_views(positions@),
            position_named(all, name@) == position_named(all.take(n as int), name@),
        decreases n,
    {
        assert(all.take(n as int).last() == positions@[n - 1]@);
        assert(all.take(n as int).drop_last() == all.take(n - 1));
        if str_eq(positions[n - 1].name.as_str(), name) {
            return Some(&positions[n - 1]);
        }
        n = n - 1;
    }
    None
}

/// Read `[meta.serial]`, deriving byte positions from the field masks once, here,
/// so consumers don't each re-derive them.
fn read_serial(section: &Tree) -> (r: SerialConfig)
    ensures
        r@ == serial_of(section.node()),
{
    let encoding: Option<String> = match section.text_at("encoding") {
        Some(e) => if str_eq(e, "slip") || str_eq(e, "cobs") || str_eq(e, "raw") || str_eq(
            e,
            "length_prefixed",
        ) {
            Some(owned(e))
        } else {
            None
        },
        None => None,
    };
    let checksum: Option<ChecksumConfig> = match section.get("checksum") {
        Some(c) => parse_checksum(c),
        None => None,
    };
    let fields = parse_header_fields(section.get("fields"), true);
    let header_fields = header_positions(&fields);
    let (id_start, id_bytes, id_order) = match find_position(&header_fields, "id") {
        Some(p) => (Some(p.start_byte), Some(p.bytes), Some(p.byte_order)),
        None => (None, None, None),
    };
    let (source_start, source_bytes, source_order) = match find_position(
        &header_fields,
        "source_address",
    ) {
        Some(p) => (Some(p.start_byte), Some(p.bytes), Some(p.byte_order)),
        None => (None, None, None),
    };
    SerialConfig {
        encoding,
        byte_order: read_endianness(section, "byte_order"),
        frame_id_mask: section.u32_at("frame_id_mask"),
        header_length: section.u32_at("header_length"),
        min_frame_length: section.u32_at("min_frame_length"),
        checksum,
        fields,
        frame_id_start_byte: id_start,
        frame_id_bytes: id_bytes,
        frame_id_byte_order: id_order,
        source_address_start_byte: source_start,
        source_address_bytes: source_bytes,
        source_address_byte_order: source_order,
        header_fields,
    }
}

pub(crate) fn parse_serial_config(root: &Tree) -> (r: Option<SerialConfig>)
    ensures
        opt_serial(r) == serial_config(root.node()),
{
    let section = match child(root.get("meta"), "serial") {
        Some(section) => section,
        None => {
            return None;
        },
    };
    let cfg = read_serial(section);
    if cfg.encoding.is_none() && cfg.byte_order.is_none() && cfg.frame_id_mask.is_none()
        && cfg.header_length.is_none() && cfg.min_frame_length.is_none() && cfg.checksum.is_none()
        && cfg.fields.len() == 0 {
        assert(cfg@.fields == Seq::<(Seq<char>, crate::model::HeaderFieldView)>::empty());
        assert(cfg@ == blank_serial());
        None
    } else {
        assert(cfg@ != blank_serial()) by {
            assert(cfg@.fields.len() == cfg.fields@.len());
        }
        Some(cfg)
    }
}

/// `[meta.modbus]` defaults with nothing set.
pub open spec fn blank_modbus() -> ModbusConfig {
    ModbusConfig {
        device_address: None,
        register_base: None,
        default_interval: None,
        default_byte_order: None,
        default_word_order: None,
    }
}

/// The Modbus defaults a section holds.
pub open spec fn modbus_of(n: crate::value::Node) -> ModbusConfig {
    ModbusConfig {
        device_address: n.u8_at("device_address"@),
        register_base: match n.integer_at("register_base"@) {
            Some(i) => if i == 0 || i == 1 {
                Some(i as u8)
            } else {
                None
            },
            None => None,
        },
        default_interval: n.u64_at("default_interval"@),
        default_byte_order: crate::header::first_of(
            crate::model::endianness_at(n, "default_byte_order"@),
            crate::model::endianness_at(n, "byte_order"@),
        ),
        default_word_order: crate::model::endianness_at(n, "default_word_order"@),
    }
}

/// The Modbus defaults of a catalogue; `None` where nothing is set.
pub open spec fn modbus_config(root: crate::value::Node) -> Option<ModbusConfig> {
    match meta_part(root, "modbus"@) {
        Some(n) => if modbus_of(n) == blank_modbus() {
            None
        } else {
            Some(modbus_of(n))
        },
        None => None,
    }
}

pub(crate) fn parse_modbus_config(root: &Tree) -> (r: Option<ModbusConfig>)
    ensures
        r == modbus_config(root.node()),
{
    let section = match child(root.get("meta"), "modbus") {
        Some(section) => section,
        None => {
            return None;
        },
    };
    let register_base: Option<u8> = match section.integer_at("register_base") {
        Some(i) => if i == 0 || i == 1 {
            Some(i as u8)
        } else {
            None
        },
        None => None,
    };
    let default_byte_order: Option<Endianness> = match read_endianness(
        section,
        "default_byte_order",
    ) {
        Some(e) => Some(e),
        None => read_endianness(section, "byte_order"),
    };
    let cfg = ModbusConfig {
        device_address: section.u8_at("device_address"),
        register_base,
        default_interval: section.u64_at("default_interval"),
        default_byte_order,
        default_word_order: read_endianness(section, "default_word_order"),
    };
    if cfg.device_address.is_none() && cfg.register_base.is_none() && cfg.default_interval.is_none()
        && cfg.default_byte_order.is_none() && cfg.default_word_order.is_none() {
        None
    } else {
        Some(cfg)
    }
}

// ---------------------------------------------------------------------------
// Laws
// ---------------------------------------------------------------------------

/// A mirror has every signal of its source, in the source's order: its own where it
/// has one at the same place, else the source's, marked as inherited.
pub proof fn law_mirrors_cover_their_source(
    own: Seq<crate::value::Node>,
    primary: Seq<crate::value::Node>,
    i: int,
)
    requires
        0 <= i < primary.len(),
    ensures
        mirror_signals(own, primary).len() >= primary.len(),
        match last_at(own, bit_place(primary[i])) {
            Some(over) => mirror_signals(own, primary)[i] == signal_of(over, false),
            None => mirror_signals(own, primary)[i] == signal_of(primary[i], true)
                && mirror_signals(own, primary)[i].inherited,
        },
{
}

/// A frame that mirrors no other has its own signals, whatever it copies from.
pub proof fn law_copies_keep_their_own_signals(n: crate::value::Node, section: crate::value::Node)
    requires
        referred(reference(n.get("mirror_of"@)), section) is None,
    ensures
        resolved_signals(n, section) == signals_of(own_signals(n)),
{
}

proof fn lemma_digits_are_plain(s: Seq<char>)
    requires
        crate::text::is_numeral(s, 16),
    ensures
        crate::text::trimmed(s) == s,
        forall|i: int|
            0 <= i < s.len() ==> (#[trigger] s[i]) != '-' && s[i] != ',' && s[i] != 'x' && s[i]
                != 'X' && !crate::text::is_space(s[i]),
{
    assert forall|i: int| 0 <= i < s.len() implies (#[trigger] s[i]) != '-' && s[i] != ',' && s[i]
        != 'x' && s[i] != 'X' && !crate::text::is_space(s[i]) by {
        assert(crate::text::digit_value(s[i]) < 16);
    }
    crate::text::law_trimming_takes_the_white_space(s);
    assert(!crate::text::is_space(s[0]) && !crate::text::is_space(s[s.len() - 1]));
}

/// A key that is a number, in decimal digits or in hexadecimal behind `0x`, is the id of
/// that number.
pub proof fn law_written_ids_read_back(n: nat)
    requires
        n <= u32::MAX,
    ensures
        id_of(crate::text::decimal(n)) == Some(n as int),
        id_of(seq!['0', 'x'] + crate::text::hexadecimal(n)) == Some(n as int),
{
    let d = crate::text::decimal(n);
    let h = crate::text::hexadecimal(n);
    crate::text::law_written_numbers_read_back(n);
    assert forall|i: int| 0 <= i < d.len() implies crate::text::digit_value(#[trigger] d[i])
        < 16 by {
        assert(crate::text::digit_value(d[i]) < 10);
    }
    lemma_digits_are_plain(d);
    assert forall|i: int| 0 <= i < d.len() implies crate::text::is_digit(#[trigger] d[i]) by {
        assert(crate::text::digit_value(d[i]) < 10);
    }
    assert(crate::text::after_hex_prefix(d) is None);
    let k = seq!['0', 'x'] + h;
    assert(h.len() > 0 && crate::text::is_numeral(h, 16)) by {
        assert(h[0] != '+' || h[0] == '+');
        lemma_hexadecimal_is_plain(n);
    }
    lemma_digits_are_plain(h);
    crate::text::law_trimming_takes_the_white_space(k);
    assert(k[0] == '0' && k.last() == h.last() && h.last() == h[h.len() - 1]);
    assert(crate::text::trimmed(k) == k);
    assert(k.skip(2) =~= h);
}

proof fn lemma_hexadecimal_is_plain(n: nat)
    ensures
        crate::text::is_numeral(crate::text::hexadecimal(n), 16),
    decreases n,
{
    let now = crate::text::hexadecimal(n);
    if n >= 16 {
        lemma_hexadecimal_is_plain(n / 16);
        let front = crate::text::hexadecimal(n / 16);
        assert forall|i: int| 0 <= i < now.len() implies crate::text::digit_value(#[trigger] now[i])
            < 16 by {
            if i < front.len() {
                assert(now[i] == front[i]);
            }
        }
    }
}

} // verus!
