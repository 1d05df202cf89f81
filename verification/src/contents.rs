//! What a catalogue is made of, told from the tables of its document: each field of the
//! model is the value that the document holds under its key.

use crate::model::{Confidence, Endianness, Protocol, SignalFormat, TunnelProtocol};
use crate::value::Number;
use vstd::prelude::*;

verus! {

// ---------------------------------------------------------------------------
// What a table holds under a key
// ---------------------------------------------------------------------------

/// The text a table holds under a key.
pub open spec fn text_under(n: crate::value::Node, key: Seq<char>) -> Option<Seq<char>> {
    match n.get(key) {
        Some(crate::value::Node::Text(s)) => Some(s),
        _ => None,
    }
}

/// The truth value a table holds under a key.
pub open spec fn flag_under(n: crate::value::Node, key: Seq<char>) -> Option<bool> {
    match n.get(key) {
        Some(crate::value::Node::Boolean(b)) => Some(b),
        _ => None,
    }
}

/// The integer a table holds under a key, if it lies between two bounds.
pub open spec fn integer_under(
    n: crate::value::Node,
    key: Seq<char>,
    low: int,
    high: int,
) -> Option<int> {
    match n.get(key) {
        Some(crate::value::Node::Integer(i)) => if low <= i <= high {
            Some(i as int)
        } else {
            None
        },
        _ => None,
    }
}

/// The number a table holds under a key.
pub open spec fn number_under(n: crate::value::Node, key: Seq<char>) -> Option<Number> {
    match n.get(key) {
        Some(crate::value::Node::Integer(i)) => Some(Number::Integer(i)),
        Some(crate::value::Node::Float { bits, decimal, .. }) => Some(
            Number::Float { bits, decimal },
        ),
        _ => None,
    }
}

/// The byte order a table names under a key.
pub open spec fn order_under(n: crate::value::Node, key: Seq<char>) -> Option<Endianness> {
    if n.get(key) == Some(crate::value::Node::Text("big"@)) {
        Some(Endianness::Big)
    } else if n.get(key) == Some(crate::value::Node::Text("little"@)) {
        Some(Endianness::Little)
    } else {
        None
    }
}

/// The first of two byte orders that is there.
pub open spec fn either_order(a: Option<Endianness>, b: Option<Endianness>) -> Option<Endianness> {
    if a is Some {
        a
    } else {
        b
    }
}

/// A number of 32 bits, as an integer.
pub open spec fn from_u32(v: Option<u32>) -> Option<int> {
    match v {
        Some(v) => Some(v as int),
        None => None,
    }
}

/// A number of 64 bits, as an integer.
pub open spec fn from_u64(v: Option<u64>) -> Option<int> {
    match v {
        Some(v) => Some(v as int),
        None => None,
    }
}

/// A number of 16 bits, as an integer.
pub open spec fn from_u16(v: Option<u16>) -> Option<int> {
    match v {
        Some(v) => Some(v as int),
        None => None,
    }
}

/// A number of 8 bits, as an integer.
pub open spec fn from_u8(v: Option<u8>) -> Option<int> {
    match v {
        Some(v) => Some(v as int),
        None => None,
    }
}

/// A signed number of 32 bits, as an integer.
pub open spec fn from_i32(v: Option<i32>) -> Option<int> {
    match v {
        Some(v) => Some(v as int),
        None => None,
    }
}

/// What a table holds under a key is the value of its first entry with that key, and
/// nothing where it has none.
pub proof fn law_tables_hold_their_entries(
    entries: Seq<(Seq<char>, crate::value::Node)>,
    key: Seq<char>,
)
    ensures
        match crate::value::Node::Table(entries).get(key) {
            Some(n) => exists|i: int|
                0 <= i < entries.len() && (#[trigger] entries[i]) == (key, n) && forall|j: int|
                    0 <= j < i ==> (#[trigger] entries[j]).0 != key,
            None => forall|i: int| 0 <= i < entries.len() ==> (#[trigger] entries[i]).0 != key,
        },
    decreases entries.len(),
{
    if entries.len() > 0 {
        let rest = entries.skip(1);
        law_tables_hold_their_entries(rest, key);
        assert(forall|i: int| 0 <= i < rest.len() ==> rest[i] == #[trigger] entries[i + 1]);
        if entries[0].0 == key {
            assert(entries[0] == (key, entries[0].1));
        } else {
            match crate::value::Node::Table(rest).get(key) {
                Some(n) => {
                    let i = choose|i: int|
                        0 <= i < rest.len() && (#[trigger] rest[i]) == (key, n) && forall|j: int|
                            0 <= j < i ==> (#[trigger] rest[j]).0 != key;
                    assert(entries[i + 1] == (key, n));
                    assert forall|j: int| 0 <= j < i + 1 implies (#[trigger] entries[j]).0 != key by {
                        if j > 0 {
                            assert(rest[j - 1] == entries[j]);
                        }
                    }
                },
                None => {
                    assert forall|i: int| 0 <= i < entries.len() implies (#[trigger] entries[i]).0
                        != key by {
                        if i > 0 {
                            assert(rest[i - 1] == entries[i]);
                        }
                    }
                },
            }
        }
    }
}

/// Whether notes are those of a table: its `notes`, a text or the texts of an array.
pub open spec fn are_notes_of(notes: Seq<Seq<char>>, n: crate::value::Node) -> bool {
    match n.get("notes"@) {
        Some(crate::value::Node::Text(s)) => notes == seq![s],
        Some(crate::value::Node::Array(items)) => {
            &&& notes.len() <= items.len()
            &&& forall|i: int|
                0 <= i < items.len() && items[i] is Text ==> notes.contains(
                    (#[trigger] items[i])->Text_0,
                )
            &&& (forall|i: int| 0 <= i < items.len() ==> (#[trigger] items[i]) is Text)
                ==> notes.len() == items.len() && forall|i: int|
                0 <= i < items.len() ==> crate::value::Node::Text(#[trigger] notes[i]) == items[i]
        },
        _ => notes.len() == 0,
    }
}

proof fn lemma_strings_in(items: Seq<crate::value::Node>)
    ensures
        crate::value::strings_in(items).len() <= items.len(),
        forall|i: int|
            0 <= i < items.len() && items[i] is Text ==> crate::value::strings_in(items).contains(
                (#[trigger] items[i])->Text_0,
            ),
        (forall|i: int| 0 <= i < items.len() ==> (#[trigger] items[i]) is Text)
            ==> crate::value::strings_in(items).len() == items.len() && forall|i: int|
            0 <= i < items.len() ==> crate::value::Node::Text(
                #[trigger] crate::value::strings_in(items)[i],
            ) == items[i],
    decreases items.len(),
{
    if items.len() > 0 {
        let front = items.drop_last();
        let before = crate::value::strings_in(front);
        let now = crate::value::strings_in(items);
        lemma_strings_in(front);
        assert(forall|i: int| 0 <= i < front.len() ==> front[i] == #[trigger] items[i]);
        assert forall|i: int| 0 <= i < items.len() && items[i] is Text implies now.contains(
            (#[trigger] items[i])->Text_0,
        ) by {
            if i < front.len() {
                let s = front[i]->Text_0;
                let k = choose|k: int| 0 <= k < before.len() && before[k] == s;
                assert(now[k] == s);
            } else {
                assert(now[now.len() - 1] == items[i]->Text_0);
            }
        }
    }
}

proof fn lemma_notes(n: crate::value::Node)
    ensures
        are_notes_of(crate::value::notes_of(n), n),
{
    if let Some(crate::value::Node::Array(items)) = n.get("notes"@) {
        lemma_strings_in(items);
    }
}

// ---------------------------------------------------------------------------
// Labels
// ---------------------------------------------------------------------------

/// Whether labelled values come in the order of their values, no value twice.
pub open spec fn labels_ascend(list: Seq<(i64, Seq<char>)>) -> bool {
    forall|i: int, j: int| 0 <= i < j < list.len() ==> (#[trigger] list[i]).0 < (#[trigger] list[j]).0
}

/// A label that is set is the label of its value; the others stay, in order.
pub proof fn law_set_labels_are_found(
    list: Seq<(i64, Seq<char>)>,
    key: i64,
    label: Seq<char>,
    other: int,
)
    requires
        labels_ascend(list),
    ensures
        labels_ascend(crate::value::with_label(list, key, label)),
        crate::value::label_of(crate::value::with_label(list, key, label), key as int) == Some(
            label,
        ),
        other != key ==> crate::value::label_of(
            crate::value::with_label(list, key, label),
            other,
        ) == crate::value::label_of(list, other),
        crate::value::with_label(list, key, label).len() <= list.len() + 1,
        crate::value::with_label(list, key, label).len() > 0,
        list.len() > 0 && list[0].0 < key ==> crate::value::with_label(list, key, label)[0]
            == list[0],
        list.len() == 0 || list[0].0 >= key ==> crate::value::with_label(list, key, label)[0] == (
            key,
            label,
        ),
    decreases list.len(),
{
    let now = crate::value::with_label(list, key, label);
    reveal_with_fuel(crate::value::label_of, 3);
    if list.len() == 0 {
        assert(now.skip(1) =~= Seq::<(i64, Seq<char>)>::empty());
    } else if list[0].0 == key {
        assert(now.skip(1) =~= list.skip(1));
        assert forall|i: int, j: int| 0 <= i < j < now.len() implies (#[trigger] now[i]).0 < (
        #[trigger] now[j]).0 by {
            assert(list[i].0 < list[j].0);
        }
    } else if list[0].0 > key {
        assert(now.skip(1) =~= list);
        assert forall|i: int, j: int| 0 <= i < j < now.len() implies (#[trigger] now[i]).0 < (
        #[trigger] now[j]).0 by {
            if i == 0 {
                assert(j == 1 || list[0].0 < list[j - 1].0);
            } else {
                assert(list[i - 1].0 < list[j - 1].0);
            }
        }
    } else {
        let rest = list.skip(1);
        assert forall|i: int, j: int| 0 <= i < j < rest.len() implies (#[trigger] rest[i]).0 < (
        #[trigger] rest[j]).0 by {
            assert(list[i + 1].0 < list[j + 1].0);
        }
        law_set_labels_are_found(rest, key, label, other);
        let tail = crate::value::with_label(rest, key, label);
        assert(now.skip(1) =~= tail);
        assert(tail[0].0 > list[0].0) by {
            if rest.len() > 0 {
                assert(list[0].0 < list[1].0);
            }
        }
        assert forall|i: int, j: int| 0 <= i < j < now.len() implies (#[trigger] now[i]).0 < (
        #[trigger] now[j]).0 by {
            assert(now[j] == tail[j - 1]);
            if i > 0 {
                assert(now[i] == tail[i - 1]);
            } else if j > 1 {
                assert(tail[0].0 < tail[j - 1].0);
            }
        }
    }
}

/// The label that the entries of a table give a value: that of the last entry whose key
/// spells it and that holds a text.
pub open spec fn label_under(
    entries: Seq<(Seq<char>, crate::value::Node)>,
    value: int,
) -> Option<Seq<char>>
    decreases entries.len(),
{
    if entries.len() == 0 {
        None
    } else {
        let (key, n) = entries[entries.len() - 1];
        if i64::MIN <= value <= i64::MAX && crate::text::integer(key, 10) == Some(value) && n is Text {
            Some(n->Text_0)
        } else {
            label_under(entries.drop_last(), value)
        }
    }
}

proof fn lemma_labels_in(entries: Seq<(Seq<char>, crate::value::Node)>, value: int)
    ensures
        labels_ascend(crate::value::labels_in(entries)),
        crate::value::label_of(crate::value::labels_in(entries), value) == label_under(
            entries,
            value,
        ),
    decreases entries.len(),
{
    if entries.len() > 0 {
        lemma_labels_in(entries.drop_last(), value);
        let before = crate::value::labels_in(entries.drop_last());
        match (crate::value::key_integer(entries.last().0), entries.last().1.text()) {
            (Some(k), Some(label)) => {
                law_set_labels_are_found(before, k as i64, label, value);
            },
            _ => {},
        }
    }
}

/// The labels of a signal are those its `enum` table gives: each value has the label of
/// the last entry that spells it, in the order of the values. Without a label there is
/// no list of them.
pub proof fn law_labels_are_read(entries: Seq<(Seq<char>, crate::value::Node)>, value: int)
    ensures
        match crate::value::enum_map_of(Some(crate::value::Node::Table(entries))) {
            Some(list) => list.len() > 0 && labels_ascend(list) && crate::value::label_of(
                list,
                value,
            ) == label_under(entries, value),
            None => label_under(entries, value) is None,
        },
{
    lemma_labels_in(entries, value);
}

// ---------------------------------------------------------------------------
// Signals and multiplexers
// ---------------------------------------------------------------------------

/// Whether a signal is the one a table declares: each of its fields is what the table
/// holds under its key.
pub open spec fn is_read_from(s: crate::model::SignalView, n: crate::value::Node) -> bool {
    &&& s.name == text_under(n, "name"@)
    &&& from_u32(s.start_bit) == integer_under(n, "start_bit"@, 0, 0xFFFF_FFFF)
    &&& from_u32(s.bit_length) == integer_under(n, "bit_length"@, 0, 0xFFFF_FFFF)
    &&& s.signed == flag_under(n, "signed"@)
    &&& s.endianness == either_order(order_under(n, "byte_order"@), order_under(n, "endianness"@))
    &&& s.word_order == order_under(n, "word_order"@)
    &&& s.factor == number_under(n, "factor"@)
    &&& s.offset == number_under(n, "offset"@)
    &&& s.unit == text_under(n, "unit"@)
    &&& s.min == number_under(n, "min"@)
    &&& s.max == number_under(n, "max"@)
    &&& s.format == Some(SignalFormat::Enum) <==> text_under(n, "format"@) == Some("enum"@)
    &&& s.format == Some(SignalFormat::Hex) <==> text_under(n, "format"@) == Some("hex"@)
    &&& s.format == Some(SignalFormat::Ascii) <==> text_under(n, "format"@) == Some("ascii"@)
    &&& s.format == Some(SignalFormat::Utf8) <==> text_under(n, "format"@) == Some("utf8"@)
    &&& s.format == Some(SignalFormat::UnixTime) <==> text_under(n, "format"@) == Some(
        "unix_time"@,
    )
    &&& s.format != Some(SignalFormat::Other)
    &&& text_under(n, "format"@) is None ==> s.format is None
    &&& s.enum_map == crate::value::enum_map_of(n.get("enum"@))
    &&& s.confidence == Some(Confidence::Unrated) <==> text_under(n, "confidence"@) == Some(
        "none"@,
    )
    &&& s.confidence == Some(Confidence::Low) <==> text_under(n, "confidence"@) == Some("low"@)
    &&& s.confidence == Some(Confidence::Medium) <==> text_under(n, "confidence"@) == Some(
        "medium"@,
    )
    &&& s.confidence == Some(Confidence::High) <==> text_under(n, "confidence"@) == Some("high"@)
    &&& text_under(n, "confidence"@) is None ==> s.confidence is None
    &&& are_notes_of(s.notes, n)
    &&& s.modbus_register is None
    &&& s.modbus_register_count is None
}

proof fn lemma_names_differ()
    ensures
        "hex"@ != "enum"@ && "hex"@ != "ascii"@ && "hex"@ != "utf8"@ && "hex"@ != "unix_time"@,
        "ascii"@ != "enum"@ && "ascii"@ != "utf8"@ && "ascii"@ != "unix_time"@,
        "utf8"@ != "enum"@ && "utf8"@ != "unix_time"@ && "unix_time"@ != "enum"@,
        "low"@ != "none"@ && "low"@ != "medium"@ && "low"@ != "high"@,
        "medium"@ != "none"@ && "medium"@ != "high"@ && "high"@ != "none"@,
{
    reveal_strlit("hex");
    reveal_strlit("enum");
    reveal_strlit("ascii");
    reveal_strlit("utf8");
    reveal_strlit("unix_time");
    reveal_strlit("low");
    reveal_strlit("none");
    reveal_strlit("medium");
    reveal_strlit("high");
    assert("hex"@.len() == 3 && "enum"@.len() == 4 && "utf8"@.len() == 4);
    assert("ascii"@.len() == 5 && "unix_time"@.len() == 9);
    assert("low"@.len() == 3 && "none"@.len() == 4 && "medium"@.len() == 6 && "high"@.len() == 4);
    assert("utf8"@[0] != "enum"@[0]);
    assert("high"@[0] != "none"@[0]);
}

/// Every field of a signal that is read from a table is what the table holds under its
/// key. It is inherited if it is taken over from another frame, or says so itself.
pub proof fn law_signals_are_read_from_their_table(n: crate::value::Node, inherited: bool)
    ensures
        is_read_from(crate::parse::signal_of(n, inherited), n),
        crate::parse::signal_of(n, inherited).inherited <==> inherited || flag_under(
            n,
            "_inherited"@,
        ) == Some(true),
{
    lemma_notes(n);
    lemma_names_differ();
}

/// Whether signals are those that the tables of an array declare, one for each and in
/// their order.
pub open spec fn are_read_from(
    signals: Seq<crate::model::SignalView>,
    n: Option<crate::value::Node>,
) -> bool {
    match n {
        Some(crate::value::Node::Array(items)) => signals.len() == items.len() && forall|i: int|
            0 <= i < items.len() ==> is_read_from(#[trigger] signals[i], items[i])
                && signals[i].inherited == (flag_under(items[i], "_inherited"@) == Some(true)),
        _ => signals.len() == 0,
    }
}

proof fn lemma_signal_lists(n: Option<crate::value::Node>)
    ensures
        are_read_from(crate::parse::signals_of(crate::parse::items_of(n)), n),
{
    if let Some(crate::value::Node::Array(items)) = n {
        let signals = crate::parse::signals_of(items);
        assert forall|i: int| 0 <= i < items.len() implies is_read_from(
            #[trigger] signals[i],
            items[i],
        ) && signals[i].inherited == (flag_under(items[i], "_inherited"@) == Some(true)) by {
            law_signals_are_read_from_their_table(items[i], false);
        }
    }
}

/// Every field of a multiplexer is what its table holds under its key; without a start
/// bit it starts at 0, and without a length it has eight bits.
pub proof fn law_multiplexers_are_read_from_their_table(n: crate::value::Node)
    ensures
        match crate::parse::mux_of(n) {
            Some(mux) => {
                &&& n is Table
                &&& mux.name == text_under(n, "name"@)
                &&& mux.start_bit == match integer_under(n, "start_bit"@, 0, 0xFFFF_FFFF) {
                    Some(i) => i,
                    None => 0,
                }
                &&& mux.bit_length == match integer_under(n, "bit_length"@, 0, 0xFFFF_FFFF) {
                    Some(i) => i,
                    None => 8,
                }
                &&& mux.default == text_under(n, "default"@)
                &&& are_notes_of(mux.notes, n)
            },
            None => !(n is Table),
        },
{
    lemma_notes(n);
}

/// Whether a case is the one a table declares.
pub open spec fn is_case_read_from(
    c: crate::model::MuxCaseView,
    n: crate::value::Node,
) -> bool {
    &&& are_read_from(c.signals, n.get("signals"@))
    &&& are_notes_of(c.notes, n)
    &&& match c.mux {
        Some(nested) => n.get("mux"@) matches Some(m) && crate::parse::mux_of(m) == Some(*nested),
        None => !(n.get("mux"@) matches Some(crate::value::Node::Table(_))),
    }
}

/// Entries in the order of their keys hold one that is added, and those they held under
/// other keys.
pub proof fn lemma_with_key_holds<V>(
    sorted: Seq<(Seq<char>, V)>,
    e: (Seq<char>, V),
    other: (Seq<char>, V),
)
    requires
        sorted.contains(other) && other.0 != e.0 || other == e,
    ensures
        crate::keyed::with_key(sorted, e).contains(other),
    decreases sorted.len(),
{
    let now = crate::keyed::with_key(sorted, e);
    if sorted.len() == 0 || crate::text::text_before(sorted.last().0, e.0) || sorted.last().0
        == e.0 {
        if other == e {
            assert(now[now.len() - 1] == other);
        } else {
            let i = choose|i: int| 0 <= i < sorted.len() && sorted[i] == other;
            assert(now[i] == other);
        }
    } else {
        let front = sorted.drop_last();
        if other != e {
            let i = choose|i: int| 0 <= i < sorted.len() && sorted[i] == other;
            if i == front.len() {
                assert(now[now.len() - 1] == other);
            } else {
                assert(front[i] == other);
                lemma_with_key_holds(front, e, other);
                let k = choose|k: int|
                    0 <= k < crate::keyed::with_key(front, e).len() && crate::keyed::with_key(
                        front,
                        e,
                    )[k] == other;
                assert(now[k] == other);
            }
        } else {
            lemma_with_key_holds(front, e, other);
            let k = choose|k: int|
                0 <= k < crate::keyed::with_key(front, e).len() && crate::keyed::with_key(
                    front,
                    e,
                )[k] == other;
            assert(now[k] == other);
        }
    }
}

proof fn lemma_cases_ascend(entries: Seq<(Seq<char>, crate::value::Node)>)
    ensures
        crate::keyed::keys_ascend(crate::parse::cases_in(entries)),
    decreases entries.len(),
{
    if entries.len() > 0 {
        lemma_cases_ascend(entries.drop_last());
        let last = entries[entries.len() - 1];
        if crate::parse::is_case_key(last.0) {
            crate::keyed::lemma_with_key(
                crate::parse::cases_in(entries.drop_last()),
                (last.0, crate::parse::case_of(last.1)),
            );
        }
    }
}

/// Every entry of a multiplexer's table whose key denotes a case, and comes last of its
/// key, is among the cases, with the signals, the notes and the multiplexer of its table.
pub proof fn law_cases_are_read_from_their_table(
    entries: Seq<(Seq<char>, crate::value::Node)>,
    i: int,
)
    requires
        0 <= i < entries.len(),
        crate::parse::is_case_key(entries[i].0),
        forall|j: int| i < j < entries.len() ==> (#[trigger] entries[j]).0 != entries[i].0,
    ensures
        crate::parse::mux_of(crate::value::Node::Table(entries)) matches Some(mux) && exists|k: int|
            0 <= k < mux.cases.len() && (#[trigger] mux.cases[k]).0 == entries[i].0
                && is_case_read_from(mux.cases[k].1, entries[i].1),
{
    lemma_case_kept(entries, i);
    let cases = crate::parse::cases_in(entries);
    let e = (entries[i].0, crate::parse::case_of(entries[i].1));
    let k = choose|k: int| 0 <= k < cases.len() && cases[k] == e;
    lemma_signal_lists(entries[i].1.get("signals"@));
    lemma_notes(entries[i].1);
    let mux = crate::parse::mux_of(crate::value::Node::Table(entries))->Some_0;
    assert(mux.cases == cases);
    assert(mux.cases[k].0 == entries[i].0 && is_case_read_from(mux.cases[k].1, entries[i].1));
}

proof fn lemma_case_kept(entries: Seq<(Seq<char>, crate::value::Node)>, i: int)
    requires
        0 <= i < entries.len(),
        crate::parse::is_case_key(entries[i].0),
        forall|j: int| i < j < entries.len() ==> (#[trigger] entries[j]).0 != entries[i].0,
    ensures
        crate::parse::cases_in(entries).contains(
            (entries[i].0, crate::parse::case_of(entries[i].1)),
        ),
    decreases entries.len(),
{
    let front = entries.drop_last();
    let last = entries[entries.len() - 1];
    let e = (entries[i].0, crate::parse::case_of(entries[i].1));
    let before = crate::parse::cases_in(front);
    if i < front.len() {
        assert forall|j: int| i < j < front.len() implies (#[trigger] front[j]).0 != front[i].0 by {
            assert(front[j] == entries[j]);
        }
        lemma_case_kept(front, i);
        assert(entries[entries.len() - 1].0 != entries[i].0);
    }
    if crate::parse::is_case_key(last.0) {
        lemma_with_key_holds(before, (last.0, crate::parse::case_of(last.1)), e);
    }
}

// ---------------------------------------------------------------------------
// Parts of a frame
// ---------------------------------------------------------------------------

/// Whether a checksum is the one a table declares. One byte is its length, and the
/// first byte is where it starts to count, where the table does not say.
pub open spec fn is_checksum_read_from(
    c: crate::model::FrameChecksumView,
    n: crate::value::Node,
) -> bool {
    &&& c.name == text_under(n, "name"@)
    &&& text_under(n, "algorithm"@) == Some(c.algorithm)
    &&& integer_under(n, "start_byte"@, -0x8000_0000, 0x7FFF_FFFF) == Some(c.start_byte as int)
    &&& c.byte_length == match integer_under(n, "byte_length"@, 0, 0xFFFF_FFFF) {
        Some(i) => i,
        None => 1,
    }
    &&& c.endianness == either_order(order_under(n, "byte_order"@), order_under(n, "endianness"@))
    &&& c.calc_start_byte == match integer_under(
        n,
        "calc_start_byte"@,
        -0x8000_0000,
        0x7FFF_FFFF,
    ) {
        Some(i) => i,
        None => 0,
    }
    &&& from_i32(c.calc_end_byte) == integer_under(
        n,
        "calc_end_byte"@,
        -0x8000_0000,
        0x7FFF_FFFF,
    )
    &&& from_u16(c.parameters.polynomial) == integer_under(n, "polynomial"@, 0, 0xFFFF)
    &&& from_u16(c.parameters.init) == integer_under(n, "init"@, 0, 0xFFFF)
    &&& from_u16(c.parameters.xor_out) == integer_under(n, "xor_out"@, 0, 0xFFFF)
    &&& c.parameters.reflect_in == flag_under(n, "reflect_in"@)
    &&& c.parameters.reflect_out == flag_under(n, "reflect_out"@)
    &&& from_u8(c.parameters.offset) == integer_under(n, "offset"@, 0, 255)
    &&& are_notes_of(c.notes, n)
}

/// Whether a table declares a checksum: it names an algorithm and a start byte.
pub open spec fn declares_checksum(n: crate::value::Node) -> bool {
    text_under(n, "algorithm"@) is Some && integer_under(
        n,
        "start_byte"@,
        -0x8000_0000,
        0x7FFF_FFFF,
    ) is Some
}

/// A checksum is read from each table that names an algorithm and a start byte, and from
/// no other.
pub proof fn law_checksums_are_read_from_their_table(n: crate::value::Node)
    ensures
        match crate::parse::checksum_of(n) {
            Some(c) => is_checksum_read_from(c, n),
            None => !declares_checksum(n),
        },
{
    lemma_notes(n);
}

proof fn lemma_checksums_in(items: Seq<crate::value::Node>)
    ensures
        crate::parse::checksums_in(items).len() <= items.len(),
        (forall|i: int| 0 <= i < items.len() ==> declares_checksum(#[trigger] items[i]))
            ==> crate::parse::checksums_in(items).len() == items.len() && forall|i: int|
            0 <= i < items.len() ==> is_checksum_read_from(
                #[trigger] crate::parse::checksums_in(items)[i],
                items[i],
            ),
    decreases items.len(),
{
    if items.len() > 0 {
        let front = items.drop_last();
        lemma_checksums_in(front);
        law_checksums_are_read_from_their_table(items.last());
        assert(forall|i: int| 0 <= i < front.len() ==> front[i] == #[trigger] items[i]);
    }
}

/// A frame has the checksums its `checksum` table or tables declare: one for each table
/// of an array where all declare one, in their order, and one for a single table.
pub proof fn law_frames_have_their_checksums(n: crate::value::Node)
    ensures
        match n.get("checksum"@) {
            Some(crate::value::Node::Array(items)) => (forall|i: int|
                0 <= i < items.len() ==> declares_checksum(#[trigger] items[i]))
                ==> crate::parse::checksums_of(n).len() == items.len() && forall|i: int|
                0 <= i < items.len() ==> is_checksum_read_from(
                    #[trigger] crate::parse::checksums_of(n)[i],
                    items[i],
                ),
            Some(crate::value::Node::Table(entries)) => {
                let t = crate::value::Node::Table(entries);
                if declares_checksum(t) {
                    crate::parse::checksums_of(n).len() == 1 && is_checksum_read_from(
                        crate::parse::checksums_of(n)[0],
                        t,
                    )
                } else {
                    crate::parse::checksums_of(n).len() == 0
                }
            },
            _ => crate::parse::checksums_of(n).len() == 0,
        },
{
    match n.get("checksum"@) {
        Some(crate::value::Node::Array(items)) => {
            lemma_checksums_in(items);
        },
        Some(t) => {
            law_checksums_are_read_from_their_table(t);
        },
        None => {},
    }
}

/// A frame has a tunnel if and only if its `tunnel` table names the protocol
/// `modbus_rtu`, with the address and the notes of that table.
pub proof fn law_tunnels_are_read_from_their_table(n: crate::value::Node)
    ensures
        match crate::parse::tunnel_of(n) {
            Some(t) => n.get("tunnel"@) matches Some(table) && {
                &&& text_under(table, "protocol"@) == Some("modbus_rtu"@)
                &&& t.protocol == TunnelProtocol::ModbusRtu
                &&& from_u8(t.device_address) == integer_under(table, "device_address"@, 0, 255)
                &&& are_notes_of(t.notes, table)
            },
            None => n.get("tunnel"@) matches Some(table) ==> text_under(table, "protocol"@) != Some(
                "modbus_rtu"@,
            ),
        },
{
    if let Some(t) = n.get("tunnel"@) {
        lemma_notes(t);
    }
}

/// The integer a table holds under a key, as far as it is one.
pub open spec fn any_integer_under(n: Option<crate::value::Node>, key: Seq<char>) -> Option<int> {
    match n {
        Some(n) => integer_under(n, key, i64::MIN as int, i64::MAX as int),
        None => None,
    }
}

/// A frame's interval is the first integer among `tx.interval`, `tx.interval_ms` and
/// `interval_ms`; one that is negative counts as none.
pub proof fn law_intervals_are_read(n: crate::value::Node)
    ensures
        ({
            let first = any_integer_under(n.get("tx"@), "interval"@);
            let second = any_integer_under(n.get("tx"@), "interval_ms"@);
            let third = any_integer_under(Some(n), "interval_ms"@);
            let found = if first is Some {
                first
            } else if second is Some {
                second
            } else {
                third
            };
            from_u64(crate::parse::interval_of(n)) == match found {
                Some(i) => if i >= 0 {
                    Some(i)
                } else {
                    None
                },
                None => None,
            }
        }),
{
}

proof fn lemma_bytes_in(items: Seq<crate::value::Node>)
    ensures
        crate::parse::bytes_in(items).len() <= items.len(),
        (forall|i: int|
            0 <= i < items.len() ==> ((#[trigger] items[i]) matches crate::value::Node::Integer(b)
                && 0 <= b <= 255)) ==> crate::parse::bytes_in(items).len() == items.len()
            && forall|i: int|
            0 <= i < items.len() ==> items[i] == crate::value::Node::Integer(
                (#[trigger] crate::parse::bytes_in(items)[i]) as i64,
            ),
    decreases items.len(),
{
    if items.len() > 0 {
        let front = items.drop_last();
        lemma_bytes_in(front);
        assert(forall|i: int| 0 <= i < front.len() ==> front[i] == #[trigger] items[i]);
    }
}

/// A delimiter that is an array of bytes is read byte for byte.
pub proof fn law_delimiters_are_read(n: crate::value::Node)
    ensures
        match n.get("delimiter"@) {
            Some(crate::value::Node::Array(items)) => items.len() > 0 && (forall|i: int|
                0 <= i < items.len() ==> ((#[trigger] items[i]) matches crate::value::Node::Integer(
                    b,
                ) && 0 <= b <= 255)) ==> (crate::parse::delimiter_of(n) matches Some(bytes)
                && bytes.len() == items.len() && forall|i: int|
                0 <= i < items.len() ==> items[i] == crate::value::Node::Integer(
                    (#[trigger] bytes[i]) as i64,
                )),
            _ => crate::parse::delimiter_of(n) is None,
        },
{
    if let Some(crate::value::Node::Array(items)) = n.get("delimiter"@) {
        lemma_bytes_in(items);
    }
}

// ---------------------------------------------------------------------------
// Sections of [meta]
// ---------------------------------------------------------------------------

/// What a document holds under two keys, one inside the other.
pub open spec fn within_two(
    root: crate::value::Node,
    outer: Seq<char>,
    inner: Seq<char>,
) -> Option<crate::value::Node> {
    match root.get(outer) {
        Some(n) => n.get(inner),
        None => None,
    }
}

/// The name, the version and the default protocol of a catalogue are those of `[meta]`:
/// no name and version 1 where it does not say.
pub proof fn law_identity_is_read(root: crate::value::Node)
    ensures
        ({
            let meta = crate::catalog::catalog_of(root).meta;
            match root.get("meta"@) {
                Some(n) => {
                    &&& meta.name == match text_under(n, "name"@) {
                        Some(s) => s,
                        None => Seq::empty(),
                    }
                    &&& meta.version == match integer_under(n, "version"@, 0, 0xFFFF_FFFF) {
                        Some(i) => i,
                        None => 1,
                    }
                    &&& meta.default_frame == Some(Protocol::Can) <==> text_under(
                        n,
                        "default_frame"@,
                    ) == Some("can"@)
                    &&& meta.default_frame == Some(Protocol::Serial) <==> text_under(
                        n,
                        "default_frame"@,
                    ) == Some("serial"@)
                    &&& meta.default_frame == Some(Protocol::Modbus) <==> text_under(
                        n,
                        "default_frame"@,
                    ) == Some("modbus"@)
                },
                None => meta.name == Seq::<char>::empty() && meta.version == 1
                    && meta.default_frame is None,
            }
        }),
{
    reveal_strlit("can");
    reveal_strlit("serial");
    reveal_strlit("modbus");
    assert("can"@.len() == 3 && "serial"@.len() == 6 && "modbus"@.len() == 6);
    assert("serial"@[0] != "modbus"@[0]);
}

/// Whether a document has frames of a protocol: an entry other than `config`.
pub open spec fn has_frames_of(root: crate::value::Node, protocol: Seq<char>) -> bool {
    within_two(root, "frame"@, protocol) matches Some(crate::value::Node::Table(entries))
        && exists|i: int| 0 <= i < entries.len() && (#[trigger] entries[i]).0 != "config"@
}

/// The protocol of a catalogue is its default one. Without one it is that of its frames:
/// CAN where there are CAN frames or none at all, serial where there are serial frames,
/// else Modbus.
pub proof fn law_the_protocol_is_that_of_the_frames(root: crate::value::Node)
    ensures
        ({
            let catalog = crate::catalog::catalog_of(root);
            &&& catalog.meta.default_frame matches Some(p) ==> catalog.protocol == p
            &&& catalog.meta.default_frame is None ==> {
                &&& has_frames_of(root, "can"@) ==> catalog.protocol == Protocol::Can
                &&& !has_frames_of(root, "can"@) && has_frames_of(root, "serial"@)
                    ==> catalog.protocol == Protocol::Serial
                &&& !has_frames_of(root, "can"@) && !has_frames_of(root, "serial"@)
                    && has_frames_of(root, "modbus"@) ==> catalog.protocol == Protocol::Modbus
                &&& !has_frames_of(root, "can"@) && !has_frames_of(root, "serial"@)
                    && !has_frames_of(root, "modbus"@) ==> catalog.protocol == Protocol::Can
            }
        }),
{
    lemma_has_frames(root, "can"@);
    lemma_has_frames(root, "serial"@);
    lemma_has_frames(root, "modbus"@);
}

proof fn lemma_has_frames(root: crate::value::Node, protocol: Seq<char>)
    ensures
        crate::catalog::has_frames(crate::parse::frame_part(root, protocol)) == has_frames_of(
            root,
            protocol,
        ),
{
    let section = within_two(root, "frame"@, protocol);
    assert(crate::parse::frame_part(root, protocol) == section);
    if let Some(crate::value::Node::Table(entries)) = section {
        assert(crate::catalog::entries_of(section) == entries);
        if has_frames_of(root, protocol) {
            let i = choose|i: int| 0 <= i < entries.len() && (#[trigger] entries[i]).0 != "config"@;
            assert(crate::catalog::entries_of(section)[i].0 != "config"@);
        }
    }
}

/// The section with the CAN defaults: `[meta.can]`, or, without one, the older
/// `[frame.can.config]`.
pub open spec fn can_section(root: crate::value::Node) -> Option<crate::value::Node> {
    if within_two(root, "meta"@, "can"@) is Some {
        within_two(root, "meta"@, "can"@)
    } else {
        match within_two(root, "frame"@, "can"@) {
            Some(n) => n.get("config"@),
            None => None,
        }
    }
}

/// The CAN defaults of a catalogue are what their section holds. Without any of them set
/// there are no defaults.
pub proof fn law_can_defaults_are_read(root: crate::value::Node)
    ensures
        match crate::catalog::catalog_of(root).can {
            Some(can) => can_section(root) matches Some(n) && {
                &&& can.default_byte_order == either_order(
                    order_under(n, "default_byte_order"@),
                    order_under(n, "default_endianness"@),
                )
                &&& from_u64(can.default_interval) == integer_under(
                    n,
                    "default_interval"@,
                    0,
                    i64::MAX as int,
                )
                &&& can.default_extended == flag_under(n, "default_extended"@)
                &&& can.default_fd == flag_under(n, "default_fd"@)
                &&& from_u32(can.frame_id_mask) == integer_under(
                    n,
                    "frame_id_mask"@,
                    0,
                    0xFFFF_FFFF,
                )
                &&& can.fields == crate::header::section_fields(n.get("fields"@), false)
            },
            None => can_section(root) matches Some(n) ==> {
                &&& order_under(n, "default_byte_order"@) is None
                &&& order_under(n, "default_endianness"@) is None
                &&& integer_under(n, "default_interval"@, 0, i64::MAX as int) is None
                &&& flag_under(n, "default_extended"@) is None
                &&& flag_under(n, "default_fd"@) is None
                &&& integer_under(n, "frame_id_mask"@, 0, 0xFFFF_FFFF) is None
            },
        },
{
    let can = crate::catalog::catalog_of(root).can;
    assert(can == crate::parse::can_config(root));
    assert(crate::parse::meta_part(root, "can"@) == within_two(root, "meta"@, "can"@));
    assert(crate::parse::frame_part(root, "can"@) == within_two(root, "frame"@, "can"@));
    assert(can_section(root) == crate::header::first_of(
        crate::parse::meta_part(root, "can"@),
        crate::value::under(crate::parse::frame_part(root, "can"@), "config"@),
    ));
    if let Some(n) = can_section(root) {
        lemma_can_section(n);
        assert(can == if crate::parse::can_of(n) == crate::parse::blank_can() {
            None
        } else {
            Some(crate::parse::can_of(n))
        });
    }
}

proof fn lemma_can_section(n: crate::value::Node)
    ensures
        ({
            let can = crate::parse::can_of(n);
            &&& can.default_byte_order == either_order(
                order_under(n, "default_byte_order"@),
                order_under(n, "default_endianness"@),
            )
            &&& from_u64(can.default_interval) == integer_under(
                n,
                "default_interval"@,
                0,
                i64::MAX as int,
            )
            &&& can.default_extended == flag_under(n, "default_extended"@)
            &&& can.default_fd == flag_under(n, "default_fd"@)
            &&& from_u32(can.frame_id_mask) == integer_under(n, "frame_id_mask"@, 0, 0xFFFF_FFFF)
            &&& can.fields == crate::header::section_fields(n.get("fields"@), false)
        }),
{
}

/// The serial defaults of a catalogue are what `[meta.serial]` holds.
pub proof fn law_serial_defaults_are_read(root: crate::value::Node)
    ensures
        match crate::catalog::catalog_of(root).serial {
            Some(serial) => within_two(root, "meta"@, "serial"@) matches Some(n) && {
                &&& serial.byte_order == order_under(n, "byte_order"@)
                &&& (text_under(n, "encoding"@) matches Some(e) ==> e == "slip"@ || e == "cobs"@
                    || e == "raw"@ || e == "length_prefixed"@) ==> serial.encoding == text_under(
                    n,
                    "encoding"@,
                )
                &&& from_u32(serial.frame_id_mask) == integer_under(
                    n,
                    "frame_id_mask"@,
                    0,
                    0xFFFF_FFFF,
                )
                &&& from_u32(serial.header_length) == integer_under(
                    n,
                    "header_length"@,
                    0,
                    0xFFFF_FFFF,
                )
                &&& from_u32(serial.min_frame_length) == integer_under(
                    n,
                    "min_frame_length"@,
                    0,
                    0xFFFF_FFFF,
                )
                &&& match serial.checksum {
                    Some(c) => n.get("checksum"@) matches Some(t) && {
                        &&& text_under(t, "algorithm"@) == Some(c.algorithm)
                        &&& integer_under(t, "start_byte"@, -0x8000_0000, 0x7FFF_FFFF) == Some(
                            c.start_byte as int,
                        )
                        &&& c.byte_length == match integer_under(
                            t,
                            "byte_length"@,
                            0,
                            0xFFFF_FFFF,
                        ) {
                            Some(i) => i,
                            None => 1,
                        }
                        &&& c.calc_start_byte == match integer_under(
                            t,
                            "calc_start_byte"@,
                            -0x8000_0000,
                            0x7FFF_FFFF,
                        ) {
                            Some(i) => i,
                            None => 0,
                        }
                        &&& from_i32(c.calc_end_byte) == integer_under(
                            t,
                            "calc_end_byte"@,
                            -0x8000_0000,
                            0x7FFF_FFFF,
                        )
                        &&& c.big_endian == (flag_under(t, "big_endian"@) == Some(true))
                    },
                    None => n.get("checksum"@) matches Some(t) ==> !declares_checksum(t),
                }
                &&& serial.fields == crate::header::section_fields(n.get("fields"@), true)
            },
            None => within_two(root, "meta"@, "serial"@) matches Some(n) ==> {
                &&& order_under(n, "byte_order"@) is None
                &&& text_under(n, "encoding"@) != Some("slip"@)
                &&& text_under(n, "encoding"@) != Some("cobs"@)
                &&& text_under(n, "encoding"@) != Some("raw"@)
                &&& text_under(n, "encoding"@) != Some("length_prefixed"@)
                &&& integer_under(n, "frame_id_mask"@, 0, 0xFFFF_FFFF) is None
                &&& integer_under(n, "header_length"@, 0, 0xFFFF_FFFF) is None
                &&& integer_under(n, "min_frame_length"@, 0, 0xFFFF_FFFF) is None
            },
        },
{
}

/// The Modbus defaults of a catalogue are what `[meta.modbus]` holds.
pub proof fn law_modbus_defaults_are_read(root: crate::value::Node)
    ensures
        match crate::catalog::catalog_of(root).modbus {
            Some(modbus) => within_two(root, "meta"@, "modbus"@) matches Some(n) && {
                &&& from_u8(modbus.device_address) == integer_under(n, "device_address"@, 0, 255)
                &&& from_u8(modbus.register_base) == integer_under(n, "register_base"@, 0, 1)
                &&& from_u64(modbus.default_interval) == integer_under(
                    n,
                    "default_interval"@,
                    0,
                    i64::MAX as int,
                )
                &&& modbus.default_byte_order == either_order(
                    order_under(n, "default_byte_order"@),
                    order_under(n, "byte_order"@),
                )
                &&& modbus.default_word_order == order_under(n, "default_word_order"@)
            },
            None => within_two(root, "meta"@, "modbus"@) matches Some(n) ==> {
                &&& integer_under(n, "device_address"@, 0, 255) is None
                &&& integer_under(n, "register_base"@, 0, 1) is None
                &&& integer_under(n, "default_interval"@, 0, i64::MAX as int) is None
                &&& order_under(n, "default_byte_order"@) is None
                &&& order_under(n, "byte_order"@) is None
                &&& order_under(n, "default_word_order"@) is None
            },
        },
{
}

/// The nodes of a catalogue are the entries of its `[node]` table, in their order, with
/// the address and the notes that each holds.
pub proof fn law_nodes_are_read(root: crate::value::Node, i: int)
    requires
        root.get("node"@) matches Some(crate::value::Node::Table(entries)) && 0 <= i
            < entries.len(),
    ensures
        ({
            let entries = root.get("node"@)->Some_0->Table_0;
            let nodes = crate::catalog::catalog_of(root).nodes;
            &&& nodes.len() == entries.len()
            &&& nodes[i].name == entries[i].0
            &&& from_u8(nodes[i].device_address) == integer_under(
                entries[i].1,
                "device_address"@,
                0,
                255,
            )
            &&& are_notes_of(nodes[i].notes, entries[i].1)
        }),
{
    let entries = root.get("node"@)->Some_0->Table_0;
    lemma_notes(entries[i].1);
}

// ---------------------------------------------------------------------------
// Frames
// ---------------------------------------------------------------------------

/// The frame a table refers to under a key, as it writes it: a text, or an integer in
/// decimal digits.
pub open spec fn reference_under(n: crate::value::Node, key: Seq<char>) -> Option<Seq<char>> {
    match n.get(key) {
        Some(crate::value::Node::Text(s)) => Some(s),
        Some(crate::value::Node::Integer(i)) => Some(crate::text::signed_decimal(i as int)),
        _ => None,
    }
}

/// What a table holds under the first of two keys that is there.
pub open spec fn under_either(
    n: crate::value::Node,
    first: Seq<char>,
    second: Seq<char>,
) -> Option<crate::value::Node> {
    if n.get(first) is Some {
        n.get(first)
    } else {
        n.get(second)
    }
}

/// Whether a CAN frame is the one a table declares, so far as the table itself says.
pub open spec fn is_can_frame_read_from(
    f: crate::model::FrameView,
    key: Seq<char>,
    n: crate::value::Node,
    can: Option<crate::model::CanView>,
) -> bool {
    &&& f.key == key
    &&& crate::parse::id_of(key) == Some(f.frame_id as int)
    &&& f.protocol == Protocol::Can
    &&& f.name is None
    &&& integer_under(n, "length"@, 0, 0xFFFF_FFFF) matches Some(l) ==> f.length == l
    &&& text_under(n, "transmitter"@) matches Some(t) ==> f.transmitter == Some(t)
    &&& crate::parse::interval_of(n) is Some ==> f.interval == crate::parse::interval_of(n)
    &&& from_u32(f.bus) == integer_under(n, "bus"@, 0, 0xFFFF_FFFF)
    &&& f.is_extended == Some(
        match flag_under(n, "extended"@) {
            Some(b) => b,
            None => if can is Some && can->Some_0.default_extended is Some {
                can->Some_0.default_extended->Some_0
            } else {
                f.frame_id >= 0x800
            },
        },
    )
    &&& f.is_fd == Some(
        match flag_under(n, "fd"@) {
            Some(b) => b,
            None => can is Some && can->Some_0.default_fd == Some(true),
        },
    )
    &&& f.mirror_of == reference_under(n, "mirror_of"@)
    &&& f.copy_from == reference_under(n, "copy"@)
    &&& f.tunnel == crate::parse::tunnel_of(n)
    &&& f.checksums == crate::parse::checksums_of(n)
    &&& f.modbus_register_type is None
    &&& f.modbus_register_count is None
    &&& f.modbus_node is None
    &&& f.modbus_device_address is None
    &&& f.delimiter is None
    &&& are_notes_of(f.notes, n)
    &&& n.get("mux"@) matches Some(m) ==> f.mux == crate::parse::mux_of(m)
}

/// Whether a CAN frame that refers to no other has what its table declares, and the
/// defaults besides: eight bytes, no transmitter, and the default interval.
pub open spec fn stands_alone(
    f: crate::model::FrameView,
    n: crate::value::Node,
    can: Option<crate::model::CanView>,
) -> bool {
    &&& integer_under(n, "length"@, 0, 0xFFFF_FFFF) is None ==> f.length == 8
    &&& f.transmitter == text_under(n, "transmitter"@)
    &&& crate::parse::interval_of(n) is None ==> f.interval == match can {
        Some(can) => can.default_interval,
        None => None,
    }
    &&& are_read_from(f.signals, under_either(n, "signals"@, "signal"@))
    &&& n.get("mux"@) is None ==> f.mux is None
}

proof fn lemma_can_frames_in(
    entries: Seq<(Seq<char>, crate::value::Node)>,
    section: crate::value::Node,
    can: Option<crate::model::CanView>,
    i: int,
)
    requires
        0 <= i < entries.len(),
        entries[i].0 != "config"@,
        crate::parse::id_of(entries[i].0) is Some,
    ensures
        exists|k: int|
            0 <= k < crate::catalog::can_frames_in(entries, section, can).len()
                && #[trigger] crate::catalog::can_frames_in(entries, section, can)[k]
                == crate::catalog::can_frame(
                entries[i].0,
                crate::parse::id_of(entries[i].0)->Some_0 as u32,
                entries[i].1,
                section,
                can,
            ),
    decreases entries.len(),
{
    let front = entries.drop_last();
    let before = crate::catalog::can_frames_in(front, section, can);
    let now = crate::catalog::can_frames_in(entries, section, can);
    if i < front.len() {
        lemma_can_frames_in(front, section, can, i);
        let k = choose|k: int|
            0 <= k < before.len() && #[trigger] before[k] == crate::catalog::can_frame(
                front[i].0,
                crate::parse::id_of(front[i].0)->Some_0 as u32,
                front[i].1,
                section,
                can,
            );
        assert(now[k] == before[k]);
    } else {
        assert(entries.last() == entries[i]);
        assert(now[now.len() - 1] == now.last());
    }
}

proof fn lemma_id_fits(key: Seq<char>)
    ensures
        crate::parse::id_of(key) matches Some(id) ==> 0 <= id <= 0xFFFF_FFFF,
{
}

proof fn lemma_can_frame(
    key: Seq<char>,
    n: crate::value::Node,
    section: crate::value::Node,
    can: Option<crate::model::CanView>,
)
    requires
        crate::parse::id_of(key) is Some,
    ensures
        ({
            let f = crate::catalog::can_frame(
                key,
                crate::parse::id_of(key)->Some_0 as u32,
                n,
                section,
                can,
            );
            &&& is_can_frame_read_from(f, key, n, can)
            &&& reference_under(n, "mirror_of"@) is None && reference_under(n, "copy"@) is None
                ==> stands_alone(f, n, can)
        }),
{
    lemma_notes(n);
    lemma_id_fits(key);
    lemma_signal_lists(under_either(n, "signals"@, "signal"@));
    assert(crate::parse::own_signals(n) == crate::parse::items_of(
        under_either(n, "signals"@, "signal"@),
    ));
}

/// The entries of the CAN section of a document.
pub open spec fn can_entries(root: crate::value::Node) -> Seq<(Seq<char>, crate::value::Node)> {
    match within_two(root, "frame"@, "can"@) {
        Some(crate::value::Node::Table(entries)) => entries,
        _ => Seq::empty(),
    }
}

/// Every entry of `[frame.can]` whose key is an id is a frame of the catalogue, with what
/// its table declares.
pub proof fn law_can_frames_are_read(root: crate::value::Node, i: int)
    requires
        0 <= i < can_entries(root).len(),
        can_entries(root)[i].0 != "config"@,
        crate::parse::id_of(can_entries(root)[i].0) is Some,
    ensures
        ({
            let catalog = crate::catalog::catalog_of(root);
            let (key, n) = can_entries(root)[i];
            exists|k: int|
                0 <= k < catalog.frames.len() && is_can_frame_read_from(
                    #[trigger] catalog.frames[k],
                    key,
                    n,
                    catalog.can,
                ) && (reference_under(n, "mirror_of"@) is None && reference_under(n, "copy"@) is None
                    ==> stands_alone(catalog.frames[k], n, catalog.can))
        }),
{
    let catalog = crate::catalog::catalog_of(root);
    let entries = can_entries(root);
    let section = within_two(root, "frame"@, "can"@)->Some_0;
    assert(crate::parse::frame_part(root, "can"@) == Some(section));
    assert(crate::catalog::entries_of(Some(section)) == entries);
    lemma_can_frames_in(entries, section, catalog.can, i);
    let frames = crate::catalog::can_frames_in(entries, section, catalog.can);
    let k = choose|k: int|
        0 <= k < frames.len() && #[trigger] frames[k] == crate::catalog::can_frame(
            entries[i].0,
            crate::parse::id_of(entries[i].0)->Some_0 as u32,
            entries[i].1,
            section,
            catalog.can,
        );
    lemma_can_frame(entries[i].0, entries[i].1, section, catalog.can);
    assert(catalog.frames[k] == frames[k]);
}

/// Whether an entry of a section is the one a reference names: the first whose key spells
/// the same number.
pub open spec fn is_source(
    entries: Seq<(Seq<char>, crate::value::Node)>,
    j: int,
    reference: Seq<char>,
) -> bool {
    &&& 0 <= j < entries.len()
    &&& crate::parse::id_of(reference) is Some
    &&& crate::parse::id_of(entries[j].0) == crate::parse::id_of(reference)
    &&& forall|m: int|
        0 <= m < j ==> crate::parse::id_of((#[trigger] entries[m]).0) != crate::parse::id_of(
            reference,
        )
}

proof fn lemma_source(
    entries: Seq<(Seq<char>, crate::value::Node)>,
    j: int,
    reference: Seq<char>,
)
    requires
        is_source(entries, j, reference),
    ensures
        crate::parse::entry_with_id(entries, crate::parse::id_of(reference)->Some_0) == Some(
            entries[j].1,
        ),
    decreases entries.len(),
{
    if j > 0 {
        let rest = entries.skip(1);
        assert(crate::parse::id_of(entries[0].0) != crate::parse::id_of(reference));
        assert forall|m: int| 0 <= m < j - 1 implies crate::parse::id_of((#[trigger] rest[m]).0)
            != crate::parse::id_of(reference) by {
            assert(rest[m] == entries[m + 1]);
        }
        assert(rest[j - 1] == entries[j]);
        lemma_source(rest, j - 1, reference);
    }
}

/// A frame that copies another, or else mirrors it, takes over the length, the
/// transmitter and the interval of that frame where it has none of its own, and says so.
pub proof fn law_frames_take_over_metadata(root: crate::value::Node, i: int, j: int)
    requires
        0 <= i < can_entries(root).len(),
        can_entries(root)[i].0 != "config"@,
        crate::parse::id_of(can_entries(root)[i].0) is Some,
        reference_under(can_entries(root)[i].1, "copy"@) matches Some(r) ==> is_source(
            can_entries(root),
            j,
            r,
        ),
        reference_under(can_entries(root)[i].1, "copy"@) is None ==> (reference_under(
            can_entries(root)[i].1,
            "mirror_of"@,
        ) matches Some(r) && is_source(can_entries(root), j, r)),
    ensures
        ({
            let catalog = crate::catalog::catalog_of(root);
            let (key, n) = can_entries(root)[i];
            let source = can_entries(root)[j].1;
            exists|k: int|
                0 <= k < catalog.frames.len() && (#[trigger] catalog.frames[k]).key == key && ({
                    let f = catalog.frames[k];
                    &&& n.get("length"@) is None ==> f.length == match integer_under(
                        source,
                        "length"@,
                        0,
                        0xFFFF_FFFF,
                    ) {
                        Some(l) => l,
                        None => 8,
                    }
                    &&& text_under(n, "transmitter"@) is None ==> f.transmitter == text_under(
                        source,
                        "transmitter"@,
                    )
                    &&& crate::parse::interval_of(n) is None && crate::parse::interval_of(
                        source,
                    ) is Some ==> f.interval == crate::parse::interval_of(source)
                    &&& n.get("length"@) is None && integer_under(
                        source,
                        "length"@,
                        0,
                        0xFFFF_FFFF,
                    ) is Some ==> f.inherited_fields.contains("length"@)
                    &&& text_under(n, "transmitter"@) is None && text_under(
                        source,
                        "transmitter"@,
                    ) is Some ==> f.inherited_fields.contains("transmitter"@)
                    &&& crate::parse::interval_of(n) is None && crate::parse::interval_of(
                        source,
                    ) is Some ==> f.inherited_fields.contains("interval"@)
                    &&& flag_under(n, "extended"@) is None ==> f.inherited_fields.contains(
                        "extended"@,
                    )
                })
        }),
{
    let catalog = crate::catalog::catalog_of(root);
    let entries = can_entries(root);
    let section = within_two(root, "frame"@, "can"@)->Some_0;
    let (key, n) = entries[i];
    let source = entries[j].1;
    assert(crate::parse::frame_part(root, "can"@) == Some(section));
    assert(crate::catalog::entries_of(Some(section)) == entries);
    lemma_can_frames_in(entries, section, catalog.can, i);
    let f = crate::catalog::can_frame(
        key,
        crate::parse::id_of(key)->Some_0 as u32,
        n,
        section,
        catalog.can,
    );
    let frames = crate::catalog::can_frames_in(entries, section, catalog.can);
    let k = choose|k: int| 0 <= k < frames.len() && #[trigger] frames[k] == f;
    assert(catalog.frames[k] == f);
    let r = if reference_under(n, "copy"@) is Some {
        reference_under(n, "copy"@)->Some_0
    } else {
        reference_under(n, "mirror_of"@)->Some_0
    };
    lemma_source(entries, j, r);
    assert(crate::parse::reference(n.get("copy"@)) == reference_under(n, "copy"@));
    assert(crate::parse::reference(n.get("mirror_of"@)) == reference_under(n, "mirror_of"@));
    assert(crate::parse::metadata_source(n, section) == Some(source));
    lemma_inherited(n, section, catalog.can);
}

proof fn lemma_inherited(
    n: crate::value::Node,
    section: crate::value::Node,
    can: Option<crate::model::CanView>,
)
    ensures
        ({
            let listed = crate::catalog::inherited_by(n, section, can);
            &&& n.integer_at("length"@) is None && crate::parse::inherited_length(
                n,
                section,
            ) is Some ==> listed.contains("length"@)
            &&& n.text_at("transmitter"@) is None && crate::parse::inherited_transmitter(
                n,
                section,
            ) is Some ==> listed.contains("transmitter"@)
            &&& crate::parse::interval_of(n) is None && crate::catalog::resolved_interval(
                n,
                section,
                can,
            ) is Some ==> listed.contains("interval"@)
            &&& n.boolean_at("extended"@) is None ==> listed.contains("extended"@)
        }),
{
    let listed = crate::catalog::inherited_by(n, section, can);
    let a = crate::catalog::when(
        n.integer_at("length"@) is None && crate::parse::inherited_length(n, section) is Some,
        "length"@,
    );
    let b = crate::catalog::when(
        n.text_at("transmitter"@) is None && crate::parse::inherited_transmitter(
            n,
            section,
        ) is Some,
        "transmitter"@,
    );
    let c = crate::catalog::when(
        crate::parse::interval_of(n) is None && crate::catalog::resolved_interval(
            n,
            section,
            can,
        ) is Some,
        "interval"@,
    );
    let d = crate::catalog::when(n.boolean_at("extended"@) is None, "extended"@);
    if a.len() > 0 {
        assert(listed[0] == "length"@);
    }
    if b.len() > 0 {
        assert(listed[a.len() as int] == "transmitter"@);
    }
    if c.len() > 0 {
        assert(listed[a.len() + b.len() as int] == "interval"@);
    }
    if d.len() > 0 {
        assert(listed[a.len() + b.len() + c.len() as int] == "extended"@);
    }
}

/// A frame that mirrors another has every signal of that frame that it does not declare
/// itself at the same place, in the same order, marked as inherited, and its multiplexer
/// where it has none of its own.
pub proof fn law_mirrors_take_over_signals(root: crate::value::Node, i: int, j: int, m: int)
    requires
        0 <= i < can_entries(root).len(),
        can_entries(root)[i].0 != "config"@,
        crate::parse::id_of(can_entries(root)[i].0) is Some,
        reference_under(can_entries(root)[i].1, "mirror_of"@) matches Some(r) && is_source(
            can_entries(root),
            j,
            r,
        ),
        under_either(can_entries(root)[j].1, "signals"@, "signal"@) matches Some(
            crate::value::Node::Array(items),
        ) && 0 <= m < items.len(),
    ensures
        ({
            let catalog = crate::catalog::catalog_of(root);
            let (key, n) = can_entries(root)[i];
            let source = can_entries(root)[j].1;
            let items = under_either(source, "signals"@, "signal"@)->Some_0->Array_0;
            exists|k: int|
                0 <= k < catalog.frames.len() && (#[trigger] catalog.frames[k]).key == key && ({
                    let f = catalog.frames[k];
                    &&& f.signals.len() >= items.len()
                    &&& under_either(n, "signals"@, "signal"@) is None ==> is_read_from(
                        f.signals[m],
                        items[m],
                    ) && f.signals[m].inherited && f.signals.len() == items.len()
                    &&& n.get("mux"@) is None ==> f.mux == match source.get("mux"@) {
                        Some(x) => crate::parse::mux_of(x),
                        None => None,
                    }
                })
        }),
{
    let catalog = crate::catalog::catalog_of(root);
    let entries = can_entries(root);
    let section = within_two(root, "frame"@, "can"@)->Some_0;
    let (key, n) = entries[i];
    let source = entries[j].1;
    let items = under_either(source, "signals"@, "signal"@)->Some_0->Array_0;
    assert(crate::parse::frame_part(root, "can"@) == Some(section));
    assert(crate::catalog::entries_of(Some(section)) == entries);
    lemma_can_frames_in(entries, section, catalog.can, i);
    let f = crate::catalog::can_frame(
        key,
        crate::parse::id_of(key)->Some_0 as u32,
        n,
        section,
        catalog.can,
    );
    let frames = crate::catalog::can_frames_in(entries, section, catalog.can);
    let k = choose|k: int| 0 <= k < frames.len() && #[trigger] frames[k] == f;
    assert(catalog.frames[k] == f);
    let r = reference_under(n, "mirror_of"@)->Some_0;
    lemma_source(entries, j, r);
    assert(crate::parse::reference(n.get("mirror_of"@)) == Some(r));
    assert(crate::parse::referred(Some(r), section) == Some(source));
    assert(crate::parse::own_signals(source) == items);
    law_signals_are_read_from_their_table(items[m], true);
    assert(f.signals == crate::parse::mirror_signals(crate::parse::own_signals(n), items));
}

/// Every entry of `[frame.serial]` whose key is an id is a frame of the catalogue, with
/// what its table declares.
pub proof fn law_serial_frames_are_read(root: crate::value::Node, i: int)
    requires
        within_two(root, "frame"@, "serial"@) matches Some(crate::value::Node::Table(entries)) && 0
            <= i < entries.len() && entries[i].0 != "config"@ && crate::parse::id_of(
            entries[i].0,
        ) is Some,
    ensures
        ({
            let catalog = crate::catalog::catalog_of(root);
            let (key, n) = within_two(root, "frame"@, "serial"@)->Some_0->Table_0[i];
            exists|k: int|
                0 <= k < catalog.frames.len() && is_serial_frame_read_from(
                    #[trigger] catalog.frames[k],
                    key,
                    n,
                )
        }),
{
    let catalog = crate::catalog::catalog_of(root);
    let entries = within_two(root, "frame"@, "serial"@)->Some_0->Table_0;
    let (key, n) = entries[i];
    assert(crate::parse::frame_part(root, "serial"@) == within_two(root, "frame"@, "serial"@));
    lemma_serial_frames_in(entries, i);
    let frames = crate::catalog::serial_frames_in(entries);
    let f = crate::catalog::serial_frame(key, crate::parse::id_of(key)->Some_0 as u32, n);
    let k = choose|k: int| 0 <= k < frames.len() && #[trigger] frames[k] == f;
    let before = crate::catalog::can_frames(root);
    lemma_notes(n);
    lemma_id_fits(key);
    lemma_signal_lists(n.get("signals"@));
    assert(catalog.frames[before.len() + k] == f);
}

/// Whether a serial frame is the one a table declares: without a length it has none.
pub open spec fn is_serial_frame_read_from(
    f: crate::model::FrameView,
    key: Seq<char>,
    n: crate::value::Node,
) -> bool {
    &&& f.key == key
    &&& crate::parse::id_of(key) == Some(f.frame_id as int)
    &&& f.protocol == Protocol::Serial
    &&& f.name is None
    &&& f.length == match integer_under(n, "length"@, 0, 0xFFFF_FFFF) {
        Some(l) => l,
        None => 0,
    }
    &&& f.transmitter == text_under(n, "transmitter"@)
    &&& f.interval == crate::parse::interval_of(n)
    &&& from_u32(f.bus) == integer_under(n, "bus"@, 0, 0xFFFF_FFFF)
    &&& f.is_extended is None
    &&& f.is_fd is None
    &&& are_read_from(f.signals, n.get("signals"@))
    &&& f.mux == match n.get("mux"@) {
        Some(m) => crate::parse::mux_of(m),
        None => None,
    }
    &&& f.tunnel == crate::parse::tunnel_of(n)
    &&& f.mirror_of is None
    &&& f.copy_from is None
    &&& f.modbus_register_type is None
    &&& f.modbus_register_count is None
    &&& f.modbus_node is None
    &&& f.modbus_device_address is None
    &&& f.delimiter == crate::parse::delimiter_of(n)
    &&& are_notes_of(f.notes, n)
    &&& f.checksums == crate::parse::checksums_of(n)
    &&& f.inherited_fields.len() == 0
}

proof fn lemma_serial_frames_in(entries: Seq<(Seq<char>, crate::value::Node)>, i: int)
    requires
        0 <= i < entries.len(),
        entries[i].0 != "config"@,
        crate::parse::id_of(entries[i].0) is Some,
    ensures
        exists|k: int|
            0 <= k < crate::catalog::serial_frames_in(entries).len()
                && #[trigger] crate::catalog::serial_frames_in(entries)[k]
                == crate::catalog::serial_frame(
                entries[i].0,
                crate::parse::id_of(entries[i].0)->Some_0 as u32,
                entries[i].1,
            ),
    decreases entries.len(),
{
    let front = entries.drop_last();
    let before = crate::catalog::serial_frames_in(front);
    let now = crate::catalog::serial_frames_in(entries);
    if i < front.len() {
        lemma_serial_frames_in(front, i);
        let k = choose|k: int|
            0 <= k < before.len() && #[trigger] before[k] == crate::catalog::serial_frame(
                front[i].0,
                crate::parse::id_of(front[i].0)->Some_0 as u32,
                front[i].1,
            );
        assert(now[k] == before[k]);
    } else {
        assert(entries.last() == entries[i]);
        assert(now[now.len() - 1] == now.last());
    }
}

/// A frame that is looked up by its id has that id, and no frame before it has.
pub proof fn law_frames_are_found_by_id(frames: Seq<crate::model::FrameView>, id: u32)
    ensures
        match crate::catalog::frame_with_id(frames, id) {
            Some(k) => 0 <= k < frames.len() && frames[k].frame_id == id && forall|m: int|
                0 <= m < k ==> (#[trigger] frames[m]).frame_id != id,
            None => forall|m: int| 0 <= m < frames.len() ==> (#[trigger] frames[m]).frame_id != id,
        },
    decreases frames.len(),
{
    if frames.len() > 0 {
        let front = frames.drop_last();
        law_frames_are_found_by_id(front, id);
        assert(forall|m: int| 0 <= m < front.len() ==> front[m] == #[trigger] frames[m]);
    }
}

/// A signal of a Modbus frame has the fields of the manifest's signal, and the registers
/// that its bits lie in, sixteen bits to a register and one to a coil.
pub proof fn law_modbus_signals_carry_over(
    s: crate::manifest::ModbusSignalView,
    base: u32,
    bank: crate::model::RegisterType,
)
    requires
        base + s.start_bit <= u32::MAX,
        s.bit_length <= 0xFFFF,
    ensures
        ({
            let sig = crate::catalog::modbus_signal(s, base, bank);
            let wide = bank is Holding || bank is Input;
            &&& sig.name == Some(s.name)
            &&& sig.start_bit == Some(s.start_bit)
            &&& sig.bit_length == Some(s.bit_length)
            &&& sig.signed == Some(s.signed)
            &&& sig.endianness == s.byte_order
            &&& sig.word_order == s.word_order
            &&& sig.factor == s.factor
            &&& sig.offset == s.offset
            &&& sig.unit == s.unit
            &&& sig.format == s.format
            &&& sig.min is None && sig.max is None && sig.confidence is None
            &&& sig.notes.len() == 0 && !sig.inherited
            &&& sig.modbus_register matches Some(first)
            &&& sig.modbus_register_count matches Some(count)
            &&& wide ==> {
                &&& 16 * (first - base) <= s.start_bit < 16 * (first - base) + 16
                &&& 16 * (count - 1) < s.bit_length <= 16 * count
            }
            &&& !wide ==> first == base + s.start_bit && count == s.bit_length
        }),
{
}

/// The frame a Modbus block becomes: its name and register are its key and id, and its
/// length is that of its registers in bytes, two to a register, and a bit to a coil.
pub proof fn law_modbus_frames_carry_over(
    f: crate::manifest::ModbusFrameView,
    n: Option<crate::value::Node>,
    ctx: crate::catalog::ModbusContext,
)
    ensures
        ({
            let frame = crate::catalog::modbus_frame(f, n, ctx);
            let wide = f.register_type is Holding || f.register_type is Input;
            &&& frame.key == f.name
            &&& frame.name == Some(f.name)
            &&& frame.frame_id == f.register_number
            &&& frame.protocol == Protocol::Modbus
            &&& wide ==> frame.length == 2 * f.length
            &&& !wide ==> 8 * (frame.length - 1) < f.length <= 8 * frame.length
            &&& frame.interval == Some(f.interval_ms)
            &&& frame.signals.len() == f.signals.len()
            &&& frame.modbus_register_type == Some(f.register_type)
            &&& frame.modbus_register_count == Some(f.length)
            &&& frame.mux is None && frame.tunnel is None && frame.transmitter is None
            &&& frame.bus is None && frame.is_extended is None && frame.is_fd is None
            &&& frame.checksums.len() == 0
        }),
{
}

// ---------------------------------------------------------------------------
// Modbus manifests
// ---------------------------------------------------------------------------

/// Every field of a manifest's signal is what its table holds under its key; without a
/// sign it is unsigned.
pub proof fn law_manifest_signals_are_read(n: crate::value::Node)
    requires
        n is Table,
        crate::manifest::is_signal(n),
    ensures
        ({
            let s = crate::manifest::signal_of(n);
            &&& text_under(n, "name"@) == Some(s.name)
            &&& integer_under(n, "start_bit"@, 0, 0xFFFF_FFFF) == Some(s.start_bit as int)
            &&& integer_under(n, "bit_length"@, 0, 0xFFFF_FFFF) == Some(s.bit_length as int)
            &&& s.factor == number_under(n, "factor"@)
            &&& s.offset == number_under(n, "offset"@)
            &&& s.unit == text_under(n, "unit"@)
            &&& s.signed == (flag_under(n, "signed"@) == Some(true))
            &&& n.get("format"@) is None ==> s.format is None
            &&& n.get("format"@) == Some(crate::value::Node::Text("enum"@)) ==> s.format == Some(
                SignalFormat::Enum,
            )
            &&& order_under(n, "byte_order"@) is Some ==> s.byte_order == order_under(
                n,
                "byte_order"@,
            )
            &&& order_under(n, "endianness"@) is Some ==> s.byte_order == order_under(
                n,
                "endianness"@,
            )
            &&& n.get("byte_order"@) is None && n.get("endianness"@) is None ==> s.byte_order is None
            &&& order_under(n, "word_order"@) is Some ==> s.word_order == order_under(
                n,
                "word_order"@,
            )
            &&& n.get("word_order"@) is None ==> s.word_order is None
            &&& s.enum_map is Some <==> n.get("enum"@) is Some
        }),
{
}

/// A table is taken as a manifest's signal if it names a signal with a start bit and a
/// length, and what else it holds is of the right kind.
pub proof fn law_plain_tables_are_signals(n: crate::value::Node)
    requires
        n is Table,
        text_under(n, "name"@) is Some,
        integer_under(n, "start_bit"@, 0, 0xFFFF_FFFF) is Some,
        integer_under(n, "bit_length"@, 0, 0xFFFF_FFFF) is Some,
        n.get("factor"@) is Some ==> number_under(n, "factor"@) is Some,
        n.get("offset"@) is Some ==> number_under(n, "offset"@) is Some,
        n.get("unit"@) is Some ==> text_under(n, "unit"@) is Some,
        n.get("signed"@) is Some ==> flag_under(n, "signed"@) is Some,
        n.get("format"@) is Some ==> text_under(n, "format"@) is Some,
        n.get("byte_order"@) is Some ==> order_under(n, "byte_order"@) is Some,
        n.get("endianness"@) is None,
        n.get("word_order"@) is Some ==> order_under(n, "word_order"@) is Some,
        n.get("enum"@) is None,
    ensures
        crate::manifest::is_signal(n),
{
}

/// Every field of a manifest's frame is what its table holds under its key: without a
/// register number its key spells it, without a type it holds registers, without a
/// length it is one register, and without an interval it has the default one.
pub proof fn law_manifest_frames_are_read(
    key: Seq<char>,
    n: crate::value::Node,
    default_interval: u64,
    i: int,
)
    requires
        n is Table,
        crate::manifest::is_frame(n),
    ensures
        match crate::manifest::frame_of(key, n, default_interval) {
            Some(f) => {
                &&& f.name == key
                &&& integer_under(n, "register_number"@, 0, 65535) matches Some(r)
                    ==> f.register_number == r
                &&& n.get("register_number"@) is None ==> crate::manifest::register_key(key)
                    == Some(f.register_number as int)
                &&& n.get("register_type"@) is None ==> f.register_type is Holding
                &&& n.get("register_type"@) == Some(crate::value::Node::Text("input"@))
                    ==> f.register_type is Input
                &&& f.length == match integer_under(n, "length"@, 0, 65535) {
                    Some(l) => l,
                    None => 1,
                }
                &&& f.disabled == (flag_under(n, "disabled"@) == Some(true))
                &&& n.get("tx"@) is None && n.get("interval_ms"@) is None ==> f.interval_ms
                    == default_interval
                &&& n.get("tx"@) is None ==> (integer_under(
                    n,
                    "interval_ms"@,
                    0,
                    i64::MAX as int,
                ) matches Some(ms) ==> f.interval_ms == ms)
                &&& n.get("tx"@) matches Some(tx) ==> tx is Table ==> (integer_under(
                    tx,
                    "interval_ms"@,
                    0,
                    i64::MAX as int,
                ) matches Some(ms) ==> f.interval_ms == ms)
                &&& n.get("signals"@) matches Some(crate::value::Node::Array(items)) ==> items.len()
                    > 0 ==> f.signals.len() == items.len() && (0 <= i < items.len()
                    ==> f.signals[i] == crate::manifest::signal_of(items[i])
                    && crate::manifest::is_signal(items[i]))
                &&& n.get("signals"@) is None && text_under(n, "unit"@) is Some ==> {
                    &&& f.signals.len() == 1
                    &&& f.signals[0].start_bit == 0
                    &&& f.signals[0].bit_length == 16 * f.length
                    &&& f.signals[0].unit == text_under(n, "unit"@)
                    &&& f.signals[0].factor == number_under(n, "factor"@)
                    &&& f.signals[0].offset == number_under(n, "offset"@)
                    &&& f.signals[0].signed == (flag_under(n, "signed"@) == Some(true))
                    &&& f.signals[0].name == match text_under(n, "name"@) {
                        Some(name) => name,
                        None => key,
                    }
                }
            },
            None => n.get("register_number"@) is None && crate::manifest::register_key(key) is None,
        },
{
    reveal_strlit("input");
    reveal_strlit("holding");
}

/// The defaults of a manifest are what `[meta.modbus]` holds: slave 1, base 0 and no
/// orders where it does not say.
pub proof fn law_manifest_defaults_are_read(n: crate::value::Node)
    requires
        n is Table,
        crate::manifest::is_meta(n),
    ensures
        ({
            let meta = crate::manifest::meta_of(n);
            &&& meta.device_address == match integer_under(n, "device_address"@, 0, 255) {
                Some(i) => i,
                None => 1,
            }
            &&& meta.register_base == match integer_under(n, "register_base"@, 0, 255) {
                Some(i) => i,
                None => 0,
            }
            &&& from_u64(meta.default_interval_ms) == integer_under(
                n,
                "default_interval"@,
                0,
                i64::MAX as int,
            )
            &&& order_under(n, "default_byte_order"@) is Some ==> meta.default_byte_order
                == order_under(n, "default_byte_order"@)
            &&& n.get("default_byte_order"@) is None ==> meta.default_byte_order is None
            &&& order_under(n, "default_word_order"@) is Some ==> meta.default_word_order
                == order_under(n, "default_word_order"@)
            &&& n.get("default_word_order"@) is None ==> meta.default_word_order is None
        }),
{
}

proof fn lemma_by_key_holds<V>(entries: Seq<(Seq<char>, V)>, i: int)
    requires
        0 <= i < entries.len(),
        forall|j: int| i < j < entries.len() ==> (#[trigger] entries[j]).0 != entries[i].0,
    ensures
        crate::keyed::by_key(entries).contains(entries[i]),
    decreases entries.len(),
{
    let front = entries.drop_last();
    if i < front.len() {
        assert forall|j: int| i < j < front.len() implies (#[trigger] front[j]).0 != front[i].0 by {
            assert(front[j] == entries[j]);
        }
        lemma_by_key_holds(front, i);
        assert(entries[entries.len() - 1].0 != entries[i].0);
    }
    lemma_with_key_holds(crate::keyed::by_key(front), entries.last(), entries[i]);
}

proof fn lemma_frames_of_holds(
    entries: Seq<(Seq<char>, crate::value::Node)>,
    default_interval: u64,
    i: int,
)
    requires
        crate::manifest::frames_of(entries, default_interval) is Ok,
    ensures
        crate::manifest::frames_of(entries, default_interval)->Ok_0.len() == entries.len(),
        0 <= i < entries.len() ==> crate::manifest::frame_of(
            entries[i].0,
            entries[i].1,
            default_interval,
        ) == Some(crate::manifest::frames_of(entries, default_interval)->Ok_0[i]),
    decreases entries.len(),
{
    if entries.len() > 0 {
        lemma_frames_of_holds(entries.drop_last(), default_interval, i);
    }
}

/// Every entry of `[frame.modbus]`, the last of its key, is a frame of the manifest, and
/// one of the catalogue.
pub proof fn law_manifests_hold_every_frame(
    root: crate::value::Node,
    entries: Seq<(Seq<char>, crate::value::Node)>,
    i: int,
)
    requires
        within_two(root, "frame"@, "modbus"@) == Some(crate::value::Node::Table(entries)),
        root.get("frame"@)->Some_0 is Table,
        crate::manifest::manifest_of(root) is Ok,
        0 <= i < entries.len(),
        forall|j: int| i < j < entries.len() ==> (#[trigger] entries[j]).0 != entries[i].0,
    ensures
        ({
            let m = crate::manifest::manifest_of(root)->Ok_0;
            let frames = crate::catalog::catalog_of(root).frames;
            &&& exists|k: int|
                0 <= k < m.frames.len() && Some(#[trigger] m.frames[k])
                    == crate::manifest::frame_of(
                    entries[i].0,
                    entries[i].1,
                    crate::manifest::fallback_interval(m.meta),
                )
            &&& exists|k: int|
                0 <= k < frames.len() && (#[trigger] frames[k]).key == entries[i].0
                    && frames[k].protocol == Protocol::Modbus
        }),
{
    let m = crate::manifest::manifest_of(root)->Ok_0;
    let catalog = crate::catalog::catalog_of(root);
    let sorted = crate::keyed::by_key(entries);
    assert(crate::manifest::section_entries(crate::manifest::frame_section(root)) == entries);
    lemma_by_key_holds(entries, i);
    let k = choose|k: int| 0 <= k < sorted.len() && sorted[k] == entries[i];
    lemma_frames_of_holds(sorted, crate::manifest::fallback_interval(m.meta), k);
    assert(Some(m.frames[k]) == crate::manifest::frame_of(
        entries[i].0,
        entries[i].1,
        crate::manifest::fallback_interval(m.meta),
    ));
    let before = crate::catalog::can_frames(root) + crate::catalog::serial_frames(root);
    let own = crate::catalog::modbus_frames(root);
    assert(own.len() == m.frames.len());
    assert(own[k].key == m.frames[k].name);
    assert(catalog.frames[before.len() + k] == own[k]);
}

/// With base 0 a block starts at its register number; with base 1 the traditional numbers
/// of its bank start at 1, 10001, 30001 and 40001.
pub proof fn law_blocks_start_at_their_register(
    meta: crate::manifest::ModbusMeta,
    frame: crate::manifest::ModbusFrameView,
)
    ensures
        meta.register_base != 1 ==> crate::manifest::start_address(meta, frame)
            == frame.register_number,
        meta.register_base == 1 ==> ({
            let first = if frame.register_type is Coil {
                1int
            } else if frame.register_type is Discrete {
                10001
            } else if frame.register_type is Input {
                30001
            } else {
                40001
            };
            crate::manifest::start_address(meta, frame) == if frame.register_number >= first {
                frame.register_number - first
            } else {
                0
            }
        }),
{
}

/// A frame offers each of its signals for writing if and only if its bank can be written:
/// under its name, with the register it starts in.
pub proof fn law_writable_signals_are_offered(
    meta: crate::manifest::ModbusMeta,
    frame: crate::manifest::ModbusFrameView,
    i: int,
)
    requires
        0 <= i < frame.signals.len(),
        frame.signals[i].start_bit < 16 * 65536,
        crate::manifest::start_address(meta, frame) + frame.signals[i].start_bit / 16 <= 65535,
    ensures
        frame.register_type is Holding || frame.register_type is Coil ==> {
            let options = crate::manifest::frame_options(meta, frame);
            &&& options.len() == frame.signals.len()
            &&& options[i].name == frame.signals[i].name
            &&& 16 * (options[i].register - crate::manifest::start_address(meta, frame))
                <= frame.signals[i].start_bit < 16 * (options[i].register
                - crate::manifest::start_address(meta, frame)) + 16
        },
        frame.register_type is Input || frame.register_type is Discrete
            ==> crate::manifest::frame_options(meta, frame).len() == 0,
{
}

} // verus!
