//! Validate a TOML catalogue, returning field-path + message findings.

use crate::manifest::{ManifestError, ModbusManifest};
use crate::model::ValidationError;
use crate::number::is_greater;
use crate::text::{
    are_word, byte_count, cat2, cat3, cat4, cat5, chars_of, owned, parse_integer, signed_string,
    str_eq,
};
use crate::value::{child, parse_document, Tree};
use vstd::prelude::*;

verus! {

/// One finding where a condition holds, else none.
pub open spec fn note(condition: bool, field: Seq<char>, message: Seq<char>) -> Seq<
    crate::model::FindingText,
> {
    if condition {
        seq![crate::model::FindingText { field, message }]
    } else {
        Seq::empty()
    }
}

/// Add a finding where a condition holds.
pub(crate) fn flag(errors: &mut Vec<ValidationError>, condition: bool, field: &str, message: &str)
    ensures
        crate::model::findings(final(errors)@) == crate::model::findings(old(errors)@) + note(
            condition,
            field@,
            message@,
        ),
{
    let ghost before = crate::model::findings(errors@);
    if condition {
        let e = ValidationError { field: owned(field), message: owned(message) };
        errors.push(e);
        assert(crate::model::findings(errors@) == before + seq![e@]);
    } else {
        assert(before + Seq::<crate::model::FindingText>::empty() == before);
    }
}

// ---------------------------------------------------------------------------
// Meta
// ---------------------------------------------------------------------------

/// Whether a name is neither of the two byte orders.
pub open spec fn is_odd_order(name: Option<Seq<char>>) -> bool {
    name matches Some(s) && s != "little"@ && s != "big"@
}

/// What is said of a byte order that is neither.
pub open spec fn odd_order_text(name: Seq<char>) -> Seq<char> {
    "Invalid endianness '"@ + name + "'. Must be 'little' or 'big'"@
}

fn flag_order(errors: &mut Vec<ValidationError>, name: Option<&str>, field: &str)
    ensures
        crate::model::findings(final(errors)@) == crate::model::findings(old(errors)@) + note(
            is_odd_order(crate::value::opt_str(name)),
            field@,
            odd_order_text(crate::model::or_else(crate::value::opt_str(name), Seq::empty())),
        ),
{
    match name {
        Some(s) => {
            let message = cat3("Invalid endianness '", s, "'. Must be 'little' or 'big'");
            flag(errors, !str_eq(s, "little") && !str_eq(s, "big"), field, message.as_str());
        },
        None => {
            flag(errors, false, field, "");
        },
    }
}

/// What is found in the `[meta]` table.
pub open spec fn meta_findings(root: crate::value::Node) -> Seq<crate::model::FindingText> {
    match root.get("meta"@) {
        Some(crate::value::Node::Table(entries)) => {
            let meta = crate::value::Node::Table(entries);
            note(
                meta.get("name"@) is None,
                "meta.name"@,
                "Catalog name is required in [meta] section"@,
            ) + note(
                meta.integer_at("version"@) matches Some(v) && v < 1,
                "meta.version"@,
                "Version must be at least 1"@,
            ) + note(
                is_odd_order(meta.text_at("default_endianness"@)),
                "meta.default_endianness"@,
                odd_order_text(
                    crate::model::or_else(meta.text_at("default_endianness"@), Seq::empty()),
                ),
            )
        },
        _ => note(true, "meta"@, "Missing [meta] section"@),
    }
}

fn validate_meta(root: &Tree, errors: &mut Vec<ValidationError>)
    ensures
        crate::model::findings(final(errors)@) == crate::model::findings(old(errors)@)
            + meta_findings(root.node()),
{
    let ghost start = crate::model::findings(errors@);
    let meta = match root.get("meta") {
        Some(meta) => meta,
        None => {
            flag(errors, true, "meta", "Missing [meta] section");
            return;
        },
    };
    if meta.entries().is_none() {
        flag(errors, true, "meta", "Missing [meta] section");
        return;
    }
    flag(
        errors,
        meta.get("name").is_none(),
        "meta.name",
        "Catalog name is required in [meta] section",
    );
    let early: bool = match meta.integer_at("version") {
        Some(v) => v < 1,
        None => false,
    };
    flag(errors, early, "meta.version", "Version must be at least 1");
    flag_order(errors, meta.text_at("default_endianness"), "meta.default_endianness");
    assert(crate::model::findings(errors@) == start + meta_findings(root.node()));
}

// ---------------------------------------------------------------------------
// Signals
// ---------------------------------------------------------------------------

/// The plain text of the float nearest to an integer.
pub uninterp spec fn nearest_float_text(i: int) -> Seq<char>;

/// The `Display` text of the float that `serde_json`'s `Number::as_f64` gives for
/// an integer: the nearest one. Up to two to the power of 53 either way the float
/// is the integer, and its text the integer's in decimal.
#[verifier::external_body]
fn float_text(i: i64) -> (r: String)
    ensures
        r@ == nearest_float_text(i as int),
        -0x20_0000_0000_0000 <= i <= 0x20_0000_0000_0000 ==> r@ == crate::text::signed_decimal(
            i as int,
        ),
{
    serde_json::Number::from(i).as_f64().map(|f| f.to_string()).unwrap_or_default()
}

/// A number as it is shown: as a float.
pub open spec fn shown(n: crate::value::Node) -> Seq<char> {
    match n {
        crate::value::Node::Integer(i) => nearest_float_text(i as int),
        crate::value::Node::Float { shown, .. } => shown,
        _ => Seq::empty(),
    }
}

/// The name of a signal's table, where it has one.
pub open spec fn signal_name(n: crate::value::Node) -> Option<Seq<char>> {
    n.text_at("name"@)
}

/// The first of the signals before `end` with a name.
pub open spec fn first_named(items: Seq<crate::value::Node>, name: Seq<char>, end: int) -> Option<int>
    decreases end,
{
    if end <= 0 {
        None
    } else {
        match first_named(items, name, end - 1) {
            Some(i) => Some(i),
            None => if signal_name(items[end - 1]) == Some(name) {
                Some(end - 1)
            } else {
                None
            },
        }
    }
}

/// What is found of a signal's name.
pub open spec fn name_findings(at: Seq<char>, name: Seq<char>, earlier: Option<int>) -> Seq<
    crate::model::FindingText,
> {
    note(
        earlier is Some,
        at + ".name"@,
        "Duplicate signal name '"@ + name + "' (first defined at index "@
            + crate::text::signed_decimal(crate::model::or_else(earlier, 0)) + ")"@,
    ) + note(
        crate::text::byte_length(name) > 32,
        at + ".name"@,
        "Signal name '"@ + name + "' exceeds DBC limit of 32 characters ("@
            + crate::text::signed_decimal(crate::text::byte_length(name)) + " chars)"@,
    ) + note(
        !crate::text::all_word(name),
        at + ".name"@,
        "Signal name '"@ + name
            + "' contains invalid characters for DBC export (only A-Z, a-z, 0-9, _ allowed)"@,
    )
}

/// What is found of a signal's place, length, byte order and range.
pub open spec fn layout_findings(at: Seq<char>, n: crate::value::Node, name: Seq<char>) -> Seq<
    crate::model::FindingText,
> {
    note(
        n.integer_at("start_bit"@) matches Some(b) && b < 0,
        at + ".start_bit"@,
        "start_bit must be non-negative"@,
    ) + note(
        n.get("start_bit"@) is None,
        at,
        "Signal '"@ + name + "' must have start_bit"@,
    ) + note(
        n.integer_at("bit_length"@) matches Some(b) && !(1 <= b <= 64),
        at + ".bit_length"@,
        "bit_length "@ + crate::text::signed_decimal(
            crate::model::or_else(n.integer_at("bit_length"@), 0) as int,
        ) + " must be between 1 and 64"@,
    ) + note(
        n.get("bit_length"@) is None,
        at,
        "Signal '"@ + name + "' must have bit_length"@,
    ) + note(
        is_odd_order(n.text_at("endianness"@)),
        at + ".endianness"@,
        odd_order_text(crate::model::or_else(n.text_at("endianness"@), Seq::empty())),
    ) + range_findings(at, n, name)
}

/// What is found of a signal's `min` and `max`.
pub open spec fn range_findings(at: Seq<char>, n: crate::value::Node, name: Seq<char>) -> Seq<
    crate::model::FindingText,
> {
    match (n.number_at("min"@), n.number_at("max"@)) {
        (Some(min), Some(max)) => note(
            crate::number::exceeds(min, max),
            at,
            "Signal '"@ + name + "' has min ("@ + shown(n.get("min"@)->Some_0)
                + ") greater than max ("@ + shown(n.get("max"@)->Some_0) + ")"@,
        ),
        _ => Seq::empty(),
    }
}

/// How a finding names a signal.
pub open spec fn signal_path(prefix: Seq<char>, idx: int) -> Seq<char> {
    prefix + ".signal["@ + crate::text::signed_decimal(idx) + "]"@
}

/// What is found of one of a list of signals, a table with a name.
pub open spec fn named_findings(
    at: Seq<char>,
    name: Seq<char>,
    items: Seq<crate::value::Node>,
    idx: int,
) -> Seq<crate::model::FindingText> {
    name_findings(at, name, first_named(items, name, idx)) + layout_findings(at, items[idx], name)
}

/// What is found of one of a list of signals.
pub open spec fn signal_findings(
    prefix: Seq<char>,
    items: Seq<crate::value::Node>,
    idx: int,
) -> Seq<crate::model::FindingText> {
    let at = signal_path(prefix, idx);
    let n = items[idx];
    match n {
        crate::value::Node::Table(_) => match n.get("name"@) {
            Some(crate::value::Node::Text(name)) => named_findings(at, name, items, idx),
            Some(_) => note(true, at + ".name"@, "Signal name must be a string"@),
            None => note(true, at, "Signal must have a name"@),
        },
        _ => note(true, at, "Signal must be a table"@),
    }
}

/// What is found of a list of signals.
pub open spec fn list_findings(
    prefix: Seq<char>,
    items: Seq<crate::value::Node>,
    count: int,
) -> Seq<crate::model::FindingText>
    decreases count,
{
    if count <= 0 {
        Seq::empty()
    } else {
        list_findings(prefix, items, count - 1) + signal_findings(prefix, items, count - 1)
    }
}

fn find_named(items: &Vec<Tree>, name: &str, end: usize) -> (r: Option<usize>)
    requires
        end <= items@.len(),
    ensures
        match r {
            Some(i) => first_named(crate::value::item_views(items@), name@, end as int) == Some(
                i as int,
            ),
            None => first_named(crate::value::item_views(items@), name@, end as int) is None,
        },
{
    let ghost all = crate::value::item_views(items@);
    for i in 0..end
        invariant
            end <= items@.len(),
            all == crate::value::item_views(items@),
            first_named(all, name@, i as int) is None,
    {
        assert(all[i as int] == items@[i as int].node());
        if let Some(s) = items[i].text_at("name") {
            if str_eq(s, name) {
                proof {
                    lemma_first_stays(all, name@, i + 1, end as int);
                }
                return Some(i);
            }
        }
    }
    None
}

proof fn lemma_first_stays(items: Seq<crate::value::Node>, name: Seq<char>, n: int, end: int)
    requires
        0 <= n <= end,
        first_named(items, name, n) is Some,
    ensures
        first_named(items, name, end) == first_named(items, name, n),
    decreases end,
{
    if n < end {
        lemma_first_stays(items, name, n, end - 1);
    }
}

fn flag_name(errors: &mut Vec<ValidationError>, at: &str, name: &str, earlier: Option<usize>)
    ensures
        crate::model::findings(final(errors)@) == crate::model::findings(old(errors)@)
            + name_findings(
            at@,
            name@,
            match earlier {
                Some(i) => Some(i as int),
                None => None,
            },
        ),
{
    let ghost start = crate::model::findings(errors@);
    let field = cat2(at, ".name");
    let first: usize = match earlier {
        Some(i) => i,
        None => 0,
    };
    let index = signed_string(first as i128);
    let repeated = cat5(
        "Duplicate signal name '",
        name,
        "' (first defined at index ",
        index.as_str(),
        ")",
    );
    flag(errors, earlier.is_some(), field.as_str(), repeated.as_str());
    // DBC-compat: max 32 chars, alphanumeric + underscore only.
    let length: u128 = byte_count(name);
    let chars = chars_of(name);
    let digits = signed_string(length as i128);
    let long = cat5(
        "Signal name '",
        name,
        "' exceeds DBC limit of 32 characters (",
        digits.as_str(),
        " chars)",
    );
    flag(errors, length > 32, field.as_str(), long.as_str());
    let odd = cat3(
        "Signal name '",
        name,
        "' contains invalid characters for DBC export (only A-Z, a-z, 0-9, _ allowed)",
    );
    flag(errors, !are_word(chars.as_slice()), field.as_str(), odd.as_str());
    assert(crate::model::findings(errors@) == start + name_findings(
        at@,
        name@,
        match earlier {
            Some(i) => Some(i as int),
            None => None,
        },
    ));
}

fn shown_number(t: &Tree) -> (r: String)
    ensures
        r@ == shown(t.node()),
{
    match t {
        Tree::Integer(i) => float_text(*i),
        Tree::Float { shown, .. } => owned(shown.as_str()),
        _ => {
            proof {
                reveal_strlit("");
            }
            let out = owned("");
            assert(out@ == Seq::<char>::empty());
            out
        },
    }
}

fn flag_range(errors: &mut Vec<ValidationError>, at: &str, t: &Tree, name: &str)
    ensures
        crate::model::findings(final(errors)@) == crate::model::findings(old(errors)@)
            + range_findings(at@, t.node(), name@),
{
    let ghost start = crate::model::findings(errors@);
    assert(start + Seq::<crate::model::FindingText>::empty() == start);
    let (low, high) = match (t.get("min"), t.get("max")) {
        (Some(low), Some(high)) => (low, high),
        _ => {
            return;
        },
    };
    let (min, max) = match (low.number(), high.number()) {
        (Some(min), Some(max)) => (min, max),
        _ => {
            return;
        },
    };
    let min_text = shown_number(low);
    let max_text = shown_number(high);
    let head = cat4("Signal '", name, "' has min (", min_text.as_str());
    let message = cat4(head.as_str(), ") greater than max (", max_text.as_str(), ")");
    flag(errors, is_greater(min, max), at, message.as_str());
}

fn flag_layout(errors: &mut Vec<ValidationError>, at: &str, t: &Tree, name: &str)
    ensures
        crate::model::findings(final(errors)@) == crate::model::findings(old(errors)@)
            + layout_findings(at@, t.node(), name@),
{
    let ghost start = crate::model::findings(errors@);
    let negative: bool = match t.integer_at("start_bit") {
        Some(b) => b < 0,
        None => false,
    };
    let start_field = cat2(at, ".start_bit");
    flag(errors, negative, start_field.as_str(), "start_bit must be non-negative");
    let no_start = cat3("Signal '", name, "' must have start_bit");
    flag(errors, t.get("start_bit").is_none(), at, no_start.as_str());
    let length: i64 = match t.integer_at("bit_length") {
        Some(b) => b,
        None => 0,
    };
    let odd_length: bool = match t.integer_at("bit_length") {
        Some(b) => !(1 <= b && b <= 64),
        None => false,
    };
    let length_field = cat2(at, ".bit_length");
    let digits = signed_string(length as i128);
    let length_text = cat3("bit_length ", digits.as_str(), " must be between 1 and 64");
    flag(errors, odd_length, length_field.as_str(), length_text.as_str());
    let no_length = cat3("Signal '", name, "' must have bit_length");
    flag(errors, t.get("bit_length").is_none(), at, no_length.as_str());
    let order_field = cat2(at, ".endianness");
    flag_order(errors, t.text_at("endianness"), order_field.as_str());
    flag_range(errors, at, t, name);
    assert(crate::model::findings(errors@) == start + layout_findings(at@, t.node(), name@));
}

proof fn lemma_appended_twice(
    start: Seq<crate::model::FindingText>,
    a: Seq<crate::model::FindingText>,
    b: Seq<crate::model::FindingText>,
)
    ensures
        start + a + b == start + (a + b),
{
}

fn validate_named(
    at: &str,
    name: &str,
    items: &Vec<Tree>,
    idx: usize,
    errors: &mut Vec<ValidationError>,
)
    requires
        idx < items@.len(),
    ensures
        crate::model::findings(final(errors)@) == crate::model::findings(old(errors)@)
            + named_findings(at@, name@, crate::value::item_views(items@), idx as int),
{
    let ghost start = crate::model::findings(errors@);
    let ghost all = crate::value::item_views(items@);
    let t = &items[idx];
    assert(all[idx as int] == t.node());
    let earlier: Option<usize> = find_named(items, name, idx);
    flag_name(errors, at, name, earlier);
    flag_layout(errors, at, t, name);
    proof {
        lemma_appended_twice(
            start,
            name_findings(at@, name@, first_named(all, name@, idx as int)),
            layout_findings(at@, t.node(), name@),
        );
    }
}

fn validate_signal(
    prefix: &str,
    items: &Vec<Tree>,
    idx: usize,
    errors: &mut Vec<ValidationError>,
)
    requires
        idx < items@.len(),
    ensures
        crate::model::findings(final(errors)@) == crate::model::findings(old(errors)@)
            + signal_findings(prefix@, crate::value::item_views(items@), idx as int),
{
    let ghost all = crate::value::item_views(items@);
    let t = &items[idx];
    assert(all[idx as int] == t.node());
    let index = signed_string(idx as i128);
    let at = cat4(prefix, ".signal[", index.as_str(), "]");
    if t.entries().is_none() {
        flag(errors, true, at.as_str(), "Signal must be a table");
        return;
    }
    let found = match t.get("name") {
        Some(found) => found,
        None => {
            flag(errors, true, at.as_str(), "Signal must have a name");
            return;
        },
    };
    let name = match found.text() {
        Some(name) => name,
        None => {
            let field = cat2(at.as_str(), ".name");
            flag(errors, true, field.as_str(), "Signal name must be a string");
            return;
        },
    };
    validate_named(at.as_str(), name, items, idx, errors);
}

fn validate_signals(prefix: &str, items: &Vec<Tree>, errors: &mut Vec<ValidationError>)
    ensures
        crate::model::findings(final(errors)@) == crate::model::findings(old(errors)@)
            + list_findings(prefix@, crate::value::item_views(items@), items@.len() as int),
{
    let ghost start = crate::model::findings(errors@);
    let ghost all = crate::value::item_views(items@);
    assert(start + Seq::<crate::model::FindingText>::empty() == start);
    for i in 0..items.len()
        invariant
            all == crate::value::item_views(items@),
            crate::model::findings(errors@) == start + list_findings(prefix@, all, i as int),
    {
        let ghost before = list_findings(prefix@, all, i as int);
        validate_signal(prefix, items, i, errors);
        assert(start + before + signal_findings(prefix@, all, i as int) == start + (before
            + signal_findings(prefix@, all, i as int)));
    }
}

// ---------------------------------------------------------------------------
// Multiplexers
// ---------------------------------------------------------------------------

/// The name a multiplexer goes by in findings.
pub open spec fn mux_name(n: crate::value::Node) -> Seq<char> {
    crate::model::or_else(n.text_at("name"@), "unknown"@)
}

/// What is found of a multiplexer's own fields.
pub open spec fn selector_findings(at: Seq<char>, n: crate::value::Node) -> Seq<
    crate::model::FindingText,
> {
    note(
        n.get("name"@) is Some && n.text_at("name"@) is None,
        at + ".name"@,
        "Mux name must be a string"@,
    ) + note(n.get("name"@) is None, at, "Mux must have a name"@) + note(
        n.get("start_bit"@) is None,
        at,
        "Mux '"@ + mux_name(n) + "' must have start_bit"@,
    ) + note(
        n.get("bit_length"@) is None,
        at,
        "Mux '"@ + mux_name(n) + "' must have bit_length"@,
    )
}

/// What is found of a multiplexer.
pub open spec fn mux_findings(prefix: Seq<char>, n: crate::value::Node) -> Seq<
    crate::model::FindingText,
>
    decreases n,
{
    let at = prefix + ".mux"@;
    match n {
        crate::value::Node::Table(entries) => selector_findings(at, n) + case_list_findings(
            at,
            entries,
        ),
        _ => note(true, at, "Mux must be a table"@),
    }
}

/// What is found of the cases among the entries of a multiplexer's table: those
/// whose key is an integer.
pub open spec fn case_list_findings(
    at: Seq<char>,
    entries: Seq<(Seq<char>, crate::value::Node)>,
) -> Seq<crate::model::FindingText>
    decreases entries,
{
    if entries.len() == 0 {
        Seq::empty()
    } else {
        let before = case_list_findings(at, entries.drop_last());
        let last = entries[entries.len() - 1];
        if crate::parse::is_reserved(last.0) || crate::value::key_integer(last.0) is None {
            before
        } else {
            before + case_findings(at + "."@ + last.0, last.1)
        }
    }
}

/// What is found of a case.
pub open spec fn case_findings(at: Seq<char>, n: crate::value::Node) -> Seq<
    crate::model::FindingText,
>
    decreases n,
{
    match n {
        crate::value::Node::Table(_) => {
            let items = crate::parse::items_of(n.get("signals"@));
            let own = list_findings(at, items, items.len() as int);
            match n.get("mux"@) {
                Some(m) => {
                    proof {
                        crate::parse::lemma_get_decreases(n, "mux"@);
                    }
                    own + mux_findings(at, m)
                },
                None => own,
            }
        },
        _ => Seq::empty(),
    }
}

fn is_integer_key(key: &str) -> (r: bool)
    ensures
        r == (crate::value::key_integer(key@) is Some),
{
    let chars = chars_of(key);
    parse_integer(
        chars.as_slice(),
        10,
        -0x8000_0000_0000_0000,
        0x7FFF_FFFF_FFFF_FFFF,
    ).is_some()
}

fn flag_selector(errors: &mut Vec<ValidationError>, at: &str, t: &Tree)
    ensures
        crate::model::findings(final(errors)@) == crate::model::findings(old(errors)@)
            + selector_findings(at@, t.node()),
{
    let ghost start = crate::model::findings(errors@);
    let named = t.get("name");
    let name: String = match t.owned_at("name") {
        Some(name) => name,
        None => owned("unknown"),
    };
    let field = cat2(at, ".name");
    flag(
        errors,
        named.is_some() && t.text_at("name").is_none(),
        field.as_str(),
        "Mux name must be a string",
    );
    flag(errors, named.is_none(), at, "Mux must have a name");
    let no_start = cat3("Mux '", name.as_str(), "' must have start_bit");
    flag(errors, t.get("start_bit").is_none(), at, no_start.as_str());
    let no_length = cat3("Mux '", name.as_str(), "' must have bit_length");
    flag(errors, t.get("bit_length").is_none(), at, no_length.as_str());
    assert(crate::model::findings(errors@) == start + selector_findings(at@, t.node()));
}

fn validate_case(at: &str, t: &Tree, errors: &mut Vec<ValidationError>)
    ensures
        crate::model::findings(final(errors)@) == crate::model::findings(old(errors)@)
            + case_findings(at@, t.node()),
    decreases t.node(),
{
    let ghost start = crate::model::findings(errors@);
    assert(start + Seq::<crate::model::FindingText>::empty() == start);
    if t.entries().is_none() {
        return;
    }
    if let Some(s) = t.get("signals") {
        if let Some(items) = s.items() {
            validate_signals(at, items, errors);
        }
    }
    let ghost items = crate::parse::items_of(t.node().get("signals"@));
    let ghost own = list_findings(at@, items, items.len() as int);
    assert(crate::model::findings(errors@) == start + own);
    if let Some(nested) = t.get("mux") {
        proof {
            crate::parse::lemma_get_decreases(t.node(), "mux"@);
        }
        validate_mux_object(at, nested, errors);
        assert(crate::model::findings(errors@) == start + (own + mux_findings(
            at@,
            nested.node(),
        )));
    }
}

fn validate_mux_object(prefix: &str, t: &Tree, errors: &mut Vec<ValidationError>)
    ensures
        crate::model::findings(final(errors)@) == crate::model::findings(old(errors)@)
            + mux_findings(prefix@, t.node()),
    decreases t.node(),
{
    let ghost start = crate::model::findings(errors@);
    let at = cat2(prefix, ".mux");
    let entries = match t.entries() {
        Some(entries) => entries,
        None => {
            flag(errors, true, at.as_str(), "Mux must be a table");
            return;
        },
    };
    flag_selector(errors, at.as_str(), t);
    let ghost head = start + selector_findings(at@, t.node());
    let ghost all = crate::value::entry_views(entries@);
    assert(head + Seq::<crate::model::FindingText>::empty() == head);
    for i in 0..entries.len()
        invariant
            all == crate::value::entry_views(entries@),
            t.node() == crate::value::Node::Table(all),
            crate::model::findings(errors@) == head + case_list_findings(at@, all.take(i as int)),
    {
        let ghost before = case_list_findings(at@, all.take(i as int));
        let ghost e = all[i as int];
        assert(e == (entries@[i as int].0@, entries@[i as int].1.node()));
        assert(all.take(i + 1).drop_last() == all.take(i as int));
        assert(all.take(i + 1)[i as int] == e);
        let key = entries[i].0.as_str();
        if !crate::parse::is_reserved_key(key) && is_integer_key(key) {
            proof {
                assert(decreases_to!(t.node() => t.node()->Table_0));
                assert(decreases_to!(all => all[i as int]));
                assert(decreases_to!(all[i as int] => all[i as int].1));
            }
            let case_at = cat3(at.as_str(), ".", key);
            validate_case(case_at.as_str(), &entries[i].1, errors);
            assert(head + before + case_findings(case_at@, e.1) == head + (before + case_findings(
                case_at@,
                e.1,
            )));
        }
    }
    assert(all.take(all.len() as int) == all);
    assert(head + case_list_findings(at@, all) == start + (selector_findings(at@, t.node())
        + case_list_findings(at@, all)));
}

// ---------------------------------------------------------------------------
// CAN frames
// ---------------------------------------------------------------------------

/// What is found of a tunnel.
pub open spec fn tunnel_findings(prefix: Seq<char>, n: crate::value::Node) -> Seq<
    crate::model::FindingText,
> {
    let at = prefix + ".tunnel"@;
    match n {
        crate::value::Node::Table(_) => {
            let protocol = n.text_at("protocol"@);
            note(
                protocol is Some && protocol != Some("modbus_rtu"@),
                at + ".protocol"@,
                "Unknown tunnel protocol '"@ + crate::model::or_else(protocol, Seq::empty())
                    + "' (expected 'modbus_rtu')"@,
            ) + note(
                protocol is None,
                at + ".protocol"@,
                "Tunnel requires a protocol (expected 'modbus_rtu')"@,
            ) + note(
                n.integer_at("device_address"@) matches Some(a) && !(1 <= a <= 247),
                at + ".device_address"@,
                "Device address "@ + crate::text::signed_decimal(
                    crate::model::or_else(n.integer_at("device_address"@), 0) as int,
                ) + " must be between 1 and 247"@,
            )
        },
        _ => note(true, at, "Tunnel definition must be a table"@),
    }
}

/// A `[frame.can.<id>.tunnel]` declaration. The parser drops a tunnel it can't
/// understand rather than failing the file, so a typo would otherwise decode as
/// silence — these are the findings that say why.
fn validate_tunnel(prefix: &str, t: &Tree, errors: &mut Vec<ValidationError>)
    ensures
        crate::model::findings(final(errors)@) == crate::model::findings(old(errors)@)
            + tunnel_findings(prefix@, t.node()),
{
    let ghost start = crate::model::findings(errors@);
    let at = cat2(prefix, ".tunnel");
    if t.entries().is_none() {
        flag(errors, true, at.as_str(), "Tunnel definition must be a table");
        return;
    }
    let protocol = t.text_at("protocol");
    let (unknown, name): (bool, &str) = match protocol {
        Some(p) => (!str_eq(p, "modbus_rtu"), p),
        None => (false, ""),
    };
    proof {
        reveal_strlit("");
        assert(""@ == Seq::<char>::empty());
    }
    let protocol_field = cat2(at.as_str(), ".protocol");
    let message = cat3("Unknown tunnel protocol '", name, "' (expected 'modbus_rtu')");
    flag(errors, unknown, protocol_field.as_str(), message.as_str());
    flag(
        errors,
        protocol.is_none(),
        protocol_field.as_str(),
        "Tunnel requires a protocol (expected 'modbus_rtu')",
    );
    let address: i64 = match t.integer_at("device_address") {
        Some(a) => a,
        None => 0,
    };
    let odd: bool = match t.integer_at("device_address") {
        Some(a) => !(1 <= a && a <= 247),
        None => false,
    };
    let address_field = cat2(at.as_str(), ".device_address");
    let digits = signed_string(address as i128);
    let address_text = cat3("Device address ", digits.as_str(), " must be between 1 and 247");
    flag(errors, odd, address_field.as_str(), address_text.as_str());
    assert(crate::model::findings(errors@) == start + tunnel_findings(prefix@, t.node()));
}

/// The signal tables of a frame, under the older `signal` or under `signals`.
pub open spec fn declared_signals(n: crate::value::Node) -> Seq<crate::value::Node> {
    crate::parse::items_of(crate::header::first_of(n.get("signal"@), n.get("signals"@)))
}

/// What is found of the part of a frame under a key.
pub open spec fn part_findings(
    n: Option<crate::value::Node>,
    f: spec_fn(crate::value::Node) -> Seq<crate::model::FindingText>,
) -> Seq<crate::model::FindingText> {
    match n {
        Some(n) => f(n),
        None => Seq::empty(),
    }
}

/// What is found of a CAN frame.
pub open spec fn can_frame_findings(id: Seq<char>, n: crate::value::Node) -> Seq<
    crate::model::FindingText,
> {
    let prefix = "frame.can."@ + id;
    match n {
        crate::value::Node::Table(_) => note(
            n.integer_at("length"@) matches Some(l) && !(0 <= l <= 64),
            prefix + ".length"@,
            "Length "@ + crate::text::signed_decimal(
                crate::model::or_else(n.integer_at("length"@), 0) as int,
            ) + " must be between 0 and 64"@,
        ) + list_findings(
            prefix,
            declared_signals(n),
            declared_signals(n).len() as int,
        ) + part_findings(
            n.get("mux"@),
            |m: crate::value::Node| mux_findings(prefix, m),
        ) + part_findings(
            n.get("tunnel"@),
            |t: crate::value::Node| tunnel_findings(prefix, t),
        ),
        _ => note(true, prefix, "Frame definition must be a table"@),
    }
}

#[verifier::spinoff_prover]
#[verifier::rlimit(60)]
fn validate_can_frame(frame_id: &str, t: &Tree, errors: &mut Vec<ValidationError>)
    ensures
        crate::model::findings(final(errors)@) == crate::model::findings(old(errors)@)
            + can_frame_findings(frame_id@, t.node()),
{
    let ghost start = crate::model::findings(errors@);
    let prefix = cat2("frame.can.", frame_id);
    if t.entries().is_none() {
        flag(errors, true, prefix.as_str(), "Frame definition must be a table");
        return;
    }
    let length: i64 = match t.integer_at("length") {
        Some(l) => l,
        None => 0,
    };
    let odd: bool = match t.integer_at("length") {
        Some(l) => !(0 <= l && l <= 64),
        None => false,
    };
    let field = cat2(prefix.as_str(), ".length");
    let digits = signed_string(length as i128);
    let message = cat3("Length ", digits.as_str(), " must be between 0 and 64");
    flag(errors, odd, field.as_str(), message.as_str());
    let ghost first = crate::model::findings(errors@);
    // signals: accept both the legacy `signal` and the current `signals` key.
    let signals = match t.get("signal") {
        Some(s) => Some(s),
        None => t.get("signals"),
    };
    if let Some(s) = signals {
        if let Some(items) = s.items() {
            validate_signals(prefix.as_str(), items, errors);
        }
    }
    let ghost listed = list_findings(
        prefix@,
        declared_signals(t.node()),
        declared_signals(t.node()).len() as int,
    );
    assert(crate::model::findings(errors@) == first + listed);
    if let Some(mux) = t.get("mux") {
        validate_mux_object(prefix.as_str(), mux, errors);
    }
    let ghost muxed = part_findings(
        t.node().get("mux"@),
        |m: crate::value::Node| mux_findings(prefix@, m),
    );
    assert(crate::model::findings(errors@) == first + listed + muxed);
    if let Some(tunnel) = t.get("tunnel") {
        validate_tunnel(prefix.as_str(), tunnel, errors);
    }
    let ghost tunnelled = part_findings(
        t.node().get("tunnel"@),
        |t: crate::value::Node| tunnel_findings(prefix@, t),
    );
    assert(crate::model::findings(errors@) == first + listed + muxed + tunnelled);
    assert(crate::model::findings(errors@) == start + can_frame_findings(frame_id@, t.node()));
}

/// What is found of the CAN frames among the entries of a section.
pub open spec fn can_list_findings(entries: Seq<(Seq<char>, crate::value::Node)>) -> Seq<
    crate::model::FindingText,
>
    decreases entries.len(),
{
    if entries.len() == 0 {
        Seq::empty()
    } else {
        let before = can_list_findings(entries.drop_last());
        if entries.last().0 == "config"@ {
            before
        } else {
            before + can_frame_findings(entries.last().0, entries.last().1)
        }
    }
}

fn validate_can_frames(section: Option<&Tree>, errors: &mut Vec<ValidationError>)
    ensures
        crate::model::findings(final(errors)@) == crate::model::findings(old(errors)@)
            + can_list_findings(crate::catalog::entries_of(crate::value::opt_node(section))),
{
    let ghost start = crate::model::findings(errors@);
    assert(start + Seq::<crate::model::FindingText>::empty() == start);
    let t = match section {
        Some(t) => t,
        None => {
            return;
        },
    };
    let entries = match t.entries() {
        Some(entries) => entries,
        None => {
            return;
        },
    };
    let ghost all = crate::value::entry_views(entries@);
    for i in 0..entries.len()
        invariant
            all == crate::value::entry_views(entries@),
            crate::model::findings(errors@) == start + can_list_findings(all.take(i as int)),
    {
        let ghost before = can_list_findings(all.take(i as int));
        let ghost e = all[i as int];
        assert(e == (entries@[i as int].0@, entries@[i as int].1.node()));
        assert(all.take(i + 1).drop_last() == all.take(i as int));
        assert(all.take(i + 1).last() == e);
        let key = entries[i].0.as_str();
        if !str_eq(key, "config") {
            validate_can_frame(key, &entries[i].1, errors);
            assert(start + before + can_frame_findings(e.0, e.1) == start + (before
                + can_frame_findings(e.0, e.1)));
        }
    }
    assert(all.take(all.len() as int) == all);
}

// ---------------------------------------------------------------------------
// Documents
// ---------------------------------------------------------------------------

/// What is found of the Modbus section: the first frame without a register.
pub open spec fn modbus_findings(root: crate::value::Node) -> Seq<crate::model::FindingText> {
    if crate::parse::frame_part(root, "modbus"@) is None {
        Seq::empty()
    } else {
        match crate::manifest::manifest_of(root) {
            Err(crate::manifest::ManifestFault::BadRegister(name)) => note(
                true,
                "frame.modbus."@ + name,
                "frame '"@ + name
                    + "' has no register_number and its name is not a register address (decimal or 0x-hex)"@,
            ),
            _ => Seq::empty(),
        }
    }
}

/// Whether a section names an encoding.
pub open spec fn names_encoding(n: Option<crate::value::Node>) -> bool {
    match n {
        Some(n) => n.text_at("encoding"@) matches Some(e) && e.len() > 0,
        None => false,
    }
}

/// What is found of the serial section: frames without an encoding.
pub open spec fn serial_findings(root: crate::value::Node) -> Seq<crate::model::FindingText> {
    let section = crate::parse::frame_part(root, "serial"@);
    note(
        crate::catalog::has_frames(section) && !names_encoding(
            crate::parse::meta_part(root, "serial"@),
        ) && !names_encoding(crate::value::under(section, "config"@)),
        "frame.serial.config.encoding"@,
        "Encoding is required when serial frames exist. Add [frame.serial.config] with encoding = \"slip\", \"cobs\", \"raw\", or \"length_prefixed\"."@,
    )
}

/// What is found in a document.
pub open spec fn document_findings(root: crate::value::Node) -> Seq<crate::model::FindingText> {
    match root {
        crate::value::Node::Table(_) => meta_findings(root) + can_list_findings(
            crate::catalog::entries_of(crate::parse::frame_part(root, "can"@)),
        ) + modbus_findings(root) + serial_findings(root),
        _ => note(true, "toml"@, "Catalog must be a TOML table"@),
    }
}

/// What is found in a text.
pub open spec fn text_findings(text: Seq<char>) -> Seq<crate::model::FindingText> {
    match crate::value::toml_document(text) {
        Ok(root) => document_findings(root),
        Err(message) => note(true, "toml"@, "TOML syntax error: "@ + message),
    }
}

fn validate_modbus(root: &Tree, errors: &mut Vec<ValidationError>)
    ensures
        crate::model::findings(final(errors)@) == crate::model::findings(old(errors)@)
            + modbus_findings(root.node()),
{
    let ghost start = crate::model::findings(errors@);
    assert(start + Seq::<crate::model::FindingText>::empty() == start);
    if child(root.get("frame"), "modbus").is_none() {
        return;
    }
    if let Err(ManifestError::BadRegister(name)) = ModbusManifest::from_tree(root) {
        let field = cat2("frame.modbus.", name.as_str());
        let message = cat3(
            "frame '",
            name.as_str(),
            "' has no register_number and its name is not a register address (decimal or 0x-hex)",
        );
        flag(errors, true, field.as_str(), message.as_str());
    }
}

fn has_encoding(t: Option<&Tree>) -> (r: bool)
    ensures
        r == names_encoding(crate::value::opt_node(t)),
{
    match t {
        Some(t) => match t.text_at("encoding") {
            Some(e) => chars_of(e).len() > 0,
            None => false,
        },
        None => false,
    }
}

/// Serial frames require an encoding (declared in `[meta.serial]` or the legacy
/// `[frame.serial.config]`).
fn validate_serial_encoding(root: &Tree, errors: &mut Vec<ValidationError>)
    ensures
        crate::model::findings(final(errors)@) == crate::model::findings(old(errors)@)
            + serial_findings(root.node()),
{
    let section = child(root.get("frame"), "serial");
    let missing: bool = crate::catalog::has_any_frame(section) && !has_encoding(
        child(root.get("meta"), "serial"),
    ) && !has_encoding(child(section, "config"));
    flag(
        errors,
        missing,
        "frame.serial.config.encoding",
        "Encoding is required when serial frames exist. Add [frame.serial.config] with encoding = \"slip\", \"cobs\", \"raw\", or \"length_prefixed\".",
    );
}

/// Validate a parsed document. Returns all findings (empty = valid).
pub fn validate_document(root: &Tree) -> (r: Vec<ValidationError>)
    ensures
        crate::model::findings(r@) == document_findings(root.node()),
{
    let mut errors: Vec<ValidationError> = Vec::new();
    assert(crate::model::findings(errors@) == Seq::<crate::model::FindingText>::empty());
    if root.entries().is_none() {
        flag(&mut errors, true, "toml", "Catalog must be a TOML table");
        assert(crate::model::findings(errors@) == document_findings(root.node()));
        return errors;
    }
    validate_meta(root, &mut errors);
    validate_can_frames(child(root.get("frame"), "can"), &mut errors);
    // Modbus structural check (register resolution / shorthands).
    validate_modbus(root, &mut errors);
    validate_serial_encoding(root, &mut errors);
    assert(crate::model::findings(errors@) == document_findings(root.node()));
    errors
}

/// Validate catalogue TOML. Returns all findings (empty = valid). A TOML
/// syntax error yields a single `toml`-field error.
pub fn validate(content: &str) -> (r: Vec<ValidationError>)
    ensures
        crate::model::findings(r@) == text_findings(content@),
{
    match parse_document(content) {
        Ok(root) => validate_document(&root),
        Err(reason) => {
            let mut errors: Vec<ValidationError> = Vec::new();
            assert(crate::model::findings(errors@) == Seq::<crate::model::FindingText>::empty());
            let message = cat2("TOML syntax error: ", reason.as_str());
            flag(&mut errors, true, "toml", message.as_str());
            assert(crate::model::findings(errors@) == text_findings(content@));
            errors
        },
    }
}

// ---------------------------------------------------------------------------
// Laws
// ---------------------------------------------------------------------------

/// Whether a character is a letter, a digit or an underscore.
pub open spec fn is_name_char(c: char) -> bool {
    'a' <= c <= 'z' || 'A' <= c <= 'Z' || '0' <= c <= '9' || c == '_'
}

/// Whether nothing is wrong with one of a list of signals: it is a table with a name of
/// at most 32 name characters that no signal before it has, it holds a start bit, which
/// is not negative, and a length, which is between 1 and 64, its byte order is one of
/// the two, and its range is not upside down.
pub open spec fn is_fine_signal(items: Seq<crate::value::Node>, idx: int) -> bool {
    let n = items[idx];
    &&& n is Table
    &&& n.get("name"@) matches Some(crate::value::Node::Text(name))
    &&& name.len() <= 32
    &&& forall|i: int| 0 <= i < name.len() ==> is_name_char(#[trigger] name[i])
    &&& forall|j: int|
        0 <= j < idx ==> (#[trigger] items[j]).get("name"@) != Some(
            crate::value::Node::Text(name),
        )
    &&& n.get("start_bit"@) is Some
    &&& n.get("start_bit"@) matches Some(crate::value::Node::Integer(b)) ==> b >= 0
    &&& n.get("bit_length"@) is Some
    &&& n.get("bit_length"@) matches Some(crate::value::Node::Integer(b)) ==> 1 <= b <= 64
    &&& n.get("endianness"@) matches Some(crate::value::Node::Text(order)) ==> order == "little"@
        || order == "big"@
    &&& (n.number_at("min"@) matches Some(min) ==> (n.number_at("max"@) matches Some(max)
        ==> !crate::number::exceeds(min, max)))
}

/// Whether nothing is wrong with a list of signals.
pub open spec fn are_fine_signals(items: Seq<crate::value::Node>) -> bool {
    forall|i: int| 0 <= i < items.len() ==> #[trigger] is_fine_signal(items, i)
}

proof fn lemma_word_bytes(name: Seq<char>)
    ensures
        crate::text::all_word(name) <==> forall|i: int|
            0 <= i < name.len() ==> is_name_char(#[trigger] name[i]),
        crate::text::all_word(name) ==> crate::text::byte_length(name) == name.len(),
    decreases name.len(),
{
    if name.len() > 0 {
        lemma_word_bytes(name.drop_last());
        assert(forall|i: int| 0 <= i < name.len() - 1 ==> name.drop_last()[i] == #[trigger] name[i]);
        if crate::text::all_word(name) {
            assert(crate::text::all_word(name.drop_last()));
            assert(crate::text::is_word(name[name.len() - 1]));
        }
    }
}

proof fn lemma_first_named(items: Seq<crate::value::Node>, name: Seq<char>, end: int)
    requires
        0 <= end <= items.len(),
    ensures
        first_named(items, name, end) is None <==> forall|j: int|
            0 <= j < end ==> (#[trigger] items[j]).get("name"@) != Some(
                crate::value::Node::Text(name),
            ),
    decreases end,
{
    if end > 0 {
        lemma_first_named(items, name, end - 1);
        let n = items[end - 1];
        assert(signal_name(n) == Some(name) <==> n.get("name"@) == Some(
            crate::value::Node::Text(name),
        ));
    }
}

/// Nothing is found of a signal if and only if nothing is wrong with it.
pub proof fn law_fine_signals_pass(prefix: Seq<char>, items: Seq<crate::value::Node>, idx: int)
    requires
        0 <= idx < items.len(),
    ensures
        signal_findings(prefix, items, idx).len() == 0 <==> is_fine_signal(items, idx),
{
    let n = items[idx];
    if let Some(crate::value::Node::Text(name)) = n.get("name"@) {
        lemma_word_bytes(name);
        lemma_first_named(items, name, idx);
    }
}

/// Nothing is found of a list of signals if and only if nothing is wrong with any.
pub proof fn law_fine_lists_pass(prefix: Seq<char>, items: Seq<crate::value::Node>, count: int)
    requires
        0 <= count <= items.len(),
    ensures
        list_findings(prefix, items, count).len() == 0 <==> forall|i: int|
            0 <= i < count ==> #[trigger] is_fine_signal(items, i),
    decreases count,
{
    if count > 0 {
        law_fine_lists_pass(prefix, items, count - 1);
        law_fine_signals_pass(prefix, items, count - 1);
    }
}

/// Whether an entry of a multiplexer's table is a case: its key is an integer.
pub open spec fn is_case_entry(e: (Seq<char>, crate::value::Node)) -> bool {
    crate::text::within(
        crate::text::integer(e.0, 10),
        i64::MIN as int,
        i64::MAX as int,
    ) is Some && e.0 != "name"@ && e.0 != "start_bit"@ && e.0 != "bit_length"@ && e.0 != "default"@
}

/// Whether nothing is wrong with a case of a multiplexer.
pub open spec fn is_fine_case(at: Seq<char>, e: (Seq<char>, crate::value::Node)) -> bool {
    e.1 is Table ==> {
        &&& (e.1.get("signals"@) matches Some(crate::value::Node::Array(items))
            ==> are_fine_signals(items))
        &&& (e.1.get("mux"@) matches Some(m) ==> mux_findings(at + "."@ + e.0, m).len() == 0)
    }
}

proof fn lemma_fine_cases(at: Seq<char>, entries: Seq<(Seq<char>, crate::value::Node)>)
    ensures
        case_list_findings(at, entries).len() == 0 <==> forall|i: int|
            0 <= i < entries.len() && is_case_entry(#[trigger] entries[i]) ==> is_fine_case(
                at,
                entries[i],
            ),
    decreases entries.len(),
{
    if entries.len() > 0 {
        let front = entries.drop_last();
        lemma_fine_cases(at, front);
        assert(forall|i: int| 0 <= i < front.len() ==> front[i] == #[trigger] entries[i]);
        let e = entries[entries.len() - 1];
        if e.1 is Table {
            let items = crate::parse::items_of(e.1.get("signals"@));
            law_fine_lists_pass(at + "."@ + e.0, items, items.len() as int);
        }
        assert(is_case_entry(e) <==> !(crate::parse::is_reserved(e.0)
            || crate::value::key_integer(e.0) is None));
        assert(case_findings(at + "."@ + e.0, e.1).len() == 0 <==> is_fine_case(at, e));
        if case_list_findings(at, entries).len() == 0 {
            assert forall|i: int|
                0 <= i < entries.len() && is_case_entry(#[trigger] entries[i]) implies is_fine_case(
                at,
                entries[i],
            ) by {
                if i < front.len() {
                    assert(front[i] == entries[i]);
                }
            }
        } else if case_list_findings(at, front).len() != 0 {
            let i = choose|i: int|
                0 <= i < front.len() && is_case_entry(#[trigger] front[i]) && !is_fine_case(
                    at,
                    front[i],
                );
            assert(entries[i] == front[i]);
        }
    }
}

/// Nothing is found of a multiplexer if and only if it is a table with a name, a text,
/// a start bit and a length, and nothing is found of the signals and the multiplexer of
/// any of its cases.
pub proof fn law_fine_multiplexers_pass(prefix: Seq<char>, n: crate::value::Node)
    ensures
        mux_findings(prefix, n).len() == 0 <==> {
            &&& n matches crate::value::Node::Table(entries)
            &&& n.get("name"@) matches Some(crate::value::Node::Text(_))
            &&& n.get("start_bit"@) is Some
            &&& n.get("bit_length"@) is Some
            &&& forall|i: int|
                0 <= i < entries.len() && is_case_entry(#[trigger] entries[i]) ==> is_fine_case(
                    prefix + ".mux"@,
                    entries[i],
                )
        },
{
    if let crate::value::Node::Table(entries) = n {
        lemma_fine_cases(prefix + ".mux"@, entries);
    }
}

/// Nothing is found of a tunnel if and only if it is a table whose protocol is the text
/// `modbus_rtu` and whose device address, where it is an integer, is between 1 and 247.
pub proof fn law_fine_tunnels_pass(prefix: Seq<char>, n: crate::value::Node)
    ensures
        tunnel_findings(prefix, n).len() == 0 <==> {
            &&& n is Table
            &&& n.get("protocol"@) == Some(crate::value::Node::Text("modbus_rtu"@))
            &&& n.get("device_address"@) matches Some(crate::value::Node::Integer(a)) ==> 1 <= a
                <= 247
        },
{
}

/// Whether nothing is wrong with a CAN frame: it is a table whose length, where it is an
/// integer, is between 0 and 64, and nothing is wrong with its signals, its multiplexer
/// and its tunnel.
pub open spec fn is_fine_can_frame(id: Seq<char>, n: crate::value::Node) -> bool {
    let signals = if n.get("signal"@) is Some {
        n.get("signal"@)
    } else {
        n.get("signals"@)
    };
    &&& n is Table
    &&& n.get("length"@) matches Some(crate::value::Node::Integer(l)) ==> 0 <= l <= 64
    &&& (signals matches Some(crate::value::Node::Array(items)) ==> are_fine_signals(items))
    &&& (n.get("mux"@) matches Some(m) ==> mux_findings("frame.can."@ + id, m).len() == 0)
    &&& (n.get("tunnel"@) matches Some(t) ==> tunnel_findings("frame.can."@ + id, t).len() == 0)
}

proof fn lemma_fine_can_frame(id: Seq<char>, n: crate::value::Node)
    ensures
        can_frame_findings(id, n).len() == 0 <==> is_fine_can_frame(id, n),
{
    law_fine_lists_pass("frame.can."@ + id, declared_signals(n), declared_signals(n).len() as int);
}

proof fn lemma_fine_can_frames(entries: Seq<(Seq<char>, crate::value::Node)>)
    ensures
        can_list_findings(entries).len() == 0 <==> forall|i: int|
            0 <= i < entries.len() && (#[trigger] entries[i]).0 != "config"@ ==> is_fine_can_frame(
                entries[i].0,
                entries[i].1,
            ),
    decreases entries.len(),
{
    if entries.len() > 0 {
        let front = entries.drop_last();
        let e = entries.last();
        lemma_fine_can_frames(front);
        lemma_fine_can_frame(e.0, e.1);
        assert(forall|i: int| 0 <= i < front.len() ==> front[i] == #[trigger] entries[i]);
        if can_list_findings(entries).len() != 0 && can_list_findings(front).len() != 0 {
            let i = choose|i: int|
                0 <= i < front.len() && (#[trigger] front[i]).0 != "config"@ && !is_fine_can_frame(
                    front[i].0,
                    front[i].1,
                );
            assert(entries[i] == front[i]);
        }
    }
}

/// What a document holds under two keys, one inside the other.
pub open spec fn at_two(
    root: crate::value::Node,
    outer: Seq<char>,
    inner: Seq<char>,
) -> Option<crate::value::Node> {
    match root.get(outer) {
        Some(n) => n.get(inner),
        None => None,
    }
}

/// Nothing is found in a document if and only if it is a table with a table `[meta]`
/// that holds a name, no version below 1 and no odd byte order, nothing is wrong with any
/// of its CAN frames, every Modbus frame has a register, and serial frames come with an
/// encoding.
pub proof fn law_fine_documents_pass(root: crate::value::Node)
    ensures
        document_findings(root).len() == 0 <==> {
            &&& root is Table
            &&& root.get("meta"@) matches Some(meta)
            &&& meta is Table
            &&& meta.get("name"@) is Some
            &&& meta.get("version"@) matches Some(crate::value::Node::Integer(v)) ==> v >= 1
            &&& meta.get("default_endianness"@) matches Some(crate::value::Node::Text(order))
                ==> order == "little"@ || order == "big"@
            &&& (at_two(root, "frame"@, "can"@) matches Some(crate::value::Node::Table(frames))
                ==> forall|i: int|
                0 <= i < frames.len() && (#[trigger] frames[i]).0 != "config"@
                    ==> is_fine_can_frame(frames[i].0, frames[i].1))
            &&& (at_two(root, "frame"@, "modbus"@) is Some ==> !(crate::manifest::manifest_of(
                root,
            ) matches Err(crate::manifest::ManifestFault::BadRegister(_))))
            &&& serial_findings(root).len() == 0
        },
{
    lemma_fine_can_frames(crate::catalog::entries_of(crate::parse::frame_part(root, "can"@)));
    assert(crate::parse::frame_part(root, "can"@) == at_two(root, "frame"@, "can"@));
    assert(crate::parse::frame_part(root, "modbus"@) == at_two(root, "frame"@, "modbus"@));
}

/// Where nothing is found in a text, it is a document in which nothing is found: each
/// signal table of each CAN frame holds a name, a start bit that is not negative and a
/// length between 1 and 64.
pub proof fn law_passed_texts_lay_out_their_signals(text: Seq<char>, i: int, j: int)
    requires
        text_findings(text).len() == 0,
    ensures
        crate::value::toml_document(text) matches Ok(root) && (at_two(root, "frame"@, "can"@) matches Some(
            crate::value::Node::Table(frames),
        ) ==> 0 <= i < frames.len() && frames[i].0 != "config"@ ==> {
            let frame = frames[i].1;
            frame.get("signal"@) is None ==> (frame.get("signals"@) matches Some(
                crate::value::Node::Array(items),
            ) ==> 0 <= j < items.len() ==> {
                &&& items[j].get("name"@) matches Some(crate::value::Node::Text(_))
                &&& items[j].get("start_bit"@) is Some
                &&& items[j].get("bit_length"@) is Some
                &&& items[j].get("start_bit"@) matches Some(crate::value::Node::Integer(b)) ==> b
                    >= 0
                &&& items[j].get("bit_length"@) matches Some(crate::value::Node::Integer(b)) ==> 1
                    <= b <= 64
            })
        }),
{
    let root = crate::value::toml_document(text)->Ok_0;
    law_fine_documents_pass(root);
    if let Some(crate::value::Node::Table(frames)) = at_two(root, "frame"@, "can"@) {
        if 0 <= i < frames.len() && frames[i].0 != "config"@ {
            assert(is_fine_can_frame(frames[i].0, frames[i].1));
            if let Some(crate::value::Node::Array(items)) = frames[i].1.get("signals"@) {
                if 0 <= j < items.len() && frames[i].1.get("signal"@) is None {
                    assert(is_fine_signal(items, j));
                }
            }
        }
    }
}

} // verus!
