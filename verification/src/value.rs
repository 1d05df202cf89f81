//! The tree of values a TOML catalogue parses into, and typed access to it.

use crate::bits::DecimalValue;
use crate::text::{owned, str_eq};
use rust_decimal::prelude::FromPrimitive;
use rust_decimal::Decimal;
use toml::Value;
use vstd::prelude::*;

verus! {

/// A number as a catalogue writes it. A float keeps its bit pattern, and the
/// decimal it reads as.
#[derive(Debug, Clone, Copy, PartialEq, Eq, Structural)]
pub enum Number {
    Integer(i64),
    Float { bits: u64, decimal: DecimalValue },
}

impl Number {
    /// The decimal a number reads as; zero for a float without one.
    pub open spec fn as_decimal(self) -> DecimalValue {
        match self {
            Number::Integer(i) => DecimalValue { mantissa: i as i128, scale: 0 },
            Number::Float { decimal, .. } => if decimal.wf() {
                decimal
            } else {
                DecimalValue { mantissa: 0, scale: 0 }
            },
        }
    }

    /// The decimal this number reads as.
    pub fn decimal(self) -> (r: DecimalValue)
        ensures
            r == self.as_decimal(),
            r.wf(),
    {
        match self {
            Number::Integer(i) => DecimalValue { mantissa: i as i128, scale: 0 },
            Number::Float { decimal, .. } => if decimal.scale <= crate::bits::MAX_SCALE
                && -0x1_0000_0000_0000_0000_0000_0000 < decimal.mantissa && decimal.mantissa
                < 0x1_0000_0000_0000_0000_0000_0000 {
                decimal
            } else {
                DecimalValue { mantissa: 0, scale: 0 }
            },
        }
    }
}

/// The decimal an optional number reads as.
pub open spec fn opt_decimal(n: Option<Number>) -> Option<DecimalValue> {
    match n {
        Some(n) => Some(n.as_decimal()),
        None => None,
    }
}

/// The decimal an optional number reads as.
pub fn decimal_at(n: Option<Number>) -> (r: Option<DecimalValue>)
    ensures
        r == opt_decimal(n),
        r matches Some(d) ==> d.wf(),
{
    match n {
        Some(n) => Some(n.decimal()),
        None => None,
    }
}

/// One value of a catalogue document.
#[derive(Debug)]
pub enum Tree {
    Text(String),
    Integer(i64),
    /// A float by its bit pattern, the decimal it reads as, and its plain text.
    Float { bits: u64, decimal: DecimalValue, shown: String },
    Boolean(bool),
    /// A date or time, by its text.
    Datetime(String),
    Array(Vec<Tree>),
    Table(Vec<(String, Tree)>),
}

/// A value of a catalogue document, as a mathematical value.
#[verifier::ext_equal]
pub enum Node {
    Text(Seq<char>),
    Integer(i64),
    Float { bits: u64, decimal: DecimalValue, shown: Seq<char> },
    Boolean(bool),
    Datetime(Seq<char>),
    Array(Seq<Node>),
    Table(Seq<(Seq<char>, Node)>),
}

impl Tree {
    /// The value, as a mathematical value.
    pub open spec fn node(self) -> Node
        decreases self,
    {
        match self {
            Tree::Text(s) => Node::Text(s@),
            Tree::Integer(i) => Node::Integer(i),
            Tree::Float { bits, decimal, shown } => Node::Float { bits, decimal, shown: shown@ },
            Tree::Boolean(b) => Node::Boolean(b),
            Tree::Datetime(s) => Node::Datetime(s@),
            Tree::Array(items) => Node::Array(
                Seq::new(
                    items@.len(),
                    |i: int|
                        if 0 <= i < items@.len() {
                            items@[i].node()
                        } else {
                            Node::Boolean(false)
                        },
                ),
            ),
            Tree::Table(entries) => Node::Table(
                Seq::new(
                    entries@.len(),
                    |i: int|
                        if 0 <= i < entries@.len() {
                            (entries@[i].0@, entries@[i].1.node())
                        } else {
                            (Seq::empty(), Node::Boolean(false))
                        },
                ),
            ),
        }
    }
}

/// A value of the outside TOML parser.
#[verifier::external_type_specification]
#[verifier::external_body]
pub struct ExTomlValue(toml::Value);

/// The tree a value of the outside TOML parser holds.
pub uninterp spec fn toml_tree(value: toml::Value) -> Node;

/// What the outside TOML parser makes of a text: the tree of the document, or
/// the message of its error.
pub uninterp spec fn toml_document(text: Seq<char>) -> Result<Node, Seq<char>>;

/// The decimal that `rust_decimal` reads a float as, by its bit pattern; zero where
/// it has none.
pub uninterp spec fn decimal_of_bits(bits: u64) -> DecimalValue;

/// The plain text of a float, by its bit pattern.
pub uninterp spec fn text_of_bits(bits: u64) -> Seq<char>;

/// Whether each float of a tree comes with the decimal and the text of its bit pattern.
pub open spec fn reads_floats(n: Node) -> bool
    decreases n,
{
    match n {
        Node::Float { bits, decimal, shown } => decimal == decimal_of_bits(bits) && shown
            == text_of_bits(bits),
        Node::Array(items) => forall|i: int|
            0 <= i < items.len() ==> #[trigger] reads_floats(items[i]),
        Node::Table(entries) => forall|i: int|
            0 <= i < entries.len() ==> #[trigger] reads_floats(entries[i].1),
        _ => true,
    }
}

/// A parse of the outside TOML parser, by the tree or the message.
pub open spec fn document_of(r: Result<toml::Value, String>) -> Result<Node, Seq<char>> {
    match r {
        Ok(value) => Ok(toml_tree(value)),
        Err(message) => Err(message@),
    }
}

/// `toml::from_str` into a `toml::Value`, with the text of its error: the result
/// is a function of the text alone.
#[verifier::external_body]
fn parse_toml(text: &str) -> (r: Result<toml::Value, String>)
    ensures
        document_of(r) == toml_document(text@),
{
    toml::from_str::<toml::Value>(text).map_err(|e| e.to_string())
}

/// A `toml::Value` as a value of this library, one variant each: a float becomes
/// its bit pattern, `rust_decimal`'s `Decimal::from_f64` of it (zero where there
/// is none) and its `Display` text, a date or time becomes its `Display` text, and
/// tables keep the order the parser iterates them in.
#[verifier::external_body]
fn converted(value: Value) -> (r: Tree)
    ensures
        r.node() == toml_tree(value),
        r matches Tree::Float { bits, decimal, shown } ==> decimal == decimal_of_bits(bits)
            && shown@ == text_of_bits(bits),
        reads_floats(r.node()),
{
    match value {
        Value::String(s) => Tree::Text(s),
        Value::Integer(i) => Tree::Integer(i),
        Value::Float(f) => {
            let d = Decimal::from_f64(f).unwrap_or_default();
            let decimal = DecimalValue { mantissa: d.mantissa(), scale: d.scale() };
            Tree::Float { bits: f.to_bits(), decimal, shown: f.to_string() }
        },
        Value::Boolean(b) => Tree::Boolean(b),
        Value::Datetime(d) => Tree::Datetime(d.to_string()),
        Value::Array(a) => Tree::Array(a.into_iter().map(converted).collect()),
        Value::Table(t) => Tree::Table(t.into_iter().map(|(k, v)| (k, converted(v))).collect()),
    }
}

/// Parse a TOML text.
pub fn parse_document(text: &str) -> (r: Result<Tree, String>)
    ensures
        match r {
            Ok(value) => toml_document(text@) == Ok::<Node, Seq<char>>(value.node()),
            Err(message) => toml_document(text@) == Err::<Node, Seq<char>>(message@),
        },
        r matches Ok(value) ==> reads_floats(value.node()),
{
    match parse_toml(text) {
        Ok(value) => Ok(converted(value)),
        Err(message) => Err(message),
    }
}

// ---------------------------------------------------------------------------
// Typed access
// ---------------------------------------------------------------------------

/// The value under a key, the first where a key is repeated.
pub open spec fn entry(entries: Seq<(Seq<char>, Node)>, key: Seq<char>) -> Option<Node>
    decreases entries.len(),
{
    if entries.len() == 0 {
        None
    } else if entries[0].0 == key {
        Some(entries[0].1)
    } else {
        entry(entries.skip(1), key)
    }
}

impl Node {
    /// The entries of a table.
    pub open spec fn table(self) -> Option<Seq<(Seq<char>, Node)>> {
        match self {
            Node::Table(entries) => Some(entries),
            _ => None,
        }
    }

    /// The items of an array.
    pub open spec fn array(self) -> Option<Seq<Node>> {
        match self {
            Node::Array(items) => Some(items),
            _ => None,
        }
    }

    /// The text of a string.
    pub open spec fn text(self) -> Option<Seq<char>> {
        match self {
            Node::Text(s) => Some(s),
            _ => None,
        }
    }

    /// The value of an integer.
    pub open spec fn integer(self) -> Option<i64> {
        match self {
            Node::Integer(i) => Some(i),
            _ => None,
        }
    }

    /// The value of a boolean.
    pub open spec fn boolean(self) -> Option<bool> {
        match self {
            Node::Boolean(b) => Some(b),
            _ => None,
        }
    }

    /// A number, written as an integer or a float.
    pub open spec fn number(self) -> Option<Number> {
        match self {
            Node::Integer(i) => Some(Number::Integer(i)),
            Node::Float { bits, decimal, .. } => Some(Number::Float { bits, decimal }),
            _ => None,
        }
    }

    /// The value under a key of a table.
    pub open spec fn get(self, key: Seq<char>) -> Option<Node> {
        match self {
            Node::Table(entries) => entry(entries, key),
            _ => None,
        }
    }

    /// The text under a key.
    pub open spec fn text_at(self, key: Seq<char>) -> Option<Seq<char>> {
        match self.get(key) {
            Some(n) => n.text(),
            None => None,
        }
    }

    /// The integer under a key.
    pub open spec fn integer_at(self, key: Seq<char>) -> Option<i64> {
        match self.get(key) {
            Some(n) => n.integer(),
            None => None,
        }
    }

    /// The boolean under a key.
    pub open spec fn boolean_at(self, key: Seq<char>) -> Option<bool> {
        match self.get(key) {
            Some(n) => n.boolean(),
            None => None,
        }
    }

    /// The number under a key.
    pub open spec fn number_at(self, key: Seq<char>) -> Option<Number> {
        match self.get(key) {
            Some(n) => n.number(),
            None => None,
        }
    }

    /// The integer under a key, where it fits.
    pub open spec fn u32_at(self, key: Seq<char>) -> Option<u32> {
        match self.integer_at(key) {
            Some(i) => if 0 <= i <= u32::MAX {
                Some(i as u32)
            } else {
                None
            },
            None => None,
        }
    }

    /// The integer under a key, where it fits.
    pub open spec fn i32_at(self, key: Seq<char>) -> Option<i32> {
        match self.integer_at(key) {
            Some(i) => if i32::MIN <= i <= i32::MAX {
                Some(i as i32)
            } else {
                None
            },
            None => None,
        }
    }

    /// The integer under a key, where it fits.
    pub open spec fn u16_at(self, key: Seq<char>) -> Option<u16> {
        match self.integer_at(key) {
            Some(i) => if 0 <= i <= u16::MAX {
                Some(i as u16)
            } else {
                None
            },
            None => None,
        }
    }

    /// The integer under a key, where it fits.
    pub open spec fn u8_at(self, key: Seq<char>) -> Option<u8> {
        match self.integer_at(key) {
            Some(i) => if 0 <= i <= u8::MAX {
                Some(i as u8)
            } else {
                None
            },
            None => None,
        }
    }

    /// The integer under a key, where it is not negative.
    pub open spec fn u64_at(self, key: Seq<char>) -> Option<u64> {
        match self.integer_at(key) {
            Some(i) => if i >= 0 {
                Some(i as u64)
            } else {
                None
            },
            None => None,
        }
    }
}

/// The value under a key of a value that may be absent.
pub open spec fn under(n: Option<Node>, key: Seq<char>) -> Option<Node> {
    match n {
        Some(n) => n.get(key),
        None => None,
    }
}

/// An optional tree.
pub open spec fn opt_node(r: Option<&Tree>) -> Option<Node> {
    match r {
        Some(t) => Some(t.node()),
        None => None,
    }
}

/// An optional text.
pub open spec fn opt_str(r: Option<&str>) -> Option<Seq<char>> {
    match r {
        Some(s) => Some(s@),
        None => None,
    }
}

/// The entries of a table as they are.
pub open spec fn entry_views(entries: Seq<(String, Tree)>) -> Seq<(Seq<char>, Node)> {
    entries.map_values(|e: (String, Tree)| (e.0@, e.1.node()))
}

/// The items of an array as they are.
pub open spec fn item_views(items: Seq<Tree>) -> Seq<Node> {
    items.map_values(|t: Tree| t.node())
}

impl Tree {
    /// The entries of a table.
    pub fn entries(&self) -> (r: Option<&Vec<(String, Tree)>>)
        ensures
            match r {
                Some(entries) => self.node() == Node::Table(entry_views(entries@)),
                None => self.node().table() is None,
            },
    {
        match self {
            Tree::Table(entries) => {
                assert(self.node()->Table_0 == entry_views(entries@));
                Some(entries)
            },
            _ => None,
        }
    }

    /// The items of an array.
    pub fn items(&self) -> (r: Option<&Vec<Tree>>)
        ensures
            match r {
                Some(items) => self.node() == Node::Array(item_views(items@)),
                None => self.node().array() is None,
            },
    {
        match self {
            Tree::Array(items) => {
                assert(self.node()->Array_0 == item_views(items@));
                Some(items)
            },
            _ => None,
        }
    }

    /// The text of a string.
    pub fn text(&self) -> (r: Option<&str>)
        ensures
            opt_str(r) == self.node().text(),
    {
        match self {
            Tree::Text(s) => Some(s.as_str()),
            _ => None,
        }
    }

    /// The value of an integer.
    pub fn integer(&self) -> (r: Option<i64>)
        ensures
            r == self.node().integer(),
    {
        match self {
            Tree::Integer(i) => Some(*i),
            _ => None,
        }
    }

    /// The value of a boolean.
    pub fn boolean(&self) -> (r: Option<bool>)
        ensures
            r == self.node().boolean(),
    {
        match self {
            Tree::Boolean(b) => Some(*b),
            _ => None,
        }
    }

    /// A number, written as an integer or a float.
    pub fn number(&self) -> (r: Option<Number>)
        ensures
            r == self.node().number(),
    {
        match self {
            Tree::Integer(i) => Some(Number::Integer(*i)),
            Tree::Float { bits, decimal, .. } => Some(
                Number::Float { bits: *bits, decimal: *decimal },
            ),
            _ => None,
        }
    }

    /// The value under a key of a table.
    pub fn get(&self, key: &str) -> (r: Option<&Tree>)
        ensures
            opt_node(r) == self.node().get(key@),
    {
        let entries = match self.entries() {
            Some(entries) => entries,
            None => {
                return None;
            },
        };
        let ghost all = entry_views(entries@);
        assert(all.skip(0) == all);
        for i in 0..entries.len()
            invariant
                all == entry_views(entries@),
                self.node() == Node::Table(all),
                entry(all, key@) == entry(all.skip(i as int), key@),
        {
            assert(all.skip(i as int)[0] == all[i as int]);
            assert(all.skip(i as int).skip(1) == all.skip(i + 1));
            if str_eq(entries[i].0.as_str(), key) {
                return Some(&entries[i].1);
            }
        }
        assert(all.skip(all.len() as int).len() == 0);
        None
    }

    /// The text under a key.
    pub fn text_at(&self, key: &str) -> (r: Option<&str>)
        ensures
            opt_str(r) == self.node().text_at(key@),
    {
        match self.get(key) {
            Some(t) => t.text(),
            None => None,
        }
    }

    /// An owned copy of the text under a key.
    pub fn owned_at(&self, key: &str) -> (r: Option<String>)
        ensures
            crate::model::opt_text(r) == self.node().text_at(key@),
    {
        match self.text_at(key) {
            Some(s) => Some(owned(s)),
            None => None,
        }
    }

    /// The integer under a key.
    pub fn integer_at(&self, key: &str) -> (r: Option<i64>)
        ensures
            r == self.node().integer_at(key@),
    {
        match self.get(key) {
            Some(t) => t.integer(),
            None => None,
        }
    }

    /// The boolean under a key.
    pub fn boolean_at(&self, key: &str) -> (r: Option<bool>)
        ensures
            r == self.node().boolean_at(key@),
    {
        match self.get(key) {
            Some(t) => t.boolean(),
            None => None,
        }
    }

    /// The number under a key.
    pub fn number_at(&self, key: &str) -> (r: Option<Number>)
        ensures
            r == self.node().number_at(key@),
    {
        match self.get(key) {
            Some(t) => t.number(),
            None => None,
        }
    }

    /// The integer under a key, where it fits.
    pub fn u32_at(&self, key: &str) -> (r: Option<u32>)
        ensures
            r == self.node().u32_at(key@),
    {
        match self.integer_at(key) {
            Some(i) => if 0 <= i && i <= 0xFFFF_FFFF {
                Some(i as u32)
            } else {
                None
            },
            None => None,
        }
    }

    /// The integer under a key, where it fits.
    pub fn i32_at(&self, key: &str) -> (r: Option<i32>)
        ensures
            r == self.node().i32_at(key@),
    {
        match self.integer_at(key) {
            Some(i) => if -0x8000_0000 <= i && i <= 0x7FFF_FFFF {
                Some(i as i32)
            } else {
                None
            },
            None => None,
        }
    }

    /// The integer under a key, where it fits.
    pub fn u16_at(&self, key: &str) -> (r: Option<u16>)
        ensures
            r == self.node().u16_at(key@),
    {
        match self.integer_at(key) {
            Some(i) => if 0 <= i && i <= 0xFFFF {
                Some(i as u16)
            } else {
                None
            },
            None => None,
        }
    }

    /// The integer under a key, where it fits.
    pub fn u8_at(&self, key: &str) -> (r: Option<u8>)
        ensures
            r == self.node().u8_at(key@),
    {
        match self.integer_at(key) {
            Some(i) => if 0 <= i && i <= 0xFF {
                Some(i as u8)
            } else {
                None
            },
            None => None,
        }
    }

    /// The integer under a key, where it is not negative.
    pub fn u64_at(&self, key: &str) -> (r: Option<u64>)
        ensures
            r == self.node().u64_at(key@),
    {
        match self.integer_at(key) {
            Some(i) => if i >= 0 {
                Some(i as u64)
            } else {
                None
            },
            None => None,
        }
    }
}

/// The value under a key of a value that may be absent.
pub fn child<'a>(t: Option<&'a Tree>, key: &str) -> (r: Option<&'a Tree>)
    ensures
        opt_node(r) == under(opt_node(t), key@),
{
    match t {
        Some(t) => t.get(key),
        None => None,
    }
}

/// The strings among the items.
pub open spec fn strings_in(items: Seq<Node>) -> Seq<Seq<char>>
    decreases items.len(),
{
    if items.len() == 0 {
        Seq::empty()
    } else {
        let before = strings_in(items.drop_last());
        match items.last().text() {
            Some(s) => before.push(s),
            None => before,
        }
    }
}

/// The `notes` of a table: a string, or the strings of an array.
pub open spec fn notes_of(n: Node) -> Seq<Seq<char>> {
    match n.get("notes"@) {
        Some(Node::Text(s)) => seq![s],
        Some(Node::Array(items)) => strings_in(items),
        _ => Seq::empty(),
    }
}

/// Normalise the `notes` key (a string or an array of strings) to a list.
pub fn parse_notes(body: &Tree) -> (r: Vec<String>)
    ensures
        crate::text::texts(r@) == notes_of(body.node()),
{
    let mut out: Vec<String> = Vec::new();
    assert(crate::text::texts(out@) == Seq::<Seq<char>>::empty());
    let notes = match body.get("notes") {
        Some(notes) => notes,
        None => {
            return out;
        },
    };
    if let Some(s) = notes.text() {
        out.push(owned(s));
        assert(crate::text::texts(out@) == seq![s@]);
        return out;
    }
    if let Some(items) = notes.items() {
        let ghost all = item_views(items@);
        for i in 0..items.len()
            invariant
                all == item_views(items@),
                crate::text::texts(out@) == strings_in(all.take(i as int)),
        {
            let ghost before = crate::text::texts(out@);
            assert(all.take(i + 1).drop_last() == all.take(i as int));
            assert(all.take(i + 1).last() == items@[i as int].node());
            if let Some(s) = items[i].text() {
                out.push(owned(s));
                assert(crate::text::texts(out@) == before.push(s@));
            }
        }
        assert(all.take(all.len() as int) == all);
    }
    out
}

// ---------------------------------------------------------------------------
// Labelled values
// ---------------------------------------------------------------------------

/// A list in value order with one label set.
pub open spec fn with_label(list: Seq<(i64, Seq<char>)>, key: i64, label: Seq<char>) -> Seq<
    (i64, Seq<char>),
>
    decreases list.len(),
{
    if list.len() == 0 {
        seq![(key, label)]
    } else if list[0].0 == key {
        seq![(key, label)] + list.skip(1)
    } else if list[0].0 > key {
        seq![(key, label)] + list
    } else {
        seq![list[0]] + with_label(list.skip(1), key, label)
    }
}

/// The label of a value.
pub open spec fn label_of(list: Seq<(i64, Seq<char>)>, key: int) -> Option<Seq<char>>
    decreases list.len(),
{
    if list.len() == 0 {
        None
    } else if list[0].0 == key {
        Some(list[0].1)
    } else {
        label_of(list.skip(1), key)
    }
}

/// The integer a key spells.
pub open spec fn key_integer(key: Seq<char>) -> Option<int> {
    crate::text::within(crate::text::integer(key, 10), i64::MIN as int, i64::MAX as int)
}

/// The entries of a table whose key is an integer and whose value a string, in
/// value order; of several keys for one integer the last wins.
pub open spec fn labels_in(entries: Seq<(Seq<char>, Node)>) -> Seq<(i64, Seq<char>)>
    decreases entries.len(),
{
    if entries.len() == 0 {
        Seq::empty()
    } else {
        let before = labels_in(entries.drop_last());
        match (key_integer(entries.last().0), entries.last().1.text()) {
            (Some(k), Some(label)) => with_label(before, k as i64, label),
            _ => before,
        }
    }
}

/// Set one label in a list in value order.
pub fn set_label(list: &mut Vec<(i64, String)>, key: i64, label: String)
    ensures
        crate::model::labels(final(list)@) == with_label(
            crate::model::labels(old(list)@),
            key,
            label@,
        ),
{
    let ghost before = crate::model::labels(list@);
    let ghost text = label@;
    let mut at: usize = 0;
    assert(before.skip(0) == before);
    assert(with_label(before, key, text) == before.take(0) + with_label(before, key, text));
    while at < list.len() && list[at].0 < key
        invariant
            at <= list@.len(),
            list@ == old(list)@,
            before == crate::model::labels(list@),
            with_label(before, key, text) == before.take(at as int) + with_label(
                before.skip(at as int),
                key,
                text,
            ),
        decreases list@.len() - at,
    {
        let ghost rest = before.skip(at as int);
        assert(rest[0] == before[at as int]);
        assert(rest.skip(1) == before.skip(at + 1));
        assert(before.take(at as int) + (seq![rest[0]] + with_label(rest.skip(1), key, text))
            == before.take(at + 1) + with_label(before.skip(at + 1), key, text));
        at = at + 1;
    }
    let ghost rest = before.skip(at as int);
    if at < list.len() && list[at].0 == key {
        assert(rest[0] == before[at as int]);
        list.set(at, (key, label));
        assert(crate::model::labels(list@) == before.take(at as int) + (seq![(key, text)]
            + rest.skip(1)));
    } else {
        list.insert(at, (key, label));
        assert(rest.len() > 0 ==> rest[0] == before[at as int]);
        assert(crate::model::labels(list@) == before.take(at as int) + (seq![(key, text)] + rest));
    }
}

/// The labelled values of a table, `None` where there is no table or it has
/// none.
pub open spec fn enum_map_of(n: Option<Node>) -> Option<Seq<(i64, Seq<char>)>> {
    match n {
        Some(Node::Table(entries)) => if labels_in(entries).len() > 0 {
            Some(labels_in(entries))
        } else {
            None
        },
        _ => None,
    }
}

/// The labelled values of a table.
pub fn parse_enum_map(t: Option<&Tree>) -> (r: Option<Vec<(i64, String)>>)
    ensures
        crate::model::opt_labels(r) == enum_map_of(opt_node(t)),
{
    let tree = match t {
        Some(tree) => tree,
        None => {
            return None;
        },
    };
    let entries = match tree.entries() {
        Some(entries) => entries,
        None => {
            return None;
        },
    };
    let ghost all = entry_views(entries@);
    let mut out: Vec<(i64, String)> = Vec::new();
    assert(crate::model::labels(out@) == Seq::<(i64, Seq<char>)>::empty());
    for i in 0..entries.len()
        invariant
            all == entry_views(entries@),
            crate::model::labels(out@) == labels_in(all.take(i as int)),
    {
        assert(all.take(i + 1).drop_last() == all.take(i as int));
        assert(all.take(i + 1).last() == (entries@[i as int].0@, entries@[i as int].1.node()));
        let chars = crate::text::chars_of(entries[i].0.as_str());
        let key = crate::text::parse_integer(
            chars.as_slice(),
            10,
            -0x8000_0000_0000_0000,
            0x7FFF_FFFF_FFFF_FFFF,
        );
        if let (Some(k), Some(label)) = (key, entries[i].1.text()) {
            set_label(&mut out, k as i64, owned(label));
        }
    }
    assert(all.take(all.len() as int) == all);
    if out.len() == 0 {
        None
    } else {
        Some(out)
    }
}

} // verus!
