//! The version of a catalogue, raised in its text with nothing else changed.

use crate::text::{cat2, chars_of, owned, push_decimal, string_of};
use toml_edit::Item;
use vstd::prelude::*;

verus! {

/// A raised version: the new text, and the versions before and after.
#[derive(Debug)]
pub struct VersionBump {
    pub text: String,
    pub from: u32,
    pub to: u32,
}

/// Where the `[meta]` table of a catalogue and its fields stand in the text, in
/// bytes.
#[derive(Debug, Clone, Copy)]
pub struct MetaLayout {
    pub version: Option<VersionField>,
    /// The end of the value of `name`.
    pub name_end: Option<usize>,
    /// The end of the table's header.
    pub table_end: Option<usize>,
}

/// The `version` of a catalogue: its value where it is an integer, and where the
/// value starts and ends.
#[derive(Debug, Clone, Copy)]
pub struct VersionField {
    pub value: Option<i64>,
    pub span: Option<(usize, usize)>,
}

/// What an item of a parsed document is, and where it stands in the text, in bytes.
pub struct Spanned {
    pub held: Held,
    pub span: Option<(usize, usize)>,
}

/// What an item of a parsed document holds.
pub enum Held {
    Integer(i64),
    /// A table with a header or dotted keys of its own.
    Table(Map<Seq<char>, Spanned>),
    /// A table written in line.
    Inline(Map<Seq<char>, Spanned>),
    Other,
}

impl Spanned {
    /// What a table, in line or not, holds under a key.
    pub open spec fn get(self, key: Seq<char>) -> Option<Spanned> {
        match self.held {
            Held::Table(entries) | Held::Inline(entries) => if entries.contains_key(key) {
                Some(entries[key])
            } else {
                None
            },
            Held::Integer(_) | Held::Other => None,
        }
    }

    /// The integer that it is, where it is one.
    pub open spec fn integer(self) -> Option<i64> {
        match self.held {
            Held::Integer(value) => Some(value),
            _ => None,
        }
    }
}

/// What an item of a parsed document is, and where it stands in the text.
pub uninterp spec fn spanned_item(item: Item) -> Spanned;

/// The root of the document that a text holds, or the text of the error that
/// `toml_edit` reports.
pub uninterp spec fn spanned_document(text: Seq<char>) -> Result<Spanned, Seq<char>>;

/// A parsed document, by its root and the text of the error.
pub open spec fn spanned_view(r: Result<Item, String>) -> Result<Spanned, Seq<char>> {
    match r {
        Ok(root) => Ok(spanned_item(root)),
        Err(message) => Err(message@),
    }
}

/// An item that may be there.
pub open spec fn opt_spanned(item: Option<&Item>) -> Option<Spanned> {
    match item {
        Some(held) => Some(spanned_item(*held)),
        None => None,
    }
}

/// `toml_edit`'s `ImDocument::parse`, which keeps where items stand, and the document's
/// root.
#[verifier::external_body]
fn parse_spanned(text: &str) -> (r: Result<Item, String>)
    ensures
        spanned_view(r) == spanned_document(text@),
{
    toml_edit::ImDocument::parse(text).map(|doc| doc.into_item()).map_err(|e| e.to_string())
}

/// `toml_edit`'s `Item::get` by a key: what a table, in line or not, holds under it.
#[verifier::external_body]
fn spanned_child<'a>(item: &'a Item, key: &str) -> (r: Option<&'a Item>)
    ensures
        opt_spanned(r) == spanned_item(*item).get(key@),
{
    item.get(key)
}

/// `toml_edit`'s `Item::is_table`: whether an item is a table not written in line.
#[verifier::external_body]
fn is_table(item: &Item) -> (r: bool)
    ensures
        r == (spanned_item(*item).held is Table),
{
    item.is_table()
}

/// `toml_edit`'s `Item::as_integer`: the integer that an item is.
#[verifier::external_body]
fn integer_of(item: &Item) -> (r: Option<i64>)
    ensures
        r == spanned_item(*item).integer(),
{
    item.as_integer()
}

/// `toml_edit`'s `Item::span`: where an item starts and ends in the text it was parsed
/// from.
#[verifier::external_body]
fn span_of(item: &Item) -> (r: Option<(usize, usize)>)
    ensures
        r == spanned_item(*item).span,
{
    item.span().map(|s| (s.start, s.end))
}

/// Where a span ends.
pub open spec fn end_of(span: Option<(usize, usize)>) -> Option<usize> {
    match span {
        Some((_, end)) => Some(end),
        None => None,
    }
}

/// The layout of the `[meta]` table of a document, where there is one. A table written
/// in line is none.
pub open spec fn layout_of(root: Spanned) -> Option<MetaLayout> {
    match root.get("meta"@) {
        Some(meta) => if meta.held is Table {
            Some(
                MetaLayout {
                    version: match meta.get("version"@) {
                        Some(version) => Some(
                            VersionField { value: version.integer(), span: version.span },
                        ),
                        None => None,
                    },
                    name_end: match meta.get("name"@) {
                        Some(name) => end_of(name.span),
                        None => None,
                    },
                    table_end: end_of(meta.span),
                },
            )
        } else {
            None
        },
        None => None,
    }
}

fn span_end(item: &Item) -> (r: Option<usize>)
    ensures
        r == end_of(spanned_item(*item).span),
{
    match span_of(item) {
        Some((_, end)) => Some(end),
        None => None,
    }
}

fn find_layout(root: &Item) -> (r: Option<MetaLayout>)
    ensures
        r == layout_of(spanned_item(*root)),
{
    let meta = match spanned_child(root, "meta") {
        Some(meta) => meta,
        None => return None,
    };
    if !is_table(meta) {
        return None;
    }
    let version: Option<VersionField> = match spanned_child(meta, "version") {
        Some(version) => Some(
            VersionField { value: integer_of(version), span: span_of(version) },
        ),
        None => None,
    };
    let name_end: Option<usize> = match spanned_child(meta, "name") {
        Some(name) => span_end(name),
        None => None,
    };
    Some(MetaLayout { version, name_end, table_end: span_end(meta) })
}

/// The characters of a text that end within its first `n` bytes.
pub open spec fn within_bytes(text: Seq<char>, n: int) -> int
    decreases text.len(),
{
    if text.len() == 0 || crate::text::char_bytes(text[0]) > n {
        0
    } else {
        1 + within_bytes(text.skip(1), n - crate::text::char_bytes(text[0]))
    }
}

/// The first place from `from` on of a line feed, or the end.
pub open spec fn line_end(text: Seq<char>, from: int) -> int
    decreases text.len() - from,
{
    if from < 0 || from >= text.len() {
        text.len() as int
    } else if text[from] == '\n' {
        from
    } else {
        line_end(text, from + 1)
    }
}

/// A text with a piece of it replaced.
pub open spec fn spliced(text: Seq<char>, from: int, to: int, new: Seq<char>) -> Seq<char> {
    text.take(from) + new + text.skip(to)
}

/// What raising the version makes of a text: a version that is there is replaced in
/// its place; without one it is 1, and the next is written on a line of its own
/// behind `name`, or behind the header of the table.
pub open spec fn raised(text: Seq<char>, layout: Option<MetaLayout>) -> Result<
    (Seq<char>, int, int),
    Seq<char>,
> {
    match layout {
        None => Err("catalogue has no [meta] section"@),
        Some(meta) => match meta.version {
            Some(field) => match (field.value, field.span) {
                (None, _) => Err("[meta].version is not an integer"@),
                (Some(value), span) => if value < 0 || value > u32::MAX {
                    Err("[meta].version is out of range"@)
                } else if value == u32::MAX {
                    Err("[meta].version is at its maximum"@)
                } else {
                    match span {
                        Some((start, end)) => Ok(
                            (
                                spliced(
                                    text,
                                    within_bytes(text, start as int),
                                    within_bytes(text, end as int),
                                    crate::text::decimal((value + 1) as nat),
                                ),
                                value as int,
                                value + 1,
                            ),
                        ),
                        None => Err("[meta].version has no source span"@),
                    }
                },
            },
            None => match (meta.name_end, meta.table_end) {
                (Some(end), _) => Ok((line_added(text, within_bytes(text, end as int)), 1, 2)),
                (None, Some(end)) => Ok((line_added(text, within_bytes(text, end as int)), 1, 2)),
                (None, None) => Err("[meta] has no source span"@),
            },
        },
    }
}

/// A text with `version = 2` on a line of its own behind the line on which a place
/// stands, with that line's ending.
pub open spec fn line_added(text: Seq<char>, place: int) -> Seq<char> {
    let end = line_end(text, place);
    if end > 0 && text[end - 1] == '\r' {
        spliced(text, end - 1, end - 1, "\r\nversion = 2"@)
    } else {
        spliced(text, end, end, "\nversion = 2"@)
    }
}

fn char_width(c: char) -> (r: usize)
    ensures
        r == crate::text::char_bytes(c),
{
    if c <= '\u{7F}' {
        1
    } else if c <= '\u{7FF}' {
        2
    } else if c <= '\u{FFFF}' {
        3
    } else {
        4
    }
}

fn char_place(chars: &[char], n: usize) -> (r: usize)
    ensures
        r == within_bytes(chars@, n as int),
        r <= chars@.len(),
{
    let mut i: usize = 0;
    let mut left: usize = n;
    assert(chars@.skip(0) == chars@);
    while i < chars.len()
        invariant
            i <= chars@.len(),
            within_bytes(chars@, n as int) == i + within_bytes(chars@.skip(i as int), left as int),
        decreases chars@.len() - i,
    {
        assert(chars@.skip(i as int)[0] == chars@[i as int]);
        assert(chars@.skip(i as int).skip(1) == chars@.skip(i + 1));
        let width: usize = char_width(chars[i]);
        if width > left {
            return i;
        }
        left = left - width;
        i = i + 1;
    }
    i
}

fn find_line_end(chars: &[char], from: usize) -> (r: usize)
    requires
        from <= chars@.len(),
    ensures
        r == line_end(chars@, from as int),
        from <= r <= chars@.len(),
{
    let mut i: usize = from;
    while i < chars.len()
        invariant
            from <= i <= chars@.len(),
            line_end(chars@, from as int) == line_end(chars@, i as int),
        decreases chars@.len() - i,
    {
        if chars[i] == '\n' {
            return i;
        }
        i = i + 1;
    }
    i
}

fn splice(chars: &[char], from: usize, to: usize, new: &str) -> (r: String)
    requires
        from <= chars@.len(),
        to <= chars@.len(),
    ensures
        r@ == spliced(chars@, from as int, to as int, new@),
{
    let mut out = string_of(vstd::slice::slice_subrange(chars, 0, from));
    let tail = string_of(vstd::slice::slice_subrange(chars, to, chars.len()));
    out.append(new);
    out.append(tail.as_str());
    assert(chars@.subrange(0, from as int) == chars@.take(from as int));
    assert(chars@.subrange(to as int, chars@.len() as int) == chars@.skip(to as int));
    out
}

fn add_line(chars: &[char], place: usize) -> (r: String)
    requires
        place <= chars@.len(),
    ensures
        r@ == line_added(chars@, place as int),
{
    let end: usize = find_line_end(chars, place);
    if end > 0 && chars[end - 1] == '\r' {
        splice(chars, end - 1, end - 1, "\r\nversion = 2")
    } else {
        splice(chars, end, end, "\nversion = 2")
    }
}

/// What raising the version of a catalogue gives.
pub open spec fn bump_view(r: Result<VersionBump, String>) -> Result<
    (Seq<char>, int, int),
    Seq<char>,
> {
    match r {
        Ok(bump) => Ok((bump.text@, bump.from as int, bump.to as int)),
        Err(message) => Err(message@),
    }
}

/// Raises the version of a text with a known layout.
pub fn raise_version(text: &str, layout: &Option<MetaLayout>) -> (r: Result<VersionBump, String>)
    ensures
        bump_view(r) == raised(text@, *layout),
{
    let chars = chars_of(text);
    match layout {
        None => Err(owned("catalogue has no [meta] section")),
        Some(meta) => match meta.version {
            Some(field) => match field.value {
                None => Err(owned("[meta].version is not an integer")),
                Some(value) => {
                    if value < 0 || value > u32::MAX as i64 {
                        return Err(owned("[meta].version is out of range"));
                    }
                    if value == u32::MAX as i64 {
                        return Err(owned("[meta].version is at its maximum"));
                    }
                    let from: u32 = value as u32;
                    let to: u32 = from + 1;
                    match field.span {
                        Some((start, end)) => {
                            let mut number = String::new();
                            push_decimal(&mut number, to as u128);
                            assert(number@ == crate::text::decimal(to as nat));
                            let first: usize = char_place(chars.as_slice(), start);
                            let last: usize = char_place(chars.as_slice(), end);
                            let text = splice(chars.as_slice(), first, last, number.as_str());
                            Ok(VersionBump { text, from, to })
                        },
                        None => Err(owned("[meta].version has no source span")),
                    }
                },
            },
            None => {
                let anchor: Option<usize> = match meta.name_end {
                    Some(end) => Some(end),
                    None => meta.table_end,
                };
                match anchor {
                    Some(end) => {
                        let place: usize = char_place(chars.as_slice(), end);
                        let text = add_line(chars.as_slice(), place);
                        Ok(VersionBump { text, from: 1, to: 2 })
                    },
                    None => Err(owned("[meta] has no source span")),
                }
            },
        },
    }
}

/// Raises `[meta].version` of a catalogue's text by one, with every other byte as it
/// was. A catalogue without a version has version 1.
pub fn bump_meta_version(text: &str) -> (r: Result<VersionBump, String>)
    ensures
        match spanned_document(text@) {
            Ok(root) => bump_view(r) == raised(text@, layout_of(root)),
            Err(message) => r matches Err(m) && m@ == "catalogue is not valid TOML: "@ + message,
        },
{
    match parse_spanned(text) {
        Ok(root) => raise_version(text, &find_layout(&root)),
        Err(message) => Err(cat2("catalogue is not valid TOML: ", message.as_str())),
    }
}

/// A version is raised by one.
pub proof fn law_versions_rise_by_one(text: Seq<char>, layout: Option<MetaLayout>)
    ensures
        raised(text, layout) matches Ok(bump) ==> bump.2 == bump.1 + 1 && 0 <= bump.1 < bump.2
            <= u32::MAX,
{
}

proof fn lemma_bytes_from_the_front(s: Seq<char>)
    requires
        s.len() > 0,
    ensures
        crate::text::byte_length(s) == crate::text::char_bytes(s[0]) + crate::text::byte_length(
            s.skip(1),
        ),
        crate::text::byte_length(s.skip(1)) >= 0,
    decreases s.len(),
{
    reveal_with_fuel(crate::text::byte_length, 2);
    if s.len() > 1 {
        lemma_bytes_from_the_front(s.drop_last());
        assert(s.skip(1).drop_last() =~= s.drop_last().skip(1));
    } else {
        assert(s.drop_last() =~= Seq::<char>::empty());
        assert(s.skip(1) =~= Seq::<char>::empty());
    }
}

proof fn lemma_within_bytes(a: Seq<char>, b: Seq<char>)
    ensures
        within_bytes(a + b, crate::text::byte_length(a)) == a.len(),
    decreases a.len(),
{
    let s = a + b;
    if a.len() > 0 {
        lemma_bytes_from_the_front(a);
        assert(s[0] == a[0]);
        assert(s.skip(1) =~= a.skip(1) + b);
        lemma_within_bytes(a.skip(1), b);
    } else {
        assert(crate::text::byte_length(a) == 0);
        assert(s =~= b);
    }
}

/// Raising a version that is there writes the next number in the place of the old one,
/// and changes nothing else of the text, before or behind it.
pub proof fn law_raising_replaces_the_number_alone(
    before: Seq<char>,
    old_text: Seq<char>,
    behind: Seq<char>,
    layout: MetaLayout,
    value: i64,
)
    requires
        0 <= value < u32::MAX,
        crate::text::byte_length(before + old_text) <= usize::MAX,
        crate::text::byte_length(before) <= usize::MAX,
        layout.version == Some(
            VersionField {
                value: Some(value),
                span: Some(
                    (
                        crate::text::byte_length(before) as usize,
                        crate::text::byte_length(before + old_text) as usize,
                    ),
                ),
            },
        ),
    ensures
        raised(before + old_text + behind, Some(layout)) == Ok::<(Seq<char>, int, int), Seq<char>>(
            (before + crate::text::decimal((value + 1) as nat) + behind, value as int, value + 1),
        ),
{
    let text = before + old_text + behind;
    lemma_byte_length_is_natural(before);
    lemma_byte_length_is_natural(before + old_text);
    lemma_within_bytes(before, old_text + behind);
    assert(before + (old_text + behind) =~= text);
    lemma_within_bytes(before + old_text, behind);
    assert(text.take(before.len() as int) =~= before);
    assert(text.skip((before + old_text).len() as int) =~= behind);
}

proof fn lemma_byte_length_is_natural(s: Seq<char>)
    ensures
        crate::text::byte_length(s) >= 0,
    decreases s.len(),
{
    if s.len() > 0 {
        lemma_byte_length_is_natural(s.drop_last());
    }
}

/// Raising fails exactly where there is no `[meta]` table, where its version is no integer
/// or none that can be raised, or where the text does not say where things stand.
pub proof fn law_raising_fails_where_it_must(text: Seq<char>, layout: Option<MetaLayout>)
    ensures
        raised(text, layout) is Ok <==> {
            &&& layout matches Some(meta)
            &&& match meta.version {
                Some(field) => field.span is Some && (field.value matches Some(v) && 0 <= v
                    < u32::MAX),
                None => meta.name_end is Some || meta.table_end is Some,
            }
        },
        raised(text, layout) matches Ok(bump) ==> (layout->Some_0.version is None ==> bump.1 == 1
            && bump.2 == 2),
{
}

proof fn lemma_line_end(text: Seq<char>, from: int, to: int)
    requires
        0 <= from <= to <= text.len(),
        forall|i: int| from <= i < to ==> (#[trigger] text[i]) != '\n',
        to < text.len() ==> text[to] == '\n',
    ensures
        line_end(text, from) == to,
    decreases to - from,
{
    if from < to {
        assert(text[from] != '\n');
        lemma_line_end(text, from + 1, to);
    }
}

/// A version that is missing is written as `version = 2` on a line of its own, behind the
/// line on which a place stands, and changes nothing else of the text.
pub proof fn law_missing_versions_get_a_line(before: Seq<char>, behind: Seq<char>, place: int)
    requires
        0 <= place <= before.len(),
        forall|i: int| place <= i < before.len() ==> (#[trigger] before[i]) != '\n',
        behind.len() > 0 ==> behind[0] == '\n',
        before.len() > 0 ==> before.last() != '\r',
    ensures
        line_added(before + behind, place) == before + "\nversion = 2"@ + behind,
{
    let text = before + behind;
    assert forall|i: int| place <= i < before.len() implies (#[trigger] text[i]) != '\n' by {
        assert(text[i] == before[i]);
    }
    lemma_line_end(text, place, before.len() as int);
    assert(text.take(before.len() as int) =~= before);
    assert(text.skip(before.len() as int) =~= behind);
    if before.len() > 0 {
        assert(text[before.len() - 1] == before.last());
    }
}

} // verus!
