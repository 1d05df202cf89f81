//! Header fields: bitmasks over a CAN id or a serial frame's header bytes.

use crate::keyed::insert_keyed;
use crate::model::{read_endianness, Endianness, HeaderField};
use crate::text::{owned, str_eq};
use crate::value::Tree;
use vstd::prelude::*;

verus! {

/// The lowest byte of a mask that has a bit set.
pub open spec fn first_byte(mask: int) -> int {
    if mask % 256 != 0 {
        0
    } else if mask / 256 % 256 != 0 {
        1
    } else if mask / 65536 % 256 != 0 {
        2
    } else {
        3
    }
}

/// The highest byte of a mask that has a bit set.
pub open spec fn last_byte(mask: int) -> int {
    if mask >= 16777216 {
        3
    } else if mask >= 65536 {
        2
    } else if mask >= 256 {
        1
    } else {
        0
    }
}

/// The byte a mask starts in and how many bytes it spans.
pub open spec fn byte_position(mask: int) -> Option<(int, int)> {
    if mask == 0 {
        None
    } else {
        Some((first_byte(mask), last_byte(mask) - first_byte(mask) + 1))
    }
}

/// First set bit → byte position + byte span of a header-byte mask. Shared with
/// the parser so the derived serial header positions are computed from the one
/// algorithm.
pub fn mask_to_byte_position(mask: u32) -> (r: Option<(usize, usize)>)
    ensures
        match r {
            Some(p) => byte_position(mask as int) == Some((p.0 as int, p.1 as int)) && p.0 <= 3
                && 1 <= p.1 && p.0 + p.1 <= 4,
            None => byte_position(mask as int) is None,
        },
{
    if mask == 0 {
        return None;
    }
    let first: usize = if mask % 256 != 0 {
        0
    } else if mask / 256 % 256 != 0 {
        1
    } else if mask / 65536 % 256 != 0 {
        2
    } else {
        3
    };
    let last: usize = if mask >= 16777216 {
        3
    } else if mask >= 65536 {
        2
    } else if mask >= 256 {
        1
    } else {
        0
    };
    Some((first, last - first + 1))
}

/// The mask of `bytes` whole bytes from `start_byte`, in a 32-bit header: the
/// bits of as many bytes, all of them from four on, moved up `start_byte` bytes
/// modulo four. The byte count is taken modulo 2^29.
pub open spec fn legacy_mask(start_byte: int, bytes: int) -> int {
    let n = bytes % 0x2000_0000;
    let base: int = if n >= 4 {
        0xFFFF_FFFF
    } else if n == 3 {
        0xFF_FFFF
    } else if n == 2 {
        0xFFFF
    } else if n == 1 {
        0xFF
    } else {
        0
    };
    let step: int = if start_byte % 4 == 0 {
        1
    } else if start_byte % 4 == 1 {
        256
    } else if start_byte % 4 == 2 {
        65536
    } else {
        16777216
    };
    base * step % 0x1_0000_0000
}

fn mask_of_bytes(start_byte: u32, bytes: u32) -> (r: u32)
    ensures
        r == legacy_mask(start_byte as int, bytes as int),
{
    let n: u32 = bytes % 0x2000_0000;
    let base: u64 = if n >= 4 {
        0xFFFF_FFFF
    } else if n == 3 {
        0xFF_FFFF
    } else if n == 2 {
        0xFFFF
    } else if n == 1 {
        0xFF
    } else {
        0
    };
    if start_byte % 4 == 0 {
        (base % 0x1_0000_0000) as u32
    } else if start_byte % 4 == 1 {
        (base * 256 % 0x1_0000_0000) as u32
    } else if start_byte % 4 == 2 {
        (base * 65536 % 0x1_0000_0000) as u32
    } else {
        (base * 16777216 % 0x1_0000_0000) as u32
    }
}

/// The mask a header field declares: `mask`, or for a serial field the older
/// `start_byte` with `bytes`.
pub open spec fn declared_mask(n: crate::value::Node, serial: bool) -> Option<u32> {
    match n.u32_at("mask"@) {
        Some(mask) => Some(mask),
        None => if serial {
            match n.u32_at("start_byte"@) {
                Some(start) => Some(
                    legacy_mask(
                        start as int,
                        crate::model::or_else(n.u32_at("bytes"@), 1) as int,
                    ) as u32,
                ),
                None => None,
            }
        } else {
            None
        },
    }
}

/// The display format a header field declares, where it is a known one.
pub open spec fn declared_format(n: crate::value::Node) -> Option<Seq<char>> {
    match n.text_at("format"@) {
        Some(f) => if f == "hex"@ || f == "decimal"@ {
            Some(f)
        } else {
            None
        },
        None => None,
    }
}

/// The first byte order that is there.
pub open spec fn first_of<A>(a: Option<A>, b: Option<A>) -> Option<A> {
    match a {
        Some(v) => Some(v),
        None => b,
    }
}

/// A header field as its table declares it, unless it has no mask.
pub open spec fn field_of(n: crate::value::Node, serial: bool) -> Option<
    crate::model::HeaderFieldView,
> {
    match declared_mask(n, serial) {
        Some(mask) => Some(
            crate::model::HeaderFieldView {
                mask,
                shift: n.u32_at("shift"@),
                format: declared_format(n),
                endianness: first_of(
                    crate::model::endianness_at(n, "endianness"@),
                    crate::model::endianness_at(n, "byte_order"@),
                ),
            },
        ),
        None => None,
    }
}

/// The header fields among the entries of a table, in the order of their names.
pub open spec fn fields_in(entries: Seq<(Seq<char>, crate::value::Node)>, serial: bool) -> Seq<
    (Seq<char>, crate::model::HeaderFieldView),
>
    decreases entries.len(),
{
    if entries.len() == 0 {
        Seq::empty()
    } else {
        let before = fields_in(entries.drop_last(), serial);
        match field_of(entries.last().1, serial) {
            Some(field) => crate::keyed::with_key(before, (entries.last().0, field)),
            None => before,
        }
    }
}

/// The header fields of a section.
pub open spec fn section_fields(n: Option<crate::value::Node>, serial: bool) -> Seq<
    (Seq<char>, crate::model::HeaderFieldView),
> {
    match n {
        Some(crate::value::Node::Table(entries)) => fields_in(entries, serial),
        _ => Seq::empty(),
    }
}

fn read_field(def: &Tree, serial: bool) -> (r: Option<HeaderField>)
    ensures
        match r {
            Some(f) => field_of(def.node(), serial) == Some(f@),
            None => field_of(def.node(), serial) is None,
        },
{
    let mask: u32 = match def.u32_at("mask") {
        Some(mask) => mask,
        None => {
            if !serial {
                return None;
            }
            match def.u32_at("start_byte") {
                Some(start) => {
                    let bytes: u32 = match def.u32_at("bytes") {
                        Some(bytes) => bytes,
                        None => 1,
                    };
                    mask_of_bytes(start, bytes)
                },
                None => {
                    return None;
                },
            }
        },
    };
    let endianness: Option<Endianness> = match read_endianness(def, "endianness") {
        Some(e) => Some(e),
        None => read_endianness(def, "byte_order"),
    };
    let format: Option<String> = match def.text_at("format") {
        Some(f) => if str_eq(f, "hex") || str_eq(f, "decimal") {
            Some(owned(f))
        } else {
            None
        },
        None => None,
    };
    Some(HeaderField { mask, shift: def.u32_at("shift"), format, endianness })
}

/// Read the header fields of a section: `mask`, or (serial only) the older
/// `start_byte` + `bytes`. Fields without either are left out.
pub fn parse_header_fields(section: Option<&Tree>, serial: bool) -> (r: Vec<(String, HeaderField)>)
    ensures
        crate::model::field_views(r@) == section_fields(crate::value::opt_node(section), serial),
{
    let mut out: Vec<(String, HeaderField)> = Vec::new();
    assert(crate::model::field_views(out@) == Seq::<
        (Seq<char>, crate::model::HeaderFieldView),
    >::empty());
    let tree = match section {
        Some(tree) => tree,
        None => {
            return out;
        },
    };
    let entries = match tree.entries() {
        Some(entries) => entries,
        None => {
            return out;
        },
    };
    let ghost all = crate::value::entry_views(entries@);
    for i in 0..entries.len()
        invariant
            all == crate::value::entry_views(entries@),
            crate::model::field_views(out@) == fields_in(all.take(i as int), serial),
    {
        let ghost before = crate::model::field_views(out@);
        assert(all.take(i + 1).drop_last() == all.take(i as int));
        assert(all.take(i + 1).last() == (entries@[i as int].0@, entries@[i as int].1.node()));
        if let Some(field) = read_field(&entries[i].1, serial) {
            let ghost shown = |f: HeaderField| f@;
            let ghost kept = crate::keyed::keyed(out@);
            proof {
                assert(before == crate::keyed::mapped(kept, shown));
                crate::keyed::lemma_with_key_mapped(kept, (entries@[i as int].0@, field), shown);
            }
            insert_keyed(&mut out, entries[i].0.as_str(), field);
            assert(crate::model::field_views(out@) == crate::keyed::mapped(
                crate::keyed::keyed(out@),
                shown,
            ));
        }
    }
    assert(all.take(all.len() as int) == all);
    out
}

/// Header fields come in the order of their names, no name twice.
pub proof fn law_header_fields_are_ordered(n: Option<crate::value::Node>, serial: bool)
    ensures
        crate::keyed::keys_ascend(section_fields(n, serial)),
{
    if let Some(crate::value::Node::Table(entries)) = n {
        lemma_fields_ascend(entries, serial);
    }
}

proof fn lemma_fields_ascend(entries: Seq<(Seq<char>, crate::value::Node)>, serial: bool)
    ensures
        crate::keyed::keys_ascend(fields_in(entries, serial)),
    decreases entries.len(),
{
    if entries.len() > 0 {
        lemma_fields_ascend(entries.drop_last(), serial);
        if let Some(field) = field_of(entries.last().1, serial) {
            crate::keyed::lemma_with_key(
                fields_in(entries.drop_last(), serial),
                (entries.last().0, field),
            );
        }
    }
}

/// A mask covers exactly the bytes its position names: it has a bit set in the
/// first and in the last of them, and none outside.
pub proof fn law_byte_positions_span_the_mask(mask: u32)
    requires
        mask > 0,
    ensures
        byte_position(mask as int) matches Some((start, bytes)) && {
            &&& 0 <= start && 1 <= bytes && start + bytes <= 4
            &&& forall|k: int|
                0 <= k < 4 && !(start <= k < start + bytes) ==> #[trigger] mask_byte(
                    mask as int,
                    k,
                ) == 0
            &&& mask_byte(mask as int, start) != 0
            &&& mask_byte(mask as int, start + bytes - 1) != 0
        },
{
}

/// The byte `k` of a mask, counted from the least significant.
pub open spec fn mask_byte(mask: int, k: int) -> int {
    if k == 0 {
        mask % 256
    } else if k == 1 {
        mask / 256 % 256
    } else if k == 2 {
        mask / 65536 % 256
    } else {
        mask / 16777216
    }
}

/// A header field that is given by its place covers the bytes from there on, as many as
/// it has, within the first four.
pub proof fn law_placed_fields_cover_their_bytes(start: int, bytes: int)
    requires
        0 <= start,
        1 <= bytes,
        start + bytes <= 4,
    ensures
        byte_position(legacy_mask(start, bytes)) == Some((start, bytes)),
        0 < legacy_mask(start, bytes) <= u32::MAX,
{
    assert(start == 0 || start == 1 || start == 2 || start == 3);
    assert(bytes == 1 || bytes == 2 || bytes == 3 || bytes == 4);
}

/// A header field is read from a table that gives its mask, with its shift, and the byte
/// order and the format that it names.
pub proof fn law_header_fields_are_read(n: crate::value::Node, serial: bool, mask: i64)
    requires
        n.get("mask"@) == Some(crate::value::Node::Integer(mask)),
        0 <= mask <= u32::MAX,
    ensures
        field_of(n, serial) matches Some(f) && {
            &&& f.mask == mask
            &&& match n.get("shift"@) {
                Some(crate::value::Node::Integer(i)) => 0 <= i <= u32::MAX ==> f.shift == Some(
                    i as u32,
                ),
                _ => f.shift is None,
            }
            &&& f.format == Some("hex"@) <==> n.get("format"@) == Some(
                crate::value::Node::Text("hex"@),
            )
            &&& f.format == Some("decimal"@) <==> n.get("format"@) == Some(
                crate::value::Node::Text("decimal"@),
            )
            &&& n.get("endianness"@) == Some(crate::value::Node::Text("big"@)) ==> f.endianness
                == Some(Endianness::Big)
            &&& n.get("endianness"@) is None && n.get("byte_order"@) == Some(
                crate::value::Node::Text("big"@),
            ) ==> f.endianness == Some(Endianness::Big)
            &&& n.get("endianness"@) is None && n.get("byte_order"@) is None
                ==> f.endianness is None
        },
{
}

} // verus!
