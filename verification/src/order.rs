//! The order of the keys of a table: numbers by value, other keys as text.

use crate::bits::DecimalValue;
use crate::document::{child, float_bits, look, sort_by_plan, Look};
use crate::number::is_greater;
use crate::text::{chars_of, is_text_before, owned, parse_integer, string_of, strip_hex_prefix};
use crate::value::Number;
use toml_edit::Item;
use vstd::prelude::*;

verus! {

/// A key without the quotes around it.
pub open spec fn stripped(key: Seq<char>) -> Seq<char> {
    if key.len() >= 2 && key[0] == '"' && key.last() == '"' {
        key.subrange(1, key.len() - 1)
    } else {
        key
    }
}

/// A key without the quotes around it.
pub fn strip_quotes(key: &str) -> (r: String)
    ensures
        r@ == stripped(key@),
{
    let chars = chars_of(key);
    if chars.len() >= 2 && chars[0] == '"' && chars[chars.len() - 1] == '"' {
        let inner = vstd::slice::slice_subrange(chars.as_slice(), 1, chars.len() - 1);
        string_of(inner)
    } else {
        owned(key)
    }
}

/// The number a key spells: a hexadecimal integer after `0x`, else a float.
pub open spec fn key_number(key: Seq<char>) -> Option<Number> {
    let inner = stripped(key);
    match crate::text::after_hex_prefix(inner) {
        Some(digits) => match crate::text::within(
            crate::text::integer(digits, 16),
            i64::MIN as int,
            i64::MAX as int,
        ) {
            Some(n) => Some(Number::Integer(n as i64)),
            None => None,
        },
        None => match crate::document::parsed_float(inner) {
            Some(bits) => Some(float_number(bits)),
            None => None,
        },
    }
}

/// A float as a number, by its bit pattern.
pub open spec fn float_number(bits: u64) -> Number {
    Number::Float { bits, decimal: DecimalValue { mantissa: 0, scale: 0 } }
}

/// The number a key spells.
pub fn parse_key_num(key: &str) -> (r: Option<Number>)
    ensures
        r == key_number(key@),
{
    let inner = strip_quotes(key);
    let chars = chars_of(inner.as_str());
    match strip_hex_prefix(chars.as_slice()) {
        Some(digits) => match parse_integer(
            digits.as_slice(),
            16,
            i64::MIN as i128,
            i64::MAX as i128,
        ) {
            Some(n) => Some(Number::Integer(n as i64)),
            None => None,
        },
        None => match float_bits(inner.as_str()) {
            Some(bits) => Some(
                Number::Float { bits, decimal: DecimalValue { mantissa: 0, scale: 0 } },
            ),
            None => None,
        },
    }
}

/// Whether one key comes after another: by value where both spell numbers, else as
/// text.
pub open spec fn key_after(a: Seq<char>, b: Seq<char>) -> bool {
    match (key_number(a), key_number(b)) {
        (Some(x), Some(y)) => crate::number::exceeds(x, y),
        _ => crate::text::text_before(b, a),
    }
}

/// Whether one key comes after another.
pub fn is_key_after(a: &str, b: &str) -> (r: bool)
    ensures
        r == key_after(a@, b@),
{
    match (parse_key_num(a), parse_key_num(b)) {
        (Some(x), Some(y)) => is_greater(x, y),
        _ => is_text_before(b, a),
    }
}

/// Keys in order, with one more, behind all that do not come after it.
pub open spec fn with_key(keys: Seq<Seq<char>>, key: Seq<char>) -> Seq<Seq<char>>
    decreases keys.len(),
{
    if keys.len() > 0 && key_after(keys.last(), key) {
        with_key(keys.drop_last(), key).push(keys.last())
    } else {
        keys.push(key)
    }
}

/// Keys put in order one by one.
pub open spec fn ordered(keys: Seq<Seq<char>>) -> Seq<Seq<char>>
    decreases keys.len(),
{
    if keys.len() == 0 {
        Seq::empty()
    } else {
        with_key(ordered(keys.drop_last()), keys.last())
    }
}

/// The ranks of keys in order: one more than the key before where the key comes
/// after it, else the same.
pub open spec fn plan_of(keys: Seq<Seq<char>>) -> Seq<(Seq<char>, nat)>
    decreases keys.len(),
{
    if keys.len() == 0 {
        Seq::empty()
    } else {
        let before = plan_of(keys.drop_last());
        before.push((keys.last(), next_rank(keys)))
    }
}

/// The rank of the last of some keys in order.
pub open spec fn next_rank(keys: Seq<Seq<char>>) -> nat
    decreases keys.len(),
{
    if keys.len() <= 1 {
        0
    } else if key_after(keys.last(), keys[keys.len() - 2]) {
        next_rank(keys.drop_last()) + 1
    } else {
        next_rank(keys.drop_last())
    }
}

/// The keys of a table, then those of its tables that are written with dotted keys.
pub open spec fn sort_keys(part: crate::document::Part) -> Seq<Seq<char>>
    decreases part,
{
    match part {
        crate::document::Part::Table { entries, .. } => crate::document::keys_of(entries)
            + dotted_keys(entries),
        _ => Seq::empty(),
    }
}

/// The keys of the tables among entries that are written with dotted keys.
pub open spec fn dotted_keys(entries: Seq<(Seq<char>, crate::document::Part)>) -> Seq<Seq<char>>
    decreases entries,
{
    if entries.len() == 0 {
        Seq::empty()
    } else {
        let e = entries[entries.len() - 1];
        dotted_keys(entries.drop_last()) + if e.1 matches crate::document::Part::Table {
            dotted: true,
            ..
        } {
            sort_keys(e.1)
        } else {
            Seq::empty()
        }
    }
}

/// A table sorted by its keys, and with it those of its tables that are written
/// with dotted keys.
pub open spec fn sorted_by_key(part: crate::document::Part) -> crate::document::Part {
    crate::document::sorted_table(part, plan_of(ordered(sort_keys(part))))
}

fn gather_keys(item: &Item, out: &mut Vec<String>)
    requires
        crate::document::item_part(*item).is_sound(),
    ensures
        crate::text::texts(final(out)@) == crate::text::texts(old(out)@) + sort_keys(
            crate::document::item_part(*item),
        ),
    decreases crate::document::item_part(*item),
{
    let ghost before = crate::text::texts(out@);
    let ghost part = crate::document::item_part(*item);
    let shown = look(item);
    if let Look::Table { keys, .. } = &shown {
        let ghost entries = part.entries();
        let ghost all = crate::text::texts(keys@);
        for i in 0..keys.len()
            invariant
                all == crate::text::texts(keys@),
                all == crate::document::keys_of(entries),
                crate::text::texts(out@) == before + all.take(i as int),
        {
            out.push(owned(keys[i].as_str()));
            assert(crate::text::texts(out@) == (before + all.take(i as int)).push(all[i as int]));
            assert(all.take(i + 1) == all.take(i as int).push(all[i as int]));
            assert(before + all.take(i + 1) == (before + all.take(i as int)).push(all[i as int]));
        }
        assert(all.take(all.len() as int) == all);
        assert(entries.take(0) == Seq::<(Seq<char>, crate::document::Part)>::empty());
        assert(before + all + Seq::<Seq<char>>::empty() == before + all);
        for i in 0..keys.len()
            invariant
                all == crate::text::texts(keys@),
                all == crate::document::keys_of(entries),
                all.no_duplicates(),
                part == crate::document::item_part(*item),
                part is Table,
                crate::document::item_part(*item).is_sound(),
                entries == part.entries(),
                crate::text::texts(out@) == before + all + dotted_keys(entries.take(i as int)),
        {
            assert(entries.take(i + 1).drop_last() == entries.take(i as int));
            assert(entries.take(i + 1)[i as int] == entries[i as int]);
            assert(all[i as int] == keys@[i as int]@ && all[i as int] == entries[i as int].0);
            proof {
                crate::document::lemma_distinct_place(entries, i as int);
                crate::document::lemma_child_decreases(part, all[i as int]);
            }
            let ghost so_far = crate::text::texts(out@);
            if let Some(c) = child(item, keys[i].as_str()) {
                if let Look::Table { dotted: true, .. } = look(c) {
                    gather_keys(c, out);
                }
            }
            let ghost e = entries[i as int];
            assert(before + all + dotted_keys(entries.take(i as int)) + sort_keys(e.1) == before
                + all + (dotted_keys(entries.take(i as int)) + sort_keys(e.1)));
            assert(before + all + (dotted_keys(entries.take(i as int)) + Seq::<Seq<char>>::empty())
                == so_far);
        }
        assert(entries.take(entries.len() as int) == entries);
        assert(before + all + dotted_keys(entries) == before + (all + dotted_keys(entries)));
    } else {
        assert(before + Seq::<Seq<char>>::empty() == before);
    }
}

fn put_in_order(keys: &[String]) -> (r: Vec<String>)
    ensures
        crate::text::texts(r@) == ordered(crate::text::texts(keys@)),
{
    let ghost all = crate::text::texts(keys@);
    let mut out: Vec<String> = Vec::new();
    for i in 0..keys.len()
        invariant
            all == crate::text::texts(keys@),
            crate::text::texts(out@) == ordered(all.take(i as int)),
    {
        let ghost sorted = crate::text::texts(out@);
        let ghost key = keys@[i as int]@;
        let mut at: usize = out.len();
        assert(sorted.take(at as int) == sorted);
        assert(sorted.skip(at as int) == Seq::<Seq<char>>::empty());
        assert(with_key(sorted, key) + Seq::<Seq<char>>::empty() == with_key(sorted, key));
        while at > 0 && is_key_after(out[at - 1].as_str(), keys[i].as_str())
            invariant
                i < keys@.len(),
                key == keys@[i as int]@,
                at <= out@.len(),
                sorted == crate::text::texts(out@),
                with_key(sorted, key) == with_key(sorted.take(at as int), key) + sorted.skip(
                    at as int,
                ),
            decreases at,
        {
            assert(sorted.take(at as int).last() == sorted[at - 1]);
            assert(sorted.take(at as int).drop_last() == sorted.take(at - 1));
            assert(with_key(sorted.take(at - 1), key).push(sorted[at - 1]) + sorted.skip(at as int)
                == with_key(sorted.take(at - 1), key) + sorted.skip(at - 1));
            at = at - 1;
        }
        if at > 0 {
            assert(sorted.take(at as int).last() == sorted[at - 1]);
        }
        out.insert(at, owned(keys[i].as_str()));
        assert(crate::text::texts(out@) == sorted.insert(at as int, key));
        assert(sorted.insert(at as int, key) == sorted.take(at as int).push(key) + sorted.skip(
            at as int,
        ));
        assert(all.take(i + 1).drop_last() == all.take(i as int));
        assert(all.take(i + 1).last() == key);
    }
    assert(all.take(all.len() as int) == all);
    out
}

fn plan(keys: Vec<String>) -> (r: Vec<(String, usize)>)
    ensures
        crate::document::plan_view(r@) == plan_of(crate::text::texts(keys@)),
{
    let ghost all = crate::text::texts(keys@);
    let mut out: Vec<(String, usize)> = Vec::new();
    let mut last: usize = 0;
    for i in 0..keys.len()
        invariant
            all == crate::text::texts(keys@),
            crate::document::plan_view(out@) == plan_of(all.take(i as int)),
            last <= i,
            last == next_rank(all.take(i as int)),
    {
        let ghost next = all.take(i + 1);
        assert(next.drop_last() == all.take(i as int));
        assert(next.last() == all[i as int]);
        if i > 0 {
            assert(next[next.len() - 2] == all[i - 1]);
            if is_key_after(keys[i].as_str(), keys[i - 1].as_str()) {
                last = last + 1;
            }
        }
        assert(last == next_rank(next));
        let ghost before = crate::document::plan_view(out@);
        out.push((owned(keys[i].as_str()), last));
        assert(crate::document::plan_view(out@) == before.push((all[i as int], last as nat)));
    }
    assert(all.take(all.len() as int) == all);
    out
}

/// Sorts a table by its keys.
pub(crate) fn sort_table(item: &mut Item)
    requires
        crate::document::item_part(*old(item)).is_sound(),
        crate::document::item_part(*old(item)) is Table,
    ensures
        crate::document::item_part(*final(item)).is_sound(),
        crate::document::item_part(*final(item)) == sorted_by_key(
            crate::document::item_part(*old(item)),
        ),
{
    let mut keys: Vec<String> = Vec::new();
    gather_keys(item, &mut keys);
    let ghost gathered = sort_keys(crate::document::item_part(*item));
    assert(Seq::<Seq<char>>::empty() + gathered == gathered);
    let sorted = put_in_order(keys.as_slice());
    let ranks = plan(sorted);
    sort_by_plan(item, ranks.as_slice());
}

// ---------------------------------------------------------------------------
// Laws
// ---------------------------------------------------------------------------

/// Whether a key spells a number that is ordered.
pub open spec fn is_ordered_number(key: Seq<char>) -> bool {
    key_number(key) matches Some(n) && !crate::number::is_nan(n)
}

/// Where the number a key spells stands.
pub open spec fn key_place_of(key: Seq<char>) -> int {
    crate::number::place(key_number(key)->Some_0)
}

/// Whether every key spells a number that is ordered.
pub open spec fn all_numbers(keys: Seq<Seq<char>>) -> bool {
    forall|i: int| 0 <= i < keys.len() ==> is_ordered_number(#[trigger] keys[i])
}

/// Whether keys that spell numbers are in order.
pub open spec fn are_ordered(keys: Seq<Seq<char>>) -> bool {
    forall|i: int, j: int|
        0 <= i <= j < keys.len() ==> key_place_of(#[trigger] keys[i]) <= key_place_of(
            #[trigger] keys[j],
        )
}

proof fn lemma_with_key(keys: Seq<Seq<char>>, key: Seq<char>)
    requires
        all_numbers(keys),
        is_ordered_number(key),
        are_ordered(keys),
    ensures
        with_key(keys, key).len() == keys.len() + 1,
        all_numbers(with_key(keys, key)),
        are_ordered(with_key(keys, key)),
        with_key(keys, key).contains(key),
        forall|k: Seq<char>| keys.contains(k) ==> #[trigger] with_key(keys, key).contains(k),
        forall|i: int|
            0 <= i < with_key(keys, key).len() ==> (#[trigger] with_key(keys, key)[i]) == key
                || keys.contains(with_key(keys, key)[i]),
    decreases keys.len(),
{
    let now = with_key(keys, key);
    if keys.len() > 0 && key_after(keys.last(), key) {
        let front = keys.drop_last();
        assert forall|i: int| 0 <= i < front.len() implies is_ordered_number(
            #[trigger] front[i],
        ) by {
            assert(front[i] == keys[i]);
        }
        assert forall|i: int, j: int| 0 <= i <= j < front.len() implies key_place_of(
            #[trigger] front[i],
        ) <= key_place_of(#[trigger] front[j]) by {
            assert(front[i] == keys[i] && front[j] == keys[j]);
        }
        lemma_with_key(front, key);
        let inner = with_key(front, key);
        assert(now == inner.push(keys.last()));
        assert forall|i: int| 0 <= i < now.len() implies (#[trigger] now[i]) == key
            || keys.contains(now[i]) by {
            if i < inner.len() {
                assert(now[i] == inner[i]);
                if inner[i] != key {
                    let m = choose|m: int| 0 <= m < front.len() && front[m] == inner[i];
                    assert(keys[m] == now[i]);
                }
            } else {
                assert(now[i] == keys[keys.len() - 1]);
            }
        }
        assert forall|i: int| 0 <= i < now.len() implies is_ordered_number(#[trigger] now[i]) by {
            if now[i] != key {
                let m = choose|m: int| 0 <= m < keys.len() && keys[m] == now[i];
                assert(is_ordered_number(keys[m]));
            }
        }
        assert forall|i: int, j: int| 0 <= i <= j < now.len() implies key_place_of(
            #[trigger] now[i],
        ) <= key_place_of(#[trigger] now[j]) by {
            if j < inner.len() {
                assert(now[i] == inner[i] && now[j] == inner[j]);
            } else {
                assert(now[j] == keys[keys.len() - 1]);
                if now[i] == key {
                } else {
                    let m = choose|m: int| 0 <= m < keys.len() && keys[m] == now[i];
                    assert(key_place_of(keys[m]) <= key_place_of(keys[keys.len() - 1]));
                }
            }
        }
        assert forall|k: Seq<char>| keys.contains(k) implies #[trigger] now.contains(k) by {
            let m = choose|m: int| 0 <= m < keys.len() && keys[m] == k;
            if m < front.len() {
                assert(front[m] == k);
                assert(front.contains(k));
                assert(inner.contains(k));
                let n = choose|n: int| 0 <= n < inner.len() && inner[n] == k;
                assert(now[n] == k);
            } else {
                assert(now[now.len() - 1] == k);
            }
        }
        let n = choose|n: int| 0 <= n < inner.len() && inner[n] == key;
        assert(now[n] == key);
    } else {
        assert(now == keys.push(key));
        assert(now[keys.len() as int] == key);
        assert forall|k: Seq<char>| keys.contains(k) implies #[trigger] now.contains(k) by {
            let m = choose|m: int| 0 <= m < keys.len() && keys[m] == k;
            assert(now[m] == k);
        }
        assert forall|i: int| 0 <= i < now.len() implies is_ordered_number(#[trigger] now[i]) by {
            if i < keys.len() {
                assert(now[i] == keys[i]);
            }
        }
        assert forall|i: int, j: int| 0 <= i <= j < now.len() implies key_place_of(
            #[trigger] now[i],
        ) <= key_place_of(#[trigger] now[j]) by {
            if j < keys.len() {
                assert(now[i] == keys[i] && now[j] == keys[j]);
            } else if i < keys.len() {
                assert(now[i] == keys[i]);
                assert(key_place_of(keys[i]) <= key_place_of(keys[keys.len() - 1]));
                assert(is_ordered_number(keys[keys.len() - 1]));
            }
        }
    }
}

proof fn lemma_ordered(keys: Seq<Seq<char>>)
    requires
        all_numbers(keys),
    ensures
        all_numbers(ordered(keys)),
        are_ordered(ordered(keys)),
        forall|k: Seq<char>| keys.contains(k) ==> #[trigger] ordered(keys).contains(k),
    decreases keys.len(),
{
    if keys.len() > 0 {
        let front = keys.drop_last();
        assert forall|i: int| 0 <= i < front.len() implies is_ordered_number(
            #[trigger] front[i],
        ) by {
            assert(front[i] == keys[i]);
        }
        lemma_ordered(front);
        assert(is_ordered_number(keys[keys.len() - 1]));
        lemma_with_key(ordered(front), keys.last());
        assert forall|k: Seq<char>| keys.contains(k) implies #[trigger] ordered(keys).contains(
            k,
        ) by {
            let m = choose|m: int| 0 <= m < keys.len() && keys[m] == k;
            if m < front.len() {
                assert(front[m] == k);
                assert(front.contains(k));
                assert(ordered(front).contains(k));
            }
        }
    }
}

proof fn lemma_plan(keys: Seq<Seq<char>>)
    requires
        all_numbers(keys),
        are_ordered(keys),
    ensures
        plan_of(keys).len() == keys.len(),
        forall|i: int| 0 <= i < keys.len() ==> (#[trigger] plan_of(keys)[i]).0 == keys[i],
        forall|i: int, j: int|
            0 <= i <= j < keys.len() ==> (#[trigger] plan_of(keys)[i]).1 <= (
            #[trigger] plan_of(keys)[j]).1,
        forall|i: int, j: int|
            0 <= i <= j < keys.len() ==> ((#[trigger] plan_of(keys)[i]).1 < (
            #[trigger] plan_of(keys)[j]).1 <==> key_place_of(keys[i]) < key_place_of(keys[j])),
        keys.len() > 0 ==> plan_of(keys).last().1 == next_rank(keys),
    decreases keys.len(),
{
    if keys.len() > 0 {
        let front = keys.drop_last();
        let plan = plan_of(keys);
        let before = plan_of(front);
        assert forall|i: int| 0 <= i < front.len() implies is_ordered_number(
            #[trigger] front[i],
        ) by {
            assert(front[i] == keys[i]);
        }
        assert forall|i: int, j: int| 0 <= i <= j < front.len() implies key_place_of(
            #[trigger] front[i],
        ) <= key_place_of(#[trigger] front[j]) by {
            assert(front[i] == keys[i] && front[j] == keys[j]);
        }
        lemma_plan(front);
        assert(plan == before.push((keys.last(), next_rank(keys))));
        let n = keys.len() - 1;
        if n > 0 {
            assert(before.last() == before[n - 1]);
            assert(is_ordered_number(keys[n]) && is_ordered_number(keys[n - 1]));
            assert(key_place_of(keys[n - 1]) <= key_place_of(keys[n]));
            assert(next_rank(front) == before[n - 1].1);
        }
        assert forall|i: int| 0 <= i < keys.len() implies (#[trigger] plan[i]).0 == keys[i] by {
            if i < n {
                assert(plan[i] == before[i]);
            }
        }
        assert forall|i: int, j: int| 0 <= i <= j < keys.len() implies (#[trigger] plan[i]).1 <= (
        #[trigger] plan[j]).1 && (plan[i].1 < plan[j].1 <==> key_place_of(keys[i]) < key_place_of(
            keys[j],
        )) by {
            if j < n {
                assert(plan[i] == before[i] && plan[j] == before[j]);
            } else if i < n {
                assert(plan[i] == before[i]);
                assert(before[i].1 <= before[n - 1].1);
                assert(key_place_of(keys[i]) <= key_place_of(keys[n - 1]));
                assert(before[i].1 < before[n - 1].1 <==> key_place_of(keys[i]) < key_place_of(
                    keys[n - 1],
                ));
            }
        }
    }
}

/// A key that a plan mentions has the rank of one of its mentions.
proof fn lemma_rank(plan: Seq<(Seq<char>, nat)>, key: Seq<char>)
    requires
        exists|i: int| 0 <= i < plan.len() && (#[trigger] plan[i]).0 == key,
    ensures
        exists|i: int|
            0 <= i < plan.len() && (#[trigger] plan[i]).0 == key && plan[i].1
                == crate::document::rank(plan, key),
    decreases plan.len(),
{
    if plan[0].0 != key {
        let rest = plan.drop_first();
        let i = choose|i: int| 0 <= i < plan.len() && (#[trigger] plan[i]).0 == key;
        assert(rest[i - 1].0 == key);
        lemma_rank(rest, key);
        let j = choose|j: int|
            0 <= j < rest.len() && (#[trigger] rest[j]).0 == key && rest[j].1
                == crate::document::rank(rest, key);
        assert(plan[j + 1] == rest[j]);
    }
}

proof fn lemma_rank_is_order(keys: Seq<Seq<char>>, a: Seq<char>, b: Seq<char>)
    requires
        all_numbers(keys),
        keys.contains(a),
        keys.contains(b),
    ensures
        crate::document::rank(plan_of(ordered(keys)), a) > crate::document::rank(
            plan_of(ordered(keys)),
            b,
        ) <==> key_after(a, b),
{
    let sorted = ordered(keys);
    let plan = plan_of(sorted);
    lemma_ordered(keys);
    lemma_plan(sorted);
    assert(sorted.contains(a) && sorted.contains(b));
    let x = choose|x: int| 0 <= x < sorted.len() && sorted[x] == a;
    let y = choose|y: int| 0 <= y < sorted.len() && sorted[y] == b;
    assert(plan[x].0 == a && plan[y].0 == b);
    lemma_rank(plan, a);
    lemma_rank(plan, b);
    let i = choose|i: int|
        0 <= i < plan.len() && (#[trigger] plan[i]).0 == a && plan[i].1 == crate::document::rank(
            plan,
            a,
        );
    let j = choose|j: int|
        0 <= j < plan.len() && (#[trigger] plan[j]).0 == b && plan[j].1 == crate::document::rank(
            plan,
            b,
        );
    assert(sorted[i] == a && sorted[j] == b);
    assert(is_ordered_number(sorted[i]) && is_ordered_number(sorted[j]));
    if i <= j {
        assert(plan[i].1 <= plan[j].1);
        assert(key_place_of(sorted[i]) <= key_place_of(sorted[j]));
    } else {
        assert(plan[j].1 < plan[i].1 <==> key_place_of(sorted[j]) < key_place_of(sorted[i]));
    }
}

proof fn lemma_with_ranked(
    entries: Seq<(Seq<char>, crate::document::Part)>,
    plan: Seq<(Seq<char>, nat)>,
    e: (Seq<char>, crate::document::Part),
)
    requires
        in_rank_order(entries, plan),
    ensures
        in_rank_order(crate::document::with_ranked(entries, plan, e), plan),
        crate::document::with_ranked(entries, plan, e).to_multiset()
            == entries.to_multiset().insert(e),
        forall|i: int|
            0 <= i < crate::document::with_ranked(entries, plan, e).len() ==> (
            #[trigger] crate::document::with_ranked(entries, plan, e)[i]) == e || entries.contains(
                crate::document::with_ranked(entries, plan, e)[i],
            ),
    decreases entries.len(),
{
    broadcast use vstd::seq_lib::group_to_multiset_ensures;

    let now = crate::document::with_ranked(entries, plan, e);
    if entries.len() > 0 && crate::document::rank(plan, entries.last().0) > crate::document::rank(
        plan,
        e.0,
    ) {
        let front = entries.drop_last();
        assert forall|i: int, j: int| 0 <= i <= j < front.len() implies crate::document::rank(
            plan,
            (#[trigger] front[i]).0,
        ) <= crate::document::rank(plan, (#[trigger] front[j]).0) by {
            assert(front[i] == entries[i] && front[j] == entries[j]);
        }
        lemma_with_ranked(front, plan, e);
        let inner = crate::document::with_ranked(front, plan, e);
        assert(now == inner.push(entries.last()));
        assert(entries == front.push(entries.last()));
        assert(now.to_multiset() =~= entries.to_multiset().insert(e));
        assert forall|i: int| 0 <= i < now.len() implies (#[trigger] now[i]) == e
            || entries.contains(now[i]) by {
            if i < inner.len() {
                assert(now[i] == inner[i]);
                if inner[i] != e {
                    let m = choose|m: int| 0 <= m < front.len() && front[m] == inner[i];
                    assert(entries[m] == now[i]);
                }
            } else {
                assert(now[i] == entries[entries.len() - 1]);
            }
        }
        assert forall|i: int, j: int| 0 <= i <= j < now.len() implies crate::document::rank(
            plan,
            (#[trigger] now[i]).0,
        ) <= crate::document::rank(plan, (#[trigger] now[j]).0) by {
            if j < inner.len() {
                assert(now[i] == inner[i] && now[j] == inner[j]);
            } else if i < inner.len() {
                assert(now[j] == entries[entries.len() - 1]);
                if now[i] != e {
                    let m = choose|m: int| 0 <= m < entries.len() && entries[m] == now[i];
                    assert(crate::document::rank(plan, entries[m].0) <= crate::document::rank(
                        plan,
                        entries[entries.len() - 1].0,
                    ));
                }
            }
        }
    } else {
        assert(now == entries.push(e));
        assert forall|i: int| 0 <= i < now.len() implies (#[trigger] now[i]) == e
            || entries.contains(now[i]) by {
            if i < entries.len() {
                assert(now[i] == entries[i]);
            }
        }
        assert forall|i: int, j: int| 0 <= i <= j < now.len() implies crate::document::rank(
            plan,
            (#[trigger] now[i]).0,
        ) <= crate::document::rank(plan, (#[trigger] now[j]).0) by {
            if j < entries.len() {
                assert(now[i] == entries[i] && now[j] == entries[j]);
            } else if i < entries.len() {
                assert(now[i] == entries[i]);
                assert(crate::document::rank(plan, entries[i].0) <= crate::document::rank(
                    plan,
                    entries[entries.len() - 1].0,
                ));
            }
        }
    }
}

/// Whether entries are in order of rank.
pub open spec fn in_rank_order(
    entries: Seq<(Seq<char>, crate::document::Part)>,
    plan: Seq<(Seq<char>, nat)>,
) -> bool {
    forall|i: int, j: int|
        0 <= i <= j < entries.len() ==> crate::document::rank(plan, (#[trigger] entries[i]).0)
            <= crate::document::rank(plan, (#[trigger] entries[j]).0)
}

proof fn lemma_ranked(
    entries: Seq<(Seq<char>, crate::document::Part)>,
    plan: Seq<(Seq<char>, nat)>,
)
    ensures
        in_rank_order(crate::document::ranked(entries, plan), plan),
        crate::document::ranked(entries, plan).to_multiset() == entries.to_multiset(),
    decreases entries.len(),
{
    broadcast use vstd::seq_lib::group_to_multiset_ensures;

    if entries.len() > 0 {
        lemma_ranked(entries.drop_last(), plan);
        lemma_with_ranked(
            crate::document::ranked(entries.drop_last(), plan),
            plan,
            entries.last(),
        );
        assert(entries == entries.drop_last().push(entries.last()));
    }
}

proof fn lemma_sorted_within(
    entries: Seq<(Seq<char>, crate::document::Part)>,
    plan: Seq<(Seq<char>, nat)>,
)
    ensures
        crate::document::keys_of(crate::document::sorted_within(entries, plan))
            == crate::document::keys_of(entries),
        (forall|i: int|
            0 <= i < entries.len() ==> !((#[trigger] entries[i]).1 matches
                crate::document::Part::Table { dotted: true, .. })) ==> crate::document::sorted_within(
            entries,
            plan,
        ) == entries,
    decreases entries.len(),
{
    if entries.len() > 0 {
        let front = entries.drop_last();
        lemma_sorted_within(front, plan);
        let now = crate::document::sorted_within(entries, plan);
        let before = crate::document::sorted_within(front, plan);
        assert(crate::document::keys_of(before).len() == before.len());
        assert(crate::document::keys_of(front).len() == front.len());
        assert(crate::document::keys_of(now) =~= crate::document::keys_of(before).push(
            entries.last().0,
        ));
        assert(crate::document::keys_of(entries) =~= crate::document::keys_of(front).push(
            entries.last().0,
        ));
        if forall|i: int|
            0 <= i < entries.len() ==> !((#[trigger] entries[i]).1 matches
                crate::document::Part::Table { dotted: true, .. }) {
            assert forall|i: int| 0 <= i < front.len() implies !((#[trigger] front[i]).1 matches
                crate::document::Part::Table { dotted: true, .. }) by {
                assert(front[i] == entries[i]);
            }
            let last = entries[entries.len() - 1];
            assert(now =~= front.push(last));
            assert(entries =~= front.push(last));
        }
    }
}

/// Sorting a table keeps every entry of it; those of its tables that are written
/// with dotted keys are sorted too, and there are none here.
pub proof fn law_sorting_keeps_every_entry(part: crate::document::Part)
    requires
        part is Table,
        forall|i: int|
            0 <= i < part.entries().len() ==> !((#[trigger] part.entries()[i]).1 matches
                crate::document::Part::Table { dotted: true, .. }),
    ensures
        sorted_by_key(part).entries().to_multiset() == part.entries().to_multiset(),
{
    let plan = plan_of(ordered(sort_keys(part)));
    lemma_sorted_within(part.entries(), plan);
    lemma_ranked(part.entries(), plan);
}

/// A table whose keys all spell numbers is sorted by their values.
pub proof fn law_numeric_keys_come_out_in_order(part: crate::document::Part, i: int, j: int)
    requires
        part is Table,
        all_numbers(sort_keys(part)),
        0 <= i < j < sorted_by_key(part).entries().len(),
    ensures
        !key_after(sorted_by_key(part).entries()[i].0, sorted_by_key(part).entries()[j].0),
{
    broadcast use vstd::seq_lib::group_to_multiset_ensures;

    let entries = part.entries();
    let keys = sort_keys(part);
    let plan = plan_of(ordered(keys));
    let within = crate::document::sorted_within(entries, plan);
    let now = crate::document::ranked(within, plan);
    lemma_sorted_within(entries, plan);
    lemma_ranked(within, plan);
    assert(sorted_by_key(part).entries() == now);
    assert forall|k: int| 0 <= k < now.len() implies keys.contains((#[trigger] now[k]).0) by {
        assert(now.contains(now[k]));
        assert(now.to_multiset().contains(now[k]));
        assert(within.contains(now[k]));
        let m = choose|m: int| 0 <= m < within.len() && within[m] == now[k];
        assert(crate::document::keys_of(within)[m] == now[k].0);
        assert(crate::document::keys_of(entries)[m] == now[k].0);
        assert(keys[m] == now[k].0);
    }
    assert(crate::document::rank(plan, now[i].0) <= crate::document::rank(plan, now[j].0));
    assert(keys.contains(now[i].0) && keys.contains(now[j].0));
    lemma_rank_is_order(keys, now[i].0, now[j].0);
}

} // verus!
