//! Matching a multiplexer's selector against its case keys.

use crate::parse::{is_reserved_key, split_dash};
use crate::text::{are_digits, chars_of, parse_integer, parse_natural, split_commas, trim_chars};
use vstd::prelude::*;

verus! {

/// The widest span of a range that is matched in full.
pub const MAX_RANGE_SPAN: i128 = 1000;

/// The bounds of a range `a-b`: digits, each with a minus sign or without.
pub open spec fn range_of(part: Seq<char>) -> Option<(int, int)> {
    let negative = part.len() > 0 && part[0] == '-';
    let rest = if negative {
        part.skip(1)
    } else {
        part
    };
    match crate::parse::around_dash(rest) {
        Some((a, b)) => if crate::text::all_digits(a) && !(b.len() > 0 && b[0] == '+') {
            match (
                crate::text::within(crate::text::natural(a, 10), 0, i64::MAX as int),
                crate::text::within(
                    crate::text::integer(b, 10),
                    i64::MIN as int,
                    i64::MAX as int,
                ),
            ) {
                (Some(x), Some(y)) => Some(
                    (
                        if negative {
                            -x
                        } else {
                            x
                        },
                        y,
                    ),
                ),
                _ => None,
            }
        } else {
            None
        },
        None => None,
    }
}

/// Split `"a-b"` into signed integer bounds.
fn split_range(part: &[char]) -> (r: Option<(i64, i64)>)
    ensures
        match r {
            Some((a, b)) => range_of(part@) == Some((a as int, b as int)),
            None => range_of(part@) is None,
        },
{
    let negative: bool = part.len() > 0 && part[0] == '-';
    let rest = if negative {
        vstd::slice::slice_subrange(part, 1, part.len())
    } else {
        part
    };
    assert(negative ==> rest@ == part@.skip(1));
    let (digits, other) = match split_dash(rest) {
        Some(pair) => pair,
        None => {
            return None;
        },
    };
    if !are_digits(digits.as_slice()) || (other.len() > 0 && other[0] == '+') {
        return None;
    }
    let a: u128 = match parse_natural(digits.as_slice(), 10, 0x7FFF_FFFF_FFFF_FFFF) {
        Some(a) => a,
        None => {
            return None;
        },
    };
    let b: i128 = match parse_integer(
        other.as_slice(),
        10,
        -0x8000_0000_0000_0000,
        0x7FFF_FFFF_FFFF_FFFF,
    ) {
        Some(b) => b,
        None => {
            return None;
        },
    };
    let bound: i64 = if negative {
        -(a as i64)
    } else {
        a as i64
    };
    Some((bound, b as i64))
}

/// The lower and upper end of a range of values, cut at [`MAX_RANGE_SPAN`].
pub open spec fn span_of(range: (int, int)) -> (int, int) {
    let low = if range.0 <= range.1 {
        range.0
    } else {
        range.1
    };
    let high = if range.0 <= range.1 {
        range.1
    } else {
        range.0
    };
    if high - low > MAX_RANGE_SPAN {
        (low, low + MAX_RANGE_SPAN)
    } else {
        (low, high)
    }
}

/// The values one part of a case key stands for.
pub open spec fn part_values(part: Seq<char>) -> Seq<int> {
    let p = crate::text::trimmed(part);
    if p.len() == 0 {
        Seq::empty()
    } else {
        match range_of(p) {
            Some(range) => {
                let (low, high) = span_of(range);
                Seq::new((high - low + 1) as nat, |i: int| low + i)
            },
            None => match crate::text::within(
                crate::text::integer(p, 10),
                i64::MIN as int,
                i64::MAX as int,
            ) {
                Some(n) => seq![n],
                None => Seq::empty(),
            },
        }
    }
}

/// The values a case key (`"0"`, `"0-3"`, `"1,2,5"`, `"0-3,7"`) stands for.
pub open spec fn case_values(key: Seq<char>) -> Seq<int> {
    if crate::parse::is_reserved(key) {
        Seq::empty()
    } else {
        crate::detect::flat(crate::text::comma_parts(key), |part: Seq<char>| part_values(part))
    }
}

/// Integers, as a mathematical value.
pub open spec fn integers(values: Seq<i64>) -> Seq<int> {
    values.map_values(|v: i64| v as int)
}

fn push_part(values: &mut Vec<i64>, part: &[char])
    ensures
        integers(final(values)@) == integers(old(values)@) + part_values(part@),
{
    let ghost start = integers(values@);
    assert(start + Seq::<int>::empty() == start);
    let p = trim_chars(part);
    if p.len() == 0 {
        return;
    }
    if let Some((a, b)) = split_range(p.as_slice()) {
        let low: i64 = if a <= b {
            a
        } else {
            b
        };
        let high: i64 = if a <= b {
            b
        } else {
            a
        };
        let top: i64 = if high as i128 - low as i128 > MAX_RANGE_SPAN {
            (low as i128 + MAX_RANGE_SPAN) as i64
        } else {
            high
        };
        let count: u64 = (top as i128 - low as i128 + 1) as u64;
        let ghost all = Seq::new((top - low + 1) as nat, |i: int| low + i);
        assert(all == part_values(part@));
        for i in 0..count
            invariant
                count == top - low + 1,
                1 <= count <= 1001,
                all == Seq::new((top - low + 1) as nat, |i: int| low + i),
                integers(values@) == start + all.take(i as int),
        {
            let ghost before = integers(values@);
            let v: i64 = (low as i128 + i as i128) as i64;
            values.push(v);
            assert(integers(values@) == before.push(v as int));
            assert(all.take(i + 1) == all.take(i as int).push(v as int));
            assert(integers(values@) == start + all.take(i + 1));
        }
        assert(all.take(all.len() as int) == all);
        return;
    }
    if let Some(n) = parse_integer(
        p.as_slice(),
        10,
        -0x8000_0000_0000_0000,
        0x7FFF_FFFF_FFFF_FFFF,
    ) {
        values.push(n as i64);
        assert(integers(values@) == start + seq![n as int]);
    }
}

/// Expand a mux case key (`"0"`, `"0-3"`, `"1,2,5"`, `"0-3,7"`) to the set of
/// values it matches. `None` if the key has no numeric parts.
pub fn parse_mux_case_values(key: &str) -> (r: Option<Vec<i64>>)
    ensures
        match r {
            Some(values) => case_values(key@) == integers(values@) && values@.len() > 0,
            None => case_values(key@).len() == 0,
        },
{
    if is_reserved_key(key) {
        return None;
    }
    let chars = chars_of(key);
    let parts = split_commas(chars.as_slice());
    let ghost all = crate::text::comma_parts(key@);
    let ghost each = |part: Seq<char>| part_values(part);
    let mut values: Vec<i64> = Vec::new();
    assert(integers(values@) == crate::detect::flat(all.take(0), each));
    for i in 0..parts.len()
        invariant
            all == crate::text::char_lists(parts@),
            each == |part: Seq<char>| part_values(part),
            integers(values@) == crate::detect::flat(all.take(i as int), each),
    {
        assert(all.take(i + 1).drop_last() == all.take(i as int));
        assert(all.take(i + 1).last() == parts@[i as int]@);
        push_part(&mut values, parts[i].as_slice());
    }
    assert(all.take(all.len() as int) == all);
    if values.len() == 0 {
        None
    } else {
        Some(values)
    }
}

/// True if `selector` matches the case key pattern.
pub fn mux_case_matches(selector: i64, case_key: &str) -> (r: bool)
    ensures
        r == case_values(case_key@).contains(selector as int),
{
    let values = match parse_mux_case_values(case_key) {
        Some(values) => values,
        None => {
            return false;
        },
    };
    let ghost all = integers(values@);
    for i in 0..values.len()
        invariant
            all == integers(values@),
            all == case_values(case_key@),
            forall|j: int| 0 <= j < i ==> all[j] != selector,
    {
        assert(all[i as int] == values@[i as int]);
        if values[i] == selector {
            return true;
        }
    }
    false
}

/// The first of the keys that matches a selector.
pub open spec fn matching_case(selector: int, keys: Seq<Seq<char>>) -> Option<int>
    decreases keys.len(),
{
    if keys.len() == 0 {
        None
    } else {
        match matching_case(selector, keys.drop_last()) {
            Some(i) => Some(i),
            None => if case_values(keys.last()).contains(selector) {
                Some(keys.len() - 1)
            } else {
                None
            },
        }
    }
}

/// The first match stays the first, whatever keys follow.
pub proof fn lemma_match_stays(selector: int, keys: Seq<Seq<char>>, n: int)
    requires
        0 <= n <= keys.len(),
        matching_case(selector, keys.take(n)) is Some,
    ensures
        matching_case(selector, keys) == matching_case(selector, keys.take(n)),
    decreases keys.len() - n,
{
    if n < keys.len() {
        assert(keys.take(n + 1).drop_last() == keys.take(n));
        lemma_match_stays(selector, keys, n + 1);
    } else {
        assert(keys.take(n) == keys);
    }
}

/// Case keys, as a mathematical value.
pub open spec fn key_texts(keys: Seq<&str>) -> Seq<Seq<char>> {
    keys.map_values(|k: &str| k@)
}

/// First case key matching `selector`, in iteration order.
pub fn find_matching_mux_case<'a>(selector: i64, keys: &[&'a str]) -> (r: Option<&'a str>)
    ensures
        match r {
            Some(k) => matching_case(selector as int, key_texts(keys@)) matches Some(i) && k@
                == key_texts(keys@)[i],
            None => matching_case(selector as int, key_texts(keys@)) is None,
        },
{
    let ghost all = key_texts(keys@);
    for i in 0..keys.len()
        invariant
            all == key_texts(keys@),
            matching_case(selector as int, all.take(i as int)) is None,
    {
        assert(all.take(i + 1).drop_last() == all.take(i as int));
        assert(all.take(i + 1).last() == keys@[i as int]@);
        if mux_case_matches(selector, keys[i]) {
            proof {
                lemma_match_stays(selector as int, all, i + 1);
            }
            return Some(keys[i]);
        }
    }
    assert(all.take(all.len() as int) == all);
    None
}

/// A range of at most [`MAX_RANGE_SPAN`] matches exactly the values between its
/// bounds, in whichever order they are written.
pub proof fn law_ranges_match_what_lies_between(part: Seq<char>, v: int)
    requires
        range_of(crate::text::trimmed(part)) is Some,
        ({
            let (a, b) = range_of(crate::text::trimmed(part))->Some_0;
            -MAX_RANGE_SPAN <= b - a <= MAX_RANGE_SPAN
        }),
    ensures
        ({
            let (a, b) = range_of(crate::text::trimmed(part))->Some_0;
            part_values(part).contains(v) <==> (a <= v <= b || b <= v <= a)
        }),
{
    let p = crate::text::trimmed(part);
    let range = range_of(p)->Some_0;
    let (low, high) = span_of(range);
    let values = part_values(part);
    assert(p.len() > 0);
    assert(values == Seq::new((high - low + 1) as nat, |i: int| low + i));
    if low <= v <= high {
        assert(values[v - low] == v);
    }
}

/// A selector matches a key of several parts exactly when it matches one of
/// them.
pub proof fn law_lists_match_any_of_their_parts(key: Seq<char>, v: int)
    requires
        !crate::parse::is_reserved(key),
    ensures
        case_values(key).contains(v) <==> exists|i: int|
            0 <= i < crate::text::comma_parts(key).len() && part_values(
                #[trigger] crate::text::comma_parts(key)[i],
            ).contains(v),
{
    lemma_flat_contains(crate::text::comma_parts(key), v);
}

proof fn lemma_flat_contains(parts: Seq<Seq<char>>, v: int)
    ensures
        crate::detect::flat(parts, |part: Seq<char>| part_values(part)).contains(v)
            <==> exists|i: int|
            0 <= i < parts.len() && part_values(#[trigger] parts[i]).contains(v),
    decreases parts.len(),
{
    let each = |part: Seq<char>| part_values(part);
    if parts.len() > 0 {
        let before = parts.drop_last();
        lemma_flat_contains(before, v);
        let head = crate::detect::flat(before, each);
        let tail = part_values(parts.last());
        let all = crate::detect::flat(parts, each);
        assert(all == head + tail);
        if all.contains(v) {
            let k = choose|k: int| 0 <= k < all.len() && all[k] == v;
            if k < head.len() {
                assert(head[k] == v);
                let i = choose|i: int|
                    0 <= i < before.len() && part_values(#[trigger] before[i]).contains(v);
                assert(parts[i] == before[i]);
            } else {
                assert(tail[k - head.len()] == v);
                assert(parts[parts.len() - 1] == parts.last());
            }
        }
        if exists|i: int| 0 <= i < parts.len() && part_values(#[trigger] parts[i]).contains(v) {
            let i = choose|i: int|
                0 <= i < parts.len() && part_values(#[trigger] parts[i]).contains(v);
            if i < before.len() {
                assert(before[i] == parts[i]);
                let k = choose|k: int| 0 <= k < head.len() && head[k] == v;
                assert(all[k] == v);
            } else {
                let k = choose|k: int| 0 <= k < tail.len() && tail[k] == v;
                assert(all[head.len() + k] == v);
            }
        }
    }
}

proof fn lemma_no_dash(s: Seq<char>)
    requires
        forall|i: int| 0 <= i < s.len() ==> (#[trigger] s[i]) != '-',
    ensures
        crate::parse::around_dash(s) is None,
    decreases s.len(),
{
    if s.len() > 0 {
        let rest = s.skip(1);
        assert forall|i: int| 0 <= i < rest.len() implies (#[trigger] rest[i]) != '-' by {
            assert(rest[i] == s[i + 1]);
        }
        lemma_no_dash(rest);
        assert(s[0] != '-');
    }
}

proof fn lemma_plain_digits(n: nat)
    ensures
        ({
            let d = crate::text::decimal(n);
            &&& d.len() > 0
            &&& crate::text::digit_value(d[0]) < 10
            &&& forall|i: int|
                0 <= i < d.len() ==> (#[trigger] d[i]) != '-' && d[i] != ','
                    && !crate::text::is_space(d[i])
        }),
{
    let d = crate::text::decimal(n);
    crate::text::law_written_numbers_read_back(n);
    assert forall|i: int| 0 <= i < d.len() implies (#[trigger] d[i]) != '-' && d[i] != ','
        && !crate::text::is_space(d[i]) by {
        assert(crate::text::digit_value(d[i]) < 10);
    }
}

proof fn lemma_plain_part(n: nat)
    requires
        n <= i64::MAX,
    ensures
        part_values(crate::text::decimal(n)) == seq![n as int],
        crate::text::comma_parts(crate::text::decimal(n)) == seq![crate::text::decimal(n)],
{
    let d = crate::text::decimal(n);
    lemma_plain_digits(n);
    assert(crate::text::trimmed(d) == d) by {
        crate::text::law_trimming_takes_the_white_space(d);
        assert(!crate::text::is_space(d[0]) && !crate::text::is_space(d[d.len() - 1]));
    }
    assert(crate::text::comma_parts(d) == seq![d]) by {
        crate::text::law_commas_part_a_text(Seq::empty(), d);
    }
    assert(range_of(d) is None) by {
        lemma_no_dash(d);
    }
    assert(crate::text::integer(d, 10) == Some(n as int)) by {
        crate::text::law_written_numbers_read_back(n);
        assert(crate::text::signed_decimal(n as int) == d);
    }
}

proof fn lemma_plain_is_not_reserved(n: nat)
    ensures
        !crate::parse::is_reserved(crate::text::decimal(n)),
{
    let d = crate::text::decimal(n);
    lemma_plain_digits(n);
    reveal_strlit("name");
    reveal_strlit("start_bit");
    reveal_strlit("bit_length");
    reveal_strlit("default");
    assert("name"@[0] == 'n' && "start_bit"@[0] == 's');
    assert("bit_length"@[0] == 'b' && "default"@[0] == 'd');
}

/// A key that is a plain number matches that number and no other.
pub proof fn law_plain_keys_match_their_number(n: nat, selector: int)
    requires
        n <= i64::MAX,
    ensures
        case_values(crate::text::decimal(n)).contains(selector) <==> selector == n,
{
    let d = crate::text::decimal(n);
    lemma_plain_part(n);
    lemma_plain_is_not_reserved(n);
    law_lists_match_any_of_their_parts(d, selector);
    let parts = crate::text::comma_parts(d);
    let own = seq![n as int];
    assert(parts[0] == d && own[0] == n);
    if case_values(d).contains(selector) {
        let i = choose|i: int| 0 <= i < parts.len() && part_values(#[trigger] parts[i]).contains(
            selector,
        );
        let k = choose|k: int| 0 <= k < own.len() && own[k] == selector;
    } else {
        assert(!part_values(parts[0]).contains(selector));
        assert(own.contains(n as int));
    }
}

/// The case that matches is the first that does.
pub proof fn law_the_first_match_applies(selector: int, keys: Seq<Seq<char>>)
    ensures
        match matching_case(selector, keys) {
            Some(i) => 0 <= i < keys.len() && case_values(keys[i]).contains(selector)
                && forall|j: int| 0 <= j < i ==> !case_values(#[trigger] keys[j]).contains(selector),
            None => forall|j: int|
                0 <= j < keys.len() ==> !case_values(#[trigger] keys[j]).contains(selector),
        },
    decreases keys.len(),
{
    if keys.len() > 0 {
        let front = keys.drop_last();
        law_the_first_match_applies(selector, front);
        assert(forall|j: int| 0 <= j < front.len() ==> front[j] == #[trigger] keys[j]);
    }
}

} // verus!
