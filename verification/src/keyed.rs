//! Entries in the order of their keys, no key twice: what a map sorted by text keeps.

use crate::text::{is_text_before, owned, str_eq};
use vstd::prelude::*;

verus! {

/// Entries in the order of their keys, with one more; one that has its key gives way.
pub open spec fn with_key<V>(sorted: Seq<(Seq<char>, V)>, e: (Seq<char>, V)) -> Seq<
    (Seq<char>, V),
>
    decreases sorted.len(),
{
    if sorted.len() == 0 || crate::text::text_before(sorted.last().0, e.0) {
        sorted.push(e)
    } else if sorted.last().0 == e.0 {
        sorted.drop_last().push(e)
    } else {
        with_key(sorted.drop_last(), e).push(sorted.last())
    }
}

/// Entries in the order of their keys; of those with one key the last stays.
pub open spec fn by_key<V>(entries: Seq<(Seq<char>, V)>) -> Seq<(Seq<char>, V)>
    decreases entries.len(),
{
    if entries.len() == 0 {
        Seq::empty()
    } else {
        with_key(by_key(entries.drop_last()), entries.last())
    }
}

/// Whether the key of each entry comes before those of all behind it.
pub open spec fn keys_ascend<V>(entries: Seq<(Seq<char>, V)>) -> bool {
    forall|i: int, j: int|
        0 <= i < j < entries.len() ==> crate::text::text_before(
            (#[trigger] entries[i]).0,
            (#[trigger] entries[j]).0,
        )
}

/// Adding an entry keeps the order, and adds nothing else.
pub proof fn lemma_with_key<V>(sorted: Seq<(Seq<char>, V)>, e: (Seq<char>, V))
    requires
        keys_ascend(sorted),
    ensures
        keys_ascend(with_key(sorted, e)),
        forall|i: int|
            0 <= i < with_key(sorted, e).len() ==> #[trigger] with_key(sorted, e)[i] == e
                || sorted.contains(with_key(sorted, e)[i]),
    decreases sorted.len(),
{
    let now = with_key(sorted, e);
    if sorted.len() == 0 {
    } else {
        let last = sorted.last();
        let front = sorted.drop_last();
        crate::text::lemma_text_order_is_total(last.0, e.0);
        assert(sorted[sorted.len() - 1] == last);
        if crate::text::text_before(last.0, e.0) {
            assert forall|i: int, j: int| 0 <= i < j < now.len() implies crate::text::text_before(
                (#[trigger] now[i]).0,
                (#[trigger] now[j]).0,
            ) by {
                if j == sorted.len() && i < sorted.len() - 1 {
                    assert(crate::text::text_before(sorted[i].0, sorted[sorted.len() - 1].0));
                    crate::text::lemma_text_order_is_transitive(sorted[i].0, last.0, e.0);
                } else if j < sorted.len() {
                    assert(crate::text::text_before(sorted[i].0, sorted[j].0));
                }
            }
            assert forall|i: int| 0 <= i < now.len() implies #[trigger] now[i] == e
                || sorted.contains(now[i]) by {
                if i < sorted.len() {
                    assert(now[i] == sorted[i]);
                }
            }
        } else if last.0 == e.0 {
            assert forall|i: int, j: int| 0 <= i < j < now.len() implies crate::text::text_before(
                (#[trigger] now[i]).0,
                (#[trigger] now[j]).0,
            ) by {
                assert(crate::text::text_before(sorted[i].0, sorted[j].0));
            }
            assert forall|i: int| 0 <= i < now.len() implies #[trigger] now[i] == e
                || sorted.contains(now[i]) by {
                if i < front.len() {
                    assert(now[i] == sorted[i]);
                }
            }
        } else {
            assert forall|i: int, j: int| 0 <= i < j < front.len() implies crate::text::text_before(
                (#[trigger] front[i]).0,
                (#[trigger] front[j]).0,
            ) by {
                assert(crate::text::text_before(sorted[i].0, sorted[j].0));
            }
            lemma_with_key(front, e);
            let rest = with_key(front, e);
            assert forall|i: int| 0 <= i < rest.len() implies crate::text::text_before(
                (#[trigger] rest[i]).0,
                last.0,
            ) && (rest[i] == e || sorted.contains(rest[i])) by {
                if rest[i] != e {
                    let k = choose|k: int| 0 <= k < front.len() && front[k] == rest[i];
                    assert(sorted[k] == rest[i]);
                    assert(crate::text::text_before(sorted[k].0, sorted[sorted.len() - 1].0));
                }
            }
            assert forall|i: int, j: int| 0 <= i < j < now.len() implies crate::text::text_before(
                (#[trigger] now[i]).0,
                (#[trigger] now[j]).0,
            ) by {
                assert(now[i] == rest[i]);
                if j < rest.len() {
                    assert(now[j] == rest[j]);
                }
            }
            assert forall|i: int| 0 <= i < now.len() implies #[trigger] now[i] == e
                || sorted.contains(now[i]) by {
                if i < rest.len() {
                    assert(now[i] == rest[i]);
                }
            }
        }
    }
}

/// Entries in the order of their keys are entries, with no key twice.
pub proof fn lemma_by_key<V>(entries: Seq<(Seq<char>, V)>)
    ensures
        keys_ascend(by_key(entries)),
        forall|i: int|
            0 <= i < by_key(entries).len() ==> entries.contains(#[trigger] by_key(entries)[i]),
    decreases entries.len(),
{
    if entries.len() > 0 {
        let front = entries.drop_last();
        let now = by_key(entries);
        lemma_by_key(front);
        lemma_with_key(by_key(front), entries.last());
        assert forall|i: int| 0 <= i < now.len() implies entries.contains(#[trigger] now[i]) by {
            if now[i] == entries.last() {
                assert(entries[entries.len() - 1] == now[i]);
            } else {
                let before = by_key(front);
                let k = choose|k: int| 0 <= k < before.len() && before[k] == now[i];
                assert(front.contains(before[k]));
                let m = choose|m: int| 0 <= m < front.len() && front[m] == before[k];
                assert(entries[m] == now[i]);
            }
        }
    }
}

/// An entry whose key comes before that of the last of some entries goes before that one.
pub proof fn lemma_with_key_behind<V>(sorted: Seq<(Seq<char>, V)>, e: (Seq<char>, V), at: int)
    requires
        0 < at <= sorted.len(),
        crate::text::text_before(e.0, sorted[at - 1].0),
    ensures
        with_key(sorted.take(at), e) + sorted.skip(at) == with_key(sorted.take(at - 1), e)
            + sorted.skip(at - 1),
{
    let head = sorted.take(at);
    crate::text::lemma_text_order_is_total(e.0, head.last().0);
    assert(head.drop_last() == sorted.take(at - 1));
    assert(with_key(head, e) == with_key(sorted.take(at - 1), e).push(sorted[at - 1]));
    assert(sorted.skip(at - 1) == seq![sorted[at - 1]] + sorted.skip(at));
    assert(with_key(sorted.take(at - 1), e).push(sorted[at - 1]) + sorted.skip(at) =~= with_key(
        sorted.take(at - 1),
        e,
    ) + sorted.skip(at - 1));
}

/// Entries by the texts of their keys.
pub open spec fn keyed<V>(list: Seq<(String, V)>) -> Seq<(Seq<char>, V)> {
    list.map_values(|e: (String, V)| (e.0@, e.1))
}

/// Entries with each value changed alike.
pub open spec fn mapped<V, W>(entries: Seq<(Seq<char>, V)>, f: spec_fn(V) -> W) -> Seq<
    (Seq<char>, W),
> {
    entries.map_values(|e: (Seq<char>, V)| (e.0, f(e.1)))
}

/// The order is one of the keys: the values may change before or after.
pub proof fn lemma_with_key_mapped<V, W>(
    sorted: Seq<(Seq<char>, V)>,
    e: (Seq<char>, V),
    f: spec_fn(V) -> W,
)
    ensures
        mapped(with_key(sorted, e), f) == with_key(mapped(sorted, f), (e.0, f(e.1))),
    decreases sorted.len(),
{
    let now = mapped(sorted, f);
    if sorted.len() == 0 {
        assert(mapped(with_key(sorted, e), f) =~= with_key(now, (e.0, f(e.1))));
    } else {
        assert(now.last() == (sorted.last().0, f(sorted.last().1)));
        assert(now.drop_last() =~= mapped(sorted.drop_last(), f));
        lemma_with_key_mapped(sorted.drop_last(), e, f);
        assert(mapped(with_key(sorted, e), f) =~= with_key(now, (e.0, f(e.1))));
    }
}

/// Adds an entry in its place; one that has its key gives way.
pub(crate) fn insert_keyed<V>(list: &mut Vec<(String, V)>, key: &str, value: V)
    ensures
        keyed(final(list)@) == with_key(keyed(old(list)@), (key@, value)),
{
    let ghost before = keyed(list@);
    let ghost e = (key@, value);
    let mut at: usize = list.len();
    assert(before.take(at as int) == before);
    assert(with_key(before, e) + before.skip(at as int) == with_key(before, e));
    while at > 0 && is_text_before(key, list[at - 1].0.as_str())
        invariant
            at <= list@.len(),
            before == keyed(list@),
            e == (key@, value),
            with_key(before, e) == with_key(before.take(at as int), e) + before.skip(at as int),
        decreases at,
    {
        assert(before[at - 1].0 == list@[at - 1].0@);
        proof {
            lemma_with_key_behind(before, e, at as int);
        }
        at = at - 1;
    }
    let ghost head = before.take(at as int);
    proof {
        if at > 0 {
            assert(head.last() == before[at - 1]);
            assert(before[at - 1].0 == list@[at - 1].0@);
            crate::text::lemma_text_order_is_total(key@, head.last().0);
        }
    }
    if at > 0 && str_eq(list[at - 1].0.as_str(), key) {
        list.set(at - 1, (owned(key), value));
        assert(keyed(list@) == head.drop_last().push(e) + before.skip(at as int));
    } else {
        list.insert(at, (owned(key), value));
        assert(keyed(list@) == head.push(e) + before.skip(at as int));
    }
}

} // verus!
