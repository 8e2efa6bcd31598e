//! What holds of every merged answer, over the merge's specifications.
use vstd::prelude::*;

use crate::aggregate::{
    lemma_merge_entries_contents, lemma_merge_entries_no_duplicates, lemma_merge_entries_ordered, merge_entries,
    ordered_in, EntryView,
};
use crate::decimal::lemma_parse_int_text;
use crate::direction::Direction;
use crate::federation::{
    add_new, decode_values, decode_wire, encode_entries, find_stream_from, lemma_find_stream_range, merge_item,
    merge_items, merge_label_outcomes, merge_outcomes, merge_serie_outcomes, with_values,
};
use crate::labels::LabelView;
use crate::response::StreamView;

verus! {

/// Reading back entries written in wire form gives the entries.
pub proof fn lemma_decode_encode(e: Seq<EntryView>)
    ensures
        decode_values(Some(encode_entries(e))) == Ok::<Seq<EntryView>, crate::response::LokiError>(e),
{
    let w = encode_entries(e);
    assert forall|i: int| 0 <= i < w.len() implies (#[trigger] crate::decimal::parse_i64_spec(w[i].0)) == Some(e[i].0) by {
        lemma_parse_int_text(e[i].0);
    }
    assert(decode_wire(w).unwrap() =~= e);
}

/// Every log stream among `items` has values that read as entries of which
/// `good` holds.
pub open spec fn streams_read_as(items: Seq<StreamView>, good: spec_fn(Seq<EntryView>) -> bool) -> bool {
    forall|k: int|
        0 <= k < items.len() && (#[trigger] items[k]).stream is Some ==> (decode_values(items[k].values) matches Ok(e) && good(e))
}

/// Every log stream that a successful backend sent has values that read as
/// entries of which `good` holds.
pub open spec fn outcomes_read_as(outcomes: Seq<Option<Seq<StreamView>>>, good: spec_fn(Seq<EntryView>) -> bool) -> bool {
    forall|i: int| 0 <= i < outcomes.len() && (#[trigger] outcomes[i]) is Some ==> streams_read_as(outcomes[i].unwrap(), good)
}

/// `good` survives merging in direction `d`.
pub open spec fn kept_by_merge(good: spec_fn(Seq<EntryView>) -> bool, d: Direction) -> bool {
    forall|a: Seq<EntryView>, b: Seq<EntryView>| good(a) && good(b) ==> #[trigger] good(merge_entries(a, b, d))
}

proof fn lemma_merge_item_read_as(acc: Seq<StreamView>, s: StreamView, d: Direction, good: spec_fn(Seq<EntryView>) -> bool)
    requires
        streams_read_as(acc, good),
        s.stream is Some ==> (decode_values(s.values) matches Ok(e) && good(e)),
        kept_by_merge(good, d),
    ensures
        merge_item(acc, s, d) matches Ok(m) && streams_read_as(m, good),
{
    match s.stream {
        None => {
            assert(streams_read_as(acc.push(s), good)) by {
                assert forall|k: int| 0 <= k < acc.len() + 1 && (#[trigger] acc.push(s)[k]).stream is Some implies
                    (decode_values(acc.push(s)[k].values) matches Ok(e) && good(e)) by {
                    assert(acc.push(s)[k] == acc[k]);
                }
            }
        },
        Some(l) => {
            lemma_find_stream_range(acc, l, 0);
            match find_stream_from(acc, l, 0) {
                None => {
                    assert(streams_read_as(acc.push(s), good)) by {
                        assert forall|k: int| 0 <= k < acc.len() + 1 && (#[trigger] acc.push(s)[k]).stream is Some implies
                            (decode_values(acc.push(s)[k].values) matches Ok(e) && good(e)) by {
                            if k < acc.len() {
                                assert(acc.push(s)[k] == acc[k]);
                            }
                        }
                    }
                },
                Some(j) => {
                    assert(acc[j].stream is Some);
                    let old = decode_values(acc[j].values).unwrap();
                    let new = decode_values(s.values).unwrap();
                    let merged = merge_entries(old, new, d);
                    assert(good(merged));
                    lemma_decode_encode(merged);
                    let m = acc.update(j, with_values(acc[j], encode_entries(merged)));
                    assert forall|k: int| 0 <= k < m.len() && (#[trigger] m[k]).stream is Some implies
                        (decode_values(m[k].values) matches Ok(e) && good(e)) by {
                        if k != j {
                            assert(m[k] == acc[k]);
                        }
                    }
                },
            }
        },
    }
}

proof fn lemma_merge_items_read_as(acc: Seq<StreamView>, items: Seq<StreamView>, d: Direction, good: spec_fn(Seq<EntryView>) -> bool)
    requires
        streams_read_as(acc, good),
        streams_read_as(items, good),
        kept_by_merge(good, d),
    ensures
        merge_items(acc, items, d) matches Ok(m) && streams_read_as(m, good),
    decreases items.len(),
{
    if items.len() > 0 {
        let p = items.drop_last();
        assert(streams_read_as(p, good)) by {
            assert forall|k: int| 0 <= k < p.len() && (#[trigger] p[k]).stream is Some implies
                (decode_values(p[k].values) matches Ok(e) && good(e)) by {
                assert(p[k] == items[k]);
            }
        }
        lemma_merge_items_read_as(acc, p, d, good);
        let m = merge_items(acc, p, d).unwrap();
        assert(items.last() == items[items.len() - 1]);
        lemma_merge_item_read_as(m, items.last(), d, good);
    }
}

/// Merging outcomes whose streams all read as entries of which `good` holds,
/// where merging keeps `good`, succeeds, and its streams read so too.
pub proof fn lemma_merge_outcomes_read_as(outcomes: Seq<Option<Seq<StreamView>>>, d: Direction, good: spec_fn(Seq<EntryView>) -> bool)
    requires
        outcomes_read_as(outcomes, good),
        kept_by_merge(good, d),
    ensures
        merge_outcomes(outcomes, d) matches Ok(m) && streams_read_as(m, good),
    decreases outcomes.len(),
{
    if outcomes.len() > 0 {
        let p = outcomes.drop_last();
        assert(outcomes_read_as(p, good)) by {
            assert forall|i: int| 0 <= i < p.len() && (#[trigger] p[i]) is Some implies streams_read_as(p[i].unwrap(), good) by {
                assert(p[i] == outcomes[i]);
            }
        }
        lemma_merge_outcomes_read_as(p, d, good);
        let acc = merge_outcomes(p, d).unwrap();
        assert(outcomes.last() == outcomes[outcomes.len() - 1]);
        if let Some(items) = outcomes.last() {
            lemma_merge_items_read_as(acc, items, d, good);
        }
    }
}

/// No stream of a merged answer holds the same entry twice, provided that
/// no stream a backend sent does, and that each one's timestamps read as
/// decimal integers.
pub proof fn lemma_merged_streams_no_duplicates(outcomes: Seq<Option<Seq<StreamView>>>, d: Direction)
    requires
        outcomes_read_as(outcomes, |e: Seq<EntryView>| e.no_duplicates()),
    ensures
        merge_outcomes(outcomes, d) matches Ok(m) && streams_read_as(m, |e: Seq<EntryView>| e.no_duplicates()),
{
    let good = |e: Seq<EntryView>| e.no_duplicates();
    assert forall|a: Seq<EntryView>, b: Seq<EntryView>| good(a) && good(b) implies #[trigger] good(merge_entries(a, b, d)) by {
        lemma_merge_entries_no_duplicates(a, b, d);
    }
    lemma_merge_outcomes_read_as(outcomes, d, good);
}

/// Every stream of a merged answer is ordered in the request's direction,
/// provided that every stream a backend sent is, and that each one's
/// timestamps read as decimal integers.
pub proof fn lemma_merged_streams_ordered(outcomes: Seq<Option<Seq<StreamView>>>, d: Direction)
    requires
        outcomes_read_as(outcomes, |e: Seq<EntryView>| ordered_in(e, d)),
    ensures
        merge_outcomes(outcomes, d) matches Ok(m) && streams_read_as(m, |e: Seq<EntryView>| ordered_in(e, d)),
{
    let good = |e: Seq<EntryView>| ordered_in(e, d);
    assert forall|a: Seq<EntryView>, b: Seq<EntryView>| good(a) && good(b) implies #[trigger] good(merge_entries(a, b, d)) by {
        lemma_merge_entries_ordered(a, b, d);
    }
    lemma_merge_outcomes_read_as(outcomes, d, good);
}

/// No two log streams among `items` carry the same labels.
pub open spec fn distinct_streams(items: Seq<StreamView>) -> bool {
    forall|i: int, j: int|
        0 <= i < j < items.len() && (#[trigger] items[i]).stream is Some ==> items[i].stream != (#[trigger] items[j]).stream
}

proof fn lemma_merge_item_distinct(acc: Seq<StreamView>, s: StreamView, d: Direction)
    requires
        distinct_streams(acc),
    ensures
        merge_item(acc, s, d) matches Ok(m) ==> distinct_streams(m),
{
    if let Ok(m) = merge_item(acc, s, d) {
        match s.stream {
            None => {
                assert forall|i: int, j: int| 0 <= i < j < m.len() && (#[trigger] m[i]).stream is Some implies
                    m[i].stream != (#[trigger] m[j]).stream by {
                    assert(m[i] == acc[i]);
                    if j < acc.len() {
                        assert(m[j] == acc[j]);
                    }
                }
            },
            Some(l) => {
                lemma_find_stream_range(acc, l, 0);
                match find_stream_from(acc, l, 0) {
                    None => {
                        assert forall|i: int, j: int| 0 <= i < j < m.len() && (#[trigger] m[i]).stream is Some implies
                            m[i].stream != (#[trigger] m[j]).stream by {
                            assert(m[i] == acc[i]);
                            if j < acc.len() {
                                assert(m[j] == acc[j]);
                            }
                        }
                    },
                    Some(k) => {
                        assert forall|i: int, j: int| 0 <= i < j < m.len() && (#[trigger] m[i]).stream is Some implies
                            m[i].stream != (#[trigger] m[j]).stream by {
                            assert(m[i].stream == acc[i].stream);
                            assert(m[j].stream == acc[j].stream);
                        }
                    },
                }
            },
        }
    }
}

proof fn lemma_merge_items_distinct(acc: Seq<StreamView>, items: Seq<StreamView>, d: Direction)
    requires
        distinct_streams(acc),
    ensures
        merge_items(acc, items, d) matches Ok(m) ==> distinct_streams(m),
    decreases items.len(),
{
    if items.len() > 0 {
        lemma_merge_items_distinct(acc, items.drop_last(), d);
        if let Ok(m) = merge_items(acc, items.drop_last(), d) {
            lemma_merge_item_distinct(m, items.last(), d);
        }
    }
}

/// No two streams of a merged answer carry the same labels.
pub proof fn lemma_merged_streams_distinct(outcomes: Seq<Option<Seq<StreamView>>>, d: Direction)
    ensures
        merge_outcomes(outcomes, d) matches Ok(m) ==> distinct_streams(m),
    decreases outcomes.len(),
{
    if outcomes.len() > 0 {
        lemma_merged_streams_distinct(outcomes.drop_last(), d);
        if let Ok(acc) = merge_outcomes(outcomes.drop_last(), d) {
            if let Some(items) = outcomes.last() {
                lemma_merge_items_distinct(acc, items, d);
            }
        }
    }
}

proof fn lemma_merge_items_from_empty(items: Seq<StreamView>, d: Direction)
    requires
        distinct_streams(items),
    ensures
        merge_items(Seq::empty(), items, d) == Ok::<Seq<StreamView>, crate::response::LokiError>(items),
    decreases items.len(),
{
    if items.len() > 0 {
        let p = items.drop_last();
        assert(distinct_streams(p)) by {
            assert forall|i: int, j: int| 0 <= i < j < p.len() && (#[trigger] p[i]).stream is Some implies
                p[i].stream != (#[trigger] p[j]).stream by {
                assert(p[i] == items[i] && p[j] == items[j]);
            }
        }
        lemma_merge_items_from_empty(p, d);
        let s = items.last();
        if let Some(l) = s.stream {
            lemma_find_stream_range(p, l, 0);
            if let Some(j) = find_stream_from(p, l, 0) {
                assert(items[j] == p[j]);
                assert(items[items.len() - 1] == s);
                assert(items[j].stream != items[items.len() - 1].stream);
            }
        }
        assert(merge_item(p, s, d) == Ok::<Seq<StreamView>, crate::response::LokiError>(p.push(s)));
        assert(p.push(s) =~= items);
    } else {
        assert(items =~= Seq::<StreamView>::empty());
    }
}

/// One successful backend's answer comes back as it was sent, when no two
/// of its streams carry the same labels.
pub proof fn lemma_single_backend_streams(items: Seq<StreamView>, d: Direction)
    requires
        distinct_streams(items),
    ensures
        merge_outcomes(seq![Some(items)], d) == Ok::<Seq<StreamView>, crate::response::LokiError>(items),
{
    let o = seq![Some(items)];
    assert(o.drop_last() =~= Seq::<Option<Seq<StreamView>>>::empty());
    assert(o.last() == Some(items));
    assert(merge_outcomes(o.drop_last(), d) == Ok::<Seq<StreamView>, crate::response::LokiError>(Seq::empty()));
    lemma_merge_items_from_empty(items, d);
}

/// Adding elements to a sequence without repeats gives one without repeats,
/// which holds exactly the elements of both.
pub proof fn lemma_add_new<T>(acc: Seq<T>, xs: Seq<T>)
    requires
        acc.no_duplicates(),
    ensures
        add_new(acc, xs).no_duplicates(),
        forall|x: T| #[trigger] add_new(acc, xs).contains(x) <==> (acc.contains(x) || xs.contains(x)),
    decreases xs.len(),
{
    if xs.len() > 0 {
        let p = xs.drop_last();
        lemma_add_new(acc, p);
        let m = add_new(acc, p);
        if !m.contains(xs.last()) {
            assert forall|i: int, j: int| 0 <= i < m.len() + 1 && 0 <= j < m.len() + 1 && i != j implies
                m.push(xs.last())[i] != m.push(xs.last())[j] by {
                if i < m.len() && j < m.len() {
                    assert(m.push(xs.last())[i] == m[i]);
                    assert(m.push(xs.last())[j] == m[j]);
                } else if i < m.len() {
                    assert(m.push(xs.last())[i] == m[i]);
                } else {
                    assert(m.push(xs.last())[j] == m[j]);
                }
            }
        }
        assert forall|x: T| #[trigger] add_new(acc, xs).contains(x) <==> (acc.contains(x) || xs.contains(x)) by {
            if xs.contains(x) && !p.contains(x) {
                let k = choose|k: int| 0 <= k < xs.len() && xs[k] == x;
                if k < xs.len() - 1 {
                    assert(p[k] == x);
                }
                if !m.contains(xs.last()) {
                    assert(m.push(xs.last())[m.len() as int] == x);
                }
            }
            if p.contains(x) {
                let k = choose|k: int| 0 <= k < p.len() && p[k] == x;
                assert(xs[k] == x);
            }
            if add_new(acc, xs).contains(x) && !m.contains(x) {
                let k = choose|k: int| 0 <= k < add_new(acc, xs).len() && add_new(acc, xs)[k] == x;
                if k < m.len() {
                    assert(m.push(xs.last())[k] == m[k]);
                }
                assert(xs[xs.len() - 1] == x);
            }
            if m.contains(x) && !m.contains(xs.last()) {
                let k = choose|k: int| 0 <= k < m.len() && m[k] == x;
                assert(m.push(xs.last())[k] == x);
            }
        }
    }
}

/// A sequence without repeats added to nothing comes back as it was.
pub proof fn lemma_add_new_to_empty<T>(xs: Seq<T>)
    requires
        xs.no_duplicates(),
    ensures
        add_new(Seq::<T>::empty(), xs) == xs,
    decreases xs.len(),
{
    if xs.len() > 0 {
        let p = xs.drop_last();
        assert(p.no_duplicates()) by {
            assert forall|i: int, j: int| 0 <= i < p.len() && 0 <= j < p.len() && i != j implies p[i] != p[j] by {
                assert(p[i] == xs[i] && p[j] == xs[j]);
            }
        }
        lemma_add_new_to_empty(p);
        if p.contains(xs.last()) {
            let k = choose|k: int| 0 <= k < p.len() && p[k] == xs.last();
            assert(xs[k] == xs[xs.len() - 1]);
        }
        assert(p.push(xs.last()) =~= xs);
    }
}

/// One successful backend's label answer comes back as it was sent, when
/// its data holds no label twice.
pub proof fn lemma_single_backend_labels(data: Option<Seq<Seq<char>>>)
    requires
        data matches Some(d) ==> d.no_duplicates(),
    ensures
        merge_label_outcomes(seq![Some(data)]) == data,
{
    let o = seq![Some(data)];
    assert(o.drop_last() =~= Seq::<Option<Option<Seq<Seq<char>>>>>::empty());
    assert(o.last() == Some(data));
    assert(merge_label_outcomes(o.drop_last()) is None);
    if let Some(d) = data {
        lemma_add_new_to_empty(d);
    }
}

/// One successful backend's series answer comes back as it was sent, when
/// it holds no label set twice.
pub proof fn lemma_single_backend_series(data: Seq<Set<LabelView>>)
    requires
        data.no_duplicates(),
    ensures
        merge_serie_outcomes(seq![Some(data)]) == data,
{
    let o = seq![Some(data)];
    assert(o.drop_last() =~= Seq::<Option<Seq<Set<LabelView>>>>::empty());
    assert(o.last() == Some(data));
    assert(merge_serie_outcomes(o.drop_last()) == Seq::<Set<LabelView>>::empty());
    lemma_add_new_to_empty(data);
}

/// The successful outcomes of `outcomes`, in order.
pub open spec fn successes<T>(outcomes: Seq<Option<T>>) -> Seq<Option<T>>
    decreases outcomes.len(),
{
    if outcomes.len() == 0 {
        outcomes
    } else if outcomes.last() is Some {
        successes(outcomes.drop_last()).push(outcomes.last())
    } else {
        successes(outcomes.drop_last())
    }
}

/// Failed backends change nothing: the merged answer is the one of the
/// successful backends alone.
pub proof fn lemma_failures_ignored_streams(outcomes: Seq<Option<Seq<StreamView>>>, d: Direction)
    ensures
        merge_outcomes(outcomes, d) == merge_outcomes(successes(outcomes), d),
    decreases outcomes.len(),
{
    if outcomes.len() > 0 {
        lemma_failures_ignored_streams(outcomes.drop_last(), d);
        let s = successes(outcomes.drop_last());
        if outcomes.last() is Some {
            assert(s.push(outcomes.last()).drop_last() =~= s);
        }
    }
}

/// Failed backends change nothing in a merged label answer.
pub proof fn lemma_failures_ignored_labels(outcomes: Seq<Option<Option<Seq<Seq<char>>>>>)
    ensures
        merge_label_outcomes(outcomes) == merge_label_outcomes(successes(outcomes)),
    decreases outcomes.len(),
{
    if outcomes.len() > 0 {
        lemma_failures_ignored_labels(outcomes.drop_last());
        let s = successes(outcomes.drop_last());
        if outcomes.last() is Some {
            assert(s.push(outcomes.last()).drop_last() =~= s);
        }
    }
}

/// Failed backends change nothing in a merged series answer.
pub proof fn lemma_failures_ignored_series(outcomes: Seq<Option<Seq<Set<LabelView>>>>)
    ensures
        merge_serie_outcomes(outcomes) == merge_serie_outcomes(successes(outcomes)),
    decreases outcomes.len(),
{
    if outcomes.len() > 0 {
        lemma_failures_ignored_series(outcomes.drop_last());
        let s = successes(outcomes.drop_last());
        if outcomes.last() is Some {
            assert(s.push(outcomes.last()).drop_last() =~= s);
        }
    }
}

/// Whether some successful label answer brought data.
pub open spec fn some_label_data(outcomes: Seq<Option<Option<Seq<Seq<char>>>>>) -> bool {
    exists|i: int| 0 <= i < outcomes.len() && (#[trigger] outcomes[i]) matches Some(Some(_))
}

/// Whether some successful label answer's data holds `x`.
pub open spec fn label_sent(outcomes: Seq<Option<Option<Seq<Seq<char>>>>>, x: Seq<char>) -> bool {
    exists|i: int| 0 <= i < outcomes.len() && ((#[trigger] outcomes[i]) matches Some(Some(d)) && d.contains(x))
}

/// A merged label answer holds each label once, exactly the labels that
/// some successful answer holds, and has data exactly when one brought data.
pub proof fn lemma_label_outcomes_contents(outcomes: Seq<Option<Option<Seq<Seq<char>>>>>)
    ensures
        merge_label_outcomes(outcomes) is Some <==> some_label_data(outcomes),
        merge_label_outcomes(outcomes) matches Some(v) ==> v.no_duplicates() && forall|x: Seq<char>|
            #[trigger] v.contains(x) <==> label_sent(outcomes, x),
    decreases outcomes.len(),
{
    if outcomes.len() > 0 {
        let p = outcomes.drop_last();
        lemma_label_outcomes_contents(p);
        let last = outcomes.last();
        assert(last == outcomes[outcomes.len() - 1]);
        assert forall|i: int| 0 <= i < p.len() implies p[i] == outcomes[i] by {}
        if some_label_data(outcomes) && !(last matches Some(Some(_))) {
            let i = choose|i: int| 0 <= i < outcomes.len() && (#[trigger] outcomes[i]) matches Some(Some(_));
            assert(p[i] == outcomes[i]);
        }
        if some_label_data(p) {
            let i = choose|i: int| 0 <= i < p.len() && (#[trigger] p[i]) matches Some(Some(_));
            assert(p[i] == outcomes[i]);
        }
        let acc = match merge_label_outcomes(p) {
            Some(a) => a,
            None => Seq::<Seq<char>>::empty(),
        };
        if let Some(Some(d)) = last {
            lemma_add_new(acc, d);
        }
        if let Some(v) = merge_label_outcomes(outcomes) {
            assert forall|x: Seq<char>| #[trigger] v.contains(x) <==> label_sent(outcomes, x) by {
                if label_sent(outcomes, x) {
                    let i = choose|i: int|
                        0 <= i < outcomes.len() && ((#[trigger] outcomes[i]) matches Some(Some(d)) && d.contains(x));
                    if i < p.len() {
                        assert(p[i] == outcomes[i]);
                        assert(label_sent(p, x));
                    }
                }
                if label_sent(p, x) {
                    let i = choose|i: int| 0 <= i < p.len() && ((#[trigger] p[i]) matches Some(Some(d)) && d.contains(x));
                    assert(p[i] == outcomes[i]);
                }
            }
        }
    }
}

/// The merged label answer does not depend on the order of the backends,
/// nor on a backend being asked twice: it holds the same labels.
pub proof fn lemma_labels_order_free(o1: Seq<Option<Option<Seq<Seq<char>>>>>, o2: Seq<Option<Option<Seq<Seq<char>>>>>)
    requires
        o1.to_set() == o2.to_set(),
    ensures
        merge_label_outcomes(o1) is Some <==> merge_label_outcomes(o2) is Some,
        merge_label_outcomes(o1) matches Some(v1) ==> (merge_label_outcomes(o2) matches Some(v2)
            && v1.to_set() == v2.to_set()),
{
    lemma_label_outcomes_contents(o1);
    lemma_label_outcomes_contents(o2);
    assert forall|i: int| 0 <= i < o1.len() implies exists|k: int| 0 <= k < o2.len() && o2[k] == #[trigger] o1[i] by {
        assert(o1.to_set().contains(o1[i]));
    }
    assert forall|i: int| 0 <= i < o2.len() implies exists|k: int| 0 <= k < o1.len() && o1[k] == #[trigger] o2[i] by {
        assert(o2.to_set().contains(o2[i]));
    }
    if some_label_data(o1) {
        let i = choose|i: int| 0 <= i < o1.len() && (#[trigger] o1[i]) matches Some(Some(_));
        let k = choose|k: int| 0 <= k < o2.len() && o2[k] == o1[i];
        assert(o2[k] matches Some(Some(_)));
    }
    if some_label_data(o2) {
        let i = choose|i: int| 0 <= i < o2.len() && (#[trigger] o2[i]) matches Some(Some(_));
        let k = choose|k: int| 0 <= k < o1.len() && o1[k] == o2[i];
        assert(o1[k] matches Some(Some(_)));
    }
    if let Some(v1) = merge_label_outcomes(o1) {
        let v2 = merge_label_outcomes(o2).unwrap();
        assert forall|x: Seq<char>| label_sent(o1, x) <==> label_sent(o2, x) by {
            if label_sent(o1, x) {
                let i = choose|i: int| 0 <= i < o1.len() && ((#[trigger] o1[i]) matches Some(Some(d)) && d.contains(x));
                let k = choose|k: int| 0 <= k < o2.len() && o2[k] == o1[i];
                assert(o2[k] matches Some(Some(d)) && d.contains(x));
            }
            if label_sent(o2, x) {
                let i = choose|i: int| 0 <= i < o2.len() && ((#[trigger] o2[i]) matches Some(Some(d)) && d.contains(x));
                let k = choose|k: int| 0 <= k < o1.len() && o1[k] == o2[i];
                assert(o1[k] matches Some(Some(d)) && d.contains(x));
            }
        }
        assert(v1.to_set() =~= v2.to_set());
    }
}

/// Whether some successful series answer holds the label set `x`.
pub open spec fn serie_sent(outcomes: Seq<Option<Seq<Set<LabelView>>>>, x: Set<LabelView>) -> bool {
    exists|i: int| 0 <= i < outcomes.len() && ((#[trigger] outcomes[i]) matches Some(d) && d.contains(x))
}

/// A merged series answer holds each label set once, exactly those that
/// some successful answer holds.
pub proof fn lemma_serie_outcomes_contents(outcomes: Seq<Option<Seq<Set<LabelView>>>>)
    ensures
        merge_serie_outcomes(outcomes).no_duplicates(),
        forall|x: Set<LabelView>| #[trigger] merge_serie_outcomes(outcomes).contains(x) <==> serie_sent(outcomes, x),
    decreases outcomes.len(),
{
    if outcomes.len() > 0 {
        let p = outcomes.drop_last();
        lemma_serie_outcomes_contents(p);
        let last = outcomes.last();
        assert(last == outcomes[outcomes.len() - 1]);
        if let Some(d) = last {
            lemma_add_new(merge_serie_outcomes(p), d);
        }
        assert forall|x: Set<LabelView>| #[trigger] merge_serie_outcomes(outcomes).contains(x) <==> serie_sent(outcomes, x) by {
            if serie_sent(outcomes, x) {
                let i = choose|i: int| 0 <= i < outcomes.len() && ((#[trigger] outcomes[i]) matches Some(d) && d.contains(x));
                if i < p.len() {
                    assert(p[i] == outcomes[i]);
                    assert(serie_sent(p, x));
                }
            }
            if serie_sent(p, x) {
                let i = choose|i: int| 0 <= i < p.len() && ((#[trigger] p[i]) matches Some(d) && d.contains(x));
                assert(p[i] == outcomes[i]);
            }
        }
    } else {
        assert(merge_serie_outcomes(outcomes) =~= Seq::<Set<LabelView>>::empty());
    }
}

/// The merged series answer does not depend on the order of the backends
/// but for the order of its label sets: it holds the same ones.
pub proof fn lemma_series_order_free(o1: Seq<Option<Seq<Set<LabelView>>>>, o2: Seq<Option<Seq<Set<LabelView>>>>)
    requires
        o1.to_set() == o2.to_set(),
    ensures
        merge_serie_outcomes(o1).to_set() == merge_serie_outcomes(o2).to_set(),
{
    lemma_serie_outcomes_contents(o1);
    lemma_serie_outcomes_contents(o2);
    assert forall|x: Set<LabelView>| serie_sent(o1, x) <==> serie_sent(o2, x) by {
        if serie_sent(o1, x) {
            let i = choose|i: int| 0 <= i < o1.len() && ((#[trigger] o1[i]) matches Some(d) && d.contains(x));
            assert(o1.to_set().contains(o1[i]));
            let k = choose|k: int| 0 <= k < o2.len() && o2[k] == o1[i];
            assert(o2[k] matches Some(d) && d.contains(x));
        }
        if serie_sent(o2, x) {
            let i = choose|i: int| 0 <= i < o2.len() && ((#[trigger] o2[i]) matches Some(d) && d.contains(x));
            assert(o2.to_set().contains(o2[i]));
            let k = choose|k: int| 0 <= k < o1.len() && o1[k] == o2[i];
            assert(o1[k] matches Some(d) && d.contains(x));
        }
    }
    assert(merge_serie_outcomes(o1).to_set() =~= merge_serie_outcomes(o2).to_set());
}

/// Whether `items` has a log stream labelled `l`.
pub open spec fn carries_stream(items: Seq<StreamView>, l: Set<LabelView>) -> bool {
    exists|k: int| 0 <= k < items.len() && (#[trigger] items[k]).stream == Some(l)
}

/// Whether `items` has a log stream labelled `l` whose values read as
/// entries that include `e`.
pub open spec fn carries_entry(items: Seq<StreamView>, l: Set<LabelView>, e: EntryView) -> bool {
    exists|k: int|
        0 <= k < items.len() && (#[trigger] items[k]).stream == Some(l) && (decode_values(items[k].values) matches Ok(
            es,
        ) && es.contains(e))
}

/// Whether `items` holds `v`, an item that is not a log stream.
pub open spec fn carries_sample(items: Seq<StreamView>, v: StreamView) -> bool {
    v.stream is None && items.contains(v)
}

/// What merged items carry is what the merge started from and what it added.
pub open spec fn carries_both(m: Seq<StreamView>, a: Seq<StreamView>, b: Seq<StreamView>) -> bool {
    &&& forall|l: Set<LabelView>| #[trigger] carries_stream(m, l) <==> (carries_stream(a, l) || carries_stream(b, l))
    &&& forall|l: Set<LabelView>, e: EntryView|
        #[trigger] carries_entry(m, l, e) <==> (carries_entry(a, l, e) || carries_entry(b, l, e))
    &&& forall|v: StreamView| #[trigger] carries_sample(m, v) <==> (carries_sample(a, v) || carries_sample(b, v))
}

pub open spec fn all_entries(e: Seq<EntryView>) -> bool {
    true
}

proof fn lemma_merge_item_carries(acc: Seq<StreamView>, s: StreamView, d: Direction)
    requires
        distinct_streams(acc),
        streams_read_as(acc, |e: Seq<EntryView>| all_entries(e)),
        s.stream is Some ==> decode_values(s.values) is Ok,
    ensures
        merge_item(acc, s, d) matches Ok(m) && carries_both(m, acc, seq![s]),
{
    let one = seq![s];
    assert(one[0] == s);
    lemma_merge_item_read_as(acc, s, d, |e: Seq<EntryView>| all_entries(e));
    let m = merge_item(acc, s, d).unwrap();
    let pushed = match s.stream {
        None => true,
        Some(l) => find_stream_from(acc, l, 0) is None,
    };
    if pushed {
        assert(m == acc.push(s));
        assert forall|l: Set<LabelView>| #[trigger] carries_stream(m, l) <==> (carries_stream(acc, l) || carries_stream(one, l)) by {
            if carries_stream(m, l) {
                let k = choose|k: int| 0 <= k < m.len() && (#[trigger] m[k]).stream == Some(l);
                if k < acc.len() {
                    assert(m[k] == acc[k]);
                }
            }
            if carries_stream(acc, l) {
                let k = choose|k: int| 0 <= k < acc.len() && (#[trigger] acc[k]).stream == Some(l);
                assert(m[k] == acc[k]);
            }
            if carries_stream(one, l) {
                assert(m[acc.len() as int] == s);
            }
        }
        assert forall|l: Set<LabelView>, e: EntryView|
            #[trigger] carries_entry(m, l, e) <==> (carries_entry(acc, l, e) || carries_entry(one, l, e)) by {
            if carries_entry(m, l, e) {
                let k = choose|k: int|
                    0 <= k < m.len() && (#[trigger] m[k]).stream == Some(l) && (decode_values(m[k].values) matches Ok(
                        es,
                    ) && es.contains(e));
                if k < acc.len() {
                    assert(m[k] == acc[k]);
                } else {
                    assert(one[0] == m[k]);
                }
            }
            if carries_entry(acc, l, e) {
                let k = choose|k: int|
                    0 <= k < acc.len() && (#[trigger] acc[k]).stream == Some(l) && (decode_values(acc[k].values) matches Ok(
                        es,
                    ) && es.contains(e));
                assert(m[k] == acc[k]);
            }
            if carries_entry(one, l, e) {
                assert(m[acc.len() as int] == s);
            }
        }
        assert forall|v: StreamView| #[trigger] carries_sample(m, v) <==> (carries_sample(acc, v) || carries_sample(one, v)) by {
            if carries_sample(m, v) {
                let k = choose|k: int| 0 <= k < m.len() && m[k] == v;
                if k < acc.len() {
                    assert(acc[k] == v);
                } else {
                    assert(one[0] == v);
                }
            }
            if carries_sample(acc, v) {
                let k = choose|k: int| 0 <= k < acc.len() && acc[k] == v;
                assert(m[k] == v);
            }
            if carries_sample(one, v) {
                let k = choose|k: int| 0 <= k < one.len() && one[k] == v;
                assert(m[acc.len() as int] == v);
            }
        }
    } else {
        let l = s.stream.unwrap();
        lemma_find_stream_range(acc, l, 0);
        let j = find_stream_from(acc, l, 0).unwrap();
        let old = decode_values(acc[j].values).unwrap();
        let new = decode_values(s.values).unwrap();
        let merged = merge_entries(old, new, d);
        lemma_merge_entries_contents(old, new, d);
        lemma_decode_encode(merged);
        assert(m == acc.update(j, with_values(acc[j], encode_entries(merged))));
        assert(forall|k: int| 0 <= k < acc.len() && k != j ==> (#[trigger] acc[k]).stream != Some(l)) by {
            assert forall|k: int| 0 <= k < acc.len() && k != j implies (#[trigger] acc[k]).stream != Some(l) by {
                if k < j {
                    assert(acc[k].stream != acc[j].stream);
                } else {
                    assert(acc[j].stream != acc[k].stream);
                }
            }
        }
        assert forall|l2: Set<LabelView>| #[trigger] carries_stream(m, l2) <==> (carries_stream(acc, l2) || carries_stream(one, l2)) by {
            if carries_stream(m, l2) {
                let k = choose|k: int| 0 <= k < m.len() && (#[trigger] m[k]).stream == Some(l2);
                assert(acc[k].stream == m[k].stream);
            }
            if carries_stream(acc, l2) {
                let k = choose|k: int| 0 <= k < acc.len() && (#[trigger] acc[k]).stream == Some(l2);
                assert(acc[k].stream == m[k].stream);
            }
            if carries_stream(one, l2) {
                assert(m[j].stream == Some(l2));
            }
        }
        assert forall|l2: Set<LabelView>, e: EntryView|
            #[trigger] carries_entry(m, l2, e) <==> (carries_entry(acc, l2, e) || carries_entry(one, l2, e)) by {
            if l2 == l {
                if carries_entry(m, l2, e) {
                    let k = choose|k: int|
                        0 <= k < m.len() && (#[trigger] m[k]).stream == Some(l2) && (decode_values(m[k].values) matches Ok(
                            es,
                        ) && es.contains(e));
                    if k != j {
                        assert(m[k] == acc[k]);
                    }
                    assert(merged.contains(e));
                    if old.contains(e) {
                        assert(acc[j].stream == Some(l2));
                    } else {
                        assert(one[0].stream == Some(l2));
                    }
                }
                if carries_entry(acc, l2, e) {
                    let k = choose|k: int|
                        0 <= k < acc.len() && (#[trigger] acc[k]).stream == Some(l2) && (decode_values(acc[k].values) matches Ok(
                            es,
                        ) && es.contains(e));
                    assert(k == j);
                    assert(m[j].stream == Some(l2));
                }
                if carries_entry(one, l2, e) {
                    let k = choose|k: int|
                        0 <= k < one.len() && (#[trigger] one[k]).stream == Some(l2) && (decode_values(one[k].values) matches Ok(
                            es,
                        ) && es.contains(e));
                    assert(m[j].stream == Some(l2));
                }
            } else {
                if carries_entry(m, l2, e) {
                    let k = choose|k: int|
                        0 <= k < m.len() && (#[trigger] m[k]).stream == Some(l2) && (decode_values(m[k].values) matches Ok(
                            es,
                        ) && es.contains(e));
                    assert(m[k] == acc[k]);
                }
                if carries_entry(acc, l2, e) {
                    let k = choose|k: int|
                        0 <= k < acc.len() && (#[trigger] acc[k]).stream == Some(l2) && (decode_values(acc[k].values) matches Ok(
                            es,
                        ) && es.contains(e));
                    assert(m[k] == acc[k]);
                }
                if carries_entry(one, l2, e) {
                    let k = choose|k: int| 0 <= k < one.len() && (#[trigger] one[k]).stream == Some(l2);
                    assert(one[k] == s);
                }
            }
        }
        assert forall|v: StreamView| #[trigger] carries_sample(m, v) <==> (carries_sample(acc, v) || carries_sample(one, v)) by {
            if carries_sample(m, v) {
                let k = choose|k: int| 0 <= k < m.len() && m[k] == v;
                if k != j {
                    assert(acc[k] == v);
                }
            }
            if carries_sample(acc, v) {
                let k = choose|k: int| 0 <= k < acc.len() && acc[k] == v;
                assert(m[k] == v);
            }
            if carries_sample(one, v) {
                let k = choose|k: int| 0 <= k < one.len() && one[k] == v;
            }
        }
    }
}

proof fn lemma_carries_split(items: Seq<StreamView>)
    requires
        items.len() > 0,
    ensures
        carries_both(items, items.drop_last(), seq![items.last()]),
{
    let p = items.drop_last();
    let one = seq![items.last()];
    let n = items.len() - 1;
    assert(one[0] == items[n]);
    assert forall|l: Set<LabelView>| #[trigger] carries_stream(items, l) <==> (carries_stream(p, l) || carries_stream(one, l)) by {
        if carries_stream(items, l) {
            let k = choose|k: int| 0 <= k < items.len() && (#[trigger] items[k]).stream == Some(l);
            if k < n {
                assert(p[k] == items[k]);
            }
        }
        if carries_stream(p, l) {
            let k = choose|k: int| 0 <= k < p.len() && (#[trigger] p[k]).stream == Some(l);
            assert(p[k] == items[k]);
        }
    }
    assert forall|l: Set<LabelView>, e: EntryView|
        #[trigger] carries_entry(items, l, e) <==> (carries_entry(p, l, e) || carries_entry(one, l, e)) by {
        if carries_entry(items, l, e) {
            let k = choose|k: int|
                0 <= k < items.len() && (#[trigger] items[k]).stream == Some(l) && (decode_values(items[k].values) matches Ok(
                    es,
                ) && es.contains(e));
            if k < n {
                assert(p[k] == items[k]);
            }
        }
        if carries_entry(p, l, e) {
            let k = choose|k: int|
                0 <= k < p.len() && (#[trigger] p[k]).stream == Some(l) && (decode_values(p[k].values) matches Ok(es)
                    && es.contains(e));
            assert(p[k] == items[k]);
        }
        if carries_entry(one, l, e) {
            let k = choose|k: int|
                0 <= k < one.len() && (#[trigger] one[k]).stream == Some(l) && (decode_values(one[k].values) matches Ok(
                    es,
                ) && es.contains(e));
            assert(items[n] == one[k]);
        }
    }
    assert forall|v: StreamView| #[trigger] carries_sample(items, v) <==> (carries_sample(p, v) || carries_sample(one, v)) by {
        if carries_sample(items, v) {
            let k = choose|k: int| 0 <= k < items.len() && items[k] == v;
            if k < n {
                assert(p[k] == v);
            }
        }
        if carries_sample(p, v) {
            let k = choose|k: int| 0 <= k < p.len() && p[k] == v;
            assert(items[k] == v);
        }
        if carries_sample(one, v) {
            let k = choose|k: int| 0 <= k < one.len() && one[k] == v;
            assert(items[n] == v);
        }
    }
}

proof fn lemma_merge_items_carries(acc: Seq<StreamView>, items: Seq<StreamView>, d: Direction)
    requires
        distinct_streams(acc),
        streams_read_as(acc, |e: Seq<EntryView>| all_entries(e)),
        streams_read_as(items, |e: Seq<EntryView>| all_entries(e)),
    ensures
        merge_items(acc, items, d) matches Ok(m) && carries_both(m, acc, items) && distinct_streams(m) && streams_read_as(
            m,
            |e: Seq<EntryView>| all_entries(e),
        ),
    decreases items.len(),
{
    let good = |e: Seq<EntryView>| all_entries(e);
    if items.len() == 0 {
        assert(carries_both(acc, acc, items));
    } else {
        let p = items.drop_last();
        let s = items.last();
        assert(streams_read_as(p, good)) by {
            assert forall|k: int| 0 <= k < p.len() && (#[trigger] p[k]).stream is Some implies (decode_values(
                p[k].values,
            ) matches Ok(e) && good(e)) by {
                assert(p[k] == items[k]);
            }
        }
        lemma_merge_items_carries(acc, p, d);
        let m1 = merge_items(acc, p, d).unwrap();
        assert(items[items.len() - 1] == s);
        lemma_merge_item_carries(m1, s, d);
        lemma_merge_item_distinct(m1, s, d);
        lemma_merge_item_read_as(m1, s, d, good);
        lemma_carries_split(items);
    }
}

/// Whether some successful backend sent a log stream labelled `l`.
pub open spec fn outcomes_carry_stream(outcomes: Seq<Option<Seq<StreamView>>>, l: Set<LabelView>) -> bool {
    exists|i: int| 0 <= i < outcomes.len() && ((#[trigger] outcomes[i]) matches Some(items) && carries_stream(items, l))
}

/// Whether some successful backend sent a log stream labelled `l` with the
/// entry `e`.
pub open spec fn outcomes_carry_entry(outcomes: Seq<Option<Seq<StreamView>>>, l: Set<LabelView>, e: EntryView) -> bool {
    exists|i: int|
        0 <= i < outcomes.len() && ((#[trigger] outcomes[i]) matches Some(items) && carries_entry(items, l, e))
}

/// Whether some successful backend sent the item `v`, which is not a log
/// stream.
pub open spec fn outcomes_carry_sample(outcomes: Seq<Option<Seq<StreamView>>>, v: StreamView) -> bool {
    exists|i: int| 0 <= i < outcomes.len() && ((#[trigger] outcomes[i]) matches Some(items) && carries_sample(items, v))
}

/// A merged answer, where every stream sent reads as entries, carries
/// exactly the log streams that the backends sent, each with every entry
/// that any backend sent for it, and the other items they sent.
pub proof fn lemma_merge_outcomes_carries(outcomes: Seq<Option<Seq<StreamView>>>, d: Direction)
    requires
        outcomes_read_as(outcomes, |e: Seq<EntryView>| all_entries(e)),
    ensures
        merge_outcomes(outcomes, d) matches Ok(m) && distinct_streams(m) && streams_read_as(
            m,
            |e: Seq<EntryView>| all_entries(e),
        ) && (forall|l: Set<LabelView>| #[trigger] carries_stream(m, l) <==> outcomes_carry_stream(outcomes, l))
            && (forall|l: Set<LabelView>, e: EntryView|
            #[trigger] carries_entry(m, l, e) <==> outcomes_carry_entry(outcomes, l, e)) && (forall|v: StreamView|
            #[trigger] carries_sample(m, v) <==> outcomes_carry_sample(outcomes, v)),
    decreases outcomes.len(),
{
    let good = |e: Seq<EntryView>| all_entries(e);
    if outcomes.len() == 0 {
        let m = Seq::<StreamView>::empty();
        assert(merge_outcomes(outcomes, d) == Ok::<Seq<StreamView>, crate::response::LokiError>(m));
    } else {
        let p = outcomes.drop_last();
        let n = outcomes.len() - 1;
        assert(outcomes_read_as(p, good)) by {
            assert forall|i: int| 0 <= i < p.len() && (#[trigger] p[i]) is Some implies streams_read_as(p[i].unwrap(), good) by {
                assert(p[i] == outcomes[i]);
            }
        }
        lemma_merge_outcomes_carries(p, d);
        let acc = merge_outcomes(p, d).unwrap();
        assert(outcomes.last() == outcomes[n]);
        let items = match outcomes.last() {
            Some(items) => items,
            None => Seq::<StreamView>::empty(),
        };
        if outcomes.last() is Some {
            lemma_merge_items_carries(acc, items, d);
        }
        let m = merge_outcomes(outcomes, d).unwrap();
        assert(carries_both(m, acc, items)) by {
            if outcomes.last() is None {
                assert(m == acc);
            }
        }
        assert forall|l: Set<LabelView>| #[trigger] carries_stream(m, l) <==> outcomes_carry_stream(outcomes, l) by {
            if outcomes_carry_stream(outcomes, l) {
                let i = choose|i: int|
                    0 <= i < outcomes.len() && ((#[trigger] outcomes[i]) matches Some(its) && carries_stream(its, l));
                if i < n {
                    assert(p[i] == outcomes[i]);
                }
            }
            if outcomes_carry_stream(p, l) {
                let i = choose|i: int| 0 <= i < p.len() && ((#[trigger] p[i]) matches Some(its) && carries_stream(its, l));
                assert(p[i] == outcomes[i]);
            }
        }
        assert forall|l: Set<LabelView>, e: EntryView|
            #[trigger] carries_entry(m, l, e) <==> outcomes_carry_entry(outcomes, l, e) by {
            if outcomes_carry_entry(outcomes, l, e) {
                let i = choose|i: int|
                    0 <= i < outcomes.len() && ((#[trigger] outcomes[i]) matches Some(its) && carries_entry(its, l, e));
                if i < n {
                    assert(p[i] == outcomes[i]);
                }
            }
            if outcomes_carry_entry(p, l, e) {
                let i = choose|i: int| 0 <= i < p.len() && ((#[trigger] p[i]) matches Some(its) && carries_entry(its, l, e));
                assert(p[i] == outcomes[i]);
            }
        }
        assert forall|v: StreamView| #[trigger] carries_sample(m, v) <==> outcomes_carry_sample(outcomes, v) by {
            if outcomes_carry_sample(outcomes, v) {
                let i = choose|i: int|
                    0 <= i < outcomes.len() && ((#[trigger] outcomes[i]) matches Some(its) && carries_sample(its, v));
                if i < n {
                    assert(p[i] == outcomes[i]);
                }
            }
            if outcomes_carry_sample(p, v) {
                let i = choose|i: int| 0 <= i < p.len() && ((#[trigger] p[i]) matches Some(its) && carries_sample(its, v));
                assert(p[i] == outcomes[i]);
            }
        }
        if outcomes.last() is None {
            assert(distinct_streams(m) && streams_read_as(m, good));
        }
    }
}

/// The merged answer to a query does not depend on the order in which the
/// backends answered, nor on one answering twice, where every stream sent
/// reads as entries: it carries the same log streams, each with the same
/// entries, and the same other items.
pub proof fn lemma_streams_order_free(o1: Seq<Option<Seq<StreamView>>>, o2: Seq<Option<Seq<StreamView>>>, d: Direction)
    requires
        o1.to_set() == o2.to_set(),
        outcomes_read_as(o1, |e: Seq<EntryView>| all_entries(e)),
    ensures
        merge_outcomes(o1, d) matches Ok(m1) && merge_outcomes(o2, d) matches Ok(m2) && (forall|l: Set<LabelView>|
            #[trigger] carries_stream(m1, l) <==> carries_stream(m2, l)) && (forall|l: Set<LabelView>, e: EntryView|
            #[trigger] carries_entry(m1, l, e) <==> carries_entry(m2, l, e)) && (forall|v: StreamView|
            #[trigger] carries_sample(m1, v) <==> carries_sample(m2, v)),
{
    let good = |e: Seq<EntryView>| all_entries(e);
    assert forall|i: int| 0 <= i < o2.len() implies exists|k: int| 0 <= k < o1.len() && o1[k] == #[trigger] o2[i] by {
        assert(o2.to_set().contains(o2[i]));
    }
    assert forall|i: int| 0 <= i < o1.len() implies exists|k: int| 0 <= k < o2.len() && o2[k] == #[trigger] o1[i] by {
        assert(o1.to_set().contains(o1[i]));
    }
    assert(outcomes_read_as(o2, good)) by {
        assert forall|i: int| 0 <= i < o2.len() && (#[trigger] o2[i]) is Some implies streams_read_as(o2[i].unwrap(), good) by {
            let k = choose|k: int| 0 <= k < o1.len() && o1[k] == o2[i];
        }
    }
    lemma_merge_outcomes_carries(o1, d);
    lemma_merge_outcomes_carries(o2, d);
    assert forall|l: Set<LabelView>| outcomes_carry_stream(o1, l) <==> outcomes_carry_stream(o2, l) by {
        if outcomes_carry_stream(o1, l) {
            let i = choose|i: int| 0 <= i < o1.len() && ((#[trigger] o1[i]) matches Some(its) && carries_stream(its, l));
            let k = choose|k: int| 0 <= k < o2.len() && o2[k] == o1[i];
        }
        if outcomes_carry_stream(o2, l) {
            let i = choose|i: int| 0 <= i < o2.len() && ((#[trigger] o2[i]) matches Some(its) && carries_stream(its, l));
            let k = choose|k: int| 0 <= k < o1.len() && o1[k] == o2[i];
        }
    }
    assert forall|l: Set<LabelView>, e: EntryView| outcomes_carry_entry(o1, l, e) <==> outcomes_carry_entry(o2, l, e) by {
        if outcomes_carry_entry(o1, l, e) {
            let i = choose|i: int| 0 <= i < o1.len() && ((#[trigger] o1[i]) matches Some(its) && carries_entry(its, l, e));
            let k = choose|k: int| 0 <= k < o2.len() && o2[k] == o1[i];
        }
        if outcomes_carry_entry(o2, l, e) {
            let i = choose|i: int| 0 <= i < o2.len() && ((#[trigger] o2[i]) matches Some(its) && carries_entry(its, l, e));
            let k = choose|k: int| 0 <= k < o1.len() && o1[k] == o2[i];
        }
    }
    assert forall|v: StreamView| outcomes_carry_sample(o1, v) <==> outcomes_carry_sample(o2, v) by {
        if outcomes_carry_sample(o1, v) {
            let i = choose|i: int| 0 <= i < o1.len() && ((#[trigger] o1[i]) matches Some(its) && carries_sample(its, v));
            let k = choose|k: int| 0 <= k < o2.len() && o2[k] == o1[i];
        }
        if outcomes_carry_sample(o2, v) {
            let i = choose|i: int| 0 <= i < o2.len() && ((#[trigger] o2[i]) matches Some(its) && carries_sample(its, v));
            let k = choose|k: int| 0 <= k < o1.len() && o1[k] == o2[i];
        }
    }
}

} // verus!
