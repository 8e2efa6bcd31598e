//! The federation: merges the answers of all backends into one answer.
use vstd::prelude::*;
use vstd::string::*;

use crate::aggregate::{aggregate, entries_view, merge_entries, EntryView};
use crate::datasources::{DataSourceInstance, DataSourcesProvider};
use crate::decimal::{i64_text, int_text, parse_i64, parse_i64_spec};
use crate::direction::{direction_or_default, effective_direction, Direction};
use crate::labels::{pairs_view, LabelView, Labels};
use crate::response::{
    items_view, label_data_view, label_sets_view, strings_view, Data, LabelResponse, LokiError,
    Response, ResponseView, ResultType, SerieResponse, StreamView, VectorOrStream, WireEntryView,
};

verus! {

/// The most backend calls in flight at once for one request.
pub const MAX_CONCURRENT_REQUESTS: usize = 8;

/// The entries of a stream read off the wire; `None` where a timestamp is not
/// a decimal `i64`.
pub open spec fn decode_wire(v: Seq<WireEntryView>) -> Option<Seq<EntryView>> {
    if forall|i: int| 0 <= i < v.len() ==> (#[trigger] parse_i64_spec(v[i].0)) is Some {
        Some(Seq::new(v.len(), |i: int| (parse_i64_spec(v[i].0).unwrap(), v[i].1)))
    } else {
        None
    }
}

/// The entries of a stream's values, or why they cannot be read.
pub open spec fn decode_values(v: Option<Seq<WireEntryView>>) -> Result<Seq<EntryView>, LokiError> {
    match v {
        None => Err(LokiError::NoData),
        Some(w) => match decode_wire(w) {
            Some(e) => Ok(e),
            None => Err(LokiError::Decode),
        },
    }
}

/// Entries written back in wire form.
pub open spec fn encode_entries(e: Seq<EntryView>) -> Seq<WireEntryView> {
    Seq::new(e.len(), |i: int| (int_text(e[i].0 as int), e[i].1))
}

/// The first index from `i` on of a stream labelled `l`.
pub open spec fn find_stream_from(acc: Seq<StreamView>, l: Set<LabelView>, i: int) -> Option<int>
    decreases acc.len() - i,
{
    if i < 0 || i >= acc.len() {
        None
    } else if acc[i].stream == Some(l) {
        Some(i)
    } else {
        find_stream_from(acc, l, i + 1)
    }
}

/// `s` with its values replaced.
pub open spec fn with_values(s: StreamView, values: Seq<WireEntryView>) -> StreamView {
    StreamView { metric: s.metric, value: s.value, stream: s.stream, values: Some(values) }
}

/// One item added to the merged items: a stream whose labels are already
/// there has its entries merged into that stream; anything else is appended.
pub open spec fn merge_item(acc: Seq<StreamView>, s: StreamView, d: Direction) -> Result<Seq<StreamView>, LokiError> {
    match s.stream {
        None => Ok(acc.push(s)),
        Some(l) => match find_stream_from(acc, l, 0) {
            None => Ok(acc.push(s)),
            Some(j) => match decode_values(acc[j].values) {
                Err(e) => Err(e),
                Ok(old) => match decode_values(s.values) {
                    Err(e) => Err(e),
                    Ok(new) => Ok(acc.update(j, with_values(acc[j], encode_entries(merge_entries(old, new, d))))),
                },
            },
        },
    }
}

/// The items of one answer added in order.
pub open spec fn merge_items(acc: Seq<StreamView>, items: Seq<StreamView>, d: Direction) -> Result<Seq<StreamView>, LokiError>
    decreases items.len(),
{
    if items.len() == 0 {
        Ok(acc)
    } else {
        match merge_items(acc, items.drop_last(), d) {
            Err(e) => Err(e),
            Ok(m) => merge_item(m, items.last(), d),
        }
    }
}

/// The merged items of all backends' outcomes, in order; a failed backend
/// (`None`) adds nothing.
pub open spec fn merge_outcomes(outcomes: Seq<Option<Seq<StreamView>>>, d: Direction) -> Result<Seq<StreamView>, LokiError>
    decreases outcomes.len(),
{
    if outcomes.len() == 0 {
        Ok(Seq::empty())
    } else {
        match merge_outcomes(outcomes.drop_last(), d) {
            Err(e) => Err(e),
            Ok(acc) => match outcomes.last() {
                None => Ok(acc),
                Some(items) => merge_items(acc, items, d),
            },
        }
    }
}

/// What a backend's outcome contributes: its items, or nothing if it failed.
pub open spec fn outcome_view(r: Result<Response, LokiError>) -> Option<Seq<StreamView>> {
    match r {
        Ok(resp) => Some(resp@.result),
        Err(_) => None,
    }
}

pub open spec fn outcomes_view(v: Seq<Result<Response, LokiError>>) -> Seq<Option<Seq<StreamView>>> {
    v.map_values(|r: Result<Response, LokiError>| outcome_view(r))
}

/// The answer that carries `items` as log streams.
pub open spec fn streams_answer(items: Seq<StreamView>) -> ResponseView {
    ResponseView { status: "success"@, result_type: ResultType::Streams, result: items }
}

/// The entries of a stream, read from their wire form.
fn get_stream_data(stream: &VectorOrStream) -> (r: Result<Vec<(i64, String)>, LokiError>)
    ensures
        match decode_values(stream@.values) {
            Ok(e) => r matches Ok(v) && entries_view(v@) == e,
            Err(e) => r matches Err(e2) && e2 == e,
        },
{
    match &stream.values {
        None => Err(LokiError::NoData),
        Some(values) => {
            let ghost w = pairs_view(values@);
            let mut result: Vec<(i64, String)> = Vec::new();
            let mut i: usize = 0;
            while i < values.len()
                invariant
                    i <= values@.len(),
                    w == pairs_view(values@),
                    stream@.values == Some(w),
                    forall|k: int| 0 <= k < i ==> (#[trigger] parse_i64_spec(w[k].0)) is Some,
                    entries_view(result@) =~= Seq::new(i as nat, |k: int| (parse_i64_spec(w[k].0).unwrap(), w[k].1)),
                decreases values@.len() - i,
            {
                match parse_i64(values[i].0.as_str()) {
                    Some(ts) => {
                        let ghost before = result@;
                        let e = (ts, values[i].1.clone());
                        result.push(e);
                        proof {
                            assert(result@ == before.push(e));
                            assert(entries_view(result@) =~= entries_view(before).push((ts, w[i as int].1)));
                        }
                    },
                    None => {
                        proof {
                            assert(parse_i64_spec(w[i as int].0) is None);
                        }
                        return Err(LokiError::Decode);
                    },
                }
                i = i + 1;
            }
            Ok(result)
        },
    }
}

/// Entries in wire form: each timestamp as decimal text.
fn encode_stream_data(data: &Vec<(i64, String)>) -> (r: Vec<(String, String)>)
    ensures
        pairs_view(r@) == encode_entries(entries_view(data@)),
{
    let mut r: Vec<(String, String)> = Vec::new();
    let mut i: usize = 0;
    while i < data.len()
        invariant
            i <= data@.len(),
            pairs_view(r@) =~= encode_entries(entries_view(data@)).subrange(0, i as int),
        decreases data@.len() - i,
    {
        let ghost before = r@;
        let p = (i64_text(data[i].0), data[i].1.clone());
        r.push(p);
        proof {
            assert(r@ == before.push(p));
            assert(pairs_view(r@) =~= pairs_view(before).push(pair_of(p)));
        }
        i = i + 1;
    }
    proof {
        assert(encode_entries(entries_view(data@)).subrange(0, i as int) =~= encode_entries(entries_view(data@)));
    }
    r
}

spec fn pair_of(p: (String, String)) -> WireEntryView {
    (p.0@, p.1@)
}

pub(crate) proof fn lemma_find_stream_range(acc: Seq<StreamView>, l: Set<LabelView>, i: int)
    requires
        0 <= i,
    ensures
        find_stream_from(acc, l, i) matches Some(j) ==> i <= j < acc.len() && acc[j].stream == Some(l) && forall|k: int|
            i <= k < j ==> (#[trigger] acc[k]).stream != Some(l),
        find_stream_from(acc, l, i) is None ==> forall|k: int| i <= k < acc.len() ==> (#[trigger] acc[k]).stream != Some(l),
    decreases acc.len() - i,
{
    if i < acc.len() {
        lemma_find_stream_range(acc, l, i + 1);
    }
}

/// The index of the first item of `acc` labelled as `s`, if `s` is a stream.
fn find_stream(acc: &Vec<VectorOrStream>, s: &VectorOrStream) -> (r: Option<usize>)
    requires
        s@.stream is Some,
    ensures
        r matches Some(j) ==> find_stream_from(items_view(acc@), s@.stream.unwrap(), 0) == Some(j as int),
        r is None ==> find_stream_from(items_view(acc@), s@.stream.unwrap(), 0) is None,
{
    let ghost a = items_view(acc@);
    let ghost l = s@.stream.unwrap();
    let labels = match &s.stream {
        Some(l) => l,
        None => { return None; },
    };
    let mut j: usize = 0;
    while j < acc.len()
        invariant
            j <= acc@.len(),
            a == items_view(acc@),
            l == labels@,
            s@.stream == Some(l),
            find_stream_from(a, l, 0) == find_stream_from(a, l, j as int),
        decreases acc@.len() - j,
    {
        let hit = match &acc[j].stream {
            Some(t) => t.same_as(labels),
            None => false,
        };
        proof {
            assert(a[j as int] == acc@[j as int]@);
        }
        if hit {
            proof {
                assert(a[j as int].stream == Some(l));
            }
            return Some(j);
        }
        j = j + 1;
    }
    None
}

/// Adds one item to the merged items `acc`, as `merge_item` says.
fn merge_one(acc: &mut Vec<VectorOrStream>, s: &VectorOrStream, d: Direction) -> (r: Result<(), LokiError>)
    ensures
        match merge_item(items_view(old(acc)@), s@, d) {
            Ok(m) => r is Ok && items_view(final(acc)@) == m,
            Err(e) => r matches Err(e2) && e2 == e,
        },
{
    let ghost a = items_view(acc@);
    if s.stream.is_none() {
        let c = s.duplicate();
        acc.push(c);
        proof {
            assert(items_view(acc@) =~= a.push(s@));
        }
        return Ok(());
    }
    match find_stream(acc, s) {
        None => {
            let c = s.duplicate();
            acc.push(c);
            proof {
                assert(items_view(acc@) =~= a.push(s@));
            }
            Ok(())
        },
        Some(j) => {
            proof {
                lemma_find_stream_range(a, s@.stream.unwrap(), 0);
                assert(a[j as int] == acc@[j as int]@);
            }
            let old_data = match get_stream_data(&acc[j]) {
                Ok(v) => v,
                Err(e) => { return Err(e); },
            };
            let new_data = match get_stream_data(s) {
                Ok(v) => v,
                Err(e) => { return Err(e); },
            };
            let merged = aggregate(old_data, new_data, d);
            let values = encode_stream_data(&merged);
            let mut t = acc[j].duplicate();
            t.values = Some(values);
            acc[j] = t;
            proof {
                assert(items_view(acc@) =~= a.update(
                    j as int,
                    with_values(a[j as int], encode_entries(merge_entries(
                        decode_values(a[j as int].values).unwrap(),
                        decode_values(s@.values).unwrap(),
                        d,
                    ))),
                ));
            }
            Ok(())
        },
    }
}

/// Once adding items fails, adding more fails the same way.
proof fn lemma_merge_items_error_stays(acc: Seq<StreamView>, items: Seq<StreamView>, k: int, d: Direction)
    requires
        0 <= k <= items.len(),
        merge_items(acc, items.subrange(0, k), d) is Err,
    ensures
        merge_items(acc, items, d) == merge_items(acc, items.subrange(0, k), d),
    decreases items.len() - k,
{
    if k < items.len() {
        let p = items.subrange(0, k + 1);
        assert(p.drop_last() =~= items.subrange(0, k));
        lemma_merge_items_error_stays(acc, items, k + 1, d);
    } else {
        assert(items.subrange(0, k) =~= items);
    }
}

/// Once merging outcomes fails, merging more fails the same way.
proof fn lemma_merge_outcomes_error_stays(outcomes: Seq<Option<Seq<StreamView>>>, k: int, d: Direction)
    requires
        0 <= k <= outcomes.len(),
        merge_outcomes(outcomes.subrange(0, k), d) is Err,
    ensures
        merge_outcomes(outcomes, d) == merge_outcomes(outcomes.subrange(0, k), d),
    decreases outcomes.len() - k,
{
    if k < outcomes.len() {
        let p = outcomes.subrange(0, k + 1);
        assert(p.drop_last() =~= outcomes.subrange(0, k));
        lemma_merge_outcomes_error_stays(outcomes, k + 1, d);
    } else {
        assert(outcomes.subrange(0, k) =~= outcomes);
    }
}

/// `acc` followed by each element of `xs` that is not there yet, in the
/// order of `xs`.
pub open spec fn add_new<T>(acc: Seq<T>, xs: Seq<T>) -> Seq<T>
    decreases xs.len(),
{
    if xs.len() == 0 {
        acc
    } else {
        let m = add_new(acc, xs.drop_last());
        if m.contains(xs.last()) {
            m
        } else {
            m.push(xs.last())
        }
    }
}

/// What a backend's label answer contributes: nothing if it failed, else
/// its data, which may be absent.
pub open spec fn label_outcome_view(r: Result<LabelResponse, LokiError>) -> Option<Option<Seq<Seq<char>>>> {
    match r {
        Ok(resp) => Some(label_data_view(resp.data)),
        Err(_) => None,
    }
}

pub open spec fn label_outcomes_view(v: Seq<Result<LabelResponse, LokiError>>) -> Seq<Option<Option<Seq<Seq<char>>>>> {
    v.map_values(|r: Result<LabelResponse, LokiError>| label_outcome_view(r))
}

/// The union of the label answers' data, first seen first; absent until an
/// answer brings data.
pub open spec fn merge_label_outcomes(outs: Seq<Option<Option<Seq<Seq<char>>>>>) -> Option<Seq<Seq<char>>>
    decreases outs.len(),
{
    if outs.len() == 0 {
        None
    } else {
        let acc = merge_label_outcomes(outs.drop_last());
        match outs.last() {
            Some(Some(d)) => Some(add_new(
                match acc {
                    Some(a) => a,
                    None => Seq::empty(),
                },
                d,
            )),
            _ => acc,
        }
    }
}

/// What a backend's series answer contributes: nothing if it failed.
pub open spec fn serie_outcome_view(r: Result<SerieResponse, LokiError>) -> Option<Seq<Set<LabelView>>> {
    match r {
        Ok(resp) => Some(label_sets_view(resp.data@)),
        Err(_) => None,
    }
}

pub open spec fn serie_outcomes_view(v: Seq<Result<SerieResponse, LokiError>>) -> Seq<Option<Seq<Set<LabelView>>>> {
    v.map_values(|r: Result<SerieResponse, LokiError>| serie_outcome_view(r))
}

/// The label sets of all series answers, each once, first seen first.
pub open spec fn merge_serie_outcomes(outs: Seq<Option<Seq<Set<LabelView>>>>) -> Seq<Set<LabelView>>
    decreases outs.len(),
{
    if outs.len() == 0 {
        Seq::empty()
    } else {
        let acc = merge_serie_outcomes(outs.drop_last());
        match outs.last() {
            Some(d) => add_new(acc, d),
            None => acc,
        }
    }
}

/// Appends to `acc` each string of `xs` that it does not hold yet.
fn add_new_strings(acc: &mut Vec<String>, xs: &Vec<String>)
    ensures
        strings_view(final(acc)@) == add_new(strings_view(old(acc)@), strings_view(xs@)),
{
    let ghost a0 = strings_view(acc@);
    let ghost x = strings_view(xs@);
    let mut i: usize = 0;
    while i < xs.len()
        invariant
            i <= xs@.len(),
            x == strings_view(xs@),
            strings_view(acc@) == add_new(a0, x.subrange(0, i as int)),
        decreases xs@.len() - i,
    {
        let ghost p = x.subrange(0, i + 1);
        proof {
            assert(p.drop_last() =~= x.subrange(0, i as int));
            assert(p.last() == xs@[i as int]@);
        }
        let ghost cur = strings_view(acc@);
        let mut found = false;
        let mut j: usize = 0;
        while j < acc.len() && !found
            invariant
                j <= acc@.len(),
                i < xs@.len(),
                cur == strings_view(acc@),
                found ==> cur.contains(xs@[i as int]@),
                !found ==> forall|k: int| 0 <= k < j ==> cur[k] != xs@[i as int]@,
            decreases acc@.len() - j + if found { 0int } else { 1int },
        {
            if acc[j] == xs[i] {
                proof {
                    assert(cur[j as int] == xs@[i as int]@);
                }
                found = true;
            } else {
                j = j + 1;
            }
        }
        if !found {
            let s = xs[i].clone();
            acc.push(s);
            proof {
                assert(strings_view(acc@) =~= cur.push(xs@[i as int]@));
            }
        }
        i = i + 1;
    }
    proof {
        assert(x.subrange(0, i as int) =~= x);
    }
}

/// Appends to `acc` each label set of `xs` that it does not hold yet.
fn add_new_label_sets(acc: &mut Vec<Labels>, xs: &Vec<Labels>)
    ensures
        label_sets_view(final(acc)@) == add_new(label_sets_view(old(acc)@), label_sets_view(xs@)),
{
    let ghost a0 = label_sets_view(acc@);
    let ghost x = label_sets_view(xs@);
    let mut i: usize = 0;
    while i < xs.len()
        invariant
            i <= xs@.len(),
            x == label_sets_view(xs@),
            label_sets_view(acc@) == add_new(a0, x.subrange(0, i as int)),
        decreases xs@.len() - i,
    {
        let ghost p = x.subrange(0, i + 1);
        proof {
            assert(p.drop_last() =~= x.subrange(0, i as int));
            assert(p.last() == xs@[i as int]@);
        }
        let ghost cur = label_sets_view(acc@);
        let mut found = false;
        let mut j: usize = 0;
        while j < acc.len() && !found
            invariant
                j <= acc@.len(),
                i < xs@.len(),
                cur == label_sets_view(acc@),
                found ==> cur.contains(xs@[i as int]@),
                !found ==> forall|k: int| 0 <= k < j ==> cur[k] != xs@[i as int]@,
            decreases acc@.len() - j + if found { 0int } else { 1int },
        {
            if acc[j].same_as(&xs[i]) {
                proof {
                    assert(cur[j as int] == xs@[i as int]@);
                }
                found = true;
            } else {
                j = j + 1;
            }
        }
        if !found {
            let s = xs[i].duplicate();
            acc.push(s);
            proof {
                assert(label_sets_view(acc@) =~= cur.push(xs@[i as int]@));
            }
        }
        i = i + 1;
    }
    proof {
        assert(x.subrange(0, i as int) =~= x);
    }
}

/// The federation of the configured backends.
#[derive(Debug)]
pub struct FederatedLoki {
    pub data_sources_provider: DataSourcesProvider,
}

impl FederatedLoki {
    pub fn new(data_sources_provider: DataSourcesProvider) -> (r: FederatedLoki)
        ensures
            r.data_sources_provider == data_sources_provider,
    {
        FederatedLoki { data_sources_provider }
    }

    /// Merges the backends' answers to a log query into one answer of log
    /// streams. Failed backends are skipped; a stream whose labels were
    /// already seen has its entries merged into that stream in `direction`,
    /// which fails if either stream's values are missing or malformed.
    pub fn aggregate_responses(direction: Direction, responses: Vec<Result<Response, LokiError>>) -> (r: Result<Response, LokiError>)
        ensures
            match merge_outcomes(outcomes_view(responses@), direction) {
                Ok(items) => r matches Ok(resp) && resp@ == streams_answer(items),
                Err(e) => r matches Err(e2) && e2 == e,
            },
    {
        let ghost outs = outcomes_view(responses@);
        let mut acc: Vec<VectorOrStream> = Vec::new();
        let mut i: usize = 0;
        proof {
            assert(outs.subrange(0, 0) =~= Seq::<Option<Seq<StreamView>>>::empty());
            assert(items_view(acc@) =~= Seq::<StreamView>::empty());
            assert(outs.len() == responses@.len());
        }
        while i < responses.len()
            invariant
                i <= responses@.len(),
                outs == outcomes_view(responses@),
                merge_outcomes(outs.subrange(0, i as int), direction) == Ok::<Seq<StreamView>, LokiError>(items_view(acc@)),
            decreases responses@.len() - i,
        {
            let ghost prefix = outs.subrange(0, i + 1);
            proof {
                assert(prefix.drop_last() =~= outs.subrange(0, i as int));
                assert(prefix.last() == outcome_view(responses@[i as int]));
            }
            match &responses[i] {
                Err(_) => {},
                Ok(resp) => {
                    let items = &resp.data.result;
                    let ghost acc0 = items_view(acc@);
                    let ghost its = items_view(items@);
                    let mut k: usize = 0;
                    proof {
                        assert(its.subrange(0, 0) =~= Seq::<StreamView>::empty());
                    }
                    while k < items.len()
                        invariant
                            k <= items@.len(),
                            its == items_view(items@),
                            i < responses@.len(),
                            outs == outcomes_view(responses@),
                            outs.len() == responses@.len(),
                            prefix == outs.subrange(0, i + 1),
                            prefix.drop_last() == outs.subrange(0, i as int),
                            prefix.last() == Some(its),
                            merge_outcomes(outs.subrange(0, i as int), direction) == Ok::<Seq<StreamView>, LokiError>(acc0),
                            merge_items(acc0, its.subrange(0, k as int), direction) == Ok::<Seq<StreamView>, LokiError>(items_view(acc@)),
                        decreases items@.len() - k,
                    {
                        let ghost p = its.subrange(0, k + 1);
                        proof {
                            assert(p.drop_last() =~= its.subrange(0, k as int));
                            assert(p.last() == items@[k as int]@);
                        }
                        let ghost cur = items_view(acc@);
                        match merge_one(&mut acc, &items[k], direction) {
                            Ok(()) => {},
                            Err(e) => {
                                proof {
                                    assert(merge_item(cur, its[k as int], direction) == Err::<Seq<StreamView>, LokiError>(e));
                                    assert(merge_items(acc0, p, direction) == Err::<Seq<StreamView>, LokiError>(e));
                                    lemma_merge_items_error_stays(acc0, its, k + 1, direction);
                                    assert(merge_items(acc0, its, direction) == Err::<Seq<StreamView>, LokiError>(e));
                                    assert(merge_outcomes(prefix, direction) == Err::<Seq<StreamView>, LokiError>(e));
                                    lemma_merge_outcomes_error_stays(outs, i + 1, direction);
                                }
                                return Err(e);
                            },
                        }
                        k = k + 1;
                    }
                    proof {
                        assert(its.subrange(0, k as int) =~= its);
                    }
                },
            }
            i = i + 1;
        }
        proof {
            assert(outs.subrange(0, i as int) =~= outs);
        }
        Ok(Response {
            status: String::from_str("success"),
            data: Data { result_type: ResultType::Streams, result: acc },
        })
    }

    /// Merges the backends' answers to a query that asked for `direction`;
    /// a query that gave none is merged newest first.
    pub fn merge_query_responses(direction: Option<Direction>, responses: Vec<Result<Response, LokiError>>) -> (r: Result<Response, LokiError>)
        ensures
            match merge_outcomes(outcomes_view(responses@), effective_direction(direction)) {
                Ok(items) => r matches Ok(resp) && resp@ == streams_answer(items),
                Err(e) => r matches Err(e2) && e2 == e,
            },
    {
        Self::aggregate_responses(direction_or_default(direction), responses)
    }

    /// Merges the backends' answers to a label query: the union of their
    /// data, each label once. Failed backends are skipped; the data stays
    /// absent when no answer brought any.
    pub fn merge_label_responses(responses: Vec<Result<LabelResponse, LokiError>>) -> (r: LabelResponse)
        ensures
            r.status@ == "success"@,
            label_data_view(r.data) == merge_label_outcomes(label_outcomes_view(responses@)),
    {
        let ghost outs = label_outcomes_view(responses@);
        let mut acc: Option<Vec<String>> = None;
        let mut i: usize = 0;
        proof {
            assert(outs.subrange(0, 0) =~= Seq::<Option<Option<Seq<Seq<char>>>>>::empty());
        }
        while i < responses.len()
            invariant
                i <= responses@.len(),
                outs == label_outcomes_view(responses@),
                label_data_view(acc) == merge_label_outcomes(outs.subrange(0, i as int)),
            decreases responses@.len() - i,
        {
            let ghost p = outs.subrange(0, i + 1);
            proof {
                assert(p.drop_last() =~= outs.subrange(0, i as int));
                assert(p.last() == label_outcome_view(responses@[i as int]));
            }
            match &responses[i] {
                Ok(resp) => match &resp.data {
                    Some(data) => {
                        let mut merged = match acc {
                            Some(a) => a,
                            None => Vec::new(),
                        };
                        proof {
                            if label_data_view(acc) is None {
                                assert(strings_view(merged@) =~= Seq::<Seq<char>>::empty());
                            }
                        }
                        add_new_strings(&mut merged, data);
                        acc = Some(merged);
                    },
                    None => {},
                },
                Err(_) => {},
            }
            i = i + 1;
        }
        proof {
            assert(outs.subrange(0, i as int) =~= outs);
        }
        LabelResponse { status: String::from_str("success"), data: acc }
    }

    /// Merges the backends' answers to a series query: every label set that
    /// some answer holds, once, in the order first seen. Failed backends are
    /// skipped.
    pub fn merge_serie_responses(responses: Vec<Result<SerieResponse, LokiError>>) -> (r: SerieResponse)
        ensures
            r.status@ == "success"@,
            label_sets_view(r.data@) == merge_serie_outcomes(serie_outcomes_view(responses@)),
    {
        let ghost outs = serie_outcomes_view(responses@);
        let mut acc: Vec<Labels> = Vec::new();
        let mut i: usize = 0;
        proof {
            assert(outs.subrange(0, 0) =~= Seq::<Option<Seq<Set<LabelView>>>>::empty());
            assert(label_sets_view(acc@) =~= Seq::<Set<LabelView>>::empty());
        }
        while i < responses.len()
            invariant
                i <= responses@.len(),
                outs == serie_outcomes_view(responses@),
                label_sets_view(acc@) == merge_serie_outcomes(outs.subrange(0, i as int)),
            decreases responses@.len() - i,
        {
            let ghost p = outs.subrange(0, i + 1);
            proof {
                assert(p.drop_last() =~= outs.subrange(0, i as int));
                assert(p.last() == serie_outcome_view(responses@[i as int]));
            }
            match &responses[i] {
                Ok(resp) => add_new_label_sets(&mut acc, &resp.data),
                Err(_) => {},
            }
            i = i + 1;
        }
        proof {
            assert(outs.subrange(0, i as int) =~= outs);
        }
        SerieResponse { status: String::from_str("success"), data: acc }
    }
}

} // verus!
