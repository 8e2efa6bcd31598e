//! The answers of the query API, and the errors of a backend.
use vstd::prelude::*;

use crate::labels::{copy_pairs, pairs_view, LabelView, Labels};

verus! {

/// What a query answer holds: instant samples or log streams.
#[derive(Clone, Copy, Debug, PartialEq, Eq, Structural)]
pub enum ResultType {
    Vector,
    Streams,
}

/// One item of a query answer. A log stream has `stream` (its labels) and
/// `values` (pairs of a decimal timestamp and a line); an instant sample has
/// `metric` and `value`.
#[derive(Debug)]
pub struct VectorOrStream {
    pub metric: Option<Labels>,
    pub value: Option<(i64, String)>,
    pub stream: Option<Labels>,
    pub values: Option<Vec<(String, String)>>,
}

/// A log entry as it travels: its timestamp as text, and its line.
pub type WireEntryView = (Seq<char>, Seq<char>);

pub struct StreamView {
    pub metric: Option<Set<LabelView>>,
    pub value: Option<(i64, Seq<char>)>,
    pub stream: Option<Set<LabelView>>,
    pub values: Option<Seq<WireEntryView>>,
}

pub open spec fn labels_opt_view(l: Option<Labels>) -> Option<Set<LabelView>> {
    match l {
        Some(l) => Some(l@),
        None => None,
    }
}

impl View for VectorOrStream {
    type V = StreamView;

    open spec fn view(&self) -> StreamView {
        StreamView {
            metric: labels_opt_view(self.metric),
            value: match self.value {
                Some(v) => Some((v.0, v.1@)),
                None => None,
            },
            stream: labels_opt_view(self.stream),
            values: match self.values {
                Some(v) => Some(pairs_view(v@)),
                None => None,
            },
        }
    }
}

pub open spec fn items_view(v: Seq<VectorOrStream>) -> Seq<StreamView> {
    v.map_values(|s: VectorOrStream| s@)
}

fn copy_labels_opt(l: &Option<Labels>) -> (r: Option<Labels>)
    ensures
        labels_opt_view(r) == labels_opt_view(*l),
{
    match l {
        Some(l) => Some(l.duplicate()),
        None => None,
    }
}

impl VectorOrStream {
    /// A copy of the item.
    pub fn duplicate(&self) -> (r: VectorOrStream)
        ensures
            r@ == self@,
    {
        VectorOrStream {
            metric: copy_labels_opt(&self.metric),
            value: match &self.value {
                Some(v) => Some((v.0, v.1.clone())),
                None => None,
            },
            stream: copy_labels_opt(&self.stream),
            values: match &self.values {
                Some(v) => Some(copy_pairs(v)),
                None => None,
            },
        }
    }
}

/// The body of a query answer.
#[derive(Debug)]
pub struct Data {
    pub result_type: ResultType,
    pub result: Vec<VectorOrStream>,
}

/// A query answer: a status and its data.
#[derive(Debug)]
pub struct Response {
    pub status: String,
    pub data: Data,
}

pub struct ResponseView {
    pub status: Seq<char>,
    pub result_type: ResultType,
    pub result: Seq<StreamView>,
}

impl View for Response {
    type V = ResponseView;

    open spec fn view(&self) -> ResponseView {
        ResponseView {
            status: self.status@,
            result_type: self.data.result_type,
            result: items_view(self.data.result@),
        }
    }
}

/// The answer to a label-name or label-value query.
#[derive(Debug)]
pub struct LabelResponse {
    pub status: String,
    pub data: Option<Vec<String>>,
}

pub open spec fn strings_view(v: Seq<String>) -> Seq<Seq<char>> {
    v.map_values(|s: String| s@)
}

pub open spec fn label_data_view(d: Option<Vec<String>>) -> Option<Seq<Seq<char>>> {
    match d {
        Some(v) => Some(strings_view(v@)),
        None => None,
    }
}

/// The answer to a series query: the label sets of the matching streams.
#[derive(Debug)]
pub struct SerieResponse {
    pub status: String,
    pub data: Vec<Labels>,
}

pub open spec fn label_sets_view(v: Seq<Labels>) -> Seq<Set<LabelView>> {
    v.map_values(|l: Labels| l@)
}

/// Why a backend, or the federation, could not answer.
#[derive(Debug)]
pub enum LokiError {
    /// The backend does not offer the operation.
    NotImplemented,
    /// An answer had no values where values were needed.
    NoData,
    /// The backend could not be reached.
    Transport,
    /// An answer was malformed.
    Decode,
    /// Configuration or another failure, with its message.
    Other(String),
}

} // verus!
