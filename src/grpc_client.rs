//! The requests and answers of a backend speaking the gRPC querier protocol.
use vstd::prelude::*;
use vstd::string::*;

use crate::decimal::{i64_text, int_text, pad_left};
use crate::direction::Direction;
use crate::labels::pairs_to_labels;
use crate::labels_parser::{failure_report, parse_labels_into_map, parse_labels_spec};
use crate::response::{
    items_view, Data, LokiError, Response, ResponseView, ResultType, StreamView, VectorOrStream, WireEntryView,
};

verus! {

/// A backend reached over gRPC at `url`.
#[derive(Debug)]
pub struct GrpcLokiClient {
    pub url: String,
}

/// A point in time as the protocol writes it: whole seconds since the epoch
/// and the nanoseconds beyond them, both with the sign of the time.
#[derive(Clone, Copy, Debug, PartialEq, Eq, Structural)]
pub struct Timestamp {
    pub seconds: i64,
    pub nanos: i32,
}

pub const NANOS_PER_SECOND: i64 = 1_000_000_000;

/// How far back from the asked time an instant query looks.
pub const INSTANT_WINDOW_NANOS: i64 = 30_000_000_000;

/// The limit an instant query asks for when none is given.
pub const DEFAULT_LIMIT: i32 = 100;

/// The nanoseconds since the epoch `t`, split into seconds and nanoseconds.
pub open spec fn splits(t: i64, ts: Timestamp) -> bool {
    &&& ts.seconds * 1_000_000_000 + ts.nanos == t
    &&& t >= 0 ==> 0 <= ts.nanos < 1_000_000_000
    &&& t < 0 ==> -1_000_000_000 < ts.nanos <= 0
}

/// Splits nanoseconds since the epoch into seconds and nanoseconds,
/// rounding toward zero as integer division does.
pub fn from_unix_nano_timestamp(timestamp: i64) -> (r: Timestamp)
    ensures
        splits(timestamp, r),
{
    if timestamp >= 0 {
        Timestamp { seconds: timestamp / NANOS_PER_SECOND, nanos: (timestamp % NANOS_PER_SECOND) as i32 }
    } else {
        let m: i128 = -(timestamp as i128);
        let s: i128 = m / 1_000_000_000;
        let n: i128 = m % 1_000_000_000;
        Timestamp { seconds: (-s) as i64, nanos: (-n) as i32 }
    }
}

/// The query that an instant query becomes: the selector, the limit, the
/// window of the last thirty seconds up to `time` (unbounded without one),
/// and the direction, newest first where none is given.
#[derive(Debug)]
pub struct GrpcQueryRequest {
    pub selector: String,
    pub limit: u32,
    pub start: Option<Timestamp>,
    pub end: Option<Timestamp>,
    pub direction: Direction,
}

/// The limit as the protocol's unsigned field holds it: a negative limit
/// wraps around, as a two's-complement reinterpretation does.
pub open spec fn wire_limit(limit: Option<i32>) -> int {
    let l = match limit {
        Some(l) => l as int,
        None => 100,
    };
    if l >= 0 {
        l
    } else {
        l + 0x1_0000_0000
    }
}

/// An entry's timestamp as text: the seconds, then the nanoseconds padded
/// with zeros to nine characters.
pub open spec fn timestamp_text_spec(t: Timestamp) -> Seq<char> {
    int_text(t.seconds as int) + pad_left(int_text(t.nanos as int), 9, '0')
}

/// An entry of a stream as the protocol sends it.
#[derive(Debug)]
pub struct GrpcEntry {
    pub timestamp: Option<Timestamp>,
    pub line: String,
}

/// A stream as the protocol sends it: its labels as selector text, and its
/// entries.
#[derive(Debug)]
pub struct GrpcStream {
    pub labels: String,
    pub entries: Vec<GrpcEntry>,
}

/// The values of a stream in wire form; `None` if an entry has no timestamp.
pub open spec fn entries_text(es: Seq<GrpcEntry>) -> Option<Seq<WireEntryView>> {
    if forall|i: int| 0 <= i < es.len() ==> (#[trigger] es[i]).timestamp is Some {
        Some(Seq::new(es.len(), |i: int| (timestamp_text_spec(es[i].timestamp.unwrap()), es[i].line@)))
    } else {
        None
    }
}

pub open spec fn missing_timestamp_message() -> Seq<char> {
    "Timestamp is missing in the response"@
}

pub open spec fn bad_labels_prefix() -> Seq<char> {
    "Error while parsing labels: "@
}

/// A protocol stream as an item of a query answer, or the message of why
/// it cannot be one.
pub open spec fn stream_of(s: GrpcStream) -> Result<StreamView, Seq<char>> {
    match entries_text(s.entries@) {
        None => Err(missing_timestamp_message()),
        Some(values) => match parse_labels_spec(s.labels@) {
            Err((pos, rule)) => Err(bad_labels_prefix() + failure_report(s.labels@, pos, rule)),
            Ok(pairs) => Ok(
                StreamView { metric: None, value: None, stream: Some(pairs_to_labels(pairs)), values: Some(values) },
            ),
        },
    }
}

/// The protocol streams as items, or the message of the first that fails.
pub open spec fn streams_of(ss: Seq<GrpcStream>) -> Result<Seq<StreamView>, Seq<char>>
    decreases ss.len(),
{
    if ss.len() == 0 {
        Ok(Seq::empty())
    } else {
        match streams_of(ss.drop_last()) {
            Err(m) => Err(m),
            Ok(v) => match stream_of(ss.last()) {
                Err(m) => Err(m),
                Ok(x) => Ok(v.push(x)),
            },
        }
    }
}

/// The text of an entry's timestamp.
pub fn timestamp_text(t: &Timestamp) -> (r: String)
    ensures
        r@ == timestamp_text_spec(*t),
{
    let mut out = i64_text(t.seconds);
    let nanos = i64_text(t.nanos as i64);
    let len = nanos.unicode_len();
    let mut k: usize = len;
    while k < 9
        invariant
            len <= k <= 9 || (len > 9 && k == len),
            len == nanos@.len(),
            out@ == int_text(t.seconds as int) + Seq::new((k - len) as nat, |_i: int| '0'),
        decreases 9 - k,
    {
        out.append("0");
        proof {
            reveal_strlit("0");
            assert(Seq::new((k - len) as nat, |_i: int| '0') + "0"@ =~= Seq::new((k + 1 - len) as nat, |_i: int| '0'));
        }
        k = k + 1;
    }
    out.append(nanos.as_str());
    proof {
        if len >= 9 {
            assert(Seq::new((k - len) as nat, |_i: int| '0') =~= Seq::<char>::empty());
        }
        assert(out@ =~= timestamp_text_spec(*t));
    }
    out
}

impl GrpcLokiClient {
    pub fn new(url: String) -> (r: GrpcLokiClient)
        ensures
            r.url@ == url@,
    {
        GrpcLokiClient { url }
    }

    /// The request for an instant query; fails only where `time` is too
    /// early for its window to be written.
    pub fn query_request(&self, query: String, limit: Option<i32>, time: Option<i64>, direction: Option<Direction>) -> (r: Result<GrpcQueryRequest, LokiError>)
        ensures
            match time {
                Some(t) if t - 30_000_000_000 < i64::MIN => r matches Err(LokiError::Other(m)) && m@ == "time out of range"@,
                _ => r matches Ok(q) && q.selector@ == query@ && q.limit as int == wire_limit(limit) && match time {
                    Some(t) => (q.start matches Some(s) && splits((t - 30_000_000_000) as i64, s)) && (q.end matches Some(
                        e,
                    ) && splits(t, e)),
                    None => q.start is None && q.end is None,
                } && q.direction == match direction {
                    Some(d) => d,
                    None => Direction::Backward,
                },
            },
    {
        let l: i32 = match limit {
            Some(l) => l,
            None => DEFAULT_LIMIT,
        };
        let wire: u32 = if l >= 0 { l as u32 } else { (l as i64 + 0x1_0000_0000) as u32 };
        let (start, end) = match time {
            Some(t) => {
                if t < i64::MIN + INSTANT_WINDOW_NANOS {
                    return Err(LokiError::Other(String::from_str("time out of range")));
                }
                (Some(from_unix_nano_timestamp(t - INSTANT_WINDOW_NANOS)), Some(from_unix_nano_timestamp(t)))
            },
            None => (None, None),
        };
        let direction = match direction {
            Some(d) => d,
            None => Direction::Backward,
        };
        Ok(GrpcQueryRequest { selector: query, limit: wire, start, end, direction })
    }

    /// The answer that the protocol's streams make: log streams, each with
    /// its labels read from their selector text and its entries' timestamps
    /// written as text. Fails with the first stream that has an entry
    /// without a timestamp or labels that do not read.
    pub fn response_from_streams(streams: &Vec<GrpcStream>) -> (r: Result<Response, LokiError>)
        ensures
            match streams_of(streams@) {
                Ok(items) => r matches Ok(resp) && resp@ == (ResponseView {
                    status: "success"@,
                    result_type: ResultType::Streams,
                    result: items,
                }),
                Err(m) => r matches Err(LokiError::Other(e)) && e@ == m,
            },
    {
        let mut result: Vec<VectorOrStream> = Vec::new();
        let mut i: usize = 0;
        proof {
            assert(streams@.subrange(0, 0) =~= Seq::<GrpcStream>::empty());
            assert(items_view(result@) =~= Seq::<StreamView>::empty());
        }
        while i < streams.len()
            invariant
                i <= streams@.len(),
                streams_of(streams@.subrange(0, i as int)) == Ok::<Seq<StreamView>, Seq<char>>(items_view(result@)),
            decreases streams@.len() - i,
        {
            let ghost p = streams@.subrange(0, i + 1);
            proof {
                assert(p.drop_last() =~= streams@.subrange(0, i as int));
                assert(p.last() == streams@[i as int]);
            }
            let stream = &streams[i];
            let mut values: Vec<(String, String)> = Vec::new();
            let mut k: usize = 0;
            while k < stream.entries.len()
                invariant
                    k <= stream.entries@.len(),
                    i < streams@.len(),
                    *stream == streams@[i as int],
                    p == streams@.subrange(0, i + 1),
                    p.drop_last() == streams@.subrange(0, i as int),
                    p.last() == streams@[i as int],
                    streams_of(p.drop_last()) == Ok::<Seq<StreamView>, Seq<char>>(items_view(result@)),
                    forall|j: int| 0 <= j < k ==> (#[trigger] stream.entries@[j]).timestamp is Some,
                    crate::labels::pairs_view(values@) =~= Seq::new(
                        k as nat,
                        |j: int| (timestamp_text_spec(stream.entries@[j].timestamp.unwrap()), stream.entries@[j].line@),
                    ),
                decreases stream.entries@.len() - k,
            {
                let entry = &stream.entries[k];
                match &entry.timestamp {
                    None => {
                        proof {
                            assert(stream.entries@[k as int].timestamp is None);
                            assert(entries_text(stream.entries@) is None);
                            assert(streams_of(p) == Err::<Seq<StreamView>, Seq<char>>(missing_timestamp_message()));
                            lemma_streams_of_error_stays(streams@, i + 1);
                        }
                        return Err(LokiError::Other(String::from_str("Timestamp is missing in the response")));
                    },
                    Some(t) => {
                        let ghost before = values@;
                        let v = (timestamp_text(t), entry.line.clone());
                        values.push(v);
                        proof {
                            assert(values@ == before.push(v));
                            assert(crate::labels::pairs_view(values@) =~= crate::labels::pairs_view(before).push(
                                (timestamp_text_spec(*t), entry.line@),
                            ));
                        }
                    },
                }
                k = k + 1;
            }
            let labels = match parse_labels_into_map(stream.labels.clone()) {
                Ok(l) => l,
                Err(e) => {
                    let mut m = String::from_str("Error while parsing labels: ");
                    let report = e.to_string();
                    m.append(report.as_str());
                    proof {
                        assert(entries_text(stream.entries@) is Some);
                        assert(streams_of(p) == Err::<Seq<StreamView>, Seq<char>>(m@));
                        lemma_streams_of_error_stays(streams@, i + 1);
                    }
                    return Err(LokiError::Other(m));
                },
            };
            let item = VectorOrStream { metric: None, value: None, stream: Some(labels), values: Some(values) };
            let ghost before = result@;
            result.push(item);
            proof {
                assert(entries_text(stream.entries@) == Some(crate::labels::pairs_view(values@)));
                assert(items_view(result@) =~= items_view(before).push(item@));
            }
            i = i + 1;
        }
        proof {
            assert(streams@.subrange(0, i as int) =~= streams@);
        }
        Ok(Response {
            status: String::from_str("success"),
            data: Data { result_type: ResultType::Streams, result },
        })
    }
}

/// Once a stream fails, the conversion fails the same way.
proof fn lemma_streams_of_error_stays(ss: Seq<GrpcStream>, k: int)
    requires
        0 <= k <= ss.len(),
        streams_of(ss.subrange(0, k)) is Err,
    ensures
        streams_of(ss) == streams_of(ss.subrange(0, k)),
    decreases ss.len() - k,
{
    if k < ss.len() {
        assert(ss.subrange(0, k + 1).drop_last() =~= ss.subrange(0, k));
        lemma_streams_of_error_stays(ss, k + 1);
    } else {
        assert(ss.subrange(0, k) =~= ss);
    }
}

} // verus!
