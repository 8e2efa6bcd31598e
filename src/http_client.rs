//! The requests that a backend speaking the HTTP query API receives.
use vstd::prelude::*;
use vstd::string::*;

use crate::decimal::{i64_text, int_text};
use crate::direction::Direction;
use crate::labels::pairs_view;
use crate::response::strings_view;

verus! {

/// A backend reached over HTTP at `url`.
#[derive(Debug)]
pub struct HttpLokiClient {
    pub url: String,
}

/// A request to send: the full URL and its parameters, in order. Queries
/// send them in the query string; the series request sends them as a form.
#[derive(Debug)]
pub struct HttpRequest {
    pub url: String,
    pub params: Vec<(String, String)>,
}

/// The parameter `name` with the decimal text of `v`, if there is a `v`.
pub open spec fn int_param(name: Seq<char>, v: Option<int>) -> Seq<(Seq<char>, Seq<char>)> {
    match v {
        Some(v) => seq![(name, int_text(v))],
        None => Seq::empty(),
    }
}

pub open spec fn opt_i32(v: Option<i32>) -> Option<int> {
    match v {
        Some(v) => Some(v as int),
        None => None,
    }
}

pub open spec fn opt_i64(v: Option<i64>) -> Option<int> {
    match v {
        Some(v) => Some(v as int),
        None => None,
    }
}

/// The parameter `name` with the text `v`, if there is a `v`.
pub open spec fn text_param(name: Seq<char>, v: Option<Seq<char>>) -> Seq<(Seq<char>, Seq<char>)> {
    match v {
        Some(v) => seq![(name, v)],
        None => Seq::empty(),
    }
}

pub open spec fn opt_string(v: Option<String>) -> Option<Seq<char>> {
    match v {
        Some(v) => Some(v@),
        None => None,
    }
}

pub open spec fn direction_text(d: Option<Direction>) -> Option<Seq<char>> {
    match d {
        Some(Direction::Forward) => Some("forward"@),
        Some(Direction::Backward) => Some("backward"@),
        None => None,
    }
}

pub open spec fn selectors_view(m: Option<Vec<String>>) -> Seq<Seq<char>> {
    match m {
        Some(m) => strings_view(m@),
        None => Seq::empty(),
    }
}

/// One `match[]` parameter for each selector.
pub open spec fn match_params(m: Seq<Seq<char>>) -> Seq<(Seq<char>, Seq<char>)> {
    Seq::new(m.len(), |i: int| ("match[]"@, m[i]))
}

fn push_int_param(params: &mut Vec<(String, String)>, name: &str, v: Option<i64>)
    ensures
        pairs_view(final(params)@) == pairs_view(old(params)@) + int_param(name@, opt_i64(v)),
{
    let ghost before = params@;
    if let Some(v) = v {
        let p = (String::from_str(name), i64_text(v));
        params.push(p);
        proof {
            assert(pairs_view(params@) =~= pairs_view(before) + int_param(name@, opt_i64(Some(v))));
        }
    } else {
        proof {
            assert(pairs_view(params@) =~= pairs_view(before) + Seq::<(Seq<char>, Seq<char>)>::empty());
        }
    }
}

fn push_text_param(params: &mut Vec<(String, String)>, name: &str, v: Option<String>)
    ensures
        pairs_view(final(params)@) == pairs_view(old(params)@) + text_param(name@, opt_string(v)),
{
    let ghost before = params@;
    if let Some(v) = v {
        let ghost vv = v@;
        let p = (String::from_str(name), v);
        params.push(p);
        proof {
            assert(pairs_view(params@) =~= pairs_view(before) + text_param(name@, Some(vv)));
        }
    } else {
        proof {
            assert(pairs_view(params@) =~= pairs_view(before) + Seq::<(Seq<char>, Seq<char>)>::empty());
        }
    }
}

fn direction_name(d: Option<Direction>) -> (r: Option<String>)
    ensures
        opt_string(r) == direction_text(d),
{
    match d {
        Some(d) => Some(d.to_string()),
        None => None,
    }
}

impl HttpLokiClient {
    pub fn new(url: String) -> (r: HttpLokiClient)
        ensures
            r.url@ == url@,
    {
        HttpLokiClient { url }
    }

    fn endpoint(&self, path: &str) -> (r: String)
        ensures
            r@ == self.url@ + path@,
    {
        let mut url = self.url.clone();
        url.append(path);
        url
    }

    /// The instant query: `query`, then `limit`, `time` and `direction` where given.
    pub fn query_request(&self, query: String, limit: Option<i32>, time: Option<i64>, direction: Option<Direction>) -> (r: HttpRequest)
        ensures
            r.url@ == self.url@ + "/loki/api/v1/query"@,
            pairs_view(r.params@) == seq![("query"@, query@)] + int_param("limit"@, opt_i32(limit)) + int_param(
                "time"@,
                opt_i64(time),
            ) + text_param("direction"@, direction_text(direction)),
    {
        let url = self.endpoint("/loki/api/v1/query");
        let ghost q = query@;
        let mut params: Vec<(String, String)> = Vec::new();
        params.push((String::from_str("query"), query));
        proof {
            assert(pairs_view(params@) =~= seq![("query"@, q)]);
        }
        push_int_param(&mut params, "limit", match limit { Some(l) => Some(l as i64), None => None });
        push_int_param(&mut params, "time", time);
        push_text_param(&mut params, "direction", direction_name(direction));
        proof {
            assert(opt_i64(match limit { Some(l) => Some(l as i64), None => None }) == opt_i32(limit));
        }
        HttpRequest { url, params }
    }

    /// The range query: `query`, `start` and `end`, then `limit`,
    /// `direction`, `step` and `interval` where given.
    pub fn query_range_request(
        &self,
        query: String,
        start: i64,
        end: i64,
        limit: Option<i32>,
        direction: Option<Direction>,
        step: Option<String>,
        interval: Option<String>,
    ) -> (r: HttpRequest)
        ensures
            r.url@ == self.url@ + "/loki/api/v1/query_range"@,
            pairs_view(r.params@) == seq![("query"@, query@), ("start"@, int_text(start as int)), ("end"@, int_text(end as int))]
                + int_param("limit"@, opt_i32(limit)) + text_param("direction"@, direction_text(direction))
                + text_param("step"@, opt_string(step)) + text_param("interval"@, opt_string(interval)),
    {
        let url = self.endpoint("/loki/api/v1/query_range");
        let ghost q = query@;
        let mut params: Vec<(String, String)> = Vec::new();
        params.push((String::from_str("query"), query));
        params.push((String::from_str("start"), i64_text(start)));
        params.push((String::from_str("end"), i64_text(end)));
        proof {
            assert(pairs_view(params@) =~= seq![("query"@, q), ("start"@, int_text(start as int)), ("end"@, int_text(end as int))]);
        }
        push_int_param(&mut params, "limit", match limit { Some(l) => Some(l as i64), None => None });
        push_text_param(&mut params, "direction", direction_name(direction));
        push_text_param(&mut params, "step", step);
        push_text_param(&mut params, "interval", interval);
        proof {
            assert(opt_i64(match limit { Some(l) => Some(l as i64), None => None }) == opt_i32(limit));
        }
        HttpRequest { url, params }
    }

    /// The label-name query: `start` and `end` where given.
    pub fn labels_request(&self, start: Option<i64>, end: Option<i64>) -> (r: HttpRequest)
        ensures
            r.url@ == self.url@ + "/loki/api/v1/labels"@,
            pairs_view(r.params@) == int_param("start"@, opt_i64(start)) + int_param("end"@, opt_i64(end)),
    {
        let url = self.endpoint("/loki/api/v1/labels");
        let mut params: Vec<(String, String)> = Vec::new();
        proof {
            assert(pairs_view(params@) =~= Seq::<(Seq<char>, Seq<char>)>::empty());
        }
        push_int_param(&mut params, "start", start);
        push_int_param(&mut params, "end", end);
        proof {
            assert(Seq::<(Seq<char>, Seq<char>)>::empty() + int_param("start"@, opt_i64(start)) =~= int_param("start"@, opt_i64(start)));
        }
        HttpRequest { url, params }
    }

    /// The label-value query for `label`: `start` and `end` where given.
    pub fn label_values_request(&self, label: String, start: Option<i64>, end: Option<i64>) -> (r: HttpRequest)
        ensures
            r.url@ == self.url@ + "/loki/api/v1/label/"@ + label@ + "/values"@,
            pairs_view(r.params@) == int_param("start"@, opt_i64(start)) + int_param("end"@, opt_i64(end)),
    {
        let mut url = self.endpoint("/loki/api/v1/label/");
        url.append(label.as_str());
        url.append("/values");
        let mut params: Vec<(String, String)> = Vec::new();
        proof {
            assert(pairs_view(params@) =~= Seq::<(Seq<char>, Seq<char>)>::empty());
        }
        push_int_param(&mut params, "start", start);
        push_int_param(&mut params, "end", end);
        proof {
            assert(Seq::<(Seq<char>, Seq<char>)>::empty() + int_param("start"@, opt_i64(start)) =~= int_param("start"@, opt_i64(start)));
        }
        HttpRequest { url, params }
    }

    /// The series query, sent as a form: one `match[]` for each selector,
    /// then `start` and `end` where given.
    pub fn series_request(&self, matches: Option<Vec<String>>, start: Option<i64>, end: Option<i64>) -> (r: HttpRequest)
        ensures
            r.url@ == self.url@ + "/loki/api/v1/series"@,
            pairs_view(r.params@) == match_params(selectors_view(matches)) + int_param("start"@, opt_i64(start)) + int_param("end"@, opt_i64(end)),
    {
        let url = self.endpoint("/loki/api/v1/series");
        let mut params: Vec<(String, String)> = Vec::new();
        let ghost ms = selectors_view(matches);
        if let Some(m) = &matches {
            let mut i: usize = 0;
            while i < m.len()
                invariant
                    i <= m@.len(),
                    ms == strings_view(m@),
                    pairs_view(params@) =~= match_params(ms).subrange(0, i as int),
                decreases m@.len() - i,
            {
                let ghost before = params@;
                let p = (String::from_str("match[]"), m[i].clone());
                params.push(p);
                proof {
                    assert(pairs_view(params@) =~= pairs_view(before).push(("match[]"@, ms[i as int])));
                }
                i = i + 1;
            }
            proof {
                assert(match_params(ms).subrange(0, i as int) =~= match_params(ms));
            }
        } else {
            proof {
                assert(pairs_view(params@) =~= match_params(ms));
            }
        }
        push_int_param(&mut params, "start", start);
        push_int_param(&mut params, "end", end);
        HttpRequest { url, params }
    }
}

} // verus!
