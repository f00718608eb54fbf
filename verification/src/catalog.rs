//! The catalog of measurable events.
//!
//! The external profiling tool lists its events as a JSON array of records,
//! each with an optional primary name and an optional secondary name.  An
//! event's identifier is the primary name when present, otherwise the
//! secondary name; a record with neither name, or a listing that is not such
//! an array, is a fatal catalog failure.

use crate::PerfError;
use vstd::prelude::*;

verus! {

/// One record of the event listing: an optional event name and an optional
/// metric name.
pub struct EventRecord {
    pub event_name: Option<String>,
    pub metric_name: Option<String>,
}

/// The two optional names of a listing record, as character sequences.
pub open spec fn record_model(r: EventRecord) -> (Option<Seq<char>>, Option<Seq<char>>) {
    (
        match r.event_name {
            Some(s) => Some(s@),
            None => None,
        },
        match r.metric_name {
            Some(s) => Some(s@),
            None => None,
        },
    )
}

/// What the listing text parses to: the optional name pair of each record,
/// in listing order, or `None` when the text is not a JSON array of objects.
pub uninterp spec fn parsed_event_list(text: Seq<char>) -> Option<
    Seq<(Option<Seq<char>>, Option<Seq<char>>)>,
>;

/// Relies on `serde_json::from_str`: reads the listing as a JSON array and
/// the optional string fields `EventName` and `MetricName` of each element;
/// reports `None` when the text is not a JSON array.
#[verifier::external_body]
pub fn parse_event_list(text: &str) -> (r: Option<Vec<EventRecord>>)
    ensures
        match r {
            Some(v) => parsed_event_list(text@) == Some(
                v@.map_values(|e: EventRecord| record_model(e)),
            ),
            None => parsed_event_list(text@) is None,
        },
{
    let vals: Vec<serde_json::Value> = match serde_json::from_str(text) {
        Ok(v) => v,
        Err(_) => return None,
    };
    let mut out = Vec::with_capacity(vals.len());
    for v in &vals {
        out.push(EventRecord {
            event_name: v.get("EventName").and_then(|x| x.as_str()).map(String::from),
            metric_name: v.get("MetricName").and_then(|x| x.as_str()).map(String::from),
        });
    }
    Some(out)
}

/// The identifier a listing record resolves to: the primary name when
/// present, otherwise the secondary name.
pub open spec fn resolved_name(p: (Option<Seq<char>>, Option<Seq<char>>)) -> Option<Seq<char>> {
    match p.0 {
        Some(n) => Some(n),
        None => p.1,
    }
}

/// Whether every listing record carries at least one usable name.
pub open spec fn all_named(rs: Seq<(Option<Seq<char>>, Option<Seq<char>>)>) -> bool {
    forall|i: int| 0 <= i < rs.len() ==> #[trigger] resolved_name(rs[i]) is Some
}

/// Resolves each listing record to its event identifier, preserving order
/// and keeping duplicates; fails on the first record with no usable name.
pub fn resolve_event_names(records: &Vec<EventRecord>) -> (r: Result<Vec<String>, PerfError>)
    ensures
        match r {
            Ok(names) => {
                let models = records@.map_values(|e: EventRecord| record_model(e));
                &&& all_named(models)
                &&& names.deep_view().len() == models.len()
                &&& forall|i: int|
                    0 <= i < models.len() ==> #[trigger] names.deep_view()[i]
                        == resolved_name(models[i]).unwrap()
            },
            Err(e) => {
                &&& e == PerfError::CatalogParseError
                &&& !all_named(records@.map_values(|e: EventRecord| record_model(e)))
            },
        },
{
    let ghost models = records@.map_values(|e: EventRecord| record_model(e));
    let mut names: Vec<String> = Vec::new();
    let mut i: usize = 0;
    while i < records.len()
        invariant
            i <= records.len(),
            models == records@.map_values(|e: EventRecord| record_model(e)),
            models.len() == records@.len(),
            names.deep_view().len() == i,
            forall|l: int|
                0 <= l < i ==> #[trigger] names.deep_view()[l] == resolved_name(models[l]).unwrap(),
            forall|l: int| 0 <= l < i ==> #[trigger] resolved_name(models[l]) is Some,
        decreases records.len() - i,
    {
        let name = match &records[i].event_name {
            Some(n) => n.clone(),
            None => match &records[i].metric_name {
                Some(n) => n.clone(),
                None => {
                    assert(resolved_name(models[i as int]) is None);
                    return Err(PerfError::CatalogParseError);
                },
            },
        };
        assert(name@ == resolved_name(models[i as int]).unwrap());
        let ghost pre = names.deep_view();
        names.push(name);
        proof {
            assert(names@.len() == pre.len() + 1);
            assert(forall|l: int| 0 <= l < pre.len() ==> #[trigger] names.deep_view()[l] == pre[l]);
            assert(names.deep_view()[pre.len() as int] == names@[pre.len() as int]@);
        }
        i += 1;
    }
    Ok(names)
}

} // verus!
