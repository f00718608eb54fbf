//! The measurement plan: a target executable, its arguments, and the full
//! event universe discovered from the external tool's listing.

use crate::catalog::{
    all_named, parse_event_list, parsed_event_list, resolve_event_names, resolved_name,
};
use crate::PerfError;
use vstd::prelude::*;

verus! {

/// One run's measurement plan.  The events are the entire discoverable
/// universe, in listing order; a caller wanting a subset filters `events`
/// before batching.
pub struct Perf {
    pub executable: String,
    pub args: Vec<String>,
    pub events: Vec<String>,
}

impl Perf {
    /// Builds the plan from the listing command's output: the listing is
    /// parsed as a JSON array of records and each record resolves to its
    /// primary name, or its secondary name when the primary is absent.  A
    /// listing that is not such an array, or a record with neither name, is
    /// a fatal catalog failure.
    pub fn from_catalog(executable: String, args: Vec<String>, listing: &str) -> (r: Result<
        Perf,
        PerfError,
    >)
        ensures
            match r {
                Ok(p) => {
                    &&& p.executable == executable
                    &&& p.args == args
                    &&& parsed_event_list(listing@) is Some
                    &&& {
                        let models = parsed_event_list(listing@).unwrap();
                        &&& all_named(models)
                        &&& p.events.deep_view().len() == models.len()
                        &&& forall|i: int|
                            0 <= i < models.len() ==> #[trigger] p.events.deep_view()[i]
                                == resolved_name(models[i]).unwrap()
                    }
                },
                Err(e) => {
                    &&& e == PerfError::CatalogParseError
                    &&& (parsed_event_list(listing@) is None || !all_named(
                        parsed_event_list(listing@).unwrap(),
                    ))
                },
            },
    {
        let records = match parse_event_list(listing) {
            Some(v) => v,
            None => {
                return Err(PerfError::CatalogParseError);
            },
        };
        match resolve_event_names(&records) {
            Ok(events) => Ok(Perf { executable, args, events }),
            Err(e) => Err(e),
        }
    }
}

} // verus!
