//! Aggregate snapshot lists: one holiday snapshot per record.

use vstd::prelude::*;

use crate::holiday::Holiday;
use crate::response::{Response, spec_holiday_response};

verus! {

/// A list of day snapshots, as the generator writes per month, per year,
/// and for the whole feed.
#[derive(Debug)]
pub struct ResponseList {
    pub results: Vec<Response>,
}

impl ResponseList {
    /// One holiday snapshot per record, in order.
    pub fn from_holidays(holidays: &Vec<Holiday>) -> (r: ResponseList)
        requires
            forall|k: int|
                0 <= k < holidays@.len() ==> (#[trigger] holidays@[k]).date.valid()
                    && holidays@[k].date.year >= 0,
        ensures
            r.results@.len() == holidays@.len(),
            forall|k: int|
                0 <= k < holidays@.len() ==> spec_holiday_response(
                    #[trigger] r.results@[k],
                    holidays@[k]@,
                ),
    {
        let mut results: Vec<Response> = Vec::new();
        let n = holidays.len();
        let mut i: usize = 0;
        while i < n
            invariant
                0 <= i <= n,
                n == holidays@.len(),
                forall|k: int|
                    0 <= k < holidays@.len() ==> (#[trigger] holidays@[k]).date.valid()
                        && holidays@[k].date.year >= 0,
                results@.len() == i,
                forall|k: int|
                    0 <= k < i ==> spec_holiday_response(
                        #[trigger] results@[k],
                        holidays@[k]@,
                    ),
            decreases n - i,
        {
            let resp = Response::from_holiday(&holidays[i]);
            results.push(resp);
            i = i + 1;
        }
        ResponseList { results }
    }
}

} // verus!
