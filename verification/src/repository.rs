//! Markers for the two byte sources the builder can be driven by.
//!
//! The calendar itself is built from plain bytes; which transport supplies
//! them — the live endpoint or an embedded fixture — is the caller's
//! choice, bound to these markers outside the verified core.

use vstd::prelude::*;

verus! {

/// The production source: the live endpoint serving the holiday CSV.
pub struct HolidayRepositoryImpl;

/// The test source: a fixed embedded Shift-JIS fixture.
pub struct HolidayRepositoryStub;

} // verus!
