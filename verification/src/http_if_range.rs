//! The two forms of an `If-Range` condition.

use crate::http_date::HttpDate;
use vstd::prelude::*;

verus! {

/// What a conditional range request compares against.
pub enum HttpIfRange {
    /// Compare by the date of the last change.
    HttpDate(HttpDate),
    /// Compare by entity tag, kept as the sender wrote it.
    HttpETag(String),
}

} // verus!
