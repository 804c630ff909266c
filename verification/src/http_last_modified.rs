//! The `Last-Modified` header.

use crate::http_date::HttpDate;
use vstd::prelude::*;

verus! {

/// When the selected representation was last changed.
pub struct HttpLastModified {
    pub last_modified: HttpDate,
}

} // verus!
