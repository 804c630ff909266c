//! HTTP byte-range header values: parsing against a content length, merging
//! into canonical form, rendering, and the test of whether a range set can
//! be served, each with its rule stated as a contract over sequences of
//! characters and proved.
//!
//! - `text`: splitting, trimming and decimal numbers, on characters.
//! - `merge`: ordering ranges and joining those that touch.
//! - `canonical`: the canonical form is unique, so order does not matter.
//! - `http_range`: the grammar, `HttpRange` and its operations.
//! - `round_trip`: parsing undoes rendering.
//! - `rejection`: what the parser never accepts.
//! - `http_date`, `http_if_range`, `http_last_modified`: the date of the
//!   conditional headers that go with a range request.

pub mod canonical;
pub mod http_date;
pub mod http_if_range;
pub mod http_last_modified;
pub mod http_range;
pub mod merge;
pub mod rejection;
pub mod round_trip;
pub mod text;
