use vstd::prelude::*;

use crate::date::Date;

verus! {

/// One entry of the national-day list: a country, its day, and a free-text
/// commentary. Immutable once parsed.
#[derive(Debug)]
pub struct NationalDay {
    pub country: String,
    pub date: Date,
    pub extra_info: String,
}

} // verus!
