use vstd::prelude::*;

pub mod calendar_index;
pub mod date;
pub mod layout;
pub mod national_day;
pub mod naming;
pub mod parse_error;
pub mod parse_file;
pub mod selection;

verus! {

/// The views of a sequence of owned strings, as sequences of characters.
pub open spec fn str_views(v: Seq<String>) -> Seq<Seq<char>> {
    v.map_values(|w: String| w@)
}

} // verus!
