use crate::table::Table;
use crate::text::{decimal, decimal_text, lower_of, lowercase, upper_of, uppercase};
use vstd::prelude::*;

verus! {

/// A named text transformation applied to the flattened text of a reference.
#[derive(Clone, Copy, Debug, PartialEq, Eq, Structural)]
pub enum Filter {
    Uppercase,
    Lowercase,
    /// The number of characters, as a decimal numeral.
    Length,
}

/// What filter `f` makes of the text `s`.
pub open spec fn filter_result(f: Filter, s: Seq<char>) -> Seq<char> {
    match f {
        Filter::Uppercase => upper_of(s),
        Filter::Lowercase => lower_of(s),
        Filter::Length => decimal(s.len()),
    }
}

/// The filters that every registry starts with.
pub open spec fn builtin_filters() -> Map<Seq<char>, Filter> {
    Map::empty().insert("lowercase"@, Filter::Lowercase).insert("uppercase"@, Filter::Uppercase).insert(
        "length"@,
        Filter::Length,
    )
}

impl Filter {
    /// Applies this filter to `s`.
    pub fn apply(self, s: &String) -> (r: String)
        ensures
            r@ == filter_result(self, s@),
    {
        match self {
            Filter::Uppercase => uppercase(s.as_str()),
            Filter::Lowercase => lowercase(s.as_str()),
            Filter::Length => decimal_text(s.as_str().unicode_len()),
        }
    }
}

/// The table of built-in filters: `lowercase`, `uppercase` and `length`.
pub fn create_builtin_filters() -> (r: Table<Filter>)
    ensures
        r@ == builtin_filters(),
{
    let mut filters: Table<Filter> = Table::new();
    filters.insert(String::from_str("lowercase"), Filter::Lowercase);
    filters.insert(String::from_str("uppercase"), Filter::Uppercase);
    filters.insert(String::from_str("length"), Filter::Length);
    filters
}

} // verus!
