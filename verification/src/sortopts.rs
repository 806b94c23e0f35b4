//! Sort direction and sort field for a query's deterministic ordering.

use vstd::prelude::*;

verus! {

/// Direction the source should sort a page in.
#[derive(Clone, Copy, Debug, PartialEq, Eq, Structural)]
pub enum Sort {
    Desc,
    Asc,
}

/// Field the source should sort a page by.
#[derive(Clone, Copy, Debug, PartialEq, Eq, Structural)]
pub enum Parameter {
    CreatedUTC,
    Score,
}

impl Sort {
    /// The query-string value for this direction.
    pub open spec fn as_str_spec(self) -> Seq<char> {
        match self {
            Sort::Desc => "desc"@,
            Sort::Asc => "asc"@,
        }
    }

    /// Renders the direction as its query-string value.
    pub fn as_str(&self) -> (r: &'static str)
        ensures
            r@ == self.as_str_spec(),
    {
        match self {
            Sort::Desc => "desc",
            Sort::Asc => "asc",
        }
    }
}

impl Parameter {
    /// The query-string value for this field.
    pub open spec fn as_str_spec(self) -> Seq<char> {
        match self {
            Parameter::CreatedUTC => "created_utc"@,
            Parameter::Score => "score"@,
        }
    }

    /// Renders the field as its query-string value.
    pub fn as_str(&self) -> (r: &'static str)
        ensures
            r@ == self.as_str_spec(),
    {
        match self {
            Parameter::CreatedUTC => "created_utc",
            Parameter::Score => "score",
        }
    }
}

} // verus!
