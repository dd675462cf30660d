//! Query plans.

use vstd::prelude::*;

verus! {

/// A column name in a projection.
#[derive(Debug, Clone)]
pub struct Identifier(pub String);

/// An equality condition: `column = value`.
#[derive(Debug, Clone)]
pub struct Filter {
    pub column: String,
    pub value: String,
}

/// What a query reads: which table, which columns, and which rows.
#[derive(Debug)]
pub struct QueryPlan {
    pub table: String,
    pub projection: Vec<Identifier>,
    pub filter: Option<Filter>,
}

/// The column names of a projection.
pub open spec fn projection_names(projection: Seq<Identifier>) -> Seq<Seq<char>> {
    projection.map_values(|i: Identifier| i.0@)
}

/// A filter's column and value.
pub open spec fn filter_view(filter: Option<Filter>) -> Option<(Seq<char>, Seq<char>)> {
    match filter {
        Some(f) => Some((f.column@, f.value@)),
        None => None,
    }
}

} // verus!
