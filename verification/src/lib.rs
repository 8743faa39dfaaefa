//! An embeddable in-memory relational table engine: columnar storage over
//! string-typed cells, a value-to-positions index stored with each column, and a
//! set of relational operators (projection, filtering, set difference,
//! distinct, stable sort, concatenation, derived columns, equi-join and
//! group-by aggregation), together with a tab-delimited text format.

pub mod value;
pub mod column;
pub mod table;
pub mod text;

use vstd::prelude::*;

verus! {

} // verus!
