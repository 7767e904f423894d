use vstd::prelude::*;

/// Properties of the rewrite, proved over the model: it keeps the meaning,
/// the shape of its results, when it is idempotent, and the number of
/// clauses that distribution yields.
pub mod laws;
/// The three rewrite passes and the whole normalization.
pub mod normal;
/// The formula tree and its mathematical model.
pub mod prop;
/// Text rendering of formulas.
pub mod render;

verus! {

} // verus!
