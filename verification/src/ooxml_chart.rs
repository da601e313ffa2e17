//! The chart kinds of a DrawingML chart.

use vstd::prelude::*;

verus! {

/// The kind of plot a chart draws.
#[derive(Clone, Copy, Debug, PartialEq, Eq, Structural)]
pub enum OoxmlChartType {
    Column,
    Bar,
    Line,
    Pie,
    Scatter,
    Unknown,
}

} // verus!
