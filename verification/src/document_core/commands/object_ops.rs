pub mod chart;
