//! A course-schedule search engine: it enumerates every conflict-free
//! combination of course sections (one section per required course), scores
//! each combination with a day-quality heuristic, and reduces the scored set
//! to its Pareto frontier over the four raw quality metrics.
pub mod course;
pub mod enumerate;
pub mod interval;
pub mod parse;
pub mod prune;
pub mod rank;
pub mod score;
