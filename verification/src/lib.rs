//! Multi-day itinerary planning over a catalog of attractions.
//!
//! All quantities are whole numbers: times are minutes from midnight, money is
//! counted in hundredths of the currency unit, preferences in millionths, and
//! distances in metres.

pub mod models;
pub mod data_structures;
pub mod algorithms;
pub mod utils;

pub use models::attraction::{Attraction, Category};
pub use models::constraints::SolveParams;
pub use models::graph::{Edge, Graph};
pub use models::itinerary::{ConvergencePoint, DayPlan, Itinerary, Visit};
