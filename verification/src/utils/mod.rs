pub mod distance;
pub mod experiments;
pub mod feasibility;
pub mod tags;

pub use distance::{travel_minutes, DistanceTable};
pub use feasibility::{verify_itinerary, Violation};
pub use experiments::{run_experiments, ExperimentStats};
