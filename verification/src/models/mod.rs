pub mod attraction;
pub mod constraints;
pub mod graph;
pub mod itinerary;
