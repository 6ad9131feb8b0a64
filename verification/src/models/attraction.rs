use vstd::prelude::*;

verus! {

/// The preference value that stands for a score of one.
pub const PREFERENCE_SCALE: u32 = 1_000_000;

/// The number of money units in one unit of the currency.
pub const MONEY_SCALE: u64 = 100;

#[derive(Debug, Clone, Copy, PartialEq, Eq, Structural)]
pub enum Category {
    Museum,
    Restaurant,
    Landmark,
    Park,
    Shopping,
    Entertainment,
}

/// A place that can be visited once.
#[derive(Debug, Clone)]
pub struct Attraction {
    pub id: u32,
    pub name: String,
    /// Opening time, in minutes from midnight.
    pub open_time: u32,
    /// Closing time, in minutes from midnight.
    pub close_time: u32,
    /// Length of a visit in minutes.
    pub duration: u32,
    /// Entrance fee, in hundredths of the currency unit.
    pub fee: u64,
    /// Preference in millionths: `PREFERENCE_SCALE` stands for one.
    pub preference: u32,
    pub category: Category,
}

impl Attraction {
    /// Whether `time` lies in the opening window `[open_time, close_time)`.
    pub open spec fn open_at(self, time: int) -> bool {
        self.open_time <= time < self.close_time
    }

    /// Whether a visit that starts at `arrival` fits in the opening window.
    pub open spec fn fits_at(self, arrival: int) -> bool {
        self.open_time <= arrival && arrival + self.duration <= self.close_time
    }

    pub fn is_open_at(&self, time: u32) -> (open: bool)
        ensures
            open == self.open_at(time as int),
    {
        time >= self.open_time && time < self.close_time
    }

    pub fn can_visit_at(&self, arrival_time: u32) -> (fits: bool)
        ensures
            fits == self.fits_at(arrival_time as int),
    {
        let departure_time: u64 = arrival_time as u64 + self.duration as u64;
        arrival_time >= self.open_time && departure_time <= self.close_time as u64
    }
}

} // verus!
