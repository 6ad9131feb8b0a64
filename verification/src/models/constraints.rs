use vstd::prelude::*;

verus! {

/// The limits of one planning call.
#[derive(Debug, Clone, Copy, PartialEq, Eq, Structural)]
pub struct SolveParams {
    pub num_days: u32,
    /// Minutes available per day, counted from `start_time`.
    pub daily_time_budget: u32,
    /// Money available over all days, in hundredths of the currency unit.
    pub total_budget: u64,
    /// Time at which every day starts, in minutes from midnight.
    pub start_time: u32,
}

impl Default for SolveParams {
    fn default() -> (params: Self)
        ensures
            params == (SolveParams {
                num_days: 2,
                daily_time_budget: 600,
                total_budget: 10_000,
                start_time: 540,
            }),
    {
        SolveParams { num_days: 2, daily_time_budget: 600, total_budget: 10_000, start_time: 540 }
    }
}

} // verus!
