use vstd::prelude::*;

verus! {

/// The speed at which every trip is assumed to be made.
pub const CITY_SPEED_KMH: u64 = 30;

/// The minutes that `metres` take at the city speed, rounded up.
pub open spec fn minutes_for(metres: int) -> int {
    (metres * 60 + (CITY_SPEED_KMH * 1000 - 1)) / (CITY_SPEED_KMH as int * 1000)
}

/// `minutes_for` is the least number of whole minutes in which the distance
/// is covered.
pub proof fn lemma_minutes_for_is_least(metres: int)
    requires
        0 <= metres,
    ensures
        minutes_for(metres) * CITY_SPEED_KMH * 1000 >= metres * 60,
        (minutes_for(metres) - 1) * CITY_SPEED_KMH * 1000 < metres * 60,
        0 <= minutes_for(metres) <= metres,
{
    let q = minutes_for(metres);
    assert(q == (metres * 60 + 29_999) / 30_000);
    assert(q * CITY_SPEED_KMH * 1000 == q * 30_000) by (nonlinear_arith)
        requires
            CITY_SPEED_KMH == 30,
    ;
    assert((q - 1) * CITY_SPEED_KMH * 1000 == (q - 1) * 30_000) by (nonlinear_arith)
        requires
            CITY_SPEED_KMH == 30,
    ;
}

/// The travel time in minutes for a distance in metres.
pub fn travel_minutes(metres: u32) -> (minutes: u32)
    ensures
        minutes == minutes_for(metres as int),
{
    let scaled: u64 = metres as u64 * 60 + (CITY_SPEED_KMH * 1000 - 1);
    (scaled / (CITY_SPEED_KMH * 1000)) as u32
}

/// The distance in metres from every place to every other. Place 0 is the
/// coordinate at which each day starts and to which it returns; place `i + 1`
/// is the attraction at index `i` of the catalog.
pub struct DistanceTable {
    rows: Vec<Vec<u32>>,
}

impl DistanceTable {
    #[verifier::type_invariant]
    spec fn square(self) -> bool {
        forall|i: int| 0 <= i < self.rows@.len() ==> (#[trigger] self.rows@[i])@.len() == self.rows@.len()
    }

    /// The number of places.
    pub closed spec fn places(self) -> nat {
        self.rows@.len()
    }

    /// The distance from place `from` to place `to`.
    pub closed spec fn metres(self, from: int, to: int) -> u32 {
        self.rows@[from]@[to]
    }

    /// The travel time from place `from` to place `to`.
    pub open spec fn minutes(self, from: int, to: int) -> int {
        minutes_for(self.metres(from, to) as int)
    }

    /// A table with the distances of `rows`, if each row is as long as there
    /// are rows.
    pub fn from_rows(rows: Vec<Vec<u32>>) -> (table: Option<Self>)
        ensures
            table.is_some() <==> forall|i: int|
                0 <= i < rows@.len() ==> (#[trigger] rows@[i])@.len() == rows@.len(),
            table matches Some(t) ==> {
                &&& t.places() == rows@.len()
                &&& forall|i: int, j: int|
                    0 <= i < rows@.len() && 0 <= j < rows@.len() ==> t.metres(i, j) == rows@[i]@[j]
            },
    {
        let n = rows.len();
        let mut i: usize = 0;
        while i < n
            invariant
                n == rows@.len(),
                i <= n,
                forall|k: int| 0 <= k < i ==> (#[trigger] rows@[k])@.len() == n,
            decreases n - i,
        {
            if rows[i].len() != n {
                return None;
            }
            i = i + 1;
        }
        Some(DistanceTable { rows })
    }

    pub fn len(&self) -> (places: usize)
        ensures
            places == self.places(),
    {
        self.rows.len()
    }

    pub fn distance(&self, from: usize, to: usize) -> (metres: u32)
        requires
            from < self.places(),
            to < self.places(),
        ensures
            metres == self.metres(from as int, to as int),
    {
        proof {
            use_type_invariant(self);
        }
        self.rows[from][to]
    }

    pub fn travel_time(&self, from: usize, to: usize) -> (minutes: u32)
        requires
            from < self.places(),
            to < self.places(),
        ensures
            minutes == self.minutes(from as int, to as int),
    {
        travel_minutes(self.distance(from, to))
    }
}

} // verus!
