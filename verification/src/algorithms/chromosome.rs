//! The arrangements on which the annealing search works, and the three ways
//! in which it changes one.

use vstd::prelude::*;
use crate::data_structures::priority_queue::swapped;
use crate::models::itinerary::{count_visits, DayPlan, Itinerary};

verus! {

/// An arrangement of attraction ids: for each day the ids in the order in
/// which the day tries to visit them.
pub type Chromosome = Vec<Vec<u32>>;

/// The ids of `chromosome`, day by day.
pub open spec fn genes(chromosome: Chromosome) -> Seq<Seq<u32>> {
    Seq::new(chromosome@.len(), |d: int| chromosome@[d]@)
}

/// The number of ids in `arrangement`.
pub open spec fn total_genes(arrangement: Seq<Seq<u32>>) -> int
    decreases arrangement.len(),
{
    if arrangement.len() == 0 {
        0
    } else {
        total_genes(arrangement.drop_last()) + arrangement.last().len()
    }
}

/// Whether `id` stands somewhere in `arrangement`.
pub open spec fn holds_id(arrangement: Seq<Seq<u32>>, id: u32) -> bool {
    exists|d: int, k: int|
        0 <= d < arrangement.len() && 0 <= k < arrangement[d].len() && #[trigger] arrangement[d][k]
            == id
}

/// The ids of the visits of `days`, day by day.
pub open spec fn arrangement_of(days: Seq<DayPlan>) -> Seq<Seq<u32>> {
    Seq::new(
        days.len(),
        |d: int| Seq::new(days[d].visits@.len(), |k: int| days[d].visits@[k].attraction_id),
    )
}

/// As many ids as there are visits.
pub proof fn lemma_arrangement_size(days: Seq<DayPlan>)
    ensures
        total_genes(arrangement_of(days)) == count_visits(days),
    decreases days.len(),
{
    if days.len() > 0 {
        lemma_arrangement_size(days.drop_last());
        assert(arrangement_of(days).drop_last() =~= arrangement_of(days.drop_last()));
    }
}

/// Changing one day changes the number of ids by what that day gains.
pub proof fn lemma_total_genes_update(arrangement: Seq<Seq<u32>>, d: int, day: Seq<u32>)
    requires
        0 <= d < arrangement.len(),
    ensures
        total_genes(arrangement.update(d, day)) == total_genes(arrangement) - arrangement[d].len()
            + day.len(),
    decreases arrangement.len(),
{
    let changed = arrangement.update(d, day);
    if d == arrangement.len() - 1 {
        assert(changed.drop_last() =~= arrangement.drop_last());
    } else {
        lemma_total_genes_update(arrangement.drop_last(), d, day);
        assert(changed.drop_last() =~= arrangement.drop_last().update(d, day));
    }
}

/// No day holds more ids than the whole arrangement.
pub proof fn lemma_total_genes_bounds(arrangement: Seq<Seq<u32>>, d: int)
    requires
        0 <= d < arrangement.len(),
    ensures
        arrangement[d].len() <= total_genes(arrangement),
        0 <= total_genes(arrangement.take(d)),
        total_genes(arrangement.take(d)) + arrangement[d].len() <= total_genes(arrangement),
    decreases arrangement.len(),
{
    lemma_total_genes_nonnegative(arrangement.drop_last());
    if d == arrangement.len() - 1 {
        assert(arrangement.take(d) =~= arrangement.drop_last());
    } else {
        lemma_total_genes_bounds(arrangement.drop_last(), d);
        assert(arrangement.drop_last().take(d) =~= arrangement.take(d));
    }
}

pub proof fn lemma_total_genes_nonnegative(arrangement: Seq<Seq<u32>>)
    ensures
        0 <= total_genes(arrangement),
    decreases arrangement.len(),
{
    if arrangement.len() > 0 {
        lemma_total_genes_nonnegative(arrangement.drop_last());
    }
}

/// The ids of the visits of `itinerary`, day by day.
pub fn itinerary_to_chromosome(itinerary: &Itinerary) -> (chromosome: Chromosome)
    ensures
        genes(chromosome) == arrangement_of(itinerary.days@),
{
    let mut chromosome: Chromosome = Vec::new();
    let mut d: usize = 0;
    while d < itinerary.days.len()
        invariant
            d <= itinerary.days@.len(),
            chromosome@.len() == d,
            forall|j: int|
                0 <= j < d ==> (#[trigger] chromosome@[j])@ == arrangement_of(itinerary.days@)[j],
        decreases itinerary.days@.len() - d,
    {
        let day = &itinerary.days[d];
        let mut ids: Vec<u32> = Vec::new();
        let mut k: usize = 0;
        while k < day.visits.len()
            invariant
                k <= day.visits@.len(),
                ids@.len() == k,
                forall|j: int| 0 <= j < k ==> ids@[j] == (#[trigger] day.visits@[j]).attraction_id,
            decreases day.visits@.len() - k,
        {
            ids.push(day.visits[k].attraction_id);
            k = k + 1;
        }
        proof {
            assert(ids@ =~= arrangement_of(itinerary.days@)[d as int]);
        }
        chromosome.push(ids);
        d = d + 1;
    }
    proof {
        assert(genes(chromosome) =~= arrangement_of(itinerary.days@));
    }
    chromosome
}

/// A copy of `chromosome`.
pub fn copy_chromosome(chromosome: &Chromosome) -> (copy: Chromosome)
    ensures
        genes(copy) == genes(*chromosome),
{
    let mut copy: Chromosome = Vec::new();
    let mut d: usize = 0;
    while d < chromosome.len()
        invariant
            d <= chromosome@.len(),
            copy@.len() == d,
            forall|j: int| 0 <= j < d ==> (#[trigger] copy@[j])@ == chromosome@[j]@,
        decreases chromosome@.len() - d,
    {
        let day = &chromosome[d];
        let mut ids: Vec<u32> = Vec::new();
        let mut k: usize = 0;
        while k < day.len()
            invariant
                k <= day@.len(),
                ids@ == day@.take(k as int),
            decreases day@.len() - k,
        {
            ids.push(day[k]);
            proof {
                assert(day@.take(k + 1) =~= day@.take(k as int).push(day@[k as int]));
            }
            k = k + 1;
        }
        proof {
            assert(day@.take(k as int) =~= day@);
        }
        copy.push(ids);
        d = d + 1;
    }
    proof {
        assert(genes(copy) =~= genes(*chromosome));
    }
    copy
}

/// Exchanges the ids at `i` and `j` of day `day`.
pub fn swap_genes(chromosome: &mut Chromosome, day: usize, i: usize, j: usize)
    requires
        day < old(chromosome)@.len(),
        i < old(chromosome)@[day as int]@.len(),
        j < old(chromosome)@[day as int]@.len(),
    ensures
        genes(*final(chromosome)) == genes(*old(chromosome)).update(
            day as int,
            swapped(genes(*old(chromosome))[day as int], i as int, j as int),
        ),
        total_genes(genes(*final(chromosome))) == total_genes(genes(*old(chromosome))),
{
    let ids = &mut chromosome[day];
    let a = ids[i];
    let b = ids[j];
    ids.set(i, b);
    ids.set(j, a);
    proof {
        let before = genes(*old(chromosome));
        assert(genes(*chromosome) =~= before.update(
            day as int,
            swapped(before[day as int], i as int, j as int),
        ));
        lemma_total_genes_update(before, day as int, swapped(before[day as int], i as int, j as int));
    }
}

/// Takes the id at `idx` from day `from` and puts it at the end of day `to`.
pub fn move_gene(chromosome: &mut Chromosome, from: usize, idx: usize, to: usize)
    requires
        from < old(chromosome)@.len(),
        to < old(chromosome)@.len(),
        from != to,
        idx < old(chromosome)@[from as int]@.len(),
    ensures
        genes(*final(chromosome)) == genes(*old(chromosome)).update(
            from as int,
            genes(*old(chromosome))[from as int].remove(idx as int),
        ).update(
            to as int,
            genes(*old(chromosome))[to as int].push(genes(*old(chromosome))[from as int][idx as int]),
        ),
        total_genes(genes(*final(chromosome))) == total_genes(genes(*old(chromosome))),
{
    let attr_id = chromosome[from].remove(idx);
    chromosome[to].push(attr_id);
    proof {
        let before = genes(*old(chromosome));
        let middle = before.update(from as int, before[from as int].remove(idx as int));
        let after = middle.update(to as int, before[to as int].push(before[from as int][idx as int]));
        assert(genes(*chromosome) =~= after);
        lemma_total_genes_update(before, from as int, before[from as int].remove(idx as int));
        lemma_total_genes_update(
            middle,
            to as int,
            before[to as int].push(before[from as int][idx as int]),
        );
    }
}

/// Puts `id` at the end of day `day`.
pub fn insert_gene(chromosome: &mut Chromosome, day: usize, id: u32)
    requires
        day < old(chromosome)@.len(),
    ensures
        genes(*final(chromosome)) == genes(*old(chromosome)).update(
            day as int,
            genes(*old(chromosome))[day as int].push(id),
        ),
        total_genes(genes(*final(chromosome))) == total_genes(genes(*old(chromosome))) + 1,
{
    chromosome[day].push(id);
    proof {
        let before = genes(*old(chromosome));
        assert(genes(*chromosome) =~= before.update(day as int, before[day as int].push(id)));
        lemma_total_genes_update(before, day as int, before[day as int].push(id));
    }
}

} // verus!
