//! A population of harmonies and its ranking.

use crate::harmony::Harmony;
use crate::model::HarmonyView;
use crate::ranking::{better, tied};
use vstd::prelude::*;

verus! {

/// The harmonies of a population, each as what it is.
pub open spec fn views(population: Seq<Harmony>) -> Seq<HarmonyView> {
    Seq::new(population.len(), |i: int| population[i]@)
}

/// `sorted` with `x` put behind the last harmony that `x` is not better than.
pub open spec fn placed(sorted: Seq<HarmonyView>, x: HarmonyView) -> Seq<HarmonyView>
    decreases sorted.len(),
{
    if sorted.len() == 0 {
        seq![x]
    } else if better(x, sorted.last()) {
        placed(sorted.drop_last(), x).push(sorted.last())
    } else {
        sorted.push(x)
    }
}

/// The population in rank order, best first; harmonies that rank alike keep
/// the order in which they stood.
pub open spec fn ranked(population: Seq<HarmonyView>) -> Seq<HarmonyView>
    decreases population.len(),
{
    if population.len() == 0 {
        population
    } else {
        placed(ranked(population.drop_last()), population.last())
    }
}

/// No harmony is better than one that stands before it.
pub open spec fn in_rank_order(population: Seq<HarmonyView>) -> bool {
    forall|i: int, j: int|
        0 <= i < j < population.len() ==> !better(#[trigger] population[j], #[trigger] population[i])
}

/// Placing a harmony puts it at the position behind which every harmony is
/// one that it is better than, and before which the last one is not.
pub proof fn lemma_placed_at(sorted: Seq<HarmonyView>, x: HarmonyView, slot: int)
    requires
        0 <= slot <= sorted.len(),
        forall|k: int| slot <= k < sorted.len() ==> better(x, #[trigger] sorted[k]),
        slot > 0 ==> !better(x, sorted[slot - 1]),
    ensures
        placed(sorted, x) == sorted.insert(slot, x),
    decreases sorted.len(),
{
    if sorted.len() == 0 {
        assert(sorted.insert(0, x) =~= seq![x]);
    } else if slot == sorted.len() {
        assert(sorted.insert(slot, x) =~= sorted.push(x));
    } else {
        let head = sorted.drop_last();
        assert(better(x, sorted[sorted.len() - 1]));
        assert forall|k: int| slot <= k < head.len() implies better(x, #[trigger] head[k]) by {
            assert(head[k] == sorted[k]);
        }
        if slot > 0 {
            assert(head[slot - 1] == sorted[slot - 1]);
        }
        lemma_placed_at(head, x, slot);
        assert(head.insert(slot, x).push(sorted.last()) =~= sorted.insert(slot, x));
    }
}

/// Placing a harmony into a population keeps what was there and adds the
/// harmony, and keeps the population in rank order if it was.
pub proof fn lemma_placed(sorted: Seq<HarmonyView>, x: HarmonyView)
    ensures
        placed(sorted, x).len() == sorted.len() + 1,
        placed(sorted, x).to_multiset() == sorted.to_multiset().insert(x),
        in_rank_order(sorted) ==> in_rank_order(placed(sorted, x)),
    decreases sorted.len(),
{
    broadcast use vstd::seq_lib::group_to_multiset_ensures;

    if sorted.len() == 0 {
        assert(seq![x] =~= Seq::<HarmonyView>::empty().push(x));
        assert(sorted =~= Seq::<HarmonyView>::empty());
    } else if better(x, sorted.last()) {
        let head = sorted.drop_last();
        let last = sorted.last();
        lemma_placed(head, x);
        assert(sorted == head.push(last));
        let inner = placed(head, x);
        assert(inner.push(last).to_multiset() == inner.to_multiset().insert(last));
        assert(head.push(last).to_multiset() == head.to_multiset().insert(last));
        assert(head.to_multiset().insert(x).insert(last) =~= head.to_multiset().insert(last).insert(
            x,
        ));
        if in_rank_order(sorted) {
            assert forall|i: int, j: int| 0 <= i < j < head.len() implies !better(
                #[trigger] head[j],
                #[trigger] head[i],
            ) by {
                assert(head[i] == sorted[i] && head[j] == sorted[j]);
            }
            let out = inner.push(last);
            assert forall|i: int, j: int| 0 <= i < j < out.len() implies !better(
                #[trigger] out[j],
                #[trigger] out[i],
            ) by {
                if j < inner.len() {
                    assert(out[i] == inner[i] && out[j] == inner[j]);
                } else {
                    // out[j] is the old last; out[i] is x or a member of head
                    assert(inner.to_multiset().count(inner[i]) > 0);
                    if inner[i] != x {
                        assert(head.to_multiset().count(inner[i]) > 0);
                        let k = choose|k: int| 0 <= k < head.len() && head[k] == inner[i];
                        assert(sorted[k] == inner[i]);
                        assert(!better(sorted[sorted.len() - 1], sorted[k]));
                    }
                }
            }
        }
    } else {
        if in_rank_order(sorted) {
            let out = sorted.push(x);
            assert forall|i: int, j: int| 0 <= i < j < out.len() implies !better(
                #[trigger] out[j],
                #[trigger] out[i],
            ) by {
                if j < sorted.len() {
                    assert(out[i] == sorted[i] && out[j] == sorted[j]);
                } else {
                    assert(!better(sorted[sorted.len() - 1], sorted[i]));
                }
            }
        }
    }
}

/// Ranking rearranges a population, loses and adds nothing, and leaves it in
/// rank order.
pub proof fn lemma_ranked(population: Seq<HarmonyView>)
    ensures
        ranked(population).len() == population.len(),
        ranked(population).to_multiset() == population.to_multiset(),
        in_rank_order(ranked(population)),
    decreases population.len(),
{
    broadcast use vstd::seq_lib::group_to_multiset_ensures;

    if population.len() > 0 {
        let head = population.drop_last();
        lemma_ranked(head);
        lemma_placed(ranked(head), population.last());
        assert(population == head.push(population.last()));
    }
}

/// Every harmony of the ranked population is one of the population, and the
/// other way round.
pub proof fn lemma_ranked_members(population: Seq<HarmonyView>)
    ensures
        forall|i: int|
            0 <= i < population.len() ==> population.contains(#[trigger] ranked(population)[i]),
        forall|i: int|
            0 <= i < population.len() ==> ranked(population).contains(#[trigger] population[i]),
{
    broadcast use vstd::seq_lib::group_to_multiset_ensures;

    lemma_ranked(population);
    let sorted = ranked(population);
    assert forall|i: int| 0 <= i < population.len() implies population.contains(
        #[trigger] sorted[i],
    ) by {
        assert(sorted.to_multiset().count(sorted[i]) > 0);
    }
    assert forall|i: int| 0 <= i < population.len() implies sorted.contains(
        #[trigger] population[i],
    ) by {
        assert(population.to_multiset().count(population[i]) > 0);
    }
}

/// The harmonies of `population` that rank like `h`, in their order.
pub open spec fn alike(population: Seq<HarmonyView>, h: HarmonyView) -> Seq<HarmonyView>
    decreases population.len(),
{
    if population.len() == 0 {
        population
    } else if tied(population.last(), h) {
        alike(population.drop_last(), h).push(population.last())
    } else {
        alike(population.drop_last(), h)
    }
}

/// A harmony is placed behind those that rank like it.
pub proof fn lemma_placed_alike(sorted: Seq<HarmonyView>, x: HarmonyView, h: HarmonyView)
    ensures
        alike(placed(sorted, x), h) == if tied(x, h) {
            alike(sorted, h).push(x)
        } else {
            alike(sorted, h)
        },
    decreases sorted.len(),
{
    if sorted.len() == 0 {
        assert(seq![x].drop_last() =~= sorted);
        assert(seq![x].last() == x);
    } else if better(x, sorted.last()) {
        let head = sorted.drop_last();
        let inner = placed(head, x);
        lemma_placed_alike(head, x, h);
        assert(inner.push(sorted.last()).drop_last() =~= inner);
        assert(inner.push(sorted.last()).last() == sorted.last());
    } else {
        assert(sorted.push(x).drop_last() =~= sorted);
        assert(sorted.push(x).last() == x);
    }
}

/// Ranking is stable: harmonies that rank alike keep their order.
pub proof fn lemma_ranked_stable(population: Seq<HarmonyView>, h: HarmonyView)
    ensures
        alike(ranked(population), h) == alike(population, h),
    decreases population.len(),
{
    if population.len() > 0 {
        lemma_ranked_stable(population.drop_last(), h);
        lemma_placed_alike(ranked(population.drop_last()), population.last(), h);
    }
}

/// A population that stands in rank order is its own ranking.
pub proof fn lemma_ranked_fixed(population: Seq<HarmonyView>)
    requires
        in_rank_order(population),
    ensures
        ranked(population) == population,
    decreases population.len(),
{
    if population.len() > 0 {
        let head = population.drop_last();
        assert forall|i: int, j: int| 0 <= i < j < head.len() implies !better(
            #[trigger] head[j],
            #[trigger] head[i],
        ) by {
            assert(head[i] == population[i] && head[j] == population[j]);
        }
        lemma_ranked_fixed(head);
        if head.len() > 0 {
            assert(head.last() == population[population.len() - 2]);
            assert(!better(population[population.len() - 1], population[population.len() - 2]));
        }
        assert(head.push(population.last()) =~= population);
    } else {
        assert(ranked(population) =~= population);
    }
}

/// The position at which `x` is placed into `sorted`.
fn slot_for(sorted: &Vec<Harmony>, x: &Harmony) -> (slot: usize)
    ensures
        slot <= sorted.len(),
        forall|k: int| slot <= k < sorted.len() ==> better(x@, #[trigger] sorted@[k]@),
        slot > 0 ==> !better(x@, sorted@[slot - 1]@),
{
    let mut slot: usize = sorted.len();
    while slot > 0
        invariant
            slot <= sorted.len(),
            forall|k: int| slot <= k < sorted.len() ==> better(x@, #[trigger] sorted@[k]@),
        decreases slot,
    {
        if !x.ranks_before(&sorted[slot - 1]) {
            return slot;
        }
        slot = slot - 1;
    }
    slot
}

/// Puts the population in rank order, best first. Harmonies that rank alike
/// keep the order in which they stood.
pub fn sort_population(population: &mut Vec<Harmony>)
    ensures
        views(final(population)@) == ranked(views(old(population)@)),
        final(population).len() == old(population).len(),
{
    let ghost start = views(population@);
    let mut sorted: Vec<Harmony> = Vec::new();
    let ghost mut done: int = 0;
    proof {
        assert(views(sorted@) =~= ranked(start.take(0)));
    }
    while population.len() > 0
        invariant
            0 <= done <= start.len(),
            start == views(old(population)@),
            population.len() == start.len() - done,
            views(population@) == start.skip(done),
            views(sorted@) == ranked(start.take(done)),
            sorted.len() == done,
        decreases population.len(),
    {
        let ghost held = population@;
        let ghost rest = views(population@);
        let ghost before = views(sorted@);
        let x = population.remove(0);
        let slot: usize = slot_for(&sorted, &x);
        proof {
            assert(x@ == rest[0]);
            assert(x@ == start[done]);
            assert forall|k: int| slot <= k < before.len() implies better(
                x@,
                #[trigger] before[k],
            ) by {
                assert(before[k] == sorted@[k]@);
            }
            lemma_placed_at(before, x@, slot as int);
            assert(start.take(done + 1).drop_last() == start.take(done));
            assert(start.take(done + 1).last() == start[done]);
        }
        sorted.insert(slot, x);
        proof {
            assert(views(sorted@) =~= before.insert(slot as int, start[done]));
            assert forall|k: int| 0 <= k < population.len() implies #[trigger] views(
                population@,
            )[k] == start.skip(done + 1)[k] by {
                assert(population@[k] == held[k + 1]);
                assert(rest[k + 1] == held[k + 1]@);
                assert(rest[k + 1] == start.skip(done)[k + 1]);
            }
            assert(views(population@) =~= start.skip(done + 1));
            done = done + 1;
        }
    }
    proof {
        assert(start.take(start.len() as int) == start);
    }
    *population = sorted;
}

} // verus!
