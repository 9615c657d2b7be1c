//! One run of the search: a population is seeded, and generation after
//! generation one harmony is improvised on and the population ranked anew,
//! until the best harmony covers every cell.

use crate::config::{
    check_space, full_target, lemma_valid_space, space_error, valid_space, Config, ConfigError, UNIT,
};
use crate::encoder::nested;
use vstd::pervasive::unreached;
use crate::harmony::{copy_case, Harmony};
use crate::coverage::complete;
use crate::model::{
    lemma_accounting, lemma_admitted, lemma_appended, lemma_first_weight, lemma_full_coverage,
    lemma_replaced, lemma_replayed, HarmonyView, Space,
};
use crate::population::{
    in_rank_order, lemma_ranked, lemma_ranked_members, ranked, sort_population, views,
};
use crate::random::{random_below, random_index};
use crate::ranking::better;
use crate::swarm::guided;
use vstd::prelude::*;

verus! {

/// What one generation does, with every draw that it takes written out.
#[derive(Clone, Debug)]
pub enum Move {
    /// The guided move: the test case at `member` of the harmony at
    /// `harmony` is pulled toward that harmony's latest test case by `r1`
    /// and toward the best harmony's latest test case by `r2`, and the
    /// result is offered to the harmony.
    Guided { harmony: usize, member: usize, r1: u64, r2: u64 },
    /// The resampling move: the harmony at `harmony` is rebuilt with the
    /// test case at `position` exchanged for `replacement`, and the copy
    /// takes the place of the worst harmony if it is better.
    Resample { harmony: usize, position: usize, replacement: Vec<usize> },
}

/// A population: at least one harmony, each with a test case, all over the
/// parameter space of the first.
pub open spec fn is_population(population: Seq<HarmonyView>) -> bool {
    population.len() >= 1 && is_population_of(population, population[0].space())
}

/// A population over `space`: at least one harmony, each with a test case.
pub open spec fn is_population_of(population: Seq<HarmonyView>, space: Space) -> bool {
    &&& population.len() >= 1
    &&& forall|i: int|
        0 <= i < population.len() ==> {
            &&& (#[trigger] population[i]).consistent()
            &&& population[i].space() == space
            &&& population[i].size >= 1
        }
}

/// The move names a harmony of the population and a test case of it, and
/// its draws are fractions below one or a test case of the space.
pub open spec fn fits(population: Seq<HarmonyView>, mv: Move) -> bool {
    match mv {
        Move::Guided { harmony, member, r1, r2 } => {
            &&& harmony < population.len()
            &&& member < population[harmony as int].size
            &&& r1 < UNIT
            &&& r2 < UNIT
        },
        Move::Resample { harmony, position, replacement } => {
            &&& harmony < population.len()
            &&& position < population[harmony as int].size
            &&& population[harmony as int].admits(replacement@)
        },
    }
}

/// The population after the move and before it is ranked anew.
pub open spec fn improvised(population: Seq<HarmonyView>, mv: Move) -> Seq<HarmonyView> {
    match mv {
        Move::Guided { harmony, member, r1, r2 } => {
            let chosen = population[harmony as int];
            let candidate = guided(
                chosen.suite[member as int],
                chosen.suite.last(),
                population[0].suite.last(),
                r1,
                r2,
                chosen.p_values,
            );
            population.update(harmony as int, chosen.admitted(candidate))
        },
        Move::Resample { harmony, position, replacement } => {
            let copy = population[harmony as int].replaced(position as int, replacement@);
            if better(copy, population.last()) {
                population.update(population.len() - 1, copy)
            } else {
                population
            }
        },
    }
}

/// The population after one generation: the move is made if it fits, and
/// the population ranked.
pub open spec fn evolved(population: Seq<HarmonyView>, mv: Move) -> Seq<HarmonyView> {
    if fits(population, mv) {
        ranked(improvised(population, mv))
    } else {
        population
    }
}

/// The population after the generations that `moves` describes, in order,
/// ending with the first after which the best harmony covers `target` cells.
pub open spec fn played(population: Seq<HarmonyView>, moves: Seq<Move>, target: nat) -> Seq<
    HarmonyView,
>
    decreases moves.len(),
{
    if moves.len() == 0 {
        population
    } else {
        let next = evolved(population, moves[0]);
        if next[0].fitness == target {
            next
        } else {
            played(next, moves.skip(1), target)
        }
    }
}

/// The harmonies that are seeded with one test case each.
pub open spec fn seeded(space: Space, seeds: Seq<Seq<usize>>) -> Seq<HarmonyView> {
    Seq::new(seeds.len(), |i: int| HarmonyView::blank_in(space).appended(seeds[i]))
}

/// Every seed is a test case of the space.
pub open spec fn are_seeds(space: Space, seeds: Seq<Seq<usize>>) -> bool {
    forall|i: int|
        0 <= i < seeds.len() ==> HarmonyView::blank_in(space).admits(#[trigger] seeds[i])
}

/// The best harmony of the run that starts from `seeds` and makes `moves`.
pub open spec fn run_best(space: Space, seeds: Seq<Seq<usize>>, moves: Seq<Move>) -> HarmonyView {
    played(
        ranked(seeded(space, seeds)),
        moves,
        full_target(space.p_num, space.p_values, space.t_value),
    )[0]
}

/// Every move of `moves` fits the population that it meets, and the last of
/// them is the first after which the best harmony covers `target` cells, if
/// any is.
pub open spec fn fitting(population: Seq<HarmonyView>, moves: Seq<Move>, target: nat) -> bool
    decreases moves.len(),
{
    if moves.len() == 0 {
        true
    } else {
        let next = evolved(population, moves[0]);
        &&& fits(population, moves[0])
        &&& if next[0].fitness == target {
            moves.len() == 1
        } else {
            fitting(next, moves.skip(1), target)
        }
    }
}

/// `best` is what a run of the configured search can end with: the best
/// harmony after a population of `harmony_size` seeds has made moves that
/// fit, one in each generation, up to the first generation that covers every
/// cell or, failing that, through all of `max_generations` generations.
pub open spec fn is_run(
    config: Config,
    print_map: bool,
    max_generations: usize,
    best: HarmonyView,
    converged: bool,
) -> bool {
    exists|seeds: Seq<Seq<usize>>, moves: Seq<Move>|
        {
            &&& seeds.len() == config.harmony_size
            &&& are_seeds(config.space(print_map), seeds)
            &&& moves.len() <= max_generations
            &&& fitting(
                ranked(seeded(config.space(print_map), seeds)),
                moves,
                full_target(config.p_num, config.p_values, config.t_value),
            )
            &&& best == #[trigger] run_best(config.space(print_map), seeds, moves)
            &&& converged <==> best.fitness == full_target(
                config.p_num,
                config.p_values,
                config.t_value,
            )
            &&& !converged ==> moves.len() == max_generations
        }
}

/// A generation leaves a population a population, in rank order.
pub proof fn lemma_evolved(population: Seq<HarmonyView>, mv: Move, space: Space)
    requires
        is_population_of(population, space),
        in_rank_order(population),
    ensures
        is_population_of(evolved(population, mv), space),
        in_rank_order(evolved(population, mv)),
        evolved(population, mv).len() == population.len(),
{
    if fits(population, mv) {
        let made = improvised(population, mv);
        assert(is_population_of(made, space)) by {
            match mv {
                Move::Guided { harmony, member, r1, r2 } => {
                    let chosen = population[harmony as int];
                    let candidate = guided(
                        chosen.suite[member as int],
                        chosen.suite.last(),
                        population[0].suite.last(),
                        r1,
                        r2,
                        chosen.p_values,
                    );
                    lemma_accounting(chosen);
                    lemma_accounting(population[0]);
                    lemma_guided_admitted(
                        chosen,
                        member as int,
                        population[0].suite.last(),
                        r1,
                        r2,
                    );
                    lemma_admitted(chosen, candidate);
                },
                Move::Resample { harmony, position, replacement } => {
                    let chosen = population[harmony as int];
                    lemma_replaced(chosen, position as int, replacement@);
                },
            }
        }
        lemma_ranked(made);
        lemma_ranked_members(made);
        let sorted = ranked(made);
        assert forall|i: int| 0 <= i < sorted.len() implies {
            &&& (#[trigger] sorted[i]).consistent()
            &&& sorted[i].space() == space
            &&& sorted[i].size >= 1
        } by {
            assert(made.contains(sorted[i]));
            let k = choose|k: int| 0 <= k < made.len() && made[k] == sorted[i];
            assert(made[k].consistent());
        }
    }
}

/// The guided move makes a test case of the space.
pub proof fn lemma_guided_admitted(
    chosen: HarmonyView,
    member: int,
    reference: Seq<usize>,
    r1: u64,
    r2: u64,
)
    requires
        chosen.consistent(),
        0 <= member < chosen.suite.len(),
        reference.len() == chosen.p_num,
    ensures
        chosen.admits(
            guided(
                chosen.suite[member],
                chosen.suite.last(),
                reference,
                r1,
                r2,
                chosen.p_values,
            ),
        ),
{
    assert(chosen.admits(chosen.suite[member]));
}

/// Appending moves one at a time gives what playing them all gives, as long
/// as no generation before the last has covered every cell.
pub proof fn lemma_played_push(
    population: Seq<HarmonyView>,
    moves: Seq<Move>,
    mv: Move,
    target: nat,
)
    requires
        moves.len() > 0 ==> played(population, moves, target)[0].fitness != target,
    ensures
        played(population, moves.push(mv), target) == evolved(
            played(population, moves, target),
            mv,
        ),
    decreases moves.len(),
{
    let longer = moves.push(mv);
    if moves.len() == 0 {
        let next = evolved(population, mv);
        assert(longer[0] == mv);
        assert(longer.skip(1) =~= Seq::<Move>::empty());
        assert(played(next, longer.skip(1), target) == next);
        assert(played(population, moves, target) == population);
    } else {
        let next = evolved(population, moves[0]);
        assert(longer[0] == moves[0]);
        assert(longer.skip(1) =~= moves.skip(1).push(mv));
        assert(played(population, moves, target) == if next[0].fitness == target {
            next
        } else {
            played(next, moves.skip(1), target)
        });
        assert(next[0].fitness != target);
        lemma_played_push(next, moves.skip(1), mv, target);
        assert(played(population, longer, target) == played(next, longer.skip(1), target));
    }
}

/// A move that fits what the moves before it have made of the population
/// can be appended to them.
pub proof fn lemma_fitting_push(
    population: Seq<HarmonyView>,
    moves: Seq<Move>,
    mv: Move,
    target: nat,
)
    requires
        fitting(population, moves, target),
        moves.len() > 0 ==> played(population, moves, target)[0].fitness != target,
        fits(played(population, moves, target), mv),
    ensures
        fitting(population, moves.push(mv), target),
    decreases moves.len(),
{
    let longer = moves.push(mv);
    if moves.len() == 0 {
        assert(longer[0] == mv);
        assert(longer.skip(1) =~= Seq::<Move>::empty());
        assert(played(population, moves, target) == population);
        assert(fitting(evolved(population, mv), longer.skip(1), target));
    } else {
        let next = evolved(population, moves[0]);
        assert(longer[0] == moves[0]);
        assert(longer.skip(1) =~= moves.skip(1).push(mv));
        assert(played(population, moves, target) == if next[0].fitness == target {
            next
        } else {
            played(next, moves.skip(1), target)
        });
        assert(next[0].fitness != target);
        lemma_fitting_push(next, moves.skip(1), mv, target);
    }
}

/// How a run ended, with the best harmony that it found.
pub enum RunOutcome {
    /// The harmony covers every cell.
    Converged(Harmony),
    /// The generations ran out; the harmony is the best so far.
    OutOfBudget(Harmony),
}

impl RunOutcome {
    /// The harmony that the run gives back.
    pub open spec fn harmony(self) -> Harmony {
        match self {
            RunOutcome::Converged(best) => best,
            RunOutcome::OutOfBudget(best) => best,
        }
    }

    /// The best harmony of the run.
    pub fn best(&self) -> (best: &Harmony)
        ensures
            *best == self.harmony(),
    {
        match self {
            RunOutcome::Converged(best) => best,
            RunOutcome::OutOfBudget(best) => best,
        }
    }

    /// Whether the run covered every cell.
    pub fn is_converged(&self) -> (yes: bool)
        ensures
            yes == (self is Converged),
    {
        match self {
            RunOutcome::Converged(_) => true,
            RunOutcome::OutOfBudget(_) => false,
        }
    }

    /// Gives up the outcome for its harmony.
    pub fn into_harmony(self) -> (best: Harmony)
        ensures
            best == self.harmony(),
    {
        match self {
            RunOutcome::Converged(best) => best,
            RunOutcome::OutOfBudget(best) => best,
        }
    }

    /// The outcome is that of a run over `space` whose population ended as
    /// one with `best` in front.
    pub open spec fn ends(self, space: Space, best: HarmonyView) -> bool {
        &&& self.harmony()@ == best
        &&& self.harmony().wf()
        &&& best.space() == space
        &&& best.size >= 1
        &&& self is Converged <==> best.fitness == full_target(
            space.p_num,
            space.p_values,
            space.t_value,
        )
        &&& self is Converged <==> complete(best.cover)
    }
}

/// Two runs on the same seeds and the same moves end alike: with the same
/// suite, weights, fitness, size and coverage map, and both having covered
/// every cell or neither.
pub proof fn lemma_same_draws_same_run(
    first: RunOutcome,
    second: RunOutcome,
    space: Space,
    seeds: Seq<Seq<usize>>,
    moves: Seq<Move>,
)
    requires
        first.ends(space, run_best(space, seeds, moves)),
        second.ends(space, run_best(space, seeds, moves)),
    ensures
        first.harmony()@ == second.harmony()@,
        first is Converged <==> second is Converged,
{
}

/// Makes one generation: the move, if it fits the population, and the
/// ranking. Tells whether the move was made.
pub fn evolve(population: &mut Vec<Harmony>, mv: &Move) -> (made: bool)
    requires
        is_population(views(old(population)@)),
        in_rank_order(views(old(population)@)),
    ensures
        made == fits(views(old(population)@), *mv),
        views(final(population)@) == evolved(views(old(population)@), *mv),
        is_population_of(views(final(population)@), views(old(population)@)[0].space()),
        in_rank_order(views(final(population)@)),
        final(population).len() == old(population).len(),
{
    let ghost before = views(population@);
    let ghost space = before[0].space();
    proof {
        lemma_evolved(before, *mv, space);
    }
    match mv {
        Move::Guided { harmony, member, r1, r2 } => {
            if *harmony >= population.len() {
                return false;
            }
            assert(before[*harmony as int] == population@[*harmony as int]@);
            assert(before[0] == population@[0]@);
            if *member >= population[*harmony].size() || *r1 >= UNIT || *r2 >= UNIT {
                return false;
            }
            proof {
                lemma_accounting(before[0]);
                lemma_accounting(before[*harmony as int]);
            }
            let best_particle = copy_case(population[0].last_test_case());
            let candidate = population[*harmony].guided_candidate(
                *member,
                *r1,
                *r2,
                &best_particle,
            );
            population[*harmony].add_test_case(candidate);
            proof {
                assert(views(population@) =~= improvised(before, *mv));
            }
        },
        Move::Resample { harmony, position, replacement } => {
            if *harmony >= population.len() {
                return false;
            }
            assert(before[*harmony as int] == population@[*harmony as int]@);
            if *position >= population[*harmony].size() || !population[*harmony].admits(
                replacement,
            ) {
                return false;
            }
            let copy = population[*harmony].clone_replacing(*position, replacement);
            let worst: usize = population.len() - 1;
            assert(before[worst as int] == population@[worst as int]@);
            if copy.ranks_before(&population[worst]) {
                population[worst] = copy;
            }
            proof {
                assert(views(population@) =~= improvised(before, *mv));
            }
        },
    }
    sort_population(population);
    true
}

/// The first reason, if any, for which a population is not seeded.
pub open spec fn seeding_error(space: Space, seeds: Seq<Seq<usize>>) -> Option<ConfigError> {
    match space_error(space.p_num, space.p_values, space.t_value) {
        Some(reason) => Some(reason),
        None => if seeds.len() == 0 {
            Some(ConfigError::EmptyPopulation)
        } else if !are_seeds(space, seeds) {
            Some(ConfigError::ForeignTestCase)
        } else {
            None
        },
    }
}

/// A seeded population is a population.
pub proof fn lemma_seeded(space: Space, seeds: Seq<Seq<usize>>)
    requires
        valid_space(space.p_num, space.p_values, space.t_value),
        are_seeds(space, seeds),
    ensures
        is_population_of(seeded(space, seeds), space) || seeds.len() == 0,
        is_population_of(ranked(seeded(space, seeds)), space) || seeds.len() == 0,
        in_rank_order(ranked(seeded(space, seeds))),
        ranked(seeded(space, seeds)).len() == seeds.len(),
{
    let made = seeded(space, seeds);
    let blank = HarmonyView::blank_in(space);
    lemma_replayed(space.p_num, space.p_values, space.t_value, space.print_map, Seq::empty());
    assert forall|i: int| 0 <= i < made.len() implies {
        &&& (#[trigger] made[i]).consistent()
        &&& made[i].space() == space
        &&& made[i].size >= 1
    } by {
        assert(blank.admits(seeds[i]));
        lemma_appended(blank, seeds[i]);
    }
    lemma_ranked(made);
    lemma_ranked_members(made);
    let sorted = ranked(made);
    assert forall|i: int| 0 <= i < sorted.len() implies {
        &&& (#[trigger] sorted[i]).consistent()
        &&& sorted[i].space() == space
        &&& sorted[i].size >= 1
    } by {
        assert(made.contains(sorted[i]));
        let k = choose|k: int| 0 <= k < made.len() && made[k] == sorted[i];
        assert(made[k].consistent());
    }
}

/// A population of harmonies that hold one of `seeds` each, in rank order,
/// or the reason for which there is none.
pub fn populate(
    p_num: usize,
    p_values: usize,
    t_value: usize,
    print_map: bool,
    seeds: &Vec<Vec<usize>>,
) -> (made: Result<Vec<Harmony>, ConfigError>)
    ensures
        match made {
            Ok(population) => {
                let space = Space { p_num, p_values, t_value, print_map };
                &&& seeding_error(space, nested(*seeds)) is None
                &&& views(population@) == ranked(seeded(space, nested(*seeds)))
                &&& is_population_of(views(population@), space)
                &&& in_rank_order(views(population@))
            },
            Err(reason) => seeding_error(
                Space { p_num, p_values, t_value, print_map },
                nested(*seeds),
            ) == Some(reason),
        },
{
    let ghost space = Space { p_num, p_values, t_value, print_map };
    let ghost given = nested(*seeds);
    match check_space(p_num, p_values, t_value) {
        Err(reason) => {
            return Err(reason);
        },
        Ok(_) => {},
    }
    if seeds.len() == 0 {
        return Err(ConfigError::EmptyPopulation);
    }
    let mut population: Vec<Harmony> = Vec::new();
    let mut i: usize = 0;
    while i < seeds.len()
        invariant
            i <= seeds.len(),
            valid_space(p_num, p_values, t_value),
            space == (Space { p_num, p_values, t_value, print_map }),
            given == nested(*seeds),
            population.len() == i,
            are_seeds(space, given.take(i as int)),
            views(population@) == seeded(space, given.take(i as int)),
        decreases seeds.len() - i,
    {
        let mut harmony = match Harmony::new(p_num, p_values, t_value, print_map) {
            Ok(blank) => blank,
            Err(_) => unreached(),
        };
        if !harmony.admits(&seeds[i]) {
            proof {
                assert(!HarmonyView::blank_in(space).admits(given[i as int]));
            }
            return Err(ConfigError::ForeignTestCase);
        }
        let seed = copy_case(&seeds[i]);
        proof {
            lemma_first_weight(harmony@, seed@);
            lemma_valid_space(p_num, p_values, t_value);
        }
        let ghost before = views(population@);
        harmony.add_test_case(seed);
        population.push(harmony);
        i = i + 1;
        proof {
            let more = given.take(i as int);
            assert forall|k: int| 0 <= k < more.len() implies HarmonyView::blank_in(space).admits(
                #[trigger] more[k],
            ) by {
                if k < i - 1 {
                    assert(given.take(i - 1)[k] == more[k]);
                }
            }
            assert forall|k: int| 0 <= k < i implies #[trigger] views(population@)[k] == seeded(
                space,
                more,
            )[k] by {
                if k < i - 1 {
                    assert(views(population@)[k] == before[k]);
                    assert(given.take(i - 1)[k] == more[k]);
                }
            }
            assert(views(population@) =~= seeded(space, more));
        }
    }
    proof {
        assert(given.take(seeds.len() as int) == given);
        lemma_seeded(space, given);
    }
    sort_population(&mut population);
    Ok(population)
}

/// Ends a run with the harmony that stands first.
fn conclude(mut population: Vec<Harmony>, target: usize, Ghost(space): Ghost<Space>) -> (outcome:
    RunOutcome)
    requires
        is_population_of(views(population@), space),
        target == full_target(space.p_num, space.p_values, space.t_value),
    ensures
        outcome.ends(space, views(population@)[0]),
{
    assert(views(population@)[0] == population@[0]@);
    proof {
        lemma_full_coverage(population@[0]@);
    }
    let best = population.remove(0);
    if best.fitness() == target {
        RunOutcome::Converged(best)
    } else {
        RunOutcome::OutOfBudget(best)
    }
}

/// Runs the search on given seeds and given moves: the population is seeded,
/// and the moves are made in order until the best harmony covers every cell
/// or no move is left. A move that does not fit the population is passed
/// over. The same seeds and moves give the same outcome.
pub fn replay(
    p_num: usize,
    p_values: usize,
    t_value: usize,
    print_map: bool,
    seeds: &Vec<Vec<usize>>,
    moves: &Vec<Move>,
) -> (run: Result<RunOutcome, ConfigError>)
    ensures
        match run {
            Ok(outcome) => {
                let space = Space { p_num, p_values, t_value, print_map };
                &&& seeding_error(space, nested(*seeds)) is None
                &&& outcome.ends(space, run_best(space, nested(*seeds), moves@))
            },
            Err(reason) => seeding_error(
                Space { p_num, p_values, t_value, print_map },
                nested(*seeds),
            ) == Some(reason),
        },
{
    let ghost space = Space { p_num, p_values, t_value, print_map };
    let mut population = match populate(p_num, p_values, t_value, print_map, seeds) {
        Ok(population) => population,
        Err(reason) => {
            return Err(reason);
        },
    };
    let target: usize = match check_space(p_num, p_values, t_value) {
        Ok((rows, width)) => rows * width,
        Err(_) => unreached(),
    };
    let ghost start = views(population@);
    let mut g: usize = 0;
    proof {
        assert(moves@.skip(0) =~= moves@);
    }
    while g < moves.len()
        invariant
            g <= moves.len(),
            target == full_target(p_num, p_values, t_value),
            space == (Space { p_num, p_values, t_value, print_map }),
            seeding_error(space, nested(*seeds)) is None,
            start == ranked(seeded(space, nested(*seeds))),
            is_population_of(views(population@), space),
            in_rank_order(views(population@)),
            played(views(population@), moves@.skip(g as int), target as nat) == played(
                start,
                moves@,
                target as nat,
            ),
        decreases moves.len() - g,
    {
        let ghost before = views(population@);
        let ghost rest = moves@.skip(g as int);
        proof {
            assert(rest[0] == moves@[g as int]);
            assert(rest.skip(1) =~= moves@.skip(g + 1));
        }
        evolve(&mut population, &moves[g]);
        g = g + 1;
        if population[0].fitness() == target {
            proof {
                let next = evolved(before, rest[0]);
                assert(views(population@) == next);
                assert(views(population@)[0] == population@[0]@);
                assert(rest.len() > 0);
                assert(played(before, rest, target as nat) == next);
                assert(played(start, moves@, target as nat) == next);
                assert(next[0] == run_best(space, nested(*seeds), moves@));
            }
            return Ok(conclude(population, target, Ghost(space)));
        }
        proof {
            assert(views(population@)[0] == population@[0]@);
        }
    }
    proof {
        assert(moves@.skip(moves@.len() as int) =~= Seq::<Move>::empty());
    }
    Ok(conclude(population, target, Ghost(space)))
}

/// Draws the move of one generation: with the chance `adjust_rate / UNIT` a
/// guided move, and a resampling move otherwise, on a harmony drawn from the
/// population.
pub fn draw_move(population: &Vec<Harmony>, adjust_rate: u64) -> (mv: Move)
    requires
        is_population(views(population@)),
    ensures
        fits(views(population@), mv),
        adjust_rate >= UNIT ==> mv is Guided,
        adjust_rate == 0 ==> mv is Resample,
{
    let guided_turn: bool = random_below(UNIT) < adjust_rate;
    let harmony: usize = random_index(population.len());
    assert(views(population@)[harmony as int] == population@[harmony as int]@);
    if guided_turn {
        let member: usize = random_index(population[harmony].size());
        let r1: u64 = random_below(UNIT);
        let r2: u64 = random_below(UNIT);
        Move::Guided { harmony, member, r1, r2 }
    } else {
        let position: usize = random_index(population[harmony].size());
        let replacement = population[harmony].create_test_case();
        Move::Resample { harmony, position, replacement }
    }
}

/// One run of the search. A population of `harmony_size` harmonies is seeded
/// at random and ranked; each generation makes a move drawn at random and
/// ranks the population anew; the run ends when the best harmony covers
/// every cell, or after `max_generations` generations.
///
/// Whatever is drawn, the outcome is the one that `replay` gives for the
/// seeds and the moves that were drawn.
pub fn hsaga(config: &Config, print_map: bool, max_generations: usize) -> (run: Result<
    RunOutcome,
    ConfigError,
>)
    ensures
        match run {
            Ok(outcome) => {
                &&& config.error() is None
                &&& outcome.ends(config.space(print_map), outcome.harmony()@)
                &&& is_run(
                    *config,
                    print_map,
                    max_generations,
                    outcome.harmony()@,
                    outcome is Converged,
                )
            },
            Err(reason) => config.error() == Some(reason),
        },
{
    let ghost space = config.space(print_map);
    let target: usize = match config.validate() {
        Ok(target) => target,
        Err(reason) => {
            return Err(reason);
        },
    };
    let mut population: Vec<Harmony> = Vec::new();
    let ghost mut seeds: Seq<Seq<usize>> = Seq::empty();
    let mut i: usize = 0;
    while i < config.harmony_size
        invariant
            i <= config.harmony_size,
            config.error() is None,
            space == config.space(print_map),
            population.len() == i,
            seeds.len() == i,
            are_seeds(space, seeds),
            views(population@) == seeded(space, seeds),
        decreases config.harmony_size - i,
    {
        let mut harmony = match Harmony::new(
            config.p_num,
            config.p_values,
            config.t_value,
            print_map,
        ) {
            Ok(blank) => blank,
            Err(_) => unreached(),
        };
        let ghost before = views(population@);
        let ghost earlier = seeds;
        harmony.init();
        proof {
            seeds = seeds.push(harmony@.suite[0]);
        }
        population.push(harmony);
        i = i + 1;
        proof {
            assert forall|k: int| 0 <= k < seeds.len() implies HarmonyView::blank_in(space).admits(
                #[trigger] seeds[k],
            ) by {
                if k < i - 1 {
                    assert(seeds[k] == earlier[k]);
                }
            }
            assert forall|k: int| 0 <= k < i implies #[trigger] views(population@)[k] == seeded(
                space,
                seeds,
            )[k] by {
                if k < i - 1 {
                    assert(views(population@)[k] == before[k]);
                    assert(seeds[k] == earlier[k]);
                }
            }
            assert(views(population@) =~= seeded(space, seeds));
        }
    }
    proof {
        lemma_seeded(space, seeds);
    }
    sort_population(&mut population);
    let ghost start = views(population@);
    let ghost mut moves: Seq<Move> = Seq::empty();
    let mut generation: usize = 0;
    while generation < max_generations
        invariant
            generation <= max_generations,
            config.error() is None,
            space == config.space(print_map),
            target == full_target(config.p_num, config.p_values, config.t_value),
            seeds.len() == config.harmony_size,
            are_seeds(space, seeds),
            start == ranked(seeded(space, seeds)),
            is_population_of(views(population@), space),
            in_rank_order(views(population@)),
            moves.len() == generation,
            views(population@) == played(start, moves, target as nat),
            fitting(start, moves, target as nat),
            moves.len() > 0 ==> views(population@)[0].fitness != target,
        decreases max_generations - generation,
    {
        let mv = draw_move(&population, config.adjust_rate);
        proof {
            lemma_played_push(start, moves, mv, target as nat);
            lemma_fitting_push(start, moves, mv, target as nat);
            moves = moves.push(mv);
        }
        evolve(&mut population, &mv);
        generation = generation + 1;
        proof {
            assert(views(population@)[0] == population@[0]@);
        }
        if population[0].fitness() == target {
            proof {
                assert(views(population@)[0] == run_best(space, seeds, moves));
            }
            return Ok(conclude(population, target, Ghost(space)));
        }
    }
    proof {
        assert(views(population@)[0] == run_best(space, seeds, moves));
    }
    Ok(conclude(population, target, Ghost(space)))
}

} // verus!
