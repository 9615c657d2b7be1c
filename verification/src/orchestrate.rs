//! Many independent runs and what is kept of them: the smallest covering
//! suite and the sum of the sizes.

use crate::config::{Config, ConfigError};
use crate::harmony::Harmony;
use crate::model::HarmonyView;
use crate::search::{hsaga, is_run, RunOutcome};
use vstd::prelude::*;

verus! {

/// The first of the harmonies of least size.
pub open spec fn smallest(runs: Seq<HarmonyView>) -> HarmonyView
    decreases runs.len(),
{
    if runs.len() <= 1 {
        runs[0]
    } else if runs.last().size < smallest(runs.drop_last()).size {
        runs.last()
    } else {
        smallest(runs.drop_last())
    }
}

/// The sum of the sizes of the harmonies.
pub open spec fn sum_of_sizes(runs: Seq<HarmonyView>) -> nat
    decreases runs.len(),
{
    if runs.len() == 0 {
        0
    } else {
        sum_of_sizes(runs.drop_last()) + runs.last().size
    }
}

/// The smallest harmony is one of the harmonies, none is smaller, and none
/// of the same size stands before it.
pub proof fn lemma_smallest(runs: Seq<HarmonyView>)
    requires
        runs.len() > 0,
    ensures
        exists|k: int|
            0 <= k < runs.len() && #[trigger] runs[k] == smallest(runs) && forall|i: int|
                0 <= i < k ==> smallest(runs).size < (#[trigger] runs[i]).size,
        forall|i: int| 0 <= i < runs.len() ==> smallest(runs).size <= (#[trigger] runs[i]).size,
    decreases runs.len(),
{
    if runs.len() == 1 {
        assert(runs[0] == smallest(runs));
    } else {
        let head = runs.drop_last();
        lemma_smallest(head);
        let k = choose|k: int|
            0 <= k < head.len() && #[trigger] head[k] == smallest(head) && forall|i: int|
                0 <= i < k ==> smallest(head).size < (#[trigger] head[i]).size;
        assert forall|i: int| 0 <= i < runs.len() implies smallest(runs).size <= (
        #[trigger] runs[i]).size by {
            if i < head.len() {
                assert(head[i] == runs[i]);
            }
        }
        if runs.last().size < smallest(head).size {
            let last = runs.len() - 1;
            assert(runs[last] == smallest(runs));
            assert forall|i: int| 0 <= i < last implies smallest(runs).size < (
            #[trigger] runs[i]).size by {
                assert(head[i] == runs[i]);
            }
        } else {
            assert(runs[k] == head[k]);
            assert forall|i: int| 0 <= i < k implies smallest(runs).size < (
            #[trigger] runs[i]).size by {
                assert(head[i] == runs[i]);
            }
        }
    }
}

/// What a tally has seen, in the order in which it was recorded: the
/// harmonies of the runs that covered every cell, and the harmonies that the
/// other runs ended with.
pub struct TallyView {
    /// The harmonies of the runs that covered every cell.
    pub runs: Seq<HarmonyView>,
    /// The harmonies that the runs out of generations ended with.
    pub unfinished: Seq<HarmonyView>,
}

impl TallyView {
    /// The tally after `outcome` has been recorded.
    pub open spec fn recorded(self, outcome: RunOutcome) -> TallyView {
        match outcome {
            RunOutcome::Converged(best) => TallyView { runs: self.runs.push(best@), ..self },
            RunOutcome::OutOfBudget(best) => TallyView {
                unfinished: self.unfinished.push(best@),
                ..self
            },
        }
    }
}

/// The record of a series of runs.
pub struct Tally {
    best: Option<Harmony>,
    total_size: u128,
    finished: u64,
    unfinished: u64,
    seen: Ghost<Seq<HarmonyView>>,
    missed: Ghost<Seq<HarmonyView>>,
}

impl View for Tally {
    type V = TallyView;

    closed spec fn view(&self) -> TallyView {
        TallyView { runs: self.seen@, unfinished: self.missed@ }
    }
}

impl Tally {
    /// The invariant: what is kept is the smallest harmony, the sum of the
    /// sizes and the number of the runs that were seen.
    pub closed spec fn wf(&self) -> bool {
        &&& self.finished == self.seen@.len()
        &&& self.unfinished == self.missed@.len()
        &&& self.total_size == sum_of_sizes(self.seen@)
        &&& self.total_size <= self.finished * usize::MAX
        &&& match self.best {
            Some(best) => self.seen@.len() > 0 && best@ == smallest(self.seen@),
            None => self.seen@.len() == 0,
        }
    }

    /// A tally that has seen no run.
    pub fn new() -> (tally: Tally)
        ensures
            tally.wf(),
            tally@.runs.len() == 0,
            tally@.unfinished.len() == 0,
    {
        Tally {
            best: None,
            total_size: 0,
            finished: 0,
            unfinished: 0,
            seen: Ghost(Seq::empty()),
            missed: Ghost(Seq::empty()),
        }
    }

    /// Records the outcome of one run. A harmony that covers every cell
    /// becomes the best if it is smaller than every one before it.
    pub fn record(&mut self, outcome: RunOutcome)
        requires
            old(self).wf(),
            old(self)@.runs.len() + old(self)@.unfinished.len() < u64::MAX,
        ensures
            final(self).wf(),
            final(self)@ == old(self)@.recorded(outcome),
    {
        match outcome {
            RunOutcome::Converged(harmony) => {
                let size: usize = harmony.size();
                let ghost before = self.seen@;
                proof {
                    let n = self.finished as int;
                    let limit = usize::MAX as int;
                    assert((n + 1) * limit == n * limit + limit) by (nonlinear_arith);
                    assert((n + 1) * limit <= 0xffff_ffff_ffff_ffff * 0xffff_ffff_ffff_ffff)
                        by (nonlinear_arith)
                        requires
                            0 <= n + 1 <= 0xffff_ffff_ffff_ffff,
                            0 <= limit <= 0xffff_ffff_ffff_ffff,
                    ;
                    assert(before.push(harmony@).drop_last() == before);
                    assert(before.push(harmony@).last() == harmony@);
                }
                self.total_size = self.total_size + size as u128;
                self.finished = self.finished + 1;
                let smaller: bool = match &self.best {
                    Some(best) => size < best.size(),
                    None => true,
                };
                self.seen = Ghost(before.push(harmony@));
                if smaller {
                    self.best = Some(harmony);
                }
            },
            RunOutcome::OutOfBudget(harmony) => {
                self.unfinished = self.unfinished + 1;
                self.missed = Ghost(self.missed@.push(harmony@));
            },
        }
    }

    /// The smallest harmony among the runs that covered every cell, and
    /// among those of that size the one that was recorded first.
    pub fn best(&self) -> (best: Option<&Harmony>)
        requires
            self.wf(),
        ensures
            match best {
                Some(harmony) => self@.runs.len() > 0 && harmony@ == smallest(self@.runs),
                None => self@.runs.len() == 0,
            },
    {
        self.best.as_ref()
    }

    /// The sum of the sizes of the harmonies that covered every cell.
    pub fn total_size(&self) -> (total: u128)
        requires
            self.wf(),
        ensures
            total == sum_of_sizes(self@.runs),
    {
        self.total_size
    }

    /// The number of runs that covered every cell.
    pub fn finished(&self) -> (runs: u64)
        requires
            self.wf(),
        ensures
            runs == self@.runs.len(),
    {
        self.finished
    }

    /// The number of runs that ran out of generations.
    pub fn unfinished(&self) -> (runs: u64)
        requires
            self.wf(),
        ensures
            runs == self@.unfinished.len(),
    {
        self.unfinished
    }

    /// The mean size of the harmonies that covered every cell, as its whole
    /// part and the remainder of the division, or `None` without such a run.
    pub fn mean_size(&self) -> (mean: Option<(u128, u128)>)
        requires
            self.wf(),
        ensures
            match mean {
                Some((whole, rest)) => {
                    &&& self@.runs.len() > 0
                    &&& sum_of_sizes(self@.runs) == whole * self@.runs.len() + rest
                    &&& rest < self@.runs.len()
                },
                None => self@.runs.len() == 0,
            },
    {
        if self.finished == 0 {
            None
        } else {
            let runs: u128 = self.finished as u128;
            let whole: u128 = self.total_size / runs;
            let rest: u128 = self.total_size % runs;
            proof {
                vstd::arithmetic::div_mod::lemma_fundamental_div_mod(
                    self.total_size as int,
                    runs as int,
                );
                assert(runs * whole == whole * runs) by (nonlinear_arith);
            }
            Some((whole, rest))
        }
    }
}

/// The first reason, if any, for which a series of runs is refused.
pub open spec fn series_error(config: Config, rep: usize) -> Option<ConfigError> {
    match config.error() {
        Some(reason) => Some(reason),
        None => if rep < 1 {
            Some(ConfigError::NoRepetitions)
        } else {
            None
        },
    }
}

/// Makes `rep` runs of the search, one after the other, and tallies them.
/// Every harmony in the tally is what a run of the configured search ends
/// with, and those that are counted as finished cover every cell.
pub fn orchestrate(config: &Config, print_map: bool, rep: usize, max_generations: usize) -> (made:
    Result<Tally, ConfigError>)
    ensures
        match made {
            Ok(tally) => {
                &&& series_error(*config, rep) is None
                &&& tally.wf()
                &&& tally@.runs.len() + tally@.unfinished.len() == rep
                &&& forall|i: int|
                    0 <= i < tally@.runs.len() ==> {
                        &&& (#[trigger] tally@.runs[i]).consistent()
                        &&& is_run(*config, print_map, max_generations, tally@.runs[i], true)
                    }
                &&& forall|i: int|
                    0 <= i < tally@.unfinished.len() ==> {
                        &&& (#[trigger] tally@.unfinished[i]).consistent()
                        &&& is_run(
                            *config,
                            print_map,
                            max_generations,
                            tally@.unfinished[i],
                            false,
                        )
                    }
            },
            Err(reason) => series_error(*config, rep) == Some(reason),
        },
{
    match config.validate() {
        Err(reason) => {
            return Err(reason);
        },
        Ok(_) => {},
    }
    if rep < 1 {
        return Err(ConfigError::NoRepetitions);
    }
    let mut tally = Tally::new();
    let mut run: usize = 0;
    while run < rep
        invariant
            run <= rep,
            config.error() is None,
            tally.wf(),
            tally@.runs.len() + tally@.unfinished.len() == run,
            forall|i: int|
                0 <= i < tally@.runs.len() ==> {
                    &&& (#[trigger] tally@.runs[i]).consistent()
                    &&& is_run(*config, print_map, max_generations, tally@.runs[i], true)
                },
            forall|i: int|
                0 <= i < tally@.unfinished.len() ==> {
                    &&& (#[trigger] tally@.unfinished[i]).consistent()
                    &&& is_run(*config, print_map, max_generations, tally@.unfinished[i], false)
                },
        decreases rep - run,
    {
        let outcome = match hsaga(config, print_map, max_generations) {
            Ok(outcome) => outcome,
            Err(_) => vstd::pervasive::unreached(),
        };
        let ghost before = tally@;
        tally.record(outcome);
        run = run + 1;
        proof {
            assert forall|i: int| 0 <= i < tally@.runs.len() implies {
                &&& (#[trigger] tally@.runs[i]).consistent()
                &&& is_run(*config, print_map, max_generations, tally@.runs[i], true)
            } by {
                if i < before.runs.len() {
                    assert(tally@.runs[i] == before.runs[i]);
                }
            }
            assert forall|i: int| 0 <= i < tally@.unfinished.len() implies {
                &&& (#[trigger] tally@.unfinished[i]).consistent()
                &&& is_run(*config, print_map, max_generations, tally@.unfinished[i], false)
            } by {
                if i < before.unfinished.len() {
                    assert(tally@.unfinished[i] == before.unfinished[i]);
                }
            }
        }
    }
    Ok(tally)
}

} // verus!
