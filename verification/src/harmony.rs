//! A harmony: one candidate test suite with its coverage bookkeeping.

use crate::config::{
    check_space, lemma_valid_space, space_error, valid_space, ConfigError, UNIT,
};
use crate::counting::{binomial, power};
use crate::coverage::{blank, gain, gain_upto, hit, keeps, lands, mark_row, marked};
use crate::encoder::{combinations, encode_index, index_combinations, nested, picks_digits};
use crate::model::{
    lemma_appended, lemma_appended_keeps, lemma_lands, lemma_replayed, same_but_at, HarmonyView,
};
use crate::random::{random_below, random_index};
use crate::swarm::{guided, guided_move};
use vstd::pervasive::unreached;
use vstd::prelude::*;

verus! {

/// A test suite, the coverage map that it has filled, the weight with which
/// each test case entered, and the sum of the weights.
#[derive(Clone)]
pub struct Harmony {
    p_num: usize,
    p_values: usize,
    t_value: usize,
    comb_indices: Vec<Vec<usize>>,
    ca_map: Vec<Vec<usize>>,
    test_suite: Vec<Vec<usize>>,
    weight_list: Vec<usize>,
    fitness: usize,
    size: usize,
    print_map: bool,
}

impl View for Harmony {
    type V = HarmonyView;

    closed spec fn view(&self) -> HarmonyView {
        HarmonyView {
            p_num: self.p_num,
            p_values: self.p_values,
            t_value: self.t_value,
            print_map: self.print_map,
            combos: nested(self.comb_indices),
            cover: nested(self.ca_map),
            suite: nested(self.test_suite),
            weights: self.weight_list@,
            fitness: self.fitness as nat,
            size: self.size as nat,
        }
    }
}

/// A copy of a test case.
pub fn copy_case(test_case: &Vec<usize>) -> (copy: Vec<usize>)
    ensures
        copy@ == test_case@,
{
    let mut copy: Vec<usize> = Vec::new();
    let mut j: usize = 0;
    while j < test_case.len()
        invariant
            j <= test_case.len(),
            copy@ == test_case@.take(j as int),
        decreases test_case.len() - j,
    {
        copy.push(test_case[j]);
        proof {
            assert(test_case@.take(j + 1) == test_case@.take(j as int).push(test_case@[j as int]));
        }
        j = j + 1;
    }
    proof {
        assert(test_case@.take(test_case@.len() as int) == test_case@);
    }
    copy
}

impl Harmony {
    /// The invariant: the harmony is what replaying its suite gives.
    pub open spec fn wf(&self) -> bool {
        self@.consistent()
    }

    /// The subsets of parameters and a blank coverage map with a row for each,
    /// or the reason for which the parameter space is refused.
    pub fn cover_map_matrix(p_num: usize, p_values: usize, t_value: usize) -> (made: Result<
        (Vec<Vec<usize>>, Vec<Vec<usize>>),
        ConfigError,
    >)
        ensures
            match made {
                Ok((comb_indices, ca_map)) => {
                    &&& valid_space(p_num, p_values, t_value)
                    &&& nested(comb_indices) == combinations(p_num, t_value)
                    &&& nested(ca_map) == blank(
                        combinations(p_num, t_value).len(),
                        power(p_values as nat, t_value as nat),
                    )
                },
                Err(reason) => space_error(p_num, p_values, t_value) == Some(reason),
            },
    {
        let (rows, width) = match check_space(p_num, p_values, t_value) {
            Ok(layout) => layout,
            Err(reason) => {
                return Err(reason);
            },
        };
        let comb_indices = index_combinations(p_num, t_value);
        proof {
            crate::encoder::lemma_combinations(p_num, t_value);
        }
        let mut row: Vec<usize> = Vec::new();
        let mut j: usize = 0;
        while j < width
            invariant
                j <= width,
                row@ == Seq::new(j as nat, |c: int| 0usize),
            decreases width - j,
        {
            row.push(0);
            j = j + 1;
        }
        let mut ca_map: Vec<Vec<usize>> = Vec::new();
        let mut i: usize = 0;
        while i < rows
            invariant
                i <= rows,
                row@ == Seq::new(width as nat, |c: int| 0usize),
                ca_map.len() == i,
                nested(ca_map) == blank(i as nat, width as nat),
            decreases rows - i,
        {
            let ghost filled = nested(ca_map);
            let fresh = copy_case(&row);
            ca_map.push(fresh);
            i = i + 1;
            proof {
                let wanted = blank(i as nat, width as nat);
                assert forall|r: int| 0 <= r < i implies #[trigger] nested(ca_map)[r]
                    == wanted[r] by {
                    if r < i - 1 {
                        assert(nested(ca_map)[r] == filled[r]);
                        assert(filled[r] == blank((i - 1) as nat, width as nat)[r]);
                    }
                }
                assert(nested(ca_map) =~= wanted);
            }
        }
        Ok((comb_indices, ca_map))
    }

    /// A harmony without test cases over the given parameter space, or the
    /// reason for which the space is refused.
    pub fn new(p_num: usize, p_values: usize, t_value: usize, print_map: bool) -> (made: Result<
        Harmony,
        ConfigError,
    >)
        ensures
            match made {
                Ok(harmony) => {
                    &&& valid_space(p_num, p_values, t_value)
                    &&& harmony@ == HarmonyView::blank(p_num, p_values, t_value, print_map)
                    &&& harmony.wf()
                },
                Err(reason) => space_error(p_num, p_values, t_value) == Some(reason),
            },
    {
        match Harmony::cover_map_matrix(p_num, p_values, t_value) {
            Ok((comb_indices, ca_map)) => {
                let harmony = Harmony {
                    p_num,
                    p_values,
                    t_value,
                    comb_indices,
                    ca_map,
                    test_suite: Vec::new(),
                    weight_list: Vec::new(),
                    fitness: 0,
                    size: 0,
                    print_map,
                };
                proof {
                    assert(nested(harmony.test_suite) =~= Seq::<Seq<usize>>::empty());
                    assert(harmony@ == HarmonyView::blank(p_num, p_values, t_value, print_map));
                    lemma_replayed(p_num, p_values, t_value, print_map, Seq::empty());
                }
                Ok(harmony)
            },
            Err(reason) => Err(reason),
        }
    }

    /// The weight of `test_case` against `ca_map`; with `mark`, each cell
    /// that it newly covers is set to `stamp`.
    fn check_test_case(
        ca_map: &mut Vec<Vec<usize>>,
        comb_indices: &Vec<Vec<usize>>,
        test_case: &Vec<usize>,
        p_values: usize,
        stamp: usize,
        mark: bool,
    ) -> (weight: usize)
        requires
            lands(
                nested(*old(ca_map)),
                nested(*comb_indices),
                test_case@,
                p_values as nat,
            ),
            forall|i: int|
                0 <= i < comb_indices.len() ==> picks_digits(
                    #[trigger] nested(*comb_indices)[i],
                    test_case@,
                    p_values as nat,
                ) && power(p_values as nat, nested(*comb_indices)[i].len()) <= usize::MAX,
        ensures
            weight == gain(
                nested(*old(ca_map)),
                nested(*comb_indices),
                test_case@,
                p_values as nat,
            ),
            mark ==> nested(*final(ca_map)) == marked(
                nested(*old(ca_map)),
                nested(*comb_indices),
                test_case@,
                p_values as nat,
                stamp,
            ),
            !mark ==> *final(ca_map) == *old(ca_map),
    {
        let ghost before = nested(*ca_map);
        let ghost combos = nested(*comb_indices);
        let ghost base = p_values as nat;
        let rows: usize = ca_map.len();
        let mut weight: usize = 0;
        let mut i: usize = 0;
        while i < rows
            invariant
                i <= rows,
                rows == ca_map.len(),
                rows == before.len(),
                before == nested(*old(ca_map)),
                combos == nested(*comb_indices),
                base == p_values as nat,
                lands(before, combos, test_case@, base),
                forall|r: int|
                    0 <= r < comb_indices.len() ==> picks_digits(
                        #[trigger] nested(*comb_indices)[r],
                        test_case@,
                        p_values as nat,
                    ) && power(p_values as nat, nested(*comb_indices)[r].len()) <= usize::MAX,
                weight == gain_upto(before, combos, test_case@, base, i as nat),
                weight <= i,
                !mark ==> *ca_map == *old(ca_map),
                mark ==> nested(*ca_map) == Seq::new(
                    rows as nat,
                    |r: int|
                        if r < i {
                            mark_row(before[r], hit(combos, test_case@, base, r), stamp)
                        } else {
                            before[r]
                        },
                ),
            decreases rows - i,
        {
            proof {
                assert(combos[i as int] == comb_indices@[i as int]@);
                assert(picks_digits(nested(*comb_indices)[i as int], test_case@, base));
                assert(hit(combos, test_case@, base, i as int) < before[i as int].len());
                assert(nested(*ca_map)[i as int] == before[i as int]);
            }
            let cell: usize = encode_index(&comb_indices[i], test_case, p_values);
            let ghost during = nested(*ca_map);
            if ca_map[i][cell] == 0 {
                if mark {
                    ca_map[i][cell] = stamp;
                }
                weight = weight + 1;
            }
            i = i + 1;
            proof {
                if mark {
                    let after = Seq::new(
                        rows as nat,
                        |r: int|
                            if r < i {
                                mark_row(before[r], hit(combos, test_case@, base, r), stamp)
                            } else {
                                before[r]
                            },
                    );
                    assert forall|r: int| 0 <= r < rows implies #[trigger] nested(*ca_map)[r]
                        == after[r] by {
                        if r != i - 1 {
                            assert(nested(*ca_map)[r] == during[r]);
                        }
                    }
                    assert(nested(*ca_map) =~= after);
                }
            }
        }
        proof {
            if mark {
                assert(nested(*ca_map) =~= marked(before, combos, test_case@, base, stamp));
            }
        }
        weight
    }

    /// The weight that `test_case` would have if it were committed now: the
    /// number of cells that it would newly cover. Nothing is changed.
    pub fn check_against(&mut self, test_case: &Vec<usize>) -> (weight: usize)
        requires
            old(self).wf(),
            old(self)@.admits(test_case@),
        ensures
            weight == old(self)@.weigh(test_case@),
            *final(self) == *old(self),
    {
        proof {
            self.lemma_ready(test_case@);
        }
        Harmony::check_test_case(
            &mut self.ca_map,
            &self.comb_indices,
            test_case,
            self.p_values,
            1,
            false,
        )
    }

    /// A harmony is ready to score any of its test cases.
    proof fn lemma_ready(&self, test_case: Seq<usize>)
        requires
            self.wf(),
            self@.admits(test_case),
        ensures
            lands(
                nested(self.ca_map),
                nested(self.comb_indices),
                test_case,
                self.p_values as nat,
            ),
            forall|i: int|
                0 <= i < self.comb_indices.len() ==> picks_digits(
                    #[trigger] nested(self.comb_indices)[i],
                    test_case,
                    self.p_values as nat,
                ) && power(self.p_values as nat, nested(self.comb_indices)[i].len())
                    <= usize::MAX,
    {
        let h = self@;
        lemma_replayed(h.p_num, h.p_values, h.t_value, h.print_map, h.suite);
        crate::encoder::lemma_combinations(h.p_num, h.t_value);
        lemma_valid_space(h.p_num, h.p_values, h.t_value);
        lemma_lands(h.cover, h.p_num, h.p_values, h.t_value, test_case);
        assert forall|i: int| 0 <= i < self.comb_indices.len() implies power(
            self.p_values as nat,
            (#[trigger] nested(self.comb_indices)[i]).len(),
        ) <= usize::MAX by {
            assert(crate::encoder::is_subset(h.combos[i], 0, h.p_num, h.t_value as nat));
        }
    }

    /// Commits `test_case` and appends it, whatever its weight.
    fn insert(&mut self, test_case: Vec<usize>)
        requires
            old(self).wf(),
            old(self)@.admits(test_case@),
        ensures
            final(self)@ == old(self)@.appended(test_case@),
            final(self).wf(),
    {
        let ghost before = self@;
        proof {
            self.lemma_ready(test_case@);
            lemma_replayed(
                before.p_num,
                before.p_values,
                before.t_value,
                before.print_map,
                before.suite,
            );
        }
        self.test_suite.push(test_case);
        let n: usize = self.test_suite.len();
        let stamp: usize = if self.print_map {
            n
        } else {
            1
        };
        proof {
            assert(nested(self.test_suite) =~= before.suite.push(test_case@));
            assert(self.test_suite@[n - 1]@ == test_case@);
            lemma_appended(before, test_case@);
        }
        let weight: usize = Harmony::check_test_case(
            &mut self.ca_map,
            &self.comb_indices,
            &self.test_suite[n - 1],
            self.p_values,
            stamp,
            true,
        );
        self.fitness = self.fitness + weight;
        self.weight_list.push(weight);
        self.size = n;
    }

    /// Offers `test_case` to the harmony: it is committed and appended if it
    /// covers a cell that no earlier test case covers, and dropped otherwise.
    pub fn add_test_case(&mut self, test_case: Vec<usize>)
        requires
            old(self).wf(),
            old(self)@.admits(test_case@),
        ensures
            final(self)@ == old(self)@.admitted(test_case@),
            final(self).wf(),
            old(self)@.weigh(test_case@) == 0 ==> *final(self) == *old(self),
            keeps(old(self)@.cover, final(self)@.cover),
    {
        proof {
            lemma_appended_keeps(self@, test_case@);
        }
        if self.check_against(&test_case) == 0 {
            return;
        }
        self.insert(test_case);
    }

    /// A test case drawn at random: one symbol for each parameter.
    pub fn create_test_case(&self) -> (test_case: Vec<usize>)
        requires
            self.wf(),
        ensures
            self@.admits(test_case@),
    {
        let mut test_case: Vec<usize> = Vec::new();
        let mut j: usize = 0;
        while j < self.p_num
            invariant
                j <= self.p_num,
                self.p_values >= 2,
                test_case.len() == j,
                forall|c: int| 0 <= c < j ==> #[trigger] test_case[c] < self.p_values,
            decreases self.p_num - j,
        {
            let symbol: usize = random_index(self.p_values);
            test_case.push(symbol);
            j = j + 1;
        }
        test_case
    }

    /// Seeds a harmony that has no test case yet with one drawn at random.
    pub fn init(&mut self)
        requires
            old(self).wf(),
            old(self)@.size == 0,
        ensures
            final(self).wf(),
            final(self)@.size == 1,
            final(self)@.admits(final(self)@.suite[0]),
            final(self)@ == old(self)@.appended(final(self)@.suite[0]),
            final(self)@.fitness == binomial(old(self)@.p_num as nat, old(self)@.t_value as nat),
            keeps(old(self)@.cover, final(self)@.cover),
    {
        let test_case = self.create_test_case();
        proof {
            let h = self@;
            lemma_replayed(h.p_num, h.p_values, h.t_value, h.print_map, h.suite);
            crate::model::lemma_first_weight(h, test_case@);
            lemma_appended_keeps(h, test_case@);
        }
        self.insert(test_case);
    }

    /// One of the test cases of the suite, drawn at random.
    pub fn get_random_test_case(&self) -> (test_case: Vec<usize>)
        requires
            self.wf(),
            self@.size > 0,
        ensures
            exists|k: int| 0 <= k < self@.size && test_case@ == #[trigger] self@.suite[k],
    {
        proof {
            crate::model::lemma_accounting(self@);
        }
        let k: usize = random_index(self.size);
        let test_case = copy_case(&self.test_suite[k]);
        proof {
            assert(test_case@ == self@.suite[k as int]);
        }
        test_case
    }

    /// A harmony rebuilt from this one's test cases, in order, with the one
    /// at `index` exchanged for `replacement`. Every test case is appended,
    /// whatever it weighs against those before it.
    pub fn clone_replacing(&self, index: usize, replacement: &Vec<usize>) -> (copy: Harmony)
        requires
            self.wf(),
            index < self@.size,
            self@.admits(replacement@),
        ensures
            copy@ == self@.replaced(index as int, replacement@),
            copy@.suite == self@.suite.update(index as int, replacement@),
            copy@.space() == self@.space(),
            copy.wf(),
    {
        let ghost target = self@.suite.update(index as int, replacement@);
        proof {
            crate::model::lemma_accounting(self@);
        }
        let mut copy = match Harmony::new(self.p_num, self.p_values, self.t_value, self.print_map) {
            Ok(blank) => blank,
            Err(_) => unreached(),
        };
        let mut i: usize = 0;
        while i < self.size
            invariant
                i <= self.size,
                self.wf(),
                self.size == self@.suite.len(),
                index < self.size,
                self@.admits(replacement@),
                target == self@.suite.update(index as int, replacement@),
                copy.wf(),
                copy@ == HarmonyView::replayed(
                    self.p_num,
                    self.p_values,
                    self.t_value,
                    self.print_map,
                    target.take(i as int),
                ),
                copy@.space() == self@.space(),
            decreases self.size - i,
        {
            let next = if i == index {
                copy_case(replacement)
            } else {
                copy_case(&self.test_suite[i])
            };
            proof {
                assert(next@ == target[i as int]);
                assert(self@.admits(self@.suite[i as int]));
                assert(target.take(i + 1).drop_last() == target.take(i as int));
                assert(target.take(i + 1).last() == target[i as int]);
            }
            copy.insert(next);
            i = i + 1;
        }
        proof {
            assert(target.take(self.size as int) == target);
            lemma_replayed(self.p_num, self.p_values, self.t_value, self.print_map, target);
        }
        copy
    }

    /// A harmony rebuilt from this one's test cases with one of them, at a
    /// position drawn at random, exchanged for a test case drawn at random.
    pub fn randomized_clone(&mut self) -> (copy: Harmony)
        requires
            old(self).wf(),
            old(self)@.size > 0,
        ensures
            *final(self) == *old(self),
            copy.wf(),
            copy@.space() == old(self)@.space(),
            copy@.size == old(self)@.size,
            exists|index: int, replacement: Seq<usize>|
                0 <= index < old(self)@.size && old(self)@.admits(replacement) && copy@
                    == #[trigger] old(self)@.replaced(index, replacement),
            exists|index: int| #[trigger] same_but_at(copy@.suite, old(self)@.suite, index),
    {
        proof {
            crate::model::lemma_accounting(self@);
        }
        let index: usize = random_index(self.size);
        let replacement = self.create_test_case();
        let copy = self.clone_replacing(index, &replacement);
        proof {
            crate::model::lemma_accounting(copy@);
            assert(copy@ == self@.replaced(index as int, replacement@));
            assert(same_but_at(copy@.suite, self@.suite, index as int));
        }
        copy
    }

    /// The candidate that the guided move makes of the test case at `member`:
    /// each symbol is pulled toward the harmony's latest test case by the draw
    /// `r1` and toward `best_particle` by the draw `r2`.
    pub fn guided_candidate(
        &self,
        member: usize,
        r1: u64,
        r2: u64,
        best_particle: &Vec<usize>,
    ) -> (candidate: Vec<usize>)
        requires
            self.wf(),
            member < self@.size,
            r1 < UNIT,
            r2 < UNIT,
            best_particle@.len() == self@.p_num,
        ensures
            candidate@ == guided(
                self@.suite[member as int],
                self@.suite.last(),
                best_particle@,
                r1,
                r2,
                self@.p_values,
            ),
            self@.admits(candidate@),
    {
        proof {
            crate::model::lemma_accounting(self@);
            assert(self@.admits(self@.suite[member as int]));
            assert(self@.admits(self@.suite[self@.suite.len() - 1]));
        }
        guided_move(
            &self.test_suite[member],
            &self.test_suite[self.size - 1],
            best_particle,
            r1,
            r2,
            self.p_values,
        )
    }

    /// A candidate made by the guided move from a test case of the suite drawn
    /// at random and two draws from the unit interval.
    pub fn pso(&self, best_particle: Vec<usize>) -> (candidate: Vec<usize>)
        requires
            self.wf(),
            self@.size > 0,
            best_particle@.len() == self@.p_num,
        ensures
            self@.admits(candidate@),
            exists|member: int, r1: u64, r2: u64|
                0 <= member < self@.size && r1 < UNIT && r2 < UNIT && candidate@ == #[trigger] guided(
                    self@.suite[member],
                    self@.suite.last(),
                    best_particle@,
                    r1,
                    r2,
                    self@.p_values,
                ),
    {
        proof {
            crate::model::lemma_accounting(self@);
        }
        let member: usize = random_index(self.size);
        let r1: u64 = random_below(UNIT);
        let r2: u64 = random_below(UNIT);
        self.guided_candidate(member, r1, r2, &best_particle)
    }

    /// Whether `test_case` is a test case of this harmony's parameter space.
    pub fn admits(&self, test_case: &Vec<usize>) -> (yes: bool)
        ensures
            yes == self@.admits(test_case@),
    {
        if test_case.len() != self.p_num {
            return false;
        }
        let mut j: usize = 0;
        while j < test_case.len()
            invariant
                j <= test_case.len(),
                forall|c: int| 0 <= c < j ==> #[trigger] test_case[c] < self.p_values,
            decreases test_case.len() - j,
        {
            if test_case[j] >= self.p_values {
                return false;
            }
            j = j + 1;
        }
        true
    }

    /// The number of parameters.
    pub fn p_num(&self) -> (n: usize)
        ensures
            n == self@.p_num,
    {
        self.p_num
    }

    /// The number of symbols of each parameter.
    pub fn p_values(&self) -> (n: usize)
        ensures
            n == self@.p_values,
    {
        self.p_values
    }

    /// The strength: the number of parameters of each subset to cover.
    pub fn t_value(&self) -> (n: usize)
        ensures
            n == self@.t_value,
    {
        self.t_value
    }

    /// Whether a covered cell records the test case that covered it first.
    pub fn print_map(&self) -> (yes: bool)
        ensures
            yes == self@.print_map,
    {
        self.print_map
    }

    /// The number of covered cells.
    pub fn fitness(&self) -> (cells: usize)
        ensures
            cells == self@.fitness,
    {
        self.fitness
    }

    /// The number of test cases.
    pub fn size(&self) -> (n: usize)
        ensures
            n == self@.size,
    {
        self.size
    }

    /// The test cases, in the order in which they entered.
    pub fn test_suite(&self) -> (suite: &Vec<Vec<usize>>)
        ensures
            nested(*suite) == self@.suite,
    {
        &self.test_suite
    }

    /// The weight with which each test case entered.
    pub fn weight_list(&self) -> (weights: &Vec<usize>)
        ensures
            weights@ == self@.weights,
    {
        &self.weight_list
    }

    /// The coverage map, a row for each subset of parameters.
    pub fn ca_map(&self) -> (map: &Vec<Vec<usize>>)
        ensures
            nested(*map) == self@.cover,
    {
        &self.ca_map
    }

    /// The subsets of parameters, in the order of the rows of the map.
    pub fn comb_indices(&self) -> (subsets: &Vec<Vec<usize>>)
        ensures
            nested(*subsets) == self@.combos,
    {
        &self.comb_indices
    }

    /// The test case that entered last.
    pub fn last_test_case(&self) -> (test_case: &Vec<usize>)
        requires
            self.wf(),
            self@.size > 0,
        ensures
            test_case@ == self@.suite.last(),
            self@.admits(test_case@),
    {
        proof {
            crate::model::lemma_accounting(self@);
            assert(self@.admits(self@.suite[self@.suite.len() - 1]));
        }
        &self.test_suite[self.size - 1]
    }
}

} // verus!
