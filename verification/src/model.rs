//! The mathematical model of a harmony: a test suite over a parameter space
//! together with the bookkeeping that follows from replaying it.

use crate::config::{full_target, lemma_valid_space, valid_space};
use crate::counting::{binomial, power};
use crate::coverage::{
    blank, complete, covered, gain, gain_upto, has_width, hit, keeps, lands, lemma_blank_covered,
    lemma_covered_bound, lemma_gain_bound, lemma_marked_covers, lemma_marked_keeps, marked,
};
use crate::encoder::{
    combinations, is_subset, lemma_combinations, lemma_encode_bound, picks_digits,
};
use vstd::prelude::*;

verus! {

/// `test_case` assigns one of `p_values` symbols to each of `p_num` parameters.
pub open spec fn is_test_case(test_case: Seq<usize>, p_num: usize, p_values: usize) -> bool {
    &&& test_case.len() == p_num
    &&& forall|j: int| 0 <= j < test_case.len() ==> #[trigger] test_case[j] < p_values
}

/// Two suites of one length that hold the same test case at every position
/// but, at most, the one at `index`.
pub open spec fn same_but_at(suite: Seq<Seq<usize>>, other: Seq<Seq<usize>>, index: int) -> bool {
    &&& suite.len() == other.len()
    &&& 0 <= index < suite.len()
    &&& forall|k: int| 0 <= k < suite.len() && k != index ==> #[trigger] suite[k] == other[k]
}

/// The sum of a list of weights.
pub open spec fn total(weights: Seq<usize>) -> nat
    decreases weights.len(),
{
    if weights.len() == 0 {
        0
    } else {
        total(weights.drop_last()) + weights.last() as nat
    }
}

/// A parameter space together with the choice of stamps.
pub struct Space {
    /// The number of parameters.
    pub p_num: usize,
    /// The number of symbols of each parameter.
    pub p_values: usize,
    /// The strength: the number of parameters of each subset to cover.
    pub t_value: usize,
    /// Whether a covered cell records which test case covered it first.
    pub print_map: bool,
}

/// What a harmony is: its parameter space, its test suite, and the coverage
/// map, weights, fitness and size that go with the suite.
pub struct HarmonyView {
    /// The number of parameters.
    pub p_num: usize,
    /// The number of symbols of each parameter.
    pub p_values: usize,
    /// The strength: the number of parameters of each subset to cover.
    pub t_value: usize,
    /// Whether a covered cell records which test case covered it first.
    pub print_map: bool,
    /// The subsets of parameters, one for each row of the map.
    pub combos: Seq<Seq<usize>>,
    /// The coverage map: a cell is zero as long as it is uncovered.
    pub cover: Seq<Seq<usize>>,
    /// The test cases, in the order in which they entered.
    pub suite: Seq<Seq<usize>>,
    /// For each test case, the number of cells that it was the first to cover.
    pub weights: Seq<usize>,
    /// The number of covered cells.
    pub fitness: nat,
    /// The number of test cases.
    pub size: nat,
}

impl HarmonyView {
    /// The harmony without test cases.
    pub open spec fn blank(p_num: usize, p_values: usize, t_value: usize, print_map: bool) -> Self {
        HarmonyView {
            p_num,
            p_values,
            t_value,
            print_map,
            combos: combinations(p_num, t_value),
            cover: blank(
                combinations(p_num, t_value).len(),
                power(p_values as nat, t_value as nat),
            ),
            suite: Seq::empty(),
            weights: Seq::empty(),
            fitness: 0,
            size: 0,
        }
    }

    /// The parameter space of the harmony and its choice of stamps.
    pub open spec fn space(self) -> Space {
        Space {
            p_num: self.p_num,
            p_values: self.p_values,
            t_value: self.t_value,
            print_map: self.print_map,
        }
    }

    /// The harmony without test cases over `space`.
    pub open spec fn blank_in(space: Space) -> Self {
        Self::blank(space.p_num, space.p_values, space.t_value, space.print_map)
    }

    /// `test_case` is a test case of this harmony's parameter space.
    pub open spec fn admits(self, test_case: Seq<usize>) -> bool {
        is_test_case(test_case, self.p_num, self.p_values)
    }

    /// What the next test case writes into the cells that it covers: its
    /// place in the suite, counted from one and held at the largest number
    /// that a cell can hold, or a plain one.
    pub open spec fn stamp(self) -> usize {
        if !self.print_map {
            1
        } else if self.size < usize::MAX {
            (self.size + 1) as usize
        } else {
            usize::MAX
        }
    }

    /// The weight of `test_case` against the present map.
    pub open spec fn weigh(self, test_case: Seq<usize>) -> nat {
        gain(self.cover, self.combos, test_case, self.p_values as nat)
    }

    /// The harmony after `test_case` has been committed and appended,
    /// whatever its weight.
    pub open spec fn appended(self, test_case: Seq<usize>) -> Self {
        HarmonyView {
            cover: marked(
                self.cover,
                self.combos,
                test_case,
                self.p_values as nat,
                self.stamp(),
            ),
            suite: self.suite.push(test_case),
            weights: self.weights.push(self.weigh(test_case) as usize),
            fitness: self.fitness + self.weigh(test_case),
            size: self.size + 1,
            ..self
        }
    }

    /// The harmony after `test_case` has been offered to it: appended if it
    /// covers anything new, and otherwise the harmony as it was.
    pub open spec fn admitted(self, test_case: Seq<usize>) -> Self {
        if self.weigh(test_case) == 0 {
            self
        } else {
            self.appended(test_case)
        }
    }

    /// The harmony that results from appending the test cases of `suite`, in
    /// order, to a blank one.
    pub open spec fn replayed(
        p_num: usize,
        p_values: usize,
        t_value: usize,
        print_map: bool,
        suite: Seq<Seq<usize>>,
    ) -> Self
        decreases suite.len(),
    {
        if suite.len() == 0 {
            Self::blank(p_num, p_values, t_value, print_map)
        } else {
            Self::replayed(p_num, p_values, t_value, print_map, suite.drop_last()).appended(
                suite.last(),
            )
        }
    }

    /// The harmony rebuilt from this one's suite with the test case at
    /// `index` exchanged for `test_case`.
    pub open spec fn replaced(self, index: int, test_case: Seq<usize>) -> Self {
        Self::replayed(
            self.p_num,
            self.p_values,
            self.t_value,
            self.print_map,
            self.suite.update(index, test_case),
        )
    }

    /// The number of cells to cover.
    pub open spec fn target(self) -> nat {
        full_target(self.p_num, self.p_values, self.t_value)
    }

    /// The invariant of a harmony: its space is valid, its suite holds test
    /// cases of that space, and everything else is what replaying the suite
    /// gives.
    pub open spec fn consistent(self) -> bool {
        &&& valid_space(self.p_num, self.p_values, self.t_value)
        &&& forall|k: int| 0 <= k < self.suite.len() ==> self.admits(#[trigger] self.suite[k])
        &&& self == Self::replayed(
            self.p_num,
            self.p_values,
            self.t_value,
            self.print_map,
            self.suite,
        )
    }
}

/// A test case of the space exercises one cell in each row of a map that has
/// a row of `p_values^t_value` cells for each subset.
pub proof fn lemma_lands(
    map: Seq<Seq<usize>>,
    p_num: usize,
    p_values: usize,
    t_value: usize,
    test_case: Seq<usize>,
)
    requires
        is_test_case(test_case, p_num, p_values),
        map.len() == combinations(p_num, t_value).len(),
        has_width(map, power(p_values as nat, t_value as nat)),
    ensures
        lands(map, combinations(p_num, t_value), test_case, p_values as nat),
        forall|i: int|
            0 <= i < map.len() ==> picks_digits(
                #[trigger] combinations(p_num, t_value)[i],
                test_case,
                p_values as nat,
            ),
{
    let combos = combinations(p_num, t_value);
    lemma_combinations(p_num, t_value);
    assert forall|i: int| 0 <= i < map.len() implies picks_digits(
        #[trigger] combos[i],
        test_case,
        p_values as nat,
    ) by {
        assert(is_subset(combos[i], 0, p_num, t_value as nat));
    }
    assert forall|i: int| 0 <= i < map.len() implies #[trigger] hit(
        combos,
        test_case,
        p_values as nat,
        i,
    ) < map[i].len() by {
        assert(picks_digits(combos[i], test_case, p_values as nat));
        lemma_encode_bound(combos[i], test_case, p_values as nat);
        assert(combos[i].len() == t_value);
    }
}

/// What holds of every replayed suite: the bookkeeping adds up.
pub proof fn lemma_replayed(
    p_num: usize,
    p_values: usize,
    t_value: usize,
    print_map: bool,
    suite: Seq<Seq<usize>>,
)
    requires
        valid_space(p_num, p_values, t_value),
        forall|k: int| 0 <= k < suite.len() ==> is_test_case(#[trigger] suite[k], p_num, p_values),
    ensures
        ({
            let h = HarmonyView::replayed(p_num, p_values, t_value, print_map, suite);
            &&& h.p_num == p_num
            &&& h.p_values == p_values
            &&& h.t_value == t_value
            &&& h.print_map == print_map
            &&& h.combos == combinations(p_num, t_value)
            &&& h.suite == suite
            &&& h.size == suite.len()
            &&& h.weights.len() == suite.len()
            &&& h.cover.len() == binomial(p_num as nat, t_value as nat)
            &&& has_width(h.cover, power(p_values as nat, t_value as nat))
            &&& h.fitness == total(h.weights)
            &&& h.fitness == covered(h.cover)
            &&& h.fitness <= h.target()
            &&& forall|k: int|
                0 <= k < h.weights.len() ==> #[trigger] h.weights[k] <= binomial(
                    p_num as nat,
                    t_value as nat,
                )
            &&& h.consistent()
        }),
    decreases suite.len(),
{
    let h = HarmonyView::replayed(p_num, p_values, t_value, print_map, suite);
    let rows = binomial(p_num as nat, t_value as nat);
    let width = power(p_values as nat, t_value as nat);
    lemma_combinations(p_num, t_value);
    lemma_valid_space(p_num, p_values, t_value);
    if suite.len() == 0 {
        lemma_blank_covered(rows, width, rows);
        assert(h.suite == suite);
        assert(rows * width >= 0) by (nonlinear_arith)
            requires
                rows >= 0,
                width >= 0,
        ;
    } else {
        let head = suite.drop_last();
        let last = suite.last();
        let g = HarmonyView::replayed(p_num, p_values, t_value, print_map, head);
        assert forall|k: int| 0 <= k < head.len() implies is_test_case(
            #[trigger] head[k],
            p_num,
            p_values,
        ) by {
            assert(head[k] == suite[k]);
        }
        lemma_replayed(p_num, p_values, t_value, print_map, head);
        assert(is_test_case(suite[suite.len() - 1], p_num, p_values));
        lemma_lands(g.cover, p_num, p_values, t_value, last);
        assert(h == g.appended(last));
        assert(g.stamp() != 0);
        lemma_marked_covers(g.cover, g.combos, last, p_values as nat, g.stamp(), g.cover.len());
        lemma_marked_keeps(g.cover, g.combos, last, p_values as nat, g.stamp());
        lemma_gain_bound(g.cover, g.combos, last, p_values as nat, g.cover.len());
        assert(h.suite == suite);
        assert(has_width(h.cover, width)) by {
            assert forall|i: int| 0 <= i < h.cover.len() implies (#[trigger] h.cover[i]).len()
                == width by {
                assert(g.cover[i].len() == width);
            }
        }
        lemma_covered_bound(h.cover, width, rows);
        let w = g.weigh(last);
        assert(w <= rows);
        assert(h.weights == g.weights.push(w as usize));
        assert(h.weights.drop_last() == g.weights);
        assert(h.weights.last() == w);
        assert forall|k: int| 0 <= k < h.weights.len() implies #[trigger] h.weights[k]
            <= rows by {
            if k < g.weights.len() {
                assert(h.weights[k] == g.weights[k]);
            }
        }
    }
}

/// The accounting of a harmony: its fitness is the sum of its weights, and
/// its size is the length of its suite and of its list of weights.
pub proof fn lemma_accounting(h: HarmonyView)
    requires
        h.consistent(),
    ensures
        h.fitness == total(h.weights),
        h.size == h.suite.len(),
        h.size == h.weights.len(),
{
    lemma_replayed(h.p_num, h.p_values, h.t_value, h.print_map, h.suite);
}

/// The fitness of a harmony is the number of covered cells of its map, which
/// has a row for each subset of parameters and a cell for each assignment.
pub proof fn lemma_fitness_counts(h: HarmonyView)
    requires
        h.consistent(),
    ensures
        h.fitness == covered(h.cover),
        h.fitness <= h.target() <= usize::MAX,
        h.cover.len() == binomial(h.p_num as nat, h.t_value as nat),
        h.combos == combinations(h.p_num, h.t_value),
        has_width(h.cover, power(h.p_values as nat, h.t_value as nat)),
{
    lemma_replayed(h.p_num, h.p_values, h.t_value, h.print_map, h.suite);
}

/// A harmony has reached the full coverage target exactly when no cell of
/// its map is uncovered.
pub proof fn lemma_full_coverage(h: HarmonyView)
    requires
        h.consistent(),
    ensures
        h.fitness == h.target() <==> complete(h.cover),
{
    lemma_fitness_counts(h);
    let rows = binomial(h.p_num as nat, h.t_value as nat);
    let width = power(h.p_values as nat, h.t_value as nat);
    lemma_covered_bound(h.cover, width, rows);
    if h.fitness == h.target() {
        assert forall|i: int, j: int|
            0 <= i < h.cover.len() && 0 <= j < h.cover[i].len() implies #[trigger] h.cover[i][j]
            != 0 by {
            assert(h.cover[i].len() == width);
        }
    }
    if complete(h.cover) {
        assert forall|i: int, j: int| 0 <= i < rows && 0 <= j < width implies #[trigger] h.cover[i][j]
            != 0 by {
            assert(h.cover[i].len() == width);
        }
    }
}

/// No test case weighs more than there are subsets of parameters, so a
/// harmony of `size` test cases covers at most `size * C(p_num, t_value)` cells.
pub proof fn lemma_fitness_per_case(h: HarmonyView)
    requires
        h.consistent(),
    ensures
        forall|k: int|
            0 <= k < h.weights.len() ==> #[trigger] h.weights[k] <= binomial(
                h.p_num as nat,
                h.t_value as nat,
            ),
        h.fitness <= h.size * binomial(h.p_num as nat, h.t_value as nat),
{
    lemma_replayed(h.p_num, h.p_values, h.t_value, h.print_map, h.suite);
    lemma_total_bound(h.weights, binomial(h.p_num as nat, h.t_value as nat));
}

/// A harmony that covers every cell holds at least as many test cases as a
/// row has cells, `p_values^t_value`.
pub proof fn lemma_covering_size(h: HarmonyView)
    requires
        h.consistent(),
        h.fitness == h.target(),
    ensures
        h.size >= power(h.p_values as nat, h.t_value as nat),
{
    lemma_fitness_per_case(h);
    lemma_valid_space(h.p_num, h.p_values, h.t_value);
    let rows = binomial(h.p_num as nat, h.t_value as nat);
    let width = power(h.p_values as nat, h.t_value as nat);
    let size = h.size;
    assert(size >= width) by (nonlinear_arith)
        requires
            rows * width <= size * rows,
            rows >= 1,
    ;
}

/// A sum of weights, none above `bound`, is at most their number times `bound`.
pub proof fn lemma_total_bound(weights: Seq<usize>, bound: nat)
    requires
        forall|k: int| 0 <= k < weights.len() ==> #[trigger] weights[k] <= bound,
    ensures
        total(weights) <= weights.len() * bound,
    decreases weights.len(),
{
    if weights.len() > 0 {
        let head = weights.drop_last();
        assert forall|k: int| 0 <= k < head.len() implies #[trigger] head[k] <= bound by {
            assert(head[k] == weights[k]);
        }
        lemma_total_bound(head, bound);
        assert(weights.last() == weights[weights.len() - 1]);
        assert(weights.len() * bound == head.len() * bound + bound) by (nonlinear_arith)
            requires
                weights.len() == head.len() + 1,
        ;
    } else {
        assert(weights.len() * bound == 0) by (nonlinear_arith)
            requires
                weights.len() == 0,
        ;
    }
}

/// Against a blank map a test case weighs as much as there are subsets of
/// parameters.
pub proof fn lemma_first_weight(h: HarmonyView, test_case: Seq<usize>)
    requires
        h.consistent(),
        h.admits(test_case),
        h.size == 0,
    ensures
        h.fitness == 0,
        h.weigh(test_case) == binomial(h.p_num as nat, h.t_value as nat),
{
    lemma_replayed(h.p_num, h.p_values, h.t_value, h.print_map, h.suite);
    lemma_combinations(h.p_num, h.t_value);
    assert(h.suite =~= Seq::<Seq<usize>>::empty());
    assert(h == HarmonyView::blank(h.p_num, h.p_values, h.t_value, h.print_map));
    lemma_lands(h.cover, h.p_num, h.p_values, h.t_value, test_case);
    let width = power(h.p_values as nat, h.t_value as nat);
    assert forall|i: int| 0 <= i < h.cover.len() implies 0 <= #[trigger] hit(
        h.combos,
        test_case,
        h.p_values as nat,
        i,
    ) < width by {
        assert(h.cover[i].len() == width);
    }
    lemma_blank_gain(h.cover.len(), width, h.combos, test_case, h.p_values as nat, h.cover.len());
}

/// Against a blank map every row counts.
pub proof fn lemma_blank_gain(
    rows: nat,
    width: nat,
    combos: Seq<Seq<usize>>,
    test_case: Seq<usize>,
    base: nat,
    upto: nat,
)
    requires
        upto <= rows,
        forall|i: int| 0 <= i < rows ==> 0 <= #[trigger] hit(combos, test_case, base, i) < width,
    ensures
        gain_upto(blank(rows, width), combos, test_case, base, upto) == upto,
    decreases upto,
{
    if upto > 0 {
        lemma_blank_gain(rows, width, combos, test_case, base, (upto - 1) as nat);
        assert(0 <= hit(combos, test_case, base, upto - 1) < width);
    }
}

/// Keeping covered cells carries over a chain of changes, and a map keeps
/// its own.
pub proof fn lemma_keeps_chain(first: Seq<Seq<usize>>, second: Seq<Seq<usize>>, third: Seq<Seq<usize>>)
    requires
        keeps(first, second),
        keeps(second, third),
    ensures
        keeps(first, third),
        keeps(first, first),
{
    assert forall|i: int, j: int|
        0 <= i < first.len() && 0 <= j < first[i].len() && first[i][j] != 0 implies #[trigger] third[i][j]
        == first[i][j] by {
        assert(second[i].len() == first[i].len());
        assert(second[i][j] == first[i][j]);
    }
    assert forall|i: int| 0 <= i < first.len() implies (#[trigger] third[i]).len()
        == first[i].len() by {
        assert(second[i].len() == first[i].len());
    }
}

/// Appending a test case changes no covered cell, and neither does offering
/// one.
pub proof fn lemma_appended_keeps(h: HarmonyView, test_case: Seq<usize>)
    requires
        h.consistent(),
        h.admits(test_case),
    ensures
        keeps(h.cover, h.appended(test_case).cover),
        keeps(h.cover, h.admitted(test_case).cover),
        h.weigh(test_case) <= binomial(h.p_num as nat, h.t_value as nat),
{
    lemma_replayed(h.p_num, h.p_values, h.t_value, h.print_map, h.suite);
    lemma_combinations(h.p_num, h.t_value);
    lemma_lands(h.cover, h.p_num, h.p_values, h.t_value, test_case);
    lemma_marked_keeps(h.cover, h.combos, test_case, h.p_values as nat, h.stamp());
    lemma_gain_bound(h.cover, h.combos, test_case, h.p_values as nat, h.cover.len());
}

/// Over the life of a harmony no covered cell changes: what the first
/// `upto` test cases of a suite have covered, the whole suite covers with the
/// same stamps.
pub proof fn lemma_lifetime_keeps(
    p_num: usize,
    p_values: usize,
    t_value: usize,
    print_map: bool,
    suite: Seq<Seq<usize>>,
    upto: int,
)
    requires
        valid_space(p_num, p_values, t_value),
        forall|k: int| 0 <= k < suite.len() ==> is_test_case(#[trigger] suite[k], p_num, p_values),
        0 <= upto <= suite.len(),
    ensures
        keeps(
            HarmonyView::replayed(p_num, p_values, t_value, print_map, suite.take(upto)).cover,
            HarmonyView::replayed(p_num, p_values, t_value, print_map, suite).cover,
        ),
    decreases suite.len() - upto,
{
    let early = HarmonyView::replayed(p_num, p_values, t_value, print_map, suite.take(upto));
    if upto == suite.len() {
        assert(suite.take(upto) == suite);
        lemma_keeps_chain(early.cover, early.cover, early.cover);
    } else {
        let longer = suite.take(upto + 1);
        let next = HarmonyView::replayed(p_num, p_values, t_value, print_map, longer);
        assert(longer.drop_last() == suite.take(upto));
        assert(longer.last() == suite[upto]);
        assert forall|k: int| 0 <= k < upto implies is_test_case(
            #[trigger] suite.take(upto)[k],
            p_num,
            p_values,
        ) by {
            assert(suite.take(upto)[k] == suite[k]);
        }
        lemma_replayed(p_num, p_values, t_value, print_map, suite.take(upto));
        lemma_appended_keeps(early, suite[upto]);
        lemma_lifetime_keeps(p_num, p_values, t_value, print_map, suite, upto + 1);
        lemma_keeps_chain(
            early.cover,
            next.cover,
            HarmonyView::replayed(p_num, p_values, t_value, print_map, suite).cover,
        );
    }
}

/// Appending a test case to a harmony gives a harmony, in which every cell
/// that was covered holds what it held.
pub proof fn lemma_appended(h: HarmonyView, test_case: Seq<usize>)
    requires
        h.consistent(),
        h.admits(test_case),
    ensures
        h.appended(test_case).consistent(),
        h.appended(test_case).space() == h.space(),
        keeps(h.cover, h.appended(test_case).cover),
        h.weigh(test_case) <= binomial(h.p_num as nat, h.t_value as nat),
        h.fitness + h.weigh(test_case) <= h.target() <= usize::MAX,
{
    let next = h.suite.push(test_case);
    assert(next.drop_last() == h.suite);
    assert(next.last() == test_case);
    assert forall|k: int| 0 <= k < next.len() implies is_test_case(
        #[trigger] next[k],
        h.p_num,
        h.p_values,
    ) by {
        if k < h.suite.len() {
            assert(next[k] == h.suite[k]);
        }
    }
    lemma_replayed(h.p_num, h.p_values, h.t_value, h.print_map, h.suite);
    lemma_replayed(h.p_num, h.p_values, h.t_value, h.print_map, next);
    lemma_combinations(h.p_num, h.t_value);
    lemma_lands(h.cover, h.p_num, h.p_values, h.t_value, test_case);
    lemma_marked_keeps(h.cover, h.combos, test_case, h.p_values as nat, h.stamp());
    lemma_gain_bound(h.cover, h.combos, test_case, h.p_values as nat, h.cover.len());
    lemma_valid_space(h.p_num, h.p_values, h.t_value);
}

/// Offering a test case to a harmony gives a harmony of the same space that
/// is no smaller.
pub proof fn lemma_admitted(h: HarmonyView, test_case: Seq<usize>)
    requires
        h.consistent(),
        h.admits(test_case),
    ensures
        h.admitted(test_case).consistent(),
        h.admitted(test_case).space() == h.space(),
        h.admitted(test_case).size >= h.size,
{
    lemma_accounting(h);
    if h.weigh(test_case) != 0 {
        lemma_appended(h, test_case);
    }
}

/// Rebuilding a harmony with one test case exchanged gives a harmony of the
/// same space and size.
pub proof fn lemma_replaced(h: HarmonyView, index: int, test_case: Seq<usize>)
    requires
        h.consistent(),
        0 <= index < h.size,
        h.admits(test_case),
    ensures
        h.replaced(index, test_case).consistent(),
        h.replaced(index, test_case).space() == h.space(),
        h.replaced(index, test_case).size == h.size,
        h.replaced(index, test_case).suite == h.suite.update(index, test_case),
{
    lemma_accounting(h);
    let target = h.suite.update(index, test_case);
    assert forall|k: int| 0 <= k < target.len() implies h.admits(#[trigger] target[k]) by {
        if k != index {
            assert(target[k] == h.suite[k]);
        }
    }
    lemma_replayed(h.p_num, h.p_values, h.t_value, h.print_map, target);
}

} // verus!
