//! The coverage encoder: the list of parameter subsets in a fixed order, and
//! the index of a test case's values within one subset's row of cells.

use crate::counting::{binomial, power};
use itertools::Itertools;
use vstd::prelude::*;

verus! {

/// The rows of a vector of vectors, each as a sequence.
pub open spec fn nested(rows: Vec<Vec<usize>>) -> Seq<Seq<usize>> {
    Seq::new(rows@.len(), |i: int| rows@[i]@)
}

/// Each sequence of `tails` with `first` put in front of it.
pub open spec fn with_first(first: usize, tails: Seq<Seq<usize>>) -> Seq<Seq<usize>> {
    Seq::new(tails.len(), |i: int| seq![first] + tails[i])
}

/// The strictly increasing sequences of `k` positions taken from `lo..n`, in
/// lexicographic order: first those that start with `lo`, then the others.
pub open spec fn subsets_from(lo: usize, n: usize, k: nat) -> Seq<Seq<usize>>
    decreases n - lo,
{
    if k == 0 {
        seq![Seq::<usize>::empty()]
    } else if lo >= n {
        Seq::<Seq<usize>>::empty()
    } else {
        with_first(lo, subsets_from((lo + 1) as usize, n, (k - 1) as nat)) + subsets_from(
            (lo + 1) as usize,
            n,
            k,
        )
    }
}

/// The `k`-element subsets of the positions `0..n`, each in increasing order,
/// listed lexicographically.
pub open spec fn combinations(n: usize, k: usize) -> Seq<Seq<usize>> {
    subsets_from(0, n, k as nat)
}

/// `c` lists `k` positions of `lo..n` in strictly increasing order.
pub open spec fn is_subset(c: Seq<usize>, lo: usize, n: usize, k: nat) -> bool {
    &&& c.len() == k
    &&& forall|j: int| 0 <= j < c.len() ==> lo <= #[trigger] c[j] < n
    &&& forall|i: int, j: int| 0 <= i < j < c.len() ==> c[i] < c[j]
}

/// There are `C(n - lo, k)` subsets, and each is a subset.
pub proof fn lemma_subsets_from(lo: usize, n: usize, k: nat)
    requires
        lo <= n,
    ensures
        subsets_from(lo, n, k).len() == binomial((n - lo) as nat, k),
        forall|i: int|
            0 <= i < subsets_from(lo, n, k).len() ==> is_subset(
                #[trigger] subsets_from(lo, n, k)[i],
                lo,
                n,
                k,
            ),
    decreases n - lo,
{
    if k == 0 {
    } else if lo >= n {
    } else {
        let next = (lo + 1) as usize;
        let tails = subsets_from(next, n, (k - 1) as nat);
        let others = subsets_from(next, n, k);
        lemma_subsets_from(next, n, (k - 1) as nat);
        lemma_subsets_from(next, n, k);
        let all = subsets_from(lo, n, k);
        assert(all == with_first(lo, tails) + others);
        assert forall|i: int| 0 <= i < all.len() implies is_subset(#[trigger] all[i], lo, n, k) by {
            if i < tails.len() {
                let t = tails[i];
                assert(is_subset(t, next, n, (k - 1) as nat));
                let c = seq![lo] + t;
                assert(all[i] == c);
                assert forall|j: int| 0 <= j < c.len() implies lo <= #[trigger] c[j] < n by {
                    if j > 0 {
                        assert(c[j] == t[j - 1]);
                    }
                }
                assert forall|a: int, b: int| 0 <= a < b < c.len() implies c[a] < c[b] by {
                    assert(c[b] == t[b - 1]);
                    if a > 0 {
                        assert(c[a] == t[a - 1]);
                    }
                }
            } else {
                assert(all[i] == others[i - tails.len()]);
                assert(is_subset(others[i - tails.len()], next, n, k));
            }
        }
    }
}

/// `a` stands before `b` in lexicographic order: at the first position at
/// which they differ, `a` holds the smaller value.
pub open spec fn lex_before(a: Seq<usize>, b: Seq<usize>) -> bool {
    exists|at: int|
        0 <= at < a.len() && at < b.len() && a[at] < b[at] && #[trigger] a.take(at) == b.take(at)
}

/// The subsets are listed in lexicographic order, so that none comes twice.
pub proof fn lemma_subsets_in_order(lo: usize, n: usize, k: nat, i: int, j: int)
    requires
        lo <= n,
        0 <= i < j < subsets_from(lo, n, k).len(),
    ensures
        lex_before(subsets_from(lo, n, k)[i], subsets_from(lo, n, k)[j]),
    decreases n - lo,
{
    if k == 0 {
    } else if lo >= n {
    } else {
        let next = (lo + 1) as usize;
        let tails = subsets_from(next, n, (k - 1) as nat);
        let others = subsets_from(next, n, k);
        let all = subsets_from(lo, n, k);
        assert(all == with_first(lo, tails) + others);
        lemma_subsets_from(next, n, (k - 1) as nat);
        lemma_subsets_from(next, n, k);
        if j < tails.len() {
            lemma_subsets_in_order(next, n, (k - 1) as nat, i, j);
            let a = tails[i];
            let b = tails[j];
            let at = choose|at: int|
                0 <= at < a.len() && at < b.len() && a[at] < b[at] && #[trigger] a.take(at)
                    == b.take(at);
            let x = seq![lo] + a;
            let y = seq![lo] + b;
            assert(all[i] == x && all[j] == y);
            assert(x[at + 1] == a[at] && y[at + 1] == b[at]);
            assert(x.take(at + 1) =~= seq![lo] + a.take(at));
            assert(y.take(at + 1) =~= seq![lo] + b.take(at));
            assert(x.take(at + 1) == y.take(at + 1));
        } else if i < tails.len() {
            let x = seq![lo] + tails[i];
            let y = others[j - tails.len()];
            assert(all[i] == x && all[j] == y);
            assert(is_subset(y, next, n, k));
            assert(x[0] == lo);
            assert(y[0] >= next);
            assert(x.take(0) =~= y.take(0));
        } else {
            lemma_subsets_in_order(next, n, k, i - tails.len(), j - tails.len());
            assert(all[i] == others[i - tails.len()]);
            assert(all[j] == others[j - tails.len()]);
        }
    }
}

/// Every subset is in the list.
pub proof fn lemma_subsets_complete(c: Seq<usize>, lo: usize, n: usize, k: nat)
    requires
        is_subset(c, lo, n, k),
    ensures
        subsets_from(lo, n, k).contains(c),
    decreases n - lo,
{
    if k == 0 {
        assert(c =~= Seq::<usize>::empty());
        assert(subsets_from(lo, n, k)[0] == c);
    } else {
        assert(lo <= c[0] < n);
        let next = (lo + 1) as usize;
        let tails = subsets_from(next, n, (k - 1) as nat);
        let others = subsets_from(next, n, k);
        let all = subsets_from(lo, n, k);
        assert(all == with_first(lo, tails) + others);
        if c[0] == lo {
            let rest = c.skip(1);
            assert forall|j: int| 0 <= j < rest.len() implies next <= #[trigger] rest[j] < n by {
                assert(rest[j] == c[j + 1]);
                assert(c[0] < c[j + 1]);
            }
            assert forall|a: int, b: int| 0 <= a < b < rest.len() implies rest[a] < rest[b] by {
                assert(rest[a] == c[a + 1] && rest[b] == c[b + 1]);
            }
            lemma_subsets_complete(rest, next, n, (k - 1) as nat);
            let at = choose|at: int| 0 <= at < tails.len() && tails[at] == rest;
            assert(seq![lo] + rest =~= c);
            assert(all[at] == c);
        } else {
            assert forall|j: int| 0 <= j < c.len() implies next <= #[trigger] c[j] < n by {
                if j > 0 {
                    assert(c[0] < c[j]);
                }
            }
            lemma_subsets_complete(c, next, n, k);
            let at = choose|at: int| 0 <= at < others.len() && others[at] == c;
            assert(all[tails.len() + at] == c);
        }
    }
}

/// The list for `n` positions has `C(n, k)` entries, each a subset of `0..n`.
pub proof fn lemma_combinations(n: usize, k: usize)
    ensures
        combinations(n, k).len() == binomial(n as nat, k as nat),
        forall|i: int|
            0 <= i < combinations(n, k).len() ==> is_subset(
                #[trigger] combinations(n, k)[i],
                0,
                n,
                k as nat,
            ),
{
    lemma_subsets_from(0, n, k as nat);
}

/// The values of `test_case` at the positions of `combo`, read as the digits
/// of a number in base `base`, the first position being the most significant.
pub open spec fn encode(combo: Seq<usize>, test_case: Seq<usize>, base: nat) -> nat
    decreases combo.len(),
{
    if combo.len() == 0 {
        0
    } else {
        encode(combo.drop_last(), test_case, base) * base + test_case[combo.last() as int] as nat
    }
}

/// Every value that `combo` picks from `test_case` is a digit in base `base`.
pub open spec fn picks_digits(combo: Seq<usize>, test_case: Seq<usize>, base: nat) -> bool {
    forall|j: int|
        0 <= j < combo.len() ==> (#[trigger] combo[j]) < test_case.len() && test_case[combo[j] as int]
            < base
}

/// A number of `combo.len()` digits is below `base` to that power.
pub proof fn lemma_encode_bound(combo: Seq<usize>, test_case: Seq<usize>, base: nat)
    requires
        picks_digits(combo, test_case, base),
    ensures
        encode(combo, test_case, base) < power(base, combo.len()),
    decreases combo.len(),
{
    if combo.len() > 0 {
        let head = combo.drop_last();
        assert forall|j: int| 0 <= j < head.len() implies (#[trigger] head[j]) < test_case.len()
            && test_case[head[j] as int] < base by {
            assert(head[j] == combo[j]);
        }
        lemma_encode_bound(head, test_case, base);
        let e = encode(head, test_case, base);
        let d = test_case[combo.last() as int] as nat;
        let w = power(base, head.len());
        assert(combo[combo.len() - 1] == combo.last());
        assert(power(base, combo.len()) == base * w);
        assert(e * base + d < base * w) by (nonlinear_arith)
            requires
                e < w,
                d < base,
        ;
    }
}

/// The encoding is free of collisions: two test cases that get the same index
/// hold the same value at every position of `combo`.
pub proof fn lemma_encode_injective(
    combo: Seq<usize>,
    first: Seq<usize>,
    second: Seq<usize>,
    base: nat,
)
    requires
        picks_digits(combo, first, base),
        picks_digits(combo, second, base),
        encode(combo, first, base) == encode(combo, second, base),
    ensures
        forall|j: int|
            0 <= j < combo.len() ==> first[(#[trigger] combo[j]) as int] == second[combo[j] as int],
    decreases combo.len(),
{
    if combo.len() > 0 {
        let head = combo.drop_last();
        let last = combo.last() as int;
        assert(combo[combo.len() - 1] == combo.last());
        assert forall|j: int| 0 <= j < head.len() implies (#[trigger] head[j]) < first.len()
            && first[head[j] as int] < base && head[j] < second.len() && second[head[j] as int]
            < base by {
            assert(head[j] == combo[j]);
        }
        let a = encode(head, first, base);
        let b = encode(head, second, base);
        let x = first[last] as nat;
        let y = second[last] as nat;
        assert(a == b && x == y) by (nonlinear_arith)
            requires
                a * base + x == b * base + y,
                x < base,
                y < base,
        ;
        lemma_encode_injective(head, first, second, base);
        assert forall|j: int| 0 <= j < combo.len() implies first[(#[trigger] combo[j]) as int]
            == second[combo[j] as int] by {
            if j < head.len() {
                assert(head[j] == combo[j]);
            }
        }
    }
}

/// The index of `test_case` within the row of cells that belongs to `combo`.
pub fn encode_index(combo: &Vec<usize>, test_case: &Vec<usize>, p_values: usize) -> (index: usize)
    requires
        picks_digits(combo@, test_case@, p_values as nat),
        power(p_values as nat, combo@.len()) <= usize::MAX,
    ensures
        index == encode(combo@, test_case@, p_values as nat),
        index < power(p_values as nat, combo@.len()),
{
    let mut index: usize = 0;
    let mut j: usize = 0;
    while j < combo.len()
        invariant
            j <= combo.len(),
            picks_digits(combo@, test_case@, p_values as nat),
            power(p_values as nat, combo@.len()) <= usize::MAX,
            index == encode(combo@.take(j as int), test_case@, p_values as nat),
            index < power(p_values as nat, j as nat),
        decreases combo.len() - j,
    {
        let digit = test_case[combo[j]];
        proof {
            let head = combo@.take(j as int);
            let more = combo@.take(j + 1);
            assert(more.drop_last() == head);
            assert(more.last() == combo@[j as int]);
            let w = power(p_values as nat, j as nat);
            assert(power(p_values as nat, (j + 1) as nat) == p_values * w);
            assert(index * p_values + digit < p_values * w) by (nonlinear_arith)
                requires
                    index < w,
                    digit < p_values,
            ;
            crate::counting::lemma_power_grows(p_values as nat, (j + 1) as nat, combo@.len());
            assert(index * p_values <= index * p_values + digit);
        }
        index = index * p_values + digit;
        j = j + 1;
    }
    proof {
        assert(combo@.take(combo@.len() as int) == combo@);
    }
    index
}

/// The subsets of `k` out of `n` positions, from `Itertools::combinations`
/// applied to the range `0..n` and collected.
///
/// Trusted, not proved: the adaptor yields every subset once, each with its
/// positions in increasing order, and goes from one to the next in
/// lexicographic order, so that the collected list is `combinations(n, k)`.
/// The number of subsets must fit a `usize`: where it does not, the adaptor
/// hints at `usize::MAX` items and collecting asks for as many. Where the
/// list takes more memory than the machine has, the allocation fails and
/// the process ends, as with any vector; nothing is stated of that.
#[verifier::external_body]
pub(crate) fn index_combinations(n: usize, k: usize) -> (subsets: Vec<Vec<usize>>)
    requires
        binomial(n as nat, k as nat) <= usize::MAX,
    ensures
        nested(subsets) == combinations(n, k),
{
    (0..n).combinations(k).collect()
}

} // verus!
