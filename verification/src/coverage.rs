//! The coverage map as a mathematical object: rows of cells, what a test
//! case adds to them, and how many cells are covered.

use crate::encoder::encode;
use vstd::prelude::*;

verus! {

/// A map of `rows` rows of `width` uncovered cells.
pub open spec fn blank(rows: nat, width: nat) -> Seq<Seq<usize>> {
    Seq::new(rows, |i: int| Seq::new(width, |j: int| 0usize))
}

/// Every row of `map` has `width` cells.
pub open spec fn has_width(map: Seq<Seq<usize>>, width: nat) -> bool {
    forall|i: int| 0 <= i < map.len() ==> (#[trigger] map[i]).len() == width
}

/// The cell of row `row` that `test_case` exercises.
pub open spec fn hit(combos: Seq<Seq<usize>>, test_case: Seq<usize>, base: nat, row: int) -> int {
    encode(combos[row], test_case, base) as int
}

/// `test_case` exercises one cell within each row of `map`.
pub open spec fn lands(
    map: Seq<Seq<usize>>,
    combos: Seq<Seq<usize>>,
    test_case: Seq<usize>,
    base: nat,
) -> bool {
    &&& map.len() == combos.len()
    &&& forall|i: int| 0 <= i < map.len() ==> #[trigger] hit(combos, test_case, base, i) < map[i].len()
}

/// The row with `cell` stamped, unless that cell was covered before.
pub open spec fn mark_row(row: Seq<usize>, cell: int, stamp: usize) -> Seq<usize> {
    if row[cell] == 0 {
        row.update(cell, stamp)
    } else {
        row
    }
}

/// The map after `test_case` has been committed to it with `stamp`.
pub open spec fn marked(
    map: Seq<Seq<usize>>,
    combos: Seq<Seq<usize>>,
    test_case: Seq<usize>,
    base: nat,
    stamp: usize,
) -> Seq<Seq<usize>> {
    Seq::new(map.len(), |i: int| mark_row(map[i], hit(combos, test_case, base, i), stamp))
}

/// Among the first `rows` rows, the number in which `test_case` exercises an
/// uncovered cell.
pub open spec fn gain_upto(
    map: Seq<Seq<usize>>,
    combos: Seq<Seq<usize>>,
    test_case: Seq<usize>,
    base: nat,
    rows: nat,
) -> nat
    decreases rows,
{
    if rows == 0 {
        0
    } else {
        let i = rows - 1;
        gain_upto(map, combos, test_case, base, i as nat) + if map[i][hit(
            combos,
            test_case,
            base,
            i,
        )] == 0 {
            1nat
        } else {
            0nat
        }
    }
}

/// The weight of `test_case` against `map`: the number of cells that it
/// would newly cover.
pub open spec fn gain(
    map: Seq<Seq<usize>>,
    combos: Seq<Seq<usize>>,
    test_case: Seq<usize>,
    base: nat,
) -> nat {
    gain_upto(map, combos, test_case, base, map.len())
}

/// The number of covered cells of one row.
pub open spec fn filled(row: Seq<usize>) -> nat
    decreases row.len(),
{
    if row.len() == 0 {
        0
    } else {
        filled(row.drop_last()) + if row.last() != 0 {
            1nat
        } else {
            0nat
        }
    }
}

/// The number of covered cells of the first `rows` rows.
pub open spec fn covered_upto(map: Seq<Seq<usize>>, rows: nat) -> nat
    decreases rows,
{
    if rows == 0 {
        0
    } else {
        covered_upto(map, (rows - 1) as nat) + filled(map[rows - 1])
    }
}

/// The number of covered cells of the map.
pub open spec fn covered(map: Seq<Seq<usize>>) -> nat {
    covered_upto(map, map.len())
}

/// No cell of the map is uncovered.
pub open spec fn complete(map: Seq<Seq<usize>>) -> bool {
    forall|i: int, j: int| 0 <= i < map.len() && 0 <= j < map[i].len() ==> #[trigger] map[i][j] != 0
}

/// A cell that was covered in `before` holds the same stamp in `after`.
pub open spec fn keeps(before: Seq<Seq<usize>>, after: Seq<Seq<usize>>) -> bool {
    &&& after.len() == before.len()
    &&& forall|i: int|
        0 <= i < before.len() ==> (#[trigger] after[i]).len() == before[i].len()
    &&& forall|i: int, j: int|
        0 <= i < before.len() && 0 <= j < before[i].len() && before[i][j] != 0 ==> #[trigger] after[i][j]
            == before[i][j]
}

/// A weight is at most the number of rows.
pub proof fn lemma_gain_bound(
    map: Seq<Seq<usize>>,
    combos: Seq<Seq<usize>>,
    test_case: Seq<usize>,
    base: nat,
    rows: nat,
)
    ensures
        gain_upto(map, combos, test_case, base, rows) <= rows,
    decreases rows,
{
    if rows > 0 {
        lemma_gain_bound(map, combos, test_case, base, (rows - 1) as nat);
    }
}

/// Stamping an uncovered cell covers one cell more.
pub proof fn lemma_filled_update(row: Seq<usize>, cell: int, stamp: usize)
    requires
        0 <= cell < row.len(),
        row[cell] == 0,
        stamp != 0,
    ensures
        filled(row.update(cell, stamp)) == filled(row) + 1,
    decreases row.len(),
{
    let after = row.update(cell, stamp);
    if cell == row.len() - 1 {
        assert(after.drop_last() == row.drop_last());
    } else {
        lemma_filled_update(row.drop_last(), cell, stamp);
        assert(after.drop_last() == row.drop_last().update(cell, stamp));
    }
}

/// A row has no more covered cells than cells, and as many exactly when none
/// is uncovered.
pub proof fn lemma_filled_bound(row: Seq<usize>)
    ensures
        filled(row) <= row.len(),
        filled(row) == row.len() <==> forall|j: int| 0 <= j < row.len() ==> #[trigger] row[j] != 0,
    decreases row.len(),
{
    if row.len() > 0 {
        let head = row.drop_last();
        lemma_filled_bound(head);
        if filled(row) == row.len() {
            assert forall|j: int| 0 <= j < row.len() implies #[trigger] row[j] != 0 by {
                if j < head.len() {
                    assert(head[j] == row[j]);
                }
            }
        }
        if forall|j: int| 0 <= j < row.len() ==> #[trigger] row[j] != 0 {
            assert forall|j: int| 0 <= j < head.len() implies #[trigger] head[j] != 0 by {
                assert(head[j] == row[j]);
            }
            assert(row.last() == row[row.len() - 1]);
        }
    }
}

/// Committing a test case covers exactly as many cells more as its weight.
pub proof fn lemma_marked_covers(
    map: Seq<Seq<usize>>,
    combos: Seq<Seq<usize>>,
    test_case: Seq<usize>,
    base: nat,
    stamp: usize,
    rows: nat,
)
    requires
        lands(map, combos, test_case, base),
        stamp != 0,
        rows <= map.len(),
    ensures
        covered_upto(marked(map, combos, test_case, base, stamp), rows) == covered_upto(map, rows)
            + gain_upto(map, combos, test_case, base, rows),
    decreases rows,
{
    if rows > 0 {
        let i = rows - 1;
        lemma_marked_covers(map, combos, test_case, base, stamp, i as nat);
        let cell = hit(combos, test_case, base, i);
        assert(marked(map, combos, test_case, base, stamp)[i] == mark_row(map[i], cell, stamp));
        if map[i][cell] == 0 {
            lemma_filled_update(map[i], cell, stamp);
        }
    }
}

/// Committing a test case changes no covered cell and no row's width.
pub proof fn lemma_marked_keeps(
    map: Seq<Seq<usize>>,
    combos: Seq<Seq<usize>>,
    test_case: Seq<usize>,
    base: nat,
    stamp: usize,
)
    requires
        lands(map, combos, test_case, base),
    ensures
        keeps(map, marked(map, combos, test_case, base, stamp)),
{
    let after = marked(map, combos, test_case, base, stamp);
    assert forall|i: int| 0 <= i < map.len() implies (#[trigger] after[i]).len() == map[i].len() by {
        assert(hit(combos, test_case, base, i) < map[i].len());
    }
    assert forall|i: int, j: int|
        0 <= i < map.len() && 0 <= j < map[i].len() && map[i][j] != 0 implies #[trigger] after[i][j]
        == map[i][j] by {
        assert(hit(combos, test_case, base, i) < map[i].len());
    }
}

/// A map of rows of one width has no more covered cells than cells, counted
/// over its first `rows` rows, and as many exactly when none is uncovered.
pub proof fn lemma_covered_bound(map: Seq<Seq<usize>>, width: nat, rows: nat)
    requires
        has_width(map, width),
        rows <= map.len(),
    ensures
        covered_upto(map, rows) <= rows * width,
        covered_upto(map, rows) == rows * width <==> forall|i: int, j: int|
            0 <= i < rows && 0 <= j < width ==> #[trigger] map[i][j] != 0,
    decreases rows,
{
    if rows > 0 {
        let i = rows - 1;
        lemma_covered_bound(map, width, i as nat);
        lemma_filled_bound(map[i]);
        assert(map[i].len() == width);
        assert(rows * width == i * width + width) by (nonlinear_arith)
            requires
                rows == i + 1,
        ;
        if covered_upto(map, rows) == rows * width {
            assert(filled(map[i]) == width);
            assert(covered_upto(map, i as nat) == i * width);
            assert forall|a: int, b: int| 0 <= a < rows && 0 <= b < width implies #[trigger] map[a][b]
                != 0 by {
                if a == i {
                    assert(map[i][b] != 0);
                }
            }
        }
        if forall|a: int, b: int| 0 <= a < rows && 0 <= b < width ==> #[trigger] map[a][b] != 0 {
            assert forall|b: int| 0 <= b < map[i].len() implies #[trigger] map[i][b] != 0 by {
                assert(map[i][b] != 0);
            }
            assert(forall|a: int, b: int| 0 <= a < i && 0 <= b < width ==> #[trigger] map[a][b] != 0);
        }
    } else {
        assert(rows * width == 0) by (nonlinear_arith)
            requires
                rows == 0,
        ;
    }
}

/// A blank map has no covered cell.
pub proof fn lemma_blank_covered(rows: nat, width: nat, upto: nat)
    requires
        upto <= rows,
    ensures
        covered_upto(blank(rows, width), upto) == 0,
    decreases upto,
{
    if upto > 0 {
        lemma_blank_covered(rows, width, (upto - 1) as nat);
        lemma_blank_row(width, width);
        assert(blank(rows, width)[upto - 1] == Seq::new(width, |j: int| 0usize));
    }
}

/// A row of uncovered cells has no covered cell.
pub proof fn lemma_blank_row(width: nat, upto: nat)
    requires
        upto <= width,
    ensures
        filled(Seq::new(width, |j: int| 0usize).take(upto as int)) == 0,
        upto == width ==> filled(Seq::new(width, |j: int| 0usize)) == 0,
    decreases upto,
{
    let row = Seq::new(width, |j: int| 0usize);
    if upto > 0 {
        lemma_blank_row(width, (upto - 1) as nat);
        assert(row.take(upto as int).drop_last() == row.take(upto - 1));
    }
    if upto == width {
        assert(row.take(width as int) == row);
    }
}

} // verus!
