//! Laying out token rows of unequal length as one rectangular batch, the
//! shape in which a sequence model takes its input.

use vstd::prelude::*;

verus! {

/// The cell at row `i`, column `j` of the batch laid out from `rows`: the
/// row's own token where it has one there, and zero beyond its end.
pub open spec fn cell(rows: Seq<Vec<u32>>, i: int, j: int) -> i64 {
    if j < rows[i].len() {
        rows[i][j] as i64
    } else {
        0
    }
}

/// `cells` holds `rows` row after row, each filled up with zeros to `width`
/// cells.
pub open spec fn is_padded(cells: Seq<i64>, rows: Seq<Vec<u32>>, width: nat) -> bool {
    &&& cells.len() == rows.len() * width
    &&& forall|i: int, j: int|
        0 <= i < rows.len() && 0 <= j < width ==> cells[i * width + j] == #[trigger] cell(
            rows,
            i,
            j,
        )
}

/// No row is longer than `width`.
pub open spec fn rows_fit(rows: Seq<Vec<u32>>, width: nat) -> bool {
    forall|i: int| 0 <= i < rows.len() ==> (#[trigger] rows[i]).len() <= width
}

/// A cell of an earlier row lies before the start of a later row.
proof fn lemma_cell_before_row(a: int, b: int, i: int, width: int)
    requires
        0 <= a < i,
        0 <= b < width,
    ensures
        0 <= a * width + b < i * width,
{
    assert(a * width + b < i * width) by (nonlinear_arith)
        requires
            0 <= a < i,
            0 <= b < width,
    ;
    assert(0 <= a * width) by (nonlinear_arith)
        requires
            0 <= a,
            0 <= width,
    ;
}

/// The length of the longest row, and zero where there is none.
pub fn longest_row(rows: &Vec<Vec<u32>>) -> (width: usize)
    ensures
        rows_fit(rows@, width as nat),
        rows.len() == 0 ==> width == 0,
        rows.len() > 0 ==> exists|i: int| 0 <= i < rows.len() && (#[trigger] rows[i]).len() == width,
{
    let mut width: usize = 0;
    let mut i: usize = 0;
    while i < rows.len()
        invariant
            i <= rows.len(),
            forall|a: int| 0 <= a < i ==> (#[trigger] rows[a]).len() <= width,
            i == 0 ==> width == 0,
            i > 0 ==> exists|a: int| 0 <= a < i && (#[trigger] rows[a]).len() == width,
        decreases rows.len() - i,
    {
        if rows[i].len() > width {
            width = rows[i].len();
        }
        i = i + 1;
    }
    width
}

/// Lays the rows out one after another, each filled up with zeros to `width`
/// cells. There is no layout where a row is longer than `width`, or where the
/// batch has more cells than the machine can count.
pub fn pad_rows(rows: &Vec<Vec<u32>>, width: usize) -> (cells: Option<Vec<i64>>)
    ensures
        cells is Some <==> rows_fit(rows@, width as nat) && rows.len() * width <= usize::MAX,
        cells matches Some(laid) ==> is_padded(laid@, rows@, width as nat),
{
    let total = match rows.len().checked_mul(width) {
        Some(total) => total,
        None => {
            return None;
        },
    };
    let mut checked: usize = 0;
    while checked < rows.len()
        invariant
            checked <= rows.len(),
            forall|a: int| 0 <= a < checked ==> (#[trigger] rows[a]).len() <= width,
        decreases rows.len() - checked,
    {
        if rows[checked].len() > width {
            return None;
        }
        checked = checked + 1;
    }
    let mut cells: Vec<i64> = Vec::with_capacity(total);
    let mut i: usize = 0;
    while i < rows.len()
        invariant
            i <= rows.len(),
            total == rows.len() * width,
            rows_fit(rows@, width as nat),
            cells.len() == i * width,
            forall|a: int, b: int|
                0 <= a < i && 0 <= b < width ==> cells[a * width + b] == #[trigger] cell(
                    rows@,
                    a,
                    b,
                ),
        decreases rows.len() - i,
    {
        let row = &rows[i];
        let mut j: usize = 0;
        proof {
            assert(i * width + width <= rows.len() * width) by (nonlinear_arith)
                requires
                    i < rows.len(),
                    0 <= width,
            ;
        }
        while j < width
            invariant
                i < rows.len(),
                j <= width,
                row == rows[i as int],
                i * width + width <= usize::MAX,
                cells.len() == i * width + j,
                forall|a: int, b: int|
                    0 <= a < i && 0 <= b < width ==> cells[a * width + b] == #[trigger] cell(
                        rows@,
                        a,
                        b,
                    ),
                forall|b: int| 0 <= b < j ==> cells[i * width + b] == #[trigger] cell(rows@, i as int, b),
            decreases width - j,
        {
            let ghost before = cells@;
            let value: i64 = if j < row.len() {
                row[j] as i64
            } else {
                0
            };
            cells.push(value);
            proof {
                assert forall|a: int, b: int| 0 <= a < i && 0 <= b < width implies cells[a * width
                    + b] == #[trigger] cell(rows@, a, b) by {
                    lemma_cell_before_row(a, b, i as int, width as int);
                    assert(cells[a * width + b] == before[a * width + b]);
                }
            }
            j = j + 1;
        }
        proof {
            assert((i + 1) * width == i * width + width) by (nonlinear_arith);
            assert forall|a: int, b: int| 0 <= a < i + 1 && 0 <= b < width implies cells[a * width
                + b] == #[trigger] cell(rows@, a, b) by {
                if a < i {
                }
            }
        }
        i = i + 1;
    }
    Some(cells)
}

} // verus!
