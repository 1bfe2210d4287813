//! Grouping of trials by the grid cell their first two parameters fall in.
use vstd::prelude::*;

verus! {

/// The occupied cells of a grid and, for each trial, the cell it landed in.
pub struct Binning {
    /// Each occupied cell once, in the order in which a trial first landed there.
    pub cells: Vec<(u64, u64)>,
    /// For each trial, the index in `cells` of its cell.
    pub cell_of: Vec<usize>,
}

/// Whether `cells` holds no cell twice.
pub open spec fn distinct_cells(cells: Seq<(u64, u64)>) -> bool {
    forall|a: int, b: int| 0 <= a < b < cells.len() ==> cells[a] != cells[b]
}

/// Whether some trial points at cell `k`.
pub open spec fn occupied(cell_of: Seq<usize>, k: int) -> bool {
    exists|i: int| 0 <= i < cell_of.len() && cell_of[i] == k
}

/// Whether `b` groups the trials whose cells are `landed`: every trial points
/// at its own cell, each cell appears once, and each has a trial in it.
pub open spec fn groups(b: Binning, landed: Seq<(u64, u64)>) -> bool {
    &&& b.cell_of@.len() == landed.len()
    &&& distinct_cells(b.cells@)
    &&& forall|i: int|
        0 <= i < landed.len() ==> #[trigger] b.cell_of@[i] < b.cells@.len() && b.cells@[b.cell_of@[i] as int]
            == landed[i]
    &&& forall|k: int| 0 <= k < b.cells@.len() ==> #[trigger] occupied(b.cell_of@, k)
}

/// Groups trials by the cell each landed in (`landed[i]` for trial `i`).
pub fn bin_cells(landed: &Vec<(u64, u64)>) -> (r: Binning)
    ensures
        groups(r, landed@),
{
    let mut cells: Vec<(u64, u64)> = Vec::new();
    let mut cell_of: Vec<usize> = Vec::new();
    let n = landed.len();
    let mut i: usize = 0;
    while i < n
        invariant
            n == landed@.len(),
            i <= n,
            cell_of@.len() == i,
            distinct_cells(cells@),
            forall|j: int|
                0 <= j < i ==> #[trigger] cell_of@[j] < cells@.len() && cells@[cell_of@[j] as int]
                    == landed@[j],
            forall|k: int| 0 <= k < cells@.len() ==> #[trigger] occupied(cell_of@, k),
        decreases n - i,
    {
        let c = landed[i];
        let mut k: usize = 0;
        let mut found = false;
        while k < cells.len() && !found
            invariant
                k <= cells@.len(),
                found ==> k < cells@.len() && cells@[k as int] == c,
                !found ==> forall|m: int| 0 <= m < k ==> cells@[m] != c,
            decreases cells@.len() - k + (if found { 0int } else { 1int }),
        {
            if cells[k].0 == c.0 && cells[k].1 == c.1 {
                found = true;
            } else {
                k = k + 1;
            }
        }
        let ghost before = cells@;
        let ghost owners = cell_of@;
        if !found {
            cells.push(c);
            assert forall|a: int, b: int| 0 <= a < b < cells@.len() implies cells@[a] != cells@[b] by {
                if b < before.len() {
                    assert(cells@[a] == before[a] && cells@[b] == before[b]);
                }
            }
        }
        cell_of.push(k);
        assert forall|j: int| 0 <= j <= i implies #[trigger] cell_of@[j] < cells@.len() && cells@[cell_of@[j] as int]
            == landed@[j] by {
            if j < i {
                assert(cell_of@[j] == owners[j]);
            }
        }
        assert forall|m: int| 0 <= m < cells@.len() implies #[trigger] occupied(cell_of@, m) by {
            if m < before.len() {
                assert(occupied(owners, m));
                let j = choose|j: int| 0 <= j < owners.len() && owners[j] == m;
                assert(cell_of@[j] == owners[j]);
            } else {
                assert(cell_of@[i as int] == m);
            }
        }
        i = i + 1;
    }
    Binning { cells, cell_of }
}

} // verus!
