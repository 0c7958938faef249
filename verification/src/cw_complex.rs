//! CW complexes: cell attachment and cellular homology.

use vstd::prelude::*;
use crate::chain_complex::{ChainComplex, HomologyGroup, homology_fits, is_computed_homology, is_homology, rank_at};
use crate::euler::{betti_sum, betti_sum_fits};
use crate::matrix::{Mat, ZMatrix, row_major, zero_mat};
use crate::text::{decimal, push_decimal};

verus! {

/// A cell in a CW complex.
#[derive(Clone, Debug)]
pub struct Cell {
    /// Dimension of the cell.
    pub dimension: usize,
    /// Label/identifier.
    pub label: String,
}

/// A CW complex.
#[derive(Clone, Debug)]
pub struct CWComplex {
    /// Cells indexed by dimension.
    cells: Vec<Vec<Cell>>,
    /// Attaching maps encoded as boundary matrices.
    /// attaching[k] is the matrix for the boundary of (k+1)-cells -> k-cells.
    attaching_maps: Vec<ZMatrix>,
    /// Name.
    pub name: String,
}

/// The cells of dimension `k` (none beyond the listed dimensions).
pub open spec fn cells_at(levels: Seq<Seq<Cell>>, k: int) -> Seq<Cell> {
    if 0 <= k < levels.len() { levels[k] } else { seq![] }
}

/// The highest dimension below `n` that has a cell (0 where none has).
pub open spec fn top_cell_dim(levels: Seq<Seq<Cell>>, n: nat) -> nat
    decreases n,
{
    if n == 0 {
        0
    } else if levels[n - 1].len() > 0 {
        (n - 1) as nat
    } else {
        top_cell_dim(levels, (n - 1) as nat)
    }
}

/// The dimension of the complex: its highest dimension with a cell.
pub open spec fn cw_dimension(levels: Seq<Seq<Cell>>) -> nat {
    top_cell_dim(levels, levels.len())
}

/// The number of cells of each dimension up to the dimension of the complex.
pub open spec fn cw_ranks(levels: Seq<Seq<Cell>>) -> Seq<usize> {
    Seq::new(cw_dimension(levels) + 1, |k: int| cells_at(levels, k).len() as usize)
}

/// The cellular boundary maps `d_1, ..., d_dim`: the attaching map where one
/// is set, else the zero map between the cell groups.
pub open spec fn cw_maps(levels: Seq<Seq<Cell>>, maps: Seq<Mat>) -> Seq<Mat> {
    Seq::new(cw_dimension(levels), |k: int|
        if k < maps.len() {
            maps[k]
        } else {
            zero_mat(cells_at(levels, k).len(), cells_at(levels, k + 1).len())
        })
}

/// The cells of dimension `k` are labelled `labels[k]`, in order.
pub open spec fn cells_labelled(levels: Seq<Seq<Cell>>, labels: Seq<Seq<Seq<char>>>) -> bool {
    &&& levels.len() == labels.len()
    &&& forall|k: int| 0 <= k < levels.len() ==> (#[trigger] levels[k]).len() == labels[k].len()
    &&& forall|k: int, i: int| 0 <= k < levels.len() && 0 <= i < levels[k].len() ==> {
        &&& (#[trigger] levels[k][i]).dimension == k
        &&& levels[k][i].label@ == labels[k][i]
    }
}

impl CWComplex {
    /// The cells of each dimension, in the order they were added.
    pub closed spec fn cell_levels(&self) -> Seq<Seq<Cell>> {
        Seq::new(self.cells@.len(), |k: int| self.cells@[k]@)
    }

    /// The attaching maps set so far, as matrices.
    pub closed spec fn maps(&self) -> Seq<Mat> {
        Seq::new(self.attaching_maps@.len(), |k: int| self.attaching_maps@[k]@)
    }

    /// The name of the complex.
    pub closed spec fn name_view(&self) -> Seq<char> {
        self.name@
    }

    /// Create an empty CW complex.
    pub fn new(name: &str) -> (cw: Self)
        ensures
            cw.cell_levels().len() == 0,
            cw.maps().len() == 0,
            cw.name_view() == name@,
    {
        CWComplex { cells: Vec::new(), attaching_maps: Vec::new(), name: String::from_str(name) }
    }

    /// Add a cell of given dimension.
    pub fn add_cell(&mut self, dim: usize, label: &str)
        requires
            dim < usize::MAX,
        ensures
            final(self).cell_levels().len() == if old(self).cell_levels().len() > dim {
                old(self).cell_levels().len()
            } else {
                (dim + 1) as nat
            },
            forall|k: int| 0 <= k < final(self).cell_levels().len() && k != dim ==>
                #[trigger] final(self).cell_levels()[k] == cells_at(old(self).cell_levels(), k),
            final(self).cell_levels()[dim as int].len() == cells_at(old(self).cell_levels(), dim as int).len() + 1,
            final(self).cell_levels()[dim as int].drop_last() == cells_at(old(self).cell_levels(), dim as int),
            final(self).cell_levels()[dim as int].last().dimension == dim,
            final(self).cell_levels()[dim as int].last().label@ == label@,
            final(self).maps() == old(self).maps(),
            final(self).name_view() == old(self).name_view(),
    {
        let ghost old_levels = self.cell_levels();
        while self.cells.len() <= dim
            invariant
                dim < usize::MAX,
                self.cells@.len() == if old_levels.len() > self.cells@.len() { old_levels.len() } else { self.cells@.len() },
                self.cells@.len() <= dim + 1 || self.cells@.len() == old_levels.len(),
                forall|k: int| 0 <= k < self.cells@.len() ==> #[trigger] self.cells@[k]@ == cells_at(old_levels, k),
                self.maps() == old(self).maps(),
                self.name_view() == old(self).name_view(),
            decreases dim + 1 - self.cells.len(),
        {
            let ghost before = self.cells@;
            self.cells.push(Vec::new());
            assert forall|k: int| 0 <= k < self.cells@.len() implies #[trigger] self.cells@[k]@ == cells_at(old_levels, k) by {
                if k < before.len() {
                    assert(self.cells@[k] == before[k]);
                }
            }
        }
        let ghost mid = self.cells@;
        let mut level = self.cells.remove(dim);
        level.push(Cell { dimension: dim, label: String::from_str(label) });
        self.cells.insert(dim, level);
        proof {
            assert forall|k: int| 0 <= k < self.cell_levels().len() && k != dim implies
                #[trigger] self.cell_levels()[k] == cells_at(old_levels, k) by {
                assert(self.cells@[k] == mid[k]);
            }
            assert(self.cell_levels()[dim as int].drop_last() =~= cells_at(old_levels, dim as int));
        }
    }

    /// Set the attaching map for dimension k+1 -> k.
    pub fn set_attaching_map(&mut self, k: usize, map: ZMatrix)
        requires
            k < usize::MAX,
        ensures
            final(self).maps().len() == if old(self).maps().len() > k { old(self).maps().len() } else { (k + 1) as nat },
            final(self).maps()[k as int] == map@,
            forall|i: int| 0 <= i < final(self).maps().len() && i != k ==> #[trigger] final(self).maps()[i]
                == if i < old(self).maps().len() { old(self).maps()[i] } else { zero_mat(0, 0) },
            final(self).cell_levels() == old(self).cell_levels(),
            final(self).name_view() == old(self).name_view(),
    {
        let ghost old_maps = self.maps();
        while self.attaching_maps.len() <= k
            invariant
                k < usize::MAX,
                self.attaching_maps@.len() == if old_maps.len() > self.attaching_maps@.len() {
                    old_maps.len()
                } else {
                    self.attaching_maps@.len()
                },
                self.attaching_maps@.len() <= k + 1 || self.attaching_maps@.len() == old_maps.len(),
                forall|i: int| 0 <= i < self.attaching_maps@.len() ==> #[trigger] self.attaching_maps@[i]@
                    == if i < old_maps.len() { old_maps[i] } else { zero_mat(0, 0) },
                self.cell_levels() == old(self).cell_levels(),
                self.name_view() == old(self).name_view(),
            decreases k + 1 - self.attaching_maps.len(),
        {
            let ghost before = self.attaching_maps@;
            self.attaching_maps.push(ZMatrix::zeros(0, 0));
            assert forall|i: int| 0 <= i < self.attaching_maps@.len() implies #[trigger] self.attaching_maps@[i]@
                == if i < old_maps.len() { old_maps[i] } else { zero_mat(0, 0) } by {
                if i < before.len() {
                    assert(self.attaching_maps@[i] == before[i]);
                }
            }
        }
        let ghost mid = self.attaching_maps@;
        self.attaching_maps.set(k, map);
        proof {
            assert forall|i: int| 0 <= i < self.maps().len() && i != k implies #[trigger] self.maps()[i]
                == if i < old_maps.len() { old_maps[i] } else { zero_mat(0, 0) } by {
                assert(self.attaching_maps@[i] == mid[i]);
            }
        }
    }

    /// Number of cells in dimension k.
    pub fn num_cells(&self, k: usize) -> (n: usize)
        ensures
            n == cells_at(self.cell_levels(), k as int).len(),
    {
        if k < self.cells.len() {
            self.cells[k].len()
        } else {
            0
        }
    }

    /// Dimension of the complex: the highest dimension with a cell (0 where
    /// there is no cell).
    pub fn dimension(&self) -> (d: usize)
        ensures
            d == cw_dimension(self.cell_levels()),
            d < usize::MAX,
    {
        let ghost levels = self.cell_levels();
        let mut k = self.cells.len();
        while k > 0
            invariant
                k <= self.cells@.len(),
                levels == self.cell_levels(),
                top_cell_dim(levels, levels.len()) == top_cell_dim(levels, k as nat),
            decreases k,
        {
            if self.cells[k - 1].len() > 0 {
                return k - 1;
            }
            k -= 1;
        }
        0
    }

    /// Build the cellular chain complex.
    pub fn chain_complex(&self) -> (c: ChainComplex)
        ensures
            c.ranks@ == cw_ranks(self.cell_levels()),
            c.maps_view() == cw_maps(self.cell_levels(), self.maps()),
    {
        let max_dim = self.dimension();
        let ghost target_ranks = cw_ranks(self.cell_levels());
        let ghost target_maps = cw_maps(self.cell_levels(), self.maps());
        let mut ranks: Vec<usize> = Vec::new();
        for k in 0..max_dim + 1
            invariant
                max_dim == cw_dimension(self.cell_levels()),
                target_ranks == cw_ranks(self.cell_levels()),
                ranks@ == target_ranks.take(k as int),
        {
            ranks.push(self.num_cells(k));
            assert(ranks@ =~= target_ranks.take(k + 1));
        }
        assert(ranks@ =~= target_ranks);
        let mut boundary_maps: Vec<ZMatrix> = Vec::new();
        for k in 0..max_dim
            invariant
                max_dim == cw_dimension(self.cell_levels()),
                target_maps == cw_maps(self.cell_levels(), self.maps()),
                boundary_maps@.len() == k,
                forall|i: int| 0 <= i < k ==> (#[trigger] boundary_maps@[i])@ == target_maps[i],
        {
            if k < self.attaching_maps.len() {
                boundary_maps.push(self.attaching_maps[k].copy_matrix());
            } else {
                let rows = self.num_cells(k);
                let cols = self.num_cells(k + 1);
                boundary_maps.push(ZMatrix::zeros(rows, cols));
            }
        }
        let c = ChainComplex::from_ranks_and_maps(ranks, boundary_maps);
        assert(c.maps_view() =~= target_maps);
        c
    }

    /// Compute cellular homology H_n (`None` where the computation leaves
    /// the `i64` range).
    pub fn homology(&self, n: usize) -> (res: Option<HomologyGroup>)
        ensures
            res matches Some(h) ==> is_homology(cw_ranks(self.cell_levels()),
                cw_maps(self.cell_levels(), self.maps()), n as int, h),
            rank_at(cw_ranks(self.cell_levels()), n as int) == 0 ==> res is Some,
            res is Some <==> homology_fits(cw_ranks(self.cell_levels()), cw_maps(self.cell_levels(), self.maps()), n as int),
            res matches Some(h) ==> is_computed_homology(cw_ranks(self.cell_levels()), cw_maps(self.cell_levels(), self.maps()), n as int, h),
    {
        self.chain_complex().homology(n)
    }

    /// Euler characteristic: χ = Σ (-1)^n * c_n where c_n = number of n-cells.
    pub fn euler_characteristic(&self) -> (chi: i64)
        requires
            betti_sum_fits(cw_ranks(self.cell_levels())),
        ensures
            chi == betti_sum(cw_ranks(self.cell_levels()), cw_dimension(self.cell_levels()) + 1),
    {
        let ghost ranks = cw_ranks(self.cell_levels());
        let top = self.dimension();
        let mut chi: i64 = 0;
        for k in 0..top + 1
            invariant
                top == cw_dimension(self.cell_levels()),
                ranks == cw_ranks(self.cell_levels()),
                betti_sum_fits(ranks),
                chi == betti_sum(ranks, k as nat),
        {
            let n_k = self.num_cells(k);
            let count = n_k as i64;
            assert(ranks[k as int] == n_k);
            assert(i64::MIN <= betti_sum(ranks, (k + 1) as nat) <= i64::MAX);
            if k % 2 == 0 {
                chi = chi + count;
            } else {
                assert(count != i64::MIN);
                chi = chi - count;
            }
        }
        chi
    }
}

// ============ Well-known CW complexes ============

/// Build S^1 as a CW complex: one 0-cell, one 1-cell.
pub fn cw_s1() -> (cw: CWComplex)
    ensures
        cw.name_view() == "S^1"@,
        cells_labelled(cw.cell_levels(), seq![seq!["v"@], seq!["e"@]]),
        cw.maps() == seq![row_major(1, 1, seq![0i64])],
{
    let mut cw = CWComplex::new("S^1");
    cw.add_cell(0, "v");
    cw.add_cell(1, "e");
    // Attaching map for e: both endpoints map to v → boundary = [0]
    let entries: Vec<i64> = vec![0];
    cw.set_attaching_map(0, ZMatrix::from_row_slice(1, 1, entries.as_slice()));
    assert(entries@ =~= seq![0i64]);
    assert(cw.maps() =~= seq![row_major(1, 1, seq![0i64])]);
    cw
}

/// Build S^2 as a CW complex: one 0-cell, one 2-cell.
pub fn cw_s2() -> (cw: CWComplex)
    ensures
        cw.name_view() == "S^2"@,
        cells_labelled(cw.cell_levels(), seq![seq!["v"@], seq![], seq!["f"@]]),
        cw.maps() == seq![zero_mat(1, 0), zero_mat(0, 1)],
{
    // For S^2: 0-cell, 0 1-cells, 1 2-cell
    let mut cw = CWComplex::new("S^2");
    cw.add_cell(0, "v");
    cw.add_cell(2, "f");
    // attaching_map[0] = d_1: C_1 -> C_0 = zero (no 1-cells)
    cw.set_attaching_map(0, ZMatrix::zeros(1, 0));
    // attaching_map[1] = d_2: C_2 -> C_1 = zero (no 1-cells, so boundary is 0)
    cw.set_attaching_map(1, ZMatrix::zeros(0, 1));
    assert(cw.cell_levels()[1] =~= Seq::<Cell>::empty());
    assert(cw.maps() =~= seq![zero_mat(1, 0), zero_mat(0, 1)]);
    cw
}

/// The labels of the cells of `S^n`: a 0-cell `v` and an `n`-cell `f`.
pub open spec fn sphere_cell_labels(n: nat) -> Seq<Seq<Seq<char>>> {
    if n == 0 {
        seq![seq!["v"@, "f"@]]
    } else {
        Seq::new(n + 1, |k: int| if k == 0 { seq!["v"@] } else if k == n { seq!["f"@] } else { seq![] })
    }
}

/// The attaching maps of `S^n`: zero maps between the cell groups.
pub open spec fn sphere_cell_maps(n: nat) -> Seq<Mat> {
    Seq::new(n, |k: int| zero_mat(
        if k == 0 { 1 } else { 0 },
        if k + 1 == n { 1 } else { 0 },
    ))
}

/// Build S^n as a CW complex: one 0-cell, one n-cell.
pub fn cw_sn(n: usize) -> (cw: CWComplex)
    requires
        n < usize::MAX,
    ensures
        cw.name_view() == "S^"@ + decimal(n as nat),
        cells_labelled(cw.cell_levels(), sphere_cell_labels(n as nat)),
        cw.maps() == sphere_cell_maps(n as nat),
{
    let mut name = String::from_str("S^");
    push_decimal(&mut name, n as u64);
    let mut cw = CWComplex::new(name.as_str());
    cw.add_cell(0, "v");
    cw.add_cell(n, "f");
    let ghost levels = cw.cell_levels();
    proof {
        if n == 0 {
            assert(levels[0].len() == 2);
        } else {
            assert forall|k: int| 0 < k < n implies #[trigger] levels[k].len() == 0 by {}
        }
    }
    // All attaching maps are zero
    for k in 0..n
        invariant
            n < usize::MAX,
            cw.cell_levels() == levels,
            cw.name_view() == "S^"@ + decimal(n as nat),
            n == 0 ==> levels.len() == 1 && levels[0].len() == 2,
            n > 0 ==> levels.len() == n + 1 && levels[0].len() == 1 && levels[n as int].len() == 1,
            forall|j: int| 0 < j < n ==> #[trigger] levels[j].len() == 0,
            cw.maps().len() == k,
            forall|j: int| 0 <= j < k ==> #[trigger] cw.maps()[j] == sphere_cell_maps(n as nat)[j],
    {
        let rows = cw.num_cells(k);
        let cols = cw.num_cells(k + 1);
        cw.set_attaching_map(k, ZMatrix::zeros(rows, cols));
    }
    assert(cw.maps() =~= sphere_cell_maps(n as nat));
    proof {
        if n > 0 {
            assert forall|k: int, i: int| 0 <= k < levels.len() && 0 <= i < levels[k].len() implies
                (#[trigger] levels[k][i]).dimension == k && levels[k][i].label@ == sphere_cell_labels(n as nat)[k][i] by {}
        }
    }
    cw
}

/// Build CP^n (complex projective space) as a CW complex.
pub fn cw_cp2() -> (cw: CWComplex)
    ensures
        cw.name_view() == "CP^2"@,
        cells_labelled(cw.cell_levels(), seq![seq!["v"@], seq![], seq!["e"@], seq![], seq!["f"@]]),
        cw.maps() == seq![zero_mat(1, 0), zero_mat(0, 1), zero_mat(1, 0), zero_mat(0, 1)],
{
    let mut cw = CWComplex::new("CP^2");
    // CP^2 has cells in dimensions 0, 2, 4
    cw.add_cell(0, "v");
    cw.add_cell(2, "e");
    cw.add_cell(4, "f");
    // Attaching maps are all zero for CP^n
    cw.set_attaching_map(0, ZMatrix::zeros(1, 0));
    cw.set_attaching_map(1, ZMatrix::zeros(0, 1));
    cw.set_attaching_map(2, ZMatrix::zeros(1, 0));
    cw.set_attaching_map(3, ZMatrix::zeros(0, 1));
    assert(cw.cell_levels()[1] =~= Seq::<Cell>::empty());
    assert(cw.cell_levels()[3] =~= Seq::<Cell>::empty());
    assert(cw.maps() =~= seq![zero_mat(1, 0), zero_mat(0, 1), zero_mat(1, 0), zero_mat(0, 1)]);
    cw
}

/// Build RP^2 as a CW complex.
pub fn cw_rp2() -> (cw: CWComplex)
    ensures
        cw.name_view() == "RP^2"@,
        cells_labelled(cw.cell_levels(), seq![seq!["v"@], seq!["e"@], seq!["f"@]]),
        cw.maps() == seq![row_major(1, 1, seq![0i64]), row_major(1, 1, seq![2i64])],
{
    let mut cw = CWComplex::new("RP^2");
    // Cells: one in each dimension 0, 1, 2
    cw.add_cell(0, "v");
    cw.add_cell(1, "e");
    cw.add_cell(2, "f");
    // d_1: C_1 -> C_0: the 1-cell wraps around the 0-cell twice → 0 (identity map to single vertex)
    let d1: Vec<i64> = vec![0];
    cw.set_attaching_map(0, ZMatrix::from_row_slice(1, 1, d1.as_slice()));
    // d_2: C_2 -> C_1: the 2-cell wraps around the 1-cell twice → 2
    let d2: Vec<i64> = vec![2];
    cw.set_attaching_map(1, ZMatrix::from_row_slice(1, 1, d2.as_slice()));
    assert(d1@ =~= seq![0i64]);
    assert(d2@ =~= seq![2i64]);
    assert(cw.maps() =~= seq![row_major(1, 1, seq![0i64]), row_major(1, 1, seq![2i64])]);
    cw
}

/// Build T^2 (torus) as a CW complex.
pub fn cw_torus() -> (cw: CWComplex)
    ensures
        cw.name_view() == "T^2"@,
        cells_labelled(cw.cell_levels(), seq![seq!["v"@], seq!["a"@, "b"@], seq!["f"@]]),
        cw.maps() == seq![row_major(1, 2, seq![0i64, 0]), row_major(2, 1, seq![0i64, 0])],
{
    let mut cw = CWComplex::new("T^2");
    // Cells: 1 vertex, 2 edges, 1 face
    cw.add_cell(0, "v");
    cw.add_cell(1, "a");
    cw.add_cell(1, "b");
    cw.add_cell(2, "f");
    // d_1: C_1 -> C_0: both edges map to the single vertex → 0
    let d1: Vec<i64> = vec![0, 0];
    cw.set_attaching_map(0, ZMatrix::from_row_slice(1, 2, d1.as_slice()));
    // d_2: C_2 -> C_1: the face attaches along aba^{-1}b^{-1} → 0 in cellular homology
    let d2: Vec<i64> = vec![0, 0];
    cw.set_attaching_map(1, ZMatrix::from_row_slice(2, 1, d2.as_slice()));
    assert(d1@ =~= seq![0i64, 0]);
    assert(d2@ =~= seq![0i64, 0]);
    assert(cw.maps() =~= seq![row_major(1, 2, seq![0i64, 0]), row_major(2, 1, seq![0i64, 0])]);
    proof {
        let l1 = cw.cell_levels()[1];
        assert(l1.drop_last().last().label@ == "a"@);
        assert(l1[0] == l1.drop_last().last());
    }
    cw
}

/// Build Klein bottle as a CW complex.
pub fn cw_klein_bottle() -> (cw: CWComplex)
    ensures
        cw.name_view() == "Klein bottle"@,
        cells_labelled(cw.cell_levels(), seq![seq!["v"@], seq!["a"@, "b"@], seq!["f"@]]),
        cw.maps() == seq![row_major(1, 2, seq![0i64, 0]), row_major(2, 1, seq![0i64, 2])],
{
    let mut cw = CWComplex::new("Klein bottle");
    // Cells: 1 vertex, 2 edges, 1 face
    cw.add_cell(0, "v");
    cw.add_cell(1, "a");
    cw.add_cell(1, "b");
    cw.add_cell(2, "f");
    // d_1: → 0 (single vertex)
    let d1: Vec<i64> = vec![0, 0];
    cw.set_attaching_map(0, ZMatrix::from_row_slice(1, 2, d1.as_slice()));
    // d_2: attaching map along aba^{-1}b → (0, 2) since b² means b maps to 2
    let d2: Vec<i64> = vec![0, 2];
    cw.set_attaching_map(1, ZMatrix::from_row_slice(2, 1, d2.as_slice()));
    assert(d1@ =~= seq![0i64, 0]);
    assert(d2@ =~= seq![0i64, 2]);
    assert(cw.maps() =~= seq![row_major(1, 2, seq![0i64, 0]), row_major(2, 1, seq![0i64, 2])]);
    proof {
        let l1 = cw.cell_levels()[1];
        assert(l1.drop_last().last().label@ == "a"@);
        assert(l1[0] == l1.drop_last().last());
    }
    cw
}

} // verus!
