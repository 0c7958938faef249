//! Singular homology: singular simplices and chain maps.

use vstd::prelude::*;
use crate::chain_complex::{
    ChainComplex, HomologyGroup, homology_fits, homology_needs_no_reduction, is_computed_homology, is_homology, rank_at,
};
use crate::matrix::ZMatrix;
use crate::text::{decimal, push_decimal};

verus! {

/// A singular n-simplex is a continuous map σ: Δ^n → X.
/// We represent it abstractly by its label and the space it maps into.
#[derive(Clone, Debug)]
pub struct SingularSimplex {
    /// Dimension of the simplex.
    pub dimension: usize,
    /// Label/identifier.
    pub label: String,
    /// Vertices (as indices into the space).
    pub vertices: Vec<usize>,
}

/// The label of the `i`-th face of a simplex labelled `label`: `∂_i(label)`.
pub open spec fn face_label(i: nat, label: Seq<char>) -> Seq<char> {
    "∂_"@ + decimal(i) + "("@ + label + ")"@
}

impl SingularSimplex {
    /// Create a new singular simplex.
    pub fn new(dimension: usize, label: &str, vertices: Vec<usize>) -> (s: Self)
        ensures
            s.dimension == dimension,
            s.label@ == label@,
            s.vertices@ == vertices@,
    {
        SingularSimplex { dimension, label: String::from_str(label), vertices }
    }

    /// The i-th face map: returns the face with vertex i removed.
    pub fn face(&self, i: usize) -> (f: SingularSimplex)
        requires
            i < self.vertices@.len(),
        ensures
            f.vertices@ == self.vertices@.remove(i as int),
            f.dimension == if self.dimension == 0 { 0 } else { self.dimension - 1 },
            f.label@ == face_label(i as nat, self.label@),
    {
        let mut verts: Vec<usize> = Vec::new();
        for j in 0..self.vertices.len()
            invariant
                verts@ == self.vertices@.take(j as int),
        {
            verts.push(self.vertices[j]);
            assert(verts@ =~= self.vertices@.take(j + 1));
        }
        assert(verts@ =~= self.vertices@);
        verts.remove(i);
        let mut label = String::new();
        label.append("∂_");
        push_decimal(&mut label, i as u64);
        label.append("(");
        label.append(self.label.as_str());
        label.append(")");
        assert(label@ =~= face_label(i as nat, self.label@));
        SingularSimplex::new(self.dimension.saturating_sub(1), label.as_str(), verts)
    }
}

/// A singular chain: a formal linear combination of singular simplices.
#[derive(Clone, Debug)]
pub struct SingularChain {
    /// Dimension.
    pub dimension: usize,
    /// Coefficients indexed by simplex index.
    pub coefficients: Vec<i64>,
}

impl SingularChain {
    /// Create a zero chain of given dimension with n generators.
    pub fn zero(dimension: usize, n: usize) -> (c: Self)
        ensures
            c.dimension == dimension,
            c.coefficients@ == Seq::new(n as nat, |i: int| 0i64),
    {
        let mut coefficients: Vec<i64> = Vec::new();
        for i in 0..n
            invariant
                coefficients@ == Seq::new(i as nat, |j: int| 0i64),
        {
            coefficients.push(0);
            assert(coefficients@ =~= Seq::new((i + 1) as nat, |j: int| 0i64));
        }
        SingularChain { dimension, coefficients }
    }

    /// Add two chains, coefficient by coefficient, over the positions both
    /// have.
    pub fn add(&self, other: &SingularChain) -> (c: SingularChain)
        requires
            forall|i: int| 0 <= i < self.coefficients@.len() && 0 <= i < other.coefficients@.len()
                ==> i64::MIN <= #[trigger] self.coefficients@[i] + other.coefficients@[i] <= i64::MAX,
        ensures
            c.dimension == self.dimension,
            c.coefficients@.len() == if self.coefficients@.len() <= other.coefficients@.len() {
                self.coefficients@.len()
            } else {
                other.coefficients@.len()
            },
            forall|i: int| 0 <= i < c.coefficients@.len()
                ==> #[trigger] c.coefficients@[i] == self.coefficients@[i] + other.coefficients@[i],
    {
        let len = if self.coefficients.len() <= other.coefficients.len() {
            self.coefficients.len()
        } else {
            other.coefficients.len()
        };
        let mut coeffs: Vec<i64> = Vec::new();
        for i in 0..len
            invariant
                len <= self.coefficients@.len(),
                len <= other.coefficients@.len(),
                forall|j: int| 0 <= j < self.coefficients@.len() && 0 <= j < other.coefficients@.len()
                    ==> i64::MIN <= #[trigger] self.coefficients@[j] + other.coefficients@[j] <= i64::MAX,
                coeffs@.len() == i,
                forall|j: int| 0 <= j < i ==> #[trigger] coeffs@[j] == self.coefficients@[j] + other.coefficients@[j],
        {
            let a = self.coefficients[i];
            let b = other.coefficients[i];
            assert(i64::MIN <= self.coefficients@[i as int] + other.coefficients@[i as int] <= i64::MAX);
            coeffs.push(a + b);
        }
        SingularChain { dimension: self.dimension, coefficients: coeffs }
    }

    /// Scale by integer.
    pub fn scale(&self, n: i64) -> (c: SingularChain)
        requires
            forall|i: int| 0 <= i < self.coefficients@.len()
                ==> i64::MIN <= #[trigger] self.coefficients@[i] * n <= i64::MAX,
        ensures
            c.dimension == self.dimension,
            c.coefficients@.len() == self.coefficients@.len(),
            forall|i: int| 0 <= i < c.coefficients@.len() ==> #[trigger] c.coefficients@[i] == self.coefficients@[i] * n,
    {
        let mut coeffs: Vec<i64> = Vec::new();
        for i in 0..self.coefficients.len()
            invariant
                forall|j: int| 0 <= j < self.coefficients@.len()
                    ==> i64::MIN <= #[trigger] self.coefficients@[j] * n <= i64::MAX,
                coeffs@.len() == i,
                forall|j: int| 0 <= j < i ==> #[trigger] coeffs@[j] == self.coefficients@[j] * n,
        {
            let c = self.coefficients[i];
            assert(i64::MIN <= self.coefficients@[i as int] * n <= i64::MAX);
            coeffs.push(c * n);
        }
        SingularChain { dimension: self.dimension, coefficients: coeffs }
    }
}

/// A singular chain complex for a space represented abstractly.
#[derive(Clone, Debug)]
pub struct SingularChainComplex {
    /// The underlying chain complex.
    pub complex: ChainComplex,
    /// Labels for simplices at each dimension.
    pub labels: Vec<Vec<String>>,
}

impl SingularChainComplex {
    /// Create from a pre-built chain complex.
    pub fn from_chain_complex(complex: ChainComplex, labels: Vec<Vec<String>>) -> (s: Self)
        ensures
            s.complex == complex,
            s.labels == labels,
    {
        SingularChainComplex { complex, labels }
    }

    /// Compute H_n of the underlying chain complex (`None` where its
    /// computation leaves the `i64` range).
    pub fn homology(&self, n: usize) -> (res: Option<HomologyGroup>)
        ensures
            res matches Some(h) ==> is_homology(self.complex.ranks@, self.complex.maps_view(), n as int, h),
            rank_at(self.complex.ranks@, n as int) == 0 ==> res is Some,
            res is Some <==> homology_fits(self.complex.ranks@, self.complex.maps_view(), n as int),
            res matches Some(h) ==> is_computed_homology(self.complex.ranks@, self.complex.maps_view(), n as int, h),
    {
        self.complex.homology(n)
    }

    /// Compute all homology groups.
    pub fn all_homology(&self, max_n: usize) -> (res: Option<Vec<HomologyGroup>>)
        ensures
            res matches Some(hs) ==> hs@.len() == max_n + 1 && forall|i: int|
                0 <= i <= max_n ==> is_homology(self.complex.ranks@, self.complex.maps_view(), i, #[trigger] hs@[i]),
            (forall|i: int| 0 <= i <= max_n ==> #[trigger] homology_needs_no_reduction(
                self.complex.ranks@, self.complex.maps_view(), i)) ==> res is Some,
            res is Some <==> forall|i: int| 0 <= i <= max_n ==> #[trigger] homology_fits(self.complex.ranks@, self.complex.maps_view(), i),
            res matches Some(hs) ==> forall|i: int| 0 <= i <= max_n ==> is_computed_homology(self.complex.ranks@, self.complex.maps_view(), i, #[trigger] hs@[i]),
    {
        self.complex.all_homology(max_n)
    }
}

/// A chain map between singular chain complexes.
#[derive(Clone, Debug)]
pub struct ChainMap {
    /// Maps at each dimension: matrix representing the linear map.
    pub maps: Vec<ZMatrix>,
}

impl ChainMap {
    /// Create a new chain map.
    pub fn new(maps: Vec<ZMatrix>) -> (c: Self)
        ensures
            c.maps@ == maps@,
    {
        ChainMap { maps }
    }

    /// The induced map on homology H_n, taken as the matrix of the first
    /// map on chain representatives, whatever `n` is.
    pub fn induced_homology_matrix(&self, _n: usize) -> (res: Option<ZMatrix>)
        ensures
            self.maps@.len() == 0 ==> res is None,
            self.maps@.len() > 0 ==> (res matches Some(m) && m@ == self.maps@[0]@),
    {
        if self.maps.len() == 0 {
            None
        } else {
            Some(self.maps[0].copy_matrix())
        }
    }
}

/// Build a singular chain complex equivalent to a simplicial one.
/// For testing, we just delegate to the simplicial computation.
pub fn singular_homology_of_space(complex: &ChainComplex, n: usize) -> (res: Option<HomologyGroup>)
    ensures
        res matches Some(h) ==> is_homology(complex.ranks@, complex.maps_view(), n as int, h),
        rank_at(complex.ranks@, n as int) == 0 ==> res is Some,
        res is Some <==> homology_fits(complex.ranks@, complex.maps_view(), n as int),
        res matches Some(h) ==> is_computed_homology(complex.ranks@, complex.maps_view(), n as int, h),
{
    complex.homology(n)
}

} // verus!
