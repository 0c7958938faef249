# lau-algebraic-topology

Algebraic topology over the integers. The library's functions carry
contracts that Verus proves; where a contract says less than the function
does, the gap is noted at the function.

## Layout

- `src/matrix.rs` — integer matrices: the executable `ZMatrix`, its
  mathematical model `Mat`, products, and elementary row and column
  operations with their algebra.
- `src/smith.rs`, `src/reduction.rs` — the Smith normal form: what it is
  (`is_smith_form`), and the reduction step that brings a matrix to it.
- `src/snf_run.rs` — the reduction as a mathematical function over
  unbounded integers (`snf_run`), and when it stays within `i64`
  (`snf_fits`); the executable reduction follows it step for step.
- `src/chain_complex.rs` — chain complexes, kernels, images and homology
  groups read off Smith normal forms; rank–nullity and the Euler–Poincaré
  formula.
- `src/rank.rs` — the linear algebra behind the rank laws: associativity of
  the product, kernels of wide matrices, two-sided inverses, and
  `rank(a) + rank(b) <= n` where `a * b == 0`; a Smith normal form gives a
  basis of the integer kernel, and all such bases have `cols - rank` vectors.
- `src/simplicial.rs` — simplicial complexes, their boundary matrices
  (whose composites vanish), and the standard triangulations.
- `src/cw_complex.rs`, `src/singular.rs` — cellular and singular chains.
- `src/cohomology.rs` — the universal coefficient theorem, cup products and
  the Künneth formula.
- `src/mayer_vietoris.rs`, `src/poincare.rs`, `src/homotopy.rs`,
  `src/euler.rs` — the classical computations on standard spaces.
- `src/network.rs`, `src/components.rs` — connected components of an agent
  network and the homology of its clique complex, whose H_0 has as rank the
  number of components.
- `src/text.rs` — decimal rendering used by the textual outputs.
- `app/lib.rs` — serializable copies of the library's values, their
  `Display` text, and the floating-point adjacency matrix of a network.

Computations that could leave the `i64` range return `None` instead: the
Smith normal form returns `Some` exactly when `snf_fits` holds of its
input, and each homology group exactly when the reductions it needs, and
its free rank, stay within `i64` (`homology_fits`).
