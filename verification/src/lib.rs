//! Balanced two-way partitioning of weighted hypergraphs by the multilevel
//! scheme: coarsen, partition the coarse hypergraph, uncoarsen and refine.
//!
//! Capacities and weights are whole numbers; the balance tolerance is given
//! in millionths. Every function is verified against a contract over the
//! model in `layout`, but for the bit sets in `bits` and the random draws
//! in `chance`, which state what the `bitvec` and `rand` crates do.
//!
//! - `layout`: the incidence structure as sequences, and what contraction
//!   and its reversal are.
//! - `bipartite`: the structure itself, with construction, contraction,
//!   reversal, views and evaluation.
//! - `reversal`: contraction keeps the structure a hypergraph, and undoing
//!   it gives the hypergraph back.
//! - `balance`: laws of evaluation and of the size constraint.
//! - `queue`: the priority queue of the coarsener and the refiner.
//! - `coarsen`, `initial`, `uncoarsen`: the three stages.

pub mod balance;
pub mod bipartite;
pub mod bits;
pub mod chance;
pub mod coarsen;
pub mod initial;
pub mod layout;
pub mod queue;
pub mod reversal;
pub mod uncoarsen;

use vstd::prelude::*;
use crate::balance::{
    cut_of, heavier_side, lemma_agrees_evaluates, lemma_built_evaluates,
};
use crate::bipartite::{nets_view, Bipartite, Bipartition};
use crate::coarsen::{coarsen, coarsening};
use crate::initial::{initial_partitioning, is_initial};
use crate::layout::{built, input_ok, Index};
use crate::uncoarsen::{uncoarsen, uncoarsened, Refinement};
use vstd::multiset::Multiset;

verus! {

/// The bipartition that uncoarsening makes of `initial`, an initial
/// bipartition of the hypergraph when it is coarsened.
pub open spec fn refined_from(
    capacities: Seq<u64>,
    weights: Seq<u64>,
    nets: Seq<Seq<Index>>,
    initial: Seq<bool>,
) -> Seq<bool> {
    let coarse = coarsening(built(capacities, weights, nets));
    uncoarsened(
        coarse.s,
        coarse.mementos,
        Refinement {
            labels: initial,
            queue: Multiset::empty(),
            gains: Seq::new(capacities.len(), |i: int| 0i128),
        },
    ).labels
}

/// Bipartitions the hypergraph with the given pin capacities, net weights
/// and nets, at a balance tolerance of `epsilon` millionths. Returns a side
/// for each pin, and the evaluation of that bipartition: the capacity of
/// its heavier side, and the summed weight of the nets that it cuts. The
/// bipartition is what uncoarsening makes of an initial bipartition of the
/// coarsened hypergraph.
pub fn bipartition(capacities: &[u64], weights: &[u64], nets: &[&[Index]], epsilon: u32) -> (r: (
    Bipartition,
    (u64, u64),
))
    requires
        input_ok(capacities@, weights@, nets_view(nets)),
    ensures
        r.0@.len() == capacities@.len(),
        r.1.0 == heavier_side(capacities@, r.0@),
        r.1.1 == cut_of(weights@, nets_view(nets), r.0@, nets@.len()),
        exists|initial: Seq<bool>|
            is_initial(
                coarsening(built(capacities@, weights@, nets_view(nets))).s,
                epsilon as nat,
                initial,
            ) && r.0@ == #[trigger] refined_from(capacities@, weights@, nets_view(nets), initial),
{
    let mut h = Bipartite::new(capacities, weights, nets);
    let ghost start = h@;
    let size_constraint = h.size_constraint(epsilon);
    let mementos = coarsen(&mut h);
    let mut bipart = initial_partitioning(&h, epsilon);
    let ghost initial = bipart@;
    uncoarsen(&mut h, size_constraint, mementos, &mut bipart);
    let eval = h.evaluate_bipartition(&bipart);
    proof {
        lemma_agrees_evaluates(start, h@, bipart@);
        lemma_built_evaluates(start, capacities@, weights@, nets_view(nets), bipart@);
        assert(bipart@ == refined_from(capacities@, weights@, nets_view(nets), initial));
    }
    (bipart, eval)
}

} // verus!
