//! The neighbor-query capability shared by all spatial indexes.

use vstd::prelude::*;

verus! {

/// A spatial index over an ordered sequence of points of type `T`.
///
/// An index is built (`construct`) from a snapshot of a point sequence and can
/// afterwards be queried (`neighbors`) for the candidate neighbors of a query
/// point, or re-bucketed in place (`refresh`) when the same points — same
/// count, same identity — have moved to new coordinates.
///
/// A query returns a *superset-style* candidate list: an order-insensitive,
/// duplicate-free sequence of point indices that the caller must still filter
/// by its own similarity measure. The one guarantee, shared by every
/// implementation, is *no false negatives within the same region*: whenever a
/// currently indexed point lies in the same region as the query (the region
/// relation is implementation-defined; same grid cell for a grid, everywhere
/// for an exhaustive scan), its index appears among the candidates. This is
/// stated by [`Index::lemma_no_false_negatives`], which every implementation
/// must prove.
pub trait Index<T>: Sized {
    /// How many points the index currently covers.
    spec fn spec_len(&self) -> nat;

    /// Structural well-formedness; established by `construct`, preserved by
    /// `refresh`, and required by every query.
    spec fn inv(&self) -> bool;

    /// Whether this implementation can be built at all on this machine
    /// (a grid with too many bits per axis could not even address its cells).
    spec fn valid_config() -> bool;

    /// The index currently describes exactly this point sequence: one entry
    /// per point, each recorded under the point's present coordinates.
    spec fn models(&self, samples: Seq<T>) -> bool;

    /// The set of point indices a query at `q` produces.
    spec fn candidates(&self, q: T) -> Set<int>;

    /// The implementation-defined "same region" relation on points; it depends
    /// only on the index's configuration, never on which points are stored.
    spec fn same_region(a: T, b: T) -> bool;

    /// Build an index over a snapshot of `samples`. An empty sequence yields a
    /// degenerate but valid index (zero candidates for any query).
    fn construct(samples: &[T]) -> (r: Self)
        requires
            Self::valid_config(),
        ensures
            r.inv(),
            r.spec_len() == samples@.len(),
            r.models(samples@),
    ;

    /// Re-bucket the same population after its points moved. The count must
    /// match the count the index was built over; afterwards the index
    /// describes the moved points exactly as a fresh `construct` would.
    fn refresh(&mut self, samples: &[T])
        requires
            old(self).inv(),
            samples@.len() == old(self).spec_len(),
        ensures
            final(self).inv(),
            final(self).spec_len() == old(self).spec_len(),
            final(self).models(samples@),
    ;

    /// The candidate neighbors of `center`: a duplicate-free sequence of valid
    /// point indices whose membership is exactly `self.candidates(*center)`.
    fn neighbors(&self, center: &T) -> (r: Vec<usize>)
        requires
            self.inv(),
        ensures
            r@.no_duplicates(),
            forall|i: int| 0 <= i < r@.len() ==> (#[trigger] r@[i]) < self.spec_len(),
            forall|u: usize| #[trigger] r@.contains(u) <==> self.candidates(*center).contains(u as int),
    ;

    /// No false negatives within a region: an indexed point in the same region
    /// as the query is always among the candidates.
    proof fn lemma_no_false_negatives(&self, samples: Seq<T>, p: int, q: T)
        requires
            self.inv(),
            self.models(samples),
            0 <= p < samples.len(),
            Self::same_region(samples[p], q),
        ensures
            self.candidates(q).contains(p),
    ;
}

} // verus!
