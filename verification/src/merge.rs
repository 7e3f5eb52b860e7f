//! Greedy, density-ordered deduplication of converged modes.
//!
//! Clustering runs mode-seeking per seed, then walks the seeds in descending
//! order of their aggregate weight: each still-unclaimed seed becomes the
//! representative of a new cluster and claims every unclaimed seed whose
//! converged center is similar enough to its own. The walk order and the
//! similarity test are the caller's (they compare floating-point weights and
//! kernel values); the claim bookkeeping below is exact and verified.

use vstd::prelude::*;

verus! {

/// The claim/label state of one deduplication pass over `n` seeds.
///
/// Labels are assigned in claim order: the `l`-th representative claimed gets
/// label `l`, and every member it claims gets that same label. A seed is a
/// *candidate* until it has been claimed, either as a representative or as a
/// member of an earlier (heavier) representative.
pub struct MergeState {
    labels: Vec<usize>,
    candidate: Vec<bool>,
    reps: Vec<usize>,
}

impl MergeState {
    /// The number of seeds.
    pub open spec fn n(&self) -> nat {
        self.spec_labels().len()
    }

    /// The label assigned to each seed (0 until the seed is claimed).
    pub closed spec fn spec_labels(&self) -> Seq<usize> {
        self.labels@
    }

    /// Which seeds are still unclaimed.
    pub closed spec fn spec_candidate(&self) -> Seq<bool> {
        self.candidate@
    }

    /// The representatives in claim order; `reps[l]` founded cluster `l`.
    pub closed spec fn spec_reps(&self) -> Seq<usize> {
        self.reps@
    }

    /// Every representative is a claimed seed that carries its own cluster's
    /// label, and every claimed seed's label names an existing cluster.
    pub open spec fn wf(&self) -> bool {
        &&& self.spec_candidate().len() == self.n()
        &&& forall|l: int|
            0 <= l < self.spec_reps().len() ==> (#[trigger] self.spec_reps()[l]) < self.n()
                && !self.spec_candidate()[self.spec_reps()[l] as int] && self.spec_labels()[self.spec_reps()[l] as int]
                == l
        &&& forall|i: int|
            0 <= i < self.n() && !self.spec_candidate()[i] ==> (#[trigger] self.spec_labels()[i])
                < self.spec_reps().len()
    }

    /// A fresh pass over `n` seeds: everything unclaimed, no clusters yet.
    pub fn new(n: usize) -> (r: Self)
        ensures
            r.wf(),
            r.n() == n,
            r.spec_reps().len() == 0,
            forall|i: int| 0 <= i < n ==> #[trigger] r.spec_candidate()[i] == true,
            forall|i: int| 0 <= i < n ==> #[trigger] r.spec_labels()[i] == 0,
    {
        let labels: Vec<usize> = vec![0; n];
        let candidate: Vec<bool> = vec![true; n];
        MergeState { labels, candidate, reps: Vec::new() }
    }

    /// The number of seeds this pass is over.
    pub fn len(&self) -> (r: usize)
        ensures
            r == self.n(),
    {
        self.labels.len()
    }

    /// Whether seed `i` is still unclaimed.
    pub fn is_candidate(&self, i: usize) -> (r: bool)
        requires
            self.wf(),
            i < self.n(),
        ensures
            r == self.spec_candidate()[i as int],
    {
        self.candidate[i]
    }

    /// How many clusters have been founded so far.
    pub fn num_clusters(&self) -> (r: usize)
        ensures
            r == self.spec_reps().len(),
    {
        self.reps.len()
    }

    /// Claim the unclaimed seed `i` as the representative of a new cluster:
    /// it receives the next label and founds that cluster.
    pub fn claim_rep(&mut self, i: usize)
        requires
            old(self).wf(),
            i < old(self).n(),
            old(self).spec_candidate()[i as int],
        ensures
            final(self).wf(),
            final(self).n() == old(self).n(),
            final(self).spec_reps() == old(self).spec_reps().push(i),
            final(self).spec_candidate() == old(self).spec_candidate().update(i as int, false),
            final(self).spec_labels() == old(self).spec_labels().update(
                i as int,
                old(self).spec_reps().len() as usize,
            ),
    {
        let label = self.reps.len();
        self.labels.set(i, label);
        self.candidate.set(i, false);
        self.reps.push(i);
        proof {
            assert forall|l: int|
                0 <= l < self.spec_reps().len() implies (#[trigger] self.spec_reps()[l]) < self.n()
                && !self.spec_candidate()[self.spec_reps()[l] as int]
                && self.spec_labels()[self.spec_reps()[l] as int] == l by {
                if l < self.spec_reps().len() - 1 {
                    assert(old(self).spec_reps()[l] == self.spec_reps()[l]);
                    assert(!old(self).spec_candidate()[old(self).spec_reps()[l] as int]);
                    assert(old(self).spec_candidate()[i as int]);
                } else {
                    assert(self.spec_reps()[l] == i);
                }
            }
            assert forall|i2: int|
                0 <= i2 < self.n() && !self.spec_candidate()[i2] implies (
            #[trigger] self.spec_labels()[i2]) < self.spec_reps().len() by {
                if i2 != i as int {
                    assert(!old(self).spec_candidate()[i2]);
                }
            }
        }
    }

    /// Claim the unclaimed seed `k` as a member of the most recently founded
    /// cluster: it receives that cluster's label.
    pub fn claim_member(&mut self, k: usize)
        requires
            old(self).wf(),
            k < old(self).n(),
            old(self).spec_candidate()[k as int],
            old(self).spec_reps().len() > 0,
        ensures
            final(self).wf(),
            final(self).n() == old(self).n(),
            final(self).spec_reps() == old(self).spec_reps(),
            final(self).spec_candidate() == old(self).spec_candidate().update(k as int, false),
            final(self).spec_labels() == old(self).spec_labels().update(
                k as int,
                (old(self).spec_reps().len() - 1) as usize,
            ),
    {
        let label = self.reps.len() - 1;
        self.labels.set(k, label);
        self.candidate.set(k, false);
    }

    /// The label of each seed, in seed order.
    pub fn labels(&self) -> (r: &Vec<usize>)
        ensures
            r@ == self.spec_labels(),
    {
        &self.labels
    }

    /// The representative seed of each cluster, in label order.
    pub fn reps(&self) -> (r: &Vec<usize>)
        ensures
            r@ == self.spec_reps(),
    {
        &self.reps
    }
}

/// Cluster label consistency: the representative that founded cluster `l` —
/// the seed whose converged center is appended as that cluster's unique
/// center — itself carries label `l`, and is no longer a candidate.
pub proof fn lemma_reps_self_labeled(st: MergeState, l: int)
    requires
        st.wf(),
        0 <= l < st.spec_reps().len(),
    ensures
        st.spec_labels()[st.spec_reps()[l] as int] == l,
        !st.spec_candidate()[st.spec_reps()[l] as int],
        st.spec_reps()[l] < st.n(),
{
}

/// Every claimed seed's label names a founded cluster, so each entry of
/// `labels` stays below the number of unique centers once its seed is claimed.
pub proof fn lemma_labels_name_clusters(st: MergeState, i: int)
    requires
        st.wf(),
        0 <= i < st.n(),
        !st.spec_candidate()[i],
    ensures
        st.spec_labels()[i] < st.spec_reps().len(),
{
}

} // verus!
