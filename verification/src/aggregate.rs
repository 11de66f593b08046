//! The common return shape of every geometry call: sampled blocks plus
//! the excavated/exposed counters.

use vstd::prelude::*;

use crate::coords::Coord;
use crate::coords::view3;

verus! {

/// The immutable result of one lookup: a world position and the identity of
/// the block found there.
pub struct SampledBlock {
    pub position: Coord,
    pub identity: String,
}

/// `samples` records exactly the positions `ps`, in order, each labelled
/// with the identity the world model `m` holds there.
pub open spec fn samples_match(
    samples: Seq<SampledBlock>,
    ps: Seq<(int, int, int)>,
    m: spec_fn(int, int, int) -> Seq<char>,
) -> bool {
    &&& samples.len() == ps.len()
    &&& forall|i: int|
        0 <= i < samples.len() ==> {
            let s = #[trigger] samples[i];
            view3(s.position) == ps[i] && s.identity@ == m(ps[i].0, ps[i].1, ps[i].2)
        }
}

/// Matching sample runs concatenate: if two runs record `p1` and `p2`, their
/// concatenation records `p1 + p2`.
pub proof fn lemma_samples_match_concat(
    s1: Seq<SampledBlock>,
    s2: Seq<SampledBlock>,
    p1: Seq<(int, int, int)>,
    p2: Seq<(int, int, int)>,
    m: spec_fn(int, int, int) -> Seq<char>,
)
    requires
        samples_match(s1, p1, m),
        samples_match(s2, p2, m),
    ensures
        samples_match(s1 + s2, p1 + p2, m),
{
    assert forall|i: int|
        0 <= i < (s1 + s2).len() implies {
        let s = #[trigger] (s1 + s2)[i];
        view3(s.position) == (p1 + p2)[i] && s.identity@ == m(
            (p1 + p2)[i].0,
            (p1 + p2)[i].1,
            (p1 + p2)[i].2,
        )
    } by {
        if i < s1.len() {
            assert((s1 + s2)[i] == s1[i]);
            assert((p1 + p2)[i] == p1[i]);
        } else {
            assert((s1 + s2)[i] == s2[i - s1.len()]);
            assert((p1 + p2)[i] == p2[i - p1.len()]);
        }
    }
}

/// The universal return shape of every geometry call: the sequence of
/// sampled blocks plus the two aggregate counters.
pub struct AggregateResult {
    pub samples: Vec<SampledBlock>,
    /// Total blocks the sampled layout counts as removed.
    pub excavated: u32,
    /// Total block faces the sampled layout counts as made visible.
    pub exposed: u32,
}

impl AggregateResult {
    pub fn empty() -> (r: AggregateResult)
        ensures
            r.samples@ == Seq::<SampledBlock>::empty(),
            r.excavated == 0,
            r.exposed == 0,
    {
        AggregateResult { samples: Vec::new(), excavated: 0, exposed: 0 }
    }

    /// Combine two results: concatenate the sample sequences and sum the two
    /// counters.
    pub fn absorb(&mut self, other: AggregateResult)
        requires
            old(self).excavated + other.excavated <= u32::MAX,
            old(self).exposed + other.exposed <= u32::MAX,
        ensures
            final(self).samples@ == old(self).samples@ + other.samples@,
            final(self).excavated == old(self).excavated + other.excavated,
            final(self).exposed == old(self).exposed + other.exposed,
    {
        let AggregateResult { samples, excavated, exposed } = other;
        let mut samples = samples;
        self.samples.append(&mut samples);
        self.excavated = self.excavated + excavated;
        self.exposed = self.exposed + exposed;
    }
}

/// Law: a technique's result is a function of the world model and the
/// sampled positions alone — two runs recording the same positions against
/// the same model are identical, position for position and identity for
/// identity.
pub proof fn lemma_samples_deterministic(
    s1: Seq<SampledBlock>,
    s2: Seq<SampledBlock>,
    ps: Seq<(int, int, int)>,
    m: spec_fn(int, int, int) -> Seq<char>,
)
    requires
        samples_match(s1, ps, m),
        samples_match(s2, ps, m),
    ensures
        s1.len() == s2.len(),
        forall|i: int|
            0 <= i < s1.len() ==> view3(#[trigger] s1[i].position) == view3(s2[i].position)
                && s1[i].identity@ == s2[i].identity@,
{
}

} // verus!
