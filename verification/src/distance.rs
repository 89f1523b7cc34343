//! Distance measures: what the caller supplies.
use vstd::prelude::*;
use crate::pseudojet::PseudoJet;
use crate::scalar::Scalar;

verus! {

/// Distance measure between pseudojets used for clustering
///
/// The library orders and compares what these methods return and never looks
/// into how it was computed. All it relies on is that each method is a
/// function of its arguments: asked twice about the same pseudojets, it gives
/// the same answer. The `spec_` functions give those answers a name.
pub trait Distance {
    /// The value of `distance` on a pair. Unless an implementation says
    /// more, it is some function of the measure and the pair.
    open spec fn spec_distance(&self, p1: PseudoJet, p2: PseudoJet) -> Scalar {
        arbitrary::<spec_fn(&Self, PseudoJet, PseudoJet) -> Scalar>()(self, p1, p2)
    }

    /// The value of `beam_distance` on a pseudojet. Unless an
    /// implementation says more, it is some function of the measure and the
    /// pseudojet.
    open spec fn spec_beam_distance(&self, p1: PseudoJet) -> Scalar {
        arbitrary::<spec_fn(&Self, PseudoJet) -> Scalar>()(self, p1)
    }

    /// The value of `delta_r2` on a pair. Unless an implementation says
    /// more, it is some function of the measure and the pair.
    open spec fn spec_delta_r2(&self, p1: PseudoJet, p2: PseudoJet) -> Scalar {
        arbitrary::<spec_fn(&Self, PseudoJet, PseudoJet) -> Scalar>()(self, p1, p2)
    }

    /// The value of `combine` on a pair. Unless an implementation says
    /// more, it is some function of the measure and the pair.
    open spec fn spec_combine(&self, p1: PseudoJet, p2: PseudoJet) -> PseudoJet {
        arbitrary::<spec_fn(&Self, PseudoJet, PseudoJet) -> PseudoJet>()(self, p1, p2)
    }

    /// Distance between pseudojets
    fn distance(&self, p1: &PseudoJet, p2: &PseudoJet) -> (d: Scalar)
        ensures
            d == self.spec_distance(*p1, *p2),
    ;

    /// Distance to the beam axis
    fn beam_distance(&self, p1: &PseudoJet) -> (d: Scalar)
        ensures
            d == self.spec_beam_distance(*p1),
    ;

    /// Squared separation ΔR^2 = Δφ^2 + Δη^2 of two pseudojets in the plane
    /// of rapidity and azimuthal angle, by which nearest neighbours are found
    fn delta_r2(&self, p1: &PseudoJet, p2: &PseudoJet) -> (d: Scalar)
        ensures
            d == self.spec_delta_r2(*p1, *p2),
    ;

    /// The pseudojet that two pseudojets merge into: the sum of their
    /// four-momenta
    fn combine(&self, p1: &PseudoJet, p2: &PseudoJet) -> (p: PseudoJet)
        ensures
            p == self.spec_combine(*p1, *p2),
    ;
}

impl<T: Distance> Distance for &T {
    open spec fn spec_distance(&self, p1: PseudoJet, p2: PseudoJet) -> Scalar {
        (**self).spec_distance(p1, p2)
    }

    open spec fn spec_beam_distance(&self, p1: PseudoJet) -> Scalar {
        (**self).spec_beam_distance(p1)
    }

    open spec fn spec_delta_r2(&self, p1: PseudoJet, p2: PseudoJet) -> Scalar {
        (**self).spec_delta_r2(p1, p2)
    }

    open spec fn spec_combine(&self, p1: PseudoJet, p2: PseudoJet) -> PseudoJet {
        (**self).spec_combine(p1, p2)
    }

    fn distance(&self, p1: &PseudoJet, p2: &PseudoJet) -> (d: Scalar) {
        (*self).distance(p1, p2)
    }

    fn beam_distance(&self, p1: &PseudoJet) -> (d: Scalar) {
        (*self).beam_distance(p1)
    }

    fn delta_r2(&self, p1: &PseudoJet, p2: &PseudoJet) -> (d: Scalar) {
        (*self).delta_r2(p1, p2)
    }

    fn combine(&self, p1: &PseudoJet, p2: &PseudoJet) -> (p: PseudoJet) {
        (*self).combine(p1, p2)
    }
}

} // verus!
