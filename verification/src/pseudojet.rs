//! Pseudojets: a four-momentum with the three quantities derived from it.
use std::cmp::Ordering;
use vstd::prelude::*;
use vstd::std_specs::cmp::PartialOrdSpecImpl;
use crate::scalar::{is_nan_bits, lemma_rank_injective, Scalar, TWO_PI_BITS};

verus! {

/// Number of four-momentum components.
pub const D: usize = 4;

/// Why a pseudojet could not be made.
#[derive(Clone, Copy, Debug, PartialEq, Eq, Structural, Hash)]
pub enum InvalidMomentum {
    /// One of the seven quantities is not a number.
    NotANumber,
    /// The azimuthal angle lies outside of one full turn starting at zero.
    AzimuthOutOfRange,
}

/// Whether an azimuthal angle with this bit pattern lies in the half-open
/// range from zero to a full turn.
pub open spec fn azimuth_in_range(phi_bits: u64) -> bool {
    phi_bits < TWO_PI_BITS
}

/// A pseudojet is a particle momentum or a sum of momenta of clustered particles
#[derive(Clone, Copy, Debug, PartialEq, Eq, Structural, Hash)]
pub struct PseudoJet {
    e: Scalar,
    px: Scalar,
    py: Scalar,
    pz: Scalar,
    inv_pt2: Scalar,
    phi: Scalar,
    rap: Scalar,
}

impl PseudoJet {
    #[verifier::type_invariant]
    spec fn azimuth_normalised(self) -> bool {
        azimuth_in_range(self.phi.spec_bits())
    }

    /// The seven quantities in the order in which pseudojets are compared:
    /// energy, the three momentum components, inverse squared transverse
    /// momentum, azimuthal angle, rapidity.
    pub closed spec fn parts(self) -> Seq<Scalar> {
        seq![self.e, self.px, self.py, self.pz, self.inv_pt2, self.phi, self.rap]
    }

    /// Create pseudojet with vanishing four-momentum
    ///
    /// Its inverse squared transverse momentum is infinity; everything
    /// else is zero.
    pub fn new() -> (r: PseudoJet)
        ensures
            r.parts() == seq![
                Scalar::with_bits(0),
                Scalar::with_bits(0),
                Scalar::with_bits(0),
                Scalar::with_bits(0),
                Scalar::spec_infinity(),
                Scalar::with_bits(0),
                Scalar::with_bits(0),
            ],
    {
        let zero = Scalar::zero();
        proof {
            zero.lemma_with_bits();
        }
        PseudoJet {
            e: zero,
            px: zero,
            py: zero,
            pz: zero,
            inv_pt2: Scalar::infinity(),
            phi: zero,
            rap: zero,
        }
    }

    /// A pseudojet from its four-momentum and the three derived quantities.
    ///
    /// The azimuthal angle has to be normalised: at least zero and less than
    /// a full turn.
    pub fn from_parts(
        e: Scalar,
        px: Scalar,
        py: Scalar,
        pz: Scalar,
        inv_pt2: Scalar,
        phi: Scalar,
        rap: Scalar,
    ) -> (r: Result<PseudoJet, InvalidMomentum>)
        ensures
            r.is_ok() == azimuth_in_range(phi.spec_bits()),
            r.is_ok() ==> r.unwrap().parts() == seq![e, px, py, pz, inv_pt2, phi, rap],
            r.is_ok() ==> r.unwrap().parts().len() == 7,
            r.is_err() ==> r.unwrap_err() == InvalidMomentum::AzimuthOutOfRange,
    {
        if phi.to_bits() < TWO_PI_BITS {
            Ok(PseudoJet { e, px, py, pz, inv_pt2, phi, rap })
        } else {
            Err(InvalidMomentum::AzimuthOutOfRange)
        }
    }

    /// A pseudojet from the bit patterns of its seven quantities, in the
    /// order of `from_parts`.
    pub fn from_bits(bits: [u64; 7]) -> (r: Result<PseudoJet, InvalidMomentum>)
        ensures
            has_nan(bits@) ==> r == Err::<PseudoJet, InvalidMomentum>(InvalidMomentum::NotANumber),
            !has_nan(bits@) && !azimuth_in_range(bits@[5]) ==> r == Err::<
                PseudoJet,
                InvalidMomentum,
            >(InvalidMomentum::AzimuthOutOfRange),
            !has_nan(bits@) && azimuth_in_range(bits@[5]) ==> r.is_ok() && r.unwrap().parts().len()
                == 7 && forall|k: int|
                0 <= k < 7 ==> (#[trigger] r.unwrap().parts()[k]).spec_bits() == bits@[k],
    {
        let mut parts: Vec<Scalar> = Vec::new();
        let mut i: usize = 0;
        while i < 7
            invariant
                0 <= i <= 7,
                parts.len() == i,
                forall|k: int| 0 <= k < i ==> !is_nan_bits(#[trigger] bits@[k]),
                forall|k: int| 0 <= k < i ==> (#[trigger] parts@[k]).spec_bits() == bits@[k],
            decreases 7 - i,
        {
            match Scalar::from_bits(bits[i]) {
                Some(s) => {
                    parts.push(s);
                },
                None => {
                    return Err(InvalidMomentum::NotANumber);
                },
            }
            i += 1;
        }
        PseudoJet::from_parts(
            parts[0],
            parts[1],
            parts[2],
            parts[3],
            parts[4],
            parts[5],
            parts[6],
        )
    }

    /// Energy
    pub fn e(&self) -> (r: Scalar)
        ensures
            r == self.parts()[0],
    {
        self.e
    }

    /// Momentum in x direction
    pub fn px(&self) -> (r: Scalar)
        ensures
            r == self.parts()[1],
    {
        self.px
    }

    /// Momentum in y direction
    pub fn py(&self) -> (r: Scalar)
        ensures
            r == self.parts()[2],
    {
        self.py
    }

    /// Momentum in z direction, i.e. along the beam axis
    pub fn pz(&self) -> (r: Scalar)
        ensures
            r == self.parts()[3],
    {
        self.pz
    }

    /// Inverse square of transverse momentum `inv_pt2 = 1/pt2`
    pub fn inv_pt2(&self) -> (r: Scalar)
        ensures
            r == self.parts()[4],
    {
        self.inv_pt2
    }

    /// The azimuthal angle of this pseudojet.
    pub open spec fn spec_phi(self) -> Scalar {
        self.parts()[5]
    }

    /// The rapidity of this pseudojet.
    pub open spec fn spec_rap(self) -> Scalar {
        self.parts()[6]
    }

    /// Azimuthal angle φ, at least zero and less than a full turn
    pub fn phi(&self) -> (r: Scalar)
        ensures
            r == self.parts()[5],
            azimuth_in_range(r.spec_bits()),
            0 <= r.rank() < TWO_PI_BITS,
    {
        proof {
            use_type_invariant(self);
        }
        self.phi
    }

    /// Rapidity η
    pub fn rap(&self) -> (r: Scalar)
        ensures
            r == self.parts()[6],
    {
        self.rap
    }

    /// Component `i` of the four-momentum: energy first, then x, y, z.
    pub fn component(&self, i: usize) -> (r: Scalar)
        requires
            i < D,
        ensures
            r == self.parts()[i as int],
    {
        if i == 0 {
            self.e
        } else if i == 1 {
            self.px
        } else if i == 2 {
            self.py
        } else {
            self.pz
        }
    }

    /// One of the seven quantities, by its position in the order in which
    /// pseudojets are compared.
    pub fn part(&self, i: usize) -> (r: Scalar)
        requires
            i < 7,
        ensures
            self.parts().len() == 7,
            r == self.parts()[i as int],
    {
        if i < 4 {
            self.component(i)
        } else if i == 4 {
            self.inv_pt2
        } else if i == 5 {
            self.phi
        } else {
            self.rap
        }
    }

    /// Whether this pseudojet comes strictly before `other` when the seven
    /// quantities are compared one after the other.
    pub fn lt(&self, other: &PseudoJet) -> (r: bool)
        ensures
            r == precedes(self.parts(), other.parts(), 0),
    {
        let a: [Scalar; 7] = [self.e, self.px, self.py, self.pz, self.inv_pt2, self.phi, self.rap];
        let b: [Scalar; 7] = [
            other.e,
            other.px,
            other.py,
            other.pz,
            other.inv_pt2,
            other.phi,
            other.rap,
        ];
        assert(a@ =~= self.parts());
        assert(b@ =~= other.parts());
        let mut i: usize = 7;
        let mut r: bool = false;
        while i > 0
            invariant
                0 <= i <= 7,
                a@.len() == 7,
                b@.len() == 7,
                r == precedes(a@, b@, i as int),
            decreases i,
        {
            i -= 1;
            if a[i].lt(b[i]) {
                r = true;
            } else if b[i].lt(a[i]) {
                r = false;
            }
        }
        r
    }
}

impl PartialOrd for PseudoJet {
    fn partial_cmp(&self, other: &PseudoJet) -> (r: Option<Ordering>) {
        if PseudoJet::lt(self, other) {
            Some(Ordering::Less)
        } else if PseudoJet::lt(other, self) {
            Some(Ordering::Greater)
        } else {
            Some(Ordering::Equal)
        }
    }
}

impl PartialOrdSpecImpl for PseudoJet {
    open spec fn obeys_partial_cmp_spec() -> bool {
        true
    }

    open spec fn partial_cmp_spec(&self, other: &PseudoJet) -> Option<Ordering> {
        if precedes(self.parts(), other.parts(), 0) {
            Some(Ordering::Less)
        } else if precedes(other.parts(), self.parts(), 0) {
            Some(Ordering::Greater)
        } else {
            Some(Ordering::Equal)
        }
    }
}

impl Default for PseudoJet {
    /// The pseudojet with vanishing four-momentum
    fn default() -> (r: PseudoJet)
        ensures
            r.parts() == seq![
                Scalar::with_bits(0),
                Scalar::with_bits(0),
                Scalar::with_bits(0),
                Scalar::with_bits(0),
                Scalar::spec_infinity(),
                Scalar::with_bits(0),
                Scalar::with_bits(0),
            ],
    {
        PseudoJet::new()
    }
}

/// Lexicographic order on two equally long lists of scalars, from position
/// `from` on: the first position at which they differ decides.
pub open spec fn precedes(a: Seq<Scalar>, b: Seq<Scalar>, from: int) -> bool
    decreases a.len() - from,
{
    if from < 0 || from >= a.len() || a.len() != b.len() {
        false
    } else if a[from].rank() < b[from].rank() {
        true
    } else if b[from].rank() < a[from].rank() {
        false
    } else {
        precedes(a, b, from + 1)
    }
}

/// Whether one of seven bit patterns is not a number.
pub open spec fn has_nan(bits: Seq<u64>) -> bool {
    exists|k: int| 0 <= k < 7 && is_nan_bits(#[trigger] bits[k])
}

/// Two pseudojets with the same seven quantities are the same pseudojet.
pub proof fn lemma_parts_injective(p: PseudoJet, q: PseudoJet)
    ensures
        p.parts().len() == 7,
        q.parts().len() == 7,
        (p.parts() == q.parts()) == (p == q),
{
    if p.parts() == q.parts() {
        assert(p.parts()[0] == q.parts()[0]);
        assert(p.parts()[1] == q.parts()[1]);
        assert(p.parts()[2] == q.parts()[2]);
        assert(p.parts()[3] == q.parts()[3]);
        assert(p.parts()[4] == q.parts()[4]);
        assert(p.parts()[5] == q.parts()[5]);
        assert(p.parts()[6] == q.parts()[6]);
    }
}

/// Of two pseudojets, one comes before the other or they are the same
/// pseudojet, and never more than one of the three.
pub proof fn lemma_precedes_total(a: PseudoJet, b: PseudoJet)
    ensures
        precedes(a.parts(), b.parts(), 0) || precedes(b.parts(), a.parts(), 0) || a == b,
        !(precedes(a.parts(), b.parts(), 0) && precedes(b.parts(), a.parts(), 0)),
        a == b ==> !precedes(a.parts(), b.parts(), 0),
{
    lemma_parts_injective(a, b);
    lemma_precedes_from(a.parts(), b.parts(), 0);
    if !precedes(a.parts(), b.parts(), 0) && !precedes(b.parts(), a.parts(), 0) {
        assert(a.parts() =~= b.parts());
    }
}

/// The lexicographic order from a position on: one list precedes the other,
/// or they agree from there on.
pub proof fn lemma_precedes_from(a: Seq<Scalar>, b: Seq<Scalar>, from: int)
    requires
        a.len() == b.len(),
        0 <= from <= a.len(),
    ensures
        !(precedes(a, b, from) && precedes(b, a, from)),
        !precedes(a, b, from) && !precedes(b, a, from) ==> forall|k: int|
            from <= k < a.len() ==> a[k] == b[k],
        (forall|k: int| from <= k < a.len() ==> a[k] == b[k]) ==> !precedes(a, b, from),
    decreases a.len() - from,
{
    if from < a.len() {
        lemma_rank_injective(a[from], b[from]);
        lemma_precedes_from(a, b, from + 1);
    }
}

} // verus!
