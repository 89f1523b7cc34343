//! Clustering steps: a jet found, or two pseudojets combined.
use vstd::prelude::*;
use vstd::std_specs::cmp::PartialEqSpecImpl;
use vstd::std_specs::convert::FromSpecImpl;
use crate::pseudojet::{lemma_precedes_total, precedes, PseudoJet};

verus! {

/// Result of a clustering step
#[derive(Clone, Copy, Debug)]
pub enum ClusterStep {
    /// Two pseudojets were combined into a new pseudojet
    Combine([PseudoJet; 2]),
    /// A jet was found
    Jet(PseudoJet),
}

/// Equality of clustering steps: the two pseudojets of a combination are an
/// unordered pair.
pub open spec fn same_step(a: ClusterStep, b: ClusterStep) -> bool {
    match (a, b) {
        (ClusterStep::Combine(l), ClusterStep::Combine(r)) => (l[0] == r[0] && l[1] == r[1]) || (
        l[0] == r[1] && l[1] == r[0]),
        (ClusterStep::Jet(l), ClusterStep::Jet(r)) => l == r,
        _ => false,
    }
}

/// The representative of a step among all steps equal to it: a combination
/// lists the pseudojet that compares smaller first.
pub open spec fn spec_canonical(a: ClusterStep) -> ClusterStep {
    match a {
        ClusterStep::Combine(l) => if precedes(l[0].parts(), l[1].parts(), 0) {
            a
        } else {
            ClusterStep::Combine([l[1], l[0]])
        },
        ClusterStep::Jet(_) => a,
    }
}

/// The bit patterns of the seven quantities of a pseudojet.
pub open spec fn bits_of(p: PseudoJet) -> Seq<u64> {
    Seq::new(7, |k: int| p.parts()[k].spec_bits())
}

/// What a hash of a step is computed from.
pub open spec fn spec_hash_key(a: ClusterStep) -> Seq<u64> {
    match spec_canonical(a) {
        ClusterStep::Combine(l) => seq![2u64] + bits_of(l[0]) + bits_of(l[1]),
        ClusterStep::Jet(p) => seq![1u64] + bits_of(p),
    }
}

fn push_bits(key: &mut Vec<u64>, p: &PseudoJet)
    ensures
        final(key)@ == old(key)@ + bits_of(*p),
{
    let ghost before = key@;
    let mut i: usize = 0;
    while i < 7
        invariant
            0 <= i <= 7,
            key@ == before + bits_of(*p).subrange(0, i as int),
        decreases 7 - i,
    {
        let s = p.part(i);
        key.push(s.to_bits());
        i += 1;
        assert(key@ =~= before + bits_of(*p).subrange(0, i as int));
    }
    assert(bits_of(*p).subrange(0, 7) =~= bits_of(*p));
}

impl ClusterStep {
    /// The representative of this step among all steps equal to it. Equal
    /// steps have the same representative, so a hash of the representative
    /// agrees with `==`.
    pub fn canonical(&self) -> (r: ClusterStep)
        ensures
            r == spec_canonical(*self),
    {
        match self {
            ClusterStep::Combine(l) => {
                if l[0].lt(&l[1]) {
                    *self
                } else {
                    ClusterStep::Combine([l[1], l[0]])
                }
            },
            ClusterStep::Jet(_) => *self,
        }
    }

    /// What a hash of this step is computed from: the number of pseudojets
    /// in the step, then the bit patterns of the seven quantities of each
    /// pseudojet of its representative.
    pub fn hash_key(&self) -> (r: Vec<u64>)
        ensures
            r@ == spec_hash_key(*self),
    {
        let mut key: Vec<u64> = Vec::new();
        match self.canonical() {
            ClusterStep::Combine(l) => {
                key.push(2);
                push_bits(&mut key, &l[0]);
                push_bits(&mut key, &l[1]);
            },
            ClusterStep::Jet(p) => {
                key.push(1);
                push_bits(&mut key, &p);
            },
        }
        key
    }

    /// Whether this step declares a jet.
    pub fn is_jet(&self) -> (r: bool)
        ensures
            r == (*self is Jet),
    {
        match self {
            ClusterStep::Jet(_) => true,
            ClusterStep::Combine(_) => false,
        }
    }
}

impl PartialEq for ClusterStep {
    fn eq(&self, other: &Self) -> (r: bool) {
        match (self, other) {
            (ClusterStep::Combine(l), ClusterStep::Combine(r)) => {
                (l[0] == r[0] && l[1] == r[1]) || (l[0] == r[1] && l[1] == r[0])
            },
            (ClusterStep::Jet(l), ClusterStep::Jet(r)) => *l == *r,
            _ => false,
        }
    }
}

impl PartialEqSpecImpl for ClusterStep {
    open spec fn obeys_eq_spec() -> bool {
        true
    }

    open spec fn eq_spec(&self, other: &Self) -> bool {
        same_step(*self, *other)
    }
}

impl Eq for ClusterStep {

}

impl From<[PseudoJet; 2]> for ClusterStep {
    fn from(source: [PseudoJet; 2]) -> (r: Self) {
        ClusterStep::Combine(source)
    }
}

impl FromSpecImpl<[PseudoJet; 2]> for ClusterStep {
    open spec fn obeys_from_spec() -> bool {
        true
    }

    open spec fn from_spec(source: [PseudoJet; 2]) -> Self {
        ClusterStep::Combine(source)
    }
}

impl From<PseudoJet> for ClusterStep {
    fn from(jet: PseudoJet) -> (r: Self) {
        ClusterStep::Jet(jet)
    }
}

impl FromSpecImpl<PseudoJet> for ClusterStep {
    open spec fn obeys_from_spec() -> bool {
        true
    }

    open spec fn from_spec(jet: PseudoJet) -> Self {
        ClusterStep::Jet(jet)
    }
}

/// `Hash::hash` for `u64`: feeds the value into the hasher. Nothing is said
/// about the state of the hasher.
pub assume_specification<H: std::hash::Hasher>[ <u64 as std::hash::Hash>::hash::<H> ](
    value: &u64,
    state: &mut H,
);

impl std::hash::Hash for ClusterStep {
    fn hash<H: std::hash::Hasher>(&self, state: &mut H) {
        let key = self.hash_key();
        let mut i: usize = 0;
        while i < key.len()
            invariant
                0 <= i <= key.len(),
            decreases key.len() - i,
        {
            key[i].hash(state);
            i += 1;
        }
    }
}

/// Combining `a` with `b` is the same step as combining `b` with `a`, and
/// both have the same representative.
pub proof fn lemma_combine_symmetric(a: PseudoJet, b: PseudoJet)
    ensures
        same_step(ClusterStep::Combine([a, b]), ClusterStep::Combine([b, a])),
        spec_canonical(ClusterStep::Combine([a, b])) == spec_canonical(
            ClusterStep::Combine([b, a]),
        ),
{
    lemma_precedes_total(a, b);
    assert([a, b]@ =~= [b, a]@ ==> [a, b] == [b, a]);
}

/// Equal steps are hashed alike: what their hashes are computed from is
/// the same.
pub proof fn lemma_equal_steps_hash_alike(a: ClusterStep, b: ClusterStep)
    requires
        same_step(a, b),
    ensures
        spec_hash_key(a) == spec_hash_key(b),
{
    lemma_same_step_iff_canonical(a, b);
}

/// A step equals another exactly when both have the same representative.
pub proof fn lemma_same_step_iff_canonical(a: ClusterStep, b: ClusterStep)
    ensures
        same_step(a, b) == (spec_canonical(a) == spec_canonical(b)),
{
    match (a, b) {
        (ClusterStep::Combine(l), ClusterStep::Combine(r)) => {
            lemma_precedes_total(l[0], l[1]);
            lemma_precedes_total(r[0], r[1]);
            let cl = spec_canonical(a)->Combine_0;
            let cr = spec_canonical(b)->Combine_0;
            assert(cl[0] == l[0] && cl[1] == l[1] || cl[0] == l[1] && cl[1] == l[0]);
            assert(cr[0] == r[0] && cr[1] == r[1] || cr[0] == r[1] && cr[1] == r[0]);
            if same_step(a, b) {
                assert(cl[0] == cr[0]);
                assert(cl[1] == cr[1]);
                assert(cl =~= cr);
            }
        },
        _ => {},
    }
}

} // verus!
