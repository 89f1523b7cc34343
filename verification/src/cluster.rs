//! Jet clustering algorithms
//!
//! In general, it is recommended to use the general-purpose
//! [ClusterHistory]. It chooses between the following specialised
//! algorithms by the number of partons:
//!
//! * [ClusterNaive](crate::cluster::naive::ClusterNaive): for few partons,
//!   at most about 25. Also use this algorithm for custom distances
//!   where the actual nearest neighbours are not always the nearest
//!   neighbours in ΔR.
//!
//! * [ClusterGeom](crate::cluster::geom::ClusterGeom): for a number of
//!   partons roughly between 25 and 50.
//!
//! * [ClusterGeomTile](crate::cluster::geom_tile::ClusterGeomTile): for a
//!   large number of partons starting at about 50.
pub mod geom;
pub mod geom_tile;
pub mod history;
pub mod naive;
pub mod nearest;
pub mod step;
pub mod tiles;

use vstd::prelude::*;
use crate::cluster::geom::ClusterGeom;
use crate::cluster::geom_tile::ClusterGeomTile;
use crate::cluster::history::{is_history, jets, jets_of, remaining_steps};
use crate::cluster::naive::ClusterNaive;
use crate::distance::Distance;
use crate::pseudojet::PseudoJet;

pub use crate::cluster::step::ClusterStep;

verus! {

/// How one step changes the active pseudojets.
///
/// Without a step nothing was active. A jet leaves the active pseudojets.
/// A combination takes two different active pseudojets away and puts what
/// `merge` makes of them in their place.
pub open spec fn step_taken(
    before: Seq<PseudoJet>,
    after: Seq<PseudoJet>,
    step: Option<ClusterStep>,
    merge: spec_fn(PseudoJet, PseudoJet) -> PseudoJet,
) -> bool {
    match step {
        None => before.len() == 0 && after.len() == 0,
        Some(ClusterStep::Jet(p)) => before.contains(p) && after.to_multiset()
            == before.to_multiset().remove(p),
        Some(ClusterStep::Combine(l)) => (exists|i: int, j: int|
            0 <= i < before.len() && 0 <= j < before.len() && i != j && before[i] == l[0]
                && before[j] == l[1]) && after.to_multiset() == before.to_multiset().remove(
            l[0],
        ).remove(l[1]).insert(merge(l[0], l[1])),
    }
}

/// What a clustering algorithm combines two pseudojets into, as a function.
pub open spec fn merging<H: ClusterHist>(hist: H) -> spec_fn(PseudoJet, PseudoJet) -> PseudoJet {
    |a: PseudoJet, b: PseudoJet| hist.merged(a, b)
}

/// Two clustering algorithms that combine alike have the same function.
pub proof fn lemma_merging<G: ClusterHist, H: ClusterHist>(g: G, h: H)
    requires
        forall|a: PseudoJet, b: PseudoJet| #[trigger] g.merged(a, b) == h.merged(a, b),
    ensures
        merging(g) == merging(h),
{
    assert(merging(g) =~= merging(h));
}

/// A clustering algorithm: a supply of clustering steps that ends when no
/// pseudojet is active any more.
pub trait ClusterHist: Sized {
    /// Whether the internal bookkeeping is consistent.
    spec fn wf(&self) -> bool;

    /// The pseudojets that are active, in the order in which they are kept.
    spec fn active(&self) -> Seq<PseudoJet>;

    /// What the distance measure of this algorithm combines two pseudojets
    /// into.
    spec fn merged(&self, p1: PseudoJet, p2: PseudoJet) -> PseudoJet;

    /// The steps to come, from the next one to the last one.
    spec fn history(&self) -> Seq<ClusterStep>;

    /// Perform the next clustering step
    fn next(&mut self) -> (step: Option<ClusterStep>)
        requires
            old(self).wf(),
        ensures
            final(self).wf(),
            old(self).history() == match step {
                Some(s) => seq![s] + final(self).history(),
                None => Seq::empty(),
            },
            step.is_none() == (old(self).active().len() == 0),
            step.is_some() ==> final(self).active().len() == old(self).active().len() - 1,
            step_taken(
                old(self).active(),
                final(self).active(),
                step,
                |a: PseudoJet, b: PseudoJet| old(self).merged(a, b),
            ),
            forall|a: PseudoJet, b: PseudoJet|
                #[trigger] final(self).merged(a, b) == old(self).merged(a, b),
    ;
}

/// The sequence that `Vec::swap_remove` leaves: the last element takes the
/// place of the removed one.
pub open spec fn swap_removed<T>(s: Seq<T>, k: int) -> Seq<T> {
    s.update(k, s.last()).drop_last()
}

/// Removing by swapping takes exactly the element at that position away.
pub proof fn lemma_swap_removed_multiset<T>(s: Seq<T>, k: int)
    requires
        0 <= k < s.len(),
    ensures
        swap_removed(s, k).len() == s.len() - 1,
        swap_removed(s, k).to_multiset() == s.to_multiset().remove(s[k]),
{
    broadcast use vstd::seq_lib::to_multiset_update, vstd::seq_lib::to_multiset_remove;
    broadcast use vstd::multiset::group_multiset_axioms;

    let u = s.update(k, s.last());
    assert(u.drop_last() =~= u.remove(u.len() - 1));
    assert(u.to_multiset() == s.to_multiset().insert(s.last()).remove(s[k]));
    assert(u.remove(u.len() - 1).to_multiset() == u.to_multiset().remove(u[u.len() - 1]));
    s.to_multiset_ensures();
    assert(s.to_multiset().count(s[k]) > 0) by {
        assert(s.contains(s[k]));
    }
    assert(swap_removed(s, k).to_multiset() =~= s.to_multiset().remove(s[k]));
}

/// Replacing two pseudojets by a third: both are removed by swapping, the
/// second one from the position that the first removal has left it at, and
/// the third is appended.
pub proof fn lemma_merged_multiset(s: Seq<PseudoJet>, i: int, j: int, m: PseudoJet)
    requires
        0 <= i < s.len(),
        0 <= j < s.len(),
        i != j,
    ensures
        ({
            let moved = if j == s.len() - 1 {
                i
            } else {
                j
            };
            let after = swap_removed(swap_removed(s, i), moved).push(m);
            &&& swap_removed(s, i)[moved] == s[j]
            &&& after.len() == s.len() - 1
            &&& after.to_multiset() == s.to_multiset().remove(s[i]).remove(s[j]).insert(m)
        }),
{
    broadcast use vstd::seq_lib::to_multiset_build;

    let moved = if j == s.len() - 1 {
        i
    } else {
        j
    };
    let first = swap_removed(s, i);
    lemma_swap_removed_multiset(s, i);
    lemma_swap_removed_multiset(first, moved);
}

/// The smallest number of partons that are clustered with the geometric
/// algorithm.
pub const START_GEOM_THRESHOLD: usize = 25;

/// The largest number of partons that are clustered with the geometric
/// algorithm without tiles.
pub const END_GEOM_THRESHOLD: usize = 49;

/// The smallest number of partons that are clustered with tiles.
pub const START_TILE_THRESHOLD: usize = 50;

/// The clustering algorithms.
pub enum Algorithm<D> {
    /// Search of all distances
    Naive(ClusterNaive<D>),
    /// Nearest neighbours among all pseudojets
    Geom(ClusterGeom<D>),
    /// Nearest neighbours among the pseudojets in the tiles around
    GeomTile(ClusterGeomTile<D>),
}

/// General-purpose cluster history
pub struct ClusterHistory<D> {
    hist: Algorithm<D>,
}

impl<D: Distance> ClusterHistory<D> {
    /// The algorithm in use, with its state.
    pub closed spec fn algorithm(&self) -> Algorithm<D> {
        self.hist
    }

    /// Initialise clustering for the given `partons` and `distance`
    ///
    /// Up to 24 partons are clustered by a search of all distances, 25 to
    /// 49 with nearest neighbours among all pseudojets, 50 or more with
    /// nearest neighbours among the pseudojets in the tiles around.
    pub fn new(partons: Vec<PseudoJet>, distance: D) -> (r: Self)
        requires
            partons.len() < usize::MAX,
        ensures
            r.wf(),
            r.active() == partons@,
            forall|a: PseudoJet, b: PseudoJet| #[trigger] r.merged(a, b) == distance.spec_combine(a, b),
            r.history() == history_of(distance, partons@),
            (r.algorithm() is Naive) == (partons.len() < START_GEOM_THRESHOLD),
            (r.algorithm() is Geom) == (START_GEOM_THRESHOLD <= partons.len()
                <= END_GEOM_THRESHOLD),
            (r.algorithm() is GeomTile) == (START_TILE_THRESHOLD <= partons.len()),
    {
        let n = partons.len();
        let hist = if n >= START_TILE_THRESHOLD {
            Algorithm::GeomTile(ClusterGeomTile::new(partons, distance))
        } else if n >= START_GEOM_THRESHOLD {
            Algorithm::Geom(ClusterGeom::new(partons, distance))
        } else {
            Algorithm::Naive(ClusterNaive::new(partons, distance))
        };
        ClusterHistory { hist }
    }
}

impl<D: Distance> ClusterHist for ClusterHistory<D> {
    closed spec fn wf(&self) -> bool {
        match self.hist {
            Algorithm::Naive(h) => h.wf(),
            Algorithm::Geom(h) => h.wf(),
            Algorithm::GeomTile(h) => h.wf(),
        }
    }

    open spec fn active(&self) -> Seq<PseudoJet> {
        match self.algorithm() {
            Algorithm::Naive(h) => h.active(),
            Algorithm::Geom(h) => h.active(),
            Algorithm::GeomTile(h) => h.active(),
        }
    }

    open spec fn merged(&self, p1: PseudoJet, p2: PseudoJet) -> PseudoJet {
        match self.algorithm() {
            Algorithm::Naive(h) => h.merged(p1, p2),
            Algorithm::Geom(h) => h.merged(p1, p2),
            Algorithm::GeomTile(h) => h.merged(p1, p2),
        }
    }

    open spec fn history(&self) -> Seq<ClusterStep> {
        match self.algorithm() {
            Algorithm::Naive(h) => h.history(),
            Algorithm::Geom(h) => h.history(),
            Algorithm::GeomTile(h) => h.history(),
        }
    }

    /// Perform the next clustering step
    fn next(&mut self) -> (step: Option<ClusterStep>)
        ensures
            final(self).algorithm() is Naive == old(self).algorithm() is Naive,
            final(self).algorithm() is Geom == old(self).algorithm() is Geom,
    {
        let ghost me = *self;
        let ghost mine = |a: PseudoJet, b: PseudoJet| me.merged(a, b);
        proof {
            match me.hist {
                Algorithm::Naive(h) => {
                    assert(mine =~= (|a: PseudoJet, b: PseudoJet| h.merged(a, b)));
                },
                Algorithm::Geom(h) => {
                    assert(mine =~= (|a: PseudoJet, b: PseudoJet| h.merged(a, b)));
                },
                Algorithm::GeomTile(h) => {
                    assert(mine =~= (|a: PseudoJet, b: PseudoJet| h.merged(a, b)));
                },
            }
        }
        match &mut self.hist {
            Algorithm::Naive(h) => h.next(),
            Algorithm::Geom(h) => h.next(),
            Algorithm::GeomTile(h) => h.next(),
        }
    }
}

impl<D: Distance> ClusterHistory<D> {
    /// Perform all clustering steps that are left.
    pub fn steps(&mut self) -> (steps: Vec<ClusterStep>)
        requires
            old(self).wf(),
        ensures
            final(self).wf(),
            final(self).active().len() == 0,
            steps@ == old(self).history(),
            steps@.len() == old(self).active().len(),
            is_history(old(self).active(), steps@, merging(*old(self))),
    {
        remaining_steps(self)
    }
}

/// The steps in which the general-purpose cluster history clusters the
/// partons under the distance measure `d`.
pub open spec fn history_of<D: Distance>(d: D, partons: Seq<PseudoJet>) -> Seq<ClusterStep> {
    if partons.len() >= START_TILE_THRESHOLD {
        geom_tile::history_of(
            d,
            partons,
            geom_tile::initial_pointers(d, partons),
            geom_tile::initial_grid(partons, partons.len() as int),
        )
    } else if partons.len() >= START_GEOM_THRESHOLD {
        geom::history_of(d, partons, geom::initial_pointers(d, partons))
    } else {
        naive::history_of(d, partons, naive::initial_rows(d, partons, partons.len() as int))
    }
}

/// What a distance measure combines two pseudojets into, as a function.
pub open spec fn merge_of<D: Distance>(d: D) -> spec_fn(PseudoJet, PseudoJet) -> PseudoJet {
    |a: PseudoJet, b: PseudoJet| d.spec_combine(a, b)
}

/// Whether `found` are the jets among the steps in which the partons are
/// clustered under the distance measure `d`, in the order in which they
/// are found. The steps are a complete cluster history of the partons.
pub open spec fn are_jets<D: Distance>(partons: Seq<PseudoJet>, d: D, found: Seq<PseudoJet>) -> bool {
    &&& found == jets_of(history_of(d, partons))
    &&& is_history(partons, history_of(d, partons), merge_of(d))
    &&& history_of(d, partons).len() == partons.len()
}

/// The pseudojets picked by the flags.
pub open spec fn picked(jets: Seq<PseudoJet>, flags: Seq<bool>, k: int) -> Seq<PseudoJet>
    decreases k,
{
    if k <= 0 {
        Seq::empty()
    } else if flags[k - 1] {
        picked(jets, flags, k - 1).push(jets[k - 1])
    } else {
        picked(jets, flags, k - 1)
    }
}

/// Whether `found` are those of the jets for which `accept` returned
/// `true`, in their order.
pub open spec fn are_accepted<F: Fn(PseudoJet) -> bool>(
    jets: Seq<PseudoJet>,
    accept: F,
    found: Seq<PseudoJet>,
) -> bool {
    exists|flags: Seq<bool>|
        flags.len() == jets.len() && (forall|k: int|
            0 <= k < jets.len() ==> accept.ensures((jets[k],), #[trigger] flags[k])) && found
            == #[trigger] picked(jets, flags, jets.len() as int)
}

/// Objects that can be clustered into jets
pub trait Cluster: Sized {
    /// The partons to be clustered.
    spec fn partons(self) -> Seq<PseudoJet>;

    /// Cluster into jets using the distance measure `d`
    fn cluster<D: Distance>(self, d: D) -> (found: Vec<PseudoJet>)
        requires
            self.partons().len() < usize::MAX,
        ensures
            are_jets(self.partons(), d, found@),
    ;

    /// Cluster into jets using the distance measure `d`
    /// Only jets for which `accept` is true are returned
    fn cluster_if<D, F>(self, d: D, accept: F) -> (found: Vec<PseudoJet>) where
        D: Distance,
        F: Fn(PseudoJet) -> bool,

        requires
            self.partons().len() < usize::MAX,
            forall|p: PseudoJet| #[trigger] accept.requires((p,)),
        ensures
            exists|all: Seq<PseudoJet>|
                #[trigger] are_jets(self.partons(), d, all) && are_accepted(all, accept, found@),
    ;
}

impl Cluster for Vec<PseudoJet> {
    open spec fn partons(self) -> Seq<PseudoJet> {
        self@
    }

    fn cluster<D: Distance>(self, d: D) -> (found: Vec<PseudoJet>) {
        let ghost partons = self@;
        let mut clustering = ClusterHistory::new(self, d);
        proof {
            assert(merging(clustering) =~= merge_of(d)) by {
                assert forall|a: PseudoJet, b: PseudoJet| #[trigger]
                    merging(clustering)(a, b) == merge_of(d)(a, b) by {
                    assert(clustering.merged(a, b) == d.spec_combine(a, b));
                }
            }
        }
        let steps = clustering.steps();
        let found = jets(&steps);
        proof {
            assert(is_history(partons, steps@, merge_of(d)));
        }
        found
    }

    fn cluster_if<D, F>(self, d: D, accept: F) -> (found: Vec<PseudoJet>) where
        D: Distance,
        F: Fn(PseudoJet) -> bool,
     {
        let all = self.cluster(d);
        let mut found: Vec<PseudoJet> = Vec::new();
        let ghost mut flags: Seq<bool> = Seq::empty();
        let mut k: usize = 0;
        while k < all.len()
            invariant
                0 <= k <= all.len(),
                forall|p: PseudoJet| #[trigger] accept.requires((p,)),
                flags.len() == k,
                forall|u: int| 0 <= u < k ==> accept.ensures((all@[u],), #[trigger] flags[u]),
                found@ == picked(all@, flags, k as int),
            decreases all.len() - k,
        {
            let jet = all[k];
            let keep = accept(jet);
            let ghost before = flags;
            proof {
                flags = flags.push(keep);
                lemma_picked_prefix(all@, before, flags, k as int);
            }
            if keep {
                found.push(jet);
            }
            k += 1;
        }
        found
    }
}

/// What the flags pick among the first `k` pseudojets depends on the first
/// `k` flags only.
pub proof fn lemma_picked_prefix(jets: Seq<PseudoJet>, a: Seq<bool>, b: Seq<bool>, k: int)
    requires
        0 <= k <= a.len(),
        k <= b.len(),
        forall|u: int| 0 <= u < k ==> a[u] == b[u],
    ensures
        picked(jets, a, k) == picked(jets, b, k),
    decreases k,
{
    if k > 0 {
        lemma_picked_prefix(jets, a, b, k - 1);
    }
}

/// Cluster `partons` into jets using the distance measure `d`
pub fn cluster<D: Distance>(partons: Vec<PseudoJet>, d: D) -> (found: Vec<PseudoJet>)
    requires
        partons.len() < usize::MAX,
    ensures
        are_jets(partons@, d, found@),
{
    partons.cluster(d)
}

/// Cluster `partons` into jets using the distance measure `d`
/// Only jets for which `accept` is true are returned
pub fn cluster_if<D, F>(partons: Vec<PseudoJet>, d: D, accept: F) -> (found: Vec<PseudoJet>) where
    D: Distance,
    F: Fn(PseudoJet) -> bool,

    requires
        partons.len() < usize::MAX,
        forall|p: PseudoJet| #[trigger] accept.requires((p,)),
    ensures
        exists|all: Seq<PseudoJet>|
            #[trigger] are_jets(partons@, d, all) && are_accepted(all, accept, found@),
{
    partons.cluster_if(d, accept)
}

} // verus!
