//! Clustering using the geometric O(N^2) approach of [arXiv:0512210](https://arxiv.org/abs/hep-ph/0512210)
//!
//! Every active pseudojet points at its nearest neighbour in the plane of
//! rapidity and azimuthal angle. The pseudojet with the smallest distance,
//! to the one it points at or to the beam, has its turn.
use vstd::prelude::*;
use crate::cluster::naive::{
    chosen, lemma_chosen_has_least_distance, lemma_chosen_is_least, table_fits, value_at, Entry,
};
use crate::cluster::nearest::{
    back, best_among, candidates_ok, detach, distance_ok, distances_ok, entry_ok, exchanged,
    follows_separation, infinite_when_apart, jet_at, key_of, lemma_keys,
    lemma_nearest_of_is_best, lemma_nearest_upto, lemma_pointers_valid, lemma_turn_is_least,
    linked, min_idx, near_of, nearest_of, nn, pointer_ok, pointers_of, pointers_pushed,
    pointers_removed, pointers_valid, pseudojets_of, push, settled, step_at, symmetric, turn,
    update_nearest_at_idx, PseudoJetWithDist, NONE,
};
use crate::cluster::{lemma_merged_multiset, lemma_swap_removed_multiset, swap_removed, ClusterHist, ClusterStep};
use crate::distance::Distance;
use crate::pseudojet::PseudoJet;
use crate::scalar::{lemma_rank_injective, Scalar, INFINITY_BITS};

verus! {

/// Cluster history using the geometric O(N^2) approach of [arXiv:0512210](https://arxiv.org/abs/hep-ph/0512210)
pub struct ClusterGeom<D> {
    pseudojets: Vec<PseudoJetWithDist>,
    distance: D,
}

/// The positions from zero up to `n`, in ascending order.
pub open spec fn positions(n: int) -> Seq<usize> {
    Seq::new(n as nat, |i: int| i as usize)
}

/// The candidates for the nearest neighbour of any of `n` pseudojets: all
/// of them.
pub open spec fn everywhere(n: int) -> spec_fn(int) -> Seq<usize> {
    |k: int| positions(n)
}

/// The pointers at the start: every pseudojet points at the one nearest to
/// it in the plane of rapidity and azimuthal angle, the first one of
/// several.
pub open spec fn initial_pointers<D: Distance>(d: D, partons: Seq<PseudoJet>) -> Seq<usize> {
    Seq::new(
        partons.len(),
        |i: int| nearest_of(d, partons, i, positions(partons.len() as int), false),
    )
}

/// The pointers after the pseudojet at position `idx` has left.
pub open spec fn pointers_without<D: Distance>(
    d: D,
    pjs: Seq<PseudoJet>,
    ptr: Seq<usize>,
    idx: usize,
) -> Seq<usize> {
    pointers_removed(d, pjs, ptr, idx, everywhere(pjs.len() - 1))
}

/// The active pseudojets after the step that pseudojets with pointers
/// decide. The last pseudojet takes the position of one that leaves; what
/// two pseudojets combine into is appended.
pub open spec fn active_after<D: Distance>(d: D, pjs: Seq<PseudoJet>, ptr: Seq<usize>) -> Seq<
    PseudoJet,
> {
    let i = turn(d, pjs, ptr);
    let first = swap_removed(pjs, i);
    if jet_at(d, pjs, ptr, i) {
        first
    } else {
        let j = exchanged(i as usize, (pjs.len() - 1) as usize, ptr[i]);
        swap_removed(first, j as int).push(d.spec_combine(pjs[i], pjs[ptr[i] as int]))
    }
}

/// The pointers after the step that pseudojets with pointers decide.
pub open spec fn pointers_after<D: Distance>(d: D, pjs: Seq<PseudoJet>, ptr: Seq<usize>) -> Seq<
    usize,
> {
    let i = turn(d, pjs, ptr);
    let pjs1 = swap_removed(pjs, i);
    let ptr1 = pointers_without(d, pjs, ptr, i as usize);
    if jet_at(d, pjs, ptr, i) {
        ptr1
    } else {
        let j = exchanged(i as usize, (pjs.len() - 1) as usize, ptr[i]);
        let pjs2 = swap_removed(pjs1, j as int);
        let ptr2 = pointers_without(d, pjs1, ptr1, j);
        pointers_pushed(
            d,
            pjs2,
            ptr2,
            d.spec_combine(pjs[i], pjs[ptr[i] as int]),
            positions(pjs2.len() as int),
        )
    }
}

/// The steps that follow from pseudojets with pointers, from the next one
/// to the last one.
pub open spec fn history_of<D: Distance>(d: D, pjs: Seq<PseudoJet>, ptr: Seq<usize>) -> Seq<
    ClusterStep,
>
    decreases pjs.len(),
{
    if pjs.len() == 0 || active_after(d, pjs, ptr).len() >= pjs.len() {
        Seq::empty()
    } else {
        seq![step_at(d, pjs, ptr)] + history_of(
            d,
            active_after(d, pjs, ptr),
            pointers_after(d, pjs, ptr),
        )
    }
}

/// Whether every pointer is at a nearest neighbour among all other
/// pseudojets, or at none where there is none.
pub open spec fn all_nearest<D: Distance>(d: D, pjs: Seq<PseudoJet>, ptr: Seq<usize>) -> bool {
    forall|i: int|
        0 <= i < pjs.len() ==> #[trigger] best_among(
            d,
            pjs,
            i,
            ptr[i],
            positions(pjs.len() as int),
        )
}

impl<D: Distance> ClusterGeom<D> {
    /// The distance measure.
    pub closed spec fn measure(&self) -> D {
        self.distance
    }

    /// The active pseudojets with their distances and pointers.
    pub closed spec fn records(&self) -> Seq<PseudoJetWithDist> {
        self.pseudojets@
    }

    /// The nearest-neighbour pointers of the active pseudojets.
    pub open spec fn pointers(&self) -> Seq<usize> {
        pointers_of(self.records())
    }

    /// What holds before and after every step: every pointer is `NONE` or
    /// names another active pseudojet, and that one is a nearest neighbour
    /// in the plane of rapidity and azimuthal angle; a pseudojet lists
    /// exactly those that point at it, each once; the stored distances are
    /// those of the distance measure.
    pub proof fn lemma_invariant(&self)
        requires
            self.wf(),
        ensures
            linked(self.records(), -1),
            settled(self.records()),
            distances_ok(self.measure(), self.records()),
            all_nearest(self.measure(), self.active(), self.pointers()),
    {
    }

    /// Initialise clustering for the given `partons` and `distance`
    ///
    /// Every pseudojet points at the one nearest to it in the plane of
    /// rapidity and azimuthal angle, the first one of several.
    pub fn new(partons: Vec<PseudoJet>, distance: D) -> (r: Self)
        requires
            partons.len() < usize::MAX,
        ensures
            r.wf(),
            r.active() == partons@,
            r.measure() == distance,
            r.pointers() == initial_pointers(distance, partons@),
    {
        let n = partons.len();
        let mut pseudojets: Vec<PseudoJetWithDist> = Vec::new();
        let mut i: usize = 0;
        while i < n
            invariant
                0 <= i <= n,
                n == partons.len(),
                pseudojets.len() == i,
                forall|k: int|
                    0 <= k < i ==> {
                        &&& (#[trigger] pseudojets@[k]).pseudojet == partons@[k]
                        &&& pseudojets@[k].beam_dist == distance.spec_beam_distance(partons@[k])
                        &&& pseudojets@[k].nearest_dist == Scalar::spec_infinity()
                        &&& pseudojets@[k].nearest_neighbour_idx == NONE
                        &&& pseudojets@[k].nearest_neighbour_for@.len() == 0
                    },
            decreases n - i,
        {
            pseudojets.push(
                PseudoJetWithDist {
                    pseudojet: partons[i],
                    beam_dist: distance.beam_distance(&partons[i]),
                    nearest_dist: Scalar::infinity(),
                    nearest_neighbour_idx: NONE,
                    nearest_neighbour_for: Vec::new(),
                },
            );
            i += 1;
        }
        proof {
            assert forall|j: int| 0 <= j < n implies #[trigger] pointer_ok(pseudojets@, j) by {
                assert(pseudojets@[j].nearest_neighbour_idx == NONE);
            }
            assert forall|j: int| 0 <= j < n implies #[trigger] distance_ok(
                distance,
                pseudojets@,
                j,
            ) by {
                assert(pseudojets@[j].nearest_neighbour_idx == NONE);
            }
            assert forall|j: int| 0 <= j < n implies (#[trigger] back(
                pseudojets@,
                j,
            )).no_duplicates() by {
                assert(pseudojets@[j].nearest_neighbour_for@.len() == 0);
            }
            assert forall|j: int, t: int|
                0 <= j < n && 0 <= t < back(pseudojets@, j).len() implies #[trigger] entry_ok(
                pseudojets@,
                j,
                t,
                -1,
            ) by {
                assert(pseudojets@[j].nearest_neighbour_for@.len() == 0);
            }
            assert(pseudojets_of(pseudojets@) =~= partons@);
        }
        let candidates = all_positions(n);
        let mut i: usize = 0;
        while i < n
            invariant
                0 <= i <= n,
                n == partons.len(),
                pseudojets.len() == n,
                candidates@ == positions(n as int),
                candidates_ok(candidates@, n as int),
                linked(pseudojets@, -1),
                distances_ok(distance, pseudojets@),
                pseudojets_of(pseudojets@) == partons@,
                forall|k: int| 0 <= k < n ==> #[trigger] nn(pseudojets@, k) != n,
                forall|k: int|
                    0 <= k < i ==> #[trigger] nn(pseudojets@, k) == nearest_of(
                        distance,
                        partons@,
                        k,
                        positions(n as int),
                        false,
                    ),
            decreases n - i,
        {
            update_nearest_at_idx(&mut pseudojets, i, &candidates, &distance, false);
            i += 1;
        }
        proof {
            assert forall|k: int| 0 <= k < n implies pointers_of(pseudojets@)[k]
                == initial_pointers(distance, partons@)[k] by {
                assert(nn(pseudojets@, k) == pointers_of(pseudojets@)[k]);
            }
            assert(pointers_of(pseudojets@) =~= initial_pointers(distance, partons@));
            assert forall|k: int| 0 <= k < n implies #[trigger] best_among(
                distance,
                partons@,
                k,
                pointers_of(pseudojets@)[k],
                positions(n as int),
            ) by {
                lemma_nearest_of_is_best(distance, partons@, k, positions(n as int), false);
            }
        }
        ClusterGeom { pseudojets, distance }
    }

    /// Remove pseudojet at `idx`, updating the nearest-neighbour indices
    fn remove(&mut self, idx: usize) -> (out: PseudoJetWithDist)
        requires
            old(self).wf(),
            idx < old(self).active().len(),
        ensures
            final(self).wf(),
            final(self).measure() == old(self).measure(),
            final(self).active() == swap_removed(old(self).active(), idx as int),
            out.pseudojet == old(self).records()[idx as int].pseudojet,
            out.beam_dist == old(self).records()[idx as int].beam_dist,
            out.nearest_dist == old(self).records()[idx as int].nearest_dist,
            out.nearest_neighbour_idx == exchanged(
                idx,
                (old(self).active().len() - 1) as usize,
                nn(old(self).records(), idx as int),
            ),
            out.nearest_neighbour_idx == NONE
                || out.nearest_neighbour_idx < final(self).active().len(),
            final(self).pointers() == pointers_without(
                old(self).measure(),
                old(self).active(),
                old(self).pointers(),
                idx,
            ),
    {
        let ghost s0 = self.pseudojets@;
        let out = detach(&mut self.pseudojets, idx);
        let ghost s1 = self.pseudojets@;
        proof {
            let s0 = old(self).pseudojets@;
            let s1 = self.pseudojets@;
            assert forall|k: int| 0 <= k < s1.len() implies #[trigger] distance_ok(
                self.distance,
                s1,
                k,
            ) by {
                let last = (s0.len() - 1) as usize;
                let m = exchanged(idx, last, k as usize) as int;
                assert(s1[k].pseudojet == s0[m].pseudojet);
                assert(distance_ok(self.distance, s0, m));
                assert(pointer_ok(s0, m));
                let q = nn(s1, k);
                if q < s1.len() {
                    let q0 = nn(s0, m);
                    assert(exchanged(idx, last, exchanged(idx, last, q0)) == q0);
                    assert(s1[q as int].pseudojet == s0[exchanged(idx, last, q) as int].pseudojet);
                }
            }
        }
        proof {
            assert forall|k: int| 0 <= k < s1.len() implies out.nearest_neighbour_for@.contains(
                k as usize,
            ) == (nn(s1, k) == s1.len()) by {}
        }
        self.update_nearest(&out.nearest_neighbour_for);
        proof {
            let s2 = self.pseudojets@;
            let last = (s0.len() - 1) as usize;
            let model = pointers_without(self.distance, pseudojets_of(s0), pointers_of(s0), idx);
            assert forall|k: int| 0 <= k < s2.len() implies pointers_of(s2)[k] == model[k] by {
                let m = exchanged(idx, last, k as usize) as int;
                assert(s1[k].nearest_neighbour_idx == exchanged(idx, last, nn(s0, m)));
                assert(pointers_of(s0)[m] == nn(s0, m));
                assert(nn(s2, k) == pointers_of(s2)[k]);
                assert(s1.len() == last);
                assert(everywhere(s0.len() - 1)(k) == positions(s0.len() - 1));
            }
            assert(pointers_of(s2) =~= model);
            lemma_pointers_valid(s0);
            lemma_without_nearest(self.distance, pseudojets_of(s0), pointers_of(s0), idx);
        }
        out
    }

    /// Find the nearest neighbours of the pseudojets at the given
    /// positions anew.
    fn update_nearest(&mut self, pos: &Vec<usize>)
        requires
            linked(old(self).records(), -1),
            distances_ok(old(self).measure(), old(self).records()),
            forall|t: int| 0 <= t < pos@.len() ==> (#[trigger] pos@[t]) < old(self).records().len(),
            forall|k: int|
                0 <= k < old(self).records().len() ==> pos@.contains(k as usize) == (nn(
                    old(self).records(),
                    k,
                ) == old(self).records().len()),
        ensures
            linked(final(self).records(), -1),
            settled(final(self).records()),
            distances_ok(final(self).measure(), final(self).records()),
            final(self).measure() == old(self).measure(),
            final(self).active() == old(self).active(),
            final(self).records().len() == old(self).records().len(),
            forall|k: int|
                0 <= k < old(self).records().len() ==> #[trigger] nn(final(self).records(), k)
                    == if nn(old(self).records(), k) == old(self).records().len() {
                    nearest_of(
                        old(self).measure(),
                        old(self).active(),
                        k,
                        positions(old(self).records().len() as int),
                        false,
                    )
                } else {
                    nn(old(self).records(), k)
                },
    {
        let n = self.pseudojets.len();
        let candidates = all_positions(n);
        let ghost pjs = pseudojets_of(self.pseudojets@);
        let ghost s0 = self.pseudojets@;
        let mut t: usize = 0;
        while t < pos.len()
            invariant
                0 <= t <= pos.len(),
                n == self.pseudojets.len(),
                self.distance == old(self).distance,
                candidates_ok(candidates@, n as int),
                linked(self.pseudojets@, -1),
                distances_ok(self.distance, self.pseudojets@),
                pseudojets_of(self.pseudojets@) == pjs,
                candidates@ == positions(n as int),
                s0.len() == n,
                forall|u: int| 0 <= u < pos@.len() ==> (#[trigger] pos@[u]) < n,
                forall|k: int|
                    0 <= k < n ==> pos@.contains(k as usize) == (nn(s0, k) == n),
                forall|k: int|
                    0 <= k < n ==> #[trigger] nn(self.pseudojets@, k) == if pos@.subrange(
                        0,
                        t as int,
                    ).contains(k as usize) {
                        nearest_of(self.distance, pjs, k, positions(n as int), false)
                    } else {
                        nn(s0, k)
                    },
            decreases pos.len() - t,
        {
            let ghost before = self.pseudojets@;
            update_nearest_at_idx(&mut self.pseudojets, pos[t], &candidates, &self.distance, false);
            proof {
                let done = pos@.subrange(0, t as int);
                let more = pos@.subrange(0, t + 1);
                assert(more =~= done.push(pos@[t as int]));
                assert forall|k: usize| more.contains(k) == (done.contains(k) || k == pos@[t as int]) by {
                    if done.contains(k) {
                        let u = choose|u: int| 0 <= u < done.len() && done[u] == k;
                        assert(more[u] == k);
                    }
                    if k == pos@[t as int] {
                        assert(more[t as int] == k);
                    }
                }
                assert forall|k: int| 0 <= k < n implies #[trigger] nn(self.pseudojets@, k) == if more.contains(
                    k as usize,
                ) {
                    nearest_of(self.distance, pjs, k, positions(n as int), false)
                } else {
                    nn(s0, k)
                } by {
                    if k != pos@[t as int] {
                        assert(nn(self.pseudojets@, k) == nn(before, k));
                    }
                }
            }
            t += 1;
        }
        proof {
            assert(pos@.subrange(0, pos@.len() as int) =~= pos@);
            assert forall|k: int| 0 <= k < n implies #[trigger] nn(self.pseudojets@, k) != n by {
                if pos@.contains(k as usize) {
                    lemma_nearest_upto(
                        self.distance,
                        pjs,
                        k,
                        positions(n as int),
                        n as int,
                        false,
                    );
                }
            }
        }
    }
}

impl<D: Distance> ClusterHist for ClusterGeom<D> {
    closed spec fn wf(&self) -> bool {
        &&& linked(self.pseudojets@, -1)
        &&& settled(self.pseudojets@)
        &&& distances_ok(self.distance, self.pseudojets@)
        &&& all_nearest(self.distance, pseudojets_of(self.pseudojets@), pointers_of(self.pseudojets@))
    }

    open spec fn active(&self) -> Seq<PseudoJet> {
        pseudojets_of(self.records())
    }

    open spec fn merged(&self, p1: PseudoJet, p2: PseudoJet) -> PseudoJet {
        self.measure().spec_combine(p1, p2)
    }

    open spec fn history(&self) -> Seq<ClusterStep> {
        history_of(self.measure(), self.active(), self.pointers())
    }

    /// Perform the next clustering step
    ///
    /// The pseudojet with the smallest distance, to its nearest neighbour
    /// or to the beam, has its turn. It becomes a jet if it has no
    /// neighbour or is nearer to the beam; otherwise it is combined with
    /// its neighbour.
    #[verifier::rlimit(60)]
    fn next(&mut self) -> (step: Option<ClusterStep>)
        ensures
            final(self).measure() == old(self).measure(),
            old(self).active().len() > 0 ==> {
                &&& step == Some(step_at(old(self).measure(), old(self).active(), old(self).pointers()))
                &&& final(self).active() == active_after(
                    old(self).measure(),
                    old(self).active(),
                    old(self).pointers(),
                )
                &&& final(self).pointers() == pointers_after(
                    old(self).measure(),
                    old(self).active(),
                    old(self).pointers(),
                )
            },
    {
        let ghost s0 = self.pseudojets@;
        let ghost before = pseudojets_of(s0);
        let ghost ptr = pointers_of(s0);
        proof {
            lemma_keys(self.distance, s0, s0.len() as int);
        }
        let i = match min_idx(&self.pseudojets) {
            Some(i) => i,
            None => {
                return None;
            },
        };
        proof {
            assert(pointer_ok(s0, i as int));
            lemma_swap_removed_multiset(before, i as int);
        }
        let pi = self.remove(i);
        if pi.nearest_neighbour_idx == NONE || pi.beam_dist.lt(pi.nearest_dist) {
            assert(before.contains(before[i as int]));
            Some(ClusterStep::Jet(pi.pseudojet))
        } else {
            let j = pi.nearest_neighbour_idx;
            let ghost mid = pseudojets_of(self.pseudojets@);
            let ghost j0 = nn(s0, i as int);
            proof {
                assert(mid == swap_removed(before, i as int));
                assert(mid[j as int] == self.pseudojets@[j as int].pseudojet);
                assert(mid[j as int] == before[j0 as int]);
                assert(before[j0 as int] == s0[j0 as int].pseudojet);
                assert(before[i as int] == s0[i as int].pseudojet);
            }
            let pj = self.remove(j);
            let pi = pi.pseudojet;
            let pj = pj.pseudojet;
            let n = self.pseudojets.len();
            proof {
                assert(pseudojets_of(self.pseudojets@).len() == n);
                assert(mid.len() == before.len() - 1);
                assert(s0.len() < usize::MAX);
            }
            let candidates = all_positions(n);
            let merged = self.distance.combine(&pi, &pj);
            proof {
                let s2 = self.pseudojets@;
                lemma_pointers_valid(s2);
                lemma_pushed_nearest(self.distance, pseudojets_of(s2), pointers_of(s2), merged);
            }
            push(&mut self.pseudojets, merged, &candidates, &self.distance);
            let pair = [pi, pj];
            proof {
                assert(pj == before[j0 as int]);
                lemma_merged_multiset(before, i as int, j0 as int, merged);
                assert(pair =~= [before[i as int], before[j0 as int]]);
            }
            Some(ClusterStep::Combine(pair))
        }
    }
}

/// The positions from zero up to `n`, in ascending order.
pub fn all_positions(n: usize) -> (r: Vec<usize>)
    ensures
        r@ == positions(n as int),
        candidates_ok(r@, n as int),
{
    let mut r: Vec<usize> = Vec::new();
    let mut i: usize = 0;
    while i < n
        invariant
            0 <= i <= n,
            r@ == positions(i as int),
        decreases n - i,
    {
        r.push(i);
        i += 1;
        assert(r@ =~= positions(i as int));
    }
    r
}

/// A position is among the positions up to `n` if it is less than `n`.
pub proof fn lemma_positions(n: int, c: usize)
    requires
        0 <= n <= usize::MAX,
    ensures
        positions(n).contains(c) == (c < n),
{
    if c < n {
        assert(positions(n)[c as int] == c);
    }
}

/// When a pseudojet leaves, pointers at nearest neighbours stay pointers
/// at nearest neighbours.
pub proof fn lemma_without_nearest<D: Distance>(
    d: D,
    pjs: Seq<PseudoJet>,
    ptr: Seq<usize>,
    idx: usize,
)
    requires
        all_nearest(d, pjs, ptr),
        pointers_valid(ptr),
        ptr.len() == pjs.len(),
        idx < pjs.len() < usize::MAX,
    ensures
        all_nearest(d, swap_removed(pjs, idx as int), pointers_without(d, pjs, ptr, idx)),
{
    let n = pjs.len() as int;
    let last = (n - 1) as usize;
    let after = swap_removed(pjs, idx as int);
    let model = pointers_without(d, pjs, ptr, idx);
    assert forall|k: int| 0 <= k < after.len() implies #[trigger] best_among(
        d,
        after,
        k,
        model[k],
        positions(after.len() as int),
    ) by {
        let m = exchanged(idx, last, k as usize) as int;
        let q = exchanged(idx, last, ptr[m]);
        assert(after[k] == pjs[m]);
        assert(everywhere(n - 1)(k) == positions(n - 1));
        if q == last {
            assert forall|t: int| 0 <= t < positions(n - 1).len() implies (
            #[trigger] positions(n - 1)[t]) < after.len() by {}
            lemma_nearest_of_is_best(d, after, k, positions(n - 1), false);
        } else {
            assert(best_among(d, pjs, m, ptr[m], positions(n)));
            let b = ptr[m];
            if b != NONE {
                assert(after[q as int] == pjs[b as int]);
            }
            assert forall|c: usize| #[trigger] positions(n - 1).contains(c) && c != k implies {
                let x = exchanged(idx, last, c);
                &&& positions(n).contains(x)
                &&& x != m
                &&& after[c as int] == pjs[x as int]
            } by {
                lemma_positions(n - 1, c);
                lemma_positions(n, exchanged(idx, last, c));
            }
        }
    }
}

/// When a pseudojet is added, pointers at nearest neighbours become
/// pointers at nearest neighbours.
pub proof fn lemma_pushed_nearest<D: Distance>(
    d: D,
    pjs: Seq<PseudoJet>,
    ptr: Seq<usize>,
    p: PseudoJet,
)
    requires
        all_nearest(d, pjs, ptr),
        pointers_valid(ptr),
        ptr.len() == pjs.len(),
        pjs.len() + 1 < usize::MAX,
    ensures
        all_nearest(
            d,
            pjs.push(p),
            pointers_pushed(d, pjs, ptr, p, positions(pjs.len() as int)),
        ),
{
    let n = pjs.len() as int;
    let with = pjs.push(p);
    let model = pointers_pushed(d, pjs, ptr, p, positions(n));
    Scalar::lemma_bits_of(INFINITY_BITS);
    assert forall|k: int| 0 <= k <= n implies #[trigger] best_among(
        d,
        with,
        k,
        model[k],
        positions(n + 1),
    ) by {
        if k < n {
            assert(best_among(d, pjs, k, ptr[k], positions(n)));
            lemma_positions(n, k as usize);
            assert(with[k] == pjs[k]);
            assert(with[n] == p);
            if ptr[k] != NONE {
                assert(with[ptr[k] as int] == pjs[ptr[k] as int]);
            }
            assert forall|c: usize| #[trigger] positions(n + 1).contains(c) && c != k implies c
                == n || (positions(n).contains(c) && with[c as int] == pjs[c as int]) by {
                lemma_positions(n + 1, c);
                lemma_positions(n, c);
            }
        } else {
            assert forall|t: int| 0 <= t < positions(n).len() implies (#[trigger] positions(n)[t])
                < with.len() by {}
            lemma_nearest_of_is_best(d, with, n, positions(n), false);
            assert forall|c: usize| #[trigger] positions(n + 1).contains(c) && c != n implies positions(
                n,
            ).contains(c) by {
                lemma_positions(n + 1, c);
                lemma_positions(n, c);
            }
        }
    }
}

/// The geometric algorithm takes a step of the smallest distance: where
/// every pseudojet points at a nearest neighbour, and the distance measure
/// is symmetric and follows the separation, the smaller distance of the
/// pseudojet whose turn it is is no larger than the distance between any
/// two active pseudojets, and than the distance of any of them to the
/// beam. That is the distance that a search of all distances finds.
pub proof fn lemma_turn_has_least_distance<D: Distance>(
    d: D,
    pjs: Seq<PseudoJet>,
    ptr: Seq<usize>,
    weight: spec_fn(PseudoJet) -> int,
    i: int,
    j: int,
)
    requires
        all_nearest(d, pjs, ptr),
        pointers_valid(ptr),
        ptr.len() == pjs.len(),
        pjs.len() < usize::MAX,
        symmetric(d),
        follows_separation(d, weight),
        infinite_when_apart(d),
        0 <= i < pjs.len(),
        0 <= j < pjs.len(),
    ensures
        key_of(d, pjs, ptr, turn(d, pjs, ptr)).rank() <= value_at(
            d,
            pjs,
            i,
            j,
        ).rank(),
{
    let n = pjs.len() as int;
    lemma_turn_is_least(d, pjs, ptr, n);
    Scalar::lemma_bits_of(INFINITY_BITS);
    if i != j {
        let (a, c) = if weight(pjs[i]) <= weight(pjs[j]) {
            (i, j)
        } else {
            (j, i)
        };
        assert(d.spec_distance(pjs[a], pjs[c]) == d.spec_distance(pjs[i], pjs[j]));
        assert(best_among(d, pjs, a, ptr[a], positions(n)));
        lemma_positions(n, c as usize);
        assert(key_of(d, pjs, ptr, turn(d, pjs, ptr)).rank() <= key_of(d, pjs, ptr, a).rank());
        if ptr[a] != NONE {
            let b = ptr[a] as int;
            assert(d.spec_distance(pjs[a], pjs[b]).rank() <= d.spec_distance(pjs[a], pjs[c]).rank());
        }
    } else {
        assert(key_of(d, pjs, ptr, turn(d, pjs, ptr)).rank() <= key_of(d, pjs, ptr, i).rank());
    }
}

/// The smaller distance of the pseudojet whose turn it is is the distance
/// between two active pseudojets or the distance of one of them to the
/// beam, where no distance to the beam is beyond infinity.
pub proof fn lemma_turn_distance_is_a_distance<D: Distance>(
    d: D,
    pjs: Seq<PseudoJet>,
    ptr: Seq<usize>,
)
    requires
        pointers_valid(ptr),
        ptr.len() == pjs.len(),
        0 < pjs.len() <= usize::MAX,
        forall|p: PseudoJet| (#[trigger] d.spec_beam_distance(p)).rank() <= INFINITY_BITS,
    ensures
        exists|i: int, j: int|
            0 <= i < pjs.len() && 0 <= j < pjs.len() && key_of(d, pjs, ptr, turn(d, pjs, ptr))
                == #[trigger] value_at(d, pjs, i, j),
{
    let n = pjs.len() as int;
    lemma_turn_is_least(d, pjs, ptr, n);
    Scalar::lemma_bits_of(INFINITY_BITS);
    let a = turn(d, pjs, ptr);
    let key = key_of(d, pjs, ptr, a);
    if key == d.spec_beam_distance(pjs[a]) {
        assert(key == value_at(d, pjs, a, a));
    } else {
        let beam = d.spec_beam_distance(pjs[a]);
        let near = near_of(d, pjs, ptr, a);
        lemma_rank_injective(beam, Scalar::spec_infinity());
        assert(key == crate::scalar::spec_min(near, beam));
        assert(ptr[a] == NONE || ptr[a] < n);
        if ptr[a] == NONE {
            assert(near == Scalar::spec_infinity());
            assert(beam.rank() <= INFINITY_BITS);
        }
        assert(ptr[a] != NONE);
        assert(key == value_at(d, pjs, a, ptr[a] as int));
    }
}

/// The geometric algorithm and the search of all distances take steps of
/// the same distance: on the same active pseudojets, where every pointer
/// is at a nearest neighbour and the distance table fits, the smaller
/// distance of the pseudojet whose turn it is is the distance of the entry
/// that decides the step of the search, for a distance measure that is
/// symmetric, follows the separation, and is not beyond infinity to the
/// beam.
pub proof fn lemma_same_distance_as_search<D: Distance>(
    d: D,
    pjs: Seq<PseudoJet>,
    ptr: Seq<usize>,
    entries: Seq<Entry>,
    weight: spec_fn(PseudoJet) -> int,
)
    requires
        all_nearest(d, pjs, ptr),
        pointers_valid(ptr),
        ptr.len() == pjs.len(),
        0 < pjs.len() < usize::MAX,
        table_fits(d, pjs, entries),
        symmetric(d),
        follows_separation(d, weight),
        infinite_when_apart(d),
        forall|p: PseudoJet| (#[trigger] d.spec_beam_distance(p)).rank() <= INFINITY_BITS,
    ensures
        entries.len() > 0,
        key_of(d, pjs, ptr, turn(d, pjs, ptr)) == chosen(entries).0,
{
    let key = key_of(d, pjs, ptr, turn(d, pjs, ptr));
    let e = chosen(entries);
    lemma_chosen_has_least_distance(d, pjs, entries, 0, 0);
    lemma_chosen_is_least(entries, entries.len() as int);
    lemma_turn_distance_is_a_distance(d, pjs, ptr);
    let (i, j) = choose|i: int, j: int|
        0 <= i < pjs.len() && 0 <= j < pjs.len() && key == #[trigger] value_at(
            d,
            pjs,
            i,
            j,
        );
    lemma_chosen_has_least_distance(d, pjs, entries, i, j);
    lemma_turn_has_least_distance(d, pjs, ptr, weight, e.1 as int, e.2 as int);
    assert(e.0 == value_at(d, pjs, e.1 as int, e.2 as int));
    lemma_rank_injective(key, e.0);
}

} // verus!
