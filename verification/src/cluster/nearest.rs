//! Nearest-neighbour bookkeeping shared by the geometric algorithms.
//!
//! Every active pseudojet points at its nearest neighbour, and keeps a list
//! of the pseudojets that point at it. The lists say which pointers have to
//! be looked at again when a pseudojet leaves or changes its position. The
//! functions here are the only ones that change pointers or lists.
use vstd::prelude::*;
use crate::cluster::{swap_removed, ClusterStep};
use crate::distance::Distance;
use crate::pseudojet::PseudoJet;
use crate::scalar::{spec_min, Scalar, INFINITY_BITS};

verus! {

/// The pointer of a pseudojet that has no nearest neighbour.
pub const NONE: usize = usize::MAX;

/// A pseudojet with its distances and its place among its neighbours.
pub struct PseudoJetWithDist {
    /// The pseudojet
    pub pseudojet: PseudoJet,
    /// Its distance to the beam
    pub beam_dist: Scalar,
    /// Its distance to its nearest neighbour, or infinity if it has none
    pub nearest_dist: Scalar,
    /// The position of its nearest neighbour, or `NONE`
    pub nearest_neighbour_idx: usize,
    /// The positions of the pseudojets whose nearest neighbour it is
    pub nearest_neighbour_for: Vec<usize>,
}

/// The nearest-neighbour pointer of the pseudojet at position `i`.
pub open spec fn nn(recs: Seq<PseudoJetWithDist>, i: int) -> usize {
    recs[i].nearest_neighbour_idx
}

/// The positions listed at position `i` as pointing at it.
pub open spec fn back(recs: Seq<PseudoJetWithDist>, i: int) -> Seq<usize> {
    recs[i].nearest_neighbour_for@
}

/// The pseudojets of a list of records.
pub open spec fn pseudojets_of(recs: Seq<PseudoJetWithDist>) -> Seq<PseudoJet> {
    Seq::new(recs.len(), |i: int| recs[i].pseudojet)
}

/// The pointers of a list of records.
pub open spec fn pointers_of(recs: Seq<PseudoJetWithDist>) -> Seq<usize> {
    Seq::new(recs.len(), |i: int| recs[i].nearest_neighbour_idx)
}

/// A pointer is in order if it is `NONE`, or points just past the end (at a
/// pseudojet that is about to be appended, or that has just left), or points
/// at another position that lists it.
pub open spec fn pointer_ok(recs: Seq<PseudoJetWithDist>, j: int) -> bool {
    ||| nn(recs, j) == NONE
    ||| nn(recs, j) == recs.len()
    ||| (nn(recs, j) < recs.len() && nn(recs, j) != j && back(recs, nn(recs, j) as int).contains(
        j as usize,
    ))
}

/// A list entry is in order if it names a position that points back at the
/// owner of the list, and that is not the position `hole`.
pub open spec fn entry_ok(recs: Seq<PseudoJetWithDist>, i: int, t: int, hole: int) -> bool {
    let x = back(recs, i)[t];
    x < recs.len() && x != hole && nn(recs, x as int) == i
}

/// Pointers and lists agree, except that the pointer at position `hole` may
/// be stale: nothing is said about it, and no list names `hole`. With a
/// `hole` that is no position, they agree everywhere.
pub open spec fn linked(recs: Seq<PseudoJetWithDist>, hole: int) -> bool {
    &&& recs.len() < usize::MAX
    &&& forall|j: int| 0 <= j < recs.len() && j != hole ==> #[trigger] pointer_ok(recs, j)
    &&& forall|i: int, t: int|
        0 <= i < recs.len() && 0 <= t < back(recs, i).len() ==> #[trigger] entry_ok(recs, i, t, hole)
    &&& forall|i: int| 0 <= i < recs.len() ==> (#[trigger] back(recs, i)).no_duplicates()
}

/// No pointer points past the end.
pub open spec fn settled(recs: Seq<PseudoJetWithDist>) -> bool {
    forall|j: int| 0 <= j < recs.len() ==> #[trigger] nn(recs, j) != recs.len()
}

/// The stored distances at position `i` are those of the distance measure.
pub open spec fn distance_ok<D: Distance>(d: D, recs: Seq<PseudoJetWithDist>, i: int) -> bool {
    &&& recs[i].beam_dist == d.spec_beam_distance(recs[i].pseudojet)
    &&& nn(recs, i) < recs.len() ==> recs[i].nearest_dist == d.spec_distance(
        recs[i].pseudojet,
        recs[nn(recs, i) as int].pseudojet,
    )
    &&& nn(recs, i) == NONE ==> recs[i].nearest_dist == Scalar::spec_infinity()
}

/// The stored distances are those of the distance measure: the beam
/// distance of each pseudojet, and the distance of each pseudojet to the one
/// it points at, or infinity where it points at none.
pub open spec fn distances_ok<D: Distance>(d: D, recs: Seq<PseudoJetWithDist>) -> bool {
    forall|i: int| 0 <= i < recs.len() ==> #[trigger] distance_ok(d, recs, i)
}

/// Whether every pointer is `NONE` or names another position.
pub open spec fn pointers_valid(ptr: Seq<usize>) -> bool {
    forall|i: int|
        0 <= i < ptr.len() ==> (#[trigger] ptr[i]) == NONE || (ptr[i] < ptr.len() && ptr[i] != i)
}

/// The smaller of the two distances of a pseudojet: to its nearest
/// neighbour and to the beam.
pub open spec fn min_dist(rec: PseudoJetWithDist) -> Scalar {
    spec_min(rec.nearest_dist, rec.beam_dist)
}

/// The first position among the first `k` at which the smaller distance is
/// smallest.
pub open spec fn min_idx_upto(recs: Seq<PseudoJetWithDist>, k: int) -> int
    decreases k,
{
    if k <= 1 {
        0
    } else {
        let m = min_idx_upto(recs, k - 1);
        if min_dist(recs[k - 1]).rank() < min_dist(recs[m]).rank() {
            k - 1
        } else {
            m
        }
    }
}

/// Whether the pseudojet of a record is declared a jet when its turn comes:
/// it has no neighbour, or it is nearer to the beam than to its neighbour.
pub open spec fn is_jet(rec: PseudoJetWithDist) -> bool {
    rec.nearest_neighbour_idx == NONE || rec.beam_dist.rank() < rec.nearest_dist.rank()
}

/// The distance of the pseudojet at position `k` to the one that it points
/// at; infinity if it points at none.
pub open spec fn near_of<D: Distance>(d: D, pjs: Seq<PseudoJet>, ptr: Seq<usize>, k: int) -> Scalar {
    if ptr[k] < pjs.len() {
        d.spec_distance(pjs[k], pjs[ptr[k] as int])
    } else {
        Scalar::spec_infinity()
    }
}

/// The smaller of the two distances of the pseudojet at position `k`: to
/// the one that it points at and to the beam.
pub open spec fn key_of<D: Distance>(d: D, pjs: Seq<PseudoJet>, ptr: Seq<usize>, k: int) -> Scalar {
    spec_min(near_of(d, pjs, ptr, k), d.spec_beam_distance(pjs[k]))
}

/// The first position among the first `k` at which the smaller distance
/// is smallest.
pub open spec fn turn_upto<D: Distance>(d: D, pjs: Seq<PseudoJet>, ptr: Seq<usize>, k: int) -> int
    decreases k,
{
    if k <= 1 {
        0
    } else {
        let m = turn_upto(d, pjs, ptr, k - 1);
        if key_of(d, pjs, ptr, k - 1).rank() < key_of(d, pjs, ptr, m).rank() {
            k - 1
        } else {
            m
        }
    }
}

/// The position of the pseudojet whose turn it is: the first one at which
/// the smaller distance is smallest.
pub open spec fn turn<D: Distance>(d: D, pjs: Seq<PseudoJet>, ptr: Seq<usize>) -> int {
    turn_upto(d, pjs, ptr, pjs.len() as int)
}

/// Whether the pseudojet at position `i` is declared a jet when its turn
/// comes: it points at none, or it is nearer to the beam than to the one
/// that it points at.
pub open spec fn jet_at<D: Distance>(d: D, pjs: Seq<PseudoJet>, ptr: Seq<usize>, i: int) -> bool {
    ptr[i] == NONE || d.spec_beam_distance(pjs[i]).rank() < near_of(d, pjs, ptr, i).rank()
}

/// The step that pseudojets with pointers decide: the pseudojet with the
/// smallest distance becomes a jet, or is combined with the one that it
/// points at.
pub open spec fn step_at<D: Distance>(d: D, pjs: Seq<PseudoJet>, ptr: Seq<usize>) -> ClusterStep {
    let i = turn(d, pjs, ptr);
    if jet_at(d, pjs, ptr, i) {
        ClusterStep::Jet(pjs[i])
    } else {
        ClusterStep::Combine([pjs[i], pjs[ptr[i] as int]])
    }
}

/// Whether every candidate is a position.
pub open spec fn candidates_ok(candidates: Seq<usize>, n: int) -> bool {
    forall|t: int| 0 <= t < candidates.len() ==> (#[trigger] candidates[t]) < n
}

/// Whether candidate `c` is nearer to the pseudojet at `pos` than the best
/// candidate so far, `b`. The first candidate has to be at a separation
/// below infinity. Among candidates at the same separation the earlier one
/// stays, or, with `ties_by_index`, the one at the lower position.
pub open spec fn closer<D: Distance>(
    d: D,
    pjs: Seq<PseudoJet>,
    pos: int,
    c: usize,
    b: usize,
    ties_by_index: bool,
) -> bool {
    let dc = d.spec_delta_r2(pjs[pos], pjs[c as int]);
    if b == NONE {
        dc.rank() < INFINITY_BITS
    } else {
        let db = d.spec_delta_r2(pjs[pos], pjs[b as int]);
        dc.rank() < db.rank() || (ties_by_index && dc.rank() == db.rank() && c < b)
    }
}

/// The nearest neighbour of the pseudojet at `pos` among the first `k`
/// candidates, by separation in the plane of rapidity and azimuthal angle;
/// `NONE` if there is none.
pub open spec fn nearest_upto<D: Distance>(
    d: D,
    pjs: Seq<PseudoJet>,
    pos: int,
    candidates: Seq<usize>,
    k: int,
    ties_by_index: bool,
) -> usize
    decreases k,
{
    if k <= 0 {
        NONE
    } else {
        let b = nearest_upto(d, pjs, pos, candidates, k - 1, ties_by_index);
        let c = candidates[k - 1];
        if c != pos && closer(d, pjs, pos, c, b, ties_by_index) {
            c
        } else {
            b
        }
    }
}

/// The nearest neighbour of the pseudojet at `pos` among the candidates.
pub open spec fn nearest_of<D: Distance>(
    d: D,
    pjs: Seq<PseudoJet>,
    pos: int,
    candidates: Seq<usize>,
    ties_by_index: bool,
) -> usize {
    nearest_upto(d, pjs, pos, candidates, candidates.len() as int, ties_by_index)
}

/// Whether the pointer `b` of the pseudojet at position `i` is at a nearest
/// neighbour among the candidates: at a candidate other than `i` itself
/// from which `i` is separated less than infinitely and no more than from
/// any other candidate; or at none, where `i` is separated infinitely from
/// every other candidate.
pub open spec fn best_among<D: Distance>(
    d: D,
    pjs: Seq<PseudoJet>,
    i: int,
    b: usize,
    candidates: Seq<usize>,
) -> bool {
    if b == NONE {
        forall|c: usize|
            #[trigger] candidates.contains(c) && c != i ==> !(d.spec_delta_r2(
                pjs[i],
                pjs[c as int],
            ).rank() < INFINITY_BITS)
    } else {
        &&& d.spec_delta_r2(pjs[i], pjs[b as int]).rank() < INFINITY_BITS
        &&& forall|c: usize|
            #[trigger] candidates.contains(c) && c != i ==> d.spec_delta_r2(
                pjs[i],
                pjs[b as int],
            ).rank() <= d.spec_delta_r2(pjs[i], pjs[c as int]).rank()
    }
}

/// Position `k` after positions `i` and `j` have changed places. What is
/// neither of the two stays, in particular `NONE` and the position past the
/// end.
pub open spec fn exchanged(i: usize, j: usize, k: usize) -> usize {
    if k == i {
        j
    } else if k == j {
        i
    } else {
        k
    }
}

/// Whether `after` is `before` with the pseudojets at positions `i` and `j`
/// exchanged: each pseudojet has taken its distances along, and every
/// pointer follows the pseudojet that it pointed at.
pub open spec fn is_exchange(
    before: Seq<PseudoJetWithDist>,
    after: Seq<PseudoJetWithDist>,
    i: usize,
    j: usize,
) -> bool {
    &&& after.len() == before.len()
    &&& forall|k: int|
        0 <= k < before.len() ==> {
            let m = exchanged(i, j, k as usize) as int;
            &&& (#[trigger] before[k]).pseudojet == after[m].pseudojet
            &&& before[k].beam_dist == after[m].beam_dist
            &&& before[k].nearest_dist == after[m].nearest_dist
            &&& exchanged(i, j, before[k].nearest_neighbour_idx) == after[m].nearest_neighbour_idx
        }
}

/// Membership in a list after every list has been rewritten for an exchange
/// of `i` and `j`: the list holds `x` where it held the position that `x`
/// had before.
pub open spec fn lists_exchanged(
    before: Seq<PseudoJetWithDist>,
    after: Seq<PseudoJetWithDist>,
    i: usize,
    j: usize,
) -> bool {
    forall|k: int|
        0 <= k < before.len() ==> {
            &&& (#[trigger] back(after, k)).no_duplicates()
            &&& forall|x: usize|
                back(after, k).contains(x) == back(before, k).contains(exchanged(i, j, x))
        }
}

/// Two lists of records that differ at most in the lists of pointers.
pub open spec fn same_but_lists(a: Seq<PseudoJetWithDist>, b: Seq<PseudoJetWithDist>) -> bool {
    &&& a.len() == b.len()
    &&& forall|i: int|
        0 <= i < a.len() ==> {
            &&& (#[trigger] b[i]).pseudojet == a[i].pseudojet
            &&& b[i].beam_dist == a[i].beam_dist
            &&& b[i].nearest_dist == a[i].nearest_dist
            &&& b[i].nearest_neighbour_idx == a[i].nearest_neighbour_idx
        }
}

/// The pointers after the pseudojet at position `idx` has left and the
/// last one has taken its position: a pointer at the pseudojet that left
/// is set anew, to the nearest neighbour among the candidates that
/// `around` gives for the position; every other pointer follows its
/// pseudojet.
pub open spec fn pointers_removed<D: Distance>(
    d: D,
    pjs: Seq<PseudoJet>,
    ptr: Seq<usize>,
    idx: usize,
    around: spec_fn(int) -> Seq<usize>,
) -> Seq<usize> {
    let last = (pjs.len() - 1) as usize;
    let after = swap_removed(pjs, idx as int);
    Seq::new(
        (pjs.len() - 1) as nat,
        |k: int|
            {
                let m = exchanged(idx, last, k as usize) as int;
                let q = exchanged(idx, last, ptr[m]);
                if q == last {
                    nearest_of(d, after, k, around(k), false)
                } else {
                    q
                }
            },
    )
}

/// The separation of the pseudojet at position `k` from the one that it
/// points at, in the plane of rapidity and azimuthal angle; infinity if it
/// points at none.
pub open spec fn separation_of<D: Distance>(
    d: D,
    pjs: Seq<PseudoJet>,
    ptr: Seq<usize>,
    k: int,
) -> Scalar {
    if ptr[k] < pjs.len() {
        d.spec_delta_r2(pjs[k], pjs[ptr[k] as int])
    } else {
        Scalar::spec_infinity()
    }
}

/// The pointers after the pseudojet `p` has been added at the end. It
/// points at the candidate nearest to it. A candidate that is nearer to it
/// than to the pseudojet that the candidate pointed at points at `p`.
pub open spec fn pointers_pushed<D: Distance>(
    d: D,
    pjs: Seq<PseudoJet>,
    ptr: Seq<usize>,
    p: PseudoJet,
    candidates: Seq<usize>,
) -> Seq<usize> {
    Seq::new(
        pjs.len() + 1,
        |k: int|
            if k < pjs.len() {
                if candidates.contains(k as usize) && d.spec_delta_r2(pjs[k], p).rank()
                    < separation_of(d, pjs, ptr, k).rank() {
                    pjs.len() as usize
                } else {
                    ptr[k]
                }
            } else {
                nearest_of(d, pjs.push(p), pjs.len() as int, candidates, false)
            },
    )
}

/// Whether the distance between two pseudojets does not depend on their
/// order.
pub open spec fn symmetric<D: Distance>(d: D) -> bool {
    forall|a: PseudoJet, b: PseudoJet| #[trigger] d.spec_distance(a, b) == d.spec_distance(b, a)
}

/// Whether the distance follows the separation for the pseudojet of a
/// pair that has the smaller weight: a pseudojet from which it is
/// separated no more is no more distant from it.
pub open spec fn follows_separation<D: Distance>(d: D, weight: spec_fn(PseudoJet) -> int) -> bool {
    forall|a: PseudoJet, b: PseudoJet, c: PseudoJet|
        weight(a) <= weight(c) && d.spec_delta_r2(a, b).rank() <= d.spec_delta_r2(a, c).rank()
            ==> (#[trigger] d.spec_distance(a, b)).rank() <= (#[trigger] d.spec_distance(
            a,
            c,
        )).rank()
}

/// Whether pseudojets that are separated infinitely are infinitely
/// distant.
pub open spec fn infinite_when_apart<D: Distance>(d: D) -> bool {
    forall|a: PseudoJet, c: PseudoJet|
        !(d.spec_delta_r2(a, c).rank() < INFINITY_BITS) ==> (#[trigger] d.spec_distance(
            a,
            c,
        )).rank() >= INFINITY_BITS
}

/// The first position at which a list holds `x`.
pub fn position(list: &Vec<usize>, x: usize) -> (t: usize)
    requires
        list@.contains(x),
    ensures
        t < list.len(),
        list@[t as int] == x,
        forall|u: int| 0 <= u < t ==> list@[u] != x,
{
    let mut t: usize = 0;
    while list[t] != x
        invariant
            0 <= t < list.len(),
            list@.contains(x),
            forall|u: int| 0 <= u < t ==> list@[u] != x,
        decreases list.len() - t,
    {
        t += 1;
        proof {
            let w = choose|w: int| 0 <= w < list@.len() && list@[w] == x;
            assert(w >= t);
        }
    }
    t
}

/// The position of the pseudojet with the smallest distance, to another
/// pseudojet or to the beam; the first one of several.
pub fn min_idx(recs: &Vec<PseudoJetWithDist>) -> (r: Option<usize>)
    ensures
        r.is_none() == (recs.len() == 0),
        r.is_some() ==> r.unwrap() == min_idx_upto(recs@, recs.len() as int) && r.unwrap()
            < recs.len(),
{
    if recs.len() == 0 {
        return None;
    }
    let mut best: usize = 0;
    let mut best_dist = recs[0].nearest_dist.min(recs[0].beam_dist);
    let mut k: usize = 1;
    while k < recs.len()
        invariant
            1 <= k <= recs.len(),
            best < k,
            best == min_idx_upto(recs@, k as int),
            best_dist == min_dist(recs@[best as int]),
        decreases recs.len() - k,
    {
        let dist = recs[k].nearest_dist.min(recs[k].beam_dist);
        if dist.lt(best_dist) {
            best = k;
            best_dist = dist;
        }
        k += 1;
    }
    Some(best)
}

/// Find the nearest neighbour of the pseudojet at `pos` among the
/// candidates.
pub fn nearest_among<D: Distance>(
    recs: &Vec<PseudoJetWithDist>,
    pos: usize,
    candidates: &Vec<usize>,
    d: &D,
    ties_by_index: bool,
) -> (nearest_idx: usize)
    requires
        pos < recs.len(),
        recs.len() < usize::MAX,
        candidates_ok(candidates@, recs.len() as int),
    ensures
        nearest_idx == nearest_of(*d, pseudojets_of(recs@), pos as int, candidates@, ties_by_index),
        nearest_idx == NONE || (nearest_idx < recs.len() && nearest_idx != pos),
{
    let ghost pjs = pseudojets_of(recs@);
    let mut nearest_gdist = Scalar::infinity();
    let mut nearest_idx = NONE;
    let mut t: usize = 0;
    while t < candidates.len()
        invariant
            0 <= t <= candidates.len(),
            pos < recs.len(),
            recs.len() < usize::MAX,
            pjs == pseudojets_of(recs@),
            candidates_ok(candidates@, recs.len() as int),
            nearest_idx == nearest_upto(*d, pjs, pos as int, candidates@, t as int, ties_by_index),
            nearest_idx == NONE || (nearest_idx < recs.len() && nearest_idx != pos),
            nearest_idx == NONE ==> nearest_gdist.spec_bits() == INFINITY_BITS,
            nearest_idx != NONE ==> nearest_gdist == d.spec_delta_r2(
                pjs[pos as int],
                pjs[nearest_idx as int],
            ),
        decreases candidates.len() - t,
    {
        let c = candidates[t];
        if c != pos {
            let gdist = d.delta_r2(&recs[pos].pseudojet, &recs[c].pseudojet);
            if gdist.lt(nearest_gdist) || (ties_by_index && nearest_idx != NONE && c < nearest_idx
                && !nearest_gdist.lt(gdist)) {
                nearest_gdist = gdist;
                nearest_idx = c;
            }
        }
        t += 1;
    }
    proof {
        lemma_nearest_upto(*d, pjs, pos as int, candidates@, candidates@.len() as int, ties_by_index);
    }
    nearest_idx
}

/// Update such that no other pseudojet lists the one at `pos` as pointing
/// at it. The pointer at `pos` itself stays as it is.
pub(crate) fn remove_nearest_link(recs: &mut Vec<PseudoJetWithDist>, pos: usize)
    requires
        linked(old(recs)@, -1),
        pos < old(recs).len(),
    ensures
        linked(final(recs)@, pos as int),
        same_but_lists(old(recs)@, final(recs)@),
        forall|i: int|
            0 <= i < old(recs).len() && i != nn(old(recs)@, pos as int) ==> back(final(recs)@, i)
                == back(old(recs)@, i),
        nn(old(recs)@, pos as int) >= old(recs).len() ==> final(recs)@ == old(recs)@,
{
    let nearest_idx = recs[pos].nearest_neighbour_idx;
    let ghost before = recs@;
    if nearest_idx < recs.len() {
        assert(pointer_ok(before, pos as int));
        let to_remove_idx = position(&recs[nearest_idx].nearest_neighbour_for, pos);
        recs[nearest_idx].nearest_neighbour_for.swap_remove(to_remove_idx);
        proof {
            let after = recs@;
            let k = nearest_idx as int;
            lemma_swap_removed_members(back(before, k), to_remove_idx as int);
            assert forall|j: int| 0 <= j < after.len() && j != pos implies #[trigger] pointer_ok(
                after,
                j,
            ) by {
                assert(pointer_ok(before, j));
            }
            assert forall|i: int, t: int|
                0 <= i < after.len() && 0 <= t < back(after, i).len() implies #[trigger] entry_ok(
                after,
                i,
                t,
                pos as int,
            ) by {
                if i == k {
                    let x = back(after, i)[t];
                    assert(back(before, k).contains(x));
                    let u = choose|u: int| 0 <= u < back(before, k).len() && back(before, k)[u] == x;
                    assert(entry_ok(before, k, u, -1));
                    assert(back(after, i).contains(x));
                } else {
                    assert(entry_ok(before, i, t, -1));
                }
            }
            assert forall|i: int| 0 <= i < after.len() implies (#[trigger] back(
                after,
                i,
            )).no_duplicates() by {
                assert(back(before, i).no_duplicates());
            }
        }
    } else {
        proof {
            assert forall|i: int, t: int|
                0 <= i < before.len() && 0 <= t < back(before, i).len() implies #[trigger] entry_ok(
                before,
                i,
                t,
                pos as int,
            ) by {
                assert(entry_ok(before, i, t, -1));
            }
        }
    }
}

/// Point every pseudojet that a list names at `target`.
fn repoint(recs: &mut Vec<PseudoJetWithDist>, owner: usize, target: usize)
    requires
        owner < old(recs).len(),
        forall|t: int|
            0 <= t < back(old(recs)@, owner as int).len() ==> (#[trigger] back(
                old(recs)@,
                owner as int,
            )[t]) < old(recs).len(),
    ensures
        final(recs).len() == old(recs).len(),
        forall|k: int|
            0 <= k < old(recs).len() ==> {
                &&& (#[trigger] final(recs)@[k]).pseudojet == old(recs)@[k].pseudojet
                &&& final(recs)@[k].beam_dist == old(recs)@[k].beam_dist
                &&& final(recs)@[k].nearest_dist == old(recs)@[k].nearest_dist
                &&& final(recs)@[k].nearest_neighbour_for == old(recs)@[k].nearest_neighbour_for
                &&& final(recs)@[k].nearest_neighbour_idx == if back(
                    old(recs)@,
                    owner as int,
                ).contains(k as usize) {
                    target
                } else {
                    old(recs)@[k].nearest_neighbour_idx
                }
            },
{
    let ghost before = recs@;
    let ghost list = back(before, owner as int);
    let len = recs[owner].nearest_neighbour_for.len();
    let mut t: usize = 0;
    while t < len
        invariant
            0 <= t <= len,
            len == list.len(),
            owner < recs.len(),
            recs.len() == before.len(),
            list == back(before, owner as int),
            forall|u: int| 0 <= u < list.len() ==> (#[trigger] list[u]) < before.len(),
            forall|k: int|
                0 <= k < before.len() ==> {
                    &&& (#[trigger] recs@[k]).pseudojet == before[k].pseudojet
                    &&& recs@[k].beam_dist == before[k].beam_dist
                    &&& recs@[k].nearest_dist == before[k].nearest_dist
                    &&& recs@[k].nearest_neighbour_for == before[k].nearest_neighbour_for
                    &&& recs@[k].nearest_neighbour_idx == if list.subrange(0, t as int).contains(
                        k as usize,
                    ) {
                        target
                    } else {
                        before[k].nearest_neighbour_idx
                    }
                },
        decreases len - t,
    {
        let idx = recs[owner].nearest_neighbour_for[t];
        assert(idx == list[t as int]);
        recs[idx].nearest_neighbour_idx = target;
        proof {
            let done = list.subrange(0, t as int);
            let more = list.subrange(0, t + 1);
            assert(more =~= done.push(list[t as int]));
            assert forall|k: usize| more.contains(k) == (done.contains(k) || k == idx) by {
                if done.contains(k) {
                    let u = choose|u: int| 0 <= u < done.len() && done[u] == k;
                    assert(more[u] == k);
                }
                if k == idx {
                    assert(more[t as int] == k);
                }
            }
        }
        t += 1;
    }
    assert(list.subrange(0, len as int) =~= list);
}

/// In the list at position `owner`, write `to` over the first `from`.
fn rename_in_list(recs: &mut Vec<PseudoJetWithDist>, owner: usize, from: usize, to: usize)
    requires
        owner < old(recs).len(),
        back(old(recs)@, owner as int).contains(from),
    ensures
        final(recs).len() == old(recs).len(),
        forall|k: int|
            0 <= k < old(recs).len() ==> {
                &&& (#[trigger] final(recs)@[k]).pseudojet == old(recs)@[k].pseudojet
                &&& final(recs)@[k].beam_dist == old(recs)@[k].beam_dist
                &&& final(recs)@[k].nearest_dist == old(recs)@[k].nearest_dist
                &&& final(recs)@[k].nearest_neighbour_idx == old(recs)@[k].nearest_neighbour_idx
                &&& k != owner ==> final(recs)@[k].nearest_neighbour_for
                    == old(recs)@[k].nearest_neighbour_for
            },
        exists|t: int|
            0 <= t < back(old(recs)@, owner as int).len() && back(old(recs)@, owner as int)[t] == from
                && (forall|u: int| 0 <= u < t ==> back(old(recs)@, owner as int)[u] != from) && back(
                final(recs)@,
                owner as int,
            ) == #[trigger] back(old(recs)@, owner as int).update(t, to),
{
    let to_update_idx = position(&recs[owner].nearest_neighbour_for, from);
    recs[owner].nearest_neighbour_for[to_update_idx] = to;
}

/// A record that stands in for one that is being moved: the pseudojet
/// with vanishing four-momentum, infinitely distant from the beam and from
/// any neighbour, pointing at none and listed by none.
fn placeholder() -> (r: PseudoJetWithDist)
    ensures
        r.pseudojet.parts() == seq![
            Scalar::with_bits(0),
            Scalar::with_bits(0),
            Scalar::with_bits(0),
            Scalar::with_bits(0),
            Scalar::spec_infinity(),
            Scalar::with_bits(0),
            Scalar::with_bits(0),
        ],
        r.beam_dist == Scalar::spec_infinity(),
        r.nearest_dist == Scalar::spec_infinity(),
        r.nearest_neighbour_idx == NONE,
        r.nearest_neighbour_for@ == Seq::<usize>::empty(),
{
    PseudoJetWithDist {
        pseudojet: PseudoJet::new(),
        beam_dist: Scalar::infinity(),
        nearest_dist: Scalar::infinity(),
        nearest_neighbour_idx: NONE,
        nearest_neighbour_for: Vec::new(),
    }
}

/// Exchange two pseudojets
///
/// Every pointer at one of the two positions is turned to the other
/// position, and the lists that name one of the two positions name the other
/// one afterwards.
pub(crate) fn swap(recs: &mut Vec<PseudoJetWithDist>, i: usize, j: usize)
    requires
        linked(old(recs)@, -1),
        i < old(recs).len(),
        j < old(recs).len(),
    ensures
        linked(final(recs)@, -1),
        is_exchange(old(recs)@, final(recs)@, i, j),
{
    if i != j {
        let ghost s0 = recs@;
        let nearest_i = recs[i].nearest_neighbour_idx;
        let nearest_j = recs[j].nearest_neighbour_idx;
        proof {
            assert forall|t: int| 0 <= t < back(s0, i as int).len() implies (#[trigger] back(
                s0,
                i as int,
            )[t]) < s0.len() by {
                assert(entry_ok(s0, i as int, t, -1));
            }
            assert forall|t: int| 0 <= t < back(s0, j as int).len() implies (#[trigger] back(
                s0,
                j as int,
            )[t]) < s0.len() by {
                assert(entry_ok(s0, j as int, t, -1));
            }
        }
        repoint(recs, i, j);
        let ghost s1 = recs@;
        assert(back(s1, j as int) == back(s0, j as int));
        repoint(recs, j, i);
        let ghost s2 = recs@;
        proof {
            assert forall|k: int| 0 <= k < s0.len() implies nn(s2, k) == exchanged(
                i,
                j,
                nn(s0, k),
            ) && back(s2, k) == back(s0, k) by {
                lemma_listed_iff_points(s0, i as int, k);
                lemma_listed_iff_points(s0, j as int, k);
                assert(s1[k].nearest_neighbour_for == s0[k].nearest_neighbour_for);
                assert(s2[k].nearest_neighbour_for == s1[k].nearest_neighbour_for);
            }
            assert(pointer_ok(s0, i as int));
            assert(pointer_ok(s0, j as int));
        }
        if nearest_i < recs.len() {
            rename_in_list(recs, nearest_i, i, j);
        }
        let ghost s3 = recs@;
        proof {
            if nearest_j < s0.len() {
                if nearest_i == nearest_j {
                    let ta = choose|t: int|
                        0 <= t < back(s2, nearest_i as int).len() && back(s2, nearest_i as int)[t] == i
                            && (forall|u: int| 0 <= u < t ==> back(s2, nearest_i as int)[u] != i)
                            && back(s3, nearest_i as int) == #[trigger] back(
                            s2,
                            nearest_i as int,
                        ).update(t, j);
                    assert(back(s0, nearest_j as int).contains(j));
                    let tb = choose|t: int|
                        0 <= t < back(s0, nearest_j as int).len() && back(s0, nearest_j as int)[t] == j;
                    assert(back(s3, nearest_j as int)[tb] == j);
                } else {
                    assert(back(s3, nearest_j as int) == back(s0, nearest_j as int));
                }
            }
        }
        if nearest_j < recs.len() {
            rename_in_list(recs, nearest_j, j, i);
        }
        let ghost s4 = recs@;
        proof {
            lemma_lists_exchanged(s0, s2, s3, s4, i, j);
            assert forall|k: int| 0 <= k < s0.len() implies {
                &&& nn(s4, k) == exchanged(i, j, #[trigger] nn(s0, k))
                &&& s4[k].pseudojet == s0[k].pseudojet
                &&& s4[k].beam_dist == s0[k].beam_dist
                &&& s4[k].nearest_dist == s0[k].nearest_dist
            } by {
                lemma_listed_iff_points(s0, i as int, k);
                lemma_listed_iff_points(s0, j as int, k);
                assert(s1[k].pseudojet == s0[k].pseudojet);
                assert(s2[k].pseudojet == s1[k].pseudojet);
                assert(s3[k].pseudojet == s2[k].pseudojet);
                assert(s4[k].pseudojet == s3[k].pseudojet);
                assert(nn(s2, k) == exchanged(i, j, nn(s0, k)));
                assert(nn(s3, k) == nn(s2, k));
                assert(nn(s4, k) == nn(s3, k));
            }
        }
        let mut tmp = placeholder();
        core::mem::swap(&mut tmp, &mut recs[i]);
        core::mem::swap(&mut tmp, &mut recs[j]);
        core::mem::swap(&mut tmp, &mut recs[i]);
        proof {
            let s5 = recs@;
            assert forall|k: int| 0 <= k < s0.len() implies s5[exchanged(i, j, k as usize) as int]
                == #[trigger] s4[k] by {}
            lemma_exchange_linked(s0, s4, s5, i, j);
            assert forall|k: int| 0 <= k < s0.len() implies {
                let m = exchanged(i, j, k as usize) as int;
                &&& (#[trigger] s0[k]).pseudojet == s5[m].pseudojet
                &&& s0[k].beam_dist == s5[m].beam_dist
                &&& s0[k].nearest_dist == s5[m].nearest_dist
                &&& exchanged(i, j, s0[k].nearest_neighbour_idx) == s5[m].nearest_neighbour_idx
            } by {
                assert(s5[exchanged(i, j, k as usize) as int] == s4[k]);
                assert(nn(s4, k) == exchanged(i, j, nn(s0, k)));
            }
        }
    } else {
        proof {
            let s0 = recs@;
            assert forall|k: int| 0 <= k < s0.len() implies exchanged(i, j, nn(s0, k)) == nn(
                s0,
                k,
            ) by {}
        }
    }
}

/// Take the pseudojet at position `idx` out. The last pseudojet takes its
/// position. The pseudojets that pointed at the one that left point past
/// the end afterwards, and the list of the returned record names them.
pub(crate) fn detach(recs: &mut Vec<PseudoJetWithDist>, idx: usize) -> (out: PseudoJetWithDist)
    requires
        linked(old(recs)@, -1),
        settled(old(recs)@),
        idx < old(recs).len(),
    ensures
        linked(final(recs)@, -1),
        final(recs).len() == old(recs).len() - 1,
        pseudojets_of(final(recs)@) == swap_removed(pseudojets_of(old(recs)@), idx as int),
        out.pseudojet == old(recs)@[idx as int].pseudojet,
        out.beam_dist == old(recs)@[idx as int].beam_dist,
        out.nearest_dist == old(recs)@[idx as int].nearest_dist,
        out.nearest_neighbour_idx == exchanged(
            idx,
            (old(recs).len() - 1) as usize,
            nn(old(recs)@, idx as int),
        ),
        out.nearest_neighbour_idx == NONE || out.nearest_neighbour_idx < final(recs).len(),
        forall|k: int|
            0 <= k < final(recs).len() ==> (nn(final(recs)@, k) == final(recs).len())
                == out.nearest_neighbour_for@.contains(k as usize),
        forall|t: int|
            0 <= t < out.nearest_neighbour_for@.len() ==> (#[trigger] out.nearest_neighbour_for@[t])
                < final(recs).len(),
        forall|k: int|
            0 <= k < final(recs).len() ==> {
                let m = exchanged(idx, (old(recs).len() - 1) as usize, k as usize) as int;
                &&& (#[trigger] final(recs)@[k]).pseudojet == old(recs)@[m].pseudojet
                &&& final(recs)@[k].beam_dist == old(recs)@[m].beam_dist
                &&& final(recs)@[k].nearest_dist == old(recs)@[m].nearest_dist
                &&& final(recs)@[k].nearest_neighbour_idx == exchanged(
                    idx,
                    (old(recs).len() - 1) as usize,
                    nn(old(recs)@, m),
                )
            },
{
    let ghost s0 = recs@;
    let last = recs.len() - 1;
    swap(recs, idx, last);
    let ghost s1 = recs@;
    remove_nearest_link(recs, last);
    let ghost s2 = recs@;
    let out = recs.pop().unwrap();
    proof {
        let s3 = recs@;
        let n = s3.len();
        assert(out == s2[last as int]);
        assert forall|k: int| 0 <= k < s0.len() implies {
            let m = exchanged(idx, last, k as usize) as int;
            &&& (#[trigger] s2[k]).pseudojet == s0[m].pseudojet
            &&& s2[k].beam_dist == s0[m].beam_dist
            &&& s2[k].nearest_dist == s0[m].nearest_dist
            &&& nn(s2, k) == exchanged(idx, last, nn(s0, m))
            &&& nn(s2, k) != s0.len()
        } by {
            let m = exchanged(idx, last, k as usize) as int;
            assert(exchanged(idx, last, m as usize) == k);
            assert(s0[m].pseudojet == s1[k].pseudojet);
            assert(s2[k].pseudojet == s1[k].pseudojet);
            assert(nn(s0, m) != s0.len());
        }
        assert forall|k: int| 0 <= k < n implies s3[k] == s2[k] by {}
        assert forall|j: int| 0 <= j < n implies #[trigger] pointer_ok(s3, j) by {
            assert(pointer_ok(s2, j));
            assert(s3[j] == s2[j]);
            let q = nn(s2, j);
            if q < n {
                assert(s3[q as int] == s2[q as int]);
            }
        }
        assert forall|i: int, t: int| 0 <= i < n && 0 <= t < back(s3, i).len() implies #[trigger] entry_ok(
            s3,
            i,
            t,
            -1,
        ) by {
            assert(s3[i] == s2[i]);
            assert(entry_ok(s2, i, t, last as int));
            assert(s3[back(s2, i)[t] as int] == s2[back(s2, i)[t] as int]);
        }
        assert forall|i: int| 0 <= i < n implies (#[trigger] back(s3, i)).no_duplicates() by {
            assert(s3[i] == s2[i]);
            assert(back(s2, i).no_duplicates());
        }
        assert forall|k: int| 0 <= k < n implies (nn(s3, k) == n)
            == out.nearest_neighbour_for@.contains(k as usize) by {
            assert(s3[k] == s2[k]);
            if nn(s3, k) == n {
                assert(pointer_ok(s2, k));
            }
            if out.nearest_neighbour_for@.contains(k as usize) {
                let t = choose|t: int|
                    0 <= t < back(s2, last as int).len() && back(s2, last as int)[t] == k as usize;
                assert(entry_ok(s2, last as int, t, last as int));
            }
        }
        assert forall|t: int| 0 <= t < out.nearest_neighbour_for@.len() implies (
        #[trigger] out.nearest_neighbour_for@[t]) < n by {
            assert(entry_ok(s2, last as int, t, last as int));
        }
        assert(pseudojets_of(s3) =~= swap_removed(pseudojets_of(s0), idx as int)) by {
            assert forall|k: int| 0 <= k < n implies pseudojets_of(s3)[k] == swap_removed(
                pseudojets_of(s0),
                idx as int,
            )[k] by {
                assert(s3[k] == s2[k]);
            }
        }
        assert(pointer_ok(s0, idx as int));
        assert forall|k: int| 0 <= k < n implies {
            let m = exchanged(idx, last, k as usize) as int;
            &&& (#[trigger] s3[k]).pseudojet == s0[m].pseudojet
            &&& s3[k].beam_dist == s0[m].beam_dist
            &&& s3[k].nearest_dist == s0[m].nearest_dist
            &&& s3[k].nearest_neighbour_idx == exchanged(idx, last, nn(s0, m))
        } by {
            assert(s3[k] == s2[k]);
        }
    }
    out
}

/// Point the pseudojet at `pos`, which no list names, at `target`, and enter
/// it in the list there. With `NONE` as the target it points at none.
pub(crate) fn relink(recs: &mut Vec<PseudoJetWithDist>, pos: usize, target: usize, dist: Scalar)
    requires
        linked(old(recs)@, pos as int),
        pos < old(recs).len(),
        target == NONE || (target < old(recs).len() && target != pos),
    ensures
        linked(final(recs)@, -1),
        final(recs).len() == old(recs).len(),
        nn(final(recs)@, pos as int) == target,
        final(recs)@[pos as int].nearest_dist == dist,
        forall|k: int|
            0 <= k < old(recs).len() ==> {
                &&& (#[trigger] final(recs)@[k]).pseudojet == old(recs)@[k].pseudojet
                &&& final(recs)@[k].beam_dist == old(recs)@[k].beam_dist
                &&& k != pos ==> final(recs)@[k].nearest_dist == old(recs)@[k].nearest_dist
                &&& k != pos ==> nn(final(recs)@, k) == nn(old(recs)@, k)
            },
{
    let ghost s0 = recs@;
    recs[pos].nearest_neighbour_idx = target;
    recs[pos].nearest_dist = dist;
    if target != NONE {
        recs[target].nearest_neighbour_for.push(pos);
    }
    proof {
        let s1 = recs@;
        assert forall|i: int| 0 <= i < s0.len() && i != target implies back(s1, i) == back(s0, i) by {}
        if target != NONE {
            assert(back(s1, target as int) == back(s0, target as int).push(pos));
        }
        assert forall|j: int| 0 <= j < s1.len() implies #[trigger] pointer_ok(s1, j) by {
            if j != pos {
                assert(pointer_ok(s0, j));
                let q = nn(s0, j);
                if q < s0.len() && q == target {
                    let t = choose|t: int|
                        0 <= t < back(s0, q as int).len() && back(s0, q as int)[t] == j as usize;
                    assert(back(s1, q as int)[t] == j as usize);
                }
            } else if target != NONE {
                assert(back(s1, target as int)[back(s0, target as int).len() as int] == pos);
            }
        }
        assert forall|i: int, t: int| 0 <= i < s1.len() && 0 <= t < back(s1, i).len() implies #[trigger] entry_ok(
            s1,
            i,
            t,
            -1,
        ) by {
            if i == target && t == back(s0, i).len() {
            } else {
                assert(entry_ok(s0, i, t, pos as int));
            }
        }
        assert forall|i: int| 0 <= i < s1.len() implies (#[trigger] back(s1, i)).no_duplicates() by {
            assert(back(s0, i).no_duplicates());
            if i == target {
                assert forall|t: int| 0 <= t < back(s0, i).len() implies back(s0, i)[t] != pos by {
                    assert(entry_ok(s0, i, t, pos as int));
                }
            }
        }
    }
}

/// Find the nearest neighbour of the pseudojet at `pos` among the candidates
/// anew, and point the pseudojet at it.
pub(crate) fn update_nearest_at_idx<D: Distance>(
    recs: &mut Vec<PseudoJetWithDist>,
    pos: usize,
    candidates: &Vec<usize>,
    d: &D,
    ties_by_index: bool,
)
    requires
        linked(old(recs)@, -1),
        distances_ok(*d, old(recs)@),
        pos < old(recs).len(),
        candidates_ok(candidates@, old(recs).len() as int),
    ensures
        linked(final(recs)@, -1),
        distances_ok(*d, final(recs)@),
        final(recs).len() == old(recs).len(),
        pseudojets_of(final(recs)@) == pseudojets_of(old(recs)@),
        nn(final(recs)@, pos as int) == nearest_of(
            *d,
            pseudojets_of(old(recs)@),
            pos as int,
            candidates@,
            ties_by_index,
        ),
        nn(final(recs)@, pos as int) != old(recs).len(),
        forall|k: int|
            0 <= k < old(recs).len() && k != pos ==> #[trigger] nn(final(recs)@, k) == nn(
                old(recs)@,
                k,
            ),
{
    let ghost s0 = recs@;
    remove_nearest_link(recs, pos);
    let ghost s1 = recs@;
    assert(pseudojets_of(s1) =~= pseudojets_of(s0));
    let nearest_idx = nearest_among(recs, pos, candidates, d, ties_by_index);
    let dist = if nearest_idx != NONE {
        d.distance(&recs[pos].pseudojet, &recs[nearest_idx].pseudojet)
    } else {
        Scalar::infinity()
    };
    relink(recs, pos, nearest_idx, dist);
    proof {
        let s2 = recs@;
        assert(pseudojets_of(s2) =~= pseudojets_of(s0));
        assert forall|i: int| 0 <= i < s2.len() implies #[trigger] distance_ok(*d, s2, i) by {
            assert(distance_ok(*d, s0, i));
            assert(s2[i].pseudojet == s1[i].pseudojet);
            assert(s1[i].pseudojet == s0[i].pseudojet);
            if i != pos {
                assert(nn(s2, i) == nn(s1, i));
                let q = nn(s2, i);
                if q < s2.len() {
                    assert(s2[q as int].pseudojet == s1[q as int].pseudojet);
                    assert(s1[q as int].pseudojet == s0[q as int].pseudojet);
                }
            } else if nearest_idx != NONE {
                assert(s2[nearest_idx as int].pseudojet == s1[nearest_idx as int].pseudojet);
            }
        }
    }
}

/// Add a pseudojet at the end. It points at the candidate that is nearest
/// to it, and every candidate that is nearer to it than to the pseudojet
/// that the candidate pointed at points at the new one afterwards.
pub(crate) fn push<D: Distance>(
    recs: &mut Vec<PseudoJetWithDist>,
    pseudojet: PseudoJet,
    candidates: &Vec<usize>,
    d: &D,
)
    requires
        linked(old(recs)@, -1),
        settled(old(recs)@),
        distances_ok(*d, old(recs)@),
        candidates_ok(candidates@, old(recs).len() as int),
        old(recs).len() + 1 < usize::MAX,
    ensures
        linked(final(recs)@, -1),
        settled(final(recs)@),
        distances_ok(*d, final(recs)@),
        final(recs).len() == old(recs).len() + 1,
        pseudojets_of(final(recs)@) == pseudojets_of(old(recs)@).push(pseudojet),
        pointers_of(final(recs)@) == pointers_pushed(
            *d,
            pseudojets_of(old(recs)@),
            pointers_of(old(recs)@),
            pseudojet,
            candidates@,
        ),
{
    let ghost s0 = recs@;
    let ghost pjs = pseudojets_of(s0);
    let ghost ptr = pointers_of(s0);
    let ghost with = pjs.push(pseudojet);
    let n = recs.len();
    let beam_dist = d.beam_distance(&pseudojet);
    let mut nearest_gdist = Scalar::infinity();
    let mut nearest_idx = NONE;
    let mut nearest_neighbour_for: Vec<usize> = Vec::new();
    let mut t: usize = 0;
    proof {
        Scalar::lemma_bits_of(INFINITY_BITS);
    }
    while t < candidates.len()
        invariant
            0 <= t <= candidates.len(),
            n == s0.len(),
            recs.len() == n,
            n + 1 < usize::MAX,
            pjs == pseudojets_of(s0),
            ptr == pointers_of(s0),
            with == pjs.push(pseudojet),
            pseudojets_of(recs@) == pjs,
            candidates_ok(candidates@, n as int),
            linked(recs@, -1),
            settled(s0),
            distances_ok(*d, recs@),
            Scalar::spec_infinity().rank() == INFINITY_BITS,
            nearest_idx == nearest_upto(*d, with, n as int, candidates@, t as int, false),
            nearest_idx == NONE || nearest_idx < n,
            nearest_idx == NONE ==> nearest_gdist == Scalar::spec_infinity(),
            nearest_idx != NONE ==> nearest_gdist == d.spec_delta_r2(
                pseudojet,
                pjs[nearest_idx as int],
            ),
            nearest_neighbour_for@.no_duplicates(),
            forall|u: int|
                0 <= u < nearest_neighbour_for@.len() ==> {
                    let x = #[trigger] nearest_neighbour_for@[u];
                    &&& x < n
                    &&& nn(recs@, x as int) == n
                    &&& recs@[x as int].nearest_dist == d.spec_distance(pjs[x as int], pseudojet)
                },
            forall|k: int|
                0 <= k < n ==> #[trigger] nn(recs@, k) == (if nearest_neighbour_for@.contains(
                    k as usize,
                ) {
                    n
                } else {
                    nn(s0, k)
                }),
            forall|k: int|
                0 <= k < n ==> nearest_neighbour_for@.contains(k as usize) == (
                candidates@.subrange(0, t as int).contains(k as usize) && d.spec_delta_r2(
                    #[trigger] pjs[k],
                    pseudojet,
                ).rank() < separation_of(*d, pjs, ptr, k).rank()),
        decreases candidates.len() - t,
    {
        let c = candidates[t];
        let ghost r0 = recs@;
        let ghost l0 = nearest_neighbour_for@;
        assert(pjs[c as int] == recs@[c as int].pseudojet);
        assert(with[c as int] == pjs[c as int]);
        assert(with[n as int] == pseudojet);
        let gdist = d.delta_r2(&pseudojet, &recs[c].pseudojet);
        if gdist.lt(nearest_gdist) {
            nearest_gdist = gdist;
            nearest_idx = c;
        }
        let towards = recs[c].nearest_neighbour_idx;
        proof {
            assert(pointer_ok(r0, c as int));
            assert(nn(s0, c as int) != n);
            assert(ptr[c as int] == nn(s0, c as int));
            if towards < n {
                assert(!l0.contains(c));
                assert(pjs[towards as int] == recs@[towards as int].pseudojet);
            }
        }
        if towards != n {
            let separation = if towards < n {
                d.delta_r2(&recs[c].pseudojet, &recs[towards].pseudojet)
            } else {
                Scalar::infinity()
            };
            assert(separation == separation_of(*d, pjs, ptr, c as int));
            let coming = d.delta_r2(&recs[c].pseudojet, &pseudojet);
            if coming.lt(separation) {
                let dist = d.distance(&recs[c].pseudojet, &pseudojet);
                remove_nearest_link(recs, c);
                let ghost r1 = recs@;
                recs[c].nearest_neighbour_idx = n;
                recs[c].nearest_dist = dist;
                nearest_neighbour_for.push(c);
                proof {
                    let r2 = recs@;
                    assert forall|i: int| 0 <= i < n implies back(r2, i) == back(r1, i) by {}
                    assert forall|j: int| 0 <= j < n implies #[trigger] pointer_ok(r2, j) by {
                        if j != c {
                            assert(pointer_ok(r1, j));
                        }
                    }
                    assert forall|i: int, u: int|
                        0 <= i < n && 0 <= u < back(r2, i).len() implies #[trigger] entry_ok(
                        r2,
                        i,
                        u,
                        -1,
                    ) by {
                        assert(entry_ok(r1, i, u, c as int));
                    }
                    assert forall|i: int| 0 <= i < n implies (#[trigger] back(
                        r2,
                        i,
                    )).no_duplicates() by {
                        assert(back(r1, i).no_duplicates());
                    }
                    assert(pseudojets_of(r2) =~= pjs) by {
                        assert forall|k: int| 0 <= k < n implies pseudojets_of(r2)[k] == pjs[k] by {
                            assert(r1[k].pseudojet == r0[k].pseudojet);
                            assert(pseudojets_of(r0)[k] == r0[k].pseudojet);
                        }
                    }
                    assert forall|i: int| 0 <= i < n implies #[trigger] distance_ok(*d, r2, i) by {
                        assert(distance_ok(*d, r0, i));
                        assert(r1[i].pseudojet == r0[i].pseudojet);
                        if i != c {
                            let q = nn(r2, i);
                            if q < n {
                                assert(r1[q as int].pseudojet == r0[q as int].pseudojet);
                            }
                        }
                    }
                    let l1 = nearest_neighbour_for@;
                    assert(l1 =~= l0.push(c));
                    assert forall|k: usize| l1.contains(k) == (l0.contains(k) || k == c) by {
                        if l0.contains(k) {
                            let u = choose|u: int| 0 <= u < l0.len() && l0[u] == k;
                            assert(l1[u] == k);
                        }
                        if k == c {
                            assert(l1[l0.len() as int] == k);
                        }
                    }
                    assert forall|u: int| 0 <= u < l1.len() implies {
                        let x = #[trigger] l1[u];
                        &&& x < n
                        &&& nn(r2, x as int) == n
                        &&& r2[x as int].nearest_dist == d.spec_distance(pjs[x as int], pseudojet)
                    } by {
                        if u < l0.len() {
                            let x = l0[u];
                            assert(l0.contains(x));
                            assert(r1[x as int].nearest_dist == r0[x as int].nearest_dist);
                        }
                    }
                    assert forall|k: int| 0 <= k < n implies #[trigger] nn(r2, k) == (if l1.contains(
                        k as usize,
                    ) {
                        n
                    } else {
                        nn(s0, k)
                    }) by {
                        assert(nn(r1, k) == nn(r0, k));
                    }
                }
            }
        }
        proof {
            let done = candidates@.subrange(0, t as int);
            let more = candidates@.subrange(0, t + 1);
            assert(more =~= done.push(c));
            assert forall|k: usize| more.contains(k) == (done.contains(k) || k == c) by {
                if done.contains(k) {
                    let u = choose|u: int| 0 <= u < done.len() && done[u] == k;
                    assert(more[u] == k);
                }
                if k == c {
                    assert(more[t as int] == k);
                }
            }
            assert forall|k: int| 0 <= k < n implies nearest_neighbour_for@.contains(k as usize) == (
            more.contains(k as usize) && d.spec_delta_r2(#[trigger] pjs[k], pseudojet).rank()
                < separation_of(*d, pjs, ptr, k).rank()) by {
                if k == c {
                    assert(nn(r0, k) == (if l0.contains(k as usize) {
                        n
                    } else {
                        nn(s0, k)
                    }));
                }
            }
        }
        t += 1;
    }
    assert(candidates@.subrange(0, candidates@.len() as int) =~= candidates@);
    let ghost r3 = recs@;
    let mut rec = PseudoJetWithDist {
        pseudojet,
        beam_dist,
        nearest_dist: Scalar::infinity(),
        nearest_neighbour_idx: nearest_idx,
        nearest_neighbour_for,
    };
    if nearest_idx != NONE {
        recs[nearest_idx].nearest_neighbour_for.push(n);
        rec.nearest_dist = d.distance(&rec.pseudojet, &recs[nearest_idx].pseudojet);
    }
    let ghost r4 = recs@;
    let ghost list = rec.nearest_neighbour_for@;
    recs.push(rec);
    proof {
        let r5 = recs@;
        assert forall|k: int| 0 <= k < n implies r5[k] == r4[k] by {}
        assert forall|i: int| 0 <= i < n && i != nearest_idx implies back(r4, i) == back(r3, i) by {}
        assert forall|j: int| 0 <= j <= n implies #[trigger] pointer_ok(r5, j) by {
            if j < n {
                assert(pointer_ok(r3, j));
                assert(nn(r3, j) == (if list.contains(j as usize) {
                    n
                } else {
                    nn(s0, j)
                }));
                let q = nn(r3, j);
                if q < n && q == nearest_idx {
                    let u = choose|u: int|
                        0 <= u < back(r3, q as int).len() && back(r3, q as int)[u] == j as usize;
                    assert(back(r4, q as int)[u] == j as usize);
                }
            } else if nearest_idx != NONE {
                assert(back(r4, nearest_idx as int)[back(r3, nearest_idx as int).len() as int] == n);
            }
        }
        assert forall|i: int, u: int| 0 <= i <= n && 0 <= u < back(r5, i).len() implies #[trigger] entry_ok(
            r5,
            i,
            u,
            -1,
        ) by {
            if i == n {
                let x = list[u];
                assert(nn(r3, x as int) == n);
            } else if i == nearest_idx && u == back(r3, i).len() {
            } else {
                assert(entry_ok(r3, i, u, -1));
            }
        }
        assert forall|i: int| 0 <= i <= n implies (#[trigger] back(r5, i)).no_duplicates() by {
            if i < n {
                assert(back(r3, i).no_duplicates());
                if i == nearest_idx {
                    assert forall|u: int| 0 <= u < back(r3, i).len() implies back(r3, i)[u] != n by {
                        assert(entry_ok(r3, i, u, -1));
                    }
                }
            }
        }
        assert forall|j: int| 0 <= j <= n implies #[trigger] nn(r5, j) != n + 1 by {
            if j < n {
                assert(pointer_ok(r3, j));
            }
        }
        assert(pseudojets_of(r5) =~= pjs.push(pseudojet)) by {
            assert forall|k: int| 0 <= k < n implies pseudojets_of(r5)[k] == pjs[k] by {
                assert(pseudojets_of(r3)[k] == r3[k].pseudojet);
            }
        }
        assert forall|i: int| 0 <= i <= n implies #[trigger] distance_ok(*d, r5, i) by {
            if i < n {
                assert(distance_ok(*d, r3, i));
                assert(pseudojets_of(r3)[i] == r3[i].pseudojet);
                let q = nn(r5, i);
                if q == n {
                    assert(pointer_ok(r3, i));
                    assert(list.contains(i as usize));
                    let u = choose|u: int| 0 <= u < list.len() && list[u] == i as usize;
                    assert(r3[list[u] as int].nearest_dist == d.spec_distance(
                        pjs[list[u] as int],
                        pseudojet,
                    ));
                }
            } else if nearest_idx != NONE {
                assert(pseudojets_of(r3)[nearest_idx as int] == r3[nearest_idx as int].pseudojet);
            }
        }
        let model = pointers_pushed(*d, pjs, ptr, pseudojet, candidates@);
        assert forall|k: int| 0 <= k <= n implies pointers_of(r5)[k] == model[k] by {
            if k < n {
                assert(nn(r3, k) == (if list.contains(k as usize) {
                    n
                } else {
                    nn(s0, k)
                }));
                assert(ptr[k] == nn(s0, k));
                assert(list.contains(k as usize) == (candidates@.contains(k as usize)
                    && d.spec_delta_r2(pjs[k], pseudojet).rank() < separation_of(
                    *d,
                    pjs,
                    ptr,
                    k,
                ).rank()));
            }
        }
        assert(pointers_of(r5) =~= model);
    }
}

/// In records whose pointers and lists agree and whose pointers are
/// settled, every pointer is `NONE` or names another position.
pub proof fn lemma_pointers_valid(recs: Seq<PseudoJetWithDist>)
    requires
        linked(recs, -1),
        settled(recs),
    ensures
        pointers_valid(pointers_of(recs)),
        pointers_of(recs).len() == recs.len(),
{
    assert forall|i: int| 0 <= i < recs.len() implies (#[trigger] pointers_of(recs)[i]) == NONE || (
    pointers_of(recs)[i] < recs.len() && pointers_of(recs)[i] != i) by {
        assert(pointer_ok(recs, i));
        assert(nn(recs, i) != recs.len());
    }
}

/// In records whose distances are those of the distance measure and whose
/// pointers are settled, the stored distances are those that follow from
/// the pseudojets and the pointers.
pub proof fn lemma_keys<D: Distance>(d: D, recs: Seq<PseudoJetWithDist>, k: int)
    requires
        linked(recs, -1),
        settled(recs),
        distances_ok(d, recs),
        0 <= k <= recs.len(),
    ensures
        forall|i: int|
            0 <= i < recs.len() ==> (#[trigger] recs[i]).nearest_dist == near_of(
                d,
                pseudojets_of(recs),
                pointers_of(recs),
                i,
            ) && min_dist(recs[i]) == key_of(d, pseudojets_of(recs), pointers_of(recs), i)
                && is_jet(recs[i]) == jet_at(d, pseudojets_of(recs), pointers_of(recs), i),
        min_idx_upto(recs, k) == turn_upto(d, pseudojets_of(recs), pointers_of(recs), k),
    decreases k,
{
    let pjs = pseudojets_of(recs);
    let ptr = pointers_of(recs);
    assert forall|i: int| 0 <= i < recs.len() implies (#[trigger] recs[i]).nearest_dist == near_of(
        d,
        pjs,
        ptr,
        i,
    ) && min_dist(recs[i]) == key_of(d, pjs, ptr, i) && is_jet(recs[i]) == jet_at(d, pjs, ptr, i) by {
        assert(distance_ok(d, recs, i));
        assert(pointer_ok(recs, i));
        assert(nn(recs, i) != recs.len());
    }
    if k > 1 {
        lemma_keys(d, recs, k - 1);
        let m = min_idx_upto(recs, k - 1);
        lemma_min_idx_upto(recs, k - 1);
        assert(min_dist(recs[k - 1]) == key_of(d, pjs, ptr, k - 1));
        assert(min_dist(recs[m]) == key_of(d, pjs, ptr, m));
    }
}

/// The first position with the smallest distance among the first `k` is
/// one of them.
pub proof fn lemma_min_idx_upto(recs: Seq<PseudoJetWithDist>, k: int)
    requires
        0 < k,
    ensures
        0 <= min_idx_upto(recs, k) < k,
    decreases k,
{
    if k > 1 {
        lemma_min_idx_upto(recs, k - 1);
    }
}

/// The pseudojet whose turn it is has the smallest of the smaller
/// distances.
pub proof fn lemma_turn_is_least<D: Distance>(d: D, pjs: Seq<PseudoJet>, ptr: Seq<usize>, k: int)
    requires
        0 < k <= pjs.len(),
    ensures
        0 <= turn_upto(d, pjs, ptr, k) < k,
        forall|i: int|
            0 <= i < k ==> key_of(d, pjs, ptr, turn_upto(d, pjs, ptr, k)).rank() <= (#[trigger] key_of(
                d,
                pjs,
                ptr,
                i,
            )).rank(),
    decreases k,
{
    if k > 1 {
        lemma_turn_is_least(d, pjs, ptr, k - 1);
    }
}

/// Removing by swapping from a list without duplicates leaves a list without
/// duplicates that holds everything but the removed element.
pub proof fn lemma_swap_removed_members(s: Seq<usize>, t: int)
    requires
        s.no_duplicates(),
        0 <= t < s.len(),
    ensures
        swap_removed(s, t).no_duplicates(),
        swap_removed(s, t).len() == s.len() - 1,
        forall|x: usize| swap_removed(s, t).contains(x) == (s.contains(x) && x != s[t]),
        forall|u: int| 0 <= u < swap_removed(s, t).len() ==> s.contains(#[trigger] swap_removed(s, t)[u]),
{
    let r = swap_removed(s, t);
    assert forall|u: int| 0 <= u < r.len() implies s.contains(#[trigger] r[u]) && r[u] != s[t] by {
        if u == t {
            assert(r[u] == s[s.len() - 1]);
        } else {
            assert(r[u] == s[u]);
        }
    }
    assert forall|x: usize| r.contains(x) == (s.contains(x) && x != s[t]) by {
        if s.contains(x) && x != s[t] {
            let u = choose|u: int| 0 <= u < s.len() && s[u] == x;
            if u == s.len() - 1 {
                assert(r[t] == x);
            } else {
                assert(r[u] == x);
            }
        }
        if r.contains(x) {
            let u = choose|u: int| 0 <= u < r.len() && r[u] == x;
            assert(s.contains(r[u]));
        }
    }
}

/// In a list without duplicates that holds `a` but not `b`, writing `b` over
/// `a` gives a list without duplicates that holds `b` in place of `a`.
pub proof fn lemma_replace_member(s: Seq<usize>, t: int, b: usize)
    requires
        s.no_duplicates(),
        0 <= t < s.len(),
        !s.contains(b),
    ensures
        s.update(t, b).no_duplicates(),
        forall|x: usize| s.update(t, b).contains(x) == (x == b || (s.contains(x) && x != s[t])),
{
    let r = s.update(t, b);
    assert forall|u: int, v: int| 0 <= u < r.len() && 0 <= v < r.len() && u != v implies r[u]
        != r[v] by {
        if u != t {
            assert(s.contains(s[u]));
        }
        if v != t {
            assert(s.contains(s[v]));
        }
    }
    assert forall|x: usize| r.contains(x) == (x == b || (s.contains(x) && x != s[t])) by {
        if x == b {
            assert(r[t] == x);
        }
        if s.contains(x) && x != s[t] {
            let u = choose|u: int| 0 <= u < s.len() && s[u] == x;
            assert(r[u] == x);
        }
        if r.contains(x) {
            let u = choose|u: int| 0 <= u < r.len() && r[u] == x;
            if u != t {
                assert(s.contains(s[u]));
            }
        }
    }
}

/// In a list without duplicates, exchanging two of its members gives a list
/// without duplicates with the same members.
pub proof fn lemma_exchange_members(s: Seq<usize>, ta: int, tb: int)
    requires
        s.no_duplicates(),
        0 <= ta < s.len(),
        0 <= tb < s.len(),
    ensures
        s.update(ta, s[tb]).update(tb, s[ta]).no_duplicates(),
        forall|x: usize| s.update(ta, s[tb]).update(tb, s[ta]).contains(x) == s.contains(x),
{
    let r = s.update(ta, s[tb]).update(tb, s[ta]);
    assert forall|x: usize| r.contains(x) == s.contains(x) by {
        if s.contains(x) {
            let u = choose|u: int| 0 <= u < s.len() && s[u] == x;
            if u == ta {
                assert(r[tb] == x);
            } else if u == tb {
                assert(r[ta] == x);
            } else {
                assert(r[u] == x);
            }
        }
        if r.contains(x) {
            let u = choose|u: int| 0 <= u < r.len() && r[u] == x;
            if u == ta {
                assert(s[tb] == x);
            } else if u == tb {
                assert(s[ta] == x);
            } else {
                assert(s[u] == x);
            }
        }
    }
}

/// A list names exactly the positions that point at its owner.
pub proof fn lemma_listed_iff_points(recs: Seq<PseudoJetWithDist>, owner: int, k: int)
    requires
        linked(recs, -1),
        0 <= owner < recs.len(),
        0 <= k < recs.len(),
    ensures
        back(recs, owner).contains(k as usize) == (nn(recs, k) == owner),
{
    if back(recs, owner).contains(k as usize) {
        let t = choose|t: int| 0 <= t < back(recs, owner).len() && back(recs, owner)[t] == k as usize;
        assert(entry_ok(recs, owner, t, -1));
    }
    if nn(recs, k) == owner {
        assert(pointer_ok(recs, k));
    }
}

/// After the pointers have been turned and the two lists have been
/// rewritten, every list holds a position where it held the position that
/// it was exchanged with.
proof fn lemma_lists_exchanged(
    s0: Seq<PseudoJetWithDist>,
    s2: Seq<PseudoJetWithDist>,
    s3: Seq<PseudoJetWithDist>,
    s4: Seq<PseudoJetWithDist>,
    i: usize,
    j: usize,
)
    requires
        linked(s0, -1),
        i < s0.len(),
        j < s0.len(),
        i != j,
        s2.len() == s0.len(),
        s3.len() == s0.len(),
        s4.len() == s0.len(),
        forall|k: int| 0 <= k < s0.len() ==> back(s2, k) == back(s0, k),
        nn(s0, i as int) >= s0.len() ==> s3 == s2,
        nn(s0, i as int) < s0.len() ==> {
            let o = nn(s0, i as int) as int;
            &&& forall|k: int| 0 <= k < s0.len() && k != o ==> back(s3, k) == back(s2, k)
            &&& exists|t: int|
                0 <= t < back(s2, o).len() && back(s2, o)[t] == i && (forall|u: int|
                    0 <= u < t ==> back(s2, o)[u] != i) && back(s3, o) == #[trigger] back(s2, o).update(
                    t,
                    j,
                )
        },
        nn(s0, j as int) >= s0.len() ==> s4 == s3,
        nn(s0, j as int) < s0.len() ==> {
            let o = nn(s0, j as int) as int;
            &&& forall|k: int| 0 <= k < s0.len() && k != o ==> back(s4, k) == back(s3, k)
            &&& exists|t: int|
                0 <= t < back(s3, o).len() && back(s3, o)[t] == j && (forall|u: int|
                    0 <= u < t ==> back(s3, o)[u] != j) && back(s4, o) == #[trigger] back(s3, o).update(
                    t,
                    i,
                )
        },
    ensures
        lists_exchanged(s0, s4, i, j),
{
    let ni = nn(s0, i as int);
    let nj = nn(s0, j as int);
    assert forall|k: int| 0 <= k < s0.len() implies {
        &&& (#[trigger] back(s4, k)).no_duplicates()
        &&& forall|x: usize| back(s4, k).contains(x) == back(s0, k).contains(exchanged(i, j, x))
    } by {
        let l0 = back(s0, k);
        assert(l0.no_duplicates());
        lemma_listed_iff_points(s0, k, i as int);
        lemma_listed_iff_points(s0, k, j as int);
        if ni == k && nj == k {
            let ta = choose|t: int|
                0 <= t < back(s2, k).len() && back(s2, k)[t] == i && (forall|u: int|
                    0 <= u < t ==> back(s2, k)[u] != i) && back(s3, k) == #[trigger] back(s2, k).update(
                    t,
                    j,
                );
            let tb = choose|t: int|
                0 <= t < back(s3, k).len() && back(s3, k)[t] == j && (forall|u: int|
                    0 <= u < t ==> back(s3, k)[u] != j) && back(s4, k) == #[trigger] back(s3, k).update(
                    t,
                    i,
                );
            let l3 = l0.update(ta, j);
            if tb == ta {
                assert(back(s4, k) =~= l0);
            } else {
                assert(l0[tb] == j);
                assert(back(s4, k) =~= l0.update(ta, l0[tb]).update(tb, l0[ta]));
                lemma_exchange_members(l0, ta, tb);
            }
        } else if ni == k {
            let ta = choose|t: int|
                0 <= t < back(s2, k).len() && back(s2, k)[t] == i && (forall|u: int|
                    0 <= u < t ==> back(s2, k)[u] != i) && back(s3, k) == #[trigger] back(s2, k).update(
                    t,
                    j,
                );
            lemma_replace_member(l0, ta, j);
            assert(back(s4, k) == back(s3, k));
        } else if nj == k {
            assert(back(s3, k) == l0);
            let tb = choose|t: int|
                0 <= t < back(s3, k).len() && back(s3, k)[t] == j && (forall|u: int|
                    0 <= u < t ==> back(s3, k)[u] != j) && back(s4, k) == #[trigger] back(s3, k).update(
                    t,
                    i,
                );
            lemma_replace_member(l0, tb, i);
        } else {
            assert(back(s3, k) == l0);
            assert(back(s4, k) == l0);
        }
    }
}

/// Once pointers and lists have been rewritten for an exchange, moving the
/// two records to each other's position gives pointers and lists that
/// agree.
proof fn lemma_exchange_linked(
    s0: Seq<PseudoJetWithDist>,
    s4: Seq<PseudoJetWithDist>,
    s5: Seq<PseudoJetWithDist>,
    i: usize,
    j: usize,
)
    requires
        linked(s0, -1),
        i < s0.len(),
        j < s0.len(),
        i != j,
        s4.len() == s0.len(),
        s5.len() == s0.len(),
        lists_exchanged(s0, s4, i, j),
        forall|k: int| 0 <= k < s0.len() ==> nn(s4, k) == exchanged(i, j, #[trigger] nn(s0, k)),
        forall|k: int| 0 <= k < s0.len() ==> s5[exchanged(i, j, k as usize) as int] == #[trigger] s4[k],
    ensures
        linked(s5, -1),
{
    assert forall|m: int| 0 <= m < s5.len() implies #[trigger] pointer_ok(s5, m) by {
        let k = exchanged(i, j, m as usize) as int;
        assert(s5[exchanged(i, j, k as usize) as int] == s4[k]);
        assert(pointer_ok(s0, k));
        let q = nn(s0, k);
        assert(nn(s4, k) == exchanged(i, j, nn(s0, k)));
        if q < s0.len() {
            let qm = exchanged(i, j, q) as int;
            assert(s5[exchanged(i, j, q) as int] == s4[q as int]);
            assert(back(s4, q as int).no_duplicates());
            assert(back(s4, q as int).contains(m as usize) == back(s0, q as int).contains(
                exchanged(i, j, m as usize),
            ));
        }
    }
    assert forall|m: int, t: int|
        0 <= m < s5.len() && 0 <= t < back(s5, m).len() implies #[trigger] entry_ok(s5, m, t, -1) by {
        let k = exchanged(i, j, m as usize) as int;
        assert(s5[exchanged(i, j, k as usize) as int] == s4[k]);
        let x = back(s5, m)[t];
        assert(back(s4, k).no_duplicates());
        assert(back(s4, k).contains(x));
        assert(back(s0, k).contains(exchanged(i, j, x)));
        let y = exchanged(i, j, x);
        let u = choose|u: int| 0 <= u < back(s0, k).len() && back(s0, k)[u] == y;
        assert(entry_ok(s0, k, u, -1));
        assert(nn(s4, y as int) == exchanged(i, j, nn(s0, y as int)));
        assert(s5[exchanged(i, j, y) as int] == s4[y as int]);
    }
    assert forall|m: int| 0 <= m < s5.len() implies (#[trigger] back(s5, m)).no_duplicates() by {
        let k = exchanged(i, j, m as usize) as int;
        assert(s5[exchanged(i, j, k as usize) as int] == s4[k]);
        assert(back(s4, k).no_duplicates());
    }
}

/// The nearest neighbour among the first `k` candidates is one of them, and
/// not the pseudojet itself.
pub proof fn lemma_nearest_upto<D: Distance>(
    d: D,
    pjs: Seq<PseudoJet>,
    pos: int,
    candidates: Seq<usize>,
    k: int,
    ties_by_index: bool,
)
    requires
        0 <= k <= candidates.len(),
        candidates_ok(candidates, pjs.len() as int),
        pjs.len() < usize::MAX,
    ensures
        ({
            let b = nearest_upto(d, pjs, pos, candidates, k, ties_by_index);
            b == NONE || (b < pjs.len() && b != pos && exists|t: int|
                0 <= t < k && #[trigger] candidates[t] == b)
        }),
    decreases k,
{
    if k > 0 {
        lemma_nearest_upto(d, pjs, pos, candidates, k - 1, ties_by_index);
    }
}

/// The nearest neighbour among the first `k` candidates is a nearest
/// neighbour among them.
pub proof fn lemma_nearest_is_best<D: Distance>(
    d: D,
    pjs: Seq<PseudoJet>,
    pos: int,
    candidates: Seq<usize>,
    k: int,
    ties_by_index: bool,
)
    requires
        0 <= k <= candidates.len(),
        candidates_ok(candidates, pjs.len() as int),
        pjs.len() < usize::MAX,
    ensures
        best_among(
            d,
            pjs,
            pos,
            nearest_upto(d, pjs, pos, candidates, k, ties_by_index),
            candidates.subrange(0, k),
        ),
    decreases k,
{
    let done = candidates.subrange(0, k);
    let b = nearest_upto(d, pjs, pos, candidates, k, ties_by_index);
    if k > 0 {
        lemma_nearest_is_best(d, pjs, pos, candidates, k - 1, ties_by_index);
        let before = candidates.subrange(0, k - 1);
        let a = nearest_upto(d, pjs, pos, candidates, k - 1, ties_by_index);
        let last = candidates[k - 1];
        assert(done =~= before.push(last));
        assert forall|c: usize| done.contains(c) implies before.contains(c) || c == last by {
            let u = choose|u: int| 0 <= u < done.len() && done[u] == c;
            if u < k - 1 {
                assert(before[u] == c);
            }
        }
        if b == NONE {
            assert forall|c: usize| #[trigger] done.contains(c) && c != pos implies !(
            d.spec_delta_r2(pjs[pos], pjs[c as int]).rank() < INFINITY_BITS) by {
                assert(before.contains(c) || c == last);
            }
        } else {
            assert forall|c: usize| #[trigger] done.contains(c) && c != pos implies d.spec_delta_r2(
                pjs[pos],
                pjs[b as int],
            ).rank() <= d.spec_delta_r2(pjs[pos], pjs[c as int]).rank() by {
                assert(before.contains(c) || c == last);
            }
        }
    } else {
        assert forall|c: usize| #[trigger] done.contains(c) && c != pos implies !(d.spec_delta_r2(
            pjs[pos],
            pjs[c as int],
        ).rank() < INFINITY_BITS) by {
            assert(done.len() == 0);
        }
    }
}

/// The nearest neighbour among the candidates is a nearest neighbour among
/// them.
pub proof fn lemma_nearest_of_is_best<D: Distance>(
    d: D,
    pjs: Seq<PseudoJet>,
    pos: int,
    candidates: Seq<usize>,
    ties_by_index: bool,
)
    requires
        candidates_ok(candidates, pjs.len() as int),
        pjs.len() < usize::MAX,
    ensures
        best_among(d, pjs, pos, nearest_of(d, pjs, pos, candidates, ties_by_index), candidates),
{
    lemma_nearest_is_best(d, pjs, pos, candidates, candidates.len() as int, ties_by_index);
    assert(candidates.subrange(0, candidates.len() as int) =~= candidates);
}

} // verus!
