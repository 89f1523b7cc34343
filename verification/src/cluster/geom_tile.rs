//! Clustering using the geometric O(N^2) approach of [arXiv:0512210](https://arxiv.org/abs/hep-ph/0512210) with tiling
use vstd::prelude::*;
use crate::cluster::geom::{active_after, lemma_turn_distance_is_a_distance};
use crate::cluster::naive::{
    chosen, lemma_chosen_has_least_distance, lemma_chosen_is_least, table_fits, value_at, Entry,
};
use crate::cluster::nearest::{
    back, best_among, candidates_ok, detach, distance_ok, distances_ok, entry_ok, exchanged,
    follows_separation, infinite_when_apart, jet_at, key_of, lemma_keys,
    lemma_nearest_of_is_best, lemma_nearest_upto, lemma_pointers_valid, lemma_turn_is_least,
    linked, min_idx, nearest_of, nn, pointer_ok, pointers_of, pointers_pushed, pointers_removed,
    pointers_valid, pseudojets_of, push, settled, step_at, symmetric, turn,
    update_nearest_at_idx, PseudoJetWithDist, NONE,
};
use crate::cluster::tiles::{
    adjacent, empty_grid, in_own_tile, lemma_adjacent_symmetric, lemma_neighbours_are_positions,
    lemma_neighbours_members, lemma_tile_inserted, lemma_tile_of, lemma_tile_removed,
    neighbours_of, phi_bin, rap_bin, tile_coord, tile_inserted, tile_of, tile_removed, tiles_fit,
    Tiles, N_PHI_BINS, N_RAP_BINS, N_TILES,
};
use crate::cluster::{lemma_merged_multiset, lemma_swap_removed_multiset, swap_removed, ClusterHist, ClusterStep};
use crate::distance::Distance;
use crate::pseudojet::PseudoJet;
use crate::scalar::{lemma_rank_injective, Scalar, INFINITY_BITS};

verus! {

/// Cluster history using the geometric O(N^2) approach of [arXiv:0512210](https://arxiv.org/abs/hep-ph/0512210) with tiling
pub struct ClusterGeomTile<D> {
    pseudojets: Vec<PseudoJetWithDist>,
    distance: D,
    tiles: Tiles,
}

/// The positions around a pseudojet: those in its tile and in the tiles
/// around it.
pub open spec fn around(view: Seq<Seq<usize>>, p: PseudoJet) -> Seq<usize> {
    neighbours_of(view, rap_bin(p.spec_rap()) as usize, phi_bin(p.spec_phi()) as usize)
}

/// The candidates for the nearest neighbour of each pseudojet: the
/// positions around it.
pub open spec fn nearby(grid: Seq<Seq<usize>>, pjs: Seq<PseudoJet>) -> spec_fn(int) -> Seq<usize> {
    |k: int| around(grid, pjs[k])
}

/// The grid after the first `k` positions have been entered, each in the
/// tile that its parton lies in.
pub open spec fn initial_grid(partons: Seq<PseudoJet>, k: int) -> Seq<Seq<usize>>
    decreases k,
{
    if k <= 0 {
        empty_grid()
    } else {
        tile_inserted(initial_grid(partons, k - 1), tile_of(partons[k - 1]), (k - 1) as usize)
    }
}

/// The pointers at the start: every pseudojet points at the one nearest to
/// it in the plane of rapidity and azimuthal angle among those around it,
/// the one at the lowest position of several.
pub open spec fn initial_pointers<D: Distance>(d: D, partons: Seq<PseudoJet>) -> Seq<usize> {
    Seq::new(
        partons.len(),
        |i: int|
            nearest_of(
                d,
                partons,
                i,
                around(initial_grid(partons, partons.len() as int), partons[i]),
                true,
            ),
    )
}

/// The grid after the pseudojet at position `idx` has left and the last
/// one has taken its position.
pub open spec fn grid_without(grid: Seq<Seq<usize>>, pjs: Seq<PseudoJet>, idx: usize) -> Seq<
    Seq<usize>,
> {
    let last = (pjs.len() - 1) as usize;
    let tile_idx = tile_of(pjs[idx as int]);
    let tile_last = tile_of(pjs[last as int]);
    let exchanged = if idx != last && tile_idx != tile_last {
        tile_inserted(
            tile_removed(
                tile_inserted(tile_removed(grid, tile_idx, idx), tile_idx, last),
                tile_last,
                last,
            ),
            tile_last,
            idx,
        )
    } else {
        grid
    };
    tile_removed(exchanged, tile_idx, last)
}

/// The pointers after the pseudojet at position `idx` has left.
pub open spec fn pointers_without<D: Distance>(
    d: D,
    pjs: Seq<PseudoJet>,
    ptr: Seq<usize>,
    grid: Seq<Seq<usize>>,
    idx: usize,
) -> Seq<usize> {
    pointers_removed(
        d,
        pjs,
        ptr,
        idx,
        nearby(grid_without(grid, pjs, idx), swap_removed(pjs, idx as int)),
    )
}

/// The pointers after the step that pseudojets with pointers decide.
pub open spec fn pointers_after<D: Distance>(
    d: D,
    pjs: Seq<PseudoJet>,
    ptr: Seq<usize>,
    grid: Seq<Seq<usize>>,
) -> Seq<usize> {
    let i = turn(d, pjs, ptr);
    let pjs1 = swap_removed(pjs, i);
    let ptr1 = pointers_without(d, pjs, ptr, grid, i as usize);
    let grid1 = grid_without(grid, pjs, i as usize);
    if jet_at(d, pjs, ptr, i) {
        ptr1
    } else {
        let j = exchanged(i as usize, (pjs.len() - 1) as usize, ptr[i]);
        let pjs2 = swap_removed(pjs1, j as int);
        let ptr2 = pointers_without(d, pjs1, ptr1, grid1, j);
        let grid2 = grid_without(grid1, pjs1, j);
        let merged = d.spec_combine(pjs[i], pjs[ptr[i] as int]);
        pointers_pushed(d, pjs2, ptr2, merged, around(grid2, merged))
    }
}

/// The grid after the step that pseudojets with pointers decide.
pub open spec fn grid_after<D: Distance>(
    d: D,
    pjs: Seq<PseudoJet>,
    ptr: Seq<usize>,
    grid: Seq<Seq<usize>>,
) -> Seq<Seq<usize>> {
    let i = turn(d, pjs, ptr);
    let pjs1 = swap_removed(pjs, i);
    let grid1 = grid_without(grid, pjs, i as usize);
    if jet_at(d, pjs, ptr, i) {
        grid1
    } else {
        let j = exchanged(i as usize, (pjs.len() - 1) as usize, ptr[i]);
        let pjs2 = swap_removed(pjs1, j as int);
        let grid2 = grid_without(grid1, pjs1, j);
        let merged = d.spec_combine(pjs[i], pjs[ptr[i] as int]);
        tile_inserted(grid2, tile_of(merged), pjs2.len() as usize)
    }
}

/// The steps that follow from pseudojets with pointers in their tiles,
/// from the next one to the last one.
pub open spec fn history_of<D: Distance>(
    d: D,
    pjs: Seq<PseudoJet>,
    ptr: Seq<usize>,
    grid: Seq<Seq<usize>>,
) -> Seq<ClusterStep>
    decreases pjs.len(),
{
    if pjs.len() == 0 || active_after(d, pjs, ptr).len() >= pjs.len() {
        Seq::empty()
    } else {
        seq![step_at(d, pjs, ptr)] + history_of(
            d,
            active_after(d, pjs, ptr),
            pointers_after(d, pjs, ptr, grid),
            grid_after(d, pjs, ptr, grid),
        )
    }
}

/// Whether no tile holds a position twice.
pub open spec fn grid_ok(grid: Seq<Seq<usize>>) -> bool {
    &&& grid.len() == N_TILES
    &&& forall|t: int| 0 <= t < N_TILES ==> (#[trigger] grid[t]).no_duplicates()
}

/// Whether every pointer is at a nearest neighbour among the pseudojets
/// around, or at none where there is none.
pub open spec fn all_nearest<D: Distance>(
    d: D,
    pjs: Seq<PseudoJet>,
    ptr: Seq<usize>,
    grid: Seq<Seq<usize>>,
) -> bool {
    forall|i: int|
        0 <= i < pjs.len() ==> #[trigger] best_among(d, pjs, i, ptr[i], around(grid, pjs[i]))
}

/// Whether two pseudojets that are not around each other are no less
/// distant from each other than one of them is from the beam.
pub open spec fn beam_nearer_than_far<D: Distance>(
    d: D,
    pjs: Seq<PseudoJet>,
    grid: Seq<Seq<usize>>,
) -> bool {
    forall|a: int, c: int|
        0 <= a < pjs.len() && 0 <= c < pjs.len() && !around(grid, pjs[a]).contains(c as usize) ==> {
            ||| d.spec_beam_distance(pjs[a]).rank() <= (#[trigger] d.spec_distance(
                pjs[a],
                pjs[c],
            )).rank()
            ||| d.spec_beam_distance(pjs[c]).rank() <= d.spec_distance(pjs[a], pjs[c]).rank()
        }
}

impl<D: Distance> ClusterGeomTile<D> {
    /// The distance measure.
    pub closed spec fn measure(&self) -> D {
        self.distance
    }

    /// The active pseudojets with their distances and pointers.
    pub closed spec fn records(&self) -> Seq<PseudoJetWithDist> {
        self.pseudojets@
    }

    /// The positions that each tile holds.
    pub closed spec fn grid(&self) -> Seq<Seq<usize>> {
        self.tiles@
    }

    /// The nearest-neighbour pointers of the active pseudojets.
    pub open spec fn pointers(&self) -> Seq<usize> {
        pointers_of(self.records())
    }

    /// The positions around a pseudojet.
    fn neighbours(&self, pseudojet: &PseudoJet) -> (found: Vec<usize>)
        requires
            self.tiles.wf(),
            tiles_fit(self.tiles@, pseudojets_of(self.pseudojets@)),
        ensures
            found@ == around(self.tiles@, *pseudojet),
            candidates_ok(found@, self.pseudojets@.len() as int),
    {
        let coord = tile_coord(pseudojet);
        proof {
            lemma_neighbours_are_positions(
                self.tiles@,
                pseudojets_of(self.pseudojets@),
                coord[0],
                coord[1],
            );
        }
        self.tiles.tile_neighbours(coord[0], coord[1])
    }

    /// What holds before and after every step: every pointer is `NONE` or
    /// names another active pseudojet, and that one is a nearest neighbour
    /// in the plane of rapidity and azimuthal angle among the pseudojets
    /// around; a pseudojet lists exactly those that point at it, each
    /// once; the stored distances are those of the distance measure; every
    /// position is held once by the tile that its pseudojet lies in, and
    /// by no other.
    pub proof fn lemma_invariant(&self)
        requires
            self.wf(),
        ensures
            linked(self.records(), -1),
            settled(self.records()),
            distances_ok(self.measure(), self.records()),
            grid_ok(self.grid()),
            tiles_fit(self.grid(), self.active()),
            all_nearest(self.measure(), self.active(), self.pointers(), self.grid()),
    {
        self.tiles.lemma_wf();
    }

    /// Initialise clustering for the given `partons` and `distance`
    ///
    /// Every pseudojet points at the one nearest to it in the plane of
    /// rapidity and azimuthal angle among those around it, the one at the
    /// lowest position of several.
    pub fn new(partons: Vec<PseudoJet>, distance: D) -> (r: Self)
        requires
            partons.len() < usize::MAX,
        ensures
            r.wf(),
            r.active() == partons@,
            r.measure() == distance,
            r.grid() == initial_grid(partons@, partons@.len() as int),
            r.pointers() == initial_pointers(distance, partons@),
    {
        let n = partons.len();
        let mut pseudojets: Vec<PseudoJetWithDist> = Vec::new();
        let mut i: usize = 0;
        while i < n
            invariant
                0 <= i <= n,
                n == partons.len(),
                pseudojets.len() == i,
                forall|k: int|
                    0 <= k < i ==> {
                        &&& (#[trigger] pseudojets@[k]).pseudojet == partons@[k]
                        &&& pseudojets@[k].beam_dist == distance.spec_beam_distance(partons@[k])
                        &&& pseudojets@[k].nearest_dist == Scalar::spec_infinity()
                        &&& pseudojets@[k].nearest_neighbour_idx == NONE
                        &&& pseudojets@[k].nearest_neighbour_for@.len() == 0
                    },
            decreases n - i,
        {
            pseudojets.push(
                PseudoJetWithDist {
                    pseudojet: partons[i],
                    beam_dist: distance.beam_distance(&partons[i]),
                    nearest_dist: Scalar::infinity(),
                    nearest_neighbour_idx: NONE,
                    nearest_neighbour_for: Vec::new(),
                },
            );
            i += 1;
        }
        proof {
            assert forall|j: int| 0 <= j < n implies #[trigger] pointer_ok(pseudojets@, j) by {
                assert(pseudojets@[j].nearest_neighbour_idx == NONE);
            }
            assert forall|j: int| 0 <= j < n implies #[trigger] distance_ok(
                distance,
                pseudojets@,
                j,
            ) by {
                assert(pseudojets@[j].nearest_neighbour_idx == NONE);
            }
            assert forall|j: int| 0 <= j < n implies (#[trigger] back(
                pseudojets@,
                j,
            )).no_duplicates() by {
                assert(pseudojets@[j].nearest_neighbour_for@.len() == 0);
            }
            assert forall|j: int, t: int|
                0 <= j < n && 0 <= t < back(pseudojets@, j).len() implies #[trigger] entry_ok(
                pseudojets@,
                j,
                t,
                -1,
            ) by {
                assert(pseudojets@[j].nearest_neighbour_for@.len() == 0);
            }
            assert(pseudojets_of(pseudojets@) =~= partons@);
        }
        let mut res = ClusterGeomTile { pseudojets, distance, tiles: Tiles::new() };
        res.init_tiles();
        res.init_nearest();
        proof {
            assert forall|k: int| 0 <= k < partons@.len() implies pointers_of(res.pseudojets@)[k]
                == initial_pointers(distance, partons@)[k] by {
                assert(nn(res.pseudojets@, k) == pointers_of(res.pseudojets@)[k]);
            }
            assert(pointers_of(res.pseudojets@) =~= initial_pointers(distance, partons@));
        }
        res
    }

    /// Enter every position in the tile that its pseudojet lies in.
    fn init_tiles(&mut self)
        requires
            old(self).tiles.wf(),
            old(self).tiles@ == empty_grid(),
        ensures
            final(self).tiles.wf(),
            final(self).pseudojets == old(self).pseudojets,
            final(self).distance == old(self).distance,
            tiles_fit(final(self).tiles@, pseudojets_of(final(self).pseudojets@)),
            final(self).tiles@ == initial_grid(
                pseudojets_of(old(self).pseudojets@),
                old(self).pseudojets@.len() as int,
            ),
    {
        let ghost pjs = pseudojets_of(self.pseudojets@);
        proof {
            self.tiles.lemma_wf();
        }
        let mut n: usize = 0;
        while n < self.pseudojets.len()
            invariant
                0 <= n <= self.pseudojets.len(),
                self.pseudojets == old(self).pseudojets,
                self.distance == old(self).distance,
                pjs == pseudojets_of(self.pseudojets@),
                self.tiles.wf(),
                self.tiles@.len() == N_TILES,
                self.tiles@ == initial_grid(pjs, n as int),
                forall|i: int| 0 <= i < n ==> #[trigger] in_own_tile(self.tiles@, pjs, i),
                forall|t: int, x: usize|
                    0 <= t < N_TILES && #[trigger] self.tiles@[t].contains(x) ==> x < n && tile_of(
                        pjs[x as int],
                    ) == t,
            decreases self.pseudojets.len() - n,
        {
            let tile = tile_number(&self.pseudojets[n].pseudojet);
            let ghost before = self.tiles@;
            assert(pjs[n as int] == self.pseudojets@[n as int].pseudojet);
            self.tiles.insert(tile, n);
            proof {
                assert forall|i: int| 0 <= i < n + 1 implies #[trigger] in_own_tile(
                    self.tiles@,
                    pjs,
                    i,
                ) by {
                    lemma_tile_of(pjs[i]);
                    if i < n {
                        assert(in_own_tile(before, pjs, i));
                    }
                }
            }
            n += 1;
        }
    }

    /// Point every pseudojet at its nearest neighbour among those around it.
    fn init_nearest(&mut self)
        requires
            old(self).tiles.wf(),
            tiles_fit(old(self).tiles@, pseudojets_of(old(self).pseudojets@)),
            linked(old(self).pseudojets@, -1),
            distances_ok(old(self).distance, old(self).pseudojets@),
            forall|k: int|
                0 <= k < old(self).pseudojets@.len() ==> nn(old(self).pseudojets@, k) == NONE,
        ensures
            final(self).wf(),
            final(self).active() == old(self).active(),
            final(self).distance == old(self).distance,
            final(self).tiles == old(self).tiles,
            forall|i: int|
                0 <= i < old(self).pseudojets@.len() ==> #[trigger] nn(final(self).pseudojets@, i)
                    == nearest_of(
                    old(self).distance,
                    pseudojets_of(old(self).pseudojets@),
                    i,
                    around(old(self).tiles@, old(self).pseudojets@[i].pseudojet),
                    true,
                ),
    {
        let n = self.pseudojets.len();
        let ghost pjs = pseudojets_of(self.pseudojets@);
        let mut i: usize = 0;
        while i < n
            invariant
                0 <= i <= n,
                n == self.pseudojets.len(),
                self.distance == old(self).distance,
                self.tiles == old(self).tiles,
                self.tiles.wf(),
                pjs == pseudojets_of(old(self).pseudojets@),
                pseudojets_of(self.pseudojets@) == pjs,
                tiles_fit(self.tiles@, pjs),
                linked(self.pseudojets@, -1),
                distances_ok(self.distance, self.pseudojets@),
                forall|k: int| 0 <= k < n ==> #[trigger] nn(self.pseudojets@, k) != n,
                forall|k: int|
                    0 <= k < i ==> #[trigger] nn(self.pseudojets@, k) == nearest_of(
                        self.distance,
                        pjs,
                        k,
                        around(self.tiles@, pjs[k]),
                        true,
                    ),
            decreases n - i,
        {
            assert(pjs[i as int] == self.pseudojets@[i as int].pseudojet);
            let candidates = self.neighbours(&self.pseudojets[i].pseudojet);
            update_nearest_at_idx(&mut self.pseudojets, i, &candidates, &self.distance, true);
            i += 1;
        }
        proof {
            assert forall|i: int| 0 <= i < n implies old(self).pseudojets@[i].pseudojet == pjs[i] by {}
            assert forall|k: int| 0 <= k < n implies #[trigger] best_among(
                self.distance,
                pjs,
                k,
                pointers_of(self.pseudojets@)[k],
                around(self.tiles@, pjs[k]),
            ) by {
                lemma_tile_of(pjs[k]);
                lemma_neighbours_are_positions(
                    self.tiles@,
                    pjs,
                    rap_bin(pjs[k].spec_rap()) as usize,
                    phi_bin(pjs[k].spec_phi()) as usize,
                );
                lemma_nearest_of_is_best(self.distance, pjs, k, around(self.tiles@, pjs[k]), true);
                assert(nn(self.pseudojets@, k) == pointers_of(self.pseudojets@)[k]);
            }
        }
    }

    /// Remove pseudojet at `idx`, updating the nearest-neighbour indices
    fn remove(&mut self, idx: usize) -> (out: PseudoJetWithDist)
        requires
            old(self).wf(),
            idx < old(self).active().len(),
        ensures
            final(self).wf(),
            final(self).measure() == old(self).measure(),
            final(self).active() == swap_removed(old(self).active(), idx as int),
            out.pseudojet == old(self).records()[idx as int].pseudojet,
            out.beam_dist == old(self).records()[idx as int].beam_dist,
            out.nearest_dist == old(self).records()[idx as int].nearest_dist,
            out.nearest_neighbour_idx == exchanged(
                idx,
                (old(self).active().len() - 1) as usize,
                nn(old(self).records(), idx as int),
            ),
            out.nearest_neighbour_idx == NONE
                || out.nearest_neighbour_idx < final(self).active().len(),
            final(self).grid() == grid_without(old(self).grid(), old(self).active(), idx),
            final(self).pointers() == pointers_without(
                old(self).measure(),
                old(self).active(),
                old(self).pointers(),
                old(self).grid(),
                idx,
            ),
    {
        let ghost s0 = self.pseudojets@;
        let ghost pjs = pseudojets_of(s0);
        let ghost v0 = self.tiles@;
        let last = self.pseudojets.len() - 1;
        let tile_idx = tile_number(&self.pseudojets[idx].pseudojet);
        let tile_last = tile_number(&self.pseudojets[last].pseudojet);
        proof {
            assert(pjs[idx as int] == s0[idx as int].pseudojet);
            assert(pjs[last as int] == s0[last as int].pseudojet);
            assert(in_own_tile(v0, pjs, idx as int));
            assert(in_own_tile(v0, pjs, last as int));
        }
        if idx != last && tile_idx != tile_last {
            self.tiles.remove(tile_idx, idx);
            self.tiles.insert(tile_idx, last);
            self.tiles.remove(tile_last, last);
            self.tiles.insert(tile_last, idx);
        }
        self.tiles.remove(tile_idx, last);
        let ghost v1 = self.tiles@;
        proof {
            let after = swap_removed(pjs, idx as int);
            assert forall|i: int| 0 <= i < after.len() implies #[trigger] in_own_tile(
                v1,
                after,
                i,
            ) by {
                lemma_tile_of(after[i]);
                if i == idx {
                    assert(after[i] == pjs[last as int]);
                } else {
                    assert(after[i] == pjs[i]);
                    assert(in_own_tile(v0, pjs, i));
                }
            }
            assert forall|t: int, x: usize|
                0 <= t < N_TILES && #[trigger] v1[t].contains(x) implies x < after.len() && tile_of(
                after[x as int],
            ) == t by {
                if x == idx {
                    if idx != last && tile_idx != tile_last {
                    } else {
                        assert(v0[t].contains(x));
                    }
                } else {
                    assert(v0[t].contains(x));
                }
            }
        }
        let out = detach(&mut self.pseudojets, idx);
        let ghost s1 = self.pseudojets@;
        proof {
            assert(v1 == grid_without(v0, pjs, idx));
            assert forall|k: int| 0 <= k < s1.len() implies out.nearest_neighbour_for@.contains(
                k as usize,
            ) == (nn(s1, k) == s1.len()) by {}
            assert forall|k: int| 0 <= k < s1.len() implies #[trigger] distance_ok(
                self.distance,
                s1,
                k,
            ) by {
                let m = exchanged(idx, last, k as usize) as int;
                assert(s1[k].pseudojet == s0[m].pseudojet);
                assert(distance_ok(self.distance, s0, m));
                assert(pointer_ok(s0, m));
                let q = nn(s1, k);
                if q < s1.len() {
                    let q0 = nn(s0, m);
                    assert(exchanged(idx, last, exchanged(idx, last, q0)) == q0);
                    assert(s1[q as int].pseudojet == s0[exchanged(idx, last, q) as int].pseudojet);
                }
            }
        }
        self.update_nearest(&out.nearest_neighbour_for);
        proof {
            let s2 = self.pseudojets@;
            let after = swap_removed(pjs, idx as int);
            let model = pointers_without(self.distance, pjs, pointers_of(s0), v0, idx);
            assert forall|k: int| 0 <= k < s2.len() implies pointers_of(s2)[k] == model[k] by {
                let m = exchanged(idx, last, k as usize) as int;
                assert(s1[k].nearest_neighbour_idx == exchanged(idx, last, nn(s0, m)));
                assert(pointers_of(s0)[m] == nn(s0, m));
                assert(nn(s2, k) == pointers_of(s2)[k]);
                assert(s1.len() == last);
                assert(nearby(v1, after)(k) == around(v1, after[k]));
            }
            assert(pointers_of(s2) =~= model);
            lemma_pointers_valid(s0);
            old(self).tiles.lemma_wf();
            lemma_without_nearest(self.distance, pjs, pointers_of(s0), v0, idx);
        }
        out
    }

    /// Find the nearest neighbours of the pseudojets at the given
    /// positions anew, among those around them.
    fn update_nearest(&mut self, pos: &Vec<usize>)
        requires
            linked(old(self).records(), -1),
            distances_ok(old(self).measure(), old(self).records()),
            old(self).tiles.wf(),
            tiles_fit(old(self).tiles@, pseudojets_of(old(self).pseudojets@)),
            forall|t: int| 0 <= t < pos@.len() ==> (#[trigger] pos@[t]) < old(self).records().len(),
            forall|k: int|
                0 <= k < old(self).records().len() ==> pos@.contains(k as usize) == (nn(
                    old(self).records(),
                    k,
                ) == old(self).records().len()),
        ensures
            linked(final(self).records(), -1),
            settled(final(self).records()),
            distances_ok(final(self).measure(), final(self).records()),
            final(self).tiles == old(self).tiles,
            final(self).measure() == old(self).measure(),
            final(self).active() == old(self).active(),
            final(self).grid() == old(self).grid(),
            final(self).records().len() == old(self).records().len(),
            forall|k: int|
                0 <= k < old(self).records().len() ==> #[trigger] nn(final(self).records(), k)
                    == if nn(old(self).records(), k) == old(self).records().len() {
                    nearest_of(
                        old(self).measure(),
                        old(self).active(),
                        k,
                        around(old(self).grid(), old(self).active()[k]),
                        false,
                    )
                } else {
                    nn(old(self).records(), k)
                },
    {
        let n = self.pseudojets.len();
        let ghost pjs = pseudojets_of(self.pseudojets@);
        let ghost s0 = self.pseudojets@;
        let ghost grid = self.tiles@;
        let mut t: usize = 0;
        while t < pos.len()
            invariant
                0 <= t <= pos.len(),
                n == self.pseudojets.len(),
                self.distance == old(self).distance,
                self.tiles.wf(),
                tiles_fit(self.tiles@, pjs),
                linked(self.pseudojets@, -1),
                distances_ok(self.distance, self.pseudojets@),
                pseudojets_of(self.pseudojets@) == pjs,
                self.tiles@ == grid,
                self.tiles == old(self).tiles,
                s0.len() == n,
                forall|u: int| 0 <= u < pos@.len() ==> (#[trigger] pos@[u]) < n,
                forall|k: int|
                    0 <= k < n ==> pos@.contains(k as usize) == (nn(s0, k) == n),
                forall|k: int|
                    0 <= k < n ==> #[trigger] nn(self.pseudojets@, k) == if pos@.subrange(
                        0,
                        t as int,
                    ).contains(k as usize) {
                        nearest_of(self.distance, pjs, k, around(grid, pjs[k]), false)
                    } else {
                        nn(s0, k)
                    },
            decreases pos.len() - t,
        {
            let ghost before = self.pseudojets@;
            assert(pjs[pos@[t as int] as int] == self.pseudojets@[pos@[t as int] as int].pseudojet);
            let candidates = self.neighbours(&self.pseudojets[pos[t]].pseudojet);
            update_nearest_at_idx(&mut self.pseudojets, pos[t], &candidates, &self.distance, false);
            proof {
                let done = pos@.subrange(0, t as int);
                let more = pos@.subrange(0, t + 1);
                assert(more =~= done.push(pos@[t as int]));
                assert forall|k: usize| more.contains(k) == (done.contains(k) || k == pos@[t as int]) by {
                    if done.contains(k) {
                        let u = choose|u: int| 0 <= u < done.len() && done[u] == k;
                        assert(more[u] == k);
                    }
                    if k == pos@[t as int] {
                        assert(more[t as int] == k);
                    }
                }
                assert forall|k: int| 0 <= k < n implies #[trigger] nn(self.pseudojets@, k) == if more.contains(
                    k as usize,
                ) {
                    nearest_of(self.distance, pjs, k, around(grid, pjs[k]), false)
                } else {
                    nn(s0, k)
                } by {
                    if k != pos@[t as int] {
                        assert(nn(self.pseudojets@, k) == nn(before, k));
                    }
                }
            }
            t += 1;
        }
        proof {
            assert(pos@.subrange(0, pos@.len() as int) =~= pos@);
            assert forall|k: int| 0 <= k < n implies #[trigger] nn(self.pseudojets@, k) != n by {
                if pos@.contains(k as usize) {
                    lemma_tile_of(pjs[k]);
                    lemma_neighbours_are_positions(
                        grid,
                        pjs,
                        rap_bin(pjs[k].spec_rap()) as usize,
                        phi_bin(pjs[k].spec_phi()) as usize,
                    );
                    lemma_nearest_upto(
                        self.distance,
                        pjs,
                        k,
                        around(grid, pjs[k]),
                        around(grid, pjs[k]).len() as int,
                        false,
                    );
                }
            }
        }
    }

    /// Add a pseudojet at the end and enter it in its tile.
    fn push(&mut self, pseudojet: PseudoJet)
        requires
            old(self).wf(),
            old(self).active().len() + 1 < usize::MAX,
        ensures
            final(self).wf(),
            final(self).measure() == old(self).measure(),
            final(self).active() == old(self).active().push(pseudojet),
            final(self).grid() == tile_inserted(
                old(self).grid(),
                tile_of(pseudojet),
                old(self).active().len() as usize,
            ),
            final(self).pointers() == pointers_pushed(
                old(self).measure(),
                old(self).active(),
                old(self).pointers(),
                pseudojet,
                around(old(self).grid(), pseudojet),
            ),
    {
        let ghost pjs = pseudojets_of(self.pseudojets@);
        let ghost v0 = self.tiles@;
        let ghost s2 = self.pseudojets@;
        let n = self.pseudojets.len();
        let tile = tile_number(&pseudojet);
        let neighbours = self.neighbours(&pseudojet);
        proof {
            lemma_pointers_valid(s2);
            self.tiles.lemma_wf();
            lemma_pushed_nearest(self.distance, pjs, pointers_of(s2), v0, pseudojet);
        }
        self.tiles.insert(tile, n);
        push(&mut self.pseudojets, pseudojet, &neighbours, &self.distance);
        proof {
            let after = pjs.push(pseudojet);
            let v1 = self.tiles@;
            assert forall|i: int| 0 <= i < after.len() implies #[trigger] in_own_tile(
                v1,
                after,
                i,
            ) by {
                lemma_tile_of(after[i]);
                if i < n {
                    assert(in_own_tile(v0, pjs, i));
                }
            }
            assert forall|t: int, x: usize|
                0 <= t < N_TILES && #[trigger] v1[t].contains(x) implies x < after.len() && tile_of(
                after[x as int],
            ) == t by {
                if !(t == tile && x == n) {
                    assert(v0[t].contains(x));
                }
            }
        }
    }
}

impl<D: Distance> ClusterHist for ClusterGeomTile<D> {
    closed spec fn wf(&self) -> bool {
        &&& linked(self.pseudojets@, -1)
        &&& settled(self.pseudojets@)
        &&& distances_ok(self.distance, self.pseudojets@)
        &&& self.tiles.wf()
        &&& tiles_fit(self.tiles@, pseudojets_of(self.pseudojets@))
        &&& all_nearest(
            self.distance,
            pseudojets_of(self.pseudojets@),
            pointers_of(self.pseudojets@),
            self.tiles@,
        )
    }

    open spec fn active(&self) -> Seq<PseudoJet> {
        pseudojets_of(self.records())
    }

    open spec fn merged(&self, p1: PseudoJet, p2: PseudoJet) -> PseudoJet {
        self.measure().spec_combine(p1, p2)
    }

    open spec fn history(&self) -> Seq<ClusterStep> {
        history_of(self.measure(), self.active(), self.pointers(), self.grid())
    }

    /// Perform the next clustering step
    ///
    /// The pseudojet with the smallest distance, to its nearest neighbour
    /// or to the beam, has its turn. It becomes a jet if it has no
    /// neighbour or is nearer to the beam; otherwise it is combined with
    /// its neighbour.
    #[verifier::rlimit(60)]
    fn next(&mut self) -> (step: Option<ClusterStep>)
        ensures
            final(self).measure() == old(self).measure(),
            old(self).active().len() > 0 ==> {
                &&& step == Some(step_at(old(self).measure(), old(self).active(), old(self).pointers()))
                &&& final(self).active() == active_after(
                    old(self).measure(),
                    old(self).active(),
                    old(self).pointers(),
                )
                &&& final(self).pointers() == pointers_after(
                    old(self).measure(),
                    old(self).active(),
                    old(self).pointers(),
                    old(self).grid(),
                )
                &&& final(self).grid() == grid_after(
                    old(self).measure(),
                    old(self).active(),
                    old(self).pointers(),
                    old(self).grid(),
                )
            },
    {
        let ghost s0 = self.pseudojets@;
        let ghost before = pseudojets_of(s0);
        let ghost ptr = pointers_of(s0);
        proof {
            lemma_keys(self.distance, s0, s0.len() as int);
        }
        let i = match min_idx(&self.pseudojets) {
            Some(i) => i,
            None => {
                return None;
            },
        };
        proof {
            assert(pointer_ok(s0, i as int));
            lemma_swap_removed_multiset(before, i as int);
        }
        let pi = self.remove(i);
        if pi.nearest_neighbour_idx == NONE || pi.beam_dist.lt(pi.nearest_dist) {
            assert(before.contains(before[i as int]));
            Some(ClusterStep::Jet(pi.pseudojet))
        } else {
            let j = pi.nearest_neighbour_idx;
            let ghost mid = pseudojets_of(self.pseudojets@);
            let ghost j0 = nn(s0, i as int);
            proof {
                assert(mid == swap_removed(before, i as int));
                assert(mid[j as int] == self.pseudojets@[j as int].pseudojet);
                assert(mid[j as int] == before[j0 as int]);
                assert(before[j0 as int] == s0[j0 as int].pseudojet);
                assert(before[i as int] == s0[i as int].pseudojet);
            }
            let pj = self.remove(j);
            let pi = pi.pseudojet;
            let pj = pj.pseudojet;
            proof {
                assert(pseudojets_of(self.pseudojets@).len() == self.pseudojets@.len());
                assert(mid.len() == before.len() - 1);
                assert(s0.len() < usize::MAX);
            }
            let merged = self.distance.combine(&pi, &pj);
            self.push(merged);
            let pair = [pi, pj];
            proof {
                assert(pj == before[j0 as int]);
                lemma_merged_multiset(before, i as int, j0 as int, merged);
                assert(pair =~= [before[i as int], before[j0 as int]]);
            }
            Some(ClusterStep::Combine(pair))
        }
    }
}

/// The number of the tile that a pseudojet lies in.
fn tile_number(pseudojet: &PseudoJet) -> (tile: usize)
    ensures
        tile == tile_of(*pseudojet),
        tile < N_TILES,
{
    let coord = tile_coord(pseudojet);
    coord[0] * N_PHI_BINS + coord[1]
}

/// What the tiles hold after a pseudojet has left: the positions that they
/// held, but for the position of the pseudojet that left, under their new
/// names.
pub proof fn lemma_grid_without(grid: Seq<Seq<usize>>, pjs: Seq<PseudoJet>, idx: usize)
    requires
        tiles_fit(grid, pjs),
        grid_ok(grid),
        idx < pjs.len() <= usize::MAX,
    ensures
        grid_ok(grid_without(grid, pjs, idx)),
        tiles_fit(grid_without(grid, pjs, idx), swap_removed(pjs, idx as int)),
        forall|t: int, x: usize|
            0 <= t < N_TILES ==> #[trigger] grid_without(grid, pjs, idx)[t].contains(x) == (x
                < pjs.len() - 1 && grid[t].contains(
                exchanged(idx, (pjs.len() - 1) as usize, x),
            )),
{
    let n = pjs.len() as int;
    let last = (n - 1) as usize;
    let ti = tile_of(pjs[idx as int]);
    let tl = tile_of(pjs[last as int]);
    let after = swap_removed(pjs, idx as int);
    let result = grid_without(grid, pjs, idx);
    lemma_tile_of(pjs[idx as int]);
    lemma_tile_of(pjs[last as int]);
    assert(in_own_tile(grid, pjs, idx as int));
    assert(in_own_tile(grid, pjs, last as int));
    if idx != last && ti != tl {
        let g1 = tile_removed(grid, ti, idx);
        lemma_tile_removed(grid, ti, idx);
        let g2 = tile_inserted(g1, ti, last);
        lemma_tile_inserted(g1, ti, last);
        let g3 = tile_removed(g2, tl, last);
        lemma_tile_removed(g2, tl, last);
        let g4 = tile_inserted(g3, tl, idx);
        lemma_tile_inserted(g3, tl, idx);
        lemma_tile_removed(g4, ti, last);
        assert forall|t: int, x: usize| 0 <= t < N_TILES implies #[trigger] result[t].contains(x) == (
        x < n - 1 && grid[t].contains(exchanged(idx, last, x))) by {
            assert(g4[t].contains(x) == (g3[t].contains(x) || (t == tl && x == idx)));
            assert(g3[t].contains(x) == (g2[t].contains(x) && !(t == tl && x == last)));
            assert(g2[t].contains(x) == (g1[t].contains(x) || (t == ti && x == last)));
            assert(g1[t].contains(x) == (grid[t].contains(x) && !(t == ti && x == idx)));
            if grid[t].contains(x) {
                assert(x < n && tile_of(pjs[x as int]) == t);
            }
            if grid[t].contains(last) {
                assert(tile_of(pjs[last as int]) == t);
            }
            if grid[t].contains(idx) {
                assert(tile_of(pjs[idx as int]) == t);
            }
        }
    } else {
        lemma_tile_removed(grid, ti, last);
        assert forall|t: int, x: usize| 0 <= t < N_TILES implies #[trigger] result[t].contains(x) == (
        x < n - 1 && grid[t].contains(exchanged(idx, last, x))) by {
            if grid[t].contains(x) {
                assert(x < n && tile_of(pjs[x as int]) == t);
            }
            if grid[t].contains(last) {
                assert(tile_of(pjs[last as int]) == t);
            }
            if grid[t].contains(idx) {
                assert(tile_of(pjs[idx as int]) == t);
            }
        }
    }
    assert forall|i: int| 0 <= i < after.len() implies #[trigger] in_own_tile(result, after, i) by {
        let m = exchanged(idx, last, i as usize);
        assert(after[i] == pjs[m as int]);
        assert(in_own_tile(grid, pjs, m as int));
        lemma_tile_of(after[i]);
        assert(result[tile_of(after[i])].contains(i as usize) == (i < n - 1 && grid[tile_of(
            after[i],
        )].contains(exchanged(idx, last, i as usize))));
    }
    assert forall|t: int, x: usize| 0 <= t < N_TILES && #[trigger] result[t].contains(x) implies x
        < after.len() && tile_of(after[x as int]) == t by {
        let m = exchanged(idx, last, x);
        assert(grid[t].contains(m));
        assert(after[x as int] == pjs[m as int]);
    }
}

/// When a pseudojet leaves, pointers at nearest neighbours stay pointers
/// at nearest neighbours.
pub proof fn lemma_without_nearest<D: Distance>(
    d: D,
    pjs: Seq<PseudoJet>,
    ptr: Seq<usize>,
    grid: Seq<Seq<usize>>,
    idx: usize,
)
    requires
        all_nearest(d, pjs, ptr, grid),
        pointers_valid(ptr),
        ptr.len() == pjs.len(),
        tiles_fit(grid, pjs),
        grid_ok(grid),
        idx < pjs.len() < usize::MAX,
    ensures
        all_nearest(
            d,
            swap_removed(pjs, idx as int),
            pointers_without(d, pjs, ptr, grid, idx),
            grid_without(grid, pjs, idx),
        ),
{
    let n = pjs.len() as int;
    let last = (n - 1) as usize;
    let after = swap_removed(pjs, idx as int);
    let result = grid_without(grid, pjs, idx);
    let model = pointers_without(d, pjs, ptr, grid, idx);
    lemma_grid_without(grid, pjs, idx);
    assert forall|k: int| 0 <= k < after.len() implies #[trigger] best_among(
        d,
        after,
        k,
        model[k],
        around(result, after[k]),
    ) by {
        let m = exchanged(idx, last, k as usize) as int;
        let q = exchanged(idx, last, ptr[m]);
        let r = rap_bin(after[k].spec_rap()) as usize;
        let c = phi_bin(after[k].spec_phi()) as usize;
        assert(after[k] == pjs[m]);
        lemma_tile_of(after[k]);
        assert(nearby(result, after)(k) == around(result, after[k]));
        if q == last {
            lemma_neighbours_are_positions(result, after, r, c);
            lemma_nearest_of_is_best(d, after, k, around(result, after[k]), false);
        } else {
            assert(best_among(d, pjs, m, ptr[m], around(grid, pjs[m])));
            let b = ptr[m];
            if b != NONE {
                assert(after[q as int] == pjs[b as int]);
            }
            assert forall|x: usize| #[trigger]
                around(result, after[k]).contains(x) && x != k implies {
                let y = exchanged(idx, last, x);
                &&& around(grid, pjs[m]).contains(y)
                &&& y != m
                &&& after[x as int] == pjs[y as int]
            } by {
                let y = exchanged(idx, last, x);
                lemma_neighbours_members(result, r, c, x);
                lemma_neighbours_members(grid, r, c, y);
                let (r2, c2) = choose|r2: usize, c2: usize|
                    r2 < N_RAP_BINS && c2 < N_PHI_BINS && adjacent(
                        r as int,
                        c as int,
                        r2 as int,
                        c2 as int,
                    ) && #[trigger] result[r2 * N_PHI_BINS + c2].contains(x);
                assert(result[r2 * N_PHI_BINS + c2].contains(x) == (x < n - 1 && grid[r2
                    * N_PHI_BINS + c2].contains(y)));
                assert(grid[r2 * N_PHI_BINS + c2].contains(y));
            }
        }
    }
}

/// When a pseudojet is added, pointers at nearest neighbours become
/// pointers at nearest neighbours.
pub proof fn lemma_pushed_nearest<D: Distance>(
    d: D,
    pjs: Seq<PseudoJet>,
    ptr: Seq<usize>,
    grid: Seq<Seq<usize>>,
    p: PseudoJet,
)
    requires
        all_nearest(d, pjs, ptr, grid),
        pointers_valid(ptr),
        ptr.len() == pjs.len(),
        tiles_fit(grid, pjs),
        grid_ok(grid),
        pjs.len() + 1 < usize::MAX,
    ensures
        all_nearest(
            d,
            pjs.push(p),
            pointers_pushed(d, pjs, ptr, p, around(grid, p)),
            tile_inserted(grid, tile_of(p), pjs.len() as usize),
        ),
{
    let n = pjs.len() as int;
    let with = pjs.push(p);
    let scanned = around(grid, p);
    let model = pointers_pushed(d, pjs, ptr, p, scanned);
    let result = tile_inserted(grid, tile_of(p), n as usize);
    let rp = rap_bin(p.spec_rap()) as usize;
    let cp = phi_bin(p.spec_phi()) as usize;
    lemma_tile_of(p);
    lemma_tile_inserted(grid, tile_of(p), n as usize);
    Scalar::lemma_bits_of(INFINITY_BITS);
    assert forall|k: int| 0 <= k <= n implies #[trigger] best_among(
        d,
        with,
        k,
        model[k],
        around(result, with[k]),
    ) by {
        let r = rap_bin(with[k].spec_rap()) as usize;
        let c = phi_bin(with[k].spec_phi()) as usize;
        lemma_tile_of(with[k]);
        if k < n {
            assert(with[k] == pjs[k]);
            assert(with[n] == p);
            assert(best_among(d, pjs, k, ptr[k], around(grid, pjs[k])));
            if ptr[k] != NONE {
                assert(with[ptr[k] as int] == pjs[ptr[k] as int]);
            }
            assert forall|x: usize| #[trigger] around(result, with[k]).contains(x) && x != k implies (
            x == n && scanned.contains(k as usize)) || (around(grid, pjs[k]).contains(x) && with[x as int]
                == pjs[x as int]) by {
                lemma_neighbours_members(result, r, c, x);
                lemma_neighbours_members(grid, r, c, x);
                let (r2, c2) = choose|r2: usize, c2: usize|
                    r2 < N_RAP_BINS && c2 < N_PHI_BINS && adjacent(
                        r as int,
                        c as int,
                        r2 as int,
                        c2 as int,
                    ) && #[trigger] result[r2 * N_PHI_BINS + c2].contains(x);
                let t = r2 * N_PHI_BINS + c2;
                assert(result[t as int].contains(x) == (grid[t as int].contains(x) || (t == tile_of(p)
                    && x == n)));
                if grid[t as int].contains(x) {
                    assert(x < n);
                } else {
                    assert(r2 == rp && c2 == cp);
                    lemma_adjacent_symmetric(r as int, c as int, rp as int, cp as int);
                    assert(in_own_tile(grid, pjs, k));
                    lemma_neighbours_members(grid, rp, cp, k as usize);
                    assert(grid[r * N_PHI_BINS + c].contains(k as usize));
                }
            }
        } else {
            lemma_neighbours_are_positions(grid, pjs, rp, cp);
            assert forall|t: int| 0 <= t < scanned.len() implies (#[trigger] scanned[t])
                < with.len() by {}
            lemma_nearest_of_is_best(d, with, n, scanned, false);
            assert forall|x: usize| #[trigger] around(result, with[n]).contains(x) && x != n implies scanned.contains(
                x,
            ) by {
                lemma_neighbours_members(result, rp, cp, x);
                lemma_neighbours_members(grid, rp, cp, x);
                let (r2, c2) = choose|r2: usize, c2: usize|
                    r2 < N_RAP_BINS && c2 < N_PHI_BINS && adjacent(
                        rp as int,
                        cp as int,
                        r2 as int,
                        c2 as int,
                    ) && #[trigger] result[r2 * N_PHI_BINS + c2].contains(x);
                let t = r2 * N_PHI_BINS + c2;
                assert(result[t as int].contains(x) == (grid[t as int].contains(x) || (t == tile_of(p)
                    && x == n)));
                assert(grid[r2 * N_PHI_BINS + c2].contains(x));
            }
        }
    }
}

/// The geometric algorithm with tiles takes a step of the smallest
/// distance: where every pseudojet points at a nearest neighbour among
/// those around it, the distance measure is symmetric and follows the
/// separation, and pseudojets that are not around each other are nearer to
/// the beam than to each other, the smaller distance of the pseudojet
/// whose turn it is is no larger than the distance between any two active
/// pseudojets, and than the distance of any of them to the beam. That is
/// the distance that a search of all distances finds.
pub proof fn lemma_turn_has_least_distance<D: Distance>(
    d: D,
    pjs: Seq<PseudoJet>,
    ptr: Seq<usize>,
    grid: Seq<Seq<usize>>,
    weight: spec_fn(PseudoJet) -> int,
    i: int,
    j: int,
)
    requires
        all_nearest(d, pjs, ptr, grid),
        pointers_valid(ptr),
        ptr.len() == pjs.len(),
        pjs.len() < usize::MAX,
        symmetric(d),
        follows_separation(d, weight),
        infinite_when_apart(d),
        beam_nearer_than_far(d, pjs, grid),
        0 <= i < pjs.len(),
        0 <= j < pjs.len(),
    ensures
        key_of(d, pjs, ptr, turn(d, pjs, ptr)).rank() <= value_at(
            d,
            pjs,
            i,
            j,
        ).rank(),
{
    let n = pjs.len() as int;
    lemma_turn_is_least(d, pjs, ptr, n);
    Scalar::lemma_bits_of(INFINITY_BITS);
    if i != j {
        let (a, c) = if weight(pjs[i]) <= weight(pjs[j]) {
            (i, j)
        } else {
            (j, i)
        };
        assert(d.spec_distance(pjs[a], pjs[c]) == d.spec_distance(pjs[i], pjs[j]));
        assert(key_of(d, pjs, ptr, turn(d, pjs, ptr)).rank() <= key_of(d, pjs, ptr, a).rank());
        assert(key_of(d, pjs, ptr, turn(d, pjs, ptr)).rank() <= key_of(d, pjs, ptr, c).rank());
        if around(grid, pjs[a]).contains(c as usize) {
            assert(best_among(d, pjs, a, ptr[a], around(grid, pjs[a])));
            if ptr[a] != NONE {
                let b = ptr[a] as int;
                assert(d.spec_distance(pjs[a], pjs[b]).rank() <= d.spec_distance(
                    pjs[a],
                    pjs[c],
                ).rank());
            }
        }
    } else {
        assert(key_of(d, pjs, ptr, turn(d, pjs, ptr)).rank() <= key_of(d, pjs, ptr, i).rank());
    }
}

/// The geometric algorithm with tiles and the search of all distances take
/// steps of the same distance: on the same active pseudojets, where every
/// pointer is at a nearest neighbour among the pseudojets around and the
/// distance table fits, the smaller distance of the pseudojet whose turn
/// it is is the distance of the entry that decides the step of the search,
/// for a distance measure that is symmetric, follows the separation, is
/// not beyond infinity to the beam, and under which pseudojets that are
/// not around each other are nearer to the beam than to each other.
pub proof fn lemma_same_distance_as_search<D: Distance>(
    d: D,
    pjs: Seq<PseudoJet>,
    ptr: Seq<usize>,
    grid: Seq<Seq<usize>>,
    entries: Seq<Entry>,
    weight: spec_fn(PseudoJet) -> int,
)
    requires
        all_nearest(d, pjs, ptr, grid),
        pointers_valid(ptr),
        ptr.len() == pjs.len(),
        0 < pjs.len() < usize::MAX,
        table_fits(d, pjs, entries),
        symmetric(d),
        follows_separation(d, weight),
        infinite_when_apart(d),
        beam_nearer_than_far(d, pjs, grid),
        forall|p: PseudoJet| (#[trigger] d.spec_beam_distance(p)).rank() <= INFINITY_BITS,
    ensures
        entries.len() > 0,
        key_of(d, pjs, ptr, turn(d, pjs, ptr)) == chosen(entries).0,
{
    let key = key_of(d, pjs, ptr, turn(d, pjs, ptr));
    let e = chosen(entries);
    lemma_chosen_has_least_distance(d, pjs, entries, 0, 0);
    lemma_chosen_is_least(entries, entries.len() as int);
    lemma_turn_distance_is_a_distance(d, pjs, ptr);
    let (i, j) = choose|i: int, j: int|
        0 <= i < pjs.len() && 0 <= j < pjs.len() && key == #[trigger] value_at(
            d,
            pjs,
            i,
            j,
        );
    lemma_chosen_has_least_distance(d, pjs, entries, i, j);
    lemma_turn_has_least_distance(d, pjs, ptr, grid, weight, e.1 as int, e.2 as int);
    assert(e.0 == value_at(d, pjs, e.1 as int, e.2 as int));
    lemma_rank_injective(key, e.0);
}

} // verus!
