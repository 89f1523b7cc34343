//! The grid of tiles in the plane of rapidity and azimuthal angle.
//!
//! Every tile holds the positions of the pseudojets that lie in it, in an
//! order that only insertions and removals determine.
use vstd::prelude::*;
use indexmap::IndexSet;
use itertools::Itertools;
use crate::cluster::swap_removed;
use crate::pseudojet::PseudoJet;
use crate::scalar::{rank_of_bits, Scalar};

verus! {

/// Number of tiles along the rapidity.
pub const N_RAP_BINS: usize = 10;

/// Number of tiles around the azimuthal angle.
pub const N_PHI_BINS: usize = 6;

/// Number of tiles.
pub const N_TILES: usize = 60;

/// `indexmap::IndexSet`, a set that hands its values out in an order that
/// insertions and removals determine. Nothing is known of what is inside
/// but through `tile_items`.
#[verifier::external_type_specification]
#[verifier::external_body]
#[verifier::reject_recursive_types(T)]
#[verifier::reject_recursive_types(S)]
pub struct ExIndexSet<T, S>(IndexSet<T, S>);

/// The positions that a tile holds, in the order in which it hands them out.
pub uninterp spec fn tile_items(tile: IndexSet<usize>) -> Seq<usize>;

/// `IndexSet::new`: a set without values.
#[verifier::external_body]
fn tile_new() -> (tile: IndexSet<usize>)
    ensures
        tile_items(tile) == Seq::<usize>::empty(),
{
    IndexSet::new()
}

/// `IndexSet::insert`: a value that the set does not hold yet is added last
/// in order and `true` is returned; otherwise the set stays as it is. A set
/// never holds a value twice.
#[verifier::external_body]
fn tile_insert(tile: &mut IndexSet<usize>, value: usize) -> (added: bool)
    ensures
        added == !tile_items(*old(tile)).contains(value),
        added ==> tile_items(*final(tile)) == tile_items(*old(tile)).push(value),
        !added ==> tile_items(*final(tile)) == tile_items(*old(tile)),
        tile_items(*final(tile)).no_duplicates(),
{
    tile.insert(value)
}

/// `IndexSet::swap_remove`: a value that the set holds is removed, the last
/// value in order takes its place, and `true` is returned; otherwise the
/// set stays as it is. A set never holds a value twice.
#[verifier::external_body]
fn tile_swap_remove(tile: &mut IndexSet<usize>, value: usize) -> (removed: bool)
    ensures
        removed == tile_items(*old(tile)).contains(value),
        removed ==> exists|t: int|
            0 <= t < tile_items(*old(tile)).len() && #[trigger] tile_items(*old(tile))[t] == value
                && tile_items(*final(tile)) == swap_removed(tile_items(*old(tile)), t),
        !removed ==> tile_items(*final(tile)) == tile_items(*old(tile)),
        tile_items(*final(tile)).no_duplicates(),
{
    tile.swap_remove(&value)
}

/// `IndexSet::iter`: the values of the set in their order.
#[verifier::external_body]
fn tile_to_vec(tile: &IndexSet<usize>) -> (items: Vec<usize>)
    ensures
        items@ == tile_items(*tile),
        items@.no_duplicates(),
{
    tile.iter().copied().collect()
}

/// `Itertools::cartesian_product` of a range of rows with three columns:
/// every row in ascending order, and in each row the three columns in the
/// order given.
#[verifier::external_body]
fn window(rap_lo: usize, rap_hi: usize, phis: [usize; 3]) -> (coords: Vec<(usize, usize)>)
    requires
        rap_lo <= rap_hi,
    ensures
        coords@ == spec_window(rap_lo, rap_hi, phis@),
{
    (rap_lo..rap_hi).cartesian_product(phis).collect()
}

/// The tiles of the rows from `rap_lo` up to `rap_hi` in the three columns
/// `phis`, row by row.
pub open spec fn spec_window(rap_lo: usize, rap_hi: usize, phis: Seq<usize>) -> Seq<(usize, usize)> {
    Seq::new(
        ((rap_hi - rap_lo) * 3) as nat,
        |k: int| ((rap_lo + k / 3) as usize, phis[k % 3]),
    )
}

/// The lower edges of the rows but the first: a rapidity lies in row `k` or
/// above if its sum with five rounds to `k` or more.
pub open spec fn rap_edges() -> Seq<u64> {
    seq![
        0xC010_0000_0000_0000u64,
        0xC008_0000_0000_0000u64,
        0xC000_0000_0000_0000u64,
        0xBFF0_0000_0000_0001u64,
        0xBCC0_0000_0000_0000u64,
        0x3FEF_FFFF_FFFF_FFFCu64,
        0x3FFF_FFFF_FFFF_FFFEu64,
        0x4007_FFFF_FFFF_FFFFu64,
        0x400F_FFFF_FFFF_FFFEu64,
    ]
}

/// The lower edges of the columns but the first: an azimuthal angle lies in
/// column `k` or above if its product with six over a full turn rounds to
/// `k` or more.
pub open spec fn phi_edges() -> Seq<u64> {
    seq![
        0x3FF0_C152_382D_7366u64,
        0x4000_C152_382D_7366u64,
        0x4009_21FB_5444_2D18u64,
        0x4010_C152_382D_7366u64,
        0x4014_F1A6_C638_D03Fu64,
    ]
}

/// How many of the first `k` edges a scalar has reached.
pub open spec fn edges_reached(edges: Seq<u64>, x: Scalar, k: int) -> int
    decreases k,
{
    if k <= 0 {
        0
    } else {
        edges_reached(edges, x, k - 1) + if rank_of_bits(edges[k - 1]) <= x.rank() {
            1int
        } else {
            0int
        }
    }
}

/// The row of a rapidity.
pub open spec fn rap_bin(rap: Scalar) -> int {
    edges_reached(rap_edges(), rap, 9)
}

/// The column of an azimuthal angle.
pub open spec fn phi_bin(phi: Scalar) -> int {
    edges_reached(phi_edges(), phi, 5)
}

/// The number of the tile that a pseudojet lies in.
pub open spec fn tile_of(p: PseudoJet) -> int {
    rap_bin(p.spec_rap()) * 6 + phi_bin(p.spec_phi())
}

/// The row and the column of the tile that a pseudojet lies in.
pub fn tile_coord(pseudojet: &PseudoJet) -> (coord: [usize; 2])
    ensures
        coord[0] == rap_bin(pseudojet.spec_rap()),
        coord[1] == phi_bin(pseudojet.spec_phi()),
        coord[0] < N_RAP_BINS,
        coord[1] < N_PHI_BINS,
{
    let rap_edges: Vec<u64> = vec![
        0xC010_0000_0000_0000u64,
        0xC008_0000_0000_0000u64,
        0xC000_0000_0000_0000u64,
        0xBFF0_0000_0000_0001u64,
        0xBCC0_0000_0000_0000u64,
        0x3FEF_FFFF_FFFF_FFFCu64,
        0x3FFF_FFFF_FFFF_FFFEu64,
        0x4007_FFFF_FFFF_FFFFu64,
        0x400F_FFFF_FFFF_FFFEu64,
    ];
    let phi_edges: Vec<u64> = vec![
        0x3FF0_C152_382D_7366u64,
        0x4000_C152_382D_7366u64,
        0x4009_21FB_5444_2D18u64,
        0x4010_C152_382D_7366u64,
        0x4014_F1A6_C638_D03Fu64,
    ];
    assert(rap_edges@ =~= self::rap_edges());
    assert(phi_edges@ =~= self::phi_edges());
    let rap_coord = count_reached(&rap_edges, pseudojet.rap());
    let phi_coord = count_reached(&phi_edges, pseudojet.phi());
    [rap_coord, phi_coord]
}

/// How many of the edges a scalar has reached.
fn count_reached(edges: &Vec<u64>, x: Scalar) -> (r: usize)
    ensures
        r == edges_reached(edges@, x, edges@.len() as int),
        r <= edges@.len(),
{
    let mut r: usize = 0;
    let mut k: usize = 0;
    while k < edges.len()
        invariant
            0 <= k <= edges.len(),
            r == edges_reached(edges@, x, k as int),
            r <= k,
        decreases edges.len() - k,
    {
        if reached(edges[k], x) {
            r += 1;
        }
        k += 1;
    }
    r
}

/// Whether a scalar is at or above the edge with the given bit pattern.
fn reached(edge: u64, x: Scalar) -> (r: bool)
    ensures
        r == (rank_of_bits(edge) <= x.rank()),
{
    let b: u64 = x.to_bits();
    if edge < crate::scalar::SIGN_BIT {
        b < crate::scalar::SIGN_BIT && edge <= b
    } else {
        b < crate::scalar::SIGN_BIT || edge >= b
    }
}

/// A grid of empty tiles.
pub open spec fn empty_grid() -> Seq<Seq<usize>> {
    Seq::new(N_TILES as nat, |t: int| Seq::<usize>::empty())
}

/// The grid after a position has been entered in a tile: last in order,
/// unless the tile holds it.
pub open spec fn tile_inserted(view: Seq<Seq<usize>>, tile: int, value: usize) -> Seq<Seq<usize>> {
    if view[tile].contains(value) {
        view
    } else {
        view.update(tile, view[tile].push(value))
    }
}

/// The grid after a position has been taken out of a tile, if the tile
/// holds it: the position that was last in order takes its place.
pub open spec fn tile_removed(view: Seq<Seq<usize>>, tile: int, value: usize) -> Seq<Seq<usize>> {
    if view[tile].contains(value) {
        view.update(tile, swap_removed(view[tile], view[tile].index_of(value)))
    } else {
        view
    }
}

/// The rows and columns of the tiles around the tile at the given row and
/// column, that tile included.
pub open spec fn window_of(rap_idx: usize, phi_idx: usize) -> Seq<(usize, usize)> {
    let rap_lo: usize = if rap_idx == 0 {
        0
    } else if rap_idx + 1 == N_RAP_BINS {
        8
    } else {
        (rap_idx - 1) as usize
    };
    let rap_hi: usize = if rap_idx == 0 {
        2
    } else if rap_idx + 1 == N_RAP_BINS {
        10
    } else {
        (rap_idx + 2) as usize
    };
    let phis: Seq<usize> = if phi_idx == 0 {
        seq![5usize, 0usize, 1usize]
    } else if phi_idx + 1 == N_PHI_BINS {
        seq![4usize, 5usize, 0usize]
    } else {
        seq![(phi_idx - 1) as usize, phi_idx, (phi_idx + 1) as usize]
    };
    spec_window(rap_lo, rap_hi, phis)
}

/// Whether the tile in row `r2` and column `c2` is the tile in row `r1` and
/// column `c1` or lies next to it.
pub open spec fn adjacent(r1: int, c1: int, r2: int, c2: int) -> bool {
    &&& r1 - 1 <= r2 <= r1 + 1
    &&& (c2 == c1 || c2 == (c1 + 1) % 6 || c2 == (c1 + 5) % 6)
}

/// The positions in the first `k` of the given tiles, tile after tile.
pub open spec fn gathered(view: Seq<Seq<usize>>, coords: Seq<(usize, usize)>, k: int) -> Seq<usize>
    decreases k,
{
    if k <= 0 {
        Seq::empty()
    } else {
        gathered(view, coords, k - 1) + view[coords[k - 1].0 * N_PHI_BINS + coords[k - 1].1]
    }
}

/// The positions in the tile at the given row and column and in the tiles
/// around it.
pub open spec fn neighbours_of(view: Seq<Seq<usize>>, rap_idx: usize, phi_idx: usize) -> Seq<usize> {
    gathered(view, window_of(rap_idx, phi_idx), window_of(rap_idx, phi_idx).len() as int)
}

/// Whether the tile that the pseudojet at position `i` lies in holds `i`.
pub open spec fn in_own_tile(view: Seq<Seq<usize>>, pjs: Seq<PseudoJet>, i: int) -> bool {
    view[tile_of(pjs[i])].contains(i as usize)
}

/// Whether the grid fits the active pseudojets: every position is held by
/// the tile that its pseudojet lies in, and by no other tile.
pub open spec fn tiles_fit(view: Seq<Seq<usize>>, pjs: Seq<PseudoJet>) -> bool {
    &&& view.len() == N_TILES
    &&& forall|i: int| 0 <= i < pjs.len() ==> #[trigger] in_own_tile(view, pjs, i)
    &&& forall|t: int, x: usize|
        0 <= t < N_TILES && #[trigger] view[t].contains(x) ==> x < pjs.len() && tile_of(
            pjs[x as int],
        ) == t
}

/// The grid of tiles.
pub struct Tiles {
    sets: Vec<IndexSet<usize>>,
}

impl Tiles {
    /// The positions that each tile holds, tile by tile in the order of the
    /// tile numbers.
    pub closed spec fn view(&self) -> Seq<Seq<usize>> {
        Seq::new(self.sets@.len(), |t: int| tile_items(self.sets@[t]))
    }

    /// Whether the grid is complete and no tile holds a position twice.
    pub closed spec fn wf(&self) -> bool {
        &&& self.sets@.len() == N_TILES
        &&& forall|t: int| 0 <= t < N_TILES ==> (#[trigger] tile_items(self.sets@[t])).no_duplicates()
    }

    /// What `wf` says, in terms of the view.
    pub proof fn lemma_wf(&self)
        requires
            self.wf(),
        ensures
            self@.len() == N_TILES,
            forall|t: int| 0 <= t < N_TILES ==> (#[trigger] self@[t]).no_duplicates(),
    {
        assert forall|t: int| 0 <= t < N_TILES implies (#[trigger] self@[t]).no_duplicates() by {
            assert(tile_items(self.sets@[t]).no_duplicates());
        }
    }

    /// A grid of empty tiles.
    pub fn new() -> (tiles: Tiles)
        ensures
            tiles.wf(),
            tiles@ == empty_grid(),
    {
        let mut sets: Vec<IndexSet<usize>> = Vec::new();
        let mut t: usize = 0;
        while t < N_TILES
            invariant
                0 <= t <= N_TILES,
                sets.len() == t,
                forall|u: int| 0 <= u < t ==> (#[trigger] tile_items(sets@[u])).len() == 0,
            decreases N_TILES - t,
        {
            sets.push(tile_new());
            t += 1;
        }
        let tiles = Tiles { sets };
        assert(tiles@ =~= empty_grid()) by {
            assert forall|u: int| 0 <= u < N_TILES implies tiles@[u] =~= empty_grid()[u] by {
                assert(tile_items(sets@[u]).len() == 0);
            }
        }
        tiles
    }

    /// Enter a position in a tile, last in order, unless the tile holds it.
    pub fn insert(&mut self, tile: usize, value: usize)
        requires
            old(self).wf(),
            tile < N_TILES,
        ensures
            final(self).wf(),
            final(self)@.len() == N_TILES,
            final(self)@ == tile_inserted(old(self)@, tile as int, value),
            forall|t: int, x: usize|
                0 <= t < N_TILES ==> #[trigger] final(self)@[t].contains(x) == (old(
                    self,
                )@[t].contains(x) || (t == tile && x == value)),
    {
        let ghost before = self.sets@;
        let _ = tile_insert(&mut self.sets[tile], value);
        proof {
            let after = self.sets@;
            assert forall|t: int| 0 <= t < N_TILES implies (#[trigger] tile_items(
                after[t],
            )).no_duplicates() by {
                if t != tile {
                    assert(after[t] == before[t]);
                    assert(tile_items(before[t]).no_duplicates());
                }
            }
            assert(self@ =~= tile_inserted(old(self)@, tile as int, value)) by {
                assert forall|t: int| 0 <= t < N_TILES implies self@[t] == tile_inserted(
                    old(self)@,
                    tile as int,
                    value,
                )[t] by {
                    if t != tile {
                        assert(after[t] == before[t]);
                    }
                }
            }
            assert forall|t: int, x: usize| 0 <= t < N_TILES implies #[trigger] self@[t].contains(x)
                == (old(self)@[t].contains(x) || (t == tile && x == value)) by {
                if t == tile {
                    let a = tile_items(before[t]);
                    let b = tile_items(after[t]);
                    if !a.contains(value) {
                        assert(b == a.push(value));
                        if a.contains(x) {
                            let u = choose|u: int| 0 <= u < a.len() && a[u] == x;
                            assert(b[u] == x);
                        }
                        if x == value {
                            assert(b[a.len() as int] == x);
                        }
                    }
                } else {
                    assert(after[t] == before[t]);
                }
            }
        }
    }

    /// Take a position out of a tile, if the tile holds it. The position
    /// that was last in order takes its place.
    pub fn remove(&mut self, tile: usize, value: usize)
        requires
            old(self).wf(),
            tile < N_TILES,
        ensures
            final(self).wf(),
            final(self)@.len() == N_TILES,
            final(self)@ == tile_removed(old(self)@, tile as int, value),
            forall|t: int, x: usize|
                0 <= t < N_TILES ==> #[trigger] final(self)@[t].contains(x) == (old(
                    self,
                )@[t].contains(x) && !(t == tile && x == value)),
    {
        let ghost before = self.sets@;
        let removed = tile_swap_remove(&mut self.sets[tile], value);
        proof {
            let after = self.sets@;
            let a = tile_items(before[tile as int]);
            let b = tile_items(after[tile as int]);
            assert(a.no_duplicates());
            assert forall|t: int| 0 <= t < N_TILES implies (#[trigger] tile_items(
                after[t],
            )).no_duplicates() by {
                if t != tile {
                    assert(after[t] == before[t]);
                    assert(tile_items(before[t]).no_duplicates());
                }
            }
            if removed {
                let u = choose|u: int| 0 <= u < a.len() && #[trigger] a[u] == value && b == swap_removed(a, u);
                a.index_of_first_ensures(value);
                let w = a.index_of(value);
                assert(w == u);
                crate::cluster::nearest::lemma_swap_removed_members(a, u);
                assert(self@ =~= tile_removed(old(self)@, tile as int, value)) by {
                    assert forall|t: int| 0 <= t < N_TILES implies self@[t] == tile_removed(
                        old(self)@,
                        tile as int,
                        value,
                    )[t] by {
                        if t != tile {
                            assert(after[t] == before[t]);
                        }
                    }
                }
            } else {
                assert(self@ =~= old(self)@) by {
                    assert forall|t: int| 0 <= t < N_TILES implies self@[t] == old(self)@[t] by {
                        if t != tile {
                            assert(after[t] == before[t]);
                        }
                    }
                }
            }
            assert forall|t: int, x: usize| 0 <= t < N_TILES implies #[trigger] self@[t].contains(x)
                == (old(self)@[t].contains(x) && !(t == tile && x == value)) by {
                if t != tile {
                    assert(after[t] == before[t]);
                }
            }
        }
    }

    /// The positions that a tile holds, in their order.
    pub fn occupants(&self, tile: usize) -> (items: Vec<usize>)
        requires
            self.wf(),
            tile < N_TILES,
        ensures
            items@ == self@[tile as int],
    {
        tile_to_vec(&self.sets[tile])
    }

    /// The positions in the tile at the given row and column and in the
    /// tiles around it. The columns wrap around; the rows do not, so that
    /// the first and the last row have one row of neighbours only.
    pub fn tile_neighbours(&self, rap_idx: usize, phi_idx: usize) -> (found: Vec<usize>)
        requires
            self.wf(),
            rap_idx < N_RAP_BINS,
            phi_idx < N_PHI_BINS,
        ensures
            found@ == neighbours_of(self@, rap_idx, phi_idx),
    {
        let (rap_lo, rap_hi) = if rap_idx == 0 {
            (0, 2)
        } else if rap_idx + 1 == N_RAP_BINS {
            (N_RAP_BINS - 2, N_RAP_BINS)
        } else {
            (rap_idx - 1, rap_idx + 2)
        };
        let phi_idx_range: [usize; 3] = if phi_idx == 0 {
            [N_PHI_BINS - 1, 0, 1]
        } else if phi_idx + 1 == N_PHI_BINS {
            [N_PHI_BINS - 2, N_PHI_BINS - 1, 0]
        } else {
            [phi_idx - 1, phi_idx, phi_idx + 1]
        };
        let coords = window(rap_lo, rap_hi, phi_idx_range);
        assert(coords@ == window_of(rap_idx, phi_idx));
        let mut found: Vec<usize> = Vec::new();
        let mut k: usize = 0;
        while k < coords.len()
            invariant
                0 <= k <= coords.len(),
                self.wf(),
                coords@ == window_of(rap_idx, phi_idx),
                rap_idx < N_RAP_BINS,
                phi_idx < N_PHI_BINS,
                found@ == gathered(self@, coords@, k as int),
            decreases coords.len() - k,
        {
            let (rap, phi) = coords[k];
            proof {
                lemma_window_of(rap_idx, phi_idx, k as int);
            }
            let items = self.occupants(rap * N_PHI_BINS + phi);
            let ghost start = found@;
            let mut u: usize = 0;
            while u < items.len()
                invariant
                    0 <= u <= items.len(),
                    found@ == start + items@.subrange(0, u as int),
                decreases items.len() - u,
            {
                found.push(items[u]);
                u += 1;
                assert(found@ =~= start + items@.subrange(0, u as int));
            }
            assert(items@.subrange(0, items@.len() as int) =~= items@);
            k += 1;
        }
        found
    }
}

/// A scalar reaches at most as many edges as there are.
pub proof fn lemma_edges_reached(edges: Seq<u64>, x: Scalar, k: int)
    requires
        0 <= k,
    ensures
        0 <= edges_reached(edges, x, k) <= k,
    decreases k,
{
    if k > 0 {
        lemma_edges_reached(edges, x, k - 1);
    }
}

/// Every pseudojet lies in a tile.
pub proof fn lemma_tile_of(p: PseudoJet)
    ensures
        0 <= rap_bin(p.spec_rap()) < N_RAP_BINS,
        0 <= phi_bin(p.spec_phi()) < N_PHI_BINS,
        0 <= tile_of(p) < N_TILES,
{
    lemma_edges_reached(rap_edges(), p.spec_rap(), 9);
    lemma_edges_reached(phi_edges(), p.spec_phi(), 5);
}

/// Every tile around a tile of the grid is a tile of the grid.
pub proof fn lemma_window_of(rap_idx: usize, phi_idx: usize, k: int)
    requires
        rap_idx < N_RAP_BINS,
        phi_idx < N_PHI_BINS,
        0 <= k < window_of(rap_idx, phi_idx).len(),
    ensures
        window_of(rap_idx, phi_idx)[k].0 < N_RAP_BINS,
        window_of(rap_idx, phi_idx)[k].1 < N_PHI_BINS,
        window_of(rap_idx, phi_idx)[k].0 * N_PHI_BINS + window_of(rap_idx, phi_idx)[k].1 < N_TILES,
{
}

/// The tiles around a tile are the tiles of the grid that are the tile or
/// lie next to it.
pub proof fn lemma_window_members(rap_idx: usize, phi_idx: usize, r2: usize, c2: usize)
    requires
        rap_idx < N_RAP_BINS,
        phi_idx < N_PHI_BINS,
    ensures
        window_of(rap_idx, phi_idx).contains((r2, c2)) == (r2 < N_RAP_BINS && c2 < N_PHI_BINS
            && adjacent(rap_idx as int, phi_idx as int, r2 as int, c2 as int)),
{
    let w = window_of(rap_idx, phi_idx);
    let rap_lo: int = if rap_idx == 0 {
        0
    } else if rap_idx + 1 == N_RAP_BINS {
        8
    } else {
        rap_idx - 1
    };
    if r2 < N_RAP_BINS && c2 < N_PHI_BINS && adjacent(
        rap_idx as int,
        phi_idx as int,
        r2 as int,
        c2 as int,
    ) {
        let col: int = if phi_idx == 0 {
            if c2 == 5 {
                0
            } else if c2 == 0 {
                1
            } else {
                2
            }
        } else if phi_idx + 1 == N_PHI_BINS {
            if c2 == 4 {
                0
            } else if c2 == 5 {
                1
            } else {
                2
            }
        } else {
            c2 - phi_idx + 1
        };
        let k = (r2 - rap_lo) * 3 + col;
        assert(w[k] == (r2, c2));
    }
    if w.contains((r2, c2)) {
        let k = choose|k: int| 0 <= k < w.len() && w[k] == (r2, c2);
        lemma_window_of(rap_idx, phi_idx, k);
    }
}

/// A tile lies next to another exactly when the other lies next to it.
pub proof fn lemma_adjacent_symmetric(r1: int, c1: int, r2: int, c2: int)
    requires
        0 <= c1 < 6,
        0 <= c2 < 6,
    ensures
        adjacent(r1, c1, r2, c2) == adjacent(r2, c2, r1, c1),
{
}

/// Every position among the first `k` of the given tiles is held by one of
/// them.
pub proof fn lemma_gathered(view: Seq<Seq<usize>>, coords: Seq<(usize, usize)>, k: int, u: int)
    requires
        0 <= k <= coords.len(),
        0 <= u < gathered(view, coords, k).len(),
    ensures
        exists|c: int|
            0 <= c < k && view[(#[trigger] coords[c]).0 * N_PHI_BINS + coords[c].1].contains(
                gathered(view, coords, k)[u],
            ),
    decreases k,
{
    if k > 0 {
        let head = gathered(view, coords, k - 1);
        if u < head.len() {
            lemma_gathered(view, coords, k - 1, u);
        } else {
            let tile = view[coords[k - 1].0 * N_PHI_BINS + coords[k - 1].1];
            assert(tile[u - head.len()] == gathered(view, coords, k)[u]);
        }
    }
}

/// The positions among the first `k` of the given tiles are those that
/// one of the tiles holds.
pub proof fn lemma_gathered_members(
    view: Seq<Seq<usize>>,
    coords: Seq<(usize, usize)>,
    k: int,
    x: usize,
)
    requires
        0 <= k <= coords.len(),
    ensures
        gathered(view, coords, k).contains(x) == exists|c: int|
            0 <= c < k && view[(#[trigger] coords[c]).0 * N_PHI_BINS + coords[c].1].contains(x),
    decreases k,
{
    if k > 0 {
        lemma_gathered_members(view, coords, k - 1, x);
        let head = gathered(view, coords, k - 1);
        let tile = view[coords[k - 1].0 * N_PHI_BINS + coords[k - 1].1];
        let all = gathered(view, coords, k);
        assert(all == head + tile);
        if head.contains(x) {
            let u = choose|u: int| 0 <= u < head.len() && head[u] == x;
            assert(all[u] == x);
        }
        if tile.contains(x) {
            let u = choose|u: int| 0 <= u < tile.len() && tile[u] == x;
            assert(all[head.len() + u] == x);
        }
        if all.contains(x) {
            let u = choose|u: int| 0 <= u < all.len() && all[u] == x;
            if u < head.len() {
                assert(head[u] == x);
            } else {
                assert(tile[u - head.len()] == x);
            }
        }
    }
}

/// In a grid that fits, the positions around a tile are positions of active
/// pseudojets.
pub proof fn lemma_neighbours_are_positions(
    view: Seq<Seq<usize>>,
    pjs: Seq<PseudoJet>,
    rap_idx: usize,
    phi_idx: usize,
)
    requires
        tiles_fit(view, pjs),
        rap_idx < N_RAP_BINS,
        phi_idx < N_PHI_BINS,
    ensures
        forall|u: int|
            0 <= u < neighbours_of(view, rap_idx, phi_idx).len() ==> (#[trigger] neighbours_of(
                view,
                rap_idx,
                phi_idx,
            )[u]) < pjs.len(),
{
    let coords = window_of(rap_idx, phi_idx);
    let all = neighbours_of(view, rap_idx, phi_idx);
    assert forall|u: int| 0 <= u < all.len() implies (#[trigger] all[u]) < pjs.len() by {
        lemma_gathered(view, coords, coords.len() as int, u);
        let c = choose|c: int|
            0 <= c < coords.len() && view[(#[trigger] coords[c]).0 * N_PHI_BINS + coords[c].1].contains(
                all[u],
            );
        lemma_window_of(rap_idx, phi_idx, c);
    }
}

/// The positions in a tile and in the tiles around it are those held by a
/// tile of the grid that is the tile or lies next to it.
pub proof fn lemma_neighbours_members(
    view: Seq<Seq<usize>>,
    rap_idx: usize,
    phi_idx: usize,
    x: usize,
)
    requires
        rap_idx < N_RAP_BINS,
        phi_idx < N_PHI_BINS,
    ensures
        neighbours_of(view, rap_idx, phi_idx).contains(x) == exists|r2: usize, c2: usize|
            r2 < N_RAP_BINS && c2 < N_PHI_BINS && adjacent(
                rap_idx as int,
                phi_idx as int,
                r2 as int,
                c2 as int,
            ) && #[trigger] view[r2 * N_PHI_BINS + c2].contains(x),
{
    let w = window_of(rap_idx, phi_idx);
    lemma_gathered_members(view, w, w.len() as int, x);
    if neighbours_of(view, rap_idx, phi_idx).contains(x) {
        let c = choose|c: int|
            0 <= c < w.len() && view[(#[trigger] w[c]).0 * N_PHI_BINS + w[c].1].contains(x);
        assert(w.contains(w[c]));
        lemma_window_members(rap_idx, phi_idx, w[c].0, w[c].1);
        assert(view[w[c].0 * N_PHI_BINS + w[c].1].contains(x));
    }
    if exists|r2: usize, c2: usize|
        r2 < N_RAP_BINS && c2 < N_PHI_BINS && adjacent(
            rap_idx as int,
            phi_idx as int,
            r2 as int,
            c2 as int,
        ) && #[trigger] view[r2 * N_PHI_BINS + c2].contains(x) {
        let (r2, c2) = choose|r2: usize, c2: usize|
            r2 < N_RAP_BINS && c2 < N_PHI_BINS && adjacent(
                rap_idx as int,
                phi_idx as int,
                r2 as int,
                c2 as int,
            ) && #[trigger] view[r2 * N_PHI_BINS + c2].contains(x);
        lemma_window_members(rap_idx, phi_idx, r2, c2);
        let c = choose|c: int| 0 <= c < w.len() && w[c] == (r2, c2);
        assert(view[w[c].0 * N_PHI_BINS + w[c].1].contains(x));
    }
}

/// What a tile holds after a position has been entered in a tile.
pub proof fn lemma_tile_inserted(view: Seq<Seq<usize>>, tile: int, value: usize)
    requires
        0 <= tile < view.len(),
    ensures
        tile_inserted(view, tile, value).len() == view.len(),
        forall|t: int, x: usize|
            0 <= t < view.len() ==> #[trigger] tile_inserted(view, tile, value)[t].contains(x) == (
            view[t].contains(x) || (t == tile && x == value)),
        forall|t: int|
            0 <= t < view.len() && view[t].no_duplicates() ==> (#[trigger] tile_inserted(
                view,
                tile,
                value,
            )[t]).no_duplicates(),
{
    let after = tile_inserted(view, tile, value);
    assert forall|t: int, x: usize| 0 <= t < view.len() implies #[trigger] after[t].contains(x) == (
    view[t].contains(x) || (t == tile && x == value)) by {
        if t == tile && !view[tile].contains(value) {
            let a = view[tile];
            let b = after[tile];
            if a.contains(x) {
                let u = choose|u: int| 0 <= u < a.len() && a[u] == x;
                assert(b[u] == x);
            }
            if x == value {
                assert(b[a.len() as int] == x);
            }
        }
    }
}

/// What a tile holds after a position has been taken out of a tile.
pub proof fn lemma_tile_removed(view: Seq<Seq<usize>>, tile: int, value: usize)
    requires
        0 <= tile < view.len(),
        view[tile].no_duplicates(),
    ensures
        tile_removed(view, tile, value).len() == view.len(),
        forall|t: int, x: usize|
            0 <= t < view.len() ==> #[trigger] tile_removed(view, tile, value)[t].contains(x) == (
            view[t].contains(x) && !(t == tile && x == value)),
        forall|t: int|
            0 <= t < view.len() && view[t].no_duplicates() ==> (#[trigger] tile_removed(
                view,
                tile,
                value,
            )[t]).no_duplicates(),
{
    if view[tile].contains(value) {
        let a = view[tile];
        a.index_of_first_ensures(value);
        crate::cluster::nearest::lemma_swap_removed_members(a, a.index_of(value));
    }
}

} // verus!
