//! Naive clustering
use vstd::prelude::*;
use crate::cluster::nearest::symmetric;
use crate::cluster::{lemma_swap_removed_multiset, swap_removed, ClusterHist, ClusterStep};
use crate::distance::Distance;
use crate::pseudojet::PseudoJet;
use crate::scalar::{lemma_rank_injective, Scalar};

verus! {

/// One line of the distance table: a distance and the two positions that it
/// belongs to. With two equal positions it is the distance to the beam.
pub type Entry = (Scalar, usize, usize);

/// Cluster history using naive brute-force nearest-neighbour search
pub struct ClusterNaive<D> {
    pseudojets: Vec<PseudoJet>,
    distance: D,
    distances: Vec<Entry>,
}

/// The order in which the table is searched: by distance, then by the first
/// position, then by the second.
pub open spec fn entry_before(a: Entry, b: Entry) -> bool {
    a.0.rank() < b.0.rank() || (a.0.rank() == b.0.rank() && (a.1 < b.1 || (a.1 == b.1 && a.2
        < b.2)))
}

/// Position of the first smallest among the first `n` entries.
pub open spec fn least_upto(entries: Seq<Entry>, n: int) -> int
    decreases n,
{
    if n <= 1 {
        0
    } else {
        let m = least_upto(entries, n - 1);
        if entry_before(entries[n - 1], entries[m]) {
            n - 1
        } else {
            m
        }
    }
}

/// The entry that decides the next step.
pub open spec fn chosen(entries: Seq<Entry>) -> Entry {
    entries[least_upto(entries, entries.len() as int)]
}

/// The distance that belongs to two positions: between the two pseudojets,
/// or to the beam where the positions are equal.
pub open spec fn value_at<D: Distance>(d: D, active: Seq<PseudoJet>, i: int, j: int) -> Scalar {
    if i != j {
        d.spec_distance(active[i], active[j])
    } else {
        d.spec_beam_distance(active[i])
    }
}

/// The first rows of the initial table. Row `i` holds the distances from
/// position `i` to every later position, then the distance of `i` to the
/// beam.
pub open spec fn initial_rows<D: Distance>(d: D, active: Seq<PseudoJet>, rows: int) -> Seq<Entry>
    decreases rows,
{
    if rows <= 0 {
        Seq::empty()
    } else {
        let i = rows - 1;
        initial_rows(d, active, i) + Seq::new(
            (active.len() - i) as nat,
            |c: int|
                if c < active.len() - i - 1 {
                    (d.spec_distance(active[i], active[i + 1 + c]), i as usize, (i + 1 + c) as usize)
                } else {
                    (d.spec_beam_distance(active[i]), i as usize, i as usize)
                },
        )
    }
}

/// Whether the table has an entry for two positions, in either order.
pub open spec fn covered(entries: Seq<Entry>, a: int, b: int) -> bool {
    exists|x: int|
        0 <= x < entries.len() && ((#[trigger] entries[x]).1 == a && entries[x].2 == b || entries[x].1
            == b && entries[x].2 == a)
}

/// Whether a table fits the active pseudojets: every entry belongs to two
/// positions that exist and holds their distance, and every two positions,
/// equal or not, have an entry.
pub open spec fn table_fits<D: Distance>(d: D, active: Seq<PseudoJet>, entries: Seq<Entry>) -> bool {
    &&& forall|x: int|
        0 <= x < entries.len() ==> {
            &&& (#[trigger] entries[x]).1 < active.len()
            &&& entries[x].2 < active.len()
            &&& entries[x].0 == value_at(d, active, entries[x].1 as int, entries[x].2 as int)
        }
    &&& forall|a: int, b: int|
        0 <= a < active.len() && 0 <= b < active.len() ==> #[trigger] covered(entries, a, b)
}

/// Whether an entry belongs to position `k`.
pub open spec fn mentions(e: Entry, k: usize) -> bool {
    e.1 == k || e.2 == k
}

/// The entries that do not belong to position `k`.
pub open spec fn keeps(k: usize) -> spec_fn(Entry) -> bool {
    |e: Entry| !mentions(e, k)
}

/// An entry with position `from` renamed to `to`.
pub open spec fn renamed(e: Entry, from: usize, to: usize) -> Entry {
    (
        e.0,
        if e.1 == from {
            to
        } else {
            e.1
        },
        if e.2 == from {
            to
        } else {
            e.2
        },
    )
}

/// Renaming position `from` to `to` in every entry.
pub open spec fn renaming(from: usize, to: usize) -> spec_fn(Entry) -> Entry {
    |e: Entry| renamed(e, from, to)
}

/// The table after the pseudojet at position `k` has left and the one at the
/// last position, `last`, has taken its place.
pub open spec fn table_without(entries: Seq<Entry>, k: usize, last: usize) -> Seq<Entry> {
    entries.filter(keeps(k)).map_values(renaming(last, k))
}

/// An entry with its distance computed anew if it belongs to position `k`.
pub open spec fn refreshed<D: Distance>(d: D, active: Seq<PseudoJet>, k: usize, e: Entry) -> Entry {
    if mentions(e, k) {
        (value_at(d, active, e.1 as int, e.2 as int), e.1, e.2)
    } else {
        e
    }
}

/// The step that an entry for positions `i` and `j` decides.
pub open spec fn step_of(active: Seq<PseudoJet>, i: usize, j: usize) -> ClusterStep {
    if i == j {
        ClusterStep::Jet(active[i as int])
    } else {
        ClusterStep::Combine([active[i as int], active[j as int]])
    }
}

/// The active pseudojets after the step that an entry for positions `i` and
/// `j` decides: a jet leaves; of a pair, the pseudojet at the higher position
/// leaves and the one at the lower position becomes what the two combine
/// into.
pub open spec fn active_after<D: Distance>(d: D, active: Seq<PseudoJet>, i: usize, j: usize) -> Seq<
    PseudoJet,
> {
    if i == j {
        swap_removed(active, i as int)
    } else {
        let lo = if i < j {
            i
        } else {
            j
        };
        let hi = if i < j {
            j
        } else {
            i
        };
        swap_removed(active, hi as int).update(
            lo as int,
            d.spec_combine(active[i as int], active[j as int]),
        )
    }
}

/// The table after the step that an entry for positions `i` and `j` decides.
pub open spec fn table_after<D: Distance>(
    d: D,
    active: Seq<PseudoJet>,
    entries: Seq<Entry>,
    i: usize,
    j: usize,
) -> Seq<Entry> {
    let last = (active.len() - 1) as usize;
    if i == j {
        table_without(entries, i, last)
    } else {
        let lo = if i < j {
            i
        } else {
            j
        };
        let hi = if i < j {
            j
        } else {
            i
        };
        let after = active_after(d, active, i, j);
        table_without(entries, hi, last).map_values(|x: Entry| refreshed(d, after, lo, x))
    }
}

/// The steps that follow from a distance table, from the next one to the
/// last one.
pub open spec fn history_of<D: Distance>(d: D, active: Seq<PseudoJet>, entries: Seq<Entry>) -> Seq<
    ClusterStep,
>
    decreases active.len(),
{
    let e = chosen(entries);
    if entries.len() == 0 || active_after(d, active, e.1, e.2).len() >= active.len() {
        Seq::empty()
    } else {
        seq![step_of(active, e.1, e.2)] + history_of(
            d,
            active_after(d, active, e.1, e.2),
            table_after(d, active, entries, e.1, e.2),
        )
    }
}

impl<D: Distance> ClusterNaive<D> {
    /// The distance measure.
    pub closed spec fn measure(&self) -> D {
        self.distance
    }

    /// The distance table.
    pub closed spec fn entries(&self) -> Seq<Entry> {
        self.distances@
    }

    /// The active pseudojets.
    pub closed spec fn pseudojets(&self) -> Seq<PseudoJet> {
        self.pseudojets@
    }

    /// What holds before and after every step: the distance table fits
    /// the active pseudojets.
    pub proof fn lemma_invariant(&self)
        requires
            self.wf(),
        ensures
            table_fits(self.measure(), self.pseudojets(), self.entries()),
    {
    }

    /// Initialise clustering for the given `partons` and `distance`
    ///
    /// The distance table holds the distance of every pair of partons and
    /// the distance of every parton to the beam.
    pub fn new(partons: Vec<PseudoJet>, distance: D) -> (r: Self)
        ensures
            r.wf(),
            r.active() == partons@,
            r.pseudojets() == partons@,
            r.measure() == distance,
            r.entries() == initial_rows(distance, partons@, partons@.len() as int),
    {
        let distances = calc_distances(&partons, &distance);
        ClusterNaive { pseudojets: partons, distance, distances }
    }
}

impl<D: Distance> ClusterNaive<D> {
    /// Take the pseudojet at position `i` out as a jet.
    fn extract_as_jet(&mut self, i: usize) -> (jet: PseudoJet)
        requires
            old(self).wf(),
            i < old(self).active().len(),
        ensures
            final(self).wf(),
            final(self).measure() == old(self).measure(),
            jet == old(self).active()[i as int],
            final(self).active() == swap_removed(old(self).active(), i as int),
            final(self).entries() == table_without(
                old(self).entries(),
                i,
                (old(self).active().len() - 1) as usize,
            ),
    {
        let last = self.pseudojets.len() - 1;
        proof {
            lemma_without_fits(self.distance, self.pseudojets@, self.distances@, i);
        }
        self.distances = without(&self.distances, i, last);
        self.pseudojets.swap_remove(i)
    }

    /// Replace the pseudojets at positions `i` and `j` by what they combine
    /// into, and return the two.
    fn combine(&mut self, i: usize, j: usize) -> (res: [PseudoJet; 2])
        requires
            old(self).wf(),
            i < old(self).active().len(),
            j < old(self).active().len(),
            i != j,
        ensures
            final(self).wf(),
            final(self).measure() == old(self).measure(),
            res[0] == old(self).active()[i as int],
            res[1] == old(self).active()[j as int],
            final(self).active() == active_after(old(self).measure(), old(self).active(), i, j),
            final(self).entries() == table_after(
                old(self).measure(),
                old(self).active(),
                old(self).entries(),
                i,
                j,
            ),
    {
        let res = [self.pseudojets[i], self.pseudojets[j]];
        let merged = self.distance.combine(&self.pseudojets[i], &self.pseudojets[j]);
        let (i, j) = minmax(i, j);
        let last = self.pseudojets.len() - 1;
        proof {
            lemma_without_fits(self.distance, self.pseudojets@, self.distances@, j);
            lemma_refreshed_fits(
                self.distance,
                swap_removed(self.pseudojets@, j as int),
                table_without(self.distances@, j, last),
                i,
                merged,
            );
        }
        let mut dists = without(&self.distances, j, last);
        self.pseudojets.swap_remove(j);
        self.pseudojets[i] = merged;
        // update distances
        let ghost base = dists@;
        let ghost after = self.pseudojets@;
        let ghost d = self.distance;
        let mut x: usize = 0;
        while x < dists.len()
            invariant
                0 <= x <= dists.len(),
                dists.len() == base.len(),
                self.pseudojets@ == after,
                self.distance == d,
                i < after.len(),
                table_fits(d, after, base.map_values(|e: Entry| refreshed(d, after, i, e))),
                forall|y: int| 0 <= y < x ==> dists@[y] == refreshed(d, after, i, #[trigger] base[y]),
                forall|y: int| x <= y < base.len() ==> dists@[y] == #[trigger] base[y],
            decreases dists.len() - x,
        {
            let (_dist, ii, jj) = dists[x];
            if ii == i || jj == i {
                assert(base.map_values(|e: Entry| refreshed(d, after, i, e))[x as int]
                    == refreshed(d, after, i, base[x as int]));
                let dist = if ii != jj {
                    self.distance.distance(&self.pseudojets[ii], &self.pseudojets[jj])
                } else {
                    self.distance.beam_distance(&self.pseudojets[i])
                };
                dists[x] = (dist, ii, jj);
            }
            x += 1;
        }
        assert(dists@ =~= base.map_values(|e: Entry| refreshed(d, after, i, e)));
        self.distances = dists;
        res
    }
}

impl<D: Distance> ClusterHist for ClusterNaive<D> {
    closed spec fn wf(&self) -> bool {
        &&& table_fits(self.distance, self.pseudojets@, self.distances@)
    }

    open spec fn active(&self) -> Seq<PseudoJet> {
        self.pseudojets()
    }

    open spec fn merged(&self, p1: PseudoJet, p2: PseudoJet) -> PseudoJet {
        self.measure().spec_combine(p1, p2)
    }

    open spec fn history(&self) -> Seq<ClusterStep> {
        history_of(self.measure(), self.pseudojets(), self.entries())
    }

    /// Perform the next clustering step
    ///
    /// The first smallest entry of the distance table decides: a distance
    /// to the beam makes its pseudojet a jet, a distance between two
    /// pseudojets combines them.
    fn next(&mut self) -> (step: Option<ClusterStep>)
        ensures
            final(self).measure() == old(self).measure(),
            old(self).entries().len() > 0 ==> {
                let e = chosen(old(self).entries());
                &&& step == Some(step_of(old(self).pseudojets(), e.1, e.2))
                &&& final(self).pseudojets() == active_after(
                    old(self).measure(),
                    old(self).pseudojets(),
                    e.1,
                    e.2,
                )
                &&& final(self).entries() == table_after(
                    old(self).measure(),
                    old(self).pseudojets(),
                    old(self).entries(),
                    e.1,
                    e.2,
                )
            },
    {
        let n = self.distances.len();
        if n == 0 {
            proof {
                if self.pseudojets@.len() > 0 {
                    assert(covered(self.distances@, 0, 0));
                }
            }
            return None;
        }
        let mut best: usize = 0;
        let mut x: usize = 1;
        while x < n
            invariant
                1 <= x <= n,
                n == self.distances@.len(),
                0 <= best < x,
                best == least_upto(self.distances@, x as int),
            decreases n - x,
        {
            if entry_lt(&self.distances[x], &self.distances[best]) {
                best = x;
            }
            x += 1;
        }
        let (_, i, j) = self.distances[best];
        let ghost before = self.pseudojets@;
        let ghost d = self.distance;
        if i == j {
            proof {
                lemma_swap_removed_multiset(before, i as int);
                assert(before.contains(before[i as int]));
            }
            let jet = self.extract_as_jet(i);
            Some(ClusterStep::Jet(jet))
        } else {
            let pair = self.combine(i, j);
            proof {
                lemma_combined_multiset(before, i as int, j as int, d.spec_combine(before[i as int], before[j as int]));
                assert(pair =~= [before[i as int], before[j as int]]);
            }
            Some(ClusterStep::Combine(pair))
        }
    }
}

/// The initial distance table.
fn calc_distances<D: Distance>(pseudojets: &Vec<PseudoJet>, d: &D) -> (dists: Vec<Entry>)
    ensures
        dists@ == initial_rows(*d, pseudojets@, pseudojets@.len() as int),
        table_fits(*d, pseudojets@, dists@),
{
    let n = pseudojets.len();
    let mut dists: Vec<Entry> = Vec::new();
    let mut i: usize = 0;
    while i < n
        invariant
            0 <= i <= n,
            n == pseudojets@.len(),
            dists@ == initial_rows(*d, pseudojets@, i as int),
            forall|x: int|
                0 <= x < dists@.len() ==> {
                    &&& (#[trigger] dists@[x]).1 < i
                    &&& dists@[x].2 < n
                    &&& dists@[x].0 == value_at(*d, pseudojets@, dists@[x].1 as int, dists@[x].2 as int)
                },
            forall|a: int, b: int|
                0 <= a < i && a <= b < n ==> #[trigger] covered(dists@, a, b),
        decreases n - i,
    {
        let ghost before = dists@;
        let ghost row = Seq::new(
            (n - i) as nat,
            |c: int|
                if c < n - i - 1 {
                    (
                        d.spec_distance(pseudojets@[i as int], pseudojets@[i + 1 + c]),
                        i as usize,
                        (i + 1 + c) as usize,
                    )
                } else {
                    (d.spec_beam_distance(pseudojets@[i as int]), i as usize, i as usize)
                },
        );
        let mut j: usize = i + 1;
        while j < n
            invariant
                0 <= i < n,
                i + 1 <= j <= n,
                n == pseudojets@.len(),
                row.len() == n - i,
                forall|c: int|
                    0 <= c < n - i - 1 ==> #[trigger] row[c] == (
                        d.spec_distance(pseudojets@[i as int], pseudojets@[i + 1 + c]),
                        i as usize,
                        (i + 1 + c) as usize,
                    ),
                dists@ == before + row.subrange(0, j - i - 1),
            decreases n - j,
        {
            dists.push((d.distance(&pseudojets[i], &pseudojets[j]), i, j));
            j += 1;
            assert(dists@ =~= before + row.subrange(0, j - i - 1));
        }
        dists.push((d.beam_distance(&pseudojets[i]), i, i));
        assert(dists@ =~= before + row);
        proof {
            assert forall|a: int, b: int| 0 <= a < i + 1 && a <= b < n implies #[trigger] covered(
                dists@,
                a,
                b,
            ) by {
                if a < i {
                    assert(covered(before, a, b));
                    let x = choose|x: int|
                        0 <= x < before.len() && ((#[trigger] before[x]).1 == a && before[x].2 == b
                            || before[x].1 == b && before[x].2 == a);
                    assert(dists@[x] == before[x]);
                } else {
                    let c = if b == i {
                        n - i - 1
                    } else {
                        b - i - 1
                    };
                    assert(dists@[before.len() + c] == row[c]);
                }
            }
        }
        i += 1;
    }
    proof {
        assert forall|a: int, b: int| 0 <= a < n && 0 <= b < n implies #[trigger] covered(
            dists@,
            a,
            b,
        ) by {
            if a <= b {
                assert(covered(dists@, a, b));
            } else {
                assert(covered(dists@, b, a));
            }
        }
    }
    dists
}

/// The two arguments in ascending order.
pub fn minmax(i: usize, j: usize) -> (r: (usize, usize))
    ensures
        r.0 == if i > j { j } else { i },
        r.1 == if i > j { i } else { j },
{
    if i > j {
        (j, i)
    } else {
        (i, j)
    }
}

/// Whether entry `a` comes before entry `b` in the order of the search.
fn entry_lt(a: &Entry, b: &Entry) -> (r: bool)
    ensures
        r == entry_before(*a, *b),
{
    if a.0.lt(b.0) {
        true
    } else if b.0.lt(a.0) {
        false
    } else {
        a.1 < b.1 || (a.1 == b.1 && a.2 < b.2)
    }
}

/// The table without position `k`, where `last` is the last position.
fn without(entries: &Vec<Entry>, k: usize, last: usize) -> (kept: Vec<Entry>)
    ensures
        kept@ == table_without(entries@, k, last),
{
    let mut kept: Vec<Entry> = Vec::new();
    let mut x: usize = 0;
    assert(entries@.take(0) =~= Seq::<Entry>::empty());
    assert(Seq::<Entry>::empty().filter(keeps(k)) =~= Seq::<Entry>::empty()) by {
        reveal(Seq::filter);
    }
    while x < entries.len()
        invariant
            0 <= x <= entries.len(),
            kept@ =~= table_without(entries@.take(x as int), k, last),
        decreases entries.len() - x,
    {
        let (d, ii, jj) = entries[x];
        proof {
            assert(entries@.take(x + 1) =~= entries@.take(x as int).push(entries@[x as int]));
            entries@.take(x as int).lemma_filter_push(entries@[x as int], keeps(k));
        }
        if ii != k && jj != k {
            kept.push(
                (
                    d,
                    if ii == last {
                        k
                    } else {
                        ii
                    },
                    if jj == last {
                        k
                    } else {
                        jj
                    },
                ),
            );
        }
        x += 1;
    }
    assert(entries@.take(entries@.len() as int) =~= entries@);
    kept
}

/// Whether `e` is an entry of `entries` that does not belong to position
/// `k`, with position `last` renamed to `k`.
pub open spec fn came_from(entries: Seq<Entry>, k: usize, last: usize, e: Entry) -> bool {
    exists|x: int|
        0 <= x < entries.len() && !mentions(#[trigger] entries[x], k) && e == renamed(
            entries[x],
            last,
            k,
        )
}

/// Every entry of the table without a position comes from an entry of the
/// table with it, and every entry that did not belong to the position is
/// still there under its new name.
proof fn lemma_table_without(entries: Seq<Entry>, k: usize, last: usize)
    ensures
        forall|y: int|
            0 <= y < table_without(entries, k, last).len() ==> came_from(
                entries,
                k,
                last,
                #[trigger] table_without(entries, k, last)[y],
            ),
        forall|x: int|
            0 <= x < entries.len() && !mentions(#[trigger] entries[x], k) ==> table_without(
                entries,
                k,
                last,
            ).contains(renamed(entries[x], last, k)),
{
    let f = entries.filter(keeps(k));
    let t = table_without(entries, k, last);
    assert(t.len() == f.len());
    assert forall|y: int| 0 <= y < t.len() implies came_from(entries, k, last, #[trigger] t[y]) by {
        entries.lemma_filter_pred(keeps(k), y);
        assert(f.contains(f[y]));
        entries.lemma_filter_contains_rev(keeps(k), f[y]);
        let x = choose|x: int| 0 <= x < entries.len() && entries[x] == f[y];
        assert(!mentions(entries[x], k));
        assert(t[y] == renamed(entries[x], last, k));
    }
    assert forall|x: int|
        0 <= x < entries.len() && !mentions(#[trigger] entries[x], k) implies t.contains(
        renamed(entries[x], last, k),
    ) by {
        entries.lemma_filter_contains(keeps(k), x);
        let y = choose|y: int| 0 <= y < f.len() && f[y] == entries[x];
        assert(t[y] == renamed(entries[x], last, k));
    }
}

/// A table that fits stays one when a pseudojet leaves.
proof fn lemma_without_fits<D: Distance>(d: D, active: Seq<PseudoJet>, entries: Seq<Entry>, k: usize)
    requires
        table_fits(d, active, entries),
        k < active.len(),
        active.len() <= usize::MAX,
    ensures
        table_fits(
            d,
            swap_removed(active, k as int),
            table_without(entries, k, (active.len() - 1) as usize),
        ),
{
    let last = (active.len() - 1) as usize;
    let t = table_without(entries, k, last);
    let after = swap_removed(active, k as int);
    lemma_table_without(entries, k, last);
    assert forall|y: int| 0 <= y < t.len() implies {
        &&& (#[trigger] t[y]).1 < after.len()
        &&& t[y].2 < after.len()
        &&& t[y].0 == value_at(d, after, t[y].1 as int, t[y].2 as int)
    } by {
        assert(came_from(entries, k, last, t[y]));
        let x = choose|x: int|
            0 <= x < entries.len() && !mentions(#[trigger] entries[x], k) && t[y] == renamed(
                entries[x],
                last,
                k,
            );
        let e = entries[x];
        assert(e.1 < active.len() && e.2 < active.len());
        assert(after[t[y].1 as int] == active[e.1 as int]);
        assert(after[t[y].2 as int] == active[e.2 as int]);
    }
    assert forall|a: int, b: int| 0 <= a < after.len() && 0 <= b < after.len() implies #[trigger] covered(
        t,
        a,
        b,
    ) by {
        let a0 = if a == k {
            last as int
        } else {
            a
        };
        let b0 = if b == k {
            last as int
        } else {
            b
        };
        assert(covered(entries, a0, b0));
        let x = choose|x: int|
            0 <= x < entries.len() && ((#[trigger] entries[x]).1 == a0 && entries[x].2 == b0
                || entries[x].1 == b0 && entries[x].2 == a0);
        assert(!mentions(entries[x], k));
        assert(t.contains(renamed(entries[x], last, k)));
        let y = choose|y: int| 0 <= y < t.len() && t[y] == renamed(entries[x], last, k);
        assert(t[y].1 == a && t[y].2 == b || t[y].1 == b && t[y].2 == a);
    }
}

/// A table that fits stays one when one pseudojet is replaced and the
/// entries that belong to its position are computed anew.
proof fn lemma_refreshed_fits<D: Distance>(
    d: D,
    active: Seq<PseudoJet>,
    entries: Seq<Entry>,
    k: usize,
    p: PseudoJet,
)
    requires
        table_fits(d, active, entries),
        k < active.len(),
    ensures
        table_fits(
            d,
            active.update(k as int, p),
            entries.map_values(|x: Entry| refreshed(d, active.update(k as int, p), k, x)),
        ),
{
    let after = active.update(k as int, p);
    let t = entries.map_values(|x: Entry| refreshed(d, after, k, x));
    assert forall|y: int| 0 <= y < t.len() implies {
        &&& (#[trigger] t[y]).1 < after.len()
        &&& t[y].2 < after.len()
        &&& t[y].0 == value_at(d, after, t[y].1 as int, t[y].2 as int)
    } by {
        let e = entries[y];
        assert(e.1 < active.len() && e.2 < active.len());
        assert(t[y] == refreshed(d, after, k, e));
    }
    assert forall|a: int, b: int| 0 <= a < after.len() && 0 <= b < after.len() implies #[trigger] covered(
        t,
        a,
        b,
    ) by {
        assert(covered(entries, a, b));
        let x = choose|x: int|
            0 <= x < entries.len() && ((#[trigger] entries[x]).1 == a && entries[x].2 == b
                || entries[x].1 == b && entries[x].2 == a);
        assert(t[x] == refreshed(d, after, k, entries[x]));
    }
}

/// Replacing two pseudojets by a third: the one at the higher position is
/// removed by swapping, the one at the lower position is overwritten.
pub proof fn lemma_combined_multiset(s: Seq<PseudoJet>, i: int, j: int, m: PseudoJet)
    requires
        0 <= i < s.len(),
        0 <= j < s.len(),
        i != j,
    ensures
        ({
            let lo = if i < j { i } else { j };
            let hi = if i < j { j } else { i };
            let after = swap_removed(s, hi).update(lo, m);
            &&& after.len() == s.len() - 1
            &&& after.to_multiset() == s.to_multiset().remove(s[i]).remove(s[j]).insert(m)
        }),
{
    broadcast use vstd::seq_lib::to_multiset_update;
    broadcast use vstd::multiset::group_multiset_axioms;

    let lo = if i < j { i } else { j };
    let hi = if i < j { j } else { i };
    let r = swap_removed(s, hi);
    lemma_swap_removed_multiset(s, hi);
    assert(r[lo] == s[lo]);
    r.to_multiset_ensures();
    s.to_multiset_ensures();
    assert(r.contains(r[lo]));
    assert(r.to_multiset().count(s[lo]) > 0);
    assert(s.contains(s[hi]));
    assert(r.update(lo, m).to_multiset() == r.to_multiset().insert(m).remove(s[lo]));
    assert(r.update(lo, m).to_multiset() =~= s.to_multiset().remove(s[i]).remove(s[j]).insert(m));
}

/// The entry that decides the next step is the first smallest one in the
/// order of the search.
pub proof fn lemma_chosen_is_least(entries: Seq<Entry>, n: int)
    requires
        0 < n <= entries.len(),
    ensures
        0 <= least_upto(entries, n) < n,
        forall|x: int| 0 <= x < n ==> !entry_before(#[trigger] entries[x], entries[least_upto(entries, n)]),
        forall|x: int|
            0 <= x < least_upto(entries, n) ==> entry_before(
                entries[least_upto(entries, n)],
                #[trigger] entries[x],
            ),
    decreases n,
{
    if n > 1 {
        lemma_chosen_is_least(entries, n - 1);
        let m = least_upto(entries, n - 1);
        let r = least_upto(entries, n);
        assert forall|x: int| 0 <= x < n implies !entry_before(#[trigger] entries[x], entries[r]) by {
            if x < n - 1 {
                assert(!entry_before(entries[x], entries[m]));
                lemma_rank_injective(entries[x].0, entries[m].0);
            }
        }
        assert forall|x: int| 0 <= x < r implies entry_before(entries[r], #[trigger] entries[x]) by {
            if r == m {
                assert(entry_before(entries[m], entries[x]));
            } else {
                assert(!entry_before(entries[x], entries[m]));
            }
        }
    }
}

/// The search of all distances takes a step of the smallest distance:
/// under a symmetric distance measure, the distance of the entry that
/// decides the next step is no larger than the distance between any two
/// active pseudojets, and than the distance of any of them to the beam.
pub proof fn lemma_chosen_has_least_distance<D: Distance>(
    d: D,
    active: Seq<PseudoJet>,
    entries: Seq<Entry>,
    i: int,
    j: int,
)
    requires
        table_fits(d, active, entries),
        symmetric(d),
        0 <= i < active.len(),
        0 <= j < active.len(),
    ensures
        entries.len() > 0,
        chosen(entries).0.rank() <= value_at(d, active, i, j).rank(),
{
    assert(covered(entries, i, j));
    let x = choose|x: int|
        0 <= x < entries.len() && ((#[trigger] entries[x]).1 == i && entries[x].2 == j || entries[x].1
            == j && entries[x].2 == i);
    lemma_chosen_is_least(entries, entries.len() as int);
    assert(!entry_before(entries[x], chosen(entries)));
    assert(entries[x].0 == value_at(d, active, i, j));
}

} // verus!
