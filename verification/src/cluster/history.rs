//! Whole cluster histories: what holds of every sequence of clustering
//! steps, whichever algorithm made it.
use vstd::prelude::*;
use crate::cluster::{lemma_merging, merging, step_taken, ClusterHist, ClusterStep};
use crate::pseudojet::PseudoJet;

verus! {

/// Whether `states` are the active pseudojets before, between and after
/// the given steps.
pub open spec fn is_run(
    states: Seq<Seq<PseudoJet>>,
    steps: Seq<ClusterStep>,
    merge: spec_fn(PseudoJet, PseudoJet) -> PseudoJet,
) -> bool {
    &&& states.len() == steps.len() + 1
    &&& forall|k: int|
        0 <= k < steps.len() ==> step_taken(
            #[trigger] states[k],
            states[k + 1],
            Some(steps[k]),
            merge,
        )
}

/// Whether the given steps, taken one after the other, lead from the active
/// pseudojets `start` to the active pseudojets `end`.
pub open spec fn leads_to(
    start: Seq<PseudoJet>,
    steps: Seq<ClusterStep>,
    end: Seq<PseudoJet>,
    merge: spec_fn(PseudoJet, PseudoJet) -> PseudoJet,
) -> bool {
    exists|states: Seq<Seq<PseudoJet>>|
        #[trigger] is_run(states, steps, merge) && states[0] == start && states.last() == end
}

/// Whether the given steps are a complete cluster history of the pseudojets
/// `start`: they lead to no active pseudojet.
pub open spec fn is_history(
    start: Seq<PseudoJet>,
    steps: Seq<ClusterStep>,
    merge: spec_fn(PseudoJet, PseudoJet) -> PseudoJet,
) -> bool {
    leads_to(start, steps, Seq::empty(), merge)
}

/// The jets among the first `k` steps, in their order.
pub open spec fn jets_upto(steps: Seq<ClusterStep>, k: int) -> Seq<PseudoJet>
    decreases k,
{
    if k <= 0 {
        Seq::empty()
    } else {
        match steps[k - 1] {
            ClusterStep::Jet(p) => jets_upto(steps, k - 1).push(p),
            ClusterStep::Combine(_) => jets_upto(steps, k - 1),
        }
    }
}

/// The jets among the steps, in their order.
pub open spec fn jets_of(steps: Seq<ClusterStep>) -> Seq<PseudoJet> {
    jets_upto(steps, steps.len() as int)
}

/// The number of combinations among the first `k` steps.
pub open spec fn combinations_upto(steps: Seq<ClusterStep>, k: int) -> int
    decreases k,
{
    if k <= 0 {
        0
    } else {
        combinations_upto(steps, k - 1) + if steps[k - 1] is Combine {
            1int
        } else {
            0int
        }
    }
}

/// The sum of a quantity over pseudojets.
pub open spec fn total(q: spec_fn(PseudoJet) -> int, s: Seq<PseudoJet>) -> int
    decreases s.len(),
{
    if s.len() == 0 {
        0
    } else {
        total(q, s.drop_last()) + q(s.last())
    }
}

/// Perform all clustering steps that are left.
pub fn remaining_steps<H: ClusterHist>(hist: &mut H) -> (steps: Vec<ClusterStep>)
    requires
        old(hist).wf(),
    ensures
        final(hist).wf(),
        final(hist).active().len() == 0,
        steps@ == old(hist).history(),
        steps@.len() == old(hist).active().len(),
        is_history(old(hist).active(), steps@, merging(*old(hist))),
{
    let ghost start = hist.active();
    let ghost whole = hist.history();
    let ghost merge = merging(*old(hist));
    let ghost mut states: Seq<Seq<PseudoJet>> = seq![start];
    let mut steps: Vec<ClusterStep> = Vec::new();
    loop
        invariant_except_break
            whole == steps@ + hist.history(),
        invariant
            hist.wf(),
            start == old(hist).active(),
            merge == merging(*old(hist)),
            forall|a: PseudoJet, b: PseudoJet| #[trigger] hist.merged(a, b) == old(hist).merged(a, b),
            is_run(states, steps@, merge),
            states[0] == start,
            states.last() == hist.active(),
            steps@.len() + hist.active().len() == start.len(),
        ensures
            hist.wf(),
            hist.active().len() == 0,
            is_run(states, steps@, merge),
            states[0] == start,
            states.last() == hist.active(),
            steps@.len() + hist.active().len() == start.len(),
            whole == steps@,
        decreases hist.active().len(),
    {
        let ghost mid = hist.active();
        let ghost done = steps@;
        let ghost seen = states;
        let ghost here = |a: PseudoJet, b: PseudoJet| hist.merged(a, b);
        proof {
            lemma_merging(*hist, *old(hist));
            assert(here =~= merging(*hist));
        }
        match hist.next() {
            Some(step) => {
                steps.push(step);
                proof {
                    states = states.push(hist.active());
                    assert forall|k: int| 0 <= k < steps@.len() implies step_taken(
                        #[trigger] states[k],
                        states[k + 1],
                        Some(steps@[k]),
                        merge,
                    ) by {
                        if k < done.len() {
                            assert(states[k] == seen[k]);
                            assert(states[k + 1] == seen[k + 1]);
                            assert(steps@[k] == done[k]);
                        }
                    }
                    assert(steps@ + hist.history() =~= done + (seq![step] + hist.history()));
                }
            },
            None => {
                proof {
                    assert(hist.active() =~= mid);
                    assert(steps@ + Seq::<ClusterStep>::empty() =~= steps@);
                }
                break ;
            },
        }
    }
    proof {
        assert(hist.active() =~= Seq::<PseudoJet>::empty());
    }
    steps
}

/// The jets among the steps, in their order.
pub fn jets(steps: &Vec<ClusterStep>) -> (found: Vec<PseudoJet>)
    ensures
        found@ == jets_of(steps@),
{
    let mut found: Vec<PseudoJet> = Vec::new();
    let mut k: usize = 0;
    while k < steps.len()
        invariant
            0 <= k <= steps.len(),
            found@ == jets_upto(steps@, k as int),
        decreases steps.len() - k,
    {
        match steps[k] {
            ClusterStep::Jet(p) => {
                found.push(p);
            },
            ClusterStep::Combine(_) => {},
        }
        k += 1;
    }
    found
}

/// Conservation of count: every step takes exactly one pseudojet out of
/// the active ones, so steps that lead from `start` to `end` are as many as
/// `start` has more pseudojets than `end`, and each of them is a jet or a
/// combination.
pub proof fn lemma_count_conserved(
    start: Seq<PseudoJet>,
    steps: Seq<ClusterStep>,
    end: Seq<PseudoJet>,
    merge: spec_fn(PseudoJet, PseudoJet) -> PseudoJet,
)
    requires
        leads_to(start, steps, end, merge),
    ensures
        steps.len() + end.len() == start.len(),
        jets_of(steps).len() + combinations_upto(steps, steps.len() as int) == steps.len(),
{
    lemma_jets_and_combinations(steps, steps.len() as int);
    let states = choose|states: Seq<Seq<PseudoJet>>|
        #[trigger] is_run(states, steps, merge) && states[0] == start && states.last() == end;
    lemma_run_shrinks(states, steps, merge, steps.len() as int);
}

/// After `k` steps of a run, `k` pseudojets fewer are active.
pub proof fn lemma_run_shrinks(
    states: Seq<Seq<PseudoJet>>,
    steps: Seq<ClusterStep>,
    merge: spec_fn(PseudoJet, PseudoJet) -> PseudoJet,
    k: int,
)
    requires
        is_run(states, steps, merge),
        0 <= k <= steps.len(),
    ensures
        states[k].len() + k == states[0].len(),
    decreases k,
{
    if k > 0 {
        lemma_run_shrinks(states, steps, merge, k - 1);
        assert(step_taken(states[k - 1], states[k], Some(steps[k - 1]), merge));
        lemma_step_shrinks(states[k - 1], states[k], steps[k - 1], merge);
    }
}

/// Every step is a jet or a combination.
pub proof fn lemma_jets_and_combinations(steps: Seq<ClusterStep>, k: int)
    requires
        0 <= k <= steps.len(),
    ensures
        jets_upto(steps, k).len() + combinations_upto(steps, k) == k,
    decreases k,
{
    if k > 0 {
        lemma_jets_and_combinations(steps, k - 1);
    }
}

/// A step leaves one active pseudojet less.
pub proof fn lemma_step_shrinks(
    before: Seq<PseudoJet>,
    after: Seq<PseudoJet>,
    step: ClusterStep,
    merge: spec_fn(PseudoJet, PseudoJet) -> PseudoJet,
)
    requires
        step_taken(before, after, Some(step), merge),
    ensures
        after.len() == before.len() - 1,
{
    broadcast use vstd::seq_lib::to_multiset_len;
    broadcast use vstd::multiset::group_multiset_axioms;

    before.to_multiset_ensures();
    after.to_multiset_ensures();
    match step {
        ClusterStep::Jet(p) => {
            assert(before.to_multiset().count(p) > 0);
        },
        ClusterStep::Combine(l) => {
            let (i, j) = choose|i: int, j: int|
                0 <= i < before.len() && 0 <= j < before.len() && i != j && before[i] == l[0]
                    && before[j] == l[1];
            lemma_two_members(before, i, j);
        },
    }
}

/// Two different positions of a sequence hold two members of its multiset.
pub proof fn lemma_two_members(s: Seq<PseudoJet>, i: int, j: int)
    requires
        0 <= i < s.len(),
        0 <= j < s.len(),
        i != j,
    ensures
        s.to_multiset().count(s[i]) > 0,
        s.to_multiset().remove(s[i]).count(s[j]) > 0,
        s.remove(i).contains(s[j]),
        s.remove(i).to_multiset() == s.to_multiset().remove(s[i]),
{
    broadcast use vstd::seq_lib::to_multiset_remove;
    broadcast use vstd::multiset::group_multiset_axioms;

    s.to_multiset_ensures();
    let r = s.remove(i);
    r.to_multiset_ensures();
    assert(s.contains(s[i]));
    if j < i {
        assert(r[j] == s[j]);
    } else {
        assert(r[j - 1] == s[j]);
    }
    assert(r.contains(s[j]));
}

/// Whether a quantity is additive: what two pseudojets combine into has
/// the sum of their quantities.
pub open spec fn additive(
    q: spec_fn(PseudoJet) -> int,
    merge: spec_fn(PseudoJet, PseudoJet) -> PseudoJet,
) -> bool {
    forall|a: PseudoJet, b: PseudoJet| q(#[trigger] merge(a, b)) == q(a) + q(b)
}

/// Conservation: over steps that lead from `start` to `end`, an additive
/// quantity of the pseudojets in `start` is found again in the jets and in
/// the pseudojets in `end`. In a complete history the jets have all of it.
pub proof fn lemma_total_conserved(
    start: Seq<PseudoJet>,
    steps: Seq<ClusterStep>,
    end: Seq<PseudoJet>,
    merge: spec_fn(PseudoJet, PseudoJet) -> PseudoJet,
    q: spec_fn(PseudoJet) -> int,
)
    requires
        leads_to(start, steps, end, merge),
        additive(q, merge),
    ensures
        total(q, start) == total(q, jets_of(steps)) + total(q, end),
{
    let states = choose|states: Seq<Seq<PseudoJet>>|
        #[trigger] is_run(states, steps, merge) && states[0] == start && states.last() == end;
    lemma_run_conserves(states, steps, merge, q, steps.len() as int);
}

/// After `k` steps of a run, an additive quantity of the pseudojets at the
/// start is found again in the jets so far and in the active pseudojets.
pub proof fn lemma_run_conserves(
    states: Seq<Seq<PseudoJet>>,
    steps: Seq<ClusterStep>,
    merge: spec_fn(PseudoJet, PseudoJet) -> PseudoJet,
    q: spec_fn(PseudoJet) -> int,
    k: int,
)
    requires
        is_run(states, steps, merge),
        additive(q, merge),
        0 <= k <= steps.len(),
    ensures
        total(q, states[0]) == total(q, jets_upto(steps, k)) + total(q, states[k]),
    decreases k,
{
    if k > 0 {
        lemma_run_conserves(states, steps, merge, q, k - 1);
        assert(step_taken(states[k - 1], states[k], Some(steps[k - 1]), merge));
        lemma_step_conserves(states[k - 1], states[k], steps[k - 1], merge, q);
        match steps[k - 1] {
            ClusterStep::Jet(p) => {
                lemma_total_push(q, jets_upto(steps, k - 1), p);
            },
            ClusterStep::Combine(_) => {},
        }
    } else {
        assert(jets_upto(steps, 0).len() == 0);
    }
}

/// A step keeps an additive quantity: a jet takes its own along, a
/// combination takes nothing.
pub proof fn lemma_step_conserves(
    before: Seq<PseudoJet>,
    after: Seq<PseudoJet>,
    step: ClusterStep,
    merge: spec_fn(PseudoJet, PseudoJet) -> PseudoJet,
    q: spec_fn(PseudoJet) -> int,
)
    requires
        step_taken(before, after, Some(step), merge),
        additive(q, merge),
    ensures
        total(q, before) == total(q, after) + match step {
            ClusterStep::Jet(p) => q(p),
            ClusterStep::Combine(_) => 0,
        },
{
    broadcast use vstd::seq_lib::to_multiset_remove, vstd::seq_lib::to_multiset_build;

    match step {
        ClusterStep::Jet(p) => {
            let i = choose|i: int| 0 <= i < before.len() && before[i] == p;
            lemma_total_remove(q, before, i);
            lemma_total_permuted(q, after, before.remove(i));
        },
        ClusterStep::Combine(l) => {
            let (i, j) = choose|i: int, j: int|
                0 <= i < before.len() && 0 <= j < before.len() && i != j && before[i] == l[0]
                    && before[j] == l[1];
            lemma_two_members(before, i, j);
            let s1 = before.remove(i);
            let j1 = choose|j1: int| 0 <= j1 < s1.len() && s1[j1] == l[1];
            let s2 = s1.remove(j1);
            let m = merge(l[0], l[1]);
            let s3 = s2.push(m);
            lemma_total_remove(q, before, i);
            lemma_total_remove(q, s1, j1);
            lemma_total_push(q, s2, m);
            assert(s3.to_multiset() == after.to_multiset());
            lemma_total_permuted(q, after, s3);
        },
    }
}

/// The sum over a sequence with one more pseudojet.
pub proof fn lemma_total_push(q: spec_fn(PseudoJet) -> int, s: Seq<PseudoJet>, x: PseudoJet)
    ensures
        total(q, s.push(x)) == total(q, s) + q(x),
{
    assert(s.push(x).drop_last() =~= s);
}

/// The sum over a sequence with one pseudojet less.
pub proof fn lemma_total_remove(q: spec_fn(PseudoJet) -> int, s: Seq<PseudoJet>, i: int)
    requires
        0 <= i < s.len(),
    ensures
        total(q, s.remove(i)) + q(s[i]) == total(q, s),
    decreases s.len(),
{
    if i == s.len() - 1 {
        assert(s.remove(i) =~= s.drop_last());
    } else {
        lemma_total_remove(q, s.drop_last(), i);
        assert(s.remove(i).drop_last() =~= s.drop_last().remove(i));
    }
}

/// The sum does not depend on the order of the pseudojets.
pub proof fn lemma_total_permuted(q: spec_fn(PseudoJet) -> int, s: Seq<PseudoJet>, t: Seq<PseudoJet>)
    requires
        s.to_multiset() == t.to_multiset(),
    ensures
        total(q, s) == total(q, t),
    decreases s.len(),
{
    broadcast use vstd::seq_lib::to_multiset_len, vstd::seq_lib::to_multiset_remove;

    s.to_multiset_ensures();
    t.to_multiset_ensures();
    if s.len() > 0 {
        let x = s.last();
        assert(s.contains(x));
        assert(t.to_multiset().count(x) > 0);
        let i = choose|i: int| 0 <= i < t.len() && t[i] == x;
        assert(s.drop_last() =~= s.remove(s.len() - 1));
        lemma_total_permuted(q, s.drop_last(), t.remove(i));
        lemma_total_remove(q, t, i);
    } else {
        assert(t.len() == 0);
    }
}

} // verus!
