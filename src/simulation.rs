//! Monte Carlo trials: random lattices, per-trial analyses and their tallies.
use crate::burning::{burn_dfs, reset_lattice, two_state, EMPTY, OCCUPIED};
use crate::grid::{cells, occupied, spans};
use crate::labeling::{
    cluster_sizes, hoshen_kopelman, labels_clusters, largest_cluster, live_sizes_of,
};
use crate::laws::{
    cluster_size, law_cluster_of_site, law_empty_largest, law_full_largest, law_full_lattice_spans,
    law_reset_restores, law_size_counts, sites_of_size,
};
use crate::union_find::{count_in, live_part, root, sum_sizes, FIRST_LABEL};
use rand::rngs::StdRng;
use rand::Rng;
use vstd::prelude::*;

verus! {

/// rand's seedable standard generator, carried through verified code unopened.
#[verifier::external_type_specification]
#[verifier::external_body]
pub struct ExStdRng(rand::rngs::StdRng);

/// Threshold that occupies every site: it lies above every `u32` draw. A probability
/// `p` corresponds to the threshold `p * FULL_THRESHOLD`.
pub const FULL_THRESHOLD: u64 = 4294967296;

/// Relies on rand::Rng::gen::<u32> (through `Standard`, which takes `next_u32`): one
/// draw of any `u32`; nothing is known of which.
#[verifier::external_body]
fn draw(rng: &mut StdRng) -> (r: u32) {
    rng.gen::<u32>()
}

/// The state of one site from its draw: occupied exactly when the draw falls below
/// `threshold`.
pub fn site_from_draw(draw: u32, threshold: u64) -> (s: usize)
    ensures
        s == if (draw as u64) < threshold {
            OCCUPIED
        } else {
            EMPTY
        },
{
    if (draw as u64) < threshold {
        OCCUPIED
    } else {
        EMPTY
    }
}

/// A fresh lattice of side `size`, each site occupied when its own draw falls below
/// `threshold`.
pub fn generate_lattice(rng: &mut StdRng, size: usize, threshold: u64) -> (lat: Vec<usize>)
    requires
        cells(size as int) <= usize::MAX,
    ensures
        lat@.len() == cells(size as int),
        two_state(lat@),
        threshold == 0 ==> forall|i: int| 0 <= i < lat@.len() ==> #[trigger] lat@[i] == EMPTY,
        threshold >= FULL_THRESHOLD ==> forall|i: int|
            0 <= i < lat@.len() ==> #[trigger] lat@[i] == OCCUPIED,
{
    let total: usize = size * size;
    let mut lat: Vec<usize> = Vec::new();
    while lat.len() < total
        invariant
            total == cells(size as int),
            lat@.len() <= total,
            two_state(lat@),
            threshold == 0 ==> forall|i: int| 0 <= i < lat@.len() ==> #[trigger] lat@[i] == EMPTY,
            threshold >= FULL_THRESHOLD ==> forall|i: int|
                0 <= i < lat@.len() ==> #[trigger] lat@[i] == OCCUPIED,
        decreases total - lat@.len(),
    {
        let d = draw(rng);
        lat.push(site_from_draw(d, threshold));
    }
    lat
}

/// `m` is the size of the largest cluster of `lat`, or 0 when no site is occupied.
pub open spec fn largest_is(lat: Seq<usize>, n: int, m: int) -> bool {
    &&& forall|x: int| occupied(lat, x) ==> #[trigger] cluster_size(lat, n, x) <= m
    &&& (m == 0 || exists|x: int| occupied(lat, x) && #[trigger] cluster_size(lat, n, x) == m)
}

/// What one trial of the average mode finds.
pub struct TrialOutcome {
    pub spanned: bool,
    pub largest: usize,
}

proof fn lemma_count_has_site(labels: Seq<usize>, t: Seq<i32>, k: int)
    requires
        count_in(labels, t, k) > 0,
    ensures
        exists|x: int|
            0 <= x < labels.len() && #[trigger] labels[x] >= FIRST_LABEL && root(t, labels[x] as int)
                == k,
    decreases labels.len(),
{
    let d = labels.drop_last();
    assert(labels.last() == labels[labels.len() - 1]);
    if count_in(d, t, k) > 0 {
        lemma_count_has_site(d, t, k);
        let x = choose|x: int|
            0 <= x < d.len() && #[trigger] d[x] >= FIRST_LABEL && root(t, d[x] as int) == k;
        assert(labels[x] == d[x]);
    }
}

/// The largest live entry of a table that labels `lat` is its largest cluster.
proof fn lemma_largest_from_table(
    lat: Seq<usize>,
    n: int,
    labels: Seq<usize>,
    t: Seq<i32>,
    m: int,
)
    requires
        labels_clusters(lat, n, labels, t),
        forall|k: int| 0 <= k < t.len() ==> live_part(#[trigger] t[k]) <= m,
        m == 0 || exists|k: int| 0 <= k < t.len() && t[k] == m,
    ensures
        largest_is(lat, n, m),
{
    assert forall|x: int| occupied(lat, x) implies #[trigger] cluster_size(lat, n, x) <= m by {
        law_cluster_of_site(lat, n, labels, t, x);
        crate::union_find::lemma_root_live(t, labels[x] as int);
        assert(live_part(t[root(t, labels[x] as int)]) <= m);
    }
    if m != 0 {
        let k = choose|k: int| 0 <= k < t.len() && t[k] == m;
        assert(m > 0) by {
            assert(live_part(t[k]) <= m);
        }
        assert(k >= FIRST_LABEL);
        assert(t[k] == count_in(labels, t, k));
        lemma_count_has_site(labels, t, k);
        let x = choose|x: int|
            0 <= x < labels.len() && #[trigger] labels[x] >= FIRST_LABEL && root(t, labels[x] as int)
                == k;
        assert(occupied(lat, x));
        crate::union_find::lemma_root_live(t, k);
        law_cluster_of_site(lat, n, labels, t, x);
    }
}

/// One trial of the average mode on a generated lattice: the spanning check, the
/// reset of its markers, then the labelling and the largest cluster.
pub fn average_trial(lattice: &mut Vec<usize>, size: usize) -> (r: TrialOutcome)
    requires
        size > 0,
        old(lattice)@.len() == cells(size as int),
        cells(size as int) + 2 <= i32::MAX,
        two_state(old(lattice)@),
    ensures
        r.spanned == spans(old(lattice)@, size as int),
        largest_is(old(lattice)@, size as int, r.largest as int),
        r.largest <= cells(size as int),
{
    let ghost lat0 = lattice@;
    let spanned = burn_dfs(lattice, size);
    let ghost burnt = lattice@;
    reset_lattice(lattice);
    proof {
        law_reset_restores(lat0, burnt);
    }
    let table = hoshen_kopelman(lattice, size);
    let largest = largest_cluster(&table);
    proof {
        lemma_largest_from_table(lat0, size as int, lattice@, table@, largest as int);
        if largest != 0 {
            let k = choose|k: int| 0 <= k < table@.len() && table@[k] == largest;
            crate::union_find::lemma_entry_le_sum(table@, k);
            crate::labeling::lemma_occupied_count_two_state(lat0);
        }
    }
    TrialOutcome { spanned, largest }
}

/// Running sums of the average mode at one probability.
pub struct AverageTally {
    pub trials: u64,
    pub spanning: u64,
    pub size_sum: u64,
}

impl AverageTally {
    pub fn new() -> (r: AverageTally)
        ensures
            r.trials == 0,
            r.spanning == 0,
            r.size_sum == 0,
    {
        AverageTally { trials: 0, spanning: 0, size_sum: 0 }
    }

    /// Folds one trial into the sums.
    pub fn record(&mut self, outcome: &TrialOutcome)
        requires
            old(self).trials < u64::MAX,
            old(self).spanning <= old(self).trials,
            old(self).size_sum + outcome.largest <= u64::MAX,
        ensures
            final(self).trials == old(self).trials + 1,
            final(self).spanning == old(self).spanning + if outcome.spanned {
                1int
            } else {
                0int
            },
            final(self).size_sum == old(self).size_sum + outcome.largest,
    {
        self.trials = self.trials + 1;
        if outcome.spanned {
            self.spanning = self.spanning + 1;
        }
        self.size_sum = self.size_sum + outcome.largest as u64;
    }
}

/// Runs `trials` independent trials of the average mode on lattices of side `size`
/// drawn at `threshold`, and returns their sums.
pub fn run_average(rng: &mut StdRng, size: usize, trials: u32, threshold: u64) -> (r: AverageTally)
    requires
        size > 0,
        cells(size as int) + 2 <= i32::MAX,
    ensures
        r.trials == trials,
        r.spanning <= r.trials,
        r.size_sum <= r.trials * cells(size as int),
        threshold == 0 ==> r.spanning == 0 && r.size_sum == 0,
        threshold >= FULL_THRESHOLD ==> r.spanning == r.trials && r.size_sum == r.trials * cells(
            size as int,
        ),
{
    let ghost c = cells(size as int);
    let mut tally = AverageTally::new();
    let mut j: u32 = 0;
    while j < trials
        invariant
            c == cells(size as int),
            size > 0,
            c + 2 <= i32::MAX,
            j <= trials,
            tally.trials == j,
            tally.spanning <= tally.trials,
            tally.size_sum <= tally.trials * c,
            threshold == 0 ==> tally.spanning == 0 && tally.size_sum == 0,
            threshold >= FULL_THRESHOLD ==> tally.spanning == tally.trials && tally.size_sum
                == tally.trials * c,
        decreases trials - j,
    {
        let mut lattice = generate_lattice(rng, size, threshold);
        let ghost lat0 = lattice@;
        let outcome = average_trial(&mut lattice, size);
        proof {
            assert(tally.size_sum + outcome.largest <= (j + 1) * c) by (nonlinear_arith)
                requires
                    tally.size_sum <= j * c,
                    outcome.largest <= c,
            ;
            assert((j + 1) * c <= u64::MAX) by (nonlinear_arith)
                requires
                    j < u32::MAX,
                    c <= i32::MAX,
            ;
            if threshold == 0 {
                law_empty_largest(lat0, size as int, outcome.largest as int);
            }
            if threshold >= FULL_THRESHOLD {
                law_full_largest(lat0, size as int, outcome.largest as int);
                law_full_lattice_spans(lat0, size as int);
            }
        }
        tally.record(&outcome);
        proof {
            assert((j + 1) * c == j * c + c) by (nonlinear_arith);
        }
        j = j + 1;
    }
    tally
}

/// Number of entries of `s` equal to `v`.
pub open spec fn count_of(s: Seq<usize>, v: int) -> nat
    decreases s.len(),
{
    if s.len() == 0 {
        0
    } else {
        count_of(s.drop_last(), v) + if s.last() == v {
            1nat
        } else {
            0nat
        }
    }
}

pub proof fn lemma_count_of_le(s: Seq<usize>, v: int)
    ensures
        count_of(s, v) <= s.len(),
    decreases s.len(),
{
    if s.len() > 0 {
        lemma_count_of_le(s.drop_last(), v);
    }
}

pub proof fn lemma_live_bounds(t: Seq<i32>)
    ensures
        live_sizes_of(t).len() <= sum_sizes(t),
        forall|k: int|
            0 <= k < live_sizes_of(t).len() ==> 1 <= #[trigger] live_sizes_of(t)[k] <= sum_sizes(t),
    decreases t.len(),
{
    if t.len() > 0 {
        let d = t.drop_last();
        lemma_live_bounds(d);
        crate::union_find::lemma_sum_nonneg(d);
    }
}

/// One trial of the distribution mode: the size of every cluster of the lattice.
pub fn distribution_trial(lattice: &mut Vec<usize>, size: usize) -> (r: Vec<usize>)
    requires
        size > 0,
        old(lattice)@.len() == cells(size as int),
        cells(size as int) + 2 <= i32::MAX,
        two_state(old(lattice)@),
    ensures
        exists|labels: Seq<usize>, table: Seq<i32>|
            labels_clusters(old(lattice)@, size as int, labels, table) && r@ == live_sizes_of(
                table,
            ),
        forall|s: int|
            s > 0 ==> s * #[trigger] count_of(r@, s) == sites_of_size(
                old(lattice)@,
                size as int,
                s,
                cells(size as int),
            ),
        r@.len() <= cells(size as int),
        forall|k: int| 0 <= k < r@.len() ==> 1 <= #[trigger] r@[k] <= cells(size as int),
{
    let ghost lat0 = lattice@;
    let table = hoshen_kopelman(lattice, size);
    let sizes = cluster_sizes(&table);
    proof {
        lemma_live_bounds(table@);
        crate::labeling::lemma_occupied_count_two_state(lat0);
        assert(labels_clusters(lat0, size as int, lattice@, table@));
        assert forall|s: int| s > 0 implies s * #[trigger] count_of(sizes@, s) == sites_of_size(
            lat0,
            size as int,
            s,
            cells(size as int),
        ) by {
            law_size_counts(lat0, size as int, lattice@, table@, s);
        }
    }
    sizes
}

/// Adds one to the tally of each size listed in `sizes`.
pub fn tally_sizes(dist: &mut Vec<u64>, sizes: &Vec<usize>)
    requires
        forall|k: int| 0 <= k < sizes@.len() ==> #[trigger] sizes@[k] < old(dist)@.len(),
        forall|v: int| 0 <= v < old(dist)@.len() ==> #[trigger] old(dist)@[v] + sizes@.len() <= u64::MAX,
    ensures
        final(dist)@.len() == old(dist)@.len(),
        forall|v: int|
            0 <= v < old(dist)@.len() ==> #[trigger] final(dist)@[v] == old(dist)@[v] + count_of(
                sizes@,
                v,
            ),
{
    let ghost d0 = dist@;
    let mut k: usize = 0;
    proof {
        assert(sizes@.take(0) =~= Seq::<usize>::empty());
    }
    while k < sizes.len()
        invariant
            d0 == old(dist)@,
            dist@.len() == d0.len(),
            k <= sizes@.len(),
            forall|j: int| 0 <= j < sizes@.len() ==> #[trigger] sizes@[j] < d0.len(),
            forall|v: int| 0 <= v < d0.len() ==> #[trigger] d0[v] + sizes@.len() <= u64::MAX,
            forall|v: int|
                0 <= v < d0.len() ==> #[trigger] dist@[v] == d0[v] + count_of(sizes@.take(k as int), v),
        decreases sizes@.len() - k,
    {
        let s = sizes[k];
        proof {
            assert(sizes@.take(k + 1).drop_last() =~= sizes@.take(k as int));
            lemma_count_of_le(sizes@.take(k as int), s as int);
            assert(sizes@.take(k as int).len() == k);
        }
        let old_count = dist[s];
        dist.set(s, old_count + 1);
        k += 1;
    }
    proof {
        assert(sizes@.take(sizes@.len() as int) =~= sizes@);
    }
}

/// Runs `trials` independent trials of the distribution mode on lattices of side
/// `size` drawn at `threshold`. Entry `s` of the result counts the clusters of size
/// `s` found over all trials.
pub fn run_distribution(rng: &mut StdRng, size: usize, trials: u32, threshold: u64) -> (r: Vec<u64>)
    requires
        size > 0,
        cells(size as int) + 2 <= i32::MAX,
    ensures
        r@.len() == cells(size as int) + 1,
        r@[0] == 0,
        forall|v: int| 0 <= v < r@.len() ==> #[trigger] r@[v] <= trials * cells(size as int),
        threshold == 0 ==> forall|v: int| 0 <= v < r@.len() ==> #[trigger] r@[v] == 0,
        threshold >= FULL_THRESHOLD ==> forall|v: int|
            0 <= v < r@.len() ==> #[trigger] r@[v] == if v == cells(size as int) {
                trials as int
            } else {
                0
            },
{
    let ghost c = cells(size as int);
    let total: usize = size * size;
    let mut dist: Vec<u64> = Vec::new();
    while dist.len() <= total
        invariant
            total == c,
            c + 2 <= i32::MAX,
            dist@.len() <= total + 1,
            forall|v: int| 0 <= v < dist@.len() ==> #[trigger] dist@[v] == 0,
        decreases total + 1 - dist@.len(),
    {
        dist.push(0);
    }
    let mut j: u32 = 0;
    while j < trials
        invariant
            c == cells(size as int),
            total == c,
            size > 0,
            c + 2 <= i32::MAX,
            j <= trials,
            dist@.len() == c + 1,
            dist@[0] == 0,
            forall|v: int| 0 <= v < dist@.len() ==> #[trigger] dist@[v] <= j * c,
            threshold == 0 ==> forall|v: int| 0 <= v < dist@.len() ==> #[trigger] dist@[v] == 0,
            threshold >= FULL_THRESHOLD ==> forall|v: int|
                0 <= v < dist@.len() ==> #[trigger] dist@[v] == if v == c {
                    j as int
                } else {
                    0
                },
        decreases trials - j,
    {
        let mut lattice = generate_lattice(rng, size, threshold);
        let ghost lat0 = lattice@;
        let sizes = distribution_trial(&mut lattice, size);
        let ghost d_before = dist@;
        proof {
            assert((j + 1) * c <= u64::MAX) by (nonlinear_arith)
                requires
                    j < u32::MAX,
                    c <= i32::MAX,
            ;
            assert(j * c + c == (j + 1) * c) by (nonlinear_arith);
            let (labels, table) = choose|labels: Seq<usize>, table: Seq<i32>|
                labels_clusters(lat0, size as int, labels, table) && sizes@ == live_sizes_of(table);
            if threshold == 0 {
                crate::laws::law_empty_lattice(lat0, size as int, labels, table);
            }
            if threshold >= FULL_THRESHOLD {
                crate::laws::law_full_lattice(lat0, size as int, labels, table);
            }
        }
        tally_sizes(&mut dist, &sizes);
        proof {
            assert forall|v: int| 0 <= v < dist@.len() implies #[trigger] dist@[v] <= (j + 1) * c by {
                lemma_count_of_le(sizes@, v);
                assert(d_before[v] <= j * c);
            }
            assert(count_of(sizes@, 0) == 0) by {
                lemma_count_of_absent(sizes@, 0);
            }
            if threshold == 0 {
                assert forall|v: int| 0 <= v < dist@.len() implies #[trigger] dist@[v] == 0 by {
                    assert(sizes@ =~= Seq::<usize>::empty());
                    assert(d_before[v] == 0);
                }
            }
            if threshold >= FULL_THRESHOLD {
                assert forall|v: int| 0 <= v < dist@.len() implies #[trigger] dist@[v] == if v == c {
                    j + 1
                } else {
                    0
                } by {
                    let one = seq![c as usize];
                    assert(one.drop_last() =~= Seq::<usize>::empty());
                    assert(count_of(Seq::<usize>::empty(), v) == 0);
                    assert(count_of(one, v) == count_of(one.drop_last(), v) + if one.last() == v {
                        1nat
                    } else {
                        0nat
                    });
                    assert(count_of(one, v) == if v == c {
                        1nat
                    } else {
                        0nat
                    });
                    assert(d_before[v] == if v == c {
                        j as int
                    } else {
                        0
                    });
                }
            }
        }
        j = j + 1;
    }
    dist
}

pub proof fn lemma_count_of_absent(s: Seq<usize>, v: int)
    requires
        forall|k: int| 0 <= k < s.len() ==> #[trigger] s[k] != v,
    ensures
        count_of(s, v) == 0,
    decreases s.len(),
{
    if s.len() > 0 {
        let d = s.drop_last();
        assert forall|k: int| 0 <= k < d.len() implies #[trigger] d[k] != v by {
            assert(d[k] == s[k]);
        }
        assert(s.last() == s[s.len() - 1]);
        lemma_count_of_absent(d, v);
    }
}

} // verus!
