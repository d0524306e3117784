//! Properties that tie the spanning detector and the cluster labeller together.
use crate::burning::{burn_marks, restored, two_state, EMPTY, OCCUPIED, VISITED};
use crate::grid::{
    cells, connected, in_bottom_row, in_top_row, lemma_connected_ends,
    lemma_connected_refl, lemma_connected_step, occupied, spans,
};
use crate::labeling::{labels_clusters, live_sizes_of, occupied_count};
use crate::simulation::largest_is;
use crate::union_find::{
    count_in, lemma_entry_le_sum, lemma_root_live, lemma_two_entries_le_sum, root,
    sum_sizes, table_wf, FIRST_LABEL,
};
use vstd::prelude::*;

verus! {

/// Sum of a sequence of sizes.
pub open spec fn total_of(s: Seq<usize>) -> int
    decreases s.len(),
{
    if s.len() == 0 {
        0
    } else {
        total_of(s.drop_last()) + s.last()
    }
}

/// Number of sites among the first `m` that an occupied path joins to `x`.
pub open spec fn reach_count(lat: Seq<usize>, n: int, x: int, m: int) -> nat
    decreases m,
{
    if m <= 0 {
        0
    } else {
        reach_count(lat, n, x, m - 1) + if connected(lat, n, x, m - 1) {
            1nat
        } else {
            0nat
        }
    }
}

/// Number of sites in the cluster of `x`.
pub open spec fn cluster_size(lat: Seq<usize>, n: int, x: int) -> nat {
    reach_count(lat, n, x, lat.len() as int)
}

proof fn lemma_live_none(t: Seq<i32>)
    requires
        forall|k: int| 0 <= k < t.len() ==> #[trigger] t[k] <= 0,
    ensures
        live_sizes_of(t) == Seq::<usize>::empty(),
    decreases t.len(),
{
    if t.len() > 0 {
        let d = t.drop_last();
        assert forall|k: int| 0 <= k < d.len() implies #[trigger] d[k] <= 0 by {
            assert(d[k] == t[k]);
        }
        assert(t.last() == t[t.len() - 1]);
        lemma_live_none(d);
    }
}

proof fn lemma_live_single(t: Seq<i32>, k: int)
    requires
        0 <= k < t.len(),
        t[k] > 0,
        forall|j: int| 0 <= j < t.len() && j != k ==> #[trigger] t[j] <= 0,
    ensures
        live_sizes_of(t) == seq![t[k] as usize],
    decreases t.len(),
{
    let d = t.drop_last();
    assert(t.last() == t[t.len() - 1]);
    if k == t.len() - 1 {
        assert forall|j: int| 0 <= j < d.len() implies #[trigger] d[j] <= 0 by {
            assert(d[j] == t[j]);
        }
        lemma_live_none(d);
        assert(Seq::<usize>::empty().push(t[k] as usize) =~= seq![t[k] as usize]);
    } else {
        assert forall|j: int| 0 <= j < d.len() && j != k implies #[trigger] d[j] <= 0 by {
            assert(d[j] == t[j]);
        }
        lemma_live_single(d, k);
    }
}

proof fn lemma_total_of_live(t: Seq<i32>)
    ensures
        total_of(live_sizes_of(t)) == sum_sizes(t),
    decreases t.len(),
{
    if t.len() > 0 {
        let d = t.drop_last();
        lemma_total_of_live(d);
        if t.last() > 0 {
            assert(live_sizes_of(d).push(t.last() as usize).drop_last() =~= live_sizes_of(d));
        }
    }
}

/// In a lattice with every site occupied, every site is joined to site 0.
proof fn lemma_full_connected(lat: Seq<usize>, n: int, x: int)
    requires
        n > 0,
        lat.len() == cells(n),
        forall|i: int| 0 <= i < lat.len() ==> #[trigger] lat[i] == OCCUPIED,
        0 <= x < cells(n),
    ensures
        connected(lat, n, 0, x),
    decreases x,
{
    if x == 0 {
        lemma_connected_refl(lat, n, 0);
    } else {
        crate::grid::lemma_mod_step(x - 1, n);
        if x % n != 0 {
            lemma_full_connected(lat, n, x - 1);
            lemma_connected_step(lat, n, 0, x - 1, x);
        } else {
            assert(x >= n) by {
                if x < n {
                    vstd::arithmetic::div_mod::lemma_small_mod(x as nat, n as nat);
                }
            }
            lemma_full_connected(lat, n, x - n);
            lemma_connected_step(lat, n, 0, x - n, x);
        }
    }
}

proof fn lemma_count_all(labels: Seq<usize>, t: Seq<i32>, k: int)
    requires
        forall|i: int|
            0 <= i < labels.len() ==> #[trigger] labels[i] >= FIRST_LABEL && root(
                t,
                labels[i] as int,
            ) == k,
    ensures
        count_in(labels, t, k) == labels.len(),
    decreases labels.len(),
{
    if labels.len() > 0 {
        let d = labels.drop_last();
        assert forall|i: int| 0 <= i < d.len() implies #[trigger] d[i] >= FIRST_LABEL && root(
            t,
            d[i] as int,
        ) == k by {
            assert(d[i] == labels[i]);
        }
        assert(labels.last() == labels[labels.len() - 1]);
        lemma_count_all(d, t, k);
    }
}

/// An empty lattice does not span and holds no cluster.
pub proof fn law_empty_lattice(lat: Seq<usize>, n: int, labels: Seq<usize>, table: Seq<i32>)
    requires
        n > 0,
        lat.len() == cells(n),
        forall|i: int| 0 <= i < lat.len() ==> #[trigger] lat[i] == EMPTY,
        labels_clusters(lat, n, labels, table),
    ensures
        !spans(lat, n),
        live_sizes_of(table) == Seq::<usize>::empty(),
{
    if spans(lat, n) {
        let (a, b) = choose|a: int, b: int|
            in_top_row(n, a) && in_bottom_row(n, b) && #[trigger] connected(lat, n, a, b);
        lemma_connected_ends(lat, n, a, b);
    }
    assert(occupied_count(lat) == 0) by {
        lemma_occupied_count_zero(lat);
    }
    assert forall|k: int| 0 <= k < table.len() implies #[trigger] table[k] <= 0 by {
        lemma_entry_le_sum(table, k);
    }
    lemma_live_none(table);
}

proof fn lemma_occupied_count_zero(s: Seq<usize>)
    requires
        forall|i: int| 0 <= i < s.len() ==> #[trigger] s[i] == EMPTY,
    ensures
        occupied_count(s) == 0,
    decreases s.len(),
{
    if s.len() > 0 {
        let d = s.drop_last();
        assert forall|i: int| 0 <= i < d.len() implies #[trigger] d[i] == EMPTY by {
            assert(d[i] == s[i]);
        }
        assert(s.last() == s[s.len() - 1]);
        lemma_occupied_count_zero(d);
    }
}

/// A fully occupied lattice spans and is one cluster of all `n * n` sites.
pub proof fn law_full_lattice(lat: Seq<usize>, n: int, labels: Seq<usize>, table: Seq<i32>)
    requires
        n > 0,
        lat.len() == cells(n),
        forall|i: int| 0 <= i < lat.len() ==> #[trigger] lat[i] == OCCUPIED,
        labels_clusters(lat, n, labels, table),
    ensures
        spans(lat, n),
        live_sizes_of(table) == seq![cells(n) as usize],
{
    law_full_lattice_spans(lat, n);
    assert(cells(n) > 0) by (nonlinear_arith)
        requires
            n > 0,
    ;
    assert(occupied(lat, 0));
    let k = root(table, labels[0] as int);
    assert forall|i: int| 0 <= i < labels.len() implies #[trigger] labels[i] >= FIRST_LABEL && root(
        table,
        labels[i] as int,
    ) == k by {
        assert(lat[i] == OCCUPIED);
        assert(occupied(lat, i));
        lemma_full_connected(lat, n, i);
        assert(connected(lat, n, 0, i));
    }
    lemma_count_all(labels, table, k);
    lemma_root_live(table, labels[0] as int);
    assert(table[k] == cells(n));
    assert(two_state(lat));
    crate::labeling::lemma_occupied_count_two_state(lat);
    assert forall|j: int| 0 <= j < table.len() && j != k implies #[trigger] table[j] <= 0 by {
        lemma_two_entries_le_sum(table, k, j);
    }
    lemma_live_single(table, k);
}

/// The cluster sizes add up to the number of occupied sites.
pub proof fn law_sizes_add_up(lat: Seq<usize>, n: int, labels: Seq<usize>, table: Seq<i32>)
    requires
        labels_clusters(lat, n, labels, table),
    ensures
        total_of(live_sizes_of(table)) == occupied_count(lat),
{
    lemma_total_of_live(table);
}

/// The lattice spans exactly when one cluster holds a site of the first row and a site
/// of the last row.
pub proof fn law_spanning_matches_clusters(
    lat: Seq<usize>,
    n: int,
    labels: Seq<usize>,
    table: Seq<i32>,
)
    requires
        labels_clusters(lat, n, labels, table),
    ensures
        spans(lat, n) <==> exists|a: int, b: int|
            in_top_row(n, a) && in_bottom_row(n, b) && occupied(lat, a) && occupied(lat, b) && root(
                table,
                #[trigger] labels[a] as int,
            ) == root(table, #[trigger] labels[b] as int),
{
    if spans(lat, n) {
        let (a, b) = choose|a: int, b: int|
            in_top_row(n, a) && in_bottom_row(n, b) && #[trigger] connected(lat, n, a, b);
        lemma_connected_ends(lat, n, a, b);
        assert(root(table, labels[a] as int) == root(table, labels[b] as int));
    }
    if exists|a: int, b: int|
        in_top_row(n, a) && in_bottom_row(n, b) && occupied(lat, a) && occupied(lat, b) && root(
            table,
            #[trigger] labels[a] as int,
        ) == root(table, #[trigger] labels[b] as int) {
        let (a, b) = choose|a: int, b: int|
            in_top_row(n, a) && in_bottom_row(n, b) && occupied(lat, a) && occupied(lat, b) && root(
                table,
                #[trigger] labels[a] as int,
            ) == root(table, #[trigger] labels[b] as int);
        assert(connected(lat, n, a, b));
    }
}

proof fn lemma_reach_count(lat: Seq<usize>, n: int, labels: Seq<usize>, table: Seq<i32>, x: int, m: int)
    requires
        labels_clusters(lat, n, labels, table),
        occupied(lat, x),
        0 <= m <= lat.len(),
    ensures
        count_in(labels.take(m), table, root(table, labels[x] as int)) == reach_count(lat, n, x, m),
    decreases m,
{
    let k = root(table, labels[x] as int);
    if m > 0 {
        assert(labels.take(m).drop_last() =~= labels.take(m - 1));
        lemma_reach_count(lat, n, labels, table, x, m - 1);
        let y = m - 1;
        assert(labels.take(m).last() == labels[y]);
        if lat[y] == EMPTY {
            assert(labels[y] == EMPTY);
            if connected(lat, n, x, y) {
                lemma_connected_ends(lat, n, x, y);
            }
        } else {
            assert(occupied(lat, y));
            assert(root(table, labels[x] as int) == root(table, labels[y] as int) <==> connected(
                lat,
                n,
                x,
                y,
            ));
        }
    } else {
        assert(labels.take(0) =~= Seq::<usize>::empty());
    }
}

/// The size recorded for the cluster of an occupied site is the number of sites an
/// occupied path joins to it, which depends on the lattice alone.
pub proof fn law_cluster_of_site(lat: Seq<usize>, n: int, labels: Seq<usize>, table: Seq<i32>, x: int)
    requires
        labels_clusters(lat, n, labels, table),
        occupied(lat, x),
    ensures
        table[root(table, labels[x] as int)] == cluster_size(lat, n, x),
{
    lemma_reach_count(lat, n, labels, table, x, lat.len() as int);
    assert(labels.take(lat.len() as int) =~= labels);
    lemma_root_live(table, labels[x] as int);
}

/// Burning then resetting gives back the lattice as it was generated, so the labeller
/// sees the same sites after a spanning check as without one.
pub proof fn law_reset_restores(before: Seq<usize>, after: Seq<usize>)
    requires
        two_state(before),
        burn_marks(before, after),
    ensures
        restored(after) == before,
{
    assert forall|i: int| 0 <= i < before.len() implies #[trigger] restored(after)[i] == before[i] by {
        assert(after[i] == before[i] || (before[i] == OCCUPIED && after[i] == VISITED));
        assert(before[i] <= OCCUPIED);
    }
    assert(restored(after) =~= before);
}

/// A fully occupied lattice spans.
pub proof fn law_full_lattice_spans(lat: Seq<usize>, n: int)
    requires
        n > 0,
        lat.len() == cells(n),
        forall|i: int| 0 <= i < lat.len() ==> #[trigger] lat[i] == OCCUPIED,
    ensures
        spans(lat, n),
{
    assert(cells(n) >= n) by (nonlinear_arith)
        requires
            n > 0,
    ;
    let b = cells(n) - n;
    lemma_full_connected(lat, n, b);
    assert(in_top_row(n, 0) && in_bottom_row(n, b));
}

/// An empty lattice does not span, and its largest cluster has size 0.
pub proof fn law_empty_largest(lat: Seq<usize>, n: int, m: int)
    requires
        forall|i: int| 0 <= i < lat.len() ==> #[trigger] lat[i] == EMPTY,
        largest_is(lat, n, m),
    ensures
        !spans(lat, n),
        m == 0,
{
    if spans(lat, n) {
        let (a, b) = choose|a: int, b: int|
            in_top_row(n, a) && in_bottom_row(n, b) && #[trigger] connected(lat, n, a, b);
        lemma_connected_ends(lat, n, a, b);
    }
    if m != 0 {
        let x = choose|x: int| occupied(lat, x) && #[trigger] cluster_size(lat, n, x) == m;
        assert(lat[x] == EMPTY);
    }
}

proof fn lemma_reach_count_bound(lat: Seq<usize>, n: int, x: int, m: int)
    requires
        0 <= m,
    ensures
        reach_count(lat, n, x, m) <= m,
    decreases m,
{
    if m > 0 {
        lemma_reach_count_bound(lat, n, x, m - 1);
    }
}

proof fn lemma_reach_count_all(lat: Seq<usize>, n: int, x: int, m: int)
    requires
        0 <= m,
        forall|y: int| 0 <= y < m ==> #[trigger] connected(lat, n, x, y),
    ensures
        reach_count(lat, n, x, m) == m,
    decreases m,
{
    if m > 0 {
        assert(connected(lat, n, x, m - 1));
        lemma_reach_count_all(lat, n, x, m - 1);
    }
}

/// In a fully occupied lattice the largest cluster holds all `n * n` sites.
pub proof fn law_full_largest(lat: Seq<usize>, n: int, m: int)
    requires
        n > 0,
        lat.len() == cells(n),
        forall|i: int| 0 <= i < lat.len() ==> #[trigger] lat[i] == OCCUPIED,
        largest_is(lat, n, m),
    ensures
        m == cells(n),
{
    assert forall|y: int| 0 <= y < cells(n) implies #[trigger] connected(lat, n, 0, y) by {
        lemma_full_connected(lat, n, y);
    }
    lemma_reach_count_all(lat, n, 0, cells(n));
    assert(cells(n) > 0) by (nonlinear_arith)
        requires
            n > 0,
    ;
    assert(occupied(lat, 0));
    assert(cluster_size(lat, n, 0) <= m);
    let x = choose|x: int| occupied(lat, x) && #[trigger] cluster_size(lat, n, x) == m;
    lemma_reach_count_bound(lat, n, x, cells(n));
}

/// Number of occupied sites among the first `m` whose cluster has `s` sites.
pub open spec fn sites_of_size(lat: Seq<usize>, n: int, s: int, m: int) -> nat
    decreases m,
{
    if m <= 0 {
        0
    } else {
        sites_of_size(lat, n, s, m - 1) + if occupied(lat, m - 1) && cluster_size(lat, n, m - 1)
            == s {
            1nat
        } else {
            0nat
        }
    }
}

/// Number of labelled sites among the first `m` whose live entry is `s`.
spec fn labelled_of_size(labels: Seq<usize>, t: Seq<i32>, s: int, m: int) -> nat
    decreases m,
{
    if m <= 0 {
        0
    } else {
        labelled_of_size(labels, t, s, m - 1) + if labels[m - 1] >= FIRST_LABEL && t[root(
            t,
            labels[m - 1] as int,
        )] == s {
            1nat
        } else {
            0nat
        }
    }
}

/// Sites counted under the labels below `kk` whose entry is `s`.
spec fn root_mass(labels: Seq<usize>, t: Seq<i32>, s: int, kk: int) -> nat
    decreases kk,
{
    if kk <= 0 {
        0
    } else {
        root_mass(labels, t, s, kk - 1) + if t[kk - 1] == s {
            count_in(labels, t, kk - 1)
        } else {
            0nat
        }
    }
}

/// Number of entries below `kk` equal to `s`.
spec fn entries_equal(t: Seq<i32>, s: int, kk: int) -> nat
    decreases kk,
{
    if kk <= 0 {
        0
    } else {
        entries_equal(t, s, kk - 1) + if t[kk - 1] == s {
            1nat
        } else {
            0nat
        }
    }
}

proof fn lemma_sites_of_size(lat: Seq<usize>, n: int, labels: Seq<usize>, t: Seq<i32>, s: int, m: int)
    requires
        labels_clusters(lat, n, labels, t),
        0 <= m <= lat.len(),
    ensures
        labelled_of_size(labels, t, s, m) == sites_of_size(lat, n, s, m),
    decreases m,
{
    if m > 0 {
        lemma_sites_of_size(lat, n, labels, t, s, m - 1);
        let x = m - 1;
        if lat[x] != EMPTY {
            assert(occupied(lat, x));
            law_cluster_of_site(lat, n, labels, t, x);
        } else {
            assert(labels[x] == EMPTY);
        }
    }
}

proof fn lemma_root_mass_push(labels: Seq<usize>, v: usize, t: Seq<i32>, s: int, kk: int)
    requires
        0 <= kk,
    ensures
        root_mass(labels.push(v), t, s, kk) == root_mass(labels, t, s, kk) + if v >= FIRST_LABEL
            && 0 <= root(t, v as int) < kk && t[root(t, v as int)] == s {
            1int
        } else {
            0int
        },
    decreases kk,
{
    if kk > 0 {
        lemma_root_mass_push(labels, v, t, s, kk - 1);
        assert(labels.push(v).drop_last() =~= labels);
        assert(labels.push(v).last() == v);
    }
}

proof fn lemma_labelled_is_mass(labels: Seq<usize>, t: Seq<i32>, s: int, m: int)
    requires
        table_wf(t),
        0 <= m <= labels.len(),
        forall|x: int|
            0 <= x < labels.len() && #[trigger] labels[x] >= FIRST_LABEL ==> labels[x] < t.len(),
    ensures
        labelled_of_size(labels, t, s, m) == root_mass(labels.take(m), t, s, t.len() as int),
    decreases m,
{
    if m > 0 {
        lemma_labelled_is_mass(labels, t, s, m - 1);
        let v = labels[m - 1];
        assert(labels.take(m) =~= labels.take(m - 1).push(v));
        lemma_root_mass_push(labels.take(m - 1), v, t, s, t.len() as int);
        if v >= FIRST_LABEL {
            lemma_root_live(t, v as int);
        }
    } else {
        lemma_root_mass_empty(labels.take(0), t, s, t.len() as int);
    }
}

proof fn lemma_root_mass_empty(labels: Seq<usize>, t: Seq<i32>, s: int, kk: int)
    requires
        labels.len() == 0,
    ensures
        root_mass(labels, t, s, kk) == 0,
    decreases kk,
{
    if kk > 0 {
        lemma_root_mass_empty(labels, t, s, kk - 1);
    }
}

proof fn lemma_mass_is_entries(labels: Seq<usize>, t: Seq<i32>, s: int, kk: int)
    requires
        s > 0,
        table_wf(t),
        0 <= kk <= t.len(),
        forall|k: int|
            FIRST_LABEL <= k < t.len() && t[k] > 0 ==> t[k] == #[trigger] count_in(labels, t, k),
    ensures
        root_mass(labels, t, s, kk) == s * entries_equal(t, s, kk),
    decreases kk,
{
    if kk > 0 {
        lemma_mass_is_entries(labels, t, s, kk - 1);
        let k = kk - 1;
        if t[k] == s {
            assert(k >= FIRST_LABEL);
            assert(count_in(labels, t, k) == s);
        }
        assert(s * entries_equal(t, s, kk) == s * entries_equal(t, s, kk - 1) + if t[k] == s {
            s
        } else {
            0
        }) by (nonlinear_arith)
            requires
                entries_equal(t, s, kk) == entries_equal(t, s, kk - 1) + if t[k] == s {
                    1int
                } else {
                    0int
                },
        ;
        assert(root_mass(labels, t, s, kk) == root_mass(labels, t, s, kk - 1) + if t[k] == s {
            count_in(labels, t, k)
        } else {
            0nat
        });
    } else {
        assert(s * entries_equal(t, s, kk) == 0) by (nonlinear_arith)
            requires
                entries_equal(t, s, kk) == 0,
        ;
    }
}

proof fn lemma_entries_prefix(t: Seq<i32>, d: Seq<i32>, s: int, kk: int)
    requires
        0 <= kk <= d.len(),
        d.len() <= t.len(),
        forall|k: int| 0 <= k < d.len() ==> #[trigger] d[k] == t[k],
    ensures
        entries_equal(t, s, kk) == entries_equal(d, s, kk),
    decreases kk,
{
    if kk > 0 {
        lemma_entries_prefix(t, d, s, kk - 1);
        assert(d[kk - 1] == t[kk - 1]);
    }
}

proof fn lemma_live_count(t: Seq<i32>, s: int)
    requires
        s > 0,
    ensures
        crate::simulation::count_of(live_sizes_of(t), s) == entries_equal(t, s, t.len() as int),
    decreases t.len(),
{
    if t.len() > 0 {
        let d = t.drop_last();
        lemma_live_count(d, s);
        lemma_entries_prefix(t, d, s, d.len() as int);
        assert(t.last() == t[t.len() - 1]);
        if t.last() > 0 {
            let l = live_sizes_of(d).push(t.last() as usize);
            assert(l.drop_last() =~= live_sizes_of(d));
            assert(l.last() == t.last() as usize);
        }
    }
}

/// Each size `s` is listed as many times as `s` divides the number of sites lying in
/// clusters of `s` sites: the list of sizes depends on the lattice alone.
pub proof fn law_size_counts(lat: Seq<usize>, n: int, labels: Seq<usize>, table: Seq<i32>, s: int)
    requires
        labels_clusters(lat, n, labels, table),
        s > 0,
    ensures
        s * crate::simulation::count_of(live_sizes_of(table), s) == sites_of_size(
            lat,
            n,
            s,
            lat.len() as int,
        ),
{
    lemma_sites_of_size(lat, n, labels, table, s, lat.len() as int);
    lemma_labelled_is_mass(labels, table, s, labels.len() as int);
    assert(labels.take(labels.len() as int) =~= labels);
    lemma_mass_is_entries(labels, table, s, table.len() as int);
    lemma_live_count(table, s);
}

/// Two labellings of one lattice list every cluster size equally often.
pub proof fn law_sizes_deterministic(
    lat: Seq<usize>,
    n: int,
    labels1: Seq<usize>,
    table1: Seq<i32>,
    labels2: Seq<usize>,
    table2: Seq<i32>,
    s: int,
)
    requires
        labels_clusters(lat, n, labels1, table1),
        labels_clusters(lat, n, labels2, table2),
    ensures
        crate::simulation::count_of(live_sizes_of(table1), s) == crate::simulation::count_of(
            live_sizes_of(table2),
            s,
        ),
{
    if s > 0 {
        law_size_counts(lat, n, labels1, table1, s);
        law_size_counts(lat, n, labels2, table2, s);
        let c1 = crate::simulation::count_of(live_sizes_of(table1), s);
        let c2 = crate::simulation::count_of(live_sizes_of(table2), s);
        assert(c1 == c2) by (nonlinear_arith)
            requires
                s > 0,
                s * c1 == s * c2,
        ;
    } else {
        crate::simulation::lemma_live_bounds(table1);
        crate::simulation::lemma_live_bounds(table2);
        crate::simulation::lemma_count_of_absent(live_sizes_of(table1), s);
        crate::simulation::lemma_count_of_absent(live_sizes_of(table2), s);
    }
}

} // verus!
