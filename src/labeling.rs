use crate::burning::{lemma_unburnt_update, two_state, unburnt, EMPTY, OCCUPIED};
use crate::grid::{
    adjacent, cells, connected, is_path, lemma_connected_join, lemma_connected_refl,
    lemma_connected_step, lemma_mod_step, linked, occupied,
};
use crate::union_find::{
    count_in, find_root_compress, lemma_count_fold, lemma_count_none, lemma_count_relabel,
    lemma_count_same_roots, lemma_entry_le_sum, lemma_root_live, lemma_root_push,
    lemma_root_redirect, lemma_root_resize, lemma_sum_push, lemma_sum_update,
    lemma_two_entries_le_sum, live_part, root, sum_sizes, table_wf, FIRST_LABEL,
};
use vstd::prelude::*;

verus! {

/// Number of occupied sites.
pub open spec fn occupied_count(s: Seq<usize>) -> nat
    decreases s.len(),
{
    if s.len() == 0 {
        0
    } else {
        occupied_count(s.drop_last()) + if s.last() != EMPTY {
            1nat
        } else {
            0nat
        }
    }
}

/// `labels` and `table` describe the clusters of `lat` exactly: every occupied site
/// carries a label, two occupied sites share a live label exactly when an occupied
/// path joins them, each live entry of the table is the number of sites of its
/// cluster, and the live entries add up to the number of occupied sites.
pub open spec fn labels_clusters(lat: Seq<usize>, n: int, labels: Seq<usize>, table: Seq<i32>) -> bool {
    &&& table_wf(table)
    &&& labels.len() == lat.len()
    &&& forall|x: int|
        0 <= x < lat.len() ==> (lat[x] == EMPTY && #[trigger] labels[x] == EMPTY) || (lat[x]
            != EMPTY && FIRST_LABEL <= labels[x] < table.len())
    &&& forall|x: int, y: int|
        #![trigger connected(lat, n, x, y)]
        #![trigger root(table, labels[x] as int), root(table, labels[y] as int)]
        occupied(lat, x) && occupied(lat, y) ==> (root(table, labels[x] as int) == root(
            table,
            labels[y] as int,
        ) <==> connected(lat, n, x, y))
    &&& forall|k: int|
        FIRST_LABEL <= k < table.len() && table[k] > 0 ==> table[k] == #[trigger] count_in(
            labels,
            table,
            k,
        )
    &&& sum_sizes(table) == occupied_count(lat)
}

/// What holds after the scan has labelled the sites before `i`.
pub open spec fn scan_inv(lat: Seq<usize>, n: int, i: int, lab: Seq<usize>, t: Seq<i32>) -> bool {
    &&& n > 0
    &&& lat.len() == cells(n)
    &&& cells(n) + 2 <= i32::MAX
    &&& two_state(lat)
    &&& 0 <= i <= cells(n)
    &&& lab.len() == cells(n)
    &&& table_wf(t)
    &&& t.len() <= i + 2
    &&& forall|x: int| i <= x < cells(n) ==> #[trigger] lab[x] == lat[x]
    &&& forall|x: int|
        0 <= x < i ==> (lat[x] == EMPTY && #[trigger] lab[x] == EMPTY) || (lat[x] != EMPTY
            && FIRST_LABEL <= lab[x] < t.len())
    &&& forall|x: int, y: int|
        #![trigger root(t, lab[x] as int), root(t, lab[y] as int)]
        0 <= x < i && 0 <= y < i && lat[x] != EMPTY && lat[y] != EMPTY && root(t, lab[x] as int)
            == root(t, lab[y] as int) ==> connected(lat, n, x, y)
    &&& forall|x: int, y: int|
        0 <= x < i && 0 <= y < i && lat[x] != EMPTY && lat[y] != EMPTY && #[trigger] adjacent(
            n,
            x,
            y,
        ) ==> root(t, lab[x] as int) == root(t, lab[y] as int)
    &&& forall|k: int|
        FIRST_LABEL <= k < t.len() && t[k] > 0 ==> t[k] == #[trigger] count_in(lab, t, k)
    &&& sum_sizes(t) + unburnt(lab) == occupied_count(lat)
}

pub proof fn lemma_occupied_count_two_state(s: Seq<usize>)
    requires
        two_state(s),
    ensures
        occupied_count(s) == unburnt(s),
        occupied_count(s) <= s.len(),
    decreases s.len(),
{
    if s.len() > 0 {
        let d = s.drop_last();
        assert(two_state(d)) by {
            assert forall|i: int| 0 <= i < d.len() implies #[trigger] d[i] <= OCCUPIED by {
                assert(d[i] == s[i]);
            }
        }
        assert(s.last() == s[s.len() - 1]);
        lemma_occupied_count_two_state(d);
    }
}

proof fn lemma_unburnt_none(s: Seq<usize>)
    requires
        forall|i: int| 0 <= i < s.len() ==> #[trigger] s[i] != OCCUPIED,
    ensures
        unburnt(s) == 0,
    decreases s.len(),
{
    if s.len() > 0 {
        let d = s.drop_last();
        assert forall|i: int| 0 <= i < d.len() implies #[trigger] d[i] != OCCUPIED by {
            assert(d[i] == s[i]);
        }
        assert(s.last() == s[s.len() - 1]);
        lemma_unburnt_none(d);
    }
}

/// The only earlier sites that touch `i` are its left and upper neighbours.
proof fn lemma_earlier_neighbors(n: int, i: int, x: int)
    requires
        n > 0,
        0 <= i < cells(n),
    ensures
        (0 <= x < i && adjacent(n, x, i)) <==> ((i % n != 0 && x == i - 1) || (i >= n && x == i
            - n)),
{
    if i > 0 {
        lemma_mod_step(i - 1, n);
    } else {
        assert(0int % n == 0);
    }
    if i >= n {
        assert(cells(n) >= n) by (nonlinear_arith)
            requires
                n > 0,
        ;
    }
}

/// Once every site is scanned, the labels and the table describe the clusters.
proof fn lemma_scan_done(lat: Seq<usize>, n: int, lab: Seq<usize>, t: Seq<i32>)
    requires
        scan_inv(lat, n, cells(n), lab, t),
    ensures
        labels_clusters(lat, n, lab, t),
{
    assert forall|x: int, y: int|
        #![trigger connected(lat, n, x, y)]
        #![trigger root(t, lab[x] as int), root(t, lab[y] as int)]
        occupied(lat, x) && occupied(lat, y) implies (root(t, lab[x] as int) == root(
            t,
            lab[y] as int,
        ) <==> connected(lat, n, x, y)) by {
        if connected(lat, n, x, y) {
            let p = choose|p: Seq<int>| #[trigger] is_path(lat, n, p) && p[0] == x && p.last() == y;
            lemma_path_same_root(lat, n, lab, t, p, p.len() - 1);
        }
    }
    assert forall|i: int| 0 <= i < lab.len() implies #[trigger] lab[i] != OCCUPIED by {
        assert(lab[i] == EMPTY || lab[i] >= FIRST_LABEL);
    }
    lemma_unburnt_none(lab);
}

/// Along an occupied path all sites end at one label.
proof fn lemma_path_same_root(
    lat: Seq<usize>,
    n: int,
    lab: Seq<usize>,
    t: Seq<i32>,
    p: Seq<int>,
    k: int,
)
    requires
        scan_inv(lat, n, cells(n), lab, t),
        is_path(lat, n, p),
        0 <= k < p.len(),
    ensures
        root(t, lab[p[0]] as int) == root(t, lab[p[k]] as int),
    decreases k,
{
    if k > 0 {
        lemma_path_same_root(lat, n, lab, t, p, k - 1);
        assert(linked(n, p, k - 1));
        assert(occupied(lat, p[k - 1]));
        assert(occupied(lat, p[k]));
        assert(adjacent(n, p[k - 1], p[k]));
    }
}

/// An empty site is passed over.
proof fn lemma_scan_empty(lat: Seq<usize>, n: int, i: int, lab: Seq<usize>, t: Seq<i32>)
    requires
        scan_inv(lat, n, i, lab, t),
        i < cells(n),
        lat[i] == EMPTY,
    ensures
        scan_inv(lat, n, i + 1, lab, t),
{
    assert(lab[i] == lat[i]);
}

/// An occupied site with no labelled earlier neighbour opens a new cluster.
proof fn lemma_scan_new(lat: Seq<usize>, n: int, i: int, lab: Seq<usize>, t: Seq<i32>)
    requires
        scan_inv(lat, n, i, lab, t),
        i < cells(n),
        lat[i] != EMPTY,
        i % n != 0 ==> lab[i - 1] == EMPTY,
        i >= n ==> lab[i - n] == EMPTY,
    ensures
        scan_inv(lat, n, i + 1, lab.update(i, t.len() as usize), t.push(1)),
{
    let id = t.len() as int;
    let lab2 = lab.update(i, id as usize);
    let t2 = t.push(1);
    assert(lab[i] == lat[i]);
    assert(lat[i] == OCCUPIED);
    assert(t2[id] == 1);
    assert(root(t2, id) == id);
    assert forall|x: int| 0 <= x < id implies root(t2, x) == root(t, x) by {
        lemma_root_push(t, 1, x);
    }
    assert forall|x: int| 0 <= x < i && lat[x] != EMPTY implies root(t2, lab2[x] as int) == root(
        t,
        lab[x] as int,
    ) && root(t, lab[x] as int) < id by {
        assert(lab[x] < id);
        lemma_root_live(t, lab[x] as int);
    }
    assert(table_wf(t2)) by {
        assert forall|k: int| FIRST_LABEL <= k < t2.len() implies #[trigger] t2[k] != 0 && (t2[k]
            < 0 ==> FIRST_LABEL <= -t2[k] < k) by {
            if k < id {
                assert(t2[k] == t[k]);
            }
        }
    }
    assert forall|x: int, y: int|
        #![trigger root(t2, lab2[x] as int), root(t2, lab2[y] as int)]
        0 <= x < i + 1 && 0 <= y < i + 1 && lat[x] != EMPTY && lat[y] != EMPTY && root(
            t2,
            lab2[x] as int,
        ) == root(t2, lab2[y] as int) implies connected(lat, n, x, y) by {
        if x == i && y == i {
            lemma_connected_refl(lat, n, i);
        } else if x < i && y < i {
            assert(root(t, lab[x] as int) == root(t, lab[y] as int));
        }
    }
    assert forall|x: int, y: int|
        0 <= x < i + 1 && 0 <= y < i + 1 && lat[x] != EMPTY && lat[y] != EMPTY
            && #[trigger] adjacent(n, x, y) implies root(t2, lab2[x] as int) == root(
        t2,
        lab2[y] as int,
    ) by {
        if x == i && y < i {
            lemma_earlier_neighbors(n, i, y);
        } else if y == i && x < i {
            lemma_earlier_neighbors(n, i, x);
        } else if x < i && y < i {
            assert(root(t, lab[x] as int) == root(t, lab[y] as int));
        }
    }
    assert forall|k: int| FIRST_LABEL <= k < t2.len() && t2[k] > 0 implies t2[k]
        == #[trigger] count_in(lab2, t2, k) by {
        lemma_count_relabel(lab, t2, i, id as usize, k);
        if k < id {
            assert forall|x: int| 0 <= x < lab.len() && #[trigger] lab[x] >= FIRST_LABEL implies root(
                t2,
                lab[x] as int,
            ) == root(t, lab[x] as int) by {
                assert(x < i);
            }
            lemma_count_same_roots(lab, t, t2, k);
            assert(t2[k] == t[k]);
        } else {
            assert forall|x: int| 0 <= x < lab.len() && #[trigger] lab[x] >= FIRST_LABEL implies root(
                t2,
                lab[x] as int,
            ) != k by {
                assert(x < i);
            }
            lemma_count_none(lab, t2, k);
        }
    }
    lemma_sum_push(t, 1);
    lemma_unburnt_update(lab, i, id as usize);
}

/// Before the site `i` is labelled, live sizes leave room for one more site.
proof fn lemma_scan_room(lat: Seq<usize>, n: int, i: int, lab: Seq<usize>, t: Seq<i32>, a: int, b: int)
    requires
        scan_inv(lat, n, i, lab, t),
        i < cells(n),
        lat[i] != EMPTY,
        0 <= a < t.len(),
        0 <= b < t.len(),
    ensures
        a != b ==> live_part(t[a]) + live_part(t[b]) + 1 <= cells(n),
        live_part(t[a]) + 1 <= cells(n),
{
    assert(lab[i] == lat[i]);
    lemma_unburnt_update(lab, i, EMPTY);
    lemma_occupied_count_two_state(lat);
    lemma_entry_le_sum(t, a);
    if a != b {
        lemma_two_entries_le_sum(t, a, b);
    }
}

/// An occupied site whose labelled earlier neighbours all end at `r` joins cluster `r`.
proof fn lemma_scan_join(
    lat: Seq<usize>,
    n: int,
    i: int,
    lab: Seq<usize>,
    t: Seq<i32>,
    nb: int,
    r: int,
)
    requires
        scan_inv(lat, n, i, lab, t),
        i < cells(n),
        lat[i] != EMPTY,
        0 <= nb < i,
        adjacent(n, nb, i),
        lat[nb] != EMPTY,
        r == root(t, lab[nb] as int),
        forall|x: int|
            0 <= x < i && #[trigger] adjacent(n, x, i) && lat[x] != EMPTY ==> root(t, lab[x] as int)
                == r,
    ensures
        FIRST_LABEL <= r < t.len(),
        t[r] + 1 <= i32::MAX,
        scan_inv(lat, n, i + 1, lab.update(i, r as usize), t.update(r, (t[r] + 1) as i32)),
{
    lemma_root_live(t, lab[nb] as int);
    lemma_scan_room(lat, n, i, lab, t, r, r);
    let v = (t[r] + 1) as i32;
    let lab2 = lab.update(i, r as usize);
    let t2 = t.update(r, v);
    assert(lab[i] == lat[i]);
    assert(lat[i] == OCCUPIED);
    assert forall|x: int| 0 <= x < t.len() implies root(t2, x) == root(t, x) by {
        lemma_root_resize(t, r, v, x);
    }
    assert(root(t, r) == r);
    assert(table_wf(t2)) by {
        assert forall|k: int| FIRST_LABEL <= k < t2.len() implies #[trigger] t2[k] != 0 && (t2[k]
            < 0 ==> FIRST_LABEL <= -t2[k] < k) by {
            if k != r {
                assert(t2[k] == t[k]);
            }
        }
    }
    assert forall|x: int| 0 <= x < i && lat[x] != EMPTY implies root(t2, lab2[x] as int) == root(
        t,
        lab[x] as int,
    ) by {
        assert(lab2[x] == lab[x]);
    }
    assert(root(t2, lab2[i] as int) == r);
    assert forall|x: int, y: int|
        #![trigger root(t2, lab2[x] as int), root(t2, lab2[y] as int)]
        0 <= x < i + 1 && 0 <= y < i + 1 && lat[x] != EMPTY && lat[y] != EMPTY && root(
            t2,
            lab2[x] as int,
        ) == root(t2, lab2[y] as int) implies connected(lat, n, x, y) by {
        if x == i && y == i {
            lemma_connected_refl(lat, n, i);
        } else if x < i && y < i {
            assert(root(t, lab[x] as int) == root(t, lab[y] as int));
        } else if x == i {
            assert(root(t, lab[y] as int) == root(t, lab[nb] as int));
            assert(connected(lat, n, nb, y));
            lemma_connected_refl(lat, n, i);
            lemma_connected_step(lat, n, i, i, nb);
            lemma_connected_join(lat, n, i, nb, y);
        } else {
            assert(root(t, lab[x] as int) == root(t, lab[nb] as int));
            assert(connected(lat, n, x, nb));
            lemma_connected_step(lat, n, x, nb, i);
        }
    }
    assert forall|x: int, y: int|
        0 <= x < i + 1 && 0 <= y < i + 1 && lat[x] != EMPTY && lat[y] != EMPTY
            && #[trigger] adjacent(n, x, y) implies root(t2, lab2[x] as int) == root(
        t2,
        lab2[y] as int,
    ) by {
        if x == i && y < i {
            assert(adjacent(n, y, i));
        } else if y == i && x < i {
            assert(adjacent(n, x, i));
        } else if x < i && y < i {
            assert(root(t, lab[x] as int) == root(t, lab[y] as int));
        }
    }
    assert forall|k: int| FIRST_LABEL <= k < t2.len() && t2[k] > 0 implies t2[k]
        == #[trigger] count_in(lab2, t2, k) by {
        lemma_count_relabel(lab, t2, i, r as usize, k);
        assert forall|x: int| 0 <= x < lab.len() && #[trigger] lab[x] >= FIRST_LABEL implies root(
            t2,
            lab[x] as int,
        ) == root(t, lab[x] as int) by {
            assert(x < i);
        }
        lemma_count_same_roots(lab, t, t2, k);
        if k != r {
            assert(t2[k] == t[k]);
        }
    }
    lemma_sum_update(t, r, v);
    lemma_unburnt_update(lab, i, r as usize);
}

/// An occupied site between two clusters `a` and `b` (the older) joins them: `b` is
/// folded into `a` and redirected there.
proof fn lemma_scan_merge(
    lat: Seq<usize>,
    n: int,
    i: int,
    lab: Seq<usize>,
    t: Seq<i32>,
    na: int,
    nb: int,
    a: int,
    b: int,
)
    requires
        scan_inv(lat, n, i, lab, t),
        i < cells(n),
        lat[i] != EMPTY,
        0 <= na < i,
        adjacent(n, na, i),
        lat[na] != EMPTY,
        a == root(t, lab[na] as int),
        0 <= nb < i,
        adjacent(n, nb, i),
        lat[nb] != EMPTY,
        b == root(t, lab[nb] as int),
        a < b,
        forall|x: int|
            0 <= x < i && #[trigger] adjacent(n, x, i) && lat[x] != EMPTY ==> root(t, lab[x] as int)
                == a || root(t, lab[x] as int) == b,
    ensures
        FIRST_LABEL <= a < b < t.len(),
        t[a] + t[b] + 1 <= i32::MAX,
        a <= i32::MAX,
        scan_inv(
            lat,
            n,
            i + 1,
            lab.update(i, a as usize),
            t.update(a, (t[a] + t[b] + 1) as i32).update(b, -a as i32),
        ),
{
    lemma_root_live(t, lab[na] as int);
    lemma_root_live(t, lab[nb] as int);
    lemma_scan_room(lat, n, i, lab, t, a, b);
    let v = (t[a] + t[b] + 1) as i32;
    let lab2 = lab.update(i, a as usize);
    let t1 = t.update(a, v);
    let t2 = t1.update(b, -a as i32);
    assert(lab[i] == lat[i]);
    assert(lat[i] == OCCUPIED);
    assert(root(t, a) == a);
    assert(root(t, b) == b);
    assert forall|x: int| 0 <= x < t.len() implies root(t1, x) == root(t, x) by {
        lemma_root_resize(t, a, v, x);
    }
    assert(table_wf(t1)) by {
        assert forall|k: int| FIRST_LABEL <= k < t1.len() implies #[trigger] t1[k] != 0 && (t1[k]
            < 0 ==> FIRST_LABEL <= -t1[k] < k) by {
            if k != a {
                assert(t1[k] == t[k]);
            }
        }
    }
    assert forall|x: int| FIRST_LABEL <= x < t.len() implies root(t2, x) == if root(t, x) == b {
        a
    } else {
        root(t, x)
    } by {
        lemma_root_redirect(t1, a, b, x);
    }
    assert(table_wf(t2)) by {
        assert forall|k: int| FIRST_LABEL <= k < t2.len() implies #[trigger] t2[k] != 0 && (t2[k]
            < 0 ==> FIRST_LABEL <= -t2[k] < k) by {
            if k != b {
                assert(t2[k] == t1[k]);
            }
        }
    }
    assert forall|x: int| 0 <= x < i && lat[x] != EMPTY implies root(t2, lab2[x] as int) == if root(
        t,
        lab[x] as int,
    ) == b {
        a
    } else {
        root(t, lab[x] as int)
    } by {
        assert(lab2[x] == lab[x]);
    }
    assert(root(t2, lab2[i] as int) == a);
    assert(connected(lat, n, na, i)) by {
        lemma_connected_refl(lat, n, na);
        lemma_connected_step(lat, n, na, na, i);
    }
    assert(connected(lat, n, i, nb)) by {
        lemma_connected_refl(lat, n, i);
        lemma_connected_step(lat, n, i, i, nb);
    }
    assert(connected(lat, n, nb, i)) by {
        lemma_connected_refl(lat, n, nb);
        lemma_connected_step(lat, n, nb, nb, i);
    }
    assert(connected(lat, n, i, na)) by {
        lemma_connected_refl(lat, n, i);
        lemma_connected_step(lat, n, i, i, na);
    }
    assert forall|x: int|
        0 <= x < i && lat[x] != EMPTY && root(t2, lab2[x] as int) == a implies connected(
        lat,
        n,
        x,
        i,
    ) && connected(lat, n, i, x) by {
        if root(t, lab[x] as int) == a {
            assert(root(t, lab[x] as int) == root(t, lab[na] as int));
            assert(connected(lat, n, x, na));
            assert(connected(lat, n, na, x));
            lemma_connected_join(lat, n, x, na, i);
            lemma_connected_join(lat, n, i, na, x);
        } else {
            assert(root(t, lab[x] as int) == root(t, lab[nb] as int));
            assert(connected(lat, n, x, nb));
            assert(connected(lat, n, nb, x));
            lemma_connected_join(lat, n, x, nb, i);
            lemma_connected_join(lat, n, i, nb, x);
        }
    }
    assert forall|x: int, y: int|
        #![trigger root(t2, lab2[x] as int), root(t2, lab2[y] as int)]
        0 <= x < i + 1 && 0 <= y < i + 1 && lat[x] != EMPTY && lat[y] != EMPTY && root(
            t2,
            lab2[x] as int,
        ) == root(t2, lab2[y] as int) implies connected(lat, n, x, y) by {
        if x == i && y == i {
            lemma_connected_refl(lat, n, i);
        } else if x == i || y == i {
        } else if root(t, lab[x] as int) == root(t, lab[y] as int) {
        } else {
            assert(connected(lat, n, x, i));
            assert(connected(lat, n, i, y));
            lemma_connected_join(lat, n, x, i, y);
        }
    }
    assert forall|x: int, y: int|
        0 <= x < i + 1 && 0 <= y < i + 1 && lat[x] != EMPTY && lat[y] != EMPTY
            && #[trigger] adjacent(n, x, y) implies root(t2, lab2[x] as int) == root(
        t2,
        lab2[y] as int,
    ) by {
        if x == i && y < i {
            assert(adjacent(n, y, i));
        } else if y == i && x < i {
            assert(adjacent(n, x, i));
        } else if x < i && y < i {
            assert(root(t, lab[x] as int) == root(t, lab[y] as int));
        }
    }
    assert forall|x: int| 0 <= x < lab.len() && #[trigger] lab[x] >= FIRST_LABEL implies root(
        t1,
        lab[x] as int,
    ) == root(t, lab[x] as int) by {
        assert(x < i);
    }
    assert forall|x: int| 0 <= x < lab.len() && #[trigger] lab[x] >= FIRST_LABEL implies root(
        t2,
        lab[x] as int,
    ) == if root(t1, lab[x] as int) == b {
        a
    } else {
        root(t1, lab[x] as int)
    } by {
        assert(x < i);
    }
    lemma_count_fold(lab, t1, t2, a, b);
    assert forall|k: int| FIRST_LABEL <= k < t2.len() && t2[k] > 0 implies t2[k]
        == #[trigger] count_in(lab2, t2, k) by {
        lemma_count_relabel(lab, t2, i, a as usize, k);
        lemma_count_same_roots(lab, t, t1, k);
        lemma_count_same_roots(lab, t, t1, a);
        lemma_count_same_roots(lab, t, t1, b);
        if k != a {
            assert(k != b);
            assert(t2[k] == t[k]);
        }
    }
    lemma_sum_update(t, a, v);
    lemma_sum_update(t1, b, -a as i32);
    lemma_unburnt_update(lab, i, a as usize);
}

/// Compressing redirections keeps the scan's description valid.
proof fn lemma_scan_same_roots(
    lat: Seq<usize>,
    n: int,
    i: int,
    lab: Seq<usize>,
    t: Seq<i32>,
    t2: Seq<i32>,
)
    requires
        scan_inv(lat, n, i, lab, t),
        table_wf(t2),
        t2.len() == t.len(),
        forall|y: int| root(t2, y) == root(t, y),
        forall|j: int|
            0 <= j < t.len() ==> (t[j] > 0 ==> #[trigger] t2[j] == t[j]) && (t[j] <= 0 ==> t2[j]
                <= 0),
        sum_sizes(t2) == sum_sizes(t),
    ensures
        scan_inv(lat, n, i, lab, t2),
{
    assert forall|x: int, y: int|
        #![trigger root(t2, lab[x] as int), root(t2, lab[y] as int)]
        0 <= x < i && 0 <= y < i && lat[x] != EMPTY && lat[y] != EMPTY && root(t2, lab[x] as int)
            == root(t2, lab[y] as int) implies connected(lat, n, x, y) by {
        assert(root(t, lab[x] as int) == root(t, lab[y] as int));
    }
    assert forall|x: int, y: int|
        0 <= x < i && 0 <= y < i && lat[x] != EMPTY && lat[y] != EMPTY && #[trigger] adjacent(
            n,
            x,
            y,
        ) implies root(t2, lab[x] as int) == root(t2, lab[y] as int) by {
        assert(root(t, lab[x] as int) == root(t, lab[y] as int));
    }
    assert forall|k: int| FIRST_LABEL <= k < t2.len() && t2[k] > 0 implies t2[k]
        == #[trigger] count_in(lab, t2, k) by {
        lemma_count_same_roots(lab, t, t2, k);
        assert(t[k] > 0);
    }
}

/// Labels every occupied site in one row-major pass and returns the cluster table:
/// entry `k` of it is the size of cluster `k` when positive, or `-j` when cluster `k`
/// was folded into the older cluster `j`; entries 0 and 1 are 0. Each occupied site
/// of the lattice is left holding its label.
pub fn hoshen_kopelman(lattice: &mut Vec<usize>, size: usize) -> (table: Vec<i32>)
    requires
        size > 0,
        old(lattice)@.len() == cells(size as int),
        cells(size as int) + 2 <= i32::MAX,
        two_state(old(lattice)@),
    ensures
        labels_clusters(old(lattice)@, size as int, final(lattice)@, table@),
{
    let ghost lat0 = lattice@;
    let ghost n = size as int;
    let total: usize = lattice.len();
    let mut table: Vec<i32> = vec![0, 0];
    proof {
        lemma_occupied_count_two_state(lat0);
        assert(table@[0] == 0 && table@[1] == 0);
        let t0 = table@;
        assert(t0.drop_last().drop_last() =~= Seq::<i32>::empty());
        assert(sum_sizes(t0.drop_last().drop_last()) == 0);
        assert(sum_sizes(t0.drop_last()) == 0);
        assert(sum_sizes(t0) == 0);
    }
    let mut i: usize = 0;
    while i < total
        invariant
            lat0 == old(lattice)@,
            total == cells(n),
            n == size,
            scan_inv(lat0, n, i as int, lattice@, table@),
        decreases total - i,
    {
        let ghost lab = lattice@;
        let ghost t = table@;
        proof {
            assert(lab[i as int] == lat0[i as int]);
        }
        if lattice[i] == EMPTY {
            proof {
                lemma_scan_empty(lat0, n, i as int, lab, t);
            }
        } else {
            proof {
                lemma_earlier_neighbors(n, i as int, i - 1);
                lemma_earlier_neighbors(n, i as int, i - n);
            }
            let has_left: bool = i % size != 0 && lattice[i - 1] != EMPTY;
            let has_up: bool = i >= size && lattice[i - size] != EMPTY;
            if !has_left && !has_up {
                proof {
                    lemma_scan_new(lat0, n, i as int, lab, t);
                }
                let id: usize = table.len();
                table.push(1);
                lattice.set(i, id);
            } else if has_left && has_up {
                let ghost t_first = table@;
                let r_up = find_root_compress(&mut table, lattice[i - size]);
                proof {
                    lemma_scan_same_roots(lat0, n, i as int, lab, t_first, table@);
                }
                let ghost t_second = table@;
                let r_left = find_root_compress(&mut table, lattice[i - 1]);
                let ghost t = table@;
                proof {
                    lemma_scan_same_roots(lat0, n, i as int, lab, t_second, t);
                }
                if r_up == r_left {
                    proof {
                        assert forall|x: int|
                            0 <= x < i && #[trigger] adjacent(n, x, i as int) && lat0[x] != EMPTY implies root(
                            t,
                            lab[x] as int,
                        ) == r_up by {
                            lemma_earlier_neighbors(n, i as int, x);
                        }
                        lemma_scan_join(lat0, n, i as int, lab, t, i - size, r_up as int);
                    }
                    table.set(r_up, table[r_up] + 1);
                    lattice.set(i, r_up);
                } else {
                    let (keep, gone, n_keep, n_gone) = if r_up < r_left {
                        (r_up, r_left, i - size, i - 1)
                    } else {
                        (r_left, r_up, i - 1, i - size)
                    };
                    proof {
                        assert forall|x: int|
                            0 <= x < i && #[trigger] adjacent(n, x, i as int) && lat0[x] != EMPTY implies root(
                            t,
                            lab[x] as int,
                        ) == keep || root(t, lab[x] as int) == gone by {
                            lemma_earlier_neighbors(n, i as int, x);
                        }
                        lemma_scan_merge(
                            lat0,
                            n,
                            i as int,
                            lab,
                            t,
                            n_keep as int,
                            n_gone as int,
                            keep as int,
                            gone as int,
                        );
                    }
                    let merged: i32 = table[keep] + table[gone] + 1;
                    table.set(keep, merged);
                    table.set(gone, -(keep as i32));
                    lattice.set(i, keep);
                }
            } else {
                let nb: usize = if has_left {
                    i - 1
                } else {
                    i - size
                };
                let ghost t_first = table@;
                let r = find_root_compress(&mut table, lattice[nb]);
                let ghost t = table@;
                proof {
                    lemma_scan_same_roots(lat0, n, i as int, lab, t_first, t);
                }
                proof {
                    assert forall|x: int|
                        0 <= x < i && #[trigger] adjacent(n, x, i as int) && lat0[x] != EMPTY implies root(
                        t,
                        lab[x] as int,
                    ) == r by {
                        lemma_earlier_neighbors(n, i as int, x);
                    }
                    lemma_scan_join(lat0, n, i as int, lab, t, nb as int, r as int);
                }
                table.set(r, table[r] + 1);
                lattice.set(i, r);
            }
        }
        i += 1;
    }
    proof {
        lemma_scan_done(lat0, n, lattice@, table@);
    }
    table
}

/// The live entries of a cluster table, in table order: one size per cluster.
pub open spec fn live_sizes_of(t: Seq<i32>) -> Seq<usize>
    decreases t.len(),
{
    if t.len() == 0 {
        Seq::empty()
    } else if t.last() > 0 {
        live_sizes_of(t.drop_last()).push(t.last() as usize)
    } else {
        live_sizes_of(t.drop_last())
    }
}

/// The size of every cluster recorded in `table`, in table order.
pub fn cluster_sizes(table: &Vec<i32>) -> (r: Vec<usize>)
    ensures
        r@ == live_sizes_of(table@),
{
    let ghost t = table@;
    let mut r: Vec<usize> = Vec::new();
    let mut k: usize = 0;
    proof {
        assert(t.take(0) =~= Seq::<i32>::empty());
    }
    while k < table.len()
        invariant
            t == table@,
            k <= t.len(),
            r@ == live_sizes_of(t.take(k as int)),
        decreases t.len() - k,
    {
        proof {
            assert(t.take(k + 1).drop_last() =~= t.take(k as int));
        }
        if table[k] > 0 {
            r.push(table[k] as usize);
        }
        k += 1;
    }
    proof {
        assert(t.take(t.len() as int) =~= t);
    }
    r
}

/// The largest live entry of `table`, or 0 when it holds no cluster.
pub fn largest_cluster(table: &Vec<i32>) -> (m: usize)
    ensures
        forall|k: int| 0 <= k < table.len() ==> live_part(#[trigger] table@[k]) <= m,
        m == 0 || exists|k: int| 0 <= k < table.len() && table@[k] == m,
{
    let mut m: usize = 0;
    let mut k: usize = 0;
    while k < table.len()
        invariant
            k <= table.len(),
            forall|j: int| 0 <= j < k ==> live_part(#[trigger] table@[j]) <= m,
            m == 0 || exists|j: int| 0 <= j < table.len() && table@[j] == m,
        decreases table.len() - k,
    {
        if table[k] > 0 && table[k] as usize > m {
            m = table[k] as usize;
        }
        k += 1;
    }
    m
}

} // verus!
