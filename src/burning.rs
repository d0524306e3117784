use crate::grid::{
    adjacent, cells, connected, in_bottom_row, in_top_row, is_path, lemma_connected_refl,
    lemma_connected_step, linked, neighbors, occupied, spans,
};
use vstd::prelude::*;

verus! {

/// Site state: nothing there.
pub const EMPTY: usize = 0;

/// Site state: occupied and not yet touched by an analysis.
pub const OCCUPIED: usize = 1;

/// Site state: occupied and reached from the first row by the burning front.
pub const VISITED: usize = 2;

/// Every site is either empty or occupied: the state of a freshly generated lattice.
pub open spec fn two_state(lat: Seq<usize>) -> bool {
    forall|i: int| 0 <= i < lat.len() ==> #[trigger] lat[i] <= OCCUPIED
}

/// `after` differs from `before` only in occupied sites that became visited.
pub open spec fn burn_marks(before: Seq<usize>, after: Seq<usize>) -> bool {
    &&& after.len() == before.len()
    &&& forall|i: int|
        0 <= i < before.len() ==> #[trigger] after[i] == before[i] || (before[i] == OCCUPIED
            && after[i] == VISITED)
}

/// Every visited marker turned back into an occupied site.
pub open spec fn restored(s: Seq<usize>) -> Seq<usize> {
    Seq::new(s.len(), |i: int| if s[i] == VISITED { OCCUPIED } else { s[i] })
}

/// Some occupied site of the first row reaches `i`.
pub open spec fn reached(lat: Seq<usize>, n: int, i: int) -> bool {
    exists|a: int| in_top_row(n, a) && #[trigger] connected(lat, n, a, i)
}

/// Site `i` has been burnt through: it is not in the last row and every occupied
/// neighbour of it is visited.
pub open spec fn expanded(lat: Seq<usize>, cur: Seq<usize>, n: int, i: int) -> bool {
    &&& !in_bottom_row(n, i)
    &&& forall|j: int| #[trigger] adjacent(n, i, j) && occupied(lat, j) ==> cur[j] == VISITED
}

/// Number of sites still in the occupied, untouched state.
pub open spec fn unburnt(s: Seq<usize>) -> nat
    decreases s.len(),
{
    if s.len() == 0 {
        0
    } else {
        unburnt(s.drop_last()) + if s.last() == OCCUPIED {
            1nat
        } else {
            0nat
        }
    }
}

pub proof fn lemma_unburnt_update(s: Seq<usize>, i: int, v: usize)
    requires
        0 <= i < s.len(),
    ensures
        unburnt(s.update(i, v)) + (if s[i] == OCCUPIED {
            1int
        } else {
            0int
        }) == unburnt(s) + (if v == OCCUPIED {
            1int
        } else {
            0int
        }),
    decreases s.len(),
{
    let t = s.update(i, v);
    if i == s.len() - 1 {
        assert(t.drop_last() =~= s.drop_last());
    } else {
        assert(t.drop_last() =~= s.drop_last().update(i, v));
        lemma_unburnt_update(s.drop_last(), i, v);
    }
}

proof fn lemma_pop_keeps(s: Seq<usize>)
    requires
        s.len() > 0,
    ensures
        forall|x: usize| #[trigger] s.contains(x) && x != s.last() ==> s.drop_last().contains(x),
{
    assert forall|x: usize| #[trigger] s.contains(x) && x != s.last() implies s.drop_last().contains(
        x,
    ) by {
        let k = choose|k: int| 0 <= k < s.len() && s[k] == x;
        assert(s.drop_last()[k] == x);
    }
}

/// Every site along `p` up to position `k` is visited, when the first is and the
/// visited sites are closed under occupied neighbours.
proof fn lemma_path_visited(lat: Seq<usize>, cur: Seq<usize>, n: int, p: Seq<int>, k: int)
    requires
        is_path(lat, n, p),
        0 <= k < p.len(),
        cur[p[0]] == VISITED,
        forall|i: int| 0 <= i < cells(n) && cur[i] == VISITED ==> expanded(lat, cur, n, i),
    ensures
        cur[p[k]] == VISITED,
    decreases k,
{
    if k > 0 {
        lemma_path_visited(lat, cur, n, p, k - 1);
        assert(linked(n, p, k - 1));
        assert(occupied(lat, p[k]));
        assert(expanded(lat, cur, n, p[k - 1]));
    }
}

/// Once the visited sites hold the occupied first row and are closed under occupied
/// neighbours without touching the last row, no path spans the lattice.
proof fn lemma_closed_front_does_not_span(lat: Seq<usize>, cur: Seq<usize>, n: int)
    requires
        n > 0,
        lat.len() == cells(n),
        cur.len() == cells(n),
        forall|a: int| in_top_row(n, a) && occupied(lat, a) ==> cur[a] == VISITED,
        forall|i: int| 0 <= i < cells(n) && cur[i] == VISITED ==> expanded(lat, cur, n, i),
    ensures
        !spans(lat, n),
{
    if spans(lat, n) {
        let (a, b) = choose|a: int, b: int|
            in_top_row(n, a) && in_bottom_row(n, b) && #[trigger] connected(lat, n, a, b);
        let p = choose|p: Seq<int>| #[trigger] is_path(lat, n, p) && p[0] == a && p.last() == b;
        assert(occupied(lat, p[0]));
        lemma_path_visited(lat, cur, n, p, p.len() - 1);
        assert(occupied(lat, p[p.len() - 1]));
        assert(expanded(lat, cur, n, b));
    }
}

/// Decides whether an occupied path joins the first row to the last row, by
/// burning from every occupied site of the first row. Sites reached are left
/// marked `VISITED`.
pub fn burn_dfs(lattice: &mut Vec<usize>, size: usize) -> (r: bool)
    requires
        size > 0,
        old(lattice)@.len() == cells(size as int),
        two_state(old(lattice)@),
    ensures
        r == spans(old(lattice)@, size as int),
        burn_marks(old(lattice)@, final(lattice)@),
{
    broadcast use vstd::seq_lib::lemma_seq_contains_after_push;

    let ghost lat0 = lattice@;
    let ghost n = size as int;
    let len: usize = lattice.len();
    let total: usize = size * size;
    proof {
        assert(total >= size) by (nonlinear_arith)
            requires
                total == size * size,
                size > 0,
        ;
    }
    let bottom_start: usize = total - size;
    let mut stack: Vec<usize> = Vec::new();
    let mut c: usize = 0;
    while c < size
        invariant
            lat0 == old(lattice)@,
            two_state(lat0),
            lat0.len() == total,
            total == cells(n),
            n == size,
            size <= total,
            c <= size,
            burn_marks(lat0, lattice@),
            forall|k: int| 0 <= k < stack.len() ==> #[trigger] stack[k] < total && lattice@[stack[k] as int] == VISITED,
            forall|i: int|
                0 <= i < total && #[trigger] lattice@[i] == VISITED ==> reached(lat0, n, i),
            forall|i: int|
                0 <= i < total && #[trigger] lattice@[i] == VISITED ==> stack@.contains(i as usize),
            forall|a: int| 0 <= a < c && occupied(lat0, a) ==> #[trigger] lattice@[a] == VISITED,
            unburnt(lattice@) + stack.len() == unburnt(lat0),
        decreases size - c,
    {
        if lattice[c] == OCCUPIED {
            proof {
                lemma_connected_refl(lat0, n, c as int);
                assert(connected(lat0, n, c as int, c as int));
                lemma_unburnt_update(lattice@, c as int, VISITED);
            }
            let ghost lat_b = lattice@;
            let ghost st_b = stack@;
            lattice.set(c, VISITED);
            stack.push(c);
            proof {
                assert(stack[stack.len() - 1] == c);
                assert forall|i: int|
                    0 <= i < total && #[trigger] lattice@[i] == VISITED implies stack@.contains(
                    i as usize,
                ) by {
                    vstd::seq_lib::lemma_seq_contains_after_push(st_b, c, i as usize);
                    if i != c {
                        assert(lat_b[i] == VISITED);
                        assert(st_b.contains(i as usize));
                    }
                }
            }
        }
        c += 1;
    }
    while stack.len() > 0
        invariant
            lat0 == old(lattice)@,
            two_state(lat0),
            lat0.len() == total,
            total == cells(n),
            n == size,
            bottom_start == total - size,
            burn_marks(lat0, lattice@),
            forall|k: int| 0 <= k < stack.len() ==> #[trigger] stack[k] < total && lattice@[stack[k] as int] == VISITED,
            forall|i: int|
                0 <= i < total && #[trigger] lattice@[i] == VISITED ==> reached(lat0, n, i),
            forall|i: int|
                0 <= i < total && #[trigger] lattice@[i] == VISITED ==> stack@.contains(i as usize)
                    || expanded(lat0, lattice@, n, i),
            forall|a: int| 0 <= a < size && occupied(lat0, a) ==> #[trigger] lattice@[a] == VISITED,
        decreases unburnt(lattice@) + stack.len(),
    {
        let ghost before = lattice@;
        let ghost stack0 = stack@;
        let cur = stack.pop().unwrap();
        proof {
            lemma_pop_keeps(stack0);
            assert(stack0[stack0.len() - 1] == cur);
            assert(lattice@[cur as int] == VISITED);
        }
        if cur >= bottom_start {
            proof {
                let a = choose|a: int| in_top_row(n, a) && #[trigger] connected(lat0, n, a, cur as int);
                assert(in_bottom_row(n, cur as int));
                assert(connected(lat0, n, a, cur as int));
                assert(spans(lat0, n));
                assert(lat0 == old(lattice)@);
            }
            return true;
        }
        let nbs = neighbors(cur, size);
        let mut k: usize = 0;
        while k < nbs.len()
            invariant
                lat0 == old(lattice)@,
                two_state(lat0),
                lat0.len() == total,
                total == cells(n),
                n == size,
                cur < total,
                !in_bottom_row(n, cur as int),
                k <= nbs.len(),
                forall|q: int| 0 <= q < nbs.len() ==> adjacent(n, cur as int, #[trigger] nbs[q] as int),
                forall|j: int|
                    #[trigger] adjacent(n, cur as int, j) ==> exists|q: int|
                        0 <= q < nbs.len() && nbs[q] == j,
                burn_marks(lat0, lattice@),
                forall|q: int| 0 <= q < stack.len() ==> #[trigger] stack[q] < total && lattice@[stack[q] as int] == VISITED,
                forall|i: int|
                    0 <= i < total && #[trigger] lattice@[i] == VISITED ==> reached(lat0, n, i),
                forall|i: int|
                    0 <= i < total && #[trigger] lattice@[i] == VISITED ==> i == cur
                        || stack@.contains(i as usize) || expanded(lat0, lattice@, n, i),
                forall|a: int| 0 <= a < size && occupied(lat0, a) ==> #[trigger] lattice@[a] == VISITED,
                forall|q: int| 0 <= q < k ==> lattice@[#[trigger] nbs[q] as int] != OCCUPIED,
                lattice@[cur as int] == VISITED,
                unburnt(lattice@) + stack.len() + 1 == unburnt(before) + stack0.len(),
            decreases nbs.len() - k,
        {
            let j = nbs[k];
            if lattice[j] == OCCUPIED {
                proof {
                    assert(adjacent(n, cur as int, j as int));
                    let a = choose|a: int| in_top_row(n, a) && #[trigger] connected(lat0, n, a, cur as int);
                    lemma_connected_step(lat0, n, a, cur as int, j as int);
                    assert(connected(lat0, n, a, j as int));
                    lemma_unburnt_update(lattice@, j as int, VISITED);
                }
                let ghost lat_b = lattice@;
                let ghost st_b = stack@;
                lattice.set(j, VISITED);
                stack.push(j);
                proof {
                    assert(stack[stack.len() - 1] == j);
                    assert forall|i: int|
                        0 <= i < total && #[trigger] lattice@[i] == VISITED implies i == cur
                            || stack@.contains(i as usize) || expanded(lat0, lattice@, n, i) by {
                        vstd::seq_lib::lemma_seq_contains_after_push(st_b, j, i as usize);
                        if i != j {
                            assert(lat_b[i] == VISITED);
                            if st_b.contains(i as usize) {
                                assert(stack@.contains(i as usize));
                            } else if i != cur {
                                assert(expanded(lat0, lat_b, n, i));
                                assert forall|x: int|
                                    #[trigger] adjacent(n, i, x) && occupied(lat0, x) implies lattice@[x]
                                    == VISITED by {
                                    assert(lat_b[x] == VISITED);
                                }
                            }
                        }
                    }
                }
            }
            k += 1;
        }
        proof {
            assert forall|j: int| #[trigger] adjacent(n, cur as int, j) && occupied(lat0, j) implies lattice@[j] == VISITED by {
                let q = choose|q: int| 0 <= q < nbs.len() && nbs[q] == j;
                assert(lattice@[nbs[q] as int] != OCCUPIED);
            }
            assert(expanded(lat0, lattice@, n, cur as int));
        }
    }
    proof {
        lemma_closed_front_does_not_span(lat0, lattice@, n);
    }
    false
}

/// Turns every visited marker back into an occupied site, leaving all other states alone.
pub fn reset_lattice(lattice: &mut Vec<usize>)
    ensures
        final(lattice)@ == restored(old(lattice)@),
{
    let ghost lat0 = lattice@;
    let mut i: usize = 0;
    while i < lattice.len()
        invariant
            lattice@.len() == lat0.len(),
            i <= lat0.len(),
            forall|k: int| 0 <= k < i ==> #[trigger] lattice@[k] == restored(lat0)[k],
            forall|k: int| i <= k < lat0.len() ==> #[trigger] lattice@[k] == lat0[k],
        decreases lat0.len() - i,
    {
        if lattice[i] == VISITED {
            lattice.set(i, OCCUPIED);
        }
        i += 1;
    }
    assert(lattice@ =~= restored(lat0));
}

} // verus!
