use vstd::arithmetic::div_mod::{
    lemma_fundamental_div_mod, lemma_fundamental_div_mod_converse, lemma_mod_pos_bound,
};
use vstd::arithmetic::mul::lemma_mul_is_commutative;
use vstd::prelude::*;

verus! {

/// Number of sites of a square lattice of side `n`.
pub open spec fn cells(n: int) -> int {
    n * n
}

/// Site `i` lies inside `lat` and is not empty.
pub open spec fn occupied(lat: Seq<usize>, i: int) -> bool {
    0 <= i < lat.len() && lat[i] != 0
}

/// Sites `i` and `j` share a grid edge (up, down, left or right); edges do not wrap.
pub open spec fn adjacent(n: int, i: int, j: int) -> bool {
    &&& 0 <= i < cells(n)
    &&& 0 <= j < cells(n)
    &&& {
        ||| j == i + 1 && i % n != n - 1
        ||| i == j + 1 && j % n != n - 1
        ||| j == i + n
        ||| i == j + n
    }
}

pub open spec fn in_top_row(n: int, i: int) -> bool {
    0 <= i < n
}

pub open spec fn in_bottom_row(n: int, i: int) -> bool {
    cells(n) - n <= i < cells(n)
}

/// Step `k` of the walk `p` moves between two adjacent sites.
pub open spec fn linked(n: int, p: Seq<int>, k: int) -> bool {
    adjacent(n, p[k], p[k + 1])
}

/// `p` is a non-empty walk over occupied sites, each step along a grid edge.
pub open spec fn is_path(lat: Seq<usize>, n: int, p: Seq<int>) -> bool {
    &&& p.len() > 0
    &&& forall|k: int| 0 <= k < p.len() ==> #[trigger] occupied(lat, p[k])
    &&& forall|k: int| 0 <= k < p.len() - 1 ==> #[trigger] linked(n, p, k)
}

/// An occupied path leads from `a` to `b` (4-connectivity).
pub open spec fn connected(lat: Seq<usize>, n: int, a: int, b: int) -> bool {
    exists|p: Seq<int>| #[trigger] is_path(lat, n, p) && p[0] == a && p.last() == b
}

/// Some occupied path joins the first row to the last row.
pub open spec fn spans(lat: Seq<usize>, n: int) -> bool {
    exists|a: int, b: int|
        in_top_row(n, a) && in_bottom_row(n, b) && #[trigger] connected(lat, n, a, b)
}

/// Stepping right keeps the column counter in step, or wraps it to zero at the row's end.
pub proof fn lemma_mod_step(j: int, n: int)
    requires
        n > 0,
        j >= 0,
    ensures
        j % n != n - 1 ==> (j + 1) % n == j % n + 1,
        j % n == n - 1 ==> (j + 1) % n == 0,
{
    lemma_fundamental_div_mod(j, n);
    lemma_mod_pos_bound(j, n);
    lemma_mul_is_commutative(n, j / n);
    if j % n != n - 1 {
        lemma_fundamental_div_mod_converse(j + 1, n, j / n, j % n + 1);
    } else {
        assert((j / n + 1) * n == (j / n) * n + n) by (nonlinear_arith);
        lemma_fundamental_div_mod_converse(j + 1, n, j / n + 1, 0);
    }
}

pub proof fn lemma_connected_refl(lat: Seq<usize>, n: int, a: int)
    requires
        occupied(lat, a),
    ensures
        connected(lat, n, a, a),
{
    let p = seq![a];
    assert(is_path(lat, n, p));
}

pub proof fn lemma_connected_ends(lat: Seq<usize>, n: int, a: int, b: int)
    requires
        connected(lat, n, a, b),
    ensures
        occupied(lat, a),
        occupied(lat, b),
{
    let p = choose|p: Seq<int>| #[trigger] is_path(lat, n, p) && p[0] == a && p.last() == b;
    assert(occupied(lat, p[0]));
    assert(occupied(lat, p[p.len() - 1]));
}

/// A path to `b` extends by one edge to an occupied neighbour `c`.
pub proof fn lemma_connected_step(lat: Seq<usize>, n: int, a: int, b: int, c: int)
    requires
        connected(lat, n, a, b),
        adjacent(n, b, c),
        occupied(lat, c),
    ensures
        connected(lat, n, a, c),
{
    let p = choose|p: Seq<int>| #[trigger] is_path(lat, n, p) && p[0] == a && p.last() == b;
    let q = p.push(c);
    assert forall|k: int| 0 <= k < q.len() implies #[trigger] occupied(lat, q[k]) by {
        if k < p.len() {
            assert(occupied(lat, p[k]));
        }
    }
    assert forall|k: int| 0 <= k < q.len() - 1 implies #[trigger] linked(n, q, k) by {
        if k < p.len() - 1 {
            assert(linked(n, p, k));
        }
    }
    assert(is_path(lat, n, q));
}

/// Two paths that meet at `b` join into one.
pub proof fn lemma_connected_join(lat: Seq<usize>, n: int, a: int, b: int, c: int)
    requires
        connected(lat, n, a, b),
        connected(lat, n, b, c),
    ensures
        connected(lat, n, a, c),
{
    let p = choose|p: Seq<int>| #[trigger] is_path(lat, n, p) && p[0] == a && p.last() == b;
    let r = choose|r: Seq<int>| #[trigger] is_path(lat, n, r) && r[0] == b && r.last() == c;
    let q = p + r.skip(1);
    assert forall|k: int| 0 <= k < q.len() implies #[trigger] occupied(lat, q[k]) by {
        if k < p.len() {
            assert(occupied(lat, p[k]));
        } else {
            assert(q[k] == r[k - p.len() + 1]);
            assert(occupied(lat, r[k - p.len() + 1]));
        }
    }
    assert forall|k: int| 0 <= k < q.len() - 1 implies #[trigger] linked(n, q, k) by {
        if k < p.len() - 1 {
            assert(linked(n, p, k));
        } else if k == p.len() - 1 {
            assert(linked(n, r, 0));
        } else {
            assert(linked(n, r, k - p.len() + 1));
        }
    }
    assert(is_path(lat, n, q));
}

/// The sites that share an edge with `index`, in a lattice of side `size`.
pub fn neighbors(index: usize, size: usize) -> (r: Vec<usize>)
    requires
        size > 0,
        index < size * size,
        size * size <= usize::MAX,
    ensures
        forall|k: int| 0 <= k < r.len() ==> adjacent(size as int, index as int, #[trigger] r[k] as int),
        forall|j: int|
            #[trigger] adjacent(size as int, index as int, j) ==> exists|k: int|
                0 <= k < r.len() && r[k] == j,
{
    let ghost n = size as int;
    let total: usize = size * size;
    let col: usize = index % size;
    proof {
        assert(total >= size) by (nonlinear_arith)
            requires
                total == size * size,
                size > 0,
        ;
        lemma_mod_step(index as int, n);
        if index > 0 {
            lemma_mod_step(index - 1, n);
        } else {
            assert(0int % n == 0);
        }
        if index + 1 == total {
            assert((n - 1) * n + (n - 1) == n * n - 1) by (nonlinear_arith);
            lemma_fundamental_div_mod_converse(index as int, n, n - 1, n - 1);
        }
    }
    let ghost mut at_up: int = -1;
    let ghost mut at_left: int = -1;
    let ghost mut at_right: int = -1;
    let ghost mut at_down: int = -1;
    let mut r: Vec<usize> = Vec::new();
    if index >= size {
        r.push(index - size);
        proof {
            at_up = r.len() - 1;
        }
    }
    if col > 0 {
        r.push(index - 1);
        proof {
            at_left = r.len() - 1;
        }
    }
    if col + 1 < size {
        r.push(index + 1);
        proof {
            at_right = r.len() - 1;
        }
    }
    if index < total - size {
        r.push(index + size);
        proof {
            at_down = r.len() - 1;
        }
    }
    proof {
        assert forall|j: int| #[trigger] adjacent(n, index as int, j) implies exists|k: int|
            0 <= k < r.len() && r[k] == j by {
            if j == index + 1 && (index as int) % n != n - 1 {
                assert(r[at_right] == j);
            } else if j == index - 1 && j % n != n - 1 {
                assert(r[at_left] == j);
            } else if j == index + n {
                assert(r[at_down] == j);
            } else {
                assert(r[at_up] == j);
            }
        }
    }
    r
}

} // verus!
