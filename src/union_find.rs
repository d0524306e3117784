use vstd::prelude::*;

verus! {

/// The first label handed to a cluster; smaller values are the empty and occupied states.
pub const FIRST_LABEL: usize = 2;

/// Shape of a cluster table. Entries 0 and 1 stand for no cluster and hold 0. Every
/// other entry is either a live cluster's size (positive) or `-k`, a redirection to an
/// older label `k`, so that following redirections always ends.
pub open spec fn table_wf(t: Seq<i32>) -> bool {
    &&& t.len() >= FIRST_LABEL
    &&& t[0] == 0
    &&& t[1] == 0
    &&& forall|k: int|
        FIRST_LABEL <= k < t.len() ==> #[trigger] t[k] != 0 && (t[k] < 0 ==> FIRST_LABEL <= -t[k] < k)
}

/// The live label that `k` ends at after following redirections.
pub open spec fn root(t: Seq<i32>, k: int) -> int
    decreases k,
{
    if FIRST_LABEL <= k < t.len() && t[k] < 0 && -t[k] < k && -t[k] >= 0 {
        root(t, -t[k] as int)
    } else {
        k
    }
}

/// The size counted for a table entry: its value when it is a live size, else nothing.
pub open spec fn live_part(v: i32) -> int {
    if v > 0 {
        v as int
    } else {
        0
    }
}

/// Sum of all live cluster sizes in the table.
pub open spec fn sum_sizes(t: Seq<i32>) -> int
    decreases t.len(),
{
    if t.len() == 0 {
        0
    } else {
        sum_sizes(t.drop_last()) + live_part(t.last())
    }
}

/// Number of labelled sites whose label ends at `k`.
pub open spec fn count_in(labels: Seq<usize>, t: Seq<i32>, k: int) -> nat
    decreases labels.len(),
{
    if labels.len() == 0 {
        0
    } else {
        count_in(labels.drop_last(), t, k) + if labels.last() >= FIRST_LABEL && root(
            t,
            labels.last() as int,
        ) == k {
            1nat
        } else {
            0nat
        }
    }
}

pub proof fn lemma_root_live(t: Seq<i32>, k: int)
    requires
        table_wf(t),
        FIRST_LABEL <= k < t.len(),
    ensures
        FIRST_LABEL <= root(t, k) <= k,
        t[root(t, k)] > 0,
    decreases k,
{
    if t[k] < 0 {
        lemma_root_live(t, -t[k] as int);
    }
}

/// Changing a live entry to another live size leaves every root in place.
pub proof fn lemma_root_resize(t: Seq<i32>, r: int, v: i32, x: int)
    requires
        table_wf(t),
        FIRST_LABEL <= r < t.len(),
        t[r] > 0,
        v > 0,
    ensures
        root(t.update(r, v), x) == root(t, x),
    decreases x,
{
    let t2 = t.update(r, v);
    if FIRST_LABEL <= x < t.len() && t[x] < 0 {
        lemma_root_resize(t, r, v, -t[x] as int);
    }
}

/// A new live label appended to the table changes no existing root.
pub proof fn lemma_root_push(t: Seq<i32>, v: i32, x: int)
    requires
        table_wf(t),
        0 <= x < t.len(),
    ensures
        root(t.push(v), x) == root(t, x),
    decreases x,
{
    if FIRST_LABEL <= x < t.len() && t[x] < 0 {
        lemma_root_push(t, v, -t[x] as int);
    }
}

/// Redirecting the live label `b` to the older live label `a` moves exactly the sites
/// of `b` to `a`.
pub proof fn lemma_root_redirect(t: Seq<i32>, a: int, b: int, x: int)
    requires
        table_wf(t),
        FIRST_LABEL <= a < b < t.len(),
        a <= i32::MAX,
        t[a] > 0,
        t[b] > 0,
        FIRST_LABEL <= x < t.len(),
    ensures
        root(t.update(b, -a as i32), x) == if root(t, x) == b {
            a
        } else {
            root(t, x)
        },
    decreases x,
{
    let t2 = t.update(b, -a as i32);
    if x == b {
        assert(root(t2, a) == a);
    } else if t[x] < 0 {
        lemma_root_redirect(t, a, b, -t[x] as int);
    }
}

pub proof fn lemma_sum_update(t: Seq<i32>, i: int, v: i32)
    requires
        0 <= i < t.len(),
    ensures
        sum_sizes(t.update(i, v)) == sum_sizes(t) - live_part(t[i]) + live_part(v),
    decreases t.len(),
{
    let t2 = t.update(i, v);
    if i == t.len() - 1 {
        assert(t2.drop_last() =~= t.drop_last());
    } else {
        assert(t2.drop_last() =~= t.drop_last().update(i, v));
        lemma_sum_update(t.drop_last(), i, v);
    }
}

pub proof fn lemma_sum_push(t: Seq<i32>, v: i32)
    ensures
        sum_sizes(t.push(v)) == sum_sizes(t) + live_part(v),
{
    assert(t.push(v).drop_last() =~= t);
}

pub proof fn lemma_sum_nonneg(t: Seq<i32>)
    ensures
        sum_sizes(t) >= 0,
    decreases t.len(),
{
    if t.len() > 0 {
        lemma_sum_nonneg(t.drop_last());
    }
}

/// Two distinct entries together hold no more than the whole sum.
pub proof fn lemma_two_entries_le_sum(t: Seq<i32>, a: int, b: int)
    requires
        0 <= a < t.len(),
        0 <= b < t.len(),
        a != b,
    ensures
        live_part(t[a]) + live_part(t[b]) <= sum_sizes(t),
    decreases t.len(),
{
    let s = t.drop_last();
    lemma_sum_nonneg(s);
    if a == t.len() - 1 {
        lemma_entry_le_sum(s, b);
    } else if b == t.len() - 1 {
        lemma_entry_le_sum(s, a);
    } else {
        lemma_two_entries_le_sum(s, a, b);
    }
}

pub proof fn lemma_entry_le_sum(t: Seq<i32>, a: int)
    requires
        0 <= a < t.len(),
    ensures
        live_part(t[a]) <= sum_sizes(t),
    decreases t.len(),
{
    let s = t.drop_last();
    lemma_sum_nonneg(s);
    if a < t.len() - 1 {
        lemma_entry_le_sum(s, a);
    }
}

/// Relabelling one site moves it from one count to another.
pub proof fn lemma_count_relabel(labels: Seq<usize>, t: Seq<i32>, i: int, v: usize, k: int)
    requires
        0 <= i < labels.len(),
    ensures
        count_in(labels.update(i, v), t, k) + (if labels[i] >= FIRST_LABEL && root(
            t,
            labels[i] as int,
        ) == k {
            1int
        } else {
            0int
        }) == count_in(labels, t, k) + (if v >= FIRST_LABEL && root(t, v as int) == k {
            1int
        } else {
            0int
        }),
    decreases labels.len(),
{
    let l2 = labels.update(i, v);
    if i == labels.len() - 1 {
        assert(l2.drop_last() =~= labels.drop_last());
    } else {
        assert(l2.drop_last() =~= labels.drop_last().update(i, v));
        lemma_count_relabel(labels.drop_last(), t, i, v, k);
    }
}

/// Counts depend on the table only through the roots of the labels in use.
pub proof fn lemma_count_same_roots(labels: Seq<usize>, t: Seq<i32>, t2: Seq<i32>, k: int)
    requires
        forall|i: int|
            0 <= i < labels.len() && #[trigger] labels[i] >= FIRST_LABEL ==> root(
                t2,
                labels[i] as int,
            ) == root(t, labels[i] as int),
    ensures
        count_in(labels, t2, k) == count_in(labels, t, k),
    decreases labels.len(),
{
    if labels.len() > 0 {
        let s = labels.drop_last();
        assert(labels.last() == labels[labels.len() - 1]);
        assert forall|i: int| 0 <= i < s.len() && #[trigger] s[i] >= FIRST_LABEL implies root(
            t2,
            s[i] as int,
        ) == root(t, s[i] as int) by {
            assert(s[i] == labels[i]);
        }
        lemma_count_same_roots(s, t, t2, k);
    }
}

/// No label ending at `k`: the count of `k` is zero.
pub proof fn lemma_count_none(labels: Seq<usize>, t: Seq<i32>, k: int)
    requires
        forall|i: int|
            0 <= i < labels.len() && #[trigger] labels[i] >= FIRST_LABEL ==> root(
                t,
                labels[i] as int,
            ) != k,
    ensures
        count_in(labels, t, k) == 0,
    decreases labels.len(),
{
    if labels.len() > 0 {
        let s = labels.drop_last();
        assert(labels.last() == labels[labels.len() - 1]);
        assert forall|i: int| 0 <= i < s.len() && #[trigger] s[i] >= FIRST_LABEL implies root(
            t,
            s[i] as int,
        ) != k by {
            assert(s[i] == labels[i]);
        }
        lemma_count_none(s, t, k);
    }
}

/// After `b` is folded into `a`, the count of `a` is the two counts together.
pub proof fn lemma_count_fold(labels: Seq<usize>, t: Seq<i32>, t2: Seq<i32>, a: int, b: int)
    requires
        a != b,
        forall|i: int|
            0 <= i < labels.len() && #[trigger] labels[i] >= FIRST_LABEL ==> root(
                t2,
                labels[i] as int,
            ) == if root(t, labels[i] as int) == b {
                a
            } else {
                root(t, labels[i] as int)
            },
    ensures
        count_in(labels, t2, a) == count_in(labels, t, a) + count_in(labels, t, b),
        forall|k: int| k != a && k != b ==> count_in(labels, t2, k) == count_in(labels, t, k),
    decreases labels.len(),
{
    if labels.len() > 0 {
        let s = labels.drop_last();
        assert(labels.last() == labels[labels.len() - 1]);
        assert forall|i: int| 0 <= i < s.len() && #[trigger] s[i] >= FIRST_LABEL implies root(
            t2,
            s[i] as int,
        ) == if root(t, s[i] as int) == b {
            a
        } else {
            root(t, s[i] as int)
        } by {
            assert(s[i] == labels[i]);
        }
        lemma_count_fold(s, t, t2, a, b);
        assert forall|k: int| k != a && k != b implies count_in(labels, t2, k) == count_in(
            labels,
            t,
            k,
        ) by {
            assert(count_in(s, t2, k) == count_in(s, t, k));
        }
    }
}

/// Follows redirections from label `k` to its live label.
pub fn find_root(table: &Vec<i32>, k: usize) -> (r: usize)
    requires
        table_wf(table@),
        FIRST_LABEL <= k < table.len(),
    ensures
        r == root(table@, k as int),
        FIRST_LABEL <= r < table.len(),
        table@[r as int] > 0,
{
    let ghost t = table@;
    let mut cur: usize = k;
    while table[cur] < 0
        invariant
            t == table@,
            table_wf(t),
            FIRST_LABEL <= cur < t.len(),
            root(t, cur as int) == root(t, k as int),
        decreases cur,
    {
        cur = (-(table[cur] as i64)) as usize;
    }
    proof {
        lemma_root_live(t, cur as int);
    }
    cur
}

/// Pointing a redirected label straight at its live label changes no root.
pub proof fn lemma_root_shortcut(t: Seq<i32>, x: int, y: int)
    requires
        table_wf(t),
        FIRST_LABEL <= x < t.len(),
        t[x] < 0,
        root(t, x) <= i32::MAX,
    ensures
        root(t.update(x, -root(t, x) as i32), y) == root(t, y),
    decreases y,
{
    let r = root(t, x);
    let t2 = t.update(x, -r as i32);
    lemma_root_live(t, x);
    if y == x {
        lemma_root_live(t, -t[x] as int);
        assert(root(t2, r) == r);
    } else if FIRST_LABEL <= y < t.len() && t[y] < 0 {
        lemma_root_shortcut(t, x, -t[y] as int);
    }
}

/// Follows redirections from label `k` to its live label, then points every label
/// met on the way straight at it. Roots, live sizes and their sum stay as they were.
pub fn find_root_compress(table: &mut Vec<i32>, k: usize) -> (r: usize)
    requires
        table_wf(old(table)@),
        FIRST_LABEL <= k < old(table)@.len(),
        old(table)@.len() <= i32::MAX,
    ensures
        r == root(old(table)@, k as int),
        FIRST_LABEL <= r < old(table)@.len(),
        old(table)@[r as int] > 0,
        table_wf(final(table)@),
        final(table)@.len() == old(table)@.len(),
        forall|y: int| root(final(table)@, y) == root(old(table)@, y),
        forall|j: int|
            0 <= j < old(table)@.len() ==> (old(table)@[j] > 0 ==> #[trigger] final(table)@[j]
                == old(table)@[j]) && (old(table)@[j] <= 0 ==> final(table)@[j] <= 0),
        sum_sizes(final(table)@) == sum_sizes(old(table)@),
{
    let ghost t0 = table@;
    let r = find_root(table, k);
    let mut cur: usize = k;
    while cur != r
        invariant
            table_wf(table@),
            table@.len() == t0.len(),
            t0.len() <= i32::MAX,
            FIRST_LABEL <= cur < t0.len(),
            FIRST_LABEL <= r < t0.len(),
            root(table@, cur as int) == r,
            forall|y: int| root(table@, y) == root(t0, y),
            forall|j: int|
                0 <= j < t0.len() ==> (t0[j] > 0 ==> #[trigger] table@[j] == t0[j]) && (t0[j] <= 0
                    ==> table@[j] <= 0),
            sum_sizes(table@) == sum_sizes(t0),
        decreases cur,
    {
        let ghost t = table@;
        let next = (-(table[cur] as i64)) as usize;
        proof {
            assert(t[cur as int] < 0);
            assert(root(t, cur as int) == root(t, next as int));
            lemma_root_shortcut(t, cur as int, 0);
            assert forall|y: int| root(t.update(cur as int, -(r as int) as i32), y) == root(t, y) by {
                lemma_root_shortcut(t, cur as int, y);
            }
            lemma_sum_update(t, cur as int, -(r as int) as i32);
            lemma_root_live(t, cur as int);
        }
        table.set(cur, -(r as i32));
        proof {
            assert(table_wf(table@)) by {
                assert forall|j: int| FIRST_LABEL <= j < table@.len() implies #[trigger] table@[j] != 0
                    && (table@[j] < 0 ==> FIRST_LABEL <= -table@[j] < j) by {
                    if j != cur {
                        assert(table@[j] == t[j]);
                    }
                }
            }
            assert(root(table@, next as int) == root(t, next as int));
        }
        cur = next;
    }
    r
}

} // verus!
