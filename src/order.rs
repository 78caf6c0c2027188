use vstd::prelude::*;
use crate::date::Date;

verus! {

/// Position at which an item starting on `x` enters the ascending sequence
/// `starts`: before the first item that does not start earlier than `x`.
pub open spec fn insert_pos(starts: Seq<Date>, x: Date) -> nat
    decreases starts.len(),
{
    if starts.len() == 0 {
        0
    } else if !starts[0].precedes(x) {
        0
    } else {
        1 + insert_pos(starts.drop_first(), x)
    }
}

/// The positions `k..` of `starts`, stably sorted by start date: each position is
/// inserted in front of every later position with the same or a later date.
pub open spec fn suffix_order(starts: Seq<Date>, k: int) -> Seq<int>
    decreases starts.len() - k,
{
    if k < 0 || k >= starts.len() {
        Seq::empty()
    } else {
        let rest = suffix_order(starts, k + 1);
        rest.insert(insert_pos(rest.map_values(|j: int| starts[j]), starts[k]) as int, k)
    }
}

/// The positions of `starts` in stable ascending order of start date.
pub open spec fn sort_order(starts: Seq<Date>) -> Seq<int> {
    suffix_order(starts, 0)
}

/// Whether the dates picked by `ord` from `starts` never go back in time.
pub open spec fn ascending(starts: Seq<Date>, ord: Seq<int>) -> bool {
    forall|a: int, b: int|
        0 <= a < b < ord.len() ==> !(#[trigger] starts[ord[b]]).precedes(#[trigger] starts[ord[a]])
}

pub open spec fn in_range(ord: Seq<int>, lo: int, hi: int) -> bool {
    forall|a: int| 0 <= a < ord.len() ==> lo <= #[trigger] ord[a] < hi
}

proof fn lemma_insert_pos(starts: Seq<Date>, x: Date, p: int)
    requires
        0 <= p <= starts.len(),
        forall|q: int| 0 <= q < p ==> (#[trigger] starts[q]).precedes(x),
        p < starts.len() ==> !starts[p].precedes(x),
    ensures
        insert_pos(starts, x) == p,
    decreases p,
{
    if p > 0 {
        let t = starts.drop_first();
        assert forall|q: int| 0 <= q < p - 1 implies (#[trigger] t[q]).precedes(x) by {
            assert(t[q] == starts[q + 1]);
        }
        lemma_insert_pos(t, x, p - 1);
    }
}

proof fn lemma_insert_pos_bounds(starts: Seq<Date>, x: Date)
    ensures
        insert_pos(starts, x) <= starts.len(),
        forall|q: int| 0 <= q < insert_pos(starts, x) ==> (#[trigger] starts[q]).precedes(x),
        insert_pos(starts, x) < starts.len() ==> !starts[insert_pos(starts, x) as int].precedes(x),
    decreases starts.len(),
{
    if starts.len() > 0 && starts[0].precedes(x) {
        let t = starts.drop_first();
        lemma_insert_pos_bounds(t, x);
        assert forall|q: int| 0 <= q < insert_pos(starts, x) implies (#[trigger] starts[q]).precedes(x) by {
            if q > 0 {
                assert(starts[q] == t[q - 1]);
            }
        }
    }
}

/// The stable order holds each position of `k..` once, and its dates ascend.
pub proof fn lemma_suffix_order(starts: Seq<Date>, k: int)
    requires
        0 <= k <= starts.len(),
    ensures
        suffix_order(starts, k).len() == starts.len() - k,
        in_range(suffix_order(starts, k), k, starts.len() as int),
        ascending(starts, suffix_order(starts, k)),
    decreases starts.len() - k,
{
    if k < starts.len() {
        lemma_suffix_order(starts, k + 1);
        let rest = suffix_order(starts, k + 1);
        let ds = rest.map_values(|j: int| starts[j]);
        let p = insert_pos(ds, starts[k]) as int;
        lemma_insert_pos_bounds(ds, starts[k]);
        let o = rest.insert(p, k);
        assert(o == suffix_order(starts, k));
        assert forall|a: int| 0 <= a < o.len() implies k <= #[trigger] o[a] < starts.len() by {
            if a > p {
                assert(o[a] == rest[a - 1]);
            }
        }
        assert forall|a: int, b: int|
            0 <= a < b < o.len() implies !(#[trigger] starts[o[b]]).precedes(
            #[trigger] starts[o[a]]) by {
            if a < p && b == p {
                assert(ds[a] == starts[rest[a]]);
            } else if a < p && b > p {
                assert(ds[a] == starts[rest[a]]);
                assert(o[b] == rest[b - 1]);
                assert(ds[p] == starts[rest[p]]);
                if b - 1 > p {
                    assert(!starts[rest[b - 1]].precedes(starts[rest[p]]));
                }
            } else if a == p && b > p {
                assert(o[b] == rest[b - 1]);
                assert(ds[p] == starts[rest[p]]);
                if b - 1 > p {
                    assert(!starts[rest[b - 1]].precedes(starts[rest[p]]));
                }
            } else if a > p {
                assert(o[a] == rest[a - 1]);
                assert(o[b] == rest[b - 1]);
            }
        }
    }
}

/// The positions of `starts` in stable ascending order of date.
pub fn stable_order(starts: &Vec<Date>) -> (r: Vec<usize>)
    ensures
        r@.map_values(|i: usize| i as int) == sort_order(starts@),
{
    let n = starts.len();
    let mut ord: Vec<usize> = Vec::new();
    let mut k: usize = n;
    proof {
        lemma_suffix_order(starts@, n as int);
        assert(ord@.map_values(|i: usize| i as int) =~= suffix_order(starts@, n as int));
    }
    while k > 0
        invariant
            k <= n == starts.len(),
            ord@.map_values(|i: usize| i as int) == suffix_order(starts@, k as int),
        decreases k,
    {
        k = k - 1;
        proof {
            lemma_suffix_order(starts@, k + 1);
        }
        let ghost rest = suffix_order(starts@, k + 1);
        let ghost ds = rest.map_values(|j: int| starts@[j]);
        let x = starts[k];
        let mut p: usize = 0;
        let mut scanning = true;
        while scanning && p < ord.len()
            invariant
                k < n == starts.len(),
                p <= ord.len() == rest.len(),
                ord@.map_values(|i: usize| i as int) == rest,
                in_range(rest, k + 1, n as int),
                ds == rest.map_values(|j: int| starts@[j]),
                x == starts@[k as int],
                forall|q: int| 0 <= q < p ==> (#[trigger] ds[q]).precedes(x),
                !scanning ==> p < ord.len() && !ds[p as int].precedes(x),
            decreases ord.len() - p + (if scanning { 1int } else { 0int }),
        {
            let j = ord[p];
            assert(j as int == rest[p as int]);
            if starts[j].is_before(&x) {
                p = p + 1;
            } else {
                scanning = false;
            }
        }
        proof {
            if p < ord.len() {
                assert(ord@[p as int] as int == rest[p as int]);
            }
            lemma_insert_pos(ds, x, p as int);
        }
        ord.insert(p, k);
        assert(ord@.map_values(|i: usize| i as int) =~= rest.insert(p as int, k as int));
    }
    ord
}

} // verus!
