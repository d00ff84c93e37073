use std::collections::HashSet;
use vstd::prelude::*;

verus! {

/// The elements of `s` in order, each kept only at its first occurrence.
pub open spec fn first_occurrences(s: Seq<usize>) -> Seq<usize>
    decreases s.len(),
{
    if s.len() == 0 {
        Seq::empty()
    } else if s.drop_last().contains(s.last()) {
        first_occurrences(s.drop_last())
    } else {
        first_occurrences(s.drop_last()).push(s.last())
    }
}

/// No element occurs twice in `s`.
pub open spec fn no_duplicates(s: Seq<usize>) -> bool {
    forall|i: int, j: int| 0 <= i < s.len() && 0 <= j < s.len() && i != j ==> s[i] != s[j]
}

/// Membership in `first_occurrences(s)` is membership in `s`, and no element repeats.
pub proof fn lemma_first_occurrences(s: Seq<usize>)
    ensures
        no_duplicates(first_occurrences(s)),
        forall|x: usize| #[trigger] first_occurrences(s).contains(x) <==> s.contains(x),
        first_occurrences(s).len() <= s.len(),
    decreases s.len(),
{
    if s.len() > 0 {
        let p = s.drop_last();
        lemma_first_occurrences(p);
        assert forall|x: usize| #[trigger] s.contains(x) <==> (p.contains(x) || x == s.last()) by {
            if s.contains(x) {
                let k = choose|k: int| 0 <= k < s.len() && s[k] == x;
                if k < s.len() - 1 {
                    assert(p[k] == x);
                }
            }
            if p.contains(x) {
                let k = choose|k: int| 0 <= k < p.len() && p[k] == x;
                assert(s[k] == x);
            }
            if x == s.last() {
                assert(s[s.len() - 1] == x);
            }
        }
        let d = first_occurrences(p);
        if !p.contains(s.last()) {
            let e = d.push(s.last());
            assert forall|x: usize| #[trigger] e.contains(x) <==> (d.contains(x) || x == s.last()) by {
                if e.contains(x) {
                    let k = choose|k: int| 0 <= k < e.len() && e[k] == x;
                    if k < d.len() {
                        assert(d[k] == x);
                    }
                }
                if d.contains(x) {
                    let k = choose|k: int| 0 <= k < d.len() && d[k] == x;
                    assert(e[k] == x);
                }
                if x == s.last() {
                    assert(e[e.len() - 1] == x);
                }
            }
            assert forall|i: int, j: int| 0 <= i < e.len() && 0 <= j < e.len() && i != j implies e[i] != e[j] by {
                if i < d.len() && j < d.len() {
                } else if i == d.len() {
                    assert(d.contains(e[j]));
                } else {
                    assert(d.contains(e[i]));
                }
            }
        }
    }
}

/// Keeping the first occurrences twice changes nothing more than keeping them once.
pub proof fn lemma_first_occurrences_idempotent(s: Seq<usize>)
    ensures
        first_occurrences(first_occurrences(s)) == first_occurrences(s),
{
    lemma_first_occurrences(s);
    lemma_no_duplicates_fixed(first_occurrences(s));
}

/// A sequence without repeated elements is its own first occurrences.
pub proof fn lemma_no_duplicates_fixed(s: Seq<usize>)
    requires
        no_duplicates(s),
    ensures
        first_occurrences(s) == s,
    decreases s.len(),
{
    if s.len() > 0 {
        let p = s.drop_last();
        assert(no_duplicates(p));
        lemma_no_duplicates_fixed(p);
        if p.contains(s.last()) {
            let k = choose|k: int| 0 <= k < p.len() && p[k] == s.last();
            assert(s[k] == s[s.len() - 1]);
        }
        assert(p.push(s.last()) =~= s);
    }
}

/// `x` occurs in `s` for the first time at position `p`.
pub open spec fn first_at(s: Seq<usize>, x: usize, p: int) -> bool {
    &&& 0 <= p < s.len()
    &&& s[p] == x
    &&& !s.take(p).contains(x)
}

proof fn lemma_first_at_in_prefix(s: Seq<usize>, x: usize, p: int)
    requires
        s.len() > 0,
        first_at(s, x, p),
        s.drop_last().contains(x),
    ensures
        p < s.len() - 1,
        first_at(s.drop_last(), x, p),
{
    if p == s.len() - 1 {
        assert(s.take(p) =~= s.drop_last());
    }
    assert(s.drop_last().take(p) =~= s.take(p));
}

/// Keeping first occurrences keeps their order: of two kept elements, the one
/// that first occurs earlier in `s` comes first.
pub proof fn lemma_first_occurrences_in_order(s: Seq<usize>)
    ensures
        forall|i: int, j: int, p: int, q: int|
            0 <= i < j < first_occurrences(s).len() && #[trigger] first_at(s, first_occurrences(s)[i], p)
                && #[trigger] first_at(s, first_occurrences(s)[j], q) ==> p < q,
    decreases s.len(),
{
    if s.len() > 0 {
        let pre = s.drop_last();
        let d = first_occurrences(pre);
        let r = first_occurrences(s);
        lemma_first_occurrences_in_order(pre);
        lemma_first_occurrences(pre);
        assert forall|i: int, j: int, p: int, q: int|
            0 <= i < j < r.len() && #[trigger] first_at(s, r[i], p) && #[trigger] first_at(s, r[j], q) implies p < q by {
            assert(d.contains(r[i])) by {
                assert(r[i] == d[i]);
            }
            lemma_first_at_in_prefix(s, r[i], p);
            if j < d.len() {
                assert(r[j] == d[j]);
                assert(d.contains(r[j]));
                lemma_first_at_in_prefix(s, r[j], q);
                assert(d[i] == r[i] && d[j] == r[j]);
            } else {
                assert(r[j] == s.last());
                if q < s.len() - 1 {
                    assert(pre[q] == s.last());
                }
            }
        }
    }
}

/// Removes the repeated elements of `vec`, keeping each element at its first occurrence.
pub fn remove_duplicates(vec: Vec<usize>) -> (result: Vec<usize>)
    ensures
        result@ == first_occurrences(vec@),
        no_duplicates(result@),
        forall|i: int, j: int| 0 <= i < j < result@.len() ==> #[trigger] result@[i] != #[trigger] result@[j],
        forall|x: usize| #[trigger] result@.contains(x) <==> vec@.contains(x),
        forall|i: int, j: int, p: int, q: int|
            0 <= i < j < result@.len() && #[trigger] first_at(vec@, result@[i], p) && #[trigger] first_at(vec@, result@[j], q)
                ==> p < q,
        forall|i: int, j: int, p: int, q: int|
            #![trigger result@[i], result@[j], vec@[p], vec@[q]]
            0 <= i < j < result@.len() && 0 <= p < vec@.len() && 0 <= q < vec@.len()
                && vec@[p] == result@[i] && !vec@.take(p).contains(result@[i])
                && vec@[q] == result@[j] && !vec@.take(q).contains(result@[j])
                ==> p < q,
{
    broadcast use vstd::std_specs::hash::group_hash_axioms;

    let mut seen: HashSet<usize> = HashSet::new();
    let mut result: Vec<usize> = Vec::new();
    let mut i: usize = 0;
    while i < vec.len()
        invariant
            0 <= i <= vec.len(),
            result@ == first_occurrences(vec@.take(i as int)),
            forall|x: usize| #[trigger] seen@.contains(x) <==> vec@.take(i as int).contains(x),
        decreases vec.len() - i,
    {
        let x = vec[i];
        let ghost before = vec@.take(i as int);
        let ghost after = vec@.take(i + 1);
        assert(after.drop_last() =~= before);
        assert(after.last() == x);
        assert forall|y: usize| #[trigger] after.contains(y) <==> (before.contains(y) || y == x) by {
            if after.contains(y) {
                let k = choose|k: int| 0 <= k < after.len() && after[k] == y;
                if k < before.len() {
                    assert(before[k] == y);
                }
            }
            if before.contains(y) {
                let k = choose|k: int| 0 <= k < before.len() && before[k] == y;
                assert(after[k] == y);
            }
            if y == x {
                assert(after[after.len() - 1] == y);
            }
        }
        let fresh = seen.insert(x);
        if fresh {
            result.push(x);
        }
        i += 1;
    }
    assert(vec@.take(vec.len() as int) =~= vec@);
    proof {
        lemma_first_occurrences(vec@);
        lemma_first_occurrences_in_order(vec@);
        assert forall|i: int, j: int, p: int, q: int|
            #![trigger result@[i], result@[j], vec@[p], vec@[q]]
            0 <= i < j < result@.len() && 0 <= p < vec@.len() && 0 <= q < vec@.len()
                && vec@[p] == result@[i] && !vec@.take(p).contains(result@[i])
                && vec@[q] == result@[j] && !vec@.take(q).contains(result@[j])
            implies p < q by {
            assert(first_at(vec@, result@[i], p) && first_at(vec@, result@[j], q));
        }
    }
    result
}

/// Position `a` comes before position `b` when ordering by `keys`: a smaller
/// key first, and among equal keys the earlier position first.
pub open spec fn key_before(keys: Seq<u64>, a: int, b: int) -> bool {
    keys[a] < keys[b] || (keys[a] == keys[b] && a < b)
}

/// `order` lists every position of `keys` once, ascending by key, equal keys
/// in their original order: the order in which a stable sort by key leaves
/// the items.
pub open spec fn is_ascending_order(keys: Seq<u64>, order: Seq<usize>) -> bool {
    &&& order.len() == keys.len()
    &&& forall|k: int| 0 <= k < order.len() ==> #[trigger] order[k] < keys.len()
    &&& forall|i: int, j: int| 0 <= i < j < order.len() ==> key_before(keys, #[trigger] order[i] as int, #[trigger] order[j] as int)
    &&& forall|x: usize| x < keys.len() ==> #[trigger] order.contains(x)
}

/// The positions of `keys`, ascending by key, equal keys in their original
/// order (the order a stable sort by these keys gives).
pub fn ascending_order(keys: &Vec<u64>) -> (order: Vec<usize>)
    ensures
        is_ascending_order(keys@, order@),
        order@.len() == keys@.len(),
        forall|k: int| 0 <= k < order@.len() ==> #[trigger] order@[k] < keys@.len(),
        forall|x: usize| x < keys@.len() ==> #[trigger] order@.contains(x),
        forall|i: int, j: int|
            0 <= i < j < order@.len() ==> keys@[#[trigger] order@[i] as int] <= keys@[#[trigger] order@[j] as int]
                && (keys@[order@[i] as int] == keys@[order@[j] as int] ==> order@[i] < order@[j]),
{
    let mut order: Vec<usize> = Vec::new();
    let mut i: usize = 0;
    while i < keys.len()
        invariant
            i <= keys@.len(),
            order@.len() == i,
            forall|k: int| 0 <= k < order@.len() ==> #[trigger] order@[k] < i,
            forall|a: int, b: int| 0 <= a < b < order@.len() ==> key_before(keys@, #[trigger] order@[a] as int, #[trigger] order@[b] as int),
            forall|x: usize| x < i ==> #[trigger] order@.contains(x),
        decreases keys@.len() - i,
    {
        let key = keys[i];
        let mut p: usize = 0;
        while p < order.len() && keys[order[p]] <= key
            invariant
                p <= order@.len(),
                order@.len() == i,
                i < keys@.len(),
                key == keys@[i as int],
                forall|k: int| 0 <= k < order@.len() ==> #[trigger] order@[k] < i,
                forall|k: int| 0 <= k < p ==> keys@[#[trigger] order@[k] as int] <= key,
            decreases order@.len() - p,
        {
            p += 1;
        }
        let ghost before = order@;
        assert forall|k: int| p <= k < before.len() implies key < keys@[#[trigger] before[k] as int] by {
            assert(key < keys@[before[p as int] as int]);
            if k > p {
                assert(key_before(keys@, before[p as int] as int, before[k] as int));
            }
        }
        order.insert(p, i);
        assert(order@ == before.insert(p as int, i));
        assert forall|k: int| 0 <= k < order@.len() implies #[trigger] order@[k] < i + 1 by {
            if k < p {
                assert(order@[k] == before[k]);
            } else if k > p {
                assert(order@[k] == before[k - 1]);
            }
        }
        assert forall|a: int, b: int| 0 <= a < b < order@.len() implies key_before(keys@, #[trigger] order@[a] as int, #[trigger] order@[b] as int) by {
            if b < p {
                assert(order@[a] == before[a] && order@[b] == before[b]);
            } else if b == p {
                assert(order@[a] == before[a]);
                assert(keys@[before[a] as int] <= key);
            } else if a < p {
                assert(order@[a] == before[a] && order@[b] == before[b - 1]);
                assert(key_before(keys@, before[a] as int, before[b - 1] as int));
            } else if a == p {
                assert(order@[b] == before[b - 1]);
                assert(key < keys@[before[b - 1] as int]);
            } else {
                assert(order@[a] == before[a - 1] && order@[b] == before[b - 1]);
                assert(key_before(keys@, before[a - 1] as int, before[b - 1] as int));
            }
        }
        assert forall|x: usize| x < i + 1 implies #[trigger] order@.contains(x) by {
            if x == i {
                assert(order@[p as int] == x);
            } else {
                assert(before.contains(x));
                let k = choose|k: int| 0 <= k < before.len() && before[k] == x;
                if k < p {
                    assert(order@[k] == x);
                } else {
                    assert(order@[k + 1] == x);
                }
            }
        }
        i += 1;
    }
    order
}

/// There is only one ascending order of a list of keys, so `ascending_order`
/// gives exactly the order of a stable sort by key.
pub proof fn lemma_ascending_order_unique(keys: Seq<u64>, first: Seq<usize>, second: Seq<usize>)
    requires
        is_ascending_order(keys, first),
        is_ascending_order(keys, second),
    ensures
        first == second,
{
    lemma_ascending_orders_agree_from(keys, first, second, 0);
    assert(first =~= second);
}

proof fn lemma_ascending_orders_agree_from(keys: Seq<u64>, first: Seq<usize>, second: Seq<usize>, k: int)
    requires
        is_ascending_order(keys, first),
        is_ascending_order(keys, second),
        0 <= k <= keys.len(),
        forall|j: int| 0 <= j < k ==> #[trigger] first[j] == second[j],
    ensures
        forall|j: int| 0 <= j < keys.len() ==> #[trigger] first[j] == second[j],
    decreases keys.len() - k,
{
    if k < keys.len() {
        if first[k] != second[k] {
            let x = second[k];
            assert(first.contains(x));
            let m = choose|m: int| 0 <= m < first.len() && first[m] == x;
            if m < k {
                assert(second[m] == x);
                assert(key_before(keys, second[m] as int, second[k] as int));
            }
            assert(key_before(keys, first[k] as int, first[m] as int));
            let y = first[k];
            assert(second.contains(y));
            let m2 = choose|m2: int| 0 <= m2 < second.len() && second[m2] == y;
            if m2 < k {
                assert(first[m2] == y);
                assert(key_before(keys, first[m2] as int, first[k] as int));
            }
            assert(key_before(keys, second[k] as int, second[m2] as int));
        }
        lemma_ascending_orders_agree_from(keys, first, second, k + 1);
    }
}

} // verus!
