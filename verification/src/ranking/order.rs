//! The order of a ranking: which scores come first, and in which order.

use vstd::prelude::*;

verus! {

/// Whether the score at place `i` comes before the score at place `j`: it
/// is higher, or it is equal and stands earlier.
pub open spec fn outranks(scores: Seq<u64>, i: int, j: int) -> bool {
    scores[i] > scores[j] || (scores[i] == scores[j] && i < j)
}

/// Number of places of a ranking of `len` scores cut off after `top_n`.
pub open spec fn ranking_len(len: nat, top_n: nat) -> nat {
    if top_n < len {
        top_n
    } else {
        len
    }
}

/// Whether `order` lists the places of the `top_n` best scores, best first:
/// it has the right length, names places of `scores`, goes from each place to
/// one that it outranks, and leaves out only places that all of its own
/// outrank.
pub open spec fn is_ranking(scores: Seq<u64>, top_n: nat, order: Seq<usize>) -> bool {
    &&& order.len() == ranking_len(scores.len(), top_n)
    &&& forall|k: int| 0 <= k < order.len() ==> 0 <= #[trigger] order[k] < scores.len()
    &&& forall|a: int, b: int|
        0 <= a < b < order.len() ==> outranks(scores, #[trigger] order[a] as int, #[trigger] order[b] as int)
    &&& forall|k: int, j: int|
        0 <= k < order.len() && 0 <= j < scores.len() && !order.contains(j as usize)
            ==> #[trigger] outranks(scores, order[k] as int, j)
}

/// The ranking of `scores` cut off after `top_n`; there is exactly one.
pub open spec fn ranking_of(scores: Seq<u64>, top_n: nat) -> Seq<usize> {
    choose|order: Seq<usize>| is_ranking(scores, top_n, order)
}

/// Two rankings of the same scores agree on their first `k` places.
proof fn lemma_rankings_agree(scores: Seq<u64>, top_n: nat, x: Seq<usize>, y: Seq<usize>, k: int)
    requires
        is_ranking(scores, top_n, x),
        is_ranking(scores, top_n, y),
        0 <= k <= x.len(),
    ensures
        forall|i: int| 0 <= i < k ==> x[i] == y[i],
    decreases k,
{
    if k > 0 {
        lemma_rankings_agree(scores, top_n, x, y, k - 1);
        let i = k - 1;
        let p = x[i];
        let q = y[i];
        if p != q {
            if outranks(scores, p as int, q as int) {
                lemma_place_missing(scores, top_n, x, y, i);
            } else {
                assert(outranks(scores, q as int, p as int));
                lemma_place_missing(scores, top_n, y, x, i);
            }
        }
    }
}

/// If two rankings agree before place `i`, what the first has at `i` cannot
/// outrank what the second has there.
proof fn lemma_place_missing(scores: Seq<u64>, top_n: nat, x: Seq<usize>, y: Seq<usize>, i: int)
    requires
        is_ranking(scores, top_n, x),
        is_ranking(scores, top_n, y),
        0 <= i < x.len(),
        forall|a: int| 0 <= a < i ==> x[a] == y[a],
        x[i] != y[i],
    ensures
        !outranks(scores, x[i] as int, y[i] as int),
{
    let p = x[i];
    if outranks(scores, p as int, y[i] as int) {
        if y.contains(p) {
            let at = y.index_of(p);
            if at < i {
                assert(x[at] == p);
                assert(outranks(scores, x[at] as int, x[i] as int));
            } else {
                assert(at > i);
                assert(outranks(scores, y[i] as int, y[at] as int));
            }
        } else {
            assert(outranks(scores, y[i] as int, p as int));
        }
    }
}

/// The same scores and the same cut always give the same ranking: two
/// orders that both are rankings are one and the same.
pub proof fn lemma_ranking_unique(scores: Seq<u64>, top_n: nat, x: Seq<usize>, y: Seq<usize>)
    requires
        is_ranking(scores, top_n, x),
        is_ranking(scores, top_n, y),
    ensures
        x == y,
        x == ranking_of(scores, top_n),
{
    lemma_rankings_agree(scores, top_n, x, y, x.len() as int);
    assert(x =~= y);
    let z = ranking_of(scores, top_n);
    lemma_rankings_agree(scores, top_n, x, z, x.len() as int);
    assert(x =~= z);
}

/// An order that goes from each place to one that it outranks names no
/// place twice.
pub proof fn lemma_places_distinct(scores: Seq<u64>, order: Seq<usize>)
    requires
        forall|a: int, b: int|
            0 <= a < b < order.len() ==> outranks(
                scores,
                #[trigger] order[a] as int,
                #[trigger] order[b] as int,
            ),
    ensures
        order.no_duplicates(),
{
    assert forall|a: int, b: int|
        0 <= a < order.len() && 0 <= b < order.len() && a != b implies order[a] != order[b] by {
        if a < b {
            assert(outranks(scores, order[a] as int, order[b] as int));
        } else {
            assert(outranks(scores, order[b] as int, order[a] as int));
        }
    }
}

/// Whether `order` names place `j`.
pub open spec fn names_place(order: Seq<usize>, j: int) -> bool {
    order.contains(j as usize)
}

/// Fewer than `n` distinct places below `n` leave one of them out.
proof fn lemma_place_left(order: Seq<usize>, n: usize) -> (j: int)
    requires
        order.no_duplicates(),
        order.len() < n,
        forall|k: int| 0 <= k < order.len() ==> #[trigger] order[k] < n,
    ensures
        0 <= j < n,
        !order.contains(j as usize),
{
    let all = vstd::set_lib::set_int_range(0, n as int);
    vstd::set_lib::lemma_int_range(0, n as int);
    let named = order.to_set().map(|p: usize| p as int);
    if forall|j: int| 0 <= j < n ==> #[trigger] names_place(order, j) {
        vstd::seq_lib::seq_to_set_is_finite(order);
        order.unique_seq_to_set();
        order.to_set().lemma_map_finite(|p: usize| p as int);
        assert forall|j: int| all.contains(j) implies named.contains(j) by {
            assert(names_place(order, j));
            assert(order.to_set().contains(j as usize));
            assert((j as usize) as int == j);
        }
        vstd::set_lib::lemma_len_subset(all, named);
        vstd::set_lib::lemma_map_size_bound(order.to_set(), named, |p: usize| p as int);
        assert(false);
    }
    choose|j: int| 0 <= j < n && !names_place(order, j)
}

/// The places of the `top_n` highest scores, highest first; of equal scores
/// the earlier comes first.
pub fn rank_order(scores: &Vec<u64>, top_n: usize) -> (order: Vec<usize>)
    ensures
        is_ranking(scores@, top_n as nat, order@),
        order@ == ranking_of(scores@, top_n as nat),
{
    let n = scores.len();
    let m = if top_n < n { top_n } else { n };
    let mut taken: Vec<bool> = Vec::new();
    let mut t: usize = 0;
    while t < n
        invariant
            0 <= t <= n,
            taken.len() == t,
            forall|j: int| 0 <= j < t ==> !taken[j],
        decreases n - t,
    {
        taken.push(false);
        t = t + 1;
    }
    let mut order: Vec<usize> = Vec::new();
    while order.len() < m
        invariant
            n == scores.len(),
            m == ranking_len(n as nat, top_n as nat),
            order.len() <= m,
            taken.len() == n,
            forall|j: int| 0 <= j < n ==> (#[trigger] taken[j] <==> order@.contains(j as usize)),
            forall|k: int| 0 <= k < order.len() ==> 0 <= #[trigger] order[k] < n,
            forall|a: int, b: int|
                0 <= a < b < order.len() ==> outranks(
                    scores@,
                    #[trigger] order[a] as int,
                    #[trigger] order[b] as int,
                ),
            forall|k: int, j: int|
                0 <= k < order.len() && 0 <= j < n && !order@.contains(j as usize)
                    ==> #[trigger] outranks(scores@, order[k] as int, j),
        decreases m - order.len(),
    {
        let mut best: usize = n;
        let mut j: usize = 0;
        while j < n
            invariant
                0 <= j <= n,
                n == scores.len(),
                taken.len() == n,
                best <= n,
                best == n ==> forall|i: int| 0 <= i < j ==> #[trigger] taken[i],
                best < n ==> best < j && !taken[best as int],
                best < n ==> forall|i: int|
                    0 <= i < j && !#[trigger] taken[i] && i != best ==> outranks(
                        scores@,
                        best as int,
                        i,
                    ),
            decreases n - j,
        {
            if !taken[j] && (best == n || scores[j] > scores[best]) {
                best = j;
            }
            j = j + 1;
        }
        proof {
            let ghost old_order = order@;
            lemma_places_distinct(scores@, old_order);
            let free = lemma_place_left(old_order, n);
            assert(!taken[free]);
            assert(best < n);
        }
        let ghost before = order@;
        taken.set(best, true);
        order.push(best);
        proof {
            assert(order@ =~= before.push(best));
            assert forall|i: int| 0 <= i < n implies (#[trigger] taken[i] <==> order@.contains(
                i as usize,
            )) by {
                if i == best {
                    assert(order@[before.len() as int] == best);
                } else {
                    if before.contains(i as usize) {
                        let at = before.index_of(i as usize);
                        assert(order@[at] == i as usize);
                    }
                    if order@.contains(i as usize) {
                        let at = order@.index_of(i as usize);
                        assert(before[at] == i as usize);
                    }
                }
            }
            assert forall|a: int, b: int| 0 <= a < b < order.len() implies outranks(
                scores@,
                #[trigger] order[a] as int,
                #[trigger] order[b] as int,
            ) by {
                if b == before.len() {
                    assert(order[a] == before[a]);
                    assert(!before.contains(best));
                } else {
                    assert(order[a] == before[a] && order[b] == before[b]);
                }
            }
            assert forall|k: int, i: int|
                0 <= k < order.len() && 0 <= i < n && !order@.contains(
                    i as usize,
                ) implies #[trigger] outranks(scores@, order[k] as int, i) by {
                assert(!before.contains(i as usize)) by {
                    if before.contains(i as usize) {
                        let at = before.index_of(i as usize);
                        assert(order@[at] == i as usize);
                    }
                }
                if k < before.len() {
                    assert(order[k] == before[k]);
                } else {
                    assert(i != best) by {
                        assert(order@[before.len() as int] == best);
                    }
                    assert(!taken[i]);
                }
            }
        }
    }
    proof {
        lemma_ranking_unique(scores@, top_n as nat, order@, order@);
    }
    order
}

} // verus!
