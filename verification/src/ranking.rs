//! The order of search results.
//!
//! A search is given one score for each entry, by position. The entries
//! whose score reaches the threshold are the matches; the ranking lists their
//! positions, the higher score first and of two equal scores the entry that
//! was added earlier.

use vstd::prelude::*;
use crate::similarity::Similarity;

verus! {

/// The keys of a sequence of scores.
pub open spec fn keys(scores: Seq<Similarity>) -> Seq<int> {
    scores.map_values(|s: Similarity| s@)
}

/// The positions in `order`, as mathematical integers.
pub open spec fn positions(order: Seq<usize>) -> Seq<int> {
    order.map_values(|i: usize| i as int)
}

/// Whether every position in `order` is a position in a list of `len` scores.
pub open spec fn in_range(order: Seq<usize>, len: nat) -> bool {
    forall|k: int| 0 <= k < order.len() ==> (#[trigger] order[k]) < len
}

/// Whether the entry at position `i` passes the threshold.
pub open spec fn retained(scores: Seq<int>, min_sim: int, i: int) -> bool {
    0 <= i < scores.len() && scores[i] >= min_sim
}

/// Whether the entry at position `i` is listed before the one at `j`: the
/// higher score first, and of two equal scores the entry added earlier.
pub open spec fn outranks(scores: Seq<int>, i: int, j: int) -> bool {
    scores[i] > scores[j] || (scores[i] == scores[j] && i < j)
}

/// Whether `order` lists its positions best first.
pub open spec fn best_first(order: Seq<int>, scores: Seq<int>) -> bool {
    forall|k: int, l: int|
        0 <= k < l < order.len() ==> outranks(scores, #[trigger] order[k], #[trigger] order[l])
}

/// Whether `order` lists exactly the matches, each once, best first.
pub open spec fn is_ranking(order: Seq<int>, scores: Seq<int>, min_sim: int) -> bool {
    &&& forall|k: int| 0 <= k < order.len() ==> retained(scores, min_sim, #[trigger] order[k])
    &&& forall|i: int| retained(scores, min_sim, i) ==> order.contains(i)
    &&& best_first(order, scores)
}

/// The ranking: the list of exactly the matches, each once, best first.
pub open spec fn ranking(scores: Seq<int>, min_sim: int) -> Seq<int> {
    choose|order: Seq<int>| is_ranking(order, scores, min_sim)
}

/// There is a ranking, and it is what `ranking` names: it lists exactly the
/// entries whose score reaches the threshold, each of them once, by falling
/// score, and those with one score in the order in which they were added.
pub proof fn lemma_ranking_lists_matches_best_first(scores: Seq<int>, min_sim: int)
    ensures
        is_ranking(ranking(scores, min_sim), scores, min_sim),
        ranking(scores, min_sim).len() <= scores.len(),
        forall|k: int|
            0 <= k < ranking(scores, min_sim).len() ==> 0 <= (#[trigger] ranking(scores, min_sim)[k])
                < scores.len(),
{
    lemma_built_is_the_ranking(scores, min_sim);
    lemma_ranking_in_range(scores, min_sim, scores.len());
}

/// The ranking is the only list of exactly the matches, each once, best
/// first.
pub proof fn lemma_ranking_is_the_only_one(order: Seq<int>, scores: Seq<int>, min_sim: int)
    requires
        is_ranking(order, scores, min_sim),
    ensures
        order == ranking(scores, min_sim),
{
    let named = ranking(scores, min_sim);
    assert(is_ranking(named, scores, min_sim));
    lemma_same_matches(order, named, scores, min_sim);
    lemma_best_first_is_unique(order, named, scores);
}

/// Ranks the entries by their scores: the positions of those whose score is
/// at least `min_sim`, best first.
pub fn rank(scores: &Vec<Similarity>, min_sim: Similarity) -> (order: Vec<usize>)
    ensures
        positions(order@) == ranking(keys(scores@), min_sim@),
        order@.len() <= scores@.len(),
        in_range(order@, scores@.len()),
{
    let ghost ks = keys(scores@);
    let n: usize = scores.len();
    let mut matches: Vec<usize> = Vec::new();
    let mut i: usize = 0;
    while i < n
        invariant
            i <= n,
            n == scores@.len(),
            ks == keys(scores@),
            matches@.len() <= i,
            ascending(matches@),
            forall|k: int| 0 <= k < matches@.len() ==> (#[trigger] matches@[k]) < i,
            forall|k: int|
                0 <= k < matches@.len() ==> retained(ks, min_sim@, (#[trigger] matches@[k]) as int),
            forall|j: int|
                0 <= j < i && retained(ks, min_sim@, j) ==> stands_in(matches@, 0, matches@.len() as int, j),
        decreases n - i,
    {
        assert(ks[i as int] == scores@[i as int]@);
        let ghost before = matches@;
        if scores[i].at_least(&min_sim) {
            matches.push(i);
        }
        proof {
            assert forall|j: int| 0 <= j < i + 1 && retained(ks, min_sim@, j) implies stands_in(
                matches@,
                0,
                matches@.len() as int,
                j,
            ) by {
                if j < i {
                    let k = choose|k: int| 0 <= k < before.len() && #[trigger] before[k] == j;
                    assert(matches@[k] == j);
                } else {
                    assert(matches@[before.len() as int] == j);
                }
            }
        }
        i += 1;
    }
    let order: Vec<usize> = rank_part(&matches, 0, matches.len(), scores);
    proof {
        let listed = positions(order@);
        assert forall|k: int| 0 <= k < listed.len() implies retained(
            ks,
            min_sim@,
            #[trigger] listed[k],
        ) by {
            let p = order@[k] as int;
            assert(stands_in(order@, 0, order@.len() as int, p));
            assert(stands_in(matches@, 0, matches@.len() as int, p));
            let j = choose|j: int| 0 <= j < matches@.len() && #[trigger] matches@[j] == p;
            assert(retained(ks, min_sim@, matches@[j] as int));
        }
        assert forall|v: int| retained(ks, min_sim@, v) implies listed.contains(v) by {
            assert(stands_in(matches@, 0, matches@.len() as int, v));
            assert(stands_in(order@, 0, order@.len() as int, v));
            let k = choose|k: int| 0 <= k < order@.len() && #[trigger] order@[k] == v;
            assert(listed[k] == v);
        }
        lemma_ranking_is_the_only_one(listed, ks, min_sim@);
    }
    order
}

/// Whether `matches` holds positions in growing order.
spec fn ascending(matches: Seq<usize>) -> bool {
    forall|j: int, k: int| 0 <= j < k < matches.len() ==> (#[trigger] matches[j]) < (#[trigger] matches[k])
}

/// Whether `value` stands in `list` at a place from `lo` on and before `hi`.
spec fn stands_in(list: Seq<usize>, lo: int, hi: int, value: int) -> bool {
    exists|j: int| lo <= j < hi && #[trigger] list[j] == value
}

/// Whether the entry at position `i` is listed before the one at `j`.
fn comes_first(scores: &Vec<Similarity>, i: usize, j: usize) -> (yes: bool)
    requires
        i < scores@.len(),
        j < scores@.len(),
    ensures
        yes == outranks(keys(scores@), i as int, j as int),
{
    assert(keys(scores@)[i as int] == scores@[i as int]@);
    assert(keys(scores@)[j as int] == scores@[j as int]@);
    if scores[j].below(&scores[i]) {
        true
    } else if scores[i].below(&scores[j]) {
        false
    } else {
        i < j
    }
}

/// Merges two ranked lists that share no position into one.
fn merge(left: &Vec<usize>, right: &Vec<usize>, scores: &Vec<Similarity>) -> (merged: Vec<usize>)
    requires
        in_range(left@, scores@.len()),
        in_range(right@, scores@.len()),
        best_first(positions(left@), keys(scores@)),
        best_first(positions(right@), keys(scores@)),
        forall|x: int, y: int|
            0 <= x < left@.len() && 0 <= y < right@.len() ==> (#[trigger] left@[x]) != (
            #[trigger] right@[y]),
        left@.len() + right@.len() <= usize::MAX,
    ensures
        merged@.len() == left@.len() + right@.len(),
        in_range(merged@, scores@.len()),
        best_first(positions(merged@), keys(scores@)),
        forall|v: int|
            stands_in(merged@, 0, merged@.len() as int, v) <==> stands_in(
                left@,
                0,
                left@.len() as int,
                v,
            ) || stands_in(right@, 0, right@.len() as int, v),
{
    let ghost ks = keys(scores@);
    let mut merged: Vec<usize> = Vec::new();
    let mut a: usize = 0;
    let mut b: usize = 0;
    while a < left.len() || b < right.len()
        invariant
            a <= left@.len(),
            b <= right@.len(),
            merged@.len() == a + b,
            ks == keys(scores@),
            in_range(left@, scores@.len()),
            in_range(right@, scores@.len()),
            in_range(merged@, scores@.len()),
            best_first(positions(left@), ks),
            best_first(positions(right@), ks),
            forall|x: int, y: int|
                0 <= x < left@.len() && 0 <= y < right@.len() ==> (#[trigger] left@[x]) != (
                #[trigger] right@[y]),
            best_first(positions(merged@), ks),
            forall|k: int, x: int|
                0 <= k < merged@.len() && a <= x < left@.len() ==> outranks(
                    ks,
                    (#[trigger] merged@[k]) as int,
                    (#[trigger] left@[x]) as int,
                ),
            forall|k: int, y: int|
                0 <= k < merged@.len() && b <= y < right@.len() ==> outranks(
                    ks,
                    (#[trigger] merged@[k]) as int,
                    (#[trigger] right@[y]) as int,
                ),
            forall|k: int|
                0 <= k < merged@.len() ==> stands_in(left@, 0, a as int, (#[trigger] merged@[k]) as int)
                    || stands_in(right@, 0, b as int, merged@[k] as int),
            forall|x: int|
                0 <= x < a ==> stands_in(merged@, 0, merged@.len() as int, (#[trigger] left@[x]) as int),
            forall|y: int|
                0 <= y < b ==> stands_in(merged@, 0, merged@.len() as int, (#[trigger] right@[y]) as int),
        decreases (left@.len() - a) + (right@.len() - b),
    {
        let from_left: bool = if a == left.len() {
            false
        } else if b == right.len() {
            true
        } else {
            comes_first(scores, left[a], right[b])
        };
        let ghost before = merged@;
        let ghost a0 = a as int;
        let ghost b0 = b as int;
        let next: usize = if from_left {
            left[a]
        } else {
            right[b]
        };
        proof {
            let ps = positions(left@);
            let qs = positions(right@);
            if from_left {
                assert forall|x: int| a0 < x < left@.len() implies outranks(
                    ks,
                    next as int,
                    (#[trigger] left@[x]) as int,
                ) by {
                    assert(outranks(ks, ps[a0], ps[x]));
                }
                assert forall|y: int| b0 <= y < right@.len() implies outranks(
                    ks,
                    next as int,
                    (#[trigger] right@[y]) as int,
                ) by {
                    if y > b0 {
                        assert(outranks(ks, qs[b0], qs[y]));
                    }
                }
            } else {
                assert forall|y: int| b0 < y < right@.len() implies outranks(
                    ks,
                    next as int,
                    (#[trigger] right@[y]) as int,
                ) by {
                    assert(outranks(ks, qs[b0], qs[y]));
                }
                assert forall|x: int| a0 <= x < left@.len() implies outranks(
                    ks,
                    next as int,
                    (#[trigger] left@[x]) as int,
                ) by {
                    assert(left@[a0] != right@[b0]);
                    if x > a0 {
                        assert(outranks(ks, ps[a0], ps[x]));
                    }
                }
            }
        }
        merged.push(next);
        if from_left {
            a += 1;
        } else {
            b += 1;
        }
        proof {
            let now = positions(merged@);
            let was = positions(before);
            assert forall|k: int, l: int| 0 <= k < l < now.len() implies outranks(
                ks,
                #[trigger] now[k],
                #[trigger] now[l],
            ) by {
                if l < before.len() {
                    assert(outranks(ks, was[k], was[l]));
                } else {
                    assert(merged@[k] == before[k]);
                }
            }
            assert forall|k: int| 0 <= k < merged@.len() implies stands_in(
                left@,
                0,
                a as int,
                (#[trigger] merged@[k]) as int,
            ) || stands_in(right@, 0, b as int, merged@[k] as int) by {
                if k < before.len() {
                    assert(merged@[k] == before[k]);
                    if stands_in(left@, 0, a0, before[k] as int) {
                        let j = choose|j: int| 0 <= j < a0 && #[trigger] left@[j] == before[k] as int;
                        assert(left@[j] == merged@[k] as int);
                    } else {
                        let j = choose|j: int| 0 <= j < b0 && #[trigger] right@[j] == before[k] as int;
                        assert(right@[j] == merged@[k] as int);
                    }
                } else if from_left {
                    assert(left@[a0] == merged@[k] as int);
                } else {
                    assert(right@[b0] == merged@[k] as int);
                }
            }
            assert forall|x: int| 0 <= x < a implies stands_in(
                merged@,
                0,
                merged@.len() as int,
                (#[trigger] left@[x]) as int,
            ) by {
                if x < a0 {
                    let j = choose|j: int| 0 <= j < before.len() && #[trigger] before[j] == left@[x] as int;
                    assert(merged@[j] == left@[x] as int);
                } else {
                    assert(merged@[before.len() as int] == left@[x] as int);
                }
            }
            assert forall|y: int| 0 <= y < b implies stands_in(
                merged@,
                0,
                merged@.len() as int,
                (#[trigger] right@[y]) as int,
            ) by {
                if y < b0 {
                    let j = choose|j: int| 0 <= j < before.len() && #[trigger] before[j] == right@[y] as int;
                    assert(merged@[j] == right@[y] as int);
                } else {
                    assert(merged@[before.len() as int] == right@[y] as int);
                }
            }
            assert forall|k: int, x: int| 0 <= k < merged@.len() && a <= x < left@.len() implies outranks(
                ks,
                (#[trigger] merged@[k]) as int,
                (#[trigger] left@[x]) as int,
            ) by {
                if k < before.len() {
                    assert(merged@[k] == before[k]);
                }
            }
            assert forall|k: int, y: int| 0 <= k < merged@.len() && b <= y < right@.len() implies outranks(
                ks,
                (#[trigger] merged@[k]) as int,
                (#[trigger] right@[y]) as int,
            ) by {
                if k < before.len() {
                    assert(merged@[k] == before[k]);
                }
            }
        }
    }
    proof {
        assert forall|v: int|
            stands_in(merged@, 0, merged@.len() as int, v) <==> stands_in(
                left@,
                0,
                left@.len() as int,
                v,
            ) || stands_in(right@, 0, right@.len() as int, v) by {
            if stands_in(merged@, 0, merged@.len() as int, v) {
                let k = choose|k: int| 0 <= k < merged@.len() && #[trigger] merged@[k] == v;
                assert(stands_in(left@, 0, a as int, merged@[k] as int) || stands_in(
                    right@,
                    0,
                    b as int,
                    merged@[k] as int,
                ));
            }
            if stands_in(left@, 0, left@.len() as int, v) {
                let x = choose|x: int| 0 <= x < left@.len() && #[trigger] left@[x] == v;
                assert(stands_in(merged@, 0, merged@.len() as int, left@[x] as int));
            }
            if stands_in(right@, 0, right@.len() as int, v) {
                let y = choose|y: int| 0 <= y < right@.len() && #[trigger] right@[y] == v;
                assert(stands_in(merged@, 0, merged@.len() as int, right@[y] as int));
            }
        }
    }
    merged
}

/// Ranks the positions that `matches` holds from `lo` on and before `hi`.
fn rank_part(matches: &Vec<usize>, lo: usize, hi: usize, scores: &Vec<Similarity>) -> (order: Vec<
    usize,
>)
    requires
        lo <= hi <= matches@.len(),
        ascending(matches@),
        in_range(matches@, scores@.len()),
    ensures
        order@.len() == hi - lo,
        in_range(order@, scores@.len()),
        best_first(positions(order@), keys(scores@)),
        forall|v: int|
            stands_in(order@, 0, order@.len() as int, v) <==> stands_in(matches@, lo as int, hi as int, v),
    decreases hi - lo,
{
    if hi - lo <= 1 {
        let mut order: Vec<usize> = Vec::new();
        if lo < hi {
            order.push(matches[lo]);
            assert forall|v: int| stands_in(matches@, lo as int, hi as int, v) implies stands_in(
                order@,
                0,
                order@.len() as int,
                v,
            ) by {
                assert(order@[0] == matches@[lo as int]);
            }
        }
        return order;
    }
    let mid: usize = lo + (hi - lo) / 2;
    let left: Vec<usize> = rank_part(matches, lo, mid, scores);
    let right: Vec<usize> = rank_part(matches, mid, hi, scores);
    proof {
        assert forall|x: int, y: int| 0 <= x < left@.len() && 0 <= y < right@.len() implies (
        #[trigger] left@[x]) != (#[trigger] right@[y]) by {
            let p = left@[x] as int;
            let q = right@[y] as int;
            assert(stands_in(left@, 0, left@.len() as int, p));
            assert(stands_in(right@, 0, right@.len() as int, q));
            assert(stands_in(matches@, lo as int, mid as int, p));
            assert(stands_in(matches@, mid as int, hi as int, q));
            let j = choose|j: int| lo <= j < mid && #[trigger] matches@[j] == p;
            let k = choose|k: int| mid <= k < hi && #[trigger] matches@[k] == q;
            assert(matches@[j] < matches@[k]);
        }
    }
    let order: Vec<usize> = merge(&left, &right, scores);
    proof {
        assert forall|v: int|
            stands_in(order@, 0, order@.len() as int, v) <==> stands_in(
                matches@,
                lo as int,
                hi as int,
                v,
            ) by {
            if stands_in(matches@, lo as int, hi as int, v) {
                let j = choose|j: int| lo <= j < hi && #[trigger] matches@[j] == v;
                if j < mid {
                    assert(stands_in(matches@, lo as int, mid as int, v));
                } else {
                    assert(stands_in(matches@, mid as int, hi as int, v));
                }
            }
            if stands_in(matches@, lo as int, mid as int, v) {
                let j = choose|j: int| lo <= j < mid && #[trigger] matches@[j] == v;
                assert(lo <= j < hi);
            }
            if stands_in(matches@, mid as int, hi as int, v) {
                let j = choose|j: int| mid <= j < hi && #[trigger] matches@[j] == v;
                assert(lo <= j < hi);
            }
        }
    }
    order
}

/// Two rankings list the same positions.
proof fn lemma_same_matches(a: Seq<int>, b: Seq<int>, scores: Seq<int>, min_sim: int)
    requires
        is_ranking(a, scores, min_sim),
        is_ranking(b, scores, min_sim),
    ensures
        forall|i: int| a.contains(i) <==> b.contains(i),
{
    assert forall|i: int| a.contains(i) <==> b.contains(i) by {
        if a.contains(i) {
            let k = choose|k: int| 0 <= k < a.len() && a[k] == i;
            assert(retained(scores, min_sim, a[k]));
        }
        if b.contains(i) {
            let k = choose|k: int| 0 <= k < b.len() && b[k] == i;
            assert(retained(scores, min_sim, b[k]));
        }
    }
}

/// Two lists of the same positions, both best first, are one list.
proof fn lemma_best_first_is_unique(a: Seq<int>, b: Seq<int>, scores: Seq<int>)
    requires
        best_first(a, scores),
        best_first(b, scores),
        forall|i: int| a.contains(i) <==> b.contains(i),
    ensures
        a == b,
    decreases a.len(),
{
    if a.len() == 0 {
        if b.len() > 0 {
            assert(b.contains(b[0]));
        }
        assert(a =~= b);
    } else {
        assert(a.contains(a[0]));
        let j = choose|j: int| 0 <= j < b.len() && b[j] == a[0];
        assert(b.contains(b[0]));
        let i = choose|i: int| 0 <= i < a.len() && a[i] == b[0];
        if i > 0 {
            assert(outranks(scores, a[0], a[i]));
            if j > 0 {
                assert(outranks(scores, b[0], b[j]));
            }
        }
        assert(a[0] == b[0]);
        let rest_a = a.skip(1);
        let rest_b = b.skip(1);
        assert forall|k: int, l: int| 0 <= k < l < rest_a.len() implies outranks(
            scores,
            #[trigger] rest_a[k],
            #[trigger] rest_a[l],
        ) by {
            assert(outranks(scores, a[k + 1], a[l + 1]));
        }
        assert forall|k: int, l: int| 0 <= k < l < rest_b.len() implies outranks(
            scores,
            #[trigger] rest_b[k],
            #[trigger] rest_b[l],
        ) by {
            assert(outranks(scores, b[k + 1], b[l + 1]));
        }
        assert forall|x: int| rest_a.contains(x) <==> rest_b.contains(x) by {
            if rest_a.contains(x) {
                let k = choose|k: int| 0 <= k < rest_a.len() && rest_a[k] == x;
                assert(a[k + 1] == x);
                assert(outranks(scores, a[0], a[k + 1]));
                assert(a.contains(x));
                let l = choose|l: int| 0 <= l < b.len() && b[l] == x;
                assert(rest_b[l - 1] == x);
            }
            if rest_b.contains(x) {
                let k = choose|k: int| 0 <= k < rest_b.len() && rest_b[k] == x;
                assert(b[k + 1] == x);
                assert(outranks(scores, b[0], b[k + 1]));
                assert(b.contains(x));
                let l = choose|l: int| 0 <= l < a.len() && a[l] == x;
                assert(rest_a[l - 1] == x);
            }
        }
        lemma_best_first_is_unique(rest_a, rest_b, scores);
        assert(a =~= seq![a[0]] + rest_a);
        assert(b =~= seq![b[0]] + rest_b);
    }
}

/// Where an entry with `score` that was added after all of `order` enters the
/// ranked `order`: behind the last entry whose score is at least `score`.
spec fn slot(order: Seq<int>, scores: Seq<int>, score: int) -> int
    decreases order.len(),
{
    if order.len() == 0 || scores[order.last()] >= score {
        order.len() as int
    } else {
        slot(order.drop_last(), scores, score)
    }
}

/// The ranking of the first `n` entries, built up entry by entry.
spec fn ranking_of_first(scores: Seq<int>, min_sim: int, n: nat) -> Seq<int>
    decreases n,
{
    if n == 0 {
        Seq::empty()
    } else {
        let before = ranking_of_first(scores, min_sim, (n - 1) as nat);
        if retained(scores, min_sim, n - 1) {
            before.insert(slot(before, scores, scores[n - 1]), n - 1)
        } else {
            before
        }
    }
}

/// A slot lies within the order or at its end.
proof fn lemma_slot_in_range(order: Seq<int>, scores: Seq<int>, score: int)
    ensures
        0 <= slot(order, scores, score) <= order.len(),
    decreases order.len(),
{
    if !(order.len() == 0 || scores[order.last()] >= score) {
        lemma_slot_in_range(order.drop_last(), scores, score);
    }
}

/// Every position in the ranking of the first `n` entries is one of them.
proof fn lemma_ranking_in_range(scores: Seq<int>, min_sim: int, n: nat)
    requires
        n <= scores.len(),
    ensures
        ranking_of_first(scores, min_sim, n).len() <= n,
        forall|k: int|
            0 <= k < ranking_of_first(scores, min_sim, n).len() ==> 0 <= (
            #[trigger] ranking_of_first(scores, min_sim, n)[k]) < n,
    decreases n,
{
    if n > 0 {
        let before = ranking_of_first(scores, min_sim, (n - 1) as nat);
        lemma_ranking_in_range(scores, min_sim, (n - 1) as nat);
        lemma_slot_in_range(before, scores, scores[n - 1]);
    }
}

/// Behind a slot every score is lower; before it, given that the order is
/// ranked, every score is at least as high.
proof fn lemma_slot_divides(order: Seq<int>, scores: Seq<int>, score: int)
    requires
        forall|k: int, l: int|
            0 <= k < l < order.len() ==> outranks(scores, #[trigger] order[k], #[trigger] order[l]),
    ensures
        0 <= slot(order, scores, score) <= order.len(),
        forall|k: int| slot(order, scores, score) <= k < order.len() ==> scores[#[trigger] order[k]] < score,
        forall|k: int| 0 <= k < slot(order, scores, score) ==> scores[#[trigger] order[k]] >= score,
    decreases order.len(),
{
    if order.len() == 0 {
    } else if scores[order.last()] >= score {
        let last = order.len() - 1;
        assert forall|k: int| 0 <= k < order.len() implies scores[#[trigger] order[k]] >= score by {
            if k < last {
                assert(outranks(scores, order[k], order[last]));
            }
        }
    } else {
        let front = order.drop_last();
        assert forall|k: int, l: int| 0 <= k < l < front.len() implies outranks(
            scores,
            #[trigger] front[k],
            #[trigger] front[l],
        ) by {
            assert(front[k] == order[k] && front[l] == order[l]);
        }
        lemma_slot_divides(front, scores, score);
        assert forall|k: int| slot(order, scores, score) <= k < order.len() implies scores[
        #[trigger] order[k]] < score by {
            if k < front.len() {
                assert(front[k] == order[k]);
            }
        }
        assert forall|k: int| 0 <= k < slot(order, scores, score) implies scores[
        #[trigger] order[k]] >= score by {
            assert(front[k] == order[k]);
        }
    }
}

/// The ranking of the first `n` entries lists exactly the matches among
/// them, each once, best first.
proof fn lemma_ranking_of_first(scores: Seq<int>, min_sim: int, n: nat)
    requires
        n <= scores.len(),
    ensures
        is_ranking(ranking_of_first(scores, min_sim, n), scores.take(n as int), min_sim),
    decreases n,
{
    let order = ranking_of_first(scores, min_sim, n);
    let seen = scores.take(n as int);
    if n > 0 {
        let i = n - 1;
        let before = ranking_of_first(scores, min_sim, i as nat);
        let earlier = scores.take(i);
        lemma_ranking_of_first(scores, min_sim, i as nat);
        lemma_ranking_in_range(scores, min_sim, i as nat);
        assert forall|k: int, l: int| 0 <= k < l < before.len() implies outranks(
            scores,
            #[trigger] before[k],
            #[trigger] before[l],
        ) by {
            assert(outranks(earlier, before[k], before[l]));
        }
        if retained(scores, min_sim, i) {
            let p = slot(before, scores, scores[i]);
            lemma_slot_divides(before, scores, scores[i]);
            assert forall|k: int| 0 <= k < order.len() implies retained(
                seen,
                min_sim,
                #[trigger] order[k],
            ) by {
                if k < p {
                    assert(retained(earlier, min_sim, before[k]));
                } else if k > p {
                    assert(retained(earlier, min_sim, before[k - 1]));
                }
            }
            assert forall|j: int| retained(seen, min_sim, j) implies order.contains(j) by {
                if j == i {
                    assert(order[p] == j);
                } else {
                    assert(retained(earlier, min_sim, j));
                    assert(before.contains(j));
                    let k = choose|k: int| 0 <= k < before.len() && before[k] == j;
                    if k < p {
                        assert(order[k] == j);
                    } else {
                        assert(order[k + 1] == j);
                    }
                }
            }
            assert forall|k: int, l: int| 0 <= k < l < order.len() implies outranks(
                seen,
                #[trigger] order[k],
                #[trigger] order[l],
            ) by {
                let a = if k < p { k } else { k - 1 };
                let b = if l < p { l } else { l - 1 };
                if k != p && l != p {
                    assert(outranks(scores, before[a], before[b]));
                } else if l == p {
                    assert(scores[before[k]] >= scores[i]);
                    assert(before[k] < i);
                } else {
                    assert(scores[before[l - 1]] < scores[i]);
                }
            }
        } else {
            assert forall|k: int| 0 <= k < order.len() implies retained(
                seen,
                min_sim,
                #[trigger] order[k],
            ) by {
                assert(retained(earlier, min_sim, before[k]));
            }
            assert forall|j: int| retained(seen, min_sim, j) implies order.contains(j) by {
                assert(retained(earlier, min_sim, j));
                assert(before.contains(j));
                let k = choose|k: int| 0 <= k < before.len() && before[k] == j;
                assert(order[k] == j);
            }
        }
    }
}

/// What is built up entry by entry is the ranking.
proof fn lemma_built_is_the_ranking(scores: Seq<int>, min_sim: int)
    ensures
        is_ranking(ranking_of_first(scores, min_sim, scores.len()), scores, min_sim),
        ranking_of_first(scores, min_sim, scores.len()) == ranking(scores, min_sim),
{
    let built = ranking_of_first(scores, min_sim, scores.len());
    lemma_ranking_of_first(scores, min_sim, scores.len());
    assert(scores.take(scores.len() as int) =~= scores);
    let named = ranking(scores, min_sim);
    assert(is_ranking(named, scores, min_sim));
    lemma_same_matches(built, named, scores, min_sim);
    lemma_best_first_is_unique(built, named, scores);
}

} // verus!
