//! Ranking of scores that are held as IEEE-754 single-precision bit
//! patterns: the total order on them, the first maximum and the best few.

use vstd::prelude::*;

verus! {

/// Where a bit pattern stands in the total order of single-precision
/// numbers: negative numbers below positive ones, `-0.0` below `+0.0`, and
/// among numbers of one sign the larger magnitude further from zero.
pub open spec fn order_key(bits: u32) -> int {
    if bits < 0x8000_0000 {
        bits as int
    } else {
        0x7FFF_FFFF - bits
    }
}

/// Computes the place of a bit pattern in the total order.
pub fn total_order_key(bits: u32) -> (key: i64)
    ensures
        key == order_key(bits),
{
    if bits < 0x8000_0000 {
        bits as i64
    } else {
        0x7FFF_FFFF - (bits as i64)
    }
}

/// Whether `index` is among `taken`.
pub open spec fn is_taken(taken: Seq<usize>, index: int) -> bool {
    exists|k: int| 0 <= k < taken.len() && #[trigger] taken[k] == index
}

/// The best of the first `n` positions of `scores` that are not `taken`: the
/// one with the greatest score, and of several such the first. Where all of
/// them are taken, it is -1.
pub open spec fn best_index(scores: Seq<u32>, taken: Seq<usize>, n: int) -> int
    decreases n,
{
    if n <= 0 {
        -1
    } else {
        let before = best_index(scores, taken, n - 1);
        if is_taken(taken, n - 1) {
            before
        } else if before < 0 || order_key(scores[n - 1]) > order_key(scores[before]) {
            n - 1
        } else {
            before
        }
    }
}

/// What `best_index` is: a position that is not taken, with a score that no
/// other such position exceeds and none before it reaches.
pub proof fn lemma_best_index(scores: Seq<u32>, taken: Seq<usize>, n: int)
    requires
        0 <= n <= scores.len(),
    ensures
        -1 <= best_index(scores, taken, n) < n,
        best_index(scores, taken, n) < 0 <==> forall|i: int| 0 <= i < n ==> is_taken(taken, i),
        best_index(scores, taken, n) >= 0 ==> !is_taken(taken, best_index(scores, taken, n)),
        forall|i: int|
            0 <= i < n && !is_taken(taken, i) ==> order_key(#[trigger] scores[i]) <= order_key(
                scores[best_index(scores, taken, n)],
            ),
        forall|i: int|
            0 <= i < best_index(scores, taken, n) && !is_taken(taken, i) ==> order_key(
                #[trigger] scores[i],
            ) < order_key(scores[best_index(scores, taken, n)]),
    decreases n,
{
    if n > 0 {
        lemma_best_index(scores, taken, n - 1);
    }
}

/// The position of the greatest score, and of several the first.
pub open spec fn first_max(scores: Seq<u32>) -> int {
    best_index(scores, Seq::empty(), scores.len() as int)
}

/// The first maximum is the one position whose score none exceeds and none
/// before it reaches.
pub proof fn lemma_first_max_unique(scores: Seq<u32>, index: int)
    requires
        0 <= index < scores.len(),
        forall|i: int| 0 <= i < scores.len() ==> order_key(#[trigger] scores[i]) <= order_key(scores[index]),
        forall|i: int| 0 <= i < index ==> order_key(#[trigger] scores[i]) < order_key(scores[index]),
    ensures
        first_max(scores) == index,
{
    let none = Seq::<usize>::empty();
    lemma_best_index(scores, none, scores.len() as int);
    assert(!is_taken(none, index));
    let found = first_max(scores);
    assert(!is_taken(none, found));
    assert(order_key(scores[found]) <= order_key(scores[index]));
}

/// The best `count` positions of `scores`, best first: each is the best of
/// those that were not picked before it. There are no more of them than
/// there are scores.
pub open spec fn top_indices(scores: Seq<u32>, count: int) -> Seq<usize>
    decreases count,
{
    if count <= 0 {
        Seq::empty()
    } else {
        let before = top_indices(scores, count - 1);
        let next = best_index(scores, before, scores.len() as int);
        if next < 0 {
            before
        } else {
            before.push(next as usize)
        }
    }
}

/// Whether position `a` comes before position `b` in the ranking: its score
/// is greater, or the same at a lower position.
pub open spec fn ranks_before(scores: Seq<u32>, a: int, b: int) -> bool {
    order_key(scores[a]) > order_key(scores[b]) || (order_key(scores[a]) == order_key(scores[b])
        && a < b)
}

/// The picks are in ranking order, every position that was not picked comes
/// after all of them, and fewer picks than were asked for leave no position
/// out.
pub proof fn lemma_top_indices_are_ranked(scores: Seq<u32>, count: int)
    requires
        scores.len() <= usize::MAX,
    ensures
        forall|j: int, k: int|
            0 <= j < k < top_indices(scores, count).len() ==> ranks_before(
                scores,
                #[trigger] top_indices(scores, count)[j] as int,
                #[trigger] top_indices(scores, count)[k] as int,
            ),
        forall|i: int, k: int|
            #![trigger is_taken(top_indices(scores, count), i), top_indices(scores, count)[k]]
            0 <= i < scores.len() && !is_taken(top_indices(scores, count), i) && 0 <= k
                < top_indices(scores, count).len() ==> ranks_before(
                scores,
                top_indices(scores, count)[k] as int,
                i,
            ),
        0 <= count && top_indices(scores, count).len() < count ==> forall|i: int|
            0 <= i < scores.len() ==> is_taken(top_indices(scores, count), i),
    decreases count,
{
    if count > 0 {
        let before = top_indices(scores, count - 1);
        let picks = top_indices(scores, count);
        let next = best_index(scores, before, scores.len() as int);
        lemma_top_indices_are_ranked(scores, count - 1);
        lemma_top_indices_in_range(scores, count - 1);
        lemma_best_index(scores, before, scores.len() as int);
        if next >= 0 {
            assert forall|j: int, k: int| 0 <= j < k < picks.len() implies ranks_before(
                scores,
                #[trigger] picks[j] as int,
                #[trigger] picks[k] as int,
            ) by {
                if k == before.len() {
                    assert(picks[j] == before[j]);
                    assert(!is_taken(before, next));
                    assert(ranks_before(scores, before[j] as int, next));
                } else {
                    assert(picks[j] == before[j] && picks[k] == before[k]);
                }
            }
            assert forall|i: int, k: int|
                #![trigger is_taken(picks, i), picks[k]]
                0 <= i < scores.len() && !is_taken(picks, i) && 0 <= k < picks.len() implies ranks_before(
                scores,
                picks[k] as int,
                i,
            ) by {
                if is_taken(before, i) {
                    let at = choose|at: int| 0 <= at < before.len() && before[at] == i;
                    assert(picks[at] == i);
                }
                if k < before.len() {
                    assert(picks[k] == before[k]);
                    assert(ranks_before(scores, before[k] as int, i));
                } else {
                    assert(picks[before.len() as int] == next);
                    assert(i != next);
                }
            }
        } else {
            assert forall|i: int| 0 <= i < scores.len() implies is_taken(picks, i) by {}
        }
        if picks.len() < count && next >= 0 {
            assert forall|i: int| 0 <= i < scores.len() implies is_taken(picks, i) by {
                assert(is_taken(before, i));
                let at = choose|at: int| 0 <= at < before.len() && before[at] == i;
                assert(picks[at] == i);
            }
        }
    }
}

/// Every pick is a position of `scores`.
pub proof fn lemma_top_indices_in_range(scores: Seq<u32>, count: int)
    ensures
        top_indices(scores, count).len() <= count || count < 0,
        forall|k: int|
            0 <= k < top_indices(scores, count).len() ==> (#[trigger] top_indices(scores, count)[k])
                < scores.len(),
    decreases count,
{
    if count > 0 {
        lemma_top_indices_in_range(scores, count - 1);
        lemma_best_index(scores, top_indices(scores, count - 1), scores.len() as int);
    }
}

/// Looks `index` up among `taken`.
pub fn contains_index(taken: &Vec<usize>, index: usize) -> (found: bool)
    ensures
        found == is_taken(taken@, index as int),
{
    let mut k: usize = 0;
    while k < taken.len()
        invariant
            k <= taken.len(),
            forall|j: int| 0 <= j < k ==> taken[j] != index,
        decreases taken.len() - k,
    {
        if taken[k] == index {
            return true;
        }
        k += 1;
    }
    false
}

/// Finds the best position of `scores` that is not `taken`.
pub fn best_untaken(scores: &[u32], taken: &Vec<usize>) -> (best: Option<usize>)
    ensures
        match best {
            Some(index) => index == best_index(scores@, taken@, scores.len() as int),
            None => best_index(scores@, taken@, scores.len() as int) < 0,
        },
{
    let mut best: Option<usize> = None;
    let mut n: usize = 0;
    while n < scores.len()
        invariant
            n <= scores.len(),
            match best {
                Some(index) => index == best_index(scores@, taken@, n as int) && index < n,
                None => best_index(scores@, taken@, n as int) < 0,
            },
        decreases scores.len() - n,
    {
        if !contains_index(taken, n) {
            best = match best {
                Some(index) => {
                    if total_order_key(scores[n]) > total_order_key(scores[index]) {
                        Some(n)
                    } else {
                        Some(index)
                    }
                },
                None => Some(n),
            };
        }
        n += 1;
    }
    best
}

/// The position of the greatest of `scores`; ties go to the lowest
/// position.
pub fn argmax(scores: &[u32]) -> (index: usize)
    requires
        scores.len() > 0,
    ensures
        index == first_max(scores@),
        index < scores.len(),
{
    let taken: Vec<usize> = Vec::new();
    proof {
        lemma_best_index(scores@, taken@, scores.len() as int);
        assert(!is_taken(taken@, 0));
    }
    match best_untaken(scores, &taken) {
        Some(index) => index,
        None => 0,
    }
}

/// The positions of the `count` greatest of `scores`, greatest first; ties
/// go to the lowest position.
pub fn get_top_indices(scores: &[u32], count: usize) -> (picks: Vec<usize>)
    ensures
        picks@ == top_indices(scores@, count as int),
{
    let mut picks: Vec<usize> = Vec::new();
    let mut round: usize = 0;
    while round < count
        invariant
            round <= count,
            picks@ == top_indices(scores@, round as int),
        decreases count - round,
    {
        match best_untaken(scores, &picks) {
            Some(index) => {
                picks.push(index);
            },
            None => {},
        }
        round += 1;
    }
    picks
}

} // verus!
