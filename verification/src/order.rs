//! Ranking by a numeric key: largest key first, earlier position first among equals.

use vstd::prelude::*;

verus! {

/// The order of pairs of integers: by the first component, then by the second.
pub open spec fn pair_le(a: (u64, usize), b: (u64, usize)) -> bool {
    a.0 < b.0 || (a.0 == b.0 && a.1 <= b.1)
}

/// Sorts pairs of integers with `slice::sort_unstable`: the result holds the same
/// pairs as before, in ascending order, where pairs are ordered by their first
/// component and then by their second.
#[verifier::external_body]
fn sort_pairs(pairs: &mut Vec<(u64, usize)>)
    ensures
        final(pairs)@.to_multiset() == old(pairs)@.to_multiset(),
        forall|i: int, j: int|
            0 <= i < j < final(pairs)@.len() ==> pair_le(final(pairs)@[i], final(pairs)@[j]),
{
    pairs.sort_unstable();
}

/// Whether position `a` ranks before position `b`: its key is larger, or the keys
/// are equal and `a` comes first.
pub open spec fn ranks_before(keys: Seq<u64>, a: int, b: int) -> bool {
    keys[a] > keys[b] || (keys[a] == keys[b] && a < b)
}

/// Whether position `k` is listed in `order`.
pub open spec fn lists(order: Seq<usize>, k: int) -> bool {
    exists|p: int| 0 <= p < order.len() && #[trigger] order[p] == k
}

/// Whether `order` lists every position of `keys` once, each before all the
/// positions that it ranks before.
pub open spec fn is_ranking(keys: Seq<u64>, order: Seq<usize>) -> bool {
    &&& order.len() == keys.len()
    &&& forall|i: int| 0 <= i < order.len() ==> #[trigger] order[i] < keys.len()
    &&& forall|k: int| 0 <= k < keys.len() ==> #[trigger] lists(order, k)
    &&& forall|i: int, j: int|
        0 <= i < j < order.len() ==> ranks_before(keys, order[i] as int, order[j] as int)
}

/// The pairs that are sorted in place of the keys: the key counted down from the
/// largest value, so that larger keys sort first, and the position.
pub open spec fn keyed(keys: Seq<u64>) -> Seq<(u64, usize)> {
    Seq::new(keys.len(), |i: int| ((u64::MAX - keys[i]) as u64, i as usize))
}

/// Ranks the positions of a list of keys, largest key first.
pub fn rank_descending(keys: &Vec<u64>) -> (order: Vec<usize>)
    ensures
        is_ranking(keys@, order@),
{
    let n = keys.len();
    let mut pairs: Vec<(u64, usize)> = Vec::new();
    let mut i: usize = 0;
    while i < n
        invariant
            n == keys@.len(),
            i <= n,
            pairs@ == keyed(keys@).take(i as int),
        decreases n - i,
    {
        pairs.push((u64::MAX - keys[i], i));
        assert(pairs@ =~= keyed(keys@).take(i + 1));
        i += 1;
    }
    assert(pairs@ =~= keyed(keys@));
    let ghost input = pairs@;
    sort_pairs(&mut pairs);
    proof {
        vstd::seq_lib::to_multiset_len(input);
        vstd::seq_lib::to_multiset_len(pairs@);
        assert(input.no_duplicates());
        input.lemma_multiset_has_no_duplicates();
        pairs@.lemma_multiset_has_no_duplicates_conv();
        assert forall|p: int| 0 <= p < pairs@.len() implies input.contains(#[trigger] pairs@[p]) by {
            assert(pairs@.contains(pairs@[p]));
            vstd::seq_lib::to_multiset_contains(pairs@, pairs@[p]);
            vstd::seq_lib::to_multiset_contains(input, pairs@[p]);
        }
        assert forall|k: int| 0 <= k < input.len() implies pairs@.contains(#[trigger] input[k]) by {
            assert(input.contains(input[k]));
            vstd::seq_lib::to_multiset_contains(pairs@, input[k]);
            vstd::seq_lib::to_multiset_contains(input, input[k]);
        }
    }
    let mut order: Vec<usize> = Vec::new();
    let mut p: usize = 0;
    while p < n
        invariant
            n == keys@.len(),
            n == pairs@.len(),
            p <= n,
            order@.len() == p,
            forall|q: int| 0 <= q < p ==> #[trigger] order@[q] == pairs@[q].1,
        decreases n - p,
    {
        order.push(pairs[p].1);
        p += 1;
    }
    proof {
        assert forall|q: int| 0 <= q < order@.len() implies #[trigger] order@[q] < keys@.len()
            && pairs@[q] == ((u64::MAX - keys@[order@[q] as int]) as u64, order@[q]) by {
            assert(input.contains(pairs@[q]));
            let k = choose|k: int| 0 <= k < input.len() && input[k] == pairs@[q];
            assert(pairs@[q] == keyed(keys@)[k]);
        }
        assert forall|k: int| 0 <= k < keys@.len() implies #[trigger] lists(order@, k) by {
            assert(pairs@.contains(input[k]));
            let q = choose|q: int| 0 <= q < pairs@.len() && pairs@[q] == input[k];
            assert(order@[q] == k);
        }
        assert forall|a: int, b: int| 0 <= a < b < order@.len() implies ranks_before(
            keys@,
            order@[a] as int,
            order@[b] as int,
        ) by {
            assert(pair_le(pairs@[a], pairs@[b]));
            assert(pairs@[a] != pairs@[b]);
            assert(order@[a] < keys@.len());
            assert(order@[b] < keys@.len());
        }
    }
    order
}

/// Whether `sorted` holds the first `limit` of the items in ranking order of their
/// keys: largest key first, items with equal keys in their given order. All items
/// are held where there are no more than `limit`.
pub open spec fn top_ranked<T>(items: Seq<T>, keys: Seq<u64>, limit: nat, sorted: Seq<T>) -> bool {
    exists|order: Seq<usize>|
        #![auto]
        is_ranking(keys, order) && sorted.len() == (if limit < order.len() {
            limit
        } else {
            order.len()
        }) && forall|k: int| 0 <= k < sorted.len() ==> sorted[k] == items[order[k] as int]
}

/// Whether `sorted` holds all the items in ranking order of their keys.
pub open spec fn ranked<T>(items: Seq<T>, keys: Seq<u64>, sorted: Seq<T>) -> bool {
    top_ranked(items, keys, items.len(), sorted)
}

/// No position is listed twice in a ranking.
pub proof fn lemma_ranking_distinct(keys: Seq<u64>, order: Seq<usize>, a: int, b: int)
    requires
        is_ranking(keys, order),
        0 <= a < order.len(),
        0 <= b < order.len(),
        a != b,
    ensures
        order[a] != order[b],
{
    if a < b {
        assert(ranks_before(keys, order[a] as int, order[b] as int));
    } else {
        assert(ranks_before(keys, order[b] as int, order[a] as int));
    }
}

/// Whether `order` lists different positions below `n`.
pub open spec fn is_selection(order: Seq<usize>, n: nat) -> bool {
    &&& forall|i: int| 0 <= i < order.len() ==> #[trigger] order[i] < n
    &&& forall|a: int, b: int|
        0 <= a < order.len() && 0 <= b < order.len() && a != b ==> order[a] != order[b]
}

/// A ranking lists no position twice, and only positions of its keys.
pub proof fn lemma_ranking_arranges(keys: Seq<u64>, order: Seq<usize>)
    requires
        is_ranking(keys, order),
    ensures
        is_selection(order, keys.len()),
{
    assert forall|a: int, b: int|
        0 <= a < order.len() && 0 <= b < order.len() && a != b implies order[a] != order[b] by {
        lemma_ranking_distinct(keys, order, a, b);
    }
}

/// Hands out the first `limit` items in the order that `order` lists them.
pub fn arrange<T>(items: Vec<T>, order: &Vec<usize>, limit: usize) -> (sorted: Vec<T>)
    requires
        is_selection(order@, items@.len()),
    ensures
        sorted@.len() == if limit < order@.len() {
            limit as nat
        } else {
            order@.len()
        },
        forall|k: int| 0 <= k < sorted@.len() ==> sorted@[k] == items@[order@[k] as int],
{
    let ghost given = items@;
    let count = items.len();
    let mut items = items;
    // The items from last to first, each ready to be taken once.
    let mut slots: Vec<Option<T>> = Vec::new();
    while items.len() > 0
        invariant
            items@.len() + slots@.len() == count,
            count == given.len(),
            forall|g: int| 0 <= g < items@.len() ==> items@[g] == given[g],
            forall|g: int|
                0 <= g < slots@.len() ==> #[trigger] slots@[g] == Some(given[count - 1 - g]),
        decreases items@.len(),
    {
        let item = items.pop().unwrap();
        slots.push(Some(item));
    }
    let wanted = if limit < order.len() {
        limit
    } else {
        order.len()
    };
    let mut sorted: Vec<T> = Vec::new();
    let mut r: usize = 0;
    while r < wanted
        invariant
            r <= wanted <= order@.len(),
            slots@.len() == count,
            count == given.len(),
            is_selection(order@, count as nat),
            sorted@.len() == r,
            forall|g: int| 0 <= g < r ==> #[trigger] sorted@[g] == given[order@[g] as int],
            forall|g: int|
                0 <= g < count ==> (#[trigger] slots@[count - 1 - g]).is_none() ==> exists|q: int|
                    0 <= q < r && order@[q] == g,
            forall|g: int|
                0 <= g < count && slots@[count - 1 - g].is_some() ==> #[trigger] slots@[count - 1
                    - g] == Some(given[g]),
        decreases wanted - r,
    {
        let at = order[r];
        let ghost slots_before = slots@;
        proof {
            if slots@[count - 1 - at].is_none() {
                let q = choose|q: int| 0 <= q < r && order@[q] == at as int;
                assert(order@[q] != order@[r as int]);
            }
        }
        let item = slots[count - 1 - at].take().unwrap();
        sorted.push(item);
        proof {
            assert forall|g: int| 0 <= g < count && (#[trigger] slots@[count - 1
                - g]).is_none() implies exists|q: int| 0 <= q < r + 1 && order@[q] == g by {
                if g == at {
                    assert(order@[r as int] == g);
                } else {
                    assert(slots@[count - 1 - g] == slots_before[count - 1 - g]);
                    let q = choose|q: int| 0 <= q < r && order@[q] == g;
                    assert(0 <= q < r + 1 && order@[q] == g);
                }
            }
            assert forall|g: int|
                0 <= g < count && slots@[count - 1 - g].is_some() implies #[trigger] slots@[count
                - 1 - g] == Some(given[g]) by {
                if g != at {
                    assert(slots@[count - 1 - g] == slots_before[count - 1 - g]);
                }
            }
        }
        r += 1;
    }
    sorted
}

} // verus!
