//! Grouping the positions of a list by the label that each position carries.

use std::collections::HashMap;
use vstd::prelude::*;
use vstd::utf8::encode_utf8;

use crate::text::same_text;

verus! {

/// Whether position `i` is the first that carries its label.
pub open spec fn is_first(labels: Seq<Seq<char>>, i: int) -> bool {
    forall|j: int| 0 <= j < i ==> #[trigger] labels[j] != labels[i]
}

/// The positions before `n` that are the first with their label, ascending.
pub open spec fn first_positions(labels: Seq<Seq<char>>, n: nat) -> Seq<int>
    decreases n,
{
    if n == 0 {
        Seq::empty()
    } else {
        let earlier = first_positions(labels, (n - 1) as nat);
        if is_first(labels, n - 1) {
            earlier.push(n - 1)
        } else {
            earlier
        }
    }
}

/// The positions before `n` that carry the label, ascending.
pub open spec fn positions_with(labels: Seq<Seq<char>>, label: Seq<char>, n: nat) -> Seq<int>
    decreases n,
{
    if n == 0 {
        Seq::empty()
    } else {
        let earlier = positions_with(labels, label, (n - 1) as nat);
        if labels[n - 1] == label {
            earlier.push(n - 1)
        } else {
            earlier
        }
    }
}

/// The positions before `n` grouped by label: one group per label in order of first
/// occurrence, each holding the positions with that label in ascending order.
pub open spec fn grouped(labels: Seq<Seq<char>>, n: nat) -> Seq<Seq<int>> {
    first_positions(labels, n).map_values(|first: int| positions_with(labels, labels[first], n))
}

/// The positions held by a group, as integers.
pub open spec fn positions(group: Vec<usize>) -> Seq<int> {
    group@.map_values(|p: usize| p as int)
}

/// The texts of a list of strings.
pub open spec fn label_texts(labels: Seq<String>) -> Seq<Seq<char>> {
    labels.map_values(|s: String| s@)
}

/// A 64-bit digest of a label's bytes, by which groups are found quickly. Labels
/// with different digests are different; the converse need not hold.
pub open spec fn digest(bytes: Seq<u8>) -> u64
    decreases bytes.len(),
{
    if bytes.len() == 0 {
        0xcbf2_9ce4_8422_2325
    } else {
        ((digest(bytes.drop_last()) ^ (bytes.last() as u64)) as int * 0x0000_0100_0000_01b3
            % 0x1_0000_0000_0000_0000) as u64
    }
}

fn digest_of(label: &str) -> (d: u64)
    ensures
        d == digest(encode_utf8(label@)),
{
    let bytes = label.as_bytes();
    let mut d: u64 = 0xcbf2_9ce4_8422_2325;
    let mut i: usize = 0;
    assert(bytes@.take(0) =~= Seq::<u8>::empty());
    while i < bytes.len()
        invariant
            i <= bytes@.len(),
            d == digest(bytes@.take(i as int)),
        decreases bytes.len() - i,
    {
        assert(bytes@.take(i + 1).drop_last() =~= bytes@.take(i as int));
        d = (d ^ (bytes[i] as u64)).wrapping_mul(0x0000_0100_0000_01b3);
        i += 1;
    }
    assert(bytes@.take(i as int) =~= bytes@);
    d
}

/// The listed firsts are below `n`, ascending, and each the first of its label.
proof fn lemma_firsts(labels: Seq<Seq<char>>, n: nat)
    requires
        n <= labels.len(),
    ensures
        forall|k: int|
            0 <= k < first_positions(labels, n).len() ==> 0 <= #[trigger] first_positions(
                labels,
                n,
            )[k] < n && is_first(labels, first_positions(labels, n)[k]),
        forall|a: int, b: int|
            0 <= a < b < first_positions(labels, n).len() ==> first_positions(labels, n)[a]
                < first_positions(labels, n)[b],
    decreases n,
{
    if n > 0 {
        lemma_firsts(labels, (n - 1) as nat);
        let earlier = first_positions(labels, (n - 1) as nat);
        let now = first_positions(labels, n);
        assert forall|k: int| 0 <= k < now.len() implies 0 <= #[trigger] now[k] < n && is_first(
            labels,
            now[k],
        ) by {
            if k < earlier.len() {
                assert(now[k] == earlier[k]);
            }
        }
        assert forall|a: int, b: int| 0 <= a < b < now.len() implies now[a] < now[b] by {
            assert(now[a] == earlier[a]);
            if b < earlier.len() {
                assert(now[b] == earlier[b]);
            }
        }
    }
}

/// Every position before `n` shares its label with one of the listed firsts.
pub proof fn lemma_first_of(labels: Seq<Seq<char>>, n: nat, j: int) -> (k: int)
    requires
        n <= labels.len(),
        0 <= j < n,
    ensures
        0 <= k < first_positions(labels, n).len(),
        labels[first_positions(labels, n)[k]] == labels[j],
    decreases n,
{
    let earlier = first_positions(labels, (n - 1) as nat);
    if j < n - 1 {
        lemma_first_of(labels, (n - 1) as nat, j)
    } else if is_first(labels, n - 1) {
        earlier.len() as int
    } else {
        let j2 = choose|j2: int| 0 <= j2 < n - 1 && #[trigger] labels[j2] == labels[n - 1];
        lemma_first_of(labels, (n - 1) as nat, j2)
    }
}

/// A label that no position before `n` carries has no positions there.
proof fn lemma_positions_none(labels: Seq<Seq<char>>, label: Seq<char>, n: nat)
    requires
        n <= labels.len(),
        forall|j: int| 0 <= j < n ==> #[trigger] labels[j] != label,
    ensures
        positions_with(labels, label, n).len() == 0,
    decreases n,
{
    if n > 0 {
        lemma_positions_none(labels, label, (n - 1) as nat);
    }
}

/// The positions of a label are below `n`, ascending, carry the label, and leave
/// out no position that carries it.
pub proof fn lemma_positions(labels: Seq<Seq<char>>, label: Seq<char>, n: nat)
    requires
        n <= labels.len(),
    ensures
        forall|k: int|
            0 <= k < positions_with(labels, label, n).len() ==> 0 <= #[trigger] positions_with(
                labels,
                label,
                n,
            )[k] < n && labels[positions_with(labels, label, n)[k]] == label,
        forall|a: int, b: int|
            0 <= a < b < positions_with(labels, label, n).len() ==> positions_with(
                labels,
                label,
                n,
            )[a] < positions_with(labels, label, n)[b],
        forall|i: int|
            0 <= i < n && #[trigger] labels[i] == label ==> positions_with(labels, label, n).contains(
                i,
            ),
    decreases n,
{
    if n > 0 {
        lemma_positions(labels, label, (n - 1) as nat);
        let earlier = positions_with(labels, label, (n - 1) as nat);
        let now = positions_with(labels, label, n);
        assert forall|k: int| 0 <= k < now.len() implies 0 <= #[trigger] now[k] < n
            && labels[now[k]] == label by {
            if k < earlier.len() {
                assert(now[k] == earlier[k]);
            }
        }
        assert forall|a: int, b: int| 0 <= a < b < now.len() implies now[a] < now[b] by {
            assert(now[a] == earlier[a]);
            if b < earlier.len() {
                assert(now[b] == earlier[b]);
            }
        }
        assert forall|i: int| 0 <= i < n && #[trigger] labels[i] == label implies now.contains(
            i,
        ) by {
            if i < n - 1 {
                let at = choose|at: int| 0 <= at < earlier.len() && earlier[at] == i;
                assert(now[at] == i);
            } else {
                assert(now[earlier.len() as int] == i);
            }
        }
    }
}

/// Taking in a position whose label is listed extends that label's group by the
/// position and changes no other group.
proof fn lemma_step_found(labels: Seq<Seq<char>>, i: nat, k: int)
    requires
        i < labels.len(),
        0 <= k < first_positions(labels, i).len(),
        labels[first_positions(labels, i)[k]] == labels[i as int],
    ensures
        first_positions(labels, i + 1) == first_positions(labels, i),
        forall|g: int|
            0 <= g < first_positions(labels, i).len() ==> #[trigger] positions_with(
                labels,
                labels[first_positions(labels, i)[g]],
                i + 1,
            ) == if g == k {
                positions_with(labels, labels[first_positions(labels, i)[g]], i).push(i as int)
            } else {
                positions_with(labels, labels[first_positions(labels, i)[g]], i)
            },
{
    lemma_firsts(labels, i);
    let firsts = first_positions(labels, i);
    assert(firsts[k] < i);
    assert(!is_first(labels, i as int));
    assert forall|g: int| 0 <= g < firsts.len() && g != k implies labels[firsts[g]]
        != labels[i as int] by {
        if g < k {
            assert(firsts[g] < firsts[k]);
        } else {
            assert(firsts[k] < firsts[g]);
        }
        assert(is_first(labels, firsts[g]));
        assert(is_first(labels, firsts[k]));
    }
}

/// Taking in a position whose label is not listed adds a group that holds the
/// position and changes no other group.
proof fn lemma_step_new(labels: Seq<Seq<char>>, i: nat)
    requires
        i < labels.len(),
        forall|k: int|
            0 <= k < first_positions(labels, i).len() ==> labels[#[trigger] first_positions(
                labels,
                i,
            )[k]] != labels[i as int],
    ensures
        first_positions(labels, i + 1) == first_positions(labels, i).push(i as int),
        positions_with(labels, labels[i as int], i + 1) == Seq::<int>::empty().push(i as int),
        forall|g: int|
            0 <= g < first_positions(labels, i).len() ==> #[trigger] positions_with(
                labels,
                labels[first_positions(labels, i)[g]],
                i + 1,
            ) == positions_with(labels, labels[first_positions(labels, i)[g]], i),
{
    let firsts = first_positions(labels, i);
    assert forall|j: int| 0 <= j < i implies #[trigger] labels[j] != labels[i as int] by {
        let k = lemma_first_of(labels, i, j);
        assert(labels[firsts[k]] != labels[i as int]);
    }
    assert(is_first(labels, i as int));
    lemma_positions_none(labels, labels[i as int], i);
}

/// Every group holds at least one position, and all its positions are below `n`.
pub proof fn lemma_group_in_range(labels: Seq<Seq<char>>, n: nat, g: int)
    requires
        n <= labels.len(),
        0 <= g < grouped(labels, n).len(),
    ensures
        grouped(labels, n)[g].len() >= 1,
        forall|q: int|
            0 <= q < grouped(labels, n)[g].len() ==> 0 <= #[trigger] grouped(labels, n)[g][q] < n,
        labels[grouped(labels, n)[g][0]] == labels[first_positions(labels, n)[g]],
{
    lemma_firsts(labels, n);
    let first = first_positions(labels, n)[g];
    lemma_positions(labels, labels[first], n);
    assert(positions_with(labels, labels[first], n).contains(first));
}

/// Every group holds exactly the positions that carry the label of its first
/// position, and no two groups carry the same label.
pub proof fn lemma_group_labels(labels: Seq<Seq<char>>, n: nat, g: int)
    requires
        n <= labels.len(),
        0 <= g < grouped(labels, n).len(),
    ensures
        grouped(labels, n)[g].len() >= 1,
        0 <= grouped(labels, n)[g][0] < n,
        grouped(labels, n)[g] == positions_with(labels, labels[grouped(labels, n)[g][0]], n),
        forall|h: int|
            0 <= h < grouped(labels, n).len() && h != g ==> labels[(#[trigger] grouped(
                labels,
                n,
            )[h])[0]] != labels[grouped(labels, n)[g][0]],
{
    lemma_firsts(labels, n);
    lemma_group_in_range(labels, n, g);
    let firsts = first_positions(labels, n);
    assert forall|h: int| 0 <= h < grouped(labels, n).len() && h != g implies labels[(
    #[trigger] grouped(labels, n)[h])[0]] != labels[grouped(labels, n)[g][0]] by {
        lemma_group_in_range(labels, n, h);
        if h < g {
            assert(firsts[h] < firsts[g]);
        } else {
            assert(firsts[g] < firsts[h]);
        }
        assert(is_first(labels, firsts[g]));
        assert(is_first(labels, firsts[h]));
    }
}

/// The group numbers filed under a digest, or none where the digest is absent.
pub open spec fn filed_under(by_digest: Map<u64, Vec<usize>>, d: u64) -> Seq<usize> {
    if by_digest.contains_key(d) {
        by_digest[d]@
    } else {
        Seq::empty()
    }
}

/// Whether every group is filed under the digest of its label, and nothing but
/// group numbers is filed.
pub open spec fn covers(by_digest: Map<u64, Vec<usize>>, digests: Seq<u64>) -> bool {
    &&& forall|g: int|
        0 <= g < digests.len() ==> filed_under(by_digest, #[trigger] digests[g]).contains(
            g as usize,
        )
    &&& forall|d: u64, s: int|
        0 <= s < filed_under(by_digest, d).len() ==> (#[trigger] filed_under(by_digest, d)[s])
            < digests.len()
}

/// Filing a new group under its digest keeps every group filed.
proof fn lemma_covers_push(
    before: Map<u64, Vec<usize>>,
    after: Map<u64, Vec<usize>>,
    digests: Seq<u64>,
    d: u64,
)
    requires
        covers(before, digests),
        digests.len() < usize::MAX,
        after.contains_key(d),
        after[d]@ == filed_under(before, d).push(digests.len() as usize),
        forall|other: u64| other != d ==> filed_under(after, other) == filed_under(before, other),
    ensures
        covers(after, digests.push(d)),
{
    let longer = digests.push(d);
    assert forall|g: int| 0 <= g < longer.len() implies filed_under(
        after,
        #[trigger] longer[g],
    ).contains(g as usize) by {
        if g < digests.len() {
            assert(longer[g] == digests[g]);
            if digests[g] == d {
                let old_list = filed_under(before, d);
                assert(old_list.contains(g as usize));
                let t = choose|t: int| 0 <= t < old_list.len() && old_list[t] == g as usize;
                assert(after[d]@[t] == g as usize);
            }
        } else {
            assert(after[d]@[filed_under(before, d).len() as int] == g as usize);
        }
    }
    assert forall|e: u64, s: int| 0 <= s < filed_under(after, e).len() implies (
    #[trigger] filed_under(after, e)[s]) < longer.len() by {
        if e == d {
            if s < filed_under(before, d).len() {
                assert(filed_under(after, e)[s] == filed_under(before, d)[s]);
            }
        } else {
            assert(filed_under(after, e)[s] == filed_under(before, e)[s]);
        }
    }
}

/// Looks among the groups filed under one digest for the group with a label.
fn find_filed(labels: &Vec<String>, heads: &Vec<usize>, filed: &Vec<usize>, label: &str) -> (found:
    Option<usize>)
    requires
        forall|t: int| 0 <= t < filed@.len() ==> (#[trigger] filed@[t]) < heads@.len(),
        forall|k: int| 0 <= k < heads@.len() ==> (#[trigger] heads@[k]) < labels@.len(),
    ensures
        match found {
            Some(k) => k < heads@.len() && labels@[heads@[k as int] as int]@ == label@,
            None => forall|t: int|
                0 <= t < filed@.len() ==> labels@[heads@[(#[trigger] filed@[t]) as int] as int]@
                    != label@,
        },
{
    let mut t: usize = 0;
    while t < filed.len()
        invariant
            t <= filed@.len(),
            forall|u: int| 0 <= u < filed@.len() ==> (#[trigger] filed@[u]) < heads@.len(),
            forall|k: int| 0 <= k < heads@.len() ==> (#[trigger] heads@[k]) < labels@.len(),
            forall|u: int|
                0 <= u < t ==> labels@[heads@[(#[trigger] filed@[u]) as int] as int]@ != label@,
        decreases filed.len() - t,
    {
        let k = filed[t];
        if same_text(labels[heads[k]].as_str(), label) {
            return Some(k);
        }
        t += 1;
    }
    None
}

/// Groups the positions of a list of labels: one group per label in order of first
/// occurrence, each holding the positions with that label in ascending order.
pub fn group_positions(labels: &Vec<String>) -> (groups: Vec<Vec<usize>>)
    ensures
        groups@.map_values(|g: Vec<usize>| positions(g)) == grouped(
            label_texts(labels@),
            labels@.len(),
        ),
{
    broadcast use vstd::std_specs::hash::group_hash_axioms;

    let ghost texts = label_texts(labels@);
    let mut groups: Vec<Vec<usize>> = Vec::new();
    // The first position of every group.
    let mut heads: Vec<usize> = Vec::new();
    // For every digest, the groups whose label has that digest.
    let mut by_digest: HashMap<u64, Vec<usize>> = HashMap::new();
    let ghost mut digests: Seq<u64> = Seq::empty();
    let mut i: usize = 0;
    while i < labels.len()
        invariant
            i <= labels@.len(),
            texts == label_texts(labels@),
            groups@.len() == first_positions(texts, i as nat).len(),
            groups@.len() <= i,
            heads@.len() == groups@.len(),
            digests.len() == groups@.len(),
            forall|g: int|
                0 <= g < groups@.len() ==> positions(#[trigger] groups@[g]) == positions_with(
                    texts,
                    texts[first_positions(texts, i as nat)[g]],
                    i as nat,
                ),
            forall|g: int|
                0 <= g < heads@.len() ==> (#[trigger] heads@[g]) == first_positions(
                    texts,
                    i as nat,
                )[g],
            forall|g: int|
                0 <= g < digests.len() ==> #[trigger] digests[g] == digest(
                    encode_utf8(texts[first_positions(texts, i as nat)[g]]),
                ),
            covers(by_digest@, digests),
        decreases labels.len() - i,
    {
        let label = labels[i].as_str();
        let ghost firsts = first_positions(texts, i as nat);
        let ghost before = groups@;
        proof {
            lemma_firsts(texts, i as nat);
        }
        let d = digest_of(label);
        let found = match by_digest.get(&d) {
            Some(filed) => {
                assert(filed@ == filed_under(by_digest@, d));
                assert forall|t: int| 0 <= t < filed@.len() implies (#[trigger] filed@[t])
                    < heads@.len() by {
                    assert(filed_under(by_digest@, d)[t] < digests.len());
                }
                find_filed(labels, &heads, filed, label)
            },
            None => {
                assert(filed_under(by_digest@, d).len() == 0);
                None
            },
        };
        assert(found.is_none() ==> forall|t: int|
            0 <= t < filed_under(by_digest@, d).len() ==> labels@[heads@[(#[trigger] filed_under(
                by_digest@,
                d,
            )[t]) as int] as int]@ != label@);
        match found {
            Some(k) => {
                proof {
                    assert(texts[firsts[k as int]] == labels@[heads@[k as int] as int]@);
                    lemma_step_found(texts, i as nat, k as int);
                }
                groups[k].push(i);
                proof {
                    assert(positions(groups@[k as int]) =~= positions(before[k as int]).push(
                        i as int,
                    ));
                    assert forall|g: int| 0 <= g < groups@.len() implies positions(
                        #[trigger] groups@[g],
                    ) == positions_with(texts, texts[firsts[g]], (i + 1) as nat) by {
                        assert(positions(before[g]) == positions_with(
                            texts,
                            texts[firsts[g]],
                            i as nat,
                        ));
                        if g != k {
                            assert(groups@[g] == before[g]);
                        }
                    }
                }
            },
            None => {
                proof {
                    assert forall|k: int| 0 <= k < firsts.len() implies texts[#[trigger] firsts[k]]
                        != texts[i as int] by {
                        if texts[firsts[k]] == texts[i as int] {
                            assert(digests[k] == d);
                            assert(filed_under(by_digest@, d).contains(k as usize));
                            let t = choose|t: int|
                                0 <= t < filed_under(by_digest@, d).len() && filed_under(
                                    by_digest@,
                                    d,
                                )[t] == k as usize;
                            assert(texts[firsts[k]] == labels@[heads@[k] as int]@);
                            assert(labels@[heads@[filed_under(by_digest@, d)[t] as int] as int]@
                                != label@);
                        }
                    }
                    lemma_step_new(texts, i as nat);
                }
                let ghost filed_before = by_digest@;
                let mut filed: Vec<usize> = match by_digest.remove(&d) {
                    Some(list) => list,
                    None => Vec::new(),
                };
                assert(filed@ == filed_under(filed_before, d));
                filed.push(groups.len());
                by_digest.insert(d, filed);
                proof {
                    assert(by_digest@ == filed_before.remove(d).insert(d, filed));
                    lemma_covers_push(filed_before, by_digest@, digests, d);
                    digests = digests.push(d);
                }
                let mut group: Vec<usize> = Vec::new();
                group.push(i);
                assert(positions(group) =~= Seq::<int>::empty().push(i as int));
                groups.push(group);
                heads.push(i);
                proof {
                    let now = first_positions(texts, (i + 1) as nat);
                    assert forall|g: int| 0 <= g < groups@.len() implies positions(
                        #[trigger] groups@[g],
                    ) == positions_with(texts, texts[now[g]], (i + 1) as nat) by {
                        if g < before.len() {
                            assert(groups@[g] == before[g]);
                            assert(positions(before[g]) == positions_with(
                                texts,
                                texts[firsts[g]],
                                i as nat,
                            ));
                        }
                    }
                }
            },
        }
        i += 1;
    }
    assert(groups@.map_values(|g: Vec<usize>| positions(g)) =~= grouped(texts, labels@.len()));
    groups
}

/// How many earlier positions carry the label of position `i`.
pub open spec fn earlier_same(labels: Seq<Seq<char>>, i: int) -> nat {
    positions_with(labels, labels[i], i as nat).len()
}

/// The positions of a label before one of its positions are the positions of the
/// label that come before it.
proof fn lemma_positions_prefix(labels: Seq<Seq<char>>, label: Seq<char>, n: nat, q: int)
    requires
        n <= labels.len(),
        0 <= q < positions_with(labels, label, n).len(),
    ensures
        0 <= positions_with(labels, label, n)[q] < n,
        positions_with(labels, label, positions_with(labels, label, n)[q] as nat)
            == positions_with(labels, label, n).take(q),
    decreases n,
{
    let at = positions_with(labels, label, n);
    let earlier = positions_with(labels, label, (n - 1) as nat);
    if q < earlier.len() {
        lemma_positions_prefix(labels, label, (n - 1) as nat, q);
        assert(at.take(q) =~= earlier.take(q));
    } else {
        assert(at.take(q) =~= earlier);
    }
}

/// For every position the number of earlier positions that carry the same label.
pub fn occurrences(labels: &Vec<String>) -> (counts: Vec<usize>)
    ensures
        counts@.len() == labels@.len(),
        forall|k: int|
            0 <= k < labels@.len() ==> #[trigger] counts@[k] == earlier_same(label_texts(labels@), k),
{
    let n = labels.len();
    let ghost texts = label_texts(labels@);
    let groups = group_positions(labels);
    let ghost wanted = grouped(texts, n as nat);
    let ghost firsts = first_positions(texts, n as nat);
    let mut counts: Vec<usize> = Vec::new();
    let mut i: usize = 0;
    while i < n
        invariant
            i <= n,
            counts@.len() == i,
        decreases n - i,
    {
        counts.push(0);
        i += 1;
    }
    assert(groups@.len() == wanted.len());
    let mut g: usize = 0;
    while g < groups.len()
        invariant
            g <= groups@.len(),
            n == labels@.len(),
            texts == label_texts(labels@),
            groups@.map_values(|p: Vec<usize>| positions(p)) == wanted,
            wanted == grouped(texts, n as nat),
            firsts == first_positions(texts, n as nat),
            groups@.len() == firsts.len(),
            wanted.len() == firsts.len(),
            counts@.len() == n,
            forall|h: int, q: int|
                0 <= h < g && 0 <= q < wanted[h].len() ==> 0 <= #[trigger] wanted[h][q] < n
                    && counts@[wanted[h][q]] == q,
        decreases groups.len() - g,
    {
        let at = &groups[g];
        proof {
            lemma_firsts(texts, n as nat);
            assert(positions(*at) == wanted[g as int]);
            lemma_group_in_range(texts, n as nat, g as int);
            lemma_positions(texts, texts[firsts[g as int]], n as nat);
            assert forall|h: int| 0 <= h < g implies texts[#[trigger] firsts[h]]
                != texts[firsts[g as int]] by {
                assert(firsts[h] < firsts[g as int]);
                assert(is_first(texts, firsts[g as int]));
            }
            assert forall|h: int, p: int| 0 <= h < g && 0 <= p < wanted[h].len() implies texts[
            #[trigger] wanted[h][p]] == texts[firsts[h]] by {
                lemma_positions(texts, texts[firsts[h]], n as nat);
            }
        }
        let mut q: usize = 0;
        while q < at.len()
            invariant
                q <= at@.len(),
                g < groups@.len(),
                groups@.len() == wanted.len(),
                n == labels@.len(),
                counts@.len() == n,
                positions(*at) == wanted[g as int],
                wanted == grouped(texts, n as nat),
                firsts == first_positions(texts, n as nat),
                wanted[g as int] == positions_with(texts, texts[firsts[g as int]], n as nat),
                forall|p: int|
                    0 <= p < wanted[g as int].len() ==> 0 <= #[trigger] wanted[g as int][p] < n
                        && texts[wanted[g as int][p]] == texts[firsts[g as int]],
                forall|a: int, b: int|
                    0 <= a < b < wanted[g as int].len() ==> wanted[g as int][a]
                        < wanted[g as int][b],
                forall|h: int, p: int|
                    0 <= h < g && 0 <= p < wanted[h].len() ==> 0 <= #[trigger] wanted[h][p] < n
                        && counts@[wanted[h][p]] == p,
                forall|p: int| 0 <= p < q ==> counts@[#[trigger] wanted[g as int][p]] == p,
                forall|h: int| 0 <= h < g ==> texts[#[trigger] firsts[h]] != texts[firsts[g as int]],
                forall|h: int, p: int|
                    0 <= h < g && 0 <= p < wanted[h].len() ==> texts[#[trigger] wanted[h][p]]
                        == texts[firsts[h]],
            decreases at.len() - q,
        {
            assert(positions(*at)[q as int] == at@[q as int] as int);
            let position = at[q];
            let ghost before = counts@;
            counts[position] = q;
            proof {
                assert forall|h: int, p: int|
                    0 <= h < g && 0 <= p < wanted[h].len() implies 0 <= #[trigger] wanted[h][p] < n
                    && counts@[wanted[h][p]] == p by {
                    assert(texts[wanted[h][p]] == texts[firsts[h]]);
                    assert(wanted[h][p] != position);
                }
                assert forall|p: int| 0 <= p < q + 1 implies counts@[#[trigger] wanted[g as int][p]]
                    == p by {
                    if p < q {
                        assert(wanted[g as int][p] < wanted[g as int][q as int]);
                    }
                }
            }
            q += 1;
        }
        g += 1;
    }
    proof {
        assert forall|k: int| 0 <= k < labels@.len() implies #[trigger] counts@[k] == earlier_same(
            texts,
            k,
        ) by {
            let h = lemma_first_of(texts, n as nat, k);
            lemma_positions(texts, texts[k], n as nat);
            let at = positions_with(texts, texts[k], n as nat);
            assert(wanted[h] == at);
            let q = choose|q: int| 0 <= q < at.len() && at[q] == k;
            lemma_positions_prefix(texts, texts[k], n as nat, q);
            assert(counts@[wanted[h][q]] == q);
            assert(at.take(q).len() == q);
        }
    }
    counts
}

} // verus!
