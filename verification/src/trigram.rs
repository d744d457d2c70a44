//! Trigrams: the three-byte windows of lowercased file names and of the literal runs
//! of glob patterns, their keys, and the merge-join of posting lists.

use std::collections::HashSet;
use vstd::prelude::*;
use vstd::utf8::encode_utf8;

use crate::text::{lowercase_of, to_lowercase};

verus! {


/// The map key that stands for the three bytes of a trigram.
pub open spec fn pack(b0: u8, b1: u8, b2: u8) -> u32 {
    (b0 as u32 * 65536 + b1 as u32 * 256 + b2 as u32) as u32
}

/// The key of a trigram held as an array.
pub open spec fn trigram_key(trigram: [u8; 3]) -> u32 {
    pack(trigram[0], trigram[1], trigram[2])
}

/// The keys of a list of trigrams, in the same order.
pub open spec fn trigram_keys(trigrams: Seq<[u8; 3]>) -> Seq<u32> {
    trigrams.map_values(|t: [u8; 3]| trigram_key(t))
}

/// The key of the three bytes that start at position `i`.
pub open spec fn window_key(bytes: Seq<u8>, i: int) -> u32 {
    pack(bytes[i], bytes[i + 1], bytes[i + 2])
}

/// Whether `key` is one of the overlapping three-byte windows of `bytes`.
pub open spec fn has_trigram(bytes: Seq<u8>, key: u32) -> bool {
    exists|i: int| 0 <= i && i + 3 <= bytes.len() && #[trigger] window_key(bytes, i) == key
}

/// The bytes `* ? [ ] { }`, which end a literal run of a glob pattern.
pub open spec fn is_glob_meta(b: u8) -> bool {
    b == 0x2a || b == 0x3f || b == 0x5b || b == 0x5d || b == 0x7b || b == 0x7d
}

/// Whether the three bytes that start at `i` exist and lie inside one literal run.
pub open spec fn literal_window_at(bytes: Seq<u8>, i: int) -> bool {
    &&& 0 <= i
    &&& i + 3 <= bytes.len()
    &&& !is_glob_meta(bytes[i])
    &&& !is_glob_meta(bytes[i + 1])
    &&& !is_glob_meta(bytes[i + 2])
}

/// The keys of the literal windows that start before position `n`, each listed once,
/// at its first occurrence.
pub open spec fn glob_keys_upto(bytes: Seq<u8>, n: nat) -> Seq<u32>
    decreases n,
{
    if n == 0 {
        Seq::empty()
    } else {
        let earlier = glob_keys_upto(bytes, (n - 1) as nat);
        let key = window_key(bytes, n - 1);
        if literal_window_at(bytes, n - 1) && !earlier.contains(key) {
            earlier.push(key)
        } else {
            earlier
        }
    }
}

/// The trigram keys that a lowercased glob pattern yields: every three-byte window
/// of its literal runs, each listed once, in order of first occurrence.
pub open spec fn glob_trigram_keys(pattern: Seq<u8>) -> Seq<u32> {
    glob_keys_upto(pattern, pattern.len())
}

/// `acc` followed by the keys of the windows of `run` that start before position `n`,
/// leaving out every key that is already listed.
pub open spec fn with_run_keys(acc: Seq<u32>, run: Seq<u8>, n: nat) -> Seq<u32>
    decreases n,
{
    if n == 0 {
        acc
    } else {
        let earlier = with_run_keys(acc, run, (n - 1) as nat);
        let key = window_key(run, n - 1);
        if n + 2 <= run.len() && !earlier.contains(key) {
            earlier.push(key)
        } else {
            earlier
        }
    }
}

/// Computes the map key of a trigram.
pub fn key_of(trigram: &[u8; 3]) -> (key: u32)
    ensures
        key == trigram_key(*trigram),
{
    trigram[0] as u32 * 65536 + trigram[1] as u32 * 256 + trigram[2] as u32
}

/// Two trigrams with the same key are the same three bytes.
pub proof fn lemma_pack_injective(a0: u8, a1: u8, a2: u8, b0: u8, b1: u8, b2: u8)
    requires
        pack(a0, a1, a2) == pack(b0, b1, b2),
    ensures
        a0 == b0,
        a1 == b1,
        a2 == b2,
{
}

/// Appends to `trigrams` the windows of one literal run that `seen` does not hold yet.
pub fn extract_trigrams_from_literal(
    literal: &[u8],
    trigrams: &mut Vec<[u8; 3]>,
    seen: &mut HashSet<u32>,
)
    requires
        old(seen)@ == trigram_keys(old(trigrams)@).to_set(),
    ensures
        trigram_keys(final(trigrams)@) == with_run_keys(
            trigram_keys(old(trigrams)@),
            literal@,
            literal@.len(),
        ),
        final(seen)@ == trigram_keys(final(trigrams)@).to_set(),
{
    let ghost acc = trigram_keys(trigrams@);
    let n = literal.len();
    if n >= 3 {
        let mut k: usize = 0;
        while k < n - 2
            invariant
                n == literal@.len(),
                n >= 3,
                k + 2 <= n,
                trigram_keys(trigrams@) == with_run_keys(acc, literal@, k as nat),
                seen@ == trigram_keys(trigrams@).to_set(),
            decreases n - k,
        {
            let tri = [literal[k], literal[k + 1], literal[k + 2]];
            let key = key_of(&tri);
            let ghost before = trigrams@;
            assert(key == window_key(literal@, k as int));
            if seen.insert(key) {
                trigrams.push(tri);
                proof {
                    assert(trigram_keys(trigrams@) =~= trigram_keys(before).push(key));
                    trigram_keys(before).lemma_push_to_set_commute(key);
                }
            } else {
                proof {
                    assert(trigram_keys(before).to_set().contains(key));
                }
            }
            k += 1;
        }
        proof {
            lemma_run_tail(acc, literal@, k as nat, n as nat);
        }
    } else {
        proof {
            lemma_run_tail(acc, literal@, 0, n as nat);
        }
    }
}

/// Positions too close to the end of a run start no window.
proof fn lemma_run_tail(acc: Seq<u32>, run: Seq<u8>, k: nat, n: nat)
    requires
        k <= n <= run.len(),
        k + 3 > run.len(),
    ensures
        with_run_keys(acc, run, n) == with_run_keys(acc, run, k),
    decreases n,
{
    if n > k {
        lemma_run_tail(acc, run, k, (n - 1) as nat);
    }
}

/// Extending the keys found before a literal run by the windows of that run gives
/// the keys found before any later position up to the end of the run.
proof fn lemma_run_keys(bytes: Seq<u8>, start: int, end: int, n: nat)
    requires
        0 <= start <= end <= bytes.len(),
        forall|i: int| start <= i < end ==> !is_glob_meta(#[trigger] bytes[i]),
        end == bytes.len() || is_glob_meta(bytes[end]),
        n <= end - start,
    ensures
        with_run_keys(glob_keys_upto(bytes, start as nat), bytes.subrange(start, end), n)
            == glob_keys_upto(bytes, (start + n) as nat),
    decreases n,
{
    if n > 0 {
        lemma_run_keys(bytes, start, end, (n - 1) as nat);
        let run = bytes.subrange(start, end);
        let i = n - 1;
        if n + 2 <= run.len() {
            assert(run[i] == bytes[start + i]);
            assert(run[i + 1] == bytes[start + i + 1]);
            assert(run[i + 2] == bytes[start + i + 2]);
            assert(literal_window_at(bytes, start + i));
        } else {
            assert(!literal_window_at(bytes, start + i));
        }
    }
}

/// Every key among the glob keys comes from a literal window, every literal window's
/// key is among them, and none is listed twice.
pub proof fn lemma_glob_keys(bytes: Seq<u8>, n: nat)
    ensures
        glob_keys_upto(bytes, n).no_duplicates(),
        forall|key: u32|
            glob_keys_upto(bytes, n).contains(key) <==> exists|i: int|
                0 <= i < n && literal_window_at(bytes, i) && #[trigger] window_key(bytes, i) == key,
    decreases n,
{
    if n > 0 {
        lemma_glob_keys(bytes, (n - 1) as nat);
        let earlier = glob_keys_upto(bytes, (n - 1) as nat);
        let now = glob_keys_upto(bytes, n);
        let last = window_key(bytes, n - 1);
        assert forall|key: u32| now.contains(key) implies exists|i: int|
            0 <= i < n && literal_window_at(bytes, i) && #[trigger] window_key(bytes, i) == key by {
            let at = choose|at: int| 0 <= at < now.len() && now[at] == key;
            if at < earlier.len() {
                assert(earlier[at] == key);
                assert(earlier.contains(key));
                let i = choose|i: int|
                    0 <= i < n - 1 && literal_window_at(bytes, i) && #[trigger] window_key(bytes, i)
                        == key;
                assert(0 <= i < n && literal_window_at(bytes, i) && window_key(bytes, i) == key);
            } else {
                assert(window_key(bytes, n - 1) == key);
            }
        }
        assert forall|key: u32|
            (exists|i: int|
                0 <= i < n && literal_window_at(bytes, i) && #[trigger] window_key(bytes, i)
                    == key) implies now.contains(key) by {
            let i = choose|i: int|
                0 <= i < n && literal_window_at(bytes, i) && #[trigger] window_key(bytes, i) == key;
            if i < n - 1 {
                assert(earlier.contains(key));
                let at = choose|at: int| 0 <= at < earlier.len() && earlier[at] == key;
                assert(now[at] == key);
            } else if earlier.contains(key) {
                let at = choose|at: int| 0 <= at < earlier.len() && earlier[at] == key;
                assert(now[at] == key);
            } else {
                assert(now[earlier.len() as int] == key);
            }
        }
    }
}

/// A sequence of file ids in which every entry is larger than the one before it.
pub open spec fn strictly_increasing(ids: Seq<u32>) -> bool {
    forall|i: int, j: int| 0 <= i < j < ids.len() ==> ids[i] < ids[j]
}

fn is_meta_byte(b: u8) -> (meta: bool)
    ensures
        meta == is_glob_meta(b),
{
    b == 0x2a || b == 0x3f || b == 0x5b || b == 0x5d || b == 0x7b || b == 0x7d
}

/// Extracts the trigrams of a glob pattern that is already lowercased, given as bytes.
pub fn literal_trigrams(pattern: &[u8]) -> (trigrams: Vec<[u8; 3]>)
    ensures
        trigram_keys(trigrams@) == glob_trigram_keys(pattern@),
{
    let mut trigrams: Vec<[u8; 3]> = Vec::new();
    let mut seen: HashSet<u32> = HashSet::new();
    let mut literal: Vec<u8> = Vec::new();
    let ghost mut start: int = 0;
    let mut pos: usize = 0;
    assert(trigram_keys(trigrams@) =~= Seq::<u32>::empty());
    assert(trigram_keys(trigrams@).to_set() =~= Set::<u32>::empty());
    while pos < pattern.len()
        invariant
            0 <= start <= pos <= pattern@.len(),
            literal@ == pattern@.subrange(start, pos as int),
            forall|i: int| start <= i < pos ==> !is_glob_meta(#[trigger] pattern@[i]),
            trigram_keys(trigrams@) == glob_keys_upto(pattern@, start as nat),
            seen@ == trigram_keys(trigrams@).to_set(),
        decreases pattern.len() - pos,
    {
        let b = pattern[pos];
        if is_meta_byte(b) {
            extract_trigrams_from_literal(literal.as_slice(), &mut trigrams, &mut seen);
            proof {
                lemma_run_keys(pattern@, start, pos as int, (pos - start) as nat);
                start = pos + 1;
            }
            literal.clear();
        } else {
            literal.push(b);
        }
        pos += 1;
        assert(literal@ =~= pattern@.subrange(start, pos as int));
    }
    extract_trigrams_from_literal(literal.as_slice(), &mut trigrams, &mut seen);
    proof {
        lemma_run_keys(pattern@, start, pos as int, (pos - start) as nat);
    }
    trigrams
}

/// The UTF-8 bytes of the lowercase form of a pattern or a file name: the text that
/// trigrams are cut from.
pub open spec fn lowered_bytes(text: Seq<char>) -> Seq<u8> {
    encode_utf8(lowercase_of(text))
}

/// Extracts the trigrams of the literal runs of a glob pattern. An empty result means
/// that the pattern cannot be answered from an index.
pub fn extract_trigrams_from_glob(pattern: &str) -> (trigrams: Vec<[u8; 3]>)
    ensures
        trigram_keys(trigrams@) == glob_trigram_keys(lowered_bytes(pattern@)),
{
    let lower = to_lowercase(pattern);
    literal_trigrams(lower.as_str().as_bytes())
}

/// A strictly increasing sequence is determined by its members: two such sequences
/// with the same members are the same sequence.
pub proof fn lemma_increasing_by_members(s: Seq<u32>, t: Seq<u32>)
    requires
        strictly_increasing(s),
        strictly_increasing(t),
        forall|x: u32| s.contains(x) <==> t.contains(x),
    ensures
        s == t,
    decreases s.len(),
{
    if s.len() == 0 {
        if t.len() > 0 {
            assert(t.contains(t[0]));
        }
        assert(s =~= t);
    } else {
        let top = s.last();
        assert(s.contains(top));
        let j = choose|j: int| 0 <= j < t.len() && t[j] == top;
        assert(t.contains(t.last()));
        let i = choose|i: int| 0 <= i < s.len() && s[i] == t.last();
        if i < s.len() - 1 {
            assert(s[i] < s[s.len() - 1]);
        }
        if j < t.len() - 1 {
            assert(t[j] < t[t.len() - 1]);
        }
        assert(t.last() == top);
        let s0 = s.drop_last();
        let t0 = t.drop_last();
        assert forall|x: u32| s0.contains(x) <==> t0.contains(x) by {
            if s0.contains(x) {
                let k = choose|k: int| 0 <= k < s0.len() && s0[k] == x;
                assert(s[k] == x);
                assert(s[k] < s[s.len() - 1]);
                assert(s.contains(x));
                let m = choose|m: int| 0 <= m < t.len() && t[m] == x;
                assert(m < t.len() - 1);
                assert(t0[m] == x);
            }
            if t0.contains(x) {
                let k = choose|k: int| 0 <= k < t0.len() && t0[k] == x;
                assert(t[k] == x);
                assert(t[k] < t[t.len() - 1]);
                assert(t.contains(x));
                let m = choose|m: int| 0 <= m < s.len() && s[m] == x;
                assert(m < s.len() - 1);
                assert(s0[m] == x);
            }
        }
        lemma_increasing_by_members(s0, t0);
        assert(s =~= s0.push(top));
        assert(t =~= t0.push(top));
    }
}

/// Merge-joins two posting lists, returning the ids present in both.
pub fn intersect_sorted(a: &[u32], b: &[u32]) -> (common: Vec<u32>)
    requires
        strictly_increasing(a@),
        strictly_increasing(b@),
    ensures
        strictly_increasing(common@),
        forall|id: u32| common@.contains(id) <==> a@.contains(id) && b@.contains(id),
{
    let mut common: Vec<u32> = Vec::new();
    let mut i: usize = 0;
    let mut j: usize = 0;
    while i < a.len() && j < b.len()
        invariant
            i <= a.len(),
            j <= b.len(),
            strictly_increasing(a@),
            strictly_increasing(b@),
            strictly_increasing(common@),
            forall|k: int|
                0 <= k < common@.len() ==> a@.contains(#[trigger] common@[k]) && b@.contains(
                    common@[k],
                ),
            forall|k: int| 0 <= k < common@.len() && i < a.len() ==> #[trigger] common@[k] < a@[i as int],
            forall|p: int| 0 <= p < i && b@.contains(#[trigger] a@[p]) ==> common@.contains(a@[p]),
            forall|q: int| 0 <= q < j && a@.contains(#[trigger] b@[q]) ==> common@.contains(b@[q]),
        decreases a.len() - i + b.len() - j,
    {
        let x = a[i];
        let y = b[j];
        if x < y {
            proof {
                if b@.contains(x) {
                    let q = choose|q: int| 0 <= q < b@.len() && b@[q] == x;
                    assert(q < j);
                    assert(a@.contains(b@[q]));
                }
            }
            i += 1;
        } else if x > y {
            proof {
                if a@.contains(y) {
                    let p = choose|p: int| 0 <= p < a@.len() && a@[p] == y;
                    assert(p < i);
                    assert(b@.contains(a@[p]));
                }
            }
            j += 1;
        } else {
            let ghost before = common@;
            common.push(x);
            proof {
                assert(common@[before.len() as int] == x);
                assert forall|p: int| 0 <= p < i + 1 && b@.contains(#[trigger] a@[p]) implies common@.contains(
                    a@[p],
                ) by {
                    if p < i {
                        let w = choose|w: int| 0 <= w < before.len() && before[w] == a@[p];
                        assert(common@[w] == a@[p]);
                    }
                }
                assert forall|q: int| 0 <= q < j + 1 && a@.contains(#[trigger] b@[q]) implies common@.contains(
                    b@[q],
                ) by {
                    if q < j {
                        let w = choose|w: int| 0 <= w < before.len() && before[w] == b@[q];
                        assert(common@[w] == b@[q]);
                    }
                }
            }
            i += 1;
            j += 1;
        }
    }
    proof {
        assert forall|id: u32| a@.contains(id) && b@.contains(id) implies common@.contains(id) by {
            let p = choose|p: int| 0 <= p < a@.len() && a@[p] == id;
            let q = choose|q: int| 0 <= q < b@.len() && b@[q] == id;
            if i == a.len() {
                assert(b@.contains(a@[p]));
            } else {
                assert(a@.contains(b@[q]));
            }
        }
    }
    common
}

} // verus!
