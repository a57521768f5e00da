//! Tile fingerprints and fingerprint-based deduplication.
//!
//! A fingerprint is a fast non-cryptographic hash of a tile's raw pixel
//! bytes. Two fingerprints that are equal are treated as meaning the tiles
//! are equal: a hash collision merges distinct tiles, a deliberate
//! accuracy/performance trade-off.

use vstd::prelude::*;

verus! {

/// The value seahash assigns to a byte sequence. Left uninterpreted: the
/// algorithm itself is the outside crate's business; the library relies only
/// on the result being a function of the bytes.
pub uninterp spec fn seahash_of(bytes: Seq<u8>) -> u64;

/// Relies on seahash::hash: a non-cryptographic hash with a prechosen seed,
/// so its result depends on the input bytes alone.
#[verifier::external_body]
pub(crate) fn fingerprint(bytes: &Vec<u8>) -> (r: u64)
    ensures
        r == seahash_of(bytes@),
{
    seahash::hash(bytes.as_slice())
}

/// Some element before index `i` of `s` has the same fingerprint as `s[i]`.
pub open spec fn repeats_earlier(s: Seq<Seq<u8>>, i: int) -> bool {
    exists|j: int| 0 <= j < i && seahash_of(#[trigger] s[j]) == seahash_of(s[i])
}

/// Keep, in order, each element of `s` whose fingerprint has not appeared
/// before it; drop the rest.
pub open spec fn dedup_by_fingerprint(s: Seq<Seq<u8>>) -> Seq<Seq<u8>>
    decreases s.len(),
{
    if s.len() == 0 {
        Seq::<Seq<u8>>::empty()
    } else if repeats_earlier(s, s.len() - 1) {
        dedup_by_fingerprint(s.drop_last())
    } else {
        dedup_by_fingerprint(s.drop_last()).push(s.last())
    }
}

/// What deduplication guarantees: it keeps at most as many elements as it was
/// given; every kept element is one of the originals; no two kept elements
/// share a fingerprint; and every original's fingerprint is still represented.
#[verifier::rlimit(50)]
pub proof fn lemma_dedup_properties(s: Seq<Seq<u8>>)
    ensures
        dedup_by_fingerprint(s).len() <= s.len(),
        forall|k: int| 0 <= k < dedup_by_fingerprint(s).len()
            ==> exists|j: int| 0 <= j < s.len() && #[trigger] dedup_by_fingerprint(s)[k] == s[j],
        forall|k1: int, k2: int| 0 <= k1 < k2 < dedup_by_fingerprint(s).len()
            ==> seahash_of(#[trigger] dedup_by_fingerprint(s)[k1])
                != seahash_of(#[trigger] dedup_by_fingerprint(s)[k2]),
        forall|j: int| 0 <= j < s.len()
            ==> exists|k: int| 0 <= k < dedup_by_fingerprint(s).len()
                && seahash_of(#[trigger] dedup_by_fingerprint(s)[k]) == seahash_of(#[trigger] s[j]),
    decreases s.len(),
{
    if s.len() == 0 {
    } else {
        let prev = s.drop_last();
        let d0 = dedup_by_fingerprint(prev);
        let d = dedup_by_fingerprint(s);
        let t = s.last();
        let n = s.len() as int;
        lemma_dedup_properties(prev);
        assert(forall|j: int| 0 <= j < n - 1 ==> prev[j] == #[trigger] s[j]);
        if repeats_earlier(s, n - 1) {
            assert(d == d0);
            // membership: unchanged, witnesses carry over from the prefix
            assert forall|k: int| 0 <= k < d.len()
                implies exists|j: int| 0 <= j < s.len() && #[trigger] d[k] == s[j] by {
                let j = choose|j: int| 0 <= j < prev.len() && d0[k] == prev[j];
                assert(d[k] == s[j]);
            }
            // coverage: the dropped last element repeats an earlier fingerprint
            assert forall|j: int| 0 <= j < n
                implies exists|k: int| 0 <= k < d.len()
                    && seahash_of(#[trigger] d[k]) == seahash_of(#[trigger] s[j]) by {
                if j < n - 1 {
                    let k = choose|k: int| 0 <= k < d0.len()
                        && seahash_of(#[trigger] d0[k]) == seahash_of(prev[j]);
                    assert(seahash_of(d[k]) == seahash_of(s[j]));
                } else {
                    let j0 = choose|j0: int| 0 <= j0 < n - 1
                        && seahash_of(#[trigger] s[j0]) == seahash_of(s[n - 1]);
                    let k = choose|k: int| 0 <= k < d0.len()
                        && seahash_of(#[trigger] d0[k]) == seahash_of(prev[j0]);
                    assert(seahash_of(d[k]) == seahash_of(s[j]));
                }
            }
        } else {
            assert(d == d0.push(t));
            assert(d.len() == d0.len() + 1);
            assert(d[d0.len() as int] == t);
            assert(forall|k: int| 0 <= k < d0.len() ==> #[trigger] d[k] == d0[k]);
            // membership
            assert forall|k: int| 0 <= k < d.len()
                implies exists|j: int| 0 <= j < s.len() && #[trigger] d[k] == s[j] by {
                if k < d0.len() {
                    let j = choose|j: int| 0 <= j < prev.len() && d0[k] == prev[j];
                    assert(d[k] == s[j]);
                } else {
                    assert(d[k] == s[n - 1]);
                }
            }
            // distinct fingerprints
            assert forall|k1: int, k2: int| 0 <= k1 < k2 < d.len()
                implies seahash_of(#[trigger] d[k1]) != seahash_of(#[trigger] d[k2]) by {
                if k2 < d0.len() {
                } else {
                    // d[k2] is the new last element; d[k1] equals some earlier
                    // original, and no earlier original shares its fingerprint
                    let j = choose|j: int| 0 <= j < prev.len() && d0[k1] == prev[j];
                    assert(!repeats_earlier(s, n - 1));
                    assert(seahash_of(s[j]) != seahash_of(s[n - 1]));
                }
            }
            // coverage
            assert forall|j: int| 0 <= j < n
                implies exists|k: int| 0 <= k < d.len()
                    && seahash_of(#[trigger] d[k]) == seahash_of(#[trigger] s[j]) by {
                if j < n - 1 {
                    let k = choose|k: int| 0 <= k < d0.len()
                        && seahash_of(#[trigger] d0[k]) == seahash_of(prev[j]);
                    assert(seahash_of(d[k]) == seahash_of(s[j]));
                } else {
                    assert(seahash_of(d[d0.len() as int]) == seahash_of(s[j]));
                }
            }
        }
    }
}

} // verus!
