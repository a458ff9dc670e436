//! The expiry reaper: samples entries that carry an expiry and evicts those
//! past it, repeating at once when the sample was dense with expired entries.

use vstd::prelude::*;
use vstd::set_lib::lemma_len_subset;
use crate::keyspace::Keyspace;
use crate::keyspace::clone_bytes;
use crate::keyspace::entry_expired;
use crate::keyspace::expirable_keys;

verus! {

/// How many expirable entries one sweep samples.
pub const REAP_SAMPLE: usize = 20;

/// Relies on rand's `thread_rng` and `Rng::gen_range` over `0..n`: a random
/// index below `n`; the range is non-empty, so the call does not panic.
#[verifier::external_body]
fn random_below(n: usize) -> (r: usize)
    requires
        n > 0,
    ensures
        r < n,
{
    rand::Rng::gen_range(&mut rand::thread_rng(), 0..n)
}

/// Whether some element of `s` reads as the key `key`.
pub open spec fn key_in(s: Seq<Vec<u8>>, key: Seq<u8>) -> bool {
    exists|i: int| 0 <= i < s.len() && s[i]@ == key
}

/// Draws up to `k` entries that carry an expiry, uniformly at random, and
/// returns those of them already expired at `now`, together with the sample
/// size. Every returned key is an expired entry's key; and when the keyspace
/// holds no more than `k` expirable entries, every expired key is returned.
pub fn sample_expired(ks: &Keyspace, k: usize, now: u64) -> (r: (Vec<Vec<u8>>, usize))
    requires
        ks.wf(),
    ensures
        r.1 <= k,
        r.0@.len() <= r.1,
        forall|i: int| 0 <= i < r.0@.len() ==> ks@.contains_key((#[trigger] r.0@[i])@)
            && entry_expired(ks@[r.0@[i]@], now),
        expirable_keys(ks@).len() <= k ==> forall|key: Seq<u8>|
            ks@.contains_key(key) && entry_expired(#[trigger] ks@[key], now) ==> key_in(r.0@, key),
{
    let mut cand = ks.keys_with_expiry();
    let mut sample: Vec<Vec<u8>> = Vec::new();
    let ghost n0 = cand@.len();
    let mut j: usize = 0;
    #[verifier::loop_isolation(false)]
    while j < k && cand.len() > 0
        invariant
            j <= k,
            sample@.len() == j,
            sample@.len() + cand@.len() == n0,
            forall|i: int| 0 <= i < cand@.len() ==> ks@.contains_key((#[trigger] cand@[i])@)
                && ks@[cand@[i]@].expiry is Some,
            forall|i: int| 0 <= i < sample@.len() ==> ks@.contains_key((#[trigger] sample@[i])@)
                && ks@[sample@[i]@].expiry is Some,
            forall|key: Seq<u8>| ks@.contains_key(key) && (#[trigger] ks@[key]).expiry is Some
                ==> key_in(cand@, key) || key_in(sample@, key),
        decreases k - j,
    {
        let ghost cand_before = cand@;
        let ghost sample_before = sample@;
        let idx = random_below(cand.len());
        let key = cand.swap_remove(idx);
        sample.push(key);
        proof {
            assert forall|key2: Seq<u8>| ks@.contains_key(key2) && (#[trigger] ks@[key2]).expiry is Some
                implies key_in(cand@, key2) || key_in(sample@, key2) by {
                if key_in(cand_before, key2) {
                    let p = choose|p: int| 0 <= p < cand_before.len() && (#[trigger] cand_before[p])@ == key2;
                    if p == idx {
                        assert(sample@[sample@.len() - 1]@ == key2);
                    } else if p == cand_before.len() - 1 {
                        if idx < cand_before.len() - 1 {
                            assert(cand@[idx as int]@ == key2);
                        } else {
                            assert(sample@[sample@.len() - 1]@ == key2);
                        }
                    } else {
                        assert(cand@[p]@ == key2);
                    }
                } else {
                    let p = choose|p: int| 0 <= p < sample_before.len() && (#[trigger] sample_before[p])@ == key2;
                    assert(sample@[p]@ == key2);
                }
            }
        }
        j = j + 1;
    }
    let m = sample.len();
    let mut out: Vec<Vec<u8>> = Vec::new();
    let mut i: usize = 0;
    #[verifier::loop_isolation(false)]
    while i < sample.len()
        invariant
            i <= sample@.len(),
            out@.len() <= i,
            forall|p: int| 0 <= p < out@.len() ==> ks@.contains_key((#[trigger] out@[p])@)
                && entry_expired(ks@[out@[p]@], now),
            forall|p: int| 0 <= p < i && entry_expired(ks@[(#[trigger] sample@[p])@], now)
                && ks@.contains_key(sample@[p]@) ==> key_in(out@, sample@[p]@),
        decreases sample@.len() - i,
    {
        let ghost out_before = out@;
        if ks.expired_at(&sample[i], now) {
            out.push(clone_bytes(&sample[i]));
        }
        proof {
            assert forall|p: int| 0 <= p < i + 1 && entry_expired(ks@[(#[trigger] sample@[p])@], now)
                && ks@.contains_key(sample@[p]@) implies key_in(out@, sample@[p]@) by {
                if p == i {
                    assert(out@[out@.len() - 1]@ == sample@[p]@);
                } else {
                    let q = choose|q: int| 0 <= q < out_before.len() && (#[trigger] out_before[q])@ == sample@[p]@;
                    assert(out@[q]@ == sample@[p]@);
                }
            }
        }
        i = i + 1;
    }
    proof {
        if expirable_keys(ks@).len() <= k {
            assert(n0 <= k);
            assert(cand@.len() == 0);
            assert forall|key: Seq<u8>| ks@.contains_key(key) && entry_expired(#[trigger] ks@[key], now)
                implies key_in(out@, key) by {
                assert(ks@[key].expiry is Some);
                assert(key_in(sample@, key));
                let p = choose|p: int| 0 <= p < sample@.len() && (#[trigger] sample@[p])@ == key;
                assert(entry_expired(ks@[sample@[p]@], now));
            }
        }
    }
    (out, m)
}

/// One adaptive sweep: samples expirable entries, evicts the expired ones,
/// and says whether to sweep again at once (more than a quarter of the
/// sample was expired). The sweep never removes a live entry; entries it
/// keeps are untouched; and when all expirable entries fit in one sample,
/// no expired entry survives it.
pub fn sweep(ks: &mut Keyspace, now: u64) -> (repeat: bool)
    requires
        old(ks).wf(),
    ensures
        final(ks).wf(),
        forall|key: Seq<u8>| #[trigger] final(ks)@.contains_key(key)
            ==> old(ks)@.contains_key(key) && final(ks)@[key] == old(ks)@[key],
        forall|key: Seq<u8>| #[trigger] old(ks)@.contains_key(key) && !final(ks)@.contains_key(key)
            ==> entry_expired(old(ks)@[key], now),
        expirable_keys(old(ks)@).len() <= REAP_SAMPLE ==> forall|key: Seq<u8>|
            #[trigger] final(ks)@.contains_key(key) ==> !entry_expired(final(ks)@[key], now),
        final(ks)@.dom().len() <= old(ks)@.dom().len(),
        repeat ==> final(ks)@.dom().len() < old(ks)@.dom().len(),
{
    let (expired, m) = sample_expired(ks, REAP_SAMPLE, now);
    let repeat = expired.len() * 4 > m;
    let ghost before = ks@;
    let ghost removed = expired.deep_view().to_set();
    proof {
        ks.lemma_wf_finite();
        assert forall|key: Seq<u8>| removed.contains(key)
            implies before.contains_key(key) && entry_expired(before[key], now) by {
            let p = choose|p: int| 0 <= p < expired.deep_view().len() && expired.deep_view()[p] == key;
            assert(expired@[p]@ == key);
        }
    }
    ks.evict(&expired);
    proof {
        assert forall|key: Seq<u8>| key_in(expired@, key) implies removed.contains(key) by {
            let p = choose|p: int| 0 <= p < expired@.len() && (#[trigger] expired@[p])@ == key;
            assert(expired.deep_view()[p] == key);
            assert(expired.deep_view().contains(key));
        }
        if expirable_keys(before).len() <= REAP_SAMPLE {
            assert forall|key: Seq<u8>| ks@.contains_key(key)
                implies !entry_expired(#[trigger] ks@[key], now) by {
                if entry_expired(before[key], now) {
                    assert(key_in(expired@, key));
                    assert(removed.contains(key));
                    assert(!ks@.contains_key(key));
                }
            }
        }
        assert(ks@.dom().subset_of(before.dom()));
        lemma_len_subset(ks@.dom(), before.dom());
        if repeat {
            assert(expired@.len() >= 1);
            let k0 = expired@[0]@;
            assert(expired.deep_view()[0] == k0);
            assert(expired.deep_view().contains(k0));
            assert(before.contains_key(k0));
            assert(ks@.dom().subset_of(before.dom().remove(k0)));
            lemma_len_subset(ks@.dom(), before.dom().remove(k0));
            assert(before.dom().remove(k0).len() == before.dom().len() - 1);
        }
    }
    repeat
}

/// A full reaper pass at time `now`: sweeps, and sweeps again at once while
/// samples come back dense with expired entries. Entries that survive are
/// exactly live or unsampled ones: nothing live is ever removed, and when
/// the keyspace holds no more than one sample's worth of expirable entries,
/// no expired entry survives.
pub fn reap(ks: &mut Keyspace, now: u64)
    requires
        old(ks).wf(),
    ensures
        final(ks).wf(),
        forall|key: Seq<u8>| #[trigger] final(ks)@.contains_key(key)
            ==> old(ks)@.contains_key(key) && final(ks)@[key] == old(ks)@[key],
        forall|key: Seq<u8>| #[trigger] old(ks)@.contains_key(key) && !final(ks)@.contains_key(key)
            ==> entry_expired(old(ks)@[key], now),
        expirable_keys(old(ks)@).len() <= REAP_SAMPLE ==> forall|key: Seq<u8>|
            #[trigger] final(ks)@.contains_key(key) ==> !entry_expired(final(ks)@[key], now),
{
    let ghost m0 = ks@;
    let mut repeat = sweep(ks, now);
    proof {
        assert forall|key: Seq<u8>| #[trigger] ks@.contains_key(key)
            implies m0.contains_key(key) && ks@[key] == m0[key] by {
            // name the membership and lookup terms, so the sweep contract
            // instantiates at this key
            let seen = (ks@.contains_key(key), m0.contains_key(key), ks@[key], m0[key]);
        }
    }
    #[verifier::loop_isolation(false)]
    loop
        invariant
            ks.wf(),
            forall|key: Seq<u8>| #[trigger] ks@.contains_key(key)
                ==> m0.contains_key(key) && ks@[key] == m0[key],
            forall|key: Seq<u8>| #[trigger] m0.contains_key(key) && !ks@.contains_key(key)
                ==> entry_expired(m0[key], now),
            expirable_keys(m0).len() <= REAP_SAMPLE ==> forall|key: Seq<u8>|
                #[trigger] ks@.contains_key(key) ==> !entry_expired(ks@[key], now),
        decreases ks@.dom().len(), (if repeat { 1int } else { 0int }),
    {
        if !repeat {
            break;
        }
        let ghost pre = ks@;
        repeat = sweep(ks, now);
        proof {
            assert forall|key: Seq<u8>| #[trigger] ks@.contains_key(key)
                implies m0.contains_key(key) && ks@[key] == m0[key] by {
                // step through the sweep just taken, then the loop invariant
                let seen = (pre.contains_key(key), m0.contains_key(key), pre[key], m0[key]);
                assert(pre.contains_key(key) && ks@[key] == pre[key]);
            }
            assert forall|key: Seq<u8>| #[trigger] m0.contains_key(key) && !ks@.contains_key(key)
                implies entry_expired(m0[key], now) by {
                // a key can leave in this sweep or have left in an earlier one
                let seen = (pre.contains_key(key), ks@.contains_key(key), pre[key], m0[key]);
                if pre.contains_key(key) {
                    assert(entry_expired(pre[key], now));
                }
            }
            if expirable_keys(m0).len() <= REAP_SAMPLE {
                assert forall|key: Seq<u8>| #[trigger] ks@.contains_key(key)
                    implies !entry_expired(ks@[key], now) by {
                    let seen = (pre.contains_key(key), ks@[key], pre[key]);
                    assert(pre.contains_key(key) && ks@[key] == pre[key]);
                }
            }
        }
    }
}

} // verus!
