//! Window-key derivation.
//!
//! Each request is counted under a store key derived from the clock and the
//! configuration: with a window of `w` seconds the key is `askai:<now / w>`,
//! partitioning time into fixed buckets of length `w`; without a window the
//! key is the constant `askai:total`.

use vstd::prelude::*;
use crate::codec::{canon, encode_u64, lemma_canon_injective};
use crate::config::Config;

verus! {

/// The bytes of the key prefix `askai:`.
pub open spec fn key_prefix() -> Seq<u8> {
    seq![97u8, 115u8, 107u8, 97u8, 105u8, 58u8]
}

/// The bytes of the suffix `total` used when no window is configured.
pub open spec fn total_tag() -> Seq<u8> {
    seq![116u8, 111u8, 116u8, 97u8, 108u8]
}

/// The bucket a moment falls into: seconds since the epoch divided by the
/// window length.
pub open spec fn bucket_of(now: u64, w: u64) -> nat
    recommends
        w > 0,
{
    (now as nat) / (w as nat)
}

/// The store key under which a request at time `now` is counted.
pub open spec fn window_key(now: u64, cfg: Config) -> Seq<u8> {
    match cfg.window {
        Some(w) => key_prefix() + canon(bucket_of(now, w)),
        None => key_prefix() + total_tag(),
    }
}

/// Renders the store key for a request at time `now`.
pub fn window_key_for(now: u64, cfg: &Config) -> (k: Vec<u8>)
    requires
        cfg.wf(),
    ensures
        k@ == window_key(now, *cfg),
{
    let mut k: Vec<u8> = Vec::new();
    k.push(97);
    k.push(115);
    k.push(107);
    k.push(97);
    k.push(105);
    k.push(58);
    proof {
        assert(k@ =~= key_prefix());
    }
    match cfg.window {
        Some(w) => {
            let bucket = now / w;
            let mut digits = encode_u64(bucket);
            proof {
                assert(bucket as nat == bucket_of(now, w));
                assert(k@ + digits@ == window_key(now, *cfg));
            }
            k.append(&mut digits);
            k
        },
        None => {
            k.push(116);
            k.push(111);
            k.push(116);
            k.push(97);
            k.push(108);
            proof {
                assert(k@ =~= key_prefix() + total_tag());
            }
            k
        },
    }
}

/// Appending to a common prefix is injective.
proof fn lemma_prefix_cancel(p: Seq<u8>, a: Seq<u8>, b: Seq<u8>)
    requires
        p + a == p + b,
    ensures
        a == b,
{
    assert(a =~= (p + a).skip(p.len() as int));
    assert(b =~= (p + b).skip(p.len() as int));
}

/// Law: with a window configured, two moments share a store key exactly when
/// they fall into the same bucket — the key is stable within a bucket and
/// changes once the bucket boundary is crossed.
pub proof fn lemma_window_key_windowed(n1: u64, n2: u64, cfg: Config, w: u64)
    requires
        cfg.wf(),
        cfg.window == Some(w),
    ensures
        (window_key(n1, cfg) == window_key(n2, cfg)) <==> (bucket_of(n1, w) == bucket_of(n2, w)),
{
    if window_key(n1, cfg) == window_key(n2, cfg) {
        lemma_prefix_cancel(key_prefix(), canon(bucket_of(n1, w)), canon(bucket_of(n2, w)));
        lemma_canon_injective(bucket_of(n1, w), bucket_of(n2, w));
    }
}

/// Law: without a window, the store key is the same constant at every moment.
pub proof fn lemma_window_key_constant(n1: u64, n2: u64, cfg: Config)
    requires
        cfg.window is None,
    ensures
        window_key(n1, cfg) == window_key(n2, cfg),
        window_key(n1, cfg) == key_prefix() + total_tag(),
{
}

} // verus!
