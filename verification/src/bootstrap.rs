//! Which configured bootstrap peers the discovery router starts from.

use vstd::prelude::*;
use crate::peers::{order_keys, KeyOrder};

verus! {

/// A bootstrap peer from the node config: its secp key and whether its
/// name record could be built from the config entry.
pub struct BootstrapCandidate {
    /// The peer's secp256k1 public key (compressed bytes).
    pub key: Vec<u8>,
    /// The configured entry converts into a signed name record.
    pub record_ok: bool,
}

/// Peer `i` may be used: its record converts and it is not the crawler itself.
pub open spec fn usable(peers: Seq<BootstrapCandidate>, self_key: Seq<u8>, i: int) -> bool {
    peers[i].record_ok && peers[i].key@ != self_key
}

/// Peer `i` is the one kept for its key: usable, and no later usable entry
/// has the same key (a later entry for a key replaces an earlier one).
pub open spec fn kept(peers: Seq<BootstrapCandidate>, self_key: Seq<u8>, i: int) -> bool {
    &&& usable(peers, self_key, i)
    &&& forall|j: int| i < j < peers.len() && usable(peers, self_key, j) ==> peers[j].key@ != peers[i].key@
}

/// An entry is selected exactly when its record converts, its whole key
/// differs from the crawler's whole key, and no later entry that converts and
/// is not the crawler has the same whole key. So entries with pairwise
/// distinct keys, none the crawler's, whose records convert, are all selected.
pub proof fn lemma_kept_by_whole_keys(peers: Seq<BootstrapCandidate>, self_key: Seq<u8>, i: int)
    requires
        0 <= i < peers.len(),
    ensures
        kept(peers, self_key, i) <==> (peers[i].record_ok && peers[i].key@ != self_key && forall|j: int|
            i < j < peers.len() && peers[j].record_ok && peers[j].key@ != self_key ==> #[trigger] peers[j].key@
                != peers[i].key@),
        (forall|j: int| 0 <= j < peers.len() ==> #[trigger] peers[j].record_ok && peers[j].key@ != self_key)
            && (forall|j: int, k: int| 0 <= j < k < peers.len() ==> #[trigger] peers[j].key@ != #[trigger] peers[k].key@)
            ==> kept(peers, self_key, i),
{
    if peers[i].record_ok && peers[i].key@ != self_key && forall|j: int|
        i < j < peers.len() && peers[j].record_ok && peers[j].key@ != self_key ==> #[trigger] peers[j].key@
            != peers[i].key@ {
        assert forall|j: int| i < j < peers.len() && usable(peers, self_key, j) implies peers[j].key@
            != peers[i].key@ by {
            assert(peers[j].record_ok && peers[j].key@ != self_key);
        }
    }
    if kept(peers, self_key, i) {
        assert forall|j: int| i < j < peers.len() && peers[j].record_ok && peers[j].key@ != self_key implies
            #[trigger] peers[j].key@ != peers[i].key@ by {
            assert(usable(peers, self_key, j));
        }
    }
}

fn same_key(a: &Vec<u8>, b: &[u8]) -> (r: bool)
    ensures
        r == (a@ == b@),
{
    match order_keys(a.as_slice(), b) {
        KeyOrder::Equal => true,
        _ => false,
    }
}

/// The bootstrap peers to start from, as indices into `peers` in ascending
/// order: for each key, the last usable entry; the crawler's own key and
/// entries whose record does not convert are left out.
pub fn bootstrap_selection(self_key: &[u8], peers: &Vec<BootstrapCandidate>) -> (r: Vec<usize>)
    ensures
        forall|t: int| 0 <= t < r@.len() ==> #[trigger] r@[t] < peers@.len() && kept(peers@, self_key@, r@[t] as int),
        forall|s: int, t: int| 0 <= s < t < r@.len() ==> #[trigger] r@[s] < #[trigger] r@[t],
        forall|i: int| 0 <= i < peers@.len() && kept(peers@, self_key@, i) ==> r@.contains(i as usize),
{
    let n = peers.len();
    let mut out: Vec<usize> = Vec::new();
    let mut i: usize = 0;
    while i < n
        invariant
            i <= n,
            n == peers@.len(),
            forall|t: int| 0 <= t < out@.len() ==> #[trigger] out@[t] < i && kept(peers@, self_key@, out@[t] as int),
            forall|s: int, t: int| 0 <= s < t < out@.len() ==> #[trigger] out@[s] < #[trigger] out@[t],
            forall|k: int| 0 <= k < i && kept(peers@, self_key@, k) ==> out@.contains(k as usize),
        decreases n - i,
    {
        let p = &peers[i];
        let mut keep = p.record_ok && !same_key(&p.key, self_key);
        let mut j: usize = i + 1;
        while keep && j < n
            invariant
                i < j <= n,
                n == peers@.len(),
                p == peers@[i as int],
                keep ==> usable(peers@, self_key@, i as int),
                keep ==> forall|k: int| i < k < j && usable(peers@, self_key@, k) ==> peers@[k].key@ != p.key@,
                !keep ==> !kept(peers@, self_key@, i as int),
            decreases n - j,
        {
            let q = &peers[j];
            if q.record_ok && !same_key(&q.key, self_key) && same_key(&q.key, p.key.as_slice()) {
                assert(usable(peers@, self_key@, j as int) && peers@[j as int].key@ == peers@[i as int].key@);
                keep = false;
            }
            j = j + 1;
        }
        let ghost prev = out@;
        if keep {
            out.push(i);
            assert(out@[out@.len() - 1] == i);
        }
        assert forall|k: int| 0 <= k < i + 1 && kept(peers@, self_key@, k) implies out@.contains(k as usize) by {
            if k == i {
                assert(keep);
                assert(out@[out@.len() - 1] == i);
            } else {
                assert(prev.contains(k as usize));
                let t = choose|t: int| 0 <= t < prev.len() && prev[t] == k as usize;
                assert(out@[t] == k as usize);
            }
        }
        i = i + 1;
    }
    out
}

} // verus!
