use monad_sonar::peers::{order_keys, KeyOrder, PeerRecord, PeerTable};
use monad_sonar::validators::{newest_epoch, secp_key_bytes};
use monad_sonar::hexcodec::HexError;
use monad_sonar::network::Network;

fn rec(secp: &str, ip: &str, seq: u64) -> PeerRecord {
    PeerRecord { secp: secp.to_string(), ip: ip.to_string(), port: 8000, auth_port: 8001, seq }
}

fn summary(t: PeerTable) -> Vec<(String, String, u64)> {
    t.into_records().into_iter().map(|r| (r.secp, r.ip, r.seq)).collect()
}

#[test]
fn merge_keeps_the_freshest_record_in_key_order() {
    let mut t = PeerTable::new();
    t.merge(vec![rec("0x03bb", "1.1.1.1", 2), rec("0x02aa", "2.2.2.2", 5)]);
    t.merge(vec![rec("0x03bb", "3.3.3.3", 1), rec("0x02aa", "4.4.4.4", 6), rec("0x01", "5.5.5.5", 0)]);
    assert_eq!(t.len(), 3);
    assert_eq!(
        summary(t),
        vec![
            ("0x01".to_string(), "5.5.5.5".to_string(), 0),
            ("0x02aa".to_string(), "4.4.4.4".to_string(), 6),
            ("0x03bb".to_string(), "1.1.1.1".to_string(), 2),
        ]
    );
}

#[test]
fn equal_sequence_number_takes_the_later_record() {
    let mut t = PeerTable::new();
    t.merge_peer(rec("k", "old", 3));
    t.merge_peer(rec("k", "new", 3));
    assert_eq!(summary(t), vec![("k".to_string(), "new".to_string(), 3)]);
}

#[test]
fn merging_twice_changes_nothing() {
    let batch = || vec![rec("b", "x", 1), rec("a", "y", 2), rec("b", "z", 1)];
    let mut t = PeerTable::new();
    t.merge(batch());
    let once = {
        let mut u = PeerTable::new();
        u.merge(batch());
        summary(u)
    };
    t.merge(batch());
    assert_eq!(summary(t), once);
}

#[test]
fn keys_order_bytewise() {
    assert_eq!(order_keys(b"a", b"b"), KeyOrder::Less);
    assert_eq!(order_keys(b"ab", b"a"), KeyOrder::Greater);
    assert_eq!(order_keys(b"", b""), KeyOrder::Equal);
    assert_eq!(order_keys(b"Z", b"a"), KeyOrder::Less);
}

#[test]
fn newest_epoch_is_the_largest() {
    assert_eq!(newest_epoch(&[]), 0);
    assert_eq!(newest_epoch(&[3, 9, 4]), 9);
}

#[test]
fn secp_key_bytes_decodes_hex() {
    assert_eq!(secp_key_bytes("0x0x0102ff"), Ok(vec![1, 2, 255]));
    assert_eq!(secp_key_bytes("0xABcd"), Ok(vec![0xab, 0xcd]));
    assert_eq!(secp_key_bytes("0xabc"), Err(HexError::OddLength));
    assert_eq!(secp_key_bytes("0g"), Err(HexError::InvalidHexCharacter { c: 'g', index: 1 }));
    for s in ["", "00", "a1b2", "xyz1", "12345", "0x12", "  "] {
        let ours = secp_key_bytes(s);
        let theirs = hex::decode(s.trim_start_matches("0x"));
        assert_eq!(ours.is_ok(), theirs.is_ok(), "input {:?}", s);
        if let (Ok(a), Ok(b)) = (ours, theirs) {
            assert_eq!(a, b);
        }
    }
}

#[test]
fn chain_ids() {
    assert_eq!(Network::Testnet.chain_id(), 10143);
    assert_eq!(Network::Mainnet.chain_id(), 143);
}

use monad_sonar::bootstrap::{bootstrap_selection, BootstrapCandidate};

fn cand(key: &[u8], ok: bool) -> BootstrapCandidate {
    BootstrapCandidate { key: key.to_vec(), record_ok: ok }
}

#[test]
fn bootstrap_skips_self_and_bad_records() {
    let peers = vec![cand(b"me", true), cand(b"a", false), cand(b"b", true)];
    assert_eq!(bootstrap_selection(b"me", &peers), vec![2]);
}

#[test]
fn bootstrap_later_entry_replaces_earlier() {
    let peers = vec![cand(b"a", true), cand(b"b", true), cand(b"a", true), cand(b"a", false)];
    assert_eq!(bootstrap_selection(b"me", &peers), vec![1, 2]);
}
