use monad_sonar::abi::IntErrorKind;
use monad_sonar::hexcodec::HexError;
use monad_sonar::rpc::{
    call_result, consensus_page, Rpc, RpcError, RpcReply, RpcRequest, SEL_GET_CONSENSUS_SET,
    SEL_GET_EPOCH, SEL_GET_VALIDATOR, STAKING_PRECOMPILE,
};

fn ok_reply(result: &str) -> RpcReply {
    RpcReply { error: None, result: Some(result.to_string()) }
}

fn words(vals: &[u64]) -> String {
    vals.iter().map(|v| format!("{v:064x}")).collect()
}

fn call_data(r: &RpcRequest) -> (String, String) {
    match r {
        RpcRequest::EthCall { to, data } => (to.clone(), data.clone()),
        RpcRequest::BlockNumber => panic!("not an eth_call"),
    }
}

#[test]
fn new_targets_the_staking_precompile() {
    let rpc = Rpc::new("https://rpc.example".to_string());
    assert_eq!(rpc.url(), "https://rpc.example");
    let (to, data) = call_data(&rpc.epoch_request());
    assert_eq!(to, STAKING_PRECOMPILE);
    assert_eq!(data, SEL_GET_EPOCH);
    assert!(matches!(rpc.block_number_request(), RpcRequest::BlockNumber));
}

#[test]
fn requests_carry_the_argument_word() {
    let rpc = Rpc::new("u".to_string());
    let (_, data) = call_data(&rpc.validator_request(17));
    assert_eq!(data, format!("{SEL_GET_VALIDATOR}{:064x}", 17));
    let (_, data) = call_data(&rpc.consensus_page_request(300));
    assert_eq!(data, format!("{SEL_GET_CONSENSUS_SET}{:064x}", 300));
}

#[test]
fn error_member_wins_over_result() {
    let reply = RpcReply { error: Some("{\"code\":-32000}".to_string()), result: Some("0x1".to_string()) };
    match call_result(&reply) {
        Err(RpcError::Rpc(m)) => assert_eq!(m, "{\"code\":-32000}"),
        _ => panic!("expected an rpc error"),
    }
    let none = RpcReply { error: None, result: None };
    assert!(matches!(call_result(&none), Err(RpcError::NoResult)));
}

#[test]
fn current_epoch_reads_word_zero() {
    let reply = ok_reply(&format!("0x{}", words(&[812, 5])));
    assert!(Rpc::epoch_reply_is_readable(&reply));
    assert!(matches!(Rpc::current_epoch(&reply), Ok(812)));
    let short = ok_reply("0x12");
    assert!(matches!(Rpc::current_epoch(&short), Ok(0)));
    let err = RpcReply { error: Some("null".to_string()), result: Some(words(&[1])) };
    assert!(matches!(Rpc::current_epoch(&err), Err(RpcError::Rpc(_))));
}

#[test]
fn round_proxy_reads_the_block_number() {
    assert!(matches!(Rpc::round_proxy(&ok_reply("0x1a2b")), Ok(0x1a2b)));
    assert!(matches!(Rpc::round_proxy(&ok_reply("0x0x10")), Ok(16)));
    assert!(matches!(
        Rpc::round_proxy(&ok_reply("0x")),
        Err(RpcError::BlockNumber(IntErrorKind::Empty))
    ));
    assert!(matches!(
        Rpc::round_proxy(&ok_reply("0xzz")),
        Err(RpcError::BlockNumber(IntErrorKind::InvalidDigit))
    ));
    let with_error = RpcReply { error: Some("x".to_string()), result: Some("0x5".to_string()) };
    assert!(matches!(Rpc::round_proxy(&with_error), Ok(5)));
    assert!(matches!(
        Rpc::round_proxy(&RpcReply { error: None, result: None }),
        Err(RpcError::NoResult)
    ));
}

#[test]
fn consensus_pages_accumulate_ids() {
    let rpc = Rpc::new("u".to_string());
    let mut ids = Vec::new();
    // is_done = 0, next = 7, array at byte 96 (word 3): length 2, ids 10 and 11
    let page1 = ok_reply(&format!("0x{}", words(&[0, 7, 96, 2, 10, 11])));
    assert!(Rpc::page_reply_is_readable(&page1));
    let next = rpc.consensus_validator_ids(&mut ids, &page1);
    match next {
        Ok(Some(req)) => {
            let (_, data) = call_data(&req);
            assert_eq!(data, format!("{SEL_GET_CONSENSUS_SET}{:064x}", 7));
        },
        _ => panic!("expected another page"),
    }
    assert_eq!(ids, vec![10, 11]);
    let page2 = ok_reply(&format!("0x{}", words(&[1, 0, 96, 1, 12])));
    assert!(matches!(rpc.consensus_validator_ids(&mut ids, &page2), Ok(None)));
    assert_eq!(ids, vec![10, 11, 12]);
}

#[test]
fn consensus_page_edge_cases() {
    let mut ids = Vec::new();
    // fewer than four words: stop, nothing read
    assert_eq!(consensus_page(&words(&[0, 1, 2]), &mut ids), None);
    // array offset past the end: stop
    assert_eq!(consensus_page(&words(&[0, 1, 32 * 9, 0]), &mut ids), None);
    assert!(ids.is_empty());
    // declared length longer than the page: only the ids present are read
    assert_eq!(consensus_page(&words(&[0, 4, 96, 5, 1, 2]), &mut ids), Some(4));
    assert_eq!(ids, vec![1, 2]);
}

#[test]
fn unreadable_page_is_reported() {
    // the last id word is short
    let body = format!("0x{}{}", words(&[0, 1, 96, 2, 5]), "12");
    assert!(!Rpc::page_reply_is_readable(&ok_reply(&body)));
}

fn secp_reply(key_hex: &str, len: u64) -> RpcReply {
    let mut vals = vec![0u64; 13];
    vals[10] = 12 * 32;
    vals[12] = len;
    let mut text = format!("0x{}", words(&vals));
    let mut tail = key_hex.to_string();
    while tail.len() % 64 != 0 {
        tail.push('0');
    }
    text.push_str(&tail);
    ok_reply(&text)
}

#[test]
fn validator_secp_reads_the_key() {
    let key: Vec<u8> = (0u8..33).map(|i| i.wrapping_mul(7).wrapping_add(2)).collect();
    let reply = secp_reply(&hex::encode(&key), 33);
    assert!(Rpc::secp_reply_is_readable(&reply));
    match Rpc::validator_secp(9, &reply) {
        Ok(k) => assert_eq!(k.to_vec(), key),
        _ => panic!("expected a key"),
    }
}

#[test]
fn validator_secp_errors() {
    let short = ok_reply(&format!("0x{}", words(&[0; 12])));
    assert!(matches!(Rpc::validator_secp(3, &short), Err(RpcError::ShortReturn { id: 3, words: 12 })));
    let wrong_len = secp_reply(&"ab".repeat(33), 32);
    assert!(matches!(Rpc::validator_secp(4, &wrong_len), Err(RpcError::SecpLength { id: 4, len: 32 })));
    let bad_hex = secp_reply(&format!("02{}", "zz".repeat(32)), 33);
    assert!(Rpc::secp_reply_is_readable(&bad_hex));
    assert!(matches!(
        Rpc::validator_secp(5, &bad_hex),
        Err(RpcError::Hex(HexError::InvalidHexCharacter { c: 'z', index: 2 }))
    ));
    let truncated = ok_reply(&format!("0x{}", words(&{
        let mut v = vec![0u64; 13];
        v[10] = 12 * 32;
        v[12] = 33;
        v
    })));
    assert!(!Rpc::secp_reply_is_readable(&truncated));
}
