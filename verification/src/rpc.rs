//! Chain reads from the staking precompile: the requests that a JSON-RPC
//! transport sends, and what the library makes of the replies.

use vstd::prelude::*;
use vstd::string::StringExecFns;
use vstd::string::StringSliceAdditionalSpecFns;
use vstd::utf8::encode_utf8;
use crate::abi::{
    utf8_words, word, word_at, word_at_readable, words_of, strs_bytes,
    body_word, body_word_readable, calldata, hex_word_chars, parse_hex_u64, parse_u64_hex,
    strip, strip_0x, trim_0x, trim_0x_all, word_u64, IntErrorKind,
};
use crate::hexcodec::{hex_decode, hex_decode_spec, lemma_decode_pairs_len, HexError};
use crate::abi::{char_boundary, is_boundary, word_is_readable};
use vstd::slice::slice_subrange;

verus! {

/// Staking precompile address (same on testnet and mainnet).
pub const STAKING_PRECOMPILE: &'static str = "0x0000000000000000000000000000000000001000";

/// Selector of `getEpoch()`; word 0 of its reply is the epoch.
pub const SEL_GET_EPOCH: &'static str = "0x757991a8";

/// Selector of the paginated consensus-set read.
pub const SEL_GET_CONSENSUS_SET: &'static str = "0xfb29b729";

/// Selector of `getValidator(id)`.
pub const SEL_GET_VALIDATOR: &'static str = "0x2b6d639a";

/// A JSON-RPC endpoint and the contract that the calls go to.
pub struct Rpc {
    url: String,
    contract: String,
}

/// A request for the transport to send.
pub enum RpcRequest {
    /// `eth_call` with params `[{"to": to, "data": data}, "latest"]`.
    EthCall { to: String, data: String },
    /// `eth_blockNumber` with params `[]`.
    BlockNumber,
}

/// The parts of a JSON-RPC reply that the library reads.
pub struct RpcReply {
    /// The reply's `error` member, rendered as JSON text, where the reply has one.
    pub error: Option<String>,
    /// The reply's `result` member, where it is a JSON string.
    pub result: Option<String>,
}

/// Why a chain read failed.
pub enum RpcError {
    /// The node answered with an error (its JSON text).
    Rpc(String),
    /// The reply has no string `result`.
    NoResult,
    /// The block number is no base-16 `u64`.
    BlockNumber(IntErrorKind),
    /// A `getValidator` reply with fewer than 13 words.
    ShortReturn { id: u64, words: usize },
    /// The secp key field of a `getValidator` reply is not 33 bytes long.
    SecpLength { id: u64, len: usize },
    /// The secp key is no hex text.
    Hex(HexError),
}

/// What the result of an `eth_call` reply is: an `error` member wins, then a
/// string `result`.
pub open spec fn call_result_spec(reply: RpcReply) -> Result<Seq<char>, RpcError> {
    match reply.error {
        Some(e) => Err(RpcError::Rpc(e)),
        None => match reply.result {
            Some(t) => Ok(t@),
            None => Err(RpcError::NoResult),
        },
    }
}

/// What the result of a reply is where the `error` member is not looked at.
pub open spec fn raw_result_spec(reply: RpcReply) -> Result<Seq<char>, RpcError> {
    match reply.result {
        Some(t) => Ok(t@),
        None => Err(RpcError::NoResult),
    }
}

/// The bytes of a reply's body: its text after one leading `0x`.
pub open spec fn body_bytes(t: Seq<char>) -> Seq<u8> {
    encode_utf8(strip_0x(t))
}

/// The epoch that a `getEpoch()` reply gives.
pub open spec fn epoch_spec(reply: RpcReply) -> Result<u64, RpcError> {
    match call_result_spec(reply) {
        Ok(t) => Ok(body_word(body_bytes(t), 0)),
        Err(e) => Err(e),
    }
}

/// Reading a `getEpoch()` reply does not hit a split character.
pub open spec fn epoch_reply_readable(reply: RpcReply) -> bool {
    call_result_spec(reply) matches Ok(t) ==> body_word_readable(body_bytes(t), 0)
}

/// The block number that an `eth_blockNumber` reply gives.
pub open spec fn block_number_spec(reply: RpcReply) -> Result<u64, RpcError> {
    match raw_result_spec(reply) {
        Ok(t) => match parse_u64_hex(encode_utf8(trim_0x_all(t))) {
            Ok(v) => Ok(v),
            Err(k) => Err(RpcError::BlockNumber(k)),
        },
        Err(e) => Err(e),
    }
}

/// The result text of an `eth_call` reply, or why there is none.
pub fn call_result(reply: &RpcReply) -> (r: Result<String, RpcError>)
    ensures
        match r {
            Ok(s) => call_result_spec(*reply) == Ok::<Seq<char>, RpcError>(s@),
            Err(e) => call_result_spec(*reply) == Err::<Seq<char>, RpcError>(e),
        },
{
    match &reply.error {
        Some(e) => Err(RpcError::Rpc(e.clone())),
        None => match &reply.result {
            Some(t) => Ok(t.clone()),
            None => Err(RpcError::NoResult),
        },
    }
}

/// The result text of a reply, without looking at its `error` member.
pub fn raw_result(reply: &RpcReply) -> (r: Result<String, RpcError>)
    ensures
        match r {
            Ok(s) => raw_result_spec(*reply) == Ok::<Seq<char>, RpcError>(s@),
            Err(e) => raw_result_spec(*reply) == Err::<Seq<char>, RpcError>(e),
        },
{
    match &reply.result {
        Some(t) => Ok(t.clone()),
        None => Err(RpcError::NoResult),
    }
}

/// Where the id array of a consensus-set page starts: word 2 is its byte offset.
pub open spec fn page_arr_off(ws: Seq<Seq<u8>>) -> usize {
    (word_at(ws, 2) / 32) as usize
}

/// How many ids of a page are read: the array's length (the word at its
/// offset), cut off at the last word of the page.
pub open spec fn page_count(ws: Seq<Seq<u8>>) -> int {
    let off = page_arr_off(ws) as int;
    let arr_len = word_at(ws, off) as usize as int;
    if arr_len < ws.len() - off - 1 {
        arr_len
    } else {
        ws.len() - off - 1
    }
}

/// The page holds a header and an array offset inside it.
pub open spec fn page_has_array(ws: Seq<Seq<u8>>) -> bool {
    ws.len() >= 4 && (page_arr_off(ws) as int) < ws.len()
}

/// The validator ids that a consensus-set page lists.
pub open spec fn page_ids(ws: Seq<Seq<u8>>) -> Seq<u64> {
    if page_has_array(ws) {
        Seq::new(page_count(ws) as nat, |j: int| word_at(ws, page_arr_off(ws) + 1 + j))
    } else {
        Seq::empty()
    }
}

/// Where the next page starts, if another page is to be read: word 0 is the
/// "done" flag, word 1 the next index.
pub open spec fn page_next(ws: Seq<Seq<u8>>) -> Option<u64> {
    if page_has_array(ws) && word_at(ws, 0) == 0 {
        Some(word_at(ws, 1))
    } else {
        None
    }
}

/// Pagination follows the page's flags: a page whose word 0 (the "done" flag)
/// is non-zero asks for no further page, whatever word 1 holds; a page with at
/// least four words, an array offset (word 2, in bytes) inside it, and a zero
/// "done" flag asks for the page that word 1 names; a page without its array
/// asks for nothing.
pub proof fn lemma_page_next_follows_done_flag(ws: Seq<Seq<u8>>)
    ensures
        word_at(ws, 0) != 0 ==> page_next(ws) is None,
        (ws.len() >= 4 && ((word_at(ws, 2) / 32) as usize as int) < ws.len() && word_at(ws, 0) == 0)
            ==> page_next(ws) == Some(word_at(ws, 1)),
        (ws.len() < 4 || ((word_at(ws, 2) / 32) as usize as int) >= ws.len()) ==> page_next(ws) is None,
        page_next(ws) matches Some(n) ==> n == word_at(ws, 1) && word_at(ws, 0) == 0,
{
}

/// Every word that reading the page touches can be read.
pub open spec fn page_readable(ws: Seq<Seq<u8>>) -> bool {
    ws.len() >= 4 ==> {
        &&& word_at_readable(ws, 0)
        &&& word_at_readable(ws, 1)
        &&& word_at_readable(ws, 2)
        &&& (page_arr_off(ws) as int) < ws.len() ==> {
            &&& word_at_readable(ws, page_arr_off(ws) as int)
            &&& forall|j: int|
                0 <= j < page_count(ws) ==> #[trigger] word_at_readable(
                    ws,
                    page_arr_off(ws) + 1 + j,
                )
        }
    }
}

/// The words of a reply's result text.
pub open spec fn reply_words(t: Seq<char>) -> Seq<Seq<u8>> {
    utf8_words(body_bytes(t))
}

/// Reading a consensus-set reply does not hit a split character or a short
/// word.
pub open spec fn page_reply_readable(reply: RpcReply) -> bool {
    call_result_spec(reply) matches Ok(t) ==> page_readable(reply_words(t))
}

/// Reads one consensus-set page: appends the ids it lists to `ids` and says
/// where the next page starts, or `None` when this was the last one.
pub fn consensus_page(body: &str, ids: &mut Vec<u64>) -> (next: Option<u64>)
    requires
        page_readable(utf8_words(body.spec_bytes())),
    ensures
        final(ids)@ == old(ids)@ + page_ids(utf8_words(body.spec_bytes())),
        next == page_next(utf8_words(body.spec_bytes())),
{
    let words = words_of(body);
    let ghost ws = utf8_words(body.spec_bytes());
    assert(strs_bytes(words@) == ws);
    if words.len() < 4 {
        assert(old(ids)@ + page_ids(ws) =~= old(ids)@);
        return None;
    }
    let is_done = word(words.as_slice(), 0);
    let next_index = word(words.as_slice(), 1);
    let arr_off = #[verifier::truncate] ((word(words.as_slice(), 2) / 32) as usize);
    if arr_off >= words.len() {
        assert(old(ids)@ + page_ids(ws) =~= old(ids)@);
        return None;
    }
    let arr_len = #[verifier::truncate] (word(words.as_slice(), arr_off) as usize);
    let n = words.len();
    let avail = n - arr_off - 1;
    let count = if arr_len < avail { arr_len } else { avail };
    assert(count as int == page_count(ws));
    let ghost start = old(ids)@;
    let mut i: usize = 0;
    while i < count
        invariant
            i <= count,
            count as int == page_count(ws),
            arr_off as int == page_arr_off(ws) as int,
            arr_off < words@.len(),
            n == words@.len(),
            count <= n - arr_off - 1,
            ws == strs_bytes(words@),
            page_readable(ws),
            ws.len() >= 4,
            ids@ == start + Seq::new(i as nat, |j: int| word_at(ws, arr_off + 1 + j)),
        decreases count - i,
    {
        assert(word_at_readable(ws, page_arr_off(ws) + 1 + i));
        let v = word(words.as_slice(), arr_off + 1 + i);
        ids.push(v);
        assert(Seq::new((i + 1) as nat, |j: int| word_at(ws, arr_off + 1 + j)) =~= Seq::new(
            i as nat,
            |j: int| word_at(ws, arr_off + 1 + j),
        ).push(v));
        i = i + 1;
    }
    assert(page_ids(ws) =~= Seq::new(count as nat, |j: int| word_at(ws, arr_off + 1 + j)));
    if is_done != 0 {
        None
    } else {
        Some(next_index)
    }
}

/// The bytes of the words one after another.
pub open spec fn concat_words(ws: Seq<Seq<u8>>) -> Seq<u8>
    decreases ws.len(),
{
    if ws.len() == 0 {
        Seq::empty()
    } else {
        concat_words(ws.drop_last()) + ws.last()
    }
}

/// Where the secp key field of a `getValidator` reply starts: word 10 is its
/// byte offset.
pub open spec fn secp_off(ws: Seq<Seq<u8>>) -> usize {
    (word_at(ws, 10) / 32) as usize
}

/// The length that the secp key field declares.
pub open spec fn secp_len(ws: Seq<Seq<u8>>) -> usize {
    word_at(ws, secp_off(ws) as int) as usize
}

/// The text that follows the length word of the secp key field.
pub open spec fn secp_tail(ws: Seq<Seq<u8>>) -> Seq<u8> {
    concat_words(ws.skip(secp_off(ws) + 1))
}

/// The compressed secp256k1 key that the words of a `getValidator(id)` reply
/// give: at least 13 words, a field of length 33, whose 66 hex digits decode.
pub open spec fn secp_from_words(id: u64, ws: Seq<Seq<u8>>) -> Result<Seq<u8>, RpcError> {
    if ws.len() < 13 {
        Err(RpcError::ShortReturn { id, words: ws.len() as usize })
    } else if secp_len(ws) != 33 {
        Err(RpcError::SecpLength { id, len: secp_len(ws) })
    } else {
        match hex_decode_spec(secp_tail(ws).take(66)) {
            Ok(b) => Ok(b),
            Err(e) => Err(RpcError::Hex(e)),
        }
    }
}

/// Reading the words of a `getValidator` reply touches no unreadable word and
/// finds 66 characters of key text.
pub open spec fn secp_words_readable(ws: Seq<Seq<u8>>) -> bool {
    ws.len() >= 13 ==> {
        &&& word_at_readable(ws, 10)
        &&& word_at_readable(ws, secp_off(ws) as int)
        &&& secp_len(ws) == 33 ==> secp_tail(ws).len() >= 66 && char_boundary(secp_tail(ws), 66)
    }
}

/// The secp key of validator `id` that a `getValidator` reply gives.
pub open spec fn secp_spec(id: u64, reply: RpcReply) -> Result<Seq<u8>, RpcError> {
    match call_result_spec(reply) {
        Ok(t) => secp_from_words(id, reply_words(t)),
        Err(e) => Err(e),
    }
}

/// Reading a `getValidator` reply does not hit a split character or run out of text.
pub open spec fn secp_reply_readable(reply: RpcReply) -> bool {
    call_result_spec(reply) matches Ok(t) ==> secp_words_readable(reply_words(t))
}

fn concat_from<'a>(words: &Vec<&'a str>, from: usize) -> (r: Vec<u8>)
    requires
        from <= words@.len(),
    ensures
        r@ == concat_words(strs_bytes(words@).skip(from as int)),
{
    let ghost ws = strs_bytes(words@);
    let mut tail: Vec<u8> = Vec::new();
    let mut k: usize = from;
    assert(ws.subrange(from as int, from as int) =~= Seq::<Seq<u8>>::empty());
    while k < words.len()
        invariant
            from <= k <= words@.len(),
            ws == strs_bytes(words@),
            tail@ == concat_words(ws.subrange(from as int, k as int)),
        decreases words.len() - k,
    {
        let wb = words[k].as_bytes();
        let ghost before = tail@;
        let mut j: usize = 0;
        while j < wb.len()
            invariant
                j <= wb@.len(),
                tail@ == before + wb@.take(j as int),
            decreases wb.len() - j,
        {
            tail.push(wb[j]);
            assert(wb@.take(j + 1) =~= wb@.take(j as int).push(wb@[j as int]));
            j = j + 1;
        }
        assert(wb@.take(j as int) =~= wb@);
        assert(ws.subrange(from as int, k + 1).drop_last() =~= ws.subrange(from as int, k as int));
        k = k + 1;
    }
    assert(ws.subrange(from as int, k as int) =~= ws.skip(from as int));
    tail
}

impl Rpc {
    /// The endpoint's URL.
    pub closed spec fn spec_url(&self) -> Seq<char> {
        self.url@
    }

    /// The address of the contract that the calls go to.
    pub closed spec fn spec_contract(&self) -> Seq<char> {
        self.contract@
    }

    /// A client of `url` that calls the staking precompile.
    pub fn new(url: String) -> (r: Rpc)
        ensures
            r.spec_url() == url@,
            r.spec_contract() == STAKING_PRECOMPILE@,
    {
        Rpc { url, contract: <String as StringExecFns>::from_str(STAKING_PRECOMPILE) }
    }

    /// The endpoint's URL.
    pub fn url(&self) -> (r: &str)
        ensures
            r@ == self.spec_url(),
    {
        self.url.as_str()
    }

    /// An `eth_call` of the contract with the calldata `data`.
    pub fn call_request(&self, data: String) -> (r: RpcRequest)
        ensures
            r matches RpcRequest::EthCall { to, data: d } && to@ == self.spec_contract() && d@ == data@,
    {
        RpcRequest::EthCall { to: self.contract.clone(), data }
    }

    /// The `getEpoch()` call.
    pub fn epoch_request(&self) -> (r: RpcRequest)
        ensures
            r matches RpcRequest::EthCall { to, data } && to@ == self.spec_contract() && data@
                == SEL_GET_EPOCH@,
    {
        self.call_request(<String as StringExecFns>::from_str(SEL_GET_EPOCH))
    }

    /// Current consensus epoch: word 0 of the `getEpoch()` reply.
    pub fn current_epoch(reply: &RpcReply) -> (r: Result<u64, RpcError>)
        requires
            epoch_reply_readable(*reply),
        ensures
            r == epoch_spec(*reply),
    {
        let hex = match call_result(reply) {
            Ok(h) => h,
            Err(e) => return Err(e),
        };
        let body = strip(hex.as_str());
        Ok(word_u64(body, 0))
    }

    /// The request for the consensus-set page that starts at `next_index`.
    pub fn consensus_page_request(&self, next_index: u64) -> (r: RpcRequest)
        ensures
            r matches RpcRequest::EthCall { to, data } && to@ == self.spec_contract() && data@
                == SEL_GET_CONSENSUS_SET@ + hex_word_chars(next_index),
    {
        self.call_request(calldata(SEL_GET_CONSENSUS_SET, next_index))
    }

    /// Validator ids of the current consensus set, one page at a time: reads
    /// the reply to a page request, appends the page's ids to `ids`, and gives
    /// the request for the next page, or `None` after the last page.
    pub fn consensus_validator_ids(&self, ids: &mut Vec<u64>, reply: &RpcReply) -> (r: Result<
        Option<RpcRequest>,
        RpcError,
    >)
        requires
            page_reply_readable(*reply),
        ensures
            match call_result_spec(*reply) {
                Err(e) => r == Err::<Option<RpcRequest>, RpcError>(e) && final(ids)@ == old(ids)@,
                Ok(t) => {
                    &&& final(ids)@ == old(ids)@ + page_ids(reply_words(t))
                    &&& match page_next(reply_words(t)) {
                        None => r matches Ok(None),
                        Some(n) => r matches Ok(Some(RpcRequest::EthCall { to, data }))
                            && to@ == self.spec_contract() && data@ == SEL_GET_CONSENSUS_SET@
                            + hex_word_chars(n),
                    }
                },
            },
    {
        let raw = match call_result(reply) {
            Ok(h) => h,
            Err(e) => return Err(e),
        };
        let body = strip(raw.as_str());
        match consensus_page(body, ids) {
            Some(n) => Ok(Some(self.consensus_page_request(n))),
            None => Ok(None),
        }
    }

    /// The `getValidator(id)` call.
    pub fn validator_request(&self, id: u64) -> (r: RpcRequest)
        ensures
            r matches RpcRequest::EthCall { to, data } && to@ == self.spec_contract() && data@
                == SEL_GET_VALIDATOR@ + hex_word_chars(id),
    {
        self.call_request(calldata(SEL_GET_VALIDATOR, id))
    }

    /// Compressed secp256k1 consensus key (node id) of validator `id`, from the
    /// reply to its `getValidator(id)` call. Word 10 locates the first dynamic
    /// `bytes` field; its length word must say 33, and the 66 hex digits that
    /// follow are the key.
    pub fn validator_secp(id: u64, reply: &RpcReply) -> (r: Result<[u8; 33], RpcError>)
        requires
            secp_reply_readable(*reply),
        ensures
            match r {
                Ok(k) => secp_spec(id, *reply) == Ok::<Seq<u8>, RpcError>(k@),
                Err(e) => secp_spec(id, *reply) == Err::<Seq<u8>, RpcError>(e),
            },
    {
        let raw = match call_result(reply) {
            Ok(h) => h,
            Err(e) => return Err(e),
        };
        let body = strip(raw.as_str());
        let words = words_of(body);
        let ghost ws = strs_bytes(words@);
        if words.len() < 13 {
            return Err(RpcError::ShortReturn { id, words: words.len() });
        }
        let off = #[verifier::truncate] ((word(words.as_slice(), 10) / 32) as usize);
        let len = #[verifier::truncate] (word(words.as_slice(), off) as usize);
        if len != 33 {
            return Err(RpcError::SecpLength { id, len });
        }
        assert(off < words.len());
        let tail = concat_from(&words, off + 1);
        let digits = slice_subrange(tail.as_slice(), 0, 66);
        assert(digits@ =~= secp_tail(ws).take(66));
        match hex_decode(digits) {
            Err(e) => Err(RpcError::Hex(e)),
            Ok(key) => {
                proof { lemma_decode_pairs_len(digits@, 0); }
                assert(key@.len() == 33);
                let mut out = [0u8; 33];
                let mut i: usize = 0;
                while i < 33
                    invariant
                        i <= 33,
                        key@.len() == 33,
                        forall|j: int| 0 <= j < i ==> out@[j] == key@[j],
                    decreases 33 - i,
                {
                    out[i] = key[i];
                    i = i + 1;
                }
                assert(out@ =~= key@);
                Ok(out)
            },
        }
    }

    /// Whether a `getEpoch()` reply can be read without hitting a split character.
    pub fn epoch_reply_is_readable(reply: &RpcReply) -> (r: bool)
        ensures
            r == epoch_reply_readable(*reply),
    {
        match call_result(reply) {
            Err(_) => true,
            Ok(raw) => {
                let b = strip(raw.as_str()).as_bytes();
                !(b.len() >= 64 && is_boundary(b, 0) && is_boundary(b, 64)) || is_boundary(b, 48)
            },
        }
    }

    /// Whether a consensus-set reply can be read without hitting a split
    /// character or a short word.
    pub fn page_reply_is_readable(reply: &RpcReply) -> (r: bool)
        ensures
            r == page_reply_readable(*reply),
    {
        let raw = match call_result(reply) {
            Err(_) => return true,
            Ok(raw) => raw,
        };
        let words = words_of(strip(raw.as_str()));
        let ghost ws = strs_bytes(words@);
        if words.len() < 4 {
            return true;
        }
        if !(word_is_readable(words.as_slice(), 0) && word_is_readable(words.as_slice(), 1)
            && word_is_readable(words.as_slice(), 2)) {
            return false;
        }
        let arr_off = #[verifier::truncate] ((word(words.as_slice(), 2) / 32) as usize);
        if arr_off >= words.len() {
            return true;
        }
        if !word_is_readable(words.as_slice(), arr_off) {
            return false;
        }
        let arr_len = #[verifier::truncate] (word(words.as_slice(), arr_off) as usize);
        let n = words.len();
        let avail = n - arr_off - 1;
        let count = if arr_len < avail { arr_len } else { avail };
        let mut i: usize = 0;
        while i < count
            invariant
                i <= count,
                count as int == page_count(ws),
                arr_off as int == page_arr_off(ws) as int,
                n == words@.len(),
                count <= n - arr_off - 1,
                ws == strs_bytes(words@),
                call_result_spec(*reply) == Ok::<Seq<char>, RpcError>(raw@),
                ws == reply_words(raw@),
                ws.len() >= 4,
                arr_off < n,
                forall|j: int| 0 <= j < i ==> #[trigger] word_at_readable(ws, page_arr_off(ws) + 1 + j),
            decreases count - i,
        {
            if !word_is_readable(words.as_slice(), arr_off + 1 + i) {
                assert(!word_at_readable(ws, page_arr_off(ws) + 1 + i));
                return false;
            }
            i = i + 1;
        }
        true
    }

    /// Whether a `getValidator` reply can be read without hitting a split
    /// character or running out of key text.
    pub fn secp_reply_is_readable(reply: &RpcReply) -> (r: bool)
        ensures
            r == secp_reply_readable(*reply),
    {
        let raw = match call_result(reply) {
            Err(_) => return true,
            Ok(raw) => raw,
        };
        let words = words_of(strip(raw.as_str()));
        let ghost ws = strs_bytes(words@);
        if words.len() < 13 {
            return true;
        }
        if !word_is_readable(words.as_slice(), 10) {
            return false;
        }
        let off = #[verifier::truncate] ((word(words.as_slice(), 10) / 32) as usize);
        if !word_is_readable(words.as_slice(), off) {
            return false;
        }
        let len = #[verifier::truncate] (word(words.as_slice(), off) as usize);
        if len != 33 {
            return true;
        }
        let tail = concat_from(&words, off + 1);
        tail.len() >= 66 && is_boundary(tail.as_slice(), 66)
    }

    /// The `eth_blockNumber` request.
    pub fn block_number_request(&self) -> (r: RpcRequest)
        ensures
            r is BlockNumber,
    {
        RpcRequest::BlockNumber
    }

    /// Latest block number (a stand-in for the consensus round): the reply's
    /// result with its leading `0x` pairs removed, read as base-16.
    pub fn round_proxy(reply: &RpcReply) -> (r: Result<u64, RpcError>)
        ensures
            r == block_number_spec(*reply),
    {
        let hex = match raw_result(reply) {
            Ok(h) => h,
            Err(e) => return Err(e),
        };
        let digits = trim_0x(hex.as_str());
        match parse_hex_u64(digits.as_bytes()) {
            Ok(v) => Ok(v),
            Err(k) => Err(RpcError::BlockNumber(k)),
        }
    }
}

} // verus!
