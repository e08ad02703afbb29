//! The union of the peer name records seen over a crawl: one record per peer
//! key, the freshest one (highest sequence number), listed in key order.

use vstd::prelude::*;
use vstd::string::StringSliceAdditionalSpecFns;
use vstd::utf8::encode_utf8;

verus! {

/// A discovered peer name record, as the crawler exports it.
pub struct PeerRecord {
    /// The peer's secp256k1 public key, as hex text (the record's key).
    pub secp: String,
    /// The advertised address.
    pub ip: String,
    /// The TCP port.
    pub port: u16,
    /// The authenticated UDP port.
    pub auth_port: u16,
    /// The record's sequence number; a higher one is fresher.
    pub seq: u64,
}

/// How two keys are ordered.
#[derive(Debug, Clone, Copy, PartialEq, Eq, Structural)]
pub enum KeyOrder {
    Less,
    Equal,
    Greater,
}

/// Byte-wise lexicographic order, the order of `String` keys.
pub open spec fn lex_less(a: Seq<u8>, b: Seq<u8>) -> bool
    decreases a.len(),
{
    if a.len() == 0 {
        b.len() > 0
    } else if b.len() == 0 {
        false
    } else if a[0] < b[0] {
        true
    } else if a[0] > b[0] {
        false
    } else {
        lex_less(a.skip(1), b.skip(1))
    }
}

/// No key is before itself, and two keys are never each before the other.
pub proof fn lemma_lex_asymmetric(a: Seq<u8>, b: Seq<u8>)
    ensures
        lex_less(a, b) ==> !lex_less(b, a),
        !lex_less(a, a),
    decreases a.len(),
{
    if a.len() > 0 && b.len() > 0 && a[0] == b[0] {
        lemma_lex_asymmetric(a.skip(1), b.skip(1));
    }
    if a.len() > 0 {
        lemma_lex_asymmetric(a.skip(1), a.skip(1));
    }
}

/// Any two different keys are ordered one way or the other.
pub proof fn lemma_lex_total(a: Seq<u8>, b: Seq<u8>)
    ensures
        a != b ==> lex_less(a, b) || lex_less(b, a),
    decreases a.len(),
{
    if a.len() > 0 && b.len() > 0 && a[0] == b[0] {
        lemma_lex_total(a.skip(1), b.skip(1));
        if a.skip(1) == b.skip(1) {
            assert(a =~= seq![a[0]] + a.skip(1));
            assert(b =~= seq![b[0]] + b.skip(1));
        }
    }
    if a.len() == 0 && b.len() == 0 {
        assert(a =~= b);
    }
}

/// The order is transitive.
pub proof fn lemma_lex_transitive(a: Seq<u8>, b: Seq<u8>, c: Seq<u8>)
    requires
        lex_less(a, b),
        lex_less(b, c),
    ensures
        lex_less(a, c),
    decreases a.len(),
{
    if a.len() > 0 && b.len() > 0 && c.len() > 0 && a[0] == b[0] && b[0] == c[0] {
        lemma_lex_transitive(a.skip(1), b.skip(1), c.skip(1));
    }
}

/// The key order is the byte-wise (lexicographic) one: where two keys first
/// differ, the smaller byte comes first; a proper prefix comes before every
/// extension of it; and keys that first differ at `i` are ordered only by
/// their bytes at `i`.
pub proof fn lemma_lex_first_difference(a: Seq<u8>, b: Seq<u8>, i: int)
    requires
        0 <= i,
        i <= a.len(),
        i <= b.len(),
        a.take(i) == b.take(i),
    ensures
        i < a.len() && i < b.len() && a[i] < b[i] ==> lex_less(a, b) && !lex_less(b, a),
        i == a.len() && a.len() < b.len() ==> lex_less(a, b) && !lex_less(b, a),
    decreases i,
{
    if i > 0 {
        assert(a[0] == a.take(i)[0]);
        assert(b[0] == b.take(i)[0]);
        assert(a.skip(1).take(i - 1) =~= a.take(i).skip(1));
        assert(b.skip(1).take(i - 1) =~= b.take(i).skip(1));
        lemma_lex_first_difference(a.skip(1), b.skip(1), i - 1);
        if i < a.len() && i < b.len() {
            assert(a.skip(1)[i - 1] == a[i]);
            assert(b.skip(1)[i - 1] == b[i]);
        }
    }
}

/// Orders the byte strings `a` and `b`.
pub fn order_keys(a: &[u8], b: &[u8]) -> (r: KeyOrder)
    ensures
        r == KeyOrder::Less <==> lex_less(a@, b@),
        r == KeyOrder::Equal <==> a@ == b@,
        r == KeyOrder::Greater <==> lex_less(b@, a@),
{
    proof {
        lemma_lex_asymmetric(a@, b@);
        lemma_lex_asymmetric(b@, a@);
        lemma_lex_total(a@, b@);
    }
    let mut i: usize = 0;
    assert(a@.skip(0) =~= a@);
    assert(b@.skip(0) =~= b@);
    while i < a.len() && i < b.len()
        invariant
            i <= a@.len(),
            i <= b@.len(),
            a@.take(i as int) == b@.take(i as int),
            lex_less(a@, b@) == lex_less(a@.skip(i as int), b@.skip(i as int)),
            lex_less(b@, a@) == lex_less(b@.skip(i as int), a@.skip(i as int)),
        decreases a.len() - i,
    {
        let x = a[i];
        let y = b[i];
        if x < y {
            return KeyOrder::Less;
        }
        if x > y {
            return KeyOrder::Greater;
        }
        assert(a@.skip(i as int).skip(1) =~= a@.skip(i + 1));
        assert(b@.skip(i as int).skip(1) =~= b@.skip(i + 1));
        assert(a@.take(i + 1) =~= a@.take(i as int).push(x));
        assert(b@.take(i + 1) =~= b@.take(i as int).push(y));
        i = i + 1;
    }
    if a.len() == b.len() {
        assert(a@ =~= a@.take(i as int));
        assert(b@ =~= b@.take(i as int));
        KeyOrder::Equal
    } else if i == a.len() {
        KeyOrder::Less
    } else {
        KeyOrder::Greater
    }
}

/// The key of a record: the bytes of its secp text.
pub open spec fn peer_key(r: PeerRecord) -> Seq<u8> {
    encode_utf8(r.secp@)
}

/// The records' keys strictly ascend (so no key occurs twice).
pub open spec fn keys_ascending(rs: Seq<PeerRecord>) -> bool {
    forall|i: int, j: int|
        0 <= i < j < rs.len() ==> lex_less(#[trigger] peer_key(rs[i]), #[trigger] peer_key(rs[j]))
}

/// The records as a map from key to record.
pub open spec fn table_map(rs: Seq<PeerRecord>) -> Map<Seq<u8>, PeerRecord> {
    Map::new(
        |k: Seq<u8>| exists|i: int| 0 <= i < rs.len() && peer_key(rs[i]) == k,
        |k: Seq<u8>| rs[choose|i: int| 0 <= i < rs.len() && peer_key(rs[i]) == k],
    )
}

/// Seeing record `p`: it is kept when its peer is new or its sequence number
/// is at least the kept one's.
pub open spec fn merge_one(m: Map<Seq<u8>, PeerRecord>, p: PeerRecord) -> Map<Seq<u8>, PeerRecord> {
    if !m.dom().contains(peer_key(p)) || p.seq >= m[peer_key(p)].seq {
        m.insert(peer_key(p), p)
    } else {
        m
    }
}

/// Seeing the records `ps` one after another.
pub open spec fn merge_all(m: Map<Seq<u8>, PeerRecord>, ps: Seq<PeerRecord>) -> Map<
    Seq<u8>,
    PeerRecord,
>
    decreases ps.len(),
{
    if ps.len() == 0 {
        m
    } else {
        merge_one(merge_all(m, ps.drop_last()), ps.last())
    }
}

/// In ascending records, the map sends each record's key to that record.
pub proof fn lemma_table_entry(rs: Seq<PeerRecord>, i: int)
    requires
        keys_ascending(rs),
        0 <= i < rs.len(),
    ensures
        table_map(rs).dom().contains(peer_key(rs[i])),
        table_map(rs)[peer_key(rs[i])] == rs[i],
{
    let k = peer_key(rs[i]);
    assert(0 <= i < rs.len() && peer_key(rs[i]) == k);
    let j = choose|j: int| 0 <= j < rs.len() && peer_key(rs[j]) == k;
    if j < i {
        assert(lex_less(peer_key(rs[j]), peer_key(rs[i])));
        lemma_lex_asymmetric(k, k);
    } else if i < j {
        assert(lex_less(peer_key(rs[i]), peer_key(rs[j])));
        lemma_lex_asymmetric(k, k);
    }
}

/// Every record in the map sits under its own key.
pub open spec fn keys_match(m: Map<Seq<u8>, PeerRecord>) -> bool {
    forall|k: Seq<u8>| m.dom().contains(k) ==> peer_key(#[trigger] m[k]) == k
}

/// Merging keeps, for every peer, the freshest record seen: the peers after a
/// merge are those before it and those of the batch; no peer's sequence
/// number goes down; every record of the batch is matched or beaten by the one
/// kept for its peer; every kept record was there before or came in the
/// batch; and records stay under their own keys.
pub proof fn lemma_merge_keeps_freshest(m: Map<Seq<u8>, PeerRecord>, ps: Seq<PeerRecord>)
    ensures
        forall|k: Seq<u8>|
            #[trigger] merge_all(m, ps).dom().contains(k) <==> (m.dom().contains(k) || exists|j: int|
                0 <= j < ps.len() && peer_key(ps[j]) == k),
        forall|k: Seq<u8>|
            m.dom().contains(k) ==> #[trigger] merge_all(m, ps)[k].seq >= m[k].seq,
        forall|j: int|
            0 <= j < ps.len() ==> merge_all(m, ps)[peer_key(#[trigger] ps[j])].seq >= ps[j].seq,
        forall|k: Seq<u8>|
            #[trigger] merge_all(m, ps).dom().contains(k) ==> (merge_all(m, ps)[k] == m[k] || exists|j: int|
                0 <= j < ps.len() && ps[j] == merge_all(m, ps)[k]),
        keys_match(m) ==> keys_match(merge_all(m, ps)),
    decreases ps.len(),
{
    if ps.len() > 0 {
        let init = ps.drop_last();
        let p = ps.last();
        lemma_merge_keeps_freshest(m, init);
        let m1 = merge_all(m, init);
        let m2 = merge_all(m, ps);
        assert(m2 == merge_one(m1, p));
        assert forall|k: Seq<u8>| #[trigger] m2.dom().contains(k) <==> (m.dom().contains(k) || exists|j: int|
            0 <= j < ps.len() && peer_key(ps[j]) == k) by {
            if m1.dom().contains(k) && !m.dom().contains(k) {
                let j = choose|j: int| 0 <= j < init.len() && peer_key(init[j]) == k;
                assert(ps[j] == init[j]);
            }
            if exists|j: int| 0 <= j < ps.len() && peer_key(ps[j]) == k {
                let j = choose|j: int| 0 <= j < ps.len() && peer_key(ps[j]) == k;
                if j < init.len() {
                    assert(init[j] == ps[j]);
                }
            }
        }
        assert forall|j: int| 0 <= j < ps.len() implies m2[peer_key(#[trigger] ps[j])].seq >= ps[j].seq by {
            if j < init.len() {
                assert(init[j] == ps[j]);
                assert(m1[peer_key(init[j])].seq >= init[j].seq);
            }
        }
        assert forall|k: Seq<u8>| #[trigger] m2.dom().contains(k) implies (m2[k] == m[k] || exists|j: int|
            0 <= j < ps.len() && ps[j] == m2[k]) by {
            if m2[k] == p {
                assert(ps[ps.len() - 1] == m2[k]);
            } else if m2[k] != m[k] {
                assert(m2[k] == m1[k]);
                let j = choose|j: int| 0 <= j < init.len() && init[j] == m1[k];
                assert(ps[j] == init[j]);
            }
        }
    }
}

proof fn lemma_merge_bound(m: Map<Seq<u8>, PeerRecord>, ps: Seq<PeerRecord>, k: Seq<u8>, bound: u64)
    requires
        m.dom().contains(k) ==> m[k].seq <= bound,
        forall|j: int| 0 <= j < ps.len() && peer_key(#[trigger] ps[j]) == k ==> ps[j].seq <= bound,
    ensures
        merge_all(m, ps).dom().contains(k) ==> merge_all(m, ps)[k].seq <= bound,
    decreases ps.len(),
{
    if ps.len() > 0 {
        let init = ps.drop_last();
        assert forall|j: int| 0 <= j < init.len() && peer_key(#[trigger] init[j]) == k implies init[j].seq <= bound by {
            assert(init[j] == ps[j]);
        }
        lemma_merge_bound(m, init, k, bound);
        assert(ps[ps.len() - 1] == ps.last());
    }
}

proof fn lemma_merge_unbeaten(m: Map<Seq<u8>, PeerRecord>, ps: Seq<PeerRecord>, k: Seq<u8>)
    requires
        m.dom().contains(k),
        forall|j: int| 0 <= j < ps.len() && peer_key(#[trigger] ps[j]) == k ==> ps[j].seq < m[k].seq,
    ensures
        merge_all(m, ps).dom().contains(k),
        merge_all(m, ps)[k] == m[k],
    decreases ps.len(),
{
    if ps.len() > 0 {
        let init = ps.drop_last();
        assert forall|j: int| 0 <= j < init.len() && peer_key(#[trigger] init[j]) == k implies init[j].seq < m[k].seq by {
            assert(init[j] == ps[j]);
        }
        lemma_merge_unbeaten(m, init, k);
        assert(ps[ps.len() - 1] == ps.last());
    }
}

proof fn lemma_merge_winner(m: Map<Seq<u8>, PeerRecord>, ps: Seq<PeerRecord>, k: Seq<u8>, w: int)
    requires
        0 <= w < ps.len(),
        peer_key(ps[w]) == k,
        m.dom().contains(k) ==> m[k].seq <= ps[w].seq,
        forall|j: int| 0 <= j < ps.len() && peer_key(#[trigger] ps[j]) == k ==> ps[j].seq <= ps[w].seq,
        forall|j: int| w < j < ps.len() && peer_key(#[trigger] ps[j]) == k ==> ps[j].seq < ps[w].seq,
    ensures
        merge_all(m, ps).dom().contains(k),
        merge_all(m, ps)[k] == ps[w],
    decreases ps.len(),
{
    let init = ps.drop_last();
    let last_i = ps.len() - 1;
    assert(ps[last_i] == ps.last());
    if w == last_i {
        assert forall|j: int| 0 <= j < init.len() && peer_key(#[trigger] init[j]) == k implies init[j].seq <= ps[w].seq by {
            assert(init[j] == ps[j]);
        }
        lemma_merge_bound(m, init, k, ps[w].seq);
    } else {
        assert forall|j: int| 0 <= j < init.len() && peer_key(#[trigger] init[j]) == k implies init[j].seq <= init[w].seq by {
            assert(init[j] == ps[j]);
        }
        assert forall|j: int| w < j < init.len() && peer_key(#[trigger] init[j]) == k implies init[j].seq < init[w].seq by {
            assert(init[j] == ps[j]);
        }
        lemma_merge_winner(m, init, k, w);
    }
}

proof fn lemma_last_max_exists(ps: Seq<PeerRecord>, k: Seq<u8>, j0: int)
    requires
        0 <= j0 < ps.len(),
        peer_key(ps[j0]) == k,
    ensures
        exists|w: int|
            0 <= w < ps.len() && peer_key(ps[w]) == k && (forall|j: int|
                0 <= j < ps.len() && peer_key(#[trigger] ps[j]) == k ==> ps[j].seq <= ps[w].seq) && (
            forall|j: int| w < j < ps.len() && peer_key(#[trigger] ps[j]) == k ==> ps[j].seq < ps[w].seq),
    decreases ps.len(),
{
    let init = ps.drop_last();
    let last_i = ps.len() - 1;
    assert(ps[last_i] == ps.last());
    let has_init = exists|j: int| 0 <= j < init.len() && peer_key(init[j]) == k;
    if has_init {
        let j1 = choose|j: int| 0 <= j < init.len() && peer_key(init[j]) == k;
        lemma_last_max_exists(init, k, j1);
        let w = choose|w: int|
            0 <= w < init.len() && peer_key(init[w]) == k && (forall|j: int|
                0 <= j < init.len() && peer_key(#[trigger] init[j]) == k ==> init[j].seq <= init[w].seq) && (
            forall|j: int| w < j < init.len() && peer_key(#[trigger] init[j]) == k ==> init[j].seq < init[w].seq);
        if peer_key(ps[last_i]) == k && ps[last_i].seq >= init[w].seq {
            assert forall|j: int| 0 <= j < ps.len() && peer_key(#[trigger] ps[j]) == k implies ps[j].seq <= ps[last_i].seq by {
                if j < last_i {
                    assert(init[j] == ps[j]);
                }
            }
        } else {
            assert(ps[w] == init[w]);
            assert forall|j: int| 0 <= j < ps.len() && peer_key(#[trigger] ps[j]) == k implies ps[j].seq <= ps[w].seq by {
                if j < last_i {
                    assert(init[j] == ps[j]);
                }
            }
            assert forall|j: int| w < j < ps.len() && peer_key(#[trigger] ps[j]) == k implies ps[j].seq < ps[w].seq by {
                if j < last_i {
                    assert(init[j] == ps[j]);
                }
            }
        }
    } else {
        assert(j0 == last_i) by {
            if j0 < last_i {
                assert(init[j0] == ps[j0]);
            }
        }
        assert forall|j: int| 0 <= j < ps.len() && peer_key(#[trigger] ps[j]) == k implies ps[j].seq <= ps[last_i].seq by {
            if j < last_i {
                assert(init[j] == ps[j]);
            }
        }
    }
}

/// Merging the same records a second time changes nothing: re-reading an
/// unchanged peers file leaves the table as it was.
pub proof fn lemma_merge_idempotent(m: Map<Seq<u8>, PeerRecord>, ps: Seq<PeerRecord>)
    ensures
        merge_all(merge_all(m, ps), ps) == merge_all(m, ps),
{
    let r = merge_all(m, ps);
    let r2 = merge_all(r, ps);
    lemma_merge_keeps_freshest(m, ps);
    lemma_merge_keeps_freshest(r, ps);
    assert forall|k: Seq<u8>| r2.dom().contains(k) <==> r.dom().contains(k) by {
        if r2.dom().contains(k) && !r.dom().contains(k) {
            let j = choose|j: int| 0 <= j < ps.len() && peer_key(ps[j]) == k;
            assert(r.dom().contains(peer_key(ps[j])));
        }
    }
    assert forall|k: Seq<u8>| r.dom().contains(k) implies r2[k] == r[k] by {
        if exists|j: int| 0 <= j < ps.len() && peer_key(ps[j]) == k {
            let j0 = choose|j: int| 0 <= j < ps.len() && peer_key(ps[j]) == k;
            lemma_last_max_exists(ps, k, j0);
            let w = choose|w: int|
                0 <= w < ps.len() && peer_key(ps[w]) == k && (forall|j: int|
                    0 <= j < ps.len() && peer_key(#[trigger] ps[j]) == k ==> ps[j].seq <= ps[w].seq) && (
                forall|j: int| w < j < ps.len() && peer_key(#[trigger] ps[j]) == k ==> ps[j].seq < ps[w].seq);
            if m.dom().contains(k) && m[k].seq > ps[w].seq {
                lemma_merge_unbeaten(m, ps, k);
                lemma_merge_unbeaten(r, ps, k);
            } else {
                lemma_merge_winner(m, ps, k, w);
                lemma_merge_winner(r, ps, k, w);
            }
        } else {
            lemma_merge_unbeaten(r, ps, k);
        }
    }
    assert(r2 =~= r);
}

/// The records of a table are listed in strictly ascending key order, each is
/// the record that the table keeps for its key, and every kept record is listed.
pub proof fn lemma_listing_is_the_table(t: &PeerTable)
    requires
        t.wf(),
    ensures
        forall|i: int, j: int|
            0 <= i < j < t.spec_records().len() ==> lex_less(
                #[trigger] peer_key(t.spec_records()[i]),
                #[trigger] peer_key(t.spec_records()[j]),
            ),
        forall|i: int|
            0 <= i < t.spec_records().len() ==> #[trigger] t.view_map()[peer_key(t.spec_records()[i])]
                == t.spec_records()[i],
        forall|k: Seq<u8>|
            #[trigger] t.view_map().dom().contains(k) ==> exists|i: int|
                0 <= i < t.spec_records().len() && t.spec_records()[i] == t.view_map()[k],
        keys_match(t.view_map()),
{
    let rs = t.spec_records();
    assert forall|i: int| 0 <= i < rs.len() implies #[trigger] t.view_map()[peer_key(rs[i])] == rs[i] by {
        lemma_table_entry(rs, i);
    }
    assert forall|k: Seq<u8>| #[trigger] t.view_map().dom().contains(k) implies exists|i: int|
        0 <= i < rs.len() && rs[i] == t.view_map()[k] by {
        let i = choose|i: int| 0 <= i < rs.len() && peer_key(rs[i]) == k;
        lemma_table_entry(rs, i);
    }
    assert forall|k: Seq<u8>| t.view_map().dom().contains(k) implies peer_key(#[trigger] t.view_map()[k]) == k by {
        let i = choose|i: int| 0 <= i < rs.len() && peer_key(rs[i]) == k;
        lemma_table_entry(rs, i);
    }
}

/// The peer records seen so far, in ascending key order.
pub struct PeerTable {
    records: Vec<PeerRecord>,
}

impl PeerTable {
    /// The records, in the order they are listed.
    pub closed spec fn spec_records(&self) -> Seq<PeerRecord> {
        self.records@
    }

    /// The table's invariant: keys strictly ascend.
    pub open spec fn wf(&self) -> bool {
        keys_ascending(self.spec_records())
    }

    /// The table as a map from peer key to the record kept for it.
    pub open spec fn view_map(&self) -> Map<Seq<u8>, PeerRecord> {
        table_map(self.spec_records())
    }

    /// An empty table.
    pub fn new() -> (r: PeerTable)
        ensures
            r.wf(),
            r.spec_records() == Seq::<PeerRecord>::empty(),
    {
        PeerTable { records: Vec::new() }
    }

    /// The number of peers in the table.
    pub fn len(&self) -> (r: usize)
        ensures
            r == self.spec_records().len(),
    {
        self.records.len()
    }

    /// The records, in ascending key order.
    pub fn into_records(self) -> (r: Vec<PeerRecord>)
        ensures
            r@ == self.spec_records(),
    {
        self.records
    }

    /// Where `key` stands: `(i, true)` when record `i` has it, else `(i, false)`
    /// with every key before `i` smaller and every key from `i` on larger.
    fn find_slot(&self, key: &[u8]) -> (r: (usize, bool))
        requires
            self.wf(),
        ensures
            r.0 <= self.spec_records().len(),
            r.1 ==> r.0 < self.spec_records().len() && peer_key(self.spec_records()[r.0 as int]) == key@,
            !r.1 ==> forall|j: int| 0 <= j < r.0 ==> lex_less(#[trigger] peer_key(self.spec_records()[j]), key@),
            !r.1 ==> forall|j: int|
                r.0 <= j < self.spec_records().len() ==> lex_less(key@, #[trigger] peer_key(self.spec_records()[j])),
    {
        let ghost rs = self.records@;
        let n = self.records.len();
        let mut i: usize = 0;
        while i < n
            invariant
                i <= n,
                n == rs.len(),
                rs == self.records@,
                keys_ascending(rs),
                forall|j: int| 0 <= j < i ==> lex_less(#[trigger] peer_key(rs[j]), key@),
            decreases n - i,
        {
            let o = order_keys(self.records[i].secp.as_str().as_bytes(), key);
            match o {
                KeyOrder::Less => {
                    i = i + 1;
                },
                KeyOrder::Equal => {
                    return (i, true);
                },
                KeyOrder::Greater => {
                    assert forall|j: int| i <= j < rs.len() implies lex_less(key@, #[trigger] peer_key(rs[j])) by {
                        if j > i {
                            assert(lex_less(peer_key(rs[i as int]), peer_key(rs[j])));
                            lemma_lex_transitive(key@, peer_key(rs[i as int]), peer_key(rs[j]));
                        }
                    }
                    return (i, false);
                },
            }
        }
        (i, false)
    }

    /// Sees record `p`: keeps it when its peer is new or its sequence number is
    /// at least that of the record kept so far.
    pub fn merge_peer(&mut self, p: PeerRecord)
        requires
            old(self).wf(),
        ensures
            final(self).wf(),
            final(self).view_map() == merge_one(old(self).view_map(), p),
    {
        let ghost rs = self.records@;
        let ghost k = peer_key(p);
        let (i, found) = self.find_slot(p.secp.as_str().as_bytes());
        if found {
            proof { lemma_table_entry(rs, i as int); }
            if p.seq >= self.records[i].seq {
                self.records.set(i, p);
                let ghost rs2 = self.records@;
                assert(rs2 == rs.update(i as int, p));
                assert forall|a: int, b: int| 0 <= a < b < rs2.len() implies lex_less(
                    #[trigger] peer_key(rs2[a]),
                    #[trigger] peer_key(rs2[b]),
                ) by {
                    assert(peer_key(rs2[a]) == peer_key(rs[a]));
                    assert(peer_key(rs2[b]) == peer_key(rs[b]));
                }
                proof { self.lemma_replaced(rs, i as int, p); }
            }
        } else {
            self.records.insert(i, p);
            let ghost rs2 = self.records@;
            assert forall|a: int, b: int| 0 <= a < b < rs2.len() implies lex_less(
                #[trigger] peer_key(rs2[a]),
                #[trigger] peer_key(rs2[b]),
            ) by {
                if b < i {
                    assert(lex_less(peer_key(rs[a]), peer_key(rs[b])));
                } else if b == i {
                    assert(lex_less(peer_key(rs[a]), k));
                } else if a < i {
                    assert(lex_less(peer_key(rs[a]), k));
                    assert(lex_less(k, peer_key(rs[b - 1])));
                    lemma_lex_transitive(peer_key(rs[a]), k, peer_key(rs[b - 1]));
                } else if a == i {
                    assert(lex_less(k, peer_key(rs[b - 1])));
                } else {
                    assert(lex_less(peer_key(rs[a - 1]), peer_key(rs[b - 1])));
                }
            }
            proof { self.lemma_inserted(rs, i as int, p); }
        }
    }

    proof fn lemma_replaced(&self, rs: Seq<PeerRecord>, i: int, p: PeerRecord)
        requires
            keys_ascending(rs),
            0 <= i < rs.len(),
            peer_key(rs[i]) == peer_key(p),
            self.spec_records() == rs.update(i, p),
            keys_ascending(self.spec_records()),
        ensures
            table_map(self.spec_records()) == table_map(rs).insert(peer_key(p), p),
    {
        let rs2 = self.spec_records();
        let m = table_map(rs);
        let m2 = table_map(rs2);
        assert forall|kk: Seq<u8>| m2.dom().contains(kk) <==> m.insert(peer_key(p), p).dom().contains(kk) by {
            if m2.dom().contains(kk) {
                let j = choose|j: int| 0 <= j < rs2.len() && peer_key(rs2[j]) == kk;
                assert(peer_key(rs[j]) == kk);
            }
            if m.dom().contains(kk) {
                let j = choose|j: int| 0 <= j < rs.len() && peer_key(rs[j]) == kk;
                assert(peer_key(rs2[j]) == kk);
            }
            if kk == peer_key(p) {
                assert(peer_key(rs2[i]) == kk);
            }
        }
        assert forall|kk: Seq<u8>| m2.dom().contains(kk) implies m2[kk] == m.insert(peer_key(p), p)[kk] by {
            let j = choose|j: int| 0 <= j < rs2.len() && peer_key(rs2[j]) == kk;
            lemma_table_entry(rs2, j);
            if j != i {
                assert(rs2[j] == rs[j]);
                lemma_table_entry(rs, j);
                assert(peer_key(rs[j]) == kk);
                if kk == peer_key(p) {
                    lemma_lex_asymmetric(kk, kk);
                    if j < i {
                        assert(lex_less(peer_key(rs[j]), peer_key(rs[i])));
                    } else {
                        assert(lex_less(peer_key(rs[i]), peer_key(rs[j])));
                    }
                }
                assert(kk != peer_key(p));
            } else {
                assert(rs2[j] == p);
            }
        }
        assert(m2 =~= m.insert(peer_key(p), p));
    }

    proof fn lemma_inserted(&self, rs: Seq<PeerRecord>, i: int, p: PeerRecord)
        requires
            keys_ascending(rs),
            0 <= i <= rs.len(),
            forall|j: int| 0 <= j < i ==> lex_less(#[trigger] peer_key(rs[j]), peer_key(p)),
            forall|j: int| i <= j < rs.len() ==> lex_less(peer_key(p), #[trigger] peer_key(rs[j])),
            self.spec_records() == rs.insert(i, p),
            keys_ascending(self.spec_records()),
        ensures
            !table_map(rs).dom().contains(peer_key(p)),
            table_map(self.spec_records()) == table_map(rs).insert(peer_key(p), p),
    {
        let rs2 = self.spec_records();
        let m = table_map(rs);
        let m2 = table_map(rs2);
        let k = peer_key(p);
        if m.dom().contains(k) {
            let j = choose|j: int| 0 <= j < rs.len() && peer_key(rs[j]) == k;
            lemma_lex_asymmetric(k, k);
            if j < i {
                assert(lex_less(peer_key(rs[j]), k));
            } else {
                assert(lex_less(k, peer_key(rs[j])));
            }
        }
        assert forall|kk: Seq<u8>| m2.dom().contains(kk) <==> m.insert(k, p).dom().contains(kk) by {
            if m2.dom().contains(kk) {
                let j = choose|j: int| 0 <= j < rs2.len() && peer_key(rs2[j]) == kk;
                if j < i {
                    assert(peer_key(rs[j]) == kk);
                } else if j > i {
                    assert(peer_key(rs[j - 1]) == kk);
                }
            }
            if m.dom().contains(kk) {
                let j = choose|j: int| 0 <= j < rs.len() && peer_key(rs[j]) == kk;
                if j < i {
                    assert(peer_key(rs2[j]) == kk);
                } else {
                    assert(peer_key(rs2[j + 1]) == kk);
                }
            }
            if kk == k {
                assert(peer_key(rs2[i]) == kk);
            }
        }
        assert forall|kk: Seq<u8>| m2.dom().contains(kk) implies m2[kk] == m.insert(k, p)[kk] by {
            let j = choose|j: int| 0 <= j < rs2.len() && peer_key(rs2[j]) == kk;
            lemma_table_entry(rs2, j);
            if j < i {
                lemma_table_entry(rs, j);
                lemma_lex_asymmetric(kk, k);
            } else if j > i {
                lemma_table_entry(rs, j - 1);
                lemma_lex_asymmetric(k, kk);
            }
        }
        assert(m2 =~= m.insert(k, p));
    }

    /// Sees the records of `batch` in order, as `merge_peer` does for each.
    pub fn merge(&mut self, batch: Vec<PeerRecord>)
        requires
            old(self).wf(),
        ensures
            final(self).wf(),
            final(self).view_map() == merge_all(old(self).view_map(), batch@),
    {
        let ghost m0 = self.view_map();
        let ghost all = batch@;
        let mut rest = batch;
        let mut k: usize = 0;
        let n = rest.len();
        while 0 < rest.len()
            invariant
                self.wf(),
                k + rest@.len() == n,
                n == all.len(),
                rest@ == all.skip(k as int),
                self.view_map() == merge_all(m0, all.take(k as int)),
            decreases rest@.len(),
        {
            let p = rest.remove(0);
            self.merge_peer(p);
            assert(all.take(k + 1).drop_last() =~= all.take(k as int));
            assert(rest@ =~= all.skip(k + 1));
            k = k + 1;
        }
        assert(all.take(k as int) =~= all);
    }
}

} // verus!
