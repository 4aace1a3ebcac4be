//! Accumulated matches, per-client risk records and the response layout.
use vstd::prelude::*;
use crate::primitives::{GeoHashKey, UnixEpoch, QueryId, RESPONSE_DATA_SIZE_U8, QUERY_ID_SIZE_U8};
use crate::query::{QueryBuffer, QueryRep};
use crate::sorted::sorted_contains;
use crate::table::lemma_entries_map_at;

verus! {

broadcast use vstd::seq_lib::group_seq_properties;

/// The risk level of a match count: none, 1 to 5, 6 to 20, more than 20.
pub open spec fn risk_of(count: nat) -> u8 {
    if count > 20 {
        3
    } else if count > 5 {
        2
    } else if count > 0 {
        1
    } else {
        0
    }
}

/// Byte `i` of the big-endian encoding of `x`.
pub open spec fn id_byte(x: u64, i: int) -> u8 {
    (x >> ((56 - 8 * i) as u64)) as u8
}

/// The big-endian encoding of `x`.
pub open spec fn id_bytes(x: u64) -> Seq<u8> {
    Seq::new(8, |i: int| id_byte(x, i))
}

/// The value of big-endian bytes.
pub open spec fn be_value(s: Seq<u8>) -> nat
    decreases s.len(),
{
    if s.len() == 0 {
        0
    } else {
        be_value(s.drop_last()) * 256 + s.last() as nat
    }
}

/// One response record: the id, then the risk byte.
pub open spec fn response_record(id: u64, risk: u8) -> Seq<u8> {
    id_bytes(id) + seq![risk]
}

/// The recorded pair is one of the client's own (token, timestamp) pairs.
pub open spec fn confirmed(m: Map<Seq<u8>, Seq<u64>>, p: (Seq<u8>, u64)) -> bool {
    m.contains_key(p.0) && m[p.0].contains(p.1)
}

/// How many recorded pairs are the client's own.
pub open spec fn match_count(m: Map<Seq<u8>, Seq<u64>>, data: Seq<(Seq<u8>, u64)>) -> nat
    decreases data.len(),
{
    if data.len() == 0 {
        0
    } else {
        match_count(m, data.drop_last()) + if confirmed(m, data.last()) {
            1nat
        } else {
            0nat
        }
    }
}

/// The records of all clients, in submission order.
pub open spec fn response_bytes(qs: Seq<QueryRep>, data: Seq<(Seq<u8>, u64)>) -> Seq<u8>
    decreases qs.len(),
{
    if qs.len() == 0 {
        seq![]
    } else {
        let q = qs.last();
        response_bytes(qs.drop_last(), data) + response_record(
            q.id,
            risk_of(match_count(q.params(), data)),
        )
    }
}

/// The ids of the records of `resp[..9 * n]` whose risk byte is not zero.
pub open spec fn positive_ids(resp: Seq<u8>, n: int) -> Seq<u64>
    decreases n,
{
    if n <= 0 {
        seq![]
    } else {
        let start = 9 * (n - 1);
        positive_ids(resp, n - 1) + if resp[start + 8] > 0 {
            seq![be_value(resp.subrange(start, start + 8)) as u64]
        } else {
            seq![]
        }
    }
}

/// The key of a client: its id big-endian, then eight zero bytes.
pub open spec fn client_key(id: u64) -> Seq<u8> {
    id_bytes(id) + Seq::new(8, |_i: int| 0u8)
}

/// The risk level of a match count.
pub fn risk_level_of(count: usize) -> (r: u8)
    ensures
        r == risk_of(count as nat),
{
    if count > 20 {
        3
    } else if count > 5 {
        2
    } else if count > 0 {
        1
    } else {
        0
    }
}

/// The response of one client.
pub struct QueryResult {
    pub query_id: QueryId,
    pub risk_level: u8,
    pub result_vec: Vec<(GeoHashKey, UnixEpoch)>,
}

impl QueryResult {
    /// A result with id 1, risk 0 and no matches.
    pub fn new() -> (r: Self)
        ensures
            r.query_id == 1,
            r.risk_level == 0,
            r.result_vec@.len() == 0,
    {
        QueryResult { query_id: 1, risk_level: 0, result_vec: Vec::new() }
    }

    /// The record: the id big-endian, then the risk byte.
    pub fn to_be_bytes(&self) -> (r: [u8; 9])
        ensures
            r@ == response_record(self.query_id, self.risk_level),
    {
        let mut res: [u8; 9] = [0u8; 9];
        let mut i: usize = 0;
        while i < QUERY_ID_SIZE_U8
            invariant
                i <= 8,
                res@.len() == 9,
                forall|k: int| 0 <= k < i ==> res@[k] == id_byte(self.query_id, k),
            decreases 8 - i,
        {
            let shift: u64 = 56 - 8 * (i as u64);
            res[i] = (self.query_id >> shift) as u8;
            i = i + 1;
        }
        res[RESPONSE_DATA_SIZE_U8 - 1] = self.risk_level;
        assert(res@ =~= response_record(self.query_id, self.risk_level));
        res
    }
}

/// The (token, query timestamp) pairs recorded by matching, in order.
pub struct ResultBuffer {
    pub data: Vec<(GeoHashKey, UnixEpoch)>,
}

impl View for ResultBuffer {
    type V = Seq<(Seq<u8>, u64)>;

    open spec fn view(&self) -> Seq<(Seq<u8>, u64)> {
        Seq::new(self.data@.len(), |i: int| (self.data@[i].0@, self.data@[i].1))
    }
}

impl ResultBuffer {
    /// An empty buffer.
    pub fn new() -> (r: Self)
        ensures
            r@ == Seq::<(Seq<u8>, u64)>::empty(),
    {
        let r = ResultBuffer { data: Vec::new() };
        assert(r@ =~= Seq::<(Seq<u8>, u64)>::empty());
        r
    }

    /// Appends one recorded pair.
    pub fn record(&mut self, geohash: GeoHashKey, unixepoch: UnixEpoch)
        ensures
            final(self)@ == old(self)@.push((geohash@, unixepoch)),
    {
        self.data.push((geohash, unixepoch));
        assert(self@ =~= old(self)@.push((geohash@, unixepoch)));
    }

    /// Counts the recorded pairs that are the client's own.
    fn confirmed_matches(&self, query: &QueryRep) -> (r: QueryResult)
        requires
            query.wf(),
        ensures
            r.query_id == query.id,
            r.risk_level == risk_of(match_count(query.params(), self@)),
    {
        let ghost m = query.params();
        let mut result = QueryResult::new();
        result.query_id = query.id;
        let mut i: usize = 0;
        while i < self.data.len()
            invariant
                query.wf(),
                m == query.params(),
                i <= self@.len(),
                result.query_id == query.id,
                result.result_vec@.len() == match_count(m, self@.take(i as int)),
                result.result_vec@.len() <= i,
            decreases self@.len() - i,
        {
            assert(self@.take(i + 1).drop_last() =~= self@.take(i as int));
            let is_exist = match query.parameters.find(&self.data[i].0) {
                Some(idx) => {
                    proof {
                        lemma_entries_map_at(query.parameters@, idx as int);
                    }
                    sorted_contains(&query.parameters.entries[idx].1, self.data[i].1)
                },
                None => false,
            };
            if is_exist {
                result.result_vec.push(self.data[i]);
            }
            i = i + 1;
        }
        assert(self@.take(i as int) =~= self@);
        result.risk_level = risk_level_of(result.result_vec.len());
        result
    }

    /// Appends one record per client, in submission order, each carrying
    /// the client's id and the risk level of its confirmed matches.
    pub fn build_query_response(&self, query_buffer: &QueryBuffer, response_vec: &mut Vec<u8>)
        requires
            query_buffer.wf(),
        ensures
            final(response_vec)@ == old(response_vec)@ + response_bytes(
                query_buffer.queries@,
                self@,
            ),
    {
        let ghost qs = query_buffer.queries@;
        let mut i: usize = 0;
        while i < query_buffer.queries.len()
            invariant
                qs == query_buffer.queries@,
                query_buffer.wf(),
                i <= qs.len(),
                response_vec@ == old(response_vec)@ + response_bytes(qs.take(i as int), self@),
            decreases qs.len() - i,
        {
            assert(qs.take(i + 1).drop_last() =~= qs.take(i as int));
            assert(qs[i as int].wf());
            let result = self.confirmed_matches(&query_buffer.queries[i]);
            let bytes = result.to_be_bytes();
            let mut k: usize = 0;
            let ghost before = response_vec@;
            while k < RESPONSE_DATA_SIZE_U8
                invariant
                    k <= 9,
                    bytes@.len() == 9,
                    response_vec@ == before + bytes@.take(k as int),
                decreases 9 - k,
            {
                response_vec.push(bytes[k]);
                assert(bytes@.take(k + 1) =~= bytes@.take(k as int).push(bytes@[k as int]));
                k = k + 1;
            }
            assert(bytes@.take(9) =~= bytes@);
            assert(response_vec@ =~= old(response_vec)@ + response_bytes(qs.take(i + 1), self@));
            i = i + 1;
        }
        assert(qs.take(i as int) =~= qs);
    }
}

/// Reads a big-endian id from `bytes[start..start + 8]`.
pub fn query_id_from_u8(bytes: &Vec<u8>, start: usize) -> (r: QueryId)
    requires
        start + 8 <= bytes@.len(),
    ensures
        r == be_value(bytes@.subrange(start as int, start + 8)),
{
    let ghost s = bytes@;
    let mut acc: u64 = 0;
    let mut i: usize = 0;
    let n = bytes.len();
    while i < QUERY_ID_SIZE_U8
        invariant
            i <= 8,
            n == s.len(),
            s == bytes@,
            start + 8 <= s.len(),
            acc == be_value(s.subrange(start as int, start + i)),
            acc < pow256(i as nat),
        decreases 8 - i,
    {
        let b = bytes[start + i];
        assert(s.subrange(start as int, start + i + 1).drop_last() =~= s.subrange(start as int, start + i));
        assert(pow256((i + 1) as nat) == 256 * pow256(i as nat));
        assert(pow256(8) == 0x1_0000_0000_0000_0000) by {
            reveal_with_fuel(pow256, 9);
        }
        proof {
            lemma_pow256_monotone((i + 1) as nat, 8);
        }
        assert(acc * 256 + b < pow256((i + 1) as nat)) by (nonlinear_arith)
            requires
                acc < pow256(i as nat),
                pow256((i + 1) as nat) == 256 * pow256(i as nat),
                b < 256,
        ;
        acc = acc * 256 + b as u64;
        i = i + 1;
    }
    acc
}

pub open spec fn pow256(n: nat) -> nat
    decreases n,
{
    if n == 0 {
        1
    } else {
        256 * pow256((n - 1) as nat)
    }
}

pub proof fn lemma_pow256_monotone(a: nat, b: nat)
    requires
        a <= b,
    ensures
        pow256(a) <= pow256(b),
    decreases b,
{
    if a < b {
        lemma_pow256_monotone(a, (b - 1) as nat);
    }
}

/// The ids of the clients whose risk byte is not zero, in record order.
pub fn positive_query_ids(response: &Vec<u8>, client_size: usize) -> (r: Vec<QueryId>)
    requires
        9 * client_size <= response@.len(),
    ensures
        r@ == positive_ids(response@, client_size as int),
{
    let mut positives: Vec<QueryId> = Vec::new();
    let mut i: usize = 0;
    let n = response.len();
    while i < client_size
        invariant
            n == response@.len(),
            i <= client_size,
            9 * client_size <= response@.len(),
            positives@ == positive_ids(response@, i as int),
        decreases client_size - i,
    {
        assert(9 * i + 9 <= 9 * client_size) by (nonlinear_arith)
            requires
                i < client_size,
        ;
        assert(RESPONSE_DATA_SIZE_U8 == 9);
        let start = i * RESPONSE_DATA_SIZE_U8;
        if response[start + QUERY_ID_SIZE_U8] > 0 {
            let id = query_id_from_u8(response, start);
            positives.push(id);
        }
        assert(positives@ =~= positive_ids(response@, i + 1));
        i = i + 1;
    }
    positives
}

/// The key of a client: its id big-endian, then eight zero bytes.
///
/// Anyone who knows the id, the host included, can derive this key, and
/// the counter block is the same for every client; the encryption of the
/// risk byte therefore hides nothing from the host.
pub fn derive_client_key(query_id: QueryId) -> (r: [u8; 16])
    ensures
        r@ == client_key(query_id),
{
    let mut key: [u8; 16] = [0u8; 16];
    let mut i: usize = 0;
    while i < QUERY_ID_SIZE_U8
        invariant
            i <= 8,
            key@.len() == 16,
            forall|k: int| 0 <= k < i ==> key@[k] == id_byte(query_id, k),
            forall|k: int| 8 <= k < 16 ==> key@[k] == 0,
        decreases 8 - i,
    {
        let shift: u64 = 56 - 8 * (i as u64);
        key[i] = (query_id >> shift) as u8;
        i = i + 1;
    }
    assert(key@ =~= client_key(query_id));
    key
}

/// One step of counter mode: the byte combined with a keystream byte.
/// Encryption and decryption are the same step.
pub fn ctr_apply(byte: u8, keystream: u8) -> (r: u8)
    ensures
        r == byte ^ keystream,
{
    byte ^ keystream
}

/// Decrypting with the keystream that encrypted a risk byte gives the
/// risk byte back, whatever keystream the client's key and the counter
/// block produced.
pub proof fn lemma_ctr_round_trip(risk: u8, keystream: u8)
    ensures
        (risk ^ keystream) ^ keystream == risk,
{
    assert((risk ^ keystream) ^ keystream == risk) by (bit_vector);
}

} // verus!
