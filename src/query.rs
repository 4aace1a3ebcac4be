//! Per-client queries, their decoding, and the aggregated query view.
use vstd::prelude::*;
use crate::primitives::{
    QueryId,
    QUERY_U8_SIZE,
    UNIXEPOCH_U8_SIZE,
    unixepoch_from_u8,
    read_timestamp_field,
    read_token,
    valid_timestamp_field,
    timestamp_field_value,
};
use crate::dictionary::{IngestError, run_offset, lemma_run_offset_monotone};
use crate::table::{
    TokenTable,
    entries_map,
    entries_insert,
    has_key,
    lemma_entries_insert,
    lemma_entries_map_at,
    keys_distinct,
};
use crate::sorted::strictly_sorted;

verus! {

/// The timestamp field of record `r` of a query buffer.
pub open spec fn record_field(data: Seq<u8>, r: int) -> Seq<u8> {
    data.subrange(20 * r, 20 * r + 10)
}

/// The token of record `r` of a query buffer.
pub open spec fn record_token(data: Seq<u8>, r: int) -> Seq<u8> {
    data.subrange(20 * r + 10, 20 * r + 20)
}

/// One id per client, and the record counts cover the buffer exactly.
pub open spec fn query_lengths_ok(data: Seq<u8>, sizes: Seq<usize>, ids: Seq<u64>) -> bool {
    ids.len() == sizes.len() && 20 * run_offset(sizes, sizes.len() as int) == data.len()
}

/// The timestamp fields of the `len` records from `start` are decimal numbers.
pub open spec fn fields_valid(data: Seq<u8>, start: int, len: int) -> bool {
    forall|r: int| start <= r < start + len ==> valid_timestamp_field(#[trigger] record_field(data, r))
}

/// Some record among `len` records from `start` carries token `k`.
pub open spec fn range_has_token(data: Seq<u8>, start: int, len: int, k: Seq<u8>) -> bool {
    exists|j: int| 0 <= j < len && #[trigger] record_token(data, start + j) == k
}

/// Some record among `len` records from `start` carries token `k` at time `t`.
pub open spec fn range_holds(data: Seq<u8>, start: int, len: int, k: Seq<u8>, t: u64) -> bool {
    exists|j: int|
        0 <= j < len && #[trigger] record_token(data, start + j) == k && timestamp_field_value(
            record_field(data, start + j),
        ) == t
}

/// `m` holds, for each token of the records, exactly their timestamps in
/// strictly ascending order.
pub open spec fn decodes_range(m: Map<Seq<u8>, Seq<u64>>, data: Seq<u8>, start: int, len: int) -> bool {
    &&& forall|k: Seq<u8>| #[trigger] m.contains_key(k) <==> range_has_token(data, start, len, k)
    &&& forall|k: Seq<u8>|
        #[trigger] m.contains_key(k) ==> crate::sorted::strictly_sorted(m[k])
    &&& forall|k: Seq<u8>, t: u64|
        #![trigger m[k].contains(t)]
        #![trigger range_holds(data, start, len, k, t)]
        m.contains_key(k) ==> (m[k].contains(t) <==> range_holds(data, start, len, k, t))
}

/// One client's query: its id and its timestamps per token.
pub struct QueryRep {
    pub id: QueryId,
    pub parameters: TokenTable,
}

impl QueryRep {
    pub open spec fn wf(&self) -> bool {
        self.parameters.wf()
    }

    /// The client's timestamps per token.
    pub open spec fn params(&self) -> Map<Seq<u8>, Seq<u64>> {
        self.parameters.to_map()
    }

    /// An empty query with id 0.
    pub fn new() -> (r: Self)
        ensures
            r.wf(),
            r.id == 0,
            r.parameters@.len() == 0,
    {
        QueryRep { id: 0, parameters: TokenTable::new() }
    }
}

/// Decodes `len` records from record index `start` into one client's query.
fn decode_client(
    total_query_data_vec: &Vec<u8>,
    start: usize,
    len: usize,
    id: QueryId,
) -> (r: Option<QueryRep>)
    requires
        20 * (start + len) <= total_query_data_vec@.len(),
    ensures
        r is Some <==> fields_valid(total_query_data_vec@, start as int, len as int),
        r is Some ==> r->Some_0.wf() && r->Some_0.id == id && decodes_range(
            r->Some_0.params(),
            total_query_data_vec@,
            start as int,
            len as int,
        ),
{
    let ghost data = total_query_data_vec@;
    let dlen = total_query_data_vec.len();
    let mut query = QueryRep::new();
    query.id = id;
    let mut j: usize = 0;
    assert(query.params() =~= Map::<Seq<u8>, Seq<u64>>::empty());
    while j < len
        invariant
            data == total_query_data_vec@,
            dlen == data.len(),
            20 * (start + len) <= dlen,
            j <= len,
            query.wf(),
            query.id == id,
            fields_valid(data, start as int, j as int),
            decodes_range(query.params(), data, start as int, j as int),
        decreases len - j,
    {
        assert(20 * (start + j) + 20 <= 20 * (start + len)) by (nonlinear_arith)
            requires
                j < len,
        ;
        assert(QUERY_U8_SIZE == 20);
        let rec = (start + j) * QUERY_U8_SIZE;
        let field = read_timestamp_field(total_query_data_vec, rec);
        let geo_hash = read_token(total_query_data_vec, rec + UNIXEPOCH_U8_SIZE);
        assert(field@ == record_field(data, start + j));
        assert(geo_hash@ == record_token(data, start + j));
        let ts = match unixepoch_from_u8(field) {
            Some(t) => t,
            None => {
                assert(!valid_timestamp_field(record_field(data, start + j)));
                return None;
            },
        };
        let ghost m0 = query.params();
        query.parameters.add_timestamp(geo_hash, ts);
        let ghost m1 = query.params();
        proof {
            let k = geo_hash@;
            let s = start as int;
            assert forall|key: Seq<u8>| #[trigger] m1.contains_key(key) <==> range_has_token(data, s, j + 1, key) by {
                if range_has_token(data, s, j + 1, key) && key != k {
                    let w = choose|w: int| 0 <= w < j + 1 && #[trigger] record_token(data, s + w) == key;
                    assert(range_has_token(data, s, j as int, key));
                }
                if m1.contains_key(key) && key != k {
                    assert(m0.contains_key(key));
                    let w = choose|w: int| 0 <= w < j && #[trigger] record_token(data, s + w) == key;
                    assert(0 <= w < j + 1 && record_token(data, s + w) == key);
                }
                if key == k {
                    assert(record_token(data, s + j) == key);
                }
            }
            assert forall|key: Seq<u8>| #[trigger] m1.contains_key(key) implies crate::sorted::strictly_sorted(m1[key]) by {
                let idx = choose|idx: int| 0 <= idx < query.parameters@.len() && query.parameters@[idx].0 == key;
                lemma_entries_map_at(query.parameters@, idx);
            }
            assert forall|key: Seq<u8>, t: u64| m1.contains_key(key) implies (#[trigger] m1[key].contains(t)
                <==> range_holds(data, s, j + 1, key, t)) by {
                if key != k {
                    assert(m0.contains_key(key));
                    assert(m1[key] == m0[key]);
                    if range_holds(data, s, j + 1, key, t) {
                        let w = choose|w: int| 0 <= w < j + 1 && #[trigger] record_token(data, s + w) == key
                            && timestamp_field_value(record_field(data, s + w)) == t;
                        assert(range_holds(data, s, j as int, key, t));
                    }
                    if range_holds(data, s, j as int, key, t) {
                        let w = choose|w: int| 0 <= w < j && #[trigger] record_token(data, s + w) == key
                            && timestamp_field_value(record_field(data, s + w)) == t;
                        assert(0 <= w < j + 1);
                    }
                } else {
                    assert(m1[key].to_set().contains(t) == m1[key].contains(t));
                    if range_holds(data, s, j + 1, key, t) && t != ts {
                        let w = choose|w: int| 0 <= w < j + 1 && #[trigger] record_token(data, s + w) == key
                            && timestamp_field_value(record_field(data, s + w)) == t;
                        assert(w != j);
                        assert(range_holds(data, s, j as int, key, t));
                        assert(m0.contains_key(key));
                        assert(m0[key].to_set().contains(t));
                    }
                    if m1[key].contains(t) && t != ts {
                        assert(m0.contains_key(key));
                        assert(m0[key].to_set().contains(t));
                        assert(range_holds(data, s, j as int, key, t));
                        let w = choose|w: int| 0 <= w < j && #[trigger] record_token(data, s + w) == key
                            && timestamp_field_value(record_field(data, s + w)) == t;
                        assert(0 <= w < j + 1);
                    }
                    if t == ts {
                        assert(record_token(data, s + j) == key);
                    }
                }
            }
            assert forall|r: int| start <= r < start + j + 1 implies valid_timestamp_field(
                #[trigger] record_field(data, r),
            ) by {
                if r < start + j {
                }
            }
        }
        j = j + 1;
    }
    Some(query)
}

/// The queries of a batch, in submission order.
pub struct QueryBuffer {
    pub queries: Vec<QueryRep>,
}

impl QueryBuffer {
    pub open spec fn wf(&self) -> bool {
        forall|i: int| 0 <= i < self.queries@.len() ==> (#[trigger] self.queries@[i]).wf()
    }

    /// An empty batch.
    pub fn new() -> (r: Self)
        ensures
            r.wf(),
            r.queries@.len() == 0,
    {
        QueryBuffer { queries: Vec::new() }
    }

    /// Decodes a batch of client queries and appends them in order.
    ///
    /// `total_query_data_vec` holds `QUERY_U8_SIZE`-byte records, each a
    /// decimal timestamp field then a token; client `i` owns the next
    /// `size_list_vec[i]` of them and has id `query_id_list_vec[i]`.  Mismatched
    /// lengths, then an undecodable timestamp, reject the whole batch and
    /// leave the buffer as it was.
    pub fn build_query_buffer(
        &mut self,
        total_query_data_vec: &Vec<u8>,
        size_list_vec: &Vec<usize>,
        query_id_list_vec: &Vec<u64>,
    ) -> (r: Result<(), IngestError>)
        requires
            old(self).wf(),
        ensures
            final(self).wf(),
            r == Err::<(), IngestError>(IngestError::LengthMismatch) <==> !query_lengths_ok(
                total_query_data_vec@,
                size_list_vec@,
                query_id_list_vec@,
            ),
            r == Err::<(), IngestError>(IngestError::BadTimestamp) <==> query_lengths_ok(
                total_query_data_vec@,
                size_list_vec@,
                query_id_list_vec@,
            ) && !fields_valid(
                total_query_data_vec@,
                0,
                run_offset(size_list_vec@, size_list_vec@.len() as int),
            ),
            r is Ok <==> query_lengths_ok(total_query_data_vec@, size_list_vec@, query_id_list_vec@)
                && fields_valid(
                total_query_data_vec@,
                0,
                run_offset(size_list_vec@, size_list_vec@.len() as int),
            ),
            r is Err ==> final(self).queries@ == old(self).queries@,
            r is Ok ==> final(self).queries@.len() == old(self).queries@.len() + size_list_vec@.len(),
            r is Ok ==> forall|i: int|
                0 <= i < old(self).queries@.len() ==> final(self).queries@[i] == old(self).queries@[i],
            r is Ok ==> forall|i: int|
                0 <= i < size_list_vec@.len() ==> {
                    let q = #[trigger] final(self).queries@[old(self).queries@.len() + i];
                    &&& q.id == query_id_list_vec@[i]
                    &&& decodes_range(
                        q.params(),
                        total_query_data_vec@,
                        run_offset(size_list_vec@, i),
                        size_list_vec@[i] as int,
                    )
                },
    {
        let ghost data = total_query_data_vec@;
        let ghost sizes = size_list_vec@;
        let ghost ids = query_id_list_vec@;
        let n = size_list_vec.len();
        let dlen = total_query_data_vec.len();
        if query_id_list_vec.len() != n || dlen % QUERY_U8_SIZE != 0 {
            proof {
                let x = run_offset(sizes, n as int);
                if 20 * x == dlen {
                    assert((20 * x) % 20 == 0) by (nonlinear_arith);
                }
            }
            return Err(IngestError::LengthMismatch);
        }
        let total = dlen / QUERY_U8_SIZE;
        assert(dlen == 20 * total) by (nonlinear_arith)
            requires
                dlen % 20 == 0,
                total == dlen / 20,
        ;
        let mut cursor: usize = 0;
        let mut i: usize = 0;
        while i < n
            invariant
                self.queries@ == old(self).queries@,
                self.wf(),
                n == sizes.len(),
                dlen == data.len(),
                dlen == 20 * total,
                data == total_query_data_vec@,
                sizes == size_list_vec@,
                ids == query_id_list_vec@,
                ids.len() == n,
                i <= n,
                cursor == run_offset(sizes, i as int),
                cursor <= total,
            decreases n - i,
        {
            if size_list_vec[i] > total - cursor {
                proof {
                    lemma_run_offset_monotone(sizes, i + 1, n as int);
                }
                return Err(IngestError::LengthMismatch);
            }
            cursor = cursor + size_list_vec[i];
            i = i + 1;
        }
        if cursor != total {
            return Err(IngestError::LengthMismatch);
        }
        let mut built: Vec<QueryRep> = Vec::new();
        let mut cursor: usize = 0;
        let mut i: usize = 0;
        while i < n
            invariant
                self.queries@ == old(self).queries@,
                self.wf(),
                n == sizes.len(),
                n == ids.len(),
                sizes == size_list_vec@,
                ids == query_id_list_vec@,
                data == total_query_data_vec@,
                query_lengths_ok(data, sizes, ids),
                total == run_offset(sizes, n as int),
                i <= n,
                cursor == run_offset(sizes, i as int),
                fields_valid(data, 0, cursor as int),
                built@.len() == i,
                forall|m: int| 0 <= m < i ==> {
                    let q = #[trigger] built@[m];
                    &&& q.wf()
                    &&& q.id == ids[m]
                    &&& decodes_range(q.params(), data, run_offset(sizes, m), sizes[m] as int)
                },
            decreases n - i,
        {
            proof {
                lemma_run_offset_monotone(sizes, i + 1, n as int);
            }
            let size = size_list_vec[i];
            match decode_client(total_query_data_vec, cursor, size, query_id_list_vec[i]) {
                Some(q) => {
                    built.push(q);
                },
                None => {
                    assert(!fields_valid(data, 0, total as int)) by {
                        let w = choose|w: int| cursor <= w < cursor + size && !valid_timestamp_field(
                            #[trigger] record_field(data, w),
                        );
                        assert(0 <= w < total);
                    }
                    return Err(IngestError::BadTimestamp);
                },
            }
            assert forall|r: int| 0 <= r < cursor + size implies valid_timestamp_field(
                #[trigger] record_field(data, r),
            ) by {
                if r < cursor {
                }
            }
            cursor = cursor + size;
            i = i + 1;
        }
        let ghost before = self.queries@;
        let ghost b = built@;
        self.queries.append(&mut built);
        assert(sizes.len() == n);
        assert forall|m: int| 0 <= m < self.queries@.len() implies (#[trigger] self.queries@[m]).wf() by {
            if m < before.len() {
                assert(self.queries@[m] == before[m]);
            } else {
                assert(self.queries@[m] == b[m - before.len()]);
            }
        }
        Ok(())
    }
}

/// Every client's timestamps per token, merged into one table.
pub struct MappedQueryBuffer {
    pub map: TokenTable,
}

impl View for MappedQueryBuffer {
    type V = Map<Seq<u8>, Seq<u64>>;

    open spec fn view(&self) -> Map<Seq<u8>, Seq<u64>> {
        self.map.to_map()
    }
}

impl MappedQueryBuffer {
    pub open spec fn wf(&self) -> bool {
        self.map.wf()
    }

    /// An empty aggregate.
    pub fn new() -> (r: Self)
        ensures
            r.wf(),
            r@ == Map::<Seq<u8>, Seq<u64>>::empty(),
    {
        let r = MappedQueryBuffer { map: TokenTable::new() };
        assert(r@ =~= Map::<Seq<u8>, Seq<u64>>::empty());
        r
    }
}

/// Some map of `ms` has token `k`.
pub open spec fn any_has(ms: Seq<Map<Seq<u8>, Seq<u64>>>, k: Seq<u8>) -> bool {
    exists|c: int| 0 <= c < ms.len() && #[trigger] ms[c].contains_key(k)
}

/// Some map of `ms` has timestamp `t` under token `k`.
pub open spec fn any_holds(ms: Seq<Map<Seq<u8>, Seq<u64>>>, k: Seq<u8>, t: u64) -> bool {
    exists|c: int| 0 <= c < ms.len() && #[trigger] ms[c].contains_key(k) && ms[c][k].contains(t)
}

/// `m` is `base` with the timestamps of every map of `ms` merged in:
/// a token is present when it is in any of them, and its timestamps are
/// all of theirs.
pub open spec fn aggregates(
    m: Map<Seq<u8>, Seq<u64>>,
    base: Map<Seq<u8>, Seq<u64>>,
    ms: Seq<Map<Seq<u8>, Seq<u64>>>,
) -> bool {
    &&& forall|k: Seq<u8>| #[trigger] m.contains_key(k) <==> base.contains_key(k) || any_has(ms, k)
    &&& forall|k: Seq<u8>, t: u64|
        #![trigger m[k].contains(t)]
        #![trigger any_holds(ms, k, t)]
        m.contains_key(k) ==> (m[k].contains(t) <==> (base.contains_key(k) && base[k].contains(t))
            || any_holds(ms, k, t))
}

/// The per-client maps of a batch.
pub open spec fn client_maps(qs: Seq<QueryRep>) -> Seq<Map<Seq<u8>, Seq<u64>>> {
    Seq::new(qs.len(), |i: int| qs[i].params())
}

proof fn lemma_aggregate_step(
    m: Map<Seq<u8>, Seq<u64>>,
    m2: Map<Seq<u8>, Seq<u64>>,
    base: Map<Seq<u8>, Seq<u64>>,
    prev: Seq<Map<Seq<u8>, Seq<u64>>>,
    cur: Map<Seq<u8>, Seq<u64>>,
    k: Seq<u8>,
    v: Seq<u64>,
)
    requires
        aggregates(m, base, prev.push(cur)),
        !cur.contains_key(k),
        m2.dom() == m.dom().insert(k),
        forall|key: Seq<u8>| key != k && #[trigger] m.contains_key(key) ==> m2[key] == m[key],
        m2[k].to_set() == (if m.contains_key(k) {
            m[k].to_set()
        } else {
            Set::empty()
        }).union(v.to_set()),
    ensures
        aggregates(m2, base, prev.push(cur.insert(k, v))),
{
    let a = prev.push(cur);
    let b = prev.push(cur.insert(k, v));
    let n = prev.len() as int;
    assert(b[n] == cur.insert(k, v));
    assert forall|key: Seq<u8>| any_has(b, key) <==> any_has(a, key) || key == k by {
        if any_has(b, key) && key != k {
            let c = choose|c: int| 0 <= c < b.len() && #[trigger] b[c].contains_key(key);
            assert(a[c].contains_key(key));
        }
        if any_has(a, key) {
            let c = choose|c: int| 0 <= c < a.len() && #[trigger] a[c].contains_key(key);
            assert(b[c].contains_key(key));
        }
        if key == k {
            assert(b[n].contains_key(key));
        }
    }
    assert forall|key: Seq<u8>, t: u64| any_holds(b, key, t) <==> any_holds(a, key, t) || (key == k
        && v.contains(t)) by {
        if any_holds(b, key, t) && !(key == k && v.contains(t)) {
            let c = choose|c: int| 0 <= c < b.len() && #[trigger] b[c].contains_key(key) && b[c][key].contains(t);
            if c == n {
                assert(key != k);
            }
            assert(a[c].contains_key(key) && a[c][key].contains(t));
        }
        if any_holds(a, key, t) {
            let c = choose|c: int| 0 <= c < a.len() && #[trigger] a[c].contains_key(key) && a[c][key].contains(t);
            if c == n {
                assert(key != k);
            }
            assert(b[c].contains_key(key) && b[c][key].contains(t));
        }
        if key == k && v.contains(t) {
            assert(b[n].contains_key(key) && b[n][key].contains(t));
        }
    }
    assert forall|key: Seq<u8>| #[trigger] m2.contains_key(key) <==> base.contains_key(key) || any_has(b, key) by {
        assert(m2.dom().contains(key) == m.dom().insert(k).contains(key));
    }
    assert forall|key: Seq<u8>, t: u64| m2.contains_key(key) implies (#[trigger] m2[key].contains(t) <==> (
    base.contains_key(key) && base[key].contains(t)) || any_holds(b, key, t)) by {
        if key == k {
            assert(m2[key].to_set().contains(t) == m2[key].contains(t));
            if m.contains_key(k) {
                assert(m[k].to_set().contains(t) == m[k].contains(t));
            }
            assert(v.to_set().contains(t) == v.contains(t));
        } else {
            assert(m.contains_key(key));
        }
    }
}

impl MappedQueryBuffer {
    /// Merges every client's timestamps per token into the aggregate.
    pub fn from_query_buffer(&mut self, query_buffer: &QueryBuffer)
        requires
            old(self).wf(),
            query_buffer.wf(),
        ensures
            final(self).wf(),
            aggregates(final(self)@, old(self)@, client_maps(query_buffer.queries@)),
    {
        let ghost base = self@;
        let ghost maps = client_maps(query_buffer.queries@);
        let n = query_buffer.queries.len();
        let mut c: usize = 0;
        assert forall|k: Seq<u8>, t: u64| !any_holds(maps.take(0), k, t) by {}
        while c < n
            invariant
                n == maps.len(),
                maps == client_maps(query_buffer.queries@),
                query_buffer.wf(),
                base == old(self)@,
                c <= n,
                self.wf(),
                aggregates(self@, base, maps.take(c as int)),
            decreases n - c,
        {
            let ghost p = query_buffer.queries@[c as int].parameters@;
            assert(query_buffer.queries@[c as int].wf());
            let ghost empty = Map::<Seq<u8>, Seq<u64>>::empty();
            assert(p.take(0) =~= Seq::<(Seq<u8>, Seq<u64>)>::empty());
            assert(entries_map(p.take(0)) =~= empty);
            proof {
                let prev = maps.take(c as int);
                let ext = prev.push(empty);
                assert forall|key: Seq<u8>| any_has(ext, key) <==> any_has(prev, key) by {
                    if any_has(ext, key) {
                        let w = choose|w: int| 0 <= w < ext.len() && #[trigger] ext[w].contains_key(key);
                        assert(prev[w].contains_key(key));
                    }
                    if any_has(prev, key) {
                        let w = choose|w: int| 0 <= w < prev.len() && #[trigger] prev[w].contains_key(key);
                        assert(ext[w].contains_key(key));
                    }
                }
                assert forall|key: Seq<u8>, t: u64| any_holds(ext, key, t) <==> any_holds(prev, key, t) by {
                    if any_holds(ext, key, t) {
                        let w = choose|w: int| 0 <= w < ext.len() && #[trigger] ext[w].contains_key(key) && ext[w][key].contains(t);
                        assert(prev[w].contains_key(key));
                    }
                    if any_holds(prev, key, t) {
                        let w = choose|w: int| 0 <= w < prev.len() && #[trigger] prev[w].contains_key(key) && prev[w][key].contains(t);
                        assert(ext[w].contains_key(key));
                    }
                }
            }
            let len = query_buffer.queries[c].parameters.entries.len();
            let mut e: usize = 0;
            while e < len
                invariant
                    n == maps.len(),
                    maps == client_maps(query_buffer.queries@),
                    query_buffer.wf(),
                    base == old(self)@,
                    c < n,
                    p == query_buffer.queries@[c as int].parameters@,
                    keys_distinct(p),
                    crate::table::values_sorted(p),
                    len == p.len(),
                    e <= len,
                    self.wf(),
                    aggregates(self@, base, maps.take(c as int).push(entries_map(p.take(e as int)))),
                decreases len - e,
            {
                let ghost m = self@;
                let ghost pe = p.take(e as int);
                let ghost k = p[e as int].0;
                let ghost v = p[e as int].1;
                assert(strictly_sorted(v));
                self.map.merge_list(
                    query_buffer.queries[c].parameters.entries[e].0,
                    &query_buffer.queries[c].parameters.entries[e].1,
                );
                proof {
                    assert(keys_distinct(pe));
                    assert(!has_key(pe, k)) by {
                        if has_key(pe, k) {
                            let w = choose|w: int| 0 <= w < pe.len() && pe[w].0 == k;
                            assert(p[w].0 == p[e as int].0);
                        }
                    }
                    lemma_entries_insert(pe, k, v);
                    assert(entries_insert(pe, k, v) =~= p.take(e + 1));
                    lemma_aggregate_step(m, self@, base, maps.take(c as int), entries_map(pe), k, v);
                }
                e = e + 1;
            }
            proof {
                assert(p.take(len as int) =~= p);
                assert(maps.take(c as int).push(entries_map(p)) =~= maps.take(c + 1));
            }
            c = c + 1;
        }
        assert(maps.take(n as int) =~= maps);
    }
}

} // verus!
