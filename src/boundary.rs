//! The matching side of the trust boundary, run in process: queries are
//! uploaded once, dictionary chunks are matched one at a time, and the
//! per-client response is fetched at the end.
use vstd::prelude::*;
use crate::dictionary::{
    DictionaryBuffer,
    IngestError,
    decoded_dictionary,
    dictionary_lengths_ok,
    dictionary_matches,
    insert_all,
    runs_sorted,
    chunked_matches,
    lemma_chunking_invariant,
};
use crate::primitives::RESPONSE_DATA_SIZE_U8;
use crate::query::{
    MappedQueryBuffer,
    QueryBuffer,
    aggregates,
    client_maps,
    decodes_range,
    fields_valid,
    query_lengths_ok,
};
use crate::dictionary::run_offset;
use crate::primitives::{GeoHashKey, GEOHASH_U8_SIZE};
use crate::table::{Entries, keys_distinct};
use crate::response::{ResultBuffer, response_bytes, positive_ids};

verus! {

/// Why a call across the boundary failed.
#[derive(Clone, Copy, Debug, PartialEq, Eq, Structural)]
pub enum BoundaryError {
    /// An uploaded buffer was rejected.
    Ingest(IngestError),
    /// The output buffer does not have one record per client.
    BufferSize,
}

/// The state held inside the boundary for one job.
pub struct LocalBoundary {
    pub queries: QueryBuffer,
    pub mapped: MappedQueryBuffer,
    pub results: ResultBuffer,
}

impl LocalBoundary {
    pub open spec fn wf(&self) -> bool {
        &&& self.queries.wf()
        &&& self.mapped.wf()
        &&& aggregates(
            self.mapped@,
            Map::empty(),
            client_maps(self.queries.queries@),
        )
    }

    /// A boundary with no queries and no matches.
    pub fn initialize() -> (r: Self)
        ensures
            r.wf(),
            r.queries.queries@.len() == 0,
            r.results@.len() == 0,
    {
        let r = LocalBoundary {
            queries: QueryBuffer::new(),
            mapped: MappedQueryBuffer::new(),
            results: ResultBuffer::new(),
        };
        assert(client_maps(r.queries.queries@) =~= Seq::empty());
        r
    }

    /// Decodes the batch of client queries and builds the aggregated view
    /// that chunks are matched against; replaces any earlier batch.
    pub fn upload_queries(
        &mut self,
        total_query_data_vec: &Vec<u8>,
        size_list_vec: &Vec<usize>,
        query_id_list_vec: &Vec<u64>,
    ) -> (r: Result<(), BoundaryError>)
        requires
            old(self).wf(),
        ensures
            final(self).wf(),
            final(self).results@ == old(self).results@,
            r == Err::<(), BoundaryError>(BoundaryError::Ingest(IngestError::LengthMismatch))
                <==> !query_lengths_ok(total_query_data_vec@, size_list_vec@, query_id_list_vec@),
            r == Err::<(), BoundaryError>(BoundaryError::Ingest(IngestError::BadTimestamp))
                <==> query_lengths_ok(total_query_data_vec@, size_list_vec@, query_id_list_vec@)
                && !fields_valid(
                total_query_data_vec@,
                0,
                run_offset(size_list_vec@, size_list_vec@.len() as int),
            ),
            r is Ok <==> query_lengths_ok(total_query_data_vec@, size_list_vec@, query_id_list_vec@)
                && fields_valid(
                total_query_data_vec@,
                0,
                run_offset(size_list_vec@, size_list_vec@.len() as int),
            ),
            r is Err ==> final(self).queries.queries@ == old(self).queries.queries@,
            r is Ok ==> final(self).queries.queries@.len() == size_list_vec@.len(),
            r is Ok ==> forall|i: int|
                0 <= i < size_list_vec@.len() ==> {
                    let q = #[trigger] final(self).queries.queries@[i];
                    &&& q.id == query_id_list_vec@[i]
                    &&& decodes_range(
                        q.params(),
                        total_query_data_vec@,
                        run_offset(size_list_vec@, i),
                        size_list_vec@[i] as int,
                    )
                },
    {
        let mut queries = QueryBuffer::new();
        match queries.build_query_buffer(total_query_data_vec, size_list_vec, query_id_list_vec) {
            Ok(()) => {},
            Err(e) => {
                return Err(BoundaryError::Ingest(e));
            },
        }
        assert forall|i: int| 0 <= i < size_list_vec@.len() implies #[trigger] queries.queries@[i]
            == queries.queries@[0 + i] by {}
        let mut mapped = MappedQueryBuffer::new();
        mapped.from_query_buffer(&queries);
        self.queries = queries;
        self.mapped = mapped;
        Ok(())
    }

    /// Loads one dictionary chunk into an empty dictionary and records its
    /// contacts with the uploaded queries.  A rejected chunk records nothing.
    pub fn submit_dictionary_chunk(
        &mut self,
        geohash_data_vec: &Vec<u8>,
        unixepoch_data_vec: &Vec<u64>,
        size_list_vec: &Vec<usize>,
    ) -> (r: Result<(), BoundaryError>)
        requires
            old(self).wf(),
        ensures
            final(self).wf(),
            final(self).queries == old(self).queries,
            final(self).mapped == old(self).mapped,
            r == Err::<(), BoundaryError>(BoundaryError::Ingest(IngestError::LengthMismatch))
                <==> !dictionary_lengths_ok(geohash_data_vec@, unixepoch_data_vec@, size_list_vec@),
            r == Err::<(), BoundaryError>(BoundaryError::Ingest(IngestError::UnsortedRun))
                <==> dictionary_lengths_ok(geohash_data_vec@, unixepoch_data_vec@, size_list_vec@)
                && !runs_sorted(decoded_dictionary(geohash_data_vec@, unixepoch_data_vec@, size_list_vec@)),
            r is Ok <==> dictionary_lengths_ok(geohash_data_vec@, unixepoch_data_vec@, size_list_vec@)
                && runs_sorted(decoded_dictionary(geohash_data_vec@, unixepoch_data_vec@, size_list_vec@)),
            r is Err ==> final(self).results@ == old(self).results@,
            r is Ok ==> final(self).results@ == old(self).results@ + dictionary_matches(
                insert_all(
                    Seq::empty(),
                    decoded_dictionary(geohash_data_vec@, unixepoch_data_vec@, size_list_vec@),
                ),
                old(self).mapped@,
            ),
    {
        let mut dictionary = DictionaryBuffer::new();
        match dictionary.build_dictionary_buffer(geohash_data_vec, unixepoch_data_vec, size_list_vec) {
            Ok(()) => {},
            Err(e) => {
                return Err(BoundaryError::Ingest(e));
            },
        }
        dictionary.intersect(&self.mapped, &mut self.results);
        Ok(())
    }

    /// The response: one record per client, in submission order.  The
    /// output length must be one record per client.
    pub fn fetch_response(&self, out_len: usize) -> (r: Result<Vec<u8>, BoundaryError>)
        requires
            self.wf(),
        ensures
            r is Err <==> out_len != 9 * self.queries.queries@.len(),
            r is Err ==> r == Err::<Vec<u8>, BoundaryError>(BoundaryError::BufferSize),
            r is Ok ==> r->Ok_0@ == response_bytes(self.queries.queries@, self.results@),
    {
        let n = self.queries.queries.len();
        if out_len % RESPONSE_DATA_SIZE_U8 != 0 || out_len / RESPONSE_DATA_SIZE_U8 != n {
            proof {
                if out_len == 9 * n {
                    assert((9 * n) % 9 == 0 && (9 * n) / 9 == n) by (nonlinear_arith);
                }
            }
            return Err(BoundaryError::BufferSize);
        }
        let mut response: Vec<u8> = Vec::new();
        self.results.build_query_response(&self.queries, &mut response);
        assert(response@ =~= response_bytes(self.queries.queries@, self.results@));
        Ok(response)
    }
}

/// The records of a dataset, each token as its bytes.
pub open spec fn records_view(records: Seq<(GeoHashKey, Vec<u64>)>) -> Entries {
    Seq::new(records.len(), |i: int| (records[i].0@, records[i].1@))
}

/// Consecutive ranges `[start, end)` that cover `0..total`, each of
/// `chunk_size` records but the last, which may be shorter.
pub open spec fn chunk_ranges_ok(r: Seq<(usize, usize)>, total: int, chunk_size: int) -> bool {
    &&& total == 0 ==> r.len() == 0
    &&& total > 0 ==> r.len() > 0 && r[0].0 == 0 && r.last().1 == total
    &&& forall|i: int| 0 <= i < r.len() - 1 ==> (#[trigger] r[i]).1 == r[i + 1].0
    &&& forall|i: int| 0 <= i < r.len() ==> 0 < (#[trigger] r[i]).1 - r[i].0 <= chunk_size
    &&& forall|i: int| 0 <= i < r.len() - 1 ==> (#[trigger] r[i]).1 - r[i].0 == chunk_size
    &&& forall|i: int| 0 <= i < r.len() ==> (#[trigger] r[i]).1 <= total
}

/// Partitions `total` records into chunks of `chunk_size`.
pub fn chunk_bounds(total: usize, chunk_size: usize) -> (r: Vec<(usize, usize)>)
    requires
        chunk_size > 0,
    ensures
        chunk_ranges_ok(r@, total as int, chunk_size as int),
{
    let mut r: Vec<(usize, usize)> = Vec::new();
    let mut start: usize = 0;
    while start < total
        invariant
            start <= total,
            chunk_size > 0,
            r@.len() == 0 ==> start == 0,
            r@.len() > 0 ==> r@[0].0 == 0 && r@.last().1 == start,
            forall|i: int| 0 <= i < r@.len() - 1 ==> (#[trigger] r@[i]).1 == r@[i + 1].0,
            forall|i: int| 0 <= i < r@.len() ==> 0 < (#[trigger] r@[i]).1 - r@[i].0 <= chunk_size,
            forall|i: int| 0 <= i < r@.len() - 1 ==> (#[trigger] r@[i]).1 - r@[i].0 == chunk_size,
            r@.len() > 0 && start < total ==> r@.last().1 - r@.last().0 == chunk_size,
            forall|i: int| 0 <= i < r@.len() ==> (#[trigger] r@[i]).1 <= start,
        decreases total - start,
    {
        let end = if total - start > chunk_size {
            start + chunk_size
        } else {
            total
        };
        let ghost before = r@;
        r.push((start, end));
        assert forall|i: int| 0 <= i < r@.len() - 1 implies (#[trigger] r@[i]).1 - r@[i].0 == chunk_size by {
            if i < before.len() - 1 {
                assert(r@[i] == before[i]);
            } else {
                assert(r@[i] == before.last());
            }
        }
        assert forall|i: int| 0 <= i < r@.len() - 1 implies (#[trigger] r@[i]).1 == r@[i + 1].0 by {
            if i < before.len() - 1 {
                assert(r@[i] == before[i] && r@[i + 1] == before[i + 1]);
            } else {
                assert(r@[i] == before.last());
            }
        }
        start = end;
    }
    r
}

/// Record `m` of the arrays is record `start + m` of the dataset.
pub open spec fn serialized_at(
    g: Seq<u8>,
    ts: Seq<u64>,
    sizes: Seq<usize>,
    recs: Entries,
    start: int,
    m: int,
) -> bool {
    &&& g.subrange(10 * m, 10 * m + 10) == recs[start + m].0
    &&& ts.subrange(run_offset(sizes, m), run_offset(sizes, m + 1)) == recs[start + m].1
}

pub open spec fn serialized_prefix(
    g: Seq<u8>,
    ts: Seq<u64>,
    sizes: Seq<usize>,
    recs: Entries,
    start: int,
    count: int,
) -> bool {
    forall|m: int| 0 <= m < count ==> #[trigger] serialized_at(g, ts, sizes, recs, start, m)
}

proof fn lemma_run_offset_push(sizes: Seq<usize>, x: usize, m: int)
    requires
        0 <= m <= sizes.len(),
    ensures
        run_offset(sizes.push(x), m) == run_offset(sizes, m),
    decreases m,
{
    if m > 0 {
        lemma_run_offset_push(sizes, x, m - 1);
    }
}

/// Serialises records `[start, end)` of a dataset into the three parallel
/// arrays that `submit_dictionary_chunk` takes.
pub fn serialize_chunk(records: &Vec<(GeoHashKey, Vec<u64>)>, start: usize, end: usize) -> (r: (
    Vec<u8>,
    Vec<u64>,
    Vec<usize>,
))
    requires
        start <= end <= records@.len(),
    ensures
        dictionary_lengths_ok(r.0@, r.1@, r.2@),
        decoded_dictionary(r.0@, r.1@, r.2@) == records_view(records@).subrange(
            start as int,
            end as int,
        ),
{
    let ghost recs = records_view(records@);
    let mut g: Vec<u8> = Vec::new();
    let mut ts: Vec<u64> = Vec::new();
    let mut sizes: Vec<usize> = Vec::new();
    let mut i: usize = start;
    while i < end
        invariant
            start <= i <= end <= records@.len(),
            recs == records_view(records@),
            g@.len() == 10 * (i - start),
            sizes@.len() == i - start,
            ts@.len() == run_offset(sizes@, sizes@.len() as int),
            serialized_prefix(g@, ts@, sizes@, recs, start as int, i - start),
        decreases end - i,
    {
        let ghost g0 = g@;
        let ghost ts0 = ts@;
        let ghost sizes0 = sizes@;
        let ghost n = (i - start) as int;
        let mut k: usize = 0;
        while k < GEOHASH_U8_SIZE
            invariant
                k <= 10,
                i < records@.len(),
                g@ == g0 + records@[i as int].0@.take(k as int),
            decreases 10 - k,
        {
            g.push(records[i].0[k]);
            assert(g@ =~= g0 + records@[i as int].0@.take(k + 1));
            k = k + 1;
        }
        assert(records@[i as int].0@.take(10) =~= records@[i as int].0@);
        let run = &records[i].1;
        let mut j: usize = 0;
        while j < run.len()
            invariant
                j <= run@.len(),
                ts@ == ts0 + run@.take(j as int),
            decreases run@.len() - j,
        {
            ts.push(run[j]);
            assert(ts@ =~= ts0 + run@.take(j + 1));
            j = j + 1;
        }
        assert(run@.take(run@.len() as int) =~= run@);
        sizes.push(run.len());
        proof {
            lemma_run_offset_push(sizes0, run@.len() as usize, n);
            assert(sizes@ == sizes0.push(run@.len() as usize));
            assert forall|m: int| 0 <= m <= n implies run_offset(sizes@, m) == run_offset(sizes0, m) by {
                lemma_run_offset_push(sizes0, run@.len() as usize, m);
            }
            assert forall|m: int| 0 <= m < n + 1 implies serialized_at(g@, ts@, sizes@, recs, start as int, m) by {
                if m < n {
                    assert(serialized_at(g0, ts0, sizes0, recs, start as int, m));
                    assert(g@.subrange(10 * m, 10 * m + 10) =~= g0.subrange(10 * m, 10 * m + 10));
                    lemma_offsets_within(sizes0, m);
                    assert(ts@.subrange(run_offset(sizes@, m), run_offset(sizes@, m + 1)) =~= ts0.subrange(
                        run_offset(sizes0, m),
                        run_offset(sizes0, m + 1),
                    ));
                } else {
                    assert(g@.subrange(10 * m, 10 * m + 10) =~= records@[i as int].0@);
                    assert(ts@.subrange(run_offset(sizes@, m), run_offset(sizes@, m + 1)) =~= run@);
                }
            }
        }
        i = i + 1;
    }
    let ghost d = decoded_dictionary(g@, ts@, sizes@);
    assert(d =~= recs.subrange(start as int, end as int)) by {
        assert forall|m: int| 0 <= m < d.len() implies d[m] == recs.subrange(start as int, end as int)[m] by {
            assert(serialized_at(g@, ts@, sizes@, recs, start as int, m));
        }
    }
    (g, ts, sizes)
}

proof fn lemma_offsets_within(sizes: Seq<usize>, m: int)
    requires
        0 <= m < sizes.len(),
    ensures
        0 <= run_offset(sizes, m) <= run_offset(sizes, m + 1) <= run_offset(sizes, sizes.len() as int),
    decreases sizes.len() - m,
{
    if m + 1 < sizes.len() {
        lemma_offsets_within(sizes, m + 1);
    }
    lemma_offset_nonneg(sizes, m);
}

proof fn lemma_offset_nonneg(sizes: Seq<usize>, m: int)
    requires
        0 <= m <= sizes.len(),
    ensures
        run_offset(sizes, m) >= 0,
    decreases m,
{
    if m > 0 {
        lemma_offset_nonneg(sizes, m - 1);
    }
}

/// The records of each chunk, in chunk order.
pub open spec fn chunks_of(recs: Entries, ranges: Seq<(usize, usize)>) -> Seq<Entries> {
    Seq::new(ranges.len(), |i: int| recs.subrange(ranges[i].0 as int, ranges[i].1 as int))
}

proof fn lemma_chunks_prefix(recs: Entries, ranges: Seq<(usize, usize)>, chunk_size: int, k: int)
    requires
        chunk_ranges_ok(ranges, recs.len() as int, chunk_size),
        0 <= k <= ranges.len(),
    ensures
        chunks_of(recs, ranges.take(k)).flatten() == recs.subrange(
            0,
            if k == 0 {
                0
            } else {
                ranges[k - 1].1 as int
            },
        ),
    decreases k,
{
    if k == 0 {
        assert(chunks_of(recs, ranges.take(0)) =~= Seq::<Entries>::empty());
        assert(recs.subrange(0, 0) =~= Seq::<(Seq<u8>, Seq<u64>)>::empty());
    } else {
        lemma_chunks_prefix(recs, ranges, chunk_size, k - 1);
        let prev = chunks_of(recs, ranges.take(k - 1));
        let part = recs.subrange(ranges[k - 1].0 as int, ranges[k - 1].1 as int);
        assert(chunks_of(recs, ranges.take(k)) =~= prev.push(part));
        prev.lemma_flatten_push(part);
        let start = if k - 1 == 0 {
            0
        } else {
            ranges[k - 2].1 as int
        };
        assert(ranges[k - 1].0 as int == start);
        assert(ranges[k - 1].1 <= recs.len());
        assert(recs.subrange(0, start) + part =~= recs.subrange(0, ranges[k - 1].1 as int));
    }
}

/// The chunks that `chunk_bounds` describes, taken in order, are the
/// whole dataset.
pub proof fn lemma_chunks_cover(recs: Entries, ranges: Seq<(usize, usize)>, chunk_size: int)
    requires
        chunk_ranges_ok(ranges, recs.len() as int, chunk_size),
    ensures
        chunks_of(recs, ranges).flatten() == recs,
{
    lemma_chunks_prefix(recs, ranges, chunk_size, ranges.len() as int);
    assert(ranges.take(ranges.len() as int) =~= ranges);
    if ranges.len() == 0 {
        assert(recs.subrange(0, 0) =~= recs);
    } else {
        assert(recs.subrange(0, recs.len() as int) =~= recs);
    }
}

/// Loading a dataset of distinct tokens chunk by chunk, in the ranges that
/// `chunk_bounds` gives, records the same pairs in the same order as
/// loading it as one chunk; so every client gets the same response and
/// the same clients are positive, whatever the chunk size.
pub proof fn lemma_chunked_protocol(
    queries: Seq<crate::query::QueryRep>,
    query: Map<Seq<u8>, Seq<u64>>,
    recs: Entries,
    ranges: Seq<(usize, usize)>,
    chunk_size: int,
)
    requires
        keys_distinct(recs),
        chunk_ranges_ok(ranges, recs.len() as int, chunk_size),
    ensures
        chunked_matches(query, chunks_of(recs, ranges)) == dictionary_matches(
            insert_all(Seq::empty(), recs),
            query,
        ),
        response_bytes(queries, chunked_matches(query, chunks_of(recs, ranges))) == response_bytes(
            queries,
            dictionary_matches(insert_all(Seq::empty(), recs), query),
        ),
        positive_ids(
            response_bytes(queries, chunked_matches(query, chunks_of(recs, ranges))),
            queries.len() as int,
        ) == positive_ids(
            response_bytes(queries, dictionary_matches(insert_all(Seq::empty(), recs), query)),
            queries.len() as int,
        ),
{
    lemma_chunks_cover(recs, ranges, chunk_size);
    lemma_chunking_invariant(query, chunks_of(recs, ranges));
}

} // verus!
