//! The central dictionary: chunk ingestion and windowed geotemporal matching.
use vstd::prelude::*;
use crate::primitives::{GeoHashKey, UnixEpoch, Period, CONTACT_TIME_THREASHOLD, GEOHASH_U8_SIZE};
use crate::sorted::strictly_sorted;
use crate::table::{
    Entries,
    TokenTable,
    entries_insert,
    lemma_entries_map_at,
    keys_distinct,
};
use crate::query::MappedQueryBuffer;
use crate::response::{ResultBuffer, response_bytes, positive_ids};
use crate::query::QueryRep;

verus! {

broadcast use vstd::seq_lib::group_seq_properties;

/// Why an input buffer was rejected.
#[derive(Clone, Copy, Debug, PartialEq, Eq, Structural)]
pub enum IngestError {
    /// Parallel arrays disagree in length.
    LengthMismatch,
    /// A timestamp run is not strictly ascending.
    UnsortedRun,
    /// A timestamp field is not a decimal number.
    BadTimestamp,
}

/// Two timestamps lie within the contact window of each other.
pub open spec fn in_contact(a: u64, b: u64) -> bool {
    a < b + CONTACT_TIME_THREASHOLD && b < a + CONTACT_TIME_THREASHOLD
}

/// How many of `ds` are in contact with `q`.
pub open spec fn window_count(q: u64, ds: Seq<u64>) -> nat
    decreases ds.len(),
{
    if ds.len() == 0 {
        0
    } else {
        window_count(q, ds.drop_last()) + if in_contact(ds.last(), q) {
            1nat
        } else {
            0nat
        }
    }
}

/// `n` copies of the pair `(k, q)`.
pub open spec fn repeated(k: Seq<u8>, q: u64, n: nat) -> Seq<(Seq<u8>, u64)> {
    Seq::new(n, |_i: int| (k, q))
}

/// The pairs recorded for token `k`: for each query timestamp in order,
/// one `(k, q)` per dictionary timestamp in contact with it.
pub open spec fn contact_records(k: Seq<u8>, qs: Seq<u64>, ds: Seq<u64>) -> Seq<(Seq<u8>, u64)>
    decreases qs.len(),
{
    if qs.len() == 0 {
        seq![]
    } else {
        contact_records(k, qs.drop_last(), ds) + repeated(k, qs.last(), window_count(qs.last(), ds))
    }
}

/// The pairs recorded for a dictionary against an aggregated query, entry
/// by entry in dictionary order; tokens absent from the query give none.
pub open spec fn dictionary_matches(dict: Entries, query: Map<Seq<u8>, Seq<u64>>) -> Seq<
    (Seq<u8>, u64),
>
    decreases dict.len(),
{
    if dict.len() == 0 {
        seq![]
    } else {
        let e = dict.last();
        dictionary_matches(dict.drop_last(), query) + if query.contains_key(e.0) {
            contact_records(e.0, query[e.0], e.1)
        } else {
            seq![]
        }
    }
}

/// Start of run `i` in the timestamp array: the sum of the earlier sizes.
pub open spec fn run_offset(sizes: Seq<usize>, i: int) -> int
    decreases i,
{
    if i <= 0 {
        0
    } else {
        run_offset(sizes, i - 1) + sizes[i - 1]
    }
}

/// One token of `GEOHASH_U8_SIZE` bytes per size, and the sizes add up to
/// the number of timestamps.
pub open spec fn dictionary_lengths_ok(g: Seq<u8>, ts: Seq<u64>, sizes: Seq<usize>) -> bool {
    g.len() == 10 * sizes.len() && run_offset(sizes, sizes.len() as int) == ts.len()
}

/// The records that the three parallel arrays describe.
pub open spec fn decoded_dictionary(g: Seq<u8>, ts: Seq<u64>, sizes: Seq<usize>) -> Entries {
    Seq::new(
        sizes.len(),
        |i: int|
            (
                g.subrange(10 * i, 10 * i + 10),
                ts.subrange(run_offset(sizes, i), run_offset(sizes, i + 1)),
            ),
    )
}

pub open spec fn runs_sorted(records: Entries) -> bool {
    forall|i: int| 0 <= i < records.len() ==> strictly_sorted(#[trigger] records[i].1)
}

/// Inserts records in order, a later record of a token replacing an earlier one.
pub open spec fn insert_all(s: Entries, records: Entries) -> Entries
    decreases records.len(),
{
    if records.len() == 0 {
        s
    } else {
        let p = insert_all(s, records.drop_last());
        entries_insert(p, records.last().0, records.last().1)
    }
}

proof fn lemma_window_prefix_zero(q: u64, ds: Seq<u64>, n: int)
    requires
        0 <= n <= ds.len(),
        forall|m: int| 0 <= m < n ==> !in_contact(#[trigger] ds[m], q),
    ensures
        window_count(q, ds.take(n)) == 0,
    decreases n,
{
    if n > 0 {
        assert(ds.take(n).drop_last() =~= ds.take(n - 1));
        lemma_window_prefix_zero(q, ds, n - 1);
    }
}

proof fn lemma_window_suffix(q: u64, ds: Seq<u64>, j: int, n: int)
    requires
        0 <= j <= n <= ds.len(),
        forall|m: int| j <= m < n ==> !in_contact(#[trigger] ds[m], q),
    ensures
        window_count(q, ds.take(n)) == window_count(q, ds.take(j)),
    decreases n,
{
    if n > j {
        assert(ds.take(n).drop_last() =~= ds.take(n - 1));
        lemma_window_suffix(q, ds, j, n - 1);
    }
}

/// Whether `a` and `b` are less than `CONTACT_TIME_THREASHOLD` apart.
pub fn within_window(a: u64, b: u64) -> (r: bool)
    ensures
        r == in_contact(a, b),
{
    if a >= b {
        a - b < CONTACT_TIME_THREASHOLD
    } else {
        b - a < CONTACT_TIME_THREASHOLD
    }
}

/// Records one `(geohash, q)` per timestamp of `ds` in contact with `q`,
/// skipping the prefix below `lo` known to lie before the window, and
/// returns the new start of the window.
fn record_window(
    dict_unixepoch_vec: &Vec<UnixEpoch>,
    geohash: &GeoHashKey,
    q: u64,
    lo: usize,
    result: &mut ResultBuffer,
) -> (new_lo: usize)
    requires
        strictly_sorted(dict_unixepoch_vec@),
        lo <= dict_unixepoch_vec@.len(),
        forall|m: int| 0 <= m < lo ==> dict_unixepoch_vec@[m] + CONTACT_TIME_THREASHOLD <= q,
    ensures
        lo <= new_lo <= dict_unixepoch_vec@.len(),
        forall|m: int| 0 <= m < new_lo ==> dict_unixepoch_vec@[m] + CONTACT_TIME_THREASHOLD <= q,
        final(result)@ == old(result)@ + repeated(
            geohash@,
            q,
            window_count(q, dict_unixepoch_vec@),
        ),
{
    let ghost ds = dict_unixepoch_vec@;
    let ghost k = geohash@;
    let dlen = dict_unixepoch_vec.len();
    let mut lo = lo;
    while lo < dlen && q >= dict_unixepoch_vec[lo] && q - dict_unixepoch_vec[lo]
        >= CONTACT_TIME_THREASHOLD
        invariant
            ds == dict_unixepoch_vec@,
            dlen == ds.len(),
            lo <= dlen,
            forall|m: int| 0 <= m < lo ==> ds[m] + CONTACT_TIME_THREASHOLD <= q,
        decreases dlen - lo,
    {
        lo = lo + 1;
    }
    proof {
        lemma_window_prefix_zero(q, ds, lo as int);
    }
    let ghost base = result@;
    assert(base =~= old(result)@);
    let mut j: usize = lo;
    while j < dlen && (dict_unixepoch_vec[j] <= q || dict_unixepoch_vec[j] - q
        < CONTACT_TIME_THREASHOLD)
        invariant
            ds == dict_unixepoch_vec@,
            k == geohash@,
            dlen == ds.len(),
            strictly_sorted(ds),
            lo <= j <= dlen,
            lo < dlen ==> q < ds[lo as int] + CONTACT_TIME_THREASHOLD,
            result@ == base + repeated(k, q, window_count(q, ds.take(j as int))),
        decreases dlen - j,
    {
        assert(ds.take(j + 1).drop_last() =~= ds.take(j as int));
        assert(in_contact(ds[j as int], q)) by {
            assert(ds[lo as int] <= ds[j as int]);
        }
        result.record(*geohash, q);
        assert(result@ =~= base + repeated(k, q, window_count(q, ds.take(j + 1))));
        j = j + 1;
    }
    proof {
        assert forall|m: int| j <= m < dlen implies !in_contact(#[trigger] ds[m], q) by {
            assert(ds[j as int] <= ds[m]);
        }
        lemma_window_suffix(q, ds, j as int, dlen as int);
        assert(ds.take(dlen as int) =~= ds);
    }
    lo
}

pub proof fn lemma_run_offset_monotone(sizes: Seq<usize>, i: int, j: int)
    requires
        0 <= i <= j <= sizes.len(),
    ensures
        run_offset(sizes, i) <= run_offset(sizes, j),
    decreases j - i,
{
    if i < j {
        lemma_run_offset_monotone(sizes, i, j - 1);
    }
}

/// Whether `ts[start..end]` is strictly ascending.
fn run_is_sorted(ts: &Vec<u64>, start: usize, end: usize) -> (r: bool)
    requires
        start <= end <= ts@.len(),
    ensures
        r == strictly_sorted(ts@.subrange(start as int, end as int)),
{
    if start == end {
        return true;
    }
    let mut j: usize = start + 1;
    while j < end
        invariant
            start < j <= end <= ts@.len(),
            strictly_sorted(ts@.subrange(start as int, j as int)),
        decreases end - j,
    {
        if ts[j - 1] >= ts[j] {
            assert(!strictly_sorted(ts@.subrange(start as int, end as int))) by {
                let r = ts@.subrange(start as int, end as int);
                assert(r[j - 1 - start] == ts@[j - 1] && r[j - start] == ts@[j as int]);
            }
            return false;
        }
        let ghost p = ts@.subrange(start as int, j as int);
        let ghost n = ts@.subrange(start as int, j + 1);
        assert forall|a: int, b: int| 0 <= a < b < n.len() implies n[a] < n[b] by {
            if b < n.len() - 1 {
                assert(n[a] == p[a] && n[b] == p[b]);
            } else if a < n.len() - 2 {
                assert(n[a] == p[a] && p[a] < p[n.len() - 2]);
            }
        }
        j = j + 1;
    }
    true
}

/// A copy of `ts[start..end]`.
fn copy_run(ts: &Vec<u64>, start: usize, end: usize) -> (r: Vec<u64>)
    requires
        start <= end <= ts@.len(),
    ensures
        r@ == ts@.subrange(start as int, end as int),
{
    let mut r: Vec<u64> = Vec::new();
    let mut j: usize = start;
    while j < end
        invariant
            start <= j <= end <= ts@.len(),
            r@ == ts@.subrange(start as int, j as int),
        decreases end - j,
    {
        r.push(ts[j]);
        assert(r@ =~= ts@.subrange(start as int, j + 1));
        j = j + 1;
    }
    r
}

/// Checks that the parallel arrays agree in length.
fn dictionary_lengths_match(
    geohash_data_vec: &Vec<u8>,
    unixepoch_data_vec: &Vec<u64>,
    size_list_vec: &Vec<usize>,
) -> (r: bool)
    ensures
        r == dictionary_lengths_ok(geohash_data_vec@, unixepoch_data_vec@, size_list_vec@),
{
    let n = size_list_vec.len();
    if geohash_data_vec.len() % GEOHASH_U8_SIZE != 0 || geohash_data_vec.len() / GEOHASH_U8_SIZE
        != n {
        return false;
    }
    let total = unixepoch_data_vec.len();
    let mut cursor: usize = 0;
    let mut i: usize = 0;
    while i < n
        invariant
            n == size_list_vec@.len(),
            total == unixepoch_data_vec@.len(),
            i <= n,
            cursor == run_offset(size_list_vec@, i as int),
            cursor <= total,
        decreases n - i,
    {
        if size_list_vec[i] > total - cursor {
            proof {
                lemma_run_offset_monotone(size_list_vec@, i + 1, n as int);
            }
            return false;
        }
        cursor = cursor + size_list_vec[i];
        i = i + 1;
    }
    cursor == total
}

/// A query timestamp and a dictionary timestamp give one recorded pair
/// exactly when they are less than `CONTACT_TIME_THREASHOLD` seconds apart.
pub proof fn lemma_contact_window(k: Seq<u8>, a: u64, b: u64)
    ensures
        contact_records(k, seq![a], seq![b]).len() == if (if a >= b {
            a - b
        } else {
            b - a
        }) < CONTACT_TIME_THREASHOLD {
            1int
        } else {
            0int
        },
{
    let qs = seq![a];
    let ds = seq![b];
    assert(qs.drop_last() =~= Seq::<u64>::empty());
    assert(ds.drop_last() =~= Seq::<u64>::empty());
    assert(qs.last() == a);
    assert(ds.last() == b);
    assert(window_count(a, Seq::<u64>::empty()) == 0);
    assert(window_count(a, ds) == if in_contact(b, a) {
        1nat
    } else {
        0nat
    });
    assert(contact_records(k, Seq::<u64>::empty(), ds).len() == 0);
    assert(contact_records(k, qs, ds).len() == window_count(a, ds));
}

/// The dictionary timestamps that a query timestamp `q` is in contact with.
pub open spec fn contact_with(q: u64) -> spec_fn(u64) -> bool {
    |d: u64| in_contact(d, q)
}

/// The recorded pairs equal to `(k, q)`.
pub open spec fn pair_is(k: Seq<u8>, q: u64) -> spec_fn((Seq<u8>, u64)) -> bool {
    |p: (Seq<u8>, u64)| p == (k, q)
}

proof fn lemma_window_count_filter(q: u64, ds: Seq<u64>)
    ensures
        window_count(q, ds) == ds.filter(contact_with(q)).len(),
    decreases ds.len(),
{
    reveal_with_fuel(Seq::filter, 1);
    if ds.len() > 0 {
        lemma_window_count_filter(q, ds.drop_last());
    }
}

proof fn lemma_repeated_filter(k: Seq<u8>, q: u64, n: nat, k2: Seq<u8>, q2: u64)
    ensures
        repeated(k, q, n).filter(pair_is(k2, q2)).len() == if k == k2 && q == q2 {
            n
        } else {
            0
        },
    decreases n,
{
    reveal_with_fuel(Seq::filter, 1);
    if n > 0 {
        assert(repeated(k, q, n).drop_last() =~= repeated(k, q, (n - 1) as nat));
        lemma_repeated_filter(k, q, (n - 1) as nat, k2, q2);
    }
}

/// For ascending query timestamps, the pair `(k, q)` is recorded once per
/// dictionary timestamp less than `CONTACT_TIME_THREASHOLD` seconds from
/// `q` when `q` is a query timestamp, and never otherwise.
pub proof fn lemma_contact_count(k: Seq<u8>, qs: Seq<u64>, ds: Seq<u64>, q: u64)
    requires
        strictly_sorted(qs),
    ensures
        contact_records(k, qs, ds).filter(pair_is(k, q)).len() == if qs.contains(q) {
            ds.filter(contact_with(q)).len()
        } else {
            0
        },
    decreases qs.len(),
{
    reveal_with_fuel(Seq::filter, 1);
    if qs.len() == 0 {
    } else {
        let p = qs.drop_last();
        let last = qs.last();
        assert(strictly_sorted(p)) by {
            assert forall|i: int, j: int| 0 <= i < j < p.len() implies p[i] < p[j] by {
                assert(p[i] == qs[i] && p[j] == qs[j]);
            }
        }
        lemma_contact_count(k, p, ds, q);
        let n = window_count(last, ds);
        Seq::filter_distributes_over_add(contact_records(k, p, ds), repeated(k, last, n), pair_is(k, q));
        lemma_repeated_filter(k, last, n, k, q);
        lemma_window_count_filter(q, ds);
        if q == last {
            assert(!p.contains(q)) by {
                if p.contains(q) {
                    let w = choose|w: int| 0 <= w < p.len() && p[w] == q;
                    assert(qs[w] < qs[qs.len() - 1]);
                }
            }
            assert(qs.contains(q)) by {
                assert(qs[qs.len() - 1] == q);
            }
        } else {
            assert(qs.contains(q) <==> p.contains(q)) by {
                if qs.contains(q) {
                    let w = choose|w: int| 0 <= w < qs.len() && qs[w] == q;
                    assert(p[w] == q);
                }
                if p.contains(q) {
                    let w = choose|w: int| 0 <= w < p.len() && p[w] == q;
                    assert(qs[w] == q);
                }
            }
        }
    }
}

/// Records of distinct tokens, inserted into an empty table, stand as given.
pub proof fn lemma_insert_all_distinct(records: Entries)
    requires
        keys_distinct(records),
    ensures
        insert_all(Seq::empty(), records) == records,
    decreases records.len(),
{
    if records.len() > 0 {
        let p = records.drop_last();
        assert(keys_distinct(p));
        lemma_insert_all_distinct(p);
        let last = records.last();
        assert(!crate::table::has_key(p, last.0)) by {
            if crate::table::has_key(p, last.0) {
                let w = choose|w: int| 0 <= w < p.len() && p[w].0 == last.0;
                assert(records[w].0 == records[records.len() - 1].0);
            }
        }
        assert(p.push(last) =~= records);
    }
}

/// Matching a concatenation records the pairs of each part in turn.
pub proof fn lemma_matches_concat(a: Entries, b: Entries, query: Map<Seq<u8>, Seq<u64>>)
    ensures
        dictionary_matches(a + b, query) == dictionary_matches(a, query) + dictionary_matches(b, query),
    decreases b.len(),
{
    if b.len() == 0 {
        assert(a + b =~= a);
        assert(dictionary_matches(a, query) + dictionary_matches(b, query) =~= dictionary_matches(a, query));
    } else {
        assert((a + b).drop_last() =~= a + b.drop_last());
        assert((a + b).last() == b.last());
        lemma_matches_concat(a, b.drop_last(), query);
        assert(dictionary_matches(a + b, query) =~= dictionary_matches(a, query) + dictionary_matches(b, query));
    }
}

/// The pairs recorded when each chunk in turn is loaded into an empty
/// dictionary and matched.
pub open spec fn chunked_matches(query: Map<Seq<u8>, Seq<u64>>, chunks: Seq<Entries>) -> Seq<
    (Seq<u8>, u64),
>
    decreases chunks.len(),
{
    if chunks.len() == 0 {
        seq![]
    } else {
        chunked_matches(query, chunks.drop_last()) + dictionary_matches(
            insert_all(Seq::empty(), chunks.last()),
            query,
        )
    }
}

/// Splitting a dataset of distinct tokens into consecutive chunks, of any
/// number and size, records the same pairs in the same order as loading
/// and matching it whole.
pub proof fn lemma_chunking_invariant(query: Map<Seq<u8>, Seq<u64>>, chunks: Seq<Entries>)
    requires
        keys_distinct(chunks.flatten()),
    ensures
        chunked_matches(query, chunks) == dictionary_matches(
            insert_all(Seq::empty(), chunks.flatten()),
            query,
        ),
    decreases chunks.len(),
{
    lemma_insert_all_distinct(chunks.flatten());
    if chunks.len() > 0 {
        let p = chunks.drop_last();
        let c = chunks.last();
        assert(p.push(c) =~= chunks);
        p.lemma_flatten_push(c);
        let f = p.flatten();
        assert(chunks.flatten() == f + c);
        assert(keys_distinct(f)) by {
            assert forall|i: int, j: int| 0 <= i < j < f.len() implies f[i].0 != f[j].0 by {
                assert((f + c)[i] == f[i] && (f + c)[j] == f[j]);
            }
        }
        assert(keys_distinct(c)) by {
            assert forall|i: int, j: int| 0 <= i < j < c.len() implies c[i].0 != c[j].0 by {
                assert((f + c)[f.len() + i] == c[i] && (f + c)[f.len() + j] == c[j]);
            }
        }
        lemma_chunking_invariant(query, p);
        lemma_insert_all_distinct(f);
        lemma_insert_all_distinct(c);
        lemma_matches_concat(f, c, query);
    } else {
        assert(chunks.flatten() =~= Seq::<(Seq<u8>, Seq<u64>)>::empty());
    }
}

/// Whatever the chunking of a dataset of distinct tokens, every client
/// gets the same response, so the same clients are positive.
pub proof fn lemma_chunked_response(
    queries: Seq<QueryRep>,
    query: Map<Seq<u8>, Seq<u64>>,
    chunks: Seq<Entries>,
)
    requires
        keys_distinct(chunks.flatten()),
    ensures
        response_bytes(queries, chunked_matches(query, chunks)) == response_bytes(
            queries,
            dictionary_matches(insert_all(Seq::empty(), chunks.flatten()), query),
        ),
        positive_ids(response_bytes(queries, chunked_matches(query, chunks)), queries.len() as int)
            == positive_ids(
            response_bytes(
                queries,
                dictionary_matches(insert_all(Seq::empty(), chunks.flatten()), query),
            ),
            queries.len() as int,
        ),
{
    lemma_chunking_invariant(query, chunks);
}

/// A dictionary: timestamps per token, with distinct tokens and strictly
/// ascending lists.
pub struct Base {
    pub map: TokenTable,
}

impl View for Base {
    type V = Entries;

    open spec fn view(&self) -> Entries {
        self.map@
    }
}

impl Base {
    pub open spec fn wf(&self) -> bool {
        self.map.wf()
    }

    /// An empty dictionary.
    pub fn new() -> (r: Self)
        ensures
            r.wf(),
            r@ == Seq::<(Seq<u8>, Seq<u64>)>::empty(),
    {
        Base { map: TokenTable::new() }
    }

    /// Records every contact between the dictionary and the aggregated query.
    pub fn intersect(&self, mapped_query_buffer: &MappedQueryBuffer, result: &mut ResultBuffer)
        requires
            self.wf(),
            mapped_query_buffer.wf(),
        ensures
            final(result)@ == old(result)@ + dictionary_matches(self@, mapped_query_buffer@),
    {
        let ghost d = self@;
        let ghost q = mapped_query_buffer@;
        let mut i: usize = 0;
        while i < self.map.entries.len()
            invariant
                self.wf(),
                mapped_query_buffer.wf(),
                d == self@,
                q == mapped_query_buffer@,
                i <= d.len(),
                result@ == old(result)@ + dictionary_matches(d.take(i as int), q),
            decreases d.len() - i,
        {
            let ghost before = result@;
            assert(d.take(i + 1).drop_last() =~= d.take(i as int));
            assert(strictly_sorted(d[i as int].1));
            match mapped_query_buffer.map.find(&self.map.entries[i].0) {
                Some(idx) => {
                    proof {
                        lemma_entries_map_at(mapped_query_buffer.map@, idx as int);
                    }
                    assert(strictly_sorted(mapped_query_buffer.map@[idx as int].1));
                    self.judge_contact(
                        &mapped_query_buffer.map.entries[idx].1,
                        &self.map.entries[i].1,
                        &self.map.entries[i].0,
                        result,
                    );
                    assert(result@ =~= old(result)@ + dictionary_matches(d.take(i + 1), q));
                },
                None => {
                    assert(result@ =~= old(result)@ + dictionary_matches(d.take(i + 1), q));
                },
            }
            i = i + 1;
        }
        assert(d.take(i as int) =~= d);
    }

    /// Records, for each query timestamp in order, one pair per dictionary
    /// timestamp within the contact window.  Both lists are ascending, so
    /// the window of each query timestamp starts no earlier than that of
    /// the one before it.
    pub fn judge_contact(
        &self,
        query_unixepoch_vec: &Vec<UnixEpoch>,
        dict_unixepoch_vec: &Vec<UnixEpoch>,
        geohash: &GeoHashKey,
        result: &mut ResultBuffer,
    )
        requires
            strictly_sorted(query_unixepoch_vec@),
            strictly_sorted(dict_unixepoch_vec@),
        ensures
            final(result)@ == old(result)@ + contact_records(
                geohash@,
                query_unixepoch_vec@,
                dict_unixepoch_vec@,
            ),
    {
        let ghost qs = query_unixepoch_vec@;
        let ghost ds = dict_unixepoch_vec@;
        let ghost k = geohash@;
        let qlen = query_unixepoch_vec.len();
        let dlen = dict_unixepoch_vec.len();
        let mut lo: usize = 0;
        let mut i: usize = 0;
        while i < qlen
            invariant
                qs == query_unixepoch_vec@,
                ds == dict_unixepoch_vec@,
                k == geohash@,
                qlen == qs.len(),
                dlen == ds.len(),
                strictly_sorted(qs),
                strictly_sorted(ds),
                i <= qlen,
                lo <= dlen,
                i == 0 ==> lo == 0,
                i > 0 ==> forall|m: int| 0 <= m < lo ==> ds[m] + CONTACT_TIME_THREASHOLD <= qs[i - 1],
                result@ == old(result)@ + contact_records(k, qs.take(i as int), ds),
            decreases qlen - i,
        {
            let q = query_unixepoch_vec[i];
            assert forall|m: int| 0 <= m < lo implies ds[m] + CONTACT_TIME_THREASHOLD <= q by {
                assert(qs[i - 1] < qs[i as int]);
            }
            lo = record_window(dict_unixepoch_vec, geohash, q, lo, result);
            assert(qs.take(i + 1).drop_last() =~= qs.take(i as int));
            assert(result@ =~= old(result)@ + contact_records(k, qs.take(i + 1), ds));
            i = i + 1;
        }
        assert(qs.take(i as int) =~= qs);
    }

    /// Ingests one chunk given as parallel arrays: `size_list_vec[i]`
    /// timestamps of `unixepoch_data_vec` belong to the `i`-th token of
    /// `geohash_data_vec`.  Each record is inserted in order, replacing an
    /// earlier list of the same token.  Mismatched lengths or a run that is
    /// not strictly ascending reject the chunk and leave the dictionary as
    /// it was.
    pub fn build_dictionary_buffer(
        &mut self,
        geohash_data_vec: &Vec<u8>,
        unixepoch_data_vec: &Vec<u64>,
        size_list_vec: &Vec<usize>,
    ) -> (r: Result<(), IngestError>)
        requires
            old(self).wf(),
        ensures
            final(self).wf(),
            r == Err::<(), IngestError>(IngestError::LengthMismatch) <==> !dictionary_lengths_ok(
                geohash_data_vec@,
                unixepoch_data_vec@,
                size_list_vec@,
            ),
            r == Err::<(), IngestError>(IngestError::UnsortedRun) <==> dictionary_lengths_ok(
                geohash_data_vec@,
                unixepoch_data_vec@,
                size_list_vec@,
            ) && !runs_sorted(decoded_dictionary(geohash_data_vec@, unixepoch_data_vec@, size_list_vec@)),
            r is Ok ==> final(self)@ == insert_all(
                old(self)@,
                decoded_dictionary(geohash_data_vec@, unixepoch_data_vec@, size_list_vec@),
            ),
            r is Ok <==> dictionary_lengths_ok(geohash_data_vec@, unixepoch_data_vec@, size_list_vec@)
                && runs_sorted(decoded_dictionary(geohash_data_vec@, unixepoch_data_vec@, size_list_vec@)),
            r is Err ==> final(self)@ == old(self)@,
    {
        let ghost g = geohash_data_vec@;
        let ghost ts = unixepoch_data_vec@;
        let ghost sizes = size_list_vec@;
        let ghost recs = decoded_dictionary(g, ts, sizes);
        if !dictionary_lengths_match(geohash_data_vec, unixepoch_data_vec, size_list_vec) {
            return Err(IngestError::LengthMismatch);
        }
        let n = size_list_vec.len();
        let tlen = unixepoch_data_vec.len();
        let glen = geohash_data_vec.len();
        let mut cursor: usize = 0;
        let mut i: usize = 0;
        while i < n
            invariant
                self@ == old(self)@,
                self.wf(),
                tlen == ts.len(),
                n == sizes.len(),
                g == geohash_data_vec@,
                ts == unixepoch_data_vec@,
                sizes == size_list_vec@,
                recs == decoded_dictionary(g, ts, sizes),
                dictionary_lengths_ok(g, ts, sizes),
                i <= n,
                cursor == run_offset(sizes, i as int),
                forall|m: int| 0 <= m < i ==> strictly_sorted(#[trigger] recs[m].1),
            decreases n - i,
        {
            proof {
                lemma_run_offset_monotone(sizes, i + 1, n as int);
            }
            let end = cursor + size_list_vec[i];
            if !run_is_sorted(unixepoch_data_vec, cursor, end) {
                assert(recs[i as int].1 == ts.subrange(cursor as int, end as int));
                return Err(IngestError::UnsortedRun);
            }
            cursor = end;
            i = i + 1;
        }
        assert(runs_sorted(recs));
        let mut cursor: usize = 0;
        let mut i: usize = 0;
        while i < n
            invariant
                tlen == ts.len(),
                glen == g.len(),
                n == sizes.len(),
                g == geohash_data_vec@,
                ts == unixepoch_data_vec@,
                sizes == size_list_vec@,
                recs == decoded_dictionary(g, ts, sizes),
                dictionary_lengths_ok(g, ts, sizes),
                runs_sorted(recs),
                i <= n,
                cursor == run_offset(sizes, i as int),
                self.wf(),
                self@ == insert_all(old(self)@, recs.take(i as int)),
            decreases n - i,
        {
            proof {
                lemma_run_offset_monotone(sizes, i + 1, n as int);
            }
            let end = cursor + size_list_vec[i];
            assert(10 * i + 10 <= g.len()) by (nonlinear_arith)
                requires
                    g.len() == 10 * n,
                    i < n,
            ;
            let geohash = crate::primitives::read_token(geohash_data_vec, GEOHASH_U8_SIZE * i);
            let unixepoch = copy_run(unixepoch_data_vec, cursor, end);
            assert(recs[i as int].1 == unixepoch@);
            assert(recs[i as int].0 == geohash@);
            assert(recs.take(i + 1).drop_last() =~= recs.take(i as int));
            self.map.insert(geohash, unixepoch);
            cursor = end;
            i = i + 1;
        }
        assert(recs.take(n as int) =~= recs);
        Ok(())
    }
}

} // verus!

verus! {

/// A table of periods per token.
pub struct GeohashTable {
    structure: Vec<(GeoHashKey, Vec<Period>)>,
}

impl GeohashTable {
    /// The number of tokens held.
    pub closed spec fn spec_len(&self) -> nat {
        self.structure@.len()
    }

    /// An empty table.
    pub fn new() -> (r: Self)
        ensures
            r.spec_len() == 0,
    {
        GeohashTable { structure: Vec::new() }
    }
}

/// The dictionary state of one chunk.  Ingestion checks that every run is
/// strictly ascending and rejects the chunk otherwise.
pub struct DictionaryBuffer {
    pub data: Base,
}

impl View for DictionaryBuffer {
    type V = Entries;

    open spec fn view(&self) -> Entries {
        self.data@
    }
}

impl DictionaryBuffer {
    pub open spec fn wf(&self) -> bool {
        self.data.wf()
    }

    /// An empty dictionary.
    pub fn new() -> (r: Self)
        ensures
            r.wf(),
            r@ == Seq::<(Seq<u8>, Seq<u64>)>::empty(),
    {
        DictionaryBuffer { data: Base::new() }
    }

    /// Records every contact between this dictionary and the aggregated query.
    pub fn intersect(&self, mapped_query_buffer: &MappedQueryBuffer, result: &mut ResultBuffer)
        requires
            self.wf(),
            mapped_query_buffer.wf(),
        ensures
            final(result)@ == old(result)@ + dictionary_matches(self@, mapped_query_buffer@),
    {
        self.data.intersect(mapped_query_buffer, result);
    }

    /// Ingests one chunk; see `Base::build_dictionary_buffer`.
    pub fn build_dictionary_buffer(
        &mut self,
        geohash_data_vec: &Vec<u8>,
        unixepoch_data_vec: &Vec<u64>,
        size_list_vec: &Vec<usize>,
    ) -> (r: Result<(), IngestError>)
        requires
            old(self).wf(),
        ensures
            final(self).wf(),
            r == Err::<(), IngestError>(IngestError::LengthMismatch) <==> !dictionary_lengths_ok(
                geohash_data_vec@,
                unixepoch_data_vec@,
                size_list_vec@,
            ),
            r == Err::<(), IngestError>(IngestError::UnsortedRun) <==> dictionary_lengths_ok(
                geohash_data_vec@,
                unixepoch_data_vec@,
                size_list_vec@,
            ) && !runs_sorted(decoded_dictionary(geohash_data_vec@, unixepoch_data_vec@, size_list_vec@)),
            r is Ok ==> final(self)@ == insert_all(
                old(self)@,
                decoded_dictionary(geohash_data_vec@, unixepoch_data_vec@, size_list_vec@),
            ),
            r is Ok <==> dictionary_lengths_ok(geohash_data_vec@, unixepoch_data_vec@, size_list_vec@)
                && runs_sorted(decoded_dictionary(geohash_data_vec@, unixepoch_data_vec@, size_list_vec@)),
            r is Err ==> final(self)@ == old(self)@,
    {
        self.data.build_dictionary_buffer(geohash_data_vec, unixepoch_data_vec, size_list_vec)
    }
}

} // verus!
