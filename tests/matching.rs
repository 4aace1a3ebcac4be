use contact_match::boundary::{chunk_bounds, serialize_chunk, BoundaryError, LocalBoundary};
use contact_match::dictionary::{Base, DictionaryBuffer, GeohashTable, IngestError};
use contact_match::encoded::{
    encode_token, EncodedHashTable, EncodedResultBuffer, MappedEncodedQueryBuffer,
};
use contact_match::primitives::{tokens_equal, unixepoch_from_u8, Period};
use contact_match::query::{MappedQueryBuffer, QueryBuffer, QueryRep};
use contact_match::response::{
    ctr_apply, derive_client_key, positive_query_ids, query_id_from_u8, risk_level_of,
    QueryResult, ResultBuffer,
};
use contact_match::sorted::{_sorted_merge, _sorted_push, sorted_contains};

fn token(name: &str) -> [u8; 10] {
    let mut t = [b'_'; 10];
    t[..name.len()].copy_from_slice(name.as_bytes());
    t
}

fn field(ts: u64) -> [u8; 10] {
    let mut f = [0u8; 10];
    f.copy_from_slice(format!("{:010}", ts).as_bytes());
    f
}

/// Query records for each client: (token, timestamp) pairs.
fn query_bytes(clients: &[Vec<(&str, u64)>]) -> (Vec<u8>, Vec<usize>) {
    let mut data = Vec::new();
    let mut sizes = Vec::new();
    for records in clients {
        for (name, ts) in records {
            data.extend_from_slice(&field(*ts));
            data.extend_from_slice(&token(name));
        }
        sizes.push(records.len());
    }
    (data, sizes)
}

fn dictionary_arrays(records: &[(&str, Vec<u64>)]) -> (Vec<u8>, Vec<u64>, Vec<usize>) {
    let mut g = Vec::new();
    let mut ts = Vec::new();
    let mut sizes = Vec::new();
    for (name, run) in records {
        g.extend_from_slice(&token(name));
        ts.extend_from_slice(run);
        sizes.push(run.len());
    }
    (g, ts, sizes)
}

fn run_job(
    clients: &[Vec<(&str, u64)>],
    ids: &[u64],
    chunks: &[Vec<(&str, Vec<u64>)>],
) -> Vec<u8> {
    let mut boundary = LocalBoundary::initialize();
    let (data, sizes) = query_bytes(clients);
    boundary.upload_queries(&data, &sizes, &ids.to_vec()).unwrap();
    for chunk in chunks {
        let (g, ts, sizes) = dictionary_arrays(chunk);
        boundary.submit_dictionary_chunk(&g, &ts, &sizes).unwrap();
    }
    boundary.fetch_response(ids.len() * 9).unwrap()
}

fn contacts(query_ts: u64, dict_ts: u64) -> usize {
    let mut queries = QueryBuffer::new();
    let (data, sizes) = query_bytes(&[vec![("A", query_ts)]]);
    queries.build_query_buffer(&data, &sizes, &vec![1]).unwrap();
    let mut mapped = MappedQueryBuffer::new();
    mapped.from_query_buffer(&queries);
    let mut dict = DictionaryBuffer::new();
    let (g, ts, sizes) = dictionary_arrays(&[("A", vec![dict_ts])]);
    dict.build_dictionary_buffer(&g, &ts, &sizes).unwrap();
    let mut result = ResultBuffer::new();
    dict.intersect(&mapped, &mut result);
    result.data.len()
}

#[test]
fn sorted_push_keeps_ascending_unique() {
    let mut list = Vec::new();
    for x in [50u64, 10, 30, 10, 70, 0, 30, 60] {
        _sorted_push(&mut list, x);
        assert!(list.windows(2).all(|w| w[0] < w[1]));
    }
    assert_eq!(list, vec![0, 10, 30, 50, 60, 70]);
}

#[test]
fn sorted_merge_is_union() {
    assert_eq!(_sorted_merge(&vec![1, 3, 5], &vec![2, 3, 6]), vec![1, 2, 3, 5, 6]);
    assert_eq!(_sorted_merge(&vec![], &vec![4, 9]), vec![4, 9]);
    assert_eq!(_sorted_merge(&vec![4, 9], &vec![]), vec![4, 9]);
    assert_eq!(_sorted_merge(&vec![], &vec![]), Vec::<u64>::new());
    assert_eq!(_sorted_merge(&vec![0, 7], &vec![0]), vec![0, 7]);
}

#[test]
fn sorted_contains_finds_members() {
    let list = vec![3, 8, 20, 41];
    assert!(sorted_contains(&list, 20));
    assert!(!sorted_contains(&list, 21));
    assert!(!sorted_contains(&vec![], 1));
}

#[test]
fn window_boundaries() {
    assert_eq!(contacts(1000, 1599), 1);
    assert_eq!(contacts(1000, 1600), 0);
    assert_eq!(contacts(1000, 1601), 0);
    assert_eq!(contacts(1599, 1000), 1);
    assert_eq!(contacts(1600, 1000), 0);
    assert_eq!(contacts(1601, 1000), 0);
    assert_eq!(contacts(1000, 1000), 1);
}

#[test]
fn window_after_dictionary_end() {
    // a query timestamp just past a match-less tail still matches
    let mut queries = QueryBuffer::new();
    let (data, sizes) = query_bytes(&[vec![("A", 1000), ("A", 1001)]]);
    queries.build_query_buffer(&data, &sizes, &vec![1]).unwrap();
    let mut mapped = MappedQueryBuffer::new();
    mapped.from_query_buffer(&queries);
    let mut dict = Base::new();
    let (g, ts, sizes) = dictionary_arrays(&[("A", vec![1600])]);
    dict.build_dictionary_buffer(&g, &ts, &sizes).unwrap();
    let mut result = ResultBuffer::new();
    dict.intersect(&mapped, &mut result);
    assert_eq!(result.data, vec![(token("A"), 1001)]);
}

#[test]
fn risk_boundaries() {
    assert_eq!(risk_level_of(0), 0);
    assert_eq!(risk_level_of(1), 1);
    assert_eq!(risk_level_of(5), 1);
    assert_eq!(risk_level_of(6), 2);
    assert_eq!(risk_level_of(20), 2);
    assert_eq!(risk_level_of(21), 3);
}

#[test]
fn ctr_round_trip() {
    let key = derive_client_key(42);
    assert_eq!(key, [0, 0, 0, 0, 0, 0, 0, 42, 0, 0, 0, 0, 0, 0, 0, 0]);
    let key = derive_client_key(0x0102030405060708);
    assert_eq!(&key[..8], &[1, 2, 3, 4, 5, 6, 7, 8]);
    assert_eq!(&key[8..], &[0u8; 8]);
    for risk in 0u8..4 {
        for keystream in [0u8, 0x5a, 0xff] {
            let c = ctr_apply(risk, keystream);
            assert_eq!(ctr_apply(c, keystream), risk);
        }
    }
    assert_eq!(ctr_apply(3, 0x5a), 0x59);
}

#[test]
fn chunk_count_invariance() {
    let clients = vec![
        vec![("A", 1000), ("B", 5000)],
        vec![("C", 9000)],
        vec![("A", 20000), ("D", 100)],
        vec![("E", 7)],
    ];
    let ids = [11u64, 22, 33, 44];
    let dataset: Vec<(&str, Vec<u64>)> = vec![
        ("A", vec![900, 1200, 19800]),
        ("B", vec![5599]),
        ("C", vec![1, 2]),
        ("D", vec![50, 650, 699]),
        ("F", vec![1000]),
    ];
    let whole = run_job(&clients, &ids, &[dataset.clone()]);
    let two = run_job(&clients, &ids, &[dataset[..2].to_vec(), dataset[2..].to_vec()]);
    let singles: Vec<Vec<(&str, Vec<u64>)>> = dataset.iter().map(|r| vec![r.clone()]).collect();
    let many = run_job(&clients, &ids, &singles);
    assert_eq!(whole, two);
    assert_eq!(whole, many);
    let positives = positive_query_ids(&whole, ids.len());
    assert_eq!(positives, vec![11, 33]);
    assert_eq!(positive_query_ids(&many, ids.len()), positives);
}

#[test]
fn end_to_end_example() {
    let clients = vec![vec![("T1", 1550)], vec![("T2", 1550)]];
    let response = run_job(&clients, &[42, 7], &[vec![("T1", vec![1000, 1700])]]);
    assert_eq!(
        response,
        vec![0, 0, 0, 0, 0, 0, 0, 42, 1, 0, 0, 0, 0, 0, 0, 0, 7, 0]
    );
    assert_eq!(positive_query_ids(&response, 2), vec![42]);
}

#[test]
fn risk_levels_in_response() {
    let many: Vec<(&str, u64)> = (0..21).map(|i| ("A", 10_000 + i * 1000)).collect();
    let six: Vec<(&str, u64)> = (0..6).map(|i| ("A", 10_000 + i * 1000)).collect();
    let clients = vec![many, six, vec![]];
    let dict_run: Vec<u64> = (0..21).map(|i| 10_000 + i * 1000).collect();
    let response = run_job(&clients, &[1, 2, 3], &[vec![("A", dict_run)]]);
    assert_eq!(response[8], 3);
    assert_eq!(response[17], 2);
    assert_eq!(response[26], 0);
}

#[test]
fn timestamp_field_decoding() {
    assert_eq!(unixepoch_from_u8(*b"1600000000"), Some(1600000000));
    assert_eq!(unixepoch_from_u8(*b"0000000042"), Some(42));
    assert_eq!(unixepoch_from_u8(*b"+000000042"), Some(42));
    assert_eq!(unixepoch_from_u8(*b"9999999999"), Some(9999999999));
    assert_eq!(unixepoch_from_u8(*b"12345678x0"), None);
    assert_eq!(unixepoch_from_u8(*b" 123456789"), None);
    assert_eq!(unixepoch_from_u8(*b"-000000042"), None);
}

#[test]
fn periods_from_timestamps() {
    let p = Period::from_unixepoch_vector(&vec![100, 500, 1100, 1701, 1800]);
    assert_eq!(p, vec![Period(100, 1100), Period(1701, 1800)]);
    let p = Period::from_unixepoch_vector(&vec![7]);
    assert_eq!(p, vec![Period(7, 7)]);
    assert_eq!(Period::new(), Period(0, 0));
    assert_eq!(Period::with_start(9), Period(9, 9));
}

#[test]
fn query_decoding_groups_by_token() {
    let mut queries = QueryBuffer::new();
    let (data, sizes) = query_bytes(&[
        vec![("A", 30), ("B", 5), ("A", 10), ("A", 30)],
        vec![("B", 8)],
    ]);
    queries.build_query_buffer(&data, &sizes, &vec![5, 6]).unwrap();
    assert_eq!(queries.queries.len(), 2);
    let first: &QueryRep = &queries.queries[0];
    assert_eq!(first.id, 5);
    let a = first.parameters.find(&token("A")).unwrap();
    assert_eq!(first.parameters.entries[a].1, vec![10, 30]);
    let mut mapped = MappedQueryBuffer::new();
    mapped.from_query_buffer(&queries);
    let b = mapped.map.find(&token("B")).unwrap();
    assert_eq!(mapped.map.entries[b].1, vec![5, 8]);
    assert_eq!(mapped.map.len(), 2);
}

#[test]
fn query_decoding_errors() {
    let mut queries = QueryBuffer::new();
    let (data, sizes) = query_bytes(&[vec![("A", 30)]]);
    assert_eq!(
        queries.build_query_buffer(&data, &sizes, &vec![]),
        Err(IngestError::LengthMismatch)
    );
    assert_eq!(
        queries.build_query_buffer(&data[..19].to_vec(), &sizes, &vec![1]),
        Err(IngestError::LengthMismatch)
    );
    let mut bad = data.clone();
    bad[3] = b'x';
    assert_eq!(
        queries.build_query_buffer(&bad, &sizes, &vec![1]),
        Err(IngestError::BadTimestamp)
    );
    assert_eq!(queries.queries.len(), 0);
}

#[test]
fn dictionary_errors_and_overwrite() {
    let mut dict = DictionaryBuffer::new();
    let (g, ts, sizes) = dictionary_arrays(&[("A", vec![1, 2]), ("B", vec![3])]);
    assert_eq!(
        dict.build_dictionary_buffer(&g, &ts[..2].to_vec(), &sizes),
        Err(IngestError::LengthMismatch)
    );
    assert_eq!(
        dict.build_dictionary_buffer(&g[..15].to_vec(), &ts, &sizes),
        Err(IngestError::LengthMismatch)
    );
    let (g2, ts2, sizes2) = dictionary_arrays(&[("A", vec![2, 2])]);
    assert_eq!(
        dict.build_dictionary_buffer(&g2, &ts2, &sizes2),
        Err(IngestError::UnsortedRun)
    );
    assert_eq!(dict.data.map.len(), 0);
    dict.build_dictionary_buffer(&g, &ts, &sizes).unwrap();
    let (g3, ts3, sizes3) = dictionary_arrays(&[("A", vec![9])]);
    dict.build_dictionary_buffer(&g3, &ts3, &sizes3).unwrap();
    assert_eq!(dict.data.map.len(), 2);
    let a = dict.data.map.find(&token("A")).unwrap();
    assert_eq!(dict.data.map.entries[a].1, vec![9]);
}

#[test]
fn boundary_errors() {
    let mut boundary = LocalBoundary::initialize();
    let (data, sizes) = query_bytes(&[vec![("A", 30)]]);
    assert_eq!(
        boundary.upload_queries(&data, &sizes, &vec![1, 2]),
        Err(BoundaryError::Ingest(IngestError::LengthMismatch))
    );
    boundary.upload_queries(&data, &sizes, &vec![1]).unwrap();
    let (g, ts, sizes) = dictionary_arrays(&[("A", vec![5, 4])]);
    assert_eq!(
        boundary.submit_dictionary_chunk(&g, &ts, &sizes),
        Err(BoundaryError::Ingest(IngestError::UnsortedRun))
    );
    assert_eq!(boundary.fetch_response(10), Err(BoundaryError::BufferSize));
    assert_eq!(boundary.fetch_response(9), Ok(vec![0, 0, 0, 0, 0, 0, 0, 1, 0]));
}

#[test]
fn record_layout() {
    let mut r = QueryResult::new();
    assert_eq!(r.query_id, 1);
    assert_eq!(r.risk_level, 0);
    r.query_id = 0x0102030405060708;
    r.risk_level = 2;
    assert_eq!(r.to_be_bytes(), [1, 2, 3, 4, 5, 6, 7, 8, 2]);
    assert_eq!(query_id_from_u8(&vec![9, 1, 2, 3, 4, 5, 6, 7, 8], 1), 0x0102030405060708);
    assert_eq!(
        positive_query_ids(&vec![0, 0, 0, 0, 0, 0, 0, 5, 0, 0, 0, 0, 0, 0, 0, 1, 0, 3], 2),
        vec![256]
    );
}

#[test]
fn exact_membership_matching() {
    let mut table = EncodedHashTable::new();
    let mut flat = Vec::new();
    flat.extend_from_slice(&token("A"));
    flat.extend_from_slice(&token("B"));
    table.build_dictionary_buffer(&flat, 2);
    let query = MappedEncodedQueryBuffer { map: vec![token("B"), token("C"), token("A")] };
    let mut result = EncodedResultBuffer { data: vec![] };
    table.intersect(&query, &mut result);
    assert_eq!(result.data, vec![token("B"), token("A")]);
    assert_eq!(encode_token(&[0, 0, 0, 0, 0, 0, 0, 0, 1, 2]), 258);
}

#[test]
fn token_helpers_and_tables() {
    assert!(tokens_equal(&token("A"), &token("A")));
    assert!(!tokens_equal(&token("A"), &token("B")));
    let _ = GeohashTable::new();
    assert_eq!(QueryRep::new().id, 0);
}

#[test]
fn chunk_bounds_partition() {
    assert_eq!(chunk_bounds(7, 3), vec![(0, 3), (3, 6), (6, 7)]);
    assert_eq!(chunk_bounds(6, 3), vec![(0, 3), (3, 6)]);
    assert_eq!(chunk_bounds(2, 5), vec![(0, 2)]);
    assert_eq!(chunk_bounds(0, 4), Vec::<(usize, usize)>::new());
}

#[test]
fn serialized_chunks_match_whole_dataset() {
    let central: Vec<([u8; 10], Vec<u64>)> = vec![
        (token("A"), vec![900, 1200, 19800]),
        (token("B"), vec![5599]),
        (token("C"), vec![1, 2]),
        (token("D"), vec![50, 650, 699]),
        (token("F"), vec![1000]),
    ];
    let (g, ts, sizes) = serialize_chunk(&central, 1, 3);
    let mut expected_g = token("B").to_vec();
    expected_g.extend_from_slice(&token("C"));
    assert_eq!(g, expected_g);
    assert_eq!(ts, vec![5599, 1, 2]);
    assert_eq!(sizes, vec![1, 2]);

    let (data, qsizes) = query_bytes(&[
        vec![("A", 1000), ("B", 5000)],
        vec![("C", 9000)],
        vec![("A", 20000), ("D", 100)],
    ]);
    let ids = vec![11u64, 22, 33];
    let mut responses = Vec::new();
    for chunk_size in [5usize, 3, 2, 1] {
        let mut boundary = LocalBoundary::initialize();
        boundary.upload_queries(&data, &qsizes, &ids).unwrap();
        for (start, end) in chunk_bounds(central.len(), chunk_size) {
            let (g, ts, sizes) = serialize_chunk(&central, start, end);
            boundary.submit_dictionary_chunk(&g, &ts, &sizes).unwrap();
        }
        responses.push(boundary.fetch_response(27).unwrap());
    }
    assert!(responses.iter().all(|r| *r == responses[0]));
    assert_eq!(positive_query_ids(&responses[0], 3), vec![11, 33]);
}

#[test]
fn judge_contact_counts_pairs() {
    let dict = Base::new();
    let mut result = ResultBuffer::new();
    dict.judge_contact(&vec![1000, 1700, 5000], &vec![900, 1200, 1500, 2400], &token("K"), &mut result);
    let k = token("K");
    assert_eq!(
        result.data,
        vec![(k, 1000), (k, 1000), (k, 1000), (k, 1700), (k, 1700)]
    );
}
