//! Fixed-width tokens, timestamps, periods and the decimal timestamp field.
use vstd::prelude::*;
use crate::sorted::strictly_sorted;

verus! {

/// Width of the ASCII decimal timestamp field of a query record.
pub const UNIXEPOCH_U8_SIZE: usize = 10;

/// Width of a location token.
pub const GEOHASH_U8_SIZE: usize = 10;

/// Width of one query record: a timestamp field followed by a token.
pub const QUERY_U8_SIZE: usize = UNIXEPOCH_U8_SIZE + GEOHASH_U8_SIZE;

/// Width of a query id in a response record.
pub const QUERY_ID_SIZE_U8: usize = 8;

/// Width of the risk byte in a response record.
pub const QUERY_RESULT_U8: usize = 1;

/// Width of one response record.
pub const RESPONSE_DATA_SIZE_U8: usize = QUERY_ID_SIZE_U8 + QUERY_RESULT_U8;

/// Initial capacity hint for dictionary tables.
pub const THREASHOLD: usize = 100000;

/// Two timestamps closer than this many seconds are a contact.
pub const CONTACT_TIME_THREASHOLD: u64 = 600;

/// Largest gap, in seconds, between consecutive timestamps of one period.
pub const TIME_INTERVAL: u64 = 600;

/// An opaque location token, compared byte for byte.
pub type GeoHashKey = [u8; 10];

/// Seconds since the epoch.
pub type UnixEpoch = u64;

/// A client-chosen query id.
pub type QueryId = u64;

pub open spec fn is_digit(b: u8) -> bool {
    48 <= b <= 57
}

pub open spec fn all_digits(s: Seq<u8>) -> bool {
    forall|i: int| 0 <= i < s.len() ==> is_digit(#[trigger] s[i])
}

/// The decimal number written by the ASCII digits `s`.
pub open spec fn decimal_value(s: Seq<u8>) -> nat
    decreases s.len(),
{
    if s.len() == 0 {
        0
    } else {
        decimal_value(s.drop_last()) * 10 + (s.last() - 48) as nat
    }
}

/// A timestamp field is valid when it is all digits, or a `+` followed by digits.
pub open spec fn valid_timestamp_field(s: Seq<u8>) -> bool {
    s.len() > 0 && (all_digits(s) || (s[0] == 43 && s.len() > 1 && all_digits(s.drop_first())))
}

/// The value of a valid timestamp field.
pub open spec fn timestamp_field_value(s: Seq<u8>) -> nat {
    if s[0] == 43 {
        decimal_value(s.drop_first())
    } else {
        decimal_value(s)
    }
}

pub open spec fn pow10(n: nat) -> nat
    decreases n,
{
    if n == 0 {
        1
    } else {
        10 * pow10((n - 1) as nat)
    }
}

/// Reads the decimal digits `s[start..10]`, or `None` when one is not a digit.
fn parse_digits(s: &[u8; 10], start: usize) -> (r: Option<u64>)
    requires
        start < 10,
    ensures
        r is Some <==> all_digits(s@.subrange(start as int, 10)),
        r is Some ==> r->Some_0 == decimal_value(s@.subrange(start as int, 10)),
{
    let mut acc: u64 = 0;
    let mut i: usize = start;
    proof {
        reveal_with_fuel(pow10, 11);
    }
    assert(pow10(10) == 10000000000);
    while i < 10
        invariant
            start <= i <= 10,
            all_digits(s@.subrange(start as int, i as int)),
            acc == decimal_value(s@.subrange(start as int, i as int)),
            acc < pow10((i - start) as nat),
            pow10(10) == 10000000000,
        decreases 10 - i,
    {
        let b = s[i];
        if b < 48 || b > 57 {
            assert(!all_digits(s@.subrange(start as int, 10))) by {
                assert(s@.subrange(start as int, 10)[i - start] == b);
            }
            return None;
        }
        let ghost prev = s@.subrange(start as int, i as int);
        let ghost next = s@.subrange(start as int, i + 1);
        assert(next.drop_last() =~= prev);
        assert(all_digits(next)) by {
            assert forall|k: int| 0 <= k < next.len() implies is_digit(#[trigger] next[k]) by {
                if k < prev.len() {
                    assert(next[k] == prev[k]);
                }
            }
        }
        proof {
            lemma_pow10_monotone((i - start + 1) as nat, 10);
        }
        assert(acc * 10 + (b - 48) < pow10((i - start + 1) as nat)) by (nonlinear_arith)
            requires
                acc < pow10((i - start) as nat),
                pow10((i - start + 1) as nat) == 10 * pow10((i - start) as nat),
                b - 48 < 10,
        ;
        acc = acc * 10 + (b - 48) as u64;
        i = i + 1;
    }
    assert(s@.subrange(start as int, 10) =~= s@.subrange(start as int, i as int));
    Some(acc)
}

proof fn lemma_pow10_monotone(a: nat, b: nat)
    requires
        a <= b,
    ensures
        pow10(a) <= pow10(b),
    decreases b,
{
    if a < b {
        lemma_pow10_monotone(a, (b - 1) as nat);
    }
}

/// Decodes a fixed-width ASCII decimal timestamp field.
///
/// The field is ten decimal digits, or `+` followed by nine; any other
/// field is rejected with `None`.
pub fn unixepoch_from_u8(u_timestamp: [u8; 10]) -> (r: Option<UnixEpoch>)
    ensures
        r is Some <==> valid_timestamp_field(u_timestamp@),
        r is Some ==> r->Some_0 == timestamp_field_value(u_timestamp@),
{
    assert(u_timestamp@.subrange(0, 10) =~= u_timestamp@);
    if u_timestamp[0] == 43 {
        assert(u_timestamp@.subrange(1, 10) =~= u_timestamp@.drop_first());
        assert(!all_digits(u_timestamp@)) by {
            assert(!is_digit(u_timestamp@[0]));
        }
        parse_digits(&u_timestamp, 1)
    } else {
        parse_digits(&u_timestamp, 0)
    }
}

/// A closed interval `[start, end]` of timestamps.
#[derive(Clone, Copy, Debug, PartialEq, Eq)]
pub struct Period(pub UnixEpoch, pub UnixEpoch);

/// The periods of a run of timestamps: each timestamp within
/// `TIME_INTERVAL` seconds after its predecessor extends the current
/// period up to itself; any other starts a new one.
pub open spec fn periods_of(s: Seq<u64>) -> Seq<Period>
    decreases s.len(),
{
    if s.len() == 0 {
        seq![]
    } else if s.len() == 1 {
        seq![Period(s[0], s[0])]
    } else {
        let p = periods_of(s.drop_last());
        let x = s.last();
        if x <= s[s.len() - 2] + TIME_INTERVAL {
            p.update(p.len() - 1, Period(p.last().0, x))
        } else {
            p.push(Period(x, x))
        }
    }
}

impl Period {
    /// The empty period `[0, 0]`.
    pub fn new() -> (r: Self)
        ensures
            r == Period(0, 0),
    {
        Period(0, 0)
    }

    /// The one-point period `[start, start]`.
    pub fn with_start(start: UnixEpoch) -> (r: Self)
        ensures
            r == Period(start, start),
    {
        Period(start, start)
    }

    /// Groups a non-empty run of timestamps into periods.
    pub fn from_unixepoch_vector(unixepoch_vec: &Vec<UnixEpoch>) -> (r: Vec<Period>)
        requires
            unixepoch_vec@.len() > 0,
        ensures
            r@ == periods_of(unixepoch_vec@),
            strictly_sorted(unixepoch_vec@) ==> periods_well_formed(r@),
    {
        let ghost s = unixepoch_vec@;
        let mut period_vec: Vec<Period> = Vec::new();
        let mut latest_unixepoch: UnixEpoch = unixepoch_vec[0];
        let mut period = Period::with_start(latest_unixepoch);
        let mut i: usize = 1;
        assert(s.take(1) =~= seq![s[0]]);
        while i < unixepoch_vec.len()
            invariant
                s == unixepoch_vec@,
                1 <= i <= s.len(),
                latest_unixepoch == s[i - 1],
                period.1 == latest_unixepoch,
                period_vec@.push(period) == periods_of(s.take(i as int)),
            decreases s.len() - i,
        {
            let unixepoch = unixepoch_vec[i];
            let ghost before = period_vec@.push(period);
            assert(s.take(i + 1).drop_last() =~= s.take(i as int));
            if unixepoch <= latest_unixepoch || unixepoch - latest_unixepoch <= TIME_INTERVAL {
                period.1 = unixepoch;
                assert(period_vec@.push(period) =~= before.update(before.len() - 1, Period(before.last().0, unixepoch)));
            } else {
                period_vec.push(period);
                period = Period::with_start(unixepoch);
                assert(period_vec@.push(period) =~= before.push(Period(unixepoch, unixepoch)));
            }
            latest_unixepoch = unixepoch;
            i = i + 1;
        }
        assert(s.take(i as int) =~= s);
        period_vec.push(period);
        proof {
            if strictly_sorted(s) {
                lemma_periods_well_formed(s);
            }
        }
        period_vec
    }
}

/// Each period is ordered, and consecutive periods are ascending with
/// more than `TIME_INTERVAL` seconds between them.
pub open spec fn periods_well_formed(p: Seq<Period>) -> bool {
    &&& forall|i: int| 0 <= i < p.len() ==> (#[trigger] p[i]).0 <= p[i].1
    &&& forall|i: int| 0 <= i < p.len() - 1 ==> (#[trigger] p[i]).1 + TIME_INTERVAL < p[i + 1].0
}

/// Periods built from a strictly ascending run are ordered, ascending,
/// non-overlapping and maximal, and the last one ends at the run's last
/// timestamp.
pub proof fn lemma_periods_well_formed(s: Seq<u64>)
    requires
        strictly_sorted(s),
    ensures
        periods_well_formed(periods_of(s)),
        s.len() > 0 ==> periods_of(s).len() > 0 && periods_of(s).last().1 == s.last(),
    decreases s.len(),
{
    if s.len() > 1 {
        let t = s.drop_last();
        assert(strictly_sorted(t)) by {
            assert forall|i: int, j: int| 0 <= i < j < t.len() implies t[i] < t[j] by {
                assert(t[i] == s[i] && t[j] == s[j]);
            }
        }
        lemma_periods_well_formed(t);
        assert(s[s.len() - 2] < s[s.len() - 1]);
        let p = periods_of(t);
        assert(t.last() == s[s.len() - 2]);
        let q = periods_of(s);
        if s.last() <= s[s.len() - 2] + TIME_INTERVAL {
            assert forall|i: int| 0 <= i < q.len() implies (#[trigger] q[i]).0 <= q[i].1 by {
                if i < q.len() - 1 {
                    assert(q[i] == p[i]);
                }
            }
            assert forall|i: int| 0 <= i < q.len() - 1 implies (#[trigger] q[i]).1 + TIME_INTERVAL
                < q[i + 1].0 by {
                assert(q[i] == p[i]);
                assert(q[i + 1].0 == p[i + 1].0);
            }
        } else {
            assert forall|i: int| 0 <= i < q.len() implies (#[trigger] q[i]).0 <= q[i].1 by {
                if i < q.len() - 1 {
                    assert(q[i] == p[i]);
                }
            }
            assert forall|i: int| 0 <= i < q.len() - 1 implies (#[trigger] q[i]).1 + TIME_INTERVAL
                < q[i + 1].0 by {
                assert(q[i] == p[i]);
                if i < q.len() - 2 {
                    assert(q[i + 1] == p[i + 1]);
                }
            }
        }
    }
}

/// Byte-exact token comparison.
pub fn tokens_equal(a: &GeoHashKey, b: &GeoHashKey) -> (r: bool)
    ensures
        r == (a@ == b@),
{
    let mut i: usize = 0;
    while i < GEOHASH_U8_SIZE
        invariant
            i <= 10,
            forall|k: int| 0 <= k < i ==> a@[k] == b@[k],
        decreases 10 - i,
    {
        if a[i] != b[i] {
            return false;
        }
        i = i + 1;
    }
    assert(a@ =~= b@);
    true
}

/// Copies the token stored at `data[start..start + GEOHASH_U8_SIZE]`.
pub fn read_token(data: &Vec<u8>, start: usize) -> (r: GeoHashKey)
    requires
        start + 10 <= data@.len(),
    ensures
        r@ == data@.subrange(start as int, start + 10),
{
    let mut t: GeoHashKey = [0u8; 10];
    let mut i: usize = 0;
    let n = data.len();
    while i < GEOHASH_U8_SIZE
        invariant
            i <= 10,
            n == data@.len(),
            start + 10 <= data@.len(),
            t@.len() == 10,
            forall|k: int| 0 <= k < i ==> t@[k] == data@[start + k],
        decreases 10 - i,
    {
        t[i] = data[start + i];
        i = i + 1;
    }
    assert(t@ =~= data@.subrange(start as int, start + 10));
    t
}

/// Copies a timestamp field stored at `data[start..start + UNIXEPOCH_U8_SIZE]`.
pub fn read_timestamp_field(data: &Vec<u8>, start: usize) -> (r: [u8; 10])
    requires
        start + 10 <= data@.len(),
    ensures
        r@ == data@.subrange(start as int, start + 10),
{
    read_token(data, start)
}

} // verus!
