//! Strictly ascending timestamp sequences: ordered insertion, two-pointer
//! merge and binary-search membership.
use vstd::prelude::*;

verus! {

broadcast use vstd::seq_lib::group_seq_properties;

/// Strictly ascending, hence free of duplicates.
pub open spec fn strictly_sorted(s: Seq<u64>) -> bool {
    forall|i: int, j: int| 0 <= i < j < s.len() ==> s[i] < s[j]
}

/// Inserts `unixepoch` at its ordered place in a strictly ascending list,
/// leaving the list as it is when the value is already there.
pub fn _sorted_push(sorted_list: &mut Vec<u64>, unixepoch: u64)
    requires
        strictly_sorted(old(sorted_list)@),
    ensures
        strictly_sorted(final(sorted_list)@),
        final(sorted_list)@.to_set() == old(sorted_list)@.to_set().insert(unixepoch),
{
    let ghost s0 = sorted_list@;
    let mut index: usize = 0;
    while index < sorted_list.len()
        invariant
            sorted_list@ == s0,
            old(sorted_list)@ == s0,
            strictly_sorted(s0),
            index <= s0.len(),
            forall|k: int| 0 <= k < index ==> s0[k] < unixepoch,
        decreases s0.len() - index,
    {
        let elm = sorted_list[index];
        if elm > unixepoch {
            sorted_list.insert(index, unixepoch);
            let ghost s1 = sorted_list@;
            assert(s1 =~= s0.insert(index as int, unixepoch));
            assert forall|i: int, j: int| 0 <= i < j < s1.len() implies s1[i] < s1[j] by {
                if j < index {
                } else if j == index {
                } else if i < index {
                    assert(s1[j] == s0[j - 1]);
                } else if i == index {
                    assert(s1[j] == s0[j - 1]);
                    assert(s0[index as int] <= s0[j - 1]);
                } else {
                    assert(s1[j] == s0[j - 1] && s1[i] == s0[i - 1]);
                }
            }
            assert(s1.to_set() =~= s0.to_set().insert(unixepoch)) by {
                assert forall|y: u64| s1.contains(y) implies #[trigger] s0.to_set().insert(
                    unixepoch,
                ).contains(y) by {
                    let k = choose|k: int| 0 <= k < s1.len() && s1[k] == y;
                    if k < index {
                        assert(s0[k] == y);
                    } else if k > index {
                        assert(s0[k - 1] == y);
                    }
                }
                assert forall|y: u64| #[trigger] s0.contains(y) implies s1.contains(y) by {
                    let k = choose|k: int| 0 <= k < s0.len() && s0[k] == y;
                    if k < index {
                        assert(s1[k] == y);
                    } else {
                        assert(s1[k + 1] == y);
                    }
                }
                assert(s1[index as int] == unixepoch);
            }
            return;
        } else if elm == unixepoch {
            assert(s0.to_set() =~= s0.to_set().insert(unixepoch)) by {
                assert(s0[index as int] == unixepoch);
            }
            return;
        }
        index = index + 1;
    }
    sorted_list.push(unixepoch);
    proof {
        s0.lemma_push_to_set_commute(unixepoch);
    }
}

/// Merges two strictly ascending lists into one whose elements are those
/// of either list, each once, in ascending order.
pub fn _sorted_merge(sorted_list_1: &Vec<u64>, sorted_list_2: &Vec<u64>) -> (r: Vec<u64>)
    requires
        strictly_sorted(sorted_list_1@),
        strictly_sorted(sorted_list_2@),
    ensures
        strictly_sorted(r@),
        r@.to_set() == sorted_list_1@.to_set().union(sorted_list_2@.to_set()),
{
    let ghost a = sorted_list_1@;
    let ghost b = sorted_list_2@;
    let len1 = sorted_list_1.len();
    let len2 = sorted_list_2.len();
    let mut cursor1: usize = 0;
    let mut cursor2: usize = 0;
    let mut merged_vec: Vec<u64> = Vec::new();
    while cursor1 < len1 || cursor2 < len2
        invariant
            len1 == a.len(),
            len2 == b.len(),
            a == sorted_list_1@,
            b == sorted_list_2@,
            strictly_sorted(a),
            strictly_sorted(b),
            cursor1 <= len1,
            cursor2 <= len2,
            strictly_sorted(merged_vec@),
            merged_vec@.to_set() == a.take(cursor1 as int).to_set().union(
                b.take(cursor2 as int).to_set(),
            ),
            merged_vec@.len() > 0 && cursor1 < len1 ==> merged_vec@.last() < a[cursor1 as int],
            merged_vec@.len() > 0 && cursor2 < len2 ==> merged_vec@.last() < b[cursor2 as int],
        decreases len1 + len2 - cursor1 - cursor2,
    {
        let ghost m0 = merged_vec@;
        let ghost ta = a.take(cursor1 as int);
        let ghost tb = b.take(cursor2 as int);
        let candidate: u64;
        if cursor2 >= len2 || (cursor1 < len1 && sorted_list_1[cursor1] < sorted_list_2[cursor2]) {
            candidate = sorted_list_1[cursor1];
            cursor1 = cursor1 + 1;
            assert(a.take(cursor1 as int) =~= ta.push(candidate));
            proof {
                ta.lemma_push_to_set_commute(candidate);
            }
        } else if cursor1 < len1 && sorted_list_1[cursor1] == sorted_list_2[cursor2] {
            candidate = sorted_list_1[cursor1];
            cursor1 = cursor1 + 1;
            cursor2 = cursor2 + 1;
            assert(a.take(cursor1 as int) =~= ta.push(candidate));
            assert(b.take(cursor2 as int) =~= tb.push(candidate));
            proof {
                ta.lemma_push_to_set_commute(candidate);
                tb.lemma_push_to_set_commute(candidate);
            }
        } else {
            candidate = sorted_list_2[cursor2];
            cursor2 = cursor2 + 1;
            assert(b.take(cursor2 as int) =~= tb.push(candidate));
            proof {
                tb.lemma_push_to_set_commute(candidate);
            }
        }
        merged_vec.push(candidate);
        proof {
            m0.lemma_push_to_set_commute(candidate);
        }
        assert(merged_vec@.to_set() =~= a.take(cursor1 as int).to_set().union(
            b.take(cursor2 as int).to_set(),
        ));
    }
    assert(a.take(len1 as int) =~= a);
    assert(b.take(len2 as int) =~= b);
    merged_vec
}

/// Binary search for `x` in a strictly ascending list.
pub fn sorted_contains(sorted_list: &Vec<u64>, x: u64) -> (r: bool)
    requires
        strictly_sorted(sorted_list@),
    ensures
        r == sorted_list@.contains(x),
{
    let mut lo: usize = 0;
    let mut hi: usize = sorted_list.len();
    while lo < hi
        invariant
            strictly_sorted(sorted_list@),
            lo <= hi <= sorted_list@.len(),
            forall|k: int| 0 <= k < lo ==> sorted_list@[k] < x,
            forall|k: int| hi <= k < sorted_list@.len() ==> sorted_list@[k] > x,
        decreases hi - lo,
    {
        let mid = lo + (hi - lo) / 2;
        let v = sorted_list[mid];
        if v == x {
            return true;
        } else if v < x {
            lo = mid + 1;
        } else {
            hi = mid;
        }
    }
    false
}

} // verus!
