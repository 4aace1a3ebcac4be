//! Exact-membership matching: the dictionary is a set of tokens and a
//! client token matches when the set holds it.
use vstd::prelude::*;
use std::collections::HashSet;
use crate::primitives::THREASHOLD;
use crate::response::{be_value, pow256, lemma_pow256_monotone};

verus! {

/// Width of an encoded value.
pub const ENCODEDVALUE_SIZE: usize = 10;

/// An opaque token of the exact-membership mode.
pub type EncodedValue = [u8; 10];

/// The set key of a token: its bytes read as a big-endian number.
pub open spec fn token_code(t: Seq<u8>) -> u128 {
    be_value(t) as u128
}

/// The set key of `data[start..start + ENCODEDVALUE_SIZE]`.
fn encode_at(data: &Vec<u8>, start: usize) -> (r: u128)
    requires
        start + 10 <= data@.len(),
    ensures
        r == token_code(data@.subrange(start as int, start + 10)),
{
    let ghost s = data@;
    let n = data.len();
    let mut acc: u128 = 0;
    let mut i: usize = 0;
    assert(pow256(10) == 0x1_0000_0000_0000_0000_0000) by {
        reveal_with_fuel(pow256, 11);
    }
    while i < ENCODEDVALUE_SIZE
        invariant
            i <= 10,
            n == s.len(),
            s == data@,
            start + 10 <= s.len(),
            acc == be_value(s.subrange(start as int, start + i)),
            acc < pow256(i as nat),
            pow256(10) == 0x1_0000_0000_0000_0000_0000,
        decreases 10 - i,
    {
        let b = data[start + i];
        assert(s.subrange(start as int, start + i + 1).drop_last() =~= s.subrange(start as int, start + i));
        assert(pow256((i + 1) as nat) == 256 * pow256(i as nat));
        proof {
            lemma_pow256_monotone((i + 1) as nat, 10);
        }
        assert(acc * 256 + b < pow256((i + 1) as nat)) by (nonlinear_arith)
            requires
                acc < pow256(i as nat),
                pow256((i + 1) as nat) == 256 * pow256(i as nat),
                b < 256,
        ;
        acc = acc * 256 + b as u128;
        i = i + 1;
    }
    acc
}

/// The set key of a token.
pub fn encode_token(t: &EncodedValue) -> (r: u128)
    ensures
        r == token_code(t@),
{
    let mut v: Vec<u8> = Vec::new();
    let mut i: usize = 0;
    while i < ENCODEDVALUE_SIZE
        invariant
            i <= 10,
            v@ == t@.take(i as int),
        decreases 10 - i,
    {
        v.push(t[i]);
        assert(v@ =~= t@.take(i + 1));
        i = i + 1;
    }
    assert(v@.subrange(0, 10) =~= t@);
    encode_at(&v, 0)
}

/// The tokens of `qs` that the set holds, in order.
pub open spec fn present_tokens(set: Set<u128>, qs: Seq<EncodedValue>) -> Seq<EncodedValue>
    decreases qs.len(),
{
    if qs.len() == 0 {
        seq![]
    } else {
        present_tokens(set, qs.drop_last()) + if set.contains(token_code(qs.last()@)) {
            seq![qs.last()]
        } else {
            seq![]
        }
    }
}

/// The keys of the first `n` tokens of a flat buffer.
pub open spec fn buffer_codes(data: Seq<u8>, n: int) -> Set<u128> {
    Set::new(|c: u128| exists|i: int| 0 <= i < n && c == #[trigger] token_code(data.subrange(10 * i, 10 * i + 10)))
}

/// Every client token, aggregated.
pub struct MappedEncodedQueryBuffer {
    pub map: Vec<EncodedValue>,
}

/// The client tokens that the dictionary holds.
pub struct EncodedResultBuffer {
    pub data: Vec<EncodedValue>,
}

/// A dictionary of tokens for exact-membership matching.
pub struct EncodedHashTable {
    pub map: HashSet<u128>,
}

impl View for EncodedHashTable {
    type V = Set<u128>;

    open spec fn view(&self) -> Set<u128> {
        self.map@
    }
}

impl EncodedHashTable {
    /// An empty dictionary.
    pub fn new() -> (r: Self)
        ensures
            r@ == Set::<u128>::empty(),
    {
        EncodedHashTable { map: HashSet::with_capacity(THREASHOLD) }
    }

    /// Copies every client token that the dictionary holds into `result`.
    pub fn intersect(
        &self,
        mapped_query_buffer: &MappedEncodedQueryBuffer,
        result: &mut EncodedResultBuffer,
    )
        ensures
            final(result).data@ == old(result).data@ + present_tokens(
                self@,
                mapped_query_buffer.map@,
            ),
    {
        let ghost qs = mapped_query_buffer.map@;
        let mut i: usize = 0;
        while i < mapped_query_buffer.map.len()
            invariant
                qs == mapped_query_buffer.map@,
                i <= qs.len(),
                result.data@ == old(result).data@ + present_tokens(self@, qs.take(i as int)),
            decreases qs.len() - i,
        {
            assert(qs.take(i + 1).drop_last() =~= qs.take(i as int));
            let value = mapped_query_buffer.map[i];
            let code = encode_token(&value);
            if self.map.contains(&code) {
                result.data.push(value);
            }
            assert(result.data@ =~= old(result).data@ + present_tokens(self@, qs.take(i + 1)));
            i = i + 1;
        }
        assert(qs.take(i as int) =~= qs);
    }

    /// Adds the first `size` tokens of a flat buffer of concatenated tokens.
    pub fn build_dictionary_buffer(&mut self, encoded_value_vec: &Vec<u8>, size: usize)
        requires
            10 * size <= encoded_value_vec@.len(),
        ensures
            final(self)@ == old(self)@.union(buffer_codes(encoded_value_vec@, size as int)),
    {
        let ghost data = encoded_value_vec@;
        let n = encoded_value_vec.len();
        let mut i: usize = 0;
        while i < size
            invariant
                n == data.len(),
                data == encoded_value_vec@,
                10 * size <= data.len(),
                i <= size,
                self@ == old(self)@.union(buffer_codes(data, i as int)),
            decreases size - i,
        {
            assert(10 * i + 10 <= 10 * size) by (nonlinear_arith)
                requires
                    i < size,
            ;
            let code = encode_at(encoded_value_vec, ENCODEDVALUE_SIZE * i);
            self.map.insert(code);
            assert(self@ =~= old(self)@.union(buffer_codes(data, i + 1))) by {
                assert forall|c: u128| #[trigger] buffer_codes(data, i + 1).contains(c) implies
                    buffer_codes(data, i as int).contains(c) || c == code by {
                    let w = choose|w: int| 0 <= w < i + 1 && c == #[trigger] token_code(data.subrange(10 * w, 10 * w + 10));
                    if w < i {
                        assert(buffer_codes(data, i as int).contains(c));
                    }
                }
                assert forall|c: u128| #[trigger] buffer_codes(data, i as int).contains(c) implies
                    buffer_codes(data, i + 1).contains(c) by {
                    let w = choose|w: int| 0 <= w < i && c == #[trigger] token_code(data.subrange(10 * w, 10 * w + 10));
                    assert(0 <= w < i + 1);
                }
                assert(buffer_codes(data, i + 1).contains(code)) by {
                    assert(code == token_code(data.subrange(10 * i, 10 * i + 10)));
                }
            }
            i = i + 1;
        }
    }
}

} // verus!
