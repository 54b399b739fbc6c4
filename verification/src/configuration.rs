//! Settings, and the reading of a vocabulary from its hex-encoded lines.
use vstd::prelude::*;

use crate::trie::ByteTrie;

verus! {

/// Seed of the random number generator that breaks ties between optimal
/// segmentations.
pub const SEED: u64 = 42;

/// The value of one hexadecimal digit (either case), if `c` is one.
pub open spec fn hex_digit_value(c: u8) -> Option<u8> {
    if 48 <= c <= 57 {
        // '0' ..= '9'
        Some((c - 48) as u8)
    } else if 97 <= c <= 102 {
        // 'a' ..= 'f'
        Some((c - 97 + 10) as u8)
    } else if 65 <= c <= 70 {
        // 'A' ..= 'F'
        Some((c - 65 + 10) as u8)
    } else {
        None
    }
}

/// The bytes that a hex string stands for: each pair of digits is one byte,
/// high digit first.  `None` when the length is odd or a character is not a
/// hex digit.
pub open spec fn hex_decoded(h: Seq<u8>) -> Option<Seq<u8>> {
    if h.len() % 2 == 0 && forall|i: int| 0 <= i < h.len() ==> (#[trigger] hex_digit_value(h[i])) is Some {
        Some(
            Seq::new(
                (h.len() / 2) as nat,
                |i: int|
                    (hex_digit_value(h[2 * i]).unwrap() * 16 + hex_digit_value(h[2 * i + 1]).unwrap()) as u8,
            ),
        )
    } else {
        None
    }
}

/// Calls `hex::decode`.  The contract claims what that function's source
/// shows: it fails on an odd length or on a character outside `0-9a-fA-F`,
/// and otherwise turns each pair of digits into one byte, high digit first.
/// The input must be valid, as the failure is not handed back.
#[verifier::external_body]
fn hex_string_to_byte_vec(hex_string: &[u8]) -> (r: Vec<u8>)
    requires
        hex_decoded(hex_string@) is Some,
    ensures
        hex_decoded(hex_string@) == Some(r@),
{
    hex::decode(hex_string).unwrap()
}

/// Every line is a valid hex string.
pub open spec fn all_hex(lines: Seq<Seq<u8>>) -> bool {
    forall|i: int| 0 <= i < lines.len() ==> (#[trigger] hex_decoded(lines[i])) is Some
}

/// The byte strings that the lines stand for.
pub open spec fn decode_all(lines: Seq<Seq<u8>>) -> Seq<Seq<u8>> {
    lines.map_values(|l: Seq<u8>| hex_decoded(l).unwrap())
}

/// The id that the next new token gets after `tokens` were read: the special
/// token has id 0, and every token that is not the special one takes the
/// next id.
pub open spec fn next_id(tokens: Seq<Seq<u8>>, special: Seq<u8>) -> nat
    decreases tokens.len(),
{
    if tokens.len() == 0 {
        1
    } else if tokens.last() == special {
        next_id(tokens.drop_last(), special)
    } else {
        next_id(tokens.drop_last(), special) + 1
    }
}

/// The vocabulary read from `tokens`: the special token has id 0; each other
/// token, in order, gets the next id, and a token that occurs again is given
/// its new id in place of the old one.
pub open spec fn vocab_ids(tokens: Seq<Seq<u8>>, special: Seq<u8>) -> Map<Seq<u8>, usize>
    decreases tokens.len(),
{
    if tokens.len() == 0 {
        map![special => 0usize]
    } else {
        let m = vocab_ids(tokens.drop_last(), special);
        if tokens.last() == special {
            m
        } else {
            m.insert(tokens.last(), next_id(tokens.drop_last(), special) as usize)
        }
    }
}

/// The next id never exceeds one more than the number of tokens.
pub proof fn lemma_next_id_bound(tokens: Seq<Seq<u8>>, special: Seq<u8>)
    ensures
        1 <= next_id(tokens, special) <= tokens.len() + 1,
    decreases tokens.len(),
{
    if tokens.len() > 0 {
        lemma_next_id_bound(tokens.drop_last(), special);
    }
}

/// The vocabulary holds the special token with id 0, every id is below the
/// next id, and no two tokens share an id.
pub proof fn lemma_vocab_ids_injective(tokens: Seq<Seq<u8>>, special: Seq<u8>)
    requires
        tokens.len() < usize::MAX,
    ensures
        vocab_ids(tokens, special).contains_key(special),
        vocab_ids(tokens, special)[special] == 0,
        forall|k: Seq<u8>|
            #[trigger] vocab_ids(tokens, special).contains_key(k) ==> vocab_ids(tokens, special)[k]
                < next_id(tokens, special),
        forall|k1: Seq<u8>, k2: Seq<u8>|
            #[trigger] vocab_ids(tokens, special).contains_key(k1) && #[trigger] vocab_ids(
                tokens,
                special,
            ).contains_key(k2) && vocab_ids(tokens, special)[k1] == vocab_ids(tokens, special)[k2]
                ==> k1 == k2,
    decreases tokens.len(),
{
    if tokens.len() > 0 {
        let prev = tokens.drop_last();
        lemma_vocab_ids_injective(prev, special);
        lemma_next_id_bound(prev, special);
    }
}

/// The tokens of the vocabulary are the special token and the tokens read.
pub proof fn lemma_vocab_ids_keys(tokens: Seq<Seq<u8>>, special: Seq<u8>)
    ensures
        forall|k: Seq<u8>|
            #[trigger] vocab_ids(tokens, special).contains_key(k) <==> k == special || tokens.contains(
                k,
            ),
    decreases tokens.len(),
{
    if tokens.len() > 0 {
        let prev = tokens.drop_last();
        lemma_vocab_ids_keys(prev, special);
        assert forall|k: Seq<u8>|
            #[trigger] vocab_ids(tokens, special).contains_key(k) <==> k == special
                || tokens.contains(k) by {
            let m0 = vocab_ids(prev, special);
            assert(m0.contains_key(k) <==> k == special || prev.contains(k));
            if tokens.contains(k) && k != tokens.last() {
                let j = choose|j: int| 0 <= j < tokens.len() && tokens[j] == k;
                assert(prev[j] == k);
            }
            if prev.contains(k) {
                let j = choose|j: int| 0 <= j < prev.len() && prev[j] == k;
                assert(tokens[j] == k);
            }
            if k == tokens.last() {
                assert(tokens[tokens.len() - 1] == k);
            }
        }
    }
}

/// When no token other than the special one is read twice, the ids are
/// exactly 0, 1, ..., one less than the next id, where the next id is one
/// more than the number of tokens read other than the special one.
pub proof fn lemma_vocab_ids_consecutive(tokens: Seq<Seq<u8>>, special: Seq<u8>)
    requires
        tokens.len() < usize::MAX,
        forall|i: int, j: int|
            0 <= i < j < tokens.len() && tokens[j] != special ==> #[trigger] tokens[i]
                != #[trigger] tokens[j],
    ensures
        forall|v: usize|
            #![trigger vocab_ids(tokens, special).values().contains(v)]
            vocab_ids(tokens, special).values().contains(v) <==> v < next_id(tokens, special),
    decreases tokens.len(),
{
    lemma_next_id_bound(tokens, special);
    if tokens.len() == 0 {
        let m = vocab_ids(tokens, special);
        assert forall|v: usize| m.values().contains(v) <==> v < next_id(tokens, special) by {
            if v == 0 {
                assert(m.contains_key(special) && m[special] == 0);
            }
        }
    } else {
        let prev = tokens.drop_last();
        let t = tokens.last();
        lemma_vocab_ids_consecutive(prev, special);
        lemma_vocab_ids_keys(prev, special);
        lemma_next_id_bound(prev, special);
        let m0 = vocab_ids(prev, special);
        let m = vocab_ids(tokens, special);
        if t != special {
            assert(!prev.contains(t)) by {
                if prev.contains(t) {
                    let i = choose|i: int| 0 <= i < prev.len() && prev[i] == t;
                    assert(tokens[i] == tokens[tokens.len() - 1]);
                }
            }
            assert(!m0.contains_key(t));
            assert forall|v: usize| m.values().contains(v) <==> v < next_id(tokens, special) by {
                if m.values().contains(v) {
                    let k = choose|k: Seq<u8>| m.contains_key(k) && m[k] == v;
                    if k != t {
                        assert(m0.contains_key(k) && m0[k] == v);
                        assert(m0.values().contains(v));
                    }
                }
                if v < next_id(tokens, special) {
                    if v == next_id(prev, special) {
                        assert(m.contains_key(t) && m[t] == v);
                    } else {
                        assert(m0.values().contains(v));
                        let k = choose|k: Seq<u8>| m0.contains_key(k) && m0[k] == v;
                        assert(k != t);
                        assert(m.contains_key(k) && m[k] == v);
                    }
                }
            }
        } else {
            assert forall|v: usize| m.values().contains(v) <==> v < next_id(tokens, special) by {
                assert(m == m0);
            }
        }
    }
}

/// Reads a vocabulary from its lines, each the hex encoding of one token.
/// `special` gets id 0; the other tokens get ids 1, 2, ... in the order of the
/// lines; a line that decodes to `special` is skipped, and a token that occurs
/// twice keeps the later id.  Every line must be a valid hex string.
pub fn read_vocab(lines: &Vec<Vec<u8>>, special: Vec<u8>) -> (r: ByteTrie)
    requires
        lines@.len() < usize::MAX,
        all_hex(lines.deep_view()),
    ensures
        r.wf(),
        r@ == vocab_ids(decode_all(lines.deep_view()), special@),
{
    let ghost all = lines.deep_view();
    let mut vocab = ByteTrie::new();
    vocab.insert(special.as_slice(), 0);
    let mut count: usize = 1;
    let mut i: usize = 0;
    assert(decode_all(all).take(0) =~= Seq::<Seq<u8>>::empty());
    assert(vocab@ =~= vocab_ids(Seq::<Seq<u8>>::empty(), special@));
    while i < lines.len()
        invariant
            all == lines.deep_view(),
            lines@.len() < usize::MAX,
            i <= lines@.len(),
            vocab.wf(),
            all_hex(all),
            vocab@ == vocab_ids(decode_all(all).take(i as int), special@),
            count == next_id(decode_all(all).take(i as int), special@),
        decreases lines@.len() - i,
    {
        let ghost prefix = decode_all(all).take(i as int);
        let ghost next = decode_all(all).take(i + 1);
        assert(all[i as int] == lines@[i as int]@);
        assert(hex_decoded(all[i as int]) is Some);
        let byte_string = hex_string_to_byte_vec(lines[i].as_slice());
        assert(next.drop_last() =~= prefix);
        assert(next.last() == byte_string@);
        proof {
            lemma_next_id_bound(prefix, special@);
        }
        if byte_string == special {
            assert(byte_string@ == special@);
        } else {
            assert(byte_string@ != special@);
            vocab.insert(byte_string.as_slice(), count);
            count = count + 1;
        }
        i = i + 1;
    }
    assert(decode_all(all).take(lines@.len() as int) =~= decode_all(all));
    vocab
}

} // verus!
