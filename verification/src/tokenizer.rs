//! The tokenizer: a vocabulary of byte-string tokens with ids, and the
//! encoding of byte strings into ids (greedy, or with the fewest tokens) and
//! back.
use std::collections::HashMap;
use vstd::prelude::*;
use vstd::relations::injective_on;
use vstd::set_lib::lemma_map_size;
use vstd::utf8::{decode_utf8, encode_utf8, valid_utf8};

use crate::configuration::{all_hex, decode_all, lemma_vocab_ids_injective, read_vocab, vocab_ids};
use crate::rng::{gen_range_inclusive, seeded_rng};
use crate::segmentation::{
    best, cand, follow, greedy_segmentation, is_optimal_segmentation, is_segmentation, join,
    lemma_best, lemma_best_capped, lemma_follow_optimal, lemma_greedy_is_segmentation,
    lemma_join_push, lemma_longest_prefix_len, draw_bounds_at, draw_bounds_before, is_tie,
    lemma_draw_bounds_before_grow, lemma_reservoir_capped, lemma_reservoir_prefix, reservoir_width,
    reservoir_widths, tie_count, valid_draws, lemma_longest_prefix_len_capped,
    lemma_longest_widths_valid, lemma_opt_count_bound, lemma_optimal_same_count, longest_prefix_len, longest_segmentation,
    longest_widths, opt_count, segmentable, valid_widths, is_longest_match_walk, is_stuck_walk,
    lemma_greedy_takes_longest, lemma_greedy_stuck, lemma_stuck_walk_blocks_greedy,
    lemma_every_optimum_reachable,
};
use crate::configuration::SEED;
use crate::trie::{bytes_range_to_vec, bytes_to_vec, ByteTrie};

verus! {

broadcast use vstd::std_specs::hash::group_hash_axioms;

/// A vocabulary of tokens with their ids, the inverse map from ids to
/// tokens, the length of the longest token, and the encoding mode.
pub struct Tokenizer {
    vocab: ByteTrie,
    input_ids: HashMap<usize, Vec<u8>>,
    max_len: usize,
    greedy: bool,
    random_tiebreaker: bool,
}

impl Tokenizer {
    /// Token to id.
    pub closed spec fn vocab_map(&self) -> Map<Seq<u8>, usize> {
        self.vocab@
    }

    /// The tokens of the vocabulary.
    pub open spec fn tokens(&self) -> Set<Seq<u8>> {
        self.vocab_map().dom()
    }

    /// Id to token.
    pub closed spec fn ids_map(&self) -> Map<usize, Seq<u8>> {
        self.input_ids@.map_values(|v: Vec<u8>| v@)
    }

    /// The length of the longest token.
    pub closed spec fn max_len_spec(&self) -> usize {
        self.max_len
    }

    /// Whether encoding is greedy.
    pub closed spec fn is_greedy(&self) -> bool {
        self.greedy
    }

    /// Whether ties between optimal encodings are broken at random (else in
    /// favour of longer tokens).
    pub closed spec fn uses_random_tiebreaker(&self) -> bool {
        self.random_tiebreaker
    }

    /// The two maps are inverse to each other, and `max_len` is the length
    /// of the longest token.
    #[verifier::type_invariant]
    pub closed spec fn wf(&self) -> bool {
        &&& self.vocab.wf()
        &&& forall|k: Seq<u8>|
            #[trigger] self.vocab@.contains_key(k) ==> self.input_ids@.contains_key(self.vocab@[k])
                && self.input_ids@[self.vocab@[k]]@ == k
        &&& forall|i: usize|
            #[trigger] self.input_ids@.contains_key(i) ==> self.vocab@.contains_key(
                self.input_ids@[i]@,
            ) && self.vocab@[self.input_ids@[i]@] == i
        &&& forall|k: Seq<u8>| #[trigger] self.vocab@.contains_key(k) ==> k.len() <= self.max_len
        &&& exists|k: Seq<u8>| #[trigger] self.vocab@.contains_key(k) && k.len() == self.max_len
    }

    /// The ids are all in the vocabulary.
    pub open spec fn known_ids(&self, ids: Seq<usize>) -> bool {
        forall|j: int| 0 <= j < ids.len() ==> self.ids_map().contains_key(#[trigger] ids[j])
    }

    /// The tokens that the ids stand for.
    pub open spec fn tokens_of(&self, ids: Seq<usize>) -> Seq<Seq<u8>> {
        ids.map_values(|i: usize| self.ids_map()[i])
    }

    /// The ids of the tokens.
    pub open spec fn ids_of(&self, toks: Seq<Seq<u8>>) -> Seq<usize> {
        toks.map_values(|t: Seq<u8>| self.vocab_map()[t])
    }

    /// The bytes that the ids stand for.
    pub open spec fn decoded(&self, ids: Seq<usize>) -> Seq<u8> {
        join(self.tokens_of(ids))
    }

    /// Creates a tokenizer from the lines of a vocabulary file (each the hex
    /// encoding of one token) and the special token, which gets id 0.  Every
    /// line must be a valid hex string.
    pub fn new(vocab_lines: &Vec<Vec<u8>>, special: &[u8], greedy: bool, random_tiebreaker: bool) -> (t:
        Tokenizer)
        requires
            vocab_lines@.len() < usize::MAX,
            all_hex(vocab_lines.deep_view()),
        ensures
            ({
                &&& t.wf()
                &&& t.vocab_map() == vocab_ids(decode_all(vocab_lines.deep_view()), special@)
                &&& t.tokens().contains(special@)
                &&& t.vocab_map()[special@] == 0
                &&& t.tokens().finite()
                &&& t.ids_map().dom().len() == t.tokens().len()
                &&& forall|k: Seq<u8>|
                    #[trigger] t.tokens().contains(k) ==> t.ids_map().contains_key(t.vocab_map()[k])
                        && t.ids_map()[t.vocab_map()[k]] == k
                &&& forall|i: usize|
                    #[trigger] t.ids_map().contains_key(i) ==> t.tokens().contains(t.ids_map()[i])
                        && t.vocab_map()[t.ids_map()[i]] == i
                &&& forall|k: Seq<u8>| #[trigger] t.tokens().contains(k) ==> k.len() <= t.max_len_spec()
                &&& exists|k: Seq<u8>| #[trigger] t.tokens().contains(k) && k.len() == t.max_len_spec()
                &&& t.is_greedy() == greedy
                &&& t.uses_random_tiebreaker() == random_tiebreaker
            }),
    {
        let vocab = read_vocab(vocab_lines, bytes_to_vec(special));
        proof {
            lemma_vocab_ids_injective(decode_all(vocab_lines.deep_view()), special@);
            assert(vocab@.contains_key(special@));
        }
        let max_len = max_key_len(&vocab);
        let input_ids = flip_vocab(&vocab);
        let t = Tokenizer { vocab, input_ids, max_len, greedy, random_tiebreaker };
        assert(t.wf());
        proof {
            t.lemma_ids_invert_vocab();
            t.lemma_same_size();
            let k = choose|k: Seq<u8>| #[trigger] t.vocab@.contains_key(k) && k.len() == t.max_len;
            assert(t.tokens().contains(k));
        }
        t
    }

    /// The length of the longest token.
    pub fn get_max_len(&self) -> (r: usize)
        ensures
            r == self.max_len_spec(),
            forall|k: Seq<u8>| #[trigger] self.tokens().contains(k) ==> k.len() <= r,
            exists|k: Seq<u8>| #[trigger] self.tokens().contains(k) && k.len() == r,
    {
        proof {
            use_type_invariant(self);
        }
        proof {
            let k = choose|k: Seq<u8>| #[trigger] self.vocab@.contains_key(k) && k.len() == self.max_len;
            assert(self.tokens().contains(k));
        }
        self.max_len
    }

    /// Every (token, id) pair of the vocabulary, each token once.
    pub fn get_vocab(&self) -> (r: Vec<(Vec<u8>, usize)>)
        ensures
            self.tokens().finite(),
            r@.len() == self.tokens().len(),
            forall|j: int|
                0 <= j < r@.len() ==> self.vocab_map().contains_key((#[trigger] r@[j]).0@)
                    && self.vocab_map()[r@[j].0@] == r@[j].1,
            forall|k: Seq<u8>|
                #[trigger] self.vocab_map().contains_key(k) ==> exists|j: int|
                    0 <= j < r@.len() && (#[trigger] r@[j]).0@ == k,
            forall|j1: int, j2: int|
                0 <= j1 < r@.len() && 0 <= j2 < r@.len() && j1 != j2 ==> (#[trigger] r@[j1]).0@
                    != (#[trigger] r@[j2]).0@,
    {
        proof {
            use_type_invariant(self);
        }
        let r = self.vocab.entries();
        proof {
            self.vocab.lemma_finite();
            let kl = self.vocab.key_list();
            assert forall|k: Seq<u8>| #[trigger] self.vocab_map().contains_key(k) implies exists|
                j: int,
            | 0 <= j < r@.len() && (#[trigger] r@[j]).0@ == k by {
                assert(kl.contains(k));
                let j = choose|j: int| 0 <= j < kl.len() && kl[j] == k;
                assert(r@[j].0@ == k);
            }
            assert forall|j1: int, j2: int|
                0 <= j1 < r@.len() && 0 <= j2 < r@.len() && j1 != j2 implies (#[trigger] r@[j1]).0@
                != (#[trigger] r@[j2]).0@ by {
                assert(kl[j1] != kl[j2]);
            }
        }
        r
    }

    /// Every (id, token) pair of the inverse map, each id once.
    pub fn get_ids(&self) -> (r: Vec<(usize, Vec<u8>)>)
        ensures
            self.ids_map().dom().finite(),
            r@.len() == self.ids_map().dom().len(),
            r@.len() == self.tokens().len(),
            forall|j: int|
                0 <= j < r@.len() ==> self.ids_map().contains_key((#[trigger] r@[j]).0)
                    && self.ids_map()[r@[j].0] == r@[j].1@,
            forall|i: usize|
                #[trigger] self.ids_map().contains_key(i) ==> exists|j: int|
                    0 <= j < r@.len() && (#[trigger] r@[j]).0 == i,
            forall|j1: int, j2: int|
                0 <= j1 < r@.len() && 0 <= j2 < r@.len() && j1 != j2 ==> (#[trigger] r@[j1]).0
                    != (#[trigger] r@[j2]).0,
    {
        proof {
            use_type_invariant(self);
        }
        let entries = self.vocab.entries();
        let ghost kl = self.vocab.key_list();
        proof {
            self.vocab.lemma_finite();
            self.lemma_same_size();
        }
        let mut r: Vec<(usize, Vec<u8>)> = Vec::new();
        let mut j: usize = 0;
        while j < entries.len()
            invariant
                self.wf(),
                kl == self.vocab.key_list(),
                entries@.len() == kl.len(),
                forall|jj: int|
                    0 <= jj < entries@.len() ==> (#[trigger] entries@[jj]).0@ == kl[jj]
                        && self.vocab@.contains_key(entries@[jj].0@) && self.vocab@[entries@[jj].0@]
                        == entries@[jj].1,
                j <= entries@.len(),
                r@.len() == j,
                forall|jj: int|
                    0 <= jj < j ==> (#[trigger] r@[jj]).0 == entries@[jj].1 && r@[jj].1@
                        == entries@[jj].0@,
            decreases entries@.len() - j,
        {
            let id = entries[j].1;
            let token = bytes_to_vec(entries[j].0.as_slice());
            r.push((id, token));
            j = j + 1;
        }
        proof {
            assert forall|jj: int| 0 <= jj < r@.len() implies self.ids_map().contains_key(
                (#[trigger] r@[jj]).0,
            ) && self.ids_map()[r@[jj].0] == r@[jj].1@ by {
                let k = entries@[jj].0@;
                assert(self.vocab@.contains_key(k));
            }
            assert forall|i: usize| #[trigger] self.ids_map().contains_key(i) implies exists|jj: int|
                0 <= jj < r@.len() && (#[trigger] r@[jj]).0 == i by {
                assert(self.input_ids@.contains_key(i));
                let k = self.input_ids@[i]@;
                assert(self.vocab@.contains_key(k));
                assert(kl.contains(k));
                let jj = choose|jj: int| 0 <= jj < kl.len() && kl[jj] == k;
                assert(r@[jj].0 == i);
            }
            assert forall|j1: int, j2: int|
                0 <= j1 < r@.len() && 0 <= j2 < r@.len() && j1 != j2 implies (#[trigger] r@[j1]).0
                != (#[trigger] r@[j2]).0 by {
                assert(kl[j1] != kl[j2]);
                let k1 = kl[j1];
                let k2 = kl[j2];
                assert(self.input_ids@[self.vocab@[k1]]@ == k1);
                assert(self.input_ids@[self.vocab@[k2]]@ == k2);
            }
        }
        r
    }

    /// The ids are the inverse of the tokens' ids.
    pub proof fn lemma_ids_invert_vocab(&self)
        requires
            self.wf(),
        ensures
            forall|k: Seq<u8>|
                #[trigger] self.vocab_map().contains_key(k) ==> self.ids_map().contains_key(
                    self.vocab_map()[k],
                ) && self.ids_map()[self.vocab_map()[k]] == k,
            forall|i: usize|
                #[trigger] self.ids_map().contains_key(i) ==> self.vocab_map().contains_key(
                    self.ids_map()[i],
                ) && self.vocab_map()[self.ids_map()[i]] == i,
    {
    }

    /// The vocabulary is finite, and the id map has as many ids as the
    /// vocabulary has tokens.
    pub proof fn lemma_same_size(&self)
        requires
            self.wf(),
        ensures
            self.tokens().finite(),
            self.ids_map().dom().finite(),
            self.ids_map().dom().len() == self.tokens().len(),
    {
        self.vocab.lemma_finite();
        let f = |k: Seq<u8>| self.vocab_map()[k];
        assert(injective_on(f, self.tokens())) by {
            assert forall|k1: Seq<u8>, k2: Seq<u8>|
                self.tokens().contains(k1) && self.tokens().contains(k2) && #[trigger] f(k1)
                    == #[trigger] f(k2) implies k1 == k2 by {
                assert(self.input_ids@[self.vocab@[k1]]@ == k1);
                assert(self.input_ids@[self.vocab@[k2]]@ == k2);
            }
        }
        assert(self.tokens().map(f) =~= self.ids_map().dom()) by {
            assert forall|i: usize| self.ids_map().dom().contains(i) implies self.tokens().map(
                f,
            ).contains(i) by {
                let k = self.input_ids@[i]@;
                assert(self.tokens().contains(k) && f(k) == i);
            }
        }
        lemma_map_size(self.tokens(), self.ids_map().dom(), f);
    }

    /// Decoding the ids whose bytes are the UTF-8 encoding of a text gives
    /// back that text: the bytes are valid UTF-8 and decode to it.
    pub proof fn lemma_decode_text(&self, text: Seq<char>, ids: Seq<usize>)
        requires
            self.decoded(ids) == encode_utf8(text),
        ensures
            valid_utf8(self.decoded(ids)),
            decode_utf8(self.decoded(ids)) == text,
    {
        vstd::utf8::encode_utf8_valid_utf8(text);
        vstd::utf8::encode_utf8_decode_utf8(text);
    }

    /// In greedy mode the tiebreaker setting changes nothing: two greedy
    /// tokenizers with the same vocabulary encode alike.
    pub proof fn lemma_greedy_ignores_tiebreaker(
        t1: &Tokenizer,
        t2: &Tokenizer,
        s: Seq<u8>,
        ids1: Seq<usize>,
        ids2: Seq<usize>,
    )
        requires
            t1.tokens() == t2.tokens(),
            t1.is_greedy(),
            t2.is_greedy(),
            t1.is_encoding(s, ids1),
            t2.is_encoding(s, ids2),
        ensures
            t1.tokens_of(ids1) == t2.tokens_of(ids2),
    {
    }

    /// A greedy encoding decodes to the input and takes, at each step, the
    /// longest vocabulary token that the rest of the input starts with.
    pub proof fn lemma_greedy_encoding_takes_longest(&self, s: Seq<u8>, ids: Seq<usize>)
        requires
            self.is_greedy(),
            self.is_encoding(s, ids),
        ensures
            self.decoded(ids) == s,
            is_longest_match_walk(self.tokens_of(ids), s, self.tokens()),
    {
        lemma_greedy_takes_longest(s, self.tokens());
    }

    /// A greedy tokenizer can encode an input exactly when taking longest
    /// matches from the start never gets stuck before the end of the input.
    pub proof fn lemma_greedy_encodable_iff_never_stuck(&self, s: Seq<u8>)
        requires
            self.is_greedy(),
        ensures
            self.encodable(s) <==> !exists|p: Seq<Seq<u8>>| #[trigger] is_stuck_walk(p, s, self.tokens()),
    {
        if greedy_segmentation(s, self.tokens()) is None {
            lemma_greedy_stuck(s, self.tokens());
        } else if exists|p: Seq<Seq<u8>>| #[trigger] is_stuck_walk(p, s, self.tokens()) {
            let p = choose|p: Seq<Seq<u8>>| #[trigger] is_stuck_walk(p, s, self.tokens());
            lemma_stuck_walk_blocks_greedy(s, self.tokens(), p);
        }
    }

    /// With random tie-breaking, the encodings an input can get are exactly
    /// its optimal segmentations: each one comes out for some valid draws.
    pub proof fn lemma_random_tiebreak_reaches_every_optimum(&self, s: Seq<u8>, toks: Seq<Seq<u8>>)
        requires
            !self.is_greedy(),
            self.uses_random_tiebreaker(),
            s.len() <= usize::MAX,
        ensures
            self.is_encoding_tokens(s, toks) <==> is_optimal_segmentation(toks, s, self.tokens()),
    {
        if is_optimal_segmentation(toks, s, self.tokens()) {
            lemma_every_optimum_reachable(s, self.tokens(), toks);
        }
    }

    /// The two tiebreakers choose among the same optimal segmentations:
    /// with the same vocabulary, both encodings have the same number of
    /// tokens and both decode to the input.
    pub proof fn lemma_tiebreakers_agree(
        t1: &Tokenizer,
        t2: &Tokenizer,
        s: Seq<u8>,
        ids1: Seq<usize>,
        ids2: Seq<usize>,
    )
        requires
            t1.tokens() == t2.tokens(),
            !t1.is_greedy(),
            !t2.is_greedy(),
            t1.is_encoding(s, ids1),
            t2.is_encoding(s, ids2),
        ensures
            ids1.len() == ids2.len(),
            t1.decoded(ids1) == s,
            t2.decoded(ids2) == s,
    {
        lemma_optimal_same_count(t1.tokens_of(ids1), t2.tokens_of(ids2), s, t1.tokens());
    }

    /// Decoding the ids of any segmentation of `s` into vocabulary tokens
    /// gives back `s`.
    pub proof fn lemma_decode_inverts_ids(&self, toks: Seq<Seq<u8>>, s: Seq<u8>)
        requires
            self.wf(),
            is_segmentation(toks, s, self.tokens()),
        ensures
            self.known_ids(self.ids_of(toks)),
            self.tokens_of(self.ids_of(toks)) == toks,
            self.decoded(self.ids_of(toks)) == s,
    {
        let ids = self.ids_of(toks);
        assert forall|j: int| 0 <= j < ids.len() implies self.ids_map().contains_key(
            #[trigger] ids[j],
        ) by {
            assert(self.tokens().contains(toks[j]));
        }
        assert forall|j: int| 0 <= j < toks.len() implies self.tokens_of(ids)[j] == toks[j] by {
            assert(self.tokens().contains(toks[j]));
        }
        assert(self.tokens_of(ids) =~= toks);
    }

    /// Whether `id` is the id of a token.
    pub fn is_known_id(&self, id: usize) -> (r: bool)
        ensures
            r == self.ids_map().contains_key(id),
    {
        self.input_ids.contains_key(&id)
    }

    /// The bytes that the ids stand for; every id must be in the vocabulary.
    pub fn decode_bytes(&self, optimal_ids: &Vec<usize>) -> (r: Vec<u8>)
        requires
            self.known_ids(optimal_ids@),
        ensures
            r@ == self.decoded(optimal_ids@),
    {
        proof {
            use_type_invariant(self);
        }
        let mut bytes: Vec<u8> = Vec::new();
        let mut j: usize = 0;
        assert(self.tokens_of(optimal_ids@.take(0)) =~= Seq::<Seq<u8>>::empty());
        while j < optimal_ids.len()
            invariant
                self.wf(),
                self.known_ids(optimal_ids@),
                j <= optimal_ids@.len(),
                bytes@ == join(self.tokens_of(optimal_ids@.take(j as int))),
            decreases optimal_ids@.len() - j,
        {
            let id = optimal_ids[j];
            assert(self.ids_map().contains_key(optimal_ids@[j as int]));
            match self.input_ids.get(&id) {
                Some(token) => {
                    let ghost prev = self.tokens_of(optimal_ids@.take(j as int));
                    append_bytes(&mut bytes, token.as_slice());
                    assert(self.tokens_of(optimal_ids@.take(j + 1)) =~= prev.push(token@));
                    proof {
                        lemma_join_push(prev, token@);
                    }
                },
                None => {
                    assert(false);
                },
            }
            j = j + 1;
        }
        assert(optimal_ids@.take(optimal_ids@.len() as int) =~= optimal_ids@);
        bytes
    }

    /// The text that the ids stand for, with invalid UTF-8 replaced; every
    /// id must be in the vocabulary.  Bytes that are valid UTF-8 give their
    /// text.
    pub fn decode(&self, optimal_ids: &Vec<usize>) -> (r: String)
        requires
            self.known_ids(optimal_ids@),
        ensures
            r@ == utf8_lossy_text(self.decoded(optimal_ids@)),
            valid_utf8(self.decoded(optimal_ids@)) ==> r@ == decode_utf8(self.decoded(optimal_ids@)),
    {
        let bytes = self.decode_bytes(optimal_ids);
        bytes_to_text(bytes.as_slice())
    }

    /// `decode_bytes` of each sample.
    pub fn decode_batch_bytes(&self, optimal_ids: &Vec<Vec<usize>>) -> (r: Vec<Vec<u8>>)
        requires
            forall|j: int| 0 <= j < optimal_ids@.len() ==> self.known_ids(#[trigger] optimal_ids@[j]@),
        ensures
            r@.len() == optimal_ids@.len(),
            forall|j: int| 0 <= j < r@.len() ==> (#[trigger] r@[j])@ == self.decoded(optimal_ids@[j]@),
    {
        let mut out: Vec<Vec<u8>> = Vec::new();
        let mut j: usize = 0;
        while j < optimal_ids.len()
            invariant
                forall|jj: int|
                    0 <= jj < optimal_ids@.len() ==> self.known_ids(#[trigger] optimal_ids@[jj]@),
                j <= optimal_ids@.len(),
                out@.len() == j,
                forall|jj: int|
                    0 <= jj < j ==> (#[trigger] out@[jj])@ == self.decoded(optimal_ids@[jj]@),
            decreases optimal_ids@.len() - j,
        {
            assert(self.known_ids(optimal_ids@[j as int]@));
            let bytes = self.decode_bytes(&optimal_ids[j]);
            out.push(bytes);
            j = j + 1;
        }
        out
    }

    /// `decode` of each sample.
    pub fn decode_batch(&self, optimal_ids: &Vec<Vec<usize>>) -> (r: Vec<String>)
        requires
            forall|j: int| 0 <= j < optimal_ids@.len() ==> self.known_ids(#[trigger] optimal_ids@[j]@),
        ensures
            r@.len() == optimal_ids@.len(),
            forall|j: int|
                0 <= j < r@.len() ==> (#[trigger] r@[j])@ == utf8_lossy_text(
                    self.decoded(optimal_ids@[j]@),
                ) && (valid_utf8(self.decoded(optimal_ids@[j]@)) ==> r@[j]@ == decode_utf8(
                    self.decoded(optimal_ids@[j]@),
                )),
    {
        let mut out: Vec<String> = Vec::new();
        let mut j: usize = 0;
        while j < optimal_ids.len()
            invariant
                forall|jj: int|
                    0 <= jj < optimal_ids@.len() ==> self.known_ids(#[trigger] optimal_ids@[jj]@),
                j <= optimal_ids@.len(),
                out@.len() == j,
                forall|jj: int|
                    0 <= jj < j ==> (#[trigger] out@[jj])@ == utf8_lossy_text(
                        self.decoded(optimal_ids@[jj]@),
                    ) && (valid_utf8(self.decoded(optimal_ids@[jj]@)) ==> out@[jj]@ == decode_utf8(
                        self.decoded(optimal_ids@[jj]@),
                    )),
            decreases optimal_ids@.len() - j,
        {
            assert(self.known_ids(optimal_ids@[j as int]@));
            let text = self.decode(&optimal_ids[j]);
            out.push(text);
            j = j + 1;
        }
        out
    }

    /// The input can be encoded in this tokenizer's mode: greedy encoding
    /// must never get stuck, and optimal encoding needs an input that can be
    /// segmented at all (the empty input is, into no tokens).
    pub open spec fn encodable(&self, s: Seq<u8>) -> bool {
        if self.is_greedy() {
            greedy_segmentation(s, self.tokens()) is Some
        } else {
            segmentable(s, self.tokens())
        }
    }

    /// `toks` is what this tokenizer's mode cuts `s` into: the greedy
    /// segmentation; else an optimal one, and, unless ties are broken at
    /// random, the optimal one that prefers wider tokens at the end.
    pub open spec fn is_encoding_tokens(&self, s: Seq<u8>, toks: Seq<Seq<u8>>) -> bool {
        if self.is_greedy() {
            greedy_segmentation(s, self.tokens()) == Some(toks)
        } else if self.uses_random_tiebreaker() {
            &&& is_optimal_segmentation(toks, s, self.tokens())
            &&& exists|draws: Seq<usize>|
                valid_draws(s, self.tokens(), draws) && toks == follow(
                    s,
                    #[trigger] reservoir_widths(s, self.tokens(), draws),
                    s.len(),
                )
        } else {
            is_optimal_segmentation(toks, s, self.tokens()) && toks == longest_segmentation(
                s,
                self.tokens(),
            )
        }
    }

    /// `ids` are the ids of what this tokenizer's mode cuts `s` into.
    pub open spec fn is_encoding(&self, s: Seq<u8>, ids: Seq<usize>) -> bool {
        self.known_ids(ids) && self.is_encoding_tokens(s, self.tokens_of(ids))
    }

    /// The length of the longest vocabulary token of at most `limit` bytes
    /// that `sample[i..]` starts with.
    fn longest_match(&self, sample: &[u8], i: usize, limit: usize) -> (r: usize)
        requires
            i <= sample@.len(),
            limit <= sample@.len() - i,
        ensures
            r == longest_prefix_len(sample@.skip(i as int), self.tokens(), limit as nat),
    {
        let ghost rest = sample@.skip(i as int);
        let n = sample.len();
        let mut j: usize = limit;
        while j > 0
            invariant
                n == sample@.len(),
                i <= sample@.len(),
                limit <= sample@.len() - i,
                j <= limit,
                rest == sample@.skip(i as int),
                longest_prefix_len(rest, self.tokens(), limit as nat) == longest_prefix_len(
                    rest,
                    self.tokens(),
                    j as nat,
                ),
            decreases j,
        {
            assert(rest.take(j as int) =~= sample@.subrange(i as int, i + j));
            if self.vocab.get_range(sample, i, i + j).is_some() {
                return j;
            }
            j = j - 1;
        }
        0
    }

    /// Greedy encoding: at each position take the longest vocabulary token
    /// that starts there.  `None` when at some position none does.
    fn greedy_encode_rust(&self, sample: &[u8]) -> (r: Option<Vec<Vec<u8>>>)
        requires
            self.wf(),
        ensures
            match r {
                Some(t) => greedy_segmentation(sample@, self.tokens()) == Some(byte_strings(t@)),
                None => greedy_segmentation(sample@, self.tokens()) is None,
            },
    {
        let n: usize = sample.len();
        let ghost vocab = self.tokens();
        let mut greedy_tokenization: Vec<Vec<u8>> = Vec::new();
        let mut i: usize = 0;
        assert(sample@.skip(0) =~= sample@);
        assert(byte_strings(greedy_tokenization@) =~= Seq::<Seq<u8>>::empty());
        while i < n
            invariant
                self.wf(),
                vocab == self.tokens(),
                n == sample@.len(),
                i <= n,
                greedy_segmentation(sample@, vocab) == match greedy_segmentation(
                    sample@.skip(i as int),
                    vocab,
                ) {
                    Some(rest) => Some(byte_strings(greedy_tokenization@) + rest),
                    None => None,
                },
            decreases n - i,
        {
            let ghost rest = sample@.skip(i as int);
            let cur_max_len = if self.max_len < n - i {
                self.max_len
            } else {
                n - i
            };
            let j = self.longest_match(sample, i, cur_max_len);
            proof {
                if self.max_len < n - i {
                    lemma_longest_prefix_len_capped(rest, vocab, (n - i) as nat, cur_max_len as nat);
                }
                lemma_longest_prefix_len(rest, vocab, (n - i) as nat);
            }
            if j == 0 {
                return None;
            }
            let token = bytes_range_to_vec(sample, i, i + j);
            let ghost before = byte_strings(greedy_tokenization@);
            greedy_tokenization.push(token);
            proof {
                assert(rest.take(j as int) =~= token@);
                assert(rest.skip(j as int) =~= sample@.skip(i + j));
                assert(byte_strings(greedy_tokenization@) =~= before.push(token@));
                match greedy_segmentation(sample@.skip(i + j), vocab) {
                    Some(r2) => {
                        assert(before + (seq![token@] + r2) =~= before.push(token@) + r2);
                    },
                    None => {},
                }
            }
            i = i + j;
        }
        proof {
            assert(sample@.skip(n as int) =~= Seq::<u8>::empty());
            assert(byte_strings(greedy_tokenization@) + Seq::<Seq<u8>>::empty()
                =~= byte_strings(greedy_tokenization@));
        }
        Some(greedy_tokenization)
    }

    /// Segments the input in this tokenizer's mode.  `None` when it cannot
    /// be encoded (see `encodable`).
    fn encode_rust(&self, sample: &[u8]) -> (r: Option<Vec<Vec<u8>>>)
        requires
            self.wf(),
        ensures
            r is Some <==> self.encodable(sample@),
            r matches Some(t) ==> self.is_encoding_tokens(sample@, byte_strings(t@)),
    {
        if self.greedy {
            self.greedy_encode_rust(sample)
        } else {
            if self.random_tiebreaker {
                let (tokens, _draws) = self.opt_encode_rust_random_tiebreaker(sample);
                tokens
            } else {
                self.opt_encode_rust_longest_tiebreaker(sample)
            }
        }
    }

    /// The ids of the tokens that this tokenizer's mode cuts the input into.
    /// `None` when the input cannot be encoded: in greedy mode when at some
    /// position no vocabulary token starts; otherwise when the input cannot
    /// be cut into vocabulary tokens.  The empty input is encoded as no ids
    /// in every mode.
    pub fn encode(&self, sample: &[u8]) -> (r: Option<Vec<usize>>)
        ensures
            r is Some <==> self.encodable(sample@),
            r matches Some(ids) ==> self.is_encoding(sample@, ids@) && self.decoded(ids@)
                == sample@,
    {
        proof {
            use_type_invariant(self);
        }
        let tokenization = match self.encode_rust(sample) {
            Some(t) => t,
            None => {
                return None;
            },
        };
        let ghost toks = byte_strings(tokenization@);
        proof {
            if self.greedy {
                lemma_greedy_is_segmentation(sample@, self.tokens());
            }
            assert(is_segmentation(toks, sample@, self.tokens()));
        }
        let mut optimal_indices: Vec<usize> = Vec::new();
        let mut j: usize = 0;
        while j < tokenization.len()
            invariant
                self.wf(),
                toks == byte_strings(tokenization@),
                is_segmentation(toks, sample@, self.tokens()),
                j <= tokenization@.len(),
                optimal_indices@ == self.ids_of(toks.take(j as int)),
            decreases tokenization@.len() - j,
        {
            assert(self.tokens().contains(toks[j as int]));
            let id = match self.vocab.get(tokenization[j].as_slice()) {
                Some(id) => id,
                None => {
                    assert(false);
                    return None;
                },
            };
            optimal_indices.push(id);
            j = j + 1;
            assert(optimal_indices@ =~= self.ids_of(toks.take(j as int)));
        }
        proof {
            assert(toks.take(toks.len() as int) =~= toks);
            self.lemma_decode_inverts_ids(toks, sample@);
        }
        Some(optimal_indices)
    }

    /// `encode` of each sample.  `None` when some sample cannot be encoded.
    pub fn encode_batch(&self, corpus: &Vec<Vec<u8>>) -> (r: Option<Vec<Vec<usize>>>)
        ensures
            r is Some <==> forall|j: int|
                0 <= j < corpus@.len() ==> self.encodable(#[trigger] corpus@[j]@),
            r matches Some(out) ==> out@.len() == corpus@.len() && forall|j: int|
                0 <= j < out@.len() ==> self.is_encoding(corpus@[j]@, (#[trigger] out@[j])@)
                    && self.decoded(out@[j]@) == corpus@[j]@,
    {
        proof {
            use_type_invariant(self);
        }
        let mut indices: Vec<Vec<usize>> = Vec::new();
        let mut j: usize = 0;
        while j < corpus.len()
            invariant
                self.wf(),
                j <= corpus@.len(),
                indices@.len() == j,
                forall|jj: int| 0 <= jj < j ==> self.encodable(#[trigger] corpus@[jj]@),
                forall|jj: int|
                    0 <= jj < j ==> self.is_encoding(corpus@[jj]@, (#[trigger] indices@[jj])@)
                        && self.decoded(indices@[jj]@) == corpus@[jj]@,
            decreases corpus@.len() - j,
        {
            match self.encode(corpus[j].as_slice()) {
                Some(ids) => {
                    indices.push(ids);
                },
                None => {
                    return None;
                },
            }
            j = j + 1;
        }
        Some(indices)
    }

    /// Optimal encoding (fewest tokens); among optimal encodings, walking
    /// back from the end, the widest last token is taken.  `None` when the
    /// input cannot be segmented; the empty input gives no tokens.
    fn opt_encode_rust_longest_tiebreaker(&self, sample: &[u8]) -> (r: Option<Vec<Vec<u8>>>)
        requires
            self.wf(),
        ensures
            r is Some <==> segmentable(sample@, self.tokens()),
            r matches Some(t) ==> byte_strings(t@) == longest_segmentation(sample@, self.tokens())
                && is_optimal_segmentation(byte_strings(t@), sample@, self.tokens()),
    {
        let n: usize = sample.len();
        let ghost vocab = self.tokens();
        let ghost s = sample@;
        proof {
            lemma_longest_widths_valid(s, vocab);
            lemma_follow_optimal(s, vocab, longest_widths(s, vocab));
        }
        if n == 0 {
            let none: Vec<Vec<u8>> = Vec::new();
            proof {
                let empty = Seq::<Seq<u8>>::empty();
                assert(join(empty) =~= s);
                assert(is_segmentation(empty, s, vocab));
                assert(byte_strings(none@) =~= empty);
            }
            return Some(none);
        }
        // for the first `end + 1` bytes: the width of the last token, and the
        // fewest tokens (0 while no segmentation is known)
        let mut widths: Vec<usize> = zeros(n);
        let mut path_length: Vec<usize> = zeros(n);
        let mut end: usize = 0;
        while end < n
            invariant
                self.wf(),
                vocab == self.tokens(),
                s == sample@,
                n == s.len(),
                end <= n,
                widths@.len() == n,
                path_length@.len() == n,
                forall|e: int|
                    0 <= e < end ==> path_length@[e] as nat == count_code(
                        #[trigger] opt_count(s, vocab, (e + 1) as nat),
                    ),
                forall|e: int| 0 <= e < end ==> #[trigger] widths@[e] == longest_widths(s, vocab)[e],
                forall|e: int| end <= e < n ==> widths@[e] == 0 && path_length@[e] == 0,
            decreases n - end,
        {
            let ghost i: nat = (end + 1) as nat;
            let top: usize = if self.max_len < end + 1 {
                self.max_len
            } else {
                end + 1
            };
            let mut width: usize = 0;
            while width < top
                invariant
                    self.wf(),
                    vocab == self.tokens(),
                    s == sample@,
                    n == s.len(),
                    end < n,
                    i == end + 1,
                    top <= end + 1,
                    width <= top,
                    widths@.len() == n,
                    path_length@.len() == n,
                    forall|e: int|
                        0 <= e < end ==> path_length@[e] as nat == count_code(
                            #[trigger] opt_count(s, vocab, (e + 1) as nat),
                        ),
                    forall|e: int|
                        0 <= e < end ==> #[trigger] widths@[e] == longest_widths(s, vocab)[e],
                    forall|e: int| end < e < n ==> widths@[e] == 0 && path_length@[e] == 0,
                    path_length@[end as int] as nat == count_code(
                        best(s, vocab, i, width as nat).0,
                    ),
                    widths@[end as int] as nat == best(s, vocab, i, width as nat).1,
                decreases top - width,
            {
                let ghost done = width;
                width = width + 1;
                let start = end + 1 - width;
                proof {
                    lemma_best(s, vocab, i, done as nat);
                    lemma_opt_count_bound(s, vocab, start as nat);
                    lemma_cand_positive(s, vocab, i, done as nat);
                    if start > 0 {
                        let e = start - 1;
                        assert(path_length@[e as int] as nat == count_code(
                            opt_count(s, vocab, (e as int + 1) as nat),
                        ));
                        assert((e as int + 1) as nat == start as nat);
                    }
                }
                if self.vocab.get_range(sample, start, end + 1).is_some() {
                    if start == 0 {
                        widths.set(end, width);
                        path_length.set(end, 1);
                    } else {
                        let prev = path_length[start - 1];
                        assert(prev as nat == count_code(opt_count(s, vocab, start as nat)));
                        // a prefix that cannot be segmented (count 0) ends no path
                        if prev != 0 {
                            if prev + 1 == path_length[end] {
                                widths.set(end, width);
                            } else if path_length[end] == 0 || prev + 1 < path_length[end] {
                                widths.set(end, width);
                                path_length.set(end, prev + 1);
                            }
                        }
                    }
                } else {
                    assert(cand(s, vocab, i, width as nat) is None);
                }
                proof {
                    assert(width as nat >= 1);
                    assert(best(s, vocab, i, width as nat) == best_step(
                        best(s, vocab, i, done as nat),
                        cand(s, vocab, i, width as nat),
                        width as nat,
                    ));
                }
            }
            proof {
                if top < end + 1 {
                    lemma_best_capped(s, vocab, i, i, top as nat);
                }
            }
            end = end + 1;
        }
        assert(path_length@[n - 1] as nat == count_code(opt_count(s, vocab, ((n - 1) as int + 1) as nat)));
        assert(((n - 1) as int + 1) as nat == n as nat);
        if path_length[n - 1] == 0 {
            assert(opt_count(s, vocab, n as nat) is None);
            return None;
        }
        assert(widths@ =~= longest_widths(s, vocab));
        let out = backtrack(sample, &widths, Ghost(vocab));
        Some(out)
    }

    /// Optimal encoding (fewest tokens); ties between optimal last tokens
    /// are broken at random by a generator seeded with `SEED`: at each
    /// prefix, the `count`-th width that reaches the fewest count replaces
    /// the kept one when a draw from `1..=count` is 1.  Returns the tokens
    /// (`None` when the input cannot be segmented; the empty input gives no
    /// tokens) and the draws taken, in order.
    fn opt_encode_rust_random_tiebreaker(&self, sample: &[u8]) -> (r: (
        Option<Vec<Vec<u8>>>,
        Ghost<Seq<usize>>,
    ))
        requires
            self.wf(),
        ensures
            valid_draws(sample@, self.tokens(), r.1@),
            r.0 is Some <==> segmentable(sample@, self.tokens()),
            r.0 matches Some(t) ==> {
                &&& byte_strings(t@) == follow(
                    sample@,
                    reservoir_widths(sample@, self.tokens(), r.1@),
                    sample@.len(),
                )
                &&& is_optimal_segmentation(byte_strings(t@), sample@, self.tokens())
            },
    {
        let n: usize = sample.len();
        let ghost vocab = self.tokens();
        let ghost s = sample@;
        let ghost mut draws: Seq<usize> = Seq::empty();
        proof {
            lemma_longest_widths_valid(s, vocab);
            lemma_follow_optimal(s, vocab, longest_widths(s, vocab));
        }
        if n == 0 {
            let none: Vec<Vec<u8>> = Vec::new();
            proof {
                let empty = Seq::<Seq<u8>>::empty();
                assert(join(empty) =~= s);
                assert(is_segmentation(empty, s, vocab));
                assert(byte_strings(none@) =~= empty);
            }
            return (Some(none), Ghost(draws));
        }
        // for the first `end + 1` bytes: the width of the last token, the
        // fewest tokens (0 while no segmentation is known), and how many
        // widths reach that count
        let mut widths: Vec<usize> = zeros(n);
        let mut path_length: Vec<usize> = zeros(n);
        let mut solution_count: Vec<usize> = zeros(n);
        let mut rng = seeded_rng(SEED);
        let mut end: usize = 0;
        while end < n
            invariant
                self.wf(),
                vocab == self.tokens(),
                s == sample@,
                n == s.len(),
                end <= n,
                widths@.len() == n,
                path_length@.len() == n,
                solution_count@.len() == n,
                valid_widths(s, vocab, widths@, end as nat),
                forall|e: int|
                    0 <= e < end ==> path_length@[e] as nat == count_code(
                        #[trigger] opt_count(s, vocab, (e + 1) as nat),
                    ),
                forall|e: int|
                    end <= e < n ==> widths@[e] == 0 && path_length@[e] == 0 && solution_count@[e]
                        == 0,
                forall|e: int|
                    0 <= e < end ==> #[trigger] widths@[e] as nat == reservoir_width(
                        s,
                        vocab,
                        draws,
                        (e + 1) as nat,
                        (e + 1) as nat,
                    ),
                draws.len() == draw_bounds_before(s, vocab, (end + 1) as nat).len(),
                forall|j: int|
                    0 <= j < draws.len() ==> 1 <= #[trigger] draws[j] <= draw_bounds_before(
                        s,
                        vocab,
                        (end + 1) as nat,
                    )[j],
            decreases n - end,
        {
            let ghost i: nat = (end + 1) as nat;
            let top: usize = if self.max_len < end + 1 {
                self.max_len
            } else {
                end + 1
            };
            let mut width: usize = 0;
            while width < top
                invariant
                    self.wf(),
                    vocab == self.tokens(),
                    s == sample@,
                    n == s.len(),
                    end < n,
                    i == end + 1,
                    top <= end + 1,
                    width <= top,
                    widths@.len() == n,
                    path_length@.len() == n,
                    solution_count@.len() == n,
                    valid_widths(s, vocab, widths@, end as nat),
                    forall|e: int|
                        0 <= e < end ==> path_length@[e] as nat == count_code(
                            #[trigger] opt_count(s, vocab, (e + 1) as nat),
                        ),
                    forall|e: int|
                        end < e < n ==> widths@[e] == 0 && path_length@[e] == 0
                            && solution_count@[e] == 0,
                    match best(s, vocab, i, width as nat).0 {
                        Some(c) => path_length@[end as int] == c && 1 <= widths@[end as int] <= width
                            && cand(s, vocab, i, widths@[end as int] as nat) == Some(c)
                            && solution_count@[end as int] == tie_count(s, vocab, i, width as nat)
                            && 1 <= solution_count@[end as int] <= width,
                        None => path_length@[end as int] == 0 && solution_count@[end as int] == 0,
                    },
                    widths@[end as int] as nat == reservoir_width(s, vocab, draws, i, width as nat),
                    forall|e: int|
                        0 <= e < end ==> #[trigger] widths@[e] as nat == reservoir_width(
                            s,
                            vocab,
                            draws,
                            (e + 1) as nat,
                            (e + 1) as nat,
                        ),
                    draws.len() == draw_bounds_before(s, vocab, i).len() + draw_bounds_at(
                        s,
                        vocab,
                        i,
                        width as nat,
                    ).len(),
                    forall|j: int|
                        0 <= j < draws.len() ==> 1 <= #[trigger] draws[j] <= (draw_bounds_before(
                            s,
                            vocab,
                            i,
                        ) + draw_bounds_at(s, vocab, i, width as nat))[j],
                decreases top - width,
            {
                let ghost done = width;
                let ghost old_draws = draws;
                width = width + 1;
                let start = end + 1 - width;
                proof {
                    lemma_best(s, vocab, i, done as nat);
                    lemma_opt_count_bound(s, vocab, start as nat);
                    lemma_cand_positive(s, vocab, i, done as nat);
                    if start > 0 {
                        let e = start - 1;
                        assert(path_length@[e as int] as nat == count_code(
                            opt_count(s, vocab, (e as int + 1) as nat),
                        ));
                        assert((e as int + 1) as nat == start as nat);
                    } else {
                        // no narrower width reaches a single token
                        if let Some(c) = best(s, vocab, i, done as nat).0 {
                            let w = best(s, vocab, i, done as nat).1;
                            lemma_opt_count_bound(s, vocab, (i - w) as nat);
                            assert(c >= 2);
                        }
                    }
                }
                if self.vocab.get_range(sample, start, end + 1).is_some() {
                    if start == 0 {
                        widths.set(end, width);
                        path_length.set(end, 1);
                        solution_count.set(end, 1);
                    } else {
                        let prev = path_length[start - 1];
                        assert(prev as nat == count_code(opt_count(s, vocab, start as nat)));
                        // a prefix that cannot be segmented (count 0) ends no path
                        if prev != 0 {
                            if prev + 1 == path_length[end] {
                                let count = solution_count[end] + 1;
                                solution_count.set(end, count);
                                let draw = gen_range_inclusive(&mut rng, 1, count);
                                let kept = reservoir_step(widths[end], width, draw);
                                widths.set(end, kept);
                                proof {
                                    draws = old_draws.push(draw);
                                    assert forall|e: int| 0 <= e < end implies #[trigger] widths@[e]
                                        as nat == reservoir_width(
                                        s,
                                        vocab,
                                        draws,
                                        (e + 1) as nat,
                                        (e + 1) as nat,
                                    ) by {
                                        lemma_draw_bounds_before_grow(
                                            s,
                                            vocab,
                                            (e + 2) as nat,
                                            i,
                                        );
                                        lemma_reservoir_prefix(
                                            s,
                                            vocab,
                                            old_draws,
                                            draws,
                                            (e + 1) as nat,
                                            (e + 1) as nat,
                                        );
                                    }
                                }
                            } else if path_length[end] == 0 || prev + 1 < path_length[end] {
                                widths.set(end, width);
                                path_length.set(end, prev + 1);
                                solution_count.set(end, 1);
                            }
                        }
                    }
                } else {
                    assert(cand(s, vocab, i, width as nat) is None);
                }
                proof {
                    assert(best(s, vocab, i, width as nat) == best_step(
                        best(s, vocab, i, done as nat),
                        cand(s, vocab, i, width as nat),
                        width as nat,
                    ));
                    lemma_reservoir_prefix(s, vocab, old_draws, draws, i, done as nat);
                    assert(draw_bounds_before(s, vocab, i) + draw_bounds_at(s, vocab, i, width as nat)
                        =~= if is_tie(s, vocab, i, width as nat) {
                        (draw_bounds_before(s, vocab, i) + draw_bounds_at(
                            s,
                            vocab,
                            i,
                            done as nat,
                        )).push(tie_count(s, vocab, i, width as nat))
                    } else {
                        draw_bounds_before(s, vocab, i) + draw_bounds_at(s, vocab, i, done as nat)
                    });
                }
            }
            proof {
                if top < end + 1 {
                    lemma_best_capped(s, vocab, i, i, top as nat);
                    lemma_reservoir_capped(s, vocab, draws, i, i, top as nat);
                }
                assert(draw_bounds_before(s, vocab, i + 1) == draw_bounds_before(s, vocab, i)
                    + draw_bounds_at(s, vocab, i, i));
            }
            end = end + 1;
        }
        proof {
            assert(s.len() + 1 == n + 1);
        }
        assert(path_length@[n - 1] as nat == count_code(opt_count(s, vocab, ((n - 1) as int + 1) as nat)));
        assert(((n - 1) as int + 1) as nat == n as nat);
        if path_length[n - 1] == 0 {
            assert(opt_count(s, vocab, n as nat) is None);
            return (None, Ghost(draws));
        }
        proof {
            lemma_follow_optimal(s, vocab, widths@);
        }
        assert forall|e: int| 0 <= e < n implies widths@[e] == reservoir_widths(s, vocab, draws)[e] by {
            assert(widths@[e] as nat == reservoir_width(s, vocab, draws, (e + 1) as nat, (e + 1) as nat));
        }
        assert(widths@ =~= reservoir_widths(s, vocab, draws));
        let out = backtrack(sample, &widths, Ghost(vocab));
        (Some(out), Ghost(draws))
    }
}

/// One step of reservoir sampling over the optimal widths of a prefix: the
/// new width replaces the kept one exactly when the draw, taken uniformly
/// from `1..=count` where `count` widths have been seen, is 1.  So each of
/// the widths seen is kept with the same chance.
pub fn reservoir_step(kept: usize, candidate: usize, draw: usize) -> (r: usize)
    ensures
        r == (if draw == 1 { candidate } else { kept }),
{
    if draw == 1 {
        candidate
    } else {
        kept
    }
}

/// One step of `best`: combine the best so far with the count reached by
/// width `k`.
spec fn best_step(prev: (Option<nat>, nat), c: Option<nat>, k: nat) -> (Option<nat>, nat) {
    match c {
        Some(v) => match prev.0 {
            Some(p) => if v <= p {
                (Some(v), k)
            } else {
                prev
            },
            None => (Some(v), k),
        },
        None => prev,
    }
}

/// Number code of a token count: the count itself, or 0 for none.
pub open spec fn count_code(c: Option<nat>) -> nat {
    match c {
        Some(k) => k,
        None => 0,
    }
}

/// Every count that `best` finds is at least 1.
proof fn lemma_cand_positive(s: Seq<u8>, vocab: Set<Seq<u8>>, i: nat, k: nat)
    ensures
        forall|w: nat| #[trigger] cand(s, vocab, i, w) matches Some(c) ==> c >= 1,
        best(s, vocab, i, k).0 matches Some(c) ==> c >= 1,
{
    lemma_best(s, vocab, i, k);
}

/// Walks back from the end along `widths` and returns the tokens cut off, in
/// order.
fn backtrack(sample: &[u8], widths: &Vec<usize>, Ghost(vocab): Ghost<Set<Seq<u8>>>) -> (r: Vec<
    Vec<u8>,
>)
    requires
        sample@.len() > 0,
        widths@.len() == sample@.len(),
        valid_widths(sample@, vocab, widths@, sample@.len()),
        opt_count(sample@, vocab, sample@.len()) is Some,
    ensures
        byte_strings(r@) == follow(sample@, widths@, sample@.len()),
{
    let n = sample.len();
    let ghost s = sample@;
    let ghost ws = widths@;
    let mut optimal_tokenization: Vec<Vec<u8>> = Vec::new();
    let mut end: usize = n - 1;
    let ghost mut acc: Seq<Seq<u8>> = Seq::empty();
    assert(follow(s, ws, n as nat) =~= follow(s, ws, n as nat) + acc);
    assert(byte_strings(optimal_tokenization@).reverse() =~= acc);
    loop
        invariant_except_break
            n == s.len(),
            s == sample@,
            ws == widths@,
            end < n,
            widths@.len() == n,
            valid_widths(s, vocab, ws, n as nat),
            opt_count(s, vocab, (end + 1) as nat) is Some,
            follow(s, ws, n as nat) == follow(s, ws, (end + 1) as nat) + acc,
            byte_strings(optimal_tokenization@).reverse() == acc,
        ensures
            follow(s, ws, n as nat) == acc,
            byte_strings(optimal_tokenization@).reverse() == acc,
        decreases end,
    {
        let width = widths[end];
        assert(opt_count(s, vocab, (end as int + 1) as nat) is Some);
        let start = 1 + end - width;
        let token = bytes_range_to_vec(sample, start, end + 1);
        let ghost old_acc = acc;
        let ghost old_rev = byte_strings(optimal_tokenization@);
        proof {
            acc = seq![token@] + acc;
        }
        optimal_tokenization.push(token);
        proof {
            assert(byte_strings(optimal_tokenization@) =~= old_rev.push(token@));
            assert(old_rev.push(token@).reverse() =~= seq![token@] + old_rev.reverse());
            let prefix = follow(s, ws, start as nat);
            assert(follow(s, ws, (end + 1) as nat) == prefix.push(token@));
            assert(prefix.push(token@) + old_acc =~= prefix + acc);
            if start == 0 {
                assert(prefix =~= Seq::<Seq<u8>>::empty());
                assert(prefix + acc =~= acc);
            }
        }
        if end < width {
            break;
        }
        end = end - width;
    }
    let mut out: Vec<Vec<u8>> = Vec::new();
    assert(byte_strings(out@) + byte_strings(optimal_tokenization@).reverse() =~= acc);
    while optimal_tokenization.len() > 0
        invariant
            byte_strings(out@) + byte_strings(optimal_tokenization@).reverse() == acc,
        decreases optimal_tokenization@.len(),
    {
        let ghost before_out = byte_strings(out@);
        let ghost before_rev = byte_strings(optimal_tokenization@);
        let t = optimal_tokenization.pop().unwrap();
        out.push(t);
        proof {
            assert(byte_strings(out@) =~= before_out.push(t@));
            assert(before_rev =~= byte_strings(optimal_tokenization@).push(t@));
            assert(before_rev.reverse() =~= seq![t@] + byte_strings(optimal_tokenization@).reverse());
            assert(before_out.push(t@) + byte_strings(optimal_tokenization@).reverse() =~= before_out
                + before_rev.reverse());
        }
    }
    assert(byte_strings(out@) =~= byte_strings(out@) + byte_strings(optimal_tokenization@).reverse());
    out
}

/// The length of the longest key; the map must not be empty.
fn max_key_len(vocab: &ByteTrie) -> (r: usize)
    requires
        vocab.wf(),
        exists|k: Seq<u8>| vocab@.contains_key(k),
    ensures
        forall|k: Seq<u8>| #[trigger] vocab@.contains_key(k) ==> k.len() <= r,
        exists|k: Seq<u8>| #[trigger] vocab@.contains_key(k) && k.len() == r,
{
    let entries = vocab.entries();
    let ghost kl = vocab.key_list();
    proof {
        let k = choose|k: Seq<u8>| vocab@.contains_key(k);
        assert(kl.contains(k));
    }
    let mut best: usize = entries[0].0.len();
    let mut j: usize = 1;
    while j < entries.len()
        invariant
            vocab.wf(),
            kl == vocab.key_list(),
            entries@.len() == kl.len(),
            forall|jj: int|
                0 <= jj < entries@.len() ==> (#[trigger] entries@[jj]).0@ == kl[jj]
                    && vocab@.contains_key(entries@[jj].0@),
            1 <= j <= entries@.len(),
            forall|jj: int| 0 <= jj < j ==> (#[trigger] kl[jj]).len() <= best,
            exists|jj: int| 0 <= jj < j && (#[trigger] kl[jj]).len() == best,
        decreases entries@.len() - j,
    {
        let len = entries[j].0.len();
        assert(kl[j as int].len() == len);
        if len > best {
            best = len;
        }
        j = j + 1;
    }
    proof {
        assert forall|k: Seq<u8>| #[trigger] vocab@.contains_key(k) implies k.len() <= best by {
            assert(kl.contains(k));
            let jj = choose|jj: int| 0 <= jj < kl.len() && kl[jj] == k;
        }
        let jj = choose|jj: int| 0 <= jj < j && (#[trigger] kl[jj]).len() == best;
        assert(vocab@.contains_key(kl[jj]));
    }
    best
}

/// The inverse of an injective map: each id to its token.
fn flip_vocab(vocab: &ByteTrie) -> (ids: HashMap<usize, Vec<u8>>)
    requires
        vocab.wf(),
        forall|k1: Seq<u8>, k2: Seq<u8>|
            #[trigger] vocab@.contains_key(k1) && #[trigger] vocab@.contains_key(k2) && vocab@[k1]
                == vocab@[k2] ==> k1 == k2,
    ensures
        forall|k: Seq<u8>|
            #[trigger] vocab@.contains_key(k) ==> ids@.contains_key(vocab@[k]) && ids@[vocab@[k]]@
                == k,
        forall|i: usize|
            #[trigger] ids@.contains_key(i) ==> vocab@.contains_key(ids@[i]@) && vocab@[ids@[i]@]
                == i,
{
    let entries = vocab.entries();
    let ghost kl = vocab.key_list();
    let mut ids: HashMap<usize, Vec<u8>> = HashMap::new();
    let mut j: usize = 0;
    while j < entries.len()
        invariant
            vocab.wf(),
            forall|k1: Seq<u8>, k2: Seq<u8>|
                #[trigger] vocab@.contains_key(k1) && #[trigger] vocab@.contains_key(k2)
                    && vocab@[k1] == vocab@[k2] ==> k1 == k2,
            kl == vocab.key_list(),
            entries@.len() == kl.len(),
            forall|jj: int|
                0 <= jj < entries@.len() ==> (#[trigger] entries@[jj]).0@ == kl[jj]
                    && vocab@.contains_key(entries@[jj].0@) && vocab@[entries@[jj].0@]
                    == entries@[jj].1,
            j <= entries@.len(),
            forall|jj: int|
                0 <= jj < j ==> ids@.contains_key((#[trigger] entries@[jj]).1) && ids@[entries@[jj].1]@
                    == entries@[jj].0@,
            forall|i: usize|
                #[trigger] ids@.contains_key(i) ==> exists|jj: int|
                    0 <= jj < j && (#[trigger] entries@[jj]).1 == i,
        decreases entries@.len() - j,
    {
        let id = entries[j].1;
        let token = bytes_to_vec(entries[j].0.as_slice());
        let ghost old_ids = ids@;
        ids.insert(id, token);
        proof {
            assert forall|jj: int| 0 <= jj < j + 1 implies ids@.contains_key(
                (#[trigger] entries@[jj]).1,
            ) && ids@[entries@[jj].1]@ == entries@[jj].0@ by {
                if jj < j {
                    assert(kl[jj] != kl[j as int]);
                    assert(entries@[jj].1 != id);
                }
            }
            assert forall|i: usize| #[trigger] ids@.contains_key(i) implies exists|jj: int|
                0 <= jj < j + 1 && (#[trigger] entries@[jj]).1 == i by {
                if i == id {
                    assert(entries@[j as int].1 == i);
                } else {
                    assert(old_ids.contains_key(i));
                }
            }
        }
        j = j + 1;
    }
    proof {
        assert forall|k: Seq<u8>| #[trigger] vocab@.contains_key(k) implies ids@.contains_key(
            vocab@[k],
        ) && ids@[vocab@[k]]@ == k by {
            assert(kl.contains(k));
            let jj = choose|jj: int| 0 <= jj < kl.len() && kl[jj] == k;
            assert(entries@[jj].0@ == k);
        }
        assert forall|i: usize| #[trigger] ids@.contains_key(i) implies vocab@.contains_key(
            ids@[i]@,
        ) && vocab@[ids@[i]@] == i by {
            let jj = choose|jj: int| 0 <= jj < entries@.len() && (#[trigger] entries@[jj]).1 == i;
        }
    }
    ids
}

/// The byte strings held by a list of byte vectors.
pub open spec fn byte_strings(v: Seq<Vec<u8>>) -> Seq<Seq<u8>> {
    v.map_values(|t: Vec<u8>| t@)
}

/// A name for the text that `String::from_utf8_lossy` makes of a byte
/// string: valid UTF-8 sequences decoded, invalid ones replaced by U+FFFD.
pub uninterp spec fn utf8_lossy_text(bytes: Seq<u8>) -> Seq<char>;

/// Calls `String::from_utf8_lossy` (and takes the owned string).  The
/// contract ties the result to the bytes through the name `utf8_lossy_text`,
/// and states what the documentation says of valid input: bytes that are
/// valid UTF-8 give exactly the text they encode.  What replaces invalid
/// sequences is not stated.
#[verifier::external_body]
fn bytes_to_text(bytes: &[u8]) -> (r: String)
    ensures
        r@ == utf8_lossy_text(bytes@),
        valid_utf8(bytes@) ==> r@ == decode_utf8(bytes@),
{
    String::from_utf8_lossy(bytes).into_owned()
}

/// Appends the bytes of `t` to `out`.
fn append_bytes(out: &mut Vec<u8>, t: &[u8])
    ensures
        final(out)@ == old(out)@ + t@,
{
    let ghost start = out@;
    let mut i: usize = 0;
    while i < t.len()
        invariant
            i <= t@.len(),
            out@ == start + t@.subrange(0, i as int),
        decreases t@.len() - i,
    {
        out.push(t[i]);
        i = i + 1;
        assert(out@ =~= start + t@.subrange(0, i as int));
    }
    assert(t@.subrange(0, t@.len() as int) =~= t@);
}

/// A vector of `n` zeros.
fn zeros(n: usize) -> (v: Vec<usize>)
    ensures
        v@.len() == n,
        forall|j: int| 0 <= j < n ==> v@[j] == 0,
{
    let mut v: Vec<usize> = Vec::new();
    let mut i: usize = 0;
    while i < n
        invariant
            i <= n,
            v@.len() == i,
            forall|j: int| 0 <= j < i ==> v@[j] == 0,
        decreases n - i,
    {
        v.push(0);
        i = i + 1;
    }
    v
}

} // verus!
