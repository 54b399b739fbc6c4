use pathpiece::configuration::{read_vocab, SEED};
use pathpiece::tokenizer::{reservoir_step, Tokenizer};
use pathpiece::trie::ByteTrie;

/// The lines of a vocabulary file: each token hex-encoded.
fn hex_lines(tokens: &[&[u8]]) -> Vec<Vec<u8>> {
    tokens
        .iter()
        .map(|t| t.iter().map(|b| format!("{:02x}", b)).collect::<String>().into_bytes())
        .collect()
}

const SPECIAL: &[u8] = b"<|endoftext|>";

fn tokenizer(tokens: &[&[u8]], greedy: bool, random_tiebreaker: bool) -> Tokenizer {
    Tokenizer::new(&hex_lines(tokens), SPECIAL, greedy, random_tiebreaker)
}

fn tokens_of(t: &Tokenizer, ids: &[usize]) -> Vec<Vec<u8>> {
    ids.iter().map(|&id| t.decode_bytes(&vec![id])).collect()
}

#[test]
fn seed_is_42() {
    assert_eq!(SEED, 42);
}

#[test]
fn read_vocab_assigns_ids_in_order() {
    let v: ByteTrie = read_vocab(&hex_lines(&[b"a", b"b", b"ab"]), SPECIAL.to_vec());
    assert_eq!(v.get(SPECIAL), Some(0));
    assert_eq!(v.get(b"a"), Some(1));
    assert_eq!(v.get(b"b"), Some(2));
    assert_eq!(v.get(b"ab"), Some(3));
    assert_eq!(v.get(b"ba"), None);
    assert_eq!(v.get(b""), None);
}

#[test]
fn read_vocab_skips_special_and_keeps_later_id_of_duplicate() {
    let v = read_vocab(&hex_lines(&[b"a", SPECIAL, b"b", b"a"]), SPECIAL.to_vec());
    assert_eq!(v.get(SPECIAL), Some(0));
    assert_eq!(v.get(b"b"), Some(2));
    assert_eq!(v.get(b"a"), Some(3));
    assert_eq!(v.entries().len(), 3);
}

#[test]
fn read_vocab_decodes_upper_and_lower_case_hex() {
    let lines = vec![b"4a6b".to_vec(), b"FF".to_vec(), b"".to_vec()];
    let v = read_vocab(&lines, vec![0u8]);
    assert_eq!(v.get(b"Jk"), Some(1));
    assert_eq!(v.get(&[0xff]), Some(2));
    assert_eq!(v.get(b""), Some(3));
    assert_eq!(v.get(&[0u8]), Some(0));
}

#[test]
fn trie_insert_and_lookup() {
    let mut t = ByteTrie::new();
    assert_eq!(t.insert(b"abc", 7), None);
    assert_eq!(t.insert(b"ab", 8), None);
    assert_eq!(t.insert(b"abc", 9), Some(7));
    assert_eq!(t.get(b"abc"), Some(9));
    assert_eq!(t.get(b"ab"), Some(8));
    assert_eq!(t.get(b"a"), None);
    assert_eq!(t.get_range(b"xabcx", 1, 4), Some(9));
    assert_eq!(t.get_range(b"xabcx", 1, 3), Some(8));
    let mut e = t.entries();
    e.sort();
    assert_eq!(e, vec![(b"ab".to_vec(), 8), (b"abc".to_vec(), 9)]);
}

#[test]
fn max_len_is_longest_token() {
    let t = tokenizer(&[b"a", b"abcd", b"bc"], false, false);
    assert_eq!(t.get_max_len(), SPECIAL.len());
    let t = Tokenizer::new(&hex_lines(&[b"a", b"abcd", b"bc"]), b"", false, false);
    assert_eq!(t.get_max_len(), 4);
}

#[test]
fn vocab_and_ids_are_inverse() {
    let t = tokenizer(&[b"a", b"b", b"ab", b"a"], false, false);
    let mut vocab = t.get_vocab();
    vocab.sort();
    let mut expected = vec![
        (SPECIAL.to_vec(), 0),
        (b"b".to_vec(), 2),
        (b"ab".to_vec(), 3),
        (b"a".to_vec(), 4),
    ];
    expected.sort();
    assert_eq!(vocab, expected);
    let mut ids = t.get_ids();
    ids.sort();
    assert_eq!(
        ids,
        vec![(0, SPECIAL.to_vec()), (2, b"b".to_vec()), (3, b"ab".to_vec()), (4, b"a".to_vec())]
    );
}

#[test]
fn greedy_takes_longest_prefix() {
    let t = tokenizer(&[b"a", b"b", b"c", b"ab", b"bc", b"abc"], true, false);
    let ids = t.encode(b"abcab").unwrap();
    assert_eq!(tokens_of(&t, &ids), vec![b"abc".to_vec(), b"ab".to_vec()]);
    assert_eq!(ids, vec![6, 4]);
}

#[test]
fn greedy_can_get_stuck() {
    let t = tokenizer(&[b"a", b"ab", b"bc"], true, false);
    assert_eq!(t.encode(b"abc"), None);
    let o = tokenizer(&[b"a", b"ab", b"bc"], false, false);
    let ids = o.encode(b"abc").unwrap();
    assert_eq!(tokens_of(&o, &ids), vec![b"a".to_vec(), b"bc".to_vec()]);
}

#[test]
fn greedy_on_empty_input() {
    let t = tokenizer(&[b"a"], true, false);
    assert_eq!(t.encode(b""), Some(vec![]));
}

#[test]
fn optimal_on_empty_input_is_empty() {
    let t = tokenizer(&[b"a"], false, false);
    assert_eq!(t.encode(b""), Some(vec![]));
    let t = tokenizer(&[b"a"], false, true);
    assert_eq!(t.encode(b""), Some(vec![]));
}

#[test]
fn optimal_uses_fewest_tokens() {
    // greedy: "ab" "c" "d" ; optimal: "a" "bcd"
    let lines: &[&[u8]] = &[b"a", b"b", b"c", b"d", b"ab", b"bcd"];
    let g = tokenizer(lines, true, false);
    let o = tokenizer(lines, false, false);
    let gi = g.encode(b"abcd").unwrap();
    let oi = o.encode(b"abcd").unwrap();
    assert_eq!(tokens_of(&g, &gi), vec![b"ab".to_vec(), b"c".to_vec(), b"d".to_vec()]);
    assert_eq!(tokens_of(&o, &oi), vec![b"a".to_vec(), b"bcd".to_vec()]);
    assert!(oi.len() <= gi.len());
}

#[test]
fn longest_tiebreaker_prefers_wide_last_token() {
    // "aba" = "ab" + "a" = "a" + "ba": both two tokens; the wider last token wins
    let t = tokenizer(&[b"a", b"b", b"ab", b"ba"], false, false);
    let ids = t.encode(b"aba").unwrap();
    assert_eq!(tokens_of(&t, &ids), vec![b"a".to_vec(), b"ba".to_vec()]);
    assert_eq!(ids, vec![1, 4]);
}

#[test]
fn random_tiebreaker_is_optimal() {
    let t = tokenizer(&[b"a", b"b", b"ab", b"ba"], false, true);
    let ids = t.encode(b"aba").unwrap();
    assert_eq!(ids.len(), 2);
    let toks = tokens_of(&t, &ids);
    assert!(
        toks == vec![b"a".to_vec(), b"ba".to_vec()] || toks == vec![b"ab".to_vec(), b"a".to_vec()]
    );
    assert_eq!(t.decode_bytes(&ids), b"aba".to_vec());
    let long = t.encode(b"abababab").unwrap();
    assert_eq!(long.len(), 4);
}

#[test]
fn optimal_none_when_not_segmentable() {
    let t = tokenizer(&[b"a", b"bc"], false, false);
    assert_eq!(t.encode(b"ab"), None);
    let t = tokenizer(&[b"a", b"bc"], false, true);
    assert_eq!(t.encode(b"ab"), None);
    // a prefix that cannot be segmented does not stop a later token
    let t = tokenizer(&[b"ab", b"b", b"c"], false, false);
    let ids = t.encode(b"abc").unwrap();
    assert_eq!(tokens_of(&t, &ids), vec![b"ab".to_vec(), b"c".to_vec()]);
}

#[test]
fn decode_roundtrip() {
    for (greedy, random) in [(true, false), (false, false), (false, true)] {
        let t = tokenizer(&[b"t", b"h", b"e", b" ", b"th", b"he", b"the", b"e "], greedy, random);
        let s = b"the the theth".to_vec();
        let ids = t.encode(&s).unwrap();
        assert_eq!(t.decode_bytes(&ids), s);
        assert_eq!(t.decode(&ids), "the the theth".to_string());
    }
}

#[test]
fn known_ids() {
    let t = tokenizer(&[b"a"], false, false);
    assert!(t.is_known_id(0));
    assert!(t.is_known_id(1));
    assert!(!t.is_known_id(2));
    assert!(!t.is_known_id(7));
    assert_eq!(t.decode_bytes(&vec![]), Vec::<u8>::new());
    assert_eq!(t.decode_bytes(&vec![0, 1]), b"<|endoftext|>a".to_vec());
}

#[test]
fn decode_replaces_invalid_utf8() {
    let t = tokenizer(&[&[0xff], b"a"], false, false);
    assert_eq!(t.decode(&vec![2, 1, 2]), "a\u{fffd}a".to_string());
    assert_eq!(t.decode_bytes(&vec![2, 1, 2]), vec![b'a', 0xff, b'a']);
}

#[test]
fn batches() {
    let t = tokenizer(&[b"a", b"b", b"ab"], false, false);
    let corpus = vec![b"ab".to_vec(), b"aab".to_vec(), b"b".to_vec()];
    let ids = t.encode_batch(&corpus).unwrap();
    assert_eq!(ids, vec![vec![3], vec![1, 3], vec![2]]);
    assert_eq!(t.decode_batch_bytes(&ids), corpus);
    assert_eq!(
        t.decode_batch(&ids),
        vec!["ab".to_string(), "aab".to_string(), "b".to_string()]
    );
    assert_eq!(t.encode_batch(&vec![b"a".to_vec(), b"c".to_vec()]), None);
    assert_eq!(t.encode_batch(&vec![]), Some(vec![]));
}

#[test]
fn special_token_can_be_encoded() {
    let t = tokenizer(&[b"a", b"<"], false, false);
    let ids = t.encode(b"a<|endoftext|>a").unwrap();
    assert_eq!(ids, vec![1, 0, 1]);
}

#[test]
fn tiebreakers_agree_on_token_count() {
    let lines: &[&[u8]] = &[b"a", b"b", b"ab", b"ba"];
    let longest = tokenizer(lines, false, false);
    let random = tokenizer(lines, false, true);
    let mut s = b"ab".repeat(20);
    s.push(b'a');
    let l = longest.encode(&s).unwrap();
    let r = random.encode(&s).unwrap();
    assert_eq!(l.len(), 21);
    assert_eq!(r.len(), 21);
    // walking back, the longest tiebreaker always ends on "ba"
    let mut expected = vec![1];
    expected.extend(std::iter::repeat(4).take(20));
    assert_eq!(l, expected);
    // with many ties the random choice departs from the widest one somewhere
    assert_ne!(r, l);
    assert_eq!(random.decode_bytes(&r), s);
}

#[test]
fn reservoir_keeps_new_width_on_draw_of_one() {
    assert_eq!(reservoir_step(3, 5, 1), 5);
    assert_eq!(reservoir_step(3, 5, 2), 3);
    assert_eq!(reservoir_step(3, 5, 7), 3);
}

#[test]
fn ids_run_from_zero_without_repeats() {
    let t = tokenizer(&[b"x", b"y", b"z"], false, false);
    let mut ids: Vec<usize> = t.get_ids().into_iter().map(|(i, _)| i).collect();
    ids.sort();
    assert_eq!(ids, vec![0, 1, 2, 3]);
    assert_eq!(t.get_vocab().len(), t.get_ids().len());
}

#[test]
fn text_roundtrip() {
    let t = tokenizer(&["é".as_bytes(), b"a", "éa".as_bytes(), &[0xc3], &[0xa9]], false, false);
    let ids = t.encode("aéa".as_bytes()).unwrap();
    assert_eq!(t.decode(&ids), "aéa".to_string());
}

#[test]
fn unique_optimum_same_for_both_tiebreakers() {
    let lines: &[&[u8]] = &[b"a", b"b", b"c", b"bc"];
    let longest = tokenizer(lines, false, false);
    let random = tokenizer(lines, false, true);
    assert_eq!(longest.encode(b"abc"), random.encode(b"abc"));
    assert_eq!(longest.encode(b"abc"), Some(vec![1, 4]));
}
