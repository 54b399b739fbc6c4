//! What a segmentation of a byte string into vocabulary tokens is, which one
//! the greedy rule picks, which ones are optimal (fewest tokens), and which
//! optimal one prefers longer tokens at the end.
use vstd::prelude::*;

verus! {

/// The concatenation of the tokens.
pub open spec fn join(toks: Seq<Seq<u8>>) -> Seq<u8>
    decreases toks.len(),
{
    if toks.len() == 0 {
        Seq::empty()
    } else {
        join(toks.drop_last()) + toks.last()
    }
}

/// `toks` are vocabulary tokens whose concatenation is `s`.
pub open spec fn is_segmentation(toks: Seq<Seq<u8>>, s: Seq<u8>, vocab: Set<Seq<u8>>) -> bool {
    &&& join(toks) == s
    &&& forall|i: int| 0 <= i < toks.len() ==> vocab.contains(#[trigger] toks[i])
}

/// `toks` is a segmentation of `s` with no more tokens than any other.
pub open spec fn is_optimal_segmentation(toks: Seq<Seq<u8>>, s: Seq<u8>, vocab: Set<Seq<u8>>) -> bool {
    &&& is_segmentation(toks, s, vocab)
    &&& forall|t: Seq<Seq<u8>>| #[trigger] is_segmentation(t, s, vocab) ==> toks.len() <= t.len()
}

/// `s` can be cut into vocabulary tokens.
pub open spec fn segmentable(s: Seq<u8>, vocab: Set<Seq<u8>>) -> bool {
    exists|t: Seq<Seq<u8>>| #[trigger] is_segmentation(t, s, vocab)
}

/// The length of the longest vocabulary token, of length at most `j`, that
/// `s` starts with; 0 if there is none.
pub open spec fn longest_prefix_len(s: Seq<u8>, vocab: Set<Seq<u8>>, j: nat) -> nat
    decreases j,
{
    if j == 0 {
        0
    } else if j <= s.len() && vocab.contains(s.take(j as int)) {
        j
    } else {
        longest_prefix_len(s, vocab, (j - 1) as nat)
    }
}

pub proof fn lemma_longest_prefix_len(s: Seq<u8>, vocab: Set<Seq<u8>>, j: nat)
    ensures
        longest_prefix_len(s, vocab, j) <= j,
        longest_prefix_len(s, vocab, j) > 0 ==> longest_prefix_len(s, vocab, j) <= s.len()
            && vocab.contains(s.take(longest_prefix_len(s, vocab, j) as int)),
    decreases j,
{
    if j > 0 {
        lemma_longest_prefix_len(s, vocab, (j - 1) as nat);
    }
}

/// Greedy segmentation: cut off the longest vocabulary token that the input
/// starts with, and go on with the rest.  `None` when at some point no
/// non-empty vocabulary token starts the rest of the input.
pub open spec fn greedy_segmentation(s: Seq<u8>, vocab: Set<Seq<u8>>) -> Option<Seq<Seq<u8>>>
    decreases s.len(),
{
    if s.len() == 0 {
        Some(Seq::empty())
    } else {
        let w = longest_prefix_len(s, vocab, s.len());
        if w == 0 {
            None
        } else {
            proof {
                lemma_longest_prefix_len(s, vocab, s.len());
            }
            match greedy_segmentation(s.skip(w as int), vocab) {
                Some(rest) => Some(seq![s.take(w as int)] + rest),
                None => None,
            }
        }
    }
}

/// The fewest tokens the first `i` bytes of `s` can be cut into, if they can;
/// the last token is chosen by `best`.
pub open spec fn opt_count(s: Seq<u8>, vocab: Set<Seq<u8>>, i: nat) -> Option<nat>
    decreases i, i + 2,
{
    if i == 0 {
        Some(0)
    } else {
        best(s, vocab, i, i).0
    }
}

/// The token count of the first `i` bytes when the last token has `k` bytes.
pub open spec fn cand(s: Seq<u8>, vocab: Set<Seq<u8>>, i: nat, k: nat) -> Option<nat>
    decreases i, k,
{
    if 1 <= k <= i <= s.len() && vocab.contains(s.subrange(i - k, i as int)) {
        match opt_count(s, vocab, (i - k) as nat) {
            Some(c) => Some(c + 1),
            None => None,
        }
    } else {
        None
    }
}

/// Among last tokens of widths `1..=k`, the fewest token count of the first
/// `i` bytes and the widest width that reaches it; `(None, 0)` if no width
/// does.
pub open spec fn best(s: Seq<u8>, vocab: Set<Seq<u8>>, i: nat, k: nat) -> (Option<nat>, nat)
    decreases i, k + 1,
{
    if k == 0 {
        (None, 0)
    } else {
        let prev = best(s, vocab, i, (k - 1) as nat);
        match cand(s, vocab, i, k) {
            Some(v) => match prev.0 {
                Some(c) => if v <= c {
                    (Some(v), k)
                } else {
                    prev
                },
                None => (Some(v), k),
            },
            None => prev,
        }
    }
}

/// The tokens found by walking back from byte `i`, cutting off `widths[i - 1]`
/// bytes at each step.
pub open spec fn follow(s: Seq<u8>, widths: Seq<usize>, i: nat) -> Seq<Seq<u8>>
    decreases i,
{
    if i == 0 || i > widths.len() {
        Seq::empty()
    } else {
        let w = widths[i - 1];
        if 0 < w <= i {
            follow(s, widths, (i - w) as nat).push(s.subrange(i - w, i as int))
        } else {
            Seq::empty()
        }
    }
}

/// For each prefix length, the widest last token among optimal segmentations.
pub open spec fn longest_widths(s: Seq<u8>, vocab: Set<Seq<u8>>) -> Seq<usize> {
    Seq::new(s.len(), |e: int| best(s, vocab, (e + 1) as nat, (e + 1) as nat).1 as usize)
}

/// The optimal segmentation that, walking back from the end, always takes
/// the widest last token that still allows the fewest tokens.
pub open spec fn longest_segmentation(s: Seq<u8>, vocab: Set<Seq<u8>>) -> Seq<Seq<u8>> {
    follow(s, longest_widths(s, vocab), s.len())
}

/// Each of the first `n` entries is, for a prefix that can be segmented, the
/// width of a last token of some optimal segmentation of that prefix.
pub open spec fn valid_widths(s: Seq<u8>, vocab: Set<Seq<u8>>, widths: Seq<usize>, n: nat) -> bool {
    &&& n <= widths.len()
    &&& forall|e: int|
        0 <= e < n && (#[trigger] opt_count(s, vocab, (e + 1) as nat)) is Some ==> 1 <= widths[e]
            <= e + 1 && cand(s, vocab, (e + 1) as nat, widths[e] as nat) == opt_count(
            s,
            vocab,
            (e + 1) as nat,
        )
}

/// `best` picks a width that reaches the least count among all widths it
/// looks at.
pub proof fn lemma_best(s: Seq<u8>, vocab: Set<Seq<u8>>, i: nat, k: nat)
    ensures
        match best(s, vocab, i, k) {
            (Some(c), w) => 1 <= w <= k && cand(s, vocab, i, w) == Some(c) && forall|w2: nat|
                1 <= w2 <= k && (#[trigger] cand(s, vocab, i, w2)) is Some ==> c <= cand(
                    s,
                    vocab,
                    i,
                    w2,
                ).unwrap() && forall|w2: nat|
                1 <= w2 <= k && #[trigger] cand(s, vocab, i, w2) == Some(c) ==> w2 <= w,
            (None, w) => w == 0 && forall|w2: nat|
                1 <= w2 <= k ==> (#[trigger] cand(s, vocab, i, w2)) is None,
        },
    decreases k,
{
    if k > 0 {
        lemma_best(s, vocab, i, (k - 1) as nat);
    }
}

/// Widths beyond the longest vocabulary token change nothing.
pub proof fn lemma_best_capped(s: Seq<u8>, vocab: Set<Seq<u8>>, i: nat, k: nat, m: nat)
    requires
        m <= k,
        forall|t: Seq<u8>| #[trigger] vocab.contains(t) ==> t.len() <= m,
    ensures
        best(s, vocab, i, k) == best(s, vocab, i, m),
    decreases k,
{
    if k > m {
        lemma_best_capped(s, vocab, i, (k - 1) as nat, m);
        if 1 <= k <= i <= s.len() {
            assert(s.subrange(i - k, i as int).len() == k);
        }
        assert(cand(s, vocab, i, k) is None);
    }
}

/// A prefix that can be segmented needs between one token and one token per
/// byte.
pub proof fn lemma_opt_count_bound(s: Seq<u8>, vocab: Set<Seq<u8>>, i: nat)
    ensures
        opt_count(s, vocab, i) matches Some(c) ==> (i == 0 ==> c == 0) && (i > 0 ==> 1 <= c <= i),
    decreases i,
{
    if i > 0 {
        lemma_best(s, vocab, i, i);
        if let (Some(c), w) = best(s, vocab, i, i) {
            lemma_opt_count_bound(s, vocab, (i - w) as nat);
        }
    }
}

/// The concatenation after appending a token.
pub proof fn lemma_join_push(toks: Seq<Seq<u8>>, t: Seq<u8>)
    ensures
        join(toks.push(t)) == join(toks) + t,
{
    assert(toks.push(t).drop_last() =~= toks);
}

/// The concatenation after prepending a token.
pub proof fn lemma_join_prepend(t: Seq<u8>, toks: Seq<Seq<u8>>)
    ensures
        join(seq![t] + toks) == t + join(toks),
    decreases toks.len(),
{
    if toks.len() == 0 {
        assert(seq![t] + toks =~= seq![t]);
        assert(seq![t].drop_last() =~= Seq::<Seq<u8>>::empty());
        assert(join(seq![t]) == join(seq![t].drop_last()) + seq![t].last());
        assert(Seq::<u8>::empty() + t =~= t);
        assert(t + Seq::<u8>::empty() =~= t);
    } else {
        lemma_join_prepend(t, toks.drop_last());
        assert((seq![t] + toks).drop_last() =~= seq![t] + toks.drop_last());
        assert((seq![t] + toks).last() == toks.last());
        assert(t + join(toks.drop_last()) + toks.last() =~= t + (join(toks.drop_last())
            + toks.last()));
    }
}

/// Walking back along valid widths gives a segmentation of the prefix with
/// the fewest tokens.
pub proof fn lemma_follow_valid(s: Seq<u8>, vocab: Set<Seq<u8>>, widths: Seq<usize>, n: nat, i: nat)
    requires
        valid_widths(s, vocab, widths, n),
        i <= n <= s.len(),
        opt_count(s, vocab, i) is Some,
    ensures
        is_segmentation(follow(s, widths, i), s.take(i as int), vocab),
        follow(s, widths, i).len() == opt_count(s, vocab, i).unwrap(),
    decreases i,
{
    if i == 0 {
        assert(s.take(0) =~= Seq::<u8>::empty());
    } else {
        let e = (i - 1) as int;
        assert(opt_count(s, vocab, (e + 1) as nat) is Some);
        let w = widths[e];
        assert(1 <= w <= i);
        let rest = (i - w) as nat;
        assert(cand(s, vocab, i, w as nat) == opt_count(s, vocab, i));
        lemma_follow_valid(s, vocab, widths, n, rest);
        let prev = follow(s, widths, rest);
        let tok = s.subrange(rest as int, i as int);
        assert(follow(s, widths, i) == prev.push(tok));
        lemma_join_push(prev, tok);
        assert(s.take(rest as int) + tok =~= s.take(i as int));
        assert forall|j: int| 0 <= j < prev.push(tok).len() implies vocab.contains(
            #[trigger] prev.push(tok)[j],
        ) by {
            if j < prev.len() {
                assert(prev.push(tok)[j] == prev[j]);
            }
        }
    }
}

/// Splitting off the last token of a segmentation of a prefix leaves a
/// segmentation of a shorter prefix.
pub proof fn lemma_split_last(s: Seq<u8>, vocab: Set<Seq<u8>>, t: Seq<Seq<u8>>, i: nat)
    requires
        i <= s.len(),
        t.len() > 0,
        is_segmentation(t, s.take(i as int), vocab),
    ensures
        t.last().len() <= i,
        t.last() == s.subrange(i - t.last().len(), i as int),
        vocab.contains(t.last()),
        is_segmentation(t.drop_last(), s.take(i - t.last().len()), vocab),
{
    let dl = t.drop_last();
    let last = t.last();
    let w = last.len();
    assert(join(t) == join(dl) + last);
    assert(join(t).len() == i);
    let rest = (i - w) as nat;
    assert(join(dl) =~= s.take(rest as int));
    assert forall|j: int| 0 <= j < w implies last[j] == s.subrange(rest as int, i as int)[j] by {
        assert((join(dl) + last)[rest + j] == last[j]);
        assert(s.take(i as int)[rest + j] == s[rest + j]);
    }
    assert(last =~= s.subrange(rest as int, i as int));
    assert forall|j: int| 0 <= j < dl.len() implies vocab.contains(#[trigger] dl[j]) by {
        assert(dl[j] == t[j]);
    }
    assert(vocab.contains(t[t.len() - 1]));
}

/// Every segmentation of a prefix has at least as many tokens as
/// `opt_count` says.
pub proof fn lemma_segmentation_lower_bound(
    s: Seq<u8>,
    vocab: Set<Seq<u8>>,
    t: Seq<Seq<u8>>,
    i: nat,
)
    requires
        i <= s.len(),
        is_segmentation(t, s.take(i as int), vocab),
    ensures
        opt_count(s, vocab, i) is Some,
        opt_count(s, vocab, i).unwrap() <= t.len(),
    decreases t.len(),
{
    if t.len() == 0 {
        assert(join(t).len() == 0);
        assert(s.take(i as int).len() == i);
    } else {
        lemma_split_last(s, vocab, t, i);
        let w = t.last().len();
        let rest = (i - w) as nat;
        lemma_segmentation_lower_bound(s, vocab, t.drop_last(), rest);
        if w > 0 {
            let c = opt_count(s, vocab, rest).unwrap();
            assert(cand(s, vocab, i, w) == Some(c + 1));
            lemma_best(s, vocab, i, i);
        }
    }
}

/// A byte string can be segmented exactly when `opt_count` of its full
/// length is defined, and then following valid widths gives an optimal
/// segmentation.
pub proof fn lemma_follow_optimal(s: Seq<u8>, vocab: Set<Seq<u8>>, widths: Seq<usize>)
    requires
        valid_widths(s, vocab, widths, s.len()),
    ensures
        segmentable(s, vocab) <==> opt_count(s, vocab, s.len()) is Some,
        opt_count(s, vocab, s.len()) is Some ==> is_optimal_segmentation(
            follow(s, widths, s.len()),
            s,
            vocab,
        ),
{
    assert(s.take(s.len() as int) =~= s);
    if segmentable(s, vocab) {
        let t = choose|t: Seq<Seq<u8>>| is_segmentation(t, s, vocab);
        lemma_segmentation_lower_bound(s, vocab, t, s.len());
    }
    if opt_count(s, vocab, s.len()) is Some {
        lemma_follow_valid(s, vocab, widths, s.len(), s.len());
        assert forall|t: Seq<Seq<u8>>| #[trigger] is_segmentation(t, s, vocab) implies follow(
            s,
            widths,
            s.len(),
        ).len() <= t.len() by {
            lemma_segmentation_lower_bound(s, vocab, t, s.len());
        }
    }
}

/// The widest optimal widths are valid widths.
pub proof fn lemma_longest_widths_valid(s: Seq<u8>, vocab: Set<Seq<u8>>)
    requires
        s.len() <= usize::MAX,
    ensures
        valid_widths(s, vocab, longest_widths(s, vocab), s.len()),
{
    assert forall|e: int|
        0 <= e < s.len() && (#[trigger] opt_count(s, vocab, (e + 1) as nat)) is Some implies 1
        <= longest_widths(s, vocab)[e] <= e + 1 && cand(
        s,
        vocab,
        (e + 1) as nat,
        longest_widths(s, vocab)[e] as nat,
    ) == opt_count(s, vocab, (e + 1) as nat) by {
        lemma_best(s, vocab, (e + 1) as nat, (e + 1) as nat);
        let w = best(s, vocab, (e + 1) as nat, (e + 1) as nat).1;
        assert(longest_widths(s, vocab)[e] == w as usize);
        assert(w as usize as nat == w);
    }
}

/// The greedy segmentation, when there is one, is a segmentation.
pub proof fn lemma_greedy_is_segmentation(s: Seq<u8>, vocab: Set<Seq<u8>>)
    requires
        greedy_segmentation(s, vocab) is Some,
    ensures
        is_segmentation(greedy_segmentation(s, vocab).unwrap(), s, vocab),
    decreases s.len(),
{
    if s.len() == 0 {
        assert(join(Seq::<Seq<u8>>::empty()) =~= s);
    } else {
        let w = longest_prefix_len(s, vocab, s.len());
        lemma_longest_prefix_len(s, vocab, s.len());
        let rest_s = s.skip(w as int);
        lemma_greedy_is_segmentation(rest_s, vocab);
        let rest = greedy_segmentation(rest_s, vocab).unwrap();
        let tok = s.take(w as int);
        lemma_join_prepend(tok, rest);
        assert(tok + rest_s =~= s);
        let r = seq![tok] + rest;
        assert forall|j: int| 0 <= j < r.len() implies vocab.contains(#[trigger] r[j]) by {
            if j > 0 {
                assert(r[j] == rest[j - 1]);
            }
        }
    }
}

/// Lengths beyond the longest vocabulary token change nothing.
pub proof fn lemma_longest_prefix_len_capped(s: Seq<u8>, vocab: Set<Seq<u8>>, j: nat, m: nat)
    requires
        m <= j,
        forall|t: Seq<u8>| #[trigger] vocab.contains(t) ==> t.len() <= m,
    ensures
        longest_prefix_len(s, vocab, j) == longest_prefix_len(s, vocab, m),
    decreases j,
{
    if j > m {
        lemma_longest_prefix_len_capped(s, vocab, (j - 1) as nat, m);
        if j <= s.len() {
            assert(s.take(j as int).len() == j);
        }
    }
}

/// Any two optimal segmentations of the same input have the same number of
/// tokens.
pub proof fn lemma_optimal_same_count(
    a: Seq<Seq<u8>>,
    b: Seq<Seq<u8>>,
    s: Seq<u8>,
    vocab: Set<Seq<u8>>,
)
    requires
        is_optimal_segmentation(a, s, vocab),
        is_optimal_segmentation(b, s, vocab),
    ensures
        a.len() == b.len(),
{
    assert(is_segmentation(b, s, vocab));
    assert(is_segmentation(a, s, vocab));
}

/// An optimal segmentation has no more tokens than the greedy one.
pub proof fn lemma_optimal_not_longer_than_greedy(
    opt: Seq<Seq<u8>>,
    s: Seq<u8>,
    vocab: Set<Seq<u8>>,
)
    requires
        is_optimal_segmentation(opt, s, vocab),
        greedy_segmentation(s, vocab) is Some,
    ensures
        opt.len() <= greedy_segmentation(s, vocab).unwrap().len(),
{
    lemma_greedy_is_segmentation(s, vocab);
    assert(is_segmentation(greedy_segmentation(s, vocab).unwrap(), s, vocab));
}

/// Compared from the end, the first pair of tokens of different lengths has
/// the longer one in `a` (or there is no such pair).
pub open spec fn wider_at_end(a: Seq<Seq<u8>>, b: Seq<Seq<u8>>) -> bool
    decreases a.len(),
{
    if a.len() == 0 || b.len() == 0 {
        true
    } else if a.last().len() != b.last().len() {
        a.last().len() > b.last().len()
    } else {
        wider_at_end(a.drop_last(), b.drop_last())
    }
}

/// Following the widest optimal widths back from byte `i` gives a
/// segmentation that, compared from the end, is at least as wide as every
/// other optimal segmentation of the first `i` bytes.
proof fn lemma_follow_longest_widest(s: Seq<u8>, vocab: Set<Seq<u8>>, t: Seq<Seq<u8>>, i: nat)
    requires
        s.len() <= usize::MAX,
        i <= s.len(),
        is_segmentation(t, s.take(i as int), vocab),
        opt_count(s, vocab, i) == Some(t.len()),
    ensures
        wider_at_end(follow(s, longest_widths(s, vocab), i), t),
    decreases i,
{
    if i > 0 {
        let lw = longest_widths(s, vocab);
        lemma_best(s, vocab, i, i);
        lemma_opt_count_bound(s, vocab, i);
        let c = opt_count(s, vocab, i).unwrap();
        let w = best(s, vocab, i, i).1;
        assert(lw[i - 1] == w as usize);
        assert(w as usize as nat == w);
        lemma_split_last(s, vocab, t, i);
        let w2 = t.last().len();
        let rest2 = (i - w2) as nat;
        lemma_segmentation_lower_bound(s, vocab, t.drop_last(), rest2);
        if w2 == 0 {
            assert(s.take(rest2 as int) =~= s.take(i as int));
            assert(false);
        }
        let c2 = opt_count(s, vocab, rest2).unwrap();
        assert(cand(s, vocab, i, w2) == Some(c2 + 1));
        assert(cand(s, vocab, i, w2) == Some(c));
        assert(w2 <= w);
        let l = follow(s, lw, i);
        let rest = (i - w) as nat;
        assert(l == follow(s, lw, rest).push(s.subrange(rest as int, i as int)));
        assert(l.last().len() == w);
        assert(l.drop_last() =~= follow(s, lw, rest));
        if w2 == w {
            lemma_follow_longest_widest(s, vocab, t.drop_last(), rest);
        }
    }
}

/// The segmentation that prefers wider tokens at the end is, compared from
/// the end, at least as wide as every optimal segmentation.
pub proof fn lemma_longest_segmentation_widest(s: Seq<u8>, vocab: Set<Seq<u8>>, t: Seq<Seq<u8>>)
    requires
        s.len() <= usize::MAX,
        is_optimal_segmentation(t, s, vocab),
    ensures
        wider_at_end(longest_segmentation(s, vocab), t),
{
    assert(s.take(s.len() as int) =~= s);
    lemma_segmentation_lower_bound(s, vocab, t, s.len());
    lemma_longest_widths_valid(s, vocab);
    lemma_follow_valid(s, vocab, longest_widths(s, vocab), s.len(), s.len());
    assert(is_segmentation(longest_segmentation(s, vocab), s, vocab));
    lemma_follow_longest_widest(s, vocab, t, s.len());
}

/// Width `k` ties: it reaches the same count as the fewest found among the
/// narrower widths.
pub open spec fn is_tie(s: Seq<u8>, vocab: Set<Seq<u8>>, i: nat, k: nat) -> bool {
    &&& 1 <= k
    &&& cand(s, vocab, i, k) is Some
    &&& best(s, vocab, i, (k - 1) as nat).0 == cand(s, vocab, i, k)
}

/// How many widths among `1..=k` reach the fewest count found among them,
/// counted since that count was last improved on.
pub open spec fn tie_count(s: Seq<u8>, vocab: Set<Seq<u8>>, i: nat, k: nat) -> nat
    decreases k,
{
    if k == 0 {
        0
    } else {
        let prev = tie_count(s, vocab, i, (k - 1) as nat);
        match cand(s, vocab, i, k) {
            Some(v) => match best(s, vocab, i, (k - 1) as nat).0 {
                Some(c) => if v < c {
                    1
                } else if v == c {
                    prev + 1
                } else {
                    prev
                },
                None => 1,
            },
            None => prev,
        }
    }
}

/// For the first `i` bytes, one entry per tie among widths `1..=k`, in
/// order: the number of widths that reach the fewest count at that tie.
/// A random draw is taken from `1..=` that number at each tie.
pub open spec fn draw_bounds_at(s: Seq<u8>, vocab: Set<Seq<u8>>, i: nat, k: nat) -> Seq<nat>
    decreases k,
{
    if k == 0 {
        Seq::empty()
    } else if is_tie(s, vocab, i, k) {
        draw_bounds_at(s, vocab, i, (k - 1) as nat).push(tie_count(s, vocab, i, k))
    } else {
        draw_bounds_at(s, vocab, i, (k - 1) as nat)
    }
}

/// The draw bounds of all prefixes shorter than `i` bytes, shortest first.
pub open spec fn draw_bounds_before(s: Seq<u8>, vocab: Set<Seq<u8>>, i: nat) -> Seq<nat>
    decreases i,
{
    if i <= 1 {
        Seq::empty()
    } else {
        draw_bounds_before(s, vocab, (i - 1) as nat) + draw_bounds_at(
            s,
            vocab,
            (i - 1) as nat,
            (i - 1) as nat,
        )
    }
}

/// The draws fit the ties of `s`: one draw per tie, each within its bound.
pub open spec fn valid_draws(s: Seq<u8>, vocab: Set<Seq<u8>>, draws: Seq<usize>) -> bool {
    let bounds = draw_bounds_before(s, vocab, s.len() + 1);
    &&& draws.len() == bounds.len()
    &&& forall|j: int| 0 <= j < draws.len() ==> 1 <= #[trigger] draws[j] <= bounds[j]
}

/// Reservoir sampling among the optimal last tokens of the first `i` bytes,
/// over widths `1..=k`: a width that lowers the count is kept; a width that
/// ties replaces the kept one exactly when its draw is 1.
pub open spec fn reservoir_width(
    s: Seq<u8>,
    vocab: Set<Seq<u8>>,
    draws: Seq<usize>,
    i: nat,
    k: nat,
) -> nat
    decreases k,
{
    if k == 0 {
        0
    } else {
        let prev = reservoir_width(s, vocab, draws, i, (k - 1) as nat);
        match cand(s, vocab, i, k) {
            Some(v) => match best(s, vocab, i, (k - 1) as nat).0 {
                Some(c) => if v < c {
                    k
                } else if v == c {
                    let at = draw_bounds_before(s, vocab, i).len() + draw_bounds_at(
                        s,
                        vocab,
                        i,
                        (k - 1) as nat,
                    ).len();
                    if draws[at as int] == 1 {
                        k
                    } else {
                        prev
                    }
                } else {
                    prev
                },
                None => k,
            },
            None => prev,
        }
    }
}

/// For each prefix length, the last-token width that reservoir sampling with
/// these draws keeps.
pub open spec fn reservoir_widths(s: Seq<u8>, vocab: Set<Seq<u8>>, draws: Seq<usize>) -> Seq<usize> {
    Seq::new(
        s.len(),
        |e: int| reservoir_width(s, vocab, draws, (e + 1) as nat, (e + 1) as nat) as usize,
    )
}

/// Widths beyond the longest vocabulary token add no tie and change no
/// choice.
pub proof fn lemma_reservoir_capped(
    s: Seq<u8>,
    vocab: Set<Seq<u8>>,
    draws: Seq<usize>,
    i: nat,
    k: nat,
    m: nat,
)
    requires
        m <= k,
        forall|t: Seq<u8>| #[trigger] vocab.contains(t) ==> t.len() <= m,
    ensures
        draw_bounds_at(s, vocab, i, k) == draw_bounds_at(s, vocab, i, m),
        tie_count(s, vocab, i, k) == tie_count(s, vocab, i, m),
        reservoir_width(s, vocab, draws, i, k) == reservoir_width(s, vocab, draws, i, m),
    decreases k,
{
    if k > m {
        lemma_reservoir_capped(s, vocab, draws, i, (k - 1) as nat, m);
        if 1 <= k <= i <= s.len() {
            assert(s.subrange(i - k, i as int).len() == k);
        }
        assert(cand(s, vocab, i, k) is None);
    }
}

/// The kept width depends only on the draws taken up to that point.
pub proof fn lemma_reservoir_prefix(
    s: Seq<u8>,
    vocab: Set<Seq<u8>>,
    d1: Seq<usize>,
    d2: Seq<usize>,
    i: nat,
    k: nat,
)
    requires
        forall|j: int|
            0 <= j < draw_bounds_before(s, vocab, i).len() + draw_bounds_at(s, vocab, i, k).len()
                ==> d1[j] == d2[j],
    ensures
        reservoir_width(s, vocab, d1, i, k) == reservoir_width(s, vocab, d2, i, k),
    decreases k,
{
    if k > 0 {
        lemma_reservoir_prefix(s, vocab, d1, d2, i, (k - 1) as nat);
        let at = draw_bounds_before(s, vocab, i).len() + draw_bounds_at(
            s,
            vocab,
            i,
            (k - 1) as nat,
        ).len();
        if is_tie(s, vocab, i, k) {
            assert(d1[at as int] == d2[at as int]);
        }
    }
}

/// Longer prefixes have at least as many draws before them.
pub proof fn lemma_draw_bounds_before_grow(s: Seq<u8>, vocab: Set<Seq<u8>>, a: nat, b: nat)
    requires
        a <= b,
    ensures
        draw_bounds_before(s, vocab, a).len() <= draw_bounds_before(s, vocab, b).len(),
    decreases b,
{
    if a < b {
        lemma_draw_bounds_before_grow(s, vocab, a, (b - 1) as nat);
    }
}

/// If the input has a single optimal segmentation, it is the one that
/// prefers wider tokens at the end (and so every tiebreak gives it).
pub proof fn lemma_unique_optimum_is_longest(s: Seq<u8>, vocab: Set<Seq<u8>>, toks: Seq<Seq<u8>>)
    requires
        s.len() <= usize::MAX,
        is_optimal_segmentation(toks, s, vocab),
        forall|t: Seq<Seq<u8>>| #[trigger] is_optimal_segmentation(t, s, vocab) ==> t == toks,
    ensures
        toks == longest_segmentation(s, vocab),
{
    lemma_longest_widths_valid(s, vocab);
    lemma_follow_optimal(s, vocab, longest_widths(s, vocab));
    assert(s.take(s.len() as int) =~= s);
    lemma_segmentation_lower_bound(s, vocab, toks, s.len());
    assert(is_optimal_segmentation(longest_segmentation(s, vocab), s, vocab));
}

/// `t` is a prefix of `x`.
pub open spec fn starts_with(x: Seq<u8>, t: Seq<u8>) -> bool {
    t.len() <= x.len() && x.take(t.len() as int) == t
}

/// `tok` is a non-empty vocabulary token that `rest` starts with, and no
/// vocabulary token that `rest` starts with is longer.
pub open spec fn is_longest_match(rest: Seq<u8>, tok: Seq<u8>, vocab: Set<Seq<u8>>) -> bool {
    &&& vocab.contains(tok)
    &&& tok.len() > 0
    &&& starts_with(rest, tok)
    &&& forall|t: Seq<u8>| #[trigger] vocab.contains(t) && starts_with(rest, t) ==> t.len() <= tok.len()
}

/// Each token of `p` is the longest vocabulary token that the input starts
/// with after the tokens before it.
pub open spec fn is_longest_match_walk(p: Seq<Seq<u8>>, s: Seq<u8>, vocab: Set<Seq<u8>>) -> bool
    decreases p.len(),
{
    if p.len() == 0 {
        true
    } else {
        &&& is_longest_match(s, p[0], vocab)
        &&& is_longest_match_walk(p.drop_first(), s.skip(p[0].len() as int), vocab)
    }
}

/// `longest_prefix_len` is at least the length of any vocabulary token, of
/// length at most `j`, that `s` starts with.
proof fn lemma_longest_prefix_len_max(s: Seq<u8>, vocab: Set<Seq<u8>>, j: nat, t: Seq<u8>)
    requires
        vocab.contains(t),
        starts_with(s, t),
        t.len() <= j,
    ensures
        t.len() <= longest_prefix_len(s, vocab, j),
    decreases j,
{
    if j > t.len() {
        lemma_longest_prefix_len_max(s, vocab, (j - 1) as nat, t);
    } else if j > 0 {
        assert(s.take(j as int) == t);
    }
}

/// Prepending a longest match at the front of a walk over the rest gives a
/// walk over the whole input.
proof fn lemma_walk_prepend(s: Seq<u8>, vocab: Set<Seq<u8>>, tok: Seq<u8>, p: Seq<Seq<u8>>)
    requires
        is_longest_match(s, tok, vocab),
        is_longest_match_walk(p, s.skip(tok.len() as int), vocab),
    ensures
        is_longest_match_walk(seq![tok] + p, s, vocab),
        join(seq![tok] + p) == tok + join(p),
{
    lemma_join_prepend(tok, p);
    let q = seq![tok] + p;
    assert(q[0] == tok);
    assert(q.drop_first() =~= p);
}

/// The greedy segmentation, when there is one, takes at each step the
/// longest vocabulary token that the rest of the input starts with.
pub proof fn lemma_greedy_takes_longest(s: Seq<u8>, vocab: Set<Seq<u8>>)
    requires
        greedy_segmentation(s, vocab) is Some,
    ensures
        is_segmentation(greedy_segmentation(s, vocab).unwrap(), s, vocab),
        is_longest_match_walk(greedy_segmentation(s, vocab).unwrap(), s, vocab),
    decreases s.len(),
{
    lemma_greedy_is_segmentation(s, vocab);
    if s.len() > 0 {
        let w = longest_prefix_len(s, vocab, s.len());
        lemma_longest_prefix_len(s, vocab, s.len());
        let tok = s.take(w as int);
        let rest_s = s.skip(w as int);
        lemma_greedy_takes_longest(rest_s, vocab);
        let rest = greedy_segmentation(rest_s, vocab).unwrap();
        assert(is_longest_match(s, tok, vocab)) by {
            assert forall|t: Seq<u8>| #[trigger] vocab.contains(t) && starts_with(s, t) implies t.len()
                <= tok.len() by {
                lemma_longest_prefix_len_max(s, vocab, s.len(), t);
            }
        }
        lemma_walk_prepend(s, vocab, tok, rest);
    } else {
        assert(is_longest_match_walk(Seq::<Seq<u8>>::empty(), s, vocab));
    }
}

/// `p` is a walk of longest matches from the start of `s` that stops before
/// the end of `s`, at a point where no non-empty vocabulary token starts the
/// rest of the input.
pub open spec fn is_stuck_walk(p: Seq<Seq<u8>>, s: Seq<u8>, vocab: Set<Seq<u8>>) -> bool {
    &&& is_longest_match_walk(p, s, vocab)
    &&& starts_with(s, join(p))
    &&& join(p).len() < s.len()
    &&& forall|t: Seq<u8>|
        #[trigger] vocab.contains(t) && starts_with(s.skip(join(p).len() as int), t) ==> t.len()
            == 0
}

/// When greedy segmentation fails, taking longest matches from the start
/// reaches a point, before the end, where no non-empty vocabulary token
/// starts the rest of the input.
pub proof fn lemma_greedy_stuck(s: Seq<u8>, vocab: Set<Seq<u8>>)
    requires
        greedy_segmentation(s, vocab) is None,
    ensures
        exists|p: Seq<Seq<u8>>| #[trigger] is_stuck_walk(p, s, vocab),
    decreases s.len(),
{
    let w = longest_prefix_len(s, vocab, s.len());
    lemma_longest_prefix_len(s, vocab, s.len());
    if w == 0 {
        let p = Seq::<Seq<u8>>::empty();
        assert(join(p) =~= Seq::<u8>::empty());
        assert(s.take(0) =~= Seq::<u8>::empty());
        assert(s.skip(0) =~= s);
        assert forall|t: Seq<u8>|
            #[trigger] vocab.contains(t) && starts_with(s.skip(join(p).len() as int), t) implies t.len()
            == 0 by {
            if t.len() > 0 {
                lemma_longest_prefix_len_max(s, vocab, s.len(), t);
            }
        }
        assert(is_stuck_walk(p, s, vocab));
    } else {
        let tok = s.take(w as int);
        let rest_s = s.skip(w as int);
        lemma_greedy_stuck(rest_s, vocab);
        let p2 = choose|p: Seq<Seq<u8>>| #[trigger] is_stuck_walk(p, rest_s, vocab);
        assert(is_longest_match(s, tok, vocab)) by {
            assert forall|t: Seq<u8>| #[trigger] vocab.contains(t) && starts_with(s, t) implies t.len()
                <= tok.len() by {
                lemma_longest_prefix_len_max(s, vocab, s.len(), t);
            }
        }
        lemma_walk_prepend(s, vocab, tok, p2);
        let p = seq![tok] + p2;
        let a = join(p2).len();
        assert(join(p) == tok + join(p2));
        assert(rest_s.skip(a as int) =~= s.skip(join(p).len() as int));
        assert(s.take(join(p).len() as int) =~= join(p)) by {
            assert(rest_s.take(a as int) == join(p2));
            assert forall|x: int| 0 <= x < join(p).len() implies s.take(join(p).len() as int)[x]
                == join(p)[x] by {
                if x >= w {
                    assert(rest_s.take(a as int)[x - w] == s[x]);
                }
            }
        }
        assert(is_stuck_walk(p, s, vocab));
    }
}

/// Where taking longest matches from the start gets stuck before the end,
/// greedy segmentation fails.
pub proof fn lemma_stuck_walk_blocks_greedy(s: Seq<u8>, vocab: Set<Seq<u8>>, p: Seq<Seq<u8>>)
    requires
        is_stuck_walk(p, s, vocab),
    ensures
        greedy_segmentation(s, vocab) is None,
    decreases p.len(),
{
    let w = longest_prefix_len(s, vocab, s.len());
    lemma_longest_prefix_len(s, vocab, s.len());
    if p.len() == 0 {
        assert(join(p) =~= Seq::<u8>::empty());
        assert(s.skip(0) =~= s);
        if w > 0 {
            assert(vocab.contains(s.take(w as int)) && starts_with(s, s.take(w as int)));
        }
    } else {
        let tok = p[0];
        let p2 = p.drop_first();
        assert(p =~= seq![tok] + p2);
        lemma_join_prepend(tok, p2);
        lemma_longest_prefix_len_max(s, vocab, s.len(), tok);
        assert(vocab.contains(s.take(w as int)) && starts_with(s, s.take(w as int)));
        assert(w == tok.len());
        assert(s.take(w as int) == tok);
        let rest_s = s.skip(w as int);
        let a = join(p2).len();
        assert(rest_s.skip(a as int) =~= s.skip(join(p).len() as int));
        assert(rest_s.take(a as int) =~= join(p2)) by {
            assert forall|x: int| 0 <= x < a implies rest_s.take(a as int)[x] == join(p2)[x] by {
                assert(join(p)[w + x] == join(p2)[x]);
                assert(s.take(join(p).len() as int)[w + x] == s[w + x]);
            }
        }
        lemma_stuck_walk_blocks_greedy(rest_s, vocab, p2);
    }
}

/// Draws for the ties among widths `1..=k` of the first `i` bytes: 1 at
/// width `w`, which makes reservoir sampling take it, and 2 at every other
/// tie, which keeps the width already taken.
pub open spec fn steering_draws(s: Seq<u8>, vocab: Set<Seq<u8>>, i: nat, k: nat, w: nat) -> Seq<usize>
    decreases k,
{
    if k == 0 {
        Seq::empty()
    } else if is_tie(s, vocab, i, k) {
        steering_draws(s, vocab, i, (k - 1) as nat, w).push(
            if k == w {
                1usize
            } else {
                2usize
            },
        )
    } else {
        steering_draws(s, vocab, i, (k - 1) as nat, w)
    }
}

/// Once some width reaches a count, at least one width is counted as
/// reaching the fewest.
proof fn lemma_tie_count_pos(s: Seq<u8>, vocab: Set<Seq<u8>>, i: nat, k: nat)
    ensures
        best(s, vocab, i, k).0 is Some ==> tie_count(s, vocab, i, k) >= 1,
    decreases k,
{
    if k > 0 {
        lemma_tie_count_pos(s, vocab, i, (k - 1) as nat);
    }
}

/// Every draw bound is at least 2: a tie joins a width that already
/// reached the same count.
proof fn lemma_draw_bounds_at_two(s: Seq<u8>, vocab: Set<Seq<u8>>, i: nat, k: nat)
    ensures
        forall|j: int|
            0 <= j < draw_bounds_at(s, vocab, i, k).len() ==> #[trigger] draw_bounds_at(
                s,
                vocab,
                i,
                k,
            )[j] >= 2,
    decreases k,
{
    if k > 0 {
        lemma_draw_bounds_at_two(s, vocab, i, (k - 1) as nat);
        lemma_tie_count_pos(s, vocab, i, (k - 1) as nat);
        let prev = draw_bounds_at(s, vocab, i, (k - 1) as nat);
        if is_tie(s, vocab, i, k) {
            let x = tie_count(s, vocab, i, k);
            assert(x >= 2);
            assert forall|j: int| 0 <= j < prev.len() + 1 implies #[trigger] prev.push(x)[j] >= 2 by {
                if j < prev.len() {
                    assert(prev.push(x)[j] == prev[j]);
                }
            }
        }
    }
}

/// The steering draws have one entry per tie.
proof fn lemma_steering_len(s: Seq<u8>, vocab: Set<Seq<u8>>, i: nat, k: nat, w: nat)
    ensures
        steering_draws(s, vocab, i, k, w).len() == draw_bounds_at(s, vocab, i, k).len(),
        forall|j: int|
            0 <= j < steering_draws(s, vocab, i, k, w).len() ==> 1 <= #[trigger] steering_draws(
                s,
                vocab,
                i,
                k,
                w,
            )[j] <= 2,
    decreases k,
{
    if k > 0 {
        lemma_steering_len(s, vocab, i, (k - 1) as nat, w);
    }
}

/// Every bound of the draws before the first `i` bytes is at least 2.
proof fn lemma_draw_bounds_before_two(s: Seq<u8>, vocab: Set<Seq<u8>>, i: nat)
    ensures
        forall|j: int|
            0 <= j < draw_bounds_before(s, vocab, i).len() ==> #[trigger] draw_bounds_before(
                s,
                vocab,
                i,
            )[j] >= 2,
    decreases i,
{
    if i > 1 {
        lemma_draw_bounds_before_two(s, vocab, (i - 1) as nat);
        lemma_draw_bounds_at_two(s, vocab, (i - 1) as nat, (i - 1) as nat);
        let a = draw_bounds_before(s, vocab, (i - 1) as nat);
        let b = draw_bounds_at(s, vocab, (i - 1) as nat, (i - 1) as nat);
        assert forall|j: int| 0 <= j < (a + b).len() implies #[trigger] (a + b)[j] >= 2 by {
            if j >= a.len() {
                assert((a + b)[j] == b[j - a.len()]);
            }
        }
    }
}

/// The draw bounds before a longer prefix extend those before a shorter one.
proof fn lemma_draw_bounds_before_prefix(s: Seq<u8>, vocab: Set<Seq<u8>>, a: nat, b: nat)
    requires
        a <= b,
    ensures
        draw_bounds_before(s, vocab, a).len() <= draw_bounds_before(s, vocab, b).len(),
        forall|j: int|
            0 <= j < draw_bounds_before(s, vocab, a).len() ==> draw_bounds_before(s, vocab, b)[j]
                == #[trigger] draw_bounds_before(s, vocab, a)[j],
    decreases b,
{
    if a < b {
        lemma_draw_bounds_before_prefix(s, vocab, a, (b - 1) as nat);
    }
}

/// With the steering draws for width `w` at the first `i` bytes, where `w`
/// reaches the fewest count, reservoir sampling keeps `w`.
proof fn lemma_steering_keeps(
    s: Seq<u8>,
    vocab: Set<Seq<u8>>,
    d: Seq<usize>,
    i: nat,
    k: nat,
    w: nat,
)
    requires
        1 <= w <= k <= i,
        cand(s, vocab, i, w) is Some,
        cand(s, vocab, i, w) == best(s, vocab, i, i).0,
        forall|x: int|
            0 <= x < steering_draws(s, vocab, i, k, w).len() ==> d[draw_bounds_before(s, vocab, i).len()
                + x] == #[trigger] steering_draws(s, vocab, i, k, w)[x],
    ensures
        reservoir_width(s, vocab, d, i, k) == w,
    decreases k,
{
    let start = draw_bounds_before(s, vocab, i).len();
    lemma_best(s, vocab, i, i);
    lemma_best(s, vocab, i, (k - 1) as nat);
    lemma_steering_len(s, vocab, i, (k - 1) as nat, w);
    let prev = steering_draws(s, vocab, i, (k - 1) as nat, w);
    let at = start + draw_bounds_at(s, vocab, i, (k - 1) as nat).len();
    if k > w {
        assert forall|x: int| 0 <= x < prev.len() implies d[start + x] == #[trigger] prev[x] by {
            assert(steering_draws(s, vocab, i, k, w)[x] == prev[x]);
        }
        lemma_steering_keeps(s, vocab, d, i, (k - 1) as nat, w);
        lemma_tie_count_pos(s, vocab, i, (k - 1) as nat);
        if is_tie(s, vocab, i, k) {
            assert(steering_draws(s, vocab, i, k, w)[prev.len() as int] == 2usize);
            assert(d[at as int] == 2usize);
        }
    } else {
        if is_tie(s, vocab, i, k) {
            assert(steering_draws(s, vocab, i, k, w)[prev.len() as int] == 1usize);
            assert(d[at as int] == 1usize);
        }
    }
}

/// `follow` up to byte `i` reads only the first `i` widths.
proof fn lemma_follow_prefix(s: Seq<u8>, w1: Seq<usize>, w2: Seq<usize>, i: nat)
    requires
        i <= w1.len(),
        i <= w2.len(),
        forall|e: int| 0 <= e < i ==> w1[e] == w2[e],
    ensures
        follow(s, w1, i) == follow(s, w2, i),
    decreases i,
{
    if i > 0 {
        let w = w1[i - 1];
        if 0 < w <= i {
            lemma_follow_prefix(s, w1, w2, (i - w) as nat);
        }
    }
}

/// Every segmentation of the first `i` bytes with the fewest tokens comes
/// out of reservoir sampling with some valid draws.
proof fn lemma_optimal_prefix_reachable(s: Seq<u8>, vocab: Set<Seq<u8>>, t: Seq<Seq<u8>>, i: nat) -> (d: Seq<usize>)
    requires
        s.len() <= usize::MAX,
        i <= s.len(),
        is_segmentation(t, s.take(i as int), vocab),
        opt_count(s, vocab, i) == Some(t.len()),
    ensures
        valid_draws(s, vocab, d),
        follow(s, reservoir_widths(s, vocab, d), i) == t,
    decreases t.len(),
{
    let n = s.len();
    let bounds = draw_bounds_before(s, vocab, n + 1);
    lemma_draw_bounds_before_two(s, vocab, n + 1);
    if t.len() == 0 {
        let d = Seq::new(bounds.len(), |j: int| 2usize);
        assert(join(t) =~= Seq::<u8>::empty());
        assert(follow(s, reservoir_widths(s, vocab, d), 0) =~= t);
        d
    } else {
        lemma_split_last(s, vocab, t, i);
        let last = t.last();
        let w = last.len();
        let i2 = (i - w) as nat;
        let t2 = t.drop_last();
        lemma_segmentation_lower_bound(s, vocab, t2, i2);
        let c2 = opt_count(s, vocab, i2).unwrap();
        if w == 0 {
            assert(s.take(i2 as int) == s.take(i as int));
            lemma_segmentation_lower_bound(s, vocab, t2, i);
            assert(false);
        }
        assert(s.subrange(i - w, i as int) == last);
        assert(cand(s, vocab, i, w) == Some(c2 + 1));
        lemma_best(s, vocab, i, i);
        assert(opt_count(s, vocab, i) == best(s, vocab, i, i).0);
        assert(c2 == t2.len());
        let d2 = lemma_optimal_prefix_reachable(s, vocab, t2, i2);
        let start = draw_bounds_before(s, vocab, i).len();
        let seg = draw_bounds_at(s, vocab, i, i);
        let sd = steering_draws(s, vocab, i, i, w);
        lemma_steering_len(s, vocab, i, i, w);
        lemma_draw_bounds_before_prefix(s, vocab, i + 1, n + 1);
        lemma_draw_bounds_before_prefix(s, vocab, i, i + 1);
        assert(draw_bounds_before(s, vocab, i + 1) == draw_bounds_before(s, vocab, i) + seg);
        let end = start + sd.len();
        let d = d2.take(start as int) + sd + d2.skip(end as int);
        assert(d.len() == d2.len());
        assert forall|j: int| 0 <= j < d.len() implies 1 <= #[trigger] d[j] <= bounds[j] by {
            if start <= j < end {
                assert(d[j] == sd[j - start]);
                assert(bounds[j] == draw_bounds_before(s, vocab, i + 1)[j]);
                assert(draw_bounds_before(s, vocab, i + 1)[j] == seg[j - start]);
                lemma_draw_bounds_at_two(s, vocab, i, i);
                assert(seg[j - start] >= 2);
            } else {
                assert(d[j] == d2[j]);
            }
        }
        assert(valid_draws(s, vocab, d));
        assert forall|x: int| 0 <= x < sd.len() implies d[start + x] == #[trigger] sd[x] by {}
        lemma_steering_keeps(s, vocab, d, i, i, w);
        let rw = reservoir_widths(s, vocab, d);
        let rw2 = reservoir_widths(s, vocab, d2);
        assert(rw[i - 1] == w);
        assert forall|e: int| 0 <= e < i2 implies rw[e] == rw2[e] by {
            lemma_draw_bounds_before_prefix(s, vocab, (e + 2) as nat, i);
            assert(draw_bounds_before(s, vocab, (e + 2) as nat) == draw_bounds_before(
                s,
                vocab,
                (e + 1) as nat,
            ) + draw_bounds_at(s, vocab, (e + 1) as nat, (e + 1) as nat));
            assert forall|j: int|
                0 <= j < draw_bounds_before(s, vocab, (e + 1) as nat).len() + draw_bounds_at(
                    s,
                    vocab,
                    (e + 1) as nat,
                    (e + 1) as nat,
                ).len() implies d[j] == d2[j] by {
                assert(d[j] == d2[j]);
            }
            lemma_reservoir_prefix(s, vocab, d, d2, (e + 1) as nat, (e + 1) as nat);
        }
        lemma_follow_prefix(s, rw, rw2, i2);
        assert(follow(s, rw, i) == follow(s, rw, i2).push(s.subrange(i2 as int, i as int)));
        assert(t == t2.push(last));
        d
    }
}

/// Every optimal segmentation can come out of random tie-breaking: some
/// draws, each within its bound, make reservoir sampling pick it.
pub proof fn lemma_every_optimum_reachable(s: Seq<u8>, vocab: Set<Seq<u8>>, t: Seq<Seq<u8>>)
    requires
        s.len() <= usize::MAX,
        is_optimal_segmentation(t, s, vocab),
    ensures
        exists|d: Seq<usize>|
            valid_draws(s, vocab, d) && follow(s, #[trigger] reservoir_widths(s, vocab, d), s.len())
                == t,
{
    assert(s.take(s.len() as int) =~= s);
    lemma_segmentation_lower_bound(s, vocab, t, s.len());
    lemma_longest_widths_valid(s, vocab);
    lemma_follow_optimal(s, vocab, longest_widths(s, vocab));
    lemma_follow_valid(s, vocab, longest_widths(s, vocab), s.len(), s.len());
    assert(is_segmentation(longest_segmentation(s, vocab), s, vocab));
    let d = lemma_optimal_prefix_reachable(s, vocab, t, s.len());
    assert(valid_draws(s, vocab, d) && follow(s, reservoir_widths(s, vocab, d), s.len()) == t);
}

} // verus!
