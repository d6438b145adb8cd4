//! The guess selector: picks the vocabulary word that minimizes the expected
//! size of the remaining-candidate pool.

use crate::compare::{compare_as_num, encode, feedback, lemma_encode_bounds, lemma_pow3_le};
use crate::word_set::{Word, WordSet};
use vstd::prelude::*;

verus! {

/// The error returned when a guess is requested from an empty candidate
/// pool: a caller bug, since the puzzle then has no consistent answer.
#[derive(Debug, PartialEq, Eq, Structural, Clone, Copy)]
pub struct EmptyPoolError;

/// The feedback bucket a candidate word falls into when the guess is scored
/// against it.
pub open spec fn bucket(g: Seq<char>, a: Seq<char>) -> int {
    encode(feedback(g, a))
}

/// The histogram of a guess over a pool: for each of the 243 possible
/// feedback encodings, how many pool words produce it.
pub open spec fn hist(pool: Seq<Seq<char>>, g: Seq<char>) -> Seq<int>
    decreases pool.len(),
{
    if pool.len() == 0 {
        Seq::new(243, |b: int| 0int)
    } else {
        let h = hist(pool.drop_last(), g);
        let b = bucket(g, pool.last());
        h.update(b, h[b] + 1)
    }
}

/// The sum of a sequence of integers.
pub open spec fn sum_seq(s: Seq<int>) -> int
    decreases s.len(),
{
    if s.len() == 0 {
        0
    } else {
        sum_seq(s.drop_last()) + s.last()
    }
}

/// The sum of the squares of a sequence of integers.
pub open spec fn sum_sq_seq(s: Seq<int>) -> int
    decreases s.len(),
{
    if s.len() == 0 {
        0
    } else {
        sum_sq_seq(s.drop_last()) + s.last() * s.last()
    }
}

/// The selection score of a guess against a pool: the sum over feedback
/// buckets of the squared bucket count. Divided by the pool size (the same
/// for every guess), this is the expected size of the pool after the guess,
/// so comparing scores compares expectations exactly.
pub open spec fn score(pool: Seq<Seq<char>>, g: Seq<char>) -> int {
    sum_sq_seq(hist(pool, g))
}

/// The views of a sequence of words.
pub open spec fn words_view(ws: Seq<Word>) -> Seq<Seq<char>> {
    ws.map_values(|w: Word| w@)
}

/// The running-minimum fold over the vocabulary from position `i` on, given
/// the best word and score seen so far. The best word is replaced when a
/// word scores strictly lower, or ties the minimum and is itself still a
/// candidate in the pool.
pub open spec fn select_from(
    vocab: Seq<Seq<char>>,
    pool: Seq<Seq<char>>,
    i: int,
    best: Seq<char>,
    best_score: int,
) -> Seq<char>
    decreases vocab.len() - i,
{
    if i < 0 || i >= vocab.len() {
        best
    } else {
        let s = score(pool, vocab[i]);
        if s < best_score || (s == best_score && pool.contains(vocab[i])) {
            select_from(vocab, pool, i + 1, vocab[i], s)
        } else {
            select_from(vocab, pool, i + 1, best, best_score)
        }
    }
}

/// The word the selector picks: the fold over the whole vocabulary, started
/// above every reachable score so that the first word always becomes the
/// initial minimum.
pub open spec fn select_spec(vocab: Seq<Seq<char>>, pool: Seq<Seq<char>>) -> Seq<char> {
    select_from(vocab, pool, 0, Seq::empty(), pool.len() * pool.len() + 1int)
}

proof fn lemma_hist_len(pool: Seq<Seq<char>>, g: Seq<char>)
    requires
        g.len() <= 5,
    ensures
        hist(pool, g).len() == 243,
    decreases pool.len(),
{
    if pool.len() == 0 {
        assert(hist(pool, g) == Seq::new(243, |b: int| 0int));
    } else {
        lemma_hist_len(pool.drop_last(), g);
        lemma_bucket_range(g, pool.last());
    }
}

proof fn lemma_bucket_range(g: Seq<char>, a: Seq<char>)
    requires
        g.len() <= 5,
    ensures
        0 <= bucket(g, a) < 243,
{
    lemma_encode_bounds(feedback(g, a));
    lemma_pow3_le(g.len() as nat, 5);
    assert(crate::compare::pow3(5) == 243) by {
        reveal_with_fuel(crate::compare::pow3, 6);
    }
}

proof fn lemma_hist_nonneg(pool: Seq<Seq<char>>, g: Seq<char>)
    requires
        g.len() <= 5,
    ensures
        forall|b: int| 0 <= b < 243 ==> hist(pool, g)[b] >= 0,
    decreases pool.len(),
{
    lemma_hist_len(pool, g);
    if pool.len() > 0 {
        lemma_hist_nonneg(pool.drop_last(), g);
        lemma_hist_len(pool.drop_last(), g);
        lemma_bucket_range(g, pool.last());
    }
}

proof fn lemma_sum_update(s: Seq<int>, i: int, v: int)
    requires
        0 <= i < s.len(),
    ensures
        sum_seq(s.update(i, v)) == sum_seq(s) - s[i] + v,
    decreases s.len(),
{
    if i == s.len() - 1 {
        assert(s.update(i, v).drop_last() =~= s.drop_last());
    } else {
        assert(s.update(i, v).drop_last() =~= s.drop_last().update(i, v));
        lemma_sum_update(s.drop_last(), i, v);
    }
}

proof fn lemma_sum_const_zero(n: nat)
    ensures
        sum_seq(Seq::new(n, |b: int| 0int)) == 0,
    decreases n,
{
    if n > 0 {
        assert(Seq::new(n, |b: int| 0int).drop_last() =~= Seq::new((n - 1) as nat, |b: int| 0int));
        lemma_sum_const_zero((n - 1) as nat);
    }
}

/// Histogram conservation: every candidate word lands in exactly one
/// feedback bucket, so the bucket counts of any guess over any pool sum to
/// the pool's size.
pub proof fn lemma_hist_sum(pool: Seq<Seq<char>>, g: Seq<char>)
    requires
        g.len() <= 5,
    ensures
        sum_seq(hist(pool, g)) == pool.len(),
    decreases pool.len(),
{
    if pool.len() == 0 {
        lemma_sum_const_zero(243);
    } else {
        lemma_hist_sum(pool.drop_last(), g);
        lemma_hist_len(pool.drop_last(), g);
        lemma_bucket_range(g, pool.last());
        let h = hist(pool.drop_last(), g);
        let b = bucket(g, pool.last());
        lemma_sum_update(h, b, h[b] + 1);
    }
}

proof fn lemma_sum_nonneg(s: Seq<int>)
    requires
        forall|i: int| 0 <= i < s.len() ==> s[i] >= 0,
    ensures
        sum_seq(s) >= 0,
    decreases s.len(),
{
    if s.len() > 0 {
        lemma_sum_nonneg(s.drop_last());
    }
}

proof fn lemma_elem_le_sum(s: Seq<int>, i: int)
    requires
        0 <= i < s.len(),
        forall|k: int| 0 <= k < s.len() ==> s[k] >= 0,
    ensures
        s[i] <= sum_seq(s),
    decreases s.len(),
{
    if i == s.len() - 1 {
        lemma_sum_nonneg(s.drop_last());
    } else {
        lemma_elem_le_sum(s.drop_last(), i);
    }
}

proof fn lemma_sum_sq_le_square(s: Seq<int>)
    requires
        forall|i: int| 0 <= i < s.len() ==> s[i] >= 0,
    ensures
        0 <= sum_sq_seq(s) <= sum_seq(s) * sum_seq(s),
    decreases s.len(),
{
    if s.len() > 0 {
        lemma_sum_sq_le_square(s.drop_last());
        lemma_sum_nonneg(s.drop_last());
        let m = sum_seq(s.drop_last());
        let x = s.last();
        assert(sum_sq_seq(s.drop_last()) + x * x <= (m + x) * (m + x)) by (nonlinear_arith)
            requires
                sum_sq_seq(s.drop_last()) <= m * m,
                m >= 0,
                x >= 0,
        ;
    }
}

/// The score of any guess is at most the square of the pool size.
proof fn lemma_score_le_square(pool: Seq<Seq<char>>, g: Seq<char>)
    requires
        g.len() <= 5,
    ensures
        0 <= score(pool, g) <= pool.len() * pool.len(),
{
    lemma_hist_nonneg(pool, g);
    lemma_hist_len(pool, g);
    lemma_hist_sum(pool, g);
    lemma_sum_sq_le_square(hist(pool, g));
}

proof fn lemma_sum_take_le(s: Seq<int>, b: int)
    requires
        0 <= b <= s.len(),
        forall|i: int| 0 <= i < s.len() ==> s[i] >= 0,
    ensures
        0 <= sum_seq(s.take(b)) <= sum_seq(s),
    decreases s.len() - b,
{
    if b == s.len() {
        assert(s.take(b) =~= s);
        lemma_sum_nonneg(s);
    } else {
        assert(s.take(b + 1).drop_last() =~= s.take(b));
        assert(s.take(b + 1).last() == s[b]);
        lemma_sum_take_le(s, b + 1);
        lemma_sum_nonneg(s.take(b));
    }
}

/// Builds the feedback histogram of a guess over the candidate pool: 243
/// counters, one per feedback encoding, each counting the pool words that
/// produce that encoding.
pub fn feedback_histogram(remaining_words: &WordSet, word: &Word) -> (r: Vec<u64>)
    requires
        word@.len() == 5,
        forall|k: int| 0 <= k < remaining_words@.len() ==> (#[trigger] remaining_words@[k]).len()
            == 5,
        remaining_words@.len() < 0x8000_0000,
    ensures
        r@.len() == 243,
        forall|b: int| 0 <= b < 243 ==> r@[b] as int == hist(remaining_words@, word@)[b],
{
    let ghost pool = remaining_words@;
    let ghost g = word@;
    let mut groups: Vec<u64> = Vec::new();
    let mut t: usize = 0;
    while t < 243
        invariant
            t <= 243,
            groups@.len() == t,
            forall|b: int| 0 <= b < t ==> groups@[b] == 0,
        decreases 243 - t,
    {
        groups.push(0);
        t = t + 1;
    }
    proof {
        assert(pool.take(0) =~= Seq::<Seq<char>>::empty());
        assert(forall|b: int| 0 <= b < 243 ==> hist(pool.take(0), g)[b] == 0);
    }
    let words = remaining_words.iter();
    let n = words.len();
    let mut i: usize = 0;
    while i < n
        invariant
            i <= n,
            n == pool.len(),
            n < 0x8000_0000,
            g == word@,
            g.len() == 5,
            pool == remaining_words@,
            forall|k: int| 0 <= k < pool.len() ==> (#[trigger] pool[k]).len() == 5,
            words@.len() == n,
            forall|k: int| 0 <= k < n ==> words@[k]@ == pool[k],
            groups@.len() == 243,
            forall|b: int| 0 <= b < 243 ==> groups@[b] as int == hist(pool.take(i as int), g)[b],
        decreases n - i,
    {
        proof {
            assert(words@[i as int]@ == pool[i as int]);
            assert(pool[i as int].len() == 5);
        }
        let value = compare_as_num(word, &words[i]).unwrap();
        let b = value as usize;
        proof {
            lemma_bucket_range(g, pool[i as int]);
            lemma_hist_len(pool.take(i as int), g);
            lemma_hist_nonneg(pool.take(i as int), g);
            lemma_hist_sum(pool.take(i as int), g);
            lemma_elem_le_sum(hist(pool.take(i as int), g), b as int);
            assert(pool.take(i + 1).drop_last() =~= pool.take(i as int));
            assert(pool.take(i + 1).last() == pool[i as int]);
        }
        let cur = groups[b];
        groups[b] = cur + 1;
        proof {
            let h = hist(pool.take(i as int), g);
            assert(hist(pool.take(i + 1), g) == h.update(b as int, h[b as int] + 1));
        }
        i = i + 1;
    }
    proof {
        assert(pool.take(n as int) =~= pool);
    }
    groups
}

/// The expected size of the remaining pool after guessing `word`, as the
/// exact fraction `sum of squared bucket counts / pool size`: the first
/// component is the numerator, the second the denominator (the pool size).
pub fn get_expected_remaining_words(remaining_words: &WordSet, word: &Word) -> (r: (u64, u64))
    requires
        word@.len() == 5,
        forall|k: int| 0 <= k < remaining_words@.len() ==> (#[trigger] remaining_words@[k]).len()
            == 5,
        remaining_words@.len() < 0x8000_0000,
    ensures
        r.0 as int == score(remaining_words@, word@),
        r.1 as int == remaining_words@.len(),
{
    let ghost pool = remaining_words@;
    let ghost g = word@;
    let groups = feedback_histogram(remaining_words, word);
    let ghost h = hist(pool, g);
    proof {
        lemma_hist_len(pool, g);
        lemma_hist_nonneg(pool, g);
        lemma_hist_sum(pool, g);
        assert(h.take(0) =~= Seq::<int>::empty());
    }
    let mut sum: u64 = 0;
    let mut num_words: u64 = 0;
    let mut b: usize = 0;
    while b < 243
        invariant
            b <= 243,
            groups@.len() == 243,
            h == hist(pool, g),
            h.len() == 243,
            pool.len() < 0x8000_0000,
            sum_seq(h) == pool.len(),
            forall|k: int| 0 <= k < 243 ==> h[k] >= 0,
            forall|k: int| 0 <= k < 243 ==> groups@[k] as int == h[k],
            sum as int == sum_sq_seq(h.take(b as int)),
            num_words as int == sum_seq(h.take(b as int)),
        decreases 243 - b,
    {
        let size = groups[b];
        proof {
            assert(h.take(b + 1).drop_last() =~= h.take(b as int));
            assert(h.take(b + 1).last() == h[b as int]);
            lemma_elem_le_sum(h, b as int);
            lemma_sum_take_le(h, b + 1);
            assert(forall|k: int|
                0 <= k < h.take(b + 1).len() ==> #[trigger] h.take(b + 1)[k] >= 0);
            lemma_sum_sq_le_square(h.take(b + 1));
            assert(sum_seq(h.take(b + 1)) * sum_seq(h.take(b + 1)) <= pool.len() * pool.len())
                by (nonlinear_arith)
                requires
                    0 <= sum_seq(h.take(b + 1)) <= pool.len(),
            ;
            assert(pool.len() * pool.len() < 0x4000_0000_0000_0000) by (nonlinear_arith)
                requires
                    0 <= pool.len() < 0x8000_0000,
            ;
            assert(size as int * size as int <= pool.len() * pool.len()) by (nonlinear_arith)
                requires
                    0 <= size as int <= pool.len(),
            ;
        }
        sum = sum + size * size;
        num_words = num_words + size;
        b = b + 1;
    }
    proof {
        assert(h.take(243) =~= h);
    }
    (sum, num_words)
}

/// Picks the next guess: the vocabulary word with the minimum expected
/// remaining-pool size, preferring on exact ties a word that is still a
/// candidate in the pool.
///
/// Fails with `EmptyPoolError` exactly when the pool is empty. A pool with a
/// single word short-circuits: that word must be the answer and is returned
/// without evaluation.
pub fn get_next_guess(remaining_words: &WordSet, word_list: &Vec<Word>) -> (r: Result<
    Word,
    EmptyPoolError,
>)
    requires
        remaining_words.wf(),
        forall|k: int| 0 <= k < remaining_words@.len() ==> (#[trigger] remaining_words@[k]).len()
            == 5,
        forall|k: int| 0 <= k < word_list@.len() ==> (#[trigger] word_list@[k])@.len() == 5,
        remaining_words@.len() < 0x8000_0000,
        remaining_words@.len() <= 1 || word_list@.len() > 0,
    ensures
        (r is Err) <==> remaining_words@.len() == 0,
        match r {
            Ok(w) => {
                &&& (remaining_words@.len() == 1 ==> w@ == remaining_words@[0])
                &&& (remaining_words@.len() > 1 ==> w@ == select_spec(
                    words_view(word_list@),
                    remaining_words@,
                ))
            },
            Err(e) => true,
        },
{
    let ghost pool = remaining_words@;
    let ghost vocab = words_view(word_list@);
    let n = remaining_words.len();
    if n == 0 {
        return Err(EmptyPoolError);
    }
    if n == 1 {
        let words = remaining_words.iter();
        return Ok(words[0].clone());
    }

    proof {
        assert((n as int) * (n as int) < 0x4000_0000_0000_0000) by (nonlinear_arith)
            requires
                0 <= n < 0x8000_0000,
        ;
    }
    let mut min_expected_remaining_words: u64 = (n as u64) * (n as u64) + 1;
    let mut best_idx: usize = 0;
    proof {
        assert(vocab[0] == word_list@[0]@);
        lemma_score_le_square(pool, vocab[0]);
        assert(select_from(vocab, pool, 0, Seq::empty(), pool.len() * pool.len() + 1int)
            == select_from(vocab, pool, 1, vocab[0], score(pool, vocab[0])));
        assert(select_from(vocab, pool, 0, vocab[0], pool.len() * pool.len() + 1int)
            == select_from(vocab, pool, 1, vocab[0], score(pool, vocab[0])));
    }
    let mut i: usize = 0;
    while i < word_list.len()
        invariant
            i <= word_list@.len(),
            word_list@.len() > 0,
            best_idx < word_list@.len(),
            vocab == words_view(word_list@),
            pool == remaining_words@,
            remaining_words.wf(),
            pool.len() < 0x8000_0000,
            pool.len() > 1,
            n == pool.len(),
            forall|k: int| 0 <= k < pool.len() ==> (#[trigger] pool[k]).len() == 5,
            forall|k: int| 0 <= k < word_list@.len() ==> (#[trigger] word_list@[k])@.len() == 5,
            select_from(vocab, pool, i as int, vocab[best_idx as int], min_expected_remaining_words as int)
                == select_spec(vocab, pool),
        decreases word_list@.len() - i,
    {
        let word = &word_list[i];
        proof {
            assert(vocab[i as int] == word_list@[i as int]@);
        }
        let expected = get_expected_remaining_words(remaining_words, word);
        let expected_remaining_words = expected.0;
        let is_plausible_word = remaining_words.contains(word);
        if expected_remaining_words < min_expected_remaining_words || (expected_remaining_words
            == min_expected_remaining_words && is_plausible_word) {
            proof {
                assert(select_from(
                    vocab,
                    pool,
                    i as int,
                    vocab[best_idx as int],
                    min_expected_remaining_words as int,
                ) == select_from(vocab, pool, i + 1, vocab[i as int], score(pool, vocab[i as int])));
            }
            min_expected_remaining_words = expected_remaining_words;
            best_idx = i;
        } else {
            proof {
                assert(select_from(
                    vocab,
                    pool,
                    i as int,
                    vocab[best_idx as int],
                    min_expected_remaining_words as int,
                ) == select_from(
                    vocab,
                    pool,
                    i + 1,
                    vocab[best_idx as int],
                    min_expected_remaining_words as int,
                ));
            }
        }
        i = i + 1;
    }
    proof {
        assert(select_from(
            vocab,
            pool,
            word_list@.len() as int,
            vocab[best_idx as int],
            min_expected_remaining_words as int,
        ) == vocab[best_idx as int]);
    }
    Ok(word_list[best_idx].clone())
}

} // verus!
