//! Scanning a corpus: counting token frequencies over its texts,
//! deriving the ranked vocabulary, and recording the transition matrix.
//!
//! The caller reads the text files (skipping unreadable ones, as it sees
//! fit) and hands their contents in as plain strings; everything that
//! decides or computes happens here.

pub mod config;

use vstd::prelude::*;

use crate::counts::{
    count_order, counts_of, lemma_counts_of_concat, lemma_rearranged_keys_distinct,
    lemma_rearranged_reflects_table, lex_le_bytes, sorted_entries, table_map, CountTable,
};
use crate::markov_chain::{
    bump_cell, contains_token, distinct_tokens, find_token, is_normalization_of, token_index,
    zero_matrix, MarkovChain, MarkovChainBuilder,
};
use crate::tokenizer::{rule_tokens, valid_pattern, Tokenizer};

verus! {

/// All tokens of the corpus, in text order then token order.
pub open spec fn corpus_tokens(pattern: Seq<char>, ignore_case: bool, texts: Seq<Seq<char>>) -> Seq<
    Seq<char>,
>
    decreases texts.len(),
{
    if texts.len() == 0 {
        Seq::empty()
    } else {
        corpus_tokens(pattern, ignore_case, texts.drop_last()) + rule_tokens(
            pattern,
            ignore_case,
            texts.last(),
        )
    }
}

/// `a` ranks no later than `b` in the vocabulary: a strictly larger
/// count, or the same count and `a` no later in byte order.
pub open spec fn vocab_order(m: Map<Seq<char>, nat>, a: Seq<char>, b: Seq<char>) -> bool {
    m[a] > m[b] || (m[a] == m[b] && lex_le_bytes(
        vstd::utf8::encode_utf8(a),
        vstd::utf8::encode_utf8(b),
    ))
}

/// `tokens` is the vocabulary of the corpus: exactly the distinct tokens
/// that occur, ordered by descending frequency with ties broken by
/// ascending byte order.
pub open spec fn is_vocabulary_of(
    pattern: Seq<char>,
    ignore_case: bool,
    texts: Seq<Seq<char>>,
    tokens: Seq<String>,
) -> bool {
    let m = counts_of(corpus_tokens(pattern, ignore_case, texts));
    &&& distinct_tokens(tokens)
    &&& forall|i: int| 0 <= i < tokens.len() ==> m.dom().contains(#[trigger] tokens[i]@)
    &&& forall|t: Seq<char>| #[trigger] m.dom().contains(t) ==> contains_token(tokens, t)
    &&& forall|i: int, j: int|
        0 <= i < j < tokens.len() ==> vocab_order(m, tokens[i]@, tokens[j]@)
}

proof fn lemma_vocab_order_antisym(m: Map<Seq<char>, nat>, a: Seq<char>, b: Seq<char>)
    requires
        vocab_order(m, a, b),
        vocab_order(m, b, a),
    ensures
        a == b,
{
    crate::counts::lemma_lex_antisym(vstd::utf8::encode_utf8(a), vstd::utf8::encode_utf8(b));
    vstd::utf8::encode_utf8_decode_utf8(a);
    vstd::utf8::encode_utf8_decode_utf8(b);
}

proof fn lemma_ranked_unique(m: Map<Seq<char>, nat>, t1: Seq<String>, t2: Seq<String>)
    requires
        distinct_tokens(t1),
        distinct_tokens(t2),
        forall|i: int, j: int| 0 <= i < j < t1.len() ==> vocab_order(m, t1[i]@, t1[j]@),
        forall|i: int, j: int| 0 <= i < j < t2.len() ==> vocab_order(m, t2[i]@, t2[j]@),
        forall|t: Seq<char>| contains_token(t1, t) <==> contains_token(t2, t),
    ensures
        t1.len() == t2.len(),
        forall|i: int| 0 <= i < t1.len() ==> t1[i]@ == t2[i]@,
    decreases t1.len(),
{
    if t1.len() == 0 {
        if t2.len() > 0 {
            assert(contains_token(t2, t2[0]@));
            assert(contains_token(t1, t2[0]@));
            assert(false);
        }
    } else if t2.len() == 0 {
        assert(contains_token(t1, t1[0]@));
        assert(contains_token(t2, t1[0]@));
        assert(false);
    } else {
        assert(contains_token(t1, t1[0]@));
        assert(contains_token(t2, t1[0]@));
        let k = choose|k: int| 0 <= k < t2.len() && #[trigger] t2[k]@ == t1[0]@;
        assert(contains_token(t2, t2[0]@));
        assert(contains_token(t1, t2[0]@));
        let l = choose|l: int| 0 <= l < t1.len() && #[trigger] t1[l]@ == t2[0]@;
        if k > 0 && l > 0 {
            assert(vocab_order(m, t2[0]@, t1[0]@));
            assert(vocab_order(m, t1[0]@, t2[0]@));
            lemma_vocab_order_antisym(m, t1[0]@, t2[0]@);
            assert(false);
        }
        assert(t1[0]@ == t2[0]@);
        let s1 = t1.skip(1);
        let s2 = t2.skip(1);
        assert forall|t: Seq<char>| contains_token(s1, t) implies contains_token(s2, t) by {
            let i = choose|i: int| 0 <= i < s1.len() && #[trigger] s1[i]@ == t;
            assert(t1[i + 1]@ == t);
            assert(contains_token(t1, t));
            assert(contains_token(t2, t));
            let j = choose|j: int| 0 <= j < t2.len() && #[trigger] t2[j]@ == t;
            assert(j != 0);
            assert(s2[j - 1]@ == t);
        }
        assert forall|t: Seq<char>| contains_token(s2, t) implies contains_token(s1, t) by {
            let i = choose|i: int| 0 <= i < s2.len() && #[trigger] s2[i]@ == t;
            assert(t2[i + 1]@ == t);
            assert(contains_token(t2, t));
            assert(contains_token(t1, t));
            let j = choose|j: int| 0 <= j < t1.len() && #[trigger] t1[j]@ == t;
            assert(j != 0);
            assert(s1[j - 1]@ == t);
        }
        assert(distinct_tokens(s1));
        assert(distinct_tokens(s2));
        assert forall|i: int, j: int| 0 <= i < j < s1.len() implies vocab_order(
            m,
            s1[i]@,
            s1[j]@,
        ) by {
            assert(vocab_order(m, t1[i + 1]@, t1[j + 1]@));
        }
        assert forall|i: int, j: int| 0 <= i < j < s2.len() implies vocab_order(
            m,
            s2[i]@,
            s2[j]@,
        ) by {
            assert(vocab_order(m, t2[i + 1]@, t2[j + 1]@));
        }
        lemma_ranked_unique(m, s1, s2);
        assert forall|i: int| 0 <= i < t1.len() implies t1[i]@ == t2[i]@ by {
            if i > 0 {
                assert(s1[i - 1]@ == s2[i - 1]@);
            }
        }
    }
}

/// The vocabulary is reproducible: the rule and the corpus pin it
/// completely, so any two vocabularies derived for the same rule and
/// texts agree token for token, across runs and platforms.
pub proof fn lemma_vocabulary_unique(
    pattern: Seq<char>,
    ignore_case: bool,
    texts: Seq<Seq<char>>,
    t1: Seq<String>,
    t2: Seq<String>,
)
    requires
        is_vocabulary_of(pattern, ignore_case, texts, t1),
        is_vocabulary_of(pattern, ignore_case, texts, t2),
    ensures
        t1.len() == t2.len(),
        forall|i: int| 0 <= i < t1.len() ==> t1[i]@ == t2[i]@,
{
    let m = counts_of(corpus_tokens(pattern, ignore_case, texts));
    assert forall|t: Seq<char>| contains_token(t1, t) implies contains_token(t2, t) by {
        let i = choose|i: int| 0 <= i < t1.len() && #[trigger] t1[i]@ == t;
        assert(m.dom().contains(t1[i]@));
    }
    assert forall|t: Seq<char>| contains_token(t2, t) implies contains_token(t1, t) by {
        let i = choose|i: int| 0 <= i < t2.len() && #[trigger] t2[i]@ == t;
        assert(m.dom().contains(t2[i]@));
    }
    lemma_ranked_unique(m, t1, t2);
}

/// Every token of the sequence occurs in the vocabulary.
pub open spec fn all_in_vocab(voc: Seq<String>, toks: Seq<Seq<char>>) -> bool {
    forall|k: int| 0 <= k < toks.len() ==> contains_token(voc, #[trigger] toks[k])
}

/// The matrix after recording the adjacent pairs of `toks` up to
/// position `upto`.
pub open spec fn record_pairs(
    voc: Seq<String>,
    m: Seq<Seq<u32>>,
    toks: Seq<Seq<char>>,
    upto: int,
) -> Seq<Seq<u32>>
    decreases upto,
{
    if upto <= 1 {
        m
    } else {
        bump_cell(
            record_pairs(voc, m, toks, upto - 1),
            token_index(voc, toks[upto - 2]),
            token_index(voc, toks[upto - 1]),
        )
    }
}

/// The matrix and transition count after one file: a file with fewer
/// than two tokens, a token outside the vocabulary, or one that would
/// overflow the transition counter is skipped whole.
pub open spec fn record_file(
    pattern: Seq<char>,
    ignore_case: bool,
    voc: Seq<String>,
    m: Seq<Seq<u32>>,
    rec: int,
    text: Seq<char>,
) -> (Seq<Seq<u32>>, int) {
    let toks = rule_tokens(pattern, ignore_case, text);
    if toks.len() >= 2 && all_in_vocab(voc, toks) && rec + toks.len() - 1 <= u32::MAX {
        (record_pairs(voc, m, toks, toks.len() as int), rec + toks.len() - 1)
    } else {
        (m, rec)
    }
}

/// The matrix and transition count after recording every file in order.
pub open spec fn record_corpus(
    pattern: Seq<char>,
    ignore_case: bool,
    voc: Seq<String>,
    m: Seq<Seq<u32>>,
    rec: int,
    texts: Seq<Seq<char>>,
) -> (Seq<Seq<u32>>, int)
    decreases texts.len(),
{
    if texts.len() == 0 {
        (m, rec)
    } else {
        let prev = record_corpus(pattern, ignore_case, voc, m, rec, texts.drop_last());
        record_file(pattern, ignore_case, voc, prev.0, prev.1, texts.last())
    }
}

/// Each text's own frequency table, in text order.
pub open spec fn file_counts(pattern: Seq<char>, ignore_case: bool, texts: Seq<Seq<char>>) -> Seq<
    Map<Seq<char>, nat>,
> {
    texts.map_values(|t: Seq<char>| counts_of(rule_tokens(pattern, ignore_case, t)))
}

/// A single-threaded sequential scan over all texts counts exactly what
/// merging the per-text tables counts. With `lemma_merge_any_order`,
/// workers may process the texts in any division and order and still
/// produce the same final count table.
pub proof fn lemma_sequential_scan_is_merge(
    pattern: Seq<char>,
    ignore_case: bool,
    texts: Seq<Seq<char>>,
)
    ensures
        counts_of(corpus_tokens(pattern, ignore_case, texts)) == crate::counts::merge_all(
            file_counts(pattern, ignore_case, texts),
        ),
    decreases texts.len(),
{
    let fc = file_counts(pattern, ignore_case, texts);
    if texts.len() == 0 {
        assert(counts_of(corpus_tokens(pattern, ignore_case, texts)) =~= Map::<
            Seq<char>,
            nat,
        >::empty());
    } else {
        let dl = texts.drop_last();
        lemma_sequential_scan_is_merge(pattern, ignore_case, dl);
        lemma_counts_of_concat(
            corpus_tokens(pattern, ignore_case, dl),
            rule_tokens(pattern, ignore_case, texts.last()),
        );
        assert(fc.drop_last() =~= file_counts(pattern, ignore_case, dl));
        assert(fc.last() == counts_of(rule_tokens(pattern, ignore_case, texts.last())));
    }
}

proof fn lemma_corpus_tokens_take_step(
    pattern: Seq<char>,
    ignore_case: bool,
    texts: Seq<Seq<char>>,
    k: int,
)
    requires
        0 <= k < texts.len(),
    ensures
        corpus_tokens(pattern, ignore_case, texts.take(k + 1)) == corpus_tokens(
            pattern,
            ignore_case,
            texts.take(k),
        ) + rule_tokens(pattern, ignore_case, texts[k]),
{
    assert(texts.take(k + 1).drop_last() =~= texts.take(k));
    assert(texts.take(k + 1).last() == texts[k]);
}

proof fn lemma_corpus_tokens_take_le(
    pattern: Seq<char>,
    ignore_case: bool,
    texts: Seq<Seq<char>>,
    k: int,
)
    requires
        0 <= k <= texts.len(),
    ensures
        corpus_tokens(pattern, ignore_case, texts.take(k)).len() <= corpus_tokens(
            pattern,
            ignore_case,
            texts,
        ).len(),
    decreases texts.len() - k,
{
    if k == texts.len() {
        assert(texts.take(k) =~= texts);
    } else {
        lemma_corpus_tokens_take_le(pattern, ignore_case, texts, k + 1);
        lemma_corpus_tokens_take_step(pattern, ignore_case, texts, k);
    }
}

proof fn lemma_record_corpus_take_step(
    pattern: Seq<char>,
    ignore_case: bool,
    voc: Seq<String>,
    m: Seq<Seq<u32>>,
    rec: int,
    texts: Seq<Seq<char>>,
    k: int,
)
    requires
        0 <= k < texts.len(),
    ensures
        record_corpus(pattern, ignore_case, voc, m, rec, texts.take(k + 1)) == record_file(
            pattern,
            ignore_case,
            voc,
            record_corpus(pattern, ignore_case, voc, m, rec, texts.take(k)).0,
            record_corpus(pattern, ignore_case, voc, m, rec, texts.take(k)).1,
            texts[k],
        ),
{
    assert(texts.take(k + 1).drop_last() =~= texts.take(k));
    assert(texts.take(k + 1).last() == texts[k]);
}

/// Copies a token list.
fn clone_tokens(v: &Vec<String>) -> (r: Vec<String>)
    ensures
        r@ == v@,
{
    let n = v.len();
    let mut r: Vec<String> = Vec::new();
    for i in 0..n
        invariant
            n == v@.len(),
            r@.len() == i,
            forall|j: int| 0 <= j < i ==> #[trigger] r@[j] == v@[j],
    {
        r.push(v[i].clone());
    }
    proof {
        assert(r@ =~= v@);
    }
    r
}

/// A corpus: its configuration, the compiled token rule, and the
/// vocabulary derived from the last scan.
pub struct Corpora {
    pub cfg: config::Config,
    pub tokenizer: Tokenizer,
    pub tokens: Vec<String>,
}

impl Corpora {
    /// The rule matches the configuration and the vocabulary is
    /// distinct.
    pub open spec fn wf(self) -> bool {
        &&& self.tokenizer.wf()
        &&& self.tokenizer.pattern@ == self.cfg.tokenize.token@
        &&& self.tokenizer.ignore_case == self.cfg.tokenize.ignore_case
        &&& distinct_tokens(self.tokens@)
    }

    /// Opens a corpus from its parsed configuration, rejecting an
    /// invalid token pattern before any scanning starts.
    pub fn open(cfg: config::Config) -> (r: Result<Corpora, ()>)
        ensures
            r is Ok <==> valid_pattern(cfg.tokenize.token@, cfg.tokenize.ignore_case),
            r is Ok ==> {
                let c = r.unwrap();
                c.wf() && c.cfg == cfg && c.tokens@.len() == 0
            },
    {
        match Tokenizer::new(cfg.tokenize.token.as_str(), cfg.tokenize.ignore_case) {
            Ok(tokenizer) => Ok(Corpora { cfg, tokenizer, tokens: Vec::new() }),
            Err(()) => Err(()),
        }
    }

    /// Tokenizes one text and counts each token's occurrences in it.
    pub fn analyze_text(&self, text: &str) -> (r: CountTable)
        requires
            self.wf(),
        ensures
            r.wf(),
            r@ == counts_of(rule_tokens(self.tokenizer.pattern@, self.tokenizer.ignore_case, text@)),
            r.total == rule_tokens(
                self.tokenizer.pattern@,
                self.tokenizer.ignore_case,
                text@,
            ).len(),
    {
        let toks = self.tokenizer.tokenize(text);
        CountTable::from_tokens(&toks)
    }

    /// Sorts a frequency table into (token, count) pairs by descending
    /// count, ties by ascending byte order of the token.
    pub fn sort_tokenization(tokenized: CountTable) -> (r: Vec<(String, u64)>)
        ensures
            r@.to_multiset() == tokenized.entries@.to_multiset(),
            sorted_entries(r@),
    {
        tokenized.into_sorted()
    }

    /// Scans the corpus texts: counts each text's tokens, merges the
    /// partial counts — pointwise addition, so any grouping or order of
    /// the texts gives the same table — and derives the vocabulary,
    /// ranked by descending frequency with ties broken by byte order.
    /// Fails only when the corpus holds more tokens than the counter can
    /// hold, and then leaves the vocabulary unchanged.
    pub fn analyze_all(&mut self, texts: &Vec<String>) -> (r: Result<(), ()>)
        requires
            old(self).wf(),
        ensures
            final(self).wf(),
            final(self).cfg == old(self).cfg,
            final(self).tokenizer == old(self).tokenizer,
            (r is Ok) <==> corpus_tokens(
                old(self).tokenizer.pattern@,
                old(self).tokenizer.ignore_case,
                texts.deep_view(),
            ).len() <= u64::MAX,
            r is Ok ==> is_vocabulary_of(
                old(self).tokenizer.pattern@,
                old(self).tokenizer.ignore_case,
                texts.deep_view(),
                final(self).tokens@,
            ),
            r is Err ==> final(self).tokens == old(self).tokens,
    {
        let ghost pat = self.tokenizer.pattern@;
        let ghost ci = self.tokenizer.ignore_case;
        let ghost tv = texts.deep_view();
        let n = texts.len();
        let mut merged = CountTable::new();
        proof {
            assert(tv.take(0) =~= Seq::<Seq<char>>::empty());
            assert(counts_of(corpus_tokens(pat, ci, tv.take(0))) =~= Map::<Seq<char>, nat>::empty());
        }
        for k in 0..n
            invariant
                *self == *old(self),
                self.wf(),
                pat == self.tokenizer.pattern@,
                ci == self.tokenizer.ignore_case,
                n == texts@.len(),
                tv == texts.deep_view(),
                tv.len() == n,
                forall|j: int| 0 <= j < n ==> #[trigger] tv[j] == texts@[j]@,
                merged.wf(),
                merged@ == counts_of(corpus_tokens(pat, ci, tv.take(k as int))),
                merged.total == corpus_tokens(pat, ci, tv.take(k as int)).len(),
        {
            let tab = self.analyze_text(texts[k].as_str());
            proof {
                lemma_corpus_tokens_take_step(pat, ci, tv, k as int);
            }
            if tab.total > u64::MAX - merged.total {
                proof {
                    lemma_corpus_tokens_take_le(pat, ci, tv, k as int + 1);
                }
                return Err(());
            }
            proof {
                lemma_counts_of_concat(
                    corpus_tokens(pat, ci, tv.take(k as int)),
                    rule_tokens(pat, ci, tv[k as int]),
                );
            }
            merged.merge(&tab);
        }
        proof {
            assert(tv.take(n as int) =~= tv);
        }
        let ghost me = merged.entries@;
        let ghost grand = counts_of(corpus_tokens(pat, ci, tv));
        proof {
            assert(table_map(me) == grand);
        }
        let sorted = Self::sort_tokenization(merged);
        let m = sorted.len();
        let mut toks_out: Vec<String> = Vec::new();
        for k in 0..m
            invariant
                m == sorted@.len(),
                toks_out@.len() == k,
                forall|j: int| 0 <= j < k ==> #[trigger] toks_out@[j]@ == sorted@[j].0@,
        {
            toks_out.push(sorted[k].0.clone());
        }
        proof {
            lemma_rearranged_keys_distinct(me, sorted@);
            lemma_rearranged_reflects_table(me, sorted@);
            assert(distinct_tokens(toks_out@));
            assert forall|t: Seq<char>| #[trigger] grand.dom().contains(t) implies contains_token(
                toks_out@,
                t,
            ) by {
                let k = choose|k: int| 0 <= k < sorted@.len() && (#[trigger] sorted@[k]).0@ == t;
                assert(toks_out@[k]@ == t);
            }
            assert forall|i: int, j: int| 0 <= i < j < toks_out@.len() implies vocab_order(
                grand,
                toks_out@[i]@,
                toks_out@[j]@,
            ) by {
                assert(count_order(sorted@[i], sorted@[j]));
                assert(grand[sorted@[i].0@] == sorted@[i].1 as nat);
                assert(grand[sorted@[j].0@] == sorted@[j].1 as nat);
            }
        }
        self.tokens = toks_out;
        Ok(())
    }

    /// Re-scans each text and records every adjacent token pair into the
    /// occurrence matrix over this corpus's vocabulary, then normalizes
    /// it into the chain. Texts with fewer than two tokens, with a token
    /// missing from the vocabulary, or that would overflow the
    /// transition counter are skipped whole; the rest contribute their
    /// transitions in order.
    pub fn build_markov_chain(&self, texts: &Vec<String>, jobs: usize) -> (r: MarkovChain)
        requires
            self.wf(),
            jobs >= 1,
        ensures
            r.wf(),
            r.states@ == self.tokens@,
            r.current_state == 0,
            is_normalization_of(
                r.matrix@,
                record_corpus(
                    self.tokenizer.pattern@,
                    self.tokenizer.ignore_case,
                    self.tokens@,
                    zero_matrix(self.tokens@.len() as int),
                    0,
                    texts.deep_view(),
                ).0,
            ),
    {
        let ghost pat = self.tokenizer.pattern@;
        let ghost ci = self.tokenizer.ignore_case;
        let ghost tv = texts.deep_view();
        let ghost voc = self.tokens@;
        let ghost z = zero_matrix(self.tokens@.len() as int);
        let states = clone_tokens(&self.tokens);
        let mut builder = MarkovChainBuilder::with_states(states);
        let n = texts.len();
        proof {
            assert(tv.take(0) =~= Seq::<Seq<char>>::empty());
        }
        for k in 0..n
            invariant
                self.wf(),
                pat == self.tokenizer.pattern@,
                ci == self.tokenizer.ignore_case,
                voc == self.tokens@,
                z == zero_matrix(voc.len() as int),
                n == texts@.len(),
                tv == texts.deep_view(),
                tv.len() == n,
                forall|j: int| 0 <= j < n ==> #[trigger] tv[j] == texts@[j]@,
                builder.wf(),
                builder.is_recording(),
                builder.vectored@ == voc,
                builder.mat() == record_corpus(pat, ci, voc, z, 0, tv.take(k as int)).0,
                builder.recorded as int == record_corpus(pat, ci, voc, z, 0, tv.take(k as int)).1,
        {
            let toks = self.tokenizer.tokenize(texts[k].as_str());
            let ghost stoks = rule_tokens(pat, ci, tv[k as int]);
            proof {
                assert(toks.deep_view() == stoks);
                assert(forall|q: int| 0 <= q < toks@.len() ==> #[trigger] toks@[q]@ == stoks[q]);
                lemma_record_corpus_take_step(pat, ci, voc, z, 0, tv, k as int);
            }
            let count = toks.len();
            if count >= 2 {
                let mut all = true;
                for q in 0..count
                    invariant
                        count == toks@.len(),
                        stoks.len() == count,
                        forall|t: int| 0 <= t < count ==> #[trigger] toks@[t]@ == stoks[t],
                        voc == self.tokens@,
                        all == (forall|j: int|
                            0 <= j < q ==> contains_token(voc, #[trigger] stoks[j])),
                {
                    match find_token(&self.tokens, &toks[q]) {
                        Some(i) => {
                            proof {
                                assert(self.tokens@[i as int]@ == stoks[q as int]);
                                assert(contains_token(voc, stoks[q as int]));
                            }
                        },
                        None => {
                            proof {
                                assert(!contains_token(voc, stoks[q as int]));
                            }
                            all = false;
                        },
                    }
                }
                let rec = builder.transitions_recorded();
                let pairs = count - 1;
                let cap_ok = (pairs as u64) <= (u32::MAX as u64) - rec;
                if all && cap_ok {
                    let ghost m_before = builder.mat();
                    let ghost rec_before = builder.recorded as int;
                    for q in 1..count
                        invariant
                            count == toks@.len(),
                            count >= 2,
                            stoks.len() == count,
                            forall|t: int| 0 <= t < count ==> #[trigger] toks@[t]@ == stoks[t],
                            all_in_vocab(voc, stoks),
                            rec_before + count - 1 <= u32::MAX,
                            builder.wf(),
                            builder.is_recording(),
                            builder.vectored@ == voc,
                            builder.mat() == record_pairs(voc, m_before, stoks, q as int),
                            builder.recorded as int == rec_before + q - 1,
                    {
                        builder.add_transition(&toks[q - 1], &toks[q]);
                    }
                }
            }
        }
        proof {
            assert(tv.take(n as int) =~= tv);
        }
        builder.build(jobs)
    }

    /// The configuration this corpus was opened with.
    pub fn get_config(&self) -> (r: &config::Config)
        ensures
            r == &self.cfg,
    {
        &self.cfg
    }
}

/// Builds a chain in one step: validates the pattern of the parsed
/// configuration, scans the texts for the vocabulary, records the
/// transitions, and normalizes. Fails exactly when the pattern is
/// invalid or the corpus holds more tokens than the counter can hold.
pub fn build_chain(cfg: config::Config, texts: &Vec<String>, jobs: usize) -> (r: Result<
    MarkovChain,
    (),
>)
    requires
        jobs >= 1,
    ensures
        (r is Ok) <==> valid_pattern(cfg.tokenize.token@, cfg.tokenize.ignore_case)
            && corpus_tokens(
            cfg.tokenize.token@,
            cfg.tokenize.ignore_case,
            texts.deep_view(),
        ).len() <= u64::MAX,
        r is Ok ==> {
            let c = r.unwrap();
            &&& c.wf()
            &&& c.current_state == 0
            &&& is_vocabulary_of(
                cfg.tokenize.token@,
                cfg.tokenize.ignore_case,
                texts.deep_view(),
                c.states@,
            )
            &&& is_normalization_of(
                c.matrix@,
                record_corpus(
                    cfg.tokenize.token@,
                    cfg.tokenize.ignore_case,
                    c.states@,
                    zero_matrix(c.states@.len() as int),
                    0,
                    texts.deep_view(),
                ).0,
            )
        },
{
    match Corpora::open(cfg) {
        Ok(mut corp) => {
            match corp.analyze_all(texts) {
                Ok(()) => Ok(corp.build_markov_chain(texts, jobs)),
                Err(()) => Err(()),
            }
        },
        Err(()) => Err(()),
    }
}

} // verus!
