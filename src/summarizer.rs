use vstd::prelude::*;
use vstd::string::*;

use crate::frequency::{
    count_table, distinct_words, lemma_distinct_words, lemma_occurrences_bounds,
    lemma_occurrences_push, occurrences, FreqMap,
};
use crate::tokenizer::{
    is_space, lemma_blank_text_has_no_sentences, lemma_sentences_fit, lemma_tokens_fit, sentences_of,
    tokens_of, total_length, views, Tokenizer,
};

verus! {

/// The token lists of all sentences, as character sequences.
pub open spec fn corpus_of(tokens: Seq<Vec<&str>>) -> Seq<Seq<Seq<char>>> {
    tokens.map_values(|v: Vec<&str>| views(v@))
}

/// How many times `w` occurs over all sentences together: occurrences are
/// summed, not sentences that hold the word counted.
pub open spec fn corpus_occurrences(corpus: Seq<Seq<Seq<char>>>, w: Seq<char>) -> nat
    decreases corpus.len(),
{
    if corpus.len() == 0 {
        0
    } else {
        corpus_occurrences(corpus.drop_last(), w) + occurrences(corpus.last(), w)
    }
}

/// The number of tokens over all sentences.
pub open spec fn total_tokens(corpus: Seq<Seq<Seq<char>>>) -> nat
    decreases corpus.len(),
{
    if corpus.len() == 0 {
        0
    } else {
        total_tokens(corpus.drop_last()) + corpus.last().len()
    }
}

/// The integers behind one token's contribution to its sentence's score:
/// term frequency `count / length`, inverse document frequency
/// `log10(sentences / occurrences)`.
#[derive(Clone, Copy, Debug, PartialEq, Eq, Structural)]
pub struct Term {
    /// Occurrences of the token in its sentence.
    pub count: usize,
    /// Tokens in the sentence.
    pub length: usize,
    /// Occurrences of the token over all sentences.
    pub occurrences: usize,
    /// Sentences in the document.
    pub sentences: usize,
}

/// The term of token `j` of sentence `i`.
pub open spec fn term_at(corpus: Seq<Seq<Seq<char>>>, i: int, j: int) -> Term {
    Term {
        count: occurrences(corpus[i], corpus[i][j]) as usize,
        length: corpus[i].len() as usize,
        occurrences: corpus_occurrences(corpus, corpus[i][j]) as usize,
        sentences: corpus.len() as usize,
    }
}

/// Sentence `a` comes before sentence `b` in the ranking: a higher key,
/// or an equal key and an earlier position.
pub open spec fn ranked_before(keys: Seq<i32>, a: int, b: int) -> bool {
    keys[a] > keys[b] || (keys[a] == keys[b] && a < b)
}

/// `order` lists every position of `keys` once, by key from highest to
/// lowest, equal keys in the order of their positions.
pub open spec fn is_ranking(keys: Seq<i32>, order: Seq<usize>) -> bool {
    &&& order.len() == keys.len()
    &&& forall|i: int| 0 <= i < order.len() ==> order[i] < keys.len()
    &&& forall|a: usize| a < keys.len() ==> #[trigger] order.contains(a)
    &&& forall|i: int, j: int|
        0 <= i < j < order.len() ==> ranked_before(keys, order[i] as int, order[j] as int)
}

/// The positions chosen for a summary of `count` sentences: the first
/// `count` of the ranking, or all of it where there are fewer.
pub open spec fn selected(order: Seq<usize>, count: nat) -> Seq<usize> {
    order.take(if count < order.len() {
        count as int
    } else {
        order.len() as int
    })
}

/// `parts` joined with `sep` between neighbours.
pub open spec fn join(parts: Seq<Seq<char>>, sep: Seq<char>) -> Seq<char>
    decreases parts.len(),
{
    if parts.len() == 0 {
        Seq::empty()
    } else if parts.len() == 1 {
        parts[0]
    } else {
        join(parts.drop_last(), sep) + sep + parts.last()
    }
}

/// The separator between the sentences of a summary.
pub open spec fn summary_separator() -> Seq<char> {
    seq!['.', ' ']
}

/// The summary text: the selected sentences in ranked order, joined.
pub open spec fn summary_text(sentences: Seq<Seq<char>>, order: Seq<usize>, count: nat) -> Seq<
    char,
> {
    join(
        selected(order, count).map_values(|i: usize| sentences[i as int]),
        summary_separator(),
    )
}

proof fn lemma_corpus_occurrences_bound(corpus: Seq<Seq<Seq<char>>>, w: Seq<char>)
    ensures
        corpus_occurrences(corpus, w) <= total_tokens(corpus),
    decreases corpus.len(),
{
    if corpus.len() > 0 {
        lemma_corpus_occurrences_bound(corpus.drop_last(), w);
        lemma_occurrences_bounds(corpus.last(), w);
    }
}

proof fn lemma_total_tokens_prefix(corpus: Seq<Seq<Seq<char>>>, d: int)
    requires
        0 <= d <= corpus.len(),
    ensures
        total_tokens(corpus.take(d)) <= total_tokens(corpus),
        d < corpus.len() ==> total_tokens(corpus.take(d)) + corpus[d].len() <= total_tokens(
            corpus,
        ),
    decreases corpus.len() - d,
{
    if d < corpus.len() {
        lemma_total_tokens_prefix(corpus, d + 1);
        assert(corpus.take(d + 1).drop_last() =~= corpus.take(d));
    } else {
        assert(corpus.take(d) =~= corpus);
    }
}

/// The occurrences of `key` in `doc`.
fn occurrences_in(doc: &Vec<&str>, key: &String) -> (r: usize)
    ensures
        r == occurrences(views(doc@), key@),
{
    let ghost ws = views(doc@);
    let mut c: usize = 0;
    for t in 0..doc.len()
        invariant
            ws == views(doc@),
            c == occurrences(ws.take(t as int), key@),
            c <= t,
    {
        let tok: String = doc[t].to_owned();
        proof {
            assert(ws.take(t + 1) =~= ws.take(t as int).push(tok@));
            lemma_occurrences_push(ws.take(t as int), tok@, key@);
        }
        if tok == *key {
            c = c + 1;
        }
    }
    proof {
        assert(ws.take(doc.len() as int) =~= ws);
    }
    c
}

/// The occurrences of `key` over all sentences.
fn occurrences_in_corpus(tokens: &Vec<Vec<&str>>, key: &String) -> (r: usize)
    requires
        total_tokens(corpus_of(tokens@)) <= usize::MAX,
    ensures
        r == corpus_occurrences(corpus_of(tokens@), key@),
{
    let ghost corpus = corpus_of(tokens@);
    let mut c: usize = 0;
    for d in 0..tokens.len()
        invariant
            corpus == corpus_of(tokens@),
            total_tokens(corpus) <= usize::MAX,
            c == corpus_occurrences(corpus.take(d as int), key@),
    {
        let here = occurrences_in(&tokens[d], key);
        proof {
            let pre = corpus.take(d as int);
            assert(corpus.take(d + 1).drop_last() =~= pre);
            assert(corpus.take(d + 1).last() == corpus[d as int]);
            lemma_corpus_occurrences_bound(corpus.take(d + 1), key@);
            lemma_total_tokens_prefix(corpus, d + 1);
        }
        c = c + here;
    }
    proof {
        assert(corpus.take(tokens.len() as int) =~= corpus);
    }
    c
}

proof fn lemma_rankings_agree_upto(keys: Seq<i32>, o1: Seq<usize>, o2: Seq<usize>, i: int)
    requires
        is_ranking(keys, o1),
        is_ranking(keys, o2),
        0 <= i < o1.len(),
    ensures
        forall|k: int| 0 <= k <= i ==> o1[k] == o2[k],
    decreases i,
{
    if i > 0 {
        lemma_rankings_agree_upto(keys, o1, o2, i - 1);
    }
    let a = o1[i];
    let b = o2[i];
    if a != b {
        assert(o2.contains(a));
        let p = choose|p: int| 0 <= p < o2.len() && o2[p] == a;
        assert(o1.contains(b));
        let q = choose|q: int| 0 <= q < o1.len() && o1[q] == b;
        if p < i {
            assert(o1[p] == a);
            assert(ranked_before(keys, o1[p] as int, o1[i] as int));
        } else if q < i {
            assert(o2[q] == b);
            assert(ranked_before(keys, o2[q] as int, o2[i] as int));
        } else {
            assert(ranked_before(keys, b as int, a as int));
            assert(ranked_before(keys, a as int, b as int));
        }
    }
}

/// The ranking is determined by the keys: at most one order is a ranking,
/// so the summary that `select` returns is determined too.
pub proof fn lemma_ranking_unique(keys: Seq<i32>, o1: Seq<usize>, o2: Seq<usize>)
    requires
        is_ranking(keys, o1),
        is_ranking(keys, o2),
    ensures
        o1 == o2,
{
    assert forall|i: int| 0 <= i < o1.len() implies o1[i] == o2[i] by {
        lemma_rankings_agree_upto(keys, o1, o2, i);
    }
    assert(o1 =~= o2);
}

/// A summary asked for `count` sentences holds `count` of them, or all of
/// them where the document has fewer.
pub proof fn lemma_summary_size(keys: Seq<i32>, order: Seq<usize>, count: nat)
    requires
        is_ranking(keys, order),
    ensures
        selected(order, count).len() == if count < keys.len() {
            count
        } else {
            keys.len()
        },
{
}

/// Asking for no sentence gives the empty summary; asking for as many as
/// the document has, or more, gives every sentence.
pub proof fn lemma_summary_extremes(
    sentences: Seq<Seq<char>>,
    keys: Seq<i32>,
    order: Seq<usize>,
    count: nat,
)
    requires
        is_ranking(keys, order),
        sentences.len() == keys.len(),
    ensures
        summary_text(sentences, order, 0) == Seq::<char>::empty(),
        count >= keys.len() ==> selected(order, count) == order,
        count >= keys.len() ==> forall|a: usize|
            a < keys.len() ==> #[trigger] selected(order, count).contains(a),
{
    assert(selected(order, 0).map_values(|i: usize| sentences[i as int]).len() == 0);
    if count >= keys.len() {
        assert(selected(order, count) =~= order);
    }
}

/// Sentences are scored and ranked by position, not by text: two
/// sentences with the same tokens get the same terms, and both positions
/// stand in the ranking, in distinct places.
pub proof fn lemma_duplicates_kept_apart(
    corpus: Seq<Seq<Seq<char>>>,
    keys: Seq<i32>,
    order: Seq<usize>,
    a: usize,
    b: usize,
)
    requires
        is_ranking(keys, order),
        corpus.len() == keys.len(),
        a < corpus.len(),
        b < corpus.len(),
        a != b,
        corpus[a as int] == corpus[b as int],
    ensures
        forall|j: int|
            0 <= j < corpus[a as int].len() ==> #[trigger] term_at(corpus, a as int, j) == term_at(
                corpus,
                b as int,
                j,
            ),
        exists|p: int, q: int|
            0 <= p < order.len() && 0 <= q < order.len() && p != q && order[p] == a && order[q]
                == b,
{
    assert(order.contains(a));
    assert(order.contains(b));
    let p = choose|p: int| 0 <= p < order.len() && order[p] == a;
    let q = choose|q: int| 0 <= q < order.len() && order[q] == b;
    assert(p != q);
}

proof fn lemma_corpus_occurrences_at_least(corpus: Seq<Seq<Seq<char>>>, i: int, w: Seq<char>)
    requires
        0 <= i < corpus.len(),
    ensures
        occurrences(corpus[i], w) <= corpus_occurrences(corpus, w),
    decreases corpus.len(),
{
    if i < corpus.len() - 1 {
        lemma_corpus_occurrences_at_least(corpus.drop_last(), i, w);
    }
}

/// Every term can be evaluated: the sentence has tokens, the token occurs
/// in it, and its occurrences over the document are at least those in its
/// sentence, so neither the term frequency nor the inverse document
/// frequency divides by zero.
pub proof fn lemma_terms_defined(corpus: Seq<Seq<Seq<char>>>, i: int, j: int)
    requires
        0 <= i < corpus.len(),
        0 <= j < corpus[i].len(),
        corpus.len() <= usize::MAX,
        total_tokens(corpus) <= usize::MAX,
    ensures
        1 <= term_at(corpus, i, j).count <= term_at(corpus, i, j).length,
        term_at(corpus, i, j).count <= term_at(corpus, i, j).occurrences,
        1 <= term_at(corpus, i, j).sentences,
{
    let w = corpus[i][j];
    assert(corpus[i].contains(w));
    lemma_occurrences_bounds(corpus[i], w);
    lemma_corpus_occurrences_at_least(corpus, i, w);
    lemma_corpus_occurrences_bound(corpus, w);
    lemma_total_tokens_prefix(corpus, i);
}

proof fn lemma_occurrences_once(ws: Seq<Seq<char>>, j: int)
    requires
        ws.no_duplicates(),
        0 <= j < ws.len(),
    ensures
        occurrences(ws, ws[j]) == 1,
    decreases ws.len(),
{
    let init = ws.drop_last();
    if j < ws.len() - 1 {
        assert(init.no_duplicates());
        lemma_occurrences_once(init, j);
        assert(ws[j] != ws.last());
    } else {
        assert forall|k: int| 0 <= k < init.len() implies init[k] != ws[j] by {
            assert(ws[k] != ws[j]);
        }
        lemma_occurrences_bounds(init, ws[j]);
    }
}

/// In a document of one sentence without repeated tokens, each token
/// occurs once over the document, as many times as there are sentences:
/// its inverse document frequency is `log10(1) = 0`, and so is the score.
pub proof fn lemma_single_sentence_idf_zero(corpus: Seq<Seq<Seq<char>>>)
    requires
        corpus.len() == 1,
        corpus[0].no_duplicates(),
    ensures
        forall|j: int|
            0 <= j < corpus[0].len() ==> #[trigger] term_at(corpus, 0, j).occurrences == 1
                && term_at(corpus, 0, j).sentences == 1,
{
    assert forall|j: int| 0 <= j < corpus[0].len() implies #[trigger] term_at(
        corpus,
        0,
        j,
    ).occurrences == 1 && term_at(corpus, 0, j).sentences == 1 by {
        let w = corpus[0][j];
        lemma_occurrences_once(corpus[0], j);
        assert(corpus.drop_last().len() == 0);
        assert(corpus_occurrences(corpus.drop_last(), w) == 0);
        assert(corpus.last() == corpus[0]);
        assert(corpus_occurrences(corpus, w) == 1);
    }
}

/// A document of whitespace alone has no sentence, and its summary is
/// empty whatever is asked for.
pub proof fn lemma_blank_document_empty_summary(
    text: Seq<char>,
    keys: Seq<i32>,
    order: Seq<usize>,
    count: nat,
)
    requires
        forall|k: int| 0 <= k < text.len() ==> is_space(#[trigger] text[k]),
        keys.len() == sentences_of(text).len(),
        is_ranking(keys, order),
    ensures
        sentences_of(text).len() == 0,
        summary_text(sentences_of(text), order, count) == Seq::<char>::empty(),
{
    lemma_blank_text_has_no_sentences(text);
    assert(selected(order, count).map_values(|i: usize| sentences_of(text)[i as int]).len() == 0);
}

/// The token lists of the sentences of a text.
pub open spec fn text_corpus(text: Seq<char>) -> Seq<Seq<Seq<char>>> {
    sentences_of(text).map_values(|s: Seq<char>| tokens_of(s))
}

proof fn lemma_corpus_fits(ss: Seq<Seq<char>>)
    ensures
        total_tokens(ss.map_values(|s: Seq<char>| tokens_of(s))) <= total_length(ss),
    decreases ss.len(),
{
    if ss.len() > 0 {
        lemma_corpus_fits(ss.drop_last());
        lemma_tokens_fit(ss.last());
        let c = ss.map_values(|s: Seq<char>| tokens_of(s));
        assert(c.drop_last() =~= ss.drop_last().map_values(|s: Seq<char>| tokens_of(s)));
    }
}

/// Scores sentences by TF-IDF and picks the best of them.
pub struct Summarizer {}

impl Summarizer {
    /// The term-frequency table of one sentence: each distinct token with its
    /// count; its term frequency is that count over the sentence's length.
    pub fn compute_term_frequency(tokenized_sentence: &Vec<&str>) -> (r: FreqMap)
        ensures
            r@ == count_table(views(tokenized_sentence@)),
    {
        Tokenizer::get_freq_map(tokenized_sentence)
    }

    /// For each token of `tokenized_sentence`, in order, its occurrences over
    /// all the sentences of `tokens`; its inverse document frequency is
    /// `log10(tokens.len() / occurrences)`.
    pub fn compute_inverse_doc_frequency(tokenized_sentence: &Vec<&str>, tokens: &Vec<Vec<&str>>) -> (r: Vec<usize>)
        requires
            total_tokens(corpus_of(tokens@)) <= usize::MAX,
        ensures
            r@.len() == tokenized_sentence@.len(),
            forall|j: int|
                0 <= j < r@.len() ==> r@[j] == corpus_occurrences(
                    corpus_of(tokens@),
                    tokenized_sentence@[j]@,
                ),
    {
        let mut r: Vec<usize> = Vec::new();
        for j in 0..tokenized_sentence.len()
            invariant
                total_tokens(corpus_of(tokens@)) <= usize::MAX,
                r@.len() == j,
                forall|m: int|
                    0 <= m < j ==> r@[m] == corpus_occurrences(
                        corpus_of(tokens@),
                        tokenized_sentence@[m]@,
                    ),
        {
            let key: String = tokenized_sentence[j].to_owned();
            let df = occurrences_in_corpus(tokens, &key);
            r.push(df);
        }
        r
    }

    /// The terms of every token of every sentence, by position: entry `j` of
    /// row `i` is the term of token `j` of sentence `i`. A sentence's score
    /// is the sum over its row of `count / length * log10(sentences /
    /// occurrences)`.
    pub fn score_terms(tokens: &Vec<Vec<&str>>) -> (r: Vec<Vec<Term>>)
        requires
            total_tokens(corpus_of(tokens@)) <= usize::MAX,
        ensures
            r@.len() == tokens@.len(),
            forall|i: int| 0 <= i < r@.len() ==> (#[trigger] r@[i])@.len() == tokens@[i]@.len(),
            forall|i: int, j: int|
                0 <= i < r@.len() && 0 <= j < r@[i]@.len() ==> (#[trigger] r@[i]@[j]) == term_at(
                    corpus_of(tokens@),
                    i,
                    j,
                ),
    {
        let ghost corpus = corpus_of(tokens@);
        let mut r: Vec<Vec<Term>> = Vec::new();
        for i in 0..tokens.len()
            invariant
                corpus == corpus_of(tokens@),
                total_tokens(corpus) <= usize::MAX,
                r@.len() == i,
                forall|m: int| 0 <= m < i ==> (#[trigger] r@[m])@.len() == tokens@[m]@.len(),
                forall|m: int, j: int|
                    0 <= m < i && 0 <= j < r@[m]@.len() ==> (#[trigger] r@[m]@[j]) == term_at(
                        corpus,
                        m,
                        j,
                    ),
        {
            let sentence = &tokens[i];
            let tf = Summarizer::compute_term_frequency(sentence);
            let idf = Summarizer::compute_inverse_doc_frequency(sentence, tokens);
            let ghost s = corpus[i as int];
            proof {
                assert(s == views(sentence@));
                lemma_distinct_words(s);
                lemma_total_tokens_prefix(corpus, i as int);
            }
            let mut row: Vec<Term> = Vec::new();
            for j in 0..sentence.len()
                invariant
                    corpus == corpus_of(tokens@),
                    s == corpus[i as int],
                    s == views(sentence@),
                    sentence == &tokens@[i as int],
                    tf@ == count_table(s),
                    idf@.len() == sentence@.len(),
                    forall|m: int|
                        0 <= m < idf@.len() ==> idf@[m] == corpus_occurrences(
                            corpus,
                            sentence@[m]@,
                        ),
                    forall|w: Seq<char>| distinct_words(s).contains(w) <==> s.contains(w),
                    sentence@.len() <= usize::MAX,
                    row@.len() == j,
                    forall|m: int| 0 <= m < j ==> (#[trigger] row@[m]) == term_at(corpus, i as int, m),
            {
                let ghost w = s[j as int];
                proof {
                    assert(w == sentence@[j as int]@);
                    assert(s.contains(w));
                    let d = distinct_words(s);
                    let k = choose|k: int| 0 <= k < d.len() && d[k] == w;
                    assert(tf@[k].0 == w);
                }
                let count: usize = match tf.get(sentence[j]) {
                    Some(c) => c,
                    None => 0,
                };
                proof {
                    let d = distinct_words(s);
                    let k = choose|k: int| 0 <= k < d.len() && d[k] == w;
                    assert(tf@[k] == (w, occurrences(s, w)));
                }
                row.push(Term {
                    count,
                    length: sentence.len(),
                    occurrences: idf[j],
                    sentences: tokens.len(),
                });
            }
            r.push(row);
        }
        r
    }

    /// The positions of `keys` from the highest key to the lowest; equal keys
    /// keep the order of their positions.
    #[verifier::loop_isolation(false)]
    pub fn rank(keys: &Vec<i32>) -> (r: Vec<usize>)
        ensures
            is_ranking(keys@, r@),
    {
        let mut order: Vec<usize> = Vec::new();
        for k in 0..keys.len()
            invariant
                order@.len() == k,
                forall|i: int| 0 <= i < order@.len() ==> order@[i] < k,
                forall|a: usize| a < k ==> #[trigger] order@.contains(a),
                forall|i: int, j: int|
                    0 <= i < j < order@.len() ==> ranked_before(
                        keys@,
                        order@[i] as int,
                        order@[j] as int,
                    ),
        {
            let mut p: usize = 0;
            while p < order.len() && keys[order[p]] >= keys[k]
                invariant
                    p <= order@.len(),
                    forall|q: int| 0 <= q < p ==> keys@[order@[q] as int] >= keys@[k as int],
                decreases order@.len() - p,
            {
                p = p + 1;
            }
            let ghost before = order@;
            order.insert(p, k);
            proof {
                let after = order@;
                assert forall|i: int| 0 <= i < after.len() implies after[i] < k + 1 by {
                    if i > p {
                        assert(after[i] == before[i - 1]);
                    }
                }
                assert forall|a: usize| a < k + 1 implies #[trigger] after.contains(a) by {
                    if a == k {
                        assert(after[p as int] == a);
                    } else {
                        assert(before.contains(a));
                        let q = choose|q: int| 0 <= q < before.len() && before[q] == a;
                        if q < p {
                            assert(after[q] == a);
                        } else {
                            assert(after[q + 1] == a);
                        }
                    }
                }
                assert forall|i: int, j: int| 0 <= i < j < after.len() implies ranked_before(
                    keys@,
                    after[i] as int,
                    after[j] as int,
                ) by {
                    if j < p {
                        assert(after[i] == before[i] && after[j] == before[j]);
                    } else if j == p {
                        assert(after[i] == before[i]);
                    } else if i < p {
                        assert(after[i] == before[i] && after[j] == before[j - 1]);
                    } else if i == p {
                        assert(after[j] == before[j - 1]);
                        if j - 1 > p {
                            assert(ranked_before(keys@, before[p as int] as int, before[j - 1] as int));
                        }
                    } else {
                        assert(after[i] == before[i - 1] && after[j] == before[j - 1]);
                    }
                }
            }
        }
        order
    }

    /// The summary: the `count` best-ranked sentences, or all where there are
    /// fewer, in ranked order and joined by `". "`. `keys[i]` ranks
    /// `sentences[i]`, a higher key first; equal keys keep document order.
    pub fn select(sentences: &Vec<&str>, keys: &Vec<i32>, count: usize) -> (r: String)
        requires
            sentences@.len() == keys@.len(),
        ensures
            exists|order: Seq<usize>|
                is_ranking(keys@, order) && r@ == summary_text(
                    views(sentences@),
                    order,
                    count as nat,
                ),
    {
        let order = Summarizer::rank(keys);
        let ghost ss = views(sentences@);
        let m: usize = if count < order.len() {
            count
        } else {
            order.len()
        };
        let mut out = String::new();
        proof {
            reveal_strlit(". ");
            assert(order@.take(0).map_values(|x: usize| ss[x as int]) =~= Seq::<Seq<char>>::empty());
        }
        for i in 0..m
            invariant
                is_ranking(keys@, order@),
                ss == views(sentences@),
                sentences@.len() == keys@.len(),
                m <= order@.len(),
                ". "@ == summary_separator(),
                out@ == join(order@.take(i as int).map_values(|x: usize| ss[x as int]), summary_separator()),
        {
            let ghost parts = order@.take(i as int).map_values(|x: usize| ss[x as int]);
            let next = sentences[order[i]];
            proof {
                let more = order@.take(i + 1).map_values(|x: usize| ss[x as int]);
                assert(more =~= parts.push(next@));
                assert(more.drop_last() =~= parts);
            }
            if i > 0 {
                out.append(". ");
            }
            out.append(next);
        }
        proof {
            assert(selected(order@, count as nat) =~= order@.take(m as int));
        }
        out
    }

    /// The sentences of `text`, and the terms of every token of every
    /// sentence, by position, as `score_terms` gives them.
    pub fn score_sentences(text: &str) -> (r: (Vec<&str>, Vec<Vec<Term>>))
        ensures
            views(r.0@) == sentences_of(text@),
            r.1@.len() == r.0@.len(),
            forall|i: int|
                0 <= i < r.1@.len() ==> (#[trigger] r.1@[i])@.len() == text_corpus(text@)[i].len(),
            forall|i: int, j: int|
                0 <= i < r.1@.len() && 0 <= j < r.1@[i]@.len() ==> (#[trigger] r.1@[i]@[j])
                    == term_at(text_corpus(text@), i, j),
    {
        let length = text.unicode_len();
        let sentences = Tokenizer::text_to_sentences(text);
        let mut tokens: Vec<Vec<&str>> = Vec::new();
        for i in 0..sentences.len()
            invariant
                views(sentences@) == sentences_of(text@),
                tokens@.len() == i,
                forall|m: int|
                    0 <= m < i ==> views((#[trigger] tokens@[m])@) == tokens_of(sentences@[m]@),
        {
            let t = Tokenizer::sentence_to_tokens(sentences[i]);
            tokens.push(t);
        }
        proof {
            let c = corpus_of(tokens@);
            let ss = views(sentences@);
            assert(c =~= ss.map_values(|s: Seq<char>| tokens_of(s)));
            assert(c =~= text_corpus(text@));
            lemma_corpus_fits(ss);
            lemma_sentences_fit(text@);
        }
        let terms = Summarizer::score_terms(&tokens);
        (sentences, terms)
    }
}

} // verus!
