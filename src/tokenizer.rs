use vstd::prelude::*;
use vstd::string::*;

use crate::frequency::{count_table, FreqMap};

verus! {

/// ASCII whitespace, the characters that `split_ascii_whitespace` splits on.
pub open spec fn is_space(c: char) -> bool {
    c == ' ' || c == '\t' || c == '\n' || c == '\x0C' || c == '\r'
}

/// The characters that end a sentence.
pub open spec fn is_terminator(c: char) -> bool {
    c == '.' || c == '?' || c == '!'
}

/// The characters that cut text into pieces: terminators when cutting
/// sentences, whitespace when cutting tokens.
pub open spec fn is_delimiter(c: char, sentence_level: bool) -> bool {
    if sentence_level {
        is_terminator(c)
    } else {
        is_space(c)
    }
}

/// The pieces of `s` between delimiters, delimiters dropped: `k`
/// delimiters give `k + 1` pieces, some of them possibly empty.
pub open spec fn pieces(s: Seq<char>, sentence_level: bool) -> Seq<Seq<char>>
    decreases s.len(),
{
    if s.len() == 0 {
        seq![Seq::empty()]
    } else {
        let p = pieces(s.drop_last(), sentence_level);
        if is_delimiter(s.last(), sentence_level) {
            p.push(Seq::empty())
        } else {
            p.update(p.len() - 1, p.last().push(s.last()))
        }
    }
}

/// `s` without its leading whitespace.
pub open spec fn trim_start(s: Seq<char>) -> Seq<char>
    decreases s.len(),
{
    if s.len() > 0 && is_space(s[0]) {
        trim_start(s.drop_first())
    } else {
        s
    }
}

/// `s` without its trailing whitespace.
pub open spec fn trim_end(s: Seq<char>) -> Seq<char>
    decreases s.len(),
{
    if s.len() > 0 && is_space(s.last()) {
        trim_end(s.drop_last())
    } else {
        s
    }
}

/// `s` without whitespace at either end.
pub open spec fn trim(s: Seq<char>) -> Seq<char> {
    trim_end(trim_start(s))
}

/// The pieces, each trimmed, with those that trim to nothing left out.
pub open spec fn clean(ps: Seq<Seq<char>>) -> Seq<Seq<char>>
    decreases ps.len(),
{
    if ps.len() == 0 {
        seq![]
    } else {
        let c = clean(ps.drop_last());
        let t = trim(ps.last());
        if t.len() == 0 {
            c
        } else {
            c.push(t)
        }
    }
}

/// The sentences of a document: the text between terminators, trimmed,
/// with blank fragments left out.
pub open spec fn sentences_of(text: Seq<char>) -> Seq<Seq<char>> {
    clean(pieces(text, true))
}

/// The tokens of a sentence: its maximal runs of non-whitespace characters.
pub open spec fn tokens_of(sentence: Seq<char>) -> Seq<Seq<char>> {
    clean(pieces(sentence, false))
}

/// The character sequences of a list of string slices.
pub open spec fn views(v: Seq<&str>) -> Seq<Seq<char>> {
    v.map_values(|x: &str| x@)
}

proof fn lemma_pieces_nonempty(s: Seq<char>, sentence_level: bool)
    ensures
        pieces(s, sentence_level).len() >= 1,
    decreases s.len(),
{
    if s.len() > 0 {
        lemma_pieces_nonempty(s.drop_last(), sentence_level);
    }
}

proof fn lemma_trim_start_at(s: Seq<char>, lo: int)
    requires
        0 <= lo <= s.len(),
        forall|k: int| 0 <= k < lo ==> is_space(#[trigger] s[k]),
        lo == s.len() || !is_space(s[lo]),
    ensures
        trim_start(s) == s.subrange(lo, s.len() as int),
    decreases lo,
{
    if lo > 0 {
        let t = s.drop_first();
        assert forall|k: int| 0 <= k < lo - 1 implies is_space(#[trigger] t[k]) by {
            assert(t[k] == s[k + 1]);
        }
        lemma_trim_start_at(t, lo - 1);
        assert(t.subrange(lo - 1, t.len() as int) =~= s.subrange(lo, s.len() as int));
    } else {
        assert(s.subrange(0, s.len() as int) =~= s);
    }
}

proof fn lemma_trim_end_at(s: Seq<char>, hi: int)
    requires
        0 <= hi <= s.len(),
        forall|k: int| hi <= k < s.len() ==> is_space(#[trigger] s[k]),
        hi == 0 || !is_space(s[hi - 1]),
    ensures
        trim_end(s) == s.subrange(0, hi),
    decreases s.len() - hi,
{
    if hi < s.len() {
        let t = s.drop_last();
        assert forall|k: int| hi <= k < t.len() implies is_space(#[trigger] t[k]) by {
            assert(t[k] == s[k]);
        }
        lemma_trim_end_at(t, hi);
        assert(t.subrange(0, hi) =~= s.subrange(0, hi));
    } else {
        assert(s.subrange(0, s.len() as int) =~= s);
    }
}

proof fn lemma_pieces_whole(s: Seq<char>, sentence_level: bool)
    requires
        forall|k: int| 0 <= k < s.len() ==> !is_delimiter(#[trigger] s[k], sentence_level),
    ensures
        pieces(s, sentence_level) == seq![s],
    decreases s.len(),
{
    if s.len() > 0 {
        let init = s.drop_last();
        assert forall|k: int| 0 <= k < init.len() implies !is_delimiter(
            #[trigger] init[k],
            sentence_level,
        ) by {
            assert(init[k] == s[k]);
        }
        lemma_pieces_whole(init, sentence_level);
        assert(!is_delimiter(s[s.len() - 1], sentence_level));
        assert(init.push(s.last()) =~= s);
        assert(seq![init].update(0, init.push(s.last())) =~= seq![s]);
    } else {
        assert(s =~= Seq::<char>::empty());
        assert(seq![Seq::<char>::empty()] =~= seq![s]);
    }
}

/// A single sentence with its terminator added comes back as itself,
/// trimmed: segmenting it again changes nothing.
pub proof fn lemma_single_sentence_round_trip(one: Seq<char>)
    requires
        forall|k: int| 0 <= k < one.len() ==> !is_terminator(#[trigger] one[k]),
        trim(one).len() > 0,
    ensures
        sentences_of(one.push('.')) == seq![trim(one)],
{
    assert forall|k: int| 0 <= k < one.len() implies !is_delimiter(#[trigger] one[k], true) by {
        assert(!is_terminator(one[k]));
    }
    lemma_pieces_whole(one, true);
    let s = one.push('.');
    assert(s.drop_last() =~= one);
    let p = pieces(s, true);
    assert(p == seq![one].push(Seq::<char>::empty()));
    assert(trim(Seq::<char>::empty()) == Seq::<char>::empty());
    assert(p.drop_last() =~= seq![one]);
    assert(seq![one].drop_last() =~= Seq::<Seq<char>>::empty());
    assert(clean(Seq::<Seq<char>>::empty()) == Seq::<Seq<char>>::empty());
    assert(clean(seq![one]) == Seq::<Seq<char>>::empty().push(trim(one)));
    assert(clean(p) == clean(seq![one]));
    assert(Seq::<Seq<char>>::empty().push(trim(one)) =~= seq![trim(one)]);
}

/// Text made of whitespace alone, the empty text included, has no
/// sentence.
pub proof fn lemma_blank_text_has_no_sentences(text: Seq<char>)
    requires
        forall|k: int| 0 <= k < text.len() ==> is_space(#[trigger] text[k]),
    ensures
        sentences_of(text).len() == 0,
{
    assert forall|k: int| 0 <= k < text.len() implies !is_delimiter(#[trigger] text[k], true) by {
        assert(is_space(text[k]));
    }
    lemma_pieces_whole(text, true);
    lemma_trim_start_at(text, text.len() as int);
    assert(text.subrange(text.len() as int, text.len() as int) =~= Seq::<char>::empty());
    assert(trim_start(text) =~= Seq::<char>::empty());
    assert(trim(text) =~= Seq::<char>::empty());
    assert(seq![text].drop_last() =~= Seq::<Seq<char>>::empty());
    assert(seq![text].last() == text);
    assert(clean(Seq::<Seq<char>>::empty()) == Seq::<Seq<char>>::empty());
}

/// The total length of a list of character sequences.
pub open spec fn total_length(ps: Seq<Seq<char>>) -> nat
    decreases ps.len(),
{
    if ps.len() == 0 {
        0
    } else {
        total_length(ps.drop_last()) + ps.last().len()
    }
}

proof fn lemma_pieces_length(s: Seq<char>, sentence_level: bool)
    ensures
        total_length(pieces(s, sentence_level)) <= s.len(),
    decreases s.len(),
{
    if s.len() > 0 {
        let p = pieces(s.drop_last(), sentence_level);
        lemma_pieces_length(s.drop_last(), sentence_level);
        lemma_pieces_nonempty(s.drop_last(), sentence_level);
        if is_delimiter(s.last(), sentence_level) {
            assert(p.push(Seq::empty()).drop_last() =~= p);
        } else {
            let q = p.update(p.len() - 1, p.last().push(s.last()));
            assert(q.drop_last() =~= p.drop_last());
            assert(q.last() == p.last().push(s.last()));
            assert(total_length(p) == total_length(p.drop_last()) + p.last().len());
            assert(total_length(q) == total_length(q.drop_last()) + q.last().len());
        }
    } else {
        let p = pieces(s, sentence_level);
        assert(p.drop_last() =~= Seq::<Seq<char>>::empty());
        assert(total_length(p) == total_length(p.drop_last()) + p.last().len());
    }
}

proof fn lemma_trim_length(s: Seq<char>)
    ensures
        trim(s).len() <= s.len(),
{
    lemma_trim_start_length(s);
    lemma_trim_end_length(trim_start(s));
}

proof fn lemma_trim_start_length(s: Seq<char>)
    ensures
        trim_start(s).len() <= s.len(),
    decreases s.len(),
{
    if s.len() > 0 && is_space(s[0]) {
        lemma_trim_start_length(s.drop_first());
    }
}

proof fn lemma_trim_end_length(s: Seq<char>)
    ensures
        trim_end(s).len() <= s.len(),
    decreases s.len(),
{
    if s.len() > 0 && is_space(s.last()) {
        lemma_trim_end_length(s.drop_last());
    }
}

proof fn lemma_clean_length(ps: Seq<Seq<char>>)
    ensures
        clean(ps).len() <= total_length(clean(ps)),
        total_length(clean(ps)) <= total_length(ps),
    decreases ps.len(),
{
    if ps.len() > 0 {
        let c = clean(ps.drop_last());
        lemma_clean_length(ps.drop_last());
        lemma_trim_length(ps.last());
        let t = trim(ps.last());
        if t.len() > 0 {
            assert(c.push(t).drop_last() =~= c);
        }
    }
}

/// A sentence has at most as many tokens as characters.
pub proof fn lemma_tokens_fit(sentence: Seq<char>)
    ensures
        tokens_of(sentence).len() <= sentence.len(),
{
    lemma_clean_length(pieces(sentence, false));
    lemma_pieces_length(sentence, false);
}

/// The sentences of a text hold at most as many characters as the text.
pub proof fn lemma_sentences_fit(text: Seq<char>)
    ensures
        total_length(sentences_of(text)) <= text.len(),
{
    lemma_clean_length(pieces(text, true));
    lemma_pieces_length(text, true);
}

/// Is `c` ASCII whitespace.
fn space_char(c: char) -> (r: bool)
    ensures
        r == is_space(c),
{
    c == ' ' || c == '\t' || c == '\n' || c == '\x0C' || c == '\r'
}

/// Does `c` cut pieces at the given level.
fn delimiter_char(c: char, sentence_level: bool) -> (r: bool)
    ensures
        r == is_delimiter(c, sentence_level),
{
    if sentence_level {
        c == '.' || c == '?' || c == '!'
    } else {
        space_char(c)
    }
}

/// The characters of `s`, in order.
fn chars_of(s: &str) -> (r: Vec<char>)
    ensures
        r@ == s@,
{
    let mut r: Vec<char> = Vec::new();
    for c in it: s.chars()
        invariant
            r@ == it.seq().take(it.index() as int),
            it.seq() == s@,
    {
        r.push(c);
    }
    r
}

/// Appends the trimmed text between character positions `a` and `b`,
/// unless it is blank.
fn push_trimmed<'a>(text: &'a str, cs: &Vec<char>, a: usize, b: usize, out: &mut Vec<&'a str>)
    requires
        cs@ == text@,
        a <= b <= cs.len(),
    ensures
        views(final(out)@) == ({
            let t = trim(cs@.subrange(a as int, b as int));
            if t.len() == 0 {
                views(old(out)@)
            } else {
                views(old(out)@).push(t)
            }
        }),
{
    let mut lo: usize = a;
    while lo < b && space_char(cs[lo])
        invariant
            a <= lo <= b <= cs.len(),
            forall|k: int| a <= k < lo ==> is_space(#[trigger] cs@[k]),
        decreases b - lo,
    {
        lo = lo + 1;
    }
    let mut hi: usize = b;
    while hi > lo && space_char(cs[hi - 1])
        invariant
            a <= lo <= hi <= b <= cs.len(),
            forall|k: int| hi <= k < b ==> is_space(#[trigger] cs@[k]),
        decreases hi - lo,
    {
        hi = hi - 1;
    }
    let ghost s = cs@.subrange(a as int, b as int);
    proof {
        assert forall|k: int| 0 <= k < lo - a implies is_space(#[trigger] s[k]) by {
            assert(s[k] == cs@[k + a]);
        }
        lemma_trim_start_at(s, lo - a);
        let u = s.subrange(lo - a, s.len() as int);
        assert(u =~= cs@.subrange(lo as int, b as int));
        assert forall|k: int| hi - lo <= k < u.len() implies is_space(#[trigger] u[k]) by {
            assert(u[k] == cs@[k + lo]);
        }
        lemma_trim_end_at(u, hi - lo);
        assert(u.subrange(0, hi - lo) =~= cs@.subrange(lo as int, hi as int));
    }
    if lo < hi {
        let piece = text.substring_char(lo, hi);
        proof {
            assert(views(old(out)@.push(piece)) =~= views(old(out)@).push(piece@));
        }
        out.push(piece);
    }
}

/// Cuts `text` at delimiters, trims each piece and keeps those that are
/// not blank.
fn split_clean<'a>(text: &'a str, sentence_level: bool) -> (r: Vec<&'a str>)
    ensures
        views(r@) == clean(pieces(text@, sentence_level)),
{
    let cs = chars_of(text);
    let n = cs.len();
    let mut out: Vec<&'a str> = Vec::new();
    let mut start: usize = 0;
    proof {
        assert(cs@.take(0) =~= Seq::<char>::empty());
        assert(views(out@) =~= Seq::<Seq<char>>::empty());
        assert(cs@.subrange(0, 0) =~= Seq::<char>::empty());
    }
    for i in 0..n
        invariant
            n == cs.len(),
            cs@ == text@,
            start <= i,
            pieces(cs@.take(i as int), sentence_level).len() >= 1,
            views(out@) == clean(pieces(cs@.take(i as int), sentence_level).drop_last()),
            pieces(cs@.take(i as int), sentence_level).last() == cs@.subrange(start as int, i as int),
    {
        let ghost p = pieces(cs@.take(i as int), sentence_level);
        proof {
            let t1 = cs@.take(i + 1);
            assert(t1.drop_last() =~= cs@.take(i as int));
            assert(t1.last() == cs@[i as int]);
        }
        if delimiter_char(cs[i], sentence_level) {
            push_trimmed(text, &cs, start, i, &mut out);
            start = i + 1;
            proof {
                let q = pieces(cs@.take(i + 1), sentence_level);
                assert(q == p.push(Seq::empty()));
                assert(q.drop_last() =~= p);
                assert(p =~= p.drop_last().push(p.last()));
                assert(cs@.subrange(start as int, i + 1) =~= Seq::<char>::empty());
            }
        } else {
            proof {
                let q = pieces(cs@.take(i + 1), sentence_level);
                assert(q.drop_last() =~= p.drop_last());
                assert(q.last() =~= cs@.subrange(start as int, i + 1));
            }
        }
    }
    push_trimmed(text, &cs, start, n, &mut out);
    proof {
        let p = pieces(cs@, sentence_level);
        assert(cs@.take(n as int) =~= cs@);
        assert(p =~= p.drop_last().push(p.last()));
    }
    out
}

/// Cuts text into sentences and sentences into tokens.
pub struct Tokenizer {}

impl Tokenizer {
    /// The sentences of `text`: the text between the terminators `.`, `?`
    /// and `!`, with surrounding whitespace trimmed and blank fragments left
    /// out.
    pub fn text_to_sentences(text: &str) -> (r: Vec<&str>)
        ensures
            views(r@) == sentences_of(text@),
    {
        split_clean(text, true)
    }

    /// The tokens of `sentence`: its maximal runs of characters other than
    /// ASCII whitespace.
    pub fn sentence_to_tokens(sentence: &str) -> (r: Vec<&str>)
        ensures
            views(r@) == tokens_of(sentence@),
    {
        split_clean(sentence, false)
    }

    /// Each distinct word of `words` with its number of occurrences, in the
    /// order of first occurrence; words compare exactly, case included.
    pub fn get_freq_map(words: &Vec<&str>) -> (r: FreqMap)
        ensures
            r@ == count_table(views(words@)),
    {
        FreqMap::from_words(words)
    }
}

} // verus!
