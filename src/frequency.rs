use vstd::prelude::*;

verus! {

/// How many times `w` occurs in `ws`.
pub open spec fn occurrences(ws: Seq<Seq<char>>, w: Seq<char>) -> nat
    decreases ws.len(),
{
    if ws.len() == 0 {
        0
    } else {
        occurrences(ws.drop_last(), w) + if ws.last() == w {
            1nat
        } else {
            0nat
        }
    }
}

/// The distinct words of `ws`, in the order of their first occurrence.
pub open spec fn distinct_words(ws: Seq<Seq<char>>) -> Seq<Seq<char>>
    decreases ws.len(),
{
    if ws.len() == 0 {
        seq![]
    } else {
        let d = distinct_words(ws.drop_last());
        if d.contains(ws.last()) {
            d
        } else {
            d.push(ws.last())
        }
    }
}

/// Each distinct word of `ws` with its number of occurrences, in the order
/// of first occurrence.
pub open spec fn count_table(ws: Seq<Seq<char>>) -> Seq<(Seq<char>, nat)> {
    distinct_words(ws).map_values(|w: Seq<char>| (w, occurrences(ws, w)))
}

/// No word stands twice in the table.
pub open spec fn keys_unique(t: Seq<(Seq<char>, nat)>) -> bool {
    forall|i: int, j: int| 0 <= i < j < t.len() ==> t[i].0 != t[j].0
}

/// The sum of the counts of a table.
pub open spec fn total_count(t: Seq<(Seq<char>, nat)>) -> nat
    decreases t.len(),
{
    if t.len() == 0 {
        0
    } else {
        total_count(t.drop_last()) + t.last().1
    }
}

/// The sum, over the words of `d`, of their occurrences in `ws`.
pub open spec fn occurrences_of_all(d: Seq<Seq<char>>, ws: Seq<Seq<char>>) -> nat
    decreases d.len(),
{
    if d.len() == 0 {
        0
    } else {
        occurrences_of_all(d.drop_last(), ws) + occurrences(ws, d.last())
    }
}

pub proof fn lemma_occurrences_push(ws: Seq<Seq<char>>, x: Seq<char>, w: Seq<char>)
    ensures
        occurrences(ws.push(x), w) == occurrences(ws, w) + if x == w {
            1nat
        } else {
            0nat
        },
{
    assert(ws.push(x).drop_last() =~= ws);
}

pub proof fn lemma_occurrences_bounds(ws: Seq<Seq<char>>, w: Seq<char>)
    ensures
        occurrences(ws, w) <= ws.len(),
        occurrences(ws, w) == 0 <==> !ws.contains(w),
    decreases ws.len(),
{
    if ws.len() > 0 {
        let init = ws.drop_last();
        lemma_occurrences_bounds(init, w);
        assert(ws =~= init.push(ws.last()));
        if init.contains(w) {
            let k = choose|k: int| 0 <= k < init.len() && init[k] == w;
            assert(ws[k] == w);
        }
        if ws.contains(w) && ws.last() != w {
            let k = choose|k: int| 0 <= k < ws.len() && ws[k] == w;
            assert(init[k] == w);
        }
    }
}

pub proof fn lemma_distinct_words(ws: Seq<Seq<char>>)
    ensures
        distinct_words(ws).no_duplicates(),
        forall|w: Seq<char>| distinct_words(ws).contains(w) <==> ws.contains(w),
    decreases ws.len(),
{
    if ws.len() > 0 {
        let init = ws.drop_last();
        lemma_distinct_words(init);
        assert(ws =~= init.push(ws.last()));
        assert forall|w: Seq<char>| distinct_words(ws).contains(w) <==> ws.contains(w) by {
            if ws.contains(w) && w != ws.last() {
                let k = choose|k: int| 0 <= k < ws.len() && ws[k] == w;
                assert(init[k] == w);
            }
            if init.contains(w) {
                let k = choose|k: int| 0 <= k < init.len() && init[k] == w;
                assert(ws[k] == w);
            }
            if distinct_words(ws).contains(w) && !distinct_words(init).contains(w) {
                assert(w == ws.last());
                assert(ws[ws.len() - 1] == w);
            }
            if ws.contains(w) && w == ws.last() && distinct_words(init).contains(w) {
                assert(distinct_words(ws) == distinct_words(init));
            }
            if distinct_words(init).contains(w) && !distinct_words(ws).contains(w) {
                let d = distinct_words(init);
                let k = choose|k: int| 0 <= k < d.len() && d[k] == w;
                assert(d.push(ws.last())[k] == w);
            }
            if w == ws.last() && !distinct_words(init).contains(w) {
                let d = distinct_words(init);
                assert(d.push(w)[d.len() as int] == w);
            }
        }
    }
}

pub proof fn lemma_count_table(ws: Seq<Seq<char>>)
    ensures
        keys_unique(count_table(ws)),
        total_count(count_table(ws)) == occurrences_of_all(distinct_words(ws), ws),
{
    lemma_distinct_words(ws);
    lemma_total_of_table(distinct_words(ws), ws);
}

proof fn lemma_total_of_table(d: Seq<Seq<char>>, ws: Seq<Seq<char>>)
    ensures
        total_count(d.map_values(|w: Seq<char>| (w, occurrences(ws, w))))
            == occurrences_of_all(d, ws),
    decreases d.len(),
{
    if d.len() > 0 {
        let t = d.map_values(|w: Seq<char>| (w, occurrences(ws, w)));
        assert(t.drop_last() =~= d.drop_last().map_values(
            |w: Seq<char>| (w, occurrences(ws, w)),
        ));
        lemma_total_of_table(d.drop_last(), ws);
    }
}

proof fn lemma_occurrences_of_all_push(d: Seq<Seq<char>>, ws: Seq<Seq<char>>, x: Seq<char>)
    requires
        d.no_duplicates(),
    ensures
        occurrences_of_all(d, ws.push(x)) == occurrences_of_all(d, ws) + if d.contains(x) {
            1nat
        } else {
            0nat
        },
    decreases d.len(),
{
    if d.len() > 0 {
        let init = d.drop_last();
        assert(init.no_duplicates());
        lemma_occurrences_of_all_push(init, ws, x);
        lemma_occurrences_push(ws, x, d.last());
        assert(d =~= init.push(d.last()));
        if init.contains(x) {
            let k = choose|k: int| 0 <= k < init.len() && init[k] == x;
            assert(d[k] == x);
            assert(d.last() != x);
        }
        if d.contains(x) && d.last() != x {
            let k = choose|k: int| 0 <= k < d.len() && d[k] == x;
            assert(init[k] == x);
        }
    }
}

/// Every token is counted exactly once: over the distinct words of a
/// token list, the counts add up to its length. So the term frequencies
/// `count / length` of a non-empty token list sum to one.
pub proof fn lemma_counts_sum_to_length(ws: Seq<Seq<char>>)
    ensures
        total_count(count_table(ws)) == ws.len(),
    decreases ws.len(),
{
    lemma_count_table(ws);
    if ws.len() > 0 {
        let init = ws.drop_last();
        let x = ws.last();
        assert(ws =~= init.push(x));
        lemma_counts_sum_to_length(init);
        lemma_count_table(init);
        lemma_distinct_words(init);
        let d = distinct_words(init);
        lemma_occurrences_of_all_push(d, init, x);
        if !d.contains(x) {
            lemma_occurrences_bounds(init, x);
            lemma_occurrences_push(init, x, x);
            assert(distinct_words(ws).drop_last() =~= d);
        }
    }
}

/// A table of words and their counts: each word once, with the count it
/// has in the token list that the table was made from.
pub struct FreqMap {
    entries: Vec<(String, usize)>,
}

impl View for FreqMap {
    type V = Seq<(Seq<char>, nat)>;

    closed spec fn view(&self) -> Seq<(Seq<char>, nat)> {
        self.entries@.map_values(|e: (String, usize)| (e.0@, e.1 as nat))
    }
}

impl FreqMap {
    #[verifier::type_invariant]
    spec fn well_formed(&self) -> bool {
        keys_unique(self@) && total_count(self@) <= usize::MAX
    }

    /// The table of `words` with their counts.
    pub fn from_words(words: &Vec<&str>) -> (r: FreqMap)
        ensures
            r@ == count_table(words@.map_values(|x: &str| x@)),
    {
        let ghost ws = words@.map_values(|x: &str| x@);
        let mut entries: Vec<(String, usize)> = Vec::new();
        for i in 0..words.len()
            invariant
                ws == words@.map_values(|x: &str| x@),
                entries@.map_values(|e: (String, usize)| (e.0@, e.1 as nat))
                    == count_table(ws.take(i as int)),
        {
            let ghost prefix = ws.take(i as int);
            let ghost table = entries@.map_values(|e: (String, usize)| (e.0@, e.1 as nat));
            let key: String = words[i].to_owned();
            proof {
                lemma_distinct_words(prefix);
                lemma_occurrences_bounds(prefix, key@);
                assert(ws[i as int] == key@);
                assert(ws.take(i + 1) =~= prefix.push(key@));
                assert(prefix.push(key@).drop_last() =~= prefix);
                assert(table.len() == entries.len());
            }
            let mut j: usize = 0;
            let mut found: bool = false;
            while j < entries.len() && !found
                invariant
                    0 <= j <= entries.len(),
                    table == entries@.map_values(|e: (String, usize)| (e.0@, e.1 as nat)),
                    found ==> 0 < j && entries@[j - 1].0@ == key@,
                    !found ==> forall|k: int| 0 <= k < j ==> entries@[k].0@ != key@,
                decreases entries.len() - j + if found { 0int } else { 1int },
            {
                if entries[j].0 == key {
                    found = true;
                }
                j = j + 1;
            }
            if found {
                let k = j - 1;
                let c = entries[k].1;
                proof {
                    let d = distinct_words(prefix);
                    assert(table[k as int].0 == key@);
                    assert(c as nat == occurrences(prefix, key@));
                    assert(d[k as int] == key@);
                    assert(d.contains(key@));
                }
                let ghost before = entries@;
                entries.set(k, (key, c + 1));
                proof {
                    let d = distinct_words(prefix);
                    let next = entries@.map_values(|e: (String, usize)| (e.0@, e.1 as nat));
                    assert(distinct_words(prefix.push(key@)) == d);
                    assert forall|m: int| 0 <= m < next.len() implies next[m]
                        == count_table(ws.take(i + 1))[m] by {
                        lemma_occurrences_push(prefix, key@, d[m]);
                        let ct = count_table(ws.take(i + 1));
                        assert(ct[m] == (d[m], occurrences(prefix.push(key@), d[m])));
                        if m != k {
                            assert(d[m] != d[k as int]);
                            assert(entries@[m] == before[m]);
                            assert(next[m] == table[m]);
                        } else {
                            assert(next[m] == (key@, (c + 1) as nat));
                        }
                    }
                    assert(next =~= count_table(ws.take(i + 1)));
                }
            } else {
                proof {
                    let d = distinct_words(prefix);
                    if d.contains(key@) {
                        let m = choose|m: int| 0 <= m < d.len() && d[m] == key@;
                        assert(table[m].0 == key@);
                    }
                }
                let ghost before = entries@;
                entries.push((key, 1));
                proof {
                    let d = distinct_words(prefix);
                    let next = entries@.map_values(|e: (String, usize)| (e.0@, e.1 as nat));
                    assert(distinct_words(prefix.push(key@)) == d.push(key@));
                    assert forall|m: int| 0 <= m < next.len() implies next[m]
                        == count_table(ws.take(i + 1))[m] by {
                        let ct = count_table(ws.take(i + 1));
                        if m < d.len() {
                            lemma_occurrences_push(prefix, key@, d[m]);
                            assert(ct[m] == (d[m], occurrences(prefix.push(key@), d[m])));
                            assert(entries@[m] == before[m]);
                            assert(next[m] == table[m]);
                            assert(d[m] != key@);
                        } else {
                            assert(ct[m] == (key@, occurrences(prefix.push(key@), key@)));
                            lemma_occurrences_push(prefix, key@, key@);
                        }
                    }
                    assert(next =~= count_table(ws.take(i + 1)));
                }
            }
        }
        proof {
            assert(ws.take(words.len() as int) =~= ws);
            lemma_count_table(ws);
            lemma_counts_sum_to_length(ws);
        }
        FreqMap { entries }
    }
}


impl FreqMap {
    /// The count of `word`, or `None` where the table does not hold it.
    pub fn get(&self, word: &str) -> (r: Option<usize>)
        ensures
            r is Some <==> exists|i: int| 0 <= i < self@.len() && self@[i].0 == word@,
            forall|i: int|
                0 <= i < self@.len() && self@[i].0 == word@ ==> r == Some(self@[i].1 as usize),
    {
        proof {
            use_type_invariant(&*self);
        }
        let key: String = word.to_owned();
        let mut j: usize = 0;
        while j < self.entries.len()
            invariant
                0 <= j <= self.entries.len(),
                key@ == word@,
                forall|k: int| 0 <= k < j ==> self@[k].0 != word@,
                self.entries@.len() == self@.len(),
                keys_unique(self@),
            decreases self.entries.len() - j,
        {
            if self.entries[j].0 == key {
                proof {
                    assert(self@[j as int] == (self.entries@[j as int].0@, self.entries@[j as int].1 as nat));
                }
                return Some(self.entries[j].1);
            }
            j = j + 1;
        }
        None
    }

    /// The sum of all counts: the length of the token list counted.
    pub fn total(&self) -> (r: usize)
        ensures
            r == total_count(self@),
    {
        proof {
            use_type_invariant(&*self);
        }
        let mut sum: usize = 0;
        for j in 0..self.entries.len()
            invariant
                self.entries@.len() == self@.len(),
                sum == total_count(self@.take(j as int)),
                total_count(self@) <= usize::MAX,
        {
            proof {
                lemma_total_count_prefix(self@, j + 1);
                assert(self@.take(j + 1).drop_last() =~= self@.take(j as int));
            }
            sum = sum + self.entries[j].1;
        }
        proof {
            assert(self@.take(self@.len() as int) =~= self@);
        }
        sum
    }

    /// The number of distinct words.
    pub fn len(&self) -> (r: usize)
        ensures
            r == self@.len(),
    {
        self.entries.len()
    }

    /// The word at position `i`.
    pub fn word(&self, i: usize) -> (r: &str)
        requires
            i < self@.len(),
        ensures
            r@ == self@[i as int].0,
    {
        self.entries[i].0.as_str()
    }

    /// The count at position `i`.
    pub fn count(&self, i: usize) -> (r: usize)
        requires
            i < self@.len(),
        ensures
            r == self@[i as int].1,
    {
        self.entries[i].1
    }
}

proof fn lemma_total_count_prefix(t: Seq<(Seq<char>, nat)>, j: int)
    requires
        0 <= j <= t.len(),
    ensures
        total_count(t.take(j)) <= total_count(t),
    decreases t.len() - j,
{
    if j < t.len() {
        lemma_total_count_prefix(t, j + 1);
        assert(t.take(j + 1).drop_last() =~= t.take(j));
    } else {
        assert(t.take(j) =~= t);
    }
}

} // verus!
