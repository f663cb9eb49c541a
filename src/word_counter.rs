//! The frequency model: how often each word of a corpus occurs.
use vstd::prelude::*;

use crate::lexical::{
    lemma_insert_keeps_sorted, lemma_lex_irreflexive, lemma_lex_total, lemma_lex_transitive,
    lex_less, lex_lt, locate, strictly_sorted,
};
use crate::text::{
    chars_of, clean_chars, corpus_tokens, lines_of, normalize, normalized, split_lines, string_of,
    string_views, strings_of, to_words, tokens_of_lines, total_len, views,
};

verus! {

/// The sum of a sequence of counts.
pub open spec fn sum_of(s: Seq<u32>) -> nat
    decreases s.len(),
{
    if s.len() == 0 {
        0
    } else {
        sum_of(s.drop_last()) + s.last() as nat
    }
}

/// How many of `tokens` are counted under `w`.
pub open spec fn occurrences(tokens: Seq<Seq<char>>, w: Seq<char>) -> nat
    decreases tokens.len(),
{
    if tokens.len() == 0 {
        0
    } else {
        occurrences(tokens.drop_last(), w) + if normalized(tokens.last()) == w {
            1nat
        } else {
            0
        }
    }
}

pub proof fn lemma_sum_insert(s: Seq<u32>, p: int, x: u32)
    requires
        0 <= p <= s.len(),
    ensures
        sum_of(s.insert(p, x)) == sum_of(s) + x,
    decreases s.len(),
{
    if p < s.len() {
        assert(s.insert(p, x).drop_last() =~= s.drop_last().insert(p, x));
        lemma_sum_insert(s.drop_last(), p, x);
    } else {
        assert(s.insert(p, x).drop_last() =~= s);
    }
}

pub proof fn lemma_sum_update(s: Seq<u32>, p: int, x: u32)
    requires
        0 <= p < s.len(),
    ensures
        sum_of(s.update(p, x)) + s[p] == sum_of(s) + x,
    decreases s.len(),
{
    if p < s.len() - 1 {
        assert(s.update(p, x).drop_last() =~= s.drop_last().update(p, x));
        lemma_sum_update(s.drop_last(), p, x);
    } else {
        assert(s.update(p, x).drop_last() =~= s.drop_last());
    }
}

pub proof fn lemma_elem_le_sum(s: Seq<u32>, p: int)
    requires
        0 <= p < s.len(),
    ensures
        s[p] <= sum_of(s),
    decreases s.len(),
{
    if p < s.len() - 1 {
        lemma_elem_le_sum(s.drop_last(), p);
    }
}

/// The decimal digit for `d`, below ten.
pub open spec fn digit_char(d: nat) -> char {
    if d == 0 {
        '0'
    } else if d == 1 {
        '1'
    } else if d == 2 {
        '2'
    } else if d == 3 {
        '3'
    } else if d == 4 {
        '4'
    } else if d == 5 {
        '5'
    } else if d == 6 {
        '6'
    } else if d == 7 {
        '7'
    } else if d == 8 {
        '8'
    } else {
        '9'
    }
}

/// The decimal form of `n`, without leading zeros.
pub open spec fn decimal(n: nat) -> Seq<char>
    decreases n,
{
    if n < 10 {
        seq![digit_char(n)]
    } else {
        decimal(n / 10).push(digit_char(n % 10))
    }
}

/// Whether the entry of word `w1` counted `c1` times is listed before that
/// of `w2` counted `c2` times: higher counts first, then lexicographically.
pub open spec fn ranks_before(c1: nat, w1: Seq<char>, c2: nat, w2: Seq<char>) -> bool {
    c1 > c2 || (c1 == c2 && lex_less(w1, w2))
}

/// The line listing word `w` with its count `c`.
pub open spec fn entry_line(w: Seq<char>, c: nat) -> Seq<char> {
    w + seq![':', ' '] + decimal(c) + seq!['\n']
}

/// The lines listing each entry of `es`, in order.
pub open spec fn listing(es: Seq<(Seq<char>, nat)>) -> Seq<char>
    decreases es.len(),
{
    if es.len() == 0 {
        Seq::empty()
    } else {
        listing(es.drop_last()) + entry_line(es.last().0, es.last().1)
    }
}

/// The first line of a summary.
pub open spec fn summary_header(total: nat) -> Seq<char> {
    "WordCounter, total count: "@ + decimal(total) + seq!['\n']
}

/// Appends the decimal digit for `d`.
fn push_digit(out: &mut Vec<char>, d: u32)
    requires
        d < 10,
    ensures
        final(out)@ == old(out)@.push(digit_char(d as nat)),
{
    let c = if d == 0 {
        '0'
    } else if d == 1 {
        '1'
    } else if d == 2 {
        '2'
    } else if d == 3 {
        '3'
    } else if d == 4 {
        '4'
    } else if d == 5 {
        '5'
    } else if d == 6 {
        '6'
    } else if d == 7 {
        '7'
    } else if d == 8 {
        '8'
    } else {
        '9'
    };
    out.push(c);
}

/// Appends the decimal form of `n`.
fn push_decimal(out: &mut Vec<char>, n: u32)
    ensures
        final(out)@ == old(out)@ + decimal(n as nat),
    decreases n,
{
    if n >= 10 {
        push_decimal(out, n / 10);
    }
    push_digit(out, n % 10);
    assert(out@ =~= old(out)@ + decimal(n as nat));
}

/// Appends the characters of `s`.
fn push_all(out: &mut Vec<char>, s: &Vec<char>)
    ensures
        final(out)@ == old(out)@ + s@,
{
    let mut i: usize = 0;
    while i < s.len()
        invariant
            i <= s@.len(),
            out@ == old(out)@ + s@.subrange(0, i as int),
        decreases s@.len() - i,
    {
        out.push(s[i]);
        i = i + 1;
        assert(out@ =~= old(out)@ + s@.subrange(0, i as int));
    }
    assert(s@.subrange(0, i as int) =~= s@);
}

/// Listing order is transitive.
pub proof fn lemma_ranks_before_transitive(
    c1: nat,
    w1: Seq<char>,
    c2: nat,
    w2: Seq<char>,
    c3: nat,
    w3: Seq<char>,
)
    requires
        ranks_before(c1, w1, c2, w2),
        ranks_before(c2, w2, c3, w3),
    ensures
        ranks_before(c1, w1, c3, w3),
{
    if c1 == c2 && c2 == c3 {
        lemma_lex_transitive(w1, w2, w3);
    }
}

/// Counts of words: each known word, in lexicographic order, with the
/// number of times it was added.
pub struct WordCounter {
    words: Vec<Vec<char>>,
    counts: Vec<u32>,
    total: u32,
}

impl WordCounter {
    /// The known words are strictly sorted, each is counted at least once,
    /// and `total` is the sum of the counts.
    pub closed spec fn wf(&self) -> bool {
        &&& self.words@.len() == self.counts@.len()
        &&& strictly_sorted(views(self.words@))
        &&& forall|i: int| 0 <= i < self.counts@.len() ==> #[trigger] self.counts@[i] > 0
        &&& self.total as nat == sum_of(self.counts@)
    }

    /// The known words, in lexicographic order.
    pub closed spec fn vocabulary(&self) -> Seq<Seq<char>> {
        views(self.words@)
    }

    /// How often `w` was counted; 0 for a word never added.
    pub closed spec fn count(&self, w: Seq<char>) -> nat {
        if exists|i: int| 0 <= i < self.words@.len() && self.words@[i]@ == w {
            self.counts@[self.index_of(w)] as nat
        } else {
            0
        }
    }

    /// Where `w` stands among the known words, if it is one.
    closed spec fn index_of(&self, w: Seq<char>) -> int {
        choose|i: int| 0 <= i < self.words@.len() && self.words@[i]@ == w
    }

    /// The number of words counted in all.
    pub closed spec fn total(&self) -> nat {
        sum_of(self.counts@)
    }

    /// The sum of the counts of the words of `ws`.
    pub open spec fn count_sum(&self, ws: Seq<Seq<char>>) -> nat
        decreases ws.len(),
    {
        if ws.len() == 0 {
            0
        } else {
            self.count_sum(ws.drop_last()) + self.count(ws.last())
        }
    }

    proof fn lemma_index_unique(&self, i: int, j: int)
        requires
            self.wf(),
            0 <= i < self.words@.len(),
            0 <= j < self.words@.len(),
            self.words@[i]@ == self.words@[j]@,
        ensures
            i == j,
    {
        lemma_lex_irreflexive(self.words@[i]@);
        if i < j {
            assert(lex_less(views(self.words@)[i], views(self.words@)[j]));
        } else if j < i {
            assert(lex_less(views(self.words@)[j], views(self.words@)[i]));
        }
    }

    proof fn lemma_count_at(&self, i: int)
        requires
            self.wf(),
            0 <= i < self.words@.len(),
        ensures
            self.count(self.words@[i]@) == self.counts@[i],
    {
        let w = self.words@[i]@;
        assert(exists|k: int| 0 <= k < self.words@.len() && self.words@[k]@ == w);
        let k = self.index_of(w);
        self.lemma_index_unique(i, k);
    }

    /// A known word is one counted at least once, and the vocabulary is
    /// strictly sorted.
    pub proof fn lemma_vocabulary(&self)
        requires
            self.wf(),
        ensures
            strictly_sorted(self.vocabulary()),
            forall|w: Seq<char>| self.vocabulary().contains(w) <==> self.count(w) > 0,
    {
        assert forall|w: Seq<char>| self.vocabulary().contains(w) <==> self.count(w) > 0 by {
            if self.vocabulary().contains(w) {
                let i = choose|i: int| 0 <= i < self.vocabulary().len() && self.vocabulary()[i] == w;
                self.lemma_count_at(i);
            }
            if self.count(w) > 0 {
                let i = self.index_of(w);
                assert(self.vocabulary()[i] == w);
            }
        }
    }

    /// The total count is the sum of the counts of the known words.
    pub proof fn lemma_total_is_sum_over_vocabulary(&self)
        requires
            self.wf(),
        ensures
            self.total() == self.count_sum(self.vocabulary()),
    {
        let n = self.words@.len() as int;
        assert forall|k: int| 0 <= k <= n implies sum_of(#[trigger] self.counts@.subrange(0, k))
            == self.count_sum(self.vocabulary().subrange(0, k)) by {
            self.lemma_prefix_sum(k);
        }
        assert(self.counts@.subrange(0, n) =~= self.counts@);
        assert(self.vocabulary().subrange(0, n) =~= self.vocabulary());
    }

    proof fn lemma_prefix_sum(&self, k: int)
        requires
            self.wf(),
            0 <= k <= self.words@.len(),
        ensures
            sum_of(self.counts@.subrange(0, k)) == self.count_sum(self.vocabulary().subrange(0, k)),
        decreases k,
    {
        if k > 0 {
            self.lemma_prefix_sum(k - 1);
            self.lemma_count_at(k - 1);
            assert(self.counts@.subrange(0, k).drop_last() =~= self.counts@.subrange(0, k - 1));
            assert(self.vocabulary().subrange(0, k).drop_last() =~= self.vocabulary().subrange(
                0,
                k - 1,
            ));
        }
    }

    /// A counter with no words.
    pub fn new() -> (r: Self)
        ensures
            r.wf(),
            r.total() == 0,
            r.vocabulary() == Seq::<Seq<char>>::empty(),
            forall|w: Seq<char>| r.count(w) == 0,
    {
        let r = WordCounter { words: Vec::new(), counts: Vec::new(), total: 0 };
        assert(r.vocabulary() =~= Seq::<Seq<char>>::empty());
        r
    }

    /// How often `w` was counted.
    pub(crate) fn count_of(&self, w: &Vec<char>) -> (r: u32)
        requires
            self.wf(),
        ensures
            r == self.count(w@),
    {
        let (found, p) = locate(&self.words, w);
        if found {
            proof {
                self.lemma_count_at(p as int);
            }
            self.counts[p]
        } else {
            proof {
                assert forall|i: int| 0 <= i < self.words@.len() implies self.words@[i]@ != w@ by {
                    lemma_lex_irreflexive(w@);
                }
            }
            0
        }
    }

    /// Counts `key` once more.
    fn add_key(&mut self, key: Vec<char>)
        requires
            old(self).wf(),
            old(self).total() < u32::MAX,
        ensures
            final(self).wf(),
            final(self).total() == old(self).total() + 1,
            forall|w: Seq<char>| #[trigger]
                final(self).count(w) == old(self).count(w) + if w == key@ {
                    1nat
                } else {
                    0
                },
    {
        let ghost prev = *self;
        let ghost k = key@;
        let (found, p) = locate(&self.words, &key);
        if found {
            proof {
                lemma_elem_le_sum(self.counts@, p as int);
                lemma_sum_update(self.counts@, p as int, (self.counts@[p as int] + 1) as u32);
            }
            let c = self.counts[p];
            self.counts.set(p, c + 1);
            self.total = self.total + 1;
            assert forall|w: Seq<char>| #[trigger]
                self.count(w) == prev.count(w) + if w == k {
                    1nat
                } else {
                    0
                } by {
                if exists|i: int| 0 <= i < prev.words@.len() && prev.words@[i]@ == w {
                    let i = prev.index_of(w);
                    prev.lemma_count_at(i);
                    self.lemma_count_at(i);
                    if w == k {
                        prev.lemma_index_unique(i, p as int);
                    } else {
                        assert(i != p);
                    }
                }
            }
        } else {
            proof {
                lemma_sum_insert(self.counts@, p as int, 1);
                lemma_insert_keeps_sorted(views(self.words@), p as int, k);
                assert forall|i: int| 0 <= i < prev.words@.len() implies prev.words@[i]@ != k by {
                    lemma_lex_irreflexive(k);
                }
            }
            self.words.insert(p, key);
            self.counts.insert(p, 1);
            self.total = self.total + 1;
            assert(views(self.words@) =~= views(prev.words@).insert(p as int, k));
            assert forall|i: int| 0 <= i < self.counts@.len() implies #[trigger] self.counts@[i]
                > 0 by {
                if i < p {
                    assert(self.counts@[i] == prev.counts@[i]);
                } else if i > p {
                    assert(self.counts@[i] == prev.counts@[i - 1]);
                }
            }
            assert forall|w: Seq<char>| #[trigger]
                self.count(w) == prev.count(w) + if w == k {
                    1nat
                } else {
                    0
                } by {
                if w == k {
                    assert(self.words@[p as int]@ == k);
                    self.lemma_count_at(p as int);
                } else if exists|i: int| 0 <= i < prev.words@.len() && prev.words@[i]@ == w {
                    let i = prev.index_of(w);
                    prev.lemma_count_at(i);
                    if i < p {
                        assert(self.words@[i]@ == w);
                        self.lemma_count_at(i);
                    } else {
                        assert(self.words@[i + 1]@ == w);
                        self.lemma_count_at(i + 1);
                    }
                } else {
                    assert forall|i: int| 0 <= i < self.words@.len() implies self.words@[i]@
                        != w by {
                        if i < p {
                            assert(self.words@[i] == prev.words@[i]);
                        } else if i > p {
                            assert(self.words@[i] == prev.words@[i - 1]);
                        }
                    }
                }
            }
        }
    }

    /// Counts `word` once more, exactly as it is written. Counts are `u32`:
    /// the total must still have room for one more.
    pub fn add_exact(&mut self, word: &str)
        requires
            old(self).wf(),
            old(self).total() < u32::MAX,
        ensures
            final(self).wf(),
            final(self).total() == old(self).total() + 1,
            forall|w: Seq<char>| #[trigger]
                final(self).count(w) == old(self).count(w) + if w == word@ {
                    1nat
                } else {
                    0
                },
    {
        let key = chars_of(word);
        self.add_key(key);
    }

    /// Counts `item` once more, under its trimmed, lowercased form. Counts
    /// are `u32`: the total must still have room for one more.
    pub fn add(&mut self, item: &str)
        requires
            old(self).wf(),
            old(self).total() < u32::MAX,
        ensures
            final(self).wf(),
            final(self).total() == old(self).total() + 1,
            forall|w: Seq<char>| #[trigger]
                final(self).count(w) == old(self).count(w) + if w == normalized(item@) {
                    1nat
                } else {
                    0
                },
    {
        let chars = chars_of(item);
        let key = normalize(&chars);
        self.add_key(key);
    }

    /// The known words, in lexicographic order.
    pub fn words(&self) -> (r: Vec<String>)
        requires
            self.wf(),
        ensures
            string_views(r@) == self.vocabulary(),
    {
        strings_of(&self.words)
    }

    /// How often `word` was counted, exactly as written; 0 for a word never
    /// added.
    pub fn get(&self, word: &str) -> (r: u32)
        requires
            self.wf(),
        ensures
            r == self.count(word@),
    {
        let w = chars_of(word);
        self.count_of(&w)
    }

    /// The number of words counted in all.
    pub fn total_count(&self) -> (r: u32)
        requires
            self.wf(),
        ensures
            r == self.total(),
    {
        self.total
    }

    /// Counts every token of every cleaned line of `input`. The input holds
    /// at most `u32::MAX` characters, and so at most as many tokens: every
    /// count fits in a `u32`.
    pub fn from_str(input: &str) -> (r: Self)
        requires
            input@.len() <= u32::MAX,
        ensures
            r.wf(),
            r.total() == corpus_tokens(input@).len(),
            forall|w: Seq<char>| #[trigger] r.count(w) == occurrences(corpus_tokens(input@), w),
    {
        let chars = chars_of(input);
        let lines = split_lines(&chars);
        let ghost ls = views(lines@);
        let ghost n = ls.len() as int;
        let mut counter = Self::new();
        let mut k: usize = 0;
        assert(ls.subrange(0, 0) =~= Seq::<Seq<char>>::empty());
        assert(ls.subrange(0, n) =~= ls);
        while k < lines.len()
            invariant
                counter.wf(),
                n == lines@.len(),
                ls == views(lines@),
                ls == lines_of(input@),
                k <= n,
                counter.total() == tokens_of_lines(ls.subrange(0, k as int)).len(),
                forall|w: Seq<char>| #[trigger]
                    counter.count(w) == occurrences(tokens_of_lines(ls.subrange(0, k as int)), w),
                counter.total() + total_len(ls.subrange(k as int, n)) <= u32::MAX,
            decreases n - k,
        {
            let line = clean_chars(&lines[k]);
            let toks = to_words(&line);
            let ghost done = tokens_of_lines(ls.subrange(0, k as int));
            let ghost ts = views(toks@);
            let ghost rest = total_len(ls.subrange(k + 1, n));
            assert(ls.subrange(k as int, n).drop_first() =~= ls.subrange(k + 1, n));
            assert(ls.subrange(k as int, n)[0] == lines@[k as int]@);
            let mut j: usize = 0;
            assert(done + ts.subrange(0, 0) =~= done);
            while j < toks.len()
                invariant
                    counter.wf(),
                    ts == views(toks@),
                    j <= toks@.len(),
                    counter.total() == (done + ts.subrange(0, j as int)).len(),
                    forall|w: Seq<char>| #[trigger]
                        counter.count(w) == occurrences(done + ts.subrange(0, j as int), w),
                    counter.total() + (toks@.len() - j) + rest <= u32::MAX,
                decreases toks@.len() - j,
            {
                let key = normalize(&toks[j]);
                counter.add_key(key);
                assert((done + ts.subrange(0, j + 1)).drop_last() =~= done + ts.subrange(
                    0,
                    j as int,
                ));
                assert((done + ts.subrange(0, j + 1)).last() == toks@[j as int]@);
                j = j + 1;
            }
            assert(ls.subrange(0, k + 1).drop_last() =~= ls.subrange(0, k as int));
            assert(ts.subrange(0, j as int) =~= ts);
            k = k + 1;
        }
        counter
    }

    /// Whether the entry at index `i` is listed before that at `j`.
    closed spec fn entry_before(&self, i: int, j: int) -> bool {
        ranks_before(self.counts@[i] as nat, self.words@[i]@, self.counts@[j] as nat, self.words@[j]@)
    }

    /// The indices of the entries, in listing order.
    fn rank_order(&self) -> (r: Vec<usize>)
        requires
            self.wf(),
        ensures
            r@.len() == self.words@.len(),
            forall|k: int| 0 <= k < r@.len() ==> #[trigger] r@[k] < self.words@.len(),
            forall|a: int, b: int|
                0 <= a < b < r@.len() ==> self.entry_before(#[trigger] r@[a] as int, #[trigger] r@[b] as int),
    {
        let n = self.words.len();
        let mut out: Vec<usize> = Vec::new();
        let mut i: usize = 0;
        while i < n
            invariant
                self.wf(),
                n == self.words@.len(),
                i <= n,
                out@.len() == i,
                forall|k: int| 0 <= k < out@.len() ==> #[trigger] out@[k] < i,
                forall|a: int, b: int|
                    0 <= a < b < out@.len() ==> self.entry_before(#[trigger] out@[a] as int, #[trigger] out@[b] as int),
            decreases n - i,
        {
            let mut p: usize = 0;
            while p < out.len() && (self.counts[out[p]] > self.counts[i] || (self.counts[out[p]]
                == self.counts[i] && lex_lt(&self.words[out[p]], &self.words[i])))
                invariant
                    self.wf(),
                    n == self.words@.len(),
                    i < n,
                    p <= out@.len(),
                    forall|k: int| 0 <= k < out@.len() ==> #[trigger] out@[k] < i,
                    forall|k: int| 0 <= k < p ==> self.entry_before(#[trigger] out@[k] as int, i as int),
                decreases out@.len() - p,
            {
                p = p + 1;
            }
            proof {
                assert forall|k: int| p <= k < out@.len() implies self.entry_before(
                    i as int,
                    #[trigger] out@[k] as int,
                ) by {
                    let j = out@[p as int] as int;
                    if self.words@[i as int]@ == self.words@[j]@ {
                        self.lemma_index_unique(i as int, j);
                    }
                    lemma_lex_total(self.words@[i as int]@, self.words@[j]@);
                    assert(self.entry_before(i as int, j));
                    if k > p {
                        let m = out@[k] as int;
                        lemma_ranks_before_transitive(
                            self.counts@[i as int] as nat, self.words@[i as int]@,
                            self.counts@[j] as nat, self.words@[j]@,
                            self.counts@[m] as nat, self.words@[m]@,
                        );
                    }
                }
            }
            let ghost before = out@;
            out.insert(p, i);
            assert forall|a: int, b: int|
                0 <= a < b < out@.len() implies self.entry_before(#[trigger] out@[a] as int, #[trigger] out@[b] as int) by {
                if b < p {
                    assert(out@[a] == before[a] && out@[b] == before[b]);
                } else if b == p {
                    assert(out@[a] == before[a]);
                } else if a == p {
                    assert(out@[b] == before[b - 1]);
                } else if a < p {
                    assert(out@[a] == before[a] && out@[b] == before[b - 1]);
                } else {
                    assert(out@[a] == before[a - 1] && out@[b] == before[b - 1]);
                }
            }
            assert forall|k: int| 0 <= k < out@.len() implies #[trigger] out@[k] < i + 1 by {
                if k < p {
                    assert(out@[k] == before[k]);
                } else if k > p {
                    assert(out@[k] == before[k - 1]);
                }
            }
            i = i + 1;
        }
        out
    }

    /// A listing of the counter: a first line with the total count, then a
    /// line `word: count` for each known word, higher counts first and words
    /// of equal count in lexicographic order.
    pub fn summary(&self) -> (r: String)
        requires
            self.wf(),
        ensures
            exists|es: Seq<(Seq<char>, nat)>|
                {
                    &&& es.len() == self.vocabulary().len()
                    &&& forall|k: int|
                        0 <= k < es.len() ==> self.vocabulary().contains(#[trigger] es[k].0) && es[k].1
                            == self.count(es[k].0)
                    &&& forall|a: int, b: int|
                        0 <= a < b < es.len() ==> ranks_before(
                            #[trigger] es[a].1,
                            es[a].0,
                            #[trigger] es[b].1,
                            es[b].0,
                        )
                    &&& r@ == summary_header(self.total()) + listing(es)
                },
    {
        let order = self.rank_order();
        let ghost es = Seq::new(
            order@.len(),
            |k: int| (self.words@[order@[k] as int]@, self.counts@[order@[k] as int] as nat),
        );
        let mut out = chars_of("WordCounter, total count: ");
        push_decimal(&mut out, self.total);
        out.push('\n');
        let ghost header = out@;
        assert(header =~= summary_header(self.total()));
        let mut k: usize = 0;
        assert(es.subrange(0, 0) =~= Seq::<(Seq<char>, nat)>::empty());
        while k < order.len()
            invariant
                self.wf(),
                k <= order@.len(),
                es.len() == order@.len(),
                forall|m: int| 0 <= m < order@.len() ==> #[trigger] order@[m] < self.words@.len(),
                forall|m: int| 0 <= m < es.len() ==> #[trigger] es[m] == (
                    self.words@[order@[m] as int]@,
                    self.counts@[order@[m] as int] as nat,
                ),
                out@ == header + listing(es.subrange(0, k as int)),
            decreases order@.len() - k,
        {
            let idx = order[k];
            assert(idx < self.words@.len());
            push_all(&mut out, &self.words[idx]);
            out.push(':');
            out.push(' ');
            push_decimal(&mut out, self.counts[idx]);
            out.push('\n');
            assert(es.subrange(0, k + 1).drop_last() =~= es.subrange(0, k as int));
            assert(es[k as int] == (self.words@[idx as int]@, self.counts@[idx as int] as nat));
            assert(out@ =~= header + listing(es.subrange(0, k + 1)));
            k = k + 1;
        }
        assert(es.subrange(0, k as int) =~= es);
        assert forall|m: int| 0 <= m < es.len() implies self.vocabulary().contains(#[trigger] es[m].0)
            && es[m].1 == self.count(es[m].0) by {
            let idx = order@[m] as int;
            self.lemma_count_at(idx);
            assert(self.vocabulary()[idx] == es[m].0);
        }
        assert forall|a: int, b: int| 0 <= a < b < es.len() implies ranks_before(
            #[trigger] es[a].1,
            es[a].0,
            #[trigger] es[b].1,
            es[b].0,
        ) by {
            assert(self.entry_before(order@[a] as int, order@[b] as int));
        }
        string_of(&out)
    }
}

} // verus!
