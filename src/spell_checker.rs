//! Candidate generation by edits, and correction by frequency.
use vstd::prelude::*;

use crate::lexical::{
    insert_sorted, lemma_view_set_empty, lemma_view_set_push, lex_less, sorted_set,
    strictly_sorted, view_set,
};
use crate::text::{chars_of, corpus_tokens, string_of, string_views, strings_of, views};
use crate::word_counter::{occurrences, WordCounter};

verus! {

/// `w` with `c` put in place of its characters from `i` up to `j`.
pub open spec fn spliced(w: Seq<char>, i: int, c: char, j: int) -> Seq<char> {
    w.subrange(0, i) + seq![c] + w.subrange(j, w.len() as int)
}

/// `w` with `c` inserted before its character at `i`.
pub open spec fn insertion(w: Seq<char>, i: int, c: char) -> Seq<char> {
    spliced(w, i, c, i)
}

/// `w` with its character at `i` replaced by `c`.
pub open spec fn replacement(w: Seq<char>, i: int, c: char) -> Seq<char> {
    spliced(w, i, c, i + 1)
}

/// `w` without its character at `i`.
pub open spec fn deletion(w: Seq<char>, i: int) -> Seq<char> {
    w.subrange(0, i) + w.subrange(i + 1, w.len() as int)
}

/// `w` with its characters at `i` and `i + 1` swapped.
pub open spec fn transposition(w: Seq<char>, i: int) -> Seq<char> {
    w.subrange(0, i) + seq![w[i + 1], w[i]] + w.subrange(i + 2, w.len() as int)
}

/// The words made by deleting one character of `w`.
pub open spec fn deletes(w: Seq<char>) -> Set<Seq<char>> {
    Set::new(|v: Seq<char>| exists|i: int| 0 <= i < w.len() && v == deletion(w, i))
}

/// The words made by inserting one character of `a` anywhere in `w`.
pub open spec fn inserts(w: Seq<char>, a: Seq<char>) -> Set<Seq<char>> {
    Set::new(
        |v: Seq<char>|
            exists|i: int, c: char| 0 <= i <= w.len() && a.contains(c) && v == insertion(w, i, c),
    )
}

/// The words made by replacing one character of `w` with one of `a`.
pub open spec fn replaces(w: Seq<char>, a: Seq<char>) -> Set<Seq<char>> {
    Set::new(
        |v: Seq<char>|
            exists|i: int, c: char|
                0 <= i < w.len() && a.contains(c) && v == replacement(w, i, c),
    )
}

/// The words made by swapping two adjacent characters of `w`.
pub open spec fn transposes(w: Seq<char>) -> Set<Seq<char>> {
    Set::new(|v: Seq<char>| exists|i: int| 0 <= i && i + 1 < w.len() && v == transposition(w, i))
}

/// The words one edit away from `w`: one deletion, insertion, replacement
/// or transposition, with `a` as the alphabet.
pub open spec fn edits1(w: Seq<char>, a: Seq<char>) -> Set<Seq<char>> {
    deletes(w) + inserts(w, a) + replaces(w, a) + transposes(w)
}

/// The words reached from `w` by two single edits in a row; this takes in
/// words that are also nearer, `w` itself among them.
pub open spec fn edits2(w: Seq<char>, a: Seq<char>) -> Set<Seq<char>> {
    Set::new(|v: Seq<char>| exists|u: Seq<char>| edits1(w, a).contains(u) && edits1(u, a).contains(v))
}

/// The words reached by one edit from some word of `us`.
pub open spec fn edits1_of_all(us: Set<Seq<char>>, a: Seq<char>) -> Set<Seq<char>> {
    Set::new(|v: Seq<char>| exists|u: Seq<char>| us.contains(u) && edits1(u, a).contains(v))
}

/// With an empty alphabet, a word with no two equal adjacent characters is
/// not one edit away from itself: deleting shortens it, and swapping two
/// different characters changes it.
pub proof fn lemma_edits1_without_alphabet_excludes_word(w: Seq<char>)
    requires
        forall|i: int| 0 <= i && i + 1 < w.len() ==> #[trigger] w[i] != w[i + 1],
    ensures
        !edits1(w, Seq::empty()).contains(w),
{
    let a = Seq::<char>::empty();
    if deletes(w).contains(w) {
        let i = choose|i: int| 0 <= i < w.len() && w == deletion(w, i);
        assert(deletion(w, i).len() == w.len() - 1);
    }
    if inserts(w, a).contains(w) {
        let (i, c) = choose|i: int, c: char|
            0 <= i <= w.len() && a.contains(c) && w == insertion(w, i, c);
        assert(!a.contains(c));
    }
    if replaces(w, a).contains(w) {
        let (i, c) = choose|i: int, c: char|
            0 <= i < w.len() && a.contains(c) && w == replacement(w, i, c);
        assert(!a.contains(c));
    }
    if transposes(w).contains(w) {
        let i = choose|i: int| 0 <= i && i + 1 < w.len() && w == transposition(w, i);
        assert(transposition(w, i)[i] == w[i + 1]);
    }
}

/// The characters of `w` before `i`, then `mid`, then those from `j` on.
fn splice(w: &Vec<char>, i: usize, mid: &Vec<char>, j: usize) -> (r: Vec<char>)
    requires
        i <= j <= w@.len(),
    ensures
        r@ == w@.subrange(0, i as int) + mid@ + w@.subrange(j as int, w@.len() as int),
{
    let mut r: Vec<char> = Vec::new();
    let mut k: usize = 0;
    while k < i
        invariant
            k <= i <= j <= w@.len(),
            r@ == w@.subrange(0, k as int),
        decreases i - k,
    {
        r.push(w[k]);
        k = k + 1;
        assert(r@ =~= w@.subrange(0, k as int));
    }
    let mut m: usize = 0;
    while m < mid.len()
        invariant
            m <= mid@.len(),
            r@ == w@.subrange(0, i as int) + mid@.subrange(0, m as int),
        decreases mid@.len() - m,
    {
        r.push(mid[m]);
        m = m + 1;
        assert(r@ =~= w@.subrange(0, i as int) + mid@.subrange(0, m as int));
    }
    let mut k: usize = j;
    assert(mid@.subrange(0, m as int) =~= mid@);
    assert(r@ =~= w@.subrange(0, i as int) + mid@ + w@.subrange(j as int, j as int));
    while k < w.len()
        invariant
            j <= k <= w@.len(),
            r@ == w@.subrange(0, i as int) + mid@ + w@.subrange(j as int, k as int),
        decreases w@.len() - k,
    {
        r.push(w[k]);
        k = k + 1;
        assert(r@ =~= w@.subrange(0, i as int) + mid@ + w@.subrange(j as int, k as int));
    }
    r
}

/// Adds the words made by deleting one character of `w`.
fn single_deletes(w: &Vec<char>, out: &mut Vec<Vec<char>>)
    ensures
        view_set(final(out)@) == view_set(old(out)@) + deletes(w@),
{
    let ghost start = view_set(out@);
    let empty: Vec<char> = Vec::new();
    let mut i: usize = 0;
    assert(view_set(out@) =~= start + Set::new(
        |v: Seq<char>| exists|k: int| 0 <= k < 0 && v == deletion(w@, k),
    ));
    while i < w.len()
        invariant
            i <= w@.len(),
            empty@.len() == 0,
            view_set(out@) == start + Set::new(
                |v: Seq<char>| exists|k: int| 0 <= k < i && v == deletion(w@, k),
            ),
        decreases w@.len() - i,
    {
        let e = splice(w, i, &empty, i + 1);
        assert(e@ =~= deletion(w@, i as int));
        proof {
            lemma_view_set_push(out@, e);
        }
        out.push(e);
        i = i + 1;
        assert(view_set(out@) =~= start + Set::new(
            |v: Seq<char>| exists|k: int| 0 <= k < i && v == deletion(w@, k),
        ));
    }
    assert(view_set(out@) =~= start + deletes(w@));
}

/// Adds the words made by swapping two adjacent characters of `w`.
fn adjacent_transposes(w: &Vec<char>, out: &mut Vec<Vec<char>>)
    ensures
        view_set(final(out)@) == view_set(old(out)@) + transposes(w@),
{
    let ghost start = view_set(out@);
    let mut i: usize = 0;
    assert(view_set(out@) =~= start + Set::new(
        |v: Seq<char>| exists|k: int| 0 <= k < 0 && v == transposition(w@, k),
    ));
    while i < w.len() && i + 1 < w.len()
        invariant
            i <= w@.len(),
            i == 0 || i < w@.len(),
            view_set(out@) == start + Set::new(
                |v: Seq<char>| exists|k: int| 0 <= k < i && v == transposition(w@, k),
            ),
        decreases w@.len() - i,
    {
        let mut mid: Vec<char> = Vec::new();
        mid.push(w[i + 1]);
        mid.push(w[i]);
        let e = splice(w, i, &mid, i + 2);
        assert(e@ =~= transposition(w@, i as int));
        proof {
            lemma_view_set_push(out@, e);
        }
        out.push(e);
        i = i + 1;
        assert(view_set(out@) =~= start + Set::new(
            |v: Seq<char>| exists|k: int| 0 <= k < i && v == transposition(w@, k),
        ));
    }
    assert(view_set(out@) =~= start + transposes(w@));
}

/// Adds the words made by putting each character of `alphabet` in place of
/// the characters of `w` from `i` up to `j`.
fn splices_at(w: &Vec<char>, i: usize, j: usize, alphabet: &Vec<char>, out: &mut Vec<Vec<char>>)
    requires
        i <= j <= w@.len(),
    ensures
        view_set(final(out)@) == view_set(old(out)@) + Set::new(
            |v: Seq<char>| exists|c: char| alphabet@.contains(c) && v == spliced(w@, i as int, c, j as int),
        ),
{
    let ghost start = view_set(out@);
    let mut m: usize = 0;
    assert(view_set(out@) =~= start + Set::new(
        |v: Seq<char>|
            exists|c: char|
                alphabet@.subrange(0, 0).contains(c) && v == spliced(w@, i as int, c, j as int),
    ));
    while m < alphabet.len()
        invariant
            i <= j <= w@.len(),
            m <= alphabet@.len(),
            view_set(out@) == start + Set::new(
                |v: Seq<char>|
                    exists|c: char|
                        alphabet@.subrange(0, m as int).contains(c) && v == spliced(
                            w@,
                            i as int,
                            c,
                            j as int,
                        ),
            ),
        decreases alphabet@.len() - m,
    {
        let c = alphabet[m];
        let mut mid: Vec<char> = Vec::new();
        mid.push(c);
        let e = splice(w, i, &mid, j);
        assert(mid@ =~= seq![c]);
        let ghost before = alphabet@.subrange(0, m as int);
        let ghost prev_set = view_set(out@);
        proof {
            lemma_view_set_push(out@, e);
        }
        out.push(e);
        m = m + 1;
        let ghost after = alphabet@.subrange(0, m as int);
        assert(after =~= before.push(c));
        let ghost goal = start + Set::new(
            |v: Seq<char>| exists|d: char| after.contains(d) && v == spliced(w@, i as int, d, j as int),
        );
        assert forall|v: Seq<char>| goal.contains(v) implies view_set(out@).contains(v) by {
            if !start.contains(v) {
                let d = choose|d: char| after.contains(d) && v == spliced(w@, i as int, d, j as int);
                let k = choose|k: int| 0 <= k < after.len() && after[k] == d;
                if k < before.len() {
                    assert(before[k] == d);
                    assert(prev_set.contains(v));
                }
            }
        }
        assert forall|v: Seq<char>| view_set(out@).contains(v) implies goal.contains(v) by {
            if v == e@ {
                assert(after[before.len() as int] == c);
                assert(after.contains(c));
                assert(e@ == spliced(w@, i as int, c, j as int));
                assert(goal.contains(v));
            } else if !start.contains(v) {
                assert(prev_set.contains(v));
                let d = choose|d: char| before.contains(d) && v == spliced(w@, i as int, d, j as int);
                let k = choose|k: int| 0 <= k < before.len() && before[k] == d;
                assert(after[k] == d);
                assert(after.contains(d));
                assert(goal.contains(v));
            }
        }
        assert(view_set(out@) =~= goal);
    }
    assert(alphabet@.subrange(0, m as int) =~= alphabet@);
}

/// Adds the words made by inserting one character of `alphabet` anywhere
/// in `w`.
fn single_inserts(w: &Vec<char>, alphabet: &Vec<char>, out: &mut Vec<Vec<char>>)
    ensures
        view_set(final(out)@) == view_set(old(out)@) + inserts(w@, alphabet@),
{
    let ghost a = alphabet@;
    let ghost start = view_set(out@);
    let mut i: usize = 0;
    assert(view_set(out@) =~= start + Set::new(
        |v: Seq<char>|
            exists|k: int, c: char| 0 <= k < 0 && a.contains(c) && v == insertion(w@, k, c),
    ));
    loop
        invariant_except_break
            view_set(out@) == start + Set::new(
                |v: Seq<char>|
                    exists|k: int, c: char| 0 <= k < i && a.contains(c) && v == insertion(w@, k, c),
            ),
        invariant
            i <= w@.len(),
            a == alphabet@,
        ensures
            view_set(out@) == start + Set::new(
                |v: Seq<char>|
                    exists|k: int, c: char|
                        0 <= k < w@.len() + 1 && a.contains(c) && v == insertion(w@, k, c),
            ),
        decreases w@.len() - i,
    {
        let ghost prev_set = view_set(out@);
        splices_at(w, i, i, alphabet, out);
        let ghost added = Set::new(
            |v: Seq<char>| exists|c: char| a.contains(c) && v == spliced(w@, i as int, c, i as int),
        );
        assert(view_set(out@) =~= prev_set + added);
        let ghost goal = start + Set::new(
            |v: Seq<char>|
                exists|k: int, c: char| 0 <= k < i + 1 && a.contains(c) && v == insertion(w@, k, c),
        );
        assert forall|v: Seq<char>| goal.contains(v) implies view_set(out@).contains(v) by {
            if !start.contains(v) {
                let (k, c) = choose|k: int, c: char|
                    0 <= k < i + 1 && a.contains(c) && v == insertion(w@, k, c);
                if k < i {
                    assert(prev_set.contains(v));
                } else {
                    assert(v == spliced(w@, i as int, c, i as int));
                }
            }
        }
        assert forall|v: Seq<char>| view_set(out@).contains(v) implies goal.contains(v) by {
            if !start.contains(v) {
                if prev_set.contains(v) {
                    let (k, c) = choose|k: int, c: char|
                        0 <= k < i && a.contains(c) && v == insertion(w@, k, c);
                    assert(goal.contains(v));
                } else {
                    let c = choose|c: char| a.contains(c) && v == spliced(w@, i as int, c, i as int);
                    assert(v == insertion(w@, i as int, c));
                    assert(goal.contains(v));
                }
            }
        }
        assert(view_set(out@) =~= goal);
        if i == w.len() {
            break;
        }
        i = i + 1;
    }
    assert(view_set(out@) =~= start + inserts(w@, a));
}

/// Adds the words made by replacing one character of `w` with one of
/// `alphabet`.
fn single_replaces(w: &Vec<char>, alphabet: &Vec<char>, out: &mut Vec<Vec<char>>)
    ensures
        view_set(final(out)@) == view_set(old(out)@) + replaces(w@, alphabet@),
{
    let ghost a = alphabet@;
    let ghost start = view_set(out@);
    let mut i: usize = 0;
    assert(view_set(out@) =~= start + Set::new(
        |v: Seq<char>|
            exists|k: int, c: char| 0 <= k < 0 && a.contains(c) && v == replacement(w@, k, c),
    ));
    while i < w.len()
        invariant
            i <= w@.len(),
            a == alphabet@,
            view_set(out@) == start + Set::new(
                |v: Seq<char>|
                    exists|k: int, c: char|
                        0 <= k < i && a.contains(c) && v == replacement(w@, k, c),
            ),
        decreases w@.len() - i,
    {
        let ghost prev_set = view_set(out@);
        splices_at(w, i, i + 1, alphabet, out);
        let ghost added = Set::new(
            |v: Seq<char>| exists|c: char| a.contains(c) && v == spliced(w@, i as int, c, i + 1),
        );
        assert(view_set(out@) =~= prev_set + added);
        let ghost goal = start + Set::new(
            |v: Seq<char>|
                exists|k: int, c: char|
                    0 <= k < i + 1 && a.contains(c) && v == replacement(w@, k, c),
        );
        assert forall|v: Seq<char>| goal.contains(v) implies view_set(out@).contains(v) by {
            if !start.contains(v) {
                let (k, c) = choose|k: int, c: char|
                    0 <= k < i + 1 && a.contains(c) && v == replacement(w@, k, c);
                if k < i {
                    assert(prev_set.contains(v));
                } else {
                    assert(v == spliced(w@, i as int, c, i + 1));
                }
            }
        }
        assert forall|v: Seq<char>| view_set(out@).contains(v) implies goal.contains(v) by {
            if !start.contains(v) {
                if prev_set.contains(v) {
                    let (k, c) = choose|k: int, c: char|
                        0 <= k < i && a.contains(c) && v == replacement(w@, k, c);
                    assert(goal.contains(v));
                } else {
                    let c = choose|c: char| a.contains(c) && v == spliced(w@, i as int, c, i + 1);
                    assert(v == replacement(w@, i as int, c));
                    assert(goal.contains(v));
                }
            }
        }
        assert(view_set(out@) =~= goal);
        i = i + 1;
    }
    assert(view_set(out@) =~= start + replaces(w@, a));
}

/// Every word one edit away from `w`, possibly more than once.
fn edit_list(w: &Vec<char>, alphabet: &Vec<char>) -> (r: Vec<Vec<char>>)
    ensures
        view_set(r@) == edits1(w@, alphabet@),
{
    let mut r: Vec<Vec<char>> = Vec::new();
    assert(view_set(r@) =~= Set::<Seq<char>>::empty());
    single_deletes(w, &mut r);
    single_inserts(w, alphabet, &mut r);
    single_replaces(w, alphabet, &mut r);
    adjacent_transposes(w, &mut r);
    assert(view_set(r@) =~= edits1(w@, alphabet@));
    r
}

/// A corrector over the words of a corpus, editing with the characters of
/// an alphabet.
pub struct SpellChecker {
    corpus: WordCounter,
    alphabet: Vec<char>,
}

impl SpellChecker {
    pub closed spec fn wf(&self) -> bool {
        self.corpus.wf()
    }

    /// The frequency model of the corpus.
    pub closed spec fn counter(&self) -> WordCounter {
        self.corpus
    }

    /// The characters used for insertions and replacements.
    pub closed spec fn alphabet(&self) -> Seq<char> {
        self.alphabet@
    }

    /// How often `w` occurs in the corpus.
    pub open spec fn count(&self, w: Seq<char>) -> nat {
        self.counter().count(w)
    }

    /// The words of `s` that occur in the corpus.
    pub open spec fn known_in(&self, s: Set<Seq<char>>) -> Set<Seq<char>> {
        s.filter(|v: Seq<char>| self.count(v) > 0)
    }

    /// The candidates for `w`: `w` itself if it is known; else the known
    /// words one edit away, if any; else those two edits away, if any; else
    /// `w` itself.
    pub open spec fn candidate_set(&self, w: Seq<char>) -> Set<Seq<char>> {
        let a = self.alphabet();
        if self.count(w) > 0 {
            set![w]
        } else if self.known_in(edits1(w, a)) != Set::<Seq<char>>::empty() {
            self.known_in(edits1(w, a))
        } else if self.known_in(edits2(w, a)) != Set::<Seq<char>>::empty() {
            self.known_in(edits2(w, a))
        } else {
            set![w]
        }
    }

    /// The words of `s` that occur in the corpus, in their order in `s`.
    pub open spec fn known_seq(&self, s: Seq<Seq<char>>) -> Seq<Seq<char>> {
        s.filter(|v: Seq<char>| self.count(v) > 0)
    }

    /// The known words of `s` where `known_only`, else all of `s`.
    pub open spec fn selected(&self, s: Set<Seq<char>>, known_only: bool) -> Set<Seq<char>> {
        if known_only {
            self.known_in(s)
        } else {
            s
        }
    }

    /// `r` is the word of `s` with the highest count, and the last of those
    /// in lexicographic order where several share it.
    pub open spec fn is_best(&self, s: Set<Seq<char>>, r: Seq<char>) -> bool {
        &&& s.contains(r)
        &&& forall|v: Seq<char>|
            #[trigger] s.contains(v) ==> self.count(v) < self.count(r) || (self.count(v)
                == self.count(r) && (v == r || lex_less(v, r)))
    }

    /// Every word has a candidate: at worst itself.
    pub proof fn lemma_candidate_set_nonempty(&self, w: Seq<char>)
        ensures
            self.candidate_set(w) != Set::<Seq<char>>::empty(),
    {
        if self.candidate_set(w) == set![w] {
            assert(set![w].contains(w));
        }
    }

    /// Builds the frequency model of `corpus`, and keeps the characters of
    /// `alphabet` for edits. The corpus holds at most `u32::MAX` characters,
    /// so that every count fits in a `u32`.
    pub fn new(corpus: &str, alphabet: &str) -> (r: Self)
        requires
            corpus@.len() <= u32::MAX,
        ensures
            r.wf(),
            r.alphabet() == alphabet@,
            r.counter().total() == corpus_tokens(corpus@).len(),
            forall|w: Seq<char>| #[trigger] r.count(w) == occurrences(corpus_tokens(corpus@), w),
    {
        SpellChecker { corpus: WordCounter::from_str(corpus), alphabet: chars_of(alphabet) }
    }

    /// The frequency model of the corpus.
    pub fn corpus(&self) -> (r: &WordCounter)
        ensures
            *r == self.counter(),
    {
        &self.corpus
    }

    /// Adds to the sorted `out` the words of `list`, or only the known ones.
    fn merge_into(&self, list: &Vec<Vec<char>>, known_only: bool, out: &mut Vec<Vec<char>>)
        requires
            self.wf(),
            strictly_sorted(views(old(out)@)),
        ensures
            strictly_sorted(views(final(out)@)),
            view_set(final(out)@) == view_set(old(out)@) + self.selected(view_set(list@), known_only),
    {
        let ghost start = view_set(out@);
        let mut k: usize = 0;
        assert(view_set(list@.subrange(0, 0)) =~= Set::<Seq<char>>::empty());
        assert(view_set(out@) =~= start + self.selected(view_set(list@.subrange(0, 0)), known_only));
        while k < list.len()
            invariant
                self.wf(),
                k <= list@.len(),
                strictly_sorted(views(out@)),
                view_set(out@) == start + self.selected(view_set(list@.subrange(0, k as int)), known_only),
            decreases list@.len() - k,
        {
            let ghost prefix = list@.subrange(0, k as int);
            let keep = if known_only {
                self.corpus.count_of(&list[k]) > 0
            } else {
                true
            };
            if keep {
                insert_sorted(out, list[k].clone());
            }
            proof {
                assert(list@.subrange(0, k + 1) =~= prefix.push(list@[k as int]));
                lemma_view_set_push(prefix, list@[k as int]);
                assert(view_set(out@) =~= start + self.selected(view_set(list@.subrange(0, k + 1)), known_only));
            }
            k = k + 1;
        }
        assert(list@.subrange(0, k as int) =~= list@);
    }

    /// The words one edit away from some word of `first`, or only the known
    /// ones, strictly sorted.
    fn second_edits(&self, first: &Vec<Vec<char>>, known_only: bool) -> (r: Vec<Vec<char>>)
        requires
            self.wf(),
        ensures
            strictly_sorted(views(r@)),
            view_set(r@) == self.selected(edits1_of_all(view_set(first@), self.alphabet()), known_only),
    {
        let ghost a = self.alphabet();
        let mut out: Vec<Vec<char>> = Vec::new();
        let mut k: usize = 0;
        assert(edits1_of_all(view_set(first@.subrange(0, 0)), a) =~= Set::<Seq<char>>::empty());
        assert(view_set(out@) =~= self.selected(edits1_of_all(view_set(first@.subrange(0, 0)), a), known_only));
        while k < first.len()
            invariant
                self.wf(),
                a == self.alphabet(),
                k <= first@.len(),
                strictly_sorted(views(out@)),
                view_set(out@) == self.selected(edits1_of_all(view_set(first@.subrange(0, k as int)), a), known_only),
            decreases first@.len() - k,
        {
            let ghost prefix = first@.subrange(0, k as int);
            let list = edit_list(&first[k], &self.alphabet);
            self.merge_into(&list, known_only, &mut out);
            proof {
                let u = first@[k as int]@;
                assert(first@.subrange(0, k + 1) =~= prefix.push(first@[k as int]));
                lemma_view_set_push(prefix, first@[k as int]);
                let before = edits1_of_all(view_set(prefix), a);
                let after = edits1_of_all(view_set(prefix).insert(u), a);
                assert forall|v: Seq<char>| after.contains(v) implies before.contains(v) || edits1(
                    u,
                    a,
                ).contains(v) by {
                    let x = choose|x: Seq<char>|
                        view_set(prefix).insert(u).contains(x) && edits1(x, a).contains(v);
                    if x != u {
                        assert(view_set(prefix).contains(x));
                    }
                }
                assert forall|v: Seq<char>| before.contains(v) || edits1(u, a).contains(v) implies after.contains(v) by {
                    if edits1(u, a).contains(v) {
                        assert(view_set(prefix).insert(u).contains(u));
                    } else {
                        let x = choose|x: Seq<char>|
                            view_set(prefix).contains(x) && edits1(x, a).contains(v);
                        assert(view_set(prefix).insert(u).contains(x));
                    }
                }
                assert(after =~= before + edits1(u, a));
                assert(view_set(out@) =~= self.selected(after, known_only));
            }
            k = k + 1;
        }
        assert(first@.subrange(0, k as int) =~= first@);
        out
    }

    /// The candidates for `w`, strictly sorted.
    fn candidate_list(&self, w: &Vec<char>) -> (r: Vec<Vec<char>>)
        requires
            self.wf(),
        ensures
            strictly_sorted(views(r@)),
            view_set(r@) == self.candidate_set(w@),
            r@.len() > 0,
            self.count(w@) > 0 ==> views(r@) == seq![w@],
    {
        let ghost a = self.alphabet();
        if self.corpus.count_of(w) > 0 {
            let r = vec![w.clone()];
            assert(views(r@) =~= seq![w@]);
            assert(views(r@)[0] == w@);
            assert(view_set(r@) =~= set![w@]);
            return r;
        }
        let first = edit_list(w, &self.alphabet);
        let mut known1: Vec<Vec<char>> = Vec::new();
        assert(view_set(known1@) =~= Set::<Seq<char>>::empty());
        self.merge_into(&first, true, &mut known1);
        assert(view_set(known1@) =~= self.known_in(edits1(w@, a)));
        proof {
            lemma_view_set_empty(known1@);
        }
        if known1.len() > 0 {
            return known1;
        }
        let known2 = self.second_edits(&first, true);
        assert(edits2(w@, a) =~= edits1_of_all(edits1(w@, a), a));
        proof {
            lemma_view_set_empty(known2@);
        }
        if known2.len() > 0 {
            return known2;
        }
        let r = vec![w.clone()];
        assert(views(r@) =~= seq![w@]);
        assert(views(r@)[0] == w@);
        assert(view_set(r@) =~= set![w@]);
        r
    }

    /// The candidates for `word`, in lexicographic order.
    pub fn candidates(&self, word: &str) -> (r: Vec<String>)
        requires
            self.wf(),
        ensures
            strictly_sorted(string_views(r@)),
            string_views(r@).to_set() == self.candidate_set(word@),
            r@.len() > 0,
            self.count(word@) > 0 ==> string_views(r@) == seq![word@],
    {
        let w = chars_of(word);
        let list = self.candidate_list(&w);
        let r = strings_of(&list);
        assert(string_views(r@).len() == r@.len() && views(list@).len() == list@.len());
        r
    }

    /// The most frequent candidate for `word`; of several equally frequent
    /// ones, the last in lexicographic order.
    pub fn correction(&self, word: &str) -> (r: String)
        requires
            self.wf(),
        ensures
            self.is_best(self.candidate_set(word@), r@),
    {
        let w = chars_of(word);
        let cands = self.candidate_list(&w);
        let ghost cs = views(cands@);
        let mut best: usize = 0;
        let mut best_count: u32 = self.corpus.count_of(&cands[0]);
        let mut i: usize = 1;
        while i < cands.len()
            invariant
                self.wf(),
                cs == views(cands@),
                1 <= i <= cands@.len(),
                best < i,
                best_count == self.count(cs[best as int]),
                forall|k: int|
                    0 <= k < i ==> self.count(#[trigger] cs[k]) < best_count || (self.count(cs[k])
                        == best_count && k <= best),
            decreases cands@.len() - i,
        {
            let c = self.corpus.count_of(&cands[i]);
            if c >= best_count {
                best = i;
                best_count = c;
            }
            i = i + 1;
        }
        let r = string_of(&cands[best]);
        assert forall|v: Seq<char>| #[trigger]
            self.candidate_set(word@).contains(v) implies self.count(v) < self.count(r@) || (
        self.count(v) == self.count(r@) && (v == r@ || lex_less(v, r@))) by {
            let k = choose|k: int| 0 <= k < cs.len() && cs[k] == v;
            assert(self.count(cs[k]) < best_count || (self.count(cs[k]) == best_count && k
                <= best));
            if k < best {
                assert(lex_less(cs[k], cs[best as int]));
            }
        }
        assert(cs[best as int] == r@);
        r
    }

    /// The words of `words` that occur in the corpus, in their order.
    pub fn known(&self, words: &Vec<String>) -> (r: Vec<String>)
        requires
            self.wf(),
        ensures
            string_views(r@) == self.known_seq(string_views(words@)),
    {
        let mut r: Vec<String> = Vec::new();
        let mut k: usize = 0;
        assert(string_views(words@.subrange(0, 0)) =~= Seq::<Seq<char>>::empty());
        proof {
            reveal(Seq::filter);
        }
        while k < words.len()
            invariant
                self.wf(),
                k <= words@.len(),
                string_views(r@) == self.known_seq(string_views(words@.subrange(0, k as int))),
            decreases words@.len() - k,
        {
            let w = chars_of(words[k].as_str());
            let ghost prefix = string_views(words@.subrange(0, k as int));
            let ghost next = string_views(words@.subrange(0, k + 1));
            proof {
                reveal(Seq::filter);
                assert(next.drop_last() =~= prefix);
                assert(next.last() == words@[k as int]@);
            }
            if self.corpus.count_of(&w) > 0 {
                r.push(words[k].clone());
                assert(string_views(r@) =~= self.known_seq(next));
            } else {
                assert(string_views(r@) =~= self.known_seq(next));
            }
            k = k + 1;
        }
        assert(words@.subrange(0, k as int) =~= words@);
        r
    }

    /// Every word one edit away from `word`, in lexicographic order.
    pub fn edits1(&self, word: &str) -> (r: Vec<String>)
        requires
            self.wf(),
        ensures
            strictly_sorted(string_views(r@)),
            string_views(r@).to_set() == edits1(word@, self.alphabet()),
    {
        let w = chars_of(word);
        let list = edit_list(&w, &self.alphabet);
        let set = sorted_set(&list);
        strings_of(&set)
    }

    /// Every word reached from `word` by two single edits, in lexicographic
    /// order.
    pub fn edits2(&self, word: &str) -> (r: Vec<String>)
        requires
            self.wf(),
        ensures
            strictly_sorted(string_views(r@)),
            string_views(r@).to_set() == edits2(word@, self.alphabet()),
    {
        let w = chars_of(word);
        let first = edit_list(&w, &self.alphabet);
        let all = self.second_edits(&first, false);
        assert(edits2(w@, self.alphabet()) =~= edits1_of_all(edits1(w@, self.alphabet()), self.alphabet()));
        strings_of(&all)
    }
}

} // verus!
