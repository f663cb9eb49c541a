//! Characters, lines and tokens: the text handling that feeds the model.
use vstd::prelude::*;

verus! {

/// Whether `c` is a letter, in the sense of Unicode's `Alphabetic` property.
pub uninterp spec fn alphabetic(c: char) -> bool;

/// Whether `c` has Unicode's `White_Space` property.
pub uninterp spec fn white_space(c: char) -> bool;

/// The lowercase mapping of a string, character by character as Unicode
/// defines it (a character may map to several).
pub uninterp spec fn lower_of(s: Seq<char>) -> Seq<char>;

/// Relies on `char::is_alphabetic`: true exactly for the characters with
/// the `Alphabetic` property, a fact of the character alone.
#[verifier::external_body]
fn is_alphabetic(c: char) -> (r: bool)
    ensures
        r == alphabetic(c),
{
    c.is_alphabetic()
}

/// Relies on `char::is_whitespace`: true exactly for the characters with
/// the `White_Space` property, a fact of the character alone.
#[verifier::external_body]
fn is_whitespace(c: char) -> (r: bool)
    ensures
        r == white_space(c),
{
    c.is_whitespace()
}

/// Relies on `str::to_lowercase`: the result depends on the characters of
/// `s` alone.
#[verifier::external_body]
fn lowercase(s: &str) -> (r: String)
    ensures
        r@ == lower_of(s@),
{
    s.to_lowercase()
}

/// Relies on `String::push`: appends one character at the end.
#[verifier::external_body]
fn push_char(s: &mut String, c: char)
    ensures
        final(s)@ == old(s)@.push(c),
{
    s.push(c)
}

/// The characters of a string, in order.
pub fn chars_of(s: &str) -> (r: Vec<char>)
    ensures
        r@ == s@,
{
    let mut r: Vec<char> = Vec::new();
    for c in it: s.chars()
        invariant
            r@ == it.seq().subrange(0, it.index() as int),
            it.seq() == s@,
    {
        r.push(c);
    }
    r
}

/// The string made of the characters of `v`, in order.
pub fn string_of(v: &Vec<char>) -> (r: String)
    ensures
        r@ == v@,
{
    let mut r = String::new();
    let mut i: usize = 0;
    while i < v.len()
        invariant
            i <= v.len(),
            r@ == v@.subrange(0, i as int),
        decreases v.len() - i,
    {
        push_char(&mut r, v[i]);
        i = i + 1;
        assert(r@ =~= v@.subrange(0, i as int));
    }
    assert(r@ =~= v@);
    r
}

/// The symbols that survive line cleaning: letters, white space, hyphens
/// and apostrophes.
pub open spec fn valid_symbol(c: char) -> bool {
    c == '-' || c == '\'' || alphabetic(c) || white_space(c)
}

/// A line with every symbol other than the valid ones removed, the rest
/// kept in order.
pub open spec fn cleaned(s: Seq<char>) -> Seq<char> {
    s.filter(|c: char| valid_symbol(c))
}

/// `s` without its leading white space.
pub open spec fn trim_start(s: Seq<char>) -> Seq<char>
    decreases s.len(),
{
    if s.len() > 0 && white_space(s[0]) {
        trim_start(s.drop_first())
    } else {
        s
    }
}

/// `s` without its trailing white space.
pub open spec fn trim_end(s: Seq<char>) -> Seq<char>
    decreases s.len(),
{
    if s.len() > 0 && white_space(s.last()) {
        trim_end(s.drop_last())
    } else {
        s
    }
}

/// `s` without its leading and trailing white space.
pub open spec fn trimmed(s: Seq<char>) -> Seq<char> {
    trim_end(trim_start(s))
}

/// The white-space delimited tokens of `s`, in order: the maximal runs of
/// characters that are not white space.
pub open spec fn words_of(s: Seq<char>) -> Seq<Seq<char>>
    decreases s.len(),
{
    if s.len() == 0 {
        Seq::empty()
    } else {
        let prev = words_of(s.drop_last());
        let c = s.last();
        if white_space(c) {
            prev
        } else if s.len() > 1 && !white_space(s[s.len() - 2]) {
            prev.drop_last().push(prev.last().push(c))
        } else {
            prev.push(seq![c])
        }
    }
}

/// The pieces of `s` between line feeds, in order; `n` line feeds give
/// `n + 1` pieces.
pub open spec fn lines_of(s: Seq<char>) -> Seq<Seq<char>>
    decreases s.len(),
{
    if s.len() == 0 {
        seq![Seq::empty()]
    } else {
        let prev = lines_of(s.drop_last());
        if s.last() == '\n' {
            prev.push(Seq::empty())
        } else {
            prev.drop_last().push(prev.last().push(s.last()))
        }
    }
}

/// The tokens of a sequence of lines, line after line, each line cleaned
/// first.
pub open spec fn tokens_of_lines(ls: Seq<Seq<char>>) -> Seq<Seq<char>>
    decreases ls.len(),
{
    if ls.len() == 0 {
        Seq::empty()
    } else {
        tokens_of_lines(ls.drop_last()) + words_of(cleaned(ls.last()))
    }
}

/// The tokens of a corpus: those of each of its cleaned lines, in order.
pub open spec fn corpus_tokens(text: Seq<char>) -> Seq<Seq<char>> {
    tokens_of_lines(lines_of(text))
}

/// The form under which a word is counted: trimmed, then lowercased.
pub open spec fn normalized(s: Seq<char>) -> Seq<char> {
    lower_of(trimmed(s))
}

/// The views of a sequence of strings.
pub open spec fn string_views(v: Seq<String>) -> Seq<Seq<char>> {
    v.map_values(|x: String| x@)
}

/// The summed lengths of a sequence of strings.
pub open spec fn total_len(ls: Seq<Seq<char>>) -> nat
    decreases ls.len(),
{
    if ls.len() == 0 {
        0
    } else {
        ls[0].len() + total_len(ls.drop_first())
    }
}

/// The views of a sequence of character vectors.
pub open spec fn views(v: Seq<Vec<char>>) -> Seq<Seq<char>> {
    v.map_values(|x: Vec<char>| x@)
}

pub proof fn lemma_total_len_push(ls: Seq<Seq<char>>, x: Seq<char>)
    ensures
        total_len(ls.push(x)) == total_len(ls) + x.len(),
    decreases ls.len(),
{
    if ls.len() > 0 {
        assert(ls.push(x).drop_first() =~= ls.drop_first().push(x));
        lemma_total_len_push(ls.drop_first(), x);
        assert(ls.push(x)[0] == ls[0]);
    } else {
        assert(ls.push(x).drop_first() =~= Seq::<Seq<char>>::empty());
        assert(total_len(ls.push(x).drop_first()) == 0);
        assert(ls.push(x)[0] == x);
    }
}

/// Whether `c` is kept when a line is cleaned.
fn is_valid_symbol(c: char) -> (r: bool)
    ensures
        r == valid_symbol(c),
{
    c == '-' || c == '\'' || is_alphabetic(c) || is_whitespace(c)
}

/// The characters of `s` that are valid symbols, in order.
pub fn clean_chars(s: &Vec<char>) -> (r: Vec<char>)
    ensures
        r@ == cleaned(s@),
        r@.len() <= s@.len(),
{
    let mut r: Vec<char> = Vec::new();
    let mut i: usize = 0;
    while i < s.len()
        invariant
            i <= s.len(),
            r@ == cleaned(s@.subrange(0, i as int)),
        decreases s.len() - i,
    {
        let c = s[i];
        proof {
            reveal(Seq::filter);
            assert(s@.subrange(0, i + 1).drop_last() =~= s@.subrange(0, i as int));
        }
        if is_valid_symbol(c) {
            r.push(c);
        }
        i = i + 1;
    }
    proof {
        assert(s@.subrange(0, i as int) =~= s@);
        s@.lemma_filter_len(|c: char| valid_symbol(c));
    }
    r
}

/// Removes from a line every character that is not a letter, white space,
/// a hyphen or an apostrophe.
pub fn clean_line(input: &str) -> (r: String)
    ensures
        r@ == cleaned(input@),
{
    let chars = chars_of(input);
    let kept = clean_chars(&chars);
    string_of(&kept)
}

/// `s` without its leading and trailing white space.
pub fn trim_chars(s: &Vec<char>) -> (r: Vec<char>)
    ensures
        r@ == trimmed(s@),
{
    let n = s.len();
    let mut lo: usize = 0;
    assert(s@.subrange(0, n as int) =~= s@);
    while lo < n && is_whitespace(s[lo])
        invariant
            lo <= n == s.len(),
            trim_start(s@) == trim_start(s@.subrange(lo as int, n as int)),
        decreases n - lo,
    {
        assert(s@.subrange(lo as int, n as int).drop_first() =~= s@.subrange(lo + 1, n as int));
        lo = lo + 1;
    }
    let ghost front = s@.subrange(lo as int, n as int);
    assert(trim_start(front) == front);
    let mut hi: usize = n;
    while hi > lo && is_whitespace(s[hi - 1])
        invariant
            lo <= hi <= n == s.len(),
            front == s@.subrange(lo as int, n as int),
            trim_end(front) == trim_end(s@.subrange(lo as int, hi as int)),
        decreases hi - lo,
    {
        assert(s@.subrange(lo as int, hi as int).drop_last() =~= s@.subrange(lo as int, hi - 1));
        hi = hi - 1;
    }
    let mut r: Vec<char> = Vec::new();
    let mut i: usize = lo;
    while i < hi
        invariant
            lo <= i <= hi <= n == s.len(),
            r@ == s@.subrange(lo as int, i as int),
        decreases hi - i,
    {
        r.push(s[i]);
        i = i + 1;
        assert(r@ =~= s@.subrange(lo as int, i as int));
    }
    r
}

/// The white-space delimited tokens of `s`.
pub fn to_words(s: &Vec<char>) -> (r: Vec<Vec<char>>)
    ensures
        views(r@) == words_of(s@),
        r@.len() <= s@.len(),
{
    let mut out: Vec<Vec<char>> = Vec::new();
    let mut cur: Vec<char> = Vec::new();
    let mut i: usize = 0;
    while i < s.len()
        invariant
            i <= s.len(),
            out@.len() + (if cur@.len() > 0 { 1int } else { 0 }) <= i,
            cur@.len() > 0 <==> (i > 0 && !white_space(s@[i - 1])),
            words_of(s@.subrange(0, i as int)) == if cur@.len() > 0 {
                views(out@).push(cur@)
            } else {
                views(out@)
            },
        decreases s.len() - i,
    {
        let c = s[i];
        let ghost prev = words_of(s@.subrange(0, i as int));
        assert(s@.subrange(0, i + 1).drop_last() =~= s@.subrange(0, i as int));
        if is_whitespace(c) {
            if cur.len() > 0 {
                let w = cur;
                cur = Vec::new();
                out.push(w);
                assert(views(out@) =~= prev);
            }
        } else {
            cur.push(c);
            if cur.len() > 1 {
                assert(views(out@).push(cur@) =~= prev.drop_last().push(prev.last().push(c)));
            } else {
                assert(cur@ =~= seq![c]);
                assert(views(out@).push(cur@) =~= prev.push(seq![c]));
            }
        }
        i = i + 1;
    }
    assert(s@.subrange(0, i as int) =~= s@);
    if cur.len() > 0 {
        out.push(cur);
    }
    assert(views(out@) =~= words_of(s@));
    out
}

/// The pieces of `s` between line feeds, whose lengths add up to at most
/// that of `s`.
pub fn split_lines(s: &Vec<char>) -> (r: Vec<Vec<char>>)
    ensures
        views(r@) == lines_of(s@),
        total_len(views(r@)) <= s@.len(),
{
    let mut out: Vec<Vec<char>> = Vec::new();
    let mut cur: Vec<char> = Vec::new();
    let mut i: usize = 0;
    while i < s.len()
        invariant
            i <= s.len(),
            total_len(views(out@)) + cur@.len() <= i,
            lines_of(s@.subrange(0, i as int)) == views(out@).push(cur@),
        decreases s.len() - i,
    {
        let c = s[i];
        let ghost prev = lines_of(s@.subrange(0, i as int));
        assert(s@.subrange(0, i + 1).drop_last() =~= s@.subrange(0, i as int));
        if c == '\n' {
            let line = cur;
            cur = Vec::new();
            proof {
                lemma_total_len_push(views(out@), line@);
            }
            out.push(line);
            assert(views(out@) =~= prev);
        } else {
            cur.push(c);
            assert(views(out@).push(cur@) =~= prev.drop_last().push(prev.last().push(c)));
        }
        i = i + 1;
    }
    assert(s@.subrange(0, i as int) =~= s@);
    proof {
        lemma_total_len_push(views(out@), cur@);
    }
    out.push(cur);
    assert(views(out@) =~= lines_of(s@));
    out
}

/// The form of `s` under which it is counted.
pub fn normalize(s: &Vec<char>) -> (r: Vec<char>)
    ensures
        r@ == normalized(s@),
{
    let t = trim_chars(s);
    let lower = lowercase(string_of(&t).as_str());
    chars_of(lower.as_str())
}

/// The strings made of each vector of characters, in order.
pub fn strings_of(v: &Vec<Vec<char>>) -> (r: Vec<String>)
    ensures
        string_views(r@) == views(v@),
{
    let mut r: Vec<String> = Vec::new();
    let mut i: usize = 0;
    while i < v.len()
        invariant
            i <= v.len(),
            r@.len() == i,
            forall|k: int| 0 <= k < i ==> (#[trigger] r@[k])@ == v@[k]@,
        decreases v.len() - i,
    {
        r.push(string_of(&v[i]));
        i = i + 1;
    }
    assert(string_views(r@) =~= views(v@));
    r
}

} // verus!
