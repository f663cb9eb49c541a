//! The lexicographic order on words, and sorted, duplicate-free vectors of
//! words ordered by it.
use vstd::prelude::*;

use crate::text::views;

verus! {

/// Whether `a` comes before `b` when both agree on their first `i`
/// characters: at the first difference the smaller character (by code
/// point) decides, and a proper prefix comes first.
pub open spec fn less_from(a: Seq<char>, b: Seq<char>, i: int) -> bool
    decreases a.len() - i,
{
    if i >= a.len() {
        i < b.len()
    } else if i >= b.len() {
        false
    } else if a[i] != b[i] {
        a[i] < b[i]
    } else {
        less_from(a, b, i + 1)
    }
}

/// The lexicographic order on words, the order of `str`'s comparison.
pub open spec fn lex_less(a: Seq<char>, b: Seq<char>) -> bool {
    less_from(a, b, 0)
}

/// Strictly increasing: sorted, and so free of duplicates.
pub open spec fn strictly_sorted(s: Seq<Seq<char>>) -> bool {
    forall|i: int, j: int| 0 <= i < j < s.len() ==> lex_less(#[trigger] s[i], #[trigger] s[j])
}

/// The set of the views of a sequence of character vectors.
pub open spec fn view_set(v: Seq<Vec<char>>) -> Set<Seq<char>> {
    views(v).to_set()
}

pub proof fn lemma_less_from_irreflexive(a: Seq<char>, i: int)
    requires
        0 <= i,
    ensures
        !less_from(a, a, i),
    decreases a.len() - i,
{
    if i < a.len() {
        lemma_less_from_irreflexive(a, i + 1);
    }
}

pub proof fn lemma_less_from_transitive(a: Seq<char>, b: Seq<char>, c: Seq<char>, i: int)
    requires
        0 <= i,
        less_from(a, b, i),
        less_from(b, c, i),
    ensures
        less_from(a, c, i),
    decreases a.len() - i,
{
    if i < a.len() && a[i] == b[i] && b[i] == c[i] {
        lemma_less_from_transitive(a, b, c, i + 1);
    }
}

pub proof fn lemma_less_from_total(a: Seq<char>, b: Seq<char>, i: int)
    requires
        0 <= i <= a.len(),
        i <= b.len(),
        !less_from(a, b, i),
        !less_from(b, a, i),
    ensures
        a.subrange(i, a.len() as int) == b.subrange(i, b.len() as int),
    decreases a.len() - i,
{
    if i < a.len() {
        assert(i < b.len());
        if a[i] != b[i] {
            assert(a[i] < b[i] || b[i] < a[i]);
            assert(false);
        }
        lemma_less_from_total(a, b, i + 1);
        assert(a.subrange(i, a.len() as int) =~= seq![a[i]] + a.subrange(i + 1, a.len() as int));
        assert(b.subrange(i, b.len() as int) =~= seq![b[i]] + b.subrange(i + 1, b.len() as int));
    } else {
        assert(a.subrange(i, a.len() as int) =~= b.subrange(i, b.len() as int));
    }
}

/// No word comes before itself.
pub proof fn lemma_lex_irreflexive(a: Seq<char>)
    ensures
        !lex_less(a, a),
{
    lemma_less_from_irreflexive(a, 0);
}

/// The order is transitive.
pub proof fn lemma_lex_transitive(a: Seq<char>, b: Seq<char>, c: Seq<char>)
    requires
        lex_less(a, b),
        lex_less(b, c),
    ensures
        lex_less(a, c),
{
    lemma_less_from_transitive(a, b, c, 0);
}

/// Of two different words, one comes before the other.
pub proof fn lemma_lex_total(a: Seq<char>, b: Seq<char>)
    requires
        a != b,
    ensures
        lex_less(a, b) || lex_less(b, a),
{
    if !lex_less(a, b) && !lex_less(b, a) {
        lemma_less_from_total(a, b, 0);
        assert(a =~= a.subrange(0, a.len() as int));
        assert(b =~= b.subrange(0, b.len() as int));
    }
}

/// Inserting a word at the place where it belongs keeps a sequence
/// strictly sorted.
pub proof fn lemma_insert_keeps_sorted(s: Seq<Seq<char>>, p: int, w: Seq<char>)
    requires
        strictly_sorted(s),
        0 <= p <= s.len(),
        forall|i: int| 0 <= i < p ==> lex_less(#[trigger] s[i], w),
        forall|i: int| p <= i < s.len() ==> lex_less(w, #[trigger] s[i]),
    ensures
        strictly_sorted(s.insert(p, w)),
{
    let t = s.insert(p, w);
    assert forall|i: int, j: int| 0 <= i < j < t.len() implies lex_less(
        #[trigger] t[i],
        #[trigger] t[j],
    ) by {
        if j < p {
            assert(s[i] == t[i] && s[j] == t[j]);
        } else if j == p {
            assert(s[i] == t[i]);
        } else if i == p {
            assert(s[j - 1] == t[j]);
        } else if i < p {
            assert(s[i] == t[i] && s[j - 1] == t[j]);
        } else {
            assert(s[i - 1] == t[i] && s[j - 1] == t[j]);
        }
    }
}

/// Whether `a` comes before `b` in the lexicographic order.
pub fn lex_lt(a: &Vec<char>, b: &Vec<char>) -> (r: bool)
    ensures
        r == lex_less(a@, b@),
{
    let mut i: usize = 0;
    while i < a.len() && i < b.len() && a[i] == b[i]
        invariant
            i <= a.len(),
            i <= b.len(),
            lex_less(a@, b@) == less_from(a@, b@, i as int),
        decreases a.len() - i,
    {
        i = i + 1;
    }
    if i >= a.len() {
        i < b.len()
    } else if i >= b.len() {
        false
    } else {
        a[i] < b[i]
    }
}

/// Where `w` stands in the strictly sorted `v`: `(true, p)` where `v[p]`
/// is `w`, else `(false, p)` where inserting `w` at `p` keeps `v` sorted.
pub fn locate(v: &Vec<Vec<char>>, w: &Vec<char>) -> (r: (bool, usize))
    requires
        strictly_sorted(views(v@)),
    ensures
        r.1 <= v@.len(),
        r.0 ==> r.1 < v@.len() && v@[r.1 as int]@ == w@,
        !r.0 ==> forall|i: int| 0 <= i < r.1 ==> lex_less(#[trigger] v@[i]@, w@),
        !r.0 ==> forall|i: int| r.1 <= i < v@.len() ==> lex_less(w@, #[trigger] v@[i]@),
{
    let mut lo: usize = 0;
    let mut hi: usize = v.len();
    while lo < hi
        invariant
            lo <= hi <= v@.len(),
            strictly_sorted(views(v@)),
            forall|i: int| 0 <= i < lo ==> lex_less(#[trigger] v@[i]@, w@),
            forall|i: int| hi <= i < v@.len() ==> lex_less(w@, #[trigger] v@[i]@),
        decreases hi - lo,
    {
        let mid = lo + (hi - lo) / 2;
        assert(views(v@)[mid as int] == v@[mid as int]@);
        if lex_lt(&v[mid], w) {
            assert forall|i: int| 0 <= i < mid + 1 implies lex_less(#[trigger] v@[i]@, w@) by {
                if i < mid {
                    assert(views(v@)[i] == v@[i]@);
                    lemma_lex_transitive(v@[i]@, v@[mid as int]@, w@);
                }
            }
            lo = mid + 1;
        } else if lex_lt(w, &v[mid]) {
            assert forall|i: int| mid <= i < v@.len() implies lex_less(w@, #[trigger] v@[i]@) by {
                if i > mid {
                    assert(views(v@)[i] == v@[i]@);
                    lemma_lex_transitive(w@, v@[mid as int]@, v@[i]@);
                }
            }
            hi = mid;
        } else {
            proof {
                if v@[mid as int]@ != w@ {
                    lemma_lex_total(v@[mid as int]@, w@);
                }
            }
            return (true, mid);
        }
    }
    (false, lo)
}

/// Adds `w` to the strictly sorted `v`, unless it is there already.
pub fn insert_sorted(v: &mut Vec<Vec<char>>, w: Vec<char>)
    requires
        strictly_sorted(views(old(v)@)),
    ensures
        strictly_sorted(views(final(v)@)),
        view_set(final(v)@) == view_set(old(v)@).insert(w@),
{
    let (found, p) = locate(v, &w);
    let ghost before = views(v@);
    if found {
        assert(before[p as int] == w@);
        assert(view_set(v@) =~= view_set(v@).insert(w@));
    } else {
        let ghost ww = w@;
        v.insert(p, w);
        assert(views(v@) =~= before.insert(p as int, ww));
        proof {
            lemma_insert_keeps_sorted(before, p as int, ww);
        }
        assert(view_set(v@) =~= view_set(old(v)@).insert(ww)) by {
            assert forall|x: Seq<char>| view_set(v@).contains(x) implies view_set(old(v)@).insert(
                ww,
            ).contains(x) by {
                let k = choose|k: int| 0 <= k < views(v@).len() && views(v@)[k] == x;
                if k < p {
                    assert(before[k] == x);
                } else if k > p {
                    assert(before[k - 1] == x);
                }
            }
            assert forall|x: Seq<char>| view_set(old(v)@).insert(ww).contains(x) implies view_set(
                v@,
            ).contains(x) by {
                if x == ww {
                    assert(views(v@)[p as int] == x);
                } else {
                    let k = choose|k: int| 0 <= k < before.len() && before[k] == x;
                    if k < p {
                        assert(views(v@)[k] == x);
                    } else {
                        assert(views(v@)[k + 1] == x);
                    }
                }
            }
        }
    }
}

/// Pushing a vector adds its view to the set of views.
pub proof fn lemma_view_set_push(v: Seq<Vec<char>>, x: Vec<char>)
    ensures
        view_set(v.push(x)) == view_set(v).insert(x@),
{
    assert(views(v.push(x)) =~= views(v).push(x@));
    views(v).lemma_push_to_set_commute(x@);
}

/// The empty sequence has no views; a nonempty one has its first.
pub proof fn lemma_view_set_empty(v: Seq<Vec<char>>)
    ensures
        v.len() == 0 <==> view_set(v) == Set::<Seq<char>>::empty(),
{
    if v.len() == 0 {
        assert(view_set(v) =~= Set::<Seq<char>>::empty());
    } else {
        assert(view_set(v).contains(views(v)[0]));
    }
}

/// The distinct views of `v`, strictly sorted.
pub fn sorted_set(v: &Vec<Vec<char>>) -> (r: Vec<Vec<char>>)
    ensures
        strictly_sorted(views(r@)),
        view_set(r@) == view_set(v@),
{
    let mut r: Vec<Vec<char>> = Vec::new();
    let mut i: usize = 0;
    assert(view_set(r@) =~= view_set(v@.subrange(0, 0)));
    while i < v.len()
        invariant
            i <= v.len(),
            strictly_sorted(views(r@)),
            view_set(r@) == view_set(v@.subrange(0, i as int)),
        decreases v.len() - i,
    {
        insert_sorted(&mut r, v[i].clone());
        proof {
            assert(v@.subrange(0, i + 1) =~= v@.subrange(0, i as int).push(v@[i as int]));
            lemma_view_set_push(v@.subrange(0, i as int), v@[i as int]);
        }
        i = i + 1;
    }
    assert(v@.subrange(0, i as int) =~= v@);
    r
}

} // verus!
