use vstd::prelude::*;
use vstd::string::StrSliceExecFns;

verus! {

/// The text of each string, in order.
pub open spec fn views(v: Seq<String>) -> Seq<Seq<char>> {
    v.map_values(|s: String| s@)
}

/// Each text sorts strictly before every later one.
pub open spec fn strictly_sorted(v: Seq<Seq<char>>) -> bool {
    forall|i: int, j: int| 0 <= i < j < v.len() ==> lex_lt(v[i], v[j])
}

/// `pat` occurs in `s` starting at position `i`.
pub open spec fn occurs_at(s: Seq<char>, pat: Seq<char>, i: int) -> bool {
    0 <= i && i + pat.len() <= s.len() && s.subrange(i, i + pat.len()) == pat
}

/// The first position at or after `i` where `pat` occurs in `s`.
pub open spec fn first_from(s: Seq<char>, pat: Seq<char>, i: int) -> Option<int>
    decreases s.len() + 1 - i,
{
    if i < 0 || i + pat.len() > s.len() {
        None
    } else if occurs_at(s, pat, i) {
        Some(i)
    } else {
        first_from(s, pat, i + 1)
    }
}

/// The first position where `pat` occurs in `s`.
pub open spec fn first_index_of(s: Seq<char>, pat: Seq<char>) -> Option<int> {
    first_from(s, pat, 0)
}

pub proof fn lemma_first_from(s: Seq<char>, pat: Seq<char>, i: int)
    requires
        0 <= i,
    ensures
        match first_from(s, pat, i) {
            Some(k) => i <= k && occurs_at(s, pat, k) && forall|j: int|
                i <= j < k ==> !occurs_at(s, pat, j),
            None => forall|j: int| i <= j ==> !occurs_at(s, pat, j),
        },
    decreases s.len() + 1 - i,
{
    if i + pat.len() <= s.len() && !occurs_at(s, pat, i) {
        lemma_first_from(s, pat, i + 1);
    }
}

/// A position with an occurrence and none before it is the first one.
pub proof fn lemma_first_index_is(s: Seq<char>, pat: Seq<char>, k: int)
    requires
        occurs_at(s, pat, k),
        forall|j: int| 0 <= j < k ==> !occurs_at(s, pat, j),
    ensures
        first_index_of(s, pat) == Some(k),
{
    lemma_first_from(s, pat, 0);
}

/// The first occurrence in `x` is also the first one in any extension of `x`.
pub proof fn lemma_first_index_extend(x: Seq<char>, y: Seq<char>, pat: Seq<char>, k: int)
    requires
        first_index_of(x, pat) == Some(k),
    ensures
        first_index_of(x + y, pat) == Some(k),
{
    lemma_first_from(x, pat, 0);
    assert((x + y).subrange(k, k + pat.len()) =~= x.subrange(k, k + pat.len()));
    assert forall|j: int| 0 <= j < k implies !occurs_at(x + y, pat, j) by {
        assert(!occurs_at(x, pat, j));
        assert((x + y).subrange(j, j + pat.len()) =~= x.subrange(j, j + pat.len()));
    }
    lemma_first_index_is(x + y, pat, k);
}

/// Past a part of the text in which `pat` does not start, the first occurrence
/// is the first one in the rest, shifted.
pub proof fn lemma_first_index_shift(a: Seq<char>, c: Seq<char>, pat: Seq<char>)
    requires
        forall|j: int| 0 <= j < a.len() ==> !occurs_at(a + c, pat, j),
    ensures
        first_index_of(a + c, pat) == match first_index_of(c, pat) {
            Some(g) => Some(g + a.len()),
            None => None::<int>,
        },
{
    let s = a + c;
    assert forall|j: int| 0 <= j implies occurs_at(s, pat, j + a.len()) == occurs_at(c, pat, j) by {
        if j + a.len() + pat.len() <= s.len() {
            assert(s.subrange(j + a.len(), j + a.len() + pat.len()) =~= c.subrange(j, j + pat.len()));
        }
    }
    lemma_first_from(c, pat, 0);
    lemma_first_from(s, pat, 0);
    match first_index_of(c, pat) {
        Some(g) => {
            assert(occurs_at(s, pat, g + a.len()));
            assert forall|j: int| 0 <= j < g + a.len() implies !occurs_at(s, pat, j) by {
                if j >= a.len() {
                    assert(!occurs_at(c, pat, j - a.len()));
                }
            }
            lemma_first_index_is(s, pat, g + a.len());
        },
        None => {
            if first_index_of(s, pat) is Some {
                let k = first_index_of(s, pat)->Some_0;
                assert(occurs_at(c, pat, k - a.len()));
            }
        },
    }
}

/// Strict lexicographic order by code point, which is also the order of the
/// UTF-8 encodings.
pub open spec fn lex_lt(a: Seq<char>, b: Seq<char>) -> bool
    decreases a.len(),
{
    if b.len() == 0 {
        false
    } else if a.len() == 0 {
        true
    } else if a[0] != b[0] {
        a[0] < b[0]
    } else {
        lex_lt(a.drop_first(), b.drop_first())
    }
}

pub proof fn lemma_lex_irreflexive(a: Seq<char>)
    ensures
        !lex_lt(a, a),
    decreases a.len(),
{
    if a.len() > 0 {
        lemma_lex_irreflexive(a.drop_first());
    }
}

pub proof fn lemma_lex_transitive(a: Seq<char>, b: Seq<char>, c: Seq<char>)
    requires
        lex_lt(a, b),
        lex_lt(b, c),
    ensures
        lex_lt(a, c),
    decreases a.len(),
{
    if a.len() > 0 && b.len() > 0 && c.len() > 0 && a[0] == b[0] && b[0] == c[0] {
        lemma_lex_transitive(a.drop_first(), b.drop_first(), c.drop_first());
    }
}

pub proof fn lemma_lex_total(a: Seq<char>, b: Seq<char>)
    requires
        a != b,
    ensures
        lex_lt(a, b) || lex_lt(b, a),
    decreases a.len(),
{
    if a.len() > 0 && b.len() > 0 && a[0] == b[0] {
        if a.drop_first() == b.drop_first() {
            assert(a =~= seq![a[0]] + a.drop_first());
            assert(b =~= seq![b[0]] + b.drop_first());
        }
        lemma_lex_total(a.drop_first(), b.drop_first());
    } else if a.len() == 0 && b.len() == 0 {
        assert(a =~= b);
    }
}

proof fn lemma_lex_skip(a: Seq<char>, b: Seq<char>, i: int)
    requires
        0 <= i < a.len(),
        i < b.len(),
        a[i] == b[i],
    ensures
        lex_lt(a.skip(i), b.skip(i)) == lex_lt(a.skip(i + 1), b.skip(i + 1)),
{
    assert(a.skip(i).drop_first() =~= a.skip(i + 1));
    assert(b.skip(i).drop_first() =~= b.skip(i + 1));
}

/// Whether `a` sorts strictly before `b`.
pub fn precedes(a: &str, b: &str) -> (r: bool)
    ensures
        r == lex_lt(a@, b@),
{
    let la = a.unicode_len();
    let lb = b.unicode_len();
    let mut i: usize = 0;
    assert(a@.skip(0) =~= a@);
    assert(b@.skip(0) =~= b@);
    while i < la && i < lb
        invariant
            la == a@.len(),
            lb == b@.len(),
            0 <= i <= la,
            i <= lb,
            lex_lt(a@, b@) == lex_lt(a@.skip(i as int), b@.skip(i as int)),
        decreases la - i,
    {
        let ca = a.get_char(i);
        let cb = b.get_char(i);
        if ca != cb {
            return ca < cb;
        }
        proof {
            lemma_lex_skip(a@, b@, i as int);
        }
        i = i + 1;
    }
    i < lb
}

/// Position of the first occurrence of `pat` in `s`.
pub fn find_first(s: &str, pat: &str) -> (r: Option<usize>)
    ensures
        match r {
            Some(i) => first_index_of(s@, pat@) == Some(i as int),
            None => first_index_of(s@, pat@) is None,
        },
        r matches Some(i) ==> i + pat@.len() <= s@.len(),
{
    proof {
        lemma_first_from(s@, pat@, 0);
    }
    let ls = s.unicode_len();
    let lp = pat.unicode_len();
    if lp > ls {
        return None;
    }
    let mut i: usize = 0;
    while i <= ls - lp
        invariant
            ls == s@.len(),
            lp == pat@.len(),
            lp <= ls,
            i <= ls - lp + 1,
            first_index_of(s@, pat@) == first_from(s@, pat@, i as int),
        decreases ls - lp + 1 - i,
    {
        let mut j: usize = 0;
        let mut same = true;
        while same && j < lp
            invariant
                ls == s@.len(),
                lp == pat@.len(),
                i + lp <= ls,
                j <= lp,
                forall|k: int| 0 <= k < j ==> s@[i + k] == pat@[k],
                !same ==> j < lp && s@[i + j] != pat@[j as int],
            decreases lp - j + (if same { 1int } else { 0int }),
        {
            if s.get_char(i + j) != pat.get_char(j) {
                same = false;
            } else {
                j = j + 1;
            }
        }
        if same {
            assert(s@.subrange(i as int, i + lp) =~= pat@);
            return Some(i);
        }
        assert(!occurs_at(s@, pat@, i as int)) by {
            if occurs_at(s@, pat@, i as int) {
                assert(s@.subrange(i as int, i + lp)[j as int] == s@[i + j]);
            }
        }
        i = i + 1;
    }
    None
}

} // verus!
