use vstd::prelude::*;
use vstd::string::StrSliceExecFns;

use crate::Error;
use crate::Config;
use crate::paths::{file_name, file_name_of};
use crate::text::{find_first, first_index_of, lex_lt, precedes, strictly_sorted, views};
use crate::text::{lemma_lex_irreflexive, lemma_lex_total, lemma_lex_transitive};

verus! {

/// The part of a file name before its first `.`, or the whole name.
pub open spec fn basename_of(name: Seq<char>) -> Seq<char> {
    match first_index_of(name, seq!['.']) {
        Some(i) => name.subrange(0, i),
        None => name,
    }
}

/// The basename of a path's final component, where it has one.
pub open spec fn path_basename(p: Seq<char>) -> Option<Seq<char>> {
    match file_name_of(p) {
        Some(n) => Some(basename_of(n)),
        None => None,
    }
}

/// The prefix that a basename already carries: the text before the first
/// separator, where the text on both sides of it is not empty.
pub open spec fn inferred_prefix(sep: Seq<char>, b: Seq<char>) -> Option<Seq<char>> {
    match first_index_of(b, sep) {
        Some(i) => if 0 < i && i + sep.len() < b.len() {
            Some(b.subrange(0, i))
        } else {
            None
        },
        None => None,
    }
}

/// The prefix of the sequence that the file at `p` already belongs to.
pub open spec fn member_prefix(sep: Seq<char>, p: Seq<char>) -> Option<Seq<char>> {
    match path_basename(p) {
        Some(b) => inferred_prefix(sep, b),
        None => None,
    }
}

/// Return the portion of the file name before the first dot, or the entire
/// file name if there is no dot.
pub fn basename(path: &str) -> (r: Result<String, Error>)
    ensures
        match r {
            Ok(b) => path_basename(path@) == Some(b@),
            Err(e) => path_basename(path@) is None && (e matches Error::UnusableFilename(p)
                && p@ == path@),
        },
{
    match file_name(path) {
        None => Err(Error::UnusableFilename(path.to_owned())),
        Some(name) => {
            Ok(name_basename(name.as_str()))
        },
    }
}

/// The portion of a file name before its first dot, or the whole name.
pub fn name_basename(name: &str) -> (r: String)
    ensures
        r@ == basename_of(name@),
{
    let dot = ".";
    proof {
        reveal_strlit(".");
        assert(dot@ =~= seq!['.']);
    }
    match find_first(name, dot) {
        Some(i) => name.substring_char(0, i).to_owned(),
        None => name.to_owned(),
    }
}

/// Infer whether a basename is already a member of a sequence, and if so,
/// of which prefix.
pub fn infer_membership(conf: &Config, basename: &str) -> (r: Option<String>)
    ensures
        match r {
            Some(h) => inferred_prefix(conf.separator@, basename@) == Some(h@),
            None => inferred_prefix(conf.separator@, basename@) is None,
        },
{
    let sep = conf.separator.as_str();
    match find_first(basename, sep) {
        Some(i) => {
            let lb = basename.unicode_len();
            let ls = sep.unicode_len();
            if 0 < i && ls < lb - i {
                Some(basename.substring_char(0, i).to_owned())
            } else {
                None
            }
        },
        None => None,
    }
}

/// Where the prefix of a batch came from.
#[derive(Debug)]
pub enum HeadSource {
    /// It was given in the settings.
    Forced,
    /// It is the least basename; this input path has it.
    LeastBasename(String),
    /// Input files already carry it; this input path is one of them.
    InferredMember(String),
}

/// The prefix chosen for a batch, and where it came from.
#[derive(Debug)]
pub struct Head {
    pub name: String,
    pub source: HeadSource,
}

/// Every one of the first `n` paths has a usable final component.
pub open spec fn usable_upto(ps: Seq<Seq<char>>, n: int) -> bool {
    forall|j: int| 0 <= j < n ==> #[trigger] file_name_of(ps[j]) is Some
}

/// `i` is the first path without a usable final component.
pub open spec fn first_unusable(ps: Seq<Seq<char>>, i: int) -> bool {
    0 <= i < ps.len() && file_name_of(ps[i]) is None && usable_upto(ps, i)
}

/// The prefixes that the first `n` paths already carry.
pub open spec fn prefixes_upto(sep: Seq<char>, ps: Seq<Seq<char>>, n: int) -> Set<Seq<char>> {
    Set::new(|x: Seq<char>| exists|j: int| 0 <= j < n && #[trigger] member_prefix(sep, ps[j]) == Some(x))
}

/// The basenames of those of the first `n` paths that carry no prefix.
pub open spec fn candidates_upto(sep: Seq<char>, ps: Seq<Seq<char>>, n: int) -> Set<Seq<char>> {
    Set::new(
        |b: Seq<char>|
            exists|j: int|
                0 <= j < n && #[trigger] path_basename(ps[j]) == Some(b) && member_prefix(sep, ps[j]) is None,
    )
}

/// The distinct prefixes that the input files already carry.
pub open spec fn inferred_prefixes(sep: Seq<char>, ps: Seq<Seq<char>>) -> Set<Seq<char>> {
    prefixes_upto(sep, ps, ps.len() as int)
}

/// The basenames of the input files that carry no prefix.
pub open spec fn fallback_candidates(sep: Seq<char>, ps: Seq<Seq<char>>) -> Set<Seq<char>> {
    candidates_upto(sep, ps, ps.len() as int)
}

/// `h` is in `s` and nothing in `s` sorts before it.
pub open spec fn is_least(s: Set<Seq<char>>, h: Seq<char>) -> bool {
    s.contains(h) && forall|c: Seq<char>| #[trigger] s.contains(c) ==> !lex_lt(c, h)
}

/// What head resolution gives for the paths `ps`: the first unusable path is
/// reported; else a single inferred prefix wins; two or more are a conflict;
/// with none, the least basename is taken; with no input at all, there is
/// nothing to choose from.
pub open spec fn head_outcome(sep: Seq<char>, ps: Seq<Seq<char>>, r: Result<Seq<char>, Error>) -> bool {
    match r {
        Err(Error::UnusableFilename(p)) => exists|i: int| first_unusable(ps, i) && ps[i] == p@,
        Err(Error::NoInputFiles) => ps.len() == 0,
        Err(Error::MultipleOtherHeads(v)) => {
            &&& usable_upto(ps, ps.len() as int)
            &&& v.len() >= 2
            &&& strictly_sorted(views(v@))
            &&& views(v@).to_set() == inferred_prefixes(sep, ps)
        },
        Ok(h) => {
            &&& usable_upto(ps, ps.len() as int)
            &&& inferred_prefixes(sep, ps) == set![h] || (inferred_prefixes(sep, ps) == Set::<Seq<char>>::empty()
                && is_least(fallback_candidates(sep, ps), h))
        },
    }
}

/// The source recorded for a resolved head names an input path that gives it.
pub open spec fn source_fits(sep: Seq<char>, ps: Seq<Seq<char>>, h: Head) -> bool {
    match h.source {
        HeadSource::Forced => false,
        HeadSource::InferredMember(p) => exists|j: int|
            0 <= j < ps.len() && ps[j] == p@ && member_prefix(sep, ps[j]) == Some(h.name@),
        HeadSource::LeastBasename(p) => exists|j: int|
            0 <= j < ps.len() && ps[j] == p@ && path_basename(ps[j]) == Some(h.name@)
                && member_prefix(sep, ps[j]) is None,
    }
}

/// The name of a resolved head, or the error.
pub open spec fn head_name(r: Result<Head, Error>) -> Result<Seq<char>, Error> {
    match r {
        Ok(h) => Ok(h.name@),
        Err(e) => Err(e),
    }
}

/// Add `x` to a strictly sorted list of texts, unless it is there already.
fn insert_sorted(v: &mut Vec<String>, x: String)
    requires
        strictly_sorted(views(old(v)@)),
    ensures
        strictly_sorted(views(final(v)@)),
        views(final(v)@).to_set() == views(old(v)@).to_set().insert(x@),
{
    let mut pos: usize = 0;
    while pos < v.len() && precedes(v[pos].as_str(), x.as_str())
        invariant
            pos <= v@.len(),
            v@ == old(v)@,
            forall|k: int| 0 <= k < pos ==> lex_lt(#[trigger] views(v@)[k], x@),
        decreases v@.len() - pos,
    {
        pos = pos + 1;
    }
    let ghost w = views(v@);
    if pos < v.len() && v[pos] == x {
        assert(w.to_set() =~= w.to_set().insert(x@)) by {
            assert(w[pos as int] == x@);
        }
        return;
    }
    v.insert(pos, x);
    let ghost nw = views(v@);
    assert(nw =~= w.insert(pos as int, x@));
    assert forall|i: int, j: int| 0 <= i < j < nw.len() implies lex_lt(nw[i], nw[j]) by {
        if pos < w.len() {
            assert(w[pos as int] != x@);
            assert(!lex_lt(w[pos as int], x@));
            lemma_lex_total(w[pos as int], x@);
        }
        if i < pos && j > pos {
            assert(lex_lt(w[i], x@));
            if j - 1 > pos {
                lemma_lex_transitive(x@, w[pos as int], w[j - 1]);
            }
            lemma_lex_transitive(w[i], x@, w[j - 1]);
        } else if i == pos && j > pos + 1 {
            lemma_lex_transitive(x@, w[pos as int], w[j - 1]);
        }
    }
    assert(nw.to_set() =~= w.to_set().insert(x@)) by {
        assert forall|y: Seq<char>| w.to_set().insert(x@).contains(y) implies nw.to_set().contains(y) by {
            if y == x@ {
                assert(nw[pos as int] == y);
            } else {
                let k = choose|k: int| 0 <= k < w.len() && w[k] == y;
                if k < pos {
                    assert(nw[k] == y);
                } else {
                    assert(nw[k + 1] == y);
                }
            }
        }
        assert forall|y: Seq<char>| nw.to_set().contains(y) implies w.to_set().insert(x@).contains(y) by {
            let k = choose|k: int| 0 <= k < nw.len() && nw[k] == y;
            if k < pos {
                assert(w[k] == y);
            } else if k > pos {
                assert(w[k - 1] == y);
            }
        }
    }
}

/// Choose the prefix for a batch of paths from the paths themselves, and say
/// where it came from. Where files already carry one prefix, that prefix wins;
/// where they carry several, that is a conflict; where none carries one, the
/// least basename is taken, from the first path that has it.
pub fn resolve_head(conf: &Config, paths: &Vec<String>) -> (r: Result<Head, Error>)
    ensures
        head_outcome(conf.separator@, views(paths@), head_name(r)),
        r matches Ok(h) ==> source_fits(conf.separator@, views(paths@), h),
{
    let ghost sep = conf.separator@;
    let ghost ps = views(paths@);
    let mut prefixes: Vec<String> = Vec::new();
    let mut member_src: Option<String> = None;
    let mut best: Option<(String, String)> = None;
    let mut i: usize = 0;
    let ghost mut src_idx: int = 0;
    let ghost mut best_idx: int = 0;
    assert(views(prefixes@).to_set() =~= prefixes_upto(sep, ps, 0));
    assert(candidates_upto(sep, ps, 0) =~= Set::<Seq<char>>::empty());
    while i < paths.len()
        invariant
            sep == conf.separator@,
            ps == views(paths@),
            i <= ps.len(),
            usable_upto(ps, i as int),
            strictly_sorted(views(prefixes@)),
            views(prefixes@).to_set() == prefixes_upto(sep, ps, i as int),
            (prefixes@.len() > 0) == (member_src is Some),
            prefixes@.len() > 0 ==> (member_src matches Some(p) && 0 <= src_idx < i && ps[src_idx]
                == p@ && member_prefix(sep, ps[src_idx]) is Some),
            match best {
                None => candidates_upto(sep, ps, i as int) == Set::<Seq<char>>::empty(),
                Some((b, p)) => {
                    &&& is_least(candidates_upto(sep, ps, i as int), b@)
                    &&& 0 <= best_idx < i
                    &&& ps[best_idx] == p@
                    &&& path_basename(ps[best_idx]) == Some(b@)
                    &&& member_prefix(sep, ps[best_idx]) is None
                },
            },
        decreases paths@.len() - i,
    {
        let path = &paths[i];
        assert(ps[i as int] == path@);
        let b = match basename(path.as_str()) {
            Ok(b) => b,
            Err(e) => {
                assert(first_unusable(ps, i as int));
                return Err(e);
            },
        };
        assert(usable_upto(ps, i + 1));
        match infer_membership(conf, b.as_str()) {
            Some(h) => {
                assert(member_prefix(sep, ps[i as int]) == Some(h@));
                assert(prefixes_upto(sep, ps, i + 1) =~= prefixes_upto(sep, ps, i as int).insert(h@));
                insert_sorted(&mut prefixes, h);
                assert(views(prefixes@).to_set().contains(h@));
                if member_src.is_none() {
                    member_src = Some(path.clone());
                    proof {
                        src_idx = i as int;
                    }
                }
                assert(candidates_upto(sep, ps, i + 1) =~= candidates_upto(sep, ps, i as int));
            },
            None => {
                assert(member_prefix(sep, ps[i as int]) is None);
                assert(prefixes_upto(sep, ps, i + 1) =~= prefixes_upto(sep, ps, i as int));
                let ghost old_c = candidates_upto(sep, ps, i as int);
                let ghost new_c = candidates_upto(sep, ps, i + 1);
                assert(new_c =~= old_c.insert(b@));
                let take = match &best {
                    None => true,
                    Some((cur, _)) => precedes(b.as_str(), cur.as_str()),
                };
                if take {
                    proof {
                        lemma_lex_irreflexive(b@);
                        assert forall|c: Seq<char>| #[trigger] new_c.contains(c) implies !lex_lt(c, b@) by {
                            if best is Some && c != b@ && lex_lt(c, b@) {
                                lemma_lex_transitive(c, b@, best->Some_0.0@);
                            }
                        }
                    }
                    best = Some((b, path.clone()));
                    proof {
                        best_idx = i as int;
                    }
                } else {
                    proof {
                        assert forall|c: Seq<char>| #[trigger] new_c.contains(c) implies !lex_lt(
                            c,
                            best->Some_0.0@,
                        ) by {}
                    }
                }
            },
        }
        i = i + 1;
    }
    assert(prefixes_upto(sep, ps, i as int) == inferred_prefixes(sep, ps));
    if prefixes.len() == 1 {
        assert(views(prefixes@).to_set() =~= set![prefixes@[0]@]) by {
            assert(views(prefixes@)[0] == prefixes@[0]@);
        }
        let name = prefixes[0].clone();
        proof {
            let x = member_prefix(sep, ps[src_idx])->Some_0;
            assert(prefixes_upto(sep, ps, i as int).contains(x));
        }
        match member_src {
            Some(p) => Ok(Head { name, source: HeadSource::InferredMember(p) }),
            // Not reached: a source is recorded with the first prefix.
            None => Err(Error::NoInputFiles),
        }
    } else if prefixes.len() > 1 {
        Err(Error::MultipleOtherHeads(prefixes))
    } else {
        assert(views(prefixes@).to_set() =~= Set::<Seq<char>>::empty());
        match best {
            Some((b, p)) => Ok(Head { name: b, source: HeadSource::LeastBasename(p) }),
            None => {
                proof {
                    if ps.len() > 0 {
                        assert(file_name_of(ps[0]) is Some);
                        if let Some(x) = member_prefix(sep, ps[0]) {
                            assert(prefixes_upto(sep, ps, i as int).contains(x));
                        } else {
                            let b0 = path_basename(ps[0])->Some_0;
                            assert(candidates_upto(sep, ps, i as int).contains(b0));
                        }
                    }
                }
                Err(Error::NoInputFiles)
            },
        }
    }
}

/// Return the prefix to use for a batch of paths, inferred from the paths
/// themselves (see `resolve_head`).
pub fn find_head(conf: &Config, paths: &Vec<String>) -> (r: Result<String, Error>)
    ensures
        head_outcome(
            conf.separator@,
            views(paths@),
            match r {
                Ok(h) => Ok(h@),
                Err(e) => Err(e),
            },
        ),
{
    match resolve_head(conf, paths) {
        Ok(h) => Ok(h.name),
        Err(e) => Err(e),
    }
}

/// What choosing the prefix for a batch gives: the forced prefix where the
/// settings hold one, else the outcome of head resolution.
pub open spec fn head_selected(conf: Config, ps: Seq<Seq<char>>, r: Result<Head, Error>) -> bool {
    match conf.force_prefix {
        Some(f) => r matches Ok(h) && h.name@ == f@ && h.source is Forced,
        None => {
            &&& head_outcome(conf.separator@, ps, head_name(r))
            &&& r matches Ok(h) ==> source_fits(conf.separator@, ps, h)
        },
    }
}

/// The prefix for a batch: the forced one where the settings give one, else
/// the one resolved from the paths.
pub fn select_head(conf: &Config, paths: &Vec<String>) -> (r: Result<Head, Error>)
    ensures
        head_selected(*conf, views(paths@), r),
{
    match &conf.force_prefix {
        Some(f) => Ok(Head { name: f.clone(), source: HeadSource::Forced }),
        None => resolve_head(conf, paths),
    }
}

} // verus!
