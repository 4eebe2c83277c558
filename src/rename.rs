use vstd::prelude::*;
use vstd::string::StringExecFns;

use crate::Error;
use crate::Config;
use crate::paths::{file_name, file_name_of, join, joined, parent, parent_of};
use crate::seq::{basename_of, infer_membership, member_prefix, path_basename, inferred_prefix};
use crate::seq::name_basename;
use crate::text::{first_index_of, lemma_first_from, lemma_first_index_extend, lemma_first_index_shift, occurs_at, views};

verus! {

/// A (source, destination) pair of texts.
pub type PathPair = (Seq<char>, Seq<char>);

/// The name that a file named `name` gets in the sequence `prefix`.
pub open spec fn sequenced_name(sep: Seq<char>, prefix: Seq<char>, name: Seq<char>) -> Seq<char> {
    prefix + sep + name
}

/// The file at `p` already belongs to the sequence `prefix`.
pub open spec fn already_named(sep: Seq<char>, prefix: Seq<char>, p: Seq<char>) -> bool {
    member_prefix(sep, p) == Some(prefix)
}

/// Where the file at `p` goes: into its own directory, under its sequenced name.
pub open spec fn destination(sep: Seq<char>, prefix: Seq<char>, p: Seq<char>) -> Option<Seq<char>> {
    match (file_name_of(p), parent_of(p)) {
        (Some(n), Some(d)) => Some(joined(d, sequenced_name(sep, prefix, n))),
        _ => None,
    }
}

/// The plan for the paths `ps`, in their order: files already in the sequence
/// are left out; the first path that cannot be renamed is the error.
pub open spec fn plan_of(sep: Seq<char>, prefix: Seq<char>, ps: Seq<Seq<char>>) -> Result<
    Seq<PathPair>,
    Seq<char>,
>
    decreases ps.len(),
{
    if ps.len() == 0 {
        Ok(Seq::empty())
    } else {
        match plan_of(sep, prefix, ps.drop_last()) {
            Err(p) => Err(p),
            Ok(acc) => {
                let p = ps.last();
                if file_name_of(p) is None {
                    Err(p)
                } else if already_named(sep, prefix, p) {
                    Ok(acc)
                } else {
                    match destination(sep, prefix, p) {
                        Some(d) => Ok(acc.push((p, d))),
                        None => Err(p),
                    }
                }
            },
        }
    }
}

/// The line that shows one rename.
pub open spec fn plan_line(e: PathPair) -> Seq<char> {
    seq!['R', 'e', 'n', 'a', 'm', 'e', ' '] + e.0 + seq![' ', 't', 'o', ' '] + e.1 + seq!['\r', '\n']
}

/// The text that shows the renames `pairs`, one line each, in order.
pub open spec fn rendered(pairs: Seq<PathPair>) -> Seq<char>
    decreases pairs.len(),
{
    if pairs.len() == 0 {
        Seq::empty()
    } else {
        rendered(pairs.drop_last()) + plan_line(pairs.last())
    }
}

/// An ordered list of renames, worked out before any is carried out.
#[derive(PartialEq, Eq, Debug)]
pub struct RenamePlan(pub Vec<(String, String)>);

impl View for RenamePlan {
    type V = Seq<PathPair>;

    open spec fn view(&self) -> Seq<PathPair> {
        self.0@.map_values(|e: (String, String)| (e.0@, e.1@))
    }
}

/// The path that the file at `path` is renamed to.
fn new_name(conf: &Config, path: &str, prefix: &str) -> (r: Result<String, Error>)
    ensures
        match r {
            Ok(d) => destination(conf.separator@, prefix@, path@) == Some(d@),
            Err(e) => destination(conf.separator@, prefix@, path@) is None && (e matches Error::UnusableFilename(
                p,
            ) && p@ == path@),
        },
{
    match (file_name(path), parent(path)) {
        (Some(name), Some(dir)) => {
            let mut renamed = prefix.to_owned();
            renamed.append(conf.separator.as_str());
            renamed.append(name.as_str());
            Ok(join(dir.as_str(), renamed.as_str()))
        },
        _ => Err(Error::UnusableFilename(path.to_owned())),
    }
}

proof fn lemma_plan_error_stays(sep: Seq<char>, prefix: Seq<char>, ps: Seq<Seq<char>>, k: int)
    requires
        0 <= k <= ps.len(),
        plan_of(sep, prefix, ps.take(k)) is Err,
    ensures
        plan_of(sep, prefix, ps) == plan_of(sep, prefix, ps.take(k)),
    decreases ps.len(),
{
    if k == ps.len() {
        assert(ps.take(k) =~= ps);
    } else {
        assert(ps.drop_last().take(k) =~= ps.take(k));
        lemma_plan_error_stays(sep, prefix, ps.drop_last(), k);
    }
}

impl RenamePlan {
    /// Plan the renames that put the files at `files` into the sequence
    /// `prefix`, in input order, leaving out those already in it.
    pub fn create(conf: &Config, prefix: &str, files: &Vec<String>) -> (r: Result<RenamePlan, Error>)
        ensures
            match r {
                Ok(plan) => plan_of(conf.separator@, prefix@, views(files@)) == Ok::<
                    Seq<PathPair>,
                    Seq<char>,
                >(plan@),
                Err(e) => plan_of(conf.separator@, prefix@, views(files@)) matches Err(p) && (
                e matches Error::UnusableFilename(q) && q@ == p),
            },
    {
        let ghost sep = conf.separator@;
        let ghost ps = views(files@);
        let wanted = prefix.to_owned();
        let mut acc: Vec<(String, String)> = Vec::new();
        let mut i: usize = 0;
        assert(ps.take(0) =~= Seq::<Seq<char>>::empty());
        assert(RenamePlan(acc)@ =~= Seq::<PathPair>::empty());
        while i < files.len()
            invariant
                sep == conf.separator@,
                ps == views(files@),
                wanted@ == prefix@,
                i <= ps.len(),
                plan_of(sep, prefix@, ps.take(i as int)) == Ok::<Seq<PathPair>, Seq<char>>(
                    RenamePlan(acc)@,
                ),
            decreases files@.len() - i,
        {
            let path = &files[i];
            assert(ps.take(i + 1).drop_last() =~= ps.take(i as int));
            assert(ps.take(i + 1).last() == path@);
            let name = match file_name(path.as_str()) {
                Some(n) => n,
                None => {
                    proof {
                        lemma_plan_error_stays(sep, prefix@, ps, i + 1);
                    }
                    return Err(Error::UnusableFilename(path.clone()));
                },
            };
            let base = name_basename(name.as_str());
            let skip = match infer_membership(conf, base.as_str()) {
                Some(h) => h == wanted,
                None => false,
            };
            if !skip {
                match new_name(conf, path.as_str(), prefix) {
                    Ok(dest) => {
                        let ghost before = RenamePlan(acc)@;
                        acc.push((path.clone(), dest));
                        assert(RenamePlan(acc)@ =~= before.push((path@, dest@)));
                    },
                    Err(e) => {
                        proof {
                            lemma_plan_error_stays(sep, prefix@, ps, i + 1);
                        }
                        return Err(e);
                    },
                }
            }
            i = i + 1;
        }
        assert(ps.take(i as int) =~= ps);
        Ok(RenamePlan(acc))
    }
}

impl RenamePlan {
    /// The plan as text: a "Rename SRC to DST" line for each rename, in order.
    pub fn render(&self) -> (r: String)
        ensures
            r@ == rendered(self@),
    {
        let head = "Rename ";
        let mid = " to ";
        let end = "\r\n";
        proof {
            reveal_strlit("Rename ");
            reveal_strlit(" to ");
            reveal_strlit("\r\n");
        }
        let mut out = String::new();
        let mut i: usize = 0;
        assert(self@.take(0) =~= Seq::<PathPair>::empty());
        while i < self.0.len()
            invariant
                i <= self@.len(),
                self@.len() == self.0@.len(),
                head@ == seq!['R', 'e', 'n', 'a', 'm', 'e', ' '],
                mid@ == seq![' ', 't', 'o', ' '],
                end@ == seq!['\r', '\n'],
                out@ == rendered(self@.take(i as int)),
            decreases self.0@.len() - i,
        {
            let pair = &self.0[i];
            out.append(head);
            out.append(pair.0.as_str());
            out.append(mid);
            out.append(pair.1.as_str());
            out.append(end);
            assert(self@.take(i + 1).drop_last() =~= self@.take(i as int));
            assert(self@[i as int] == (pair.0@, pair.1@));
            i = i + 1;
        }
        assert(self@.take(i as int) =~= self@);
        out
    }
}

/// A plan renames exactly the input files that are not yet in the sequence,
/// in input order, each to its destination.
pub proof fn lemma_plan_keeps_order(sep: Seq<char>, prefix: Seq<char>, ps: Seq<Seq<char>>)
    requires
        plan_of(sep, prefix, ps) is Ok,
    ensures
        plan_of(sep, prefix, ps)->Ok_0.map_values(|e: PathPair| e.0) == ps.filter(
            |p: Seq<char>| !already_named(sep, prefix, p),
        ),
        forall|k: int|
            0 <= k < plan_of(sep, prefix, ps)->Ok_0.len() ==> destination(
                sep,
                prefix,
                #[trigger] plan_of(sep, prefix, ps)->Ok_0[k].0,
            ) == Some(plan_of(sep, prefix, ps)->Ok_0[k].1),
    decreases ps.len(),
{
    let keep = |p: Seq<char>| !already_named(sep, prefix, p);
    if ps.len() > 0 {
        lemma_plan_keeps_order(sep, prefix, ps.drop_last());
        let prev = plan_of(sep, prefix, ps.drop_last())->Ok_0;
        let plan = plan_of(sep, prefix, ps)->Ok_0;
        reveal(Seq::filter);
        assert(ps.filter(keep) == if keep(ps.last()) {
            ps.drop_last().filter(keep).push(ps.last())
        } else {
            ps.drop_last().filter(keep)
        });
        if keep(ps.last()) {
            assert(plan.map_values(|e: PathPair| e.0) =~= prev.map_values(|e: PathPair| e.0).push(
                ps.last(),
            ));
        } else {
            assert(plan == prev);
        }
    } else {
        reveal(Seq::filter);
        assert(ps.filter(keep) =~= Seq::<Seq<char>>::empty());
        assert(plan_of(sep, prefix, ps)->Ok_0.map_values(|e: PathPair| e.0) =~= Seq::<
            Seq<char>,
        >::empty());
    }
}

/// A file that already belongs to the sequence gets no entry in the plan.
pub proof fn lemma_plan_skips_named(sep: Seq<char>, prefix: Seq<char>, ps: Seq<Seq<char>>)
    requires
        plan_of(sep, prefix, ps) is Ok,
    ensures
        forall|i: int, k: int|
            0 <= i < ps.len() && already_named(sep, prefix, ps[i]) && 0 <= k < plan_of(
                sep,
                prefix,
                ps,
            )->Ok_0.len() ==> #[trigger] plan_of(sep, prefix, ps)->Ok_0[k].0 != #[trigger] ps[i],
{
    lemma_plan_keeps_order(sep, prefix, ps);
    let keep = |p: Seq<char>| !already_named(sep, prefix, p);
    let plan = plan_of(sep, prefix, ps)->Ok_0;
    broadcast use vstd::seq_lib::group_filter_ensures;
    assert forall|i: int, k: int|
        0 <= i < ps.len() && already_named(sep, prefix, ps[i]) && 0 <= k
            < plan.len() implies #[trigger] plan[k].0 != #[trigger] ps[i] by {
        assert(plan.map_values(|e: PathPair| e.0)[k] == plan[k].0);
    }
}

/// `q` is where the file at `p` stands once the plan for the sequence
/// `prefix` has been carried out: a file already in the sequence stays where it
/// is; any other now carries its sequenced name.
pub open spec fn renamed_by(sep: Seq<char>, prefix: Seq<char>, p: Seq<char>, q: Seq<char>) -> bool {
    if already_named(sep, prefix, p) {
        q == p
    } else {
        file_name_of(p) matches Some(n) && file_name_of(q) == Some(sequenced_name(sep, prefix, n))
    }
}

proof fn lemma_sequenced_name_is_member(sep: Seq<char>, prefix: Seq<char>, n: Seq<char>)
    requires
        prefix.len() > 0,
        !prefix.contains('.'),
        !sep.contains('.'),
        first_index_of(prefix + sep, sep) == Some(prefix.len() as int),
        basename_of(n).len() > 0,
    ensures
        inferred_prefix(sep, basename_of(sequenced_name(sep, prefix, n))) == Some(prefix),
{
    let head = prefix + sep;
    let dot = seq!['.'];
    assert(sequenced_name(sep, prefix, n) =~= head + n);
    assert forall|j: int| 0 <= j < head.len() implies !occurs_at(head + n, dot, j) by {
        if occurs_at(head + n, dot, j) {
            assert((head + n).subrange(j, j + 1)[0] == (head + n)[j]);
            if j < prefix.len() {
                assert(prefix[j] == '.');
            } else {
                assert(sep[j - prefix.len()] == '.');
            }
        }
    }
    lemma_first_index_shift(head, n, dot);
    let b = basename_of(n);
    lemma_first_from(n, dot, 0);
    assert(basename_of(head + n) =~= head + b) by {
        match first_index_of(n, dot) {
            Some(g) => {
                assert((head + n).subrange(0, g + head.len()) =~= head + n.subrange(0, g));
            },
            None => {},
        }
    }
    lemma_first_index_extend(head, b, sep, prefix.len() as int);
    assert((head + b).subrange(0, prefix.len() as int) =~= prefix);
}

proof fn lemma_plan_empty_when_all_named(sep: Seq<char>, prefix: Seq<char>, qs: Seq<Seq<char>>)
    requires
        forall|i: int| 0 <= i < qs.len() ==> already_named(sep, prefix, #[trigger] qs[i]),
    ensures
        plan_of(sep, prefix, qs) == Ok::<Seq<PathPair>, Seq<char>>(Seq::empty()),
    decreases qs.len(),
{
    if qs.len() > 0 {
        assert(already_named(sep, prefix, qs[qs.len() - 1]));
        lemma_plan_empty_when_all_named(sep, prefix, qs.drop_last());
    }
}

/// Planning again, once a plan has been carried out, finds nothing left to
/// rename: the files that were renamed now carry the prefix. This holds where
/// the prefix is not empty, neither the prefix nor the separator holds a `.`,
/// the separator does not first occur within the prefix and the separator
/// together, and no file name starts with a `.`.
pub proof fn lemma_plan_idempotent(
    sep: Seq<char>,
    prefix: Seq<char>,
    ps: Seq<Seq<char>>,
    after: Seq<Seq<char>>,
)
    requires
        prefix.len() > 0,
        !prefix.contains('.'),
        !sep.contains('.'),
        first_index_of(prefix + sep, sep) == Some(prefix.len() as int),
        forall|i: int| 0 <= i < ps.len() ==> (#[trigger] path_basename(ps[i]) matches Some(b) && b.len() > 0),
        after.len() == ps.len(),
        forall|i: int| 0 <= i < ps.len() ==> renamed_by(sep, prefix, #[trigger] ps[i], after[i]),
    ensures
        plan_of(sep, prefix, after) == Ok::<Seq<PathPair>, Seq<char>>(Seq::empty()),
{
    assert forall|i: int| 0 <= i < after.len() implies already_named(sep, prefix, #[trigger] after[i]) by {
        assert(renamed_by(sep, prefix, ps[i], after[i]));
        if !already_named(sep, prefix, ps[i]) {
            assert(path_basename(ps[i]) is Some);
            let n = file_name_of(ps[i])->Some_0;
            lemma_sequenced_name_is_member(sep, prefix, n);
        }
    }
    lemma_plan_empty_when_all_named(sep, prefix, after);
}

/// The number of line ends in a text.
pub open spec fn line_end_count(s: Seq<char>) -> nat {
    s.filter(|c: char| c == '\n').len()
}

proof fn lemma_rendered_prefix(pairs: Seq<PathPair>, m: int)
    requires
        0 <= m <= pairs.len(),
    ensures
        rendered(pairs.take(m)).len() <= rendered(pairs).len(),
        rendered(pairs.take(m)) == rendered(pairs).subrange(0, rendered(pairs.take(m)).len() as int),
    decreases pairs.len(),
{
    if m == pairs.len() {
        assert(pairs.take(m) =~= pairs);
        assert(rendered(pairs) =~= rendered(pairs).subrange(0, rendered(pairs).len() as int));
    } else {
        assert(pairs.drop_last().take(m) =~= pairs.take(m));
        lemma_rendered_prefix(pairs.drop_last(), m);
        let r = rendered(pairs.drop_last());
        let l = rendered(pairs.take(m)).len() as int;
        assert(rendered(pairs).subrange(0, l) =~= r.subrange(0, l));
    }
}

proof fn lemma_no_line_end(s: Seq<char>)
    requires
        !s.contains('\n'),
    ensures
        s.filter(|c: char| c == '\n') =~= Seq::<char>::empty(),
    decreases s.len(),
{
    reveal(Seq::filter);
    if s.len() > 0 {
        assert(s.last() == s[s.len() - 1]);
        assert(!s.drop_last().contains('\n')) by {
            if s.drop_last().contains('\n') {
                let j = choose|j: int| 0 <= j < s.drop_last().len() && s.drop_last()[j] == '\n';
                assert(s[j] == '\n');
            }
        }
        lemma_no_line_end(s.drop_last());
    }
}

proof fn lemma_line_has_one_end(e: PathPair)
    requires
        !e.0.contains('\n'),
        !e.1.contains('\n'),
    ensures
        line_end_count(plan_line(e)) == 1,
        plan_line(e).last() == '\n',
{
    let nl = |c: char| c == '\n';
    let w1 = seq!['R', 'e', 'n', 'a', 'm', 'e', ' '];
    let w2 = seq![' ', 't', 'o', ' '];
    let w3 = seq!['\r', '\n'];
    let (a, b) = e;
    assert(plan_line(e) == w1 + a + w2 + b + w3);
    Seq::filter_distributes_over_add(w1, a, nl);
    Seq::filter_distributes_over_add(w1 + a, w2, nl);
    Seq::filter_distributes_over_add(w1 + a + w2, b, nl);
    Seq::filter_distributes_over_add(w1 + a + w2 + b, w3, nl);
    lemma_no_line_end(a);
    lemma_no_line_end(b);
    lemma_no_line_end(w1);
    lemma_no_line_end(w2);
    reveal_with_fuel(Seq::filter, 3);
    assert(w3.filter(nl) =~= seq!['\n']);
}

proof fn lemma_rendered_segment(pairs: Seq<PathPair>, k: int)
    requires
        0 <= k < pairs.len(),
    ensures
        rendered(pairs).subrange(
            rendered(pairs.take(k)).len() as int,
            rendered(pairs.take(k + 1)).len() as int,
        ) == plan_line(pairs[k]),
{
    lemma_rendered_prefix(pairs, k + 1);
    let t = pairs.take(k + 1);
    assert(t.drop_last() =~= pairs.take(k));
    assert(t.last() == pairs[k]);
    let lo = rendered(pairs.take(k)).len() as int;
    let hi = rendered(t).len() as int;
    assert(rendered(pairs).subrange(lo, hi) =~= rendered(t).subrange(lo, hi));
    assert(rendered(t).subrange(lo, hi) =~= plan_line(pairs[k]));
}

/// Showing a plan of N renames gives N lines, one per rename in plan order,
/// each reading "Rename SRC to DST", where no path holds a line end.
pub proof fn lemma_rendered_lines(pairs: Seq<PathPair>)
    requires
        forall|k: int|
            0 <= k < pairs.len() ==> !(#[trigger] pairs[k]).0.contains('\n') && !pairs[k].1.contains(
                '\n',
            ),
    ensures
        line_end_count(rendered(pairs)) == pairs.len(),
        forall|k: int|
            0 <= k < pairs.len() ==> line_end_count(#[trigger] plan_line(pairs[k])) == 1
                && plan_line(pairs[k]).last() == '\n',
        forall|k: int|
            0 <= k < pairs.len() ==> rendered(pairs).subrange(
                rendered(pairs.take(k)).len() as int,
                rendered(pairs.take(k + 1)).len() as int,
            ) == #[trigger] plan_line(pairs[k]),
    decreases pairs.len(),
{
    let nl = |c: char| c == '\n';
    assert forall|k: int| 0 <= k < pairs.len() implies line_end_count(#[trigger] plan_line(pairs[k])) == 1
        && plan_line(pairs[k]).last() == '\n' by {
        lemma_line_has_one_end(pairs[k]);
    }
    if pairs.len() > 0 {
        lemma_rendered_lines(pairs.drop_last());
        Seq::filter_distributes_over_add(rendered(pairs.drop_last()), plan_line(pairs.last()), nl);
    }
    assert forall|k: int| 0 <= k < pairs.len() implies rendered(pairs).subrange(
        rendered(pairs.take(k)).len() as int,
        rendered(pairs.take(k + 1)).len() as int,
    ) == #[trigger] plan_line(pairs[k]) by {
        lemma_rendered_segment(pairs, k);
    }
}

} // verus!
