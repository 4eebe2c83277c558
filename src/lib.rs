use vstd::prelude::*;

use crate::paths::{is_relative, is_relative_path, join, joined};
use crate::rename::{plan_of, RenamePlan};
use crate::seq::{head_selected, select_head, Head};
use crate::text::views;

pub mod paths;
pub mod rename;
pub mod seq;
pub mod text;

verus! {

/// Why a batch of files could not be given a sequence prefix.
#[derive(PartialEq, Eq, Debug)]
pub enum Error {
    /// The path has no usable final component.
    UnusableFilename(String),
    /// No input files were given and no prefix was forced.
    NoInputFiles,
    /// Input files already belong to more than one sequence; these are the
    /// distinct prefixes, in ascending order.
    MultipleOtherHeads(Vec<String>),
}

/// The settings of one run.
pub struct Config {
    /// Show the rename plan before it is carried out.
    pub show_plan: bool,
    /// Carry out the rename plan.
    pub execute_plan: bool,
    /// What stands between a prefix and the name a file had before.
    pub separator: String,
    /// A prefix to use instead of the one inferred from the inputs.
    pub force_prefix: Option<String>,
}

impl Default for Config {
    fn default() -> (r: Self)
        ensures
            r.show_plan,
            r.execute_plan,
            r.separator@ == seq!['_'],
            r.force_prefix is None,
    {
        let sep = "_";
        proof {
            reveal_strlit("_");
        }
        Config { show_plan: true, execute_plan: true, separator: sep.to_owned(), force_prefix: None }
    }
}

/// The path that an input line names: a relative one is taken from `base_dir`.
pub open spec fn resolved_input(base_dir: Seq<char>, line: Seq<char>) -> Seq<char> {
    if is_relative_path(line) {
        joined(base_dir, line)
    } else {
        line
    }
}

/// The input paths that the lines name, in order, relative ones taken from
/// `base_dir`.
pub fn resolve_paths(base_dir: &str, lines: &Vec<String>) -> (r: Vec<String>)
    ensures
        r@.len() == lines@.len(),
        forall|i: int| 0 <= i < lines@.len() ==> #[trigger] r@[i]@ == resolved_input(base_dir@, lines@[i]@),
{
    let mut out: Vec<String> = Vec::new();
    let mut i: usize = 0;
    while i < lines.len()
        invariant
            i <= lines@.len(),
            out@.len() == i,
            forall|j: int| 0 <= j < i ==> #[trigger] out@[j]@ == resolved_input(base_dir@, lines@[j]@),
        decreases lines@.len() - i,
    {
        let line = lines[i].as_str();
        if is_relative(line) {
            out.push(join(base_dir, line));
        } else {
            out.push(line.to_owned());
        }
        i = i + 1;
    }
    out
}

/// Choose the prefix for a batch and plan the renames that put the files at
/// `paths` into it. The error is that of choosing the prefix, or else that of
/// planning.
pub fn plan_renames(conf: &Config, paths: &Vec<String>) -> (r: Result<(Head, RenamePlan), Error>)
    ensures
        match r {
            Ok((h, plan)) => {
                &&& head_selected(*conf, views(paths@), Ok(h))
                &&& plan_of(conf.separator@, h.name@, views(paths@)) == Ok::<
                    Seq<(Seq<char>, Seq<char>)>,
                    Seq<char>,
                >(plan@)
            },
            Err(e) => head_selected(*conf, views(paths@), Err(e)) || exists|h: Head|
                head_selected(*conf, views(paths@), Ok(h)) && (plan_of(
                    conf.separator@,
                    #[trigger] h.name@,
                    views(paths@),
                ) matches Err(p) && (e matches Error::UnusableFilename(q) && q@ == p)),
        },
{
    let head = match select_head(conf, paths) {
        Ok(h) => h,
        Err(e) => return Err(e),
    };
    match RenamePlan::create(conf, head.name.as_str(), paths) {
        Ok(plan) => Ok((head, plan)),
        Err(e) => Err(e),
    }
}

} // verus!
