//! Files and folders that are dropped on the application, and the progress of adding them.

use crate::naming::join_logical;
use vstd::prelude::*;

verus! {

/// What was found on the disk at a path.
pub enum DiskNode {
    File { path: String, name: Option<String> },
    Folder { name: Option<String>, children: Vec<DiskNode> },
    /// Neither a file nor a folder.
    Other,
}

/// The name, or the other one if there is none.
pub open spec fn name_or(name: Option<String>, other: Seq<char>) -> Seq<char> {
    match name {
        Some(n) => n@,
        None => other,
    }
}

/// The files in `n`, each with its logical path when `n` is put into `dest`.
pub open spec fn pairs(n: DiskNode, dest: Seq<char>) -> Seq<(Seq<char>, Seq<char>)>
    decreases n, 0nat,
{
    match n {
        DiskNode::File { path, name } => seq![
            (path@, crate::naming::placed_in(dest, name_or(name, "arquivo"@))),
        ],
        DiskNode::Folder { name, children } => pairs_in(
            children@,
            crate::naming::placed_in(dest, name_or(name, "pasta"@)),
        ),
        DiskNode::Other => Seq::empty(),
    }
}

/// The files in all of `ns`.
pub open spec fn pairs_in(ns: Seq<DiskNode>, dest: Seq<char>) -> Seq<(Seq<char>, Seq<char>)>
    decreases ns, ns.len(),
{
    if ns.len() == 0 {
        Seq::empty()
    } else {
        pairs_in(ns.drop_last(), dest) + pairs(ns.last(), dest)
    }
}

/// The views of the pairs.
pub open spec fn pair_views(out: Seq<(String, String)>) -> Seq<(Seq<char>, Seq<char>)> {
    Seq::new(out.len(), |i: int| (out[i].0@, out[i].1@))
}

/// Collects the files in `src`, each with its logical path inside `dest_dir`. Folders keep
/// their structure.
pub fn collect_pairs(src: &DiskNode, dest_dir: &String, out: &mut Vec<(String, String)>)
    ensures
        pair_views(final(out)@) == pair_views(old(out)@) + pairs(*src, dest_dir@),
    decreases *src,
{
    let ghost before = pair_views(out@);
    match src {
        DiskNode::File { path, name } => {
            let n = match name {
                Some(n) => n.clone(),
                None => "arquivo".to_owned(),
            };
            out.push((path.clone(), join_logical(dest_dir, n.as_str())));
            assert(pair_views(out@) =~= before + pairs(*src, dest_dir@));
        },
        DiskNode::Folder { name, children } => {
            let n = match name {
                Some(n) => n.clone(),
                None => "pasta".to_owned(),
            };
            let sub = join_logical(dest_dir, n.as_str());
            let mut i: usize = 0;
            assert(children@.take(0) =~= Seq::empty());
            assert(before + pairs_in(children@.take(0), sub@) =~= before);
            while i < children.len()
                invariant
                    i <= children@.len(),
                    src matches DiskNode::Folder { name: _, children: c } && c == *children,
                    pair_views(out@) == before + pairs_in(children@.take(i as int), sub@),
                decreases children@.len() - i,
            {
                let ghost so_far = pair_views(out@);
                proof {
                    assert(decreases_to!(*src => children@[i as int]));
                }
                collect_pairs(&children[i], &sub, out);
                proof {
                    assert(children@.take(i + 1).drop_last() =~= children@.take(i as int));
                    assert(pair_views(out@) =~= before + pairs_in(children@.take(i + 1), sub@));
                }
                i = i + 1;
            }
            assert(children@.take(i as int) =~= children@);
        },
        DiskNode::Other => {
            assert(before + pairs(*src, dest_dir@) =~= before);
        },
    }
}

/// The files in all of `srcs`, each with its logical path inside `dest_dir`.
pub fn collect_all(srcs: &Vec<DiskNode>, dest_dir: &String) -> (r: Vec<(String, String)>)
    ensures
        pair_views(r@) == pairs_in(srcs@, dest_dir@),
{
    let mut out: Vec<(String, String)> = Vec::new();
    let mut i: usize = 0;
    assert(srcs@.take(0) =~= Seq::empty());
    assert(pair_views(out@) =~= Seq::empty());
    while i < srcs.len()
        invariant
            i <= srcs@.len(),
            pair_views(out@) == pairs_in(srcs@.take(i as int), dest_dir@),
        decreases srcs@.len() - i,
    {
        collect_pairs(&srcs[i], dest_dir, &mut out);
        assert(srcs@.take(i + 1).drop_last() =~= srcs@.take(i as int));
        i = i + 1;
    }
    assert(srcs@.take(i as int) =~= srcs@);
    out
}

/// How much has to be added before progress is told again.
pub const PROGRESS_STEP: u64 = 4_194_304;

/// The progress of adding a file.
pub struct Progress {
    total: u64,
    told: u64,
}

impl View for Progress {
    type V = (u64, u64);

    closed spec fn view(&self) -> (u64, u64) {
        (self.total, self.told)
    }
}

/// `done` of `total` bytes are told if that is a step more than was told last, or all.
pub open spec fn is_told(total: u64, told: u64, done: u64) -> bool {
    done - told >= PROGRESS_STEP || done >= total
}

impl Progress {
    pub fn new(total: u64) -> (r: Self)
        ensures
            r@ == (total, 0u64),
    {
        Progress { total, told: 0 }
    }

    /// Whether it is told that `done` bytes were added.
    pub fn tell(&mut self, done: u64) -> (r: bool)
        ensures
            r == is_told(old(self)@.0, old(self)@.1, done),
            final(self)@ == (if r {
                (old(self)@.0, done)
            } else {
                old(self)@
            }),
    {
        if done.saturating_sub(self.told) >= PROGRESS_STEP || done >= self.total {
            self.told = done;
            true
        } else {
            false
        }
    }
}

/// The end of a file is always told.
pub proof fn the_end_is_told(total: u64, told: u64)
    ensures
        is_told(total, told, total),
{
}

/// The texts with ` | ` between them.
pub open spec fn barred(texts: Seq<String>) -> Seq<char>
    decreases texts.len(),
{
    if texts.len() == 0 {
        Seq::empty()
    } else if texts.len() == 1 {
        texts[0]@
    } else {
        barred(texts.drop_last()) + seq![' ', '|', ' '] + texts.last()@
    }
}

/// What comes of a drop: how many files were added. If none was and there were paths that could
/// not be read, these.
pub fn drop_outcome(added: usize, unreadable: &Vec<String>) -> (r: Result<usize, String>)
    ensures
        match r {
            Ok(n) => n == added && (added > 0 || unreadable@.len() == 0),
            Err(text) => added == 0 && unreadable@.len() > 0 && text@ == barred(unreadable@),
        },
{
    if added > 0 || unreadable.len() == 0 {
        return Ok(added);
    }
    let mut text = unreadable[0].clone();
    let mut i: usize = 1;
    assert(unreadable@.take(1)[0] == unreadable@[0]);
    while i < unreadable.len()
        invariant
            1 <= i <= unreadable@.len(),
            text@ == barred(unreadable@.take(i as int)),
        decreases unreadable@.len() - i,
    {
        text.push(' ');
        text.push('|');
        text.push(' ');
        text.append(unreadable[i].as_str());
        proof {
            assert(unreadable@.take(i + 1).drop_last() =~= unreadable@.take(i as int));
            assert(text@ =~= barred(unreadable@.take(i + 1)));
        }
        i = i + 1;
    }
    assert(unreadable@.take(i as int) =~= unreadable@);
    Err(text)
}

/// A file goes into its destination under its name, and a folder with all that is in it into a
/// directory of its name there; what is neither goes nowhere. What is dropped together goes in
/// one after the other.
pub proof fn dropped_nodes_go_below_the_destination(
    path: String,
    name: String,
    children: Vec<DiskNode>,
    ns: Seq<DiskNode>,
    n: DiskNode,
    dest: Seq<char>,
)
    ensures
        pairs((DiskNode::File { path, name: Some(name) }), dest) == seq![
            (path@, crate::naming::placed_in(dest, name@)),
        ],
        pairs((DiskNode::File { path, name: None }), dest) == seq![
            (path@, crate::naming::placed_in(dest, "arquivo"@)),
        ],
        pairs((DiskNode::Folder { name: Some(name), children }), dest) == pairs_in(
            children@,
            crate::naming::placed_in(dest, name@),
        ),
        pairs((DiskNode::Folder { name: None, children }), dest) == pairs_in(
            children@,
            crate::naming::placed_in(dest, "pasta"@),
        ),
        pairs(DiskNode::Other, dest).len() == 0,
        pairs_in(Seq::empty(), dest).len() == 0,
        pairs_in(ns.push(n), dest) == pairs_in(ns, dest) + pairs(n, dest),
{
    assert(ns.push(n).drop_last() =~= ns);
}

/// Progress is told when four megabytes more are done than were told of, and at the end.
pub proof fn progress_is_told_in_steps(total: u64, told: u64, done: u64)
    ensures
        is_told(total, told, done) <==> done - told >= 4_194_304 || done >= total,
{
}

/// What could not be read is told with bars between.
pub proof fn texts_are_told_with_bars_between(texts: Seq<String>, t: String)
    ensures
        barred(Seq::empty()) == Seq::<char>::empty(),
        texts.len() == 0 ==> barred(texts.push(t)) == t@,
        texts.len() > 0 ==> barred(texts.push(t)) == barred(texts) + seq![' ', '|', ' '] + t@,
{
    assert(texts.push(t).drop_last() =~= texts);
    assert(texts.push(t).last() == t);
}

/// Pairs are told one by one, each as source and target.
pub proof fn pairs_are_told_one_by_one(out: Seq<(String, String)>, i: int)
    requires
        0 <= i < out.len(),
    ensures
        pair_views(out).len() == out.len(),
        pair_views(out)[i] == (out[i].0@, out[i].1@),
{
}

} // verus!
