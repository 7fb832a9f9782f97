//! Finding the git repositories under the root directory. The directory
//! walk itself happens outside; for each entry it meets, [`RepoScan::visit`]
//! decides whether the entry is a repository to list and whether to look
//! inside it.

use vstd::prelude::*;
use vstd::utf8::encode_utf8;
use crate::text::{chars_of, views};

verus! {

/// What the walk knows about one entry under the root.
pub struct DirEntry {
    /// How deep the entry lies below the root (the root itself is 0).
    pub depth: usize,
    /// Whether the entry is a directory.
    pub is_dir: bool,
    /// The entry's own name, when it is valid Unicode.
    pub name: Option<String>,
    /// Whether the entry holds a `.git` (a directory in a normal clone, a
    /// file in a worktree or submodule).
    pub has_git: bool,
    /// The entry's path relative to the root, when it lies under the root.
    pub relative: Option<String>,
}

/// How the walk goes on after an entry.
#[derive(Debug, PartialEq, Eq, Structural)]
pub enum Step {
    /// Carry on, into the entry when it is a directory.
    Continue,
    /// Do not look inside this directory.
    SkipDir,
}

/// A directory below the root whose name starts with a dot.
pub open spec fn is_hidden(entry: &DirEntry) -> bool {
    &&& entry.depth > 0
    &&& match entry.name {
        Some(n) => n@.len() > 0 && n@[0] == '.',
        None => false,
    }
}

/// A directory is hidden exactly when it lies below the root, at whatever
/// depth, and its name starts with a dot.
pub proof fn lemma_hidden_at_any_depth(entry: &DirEntry)
    ensures
        is_hidden(entry) <==> entry.depth >= 1 && (entry.name matches Some(n) && n@.len() > 0
            && n@[0] == '.'),
{
}

/// `a` comes before `b`, or equals it, in lexicographic byte order.
pub open spec fn bytes_le(a: Seq<u8>, b: Seq<u8>) -> bool
    decreases a.len(),
{
    if a.len() == 0 {
        true
    } else if b.len() == 0 {
        false
    } else if a[0] != b[0] {
        a[0] < b[0]
    } else {
        bytes_le(a.drop_first(), b.drop_first())
    }
}

/// `paths` is in ascending order of their UTF-8 bytes, as `String`s compare.
pub open spec fn is_sorted(paths: Seq<Seq<char>>) -> bool {
    forall|i: int, j: int|
        0 <= i < j < paths.len() ==> bytes_le(encode_utf8(#[trigger] paths[i]), encode_utf8(
            #[trigger] paths[j],
        ))
}

/// `slice::sort` on strings, claimed to keep the same strings (as a
/// multiset) and to put them in ascending order of their UTF-8 bytes, which
/// is the order `String` defines.
#[verifier::external_body]
fn sort_strings(v: &mut Vec<String>)
    ensures
        views(final(v)@).to_multiset() == views(old(v)@).to_multiset(),
        is_sorted(views(final(v)@)),
{
    v.sort();
}

/// The repositories found so far during a walk.
pub struct RepoScan {
    repos: Vec<String>,
}

impl RepoScan {
    /// No empty path is ever recorded.
    #[verifier::type_invariant]
    spec fn paths_non_empty(&self) -> bool {
        forall|k: int| 0 <= k < self.repos@.len() ==> (#[trigger] self.repos@[k])@.len() > 0
    }

    /// The relative paths of the repositories found so far, in walk order.
    pub closed spec fn found(&self) -> Seq<Seq<char>> {
        views(self.repos@)
    }

    /// A scan that has found nothing yet.
    pub fn new() -> (scan: RepoScan)
        ensures
            scan.found() == Seq::<Seq<char>>::empty(),
    {
        let scan = RepoScan { repos: Vec::new() };
        assert(scan.found() =~= Seq::<Seq<char>>::empty());
        scan
    }

    /// Decides about one entry of the walk. Entries that are not
    /// directories are passed over; hidden directories are skipped; a
    /// directory holding `.git` is a repository, listed by its relative path
    /// (unless that is empty) and not descended into.
    pub fn visit(&mut self, entry: &DirEntry) -> (step: Step)
        ensures
            !entry.is_dir ==> step == Step::Continue && final(self).found() == old(self).found(),
            entry.is_dir && is_hidden(entry) ==> step == Step::SkipDir && final(self).found()
                == old(self).found(),
            entry.is_dir && !is_hidden(entry) && entry.has_git ==> step == Step::SkipDir
                && final(self).found() == match entry.relative {
                Some(r) => if r@.len() > 0 {
                    old(self).found().push(r@)
                } else {
                    old(self).found()
                },
                None => old(self).found(),
            },
            entry.is_dir && !is_hidden(entry) && !entry.has_git ==> step == Step::Continue
                && final(self).found() == old(self).found(),
            entry.is_dir && entry.depth >= 1 && (entry.name matches Some(n) && n@.len() > 0 && n@[0]
                == '.') ==> step == Step::SkipDir && final(self).found() == old(self).found(),
    {
        proof {
            use_type_invariant(&*self);
        }
        if !entry.is_dir {
            return Step::Continue;
        }
        if entry.depth > 0 {
            if let Some(name) = &entry.name {
                let cs = chars_of(name.as_str());
                if cs.len() > 0 && cs[0] == '.' {
                    return Step::SkipDir;
                }
            }
        }
        if entry.has_git {
            if let Some(rel) = &entry.relative {
                if !rel.as_str().is_empty() {
                    let ghost before = views(self.repos@);
                    let mut repos: Vec<String> = Vec::new();
                    std::mem::swap(&mut repos, &mut self.repos);
                    repos.push(rel.clone());
                    assert(views(repos@) =~= before.push(rel@));
                    self.repos = repos;
                }
            }
            return Step::SkipDir;
        }
        Step::Continue
    }

    /// The repositories found, sorted.
    pub fn finish(self) -> (repos: Vec<String>)
        ensures
            views(repos@).to_multiset() == self.found().to_multiset(),
            is_sorted(views(repos@)),
            forall|k: int| 0 <= k < repos@.len() ==> (#[trigger] repos@[k])@.len() > 0,
    {
        proof {
            use_type_invariant(&self);
        }
        let ghost found = self.found();
        let mut repos = self.repos;
        sort_strings(&mut repos);
        proof {
            assert forall|k: int| 0 <= k < repos@.len() implies (#[trigger] repos@[k])@.len() > 0 by {
                let p = views(repos@)[k];
                assert(views(repos@).contains(p));
                vstd::seq_lib::to_multiset_contains(views(repos@), p);
                vstd::seq_lib::to_multiset_contains(found, p);
                let j = choose|j: int| 0 <= j < found.len() && found[j] == p;
                assert(found[j] == self.repos@[j]@);
            }
        }
        repos
    }
}

} // verus!
