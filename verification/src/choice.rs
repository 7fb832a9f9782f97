//! Narrowing the repository list down to the configured targets.

use vstd::prelude::*;
use crate::text::{chars_of, contains_chars, is_substring, views};

verus! {

/// Some fragment of `targets` occurs in `repo`.
pub open spec fn matches_target(repo: Seq<char>, targets: Seq<Seq<char>>) -> bool {
    exists|k: int| 0 <= k < targets.len() && is_substring(#[trigger] targets[k], repo)
}

/// The elements of `repos` that match some fragment of `targets`, in order.
pub open spec fn matching_spec(repos: Seq<Seq<char>>, targets: Seq<Seq<char>>) -> Seq<Seq<char>>
    decreases repos.len(),
{
    if repos.len() == 0 {
        seq![]
    } else {
        let r = matching_spec(repos.drop_last(), targets);
        if matches_target(repos.last(), targets) {
            r.push(repos.last())
        } else {
            r
        }
    }
}

/// The repositories to offer: all of them when `show_all` is set or no
/// target is configured, otherwise those whose path contains a target.
pub open spec fn filter_spec(repos: Seq<Seq<char>>, targets: Seq<Seq<char>>, show_all: bool) -> Seq<
    Seq<char>,
> {
    if show_all || targets.len() == 0 {
        repos
    } else {
        matching_spec(repos, targets)
    }
}

/// Whether `repo` contains one of `targets`.
pub fn matches_any(repo: &str, targets: &[String]) -> (r: bool)
    ensures
        r == matches_target(repo@, views(targets@)),
{
    let hay = chars_of(repo);
    let mut k: usize = 0;
    while k < targets.len()
        invariant
            k <= targets@.len(),
            hay@ == repo@,
            forall|j: int| 0 <= j < k ==> !is_substring(#[trigger] views(targets@)[j], repo@),
        decreases targets@.len() - k,
    {
        let needle = chars_of(targets[k].as_str());
        if contains_chars(hay.as_slice(), needle.as_slice()) {
            assert(views(targets@)[k as int] == targets@[k as int]@);
            return true;
        }
        assert(views(targets@)[k as int] == targets@[k as int]@);
        k += 1;
    }
    false
}

/// Keeps the repositories that the target fragments select.
pub fn filter_repos(repos: Vec<String>, targets: &[String], show_all: bool) -> (r: Vec<String>)
    ensures
        views(r@) == filter_spec(views(repos@), views(targets@), show_all),
{
    if show_all || targets.len() == 0 {
        return repos;
    }
    let ghost rv = views(repos@);
    let mut out: Vec<String> = Vec::new();
    let mut i: usize = 0;
    while i < repos.len()
        invariant
            i <= repos@.len(),
            rv == views(repos@),
            views(out@) == matching_spec(rv.take(i as int), views(targets@)),
        decreases repos@.len() - i,
    {
        assert(rv.take(i + 1).drop_last() =~= rv.take(i as int));
        assert(rv.take(i + 1).last() == repos@[i as int]@);
        if matches_any(repos[i].as_str(), targets) {
            let ghost before = views(out@);
            out.push(repos[i].clone());
            assert(views(out@) =~= before.push(repos@[i as int]@));
        }
        i += 1;
    }
    assert(rv.take(repos@.len() as int) =~= rv);
    out
}

/// The filter keeps exactly the repositories that contain some target: each
/// kept repository is listed and matches, and each listed repository that
/// matches is kept.
pub proof fn lemma_filter_selects(repos: Seq<Seq<char>>, targets: Seq<Seq<char>>)
    ensures
        forall|x: Seq<char>|
            matching_spec(repos, targets).contains(x) <==> (repos.contains(x) && matches_target(
                x,
                targets,
            )),
        matching_spec(repos, targets).len() <= repos.len(),
    decreases repos.len(),
{
    if repos.len() > 0 {
        let d = repos.drop_last();
        let x0 = repos.last();
        lemma_filter_selects(d, targets);
        let r = matching_spec(d, targets);
        assert forall|x: Seq<char>| matching_spec(repos, targets).contains(x) <==> (repos.contains(x)
            && matches_target(x, targets)) by {
            if repos.contains(x) && x != x0 {
                let k = choose|k: int| 0 <= k < repos.len() && repos[k] == x;
                assert(d[k] == x);
            }
            if d.contains(x) {
                let k = choose|k: int| 0 <= k < d.len() && d[k] == x;
                assert(repos[k] == x);
            }
            if x == x0 {
                assert(repos[repos.len() - 1] == x);
            }
            if matches_target(x0, targets) {
                if r.contains(x) {
                    let k = choose|k: int| 0 <= k < r.len() && r[k] == x;
                    assert(r.push(x0)[k] == x);
                }
                if x == x0 {
                    assert(r.push(x0)[r.len() as int] == x);
                }
                if r.push(x0).contains(x) && x != x0 {
                    let k = choose|k: int| 0 <= k < r.push(x0).len() && r.push(x0)[k] == x;
                    assert(r[k] == x);
                }
            }
        }
    }
}

/// A repository matches exactly when some fragment occurs in its path as a
/// contiguous run of characters, at any position, whatever comes before or
/// after it.
pub proof fn lemma_match_is_occurrence(repo: Seq<char>, targets: Seq<Seq<char>>)
    ensures
        matches_target(repo, targets) <==> exists|k: int, i: int|
            0 <= k < targets.len() && 0 <= i && i + targets[k].len() <= repo.len()
                && #[trigger] repo.subrange(i, i + targets[k].len()) == #[trigger] targets[k],
{
    if matches_target(repo, targets) {
        let k = choose|k: int| 0 <= k < targets.len() && is_substring(#[trigger] targets[k], repo);
        let i = choose|i: int|
            0 <= i && i + targets[k].len() <= repo.len() && #[trigger] repo.subrange(
                i,
                i + targets[k].len(),
            ) == targets[k];
        assert(repo.subrange(i, i + targets[k].len()) == targets[k]);
    }
    if exists|k: int, i: int|
        0 <= k < targets.len() && 0 <= i && i + targets[k].len() <= repo.len()
            && #[trigger] repo.subrange(i, i + targets[k].len()) == #[trigger] targets[k] {
        let (k, i) = choose|k: int, i: int|
            0 <= k < targets.len() && 0 <= i && i + targets[k].len() <= repo.len()
                && #[trigger] repo.subrange(i, i + targets[k].len()) == #[trigger] targets[k];
        assert(is_substring(targets[k], repo));
    }
}

/// A path that matches still matches with anything put before or after it.
pub proof fn lemma_match_survives_extension(
    repo: Seq<char>,
    targets: Seq<Seq<char>>,
    before: Seq<char>,
    after: Seq<char>,
)
    requires
        matches_target(repo, targets),
    ensures
        matches_target(before + repo + after, targets),
{
    let k = choose|k: int| 0 <= k < targets.len() && is_substring(#[trigger] targets[k], repo);
    let t = targets[k];
    let i = choose|i: int|
        0 <= i && i + t.len() <= repo.len() && #[trigger] repo.subrange(i, i + t.len()) == t;
    let big = before + repo + after;
    let j = before.len() + i;
    assert(big.subrange(j, j + t.len()) =~= repo.subrange(i, i + t.len()));
    assert(is_substring(t, big));
}

} // verus!
