//! The directory-creation planner.
//!
//! Creating a directory is an exchange with the filesystem, but deciding
//! what to create and what to report is not. Given a target path and a
//! snapshot of which of its prefixes already exist, the planner decides
//! whether anything is to be created at all, which creation call is due,
//! and exactly which newly created directories are to be reported,
//! shallowest first.

use vstd::prelude::*;

use crate::mode::seq_views;

verus! {

/// The creation call that a request amounts to.
#[derive(Debug, Clone, Copy, PartialEq, Eq, Structural)]
pub enum CreateAction {
    /// The target already exists and ancestors were asked for: nothing
    /// to do, the request succeeds as a no-op.
    Nothing,
    /// Create exactly the target, whose parent must already exist.
    CreateSingle,
    /// Create the target together with its missing ancestors.
    CreateAll,
}

/// What one directory request amounts to: the call to make and the
/// directories to report as created once it has succeeded.
pub struct CreationPlan {
    pub action: CreateAction,
    /// The paths to report, shallowest first, the target last; empty
    /// when reporting was not asked for or nothing new is created.
    pub report: Vec<String>,
}

/// An index of `s` that ends a strict ancestor prefix: a separator
/// preceded by a path component.
pub open spec fn is_cut(s: Seq<char>, i: int) -> bool {
    0 < i < s.len() && s[i] == '/' && s[i - 1] != '/'
}

/// The strict ancestor prefixes of `s` that end before index `n`,
/// shallowest first.
pub open spec fn prefixes_upto(s: Seq<char>, n: int) -> Seq<Seq<char>>
    decreases n,
{
    if n <= 0 {
        seq![]
    } else if is_cut(s, n - 1) {
        prefixes_upto(s, n - 1).push(s.take(n - 1))
    } else {
        prefixes_upto(s, n - 1)
    }
}

/// All prefixes of a path, shallowest first: every strict ancestor, then
/// the path itself.
pub open spec fn path_prefixes(s: Seq<char>) -> Seq<Seq<char>> {
    prefixes_upto(s, s.len() as int).push(s)
}

/// The prefixes marked as not existing, in order, empty ones skipped:
/// the directories whose creation is to be reported.
pub open spec fn missing_upto(ps: Seq<Seq<char>>, ex: Seq<bool>, n: int) -> Seq<Seq<char>>
    decreases n,
{
    if n <= 0 {
        seq![]
    } else if !ex[n - 1] && ps[n - 1].len() > 0 {
        missing_upto(ps, ex, n - 1).push(ps[n - 1])
    } else {
        missing_upto(ps, ex, n - 1)
    }
}

/// The prefixes of the whole list that are missing and non-empty.
pub open spec fn missing_prefixes(ps: Seq<Seq<char>>, ex: Seq<bool>) -> Seq<Seq<char>> {
    missing_upto(ps, ex, ps.len() as int)
}

proof fn lemma_prefixes_upto_props(s: Seq<char>, n: int)
    requires
        0 <= n <= s.len(),
    ensures
        forall|i: int|
            0 <= i < prefixes_upto(s, n).len() ==> (#[trigger] prefixes_upto(s, n)[i]).len() < n
                && prefixes_upto(s, n)[i] == s.take(prefixes_upto(s, n)[i].len() as int),
        forall|i: int, j: int|
            0 <= i < j < prefixes_upto(s, n).len() ==> (#[trigger] prefixes_upto(s, n)[i]).len() < (
            #[trigger] prefixes_upto(s, n)[j]).len(),
    decreases n,
{
    if n > 0 {
        lemma_prefixes_upto_props(s, n - 1);
        let pre = prefixes_upto(s, n - 1);
        let cur = prefixes_upto(s, n);
        if is_cut(s, n - 1) {
            assert(cur == pre.push(s.take(n - 1)));
            assert(s.take(n - 1).len() == n - 1);
            assert forall|i: int|
                0 <= i < cur.len() implies (#[trigger] cur[i]).len() < n && cur[i] == s.take(
                cur[i].len() as int,
            ) by {
                if i < pre.len() {
                    assert(cur[i] == pre[i]);
                }
            }
            assert forall|i: int, j: int|
                0 <= i < j < cur.len() implies (#[trigger] cur[i]).len() < (
            #[trigger] cur[j]).len() by {
                if j < pre.len() {
                    assert(cur[i] == pre[i] && cur[j] == pre[j]);
                } else {
                    assert(cur[j] == s.take(n - 1));
                    assert(cur[i] == pre[i]);
                    assert(pre[i].len() < n - 1);
                }
            }
        }
    }
}

/// The prefixes of a path stand shallowest first: strictly increasing in
/// length, each one a leading piece of the path, the path itself last.
pub proof fn lemma_path_prefixes_ordered(s: Seq<char>)
    ensures
        forall|i: int, j: int|
            0 <= i < j < path_prefixes(s).len() ==> (#[trigger] path_prefixes(s)[i]).len() < (
            #[trigger] path_prefixes(s)[j]).len(),
        forall|i: int|
            0 <= i < path_prefixes(s).len() ==> #[trigger] path_prefixes(s)[i] == s.take(
                path_prefixes(s)[i].len() as int,
            ),
{
    lemma_prefixes_upto_props(s, s.len() as int);
    let pre = prefixes_upto(s, s.len() as int);
    let ps = path_prefixes(s);
    assert(s.take(s.len() as int) =~= s);
    assert forall|i: int|
        0 <= i < ps.len() implies #[trigger] ps[i] == s.take(ps[i].len() as int) by {
        if i < pre.len() {
            assert(ps[i] == pre[i]);
        } else {
            assert(ps[i] == s);
        }
    }
    assert forall|i: int, j: int|
        0 <= i < j < ps.len() implies (#[trigger] ps[i]).len() < (#[trigger] ps[j]).len() by {
        assert(ps[i] == pre[i]);
        if j < pre.len() {
            assert(ps[j] == pre[j]);
        } else {
            assert(ps[j] == s);
            assert(pre[i].len() < s.len());
        }
    }
}

proof fn lemma_missing_upto_ordered(ps: Seq<Seq<char>>, ex: Seq<bool>, n: int)
    requires
        0 <= n <= ps.len(),
        forall|i: int, j: int|
            0 <= i < j < ps.len() ==> (#[trigger] ps[i]).len() < (#[trigger] ps[j]).len(),
    ensures
        forall|i: int, j: int|
            0 <= i < j < missing_upto(ps, ex, n).len() ==> (#[trigger] missing_upto(ps, ex, n)[i]).len()
                < (#[trigger] missing_upto(ps, ex, n)[j]).len(),
        forall|i: int|
            0 <= i < missing_upto(ps, ex, n).len() ==> n > 0 && (#[trigger] missing_upto(
                ps,
                ex,
                n,
            )[i]).len() <= ps[n - 1].len(),
    decreases n,
{
    if n > 0 {
        lemma_missing_upto_ordered(ps, ex, n - 1);
        let pre = missing_upto(ps, ex, n - 1);
        let cur = missing_upto(ps, ex, n);
        if !ex[n - 1] && ps[n - 1].len() > 0 {
            assert(cur == pre.push(ps[n - 1]));
            assert forall|i: int, j: int|
                0 <= i < j < cur.len() implies (#[trigger] cur[i]).len() < (
            #[trigger] cur[j]).len() by {
                assert(cur[i] == pre[i]);
                if j < pre.len() {
                    assert(cur[j] == pre[j]);
                } else {
                    assert(cur[j] == ps[n - 1]);
                    assert(pre[i].len() <= ps[n - 2].len());
                    assert(ps[n - 2].len() < ps[n - 1].len());
                }
            }
            assert forall|i: int|
                0 <= i < cur.len() implies (#[trigger] cur[i]).len() <= ps[n - 1].len() by {
                if i < pre.len() {
                    assert(cur[i] == pre[i]);
                    assert(pre[i].len() <= ps[n - 2].len());
                    assert(ps[n - 2].len() < ps[n - 1].len());
                } else {
                    assert(cur[i] == ps[n - 1]);
                }
            }
        } else {
            assert(cur == pre);
            assert forall|i: int|
                0 <= i < cur.len() implies (#[trigger] cur[i]).len() <= ps[n - 1].len() by {
                assert(cur[i].len() <= ps[n - 2].len());
                assert(ps[n - 2].len() < ps[n - 1].len());
            }
        }
    }
}

/// Verbose reporting keeps the shallowest-first order: when the prefix
/// list is ordered by depth, so is the list of the missing ones that a
/// plan reports.
pub proof fn lemma_missing_prefixes_ordered(ps: Seq<Seq<char>>, ex: Seq<bool>)
    requires
        forall|i: int, j: int|
            0 <= i < j < ps.len() ==> (#[trigger] ps[i]).len() < (#[trigger] ps[j]).len(),
    ensures
        forall|i: int, j: int|
            0 <= i < j < missing_prefixes(ps, ex).len() ==> (#[trigger] missing_prefixes(
                ps,
                ex,
            )[i]).len() < (#[trigger] missing_prefixes(ps, ex)[j]).len(),
{
    lemma_missing_upto_ordered(ps, ex, ps.len() as int);
}

/// The ancestor prefixes of `path`, shallowest first, the path itself
/// last.
pub fn ancestor_prefixes(path: &str) -> (r: Vec<String>)
    ensures
        seq_views(r@) == path_prefixes(path@),
        r@.len() >= 1,
{
    let n = path.unicode_len();
    let mut r: Vec<String> = Vec::new();
    let mut i: usize = 1;
    proof {
        assert(prefixes_upto(path@, 0) =~= Seq::<Seq<char>>::empty());
        assert(seq_views(r@) =~= prefixes_upto(path@, 1));
    }
    while i < n
        invariant
            n == path@.len(),
            1 <= i,
            i <= n || i == 1,
            seq_views(r@) == prefixes_upto(path@, i as int),
        decreases n - i,
    {
        if path.get_char(i) == '/' && path.get_char(i - 1) != '/' {
            let p = path.substring_char(0, i).to_owned();
            proof {
                assert(p@ =~= path@.take(i as int));
                assert(seq_views(r@.push(p)) =~= seq_views(r@).push(p@));
            }
            r.push(p);
        }
        i += 1;
    }
    proof {
        if n <= 1 {
            assert(prefixes_upto(path@, 1) =~= prefixes_upto(path@, n as int));
        }
    }
    let whole = path.to_owned();
    proof {
        assert(seq_views(r@.push(whole)) =~= seq_views(r@).push(whole@));
    }
    r.push(whole);
    r
}

/// Decides what one directory request amounts to. `prefix_exists` is a
/// snapshot, taken before anything is created, of which entries of
/// `ancestor_prefixes(path)` already exist; its last entry speaks for
/// the target itself.
///
/// Without `parents` the target alone is created, and reported if asked
/// for. With `parents`, an existing target is a no-op with nothing to
/// report; otherwise the whole chain is created and exactly the missing,
/// non-empty prefixes are reported, shallowest first.
pub fn creation_plan(path: &str, parents: bool, verbose: bool, prefix_exists: &Vec<bool>) -> (r:
    CreationPlan)
    requires
        prefix_exists@.len() == path_prefixes(path@).len(),
    ensures
        ({
            let ps = path_prefixes(path@);
            let ex = prefix_exists@;
            &&& !parents ==> r.action is CreateSingle && seq_views(r.report@) == (if verbose {
                seq![path@]
            } else {
                Seq::<Seq<char>>::empty()
            })
            &&& parents && ex.last() ==> r.action is Nothing && r.report@.len() == 0
            &&& parents && !ex.last() ==> r.action is CreateAll && seq_views(r.report@) == (
            if verbose {
                missing_prefixes(ps, ex)
            } else {
                Seq::<Seq<char>>::empty()
            })
        }),
{
    let ghost ps = path_prefixes(path@);
    let ghost ex = prefix_exists@;
    if !parents {
        let mut report: Vec<String> = Vec::new();
        proof {
            assert(seq_views(report@) =~= Seq::<Seq<char>>::empty());
        }
        if verbose {
            let whole = path.to_owned();
            proof {
                assert(seq_views(report@.push(whole)) =~= seq![whole@]);
            }
            report.push(whole);
        }
        return CreationPlan { action: CreateAction::CreateSingle, report };
    }
    let prefixes = ancestor_prefixes(path);
    let n = prefixes.len();
    if prefix_exists[n - 1] {
        return CreationPlan { action: CreateAction::Nothing, report: Vec::new() };
    }
    let mut report: Vec<String> = Vec::new();
    proof {
        assert(seq_views(report@) =~= missing_upto(ps, ex, 0));
    }
    if verbose {
        let mut i: usize = 0;
        while i < n
            invariant
                ps == path_prefixes(path@),
                ex == prefix_exists@,
                n == prefixes.len(),
                seq_views(prefixes@) == ps,
                ex.len() == ps.len(),
                i <= n,
                seq_views(report@) == missing_upto(ps, ex, i as int),
            decreases n - i,
        {
            if !prefix_exists[i] && !prefixes[i].as_str().is_empty() {
                let p = prefixes[i].clone();
                proof {
                    assert(seq_views(report@.push(p)) =~= seq_views(report@).push(p@));
                }
                report.push(p);
            }
            i += 1;
        }
    }
    CreationPlan { action: CreateAction::CreateAll, report }
}

} // verus!
