//! Git status bits, their display names, and recency scoring of recently
//! committed files.

use vstd::prelude::*;

verus! {

/// Git status flags, bit for bit as libgit2 reports them.
pub const STATUS_INDEX_NEW: u32 = 1;
pub const STATUS_INDEX_MODIFIED: u32 = 2;
pub const STATUS_INDEX_DELETED: u32 = 4;
pub const STATUS_INDEX_RENAMED: u32 = 8;
pub const STATUS_INDEX_TYPECHANGE: u32 = 16;
pub const STATUS_WT_NEW: u32 = 128;
pub const STATUS_WT_MODIFIED: u32 = 256;
pub const STATUS_WT_DELETED: u32 = 512;
pub const STATUS_WT_TYPECHANGE: u32 = 1024;
pub const STATUS_WT_RENAMED: u32 = 2048;
pub const STATUS_WT_UNREADABLE: u32 = 4096;
pub const STATUS_IGNORED: u32 = 16384;
pub const STATUS_CONFLICTED: u32 = 32768;

/// Whether every flag of `flag` is set in `status`.
pub open spec fn has_flags(status: u32, flag: u32) -> bool {
    status & flag == flag
}

/// A file counts as modified when it is changed, new or renamed in the
/// work tree or the index.
pub open spec fn spec_is_modified(status: u32) -> bool {
    status & (STATUS_WT_MODIFIED | STATUS_INDEX_MODIFIED | STATUS_WT_NEW | STATUS_INDEX_NEW
        | STATUS_WT_RENAMED) != 0
}

pub fn is_modified_status(status: u32) -> (r: bool)
    ensures
        r == spec_is_modified(status),
{
    status & (STATUS_WT_MODIFIED | STATUS_INDEX_MODIFIED | STATUS_WT_NEW | STATUS_INDEX_NEW
        | STATUS_WT_RENAMED) != 0
}

/// Display name of a git status; `None` is a clean file. The first matching
/// flag wins, in the order work-tree new, modified, deleted, renamed, then
/// index new, modified, deleted, then ignored; anything else is clean.
pub open spec fn git_status_name(status: Option<u32>) -> Seq<char> {
    match status {
        None => "clean"@,
        Some(s) => if has_flags(s, STATUS_WT_NEW) {
            "untracked"@
        } else if has_flags(s, STATUS_WT_MODIFIED) {
            "modified"@
        } else if has_flags(s, STATUS_WT_DELETED) {
            "deleted"@
        } else if has_flags(s, STATUS_WT_RENAMED) {
            "renamed"@
        } else if has_flags(s, STATUS_INDEX_NEW) {
            "staged_new"@
        } else if has_flags(s, STATUS_INDEX_MODIFIED) {
            "staged_modified"@
        } else if has_flags(s, STATUS_INDEX_DELETED) {
            "staged_deleted"@
        } else if has_flags(s, STATUS_IGNORED) {
            "ignored"@
        } else {
            "clean"@
        },
    }
}

pub fn format_git_status(status: Option<u32>) -> (r: &'static str)
    ensures
        r@ == git_status_name(status),
{
    match status {
        None => "clean",
        Some(s) => {
            if s & STATUS_WT_NEW == STATUS_WT_NEW {
                "untracked"
            } else if s & STATUS_WT_MODIFIED == STATUS_WT_MODIFIED {
                "modified"
            } else if s & STATUS_WT_DELETED == STATUS_WT_DELETED {
                "deleted"
            } else if s & STATUS_WT_RENAMED == STATUS_WT_RENAMED {
                "renamed"
            } else if s & STATUS_INDEX_NEW == STATUS_INDEX_NEW {
                "staged_new"
            } else if s & STATUS_INDEX_MODIFIED == STATUS_INDEX_MODIFIED {
                "staged_modified"
            } else if s & STATUS_INDEX_DELETED == STATUS_INDEX_DELETED {
                "staged_deleted"
            } else if s & STATUS_IGNORED == STATUS_IGNORED {
                "ignored"
            } else {
                "clean"
            }
        },
    }
}

/// Configuration of git recency scoring.
#[derive(Clone, Copy)]
pub struct GitRecencyConfig {
    /// Maximum number of recent commits to analyse.
    pub max_commits: usize,
    /// Commits touching more files than this are ignored.
    pub max_files_per_commit: usize,
    /// Bonus for a file in the most recent qualifying commit.
    pub max_bonus: i32,
}

impl Default for GitRecencyConfig {
    fn default() -> (r: Self)
        ensures
            r.max_commits == 10,
            r.max_files_per_commit == 50,
            r.max_bonus == 15,
    {
        GitRecencyConfig { max_commits: 10, max_files_per_commit: 50, max_bonus: 15 }
    }
}

/// Linear decay: `max_bonus * (max_commits - position) / max_commits`,
/// truncating toward zero.
pub open spec fn spec_recency_score(max_bonus: int, max_commits: int, position: int) -> int {
    let num = max_bonus * (max_commits - position);
    if num >= 0 {
        num / max_commits
    } else {
        -((-num) / max_commits)
    }
}

/// Recency bonus of a file first seen in the qualifying commit at `position`
/// (0 is the most recent).
pub fn recency_score(config: &GitRecencyConfig, position: usize) -> (r: i32)
    requires
        position < config.max_commits,
        config.max_commits <= i32::MAX,
        config.max_bonus as int * config.max_commits as int <= i32::MAX,
        config.max_bonus as int * config.max_commits as int >= i32::MIN,
    ensures
        r == spec_recency_score(config.max_bonus as int, config.max_commits as int, position as int),
{
    let mc = config.max_commits as i32;
    let k = (config.max_commits - position) as i32;
    assert(config.max_bonus as int * k as int <= i32::MAX && config.max_bonus as int * k as int >= i32::MIN) by (nonlinear_arith)
        requires
            0 < k <= config.max_commits,
            config.max_bonus as int * config.max_commits as int <= i32::MAX,
            config.max_bonus as int * config.max_commits as int >= i32::MIN,
    ;
    let num = config.max_bonus * k;
    num / mc
}


/// Files changed by one commit (against its first parent).
pub struct CommitChange {
    /// Number of changed entries in the commit's diff.
    pub delta_count: usize,
    /// Absolute paths of the changed files.
    pub paths: Vec<String>,
}

/// Whether the association list `m` has an entry for `p`.
pub open spec fn has_key(m: Seq<(Seq<char>, i32)>, p: Seq<char>) -> bool {
    exists|i: int| 0 <= i < m.len() && (#[trigger] m[i]).0 == p
}

/// Give each path of `paths` the score `score` unless it already has one.
pub open spec fn add_paths(m: Seq<(Seq<char>, i32)>, paths: Seq<String>, score: i32) -> Seq<(Seq<char>, i32)>
    decreases paths.len(),
{
    if paths.len() == 0 {
        m
    } else {
        let m0 = add_paths(m, paths.drop_last(), score);
        let p = paths.last()@;
        if has_key(m0, p) {
            m0
        } else {
            m0.push((p, score))
        }
    }
}

/// Scores after walking `commits` (most recent first): commits with more
/// than `max_files_per_commit` changes are skipped, at most `max_commits`
/// qualifying commits are used, and each file keeps the score of its most
/// recent qualifying commit. The second component counts qualifying commits.
pub open spec fn recency_fold(config: GitRecencyConfig, commits: Seq<CommitChange>) -> (Seq<(Seq<char>, i32)>, nat)
    decreases commits.len(),
{
    if commits.len() == 0 {
        (seq![], 0)
    } else {
        let (m, pos) = recency_fold(config, commits.drop_last());
        let c = commits.last();
        if pos >= config.max_commits || c.delta_count > config.max_files_per_commit {
            (m, pos)
        } else {
            (
                add_paths(m, c.paths@, spec_recency_score(config.max_bonus as int, config.max_commits as int, pos as int) as i32),
                pos + 1,
            )
        }
    }
}

/// Scores of the files touched by recent commits, in order of first
/// appearance; empty when recency scoring is disabled (no commits or no bonus).
pub open spec fn recency_scores(config: GitRecencyConfig, commits: Seq<CommitChange>) -> Seq<(Seq<char>, i32)> {
    if config.max_commits == 0 || config.max_bonus <= 0 {
        seq![]
    } else {
        recency_fold(config, commits).0
    }
}

fn find_path(scores: &Vec<(String, i32)>, p: &String) -> (r: bool)
    ensures
        r == has_key(scores@.map_values(|e: (String, i32)| (e.0@, e.1)), p@),
{
    let ghost v = scores@.map_values(|e: (String, i32)| (e.0@, e.1));
    let mut i: usize = 0;
    while i < scores.len()
        invariant
            i <= scores@.len(),
            v == scores@.map_values(|e: (String, i32)| (e.0@, e.1)),
            forall|j: int| 0 <= j < i ==> (#[trigger] v[j]).0 != p@,
        decreases scores@.len() - i,
    {
        if scores[i].0 == *p {
            assert(v[i as int].0 == p@);
            return true;
        }
        i = i + 1;
    }
    false
}

/// Recency bonus of every file touched by the recent `commits` (most recent
/// first), each file scored by its most recent qualifying commit.
pub fn recent_commit_scores(config: &GitRecencyConfig, commits: &[CommitChange]) -> (r: Vec<(String, i32)>)
    requires
        config.max_commits > 0 && config.max_bonus > 0 ==> {
            &&& config.max_commits <= i32::MAX
            &&& config.max_bonus as int * config.max_commits as int <= i32::MAX
        },
    ensures
        r@.map_values(|e: (String, i32)| (e.0@, e.1)) == recency_scores(*config, commits@),
{
    let mut scores: Vec<(String, i32)> = Vec::new();
    if config.max_commits == 0 || config.max_bonus <= 0 {
        proof {
            assert(scores@.map_values(|e: (String, i32)| (e.0@, e.1)) =~= Seq::<(Seq<char>, i32)>::empty());
        }
        return scores;
    }
    let mut position: usize = 0;
    let mut i: usize = 0;
    proof {
        assert(commits@.take(0) =~= Seq::<CommitChange>::empty());
        assert(scores@.map_values(|e: (String, i32)| (e.0@, e.1)) =~= Seq::<(Seq<char>, i32)>::empty());
    }
    while i < commits.len()
        invariant
            i <= commits@.len(),
            config.max_commits <= i32::MAX,
            config.max_bonus > 0,
            config.max_bonus as int * config.max_commits as int <= i32::MAX,
            (scores@.map_values(|e: (String, i32)| (e.0@, e.1)), position as nat) == recency_fold(*config, commits@.take(i as int)),
            position <= config.max_commits,
        ensures
            i <= commits@.len(),
            (scores@.map_values(|e: (String, i32)| (e.0@, e.1)), position as nat) == recency_fold(*config, commits@.take(i as int)),
            i == commits@.len() || position >= config.max_commits,
        decreases commits@.len() - i,
    {
        proof {
            assert(commits@.take(i + 1).drop_last() =~= commits@.take(i as int));
        }
        if position >= config.max_commits {
            break;
        }
        let c = &commits[i];
        if c.delta_count <= config.max_files_per_commit {
            let score = recency_score(config, position);
            let mut j: usize = 0;
            let ghost m0 = scores@.map_values(|e: (String, i32)| (e.0@, e.1));
            proof {
                assert(c.paths@.take(0) =~= Seq::<String>::empty());
            }
            while j < c.paths.len()
                invariant
                    j <= c.paths@.len(),
                    scores@.map_values(|e: (String, i32)| (e.0@, e.1)) == add_paths(m0, c.paths@.take(j as int), score),
                decreases c.paths@.len() - j,
            {
                let p = &c.paths[j];
                let found = find_path(&scores, p);
                proof {
                    assert(c.paths@.take(j + 1).drop_last() =~= c.paths@.take(j as int));
                }
                if !found {
                    let ghost before = scores@;
                    scores.push((p.clone(), score));
                    proof {
                        assert(scores@.map_values(|e: (String, i32)| (e.0@, e.1)) =~= before.map_values(|e: (String, i32)| (e.0@, e.1)).push((p@, score)));
                    }
                }
                j = j + 1;
            }
            proof {
                assert(c.paths@.take(j as int) =~= c.paths@);
            }
            position = position + 1;
        }
        i = i + 1;
    }
    proof {
        lemma_recency_fold_saturated(*config, commits@, i as int);
    }
    scores
}

/// Once `max_commits` qualifying commits were seen, later commits change nothing.
proof fn lemma_recency_fold_saturated(config: GitRecencyConfig, commits: Seq<CommitChange>, i: int)
    requires
        0 <= i <= commits.len(),
        recency_fold(config, commits.take(i)).1 >= config.max_commits || i == commits.len(),
    ensures
        recency_fold(config, commits) == recency_fold(config, commits.take(i)),
    decreases commits.len() - i,
{
    if i == commits.len() {
        assert(commits.take(i) =~= commits);
    } else {
        assert(commits.take(i + 1).drop_last() =~= commits.take(i));
        lemma_recency_fold_saturated(config, commits, i + 1);
    }
}

/// Number of qualifying commits (at most `max_files_per_commit` changes)
/// among `commits`.
pub open spec fn qualifying_count(config: GitRecencyConfig, commits: Seq<CommitChange>) -> nat
    decreases commits.len(),
{
    if commits.len() == 0 {
        0
    } else {
        qualifying_count(config, commits.drop_last()) + if commits.last().delta_count <= config.max_files_per_commit {
            1nat
        } else {
            0nat
        }
    }
}

/// Whether `p` is among `paths`.
pub open spec fn names(paths: Seq<String>, p: Seq<char>) -> bool {
    exists|i: int| 0 <= i < paths.len() && (#[trigger] paths[i])@ == p
}

/// Whether some qualifying commit among `commits` changed `p`.
pub open spec fn touched(config: GitRecencyConfig, commits: Seq<CommitChange>, p: Seq<char>) -> bool {
    exists|j: int| 0 <= j < commits.len() && (#[trigger] commits[j]).delta_count <= config.max_files_per_commit
        && names(commits[j].paths@, p)
}

proof fn lemma_add_paths_keys(m: Seq<(Seq<char>, i32)>, paths: Seq<String>, score: i32, p: Seq<char>)
    ensures
        has_key(add_paths(m, paths, score), p) ==> has_key(m, p) || names(paths, p),
        forall|e: (Seq<char>, i32)| m.contains(e) ==> #[trigger] add_paths(m, paths, score).contains(e),
        !has_key(m, p) && names(paths, p) ==> add_paths(m, paths, score).contains((p, score)),
    decreases paths.len(),
{
    if paths.len() > 0 {
        let d = paths.drop_last();
        lemma_add_paths_keys(m, d, score, p);
        let m0 = add_paths(m, d, score);
        let q = paths.last()@;
        assert forall|i: int| 0 <= i < d.len() implies (#[trigger] d[i]) == paths[i] by {}
        if has_key(add_paths(m, paths, score), p) && !has_key(m0, p) {
            assert(q == p) by {
                let i = choose|i: int| 0 <= i < add_paths(m, paths, score).len() && (#[trigger] add_paths(m, paths, score)[i]).0 == p;
                if i < m0.len() {
                    assert(add_paths(m, paths, score)[i] == m0[i]);
                }
            }
            assert(paths[paths.len() - 1]@ == p);
        }
        if has_key(m0, p) && names(d, p) {
            let i = choose|i: int| 0 <= i < d.len() && (#[trigger] d[i])@ == p;
            assert(paths[i]@ == p);
        }
        assert forall|e: (Seq<char>, i32)| m.contains(e) implies #[trigger] add_paths(m, paths, score).contains(e) by {
            if m.contains(e) {
                assert(m0.contains(e));
                if !has_key(m0, q) {
                    let k = choose|k: int| 0 <= k < m0.len() && m0[k] == e;
                    assert(m0.push((q, score))[k] == e);
                }
            }
        }
        if !has_key(m, p) && names(paths, p) {
            let i = choose|i: int| 0 <= i < paths.len() && (#[trigger] paths[i])@ == p;
            if i < d.len() {
                assert(d[i]@ == p);
                assert(m0.contains((p, score)));
                if !has_key(m0, q) {
                    let k = choose|k: int| 0 <= k < m0.len() && m0[k] == (p, score);
                    assert(m0.push((q, score))[k] == (p, score));
                }
            } else {
                assert(q == p);
                if has_key(m0, p) {
                    // a key of m0 is a key of m or a name of d
                    if names(d, p) {
                        assert(m0.contains((p, score)));
                    }
                }
                if !has_key(m0, p) {
                    assert(m0.push((q, score))[m0.len() as int] == (p, score));
                } else {
                    assert(names(d, p));
                    assert(m0.contains((p, score)));
                }
            }
        }
    }
}

proof fn lemma_fold_facts(config: GitRecencyConfig, commits: Seq<CommitChange>, p: Seq<char>)
    ensures
        recency_fold(config, commits).1 == (if qualifying_count(config, commits) < config.max_commits {
            qualifying_count(config, commits)
        } else {
            config.max_commits as nat
        }),
        has_key(recency_fold(config, commits).0, p) ==> touched(config, commits, p),
    decreases commits.len(),
{
    if commits.len() > 0 {
        let d = commits.drop_last();
        lemma_fold_facts(config, d, p);
        let c = commits.last();
        let (m, pos) = recency_fold(config, d);
        assert forall|j: int| 0 <= j < d.len() implies (#[trigger] d[j]) == commits[j] by {}
        if touched(config, d, p) {
            let j = choose|j: int| 0 <= j < d.len() && (#[trigger] d[j]).delta_count <= config.max_files_per_commit
                && names(d[j].paths@, p);
            assert(commits[j] == d[j]);
        }
        if !(pos >= config.max_commits || c.delta_count > config.max_files_per_commit) {
            let score = spec_recency_score(config.max_bonus as int, config.max_commits as int, pos as int) as i32;
            lemma_add_paths_keys(m, c.paths@, score, p);
            if names(c.paths@, p) {
                assert(commits[commits.len() - 1] == c);
            }
        }
    }
}

/// The recency bonus decays with commit position: a file first changed by
/// the qualifying commit at position `k` (0 is the most recent; `k` counts
/// the qualifying commits before it) gets `max_bonus * (max_commits - k) /
/// max_commits`.
pub proof fn lemma_recency_decays_with_position(config: GitRecencyConfig, prefix: Seq<CommitChange>, c: CommitChange, p: Seq<char>)
    requires
        config.max_commits > 0,
        config.max_bonus > 0,
        qualifying_count(config, prefix) < config.max_commits,
        c.delta_count <= config.max_files_per_commit,
        names(c.paths@, p),
        !touched(config, prefix, p),
    ensures
        recency_scores(config, prefix.push(c)).contains(
            (p, ((config.max_bonus as int * (config.max_commits - qualifying_count(config, prefix))) / config.max_commits as int) as i32),
        ),
{
    let all = prefix.push(c);
    assert(all.drop_last() =~= prefix);
    assert(all.last() == c);
    lemma_fold_facts(config, prefix, p);
    let (m, pos) = recency_fold(config, prefix);
    let k = qualifying_count(config, prefix);
    assert(pos == k);
    assert(config.max_bonus as int * (config.max_commits - k) >= 0) by (nonlinear_arith)
        requires
            config.max_bonus > 0,
            k < config.max_commits,
    ;
    let score = spec_recency_score(config.max_bonus as int, config.max_commits as int, pos as int) as i32;
    lemma_add_paths_keys(m, c.paths@, score, p);
}

} // verus!
