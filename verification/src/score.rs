//! Ranking of file-search results: score components, the frecency-only
//! ranking, and sorting with pagination.

use vstd::prelude::*;
use crate::types::{FileItem, Score, PaginationArgs};
use crate::git::{is_modified_status, spec_is_modified};
use crate::sort::{Rank, rank_sorted, rank_order, lemma_rank_order, sort_ranks};
use crate::text::str_eq;
use vstd::utf8::encode_utf8;

verus! {

broadcast use vstd::seq_lib::group_to_multiset_ensures;

/// `x` clamped to the `i32` range.
pub open spec fn clamp_i32(x: int) -> int {
    if x > i32::MAX {
        i32::MAX as int
    } else if x < i32::MIN {
        i32::MIN as int
    } else {
        x
    }
}

/// Integer division rounding toward zero, as `/` on `i32` does.
pub open spec fn tdiv(a: int, b: int) -> int {
    if a >= 0 {
        a / b
    } else {
        -((-a) / b)
    }
}

/// `a + b`, saturating at the `i32` bounds.
pub fn sat_add(a: i32, b: i32) -> (r: i32)
    ensures
        r == clamp_i32(a + b),
{
    let s = a as i64 + b as i64;
    if s > i32::MAX as i64 {
        i32::MAX
    } else if s < i32::MIN as i64 {
        i32::MIN
    } else {
        s as i32
    }
}

/// `a * b`, saturating at the `i32` bounds.
pub fn sat_mul(a: i32, b: i32) -> (r: i32)
    ensures
        r == clamp_i32(a * b),
{
    proof {
        assert(-0x4000_0000_0000_0000 <= (a as int) * (b as int) <= 0x4000_0000_0000_0000) by (nonlinear_arith)
            requires
                -0x8000_0000 <= a <= 0x7fff_ffff,
                -0x8000_0000 <= b <= 0x7fff_ffff,
        ;
    }
    let p = a as i64 * b as i64;
    if p > i32::MAX as i64 {
        i32::MAX
    } else if p < i32::MIN as i64 {
        i32::MIN
    } else {
        p as i32
    }
}

/// A previous pick of the same query: the file opened and how often.
pub struct QueryMatchEntry {
    pub file_path: String,
    pub open_count: u32,
}

/// What a file search is scored against.
pub struct ScoringContext<'a> {
    pub raw_query: &'a str,
    pub current_file: Option<&'a str>,
    pub max_typos: u16,
    pub max_threads: usize,
    pub last_same_query_match: Option<QueryMatchEntry>,
    pub combo_boost_score_multiplier: i32,
    pub min_combo_count: u32,
    pub pagination: PaginationArgs,
}

/// Penalty for the file being edited: the whole base score, or half of it
/// when the file has uncommitted changes; none for other files.
pub open spec fn current_file_penalty_spec(file: FileItem, base_score: int, current_file: Option<Seq<char>>) -> int {
    match current_file {
        Some(c) => if file.relative_path@ == c {
            -(match file.git_status {
                Some(s) => if spec_is_modified(s) { tdiv(base_score, 2) } else { base_score },
                None => base_score,
            })
        } else {
            0
        },
        None => 0,
    }
}

pub open spec fn opt_str(s: Option<&str>) -> Option<Seq<char>> {
    match s {
        Some(x) => Some(x@),
        None => None,
    }
}

/// The current-file penalty of `file` (see [`current_file_penalty_spec`]).
pub fn calculate_current_file_penalty(file: &FileItem, base_score: i32, context: &ScoringContext) -> (r: i32)
    requires
        base_score > i32::MIN,
    ensures
        r == current_file_penalty_spec(*file, base_score as int, opt_str(context.current_file)),
{
    let mut penalty: i32 = 0;
    if let Some(current) = context.current_file {
        if str_eq(file.relative_path.as_str(), current) {
            let cut = match file.git_status {
                Some(status) => if is_modified_status(status) { base_score / 2 } else { base_score },
                None => base_score,
            };
            penalty = penalty - cut;
        }
    }
    penalty
}

/// Entry-point file names (module roots and `main`/`index` files), which
/// earn a small bonus.
pub open spec fn is_special_entry_point(name: Seq<char>) -> bool {
    ||| name == "mod.rs"@
    ||| name == "lib.rs"@
    ||| name == "main.rs"@
    ||| name == "index.js"@
    ||| name == "index.jsx"@
    ||| name == "index.ts"@
    ||| name == "index.tsx"@
    ||| name == "index.mjs"@
    ||| name == "index.cjs"@
    ||| name == "index.vue"@
    ||| name == "__init__.py"@
    ||| name == "__main__.py"@
    ||| name == "main.go"@
    ||| name == "main.c"@
    ||| name == "index.php"@
    ||| name == "main.rb"@
    ||| name == "index.rb"@
}

pub fn is_special_entry_point_file(filename: &str) -> (r: bool)
    ensures
        r == is_special_entry_point(filename@),
{
    str_eq(filename, "mod.rs") || str_eq(filename, "lib.rs") || str_eq(filename, "main.rs")
        || str_eq(filename, "index.js") || str_eq(filename, "index.jsx") || str_eq(filename, "index.ts")
        || str_eq(filename, "index.tsx") || str_eq(filename, "index.mjs") || str_eq(filename, "index.cjs")
        || str_eq(filename, "index.vue") || str_eq(filename, "__init__.py") || str_eq(filename, "__main__.py")
        || str_eq(filename, "main.go") || str_eq(filename, "main.c") || str_eq(filename, "index.php")
        || str_eq(filename, "main.rb") || str_eq(filename, "index.rb")
}

/// Frecency of a file in the frecency-only ranking: access frecency plus
/// four times the modification frecency (the product saturating).
pub open spec fn frecency_total(file: FileItem) -> int {
    file.access_frecency_score + clamp_i32(file.modification_frecency_score * 4)
}

/// The frecency-only score of `file`.
pub open spec fn frecency_score_spec(file: FileItem, current_file: Option<Seq<char>>) -> Score {
    let tf = frecency_total(file);
    let penalty = current_file_penalty_spec(file, tf, current_file);
    Score {
        total: clamp_i32(tf + penalty) as i32,
        base_score: 0,
        filename_bonus: 0,
        special_filename_bonus: 0,
        frecency_boost: tf as i32,
        git_status_boost: 0,
        distance_penalty: 0,
        current_file_penalty: penalty as i32,
        combo_match_boost: 0,
        exact_match: false,
        match_type: "frecency",
    }
}

/// The frecency score of one file can be computed without overflow.
pub open spec fn frecency_scorable(file: FileItem) -> bool {
    i32::MIN < frecency_total(file) <= i32::MAX
}

/// Rank keys of scored results: total score, modification time, position.
pub open spec fn score_ranks<'a>(results: Seq<(&'a FileItem, Score)>) -> Seq<Rank> {
    Seq::new(results.len(), |i: int| (results[i].1.total as i64, results[i].0.modified, i as usize))
}

/// The page `[lo, hi)` of the sorted results that is returned, for `n`
/// results: from the offset, at most `limit` of them (every remaining one
/// when there is no limit).
pub open spec fn page_range(n: int, offset: int, limit_arg: int) -> (int, int) {
    let limit = if limit_arg > 0 { limit_arg } else { n };
    (offset, if offset + limit < n { offset + limit } else { n })
}

/// No two results hold the same file.
pub open spec fn distinct_items<'a>(results: Seq<(&'a FileItem, Score)>) -> bool {
    forall|i: int, j: int| 0 <= i < j < results.len() ==> results[i].0 != results[j].0
}

/// The page of `results` in score order (see [`page_range`]): items, their
/// scores, and the number of results. An offset past the end gives an
/// empty page.
pub open spec fn paginated<'a>(results: Seq<(&'a FileItem, Score)>, p: PaginationArgs) -> (Seq<&'a FileItem>, Seq<Score>, nat) {
    let n = results.len();
    if n == 0 || p.offset >= n {
        (seq![], seq![], n)
    } else {
        let ord = rank_order(score_ranks(results));
        let (lo, hi) = page_range(n as int, p.offset as int, p.limit as int);
        (
            Seq::new((hi - lo) as nat, |k: int| results[ord[lo + k].2 as int].0),
            Seq::new((hi - lo) as nat, |k: int| results[ord[lo + k].2 as int].1),
            n,
        )
    }
}

proof fn lemma_page_range(n: int, offset: int, limit_arg: int)
    requires
        0 <= offset < n,
        limit_arg >= 0,
    ensures
        0 <= page_range(n, offset, limit_arg).0 <= page_range(n, offset, limit_arg).1 <= n,
{
}

/// Sort `results` by score (highest first, then most recently modified) and
/// cut the requested page (see [`paginated`]).
pub fn sort_and_paginate<'a>(results: Vec<(&'a FileItem, Score)>, context: &ScoringContext) -> (r: (Vec<&'a FileItem>, Vec<Score>, usize))
    ensures
        r.0@ == paginated(results@, context.pagination).0,
        r.1@ == paginated(results@, context.pagination).1,
        r.2 as nat == paginated(results@, context.pagination).2,
        distinct_items(results@) ==> r.0@.no_duplicates(),
{
    let total_matched = results.len();
    if total_matched == 0 {
        return (Vec::new(), Vec::new(), 0);
    }
    let offset = context.pagination.offset;
    if offset >= total_matched {
        return (Vec::new(), Vec::new(), total_matched);
    }
    let limit = if context.pagination.limit > 0 { context.pagination.limit } else { total_matched };
    let mut ranks: Vec<Rank> = Vec::new();
    let mut i: usize = 0;
    while i < total_matched
        invariant
            i <= total_matched == results@.len(),
            ranks@ == score_ranks(results@).take(i as int),
        decreases total_matched - i,
    {
        ranks.push((results[i].1.total as i64, results[i].0.modified, i));
        proof {
            assert(ranks@ =~= score_ranks(results@).take(i + 1));
        }
        i = i + 1;
    }
    proof {
        assert(ranks@ =~= score_ranks(results@));
    }
    let sorted = sort_ranks(ranks.as_slice());
    proof {
        lemma_rank_order(score_ranks(results@), sorted@);
        assert(sorted@.to_multiset().len() == sorted@.len());
        assert(ranks@.to_multiset().len() == ranks@.len());
        assert forall|t: int| 0 <= t < sorted@.len() implies (#[trigger] sorted@[t]).2 < total_matched by {
            let x = sorted@[t];
            assert(sorted@.contains(x));
            assert(sorted@.to_multiset().count(x) > 0);
            assert(ranks@.to_multiset().count(x) > 0);
            assert(ranks@.contains(x));
            let i = choose|i: int| 0 <= i < ranks@.len() && ranks@[i] == x;
            assert(ranks@[i].2 == i);
        }
    }
    let lo = offset;
    let hi = if limit < total_matched - offset { offset + limit } else { total_matched };
    proof {
        let pr = page_range(total_matched as int, offset as int, context.pagination.limit as int);
        assert(lo as int == pr.0 && hi as int == pr.1);
        lemma_page_range(total_matched as int, offset as int, context.pagination.limit as int);
    }
    let mut items: Vec<&'a FileItem> = Vec::new();
    let mut scores: Vec<Score> = Vec::new();
    let mut k = lo;
    let ghost ord = rank_order(score_ranks(results@));
    while k < hi
        invariant
            lo <= k <= hi <= total_matched == results@.len() == sorted@.len(),
            ord == sorted@,
            forall|t: int| 0 <= t < sorted@.len() ==> (#[trigger] sorted@[t]).2 < total_matched,
            items@.len() == k - lo,
            scores@.len() == k - lo,
            forall|t: int| 0 <= t < k - lo ==> #[trigger] items@[t] == results@[ord[lo + t].2 as int].0,
            forall|t: int| 0 <= t < k - lo ==> #[trigger] scores@[t] == results@[ord[lo + t].2 as int].1,
        decreases hi - k,
    {
        let p = sorted[k].2;
        items.push(results[p].0);
        scores.push(results[p].1.clone());
        k = k + 1;
    }
    proof {
        let pg = paginated(results@, context.pagination);
        assert(items@ =~= pg.0);
        assert(scores@ =~= pg.1);
        let rs = score_ranks(results@);
        assert forall|i: int, j: int| 0 <= i < ranks@.len() && 0 <= j < ranks@.len() && i != j implies ranks@[i] != ranks@[j] by {
            assert(ranks@[i].2 == i && ranks@[j].2 == j);
        }
        assert(ranks@.no_duplicates());
        ranks@.lemma_multiset_has_no_duplicates();
        assert forall|x: Rank| sorted@.to_multiset().contains(x) implies sorted@.to_multiset().count(x) == 1 by {
            assert(ranks@.to_multiset().contains(x));
        }
        sorted@.lemma_multiset_has_no_duplicates_conv();
        if distinct_items(results@) {
            assert forall|a: int, b: int| 0 <= a < items@.len() && 0 <= b < items@.len() && a != b implies items@[a] != items@[b] by {
                let x = sorted@[lo + a];
                let y = sorted@[lo + b];
                assert(x != y);
                assert(sorted@.contains(x) && sorted@.contains(y));
                assert(sorted@.to_multiset().count(x) > 0 && sorted@.to_multiset().count(y) > 0);
                assert(ranks@.contains(x) && ranks@.contains(y));
                let i = choose|i: int| 0 <= i < ranks@.len() && ranks@[i] == x;
                let j = choose|j: int| 0 <= j < ranks@.len() && ranks@[j] == y;
                assert(ranks@[i].2 == i && ranks@[j].2 == j);
                assert(i != j);
                assert(items@[a] == results@[x.2 as int].0);
                assert(items@[b] == results@[y.2 as int].0);
                if i < j {
                    assert(results@[i].0 != results@[j].0);
                } else {
                    assert(results@[j].0 != results@[i].0);
                }
            }
        }
    }
    (items, scores, total_matched)
}

/// `(file, score)` for each file of the frecency-only ranking.
pub open spec fn frecency_results<'a>(files: Seq<&'a FileItem>, current_file: Option<Seq<char>>) -> Seq<(&'a FileItem, Score)> {
    Seq::new(files.len(), |i: int| (files[i], frecency_score_spec(*files[i], current_file)))
}

/// Rank files by frecency alone (the ranking used when the query is too
/// short to match), then cut the requested page.
pub fn score_filtered_by_frecency<'a>(files: &[&'a FileItem], context: &ScoringContext) -> (r: (Vec<&'a FileItem>, Vec<Score>, usize))
    requires
        forall|i: int| 0 <= i < files@.len() ==> frecency_scorable(*#[trigger] files@[i]),
    ensures
        ({
            let p = paginated(frecency_results(files@, opt_str(context.current_file)), context.pagination);
            r.0@ == p.0 && r.1@ == p.1 && r.2 as nat == p.2
        }),
        files@.no_duplicates() ==> r.0@.no_duplicates(),
{
    let mut results: Vec<(&'a FileItem, Score)> = Vec::new();
    let mut i: usize = 0;
    while i < files.len()
        invariant
            i <= files@.len(),
            forall|j: int| 0 <= j < files@.len() ==> frecency_scorable(*#[trigger] files@[j]),
            results@ == frecency_results(files@, opt_str(context.current_file)).take(i as int),
        decreases files@.len() - i,
    {
        let file = files[i];
        proof {
            assert(frecency_scorable(*files@[i as int]));
        }
        let tf = file.access_frecency_score + sat_mul(file.modification_frecency_score, 4);
        let penalty = calculate_current_file_penalty(file, tf, context);
        let total = sat_add(tf, penalty);
        let score = Score {
            total,
            base_score: 0,
            filename_bonus: 0,
            special_filename_bonus: 0,
            frecency_boost: tf,
            git_status_boost: 0,
            distance_penalty: 0,
            current_file_penalty: penalty,
            combo_match_boost: 0,
            exact_match: false,
            match_type: "frecency",
        };
        results.push((file, score));
        proof {
            assert(results@ =~= frecency_results(files@, opt_str(context.current_file)).take(i + 1));
        }
        i = i + 1;
    }
    proof {
        assert(results@ =~= frecency_results(files@, opt_str(context.current_file)));
        if files@.no_duplicates() {
            assert forall|i: int, j: int| 0 <= i < j < results@.len() implies results@[i].0 != results@[j].0 by {
                assert(results@[i].0 == files@[i] && results@[j].0 == files@[j]);
            }
        }
    }
    sort_and_paginate(results, context)
}

/// A fuzzy match of the query against one path: the matched haystack,
/// its score, whether it matched exactly, and the byte offset where the
/// match starts.
#[derive(Clone, Copy)]
pub struct PathMatch {
    pub index: u32,
    pub score: u16,
    pub exact: bool,
    pub start: usize,
}

/// Byte offset at which the file name starts in the relative path.
pub open spec fn name_start(file: FileItem) -> int {
    let p = encode_utf8(file.relative_path@).len() as int;
    let n = encode_utf8(file.file_name@).len() as int;
    if p > n { p - n } else { 0 }
}

/// Boost for a file picked before for the same query: 1000 when no
/// repetition is required, the pick count times the multiplier once it
/// reaches the required count, five per pick before that.
pub open spec fn combo_boost_spec(file: FileItem, ctx: ScoringContext) -> int {
    match ctx.last_same_query_match {
        Some(e) => if e.file_path@ == file.path@ {
            if ctx.min_combo_count == 0 {
                1000
            } else if e.open_count >= ctx.min_combo_count {
                (e.open_count as i32) * ctx.combo_boost_score_multiplier
            } else {
                (e.open_count as i32) * 5
            }
        } else {
            0
        },
        None => 0,
    }
}

/// The score of a fuzzy path match: the match score, a frecency boost
/// proportional to it, the directory distance penalty, a bonus when the
/// match lies in the file name (40% for an exact one, a sixth capped at 30
/// otherwise) or 5% for entry-point files, the current-file penalty and the
/// repeat-pick boost, summed with saturation.
pub open spec fn path_match_score(file: FileItem, m: PathMatch, ctx: ScoringContext, query_has_separator: bool, distance_penalty: i32) -> Score {
    let base = m.score as int;
    let frecency_boost = tdiv(clamp_i32(base * file.total_frecency_score), 100);
    let is_filename_match = !query_has_separator && m.start >= name_start(file);
    let special = !(m.exact && is_filename_match) && !(is_filename_match && m.score > 0) && is_special_entry_point(file.file_name@);
    let filename_bonus = if m.exact && is_filename_match {
        (m.score as int / 5) * 2
    } else if is_filename_match && m.score > 0 {
        if base / 6 < 30 { base / 6 } else { 30 }
    } else if special {
        base * 5 / 100
    } else {
        0
    };
    let penalty = current_file_penalty_spec(file, base, opt_str(ctx.current_file));
    let combo = combo_boost_spec(file, ctx);
    let total = clamp_i32(clamp_i32(clamp_i32(clamp_i32(clamp_i32(base + frecency_boost) + distance_penalty) + filename_bonus) + penalty) + combo);
    Score {
        total: total as i32,
        base_score: base as i32,
        filename_bonus: filename_bonus as i32,
        special_filename_bonus: if special { filename_bonus as i32 } else { 0 },
        frecency_boost: frecency_boost as i32,
        git_status_boost: 0,
        distance_penalty,
        current_file_penalty: penalty as i32,
        combo_match_boost: combo as i32,
        exact_match: m.exact,
        match_type: if m.exact && is_filename_match {
            "exact_filename"
        } else if is_filename_match {
            "fuzzy_filename"
        } else {
            "fuzzy_path"
        },
    }
}

/// The repeat-pick boost fits in `i32`.
pub open spec fn combo_fits(ctx: ScoringContext) -> bool {
    match ctx.last_same_query_match {
        Some(e) => {
            &&& i32::MIN <= (e.open_count as i32) * ctx.combo_boost_score_multiplier <= i32::MAX
            &&& i32::MIN <= (e.open_count as i32) * 5 <= i32::MAX
        },
        None => true,
    }
}

/// Score one fuzzy path match (see [`path_match_score`]).
pub fn score_path_match(file: &FileItem, m: PathMatch, context: &ScoringContext, query_has_separator: bool, distance_penalty: i32) -> (r: Score)
    requires
        combo_fits(*context),
    ensures
        r == path_match_score(*file, m, *context, query_has_separator, distance_penalty),
{
    let base_score = m.score as i32;
    let frecency_boost = sat_mul(base_score, file.total_frecency_score) / 100;
    let path_len = file.relative_path.as_str().as_bytes().len();
    let name_len = file.file_name.as_str().as_bytes().len();
    let start = if path_len > name_len { path_len - name_len } else { 0 };
    let is_filename_match = !query_has_separator && m.start >= start;
    let mut special = false;
    let filename_bonus = if m.exact && is_filename_match {
        m.score as i32 / 5 * 2
    } else if is_filename_match && m.score > 0 {
        let b = base_score / 6;
        if b < 30 { b } else { 30 }
    } else if is_special_entry_point_file(file.file_name.as_str()) {
        special = true;
        base_score * 5 / 100
    } else {
        0
    };
    let penalty = calculate_current_file_penalty(file, base_score, context);
    let combo: i32 = match &context.last_same_query_match {
        Some(e) => if str_eq(e.file_path.as_str(), file.path.as_str()) {
            if context.min_combo_count == 0 {
                1000
            } else if e.open_count >= context.min_combo_count {
                #[verifier::truncate] (e.open_count as i32) * context.combo_boost_score_multiplier
            } else {
                #[verifier::truncate] (e.open_count as i32) * 5
            }
        } else {
            0
        },
        None => 0,
    };
    let total = sat_add(sat_add(sat_add(sat_add(sat_add(base_score, frecency_boost), distance_penalty), filename_bonus), penalty), combo);
    let match_type = if m.exact && is_filename_match {
        "exact_filename"
    } else if is_filename_match {
        "fuzzy_filename"
    } else {
        "fuzzy_path"
    };
    Score {
        total,
        base_score,
        filename_bonus,
        special_filename_bonus: if special { filename_bonus } else { 0 },
        frecency_boost,
        git_status_boost: 0,
        distance_penalty,
        current_file_penalty: penalty,
        combo_match_boost: combo,
        exact_match: m.exact,
        match_type,
    }
}

/// A file's frecency raises its fuzzy-search score. The frecency boost is
/// the match score times the file's total frecency, over 100. Of two files
/// that differ only in total frecency, matched alike, the one ahead by
/// enough frecency to move the boost (match score times the difference at
/// least 100) gets a strictly higher total, when no sum saturates.
pub proof fn lemma_frecency_raises_fuzzy_score(file: FileItem, higher: i32, m: PathMatch, ctx: ScoringContext, query_has_separator: bool, distance_penalty: i32)
    requires
        0 <= file.total_frecency_score <= higher,
        m.score as int * higher <= 100_000_000,
        m.score as int * (higher - file.total_frecency_score) >= 100,
        -500_000_000 <= distance_penalty <= 500_000_000,
        -500_000_000 <= combo_boost_spec(file, ctx) <= 500_000_000,
    ensures
        ({
            let other = FileItem { total_frecency_score: higher, ..file };
            let s1 = path_match_score(file, m, ctx, query_has_separator, distance_penalty);
            let s2 = path_match_score(other, m, ctx, query_has_separator, distance_penalty);
            &&& s1.frecency_boost as int == (m.score as int * file.total_frecency_score) / 100
            &&& s2.frecency_boost as int == (m.score as int * higher) / 100
            &&& s2.frecency_boost > s1.frecency_boost
            &&& s2.total > s1.total
        }),
{
    let other = FileItem { total_frecency_score: higher, ..file };
    let base = m.score as int;
    let f1 = file.total_frecency_score as int;
    let f2 = higher as int;
    assert(0 <= base * f1 <= base * f2 - 100) by (nonlinear_arith)
        requires
            0 <= f1 <= f2,
            0 <= base,
            base * (f2 - f1) >= 100,
    ;
    let b1 = (base * f1) / 100;
    let b2 = (base * f2) / 100;
    assert(b2 >= b1 + 1 && b2 <= 1_000_000 && b1 >= 0) by (nonlinear_arith)
        requires
            0 <= base * f1 <= base * f2 - 100,
            base * f2 <= 100_000_000,
            b1 == (base * f1) / 100,
            b2 == (base * f2) / 100,
    ;
    assert(clamp_i32(base * f1) == base * f1);
    assert(clamp_i32(base * f2) == base * f2);
    let s1 = path_match_score(file, m, ctx, query_has_separator, distance_penalty);
    let s2 = path_match_score(other, m, ctx, query_has_separator, distance_penalty);
    assert(s1.frecency_boost as int == b1);
    assert(s2.frecency_boost as int == b2);
    let pen = current_file_penalty_spec(file, base, opt_str(ctx.current_file));
    assert(current_file_penalty_spec(other, base, opt_str(ctx.current_file)) == pen);
    assert(-65535 <= pen <= 0);
    assert(combo_boost_spec(other, ctx) == combo_boost_spec(file, ctx));
    assert(name_start(other) == name_start(file));
    assert(s1.filename_bonus == s2.filename_bonus);
    assert(0 <= s1.filename_bonus <= 65535);
}

} // verus!
