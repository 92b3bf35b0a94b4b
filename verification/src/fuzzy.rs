//! Fuzzy file search: the parts of the query matched against the relative
//! paths by the fuzzy matcher, then scored and ordered.

use vstd::prelude::*;
use vstd::utf8::{encode_utf8, decode_utf8, valid_utf8};
use vstd::string::{StringSliceAdditionalSpecFns, StrSliceExecFns};
use crate::types::{FileItem, PaginationArgs, Score};
use crate::ffi_json::{Location, SearchResult};
use crate::score::{
    combo_fits, frecency_results, frecency_scorable, opt_str, paginated, path_match_score, score_filtered_by_frecency,
    score_path_match, sort_and_paginate, PathMatch, QueryMatchEntry, ScoringContext,
};
use crate::text::{chars_of, trim, trim_bounds, utf8_to_string};
use crate::grep::{
    char_start, display_chars, display_prefix, fit_from, fuzzy_accepts, fuzzy_match_accepted, merge_char_ranges,
    ranges_int, char_indices_to_byte_offsets, GrepMatch, MAX_LINE_DISPLAY_LEN,
};

verus! {

/// Prefix bonus of the matcher's default scoring.
pub const DEFAULT_PREFIX_BONUS: u16 = 12;

/// Exact-match bonus of the matcher's default scoring.
pub const DEFAULT_EXACT_MATCH_BONUS: u16 = 8;

/// The settings a fuzzy match runs with: the typo budget and the scoring
/// bonuses that differ between searches (the others keep their defaults).
#[derive(Clone, Copy)]
pub struct MatchConfig {
    pub max_typos: u16,
    pub capitalization_bonus: u16,
    pub matching_case_bonus: u16,
    pub exact_match_bonus: u16,
    pub prefix_bonus: u16,
}

impl MatchConfig {
    pub open spec fn knobs(self) -> (u16, u16, u16, u16, u16) {
        (self.max_typos, self.capitalization_bonus, self.matching_case_bonus, self.exact_match_bonus, self.prefix_bonus)
    }
}

/// What the matcher reports for a needle over a list of haystacks, in
/// haystack order: `(haystack index, score, exact)` for each haystack that
/// matched.
pub uninterp spec fn fuzzy_list_matches(needle: Seq<char>, haystack: Seq<Seq<char>>, config: (u16, u16, u16, u16, u16)) -> Seq<(u32, u16, bool)>;

/// What the matcher reports for a needle against one haystack: the score,
/// whether it matched exactly, and the byte positions of the matched
/// characters; `None` when it does not match.
pub uninterp spec fn fuzzy_one_indices(needle: Seq<char>, haystack: Seq<char>, config: (u16, u16, u16, u16, u16)) -> Option<(u16, bool, Seq<u32>)>;

/// The strings of a list of string slices.
pub open spec fn str_views(s: Seq<&str>) -> Seq<Seq<char>> {
    s.map_values(|x: &str| x@)
}

/// One match of a needle in a list of haystacks.
#[derive(Clone, Copy)]
pub struct ListMatch {
    pub index: u32,
    pub score: u16,
    pub exact: bool,
}

pub open spec fn list_views(s: Seq<ListMatch>) -> Seq<(u32, u16, bool)> {
    s.map_values(|m: ListMatch| (m.index, m.score, m.exact))
}

/// `neo_frizbee::Matcher::match_list`, unsorted, with the given typo budget
/// and bonuses. Claimed: the result is [`fuzzy_list_matches`] of the
/// arguments, every reported index is an index of the haystack list, and
/// unsorted matching reports the haystacks in list order, each at most
/// once (indices strictly increasing). The matcher panics on lists longer
/// than `u32::MAX`.
#[verifier::external_body]
fn fuzzy_match_list(needle: &str, haystack: &[&str], config: MatchConfig) -> (r: Vec<ListMatch>)
    requires
        haystack@.len() <= u32::MAX,
    ensures
        list_views(r@) == fuzzy_list_matches(needle@, str_views(haystack@), config.knobs()),
        forall|i: int| 0 <= i < r@.len() ==> ((#[trigger] r@[i]).index as int) < haystack@.len(),
        forall|i: int, j: int| 0 <= i < j < r@.len() ==> (#[trigger] r@[i]).index < (#[trigger] r@[j]).index,
{
    let scoring = neo_frizbee::Scoring {
        capitalization_bonus: config.capitalization_bonus,
        matching_case_bonus: config.matching_case_bonus,
        exact_match_bonus: config.exact_match_bonus,
        prefix_bonus: config.prefix_bonus,
        ..Default::default()
    };
    let sort = neo_frizbee::SortStrategy::Unsorted;
    let cfg = neo_frizbee::Config { max_typos: Some(config.max_typos), sort, scoring, ..Default::default() };
    let found = neo_frizbee::Matcher::new(needle, &cfg).match_list(haystack);
    found.into_iter().map(|m| ListMatch { index: m.index, score: m.score, exact: m.exact }).collect()
}

/// `neo_frizbee::Matcher::match_one_indices` with the given typo budget and
/// bonuses. Claimed: the result is [`fuzzy_one_indices`] of the arguments,
/// and the matched positions come in reverse order (as `MatchIndices`
/// documents), so each is larger than the next.
#[verifier::external_body]
fn fuzzy_match_one_indices(needle: &str, haystack: &str, config: MatchConfig) -> (r: Option<(u16, bool, Vec<u32>)>)
    ensures
        match r {
            Some(t) => fuzzy_one_indices(needle@, haystack@, config.knobs()) == Some((t.0, t.1, t.2@)),
            None => fuzzy_one_indices(needle@, haystack@, config.knobs()) is None,
        },
        r matches Some(t) ==> forall|i: int, j: int| 0 <= i < j < t.2@.len() ==> t.2@[i] > t.2@[j],
{
    let scoring = neo_frizbee::Scoring {
        capitalization_bonus: config.capitalization_bonus,
        matching_case_bonus: config.matching_case_bonus,
        exact_match_bonus: config.exact_match_bonus,
        prefix_bonus: config.prefix_bonus,
        ..Default::default()
    };
    let cfg = neo_frizbee::Config { max_typos: Some(config.max_typos), scoring, ..Default::default() };
    let found = neo_frizbee::Matcher::new(needle, &cfg).match_one_indices(haystack, 0);
    found.map(|m| (m.score, m.exact, m.indices))
}

/// Byte length of a string.
pub open spec fn byte_len(s: Seq<char>) -> int {
    encode_utf8(s).len() as int
}

/// The parts of at least two bytes, in order.
pub open spec fn valid_parts(parts: Seq<Seq<char>>) -> Seq<Seq<char>>
    decreases parts.len(),
{
    if parts.len() == 0 {
        seq![]
    } else if byte_len(parts.last()) >= 2 {
        valid_parts(parts.drop_last()).push(parts.last())
    } else {
        valid_parts(parts.drop_last())
    }
}

/// The settings a later part is matched with: the typo budget capped at
/// the part's byte length (truncated to 16 bits).
pub open spec fn part_knobs(c: (u16, u16, u16, u16, u16), part: Seq<char>) -> (u16, u16, u16, u16, u16) {
    let len = byte_len(part) as u16;
    (if c.0 < len { c.0 } else { len }, c.1, c.2, c.3, c.4)
}

/// `a + b` capped at `u16::MAX`.
pub open spec fn sat_u16(a: u16, b: u16) -> u16 {
    if a + b > u16::MAX { u16::MAX } else { (a + b) as u16 }
}

/// The matches that also match `part` on their own path, with the part's
/// score added.
pub open spec fn refine(ms: Seq<(u32, u16, bool)>, part: Seq<char>, haystack: Seq<Seq<char>>, c: (u16, u16, u16, u16, u16)) -> Seq<(u32, u16, bool)>
    decreases ms.len(),
{
    if ms.len() == 0 {
        seq![]
    } else {
        let rest = refine(ms.drop_last(), part, haystack, c);
        let m = ms.last();
        if (m.0 as int) < haystack.len() {
            let pm = fuzzy_list_matches(part, seq![haystack[m.0 as int]], part_knobs(c, part));
            if pm.len() > 0 {
                rest.push((m.0, sat_u16(m.1, pm[0].1), m.2))
            } else {
                rest
            }
        } else {
            rest
        }
    }
}

/// [`refine`] by each of `parts` in turn.
pub open spec fn refine_all(ms: Seq<(u32, u16, bool)>, parts: Seq<Seq<char>>, haystack: Seq<Seq<char>>, c: (u16, u16, u16, u16, u16)) -> Seq<(u32, u16, bool)>
    decreases parts.len(),
{
    if parts.len() == 0 {
        ms
    } else {
        refine_all(refine(ms, parts[0], haystack, c), parts.drop_first(), haystack, c)
    }
}

/// Matches of a multi-part query: the first valid part over all paths,
/// then narrowed by each later valid part.
pub open spec fn parts_matches(parts: Seq<Seq<char>>, haystack: Seq<Seq<char>>, c: (u16, u16, u16, u16, u16)) -> Seq<(u32, u16, bool)> {
    let vp = valid_parts(parts);
    if vp.len() == 0 {
        seq![]
    } else {
        refine_all(fuzzy_list_matches(vp[0], haystack, c), vp.drop_first(), haystack, c)
    }
}

proof fn lemma_refine_empty(parts: Seq<Seq<char>>, haystack: Seq<Seq<char>>, c: (u16, u16, u16, u16, u16))
    ensures
        refine_all(seq![], parts, haystack, c) == Seq::<(u32, u16, bool)>::empty(),
    decreases parts.len(),
{
    if parts.len() > 0 {
        lemma_refine_empty(parts.drop_first(), haystack, c);
    }
}

proof fn lemma_refine_bounded(ms: Seq<(u32, u16, bool)>, part: Seq<char>, haystack: Seq<Seq<char>>, c: (u16, u16, u16, u16, u16))
    ensures
        forall|i: int| 0 <= i < refine(ms, part, haystack, c).len() ==> ((#[trigger] refine(ms, part, haystack, c)[i]).0 as int) < haystack.len(),
    decreases ms.len(),
{
    if ms.len() > 0 {
        lemma_refine_bounded(ms.drop_last(), part, haystack, c);
        let rest = refine(ms.drop_last(), part, haystack, c);
        let r = refine(ms, part, haystack, c);
        assert forall|i: int| 0 <= i < r.len() implies ((#[trigger] r[i]).0 as int) < haystack.len() by {
            if i < rest.len() {
                assert(r[i] == rest[i]);
            }
        }
    }
}

/// The indices of `ms` strictly increase.
pub open spec fn indices_increasing(ms: Seq<(u32, u16, bool)>) -> bool {
    forall|i: int, j: int| 0 <= i < j < ms.len() ==> (#[trigger] ms[i]).0 < (#[trigger] ms[j]).0
}

proof fn lemma_refine_increasing(ms: Seq<(u32, u16, bool)>, part: Seq<char>, haystack: Seq<Seq<char>>, c: (u16, u16, u16, u16, u16), bound: int)
    requires
        indices_increasing(ms),
        forall|j: int| 0 <= j < ms.len() ==> ((#[trigger] ms[j]).0 as int) < bound,
    ensures
        indices_increasing(refine(ms, part, haystack, c)),
        forall|i: int| 0 <= i < refine(ms, part, haystack, c).len() ==> ((#[trigger] refine(ms, part, haystack, c)[i]).0 as int) < bound,
    decreases ms.len(),
{
    if ms.len() > 0 {
        let d = ms.drop_last();
        let last = ms.last();
        assert forall|j: int| 0 <= j < d.len() implies ((#[trigger] d[j]).0 as int) < last.0 by {
            assert(d[j] == ms[j]);
            assert(ms[ms.len() - 1] == last);
        }
        lemma_refine_increasing(d, part, haystack, c, last.0 as int);
        let rest = refine(d, part, haystack, c);
        let r = refine(ms, part, haystack, c);
        assert(ms[ms.len() - 1] == last);
        assert forall|i: int| 0 <= i < r.len() implies ((#[trigger] r[i]).0 as int) < bound by {
            if i < rest.len() {
                assert(r[i] == rest[i]);
            }
        }
        assert forall|i: int, j: int| 0 <= i < j < r.len() implies (#[trigger] r[i]).0 < (#[trigger] r[j]).0 by {
            assert(r[i] == rest[i]);
            if j < rest.len() {
                assert(r[j] == rest[j]);
            }
        }
    }
}

proof fn lemma_refine_all_increasing(ms: Seq<(u32, u16, bool)>, parts: Seq<Seq<char>>, haystack: Seq<Seq<char>>, c: (u16, u16, u16, u16, u16), bound: int)
    requires
        indices_increasing(ms),
        forall|j: int| 0 <= j < ms.len() ==> ((#[trigger] ms[j]).0 as int) < bound,
    ensures
        indices_increasing(refine_all(ms, parts, haystack, c)),
    decreases parts.len(),
{
    if parts.len() > 0 {
        lemma_refine_increasing(ms, parts[0], haystack, c, bound);
        lemma_refine_all_increasing(refine(ms, parts[0], haystack, c), parts.drop_first(), haystack, c, bound);
    }
}

fn valid_parts_of<'q>(parts: &[&'q str]) -> (r: Vec<&'q str>)
    ensures
        str_views(r@) == valid_parts(str_views(parts@)),
{
    let mut r: Vec<&'q str> = Vec::new();
    let mut i: usize = 0;
    while i < parts.len()
        invariant
            i <= parts@.len(),
            str_views(r@) == valid_parts(str_views(parts@.take(i as int))),
        decreases parts@.len() - i,
    {
        let p = parts[i];
        proof {
            let t = str_views(parts@.take(i + 1));
            assert(t.drop_last() =~= str_views(parts@.take(i as int)));
            assert(t.last() == p@);
        }
        if p.as_bytes().len() >= 2 {
            r.push(p);
            proof {
                assert(str_views(r@) =~= valid_parts(str_views(parts@.take(i as int))).push(p@));
            }
        }
        i = i + 1;
    }
    proof {
        assert(parts@.take(parts@.len() as int) =~= parts@);
    }
    r
}

/// [`refine`] of `ms` by `part`.
fn refine_matches(ms: &Vec<ListMatch>, part: &str, haystack: &[&str], config: MatchConfig) -> (r: Vec<ListMatch>)
    ensures
        list_views(r@) == refine(list_views(ms@), part@, str_views(haystack@), config.knobs()),
{
    let len16: u16 = #[verifier::truncate] (part.as_bytes().len() as u16);
    let part_config = MatchConfig {
        max_typos: if config.max_typos < len16 { config.max_typos } else { len16 },
        ..config
    };
    proof {
        assert(part_config.knobs() == part_knobs(config.knobs(), part@));
    }
    let mut r: Vec<ListMatch> = Vec::new();
    let mut i: usize = 0;
    while i < ms.len()
        invariant
            i <= ms@.len(),
            part_config.knobs() == part_knobs(config.knobs(), part@),
            list_views(r@) == refine(list_views(ms@.take(i as int)), part@, str_views(haystack@), config.knobs()),
        decreases ms@.len() - i,
    {
        let m = ms[i];
        proof {
            let t = list_views(ms@.take(i + 1));
            assert(t.drop_last() =~= list_views(ms@.take(i as int)));
            assert(t.last() == (m.index, m.score, m.exact));
        }
        let idx = m.index as usize;
        if idx < haystack.len() {
            let one: [&str; 1] = [haystack[idx]];
            proof {
                assert(str_views(one@) =~= seq![str_views(haystack@)[idx as int]]);
            }
            let pm = fuzzy_match_list(part, &one, part_config);
            if pm.len() > 0 {
                let total: u32 = m.score as u32 + pm[0].score as u32;
                let score: u16 = if total > 65535 { 65535 } else { total as u16 };
                r.push(ListMatch { index: m.index, score, exact: m.exact });
                proof {
                    assert(list_views(pm@)[0] == (pm@[0].index, pm@[0].score, pm@[0].exact));
                    assert(list_views(r@) =~= refine(list_views(ms@.take(i as int)), part@, str_views(haystack@), config.knobs()).push((m.index, score, m.exact)));
                }
            } else {
                proof {
                    assert(list_views(pm@).len() == 0);
                }
            }
        }
        i = i + 1;
    }
    proof {
        assert(ms@.take(ms@.len() as int) =~= ms@);
    }
    r
}

/// Match the parts of a query against the haystack paths (see
/// [`parts_matches`]): parts shorter than two bytes are ignored, the
/// first remaining part is matched over all paths, and each later part
/// keeps only the paths it also matches, adding its score (capped at
/// `u16::MAX`) and allowing at most as many typos as it has bytes.
pub fn match_fuzzy_parts(parts: &[&str], haystack: &[&str], config: MatchConfig) -> (r: Vec<ListMatch>)
    requires
        haystack@.len() <= u32::MAX,
    ensures
        list_views(r@) == parts_matches(str_views(parts@), str_views(haystack@), config.knobs()),
        forall|i: int| 0 <= i < r@.len() ==> ((#[trigger] r@[i]).index as int) < haystack@.len(),
        forall|i: int, j: int| 0 <= i < j < r@.len() ==> (#[trigger] r@[i]).index < (#[trigger] r@[j]).index,
{
    let valid = valid_parts_of(parts);
    if valid.len() == 0 {
        return Vec::new();
    }
    let ghost vp = str_views(valid@);
    let ghost hs = str_views(haystack@);
    let mut matches = fuzzy_match_list(valid[0], haystack, config);
    proof {
        assert(vp[0] == valid@[0]@);
        assert(vp.drop_first() =~= vp.subrange(1, vp.len() as int));
        let lv = list_views(matches@);
        assert forall|j: int| 0 <= j < lv.len() implies ((#[trigger] lv[j]).0 as int) < haystack@.len() by {
            assert(lv[j].0 == matches@[j].index);
        }
        assert forall|i: int, j: int| 0 <= i < j < lv.len() implies (#[trigger] lv[i]).0 < (#[trigger] lv[j]).0 by {
            assert(lv[i].0 == matches@[i].index && lv[j].0 == matches@[j].index);
        }
        lemma_refine_all_increasing(lv, vp.subrange(1, vp.len() as int), hs, config.knobs(), haystack@.len() as int);
    }
    let ghost target = refine_all(list_views(matches@), vp.subrange(1, vp.len() as int), hs, config.knobs());
    let mut k: usize = 1;
    while k < valid.len() && matches.len() > 0
        invariant
            1 <= k <= valid@.len(),
            vp == str_views(valid@),
            hs == str_views(haystack@),
            refine_all(list_views(matches@), vp.subrange(k as int, vp.len() as int), hs, config.knobs()) == target,
            indices_increasing(target),
            forall|i: int| 0 <= i < matches@.len() ==> ((#[trigger] matches@[i]).index as int) < haystack@.len(),
        decreases valid@.len() - k,
    {
        let ghost before = list_views(matches@);
        let next = refine_matches(&matches, valid[k], haystack, config);
        proof {
            let rest = vp.subrange(k as int, vp.len() as int);
            assert(rest[0] == valid@[k as int]@);
            assert(rest.drop_first() =~= vp.subrange(k + 1, vp.len() as int));
            lemma_refine_bounded(before, rest[0], hs, config.knobs());
            assert forall|i: int| 0 <= i < next@.len() implies ((#[trigger] next@[i]).index as int) < haystack@.len() by {
                assert(list_views(next@)[i].0 == next@[i].index);
            }
        }
        matches = next;
        k = k + 1;
    }
    proof {
        if matches.len() == 0 {
            lemma_refine_empty(vp.subrange(k as int, vp.len() as int), hs, config.knobs());
            assert(list_views(matches@) =~= Seq::<(u32, u16, bool)>::empty());
        } else {
            assert(vp.subrange(vp.len() as int, vp.len() as int) =~= Seq::<Seq<char>>::empty());
        }
        let lv = list_views(matches@);
        assert(lv == target);
        assert forall|i: int, j: int| 0 <= i < j < matches@.len() implies (#[trigger] matches@[i]).index < (#[trigger] matches@[j]).index by {
            assert(lv[i].0 == matches@[i].index && lv[j].0 == matches@[j].index);
        }
    }
    matches
}

/// Whether a character has the Unicode `Uppercase` property.
pub uninterp spec fn is_uppercase_char(c: char) -> bool;

/// `char::is_uppercase`. Claimed: the result is [`is_uppercase_char`].
#[verifier::external_body]
pub(crate) fn char_is_uppercase(c: char) -> (r: bool)
    ensures
        r == is_uppercase_char(c),
{
    c.is_uppercase()
}

/// The fuzzy part of a parsed query.
pub enum FuzzyQuery<'q> {
    /// Nothing to match on.
    Empty,
    /// A single fuzzy term.
    Text(&'q str),
    /// Several whitespace-separated terms.
    Parts(Vec<&'q str>),
}

/// The parts a query is matched with, or `None` when the files are ranked
/// by frecency alone: without a parsed query, the trimmed raw query when it
/// has at least two bytes; a single term of at least two bytes; all of a
/// non-empty list of terms.
pub open spec fn query_parts(fuzzy: Option<FuzzyQuery>, raw_query: Seq<char>) -> Option<Seq<Seq<char>>> {
    match fuzzy {
        None => if byte_len(trim(raw_query)) < 2 { None } else { Some(seq![trim(raw_query)]) },
        Some(FuzzyQuery::Text(t)) => if byte_len(t@) >= 2 { Some(seq![t@]) } else { None },
        Some(FuzzyQuery::Parts(ps)) => if ps@.len() > 0 { Some(str_views(ps@)) } else { None },
        Some(FuzzyQuery::Empty) => None,
    }
}

/// Whether some part has an uppercase character.
pub open spec fn parts_have_uppercase(parts: Seq<Seq<char>>) -> bool {
    exists|i: int, j: int| 0 <= i < parts.len() && 0 <= j < parts[i].len() && is_uppercase_char(#[trigger] parts[i][j])
}

/// Whether some part contains a path separator.
pub open spec fn parts_have_separator(parts: Seq<Seq<char>>) -> bool {
    exists|i: int, j: int| 0 <= i < parts.len() && 0 <= j < parts[i].len() && #[trigger] parts[i][j] == '/'
}

/// Matcher settings for paths: the query's typo budget, and case bonuses
/// only when the query has uppercase characters.
pub open spec fn path_knobs(max_typos: u16, upper: bool) -> (u16, u16, u16, u16, u16) {
    (max_typos, if upper { 8 } else { 0 }, if upper { 4 } else { 0 }, DEFAULT_EXACT_MATCH_BONUS, DEFAULT_PREFIX_BONUS)
}

/// Smallest element, or 0 for an empty sequence.
pub open spec fn seq_min(s: Seq<u32>) -> u32
    decreases s.len(),
{
    if s.len() == 0 {
        0
    } else if s.len() == 1 {
        s[0]
    } else {
        let m = seq_min(s.drop_last());
        if s.last() < m { s.last() } else { m }
    }
}

/// Byte offset where the needle's best alignment starts in `haystack`: the
/// smallest matched position (0 when there is none).
pub open spec fn start_of(needle: Seq<char>, haystack: Seq<char>, c: (u16, u16, u16, u16, u16)) -> u32 {
    match fuzzy_one_indices(needle, haystack, c) {
        Some(t) => seq_min(t.2),
        None => 0,
    }
}

/// Relative paths of the files.
pub open spec fn path_views(files: Seq<&FileItem>) -> Seq<Seq<char>> {
    Seq::new(files.len(), |i: int| files[i].relative_path@)
}

/// Each fuzzy match of the parts, with its file and score.
pub open spec fn scored_matches<'a>(files: Seq<&'a FileItem>, penalties: Seq<i32>, parts: Seq<Seq<char>>, ctx: ScoringContext) -> Seq<(&'a FileItem, Score)> {
    let hs = path_views(files);
    let c = path_knobs(ctx.max_typos, parts_have_uppercase(parts));
    let ms = parts_matches(parts, hs, c);
    let vp = valid_parts(parts);
    Seq::new(ms.len(), |k: int| {
        let i = ms[k].0 as int;
        let pm = PathMatch { index: ms[k].0, score: ms[k].1, exact: ms[k].2, start: start_of(vp[0], hs[i], c) as usize };
        (files[i], path_match_score(*files[i], pm, ctx, parts_have_separator(parts), penalties[i]))
    })
}

/// The result of a file search: nothing for no files; the frecency ranking
/// when the query has nothing to match on; otherwise the fuzzy matches,
/// scored, ordered and paginated.
pub open spec fn match_and_score_spec<'a>(files: Seq<&'a FileItem>, penalties: Seq<i32>, fuzzy: Option<FuzzyQuery>, ctx: ScoringContext) -> (Seq<&'a FileItem>, Seq<Score>, nat) {
    if files.len() == 0 {
        (seq![], seq![], 0)
    } else {
        match query_parts(fuzzy, ctx.raw_query@) {
            None => paginated(frecency_results(files, opt_str(ctx.current_file)), ctx.pagination),
            Some(parts) => paginated(scored_matches(files, penalties, parts, ctx), ctx.pagination),
        }
    }
}

fn any_uppercase(parts: &[&str]) -> (r: bool)
    ensures
        r == parts_have_uppercase(str_views(parts@)),
{
    let ghost ps = str_views(parts@);
    let mut i: usize = 0;
    while i < parts.len()
        invariant
            i <= parts@.len(),
            ps == str_views(parts@),
            forall|a: int, b: int| 0 <= a < i && 0 <= b < ps[a].len() ==> !is_uppercase_char(#[trigger] ps[a][b]),
        decreases parts@.len() - i,
    {
        let cs = chars_of(parts[i]);
        let mut j: usize = 0;
        while j < cs.len()
            invariant
                i < parts@.len(),
                j <= cs@.len(),
                ps == str_views(parts@),
                cs@ == ps[i as int],
                forall|a: int, b: int| 0 <= a < i && 0 <= b < ps[a].len() ==> !is_uppercase_char(#[trigger] ps[a][b]),
                forall|b: int| 0 <= b < j ==> !is_uppercase_char(#[trigger] ps[i as int][b]),
            decreases cs@.len() - j,
        {
            if char_is_uppercase(cs[j]) {
                return true;
            }
            j = j + 1;
        }
        i = i + 1;
    }
    false
}

fn any_separator(parts: &[&str]) -> (r: bool)
    ensures
        r == parts_have_separator(str_views(parts@)),
{
    let ghost ps = str_views(parts@);
    let mut i: usize = 0;
    while i < parts.len()
        invariant
            i <= parts@.len(),
            ps == str_views(parts@),
            forall|a: int, b: int| 0 <= a < i && 0 <= b < ps[a].len() ==> #[trigger] ps[a][b] != '/',
        decreases parts@.len() - i,
    {
        let cs = chars_of(parts[i]);
        let mut j: usize = 0;
        while j < cs.len()
            invariant
                i < parts@.len(),
                j <= cs@.len(),
                ps == str_views(parts@),
                cs@ == ps[i as int],
                forall|a: int, b: int| 0 <= a < i && 0 <= b < ps[a].len() ==> #[trigger] ps[a][b] != '/',
                forall|b: int| 0 <= b < j ==> #[trigger] ps[i as int][b] != '/',
            decreases cs@.len() - j,
        {
            if cs[j] == '/' {
                return true;
            }
            j = j + 1;
        }
        i = i + 1;
    }
    false
}

fn min_index(ix: &Vec<u32>) -> (r: u32)
    ensures
        r == seq_min(ix@),
{
    let mut m: u32 = 0;
    let mut i: usize = 0;
    while i < ix.len()
        invariant
            i <= ix@.len(),
            m == seq_min(ix@.take(i as int)),
        decreases ix@.len() - i,
    {
        proof {
            assert(ix@.take(i + 1).drop_last() =~= ix@.take(i as int));
        }
        if i == 0 || ix[i] < m {
            m = ix[i];
        }
        i = i + 1;
    }
    proof {
        assert(ix@.take(ix@.len() as int) =~= ix@);
    }
    m
}

/// Where the best alignment of `needle` starts in `haystack` (see [`start_of`]).
fn match_start(needle: &str, haystack: &str, config: MatchConfig) -> (r: u32)
    ensures
        r == start_of(needle@, haystack@, config.knobs()),
{
    match fuzzy_match_one_indices(needle, haystack, config) {
        Some(t) => min_index(&t.2),
        None => 0,
    }
}

/// The trimmed query.
fn trimmed(s: &str) -> (r: &str)
    ensures
        r@ == trim(s@),
{
    let cs = chars_of(s);
    let (a, b) = trim_bounds(&cs, 0, cs.len());
    proof {
        assert(cs@.subrange(0, cs@.len() as int) =~= cs@);
    }
    s.substring_char(a, b)
}

/// Rank `files` for a query (see [`match_and_score_spec`]): the parts of
/// the query are fuzzy-matched against the relative paths, each match is
/// scored with the file's `distance_penalties` entry, and the requested
/// page of the ordered results is returned with the number of results.
pub fn match_and_score_files<'a>(
    files: &[&'a FileItem],
    fuzzy_query: &Option<FuzzyQuery>,
    distance_penalties: &[i32],
    context: &ScoringContext,
) -> (r: (Vec<&'a FileItem>, Vec<Score>, usize))
    requires
        files@.len() <= u32::MAX,
        distance_penalties@.len() == files@.len(),
        combo_fits(*context),
        query_parts(*fuzzy_query, context.raw_query@) is None ==> forall|i: int|
            0 <= i < files@.len() ==> frecency_scorable(*#[trigger] files@[i]),
    ensures
        ({
            let s = match_and_score_spec(files@, distance_penalties@, *fuzzy_query, *context);
            r.0@ == s.0 && r.1@ == s.1 && r.2 as nat == s.2
        }),
        files@.no_duplicates() ==> r.0@.no_duplicates(),
{
    if files.len() == 0 {
        return (Vec::new(), Vec::new(), 0);
    }
    let mut parts: Vec<&str> = Vec::new();
    match fuzzy_query {
        None => {
            let t = trimmed(context.raw_query);
            if t.as_bytes().len() < 2 {
                return score_filtered_by_frecency(files, context);
            }
            parts.push(t);
        },
        Some(FuzzyQuery::Text(t)) => {
            if t.as_bytes().len() < 2 {
                return score_filtered_by_frecency(files, context);
            }
            parts.push(*t);
        },
        Some(FuzzyQuery::Parts(ps)) => {
            if ps.len() == 0 {
                return score_filtered_by_frecency(files, context);
            }
            let mut i: usize = 0;
            while i < ps.len()
                invariant
                    i <= ps@.len(),
                    parts@ == ps@.take(i as int),
                decreases ps@.len() - i,
            {
                parts.push(ps[i]);
                proof {
                    assert(parts@ =~= ps@.take(i + 1));
                }
                i = i + 1;
            }
            proof {
                assert(ps@.take(ps@.len() as int) =~= ps@);
            }
        },
        Some(FuzzyQuery::Empty) => {
            return score_filtered_by_frecency(files, context);
        },
    }
    let ghost pv = str_views(parts@);
    proof {
        assert(query_parts(*fuzzy_query, context.raw_query@) == Some(pv));
    }
    let upper = any_uppercase(parts.as_slice());
    let has_separator = any_separator(parts.as_slice());
    let config = MatchConfig {
        max_typos: context.max_typos,
        capitalization_bonus: if upper { 8 } else { 0 },
        matching_case_bonus: if upper { 4 } else { 0 },
        exact_match_bonus: DEFAULT_EXACT_MATCH_BONUS,
        prefix_bonus: DEFAULT_PREFIX_BONUS,
    };
    let mut haystack: Vec<&str> = Vec::new();
    let mut i: usize = 0;
    while i < files.len()
        invariant
            i <= files@.len(),
            haystack@.len() == i,
            str_views(haystack@) == path_views(files@).take(i as int),
        decreases files@.len() - i,
    {
        let path = files[i].relative_path.as_str();
        haystack.push(path);
        proof {
            assert(path@ == path_views(files@)[i as int]);
            assert(str_views(haystack@)[i as int] == path@);
            assert(str_views(haystack@) =~= path_views(files@).take(i + 1));
        }
        i = i + 1;
    }
    proof {
        assert(path_views(files@).take(files@.len() as int) =~= path_views(files@));
    }
    let ghost hs = path_views(files@);
    let matches = match_fuzzy_parts(parts.as_slice(), haystack.as_slice(), config);
    let valid = valid_parts_of(parts.as_slice());
    let ghost ms = list_views(matches@);
    let ghost target = scored_matches(files@, distance_penalties@, pv, *context);
    proof {
        assert(config.knobs() == path_knobs(context.max_typos, parts_have_uppercase(pv)));
        if ms.len() > 0 {
            assert(valid@.len() > 0);
        }
    }
    let mut results: Vec<(&'a FileItem, Score)> = Vec::new();
    let mut k: usize = 0;
    while k < matches.len()
        invariant
            k <= matches@.len(),
            files@.len() == distance_penalties@.len(),
            combo_fits(*context),
            ms == list_views(matches@),
            ms == parts_matches(pv, hs, config.knobs()),
            hs == str_views(haystack@),
            hs == path_views(files@),
            str_views(valid@) == valid_parts(pv),
            ms.len() > 0 ==> valid@.len() > 0,
            config.knobs() == path_knobs(context.max_typos, parts_have_uppercase(pv)),
            has_separator == parts_have_separator(pv),
            target == scored_matches(files@, distance_penalties@, pv, *context),
            forall|t: int| 0 <= t < matches@.len() ==> ((#[trigger] matches@[t]).index as int) < haystack@.len(),
            forall|a: int, b: int| 0 <= a < b < matches@.len() ==> (#[trigger] matches@[a]).index < (#[trigger] matches@[b]).index,
            results@ == target.take(k as int),
        decreases matches@.len() - k,
    {
        let m = matches[k];
        let idx = m.index as usize;
        proof {
            assert(ms[k as int] == (m.index, m.score, m.exact));
            assert(str_views(valid@)[0] == valid@[0]@);
            assert(hs[idx as int] == haystack@[idx as int]@);
        }
        let start = match_start(valid[0], haystack[idx], config);
        let pm = PathMatch { index: m.index, score: m.score, exact: m.exact, start: start as usize };
        let file = files[idx];
        let score = score_path_match(file, pm, context, has_separator, distance_penalties[idx]);
        results.push((file, score));
        proof {
            assert(results@ =~= target.take(k + 1));
        }
        k = k + 1;
    }
    proof {
        assert(target.take(matches@.len() as int) =~= target);
        if files@.no_duplicates() {
            assert forall|i: int, j: int| 0 <= i < j < results@.len() implies results@[i].0 != results@[j].0 by {
                assert(ms[i].0 == matches@[i].index && ms[j].0 == matches@[j].index);
                assert(matches@[i].index < matches@[j].index);
                assert(results@[i].0 == files@[ms[i].0 as int]);
                assert(results@[j].0 == files@[ms[j].0 as int]);
            }
        }
    }
    sort_and_paginate(results, context)
}

/// Options of a file search.
pub struct FuzzySearchOptions<'a> {
    pub max_threads: usize,
    pub current_file: Option<&'a str>,
    pub last_same_query_match: Option<QueryMatchEntry>,
    pub combo_boost_score_multiplier: i32,
    pub min_combo_count: u32,
    pub pagination: PaginationArgs,
}

/// The text the typo budget is taken from: the single term, the first of
/// several terms, or else the trimmed raw query.
pub open spec fn effective_query(fuzzy: Option<FuzzyQuery>, raw_query: Seq<char>) -> Seq<char> {
    match fuzzy {
        Some(FuzzyQuery::Text(t)) => t@,
        Some(FuzzyQuery::Parts(ps)) => if ps@.len() > 0 { ps@[0]@ } else { trim(raw_query) },
        _ => trim(raw_query),
    }
}

/// Typos allowed for a query of `n` bytes: a quarter of the length taken
/// as a `u16`, kept within 2 to 6.
pub open spec fn typo_budget(n: nat) -> u16 {
    let q = (n % 65536) / 4;
    if q < 2 {
        2
    } else if q > 6 {
        6
    } else {
        q as u16
    }
}

/// The scoring context a search with these options runs in.
pub open spec fn search_context<'a>(query: &'a str, fuzzy: Option<FuzzyQuery>, options: FuzzySearchOptions<'a>) -> ScoringContext<'a> {
    ScoringContext {
        raw_query: query,
        current_file: options.current_file,
        max_typos: typo_budget(byte_len(effective_query(fuzzy, query@)) as nat),
        max_threads: if options.max_threads < 1 { 1 } else { options.max_threads },
        last_same_query_match: options.last_same_query_match,
        combo_boost_score_multiplier: options.combo_boost_score_multiplier,
        min_combo_count: options.min_combo_count,
        pagination: options.pagination,
    }
}

/// Search `files` for `query` (see [`match_and_score_spec`]), with the typo
/// budget taken from the query's effective text; `location` is where the
/// query points inside the file and is handed back unchanged.
pub fn fuzzy_search<'a>(
    files: &[&'a FileItem],
    query: &'a str,
    fuzzy_query: Option<FuzzyQuery<'a>>,
    location: Option<Location>,
    distance_penalties: &[i32],
    options: FuzzySearchOptions<'a>,
) -> (r: SearchResult<'a>)
    requires
        files@.len() <= u32::MAX,
        distance_penalties@.len() == files@.len(),
        combo_fits(search_context(query, fuzzy_query, options)),
        query_parts(fuzzy_query, query@) is None ==> forall|i: int|
            0 <= i < files@.len() ==> frecency_scorable(*#[trigger] files@[i]),
    ensures
        ({
            let s = match_and_score_spec(files@, distance_penalties@, fuzzy_query, search_context(query, fuzzy_query, options));
            &&& r.items@ == s.0
            &&& r.scores@ == s.1
            &&& r.total_matched as nat == s.2
        }),
        r.total_files == files@.len(),
        r.location == location,
        files@.no_duplicates() ==> r.items@.no_duplicates(),
{
    let ghost opts = options;
    let effective: &str = match &fuzzy_query {
        Some(FuzzyQuery::Text(t)) => *t,
        Some(FuzzyQuery::Parts(ps)) => if ps.len() > 0 { ps[0] } else { trimmed(query) },
        _ => trimmed(query),
    };
    let n: usize = effective.as_bytes().len();
    let q: u16 = ((n % 65536) / 4) as u16;
    let max_typos: u16 = if q < 2 { 2 } else if q > 6 { 6 } else { q };
    let context = ScoringContext {
        raw_query: query,
        current_file: options.current_file,
        max_typos,
        max_threads: if options.max_threads < 1 { 1 } else { options.max_threads },
        last_same_query_match: options.last_same_query_match,
        combo_boost_score_multiplier: options.combo_boost_score_multiplier,
        min_combo_count: options.min_combo_count,
        pagination: options.pagination,
    };
    proof {
        assert(context == search_context(query, fuzzy_query, opts));
    }
    let (items, scores, total_matched) = match_and_score_files(files, &fuzzy_query, distance_penalties, &context);
    SearchResult { items, scores, total_matched, total_files: files.len(), location }
}

/// Matching-case bonus of the matcher's default scoring.
pub const DEFAULT_MATCHING_CASE_BONUS: u16 = 4;

/// Index of the first `b` at or after `from`, or the length.
pub open spec fn find_byte(s: Seq<u8>, from: int, b: u8) -> int
    decreases s.len() - from,
{
    if from >= s.len() {
        s.len() as int
    } else if s[from] == b {
        from
    } else {
        find_byte(s, from + 1, b)
    }
}

pub proof fn lemma_find_byte_range(s: Seq<u8>, from: int, b: u8)
    requires
        0 <= from <= s.len(),
    ensures
        from <= find_byte(s, from, b) <= s.len(),
    decreases s.len() - from,
{
    if from < s.len() && s[from] != b {
        lemma_find_byte_range(s, from + 1, b);
    }
}

/// The lines of `bytes` from `start` on, as byte ranges: each line ends
/// just after a newline, except a last line without one.
pub open spec fn line_ranges(bytes: Seq<u8>, start: int) -> Seq<(int, int)>
    decreases bytes.len() - start,
{
    if start < 0 || start >= bytes.len() {
        seq![]
    } else {
        proof {
            lemma_find_byte_range(bytes, start, 10u8);
        }
        let nl = find_byte(bytes, start, 10u8);
        let end = if nl < bytes.len() { nl + 1 } else { bytes.len() as int };
        seq![(start, end)] + line_ranges(bytes, end)
    }
}

/// A line without its terminator: one trailing newline, then one
/// trailing carriage return, removed.
pub open spec fn strip_terminator(l: Seq<u8>) -> Seq<u8> {
    let a = if l.len() > 0 && l.last() == 10u8 { l.drop_last() } else { l };
    if a.len() > 0 && a.last() == 13u8 { a.drop_last() } else { a }
}

/// The lines a fuzzy content search matches against: for each non-empty
/// line that is valid UTF-8, its text, 1-based line number and byte
/// offset, over the line ranges `rs`.
pub open spec fn line_entries(bytes: Seq<u8>, rs: Seq<(int, int)>) -> Seq<(Seq<char>, u64, u64)>
    decreases rs.len(),
{
    if rs.len() == 0 {
        seq![]
    } else {
        let prev = line_entries(bytes, rs.drop_last());
        let r = rs.last();
        let t = strip_terminator(bytes.subrange(r.0, r.1));
        if t.len() > 0 && valid_utf8(t) {
            prev.push((decode_utf8(t), rs.len() as u64, r.0 as u64))
        } else {
            prev
        }
    }
}

/// The searchable lines of a file.
pub open spec fn file_lines(bytes: Seq<u8>) -> Seq<(Seq<char>, u64, u64)> {
    line_entries(bytes, line_ranges(bytes, 0))
}

pub(crate) fn find_newline(bytes: &[u8], from: usize) -> (r: usize)
    requires
        from <= bytes@.len(),
    ensures
        r == find_byte(bytes@, from as int, 10u8),
        from <= r <= bytes@.len(),
{
    let mut i = from;
    while i < bytes.len() && bytes[i] != 10u8
        invariant
            from <= i <= bytes@.len(),
            find_byte(bytes@, from as int, 10u8) == find_byte(bytes@, i as int, 10u8),
        decreases bytes@.len() - i,
    {
        i = i + 1;
    }
    i
}

proof fn lemma_entries_step(b: Seq<u8>, done: Seq<(int, int)>, pos: int, end: int, e: int)
    requires
        0 <= pos <= e <= end <= b.len(),
        strip_terminator(b.subrange(pos, end)) == b.subrange(pos, e),
    ensures
        line_entries(b, done.push((pos, end))) == (if e > pos && valid_utf8(b.subrange(pos, e)) {
            line_entries(b, done).push((decode_utf8(b.subrange(pos, e)), (done.len() + 1) as u64, pos as u64))
        } else {
            line_entries(b, done)
        }),
{
    assert(done.push((pos, end)).drop_last() =~= done);
}

proof fn lemma_entries_len(bytes: Seq<u8>, rs: Seq<(int, int)>)
    ensures
        line_entries(bytes, rs).len() <= rs.len(),
    decreases rs.len(),
{
    if rs.len() > 0 {
        lemma_entries_len(bytes, rs.drop_last());
    }
}

/// `texts` and `meta` hold the entries `es`, position by position.
pub open spec fn lines_agree(texts: Seq<String>, meta: Seq<(u64, u64)>, es: Seq<(Seq<char>, u64, u64)>) -> bool {
    &&& texts.len() == es.len()
    &&& meta.len() == es.len()
    &&& forall|i: int| 0 <= i < es.len() ==> (#[trigger] texts[i])@ == es[i].0 && meta[i] == (es[i].1, es[i].2)
}

proof fn lemma_agree_push(texts: Seq<String>, meta: Seq<(u64, u64)>, es: Seq<(Seq<char>, u64, u64)>, t: String, m: (u64, u64), e: (Seq<char>, u64, u64))
    requires
        lines_agree(texts, meta, es),
        t@ == e.0,
        m == (e.1, e.2),
    ensures
        lines_agree(texts.push(t), meta.push(m), es.push(e)),
{
    assert forall|i: int| 0 <= i < es.len() + 1 implies (#[trigger] texts.push(t)[i])@ == es.push(e)[i].0
        && meta.push(m)[i] == (es.push(e)[i].1, es.push(e)[i].2) by {
        if i < es.len() {
            assert(texts.push(t)[i] == texts[i]);
        }
    }
}

/// The searchable lines of a file (see [`file_lines`]): their texts, and
/// their line numbers and byte offsets.
fn split_file_lines(bytes: &[u8]) -> (r: (Vec<String>, Vec<(u64, u64)>))
    requires
        bytes@.len() < u64::MAX,
    ensures
        lines_agree(r.0@, r.1@, file_lines(bytes@)),
{
    let ghost b = bytes@;
    let mut texts: Vec<String> = Vec::new();
    let mut meta: Vec<(u64, u64)> = Vec::new();
    let mut pos: usize = 0;
    let mut line_number: u64 = 1;
    let ghost mut done: Seq<(int, int)> = seq![];
    while pos < bytes.len()
        invariant
            b == bytes@,
            b.len() < u64::MAX,
            pos <= b.len(),
            done.len() + 1 == line_number,
            line_number <= pos + 1,
            line_ranges(b, 0) == done + line_ranges(b, pos as int),
            lines_agree(texts@, meta@, line_entries(b, done)),
        decreases b.len() - pos,
    {
        let nl = find_newline(bytes, pos);
        let end = if nl < bytes.len() { nl + 1 } else { bytes.len() };
        let mut e = end;
        if e > pos && bytes[e - 1] == 10u8 {
            e = e - 1;
        }
        if e > pos && bytes[e - 1] == 13u8 {
            e = e - 1;
        }
        proof {
            let seg = b.subrange(pos as int, end as int);
            assert(strip_terminator(seg) =~= b.subrange(pos as int, e as int));
            assert(line_ranges(b, pos as int) == seq![(pos as int, end as int)] + line_ranges(b, end as int));
            assert(done + line_ranges(b, pos as int) =~= done.push((pos as int, end as int)) + line_ranges(b, end as int));
            lemma_entries_step(b, done, pos as int, end as int, e as int);
        }
        let ghost prev = line_entries(b, done);
        proof {
            done = done.push((pos as int, end as int));
        }
        let t = vstd::slice::slice_subrange(bytes, pos, e);
        if e > pos {
            match utf8_to_string(t) {
                Some(text) => {
                    proof {
                        lemma_agree_push(texts@, meta@, prev, text, (line_number, pos as u64), (decode_utf8(t@), line_number, pos as u64));
                    }
                    texts.push(text);
                    meta.push((line_number, pos as u64));
                },
                None => {},
            }
        }
        pos = end;
        line_number = line_number + 1;
    }
    proof {
        assert(line_ranges(b, pos as int) =~= Seq::<(int, int)>::empty());
        assert(done + Seq::<(int, int)>::empty() =~= done);
    }
    (texts, meta)
}

/// Matcher settings for a content search: a typo budget of a third of the
/// needle's bytes (at most two), a capitalization bonus only when the
/// search is case-sensitive, the default matching-case bonus, a large
/// exact-match bonus and no prefix bonus.
pub open spec fn grep_knobs(needle_len: int, case_insensitive: bool) -> (u16, u16, u16, u16, u16) {
    (
        (if needle_len / 3 < 2 { needle_len / 3 } else { 2 }) as u16,
        if case_insensitive { 0 } else { 4 },
        DEFAULT_MATCHING_CASE_BONUS,
        100,
        0,
    )
}

/// Lowest accepted line score: half of a perfect match (16 per needle byte).
pub open spec fn min_fuzzy_score(needle_len: int) -> int {
    (needle_len * 16 * 50) / 100
}

/// `s` in reverse order.
pub open spec fn rev(s: Seq<u32>) -> Seq<u32> {
    Seq::new(s.len(), |i: int| s[s.len() - 1 - i])
}

pub open spec fn as_usizes(s: Seq<u32>) -> Seq<usize> {
    s.map_values(|x: u32| x as usize)
}

/// What is shown of a matching line: line number, column, byte offset,
/// text, highlighted byte ranges and fuzzy score.
pub type HitView = (u64, usize, u64, Seq<char>, Seq<(int, int)>, Option<u16>);

/// The hit for one match of the needle over the lines, or `None` when it is
/// rejected: its score is below [`min_fuzzy_score`], the displayed line
/// (see [`display_chars`]) does not match, or the matched positions fail
/// [`fuzzy_accepts`]. The highlights are the matched characters' byte
/// ranges, and the column the start of the first.
pub open spec fn line_hit(m: (u32, u16, bool), lines: Seq<(Seq<char>, u64, u64)>, needle: Seq<char>, c: (u16, u16, u16, u16, u16)) -> Option<HitView> {
    if (m.1 as int) < min_fuzzy_score(byte_len(needle)) || (m.0 as int) >= lines.len() {
        None
    } else {
        let l = lines[m.0 as int];
        let disp = display_chars(l.0);
        match fuzzy_one_indices(needle, disp, c) {
            None => None,
            Some(t) => {
                let asc = rev(t.2);
                if !fuzzy_accepts(asc, byte_len(needle)) {
                    None
                } else {
                    let ranges = merge_char_ranges(disp, as_usizes(asc), asc.len());
                    Some((l.1, if ranges.len() > 0 { ranges[0].0 as usize } else { 0 }, l.2, disp, ranges, Some(t.0)))
                }
            },
        }
    }
}

/// The hits of the first `n` matches, stopping once `max` are found (no
/// limit when `max` is 0).
pub open spec fn hits_fold(ms: Seq<(u32, u16, bool)>, lines: Seq<(Seq<char>, u64, u64)>, needle: Seq<char>, c: (u16, u16, u16, u16, u16), max: int, n: nat) -> Seq<HitView>
    decreases n,
{
    if n == 0 {
        seq![]
    } else {
        let prev = hits_fold(ms, lines, needle, c, max, (n - 1) as nat);
        if max != 0 && prev.len() >= max {
            prev
        } else {
            match line_hit(ms[n - 1], lines, needle, c) {
                Some(h) => prev.push(h),
                None => prev,
            }
        }
    }
}

/// The texts of the searchable lines.
pub open spec fn line_texts(lines: Seq<(Seq<char>, u64, u64)>) -> Seq<Seq<char>> {
    lines.map_values(|l: (Seq<char>, u64, u64)| l.0)
}

/// The fuzzy hits of `needle` in a file's bytes: the searchable lines
/// (see [`file_lines`]) are matched with [`grep_knobs`], and each match is
/// kept or rejected by [`line_hit`], in the matcher's order, up to `max`.
pub open spec fn fuzzy_file_hits(bytes: Seq<u8>, needle: Seq<char>, case_insensitive: bool, max: int) -> Seq<HitView> {
    let lines = file_lines(bytes);
    if lines.len() == 0 {
        seq![]
    } else {
        let c = grep_knobs(byte_len(needle), case_insensitive);
        let ms = fuzzy_list_matches(needle, line_texts(lines), c);
        hits_fold(ms, lines, needle, c, max, ms.len())
    }
}

/// What a fuzzy hit shows.
pub open spec fn hit_view(m: GrepMatch) -> HitView {
    (m.line_number, m.col, m.byte_offset, m.line_content@, ranges_int(m.match_byte_offsets@), m.fuzzy_score)
}

/// A match with no file index, classification or context yet.
pub open spec fn is_bare(m: GrepMatch) -> bool {
    &&& m.file_index == 0
    &&& !m.is_definition
    &&& !m.is_import
    &&& m.context_before@.len() == 0
    &&& m.context_after@.len() == 0
}

proof fn lemma_hits_stay(ms: Seq<(u32, u16, bool)>, lines: Seq<(Seq<char>, u64, u64)>, needle: Seq<char>, c: (u16, u16, u16, u16, u16), max: int, k: nat, n: nat)
    requires
        k <= n,
        max != 0,
        hits_fold(ms, lines, needle, c, max, k).len() >= max,
    ensures
        hits_fold(ms, lines, needle, c, max, n) == hits_fold(ms, lines, needle, c, max, k),
    decreases n - k,
{
    if n > k {
        lemma_hits_stay(ms, lines, needle, c, max, k, (n - 1) as nat);
    }
}

proof fn lemma_fit_bound(l: Seq<char>, lim: int, k: int)
    requires
        0 <= k <= l.len(),
        char_start(l, k) <= lim,
    ensures
        k <= fit_from(l, lim, k) <= l.len(),
        char_start(l, fit_from(l, lim, k)) <= lim,
    decreases l.len() - k,
{
    if k < l.len() && char_start(l, k + 1) <= lim {
        lemma_fit_bound(l, lim, k + 1);
    }
}

fn reversed(s: &Vec<u32>) -> (r: Vec<u32>)
    ensures
        r@ == rev(s@),
{
    let mut r: Vec<u32> = Vec::new();
    let mut i: usize = s.len();
    while i > 0
        invariant
            i <= s@.len(),
            r@ == rev(s@).take(s@.len() - i),
        decreases i,
    {
        i = i - 1;
        r.push(s[i]);
        proof {
            assert(r@ =~= rev(s@).take(s@.len() - i));
        }
    }
    proof {
        assert(rev(s@).take(s@.len() as int) =~= rev(s@));
    }
    r
}

fn to_usizes(s: &Vec<u32>) -> (r: Vec<usize>)
    ensures
        r@ == as_usizes(s@),
{
    let mut r: Vec<usize> = Vec::new();
    let mut i: usize = 0;
    while i < s.len()
        invariant
            i <= s@.len(),
            r@ == as_usizes(s@).take(i as int),
        decreases s@.len() - i,
    {
        r.push(s[i] as usize);
        proof {
            assert(r@ =~= as_usizes(s@).take(i + 1));
        }
        i = i + 1;
    }
    proof {
        assert(as_usizes(s@).take(s@.len() as int) =~= as_usizes(s@));
    }
    r
}

/// The hit for one matcher match (see [`line_hit`]).
fn fuzzy_line_hit(m: ListMatch, texts: &Vec<String>, meta: &Vec<(u64, u64)>, needle: &str, config: MatchConfig, min_score: u16, ghost_lines: Ghost<Seq<(Seq<char>, u64, u64)>>) -> (r: Option<GrepMatch>)
    requires
        lines_agree(texts@, meta@, ghost_lines@),
        min_score as int == min_fuzzy_score(byte_len(needle@)),
        byte_len(needle@) <= 81,
    ensures
        match r {
            Some(g) => line_hit((m.index, m.score, m.exact), ghost_lines@, needle@, config.knobs()) == Some(hit_view(g)) && is_bare(g),
            None => line_hit((m.index, m.score, m.exact), ghost_lines@, needle@, config.knobs()) is None,
        },
{
    let idx = m.index as usize;
    if m.score < min_score || idx >= texts.len() {
        return None;
    }
    let raw = texts[idx].as_str();
    let disp = display_prefix(raw);
    proof {
        assert(raw@ == ghost_lines@[idx as int].0);
        assert(raw@.take(0) =~= Seq::<char>::empty());
        lemma_fit_bound(raw@, MAX_LINE_DISPLAY_LEN as int, 0);
        assert(raw@.take(fit_from(raw@, MAX_LINE_DISPLAY_LEN as int, 0)) == disp@);
    }
    let t = match fuzzy_match_one_indices(needle, disp, config) {
        Some(t) => t,
        None => return None,
    };
    let asc = reversed(&t.2);
    proof {
        assert forall|i: int, j: int| 0 <= i < j < asc@.len() implies asc@[i] < asc@[j] by {
            assert(asc@[i] == t.2@[t.2@.len() - 1 - i]);
            assert(asc@[j] == t.2@[t.2@.len() - 1 - j]);
        }
    }
    let needle_len = needle.as_bytes().len();
    if !fuzzy_match_accepted(asc.as_slice(), needle_len) {
        return None;
    }
    let ix = to_usizes(&asc);
    let offsets = char_indices_to_byte_offsets(disp, ix.as_slice());
    let col: usize = if offsets.len() > 0 { offsets[0].0 as usize } else { 0 };
    let (ln, bo) = meta[idx];
    proof {
        assert(ranges_int(offsets@).len() == offsets@.len());
        if offsets@.len() > 0 {
            assert(ranges_int(offsets@)[0].0 == offsets@[0].0 as int);
        }
    }
    Some(GrepMatch {
        file_index: 0,
        line_number: ln,
        col,
        byte_offset: bo,
        line_content: String::from_str(disp),
        match_byte_offsets: offsets,
        fuzzy_score: Some(t.0),
        is_definition: false,
        is_import: false,
        context_before: Vec::new(),
        context_after: Vec::new(),
    })
}

/// Fuzzy-match `needle` against the lines of a file (see
/// [`fuzzy_file_hits`]), keeping at most `max_matches_per_file` hits (no
/// limit for 0). The hits have no file index yet.
pub fn fuzzy_file_matches(bytes: &[u8], needle: &str, case_insensitive: bool, max_matches_per_file: usize) -> (r: Vec<GrepMatch>)
    requires
        bytes@.len() < u64::MAX,
        byte_len(needle@) <= 81,
        file_lines(bytes@).len() <= u32::MAX,
    ensures
        r@.map_values(|g: GrepMatch| hit_view(g)) == fuzzy_file_hits(bytes@, needle@, case_insensitive, max_matches_per_file as int),
        forall|i: int| 0 <= i < r@.len() ==> is_bare(#[trigger] r@[i]),
{
    let (texts, meta) = split_file_lines(bytes);
    let ghost lines = file_lines(bytes@);
    let mut out: Vec<GrepMatch> = Vec::new();
    if texts.len() == 0 {
        proof {
            assert(out@.map_values(|g: GrepMatch| hit_view(g)) =~= Seq::<HitView>::empty());
        }
        return out;
    }
    let needle_len = needle.as_bytes().len();
    let config = MatchConfig {
        max_typos: if needle_len / 3 < 2 { (needle_len / 3) as u16 } else { 2 },
        capitalization_bonus: if case_insensitive { 0 } else { 4 },
        matching_case_bonus: DEFAULT_MATCHING_CASE_BONUS,
        exact_match_bonus: 100,
        prefix_bonus: 0,
    };
    let perfect_score: u16 = (needle_len as u16) * 16;
    let min_score: u16 = (perfect_score * 50) / 100;
    let mut haystack: Vec<&str> = Vec::new();
    let mut i: usize = 0;
    while i < texts.len()
        invariant
            i <= texts@.len(),
            haystack@.len() == i,
            lines_agree(texts@, meta@, lines),
            str_views(haystack@) == line_texts(lines).take(i as int),
        decreases texts@.len() - i,
    {
        let t = texts[i].as_str();
        haystack.push(t);
        proof {
            assert(str_views(haystack@)[i as int] == t@);
            assert(str_views(haystack@) =~= line_texts(lines).take(i + 1));
        }
        i = i + 1;
    }
    proof {
        assert(line_texts(lines).take(texts@.len() as int) =~= line_texts(lines));
        assert(config.knobs() == grep_knobs(byte_len(needle@), case_insensitive));
    }
    let matches = fuzzy_match_list(needle, haystack.as_slice(), config);
    let ghost ms = list_views(matches@);
    let ghost c = config.knobs();
    let mut k: usize = 0;
    while k < matches.len() && !(max_matches_per_file != 0 && out.len() >= max_matches_per_file)
        invariant
            k <= matches@.len(),
            ms == list_views(matches@),
            c == config.knobs(),
            lines_agree(texts@, meta@, lines),
            min_score as int == min_fuzzy_score(byte_len(needle@)),
            byte_len(needle@) <= 81,
            out@.map_values(|g: GrepMatch| hit_view(g)) == hits_fold(ms, lines, needle@, c, max_matches_per_file as int, k as nat),
            forall|j: int| 0 <= j < out@.len() ==> is_bare(#[trigger] out@[j]),
        decreases matches@.len() - k,
    {
        let m = matches[k];
        proof {
            assert(ms[k as int] == (m.index, m.score, m.exact));
        }
        let ghost o0 = out@;
        match fuzzy_line_hit(m, &texts, &meta, needle, config, min_score, Ghost(lines)) {
            Some(g) => {
                out.push(g);
                proof {
                    assert(out@.map_values(|g: GrepMatch| hit_view(g)) =~= o0.map_values(|g: GrepMatch| hit_view(g)).push(hit_view(g)));
                }
            },
            None => {},
        }
        k = k + 1;
    }
    proof {
        if k < matches@.len() {
            lemma_hits_stay(ms, lines, needle@, c, max_matches_per_file as int, k as nat, ms.len());
        }
    }
    out
}

} // verus!
