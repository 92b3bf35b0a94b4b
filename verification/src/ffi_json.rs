//! Records handed to foreign callers as JSON: init and search options, and
//! search results with their files, scores and location.

use vstd::prelude::*;
use crate::types::{FileItem, Score};
use crate::git::{format_git_status, git_status_name};

verus! {

/// Options for creating a file finder.
pub struct InitOptions {
    /// Base directory to index.
    pub base_path: String,
    /// Frecency database path, if not the default.
    pub frecency_db_path: Option<String>,
    /// Query history database path, if not the default.
    pub history_db_path: Option<String>,
    /// Open the databases without locking.
    pub use_unsafe_no_lock: bool,
    /// Run without databases.
    pub skip_databases: bool,
}

/// Options of one search; absent fields take their defaults.
pub struct SearchOptions {
    pub max_threads: Option<usize>,
    pub current_file: Option<String>,
    pub combo_boost_multiplier: Option<i32>,
    pub min_combo_count: Option<u32>,
    pub page_index: Option<usize>,
    pub page_size: Option<usize>,
}

impl Default for SearchOptions {
    fn default() -> (r: Self)
        ensures
            r.max_threads is None && r.current_file is None && r.combo_boost_multiplier is None
                && r.min_combo_count is None && r.page_index is None && r.page_size is None,
    {
        SearchOptions {
            max_threads: None,
            current_file: None,
            combo_boost_multiplier: None,
            min_combo_count: None,
            page_index: None,
            page_size: None,
        }
    }
}

/// A file as reported to foreign callers.
pub struct FileItemJson {
    pub path: String,
    pub relative_path: String,
    pub file_name: String,
    pub size: u64,
    pub modified: u64,
    pub access_frecency_score: i64,
    pub modification_frecency_score: i64,
    pub total_frecency_score: i64,
    pub git_status: String,
}

impl FileItemJson {
    /// The record of `item`, its git status by name.
    pub fn from_file_item(item: &FileItem) -> (r: Self)
        ensures
            r.path@ == item.path@,
            r.relative_path@ == item.relative_path@,
            r.file_name@ == item.file_name@,
            r.size == item.size,
            r.modified == item.modified,
            r.access_frecency_score == item.access_frecency_score,
            r.modification_frecency_score == item.modification_frecency_score,
            r.total_frecency_score == item.total_frecency_score,
            r.git_status@ == git_status_name(item.git_status),
    {
        FileItemJson {
            path: item.path.clone(),
            relative_path: item.relative_path.clone(),
            file_name: item.file_name.clone(),
            size: item.size,
            modified: item.modified,
            access_frecency_score: item.access_frecency_score as i64,
            modification_frecency_score: item.modification_frecency_score as i64,
            total_frecency_score: item.total_frecency_score as i64,
            git_status: String::from_str(format_git_status(item.git_status)),
        }
    }
}

/// A score as reported to foreign callers.
pub struct ScoreJson {
    pub total: i32,
    pub base_score: i32,
    pub filename_bonus: i32,
    pub special_filename_bonus: i32,
    pub frecency_boost: i32,
    pub distance_penalty: i32,
    pub current_file_penalty: i32,
    pub combo_match_boost: i32,
    pub exact_match: bool,
    pub match_type: String,
}

impl ScoreJson {
    /// The record of `score`.
    pub fn from_score(score: &Score) -> (r: Self)
        ensures
            r.total == score.total,
            r.base_score == score.base_score,
            r.filename_bonus == score.filename_bonus,
            r.special_filename_bonus == score.special_filename_bonus,
            r.frecency_boost == score.frecency_boost,
            r.distance_penalty == score.distance_penalty,
            r.current_file_penalty == score.current_file_penalty,
            r.combo_match_boost == score.combo_match_boost,
            r.exact_match == score.exact_match,
            r.match_type@ == score.match_type@,
    {
        ScoreJson {
            total: score.total,
            base_score: score.base_score,
            filename_bonus: score.filename_bonus,
            special_filename_bonus: score.special_filename_bonus,
            frecency_boost: score.frecency_boost,
            distance_penalty: score.distance_penalty,
            current_file_penalty: score.current_file_penalty,
            combo_match_boost: score.combo_match_boost,
            exact_match: score.exact_match,
            match_type: String::from_str(score.match_type),
        }
    }
}

/// Where in a file a query points: a line, a line and column, or a range.
#[derive(Clone, Copy)]
pub enum Location {
    Line(i32),
    Position { line: i32, col: i32 },
    Range { start: (i32, i32), end: (i32, i32) },
}

/// A line and column as reported to foreign callers.
#[derive(Clone, Copy, PartialEq, Eq, Structural)]
pub struct PositionJson {
    pub line: i32,
    pub col: i32,
}

/// A location as reported to foreign callers.
#[derive(Clone, Copy, PartialEq, Eq, Structural)]
pub enum LocationJson {
    Line { line: i32 },
    Position { line: i32, col: i32 },
    Range { start: PositionJson, end: PositionJson },
}

impl LocationJson {
    /// The record of a location.
    pub open spec fn of(loc: Location) -> LocationJson {
        match loc {
            Location::Line(line) => LocationJson::Line { line },
            Location::Position { line, col } => LocationJson::Position { line, col },
            Location::Range { start, end } => LocationJson::Range {
                start: PositionJson { line: start.0, col: start.1 },
                end: PositionJson { line: end.0, col: end.1 },
            },
        }
    }

    pub fn from_location(loc: &Location) -> (r: Self)
        ensures
            r == LocationJson::of(*loc),
    {
        match loc {
            Location::Line(line) => LocationJson::Line { line: *line },
            Location::Position { line, col } => LocationJson::Position { line: *line, col: *col },
            Location::Range { start, end } => LocationJson::Range {
                start: PositionJson { line: start.0, col: start.1 },
                end: PositionJson { line: end.0, col: end.1 },
            },
        }
    }
}

/// A page of search results: files and their scores, how many matched in
/// all, how many files there are, and where the query points.
pub struct SearchResult<'a> {
    pub items: Vec<&'a FileItem>,
    pub scores: Vec<Score>,
    pub total_matched: usize,
    pub total_files: usize,
    pub location: Option<Location>,
}

/// A page of search results as reported to foreign callers.
pub struct SearchResultJson {
    pub items: Vec<FileItemJson>,
    pub scores: Vec<ScoreJson>,
    pub total_matched: usize,
    pub total_files: usize,
    pub location: Option<LocationJson>,
}

/// `j` is the record of file `f`.
pub open spec fn file_json_of(j: FileItemJson, f: FileItem) -> bool {
    &&& j.path@ == f.path@
    &&& j.relative_path@ == f.relative_path@
    &&& j.file_name@ == f.file_name@
    &&& j.size == f.size
    &&& j.modified == f.modified
    &&& j.access_frecency_score == f.access_frecency_score
    &&& j.modification_frecency_score == f.modification_frecency_score
    &&& j.total_frecency_score == f.total_frecency_score
    &&& j.git_status@ == git_status_name(f.git_status)
}

/// `j` is the record of score `s`.
pub open spec fn score_json_of(j: ScoreJson, s: Score) -> bool {
    &&& j.total == s.total
    &&& j.base_score == s.base_score
    &&& j.filename_bonus == s.filename_bonus
    &&& j.special_filename_bonus == s.special_filename_bonus
    &&& j.frecency_boost == s.frecency_boost
    &&& j.distance_penalty == s.distance_penalty
    &&& j.current_file_penalty == s.current_file_penalty
    &&& j.combo_match_boost == s.combo_match_boost
    &&& j.exact_match == s.exact_match
    &&& j.match_type@ == s.match_type@
}

impl SearchResultJson {
    /// The record of a page of results, item by item.
    pub fn from_search_result(result: &SearchResult) -> (r: Self)
        ensures
            r.items@.len() == result.items@.len(),
            forall|i: int| 0 <= i < r.items@.len() ==> file_json_of(#[trigger] r.items@[i], *result.items@[i]),
            r.scores@.len() == result.scores@.len(),
            forall|i: int| 0 <= i < r.scores@.len() ==> score_json_of(#[trigger] r.scores@[i], result.scores@[i]),
            r.total_matched == result.total_matched,
            r.total_files == result.total_files,
            r.location == match result.location {
                Some(l) => Some(LocationJson::of(l)),
                None => None,
            },
    {
        let mut items: Vec<FileItemJson> = Vec::new();
        let mut i: usize = 0;
        while i < result.items.len()
            invariant
                i <= result.items@.len(),
                items@.len() == i,
                forall|t: int| 0 <= t < i ==> file_json_of(#[trigger] items@[t], *result.items@[t]),
            decreases result.items@.len() - i,
        {
            items.push(FileItemJson::from_file_item(result.items[i]));
            i = i + 1;
        }
        let mut scores: Vec<ScoreJson> = Vec::new();
        let mut j: usize = 0;
        while j < result.scores.len()
            invariant
                j <= result.scores@.len(),
                scores@.len() == j,
                forall|t: int| 0 <= t < j ==> score_json_of(#[trigger] scores@[t], result.scores@[t]),
            decreases result.scores@.len() - j,
        {
            scores.push(ScoreJson::from_score(&result.scores[j]));
            j = j + 1;
        }
        let location = match &result.location {
            Some(l) => Some(LocationJson::from_location(l)),
            None => None,
        };
        SearchResultJson {
            items,
            scores,
            total_matched: result.total_matched,
            total_files: result.total_files,
            location,
        }
    }
}

} // verus!
