//! Indexed files, scores, pagination and the content cache budget.

use vstd::prelude::*;

verus! {

/// A single indexed file with its metadata and frecency scores.
///
/// `git_status` holds the raw git status bit set (see [`crate::git`]).
pub struct FileItem {
    pub path: String,
    pub relative_path: String,
    pub file_name: String,
    pub size: u64,
    pub modified: u64,
    pub access_frecency_score: i32,
    pub modification_frecency_score: i32,
    pub total_frecency_score: i32,
    pub git_status: Option<u32>,
    pub is_binary: bool,
    /// Tombstone: the file was deleted but its index slot is kept.
    pub is_deleted: bool,
}

impl FileItem {
    /// A file with the given metadata, zero frecency and not deleted.
    pub fn new_raw(
        path: String,
        relative_path: String,
        file_name: String,
        size: u64,
        modified: u64,
        git_status: Option<u32>,
        is_binary: bool,
    ) -> (r: Self)
        ensures
            r.path@ == path@,
            r.relative_path@ == relative_path@,
            r.file_name@ == file_name@,
            r.size == size,
            r.modified == modified,
            r.access_frecency_score == 0,
            r.modification_frecency_score == 0,
            r.total_frecency_score == 0,
            r.git_status == git_status,
            r.is_binary == is_binary,
            !r.is_deleted,
    {
        FileItem {
            path,
            relative_path,
            file_name,
            size,
            modified,
            access_frecency_score: 0,
            modification_frecency_score: 0,
            total_frecency_score: 0,
            git_status,
            is_binary,
            is_deleted: false,
        }
    }
}

/// Breakdown of the ranking score of one search result.
pub struct Score {
    pub total: i32,
    pub base_score: i32,
    pub filename_bonus: i32,
    pub special_filename_bonus: i32,
    pub frecency_boost: i32,
    pub git_status_boost: i32,
    pub distance_penalty: i32,
    pub current_file_penalty: i32,
    pub combo_match_boost: i32,
    pub exact_match: bool,
    pub match_type: &'static str,
}

impl Clone for Score {
    fn clone(&self) -> (r: Self)
        ensures
            r == *self,
    {
        Score { match_type: self.match_type, ..*self }
    }
}

impl Default for Score {
    fn default() -> (r: Self)
        ensures
            r.total == 0 && r.base_score == 0 && r.filename_bonus == 0 && r.special_filename_bonus == 0
                && r.frecency_boost == 0 && r.git_status_boost == 0 && r.distance_penalty == 0
                && r.current_file_penalty == 0 && r.combo_match_boost == 0 && !r.exact_match
                && r.match_type@.len() == 0,
    {
        proof {
            reveal_strlit("");
        }
        Score {
            total: 0,
            base_score: 0,
            filename_bonus: 0,
            special_filename_bonus: 0,
            frecency_boost: 0,
            git_status_boost: 0,
            distance_penalty: 0,
            current_file_penalty: 0,
            combo_match_boost: 0,
            exact_match: false,
            match_type: "",
        }
    }
}

/// Offset/limit pagination of search results.
#[derive(Clone, Copy)]
pub struct PaginationArgs {
    pub offset: usize,
    pub limit: usize,
}

impl Default for PaginationArgs {
    fn default() -> (r: Self)
        ensures
            r.offset == 0,
            r.limit == 100,
    {
        PaginationArgs { offset: 0, limit: 100 }
    }
}

/// Largest file whose content is cached.
pub const MAX_MMAP_FILE_SIZE: u64 = 10485760;

/// Default byte budget of the content cache.
pub const MAX_CACHED_CONTENT_BYTES: u64 = 536870912;

/// Budget limiting how many files (and bytes) may have their content cached.
pub struct ContentCacheBudget {
    pub max_files: usize,
    pub max_bytes: u64,
    pub max_file_size: u64,
    pub cached_count: usize,
    pub cached_bytes: u64,
}

/// How the content of one file is obtained for a search.
pub enum ContentSource {
    /// Already cached: reuse it.
    Cached,
    /// Load it and keep it in the cache.
    LoadAndCache,
    /// Load it for this search only (the cache budget is exhausted).
    LoadTemporary,
    /// Not searchable (empty, too large or binary).
    Skip,
}

impl ContentCacheBudget {
    /// No limits: every eligible file is cached.
    pub fn unlimited() -> (r: Self)
        ensures
            r.max_files == usize::MAX,
            r.max_bytes == u64::MAX,
            r.max_file_size == MAX_MMAP_FILE_SIZE,
            r.cached_count == 0,
            r.cached_bytes == 0,
    {
        ContentCacheBudget {
            max_files: usize::MAX,
            max_bytes: u64::MAX,
            max_file_size: MAX_MMAP_FILE_SIZE,
            cached_count: 0,
            cached_bytes: 0,
        }
    }

    /// Nothing may be cached.
    pub fn zero() -> (r: Self)
        ensures
            r.max_files == 0,
            r.max_bytes == 0,
            r.max_file_size == 0,
            r.cached_count == 0,
            r.cached_bytes == 0,
    {
        ContentCacheBudget { max_files: 0, max_bytes: 0, max_file_size: 0, cached_count: 0, cached_bytes: 0 }
    }

    /// Budget scaled to the size of a repository: large repositories get
    /// tighter file and byte limits.
    pub fn new_for_repo(file_count: usize) -> (r: Self)
        ensures
            r.max_files == (if file_count > 50000 {
                5000
            } else if file_count > 10000 {
                10000
            } else {
                30000usize
            }),
            r.max_bytes == (if file_count > 50000 {
                134217728
            } else if file_count > 10000 {
                268435456
            } else {
                MAX_CACHED_CONTENT_BYTES
            }),
            r.max_file_size == MAX_MMAP_FILE_SIZE,
            r.cached_count == 0,
            r.cached_bytes == 0,
    {
        let max_files = if file_count > 50000 {
            5000
        } else if file_count > 10000 {
            10000
        } else {
            30000
        };
        let max_bytes = if file_count > 50000 {
            134217728
        } else if file_count > 10000 {
            268435456
        } else {
            MAX_CACHED_CONTENT_BYTES
        };
        ContentCacheBudget {
            max_files,
            max_bytes,
            max_file_size: MAX_MMAP_FILE_SIZE,
            cached_count: 0,
            cached_bytes: 0,
        }
    }

    /// Reset the counters (the index was rebuilt).
    pub fn reset(&mut self)
        ensures
            final(self).cached_count == 0,
            final(self).cached_bytes == 0,
            final(self).max_files == old(self).max_files,
            final(self).max_bytes == old(self).max_bytes,
            final(self).max_file_size == old(self).max_file_size,
    {
        self.cached_count = 0;
        self.cached_bytes = 0;
    }

    /// Whether a file of `size` bytes may be loaded into the persistent cache.
    pub open spec fn admits(&self, size: u64) -> bool {
        &&& size != 0
        &&& size <= self.max_file_size
        &&& self.cached_count < self.max_files
        &&& self.cached_bytes as int + size as int <= self.max_bytes
    }

    /// Decide how a search obtains the content of a file of `size` bytes.
    pub fn content_source(&self, size: u64, is_binary: bool, cached: bool) -> (r: ContentSource)
        ensures
            r == (if cached {
                ContentSource::Cached
            } else if self.admits(size) {
                ContentSource::LoadAndCache
            } else if is_binary || size == 0 || size > self.max_file_size {
                ContentSource::Skip
            } else {
                ContentSource::LoadTemporary
            }),
    {
        if cached {
            return ContentSource::Cached;
        }
        if size != 0 && size <= self.max_file_size && self.cached_count < self.max_files
            && (self.cached_bytes as u128) + (size as u128) <= self.max_bytes as u128 {
            return ContentSource::LoadAndCache;
        }
        if is_binary || size == 0 || size > self.max_file_size {
            ContentSource::Skip
        } else {
            ContentSource::LoadTemporary
        }
    }

    /// Account for a newly cached file of `size` bytes (counters wrap like
    /// the atomic counters they model).
    pub fn record_cached(&mut self, size: u64)
        ensures
            final(self).cached_count == (if old(self).cached_count == usize::MAX { 0 } else { (old(self).cached_count + 1) as usize }),
            final(self).cached_bytes == ((old(self).cached_bytes as int + size as int) % 0x1_0000_0000_0000_0000) as u64,
            final(self).max_files == old(self).max_files,
            final(self).max_bytes == old(self).max_bytes,
            final(self).max_file_size == old(self).max_file_size,
    {
        self.cached_count = if self.cached_count == usize::MAX { 0 } else { self.cached_count + 1 };
        self.cached_bytes = ((self.cached_bytes as u128 + size as u128) % 0x1_0000_0000_0000_0000u128) as u64;
    }

    /// Account for a cached file of `size` bytes being dropped (its content was invalidated).
    pub fn release(&mut self, size: u64)
        ensures
            final(self).cached_count == (if old(self).cached_count == 0 { usize::MAX } else { (old(self).cached_count - 1) as usize }),
            final(self).cached_bytes == ((old(self).cached_bytes as int - size as int + 0x1_0000_0000_0000_0000) % 0x1_0000_0000_0000_0000) as u64,
            final(self).max_files == old(self).max_files,
            final(self).max_bytes == old(self).max_bytes,
            final(self).max_file_size == old(self).max_file_size,
    {
        self.cached_count = if self.cached_count == 0 { usize::MAX } else { self.cached_count - 1 };
        self.cached_bytes = ((self.cached_bytes as u128 + 0x1_0000_0000_0000_0000u128 - size as u128) % 0x1_0000_0000_0000_0000u128) as u64;
    }
}

impl Default for ContentCacheBudget {
    fn default() -> (r: Self)
        ensures
            r.max_files == 10000,
            r.max_bytes == 268435456,
            r.max_file_size == MAX_MMAP_FILE_SIZE,
            r.cached_count == 0,
            r.cached_bytes == 0,
    {
        Self::new_for_repo(30000)
    }
}

} // verus!
