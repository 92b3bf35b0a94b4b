//! Messages exchanged between the search clients and the daemon, and the
//! length-prefixed frame that carries each serialized message:
//! `[4-byte little-endian payload length][payload]`.

use vstd::prelude::*;

verus! {

/// A request to the daemon.
pub enum SearchRequest {
    Grep { query: String, options: GrepOptions },
    FindFiles { query: String, options: FindOptions },
    /// OR search over several patterns; `constraints` is a raw constraint query.
    MultiGrep { patterns: Vec<String>, constraints: Option<String>, options: GrepOptions },
    /// Fire-and-forget frecency write; the daemon sends no response.
    RecordAccess { path: String },
    /// Change the daemon's log filter.
    SetLogLevel { level: String },
}

/// A response from the daemon.
pub enum SearchResponse {
    SearchResults(Vec<WireSearchResult>),
    GrepResults(WireGrepResponse),
    Error(String),
    Ack,
}

/// Grep results, grouped by file.
pub struct WireGrepResponse {
    pub matches: Vec<WireGrepFileMatches>,
    pub total_files_searched: usize,
    pub total_files: usize,
    pub files_with_matches: usize,
    pub next_file_offset: usize,
    pub regex_fallback_error: Option<String>,
}

/// All matches of one file.
pub struct WireGrepFileMatches {
    pub path: String,
    pub size: u64,
    pub git_status: Option<u32>,
    /// Access plus modification frecency.
    pub frecency_score: i32,
    pub matches: Vec<WireGrepMatch>,
}

/// One matched line.
pub struct WireGrepMatch {
    pub line_number: u64,
    pub col: usize,
    pub line_text: String,
    /// Byte ranges `(start, end)` of each match within `line_text`.
    pub match_byte_offsets: Vec<(u32, u32)>,
    pub is_definition: bool,
    pub context_before: Vec<String>,
    pub context_after: Vec<String>,
}

/// One ranked file of a find-files search.
pub struct WireSearchResult {
    pub path: String,
    pub score: i32,
    pub git_status: Option<u32>,
    /// Access plus modification frecency.
    pub frecency_score: i32,
}

/// One changed file of a git-status listing.
pub struct WireGitFile {
    pub path: String,
    /// Status name (see [`crate::git::format_git_status`]).
    pub status: String,
    pub frecency_score: i32,
}

/// One directory of a directory listing, with the highest frecency of its files.
pub struct WireDirEntry {
    pub path: String,
    pub max_frecency: i64,
}

/// How a grep pattern is interpreted.
#[derive(Clone, Copy, PartialEq, Eq, Structural)]
pub enum WireGrepMode {
    PlainText,
    Regex,
    Fuzzy,
}

/// Grep options sent over the wire.
pub struct GrepOptions {
    pub max_file_size: u64,
    pub max_matches_per_file: usize,
    pub smart_case: bool,
    pub file_offset: usize,
    pub page_limit: usize,
    pub mode: WireGrepMode,
    pub time_budget_ms: u64,
    pub before_context: usize,
    pub after_context: usize,
    pub classify_definitions: bool,
    pub trim_whitespace: bool,
}

impl Default for GrepOptions {
    fn default() -> (r: Self)
        ensures
            r.max_file_size == 10485760,
            r.max_matches_per_file == 10,
            r.smart_case,
            r.file_offset == 0,
            r.page_limit == 50,
            r.mode == WireGrepMode::PlainText,
            r.time_budget_ms == 0,
            r.before_context == 0,
            r.after_context == 0,
            !r.classify_definitions,
            r.trim_whitespace,
    {
        GrepOptions {
            max_file_size: 10485760,
            max_matches_per_file: 10,
            smart_case: true,
            file_offset: 0,
            page_limit: 50,
            mode: WireGrepMode::PlainText,
            time_budget_ms: 0,
            before_context: 0,
            after_context: 0,
            classify_definitions: false,
            trim_whitespace: true,
        }
    }
}

/// Find-files options sent over the wire.
pub struct FindOptions {
    pub max_threads: usize,
    pub current_file: Option<String>,
    pub combo_boost_score_multiplier: i32,
    pub min_combo_count: u32,
    pub offset: usize,
    pub limit: usize,
}

impl Default for FindOptions {
    fn default() -> (r: Self)
        ensures
            r.max_threads == 0,
            r.current_file is None,
            r.combo_boost_score_multiplier == 3,
            r.min_combo_count == 2,
            r.offset == 0,
            r.limit == 20,
    {
        FindOptions {
            max_threads: 0,
            current_file: None,
            combo_boost_score_multiplier: 3,
            min_combo_count: 2,
            offset: 0,
            limit: 20,
        }
    }
}

/// Why a frame could not be taken from a buffer.
#[derive(PartialEq, Eq, Structural, Debug)]
pub enum FrameError {
    /// Fewer than four bytes: the length prefix is incomplete.
    TruncatedHeader,
    /// The payload is shorter than the length prefix announces.
    TruncatedPayload { expected: usize, available: usize },
}

/// Little-endian bytes of `v`.
pub open spec fn le32_bytes(v: u32) -> Seq<u8> {
    seq![(v % 0x100) as u8, ((v / 0x100) % 0x100) as u8, ((v / 0x1_0000) % 0x100) as u8, (v / 0x100_0000) as u8]
}

/// Little-endian value of four bytes.
pub open spec fn le32_value(b: Seq<u8>) -> nat {
    (b[0] as nat + b[1] as nat * 0x100 + b[2] as nat * 0x1_0000 + b[3] as nat * 0x100_0000) as nat
}

/// The frame of `payload`: its length truncated to 32 bits, little endian,
/// then the payload itself.
pub open spec fn frame_spec(payload: Seq<u8>) -> Seq<u8> {
    le32_bytes((payload.len() % 0x1_0000_0000) as u32) + payload
}

/// Frame a serialized message.
pub fn encode_frame(payload: &[u8]) -> (r: Vec<u8>)
    ensures
        r@ == frame_spec(payload@),
{
    let len = (payload.len() as u64 % 0x1_0000_0000) as u32;
    let mut out: Vec<u8> = Vec::new();
    out.push((len % 0x100) as u8);
    out.push(((len / 0x100) % 0x100) as u8);
    out.push(((len / 0x1_0000) % 0x100) as u8);
    out.push((len / 0x100_0000) as u8);
    out.extend_from_slice(payload);
    proof {
        assert(out@ =~= frame_spec(payload@));
    }
    out
}

/// Payload length announced by a frame header.
pub fn frame_len(header: &[u8]) -> (r: usize)
    requires
        header@.len() >= 4,
    ensures
        r as nat == le32_value(header@),
{
    (header[0] as u32 + header[1] as u32 * 0x100 + header[2] as u32 * 0x1_0000 + header[3] as u32 * 0x100_0000) as usize
}

/// What [`decode_frame`] yields for `buf`: the payload of its first frame and
/// the number of bytes the frame occupies.
pub open spec fn decode_spec(buf: Seq<u8>) -> Result<(Seq<u8>, nat), FrameError> {
    if buf.len() < 4 {
        Err(FrameError::TruncatedHeader)
    } else if buf.len() - 4 < le32_value(buf) {
        Err(FrameError::TruncatedPayload { expected: le32_value(buf) as usize, available: (buf.len() - 4) as usize })
    } else {
        Ok((buf.subrange(4, 4 + le32_value(buf) as int), 4 + le32_value(buf)))
    }
}

/// Take the first frame from `buf`.
pub fn decode_frame(buf: &[u8]) -> (r: Result<(&[u8], usize), FrameError>)
    ensures
        match r {
            Ok((p, n)) => decode_spec(buf@) == Ok::<(Seq<u8>, nat), FrameError>((p@, n as nat)),
            Err(e) => decode_spec(buf@) == Err::<(Seq<u8>, nat), FrameError>(e),
        },
{
    if buf.len() < 4 {
        return Err(FrameError::TruncatedHeader);
    }
    let len = frame_len(buf);
    let available = buf.len() - 4;
    if available < len {
        return Err(FrameError::TruncatedPayload { expected: len, available });
    }
    let payload = vstd::slice::slice_subrange(buf, 4, 4 + len);
    Ok((payload, 4 + len))
}

/// Decoding a frame gives back the framed payload, for any payload shorter
/// than 4 GiB.
pub proof fn lemma_frame_round_trip(payload: Seq<u8>)
    requires
        payload.len() < 0x1_0000_0000,
    ensures
        decode_spec(frame_spec(payload)) == Ok::<(Seq<u8>, nat), FrameError>((payload, 4 + payload.len())),
{
    let f = frame_spec(payload);
    let v = payload.len() as u32;
    assert(le32_value(f) == payload.len());
    assert(f.subrange(4, 4 + payload.len() as int) =~= payload);
}

} // verus!
