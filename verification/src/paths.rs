//! Per-project artefact paths (sockets, lockfiles, logs) and the XDG
//! directory choices. Environment lookups and path canonicalisation happen
//! in the caller, which passes their results in.

use vstd::prelude::*;
use crate::hashing::{base_path_slug, blake3_digest, hex_bytes, slug_bytes};
use crate::grep::views;
use crate::output::contains_str;
use crate::text::{chars_of, join_path, join_spec, str_eq};
use vstd::string::StrSliceExecFns;

verus! {

/// `<cache_dir>/fff/<kind>/<slug><ext>`.
pub open spec fn artefact_spec(cache_dir: Seq<char>, kind: Seq<char>, slug: Seq<char>, ext: Seq<char>) -> Seq<char> {
    join_spec(join_spec(join_spec(cache_dir, "fff"@), kind), slug + ext)
}

/// Slug of a canonical base path, as characters.
pub open spec fn slug_chars(base_path: Seq<u8>) -> Seq<char> {
    slug_bytes(base_path).map_values(|b: u8| b as char)
}

fn artefact_path(cache_dir: &str, kind: &str, base_path: &[u8], ext: &str) -> (r: String)
    ensures
        r@ == artefact_spec(cache_dir@, kind@, slug_chars(base_path@), ext@),
{
    let slug = base_path_slug(base_path);
    let fff = join_path(cache_dir, "fff");
    let dir = join_path(fff.as_str(), kind);
    let mut file = slug;
    file.append(ext);
    join_path(dir.as_str(), file.as_str())
}

/// Socket path of a project root: `<cache_dir>/fff/sockets/<slug>.sock`.
pub fn socket_path(cache_dir: &str, canonical_base_path: &[u8]) -> (r: String)
    ensures
        r@ == artefact_spec(cache_dir@, "sockets"@, slug_chars(canonical_base_path@), ".sock"@),
{
    artefact_path(cache_dir, "sockets", canonical_base_path, ".sock")
}

/// Lockfile path of a project root: `<cache_dir>/fff/locks/<slug>.lock`.
pub fn lockfile_path(cache_dir: &str, canonical_base_path: &[u8]) -> (r: String)
    ensures
        r@ == artefact_spec(cache_dir@, "locks"@, slug_chars(canonical_base_path@), ".lock"@),
{
    artefact_path(cache_dir, "locks", canonical_base_path, ".lock")
}

/// Log path of a project root: `<cache_dir>/fff/logs/<slug>.log`.
pub fn log_path(cache_dir: &str, canonical_base_path: &[u8]) -> (r: String)
    ensures
        r@ == artefact_spec(cache_dir@, "logs"@, slug_chars(canonical_base_path@), ".log"@),
{
    artefact_path(cache_dir, "logs", canonical_base_path, ".log")
}

/// The XDG cache directory: a non-empty `$XDG_CACHE_HOME`, else
/// `<home>/.cache`, else the platform cache directory, else `/tmp`.
pub open spec fn xdg_cache_dir_spec(xdg: Option<Seq<char>>, home: Option<Seq<char>>, platform: Option<Seq<char>>) -> Seq<char> {
    if xdg is Some && xdg->0.len() > 0 {
        xdg->0
    } else if home is Some {
        join_spec(home->0, ".cache"@)
    } else if platform is Some {
        platform->0
    } else {
        "/tmp"@
    }
}

/// The XDG data directory: a non-empty `$XDG_DATA_HOME`, else
/// `<home>/.local/share`, else the platform data directory, else `/tmp`.
pub open spec fn xdg_data_dir_spec(xdg: Option<Seq<char>>, home: Option<Seq<char>>, platform: Option<Seq<char>>) -> Seq<char> {
    if xdg is Some && xdg->0.len() > 0 {
        xdg->0
    } else if home is Some {
        join_spec(join_spec(home->0, ".local"@), "share"@)
    } else if platform is Some {
        platform->0
    } else {
        "/tmp"@
    }
}

pub open spec fn opt_view(o: Option<&str>) -> Option<Seq<char>> {
    match o {
        Some(s) => Some(s@),
        None => None,
    }
}

/// Choose the XDG cache directory from `$XDG_CACHE_HOME`, the home
/// directory and the platform cache directory.
pub fn xdg_cache_dir(xdg_cache_home: Option<&str>, home: Option<&str>, platform_cache: Option<&str>) -> (r: String)
    ensures
        r@ == xdg_cache_dir_spec(opt_view(xdg_cache_home), opt_view(home), opt_view(platform_cache)),
{
    if let Some(v) = xdg_cache_home {
        if v.unicode_len() > 0 {
            return String::from_str(v);
        }
    }
    if let Some(h) = home {
        return join_path(h, ".cache");
    }
    match platform_cache {
        Some(p) => String::from_str(p),
        None => String::from_str("/tmp"),
    }
}

/// Choose the XDG data directory from `$XDG_DATA_HOME`, the home directory
/// and the platform data directory.
pub fn xdg_data_dir(xdg_data_home: Option<&str>, home: Option<&str>, platform_data: Option<&str>) -> (r: String)
    ensures
        r@ == xdg_data_dir_spec(opt_view(xdg_data_home), opt_view(home), opt_view(platform_data)),
{
    if let Some(v) = xdg_data_home {
        if v.unicode_len() > 0 {
            return String::from_str(v);
        }
    }
    if let Some(h) = home {
        let local = join_path(h, ".local");
        return join_path(local.as_str(), "share");
    }
    match platform_data {
        Some(p) => String::from_str(p),
        None => String::from_str("/tmp"),
    }
}

/// Index of the last `c` among the first `n` characters of `s`, or -1.
pub open spec fn last_index_of(s: Seq<char>, c: char, n: int) -> int
    decreases n,
{
    if n <= 0 {
        -1
    } else if s[n - 1] == c {
        n - 1
    } else {
        last_index_of(s, c, n - 1)
    }
}

/// The slug an artefact file is named after: the name up to its last `.`,
/// when what follows that dot is `ext` (a name whose last dot is its first
/// character has no extension).
pub open spec fn artefact_slug_spec(name: Seq<char>, ext: Seq<char>) -> Option<Seq<char>> {
    let k = last_index_of(name, '.', name.len() as int);
    if k > 0 && name.subrange(k + 1, name.len() as int) == ext {
        Some(name.subrange(0, k))
    } else {
        None
    }
}

/// The slug of an artefact file name with extension `ext` (see
/// [`artefact_slug_spec`]).
pub fn artefact_slug(name: &str, ext: &str) -> (r: Option<String>)
    ensures
        match r {
            Some(s) => artefact_slug_spec(name@, ext@) == Some(s@),
            None => artefact_slug_spec(name@, ext@) is None,
        },
{
    let cs = chars_of(name);
    let n = cs.len();
    let mut k: usize = n;
    while k > 0 && cs[k - 1] != '.'
        invariant
            k <= n,
            n == cs@.len(),
            cs@ == name@,
            last_index_of(cs@, '.', n as int) == last_index_of(cs@, '.', k as int),
        decreases k,
    {
        k = k - 1;
    }
    if k <= 1 {
        return None;
    }
    let suffix = name.substring_char(k, n);
    if str_eq(suffix, ext) {
        Some(String::from_str(name.substring_char(0, k - 1)))
    } else {
        None
    }
}

/// Whether an artefact file name with extension `ext` belongs to no live
/// root: it is named after a slug that is not among `live`.
pub open spec fn is_orphan(name: Seq<char>, ext: Seq<char>, live: Seq<Seq<char>>) -> bool {
    match artefact_slug_spec(name, ext) {
        Some(s) => !live.contains(s),
        None => false,
    }
}

/// The orphans among the first `n` names, in order.
pub open spec fn orphans(names: Seq<Seq<char>>, ext: Seq<char>, live: Seq<Seq<char>>, n: nat) -> Seq<Seq<char>>
    decreases n,
{
    if n == 0 {
        seq![]
    } else {
        let prev = orphans(names, ext, live, (n - 1) as nat);
        if is_orphan(names[n - 1], ext, live) {
            prev.push(names[n - 1])
        } else {
            prev
        }
    }
}

/// The file names in an artefact directory that a clean removes: those
/// with extension `ext` named after a slug without a live lock.
pub fn orphan_artefacts(names: &Vec<String>, ext: &str, live_slugs: &Vec<String>) -> (r: Vec<String>)
    ensures
        views(r@) == orphans(views(names@), ext@, views(live_slugs@), names@.len()),
{
    let mut out: Vec<String> = Vec::new();
    let mut i: usize = 0;
    while i < names.len()
        invariant
            i <= names@.len(),
            views(out@) == orphans(views(names@), ext@, views(live_slugs@), i as nat),
        decreases names@.len() - i,
    {
        let name = names[i].as_str();
        let ghost before = out@;
        match artefact_slug(name, ext) {
            Some(slug) => {
                if !contains_str(live_slugs, slug.as_str()) {
                    out.push(names[i].clone());
                    proof {
                        assert(views(out@) =~= views(before).push(names@[i as int]@));
                    }
                }
            },
            None => {},
        }
        i = i + 1;
    }
    out
}

/// Lowercase hexadecimal digits hold no `.`.
proof fn lemma_hex_has_no_dot(b: Seq<u8>)
    ensures
        forall|j: int| 0 <= j < hex_bytes(b).len() ==> #[trigger] hex_bytes(b)[j] != 46u8,
        hex_bytes(b).len() == 2 * b.len(),
    decreases b.len(),
{
    if b.len() > 0 {
        lemma_hex_has_no_dot(b.drop_last());
    }
}

/// Skipping characters other than `c` leaves the last `c` where it was.
proof fn lemma_last_index_skip(s: Seq<char>, c: char, m: int, n: int)
    requires
        0 <= m <= n <= s.len(),
        forall|j: int| m <= j < n ==> s[j] != c,
    ensures
        last_index_of(s, c, n) == last_index_of(s, c, m),
    decreases n - m,
{
    if n > m {
        lemma_last_index_skip(s, c, m, n - 1);
    }
}

/// The name a root's artefact is given, its slug, a dot and an extension
/// without dots, reads back as that slug: a clean recognises every socket,
/// lockfile and log the daemon creates.
pub proof fn lemma_artefact_name_reads_back(base_path: Seq<u8>, ext: Seq<char>)
    requires
        !ext.contains('.'),
    ensures
        artefact_slug_spec(slug_chars(base_path) + seq!['.'] + ext, ext) == Some(slug_chars(base_path)),
{
    let slug = slug_chars(base_path);
    let name = slug + seq!['.'] + ext;
    lemma_hex_has_no_dot(Seq::new(8, |i: int| blake3_digest(base_path)[i]));
    assert(slug.len() == 16);
    assert forall|j: int| 17 <= j < name.len() implies name[j] != '.' by {
        assert(name[j] == ext[j - 17]);
    }
    lemma_last_index_skip(name, '.', 17, name.len() as int);
    assert(name[16] == '.');
    assert(last_index_of(name, '.', name.len() as int) == 16);
    assert(name.subrange(17, name.len() as int) =~= ext);
    assert(name.subrange(0, 16) =~= slug);
}

} // verus!
