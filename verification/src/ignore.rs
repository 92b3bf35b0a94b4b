//! Ignore rules: the combined document of git exclude files, and the
//! directories skipped when walking a root that is not a git repository.

use vstd::prelude::*;
use crate::text::chars_of;

verus! {

/// The ignore rules in force for a root: the concatenated content of the
/// exclude files that could be read, those files, and every source
/// watched for changes (read or not).
pub struct GitIgnorePolicy {
    pub base_document: String,
    pub ignore_files: Vec<String>,
    pub sources: Vec<String>,
}

/// The strings of a list.
pub open spec fn strs(v: Seq<String>) -> Seq<Seq<char>> {
    v.map_values(|s: String| s@)
}

/// `content` as appended to the document: followed by a newline unless it
/// ends with one.
pub open spec fn with_newline(content: Seq<char>) -> Seq<char> {
    if content.len() > 0 && content.last() == '\n' {
        content
    } else {
        content.push('\n')
    }
}

impl GitIgnorePolicy {
    /// No rules and no sources.
    pub fn new() -> (r: Self)
        ensures
            r.base_document@ == Seq::<char>::empty(),
            r.ignore_files@.len() == 0,
            r.sources@.len() == 0,
    {
        GitIgnorePolicy { base_document: String::new(), ignore_files: Vec::new(), sources: Vec::new() }
    }

    /// Add an exclude file: `content` is what reading `path` gave (`None`
    /// when it could not be read). Read content is appended to the document
    /// and the file recorded as loaded; the path is watched either way.
    pub fn add_source(&mut self, path: String, content: Option<String>)
        ensures
            final(self).base_document@ == match content {
                Some(c) => old(self).base_document@ + with_newline(c@),
                None => old(self).base_document@,
            },
            strs(final(self).ignore_files@) == match content {
                Some(_) => strs(old(self).ignore_files@).push(path@),
                None => strs(old(self).ignore_files@),
            },
            strs(final(self).sources@) == strs(old(self).sources@).push(path@),
    {
        let ghost files0 = strs(self.ignore_files@);
        let ghost sources0 = strs(self.sources@);
        if let Some(c) = content {
            self.base_document.append(c.as_str());
            let n = c.as_str().unicode_len();
            if n == 0 || c.as_str().get_char(n - 1) != '\n' {
                self.base_document.append("\n");
                proof {
                    reveal_strlit("\n");
                }
            }
            self.ignore_files.push(path.clone());
            proof {
                assert(strs(self.ignore_files@) =~= files0.push(path@));
            }
        }
        self.sources.push(path);
        proof {
            assert(strs(self.sources@) =~= sources0.push(path@));
        }
    }

    /// The rule lines of the document.
    pub fn patterns(&self) -> (r: Vec<String>)
        ensures
            strs(r@) == lines(self.base_document@),
    {
        split_lines(self.base_document.as_str())
    }
}

/// `s` with one trailing carriage return removed.
pub open spec fn strip_cr(s: Seq<char>) -> Seq<char> {
    if s.len() > 0 && s.last() == '\r' {
        s.drop_last()
    } else {
        s
    }
}

/// Lines of the first `n` characters that end in a newline, each without
/// its newline; and the unterminated rest.
pub open spec fn line_split(s: Seq<char>, n: nat) -> (Seq<Seq<char>>, Seq<char>)
    decreases n,
{
    if n == 0 {
        (seq![], seq![])
    } else {
        let (done, cur) = line_split(s, (n - 1) as nat);
        if s[n - 1] == '\n' {
            (done.push(strip_cr(cur)), seq![])
        } else {
            (done, cur.push(s[n - 1]))
        }
    }
}

/// The lines of `s` as `str::lines` gives them: split at each newline, a
/// trailing carriage return dropped from each, and no empty last line for
/// text that ends with a newline.
pub open spec fn lines(s: Seq<char>) -> Seq<Seq<char>> {
    let (done, rest) = line_split(s, s.len());
    if rest.len() > 0 {
        done.push(strip_cr(rest))
    } else {
        done
    }
}

/// `s[start..end]` without a trailing carriage return.
fn line_at(s: &str, chars: &Vec<char>, start: usize, end: usize) -> (r: String)
    requires
        chars@ == s@,
        start <= end <= s@.len(),
    ensures
        r@ == strip_cr(s@.subrange(start as int, end as int)),
{
    let e = if end > start && chars[end - 1] == '\r' { end - 1 } else { end };
    let sub = s.substring_char(start, e);
    proof {
        assert(sub@ =~= strip_cr(s@.subrange(start as int, end as int)));
    }
    String::from_str(sub)
}

/// The lines of `s` (see [`lines`]).
pub fn split_lines(s: &str) -> (r: Vec<String>)
    ensures
        strs(r@) == lines(s@),
{
    let chars = chars_of(s);
    let mut done: Vec<String> = Vec::new();
    let mut start: usize = 0;
    let mut i: usize = 0;
    while i < chars.len()
        invariant
            start <= i <= chars@.len(),
            chars@ == s@,
            strs(done@) == line_split(s@, i as nat).0,
            s@.subrange(start as int, i as int) == line_split(s@, i as nat).1,
        decreases chars@.len() - i,
    {
        if chars[i] == '\n' {
            let line = line_at(s, &chars, start, i);
            let ghost d0 = strs(done@);
            done.push(line);
            proof {
                assert(strs(done@) =~= d0.push(strip_cr(s@.subrange(start as int, i as int))));
                assert(s@.subrange(i + 1, i + 1) =~= Seq::<char>::empty());
            }
            start = i + 1;
        } else {
            proof {
                assert(s@.subrange(start as int, i + 1) =~= s@.subrange(start as int, i as int).push(s@[i as int]));
            }
        }
        i = i + 1;
    }
    if start < chars.len() {
        let line = line_at(s, &chars, start, chars.len());
        let ghost d0 = strs(done@);
        done.push(line);
        proof {
            assert(strs(done@) =~= d0.push(strip_cr(s@.subrange(start as int, i as int))));
        }
    }
    done
}

/// Directories skipped when walking a root that is not a git repository.
pub open spec fn ignored_dirs() -> Seq<Seq<char>> {
    seq![
        "node_modules"@,
        "__pycache__"@,
        "venv"@,
        ".venv"@,
        "target/debug"@,
        "target/release"@,
        "target/rust-analyzer"@,
        "target/criterion"@,
    ]
}

/// Whether `needle` occurs in `hay`.
pub open spec fn contains_sub(hay: Seq<char>, needle: Seq<char>) -> bool {
    exists|i: int| 0 <= i && i + needle.len() <= hay.len() && #[trigger] hay.subrange(i, i + needle.len()) == needle
}

/// Whether `nd` occurs in `hay` at `i`.
fn matches_at(hay: &Vec<char>, nd: &Vec<char>, i: usize) -> (r: bool)
    requires
        nd@.len() <= hay@.len(),
        i <= hay@.len() - nd@.len(),
    ensures
        r == (hay@.subrange(i as int, i + nd@.len()) == nd@),
{
    let n = nd.len();
    let hl = hay.len();
    let mut k: usize = 0;
    while k < n
        invariant
            hl == hay@.len(),
            k <= n == nd@.len() <= hay@.len(),
            i <= hay@.len() - n,
            forall|t: int| 0 <= t < k ==> hay@[i + t] == nd@[t],
        decreases n - k,
    {
        if hay[i + k] != nd[k] {
            proof {
                assert(hay@.subrange(i as int, i + n)[k as int] != nd@[k as int]);
            }
            return false;
        }
        k = k + 1;
    }
    proof {
        assert(hay@.subrange(i as int, i + n) =~= nd@);
    }
    true
}

/// Whether `needle` occurs in `hay`.
fn find_sub(hay: &Vec<char>, needle: &str) -> (r: bool)
    ensures
        r == contains_sub(hay@, needle@),
{
    let nd = chars_of(needle);
    let n = nd.len();
    if n == 0 {
        proof {
            assert(needle@.len() == 0);
            assert(hay@.subrange(0int, 0int + needle@.len()) =~= needle@);
        }
        return true;
    }
    if n > hay.len() {
        proof {
            if contains_sub(hay@, needle@) {
                let i = choose|i: int| 0 <= i && i + needle@.len() <= hay@.len() && #[trigger] hay@.subrange(i, i + needle@.len()) == needle@;
            }
        }
        return false;
    }
    let mut i: usize = 0;
    while i <= hay.len() - n
        invariant
            1 <= n == nd@.len() <= hay@.len(),
            nd@ == needle@,
            i <= hay@.len() - n + 1,
            forall|j: int| 0 <= j < i ==> #[trigger] hay@.subrange(j, j + n) != needle@,
        decreases hay@.len() - i,
    {
        if matches_at(hay, &nd, i) {
            proof {
                assert(hay@.subrange(i as int, i + n) =~= needle@);
            }
            return true;
        }
        i = i + 1;
    }
    proof {
        if contains_sub(hay@, needle@) {
            let j = choose|j: int| 0 <= j && j + needle@.len() <= hay@.len() && #[trigger] hay@.subrange(j, j + needle@.len()) == needle@;
            assert(j < i);
        }
    }
    false
}

/// Whether `comp` is a whole `/`-separated component of `path`.
pub open spec fn has_component(path: Seq<char>, comp: Seq<char>) -> bool {
    exists|i: int| {
        &&& 0 <= i && i + comp.len() <= path.len()
        &&& #[trigger] path.subrange(i, i + comp.len()) == comp
        &&& (i == 0 || path[i - 1] == '/')
        &&& (i + comp.len() == path.len() || path[i + comp.len()] == '/')
    }
}

/// Whether a path lies in a directory that holds no code worth indexing
/// (dependencies, virtual environments, build output): it contains one of
/// [`ignored_dirs`], or has a `target` component.
pub open spec fn is_non_code(path: Seq<char>) -> bool {
    ||| exists|k: int| 0 <= k < ignored_dirs().len() && contains_sub(path, #[trigger] ignored_dirs()[k])
    ||| has_component(path, "target"@)
}

/// Whether `comp` is a whole component of the path held in `hay`.
fn find_component(hay: &Vec<char>, comp: &str) -> (r: bool)
    requires
        comp@.len() > 0,
    ensures
        r == has_component(hay@, comp@),
{
    let nd = chars_of(comp);
    let n = nd.len();
    if n > hay.len() {
        proof {
            if has_component(hay@, comp@) {
                let i = choose|i: int| {
                    &&& 0 <= i && i + comp@.len() <= hay@.len()
                    &&& #[trigger] hay@.subrange(i, i + comp@.len()) == comp@
                    &&& (i == 0 || hay@[i - 1] == '/')
                    &&& (i + comp@.len() == hay@.len() || hay@[i + comp@.len()] == '/')
                };
            }
        }
        return false;
    }
    let mut i: usize = 0;
    while i <= hay.len() - n
        invariant
            1 <= n == nd@.len() <= hay@.len(),
            nd@ == comp@,
            i <= hay@.len() - n + 1,
            forall|j: int| 0 <= j < i ==> !{
                &&& #[trigger] hay@.subrange(j, j + n) == comp@
                &&& (j == 0 || hay@[j - 1] == '/')
                &&& (j + n == hay@.len() || hay@[j + n] == '/')
            },
        decreases hay@.len() - i,
    {
        let start_ok = i == 0 || hay[i - 1] == '/';
        let end_ok = i + n == hay.len() || hay[i + n] == '/';
        if start_ok && end_ok && matches_at(hay, &nd, i) {
            return true;
        }
        i = i + 1;
    }
    proof {
        if has_component(hay@, comp@) {
            let j = choose|j: int| {
                &&& 0 <= j && j + comp@.len() <= hay@.len()
                &&& #[trigger] hay@.subrange(j, j + comp@.len()) == comp@
                &&& (j == 0 || hay@[j - 1] == '/')
                &&& (j + comp@.len() == hay@.len() || hay@[j + comp@.len()] == '/')
            };
            assert(j < i);
        }
    }
    false
}

/// Whether `path` lies in a directory without code (see [`is_non_code`]).
pub fn is_non_code_directory(path: &str) -> (r: bool)
    ensures
        r == is_non_code(path@),
{
    let hay = chars_of(path);
    let dirs: [&str; 8] = [
        "node_modules",
        "__pycache__",
        "venv",
        ".venv",
        "target/debug",
        "target/release",
        "target/rust-analyzer",
        "target/criterion",
    ];
    let mut k: usize = 0;
    while k < 8
        invariant
            k <= 8,
            hay@ == path@,
            forall|t: int| 0 <= t < 8 ==> (#[trigger] dirs@[t])@ == ignored_dirs()[t],
            forall|t: int| 0 <= t < k ==> !contains_sub(path@, #[trigger] ignored_dirs()[t]),
        decreases 8 - k,
    {
        if find_sub(&hay, dirs[k]) {
            return true;
        }
        k = k + 1;
    }
    proof {
        reveal_strlit("target");
    }
    find_component(&hay, "target")
}

/// Override globs that exclude the directories without code when a root
/// is walked without git: `!**/<dir>/` for each of [`ignored_dirs`].
pub fn non_git_repo_overrides() -> (r: Vec<String>)
    ensures
        strs(r@) == ignored_dirs().map_values(|d: Seq<char>| "!**/"@ + d + "/"@),
{
    let dirs: [&str; 8] = [
        "node_modules",
        "__pycache__",
        "venv",
        ".venv",
        "target/debug",
        "target/release",
        "target/rust-analyzer",
        "target/criterion",
    ];
    let ghost want = ignored_dirs().map_values(|d: Seq<char>| "!**/"@ + d + "/"@);
    let mut out: Vec<String> = Vec::new();
    let mut k: usize = 0;
    while k < 8
        invariant
            k <= 8,
            forall|t: int| 0 <= t < 8 ==> (#[trigger] dirs@[t])@ == ignored_dirs()[t],
            want == ignored_dirs().map_values(|d: Seq<char>| "!**/"@ + d + "/"@),
            strs(out@) == want.take(k as int),
        decreases 8 - k,
    {
        let mut g = String::from_str("!**/");
        g.append(dirs[k]);
        g.append("/");
        let ghost o0 = strs(out@);
        out.push(g);
        proof {
            assert(want[k as int] == "!**/"@ + ignored_dirs()[k as int] + "/"@);
            assert(strs(out@) =~= o0.push(g@));
            assert(want.take(k + 1) =~= want.take(k as int).push(want[k as int]));
        }
        k = k + 1;
    }
    proof {
        assert(want.take(8) =~= want);
    }
    out
}

} // verus!
