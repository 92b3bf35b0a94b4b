//! What the file watcher makes of a batch of file-system events: which
//! paths leave the index, which are added or refreshed, and when only a
//! full rescan will do.
//!
//! Paths are the raw bytes of Unix paths, `/`-separated.

use vstd::prelude::*;
use vstd::utf8::encode_utf8;
use vstd::string::StringSliceAdditionalSpecFns;

verus! {

/// The bytes of `.`.
pub open spec fn dot() -> Seq<u8> {
    seq![46u8]
}

/// The bytes of `..`.
pub open spec fn dot_dot() -> Seq<u8> {
    seq![46u8, 46u8]
}

/// The bytes of the root component `/`.
pub open spec fn root() -> Seq<u8> {
    seq![47u8]
}

/// `p` split at every `/` (an empty path is one empty segment).
pub open spec fn split_slash(p: Seq<u8>) -> Seq<Seq<u8>>
    decreases p.len(),
{
    if p.len() == 0 {
        seq![seq![]]
    } else {
        let prev = split_slash(p.drop_last());
        if p.last() == 47u8 {
            prev.push(seq![])
        } else {
            prev.update(prev.len() - 1, prev.last().push(p.last()))
        }
    }
}

proof fn lemma_split_nonempty(p: Seq<u8>)
    ensures
        split_slash(p).len() >= 1,
    decreases p.len(),
{
    if p.len() > 0 {
        lemma_split_nonempty(p.drop_last());
    }
}

/// The components of the first `k` segments: empty segments dropped, `.`
/// dropped except as the very first segment.
pub open spec fn norm_segments(segs: Seq<Seq<u8>>, k: nat) -> Seq<Seq<u8>>
    decreases k,
{
    if k == 0 {
        seq![]
    } else {
        let prev = norm_segments(segs, (k - 1) as nat);
        let s = segs[k - 1];
        if s.len() == 0 || (s == dot() && k - 1 > 0) {
            prev
        } else {
            prev.push(s)
        }
    }
}

/// The components of a path, as `Path::components` yields them on Unix: a
/// leading `/` for an absolute path, then every non-empty segment, with
/// `.` kept only as the first segment of a relative path.
pub open spec fn components(p: Seq<u8>) -> Seq<Seq<u8>> {
    let segs = split_slash(p);
    let rest = norm_segments(segs, segs.len());
    if p.len() > 0 && p[0] == 47u8 {
        seq![root()] + rest
    } else {
        rest
    }
}

/// The last component when it is a name (not `/`, `.` or `..`).
pub open spec fn file_name(p: Seq<u8>) -> Option<Seq<u8>> {
    let c = components(p);
    if c.len() > 0 && c.last() != root() && c.last() != dot() && c.last() != dot_dot() {
        Some(c.last())
    } else {
        None
    }
}

/// Split `p` at every `/`.
fn split_path(p: &[u8]) -> (r: Vec<Vec<u8>>)
    ensures
        r@.len() == split_slash(p@).len(),
        forall|i: int| 0 <= i < r@.len() ==> #[trigger] r@[i]@ == split_slash(p@)[i],
{
    let mut out: Vec<Vec<u8>> = Vec::new();
    let mut cur: Vec<u8> = Vec::new();
    let mut i: usize = 0;
    proof {
        assert(p@.take(0) =~= Seq::<u8>::empty());
    }
    while i < p.len()
        invariant
            i <= p@.len(),
            split_slash(p@.take(i as int)).len() == out@.len() + 1,
            forall|j: int| 0 <= j < out@.len() ==> #[trigger] out@[j]@ == split_slash(p@.take(i as int))[j],
            cur@ == split_slash(p@.take(i as int)).last(),
        decreases p@.len() - i,
    {
        proof {
            assert(p@.take(i + 1).drop_last() =~= p@.take(i as int));
            lemma_split_nonempty(p@.take(i as int));
        }
        if p[i] == 47u8 {
            out.push(cur);
            cur = Vec::new();
        } else {
            cur.push(p[i]);
        }
        i = i + 1;
    }
    proof {
        assert(p@.take(i as int) =~= p@);
    }
    out.push(cur);
    out
}

/// Whether two byte strings are equal.
pub fn bytes_eq(a: &[u8], b: &[u8]) -> (r: bool)
    ensures
        r == (a@ == b@),
{
    if a.len() != b.len() {
        return false;
    }
    let mut i: usize = 0;
    while i < a.len()
        invariant
            i <= a@.len() == b@.len(),
            forall|j: int| 0 <= j < i ==> a@[j] == b@[j],
        decreases a@.len() - i,
    {
        if a[i] != b[i] {
            return false;
        }
        i = i + 1;
    }
    proof {
        assert(a@ =~= b@);
    }
    true
}

/// The components of `p` (see [`components`]).
pub fn path_components(p: &[u8]) -> (r: Vec<Vec<u8>>)
    ensures
        r@.len() == components(p@).len(),
        forall|i: int| 0 <= i < r@.len() ==> #[trigger] r@[i]@ == components(p@)[i],
{
    let segs = split_path(p);
    let ghost ss = split_slash(p@);
    let mut out: Vec<Vec<u8>> = Vec::new();
    let absolute = p.len() > 0 && p[0] == 47u8;
    if absolute {
        let mut r: Vec<u8> = Vec::new();
        r.push(47u8);
        proof {
            assert(r@ =~= root());
        }
        out.push(r);
    }
    let ghost head: Seq<Seq<u8>> = if absolute { seq![root()] } else { seq![] };
    let mut k: usize = 0;
    while k < segs.len()
        invariant
            k <= segs@.len() == ss.len(),
            forall|i: int| 0 <= i < segs@.len() ==> #[trigger] segs@[i]@ == ss[i],
            out@.len() == head.len() + norm_segments(ss, k as nat).len(),
            forall|i: int| 0 <= i < out@.len() ==> #[trigger] out@[i]@ == (head + norm_segments(ss, k as nat))[i],
        decreases segs@.len() - k,
    {
        let s = &segs[k];
        let is_dot = s.len() == 1 && s[0] == 46u8;
        proof {
            assert(s@ == ss[k as int]);
            if s@.len() == 1 {
                assert(is_dot == (s@ =~= dot()));
            } else {
                assert(s@ != dot());
            }
        }
        let ghost before = out@;
        if s.len() == 0 || (is_dot && k > 0) {
        } else {
            out.push(copy_bytes(s.as_slice()));
            proof {
                assert(head + norm_segments(ss, (k + 1) as nat) =~= (head + norm_segments(ss, k as nat)).push(ss[k as int]));
            }
        }
        k = k + 1;
    }
    out
}

/// A copy of `s`.
pub fn copy_bytes(s: &[u8]) -> (r: Vec<u8>)
    ensures
        r@ == s@,
{
    let mut out: Vec<u8> = Vec::new();
    let mut i: usize = 0;
    while i < s.len()
        invariant
            i <= s@.len(),
            out@ == s@.take(i as int),
        decreases s@.len() - i,
    {
        out.push(s[i]);
        proof {
            assert(out@ =~= s@.take(i + 1));
        }
        i = i + 1;
    }
    proof {
        assert(s@.take(i as int) =~= s@);
    }
    out
}

/// The bytes of `.git`.
pub open spec fn dot_git() -> Seq<u8> {
    seq![46u8, 103u8, 105u8, 116u8]
}

/// A path inside a `.git` directory (or the directory itself): one of its
/// segments is `.git`.
pub open spec fn is_git_path(p: Seq<u8>) -> bool {
    split_slash(p).contains(dot_git())
}

/// Whether `path` lies in a `.git` directory.
pub fn is_git_file(path: &[u8]) -> (r: bool)
    ensures
        r == is_git_path(path@),
{
    let segs = split_path(path);
    let git: [u8; 4] = [46u8, 103u8, 105u8, 116u8];
    proof {
        assert(git@ =~= dot_git());
    }
    let mut k: usize = 0;
    while k < segs.len()
        invariant
            k <= segs@.len() == split_slash(path@).len(),
            forall|i: int| 0 <= i < segs@.len() ==> #[trigger] segs@[i]@ == split_slash(path@)[i],
            forall|i: int| 0 <= i < k ==> split_slash(path@)[i] != dot_git(),
            git@ == dot_git(),
        decreases segs@.len() - k,
    {
        if bytes_eq(segs[k].as_slice(), &git) {
            proof {
                assert(split_slash(path@)[k as int] == dot_git());
            }
            return true;
        }
        k = k + 1;
    }
    false
}

/// The bytes of `.gitignore` and `.ignore`.
pub open spec fn gitignore_name() -> Seq<u8> {
    seq![46u8, 103u8, 105u8, 116u8, 105u8, 103u8, 110u8, 111u8, 114u8, 101u8]
}

pub open spec fn ignore_name() -> Seq<u8> {
    seq![46u8, 105u8, 103u8, 110u8, 111u8, 114u8, 101u8]
}

/// Whether the path names an ignore-rules file (`.gitignore` or `.ignore`).
pub open spec fn is_ignore_definition(p: Seq<u8>) -> bool {
    file_name(p) == Some(gitignore_name()) || file_name(p) == Some(ignore_name())
}

/// The file name of `path` (see [`file_name`]).
pub fn path_file_name(path: &[u8]) -> (r: Option<Vec<u8>>)
    ensures
        match r {
            Some(v) => file_name(path@) == Some(v@),
            None => file_name(path@) is None,
        },
{
    let comps = path_components(path);
    let n = comps.len();
    if n == 0 {
        return None;
    }
    let last = &comps[n - 1];
    let is_root = last.len() == 1 && last[0] == 47u8;
    let is_dot = last.len() == 1 && last[0] == 46u8;
    let is_dot_dot = last.len() == 2 && last[0] == 46u8 && last[1] == 46u8;
    proof {
        let c = components(path@);
        assert(last@ == c.last());
        if last@.len() == 1 {
            assert(is_root == (last@ =~= root()));
            assert(is_dot == (last@ =~= dot()));
            assert(last@ != dot_dot());
        } else if last@.len() == 2 {
            assert(is_dot_dot == (last@ =~= dot_dot()));
            assert(last@ != root() && last@ != dot());
        } else {
            assert(last@ != root() && last@ != dot() && last@ != dot_dot());
        }
    }
    if is_root || is_dot || is_dot_dot {
        None
    } else {
        Some(copy_bytes(last.as_slice()))
    }
}

/// Whether `path` names an ignore-rules file.
pub fn is_ignore_definition_path(path: &[u8]) -> (r: bool)
    ensures
        r == is_ignore_definition(path@),
{
    let gi: [u8; 10] = [46u8, 103u8, 105u8, 116u8, 105u8, 103u8, 110u8, 111u8, 114u8, 101u8];
    let ig: [u8; 7] = [46u8, 105u8, 103u8, 110u8, 111u8, 114u8, 101u8];
    proof {
        assert(gi@ =~= gitignore_name());
        assert(ig@ =~= ignore_name());
    }
    match path_file_name(path) {
        Some(name) => bytes_eq(name.as_slice(), &gi) || bytes_eq(name.as_slice(), &ig),
        None => false,
    }
}

/// The UTF-8 bytes of a name.
pub open spec fn utf8(s: Seq<char>) -> Seq<u8> {
    encode_utf8(s)
}

/// Whether a change inside the git directory `git_dir` can change file
/// statuses: the index and its lock, `HEAD`, refs and packed refs, the
/// exclude and sparse-checkout files, and in-progress merge, cherry-pick
/// and revert heads do; objects, logs and hooks do not, nor does anything
/// outside the git directory or a missing repository.
pub open spec fn dotgit_change_affects_status(changed: Seq<u8>, git_dir: Option<Seq<u8>>) -> bool {
    match git_dir {
        None => false,
        Some(g) => {
            let cc = components(changed);
            let gc = components(g);
            if gc.len() <= cc.len() && cc.take(gc.len() as int) == gc {
                let rel = cc.skip(gc.len() as int);
                if rel.len() > 0 && (rel[0] == utf8("objects"@) || rel[0] == utf8("logs"@) || rel[0] == utf8("hooks"@)) {
                    false
                } else if rel == seq![utf8("index"@)] || rel == seq![utf8("index.lock"@)] || rel == seq![utf8("HEAD"@)] {
                    true
                } else if (rel.len() > 0 && rel[0] == utf8("refs"@)) || rel == seq![utf8("packed-refs"@)] {
                    true
                } else if rel == seq![utf8("info"@), utf8("exclude"@)] || rel == seq![utf8("info"@), utf8("sparse-checkout"@)] {
                    true
                } else {
                    rel.len() > 0 && rel.last() != root() && rel.last() != dot() && rel.last() != dot_dot()
                        && (rel.last() == utf8("MERGE_HEAD"@) || rel.last() == utf8("CHERRY_PICK_HEAD"@) || rel.last() == utf8("REVERT_HEAD"@))
                }
            } else {
                false
            }
        },
    }
}

/// Whether `rel[from..]` is the single component `name`.
fn is_single(rel: &Vec<Vec<u8>>, from: usize, name: &str) -> (r: bool)
    requires
        from <= rel@.len(),
    ensures
        r == (rel@.skip(from as int).map_values(|v: Vec<u8>| v@) == seq![utf8(name@)]),
{
    let ghost rv = rel@.skip(from as int).map_values(|v: Vec<u8>| v@);
    if rel.len() - from != 1 {
        assert(rv.len() != 1);
        return false;
    }
    let r = bytes_eq(rel[from].as_slice(), name.as_bytes());
    proof {
        if r {
            assert(rv =~= seq![utf8(name@)]);
        } else {
            assert(rv[0] != utf8(name@));
        }
    }
    r
}

/// Whether `rel[from..]` is the two components `a`, `b`.
fn is_pair(rel: &Vec<Vec<u8>>, from: usize, a: &str, b: &str) -> (r: bool)
    requires
        from <= rel@.len(),
    ensures
        r == (rel@.skip(from as int).map_values(|v: Vec<u8>| v@) == seq![utf8(a@), utf8(b@)]),
{
    let ghost rv = rel@.skip(from as int).map_values(|v: Vec<u8>| v@);
    if rel.len() - from != 2 {
        assert(rv.len() != 2);
        return false;
    }
    let x = bytes_eq(rel[from].as_slice(), a.as_bytes());
    let y = bytes_eq(rel[from + 1].as_slice(), b.as_bytes());
    proof {
        if x && y {
            assert(rv =~= seq![utf8(a@), utf8(b@)]);
        } else if !x {
            assert(rv[0] != utf8(a@));
        } else {
            assert(rv[1] != utf8(b@));
        }
    }
    x && y
}

/// Whether a change at `changed` can change file statuses (see
/// [`dotgit_change_affects_status`]).
pub fn is_dotgit_change_affecting_status(changed: &[u8], git_dir: Option<&[u8]>) -> (r: bool)
    ensures
        r == dotgit_change_affects_status(changed@, match git_dir {
            Some(g) => Some(g@),
            None => None,
        }),
{
    let g = match git_dir {
        Some(g) => g,
        None => return false,
    };
    let cc = path_components(changed);
    let gc = path_components(g);
    let ghost ccs = components(changed@);
    let ghost gcs = components(g@);
    if gc.len() > cc.len() {
        return false;
    }
    let mut i: usize = 0;
    while i < gc.len()
        invariant
            i <= gc@.len() <= cc@.len(),
            gc@.len() == gcs.len(),
            cc@.len() == ccs.len(),
            forall|j: int| 0 <= j < gc@.len() ==> #[trigger] gc@[j]@ == gcs[j],
            forall|j: int| 0 <= j < cc@.len() ==> #[trigger] cc@[j]@ == ccs[j],
            forall|j: int| 0 <= j < i ==> ccs[j] == gcs[j],
            ccs == components(changed@),
            gcs == components(g@),
            git_dir == Some(g),
        decreases gc@.len() - i,
    {
        if !bytes_eq(cc[i].as_slice(), gc[i].as_slice()) {
            proof {
                assert(ccs.take(gcs.len() as int)[i as int] != gcs[i as int]);
            }
            return false;
        }
        i = i + 1;
    }
    assert(ccs.take(gcs.len() as int) =~= gcs);
    let from = gc.len();
    let ghost rel = ccs.skip(from as int);
    assert(rel =~= cc@.skip(from as int).map_values(|v: Vec<u8>| v@));
    let n = cc.len();
    if n > from {
        proof {
            assert(rel[0] == cc@[from as int]@);
        }
        let first = cc[from].as_slice();
        if bytes_eq(first, "objects".as_bytes()) || bytes_eq(first, "logs".as_bytes()) || bytes_eq(first, "hooks".as_bytes()) {
            return false;
        }
    }
    if is_single(&cc, from, "index") || is_single(&cc, from, "index.lock") || is_single(&cc, from, "HEAD") {
        return true;
    }
    if n > from && bytes_eq(cc[from].as_slice(), "refs".as_bytes()) {
        return true;
    }
    if is_single(&cc, from, "packed-refs") {
        return true;
    }
    if is_pair(&cc, from, "info", "exclude") || is_pair(&cc, from, "info", "sparse-checkout") {
        return true;
    }
    if n > from {
        let last = cc[n - 1].as_slice();
        proof {
            assert(rel.last() == cc@[n - 1]@);
        }
        let is_root = last.len() == 1 && last[0] == 47u8;
        let is_dot = last.len() == 1 && last[0] == 46u8;
        let is_dot_dot = last.len() == 2 && last[0] == 46u8 && last[1] == 46u8;
        proof {
            if last@.len() == 1 {
                assert(is_root == (last@ =~= root()));
                assert(is_dot == (last@ =~= dot()));
                assert(last@ != dot_dot());
            } else if last@.len() == 2 {
                assert(is_dot_dot == (last@ =~= dot_dot()));
                assert(last@ != root() && last@ != dot());
            } else {
                assert(last@ != root() && last@ != dot() && last@ != dot_dot());
            }
        }
        if !is_root && !is_dot && !is_dot_dot {
            return bytes_eq(last, "MERGE_HEAD".as_bytes()) || bytes_eq(last, "CHERRY_PICK_HEAD".as_bytes())
                || bytes_eq(last, "REVERT_HEAD".as_bytes());
        }
    }
    false
}

/// Byte-wise lexicographic order (how `OsStr` paths compare on Unix).
pub open spec fn lex_lt(a: Seq<u8>, b: Seq<u8>) -> bool
    decreases a.len(),
{
    if a.len() == 0 {
        b.len() > 0
    } else if b.len() == 0 {
        false
    } else if a[0] != b[0] {
        a[0] < b[0]
    } else {
        lex_lt(a.drop_first(), b.drop_first())
    }
}

pub(crate) proof fn lemma_lex_irreflexive(a: Seq<u8>)
    ensures
        !lex_lt(a, a),
    decreases a.len(),
{
    if a.len() > 0 {
        lemma_lex_irreflexive(a.drop_first());
    }
}

pub(crate) proof fn lemma_lex_total(a: Seq<u8>, b: Seq<u8>)
    requires
        a != b,
    ensures
        lex_lt(a, b) || lex_lt(b, a),
    decreases a.len(),
{
    if a.len() > 0 && b.len() > 0 && a[0] == b[0] {
        if a.drop_first() == b.drop_first() {
            assert(a =~= seq![a[0]] + a.drop_first());
            assert(b =~= seq![b[0]] + b.drop_first());
        }
        lemma_lex_total(a.drop_first(), b.drop_first());
    } else if a.len() == 0 && b.len() == 0 {
        assert(a =~= b);
    }
}

pub(crate) proof fn lemma_lex_transitive(a: Seq<u8>, b: Seq<u8>, c: Seq<u8>)
    requires
        lex_lt(a, b),
        lex_lt(b, c),
    ensures
        lex_lt(a, c),
    decreases a.len(),
{
    if a.len() > 0 && b.len() > 0 && c.len() > 0 && a[0] == b[0] && b[0] == c[0] {
        lemma_lex_transitive(a.drop_first(), b.drop_first(), c.drop_first());
    }
}

/// Whether `a` sorts before `b`.
pub fn bytes_lt(a: &[u8], b: &[u8]) -> (r: bool)
    ensures
        r == lex_lt(a@, b@),
{
    let mut i: usize = 0;
    proof {
        assert(a@.skip(0) =~= a@);
        assert(b@.skip(0) =~= b@);
    }
    while i < a.len() && i < b.len() && a[i] == b[i]
        invariant
            i <= a@.len(),
            i <= b@.len(),
            lex_lt(a@, b@) == lex_lt(a@.skip(i as int), b@.skip(i as int)),
        decreases a@.len() - i,
    {
        proof {
            assert(a@.skip(i as int).drop_first() =~= a@.skip(i + 1));
            assert(b@.skip(i as int).drop_first() =~= b@.skip(i + 1));
        }
        i = i + 1;
    }
    if i == a.len() {
        i < b.len()
    } else if i == b.len() {
        false
    } else {
        a[i] < b[i]
    }
}

/// Strictly increasing in byte order.
pub open spec fn lex_sorted_strict(s: Seq<Seq<u8>>) -> bool {
    forall|i: int, j: int| 0 <= i < j < s.len() ==> lex_lt(#[trigger] s[i], #[trigger] s[j])
}

/// The byte strings of a list.
pub open spec fn byte_views(v: Seq<Vec<u8>>) -> Seq<Seq<u8>> {
    v.map_values(|x: Vec<u8>| x@)
}

/// Insert `x` into a strictly sorted list unless it is there already.
pub(crate) fn insert_sorted(v: &mut Vec<Vec<u8>>, x: Vec<u8>)
    requires
        lex_sorted_strict(byte_views(old(v)@)),
    ensures
        lex_sorted_strict(byte_views(final(v)@)),
        byte_views(final(v)@).to_set() == byte_views(old(v)@).to_set().insert(x@),
{
    let ghost before = byte_views(v@);
    let mut k: usize = 0;
    while k < v.len() && bytes_lt(v[k].as_slice(), x.as_slice())
        invariant
            k <= v@.len(),
            before == byte_views(v@),
            forall|j: int| 0 <= j < k ==> lex_lt(#[trigger] before[j], x@),
        decreases v@.len() - k,
    {
        k = k + 1;
    }
    if k < v.len() && bytes_eq(v[k].as_slice(), x.as_slice()) {
        proof {
            assert(before[k as int] == x@);
            assert(before.to_set().insert(x@) =~= before.to_set());
        }
        return;
    }
    let ghost xv = x@;
    proof {
        if k < before.len() {
            assert(before[k as int] != xv);
            assert(!lex_lt(before[k as int], xv));
            lemma_lex_total(before[k as int], xv);
            assert(lex_lt(xv, before[k as int]));
        }
    }
    v.insert(k, x);
    proof {
        let after = byte_views(v@);
        assert(after =~= before.insert(k as int, xv));
        assert forall|i: int, j: int| 0 <= i < j < after.len() implies lex_lt(#[trigger] after[i], #[trigger] after[j]) by {
            if j < k {
                assert(after[i] == before[i] && after[j] == before[j]);
            } else if j == k {
                assert(after[i] == before[i]);
            } else if i == k {
                assert(after[j] == before[j - 1]);
                if j - 1 > k {
                    lemma_lex_transitive(xv, before[k as int], before[j - 1]);
                }
            } else if i < k {
                assert(after[i] == before[i] && after[j] == before[j - 1]);
                if j - 1 >= k {
                    assert(lex_lt(before[i], xv));
                    assert(lex_lt(xv, before[k as int]));
                    lemma_lex_transitive(before[i], xv, before[k as int]);
                    if j - 1 > k {
                        lemma_lex_transitive(before[i], before[k as int], before[j - 1]);
                    }
                }
            } else {
                assert(after[i] == before[i - 1] && after[j] == before[j - 1]);
            }
        }
        assert(after.to_set() =~= before.to_set().insert(xv)) by {
            assert forall|y: Seq<u8>| after.to_set().contains(y) == before.to_set().insert(xv).contains(y) by {
                if after.contains(y) {
                    let i = choose|i: int| 0 <= i < after.len() && after[i] == y;
                    if i < k {
                        assert(before[i] == y);
                    } else if i > k {
                        assert(before[i - 1] == y);
                    }
                }
                if before.contains(y) {
                    let i = choose|i: int| 0 <= i < before.len() && before[i] == y;
                    if i < k {
                        assert(after[i] == y);
                    } else {
                        assert(after[i + 1] == y);
                    }
                }
                if y == xv {
                    assert(after[k as int] == y);
                }
            }
        }
    }
}

/// Mode of a file access.
#[derive(Clone, Copy)]
pub enum AccessMode {
    Any,
    Execute,
    Read,
    Write,
    Other,
}

/// Kind of a file access.
#[derive(Clone, Copy)]
pub enum AccessKind {
    Any,
    Read,
    Open(AccessMode),
    Close(AccessMode),
    Other,
}

/// Kind of a file-system event.
#[derive(Clone, Copy)]
pub enum EventKind {
    Any,
    Access(AccessKind),
    Create,
    Modify,
    Remove,
    Other,
}

/// A path named by an event, with what the file system said of it when
/// the batch was handled: whether it exists, and whether it is a file the
/// index takes (not a directory, not ignored by git).
pub struct PathEvent {
    pub path: Vec<u8>,
    pub exists: bool,
    pub indexable: bool,
}

/// One debounced file-system event.
pub struct FsEvent {
    pub kind: EventKind,
    /// The event source dropped events and asks for a rescan.
    pub need_rescan: bool,
    pub paths: Vec<PathEvent>,
}

/// What to do about a batch of events.
pub enum EventPlan {
    /// Rebuild the whole index.
    FullRescan,
    /// Drop `remove` from the index, add or refresh `add_or_modify` (sorted,
    /// without repeats), and refresh every git status when `refresh_git`.
    Apply {
        remove: Vec<Vec<u8>>,
        add_or_modify: Vec<Vec<u8>>,
        refresh_git: bool,
    },
}

/// Batches naming more paths than this are handled by a full rescan.
pub const MAX_PATHS_THRESHOLD: usize = 1024;

/// Reads, opens, and closes after reading or executing change nothing.
pub open spec fn is_noise(k: EventKind) -> bool {
    match k {
        EventKind::Access(AccessKind::Read) => true,
        EventKind::Access(AccessKind::Open(_)) => true,
        EventKind::Access(AccessKind::Close(AccessMode::Read)) => true,
        EventKind::Access(AccessKind::Close(AccessMode::Execute)) => true,
        _ => false,
    }
}

/// Progress through a batch: paths to remove and to add or refresh,
/// whether git statuses need a full refresh, paths counted, and whether a
/// full rescan was decided.
pub struct BatchState {
    pub remove: Seq<Seq<u8>>,
    pub add: Seq<Seq<u8>>,
    pub git: bool,
    pub affected: int,
    pub full: bool,
}

/// One path of an event: a changed ignore file forces a rescan; paths in
/// `.git` only flag a git refresh when they matter; other paths are
/// removed when the event is a removal or the path is gone, and added or
/// refreshed when the index takes them.
pub open spec fn path_step(st: BatchState, pe: PathEvent, removal: bool, git_dir: Option<Seq<u8>>) -> BatchState {
    if st.full {
        st
    } else if is_ignore_definition(pe.path@) {
        BatchState { full: true, ..st }
    } else {
        let git = st.git || dotgit_change_affects_status(pe.path@, git_dir);
        if is_git_path(pe.path@) {
            BatchState { git, ..st }
        } else if removal || !pe.exists {
            BatchState { remove: st.remove.push(pe.path@), git, ..st }
        } else if pe.indexable {
            BatchState { add: st.add.push(pe.path@), git, ..st }
        } else {
            BatchState { git, ..st }
        }
    }
}

/// The first `n` paths of an event.
pub open spec fn paths_fold(st: BatchState, paths: Seq<PathEvent>, removal: bool, git_dir: Option<Seq<u8>>, n: nat) -> BatchState
    decreases n,
{
    if n == 0 {
        st
    } else {
        path_step(paths_fold(st, paths, removal, git_dir, (n - 1) as nat), paths[n - 1], removal, git_dir)
    }
}

/// One event: noise is skipped, a rescan request forces a rescan, and
/// otherwise its paths are handled and counted, too many paths forcing a
/// rescan.
pub open spec fn event_step(st: BatchState, ev: FsEvent, git_dir: Option<Seq<u8>>) -> BatchState {
    if st.full || is_noise(ev.kind) {
        st
    } else if ev.need_rescan {
        BatchState { full: true, ..st }
    } else {
        let s1 = paths_fold(st, ev.paths@, ev.kind is Remove, git_dir, ev.paths@.len());
        let affected = s1.affected + ev.paths@.len();
        BatchState { affected, full: s1.full || affected > MAX_PATHS_THRESHOLD, ..s1 }
    }
}

/// The first `n` events of a batch.
pub open spec fn events_fold(events: Seq<FsEvent>, git_dir: Option<Seq<u8>>, n: nat) -> BatchState
    decreases n,
{
    if n == 0 {
        BatchState { remove: seq![], add: seq![], git: false, affected: 0, full: false }
    } else {
        event_step(events_fold(events, git_dir, (n - 1) as nat), events[n - 1], git_dir)
    }
}

/// Whether the plan is right for the batch: a full rescan exactly when the
/// batch calls for one; otherwise its removals in order, its additions
/// sorted without repeats, and its git refresh flag.
pub open spec fn plans(plan: EventPlan, events: Seq<FsEvent>, git_dir: Option<Seq<u8>>) -> bool {
    let st = events_fold(events, git_dir, events.len());
    if st.full {
        plan is FullRescan
    } else {
        match plan {
            EventPlan::FullRescan => false,
            EventPlan::Apply { remove, add_or_modify, refresh_git } => {
                &&& byte_views(remove@) == st.remove
                &&& lex_sorted_strict(byte_views(add_or_modify@))
                &&& byte_views(add_or_modify@).to_set() == st.add.to_set()
                &&& refresh_git == st.git
            },
        }
    }
}

/// Decide what a batch of events does to the index (see [`plans`]).
pub fn plan_events(events: &[FsEvent], git_dir: Option<&[u8]>) -> (r: EventPlan)
    ensures
        plans(r, events@, match git_dir {
            Some(g) => Some(g@),
            None => None,
        }),
{
    let ghost gd = match git_dir {
        Some(g) => Some(g@),
        None => None,
    };
    let mut remove: Vec<Vec<u8>> = Vec::new();
    let mut add: Vec<Vec<u8>> = Vec::new();
    let mut git = false;
    let mut affected: usize = 0;
    let mut full = false;
    let mut e: usize = 0;
    while e < events.len() && !full
        invariant
            e <= events@.len(),
            gd == match git_dir {
                Some(g) => Some(g@),
                None => None,
            },
            ({
                let st = events_fold(events@, gd, e as nat);
                &&& byte_views(remove@) == st.remove
                &&& lex_sorted_strict(byte_views(add@))
                &&& byte_views(add@).to_set() == st.add.to_set()
                &&& git == st.git
                &&& (!st.full ==> affected as int == st.affected)
                &&& full == st.full
            }),
            affected <= MAX_PATHS_THRESHOLD,
        decreases events@.len() - e,
    {
        let ev = &events[e];
        let ghost st0 = events_fold(events@, gd, e as nat);
        let noise = match ev.kind {
            EventKind::Access(AccessKind::Read) => true,
            EventKind::Access(AccessKind::Open(_)) => true,
            EventKind::Access(AccessKind::Close(AccessMode::Read)) => true,
            EventKind::Access(AccessKind::Close(AccessMode::Execute)) => true,
            _ => false,
        };
        if noise {
        } else if ev.need_rescan {
            full = true;
        } else {
            let removal = match ev.kind {
                EventKind::Remove => true,
                _ => false,
            };
            let mut p: usize = 0;
            while p < ev.paths.len() && !full
                invariant
                    p <= ev.paths@.len(),
                    !st0.full,
                    gd == match git_dir {
                        Some(g) => Some(g@),
                        None => None,
                    },
                    removal == (ev.kind is Remove),
                    ({
                        let st = paths_fold(st0, ev.paths@, removal, gd, p as nat);
                        &&& byte_views(remove@) == st.remove
                        &&& lex_sorted_strict(byte_views(add@))
                        &&& byte_views(add@).to_set() == st.add.to_set()
                        &&& git == st.git
                        &&& affected as int == st.affected
                        &&& full == st.full
                    }),
                decreases ev.paths@.len() - p,
            {
                let pe = &ev.paths[p];
                let ghost sp = paths_fold(st0, ev.paths@, removal, gd, p as nat);
                if is_ignore_definition_path(pe.path.as_slice()) {
                    full = true;
                } else {
                    if is_dotgit_change_affecting_status(pe.path.as_slice(), git_dir) {
                        git = true;
                    }
                    if is_git_file(pe.path.as_slice()) {
                    } else if removal || !pe.exists {
                        let ghost r0 = byte_views(remove@);
                        remove.push(copy_bytes(pe.path.as_slice()));
                        proof {
                            assert(byte_views(remove@) =~= r0.push(pe.path@));
                        }
                    } else if pe.indexable {
                        let ghost a0 = byte_views(add@).to_set();
                        insert_sorted(&mut add, copy_bytes(pe.path.as_slice()));
                        proof {
                            assert(sp.add.push(pe.path@).to_set() =~= sp.add.to_set().insert(pe.path@)) by {
                                assert forall|y: Seq<u8>| #[trigger] sp.add.push(pe.path@).contains(y) == (sp.add.contains(y) || y == pe.path@) by {
                                    if sp.add.push(pe.path@).contains(y) {
                                        let i = choose|i: int| 0 <= i < sp.add.len() + 1 && sp.add.push(pe.path@)[i] == y;
                                        if i < sp.add.len() {
                                            assert(sp.add[i] == y);
                                        }
                                    }
                                    if sp.add.contains(y) {
                                        let i = choose|i: int| 0 <= i < sp.add.len() && sp.add[i] == y;
                                        assert(sp.add.push(pe.path@)[i] == y);
                                    }
                                    if y == pe.path@ {
                                        assert(sp.add.push(pe.path@)[sp.add.len() as int] == y);
                                    }
                                }
                            }
                        }
                    }
                }
                p = p + 1;
            }
            proof {
                if full && p < ev.paths@.len() {
                    lemma_paths_fold_full(st0, ev.paths@, removal, gd, p as nat, ev.paths@.len());
                }
            }
            let n = ev.paths.len();
            if n > MAX_PATHS_THRESHOLD - affected {
                full = true;
                affected = MAX_PATHS_THRESHOLD;
            } else {
                affected = affected + n;
                if affected > MAX_PATHS_THRESHOLD {
                    full = true;
                }
            }
        }
        e = e + 1;
    }
    proof {
        if full && e < events@.len() {
            lemma_events_fold_full(events@, gd, e as nat, events@.len());
        }
    }
    if full {
        EventPlan::FullRescan
    } else {
        EventPlan::Apply { remove, add_or_modify: add, refresh_git: git }
    }
}

proof fn lemma_paths_fold_full(st: BatchState, paths: Seq<PathEvent>, removal: bool, git_dir: Option<Seq<u8>>, i: nat, j: nat)
    requires
        i <= j,
        paths_fold(st, paths, removal, git_dir, i).full,
    ensures
        paths_fold(st, paths, removal, git_dir, j) == paths_fold(st, paths, removal, git_dir, i),
    decreases j - i,
{
    if i < j {
        lemma_paths_fold_full(st, paths, removal, git_dir, i, (j - 1) as nat);
    }
}

proof fn lemma_events_fold_full(events: Seq<FsEvent>, git_dir: Option<Seq<u8>>, i: nat, j: nat)
    requires
        i <= j,
        events_fold(events, git_dir, i).full,
    ensures
        events_fold(events, git_dir, j) == events_fold(events, git_dir, i),
    decreases j - i,
{
    if i < j {
        lemma_events_fold_full(events, git_dir, i, (j - 1) as nat);
    }
}

/// Different names have different UTF-8 bytes.
proof fn lemma_utf8_injective(a: Seq<char>, b: Seq<char>)
    requires
        a != b,
    ensures
        utf8(a) != utf8(b),
{
    vstd::utf8::encode_utf8_decode_utf8(a);
    vstd::utf8::encode_utf8_decode_utf8(b);
}

/// A change to a ref (a commit, a branch switch, a fetch) affects file
/// statuses: any changed path whose components are those of the git
/// directory followed by `refs` and at least one more component counts.
pub proof fn lemma_ref_change_affects_status(changed: Seq<u8>, git_dir: Seq<u8>, rest: Seq<Seq<u8>>)
    requires
        rest.len() >= 1,
        components(changed) == components(git_dir) + seq![utf8("refs"@)] + rest,
    ensures
        dotgit_change_affects_status(changed, Some(git_dir)),
{
    let cc = components(changed);
    let gc = components(git_dir);
    assert(cc.take(gc.len() as int) =~= gc);
    let rel = cc.skip(gc.len() as int);
    assert(rel =~= seq![utf8("refs"@)] + rest);
    assert(rel[0] == utf8("refs"@));
    assert(rel.len() >= 2);
    reveal_strlit("refs");
    reveal_strlit("objects");
    reveal_strlit("logs");
    reveal_strlit("hooks");
    assert("refs"@.len() == 4 && "objects"@.len() == 7);
    assert("refs"@ != "logs"@) by {
        assert("refs"@[0] != "logs"@[0]);
    }
    assert("refs"@ != "hooks"@) by {
        assert("refs"@.len() != "hooks"@.len());
    }
    lemma_utf8_injective("refs"@, "objects"@);
    lemma_utf8_injective("refs"@, "logs"@);
    lemma_utf8_injective("refs"@, "hooks"@);
}

} // verus!
