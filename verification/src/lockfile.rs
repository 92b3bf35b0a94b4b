//! Lockfile format shared by the daemon (writer) and its clients (readers):
//!
//! ```text
//! <pid>
//! <absolute base path>
//! ```
//!
//! The base-path line is optional (older daemons wrote only the PID).

use vstd::prelude::*;
use crate::text::{
    chars_of, decimal, decimal_bytes, digits_value, is_digit, is_ws, parse_u32, parse_u32_spec,
    trim, trim_bounds, u64_to_string, all_digits, strip_plus,
};

verus! {

/// Parsed lockfile contents.
pub struct Lockfile {
    pub pid: u32,
    /// Base path the daemon was started with; `None` for single-line lockfiles.
    pub base_path: Option<String>,
}

impl Lockfile {
    pub open spec fn view_base(&self) -> Option<Seq<char>> {
        match self.base_path {
            Some(p) => Some(p@),
            None => None,
        }
    }
}

/// Index of the first `c` in `s` at or after `from`, or `s.len()`.
pub open spec fn find_from(s: Seq<char>, from: int, c: char) -> int
    decreases s.len() - from,
{
    if from >= s.len() {
        s.len() as int
    } else if s[from] == c {
        from
    } else {
        find_from(s, from + 1, c)
    }
}

/// What a lockfile's text parses to: the PID from the first line (trimmed),
/// and the trimmed second line as base path when it is present and not empty.
pub open spec fn parse_lockfile_spec(c: Seq<char>) -> Option<(u32, Option<Seq<char>>)> {
    let n1 = find_from(c, 0, '\n');
    match parse_u32_spec(trim(c.subrange(0, n1))) {
        None => None,
        Some(pid) => {
            let base = if n1 + 1 < c.len() {
                let n2 = find_from(c, n1 + 1, '\n');
                let l2 = trim(c.subrange(n1 + 1, n2));
                if l2.len() > 0 {
                    Some(l2)
                } else {
                    None
                }
            } else {
                None
            };
            Some((pid, base))
        },
    }
}

proof fn lemma_find_from(s: Seq<char>, from: int, c: char, r: int)
    requires
        0 <= from <= r <= s.len(),
        forall|j: int| from <= j < r ==> #[trigger] s[j] != c,
        r == s.len() || s[r] == c,
    ensures
        find_from(s, from, c) == r,
    decreases s.len() - from,
{
    if from < r {
        lemma_find_from(s, from + 1, c, r);
    }
}

fn find_char(s: &Vec<char>, from: usize, c: char) -> (r: usize)
    requires
        from <= s@.len(),
    ensures
        r == find_from(s@, from as int, c),
        from <= r <= s@.len(),
{
    let mut i = from;
    while i < s.len() && s[i] != c
        invariant
            from <= i <= s@.len(),
            forall|j: int| from <= j < i ==> #[trigger] s@[j] != c,
        decreases s@.len() - i,
    {
        i = i + 1;
    }
    proof {
        lemma_find_from(s@, from as int, c, i as int);
    }
    i
}

/// Parse lockfile text. `None` when the first line is not a PID.
pub fn parse_lockfile(content: &str) -> (r: Option<Lockfile>)
    ensures
        match r {
            Some(l) => parse_lockfile_spec(content@) == Some((l.pid, l.view_base())),
            None => parse_lockfile_spec(content@) is None,
        },
{
    let c = chars_of(content);
    let n1 = find_char(&c, 0, '\n');
    let (a, b) = trim_bounds(&c, 0, n1);
    let pid = match parse_u32(&c, a, b) {
        Some(p) => p,
        None => return None,
    };
    let mut base_path: Option<String> = None;
    if n1 < c.len() && n1 + 1 < c.len() {
        let n2 = find_char(&c, n1 + 1, '\n');
        let (a2, b2) = trim_bounds(&c, n1 + 1, n2);
        if a2 < b2 {
            base_path = Some(content.substring_char(a2, b2).to_string());
        }
    }
    Some(Lockfile { pid, base_path })
}

/// Lockfile text for `pid` and `base_path`.
pub open spec fn format_spec(pid: u32, base_path: Seq<char>) -> Seq<char> {
    decimal(pid as nat) + seq!['\n'] + base_path + seq!['\n']
}

/// Serialise lockfile contents: the PID line, then the base-path line.
pub fn format_contents(pid: u32, base_path: &str) -> (r: String)
    ensures
        r@ == format_spec(pid, base_path@),
{
    let mut s = u64_to_string(pid as u64);
    s.append("\n");
    s.append(base_path);
    s.append("\n");
    proof {
        reveal_strlit("\n");
    }
    s
}

/// A lockfile is stale when it cannot be parsed or its PID is dead.
pub fn is_stale(lock: &Option<Lockfile>, pid_alive: bool) -> (r: bool)
    ensures
        r == (lock is None || !pid_alive),
{
    match lock {
        None => true,
        Some(_) => !pid_alive,
    }
}

pub proof fn lemma_decimal_digits(n: nat)
    ensures
        decimal(n).len() > 0,
        all_digits(decimal(n)),
        digits_value(decimal(n)) == n,
        forall|i: int| 0 <= i < decimal(n).len() ==> !is_ws(#[trigger] decimal(n)[i]) && decimal(n)[i] != '\n'
            && decimal(n)[i] != '+',
    decreases n,
{
    let d = decimal(n);
    if n < 10 {
        assert(d =~= seq![((48 + n) as u8) as char]);
        assert((((48 + n) as u8) as char) as int == 48 + n);
        assert(d.drop_last() =~= Seq::<char>::empty());
        assert(digits_value(d.drop_last()) == 0);
        assert(d.last() == (((48 + n) as u8) as char));
        assert(digits_value(d) == n);
    } else {
        lemma_decimal_digits(n / 10);
        let p = decimal(n / 10);
        let last = ((48 + n % 10) as u8) as char;
        assert(d =~= p.push(last));
        assert(d.drop_last() =~= p);
        assert(last as int == 48 + n % 10);
        assert(digits_value(d) == digits_value(p) * 10 + (n % 10));
        assert((n / 10) * 10 + n % 10 == n);
        assert forall|i: int| 0 <= i < d.len() implies is_digit(#[trigger] d[i]) by {
            if i < p.len() {
                assert(d[i] == p[i]);
            }
        }
        assert forall|i: int| 0 <= i < d.len() implies !is_ws(#[trigger] d[i]) && d[i] != '\n' && d[i] != '+' by {
            if i < p.len() {
                assert(d[i] == p[i]);
            }
        }
    }
}

proof fn lemma_trim_no_ws(s: Seq<char>)
    requires
        s.len() > 0,
        forall|i: int| 0 <= i < s.len() ==> !is_ws(#[trigger] s[i]),
    ensures
        trim(s) == s,
{
    assert(crate::text::trim_start_idx(s) == 0);
    assert(crate::text::trim_end_idx(s) == s.len());
    assert(s.subrange(0, s.len() as int) =~= s);
}

/// Reading back a written lockfile gives the PID and the trimmed base path
/// (absent when it is blank), for any base path without a line break.
pub proof fn lemma_lockfile_round_trip(pid: u32, base_path: Seq<char>)
    requires
        !base_path.contains('\n'),
    ensures
        parse_lockfile_spec(format_spec(pid, base_path)) == Some((
            pid,
            if trim(base_path).len() > 0 {
                Some(trim(base_path))
            } else {
                None::<Seq<char>>
            },
        )),
{
    let d = decimal(pid as nat);
    let c = format_spec(pid, base_path);
    lemma_decimal_digits(pid as nat);
    let n1 = d.len() as int;
    assert forall|j: int| 0 <= j < n1 implies #[trigger] c[j] != '\n' by {
        assert(c[j] == d[j]);
    }
    assert(c[n1] == '\n');
    lemma_find_from(c, 0, '\n', n1);
    assert(c.subrange(0, n1) =~= d);
    lemma_trim_no_ws(d);
    assert(strip_plus(d) == d);
    assert(parse_u32_spec(d) == Some(pid));
    let n2 = n1 + 1 + base_path.len();
    assert forall|j: int| n1 + 1 <= j < n2 implies #[trigger] c[j] != '\n' by {
        assert(c[j] == base_path[j - n1 - 1]);
        if c[j] == '\n' {
            assert(base_path.contains('\n'));
        }
    }
    assert(c[n2] == '\n');
    lemma_find_from(c, n1 + 1, '\n', n2);
    assert(c.subrange(n1 + 1, n2) =~= base_path);
}

} // verus!
