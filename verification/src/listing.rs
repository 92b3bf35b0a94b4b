//! Text listings of recent files, directories and git status, as the
//! search tools print them.

use vstd::prelude::*;
use vstd::utf8::{decode_utf8, encode_utf8, valid_utf8};
use crate::wire::{WireDirEntry, WireGitFile, WireSearchResult};
use crate::output::{file_suffix, file_suffix_spec, join_lines, join_strings};
use crate::grep::views;
use crate::text::{decimal, str_eq, string_from_utf8, u64_to_string};
use crate::watcher::{byte_views, insert_sorted, lex_lt, lex_sorted_strict};

verus! {

/// One listed file: its path and annotation.
pub open spec fn recent_line(item: WireSearchResult) -> Seq<char> {
    item.path@ + file_suffix_spec(item.git_status, item.frecency_score as i64)
}

/// Recently used files, one per line, each followed by its annotation.
pub fn format_recent_files_wire(items: &[WireSearchResult]) -> (r: String)
    ensures
        r@ == join_lines(Seq::new(items@.len(), |i: int| recent_line(items@[i]))),
{
    let mut lines: Vec<String> = Vec::new();
    let mut i: usize = 0;
    while i < items.len()
        invariant
            i <= items@.len(),
            lines@.len() == i,
            views(lines@) == Seq::new(items@.len(), |j: int| recent_line(items@[j])).take(i as int),
        decreases items@.len() - i,
    {
        let mut line = items[i].path.clone();
        let suffix = file_suffix(items[i].git_status, items[i].frecency_score as i64);
        line.append(suffix.as_str());
        proof {
            assert(line@ == recent_line(items@[i as int]));
        }
        lines.push(line);
        proof {
            assert(views(lines@) =~= Seq::new(items@.len(), |j: int| recent_line(items@[j])).take(i + 1));
        }
        i = i + 1;
    }
    proof {
        assert(Seq::new(items@.len(), |j: int| recent_line(items@[j])).take(items@.len() as int)
            =~= Seq::new(items@.len(), |j: int| recent_line(items@[j])));
    }
    join_strings(&lines)
}

/// One listed directory: its path and frecency annotation.
pub open spec fn dir_line(d: WireDirEntry) -> Seq<char> {
    d.path@ + file_suffix_spec(None, d.max_frecency)
}

/// Directories, one per line, each followed by its frecency annotation.
pub fn format_directories_wire(items: &[WireDirEntry]) -> (r: String)
    ensures
        r@ == join_lines(Seq::new(items@.len(), |i: int| dir_line(items@[i]))),
{
    let mut lines: Vec<String> = Vec::new();
    let mut i: usize = 0;
    while i < items.len()
        invariant
            i <= items@.len(),
            lines@.len() == i,
            views(lines@) == Seq::new(items@.len(), |j: int| dir_line(items@[j])).take(i as int),
        decreases items@.len() - i,
    {
        let mut line = items[i].path.clone();
        let suffix = file_suffix(None, items[i].max_frecency);
        line.append(suffix.as_str());
        proof {
            assert(line@ == dir_line(items@[i as int]));
        }
        lines.push(line);
        proof {
            assert(views(lines@) =~= Seq::new(items@.len(), |j: int| dir_line(items@[j])).take(i + 1));
        }
        i = i + 1;
    }
    proof {
        assert(Seq::new(items@.len(), |j: int| dir_line(items@[j])).take(items@.len() as int)
            =~= Seq::new(items@.len(), |j: int| dir_line(items@[j])));
    }
    join_strings(&lines)
}

/// The status names whose groups are listed first, in this order.
pub open spec fn status_order() -> Seq<Seq<char>> {
    seq![
        "modified"@,
        "staged_modified"@,
        "staged_new"@,
        "staged_deleted"@,
        "deleted"@,
        "renamed"@,
        "untracked"@,
        "clean"@,
        "ignored"@,
    ]
}

/// Paths of the first `n` items whose status is `st`, in order.
pub open spec fn group_paths(items: Seq<WireGitFile>, st: Seq<char>, n: nat) -> Seq<Seq<char>>
    decreases n,
{
    if n == 0 {
        seq![]
    } else {
        let prev = group_paths(items, st, (n - 1) as nat);
        if items[n - 1].status@ == st {
            prev.push(items[n - 1].path@)
        } else {
            prev
        }
    }
}

/// A status group: the header `status (count):`, then each path indented
/// by two spaces.
pub open spec fn group_block(st: Seq<char>, paths: Seq<Seq<char>>) -> Seq<Seq<char>> {
    seq![st + " ("@ + decimal(paths.len()) + "):"@] + paths.map_values(|p: Seq<char>| "  "@ + p)
}

/// The groups of the statuses `sts`, in that order, empty groups left out.
pub open spec fn blocks(items: Seq<WireGitFile>, sts: Seq<Seq<char>>) -> Seq<Seq<char>>
    decreases sts.len(),
{
    if sts.len() == 0 {
        seq![]
    } else {
        let prev = blocks(items, sts.drop_last());
        let g = group_paths(items, sts.last(), items.len());
        if g.len() > 0 {
            prev + group_block(sts.last(), g)
        } else {
            prev
        }
    }
}

/// Whether `u` lists each status of `items` outside [`status_order`] once,
/// in byte order.
pub open spec fn other_statuses(items: Seq<WireGitFile>, u: Seq<Seq<char>>) -> bool {
    &&& forall|i: int, j: int| 0 <= i < j < u.len() ==> lex_lt(encode_utf8(#[trigger] u[i]), encode_utf8(#[trigger] u[j]))
    &&& forall|x: Seq<char>| u.contains(x) <==> (!status_order().contains(x)
        && exists|k: int| 0 <= k < items.len() && #[trigger] items[k].status@ == x)
}

fn is_listed_status(st: &str) -> (r: bool)
    ensures
        r == status_order().contains(st@),
{
    let order: [&str; 9] = [
        "modified",
        "staged_modified",
        "staged_new",
        "staged_deleted",
        "deleted",
        "renamed",
        "untracked",
        "clean",
        "ignored",
    ];
    let mut k: usize = 0;
    while k < 9
        invariant
            k <= 9,
            forall|t: int| 0 <= t < 9 ==> (#[trigger] order@[t])@ == status_order()[t],
            forall|t: int| 0 <= t < k ==> status_order()[t] != st@,
        decreases 9 - k,
    {
        if str_eq(order[k], st) {
            proof {
                assert(status_order()[k as int] == st@);
            }
            return true;
        }
        k = k + 1;
    }
    false
}

fn collect_group(items: &[WireGitFile], st: &str) -> (r: Vec<String>)
    ensures
        views(r@) == group_paths(items@, st@, items@.len()),
{
    let mut out: Vec<String> = Vec::new();
    let mut i: usize = 0;
    while i < items.len()
        invariant
            i <= items@.len(),
            views(out@) == group_paths(items@, st@, i as nat),
        decreases items@.len() - i,
    {
        if str_eq(items[i].status.as_str(), st) {
            let p = items[i].path.clone();
            out.push(p);
            proof {
                assert(views(out@) =~= group_paths(items@, st@, i as nat).push(items@[i as int].path@));
            }
        }
        i = i + 1;
    }
    out
}

/// Append the group of `st` to `lines` when it is not empty.
fn push_group(lines: &mut Vec<String>, items: &[WireGitFile], st: &str)
    ensures
        ({
            let g = group_paths(items@, st@, items@.len());
            views(final(lines)@) == if g.len() > 0 { views(old(lines)@) + group_block(st@, g) } else { views(old(lines)@) }
        }),
{
    let paths = collect_group(items, st);
    if paths.len() == 0 {
        return;
    }
    let ghost g = views(paths@);
    let ghost before = views(lines@);
    let mut header = String::from_str(st);
    header.append(" (");
    let count = u64_to_string(paths.len() as u64);
    header.append(count.as_str());
    header.append("):");
    lines.push(header);
    let mut i: usize = 0;
    while i < paths.len()
        invariant
            i <= paths@.len(),
            g == views(paths@),
            g.len() > 0,
            views(lines@) == before + group_block(st@, g).take(i + 1),
        decreases paths@.len() - i,
    {
        let mut line = String::from_str("  ");
        line.append(paths[i].as_str());
        proof {
            assert(g[i as int] == paths@[i as int]@);
            assert(group_block(st@, g)[i + 1] == "  "@ + g[i as int]);
            assert(line@ == "  "@ + g[i as int]);
        }
        let ghost l0 = views(lines@);
        lines.push(line);
        proof {
            assert(views(lines@) =~= l0.push(line@));
            assert(views(lines@) =~= before + group_block(st@, g).take(i + 2));
        }
        i = i + 1;
    }
    proof {
        assert(group_block(st@, g).take(paths@.len() as int + 1) =~= group_block(st@, g));
    }
}

/// Changed files grouped by status: the groups of [`status_order`] first,
/// then any other status in byte order, each group a `status (count):`
/// header followed by its paths indented, in input order.
pub fn format_git_status_wire(items: &[WireGitFile]) -> (r: String)
    ensures
        exists|u: Seq<Seq<char>>| other_statuses(items@, u)
            && r@ == join_lines(blocks(items@, status_order()) + blocks(items@, u)),
{
    let order: [&str; 9] = [
        "modified",
        "staged_modified",
        "staged_new",
        "staged_deleted",
        "deleted",
        "renamed",
        "untracked",
        "clean",
        "ignored",
    ];
    let mut lines: Vec<String> = Vec::new();
    let mut k: usize = 0;
    while k < 9
        invariant
            k <= 9,
            forall|t: int| 0 <= t < 9 ==> (#[trigger] order@[t])@ == status_order()[t],
            views(lines@) == blocks(items@, status_order().take(k as int)),
        decreases 9 - k,
    {
        push_group(&mut lines, items, order[k]);
        proof {
            assert(status_order().take(k + 1).drop_last() =~= status_order().take(k as int));
        }
        k = k + 1;
    }
    proof {
        assert(status_order().take(9) =~= status_order());
    }
    let ghost known = views(lines@);
    let ghost unknown_set = Set::new(|b: Seq<u8>| exists|j: int| 0 <= j < items@.len()
        && !status_order().contains(items@[j].status@) && b == encode_utf8(items@[j].status@));
    let mut others: Vec<Vec<u8>> = Vec::new();
    let mut i: usize = 0;
    while i < items.len()
        invariant
            i <= items@.len(),
            lex_sorted_strict(byte_views(others@)),
            forall|b: Seq<u8>| byte_views(others@).contains(b) <==> exists|j: int| 0 <= j < i
                && !status_order().contains(items@[j].status@) && b == encode_utf8(#[trigger] items@[j].status@),
        decreases items@.len() - i,
    {
        let st = items[i].status.as_str();
        if !is_listed_status(st) {
            let b = vstd::slice::slice_to_vec(st.as_bytes());
            let ghost before = byte_views(others@);
            insert_sorted(&mut others, b);
            proof {
                assert forall|x: Seq<u8>| byte_views(others@).contains(x) <==> exists|j: int| 0 <= j < i + 1
                    && !status_order().contains(items@[j].status@) && x == encode_utf8(#[trigger] items@[j].status@) by {
                    assert(byte_views(others@).to_set().contains(x) == before.to_set().insert(b@).contains(x));
                    if x == b@ {
                        assert(items@[i as int].status@ == st@);
                    }
                }
            }
        }
        i = i + 1;
    }
    let mut j: usize = 0;
    let ghost bv = byte_views(others@);
    let ghost u = Seq::new(bv.len(), |t: int| decode_utf8(bv[t]));
    proof {
        assert forall|t: int| 0 <= t < bv.len() implies valid_utf8(#[trigger] bv[t]) && encode_utf8(decode_utf8(bv[t])) == bv[t] by {
            assert(bv.contains(bv[t]));
            let w = choose|w: int| 0 <= w < items@.len() && !status_order().contains(items@[w].status@)
                && bv[t] == encode_utf8(#[trigger] items@[w].status@);
            vstd::utf8::encode_utf8_valid_utf8(items@[w].status@);
            vstd::utf8::decode_utf8_encode_utf8(bv[t]);
        }
    }
    while j < others.len()
        invariant
            j <= others@.len(),
            bv == byte_views(others@),
            u == Seq::new(bv.len(), |t: int| decode_utf8(bv[t])),
            forall|t: int| 0 <= t < bv.len() ==> valid_utf8(#[trigger] bv[t]),
            views(lines@) == known + blocks(items@, u.take(j as int)),
        decreases others@.len() - j,
    {
        proof {
            assert(valid_utf8(bv[j as int]));
        }
        let st = string_from_utf8(others[j].as_slice());
        let ghost before = views(lines@);
        push_group(&mut lines, items, st.as_str());
        proof {
            assert(u.take(j + 1).drop_last() =~= u.take(j as int));
            assert(u.take(j + 1).last() == st@);
            assert(views(lines@) =~= known + blocks(items@, u.take(j + 1)));
        }
        j = j + 1;
    }
    proof {
        assert(u.take(u.len() as int) =~= u);
        assert forall|a: int, c: int| 0 <= a < c < u.len() implies lex_lt(encode_utf8(#[trigger] u[a]), encode_utf8(#[trigger] u[c])) by {
            assert(encode_utf8(u[a]) == bv[a]);
            assert(encode_utf8(u[c]) == bv[c]);
        }
        assert forall|x: Seq<char>| u.contains(x) <==> (!status_order().contains(x)
            && exists|k: int| 0 <= k < items@.len() && #[trigger] items@[k].status@ == x) by {
            if u.contains(x) {
                let t = choose|t: int| 0 <= t < u.len() && u[t] == x;
                assert(bv.contains(bv[t]));
                let w = choose|w: int| 0 <= w < items@.len() && !status_order().contains(items@[w].status@)
                    && bv[t] == encode_utf8(#[trigger] items@[w].status@);
                vstd::utf8::encode_utf8_decode_utf8(items@[w].status@);
                assert(x == items@[w].status@);
            }
            if !status_order().contains(x) && exists|k: int| 0 <= k < items@.len() && #[trigger] items@[k].status@ == x {
                let k = choose|k: int| 0 <= k < items@.len() && #[trigger] items@[k].status@ == x;
                assert(bv.contains(encode_utf8(items@[k].status@)));
                let t = choose|t: int| 0 <= t < bv.len() && bv[t] == encode_utf8(items@[k].status@);
                vstd::utf8::encode_utf8_decode_utf8(items@[k].status@);
                assert(u[t] == x);
            }
        }
        assert(other_statuses(items@, u));
    }
    join_strings(&lines)
}

} // verus!
