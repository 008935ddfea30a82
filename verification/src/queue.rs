//! The "up next" list of the queue panel.

use vstd::prelude::*;
use crate::format::{clock_text, format_clock};
use crate::library::{all_indices, flat_positions, sizes, Folder};

verus! {

/// `p` comes after `c` in library order.
pub open spec fn comes_after(p: (int, int), c: (int, int)) -> bool {
    p.0 > c.0 || (p.0 == c.0 && p.1 > c.1)
}

/// The elements of `s` that satisfy `keep`, in order.
pub open spec fn keep_where(s: Seq<(int, int)>, keep: spec_fn((int, int)) -> bool) -> Seq<(int, int)>
    decreases s.len(),
{
    if s.len() == 0 {
        seq![]
    } else if keep(s.last()) {
        keep_where(s.drop_last(), keep).push(s.last())
    } else {
        keep_where(s.drop_last(), keep)
    }
}

pub open spec fn after_pred(c: (int, int)) -> spec_fn((int, int)) -> bool {
    |p: (int, int)| comes_after(p, c)
}


pub open spec fn take_up_to(s: Seq<(int, int)>, n: int) -> Seq<(int, int)> {
    if s.len() <= n {
        s
    } else {
        s.take(n)
    }
}

/// The positions the queue panel lists: the tracks after the current one in
/// library order, at most `limit`.  Shuffle and repeat are not looked at: the
/// panel shows the next tracks in order.
pub open spec fn upcoming_positions(sz: Seq<nat>, cur: (int, int), limit: int) -> Seq<(int, int)> {
    take_up_to(keep_where(flat_positions(sz), after_pred(cur)), limit)
}

/// The row shown for the track at `p`: title, artist and `m:ss` length.
pub open spec fn upcoming_row(fs: Seq<Folder>, p: (int, int)) -> (Seq<char>, Seq<char>, Seq<char>) {
    let t = fs[p.0].tracks@[p.1];
    (t.title@, t.artist@, clock_text(t.duration_ms as nat / 1000))
}

pub open spec fn rows_view(v: Seq<(String, String, String)>) -> Seq<(Seq<char>, Seq<char>, Seq<char>)> {
    v.map_values(|r: (String, String, String)| (r.0@, r.1@, r.2@))
}

fn row_of(folders: &Vec<Folder>, f: usize, t: usize) -> (r: (String, String, String))
    requires
        f < folders@.len(),
        t < folders@[f as int].tracks@.len(),
    ensures
        (r.0@, r.1@, r.2@) == upcoming_row(folders@, (f as int, t as int)),
{
    let track = &folders[f].tracks[t];
    (track.title.clone(), track.artist.clone(), format_clock(track.duration_ms / 1000))
}

proof fn lemma_keep_prefix(s: Seq<(int, int)>, keep: spec_fn((int, int)) -> bool, i: int)
    requires
        0 <= i <= s.len(),
    ensures
        keep_where(s, keep).len() >= keep_where(s.take(i), keep).len(),
        keep_where(s, keep).take(keep_where(s.take(i), keep).len() as int) == keep_where(
            s.take(i),
            keep,
        ),
    decreases s.len() - i,
{
    if i == s.len() {
        assert(s.take(i) =~= s);
        assert(keep_where(s, keep).take(keep_where(s, keep).len() as int) =~= keep_where(s, keep));
    } else {
        lemma_keep_prefix(s, keep, i + 1);
        let a = keep_where(s.take(i), keep);
        let b = keep_where(s.take(i + 1), keep);
        assert(s.take(i + 1).drop_last() =~= s.take(i));
        let full = keep_where(s, keep);
        if keep(s[i]) {
            assert(b == a.push(s[i]));
            assert(full.take(a.len() as int) =~= b.take(a.len() as int));
            assert(b.take(a.len() as int) =~= a);
        } else {
            assert(b == a);
        }
    }
}

/// An element that `keep` accepts is kept.
pub proof fn lemma_keep_where_contains(s: Seq<(int, int)>, keep: spec_fn((int, int)) -> bool, k: int)
    requires
        0 <= k < s.len(),
        keep(s[k]),
    ensures
        keep_where(s, keep).contains(s[k]),
    decreases s.len(),
{
    if k == s.len() - 1 {
        assert(keep_where(s, keep) == keep_where(s.drop_last(), keep).push(s[k]));
        assert(keep_where(s, keep)[keep_where(s.drop_last(), keep).len() as int] == s[k]);
    } else {
        lemma_keep_where_contains(s.drop_last(), keep, k);
        let a = keep_where(s.drop_last(), keep);
        let j = choose|j: int| 0 <= j < a.len() && a[j] == s[k];
        if keep(s.last()) {
            assert(keep_where(s, keep)[j] == s[k]);
        }
    }
}

/// Whatever is kept was there and is accepted by `keep`.
pub proof fn lemma_keep_where_kept(s: Seq<(int, int)>, keep: spec_fn((int, int)) -> bool, j: int)
    requires
        0 <= j < keep_where(s, keep).len(),
    ensures
        keep(keep_where(s, keep)[j]),
        s.contains(keep_where(s, keep)[j]),
    decreases s.len(),
{
    let a = keep_where(s.drop_last(), keep);
    if keep(s.last()) && j == a.len() {
        assert(s[s.len() - 1] == s.last());
    } else {
        lemma_keep_where_kept(s.drop_last(), keep, j);
        let i = choose|i: int| 0 <= i < s.drop_last().len() && s.drop_last()[i] == a[j];
        assert(s[i] == a[j]);
    }
}

/// Keeping elements of a list without repeats gives a list without repeats.
pub proof fn lemma_keep_where_distinct(s: Seq<(int, int)>, keep: spec_fn((int, int)) -> bool)
    requires
        forall|i: int, j: int| 0 <= i < j < s.len() ==> s[i] != s[j],
    ensures
        forall|i: int, j: int|
            0 <= i < j < keep_where(s, keep).len() ==> keep_where(s, keep)[i] != keep_where(
                s,
                keep,
            )[j],
    decreases s.len(),
{
    if s.len() > 0 {
        let init = s.drop_last();
        lemma_keep_where_distinct(init, keep);
        let a = keep_where(init, keep);
        if keep(s.last()) {
            let r = a.push(s.last());
            assert forall|i: int, j: int| 0 <= i < j < r.len() implies r[i] != r[j] by {
                if j == a.len() {
                    lemma_keep_where_kept(init, keep, i);
                    let k = choose|k: int| 0 <= k < init.len() && init[k] == a[i];
                    assert(s[k] != s[s.len() - 1]);
                }
            }
        }
    }
}

/// The "up next" list holds at most `limit` tracks, all of the library and
/// all after the current one in library order.
pub proof fn law_upcoming_after_current(sz: Seq<nat>, cur: (int, int), limit: int)
    requires
        limit >= 0,
    ensures
        upcoming_positions(sz, cur, limit).len() <= limit,
        forall|k: int|
            0 <= k < upcoming_positions(sz, cur, limit).len() ==> {
                let p = #[trigger] upcoming_positions(sz, cur, limit)[k];
                comes_after(p, cur) && p != cur && crate::library::valid_pos(sz, p)
            },
{
    let all = flat_positions(sz);
    crate::library::lemma_flat_positions_valid(sz);
    let a = keep_where(all, after_pred(cur));
    let first = take_up_to(a, limit);
    assert forall|k: int| 0 <= k < first.len() implies comes_after(first[k], cur) && first[k] != cur
        && crate::library::valid_pos(sz, first[k]) by {
        lemma_keep_where_kept(all, after_pred(cur), k);
        let i = choose|i: int| 0 <= i < all.len() && all[i] == a[k];
        assert(crate::library::valid_pos(sz, all[i]));
    }
}

/// After a scan that stopped early at `limit` kept elements or ran to the
/// end, what it kept is `take_up_to(keep_where(s), limit)`.
proof fn lemma_scan_result(s: Seq<(int, int)>, keep: spec_fn((int, int)) -> bool, i: int, limit: int)
    requires
        0 <= i <= s.len(),
        keep_where(s.take(i), keep).len() <= limit,
        i == s.len() || keep_where(s.take(i), keep).len() == limit,
    ensures
        take_up_to(keep_where(s, keep), limit) == keep_where(s.take(i), keep),
{
    lemma_keep_prefix(s, keep, i);
    let k = keep_where(s.take(i), keep);
    let full = keep_where(s, keep);
    if i == s.len() {
        assert(s.take(i) =~= s);
    } else {
        if full.len() <= limit {
            assert(full.len() == limit);
            assert(full.take(limit) =~= full);
        }
    }
}

/// The queue panel's "up next" rows (see `upcoming_positions`); empty when
/// nothing is current.
pub fn upcoming_list(folders: &Vec<Folder>, current: Option<(usize, usize)>, limit: usize) -> (r:
    Vec<(String, String, String)>)
    ensures
        match current {
            None => r@.len() == 0,
            Some(c) => rows_view(r@) == upcoming_positions(
                sizes(folders@),
                (c.0 as int, c.1 as int),
                limit as int,
            ).map_values(|p: (int, int)| upcoming_row(folders@, p)),
        },
{
    let mut out: Vec<(String, String, String)> = Vec::new();
    let c = match current {
        Some(c) => c,
        None => return out,
    };
    let ghost cur = (c.0 as int, c.1 as int);
    let ghost sz = sizes(folders@);
    let ghost fp = flat_positions(sz);
    let ghost after = after_pred(cur);
    proof {
        crate::library::lemma_flat_positions_valid(sz);
    }
    let all = all_indices(folders);
    let n = all.len();
    let mut i: usize = 0;
    let ghost mut picked: Seq<(int, int)> = seq![];
    assert(rows_view(out@) =~= picked.map_values(|p: (int, int)| upcoming_row(folders@, p)));
    while i < n && out.len() < limit
        invariant
            i <= n == all@.len() == fp.len(),
            fp == flat_positions(sizes(folders@)),
            cur == (c.0 as int, c.1 as int),
            after == after_pred(cur),
            forall|k: int| 0 <= k < n ==> (all@[k].0 as int, all@[k].1 as int) == fp[k],
            forall|k: int|
                0 <= k < fp.len() ==> crate::library::valid_pos(sizes(folders@), #[trigger] fp[k]),
            picked == keep_where(fp.take(i as int), after),
            picked.len() == out@.len() <= limit,
            rows_view(out@) == picked.map_values(|p: (int, int)| upcoming_row(folders@, p)),
        decreases n - i,
    {
        let p = all[i];
        assert(fp.take(i + 1).drop_last() =~= fp.take(i as int));
        assert(fp.take(i + 1).last() == fp[i as int]);
        assert(crate::library::valid_pos(sizes(folders@), fp[i as int]));
        if p.0 > c.0 || (p.0 == c.0 && p.1 > c.1) {
            let row = row_of(folders, p.0, p.1);
            let ghost old_out = out@;
            let ghost old_picked = picked;
            out.push(row);
            proof {
                picked = picked.push(fp[i as int]);
                assert(rows_view(out@) =~= rows_view(old_out).push((row.0@, row.1@, row.2@)));
                assert(picked.map_values(|p: (int, int)| upcoming_row(folders@, p)) =~= old_picked.map_values(
                    |p: (int, int)| upcoming_row(folders@, p),
                ).push(upcoming_row(folders@, fp[i as int])));
            }
        }
        i = i + 1;
    }
    proof {
        lemma_scan_result(fp, after, i as int, limit as int);
    }
    out
}

} // verus!
