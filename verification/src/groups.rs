//! The album and artist views of the sidebar: the tracks grouped by album or
//! by artist, the groups in the order of their names, each group's tracks in
//! library order.

use vstd::prelude::*;
use crate::browse::{rows_view, ListRow, ListRowView};
use crate::library::{all_indices, flat_positions, sizes, valid_pos, Folder};
use crate::order::{
    find_insert_pos, is_insert_pos, lemma_text_lt_asymmetric, lemma_text_lt_irreflexive,
    lemma_text_lt_total, lemma_text_lt_transitive, text_lt,
};
use crate::queue::{keep_where, lemma_keep_where_contains, lemma_keep_where_kept};
use crate::text::{chars_eq, chars_of, str_eq, string_of};

verus! {

/// What the tracks are grouped by.
#[derive(Debug, Clone, Copy, PartialEq, Eq, Structural)]
pub enum GroupKind {
    Album,
    Artist,
}

/// The group of the track at `p`: its album or its artist.
pub open spec fn group_key(fs: Seq<Folder>, kind: GroupKind, p: (int, int)) -> Seq<char> {
    let t = fs[p.0].tracks@[p.1];
    match kind {
        GroupKind::Album => t.album@,
        GroupKind::Artist => t.artist@,
    }
}

/// Each text is smaller than every later one.
pub open spec fn strictly_sorted(ks: Seq<Seq<char>>) -> bool {
    forall|i: int, j: int| 0 <= i < j < ks.len() ==> text_lt(#[trigger] ks[i], #[trigger] ks[j])
}

/// Whether some track among the first `n` in library order is in group `x`.
pub open spec fn key_occurs(fs: Seq<Folder>, kind: GroupKind, n: int, x: Seq<char>) -> bool {
    exists|k: int|
        0 <= k < n && #[trigger] group_key(fs, kind, flat_positions(sizes(fs))[k]) == x
}

/// `ks` holds each group of the library once, in ascending order.
pub open spec fn is_group_keys(fs: Seq<Folder>, kind: GroupKind, ks: Seq<Seq<char>>) -> bool {
    &&& strictly_sorted(ks)
    &&& forall|x: Seq<char>|
        ks.contains(x) <==> key_occurs(fs, kind, flat_positions(sizes(fs)).len() as int, x)
}

/// The groups of the library, once each, in ascending order.
pub open spec fn group_keys(fs: Seq<Folder>, kind: GroupKind) -> Seq<Seq<char>> {
    choose|ks: Seq<Seq<char>>| is_group_keys(fs, kind, ks)
}

/// Two ascending lists without repeats that hold the same texts are equal.
pub proof fn lemma_sorted_keys_unique(a: Seq<Seq<char>>, b: Seq<Seq<char>>)
    requires
        strictly_sorted(a),
        strictly_sorted(b),
        forall|x: Seq<char>| a.contains(x) <==> b.contains(x),
    ensures
        a == b,
    decreases a.len(),
{
    if a.len() == 0 {
        if b.len() > 0 {
            assert(b.contains(b[0]));
        }
        assert(a =~= b);
    } else if b.len() == 0 {
        assert(a.contains(a[0]));
    } else {
        assert(a.contains(a[0]));
        assert(b.contains(b[0]));
        if a[0] != b[0] {
            let i = choose|i: int| 0 <= i < a.len() && a[i] == b[0];
            let j = choose|j: int| 0 <= j < b.len() && b[j] == a[0];
            assert(i != 0 && j != 0);
            assert(text_lt(a[0], a[i]));
            assert(text_lt(b[0], b[j]));
            lemma_text_lt_asymmetric(a[0], b[0]);
        }
        let ta = a.drop_first();
        let tb = b.drop_first();
        assert forall|x: Seq<char>| ta.contains(x) implies tb.contains(x) by {
            let i = choose|i: int| 0 <= i < ta.len() && ta[i] == x;
            assert(a[i + 1] == x);
            assert(text_lt(a[0], x));
            assert(b.contains(x));
            let j = choose|j: int| 0 <= j < b.len() && b[j] == x;
            if j == 0 {
                lemma_text_lt_irreflexive(x);
            }
            assert(tb[j - 1] == x);
        }
        assert forall|x: Seq<char>| tb.contains(x) implies ta.contains(x) by {
            let j = choose|j: int| 0 <= j < tb.len() && tb[j] == x;
            assert(b[j + 1] == x);
            assert(text_lt(b[0], x));
            assert(a.contains(x));
            let i = choose|i: int| 0 <= i < a.len() && a[i] == x;
            if i == 0 {
                lemma_text_lt_irreflexive(x);
            }
            assert(ta[i - 1] == x);
        }
        lemma_sorted_keys_unique(ta, tb);
        assert(a =~= seq![a[0]] + ta);
        assert(b =~= seq![b[0]] + tb);
    }
}

/// Where the key `k` goes among the ascending keys `kv`, and whether it is
/// there already.
proof fn lemma_insert_distinct(kv: Seq<Seq<char>>, k: Seq<char>, pos: int, present: bool)
    requires
        strictly_sorted(kv),
        is_insert_pos(kv, k, pos),
        present == (pos > 0 && kv[pos - 1] == k),
    ensures
        present <==> kv.contains(k),
        !present ==> strictly_sorted(kv.insert(pos, k)),
{
    assert forall|j: int| 0 <= j < kv.len() && j != pos - 1 implies kv[j] != k by {
        if j >= pos {
            if j > pos {
                lemma_text_lt_transitive(k, kv[pos], kv[j]);
            }
            lemma_text_lt_irreflexive(k);
        } else {
            // j < pos - 1: kv[j] < kv[pos - 1] and kv[pos - 1] is not above k
            assert(text_lt(kv[j], kv[pos - 1]));
            assert(!text_lt(k, kv[pos - 1]));
            lemma_text_lt_total(k, kv[pos - 1]);
            if kv[j] == k {
                lemma_text_lt_asymmetric(k, kv[pos - 1]);
            }
        }
    }
    if present {
        assert(kv.contains(k));
    } else {
        if kv.contains(k) {
            let j = choose|j: int| 0 <= j < kv.len() && kv[j] == k;
            assert(j == pos - 1);
        }
        let r = kv.insert(pos, k);
        assert forall|a: int, b: int| 0 <= a < b < r.len() implies text_lt(
            #[trigger] r[a],
            #[trigger] r[b],
        ) by {
            if b == pos {
                // r[a] = kv[a] with a < pos: not above k, and not k
                assert(!text_lt(k, kv[a]));
                lemma_text_lt_total(k, kv[a]);
            } else if a == pos {
                if b - 1 > pos {
                    lemma_text_lt_transitive(k, kv[pos], kv[b - 1]);
                }
            } else if a < pos && b > pos {
                assert(text_lt(kv[a], kv[b - 1]));
            } else if b < pos {
                assert(text_lt(kv[a], kv[b]));
            } else {
                assert(text_lt(kv[a - 1], kv[b - 1]));
            }
        }
    }
}

/// The text of the group of the track at `p`.
fn key_of(folders: &Vec<Folder>, kind: GroupKind, p: (usize, usize)) -> (r: Vec<char>)
    requires
        valid_pos(sizes(folders@), (p.0 as int, p.1 as int)),
    ensures
        r@ == group_key(folders@, kind, (p.0 as int, p.1 as int)),
{
    let t = &folders[p.0].tracks[p.1];
    match kind {
        GroupKind::Album => chars_of(t.album.as_str()),
        GroupKind::Artist => chars_of(t.artist.as_str()),
    }
}

/// The groups of the library, once each, in ascending order.  They are kept
/// as a sorted list of distinct keys, built by stable insertion: with text
/// keys, a `BTreeMap` would give Verus no specification of the order in
/// which it hands its keys out, and that order is what this view shows.
pub fn collect_group_keys(folders: &Vec<Folder>, kind: GroupKind) -> (r: Vec<Vec<char>>)
    ensures
        r@.map_values(|v: Vec<char>| v@) == group_keys(folders@, kind),
{
    let ghost fs = folders@;
    let ghost fp = flat_positions(sizes(fs));
    proof {
        crate::library::lemma_flat_positions_valid(sizes(fs));
    }
    let all = all_indices(folders);
    let n = all.len();
    let mut keys: Vec<Vec<char>> = Vec::new();
    let mut i: usize = 0;
    while i < n
        invariant
            fs == folders@,
            i <= n == all@.len() == fp.len(),
            fp == flat_positions(sizes(fs)),
            forall|k: int| 0 <= k < n ==> (all@[k].0 as int, all@[k].1 as int) == fp[k],
            forall|k: int| 0 <= k < fp.len() ==> valid_pos(sizes(fs), #[trigger] fp[k]),
            strictly_sorted(keys@.map_values(|v: Vec<char>| v@)),
            forall|x: Seq<char>|
                keys@.map_values(|v: Vec<char>| v@).contains(x) <==> key_occurs(
                    fs,
                    kind,
                    i as int,
                    x,
                ),
        decreases n - i,
    {
        let ghost kv = keys@.map_values(|v: Vec<char>| v@);
        let p = all[i];
        assert(valid_pos(sizes(fs), fp[i as int]));
        let k = key_of(folders, kind, p);
        let pos = find_insert_pos(&keys, k.as_slice());
        let present = pos > 0 && chars_eq(keys[pos - 1].as_slice(), k.as_slice());
        proof {
            if pos > 0 {
                assert(kv[pos - 1] == keys@[pos - 1]@);
            }
            lemma_insert_distinct(kv, k@, pos as int, present);
            assert(group_key(fs, kind, fp[i as int]) == k@);
        }
        if !present {
            keys.insert(pos, k);
            proof {
                assert(keys@.map_values(|v: Vec<char>| v@) =~= kv.insert(pos as int, k@));
            }
        }
        proof {
            let nv = keys@.map_values(|v: Vec<char>| v@);
            assert forall|x: Seq<char>| nv.contains(x) <==> key_occurs(fs, kind, i + 1, x) by {
                if key_occurs(fs, kind, i as int, x) {
                    let w = choose|w: int|
                        0 <= w < i && #[trigger] group_key(fs, kind, fp[w]) == x;
                    assert(0 <= w < i + 1 && group_key(fs, kind, fp[w]) == x);
                }
                if x == k@ {
                    assert(0 <= i < i + 1 && group_key(fs, kind, fp[i as int]) == x);
                }
                if key_occurs(fs, kind, i + 1, x) {
                    let w = choose|w: int|
                        0 <= w < i + 1 && #[trigger] group_key(fs, kind, fp[w]) == x;
                    if w < i {
                        assert(key_occurs(fs, kind, i as int, x));
                    }
                }
                if !present {
                    if nv.contains(x) {
                        let j = choose|j: int| 0 <= j < nv.len() && nv[j] == x;
                        if j < pos {
                            assert(kv[j] == x);
                        } else if j > pos {
                            assert(kv[j - 1] == x);
                        }
                    }
                    if kv.contains(x) {
                        let j = choose|j: int| 0 <= j < kv.len() && kv[j] == x;
                        if j < pos {
                            assert(nv[j] == x);
                        } else {
                            assert(nv[j + 1] == x);
                        }
                    }
                    assert(nv[pos as int] == k@);
                }
            }
        }
        i = i + 1;
    }
    proof {
        let kv = keys@.map_values(|v: Vec<char>| v@);
        assert(is_group_keys(fs, kind, kv));
        let g = group_keys(fs, kind);
        assert(is_group_keys(fs, kind, g));
        lemma_sorted_keys_unique(kv, g);
    }
    keys
}

/// Whether the track at `p` is in group `key`.
pub open spec fn in_group(fs: Seq<Folder>, kind: GroupKind, key: Seq<char>) -> spec_fn(
    (int, int),
) -> bool {
    |p: (int, int)| group_key(fs, kind, p) == key
}

/// The tracks of group `key`, in library order.
pub open spec fn group_entries(fs: Seq<Folder>, kind: GroupKind, key: Seq<char>) -> Seq<(int, int)> {
    keep_where(flat_positions(sizes(fs)), in_group(fs, kind, key))
}

/// The name shown for a group: the album or artist, or "未知专辑" ("unknown
/// album") / "未知歌手" ("unknown artist") for tracks without one.
pub open spec fn group_name(kind: GroupKind, key: Seq<char>) -> Seq<char> {
    if key.len() == 0 {
        match kind {
            GroupKind::Album => "未知专辑"@,
            GroupKind::Artist => "未知歌手"@,
        }
    } else {
        key
    }
}

/// The line under a group's name: in the album view, the artist of the
/// group's first track; in the artist view, nothing.
pub open spec fn group_sub(fs: Seq<Folder>, kind: GroupKind, es: Seq<(int, int)>) -> Seq<char> {
    if kind == GroupKind::Album && es.len() > 0 {
        fs[es[0].0].tracks@[es[0].1].artist@
    } else {
        Seq::empty()
    }
}

/// The rows of group `key`: its header (with how many tracks it has and
/// whether it is expanded, that is named in `expanded`), then, when
/// expanded, its tracks.
pub open spec fn group_block(
    fs: Seq<Folder>,
    kind: GroupKind,
    expanded: Seq<Seq<char>>,
    key: Seq<char>,
) -> Seq<ListRowView> {
    let es = group_entries(fs, kind, key);
    let open = expanded.contains(key);
    seq![
        ListRowView::GroupHeader {
            key: key,
            name: group_name(kind, key),
            sub: group_sub(fs, kind, es),
            count: es.len() as int,
            expanded: open,
        },
    ] + if open {
        Seq::new(es.len(), |i: int| ListRowView::Track { fi: es[i].0, ti: es[i].1 })
    } else {
        seq![]
    }
}

/// The rows of the groups `ks[0..n]`.
pub open spec fn blocks(
    fs: Seq<Folder>,
    kind: GroupKind,
    expanded: Seq<Seq<char>>,
    ks: Seq<Seq<char>>,
    n: int,
) -> Seq<ListRowView>
    decreases n,
{
    if n <= 0 {
        seq![]
    } else {
        blocks(fs, kind, expanded, ks, n - 1) + group_block(fs, kind, expanded, ks[n - 1])
    }
}

/// The album or artist view: every group of the library in ascending order
/// of its album or artist, each as its `group_block`.
pub open spec fn group_rows_spec(
    fs: Seq<Folder>,
    kind: GroupKind,
    expanded: Seq<Seq<char>>,
) -> Seq<ListRowView> {
    let ks = group_keys(fs, kind);
    blocks(fs, kind, expanded, ks, ks.len() as int)
}

/// The groups of the first `n` tracks in library order, built the way
/// `collect_group_keys` builds them.
proof fn keys_upto(fs: Seq<Folder>, kind: GroupKind, n: int) -> (ks: Seq<Seq<char>>)
    requires
        0 <= n <= flat_positions(sizes(fs)).len(),
    ensures
        strictly_sorted(ks),
        forall|x: Seq<char>| ks.contains(x) <==> key_occurs(fs, kind, n, x),
    decreases n,
{
    let fp = flat_positions(sizes(fs));
    if n == 0 {
        let ks = Seq::<Seq<char>>::empty();
        assert forall|x: Seq<char>| ks.contains(x) <==> key_occurs(fs, kind, 0, x) by {}
        ks
    } else {
        let kv = keys_upto(fs, kind, n - 1);
        let k = group_key(fs, kind, fp[n - 1]);
        crate::order::lemma_insert_pos_exists(kv, k);
        let pos = crate::order::insert_pos(kv, k);
        let present = pos > 0 && kv[pos - 1] == k;
        lemma_insert_distinct(kv, k, pos, present);
        let nv = if present {
            kv
        } else {
            kv.insert(pos, k)
        };
        assert forall|x: Seq<char>| nv.contains(x) <==> key_occurs(fs, kind, n, x) by {
            if key_occurs(fs, kind, n - 1, x) {
                let w = choose|w: int| 0 <= w < n - 1 && #[trigger] group_key(fs, kind, fp[w]) == x;
                assert(0 <= w < n && group_key(fs, kind, fp[w]) == x);
            }
            if x == k {
                assert(0 <= n - 1 < n && group_key(fs, kind, fp[n - 1]) == x);
            }
            if key_occurs(fs, kind, n, x) {
                let w = choose|w: int| 0 <= w < n && #[trigger] group_key(fs, kind, fp[w]) == x;
                if w < n - 1 {
                    assert(key_occurs(fs, kind, n - 1, x));
                }
            }
            if !present {
                if nv.contains(x) {
                    let j = choose|j: int| 0 <= j < nv.len() && nv[j] == x;
                    if j < pos {
                        assert(kv[j] == x);
                    } else if j > pos {
                        assert(kv[j - 1] == x);
                    }
                }
                if kv.contains(x) {
                    let j = choose|j: int| 0 <= j < kv.len() && kv[j] == x;
                    if j < pos {
                        assert(nv[j] == x);
                    } else {
                        assert(nv[j + 1] == x);
                    }
                }
                assert(nv[pos] == k);
            }
        }
        nv
    }
}

/// Every track of the library is listed under its own group, once, and a
/// group lists only tracks of the library that belong to it.
pub proof fn law_tracks_in_their_group(fs: Seq<Folder>, kind: GroupKind, p: (int, int))
    requires
        valid_pos(sizes(fs), p),
    ensures
        group_keys(fs, kind).contains(group_key(fs, kind, p)),
        group_entries(fs, kind, group_key(fs, kind, p)).contains(p),
        forall|key: Seq<char>, j: int|
            0 <= j < group_entries(fs, kind, key).len() ==> {
                let q = #[trigger] group_entries(fs, kind, key)[j];
                valid_pos(sizes(fs), q) && group_key(fs, kind, q) == key
            },
        forall|key: Seq<char>, i: int, j: int|
            0 <= i < j < group_entries(fs, kind, key).len() ==> #[trigger] group_entries(
                fs,
                kind,
                key,
            )[i] != #[trigger] group_entries(fs, kind, key)[j],
{
    let fp = flat_positions(sizes(fs));
    crate::library::lemma_flat_positions_valid(sizes(fs));
    crate::library::lemma_flat_positions_complete(sizes(fs), p);
    let k = choose|k: int| 0 <= k < fp.len() && fp[k] == p;
    let ks = keys_upto(fs, kind, fp.len() as int);
    assert(is_group_keys(fs, kind, ks));
    let g = group_keys(fs, kind);
    assert(is_group_keys(fs, kind, g));
    assert(group_key(fs, kind, fp[k]) == group_key(fs, kind, p));
    assert(key_occurs(fs, kind, fp.len() as int, group_key(fs, kind, p)));
    lemma_keep_where_contains(fp, in_group(fs, kind, group_key(fs, kind, p)), k);
    assert forall|key: Seq<char>, j: int|
        0 <= j < group_entries(fs, kind, key).len() implies {
            let q = #[trigger] group_entries(fs, kind, key)[j];
            valid_pos(sizes(fs), q) && group_key(fs, kind, q) == key
        } by {
        lemma_keep_where_kept(fp, in_group(fs, kind, key), j);
        let q = group_entries(fs, kind, key)[j];
        let i = choose|i: int| 0 <= i < fp.len() && fp[i] == q;
        assert(valid_pos(sizes(fs), fp[i]));
    }
    assert forall|key: Seq<char>, i: int, j: int|
        0 <= i < j < group_entries(fs, kind, key).len() implies #[trigger] group_entries(
            fs,
            kind,
            key,
        )[i] != #[trigger] group_entries(fs, kind, key)[j] by {
        crate::queue::lemma_keep_where_distinct(fp, in_group(fs, kind, key));
    }
}

/// Whether `w` is one of `list`.
fn contains_text(list: &Vec<String>, w: &[char]) -> (b: bool)
    ensures
        b == list@.map_values(|s: String| s@).contains(w@),
{
    let ghost lv = list@.map_values(|s: String| s@);
    let n = list.len();
    let mut i: usize = 0;
    let ws = string_of(w);
    while i < n
        invariant
            i <= n == list@.len() == lv.len(),
            lv == list@.map_values(|s: String| s@),
            ws@ == w@,
            forall|j: int| 0 <= j < i ==> lv[j] != w@,
        decreases n - i,
    {
        assert(lv[i as int] == list@[i as int]@);
        if str_eq(list[i].as_str(), ws.as_str()) {
            assert(lv[i as int] == w@);
            return true;
        }
        i = i + 1;
    }
    false
}

/// The tracks of group `key`, in library order.
fn entries_of(folders: &Vec<Folder>, kind: GroupKind, all: &Vec<(usize, usize)>, key: &[char]) -> (r:
    Vec<(usize, usize)>)
    requires
        all@.len() == flat_positions(sizes(folders@)).len(),
        forall|k: int|
            0 <= k < all@.len() ==> (all@[k].0 as int, all@[k].1 as int) == flat_positions(
                sizes(folders@),
            )[k],
    ensures
        r@.map_values(|p: (usize, usize)| (p.0 as int, p.1 as int)) == group_entries(
            folders@,
            kind,
            key@,
        ),
        forall|k: int|
            0 <= k < r@.len() ==> valid_pos(sizes(folders@), (r@[k].0 as int, r@[k].1 as int)),
{
    let ghost fs = folders@;
    let ghost fp = flat_positions(sizes(fs));
    let ghost pred = in_group(fs, kind, key@);
    proof {
        crate::library::lemma_flat_positions_valid(sizes(fs));
    }
    let n = all.len();
    let mut out: Vec<(usize, usize)> = Vec::new();
    let mut i: usize = 0;
    while i < n
        invariant
            fs == folders@,
            i <= n == all@.len() == fp.len(),
            fp == flat_positions(sizes(fs)),
            pred == in_group(fs, kind, key@),
            forall|k: int| 0 <= k < n ==> (all@[k].0 as int, all@[k].1 as int) == fp[k],
            forall|k: int| 0 <= k < fp.len() ==> valid_pos(sizes(fs), #[trigger] fp[k]),
            out@.map_values(|p: (usize, usize)| (p.0 as int, p.1 as int)) == keep_where(
                fp.take(i as int),
                pred,
            ),
            forall|k: int|
                0 <= k < out@.len() ==> valid_pos(sizes(fs), (out@[k].0 as int, out@[k].1 as int)),
        decreases n - i,
    {
        let p = all[i];
        assert(fp.take(i + 1).drop_last() =~= fp.take(i as int));
        assert(fp.take(i + 1).last() == fp[i as int]);
        assert(valid_pos(sizes(fs), fp[i as int]));
        let k = key_of(folders, kind, p);
        let ghost before = out@;
        if chars_eq(k.as_slice(), key) {
            out.push(p);
            assert(out@.map_values(|p: (usize, usize)| (p.0 as int, p.1 as int)) =~= before.map_values(
                |p: (usize, usize)| (p.0 as int, p.1 as int),
            ).push(fp[i as int]));
        }
        i = i + 1;
    }
    assert(fp.take(n as int) =~= fp);
    out
}

/// The rows of the album view (`GroupKind::Album`) or the artist view
/// (`GroupKind::Artist`): see `group_rows_spec`.  `expanded` names the groups
/// whose tracks are shown.
pub fn group_rows(folders: &Vec<Folder>, kind: GroupKind, expanded: &Vec<String>) -> (r: Vec<
    ListRow,
>)
    ensures
        rows_view(r@) == group_rows_spec(folders@, kind, expanded@.map_values(|s: String| s@)),
{
    let ghost fs = folders@;
    let ghost ev = expanded@.map_values(|s: String| s@);
    let keys = collect_group_keys(folders, kind);
    let ghost ks = keys@.map_values(|v: Vec<char>| v@);
    let all = all_indices(folders);
    let mut items: Vec<ListRow> = Vec::new();
    let nk = keys.len();
    let mut g: usize = 0;
    assert(rows_view(items@) =~= blocks(fs, kind, ev, ks, 0));
    while g < nk
        invariant
            fs == folders@,
            ev == expanded@.map_values(|s: String| s@),
            ks == keys@.map_values(|v: Vec<char>| v@),
            ks == group_keys(fs, kind),
            g <= nk == keys@.len(),
            all@.len() == flat_positions(sizes(folders@)).len(),
            forall|k: int|
                0 <= k < all@.len() ==> (all@[k].0 as int, all@[k].1 as int) == flat_positions(
                    sizes(folders@),
                )[k],
            rows_view(items@) == blocks(fs, kind, ev, ks, g as int),
        decreases nk - g,
    {
        let key = keys[g].as_slice();
        assert(ks[g as int] == key@);
        let es = entries_of(folders, kind, &all, key);
        let ghost esv = es@.map_values(|p: (usize, usize)| (p.0 as int, p.1 as int));
        let open = contains_text(expanded, key);
        let name = if key.len() == 0 {
            match kind {
                GroupKind::Album => String::from_str("未知专辑"),
                GroupKind::Artist => String::from_str("未知歌手"),
            }
        } else {
            string_of(key)
        };
        let sub = if kind == GroupKind::Album && es.len() > 0 {
            let p = es[0];
            assert(esv[0] == (p.0 as int, p.1 as int));
            let t = &folders[p.0].tracks[p.1];
            string_of(chars_of(t.artist.as_str()).as_slice())
        } else {
            String::new()
        };
        let header = ListRow::GroupHeader {
            key: string_of(key),
            name,
            sub,
            count: es.len(),
            expanded: open,
        };
        let ghost before = rows_view(items@);
        items.push(header);
        assert(rows_view(items@) =~= before.push(header@));
        if open {
            let m = es.len();
            let mut j: usize = 0;
            while j < m
                invariant
                    m == es@.len() == esv.len(),
                    esv == es@.map_values(|p: (usize, usize)| (p.0 as int, p.1 as int)),
                    j <= m,
                    rows_view(items@) == before.push(header@) + Seq::new(
                        j as nat,
                        |i: int| ListRowView::Track { fi: esv[i].0, ti: esv[i].1 },
                    ),
                decreases m - j,
            {
                let ghost b2 = rows_view(items@);
                let p = es[j];
                let row = ListRow::Track { fi: p.0, ti: p.1 };
                items.push(row);
                assert(rows_view(items@) =~= b2.push(row@));
                assert(before.push(header@) + Seq::new(
                    (j + 1) as nat,
                    |i: int| ListRowView::Track { fi: esv[i].0, ti: esv[i].1 },
                ) =~= b2.push(row@));
                j = j + 1;
            }
        }
        assert(rows_view(items@) =~= blocks(fs, kind, ev, ks, g + 1));
        g = g + 1;
    }
    items
}

} // verus!
