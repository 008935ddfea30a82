//! The library sidebar: the rows of the playlist view and the search.

use vstd::prelude::*;
use crate::library::{all_indices, flat_positions, sizes, valid_pos, Folder};
use crate::groups::{group_rows, group_rows_spec, GroupKind};
use crate::queue::keep_where;
use crate::text::{
    chars_of, contains_chars, contains_seq, string_of, to_lowercase, trim, trim_chars,
    unicode_lowercase,
};

verus! {

/// One row of the sidebar list.
#[derive(Debug, Clone)]
pub enum ListRow {
    /// A folder of the playlist view, with how many tracks it holds.
    FolderHeader { fi: usize, name: String, count: usize, expanded: bool },
    /// An album or artist group.
    GroupHeader { key: String, name: String, sub: String, count: usize, expanded: bool },
    /// A track.
    Track { fi: usize, ti: usize },
    /// A folder still being scanned.
    Loading { name: String },
}

pub ghost enum ListRowView {
    FolderHeader { fi: int, name: Seq<char>, count: int, expanded: bool },
    GroupHeader { key: Seq<char>, name: Seq<char>, sub: Seq<char>, count: int, expanded: bool },
    Track { fi: int, ti: int },
    Loading { name: Seq<char> },
}

impl View for ListRow {
    type V = ListRowView;

    open spec fn view(&self) -> ListRowView {
        match self {
            ListRow::FolderHeader { fi, name, count, expanded } => ListRowView::FolderHeader {
                fi: *fi as int,
                name: name@,
                count: *count as int,
                expanded: *expanded,
            },
            ListRow::GroupHeader { key, name, sub, count, expanded } => ListRowView::GroupHeader {
                key: key@,
                name: name@,
                sub: sub@,
                count: *count as int,
                expanded: *expanded,
            },
            ListRow::Track { fi, ti } => ListRowView::Track { fi: *fi as int, ti: *ti as int },
            ListRow::Loading { name } => ListRowView::Loading { name: name@ },
        }
    }
}

pub open spec fn rows_view(v: Seq<ListRow>) -> Seq<ListRowView> {
    v.map_values(|r: ListRow| r@)
}

/// The rows of folder `f` in the playlist view: its header, then its tracks
/// when it is expanded.
pub open spec fn folder_rows(fs: Seq<Folder>, f: int) -> Seq<ListRowView> {
    let folder = fs[f];
    seq![
        ListRowView::FolderHeader {
            fi: f,
            name: folder.name@,
            count: folder.tracks@.len() as int,
            expanded: folder.expanded,
        },
    ] + if folder.expanded {
        Seq::new(folder.tracks@.len(), |t: int| ListRowView::Track { fi: f, ti: t })
    } else {
        seq![]
    }
}

/// The playlist view of folders `0..n`.
pub open spec fn playlist_rows_spec(fs: Seq<Folder>, n: int) -> Seq<ListRowView>
    decreases n,
{
    if n <= 0 {
        seq![]
    } else {
        playlist_rows_spec(fs, n - 1) + folder_rows(fs, n - 1)
    }
}

/// The rows of the playlist view: each folder's header, followed by its
/// tracks when the folder is expanded.
pub fn playlist_rows(folders: &Vec<Folder>) -> (r: Vec<ListRow>)
    ensures
        rows_view(r@) == playlist_rows_spec(folders@, folders@.len() as int),
{
    let mut items: Vec<ListRow> = Vec::new();
    let n = folders.len();
    let mut fi: usize = 0;
    assert(rows_view(items@) =~= playlist_rows_spec(folders@, 0));
    while fi < n
        invariant
            fi <= n == folders@.len(),
            rows_view(items@) == playlist_rows_spec(folders@, fi as int),
        decreases n - fi,
    {
        let folder = &folders[fi];
        let ghost before = rows_view(items@);
        let header = ListRow::FolderHeader {
            fi,
            name: folder.name.clone(),
            count: folder.tracks.len(),
            expanded: folder.expanded,
        };
        items.push(header);
        assert(rows_view(items@) =~= before.push(header@));
        if folder.expanded {
            let m = folder.tracks.len();
            let mut ti: usize = 0;
            while ti < m
                invariant
                    ti <= m == folders@[fi as int].tracks@.len(),
                    fi < n == folders@.len(),
                    folders@[fi as int].expanded,
                    rows_view(items@) == before.push(header@) + Seq::new(
                        ti as nat,
                        |t: int| ListRowView::Track { fi: fi as int, ti: t },
                    ),
                decreases m - ti,
            {
                let ghost b2 = rows_view(items@);
                let row = ListRow::Track { fi, ti };
                items.push(row);
                assert(rows_view(items@) =~= b2.push(row@));
                assert(before.push(header@) + Seq::new(
                    (ti + 1) as nat,
                    |t: int| ListRowView::Track { fi: fi as int, ti: t },
                ) =~= b2.push(row@));
                ti = ti + 1;
            }
        }
        assert(rows_view(items@) =~= playlist_rows_spec(folders@, fi + 1));
        fi = fi + 1;
    }
    items
}

/// A track matches a lowercase query when its lowercase title, artist or
/// album contains it.
pub open spec fn track_matches(fs: Seq<Folder>, p: (int, int), q_lower: Seq<char>) -> bool {
    let t = fs[p.0].tracks@[p.1];
    ||| contains_seq(unicode_lowercase(t.title@), q_lower)
    ||| contains_seq(unicode_lowercase(t.artist@), q_lower)
    ||| contains_seq(unicode_lowercase(t.album@), q_lower)
}

pub open spec fn match_pred(fs: Seq<Folder>, q_lower: Seq<char>) -> spec_fn((int, int)) -> bool {
    |p: (int, int)| track_matches(fs, p, q_lower)
}

/// Search: `None` when the trimmed query is empty (no search); otherwise the
/// tracks, in library order, that match the lowercase trimmed query.
pub open spec fn search_spec(fs: Seq<Folder>, query: Seq<char>) -> Option<Seq<(int, int)>> {
    let q = trim(query);
    if q.len() == 0 {
        None
    } else {
        Some(keep_where(flat_positions(sizes(fs)), match_pred(fs, unicode_lowercase(q))))
    }
}

/// `q` occurs somewhere in `s`, at any position.
pub open spec fn occurs_anywhere(s: Seq<char>, q: Seq<char>) -> bool {
    exists|i: int| 0 <= i && i + q.len() <= s.len() && #[trigger] s.subrange(i, i + q.len()) == q
}

/// A search (a query that is not blank) lists a track exactly when its
/// lowercase title, artist or album holds the lowercase trimmed query at some
/// position (not only at the start), and lists only tracks of the library.
pub proof fn law_search_finds_substrings(fs: Seq<Folder>, query: Seq<char>, p: (int, int))
    requires
        trim(query).len() > 0,
    ensures
        search_spec(fs, query) matches Some(found) && (found.contains(p) <==> (valid_pos(sizes(fs), p)
            && ({
            let t = fs[p.0].tracks@[p.1];
            let q = unicode_lowercase(trim(query));
            ||| occurs_anywhere(unicode_lowercase(t.title@), q)
            ||| occurs_anywhere(unicode_lowercase(t.artist@), q)
            ||| occurs_anywhere(unicode_lowercase(t.album@), q)
        }))),
{
    let fp = flat_positions(sizes(fs));
    let q = unicode_lowercase(trim(query));
    let pred = match_pred(fs, q);
    crate::library::lemma_flat_positions_valid(sizes(fs));
    let found = keep_where(fp, pred);
    let t = fs[p.0].tracks@[p.1];
    assert(forall|s: Seq<char>| #[trigger] contains_seq(s, q) <==> occurs_anywhere(s, q)) by {
        assert forall|s: Seq<char>| #[trigger] contains_seq(s, q) <==> occurs_anywhere(s, q) by {
            if contains_seq(s, q) {
                let i = choose|i: int| crate::text::occurs_at(s, q, i);
                assert(0 <= i && i + q.len() <= s.len() && s.subrange(i, i + q.len()) == q);
            }
            if occurs_anywhere(s, q) {
                let i = choose|i: int|
                    0 <= i && i + q.len() <= s.len() && #[trigger] s.subrange(i, i + q.len()) == q;
                assert(crate::text::occurs_at(s, q, i));
            }
        }
    }
    if found.contains(p) {
        let j = choose|j: int| 0 <= j < found.len() && found[j] == p;
        crate::queue::lemma_keep_where_kept(fp, pred, j);
        let i = choose|i: int| 0 <= i < fp.len() && fp[i] == p;
        assert(valid_pos(sizes(fs), fp[i]));
    }
    if valid_pos(sizes(fs), p) && track_matches(fs, p, q) {
        crate::library::lemma_flat_positions_complete(sizes(fs), p);
        let k = choose|k: int| 0 <= k < fp.len() && fp[k] == p;
        crate::queue::lemma_keep_where_contains(fp, pred, k);
    }
}

/// The sidebar search (see `search_spec`).
pub fn search_tracks(folders: &Vec<Folder>, query: &str) -> (r: Option<Vec<(usize, usize)>>)
    ensures
        match r {
            None => search_spec(folders@, query@) == None::<Seq<(int, int)>>,
            Some(v) => search_spec(folders@, query@) == Some(
                v@.map_values(|p: (usize, usize)| (p.0 as int, p.1 as int)),
            ),
        },
{
    let qs = chars_of(query);
    let q = trim_chars(qs.as_slice());
    if q.len() == 0 {
        return None;
    }
    let qstr = crate::text::string_of(q);
    let ql = to_lowercase(qstr.as_str());
    let ghost pred = match_pred(folders@, unicode_lowercase(trim(query@)));
    let ghost fp = flat_positions(sizes(folders@));
    proof {
        crate::library::lemma_flat_positions_valid(sizes(folders@));
    }
    let all = all_indices(folders);
    let n = all.len();
    let mut out: Vec<(usize, usize)> = Vec::new();
    let mut i: usize = 0;
    while i < n
        invariant
            i <= n == all@.len() == fp.len(),
            fp == flat_positions(sizes(folders@)),
            ql@ == unicode_lowercase(trim(query@)),
            pred == match_pred(folders@, unicode_lowercase(trim(query@))),
            forall|k: int| 0 <= k < n ==> (all@[k].0 as int, all@[k].1 as int) == fp[k],
            forall|k: int| 0 <= k < fp.len() ==> valid_pos(sizes(folders@), #[trigger] fp[k]),
            out@.map_values(|p: (usize, usize)| (p.0 as int, p.1 as int)) == keep_where(
                fp.take(i as int),
                pred,
            ),
        decreases n - i,
    {
        let p = all[i];
        assert(fp.take(i + 1).drop_last() =~= fp.take(i as int));
        assert(fp.take(i + 1).last() == fp[i as int]);
        assert(valid_pos(sizes(folders@), fp[i as int]));
        let track = &folders[p.0].tracks[p.1];
        let t = to_lowercase(track.title.as_str());
        let a = to_lowercase(track.artist.as_str());
        let al = to_lowercase(track.album.as_str());
        let hit = contains_chars(t.as_slice(), ql.as_slice()) || contains_chars(
            a.as_slice(),
            ql.as_slice(),
        ) || contains_chars(al.as_slice(), ql.as_slice());
        let ghost before = out@;
        if hit {
            out.push(p);
            assert(out@.map_values(|p: (usize, usize)| (p.0 as int, p.1 as int)) =~= before.map_values(
                |p: (usize, usize)| (p.0 as int, p.1 as int),
            ).push(fp[i as int]));
        }
        i = i + 1;
    }
    assert(fp.take(n as int) =~= fp);
    Some(out)
}

/// Which list the sidebar shows when no search is under way.
#[derive(Debug, Clone, Copy, PartialEq, Eq, Structural)]
pub enum ListView {
    Playlists,
    Album,
    Artist,
}

/// The sidebar list: during a search (a query that is not blank) the matching
/// tracks; otherwise a row for each folder still being scanned, then the rows
/// of the chosen view.
pub open spec fn sidebar_rows_spec(
    fs: Seq<Folder>,
    view: ListView,
    query: Seq<char>,
    expanded_albums: Seq<Seq<char>>,
    expanded_artists: Seq<Seq<char>>,
    loading: Seq<Seq<char>>,
) -> Seq<ListRowView> {
    match search_spec(fs, query) {
        Some(ps) => Seq::new(ps.len(), |i: int| ListRowView::Track { fi: ps[i].0, ti: ps[i].1 }),
        None => Seq::new(loading.len(), |i: int| ListRowView::Loading { name: loading[i] })
            + match view {
            ListView::Playlists => playlist_rows_spec(fs, fs.len() as int),
            ListView::Album => group_rows_spec(fs, GroupKind::Album, expanded_albums),
            ListView::Artist => group_rows_spec(fs, GroupKind::Artist, expanded_artists),
        },
    }
}

/// The rows of the sidebar list (see `sidebar_rows_spec`); `loading` holds
/// the names of the folders still being scanned.
pub fn sidebar_rows(
    folders: &Vec<Folder>,
    view: ListView,
    query: &str,
    expanded_albums: &Vec<String>,
    expanded_artists: &Vec<String>,
    loading: &Vec<String>,
) -> (r: Vec<ListRow>)
    ensures
        rows_view(r@) == sidebar_rows_spec(
            folders@,
            view,
            query@,
            expanded_albums@.map_values(|s: String| s@),
            expanded_artists@.map_values(|s: String| s@),
            loading@.map_values(|s: String| s@),
        ),
{
    let ghost lv = loading@.map_values(|s: String| s@);
    match search_tracks(folders, query) {
        Some(ps) => {
            let ghost pv = ps@.map_values(|p: (usize, usize)| (p.0 as int, p.1 as int));
            let mut items: Vec<ListRow> = Vec::new();
            let n = ps.len();
            let mut i: usize = 0;
            while i < n
                invariant
                    n == ps@.len() == pv.len(),
                    pv == ps@.map_values(|p: (usize, usize)| (p.0 as int, p.1 as int)),
                    i <= n,
                    rows_view(items@) == Seq::new(
                        i as nat,
                        |k: int| ListRowView::Track { fi: pv[k].0, ti: pv[k].1 },
                    ),
                decreases n - i,
            {
                let ghost before = rows_view(items@);
                let row = ListRow::Track { fi: ps[i].0, ti: ps[i].1 };
                assert(pv[i as int] == (ps@[i as int].0 as int, ps@[i as int].1 as int));
                items.push(row);
                assert(rows_view(items@) =~= before.push(row@));
                assert(rows_view(items@) =~= Seq::new(
                    (i + 1) as nat,
                    |k: int| ListRowView::Track { fi: pv[k].0, ti: pv[k].1 },
                ));
                i = i + 1;
            }
            items
        },
        None => {
            let mut items: Vec<ListRow> = Vec::new();
            let n = loading.len();
            let mut i: usize = 0;
            while i < n
                invariant
                    n == loading@.len() == lv.len(),
                    lv == loading@.map_values(|s: String| s@),
                    i <= n,
                    rows_view(items@) == Seq::new(
                        i as nat,
                        |k: int| ListRowView::Loading { name: lv[k] },
                    ),
                decreases n - i,
            {
                let row = ListRow::Loading { name: string_of(chars_of(loading[i].as_str()).as_slice()) };
                assert(lv[i as int] == loading@[i as int]@);
                let ghost before = rows_view(items@);
                items.push(row);
                assert(rows_view(items@) =~= before.push(row@));
                assert(rows_view(items@) =~= Seq::new(
                    (i + 1) as nat,
                    |k: int| ListRowView::Loading { name: lv[k] },
                ));
                i = i + 1;
            }
            let ghost head = rows_view(items@);
            let mut rest = match view {
                ListView::Playlists => playlist_rows(folders),
                ListView::Album => group_rows(folders, GroupKind::Album, expanded_albums),
                ListView::Artist => group_rows(folders, GroupKind::Artist, expanded_artists),
            };
            let ghost tail = rows_view(rest@);
            items.append(&mut rest);
            assert(rows_view(items@) =~= head + tail);
            items
        },
    }
}

/// What an empty sidebar list says.
#[derive(Debug, Clone, Copy, PartialEq, Eq, Structural)]
pub enum EmptyNote {
    /// "No matching track" (during a search).
    NoMatch,
    /// "Add a music folder in the settings" (the library has no folder).
    NoFolders,
    /// "Nothing here yet".
    Nothing,
}

/// The note shown when the sidebar list is empty.
pub fn empty_note(searching: bool, no_folders: bool) -> (r: EmptyNote)
    ensures
        r == (if searching {
            EmptyNote::NoMatch
        } else if no_folders {
            EmptyNote::NoFolders
        } else {
            EmptyNote::Nothing
        }),
{
    if searching {
        EmptyNote::NoMatch
    } else if no_folders {
        EmptyNote::NoFolders
    } else {
        EmptyNote::Nothing
    }
}

} // verus!
