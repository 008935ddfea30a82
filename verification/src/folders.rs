//! Changes to the library's folder list and to the list of music directories:
//! adding a scanned folder, rescanning one, removing one, the folder that
//! collects files opened from outside the library, and finding a track by path.

use vstd::prelude::*;
use crate::library::{Folder, Track};
use crate::text::str_eq;

verus! {

/// The name of the folder that holds files opened from outside the library.
pub open spec fn external_folder_name() -> Seq<char> {
    "外部文件"@
}

/// Whether track `t` of folder `f` exists.
pub open spec fn track_exists(fs: Seq<Folder>, f: int, t: int) -> bool {
    0 <= f < fs.len() && 0 <= t < fs[f].tracks@.len()
}

/// `p` is the first track, folder by folder, whose path is `path`.
pub open spec fn is_first_with_path(fs: Seq<Folder>, path: Seq<char>, p: (int, int)) -> bool {
    &&& track_exists(fs, p.0, p.1)
    &&& fs[p.0].tracks@[p.1].path@ == path
    &&& forall|f: int, t: int|
        track_exists(fs, f, t) && (f < p.0 || (f == p.0 && t < p.1)) ==> (
        #[trigger] fs[f].tracks@[t]).path@ != path
}

/// Finds the track with the given path: the first one, folder by folder.
pub fn find_track(folders: &Vec<Folder>, path: &str) -> (r: Option<(usize, usize)>)
    ensures
        match r {
            Some((fi, ti)) => is_first_with_path(folders@, path@, (fi as int, ti as int)),
            None => forall|f: int, t: int|
                track_exists(folders@, f, t) ==> (#[trigger] folders@[f].tracks@[t]).path@
                    != path@,
        },
{
    let n = folders.len();
    let mut fi: usize = 0;
    while fi < n
        invariant
            n == folders@.len(),
            fi <= n,
            forall|f: int, t: int|
                track_exists(folders@, f, t) && f < fi ==> (
                #[trigger] folders@[f].tracks@[t]).path@ != path@,
        decreases n - fi,
    {
        let tracks = &folders[fi].tracks;
        let m = tracks.len();
        let mut ti: usize = 0;
        while ti < m
            invariant
                n == folders@.len(),
                fi < n,
                m == folders@[fi as int].tracks@.len(),
                tracks@ == folders@[fi as int].tracks@,
                ti <= m,
                forall|f: int, t: int|
                    track_exists(folders@, f, t) && (f < fi || (f == fi && t < ti)) ==> (
                    #[trigger] folders@[f].tracks@[t]).path@ != path@,
            decreases m - ti,
        {
            if str_eq(tracks[ti].path.as_str(), path) {
                return Some((fi, ti));
            }
            ti = ti + 1;
        }
        fi = fi + 1;
    }
    None
}

/// `i` is the first folder named `name`.
pub open spec fn is_first_named(fs: Seq<Folder>, name: Seq<char>, i: int) -> bool {
    &&& 0 <= i < fs.len()
    &&& fs[i].name@ == name
    &&& forall|j: int| 0 <= j < i ==> (#[trigger] fs[j]).name@ != name
}

/// The first folder named `name`, if there is one.
pub open spec fn first_named(fs: Seq<Folder>, name: Seq<char>) -> Option<int> {
    if exists|i: int| is_first_named(fs, name, i) {
        Some(choose|i: int| is_first_named(fs, name, i))
    } else {
        None
    }
}

proof fn lemma_first_named(fs: Seq<Folder>, name: Seq<char>, i: int)
    requires
        is_first_named(fs, name, i),
    ensures
        first_named(fs, name) == Some(i),
{
    let c = choose|c: int| is_first_named(fs, name, c);
    assert(is_first_named(fs, name, c));
    if c < i {
        assert(fs[c].name@ != name);
    } else if c > i {
        assert(fs[i].name@ != name);
    }
}

/// Finds the first folder named `name`.
fn position_named(folders: &Vec<Folder>, name: &str) -> (r: Option<usize>)
    ensures
        match r {
            Some(i) => first_named(folders@, name@) == Some(i as int) && i < folders@.len(),
            None => first_named(folders@, name@) == None::<int>,
        },
{
    let n = folders.len();
    let mut i: usize = 0;
    while i < n
        invariant
            n == folders@.len(),
            i <= n,
            forall|j: int| 0 <= j < i ==> (#[trigger] folders@[j]).name@ != name@,
        decreases n - i,
    {
        if str_eq(folders[i].name.as_str(), name) {
            proof {
                lemma_first_named(folders@, name@, i as int);
            }
            return Some(i);
        }
        i = i + 1;
    }
    proof {
        if exists|k: int| is_first_named(folders@, name@, k) {
            let k = choose|k: int| is_first_named(folders@, name@, k);
            assert(folders@[k].name@ == name@);
        }
    }
    None
}

/// Adds a track opened from outside the library to the folder for such files
/// (the first one so named, or a new one put first in the list), shows that
/// folder's tracks, and returns where the track now is.
pub fn add_external_track(folders: &mut Vec<Folder>, track: Track) -> (r: (usize, usize))
    ensures
        ({
            let o = old(folders)@;
            let n = final(folders)@;
            match first_named(o, external_folder_name()) {
                Some(i) => {
                    &&& n.len() == o.len()
                    &&& r.0 == i
                    &&& forall|j: int| 0 <= j < o.len() && j != i ==> n[j] == o[j]
                    &&& n[i].name == o[i].name
                    &&& n[i].expanded
                    &&& n[i].tracks@ == o[i].tracks@.push(track)
                },
                None => {
                    &&& n.len() == o.len() + 1
                    &&& r.0 == 0
                    &&& n[0].name@ == external_folder_name()
                    &&& n[0].expanded
                    &&& n[0].tracks@ == seq![track]
                    &&& forall|j: int| 0 <= j < o.len() ==> n[j + 1] == o[j]
                },
            }
        }),
        r.0 < final(folders)@.len(),
        r.1 + 1 == final(folders)@[r.0 as int].tracks@.len(),
        final(folders)@[r.0 as int].tracks@[r.1 as int] == track,
        (forall|f: int, t: int|
            track_exists(old(folders)@, f, t) ==> (#[trigger] old(folders)@[f].tracks@[t]).path@
                != track.path@) ==> is_first_with_path(
            final(folders)@,
            track.path@,
            (r.0 as int, r.1 as int),
        ),
{
    let name = String::from_str("外部文件");
    let found = position_named(folders, name.as_str());
    let fi: usize = match found {
        Some(i) => i,
        None => {
            folders.insert(0, Folder { name, expanded: true, tracks: Vec::new() });
            0
        },
    };
    let ghost mid = folders@;
    let mut f = folders.remove(fi);
    f.tracks.push(track);
    f.expanded = true;
    let ti = f.tracks.len() - 1;
    folders.insert(fi, f);
    proof {
        assert(folders@ =~= mid.update(fi as int, folders@[fi as int]));
        let o = old(folders)@;
        let n = folders@;
        if forall|f: int, t: int|
            track_exists(o, f, t) ==> (#[trigger] o[f].tracks@[t]).path@ != track.path@ {
            assert forall|f: int, t: int|
                track_exists(n, f, t) && (f < fi || (f == fi && t < ti)) implies (
                #[trigger] n[f].tracks@[t]).path@ != track.path@ by {
                if found is Some {
                    if f != fi {
                        assert(n[f] == o[f]);
                        assert(track_exists(o, f, t));
                    } else {
                        assert(n[f].tracks@[t] == o[f].tracks@[t]);
                        assert(track_exists(o, f, t));
                    }
                } else {
                    assert(f >= 1);
                    assert(n[f] == o[f - 1]);
                    assert(track_exists(o, f - 1, t));
                }
            }
        }
    }
    (fi, ti)
}

/// Whether a folder is not named `name`.
pub open spec fn not_named(name: Seq<char>) -> spec_fn(Folder) -> bool {
    |f: Folder| f.name@ != name
}

/// Removes every folder named `name`; the others keep their order.
pub fn remove_folders_named(folders: &mut Vec<Folder>, name: &str)
    ensures
        final(folders)@ == old(folders)@.filter(not_named(name@)),
{
    let ghost o = folders@;
    let ghost keep = not_named(name@);
    let n = folders.len();
    let mut kept: Vec<Folder> = Vec::new();
    let mut i: usize = 0;
    assert(o.take(0) =~= Seq::<Folder>::empty());
    assert(Seq::<Folder>::empty().filter(keep) =~= Seq::<Folder>::empty()) by {
        Seq::<Folder>::empty().lemma_all_neg_filter_empty(keep);
    }
    assert(folders@ =~= o.skip(0));
    while i < n
        invariant
            n == o.len(),
            i <= n,
            keep == not_named(name@),
            folders@ == o.skip(i as int),
            kept@ == o.take(i as int).filter(keep),
        decreases n - i,
    {
        let f = folders.remove(0);
        assert(f == o[i as int]);
        proof {
            o.take(i as int).lemma_filter_push(f, keep);
            assert(o.take(i as int).push(f) =~= o.take(i as int + 1));
            assert(folders@ =~= o.skip(i as int + 1));
        }
        if !str_eq(f.name.as_str(), name) {
            kept.push(f);
        }
        i = i + 1;
    }
    assert(o.take(n as int) =~= o);
    *folders = kept;
}

/// Gives the first folder named `name` the tracks of a new scan; says whether
/// there was such a folder.  The list is otherwise unchanged.
pub fn replace_folder_tracks(folders: &mut Vec<Folder>, name: &str, tracks: Vec<Track>) -> (r:
    bool)
    ensures
        ({
            let o = old(folders)@;
            let n = final(folders)@;
            match first_named(o, name@) {
                Some(i) => {
                    &&& r
                    &&& n.len() == o.len()
                    &&& forall|j: int| 0 <= j < o.len() && j != i ==> n[j] == o[j]
                    &&& n[i].name == o[i].name
                    &&& n[i].expanded == o[i].expanded
                    &&& n[i].tracks@ == tracks@
                },
                None => !r && n == o,
            }
        }),
{
    match position_named(folders, name) {
        Some(i) => {
            let ghost mid = folders@;
            let mut f = folders.remove(i);
            f.tracks = tracks;
            folders.insert(i, f);
            proof {
                assert(folders@ =~= mid.update(i as int, folders@[i as int]));
            }
            true
        },
        None => false,
    }
}

/// Adds the folder of a finished scan, shown expanded, at the end of the
/// list; a scan that found no track adds nothing.
pub fn add_scanned_folder(folders: &mut Vec<Folder>, name: String, tracks: Vec<Track>)
    ensures
        tracks@.len() == 0 ==> final(folders)@ == old(folders)@,
        tracks@.len() > 0 ==> final(folders)@.len() == old(folders)@.len() + 1
            && final(folders)@.drop_last() == old(folders)@
            && final(folders)@.last().name == name
            && final(folders)@.last().expanded
            && final(folders)@.last().tracks@ == tracks@,
{
    if tracks.len() > 0 {
        folders.push(Folder { name, expanded: true, tracks });
        assert(folders@.drop_last() =~= old(folders)@);
    }
}

/// Shows or hides the tracks of folder `fi`; an index past the end changes
/// nothing.
pub fn toggle_folder(folders: &mut Vec<Folder>, fi: usize)
    ensures
        final(folders)@.len() == old(folders)@.len(),
        forall|j: int| 0 <= j < old(folders)@.len() && j != fi ==> final(folders)@[j] == old(folders)@[j],
        fi < old(folders)@.len() ==> {
            let a = old(folders)@[fi as int];
            let b = final(folders)@[fi as int];
            b.expanded == !a.expanded && b.name == a.name && b.tracks == a.tracks
        },
{
    if fi < folders.len() {
        let ghost mid = folders@;
        let mut f = folders.remove(fi);
        f.expanded = !f.expanded;
        folders.insert(fi, f);
        assert(folders@ =~= mid.update(fi as int, folders@[fi as int]));
    }
}

/// Records where the cover of track `ti` of folder `fi` was cached; a track
/// that does not exist changes nothing.
pub fn set_cover_path(folders: &mut Vec<Folder>, fi: usize, ti: usize, cover: Option<String>)
    ensures
        final(folders)@.len() == old(folders)@.len(),
        !track_exists(old(folders)@, fi as int, ti as int) ==> final(folders)@ == old(folders)@,
        track_exists(old(folders)@, fi as int, ti as int) ==> {
            let a = old(folders)@[fi as int];
            let b = final(folders)@[fi as int];
            &&& forall|j: int| 0 <= j < old(folders)@.len() && j != fi ==> final(folders)@[j]
                == old(folders)@[j]
            &&& b.name == a.name && b.expanded == a.expanded
            &&& b.tracks@.len() == a.tracks@.len()
            &&& forall|k: int| 0 <= k < a.tracks@.len() && k != ti ==> b.tracks@[k] == a.tracks@[k]
            &&& b.tracks@[ti as int].cover_path == cover
            &&& b.tracks@[ti as int].path == a.tracks@[ti as int].path
            &&& b.tracks@[ti as int].title == a.tracks@[ti as int].title
            &&& b.tracks@[ti as int].artist == a.tracks@[ti as int].artist
            &&& b.tracks@[ti as int].album == a.tracks@[ti as int].album
            &&& b.tracks@[ti as int].duration_ms == a.tracks@[ti as int].duration_ms
        },
{
    if fi < folders.len() && ti < folders[fi].tracks.len() {
        let ghost mid = folders@;
        let mut f = folders.remove(fi);
        let ghost tmid = f.tracks@;
        let mut t = f.tracks.remove(ti);
        t.cover_path = cover;
        f.tracks.insert(ti, t);
        assert(f.tracks@ =~= tmid.update(ti as int, f.tracks@[ti as int]));
        folders.insert(fi, f);
        assert(folders@ =~= mid.update(fi as int, folders@[fi as int]));
    }
}

/// Puts edited tags (title, artist, album) on track `ti` of folder `fi`; a
/// track that does not exist changes nothing.
pub fn set_track_tags(
    folders: &mut Vec<Folder>,
    fi: usize,
    ti: usize,
    title: String,
    artist: String,
    album: String,
)
    ensures
        final(folders)@.len() == old(folders)@.len(),
        !track_exists(old(folders)@, fi as int, ti as int) ==> final(folders)@ == old(folders)@,
        track_exists(old(folders)@, fi as int, ti as int) ==> {
            let a = old(folders)@[fi as int];
            let b = final(folders)@[fi as int];
            &&& forall|j: int| 0 <= j < old(folders)@.len() && j != fi ==> final(folders)@[j]
                == old(folders)@[j]
            &&& b.name == a.name && b.expanded == a.expanded
            &&& b.tracks@.len() == a.tracks@.len()
            &&& forall|k: int| 0 <= k < a.tracks@.len() && k != ti ==> b.tracks@[k] == a.tracks@[k]
            &&& b.tracks@[ti as int].title == title
            &&& b.tracks@[ti as int].artist == artist
            &&& b.tracks@[ti as int].album == album
            &&& b.tracks@[ti as int].path == a.tracks@[ti as int].path
            &&& b.tracks@[ti as int].duration_ms == a.tracks@[ti as int].duration_ms
            &&& b.tracks@[ti as int].cover_path == a.tracks@[ti as int].cover_path
        },
{
    if fi < folders.len() && ti < folders[fi].tracks.len() {
        let ghost mid = folders@;
        let mut f = folders.remove(fi);
        let ghost tmid = f.tracks@;
        let mut t = f.tracks.remove(ti);
        t.title = title;
        t.artist = artist;
        t.album = album;
        f.tracks.insert(ti, t);
        assert(f.tracks@ =~= tmid.update(ti as int, f.tracks@[ti as int]));
        folders.insert(fi, f);
        assert(folders@ =~= mid.update(fi as int, folders@[fi as int]));
    }
}

/// Adds a music directory to the list unless it is already there; says
/// whether it was added.
pub fn add_path(paths: &mut Vec<String>, path: String) -> (r: bool)
    ensures
        r == !old(paths)@.map_values(|p: String| p@).contains(path@),
        r ==> final(paths)@ == old(paths)@.push(path),
        !r ==> final(paths)@ == old(paths)@,
{
    let ghost pv = paths@.map_values(|p: String| p@);
    let n = paths.len();
    let mut i: usize = 0;
    while i < n
        invariant
            n == paths@.len() == pv.len(),
            pv == paths@.map_values(|p: String| p@),
            i <= n,
            forall|j: int| 0 <= j < i ==> pv[j] != path@,
        decreases n - i,
    {
        assert(pv[i as int] == paths@[i as int]@);
        if str_eq(paths[i].as_str(), path.as_str()) {
            assert(pv.contains(path@));
            return false;
        }
        i = i + 1;
    }
    paths.push(path);
    true
}

/// Whether a path differs from `p`.
pub open spec fn other_path(p: Seq<char>) -> spec_fn(String) -> bool {
    |s: String| s@ != p
}

/// Removes every occurrence of `path` from a list of paths; the others keep
/// their order.
pub fn remove_path(paths: &mut Vec<String>, path: &str)
    ensures
        final(paths)@ == old(paths)@.filter(other_path(path@)),
{
    let ghost o = paths@;
    let ghost keep = other_path(path@);
    let n = paths.len();
    let mut kept: Vec<String> = Vec::new();
    let mut i: usize = 0;
    assert(o.take(0) =~= Seq::<String>::empty());
    assert(Seq::<String>::empty().filter(keep) =~= Seq::<String>::empty()) by {
        Seq::<String>::empty().lemma_all_neg_filter_empty(keep);
    }
    assert(paths@ =~= o.skip(0));
    while i < n
        invariant
            n == o.len(),
            i <= n,
            keep == other_path(path@),
            paths@ == o.skip(i as int),
            kept@ == o.take(i as int).filter(keep),
        decreases n - i,
    {
        let s = paths.remove(0);
        assert(s == o[i as int]);
        proof {
            o.take(i as int).lemma_filter_push(s, keep);
            assert(o.take(i as int).push(s) =~= o.take(i as int + 1));
            assert(paths@ =~= o.skip(i as int + 1));
        }
        if !str_eq(s.as_str(), path) {
            kept.push(s);
        }
        i = i + 1;
    }
    assert(o.take(n as int) =~= o);
    *paths = kept;
}

} // verus!
