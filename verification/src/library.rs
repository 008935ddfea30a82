//! The music library (folders of tracks) and playback navigation over it:
//! first/last track, sequential and shuffled next/previous, repeat modes, and
//! the recently-played list.

use vstd::prelude::*;
use crate::text::{chars_eq, chars_of};

verus! {

/// One track of the library.
#[derive(Debug, Clone)]
pub struct Track {
    pub path: String,
    pub title: String,
    pub artist: String,
    pub album: String,
    /// Length in whole milliseconds.
    pub duration_ms: u64,
    /// Where the cached cover thumbnail is, if extracted.
    pub cover_path: Option<String>,
}

/// A folder of tracks (a scanned music directory).
#[derive(Debug, Clone)]
pub struct Folder {
    pub name: String,
    /// Whether the playlist view shows its tracks.
    pub expanded: bool,
    pub tracks: Vec<Track>,
}

/// Repeat mode: stop after the last track, loop the whole list, or loop the
/// current track.
#[derive(Debug, Clone, Copy, PartialEq, Eq, Structural)]
pub enum RepeatMode {
    Off,
    All,
    One,
}

/// How many tracks each folder holds.
pub open spec fn sizes(fs: Seq<Folder>) -> Seq<nat> {
    Seq::new(fs.len(), |i: int| fs[i].tracks@.len())
}

/// `f` is the first non-empty folder at or after `from`.
pub open spec fn is_first_nonempty_from(sz: Seq<nat>, from: int, f: int) -> bool {
    &&& from <= f < sz.len()
    &&& sz[f] > 0
    &&& forall|g: int| from <= g < f ==> sz[g] == 0
}

/// The first non-empty folder at or after `from`.
pub open spec fn first_nonempty_from(sz: Seq<nat>, from: int) -> Option<int> {
    if exists|f: int| is_first_nonempty_from(sz, from, f) {
        Some(choose|f: int| is_first_nonempty_from(sz, from, f))
    } else {
        None
    }
}

/// `f` is the last non-empty folder.
pub open spec fn is_last_nonempty(sz: Seq<nat>, f: int) -> bool {
    &&& 0 <= f < sz.len()
    &&& sz[f] > 0
    &&& forall|g: int| f < g < sz.len() ==> sz[g] == 0
}

pub open spec fn last_nonempty(sz: Seq<nat>) -> Option<int> {
    if exists|f: int| is_last_nonempty(sz, f) {
        Some(choose|f: int| is_last_nonempty(sz, f))
    } else {
        None
    }
}

proof fn lemma_first_nonempty_unique(sz: Seq<nat>, from: int, f: int)
    requires
        is_first_nonempty_from(sz, from, f),
    ensures
        first_nonempty_from(sz, from) == Some(f),
{
    let k = choose|k: int| is_first_nonempty_from(sz, from, k);
    assert(is_first_nonempty_from(sz, from, k));
    if k < f {
        assert(sz[k] == 0);
    } else if k > f {
        assert(sz[f] == 0);
    }
}

proof fn lemma_last_nonempty_unique(sz: Seq<nat>, f: int)
    requires
        is_last_nonempty(sz, f),
    ensures
        last_nonempty(sz) == Some(f),
{
    let k = choose|k: int| is_last_nonempty(sz, k);
    assert(is_last_nonempty(sz, k));
    if k < f {
        assert(sz[f] == 0);
    } else if k > f {
        assert(sz[k] == 0);
    }
}

/// A position `(folder, track)` that names a track.
pub open spec fn valid_pos(sz: Seq<nat>, p: (int, int)) -> bool {
    0 <= p.0 < sz.len() && 0 <= p.1 < sz[p.0]
}

/// The first track of the library: track 0 of the first non-empty folder.
pub open spec fn first_spec(sz: Seq<nat>) -> Option<(int, int)> {
    match first_nonempty_from(sz, 0) {
        Some(f) => Some((f, 0)),
        None => None,
    }
}

/// The last track of the library.
pub open spec fn last_spec(sz: Seq<nat>) -> Option<(int, int)> {
    match last_nonempty(sz) {
        Some(f) => Some((f, sz[f] - 1)),
        None => None,
    }
}

/// The track after `(fi, ti)` in library order, without wrapping: the next
/// track of the same folder, else track 0 of the next non-empty folder.
pub open spec fn next_sequential_spec(sz: Seq<nat>, fi: int, ti: int) -> Option<(int, int)> {
    if fi < sz.len() && ti + 1 < sz[fi] {
        Some((fi, ti + 1))
    } else {
        match first_nonempty_from(sz, fi + 1) {
            Some(f) => Some((f, 0)),
            None => None,
        }
    }
}

/// The folders before folder `fi` (all of them when `fi` is past the end).
pub open spec fn sizes_before(sz: Seq<nat>, fi: int) -> Seq<nat> {
    sz.take(if fi < sz.len() { fi } else { sz.len() as int })
}

/// The track before `(fi, ti)`, without wrapping: the previous track of the
/// same folder, else the last track of the nearest non-empty folder before
/// it.
pub open spec fn prev_sequential_spec(sz: Seq<nat>, fi: int, ti: int) -> Option<(int, int)> {
    if ti > 0 {
        Some((fi, ti - 1))
    } else {
        match last_nonempty(sizes_before(sz, fi)) {
            Some(f) => Some((f, sz[f] - 1)),
            None => None,
        }
    }
}

pub fn folder_sizes(folders: &Vec<Folder>) -> (r: Vec<usize>)
    ensures
        r@.len() == folders@.len(),
        forall|i: int| 0 <= i < r@.len() ==> r@[i] == sizes(folders@)[i],
{
    let n = folders.len();
    let mut r: Vec<usize> = Vec::new();
    let mut i: usize = 0;
    while i < n
        invariant
            i <= n == folders@.len(),
            r@.len() == i,
            forall|j: int| 0 <= j < i ==> r@[j] == sizes(folders@)[j],
        decreases n - i,
    {
        r.push(folders[i].tracks.len());
        i = i + 1;
    }
    r
}

/// The first track of the library, if it has any.
pub fn first(folders: &Vec<Folder>) -> (r: Option<(usize, usize)>)
    ensures
        match r {
            Some((f, t)) => first_spec(sizes(folders@)) == Some((f as int, t as int)),
            None => first_spec(sizes(folders@)) == None::<(int, int)>,
        },
{
    let ghost sz = sizes(folders@);
    let n = folders.len();
    let mut i: usize = 0;
    while i < n
        invariant
            i <= n == folders@.len() == sz.len(),
            sz == sizes(folders@),
            forall|g: int| 0 <= g < i ==> sz[g] == 0,
        decreases n - i,
    {
        if folders[i].tracks.len() > 0 {
            proof {
                lemma_first_nonempty_unique(sz, 0, i as int);
            }
            return Some((i, 0));
        }
        i = i + 1;
    }
    None
}

/// The last track of the library, if it has any.
pub fn last(folders: &Vec<Folder>) -> (r: Option<(usize, usize)>)
    ensures
        match r {
            Some((f, t)) => last_spec(sizes(folders@)) == Some((f as int, t as int)),
            None => last_spec(sizes(folders@)) == None::<(int, int)>,
        },
{
    let ghost sz = sizes(folders@);
    let mut k: usize = folders.len();
    while k > 0
        invariant
            k <= folders@.len() == sz.len(),
            sz == sizes(folders@),
            forall|g: int| k <= g < sz.len() ==> sz[g] == 0,
        decreases k,
    {
        let n = folders[k - 1].tracks.len();
        if n > 0 {
            proof {
                lemma_last_nonempty_unique(sz, k - 1);
            }
            return Some((k - 1, n - 1));
        }
        k = k - 1;
    }
    None
}

/// The next track in library order, without wrapping.
pub fn next_sequential(folders: &Vec<Folder>, fi: usize, ti: usize) -> (r: Option<(usize, usize)>)
    requires
        ti < usize::MAX,
    ensures
        match r {
            Some((f, t)) => next_sequential_spec(sizes(folders@), fi as int, ti as int) == Some(
                (f as int, t as int),
            ),
            None => next_sequential_spec(sizes(folders@), fi as int, ti as int) == None::<
                (int, int),
            >,
        },
{
    let ghost sz = sizes(folders@);
    let n = folders.len();
    if fi < n && ti + 1 < folders[fi].tracks.len() {
        return Some((fi, ti + 1));
    }
    if fi >= n {
        return None;
    }
    let mut f: usize = fi + 1;
    while f < n
        invariant
            fi + 1 <= f <= n == folders@.len() == sz.len(),
            sz == sizes(folders@),
            !(fi < sz.len() && ti + 1 < sz[fi as int]),
            forall|g: int| fi + 1 <= g < f ==> sz[g] == 0,
        decreases n - f,
    {
        if folders[f].tracks.len() > 0 {
            proof {
                lemma_first_nonempty_unique(sz, fi + 1, f as int);
            }
            return Some((f, 0));
        }
        f = f + 1;
    }
    None
}

/// The previous track in library order, without wrapping.
pub fn prev_sequential(folders: &Vec<Folder>, fi: usize, ti: usize) -> (r: Option<(usize, usize)>)
    ensures
        match r {
            Some((f, t)) => prev_sequential_spec(sizes(folders@), fi as int, ti as int) == Some(
                (f as int, t as int),
            ),
            None => prev_sequential_spec(sizes(folders@), fi as int, ti as int) == None::<
                (int, int),
            >,
        },
{
    if ti > 0 {
        return Some((fi, ti - 1));
    }
    let ghost sz = sizes(folders@);
    let n = folders.len();
    let lim: usize = if fi < n { fi } else { n };
    let ghost before = sizes_before(sz, fi as int);
    assert(before == sz.take(lim as int));
    let mut g: usize = lim;
    while g > 0
        invariant
            g <= lim <= n == folders@.len() == sz.len(),
            sz == sizes(folders@),
            before == sz.take(lim as int),
            before == sizes_before(sz, fi as int),
            ti == 0,
            forall|h: int| g <= h < lim ==> sz[h] == 0,
        decreases g,
    {
        let m = folders[g - 1].tracks.len();
        if m > 0 {
            proof {
                assert(sz[g - 1] == m);
                assert(is_last_nonempty(before, g - 1));
                lemma_last_nonempty_unique(before, g - 1);
                assert(before == sizes_before(sz, fi as int));
                assert(last_nonempty(sizes_before(sz, fi as int)) == Some(g - 1));
            }
            return Some((g - 1, m - 1));
        }
        g = g - 1;
    }
    proof {
        if exists|f: int| is_last_nonempty(before, f) {
            let f = choose|f: int| is_last_nonempty(before, f);
            assert(before[f] == sz[f]);
        }
    }
    None
}


// ---------------------------------------------------------------------------
// Laws of sequential navigation
// ---------------------------------------------------------------------------

/// From a track, `next_sequential` reaches a track that lies after it, and
/// `prev_sequential` from there comes back to the starting track.
pub proof fn law_prev_undoes_next(sz: Seq<nat>, fi: int, ti: int)
    requires
        valid_pos(sz, (fi, ti)),
    ensures
        next_sequential_spec(sz, fi, ti) matches Some(q) ==> {
            &&& valid_pos(sz, q)
            &&& (q.0 > fi || (q.0 == fi && q.1 > ti))
            &&& prev_sequential_spec(sz, q.0, q.1) == Some((fi, ti))
        },
{
    if ti + 1 < sz[fi] {
    } else {
        match first_nonempty_from(sz, fi + 1) {
            Some(f) => {
                let from = fi + 1;
                assert(is_first_nonempty_from(sz, from, f)) by {
                    let k = choose|k: int| is_first_nonempty_from(sz, from, k);
                    assert(is_first_nonempty_from(sz, from, k));
                }
                let before = sizes_before(sz, f);
                assert(is_last_nonempty(before, fi));
                lemma_last_nonempty_unique(before, fi);
            },
            None => {},
        }
    }
}

/// From a track, `prev_sequential` reaches a track that lies before it, and
/// `next_sequential` from there comes back to the starting track.
pub proof fn law_next_undoes_prev(sz: Seq<nat>, fi: int, ti: int)
    requires
        valid_pos(sz, (fi, ti)),
    ensures
        prev_sequential_spec(sz, fi, ti) matches Some(p) ==> {
            &&& valid_pos(sz, p)
            &&& (p.0 < fi || (p.0 == fi && p.1 < ti))
            &&& next_sequential_spec(sz, p.0, p.1) == Some((fi, ti))
        },
{
    if ti == 0 {
        let before = sizes_before(sz, fi);
        match last_nonempty(before) {
            Some(g) => {
                assert(is_last_nonempty(before, g)) by {
                    let k = choose|k: int| is_last_nonempty(before, k);
                    assert(is_last_nonempty(before, k));
                }
                assert(is_first_nonempty_from(sz, g + 1, fi)) by {
                    assert forall|h: int| g + 1 <= h < fi implies sz[h] == 0 by {
                        assert(before[h] == sz[h]);
                    }
                }
                lemma_first_nonempty_unique(sz, g + 1, fi);
            },
            None => {},
        }
    }
}

/// `first` names a track, and no track comes before it; `last` names a
/// track, and no track comes after it.  Each exists exactly when the
/// library holds a track.
pub proof fn law_first_and_last(sz: Seq<nat>)
    ensures
        first_spec(sz) is Some <==> exists|p: (int, int)| valid_pos(sz, p),
        last_spec(sz) is Some <==> exists|p: (int, int)| valid_pos(sz, p),
        first_spec(sz) matches Some(f) ==> valid_pos(sz, f) && f.1 == 0 && forall|p: (int, int)|
            valid_pos(sz, p) ==> f.0 <= p.0,
        last_spec(sz) matches Some(l) ==> valid_pos(sz, l) && forall|p: (int, int)|
            valid_pos(sz, p) ==> (p.0 < l.0 || (p.0 == l.0 && p.1 <= l.1)),
{
    if exists|p: (int, int)| valid_pos(sz, p) {
        let p = choose|p: (int, int)| valid_pos(sz, p);
        lemma_first_exists(sz, 0, p.0);
        lemma_last_exists(sz, p.0);
    }
    match first_nonempty_from(sz, 0) {
        Some(f) => {
            let k = choose|k: int| is_first_nonempty_from(sz, 0, k);
            assert(is_first_nonempty_from(sz, 0, k));
            assert(valid_pos(sz, (f, 0)));
        },
        None => {},
    }
    match last_nonempty(sz) {
        Some(f) => {
            let k = choose|k: int| is_last_nonempty(sz, k);
            assert(is_last_nonempty(sz, k));
            assert(valid_pos(sz, (f, sz[f] - 1)));
        },
        None => {},
    }
}

proof fn lemma_first_exists(sz: Seq<nat>, from: int, f: int)
    requires
        0 <= from <= f < sz.len(),
        sz[f] > 0,
    ensures
        first_nonempty_from(sz, from) matches Some(k) && is_first_nonempty_from(sz, from, k),
    decreases f - from,
{
    if exists|g: int| from <= g < f && sz[g] > 0 {
        let g = choose|g: int| from <= g < f && sz[g] > 0;
        lemma_first_exists(sz, from, g);
    } else {
        lemma_first_nonempty_unique(sz, from, f);
    }
}

proof fn lemma_last_exists(sz: Seq<nat>, f: int)
    requires
        0 <= f < sz.len(),
        sz[f] > 0,
    ensures
        last_nonempty(sz) matches Some(k) && is_last_nonempty(sz, k),
    decreases sz.len() - f,
{
    if exists|g: int| f < g < sz.len() && sz[g] > 0 {
        let g = choose|g: int| f < g < sz.len() && sz[g] > 0;
        lemma_last_exists(sz, g);
    } else {
        lemma_last_nonempty_unique(sz, f);
    }
}


// ---------------------------------------------------------------------------
// All tracks, shuffle, next/previous with repeat
// ---------------------------------------------------------------------------

/// Every track position in library order: folder by folder, track by track.
pub open spec fn flat_positions(sz: Seq<nat>) -> Seq<(int, int)>
    decreases sz.len(),
{
    if sz.len() == 0 {
        seq![]
    } else {
        flat_positions(sz.drop_last()) + Seq::new(sz.last(), |t: int| ((sz.len() - 1) as int, t))
    }
}

pub proof fn lemma_flat_positions_valid(sz: Seq<nat>)
    ensures
        forall|k: int|
            0 <= k < flat_positions(sz).len() ==> valid_pos(sz, #[trigger] flat_positions(sz)[k]),
        forall|k: int, m: int|
            0 <= k < m < flat_positions(sz).len() ==> (#[trigger] flat_positions(sz)[k])
                != #[trigger] flat_positions(sz)[m],
    decreases sz.len(),
{
    if sz.len() > 0 {
        let init = sz.drop_last();
        lemma_flat_positions_valid(init);
        let a = flat_positions(init);
        let b = Seq::new(sz.last(), |t: int| ((sz.len() - 1) as int, t));
        let fp = flat_positions(sz);
        assert(fp == a + b);
        assert forall|k: int| 0 <= k < fp.len() implies valid_pos(sz, #[trigger] fp[k]) by {
            if k < a.len() {
                assert(valid_pos(init, a[k]));
            }
        }
        assert forall|k: int, m: int| 0 <= k < m < fp.len() implies (#[trigger] fp[k]) != #[trigger] fp[m] by {
            if m < a.len() {
            } else if k < a.len() {
                assert(valid_pos(init, a[k]));
            }
        }
    }
}

/// Every track of the library appears among `flat_positions`.
pub proof fn lemma_flat_positions_complete(sz: Seq<nat>, p: (int, int))
    requires
        valid_pos(sz, p),
    ensures
        flat_positions(sz).contains(p),
    decreases sz.len(),
{
    let init = sz.drop_last();
    let a = flat_positions(init);
    let b = Seq::new(sz.last(), |t: int| ((sz.len() - 1) as int, t));
    assert(flat_positions(sz) == a + b);
    if p.0 == sz.len() - 1 {
        assert((a + b)[a.len() + p.1] == p);
    } else {
        lemma_flat_positions_complete(init, p);
        let k = choose|k: int| 0 <= k < a.len() && a[k] == p;
        assert((a + b)[k] == p);
    }
}

/// Every track position of the library, in library order.
pub fn all_indices(folders: &Vec<Folder>) -> (r: Vec<(usize, usize)>)
    ensures
        r@.len() == flat_positions(sizes(folders@)).len(),
        forall|k: int|
            0 <= k < r@.len() ==> (r@[k].0 as int, r@[k].1 as int) == flat_positions(
                sizes(folders@),
            )[k],
{
    let ghost sz = sizes(folders@);
    let n = folders.len();
    let mut v: Vec<(usize, usize)> = Vec::new();
    let mut fi: usize = 0;
    while fi < n
        invariant
            fi <= n == folders@.len() == sz.len(),
            sz == sizes(folders@),
            v@.len() == flat_positions(sz.take(fi as int)).len(),
            forall|k: int|
                0 <= k < v@.len() ==> (v@[k].0 as int, v@[k].1 as int) == flat_positions(
                    sz.take(fi as int),
                )[k],
        decreases n - fi,
    {
        let m = folders[fi].tracks.len();
        let ghost base = v@;
        let ghost prev = flat_positions(sz.take(fi as int));
        let mut ti: usize = 0;
        while ti < m
            invariant
                ti <= m == sz[fi as int],
                fi < n == sz.len(),
                v@.len() == base.len() + ti,
                base.len() == prev.len(),
                forall|k: int| 0 <= k < base.len() ==> v@[k] == base[k],
                forall|k: int|
                    0 <= k < base.len() ==> (base[k].0 as int, base[k].1 as int) == prev[k],
                forall|k: int| base.len() <= k < v@.len() ==> #[trigger] v@[k] == (fi, (k - base.len()) as usize),
            decreases m - ti,
        {
            v.push((fi, ti));
            ti = ti + 1;
        }
        proof {
            let next = sz.take(fi + 1);
            assert(next.drop_last() =~= sz.take(fi as int));
            assert(next.last() == m);
            let fp = flat_positions(next);
            assert(fp == prev + Seq::new(m as nat, |t: int| (fi as int, t)));
            assert forall|k: int| 0 <= k < v@.len() implies (v@[k].0 as int, v@[k].1 as int) == fp[k] by {
                if k >= base.len() {
                    assert(v@[k] == (fi, (k - base.len()) as usize));
                }
            }
        }
        fi = fi + 1;
    }
    assert(sz.take(n as int) =~= sz);
    v
}

/// A shuffled pick: the track at `seed % count` in library order, moved one
/// place on (cyclically) when that is the current track; the only track when
/// there is one.
pub open spec fn random_idx_spec(sz: Seq<nat>, cur: Option<(int, int)>, seed: int) -> Option<
    (int, int),
> {
    let all = flat_positions(sz);
    if all.len() == 0 {
        None
    } else if all.len() == 1 {
        Some(all[0])
    } else {
        let i = seed % (all.len() as int);
        let j = if Some(all[i]) == cur {
            (i + 1) % (all.len() as int)
        } else {
            i
        };
        Some(all[j])
    }
}

pub open spec fn pos_opt(p: Option<(usize, usize)>) -> Option<(int, int)> {
    match p {
        Some(q) => Some((q.0 as int, q.1 as int)),
        None => None,
    }
}

/// Picks a track for shuffle play from `seed` (see `random_idx_spec`).
pub fn random_idx(folders: &Vec<Folder>, cur: Option<(usize, usize)>, seed: usize) -> (r: Option<
    (usize, usize),
>)
    ensures
        pos_opt(r) == random_idx_spec(sizes(folders@), pos_opt(cur), seed as int),
{
    let all = all_indices(folders);
    let ghost fp = flat_positions(sizes(folders@));
    let n = all.len();
    if n == 0 {
        return None;
    }
    if n == 1 {
        return Some(all[0]);
    }
    let mut idx = seed % n;
    let hit = match cur {
        Some(c) => all[idx].0 == c.0 && all[idx].1 == c.1,
        None => false,
    };
    assert(hit == (Some(fp[idx as int]) == pos_opt(cur)));
    if hit {
        idx = (idx + 1) % n;
    }
    Some(all[idx])
}

/// With two or more tracks, a shuffled pick is never the current track.
pub proof fn law_shuffle_changes_track(sz: Seq<nat>, cur: (int, int), seed: int)
    requires
        flat_positions(sz).len() >= 2,
        seed >= 0,
    ensures
        random_idx_spec(sz, Some(cur), seed) matches Some(p) && p != cur && valid_pos(sz, p),
{
    lemma_flat_positions_valid(sz);
    let all = flat_positions(sz);
    let n = all.len() as int;
    let i = seed % n;
    if all[i] == cur {
        let j = (i + 1) % n;
        assert(0 <= i < n) by (nonlinear_arith)
            requires
                i == seed % n,
                seed >= 0,
                n >= 2,
        ;
        if i + 1 < n {
            assert(j == i + 1) by (nonlinear_arith)
                requires
                    j == (i + 1) % n,
                    0 <= i + 1 < n,
            ;
        } else {
            assert(j == 0) by (nonlinear_arith)
                requires
                    j == (i + 1) % n,
                    i + 1 == n,
                    n >= 2,
            ;
        }
        assert(j != i);
        assert(all[j] != all[i]);
    }
}

/// The next track: a shuffled pick when shuffle is on; else the next one in
/// order, wrapping to the first track only under `RepeatMode::All`.
pub open spec fn next_idx_spec(
    sz: Seq<nat>,
    shuffle: bool,
    repeat: RepeatMode,
    fi: int,
    ti: int,
    seed: int,
) -> Option<(int, int)> {
    if shuffle {
        random_idx_spec(sz, Some((fi, ti)), seed)
    } else {
        match next_sequential_spec(sz, fi, ti) {
            Some(q) => Some(q),
            None => if repeat == RepeatMode::All {
                first_spec(sz)
            } else {
                None
            },
        }
    }
}

/// The previous track: a shuffled pick when shuffle is on; else the previous
/// one in order, wrapping to the last track only under `RepeatMode::All`.
pub open spec fn prev_idx_spec(
    sz: Seq<nat>,
    shuffle: bool,
    repeat: RepeatMode,
    fi: int,
    ti: int,
    seed: int,
) -> Option<(int, int)> {
    if shuffle {
        random_idx_spec(sz, Some((fi, ti)), seed)
    } else {
        match prev_sequential_spec(sz, fi, ti) {
            Some(q) => Some(q),
            None => if repeat == RepeatMode::All {
                last_spec(sz)
            } else {
                None
            },
        }
    }
}

/// The track that "next" plays (see `next_idx_spec`); `seed` feeds shuffle.
pub fn next_idx(
    folders: &Vec<Folder>,
    shuffle: bool,
    repeat: RepeatMode,
    fi: usize,
    ti: usize,
    seed: usize,
) -> (r: Option<(usize, usize)>)
    requires
        shuffle || ti < usize::MAX,
    ensures
        pos_opt(r) == next_idx_spec(sizes(folders@), shuffle, repeat, fi as int, ti as int, seed as int),
{
    if shuffle {
        return random_idx(folders, Some((fi, ti)), seed);
    }
    if let Some(next) = next_sequential(folders, fi, ti) {
        return Some(next);
    }
    if repeat == RepeatMode::All {
        return first(folders);
    }
    None
}

/// The track that "previous" plays (see `prev_idx_spec`); `seed` feeds shuffle.
pub fn prev_idx(
    folders: &Vec<Folder>,
    shuffle: bool,
    repeat: RepeatMode,
    fi: usize,
    ti: usize,
    seed: usize,
) -> (r: Option<(usize, usize)>)
    ensures
        pos_opt(r) == prev_idx_spec(sizes(folders@), shuffle, repeat, fi as int, ti as int, seed as int),
{
    if shuffle {
        return random_idx(folders, Some((fi, ti)), seed);
    }
    if let Some(prev) = prev_sequential(folders, fi, ti) {
        return Some(prev);
    }
    if repeat == RepeatMode::All {
        return last(folders);
    }
    None
}


// ---------------------------------------------------------------------------
// Repeat mode
// ---------------------------------------------------------------------------

/// The name a repeat mode is saved under.
pub open spec fn repeat_name(m: RepeatMode) -> Seq<char> {
    match m {
        RepeatMode::Off => seq!['o', 'f', 'f'],
        RepeatMode::All => seq!['a', 'l', 'l'],
        RepeatMode::One => seq!['o', 'n', 'e'],
    }
}

/// The mode a saved name stands for; anything unknown means `Off`.
pub open spec fn repeat_from_name(s: Seq<char>) -> RepeatMode {
    if s == seq!['a', 'l', 'l'] {
        RepeatMode::All
    } else if s == seq!['o', 'n', 'e'] {
        RepeatMode::One
    } else {
        RepeatMode::Off
    }
}

/// The caption shown in the settings panel.
pub open spec fn repeat_label(m: RepeatMode) -> Seq<char> {
    match m {
        RepeatMode::Off => seq!['顺', '序', '播', '放'],
        RepeatMode::All => seq!['列', '表', '循', '环'],
        RepeatMode::One => seq!['单', '曲', '循', '环'],
    }
}

/// Off, then All, then One, then Off again.
pub open spec fn repeat_cycled(m: RepeatMode) -> RepeatMode {
    match m {
        RepeatMode::Off => RepeatMode::All,
        RepeatMode::All => RepeatMode::One,
        RepeatMode::One => RepeatMode::Off,
    }
}


impl RepeatMode {
    /// The name the mode is saved under.
    pub fn as_str(self) -> (r: &'static str)
        ensures
            r@ == repeat_name(self),
    {
        match self {
            RepeatMode::Off => {
                proof {
                    reveal_strlit("off");
                }
                "off"
            },
            RepeatMode::All => {
                proof {
                    reveal_strlit("all");
                }
                "all"
            },
            RepeatMode::One => {
                proof {
                    reveal_strlit("one");
                }
                "one"
            },
        }
    }

    /// The mode saved under `s`; an unknown name gives `Off`.
    pub fn from_str(s: &str) -> (r: RepeatMode)
        ensures
            r == repeat_from_name(s@),
    {
        let cs = chars_of(s);
        let all: [char; 3] = ['a', 'l', 'l'];
        let one: [char; 3] = ['o', 'n', 'e'];
        assert(all@ =~= seq!['a', 'l', 'l']);
        assert(one@ =~= seq!['o', 'n', 'e']);
        if chars_eq(cs.as_slice(), all.as_slice()) {
            RepeatMode::All
        } else if chars_eq(cs.as_slice(), one.as_slice()) {
            RepeatMode::One
        } else {
            RepeatMode::Off
        }
    }

    /// The caption shown in the settings panel.
    pub fn label(self) -> (r: &'static str)
        ensures
            r@ == repeat_label(self),
    {
        match self {
            RepeatMode::Off => {
                proof {
                    reveal_strlit("顺序播放");
                }
                "顺序播放"
            },
            RepeatMode::All => {
                proof {
                    reveal_strlit("列表循环");
                }
                "列表循环"
            },
            RepeatMode::One => {
                proof {
                    reveal_strlit("单曲循环");
                }
                "单曲循环"
            },
        }
    }

    /// The mode the repeat button switches to.
    pub fn cycled(self) -> (r: RepeatMode)
        ensures
            r == repeat_cycled(self),
    {
        match self {
            RepeatMode::Off => RepeatMode::All,
            RepeatMode::All => RepeatMode::One,
            RepeatMode::One => RepeatMode::Off,
        }
    }
}

/// A saved mode reads back as itself, and three presses of the repeat button
/// come back to the starting mode through the two others.
pub proof fn law_repeat_mode_round_trip(m: RepeatMode)
    ensures
        repeat_from_name(repeat_name(m)) == m,
        repeat_cycled(repeat_cycled(repeat_cycled(m))) == m,
        repeat_cycled(m) != m,
        repeat_cycled(repeat_cycled(m)) != m,
{
    assert(seq!['o', 'f', 'f'] != seq!['a', 'l', 'l']) by {
        assert(seq!['o', 'f', 'f'][0] != seq!['a', 'l', 'l'][0]);
    }
    assert(seq!['o', 'f', 'f'] != seq!['o', 'n', 'e']) by {
        assert(seq!['o', 'f', 'f'][1] != seq!['o', 'n', 'e'][1]);
    }
    assert(seq!['o', 'n', 'e'] != seq!['a', 'l', 'l']) by {
        assert(seq!['o', 'n', 'e'][0] != seq!['a', 'l', 'l'][0]);
    }
}

// ---------------------------------------------------------------------------
// Recently played
// ---------------------------------------------------------------------------

/// The most recently played tracks are kept, newest first, up to this many.
pub const RECENT_LIMIT: usize = 50;

/// `r` without any occurrence of `p`, order kept.
pub open spec fn without(r: Seq<(usize, usize)>, p: (usize, usize)) -> Seq<(usize, usize)>
    decreases r.len(),
{
    if r.len() == 0 {
        seq![]
    } else if r.last() == p {
        without(r.drop_last(), p)
    } else {
        without(r.drop_last(), p).push(r.last())
    }
}

/// The list after playing `p`: `p` first, the earlier entries after it
/// without `p`, cut to `RECENT_LIMIT` entries.
pub open spec fn push_recent_spec(r: Seq<(usize, usize)>, p: (usize, usize)) -> Seq<(usize, usize)> {
    let full = seq![p] + without(r, p);
    if full.len() > RECENT_LIMIT {
        full.take(RECENT_LIMIT as int)
    } else {
        full
    }
}

pub open spec fn no_duplicates(r: Seq<(usize, usize)>) -> bool {
    forall|i: int, j: int| 0 <= i < j < r.len() ==> r[i] != r[j]
}

proof fn lemma_without_props(r: Seq<(usize, usize)>, p: (usize, usize))
    ensures
        !without(r, p).contains(p),
        forall|q: (usize, usize)| without(r, p).contains(q) <==> (r.contains(q) && q != p),
        no_duplicates(r) ==> no_duplicates(without(r, p)),
    decreases r.len(),
{
    if r.len() > 0 {
        let init = r.drop_last();
        lemma_without_props(init, p);
        let w = without(init, p);
        assert forall|q: (usize, usize)| r.contains(q) <==> (init.contains(q) || q == r.last()) by {
            if r.contains(q) {
                let k = choose|k: int| 0 <= k < r.len() && r[k] == q;
                if k < r.len() - 1 {
                    assert(init[k] == q);
                }
            }
            if init.contains(q) {
                let k = choose|k: int| 0 <= k < init.len() && init[k] == q;
                assert(r[k] == q);
            }
            if q == r.last() {
                assert(r[r.len() - 1] == q);
            }
        }
        if r.last() != p {
            let w2 = w.push(r.last());
            assert forall|q: (usize, usize)| w2.contains(q) <==> (w.contains(q) || q == r.last()) by {
                if w2.contains(q) {
                    let k = choose|k: int| 0 <= k < w2.len() && w2[k] == q;
                    if k < w.len() {
                        assert(w[k] == q);
                    }
                }
                if w.contains(q) {
                    let k = choose|k: int| 0 <= k < w.len() && w[k] == q;
                    assert(w2[k] == q);
                }
                if q == r.last() {
                    assert(w2[w.len() as int] == q);
                }
            }
            if no_duplicates(r) {
                assert(no_duplicates(init)) by {
                    assert forall|i: int, j: int| 0 <= i < j < init.len() implies init[i] != init[j] by {
                        assert(init[i] == r[i] && init[j] == r[j]);
                    }
                }
                assert(!init.contains(r.last())) by {
                    if init.contains(r.last()) {
                        let k = choose|k: int| 0 <= k < init.len() && init[k] == r.last();
                        assert(r[k] == r[r.len() - 1]);
                    }
                }
                assert(!w.contains(r.last()));
                assert forall|i: int, j: int| 0 <= i < j < w2.len() implies w2[i] != w2[j] by {
                    if j == w.len() {
                        assert(w.contains(w2[i]));
                    }
                }
            }
        } else {
            if no_duplicates(r) {
                assert(no_duplicates(init)) by {
                    assert forall|i: int, j: int| 0 <= i < j < init.len() implies init[i] != init[j] by {
                        assert(init[i] == r[i] && init[j] == r[j]);
                    }
                }
            }
        }
    }
}

/// After playing a track, the recent list starts with it, holds it once, has
/// no duplicates when it had none, and never exceeds `RECENT_LIMIT` entries.
pub proof fn law_recent_list(r: Seq<(usize, usize)>, p: (usize, usize))
    ensures
        push_recent_spec(r, p).len() >= 1,
        push_recent_spec(r, p)[0] == p,
        push_recent_spec(r, p).len() <= RECENT_LIMIT,
        no_duplicates(r) ==> no_duplicates(push_recent_spec(r, p)),
        forall|i: int| 1 <= i < push_recent_spec(r, p).len() ==> #[trigger] push_recent_spec(r, p)[i] != p,
{
    lemma_without_props(r, p);
    let w = without(r, p);
    let full = seq![p] + w;
    let res = push_recent_spec(r, p);
    assert(full[0] == p);
    assert forall|i: int| 1 <= i < full.len() implies #[trigger] full[i] != p by {
        assert(full[i] == w[i - 1]);
        assert(w.contains(w[i - 1]));
    }
    if no_duplicates(r) {
        assert forall|i: int, j: int| 0 <= i < j < full.len() implies full[i] != full[j] by {
            if i > 0 {
                assert(full[i] == w[i - 1] && full[j] == w[j - 1]);
            }
        }
    }
    assert forall|i: int| 1 <= i < res.len() implies #[trigger] res[i] != p by {
        assert(res[i] == full[i]);
    }
    if no_duplicates(r) {
        assert forall|i: int, j: int| 0 <= i < j < res.len() implies res[i] != res[j] by {
            assert(res[i] == full[i] && res[j] == full[j]);
        }
    }
}

/// Records that track `(fi, ti)` was played (see `push_recent_spec`).
pub fn push_recent(recent: &mut Vec<(usize, usize)>, fi: usize, ti: usize)
    ensures
        final(recent)@ == push_recent_spec(old(recent)@, (fi, ti)),
{
    let ghost orig = recent@;
    let p = (fi, ti);
    let mut kept: Vec<(usize, usize)> = Vec::new();
    kept.push(p);
    let n = recent.len();
    let mut i: usize = 0;
    while i < n
        invariant
            i <= n == recent@.len() == orig.len(),
            recent@ == orig,
            p == (fi, ti),
            kept@ == seq![p] + without(orig.take(i as int), p),
        decreases n - i,
    {
        let q = recent[i];
        assert(orig.take(i + 1).drop_last() =~= orig.take(i as int));
        assert(orig.take(i + 1).last() == q);
        let ghost w = without(orig.take(i as int), p);
        if !(q.0 == fi && q.1 == ti) {
            kept.push(q);
            assert(kept@ =~= seq![p] + w.push(q));
        } else {
            assert(q.0 == p.0 && q.1 == p.1);
            assert(q == p);
            assert(without(orig.take(i + 1), p) == w);
        }
        i = i + 1;
    }
    assert(orig.take(n as int) =~= orig);
    if kept.len() > RECENT_LIMIT {
        kept.truncate(RECENT_LIMIT);
    }
    *recent = kept;
}

} // verus!
