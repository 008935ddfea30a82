//! What a library scan decides about the files it meets: which extensions are
//! played, how a track's fields are filled from its tags, and the order of the
//! tracks found (by title, ties kept in the order they were found).

use vstd::prelude::*;
use crate::library::Track;
use crate::order::{
    find_insert_pos, insert_pos, keys_sorted, lemma_insert_keeps_sorted, text_lt,
};
use crate::text::{chars_eq, chars_of, to_lowercase, unicode_lowercase};

verus! {

broadcast use vstd::seq_lib::to_multiset_insert;

/// The extensions (lower case) of the files that are played.
pub open spec fn audio_extensions() -> Seq<Seq<char>> {
    seq![
        seq!['m', 'p', '3'],
        seq!['f', 'l', 'a', 'c'],
        seq!['w', 'a', 'v'],
        seq!['o', 'g', 'g'],
        seq!['a', 'a', 'c'],
        seq!['m', '4', 'a'],
    ]
}

/// The extensions (lower case) of audio formats that are not played; a scan
/// reports such files, and passes over all others in silence.
pub open spec fn audio_like_extensions() -> Seq<Seq<char>> {
    seq![
        seq!['o', 'p', 'u', 's'],
        seq!['w', 'm', 'a'],
        seq!['a', 'p', 'e'],
        seq!['m', '4', 'b'],
        seq!['m', 'i', 'd'],
        seq!['m', 'i', 'd', 'i'],
        seq!['a', 'i', 'f', 'f'],
        seq!['a', 'i', 'f'],
        seq!['d', 's', 'f'],
        seq!['t', 't', 'a'],
        seq!['t', 'a', 'k'],
        seq!['w', 'v'],
        seq!['a', 'l', 'a', 'c'],
        seq!['c', 'a', 'f'],
        seq!['a', 'm', 'r'],
    ]
}

/// What a scan does with a file, by its extension.
#[derive(Debug, Clone, Copy, PartialEq, Eq, Structural)]
pub enum ExtensionKind {
    /// A played format: the file becomes a track.
    Audio,
    /// An audio format that is not played: the file is reported and skipped.
    AudioLike,
    /// Anything else: skipped without a word.
    Other,
}

/// The kind of an extension, compared in lower case.
pub open spec fn extension_kind_spec(ext: Seq<char>) -> ExtensionKind {
    let l = unicode_lowercase(ext);
    if audio_extensions().contains(l) {
        ExtensionKind::Audio
    } else if audio_like_extensions().contains(l) {
        ExtensionKind::AudioLike
    } else {
        ExtensionKind::Other
    }
}

/// Whether `w` is one of `list`.
fn contains_word(list: &Vec<Vec<char>>, w: &[char]) -> (b: bool)
    ensures
        b == list@.map_values(|v: Vec<char>| v@).contains(w@),
{
    let ghost lv = list@.map_values(|v: Vec<char>| v@);
    let n = list.len();
    let mut i: usize = 0;
    while i < n
        invariant
            i <= n == list@.len() == lv.len(),
            lv == list@.map_values(|v: Vec<char>| v@),
            forall|j: int| 0 <= j < i ==> lv[j] != w@,
        decreases n - i,
    {
        assert(lv[i as int] == list@[i as int]@);
        if chars_eq(list[i].as_slice(), w) {
            assert(lv[i as int] == w@);
            return true;
        }
        i = i + 1;
    }
    false
}

/// Classifies a file by its extension (as found, in any letter case).
pub fn classify_extension(ext: &str) -> (r: ExtensionKind)
    ensures
        r == extension_kind_spec(ext@),
{
    let l = to_lowercase(ext);
    let audio: Vec<Vec<char>> = vec![
        vec!['m', 'p', '3'],
        vec!['f', 'l', 'a', 'c'],
        vec!['w', 'a', 'v'],
        vec!['o', 'g', 'g'],
        vec!['a', 'a', 'c'],
        vec!['m', '4', 'a'],
    ];
    assert(audio@.map_values(|v: Vec<char>| v@) =~= audio_extensions());
    if contains_word(&audio, l.as_slice()) {
        return ExtensionKind::Audio;
    }
    let like: Vec<Vec<char>> = vec![
        vec!['o', 'p', 'u', 's'],
        vec!['w', 'm', 'a'],
        vec!['a', 'p', 'e'],
        vec!['m', '4', 'b'],
        vec!['m', 'i', 'd'],
        vec!['m', 'i', 'd', 'i'],
        vec!['a', 'i', 'f', 'f'],
        vec!['a', 'i', 'f'],
        vec!['d', 's', 'f'],
        vec!['t', 't', 'a'],
        vec!['t', 'a', 'k'],
        vec!['w', 'v'],
        vec!['a', 'l', 'a', 'c'],
        vec!['c', 'a', 'f'],
        vec!['a', 'm', 'r'],
    ];
    assert(like@.map_values(|v: Vec<char>| v@) =~= audio_like_extensions());
    if contains_word(&like, l.as_slice()) {
        ExtensionKind::AudioLike
    } else {
        ExtensionKind::Other
    }
}

/// What the tag reader found in an audio file.
#[derive(Debug, Clone)]
pub struct TagInfo {
    /// The length of the audio, in whole milliseconds.
    pub duration_ms: u64,
    pub title: Option<String>,
    pub artist: Option<String>,
    pub album: Option<String>,
}

/// The text of an optional tag, or the empty text.
pub open spec fn text_or_empty(o: Option<String>) -> Seq<char> {
    match o {
        Some(s) => s@,
        None => Seq::empty(),
    }
}

/// The title a file falls back to: its name without the extension, or
/// "未知" ("unknown") where that name is not available.
pub open spec fn fallback_title(file_stem: Option<String>) -> Seq<char> {
    match file_stem {
        Some(s) => s@,
        None => "未知"@,
    }
}

fn text_or(o: Option<String>, fallback: String) -> (r: String)
    ensures
        r@ == match o {
            Some(s) => s@,
            None => fallback@,
        },
{
    match o {
        Some(s) => s,
        None => fallback,
    }
}

/// The track for a file with a played extension.  Every such file becomes a
/// track: where its tags could not be read, the title is the fallback title,
/// artist and album are empty and the length is zero; where they could, a
/// missing title falls back the same way and a missing artist or album is
/// empty.
pub fn track_from_tags(
    path: String,
    file_stem: Option<String>,
    tags: Option<TagInfo>,
    cover_path: Option<String>,
) -> (t: Track)
    ensures
        t.path == path,
        t.cover_path == cover_path,
        match tags {
            Some(g) => {
                &&& t.title@ == match g.title {
                    Some(s) => s@,
                    None => fallback_title(file_stem),
                }
                &&& t.artist@ == text_or_empty(g.artist)
                &&& t.album@ == text_or_empty(g.album)
                &&& t.duration_ms == g.duration_ms
            },
            None => {
                &&& t.title@ == fallback_title(file_stem)
                &&& t.artist@ == Seq::<char>::empty()
                &&& t.album@ == Seq::<char>::empty()
                &&& t.duration_ms == 0
            },
        },
{
    let fallback = match file_stem {
        Some(s) => s,
        None => String::from_str("未知"),
    };
    match tags {
        Some(g) => Track {
            path,
            title: text_or(g.title, fallback),
            artist: text_or(g.artist, String::new()),
            album: text_or(g.album, String::new()),
            duration_ms: g.duration_ms,
            cover_path,
        },
        None => Track {
            path,
            title: fallback,
            artist: String::new(),
            album: String::new(),
            duration_ms: 0,
            cover_path,
        },
    }
}

/// The titles of a list of tracks.
pub open spec fn titles(s: Seq<Track>) -> Seq<Seq<char>> {
    Seq::new(s.len(), |i: int| s[i].title@)
}

/// The tracks in title order; tracks with equal titles keep their order.
/// Each track goes in before the first track already placed whose title is
/// greater than its own.
pub open spec fn sorted_by_title(s: Seq<Track>) -> Seq<Track>
    decreases s.len(),
{
    if s.len() == 0 {
        s
    } else {
        let r = sorted_by_title(s.drop_last());
        r.insert(insert_pos(titles(r), s.last().title@), s.last())
    }
}

proof fn lemma_titles_insert(r: Seq<Track>, p: int, t: Track)
    requires
        0 <= p <= r.len(),
    ensures
        titles(r.insert(p, t)) == titles(r).insert(p, t.title@),
{
    assert(titles(r.insert(p, t)) =~= titles(r).insert(p, t.title@));
}

proof fn lemma_sorted_by_title_len(s: Seq<Track>)
    ensures
        sorted_by_title(s).len() == s.len(),
    decreases s.len(),
{
    if s.len() > 0 {
        lemma_sorted_by_title_len(s.drop_last());
        let r = sorted_by_title(s.drop_last());
        crate::order::lemma_insert_pos_exists(titles(r), s.last().title@);
    }
}

/// Sorting by title leaves the titles in order.
pub proof fn law_sorted_by_title_is_sorted(s: Seq<Track>)
    ensures
        keys_sorted(titles(sorted_by_title(s))),
    decreases s.len(),
{
    if s.len() > 0 {
        law_sorted_by_title_is_sorted(s.drop_last());
        let r = sorted_by_title(s.drop_last());
        let k = s.last().title@;
        crate::order::lemma_insert_pos_exists(titles(r), k);
        lemma_insert_keeps_sorted(titles(r), k);
        lemma_titles_insert(r, insert_pos(titles(r), k), s.last());
    }
}

/// Sorting by title neither loses nor adds a track.
pub proof fn law_sorted_by_title_is_permutation(s: Seq<Track>)
    ensures
        sorted_by_title(s).to_multiset() == s.to_multiset(),
    decreases s.len(),
{
    if s.len() > 0 {
        law_sorted_by_title_is_permutation(s.drop_last());
        let r = sorted_by_title(s.drop_last());
        crate::order::lemma_insert_pos_exists(titles(r), s.last().title@);
        vstd::seq_lib::to_multiset_build(s.drop_last(), s.last());
        assert(s.drop_last().push(s.last()) =~= s);
    }
}

/// Whether a track has the title `k`.
pub open spec fn has_title(k: Seq<char>) -> spec_fn(Track) -> bool {
    |t: Track| t.title@ == k
}

/// Sorting by title is stable: the tracks of any one title come out in the
/// order in which they went in.
pub proof fn law_sorted_by_title_is_stable(s: Seq<Track>, k: Seq<char>)
    ensures
        sorted_by_title(s).filter(has_title(k)) == s.filter(has_title(k)),
    decreases s.len(),
{
    if s.len() > 0 {
        let s0 = s.drop_last();
        let x = s.last();
        law_sorted_by_title_is_stable(s0, k);
        law_sorted_by_title_is_sorted(s0);
        let r = sorted_by_title(s0);
        let ts = titles(r);
        let p = insert_pos(ts, x.title@);
        crate::order::lemma_insert_pos_exists(ts, x.title@);
        let f = has_title(k);
        let a = r.subrange(0, p);
        let b = r.subrange(p, r.len() as int);
        assert(r =~= a + b);
        assert(r.insert(p, x) =~= a + seq![x] + b);
        Seq::filter_distributes_over_add(a, b, f);
        Seq::filter_distributes_over_add(a + seq![x], b, f);
        Seq::filter_distributes_over_add(a, seq![x], f);
        assert(s0.push(x) =~= s);
        s0.lemma_filter_push(x, f);
        if x.title@ == k {
            assert forall|q: int| 0 <= q < b.len() implies !f(#[trigger] b[q]) by {
                assert(b[q] == r[p + q]);
                assert(ts[p + q] == b[q].title@);
                crate::order::lemma_text_lt_irreflexive(k);
                if q > 0 {
                    assert(!text_lt(ts[p + q], ts[p]));
                    crate::order::lemma_text_lt_total(ts[p], ts[p + q]);
                    if text_lt(ts[p], ts[p + q]) {
                        crate::order::lemma_text_lt_transitive(k, ts[p], ts[p + q]);
                    }
                }
            }
            b.lemma_all_neg_filter_empty(f);
            assert(seq![x].filter(f) =~= seq![x]) by {
                Seq::<Track>::empty().lemma_filter_push(x, f);
                assert(Seq::<Track>::empty().push(x) =~= seq![x]);
                assert(Seq::<Track>::empty().filter(f) =~= Seq::<Track>::empty()) by {
                    Seq::<Track>::empty().lemma_all_neg_filter_empty(f);
                }
            }
            assert(a.filter(f) + seq![x] =~= a.filter(f).push(x));
            assert(a.filter(f) + Seq::<Track>::empty() =~= a.filter(f));
        } else {
            assert(seq![x].filter(f) =~= Seq::<Track>::empty()) by {
                Seq::<Track>::empty().lemma_filter_push(x, f);
                assert(Seq::<Track>::empty().push(x) =~= seq![x]);
                Seq::<Track>::empty().lemma_all_neg_filter_empty(f);
            }
            assert(a.filter(f) + Seq::<Track>::empty() =~= a.filter(f));
        }
    }
}

/// Sorts the tracks by title; tracks with equal titles keep their order.
pub fn sort_by_title(tracks: Vec<Track>) -> (r: Vec<Track>)
    ensures
        r@ == sorted_by_title(tracks@),
{
    let ghost orig = tracks@;
    let mut rest = tracks;
    let mut out: Vec<Track> = Vec::new();
    let mut keys: Vec<Vec<char>> = Vec::new();
    let n = rest.len();
    let mut i: usize = 0;
    assert(orig.subrange(0, 0) =~= Seq::<Track>::empty());
    assert(rest@ =~= orig.subrange(0, n as int));
    while i < n
        invariant
            n == orig.len(),
            i <= n,
            rest@ == orig.subrange(i as int, n as int),
            out@ == sorted_by_title(orig.subrange(0, i as int)),
            keys@.map_values(|v: Vec<char>| v@) == titles(out@),
        decreases n - i,
    {
        let t = rest.remove(0);
        assert(t == orig[i as int]);
        let k = chars_of(t.title.as_str());
        let pos = find_insert_pos(&keys, k.as_slice());
        let ghost kv = keys@.map_values(|v: Vec<char>| v@);
        let ghost out0 = out@;
        proof {
            lemma_sorted_by_title_len(orig.subrange(0, i as int));
        }
        keys.insert(pos, k);
        out.insert(pos, t);
        proof {
            let pre = orig.subrange(0, i as int + 1);
            assert(pre.drop_last() =~= orig.subrange(0, i as int));
            assert(pre.last() == t);
            lemma_titles_insert(out0, pos as int, t);
            assert(keys@.map_values(|v: Vec<char>| v@) =~= kv.insert(pos as int, t.title@));
            assert(rest@ =~= orig.subrange(i as int + 1, n as int));
        }
        i = i + 1;
    }
    assert(orig.subrange(0, n as int) =~= orig);
    out
}

} // verus!
