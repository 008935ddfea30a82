//! Where a track's lyrics are: a `Lyric`/`Lyrics` directory beside the
//! track, and in it a `.krc`/`.lrc`/`.qrc` file named after the track.  The
//! directory listing is read elsewhere; these functions choose from it.

use vstd::prelude::*;
use crate::lyrics::LyricFormat;
use crate::text::{
    chars_eq, contains_chars, contains_seq, ends_with, ends_with_chars, starts_with, starts_with_chars,
    to_lowercase, unicode_lowercase,
};

verus! {

/// `i` is where a scan over `names` stops: a name that is not UTF-8, or one
/// whose lowercase form satisfies `pred`; every earlier name is UTF-8 and
/// does not.
pub open spec fn is_stop(names: Seq<Option<String>>, pred: spec_fn(Seq<char>) -> bool, i: int) -> bool {
    &&& 0 <= i < names.len()
    &&& (names[i] is None || pred(unicode_lowercase(names[i]->0@)))
    &&& forall|j: int|
        0 <= j < i ==> (#[trigger] names[j]) is Some && !pred(unicode_lowercase(names[j]->0@))
}

/// Where the scan stops, if it does.
pub open spec fn stop_index(names: Seq<Option<String>>, pred: spec_fn(Seq<char>) -> bool) -> Option<
    int,
> {
    if exists|i: int| is_stop(names, pred, i) {
        Some(choose|i: int| is_stop(names, pred, i))
    } else {
        None
    }
}

/// The outcome of one scan: the index of the chosen name, `None` when it
/// stopped at a name that is not UTF-8 or found nothing.
pub open spec fn scan_pick(names: Seq<Option<String>>, pred: spec_fn(Seq<char>) -> bool) -> Option<
    int,
> {
    match stop_index(names, pred) {
        Some(i) => if names[i] is Some {
            Some(i)
        } else {
            None
        },
        None => None,
    }
}

proof fn lemma_stop_unique(names: Seq<Option<String>>, pred: spec_fn(Seq<char>) -> bool, i: int)
    requires
        is_stop(names, pred, i),
    ensures
        stop_index(names, pred) == Some(i),
{
    let k = choose|k: int| is_stop(names, pred, k);
    assert(is_stop(names, pred, k));
    if k < i {
        assert(names[k] is Some);
    } else if k > i {
        assert(names[i] is Some);
    }
}

pub open spec fn lyric_dir_pred() -> spec_fn(Seq<char>) -> bool {
    |l: Seq<char>| l == seq!['l', 'y', 'r', 'i', 'c'] || l == seq!['l', 'y', 'r', 'i', 'c', 's']
}

pub open spec fn has_lyric_ext(l: Seq<char>) -> bool {
    ||| ends_with(l, seq!['.', 'k', 'r', 'c'])
    ||| ends_with(l, seq!['.', 'l', 'r', 'c'])
    ||| ends_with(l, seq!['.', 'q', 'r', 'c'])
}

pub open spec fn stem_pred(stem_lower: Seq<char>) -> spec_fn(Seq<char>) -> bool {
    |l: Seq<char>| has_lyric_ext(l) && starts_with(l, stem_lower)
}

pub open spec fn title_pred(title_lower: Seq<char>) -> spec_fn(Seq<char>) -> bool {
    |l: Seq<char>| has_lyric_ext(l) && contains_seq(l, title_lower)
}

/// The lyric file chosen from a directory listing: first a lyric file whose
/// lowercase name starts with the lowercase track file stem; failing that, one
/// whose name contains the lowercase title.  A name that is not UTF-8 met
/// before a match ends the search with nothing.
pub open spec fn pick_lyric_file_spec(names: Seq<Option<String>>, stem: Seq<char>, title: Seq<char>) -> Option<int> {
    match stop_index(names, stem_pred(unicode_lowercase(stem))) {
        Some(i) => if names[i] is Some {
            Some(i)
        } else {
            None
        },
        None => scan_pick(names, title_pred(unicode_lowercase(title))),
    }
}


/// Among the subdirectories of a track's folder (their names, in listing
/// order), the lyric directory: the first named `lyric` or `lyrics` in any
/// letter case.
pub fn pick_lyric_dir(names: &Vec<Option<String>>) -> (r: Option<usize>)
    ensures
        match r {
            Some(i) => scan_pick(names@, lyric_dir_pred()) == Some(i as int),
            None => scan_pick(names@, lyric_dir_pred()) == None::<int>,
        },
{
    let w1: [char; 5] = ['l', 'y', 'r', 'i', 'c'];
    let w2: [char; 6] = ['l', 'y', 'r', 'i', 'c', 's'];
    assert(w1@ =~= seq!['l', 'y', 'r', 'i', 'c']);
    assert(w2@ =~= seq!['l', 'y', 'r', 'i', 'c', 's']);
    let n = names.len();
    let mut i: usize = 0;
    while i < n
        invariant
            i <= n == names@.len(),
            w1@ == seq!['l', 'y', 'r', 'i', 'c'],
            w2@ == seq!['l', 'y', 'r', 'i', 'c', 's'],
            forall|j: int|
                0 <= j < i ==> (#[trigger] names@[j]) is Some && !(lyric_dir_pred())(
                    unicode_lowercase(names@[j]->0@),
                ),
        decreases n - i,
    {
        match &names[i] {
            None => {
                proof {
                    assert(is_stop(names@, lyric_dir_pred(), i as int));
                    lemma_stop_unique(names@, lyric_dir_pred(), i as int);
                }
                return None;
            },
            Some(name) => {
                let l = to_lowercase(name.as_str());
                if chars_eq(l.as_slice(), w1.as_slice()) || chars_eq(l.as_slice(), w2.as_slice()) {
                    proof {
                        assert(is_stop(names@, lyric_dir_pred(), i as int));
                        lemma_stop_unique(names@, lyric_dir_pred(), i as int);
                    }
                    return Some(i);
                }
            },
        }
        i = i + 1;
    }
    None
}

fn lyric_ext_chars(l: &[char]) -> (b: bool)
    ensures
        b == has_lyric_ext(l@),
{
    let k: [char; 4] = ['.', 'k', 'r', 'c'];
    let r: [char; 4] = ['.', 'l', 'r', 'c'];
    let q: [char; 4] = ['.', 'q', 'r', 'c'];
    assert(k@ =~= seq!['.', 'k', 'r', 'c']);
    assert(r@ =~= seq!['.', 'l', 'r', 'c']);
    assert(q@ =~= seq!['.', 'q', 'r', 'c']);
    ends_with_chars(l, k.as_slice()) || ends_with_chars(l, r.as_slice()) || ends_with_chars(
        l,
        q.as_slice(),
    )
}

/// `p` is a prefix of `l`, from its first character on.
pub open spec fn has_prefix(l: Seq<char>, p: Seq<char>) -> bool {
    p.len() <= l.len() && l.subrange(0, p.len() as int) == p
}

/// The file named after the track wins: when name `j` is the first whose
/// lowercase form has a lyric extension and begins with the lowercase file
/// stem (and every earlier name can be read), `j` is chosen, whatever the
/// title; a name that holds the stem only further in does not count.
pub proof fn law_lyric_file_named_after_track(
    names: Seq<Option<String>>,
    stem: Seq<char>,
    title: Seq<char>,
    j: int,
)
    requires
        0 <= j < names.len(),
        names[j] is Some,
        has_lyric_ext(unicode_lowercase(names[j]->0@)),
        has_prefix(unicode_lowercase(names[j]->0@), unicode_lowercase(stem)),
        forall|k: int|
            0 <= k < j ==> (#[trigger] names[k]) is Some && !(has_lyric_ext(
                unicode_lowercase(names[k]->0@),
            ) && has_prefix(unicode_lowercase(names[k]->0@), unicode_lowercase(stem))),
    ensures
        pick_lyric_file_spec(names, stem, title) == Some(j),
{
    let pred = stem_pred(unicode_lowercase(stem));
    assert(is_stop(names, pred, j));
    lemma_stop_unique(names, pred, j);
}

/// `t` occurs in `l` at some position.
pub open spec fn occurs_in(l: Seq<char>, t: Seq<char>) -> bool {
    exists|i: int| 0 <= i && i + t.len() <= l.len() && #[trigger] l.subrange(i, i + t.len()) == t
}

/// Failing that, the title decides: when every name can be read and none
/// with a lyric extension begins with the file stem, the first name with a
/// lyric extension whose lowercase form holds the lowercase title anywhere
/// is chosen.
pub proof fn law_lyric_file_by_title(
    names: Seq<Option<String>>,
    stem: Seq<char>,
    title: Seq<char>,
    j: int,
)
    requires
        forall|k: int| 0 <= k < names.len() ==> (#[trigger] names[k]) is Some,
        forall|k: int|
            0 <= k < names.len() ==> !(has_lyric_ext(unicode_lowercase((#[trigger] names[k])->0@))
                && has_prefix(unicode_lowercase(names[k]->0@), unicode_lowercase(stem))),
        0 <= j < names.len(),
        has_lyric_ext(unicode_lowercase(names[j]->0@)),
        occurs_in(unicode_lowercase(names[j]->0@), unicode_lowercase(title)),
        forall|k: int|
            0 <= k < j ==> !(has_lyric_ext(unicode_lowercase((#[trigger] names[k])->0@)) && occurs_in(
                unicode_lowercase(names[k]->0@),
                unicode_lowercase(title),
            )),
    ensures
        pick_lyric_file_spec(names, stem, title) == Some(j),
{
    let sp = stem_pred(unicode_lowercase(stem));
    let tp = title_pred(unicode_lowercase(title));
    let tl = unicode_lowercase(title);
    assert forall|l: Seq<char>| #[trigger] contains_seq(l, tl) <==> occurs_in(l, tl) by {
        if contains_seq(l, tl) {
            let i = choose|i: int| crate::text::occurs_at(l, tl, i);
            assert(0 <= i && i + tl.len() <= l.len() && l.subrange(i, i + tl.len()) == tl);
        }
        if occurs_in(l, tl) {
            let i = choose|i: int|
                0 <= i && i + tl.len() <= l.len() && #[trigger] l.subrange(i, i + tl.len()) == tl;
            assert(crate::text::occurs_at(l, tl, i));
        }
    }
    if exists|i: int| is_stop(names, sp, i) {
        let i = choose|i: int| is_stop(names, sp, i);
        assert(names[i] is Some);
    }
    assert(stop_index(names, sp) is None);
    assert(is_stop(names, tp, j));
    lemma_stop_unique(names, tp, j);
}

/// Chooses the lyric file from a lyric directory's file names, in listing
/// order (see `pick_lyric_file_spec`).
pub fn pick_lyric_file(names: &Vec<Option<String>>, music_file_stem: &str, title: &str) -> (r:
    Option<usize>)
    ensures
        match r {
            Some(i) => pick_lyric_file_spec(names@, music_file_stem@, title@) == Some(i as int),
            None => pick_lyric_file_spec(names@, music_file_stem@, title@) == None::<int>,
        },
{
    let stem_lower = to_lowercase(music_file_stem);
    let title_lower = to_lowercase(title);
    let ghost p1 = stem_pred(unicode_lowercase(music_file_stem@));
    let ghost p2 = title_pred(unicode_lowercase(title@));
    let n = names.len();
    let mut i: usize = 0;
    while i < n
        invariant
            i <= n == names@.len(),
            stem_lower@ == unicode_lowercase(music_file_stem@),
            p1 == stem_pred(unicode_lowercase(music_file_stem@)),
            forall|j: int|
                0 <= j < i ==> (#[trigger] names@[j]) is Some && !p1(unicode_lowercase(names@[j]->0@)),
        decreases n - i,
    {
        match &names[i] {
            None => {
                proof {
                    assert(is_stop(names@, p1, i as int));
                    lemma_stop_unique(names@, p1, i as int);
                }
                return None;
            },
            Some(name) => {
                let l = to_lowercase(name.as_str());
                if lyric_ext_chars(l.as_slice()) && starts_with_chars(
                    l.as_slice(),
                    stem_lower.as_slice(),
                ) {
                    proof {
                        assert(is_stop(names@, p1, i as int));
                        lemma_stop_unique(names@, p1, i as int);
                    }
                    return Some(i);
                }
            },
        }
        i = i + 1;
    }
    assert(stop_index(names@, p1) == None::<int>);
    let mut k: usize = 0;
    while k < n
        invariant
            k <= n == names@.len(),
            title_lower@ == unicode_lowercase(title@),
            p2 == title_pred(unicode_lowercase(title@)),
            p1 == stem_pred(unicode_lowercase(music_file_stem@)),
            stop_index(names@, p1) == None::<int>,
            forall|j: int| 0 <= j < n ==> (#[trigger] names@[j]) is Some,
            forall|j: int| 0 <= j < k ==> !p2(unicode_lowercase((#[trigger] names@[j])->0@)),
        decreases n - k,
    {
        match &names[k] {
            None => {
                assert(names@[k as int] is Some);
            },
            Some(name) => {
                let l = to_lowercase(name.as_str());
                if lyric_ext_chars(l.as_slice()) && contains_chars(
                    l.as_slice(),
                    title_lower.as_slice(),
                ) {
                    proof {
                        assert(is_stop(names@, p2, k as int));
                        lemma_stop_unique(names@, p2, k as int);
                    }
                    return Some(k);
                }
            },
        }
        k = k + 1;
    }
    None
}

/// `lrc`, `krc` or `qrc`, in any letter case.
pub open spec fn lyric_format_spec(ext: Seq<char>) -> Option<LyricFormat> {
    let l = unicode_lowercase(ext);
    if l == seq!['l', 'r', 'c'] {
        Some(LyricFormat::Lrc)
    } else if l == seq!['k', 'r', 'c'] {
        Some(LyricFormat::Krc)
    } else if l == seq!['q', 'r', 'c'] {
        Some(LyricFormat::Qrc)
    } else {
        None
    }
}

/// The lyric format a file extension names, if any.
pub fn lyric_format(ext: &str) -> (r: Option<LyricFormat>)
    ensures
        r == lyric_format_spec(ext@),
{
    let l = to_lowercase(ext);
    let lrc: [char; 3] = ['l', 'r', 'c'];
    let krc: [char; 3] = ['k', 'r', 'c'];
    let qrc: [char; 3] = ['q', 'r', 'c'];
    assert(lrc@ =~= seq!['l', 'r', 'c']);
    assert(krc@ =~= seq!['k', 'r', 'c']);
    assert(qrc@ =~= seq!['q', 'r', 'c']);
    if chars_eq(l.as_slice(), lrc.as_slice()) {
        Some(LyricFormat::Lrc)
    } else if chars_eq(l.as_slice(), krc.as_slice()) {
        Some(LyricFormat::Krc)
    } else if chars_eq(l.as_slice(), qrc.as_slice()) {
        Some(LyricFormat::Qrc)
    } else {
        None
    }
}

} // verus!
