//! Album covers: cache file names, which cached files are stale, which
//! embedded picture to use, and the `file://` URL handed to the system's
//! media controls.

use vstd::prelude::*;
use crate::format::{hex_chars, hex_fixed};
use crate::text::{
    chars_of, contains_chars, contains_seq, ends_with, ends_with_chars, starts_with,
    starts_with_chars, string_of,
};

verus! {

/// `v2_<16 lower-case hex digits of the path hash>.png`.
pub open spec fn cover_file_name_spec(hash: u64) -> Seq<char> {
    seq!['v', '2', '_'] + hex_fixed(hash as nat, 16) + seq!['.', 'p', 'n', 'g']
}

/// The cache file name of the cover of the track whose path hashes to
/// `hash` (see `cover_file_name_spec`).
pub fn cover_file_name(hash: u64) -> (r: String)
    ensures
        r@ == cover_file_name_spec(hash),
{
    let mut v: Vec<char> = Vec::new();
    v.push('v');
    v.push('2');
    v.push('_');
    let hex = hex_chars(hash, 16);
    let mut i: usize = 0;
    let ghost before = v@;
    while i < hex.len()
        invariant
            i <= hex@.len(),
            v@ == before + hex@.take(i as int),
        decreases hex@.len() - i,
    {
        v.push(hex[i]);
        assert(hex@.take(i + 1) =~= hex@.take(i as int).push(hex@[i as int]));
        i = i + 1;
    }
    assert(hex@.take(hex@.len() as int) =~= hex@);
    v.push('.');
    v.push('p');
    v.push('n');
    v.push('g');
    assert(v@ =~= cover_file_name_spec(hash));
    string_of(v.as_slice())
}

/// A cached cover from before the `v2_` naming: a `.jpg` or `.png` file whose
/// name does not start with `v2_`.
pub open spec fn is_stale_cover_spec(name: Seq<char>) -> bool {
    &&& !starts_with(name, seq!['v', '2', '_'])
    &&& (ends_with(name, seq!['.', 'j', 'p', 'g']) || ends_with(name, seq!['.', 'p', 'n', 'g']))
}

/// Whether a file of the cover cache is a stale one, to delete.
pub fn is_stale_cover(name: &str) -> (r: bool)
    ensures
        r == is_stale_cover_spec(name@),
{
    let cs = chars_of(name);
    let v2: [char; 3] = ['v', '2', '_'];
    let jpg: [char; 4] = ['.', 'j', 'p', 'g'];
    let png: [char; 4] = ['.', 'p', 'n', 'g'];
    assert(v2@ =~= seq!['v', '2', '_']);
    assert(jpg@ =~= seq!['.', 'j', 'p', 'g']);
    assert(png@ =~= seq!['.', 'p', 'n', 'g']);
    !starts_with_chars(cs.as_slice(), v2.as_slice()) && (ends_with_chars(cs.as_slice(), jpg.as_slice())
        || ends_with_chars(cs.as_slice(), png.as_slice()))
}

/// A freshly written cover is never taken for a stale one.
pub proof fn law_fresh_cover_kept(hash: u64)
    ensures
        !is_stale_cover_spec(cover_file_name_spec(hash)),
{
    let n = cover_file_name_spec(hash);
    assert(n.subrange(0, 3) =~= seq!['v', '2', '_']);
}

/// The embedded picture to use as cover, from the pictures' type names in
/// order: the first whose type name mentions `Cover` or `Front`, else the
/// first picture.
pub open spec fn pick_cover_spec(kinds: Seq<Seq<char>>) -> Option<int> {
    if exists|i: int| 0 <= i < kinds.len() && is_cover_kind(kinds[i]) {
        Some(choose|i: int| 0 <= i < kinds.len() && is_cover_kind(kinds[i]) && forall|j: int| 0 <= j < i ==> !is_cover_kind(#[trigger] kinds[j]))
    } else if kinds.len() > 0 {
        Some(0)
    } else {
        None
    }
}

pub open spec fn is_cover_kind(k: Seq<char>) -> bool {
    contains_seq(k, seq!['C', 'o', 'v', 'e', 'r']) || contains_seq(k, seq!['F', 'r', 'o', 'n', 't'])
}

proof fn lemma_first_cover(kinds: Seq<Seq<char>>, i: int)
    requires
        0 <= i < kinds.len(),
        is_cover_kind(kinds[i]),
        forall|j: int| 0 <= j < i ==> !is_cover_kind(#[trigger] kinds[j]),
    ensures
        pick_cover_spec(kinds) == Some(i),
{
    let k = choose|k: int| 0 <= k < kinds.len() && is_cover_kind(kinds[k]) && forall|j: int| 0 <= j < k ==> !is_cover_kind(#[trigger] kinds[j]);
    assert(0 <= k < kinds.len() && is_cover_kind(kinds[k]) && forall|j: int| 0 <= j < k ==> !is_cover_kind(#[trigger] kinds[j]));
    if k < i {
        assert(!is_cover_kind(kinds[k]));
    } else if k > i {
        assert(!is_cover_kind(kinds[i]));
    }
}

/// Chooses the embedded picture to use (see `pick_cover_spec`).
pub fn pick_cover(kinds: &Vec<String>) -> (r: Option<usize>)
    ensures
        match r {
            Some(i) => pick_cover_spec(kinds@.map_values(|s: String| s@)) == Some(i as int)
                && i < kinds@.len(),
            None => pick_cover_spec(kinds@.map_values(|s: String| s@)) == None::<int>,
        },
{
    let ghost ks = kinds@.map_values(|s: String| s@);
    let cover: [char; 5] = ['C', 'o', 'v', 'e', 'r'];
    let front: [char; 5] = ['F', 'r', 'o', 'n', 't'];
    assert(cover@ =~= seq!['C', 'o', 'v', 'e', 'r']);
    assert(front@ =~= seq!['F', 'r', 'o', 'n', 't']);
    let n = kinds.len();
    let mut i: usize = 0;
    while i < n
        invariant
            i <= n == kinds@.len() == ks.len(),
            ks == kinds@.map_values(|s: String| s@),
            cover@ == seq!['C', 'o', 'v', 'e', 'r'],
            front@ == seq!['F', 'r', 'o', 'n', 't'],
            forall|j: int| 0 <= j < i ==> !is_cover_kind(#[trigger] ks[j]),
        decreases n - i,
    {
        let cs = chars_of(kinds[i].as_str());
        assert(cs@ == ks[i as int]);
        if contains_chars(cs.as_slice(), cover.as_slice()) || contains_chars(
            cs.as_slice(),
            front.as_slice(),
        ) {
            proof {
                lemma_first_cover(ks, i as int);
            }
            return Some(i);
        }
        i = i + 1;
    }
    if n > 0 {
        Some(0)
    } else {
        None
    }
}

/// The resampling filters of `image::imageops::FilterType`.
#[derive(Debug, Clone, Copy, PartialEq, Eq, Structural)]
pub enum ResizeFilter {
    Nearest,
    Triangle,
    CatmullRom,
    Gaussian,
    Lanczos3,
}

/// The encodings a scaled picture can be written in (`image::ImageFormat`).
#[derive(Debug, Clone, Copy, PartialEq, Eq, Structural)]
pub enum PictureFormat {
    Png,
    Jpeg,
}

/// The side of the square that cached cover thumbnails fit in; the `v2_`
/// cache names stand for thumbnails of this size.
pub const COVER_SIZE: u32 = 400;

/// What the `image` crate makes of a picture: the picture decoded
/// (`image::load_from_memory`), scaled to fit in `width`×`height` with its
/// aspect ratio kept (`DynamicImage::resize` with `filter`), and encoded in
/// `format` (`DynamicImage::write_to`); `None` where decoding or encoding
/// fails.  It depends on its arguments alone.
pub uninterp spec fn scaled_picture(
    picture: Seq<u8>,
    width: u32,
    height: u32,
    filter: ResizeFilter,
    format: PictureFormat,
) -> Option<Seq<u8>>;

/// `image::load_from_memory`, then `DynamicImage::resize` to fit
/// `width`×`height` with `filter`, then `DynamicImage::write_to` in
/// `format`; the result is what `scaled_picture` names.  The box is kept
/// within 16 777 216 pixels, so that the scaled image's buffer can be had.
#[verifier::external_body]
fn scale_picture(
    picture: &[u8],
    width: u32,
    height: u32,
    filter: ResizeFilter,
    format: PictureFormat,
) -> (r: Option<Vec<u8>>)
    requires
        0 < width,
        0 < height,
        width * height <= 16_777_216,
    ensures
        match r {
            Some(v) => scaled_picture(picture@, width, height, filter, format) == Some(v@),
            None => scaled_picture(picture@, width, height, filter, format) == None::<Seq<u8>>,
        },
{
    let f = match filter {
        ResizeFilter::Nearest => image::imageops::FilterType::Nearest,
        ResizeFilter::Triangle => image::imageops::FilterType::Triangle,
        ResizeFilter::CatmullRom => image::imageops::FilterType::CatmullRom,
        ResizeFilter::Gaussian => image::imageops::FilterType::Gaussian,
        ResizeFilter::Lanczos3 => image::imageops::FilterType::Lanczos3,
    };
    let fmt = match format {
        PictureFormat::Png => image::ImageFormat::Png,
        PictureFormat::Jpeg => image::ImageFormat::Jpeg,
    };
    let img = image::load_from_memory(picture).ok()?;
    let mut out = std::io::Cursor::new(Vec::new());
    img.resize(width, height, f).write_to(&mut out, fmt).ok()?;
    Some(out.into_inner())
}

/// The cover thumbnail to cache for a track, from its embedded pictures (their
/// type names and their bytes, in the same order): the picture that
/// `pick_cover` chooses, scaled to fit in `COVER_SIZE`×`COVER_SIZE` with the
/// Lanczos3 filter and encoded as PNG; nothing when there is no picture or it
/// cannot be made into one.
pub fn cover_thumbnail(kinds: &Vec<String>, pictures: &Vec<Vec<u8>>) -> (r: Option<Vec<u8>>)
    requires
        kinds@.len() == pictures@.len(),
    ensures
        match pick_cover_spec(kinds@.map_values(|s: String| s@)) {
            Some(i) => match r {
                Some(v) => scaled_picture(
                    pictures@[i]@,
                    400,
                    400,
                    ResizeFilter::Lanczos3,
                    PictureFormat::Png,
                ) == Some(v@),
                None => scaled_picture(
                    pictures@[i]@,
                    400,
                    400,
                    ResizeFilter::Lanczos3,
                    PictureFormat::Png,
                ) == None::<Seq<u8>>,
            },
            None => r is None,
        },
{
    match pick_cover(kinds) {
        Some(i) => {
            assert(i < pictures@.len());
            scale_picture(
                pictures[i].as_slice(),
                COVER_SIZE,
                COVER_SIZE,
                ResizeFilter::Lanczos3,
                PictureFormat::Png,
            )
        },
        None => None,
    }
}

/// The `file://` URL of a canonical cover path: a `\\?\UNC\` prefix becomes
/// `\\`, a `\\?\` prefix is dropped, and `file://` is put in front.
pub open spec fn cover_url_spec(canonical: Seq<char>) -> Seq<char> {
    let unc = seq!['\\', '\\', '?', '\\', 'U', 'N', 'C', '\\'];
    let verbatim = seq!['\\', '\\', '?', '\\'];
    let clean = if starts_with(canonical, unc) {
        seq!['\\', '\\'] + canonical.subrange(8, canonical.len() as int)
    } else if starts_with(canonical, verbatim) {
        canonical.subrange(4, canonical.len() as int)
    } else {
        canonical
    };
    seq!['f', 'i', 'l', 'e', ':', '/', '/'] + clean
}

/// Turns a canonicalized cover path into the URL the media controls load
/// (see `cover_url_spec`).
pub fn cover_url(canonical: &str) -> (r: String)
    ensures
        r@ == cover_url_spec(canonical@),
{
    let cs = chars_of(canonical);
    let unc: [char; 8] = ['\\', '\\', '?', '\\', 'U', 'N', 'C', '\\'];
    let verbatim: [char; 4] = ['\\', '\\', '?', '\\'];
    assert(unc@ =~= seq!['\\', '\\', '?', '\\', 'U', 'N', 'C', '\\']);
    assert(verbatim@ =~= seq!['\\', '\\', '?', '\\']);
    let mut out: Vec<char> = Vec::new();
    out.push('f');
    out.push('i');
    out.push('l');
    out.push('e');
    out.push(':');
    out.push('/');
    out.push('/');
    let start: usize = if starts_with_chars(cs.as_slice(), unc.as_slice()) {
        out.push('\\');
        out.push('\\');
        8
    } else if starts_with_chars(cs.as_slice(), verbatim.as_slice()) {
        4
    } else {
        0
    };
    let ghost before = out@;
    let n = cs.len();
    let mut i: usize = start;
    while i < n
        invariant
            start <= i <= n == cs@.len(),
            out@ == before + cs@.subrange(start as int, i as int),
        decreases n - i,
    {
        out.push(cs[i]);
        assert(cs@.subrange(start as int, i + 1) =~= cs@.subrange(start as int, i as int).push(
            cs@[i as int],
        ));
        i = i + 1;
    }
    assert(cs@.subrange(0, n as int) =~= cs@);
    assert(out@ =~= cover_url_spec(canonical@));
    string_of(out.as_slice())
}

} // verus!
