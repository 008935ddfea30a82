use sonic::locate::{lyric_format, pick_lyric_dir, pick_lyric_file};
use sonic::lyrics::LyricFormat;

fn names(v: &[&str]) -> Vec<Option<String>> {
    v.iter().map(|s| Some(s.to_string())).collect()
}

#[test]
fn lyric_directory_in_any_case() {
    assert_eq!(pick_lyric_dir(&names(&["Covers", "LYRICS", "lyric"])), Some(1));
    assert_eq!(pick_lyric_dir(&names(&["Lyric"])), Some(0));
    assert_eq!(pick_lyric_dir(&names(&["lyricz", "my lyrics"])), None);
    // A name that is not UTF-8 ends the search.
    assert_eq!(pick_lyric_dir(&vec![None, Some("lyric".to_string())]), None);
}

#[test]
fn lyric_file_by_stem_then_title() {
    let listing = names(&["readme.txt", "Other - 晴天.LRC", "周杰伦 - 晴天-abc123.krc"]);
    assert_eq!(pick_lyric_file(&listing, "周杰伦 - 晴天", "晴天"), Some(2));
    // No name starts with the stem: fall back to the title.
    assert_eq!(pick_lyric_file(&listing, "unknown", "晴天"), Some(1));
    assert_eq!(pick_lyric_file(&listing, "unknown", "nothing"), None);
    // Only lyric extensions count.
    assert_eq!(pick_lyric_file(&names(&["song.txt"]), "song", "song"), None);
    assert_eq!(pick_lyric_file(&names(&["Song.QRC"]), "song", "x"), Some(0));
}

#[test]
fn lyric_formats() {
    assert_eq!(lyric_format("lrc"), Some(LyricFormat::Lrc));
    assert_eq!(lyric_format("KRC"), Some(LyricFormat::Krc));
    assert_eq!(lyric_format("Qrc"), Some(LyricFormat::Qrc));
    assert_eq!(lyric_format("txt"), None);
    assert_eq!(lyric_format(""), None);
}

#[test]
fn a_name_that_is_not_utf8_ends_the_search() {
    let listing = vec![None, Some("song.lrc".to_string())];
    assert_eq!(pick_lyric_file(&listing, "song", "song"), None);
    // A match before it is still found.
    let listing = vec![Some("song.lrc".to_string()), None];
    assert_eq!(pick_lyric_file(&listing, "song", "x"), Some(0));
    // The title search never starts when the first search met such a name.
    let listing = vec![Some("x - song.krc".to_string()), None];
    assert_eq!(pick_lyric_file(&listing, "zzz", "song"), None);
}
