use sonic::library::Track;
use sonic::scan::{classify_extension, sort_by_title, track_from_tags, ExtensionKind, TagInfo};

fn track(path: &str, title: &str) -> Track {
    Track {
        path: path.to_string(),
        title: title.to_string(),
        artist: String::new(),
        album: String::new(),
        duration_ms: 0,
        cover_path: None,
    }
}

#[test]
fn extensions() {
    for e in ["mp3", "flac", "wav", "ogg", "aac", "m4a", "MP3", "Flac"] {
        assert_eq!(classify_extension(e), ExtensionKind::Audio, "{e}");
    }
    for e in ["opus", "wma", "ape", "m4b", "mid", "midi", "aiff", "aif", "dsf", "tta", "tak", "wv",
        "alac", "caf", "amr", "OPUS"]
    {
        assert_eq!(classify_extension(e), ExtensionKind::AudioLike, "{e}");
    }
    for e in ["jpg", "txt", "", "mp4", "lrc"] {
        assert_eq!(classify_extension(e), ExtensionKind::Other, "{e}");
    }
}

#[test]
fn sort_by_title_is_stable_and_ordered() {
    let tracks = vec![
        track("/1", "b"),
        track("/2", "a"),
        track("/3", "b"),
        track("/4", "B"),
        track("/5", "晴天"),
        track("/6", "a"),
        track("/7", ""),
    ];
    let mut expected = tracks.clone();
    expected.sort_by(|a, b| a.title.cmp(&b.title));
    let sorted = sort_by_title(tracks);
    let paths: Vec<&str> = sorted.iter().map(|t| t.path.as_str()).collect();
    assert_eq!(paths, vec!["/7", "/4", "/2", "/6", "/1", "/3", "/5"]);
    let expected_paths: Vec<&str> = expected.iter().map(|t| t.path.as_str()).collect();
    assert_eq!(paths, expected_paths);
}

#[test]
fn sort_matches_std_on_prefixes_and_unicode() {
    let titles = ["abc", "ab", "abd", "", "Z", "é", "e", "ab", "你", "𝄞", "\u{ffff}"];
    let tracks: Vec<Track> =
        titles.iter().enumerate().map(|(i, t)| track(&format!("/{i}"), t)).collect();
    let mut expected = tracks.clone();
    expected.sort_by(|a, b| a.title.cmp(&b.title));
    let got = sort_by_title(tracks);
    let g: Vec<String> = got.iter().map(|t| t.path.clone()).collect();
    let e: Vec<String> = expected.iter().map(|t| t.path.clone()).collect();
    assert_eq!(g, e);
    assert!(sort_by_title(Vec::new()).is_empty());
}

#[test]
fn track_fields_from_tags() {
    let t = track_from_tags(
        "/m/a.mp3".to_string(),
        Some("a".to_string()),
        Some(TagInfo {
            duration_ms: 61_500,
            title: Some("Title".to_string()),
            artist: Some("Artist".to_string()),
            album: None,
        }),
        Some("/c/v2_x.png".to_string()),
    );
    assert_eq!(t.path, "/m/a.mp3");
    assert_eq!(t.title, "Title");
    assert_eq!(t.artist, "Artist");
    assert_eq!(t.album, "");
    assert_eq!(t.duration_ms, 61_500);
    assert_eq!(t.cover_path.as_deref(), Some("/c/v2_x.png"));

    let t = track_from_tags(
        "/m/b.mp3".to_string(),
        Some("b".to_string()),
        Some(TagInfo { duration_ms: 5, title: None, artist: None, album: Some("Al".to_string()) }),
        None,
    );
    assert_eq!(t.title, "b");
    assert_eq!(t.album, "Al");

    // Unreadable tags: file name as title, nothing else.
    let t = track_from_tags("/m/c.wav".to_string(), Some("c".to_string()), None, None);
    assert_eq!((t.title.as_str(), t.artist.as_str(), t.album.as_str(), t.duration_ms), ("c", "", "", 0));
    let t = track_from_tags("/m/.wav".to_string(), None, None, None);
    assert_eq!(t.title, "未知");
}

#[test]
fn text_order_matches_str_order() {
    let words = ["", "a", "ab", "b", "B", "é", "你", "𝄞", "a\u{0}", "\u{7f}", "\u{80}"];
    for x in words {
        for y in words {
            let xs: Vec<char> = x.chars().collect();
            let ys: Vec<char> = y.chars().collect();
            assert_eq!(sonic::order::text_lt_chars(&xs, &ys), x.cmp(y) == std::cmp::Ordering::Less, "{x:?} {y:?}");
        }
    }
}

#[test]
fn insert_position_is_after_equal_keys() {
    let keys: Vec<Vec<char>> = ["a", "b", "b", "d"].iter().map(|s| s.chars().collect()).collect();
    assert_eq!(sonic::order::find_insert_pos(&keys, &['b']), 3);
    assert_eq!(sonic::order::find_insert_pos(&keys, &['c']), 3);
    assert_eq!(sonic::order::find_insert_pos(&keys, &['e']), 4);
    assert_eq!(sonic::order::find_insert_pos(&keys, &[]), 0);
}
