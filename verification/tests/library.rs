use sonic::library::{
    all_indices, first, folder_sizes, last, next_idx, next_sequential, prev_idx, prev_sequential,
    push_recent, random_idx, Folder, RepeatMode, Track, RECENT_LIMIT,
};

fn track(title: &str) -> Track {
    Track {
        path: format!("/music/{title}.mp3"),
        title: title.to_string(),
        artist: String::new(),
        album: String::new(),
        duration_ms: 1000,
        cover_path: None,
    }
}

fn folder(name: &str, titles: &[&str]) -> Folder {
    Folder {
        name: name.to_string(),
        expanded: true,
        tracks: titles.iter().map(|t| track(t)).collect(),
    }
}

/// Folders of sizes 0, 2, 0, 1.
fn library() -> Vec<Folder> {
    vec![
        folder("empty", &[]),
        folder("a", &["a0", "a1"]),
        folder("gap", &[]),
        folder("b", &["b0"]),
    ]
}

#[test]
fn first_and_last_skip_empty_folders() {
    let lib = library();
    assert_eq!(first(&lib), Some((1, 0)));
    assert_eq!(last(&lib), Some((3, 0)));
    assert_eq!(first(&Vec::new()), None);
    assert_eq!(last(&vec![folder("e", &[])]), None);
    assert_eq!(folder_sizes(&lib), vec![0, 2, 0, 1]);
}

#[test]
fn all_indices_in_library_order() {
    assert_eq!(all_indices(&library()), vec![(1, 0), (1, 1), (3, 0)]);
}

#[test]
fn next_sequential_skips_empty_folders() {
    let lib = library();
    assert_eq!(next_sequential(&lib, 1, 0), Some((1, 1)));
    assert_eq!(next_sequential(&lib, 1, 1), Some((3, 0)));
    assert_eq!(next_sequential(&lib, 3, 0), None);
    assert_eq!(next_sequential(&lib, 9, 0), None);
}

#[test]
fn prev_sequential_skips_empty_folders() {
    let lib = library();
    assert_eq!(prev_sequential(&lib, 1, 1), Some((1, 0)));
    assert_eq!(prev_sequential(&lib, 1, 0), None);
    // The folder before folder 3 is empty: the one before it holds tracks.
    assert_eq!(prev_sequential(&lib, 3, 0), Some((1, 1)));
    // A folder index past the end looks at all folders.
    assert_eq!(prev_sequential(&lib, 9, 0), Some((3, 0)));
    let lib2 = vec![folder("a", &["a0", "a1"]), folder("b", &["b0"])];
    assert_eq!(prev_sequential(&lib2, 1, 0), Some((0, 1)));
}

#[test]
fn prev_undoes_next_across_empty_folders() {
    let lib = vec![folder("a", &["a0"]), folder("e", &[]), folder("b", &["b0"])];
    let n = next_sequential(&lib, 0, 0).unwrap();
    assert_eq!(n, (2, 0));
    assert_eq!(prev_sequential(&lib, n.0, n.1), Some((0, 0)));
    // Under repeat All, previous from the third folder does not wrap.
    assert_eq!(prev_idx(&lib, false, RepeatMode::All, 2, 0, 0), Some((0, 0)));
}

#[test]
fn next_and_prev_wrap_only_with_repeat_all() {
    let lib = vec![folder("a", &["a0", "a1"]), folder("b", &["b0"])];
    assert_eq!(next_idx(&lib, false, RepeatMode::Off, 1, 0, 0), None);
    assert_eq!(next_idx(&lib, false, RepeatMode::One, 1, 0, 0), None);
    assert_eq!(next_idx(&lib, false, RepeatMode::All, 1, 0, 0), Some((0, 0)));
    assert_eq!(prev_idx(&lib, false, RepeatMode::Off, 0, 0, 0), None);
    assert_eq!(prev_idx(&lib, false, RepeatMode::All, 0, 0, 0), Some((1, 0)));
    assert_eq!(next_idx(&lib, false, RepeatMode::Off, 0, 1, 0), Some((1, 0)));
}

#[test]
fn next_then_prev_comes_back() {
    let lib = vec![folder("a", &["a0", "a1"]), folder("b", &["b0", "b1"])];
    for &(f, t) in &[(0usize, 0usize), (0, 1), (1, 0)] {
        let n = next_sequential(&lib, f, t).unwrap();
        assert_eq!(prev_sequential(&lib, n.0, n.1), Some((f, t)));
    }
}

#[test]
fn shuffle_never_repeats_the_current_track() {
    let lib = vec![folder("a", &["a0", "a1", "a2"])];
    for seed in 0..10usize {
        let p = random_idx(&lib, Some((0, 1)), seed).unwrap();
        assert_ne!(p, (0, 1));
        assert!(p.1 < 3);
    }
    // seed 4 picks index 1, the current track, so the next one is taken.
    assert_eq!(random_idx(&lib, Some((0, 1)), 4), Some((0, 2)));
    assert_eq!(random_idx(&lib, None, 4), Some((0, 1)));
    // A single track is picked even when it is the current one.
    let one = vec![folder("a", &["a0"])];
    assert_eq!(random_idx(&one, Some((0, 0)), 7), Some((0, 0)));
    assert_eq!(random_idx(&Vec::new(), None, 7), None);
    // Shuffle overrides the order in next and previous.
    assert_eq!(next_idx(&lib, true, RepeatMode::Off, 0, 2, 5), Some((0, 0)));
    assert_eq!(prev_idx(&lib, true, RepeatMode::Off, 0, 0, 5), Some((0, 2)));
}

#[test]
fn repeat_mode_names_and_cycle() {
    for m in [RepeatMode::Off, RepeatMode::All, RepeatMode::One] {
        assert_eq!(RepeatMode::from_str(m.as_str()), m);
        assert_eq!(m.cycled().cycled().cycled(), m);
        assert_ne!(m.cycled(), m);
    }
    assert_eq!(RepeatMode::Off.as_str(), "off");
    assert_eq!(RepeatMode::All.as_str(), "all");
    assert_eq!(RepeatMode::One.as_str(), "one");
    assert_eq!(RepeatMode::from_str("ALL"), RepeatMode::Off);
    assert_eq!(RepeatMode::from_str(""), RepeatMode::Off);
    assert_eq!(RepeatMode::Off.cycled(), RepeatMode::All);
    assert_eq!(RepeatMode::All.cycled(), RepeatMode::One);
    assert_eq!(RepeatMode::One.cycled(), RepeatMode::Off);
    assert_eq!(RepeatMode::Off.label(), "顺序播放");
    assert_eq!(RepeatMode::All.label(), "列表循环");
    assert_eq!(RepeatMode::One.label(), "单曲循环");
}

#[test]
fn recent_list_moves_to_front_without_duplicates() {
    let mut r = Vec::new();
    push_recent(&mut r, 0, 1);
    push_recent(&mut r, 0, 2);
    push_recent(&mut r, 0, 1);
    assert_eq!(r, vec![(0, 1), (0, 2)]);
}

#[test]
fn recent_list_keeps_at_most_fifty() {
    let mut r = Vec::new();
    for i in 0..60usize {
        push_recent(&mut r, 1, i);
    }
    assert_eq!(r.len(), RECENT_LIMIT);
    assert_eq!(RECENT_LIMIT, 50);
    assert_eq!(r[0], (1, 59));
    assert_eq!(r[49], (1, 10));
}
