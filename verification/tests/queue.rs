use sonic::library::{Folder, Track};
use sonic::lyrics::{lyric_view_range, lyric_window};
use sonic::queue::upcoming_list;
use sonic::theme::ThemeMode;

fn folder(titles: &[(&str, u64)]) -> Folder {
    Folder {
        name: "f".to_string(),
        expanded: true,
        tracks: titles
            .iter()
            .map(|(t, ms)| Track {
                path: format!("/{t}"),
                title: t.to_string(),
                artist: format!("by {t}"),
                album: String::new(),
                duration_ms: *ms,
                cover_path: None,
            })
            .collect(),
    }
}

fn titles(rows: &[(String, String, String)]) -> Vec<&str> {
    rows.iter().map(|r| r.0.as_str()).collect()
}

#[test]
fn up_next_in_library_order() {
    let lib = vec![folder(&[("a", 61_000), ("b", 5_999)]), folder(&[("c", 600_000)])];
    let rows = upcoming_list(&lib, Some((0, 0)), 30);
    assert_eq!(titles(&rows), vec!["b", "c"]);
    assert_eq!(rows[0], ("b".to_string(), "by b".to_string(), "0:05".to_string()));
    assert_eq!(rows[1].2, "10:00");
    assert!(upcoming_list(&lib, None, 30).is_empty());
    assert_eq!(titles(&upcoming_list(&lib, Some((0, 0)), 1)), vec!["b"]);
}

#[test]
fn up_next_does_not_wrap() {
    let lib = vec![folder(&[("a", 0), ("b", 0), ("c", 0)])];
    assert_eq!(titles(&upcoming_list(&lib, Some((0, 1)), 30)), vec!["c"]);
    assert!(upcoming_list(&lib, Some((0, 2)), 30).is_empty());
    let two = vec![folder(&[("a", 0), ("b", 0)])];
    assert_eq!(titles(&upcoming_list(&two, Some((0, 0)), 30)), vec!["b"]);
}

#[test]
fn lyric_window_around_current_line() {
    assert_eq!(lyric_window(0, 10), (0, 3));
    assert_eq!(lyric_window(1, 10), (0, 4));
    assert_eq!(lyric_window(5, 10), (3, 8));
    assert_eq!(lyric_window(9, 10), (7, 10));
    assert_eq!(lyric_window(0, 1), (0, 1));
    assert_eq!(lyric_window(usize::MAX, 3), (usize::MAX - 2, 3));
}

#[test]
fn lyric_preview_before_the_first_line() {
    assert_eq!(lyric_view_range(None, 10), (0, 2));
    assert_eq!(lyric_view_range(None, 1), (0, 1));
    assert_eq!(lyric_view_range(None, 0), (0, 0));
    assert_eq!(lyric_view_range(Some(5), 10), (3, 8));
}

#[test]
fn theme_setting_round_trip() {
    assert_eq!(ThemeMode::from_setting("light"), ThemeMode::Light);
    assert_eq!(ThemeMode::from_setting("dark"), ThemeMode::Dark);
    assert_eq!(ThemeMode::from_setting("Light"), ThemeMode::Dark);
    assert_eq!(ThemeMode::from_setting(""), ThemeMode::Dark);
    for m in [ThemeMode::Dark, ThemeMode::Light] {
        assert_eq!(ThemeMode::from_setting(&m.setting()), m);
    }
    assert_eq!(ThemeMode::Light.setting(), "light");
    assert_eq!(ThemeMode::Dark.setting(), "dark");
}
