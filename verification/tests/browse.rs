use sonic::browse::{
    empty_note, playlist_rows, search_tracks, sidebar_rows, EmptyNote, ListRow, ListView,
};
use sonic::groups::{collect_group_keys, group_rows, GroupKind};
use sonic::library::{Folder, Track};

fn track(title: &str, artist: &str, album: &str) -> Track {
    Track {
        path: format!("/m/{title}"),
        title: title.to_string(),
        artist: artist.to_string(),
        album: album.to_string(),
        duration_ms: 0,
        cover_path: None,
    }
}

fn library() -> Vec<Folder> {
    vec![
        Folder {
            name: "A".to_string(),
            expanded: true,
            tracks: vec![track("Sunny", "Jay", "Ye Hui Mei"), track("Rain", "Jay", "")],
        },
        Folder {
            name: "B".to_string(),
            expanded: false,
            tracks: vec![track("Blue", "Ann", "Ye Hui Mei"), track("x", "", "Alpha")],
        },
    ]
}

fn describe(rows: &[ListRow]) -> Vec<String> {
    rows.iter()
        .map(|r| match r {
            ListRow::FolderHeader { fi, name, count, expanded } => {
                format!("F{fi}:{name}:{count}:{expanded}")
            }
            ListRow::GroupHeader { key, name, sub, count, expanded } => {
                format!("G[{key}]{name}/{sub}:{count}:{expanded}")
            }
            ListRow::Track { fi, ti } => format!("T{fi}.{ti}"),
            ListRow::Loading { name } => format!("L:{name}"),
        })
        .collect()
}

#[test]
fn playlist_view() {
    assert_eq!(
        describe(&playlist_rows(&library())),
        vec!["F0:A:2:true", "T0.0", "T0.1", "F1:B:2:false"]
    );
}

#[test]
fn search_is_case_insensitive_and_trimmed() {
    let lib = library();
    assert_eq!(search_tracks(&lib, "  "), None);
    assert_eq!(search_tracks(&lib, " jay "), Some(vec![(0, 0), (0, 1)]));
    assert_eq!(search_tracks(&lib, "YE HUI"), Some(vec![(0, 0), (1, 0)]));
    assert_eq!(search_tracks(&lib, "nothing"), Some(vec![]));
}

#[test]
fn album_view_groups_in_name_order() {
    let lib = library();
    let rows = group_rows(&lib, GroupKind::Album, &vec!["Ye Hui Mei".to_string()]);
    assert_eq!(
        describe(&rows),
        vec![
            "G[]未知专辑/Jay:1:false",
            "G[Alpha]Alpha/:1:false",
            "G[Ye Hui Mei]Ye Hui Mei/Jay:2:true",
            "T0.0",
            "T1.0",
        ]
    );
}

#[test]
fn artist_view_has_no_subtitle() {
    let lib = library();
    let rows = group_rows(&lib, GroupKind::Artist, &vec![String::new()]);
    assert_eq!(
        describe(&rows),
        vec!["G[]未知歌手/:1:true", "T1.1", "G[Ann]Ann/:1:false", "G[Jay]Jay/:2:false"]
    );
    let keys: Vec<String> =
        collect_group_keys(&lib, GroupKind::Artist).iter().map(|k| k.iter().collect()).collect();
    assert_eq!(keys, vec!["", "Ann", "Jay"]);
}

#[test]
fn every_track_is_in_exactly_one_group() {
    let lib = library();
    for kind in [GroupKind::Album, GroupKind::Artist] {
        let all: Vec<String> = lib.iter().map(|f| f.name.clone()).collect();
        let _ = all;
        let expanded_all: Vec<String> = collect_group_keys(&lib, kind)
            .iter()
            .map(|k| k.iter().collect())
            .collect();
        let rows = group_rows(&lib, kind, &expanded_all);
        let mut seen: Vec<(usize, usize)> = rows
            .iter()
            .filter_map(|r| match r {
                ListRow::Track { fi, ti } => Some((*fi, *ti)),
                _ => None,
            })
            .collect();
        seen.sort();
        assert_eq!(seen, vec![(0, 0), (0, 1), (1, 0), (1, 1)]);
    }
}

#[test]
fn sidebar_puts_loading_folders_first_unless_searching() {
    let lib = library();
    let loading = vec!["New".to_string()];
    let rows = sidebar_rows(&lib, ListView::Playlists, "", &vec![], &vec![], &loading);
    assert_eq!(describe(&rows)[0], "L:New");
    assert_eq!(rows.len(), 5);
    let rows = sidebar_rows(&lib, ListView::Artist, "rain", &vec![], &vec![], &loading);
    assert_eq!(describe(&rows), vec!["T0.1"]);
    let rows = sidebar_rows(&lib, ListView::Album, "", &vec![], &vec![], &vec![]);
    assert_eq!(rows.len(), 3);
}

#[test]
fn empty_list_notes() {
    assert_eq!(empty_note(true, true), EmptyNote::NoMatch);
    assert_eq!(empty_note(false, true), EmptyNote::NoFolders);
    assert_eq!(empty_note(false, false), EmptyNote::Nothing);
}
