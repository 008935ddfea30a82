use sonic::folders::{
    add_external_track, add_path, add_scanned_folder, find_track, remove_folders_named, remove_path,
    replace_folder_tracks, set_cover_path, set_track_tags, toggle_folder,
};
use sonic::library::{Folder, Track};

fn track(path: &str) -> Track {
    Track {
        path: path.to_string(),
        title: path.to_string(),
        artist: String::new(),
        album: String::new(),
        duration_ms: 0,
        cover_path: None,
    }
}

fn folder(name: &str, paths: &[&str]) -> Folder {
    Folder { name: name.to_string(), expanded: false, tracks: paths.iter().map(|p| track(p)).collect() }
}

#[test]
fn find_by_path() {
    let lib = vec![folder("a", &["/x", "/y"]), folder("b", &["/y", "/z"])];
    assert_eq!(find_track(&lib, "/y"), Some((0, 1)));
    assert_eq!(find_track(&lib, "/z"), Some((1, 1)));
    assert_eq!(find_track(&lib, "/w"), None);
}

#[test]
fn external_file_goes_first_in_its_own_folder() {
    let mut lib = vec![folder("a", &["/x"])];
    let r = add_external_track(&mut lib, track("/ext1"));
    assert_eq!(r, (0, 0));
    assert_eq!(lib.len(), 2);
    assert_eq!(lib[0].name, "外部文件");
    assert!(lib[0].expanded);
    assert_eq!(lib[1].name, "a");
    // A second external file joins the same folder.
    lib[0].expanded = false;
    let r = add_external_track(&mut lib, track("/ext2"));
    assert_eq!(r, (0, 1));
    assert_eq!(lib.len(), 2);
    assert!(lib[0].expanded);
    assert_eq!(lib[0].tracks[1].path, "/ext2");
    assert_eq!(find_track(&lib, "/ext2"), Some(r));
}

#[test]
fn external_folder_found_anywhere() {
    let mut lib = vec![folder("a", &["/x"]), folder("外部文件", &["/e"])];
    assert_eq!(add_external_track(&mut lib, track("/f")), (1, 1));
    assert_eq!(lib.len(), 2);
}

#[test]
fn remove_and_replace_folders() {
    let mut lib = vec![folder("a", &["/1"]), folder("b", &["/2"]), folder("a", &["/3"])];
    assert!(replace_folder_tracks(&mut lib, "a", vec![track("/9")]));
    assert_eq!(lib[0].tracks[0].path, "/9");
    assert_eq!(lib[2].tracks[0].path, "/3");
    assert!(!replace_folder_tracks(&mut lib, "zz", vec![]));
    remove_folders_named(&mut lib, "a");
    assert_eq!(lib.len(), 1);
    assert_eq!(lib[0].name, "b");
    remove_folders_named(&mut lib, "none");
    assert_eq!(lib.len(), 1);
}

#[test]
fn scanned_folders_and_paths() {
    let mut lib = Vec::new();
    add_scanned_folder(&mut lib, "empty".to_string(), Vec::new());
    assert!(lib.is_empty());
    add_scanned_folder(&mut lib, "Music".to_string(), vec![track("/1")]);
    assert_eq!(lib.len(), 1);
    assert!(lib[0].expanded);
    let mut paths = Vec::new();
    assert!(add_path(&mut paths, "/music".to_string()));
    assert!(!add_path(&mut paths, "/music".to_string()));
    assert!(add_path(&mut paths, "/other".to_string()));
    assert_eq!(paths, vec!["/music".to_string(), "/other".to_string()]);
    remove_path(&mut paths, "/music");
    assert_eq!(paths, vec!["/other".to_string()]);
}

#[test]
fn track_edits() {
    let mut lib = vec![folder("a", &["/1", "/2"])];
    toggle_folder(&mut lib, 0);
    assert!(lib[0].expanded);
    toggle_folder(&mut lib, 0);
    assert!(!lib[0].expanded);
    toggle_folder(&mut lib, 5);
    set_cover_path(&mut lib, 0, 1, Some("/c.png".to_string()));
    assert_eq!(lib[0].tracks[1].cover_path.as_deref(), Some("/c.png"));
    assert_eq!(lib[0].tracks[0].cover_path, None);
    set_cover_path(&mut lib, 0, 7, Some("/d.png".to_string()));
    set_track_tags(&mut lib, 0, 0, "T".to_string(), "Ar".to_string(), "Al".to_string());
    assert_eq!((lib[0].tracks[0].title.as_str(), lib[0].tracks[0].artist.as_str(), lib[0].tracks[0].album.as_str()), ("T", "Ar", "Al"));
    assert_eq!(lib[0].tracks[0].path, "/1");
}
