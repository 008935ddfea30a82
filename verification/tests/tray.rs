use sonic::player::PlayerAction;
use sonic::tray::{
    association_entries, is_first_instance, menu_event, pending_path, register_file_association,
    tray_event_action, tray_reaction, TrayEvent, TrayReaction, ID_NEXT, ID_PLAYPAUSE, ID_PREV,
    ID_QUIT, ID_SHOW, WM_COMMAND, WM_DESTROY, WM_LBUTTONUP, WM_RBUTTONUP, WM_TRAYICON,
};

#[test]
fn menu_items_map_to_events() {
    assert_eq!(menu_event(ID_SHOW), Some(TrayEvent::ToggleWindow));
    assert_eq!(menu_event(ID_PLAYPAUSE), Some(TrayEvent::PlayPause));
    assert_eq!(menu_event(ID_NEXT), Some(TrayEvent::Next));
    assert_eq!(menu_event(ID_PREV), Some(TrayEvent::Prev));
    assert_eq!(menu_event(ID_QUIT), Some(TrayEvent::Quit));
    assert_eq!(menu_event(0), None);
    assert_eq!(menu_event(6), None);
}

#[test]
fn tray_window_messages() {
    assert_eq!(
        tray_reaction(WM_TRAYICON, 0, WM_LBUTTONUP as isize),
        TrayReaction::Emit(TrayEvent::ToggleWindow)
    );
    assert_eq!(tray_reaction(WM_TRAYICON, 0, WM_RBUTTONUP as isize), TrayReaction::ShowMenu);
    // Only the low 16 bits of lparam name the mouse message.
    assert_eq!(
        tray_reaction(WM_TRAYICON, 0, 0x7_0000 + WM_RBUTTONUP as isize),
        TrayReaction::ShowMenu
    );
    assert_eq!(tray_reaction(WM_TRAYICON, 0, 0x0200), TrayReaction::Handled);
    assert_eq!(
        tray_reaction(WM_COMMAND, 0x1_0000 + ID_QUIT, 0),
        TrayReaction::Emit(TrayEvent::Quit)
    );
    assert_eq!(tray_reaction(WM_COMMAND, 99, 0), TrayReaction::Handled);
    assert_eq!(tray_reaction(WM_DESTROY, 0, 0), TrayReaction::PostQuit);
    assert_eq!(tray_reaction(0x000F, 0, 0), TrayReaction::Default);
}

#[test]
fn tray_events_to_player_actions() {
    assert_eq!(tray_event_action(TrayEvent::PlayPause), Some(PlayerAction::TogglePlayback));
    assert_eq!(tray_event_action(TrayEvent::Next), Some(PlayerAction::NextTrack));
    assert_eq!(tray_event_action(TrayEvent::Prev), Some(PlayerAction::PrevTrack));
    assert_eq!(tray_event_action(TrayEvent::ToggleWindow), None);
    assert_eq!(tray_event_action(TrayEvent::Quit), None);
}

#[test]
fn first_instance_from_mutex() {
    assert!(is_first_instance(Some(false)));
    assert!(!is_first_instance(Some(true)));
    assert!(is_first_instance(None));
}

#[test]
fn pending_file_is_trimmed() {
    assert_eq!(pending_path("  C:\\Music\\a.mp3 \r\n"), Some("C:\\Music\\a.mp3".to_string()));
    assert_eq!(pending_path(" \n\t "), None);
    assert_eq!(pending_path(""), None);
}

#[test]
fn association_plan() {
    let v = association_entries("C:\\Sonic\\sonic.exe");
    assert_eq!(v.len(), 10);
    assert_eq!(v[0].subkey, "Software\\Classes\\SonicMusicPlayer");
    assert_eq!(v[0].name, None);
    assert_eq!(v[0].value, "Sonic 音乐播放器");
    assert_eq!(v[1].subkey, "Software\\Classes\\SonicMusicPlayer\\shell\\open\\command");
    assert_eq!(v[1].value, "\"C:\\Sonic\\sonic.exe\" \"%1\"");
    let exts = ["mp3", "flac", "wav", "m4a", "ogg", "aac", "wma", "opus"];
    for (i, ext) in exts.iter().enumerate() {
        let e = &v[2 + i];
        assert_eq!(e.subkey, format!("Software\\Classes\\.{ext}\\OpenWithProgids"));
        assert_eq!(e.name.as_deref(), Some("SonicMusicPlayer"));
        assert_eq!(e.value, "");
    }
    match register_file_association(Err("denied".to_string())) {
        Err(m) => assert_eq!(m, "取自身路径失败：denied"),
        Ok(_) => panic!("expected an error"),
    }
    assert_eq!(register_file_association(Ok("x.exe".to_string())).unwrap().len(), 10);
}
