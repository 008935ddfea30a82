use sonic::library::{Folder, RepeatMode, Track};
use sonic::player::{
    lyric_font_step_change, media_command_action, toggle_playback, track_finished, MediaCommand,
    PlayerAction, ToggleOutcome, TrackEnd,
};

fn folder(n: usize) -> Folder {
    Folder {
        name: "f".to_string(),
        expanded: true,
        tracks: (0..n)
            .map(|i| Track {
                path: format!("/m/{i}.mp3"),
                title: format!("t{i}"),
                artist: String::new(),
                album: String::new(),
                duration_ms: 0,
                cover_path: None,
            })
            .collect(),
    }
}

#[test]
fn media_commands_map_to_actions() {
    assert_eq!(media_command_action(MediaCommand::Play, false), PlayerAction::TogglePlayback);
    assert_eq!(media_command_action(MediaCommand::Play, true), PlayerAction::Nothing);
    assert_eq!(media_command_action(MediaCommand::Pause, true), PlayerAction::TogglePlayback);
    assert_eq!(media_command_action(MediaCommand::Pause, false), PlayerAction::Nothing);
    assert_eq!(media_command_action(MediaCommand::Toggle, false), PlayerAction::TogglePlayback);
    assert_eq!(media_command_action(MediaCommand::Next, true), PlayerAction::NextTrack);
    assert_eq!(media_command_action(MediaCommand::Previous, true), PlayerAction::PrevTrack);
    assert_eq!(media_command_action(MediaCommand::Stop, true), PlayerAction::Stop);
    assert_eq!(media_command_action(MediaCommand::Other, true), PlayerAction::Nothing);
}

#[test]
fn play_twice_leaves_playing() {
    // Playing after a Play request, whatever the state before.
    for playing in [false, true] {
        let after = match media_command_action(MediaCommand::Play, playing) {
            PlayerAction::TogglePlayback => !playing,
            _ => playing,
        };
        assert!(after);
        let after = match media_command_action(MediaCommand::Pause, playing) {
            PlayerAction::TogglePlayback => !playing,
            _ => playing,
        };
        assert!(!after);
    }
}

#[test]
fn play_pause_button() {
    let lib = vec![folder(0), folder(2)];
    assert_eq!(toggle_playback(&lib, None, false), ToggleOutcome::Start(1, 0));
    assert_eq!(toggle_playback(&Vec::new(), None, false), ToggleOutcome::Idle);
    assert_eq!(toggle_playback(&lib, Some((1, 1)), true), ToggleOutcome::Pause);
    assert_eq!(toggle_playback(&lib, Some((1, 1)), false), ToggleOutcome::Resume);
}

#[test]
fn end_of_track_follows_repeat_mode() {
    let lib = vec![folder(2)];
    assert_eq!(track_finished(&lib, Some((0, 1)), RepeatMode::One, false, 0), TrackEnd::Replay(0, 1));
    assert_eq!(track_finished(&lib, Some((0, 0)), RepeatMode::Off, false, 0), TrackEnd::Play(0, 1));
    assert_eq!(track_finished(&lib, Some((0, 1)), RepeatMode::Off, false, 0), TrackEnd::Stop);
    assert_eq!(track_finished(&lib, Some((0, 1)), RepeatMode::All, false, 0), TrackEnd::Play(0, 0));
    assert_eq!(track_finished(&lib, None, RepeatMode::All, false, 0), TrackEnd::Stop);
    // Shuffle with two tracks always moves to the other one.
    assert_eq!(track_finished(&lib, Some((0, 1)), RepeatMode::All, true, 1), TrackEnd::Play(0, 0));
}

#[test]
fn lyric_font_step_is_clamped() {
    assert_eq!(lyric_font_step_change(0, 1), 1);
    assert_eq!(lyric_font_step_change(2, 1), 2);
    assert_eq!(lyric_font_step_change(-1, -1), -1);
    assert_eq!(lyric_font_step_change(0, -5), -1);
    assert_eq!(lyric_font_step_change(1, 1), 2);
}
