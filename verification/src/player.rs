//! Playback decisions: what play/pause, the media keys, the end of a track
//! and the lyric size buttons do, as functions from the player's state to the
//! action the application then carries out.

use vstd::prelude::*;
use crate::library::{
    first, first_spec, next_idx, next_idx_spec, sizes, valid_pos, Folder, RepeatMode,
};

verus! {

/// A media-control request from the system (keyboard media keys, lock
/// screen, taskbar buttons).
#[derive(Debug, Clone, Copy, PartialEq, Eq, Structural)]
pub enum MediaCommand {
    Play,
    Pause,
    Toggle,
    Next,
    Previous,
    Stop,
    /// Any request the player does not handle (seek, volume, ...).
    Other,
}

/// What the player is to do.
#[derive(Debug, Clone, Copy, PartialEq, Eq, Structural)]
pub enum PlayerAction {
    TogglePlayback,
    NextTrack,
    PrevTrack,
    Stop,
    Nothing,
}

/// Play starts playback only when paused, Pause pauses only when playing;
/// the rest map one to one.
pub open spec fn media_action_spec(cmd: MediaCommand, playing: bool) -> PlayerAction {
    match cmd {
        MediaCommand::Play => if !playing {
            PlayerAction::TogglePlayback
        } else {
            PlayerAction::Nothing
        },
        MediaCommand::Pause => if playing {
            PlayerAction::TogglePlayback
        } else {
            PlayerAction::Nothing
        },
        MediaCommand::Toggle => PlayerAction::TogglePlayback,
        MediaCommand::Next => PlayerAction::NextTrack,
        MediaCommand::Previous => PlayerAction::PrevTrack,
        MediaCommand::Stop => PlayerAction::Stop,
        MediaCommand::Other => PlayerAction::Nothing,
    }
}

/// What a media-control request does given whether music is playing.
pub fn media_command_action(cmd: MediaCommand, playing: bool) -> (r: PlayerAction)
    ensures
        r == media_action_spec(cmd, playing),
{
    match cmd {
        MediaCommand::Play => if !playing {
            PlayerAction::TogglePlayback
        } else {
            PlayerAction::Nothing
        },
        MediaCommand::Pause => if playing {
            PlayerAction::TogglePlayback
        } else {
            PlayerAction::Nothing
        },
        MediaCommand::Toggle => PlayerAction::TogglePlayback,
        MediaCommand::Next => PlayerAction::NextTrack,
        MediaCommand::Previous => PlayerAction::PrevTrack,
        MediaCommand::Stop => PlayerAction::Stop,
        MediaCommand::Other => PlayerAction::Nothing,
    }
}

/// After a Play or Pause request has been carried out, the player is playing
/// exactly when the request was Play (a repeated request changes nothing).
pub proof fn law_play_pause_idempotent(cmd: MediaCommand, playing: bool)
    requires
        cmd == MediaCommand::Play || cmd == MediaCommand::Pause,
    ensures
        ({
            let after = if media_action_spec(cmd, playing) == PlayerAction::TogglePlayback {
                !playing
            } else {
                playing
            };
            after == (cmd == MediaCommand::Play)
        }),
{
}

/// What the play/pause button does.
#[derive(Debug, Clone, Copy, PartialEq, Eq, Structural)]
pub enum ToggleOutcome {
    /// Nothing was selected: start this track.
    Start(usize, usize),
    /// Nothing was selected and the library is empty.
    Idle,
    Pause,
    Resume,
}

/// With no current track, play/pause starts the library's first track; with
/// one, it pauses or resumes.
pub open spec fn toggle_ok(
    sz: Seq<nat>,
    current: Option<(usize, usize)>,
    playing: bool,
    r: ToggleOutcome,
) -> bool {
    match current {
        None => match first_spec(sz) {
            Some(f) => r == ToggleOutcome::Start(f.0 as usize, f.1 as usize),
            None => r == ToggleOutcome::Idle,
        },
        Some(_) => r == (if playing {
            ToggleOutcome::Pause
        } else {
            ToggleOutcome::Resume
        }),
    }
}

/// What the play/pause button does in the current state.
pub fn toggle_playback(folders: &Vec<Folder>, current: Option<(usize, usize)>, playing: bool) -> (r:
    ToggleOutcome)
    ensures
        toggle_ok(sizes(folders@), current, playing, r),
{
    match current {
        None => match first(folders) {
            Some((f, t)) => ToggleOutcome::Start(f, t),
            None => ToggleOutcome::Idle,
        },
        Some(_) => if playing {
            ToggleOutcome::Pause
        } else {
            ToggleOutcome::Resume
        },
    }
}

/// What happens when the current track has played to its end.
#[derive(Debug, Clone, Copy, PartialEq, Eq, Structural)]
pub enum TrackEnd {
    /// Single-track repeat: play the same track again.
    Replay(usize, usize),
    /// Go on with this track.
    Play(usize, usize),
    /// Nothing left to play: stop and rewind the position.
    Stop,
}

/// Under `RepeatMode::One` the track plays again; otherwise the next track
/// plays (as "next" picks it), and playback stops when there is none.
pub open spec fn track_end_spec(
    sz: Seq<nat>,
    current: Option<(usize, usize)>,
    repeat: RepeatMode,
    shuffle: bool,
    seed: int,
) -> TrackEnd {
    match current {
        None => TrackEnd::Stop,
        Some(c) => if repeat == RepeatMode::One {
            TrackEnd::Replay(c.0, c.1)
        } else {
            match next_idx_spec(sz, shuffle, repeat, c.0 as int, c.1 as int, seed) {
                Some(q) => TrackEnd::Play(q.0 as usize, q.1 as usize),
                None => TrackEnd::Stop,
            }
        },
    }
}

/// Decides what follows the end of the current track.
pub fn track_finished(
    folders: &Vec<Folder>,
    current: Option<(usize, usize)>,
    repeat: RepeatMode,
    shuffle: bool,
    seed: usize,
) -> (r: TrackEnd)
    requires
        current matches Some(c) ==> (shuffle || c.1 < usize::MAX),
    ensures
        r == track_end_spec(sizes(folders@), current, repeat, shuffle, seed as int),
{
    match current {
        None => TrackEnd::Stop,
        Some((fi, ti)) => {
            if repeat == RepeatMode::One {
                return TrackEnd::Replay(fi, ti);
            }
            match next_idx(folders, shuffle, repeat, fi, ti, seed) {
                Some((f, t)) => TrackEnd::Play(f, t),
                None => TrackEnd::Stop,
            }
        },
    }
}

/// With list repeat on and a current track that exists, the end of a track
/// never stops playback: some track always follows, and it exists.
pub proof fn law_list_repeat_never_stops(
    sz: Seq<nat>,
    c: (usize, usize),
    shuffle: bool,
    seed: int,
)
    requires
        valid_pos(sz, (c.0 as int, c.1 as int)),
        seed >= 0,
        sz.len() <= usize::MAX,
        forall|i: int| 0 <= i < sz.len() ==> sz[i] <= usize::MAX,
    ensures
        track_end_spec(sz, Some(c), RepeatMode::All, shuffle, seed) matches TrackEnd::Play(f, t)
            && valid_pos(sz, (f as int, t as int)),
{
    crate::library::law_first_and_last(sz);
    crate::library::law_prev_undoes_next(sz, c.0 as int, c.1 as int);
    if shuffle {
        lemma_shuffle_pick_valid(sz, c, seed);
    }
}

proof fn lemma_shuffle_pick_valid(sz: Seq<nat>, c: (usize, usize), seed: int)
    requires
        valid_pos(sz, (c.0 as int, c.1 as int)),
        seed >= 0,
    ensures
        crate::library::random_idx_spec(sz, Some((c.0 as int, c.1 as int)), seed) matches Some(p)
            && valid_pos(sz, p),
{
    crate::library::lemma_flat_positions_valid(sz);
    crate::library::lemma_flat_positions_complete(sz, (c.0 as int, c.1 as int));
    let all = crate::library::flat_positions(sz);
    let n = all.len() as int;
    if n >= 2 {
        crate::library::law_shuffle_changes_track(sz, (c.0 as int, c.1 as int), seed);
    }
}

/// Single-track repeat replays exactly the current track.
pub proof fn law_single_repeat_replays(
    sz: Seq<nat>,
    c: (usize, usize),
    shuffle: bool,
    seed: int,
)
    ensures
        track_end_spec(sz, Some(c), RepeatMode::One, shuffle, seed) == TrackEnd::Replay(c.0, c.1),
{
}

/// The lyric size step after pressing `-` or `+`: kept between -1 and 2.
pub open spec fn font_step_spec(step: int, delta: int) -> int {
    let s = step + delta;
    if s < -1 {
        -1
    } else if s > 2 {
        2
    } else {
        s
    }
}

/// The lyric size step after a change by `delta`.
pub fn lyric_font_step_change(step: i32, delta: i32) -> (r: i32)
    requires
        i32::MIN <= step + delta <= i32::MAX,
    ensures
        r == font_step_spec(step as int, delta as int),
        -1 <= r <= 2,
{
    let s = step + delta;
    if s < -1 {
        -1
    } else if s > 2 {
        2
    } else {
        s
    }
}

} // verus!
