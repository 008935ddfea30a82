//! Tray icon, single instance and "Open with" registration: the decisions,
//! apart from the Win32 calls that carry them out.

use vstd::prelude::*;
use crate::player::PlayerAction;
use crate::text::{chars_of, string_of, trim, trim_chars};

verus! {

/// An event from the tray icon or its menu.
#[derive(Debug, Clone, Copy, PartialEq, Eq, Structural)]
pub enum TrayEvent {
    /// Left click on the icon, or "show / hide window" in the menu.
    ToggleWindow,
    PlayPause,
    Next,
    Prev,
    Quit,
}

/// Menu item identifiers.
pub const ID_SHOW: usize = 1;
pub const ID_PLAYPAUSE: usize = 2;
pub const ID_NEXT: usize = 3;
pub const ID_PREV: usize = 4;
pub const ID_QUIT: usize = 5;

/// Window messages the tray window handles (Win32 values).
pub const WM_DESTROY: u32 = 0x0002;
pub const WM_COMMAND: u32 = 0x0111;
pub const WM_LBUTTONUP: u32 = 0x0202;
pub const WM_RBUTTONUP: u32 = 0x0205;
/// The icon's callback message: `WM_APP + 1`.
pub const WM_TRAYICON: u32 = 0x8001;

/// What the tray window does with a message.
#[derive(Debug, Clone, Copy, PartialEq, Eq, Structural)]
pub enum TrayReaction {
    /// Send this event to the player, answer 0.
    Emit(TrayEvent),
    /// Pop up the context menu, answer 0.
    ShowMenu,
    /// Post the quit message, answer 0.
    PostQuit,
    /// Answer 0 and do nothing else.
    Handled,
    /// Leave the message to the default window procedure.
    Default,
}

/// The event a menu item stands for.
pub open spec fn menu_event_spec(id: usize) -> Option<TrayEvent> {
    if id == ID_SHOW {
        Some(TrayEvent::ToggleWindow)
    } else if id == ID_PLAYPAUSE {
        Some(TrayEvent::PlayPause)
    } else if id == ID_PREV {
        Some(TrayEvent::Prev)
    } else if id == ID_NEXT {
        Some(TrayEvent::Next)
    } else if id == ID_QUIT {
        Some(TrayEvent::Quit)
    } else {
        None
    }
}

/// The tray window's message handling: for the icon's callback message the
/// low 16 bits of `lparam` name the mouse message (left button up toggles the
/// window, right button up opens the menu); for a menu command the low 16
/// bits of `wparam` name the item; destruction posts the quit message;
/// everything else goes to the default procedure.
pub open spec fn tray_reaction_spec(msg: u32, wparam: usize, lparam: isize) -> TrayReaction {
    if msg == WM_TRAYICON {
        let m = (lparam as u32) & 0xffffu32;
        if m == WM_LBUTTONUP {
            TrayReaction::Emit(TrayEvent::ToggleWindow)
        } else if m == WM_RBUTTONUP {
            TrayReaction::ShowMenu
        } else {
            TrayReaction::Handled
        }
    } else if msg == WM_COMMAND {
        match menu_event_spec(wparam & 0xffffusize) {
            Some(e) => TrayReaction::Emit(e),
            None => TrayReaction::Handled,
        }
    } else if msg == WM_DESTROY {
        TrayReaction::PostQuit
    } else {
        TrayReaction::Default
    }
}

/// The event a menu item stands for.
pub fn menu_event(id: usize) -> (r: Option<TrayEvent>)
    ensures
        r == menu_event_spec(id),
{
    if id == ID_SHOW {
        Some(TrayEvent::ToggleWindow)
    } else if id == ID_PLAYPAUSE {
        Some(TrayEvent::PlayPause)
    } else if id == ID_PREV {
        Some(TrayEvent::Prev)
    } else if id == ID_NEXT {
        Some(TrayEvent::Next)
    } else if id == ID_QUIT {
        Some(TrayEvent::Quit)
    } else {
        None
    }
}

/// How the tray window reacts to a message (see `tray_reaction_spec`).
pub fn tray_reaction(msg: u32, wparam: usize, lparam: isize) -> (r: TrayReaction)
    ensures
        r == tray_reaction_spec(msg, wparam, lparam),
{
    if msg == WM_TRAYICON {
        let m = (lparam as u32) & 0xffffu32;
        if m == WM_LBUTTONUP {
            TrayReaction::Emit(TrayEvent::ToggleWindow)
        } else if m == WM_RBUTTONUP {
            TrayReaction::ShowMenu
        } else {
            TrayReaction::Handled
        }
    } else if msg == WM_COMMAND {
        match menu_event(wparam & 0xffffusize) {
            Some(e) => TrayReaction::Emit(e),
            None => TrayReaction::Handled,
        }
    } else if msg == WM_DESTROY {
        TrayReaction::PostQuit
    } else {
        TrayReaction::Default
    }
}

/// Each menu item sends its own event: the five identifiers give five
/// different events, and no other identifier gives one.
pub proof fn law_menu_items_distinct(a: usize, b: usize)
    requires
        menu_event_spec(a) is Some,
        menu_event_spec(b) is Some,
        a != b,
    ensures
        menu_event_spec(a) != menu_event_spec(b),
        1 <= a <= 5,
{
}

/// What the player does for a tray event; `None` for the two events that act
/// on the window or the application rather than on playback.
pub open spec fn tray_action_spec(e: TrayEvent) -> Option<PlayerAction> {
    match e {
        TrayEvent::PlayPause => Some(PlayerAction::TogglePlayback),
        TrayEvent::Next => Some(PlayerAction::NextTrack),
        TrayEvent::Prev => Some(PlayerAction::PrevTrack),
        TrayEvent::ToggleWindow => None,
        TrayEvent::Quit => None,
    }
}

/// The playback action a tray event asks for, if any.
pub fn tray_event_action(e: TrayEvent) -> (r: Option<PlayerAction>)
    ensures
        r == tray_action_spec(e),
{
    match e {
        TrayEvent::PlayPause => Some(PlayerAction::TogglePlayback),
        TrayEvent::Next => Some(PlayerAction::NextTrack),
        TrayEvent::Prev => Some(PlayerAction::PrevTrack),
        TrayEvent::ToggleWindow => None,
        TrayEvent::Quit => None,
    }
}

/// Whether this process is the first instance, from the outcome of creating
/// the named single-instance mutex: `None` when it could not be created (or
/// the platform has none), else whether it already existed.  A failure
/// counts as first, so that the player always opens.
pub fn is_first_instance(mutex_already_existed: Option<bool>) -> (r: bool)
    ensures
        r == match mutex_already_existed {
            Some(existed) => !existed,
            None => true,
        },
{
    match mutex_already_existed {
        Some(existed) => !existed,
        None => true,
    }
}

/// One registry string value to write under `HKEY_CURRENT_USER`.
#[derive(Debug, Clone)]
pub struct RegistryValue {
    /// Key path below `HKEY_CURRENT_USER`.
    pub subkey: String,
    /// Value name; `None` for the key's default value.
    pub name: Option<String>,
    pub value: String,
}

pub ghost struct RegistryValueView {
    pub subkey: Seq<char>,
    pub name: Option<Seq<char>>,
    pub value: Seq<char>,
}

impl View for RegistryValue {
    type V = RegistryValueView;

    open spec fn view(&self) -> RegistryValueView {
        RegistryValueView {
            subkey: self.subkey@,
            name: match self.name {
                Some(n) => Some(n@),
                None => None,
            },
            value: self.value@,
        }
    }
}

/// The extensions whose "Open with" list gains the player.
pub open spec fn associated_exts() -> Seq<Seq<char>> {
    seq!["mp3"@, "flac"@, "wav"@, "m4a"@, "ogg"@, "aac"@, "wma"@, "opus"@]
}

/// The values to write: the ProgID `SonicMusicPlayer` with its display name,
/// its open command `"<exe>" "%1"`, and the ProgID as a value name under
/// each extension's `OpenWithProgids` (only added as a candidate: the
/// default program stays).
pub open spec fn association_entries_spec(exe: Seq<char>) -> Seq<RegistryValueView> {
    seq![
        RegistryValueView {
            subkey: "Software\\Classes\\SonicMusicPlayer"@,
            name: None,
            value: "Sonic 音乐播放器"@,
        },
        RegistryValueView {
            subkey: "Software\\Classes\\SonicMusicPlayer\\shell\\open\\command"@,
            name: None,
            value: "\""@ + exe + "\" \"%1\""@,
        },
    ] + Seq::new(
        8,
        |i: int|
            RegistryValueView {
                subkey: "Software\\Classes\\."@ + associated_exts()[i] + "\\OpenWithProgids"@,
                name: Some("SonicMusicPlayer"@),
                value: Seq::empty(),
            },
    )
}

fn ext_entry(ext: &str) -> (r: RegistryValue)
    ensures
        r@ == (RegistryValueView {
            subkey: "Software\\Classes\\."@ + ext@ + "\\OpenWithProgids"@,
            name: Some("SonicMusicPlayer"@),
            value: Seq::empty(),
        }),
{
    let subkey = String::from_str("Software\\Classes\\.").concat(ext).concat("\\OpenWithProgids");
    RegistryValue {
        subkey,
        name: Some(String::from_str("SonicMusicPlayer")),
        value: String::new(),
    }
}

/// The registry values that make the player an "Open with" choice for common
/// audio files (see `association_entries_spec`).
pub fn association_entries(exe: &str) -> (r: Vec<RegistryValue>)
    ensures
        r@.map_values(|v: RegistryValue| v@) == association_entries_spec(exe@),
{
    let mut v: Vec<RegistryValue> = Vec::new();
    v.push(
        RegistryValue {
            subkey: String::from_str("Software\\Classes\\SonicMusicPlayer"),
            name: None,
            value: String::from_str("Sonic 音乐播放器"),
        },
    );
    v.push(
        RegistryValue {
            subkey: String::from_str("Software\\Classes\\SonicMusicPlayer\\shell\\open\\command"),
            name: None,
            value: String::from_str("\"").concat(exe).concat("\" \"%1\""),
        },
    );
    v.push(ext_entry("mp3"));
    v.push(ext_entry("flac"));
    v.push(ext_entry("wav"));
    v.push(ext_entry("m4a"));
    v.push(ext_entry("ogg"));
    v.push(ext_entry("aac"));
    v.push(ext_entry("wma"));
    v.push(ext_entry("opus"));
    assert(v@.map_values(|v: RegistryValue| v@) =~= association_entries_spec(exe@));
    v
}

/// The registration plan, given where the running executable is (or why
/// that could not be found): the values to write, or the error to report.
pub fn register_file_association(current_exe: Result<String, String>) -> (r: Result<
    Vec<RegistryValue>,
    String,
>)
    ensures
        match (current_exe, r) {
            (Ok(exe), Ok(v)) => v@.map_values(|x: RegistryValue| x@) == association_entries_spec(exe@),
            (Err(e), Err(m)) => m@ == "取自身路径失败："@ + e@,
            _ => false,
        },
{
    match current_exe {
        Ok(exe) => Ok(association_entries(exe.as_str())),
        Err(e) => Err(String::from_str("取自身路径失败：").concat(e.as_str())),
    }
}

/// The file that a second instance asked the first one to open, from the
/// text it left behind: that text with surrounding whitespace removed, or
/// nothing when that leaves it empty.
pub fn pending_path(content: &str) -> (r: Option<String>)
    ensures
        match r {
            Some(p) => trim(content@).len() > 0 && p@ == trim(content@),
            None => trim(content@).len() == 0,
        },
{
    let cs = chars_of(content);
    let t = trim_chars(cs.as_slice());
    if t.len() == 0 {
        None
    } else {
        Some(string_of(t))
    }
}

} // verus!
