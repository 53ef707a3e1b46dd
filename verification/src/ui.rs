//! The text that the screen shows; where and in what colour is the
//! terminal's business.
use vstd::prelude::*;
use vstd::string::StringSliceAdditionalSpecFns;
use vstd::utf8::is_char_boundary;
use crate::browser::{is_m3u, is_m3u_path, BrowserEntry};
use crate::player::NowPlaying;
use crate::text::{joined, owned};

verus! {

/// The end of `s` that fits in `max` bytes: all of `s` if it fits, else
/// its last `max` bytes, which must begin at a character boundary.
pub fn truncate(s: &str, max: usize) -> (r: &str)
    requires
        s.spec_bytes().len() <= max || is_char_boundary(
            s.spec_bytes(),
            s.spec_bytes().len() - max,
        ),
    ensures
        r.spec_bytes() == if s.spec_bytes().len() <= max {
            s.spec_bytes()
        } else {
            s.spec_bytes().subrange(s.spec_bytes().len() - max, s.spec_bytes().len() as int)
        },
{
    let n = s.as_bytes().len();
    if n <= max {
        s
    } else {
        s.split_at(n - max).1
    }
}

/// What the help line at the bottom shows.
pub enum HelpLine {
    /// The last status message, marked as done.
    Status(String),
    /// The list of keys.
    Keys,
}

/// The help line shows the status message while there is one, else the
/// keys.
pub fn help_line(status_msg: &Option<String>) -> (r: HelpLine)
    ensures
        match status_msg {
            Some(m) => r matches HelpLine::Status(t) && t@ == m@,
            None => r is Keys,
        },
{
    match status_msg {
        Some(m) => HelpLine::Status(m.clone()),
        None => HelpLine::Keys,
    }
}

/// The mark before the title: playing or stopped.
pub fn status_symbol(playing: bool) -> (r: &'static str)
    ensures
        r@ == if playing {
            "▶"@
        } else {
            "⏹"@
        },
{
    if playing {
        "▶"
    } else {
        "⏹"
    }
}

/// The title as shown: a dash when there is none.
pub fn title_text(np: &NowPlaying) -> (r: String)
    ensures
        r@ == if np.title@.len() == 0 {
            "—"@
        } else {
            np.title@
        },
{
    if np.title.as_str().is_empty() {
        owned("—")
    } else {
        np.title.clone()
    }
}

/// The station as shown after the title: in brackets, or nothing.
pub fn station_text(np: &NowPlaying) -> (r: String)
    ensures
        r@ == if np.station@.len() == 0 {
            Seq::<char>::empty()
        } else {
            "  ["@ + np.station@ + "]"@
        },
{
    if np.station.as_str().is_empty() {
        String::new()
    } else {
        let head = joined("  [", np.station.as_str());
        joined(head.as_str(), "]")
    }
}

/// A line of the radio panel.
pub fn stream_label(name: &str) -> (r: String)
    ensures
        r@ == " "@ + name@,
{
    joined(" ", name)
}

/// What kind of line an entry of the file panel is.
pub enum EntryKind {
    Directory,
    Playlist,
    Audio,
}

/// The kind of an entry.
pub open spec fn kind_of(e: BrowserEntry) -> EntryKind {
    if e.is_dir {
        EntryKind::Directory
    } else if is_m3u_path(e.path@) {
        EntryKind::Playlist
    } else {
        EntryKind::Audio
    }
}

/// The mark that begins a line of each kind.
pub open spec fn kind_mark(k: EntryKind) -> Seq<char> {
    match k {
        EntryKind::Directory => "📁 "@,
        EntryKind::Playlist => "≋  "@,
        EntryKind::Audio => "♪  "@,
    }
}

/// A line of the file panel: its kind, and its text (mark and name).
pub fn entry_label(e: &BrowserEntry) -> (r: (EntryKind, String))
    ensures
        r.0 == kind_of(*e),
        r.1@ == kind_mark(kind_of(*e)) + e.name@,
{
    if e.is_dir {
        (EntryKind::Directory, joined("📁 ", e.name.as_str()))
    } else if is_m3u(e.path.as_str()) {
        (EntryKind::Playlist, joined("≋  ", e.name.as_str()))
    } else {
        (EntryKind::Audio, joined("♪  ", e.name.as_str()))
    }
}

/// The title of the file panel, for a directory already cut to fit.
pub fn files_title(dir: &str) -> (r: String)
    ensures
        r@ == " Files: "@ + dir@ + " "@,
{
    let head = joined(" Files: ", dir);
    joined(head.as_str(), " ")
}

} // verus!
