//! The application state and what each key does to it. What a key asks of
//! the outside world (the player, the file system) comes back as an
//! `Effect` for the caller to carry out.
use vstd::prelude::*;
use crate::browser::{
    is_m3u, is_m3u_path, moved_down, moved_up, paged_down, paged_up, at_bottom, shows,
    BrowserEntry, FileBrowser,
};
use crate::config::{Config, Stream};
use crate::paths::{file_name_of, path_file_name};
use crate::player::PlayerCommand;
use crate::text::{decimal, decimal_text, joined, owned};

verus! {

/// The two panels.
#[derive(PartialEq, Eq, Structural)]
pub enum Panel {
    Streams,
    Files,
}

/// A key, as far as the application tells keys apart.
pub enum Key {
    Char(char),
    Tab,
    Up,
    Down,
    PageUp,
    PageDown,
    Home,
    End,
    Enter,
    /// Any other key.
    Other,
}

/// What a key asks of the world outside the state.
pub enum Effect {
    Nothing,
    /// Send this command to the player.
    Send(PlayerCommand),
    /// List the directory at this path and show it (`FileBrowser::load_dir`).
    OpenDir(String),
    /// Read the playlist at this path and load it (`App::playlist_loaded`).
    OpenPlaylist(String),
}

/// The other panel.
pub open spec fn other_panel(p: Panel) -> Panel {
    match p {
        Panel::Streams => Panel::Files,
        Panel::Files => Panel::Streams,
    }
}

/// How far PageUp and PageDown move in the file list.
pub const PAGE: usize = 10;

/// The state of the application: its configuration, the file browser,
/// the active panel, the selected stream, whether it is to quit, and the
/// status line.
pub struct App {
    pub config: Config,
    pub browser: FileBrowser,
    pub active_panel: Panel,
    pub stream_selected: usize,
    pub should_quit: bool,
    pub status_msg: Option<String>,
}

/// The status line after loading a playlist from `path` with `count`
/// streams.
pub open spec fn loaded_message(count: nat, path: Seq<char>) -> Seq<char> {
    let name = match file_name_of(path) {
        Some(n) => n,
        None => Seq::empty(),
    };
    "Loaded "@ + decimal(count) + " streams from "@ + name
}

/// What a key does: `pre` and `post` are the states before and after,
/// `playing` whether something played, `effect` what is asked of the
/// world.
pub open spec fn key_outcome(pre: App, post: App, key: Key, playing: bool, effect: Effect) -> bool {
    &&& post.config == pre.config
    &&& match key {
        Key::Char(c) => if c == 'q' || c == 'Q' {
            &&& effect matches Effect::Send(PlayerCommand::Quit)
            &&& post.should_quit
            &&& post.active_panel == pre.active_panel
            &&& post.stream_selected == pre.stream_selected
            &&& post.browser == pre.browser
            &&& post.status_msg == pre.status_msg
        } else if c == ' ' {
            &&& (if playing {
                effect matches Effect::Send(PlayerCommand::Pause)
            } else {
                effect matches Effect::Send(PlayerCommand::Resume)
            })
            &&& post == pre
        } else if c == 's' || c == 'S' {
            effect matches Effect::Send(PlayerCommand::Stop) && post == pre
        } else if c == '+' || c == '=' {
            effect matches Effect::Send(PlayerCommand::VolumeUp) && post == pre
        } else if c == '-' {
            effect matches Effect::Send(PlayerCommand::VolumeDown) && post == pre
        } else {
            &&& effect is Nothing
            &&& post.status_msg is None
            &&& post.active_panel == pre.active_panel
            &&& post.stream_selected == pre.stream_selected
            &&& post.browser == pre.browser
            &&& post.should_quit == pre.should_quit
        },
        Key::Other => {
            &&& effect is Nothing
            &&& post.status_msg is None
            &&& post.active_panel == pre.active_panel
            &&& post.stream_selected == pre.stream_selected
            &&& post.browser == pre.browser
            &&& post.should_quit == pre.should_quit
        },
        Key::Tab => {
            &&& effect is Nothing
            &&& post.active_panel == other_panel(pre.active_panel)
            &&& post.stream_selected == pre.stream_selected
            &&& post.browser == pre.browser
            &&& post.should_quit == pre.should_quit
            &&& post.status_msg == pre.status_msg
        },
        Key::Enter => {
            &&& post == pre
            &&& match pre.active_panel {
                Panel::Streams => if pre.stream_selected < pre.config.streams.len() {
                    let s = pre.config.streams@[pre.stream_selected as int];
                    match effect {
                        Effect::Send(PlayerCommand::PlayStream { name, url }) => {
                            name@ == s.name@ && url@ == s.url@
                        },
                        _ => false,
                    }
                } else {
                    effect is Nothing
                },
                Panel::Files => if pre.browser.selected < pre.browser.entries.len() {
                    let e = pre.browser.entries@[pre.browser.selected as int];
                    if e.is_dir {
                        effect matches Effect::OpenDir(p) && p@ == e.path@
                    } else if is_m3u_path(e.path@) {
                        effect matches Effect::OpenPlaylist(p) && p@ == e.path@
                    } else {
                        match effect {
                            Effect::Send(PlayerCommand::PlayLocal(p)) => p@ == e.path@,
                            _ => false,
                        }
                    }
                } else {
                    effect is Nothing
                },
            }
        },
        _ => {
            &&& effect is Nothing
            &&& post.active_panel == pre.active_panel
            &&& post.should_quit == pre.should_quit
            &&& post.status_msg == pre.status_msg
            &&& post.browser.entries == pre.browser.entries
            &&& post.browser.current_dir == pre.browser.current_dir
            &&& match pre.active_panel {
                Panel::Streams => {
                    &&& post.browser == pre.browser
                    &&& post.stream_selected == stream_moved(
                        key,
                        pre.stream_selected as int,
                        pre.config.streams.len() as int,
                    )
                },
                Panel::Files => {
                    &&& post.stream_selected == pre.stream_selected
                    &&& post.browser.selected == file_moved(
                        key,
                        pre.browser.selected as int,
                        pre.browser.entries.len() as int,
                    )
                },
            }
        },
    }
}

/// What reading a playlist at `path` does, `outcome` being its streams
/// or why it could not be read.
pub open spec fn playlist_outcome(
    pre: App,
    post: App,
    path: Seq<char>,
    outcome: Result<Vec<Stream>, String>,
) -> bool {
    &&& post.browser == pre.browser
    &&& post.should_quit == pre.should_quit
    &&& post.config.music_dir == pre.config.music_dir
    &&& post.config.notifications == pre.config.notifications
    &&& match outcome {
        Ok(streams) => if streams.len() > 0 {
            &&& post.config.streams == streams
            &&& post.stream_selected == 0
            &&& post.active_panel == Panel::Streams
            &&& post.status_msg matches Some(m) && m@ == loaded_message(streams.len() as nat, path)
        } else {
            &&& post.config.streams == pre.config.streams
            &&& post.stream_selected == pre.stream_selected
            &&& post.active_panel == pre.active_panel
            &&& post.status_msg matches Some(m) && m@ == "M3U file contained no HTTP streams"@
        },
        Err(e) => {
            &&& post.config.streams == pre.config.streams
            &&& post.stream_selected == pre.stream_selected
            &&& post.active_panel == pre.active_panel
            &&& post.status_msg matches Some(m) && m@ == e@
        },
    }
}

impl App {
    /// The radio selection is a stream, or 0 when there is none, and the
    /// browser's selection is an entry.
    pub open spec fn wf(&self) -> bool {
        &&& if self.config.streams.len() == 0 {
            self.stream_selected == 0
        } else {
            self.stream_selected < self.config.streams.len()
        }
        &&& self.browser.wf()
    }

    /// The application at start: the radio panel active, its first stream
    /// selected, and the browser showing the music directory, whose
    /// contents are `listing`.
    pub fn new(config: Config, listing: Vec<BrowserEntry>) -> (app: App)
        ensures
            app.wf(),
            app.config == config,
            app.browser.current_dir@ == config.music_dir@,
            app.browser.selected == 0,
            shows(app.browser.entries@, config.music_dir@, listing@),
            app.active_panel == Panel::Streams,
            app.stream_selected == 0,
            !app.should_quit,
            app.status_msg is None,
    {
        let browser = FileBrowser::new(config.music_dir.as_str(), listing);
        App {
            browser,
            active_panel: Panel::Streams,
            stream_selected: 0,
            should_quit: false,
            config,
            status_msg: None,
        }
    }

    /// What happens on a key. `playing` says whether something plays now,
    /// which decides between pausing and resuming.
    pub fn handle_event(&mut self, key: Key, playing: bool) -> (effect: Effect)
        requires
            key is Down && old(self).active_panel is Streams ==> old(self).stream_selected
                < usize::MAX,
            key is Down && old(self).active_panel is Files ==> old(self).browser.selected
                < usize::MAX,
            key is PageDown && old(self).active_panel is Files ==> old(self).browser.selected
                + PAGE <= usize::MAX,
        ensures
            old(self).wf() ==> final(self).wf(),
            final(self).config == old(self).config,
            key_outcome(*old(self), *final(self), key, playing, effect),
    {
        match key {
            Key::Char(c) => {
                if c == 'q' || c == 'Q' {
                    self.should_quit = true;
                    Effect::Send(PlayerCommand::Quit)
                } else if c == ' ' {
                    if playing {
                        Effect::Send(PlayerCommand::Pause)
                    } else {
                        Effect::Send(PlayerCommand::Resume)
                    }
                } else if c == 's' || c == 'S' {
                    Effect::Send(PlayerCommand::Stop)
                } else if c == '+' || c == '=' {
                    Effect::Send(PlayerCommand::VolumeUp)
                } else if c == '-' {
                    Effect::Send(PlayerCommand::VolumeDown)
                } else {
                    self.status_msg = None;
                    Effect::Nothing
                }
            },
            Key::Other => {
                self.status_msg = None;
                Effect::Nothing
            },
            Key::Tab => {
                self.active_panel = match self.active_panel {
                    Panel::Streams => Panel::Files,
                    Panel::Files => Panel::Streams,
                };
                Effect::Nothing
            },
            Key::Up => {
                match self.active_panel {
                    Panel::Streams => {
                        if self.stream_selected > 0 {
                            self.stream_selected = self.stream_selected - 1;
                        }
                    },
                    Panel::Files => self.browser.move_up(),
                }
                Effect::Nothing
            },
            Key::Down => {
                match self.active_panel {
                    Panel::Streams => {
                        if self.stream_selected + 1 < self.config.streams.len() {
                            self.stream_selected = self.stream_selected + 1;
                        }
                    },
                    Panel::Files => self.browser.move_down(),
                }
                Effect::Nothing
            },
            Key::PageUp => {
                match self.active_panel {
                    Panel::Streams => self.stream_selected = 0,
                    Panel::Files => self.browser.page_up(PAGE),
                }
                Effect::Nothing
            },
            Key::PageDown => {
                match self.active_panel {
                    Panel::Streams => {
                        self.stream_selected = self.config.streams.len().saturating_sub(1);
                    },
                    Panel::Files => self.browser.page_down(PAGE),
                }
                Effect::Nothing
            },
            Key::Home => {
                match self.active_panel {
                    Panel::Streams => self.stream_selected = 0,
                    Panel::Files => self.browser.go_top(),
                }
                Effect::Nothing
            },
            Key::End => {
                match self.active_panel {
                    Panel::Streams => {
                        self.stream_selected = self.config.streams.len().saturating_sub(1);
                    },
                    Panel::Files => self.browser.go_bottom(),
                }
                Effect::Nothing
            },
            Key::Enter => {
                match self.active_panel {
                    Panel::Streams => {
                        if self.stream_selected < self.config.streams.len() {
                            let stream = &self.config.streams[self.stream_selected];
                            Effect::Send(
                                PlayerCommand::PlayStream {
                                    name: stream.name.clone(),
                                    url: stream.url.clone(),
                                },
                            )
                        } else {
                            Effect::Nothing
                        }
                    },
                    Panel::Files => {
                        if self.browser.selected < self.browser.entries.len() {
                            let entry = &self.browser.entries[self.browser.selected];
                            let path = entry.path.clone();
                            if entry.is_dir {
                                Effect::OpenDir(path)
                            } else if is_m3u(path.as_str()) {
                                Effect::OpenPlaylist(path)
                            } else {
                                Effect::Send(PlayerCommand::PlayLocal(path))
                            }
                        } else {
                            Effect::Nothing
                        }
                    },
                }
            },
        }
    }

    /// Takes the outcome of reading the playlist at `path`: its streams, or
    /// why it could not be read. Streams replace the radio list, whose
    /// first is then selected, and the radio panel becomes active; the
    /// status line says how it went.
    pub fn playlist_loaded(&mut self, path: &str, outcome: Result<Vec<Stream>, String>)
        ensures
            old(self).wf() ==> final(self).wf(),
            playlist_outcome(*old(self), *final(self), path@, outcome),
    {
        match outcome {
            Ok(streams) => {
                if streams.len() > 0 {
                    let count = streams.len();
                    self.config.streams = streams;
                    self.stream_selected = 0;
                    self.active_panel = Panel::Streams;
                    let name = match path_file_name(path) {
                        Some(n) => n,
                        None => String::new(),
                    };
                    let head = joined("Loaded ", decimal_text(count).as_str());
                    let head = joined(head.as_str(), " streams from ");
                    self.status_msg = Some(joined(head.as_str(), name.as_str()));
                } else {
                    self.status_msg = Some(owned("M3U file contained no HTTP streams"));
                }
            },
            Err(e) => {
                self.status_msg = Some(e);
            },
        }
    }
}

/// Where a movement key puts the selection of the radio list of `len`
/// streams: paging and Home/End go to the ends.
pub open spec fn stream_moved(key: Key, sel: int, len: int) -> int {
    let last = if len > 0 {
        len - 1
    } else {
        0
    };
    match key {
        Key::Up => moved_up(sel),
        Key::Down => moved_down(sel, len),
        Key::PageUp => 0,
        Key::PageDown => last,
        Key::Home => 0,
        Key::End => last,
        _ => sel,
    }
}

/// Where a movement key puts the selection of the file list of `len`
/// entries.
pub open spec fn file_moved(key: Key, sel: int, len: int) -> int {
    match key {
        Key::Up => moved_up(sel),
        Key::Down => moved_down(sel, len),
        Key::PageUp => paged_up(sel, PAGE as int),
        Key::PageDown => paged_down(sel, PAGE as int, len),
        Key::Home => 0,
        Key::End => at_bottom(sel, len),
        _ => sel,
    }
}

/// Tab twice comes back to the panel it started from, changing nothing
/// else.
pub proof fn lemma_tab_twice(a0: App, a1: App, a2: App, playing: bool, e1: Effect, e2: Effect)
    requires
        key_outcome(a0, a1, Key::Tab, playing, e1),
        key_outcome(a1, a2, Key::Tab, playing, e2),
    ensures
        a2.active_panel == a0.active_panel,
        a2.config == a0.config,
        a2.browser == a0.browser,
        a2.stream_selected == a0.stream_selected,
        a2.should_quit == a0.should_quit,
        a2.status_msg == a0.status_msg,
        e1 is Nothing && e2 is Nothing,
{
}

/// Once a playlist with streams is loaded, Enter plays its first stream.
pub proof fn lemma_loaded_playlist_plays_first(
    a0: App,
    a1: App,
    a2: App,
    path: Seq<char>,
    streams: Vec<Stream>,
    playing: bool,
    effect: Effect,
)
    requires
        streams.len() > 0,
        playlist_outcome(a0, a1, path, Ok(streams)),
        key_outcome(a1, a2, Key::Enter, playing, effect),
    ensures
        match effect {
            Effect::Send(PlayerCommand::PlayStream { name, url }) => name@ == streams@[0].name@
                && url@ == streams@[0].url@,
            _ => false,
        },
{
}

/// The quit key ends the application and stops the player, whatever the
/// state.
pub proof fn lemma_quit(a0: App, a1: App, c: char, playing: bool, effect: Effect)
    requires
        c == 'q' || c == 'Q',
        key_outcome(a0, a1, Key::Char(c), playing, effect),
    ensures
        a1.should_quit,
        effect matches Effect::Send(PlayerCommand::Quit),
{
}

} // verus!
