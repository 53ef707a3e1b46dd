//! The configuration: the stations of the radio panel, the music
//! directory and whether notifications are shown.
use vstd::prelude::*;
use crate::text::owned;

verus! {

/// A named internet radio stream.
pub struct Stream {
    pub name: String,
    pub url: String,
}

impl View for Stream {
    type V = (Seq<char>, Seq<char>);

    open spec fn view(&self) -> (Seq<char>, Seq<char>) {
        (self.name@, self.url@)
    }
}

/// The name and address of each stream, in order.
pub open spec fn streams_view(s: Seq<Stream>) -> Seq<(Seq<char>, Seq<char>)> {
    s.map_values(|x: Stream| x@)
}

pub proof fn lemma_streams_view_push(s: Seq<Stream>, x: Stream)
    ensures
        streams_view(s.push(x)) == streams_view(s).push(x@),
{
    assert(streams_view(s.push(x)) =~= streams_view(s).push(x@));
}

/// The player's settings.
pub struct Config {
    pub music_dir: String,
    pub streams: Vec<Stream>,
    pub notifications: bool,
}

/// Notifications are on unless the configuration turns them off.
pub fn default_notifications() -> (b: bool)
    ensures
        b,
{
    true
}

/// The stations of a configuration that names none.
pub open spec fn default_streams() -> Seq<(Seq<char>, Seq<char>)> {
    seq![
        ("SomaFM: Groove Salad"@, "http://ice1.somafm.com/groovesalad-128-mp3"@),
        ("SomaFM: Drone Zone"@, "http://ice1.somafm.com/dronezone-128-mp3"@),
        ("SomaFM: Secret Agent"@, "http://ice1.somafm.com/secretagent-128-mp3"@),
        ("SomaFM: Space Station"@, "http://ice1.somafm.com/spacestation-128-mp3"@),
        ("SomaFM: Lush"@, "http://ice1.somafm.com/lush-128-mp3"@),
        ("Radio Paradise (Main)"@, "http://stream.radioparadise.com/mp3-128"@),
    ]
}

fn stream(name: &str, url: &str) -> (s: Stream)
    ensures
        s@ == (name@, url@),
{
    Stream { name: owned(name), url: owned(url) }
}

/// The stations of a configuration that names none.
pub fn default_stream_list() -> (v: Vec<Stream>)
    ensures
        streams_view(v@) == default_streams(),
{
    let mut v: Vec<Stream> = Vec::new();
    v.push(stream("SomaFM: Groove Salad", "http://ice1.somafm.com/groovesalad-128-mp3"));
    v.push(stream("SomaFM: Drone Zone", "http://ice1.somafm.com/dronezone-128-mp3"));
    v.push(stream("SomaFM: Secret Agent", "http://ice1.somafm.com/secretagent-128-mp3"));
    v.push(stream("SomaFM: Space Station", "http://ice1.somafm.com/spacestation-128-mp3"));
    v.push(stream("SomaFM: Lush", "http://ice1.somafm.com/lush-128-mp3"));
    v.push(stream("Radio Paradise (Main)", "http://stream.radioparadise.com/mp3-128"));
    assert(streams_view(v@) =~= default_streams());
    v
}

/// The music directory to use: the user's music directory, else the home
/// directory, else the current one.
pub fn music_dir_from(audio: Option<String>, home: Option<String>) -> (dir: String)
    ensures
        dir@ == match audio {
            Some(a) => a@,
            None => match home {
                Some(h) => h@,
                None => "."@,
            },
        },
{
    match audio {
        Some(a) => a,
        None => match home {
            Some(h) => h,
            None => owned("."),
        },
    }
}

impl Config {
    /// The configuration used when none is written down: the default
    /// stations, notifications on, and `music_dir`.
    pub fn with_music_dir(music_dir: String) -> (c: Config)
        ensures
            c.music_dir == music_dir,
            streams_view(c.streams@) == default_streams(),
            c.notifications,
    {
        Config { music_dir, streams: default_stream_list(), notifications: default_notifications() }
    }
}

} // verus!
