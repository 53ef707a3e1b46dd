//! The player's decisions: which decoder a stream goes to, and what the
//! now-playing line shows as commands and stream events come in.
use vstd::prelude::*;
use vstd::string::StringSliceAdditionalSpecFns;
use vstd::utf8::encode_utf8;
use crate::paths::{file_name_of, path_file_name};
use crate::text::{
    after_last, before_first, chars_of, contains, contains_text, ends_with, ends_with_text,
    find_first, find_last, has_char, is_first, is_last, joined, lowercase, lowercased, opt_view,
    owned, string_of,
};

verus! {

/// What the user asks the player to do.
pub enum PlayerCommand {
    PlayStream { name: String, url: String },
    PlayLocal(String),
    Stop,
    Pause,
    Resume,
    VolumeUp,
    VolumeDown,
    Quit,
}

/// The last path segment of an address, query removed.
pub open spec fn url_segment(url: Seq<char>) -> Seq<char> {
    after_last(before_first(url, '?'), '/')
}

/// What follows the last `.` of an address's last path segment, if it has
/// one.
pub open spec fn url_suffix_of(url: Seq<char>) -> Option<Seq<char>> {
    let seg = url_segment(url);
    if has_char(seg, '.') {
        Some(after_last(seg, '.'))
    } else {
        None
    }
}

/// A lowercase extension kept as a hint: at most five bytes long.
pub open spec fn short_hint(lower: Seq<char>) -> Option<Seq<char>> {
    if encode_utf8(lower).len() <= 5 {
        Some(lower)
    } else {
        None
    }
}

/// The extension of an address as a decoder hint: what follows the last
/// `.` of its last path segment, in lowercase, if that is at most five
/// bytes long.
pub open spec fn url_ext(url: Seq<char>) -> Option<Seq<char>> {
    match url_suffix_of(url) {
        Some(e) => short_hint(lowercased(e)),
        None => None,
    }
}

/// A lowercase address that carries one of the marks of AAC that
/// SomaFM-style addresses and content types use.
pub open spec fn aac_mark(lower: Seq<char>) -> bool {
    ||| ends_with(lower, "-aac"@)
    ||| contains(lower, "-aac?"@)
    ||| contains(lower, "/aac-"@)
    ||| contains(lower, "audio/aacp"@)
    ||| contains(lower, "audio/aac"@)
}

/// An address that asks for AAC: by its extension, or by a mark, in any
/// case.
pub open spec fn aac_url(url: Seq<char>) -> bool {
    url_ext(url) == Some("aac"@) || aac_mark(lowercased(url))
}

/// What follows the last `.` of the address's last path segment.
pub fn url_suffix(url: &str) -> (r: Option<String>)
    ensures
        opt_view(r) == url_suffix_of(url@),
{
    let v = chars_of(url);
    let end = match find_first(&v, 0, v.len(), '?') {
        Some(q) => {
            let ghost qq = choose|i: int| is_first(v@, '?', i);
            assert(v@.subrange(0, v.len() as int) =~= v@);
            assert(qq == q);
            q
        },
        None => {
            assert(v@.subrange(0, v.len() as int) =~= v@);
            v.len()
        },
    };
    let ghost path = before_first(v@, '?');
    assert(path =~= v@.subrange(0, end as int));
    let start = match find_last(&v, 0, end, '/') {
        Some(j) => {
            let ghost jj = choose|i: int| is_last(path, '/', i);
            assert(jj == j);
            j + 1
        },
        None => 0,
    };
    let ghost seg = url_segment(v@);
    assert(seg =~= v@.subrange(start as int, end as int));
    match find_last(&v, start, end, '.') {
        Some(d) => {
            let ghost dd = choose|i: int| is_last(seg, '.', i);
            assert(dd == d - start);
            assert(after_last(seg, '.') =~= v@.subrange(d + 1, end as int));
            Some(string_of(&v, d + 1, end))
        },
        None => None,
    }
}

/// Keeps a lowercase extension as a hint if it is at most five bytes long.
pub fn hint_of(lower: String) -> (r: Option<String>)
    ensures
        opt_view(r) == short_hint(lower@),
{
    if lower.as_str().as_bytes().len() <= 5 {
        Some(lower)
    } else {
        None
    }
}

/// The extension of an address, as a hint for the decoder.
pub fn url_extension(url: &str) -> (r: Option<String>)
    ensures
        opt_view(r) == url_ext(url@),
{
    match url_suffix(url) {
        Some(e) => hint_of(lowercase(e.as_str())),
        None => None,
    }
}

/// Whether a lowercase address carries a mark of AAC.
pub fn has_aac_mark(lower: &str) -> (r: bool)
    ensures
        r == aac_mark(lower@),
{
    let v = chars_of(lower);
    ends_with_text(&v, &chars_of("-aac")) || contains_text(&v, &chars_of("-aac?")) || contains_text(
        &v,
        &chars_of("/aac-"),
    ) || contains_text(&v, &chars_of("audio/aacp")) || contains_text(&v, &chars_of("audio/aac"))
}

/// Whether a stream at this address should be played as AAC.
pub fn looks_like_aac(url: &str) -> (r: bool)
    ensures
        r == aac_url(url@),
{
    let by_ext = match url_extension(url) {
        Some(e) => {
            let s = owned("aac");
            e == s
        },
        None => false,
    };
    proof {
        if url_ext(url@) == Some("aac"@) {
            assert(by_ext);
        }
    }
    by_ext || has_aac_mark(lowercase(url).as_str())
}

/// How a stream is decoded.
pub enum StreamRoute {
    /// An external `ffmpeg` turns it into raw samples (MPEG-2 and HE-AAC).
    Ffmpeg,
    /// The built-in decoder reads it, with this extension as a hint.
    Decoder(Option<String>),
}

/// The route for the stream at `url`.
pub fn stream_route(url: &str) -> (r: StreamRoute)
    ensures
        aac_url(url@) ==> r is Ffmpeg,
        !aac_url(url@) ==> (r matches StreamRoute::Decoder(hint) && opt_view(hint) == url_ext(url@)),
{
    if looks_like_aac(url) {
        StreamRoute::Ffmpeg
    } else {
        StreamRoute::Decoder(url_extension(url))
    }
}

/// What went wrong, as the now-playing line names it.
pub enum Trouble {
    Ffmpeg,
    Decode,
    Open,
    Http,
    Connection,
    Stream,
}

/// The words that introduce each kind of trouble.
pub open spec fn trouble_prefix(t: Trouble) -> Seq<char> {
    match t {
        Trouble::Ffmpeg => "ffmpeg error: "@,
        Trouble::Decode => "Decode error: "@,
        Trouble::Open => "Open error: "@,
        Trouble::Http => "HTTP error: "@,
        Trouble::Connection => "Connection failed: "@,
        Trouble::Stream => "Stream error: "@,
    }
}

/// The now-playing line: what plays, from where, and whether it plays.
pub struct NowPlaying {
    pub title: String,
    pub station: String,
    pub is_stream: bool,
    pub playing: bool,
}

/// The title shown for a local file: its file name, or the whole path when
/// it has none.
pub open spec fn local_title(path: Seq<char>) -> Seq<char> {
    match file_name_of(path) {
        Some(n) => n,
        None => path,
    }
}

/// The title shown while a file plays.
pub fn local_file_title(path: &str) -> (r: String)
    ensures
        r@ == local_title(path@),
{
    match path_file_name(path) {
        Some(n) => n,
        None => owned(path),
    }
}

/// What the engine is to do for a command, beyond what the now-playing
/// line shows.
pub enum Reaction {
    /// Stop what plays and play the stream by this route.
    StartStream(StreamRoute),
    /// Stop what plays and open the file.
    StartLocal,
    /// Stop what plays.
    Halt,
    /// Pause the output.
    Pause,
    /// Resume the output.
    Resume,
    /// Raise the volume by a step.
    Louder,
    /// Lower the volume by a step.
    Softer,
    /// Stop what plays and end the engine.
    Shutdown,
}

impl NowPlaying {
    /// Nothing playing, nothing shown.
    pub fn new() -> (np: NowPlaying)
        ensures
            np.title@ == Seq::<char>::empty(),
            np.station@ == Seq::<char>::empty(),
            !np.is_stream,
            !np.playing,
    {
        NowPlaying { title: String::new(), station: String::new(), is_stream: false, playing: false }
    }

    /// A stream from `station` is being connected to.
    pub fn start_stream(&mut self, station: &str)
        ensures
            final(self).playing,
            final(self).is_stream,
            final(self).station@ == station@,
            final(self).title@ == "Connecting…"@,
    {
        self.playing = true;
        self.is_stream = true;
        self.station = owned(station);
        self.title = owned("Connecting…");
    }

    /// The local file at `path` plays.
    pub fn start_local(&mut self, path: &str)
        ensures
            final(self).playing,
            !final(self).is_stream,
            final(self).station@ == "Local"@,
            final(self).title@ == local_title(path@),
    {
        self.playing = true;
        self.is_stream = false;
        self.station = owned("Local");
        self.title = local_file_title(path);
    }

    /// Playback stopped: nothing plays and no title is shown.
    pub fn stop(&mut self)
        ensures
            !final(self).playing,
            final(self).title@ == Seq::<char>::empty(),
            final(self).station == old(self).station,
            final(self).is_stream == old(self).is_stream,
    {
        self.playing = false;
        self.title = String::new();
    }

    /// The stream announced a new title.
    pub fn show_title(&mut self, station: &str, title: &str)
        ensures
            final(self).playing,
            final(self).station@ == station@,
            final(self).title@ == title@,
            final(self).is_stream == old(self).is_stream,
    {
        self.title = owned(title);
        self.station = owned(station);
        self.playing = true;
    }

    /// Something went wrong; the title says what.
    pub fn fail(&mut self, trouble: Trouble, detail: &str)
        ensures
            final(self).title@ == trouble_prefix(trouble) + detail@,
            final(self).station == old(self).station,
            final(self).playing == old(self).playing,
            final(self).is_stream == old(self).is_stream,
    {
        let prefix = match trouble {
            Trouble::Ffmpeg => "ffmpeg error: ",
            Trouble::Decode => "Decode error: ",
            Trouble::Open => "Open error: ",
            Trouble::Http => "HTTP error: ",
            Trouble::Connection => "Connection failed: ",
            Trouble::Stream => "Stream error: ",
        };
        self.title = joined(prefix, detail);
    }

    /// The stream ran out.
    pub fn stream_ended(&mut self)
        ensures
            final(self).title@ == "Stream ended"@,
            final(self).station == old(self).station,
            final(self).playing == old(self).playing,
            final(self).is_stream == old(self).is_stream,
    {
        self.title = owned("Stream ended");
    }

    /// Takes a command: updates what the line shows at once and says what
    /// the engine is to do. A file's title is shown only once it opens
    /// (`start_local`).
    pub fn react(&mut self, cmd: &PlayerCommand) -> (r: Reaction)
        ensures
            match *cmd {
                PlayerCommand::PlayStream { name, url } => {
                    &&& final(self).playing
                    &&& final(self).is_stream
                    &&& final(self).station@ == name@
                    &&& final(self).title@ == "Connecting…"@
                    &&& aac_url(url@) ==> match r {
                        Reaction::StartStream(StreamRoute::Ffmpeg) => true,
                        _ => false,
                    }
                    &&& !aac_url(url@) ==> match r {
                        Reaction::StartStream(StreamRoute::Decoder(hint)) => opt_view(hint)
                            == url_ext(url@),
                        _ => false,
                    }
                },
                PlayerCommand::PlayLocal(_) => r is StartLocal && *final(self) == *old(self),
                PlayerCommand::Stop => {
                    &&& r is Halt
                    &&& !final(self).playing
                    &&& final(self).title@ == Seq::<char>::empty()
                    &&& final(self).station == old(self).station
                    &&& final(self).is_stream == old(self).is_stream
                },
                PlayerCommand::Pause => r is Pause && !final(self).playing && final(self).title
                    == old(self).title && final(self).station == old(self).station
                    && final(self).is_stream == old(self).is_stream,
                PlayerCommand::Resume => r is Resume && final(self).playing && final(self).title
                    == old(self).title && final(self).station == old(self).station
                    && final(self).is_stream == old(self).is_stream,
                PlayerCommand::VolumeUp => r is Louder && *final(self) == *old(self),
                PlayerCommand::VolumeDown => r is Softer && *final(self) == *old(self),
                PlayerCommand::Quit => r is Shutdown && *final(self) == *old(self),
            },
    {
        match cmd {
            PlayerCommand::PlayStream { name, url } => {
                self.start_stream(name.as_str());
                Reaction::StartStream(stream_route(url.as_str()))
            },
            PlayerCommand::PlayLocal(_) => Reaction::StartLocal,
            PlayerCommand::Stop => {
                self.stop();
                Reaction::Halt
            },
            PlayerCommand::Pause => {
                self.playing = false;
                Reaction::Pause
            },
            PlayerCommand::Resume => {
                self.playing = true;
                Reaction::Resume
            },
            PlayerCommand::VolumeUp => Reaction::Louder,
            PlayerCommand::VolumeDown => Reaction::Softer,
            PlayerCommand::Quit => Reaction::Shutdown,
        }
    }
}

/// Addresses ending in `-aac`, with a `.aac` extension, or holding
/// `/aac-`, in any case, are played through `ffmpeg`.
pub proof fn lemma_aac_addresses(url: Seq<char>)
    requires
        ends_with(lowercased(url), "-aac"@) || url_ext(url) == Some("aac"@) || contains(
            lowercased(url),
            "/aac-"@,
        ),
    ensures
        aac_url(url),
{
}

} // verus!
