use auddyseus::player::{has_aac_mark, hint_of, url_suffix};
use auddyseus::player::{
    local_file_title, looks_like_aac, stream_route, url_extension, NowPlaying, PlayerCommand,
    Reaction, StreamRoute, Trouble,
};

#[test]
fn url_extensions_are_lowercased_hints() {
    assert_eq!(url_extension("http://x.example/a/stream.MP3?x=1.y"), Some("mp3".to_string()));
    assert_eq!(url_extension("http://x.example/live.ogg"), Some("ogg".to_string()));
    assert_eq!(url_extension("http://x.example/live"), None);
    assert_eq!(url_extension("http://x.example/file.abcdef"), None);
    assert_eq!(url_extension("http://x.example/file."), Some(String::new()));
    assert_eq!(url_extension("http://stream.radioparadise.com/mp3-128"), None);
}

#[test]
fn aac_addresses_are_recognised() {
    assert!(looks_like_aac("https://ice2.somafm.com/groovesalad-128-aac"));
    assert!(looks_like_aac("http://x.example/radio.AAC"));
    assert!(looks_like_aac("http://x.example/groove-AAC?token=1"));
    assert!(looks_like_aac("http://x.example/aac-64/live"));
    assert!(looks_like_aac("http://x.example/live?type=audio/aacp"));
    assert!(!looks_like_aac("http://ice1.somafm.com/groovesalad-128-mp3"));
    assert!(!looks_like_aac("http://x.example/aac"));
}

#[test]
fn routes_follow_the_address() {
    assert!(matches!(stream_route("https://ice2.somafm.com/groovesalad-128-aac"), StreamRoute::Ffmpeg));
    match stream_route("http://x.example/live.flac") {
        StreamRoute::Decoder(hint) => assert_eq!(hint, Some("flac".to_string())),
        StreamRoute::Ffmpeg => panic!("not AAC"),
    }
}

#[test]
fn the_now_playing_line_follows_commands() {
    let mut np = NowPlaying::new();
    assert!(!np.playing && np.title.is_empty() && np.station.is_empty());
    let r = np.react(&PlayerCommand::PlayStream {
        name: "SomaFM: Lush".to_string(),
        url: "http://ice1.somafm.com/lush-128-mp3".to_string(),
    });
    match r {
        Reaction::StartStream(StreamRoute::Decoder(None)) => {}
        _ => panic!("expected the built-in decoder without hint"),
    }
    assert!(np.playing && np.is_stream);
    assert_eq!(np.station, "SomaFM: Lush");
    assert_eq!(np.title, "Connecting…");
    assert!(matches!(np.react(&PlayerCommand::Pause), Reaction::Pause));
    assert!(!np.playing);
    assert!(matches!(np.react(&PlayerCommand::Resume), Reaction::Resume));
    assert!(np.playing);
    assert_eq!(np.title, "Connecting…");
    np.show_title("SomaFM: Lush", "Artist - Song");
    assert_eq!(np.title, "Artist - Song");
    assert!(matches!(np.react(&PlayerCommand::VolumeUp), Reaction::Louder));
    assert!(matches!(np.react(&PlayerCommand::VolumeDown), Reaction::Softer));
    assert!(matches!(np.react(&PlayerCommand::Stop), Reaction::Halt));
    assert!(!np.playing);
    assert_eq!(np.title, "");
    assert_eq!(np.station, "SomaFM: Lush");
    assert!(matches!(np.react(&PlayerCommand::PlayLocal("/m/a.mp3".to_string())), Reaction::StartLocal));
    assert!(!np.playing);
    assert!(matches!(np.react(&PlayerCommand::Quit), Reaction::Shutdown));
}

#[test]
fn local_files_show_their_file_name() {
    assert_eq!(local_file_title("/home/me/Music/song.flac"), "song.flac");
    assert_eq!(local_file_title("/"), "/");
    let mut np = NowPlaying::new();
    np.start_local("/home/me/Music/song.flac");
    assert!(np.playing && !np.is_stream);
    assert_eq!(np.station, "Local");
    assert_eq!(np.title, "song.flac");
}

#[test]
fn troubles_are_reported_in_the_title() {
    let mut np = NowPlaying::new();
    np.fail(Trouble::Ffmpeg, "not found");
    assert_eq!(np.title, "ffmpeg error: not found");
    np.fail(Trouble::Decode, "bad data");
    assert_eq!(np.title, "Decode error: bad data");
    np.fail(Trouble::Open, "denied");
    assert_eq!(np.title, "Open error: denied");
    np.fail(Trouble::Http, "x");
    assert_eq!(np.title, "HTTP error: x");
    np.fail(Trouble::Connection, "refused");
    assert_eq!(np.title, "Connection failed: refused");
    np.fail(Trouble::Stream, "reset");
    assert_eq!(np.title, "Stream error: reset");
    np.stream_ended();
    assert_eq!(np.title, "Stream ended");
}

#[test]
fn suffixes_hints_and_marks() {
    assert_eq!(url_suffix("http://x.example/a/Stream.MP3?x=1.y"), Some("MP3".to_string()));
    assert_eq!(url_suffix("http://x.example/dir.d/live"), None);
    assert_eq!(url_suffix("http://x.example/a.b.OGG"), Some("OGG".to_string()));
    assert_eq!(hint_of("flac".to_string()), Some("flac".to_string()));
    assert_eq!(hint_of("abcde".to_string()), Some("abcde".to_string()));
    assert_eq!(hint_of("abcdef".to_string()), None);
    assert_eq!(hint_of("éé".to_string()), Some("éé".to_string()));
    assert_eq!(hint_of("ééé".to_string()), None);
    assert!(has_aac_mark("http://x/groovesalad-128-aac"));
    assert!(has_aac_mark("http://x/aac-128/"));
    assert!(has_aac_mark("type=audio/aac"));
    assert!(!has_aac_mark("http://x/GROOVESALAD-128-AAC"));
    assert!(!has_aac_mark("http://x/mp3"));
}
