use auddyseus::app::{App, Effect, Key, Panel};
use auddyseus::browser::BrowserEntry;
use auddyseus::config::{Config, Stream};
use auddyseus::player::PlayerCommand;

fn stream(name: &str, url: &str) -> Stream {
    Stream { name: name.to_string(), url: url.to_string() }
}

fn file(dir: &str, name: &str, is_dir: bool) -> BrowserEntry {
    BrowserEntry { name: name.to_string(), path: format!("{}/{}", dir, name), is_dir }
}

fn sample_app() -> App {
    let config = Config {
        music_dir: "/home/me/Music".to_string(),
        streams: vec![
            stream("One", "http://a.example/one"),
            stream("Two", "http://a.example/two"),
            stream("Three", "http://a.example/three"),
        ],
        notifications: true,
    };
    let listing = vec![
        file("/home/me/Music", "album", true),
        file("/home/me/Music", "song.mp3", false),
        file("/home/me/Music", "radio.m3u", false),
    ];
    App::new(config, listing)
}

fn is_nothing(e: &Effect) -> bool {
    matches!(e, Effect::Nothing)
}

#[test]
fn a_new_app_shows_the_radio_panel() {
    let app = sample_app();
    assert!(matches!(app.active_panel, Panel::Streams));
    assert_eq!(app.stream_selected, 0);
    assert!(!app.should_quit);
    assert!(app.status_msg.is_none());
    let names: Vec<&str> = app.browser.entries.iter().map(|e| e.name.as_str()).collect();
    assert_eq!(names, vec!["..", "album", "radio.m3u", "song.mp3"]);
}

#[test]
fn tab_switches_panels() {
    let mut app = sample_app();
    assert!(is_nothing(&app.handle_event(Key::Tab, false)));
    assert!(matches!(app.active_panel, Panel::Files));
    assert!(is_nothing(&app.handle_event(Key::Tab, false)));
    assert!(matches!(app.active_panel, Panel::Streams));
}

#[test]
fn arrows_and_paging_move_the_radio_selection() {
    let mut app = sample_app();
    app.handle_event(Key::Up, false);
    assert_eq!(app.stream_selected, 0);
    app.handle_event(Key::Down, false);
    app.handle_event(Key::Down, false);
    app.handle_event(Key::Down, false);
    assert_eq!(app.stream_selected, 2);
    app.handle_event(Key::PageUp, false);
    assert_eq!(app.stream_selected, 0);
    app.handle_event(Key::End, false);
    assert_eq!(app.stream_selected, 2);
    app.handle_event(Key::Home, false);
    assert_eq!(app.stream_selected, 0);
    app.handle_event(Key::PageDown, false);
    assert_eq!(app.stream_selected, 2);
    assert_eq!(app.browser.selected, 0);
}

#[test]
fn arrows_move_the_file_selection_in_the_files_panel() {
    let mut app = sample_app();
    app.handle_event(Key::Tab, false);
    app.handle_event(Key::Down, false);
    assert_eq!(app.browser.selected, 1);
    app.handle_event(Key::PageDown, false);
    assert_eq!(app.browser.selected, 3);
    app.handle_event(Key::PageUp, false);
    assert_eq!(app.browser.selected, 0);
    app.handle_event(Key::End, false);
    assert_eq!(app.browser.selected, 3);
    app.handle_event(Key::Home, false);
    assert_eq!(app.browser.selected, 0);
    assert_eq!(app.stream_selected, 0);
}

#[test]
fn enter_plays_the_selected_stream() {
    let mut app = sample_app();
    app.handle_event(Key::Down, false);
    match app.handle_event(Key::Enter, false) {
        Effect::Send(PlayerCommand::PlayStream { name, url }) => {
            assert_eq!(name, "Two");
            assert_eq!(url, "http://a.example/two");
        }
        _ => panic!("expected a stream to play"),
    }
}

#[test]
fn enter_in_the_files_panel_opens_what_is_selected() {
    let mut app = sample_app();
    app.handle_event(Key::Tab, false);
    app.handle_event(Key::Down, false);
    match app.handle_event(Key::Enter, false) {
        Effect::OpenDir(p) => assert_eq!(p, "/home/me/Music/album"),
        _ => panic!("expected a directory"),
    }
    app.handle_event(Key::Down, false);
    match app.handle_event(Key::Enter, false) {
        Effect::OpenPlaylist(p) => assert_eq!(p, "/home/me/Music/radio.m3u"),
        _ => panic!("expected a playlist"),
    }
    app.handle_event(Key::Down, false);
    match app.handle_event(Key::Enter, false) {
        Effect::Send(PlayerCommand::PlayLocal(p)) => assert_eq!(p, "/home/me/Music/song.mp3"),
        _ => panic!("expected a file to play"),
    }
}

#[test]
fn player_keys_send_commands() {
    let mut app = sample_app();
    assert!(matches!(app.handle_event(Key::Char(' '), true), Effect::Send(PlayerCommand::Pause)));
    assert!(matches!(app.handle_event(Key::Char(' '), false), Effect::Send(PlayerCommand::Resume)));
    assert!(matches!(app.handle_event(Key::Char('s'), false), Effect::Send(PlayerCommand::Stop)));
    assert!(matches!(app.handle_event(Key::Char('S'), false), Effect::Send(PlayerCommand::Stop)));
    assert!(matches!(app.handle_event(Key::Char('+'), false), Effect::Send(PlayerCommand::VolumeUp)));
    assert!(matches!(app.handle_event(Key::Char('='), false), Effect::Send(PlayerCommand::VolumeUp)));
    assert!(matches!(app.handle_event(Key::Char('-'), false), Effect::Send(PlayerCommand::VolumeDown)));
    assert!(!app.should_quit);
}

#[test]
fn q_quits() {
    let mut app = sample_app();
    assert!(matches!(app.handle_event(Key::Char('q'), false), Effect::Send(PlayerCommand::Quit)));
    assert!(app.should_quit);
    let mut app = sample_app();
    assert!(matches!(app.handle_event(Key::Char('Q'), true), Effect::Send(PlayerCommand::Quit)));
    assert!(app.should_quit);
}

#[test]
fn loading_a_playlist_replaces_the_stations() {
    let mut app = sample_app();
    app.handle_event(Key::Tab, false);
    app.handle_event(Key::Down, false);
    app.playlist_loaded(
        "/home/me/Music/radio.m3u",
        Ok(vec![stream("A", "http://x.example/a"), stream("B", "http://x.example/b")]),
    );
    assert!(matches!(app.active_panel, Panel::Streams));
    assert_eq!(app.stream_selected, 0);
    assert_eq!(app.config.streams.len(), 2);
    assert_eq!(app.status_msg.as_deref(), Some("Loaded 2 streams from radio.m3u"));
    match app.handle_event(Key::Enter, false) {
        Effect::Send(PlayerCommand::PlayStream { name, url }) => {
            assert_eq!(name, "A");
            assert_eq!(url, "http://x.example/a");
        }
        _ => panic!("expected the first loaded stream"),
    }
}

#[test]
fn empty_or_unreadable_playlists_only_set_the_status() {
    let mut app = sample_app();
    app.handle_event(Key::Down, false);
    app.playlist_loaded("/m/empty.m3u", Ok(vec![]));
    assert_eq!(app.status_msg.as_deref(), Some("M3U file contained no HTTP streams"));
    assert_eq!(app.config.streams.len(), 3);
    assert_eq!(app.stream_selected, 1);
    app.playlist_loaded("/m/gone.m3u", Err("Cannot read /m/gone.m3u: not found".to_string()));
    assert_eq!(app.status_msg.as_deref(), Some("Cannot read /m/gone.m3u: not found"));
}

#[test]
fn other_keys_clear_the_status() {
    let mut app = sample_app();
    app.playlist_loaded("/m/empty.m3u", Ok(vec![]));
    assert!(app.status_msg.is_some());
    app.handle_event(Key::Tab, false);
    assert!(app.status_msg.is_some());
    assert!(is_nothing(&app.handle_event(Key::Char('x'), false)));
    assert!(app.status_msg.is_none());
    app.playlist_loaded("/m/empty.m3u", Ok(vec![]));
    assert!(is_nothing(&app.handle_event(Key::Other, false)));
    assert!(app.status_msg.is_none());
}
