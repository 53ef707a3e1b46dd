use auddyseus::config::Stream;
use auddyseus::m3u::parse_m3u;

fn pairs(streams: &[Stream]) -> Vec<(String, String)> {
    streams.iter().map(|s| (s.name.clone(), s.url.clone())).collect()
}

fn pair(name: &str, url: &str) -> (String, String) {
    (name.to_string(), url.to_string())
}

#[test]
fn bare_urls_are_named_after_their_last_segment() {
    let text = "http://ice1.somafm.com/groovesalad-128-mp3\nhttps://example.com/radio/live.mp3\n";
    assert_eq!(
        pairs(&parse_m3u(text)),
        vec![
            pair("groovesalad-128-mp3", "http://ice1.somafm.com/groovesalad-128-mp3"),
            pair("live.mp3", "https://example.com/radio/live.mp3"),
        ]
    );
}

#[test]
fn extinf_titles_name_the_next_stream() {
    let text = "#EXTM3U\n#EXTINF:-1,Groove Salad\nhttp://ice1.somafm.com/groovesalad-128-mp3\n#EXTINF:-1, Drone Zone \nhttp://ice1.somafm.com/dronezone-128-mp3\n";
    assert_eq!(
        pairs(&parse_m3u(text)),
        vec![
            pair("Groove Salad", "http://ice1.somafm.com/groovesalad-128-mp3"),
            pair("Drone Zone", "http://ice1.somafm.com/dronezone-128-mp3"),
        ]
    );
}

#[test]
fn a_title_is_used_once() {
    let text = "#EXTINF:-1,First\nhttp://a.example/one\nhttp://a.example/two\n";
    assert_eq!(
        pairs(&parse_m3u(text)),
        vec![pair("First", "http://a.example/one"), pair("two", "http://a.example/two")]
    );
}

#[test]
fn titles_without_comma_or_empty_are_ignored() {
    let text = "#EXTINF:-1,Kept\n#EXTINF:no comma here\n#EXTINF:-1,   \nhttp://a.example/s\n";
    assert_eq!(pairs(&parse_m3u(text)), vec![pair("Kept", "http://a.example/s")]);
}

#[test]
fn the_title_is_everything_after_the_first_comma() {
    let text = "#EXTINF:-1,Artist, Song\nhttp://a.example/s\n";
    assert_eq!(pairs(&parse_m3u(text)), vec![pair("Artist, Song", "http://a.example/s")]);
}

#[test]
fn directives_keep_the_title_for_the_next_entry() {
    let text = "#EXTINF:-1,Station\n#EXTVLCOPT:network-caching=1000\nhttp://radio.example/stream\n";
    assert_eq!(pairs(&parse_m3u(text)), vec![pair("Station", "http://radio.example/stream")]);
}

#[test]
fn a_skipped_local_entry_takes_its_title_with_it() {
    let text = "#EXTINF:-1,Local Song\n/music/song.mp3\nhttp://example.com/live\n";
    assert_eq!(pairs(&parse_m3u(text)), vec![pair("live", "http://example.com/live")]);
}

#[test]
fn crlf_lines_and_surrounding_space_are_trimmed() {
    let text = "#EXTM3U\r\n#EXTINF:-1,Lush\r\n   http://ice1.somafm.com/lush-128-mp3  \r\n";
    assert_eq!(
        pairs(&parse_m3u(text)),
        vec![pair("Lush", "http://ice1.somafm.com/lush-128-mp3")]
    );
}

#[test]
fn derived_names_drop_the_query() {
    let text = "http://radio.example/path/live?sid=1&x=/y\nhttp://radio.example/\n";
    assert_eq!(
        pairs(&parse_m3u(text)),
        vec![
            pair("y", "http://radio.example/path/live?sid=1&x=/y"),
            pair("", "http://radio.example/"),
        ]
    );
    assert_eq!(
        pairs(&parse_m3u("https://r.example/a/b.mp3?token=abc")),
        vec![pair("b.mp3", "https://r.example/a/b.mp3?token=abc")]
    );
}

#[test]
fn no_streams_in_empty_or_local_playlists() {
    assert!(parse_m3u("").is_empty());
    assert!(parse_m3u("#EXTM3U\n\n/music/a.flac\nftp://x.example/y\nHTTP://upper.example/z\n").is_empty());
}
