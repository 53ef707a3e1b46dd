use auddyseus::icy::{metadata_len, parse_icy_title, parse_metaint, IcyReader};

#[test]
fn stream_title_is_extracted() {
    assert_eq!(parse_icy_title("StreamTitle='Artist - Song';StreamUrl='http://x';"), "Artist - Song");
}

#[test]
fn nul_padding_and_spaces_are_ignored() {
    assert_eq!(parse_icy_title("StreamTitle='Boards of Canada - Roygbiv';\0\0\0\0"), "Boards of Canada - Roygbiv");
    assert_eq!(parse_icy_title("  StreamUrl='';  StreamTitle='A';"), "A");
    assert_eq!(parse_icy_title("StreamTitle='Tail'\0\0"), "Tail");
}

#[test]
fn first_title_wins_and_quotes_are_stripped() {
    assert_eq!(parse_icy_title("StreamTitle=''Quoted'';StreamTitle='Second';"), "Quoted");
    assert_eq!(parse_icy_title("StreamTitle=NoQuotes"), "NoQuotes");
}

#[test]
fn a_semicolon_inside_the_quotes_belongs_to_the_title() {
    assert_eq!(parse_icy_title("StreamTitle='Artist; Friend - Song';"), "Artist; Friend - Song");
    assert_eq!(
        parse_icy_title("StreamTitle='A;B;C';StreamUrl='http://x';\0\0"),
        "A;B;C"
    );
    assert_eq!(parse_icy_title("StreamTitle='Rock; Roll'\0\0"), "Rock; Roll");
    assert_eq!(parse_icy_title("StreamTitle='';StreamUrl='x';"), "");
}

#[test]
fn the_title_ends_at_the_quote_that_ends_its_field() {
    assert_eq!(parse_icy_title("StreamTitle='A' ;StreamUrl='u';"), "A");
    assert_eq!(parse_icy_title("StreamTitle='A; B'\0\0;StreamUrl='u';"), "A; B");
    assert_eq!(parse_icy_title("StreamTitle='Guns N' Roses - Yesterdays';"), "Guns N' Roses - Yesterdays");
    assert_eq!(parse_icy_title("StreamTitle='Tail' \0"), "Tail");
}

#[test]
fn no_title_gives_empty_text() {
    assert_eq!(parse_icy_title("StreamUrl='http://x';"), "");
    assert_eq!(parse_icy_title(""), "");
    assert_eq!(parse_icy_title("streamtitle='lower';"), "");
}

#[test]
fn metadata_blocks_are_sixteen_bytes_per_unit() {
    assert_eq!(metadata_len(0), 0);
    assert_eq!(metadata_len(2), 32);
    assert_eq!(metadata_len(255), 4080);
}

#[test]
fn metaint_header_is_a_decimal_number() {
    assert_eq!(parse_metaint(Some("16000")), 16000);
    assert_eq!(parse_metaint(Some("+8192")), 8192);
    assert_eq!(parse_metaint(Some("0")), 0);
    assert_eq!(parse_metaint(Some("")), 0);
    assert_eq!(parse_metaint(Some("+")), 0);
    assert_eq!(parse_metaint(Some("-5")), 0);
    assert_eq!(parse_metaint(Some("12a")), 0);
    assert_eq!(parse_metaint(Some(" 12")), 0);
    assert_eq!(parse_metaint(Some("99999999999999999999999")), 0);
    assert_eq!(parse_metaint(Some("18446744073709551615")), usize::MAX);
    assert_eq!(parse_metaint(None), 0);
}

#[test]
fn reads_stop_at_the_metadata_block() {
    let mut r = IcyReader::new(10000);
    assert_eq!(r.read_len(8192), 8192);
    assert!(!r.consumed(8192));
    assert_eq!(r.since_meta, 8192);
    assert_eq!(r.read_len(8192), 1808);
    assert!(!r.consumed(1000));
    assert_eq!(r.read_len(8192), 808);
    assert!(r.consumed(808));
    assert_eq!(r.since_meta, 0);
    assert_eq!(r.read_len(4096), 4096);
}

#[test]
fn a_read_past_the_interval_still_brings_the_block() {
    let mut r = IcyReader::new(100);
    assert!(!r.consumed(60));
    assert!(r.consumed(50));
    assert_eq!(r.since_meta, 0);
}

#[test]
fn without_metadata_reads_fill_the_buffer() {
    let mut r = IcyReader::new(0);
    assert_eq!(r.read_len(8192), 8192);
    assert!(!r.consumed(8192));
    assert_eq!(r.read_len(8192), 8192);
}

#[test]
fn each_new_title_is_announced_once() {
    let mut r = IcyReader::new(16000);
    let block = b"StreamTitle='One';\0\0\0\0\0\0\0\0\0\0\0\0\0\0";
    assert_eq!(r.title_update(block), Some("One".to_string()));
    assert_eq!(r.last_title, "One");
    assert_eq!(r.title_update(block), None);
    assert_eq!(r.title_update(b"StreamTitle='';"), None);
    assert_eq!(r.title_update(b"StreamUrl='x';"), None);
    assert_eq!(r.title_update(&[0xff, 0xfe, 0x53]), None);
    assert_eq!(r.last_title, "One");
    assert_eq!(r.title_update(b"StreamTitle='Two';"), Some("Two".to_string()));
    assert_eq!(r.title_update(b"StreamTitle='One';"), Some("One".to_string()));
}

#[test]
fn a_block_follows_every_interval_of_audio() {
    let mut r = IcyReader::new(5);
    let mut dues = Vec::new();
    let mut total = 0;
    for _ in 0..6 {
        let n = r.read_len(3);
        total += n;
        dues.push((n, r.consumed(n), total % 5 == 0));
    }
    assert_eq!(
        dues,
        vec![(3, false, false), (2, true, true), (3, false, false), (2, true, true), (3, false, false), (2, true, true)]
    );
}
