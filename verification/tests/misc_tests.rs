use auddyseus::audio::{fill_step, needs_refill, FillStep, PacketOutcome, PcmBuffer, PipeBuffer};
use auddyseus::browser::BrowserEntry;
use auddyseus::config::{default_notifications, default_stream_list, music_dir_from, Config};
use auddyseus::player::NowPlaying;
use auddyseus::text::{decimal_text, lowercase, same_text};
use auddyseus::ui::{entry_label, files_title, help_line, HelpLine, station_text, status_symbol, stream_label, title_text, truncate, EntryKind};

#[test]
fn defaults_name_six_stations_and_turn_notifications_on() {
    assert!(default_notifications());
    let list = default_stream_list();
    assert_eq!(list.len(), 6);
    assert_eq!(list[0].name, "SomaFM: Groove Salad");
    assert_eq!(list[0].url, "http://ice1.somafm.com/groovesalad-128-mp3");
    assert_eq!(list[5].name, "Radio Paradise (Main)");
    assert_eq!(list[5].url, "http://stream.radioparadise.com/mp3-128");
    let c = Config::with_music_dir("/m".to_string());
    assert_eq!(c.music_dir, "/m");
    assert!(c.notifications);
    assert_eq!(c.streams.len(), 6);
}

#[test]
fn the_music_dir_falls_back_to_home_then_here() {
    assert_eq!(music_dir_from(Some("/a".to_string()), Some("/h".to_string())), "/a");
    assert_eq!(music_dir_from(None, Some("/h".to_string())), "/h");
    assert_eq!(music_dir_from(None, None), ".");
}

#[test]
fn truncate_keeps_the_end() {
    assert_eq!(truncate("/home/me/Music", 100), "/home/me/Music");
    assert_eq!(truncate("/home/me/Music", 5), "Music");
    assert_eq!(truncate("/home/me/Music", 0), "");
    assert_eq!(truncate("/a/Ünï", 3), "nï");
    assert_eq!(truncate("/a/Ünï", 5), "Ünï");
}

#[test]
fn now_playing_texts() {
    let mut np = NowPlaying::new();
    assert_eq!(status_symbol(true), "▶");
    assert_eq!(status_symbol(false), "⏹");
    assert_eq!(title_text(&np), "—");
    assert_eq!(station_text(&np), "");
    np.show_title("Lush", "Song");
    assert_eq!(title_text(&np), "Song");
    assert_eq!(station_text(&np), "  [Lush]");
    assert_eq!(stream_label("Lush"), " Lush");
    assert_eq!(files_title("/m"), " Files: /m ");
}

#[test]
fn file_lines_are_marked_by_kind() {
    let dir = BrowserEntry { name: "album".to_string(), path: "/m/album".to_string(), is_dir: true };
    let list = BrowserEntry { name: "r.M3U".to_string(), path: "/m/r.M3U".to_string(), is_dir: false };
    let song = BrowserEntry { name: "s.ogg".to_string(), path: "/m/s.ogg".to_string(), is_dir: false };
    let (k, t) = entry_label(&dir);
    assert!(matches!(k, EntryKind::Directory));
    assert_eq!(t, "📁 album");
    let (k, t) = entry_label(&list);
    assert!(matches!(k, EntryKind::Playlist));
    assert_eq!(t, "≋  r.M3U");
    let (k, t) = entry_label(&song);
    assert!(matches!(k, EntryKind::Audio));
    assert_eq!(t, "♪  s.ogg");
}

#[test]
fn the_pipe_hands_bytes_over_in_order() {
    let mut p = PipeBuffer::new();
    assert!(p.is_empty());
    p.refill(&vec![1, 2, 3]);
    p.refill(&vec![4, 5]);
    assert_eq!(p.take(2), vec![1, 2]);
    assert_eq!(p.take(10), vec![3, 4, 5]);
    assert!(p.is_empty());
    assert_eq!(p.take(4), Vec::<u8>::new());
}

#[test]
fn topping_up_stops_at_the_target_or_at_the_end() {
    assert!(needs_refill(0));
    assert!(needs_refill(2047));
    assert!(!needs_refill(2048));
    assert!(matches!(fill_step(100, 44100, PacketOutcome::Decoded), FillStep::Continue));
    assert!(matches!(fill_step(100, 44100, PacketOutcome::OtherTrack), FillStep::Continue));
    assert!(matches!(fill_step(100, 44100, PacketOutcome::Damaged), FillStep::Continue));
    assert!(matches!(fill_step(44100, 44100, PacketOutcome::Decoded), FillStep::Done(true)));
    assert!(matches!(fill_step(0, 44100, PacketOutcome::NoPacket), FillStep::Done(false)));
    assert!(matches!(fill_step(7, 44100, PacketOutcome::DecoderFailed), FillStep::Done(true)));
}

#[test]
fn raw_samples_are_signed_little_endian() {
    let mut pcm = PcmBuffer::new();
    assert!(pcm.samples.is_empty());
    assert!(pcm.exhausted());
    assert_eq!(pcm.next_sample(), None);
    let bytes = [0x01, 0x00, 0xff, 0x7f, 0x00, 0x80, 0xff, 0xff, 0x42];
    assert!(pcm.fill_from(&bytes, 9));
    assert_eq!(pcm.samples, vec![1, 32767, -32768, -1]);
    assert_eq!(pcm.carry, Some(0x42));
    assert_eq!(pcm.next_sample(), Some(1));
    assert_eq!(pcm.next_sample(), Some(32767));
    assert_eq!(pcm.next_sample(), Some(-32768));
    assert_eq!(pcm.next_sample(), Some(-1));
    assert!(pcm.exhausted());
    assert_eq!(pcm.next_sample(), None);
    assert!(!pcm.fill_from(&bytes, 0));
    assert!(pcm.done);
    assert_eq!(pcm.next_sample(), None);
    assert!(!pcm.fill_from(&bytes, 4));
}

#[test]
fn an_odd_byte_waits_for_the_next_read() {
    let mut pcm = PcmBuffer::new();
    // 0x1234 and 0x0201, split across reads at odd places.
    assert!(pcm.fill_from(&[0x34], 1));
    assert!(pcm.samples.is_empty());
    assert!(pcm.exhausted());
    assert!(pcm.fill_from(&[0x12, 0x01, 0xff], 2));
    assert_eq!(pcm.samples, vec![0x1234]);
    assert_eq!(pcm.carry, Some(0x01));
    assert!(pcm.fill_from(&[0x02], 1));
    assert_eq!(pcm.samples, vec![0x0201]);
    assert_eq!(pcm.carry, None);
}

#[test]
fn the_pipe_hands_bytes_over_across_reads() {
    let mut pipe = PipeBuffer::new();
    let mut out: Vec<u8> = Vec::new();
    pipe.refill(&vec![1, 2, 3]);
    out.extend(pipe.take(2));
    pipe.refill(&vec![4]);
    out.extend(pipe.take(10));
    pipe.refill(&vec![5, 6]);
    out.extend(pipe.take(1));
    out.extend(pipe.take(1));
    assert_eq!(out, vec![1, 2, 3, 4, 5, 6]);
    assert!(pipe.is_empty());
}

#[test]
fn text_helpers() {
    assert_eq!(decimal_text(0), "0");
    assert_eq!(decimal_text(7), "7");
    assert_eq!(decimal_text(1234567890), "1234567890");
    assert_eq!(lowercase("MiXeD Ü"), "mixed ü");
    assert!(same_text("abc", "abc"));
    assert!(!same_text("abc", "abd"));
    assert!(!same_text("abc", "ab"));
}

#[test]
fn the_help_line_shows_the_status_while_there_is_one() {
    match help_line(&Some("Loaded 3 streams".to_string())) {
        HelpLine::Status(m) => assert_eq!(m, "Loaded 3 streams"),
        HelpLine::Keys => panic!("expected the status"),
    }
    assert!(matches!(help_line(&None), HelpLine::Keys));
}
