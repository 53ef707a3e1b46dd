use auddyseus::browser::{is_audio_extension, is_m3u_extension, sort_by_keys};
use auddyseus::browser::{is_audio, is_m3u, sort_by_name, BrowserEntry, Entered, FileBrowser};

fn entry(dir: &str, name: &str, is_dir: bool) -> BrowserEntry {
    BrowserEntry { name: name.to_string(), path: format!("{}/{}", dir, name), is_dir }
}

fn names(b: &FileBrowser) -> Vec<String> {
    b.entries.iter().map(|e| e.name.clone()).collect()
}

fn sample_listing() -> Vec<BrowserEntry> {
    let d = "/home/me/Music";
    vec![
        entry(d, "zeta.mp3", false),
        entry(d, "Beta", true),
        entry(d, ".hidden", true),
        entry(d, "alpha", true),
        entry(d, "notes.txt", false),
        entry(d, "Alpha.FLAC", false),
        entry(d, "list.m3u", false),
        entry(d, ".secret.mp3", false),
        entry(d, "cover.jpg", false),
    ]
}

#[test]
fn audio_and_playlists_are_recognised_by_extension() {
    assert!(is_audio("/music/a.mp3"));
    assert!(is_audio("/music/b.FLAC"));
    for ext in ["ogg", "opus", "m4a", "aac", "wav", "aiff", "wv", "ape"] {
        assert!(is_audio(&format!("x.{}", ext)));
    }
    assert!(!is_audio("/music/c.txt"));
    assert!(!is_audio("/music/noext"));
    assert!(!is_audio("/music/.mp3"));
    assert!(!is_audio("/music/list.m3u"));
    assert!(is_m3u("/music/list.m3u"));
    assert!(is_m3u("/music/List.M3U8"));
    assert!(!is_m3u("/music/a.mp3"));
}

#[test]
fn directories_come_first_then_files_each_by_lowercase_name() {
    let b = FileBrowser::new("/home/me/Music", sample_listing());
    assert_eq!(names(&b), vec!["..", "alpha", "Beta", "Alpha.FLAC", "list.m3u", "zeta.mp3"]);
    assert_eq!(b.entries[0].path, "/home/me");
    assert!(b.entries[0].is_dir);
    assert_eq!(b.current_dir, "/home/me/Music");
    assert_eq!(b.selected, 0);
}

#[test]
fn the_root_has_no_parent_entry() {
    let b = FileBrowser::new("/", vec![entry("", "etc", true)]);
    assert_eq!(names(&b), vec!["etc"]);
}

#[test]
fn sorting_keeps_the_order_of_equal_keys() {
    let items = vec![
        entry("/d", "b", false),
        entry("/d", "A", false),
        entry("/d", "a", false),
        entry("/d", "B", false),
    ];
    let sorted: Vec<String> = sort_by_name(&items).iter().map(|e| e.name.clone()).collect();
    assert_eq!(sorted, vec!["A", "a", "b", "B"]);
}

#[test]
fn navigation_stays_within_the_list() {
    let mut b = FileBrowser::new("/home/me/Music", sample_listing());
    b.move_up();
    assert_eq!(b.selected, 0);
    b.move_down();
    b.move_down();
    assert_eq!(b.selected, 2);
    b.move_up();
    assert_eq!(b.selected, 1);
    b.page_down(10);
    assert_eq!(b.selected, 5);
    b.move_down();
    assert_eq!(b.selected, 5);
    b.page_up(3);
    assert_eq!(b.selected, 2);
    b.page_up(10);
    assert_eq!(b.selected, 0);
    b.go_bottom();
    assert_eq!(b.selected, 5);
    b.go_top();
    assert_eq!(b.selected, 0);
}

#[test]
fn an_empty_directory_keeps_the_selection_at_zero() {
    let mut b = FileBrowser::new("/", vec![]);
    assert!(b.entries.is_empty());
    b.go_bottom();
    b.page_down(10);
    b.move_down();
    assert_eq!(b.selected, 0);
    assert!(matches!(b.enter(), Entered::Nothing));
}

#[test]
fn entering_says_what_the_selection_is() {
    let mut b = FileBrowser::new("/home/me/Music", sample_listing());
    match b.enter() {
        Entered::Directory(p) => assert_eq!(p, "/home/me"),
        _ => panic!("expected the parent directory"),
    }
    b.move_down();
    match b.enter() {
        Entered::Directory(p) => assert_eq!(p, "/home/me/Music/alpha"),
        _ => panic!("expected a directory"),
    }
    b.go_bottom();
    match b.enter() {
        Entered::File(p) => assert_eq!(p, "/home/me/Music/zeta.mp3"),
        _ => panic!("expected a file"),
    }
}

#[test]
fn loading_a_directory_resets_the_selection() {
    let mut b = FileBrowser::new("/home/me/Music", sample_listing());
    b.go_bottom();
    b.load_dir("/home/me/Music/alpha", vec![entry("/home/me/Music/alpha", "t.ogg", false)]);
    assert_eq!(b.selected, 0);
    assert_eq!(b.current_dir, "/home/me/Music/alpha");
    assert_eq!(names(&b), vec!["..", "t.ogg"]);
    assert_eq!(b.entries[0].path, "/home/me/Music");
}

#[test]
fn sorting_by_given_keys() {
    let items = vec![entry("/d", "x", false), entry("/d", "y", false), entry("/d", "z", false)];
    let keys: Vec<Vec<char>> = vec!["b".chars().collect(), "a".chars().collect(), "b".chars().collect()];
    let sorted: Vec<String> = sort_by_keys(&items, &keys).iter().map(|e| e.name.clone()).collect();
    assert_eq!(sorted, vec!["y", "x", "z"]);
    let keys: Vec<Vec<char>> = vec!["ab".chars().collect(), "a".chars().collect(), "".chars().collect()];
    let sorted: Vec<String> = sort_by_keys(&items, &keys).iter().map(|e| e.name.clone()).collect();
    assert_eq!(sorted, vec!["z", "y", "x"]);
    assert!(is_audio_extension("wv"));
    assert!(!is_audio_extension("MP3"));
    assert!(is_m3u_extension("m3u8"));
    assert!(!is_m3u_extension("pls"));
}

fn views(b: &FileBrowser) -> Vec<(String, String, bool)> {
    b.entries.iter().map(|e| (e.name.clone(), e.path.clone(), e.is_dir)).collect()
}

#[test]
fn into_a_subdirectory_and_back_by_its_parent_entry() {
    let mut b = FileBrowser::new("/home/me/Music", sample_listing());
    let before = views(&b);
    b.move_down();
    let sub = match b.enter() {
        Entered::Directory(p) => p,
        _ => panic!("expected a directory"),
    };
    b.load_dir(&sub, vec![entry(&sub, "t.ogg", false)]);
    b.go_top();
    let back = match b.enter() {
        Entered::Directory(p) => p,
        _ => panic!("expected the parent entry"),
    };
    assert_eq!(back, "/home/me/Music");
    b.load_dir(&back, sample_listing());
    assert_eq!(b.current_dir, "/home/me/Music");
    assert_eq!(b.selected, 0);
    assert_eq!(views(&b), before);
}
