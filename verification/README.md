# auddyseus

A terminal music player for Linux: internet radio (Icecast/SHOUTcast, with
ICY metadata) and local files, M3U playlists, desktop notifications.

The crate is in two parts.

- `src/` is the library, verified with Verus: the M3U parser, the ICY
  metadata framing and title extraction, the file browser (listing, order,
  navigation), the key handling of the application, the player's decisions
  (decoder route, now-playing line), the bookkeeping of the audio buffers and
  the texts the screen shows. Each public function carries its contract.
- `app/` is the program around it: the terminal (crossterm, ratatui), the
  audio output (rodio, symphonia, ffmpeg), the network (reqwest), desktop
  notifications (notify-rust), the configuration file (serde, toml) and the
  file system. It hands the library plain values and carries out the effects
  the library asks for.

Modules of the library:

| module    | what it holds                                                     |
|-----------|-------------------------------------------------------------------|
| `text`    | character-level text operations and their specifications          |
| `paths`   | the parts of a path, as `std::path::Path` gives them              |
| `config`  | streams, the configuration and its defaults                       |
| `m3u`     | the playlist parser                                               |
| `icy`     | ICY metadata: interval header, framing, title, announcements      |
| `browser` | the file browser                                                  |
| `player`  | commands, decoder routes, the now-playing line                    |
| `app`     | the application state and what each key does                      |
| `audio`   | the network pipe, decoder top-up decisions, raw 16-bit samples    |
| `ui`      | the texts of the screen                                           |
