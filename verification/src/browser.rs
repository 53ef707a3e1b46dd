//! The file browser: the entries of one directory, directories first,
//! each group in order of lowercase name, and a selection among them.
use vstd::prelude::*;
use crate::paths::{extension_of, parent_of, path_extension, path_parent};
use crate::text::{
    chars_of, lex_less, lex_lt, lemma_lex_asymmetric, lemma_lex_irreflexive, lemma_lex_total,
    lemma_lex_transitive, lowercase, lowercased, owned, same_text,
};

verus! {

/// One line of the browser: a directory (`..` among them) or a playable
/// file.
pub struct BrowserEntry {
    pub name: String,
    pub path: String,
    pub is_dir: bool,
}

impl BrowserEntry {
    /// A copy of the entry.
    pub fn duplicate(&self) -> (r: BrowserEntry)
        ensures
            r == *self,
    {
        BrowserEntry { name: self.name.clone(), path: self.path.clone(), is_dir: self.is_dir }
    }
}

/// What choosing the selected entry leads to.
pub enum Entered {
    /// The directory at this path is to be listed.
    Directory(String),
    /// The file at this path is to be opened.
    File(String),
    /// There is no entry to choose.
    Nothing,
}

/// The extensions, in lowercase, of the audio files that are listed.
pub open spec fn audio_extension(e: Seq<char>) -> bool {
    ||| e == "mp3"@
    ||| e == "flac"@
    ||| e == "ogg"@
    ||| e == "opus"@
    ||| e == "m4a"@
    ||| e == "aac"@
    ||| e == "wav"@
    ||| e == "aiff"@
    ||| e == "wv"@
    ||| e == "ape"@
}

/// The extensions, in lowercase, of playlists.
pub open spec fn m3u_extension(e: Seq<char>) -> bool {
    e == "m3u"@ || e == "m3u8"@
}

/// A path whose extension, in lowercase, is that of an audio file.
pub open spec fn is_audio_path(path: Seq<char>) -> bool {
    match extension_of(path) {
        Some(e) => audio_extension(lowercased(e)),
        None => false,
    }
}

/// A path whose extension, in lowercase, is that of a playlist.
pub open spec fn is_m3u_path(path: Seq<char>) -> bool {
    match extension_of(path) {
        Some(e) => m3u_extension(lowercased(e)),
        None => false,
    }
}

/// Whether a lowercase extension is that of an audio file.
pub fn is_audio_extension(ext: &str) -> (r: bool)
    ensures
        r == audio_extension(ext@),
{
    same_text(ext, "mp3") || same_text(ext, "flac") || same_text(ext, "ogg") || same_text(
        ext,
        "opus",
    ) || same_text(ext, "m4a") || same_text(ext, "aac") || same_text(ext, "wav") || same_text(
        ext,
        "aiff",
    ) || same_text(ext, "wv") || same_text(ext, "ape")
}

/// Whether a lowercase extension is that of a playlist.
pub fn is_m3u_extension(ext: &str) -> (r: bool)
    ensures
        r == m3u_extension(ext@),
{
    same_text(ext, "m3u") || same_text(ext, "m3u8")
}

/// Whether the file at `path` is one the player can play, by its extension.
pub fn is_audio(path: &str) -> (r: bool)
    ensures
        r == is_audio_path(path@),
{
    match path_extension(path) {
        Some(e) => is_audio_extension(lowercase(e.as_str()).as_str()),
        None => false,
    }
}

/// Whether the file at `path` is an M3U playlist, by its extension.
pub fn is_m3u(path: &str) -> (r: bool)
    ensures
        r == is_m3u_path(path@),
{
    match path_extension(path) {
        Some(e) => is_m3u_extension(lowercase(e.as_str()).as_str()),
        None => false,
    }
}

/// The key that entries are ordered by: the name in lowercase.
pub open spec fn name_key(e: BrowserEntry) -> Seq<char> {
    lowercased(e.name@)
}

/// The keys of a sequence of entries.
pub open spec fn name_keys(inp: Seq<BrowserEntry>) -> Seq<Seq<char>> {
    inp.map_values(|e: BrowserEntry| name_key(e))
}

/// The texts of a sequence of character vectors.
pub open spec fn texts(v: Seq<Vec<char>>) -> Seq<Seq<char>> {
    v.map_values(|k: Vec<char>| k@)
}

/// Item `ia` comes before item `ib`, where `keys` are the items' keys:
/// its key comes first, or the keys are the same and it came first.
pub open spec fn precedes(keys: Seq<Seq<char>>, ia: int, ib: int) -> bool {
    lex_lt(keys[ia], keys[ib]) || (keys[ia] == keys[ib] && ia < ib)
}

/// `out` holds the first `n` items of `inp`, item `k` of `out` being item
/// `pos[k]` of `inp`, each once, in the order of `precedes`.
pub open spec fn arranged_upto(
    out: Seq<BrowserEntry>,
    inp: Seq<BrowserEntry>,
    keys: Seq<Seq<char>>,
    pos: Seq<int>,
    n: int,
) -> bool {
    &&& 0 <= n <= inp.len()
    &&& out.len() == n
    &&& pos.len() == n
    &&& forall|k: int| 0 <= k < n ==> 0 <= #[trigger] pos[k] < n && out[k] == inp[pos[k]]
    &&& forall|i: int| 0 <= i < n ==> #[trigger] pos.contains(i)
    &&& forall|a: int, b: int|
        #![trigger pos[a], pos[b]]
        0 <= a < b < n ==> precedes(keys, pos[a], pos[b])
}

/// `out` is `inp` sorted by `keys` (the key of each item of `inp`), items
/// of the same key kept in the order they came in: a stable sort.
pub open spec fn sorted_by_keys(
    out: Seq<BrowserEntry>,
    inp: Seq<BrowserEntry>,
    keys: Seq<Seq<char>>,
) -> bool {
    &&& keys.len() == inp.len()
    &&& exists|pos: Seq<int>| arranged_upto(out, inp, keys, pos, inp.len() as int)
}

/// `out` is `inp` sorted by lowercase name, stably.
pub open spec fn sorted_by_name(out: Seq<BrowserEntry>, inp: Seq<BrowserEntry>) -> bool {
    sorted_by_keys(out, inp, name_keys(inp))
}

proof fn lemma_insert_in_order(
    out: Seq<BrowserEntry>,
    inp: Seq<BrowserEntry>,
    keys: Seq<Seq<char>>,
    pos: Seq<int>,
    n: int,
    p: int,
)
    requires
        arranged_upto(out, inp, keys, pos, n),
        n < inp.len(),
        keys.len() == inp.len(),
        0 <= p <= n,
        forall|a: int| 0 <= a < p ==> !lex_lt(keys[n], keys[#[trigger] pos[a]]),
        p < n ==> lex_lt(keys[n], keys[pos[p]]),
    ensures
        arranged_upto(out.insert(p, inp[n]), inp, keys, pos.insert(p, n), n + 1),
{
    let o2 = out.insert(p, inp[n]);
    let p2 = pos.insert(p, n);
    assert forall|k: int| 0 <= k < n + 1 implies 0 <= #[trigger] p2[k] < n + 1 && o2[k]
        == inp[p2[k]] by {
        if k > p {
            assert(o2[k] == out[k - 1] && p2[k] == pos[k - 1]);
        }
    }
    assert forall|i: int| 0 <= i < n + 1 implies #[trigger] p2.contains(i) by {
        if i == n {
            assert(p2[p] == n);
        } else {
            assert(pos.contains(i));
            let k = choose|k: int| 0 <= k < pos.len() && pos[k] == i;
            if k < p {
                assert(p2[k] == i);
            } else {
                assert(p2[k + 1] == i);
            }
        }
    }
    assert forall|a: int, b: int| 0 <= a < b < n + 1 implies precedes(
        keys,
        #[trigger] p2[a],
        #[trigger] p2[b],
    ) by {
        if b < p {
            assert(precedes(keys, pos[a], pos[b]));
        } else if b == p {
            lemma_lex_total(keys[n], keys[pos[a]]);
            assert(!lex_lt(keys[n], keys[pos[a]]));
            assert(0 <= pos[a] < n);
        } else if a < p {
            assert(precedes(keys, pos[a], pos[b - 1]));
        } else if a == p {
            if b - 1 > p {
                assert(precedes(keys, pos[p], pos[b - 1]));
                if lex_lt(keys[pos[p]], keys[pos[b - 1]]) {
                    lemma_lex_transitive(keys[n], keys[pos[p]], keys[pos[b - 1]]);
                }
            }
        } else {
            assert(precedes(keys, pos[a - 1], pos[b - 1]));
        }
    }
}

/// The items sorted by their keys (`keys[i]` that of `items[i]`),
/// keeping the order of items with the same key.
pub fn sort_by_keys(items: &Vec<BrowserEntry>, keys: &Vec<Vec<char>>) -> (out: Vec<BrowserEntry>)
    requires
        keys.len() == items.len(),
    ensures
        out.len() == items.len(),
        sorted_by_keys(out@, items@, texts(keys@)),
{
    let ghost ks = texts(keys@);
    let mut out: Vec<BrowserEntry> = Vec::new();
    let mut out_keys: Vec<Vec<char>> = Vec::new();
    let ghost mut pos: Seq<int> = Seq::empty();
    let mut i: usize = 0;
    while i < items.len()
        invariant
            i <= items.len(),
            keys.len() == items.len(),
            ks == texts(keys@),
            arranged_upto(out@, items@, ks, pos, i as int),
            out_keys.len() == out.len(),
            forall|k: int| 0 <= k < out_keys.len() ==> (#[trigger] out_keys@[k])@ == ks[pos[k]],
        decreases items.len() - i,
    {
        let x = items[i].duplicate();
        let kx = keys[i].clone();
        assert(kx@ == ks[i as int]);
        let mut p: usize = 0;
        while p < out.len() && !lex_less(&kx, &out_keys[p])
            invariant
                p <= out.len(),
                out_keys.len() == out.len(),
                pos.len() == out.len(),
                forall|k: int| 0 <= k < out_keys.len() ==> (#[trigger] out_keys@[k])@ == ks[pos[k]],
                kx@ == ks[i as int],
                forall|a: int| 0 <= a < p ==> !lex_lt(ks[i as int], ks[#[trigger] pos[a]]),
            decreases out.len() - p,
        {
            assert(out_keys@[p as int]@ == ks[pos[p as int]]);
            p = p + 1;
        }
        proof {
            if p < out.len() {
                assert(out_keys@[p as int]@ == ks[pos[p as int]]);
            }
            lemma_insert_in_order(out@, items@, ks, pos, i as int, p as int);
        }
        let ghost keys_before = out_keys@;
        let ghost pos_before = pos;
        proof {
            pos = pos.insert(p as int, i as int);
        }
        out.insert(p, x);
        out_keys.insert(p, kx);
        proof {
            assert forall|k: int| 0 <= k < out_keys.len() implies (#[trigger] out_keys@[k])@
                == ks[pos[k]] by {
                if k > p {
                    assert(out_keys@[k] == keys_before[k - 1]);
                    assert(pos[k] == pos_before[k - 1]);
                } else if k < p {
                    assert(out_keys@[k] == keys_before[k]);
                    assert(pos[k] == pos_before[k]);
                }
            }
        }
        i = i + 1;
    }
    out
}

/// The entries sorted by lowercase name, keeping the order of entries with
/// the same key.
pub fn sort_by_name(items: &Vec<BrowserEntry>) -> (out: Vec<BrowserEntry>)
    ensures
        out.len() == items.len(),
        sorted_by_name(out@, items@),
{
    let mut keys: Vec<Vec<char>> = Vec::new();
    let mut i: usize = 0;
    while i < items.len()
        invariant
            i <= items.len(),
            keys.len() == i,
            forall|k: int| 0 <= k < i ==> (#[trigger] keys@[k])@ == name_key(items@[k]),
        decreases items.len() - i,
    {
        keys.push(chars_of(lowercase(items[i].name.as_str()).as_str()));
        i = i + 1;
    }
    assert(texts(keys@) =~= name_keys(items@));
    sort_by_keys(items, &keys)
}

/// An entry that is shown: its name does not begin with `.`.
pub open spec fn is_visible(e: BrowserEntry) -> bool {
    !(e.name@.len() > 0 && e.name@[0] == '.')
}

pub open spec fn is_shown_dir(e: BrowserEntry) -> bool {
    is_visible(e) && e.is_dir
}

pub open spec fn is_shown_file(e: BrowserEntry) -> bool {
    is_visible(e) && !e.is_dir && (is_audio_path(e.path@) || is_m3u_path(e.path@))
}

/// The subdirectories of a listing that are shown, in listing order.
pub open spec fn shown_dirs(listing: Seq<BrowserEntry>) -> Seq<BrowserEntry> {
    listing.filter(|e: BrowserEntry| is_shown_dir(e))
}

/// The files of a listing that are shown, in listing order.
pub open spec fn shown_files(listing: Seq<BrowserEntry>) -> Seq<BrowserEntry> {
    listing.filter(|e: BrowserEntry| is_shown_file(e))
}

/// How many entries lead up: one `..` unless the directory is a root.
pub open spec fn up_count(dir: Seq<char>) -> int {
    if parent_of(dir) is Some {
        1
    } else {
        0
    }
}

/// `entries` is what the browser shows for the directory `dir` whose
/// contents are `listing`: `..` leading to the parent, if there is one,
/// then the shown subdirectories, then the shown files, each group sorted
/// by lowercase name.
pub open spec fn shows(entries: Seq<BrowserEntry>, dir: Seq<char>, listing: Seq<BrowserEntry>) -> bool {
    let up = up_count(dir);
    let nd = shown_dirs(listing).len() as int;
    let nf = shown_files(listing).len() as int;
    &&& entries.len() == up + nd + nf
    &&& match parent_of(dir) {
        Some(pp) => entries[0].name@ == ".."@ && entries[0].path@ == pp && entries[0].is_dir,
        None => true,
    }
    &&& sorted_by_name(entries.subrange(up, up + nd), shown_dirs(listing))
    &&& sorted_by_name(entries.subrange(up + nd, up + nd + nf), shown_files(listing))
}

/// The files and directories that the browser shows of a directory.
pub struct FileBrowser {
    pub current_dir: String,
    pub entries: Vec<BrowserEntry>,
    pub selected: usize,
}

/// The selection after moving up one entry.
pub open spec fn moved_up(sel: int) -> int {
    if sel > 0 {
        sel - 1
    } else {
        sel
    }
}

/// The selection after moving down one entry in a list of `len`.
pub open spec fn moved_down(sel: int, len: int) -> int {
    if sel + 1 < len {
        sel + 1
    } else {
        sel
    }
}

/// The selection after paging up by `page`.
pub open spec fn paged_up(sel: int, page: int) -> int {
    if sel >= page {
        sel - page
    } else {
        0
    }
}

/// The selection after paging down by `page` in a list of `len`.
pub open spec fn paged_down(sel: int, page: int, len: int) -> int {
    let last = if len > 0 {
        len - 1
    } else {
        0
    };
    if sel + page <= last {
        sel + page
    } else {
        last
    }
}

/// The selection after going to the bottom of a list of `len`.
pub open spec fn at_bottom(sel: int, len: int) -> int {
    if len > 0 {
        len - 1
    } else {
        sel
    }
}

impl FileBrowser {
    /// The selection is an entry, or 0 when there is none.
    pub open spec fn wf(&self) -> bool {
        if self.entries.len() == 0 {
            self.selected == 0
        } else {
            self.selected < self.entries.len()
        }
    }

    /// A browser showing the directory `root`, whose contents are `listing`.
    pub fn new(root: &str, listing: Vec<BrowserEntry>) -> (b: FileBrowser)
        ensures
            b.wf(),
            b.current_dir@ == root@,
            b.selected == 0,
            shows(b.entries@, root@, listing@),
    {
        let mut browser = FileBrowser { current_dir: owned(root), entries: Vec::new(), selected: 0 };
        browser.load_dir(root, listing);
        browser
    }

    /// Shows the directory `path`, whose contents are `listing`, with the
    /// first entry selected.
    pub fn load_dir(&mut self, path: &str, listing: Vec<BrowserEntry>)
        ensures
            final(self).wf(),
            final(self).current_dir@ == path@,
            final(self).selected == 0,
            shows(final(self).entries@, path@, listing@),
    {
        let mut dirs: Vec<BrowserEntry> = Vec::new();
        let mut files: Vec<BrowserEntry> = Vec::new();
        let mut i: usize = 0;
        assert(listing@.take(0) =~= Seq::<BrowserEntry>::empty());
        proof {
            reveal(Seq::filter);
        }
        while i < listing.len()
            invariant
                i <= listing.len(),
                dirs@ == listing@.take(i as int).filter(|e: BrowserEntry| is_shown_dir(e)),
                files@ == listing@.take(i as int).filter(|e: BrowserEntry| is_shown_file(e)),
            decreases listing.len() - i,
        {
            let e = listing[i].duplicate();
            proof {
                reveal(Seq::filter);
                assert(listing@.take(i + 1).drop_last() =~= listing@.take(i as int));
            }
            let v = chars_of(e.name.as_str());
            let hidden = v.len() > 0 && v[0] == '.';
            if hidden {
            } else if e.is_dir {
                dirs.push(e);
            } else if is_audio(e.path.as_str()) || is_m3u(e.path.as_str()) {
                files.push(e);
            }
            i = i + 1;
        }
        assert(listing@.take(listing.len() as int) =~= listing@);
        let sorted_dirs = sort_by_name(&dirs);
        let sorted_files = sort_by_name(&files);
        let mut entries: Vec<BrowserEntry> = Vec::new();
        match path_parent(path) {
            Some(pp) => {
                entries.push(BrowserEntry { name: owned(".."), path: pp, is_dir: true });
            },
            None => {},
        }
        let up = entries.len();
        let ghost head = entries@;
        let mut k: usize = 0;
        while k < sorted_dirs.len()
            invariant
                up == head.len(),
                up <= 1,
                k <= sorted_dirs.len(),
                entries.len() == up + k,
                forall|j: int| 0 <= j < up ==> entries@[j] == head[j],
                forall|j: int| 0 <= j < k ==> entries@[up + j] == sorted_dirs@[j],
            decreases sorted_dirs.len() - k,
        {
            entries.push(sorted_dirs[k].duplicate());
            k = k + 1;
        }
        let nd = sorted_dirs.len();
        k = 0;
        while k < sorted_files.len()
            invariant
                up == head.len(),
                up <= 1,
                nd == sorted_dirs.len(),
                k <= sorted_files.len(),
                entries.len() == up + nd + k,
                forall|j: int| 0 <= j < up ==> entries@[j] == head[j],
                forall|j: int| 0 <= j < nd ==> entries@[up + j] == sorted_dirs@[j],
                forall|j: int| 0 <= j < k ==> entries@[up + nd + j] == sorted_files@[j],
            decreases sorted_files.len() - k,
        {
            entries.push(sorted_files[k].duplicate());
            k = k + 1;
        }
        proof {
            assert(entries@.subrange(up as int, up + nd) =~= sorted_dirs@);
            assert(entries@.subrange(up + nd, up + nd + sorted_files.len()) =~= sorted_files@);
            assert(dirs@ == shown_dirs(listing@));
            assert(files@ == shown_files(listing@));
            assert(up == up_count(path@));
            match parent_of(path@) {
                Some(pp) => {
                    assert(entries@[0] == head[0]);
                    assert(head[0].name@ == ".."@);
                    assert(head[0].path@ == pp);
                },
                None => {},
            }
        }
        self.entries = entries;
        self.selected = 0;
        self.current_dir = owned(path);
    }
}


impl FileBrowser {
    /// What choosing the selected entry leads to: a directory to list, a
    /// file to open, or nothing when no entry is selected.
    pub fn enter(&self) -> (r: Entered)
        ensures
            self.selected < self.entries.len() ==> match r {
                Entered::Directory(p) => self.entries@[self.selected as int].is_dir
                    && p@ == self.entries@[self.selected as int].path@,
                Entered::File(p) => !self.entries@[self.selected as int].is_dir
                    && p@ == self.entries@[self.selected as int].path@,
                Entered::Nothing => false,
            },
            self.selected >= self.entries.len() ==> r is Nothing,
    {
        if self.selected < self.entries.len() {
            let entry = &self.entries[self.selected];
            if entry.is_dir {
                Entered::Directory(entry.path.clone())
            } else {
                Entered::File(entry.path.clone())
            }
        } else {
            Entered::Nothing
        }
    }

    /// Selects the entry above, if there is one.
    pub fn move_up(&mut self)
        ensures
            final(self).selected == moved_up(old(self).selected as int),
            final(self).entries == old(self).entries,
            final(self).current_dir == old(self).current_dir,
            old(self).wf() ==> final(self).wf(),
    {
        if self.selected > 0 {
            self.selected = self.selected - 1;
        }
    }

    /// Selects the entry below, if there is one.
    pub fn move_down(&mut self)
        requires
            old(self).selected < usize::MAX,
        ensures
            final(self).selected == moved_down(
                old(self).selected as int,
                old(self).entries.len() as int,
            ),
            final(self).entries == old(self).entries,
            final(self).current_dir == old(self).current_dir,
            old(self).wf() ==> final(self).wf(),
    {
        if self.selected + 1 < self.entries.len() {
            self.selected = self.selected + 1;
        }
    }

    /// Moves the selection up by `page_size` entries, stopping at the first.
    pub fn page_up(&mut self, page_size: usize)
        ensures
            final(self).selected == paged_up(old(self).selected as int, page_size as int),
            final(self).entries == old(self).entries,
            final(self).current_dir == old(self).current_dir,
            old(self).wf() ==> final(self).wf(),
    {
        self.selected = self.selected.saturating_sub(page_size);
    }

    /// Moves the selection down by `page_size` entries, stopping at the last.
    pub fn page_down(&mut self, page_size: usize)
        requires
            old(self).selected + page_size <= usize::MAX,
        ensures
            final(self).selected == paged_down(
                old(self).selected as int,
                page_size as int,
                old(self).entries.len() as int,
            ),
            final(self).entries == old(self).entries,
            final(self).current_dir == old(self).current_dir,
            final(self).wf(),
    {
        let last = self.entries.len().saturating_sub(1);
        let target = self.selected + page_size;
        self.selected = if target <= last {
            target
        } else {
            last
        };
    }

    /// Selects the first entry.
    pub fn go_top(&mut self)
        ensures
            final(self).selected == 0,
            final(self).entries == old(self).entries,
            final(self).current_dir == old(self).current_dir,
            final(self).wf(),
    {
        self.selected = 0;
    }

    /// Selects the last entry, if there is one.
    pub fn go_bottom(&mut self)
        ensures
            final(self).selected == at_bottom(
                old(self).selected as int,
                old(self).entries.len() as int,
            ),
            final(self).entries == old(self).entries,
            final(self).current_dir == old(self).current_dir,
            old(self).wf() ==> final(self).wf(),
    {
        if self.entries.len() > 0 {
            self.selected = self.entries.len() - 1;
        }
    }
}

/// Moving down and then up comes back to the same entry, when there was
/// an entry below.
pub proof fn lemma_down_then_up(sel: int, len: int)
    requires
        0 <= sel,
        sel + 1 < len,
    ensures
        moved_up(moved_down(sel, len)) == sel,
{
}

/// Moving up and then down comes back to the same entry, when there was an
/// entry above.
pub proof fn lemma_up_then_down(sel: int, len: int)
    requires
        0 < sel < len,
    ensures
        moved_down(moved_up(sel), len) == sel,
{
}

/// A sorted group lists every entry it was made of, and nothing else, with
/// keys that never go down.
pub proof fn lemma_sorted_by_name(out: Seq<BrowserEntry>, inp: Seq<BrowserEntry>)
    requires
        sorted_by_name(out, inp),
    ensures
        out.len() == inp.len(),
        forall|i: int| 0 <= i < inp.len() ==> out.contains(#[trigger] inp[i]),
        forall|k: int| 0 <= k < out.len() ==> inp.contains(#[trigger] out[k]),
        forall|a: int, b: int|
            0 <= a < b < out.len() ==> !lex_lt(name_key(#[trigger] out[b]), name_key(#[trigger] out[a])),
{
    let keys = name_keys(inp);
    let pos = choose|pos: Seq<int>| arranged_upto(out, inp, keys, pos, inp.len() as int);
    assert forall|i: int| 0 <= i < inp.len() implies out.contains(#[trigger] inp[i]) by {
        assert(pos.contains(i));
        let k = choose|k: int| 0 <= k < pos.len() && pos[k] == i;
        assert(out[k] == inp[i]);
    }
    assert forall|k: int| 0 <= k < out.len() implies inp.contains(#[trigger] out[k]) by {
        assert(out[k] == inp[pos[k]]);
    }
    assert forall|a: int, b: int| 0 <= a < b < out.len() implies !lex_lt(
        name_key(#[trigger] out[b]),
        name_key(#[trigger] out[a]),
    ) by {
        assert(precedes(keys, pos[a], pos[b]));
        assert(name_key(out[a]) == keys[pos[a]]);
        assert(name_key(out[b]) == keys[pos[b]]);
        if lex_lt(name_key(out[a]), name_key(out[b])) {
            lemma_lex_asymmetric(name_key(out[a]), name_key(out[b]));
        } else {
            lemma_lex_irreflexive(name_key(out[a]));
        }
    }
}

/// What the browser shows of a directory: hidden entries never, and no
/// directory after a file; past `..` every directory is a shown
/// subdirectory of the listing and every file a shown playable file.
pub proof fn lemma_shown_layout(entries: Seq<BrowserEntry>, dir: Seq<char>, listing: Seq<BrowserEntry>)
    requires
        shows(entries, dir, listing),
    ensures
        forall|j: int| up_count(dir) <= j < entries.len() ==> is_visible(#[trigger] entries[j]),
        forall|a: int, b: int|
            up_count(dir) <= a < b < entries.len() && !(#[trigger] entries[a]).is_dir ==> !(
            #[trigger] entries[b]).is_dir,
        forall|j: int|
            up_count(dir) <= j < entries.len() && (#[trigger] entries[j]).is_dir ==> is_shown_dir(
                entries[j],
            ) && listing.contains(entries[j]),
        forall|j: int|
            up_count(dir) <= j < entries.len() && !(#[trigger] entries[j]).is_dir ==> is_shown_file(
                entries[j],
            ) && listing.contains(entries[j]),
{
    broadcast use vstd::seq_lib::group_filter_ensures;

    let up = up_count(dir);
    let dirs = shown_dirs(listing);
    let files = shown_files(listing);
    let nd = dirs.len() as int;
    let nf = files.len() as int;
    let dpart = entries.subrange(up, up + nd);
    let fpart = entries.subrange(up + nd, up + nd + nf);
    lemma_sorted_by_name(dpart, dirs);
    lemma_sorted_by_name(fpart, files);
    assert forall|j: int| up <= j < entries.len() implies {
        &&& is_visible(entries[j])
        &&& entries[j].is_dir ==> is_shown_dir(entries[j]) && listing.contains(entries[j])
        &&& !entries[j].is_dir ==> is_shown_file(entries[j]) && listing.contains(entries[j])
        &&& (j < up + nd <==> entries[j].is_dir)
    } by {
        if j < up + nd {
            assert(entries[j] == dpart[j - up]);
            assert(dirs.contains(dpart[j - up]));
            let i = choose|i: int| 0 <= i < dirs.len() && dirs[i] == dpart[j - up];
            assert(is_shown_dir(dirs[i]));
            lemma_filter_sub(listing, |e: BrowserEntry| is_shown_dir(e), i);
        } else {
            assert(entries[j] == fpart[j - up - nd]);
            assert(files.contains(fpart[j - up - nd]));
            let i = choose|i: int| 0 <= i < files.len() && files[i] == fpart[j - up - nd];
            assert(is_shown_file(files[i]));
            lemma_filter_sub(listing, |e: BrowserEntry| is_shown_file(e), i);
        }
    }
}

proof fn lemma_precedes_strict(keys: Seq<Seq<char>>, a: int, b: int)
    ensures
        !precedes(keys, a, a),
        !(precedes(keys, a, b) && precedes(keys, b, a)),
{
    lemma_lex_irreflexive(keys[a]);
    lemma_lex_irreflexive(keys[b]);
    if lex_lt(keys[a], keys[b]) {
        lemma_lex_asymmetric(keys[a], keys[b]);
    }
}

proof fn lemma_positions_agree(
    o1: Seq<BrowserEntry>,
    o2: Seq<BrowserEntry>,
    inp: Seq<BrowserEntry>,
    keys: Seq<Seq<char>>,
    pos1: Seq<int>,
    pos2: Seq<int>,
    k: int,
)
    requires
        arranged_upto(o1, inp, keys, pos1, inp.len() as int),
        arranged_upto(o2, inp, keys, pos2, inp.len() as int),
        0 <= k <= inp.len(),
    ensures
        forall|j: int| 0 <= j < k ==> pos1[j] == pos2[j],
    decreases k,
{
    if k > 0 {
        lemma_positions_agree(o1, o2, inp, keys, pos1, pos2, k - 1);
        let m = k - 1;
        let x = pos1[m];
        let y = pos2[m];
        if x != y {
            assert(pos1.contains(y));
            let a = choose|a: int| 0 <= a < pos1.len() && pos1[a] == y;
            assert(pos2.contains(x));
            let b = choose|b: int| 0 <= b < pos2.len() && pos2[b] == x;
            lemma_precedes_strict(keys, x, y);
            lemma_precedes_strict(keys, y, y);
            lemma_precedes_strict(keys, x, x);
            if a < m {
                assert(pos2[a] == y);
                assert(precedes(keys, pos2[a], pos2[m]));
            }
            if b < m {
                assert(pos1[b] == x);
                assert(precedes(keys, pos1[b], pos1[m]));
            }
            assert(a > m && b > m);
            assert(precedes(keys, pos1[m], pos1[a]));
            assert(precedes(keys, pos2[m], pos2[b]));
        }
    }
}

/// A stable sort has one outcome: the same items sorted by the same keys
/// come out in the same order.
pub proof fn lemma_sorted_unique(
    o1: Seq<BrowserEntry>,
    o2: Seq<BrowserEntry>,
    inp: Seq<BrowserEntry>,
    keys: Seq<Seq<char>>,
)
    requires
        sorted_by_keys(o1, inp, keys),
        sorted_by_keys(o2, inp, keys),
    ensures
        o1 == o2,
{
    let n = inp.len() as int;
    let pos1 = choose|pos: Seq<int>| arranged_upto(o1, inp, keys, pos, n);
    let pos2 = choose|pos: Seq<int>| arranged_upto(o2, inp, keys, pos, n);
    lemma_positions_agree(o1, o2, inp, keys, pos1, pos2, n);
    assert forall|k: int| 0 <= k < n implies o1[k] == o2[k] by {
        assert(o1[k] == inp[pos1[k]]);
        assert(o2[k] == inp[pos2[k]]);
    }
    assert(o1 =~= o2);
}

/// The name, path and kind of an entry.
pub open spec fn entry_view(e: BrowserEntry) -> (Seq<char>, Seq<char>, bool) {
    (e.name@, e.path@, e.is_dir)
}

/// The name, path and kind of each entry, in order.
pub open spec fn entries_view(s: Seq<BrowserEntry>) -> Seq<(Seq<char>, Seq<char>, bool)> {
    s.map_values(|e: BrowserEntry| entry_view(e))
}

/// A listing fixes what the browser shows: for one directory and one
/// listing there is one way to show it, so listing a directory again
/// whose contents did not change shows the same entries.
pub proof fn lemma_listing_fixes_entries(
    e1: Seq<BrowserEntry>,
    e2: Seq<BrowserEntry>,
    dir: Seq<char>,
    listing: Seq<BrowserEntry>,
)
    requires
        shows(e1, dir, listing),
        shows(e2, dir, listing),
    ensures
        entries_view(e1) == entries_view(e2),
{
    let up = up_count(dir);
    let dirs = shown_dirs(listing);
    let files = shown_files(listing);
    let nd = dirs.len() as int;
    let nf = files.len() as int;
    lemma_sorted_unique(e1.subrange(up, up + nd), e2.subrange(up, up + nd), dirs, name_keys(dirs));
    lemma_sorted_unique(
        e1.subrange(up + nd, up + nd + nf),
        e2.subrange(up + nd, up + nd + nf),
        files,
        name_keys(files),
    );
    assert forall|j: int| 0 <= j < e1.len() implies entry_view(e1[j]) == entry_view(e2[j]) by {
        if j < up {
            assert(j == 0);
        } else if j < up + nd {
            assert(e1[j] == e1.subrange(up, up + nd)[j - up]);
            assert(e2[j] == e2.subrange(up, up + nd)[j - up]);
        } else {
            assert(e1[j] == e1.subrange(up + nd, up + nd + nf)[j - up - nd]);
            assert(e2[j] == e2.subrange(up + nd, up + nd + nf)[j - up - nd]);
        }
    }
    assert(entries_view(e1) =~= entries_view(e2));
}

/// Entering a subdirectory and then its `..` comes back: when the browser
/// shows `dir` (contents `listing`), the subdirectory `sub` entered is shown
/// with `..` first, leading to `sub`'s parent; when that parent is `dir`
/// and `dir` is then listed again with the same contents, the browser shows
/// what it showed before.
pub proof fn lemma_subdir_and_back(
    before: Seq<BrowserEntry>,
    dir: Seq<char>,
    listing: Seq<BrowserEntry>,
    sub: Seq<char>,
    in_sub: Seq<BrowserEntry>,
    sub_listing: Seq<BrowserEntry>,
    after: Seq<BrowserEntry>,
)
    requires
        shows(before, dir, listing),
        shows(in_sub, sub, sub_listing),
        parent_of(sub) == Some(dir),
        shows(after, in_sub[0].path@, listing),
    ensures
        in_sub[0].name@ == ".."@,
        in_sub[0].is_dir,
        in_sub[0].path@ == dir,
        entries_view(after) == entries_view(before),
{
    lemma_listing_fixes_entries(after, before, dir, listing);
}

/// Paging down moves the selection exactly `page` entries when that stays
/// within the list, and otherwise stops at the last entry; it never moves
/// up, and paging back up then returns to where it started.
pub proof fn lemma_page_down_moves_one_page(sel: int, page: int, len: int)
    requires
        0 <= sel < len,
        0 <= page,
    ensures
        sel + page < len ==> paged_down(sel, page, len) == sel + page,
        sel + page >= len ==> paged_down(sel, page, len) == len - 1,
        sel <= paged_down(sel, page, len) < len,
        sel + page < len ==> paged_up(paged_down(sel, page, len), page) == sel,
{
}

/// The audio files the browser lists are exactly those with one of ten
/// extensions, in lowercase.
pub proof fn lemma_audio_extensions(e: Seq<char>)
    ensures
        audio_extension(e) <==> set![
            "mp3"@,
            "flac"@,
            "ogg"@,
            "opus"@,
            "m4a"@,
            "aac"@,
            "wav"@,
            "aiff"@,
            "wv"@,
            "ape"@,
        ].contains(e),
{
}

/// Pictures, text and other files are not audio files.
pub proof fn lemma_other_files_are_not_audio()
    ensures
        !audio_extension("png"@),
        !audio_extension("jpg"@),
        !audio_extension("txt"@),
        !audio_extension("pdf"@),
        !audio_extension("m3u"@),
{
    reveal_strlit("png");
    reveal_strlit("jpg");
    reveal_strlit("txt");
    reveal_strlit("pdf");
    reveal_strlit("m3u");
    reveal_strlit("mp3");
    reveal_strlit("flac");
    reveal_strlit("ogg");
    reveal_strlit("opus");
    reveal_strlit("m4a");
    reveal_strlit("aac");
    reveal_strlit("wav");
    reveal_strlit("aiff");
    reveal_strlit("wv");
    reveal_strlit("ape");
    assert("png"@ != "mp3"@) by {
        assert("png"@[0] != "mp3"@[0]);
    }
    assert("png"@ != "ogg"@) by {
        assert("png"@[0] != "ogg"@[0]);
    }
    assert("png"@ != "m4a"@) by {
        assert("png"@[0] != "m4a"@[0]);
    }
    assert("png"@ != "aac"@) by {
        assert("png"@[0] != "aac"@[0]);
    }
    assert("png"@ != "wav"@) by {
        assert("png"@[0] != "wav"@[0]);
    }
    assert("png"@ != "ape"@) by {
        assert("png"@[0] != "ape"@[0]);
    }
    assert("jpg"@ != "mp3"@) by {
        assert("jpg"@[0] != "mp3"@[0]);
    }
    assert("jpg"@ != "ogg"@) by {
        assert("jpg"@[0] != "ogg"@[0]);
    }
    assert("jpg"@ != "m4a"@) by {
        assert("jpg"@[0] != "m4a"@[0]);
    }
    assert("jpg"@ != "aac"@) by {
        assert("jpg"@[0] != "aac"@[0]);
    }
    assert("jpg"@ != "wav"@) by {
        assert("jpg"@[0] != "wav"@[0]);
    }
    assert("jpg"@ != "ape"@) by {
        assert("jpg"@[0] != "ape"@[0]);
    }
    assert("txt"@ != "mp3"@) by {
        assert("txt"@[0] != "mp3"@[0]);
    }
    assert("txt"@ != "ogg"@) by {
        assert("txt"@[0] != "ogg"@[0]);
    }
    assert("txt"@ != "m4a"@) by {
        assert("txt"@[0] != "m4a"@[0]);
    }
    assert("txt"@ != "aac"@) by {
        assert("txt"@[0] != "aac"@[0]);
    }
    assert("txt"@ != "wav"@) by {
        assert("txt"@[0] != "wav"@[0]);
    }
    assert("txt"@ != "ape"@) by {
        assert("txt"@[0] != "ape"@[0]);
    }
    assert("pdf"@ != "mp3"@) by {
        assert("pdf"@[0] != "mp3"@[0]);
    }
    assert("pdf"@ != "ogg"@) by {
        assert("pdf"@[0] != "ogg"@[0]);
    }
    assert("pdf"@ != "m4a"@) by {
        assert("pdf"@[0] != "m4a"@[0]);
    }
    assert("pdf"@ != "aac"@) by {
        assert("pdf"@[0] != "aac"@[0]);
    }
    assert("pdf"@ != "wav"@) by {
        assert("pdf"@[0] != "wav"@[0]);
    }
    assert("pdf"@ != "ape"@) by {
        assert("pdf"@[0] != "ape"@[0]);
    }
    assert("m3u"@ != "mp3"@) by {
        assert("m3u"@[1] != "mp3"@[1]);
    }
    assert("m3u"@ != "ogg"@) by {
        assert("m3u"@[0] != "ogg"@[0]);
    }
    assert("m3u"@ != "m4a"@) by {
        assert("m3u"@[1] != "m4a"@[1]);
    }
    assert("m3u"@ != "aac"@) by {
        assert("m3u"@[0] != "aac"@[0]);
    }
    assert("m3u"@ != "wav"@) by {
        assert("m3u"@[0] != "wav"@[0]);
    }
    assert("m3u"@ != "ape"@) by {
        assert("m3u"@[0] != "ape"@[0]);
    }
}

/// What a filter keeps was in the sequence.
proof fn lemma_filter_sub(s: Seq<BrowserEntry>, pred: spec_fn(BrowserEntry) -> bool, i: int)
    requires
        0 <= i < s.filter(pred).len(),
    ensures
        s.contains(s.filter(pred)[i]),
    decreases s.len(),
{
    reveal(Seq::filter);
    if s.len() > 0 {
        let sub = s.drop_last().filter(pred);
        if i < sub.len() {
            lemma_filter_sub(s.drop_last(), pred, i);
            assert(s.filter(pred)[i] == sub[i]);
            let k = choose|k: int| 0 <= k < s.drop_last().len() && s.drop_last()[k] == sub[i];
            assert(s[k] == sub[i]);
        } else {
            assert(s.filter(pred)[i] == s.last());
            assert(s[s.len() - 1] == s.last());
        }
    }
}

} // verus!
