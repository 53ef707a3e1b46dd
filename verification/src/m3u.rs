//! M3U and M3U8 playlists, simple (bare addresses) and extended
//! (`#EXTM3U` / `#EXTINF`).
use vstd::prelude::*;
use crate::config::{Stream, streams_view, lemma_streams_view_push};
use crate::text::{
    after_last, before_first, chars_of, find_first, find_last, has_char, has_prefix, is_first,
    is_last, is_space, opt_view, split, starts_with, string_of, strip_leading, strip_trailing,
    space_pred, trim, trim_bounds, lemma_split_nonempty, lemma_split_step,
};

verus! {

/// Streams found so far, and the title of the last `#EXTINF` that no
/// stream has taken yet.
pub type M3uState = (Seq<(Seq<char>, Seq<char>)>, Option<Seq<char>>);

/// The name given to a stream that no `#EXTINF` titles: the last path
/// segment of its address, without the query.
pub open spec fn derived_name(url: Seq<char>) -> Seq<char> {
    before_first(after_last(url, '/'), '?')
}

/// An address that the radio panel can play.
pub open spec fn is_http(line: Seq<char>) -> bool {
    starts_with(line, "http://"@) || starts_with(line, "https://"@)
}

/// The title that an `#EXTINF:` line gives, if any: what follows the first
/// comma, trimmed, when that is not empty.
pub open spec fn extinf_title(line: Seq<char>) -> Option<Seq<char>> {
    let rest = line.skip("#EXTINF:"@.len() as int);
    if has_char(rest, ',') {
        let t = trim(rest.skip((choose|k: int| is_first(rest, ',', k)) + 1));
        if t.len() > 0 {
            Some(t)
        } else {
            None
        }
    } else {
        None
    }
}

/// What one line of the playlist does to the state: an entry line, played
/// or not, uses up the pending title.
pub open spec fn m3u_step(st: M3uState, raw: Seq<char>) -> M3uState {
    let line = trim(raw);
    if line.len() == 0 || line == "#EXTM3U"@ {
        st
    } else if starts_with(line, "#EXTINF:"@) {
        match extinf_title(line) {
            Some(t) => (st.0, Some(t)),
            None => st,
        }
    } else if starts_with(line, "#"@) {
        st
    } else if is_http(line) {
        let name = match st.1 {
            Some(n) => n,
            None => derived_name(line),
        };
        (st.0.push((name, line)), None)
    } else {
        (st.0, None)
    }
}

/// An `#EXTINF` title describes the entry right after it: any entry line
/// (not blank, not a `#` line), whether it is played or passed over, leaves
/// no title pending.
pub proof fn lemma_entry_takes_title(st: M3uState, raw: Seq<char>)
    requires
        trim(raw).len() > 0,
        !starts_with(trim(raw), "#"@),
    ensures
        m3u_step(st, raw).1 is None,
{
    reveal_strlit("#");
    reveal_strlit("#EXTM3U");
    reveal_strlit("#EXTINF:");
    let line = trim(raw);
    if line[0] == '#' {
        assert(line.subrange(0, 1) =~= "#"@);
    }
    if line == "#EXTM3U"@ {
        assert(line[0] == "#EXTM3U"@[0]);
    }
    if starts_with(line, "#EXTINF:"@) {
        assert(line[0] == "#EXTINF:"@[0]);
    }
}

/// The state after the given lines, from no streams and no title.
pub open spec fn m3u_fold(lines: Seq<Seq<char>>) -> M3uState
    decreases lines.len(),
{
    if lines.len() == 0 {
        (Seq::empty(), None)
    } else {
        m3u_step(m3u_fold(lines.drop_last()), lines.last())
    }
}

/// The streams of a playlist. Its lines are the pieces between the line
/// feeds; a carriage return before a line feed, like any white space, is
/// trimmed off each line before it is read.
pub open spec fn m3u_streams(text: Seq<char>) -> Seq<(Seq<char>, Seq<char>)> {
    m3u_fold(split(text, '\n')).0
}

struct Patterns {
    extm3u: Vec<char>,
    extinf: Vec<char>,
    hash: Vec<char>,
    http: Vec<char>,
    https: Vec<char>,
}

impl Patterns {
    spec fn wf(&self) -> bool {
        &&& self.extm3u@ == "#EXTM3U"@
        &&& self.extinf@ == "#EXTINF:"@
        &&& self.hash@ == "#"@
        &&& self.http@ == "http://"@
        &&& self.https@ == "https://"@
    }

    fn new() -> (p: Patterns)
        ensures
            p.wf(),
    {
        Patterns {
            extm3u: chars_of("#EXTM3U"),
            extinf: chars_of("#EXTINF:"),
            hash: chars_of("#"),
            http: chars_of("http://"),
            https: chars_of("https://"),
        }
    }
}

/// Reads the line `v[from..to]` into the state.
fn read_line(
    v: &Vec<char>,
    from: usize,
    to: usize,
    pats: &Patterns,
    streams: &mut Vec<Stream>,
    pending: &mut Option<String>,
)
    requires
        from <= to <= v.len(),
        pats.wf(),
    ensures
        (streams_view(final(streams)@), opt_view(*final(pending))) == m3u_step(
            (streams_view(old(streams)@), opt_view(*old(pending))),
            v@.subrange(from as int, to as int),
        ),
{
    let ghost raw = v@.subrange(from as int, to as int);
    let (a, b) = trim_bounds(v, from, to);
    let ghost line = v@.subrange(a as int, b as int);
    assert(line == trim(raw));
    if a == b {
        return ;
    }
    if b - a == pats.extm3u.len() && has_prefix(v, a, b, &pats.extm3u) {
        assert(line =~= line.subrange(0, pats.extm3u@.len() as int));
        return ;
    }
    proof {
        if line == pats.extm3u@ {
            assert(line.subrange(0, line.len() as int) =~= line);
        }
    }
    if has_prefix(v, a, b, &pats.extinf) {
        let rest_from = a + pats.extinf.len();
        let ghost rest = line.skip("#EXTINF:"@.len() as int);
        assert(rest =~= v@.subrange(rest_from as int, b as int));
        match find_first(v, rest_from, b, ',') {
            Some(k) => {
                let (ta, tb) = trim_bounds(v, k + 1, b);
                let ghost kk = choose|i: int| is_first(rest, ',', i);
                assert(kk == k - rest_from);
                assert(rest.skip(kk + 1) =~= v@.subrange(k + 1, b as int));
                if ta < tb {
                    *pending = Some(string_of(v, ta, tb));
                }
            },
            None => {},
        }
        return ;
    }
    if has_prefix(v, a, b, &pats.hash) {
        return ;
    }
    if has_prefix(v, a, b, &pats.http) || has_prefix(v, a, b, &pats.https) {
        let name = match pending.take() {
            Some(n) => n,
            None => {
                let seg_from = match find_last(v, a, b, '/') {
                    Some(j) => {
                        let ghost jj = choose|i: int| is_last(line, '/', i);
                        assert(jj == j - a);
                        j + 1
                    },
                    None => a,
                };
                let ghost seg = after_last(line, '/');
                assert(seg =~= v@.subrange(seg_from as int, b as int));
                let seg_to = match find_first(v, seg_from, b, '?') {
                    Some(q) => {
                        let ghost qq = choose|i: int| is_first(seg, '?', i);
                        assert(qq == q - seg_from);
                        q
                    },
                    None => b,
                };
                assert(derived_name(line) =~= v@.subrange(seg_from as int, seg_to as int));
                string_of(v, seg_from, seg_to)
            },
        };
        let url = string_of(v, a, b);
        let s = Stream { name, url };
        proof {
            lemma_streams_view_push(streams@, s);
        }
        streams.push(s);
    } else {
        *pending = None;
    }
}

/// The streams of an M3U or M3U8 playlist, given its text.
///
/// Blank lines, `#EXTM3U` and other `#` directives are passed over. An
/// `#EXTINF:` line whose title (after the first comma, trimmed) is not
/// empty describes the entry that follows it: when that entry is an
/// `http://` or `https://` address the title names the stream; any other
/// entry (a local path) is passed over and takes the title with it. A
/// stream without a title is named after the last segment of its address,
/// query removed.
pub fn parse_m3u(contents: &str) -> (streams: Vec<Stream>)
    ensures
        streams_view(streams@) == m3u_streams(contents@),
{
    let v = chars_of(contents);
    let pats = Patterns::new();
    let mut streams: Vec<Stream> = Vec::new();
    let mut pending: Option<String> = None;
    let mut start: usize = 0;
    let mut i: usize = 0;
    proof {
        assert(v@.take(0) =~= Seq::<char>::empty());
        assert(streams_view(streams@) =~= Seq::<(Seq<char>, Seq<char>)>::empty());
    }
    while i < v.len()
        invariant
            v@ == contents@,
            pats.wf(),
            start <= i <= v.len(),
            split(v@.take(i as int), '\n') == split(v@.take(start as int), '\n').drop_last().push(
                v@.subrange(start as int, i as int),
            ),
            (streams_view(streams@), opt_view(pending)) == m3u_fold(
                split(v@.take(start as int), '\n').drop_last(),
            ),
        decreases v.len() - i,
    {
        proof {
            lemma_split_step(v@, i as int, '\n');
            lemma_split_nonempty(v@.take(i as int), '\n');
        }
        if v[i] == '\n' {
            let ghost done = split(v@.take(start as int), '\n').drop_last();
            read_line(&v, start, i, &pats, &mut streams, &mut pending);
            proof {
                let lines = done.push(v@.subrange(start as int, i as int));
                assert(lines.drop_last() =~= done);
                assert(split(v@.take(i + 1), '\n').drop_last() =~= lines);
            }
            start = i + 1;
            proof {
                assert(v@.subrange(start as int, i + 1) =~= Seq::<char>::empty());
            }
        } else {
            proof {
                assert(v@.subrange(start as int, i + 1) =~= v@.subrange(start as int, i as int).push(
                    v@[i as int],
                ));
            }
        }
        i = i + 1;
    }
    let ghost done = split(v@.take(start as int), '\n').drop_last();
    read_line(&v, start, v.len(), &pats, &mut streams, &mut pending);
    proof {
        let lines = done.push(v@.subrange(start as int, v.len() as int));
        assert(lines.drop_last() =~= done);
        assert(v@.take(v.len() as int) =~= v@);
    }
    streams
}

proof fn lemma_split_none(u: Seq<char>, sep: char)
    requires
        forall|i: int| 0 <= i < u.len() ==> u[i] != sep,
    ensures
        split(u, sep) == seq![u],
    decreases u.len(),
{
    if u.len() > 0 {
        lemma_split_none(u.drop_last(), sep);
        assert(u.drop_last().push(u.last()) =~= u);
        assert(seq![u.drop_last()].update(0, u.drop_last().push(u.last())) =~= seq![u]);
    } else {
        assert(u =~= Seq::<char>::empty());
    }
}

proof fn lemma_split_last(a: Seq<char>, u: Seq<char>, sep: char)
    requires
        forall|i: int| 0 <= i < u.len() ==> u[i] != sep,
    ensures
        split(a + seq![sep] + u, sep) == split(a, sep).push(u),
    decreases u.len(),
{
    let s = a + seq![sep] + u;
    if u.len() == 0 {
        assert(s.drop_last() =~= a);
        assert(u =~= Seq::<char>::empty());
    } else {
        lemma_split_last(a, u.drop_last(), sep);
        assert(s.drop_last() =~= a + seq![sep] + u.drop_last());
        lemma_split_nonempty(a, sep);
        let f = split(a, sep).push(u.drop_last());
        assert(u.drop_last().push(u.last()) =~= u);
        assert(f.last() == u.drop_last());
        assert(s.last() == u.last());
        assert(f.update(f.len() - 1, f.last().push(u.last())) =~= split(a, sep).push(u));
    }
}

/// A line that begins and ends with no white space is read as it is.
proof fn lemma_trim_keeps(l: Seq<char>)
    requires
        l.len() > 0,
        !is_space(l[0]),
        !is_space(l.last()),
    ensures
        trim(l) == l,
{
    assert(strip_leading(l, space_pred()) == l);
    assert(strip_trailing(l, space_pred()) == l);
}

/// An `#EXTINF` title names the address on the line after it, be it an
/// `http://` or an `https://` address: a playlist of the two lines
/// `#EXTINF:-1,t` and `u` is the one stream `u` named `t`, for every title
/// `t` and address `u` that are lines of their own with no white space at
/// either end.
pub proof fn lemma_extinf_names_next_stream(t: Seq<char>, u: Seq<char>)
    requires
        t.len() > 0,
        !is_space(t[0]),
        !is_space(t.last()),
        forall|i: int| 0 <= i < t.len() ==> t[i] != '\n',
        is_http(u),
        !is_space(u.last()),
        forall|i: int| 0 <= i < u.len() ==> u[i] != '\n',
    ensures
        m3u_streams("#EXTINF:-1,"@ + t + "\n"@ + u) == seq![(t, u)],
{
    reveal_strlit("#EXTINF:-1,");
    reveal_strlit("\n");
    reveal_strlit("#EXTINF:");
    reveal_strlit("#EXTM3U");
    reveal_strlit("#");
    reveal_strlit("http://");
    reveal_strlit("https://");
    let l1 = "#EXTINF:-1,"@ + t;
    let text = "#EXTINF:-1,"@ + t + "\n"@ + u;
    assert(text =~= l1 + seq!['\n'] + u);
    assert forall|i: int| 0 <= i < l1.len() implies l1[i] != '\n' by {
        if i >= 11 {
            assert(l1[i] == t[i - 11]);
        }
    }
    lemma_split_none(l1, '\n');
    lemma_split_last(l1, u, '\n');
    let lines = seq![l1, u];
    assert(split(text, '\n') =~= lines);
    assert(lines.drop_last() =~= seq![l1]);
    assert(seq![l1].drop_last() =~= Seq::<Seq<char>>::empty());
    // The first line: its title waits for the next stream.
    assert(l1[0] == '#');
    assert(l1.last() == t.last());
    lemma_trim_keeps(l1);
    assert(l1[4] != "#EXTM3U"@[4]);
    assert(l1 != "#EXTM3U"@);
    assert(l1.subrange(0, 8) =~= "#EXTINF:"@);
    let rest = l1.skip("#EXTINF:"@.len() as int);
    assert(rest =~= "-1,"@ + t) by {
        reveal_strlit("-1,");
    }
    assert(rest[0] == '-' && rest[1] == '1' && rest[2] == ',');
    assert(is_first(rest, ',', 2));
    assert(has_char(rest, ','));
    let k = choose|k: int| is_first(rest, ',', k);
    assert(k == 2) by {
        if k < 2 {
            assert(rest[k] != ',');
        } else if k > 2 {
            assert(rest[2] != ',');
        }
    }
    assert(rest.skip(3) =~= t);
    lemma_trim_keeps(t);
    assert(extinf_title(l1) == Some(t));
    let st1 = m3u_step((Seq::empty(), None), l1);
    assert(st1 == (Seq::<(Seq<char>, Seq<char>)>::empty(), Some(t)));
    assert(m3u_fold(Seq::<Seq<char>>::empty()) == (Seq::<(Seq<char>, Seq<char>)>::empty(), None::<Seq<char>>));
    assert(seq![l1].last() == l1);
    assert(m3u_fold(seq![l1]) == st1);
    // The second line: the address, named by the title.
    assert(u[0] == 'h') by {
        if starts_with(u, "http://"@) {
            assert(u[0] == "http://"@[0]);
        } else {
            assert(u[0] == "https://"@[0]);
        }
    }
    lemma_trim_keeps(u);
    assert(u != "#EXTM3U"@) by {
        assert(u[0] != "#EXTM3U"@[0]);
    }
    assert(!starts_with(u, "#EXTINF:"@)) by {
        if starts_with(u, "#EXTINF:"@) {
            assert(u.subrange(0, 8)[0] == "#EXTINF:"@[0]);
        }
    }
    assert(!starts_with(u, "#"@)) by {
        if starts_with(u, "#"@) {
            assert(u.subrange(0, 1)[0] == "#"@[0]);
        }
    }
    assert(m3u_fold(lines) == m3u_step(st1, u));
    assert(Seq::<(Seq<char>, Seq<char>)>::empty().push((t, u)) =~= seq![(t, u)]);
}

proof fn lemma_fold_http(lines: Seq<Seq<char>>)
    ensures
        forall|k: int|
            0 <= k < m3u_fold(lines).0.len() ==> is_http(#[trigger] m3u_fold(lines).0[k].1),
    decreases lines.len(),
{
    if lines.len() > 0 {
        lemma_fold_http(lines.drop_last());
        let prev = m3u_fold(lines.drop_last());
        let cur = m3u_fold(lines);
        assert(cur == m3u_step(prev, lines.last()));
        assert forall|k: int| 0 <= k < cur.0.len() implies is_http(#[trigger] cur.0[k].1) by {
            if cur.0.len() > prev.0.len() {
                if k < prev.0.len() {
                    assert(cur.0[k] == prev.0[k]);
                }
            } else {
                assert(cur.0 == prev.0);
            }
        }
    }
}

/// Every stream of a playlist is an `http://` or `https://` address.
pub proof fn lemma_m3u_streams_are_http(text: Seq<char>)
    ensures
        forall|k: int|
            0 <= k < m3u_streams(text).len() ==> is_http(#[trigger] m3u_streams(text)[k].1),
{
    lemma_fold_http(split(text, '\n'));
}

} // verus!
