//! Icecast/SHOUTcast in-band metadata: a server that was asked with
//! `Icy-MetaData: 1` and answered with `icy-metaint: N` sends N bytes of
//! audio, then one length byte L, then 16*L bytes of text such as
//! `StreamTitle='Artist - Song';`, and so on.
use vstd::prelude::*;
use vstd::utf8::{decode_utf8, valid_utf8};
use crate::text::{
    char_pred, chars_of, has_prefix, is_space, is_space_char, space_pred, starts_with, string_of,
    strip_leading, strip_trailing, trim, trim_bounds,
};

verus! {

/// A field of the metadata text, trimmed and with trailing NULs removed.
pub open spec fn icy_field(part: Seq<char>) -> Seq<char> {
    strip_trailing(trim(part), char_pred('\0'))
}

pub open spec fn is_title_field(part: Seq<char>) -> bool {
    starts_with(icy_field(part), "StreamTitle="@)
}

/// The value of a `StreamTitle=` field, with the quotes at both ends removed.
pub open spec fn field_title(part: Seq<char>) -> Seq<char> {
    let value = icy_field(part).skip("StreamTitle="@.len() as int);
    strip_trailing(strip_leading(value, char_pred('\'')), char_pred('\''))
}

/// The length of the first field of `m`: the characters before its first
/// `;`, or all of them.
pub open spec fn field_len(m: Seq<char>) -> nat
    decreases m.len(),
{
    if m.len() == 0 || m[0] == ';' {
        0
    } else {
        1 + field_len(m.drop_first())
    }
}

/// White space or a NUL: what may stand between a closing quote and the
/// `;` that ends its field.
pub open spec fn is_pad(c: char) -> bool {
    is_space(c) || c == '\0'
}

/// From `j` on, `w` holds nothing but white space and NULs up to a `;` or
/// to its end.
pub open spec fn closes_after(w: Seq<char>, j: int) -> bool
    decreases w.len() - j,
{
    if j < 0 || j > w.len() {
        false
    } else if j == w.len() {
        true
    } else if w[j] == ';' {
        true
    } else if is_pad(w[j]) {
        closes_after(w, j + 1)
    } else {
        false
    }
}

/// A quoted value closes at `i`: a quote there that ends its field, being
/// followed by nothing but white space and NULs up to a `;` or to the end.
pub open spec fn closes_at(w: Seq<char>, i: int) -> bool {
    0 <= i < w.len() && w[i] == '\'' && closes_after(w, i + 1)
}

pub open spec fn first_close(w: Seq<char>, i: int) -> bool {
    &&& closes_at(w, i)
    &&& forall|j: int| 0 <= j < i ==> !closes_at(w, j)
}

/// A quoted value `w` (opening quote included), read up to the first quote
/// that ends its field (a `;` inside the quotes belongs to the value);
/// without one, up to the end of the text less trailing white space and
/// NULs. The quotes at both ends are removed.
pub open spec fn quoted_title(w: Seq<char>) -> Seq<char> {
    let body = if exists|i: int| first_close(w, i) {
        w.take(choose|i: int| first_close(w, i))
    } else {
        strip_trailing(strip_trailing(w, space_pred()), char_pred('\0'))
    };
    strip_trailing(strip_leading(body, char_pred('\'')), char_pred('\''))
}

/// The title of the title field `field`, which begins the text `m`: a
/// quoted value is read as a whole, past any `;` inside it; any other
/// value is the rest of the field.
pub open spec fn title_in(field: Seq<char>, m: Seq<char>) -> Seq<char> {
    let value = icy_field(field).skip("StreamTitle="@.len() as int);
    let lead = field.len() - strip_leading(field, space_pred()).len();
    if value.len() > 0 && value[0] == '\'' {
        quoted_title(m.skip(lead + "StreamTitle="@.len()))
    } else {
        field_title(field)
    }
}

/// The title that metadata text announces: that of its first
/// `StreamTitle=` field, or the empty text if it has none.
pub open spec fn icy_title(meta: Seq<char>) -> Seq<char>
    decreases meta.len(),
{
    let n = field_len(meta) as int;
    let field = meta.take(n);
    if is_title_field(field) {
        title_in(field, meta)
    } else if n < meta.len() {
        icy_title(meta.skip(n + 1))
    } else {
        Seq::empty()
    }
}

proof fn lemma_field_len(m: Seq<char>, n: int)
    requires
        0 <= n <= m.len(),
        forall|j: int| 0 <= j < n ==> m[j] != ';',
        n == m.len() || m[n] == ';',
    ensures
        field_len(m) == n,
    decreases n,
{
    if n > 0 {
        lemma_field_len(m.drop_first(), n - 1);
    }
}

/// The bounds of `v[from..to]` without its trailing `c`s.
fn strip_trailing_bounds(v: &Vec<char>, from: usize, to: usize, c: char) -> (b: usize)
    requires
        from <= to <= v.len(),
    ensures
        from <= b <= to,
        v@.subrange(from as int, b as int) == strip_trailing(
            v@.subrange(from as int, to as int),
            char_pred(c),
        ),
{
    let mut b = to;
    while b > from && v[b - 1] == c
        invariant
            from <= b <= to <= v.len(),
            strip_trailing(v@.subrange(from as int, b as int), char_pred(c)) == strip_trailing(
                v@.subrange(from as int, to as int),
                char_pred(c),
            ),
        decreases b - from,
    {
        assert(v@.subrange(from as int, b as int).drop_last() =~= v@.subrange(from as int, b - 1));
        b = b - 1;
    }
    b
}

/// The bounds of `v[from..to]` without its trailing white space.
fn strip_trailing_space_bounds(v: &Vec<char>, from: usize, to: usize) -> (b: usize)
    requires
        from <= to <= v.len(),
    ensures
        from <= b <= to,
        v@.subrange(from as int, b as int) == strip_trailing(
            v@.subrange(from as int, to as int),
            space_pred(),
        ),
{
    let mut b = to;
    while b > from && is_space_char(v[b - 1])
        invariant
            from <= b <= to <= v.len(),
            strip_trailing(v@.subrange(from as int, b as int), space_pred()) == strip_trailing(
                v@.subrange(from as int, to as int),
                space_pred(),
            ),
        decreases b - from,
    {
        assert(v@.subrange(from as int, b as int).drop_last() =~= v@.subrange(from as int, b - 1));
        b = b - 1;
    }
    b
}

/// The bounds of `v[from..to]` without the `c`s at either end.
fn strip_both_bounds(v: &Vec<char>, from: usize, to: usize, c: char) -> (r: (usize, usize))
    requires
        from <= to <= v.len(),
    ensures
        from <= r.0 <= r.1 <= to,
        v@.subrange(r.0 as int, r.1 as int) == strip_trailing(
            strip_leading(v@.subrange(from as int, to as int), char_pred(c)),
            char_pred(c),
        ),
{
    let mut a = from;
    while a < to && v[a] == c
        invariant
            from <= a <= to <= v.len(),
            strip_leading(v@.subrange(a as int, to as int), char_pred(c)) == strip_leading(
                v@.subrange(from as int, to as int),
                char_pred(c),
            ),
        decreases to - a,
    {
        assert(v@.subrange(a as int, to as int).drop_first() =~= v@.subrange(a + 1, to as int));
        a = a + 1;
    }
    assert(strip_leading(v@.subrange(a as int, to as int), char_pred(c)) == v@.subrange(
        a as int,
        to as int,
    ));
    let b = strip_trailing_bounds(v, a, to, c);
    (a, b)
}

/// Whether `v[j..]` holds nothing but white space and NULs up to a `;` or
/// to its end.
fn closes_from(v: &Vec<char>, p: usize, j: usize) -> (r: bool)
    requires
        p <= j <= v.len(),
    ensures
        r == closes_after(v@.skip(p as int), j - p),
{
    let ghost w = v@.skip(p as int);
    let mut k = j;
    while k < v.len() && v[k] != ';' && (is_space_char(v[k]) || v[k] == '\0')
        invariant
            p <= j <= k <= v.len(),
            w == v@.skip(p as int),
            closes_after(w, j - p) == closes_after(w, k - p),
        decreases v.len() - k,
    {
        k = k + 1;
    }
    k == v.len() || v[k] == ';'
}

/// Reads the quoted value that begins at `v[p]`.
fn read_quoted(v: &Vec<char>, p: usize) -> (t: String)
    requires
        p <= v.len(),
    ensures
        t@ == quoted_title(v@.skip(p as int)),
{
    let ghost w = v@.skip(p as int);
    let mut j = p;
    while j < v.len()
        invariant
            p <= j <= v.len(),
            w == v@.skip(p as int),
            forall|k: int| 0 <= k < j - p ==> !closes_at(w, k),
        decreases v.len() - j,
    {
        if v[j] == '\'' && closes_from(v, p, j + 1) {
            assert(first_close(w, j - p));
            let (a, b) = strip_both_bounds(v, p, j, '\'');
            proof {
                let i = choose|i: int| first_close(w, i);
                assert(i == j - p) by {
                    if i < j - p {
                        assert(!closes_at(w, i));
                    } else if i > j - p {
                        assert(closes_at(w, j - p));
                    }
                }
                assert(w.take(j - p) =~= v@.subrange(p as int, j as int));
            }
            return string_of(v, a, b);
        }
        assert(!closes_at(w, j - p));
        j = j + 1;
    }
    assert forall|i: int| !first_close(w, i) by {
        if 0 <= i < w.len() {
            assert(i < j - p);
        }
    }
    assert(w =~= v@.subrange(p as int, v.len() as int));
    let b1 = strip_trailing_space_bounds(v, p, v.len());
    let b2 = strip_trailing_bounds(v, p, b1, '\0');
    let (a, b) = strip_both_bounds(v, p, b2, '\'');
    string_of(v, a, b)
}

/// Reads the field `v[from..to]`, which begins the text `v[from..]`: its
/// title, if it is a title field.
fn read_title(v: &Vec<char>, from: usize, to: usize, key: &Vec<char>) -> (r: Option<String>)
    requires
        from <= to <= v.len(),
        key@ == "StreamTitle="@,
    ensures
        match r {
            Some(t) => is_title_field(v@.subrange(from as int, to as int)) && t@ == title_in(
                v@.subrange(from as int, to as int),
                v@.skip(from as int),
            ),
            None => !is_title_field(v@.subrange(from as int, to as int)),
        },
{
    let ghost part = v@.subrange(from as int, to as int);
    let (a, b0) = trim_bounds(v, from, to);
    let b = strip_trailing_bounds(v, a, b0, '\0');
    assert(v@.subrange(a as int, b as int) == icy_field(part));
    if has_prefix(v, a, b, key) {
        let q = a + key.len();
        let ghost value = icy_field(part).skip(key@.len() as int);
        assert(value =~= v@.subrange(q as int, b as int));
        assert(part.len() - strip_leading(part, space_pred()).len() == a - from);
        if q < b && v[q] == '\'' {
            assert(v@.skip(from as int).skip(a - from + key@.len()) =~= v@.skip(q as int));
            Some(read_quoted(v, q))
        } else {
            let (ta, tb) = strip_both_bounds(v, q, b, '\'');
            Some(string_of(v, ta, tb))
        }
    } else {
        None
    }
}

/// The title announced by a block of metadata text (`StreamTitle='…'`),
/// or the empty text when there is none.
pub fn parse_icy_title(meta: &str) -> (title: String)
    ensures
        title@ == icy_title(meta@),
{
    let v = chars_of(meta);
    let key = chars_of("StreamTitle=");
    let mut start: usize = 0;
    let mut i: usize = 0;
    assert(v@.skip(0) =~= v@);
    loop
        invariant
            v@ == meta@,
            key@ == "StreamTitle="@,
            start <= i <= v.len(),
            icy_title(v@.skip(start as int)) == icy_title(v@),
            forall|j: int| start <= j < i ==> v@[j] != ';',
        decreases v.len() - i,
    {
        if i == v.len() || v[i] == ';' {
            let ghost m = v@.skip(start as int);
            proof {
                lemma_field_len(m, i - start);
                assert(m.take(i - start) =~= v@.subrange(start as int, i as int));
            }
            match read_title(&v, start, i, &key) {
                Some(t) => {
                    return t;
                },
                None => {
                    if i == v.len() {
                        return String::new();
                    }
                    assert(m.skip(i - start + 1) =~= v@.skip(i + 1));
                    start = i + 1;
                },
            }
        }
        i = i + 1;
    }
}

/// Calls `std::str::from_utf8`. Claimed: it succeeds exactly when the
/// bytes are valid UTF-8 (vstd's `valid_utf8`), and then the text is their
/// decoding (vstd's `decode_utf8`).
#[verifier::external_body]
fn utf8_text(bytes: &[u8]) -> (r: Option<&str>)
    ensures
        r is Some <==> valid_utf8(bytes@),
        r matches Some(s) ==> s@ == decode_utf8(bytes@),
{
    std::str::from_utf8(bytes).ok()
}

/// The title that a block of metadata bytes announces; nothing when the
/// bytes are not UTF-8.
pub open spec fn block_title(meta: Seq<u8>) -> Option<Seq<char>> {
    if valid_utf8(meta) {
        Some(icy_title(decode_utf8(meta)))
    } else {
        None
    }
}

/// The title a block of metadata makes known, `last` being the title
/// made known before: one that is not empty and differs from `last`.
pub open spec fn announcement(last: Seq<char>, meta: Seq<u8>) -> Option<Seq<char>> {
    match block_title(meta) {
        Some(t) => if t.len() > 0 && t != last {
            Some(t)
        } else {
            None
        },
        None => None,
    }
}

/// A title is made known once: the same block read again, or any block
/// with the same title, makes nothing new known.
pub proof fn lemma_no_repeated_announcement(last: Seq<char>, meta: Seq<u8>, again: Seq<u8>)
    requires
        announcement(last, meta) is Some,
        block_title(again) == block_title(meta),
    ensures
        announcement(announcement(last, meta)->0, again) is None,
{
}

proof fn lemma_strip_leading_head(s: Seq<char>, p: spec_fn(char) -> bool)
    ensures
        strip_leading(s, p).len() == 0 || !p(strip_leading(s, p)[0]),
    decreases s.len(),
{
    if s.len() > 0 && p(s[0]) {
        lemma_strip_leading_head(s.drop_first(), p);
    }
}

proof fn lemma_strip_trailing_prefix(s: Seq<char>, p: spec_fn(char) -> bool)
    ensures
        strip_trailing(s, p).len() <= s.len(),
        strip_trailing(s, p) == s.take(strip_trailing(s, p).len() as int),
        strip_trailing(s, p).len() == 0 || !p(strip_trailing(s, p).last()),
    decreases s.len(),
{
    if s.len() > 0 && p(s.last()) {
        lemma_strip_trailing_prefix(s.drop_last(), p);
        assert(s.drop_last().take(strip_trailing(s, p).len() as int) =~= s.take(
            strip_trailing(s, p).len() as int,
        ));
    } else {
        assert(s.take(s.len() as int) =~= s);
    }
}

/// An announced title neither begins nor ends with a quote.
pub proof fn lemma_title_unquoted(meta: Seq<char>)
    ensures
        icy_title(meta).len() == 0 || (icy_title(meta)[0] != '\'' && icy_title(meta).last()
            != '\''),
    decreases meta.len(),
{
    let n = field_len(meta) as int;
    let field = meta.take(n);
    let q = char_pred('\'');
    if is_title_field(field) {
        let value = icy_field(field).skip("StreamTitle="@.len() as int);
        let lead = field.len() - strip_leading(field, space_pred()).len();
        let body = if value.len() > 0 && value[0] == '\'' {
            let w = meta.skip(lead + "StreamTitle="@.len());
            if exists|i: int| first_close(w, i) {
                w.take(choose|i: int| first_close(w, i))
            } else {
                strip_trailing(strip_trailing(w, space_pred()), char_pred('\0'))
            }
        } else {
            value
        };
        let lead_q = strip_leading(body, q);
        lemma_strip_leading_head(body, q);
        lemma_strip_trailing_prefix(lead_q, q);
        let t = strip_trailing(lead_q, q);
        assert(icy_title(meta) == t);
        if t.len() > 0 {
            assert(t[0] == lead_q[0]);
        }
    } else if n < meta.len() {
        lemma_title_unquoted(meta.skip(n + 1));
    }
}

proof fn lemma_strip_trailing_keeps(s: Seq<char>, p: spec_fn(char) -> bool, i: int)
    requires
        0 <= i < s.len(),
        !p(s[i]),
    ensures
        i < strip_trailing(s, p).len() <= s.len(),
        strip_trailing(s, p) == s.take(strip_trailing(s, p).len() as int),
    decreases s.len(),
{
    lemma_strip_trailing_prefix(s, p);
    if p(s.last()) {
        lemma_strip_trailing_keeps(s.drop_last(), p, i);
    }
}

proof fn lemma_close_inside(w: Seq<char>, t: Seq<char>, j: int)
    requires
        w.len() >= t.len() + 2,
        forall|k: int| 0 <= k < t.len() ==> w[1 + k] == t[k],
        w[1 + t.len() as int] == '\'',
        0 <= j <= t.len(),
    ensures
        closes_after(w, 1 + j) ==> closes_after(t, j),
    decreases t.len() - j,
{
    if j < t.len() {
        lemma_close_inside(w, t, j + 1);
        assert(w[1 + j] == t[j]);
    } else {
        assert(!is_pad('\''));
    }
}

/// A quoted title is read whole, `;`s inside it included, up to the quote
/// that closes it: `StreamTitle='t';…` announces `t`, for any `t` in which
/// no quote is followed by nothing but white space and NULs up to a `;` or
/// to its end, and which begins with neither a quote, a `;`, white space nor
/// a NUL.
pub proof fn lemma_quoted_title_whole(t: Seq<char>, rest: Seq<char>)
    requires
        forall|i: int| !#[trigger] closes_at(t, i),
        t.len() > 0 ==> t[0] != '\'' && t[0] != ';' && !is_pad(t[0]),
    ensures
        icy_title("StreamTitle='"@ + t + "';"@ + rest) == t,
{
    reveal_strlit("StreamTitle='");
    reveal_strlit("StreamTitle=");
    reveal_strlit("';");
    let key = "StreamTitle="@;
    let meta = "StreamTitle='"@ + t + "';"@ + rest;
    let w = meta.skip(12);
    assert(w =~= "'"@.add(t) + "';"@ + rest) by {
        reveal_strlit("'");
    }
    assert(w[0] == '\'');
    let n = field_len(meta) as int;
    let field = meta.take(n);
    assert forall|j: int| 0 <= j < 13 implies meta[j] != ';' by {
        assert(meta[j] == "StreamTitle='"@[j]);
    }
    let end = 13 + t.len() + 1int;
    assert(meta[end] == ';');
    lemma_first_semi(meta, end);
    let k = choose|k: int| 0 <= k <= end && meta[k] == ';' && forall|j: int|
        0 <= j < k ==> meta[j] != ';';
    lemma_field_len(meta, k);
    assert(13 <= n);
    assert(field[12] == '\'');
    assert(strip_leading(field, space_pred()) == field);
    lemma_strip_trailing_keeps(field, space_pred(), 12);
    let tr = trim(field);
    assert(tr == strip_trailing(field, space_pred()));
    let l1 = tr.len() as int;
    assert(12 < l1);
    assert(tr =~= field.take(l1));
    assert(tr[12] == field[12]);
    lemma_strip_trailing_keeps(tr, char_pred('\0'), 12);
    let f = icy_field(field);
    assert(f == strip_trailing(tr, char_pred('\0')));
    assert(f[12] == tr[12]);
    assert forall|j: int| 0 <= j < 12 implies f[j] == key[j] by {
        assert(f[j] == tr[j] && tr[j] == field[j] && field[j] == meta[j]);
        assert(meta[j] == "StreamTitle='"@[j]);
    }
    assert(f.take(12) =~= key);
    assert(is_title_field(field));
    let value = f.skip(12);
    assert(value[0] == '\'');
    assert(field.len() - strip_leading(field, space_pred()).len() == 0);
    assert(icy_title(meta) == quoted_title(w));
    let c = t.len() + 1int;
    assert(w[c] == '\'' && w[c + 1] == ';');
    assert(closes_at(w, c));
    assert forall|k: int| 0 <= k < t.len() implies w[1 + k] == t[k] by {}
    assert forall|j: int| 0 <= j < c implies !closes_at(w, j) by {
        if j == 0 {
            if t.len() > 0 {
                assert(w[1] == t[0]);
            }
        } else {
            lemma_close_inside(w, t, j);
            assert(w[j] == t[j - 1]);
            assert(!closes_at(t, j - 1));
        }
    }
    assert(first_close(w, c));
    let i = choose|i: int| first_close(w, i);
    assert(i == c) by {
        if i < c {
            assert(!closes_at(w, i));
        } else if i > c {
            assert(closes_at(w, c));
        }
    }
    let body = w.take(c);
    let q = char_pred('\'');
    assert(body.drop_first() =~= t);
    assert(strip_leading(body, q) == strip_leading(t, q));
    assert(strip_leading(t, q) == t);
    if t.len() > 0 && t.last() == '\'' {
        assert(closes_at(t, t.len() - 1));
    }
    assert(strip_trailing(t, q) == t);
}

/// The first `;` of `m` exists when `m[end]` is one.
proof fn lemma_first_semi(m: Seq<char>, end: int)
    requires
        0 <= end < m.len(),
        m[end] == ';',
    ensures
        exists|k: int| 0 <= k <= end && m[k] == ';' && forall|j: int| 0 <= j < k ==> m[j] != ';',
    decreases end,
{
    if exists|j: int| 0 <= j < end && m[j] == ';' {
        let j = choose|j: int| 0 <= j < end && m[j] == ';';
        lemma_first_semi(m, j);
    } else {
        assert(forall|j: int| 0 <= j < end ==> m[j] != ';');
    }
}

/// The size in bytes of a metadata block whose length byte is `len_byte`.
pub fn metadata_len(len_byte: u8) -> (n: usize)
    ensures
        n == len_byte * 16,
{
    len_byte as usize * 16
}

/// A decimal digit.
pub open spec fn is_digit(c: char) -> bool {
    '0' <= c <= '9'
}

pub open spec fn all_digits(s: Seq<char>) -> bool {
    forall|i: int| 0 <= i < s.len() ==> is_digit(#[trigger] s[i])
}

/// The number that a string of decimal digits writes.
pub open spec fn decimal_value(s: Seq<char>) -> nat
    decreases s.len(),
{
    if s.len() == 0 {
        0
    } else {
        decimal_value(s.drop_last()) * 10 + (s.last() as nat - '0' as nat) as nat
    }
}

/// What `str::parse::<usize>` gives: an optional `+`, then at least one
/// decimal digit, of a value that fits.
pub open spec fn usize_text(s: Seq<char>) -> Option<usize> {
    let digits = if s.len() > 0 && s[0] == '+' {
        s.skip(1)
    } else {
        s
    };
    if digits.len() > 0 && all_digits(digits) && decimal_value(digits) <= usize::MAX {
        Some(decimal_value(digits) as usize)
    } else {
        None
    }
}

proof fn lemma_decimal_grows(s: Seq<char>, i: int)
    requires
        0 <= i <= s.len(),
        all_digits(s),
    ensures
        decimal_value(s.take(i)) <= decimal_value(s),
    decreases s.len() - i,
{
    if i < s.len() {
        lemma_decimal_grows(s, i + 1);
        assert(s.take(i + 1).drop_last() =~= s.take(i));
    } else {
        assert(s.take(i) =~= s);
    }
}

/// The metadata interval that an `icy-metaint` header announces; 0 (no
/// metadata) when the header is missing or is not a number.
pub fn parse_metaint(header: Option<&str>) -> (n: usize)
    ensures
        n == match header {
            Some(h) => match usize_text(h@) {
                Some(v) => v,
                None => 0,
            },
            None => 0,
        },
{
    match header {
        None => 0,
        Some(h) => {
            let v = chars_of(h);
            let first: usize = if v.len() > 0 && v[0] == '+' {
                1
            } else {
                0
            };
            let ghost digits = v@.skip(first as int);
            assert(digits =~= (if h@.len() > 0 && h@[0] == '+' {
                h@.skip(1)
            } else {
                h@
            }));
            if first == v.len() {
                return 0;
            }
            let mut acc: usize = 0;
            let mut i = first;
            assert(digits.take(0) =~= Seq::<char>::empty());
            while i < v.len()
                invariant
                    header == Some(h),
                    v@ == h@,
                    first <= i <= v.len(),
                    digits == v@.skip(first as int),
                    digits == (if h@.len() > 0 && h@[0] == '+' {
                        h@.skip(1)
                    } else {
                        h@
                    }),
                    all_digits(digits.take(i - first)),
                    acc == decimal_value(digits.take(i - first)),
                decreases v.len() - i,
            {
                let c = v[i];
                if !('0' <= c && c <= '9') {
                    assert(digits[i - first] == c);
                    assert(!all_digits(digits));
                    return 0;
                }
                let d = (c as u32 - '0' as u32) as usize;
                assert(digits.take(i + 1 - first).drop_last() =~= digits.take(i - first));
                if acc > (usize::MAX - d) / 10 {
                    proof {
                        assert(acc * 10 + d > usize::MAX) by (nonlinear_arith)
                            requires
                                acc > (usize::MAX - d) / 10,
                                d <= 9,
                        ;
                        if all_digits(digits) {
                            lemma_decimal_grows(digits, i + 1 - first);
                        }
                    }
                    return 0;
                }
                assert(acc * 10 + d <= usize::MAX) by (nonlinear_arith)
                    requires
                        acc <= (usize::MAX - d) / 10,
                        d <= 9,
                ;
                acc = acc * 10 + d;
                i = i + 1;
            }
            assert(digits.take(v.len() - first) =~= digits);
            acc
        },
    }
}

/// Where a reader stands after `n` more bytes of audio, `pos` bytes into
/// a stretch of `metaint` (0: no metadata), and whether a metadata block
/// follows them: one does once the stretch is used up.
pub open spec fn icy_step(metaint: int, pos: int, n: int) -> (int, bool) {
    if metaint == 0 {
        (pos, false)
    } else if pos + n >= metaint {
        (0, true)
    } else {
        (pos + n, false)
    }
}

/// Where a reader stands after reading `chunks` of audio from the start.
pub open spec fn position_after(metaint: int, chunks: Seq<int>) -> int
    decreases chunks.len(),
{
    if chunks.len() == 0 {
        0
    } else {
        icy_step(metaint, position_after(metaint, chunks.drop_last()), chunks.last()).0
    }
}

/// The reads never run past a metadata block.
pub open spec fn reads_fit(metaint: int, chunks: Seq<int>) -> bool {
    forall|i: int|
        0 <= i < chunks.len() ==> 0 <= #[trigger] chunks[i] && position_after(
            metaint,
            chunks.take(i),
        ) + chunks[i] <= metaint
}

/// The number of bytes in all the chunks.
pub open spec fn total(chunks: Seq<int>) -> int
    decreases chunks.len(),
{
    if chunks.len() == 0 {
        0
    } else {
        total(chunks.drop_last()) + chunks.last()
    }
}

/// Metadata comes every `metaint` bytes of audio: when the reads never run
/// past a block, the reader's position is the number of audio bytes read so
/// far modulo the interval, and a block is due after a read exactly when
/// that number is a multiple of the interval.
pub proof fn lemma_blocks_every_interval(metaint: int, chunks: Seq<int>)
    requires
        metaint > 0,
        reads_fit(metaint, chunks),
    ensures
        position_after(metaint, chunks) == total(chunks) % metaint,
        chunks.len() > 0 ==> (icy_step(
            metaint,
            position_after(metaint, chunks.drop_last()),
            chunks.last(),
        ).1 <==> total(chunks) % metaint == 0 && chunks.last() > 0),
    decreases chunks.len(),
{
    if chunks.len() > 0 {
        let front = chunks.drop_last();
        assert forall|i: int| 0 <= i < front.len() implies 0 <= #[trigger] front[i]
            && position_after(metaint, front.take(i)) + front[i] <= metaint by {
            assert(front.take(i) =~= chunks.take(i));
            assert(front[i] == chunks[i]);
        }
        lemma_blocks_every_interval(metaint, front);
        let p = position_after(metaint, front);
        let c = chunks.last();
        assert(chunks.take(chunks.len() - 1) =~= front);
        assert(0 <= c && p + c <= metaint);
        let t = total(front);
        assert(total(chunks) == t + c);
        vstd::arithmetic::div_mod::lemma_add_mod_noop(t, c, metaint);
        vstd::arithmetic::div_mod::lemma_mod_bound(t, metaint);
        assert(p == t % metaint);
        assert(0 <= p < metaint);
        if c < metaint {
            vstd::arithmetic::div_mod::lemma_small_mod(c as nat, metaint as nat);
            assert(c % metaint == c);
            if p + c < metaint {
                vstd::arithmetic::div_mod::lemma_small_mod((p + c) as nat, metaint as nat);
            } else {
                assert(p + c == metaint);
                vstd::arithmetic::div_mod::lemma_mod_self_0(metaint);
            }
        } else {
            assert(c == metaint && p == 0);
            vstd::arithmetic::div_mod::lemma_mod_self_0(metaint);
            assert(c % metaint == 0);
            vstd::arithmetic::div_mod::lemma_small_mod(0nat, metaint as nat);
        }
        assert(position_after(metaint, chunks) == icy_step(metaint, p, c).0);
    } else {
        vstd::arithmetic::div_mod::lemma_small_mod(0nat, metaint as nat);
    }
}

/// Where a reader of an ICY stream stands: how far it is into the current
/// stretch of audio, and the last title it announced.
pub struct IcyReader {
    pub metaint: usize,
    pub since_meta: usize,
    pub last_title: String,
}

impl IcyReader {
    /// Within a stretch of audio the position never passes the interval.
    pub open spec fn wf(&self) -> bool {
        self.metaint > 0 ==> self.since_meta < self.metaint
    }

    /// A reader at the start of a stream whose interval is `metaint`
    /// (0: the server sends no metadata).
    pub fn new(metaint: usize) -> (r: IcyReader)
        ensures
            r.wf(),
            r.metaint == metaint,
            r.since_meta == 0,
            r.last_title@ == Seq::<char>::empty(),
    {
        IcyReader { metaint, since_meta: 0, last_title: String::new() }
    }

    /// How many bytes the next read may take into a buffer of `buf_len`
    /// bytes without running into a metadata block.
    pub fn read_len(&self, buf_len: usize) -> (n: usize)
        requires
            self.wf(),
        ensures
            self.metaint > 0 ==> n == if self.metaint - self.since_meta <= buf_len {
                (self.metaint - self.since_meta) as usize
            } else {
                buf_len
            },
            self.metaint == 0 ==> n == buf_len,
            self.metaint > 0 && buf_len > 0 ==> n > 0,
    {
        if self.metaint > 0 {
            let left = self.metaint - self.since_meta;
            if left <= buf_len {
                left
            } else {
                buf_len
            }
        } else {
            buf_len
        }
    }

    /// Counts `n` bytes of audio just read; true when a metadata block
    /// follows them, and the count then starts over.
    pub fn consumed(&mut self, n: usize) -> (block_due: bool)
        requires
            old(self).wf(),
            old(self).metaint > 0 ==> old(self).since_meta + n <= usize::MAX,
        ensures
            final(self).wf(),
            final(self).metaint == old(self).metaint,
            final(self).last_title == old(self).last_title,
            (final(self).since_meta as int, block_due) == icy_step(
                old(self).metaint as int,
                old(self).since_meta as int,
                n as int,
            ),
    {
        if self.metaint == 0 {
            return false;
        }
        self.since_meta = self.since_meta + n;
        if self.since_meta >= self.metaint {
            self.since_meta = 0;
            true
        } else {
            false
        }
    }

    /// Reads a block of metadata: the title to announce, if the block is
    /// UTF-8 and names a title that is not empty and differs from the last
    /// one announced; that title is then the last one.
    pub fn title_update(&mut self, meta: &[u8]) -> (r: Option<String>)
        ensures
            final(self).metaint == old(self).metaint,
            final(self).since_meta == old(self).since_meta,
            match announcement(old(self).last_title@, meta@) {
                Some(t) => r matches Some(s) && s@ == t && final(self).last_title@ == t,
                None => r is None && final(self).last_title == old(self).last_title,
            },
    {
        match utf8_text(meta) {
            Some(text) => {
                let title = parse_icy_title(text);
                let tv = chars_of(title.as_str());
                if tv.len() > 0 && title != self.last_title {
                    self.last_title = title.clone();
                    Some(title)
                } else {
                    None
                }
            },
            None => None,
        }
    }
}

} // verus!
