//! Why a snapshot can be read back: the text determines the tracks.
//!
//! Each piece of a line ends where its own form says so, whatever follows:
//! a string at its closing quotation mark, a number at the first character
//! that is no digit, an array at its closing bracket. So two lines that
//! agree hold the same track, and two snapshots that agree hold the same
//! tracks in the same order.

use crate::json::{
    decimal_digit, decimal_digits, escaped_char, escaped_text, hex_digit, json_integer,
    json_string, json_string_array, json_strings,
};
use crate::snapshot::{snapshot_text, track_line, track_lines};
use crate::text::{joined, scalar};
use crate::track::TrackView;
use vstd::prelude::*;

verus! {

/// Texts that agree and start with pieces of one length agree piece by
/// piece.
pub proof fn lemma_split_at_same_length(a: Seq<char>, x: Seq<char>, b: Seq<char>, y: Seq<char>)
    requires
        a + x == b + y,
        a.len() == b.len(),
    ensures
        a == b,
        x == y,
{
    assert(a =~= (a + x).take(a.len() as int));
    assert(b =~= (b + y).take(b.len() as int));
    assert(x =~= (a + x).skip(a.len() as int));
    assert(y =~= (b + y).skip(b.len() as int));
}

/// What escapes a character starts with a backslash, or is the character
/// itself; it does not start with a quotation mark.
pub proof fn lemma_escaped_char_first(c: char)
    ensures
        escaped_char(c).len() >= 1,
        escaped_char(c)[0] != '"',
        escaped_char(c)[0] == '\\' || escaped_char(c) == seq![c],
{
}

/// The hexadecimal digits differ from one another.
proof fn lemma_hex_digit_injective(m: int, n: int)
    requires
        0 <= m < 16,
        0 <= n < 16,
        hex_digit(m) == hex_digit(n),
    ensures
        m == n,
{
}

/// No escape is the beginning of another: texts that agree and start with
/// escaped characters start with the same character and agree behind it.
pub proof fn lemma_escaped_char_ends(c: char, x: Seq<char>, d: char, y: Seq<char>)
    requires
        escaped_char(c) + x == escaped_char(d) + y,
    ensures
        c == d,
        x == y,
{
    let e = escaped_char(c);
    let f = escaped_char(d);
    let left = e + x;
    let right = f + y;
    lemma_escaped_char_first(c);
    lemma_escaped_char_first(d);
    assert(left[0] == e[0] && right[0] == f[0]);
    if e[0] != '\\' {
        assert(c == d);
    } else {
        assert(e.len() >= 2 && f.len() >= 2);
        assert(left[1] == e[1] && right[1] == f[1]);
        if e[1] == 'u' {
            assert(e.len() == 6 && f.len() == 6);
            assert(left[4] == e[4] && right[4] == f[4]);
            assert(left[5] == e[5] && right[5] == f[5]);
            lemma_hex_digit_injective(scalar(c) / 16, scalar(d) / 16);
            lemma_hex_digit_injective(scalar(c) % 16, scalar(d) % 16);
            assert(scalar(c) == scalar(d));
            assert(c == d) by {
                vstd::utf8::char_u32_cast(c, c as u32);
                vstd::utf8::char_u32_cast(d, d as u32);
            }
        } else {
            assert(c == d);
        }
    }
    lemma_split_at_same_length(e, x, f, y);
}

/// Escaped text ends at the first quotation mark: texts that agree and
/// start with escaped text and a quotation mark hold the same text in front
/// of the mark and agree behind it.
pub proof fn lemma_escaped_text_ends(s: Seq<char>, x: Seq<char>, t: Seq<char>, y: Seq<char>)
    requires
        escaped_text(s) + seq!['"'] + x == escaped_text(t) + seq!['"'] + y,
    ensures
        s == t,
        x == y,
    decreases s.len(),
{
    let left = escaped_text(s) + seq!['"'] + x;
    let right = escaped_text(t) + seq!['"'] + y;
    if s.len() == 0 || t.len() == 0 {
        if s.len() > 0 {
            lemma_escaped_char_first(s[0]);
            assert(left[0] == escaped_char(s[0])[0]);
            assert(right[0] == '"');
        }
        if t.len() > 0 {
            lemma_escaped_char_first(t[0]);
            assert(right[0] == escaped_char(t[0])[0]);
            assert(left[0] == '"');
        }
        assert(s =~= t);
        lemma_split_at_same_length(escaped_text(s) + seq!['"'], x, escaped_text(t) + seq!['"'], y);
    } else {
        let s_rest = escaped_text(s.drop_first()) + seq!['"'] + x;
        let t_rest = escaped_text(t.drop_first()) + seq!['"'] + y;
        assert(left =~= escaped_char(s[0]) + s_rest);
        assert(right =~= escaped_char(t[0]) + t_rest);
        lemma_escaped_char_ends(s[0], s_rest, t[0], t_rest);
        lemma_escaped_text_ends(s.drop_first(), x, t.drop_first(), y);
        assert(s =~= seq![s[0]] + s.drop_first());
        assert(t =~= seq![t[0]] + t.drop_first());
    }
}

/// A JSON string ends at its closing quotation mark: texts that agree and
/// start with JSON strings hold the same string and agree behind it.
pub proof fn lemma_json_string_ends(s: Seq<char>, x: Seq<char>, t: Seq<char>, y: Seq<char>)
    requires
        json_string(s) + x == json_string(t) + y,
    ensures
        s == t,
        x == y,
{
    let open = seq!['"'];
    let s_rest = escaped_text(s) + seq!['"'] + x;
    let t_rest = escaped_text(t) + seq!['"'] + y;
    assert(json_string(s) + x =~= open + s_rest);
    assert(json_string(t) + y =~= open + t_rest);
    lemma_split_at_same_length(open, s_rest, open, t_rest);
    lemma_escaped_text_ends(s, x, t, y);
}

/// A decimal digit.
pub open spec fn is_digit(c: char) -> bool {
    48 <= scalar(c) <= 57
}

/// The number that decimal digits write.
pub open spec fn digits_value(digits: Seq<char>) -> nat
    decreases digits.len(),
{
    if digits.len() == 0 {
        0
    } else {
        (digits_value(digits.drop_last()) * 10 + (scalar(digits.last()) - 48)) as nat
    }
}

/// `decimal_digits` writes at least one character, digits only, and they
/// write the number back.
pub proof fn lemma_decimal_digits(n: nat)
    ensures
        decimal_digits(n).len() >= 1,
        forall|i: int| 0 <= i < decimal_digits(n).len() ==> is_digit(#[trigger] decimal_digits(n)[i]),
        digits_value(decimal_digits(n)) == n,
    decreases n,
{
    let d = decimal_digit((n % 10) as int);
    assert(is_digit(d) && scalar(d) - 48 == n % 10);
    if n < 10 {
        assert(seq![d].drop_last() =~= Seq::<char>::empty());
        assert(digits_value(seq![d].drop_last()) == 0);
    } else {
        lemma_decimal_digits(n / 10);
        assert(decimal_digits(n).drop_last() =~= decimal_digits(n / 10));
    }
}

/// A JSON integer ends at the first character that is neither a digit nor a
/// minus sign: texts that agree and start with JSON integers, each followed
/// by such a character, hold the same integer and agree behind it.
pub proof fn lemma_json_integer_ends(m: int, x: Seq<char>, n: int, y: Seq<char>)
    requires
        json_integer(m) + x == json_integer(n) + y,
        x.len() > 0 && !is_digit(x[0]) && x[0] != '-',
        y.len() > 0 && !is_digit(y[0]) && y[0] != '-',
    ensures
        m == n,
        x == y,
{
    let a = json_integer(m);
    let b = json_integer(n);
    let m_abs = (if m < 0 { -m } else { m }) as nat;
    let n_abs = (if n < 0 { -n } else { n }) as nat;
    lemma_decimal_digits(m_abs);
    lemma_decimal_digits(n_abs);
    // every character of a JSON integer is a digit or a minus sign
    assert forall|i: int| 0 <= i < a.len() implies is_digit(#[trigger] a[i]) || a[i] == '-' by {
        if m < 0 && i > 0 {
            assert(a[i] == decimal_digits(m_abs)[i - 1]);
        }
    }
    assert forall|i: int| 0 <= i < b.len() implies is_digit(#[trigger] b[i]) || b[i] == '-' by {
        if n < 0 && i > 0 {
            assert(b[i] == decimal_digits(n_abs)[i - 1]);
        }
    }
    if a.len() < b.len() {
        assert((a + x)[a.len() as int] == x[0]);
        assert((b + y)[a.len() as int] == b[a.len() as int]);
    }
    if b.len() < a.len() {
        assert((b + y)[b.len() as int] == y[0]);
        assert((a + x)[b.len() as int] == a[b.len() as int]);
    }
    lemma_split_at_same_length(a, x, b, y);
    // the sign is the first character, the digits write the magnitude
    assert(a[0] == b[0]);
    assert(m < 0 ==> a[0] == '-');
    assert(m >= 0 ==> a[0] == decimal_digits(m_abs)[0] && is_digit(a[0]));
    assert(n < 0 ==> b[0] == '-');
    assert(n >= 0 ==> b[0] == decimal_digits(n_abs)[0] && is_digit(b[0]));
    assert((m < 0) == (n < 0));
    if m < 0 {
        lemma_split_at_same_length(
            seq!['-'],
            decimal_digits(m_abs),
            seq!['-'],
            decimal_digits(n_abs),
        );
    }
    assert(decimal_digits(m_abs) == decimal_digits(n_abs));
}

/// The items of a JSON array end at its closing bracket: texts that agree
/// and start with the items of arrays of strings, each followed by a closing
/// bracket, hold the same strings and agree behind the bracket.
pub proof fn lemma_json_items_end(a: Seq<Seq<char>>, x: Seq<char>, b: Seq<Seq<char>>, y: Seq<char>)
    requires
        joined(json_strings(a), seq![',']) + seq![']'] + x == joined(json_strings(b), seq![','])
            + seq![']'] + y,
    ensures
        a == b,
        x == y,
    decreases a.len(),
{
    let comma = seq![','];
    let close = seq![']'];
    let left = joined(json_strings(a), comma) + close + x;
    let right = joined(json_strings(b), comma) + close + y;
    if a.len() == 0 || b.len() == 0 {
        // an item starts with a quotation mark, not with a bracket
        if a.len() > 0 {
            assert(json_strings(a)[0] == json_string(a[0]));
            assert(left[0] == '"');
            assert(right[0] == ']');
        }
        if b.len() > 0 {
            assert(json_strings(b)[0] == json_string(b[0]));
            assert(right[0] == '"');
            assert(left[0] == ']');
        }
        assert(a =~= b);
        lemma_split_at_same_length(
            joined(json_strings(a), comma) + close,
            x,
            joined(json_strings(b), comma) + close,
            y,
        );
    } else {
        let a_tail = a.drop_first();
        let b_tail = b.drop_first();
        assert(json_strings(a).drop_first() =~= json_strings(a_tail));
        assert(json_strings(b).drop_first() =~= json_strings(b_tail));
        assert(json_strings(a)[0] == json_string(a[0]));
        assert(json_strings(b)[0] == json_string(b[0]));
        let a_rest = if a.len() == 1 {
            close + x
        } else {
            comma + (joined(json_strings(a_tail), comma) + close + x)
        };
        let b_rest = if b.len() == 1 {
            close + y
        } else {
            comma + (joined(json_strings(b_tail), comma) + close + y)
        };
        assert(left =~= json_string(a[0]) + a_rest);
        assert(right =~= json_string(b[0]) + b_rest);
        lemma_json_string_ends(a[0], a_rest, b[0], b_rest);
        assert(a_rest[0] == b_rest[0]);
        if a.len() == 1 {
            assert(b.len() == 1);
            lemma_split_at_same_length(close, x, close, y);
            assert(a_tail =~= b_tail);
        } else {
            assert(b.len() > 1);
            lemma_split_at_same_length(
                comma,
                joined(json_strings(a_tail), comma) + close + x,
                comma,
                joined(json_strings(b_tail), comma) + close + y,
            );
            lemma_json_items_end(a_tail, x, b_tail, y);
        }
        assert(a =~= seq![a[0]] + a_tail);
        assert(b =~= seq![b[0]] + b_tail);
    }
}

/// A JSON array of strings ends at its closing bracket: texts that agree
/// and start with such arrays hold the same strings and agree behind the
/// array.
pub proof fn lemma_json_string_array_ends(
    a: Seq<Seq<char>>,
    x: Seq<char>,
    b: Seq<Seq<char>>,
    y: Seq<char>,
)
    requires
        json_string_array(a) + x == json_string_array(b) + y,
    ensures
        a == b,
        x == y,
{
    let open = seq!['['];
    let a_rest = joined(json_strings(a), seq![',']) + seq![']'] + x;
    let b_rest = joined(json_strings(b), seq![',']) + seq![']'] + y;
    assert(json_string_array(a) + x =~= open + a_rest);
    assert(json_string_array(b) + y =~= open + b_rest);
    lemma_split_at_same_length(open, a_rest, open, b_rest);
    lemma_json_items_end(a, x, b, y);
}

/// What follows the song title in the line of `track`, with `x` behind the
/// line.
pub open spec fn behind_song_name(track: TrackView, x: Seq<char>) -> Seq<char> {
    ",\"added_at\":"@ + (json_integer(track.added_at) + behind_added_at(track, x))
}

/// What follows the time in the line of `track`, with `x` behind the line.
pub open spec fn behind_added_at(track: TrackView, x: Seq<char>) -> Seq<char> {
    ",\"artist_names\":"@ + (json_string_array(track.artist_names) + behind_artist_names(track, x))
}

/// What follows the artists' names in the line of `track`, with `x` behind
/// the line.
pub open spec fn behind_artist_names(track: TrackView, x: Seq<char>) -> Seq<char> {
    ",\"album_name\":"@ + (json_string(track.album_name) + ("}"@ + x))
}

/// A line and what follows it, piece by piece from the front.
proof fn lemma_track_line_pieces(track: TrackView, x: Seq<char>)
    ensures
        track_line(track) + x == "{\"song_name\":"@ + (json_string(track.song_name)
            + behind_song_name(track, x)),
{
    let k1 = "{\"song_name\":"@;
    let k2 = ",\"added_at\":"@;
    let k3 = ",\"artist_names\":"@;
    let k4 = ",\"album_name\":"@;
    let k5 = "}"@;
    let song = json_string(track.song_name);
    let time = json_integer(track.added_at);
    let artists = json_string_array(track.artist_names);
    let album = json_string(track.album_name);
    let t8 = k5 + x;
    let t7 = album + t8;
    let t6 = k4 + t7;
    let t5 = artists + t6;
    let t4 = k3 + t5;
    let t3 = time + t4;
    let t2 = k2 + t3;
    let t1 = song + t2;
    assert(k1 + song + k2 + time + k3 + artists + k4 + album + k5 + x =~= k1 + song + k2 + time + k3 + artists + k4 + t7);
    assert(k1 + song + k2 + time + k3 + artists + k4 + t7 =~= k1 + song + k2 + time + k3 + t5);
    assert(k1 + song + k2 + time + k3 + t5 =~= k1 + song + k2 + t3);
    assert(k1 + song + k2 + t3 =~= k1 + t1);
}

/// A line ends at the brace that closes its object: texts that agree and
/// start with the lines of tracks hold the same track and agree behind the
/// line.
pub proof fn lemma_track_line_ends(a: TrackView, x: Seq<char>, b: TrackView, y: Seq<char>)
    requires
        track_line(a) + x == track_line(b) + y,
    ensures
        a == b,
        x == y,
{
    let k1 = "{\"song_name\":"@;
    let k2 = ",\"added_at\":"@;
    let k3 = ",\"artist_names\":"@;
    let k4 = ",\"album_name\":"@;
    let k5 = "}"@;
    lemma_track_line_pieces(a, x);
    lemma_track_line_pieces(b, y);
    lemma_split_at_same_length(
        k1,
        json_string(a.song_name) + behind_song_name(a, x),
        k1,
        json_string(b.song_name) + behind_song_name(b, y),
    );
    lemma_json_string_ends(
        a.song_name,
        behind_song_name(a, x),
        b.song_name,
        behind_song_name(b, y),
    );
    lemma_split_at_same_length(
        k2,
        json_integer(a.added_at) + behind_added_at(a, x),
        k2,
        json_integer(b.added_at) + behind_added_at(b, y),
    );
    assert(behind_added_at(a, x)[0] == ',' && behind_added_at(b, y)[0] == ',') by {
        reveal_strlit(",\"artist_names\":");
    }
    lemma_json_integer_ends(a.added_at, behind_added_at(a, x), b.added_at, behind_added_at(b, y));
    lemma_split_at_same_length(
        k3,
        json_string_array(a.artist_names) + behind_artist_names(a, x),
        k3,
        json_string_array(b.artist_names) + behind_artist_names(b, y),
    );
    lemma_json_string_array_ends(
        a.artist_names,
        behind_artist_names(a, x),
        b.artist_names,
        behind_artist_names(b, y),
    );
    lemma_split_at_same_length(
        k4,
        json_string(a.album_name) + (k5 + x),
        k4,
        json_string(b.album_name) + (k5 + y),
    );
    lemma_json_string_ends(a.album_name, k5 + x, b.album_name, k5 + y);
    lemma_split_at_same_length(k5, x, k5, y);
}

/// A line holds one track: tracks with the same line are the same track.
pub proof fn lemma_track_line_determines_track(a: TrackView, b: TrackView)
    requires
        track_line(a) == track_line(b),
    ensures
        a == b,
{
    lemma_track_line_ends(a, Seq::empty(), b, Seq::empty());
}

/// A snapshot holds one list of tracks: lists with the same snapshot text
/// hold the same tracks in the same order.
pub proof fn lemma_snapshot_determines_tracks(a: Seq<TrackView>, b: Seq<TrackView>)
    requires
        snapshot_text(a) == snapshot_text(b),
    ensures
        a == b,
    decreases a.len(),
{
    reveal_strlit("{\"song_name\":");
    let feed = seq!['\n'];
    if a.len() == 0 || b.len() == 0 {
        // a line starts with a brace, not with a line feed
        if a.len() > 0 {
            assert(track_lines(a)[0] == track_line(a[0]));
            assert(snapshot_text(a)[0] == '{');
            assert(snapshot_text(b)[0] == '\n');
        }
        if b.len() > 0 {
            assert(track_lines(b)[0] == track_line(b[0]));
            assert(snapshot_text(b)[0] == '{');
            assert(snapshot_text(a)[0] == '\n');
        }
        assert(a =~= b);
    } else {
        let a_tail = a.drop_first();
        let b_tail = b.drop_first();
        assert(track_lines(a).drop_first() =~= track_lines(a_tail));
        assert(track_lines(b).drop_first() =~= track_lines(b_tail));
        assert(track_lines(a)[0] == track_line(a[0]));
        assert(track_lines(b)[0] == track_line(b[0]));
        let a_rest = if a.len() == 1 {
            feed
        } else {
            feed + snapshot_text(a_tail)
        };
        let b_rest = if b.len() == 1 {
            feed
        } else {
            feed + snapshot_text(b_tail)
        };
        assert(snapshot_text(a) =~= track_line(a[0]) + a_rest);
        assert(snapshot_text(b) =~= track_line(b[0]) + b_rest);
        lemma_track_line_ends(a[0], a_rest, b[0], b_rest);
        assert(a_rest.len() == b_rest.len());
        if a.len() == 1 {
            assert(b.len() == 1);
            assert(a_tail =~= b_tail);
        } else {
            assert(b.len() > 1);
            lemma_split_at_same_length(feed, snapshot_text(a_tail), feed, snapshot_text(b_tail));
            lemma_snapshot_determines_tracks(a_tail, b_tail);
        }
        assert(a =~= seq![a[0]] + a_tail);
        assert(b =~= seq![b[0]] + b_tail);
    }
}

/// The tracks that a snapshot text holds: a list whose snapshot is the
/// text, if there is one.
pub open spec fn tracks_written_in(text: Seq<char>) -> Seq<TrackView> {
    choose|tracks: Seq<TrackView>| snapshot_text(tracks) == text
}

/// The tracks that a snapshot holds are the tracks that were written, each
/// equal to what it was, in the order in which they were written.
pub proof fn lemma_snapshot_reads_back(tracks: Seq<TrackView>)
    ensures
        tracks_written_in(snapshot_text(tracks)) == tracks,
{
    lemma_snapshot_determines_tracks(tracks_written_in(snapshot_text(tracks)), tracks);
}

/// The text holds no line feed.
pub open spec fn on_one_line(text: Seq<char>) -> bool {
    forall|i: int| 0 <= i < text.len() ==> text[i] != '\n'
}

/// Escaped text is on one line: a line feed in the text is written as a
/// backslash and the letter `n`.
pub proof fn lemma_escaped_text_on_one_line(text: Seq<char>)
    ensures
        on_one_line(escaped_text(text)),
    decreases text.len(),
{
    if text.len() > 0 {
        lemma_escaped_text_on_one_line(text.drop_first());
        let head = escaped_char(text[0]);
        let tail = escaped_text(text.drop_first());
        assert forall|i: int| 0 <= i < head.len() implies head[i] != '\n' by {}
        assert forall|i: int| 0 <= i < (head + tail).len() implies (head + tail)[i] != '\n' by {
            if i >= head.len() {
                assert((head + tail)[i] == tail[i - head.len()]);
            }
        }
    }
}

/// Texts on one line make one line when joined by a separator that is on
/// one line.
pub proof fn lemma_joined_on_one_line(parts: Seq<Seq<char>>, separator: Seq<char>)
    requires
        forall|k: int| 0 <= k < parts.len() ==> on_one_line(#[trigger] parts[k]),
        on_one_line(separator),
    ensures
        on_one_line(joined(parts, separator)),
    decreases parts.len(),
{
    if parts.len() > 1 {
        let tail = parts.drop_first();
        assert forall|k: int| 0 <= k < tail.len() implies on_one_line(#[trigger] tail[k]) by {
            assert(tail[k] == parts[k + 1]);
        }
        lemma_joined_on_one_line(tail, separator);
        assert(on_one_line(parts[0]));
    } else if parts.len() == 1 {
        assert(on_one_line(parts[0]));
    }
}

/// The line of a track is one line: it holds no line feed.
pub proof fn lemma_track_line_on_one_line(track: TrackView)
    ensures
        on_one_line(track_line(track)),
{
    reveal_strlit("{\"song_name\":");
    reveal_strlit(",\"added_at\":");
    reveal_strlit(",\"artist_names\":");
    reveal_strlit(",\"album_name\":");
    reveal_strlit("}");
    lemma_escaped_text_on_one_line(track.song_name);
    lemma_escaped_text_on_one_line(track.album_name);
    assert(on_one_line(json_string(track.song_name)));
    assert(on_one_line(json_string(track.album_name)));
    assert(on_one_line(json_integer(track.added_at))) by {
        let magnitude = (if track.added_at < 0 {
            -track.added_at
        } else {
            track.added_at
        }) as nat;
        lemma_decimal_digits(magnitude);
        let digits = decimal_digits(magnitude);
        assert forall|i: int| 0 <= i < digits.len() implies digits[i] != '\n' by {
            assert(is_digit(digits[i]));
        }
    }
    assert(on_one_line(json_string_array(track.artist_names))) by {
        let items = json_strings(track.artist_names);
        assert forall|k: int| 0 <= k < items.len() implies on_one_line(#[trigger] items[k]) by {
            lemma_escaped_text_on_one_line(track.artist_names[k]);
            assert(items[k] == json_string(track.artist_names[k]));
        }
        lemma_joined_on_one_line(items, seq![',']);
    }
}

/// The lines of a text: what stands in front of each of its line feeds,
/// from one line feed to the next. What follows the last line feed is no
/// line.
pub open spec fn lines_of(text: Seq<char>) -> Seq<Seq<char>>
    decreases text.len(),
{
    match text.index_of_first('\n') {
        Some(i) => if 0 <= i < text.len() {
            seq![text.take(i)] + lines_of(text.skip(i + 1))
        } else {
            Seq::empty()
        },
        None => Seq::empty(),
    }
}

/// A text that starts with one line and a line feed has that line as its
/// first line; its other lines are those of what follows.
pub proof fn lemma_lines_of_first(line: Seq<char>, rest: Seq<char>)
    requires
        on_one_line(line),
    ensures
        lines_of(line + seq!['\n'] + rest) == seq![line] + lines_of(rest),
{
    let text = line + seq!['\n'] + rest;
    text.index_of_first_ensures('\n');
    assert(text[line.len() as int] == '\n');
    assert(text.contains('\n'));
    let i = text.index_of_first('\n').unwrap();
    assert(i == line.len()) by {
        if i < line.len() {
            assert(text[i] == line[i]);
        }
    }
    assert(text.take(i) =~= line);
    assert(text.skip(i + 1) =~= rest);
}

/// The lines of a snapshot are the lines of its tracks, in the order of the
/// tracks. The snapshot of no tracks is one empty line.
pub proof fn lemma_snapshot_lines(tracks: Seq<TrackView>)
    ensures
        lines_of(snapshot_text(tracks)) == if tracks.len() == 0 {
            seq![Seq::<char>::empty()]
        } else {
            track_lines(tracks)
        },
    decreases tracks.len(),
{
    let feed = seq!['\n'];
    let nothing = Seq::<char>::empty();
    assert(lines_of(nothing) =~= Seq::<Seq<char>>::empty()) by {
        nothing.index_of_first_ensures('\n');
    }
    if tracks.len() == 0 {
        lemma_lines_of_first(nothing, nothing);
        assert(snapshot_text(tracks) =~= nothing + feed + nothing);
        assert(seq![nothing] + Seq::<Seq<char>>::empty() =~= seq![nothing]);
    } else {
        let line = track_line(tracks[0]);
        let tail = tracks.drop_first();
        lemma_track_line_on_one_line(tracks[0]);
        assert(track_lines(tracks)[0] == line);
        assert(track_lines(tracks).drop_first() =~= track_lines(tail));
        assert(track_lines(tracks) =~= seq![line] + track_lines(tail));
        if tail.len() == 0 {
            lemma_lines_of_first(line, nothing);
            assert(snapshot_text(tracks) =~= line + feed + nothing);
            assert(track_lines(tail) =~= Seq::<Seq<char>>::empty());
        } else {
            lemma_snapshot_lines(tail);
            lemma_lines_of_first(line, snapshot_text(tail));
            assert(snapshot_text(tracks) =~= line + feed + snapshot_text(tail));
        }
    }
}

} // verus!
