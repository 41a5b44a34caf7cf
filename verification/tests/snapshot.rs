use liked_songs::json::{encode_integer, encode_string, encode_string_array};
use liked_songs::snapshot::{encode_track, render_snapshot, serialize_liked_songs};
use liked_songs::text::join;
use liked_songs::track::{get_liked_songs_list, SavedTrack, TrimmedTrackInfo};

fn entry(song: &str, added_at: i64, artists: &[&str], album: &str) -> SavedTrack {
    SavedTrack {
        song_name: song.to_string(),
        added_at,
        artist_names: artists.iter().map(|a| a.to_string()).collect(),
        album_name: album.to_string(),
    }
}

fn track(song: &str, added_at: i64, artists: &[&str], album: &str) -> TrimmedTrackInfo {
    TrimmedTrackInfo::from_saved_track(entry(song, added_at, artists, album))
}

#[test]
fn json_string_of_plain_text() {
    assert_eq!(encode_string("A"), "\"A\"");
    assert_eq!(encode_string(""), "\"\"");
    assert_eq!(encode_string("Liked Songs"), "\"Liked Songs\"");
}

#[test]
fn json_string_escapes_quote_and_backslash() {
    assert_eq!(encode_string("\""), "\"\\\"\"");
    assert_eq!(encode_string("\\"), "\"\\\\\"");
    assert_eq!(encode_string("a\"b\\c"), "\"a\\\"b\\\\c\"");
}

#[test]
fn json_string_escapes_control_characters() {
    assert_eq!(encode_string("\u{08}"), "\"\\b\"");
    assert_eq!(encode_string("\u{0c}"), "\"\\f\"");
    assert_eq!(encode_string("\n"), "\"\\n\"");
    assert_eq!(encode_string("\r"), "\"\\r\"");
    assert_eq!(encode_string("\t"), "\"\\t\"");
    assert_eq!(encode_string("\u{00}"), "\"\\u0000\"");
    assert_eq!(encode_string("\u{01}"), "\"\\u0001\"");
    assert_eq!(encode_string("\u{0b}"), "\"\\u000b\"");
    assert_eq!(encode_string("\u{1a}"), "\"\\u001a\"");
    assert_eq!(encode_string("\u{1f}"), "\"\\u001f\"");
}

#[test]
fn json_string_leaves_other_characters_alone() {
    assert_eq!(encode_string(" "), "\" \"");
    assert_eq!(encode_string("/"), "\"/\"");
    assert_eq!(encode_string("\u{7f}"), "\"\u{7f}\"");
    assert_eq!(encode_string("\u{80}"), "\"\u{80}\"");
    assert_eq!(encode_string("Beyoncé"), "\"Beyoncé\"");
    assert_eq!(encode_string("日本語 🎵"), "\"日本語 🎵\"");
    assert_eq!(encode_string("\u{2028}"), "\"\u{2028}\"");
}

#[test]
fn json_integer_is_decimal() {
    assert_eq!(encode_integer(0), "0");
    assert_eq!(encode_integer(7), "7");
    assert_eq!(encode_integer(10), "10");
    assert_eq!(encode_integer(100), "100");
    assert_eq!(encode_integer(-1), "-1");
    assert_eq!(encode_integer(-120), "-120");
    assert_eq!(encode_integer(1_650_000_000), "1650000000");
    assert_eq!(encode_integer(i64::MAX), "9223372036854775807");
    assert_eq!(encode_integer(i64::MIN), "-9223372036854775808");
}

#[test]
fn json_array_of_strings() {
    assert_eq!(encode_string_array(&Vec::new()), "[]");
    assert_eq!(encode_string_array(&vec!["a".to_string()]), "[\"a\"]");
    assert_eq!(
        encode_string_array(&vec!["a".to_string(), "b\"".to_string(), "".to_string()]),
        "[\"a\",\"b\\\"\",\"\"]"
    );
}

#[test]
fn join_puts_the_separator_between_neighbours() {
    assert_eq!(join(&Vec::new(), ","), "");
    assert_eq!(join(&vec!["a".to_string()], ","), "a");
    assert_eq!(join(&vec!["a".to_string(), "b".to_string()], ","), "a,b");
    assert_eq!(
        join(&vec!["a".to_string(), "".to_string(), "c".to_string()], "--"),
        "a----c"
    );
    assert_eq!(join(&vec!["".to_string(), "".to_string()], "\n"), "\n");
    assert_eq!(join(&vec!["x".to_string(), "y".to_string()], ""), "xy");
}

#[test]
fn line_of_a_track() {
    assert_eq!(
        encode_track(&track("A", 100, &["Y", "X"], "B")),
        "{\"song_name\":\"A\",\"added_at\":100,\"artist_names\":[\"X\",\"Y\"],\"album_name\":\"B\"}"
    );
}

#[test]
fn line_of_a_track_with_escapes() {
    assert_eq!(
        encode_track(&track("A \"b\"\n", -5, &[], "c\\d")),
        "{\"song_name\":\"A \\\"b\\\"\\n\",\"added_at\":-5,\"artist_names\":[],\"album_name\":\"c\\\\d\"}"
    );
}

#[test]
fn snapshot_of_nothing_is_one_line_feed() {
    assert_eq!(render_snapshot(&Vec::new()), "\n");
    assert_eq!(serialize_liked_songs(Vec::new()), "\n");
}

#[test]
fn snapshot_ends_every_line_with_a_line_feed() {
    let one = vec![track("A", 1, &[], "x")];
    assert_eq!(
        render_snapshot(&one),
        "{\"song_name\":\"A\",\"added_at\":1,\"artist_names\":[],\"album_name\":\"x\"}\n"
    );
    let two = vec![track("A", 1, &[], "x"), track("B", 2, &["c"], "y")];
    assert_eq!(
        render_snapshot(&two),
        "{\"song_name\":\"A\",\"added_at\":1,\"artist_names\":[],\"album_name\":\"x\"}\n\
         {\"song_name\":\"B\",\"added_at\":2,\"artist_names\":[\"c\"],\"album_name\":\"y\"}\n"
    );
}

#[test]
fn render_snapshot_keeps_the_order_given() {
    let list = vec![track("B", 2, &[], "y"), track("A", 1, &[], "x")];
    assert_eq!(
        render_snapshot(&list),
        "{\"song_name\":\"B\",\"added_at\":2,\"artist_names\":[],\"album_name\":\"y\"}\n\
         {\"song_name\":\"A\",\"added_at\":1,\"artist_names\":[],\"album_name\":\"x\"}\n"
    );
}

#[test]
fn serializer_orders_by_time_then_song_name() {
    let text = serialize_liked_songs(vec![
        track("Zeta", 100, &[], "x"),
        track("Late", 200, &[], "x"),
        track("Alpha", 100, &[], "x"),
    ]);
    assert_eq!(
        text,
        "{\"song_name\":\"Alpha\",\"added_at\":100,\"artist_names\":[],\"album_name\":\"x\"}\n\
         {\"song_name\":\"Zeta\",\"added_at\":100,\"artist_names\":[],\"album_name\":\"x\"}\n\
         {\"song_name\":\"Late\",\"added_at\":200,\"artist_names\":[],\"album_name\":\"x\"}\n"
    );
}

#[test]
fn same_timestamp_alpha_line_comes_before_zeta_line() {
    let text = serialize_liked_songs(vec![
        track("Zeta", 100, &["A"], "X"),
        track("Alpha", 100, &["A"], "X"),
    ]);
    let lines: Vec<&str> = text.lines().collect();
    assert_eq!(lines.len(), 2);
    assert!(lines[0].contains("\"song_name\":\"Alpha\""));
    assert!(lines[1].contains("\"song_name\":\"Zeta\""));
}

fn library() -> Vec<(&'static str, i64, Vec<&'static str>, &'static str)> {
    vec![
        ("Alpha", 100, vec!["b", "a"], "One"),
        ("Zeta", 100, vec!["z"], "Two"),
        ("Alpha", 100, vec!["a", "b"], "One"),
        ("Mid", 150, vec![], "Three"),
        ("Early", -20, vec!["q", "p", "r"], "Four"),
    ]
}

fn entries_in(order: &[usize]) -> Vec<SavedTrack> {
    let all = library();
    order
        .iter()
        .map(|&i| entry(all[i].0, all[i].1, &all[i].2, all[i].3))
        .collect()
}

#[test]
fn snapshot_does_not_depend_on_the_order_of_the_entries() {
    let orders: [[usize; 5]; 6] = [
        [0, 1, 2, 3, 4],
        [4, 3, 2, 1, 0],
        [2, 0, 4, 1, 3],
        [1, 3, 0, 4, 2],
        [3, 4, 1, 2, 0],
        [2, 1, 0, 4, 3],
    ];
    let expected = "{\"song_name\":\"Early\",\"added_at\":-20,\"artist_names\":[\"p\",\"q\",\"r\"],\"album_name\":\"Four\"}\n\
         {\"song_name\":\"Alpha\",\"added_at\":100,\"artist_names\":[\"a\",\"b\"],\"album_name\":\"One\"}\n\
         {\"song_name\":\"Alpha\",\"added_at\":100,\"artist_names\":[\"a\",\"b\"],\"album_name\":\"One\"}\n\
         {\"song_name\":\"Zeta\",\"added_at\":100,\"artist_names\":[\"z\"],\"album_name\":\"Two\"}\n\
         {\"song_name\":\"Mid\",\"added_at\":150,\"artist_names\":[],\"album_name\":\"Three\"}\n";
    for order in orders.iter() {
        let list = get_liked_songs_list(entries_in(order));
        assert_eq!(render_snapshot(&list), expected);
        let again: Vec<TrimmedTrackInfo> = entries_in(order)
            .into_iter()
            .map(TrimmedTrackInfo::from_saved_track)
            .collect();
        assert_eq!(serialize_liked_songs(again), expected);
    }
}

#[test]
fn different_tracks_of_one_time_and_song_are_written_in_the_order_given() {
    let first = serialize_liked_songs(vec![track("S", 1, &[], "P"), track("S", 1, &[], "Q")]);
    let second = serialize_liked_songs(vec![track("S", 1, &[], "Q"), track("S", 1, &[], "P")]);
    assert_eq!(
        first,
        "{\"song_name\":\"S\",\"added_at\":1,\"artist_names\":[],\"album_name\":\"P\"}\n\
         {\"song_name\":\"S\",\"added_at\":1,\"artist_names\":[],\"album_name\":\"Q\"}\n"
    );
    assert_eq!(
        second,
        "{\"song_name\":\"S\",\"added_at\":1,\"artist_names\":[],\"album_name\":\"Q\"}\n\
         {\"song_name\":\"S\",\"added_at\":1,\"artist_names\":[],\"album_name\":\"P\"}\n"
    );
}

#[test]
fn serializing_twice_gives_the_same_text() {
    let first = serialize_liked_songs(get_liked_songs_list(entries_in(&[3, 1, 4, 0, 2])));
    let second = serialize_liked_songs(get_liked_songs_list(entries_in(&[3, 1, 4, 0, 2])));
    assert_eq!(first, second);
    let list = get_liked_songs_list(entries_in(&[3, 1, 4, 0, 2]));
    assert_eq!(render_snapshot(&list), first);
}

fn text_field<'a>(record: &'a serde_json::Value, key: &str) -> &'a str {
    record.get(key).unwrap().as_str().unwrap()
}

#[test]
fn every_line_parses_back_to_its_track() {
    let written = vec![
        ("plain", 100_i64, vec!["b", "a"], "album"),
        ("quote \" and \\ backslash", -1, vec!["\"", "\\", ""], "tab\tand\nfeed\r"),
        ("controls \u{0}\u{1}\u{8}\u{b}\u{c}\u{1f}\u{7f}", i64::MIN, vec![], ""),
        ("日本語 🎵 é \u{2028}", i64::MAX, vec!["Ünder", "über", "Zoë"], "{\"song_name\":\"x\"}"),
        ("", 0, vec![",", "]", "[", "}"], "\\u0041\\n"),
    ];
    let omitted: Vec<TrimmedTrackInfo> = written
        .iter()
        .map(|w| track(w.0, w.1, &w.2, w.3))
        .collect();
    let text = render_snapshot(&omitted);
    assert!(text.ends_with('\n'));
    let lines: Vec<&str> = text[..text.len() - 1].split('\n').collect();
    assert_eq!(lines.len(), written.len());
    for (line, w) in lines.iter().zip(written.iter()) {
        let record: serde_json::Value = serde_json::from_str(line).unwrap();
        assert_eq!(record.as_object().unwrap().len(), 4);
        assert_eq!(text_field(&record, "song_name"), w.0);
        assert_eq!(record.get("added_at").unwrap().as_i64().unwrap(), w.1);
        assert_eq!(text_field(&record, "album_name"), w.3);
        let mut artists: Vec<String> = w.2.iter().map(|a| a.to_string()).collect();
        artists.sort();
        let read: Vec<String> = record
            .get("artist_names")
            .unwrap()
            .as_array()
            .unwrap()
            .iter()
            .map(|a| a.as_str().unwrap().to_string())
            .collect();
        assert_eq!(read, artists);
    }
}

#[test]
fn a_line_holds_no_line_feed() {
    let line = encode_track(&track("a\nb", 1, &["c\nd", "\r\n"], "e\n"));
    assert!(!line.contains('\n'));
    assert_eq!(
        line,
        "{\"song_name\":\"a\\nb\",\"added_at\":1,\"artist_names\":[\"\\r\\n\",\"c\\nd\"],\"album_name\":\"e\\n\"}"
    );
}
