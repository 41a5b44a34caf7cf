use liked_songs::sorting::stable_sort;
use liked_songs::text::str_lt;
use liked_songs::track::{get_liked_songs_list, SavedTrack, TrimmedTrackInfo};

fn entry(song: &str, added_at: i64, artists: &[&str], album: &str) -> SavedTrack {
    SavedTrack {
        song_name: song.to_string(),
        added_at,
        artist_names: artists.iter().map(|a| a.to_string()).collect(),
        album_name: album.to_string(),
    }
}

fn songs(list: &Vec<TrimmedTrackInfo>) -> Vec<(i64, String, String)> {
    list.iter()
        .map(|t| (t.added_at(), t.song_name().clone(), t.album_name().clone()))
        .collect()
}

#[test]
fn normalizing_keeps_song_time_and_album() {
    let track = TrimmedTrackInfo::from_saved_track(entry("Song", 1_600_000_000, &["B", "A"], "Album"));
    assert_eq!(track.song_name(), "Song");
    assert_eq!(track.added_at(), 1_600_000_000);
    assert_eq!(track.album_name(), "Album");
    assert_eq!(track.artist_names(), &vec!["A".to_string(), "B".to_string()]);
}

#[test]
fn artist_names_are_sorted_whatever_the_input_order() {
    let expected = vec![
        "Alpha".to_string(),
        "Beta".to_string(),
        "Zed".to_string(),
        "alpha".to_string(),
    ];
    let orders: [[&str; 4]; 4] = [
        ["Zed", "alpha", "Beta", "Alpha"],
        ["Alpha", "Beta", "Zed", "alpha"],
        ["alpha", "Zed", "Beta", "Alpha"],
        ["Beta", "Alpha", "alpha", "Zed"],
    ];
    for order in orders.iter() {
        let track = TrimmedTrackInfo::from_saved_track(entry("Song", 7, order, "Album"));
        assert_eq!(track.artist_names(), &expected);
    }
}

#[test]
fn artist_names_keep_duplicates_and_may_be_empty() {
    let none = TrimmedTrackInfo::from_saved_track(entry("Song", 7, &[], "Album"));
    assert!(none.artist_names().is_empty());
    let twice = TrimmedTrackInfo::from_saved_track(entry("Song", 7, &["b", "a", "b"], "Album"));
    assert_eq!(
        twice.artist_names(),
        &vec!["a".to_string(), "b".to_string(), "b".to_string()]
    );
}

#[test]
fn artist_names_are_sorted_as_the_standard_library_sorts_strings() {
    let names = ["Émile", "Zoe", "zoe", "", "Zo", "日本", "\u{10000}", "\u{ff5e}", "A\u{0}", "A"];
    let track = TrimmedTrackInfo::from_saved_track(entry("Song", 7, &names, "Album"));
    let mut expected: Vec<String> = names.iter().map(|n| n.to_string()).collect();
    expected.sort();
    assert_eq!(track.artist_names(), &expected);
}

#[test]
fn str_lt_is_the_order_of_the_standard_library() {
    let samples = [
        "", "a", "A", "ab", "abc", "abd", "b", "Zeta", "Alpha", "É", "é", "z", "\u{7f}", "\u{80}",
        "\u{7ff}", "\u{800}", "\u{ffff}", "\u{10000}", "\u{10ffff}", "a\u{10000}", "a\u{ffff}",
    ];
    for x in samples.iter() {
        for y in samples.iter() {
            assert_eq!(str_lt(x, y), x < y, "{:?} against {:?}", x, y);
        }
    }
}

#[test]
fn str_lt_examples() {
    assert!(str_lt("Alpha", "Zeta"));
    assert!(!str_lt("Zeta", "Alpha"));
    assert!(!str_lt("same", "same"));
    assert!(str_lt("", "a"));
    assert!(!str_lt("a", ""));
    assert!(!str_lt("", ""));
    assert!(str_lt("ab", "abc"));
    assert!(str_lt("Z", "a"));
}

#[test]
fn liked_songs_are_ordered_by_time() {
    let list = get_liked_songs_list(vec![
        entry("C", 300, &[], "x"),
        entry("A", 100, &[], "x"),
        entry("B", 200, &[], "x"),
        entry("D", -1, &[], "x"),
    ]);
    let times: Vec<i64> = list.iter().map(|t| t.added_at()).collect();
    assert_eq!(times, vec![-1, 100, 200, 300]);
}

#[test]
fn same_timestamp_is_ordered_by_song_name() {
    let list = get_liked_songs_list(vec![
        entry("Zeta", 100, &["A"], "X"),
        entry("Alpha", 100, &["A"], "X"),
    ]);
    let names: Vec<&str> = list.iter().map(|t| t.song_name().as_str()).collect();
    assert_eq!(names, vec!["Alpha", "Zeta"]);
}

#[test]
fn time_decides_before_song_name() {
    let list = get_liked_songs_list(vec![
        entry("Alpha", 200, &[], "x"),
        entry("Zeta", 100, &[], "x"),
    ]);
    let names: Vec<&str> = list.iter().map(|t| t.song_name().as_str()).collect();
    assert_eq!(names, vec!["Zeta", "Alpha"]);
}

#[test]
fn entries_of_one_time_and_song_keep_their_order() {
    let list = get_liked_songs_list(vec![
        entry("Same", 100, &[], "second pressing"),
        entry("Other", 50, &[], "x"),
        entry("Same", 100, &[], "first pressing"),
        entry("Same", 100, &[], "third pressing"),
    ]);
    assert_eq!(
        songs(&list),
        vec![
            (50, "Other".to_string(), "x".to_string()),
            (100, "Same".to_string(), "second pressing".to_string()),
            (100, "Same".to_string(), "first pressing".to_string()),
            (100, "Same".to_string(), "third pressing".to_string()),
        ]
    );
}

#[test]
fn liked_songs_list_normalizes_every_entry() {
    let list = get_liked_songs_list(vec![
        entry("B", 2, &["y", "x"], "x"),
        entry("A", 1, &["b", "a"], "x"),
    ]);
    assert_eq!(list.len(), 2);
    assert_eq!(list[0].artist_names(), &vec!["a".to_string(), "b".to_string()]);
    assert_eq!(list[1].artist_names(), &vec!["x".to_string(), "y".to_string()]);
}

#[test]
fn liked_songs_list_of_nothing_is_empty() {
    assert!(get_liked_songs_list(Vec::new()).is_empty());
}

#[test]
fn stable_sort_sorts_strings() {
    let sorted = stable_sort(vec![
        "pear".to_string(),
        "apple".to_string(),
        "fig".to_string(),
        "apple".to_string(),
    ]);
    assert_eq!(sorted, vec!["apple", "apple", "fig", "pear"]);
    assert!(stable_sort(Vec::<String>::new()).is_empty());
}

#[test]
fn stable_sort_agrees_with_the_standard_library_on_many_lists() {
    let mut seed: u64 = 0x2545f4914f6cdd1d;
    for round in 0..200 {
        let len = round % 17;
        let mut entries = Vec::new();
        let mut expected = Vec::new();
        for k in 0..len {
            seed ^= seed << 13;
            seed ^= seed >> 7;
            seed ^= seed << 17;
            let time = (seed % 5) as i64 - 2;
            let song = format!("s{}", (seed >> 8) % 3);
            let album = format!("album {}", k);
            expected.push((time, song.clone(), album.clone()));
            entries.push(entry(&song, time, &[], &album));
        }
        expected.sort_by(|a, b| a.0.cmp(&b.0).then(a.1.cmp(&b.1)));
        assert_eq!(songs(&get_liked_songs_list(entries)), expected);
    }
}

#[test]
fn stable_sort_handles_a_large_library() {
    let mut seed: u64 = 0x9e3779b97f4a7c15;
    let mut entries = Vec::new();
    let mut expected = Vec::new();
    for k in 0..20_000 {
        seed ^= seed << 13;
        seed ^= seed >> 7;
        seed ^= seed << 17;
        let time = (seed % 1000) as i64;
        let song = format!("song {}", (seed >> 20) % 50);
        let album = format!("{}", k);
        expected.push((time, song.clone(), album.clone()));
        entries.push(entry(&song, time, &[], &album));
    }
    expected.sort_by(|a, b| a.0.cmp(&b.0).then(a.1.cmp(&b.1)));
    assert_eq!(songs(&get_liked_songs_list(entries)), expected);
}

#[test]
fn stable_sort_of_sorted_and_of_reversed_input() {
    let ascending: Vec<String> = (0..1000).map(|k| format!("{:04}", k)).collect();
    let descending: Vec<String> = ascending.iter().rev().cloned().collect();
    assert_eq!(stable_sort(ascending.clone()), ascending);
    assert_eq!(stable_sort(descending), ascending);
    let one = vec!["only".to_string()];
    assert_eq!(stable_sort(one.clone()), one);
}
