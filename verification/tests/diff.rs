use liked_songs::diff::diff_liked_songs;
use liked_songs::snapshot::render_snapshot;
use liked_songs::track::{get_liked_songs_list, SavedTrack};

const BOLD: &str = "\u{1b}[1m";
const CYAN: &str = "\u{1b}[36m";
const RED: &str = "\u{1b}[31m";
const GREEN: &str = "\u{1b}[32m";
const RESET: &str = "\u{1b}[0m";

fn header() -> String {
    format!("{}--- original\n+++ modified\n{}", BOLD, RESET)
}

fn entry(song: &str, added_at: i64) -> SavedTrack {
    SavedTrack {
        song_name: song.to_string(),
        added_at,
        artist_names: vec!["X".to_string()],
        album_name: "Y".to_string(),
    }
}

#[test]
fn diff_of_unchanged_snapshot_shows_no_changes() {
    let old = render_snapshot(&get_liked_songs_list(vec![entry("A", 100), entry("B", 200)]));
    let new = render_snapshot(&get_liked_songs_list(vec![entry("B", 200), entry("A", 100)]));
    assert_eq!(old, new);
    assert_eq!(diff_liked_songs(&new, &old), header());
}

#[test]
fn diff_shows_one_added_line_for_a_new_track() {
    let old = "{\"song_name\":\"A\",\"added_at\":100,\"artist_names\":[\"X\"],\"album_name\":\"Y\"}\n"
        .to_string();
    let new = render_snapshot(&get_liked_songs_list(vec![entry("New", 200), entry("A", 100)]));
    assert_eq!(
        new,
        "{\"song_name\":\"A\",\"added_at\":100,\"artist_names\":[\"X\"],\"album_name\":\"Y\"}\n\
         {\"song_name\":\"New\",\"added_at\":200,\"artist_names\":[\"X\"],\"album_name\":\"Y\"}\n"
    );
    let report = diff_liked_songs(&new, &old);
    let expected = format!(
        "{}{}@@ -1 +1,2 @@{}\n {}\n{}+{}\n{}",
        header(),
        CYAN,
        RESET,
        "{\"song_name\":\"A\",\"added_at\":100,\"artist_names\":[\"X\"],\"album_name\":\"Y\"}",
        GREEN,
        "{\"song_name\":\"New\",\"added_at\":200,\"artist_names\":[\"X\"],\"album_name\":\"Y\"}",
        RESET
    );
    assert_eq!(report, expected);
    let added = report.lines().filter(|l| l.starts_with(&format!("{}+", GREEN))).count();
    let removed = report.lines().filter(|l| l.starts_with(&format!("{}-", RED))).count();
    assert_eq!((added, removed), (1, 0));
}

#[test]
fn diff_leads_from_the_old_snapshot_to_the_new_one() {
    let report = diff_liked_songs(&"kept\nnew\n".to_string(), &"old\nkept\n".to_string());
    let expected = format!(
        "{}{}@@ -1,2 +1,2 @@{}\n{}-old\n{} kept\n{}+new\n{}",
        header(),
        CYAN,
        RESET,
        RED,
        RESET,
        GREEN,
        RESET
    );
    assert_eq!(report, expected);
}

#[test]
fn diff_from_or_to_an_empty_text() {
    assert_eq!(diff_liked_songs(&String::new(), &String::new()), header());
    assert_eq!(
        diff_liked_songs(&"a\n".to_string(), &String::new()),
        format!("{}{}@@ -0,0 +1 @@{}\n{}+a\n{}", header(), CYAN, RESET, GREEN, RESET)
    );
    assert_eq!(
        diff_liked_songs(&String::new(), &"a\n".to_string()),
        format!("{}{}@@ -1 +0,0 @@{}\n{}-a\n{}", header(), CYAN, RESET, RED, RESET)
    );
}

#[test]
fn diff_of_an_empty_snapshot_against_a_first_song() {
    let report = diff_liked_songs(&"{\"song_name\":\"A\"}\n".to_string(), &"\n".to_string());
    assert_eq!(
        report,
        format!(
            "{}{}@@ -1 +1 @@{}\n{}-\n{}{}+{{\"song_name\":\"A\"}}\n{}",
            header(),
            CYAN,
            RESET,
            RED,
            RESET,
            GREEN,
            RESET
        )
    );
}
