use liked_songs::snapshot::{encode_track, render_snapshot};
use liked_songs::track::{SavedTrack, TrimmedTrackInfo};
use serde::ser::{Serialize, SerializeStruct, Serializer};

/// A track as a serde struct with the four fields in the order of the line.
struct Record<'a>(&'a TrimmedTrackInfo);

impl Serialize for Record<'_> {
    fn serialize<S: Serializer>(&self, serializer: S) -> Result<S::Ok, S::Error> {
        let mut record = serializer.serialize_struct("TrimmedTrackInfo", 4)?;
        record.serialize_field("song_name", self.0.song_name())?;
        record.serialize_field("added_at", &self.0.added_at())?;
        record.serialize_field("artist_names", self.0.artist_names())?;
        record.serialize_field("album_name", self.0.album_name())?;
        record.end()
    }
}

fn track(song: &str, added_at: i64, artists: &[&str], album: &str) -> TrimmedTrackInfo {
    TrimmedTrackInfo::from_saved_track(SavedTrack {
        song_name: song.to_string(),
        added_at,
        artist_names: artists.iter().map(|a| a.to_string()).collect(),
        album_name: album.to_string(),
    })
}

fn samples() -> Vec<TrimmedTrackInfo> {
    let mut all = vec![
        track("A", 100, &["X"], "Y"),
        track("", 0, &[], ""),
        track("quote \" backslash \\ slash /", -1, &["\"", "\\", ""], "tab\t feed\n return\r"),
        track("\u{0}\u{1}\u{7}\u{8}\u{b}\u{c}\u{e}\u{1f} \u{7f}\u{80}\u{9f}", i64::MIN, &["\u{1b}[0m"], "\u{85}"),
        track("日本語 🎵 é \u{2028}\u{2029}\u{feff}", i64::MAX, &["Ünder", "über", "Zoë"], "{\"a\":[1]}"),
        track("\\u0041\\n", 1_700_000_000, &[",", "]", "[", "}", "\",\""], "</script>"),
    ];
    for code in 0..0x30u32 {
        let c = char::from_u32(code).unwrap();
        all.push(track(&format!("a{}b", c), code as i64 - 7, &[&c.to_string()], &c.to_string()));
    }
    all
}

#[test]
fn line_is_what_serde_json_writes_for_the_record() {
    for t in samples().iter() {
        assert_eq!(encode_track(t), serde_json::to_string(&Record(t)).unwrap());
    }
}

#[test]
fn snapshot_is_the_records_joined_by_line_feeds() {
    let all = samples();
    let expected = all
        .iter()
        .map(|t| serde_json::to_string(&Record(t)).unwrap())
        .collect::<Vec<_>>()
        .join("\n")
        + "\n";
    assert_eq!(render_snapshot(&all), expected);
}
