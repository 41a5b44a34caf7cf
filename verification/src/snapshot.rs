//! The snapshot: the liked songs as text, one JSON record per line.

use crate::json::{
    encode_integer, encode_string, encode_string_array, json_integer, json_string,
    json_string_array,
};
use crate::sorting::{lemma_ranking_total_preorder, ranking, stable_sort, stable_sorted};
use crate::stability::{
    lemma_stable_sorted, lemma_stable_sorted_of_rearranged, lemma_stable_sorted_of_sorted,
};
use crate::text::{join, joined, lemma_text_lt_connected};
use crate::track::{
    lemma_normalized_all_of_rearranged, liked_songs_of, normalized_all, TrackView,
    TrimmedTrackInfo,
};
use vstd::prelude::*;
use vstd::string::*;

verus! {

/// The line of a track: a JSON object, without white space, of its song
/// title, the time at which it was saved, its artists' names and its album
/// title, in this order.
pub open spec fn track_line(track: TrackView) -> Seq<char> {
    "{\"song_name\":"@ + json_string(track.song_name) + ",\"added_at\":"@ + json_integer(
        track.added_at,
    ) + ",\"artist_names\":"@ + json_string_array(track.artist_names) + ",\"album_name\":"@
        + json_string(track.album_name) + "}"@
}

/// The lines of the tracks, in the order of the tracks.
pub open spec fn track_lines(tracks: Seq<TrackView>) -> Seq<Seq<char>> {
    tracks.map_values(|track: TrackView| track_line(track))
}

/// The text that holds the tracks in the order given: their lines with a
/// line feed between each two, and one line feed at the end.
pub open spec fn snapshot_text(tracks: Seq<TrackView>) -> Seq<char> {
    joined(track_lines(tracks), seq!['\n']) + seq!['\n']
}

/// The snapshot of a list of tracks, which it first puts in order: earlier
/// saves first, saves of one second by song title.
pub open spec fn serialized(tracks: Seq<TrackView>) -> Seq<char> {
    snapshot_text(stable_sorted(tracks, ranking::<TrimmedTrackInfo>()))
}

/// The snapshot of a library: of its entries, normalized and put in order.
pub open spec fn library_snapshot(entries: Seq<TrackView>) -> Seq<char> {
    snapshot_text(liked_songs_of(entries))
}

/// Tracks of the list that were saved in the same second under the same
/// song title are the same track.
pub open spec fn told_apart_by_rank(tracks: Seq<TrackView>) -> bool {
    forall|i: int, j: int|
        0 <= i < tracks.len() && 0 <= j < tracks.len() && tracks[i].added_at == tracks[j].added_at
            && tracks[i].song_name == tracks[j].song_name ==> tracks[i] == tracks[j]
}

/// The snapshot does not depend on the order in which the tracks come:
/// lists that hold the same tracks, each as often as the other does, have
/// the same snapshot. This holds of lists in which the time and the song
/// title tell the tracks apart; two different tracks that agree in both stay
/// in the order in which they came.
pub proof fn lemma_serialized_whatever_the_order(a: Seq<TrackView>, b: Seq<TrackView>)
    requires
        a.to_multiset() == b.to_multiset(),
        told_apart_by_rank(a),
    ensures
        serialized(a) == serialized(b),
{
    let le = ranking::<TrimmedTrackInfo>();
    lemma_ranking_total_preorder::<TrimmedTrackInfo>();
    assert forall|i: int, j: int|
        0 <= i < a.len() && 0 <= j < a.len() && #[trigger] le(a[i], a[j]) && le(
            a[j],
            a[i],
        ) implies a[i] == a[j] by {
        lemma_text_lt_connected(a[i].song_name, a[j].song_name);
    }
    lemma_stable_sorted_of_rearranged(a, b, le);
}

/// The snapshot of a library does not depend on the order in which its
/// entries were fetched, as long as the time and the song title tell the
/// normalized entries apart.
pub proof fn lemma_library_snapshot_whatever_the_order(a: Seq<TrackView>, b: Seq<TrackView>)
    requires
        a.to_multiset() == b.to_multiset(),
        told_apart_by_rank(normalized_all(a)),
    ensures
        library_snapshot(a) == library_snapshot(b),
{
    lemma_normalized_all_of_rearranged(a, b);
    lemma_serialized_whatever_the_order(normalized_all(a), normalized_all(b));
}

/// Serializing settles: the order in which the serializer wrote the tracks
/// is the order in which it writes them again, so a second run on the list
/// that the first one put in order gives the same text, character for
/// character.
pub proof fn lemma_serialized_again(tracks: Seq<TrackView>)
    ensures
        serialized(stable_sorted(tracks, ranking::<TrimmedTrackInfo>())) == serialized(tracks),
        snapshot_text(stable_sorted(tracks, ranking::<TrimmedTrackInfo>())) == serialized(tracks),
{
    let le = ranking::<TrimmedTrackInfo>();
    lemma_ranking_total_preorder::<TrimmedTrackInfo>();
    lemma_stable_sorted(tracks, le);
    lemma_stable_sorted_of_sorted(stable_sorted(tracks, le), le);
}

/// The list of liked songs is in order already: serializing it writes it as
/// it stands.
pub proof fn lemma_liked_songs_serialized(entries: Seq<TrackView>)
    ensures
        serialized(liked_songs_of(entries)) == library_snapshot(entries),
{
    lemma_serialized_again(normalized_all(entries));
}

/// Writes the line of a track.
pub fn encode_track(track: &TrimmedTrackInfo) -> (line: String)
    ensures
        line@ == track_line(track@),
{
    let mut line = String::from_str("{\"song_name\":");
    let song_name = encode_string(track.song_name().as_str());
    line.append(song_name.as_str());
    line.append(",\"added_at\":");
    let added_at = encode_integer(track.added_at());
    line.append(added_at.as_str());
    line.append(",\"artist_names\":");
    let artist_names = encode_string_array(track.artist_names());
    line.append(artist_names.as_str());
    line.append(",\"album_name\":");
    let album_name = encode_string(track.album_name().as_str());
    line.append(album_name.as_str());
    line.append("}");
    line
}

/// Writes the snapshot of the tracks in the order given.
pub fn render_snapshot(tracks: &Vec<TrimmedTrackInfo>) -> (text: String)
    ensures
        text@ == snapshot_text(tracks.deep_view()),
{
    let ghost all = tracks.deep_view();
    let mut lines: Vec<String> = Vec::new();
    let mut i: usize = 0;
    while i < tracks.len()
        invariant
            i <= tracks.len(),
            all == tracks.deep_view(),
            lines.deep_view() == track_lines(all.take(i as int)),
        decreases tracks.len() - i,
    {
        let ghost before = lines.deep_view();
        lines.push(encode_track(&tracks[i]));
        proof {
            assert(all[i as int] == tracks[i as int]@);
            assert(lines.deep_view() =~= before.push(track_line(all[i as int])));
            assert(all.take(i + 1) =~= all.take(i as int).push(all[i as int]));
            assert(lines.deep_view() =~= track_lines(all.take(i + 1)));
        }
        i += 1;
    }
    let mut text = join(&lines, "\n");
    text.append("\n");
    proof {
        reveal_strlit("\n");
        assert(all.take(tracks.len() as int) =~= all);
        assert("\n"@ =~= seq!['\n']);
    }
    text
}

/// Puts the tracks in order and writes their snapshot.
pub fn serialize_liked_songs(tracks: Vec<TrimmedTrackInfo>) -> (text: String)
    ensures
        text@ == serialized(tracks.deep_view()),
{
    let sorted = stable_sort(tracks);
    render_snapshot(&sorted)
}

} // verus!
