//! Library entries and the normalized tracks that a snapshot keeps.

use crate::sorting::{lemma_ranking_total_preorder, ranking, stable_sort, stable_sorted, Ranked};
use crate::stability::{
    lemma_map_values_of_rearranged, lemma_stable_sort_permutes, lemma_stable_sorted,
};
use crate::text::{
    lemma_sorted_names, lemma_sorted_names_unique, lemma_text_le_transitive,
    lemma_text_lt_asymmetric, names_in_order, sorted_names, str_lt, text_le,
};
use vstd::prelude::*;

verus! {

/// What a track or a library entry stands for: its song title, the Unix time
/// in seconds at which the listener saved it, the display names of its
/// artists, and the title of its album.
pub struct TrackView {
    pub song_name: Seq<char>,
    pub added_at: int,
    pub artist_names: Seq<Seq<char>>,
    pub album_name: Seq<char>,
}

/// An entry of the listener's library as the music service reports it. The
/// service promises no order among the artists.
#[derive(Debug)]
pub struct SavedTrack {
    pub song_name: String,
    pub added_at: i64,
    pub artist_names: Vec<String>,
    pub album_name: String,
}

impl View for SavedTrack {
    type V = TrackView;

    open spec fn view(&self) -> TrackView {
        TrackView {
            song_name: self.song_name@,
            added_at: self.added_at as int,
            artist_names: self.artist_names.deep_view(),
            album_name: self.album_name@,
        }
    }
}

impl DeepView for SavedTrack {
    type V = TrackView;

    open spec fn deep_view(&self) -> TrackView {
        self@
    }
}

/// The track that an entry of the library becomes: the same song, time and
/// album, with the artists' names in order.
pub open spec fn normalized(entry: TrackView) -> TrackView {
    TrackView {
        song_name: entry.song_name,
        added_at: entry.added_at,
        artist_names: sorted_names(entry.artist_names),
        album_name: entry.album_name,
    }
}

/// The order in which the music service names the artists of an entry
/// leaves no trace: entries that differ in that order alone become the same
/// track.
pub proof fn lemma_normalized_whatever_the_artist_order(a: TrackView, b: TrackView)
    requires
        a.song_name == b.song_name,
        a.added_at == b.added_at,
        a.album_name == b.album_name,
        a.artist_names.to_multiset() == b.artist_names.to_multiset(),
    ensures
        normalized(a) == normalized(b),
        names_in_order(normalized(a).artist_names),
{
    lemma_sorted_names(a.artist_names);
    lemma_sorted_names_unique(sorted_names(a.artist_names), b.artist_names);
}

/// A liked song as a snapshot keeps it. Its artists' names are in ascending
/// order whatever the order in which the music service gave them.
#[derive(Debug)]
pub struct TrimmedTrackInfo {
    song_name: String,
    added_at: i64,
    artist_names: Vec<String>,
    album_name: String,
}

impl View for TrimmedTrackInfo {
    type V = TrackView;

    closed spec fn view(&self) -> TrackView {
        TrackView {
            song_name: self.song_name@,
            added_at: self.added_at as int,
            artist_names: self.artist_names.deep_view(),
            album_name: self.album_name@,
        }
    }
}

impl DeepView for TrimmedTrackInfo {
    type V = TrackView;

    open spec fn deep_view(&self) -> TrackView {
        self@
    }
}

impl TrimmedTrackInfo {
    #[verifier::type_invariant]
    spec fn artists_in_order(&self) -> bool {
        names_in_order(self.artist_names.deep_view())
    }

    /// Normalizes an entry of the library: keeps its song, time and album
    /// and puts the artists' names in order.
    pub fn from_saved_track(saved_track: SavedTrack) -> (track: Self)
        ensures
            track@ == normalized(saved_track@),
            names_in_order(track@.artist_names),
    {
        let artist_names = stable_sort(saved_track.artist_names);
        proof {
            lemma_sorted_names(saved_track@.artist_names);
        }
        TrimmedTrackInfo {
            song_name: saved_track.song_name,
            added_at: saved_track.added_at,
            artist_names,
            album_name: saved_track.album_name,
        }
    }

    /// The song's title.
    pub fn song_name(&self) -> (name: &String)
        ensures
            name@ == self@.song_name,
    {
        &self.song_name
    }

    /// When the listener saved the song, in seconds of Unix time.
    pub fn added_at(&self) -> (seconds: i64)
        ensures
            seconds == self@.added_at,
    {
        self.added_at
    }

    /// The artists' names, in ascending order.
    pub fn artist_names(&self) -> (names: &Vec<String>)
        ensures
            names.deep_view() == self@.artist_names,
            names_in_order(names.deep_view()),
    {
        proof {
            use_type_invariant(self);
        }
        &self.artist_names
    }

    /// The album's title.
    pub fn album_name(&self) -> (name: &String)
        ensures
            name@ == self@.album_name,
    {
        &self.album_name
    }
}

/// `a` is listed no later than `b`: it was saved earlier, or in the same
/// second and under a song title that comes no later.
pub open spec fn listed_no_later(a: TrackView, b: TrackView) -> bool {
    a.added_at < b.added_at || (a.added_at == b.added_at && text_le(a.song_name, b.song_name))
}

impl Ranked for TrimmedTrackInfo {
    open spec fn rank_le(a: TrackView, b: TrackView) -> bool {
        listed_no_later(a, b)
    }

    proof fn lemma_rank_le_total_preorder() {
        assert forall|a: TrackView, b: TrackView| #[trigger]
            Self::rank_le(a, b) || Self::rank_le(b, a) by {
            lemma_text_lt_asymmetric(a.song_name, b.song_name);
        }
        assert forall|a: TrackView, b: TrackView, c: TrackView| #[trigger]
            Self::rank_le(a, b) && #[trigger] Self::rank_le(b, c) implies Self::rank_le(a, c) by {
            if a.added_at == b.added_at && b.added_at == c.added_at {
                lemma_text_le_transitive(a.song_name, b.song_name, c.song_name);
            }
        }
    }

    fn ranks_below(&self, other: &Self) -> (r: bool) {
        self.added_at < other.added_at || (self.added_at == other.added_at && str_lt(
            self.song_name.as_str(),
            other.song_name.as_str(),
        ))
    }
}

/// Every entry normalized, in the order of the entries.
pub open spec fn normalized_all(entries: Seq<TrackView>) -> Seq<TrackView> {
    entries.map_values(|entry: TrackView| normalized(entry))
}

/// Libraries that hold the same entries, each as often as the other does,
/// hold the same normalized entries, each as often as the other does.
pub proof fn lemma_normalized_all_of_rearranged(a: Seq<TrackView>, b: Seq<TrackView>)
    requires
        a.to_multiset() == b.to_multiset(),
    ensures
        normalized_all(a).to_multiset() == normalized_all(b).to_multiset(),
{
    lemma_map_values_of_rearranged(a, b, |entry: TrackView| normalized(entry));
}

/// The list of liked songs that the entries of a library make: each entry
/// normalized, earlier saves first, saves of one second by song title, and
/// entries that agree in both in the order in which they came.
pub open spec fn liked_songs_of(entries: Seq<TrackView>) -> Seq<TrackView> {
    stable_sorted(normalized_all(entries), ranking::<TrimmedTrackInfo>())
}

/// The tracks are in the order of a list of liked songs.
pub open spec fn in_listing_order(tracks: Seq<TrackView>) -> bool {
    forall|i: int, j: int| 0 <= i < j < tracks.len() ==> listed_no_later(tracks[i], tracks[j])
}

/// The list of liked songs is in order and holds the normalized entries,
/// each as often as the library holds it.
pub proof fn lemma_liked_songs_of(entries: Seq<TrackView>)
    ensures
        in_listing_order(liked_songs_of(entries)),
        liked_songs_of(entries).to_multiset() == normalized_all(entries).to_multiset(),
        liked_songs_of(entries).len() == entries.len(),
{
    let le = ranking::<TrimmedTrackInfo>();
    lemma_ranking_total_preorder::<TrimmedTrackInfo>();
    lemma_stable_sorted(normalized_all(entries), le);
    lemma_stable_sort_permutes(liked_songs_of(entries), normalized_all(entries), le);
    let out = liked_songs_of(entries);
    assert forall|i: int, j: int| 0 <= i < j < out.len() implies listed_no_later(
        out[i],
        out[j],
    ) by {
        assert(le(out[i], out[j]));
    }
}

/// Turns the entries of a library, in whatever order they were fetched, into
/// the list of liked songs.
pub fn get_liked_songs_list(entries: Vec<SavedTrack>) -> (liked_songs: Vec<TrimmedTrackInfo>)
    ensures
        liked_songs.deep_view() == liked_songs_of(entries.deep_view()),
{
    let ghost all = entries.deep_view();
    let mut tracks: Vec<TrimmedTrackInfo> = Vec::new();
    for entry in rest: entries
        invariant
            all == entries.deep_view(),
            tracks.deep_view() == normalized_all(all.take(rest.index() as int)),
    {
        let ghost before = tracks.deep_view();
        tracks.push(TrimmedTrackInfo::from_saved_track(entry));
        proof {
            let n = rest.index() as int;
            assert(tracks.deep_view() =~= before.push(normalized(entry@)));
            assert(all.take(n + 1) =~= all.take(n).push(all[n]));
            assert(tracks.deep_view() =~= normalized_all(all.take(n + 1)));
        }
    }
    proof {
        assert(all.take(all.len() as int) =~= all);
    }
    stable_sort(tracks)
}

} // verus!
