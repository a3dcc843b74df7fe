use vstd::prelude::*;

verus! {

/// A catalogued song: its database identifier, title and artist.
#[derive(Debug, Clone)]
pub struct Song {
    song_id: i64,
    title: String,
    artist: String,
}

impl Song {
    /// The identifier under which the song is stored.
    pub closed spec fn spec_song_id(&self) -> i64 {
        self.song_id
    }

    /// The title, as characters.
    pub closed spec fn spec_title(&self) -> Seq<char> {
        self.title@
    }

    /// The artist, as characters.
    pub closed spec fn spec_artist(&self) -> Seq<char> {
        self.artist@
    }

    pub fn new(song_id: i64, title: String, artist: String) -> (s: Song)
        ensures
            s.spec_song_id() == song_id,
            s.spec_title() == title@,
            s.spec_artist() == artist@,
    {
        Song { song_id, title, artist }
    }

    pub fn song_id(&self) -> (id: i64)
        ensures
            id == self.spec_song_id(),
    {
        self.song_id
    }

    pub fn title(&self) -> (t: String)
        ensures
            t@ == self.spec_title(),
    {
        self.title.clone()
    }

    pub fn artist(&self) -> (a: String)
        ensures
            a@ == self.spec_artist(),
    {
        self.artist.clone()
    }
}

} // verus!
