use vstd::prelude::*;

verus! {

/// A stored fingerprint: the song it belongs to, its hash, and the time of
/// its anchor peak in that song (microseconds).
#[derive(Debug, Clone, Copy, PartialEq, Eq, Structural)]
pub struct Fingerprint {
    song_id: i64,
    hash: u32,
    anchor_time: u64,
}

impl Fingerprint {
    pub closed spec fn spec_song_id(&self) -> i64 {
        self.song_id
    }

    pub closed spec fn spec_hash(&self) -> u32 {
        self.hash
    }

    pub closed spec fn spec_anchor_time(&self) -> u64 {
        self.anchor_time
    }

    pub fn new(song_id: i64, hash: u32, anchor_time: u64) -> (f: Fingerprint)
        ensures
            f.spec_song_id() == song_id,
            f.spec_hash() == hash,
            f.spec_anchor_time() == anchor_time,
    {
        Fingerprint { song_id, hash, anchor_time }
    }

    pub fn song_id(&self) -> (id: i64)
        ensures
            id == self.spec_song_id(),
    {
        self.song_id
    }

    pub fn hash(&self) -> (h: u32)
        ensures
            h == self.spec_hash(),
    {
        self.hash
    }

    pub fn anchor_time(&self) -> (t: u64)
        ensures
            t == self.spec_anchor_time(),
    {
        self.anchor_time
    }
}

} // verus!
