use vstd::prelude::*;

verus! {

/// `pat` occurs in `s` at position `i`.
pub open spec fn matches_at(s: Seq<char>, pat: Seq<char>, i: int) -> bool {
    0 <= i && i + pat.len() <= s.len() && s.subrange(i, i + pat.len()) == pat
}

/// The first position at or after `i` where the non-empty `pat` occurs in `s`.
pub open spec fn first_match_from(s: Seq<char>, pat: Seq<char>, i: int) -> Option<int>
    decreases s.len() - i,
{
    if pat.len() == 0 || i < 0 || i + pat.len() > s.len() {
        None
    } else if matches_at(s, pat, i) {
        Some(i)
    } else {
        first_match_from(s, pat, i + 1)
    }
}

/// The first occurrence found from `i` is an occurrence, at or after `i`,
/// with none before it.
pub proof fn lemma_first_match_bounds(s: Seq<char>, pat: Seq<char>, i: int)
    ensures
        first_match_from(s, pat, i) matches Some(m) ==> i <= m && matches_at(s, pat, m) && pat.len() > 0,
        first_match_from(s, pat, i) matches Some(m) ==> forall|j: int| i <= j < m ==> !matches_at(s, pat, j),
    decreases s.len() - i,
{
    if pat.len() == 0 || i < 0 || i + pat.len() > s.len() {
    } else if matches_at(s, pat, i) {
    } else {
        lemma_first_match_bounds(s, pat, i + 1);
    }
}

/// The pieces of `s` from position `start` on, cut at each occurrence of
/// `pat`, scanning left to right.  For a non-empty `pat` these are the
/// pieces that `str::split` yields; an empty `pat` never matches here, so
/// the rest of `s` is a single piece (unlike `str::split`, which cuts
/// between every two characters).
pub open spec fn split_from(s: Seq<char>, pat: Seq<char>, start: int) -> Seq<Seq<char>>
    decreases s.len() - start,
{
    if start < 0 || start > s.len() {
        Seq::empty()
    } else {
        match first_match_from(s, pat, start) {
            None => seq![s.subrange(start, s.len() as int)],
            Some(m) => {
                proof {
                    lemma_first_match_bounds(s, pat, start);
                }
                seq![s.subrange(start, m)] + split_from(s, pat, m + pat.len())
            },
        }
    }
}

/// The pieces of `s` cut at each occurrence of `pat`.
pub open spec fn split(s: Seq<char>, pat: Seq<char>) -> Seq<Seq<char>> {
    split_from(s, pat, 0)
}

fn matches_at_exec(s: &Vec<char>, pat: &Vec<char>, i: usize) -> (b: bool)
    requires
        i + pat@.len() <= s@.len(),
    ensures
        b == matches_at(s@, pat@, i as int),
{
    let n = s.len();
    let mut k: usize = 0;
    while k < pat.len()
        invariant
            n == s@.len(),
            i + pat@.len() <= s@.len(),
            k <= pat@.len(),
            forall|q: int| 0 <= q < k ==> s@[i + q] == pat@[q],
        decreases pat@.len() - k,
    {
        if s[i + k] != pat[k] {
            assert(s@.subrange(i as int, i + pat@.len())[k as int] != pat@[k as int]);
            return false;
        }
        k = k + 1;
    }
    assert(s@.subrange(i as int, i + pat@.len()) =~= pat@);
    true
}

fn find_from(s: &Vec<char>, pat: &Vec<char>, start: usize) -> (m: Option<usize>)
    requires
        pat@.len() > 0,
        start <= s@.len(),
    ensures
        match first_match_from(s@, pat@, start as int) {
            Some(x) => m == Some(x as usize),
            None => m is None,
        },
{
    if pat.len() > s.len() {
        return None;
    }
    let slen = s.len();
    let last = slen - pat.len();
    let mut i = start;
    while i <= last
        invariant
            slen == s@.len(),
            last + pat@.len() == s@.len(),
            pat@.len() > 0,
            start <= i,
            i <= s@.len(),
            first_match_from(s@, pat@, start as int) == first_match_from(s@, pat@, i as int),
        decreases s@.len() - i,
    {
        if matches_at_exec(s, pat, i) {
            return Some(i);
        }
        i = i + 1;
    }
    None
}

/// The piece of index `n` among the pieces of `s` cut at `pat`, or `None`
/// when there are not that many pieces.
pub fn split_piece(s: &Vec<char>, pat: &Vec<char>, n: usize) -> (piece: Option<Vec<char>>)
    requires
        pat@.len() > 0,
    ensures
        n < split(s@, pat@).len() ==> (piece matches Some(p) && p@ == split(s@, pat@)[n as int]),
        n >= split(s@, pat@).len() ==> piece is None,
{
    let slen = s.len();
    let mut start: usize = 0;
    let mut count: usize = 0;
    loop
        invariant
            slen == s@.len(),
            pat@.len() > 0,
            start <= s@.len(),
            count <= n,
            split(s@, pat@).len() == count + split_from(s@, pat@, start as int).len(),
            forall|j: int|
                0 <= j < split_from(s@, pat@, start as int).len() ==> split(s@, pat@)[count + j]
                    == #[trigger] split_from(s@, pat@, start as int)[j],
        decreases s@.len() - start,
    {
        let found = find_from(s, pat, start);
        proof {
            lemma_first_match_bounds(s@, pat@, start as int);
        }
        match found {
            None => {
                assert(split_from(s@, pat@, start as int) == seq![s@.subrange(start as int, s@.len() as int)]);
                if count == n {
                    let piece = slice_to_vec(s, start, s.len());
                    assert(split(s@, pat@)[count + 0] == split_from(s@, pat@, start as int)[0]);
                    return Some(piece);
                } else {
                    return None;
                }
            },
            Some(m) => {
                assert(first_match_from(s@, pat@, start as int) == Some(m as int));
                assert(split_from(s@, pat@, start as int) == seq![s@.subrange(start as int, m as int)] + split_from(
                    s@,
                    pat@,
                    m + pat@.len(),
                ));
                if count == n {
                    let piece = slice_to_vec(s, start, m);
                    assert(split(s@, pat@)[count + 0] == split_from(s@, pat@, start as int)[0]);
                    return Some(piece);
                }
                let ghost old_start = start;
                assert forall|j: int|
                    0 <= j < split_from(s@, pat@, (m + pat@.len()) as int).len() implies split(s@, pat@)[(count
                    + 1) + j] == #[trigger] split_from(s@, pat@, (m + pat@.len()) as int)[j] by {
                    assert(split_from(s@, pat@, old_start as int)[j + 1] == split_from(
                        s@,
                        pat@,
                        (m + pat@.len()) as int,
                    )[j]);
                }
                start = m + pat.len();
                count = count + 1;
            },
        }
    }
}

fn slice_to_vec(s: &Vec<char>, from: usize, to: usize) -> (out: Vec<char>)
    requires
        from <= to <= s@.len(),
    ensures
        out@ == s@.subrange(from as int, to as int),
{
    let mut out: Vec<char> = Vec::new();
    let mut i = from;
    while i < to
        invariant
            from <= i <= to <= s@.len(),
            out@ == s@.subrange(from as int, i as int),
        decreases to - i,
    {
        out.push(s[i]);
        assert(s@.subrange(from as int, i + 1) =~= s@.subrange(from as int, i as int).push(s@[i as int]));
        i = i + 1;
    }
    out
}

/// The separator between a song's title and its artist in a file name.
pub open spec fn by_separator() -> Seq<char> {
    seq![' ', 'b', 'y', ' ']
}

/// The separator between the directories of a path.
pub open spec fn path_separator() -> Seq<char> {
    seq!['\\']
}

/// The extension of a song file.
pub open spec fn wav_extension() -> Seq<char> {
    seq!['.', 'w', 'a', 'v']
}

/// The title and artist that a song file's path names: the path is
/// `<title part> by <artist part>`; the title is the fourth
/// backslash-separated piece of the title part, the artist what precedes
/// the first `.wav` of the artist part.  `None` when the title part has
/// fewer than four pieces.
pub open spec fn song_name_of(path: Seq<char>) -> Option<(Seq<char>, Seq<char>)> {
    let tokens = split(path, by_separator());
    let title_pieces = split(tokens[0], path_separator());
    let artist_pieces = split(tokens[1], wav_extension());
    if title_pieces.len() > 3 {
        Some((title_pieces[3], artist_pieces[0]))
    } else {
        None
    }
}

/// Reads a song's title and artist from the path of its file (see
/// `song_name_of`).  The path must contain ` by `.
pub fn parse_song_file_name(path: &Vec<char>) -> (name: Option<(Vec<char>, Vec<char>)>)
    requires
        split(path@, by_separator()).len() >= 2,
    ensures
        match song_name_of(path@) {
            Some((t, a)) => name matches Some((title, artist)) && title@ == t && artist@ == a,
            None => name is None,
        },
{
    let by = vec![' ', 'b', 'y', ' '];
    assert(by@ =~= by_separator());
    let backslash = vec!['\\'];
    assert(backslash@ =~= path_separator());
    let wav = vec!['.', 'w', 'a', 'v'];
    assert(wav@ =~= wav_extension());
    let title_part = match split_piece(path, &by, 0) {
        Some(p) => p,
        None => {
            return None;
        },
    };
    let artist_part = match split_piece(path, &by, 1) {
        Some(p) => p,
        None => {
            return None;
        },
    };
    proof {
        lemma_split_nonempty(artist_part@, wav_extension());
    }
    let title = match split_piece(&title_part, &backslash, 3) {
        Some(t) => t,
        None => {
            return None;
        },
    };
    let artist = match split_piece(&artist_part, &wav, 0) {
        Some(a) => a,
        None => {
            return None;
        },
    };
    Some((title, artist))
}

/// The pieces joined back together with `sep` between each two.
pub open spec fn join(pieces: Seq<Seq<char>>, sep: Seq<char>) -> Seq<char>
    decreases pieces.len(),
{
    if pieces.len() == 0 {
        Seq::empty()
    } else if pieces.len() == 1 {
        pieces[0]
    } else {
        pieces[0] + sep + join(pieces.drop_first(), sep)
    }
}

proof fn lemma_split_from_join(s: Seq<char>, pat: Seq<char>, start: int)
    requires
        0 <= start <= s.len(),
    ensures
        split_from(s, pat, start).len() >= 1,
        join(split_from(s, pat, start), pat) == s.subrange(start, s.len() as int),
    decreases s.len() - start,
{
    lemma_first_match_bounds(s, pat, start);
    match first_match_from(s, pat, start) {
        None => {},
        Some(m) => {
            let rest = split_from(s, pat, m + pat.len());
            lemma_split_from_join(s, pat, m + pat.len());
            let pieces = split_from(s, pat, start);
            assert(pieces == seq![s.subrange(start, m)] + rest);
            assert(pieces.drop_first() =~= rest);
            assert(s.subrange(m, m + pat.len()) == pat);
            assert(s.subrange(start, s.len() as int) =~= s.subrange(start, m) + pat + s.subrange(
                m + pat.len(),
                s.len() as int,
            ));
        },
    }
}

/// Cutting a string at a separator loses nothing: joining the pieces back
/// with the separator gives the string again.
pub proof fn lemma_split_join(s: Seq<char>, pat: Seq<char>)
    ensures
        join(split(s, pat), pat) == s,
{
    lemma_split_from_join(s, pat, 0);
    assert(s.subrange(0, s.len() as int) =~= s);
}

proof fn lemma_first_match_none(s: Seq<char>, pat: Seq<char>, i: int)
    requires
        pat.len() > 0,
        0 <= i,
        first_match_from(s, pat, i) is None,
    ensures
        forall|j: int| i <= j ==> !matches_at(s, pat, j),
    decreases s.len() - i,
{
    if i + pat.len() <= s.len() {
        lemma_first_match_none(s, pat, i + 1);
    }
}

/// The artist read from a path is the part after the first ` by ` (up to
/// the next ` by `) cut just before its first `.wav`, or that whole part
/// when it holds no `.wav`: it is a prefix of the part, no `.wav` starts
/// inside it, and the part goes on with `.wav` unless the artist is all of
/// it.
pub proof fn lemma_artist_ends_at_first_wav(path: Seq<char>)
    requires
        split(path, seq![' ', 'b', 'y', ' ']).len() >= 2,
    ensures
        song_name_of(path) matches Some((title, artist)) ==> {
            let part = split(path, seq![' ', 'b', 'y', ' '])[1];
            let wav = seq!['.', 'w', 'a', 'v'];
            &&& artist.len() <= part.len()
            &&& part.subrange(0, artist.len() as int) == artist
            &&& forall|i: int|
                0 <= i < artist.len() && i + 4 <= part.len() ==> #[trigger] part.subrange(i, i + 4) != wav
            &&& artist.len() < part.len() ==> artist.len() + 4 <= part.len() && part.subrange(
                artist.len() as int,
                artist.len() + 4 as int,
            ) == wav
            &&& artist.len() == part.len() ==> forall|i: int|
                0 <= i && i + 4 <= part.len() ==> #[trigger] part.subrange(i, i + 4) != wav
        },
{
    assert(by_separator() =~= seq![' ', 'b', 'y', ' ']);
    let part = split(path, seq![' ', 'b', 'y', ' '])[1];
    let wav = seq!['.', 'w', 'a', 'v'];
    assert(wav_extension() =~= wav);
    lemma_first_match_bounds(part, wav, 0);
    match first_match_from(part, wav, 0) {
        None => {
            lemma_first_match_none(part, wav, 0);
            assert(split(part, wav) == split_from(part, wav, 0));
            assert(split(part, wav)[0] == part.subrange(0, part.len() as int));
            assert(part.subrange(0, part.len() as int) =~= part);
            assert forall|i: int| 0 <= i && i + 4 <= part.len() implies #[trigger] part.subrange(i, i + 4) != wav by {
                assert(!matches_at(part, wav, i));
            }
        },
        Some(m) => {
            assert(split(part, wav)[0] == part.subrange(0, m));
            assert(matches_at(part, wav, m));
            assert forall|i: int| 0 <= i < m && i + 4 <= part.len() implies #[trigger] part.subrange(i, i + 4) != wav by {
                assert(!matches_at(part, wav, i));
            }
            assert(part.subrange(0, m).subrange(0, m) =~= part.subrange(0, m));
        },
    }
}

/// Splitting always yields at least one piece.
pub proof fn lemma_split_nonempty(s: Seq<char>, pat: Seq<char>)
    ensures
        split(s, pat).len() >= 1,
{
    reveal_with_fuel(split_from, 1);
    match first_match_from(s, pat, 0) {
        None => {},
        Some(m) => {
            lemma_first_match_bounds(s, pat, 0);
        },
    }
}

} // verus!
