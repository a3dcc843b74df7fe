use std::collections::HashMap;

use wavetui::{
    band_peaks, column_maxima, PeakLookupError, fingerprint, frequency_bins, matched_song_ids, pack_hash, pair_hash, parse_song_file_name,
    rank_songs, rows_for_song, sort_by_anchor_time, sort_peaks_by_time, split_piece, stable_order,
    time_coherence_score, Controls, Fingerprint, KeyAction, Peak, Song, COHERENCE_TOLERANCE_US, TOP_SONGS,
};

fn chars(s: &str) -> Vec<char> {
    s.chars().collect()
}

fn text(v: &[char]) -> String {
    v.iter().collect()
}

#[test]
fn song_keeps_its_fields() {
    let s = Song::new(7, "Blue".to_string(), "Band".to_string());
    assert_eq!(s.song_id(), 7);
    assert_eq!(s.title(), "Blue");
    assert_eq!(s.artist(), "Band");
}

#[test]
fn fingerprint_keeps_its_fields() {
    let f = Fingerprint::new(-3, 0xdead_beef, 16_000);
    assert_eq!(f.song_id(), -3);
    assert_eq!(f.hash(), 0xdead_beef);
    assert_eq!(f.anchor_time(), 16_000);
}

#[test]
fn peak_keeps_its_fields() {
    let p = Peak::new(32_000, 1_000_000, 42);
    assert_eq!(p.time(), 32_000);
    assert_eq!(p.frequency(), 1_000_000);
    assert_eq!(p.amplitude(), 42);
}

#[test]
fn peak_distance_is_squared_and_scaled() {
    // 3 us apart and 4 mHz apart: 3^2 + (4 * 1000)^2.
    let a = Peak::new(10, 20, 0);
    let b = Peak::new(13, 24, 0);
    assert_eq!(a.distance(b), 9 + 16_000_000);
    assert_eq!(b.distance(a), 9 + 16_000_000);
    assert_eq!(a.distance(a), 0);
}

#[test]
fn peak_distance_saturates() {
    let a = Peak::new(0, 0, 0);
    let b = Peak::new(u64::MAX, u32::MAX, 0);
    assert_eq!(a.distance(b), u128::MAX);
}

#[test]
fn pack_hash_lays_out_fields() {
    assert_eq!(pack_hash(1, 2, 3), (1 << 22) | (2 << 12) | 3);
    assert_eq!(pack_hash(1023, 1023, 4095), u32::MAX);
}

#[test]
fn pack_hash_masks_fields() {
    assert_eq!(pack_hash(1025, 1024, 4097), (1 << 22) | 1);
}

#[test]
fn pair_hash_quantises_frequencies_and_gap() {
    // 1000 Hz and 1500 Hz, 16 ms apart.
    let a = Peak::new(0, 1_000_000, 0);
    let t = Peak::new(16_000, 1_500_000, 0);
    assert_eq!(pair_hash(&a, &t), (100 << 22) | (150 << 12) | 16);
}

#[test]
fn pair_hash_rounds_halves_up() {
    // 15 Hz rounds to 2 tens of Hz; 1.5 ms rounds to 2 ms; 14.999 Hz to 1.
    let a = Peak::new(1_500, 15_000, 0);
    let t = Peak::new(0, 14_999, 0);
    assert_eq!(pair_hash(&a, &t), (2 << 22) | (1 << 12) | 2);
}

#[test]
fn pair_hash_saturates_long_gaps() {
    let a = Peak::new(u64::MAX, 0, 0);
    let t = Peak::new(0, 0, 0);
    assert_eq!(pair_hash(&a, &t), 0xfff);
}

#[test]
fn stable_order_ascending_keeps_ties() {
    assert_eq!(stable_order(&vec![3, 1, 3, 2], false), vec![1, 3, 0, 2]);
}

#[test]
fn stable_order_descending_keeps_ties() {
    assert_eq!(stable_order(&vec![3, 1, 3, 2], true), vec![0, 2, 3, 1]);
    assert_eq!(stable_order(&vec![], true), Vec::<usize>::new());
}

#[test]
fn fingerprint_pairs_nearest_targets() {
    // Three peaks, 16 ms apart; each anchor takes its one nearest target.
    let p0 = Peak::new(0, 1_000_000, 0);
    let p1 = Peak::new(16_000, 1_100_000, 0);
    let p2 = Peak::new(32_000, 1_300_000, 0);
    let peaks = vec![p0, p1, p2];
    let table = fingerprint(&peaks, 1_000_000, 1_500_000, 1);
    let mut want = HashMap::new();
    want.insert(pair_hash(&p0, &p1), 0);
    want.insert(pair_hash(&p1, &p0), 16_000);
    want.insert(pair_hash(&p2, &p1), 32_000);
    assert_eq!(table, want);
}

#[test]
fn fingerprint_respects_zones() {
    let p0 = Peak::new(0, 1_000_000, 0);
    let p1 = Peak::new(2_000_000, 1_000_000, 0);
    let p2 = Peak::new(10_000, 3_000_000, 0);
    let table = fingerprint(&vec![p0, p1, p2], 1_000_000, 1_500_000, 5);
    assert!(table.is_empty());
}

#[test]
fn fingerprint_later_anchor_overwrites() {
    // Two identical pairs at different times share a hash; the later anchor wins.
    let peaks = vec![
        Peak::new(0, 1_000_000, 0),
        Peak::new(100_000, 1_000_000, 0),
        Peak::new(5_000_000, 1_000_000, 0),
        Peak::new(5_100_000, 1_000_000, 0),
    ];
    let table = fingerprint(&peaks, 1_000_000, 1_500_000, 5);
    assert_eq!(table.len(), 1);
    assert_eq!(table.get(&pair_hash(&peaks[0], &peaks[1])), Some(&5_100_000));
}

#[test]
fn fingerprint_takes_at_most_min_targets() {
    let peaks: Vec<Peak> = (0..6u64).map(|k| Peak::new(k * 16_000, 1_000_000 + k as u32 * 31_250, 0)).collect();
    let table = fingerprint(&peaks, 1_000_000, 1_500_000, 2);
    // Anchor 0's two nearest targets are peaks 1 and 2.
    assert_eq!(table.get(&pair_hash(&peaks[0], &peaks[1])), Some(&0));
    assert_eq!(table.get(&pair_hash(&peaks[0], &peaks[2])), Some(&0));
    assert_eq!(table.get(&pair_hash(&peaks[0], &peaks[3])), None);
}

#[test]
fn frequency_bins_split_by_sixths() {
    // Rows every 1000 Hz up to 6000 Hz: each band spans more than 1000 Hz.
    let freqs: Vec<u32> = (0..7u32).map(|k| k * 1_000_000).collect();
    let bins = frequency_bins(&freqs, 6_000_000);
    assert_eq!(bins, vec![(0, 2), (2, 4), (4, 6)]);
}

#[test]
fn frequency_bins_close_at_last_row() {
    let freqs = vec![0, 100, 200];
    assert_eq!(frequency_bins(&freqs, 6_000_000), vec![(0, 2)]);
    assert_eq!(frequency_bins(&vec![5], 6_000_000), vec![(0, 0)]);
    assert_eq!(frequency_bins(&vec![], 6_000_000), vec![]);
}

#[test]
fn column_maxima_finds_first_strict_maximum() {
    let col = vec![1, 5, 5, 2, 0, 0, 7];
    let bins = vec![(0, 3), (3, 6), (5, 7)];
    // The middle band has only 2 above zero; the last band's maximum is 7.
    assert_eq!(column_maxima(&col, &bins), vec![(1, 5), (3, 2), (6, 7)]);
}

#[test]
fn column_maxima_carries_row_through_silent_bands() {
    let col = vec![0, 9, 0, 0];
    let bins = vec![(0, 2), (2, 4), (2, 2)];
    assert_eq!(column_maxima(&col, &bins), vec![(1, 9), (1, 0), (1, 0)]);
    assert_eq!(column_maxima(&vec![0, 0], &vec![(0, 2)]), vec![(0, 0)]);
}

#[test]
fn sort_peaks_by_time_is_stable() {
    let a = Peak::new(30, 1, 0);
    let b = Peak::new(10, 2, 0);
    let c = Peak::new(30, 3, 0);
    let d = Peak::new(20, 4, 0);
    assert_eq!(sort_peaks_by_time(&vec![a, b, c, d]), vec![b, d, a, c]);
}

#[test]
fn sort_by_anchor_time_is_stable() {
    let a = Fingerprint::new(1, 1, 50);
    let b = Fingerprint::new(1, 2, 10);
    let c = Fingerprint::new(1, 3, 50);
    assert_eq!(sort_by_anchor_time(&vec![a, b, c]), vec![b, a, c]);
}

#[test]
fn matched_ids_in_first_seen_order() {
    let rows = vec![
        Fingerprint::new(4, 1, 0),
        Fingerprint::new(2, 1, 0),
        Fingerprint::new(4, 2, 0),
        Fingerprint::new(9, 3, 0),
    ];
    assert_eq!(matched_song_ids(&rows), vec![4, 2, 9]);
    assert_eq!(rows_for_song(&rows, 4), vec![rows[0], rows[2]]);
    assert_eq!(rows_for_song(&rows, 5), vec![]);
}

#[test]
fn coherence_counts_agreeing_gaps() {
    let mut rec = HashMap::new();
    rec.insert(1u32, 0u64);
    rec.insert(2, 500_000);
    rec.insert(3, 2_000_000);
    // Song gaps: 500 ms (agrees), 1500 ms but the recording has 1500 ms too.
    let fps = vec![
        Fingerprint::new(1, 3, 10_000_000),
        Fingerprint::new(1, 1, 8_000_000),
        Fingerprint::new(1, 2, 8_500_000),
    ];
    assert_eq!(time_coherence_score(&rec, &fps), Some(2));
    // Gap off by exactly the tolerance is not coherent.
    let fps = vec![
        Fingerprint::new(1, 1, 0),
        Fingerprint::new(1, 2, 500_000 + COHERENCE_TOLERANCE_US),
    ];
    assert_eq!(time_coherence_score(&rec, &fps), Some(0));
}

#[test]
fn coherence_fails_on_missing_hash() {
    let mut rec = HashMap::new();
    rec.insert(1u32, 0u64);
    let fps = vec![Fingerprint::new(1, 1, 0), Fingerprint::new(1, 7, 10)];
    assert_eq!(time_coherence_score(&rec, &fps), None);
    // A single match has no pair to look up.
    assert_eq!(time_coherence_score(&rec, &vec![Fingerprint::new(1, 7, 10)]), Some(0));
}

#[test]
fn rank_songs_orders_by_coherence() {
    let mut rec = HashMap::new();
    rec.insert(1u32, 0u64);
    rec.insert(2, 1_000_000);
    rec.insert(3, 3_000_000);
    let rows = vec![
        // Song 10: three matches, gaps disagree.
        Fingerprint::new(10, 1, 0),
        Fingerprint::new(10, 2, 5_000_000),
        Fingerprint::new(10, 3, 5_100_000),
        // Song 20: two matches, coherent.
        Fingerprint::new(20, 1, 40_000_000),
        Fingerprint::new(20, 2, 41_000_000),
    ];
    assert_eq!(rank_songs(&rec, &rows), Some(vec![20, 10]));
}

#[test]
fn rank_songs_keeps_top_five_by_count() {
    let mut rec = HashMap::new();
    rec.insert(1u32, 0u64);
    let mut rows = Vec::new();
    for id in 0..7i64 {
        for _ in 0..(id + 1) {
            rows.push(Fingerprint::new(id, 1, 0));
        }
    }
    let ranked = rank_songs(&rec, &rows).unwrap();
    assert_eq!(ranked.len(), TOP_SONGS);
    // Every pair is coherent, so the scores follow the match counts.
    assert_eq!(ranked, vec![6, 5, 4, 3, 2]);
}

#[test]
fn rank_songs_fails_when_a_hash_is_unknown() {
    let rec: HashMap<u32, u64> = HashMap::new();
    let rows = vec![Fingerprint::new(1, 1, 0), Fingerprint::new(1, 2, 5)];
    assert_eq!(rank_songs(&rec, &rows), None);
    assert_eq!(rank_songs(&rec, &vec![]), Some(vec![]));
}

#[test]
fn split_piece_matches_str_split() {
    let s = chars("a by b by  by c");
    let by = chars(" by ");
    for n in 0..5 {
        let want = "a by b by  by c".split(" by ").nth(n).map(|p| p.chars().collect::<Vec<char>>());
        assert_eq!(split_piece(&s, &by, n), want);
    }
}

#[test]
fn parses_title_and_artist_from_path() {
    let (title, artist) = parse_song_file_name(&chars("C:\\music\\songs\\Blue Moon by The Band.wav")).unwrap();
    assert_eq!(text(&title), "Blue Moon");
    assert_eq!(text(&artist), "The Band");
}

#[test]
fn parse_fails_on_short_path() {
    assert_eq!(parse_song_file_name(&chars("songs\\Blue Moon by The Band.wav")), None);
}

#[test]
fn parse_artist_without_extension() {
    let (title, artist) = parse_song_file_name(&chars("a\\b\\c\\T by A by B")).unwrap();
    assert_eq!(text(&title), "T");
    assert_eq!(text(&artist), "A");
}

#[test]
fn keys_drive_controls() {
    let mut c = Controls::new();
    assert_eq!(c, Controls { exit: false, record: false, selected_tab: 0 });
    assert_eq!(c.handle_key_event(Some('r')), KeyAction::Nothing);
    assert!(c.record);
    assert_eq!(c.handle_key_event(Some('r')), KeyAction::Nothing);
    assert!(!c.record);
    assert_eq!(c.handle_key_event(Some('t')), KeyAction::Nothing);
    assert_eq!(c.selected_tab, 1);
    assert_eq!(c.handle_key_event(Some('t')), KeyAction::Nothing);
    assert_eq!(c.selected_tab, 0);
    assert_eq!(c.handle_key_event(Some('c')), KeyAction::ClearRecorded);
    assert_eq!(c.handle_key_event(Some('s')), KeyAction::Search);
    assert_eq!(c.handle_key_event(None), KeyAction::Nothing);
    assert_eq!(c.handle_key_event(Some('x')), KeyAction::Nothing);
    assert!(!c.exit);
    assert_eq!(c.handle_key_event(Some('q')), KeyAction::Nothing);
    assert!(c.exit);
}

#[test]
fn tab_outside_range_stays() {
    let mut c = Controls { exit: false, record: false, selected_tab: 7 };
    c.handle_key_event(Some('t'));
    assert_eq!(c.selected_tab, 7);
}

#[test]
fn quitting_is_final() {
    let mut c = Controls::new();
    c.handle_key_event(Some('q'));
    for key in [Some('q'), Some('r'), Some('t'), Some('c'), None] {
        c.handle_key_event(key);
        assert!(c.exit);
        assert!(c.selected_tab <= 1);
    }
}

#[test]
fn stable_order_is_a_permutation() {
    let keys: Vec<u128> = vec![5, 5, 0, 9, 5, 1];
    let p = stable_order(&keys, false);
    let mut seen = p.clone();
    seen.sort();
    assert_eq!(seen, (0..keys.len()).collect::<Vec<_>>());
    assert_eq!(p, vec![2, 5, 0, 1, 4, 3]);
    assert_eq!(stable_order(&keys, false), p);
}

#[test]
fn band_peaks_gathers_one_peak_per_column() {
    let maxima = vec![vec![(0, 5), (2, 7)], vec![(1, 0), (2, 9)]];
    let times = vec![0, 16_000];
    let freqs = vec![0, 31_250, 62_500];
    let bands = band_peaks(&maxima, &times, &freqs, 2).unwrap();
    assert_eq!(
        bands,
        vec![
            vec![Peak::new(0, 0, 5), Peak::new(16_000, 31_250, 0)],
            vec![Peak::new(0, 62_500, 7), Peak::new(16_000, 62_500, 9)],
        ]
    );
    assert_eq!(band_peaks(&vec![], &times, &freqs, 2), Ok(vec![vec![], vec![]]));
}

#[test]
fn band_peaks_reports_missing_frequency_row() {
    let maxima = vec![vec![(0, 5), (3, 7)]];
    assert_eq!(band_peaks(&maxima, &vec![0], &vec![0, 1, 2], 2), Err(PeakLookupError::FrequencyRow));
    // The row is checked before the missing time.
    assert_eq!(band_peaks(&vec![vec![(3, 1)]], &vec![], &vec![0], 1), Err(PeakLookupError::FrequencyRow));
}

#[test]
fn band_peaks_reports_missing_time_column() {
    let maxima = vec![vec![(0, 5)], vec![(0, 6)]];
    assert_eq!(band_peaks(&maxima, &vec![0], &vec![0], 1), Err(PeakLookupError::TimeColumn));
}

#[test]
fn fingerprint_keys_survive_reordering() {
    let peaks: Vec<Peak> = (0..8u64).map(|k| Peak::new(k * 16_000, 1_000_000 + (k * k) as u32 * 31_250, 0)).collect();
    let mut reversed = peaks.clone();
    reversed.reverse();
    let a = fingerprint(&peaks, 1_000_000, 1_500_000, 3);
    let b = fingerprint(&reversed, 1_000_000, 1_500_000, 3);
    let mut ka: Vec<u32> = a.keys().copied().collect();
    let mut kb: Vec<u32> = b.keys().copied().collect();
    ka.sort();
    kb.sort();
    assert!(!ka.is_empty());
    assert_eq!(ka, kb);
}
