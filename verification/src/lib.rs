//! Verified core of an audio-fingerprinting song recogniser: peak
//! selection, fingerprint hashing, match ranking, file-name parsing and
//! the keyboard state machine of the terminal front end.

mod controls;
mod fingerprint;
mod hash;
mod names;
mod order;
mod peak;
mod search;
mod shazam;
mod song;

pub use fingerprint::Fingerprint;
pub use hash::{lemma_pack_hash_fields, lemma_pack_hash_injective, pack_hash, spec_pack_hash};
pub use order::{
    insert_position, is_stable_order, lemma_stable_order_exists, lemma_stable_order_sorted, lemma_stable_order_unique, precedes, stable_order, stable_order_of,
};
pub use peak::{abs_diff, lemma_distance_self, lemma_distance_symmetric, spec_distance, Peak};
pub use shazam::{
    anchor_hashes, anchor_targets, band_base, band_peaks, lemma_bins_close_at_a_sixth, candidate_keys, candidates, bins_upto, column_lookup_error, first_lookup_error, PeakLookupError, column_maxima, column_maxima_upto, frequency_bins, peak_time_keys, scan_max, sort_peaks_by_time, fingerprint, fingerprint_map, in_zone, insert_all, distinct_zone_distances, has_preimage, is_permutation, lemma_anchor_hashes_permuted, lemma_anchor_targets_nearest, lemma_fingerprint_keys_permuted, lemma_fingerprint_pairs_every_zone_peak, lemma_fingerprint_pairs_nearest_zone_peak, lemma_pair_hash_written_out, lemma_strictly_sorted_equal, pair_hash_value, lemma_fingerprint_map_entries, sorted_zone_distances, zone_candidate, pair_hash,
    spec_dt_bits, spec_freq_bits, spec_pair_hash,
};
pub use song::Song;
pub use search::{
    anchor_time_keys, coherence_score, coherent_count, is_fingerprint_permutation, lemma_coherence_score_ignores_order, lemma_coherence_score_of_two, lemma_matched_ids, matched_ids, matched_song_ids, pair_coherent, pair_found,
    rank_songs, ranking, rows_for_song, rows_of, sort_by_anchor_time, sorted_by_anchor_time, time_coherence_score, top_songs,
    COHERENCE_TOLERANCE_US, TOP_SONGS,
};
pub use names::{
    by_separator, first_match_from, join, lemma_artist_ends_at_first_wav, lemma_first_match_bounds, lemma_split_join, lemma_split_nonempty, matches_at, parse_song_file_name, path_separator, song_name_of,
    split, split_from, split_piece, wav_extension,
};
pub use controls::{
    key_action, lemma_exit_is_final, lemma_key_effects, lemma_tab_stays_valid, lemma_toggle_twice, next_controls, Controls, KeyAction,
};
