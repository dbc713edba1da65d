use blissmixer::params::{
    clamp_count, forest_pool_per_seed, holiday_filter, num_sim,
    similarity_count, tracks_per_seed, unique_ids, use_forest, ListParams, MixParams, MixSettings,
};
use blissmixer::lister::ListSettings;

fn params() -> MixParams {
    MixParams {
        count: None,
        filtergenre: None,
        filterxmas: None,
        min: None,
        max: None,
        maxbpmdiff: None,
        tracks: Vec::new(),
        previous: None,
        shuffle: None,
        norepart: None,
        norepalb: None,
        genregroups: Vec::new(),
        forest: None,
    }
}

#[test]
fn count_defaults_and_clamps() {
    assert_eq!(clamp_count(None), 5);
    assert_eq!(clamp_count(Some(0)), 1);
    assert_eq!(clamp_count(Some(17)), 17);
    assert_eq!(clamp_count(Some(51)), 50);
    assert_eq!(clamp_count(Some(u16::MAX)), 50);
}

#[test]
fn shuffle_widens_the_search() {
    // count 5 with shuffle gathers 25 similar tracks.
    assert_eq!(similarity_count(5, true), 25);
    assert_eq!(similarity_count(5, false), 5);
    assert_eq!(similarity_count(20, true), 20);
    assert_eq!(similarity_count(19, true), 95);
    // 25 is not under 15, so each seed may give 25.
    assert_eq!(tracks_per_seed(25), 25);
    assert_eq!(tracks_per_seed(5), 15);
    assert_eq!(tracks_per_seed(14), 42);
    assert_eq!(tracks_per_seed(15), 15);
}

#[test]
fn neighbours_per_seed() {
    assert_eq!(num_sim(5, 1), 5000);
    assert_eq!(num_sim(50, 3), 7500);
    assert_eq!(num_sim(20, 5), 5000);
    assert_eq!(num_sim(20, 6), 6000);
}

#[test]
fn forest_needs_more_than_four_seeds() {
    assert!(use_forest(Some(1), 5, 5));
    assert!(use_forest(Some(2), 6, 5));
    assert!(!use_forest(Some(1), 4, 4));
    assert!(!use_forest(Some(1), 5, 4));
    assert!(!use_forest(Some(0), 9, 9));
    assert!(!use_forest(None, 9, 9));
    assert_eq!(forest_pool_per_seed(5), 1000);
    assert_eq!(forest_pool_per_seed(20), 500);
    assert_eq!(forest_pool_per_seed(3), 1000);
}

#[test]
fn holiday_filter_is_off_in_december() {
    assert!(!holiday_filter(Some(1), 12));
    assert!(holiday_filter(Some(1), 11));
    assert!(holiday_filter(Some(1), 1));
    assert!(!holiday_filter(Some(0), 6));
    assert!(!holiday_filter(None, 6));
}

#[test]
fn mix_settings_from_request() {
    let mut p = params();
    p.count = Some(5);
    p.shuffle = Some(1);
    p.filterxmas = Some(1);
    p.norepart = Some(3);
    p.min = Some(60);
    let s = MixSettings::from_params(&p, 12);
    assert_eq!(s.count, 5);
    assert!(s.shuffle);
    assert_eq!(s.similarity_count, 25);
    assert!(!s.filter_xmas);
    assert_eq!(s.no_repeat_artist, 3);
    assert_eq!(s.no_repeat_album, 0);
    assert_eq!(s.min_duration, 60);
    assert_eq!(s.max_duration, 0);
    let s = MixSettings::from_params(&p, 7);
    assert!(s.filter_xmas);
    let d = MixSettings::from_params(&params(), 3);
    assert_eq!(d.count, 5);
    assert!(!d.shuffle && !d.filter_genre && !d.filter_xmas);
    assert_eq!(d.similarity_count, 5);
    let now = MixSettings::for_now(&params());
    assert_eq!(now.count, 5);
}

#[test]
fn list_settings_from_request() {
    let p = ListParams {
        count: Some(80),
        filtergenre: Some(1),
        filterxmas: Some(1),
        min: None,
        max: Some(400),
        maxbpmdiff: Some(8),
        track: "a.mp3".to_string(),
        genregroups: Vec::new(),
        byartist: 1,
    };
    let s = ListSettings::from_params(&p, 12);
    assert_eq!(s.count, 50);
    assert!(s.filter_genre);
    assert!(!s.filter_xmas);
    assert_eq!(s.max_duration, 400);
    assert_eq!(s.max_bpm_diff, 8);
    assert!(s.by_artist);
}

#[test]
fn pool_ids_are_kept_once_in_first_order() {
    assert_eq!(unique_ids(&vec![5, 3, 5, 7, 3, 1]), vec![5, 3, 7, 1]);
    assert!(unique_ids(&Vec::new()).is_empty());
}
