use blissmixer::lister::{ListSettings, Lister};
use blissmixer::mixer::{Mixer, Verdict, SCORE_UNIT};
use blissmixer::params::{ListParams, MixParams, MixSettings};
use blissmixer::track::{Metadata, Track};

fn meta(file: &str, title: &str, artist: &str, album: &str, genre: &str, bpm: i16) -> Metadata {
    Metadata {
        file: file.to_string(),
        title: Some(title.to_string()),
        artist: Some(artist.to_string()),
        album_artist: None,
        album: Some(album.to_string()),
        genre: Some(genre.to_string()),
        duration: Some(200),
        bpm,
    }
}

fn track(id: u64, title: &str, artist: &str, album: &str, bpm: i16) -> Track {
    Track::from_metadata(id, &meta(&format!("{}.mp3", id), title, artist, album, "", bpm))
}

fn settings(f: impl Fn(&mut MixParams)) -> MixSettings {
    let mut p = MixParams {
        count: None,
        filtergenre: None,
        filterxmas: None,
        min: None,
        max: None,
        maxbpmdiff: None,
        tracks: Vec::new(),
        previous: None,
        shuffle: None,
        norepart: None,
        norepalb: None,
        genregroups: Vec::new(),
        forest: None,
    };
    f(&mut p);
    MixSettings::from_params(&p, 6)
}

fn offer(m: &mut Mixer, t: &Track, score: u64) -> Verdict {
    if m.offer(t.id, score) {
        m.consider(t, score)
    } else {
        Verdict::Seen
    }
}

#[test]
fn metadata_is_normalised() {
    let mut m = meta("x.flac", "Song A", "The Band", "Greatest", "Rock; Pop", 120);
    m.duration = None;
    let t = Track::from_metadata(7, &m);
    assert_eq!(t.id, 7);
    assert_eq!(t.file, "x.flac");
    assert_eq!(t.title, "song a");
    assert_eq!(t.orig_artist, "The Band");
    assert_eq!(t.artist, "the band");
    assert_eq!(t.album, "greatest::the band");
    assert!(!t.is_various);
    assert_eq!(t.duration, 0);
    assert_eq!(t.bpm, 120);
    let mut g = t.genres.clone();
    g.sort();
    assert_eq!(g, vec!["pop".to_string(), "rock".to_string()]);

    m.album_artist = Some("Various Artists".to_string());
    let v = Track::from_metadata(8, &m);
    assert_eq!(v.album_artist, "various artists");
    assert_eq!(v.album, "greatest::various artists");
    assert!(v.is_various);
    m.album_artist = Some("VARIOUS".to_string());
    assert!(Track::from_metadata(9, &m).is_various);
    m.album_artist = Some("Someone".to_string());
    assert!(!Track::from_metadata(9, &m).is_various);

    let empty = Metadata {
        file: String::new(),
        title: None,
        artist: None,
        album_artist: None,
        album: None,
        genre: None,
        duration: None,
        bpm: 0,
    };
    let e = Track::from_metadata(1, &empty);
    assert_eq!(e.title, "");
    assert_eq!(e.album, "::");
    assert!(e.genres.is_empty());
}

#[test]
fn bpm_window_around_the_seed() {
    let s = settings(|p| p.maxbpmdiff = Some(5));
    let seed = track(1, "seed", "s", "sa", 120);
    let mut m = Mixer::new(s, &Vec::new(), &Vec::new(), &vec![seed], false);
    m.begin_seed(120);
    assert_eq!(offer(&mut m, &track(2, "t2", "a2", "b2", 100), 1), Verdict::Bpm);
    assert_eq!(offer(&mut m, &track(3, "t3", "a3", "b3", 115), 2), Verdict::Accepted);
    assert_eq!(offer(&mut m, &track(4, "t4", "a4", "b4", 125), 3), Verdict::Accepted);
    assert_eq!(offer(&mut m, &track(5, "t5", "a5", "b5", 126), 4), Verdict::Bpm);
    assert_eq!(offer(&mut m, &track(6, "t6", "a6", "b6", 114), 5), Verdict::Bpm);
    // A track without tempo is never held to the window.
    assert_eq!(offer(&mut m, &track(7, "t7", "a7", "b7", 0), 6), Verdict::Accepted);
    assert_eq!(m.finish(), vec!["3.mp3", "4.mp3", "7.mp3"]);
}

#[test]
fn each_rule_of_the_chain() {
    let s = settings(|p| {
        p.min = Some(100);
        p.max = Some(300);
        p.norepart = Some(1);
        p.norepalb = Some(1);
        p.filterxmas = Some(1);
        p.count = Some(10);
    });
    let prev = vec![track(10, "old song", "Old Artist", "Old Album", 0)];
    let seed = track(1, "seed song", "seed artist", "seed album", 0);
    let mut m = Mixer::new(s, &Vec::new(), &prev, &vec![seed.clone_track()], false);
    m.begin_seed(0);
    // Seeds and previous tracks are never candidates.
    assert_eq!(offer(&mut m, &seed, 1), Verdict::Seen);
    assert_eq!(offer(&mut m, &track(10, "x", "y", "z", 0), 1), Verdict::Seen);
    let mut short = track(2, "a", "b", "c", 0);
    short.duration = 50;
    assert_eq!(offer(&mut m, &short, 1), Verdict::Duration);
    let mut long = track(3, "a", "b", "c", 0);
    long.duration = 301;
    assert_eq!(offer(&mut m, &long, 1), Verdict::Duration);
    let xmas = Track::from_metadata(4, &meta("4.mp3", "bells", "b", "c", "Christmas", 0));
    assert_eq!(offer(&mut m, &xmas, 1), Verdict::Christmas);
    assert_eq!(offer(&mut m, &track(5, "new", "old artist", "n", 0), 1), Verdict::RepeatArtist);
    // Same album key: album name and album artist.
    let mut am = meta("6.mp3", "new", "other", "Old Album", "", 0);
    am.album_artist = Some("Old Artist".to_string());
    assert_eq!(offer(&mut m, &Track::from_metadata(6, &am), 1), Verdict::RepeatAlbum);
    assert_eq!(offer(&mut m, &track(7, "Seed Song", "other", "x", 0), 1), Verdict::RepeatTitle);
    assert_eq!(offer(&mut m, &track(8, "fine", "fresh", "fresh album", 0), 1), Verdict::Accepted);
    // Same album again is dropped outright, whatever the windows.
    assert_eq!(offer(&mut m, &track(9, "fine 2", "fresh", "fresh album", 0), 1), Verdict::Album);
    // An id seen once is never considered again.
    assert_eq!(offer(&mut m, &track(8, "fine", "fresh", "fresh album", 0), 1), Verdict::Seen);
    // One chosen, two wanted: the first filtered track (same score) joins.
    assert_eq!(m.finish(), vec!["8.mp3", "5.mp3"]);
}

trait CloneTrack {
    fn clone_track(&self) -> Track;
}

impl CloneTrack for Track {
    fn clone_track(&self) -> Track {
        Track {
            id: self.id,
            file: self.file.clone(),
            title: self.title.clone(),
            orig_artist: self.orig_artist.clone(),
            artist: self.artist.clone(),
            album_artist: self.album_artist.clone(),
            album: self.album.clone(),
            genres: self.genres.clone(),
            duration: self.duration,
            is_various: self.is_various,
            bpm: self.bpm,
        }
    }
}

#[test]
fn result_is_ordered_by_score_and_cut_to_count() {
    let s = settings(|p| p.count = Some(3));
    let mut m = Mixer::new(s, &Vec::new(), &Vec::new(), &Vec::new(), false);
    m.begin_seed(0);
    for (id, score) in [(1u64, 50u64), (2, 10), (3, 40), (4, 10), (5, 30)] {
        let t = track(id, &format!("t{}", id), &format!("a{}", id), &format!("b{}", id), 0);
        assert_eq!(offer(&mut m, &t, score * SCORE_UNIT / 100), Verdict::Accepted);
    }
    // Ties keep their order of acceptance.
    assert_eq!(m.finish(), vec!["2.mp3", "4.mp3", "5.mp3"]);
}

#[test]
fn a_track_near_two_seeds_keeps_the_smaller_score() {
    let s = settings(|p| p.count = Some(5));
    let mut m = Mixer::new(s, &Vec::new(), &Vec::new(), &Vec::new(), false);
    m.begin_seed(0);
    assert_eq!(offer(&mut m, &track(1, "t1", "a1", "b1", 0), 500), Verdict::Accepted);
    assert_eq!(offer(&mut m, &track(2, "t2", "a2", "b2", 0), 300), Verdict::Accepted);
    m.begin_seed(0);
    assert!(!m.offer(1, 100));
    assert!(!m.offer(2, 900));
    assert_eq!(m.finish(), vec!["1.mp3", "2.mp3"]);
}

#[test]
fn tracks_per_seed_limit() {
    // count 1 without shuffle: similarity 1, so 3 tracks per seed.
    let s = settings(|p| p.count = Some(1));
    let mut m = Mixer::new(s, &Vec::new(), &Vec::new(), &Vec::new(), false);
    m.begin_seed(0);
    for id in 1..=3u64 {
        assert!(m.wants_more());
        let t = track(id, &format!("t{}", id), &format!("a{}", id), &format!("b{}", id), 0);
        assert_eq!(offer(&mut m, &t, 10 - id), Verdict::Accepted);
    }
    assert!(!m.wants_more());
    m.begin_seed(0);
    assert!(m.wants_more());
    assert_eq!(m.finish(), vec!["3.mp3"]);
}

#[test]
fn too_few_chosen_are_topped_up_from_filtered() {
    let s = settings(|p| {
        p.norepart = Some(1);
        p.count = Some(5);
    });
    let mut m = Mixer::new(s, &Vec::new(), &Vec::new(), &Vec::new(), false);
    m.begin_seed(0);
    assert_eq!(offer(&mut m, &track(1, "t1", "same", "b1", 0), 100), Verdict::Accepted);
    assert_eq!(offer(&mut m, &track(2, "t2", "same", "b2", 0), 90), Verdict::RepeatArtist);
    assert_eq!(offer(&mut m, &track(3, "t3", "same", "b3", 0), 50), Verdict::RepeatArtist);
    // One chosen, two wanted at least: the best filtered track joins.
    assert_eq!(m.finish(), vec!["3.mp3", "1.mp3"]);
}

#[test]
fn nothing_found_gives_empty_list() {
    let s = settings(|_| {});
    let m = Mixer::new(s, &Vec::new(), &Vec::new(), &Vec::new(), false);
    assert!(m.finish().is_empty());
}

#[test]
fn previous_windows_protect_recent_artists_only() {
    let s = settings(|p| {
        p.norepart = Some(1);
        p.count = Some(10);
    });
    let prev = vec![track(10, "first prev", "recent", "ra", 0), track(11, "second prev", "older", "oa", 0)];
    let mut m = Mixer::new(s, &Vec::new(), &prev, &Vec::new(), false);
    m.begin_seed(0);
    assert_eq!(offer(&mut m, &track(1, "x", "recent", "x1", 0), 1), Verdict::RepeatArtist);
    assert_eq!(offer(&mut m, &track(2, "y", "older", "x2", 0), 2), Verdict::Accepted);
    // Previous titles are always excluded.
    assert_eq!(offer(&mut m, &track(3, "second prev", "other", "x3", 0), 3), Verdict::RepeatTitle);
}

#[test]
fn various_artists_albums_skip_the_album_window() {
    let s = settings(|p| {
        p.norepalb = Some(1);
        p.count = Some(10);
    });
    let mut pm = meta("10.mp3", "p", "a", "Hits", "", 0);
    pm.album_artist = Some("Various".to_string());
    let prev = vec![Track::from_metadata(10, &pm)];
    let mut m = Mixer::new(s, &Vec::new(), &prev, &Vec::new(), false);
    m.begin_seed(0);
    let mut cm = meta("1.mp3", "q", "b", "Hits", "", 0);
    cm.album_artist = Some("Various".to_string());
    assert_eq!(offer(&mut m, &Track::from_metadata(1, &cm), 1), Verdict::Accepted);
}

#[test]
fn forest_mode_uses_the_seed_band() {
    let s = settings(|p| {
        p.maxbpmdiff = Some(5);
        p.count = Some(2);
        p.forest = Some(1);
    });
    let seeds: Vec<Track> = [100i16, 110, 120, 105, 115]
        .iter()
        .enumerate()
        .map(|(i, b)| track(100 + i as u64, &format!("s{}", i), &format!("sa{}", i), &format!("sb{}", i), *b))
        .collect();
    let mut m = Mixer::new(s, &Vec::new(), &Vec::new(), &seeds, true);
    // Band is [100 - 5, 120 + 5].
    assert_eq!(offer(&mut m, &track(1, "a", "a", "a", 94), 7), Verdict::Bpm);
    assert_eq!(offer(&mut m, &track(2, "b", "b", "b", 126), 7), Verdict::Bpm);
    assert_eq!(offer(&mut m, &track(3, "c", "c", "c", 95), 9), Verdict::Accepted);
    assert!(m.wants_more());
    assert_eq!(offer(&mut m, &track(4, "d", "d", "d", 125), 1), Verdict::Accepted);
    assert!(!m.wants_more());
    // The ranking's order is kept, whatever the scores handed in.
    assert_eq!(m.finish(), vec!["3.mp3", "4.mp3"]);
}

#[test]
fn shuffled_result_is_cut_to_count() {
    let s = settings(|p| {
        p.count = Some(5);
        p.shuffle = Some(1);
        p.norepart = Some(1);
    });
    let mut m = Mixer::new(s, &Vec::new(), &Vec::new(), &Vec::new(), false);
    m.begin_seed(0);
    for id in 1..=30u64 {
        let t = track(id, &format!("t{}", id), &format!("a{}", id), &format!("b{}", id), 0);
        offer(&mut m, &t, id);
    }
    // Alternates of artist a1, close in score.
    offer(&mut m, &track(31, "alt", "a1", "z1", 0), 2);
    let out = m.finish();
    assert_eq!(out.len(), 5);
    let mut seen = out.clone();
    seen.sort();
    seen.dedup();
    assert_eq!(seen.len(), 5);
    for f in &out {
        let n: u64 = f.trim_end_matches(".mp3").parse().unwrap();
        assert!(n <= 25 || n == 31);
    }
}

#[test]
fn genre_filter_in_the_mix() {
    let s = settings(|p| {
        p.filtergenre = Some(1);
        p.count = Some(10);
    });
    let groups = vec![vec!["rock".to_string(), "metal".to_string()]];
    let seed = Track::from_metadata(1, &meta("1.mp3", "s", "s", "s", "jazz", 0));
    let mut m = Mixer::new(s, &groups, &Vec::new(), &vec![seed], false);
    m.begin_seed(0);
    let rock = Track::from_metadata(2, &meta("2.mp3", "r", "r", "r", "Rock", 0));
    let folk = Track::from_metadata(3, &meta("3.mp3", "f", "f", "f", "Folk", 0));
    assert_eq!(offer(&mut m, &rock, 1), Verdict::Genre);
    assert_eq!(offer(&mut m, &folk, 1), Verdict::Accepted);
}

#[test]
fn list_skips_the_seed_title_and_stops_at_count() {
    let p = ListParams {
        count: Some(2),
        filtergenre: None,
        filterxmas: None,
        min: None,
        max: None,
        maxbpmdiff: Some(5),
        track: "1.mp3".to_string(),
        genregroups: Vec::new(),
        byartist: 0,
    };
    let s = ListSettings::from_params(&p, 1);
    let seed = track(1, "seed", "a", "b", 120);
    let mut l = Lister::new(s, &Vec::new(), &seed);
    assert_eq!(l.consider(&seed), Verdict::RepeatTitle);
    assert_eq!(l.consider(&track(2, "two", "a", "b", 100)), Verdict::Bpm);
    assert_eq!(l.consider(&track(3, "three", "a", "b", 121)), Verdict::Accepted);
    assert!(l.wants_more());
    assert_eq!(l.consider(&track(4, "THREE", "a", "b", 121)), Verdict::RepeatTitle);
    assert_eq!(l.consider(&track(5, "five", "a", "b", 0)), Verdict::Accepted);
    assert!(!l.wants_more());
    // Even when handed more, the list holds at most `count` files.
    assert_eq!(l.consider(&track(6, "six", "a", "b", 0)), Verdict::Accepted);
    assert_eq!(l.finish(), vec!["3.mp3", "5.mp3"]);
}

#[test]
fn shuffle_never_repeats_a_drawn_alternate() {
    // One chosen track whose artist has an alternate among the filtered
    // tracks: the draw may take the alternate, and the top-up must not add
    // it a second time.
    let s = settings(|p| {
        p.count = Some(5);
        p.shuffle = Some(1);
        p.norepart = Some(1);
    });
    for _ in 0..40 {
        let mut m = Mixer::new(s, &Vec::new(), &Vec::new(), &Vec::new(), false);
        m.begin_seed(0);
        assert_eq!(offer(&mut m, &track(1, "t1", "same", "b1", 0), 100), Verdict::Accepted);
        assert_eq!(offer(&mut m, &track(2, "t2", "same", "b2", 0), 50), Verdict::RepeatArtist);
        let mut out = m.finish();
        out.sort();
        if out.len() == 2 {
            assert_eq!(out, vec!["1.mp3", "2.mp3"]);
        } else {
            // The alternate was drawn into the slot and is not added again.
            assert_eq!(out, vec!["2.mp3"]);
        }
    }
}

fn run_mix(shuffle: bool) -> Vec<String> {
    let s = settings(|p| {
        p.count = Some(4);
        p.norepart = Some(1);
        p.shuffle = if shuffle { Some(1) } else { None };
    });
    let mut m = Mixer::new(s, &Vec::new(), &Vec::new(), &Vec::new(), false);
    m.begin_seed(0);
    for id in 1..=30u64 {
        let artist = format!("a{}", id % 7);
        let t = track(id, &format!("t{}", id), &artist, &format!("b{}", id), 0);
        offer(&mut m, &t, (id * 37) % 11);
    }
    m.finish()
}

#[test]
fn same_request_same_result_without_shuffle() {
    let a = run_mix(false);
    assert_eq!(a, run_mix(false));
    assert_eq!(a.len(), 4);
    let mut d = a.clone();
    d.sort();
    d.dedup();
    assert_eq!(d.len(), 4);
}

#[test]
fn shuffle_changes_the_order() {
    let s = settings(|p| {
        p.count = Some(5);
        p.shuffle = Some(1);
    });
    let mut differs = false;
    for _ in 0..20 {
        let mut m = Mixer::new(s, &Vec::new(), &Vec::new(), &Vec::new(), false);
        m.begin_seed(0);
        for id in 1..=25u64 {
            let t = track(id, &format!("t{}", id), &format!("a{}", id), &format!("b{}", id), 0);
            assert_eq!(offer(&mut m, &t, id), Verdict::Accepted);
        }
        let out = m.finish();
        assert_eq!(out.len(), 5);
        if out != vec!["1.mp3", "2.mp3", "3.mp3", "4.mp3", "5.mp3"] {
            differs = true;
        }
    }
    assert!(differs);
}

#[test]
fn shuffle_may_draw_an_alternate_for_an_artist() {
    let s = settings(|p| {
        p.count = Some(1);
        p.shuffle = Some(1);
        p.norepart = Some(1);
    });
    let mut drew_alternate = false;
    for _ in 0..60 {
        let mut m = Mixer::new(s, &Vec::new(), &Vec::new(), &Vec::new(), false);
        m.begin_seed(0);
        assert_eq!(offer(&mut m, &track(1, "t1", "same", "b1", 0), 100), Verdict::Accepted);
        // Within 0.01 of the first score: an alternate.
        assert_eq!(offer(&mut m, &track(2, "t2", "same", "b2", 0), 100 + SCORE_UNIT / 200), Verdict::RepeatArtist);
        // Too far: not an alternate.
        assert_eq!(offer(&mut m, &track(3, "t3", "same", "b3", 0), 100 + SCORE_UNIT / 50), Verdict::RepeatArtist);
        let out = m.finish();
        assert_eq!(out.len(), 1);
        assert!(out[0] == "1.mp3" || out[0] == "2.mp3");
        if out[0] == "2.mp3" {
            drew_alternate = true;
        }
    }
    assert!(drew_alternate);
}

#[test]
fn negative_tempo_is_held_to_the_window() {
    let s = settings(|p| p.maxbpmdiff = Some(5));
    let mut m = Mixer::new(s, &Vec::new(), &Vec::new(), &Vec::new(), false);
    m.begin_seed(120);
    assert_eq!(offer(&mut m, &track(1, "a", "a", "a", -50), 1), Verdict::Bpm);
    m.begin_seed(-50);
    assert_eq!(offer(&mut m, &track(2, "b", "b", "b", -52), 1), Verdict::Accepted);
    assert_eq!(offer(&mut m, &track(3, "c", "c", "c", 120), 1), Verdict::Bpm);

    let p = ListParams {
        count: Some(5),
        filtergenre: None,
        filterxmas: None,
        min: None,
        max: None,
        maxbpmdiff: Some(5),
        track: "1.mp3".to_string(),
        genregroups: Vec::new(),
        byartist: 0,
    };
    let seed = track(10, "seed", "a", "b", 120);
    let mut l = Lister::new(ListSettings::from_params(&p, 1), &Vec::new(), &seed);
    assert_eq!(l.consider(&track(11, "neg", "a", "b", -50)), Verdict::Bpm);
}

#[test]
fn forest_band_rejects_negative_tempo() {
    let s = settings(|p| {
        p.maxbpmdiff = Some(5);
        p.count = Some(2);
        p.forest = Some(1);
    });
    let seeds: Vec<Track> = [100i16, 110, 120, 105, 115]
        .iter()
        .enumerate()
        .map(|(i, b)| track(100 + i as u64, &format!("s{}", i), &format!("sa{}", i), &format!("sb{}", i), *b))
        .collect();
    let mut m = Mixer::new(s, &Vec::new(), &Vec::new(), &seeds, true);
    assert_eq!(offer(&mut m, &track(1, "a", "a", "a", -50), 7), Verdict::Bpm);
    // Seeds never come out as candidates.
    assert_eq!(offer(&mut m, &seeds[0].clone_track(), 7), Verdict::Seen);
}
