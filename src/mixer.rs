//! The mix engine: the exclusion state of one request, the filter chain that
//! each candidate goes through, and the final ordering of the chosen tracks.
//!
//! The caller resolves the previous tracks and the seeds, builds a `Mixer`,
//! then hands it the candidates that the index (or the anomaly ranking)
//! yields, in order, and finally asks for the list.

use vstd::prelude::*;
use std::collections::HashSet;
use crate::genres::{
    all_group_genres, filter_genre, genre_rejects, get_genres, grouped_genres, matched_genres,
};
use crate::params::{settings_valid, tracks_per_seed, tracks_per_seed_spec, MixSettings};
use crate::chance::{pick_one, shuffle};
use crate::ordering::{entries_within, has_id, ids_distinct, sort_by_score, sort_entries};
use crate::text::{contains_str, distinct, extend_strs, insert_str, str_set};
use crate::track::Track;

verus! {

broadcast use {vstd::std_specs::hash::group_hash_axioms, vstd::seq_lib::group_to_multiset_ensures};

/// A candidate's score in billionths: the squared distance to the seed in
/// the weighted feature space. Smaller is closer.
pub const SCORE_UNIT: u64 = 1_000_000_000;

/// The score that every track chosen from the anomaly ranking gets, so that
/// the final sort keeps the ranking's order.
pub const FOREST_SCORE: u64 = 1_000_000_000;

/// Two tracks of one artist are alternates when their scores differ by less
/// than this (0.01 squared-distance units).
pub const ALTERNATE_SCORE_DIFF: u64 = 10_000_000;

/// Alternates kept per artist at most.
pub const MAX_ARTIST_TRACKS: usize = 5;

/// Initial low end of the seeds' BPM band, above any real tempo.
pub const BPM_BAND_START: i16 = 500;

/// A track that passed, or nearly passed, the filters.
pub struct Entry {
    pub id: u64,
    pub file: String,
    pub score: u64,
    pub artist: String,
    pub album: String,
}

/// What became of a candidate.
#[derive(PartialEq, Eq, Structural, Clone, Copy, Debug)]
pub enum Verdict {
    /// Its id was seen before: a seed, a previous track or a candidate.
    Seen,
    /// Too short or too long.
    Duration,
    /// Tempo too far from the seeds'.
    Bpm,
    /// Turned away by the genre filter.
    Genre,
    /// A holiday track while the holiday filter is on.
    Christmas,
    /// Its album has a chosen track already.
    Album,
    /// Its artist is not to be repeated; kept as a fallback.
    RepeatArtist,
    /// Its album is not to be repeated; kept as a fallback.
    RepeatAlbum,
    /// Its title was seen before; kept as a fallback.
    RepeatTitle,
    /// Chosen.
    Accepted,
}

/// The tracks of one artist that are close in score, from which one is drawn
/// for the artist's slot when shuffling.
pub struct Alternates {
    pub artist: String,
    /// The slot of the artist's chosen track.
    pub pos: usize,
    /// The chosen track first, then its alternates.
    pub tracks: Vec<Entry>,
}

/// The model of an `Alternates`.
pub struct AltModel {
    pub artist: Seq<char>,
    pub pos: int,
    pub tracks: Seq<Entry>,
}

impl View for Alternates {
    type V = AltModel;

    open spec fn view(&self) -> AltModel {
        AltModel { artist: self.artist@, pos: self.pos as int, tracks: self.tracks@ }
    }
}

/// The model of a `Mixer`.
pub struct MixerModel {
    pub settings: MixSettings,
    /// Candidates come from the anomaly ranking rather than the index.
    pub forest: bool,
    /// The genres of the groups that the seeds (and previous tracks) match.
    pub acceptable: Set<Seq<char>>,
    /// Every genre of every group.
    pub grouped: Set<Seq<char>>,
    /// Ids never to be considered again.
    pub ids: Set<u64>,
    pub titles: Set<Seq<char>>,
    pub artists: Set<Seq<char>>,
    pub albums: Set<Seq<char>>,
    /// Albums of the chosen tracks.
    pub chosen_albums: Set<Seq<char>>,
    /// Artists of the previous tracks inside the artist window.
    pub protected_artists: Set<Seq<char>>,
    /// Ids of the seeds and previous tracks.
    pub excluded: Set<u64>,
    pub min_bpm: int,
    pub max_bpm: int,
    /// BPM of the seed whose neighbours are being considered.
    pub seed_bpm: int,
    pub accepted_for_seed: int,
    pub chosen: Seq<Entry>,
    pub filtered: Seq<Entry>,
    pub alternates: Seq<AltModel>,
}

/// The selection state of one mix request.
pub struct Mixer {
    settings: MixSettings,
    forest: bool,
    tracks_per_seed: usize,
    acceptable: Vec<String>,
    grouped: Vec<String>,
    ids: HashSet<u64>,
    titles: Vec<String>,
    artists: Vec<String>,
    albums: Vec<String>,
    chosen_albums: Vec<String>,
    protected_artists: Ghost<Set<Seq<char>>>,
    excluded: Ghost<Set<u64>>,
    min_bpm: i16,
    max_bpm: i16,
    seed_bpm: i16,
    accepted_for_seed: usize,
    chosen: Vec<Entry>,
    filtered: Vec<Entry>,
    alternates: Vec<Alternates>,
}

impl View for Mixer {
    type V = MixerModel;

    closed spec fn view(&self) -> MixerModel {
        MixerModel {
            settings: self.settings,
            forest: self.forest,
            acceptable: str_set(self.acceptable@),
            grouped: str_set(self.grouped@),
            ids: self.ids@,
            titles: str_set(self.titles@),
            artists: str_set(self.artists@),
            albums: str_set(self.albums@),
            chosen_albums: str_set(self.chosen_albums@),
            protected_artists: self.protected_artists@,
            excluded: self.excluded@,
            min_bpm: self.min_bpm as int,
            max_bpm: self.max_bpm as int,
            seed_bpm: self.seed_bpm as int,
            accepted_for_seed: self.accepted_for_seed as int,
            chosen: self.chosen@,
            filtered: self.filtered@,
            alternates: alt_views(self.alternates@),
        }
    }
}

// ---------------------------------------------------------------------------
// What the setup makes of the previous tracks and the seeds.

/// Ids of a list of tracks.
pub open spec fn ids_of(s: Seq<Track>) -> Set<u64>
    decreases s.len(),
{
    if s.len() == 0 {
        Set::empty()
    } else {
        ids_of(s.drop_last()).insert(s.last().id)
    }
}

/// The non-empty titles of a list of tracks.
pub open spec fn titles_of(s: Seq<Track>) -> Set<Seq<char>>
    decreases s.len(),
{
    if s.len() == 0 {
        Set::empty()
    } else if s.last().title@.len() > 0 {
        titles_of(s.drop_last()).insert(s.last().title@)
    } else {
        titles_of(s.drop_last())
    }
}

/// The non-empty artists of the first `window` tracks.
pub open spec fn recent_artists(s: Seq<Track>, window: int) -> Set<Seq<char>>
    decreases s.len(),
{
    if s.len() == 0 {
        Set::empty()
    } else if s.len() - 1 < window && s.last().artist@.len() > 0 {
        recent_artists(s.drop_last(), window).insert(s.last().artist@)
    } else {
        recent_artists(s.drop_last(), window)
    }
}

/// The non-empty album keys of the first `window` tracks.
pub open spec fn recent_albums(s: Seq<Track>, window: int) -> Set<Seq<char>>
    decreases s.len(),
{
    if s.len() == 0 {
        Set::empty()
    } else if s.len() - 1 < window && s.last().album@.len() > 0 {
        recent_albums(s.drop_last(), window).insert(s.last().album@)
    } else {
        recent_albums(s.drop_last(), window)
    }
}

/// The genres of the groups matched by the previous tracks that have genres.
pub open spec fn previous_acceptable(groups: Seq<Vec<String>>, s: Seq<Track>) -> Set<Seq<char>>
    decreases s.len(),
{
    if s.len() == 0 {
        Set::empty()
    } else if s.last().genres@.len() > 0 {
        previous_acceptable(groups, s.drop_last()).union(
            matched_genres(groups, str_set(s.last().genres@)),
        )
    } else {
        previous_acceptable(groups, s.drop_last())
    }
}

/// The genres of the groups matched by the seeds.
pub open spec fn seed_acceptable(groups: Seq<Vec<String>>, s: Seq<Track>) -> Set<Seq<char>>
    decreases s.len(),
{
    if s.len() == 0 {
        Set::empty()
    } else {
        seed_acceptable(groups, s.drop_last()).union(
            matched_genres(groups, str_set(s.last().genres@)),
        )
    }
}

/// The lowest seed BPM, starting from 500.
pub open spec fn min_bpm_of(s: Seq<Track>) -> int
    decreases s.len(),
{
    if s.len() == 0 {
        BPM_BAND_START as int
    } else if (s.last().bpm as int) < min_bpm_of(s.drop_last()) {
        s.last().bpm as int
    } else {
        min_bpm_of(s.drop_last())
    }
}

/// The highest seed BPM, starting from 0.
pub open spec fn max_bpm_of(s: Seq<Track>) -> int
    decreases s.len(),
{
    if s.len() == 0 {
        0
    } else if (s.last().bpm as int) > max_bpm_of(s.drop_last()) {
        s.last().bpm as int
    } else {
        max_bpm_of(s.drop_last())
    }
}

/// The state right after the setup.
pub open spec fn initial_model(
    settings: MixSettings,
    groups: Seq<Vec<String>>,
    previous: Seq<Track>,
    seeds: Seq<Track>,
    forest: bool,
) -> MixerModel {
    MixerModel {
        settings,
        forest,
        acceptable: if settings.filter_genre {
            previous_acceptable(groups, previous).union(seed_acceptable(groups, seeds))
        } else {
            Set::empty()
        },
        grouped: grouped_genres(groups),
        ids: ids_of(previous).union(ids_of(seeds)),
        titles: titles_of(previous).union(titles_of(seeds)),
        artists: recent_artists(previous, settings.no_repeat_artist as int),
        albums: recent_albums(previous, settings.no_repeat_album as int),
        chosen_albums: Set::empty(),
        protected_artists: recent_artists(previous, settings.no_repeat_artist as int),
        excluded: ids_of(previous).union(ids_of(seeds)),
        min_bpm: min_bpm_of(seeds),
        max_bpm: max_bpm_of(seeds),
        seed_bpm: 0,
        accepted_for_seed: 0,
        chosen: Seq::empty(),
        filtered: Seq::empty(),
        alternates: Seq::empty(),
    }
}

// ---------------------------------------------------------------------------
// Invariants.

/// The ids of a list of entries.
pub open spec fn entry_ids(s: Seq<Entry>) -> Seq<u64> {
    s.map_values(|e: Entry| e.id)
}

/// What holds of every state of a mix: chosen tracks have distinct ids,
/// distinct albums, and (with an artist window) distinct artists, none of a
/// protected previous track; no candidate id is kept twice.
pub open spec fn model_wf(m: MixerModel) -> bool {
    &&& settings_valid(m.settings)
    &&& (entry_ids(m.chosen) + entry_ids(m.filtered)).no_duplicates()
    &&& forall|k: int| 0 <= k < m.chosen.len() ==> m.ids.contains(#[trigger] m.chosen[k].id)
    &&& forall|k: int| 0 <= k < m.filtered.len() ==> m.ids.contains(#[trigger] m.filtered[k].id)
    &&& m.excluded.subset_of(m.ids)
    &&& forall|k: int| 0 <= k < m.chosen.len() ==> !m.excluded.contains(#[trigger] m.chosen[k].id)
    &&& forall|k: int|
        0 <= k < m.filtered.len() ==> !m.excluded.contains(#[trigger] m.filtered[k].id)
    &&& forall|k: int, l: int|
        0 <= k < l < m.chosen.len() ==> m.chosen[k].album@ != m.chosen[l].album@
    &&& forall|k: int|
        0 <= k < m.chosen.len() ==> m.chosen_albums.contains(#[trigger] m.chosen[k].album@)
    &&& m.settings.no_repeat_artist > 0 ==> {
        &&& m.protected_artists.subset_of(m.artists)
        &&& forall|k: int, l: int|
            0 <= k < l < m.chosen.len() ==> m.chosen[k].artist@ != m.chosen[l].artist@
        &&& forall|k: int|
            0 <= k < m.chosen.len() ==> m.artists.contains(#[trigger] m.chosen[k].artist@)
        &&& forall|k: int|
            0 <= k < m.chosen.len() ==> !m.protected_artists.contains(#[trigger] m.chosen[k].artist@)
    }
    &&& (m.forest || !m.settings.shuffle) ==> m.alternates.len() == 0
    &&& forall|k: int, l: int|
        0 <= k < l < m.alternates.len() ==> m.alternates[k].artist != m.alternates[l].artist
    &&& forall|k: int|
        0 <= k < m.alternates.len() ==> 0 <= #[trigger] m.alternates[k].pos < m.chosen.len()
            && m.alternates[k].tracks.len() >= 1
            && m.chosen[m.alternates[k].pos].artist@ == m.alternates[k].artist
            && forall|j: int|
            0 <= j < m.alternates[k].tracks.len() ==> (#[trigger] m.alternates[k].tracks[j]).artist@
                == m.alternates[k].artist && (m.alternates[k].tracks[j].id == m.chosen[m.alternates[
                k].pos].id || m.filtered.contains(m.alternates[k].tracks[j]))
    &&& 0 <= m.accepted_for_seed <= m.chosen.len()
}

impl Mixer {
    /// The state is well formed.
    pub closed spec fn wf(&self) -> bool {
        &&& model_wf(self@)
        &&& self.tracks_per_seed == tracks_per_seed_spec(self.settings.similarity_count as int)
        &&& distinct(self.acceptable@)
        &&& distinct(self.grouped@)
        &&& distinct(self.titles@)
        &&& distinct(self.artists@)
        &&& distinct(self.albums@)
        &&& distinct(self.chosen_albums@)
    }

    /// Sets up a request: `previous` are the resolved previous tracks, most
    /// recent first; `seeds` the resolved seeds, in request order; `groups`
    /// the resolved genre groups; `forest` whether the anomaly ranking
    /// supplies the candidates.
    pub fn new(
        settings: MixSettings,
        groups: &Vec<Vec<String>>,
        previous: &Vec<Track>,
        seeds: &Vec<Track>,
        forest: bool,
    ) -> (r: Mixer)
        requires
            settings_valid(settings),
        ensures
            r.wf(),
            r@ == initial_model(settings, groups@, previous@, seeds@, forest),
    {
        let mut m = Mixer {
            settings,
            forest,
            tracks_per_seed: tracks_per_seed(settings.similarity_count),
            acceptable: Vec::new(),
            grouped: all_group_genres(groups),
            ids: HashSet::new(),
            titles: Vec::new(),
            artists: Vec::new(),
            albums: Vec::new(),
            chosen_albums: Vec::new(),
            protected_artists: Ghost(Set::empty()),
            excluded: Ghost(Set::empty()),
            min_bpm: BPM_BAND_START,
            max_bpm: 0,
            seed_bpm: 0,
            accepted_for_seed: 0,
            chosen: Vec::new(),
            filtered: Vec::new(),
            alternates: Vec::new(),
        };
        proof {
            assert(str_set(m.acceptable@) =~= Set::empty());
            assert(str_set(m.titles@) =~= Set::empty());
            assert(str_set(m.artists@) =~= Set::empty());
            assert(str_set(m.albums@) =~= Set::empty());
            assert(str_set(m.chosen_albums@) =~= Set::empty());
            assert(alt_views(m.alternates@) =~= Seq::<AltModel>::empty());
            assert(previous@.subrange(0, 0) =~= Seq::<Track>::empty());
            assert(entry_ids(m.chosen@) + entry_ids(m.filtered@) =~= Seq::<u64>::empty());
        }
        let mut i: usize = 0;
        while i < previous.len()
            invariant
                i <= previous@.len(),
                m.settings == settings,
                m.forest == forest,
                m.tracks_per_seed == tracks_per_seed_spec(settings.similarity_count as int),
                str_set(m.grouped@) == grouped_genres(groups@),
                distinct(m.acceptable@),
                distinct(m.grouped@),
                distinct(m.titles@),
                distinct(m.artists@),
                distinct(m.albums@),
                m.chosen_albums@.len() == 0,
                m.min_bpm == BPM_BAND_START,
                m.max_bpm == 0,
                m.seed_bpm == 0,
                m.accepted_for_seed == 0,
                m.chosen@.len() == 0,
                m.filtered@.len() == 0,
                m.alternates@.len() == 0,
                m.ids@ == ids_of(previous@.subrange(0, i as int)),
                str_set(m.titles@) == titles_of(previous@.subrange(0, i as int)),
                str_set(m.artists@) == recent_artists(
                    previous@.subrange(0, i as int),
                    settings.no_repeat_artist as int,
                ),
                m.protected_artists@ == str_set(m.artists@),
                str_set(m.albums@) == recent_albums(
                    previous@.subrange(0, i as int),
                    settings.no_repeat_album as int,
                ),
                str_set(m.acceptable@) == if settings.filter_genre {
                    previous_acceptable(groups@, previous@.subrange(0, i as int))
                } else {
                    Set::empty()
                },
            decreases previous@.len() - i,
        {
            let t = &previous[i];
            proof {
                let s1 = previous@.subrange(0, i as int + 1);
                assert(s1.drop_last() =~= previous@.subrange(0, i as int));
                assert(s1.last() == previous@[i as int]);
            }
            m.ids.insert(t.id);
            if !t.title.as_str().is_empty() {
                insert_str(&mut m.titles, t.title.clone());
            }
            if (i as u64) < (settings.no_repeat_artist as u64) && !t.artist.as_str().is_empty() {
                insert_str(&mut m.artists, t.artist.clone());
            }
            m.protected_artists = Ghost(str_set(m.artists@));
            if (i as u64) < (settings.no_repeat_album as u64) && !t.album.as_str().is_empty() {
                insert_str(&mut m.albums, t.album.clone());
            }
            if settings.filter_genre && t.genres.len() > 0 {
                let genres = get_genres(groups, &t.genres);
                extend_strs(&mut m.acceptable, &genres);
            }
            i = i + 1;
        }
        proof {
            assert(previous@.subrange(0, previous@.len() as int) =~= previous@);
            assert(seeds@.subrange(0, 0) =~= Seq::<Track>::empty());
            assert(m.ids@ =~= ids_of(previous@).union(ids_of(seeds@.subrange(0, 0))));
            assert(str_set(m.titles@) =~= titles_of(previous@).union(titles_of(seeds@.subrange(0, 0))));
            assert(str_set(m.acceptable@) =~= if settings.filter_genre {
                previous_acceptable(groups@, previous@).union(seed_acceptable(groups@, seeds@.subrange(0, 0)))
            } else {
                Set::empty()
            });
        }
        let mut j: usize = 0;
        while j < seeds.len()
            invariant
                j <= seeds@.len(),
                m.settings == settings,
                m.forest == forest,
                m.tracks_per_seed == tracks_per_seed_spec(settings.similarity_count as int),
                str_set(m.grouped@) == grouped_genres(groups@),
                distinct(m.acceptable@),
                distinct(m.grouped@),
                distinct(m.titles@),
                distinct(m.artists@),
                distinct(m.albums@),
                m.chosen_albums@.len() == 0,
                m.seed_bpm == 0,
                m.accepted_for_seed == 0,
                m.chosen@.len() == 0,
                m.filtered@.len() == 0,
                m.alternates@.len() == 0,
                m.min_bpm == min_bpm_of(seeds@.subrange(0, j as int)),
                m.max_bpm == max_bpm_of(seeds@.subrange(0, j as int)),
                m.ids@ == ids_of(previous@).union(ids_of(seeds@.subrange(0, j as int))),
                str_set(m.titles@) == titles_of(previous@).union(titles_of(seeds@.subrange(0, j as int))),
                str_set(m.artists@) == recent_artists(previous@, settings.no_repeat_artist as int),
                m.protected_artists@ == str_set(m.artists@),
                str_set(m.albums@) == recent_albums(previous@, settings.no_repeat_album as int),
                str_set(m.acceptable@) == if settings.filter_genre {
                    previous_acceptable(groups@, previous@).union(seed_acceptable(groups@, seeds@.subrange(0, j as int)))
                } else {
                    Set::empty()
                },
            decreases seeds@.len() - j,
        {
            let t = &seeds[j];
            proof {
                let s1 = seeds@.subrange(0, j as int + 1);
                assert(s1.drop_last() =~= seeds@.subrange(0, j as int));
                assert(s1.last() == seeds@[j as int]);
            }
            if settings.filter_genre {
                let genres = get_genres(groups, &t.genres);
                extend_strs(&mut m.acceptable, &genres);
            }
            m.ids.insert(t.id);
            if !t.title.as_str().is_empty() {
                insert_str(&mut m.titles, t.title.clone());
            }
            if t.bpm > m.max_bpm {
                m.max_bpm = t.bpm;
            }
            if t.bpm < m.min_bpm {
                m.min_bpm = t.bpm;
            }
            proof {
                assert(m.ids@ =~= ids_of(previous@).union(ids_of(seeds@.subrange(0, j as int + 1))));
                assert(str_set(m.titles@) =~= titles_of(previous@).union(titles_of(seeds@.subrange(0, j as int + 1))));
                if settings.filter_genre {
                    assert(str_set(m.acceptable@) =~= previous_acceptable(groups@, previous@).union(seed_acceptable(groups@, seeds@.subrange(0, j as int + 1))));
                }
            }
            j = j + 1;
        }
        m.excluded = Ghost(m.ids@);
        proof {
            assert(seeds@.subrange(0, seeds@.len() as int) =~= seeds@);
            assert(m@.alternates =~= Seq::<AltModel>::empty());
            assert(m@.chosen_albums =~= Set::empty()) by {
                assert(m.chosen_albums@ =~= Seq::<String>::empty());
            }
            assert(entry_ids(m.chosen@) + entry_ids(m.filtered@) =~= Seq::<u64>::empty());
            assert(m.chosen@ =~= Seq::<Entry>::empty());
            assert(m.filtered@ =~= Seq::<Entry>::empty());
            assert(m@ == initial_model(settings, groups@, previous@, seeds@, forest));
        }
        m
    }
}

// ---------------------------------------------------------------------------
// The filter chain.

/// Outside the duration bounds (0 meaning no bound).
pub open spec fn duration_fails(s: MixSettings, duration: u32) -> bool {
    (s.min_duration > 0 && duration < s.min_duration) || (s.max_duration > 0 && duration
        > s.max_duration)
}

/// Tempo too far off: from the current seed's, or in forest mode from the
/// band of all seeds' tempos widened on both sides. Only applies when the
/// allowed difference is positive and both tempos are known (nonzero).
pub open spec fn bpm_fails(m: MixerModel, bpm: i16) -> bool {
    let diff = m.settings.max_bpm_diff as int;
    let b = bpm as int;
    if m.forest {
        diff > 0 && m.min_bpm != 0 && m.max_bpm != 0 && b != 0 && (b < m.min_bpm - diff || b
            > m.max_bpm + diff)
    } else {
        diff > 0 && b != 0 && m.seed_bpm != 0 && (b - m.seed_bpm > diff || m.seed_bpm - b > diff)
    }
}

/// The tag of holiday tracks.
pub open spec fn christmas() -> Seq<char> {
    "christmas"@
}

/// The first rule of the chain that a candidate fails, or `Accepted`.
pub open spec fn verdict(m: MixerModel, t: Track) -> Verdict {
    if m.ids.contains(t.id) {
        Verdict::Seen
    } else if duration_fails(m.settings, t.duration) {
        Verdict::Duration
    } else if bpm_fails(m, t.bpm) {
        Verdict::Bpm
    } else if m.settings.filter_genre && genre_rejects(
        str_set(t.genres@),
        m.acceptable,
        m.grouped,
    ) {
        Verdict::Genre
    } else if m.settings.filter_xmas && str_set(t.genres@).contains(christmas()) {
        Verdict::Christmas
    } else if m.chosen_albums.contains(t.album@) {
        Verdict::Album
    } else if m.settings.no_repeat_artist > 0 && m.artists.contains(t.artist@) {
        Verdict::RepeatArtist
    } else if !t.is_various && m.settings.no_repeat_album > 0 && m.albums.contains(t.album@) {
        Verdict::RepeatAlbum
    } else if m.titles.contains(t.title@) {
        Verdict::RepeatTitle
    } else {
        Verdict::Accepted
    }
}

/// The entry that a candidate with `score` becomes.
pub open spec fn entry_of(t: Track, score: u64) -> Entry {
    Entry { id: t.id, file: t.file, score, artist: t.artist, album: t.album }
}

/// The score kept for a candidate: its own, or in forest mode the one
/// shared score.
pub open spec fn kept_score(m: MixerModel, score: u64) -> u64 {
    if m.forest {
        FOREST_SCORE
    } else {
        score
    }
}

/// A chosen track met again under another seed keeps the smaller score.
pub open spec fn merge_seen(chosen: Seq<Entry>, id: u64, score: u64) -> Seq<Entry> {
    chosen.map_values(
        |e: Entry|
            if e.id == id && e.score > score {
                Entry { score, ..e }
            } else {
                e
            },
    )
}

/// Whether two scores differ by less than `ALTERNATE_SCORE_DIFF`.
pub open spec fn close_scores(a: u64, b: u64) -> bool {
    (a as int - b as int) < ALTERNATE_SCORE_DIFF as int && (b as int - a as int)
        < ALTERNATE_SCORE_DIFF as int
}

/// A track of an artist already chosen joins that artist's alternates when
/// they are fewer than five and its score is close to the chosen track's.
pub open spec fn add_alternate(alts: Seq<AltModel>, artist: Seq<char>, e: Entry) -> Seq<AltModel> {
    alts.map_values(
        |a: AltModel|
            if a.artist == artist && a.tracks.len() < MAX_ARTIST_TRACKS && close_scores(
                a.tracks[0].score,
                e.score,
            ) {
                AltModel { tracks: a.tracks.push(e), ..a }
            } else {
                a
            },
    )
}

/// A chosen track starts the alternates of its artist, replacing any.
pub open spec fn register_alternate(alts: Seq<AltModel>, artist: Seq<char>, pos: int, e: Entry) -> Seq<
    AltModel,
> {
    let fresh = AltModel { artist, pos, tracks: seq![e] };
    if exists|k: int| 0 <= k < alts.len() && #[trigger] alts[k].artist == artist {
        alts.map_values(
            |a: AltModel|
                if a.artist == artist {
                    fresh
                } else {
                    a
                },
        )
    } else {
        alts.push(fresh)
    }
}

/// The state after a candidate whose id was seen before.
pub open spec fn after_seen(m: MixerModel, id: u64, score: u64) -> MixerModel {
    if m.forest {
        m
    } else {
        MixerModel { chosen: merge_seen(m.chosen, id, score), ..m }
    }
}

/// The state after a candidate `t` with `score`.
pub open spec fn after(m: MixerModel, t: Track, score: u64) -> MixerModel {
    let e = entry_of(t, kept_score(m, score));
    let m1 = MixerModel { ids: m.ids.insert(t.id), ..m };
    match verdict(m, t) {
        Verdict::Seen => after_seen(m, t.id, score),
        Verdict::RepeatArtist => MixerModel {
            filtered: m.filtered.push(e),
            alternates: if !m.forest && m.settings.shuffle {
                add_alternate(m.alternates, t.artist@, e)
            } else {
                m.alternates
            },
            ..m1
        },
        Verdict::RepeatAlbum => MixerModel { filtered: m.filtered.push(e), ..m1 },
        Verdict::RepeatTitle => MixerModel { filtered: m.filtered.push(e), ..m1 },
        Verdict::Accepted => MixerModel {
            titles: m.titles.insert(t.title@),
            artists: if m.settings.no_repeat_artist > 0 {
                m.artists.insert(t.artist@)
            } else {
                m.artists
            },
            albums: if m.settings.no_repeat_album > 0 {
                m.albums.insert(t.album@)
            } else {
                m.albums
            },
            chosen_albums: m.chosen_albums.insert(t.album@),
            chosen: m.chosen.push(e),
            alternates: if !m.forest && m.settings.shuffle {
                register_alternate(m.alternates, t.artist@, m.chosen.len() as int, e)
            } else {
                m.alternates
            },
            accepted_for_seed: m.accepted_for_seed + 1,
            ..m1
        },
        _ => m1,
    }
}

/// Whether the current seed (or, in forest mode, the request) wants more
/// candidates.
pub open spec fn wants_more_spec(m: MixerModel) -> bool {
    if m.forest {
        m.chosen.len() < m.settings.similarity_count
    } else {
        m.accepted_for_seed < tracks_per_seed_spec(m.settings.similarity_count as int)
    }
}

pub(crate) fn copy_entry(e: &Entry) -> (r: Entry)
    ensures
        r == *e,
{
    Entry {
        id: e.id,
        file: e.file.clone(),
        score: e.score,
        artist: e.artist.clone(),
        album: e.album.clone(),
    }
}

fn make_entry(t: &Track, score: u64) -> (r: Entry)
    ensures
        r == entry_of(*t, score),
{
    Entry {
        id: t.id,
        file: t.file.clone(),
        score,
        artist: t.artist.clone(),
        album: t.album.clone(),
    }
}

fn scores_close(a: u64, b: u64) -> (r: bool)
    ensures
        r == close_scores(a, b),
{
    if a >= b {
        a - b < ALTERNATE_SCORE_DIFF
    } else {
        b - a < ALTERNATE_SCORE_DIFF
    }
}

proof fn lemma_ids_push(a: Seq<Entry>, b: Seq<Entry>, e: Entry, ids: Set<u64>)
    requires
        (entry_ids(a) + entry_ids(b)).no_duplicates(),
        forall|k: int| 0 <= k < a.len() ==> ids.contains(#[trigger] a[k].id),
        forall|k: int| 0 <= k < b.len() ==> ids.contains(#[trigger] b[k].id),
        !ids.contains(e.id),
    ensures
        (entry_ids(a.push(e)) + entry_ids(b)).no_duplicates(),
        (entry_ids(a) + entry_ids(b.push(e))).no_duplicates(),
{
    let s0 = entry_ids(a) + entry_ids(b);
    let s1 = entry_ids(a.push(e)) + entry_ids(b);
    let s2 = entry_ids(a) + entry_ids(b.push(e));
    assert forall|k: int| 0 <= k < s0.len() implies ids.contains(#[trigger] s0[k]) by {
        if k < a.len() {
            assert(s0[k] == a[k].id);
        } else {
            assert(s0[k] == b[k - a.len()].id);
        }
    }
    assert forall|k: int, l: int| 0 <= k < s1.len() && 0 <= l < s1.len() && k != l implies #[trigger] s1[k] != #[trigger] s1[l] by {
        let al = a.len() as int;
        let f = |x: int| if x < al { x } else if x == al { -1 } else { x - 1 };
        if k != al && l != al {
            assert(s1[k] == s0[f(k)]);
            assert(s1[l] == s0[f(l)]);
        } else if k == al {
            assert(s1[k] == e.id);
            assert(s1[l] == s0[f(l)]);
        } else {
            assert(s1[l] == e.id);
            assert(s1[k] == s0[f(k)]);
        }
    }
    assert forall|k: int, l: int| 0 <= k < s2.len() && 0 <= l < s2.len() && k != l implies #[trigger] s2[k] != #[trigger] s2[l] by {
        let n = s0.len() as int;
        if k != n && l != n {
            assert(s2[k] == s0[k]);
            assert(s2[l] == s0[l]);
        } else if k == n {
            assert(s2[k] == e.id);
            assert(s2[l] == s0[l]);
        } else {
            assert(s2[l] == e.id);
            assert(s2[k] == s0[k]);
        }
    }
}

impl Mixer {
    /// The model of the state is well formed.
    pub proof fn lemma_wf(&self)
        requires
            self.wf(),
        ensures
            model_wf(self@),
    {
    }

    /// Whether more candidates are wanted from the current seed (or, in
    /// forest mode, at all).
    pub fn wants_more(&self) -> (r: bool)
        requires
            self.wf(),
        ensures
            r == wants_more_spec(self@),
    {
        if self.forest {
            self.chosen.len() < self.settings.similarity_count
        } else {
            self.accepted_for_seed < self.tracks_per_seed
        }
    }

    /// Starts on the neighbours of a seed with tempo `bpm`.
    pub fn begin_seed(&mut self, bpm: i16)
        requires
            old(self).wf(),
        ensures
            final(self).wf(),
            final(self)@ == (MixerModel { seed_bpm: bpm as int, accepted_for_seed: 0, ..old(self)@ }),
    {
        self.seed_bpm = bpm;
        self.accepted_for_seed = 0;
    }

    fn merge(&mut self, id: u64, score: u64)
        requires
            old(self).wf(),
        ensures
            final(self).wf(),
            final(self)@ == after_seen(old(self)@, id, score),
    {
        if self.forest {
            return;
        }
        merge_into(&mut self.chosen, id, score);
        proof {
            let m0 = old(self)@;
            assert(entry_ids(self.chosen@) =~= entry_ids(m0.chosen));
            assert(forall|k: int| 0 <= k < self.chosen@.len() ==> #[trigger] self.chosen@[k].id == m0.chosen[k].id
                && self.chosen@[k].album == m0.chosen[k].album && self.chosen@[k].artist == m0.chosen[k].artist);
        }
    }
}

fn merge_into(chosen: &mut Vec<Entry>, id: u64, score: u64)
    ensures
        final(chosen)@ == merge_seen(old(chosen)@, id, score),
{
    let ghost before = chosen@;
    let mut k: usize = 0;
    while k < chosen.len()
        invariant
            k <= chosen@.len(),
            chosen@.len() == before.len(),
            forall|j: int| 0 <= j < k ==> #[trigger] chosen@[j] == merge_seen(before, id, score)[j],
            forall|j: int| k <= j < before.len() ==> #[trigger] chosen@[j] == before[j],
        decreases before.len() - k,
    {
        if chosen[k].id == id && chosen[k].score > score {
            chosen[k].score = score;
        }
        k = k + 1;
    }
    proof {
        assert(chosen@ =~= merge_seen(before, id, score));
    }
}

/// The models of a list of alternates.
pub open spec fn alt_views(v: Seq<Alternates>) -> Seq<AltModel> {
    v.map_values(|a: Alternates| a@)
}

fn add_alternate_exec(alts: &mut Vec<Alternates>, artist: &String, e: &Entry)
    requires
        forall|k: int| 0 <= k < old(alts)@.len() ==> (#[trigger] old(alts)@[k]).tracks@.len() >= 1,
    ensures
        alt_views(final(alts)@) == add_alternate(alt_views(old(alts)@), artist@, *e),
        forall|k: int| 0 <= k < final(alts)@.len() ==> (#[trigger] final(alts)@[k]).tracks@.len() >= 1,
{
    let ghost before = alt_views(alts@);
    let ghost target = add_alternate(before, artist@, *e);
    let mut k: usize = 0;
    while k < alts.len()
        invariant
            k <= alts@.len(),
            alts@.len() == before.len(),
            before == alt_views(old(alts)@),
            target == add_alternate(before, artist@, *e),
            forall|j: int| 0 <= j < k ==> (#[trigger] alts@[j])@ == target[j],
            forall|j: int| k <= j < alts@.len() ==> (#[trigger] alts@[j])@ == before[j],
            forall|j: int| 0 <= j < alts@.len() ==> (#[trigger] alts@[j]).tracks@.len() >= 1,
        decreases before.len() - k,
    {
        if alts[k].artist == *artist && alts[k].tracks.len() < MAX_ARTIST_TRACKS && scores_close(
            alts[k].tracks[0].score,
            e.score,
        ) {
            let c = copy_entry(e);
            alts[k].tracks.push(c);
        }
        proof {
            assert(alts@[k as int]@ =~= target[k as int]);
        }
        k = k + 1;
    }
    proof {
        assert(alt_views(alts@) =~= target);
    }
}

fn register_alternate_exec(alts: &mut Vec<Alternates>, artist: &String, pos: usize, e: &Entry)
    requires
        forall|k: int, l: int|
            0 <= k < l < old(alts)@.len() ==> old(alts)@[k].artist@ != old(alts)@[l].artist@,
    ensures
        alt_views(final(alts)@) == register_alternate(alt_views(old(alts)@), artist@, pos as int, *e),
{
    let ghost before = alt_views(alts@);
    let mut tracks: Vec<Entry> = Vec::new();
    tracks.push(copy_entry(e));
    let fresh = Alternates { artist: artist.clone(), pos, tracks };
    proof {
        assert(fresh@ =~= AltModel { artist: artist@, pos: pos as int, tracks: seq![*e] });
    }
    let mut k: usize = 0;
    while k < alts.len()
        invariant
            k <= alts@.len(),
            alts@ == old(alts)@,
            before == alt_views(old(alts)@),
            fresh@ == (AltModel { artist: artist@, pos: pos as int, tracks: seq![*e] }),
            forall|a: int, b: int|
                0 <= a < b < old(alts)@.len() ==> old(alts)@[a].artist@ != old(alts)@[b].artist@,
            forall|j: int| 0 <= j < k ==> (#[trigger] alts@[j]).artist@ != artist@,
        decreases alts@.len() - k,
    {
        if alts[k].artist == *artist {
            proof {
                let target = register_alternate(before, artist@, pos as int, *e);
                assert(before[k as int].artist == artist@);
                assert forall|j: int| 0 <= j < before.len() && j != k implies #[trigger] before[j].artist != artist@ by {
                    if j > k {
                        let kk = k as int;
                        assert(0 <= kk < j < old(alts)@.len());
                        assert(old(alts)@[kk].artist@ != old(alts)@[j].artist@);
                    }
                }
            }
            let ghost fv = fresh@;
            alts.set(k, fresh);
            proof {
                assert(alts@[k as int]@ == fv);
                assert(fv == AltModel { artist: artist@, pos: pos as int, tracks: seq![*e] });
                let target = register_alternate(before, artist@, pos as int, *e);
                assert(before[k as int].artist == artist@);
                assert forall|j: int| 0 <= j < before.len() implies #[trigger] alt_views(alts@)[j] == target[j] by {
                    if j != k {
                        assert(alts@[j] == old(alts)@[j]);
                    }
                }
                assert(alt_views(alts@) =~= target);
            }
            return;
        }
        k = k + 1;
    }
    alts.push(fresh);
    proof {
        assert(!exists|j: int| 0 <= j < before.len() && #[trigger] before[j].artist == artist@);
        assert(alt_views(alts@) =~= before.push(fresh@));
    }
}

impl Mixer {
    fn judge(&self, t: &Track) -> (r: Verdict)
        requires
            self.wf(),
        ensures
            r == verdict(self@, *t),
    {
        if self.ids.contains(&t.id) {
            return Verdict::Seen;
        }
        let s = self.settings;
        if (s.min_duration > 0 && t.duration < s.min_duration) || (s.max_duration > 0 && t.duration
            > s.max_duration) {
            return Verdict::Duration;
        }
        let diff = s.max_bpm_diff as i32;
        let b = t.bpm as i32;
        let bpm_off = if self.forest {
            diff > 0 && self.min_bpm != 0 && self.max_bpm != 0 && b != 0 && (b < self.min_bpm as i32
                - diff || b > self.max_bpm as i32 + diff)
        } else {
            diff > 0 && b != 0 && self.seed_bpm != 0 && (b - self.seed_bpm as i32 > diff
                || self.seed_bpm as i32 - b > diff)
        };
        if bpm_off {
            return Verdict::Bpm;
        }
        if s.filter_genre && filter_genre(&t.genres, &self.acceptable, &self.grouped) {
            return Verdict::Genre;
        }
        if s.filter_xmas {
            let tag = String::from_str("christmas");
            if contains_str(&t.genres, &tag) {
                return Verdict::Christmas;
            }
        }
        if contains_str(&self.chosen_albums, &t.album) {
            return Verdict::Album;
        }
        if s.no_repeat_artist > 0 && contains_str(&self.artists, &t.artist) {
            return Verdict::RepeatArtist;
        }
        if !t.is_various && s.no_repeat_album > 0 && contains_str(&self.albums, &t.album) {
            return Verdict::RepeatAlbum;
        }
        if contains_str(&self.titles, &t.title) {
            return Verdict::RepeatTitle;
        }
        Verdict::Accepted
    }

    /// Meets the id of the next candidate. `true` when it is new and its
    /// track should be fetched and handed to `consider`; otherwise the id was
    /// seen before, and a chosen track of that id keeps the smaller score.
    pub fn offer(&mut self, id: u64, score: u64) -> (r: bool)
        requires
            old(self).wf(),
        ensures
            final(self).wf(),
            r == !old(self)@.ids.contains(id),
            r ==> final(self)@ == old(self)@,
            !r ==> final(self)@ == after_seen(old(self)@, id, score),
    {
        if self.ids.contains(&id) {
            self.merge(id, score);
            false
        } else {
            true
        }
    }

    /// Puts a candidate with `score` through the filter chain and records
    /// the outcome.
    pub fn consider(&mut self, t: &Track, score: u64) -> (r: Verdict)
        requires
            old(self).wf(),
        ensures
            final(self).wf(),
            r == verdict(old(self)@, *t),
            final(self)@ == after(old(self)@, *t, score),
    {
        let v = self.judge(t);
        if v == Verdict::Seen {
            self.merge(t.id, score);
            return v;
        }
        let ghost m0 = self@;
        self.ids.insert(t.id);
        let kept = if self.forest {
            FOREST_SCORE
        } else {
            score
        };
        let e = make_entry(t, kept);
        proof {
            lemma_ids_push(m0.chosen, m0.filtered, e, m0.ids);
        }
        if v == Verdict::RepeatArtist {
            if !self.forest && self.settings.shuffle {
                proof {
                    assert forall|k: int| 0 <= k < self.alternates@.len() implies (#[trigger] self.alternates@[k]).tracks@.len() >= 1 by {
                        assert(alt_views(self.alternates@)[k].tracks == self.alternates@[k].tracks@);
                        assert(0 <= m0.alternates[k].pos < m0.chosen.len());
                    }
                }
                add_alternate_exec(&mut self.alternates, &t.artist, &e);
            }
            self.filtered.push(e);
        } else if v == Verdict::RepeatAlbum || v == Verdict::RepeatTitle {
            self.filtered.push(e);
        } else if v == Verdict::Accepted {
            insert_str(&mut self.titles, t.title.clone());
            if self.settings.no_repeat_artist > 0 {
                insert_str(&mut self.artists, t.artist.clone());
            }
            if self.settings.no_repeat_album > 0 {
                insert_str(&mut self.albums, t.album.clone());
            }
            insert_str(&mut self.chosen_albums, t.album.clone());
            let pos = self.chosen.len();
            if !self.forest && self.settings.shuffle {
                proof {
                    assert forall|a: int, b: int|
                        0 <= a < b < self.alternates@.len() implies self.alternates@[a].artist@ != self.alternates@[b].artist@ by {
                        assert(alt_views(self.alternates@)[a].artist == self.alternates@[a].artist@);
                        assert(alt_views(self.alternates@)[b].artist == self.alternates@[b].artist@);
                    }
                }
                register_alternate_exec(&mut self.alternates, &t.artist, pos, &e);
            }
            self.chosen.push(e);
            // The count of this seed's tracks stays below the chosen ones', so
            // the increment fits.
            let total = self.chosen.len();
            proof {
                assert(self.accepted_for_seed < total);
            }
            self.accepted_for_seed = self.accepted_for_seed + 1;
        }
        proof {
            let m1 = self@;
            let target = after(m0, *t, score);
            assert(m1.alternates =~= target.alternates);
            assert(m1.filtered =~= target.filtered);
            assert(m1.chosen =~= target.chosen);
            assert(m1 == target);
            assert(!m0.excluded.contains(t.id));
            assert forall|k: int| 0 <= k < m1.chosen.len() implies m1.chosen_albums.contains(#[trigger] m1.chosen[k].album@) by {
                if k < m0.chosen.len() {
                    assert(m1.chosen[k] == m0.chosen[k]);
                    assert(m0.chosen_albums.contains(m0.chosen[k].album@));
                }
            }
            assert forall|k: int, l: int| 0 <= k < l < m1.chosen.len() implies m1.chosen[k].album@ != m1.chosen[l].album@ by {
                assert(m1.chosen[k] == m0.chosen[k]);
                assert(m0.chosen_albums.contains(m0.chosen[k].album@));
                if l < m0.chosen.len() {
                    assert(m1.chosen[l] == m0.chosen[l]);
                }
            }
            assert forall|k: int| 0 <= k < m1.chosen.len() implies !m1.excluded.contains(#[trigger] m1.chosen[k].id) by {
                if k < m0.chosen.len() {
                    assert(m1.chosen[k] == m0.chosen[k]);
                }
            }
            assert forall|k: int| 0 <= k < m1.filtered.len() implies !m1.excluded.contains(#[trigger] m1.filtered[k].id) by {
                if k < m0.filtered.len() {
                    assert(m1.filtered[k] == m0.filtered[k]);
                }
            }
            assert forall|k: int, j: int|
                0 <= k < m1.alternates.len() && 0 <= j < m1.alternates[k].tracks.len() implies (
                #[trigger] m1.alternates[k].tracks[j]).id == m1.chosen[m1.alternates[k].pos].id
                || m1.filtered.contains(m1.alternates[k].tracks[j]) by {
                let t = m1.alternates[k].tracks[j];
                if m1.filtered.len() > m0.filtered.len() && t == m1.filtered.last() {
                    assert(m1.filtered[m1.filtered.len() - 1] == t);
                } else if k < m0.alternates.len() && m1.alternates[k] == m0.alternates[k] {
                    if m0.filtered.contains(t) {
                        let q = choose|q: int| 0 <= q < m0.filtered.len() && m0.filtered[q] == t;
                        assert(m1.filtered[q] == t);
                    } else {
                        assert(0 <= m0.alternates[k].pos < m0.chosen.len());
                        assert(m1.chosen[m1.alternates[k].pos] == m0.chosen[m0.alternates[k].pos]);
                    }
                } else if k < m0.alternates.len() && m1.alternates[k].pos == m0.alternates[k].pos
                    && j < m0.alternates[k].tracks.len() && t == m0.alternates[k].tracks[j] {
                    if m0.filtered.contains(t) {
                        let q = choose|q: int| 0 <= q < m0.filtered.len() && m0.filtered[q] == t;
                        assert(m1.filtered[q] == t);
                    } else {
                        assert(0 <= m0.alternates[k].pos < m0.chosen.len());
                        assert(m1.chosen[m1.alternates[k].pos] == m0.chosen[m0.alternates[k].pos]);
                    }
                } else {
                    assert(m1.alternates[k].pos == m0.chosen.len());
                    assert(m1.chosen[m0.chosen.len() as int] == e);
                }
            }
        }
        v
    }
}

// ---------------------------------------------------------------------------
// The final list.

/// Fewest tracks wanted before falling back on the filtered ones: 2, or the
/// count if smaller.
pub open spec fn min_count(count: int) -> int {
    if count < 2 {
        count
    } else {
        2
    }
}

/// The first `n` entries (all when fewer).
pub open spec fn take(s: Seq<Entry>, n: int) -> Seq<Entry> {
    if n < s.len() {
        s.subrange(0, n)
    } else {
        s
    }
}

/// The chosen tracks, topped up from the filtered ones (best score first)
/// while fewer than `min_count` were chosen.
pub open spec fn backfilled(chosen: Seq<Entry>, filtered: Seq<Entry>, count: int) -> Seq<Entry> {
    let need = min_count(count);
    if chosen.len() < need {
        chosen + take(sort_by_score(filtered), need - chosen.len())
    } else {
        chosen
    }
}

/// The tracks that go into the final ordering: in forest mode the chosen
/// ones, else the chosen ones topped up.
pub open spec fn final_pool(m: MixerModel) -> Seq<Entry> {
    if m.forest {
        m.chosen
    } else {
        backfilled(m.chosen, m.filtered, m.settings.count as int)
    }
}

/// The result of a request without shuffling: the pool ordered by score and
/// cut to the count.
pub open spec fn mix_result(m: MixerModel) -> Seq<Entry> {
    take(sort_by_score(final_pool(m)), m.settings.count as int)
}

/// The files of a list of entries.
pub open spec fn files_of(s: Seq<Entry>) -> Seq<String> {
    s.map_values(|e: Entry| e.file)
}

/// Whether `f` is the file of a chosen or filtered track, or of an alternate.
pub open spec fn file_offered(m: MixerModel, f: String) -> bool {
    (exists|k: int| 0 <= k < m.chosen.len() && #[trigger] m.chosen[k].file == f) || (exists|k: int|
        0 <= k < m.filtered.len() && #[trigger] m.filtered[k].file == f) || (exists|a: int, j: int|
        0 <= a < m.alternates.len() && 0 <= j < m.alternates[a].tracks.len()
            && #[trigger] m.alternates[a].tracks[j].file == f)
}

/// Every entry of `s` has an offered file.
pub open spec fn all_offered(m: MixerModel, s: Seq<Entry>) -> bool {
    forall|i: int| 0 <= i < s.len() ==> file_offered(m, #[trigger] s[i].file)
}

/// The slot entry `slot` after drawing the alternate `t` for it: the track
/// of `t` at the slot's score, under the slot's artist.
pub open spec fn drawn(slot: Entry, t: Entry) -> Entry {
    Entry { id: t.id, file: t.file, album: t.album, ..slot }
}

/// Replaces the track of each artist's slot by one drawn from its
/// alternates, where it has more than one.
fn substitute(chosen: &mut Vec<Entry>, alts: &Vec<Alternates>)
    requires
        forall|k: int| 0 <= k < alts@.len() ==> (#[trigger] alts@[k]).pos < old(chosen)@.len(),
    ensures
        final(chosen)@.len() == old(chosen)@.len(),
        forall|k: int|
            0 <= k < final(chosen)@.len() ==> #[trigger] final(chosen)@[k] == old(chosen)@[k]
                || exists|a: int, j: int|
                0 <= a < alts@.len() && 0 <= j < alts@[a].tracks@.len() && alts@[a].pos == k
                    && final(chosen)@[k] == drawn(old(chosen)@[k], #[trigger] alts@[a].tracks@[j]),
{
    let mut k: usize = 0;
    while k < alts.len()
        invariant
            k <= alts@.len(),
            chosen@.len() == old(chosen)@.len(),
            forall|j: int| 0 <= j < alts@.len() ==> (#[trigger] alts@[j]).pos < chosen@.len(),
            forall|q: int|
                0 <= q < chosen@.len() ==> #[trigger] chosen@[q] == old(chosen)@[q]
                    || exists|a: int, j: int|
                    0 <= a < alts@.len() && 0 <= j < alts@[a].tracks@.len() && alts@[a].pos == q
                        && chosen@[q] == drawn(old(chosen)@[q], #[trigger] alts@[a].tracks@[j]),
        decreases alts@.len() - k,
    {
        let alt = &alts[k];
        if alt.tracks.len() > 1 {
            match pick_one(&alt.tracks) {
                Some(t) => {
                    let p = alt.pos;
                    let ghost before = chosen@;
                    let ne = Entry {
                        id: t.id,
                        file: t.file.clone(),
                        score: chosen[p].score,
                        artist: chosen[p].artist.clone(),
                        album: t.album.clone(),
                    };
                    proof {
                        let j = choose|j: int| 0 <= j < alt.tracks@.len() && alt.tracks@[j] == *t;
                        assert(alts@[k as int].tracks@[j] == *t);
                        if before[p as int] != old(chosen)@[p as int] {
                            let (a2, j2) = choose|a2: int, j2: int|
                                0 <= a2 < alts@.len() && 0 <= j2 < alts@[a2].tracks@.len()
                                    && alts@[a2].pos == p && before[p as int] == drawn(
                                    old(chosen)@[p as int],
                                    #[trigger] alts@[a2].tracks@[j2],
                                );
                        }
                        assert(ne == drawn(old(chosen)@[p as int], alts@[k as int].tracks@[j]));
                    }
                    chosen.set(p, ne);
                    proof {
                        assert forall|q: int| 0 <= q < chosen@.len() && q != p implies #[trigger] chosen@[q] == before[q] by {}
                    }
                },
                None => {},
            }
        }
        k = k + 1;
    }
}

/// The files of a list of entries, in order.
pub fn entry_files(v: &Vec<Entry>) -> (r: Vec<String>)
    ensures
        r@ == files_of(v@),
{
    let mut out: Vec<String> = Vec::new();
    let mut i: usize = 0;
    while i < v.len()
        invariant
            i <= v@.len(),
            out@ == files_of(v@.subrange(0, i as int)),
        decreases v@.len() - i,
    {
        out.push(v[i].file.clone());
        proof {
            assert(files_of(v@.subrange(0, i as int + 1)) =~= files_of(v@.subrange(0, i as int)).push(v@[i as int].file));
        }
        i = i + 1;
    }
    proof {
        assert(v@.subrange(0, v@.len() as int) =~= v@);
    }
    out
}

fn has_id_exec(v: &Vec<Entry>, id: u64) -> (r: bool)
    ensures
        r == has_id(v@, id),
{
    let mut i: usize = 0;
    while i < v.len()
        invariant
            i <= v@.len(),
            forall|k: int| 0 <= k < i ==> v@[k].id != id,
        decreases v@.len() - i,
    {
        if v[i].id == id {
            return true;
        }
        i = i + 1;
    }
    false
}

/// In a well-formed state the chosen and filtered tracks have distinct ids,
/// and none is both chosen and filtered.
pub proof fn lemma_chosen_ids_distinct(m: MixerModel)
    requires
        model_wf(m),
    ensures
        ids_distinct(m.chosen),
        ids_distinct(m.filtered),
        forall|i: int, j: int|
            0 <= i < m.chosen.len() && 0 <= j < m.filtered.len() ==> m.chosen[i].id != m.filtered[j].id,
{
    let s = entry_ids(m.chosen) + entry_ids(m.filtered);
    let c = m.chosen.len() as int;
    assert forall|i: int, j: int| 0 <= i < j < m.chosen.len() implies m.chosen[i].id != m.chosen[j].id by {
        assert(s[i] == m.chosen[i].id);
        assert(s[j] == m.chosen[j].id);
    }
    assert forall|i: int, j: int| 0 <= i < j < m.filtered.len() implies m.filtered[i].id != m.filtered[j].id by {
        assert(s[c + i] == m.filtered[i].id);
        assert(s[c + j] == m.filtered[j].id);
    }
    assert forall|i: int, j: int|
        0 <= i < m.chosen.len() && 0 <= j < m.filtered.len() implies m.chosen[i].id != m.filtered[j].id by {
        assert(s[i] == m.chosen[i].id);
        assert(s[c + j] == m.filtered[j].id);
    }
}

/// The id that a slot holds after the draws: its own, or that of a
/// filtered track of the slot's artist.
proof fn lemma_drawn_id(m: MixerModel, alts: Seq<Alternates>, after: Seq<Entry>, k: int)
    requires
        model_wf(m),
        alt_views(alts) == m.alternates,
        after.len() == m.chosen.len(),
        0 <= k < after.len(),
        after[k] == m.chosen[k] || exists|a: int, j: int|
            0 <= a < alts.len() && 0 <= j < alts[a].tracks@.len() && alts[a].pos == k && after[k]
                == drawn(m.chosen[k], #[trigger] alts[a].tracks@[j]),
    ensures
        after[k].id == m.chosen[k].id || exists|a: int, q: int|
            #![trigger m.filtered[q], m.alternates[a]]
            0 <= a < m.alternates.len() && m.alternates[a].pos == k && 0 <= q < m.filtered.len()
                && m.filtered[q].id == after[k].id && m.filtered[q].artist@
                == m.alternates[a].artist,
{
    if after[k] != m.chosen[k] {
        let (a, j) = choose|a: int, j: int|
            0 <= a < alts.len() && 0 <= j < alts[a].tracks@.len() && alts[a].pos == k && after[k]
                == drawn(m.chosen[k], #[trigger] alts[a].tracks@[j]);
        let t = alts[a].tracks@[j];
        assert(m.alternates[a] == alts[a]@);
        assert(m.alternates[a].tracks[j] == t);
        assert(0 <= m.alternates[a].pos < m.chosen.len());
        if t.id != m.chosen[k].id {
            assert(m.filtered.contains(t));
            let q = choose|q: int| 0 <= q < m.filtered.len() && m.filtered[q] == t;
            assert(m.filtered[q].id == after[k].id);
        }
    }
}

/// After the draws, the slots still hold distinct ids.
proof fn lemma_drawn_ids_distinct(m: MixerModel, alts: Seq<Alternates>, after: Seq<Entry>)
    requires
        model_wf(m),
        alt_views(alts) == m.alternates,
        after.len() == m.chosen.len(),
        forall|k: int|
            0 <= k < after.len() ==> #[trigger] after[k] == m.chosen[k] || exists|a: int, j: int|
                0 <= a < alts.len() && 0 <= j < alts[a].tracks@.len() && alts[a].pos == k
                    && after[k] == drawn(m.chosen[k], #[trigger] alts[a].tracks@[j]),
    ensures
        ids_distinct(after),
{
    lemma_chosen_ids_distinct(m);
    assert forall|p: int, q: int| 0 <= p < q < after.len() implies after[p].id != after[q].id by {
        assert(after[p] == m.chosen[p] || after[p] != m.chosen[p]);
        assert(after[q] == m.chosen[q] || after[q] != m.chosen[q]);
        lemma_drawn_id(m, alts, after, p);
        lemma_drawn_id(m, alts, after, q);
        if after[p].id == after[q].id {
            if after[p].id == m.chosen[p].id {
                if after[q].id != m.chosen[q].id {
                    let (b, y) = choose|b: int, y: int|
                        #![trigger m.filtered[y], m.alternates[b]]
                        0 <= b < m.alternates.len() && m.alternates[b].pos == q && 0 <= y < m.filtered.len()
                            && m.filtered[y].id == after[q].id && m.filtered[y].artist@
                            == m.alternates[b].artist;
                }
            } else {
                let (a, x) = choose|a: int, x: int|
                    #![trigger m.filtered[x], m.alternates[a]]
                    0 <= a < m.alternates.len() && m.alternates[a].pos == p && 0 <= x < m.filtered.len()
                        && m.filtered[x].id == after[p].id && m.filtered[x].artist@
                        == m.alternates[a].artist;
                if after[q].id != m.chosen[q].id {
                    let (b, y) = choose|b: int, y: int|
                        #![trigger m.filtered[y], m.alternates[b]]
                        0 <= b < m.alternates.len() && m.alternates[b].pos == q && 0 <= y < m.filtered.len()
                            && m.filtered[y].id == after[q].id && m.filtered[y].artist@
                            == m.alternates[b].artist;
                    assert(x == y);
                    assert(a != b);
                    if a < b {
                        assert(m.alternates[a].artist != m.alternates[b].artist);
                    } else {
                        assert(m.alternates[b].artist != m.alternates[a].artist);
                    }
                }
            }
        }
    }
}

/// A permutation keeps the entries and the distinctness of their ids.
proof fn lemma_permuted(s1: Seq<Entry>, s2: Seq<Entry>)
    requires
        s1.to_multiset() == s2.to_multiset(),
    ensures
        forall|i: int| 0 <= i < s2.len() ==> s1.contains(#[trigger] s2[i]),
        ids_distinct(s1) ==> ids_distinct(s2),
{
    assert forall|i: int| 0 <= i < s2.len() implies s1.contains(#[trigger] s2[i]) by {
        assert(s2.contains(s2[i]));
        assert(s2.to_multiset().count(s2[i]) > 0);
    }
    if ids_distinct(s1) {
        assert(s1.no_duplicates());
        s1.lemma_multiset_has_no_duplicates();
        assert forall|x: Entry| s2.to_multiset().contains(x) implies s2.to_multiset().count(x) == 1 by {}
        s2.lemma_multiset_has_no_duplicates_conv();
        assert forall|i: int, j: int| 0 <= i < j < s2.len() implies s2[i].id != s2[j].id by {
            assert(s1.contains(s2[i]));
            assert(s1.contains(s2[j]));
            let a = choose|a: int| 0 <= a < s1.len() && s1[a] == s2[i];
            let b = choose|b: int| 0 <= b < s1.len() && s1[b] == s2[j];
            assert(s2[i] != s2[j]);
            if a < b {
            } else if b < a {
            }
        }
    }
}

/// Tops `chosen` up to `need` entries from `filtered`, best score first,
/// skipping any whose id is already present.
fn top_up(chosen: &mut Vec<Entry>, filtered: &Vec<Entry>, need: usize)
    requires
        ids_distinct(old(chosen)@),
        need <= 2,
    ensures
        ids_distinct(final(chosen)@),
        final(chosen)@.len() >= old(chosen)@.len(),
        old(chosen)@.len() >= need ==> final(chosen)@ == old(chosen)@,
        final(chosen)@.len() <= old(chosen)@.len() || final(chosen)@.len() <= need,
        forall|k: int| 0 <= k < old(chosen)@.len() ==> #[trigger] final(chosen)@[k] == old(chosen)@[k],
        forall|k: int|
            old(chosen)@.len() <= k < final(chosen)@.len() ==> filtered@.contains(
                #[trigger] final(chosen)@[k],
            ),
        ids_distinct(filtered@) && (forall|i: int, q: int|
            0 <= i < old(chosen)@.len() && 0 <= q < filtered@.len() ==> old(chosen)@[i].id
                != filtered@[q].id) ==> final(chosen)@ == backfilled(old(chosen)@, filtered@, need as int),
{
    let ghost c0 = chosen@;
    if chosen.len() >= need || filtered.len() == 0 {
        proof {
            if chosen@.len() < need {
                assert(sort_by_score(filtered@) =~= Seq::<Entry>::empty());
                assert(chosen@ =~= c0 + take(sort_by_score(filtered@), need - c0.len()));
            }
        }
        return;
    }
    let ghost clean = ids_distinct(filtered@) && (forall|i: int, q: int|
        0 <= i < c0.len() && 0 <= q < filtered@.len() ==> c0[i].id != filtered@[q].id);
    let extra = sort_entries(filtered);
    proof {
        crate::ordering::lemma_sort_props(filtered@);
    }
    let mut k: usize = 0;
    while chosen.len() < need && k < extra.len()
        invariant
            c0.len() < need,
            chosen@.len() <= need,
            k <= extra@.len(),
            extra@ == sort_by_score(filtered@),
            entries_within(extra@, filtered@),
            ids_distinct(filtered@) ==> ids_distinct(extra@),
            clean == (ids_distinct(filtered@) && (forall|i: int, q: int|
                0 <= i < c0.len() && 0 <= q < filtered@.len() ==> c0[i].id != filtered@[q].id)),
            chosen@.len() >= c0.len(),
            forall|i: int| 0 <= i < c0.len() ==> #[trigger] chosen@[i] == c0[i],
            ids_distinct(chosen@),
            forall|i: int| c0.len() <= i < chosen@.len() ==> filtered@.contains(#[trigger] chosen@[i]),
            clean ==> chosen@ == c0 + extra@.subrange(0, k as int) && k == chosen@.len() - c0.len(),
        decreases extra@.len() - k,
    {
        let ghost prev = chosen@;
        let present = has_id_exec(chosen, extra[k].id);
        proof {
            if clean && present {
                let i = choose|i: int| 0 <= i < prev.len() && #[trigger] prev[i].id == extra@[k as int].id;
                assert(filtered@.contains(extra@[k as int]));
                let q = choose|q: int| 0 <= q < filtered@.len() && filtered@[q] == extra@[k as int];
                if i < c0.len() {
                    assert(prev[i] == c0[i]);
                } else {
                    assert(prev[i] == extra@[i - c0.len()]);
                }
            }
        }
        if !present {
            chosen.push(copy_entry(&extra[k]));
            proof {
                assert forall|i: int, j: int| 0 <= i < j < chosen@.len() implies chosen@[i].id != chosen@[j].id by {
                    assert(chosen@[i] == prev[i]);
                    if j < prev.len() {
                        assert(chosen@[j] == prev[j]);
                    }
                }
                assert forall|i: int| c0.len() <= i < chosen@.len() implies filtered@.contains(#[trigger] chosen@[i]) by {
                    if i == prev.len() {
                        assert(filtered@.contains(extra@[k as int]));
                    } else {
                        assert(chosen@[i] == prev[i]);
                    }
                }
                if clean {
                    assert(chosen@ =~= c0 + extra@.subrange(0, k as int + 1));
                }
            }
        }
        k = k + 1;
    }
    proof {
        if clean {
            let n = need - c0.len();
            if n < extra@.len() {
                assert(k == n);
            } else {
                assert(k == extra@.len());
                assert(extra@.subrange(0, k as int) =~= extra@);
            }
            assert(extra@.subrange(0, k as int) =~= take(extra@, need - c0.len()));
        }
    }
}

/// Orders the pool by score and cuts it to `count`; when shuffling, first
/// cuts it to `similarity` and puts it in random order.
fn order_and_cut(pool: &Vec<Entry>, shuffling: bool, similarity: usize, count: usize) -> (r: Vec<
    Entry,
>)
    ensures
        r@.len() <= count,
        forall|i: int| 0 <= i < r@.len() ==> pool@.contains(#[trigger] r@[i]),
        ids_distinct(pool@) ==> ids_distinct(r@),
        !shuffling ==> r@ == take(sort_by_score(pool@), count as int),
        shuffling ==> r@.len() == take(take(sort_by_score(pool@), similarity as int), count as int).len(),
        shuffling ==> forall|i: int|
            0 <= i < r@.len() ==> take(sort_by_score(pool@), similarity as int).contains(#[trigger] r@[i]),
{
    let mut sorted = sort_entries(pool);
    proof {
        crate::ordering::lemma_sort_props(pool@);
    }
    let ghost top = sorted@;
    if shuffling {
        sorted.truncate(similarity);
        let ghost before = sorted@;
        proof {
            assert(before =~= take(top, similarity as int));
        }
        shuffle(&mut sorted);
        proof {
            lemma_permuted(before, sorted@);
            if ids_distinct(top) {
                assert(ids_distinct(before));
            }
        }
    }
    let ghost pre = sorted@;
    sorted.truncate(count);
    proof {
        assert forall|i: int| 0 <= i < sorted@.len() implies pool@.contains(#[trigger] sorted@[i]) by {
            assert(sorted@[i] == pre[i]);
            if shuffling {
                let b = take(top, similarity as int);
                assert(b.contains(pre[i]));
                let x = choose|x: int| 0 <= x < b.len() && b[x] == pre[i];
                assert(b[x] == top[x]);
                assert(pool@.contains(top[x]));
            } else {
                assert(pool@.contains(top[i]));
            }
        }
        if ids_distinct(pool@) {
            assert forall|i: int, j: int| 0 <= i < j < sorted@.len() implies sorted@[i].id != sorted@[j].id by {
                assert(sorted@[i] == pre[i]);
                assert(sorted@[j] == pre[j]);
            }
        }
        if shuffling {
            assert forall|i: int| 0 <= i < sorted@.len() implies take(top, similarity as int).contains(#[trigger] sorted@[i]) by {
                assert(sorted@[i] == pre[i]);
            }
        } else {
            assert(sorted@ =~= take(top, count as int));
        }
    }
    sorted
}

/// No top-up from the filtered tracks is needed: the candidates came from
/// the anomaly ranking, or enough were chosen.
pub open spec fn no_top_up(m: MixerModel) -> bool {
    m.forest || m.chosen.len() >= min_count(m.settings.count as int)
}

/// `p` is a pool that a shuffled request may order: the chosen slots, each
/// either as chosen or holding one of the slot's alternates, then tracks
/// from the filtered ones (only where a top-up was needed).
pub open spec fn shuffle_pool(m: MixerModel, p: Seq<Entry>) -> bool {
    &&& p.len() >= m.chosen.len()
    &&& no_top_up(m) ==> p.len() == m.chosen.len()
    &&& forall|k: int|
        0 <= k < m.chosen.len() ==> #[trigger] p[k] == m.chosen[k] || exists|a: int, j: int|
            0 <= a < m.alternates.len() && m.alternates[a].pos == k && 0 <= j
                < m.alternates[a].tracks.len() && p[k] == drawn(
                m.chosen[k],
                #[trigger] m.alternates[a].tracks[j],
            )
    &&& forall|k: int| m.chosen.len() <= k < p.len() ==> m.filtered.contains(#[trigger] p[k])
}

/// What the final list `r` of a request in state `m` is:
/// - at most `count` tracks with distinct ids, each with an offered file
///   and none a seed or previous track;
/// - without shuffling, the pool ordered by score and cut to the count;
/// - with shuffling, drawn from the best `similarity_count` entries of a
///   pool as `shuffle_pool` describes, as many as the cuts leave;
/// - where no top-up was needed: with an artist window, distinct artists
///   and none of a protected previous track; without shuffling, distinct
///   albums.
pub open spec fn finished(m: MixerModel, r: Seq<Entry>) -> bool {
    &&& r.len() <= m.settings.count
    &&& ids_distinct(r)
    &&& forall|i: int|
        0 <= i < r.len() ==> file_offered(m, #[trigger] r[i].file) && !m.excluded.contains(r[i].id)
    &&& !m.settings.shuffle ==> r == mix_result(m)
    &&& m.settings.shuffle ==> exists|p: Seq<Entry>|
        {
            &&& shuffle_pool(m, p)
            &&& forall|i: int|
                0 <= i < r.len() ==> take(sort_by_score(p), m.settings.similarity_count as int).contains(
                    #[trigger] r[i],
                )
            &&& r.len() == take(
                take(sort_by_score(p), m.settings.similarity_count as int),
                m.settings.count as int,
            ).len()
        }
    &&& no_top_up(m) && m.settings.no_repeat_artist > 0 ==> {
        &&& forall|i: int, j: int| 0 <= i < j < r.len() ==> r[i].artist@ != r[j].artist@
        &&& forall|i: int| 0 <= i < r.len() ==> !m.protected_artists.contains(#[trigger] r[i].artist@)
    }
    &&& no_top_up(m) && !m.settings.shuffle ==> forall|i: int, j: int|
        0 <= i < j < r.len() ==> r[i].album@ != r[j].album@
}

impl Mixer {
    /// The entries of the final list, as `finished` describes them.
    pub fn finish_entries(self) -> (r: Vec<Entry>)
        requires
            self.wf(),
        ensures
            finished(self@, r@),
    {
        let ghost m = self@;
        proof {
            lemma_chosen_ids_distinct(m);
        }
        let count = self.settings.count;
        let mut chosen = self.chosen;
        if !self.forest && self.settings.shuffle {
            proof {
                assert forall|k: int| 0 <= k < self.alternates@.len() implies (#[trigger] self.alternates@[k]).pos < chosen@.len() by {
                    assert(alt_views(self.alternates@)[k].pos == self.alternates@[k].pos);
                    assert(0 <= m.alternates[k].pos < m.chosen.len());
                }
            }
            substitute(&mut chosen, &self.alternates);
            proof {
                lemma_drawn_ids_distinct(m, self.alternates@, chosen@);
            }
        }
        let ghost c0 = chosen@;
        proof {
            assert forall|k: int| 0 <= k < c0.len() implies (#[trigger] c0[k]).score == m.chosen[k].score
                && c0[k].artist == m.chosen[k].artist && file_offered(m, c0[k].file)
                && !m.excluded.contains(c0[k].id) && (c0[k] == m.chosen[k] || exists|a: int, j: int|
                0 <= a < m.alternates.len() && m.alternates[a].pos == k && 0 <= j
                    < m.alternates[a].tracks.len() && c0[k] == drawn(
                    m.chosen[k],
                    #[trigger] m.alternates[a].tracks[j],
                )) by {
                if c0[k] != m.chosen[k] {
                    let (a, j) = choose|a: int, j: int|
                        0 <= a < self.alternates@.len() && 0 <= j < self.alternates@[a].tracks@.len()
                            && self.alternates@[a].pos == k && c0[k] == drawn(
                            m.chosen[k],
                            #[trigger] self.alternates@[a].tracks@[j],
                        );
                    assert(m.alternates[a] == self.alternates@[a]@);
                    let t = m.alternates[a].tracks[j];
                    assert(t == self.alternates@[a].tracks@[j]);
                    assert(t.file == c0[k].file);
                    assert(0 <= m.alternates[a].pos < m.chosen.len());
                    if t.id != m.chosen[k].id {
                        assert(m.filtered.contains(t));
                        let q = choose|q: int| 0 <= q < m.filtered.len() && m.filtered[q] == t;
                        assert(!m.excluded.contains(m.filtered[q].id));
                    }
                }
            }
        }
        if !self.forest {
            let need: usize = if count < 2 {
                count
            } else {
                2
            };
            top_up(&mut chosen, &self.filtered, need);
        }
        let ghost pool = chosen@;
        proof {
            assert forall|i: int| 0 <= i < pool.len() implies file_offered(m, #[trigger] pool[i].file)
                && !m.excluded.contains(pool[i].id) by {
                if i >= c0.len() {
                    assert(m.filtered.contains(pool[i]));
                    let q = choose|q: int| 0 <= q < m.filtered.len() && m.filtered[q] == pool[i];
                    assert(m.filtered[q].file == pool[i].file);
                } else {
                    assert(pool[i] == c0[i]);
                }
            }
            assert forall|k: int| 0 <= k < m.chosen.len() implies #[trigger] pool[k] == c0[k] by {}
            if no_top_up(m) {
                assert(pool =~= c0);
            }
            if m.settings.shuffle {
                assert(shuffle_pool(m, pool));
            } else {
                assert(c0 == m.chosen);
                assert(pool == final_pool(m));
            }
        }
        let r = order_and_cut(&chosen, self.settings.shuffle, self.settings.similarity_count, count);
        proof {
            assert forall|i: int| 0 <= i < r@.len() implies file_offered(m, #[trigger] r@[i].file)
                && !m.excluded.contains(r@[i].id) by {
                let y = choose|y: int| 0 <= y < pool.len() && pool[y] == r@[i];
                assert(file_offered(m, pool[y].file));
            }
            if no_top_up(m) {
                assert(pool =~= c0);
                if m.settings.no_repeat_artist > 0 {
                    assert forall|i: int, j: int| 0 <= i < j < r@.len() implies r@[i].artist@ != r@[j].artist@ by {
                        let a = choose|a: int| 0 <= a < pool.len() && pool[a] == r@[i];
                        let b = choose|b: int| 0 <= b < pool.len() && pool[b] == r@[j];
                        assert(a != b);
                        assert(pool[a].artist == m.chosen[a].artist);
                        assert(pool[b].artist == m.chosen[b].artist);
                        if a > b {
                            assert(m.chosen[b].artist@ != m.chosen[a].artist@);
                        }
                    }
                    assert forall|i: int| 0 <= i < r@.len() implies !m.protected_artists.contains(#[trigger] r@[i].artist@) by {
                        let a = choose|a: int| 0 <= a < pool.len() && pool[a] == r@[i];
                        assert(pool[a].artist == m.chosen[a].artist);
                        assert(!m.protected_artists.contains(m.chosen[a].artist@));
                    }
                }
                if !m.settings.shuffle {
                    assert(pool == m.chosen);
                    assert forall|i: int, j: int| 0 <= i < j < r@.len() implies r@[i].album@ != r@[j].album@ by {
                        let a = choose|a: int| 0 <= a < pool.len() && pool[a] == r@[i];
                        let b = choose|b: int| 0 <= b < pool.len() && pool[b] == r@[j];
                        assert(a != b);
                        if a > b {
                            assert(m.chosen[b].album@ != m.chosen[a].album@);
                        }
                    }
                }
            }
        }
        r
    }

    /// The files of the final list: those of entries as `finished`
    /// describes them.
    pub fn finish(self) -> (r: Vec<String>)
        requires
            self.wf(),
        ensures
            exists|e: Seq<Entry>| finished(self@, e) && r@ == files_of(e),
    {
        let ghost m = self@;
        let entries = self.finish_entries();
        let r = entry_files(&entries);
        proof {
            assert(finished(m, entries@) && r@ == files_of(entries@));
        }
        r
    }
}

} // verus!
