//! The list engine: the neighbours of one track that pass the duration,
//! tempo, title, genre and holiday filters, in the order the index gives.

use vstd::prelude::*;
use vstd::string::*;
use crate::genres::{all_group_genres, filter_genre, genre_rejects, get_genres, grouped_genres, matched_genres};
use crate::mixer::{christmas, Verdict};
use crate::params::{clamp_count, clamp_count_spec, flag_on, holiday_filter, holiday_filter_spec, ListParams};
use crate::text::{contains_str, distinct, extend_strs, insert_str, str_set};
use crate::track::Track;

verus! {

/// The settings of a list request, with defaults applied.
#[derive(Clone, Copy)]
pub struct ListSettings {
    /// Tracks returned at most, in `[1, 50]`.
    pub count: usize,
    pub filter_genre: bool,
    pub filter_xmas: bool,
    pub min_duration: u32,
    pub max_duration: u32,
    pub max_bpm_diff: i16,
    /// Only the seed artist's own tracks are searched.
    pub by_artist: bool,
}

/// What `ListSettings::from_params` makes of a request in `month`.
pub open spec fn list_settings_of(p: ListParams, month: u32) -> ListSettings {
    ListSettings {
        count: clamp_count_spec(p.count) as usize,
        filter_genre: flag_on(p.filtergenre),
        filter_xmas: holiday_filter_spec(p.filterxmas, month),
        min_duration: match p.min {
            Some(v) => v,
            None => 0u32,
        },
        max_duration: match p.max {
            Some(v) => v,
            None => 0u32,
        },
        max_bpm_diff: match p.maxbpmdiff {
            Some(v) => v,
            None => 0i16,
        },
        by_artist: p.byartist == 1,
    }
}

impl ListSettings {
    /// The settings of a list request served in `month` (1 to 12).
    pub fn from_params(p: &ListParams, month: u32) -> (r: ListSettings)
        ensures
            r == list_settings_of(*p, month),
    {
        ListSettings {
            count: clamp_count(p.count),
            filter_genre: match p.filtergenre {
                Some(v) => v == 1,
                None => false,
            },
            filter_xmas: holiday_filter(p.filterxmas, month),
            min_duration: match p.min {
                Some(v) => v,
                None => 0,
            },
            max_duration: match p.max {
                Some(v) => v,
                None => 0,
            },
            max_bpm_diff: match p.maxbpmdiff {
                Some(v) => v,
                None => 0,
            },
            by_artist: p.byartist == 1,
        }
    }

    /// The settings of a list request served now.
    pub fn for_now(p: &ListParams) -> (r: ListSettings)
        ensures
            exists|month: u32| 1 <= month <= 12 && r == list_settings_of(*p, month),
    {
        let month = crate::params::current_month();
        ListSettings::from_params(p, month)
    }
}

/// The model of a `Lister`.
pub struct ListModel {
    pub settings: ListSettings,
    pub acceptable: Set<Seq<char>>,
    pub grouped: Set<Seq<char>>,
    pub titles: Set<Seq<char>>,
    pub seed_bpm: int,
    pub chosen: Seq<String>,
}

/// The selection state of one list request.
pub struct Lister {
    settings: ListSettings,
    acceptable: Vec<String>,
    grouped: Vec<String>,
    titles: Vec<String>,
    seed_bpm: i16,
    chosen: Vec<String>,
}

impl View for Lister {
    type V = ListModel;

    closed spec fn view(&self) -> ListModel {
        ListModel {
            settings: self.settings,
            acceptable: str_set(self.acceptable@),
            grouped: str_set(self.grouped@),
            titles: str_set(self.titles@),
            seed_bpm: self.seed_bpm as int,
            chosen: self.chosen@,
        }
    }
}

/// The state right after the setup for `seed`.
pub open spec fn initial_list(settings: ListSettings, groups: Seq<Vec<String>>, seed: Track) -> ListModel {
    ListModel {
        settings,
        acceptable: if settings.filter_genre && seed.genres@.len() > 0 {
            matched_genres(groups, str_set(seed.genres@))
        } else {
            Set::empty()
        },
        grouped: if settings.filter_genre {
            grouped_genres(groups)
        } else {
            Set::empty()
        },
        titles: set![seed.title@],
        seed_bpm: seed.bpm as int,
        chosen: Seq::empty(),
    }
}

/// The first rule of the list's chain that a neighbour fails, or `Accepted`.
pub open spec fn list_verdict(m: ListModel, t: Track) -> Verdict {
    let s = m.settings;
    let diff = s.max_bpm_diff as int;
    let b = t.bpm as int;
    if (s.min_duration > 0 && t.duration < s.min_duration) || (s.max_duration > 0 && t.duration
        > s.max_duration) {
        Verdict::Duration
    } else if diff > 0 && b != 0 && m.seed_bpm != 0 && (b - m.seed_bpm > diff || m.seed_bpm - b
        > diff) {
        Verdict::Bpm
    } else if m.titles.contains(t.title@) {
        Verdict::RepeatTitle
    } else if s.filter_genre && genre_rejects(str_set(t.genres@), m.acceptable, m.grouped) {
        Verdict::Genre
    } else if s.filter_xmas && str_set(t.genres@).contains(christmas()) {
        Verdict::Christmas
    } else {
        Verdict::Accepted
    }
}

/// The state after a neighbour `t`.
pub open spec fn list_after(m: ListModel, t: Track) -> ListModel {
    if list_verdict(m, t) == Verdict::Accepted {
        ListModel { titles: m.titles.insert(t.title@), chosen: m.chosen.push(t.file), ..m }
    } else {
        m
    }
}

impl Lister {
    /// The state is well formed.
    pub closed spec fn wf(&self) -> bool {
        &&& distinct(self.acceptable@)
        &&& distinct(self.grouped@)
        &&& distinct(self.titles@)
    }

    /// Sets up the list of tracks like `seed`.
    pub fn new(settings: ListSettings, groups: &Vec<Vec<String>>, seed: &Track) -> (r: Lister)
        ensures
            r.wf(),
            r@ == initial_list(settings, groups@, *seed),
    {
        let mut acceptable: Vec<String> = Vec::new();
        let mut grouped: Vec<String> = Vec::new();
        if settings.filter_genre {
            grouped = all_group_genres(groups);
            if seed.genres.len() > 0 {
                let genres = get_genres(groups, &seed.genres);
                extend_strs(&mut acceptable, &genres);
            }
        }
        let mut titles: Vec<String> = Vec::new();
        insert_str(&mut titles, seed.title.clone());
        proof {
            assert(str_set(Seq::<String>::empty()) =~= Set::<Seq<char>>::empty());
            assert(str_set(titles@) =~= set![seed.title@]);
            if !(settings.filter_genre && seed.genres@.len() > 0) {
                assert(acceptable@ =~= Seq::<String>::empty());
            }
            if !settings.filter_genre {
                assert(grouped@ =~= Seq::<String>::empty());
            }
        }
        let r = Lister { settings, acceptable, grouped, titles, seed_bpm: seed.bpm, chosen: Vec::new() };
        proof {
            if settings.filter_genre && seed.genres@.len() > 0 {
                assert(r@.acceptable =~= matched_genres(groups@, str_set(seed.genres@)));
            }
            assert(r@.chosen =~= Seq::<String>::empty());
        }
        r
    }

    /// Whether more neighbours are wanted.
    pub fn wants_more(&self) -> (r: bool)
        ensures
            r == (self@.chosen.len() < self@.settings.count),
    {
        self.chosen.len() < self.settings.count
    }

    /// Puts a neighbour of the seed through the chain and records it when it
    /// passes.
    pub fn consider(&mut self, t: &Track) -> (r: Verdict)
        requires
            old(self).wf(),
        ensures
            final(self).wf(),
            r == list_verdict(old(self)@, *t),
            final(self)@ == list_after(old(self)@, *t),
    {
        let s = self.settings;
        if (s.min_duration > 0 && t.duration < s.min_duration) || (s.max_duration > 0 && t.duration
            > s.max_duration) {
            return Verdict::Duration;
        }
        let diff = s.max_bpm_diff as i32;
        let b = t.bpm as i32;
        if diff > 0 && b != 0 && self.seed_bpm != 0 && (b - self.seed_bpm as i32 > diff
            || self.seed_bpm as i32 - b > diff) {
            return Verdict::Bpm;
        }
        if contains_str(&self.titles, &t.title) {
            return Verdict::RepeatTitle;
        }
        if s.filter_genre && filter_genre(&t.genres, &self.acceptable, &self.grouped) {
            return Verdict::Genre;
        }
        if s.filter_xmas {
            let tag = String::from_str("christmas");
            if contains_str(&t.genres, &tag) {
                return Verdict::Christmas;
            }
        }
        self.chosen.push(t.file.clone());
        insert_str(&mut self.titles, t.title.clone());
        Verdict::Accepted
    }

    /// The files chosen, in the order the index gave them, at most `count`.
    pub fn finish(self) -> (r: Vec<String>)
        ensures
            r@.len() <= self@.settings.count,
            r@ == (if self@.chosen.len() <= self@.settings.count {
                self@.chosen
            } else {
                self@.chosen.subrange(0, self@.settings.count as int)
            }),
    {
        let mut chosen = self.chosen;
        chosen.truncate(self.settings.count);
        chosen
    }
}

} // verus!
