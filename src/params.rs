//! The parameters of a request and the settings derived from them.

use vstd::prelude::*;
use std::collections::HashSet;

verus! {

broadcast use vstd::std_specs::hash::group_hash_axioms;

/// Fewest tracks a request may ask for.
pub const MIN_COUNT: usize = 1;

/// Most tracks a request may ask for.
pub const MAX_COUNT: usize = 50;

/// Tracks asked for when the request names no count.
pub const DEFAULT_COUNT: usize = 5;

/// Fewest neighbours fetched per seed from the index.
pub const MIN_NUM_SIM: usize = 5000;

/// Seeds needed, beyond this many, for the anomaly ranking.
pub const MIN_FOR_FOREST: usize = 4;

/// The parameters of a mix request.
pub struct MixParams {
    pub count: Option<u16>,
    pub filtergenre: Option<u16>,
    pub filterxmas: Option<u16>,
    pub min: Option<u32>,
    pub max: Option<u32>,
    pub maxbpmdiff: Option<i16>,
    pub tracks: Vec<String>,
    pub previous: Option<Vec<String>>,
    pub shuffle: Option<u16>,
    pub norepart: Option<u16>,
    pub norepalb: Option<u16>,
    pub genregroups: Vec<Vec<String>>,
    pub forest: Option<u16>,
}

/// The parameters of a list request.
pub struct ListParams {
    pub count: Option<u16>,
    pub filtergenre: Option<u16>,
    pub filterxmas: Option<u16>,
    pub min: Option<u32>,
    pub max: Option<u32>,
    pub maxbpmdiff: Option<i16>,
    pub track: String,
    pub genregroups: Vec<Vec<String>>,
    pub byartist: i16,
}

/// The number of tracks a request gets: its count, 5 by default, clamped to
/// `[1, 50]`.
pub open spec fn clamp_count_spec(count: Option<u16>) -> int {
    let c: int = match count {
        Some(c) => c as int,
        None => DEFAULT_COUNT as int,
    };
    if c < MIN_COUNT {
        MIN_COUNT as int
    } else if c > MAX_COUNT {
        MAX_COUNT as int
    } else {
        c
    }
}

/// The number of tracks a request gets.
pub fn clamp_count(count: Option<u16>) -> (r: usize)
    ensures
        r == clamp_count_spec(count),
        MIN_COUNT <= r <= MAX_COUNT,
{
    let c: usize = match count {
        Some(c) => c as usize,
        None => DEFAULT_COUNT,
    };
    if c < MIN_COUNT {
        MIN_COUNT
    } else if c > MAX_COUNT {
        MAX_COUNT
    } else {
        c
    }
}

/// How many similar tracks to gather before the final cut: five times the
/// count when shuffling a count under 20, else the count.
pub open spec fn similarity_count_spec(count: int, shuffle: bool) -> int {
    if shuffle && count < 20 {
        count * 5
    } else {
        count
    }
}

/// How many similar tracks to gather before the final cut.
pub fn similarity_count(count: usize, shuffle: bool) -> (r: usize)
    requires
        count <= MAX_COUNT,
    ensures
        r == similarity_count_spec(count as int, shuffle),
{
    if shuffle && count < 20 {
        count * 5
    } else {
        count
    }
}

/// How many tracks each seed may contribute: three times the similarity
/// count when that is under 15, else the similarity count.
pub open spec fn tracks_per_seed_spec(similarity_count: int) -> int {
    if similarity_count < 15 {
        similarity_count * 3
    } else {
        similarity_count
    }
}

/// How many tracks each seed may contribute.
pub fn tracks_per_seed(similarity_count: usize) -> (r: usize)
    ensures
        r == tracks_per_seed_spec(similarity_count as int),
{
    if similarity_count < 15 {
        similarity_count * 3
    } else {
        similarity_count
    }
}

/// How many neighbours to fetch for each seed: `count * seeds * 50`, and at
/// least 5000.
pub open spec fn num_sim_spec(count: int, seed_count: int) -> int {
    if count * seed_count * 50 < MIN_NUM_SIM {
        MIN_NUM_SIM as int
    } else {
        count * seed_count * 50
    }
}

/// How many neighbours to fetch for each seed.
pub fn num_sim(count: usize, seed_count: usize) -> (r: usize)
    requires
        count * seed_count * 50 <= usize::MAX,
    ensures
        r == num_sim_spec(count as int, seed_count as int),
        r >= MIN_NUM_SIM,
{
    assert(count * seed_count <= count * seed_count * 50) by (nonlinear_arith)
        requires
            count * seed_count * 50 <= usize::MAX,
    ;
    let n = count * seed_count * 50;
    if n < MIN_NUM_SIM {
        MIN_NUM_SIM
    } else {
        n
    }
}

/// Whether a request is served by the anomaly ranking: it asks for it, and
/// more than four seeds resolved, with more than four feature vectors.
pub open spec fn use_forest_spec(forest: Option<u16>, seeds: int, seeds_with_metrics: int) -> bool {
    let flag: int = match forest {
        Some(f) => f as int,
        None => 0,
    };
    flag > 0 && seeds > MIN_FOR_FOREST && seeds_with_metrics > MIN_FOR_FOREST
}

/// Whether a request is served by the anomaly ranking.
pub fn use_forest(forest: Option<u16>, seeds: usize, seeds_with_metrics: usize) -> (r: bool)
    ensures
        r == use_forest_spec(forest, seeds as int, seeds_with_metrics as int),
{
    let flag: u16 = match forest {
        Some(f) => f,
        None => 0,
    };
    flag > 0 && seeds > MIN_FOR_FOREST && seeds_with_metrics > MIN_FOR_FOREST
}

/// How many neighbours of each seed go into the pool that the anomaly
/// ranking orders: `10000 / seeds`, at most 1000.
pub fn forest_pool_per_seed(seed_count: usize) -> (r: usize)
    requires
        seed_count > 0,
    ensures
        r == if 10000int / (seed_count as int) < 1000 {
            10000int / (seed_count as int)
        } else {
            1000int
        },
{
    let n = 10000 / seed_count;
    if n < 1000 {
        n
    } else {
        1000
    }
}

/// Whether the holiday filter is on: the request asks for it (`1`) and the
/// month is not December.
pub open spec fn holiday_filter_spec(filterxmas: Option<u16>, month: u32) -> bool {
    filterxmas == Some(1u16) && month != 12
}

/// Whether the holiday filter is on in `month` (1 to 12).
pub fn holiday_filter(filterxmas: Option<u16>, month: u32) -> (r: bool)
    ensures
        r == holiday_filter_spec(filterxmas, month),
{
    let requested: u16 = match filterxmas {
        Some(f) => f,
        None => 0,
    };
    requested == 1 && month != 12
}

/// Relies on `chrono::Local::now` and `Datelike::month`: the local month,
/// numbered 1 to 12.
#[verifier::external_body]
pub(crate) fn current_month() -> (r: u32)
    ensures
        1 <= r <= 12,
{
    chrono::Datelike::month(&chrono::Local::now())
}

/// The flag of an optional switch: set when it is `1`.
pub open spec fn flag_on(o: Option<u16>) -> bool {
    o == Some(1u16)
}

/// The settings of a mix request, with defaults applied.
#[derive(Clone, Copy)]
pub struct MixSettings {
    /// Tracks returned at most, in `[1, 50]`.
    pub count: usize,
    pub filter_genre: bool,
    pub filter_xmas: bool,
    /// Shortest duration accepted, 0 for none.
    pub min_duration: u32,
    /// Longest duration accepted, 0 for none.
    pub max_duration: u32,
    /// Largest BPM difference accepted, 0 (or less) for any.
    pub max_bpm_diff: i16,
    pub shuffle: bool,
    /// How many of the most recent previous tracks protect their artist.
    pub no_repeat_artist: u16,
    /// How many of the most recent previous tracks protect their album.
    pub no_repeat_album: u16,
    /// Similar tracks gathered before the final cut.
    pub similarity_count: usize,
}

/// What `MixSettings::from_params` makes of a request in `month`.
pub open spec fn settings_of(p: MixParams, month: u32) -> MixSettings {
    let count = clamp_count_spec(p.count);
    MixSettings {
        count: count as usize,
        filter_genre: flag_on(p.filtergenre),
        filter_xmas: holiday_filter_spec(p.filterxmas, month),
        min_duration: match p.min {
            Some(v) => v,
            None => 0u32,
        },
        max_duration: match p.max {
            Some(v) => v,
            None => 0u32,
        },
        max_bpm_diff: match p.maxbpmdiff {
            Some(v) => v,
            None => 0i16,
        },
        shuffle: flag_on(p.shuffle),
        no_repeat_artist: match p.norepart {
            Some(v) => v,
            None => 0u16,
        },
        no_repeat_album: match p.norepalb {
            Some(v) => v,
            None => 0u16,
        },
        similarity_count: similarity_count_spec(count, flag_on(p.shuffle)) as usize,
    }
}

/// The settings are those a request can give.
pub open spec fn settings_valid(s: MixSettings) -> bool {
    &&& MIN_COUNT <= s.count <= MAX_COUNT
    &&& s.similarity_count == similarity_count_spec(s.count as int, s.shuffle)
}

fn flag(o: Option<u16>) -> (r: bool)
    ensures
        r == flag_on(o),
{
    match o {
        Some(v) => v == 1,
        None => false,
    }
}

impl MixSettings {
    /// The settings of a request served in `month` (1 to 12).
    pub fn from_params(p: &MixParams, month: u32) -> (r: MixSettings)
        ensures
            r == settings_of(*p, month),
            settings_valid(r),
    {
        let count = clamp_count(p.count);
        let shuffle = flag(p.shuffle);
        MixSettings {
            count,
            filter_genre: flag(p.filtergenre),
            filter_xmas: holiday_filter(p.filterxmas, month),
            min_duration: match p.min {
                Some(v) => v,
                None => 0,
            },
            max_duration: match p.max {
                Some(v) => v,
                None => 0,
            },
            max_bpm_diff: match p.maxbpmdiff {
                Some(v) => v,
                None => 0,
            },
            shuffle,
            no_repeat_artist: match p.norepart {
                Some(v) => v,
                None => 0,
            },
            no_repeat_album: match p.norepalb {
                Some(v) => v,
                None => 0,
            },
            similarity_count: similarity_count(count, shuffle),
        }
    }

    /// The settings of a request served now.
    pub fn for_now(p: &MixParams) -> (r: MixSettings)
        ensures
            settings_valid(r),
            exists|month: u32| 1 <= month <= 12 && r == settings_of(*p, month),
    {
        let month = current_month();
        MixSettings::from_params(p, month)
    }
}

/// The holiday filter is off in December, whatever the request asks.
pub proof fn lemma_no_holiday_filter_in_december(p: MixParams)
    ensures
        !settings_of(p, 12).filter_xmas,
{
}

/// The ids in order of first appearance, each once.
pub open spec fn first_occurrences(s: Seq<u64>) -> Seq<u64>
    decreases s.len(),
{
    if s.len() == 0 {
        s
    } else if first_occurrences(s.drop_last()).contains(s.last()) {
        first_occurrences(s.drop_last())
    } else {
        first_occurrences(s.drop_last()).push(s.last())
    }
}

/// The neighbours of all seeds that make up the pool the anomaly ranking
/// orders: each id once, where it first appears.
pub fn unique_ids(ids: &Vec<u64>) -> (r: Vec<u64>)
    ensures
        r@ == first_occurrences(ids@),
        r@.no_duplicates(),
{
    let mut seen: HashSet<u64> = HashSet::new();
    let mut out: Vec<u64> = Vec::new();
    let mut i: usize = 0;
    proof {
        assert(ids@.subrange(0, 0) =~= Seq::<u64>::empty());
        assert(seen@ =~= out@.to_set());
    }
    while i < ids.len()
        invariant
            i <= ids@.len(),
            out@ == first_occurrences(ids@.subrange(0, i as int)),
            out@.no_duplicates(),
            seen@ == out@.to_set(),
        decreases ids@.len() - i,
    {
        let id = ids[i];
        proof {
            let s1 = ids@.subrange(0, i as int + 1);
            assert(s1.drop_last() =~= ids@.subrange(0, i as int));
            assert(s1.last() == id);
            assert(out@.contains(id) == out@.to_set().contains(id));
        }
        if !seen.contains(&id) {
            let ghost before = out@;
            out.push(id);
            seen.insert(id);
            proof {
                assert(out@.to_set() =~= before.to_set().insert(id)) by {
                    assert forall|x: u64| #[trigger] out@.to_set().contains(x) == before.to_set().insert(id).contains(x) by {
                        if out@.contains(x) {
                            let k = choose|k: int| 0 <= k < out@.len() && out@[k] == x;
                            if k < before.len() {
                                assert(before[k] == x);
                            }
                        }
                        if before.contains(x) {
                            let k = choose|k: int| 0 <= k < before.len() && before[k] == x;
                            assert(out@[k] == x);
                        }
                        if x == id {
                            assert(out@[before.len() as int] == x);
                        }
                    }
                }
                assert forall|a: int, b: int| 0 <= a < b < out@.len() implies out@[a] != out@[b] by {
                    if b == before.len() {
                        assert(before.contains(before[a]));
                    }
                }
            }
        }
        i = i + 1;
    }
    proof {
        assert(ids@.subrange(0, ids@.len() as int) =~= ids@);
    }
    out
}

} // verus!
