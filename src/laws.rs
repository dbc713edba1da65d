//! What holds of every mix: proved over the model of the mix engine.

use vstd::prelude::*;
use crate::track::Track;
use crate::mixer::{
    verdict, Verdict, after,
    lemma_chosen_ids_distinct, final_pool, min_count, mix_result, model_wf, take, Entry,
    MixerModel,
};
use crate::ordering::{
    entries_within, ids_distinct, lemma_sort_props, sort_by_score, sorted_by_score,
};

verus! {

proof fn lemma_take_props(s: Seq<Entry>, n: int)
    requires
        n >= 0,
    ensures
        take(s, n).len() <= n,
        take(s, n).len() <= s.len(),
        forall|i: int| 0 <= i < take(s, n).len() ==> #[trigger] take(s, n)[i] == s[i],
{
}

/// The list that a request returns holds at most `count` tracks.
pub proof fn lemma_result_within_count(m: MixerModel)
    ensures
        mix_result(m).len() <= m.settings.count,
{
}

/// Without shuffling, no two tracks of the result share an id.
pub proof fn lemma_result_ids_distinct(m: MixerModel)
    requires
        model_wf(m),
    ensures
        ids_distinct(mix_result(m)),
{
    lemma_chosen_ids_distinct(m);
    let pool = final_pool(m);
    if !m.forest && m.chosen.len() < min_count(m.settings.count as int) {
        let sf = sort_by_score(m.filtered);
        lemma_sort_props(m.filtered);
        let n = min_count(m.settings.count as int) - m.chosen.len();
        let extra = take(sf, n);
        lemma_take_props(sf, n);
        let c = m.chosen.len() as int;
        assert(pool == m.chosen + extra);
        assert forall|i: int, j: int| 0 <= i < j < pool.len() implies pool[i].id != pool[j].id by {
            if j < c {
                assert(pool[i] == m.chosen[i]);
                assert(pool[j] == m.chosen[j]);
            } else if i < c {
                assert(pool[i] == m.chosen[i]);
                assert(pool[j] == sf[j - c]);
                assert(m.filtered.contains(sf[j - c]));
                let q = choose|q: int| 0 <= q < m.filtered.len() && m.filtered[q] == sf[j - c];
            } else {
                assert(pool[i] == sf[i - c]);
                assert(pool[j] == sf[j - c]);
            }
        }
    }
    lemma_sort_props(pool);
    lemma_take_props(sort_by_score(pool), m.settings.count as int);
}

/// The result is ordered by ascending score.
pub proof fn lemma_result_sorted(m: MixerModel)
    ensures
        sorted_by_score(mix_result(m)),
{
    lemma_sort_props(final_pool(m));
    lemma_take_props(sort_by_score(final_pool(m)), m.settings.count as int);
}

/// With an artist window, the chosen tracks have distinct artists, and none
/// has the artist of a protected previous track.
pub proof fn lemma_chosen_artists_unique(m: MixerModel)
    requires
        model_wf(m),
        m.settings.no_repeat_artist > 0,
    ensures
        forall|k: int, l: int|
            0 <= k < l < m.chosen.len() ==> m.chosen[k].artist@ != m.chosen[l].artist@,
        forall|k: int|
            0 <= k < m.chosen.len() ==> !m.protected_artists.contains(#[trigger] m.chosen[k].artist@),
{
}

/// The chosen tracks come from distinct albums.
pub proof fn lemma_chosen_albums_unique(m: MixerModel)
    requires
        model_wf(m),
    ensures
        forall|k: int, l: int|
            0 <= k < l < m.chosen.len() ==> m.chosen[k].album@ != m.chosen[l].album@,
{
}

proof fn lemma_result_from_chosen(m: MixerModel)
    requires
        model_wf(m),
        m.forest || m.chosen.len() >= min_count(m.settings.count as int),
    ensures
        ids_distinct(mix_result(m)),
        forall|i: int| 0 <= i < mix_result(m).len() ==> m.chosen.contains(#[trigger] mix_result(m)[i]),
{
    lemma_result_ids_distinct(m);
    let pool = final_pool(m);
    assert(pool == m.chosen);
    lemma_sort_props(pool);
    let sp = sort_by_score(pool);
    lemma_take_props(sp, m.settings.count as int);
    let r = mix_result(m);
    assert forall|i: int| 0 <= i < r.len() implies m.chosen.contains(#[trigger] r[i]) by {
        assert(r[i] == sp[i]);
        assert(entries_within(sp, pool));
        assert(pool.contains(sp[i]));
    }
}

/// Where nothing had to be topped up from the filtered tracks, the tracks of
/// the result have distinct albums and (with an artist window) distinct
/// artists, none of a protected previous track.
pub proof fn lemma_result_unique(m: MixerModel)
    requires
        model_wf(m),
        m.forest || m.chosen.len() >= min_count(m.settings.count as int),
    ensures
        forall|i: int, j: int|
            0 <= i < j < mix_result(m).len() ==> mix_result(m)[i].album@ != mix_result(m)[j].album@,
        m.settings.no_repeat_artist > 0 ==> forall|i: int, j: int|
            0 <= i < j < mix_result(m).len() ==> mix_result(m)[i].artist@ != mix_result(
                m,
            )[j].artist@,
{
    lemma_result_from_chosen(m);
    let r = mix_result(m);
    assert forall|i: int, j: int| 0 <= i < j < r.len() implies r[i].album@ != r[j].album@ by {
        assert(m.chosen.contains(r[i]));
        assert(m.chosen.contains(r[j]));
        let a = choose|a: int| 0 <= a < m.chosen.len() && m.chosen[a] == r[i];
        let b = choose|b: int| 0 <= b < m.chosen.len() && m.chosen[b] == r[j];
        assert(r[i].id != r[j].id);
        if a > b {
            assert(m.chosen[b].album@ != m.chosen[a].album@);
        }
    }
    if m.settings.no_repeat_artist > 0 {
        assert forall|i: int, j: int| 0 <= i < j < r.len() implies r[i].artist@ != r[j].artist@ by {
            assert(m.chosen.contains(r[i]));
            assert(m.chosen.contains(r[j]));
            let a = choose|a: int| 0 <= a < m.chosen.len() && m.chosen[a] == r[i];
            let b = choose|b: int| 0 <= b < m.chosen.len() && m.chosen[b] == r[j];
            assert(r[i].id != r[j].id);
            if a > b {
                assert(m.chosen[b].artist@ != m.chosen[a].artist@);
            }
        }
    }
}

/// Every alternate kept for an artist's slot is by the artist of that slot,
/// so drawing one for the slot when shuffling keeps the slot's artist.
pub proof fn lemma_alternates_share_artist(m: MixerModel)
    requires
        model_wf(m),
    ensures
        forall|k: int, j: int|
            0 <= k < m.alternates.len() && 0 <= j < m.alternates[k].tracks.len() ==> 0
                <= m.alternates[k].pos < m.chosen.len() && (#[trigger] m.alternates[k].tracks[j]).artist@
                == m.chosen[m.alternates[k].pos].artist@,
{
    assert forall|k: int, j: int|
        0 <= k < m.alternates.len() && 0 <= j < m.alternates[k].tracks.len() implies 0
            <= m.alternates[k].pos < m.chosen.len() && (#[trigger] m.alternates[k].tracks[j]).artist@
            == m.chosen[m.alternates[k].pos].artist@ by {
        assert(0 <= m.alternates[k].pos < m.chosen.len());
    }
}

/// In forest mode a candidate is held to the band of all seeds' tempos,
/// not to one seed's: the verdict does not depend on the current seed, and
/// an accepted track with a known (nonzero) tempo lies within the band
/// widened by the allowed difference on both sides (when that difference is
/// positive and the band's ends are known). It then joins the chosen tracks.
pub proof fn lemma_forest_band(m: MixerModel, t: Track, score: u64)
    requires
        m.forest,
        verdict(m, t) == Verdict::Accepted,
    ensures
        forall|b: int| #[trigger] verdict(MixerModel { seed_bpm: b, ..m }, t) == verdict(m, t),
        m.settings.max_bpm_diff > 0 && m.min_bpm != 0 && m.max_bpm != 0 && t.bpm != 0 ==> m.min_bpm
            - m.settings.max_bpm_diff <= t.bpm <= m.max_bpm + m.settings.max_bpm_diff,
        after(m, t, score).chosen.len() == m.chosen.len() + 1,
        after(m, t, score).chosen.last().id == t.id,
{
}

} // verus!
