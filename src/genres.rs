//! Genre groups: patterns resolved against the known genres, the groups a
//! track belongs to, and the genre filter.

use vstd::prelude::*;
use crate::text::{contains_str, distinct, insert_str, lower_of, str_set, to_lower};

verus! {

/// Whether globset builds a case-insensitive glob set from `pattern`.
pub uninterp spec fn glob_valid(pattern: Seq<char>) -> bool;

/// Whether the case-insensitive glob `pattern` matches `text`, as globset
/// decides.
pub uninterp spec fn glob_matches(pattern: Seq<char>, text: Seq<char>) -> bool;

/// Relies on globset's `GlobBuilder::build` (with `case_insensitive`) and
/// `GlobSetBuilder::build`: both return an error, rather than panic, for a
/// pattern that does not parse or whose regex does not compile.
#[verifier::external_body]
fn glob_parses(pattern: &str) -> (r: bool)
    ensures
        r == glob_valid(pattern@),
{
    match globset::GlobBuilder::new(pattern).case_insensitive(true).build() {
        Ok(glob) => globset::GlobSetBuilder::new().add(glob).build().is_ok(),
        Err(_) => false,
    }
}

/// Relies on `globset::GlobSet::is_match`, on the set built as in
/// `glob_parses` from a pattern that it accepts.
#[verifier::external_body]
fn glob_is_match(pattern: &str, text: &str) -> (r: bool)
    requires
        glob_valid(pattern@),
    ensures
        r == glob_matches(pattern@, text@),
{
    let built = globset::GlobBuilder::new(pattern).case_insensitive(true).build().map(
        |glob| globset::GlobSetBuilder::new().add(glob).build(),
    );
    match built {
        Ok(Ok(set)) => set.is_match(text),
        _ => false,
    }
}

/// The strings of `known` whose flag in `matched` is set.
pub open spec fn flagged(known: Seq<String>, matched: Seq<bool>) -> Set<Seq<char>> {
    Set::new(
        |g: Seq<char>|
            exists|i: int|
                0 <= i < known.len() && i < matched.len() && matched[i] && #[trigger] known[i]@
                    == g,
    )
}

/// The known genres that a pattern matched, given whether it matched each
/// one (a missing flag counts as unset); each once.
pub fn select_matching(known: &Vec<String>, matched: &Vec<bool>) -> (r: Vec<String>)
    ensures
        distinct(r@),
        str_set(r@) == flagged(known@, matched@),
{
    let mut out: Vec<String> = Vec::new();
    let mut i: usize = 0;
    proof {
        assert(str_set(out@) =~= flagged(known@.subrange(0, 0), matched@));
    }
    while i < known.len()
        invariant
            i <= known@.len(),
            distinct(out@),
            str_set(out@) == flagged(known@.subrange(0, i as int), matched@),
        decreases known@.len() - i,
    {
        let ghost before = str_set(out@);
        if i < matched.len() && matched[i] {
            insert_str(&mut out, known[i].clone());
        }
        proof {
            let k0 = known@.subrange(0, i as int);
            let k1 = known@.subrange(0, i as int + 1);
            assert forall|g: Seq<char>| #[trigger] flagged(k1, matched@).contains(g) == str_set(
                out@,
            ).contains(g) by {
                if flagged(k1, matched@).contains(g) {
                    let q = choose|q: int|
                        0 <= q < k1.len() && q < matched@.len() && matched@[q] && #[trigger] k1[q]@
                            == g;
                    if q < i {
                        assert(k0[q]@ == g);
                        assert(flagged(k0, matched@).contains(g));
                    }
                }
                if flagged(k0, matched@).contains(g) {
                    let q = choose|q: int|
                        0 <= q < k0.len() && q < matched@.len() && matched@[q] && #[trigger] k0[q]@
                            == g;
                    assert(k1[q]@ == g);
                }
                if i < matched@.len() && matched@[i as int] && g == known@[i as int]@ {
                    assert(k1[i as int]@ == g);
                }
            }
            assert(flagged(k1, matched@) =~= str_set(out@));
        }
        i = i + 1;
    }
    proof {
        assert(known@.subrange(0, known@.len() as int) =~= known@);
    }
    out
}

/// Every pattern of every group, in lower case, is a glob.
pub open spec fn patterns_valid(groups: Seq<Vec<String>>) -> bool {
    forall|i: int, j: int|
        0 <= i < groups.len() && 0 <= j < groups[i]@.len() ==> glob_valid(
            lower_of(#[trigger] groups[i]@[j]@),
        )
}

/// The known genres that some pattern of the group, in lower case, matches.
pub open spec fn expand_group(group: Seq<String>, known: Set<Seq<char>>) -> Set<Seq<char>> {
    Set::new(
        |g: Seq<char>|
            known.contains(g) && exists|j: int|
                0 <= j < group.len() && glob_matches(lower_of(#[trigger] group[j]@), g),
    )
}

/// Resolves each group's patterns (case-insensitive globs) against the
/// known genres. `None` when a pattern is not a valid glob.
pub fn expand_globbed_genres(genregroups: &Vec<Vec<String>>, all_db_genres: &Vec<String>) -> (r:
    Option<Vec<Vec<String>>>)
    ensures
        r.is_some() == patterns_valid(genregroups@),
        r.is_some() ==> {
            let e = r.unwrap()@;
            &&& e.len() == genregroups@.len()
            &&& forall|i: int|
                0 <= i < e.len() ==> distinct(#[trigger] e[i]@) && str_set(e[i]@) == expand_group(
                    genregroups@[i]@,
                    str_set(all_db_genres@),
                )
        },
{
    let mut expanded: Vec<Vec<String>> = Vec::new();
    let mut i: usize = 0;
    while i < genregroups.len()
        invariant
            i <= genregroups@.len(),
            expanded@.len() == i,
            forall|a: int, b: int|
                0 <= a < i && 0 <= b < genregroups@[a]@.len() ==> glob_valid(
                    lower_of(#[trigger] genregroups@[a]@[b]@),
                ),
            forall|a: int|
                0 <= a < i ==> distinct(#[trigger] expanded@[a]@) && str_set(expanded@[a]@)
                    == expand_group(genregroups@[a]@, str_set(all_db_genres@)),
        decreases genregroups@.len() - i,
    {
        let group = &genregroups[i];
        let mut gset: Vec<String> = Vec::new();
        let mut j: usize = 0;
        while j < group.len()
            invariant
                i < genregroups@.len(),
                group == genregroups@[i as int],
                j <= group@.len(),
                distinct(gset@),
                forall|b: int| 0 <= b < j ==> glob_valid(lower_of(#[trigger] group@[b]@)),
                str_set(gset@) == expand_group(group@.subrange(0, j as int), str_set(all_db_genres@)),
            decreases group@.len() - j,
        {
            let lgenre = to_lower(group[j].as_str());
            if !glob_parses(lgenre.as_str()) {
                proof {
                    assert(!glob_valid(lower_of(genregroups@[i as int]@[j as int]@)));
                }
                return None;
            }
            let mut flags: Vec<bool> = Vec::new();
            let mut k: usize = 0;
            while k < all_db_genres.len()
                invariant
                    glob_valid(lgenre@),
                    k <= all_db_genres@.len(),
                    flags@.len() == k,
                    forall|q: int|
                        0 <= q < k ==> #[trigger] flags@[q] == glob_matches(
                            lgenre@,
                            all_db_genres@[q]@,
                        ),
                decreases all_db_genres@.len() - k,
            {
                flags.push(glob_is_match(lgenre.as_str(), all_db_genres[k].as_str()));
                k = k + 1;
            }
            let picked = select_matching(all_db_genres, &flags);
            proof {
                assert forall|g: Seq<char>| #[trigger] str_set(picked@).contains(g) == (str_set(
                    all_db_genres@,
                ).contains(g) && glob_matches(lgenre@, g)) by {
                    if str_set(picked@).contains(g) {
                        let q = choose|q: int|
                            0 <= q < all_db_genres@.len() && q < flags@.len() && flags@[q]
                                && #[trigger] all_db_genres@[q]@ == g;
                        assert(str_set(all_db_genres@).contains(g));
                    }
                    if str_set(all_db_genres@).contains(g) && glob_matches(lgenre@, g) {
                        let q = choose|q: int|
                            0 <= q < all_db_genres@.len() && #[trigger] all_db_genres@[q]@ == g;
                        assert(flags@[q]);
                        assert(flagged(all_db_genres@, flags@).contains(g));
                    }
                }
            }
            let ghost before = str_set(gset@);
            crate::text::extend_strs(&mut gset, &picked);
            proof {
                let g0 = group@.subrange(0, j as int);
                let g1 = group@.subrange(0, j as int + 1);
                let known = str_set(all_db_genres@);
                assert forall|g: Seq<char>| #[trigger] expand_group(g1, known).contains(g) == str_set(
                    gset@,
                ).contains(g) by {
                    if expand_group(g1, known).contains(g) {
                        let m = choose|m: int|
                            0 <= m < g1.len() && glob_matches(lower_of(#[trigger] g1[m]@), g);
                        if m < j {
                            assert(g0[m] == g1[m]);
                            assert(expand_group(g0, known).contains(g));
                        }
                    }
                    if expand_group(g0, known).contains(g) {
                        let m = choose|m: int|
                            0 <= m < g0.len() && glob_matches(lower_of(#[trigger] g0[m]@), g);
                        assert(g1[m] == g0[m]);
                        assert(expand_group(g1, known).contains(g));
                    }
                    if known.contains(g) && glob_matches(lgenre@, g) {
                        assert(g1[j as int] == group@[j as int]);
                        assert(expand_group(g1, known).contains(g));
                    }
                }
                assert(expand_group(g1, known) =~= str_set(gset@));
            }
            j = j + 1;
        }
        proof {
            assert(group@.subrange(0, group@.len() as int) =~= group@);
        }
        expanded.push(gset);
        i = i + 1;
    }
    Some(expanded)
}

/// Whether every string of `a` stands in `b`.
pub fn is_subset(a: &Vec<String>, b: &Vec<String>) -> (r: bool)
    ensures
        r == str_set(a@).subset_of(str_set(b@)),
{
    let mut i: usize = 0;
    while i < a.len()
        invariant
            i <= a@.len(),
            forall|k: int| 0 <= k < i ==> str_set(b@).contains(#[trigger] a@[k]@),
        decreases a@.len() - i,
    {
        if !contains_str(b, &a[i]) {
            proof {
                assert(str_set(a@).contains(a@[i as int]@));
            }
            return false;
        }
        i = i + 1;
    }
    proof {
        assert forall|x: Seq<char>| str_set(a@).contains(x) implies str_set(b@).contains(x) by {
            let k = choose|k: int| 0 <= k < a@.len() && #[trigger] a@[k]@ == x;
        }
    }
    true
}

/// Whether `a` and `b` have a string in common.
pub fn intersects(a: &Vec<String>, b: &Vec<String>) -> (r: bool)
    ensures
        r == exists|g: Seq<char>| str_set(a@).contains(g) && str_set(b@).contains(g),
{
    let mut i: usize = 0;
    while i < a.len()
        invariant
            i <= a@.len(),
            forall|k: int| 0 <= k < i ==> !str_set(b@).contains(#[trigger] a@[k]@),
        decreases a@.len() - i,
    {
        if contains_str(b, &a[i]) {
            proof {
                assert(str_set(a@).contains(a@[i as int]@));
            }
            return true;
        }
        i = i + 1;
    }
    proof {
        assert forall|g: Seq<char>| str_set(a@).contains(g) implies !str_set(b@).contains(g) by {
            let k = choose|k: int| 0 <= k < a@.len() && #[trigger] a@[k]@ == g;
        }
    }
    false
}

/// A list is empty exactly when the set of its strings is.
pub proof fn lemma_empty_str_set(v: Seq<String>)
    ensures
        (v.len() == 0) == str_set(v).is_empty(),
{
    if v.len() > 0 {
        assert(str_set(v).contains(v[0]@));
    } else {
        assert(str_set(v) =~= Set::<Seq<char>>::empty());
    }
}

/// The genres of every group that holds all of the track's genres.
pub open spec fn matched_genres(groups: Seq<Vec<String>>, track: Set<Seq<char>>) -> Set<Seq<char>> {
    Set::new(
        |g: Seq<char>|
            exists|i: int|
                0 <= i < groups.len() && track.subset_of(str_set(#[trigger] groups[i]@))
                    && str_set(groups[i]@).contains(g),
    )
}

/// The genres that stand in some group.
pub open spec fn grouped_genres(groups: Seq<Vec<String>>) -> Set<Seq<char>> {
    Set::new(
        |g: Seq<char>| exists|i: int| 0 <= i < groups.len() && str_set(#[trigger] groups[i]@).contains(g),
    )
}

/// Whether the genre filter turns a candidate away: never one without
/// genres; where the seeds matched no group, one that is in some group;
/// otherwise one that shares no genre with the seeds' groups.
pub open spec fn genre_rejects(
    track: Set<Seq<char>>,
    acceptable: Set<Seq<char>>,
    grouped: Set<Seq<char>>,
) -> bool {
    if track.is_empty() {
        false
    } else if acceptable.is_empty() {
        exists|g: Seq<char>| track.contains(g) && grouped.contains(g)
    } else {
        !exists|g: Seq<char>| track.contains(g) && acceptable.contains(g)
    }
}

/// The genres of every group of which the track's genres are a subset,
/// each once.
pub fn get_genres(genregroups: &Vec<Vec<String>>, track_genres: &Vec<String>) -> (r: Vec<String>)
    ensures
        distinct(r@),
        str_set(r@) == matched_genres(genregroups@, str_set(track_genres@)),
{
    let mut genres: Vec<String> = Vec::new();
    let ghost t = str_set(track_genres@);
    let mut i: usize = 0;
    while i < genregroups.len()
        invariant
            i <= genregroups@.len(),
            t == str_set(track_genres@),
            distinct(genres@),
            str_set(genres@) == matched_genres(genregroups@.subrange(0, i as int), t),
        decreases genregroups@.len() - i,
    {
        let is_member = is_subset(track_genres, &genregroups[i]);
        if is_member {
            crate::text::extend_strs(&mut genres, &genregroups[i]);
        }
        proof {
            let g0 = genregroups@.subrange(0, i as int);
            let g1 = genregroups@.subrange(0, i as int + 1);
            assert forall|g: Seq<char>| #[trigger] matched_genres(g1, t).contains(g) == str_set(
                genres@,
            ).contains(g) by {
                if matched_genres(g1, t).contains(g) {
                    let m = choose|m: int|
                        0 <= m < g1.len() && t.subset_of(str_set(#[trigger] g1[m]@)) && str_set(
                            g1[m]@,
                        ).contains(g);
                    if m < i {
                        assert(g0[m] == g1[m]);
                        assert(matched_genres(g0, t).contains(g));
                    } else {
                        assert(g1[m] == genregroups@[i as int]);
                        assert(is_member);
                    }
                }
                if matched_genres(g0, t).contains(g) {
                    let m = choose|m: int|
                        0 <= m < g0.len() && t.subset_of(str_set(#[trigger] g0[m]@)) && str_set(
                            g0[m]@,
                        ).contains(g);
                    assert(g1[m] == g0[m]);
                }
                if is_member && str_set(genregroups@[i as int]@).contains(g) {
                    assert(g1[i as int] == genregroups@[i as int]);
                }
            }
            assert(matched_genres(g1, t) =~= str_set(genres@));
        }
        i = i + 1;
    }
    proof {
        assert(genregroups@.subrange(0, genregroups@.len() as int) =~= genregroups@);
    }
    genres
}

/// Every genre that stands in some group, each once.
pub fn all_group_genres(genregroups: &Vec<Vec<String>>) -> (r: Vec<String>)
    ensures
        distinct(r@),
        str_set(r@) == grouped_genres(genregroups@),
{
    let mut genres: Vec<String> = Vec::new();
    let mut i: usize = 0;
    while i < genregroups.len()
        invariant
            i <= genregroups@.len(),
            distinct(genres@),
            str_set(genres@) == grouped_genres(genregroups@.subrange(0, i as int)),
        decreases genregroups@.len() - i,
    {
        crate::text::extend_strs(&mut genres, &genregroups[i]);
        proof {
            let g0 = genregroups@.subrange(0, i as int);
            let g1 = genregroups@.subrange(0, i as int + 1);
            assert forall|g: Seq<char>| #[trigger] grouped_genres(g1).contains(g) == str_set(
                genres@,
            ).contains(g) by {
                if grouped_genres(g1).contains(g) {
                    let m = choose|m: int| 0 <= m < g1.len() && str_set(#[trigger] g1[m]@).contains(g);
                    if m < i {
                        assert(g0[m] == g1[m]);
                        assert(grouped_genres(g0).contains(g));
                    }
                }
                if grouped_genres(g0).contains(g) {
                    let m = choose|m: int| 0 <= m < g0.len() && str_set(#[trigger] g0[m]@).contains(g);
                    assert(g1[m] == g0[m]);
                }
                if str_set(genregroups@[i as int]@).contains(g) {
                    assert(g1[i as int] == genregroups@[i as int]);
                }
            }
            assert(grouped_genres(g1) =~= str_set(genres@));
        }
        i = i + 1;
    }
    proof {
        assert(genregroups@.subrange(0, genregroups@.len() as int) =~= genregroups@);
    }
    genres
}

/// The genre filter: `true` when the candidate is turned away.
pub fn filter_genre(
    track_genres: &Vec<String>,
    acceptable_genres: &Vec<String>,
    all_genres_from_groups: &Vec<String>,
) -> (r: bool)
    ensures
        r == genre_rejects(
            str_set(track_genres@),
            str_set(acceptable_genres@),
            str_set(all_genres_from_groups@),
        ),
{
    proof {
        lemma_empty_str_set(track_genres@);
        lemma_empty_str_set(acceptable_genres@);
        lemma_empty_str_set(all_genres_from_groups@);
    }
    if track_genres.len() == 0 {
        false
    } else if acceptable_genres.len() == 0 {
        all_genres_from_groups.len() != 0 && intersects(track_genres, all_genres_from_groups)
    } else {
        !intersects(track_genres, acceptable_genres)
    }
}

} // verus!
