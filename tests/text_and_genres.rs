use blissmixer::genres::{
    all_group_genres, expand_globbed_genres, filter_genre, get_genres, select_matching,
};
use blissmixer::text::{collect_genre_names, parse_genres, split_chars, to_lines, trim};

fn strs(v: &[&str]) -> Vec<String> {
    v.iter().map(|s| s.to_string()).collect()
}

fn sorted(mut v: Vec<String>) -> Vec<String> {
    v.sort();
    v
}

#[test]
fn split_keeps_empty_pieces() {
    assert_eq!(split_chars("a;;b;", ';'), strs(&["a", "", "b", ""]));
    assert_eq!(split_chars("", ';'), strs(&[""]));
    assert_eq!(split_chars("solo", ';'), strs(&["solo"]));
}

#[test]
fn track_genres_are_trimmed_lowered_and_unique() {
    let g = parse_genres(" Rock ; JAZZ;;rock; Pop");
    assert_eq!(sorted(g), strs(&["jazz", "pop", "rock"]));
    assert!(parse_genres("").is_empty());
    assert!(parse_genres(" ; ").is_empty());
}

#[test]
fn known_genre_names_keep_their_case() {
    let tags = vec![Some("Rock; Jazz".to_string()), None, Some("Jazz;Blues ".to_string())];
    assert_eq!(sorted(collect_genre_names(&tags)), strs(&["Blues", "Jazz", "Rock"]));
}

#[test]
fn lines_end_with_newlines() {
    assert_eq!(to_lines(&strs(&["a.mp3", "b.mp3"])), "a.mp3\nb.mp3\n");
    assert_eq!(to_lines(&Vec::new()), "");
}

#[test]
fn glob_group_resolves_against_known_genres() {
    let known = strs(&["rock", "rock'n'roll", "jazz"]);
    let groups = vec![strs(&["rock*"])];
    let expanded = expand_globbed_genres(&groups, &known).unwrap();
    assert_eq!(expanded.len(), 1);
    assert_eq!(sorted(expanded[0].clone()), strs(&["rock", "rock'n'roll"]));

    // A seed tagged "jazz" matches no group, so a rock candidate is rejected.
    let acceptable = get_genres(&expanded, &strs(&["jazz"]));
    assert!(acceptable.is_empty());
    let grouped = all_group_genres(&expanded);
    assert!(filter_genre(&strs(&["rock"]), &acceptable, &grouped));
    assert!(!filter_genre(&strs(&["jazz"]), &acceptable, &grouped));
}

#[test]
fn glob_patterns_are_case_insensitive() {
    let known = strs(&["rock", "Rock", "jazz"]);
    let groups = vec![strs(&["ROCK"]), strs(&["Ja?z"]), strs(&["Rock"])];
    let expanded = expand_globbed_genres(&groups, &known).unwrap();
    assert_eq!(expanded[0], strs(&["rock", "Rock"]));
    assert_eq!(expanded[1], strs(&["jazz"]));
    assert_eq!(expanded[2], strs(&["rock", "Rock"]));
}

#[test]
fn deeply_nested_pattern_is_refused_not_fatal() {
    let deep = format!("{}{}", "{a,".repeat(200), "}".repeat(200));
    assert!(expand_globbed_genres(&vec![vec![deep]], &strs(&["a"])).is_none());
}

#[test]
fn matched_genres_are_selected_from_flags() {
    // The "rock*" group against known genres rock, rock'n'roll, jazz.
    let known = strs(&["rock", "rock'n'roll", "jazz"]);
    let picked = select_matching(&known, &vec![true, true, false]);
    assert_eq!(picked, strs(&["rock", "rock'n'roll"]));
    // Duplicates are kept once; missing flags count as unset.
    let known = strs(&["rock", "rock", "pop"]);
    assert_eq!(select_matching(&known, &vec![true, true]), strs(&["rock"]));
    assert!(select_matching(&known, &Vec::new()).is_empty());
}

#[test]
fn invalid_glob_is_refused() {
    let known = strs(&["rock"]);
    assert!(expand_globbed_genres(&vec![strs(&["a[b"])], &known).is_none());
    assert!(expand_globbed_genres(&vec![], &known).unwrap().is_empty());
}

#[test]
fn get_genres_takes_groups_holding_all_track_genres() {
    let groups = vec![strs(&["rock", "metal"]), strs(&["rock", "pop"]), strs(&["jazz"])];
    assert_eq!(sorted(get_genres(&groups, &strs(&["rock"]))), strs(&["metal", "pop", "rock"]));
    assert_eq!(sorted(get_genres(&groups, &strs(&["rock", "pop"]))), strs(&["pop", "rock"]));
    assert!(get_genres(&groups, &strs(&["rock", "jazz"])).is_empty());
    // No genres are a subset of every group.
    assert_eq!(get_genres(&groups, &Vec::new()).len(), 4);
}

#[test]
fn genre_filter_rules() {
    let grouped = strs(&["rock", "metal"]);
    // A candidate without genres always passes.
    assert!(!filter_genre(&Vec::new(), &Vec::new(), &grouped));
    // Seed matched no group: candidates outside every group pass.
    assert!(!filter_genre(&strs(&["folk"]), &Vec::new(), &grouped));
    assert!(filter_genre(&strs(&["folk", "metal"]), &Vec::new(), &grouped));
    // No groups at all: nothing is rejected.
    assert!(!filter_genre(&strs(&["folk"]), &Vec::new(), &Vec::new()));
    // Seed matched a group: a candidate must share a genre with it.
    assert!(!filter_genre(&strs(&["metal"]), &grouped, &grouped));
    assert!(filter_genre(&strs(&["folk"]), &grouped, &grouped));
}

#[test]
fn trim_removes_unicode_white_space_at_both_ends() {
    for s in ["  Rock\t", "\u{A0}\u{3000}Rock\u{2028}\n", "Rock", " \r\nRock \u{85}"] {
        assert_eq!(trim(s), s.trim());
        assert_eq!(trim(s), "Rock");
    }
    assert_eq!(trim(" a b "), "a b");
    assert_eq!(trim(" \t "), "");
    assert_eq!(trim(""), "");
}
