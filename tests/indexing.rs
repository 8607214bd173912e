use retro_game_search::games::{parse_games_from_file, GameEntry, ParseError};
use retro_game_search::index::GameIndex;

fn entry(platform: &str, name: &str, region: Option<&str>, languages: Option<&str>) -> GameEntry {
    GameEntry {
        platform: platform.to_string(),
        name: name.to_string(),
        archive_name: None,
        region: region.map(|s| s.to_string()),
        languages: languages.map(|s| s.to_string()),
        file_path: String::new(),
        game_idx: 0,
    }
}

#[test]
fn language_facet_is_trimmed_sorted_and_deduplicated() {
    let idx = GameIndex::build(vec![Ok(vec![
        entry("P", "A", None, Some("en, fr,en")),
        entry("P", "B", None, Some("fr")),
    ])]);
    assert_eq!(idx.languages, vec!["en".to_string(), "fr".to_string()]);
}

#[test]
fn facets_skip_empty_values_and_sort_by_code_point() {
    let idx = GameIndex::build(vec![Ok(vec![
        entry("Sega", "A", Some(" USA "), Some(",de,, ")),
        entry("Atari", "B", Some("   "), None),
        entry("Nintendo", "C", Some("Europe"), Some("Zh,en")),
        entry("Atari", "D", Some("USA"), Some("en")),
    ])]);
    assert_eq!(idx.platforms, vec!["Atari", "Nintendo", "Sega"]);
    assert_eq!(idx.regions, vec!["Europe", "USA"]);
    assert_eq!(idx.languages, vec!["Zh", "de", "en"]);
}

#[test]
fn failed_files_are_dropped_and_order_is_kept() {
    let idx = GameIndex::build(vec![
        Ok(vec![entry("P", "A", None, None)]),
        Err(ParseError::Malformed),
        Ok(vec![]),
        Ok(vec![entry("Q", "B", None, None), entry("Q", "C", None, None)]),
    ]);
    let names: Vec<&str> = idx.entries.iter().map(|g| g.name.as_str()).collect();
    assert_eq!(names, vec!["A", "B", "C"]);
    assert_eq!(idx.platforms, vec!["P", "Q"]);
    assert!(idx.regions.is_empty());
}

#[test]
fn index_of_nothing_is_empty() {
    let idx = GameIndex::build(vec![]);
    assert!(idx.entries.is_empty());
    assert!(idx.platforms.is_empty());
    assert!(idx.languages.is_empty());
}

#[test]
fn index_from_parsed_files() {
    let a = parse_games_from_file(br#"<d><game name="X" region="EU" languages="en"/><game name="Y" languages="de, en"></game></d>"#, "x/Alpha (USA).xml");
    let b = parse_games_from_file(br#"<d><game name="Z"></x></d>"#, "x/Beta.xml");
    let idx = GameIndex::build(vec![a, b]);
    let names: Vec<&str> = idx.entries.iter().map(|g| g.name.as_str()).collect();
    assert_eq!(names, vec!["X", "Y"]);
    assert_eq!(idx.platforms, vec!["Alpha"]);
    assert_eq!(idx.regions, vec!["EU"]);
    assert_eq!(idx.languages, vec!["de", "en"]);
}

#[test]
fn platform_facet_is_trimmed() {
    let idx = GameIndex::build(vec![Ok(vec![
        entry("a ", "A", None, None),
        entry(" a", "B", None, None),
        entry("  ", "C", None, None),
    ])]);
    assert_eq!(idx.platforms, vec!["a"]);
}
