use retro_game_search::games::GameEntry;
use retro_game_search::query::{filter_results, RESULT_LIMIT};

fn entry(platform: &str, name: &str, archive: Option<&str>, region: Option<&str>, languages: Option<&str>) -> GameEntry {
    GameEntry {
        platform: platform.to_string(),
        name: name.to_string(),
        archive_name: archive.map(|s| s.to_string()),
        region: region.map(|s| s.to_string()),
        languages: languages.map(|s| s.to_string()),
        file_path: format!("{}.xml", platform),
        game_idx: 0,
    }
}

fn names(r: &[&GameEntry]) -> Vec<String> {
    r.iter().map(|g| g.name.clone()).collect()
}

#[test]
fn free_text_matches_name_case_insensitively() {
    let index = vec![
        entry("SNES", "Super Mario World", None, Some("USA"), Some("en")),
        entry("SNES", "MARIO KART", None, Some("Japan"), Some("ja")),
        entry("SNES", "Zelda", None, Some("USA"), Some("en")),
        entry("SNES", "Kart", Some("Dr. Mario (Rev 1)"), None, None),
    ];
    let r = filter_results(&index, "mario", &[], "", "");
    assert_eq!(names(&r), vec!["Super Mario World", "MARIO KART", "Kart"]);
    let r = filter_results(&index, "  Mario  ", &[], "", "");
    assert_eq!(r.len(), 3);
}

#[test]
fn language_is_an_exact_token() {
    let index = vec![
        entry("SNES", "A", None, None, Some("en,fr")),
        entry("SNES", "B", None, None, Some("english")),
        entry("SNES", "C", None, None, Some(" FR , EN ")),
        entry("SNES", "D", None, None, None),
    ];
    let r = filter_results(&index, "", &[], "", "en");
    assert_eq!(names(&r), vec!["A", "C"]);
    let r = filter_results(&index, "", &[], "", " EN");
    assert_eq!(names(&r), vec!["A", "C"]);
}

#[test]
fn region_is_a_substring() {
    let index = vec![
        entry("SNES", "A", None, Some("USA, Europe"), None),
        entry("SNES", "B", None, Some("Japan"), None),
        entry("SNES", "C", None, None, None),
    ];
    let r = filter_results(&index, "", &[], "europe", "");
    assert_eq!(names(&r), vec!["A"]);
}

#[test]
fn platforms_are_exact_members() {
    let index = vec![
        entry("Nintendo - SNES", "A", None, None, None),
        entry("Nintendo - SNES Extra", "B", None, None, None),
        entry("Sega - Genesis", "C", None, None, None),
    ];
    let chosen = vec!["Nintendo - SNES".to_string(), "Sega - Genesis".to_string()];
    let r = filter_results(&index, "", &chosen, "", "");
    assert_eq!(names(&r), vec!["A", "C"]);
}

#[test]
fn criteria_combine() {
    let index = vec![
        entry("SNES", "Mario", None, Some("USA"), Some("en")),
        entry("SNES", "Mario", None, Some("Japan"), Some("ja")),
        entry("NES", "Mario", None, Some("USA"), Some("en")),
    ];
    let chosen = vec!["SNES".to_string()];
    let r = filter_results(&index, "mar", &chosen, "us", "en");
    assert_eq!(r.len(), 1);
    assert_eq!(r[0].region.as_deref(), Some("USA"));
    assert_eq!(r[0].platform, "SNES");
}

#[test]
fn results_are_capped() {
    let index: Vec<GameEntry> = (0..1500).map(|i| entry("SNES", &format!("Game {}", i), None, None, None)).collect();
    let r = filter_results(&index, "game", &[], "", "");
    assert_eq!(RESULT_LIMIT, 1000);
    assert_eq!(r.len(), 1000);
    assert_eq!(r[999].name, "Game 999");
    let r = filter_results(&index[..10], "", &[], "", "");
    assert_eq!(r.len(), 10);
}

#[test]
fn empty_index_gives_nothing() {
    let r = filter_results(&[], "x", &[], "", "");
    assert!(r.is_empty());
}

#[test]
fn platforms_compare_case_insensitively() {
    let index = vec![
        entry("Nintendo - SNES", "A", None, None, None),
        entry("Sega - Genesis", "B", None, None, None),
    ];
    let chosen = vec!["nintendo - snes".to_string()];
    let r = filter_results(&index, "", &chosen, "", "");
    assert_eq!(names(&r), vec!["A"]);
}
