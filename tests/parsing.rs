use retro_game_search::games::{parse_games_from_file, GameEntry, ParseError};
use retro_game_search::platform::infer_platform_from_filename;

const PATH: &str = "xmldb/Nintendo - Super Nintendo (USA) (v2).xml";

fn parse(xml: &str) -> Vec<GameEntry> {
    parse_games_from_file(xml.as_bytes(), PATH).expect("document parses")
}

#[test]
fn archive_attributes_win_and_name_stays_absent() {
    let games = parse(r#"<datafile><game name="X"><archive region="US" languages="en"/></game></datafile>"#);
    assert_eq!(games.len(), 1);
    let g = &games[0];
    assert_eq!(g.name, "X");
    assert_eq!(g.region.as_deref(), Some("US"));
    assert_eq!(g.languages.as_deref(), Some("en"));
    assert_eq!(g.archive_name, None);
    assert_eq!(g.game_idx, 0);
    assert_eq!(g.platform, "Nintendo - Super Nintendo");
    assert_eq!(g.file_path, PATH);
}

#[test]
fn game_region_wins_over_details() {
    let games = parse(r#"<datafile><game name="X" region="EU"><details region="JP"/></game></datafile>"#);
    assert_eq!(games.len(), 1);
    assert_eq!(games[0].region.as_deref(), Some("EU"));
}

#[test]
fn details_region_is_the_last_resort() {
    let games = parse(
        r#"<datafile><game name="X"><details region="JP"></details><details region="KR"/></game></datafile>"#,
    );
    assert_eq!(games.len(), 1);
    assert_eq!(games[0].region.as_deref(), Some("JP"));
    assert_eq!(games[0].languages, None);
}

#[test]
fn nameless_game_yields_nothing_but_keeps_its_position() {
    let games = parse(
        r#"<datafile><game region="EU"></game><game name="A"></game><game region="JP"/><game name="B" region="US"></game></datafile>"#,
    );
    assert_eq!(games.len(), 2);
    assert_eq!(games[0].name, "A");
    assert_eq!(games[0].game_idx, 1);
    assert_eq!(games[0].region, None);
    assert_eq!(games[1].name, "B");
    assert_eq!(games[1].game_idx, 3);
}

#[test]
fn self_closing_named_game_is_an_entry() {
    let games = parse(r#"<datafile><game name="A" region="EU" languages="en"/><game name="B"></game></datafile>"#);
    assert_eq!(games.len(), 2);
    assert_eq!(games[0].name, "A");
    assert_eq!(games[0].region.as_deref(), Some("EU"));
    assert_eq!(games[0].languages.as_deref(), Some("en"));
    assert_eq!(games[0].game_idx, 0);
    assert_eq!(games[1].name, "B");
    assert_eq!(games[1].game_idx, 1);
}

#[test]
fn nested_games_are_not_top_level() {
    let games = parse(
        r#"<d><game name="A"><game name="N"><archive region="JP"/></game></game><game name="B"/></d>"#,
    );
    assert_eq!(games.len(), 2);
    assert_eq!(games[0].name, "A");
    assert_eq!(games[0].game_idx, 0);
    assert_eq!(games[0].region.as_deref(), Some("JP"));
    assert_eq!(games[1].name, "B");
    assert_eq!(games[1].game_idx, 1);
}

#[test]
fn self_closing_nameless_game_yields_nothing() {
    let games = parse(r#"<datafile><game region="EU"/></datafile>"#);
    assert!(games.is_empty());
}

#[test]
fn last_archive_wins_and_archive_name_is_kept() {
    let games = parse(
        r#"<datafile><game name="G" region="EU" languages="de"><archive name="First" region="US"/><archive name="Second (Rev 1)" languages="en,fr"></archive></game></datafile>"#,
    );
    assert_eq!(games.len(), 1);
    let g = &games[0];
    assert_eq!(g.archive_name.as_deref(), Some("Second (Rev 1)"));
    assert_eq!(g.region.as_deref(), Some("US"));
    assert_eq!(g.languages.as_deref(), Some("en,fr"));
}

#[test]
fn game_level_values_apply_without_archive() {
    let games = parse(
        "<datafile>\n  <game name=\"Tom &amp; Jerry\" region=\"EU\" languages=\"en,de\">\n    <description>x</description>\n  </game>\n</datafile>\n",
    );
    assert_eq!(games.len(), 1);
    assert_eq!(games[0].name, "Tom & Jerry");
    assert_eq!(games[0].region.as_deref(), Some("EU"));
    assert_eq!(games[0].languages.as_deref(), Some("en,de"));
}

#[test]
fn holders_do_not_leak_between_games() {
    let games = parse(
        r#"<datafile><game name="A" region="EU" languages="en"><archive name="AA"/></game><game name="B"></game></datafile>"#,
    );
    assert_eq!(games.len(), 2);
    assert_eq!(games[1].region, None);
    assert_eq!(games[1].languages, None);
    assert_eq!(games[1].archive_name, None);
}

#[test]
fn reparsing_gives_the_same_numbering() {
    let xml = r#"<datafile><game name="A"/><game name="B"></game><game></game><game name="C"></game></datafile>"#;
    let first = parse(xml);
    let second = parse(xml);
    let a: Vec<(String, usize)> = first.iter().map(|g| (g.name.clone(), g.game_idx)).collect();
    let b: Vec<(String, usize)> = second.iter().map(|g| (g.name.clone(), g.game_idx)).collect();
    assert_eq!(a, b);
    assert_eq!(a, vec![("A".to_string(), 0), ("B".to_string(), 1), ("C".to_string(), 3)]);
}

#[test]
fn malformed_document_is_an_error() {
    let r = parse_games_from_file(br#"<datafile><game name="X"></gam></datafile>"#, PATH);
    assert_eq!(r.unwrap_err(), ParseError::Malformed);
}

#[test]
fn empty_document_has_no_games() {
    assert!(parse("").is_empty());
}

#[test]
fn unknown_platform_without_file_stem() {
    let games = parse_games_from_file(br#"<game name="X"></game>"#, "/").unwrap();
    assert_eq!(games[0].platform, "Unknown");
}

#[test]
fn platform_strips_parenthesised_suffix() {
    assert_eq!(
        infer_platform_from_filename("db/Sega - Mega Drive (Europe) (Rev A).xml").as_deref(),
        Some("Sega - Mega Drive")
    );
    assert_eq!(infer_platform_from_filename("db/Atari - 2600.xml").as_deref(), Some("Atari - 2600"));
    assert_eq!(infer_platform_from_filename("db/Arcade(MAME).xml").as_deref(), Some("Arcade(MAME)"));
    assert_eq!(infer_platform_from_filename("/"), None);
}
