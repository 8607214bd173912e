use retro_game_search::extract::extract_game_xml_by_index;
use retro_game_search::games::parse_games_from_file;

const FILE: &str = "<datafile>\n\t<game name=\"A\"/>\n\t<game name=\"B\">\n\t\t<!-- second -->\n\t\t<archive region=\"EU\"/>\n\t\t<details><![CDATA[a < b]]></details>\n\t</game>\n\t<game name=\"C\"></game>\n</datafile>\n";

#[test]
fn extracts_the_second_game_verbatim() {
    let s = extract_game_xml_by_index(FILE.as_bytes(), 1);
    assert_eq!(
        s,
        "<game name=\"B\">\n\t\t<!-- second -->\n\t\t<archive region=\"EU\"/>\n\t\t<details><![CDATA[a < b]]></details>\n\t</game>"
    );
}

#[test]
fn extracts_a_self_closing_game() {
    assert_eq!(extract_game_xml_by_index(FILE.as_bytes(), 0), "<game name=\"A\"/>");
}

#[test]
fn extracts_the_last_game() {
    assert_eq!(extract_game_xml_by_index(FILE.as_bytes(), 2), "<game name=\"C\"></game>");
}

#[test]
fn index_past_the_end_gives_empty_text() {
    assert_eq!(extract_game_xml_by_index(FILE.as_bytes(), 3), "");
}

#[test]
fn nameless_games_are_counted_by_position() {
    let xml = "<r><game region=\"EU\"></game><game name=\"X\"></game></r>";
    assert_eq!(extract_game_xml_by_index(xml.as_bytes(), 1), "<game name=\"X\"></game>");
}

#[test]
fn parser_positions_find_the_same_games() {
    let xml = "<d><game region=\"EU\"/><game name=\"A\"/><game name=\"B\"><game name=\"N\"/></game><game name=\"C\">x</game></d>";
    let games = parse_games_from_file(xml.as_bytes(), "db/P.xml").unwrap();
    let names: Vec<&str> = games.iter().map(|g| g.name.as_str()).collect();
    assert_eq!(names, vec!["A", "B", "C"]);
    let fragments: Vec<String> = games.iter().map(|g| extract_game_xml_by_index(xml.as_bytes(), g.game_idx)).collect();
    assert_eq!(
        fragments,
        vec![
            "<game name=\"A\"/>".to_string(),
            "<game name=\"B\"><game name=\"N\"/></game>".to_string(),
            "<game name=\"C\">x</game>".to_string(),
        ]
    );
}
