use retro_game_search::image_cache::{ImageCache, ImageLoadResult, LoadStep};
use retro_game_search::highlight::{highlight_segments, tokenize_query, Segment};
use retro_game_search::names::{add_recent, renamed_file_name, sanitize_filename, RECENT_LIMIT};
use retro_game_search::thumbnails::{image_cache_key, image_url, thumbnail_dir, PlatformMap};
use retro_game_search::text::{lowercase, split_chars, str_contains, str_lt, trimmed};

#[test]
fn sanitize_replaces_forbidden_characters() {
    assert_eq!(sanitize_filename(r#"a<b>c:d"e/f\g|h?i*j"#), "a_b_c_d_e_f_g_h_i_j");
    assert_eq!(sanitize_filename("Pokémon: Red"), "Pokémon_ Red");
    assert_eq!(sanitize_filename(""), "");
}

#[test]
fn renamed_file_keeps_extension() {
    assert_eq!(renamed_file_name("Zelda: Link", Some("sfc")), "Zelda_ Link.sfc");
    assert_eq!(renamed_file_name("Zelda", None), "Zelda");
}

#[test]
fn recent_list_moves_value_to_front() {
    let mut l: Vec<String> = Vec::new();
    add_recent(&mut l, "a");
    add_recent(&mut l, "b");
    add_recent(&mut l, "c");
    assert_eq!(l, vec!["c", "b", "a"]);
    add_recent(&mut l, "a");
    assert_eq!(l, vec!["a", "c", "b"]);
    add_recent(&mut l, "d");
    assert_eq!(l, vec!["d", "a", "c"]);
    assert_eq!(l.len(), RECENT_LIMIT);
    add_recent(&mut l, "d");
    assert_eq!(l, vec!["d", "a", "c"]);
}

#[test]
fn thumbnail_dir_replaces_separators() {
    assert_eq!(thumbnail_dir("Nintendo - Super Nintendo Entertainment System"), "Nintendo_-_Super_Nintendo_Entertainment_System");
    assert_eq!(thumbnail_dir("A/B:C"), "A_B_C");
}

#[test]
fn image_url_and_cache_key() {
    assert_eq!(
        image_url("Nintendo_-_SNES", "Named_Boxarts", "Mario: World/2"),
        "https://raw.githubusercontent.com/libretro-thumbnails/Nintendo_-_SNES/master/Named_Boxarts/Mario_ World_2.png"
    );
    assert_eq!(image_cache_key("SNES", "Mario", "Named_Snaps"), "SNES_Mario_Named_Snaps");
}

#[test]
fn platform_map_knows_file_platforms() {
    let stems = vec!["Nintendo - SNES (USA)".to_string(), "Sega - Genesis".to_string()];
    let m = PlatformMap::from_stems(&stems);
    assert_eq!(m.thumbnail_dir("Nintendo - SNES").as_deref(), Some("Nintendo_-_SNES"));
    assert_eq!(m.thumbnail_dir("Nintendo - SNES (USA)"), None);
    assert_eq!(
        m.image_url("Sega - Genesis", "Sonic", "Named_Titles").as_deref(),
        Some("https://raw.githubusercontent.com/libretro-thumbnails/Sega_-_Genesis/master/Named_Titles/Sonic.png")
    );
    assert_eq!(m.image_url("Atari", "Pong", "Named_Titles"), None);
}

#[test]
fn text_helpers() {
    assert_eq!(lowercase("ÀB c"), "àb c");
    assert_eq!(trimmed("  x y \t"), "x y");
    assert_eq!(trimmed("\u{A0}\u{2003}x\u{3000}\n"), "x");
    assert_eq!(trimmed(" \t "), "");
    assert_eq!(trimmed("\u{200B}x"), "\u{200B}x");
    assert_eq!(split_chars("a,,b,", ','), vec!["a", "", "b", ""]);
    assert_eq!(split_chars("", ','), vec![""]);
    assert!(str_contains("hello", "ll"));
    assert!(str_contains("hello", ""));
    assert!(!str_contains("he", "hello"));
    assert!(str_lt("Zh", "de"));
    assert!(str_lt("ab", "abc"));
    assert!(!str_lt("abc", "abc"));
    assert!(str_lt("z", "é"));
}

#[test]
fn query_words_are_lower_cased() {
    assert_eq!(tokenize_query("  Super\tMARIO  world "), vec!["super", "mario", "world"]);
    assert!(tokenize_query("   ").is_empty());
    assert_eq!(tokenize_query("a\u{3000}B\u{85}c\u{200B}d"), vec!["a", "b", "c\u{200B}d"]);
}

#[test]
fn highlight_merges_overlapping_occurrences() {
    let seg = |start, end, highlighted| Segment { start, end, highlighted };
    let tokens = vec!["mar".to_string(), "rio".to_string()];
    assert_eq!(
        highlight_segments("super mario mar", &tokens),
        vec![seg(0, 6, false), seg(6, 11, true), seg(11, 12, false), seg(12, 15, true)]
    );
    let tokens = vec!["aa".to_string(), String::new()];
    assert_eq!(highlight_segments("aaab", &tokens), vec![seg(0, 2, true), seg(2, 4, false)]);
    assert_eq!(highlight_segments("abc", &[]), vec![seg(0, 3, false)]);
    assert_eq!(highlight_segments("", &tokens), vec![]);
    let tokens = vec!["é".to_string()];
    assert_eq!(highlight_segments("xéy", &tokens), vec![seg(0, 1, false), seg(1, 2, true), seg(2, 3, false)]);
}

#[test]
fn image_cache_walks_through_its_states() {
    let m = PlatformMap::from_stems(&vec!["Sega - Genesis (World)".to_string()]);
    let mut c: ImageCache<u32> = ImageCache::new();
    match c.begin(&m, "Sega - Genesis", "Sonic", "Named_Boxarts") {
        LoadStep::Fetch(url) => assert_eq!(
            url,
            "https://raw.githubusercontent.com/libretro-thumbnails/Sega_-_Genesis/master/Named_Boxarts/Sonic.png"
        ),
        _ => panic!("expected a fetch"),
    }
    assert!(matches!(c.get("Sega - Genesis_Sonic_Named_Boxarts"), Some(ImageLoadResult::Loading)));
    assert!(matches!(c.begin(&m, "Sega - Genesis", "Sonic", "Named_Boxarts"), LoadStep::Cached));
    c.finish("Sega - Genesis", "Sonic", "Named_Boxarts", Some(7));
    assert!(matches!(c.get("Sega - Genesis_Sonic_Named_Boxarts"), Some(ImageLoadResult::Loaded(7))));
    assert!(matches!(c.begin(&m, "Atari", "Pong", "Named_Snaps"), LoadStep::Missing));
    assert!(matches!(c.get("Atari_Pong_Named_Snaps"), Some(ImageLoadResult::NotFound)));
    c.finish("Sega - Genesis", "Sonic", "Named_Titles", None);
    assert!(matches!(c.get("Sega - Genesis_Sonic_Named_Titles"), Some(ImageLoadResult::NotFound)));
    assert!(c.get("Sega - Genesis_Other_Named_Titles").is_none());
}
