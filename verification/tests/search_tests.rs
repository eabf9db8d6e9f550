use rusty_pin::{codec, Pin, Pinboard, Tag};

fn sample_pin(url: &str, title: &str, tags: Vec<&str>) -> Pin {
    Pin::new(
        String::from(url),
        String::from(title),
        tags.into_iter().map(String::from).collect(),
        true,
        false,
        None,
    )
}

fn board_with(pins: Vec<Pin>, tags: Vec<Tag>) -> Pinboard {
    let mut board = Pinboard::new("user:sometoken".to_string());
    let pin_bytes = codec::encode_pins(&pins);
    let tag_bytes = codec::encode_tags(&tags);
    board.load_pins(&pin_bytes).expect("pins must load");
    board.load_tags(&tag_bytes).expect("tags must load");
    board
}

#[test]
fn test_search_tags() {
    let mut pinboard = board_with(
        vec![],
        vec![
            Tag("django".to_string(), 1),
            Tag("Lumia920".to_string(), 2),
            Tag("vim".to_string(), 3),
        ],
    );
    pinboard.enable_fuzzy_search(false);

    {
        let tags = pinboard.search_tag_field("django").unwrap();
        assert!(tags.is_some());
    }

    {
        // non-fuzzy search test
        let tags = pinboard.search_tag_field("non-existence-tag").unwrap();
        assert!(tags.is_none());
    }
    {
        // fuzzy search test
        pinboard.enable_fuzzy_search(true);
        let tags = pinboard.search_tag_field("non-existence-tag").unwrap();
        assert!(tags.is_none());
    }

    {
        // non-fuzzy search test
        pinboard.enable_fuzzy_search(false);
        let tags = pinboard.search_tag_field("Lumia920").unwrap();
        assert!(tags.is_some());
        let tags = tags.unwrap();
        assert_eq!(tags.len(), 1);
        assert_eq!(tags[0].1, 2);
    }

    {
        // fuzzy search test
        pinboard.enable_fuzzy_search(true);
        let tags = pinboard.search_tag_field("Lumia920").unwrap();
        assert!(tags.is_some());
        let tags = tags.unwrap();
        assert_eq!(tags.len(), 1);
        assert_eq!(tags[0].1, 2);
    }
}

#[test]
fn list_tags() {
    let pinboard = board_with(vec![], vec![Tag("django".to_string(), 1)]);
    assert!(pinboard.tag_pairs().is_some());
}

#[test]
fn list_bookmarks() {
    let pinboard = board_with(
        vec![sample_pin("https://example.com/", "a page", vec![])],
        vec![],
    );
    assert!(pinboard.bookmarks().is_some());
}

#[test]
fn search_before_load_is_an_error() {
    let board = Pinboard::new("user:sometoken".to_string());
    assert!(board.search_items("x").is_err());
    assert!(board.search_tag_field("x").is_err());
}

#[test]
fn exact_search_is_case_folded() {
    let board = board_with(
        vec![sample_pin(
            "https://example.com/one",
            "DateTime Library",
            vec!["rust"],
        )],
        vec![],
    );
    let hits = board.search_items("datetime").unwrap();
    assert!(hits.is_some());
    let hits = board.search_items("DATETIME").unwrap();
    assert!(hits.is_some());
    let hits = board.search_items("nothing-here").unwrap();
    assert!(hits.is_none());
}

#[test]
fn exact_search_covers_url_title_and_tags() {
    let board = board_with(
        vec![
            sample_pin("https://rust-lang.org/", "the language", vec![]),
            sample_pin("https://example.com/a", "about Rust macros", vec![]),
            sample_pin("https://example.com/b", "unrelated", vec!["rustic"]),
            sample_pin("https://example.com/c", "nothing", vec![]),
        ],
        vec![],
    );
    let hits = board.search_items("rust").unwrap().unwrap();
    assert_eq!(hits.len(), 3);
    // collection order is preserved
    assert_eq!(hits[0].url, "https://rust-lang.org/");
    assert_eq!(hits[1].url, "https://example.com/a");
    assert_eq!(hits[2].url, "https://example.com/b");
}

#[test]
fn fuzzy_search_matches_ordered_subsequence() {
    let mut board = board_with(
        vec![
            sample_pin("https://zzz.org/", "datetime", vec![]),
            sample_pin("https://zzz.org/2", "metadata reversed", vec![]),
        ],
        vec![],
    );
    board.enable_fuzzy_search(true);
    let hits = board.search_items("dtm").unwrap();
    let hits = hits.expect("dtm must match datetime");
    assert_eq!(hits.len(), 1);
    assert_eq!(hits[0].title, "datetime");
}

#[test]
fn fuzzy_pattern_characters_are_literal() {
    let p = sample_pin("https://zzz.org/", "a.c", vec![]);
    assert!(p.contains_fuzzy("a.c"));
    let q = sample_pin("https://zzz.org/", "abc", vec![]);
    assert!(!q.contains_fuzzy("a.c"));
}

#[test]
fn pin_contains_expects_folded_query() {
    let p = sample_pin("https://example.com/", "My Title", vec!["rust"]);
    assert!(p.contains("my title"));
    assert!(p.contains("example"));
    assert!(p.contains("rust"));
    assert!(!p.contains("absent"));
}

#[test]
fn staleness_is_strict_comparison() {
    let board = Pinboard::new("user:sometoken".to_string());
    assert!(board.is_cache_outdated(5, 6));
    assert!(!board.is_cache_outdated(6, 6));
    assert!(!board.is_cache_outdated(7, 6));
}

#[test]
fn config_flags_round_trip() {
    let mut board = Pinboard::new("user:sometoken".to_string());
    assert!(!board.fuzzy_search());
    assert!(!board.tag_only_search());
    assert!(board.private_new_pin());
    assert!(!board.toread_new_pin());
    board.enable_fuzzy_search(true);
    board.enable_tag_only_search(true);
    board.enable_private_new_pin(false);
    board.enable_toread_new_pin(true);
    assert!(board.fuzzy_search());
    assert!(board.tag_only_search());
    assert!(!board.private_new_pin());
    assert!(board.toread_new_pin());
}
