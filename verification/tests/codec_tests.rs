use rusty_pin::{codec, Pin, Pinboard, Tag};

fn sample_pins() -> Vec<Pin> {
    vec![
        Pin {
            url: "https://example.com/one".to_string(),
            title: "first bookmark".to_string(),
            tags: "alpha beta".to_string(),
            shared: "no".to_string(),
            toread: "yes".to_string(),
            extended: Some("a note".to_string()),
            time: 1_526_000_000,
            meta: Some("92959c2c7435bce321dfa32b9764cafe".to_string()),
            hash: None,
            tag_list: vec!["alpha".to_string(), "beta".to_string()],
        },
        Pin {
            url: "https://githuуй.com/Здравствуйт?q=13#fragment".to_string(),
            title: "unicode £itle".to_string(),
            tags: String::new(),
            shared: "yes".to_string(),
            toread: "no".to_string(),
            extended: None,
            time: -62_135_596_800,
            meta: None,
            hash: Some("85ee07b9ccb3e35e9e459bbc108e6e9a".to_string()),
            tag_list: vec![],
        },
    ]
}

#[test]
fn pins_round_trip() {
    let pins = sample_pins();
    let bytes = codec::encode_pins(&pins);
    let back = codec::decode_pins(&bytes).expect("snapshot must decode");
    assert_eq!(pins, back);
}

#[test]
fn tags_round_trip() {
    let tags = vec![
        Tag("django".to_string(), 1),
        Tag("Lumia920".to_string(), 2),
        Tag("дом".to_string(), u64::MAX),
        Tag(String::new(), 0),
    ];
    let bytes = codec::encode_tags(&tags);
    let back = codec::decode_tags(&bytes).expect("snapshot must decode");
    assert_eq!(tags, back);
}

#[test]
fn empty_collections_round_trip() {
    let pins: Vec<Pin> = vec![];
    let tags: Vec<Tag> = vec![];
    assert_eq!(codec::decode_pins(&codec::encode_pins(&pins)).unwrap(), pins);
    assert_eq!(codec::decode_tags(&codec::encode_tags(&tags)).unwrap(), tags);
}

#[test]
fn corrupt_snapshots_do_not_decode() {
    assert!(codec::decode_pins(&vec![1u8, 2, 3]).is_none());
    assert!(codec::decode_tags(&vec![255u8; 11]).is_none());

    let pins = sample_pins();
    let mut truncated = codec::encode_pins(&pins);
    truncated.pop();
    assert!(codec::decode_pins(&truncated).is_none());

    let mut trailing = codec::encode_pins(&pins);
    trailing.push(0);
    assert!(codec::decode_pins(&trailing).is_none());
}

#[test]
fn corrupt_snapshot_is_an_error_not_empty() {
    let mut board = Pinboard::new("user:sometoken".to_string());
    let garbage = vec![9u8; 40];
    assert!(board.load_pins(&garbage).is_err());
    assert!(board.bookmarks().is_none());
    assert!(board.load_tags(&garbage).is_err());
    assert!(board.tag_pairs().is_none());
}

#[test]
fn loaded_snapshot_replaces_previous() {
    let mut board = Pinboard::new("user:sometoken".to_string());
    let first = sample_pins();
    board.load_pins(&codec::encode_pins(&first)).unwrap();
    assert_eq!(board.bookmarks().as_ref().unwrap().len(), 2);
    let second = vec![];
    board.load_pins(&codec::encode_pins(&second)).unwrap();
    assert_eq!(board.bookmarks().as_ref().unwrap().len(), 0);
}
