use chrono::TimeZone;
use rusty_pin::api::{all_pins_from_response, pin_from_value};
use rusty_pin::Pin;

const PIN1: &str = r#"{"href":"https://danielkeep.github.io/tlborm/book/README.html","description":"The Little Book of Rust Macros","tags":"Rust macros","shared":"no","toread":"no","extended":"","time":"2017-05-22T17:46:54Z","meta":"92959c2c7435bce321dfa32b9764cafe","hash":"85ee07b9ccb3e35e9e459bbc108e6e9a"}"#;

const PIN2: &str = r#"{"href":"http://tbaggery.com/2011/08/08/effortless-ctags-with-git.html","description":"tbaggery - Effortless Ctags with Git","tags":"git ctags vim","shared":"no","toread":"no","extended":"","time":"2017-10-09T07:59:36Z","meta":"4ad79b5b3854d0fbd969388b4f29420e","hash":"64f7b9a7b6b87683bd7322e60c3ce631"}"#;

#[test]
fn set_tags() {
    let url = url::Url::parse("https://githuуй.com/Здравствуйт?q=13#fragment").unwrap();
    let mut p = Pin::new(
        String::from(url.as_str()),
        "title".to_string(),
        vec![],
        true,
        false,
        None,
    );

    let tags = vec!["tag1", "tag2"];
    p.set_tags_str(&tags);
    assert_eq!(p.tag_list, tags);

    let tags = vec![String::from("tag3"), "tag4".to_string()];
    p.set_tags_str(
        tags.iter()
            .map(|s| s.as_str())
            .collect::<Vec<&str>>()
            .as_slice(),
    );
    assert_eq!(p.tag_list, tags);

    let tags = vec![String::from("tag5"), "tag6".to_string()];
    p.set_tags(tags.clone());
    assert_eq!(p.tag_list, tags);
}

#[test]
fn tag_text_follows_tag_list() {
    let mut p = Pin::new(
        String::from("https://example.com/"),
        "title".to_string(),
        vec!["alpha".to_string(), "beta".to_string()],
        true,
        false,
        None,
    );
    assert_eq!(p.tags, "alpha beta");
    p.set_tags(vec!["gamma".to_string()]);
    assert_eq!(p.tags, "gamma");
    assert_eq!(p.tag_list, vec!["gamma".to_string()]);
}

#[test]
fn new_pin_flags() {
    let p = Pin::new(
        String::from("https://example.com/"),
        "t".to_string(),
        vec![],
        true,
        false,
        Some("notes".to_string()),
    );
    assert_eq!(p.shared, "no");
    assert_eq!(p.toread, "no");
    assert_eq!(p.extended, Some("notes".to_string()));
    let q = Pin::new(
        String::from("https://example.com/"),
        "t".to_string(),
        vec![],
        false,
        true,
        None,
    );
    assert_eq!(q.shared, "yes");
    assert_eq!(q.toread, "yes");
    assert_eq!(q.extended, None);
}

#[test]
fn new_checked_rejects_bad_input() {
    assert!(Pin::new_checked(
        String::from(":// bad url/#"),
        "t".to_string(),
        vec![],
        true,
        false,
        None,
    )
    .is_none());
    assert!(Pin::new_checked(
        String::from("https://example.com/"),
        "t".to_string(),
        vec!["has space".to_string()],
        true,
        false,
        None,
    )
    .is_none());
    assert!(Pin::new_checked(
        String::from("https://example.com/"),
        "t".to_string(),
        vec!["fine".to_string()],
        true,
        false,
        None,
    )
    .is_some());
}

#[test]
fn deserialize_a_pin() {
    let v: serde_json::Value = serde_json::from_str(PIN1).unwrap();
    let pin = pin_from_value(&v);
    assert!(pin.is_some());
    let pin = pin.unwrap();
    assert_eq!(
        pin.url,
        "https://danielkeep.github.io/tlborm/book/README.html"
    );
    assert_eq!(pin.title, "The Little Book of Rust Macros");
    assert_eq!(
        pin.time,
        chrono::Utc
            .with_ymd_and_hms(2017, 5, 22, 17, 46, 54)
            .unwrap()
            .timestamp()
    );
    assert_eq!(pin.tags, "Rust macros");

    let v: serde_json::Value = serde_json::from_str(PIN2).unwrap();
    let pin = pin_from_value(&v);
    assert!(pin.is_some());
    let pin = pin.unwrap();
    assert_eq!(
        pin.url,
        "http://tbaggery.com/2011/08/08/effortless-ctags-with-git.html"
    );
    assert_eq!(pin.title, "tbaggery - Effortless Ctags with Git");
    assert_eq!(
        pin.time,
        chrono::Utc
            .with_ymd_and_hms(2017, 10, 9, 7, 59, 36)
            .unwrap()
            .timestamp()
    );
    assert_eq!(pin.tags, "git ctags vim");
}

#[test]
fn deserialize_pins() {
    let input = format!("[{},{}]", PIN1, PIN2);
    let pins = all_pins_from_response(&input);
    assert!(pins.is_ok());
    let pins = pins.unwrap();
    assert_eq!(pins.len(), 2);
    assert_eq!(pins[0].tag_list, vec!["Rust", "macros"]);
}

#[test]
fn deserialize_pin_without_time_uses_clock() {
    let body = r#"{"href":"https://example.com/","description":"t","tags":"","shared":"no","toread":"no"}"#;
    let v: serde_json::Value = serde_json::from_str(body).unwrap();
    let pin = pin_from_value(&v).unwrap();
    assert!(pin.time > 1_577_836_800);
}

#[test]
fn deserialize_pin_rejects_missing_fields() {
    let body = r#"{"href":"https://example.com/","description":"t"}"#;
    let v: serde_json::Value = serde_json::from_str(body).unwrap();
    assert!(pin_from_value(&v).is_none());
    let v: serde_json::Value = serde_json::from_str("[1,2]").unwrap();
    assert!(pin_from_value(&v).is_none());
}
