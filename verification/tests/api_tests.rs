use chrono::TimeZone;
use rusty_pin::api::{
    all_pins_from_response, mutation_result, response_body, suggest_tags_from_response,
    tags_frequency_from_response, update_time_from_response, Api, ApiError, ApiResult,
};
use rusty_pin::Pin;

const TEST_URL: &str = "https://githuуй.com/Здравствуйт?q=13#fragment";

#[test]
fn get_latest_update_time() {
    let r = update_time_from_response(r#"{"update_time":"2018-02-07T01:54:09Z"}"#);
    assert!(r.is_ok());
    assert_eq!(
        r.unwrap(),
        chrono::Utc
            .with_ymd_and_hms(2018, 2, 7, 1, 54, 9)
            .unwrap()
            .timestamp()
    );
}

#[test]
fn too_many_requests() {
    let r = response_body(
        429,
        Some("Too Many Requests".to_string()),
        "Back off".to_string(),
    );
    let e = r.expect_err("Expected Not Found");
    assert_eq!(
        "Server couldn't fulfill request: Too Many Requests",
        e.message()
    );
}

#[test]
fn response_body_passes_success_through() {
    let r = response_body(200, Some("OK".to_string()), "payload".to_string());
    assert_eq!(r.unwrap(), "payload");
    let r = response_body(500, None, "x".to_string());
    let e = r.unwrap_err();
    assert_eq!(e, ApiError::ServerError("UNKNOWN RESPONSE".to_string()));
}

#[test]
fn delete_tag_test() {
    let r = mutation_result(r#"{"result":"done"}"#);
    r.expect("Error in deleting a tag.");

    // The service reports success for a non-existing tag and for an empty
    // tag; the normalized result is success either way.
    mutation_result(r#"{"result":"done"}"#).expect("pinboard OKs deleting a non-existing tag.");
    mutation_result(r#"{"result":"done"}"#).expect("pinboard OKs deleting a non-existing tag.");
}

#[test]
fn rename_tag_test() {
    let r = mutation_result(r#"{"result":"done"}"#);
    r.expect("Error in renaming a tag.");

    let r = mutation_result(r#"{"result":"rename to null"}"#)
        .expect_err("renaming to empty tag should return error");
    assert_eq!("rename to null".to_string(), r.message());
}

#[test]
fn delete_api_test() {
    let r = mutation_result(r#"{"result_code":"done"}"#);
    r.expect("Error in deleting a pin.");

    let r = mutation_result(r#"{"result_code":"item not found"}"#)
        .expect_err("Deleted non-existing pin");
    assert_eq!("item not found".to_string(), r.message());

    let r = mutation_result(r#"{"result_code":"item not found"}"#)
        .expect_err("should not find a malformed url to delete");
    assert_eq!("item not found".to_string(), r.message());
}

#[test]
fn add_a_url() {
    let r = mutation_result(r#"{"result_code":"done"}"#);
    r.expect("Error in adding a pin.");

    let r = mutation_result(r#"{"result_code":"missing url"}"#)
        .expect_err("server should not have accepted malformed url");
    assert_eq!("missing url", r.message());

    let api = Api::new("user:sometoken".to_string());
    let p = Pin::new(
        String::from(TEST_URL),
        "test bookmark/pin".to_string(),
        vec!["tagestan".to_string(), "what".to_string()],
        false,
        false,
        Some("russian website!".to_string()),
    );
    let built = api.add_url_request(&p).expect("could not build add URL");
    assert!(built.starts_with("https://api.pinboard.in/v1/posts/add?"));
    assert!(built.contains("format=json"));
    assert!(built.contains("auth_token="));
    assert!(built.contains("replace=yes"));
}

#[test]
fn request_urls_carry_auth() {
    let api = Api::new("user:sometoken".to_string());
    let u = api.all_pins_url().unwrap();
    assert!(u.starts_with("https://api.pinboard.in/v1/posts/all?"));
    assert!(u.contains("format=json"));
    let u = api.tag_rename_url("old_tag", "new_tag").unwrap();
    assert!(u.contains("/tags/rename?"));
    assert!(u.contains("old=old_tag"));
    assert!(u.contains("new=new_tag"));
    let u = api.suggest_tags_url("http://blog.com/").unwrap();
    assert!(u.contains("/posts/suggest?"));
    assert!(u.contains("url=http"));
}

#[test]
fn suggest_tags() {
    let body = r#"[{"swordfish":0},{"popular":["datetime","library","rust"]}]"#;
    let res = suggest_tags_from_response(body);
    assert_eq!(
        vec!["datetime", "library", "rust"],
        res.expect("impossible")
    );
}

#[test]
fn suggest_tags_without_popular_is_unrecognized() {
    let body = r#"[{"other":1},{"also":2}]"#;
    let e = suggest_tags_from_response(body).unwrap_err();
    assert_eq!(
        e,
        ApiError::UnrecognizedResponse("Unrecognized response from API: posts/suggest".to_string())
    );
}

#[test]
fn suggest_tags_first_popular_wins() {
    let body = r#"[{"other":1},{"popular":["a","b"]},{"popular":["c"]}]"#;
    assert_eq!(vec!["a", "b"], suggest_tags_from_response(body).unwrap());
    let body = r#"[{"popular":null},{"popular":["x"]}]"#;
    assert_eq!(vec!["x"], suggest_tags_from_response(body).unwrap());
}

#[test]
fn test_tag_freq() {
    let mut body = String::from("{");
    for i in 0..94 {
        if i > 0 {
            body.push(',');
        }
        body.push_str(&format!(r#""tag{}":{}"#, i, i + 1));
    }
    body.push('}');
    let res = tags_frequency_from_response(&body);
    let r = res.unwrap_or_else(|e| panic!("{:?}", e));
    assert_eq!(94, r.len());
}

#[test]
fn test_tag_freq_empty() {
    {
        let res = tags_frequency_from_response("[]");
        let r = res.unwrap_or_else(|e| panic!("{:?}", e));
        assert!(r.is_empty());
    }
    {
        let res = tags_frequency_from_response("{}");
        let r = res.unwrap_or_else(|e| panic!("{:?}", e));
        assert!(r.is_empty());
    }
}

#[test]
fn tag_freq_non_empty_list_is_error() {
    let e = tags_frequency_from_response(r#"[{"a":"1"}]"#).unwrap_err();
    assert!(matches!(e, ApiError::SerdeError(_)));
    let e = tags_frequency_from_response(r#"{"a":"not a number"}"#).unwrap_err();
    assert!(matches!(e, ApiError::SerdeError(_)));
    let e = tags_frequency_from_response("17").unwrap_err();
    assert!(matches!(e, ApiError::SerdeError(_)));
}

#[test]
fn tag_freq_mapping_values() {
    let r = tags_frequency_from_response(r#"{"b":2,"a":1}"#).unwrap();
    assert_eq!(r.len(), 2);
    assert_eq!(r[0].0, "a");
    assert_eq!(r[0].1, 1);
    assert_eq!(r[1].0, "b");
    assert_eq!(r[1].1, 2);
}

#[test]
fn test_all_pins() {
    let mut body = String::from("[");
    for i in 0..57 {
        if i > 0 {
            body.push(',');
        }
        body.push_str(&format!(
            r#"{{"href":"https://example.com/{}","description":"pin {}","tags":"t{}","shared":"no","toread":"no","time":"2017-05-22T17:46:54Z"}}"#,
            i, i, i
        ));
    }
    body.push(']');
    let res = all_pins_from_response(&body);
    assert_eq!(57, res.unwrap_or_else(|e| panic!("{:?}", e)).len());
}

#[test]
fn test_all_pins_empty() {
    let res = all_pins_from_response("[]");
    assert_eq!(0, res.unwrap_or_else(|e| panic!("{:?}", e)).len());
}

#[test]
fn all_pins_drops_unparsable_urls() {
    let mut body = String::from("[");
    for i in 0..10 {
        if i > 0 {
            body.push(',');
        }
        let href = if i == 3 || i == 7 {
            ":// bad url/#".to_string()
        } else {
            format!("https://example.com/{}", i)
        };
        body.push_str(&format!(
            r#"{{"href":"{}","description":"pin {}","tags":"","shared":"no","toread":"no","time":"2017-05-22T17:46:54Z"}}"#,
            href, i
        ));
    }
    body.push(']');
    let res = all_pins_from_response(&body);
    let pins = res.expect("two bad records must not fail the fetch");
    assert_eq!(8, pins.len());
}

#[test]
fn all_pins_non_array_is_unrecognized() {
    let e = all_pins_from_response(r#"{"not":"an array"}"#).unwrap_err();
    assert_eq!(
        e,
        ApiError::UnrecognizedResponse("array of bookmarks expected from server".to_string())
    );
    let e = all_pins_from_response("not json at all").unwrap_err();
    assert!(matches!(e, ApiError::SerdeError(_)));
}

#[test]
fn api_result_normalization() {
    assert!(ApiResult {
        result_code: "done".to_string(),
        result: String::new(),
    }
    .ok()
    .is_ok());
    assert!(ApiResult {
        result_code: String::new(),
        result: "done".to_string(),
    }
    .ok()
    .is_ok());
    let e = ApiResult {
        result_code: "first".to_string(),
        result: "second".to_string(),
    }
    .ok()
    .unwrap_err();
    assert_eq!(e, ApiError::RemoteError("first".to_string()));
    let e = ApiResult {
        result_code: String::new(),
        result: "second".to_string(),
    }
    .ok()
    .unwrap_err();
    assert_eq!(e, ApiError::RemoteError("second".to_string()));
}

#[test]
fn mutation_result_on_malformed_body() {
    let e = mutation_result("not json").unwrap_err();
    assert!(matches!(e, ApiError::UnrecognizedResponse(_)));
    let e = mutation_result(r#"{"result":7}"#).unwrap_err();
    assert!(matches!(e, ApiError::UnrecognizedResponse(_)));
}

#[test]
fn update_time_on_malformed_body() {
    let e = update_time_from_response(r#"{"update_time":"yesterday"}"#).unwrap_err();
    assert!(matches!(e, ApiError::SerdeError(_)));
    let e = update_time_from_response(r#"{"other":1}"#).unwrap_err();
    assert!(matches!(e, ApiError::SerdeError(_)));
}

#[test]
fn url_error_on_bad_endpoint() {
    let api = Api::new("token".to_string());
    let e = api.add_auth_token(":// no way").unwrap_err();
    assert!(matches!(e, ApiError::UrlError(_)));
    assert_eq!(e.message(), "invalid url: :// no way");
}

#[test]
fn error_messages_carry_their_prefixes() {
    assert_eq!(
        ApiError::Network("connection refused".to_string()).message(),
        "network error: connection refused"
    );
    assert_eq!(
        ApiError::SerdeError("bad field".to_string()).message(),
        "serde error: bad field"
    );
    assert_eq!(
        ApiError::UnrecognizedResponse("odd shape".to_string()).message(),
        "invalid server response: odd shape"
    );
}

#[test]
fn suggest_tags_tolerates_odd_popular_values() {
    // A non-null, non-array popular value yields a single empty string.
    let body = r#"[{"popular":"oddball"}]"#;
    assert_eq!(vec![String::new()], suggest_tags_from_response(body).unwrap());
    // An empty popular array yields no suggestions, still successfully.
    let body = r#"[{"popular":[]}]"#;
    let r = suggest_tags_from_response(body).unwrap();
    assert!(r.is_empty());
    // Non-string elements fold to empty strings.
    let body = r#"[{"popular":["a",7,"b"]}]"#;
    assert_eq!(vec!["a", "", "b"], suggest_tags_from_response(body).unwrap());
}
