//! The remote client's protocol layer.
//!
//! The remote service's JSON responses are inconsistent: mutation results
//! arrive under either of two field names, tag frequencies arrive as a
//! mapping or as an empty list, and bookmark payloads may hold records that
//! do not parse. This module normalizes all of it into typed results, and
//! builds the request URLs every call needs. The transfer itself is the
//! caller's: each operation is a URL builder plus a response decoder.

use vstd::prelude::*;

use crate::clock::{datetime_of, now_timestamp, parse_datetime};
use crate::json;
use crate::json::{json_of, obj_get, view_of, JsonView};
use crate::matching::str_eq;
use crate::pin::{split_sp, split_tag_text, Pin, PinView, Tag};
use crate::pin::pin_wf;
use crate::request::{base_len_ok, pair_len_ok, parse_with_params, url_is_valid, url_len_ok,
    url_ok, url_with_params};

verus! {

/// The remote service's API root.
pub open spec fn base_url_spec() -> Seq<char> {
    "https://api.pinboard.in/v1"@
}

/// The remote service's API root.
pub fn base_url() -> (s: String)
    ensures
        s@ == base_url_spec(),
{
    String::from_str("https://api.pinboard.in/v1")
}

/// What can go wrong between a request and a decoded response. Every
/// variant is a recoverable value; remote data never aborts the process.
#[derive(Debug, Clone, PartialEq, Eq)]
pub enum ApiError {
    /// A request URL could not be built from this endpoint text.
    UrlError(String),
    /// The response had none of the shapes the protocol allows.
    UnrecognizedResponse(String),
    /// The server answered with a non-success status; the message is its
    /// reason phrase.
    ServerError(String),
    /// The transfer itself failed.
    Network(String),
    /// A response or a cached payload did not decode.
    SerdeError(String),
    /// The server reported failure; the message is its literal text.
    RemoteError(String),
}

impl ApiError {
    /// The error's message text.
    pub open spec fn message_spec(&self) -> Seq<char> {
        match self {
            ApiError::UrlError(m) => "invalid url: "@ + m@,
            ApiError::UnrecognizedResponse(m) => "invalid server response: "@ + m@,
            ApiError::ServerError(m) => "Server couldn't fulfill request: "@ + m@,
            ApiError::Network(m) => "network error: "@ + m@,
            ApiError::SerdeError(m) => "serde error: "@ + m@,
            ApiError::RemoteError(m) => m@,
        }
    }

    /// The error rendered for display.
    pub fn message(&self) -> (r: String)
        ensures
            r@ == self.message_spec(),
    {
        match self {
            ApiError::UrlError(m) => String::from_str("invalid url: ").concat(m.as_str()),
            ApiError::UnrecognizedResponse(m) => String::from_str("invalid server response: ")
                .concat(m.as_str()),
            ApiError::ServerError(m) => String::from_str("Server couldn't fulfill request: ")
                .concat(m.as_str()),
            ApiError::Network(m) => String::from_str("network error: ").concat(m.as_str()),
            ApiError::SerdeError(m) => String::from_str("serde error: ").concat(m.as_str()),
            ApiError::RemoteError(m) => m.clone(),
        }
    }
}

/// A mutation endpoint's reply. The service names the field `result_code`
/// on some endpoints and `result` on others; a missing field decodes to the
/// empty string.
pub struct ApiResult {
    pub result_code: String,
    pub result: String,
}

impl ApiResult {
    /// Success exactly when either field is the literal "done"; otherwise
    /// the error carries whichever field is non-empty, preferring
    /// `result_code`.
    pub fn ok(self) -> (r: Result<(), ApiError>)
        ensures
            r is Ok <==> (self.result_code@ == "done"@ || self.result@ == "done"@),
            r matches Err(e) ==> (e matches ApiError::RemoteError(m) && m@ == (
            if self.result_code@.len() > 0 {
                self.result_code@
            } else {
                self.result@
            })),
    {
        if str_eq(self.result_code.as_str(), "done") || str_eq(self.result.as_str(), "done") {
            Ok(())
        } else if !self.result_code.as_str().is_empty() {
            Err(ApiError::RemoteError(self.result_code))
        } else {
            Err(ApiError::RemoteError(self.result))
        }
    }
}

/// A string field that defaults: an absent key reads as the empty string;
/// a present non-string is a shape error.
pub open spec fn spec_str_field_or_empty(o: Seq<(Seq<char>, JsonView)>, key: Seq<char>) -> Option<
    Seq<char>,
> {
    match obj_get(o, key) {
        None => Some(Seq::empty()),
        Some(JsonView::Str(s)) => Some(s),
        Some(_) => None,
    }
}

/// A required string field: present and a string, or a shape error.
pub open spec fn spec_str_field(o: Seq<(Seq<char>, JsonView)>, key: Seq<char>) -> Option<
    Seq<char>,
> {
    match obj_get(o, key) {
        Some(JsonView::Str(s)) => Some(s),
        _ => None,
    }
}

/// An optional string field: an absent key or JSON null is no value; a
/// present non-string is a shape error.
pub open spec fn spec_opt_str_field(o: Seq<(Seq<char>, JsonView)>, key: Seq<char>) -> Option<
    Option<Seq<char>>,
> {
    match obj_get(o, key) {
        None => Some(None),
        Some(JsonView::Null) => Some(None),
        Some(JsonView::Str(s)) => Some(Some(s)),
        Some(_) => None,
    }
}

/// The two result fields of a mutation response, each defaulting to
/// empty; nothing when the response is not an object or a present field
/// is not a string.
pub open spec fn spec_api_result(j: JsonView) -> Option<(Seq<char>, Seq<char>)> {
    match j {
        JsonView::Obj(o) => match (
            spec_str_field_or_empty(o, "result_code"@),
            spec_str_field_or_empty(o, "result"@),
        ) {
            (Some(rc), Some(rr)) => Some((rc, rr)),
            _ => None,
        },
        _ => None,
    }
}

/// Reads a string field that defaults to empty when absent.
fn str_field_or_empty(v: &serde_json::Value, key: &str) -> (r: Option<String>)
    ensures
        view_of(*v) matches JsonView::Obj(o) ==> ((r is Some <==> spec_str_field_or_empty(
            o,
            key@,
        ) is Some) && (r matches Some(s) ==> spec_str_field_or_empty(o, key@) == Some(s@))),
{
    match json::get_field(v, key) {
        None => Some(String::new()),
        Some(f) => json::value_as_str(f),
    }
}

/// Reads a required string field.
fn str_field(v: &serde_json::Value, key: &str) -> (r: Option<String>)
    ensures
        view_of(*v) matches JsonView::Obj(o) ==> ((r is Some <==> spec_str_field(o, key@) is Some)
            && (r matches Some(s) ==> spec_str_field(o, key@) == Some(s@))),
        !(view_of(*v) is Obj) ==> r is None,
{
    match json::get_field(v, key) {
        None => None,
        Some(f) => json::value_as_str(f),
    }
}

/// Reads an optional string field; JSON null counts as absent.
fn opt_str_field(v: &serde_json::Value, key: &str) -> (r: Option<Option<String>>)
    ensures
        view_of(*v) matches JsonView::Obj(o) ==> ((r is Some <==> spec_opt_str_field(
            o,
            key@,
        ) is Some) && (r matches Some(os) ==> spec_opt_str_field(o, key@) == Some(os.deep_view()))),
{
    match json::get_field(v, key) {
        None => Some(None),
        Some(f) => {
            if json::value_is_null(f) {
                Some(None)
            } else {
                match json::value_as_str(f) {
                    Some(s) => Some(Some(s)),
                    None => None,
                }
            }
        },
    }
}

/// An `ApiResult` read from a parsed response: the response must be an
/// object; each field must be a string when present and defaults to ""
/// when absent.
pub fn api_result_from_value(v: &serde_json::Value) -> (r: Option<ApiResult>)
    ensures
        r is Some <==> spec_api_result(view_of(*v)) is Some,
        r matches Some(a) ==> spec_api_result(view_of(*v)) == Some((a.result_code@, a.result@)),
{
    if !json::value_is_object(v) {
        return None;
    }
    let result_code = match str_field_or_empty(v, "result_code") {
        Some(s) => s,
        None => {
            return None;
        },
    };
    let result = match str_field_or_empty(v, "result") {
        Some(s) => s,
        None => {
            return None;
        },
    };
    Some(ApiResult { result_code, result })
}

/// Decodes a mutation endpoint's response body and normalizes it to
/// success or a typed error: success exactly when the parsed body is a
/// result object one of whose fields reads "done"; a remote failure
/// carries the non-empty field; anything else is unrecognized.
pub fn mutation_result(body: &str) -> (r: Result<(), ApiError>)
    ensures
        json_of(body@) is None ==> (r matches Err(e) && e is UnrecognizedResponse),
        json_of(body@) matches Some(j) ==> (spec_api_result(j) is None ==> (r matches Err(e)
            && e is UnrecognizedResponse)),
        json_of(body@) matches Some(j) ==> (spec_api_result(j) matches Some(f) ==> ({
            &&& (r is Ok <==> (f.0 == "done"@ || f.1 == "done"@))
            &&& (r matches Err(e) ==> (e matches ApiError::RemoteError(m) && m@ == (
            if f.0.len() > 0 {
                f.0
            } else {
                f.1
            })))
        })),
        r matches Err(e) ==> (e is UnrecognizedResponse || e is RemoteError),
{
    match json::parse_json(body) {
        Err(e) => Err(ApiError::UnrecognizedResponse(json::json_error_message(&e))),
        Ok(v) => match api_result_from_value(&v) {
            None => Err(
                ApiError::UnrecognizedResponse(
                    String::from_str("expected a result object from the server"),
                ),
            ),
            Some(res) => res.ok(),
        },
    }
}

/// Classifies an HTTP response: a success status passes the body through;
/// any other status is a server error carrying the status's canonical
/// reason phrase, or a fixed marker when the status has none.
pub fn response_body(status: u16, reason: Option<String>, body: String) -> (r: Result<
    String,
    ApiError,
>)
    ensures
        200 <= status < 300 ==> r == Ok::<String, ApiError>(body),
        !(200 <= status < 300) ==> (r matches Err(ApiError::ServerError(m)) && m@ == (
        match reason {
            Some(t) => t@,
            None => "UNKNOWN RESPONSE"@,
        })),
{
    if 200 <= status && status < 300 {
        Ok(body)
    } else {
        match reason {
            Some(t) => Err(ApiError::ServerError(t)),
            None => Err(ApiError::ServerError(String::from_str("UNKNOWN RESPONSE"))),
        }
    }
}

/// A decoded bookmark record is kept when it decoded at all and its URL is
/// a valid one.
pub open spec fn keep_pin(o: Option<PinView>) -> bool {
    match o {
        Some(p) => url_len_ok(p.url) && url_ok(p.url),
        None => false,
    }
}

/// The bookmarks that remain, in order, after dropping records that did
/// not decode or whose URL is not valid.
pub open spec fn valid_pins_of(s: Seq<Option<PinView>>) -> Seq<PinView>
    decreases s.len(),
{
    if s.len() == 0 {
        Seq::empty()
    } else {
        let rest = valid_pins_of(s.drop_last());
        match s.last() {
            Some(p) => if keep_pin(Some(p)) {
                rest.push(p)
            } else {
                rest
            },
            None => rest,
        }
    }
}

proof fn lemma_valid_pins_wf(s: Seq<Option<PinView>>)
    requires
        forall|k: int|
            0 <= k < s.len() ==> (#[trigger] s[k] matches Some(p) ==> p.tag_list == split_sp(
                p.tags,
            )),
    ensures
        forall|k: int| 0 <= k < valid_pins_of(s).len() ==> pin_wf(#[trigger] valid_pins_of(s)[k]),
    decreases s.len(),
{
    if s.len() > 0 {
        assert forall|k: int|
            0 <= k < s.drop_last().len() implies (#[trigger] s.drop_last()[k] matches Some(p)
            ==> p.tag_list == split_sp(p.tags)) by {
            assert(s.drop_last()[k] == s[k]);
        }
        lemma_valid_pins_wf(s.drop_last());
        let rest = valid_pins_of(s.drop_last());
        assert(s.last() == s[s.len() - 1]);
        assert forall|k: int|
            0 <= k < valid_pins_of(s).len() implies pin_wf(#[trigger] valid_pins_of(s)[k]) by {
            match s.last() {
                Some(p) => {
                    if keep_pin(Some(p)) {
                        assert(valid_pins_of(s) == rest.push(p));
                        if k < rest.len() {
                            assert(valid_pins_of(s)[k] == rest[k]);
                            assert(pin_wf(rest[k]));
                        } else {
                            assert(valid_pins_of(s)[k] == p);
                            assert(p.tag_list == split_sp(p.tags));
                            assert(pin_wf(p));
                        }
                    } else {
                        assert(valid_pins_of(s) == rest);
                        assert(pin_wf(rest[k]));
                    }
                },
                None => {
                    assert(valid_pins_of(s) == rest);
                    assert(pin_wf(rest[k]));
                },
            }
        }
    }
}

/// Whether a parsed bookmark record decodes: an object with string
/// fields `href`, `description`, `tags`, `shared` and `toread`; optional
/// string fields `extended`, `meta` and `hash`, null counting as absent;
/// and a `time` field that, when present, is an RFC 3339 date string.
pub open spec fn pin_record_ok(j: JsonView) -> bool {
    match j {
        JsonView::Obj(o) => {
            &&& spec_str_field(o, "href"@) is Some
            &&& spec_str_field(o, "description"@) is Some
            &&& spec_str_field(o, "tags"@) is Some
            &&& spec_str_field(o, "shared"@) is Some
            &&& spec_str_field(o, "toread"@) is Some
            &&& spec_opt_str_field(o, "extended"@) is Some
            &&& spec_opt_str_field(o, "meta"@) is Some
            &&& spec_opt_str_field(o, "hash"@) is Some
            &&& match obj_get(o, "time"@) {
                None => true,
                Some(JsonView::Str(s)) => datetime_of(s) is Some,
                Some(_) => false,
            }
        },
        _ => false,
    }
}

/// How a decoded bookmark relates to its parsed record: every field is
/// the record's reading and the tag list is the space-split of the tag
/// text. A record without a `time` field takes its creation time from the
/// clock, so that one field is then unconstrained.
pub open spec fn pin_record_matches(j: JsonView, p: PinView) -> bool {
    match j {
        JsonView::Obj(o) => {
            &&& spec_str_field(o, "href"@) == Some(p.url)
            &&& spec_str_field(o, "description"@) == Some(p.title)
            &&& spec_str_field(o, "tags"@) == Some(p.tags)
            &&& spec_str_field(o, "shared"@) == Some(p.shared)
            &&& spec_str_field(o, "toread"@) == Some(p.toread)
            &&& spec_opt_str_field(o, "extended"@) == Some(p.extended)
            &&& spec_opt_str_field(o, "meta"@) == Some(p.meta)
            &&& spec_opt_str_field(o, "hash"@) == Some(p.hash)
            &&& match obj_get(o, "time"@) {
                None => true,
                Some(JsonView::Str(s)) => datetime_of(s) == Some(p.time as int),
                Some(_) => false,
            }
            &&& p.tag_list == split_sp(p.tags)
        },
        _ => false,
    }
}

/// How one payload element relates to its decoding attempt: a record that
/// does not decode yields nothing; one that does yields its reading.
pub open spec fn record_read(j: JsonView, o: Option<PinView>) -> bool {
    match o {
        None => !pin_record_ok(j),
        Some(p) => pin_record_ok(j) && pin_record_matches(j, p),
    }
}

/// One bookmark record read from a parsed response entry, exactly when
/// `pin_record_ok` holds of it; any other shape drops the record.
pub fn pin_from_value(v: &serde_json::Value) -> (r: Option<Pin>)
    ensures
        r is Some <==> pin_record_ok(view_of(*v)),
        r matches Some(p) ==> pin_record_matches(view_of(*v), p@),
        record_read(view_of(*v), r.deep_view()),
{
    if !json::value_is_object(v) {
        return None;
    }
    let url = match str_field(v, "href") {
        Some(s) => s,
        None => {
            return None;
        },
    };
    let title = match str_field(v, "description") {
        Some(s) => s,
        None => {
            return None;
        },
    };
    let tags = match str_field(v, "tags") {
        Some(s) => s,
        None => {
            return None;
        },
    };
    let shared = match str_field(v, "shared") {
        Some(s) => s,
        None => {
            return None;
        },
    };
    let toread = match str_field(v, "toread") {
        Some(s) => s,
        None => {
            return None;
        },
    };
    let extended = match opt_str_field(v, "extended") {
        Some(o) => o,
        None => {
            return None;
        },
    };
    let meta = match opt_str_field(v, "meta") {
        Some(o) => o,
        None => {
            return None;
        },
    };
    let hash = match opt_str_field(v, "hash") {
        Some(o) => o,
        None => {
            return None;
        },
    };
    let time = match json::get_field(v, "time") {
        None => now_timestamp(),
        Some(f) => match json::value_as_str(f) {
            Some(s) => match parse_datetime(s.as_str()) {
                Some(t) => t,
                None => {
                    return None;
                },
            },
            None => {
                return None;
            },
        },
    };
    let tag_list = split_tag_text(tags.as_str());
    Some(Pin { url, title, tags, shared, toread, extended, time, meta, hash, tag_list })
}

/// Keeps, in order, the records that decoded and carry a valid URL.
pub fn collect_valid_pins(opts: Vec<Option<Pin>>) -> (r: Vec<Pin>)
    ensures
        r.deep_view() == valid_pins_of(opts.deep_view()),
{
    let ghost orig = opts.deep_view();
    let mut opts = opts;
    let mut r: Vec<Pin> = Vec::new();
    let ghost mut i: int = 0;
    proof {
        assert(opts.deep_view() =~~= orig.skip(0));
        assert(r.deep_view() =~~= valid_pins_of(orig.take(0)));
    }
    while opts.len() > 0
        invariant
            0 <= i <= orig.len(),
            opts@.len() == orig.len() - i,
            opts.deep_view() == orig.skip(i),
            r.deep_view() == valid_pins_of(orig.take(i)),
        decreases opts@.len(),
    {
        let ghost prev = opts.deep_view();
        let ghost prevv = opts@;
        let o = opts.remove(0);
        proof {
            assert(o.deep_view() == prev[0]);
            assert(prev[0] == orig[i]);
            assert forall|k: int| 0 <= k < opts@.len() implies opts.deep_view()[k] == orig.skip(
                i + 1,
            )[k] by {
                assert(opts@[k] == prevv[k + 1]);
                assert(opts.deep_view()[k] == opts@[k].deep_view());
                assert(prev[k + 1] == prevv[k + 1].deep_view());
                assert(prev[k + 1] == orig.skip(i)[k + 1]);
            }
            assert(opts.deep_view() =~= orig.skip(i + 1));
            assert(orig.take(i + 1).drop_last() =~= orig.take(i));
            assert(orig.take(i + 1).last() == orig[i]);
        }
        let ghost prev_r = r.deep_view();
        match o {
            Some(p) => {
                let keep = p.url.as_str().unicode_len() < 0x1000_0000 && url_is_valid(
                    p.url.as_str(),
                );
                proof {
                    assert(orig[i] matches Some(pv) && pv == p@);
                    assert(keep == keep_pin(orig[i]));
                }
                if keep {
                    let ghost pv = p@;
                    let ghost prevr = r@;
                    r.push(p);
                    proof {
                        assert forall|k: int| 0 <= k < r@.len() implies r.deep_view()[k]
                            == prev_r.push(pv)[k] by {
                            if k < prevr.len() {
                                assert(r@[k] == prevr[k]);
                                assert(r.deep_view()[k] == r@[k].deep_view());
                                assert(prev_r[k] == prevr[k].deep_view());
                            } else {
                                assert(r@[k]@ == pv);
                            }
                        }
                        assert(r.deep_view() =~= prev_r.push(pv));
                    }
                }
            },
            None => {
                proof {
                    assert(orig[i] is None);
                }
            },
        }
        proof {
            assert(r.deep_view() == valid_pins_of(orig.take(i + 1)));
            i = i + 1;
        }
    }
    proof {
        assert(orig.take(i) =~~= orig);
    }
    r
}

/// Decodes the fetch-all-bookmarks response: the body must parse as a
/// JSON array; each record that decodes and carries a valid URL is kept,
/// in order, and every other record is dropped without failing the fetch.
/// Every bookmark returned is well-formed.
pub fn all_pins_from_response(body: &str) -> (r: Result<Vec<Pin>, ApiError>)
    ensures
        json_of(body@) is None ==> (r matches Err(e) && e is SerdeError),
        json_of(body@) matches Some(j) ==> (!(j is Arr) ==> (r matches Err(
            ApiError::UnrecognizedResponse(m),
        ) && m@ == "array of bookmarks expected from server"@)),
        json_of(body@) matches Some(j) ==> (j matches JsonView::Arr(a) ==> (r matches Ok(pins)
            && exists|os: Seq<Option<PinView>>|
            {
                &&& os.len() == a.len()
                &&& (forall|i: int| 0 <= i < a.len() ==> record_read(a[i], #[trigger] os[i]))
                &&& pins.deep_view() == valid_pins_of(os)
            })),
        r matches Ok(pins) ==> forall|k: int|
            0 <= k < pins@.len() ==> pin_wf(#[trigger] pins.deep_view()[k]),
        r matches Err(e) ==> (e is SerdeError || e is UnrecognizedResponse),
{
    let v = match json::parse_json(body) {
        Ok(v) => v,
        Err(e) => {
            return Err(ApiError::SerdeError(json::json_error_message(&e)));
        },
    };
    let entries = match json::array_entries(&v) {
        Some(a) => a,
        None => {
            return Err(
                ApiError::UnrecognizedResponse(
                    String::from_str("array of bookmarks expected from server"),
                ),
            );
        },
    };
    let ghost a = match view_of(v) {
        JsonView::Arr(a) => a,
        _ => Seq::empty(),
    };
    let mut opts: Vec<Option<Pin>> = Vec::new();
    let mut j: usize = 0;
    while j < entries.len()
        invariant
            j <= entries@.len(),
            opts@.len() == j,
            a.len() == entries@.len(),
            forall|i: int| 0 <= i < a.len() ==> view_of(#[trigger] entries@[i]) == a[i],
            forall|k: int| 0 <= k < j ==> record_read(a[k], #[trigger] opts.deep_view()[k]),
        decreases entries@.len() - j,
    {
        let o = pin_from_value(&entries[j]);
        let ghost ov = o.deep_view();
        let ghost prevd = opts.deep_view();
        let ghost prevv = opts@;
        opts.push(o);
        proof {
            assert(record_read(a[j as int], ov));
            assert forall|k: int|
                0 <= k < j + 1 implies record_read(a[k], #[trigger] opts.deep_view()[k]) by {
                if k < j {
                    assert(opts@[k] == prevv[k]);
                    assert(opts.deep_view()[k] == opts@[k].deep_view());
                    assert(prevd[k] == prevv[k].deep_view());
                    assert(record_read(a[k], prevd[k]));
                } else {
                    assert(opts.deep_view()[k] == opts@[k].deep_view());
                    assert(opts@[k].deep_view() == ov);
                }
            }
        }
        j = j + 1;
    }
    let ghost osw = opts.deep_view();
    proof {
        assert forall|k: int|
            0 <= k < osw.len() implies (#[trigger] osw[k] matches Some(p) ==> p.tag_list
            == split_sp(p.tags)) by {
            assert(record_read(a[k], osw[k]));
            match osw[k] {
                Some(p) => {
                    assert(pin_record_matches(a[k], p));
                },
                None => {},
            }
        }
        lemma_valid_pins_wf(osw);
    }
    let pins = collect_valid_pins(opts);
    proof {
        assert(osw.len() == a.len());
        assert(forall|i: int| 0 <= i < a.len() ==> record_read(a[i], #[trigger] osw[i]));
        assert(pins.deep_view() == valid_pins_of(osw));
        assert(exists|os: Seq<Option<PinView>>|
            {
                &&& os.len() == a.len()
                &&& (forall|i: int| 0 <= i < a.len() ==> record_read(a[i], #[trigger] os[i]))
                &&& pins.deep_view() == valid_pins_of(os)
            });
    }
    Ok(pins)
}

/// The first entry's popular-tags list, scanning in order; `None` when no
/// entry exposes one.
pub open spec fn first_popular(s: Seq<Option<Seq<Seq<char>>>>) -> Option<Seq<Seq<char>>>
    decreases s.len(),
{
    if s.len() == 0 {
        None
    } else {
        match s[0] {
            Some(l) => Some(l),
            None => first_popular(s.skip(1)),
        }
    }
}

/// Scanning a prefix of nothing-entries decides the first popular list:
/// none at all when the prefix is everything, and the list at the first
/// other entry when there is one.
proof fn lemma_first_popular_at(s: Seq<Option<Seq<Seq<char>>>>, idx: int)
    requires
        0 <= idx <= s.len(),
        forall|k: int| 0 <= k < idx ==> s[k] is None,
    ensures
        idx == s.len() ==> first_popular(s) is None,
        idx < s.len() && s[idx] is Some ==> first_popular(s) == s[idx],
    decreases idx,
{
    if idx == 0 {
        if s.len() > 0 {
            match s[0] {
                Some(l) => {
                    assert(first_popular(s) == Some(l));
                },
                None => {},
            }
        }
    } else {
        assert(s[0] is None);
        assert(first_popular(s) == first_popular(s.skip(1)));
        assert forall|k: int| 0 <= k < idx - 1 implies s.skip(1)[k] is None by {
            assert(s.skip(1)[k] == s[k + 1]);
        }
        lemma_first_popular_at(s.skip(1), idx - 1);
        if idx < s.len() {
            assert(s.skip(1)[idx - 1] == s[idx]);
        }
    }
}

/// Picks the first entry that exposed a popular-tags list; when no entry
/// did, the response is unrecognized.
pub fn find_popular(entries: Vec<Option<Vec<String>>>) -> (r: Result<Vec<String>, ApiError>)
    ensures
        first_popular(entries.deep_view()) matches Some(l) ==> (r matches Ok(v) && v.deep_view()
            == l),
        first_popular(entries.deep_view()) is None ==> (r matches Err(
            ApiError::UnrecognizedResponse(m),
        ) && m@ == "Unrecognized response from API: posts/suggest"@),
{
    let n = entries.len();
    let mut idx: usize = 0;
    while idx < n && entries[idx].is_none()
        invariant
            0 <= idx <= n,
            n == entries@.len(),
            forall|k: int| 0 <= k < idx ==> entries.deep_view()[k] is None,
        decreases n - idx,
    {
        proof {
            assert(entries.deep_view()[idx as int] == entries@[idx as int].deep_view());
        }
        idx = idx + 1;
    }
    proof {
        lemma_first_popular_at(entries.deep_view(), idx as int);
    }
    if idx == n {
        Err(
            ApiError::UnrecognizedResponse(
                String::from_str("Unrecognized response from API: posts/suggest"),
            ),
        )
    } else {
        proof {
            assert(entries.deep_view()[idx as int] == entries@[idx as int].deep_view());
        }
        let mut work = entries;
        let o = work.remove(idx);
        match o {
            Some(l) => Ok(l),
            None => {
                proof {
                    assert(false);
                }
                Err(ApiError::UnrecognizedResponse(String::new()))
            },
        }
    }
}

/// A suggestion-list element read as a string; a non-string element reads
/// as the empty string.
pub open spec fn spec_str_or_empty(j: JsonView) -> Seq<char> {
    match j {
        JsonView::Str(s) => s,
        _ => Seq::empty(),
    }
}

/// One parsed suggestion entry's popular-tags list: present when the
/// entry is an object with a non-null `popular` field. A string array
/// yields its strings in order; a non-array value yields one empty
/// string.
pub open spec fn spec_entry_popular(j: JsonView) -> Option<Seq<Seq<char>>> {
    match j {
        JsonView::Obj(o) => match obj_get(o, "popular"@) {
            None => None,
            Some(JsonView::Null) => None,
            Some(JsonView::Arr(a)) => Some(Seq::new(a.len(), |i: int| spec_str_or_empty(a[i]))),
            Some(_) => Some(seq![Seq::<char>::empty()]),
        },
        _ => None,
    }
}

/// One suggestion entry's popular-tags list, as `spec_entry_popular` reads
/// it from the parsed entry.
pub fn popular_of_entry(v: &serde_json::Value) -> (r: Option<Vec<String>>)
    ensures
        r is Some <==> spec_entry_popular(view_of(*v)) is Some,
        r matches Some(l) ==> spec_entry_popular(view_of(*v)) == Some(l.deep_view()),
{
    match json::get_field(v, "popular") {
        None => None,
        Some(f) => {
            if json::value_is_null(f) {
                None
            } else {
                match json::array_entries(f) {
                    None => {
                        let mut one: Vec<String> = Vec::new();
                        one.push(String::new());
                        proof {
                            assert(one.deep_view() =~= seq![Seq::<char>::empty()]);
                        }
                        Some(one)
                    },
                    Some(items) => {
                        let ghost a = match view_of(*f) {
                            JsonView::Arr(a) => a,
                            _ => Seq::empty(),
                        };
                        let mut out: Vec<String> = Vec::new();
                        let mut j: usize = 0;
                        while j < items.len()
                            invariant
                                j <= items@.len(),
                                out@.len() == j,
                                a.len() == items@.len(),
                                forall|i: int|
                                    0 <= i < a.len() ==> view_of(#[trigger] items@[i]) == a[i],
                                forall|k: int|
                                    0 <= k < j ==> out.deep_view()[k] == spec_str_or_empty(
                                        #[trigger] a[k],
                                    ),
                            decreases items@.len() - j,
                        {
                            let s = match json::value_as_str(&items[j]) {
                                Some(s) => s,
                                None => String::new(),
                            };
                            let ghost sv = s@;
                            let ghost prevd = out.deep_view();
                            let ghost prevv = out@;
                            out.push(s);
                            proof {
                                assert(sv == spec_str_or_empty(a[j as int]));
                                assert forall|k: int|
                                    0 <= k < j + 1 implies out.deep_view()[k] == spec_str_or_empty(
                                    #[trigger] a[k],
                                ) by {
                                    if k < j {
                                        assert(out@[k] == prevv[k]);
                                        assert(out.deep_view()[k] == out@[k].deep_view());
                                        assert(prevd[k] == prevv[k].deep_view());
                                    } else {
                                        assert(out@[k]@ == sv);
                                    }
                                }
                            }
                            j = j + 1;
                        }
                        proof {
                            assert(out.deep_view() =~= Seq::new(
                                a.len(),
                                |i: int| spec_str_or_empty(a[i]),
                            ));
                        }
                        Some(out)
                    },
                }
            }
        },
    }
}

/// Decodes the suggest-tags response: the body must parse as a JSON
/// array; the first entry exposing a non-null `popular` field supplies
/// the suggestions, in its order; no such entry is an unrecognized
/// response.
pub fn suggest_tags_from_response(body: &str) -> (r: Result<Vec<String>, ApiError>)
    ensures
        json_of(body@) is None ==> (r matches Err(e) && e is SerdeError),
        json_of(body@) matches Some(j) ==> (!(j is Arr) ==> (r matches Err(e) && e is SerdeError)),
        json_of(body@) matches Some(j) ==> (j matches JsonView::Arr(a) ==> ({
            let es = Seq::new(a.len(), |i: int| spec_entry_popular(a[i]));
            &&& (first_popular(es) matches Some(l) ==> (r matches Ok(v) && v.deep_view() == l))
            &&& (first_popular(es) is None ==> (r matches Err(ApiError::UnrecognizedResponse(m))
                && m@ == "Unrecognized response from API: posts/suggest"@))
        })),
        r matches Err(e) ==> (e is SerdeError || e is UnrecognizedResponse),
{
    let v = match json::parse_json(body) {
        Ok(v) => v,
        Err(e) => {
            return Err(ApiError::SerdeError(json::json_error_message(&e)));
        },
    };
    let entries = match json::array_entries(&v) {
        Some(a) => a,
        None => {
            return Err(
                ApiError::SerdeError(String::from_str("expected a list of suggestions")),
            );
        },
    };
    let ghost a = match view_of(v) {
        JsonView::Arr(a) => a,
        _ => Seq::empty(),
    };
    let ghost es = Seq::new(a.len(), |i: int| spec_entry_popular(a[i]));
    let mut opts: Vec<Option<Vec<String>>> = Vec::new();
    let mut j: usize = 0;
    while j < entries.len()
        invariant
            j <= entries@.len(),
            opts@.len() == j,
            a.len() == entries@.len(),
            es == Seq::new(a.len(), |i: int| spec_entry_popular(a[i])),
            forall|i: int| 0 <= i < a.len() ==> view_of(#[trigger] entries@[i]) == a[i],
            forall|k: int| 0 <= k < j ==> opts.deep_view()[k] == es[k],
        decreases entries@.len() - j,
    {
        let o = popular_of_entry(&entries[j]);
        let ghost ov = o.deep_view();
        let ghost prevd = opts.deep_view();
        let ghost prevv = opts@;
        opts.push(o);
        proof {
            assert(ov == spec_entry_popular(a[j as int]));
            assert forall|k: int| 0 <= k < j + 1 implies opts.deep_view()[k] == es[k] by {
                if k < j {
                    assert(opts@[k] == prevv[k]);
                    assert(opts.deep_view()[k] == opts@[k].deep_view());
                    assert(prevd[k] == prevv[k].deep_view());
                } else {
                    assert(opts@[k].deep_view() == ov);
                }
            }
        }
        j = j + 1;
    }
    proof {
        assert(opts.deep_view() =~= es);
    }
    find_popular(opts)
}

/// The two shapes a tag-frequency response may take, made explicit: a
/// mapping from tag to count, a list of some length, or neither.
pub enum TagsPayload {
    Mapping(Vec<Tag>),
    List(usize),
    Malformed,
}

/// A frequency read from an object entry's value.
pub open spec fn spec_uint_of(j: JsonView) -> u64 {
    match j {
        JsonView::Uint(n) => n,
        _ => 0,
    }
}

/// The tag pairs of a parsed frequency mapping, in the object's entry
/// order; nothing when some value is not a non-negative integer.
pub open spec fn spec_obj_tags(o: Seq<(Seq<char>, JsonView)>) -> Option<Seq<(Seq<char>, u64)>> {
    if forall|i: int| 0 <= i < o.len() ==> (#[trigger] o[i]).1 is Uint {
        Some(Seq::new(o.len(), |i: int| (o[i].0, spec_uint_of(o[i].1))))
    } else {
        None
    }
}

/// Classifies a parsed tag-frequency response. An object whose values are
/// all non-negative integers is a mapping, in the object's entry order; an
/// array is a list; anything else, including an object with a non-integer
/// value, is malformed.
pub fn tags_payload_from_value(v: &serde_json::Value) -> (r: TagsPayload)
    ensures
        view_of(*v) matches JsonView::Obj(o) ==> (match spec_obj_tags(o) {
            Some(ts) => (r matches TagsPayload::Mapping(tv) && tv.deep_view() == ts),
            None => r is Malformed,
        }),
        view_of(*v) matches JsonView::Arr(a) ==> (r matches TagsPayload::List(n) && n == a.len()),
        !(view_of(*v) is Obj) && !(view_of(*v) is Arr) ==> r is Malformed,
{
    match json::object_entries(v) {
        Some(entries) => {
            let ghost o = match view_of(*v) {
                JsonView::Obj(o) => o,
                _ => Seq::empty(),
            };
            let mut tags: Vec<Tag> = Vec::new();
            let mut j: usize = 0;
            while j < entries.len()
                invariant
                    j <= entries@.len(),
                    tags@.len() == j,
                    view_of(*v) == JsonView::Obj(o),
                    o.len() == entries@.len(),
                    forall|i: int|
                        0 <= i < o.len() ==> (#[trigger] entries@[i]).0@ == o[i].0 && view_of(
                            entries@[i].1,
                        ) == o[i].1,
                    forall|k: int|
                        0 <= k < j ==> (#[trigger] o[k]).1 is Uint && tags.deep_view()[k] == (
                        o[k].0,
                        spec_uint_of(o[k].1),
                        ),
                decreases entries@.len() - j,
            {
                let freq = match json::value_as_u64(&entries[j].1) {
                    Some(n) => n,
                    None => {
                        proof {
                            assert(!((o[j as int]).1 is Uint));
                            assert(spec_obj_tags(o) is None);
                        }
                        return TagsPayload::Malformed;
                    },
                };
                let ghost prevd = tags.deep_view();
                let ghost prevv = tags@;
                let name = entries[j].0.clone();
                let ghost nv = name@;
                tags.push(Tag(name, freq));
                proof {
                    assert(nv == o[j as int].0);
                    assert forall|k: int|
                        0 <= k < j + 1 implies (#[trigger] o[k]).1 is Uint && tags.deep_view()[k]
                        == (o[k].0, spec_uint_of(o[k].1)) by {
                        if k < j {
                            assert(tags@[k] == prevv[k]);
                            assert(tags.deep_view()[k] == tags@[k].deep_view());
                            assert(prevd[k] == prevv[k].deep_view());
                        } else {
                            assert(tags@[k]@ == (nv, freq));
                        }
                    }
                }
                j = j + 1;
            }
            proof {
                assert(spec_obj_tags(o) matches Some(ts) && tags.deep_view() =~= ts);
            }
            TagsPayload::Mapping(tags)
        },
        None => match json::array_entries(v) {
            Some(items) => TagsPayload::List(items.len()),
            None => TagsPayload::Malformed,
        },
    }
}

/// Normalizes a classified tag-frequency payload: a mapping yields its
/// tags; an empty list yields no tags; a non-empty list or a malformed
/// payload is a decode error.
pub fn tags_from_payload(p: TagsPayload) -> (r: Result<Vec<Tag>, ApiError>)
    ensures
        p matches TagsPayload::Mapping(ts) ==> r == Ok::<Vec<Tag>, ApiError>(ts),
        p == TagsPayload::List(0usize) ==> (r matches Ok(ts) && ts@.len() == 0),
        !(p is Mapping) && p != TagsPayload::List(0usize) ==> (r matches Err(e)
            && e is SerdeError),
{
    match p {
        TagsPayload::Mapping(ts) => Ok(ts),
        TagsPayload::List(n) => {
            if n == 0 {
                Ok(Vec::new())
            } else {
                Err(ApiError::SerdeError(String::from_str("expected an empty list of tags")))
            }
        },
        TagsPayload::Malformed => {
            Err(
                ApiError::SerdeError(
                    String::from_str("expected a mapping from tag to frequency"),
                ),
            )
        },
    }
}

/// Decodes the tag-frequency response: a mapping of name to count yields
/// its tags in the object's entry order; an empty list yields no tags;
/// anything else is a decode error.
pub fn tags_frequency_from_response(body: &str) -> (r: Result<Vec<Tag>, ApiError>)
    ensures
        json_of(body@) is None ==> (r matches Err(e) && e is SerdeError),
        json_of(body@) matches Some(j) ==> (j matches JsonView::Obj(o) ==> (match spec_obj_tags(
            o,
        ) {
            Some(ts) => (r matches Ok(v) && v.deep_view() == ts),
            None => (r matches Err(e) && e is SerdeError),
        })),
        json_of(body@) matches Some(j) ==> (j matches JsonView::Arr(a) ==> ((a.len() == 0 ==> (
        r matches Ok(v) && v@.len() == 0)) && (a.len() > 0 ==> (r matches Err(e)
            && e is SerdeError)))),
        json_of(body@) matches Some(j) ==> ((!(j is Obj) && !(j is Arr)) ==> (r matches Err(e)
            && e is SerdeError)),
        r matches Err(e) ==> e is SerdeError,
{
    let v = match json::parse_json(body) {
        Ok(v) => v,
        Err(e) => {
            return Err(ApiError::SerdeError(json::json_error_message(&e)));
        },
    };
    let payload = tags_payload_from_value(&v);
    tags_from_payload(payload)
}

/// The Unix timestamp a parsed last-update response denotes: its
/// `update_time` field must be an RFC 3339 date string.
pub open spec fn spec_update_time(j: JsonView) -> Option<int> {
    match j {
        JsonView::Obj(o) => match obj_get(o, "update_time"@) {
            Some(JsonView::Str(s)) => datetime_of(s),
            _ => None,
        },
        _ => None,
    }
}

/// Decodes the last-update response: an object whose `update_time` field
/// is an RFC 3339 date, yielded as a Unix timestamp; anything else is a
/// decode error.
pub fn update_time_from_response(body: &str) -> (r: Result<i64, ApiError>)
    ensures
        json_of(body@) is None ==> (r matches Err(e) && e is SerdeError),
        json_of(body@) matches Some(j) ==> (spec_update_time(j) is None ==> (r matches Err(e)
            && e is SerdeError)),
        json_of(body@) matches Some(j) ==> (spec_update_time(j) matches Some(t) ==> (r matches Ok(
            v,
        ) && v as int == t)),
        r matches Err(e) ==> e is SerdeError,
{
    let v = match json::parse_json(body) {
        Ok(v) => v,
        Err(e) => {
            return Err(ApiError::SerdeError(json::json_error_message(&e)));
        },
    };
    let f = match json::get_field(&v, "update_time") {
        Some(f) => f,
        None => {
            return Err(ApiError::SerdeError(String::from_str("expected an update_time field")));
        },
    };
    let s = match json::value_as_str(f) {
        Some(s) => s,
        None => {
            return Err(ApiError::SerdeError(String::from_str("expected an update_time string")));
        },
    };
    match parse_datetime(s.as_str()) {
        Some(t) => Ok(t),
        None => Err(ApiError::SerdeError(String::from_str("invalid update_time date"))),
    }
}

/// The remote client: holds the caller's auth token and builds the URL of
/// every request. The transfers themselves are the caller's; each builder
/// here pairs with a decoder above.
pub struct Api {
    auth_token: String,
}

impl Api {
    /// The auth token every request carries.
    pub closed spec fn token(&self) -> Seq<char> {
        self.auth_token@
    }

    /// The query pairs appended to every request: the format indicator and
    /// the auth token.
    pub open spec fn auth_pairs(&self) -> Seq<(Seq<char>, Seq<char>)> {
        seq![("format"@, "json"@), ("auth_token"@, self.token())]
    }

    pub fn new(auth_token: String) -> (a: Api)
        ensures
            a.token() == auth_token@,
    {
        Api { auth_token }
    }

    /// Whether appending the auth pairs to this URL succeeds: the URL and
    /// the token must be within the url crate's bounds and the URL must
    /// parse.
    pub open spec fn spec_auth_ok(&self, url: Seq<char>) -> bool {
        &&& base_len_ok(url)
        &&& pair_len_ok(self.token())
        &&& url_with_params(url, self.auth_pairs()) is Some
    }

    /// Appends the format indicator and the auth token to a request URL;
    /// a URL the url crate rejects, or an oversized input, is an error.
    pub fn add_auth_token(&self, url: &str) -> (r: Result<String, ApiError>)
        ensures
            r is Ok <==> self.spec_auth_ok(url@),
            r matches Ok(s) ==> url_with_params(url@, self.auth_pairs()) == Some(s@),
            r matches Err(e) ==> (e matches ApiError::UrlError(m) && m@ == url@),
    {
        proof {
            reveal_strlit("format");
            reveal_strlit("json");
            reveal_strlit("auth_token");
        }
        if url.unicode_len() >= 0x100_0000 {
            return Err(ApiError::UrlError(String::from_str(url)));
        }
        if self.auth_token.as_str().unicode_len() >= 0x10_0000 {
            return Err(ApiError::UrlError(String::from_str(url)));
        }
        let mut params: Vec<(String, String)> = Vec::new();
        params.push((String::from_str("format"), String::from_str("json")));
        params.push((String::from_str("auth_token"), self.auth_token.clone()));
        proof {
            assert(params.deep_view().len() == 2);
            assert(params.deep_view()[0] == ("format"@, "json"@));
            assert(params.deep_view()[1] == ("auth_token"@, self.token()));
            assert(params.deep_view() =~= self.auth_pairs());
            assert(params@[0].0@ == "format"@);
            assert(params@[0].1@ == "json"@);
            assert(params@[1].0@ == "auth_token"@);
            assert(params@[1].1@ == self.auth_token@);
        }
        match parse_with_params(url, &params) {
            Some(s) => Ok(s),
            None => Err(ApiError::UrlError(String::from_str(url))),
        }
    }

    /// Whether building a full request URL from this endpoint and these
    /// pairs succeeds: everything within the url crate's bounds, and both
    /// the endpoint and the pair-carrying URL must parse.
    pub open spec fn spec_request_ok(
        &self,
        endpoint: Seq<char>,
        params: Seq<(Seq<char>, Seq<char>)>,
    ) -> bool {
        &&& base_len_ok(endpoint)
        &&& params.len() <= 16
        &&& (forall|i: int|
            0 <= i < params.len() ==> pair_len_ok((#[trigger] params[i]).0) && pair_len_ok(
                params[i].1,
            ))
        &&& (url_with_params(endpoint, params) matches Some(mid) && self.spec_auth_ok(mid))
    }

    /// Builds a full request URL: the endpoint's own query pairs first,
    /// then the format indicator and the auth token.
    pub fn request_url(&self, endpoint: &str, params: &Vec<(String, String)>) -> (r: Result<
        String,
        ApiError,
    >)
        ensures
            r is Ok <==> self.spec_request_ok(endpoint@, params.deep_view()),
            r matches Ok(s) ==> (url_with_params(endpoint@, params.deep_view()) matches Some(mid)
                && url_with_params(mid, self.auth_pairs()) == Some(s@)),
            r matches Err(e) ==> e is UrlError,
    {
        let ghost dv = params.deep_view();
        if endpoint.unicode_len() >= 0x100_0000 {
            return Err(ApiError::UrlError(String::from_str(endpoint)));
        }
        if params.len() > 16 {
            return Err(ApiError::UrlError(String::from_str(endpoint)));
        }
        let mut i: usize = 0;
        while i < params.len()
            invariant
                i <= params@.len(),
                dv == params.deep_view(),
                forall|k: int|
                    0 <= k < i ==> pair_len_ok((#[trigger] params@[k]).0@) && pair_len_ok(
                        params@[k].1@,
                    ),
            decreases params@.len() - i,
        {
            let ka = params[i].0.as_str().unicode_len();
            let kb = params[i].1.as_str().unicode_len();
            if ka >= 0x10_0000 || kb >= 0x10_0000 {
                proof {
                    assert(dv[i as int].0 == params@[i as int].0@);
                    assert(dv[i as int].1 == params@[i as int].1@);
                    assert(!(pair_len_ok(dv[i as int].0) && pair_len_ok(dv[i as int].1)));
                }
                return Err(ApiError::UrlError(String::from_str(endpoint)));
            }
            proof {
                assert(params@[i as int].0@.len() == ka as nat);
                assert(params@[i as int].1@.len() == kb as nat);
                assert forall|k: int|
                    0 <= k < i + 1 implies pair_len_ok((#[trigger] params@[k]).0@) && pair_len_ok(
                        params@[k].1@,
                    ) by {
                    if k < i {
                        assert(pair_len_ok(params@[k].0@) && pair_len_ok(params@[k].1@));
                    }
                }
            }
            i = i + 1;
        }
        proof {
            assert forall|k: int|
                0 <= k < dv.len() implies pair_len_ok((#[trigger] dv[k]).0) && pair_len_ok(
                    dv[k].1,
                ) by {
                assert(dv[k].0 == params@[k].0@);
                assert(dv[k].1 == params@[k].1@);
            }
        }
        let mid = match parse_with_params(endpoint, params) {
            Some(s) => s,
            None => {
                return Err(ApiError::UrlError(String::from_str(endpoint)));
            },
        };
        self.add_auth_token(mid.as_str())
    }
}

/// The query pairs of an add-bookmark request: every field of the
/// bookmark, a missing description as the empty string, and the protocol's
/// replace marker.
pub open spec fn add_params(p: PinView) -> Seq<(Seq<char>, Seq<char>)> {
    seq![
        ("url"@, p.url),
        ("description"@, p.title),
        ("tags"@, p.tags),
        ("toread"@, p.toread),
        ("extended"@, match p.extended {
            Some(d) => d,
            None => Seq::empty(),
        }),
        ("shared"@, p.shared),
        ("replace"@, "yes"@),
    ]
}

impl Api {
    /// The URL of the fetch-all-bookmarks request.
    pub fn all_pins_url(&self) -> (r: Result<String, ApiError>)
        ensures
            r is Ok <==> self.spec_request_ok(base_url_spec() + "/posts/all"@, Seq::empty()),
            r matches Ok(s) ==> (url_with_params(
                base_url_spec() + "/posts/all"@,
                Seq::empty(),
            ) matches Some(mid) && url_with_params(mid, self.auth_pairs()) == Some(s@)),
            r matches Err(e) ==> e is UrlError,
    {
        let endpoint = base_url().concat("/posts/all");
        let params: Vec<(String, String)> = Vec::new();
        proof {
            assert(params.deep_view() =~= Seq::<(Seq<char>, Seq<char>)>::empty());
        }
        self.request_url(endpoint.as_str(), &params)
    }

    /// The URL of the fetch-last-update-time request.
    pub fn recent_update_url(&self) -> (r: Result<String, ApiError>)
        ensures
            r is Ok <==> self.spec_request_ok(base_url_spec() + "/posts/update"@, Seq::empty()),
            r matches Ok(s) ==> (url_with_params(
                base_url_spec() + "/posts/update"@,
                Seq::empty(),
            ) matches Some(mid) && url_with_params(mid, self.auth_pairs()) == Some(s@)),
            r matches Err(e) ==> e is UrlError,
    {
        let endpoint = base_url().concat("/posts/update");
        let params: Vec<(String, String)> = Vec::new();
        proof {
            assert(params.deep_view() =~= Seq::<(Seq<char>, Seq<char>)>::empty());
        }
        self.request_url(endpoint.as_str(), &params)
    }

    /// The URL of the fetch-tag-frequencies request.
    pub fn tags_frequency_url(&self) -> (r: Result<String, ApiError>)
        ensures
            r is Ok <==> self.spec_request_ok(base_url_spec() + "/tags/get"@, Seq::empty()),
            r matches Ok(s) ==> (url_with_params(
                base_url_spec() + "/tags/get"@,
                Seq::empty(),
            ) matches Some(mid) && url_with_params(mid, self.auth_pairs()) == Some(s@)),
            r matches Err(e) ==> e is UrlError,
    {
        let endpoint = base_url().concat("/tags/get");
        let params: Vec<(String, String)> = Vec::new();
        proof {
            assert(params.deep_view() =~= Seq::<(Seq<char>, Seq<char>)>::empty());
        }
        self.request_url(endpoint.as_str(), &params)
    }

    /// The URL of a suggest-tags request for one page.
    pub fn suggest_tags_url(&self, url: &str) -> (r: Result<String, ApiError>)
        ensures
            r is Ok <==> self.spec_request_ok(base_url_spec() + "/posts/suggest"@, seq![("url"@, url@)]),
            r matches Ok(s) ==> (url_with_params(
                base_url_spec() + "/posts/suggest"@,
                seq![("url"@, url@)],
            ) matches Some(mid) && url_with_params(mid, self.auth_pairs()) == Some(s@)),
            r matches Err(e) ==> e is UrlError,
    {
        let endpoint = base_url().concat("/posts/suggest");
        let mut params: Vec<(String, String)> = Vec::new();
        params.push((String::from_str("url"), String::from_str(url)));
        proof {
            assert(params.deep_view() =~= seq![("url"@, url@)]);
        }
        self.request_url(endpoint.as_str(), &params)
    }

    /// The URL of a delete-bookmark request.
    pub fn delete_url(&self, url: &str) -> (r: Result<String, ApiError>)
        ensures
            r is Ok <==> self.spec_request_ok(base_url_spec() + "/posts/delete"@, seq![("url"@, url@)]),
            r matches Ok(s) ==> (url_with_params(
                base_url_spec() + "/posts/delete"@,
                seq![("url"@, url@)],
            ) matches Some(mid) && url_with_params(mid, self.auth_pairs()) == Some(s@)),
            r matches Err(e) ==> e is UrlError,
    {
        let endpoint = base_url().concat("/posts/delete");
        let mut params: Vec<(String, String)> = Vec::new();
        params.push((String::from_str("url"), String::from_str(url)));
        proof {
            assert(params.deep_view() =~= seq![("url"@, url@)]);
        }
        self.request_url(endpoint.as_str(), &params)
    }

    /// The URL of a delete-tag request.
    pub fn tag_delete_url(&self, tag: &str) -> (r: Result<String, ApiError>)
        ensures
            r is Ok <==> self.spec_request_ok(base_url_spec() + "/tags/delete"@, seq![("tag"@, tag@)]),
            r matches Ok(s) ==> (url_with_params(
                base_url_spec() + "/tags/delete"@,
                seq![("tag"@, tag@)],
            ) matches Some(mid) && url_with_params(mid, self.auth_pairs()) == Some(s@)),
            r matches Err(e) ==> e is UrlError,
    {
        let endpoint = base_url().concat("/tags/delete");
        let mut params: Vec<(String, String)> = Vec::new();
        params.push((String::from_str("tag"), String::from_str(tag)));
        proof {
            assert(params.deep_view() =~= seq![("tag"@, tag@)]);
        }
        self.request_url(endpoint.as_str(), &params)
    }

    /// The URL of a rename-tag request.
    pub fn tag_rename_url(&self, old_tag: &str, new_tag: &str) -> (r: Result<String, ApiError>)
        ensures
            r is Ok <==> self.spec_request_ok(base_url_spec() + "/tags/rename"@, seq![("old"@, old_tag@), ("new"@, new_tag@)]),
            r matches Ok(s) ==> (url_with_params(
                base_url_spec() + "/tags/rename"@,
                seq![("old"@, old_tag@), ("new"@, new_tag@)],
            ) matches Some(mid) && url_with_params(mid, self.auth_pairs()) == Some(s@)),
            r matches Err(e) ==> e is UrlError,
    {
        let endpoint = base_url().concat("/tags/rename");
        let mut params: Vec<(String, String)> = Vec::new();
        params.push((String::from_str("old"), String::from_str(old_tag)));
        params.push((String::from_str("new"), String::from_str(new_tag)));
        proof {
            assert(params.deep_view() =~= seq![("old"@, old_tag@), ("new"@, new_tag@)]);
        }
        self.request_url(endpoint.as_str(), &params)
    }

    /// The URL of an add-bookmark request carrying every field of the
    /// bookmark.
    pub fn add_url_request(&self, p: &Pin) -> (r: Result<String, ApiError>)
        ensures
            r is Ok <==> self.spec_request_ok(base_url_spec() + "/posts/add"@, add_params(p@)),
            r matches Ok(s) ==> (url_with_params(
                base_url_spec() + "/posts/add"@,
                add_params(p@),
            ) matches Some(mid) && url_with_params(mid, self.auth_pairs()) == Some(s@)),
            r matches Err(e) ==> e is UrlError,
    {
        let endpoint = base_url().concat("/posts/add");
        let extended = match &p.extended {
            Some(d) => d.clone(),
            None => String::new(),
        };
        let mut params: Vec<(String, String)> = Vec::new();
        params.push((String::from_str("url"), p.url.clone()));
        params.push((String::from_str("description"), p.title.clone()));
        params.push((String::from_str("tags"), p.tags.clone()));
        params.push((String::from_str("toread"), p.toread.clone()));
        params.push((String::from_str("extended"), extended));
        params.push((String::from_str("shared"), p.shared.clone()));
        params.push((String::from_str("replace"), String::from_str("yes")));
        proof {
            assert(params.deep_view() =~= add_params(p@));
        }
        self.request_url(endpoint.as_str(), &params)
    }
}

} // verus!
