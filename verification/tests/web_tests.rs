use martian::string_map::StringMap;
use martian::web::{get_body_begin_index, get_headers_from_lines, get_http_version, HttpMethod,
    HttpParseError, HttpRequest, HttpVersion, StatusCode};

fn lines_of(request: &str) -> Vec<String> {
    request.split("\r\n").map(|line| line.to_string()).collect()
}

#[test]
fn should_serialize_simple_http_request_with_all_fields() {
    let raw_request = "GET / HTTP/1.1\r\nContent-Type: plain/text\r\n\r\nbody";
    let mut expected_http_headers = StringMap::new();
    expected_http_headers.insert("Content-Type".into(), "plain/text".into());
    let expected_http_request = HttpRequest {
        http_method: HttpMethod::Get,
        uri: "/".into(),
        http_version: HttpVersion { major: 1, minor: 1 },
        headers: Some(expected_http_headers),
        body: Some("body".into()),
    };
    let actual_serialized_http_request = HttpRequest::from(raw_request).unwrap();
    assert_eq!(expected_http_request, actual_serialized_http_request);
}

#[test]
fn should_find_enum_from_string_when_string_matches_http_method_exactly() {
    let method_string = "GET";
    let expected_http_method = HttpMethod::Get;
    let actual_http_method = HttpMethod::from(method_string);
    assert_eq!(actual_http_method.unwrap(), expected_http_method);
}

#[test]
fn should_find_enum_from_lower_case_string_when_given_valid_string() {
    let method_string = "post";
    let expected_http_method = HttpMethod::Post;
    let actual_http_method = HttpMethod::from(method_string);
    assert_eq!(actual_http_method.unwrap(), expected_http_method);
}

#[test]
#[should_panic]
fn should_have_an_error_result_when_method_does_not_exist() {
    let bad = "do";
    HttpMethod::from(bad).unwrap();
}

#[test]
fn should_return_expected_float_when_given_valid_http_version_string() {
    let full_version = "HTTP/1.1";
    let expected_version = HttpVersion { major: 1, minor: 1 };
    let actual_version = get_http_version(full_version);
    assert_eq!(actual_version.unwrap(), expected_version);
}

#[test]
#[should_panic]
fn should_have_an_error_result_when_version_is_not_valid() {
    let bad_version = "HTTP/G";
    get_http_version(bad_version).unwrap();
}

#[test]
#[should_panic]
fn should_have_an_error_result_when_version_has_invalid_delimiter() {
    let bad_version = "HTTP-1.1";
    get_http_version(bad_version).unwrap();
}

#[test]
fn should_create_a_simple_map_of_headers_when_string_matches_criteria() {
    let request = "STATUS_LINE\r\nheader1: foo\r\nheader2: bar\r\n\r\nbody";
    let request_lines = lines_of(request);
    let mut expected_headers = StringMap::new();
    expected_headers.insert("header1".into(), "foo".into());
    expected_headers.insert("header2".into(), "bar".into());
    let actual_headers = get_headers_from_lines(&request_lines).unwrap().unwrap();
    assert_eq!(actual_headers, expected_headers);
}

#[test]
fn should_return_none_when_headers_are_not_present_on_request() {
    let request = "STATUSLINE\r\n\r\n\r\n";
    let request_lines = lines_of(request);
    let actual_headers = get_headers_from_lines(&request_lines).unwrap();
    assert!(actual_headers.is_none());
}

#[test]
fn should_return_expected_line_when_getting_body_begin_of_full_request() {
    let request = "GET / HTTP/1.1\r\nContent-Type: plain-text\r\n\r\nbody";
    let request_lines = lines_of(request);
    let expected_index = 3;
    let actual_index = get_body_begin_index(&request_lines).unwrap();
    assert_eq!(actual_index, expected_index);
}

#[test]
fn should_pull_single_query_param_off_request_when_param_is_on_request() {
    let request = HttpRequest {
        http_method: HttpMethod::Get,
        uri: "/hello?greet=world".into(),
        http_version: HttpVersion { major: 1, minor: 1 },
        headers: None,
        body: None,
    };
    let mut expected_query_params = StringMap::new();
    expected_query_params.insert("greet".into(), "world".into());
    let actual_query_params = request.params().unwrap();
    assert_eq!(actual_query_params, expected_query_params);
}

#[test]
fn should_pull_query_params_off_request_when_params_are_on_request() {
    let request = HttpRequest {
        http_method: HttpMethod::Get,
        uri: "/hello?greet=world&foo=bar".into(),
        http_version: HttpVersion { major: 1, minor: 1 },
        headers: None,
        body: None,
    };
    let mut expected_query_params = StringMap::new();
    expected_query_params.insert("greet".into(), "world".into());
    expected_query_params.insert("foo".into(), "bar".into());
    let actual_query_params = request.params().unwrap();
    assert_eq!(actual_query_params, expected_query_params);
}

#[test]
fn should_return_none_when_no_params_are_on_request() {
    let request = HttpRequest {
        http_method: HttpMethod::Get,
        uri: "/hello".into(),
        http_version: HttpVersion { major: 1, minor: 1 },
        headers: None,
        body: None,
    };
    let actual_query_params = request.params();
    assert!(actual_query_params.is_none());
}

#[test]
fn status_line_round_trips_through_parsing() {
    let raw_request = "DELETE /items/7 HTTP/1.1\r\n";
    let request = HttpRequest::from(raw_request).unwrap();
    assert_eq!(request.http_method, HttpMethod::Delete);
    assert_eq!(request.uri, "/items/7".to_string());
    assert_eq!(request.http_version, HttpVersion { major: 1, minor: 1 });
    assert!(request.headers.is_none());
    assert!(request.body.is_none());
}

#[test]
fn method_parsing_ignores_ascii_case() {
    assert_eq!(HttpMethod::from("GET").unwrap(), HttpMethod::Get);
    assert_eq!(HttpMethod::from("get").unwrap(), HttpMethod::Get);
    assert_eq!(HttpMethod::from("GeT").unwrap(), HttpMethod::Get);
    assert_eq!(HttpMethod::from("OpTiOnS").unwrap(), HttpMethod::Options);
}

#[test]
fn request_without_header_lines_has_absent_headers() {
    let request = HttpRequest::from("GET / HTTP/1.1\r\n\r\n").unwrap();
    assert!(request.headers.is_none());
    assert!(request.body.is_none());
}

#[test]
fn request_with_header_line_has_that_header_and_body() {
    let request = HttpRequest::from(
        "GET / HTTP/1.1\r\nContent-Type: plain/text\r\n\r\nbody",
    )
    .unwrap();
    let headers = request.headers.unwrap();
    assert_eq!(headers.len(), 1);
    assert_eq!(headers.get("Content-Type").unwrap().as_str(), "plain/text");
    assert_eq!(request.body.unwrap(), "body".to_string());
}

#[test]
fn short_status_line_is_a_malformed_request() {
    assert_eq!(
        HttpRequest::from("GET /"),
        Err(HttpParseError::MalformedRequest)
    );
    assert_eq!(HttpRequest::from(""), Err(HttpParseError::MalformedRequest));
}

#[test]
fn unknown_method_token_is_a_typed_failure() {
    assert_eq!(
        HttpRequest::from("FETCH / HTTP/1.1\r\n\r\n"),
        Err(HttpParseError::UnknownMethod)
    );
}

#[test]
fn unparseable_version_numeral_is_a_typed_failure() {
    assert_eq!(
        HttpRequest::from("GET / HTTP/G\r\n\r\n"),
        Err(HttpParseError::InvalidVersion)
    );
    assert_eq!(
        HttpRequest::from("GET / HTTP-1.1\r\n\r\n"),
        Err(HttpParseError::InvalidVersion)
    );
}

#[test]
fn header_line_without_separator_is_a_typed_failure() {
    assert_eq!(
        HttpRequest::from("GET / HTTP/1.1\r\nbadheader\r\n\r\n"),
        Err(HttpParseError::MalformedHeader)
    );
}

#[test]
fn header_value_keeps_text_after_first_separator() {
    let request = HttpRequest::from("GET / HTTP/1.1\r\na: b: c\r\n\r\n").unwrap();
    let headers = request.headers.unwrap();
    assert_eq!(headers.get("a").unwrap().as_str(), "b: c");
}

#[test]
fn body_spans_every_remaining_line() {
    let request = HttpRequest::from("GET / HTTP/1.1\r\n\r\nline1\r\nline2").unwrap();
    assert_eq!(request.body.unwrap(), "line1\r\nline2".to_string());
}

#[test]
fn trailing_blank_lines_yield_no_body() {
    let request = HttpRequest::from("GET / HTTP/1.1\r\n\r\n\r\n").unwrap();
    assert!(request.body.is_none());
}

#[test]
fn later_query_param_overwrites_earlier_one_with_same_key() {
    let request = HttpRequest {
        http_method: HttpMethod::Get,
        uri: "/x?a=1&a=2".into(),
        http_version: HttpVersion { major: 1, minor: 1 },
        headers: None,
        body: None,
    };
    let params = request.params().unwrap();
    assert_eq!(params.len(), 1);
    assert_eq!(params.get("a").unwrap().as_str(), "2");
}

#[test]
fn query_piece_without_equals_contributes_no_param() {
    let request = HttpRequest {
        http_method: HttpMethod::Get,
        uri: "/x?flag".into(),
        http_version: HttpVersion { major: 1, minor: 1 },
        headers: None,
        body: None,
    };
    assert!(request.params().is_none());
}

#[test]
fn status_codes_carry_their_numeric_values() {
    assert_eq!(StatusCode::Okay.code(), 200);
    assert_eq!(StatusCode::InternalServerError.code(), 500);
}

#[test]
fn string_map_overwrites_and_reports_length() {
    let mut map = StringMap::new();
    assert!(map.is_empty());
    map.insert("k".into(), "v1".into());
    map.insert("k".into(), "v2".into());
    map.insert("other".into(), "w".into());
    assert_eq!(map.len(), 2);
    assert_eq!(map.get("k").unwrap().as_str(), "v2");
    assert_eq!(map.get("other").unwrap().as_str(), "w");
    assert!(map.get("missing").is_none());
    assert!(!map.is_empty());
}
