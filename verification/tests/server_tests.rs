use martian::server::{FixedHandler, Route, Server, ServerError};
use martian::web::{HttpMethod, HttpRequest, HttpResponse, HttpVersion, StatusCode};

fn test_get() -> FixedHandler {
    FixedHandler {
        response: HttpResponse {
            http_version: HttpVersion { major: 1, minor: 1 },
            status_code: StatusCode::Okay,
        },
    }
}

fn test_bad_get() -> FixedHandler {
    FixedHandler {
        response: HttpResponse {
            http_version: HttpVersion { major: 1, minor: 1 },
            status_code: StatusCode::Okay,
        },
    }
}

fn error_handler() -> FixedHandler {
    FixedHandler {
        response: HttpResponse {
            http_version: HttpVersion { major: 2, minor: 0 },
            status_code: StatusCode::InternalServerError,
        },
    }
}

fn request(method: HttpMethod, uri: &str) -> HttpRequest {
    HttpRequest {
        http_method: method,
        uri: uri.into(),
        http_version: HttpVersion { major: 1, minor: 1 },
        headers: None,
        body: None,
    }
}

#[test]
fn should_invoke_given_handler_function_when_request_has_correct_spec() {
    let expected_response = HttpResponse {
        http_version: HttpVersion { major: 1, minor: 1 },
        status_code: StatusCode::Okay,
    };
    let incoming = request(HttpMethod::Get, "/");
    let mut server = Server::default();
    server
        .route(
            Route::bind(HttpMethod::Get)
                .to("/", test_get())
                .to("/bad", test_bad_get()),
        )
        .unwrap();
    let actual_response = server.delegate(incoming).unwrap();
    assert_eq!(actual_response, expected_response);
}

#[test]
#[should_panic]
fn should_panic_when_attempting_to_bind_to_path_already_bound() {
    let mut server = Server::default();
    server
        .route(
            Route::bind(HttpMethod::Get)
                .to("/", test_get())
                .to("/", test_get()),
        )
        .unwrap();
}

#[test]
fn dispatch_picks_the_handler_of_the_matching_binding() {
    let mut server = Server::default();
    server.route(Route::bind(HttpMethod::Get).to("/", test_get())).unwrap();
    server
        .route(
            Route::bind(HttpMethod::Post)
                .to("/", error_handler())
                .to("/other", error_handler()),
        )
        .unwrap();
    let response = server.delegate(request(HttpMethod::Get, "/")).unwrap();
    assert_eq!(response, test_get().response);
    let other = server.delegate(request(HttpMethod::Post, "/other")).unwrap();
    assert_eq!(other, error_handler().response);
}

#[test]
fn duplicate_binding_is_rejected_whatever_the_handler() {
    let mut server = Server::default();
    server.route(Route::bind(HttpMethod::Get).to("/", test_get())).unwrap();
    let second = server.route(Route::bind(HttpMethod::Get).to("/", error_handler()));
    assert_eq!(second, Err(ServerError::DuplicateBinding));
    let same = server.route(Route::bind(HttpMethod::Get).to("/", test_get()));
    assert_eq!(same, Err(ServerError::DuplicateBinding));
}

#[test]
fn unmatched_dispatch_yields_the_explicit_not_found_result() {
    let mut server = Server::default();
    server.route(Route::bind(HttpMethod::Get).to("/", test_get())).unwrap();
    let response = server.delegate(request(HttpMethod::Post, "/unregistered"));
    assert!(response.is_none());
}

#[test]
fn uri_matching_is_exact_so_query_strings_make_distinct_bindings() {
    let mut server = Server::default();
    server.route(Route::bind(HttpMethod::Get).to("/foo", test_get())).unwrap();
    server.route(Route::bind(HttpMethod::Get).to("/foo?x=1", error_handler())).unwrap();
    let plain = server.delegate(request(HttpMethod::Get, "/foo")).unwrap();
    assert_eq!(plain, test_get().response);
    let with_query = server.delegate(request(HttpMethod::Get, "/foo?x=1")).unwrap();
    assert_eq!(with_query, error_handler().response);
    assert!(server.delegate(request(HttpMethod::Get, "/foo/")).is_none());
}

#[test]
fn registration_failure_leaves_the_server_unchanged() {
    let mut server = Server::default();
    server.route(Route::bind(HttpMethod::Get).to("/", test_get())).unwrap();
    let rejected = server.route(
        Route::bind(HttpMethod::Get).to("/new", error_handler()).to("/", error_handler()),
    );
    assert_eq!(rejected, Err(ServerError::DuplicateBinding));
    assert!(server.delegate(request(HttpMethod::Get, "/new")).is_none());
    let still_there = server.delegate(request(HttpMethod::Get, "/")).unwrap();
    assert_eq!(still_there, test_get().response);
}
