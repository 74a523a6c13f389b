use shortener::routes::{get_id_from_path, route, HttpMethod, Route};

#[test]
fn id_is_the_fourth_part_of_the_path() {
    assert_eq!(get_id_from_path("/api/links/abc"), Some("abc".to_string()));
    assert_eq!(get_id_from_path("/api/x/y/z"), Some("y".to_string()));
    assert_eq!(get_id_from_path("/api/x/"), Some(String::new()));
    assert_eq!(get_id_from_path("a/b/c/d"), Some("d".to_string()));
}

#[test]
fn path_with_fewer_than_three_slashes_has_no_id() {
    assert_eq!(get_id_from_path("/api/abc"), None);
    assert_eq!(get_id_from_path(""), None);
    assert_eq!(get_id_from_path("///"), Some(String::new()));
    assert_eq!(get_id_from_path("//"), None);
}

#[test]
fn health_and_shorten_routes() {
    assert_eq!(route(HttpMethod::Get, "/health"), Route::Health);
    assert_eq!(route(HttpMethod::Post, "/api/shorten"), Route::Shorten);
    assert_eq!(route(HttpMethod::Post, "/health"), Route::NotFound);
    assert_eq!(route(HttpMethod::Delete, "/health"), Route::NotFound);
    assert_eq!(route(HttpMethod::Other, "/health"), Route::NotFound);
    assert_eq!(route(HttpMethod::Get, "/health/"), Route::NotFound);
}

#[test]
fn api_routes_carry_the_id() {
    assert_eq!(route(HttpMethod::Get, "/api/l/abc"), Route::Lookup("abc".to_string()));
    assert_eq!(route(HttpMethod::Delete, "/api/l/abc"), Route::Remove("abc".to_string()));
    assert_eq!(route(HttpMethod::Get, "/api/abc"), Route::NotFound);
    assert_eq!(route(HttpMethod::Delete, "/api/abc"), Route::NotFound);
    assert_eq!(route(HttpMethod::Get, "/apx/l/abc"), Route::NotFound);
    assert_eq!(route(HttpMethod::Post, "/api/l/abc"), Route::NotFound);
}

#[test]
fn fixed_replies() {
    use_replies();
}

fn use_replies() {
    let ok = shortener::routes::response_empty_ok();
    assert_eq!((ok.status, ok.body), (200, ""));
    let nf = shortener::routes::response_not_found();
    assert_eq!((nf.status, nf.body), (404, "{\"error\":\"Not Found\"}"));
}
