use shortener::app_settings::AppSettings;
use shortener::handlers::handlers::{create, CreateReply};
use shortener::handlers::models::{
    validate_custom_alias, validate_expiration_at, validate_expiration_date, FieldError, ShortenRequest,
    ShortenResponse,
};
use shortener::models::Timestamp;

fn config(len: usize) -> Option<AppSettings> {
    Some(AppSettings { port: 3000, max_shortened_len: len, store_dir: "data".to_string() })
}

fn far_future() -> Timestamp {
    Timestamp { secs: 4_000_000_000, nanos: 0 }
}

fn request(url: &str, alias: Option<&str>, expires_at: Option<Timestamp>) -> ShortenRequest {
    ShortenRequest { url: url.to_string(), custom_alias: alias.map(|a| a.to_string()), expires_at }
}

#[test]
fn alias_must_have_the_configured_length_in_bytes() {
    assert_eq!(validate_custom_alias("abcdef", &config(6)), Ok(()));
    assert_eq!(validate_custom_alias("abc", &config(6)), Err(FieldError::BadAliasLength));
    assert_eq!(validate_custom_alias("abcdefg", &config(6)), Err(FieldError::BadAliasLength));
    // three two-byte characters are six bytes
    assert_eq!(validate_custom_alias("ééé", &config(6)), Ok(()));
}

#[test]
fn expiry_must_lie_after_now() {
    let now = Timestamp { secs: 1000, nanos: 10 };
    assert_eq!(validate_expiration_at(&Timestamp { secs: 1000, nanos: 11 }, now), Ok(()));
    assert_eq!(validate_expiration_at(&Timestamp { secs: 1000, nanos: 10 }, now), Err(FieldError::ExpirationInPast));
    assert_eq!(validate_expiration_at(&Timestamp { secs: 999, nanos: 999_999_999 }, now), Err(FieldError::ExpirationInPast));
    assert_eq!(validate_expiration_date(&Timestamp { secs: 0, nanos: 0 }), Err(FieldError::ExpirationInPast));
    assert_eq!(validate_expiration_date(&far_future()), Ok(()));
}

#[test]
fn validate_with_reports_fields_in_order() {
    let now = Timestamp { secs: 1000, nanos: 0 };
    let r = request("x", Some("abc"), Some(Timestamp { secs: 5, nanos: 0 }));
    assert_eq!(
        r.validate_with(false, &config(6), now),
        Err(vec![FieldError::InvalidUrl, FieldError::BadAliasLength, FieldError::ExpirationInPast])
    );
    assert_eq!(r.validate_with(true, &config(3), Timestamp { secs: 1, nanos: 0 }), Ok(()));
    let plain = request("x", None, None);
    assert_eq!(plain.validate_with(true, &None, now), Ok(()));
    assert_eq!(plain.validate_with(false, &None, now), Err(vec![FieldError::InvalidUrl]));
}

#[test]
fn validate_checks_the_url() {
    assert_eq!(request("https://example.com/a?b=c", None, None).validate(&None), Ok(()));
    assert_eq!(request("not a url", None, None).validate(&None), Err(vec![FieldError::InvalidUrl]));
    assert_eq!(request("", None, None).validate(&None), Err(vec![FieldError::InvalidUrl]));
    assert_eq!(
        request("https://example.com", Some("ab"), Some(Timestamp { secs: 0, nanos: 0 })).validate(&config(6)),
        Err(vec![FieldError::BadAliasLength, FieldError::ExpirationInPast])
    );
}

#[test]
fn create_accepts_a_valid_request() {
    let reply = create(&request("https://example.com", Some("abcdef"), Some(far_future())), &config(6));
    assert_eq!(reply.status(), 201);
    assert_eq!(reply, CreateReply::Created(ShortenResponse { id: "test".to_string() }));
}

#[test]
fn create_rejects_an_invalid_request() {
    let reply = create(&request("nope", None, None), &None);
    assert_eq!(reply.status(), 400);
    assert_eq!(reply, CreateReply::Rejected(vec![FieldError::InvalidUrl]));
}

#[test]
fn field_error_names_and_codes() {
    assert_eq!(FieldError::InvalidUrl.field(), "url");
    assert_eq!(FieldError::InvalidUrl.code(), "url");
    assert_eq!(FieldError::BadAliasLength.field(), "custom_alias");
    assert_eq!(FieldError::BadAliasLength.code(), "bad_alias_length");
    assert_eq!(FieldError::ExpirationInPast.field(), "expires_at");
    assert_eq!(FieldError::ExpirationInPast.code(), "expiration_in_past");
}
