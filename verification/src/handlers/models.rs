use vstd::prelude::*;
use vstd::utf8::encode_utf8;
use validator::ValidateUrl;
use crate::app_settings::AppSettings;
use crate::app_settings::settings;
use crate::models::{not_after, Timestamp};

verus! {

/// Why a field of a request was refused.
#[derive(Debug, Clone, Copy, PartialEq, Eq)]
pub enum FieldError {
    /// `url` is not a URL.
    InvalidUrl,
    /// `custom_alias` is not exactly as long as the configured code length.
    BadAliasLength,
    /// `expires_at` is not in the future.
    ExpirationInPast,
}

impl FieldError {
    /// The name of the field the error is about.
    pub fn field(&self) -> (s: &'static str)
        ensures
            s@ == match self {
                FieldError::InvalidUrl => "url"@,
                FieldError::BadAliasLength => "custom_alias"@,
                FieldError::ExpirationInPast => "expires_at"@,
            },
    {
        match self {
            FieldError::InvalidUrl => "url",
            FieldError::BadAliasLength => "custom_alias",
            FieldError::ExpirationInPast => "expires_at",
        }
    }

    /// The error's code.
    pub fn code(&self) -> (s: &'static str)
        ensures
            s@ == match self {
                FieldError::InvalidUrl => "url"@,
                FieldError::BadAliasLength => "bad_alias_length"@,
                FieldError::ExpirationInPast => "expiration_in_past"@,
            },
    {
        match self {
            FieldError::InvalidUrl => "url",
            FieldError::BadAliasLength => "bad_alias_length",
            FieldError::ExpirationInPast => "expiration_in_past",
        }
    }
}

/// Whether `url::Url::parse` accepts the text.
pub uninterp spec fn url_parses(s: Seq<char>) -> bool;

/// `ValidateUrl::validate_url` of a `String`: whether `url::Url::parse`
/// accepts it. That parser is a function of the text alone; what it accepts
/// is not restated here but named.
#[verifier::external_body]
fn check_url(s: &String) -> (r: bool)
    ensures
        r == url_parses(s@),
{
    s.validate_url()
}

/// `chrono::Utc::now()`, as seconds and nanoseconds since the Unix epoch.
/// It reads the system clock, so nothing is promised of the value; chrono
/// panics where the clock is set before 1970.
#[verifier::external_body]
fn utc_now() -> Timestamp {
    let now = chrono::Utc::now();
    Timestamp { secs: now.timestamp(), nanos: now.timestamp_subsec_nanos() }
}

/// An alias is refused unless its length in bytes (its UTF-8 encoding's
/// length, as `str::len` reports it) is the configured code length.
pub open spec fn alias_refused(alias: Seq<char>, max_len: usize) -> bool {
    (encode_utf8(alias).len() as usize) != max_len
}

/// Checks a custom alias against the configured code length.
pub fn validate_custom_alias(alias: &str, config: &Option<AppSettings>) -> (r: Result<(), FieldError>)
    requires
        config.is_some(),
    ensures
        r is Err <==> alias_refused(alias@, config.unwrap().max_shortened_len),
        r matches Err(e) ==> e == FieldError::BadAliasLength,
{
    if alias.len() != settings::max_shortened_len(config) {
        return Err(FieldError::BadAliasLength);
    }
    Ok(())
}

/// Checks that an expiry time lies after `now`.
pub fn validate_expiration_at(date: &Timestamp, now: Timestamp) -> (r: Result<(), FieldError>)
    ensures
        r is Err <==> not_after(*date, now),
        r matches Err(e) ==> e == FieldError::ExpirationInPast,
{
    if date.is_not_after(&now) {
        return Err(FieldError::ExpirationInPast);
    }
    Ok(())
}

/// Checks that an expiry time lies after the current time.
pub fn validate_expiration_date(date: &Timestamp) -> (r: Result<(), FieldError>)
    ensures
        exists|now: Timestamp| (r is Err <==> #[trigger] not_after(*date, now)),
        r matches Err(e) ==> e == FieldError::ExpirationInPast,
{
    let now = utc_now();
    validate_expiration_at(date, now)
}

/// A request to shorten a URL, with an optional alias and expiry time.
#[derive(Debug, PartialEq, Eq)]
pub struct ShortenRequest {
    pub url: String,
    pub custom_alias: Option<String>,
    pub expires_at: Option<Timestamp>,
}

/// The refusal of an alias, if any.
pub open spec fn alias_errors(alias: Option<String>, config: Option<AppSettings>) -> Seq<FieldError> {
    match alias {
        Some(a) => if alias_refused(a@, config.unwrap().max_shortened_len) {
            seq![FieldError::BadAliasLength]
        } else {
            Seq::<FieldError>::empty()
        },
        None => Seq::<FieldError>::empty(),
    }
}

/// The refusal of an expiry time, if any.
pub open spec fn expiry_errors(expires_at: Option<Timestamp>, now: Timestamp) -> Seq<FieldError> {
    match expires_at {
        Some(e) => if not_after(e, now) {
            seq![FieldError::ExpirationInPast]
        } else {
            Seq::<FieldError>::empty()
        },
        None => Seq::<FieldError>::empty(),
    }
}

/// What is wrong with a request, field by field: the URL must parse, an
/// alias must be as long as the configured code length and an expiry time
/// must lie after `now`.
pub open spec fn request_errors(req: ShortenRequest, url_ok: bool, config: Option<AppSettings>, now: Timestamp) -> Seq<FieldError> {
    (if url_ok {
        Seq::<FieldError>::empty()
    } else {
        seq![FieldError::InvalidUrl]
    }) + alias_errors(req.custom_alias, config) + expiry_errors(req.expires_at, now)
}

/// The outcome of checking a request whose errors are `errs`.
pub open spec fn outcome_of(errs: Seq<FieldError>) -> Result<(), Seq<FieldError>> {
    if errs.len() == 0 {
        Ok(())
    } else {
        Err(errs)
    }
}

/// The view of a check's result.
pub open spec fn result_view(r: Result<(), Vec<FieldError>>) -> Result<(), Seq<FieldError>> {
    match r {
        Ok(()) => Ok(()),
        Err(v) => Err(v@),
    }
}

impl ShortenRequest {
    /// Checks every field, with `url_ok` the verdict on the URL and `now`
    /// the current time, and reports each refused field in field order.
    pub fn validate_with(&self, url_ok: bool, config: &Option<AppSettings>, now: Timestamp) -> (r: Result<(), Vec<FieldError>>)
        requires
            self.custom_alias is Some ==> config.is_some(),
        ensures
            result_view(r) == outcome_of(request_errors(*self, url_ok, *config, now)),
    {
        let mut errs: Vec<FieldError> = Vec::new();
        if !url_ok {
            errs.push(FieldError::InvalidUrl);
        }
        let ghost e1 = errs@;
        match &self.custom_alias {
            Some(a) => {
                if let Err(e) = validate_custom_alias(a.as_str(), config) {
                    errs.push(e);
                }
            },
            None => {},
        }
        let ghost e2 = errs@;
        match &self.expires_at {
            Some(d) => {
                if let Err(e) = validate_expiration_at(d, now) {
                    errs.push(e);
                }
            },
            None => {},
        }
        proof {
            assert(e2 =~= e1 + alias_errors(self.custom_alias, *config));
            assert(errs@ =~= request_errors(*self, url_ok, *config, now));
        }
        if errs.len() == 0 {
            Ok(())
        } else {
            Err(errs)
        }
    }

    /// Checks every field: the URL must parse, an alias must be as long as
    /// the configured code length and an expiry time must lie in the future.
    /// Each refused field is reported, in field order.
    pub fn validate(&self, config: &Option<AppSettings>) -> (r: Result<(), Vec<FieldError>>)
        requires
            self.custom_alias is Some ==> config.is_some(),
        ensures
            exists|now: Timestamp| result_view(r) == outcome_of(#[trigger] request_errors(*self, url_parses(self.url@), *config, now)),
    {
        let url_ok = check_url(&self.url);
        let now = utc_now();
        self.validate_with(url_ok, config, now)
    }
}

/// The reply to a request to shorten a URL: the id of the new link.
#[derive(Debug, PartialEq, Eq)]
pub struct ShortenResponse {
    pub id: String,
}

/// Whatever the time, a request whose URL does not parse is refused, and
/// the URL is the first reason given; a request with a parsing URL and
/// neither alias nor expiry time is accepted.
pub proof fn lemma_url_decides(req: ShortenRequest, config: Option<AppSettings>, now: Timestamp)
    ensures
        outcome_of(request_errors(req, false, config, now)) is Err,
        request_errors(req, false, config, now)[0] == FieldError::InvalidUrl,
        req.custom_alias is None && req.expires_at is None ==> outcome_of(request_errors(req, true, config, now)) is Ok,
{
    let e = request_errors(req, false, config, now);
    assert(e[0] == FieldError::InvalidUrl);
    if req.custom_alias is None && req.expires_at is None {
        assert(request_errors(req, true, config, now) =~= Seq::<FieldError>::empty());
    }
}

} // verus!
