use vstd::prelude::*;
use crate::app_settings::AppSettings;
use crate::handlers::models::{
    outcome_of, request_errors, url_parses, FieldError, ShortenRequest, ShortenResponse,
};
use crate::models::Timestamp;

verus! {

/// What `create` answers.
#[derive(Debug, PartialEq, Eq)]
pub enum CreateReply {
    /// 201: the link was made, under this id.
    Created(ShortenResponse),
    /// 400: the request was refused, for these reasons.
    Rejected(Vec<FieldError>),
}

impl CreateReply {
    /// The HTTP status of the reply.
    pub fn status(&self) -> (s: u16)
        ensures
            s == match self {
                CreateReply::Created(_) => 201u16,
                CreateReply::Rejected(_) => 400u16,
            },
    {
        match self {
            CreateReply::Created(_) => 201,
            CreateReply::Rejected(_) => 400,
        }
    }
}

/// The id given to every new link.
pub open spec fn new_link_id() -> Seq<char> {
    seq!['t', 'e', 's', 't']
}

/// The reply to a request whose check came out as `outcome`.
pub open spec fn reply_fits(r: CreateReply, outcome: Result<(), Seq<FieldError>>) -> bool {
    match r {
        CreateReply::Created(resp) => outcome is Ok && resp.id@ == new_link_id(),
        CreateReply::Rejected(errs) => outcome == Err::<(), Seq<FieldError>>(errs@),
    }
}

/// Answers a request to shorten a URL: a refused request gets 400 and its
/// reasons; an accepted one gets 201 and the id of the new link.
pub fn create(body: &ShortenRequest, config: &Option<AppSettings>) -> (r: CreateReply)
    requires
        body.custom_alias is Some ==> config.is_some(),
    ensures
        exists|now: Timestamp| reply_fits(r, outcome_of(#[trigger] request_errors(*body, url_parses(body.url@), *config, now))),
{
    match body.validate(config) {
        Err(errs) => CreateReply::Rejected(errs),
        Ok(()) => {
            let id = crate::text::string_of(&['t', 'e', 's', 't']);
            CreateReply::Created(ShortenResponse { id })
        },
    }
}

} // verus!
