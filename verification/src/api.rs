//! Replies to requests of other servers.

use vstd::prelude::*;
use vstd::string::*;

use crate::json::members;
use crate::json::put;
use crate::json::Json;
use crate::json::JsonView;
use crate::text::cat;

verus! {

pub const OK: u16 = 200;
pub const BAD_REQUEST: u16 = 400;
pub const UNAUTHORIZED: u16 = 401;
pub const FORBIDDEN: u16 = 403;
pub const NOT_FOUND: u16 = 404;
pub const INTERNAL_SERVER_ERROR: u16 = 500;

/// A refusal: an HTTP status and a body.
#[derive(Debug)]
pub struct ApiError {
    pub status: u16,
    pub body: Json,
}

pub struct ApiErrorView {
    pub status: u16,
    pub body: JsonView,
}

impl ApiError {
    pub open spec fn view(&self) -> ApiErrorView {
        ApiErrorView { status: self.status, body: self.body@ }
    }
}

/// The body of a refusal: a code for programs and words for people.
pub open spec fn error_json(errcode: Seq<char>, msg: Seq<char>) -> JsonView {
    JsonView::Object(seq![("errcode"@, JsonView::Str(errcode)), ("error"@, JsonView::Str(msg))])
}

pub open spec fn api_error(status: u16, errcode: Seq<char>, msg: Seq<char>) -> ApiErrorView {
    ApiErrorView { status, body: error_json(errcode, msg) }
}

/// A refusal with a status, a code and words.
pub fn err_response(status: u16, errcode: &str, msg: &str) -> (r: ApiError)
    ensures
        r@ == api_error(status, errcode@, msg@),
{
    let mut m: Vec<(String, Json)> = Vec::new();
    put(&mut m, "errcode", Json::text(errcode));
    put(&mut m, "error", Json::text(msg));
    proof {
        assert(members(m@) =~= error_json(errcode@, msg@)->Object_0);
    }
    ApiError { status, body: Json::object(m) }
}

/// The refusal for a failure of the store.
pub fn db_err(e: &str) -> (r: ApiError)
    ensures
        r@ == api_error(INTERNAL_SERVER_ERROR, "M_UNKNOWN"@, "db: "@ + e@),
{
    let text = cat("db: ", e);
    err_response(INTERNAL_SERVER_ERROR, "M_UNKNOWN", text.as_str())
}

/// An error carries its status, its code and its words.
pub proof fn law_errors(status: u16, errcode: Seq<char>, msg: Seq<char>)
    ensures
        api_error(status, errcode, msg).status == status,
        api_error(status, errcode, msg).body.get("errcode"@) == Some(JsonView::Str(errcode)),
        api_error(status, errcode, msg).body.get("error"@) == Some(JsonView::Str(msg)),
{
    reveal_with_fuel(crate::json::member, 3);
    reveal_strlit("errcode");
    reveal_strlit("error");
    assert("errcode"@.len() == 7 && "error"@.len() == 5);
    let m = api_error(status, errcode, msg).body->Object_0;
    assert(m.drop_first()[0] == m[1]);
    assert(m[0].0 == "errcode"@);
}

} // verus!
