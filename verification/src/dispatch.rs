//! The request dispatcher: one inbound operation applied to the cache.
//!
//! `get` and `set` are the recognized operations; anything else, including a
//! request whose fields were missing, yields a fixed error response and must
//! not touch the cache or the persisted snapshot.  The second component of
//! the result says whether the snapshot has to be written back: recency
//! order is part of the observable state, so a `get` needs a write too.

use vstd::prelude::*;

use crate::cache::{spec_get, spec_lookup, spec_put, Cache};
use crate::text::str_eq;

verus! {

/// One inbound request, already decoded to plain values.
pub struct Request {
    pub operation: String,
    pub key: String,
    pub value: String,
}

/// The response handed back to the caller.
pub struct Response {
    pub value: String,
    pub msg: String,
}

/// The value a request carries when none was given.
pub fn default_value() -> (r: String)
    ensures
        r@ == "default value"@,
{
    "default value".to_owned()
}

/// Does the dispatcher recognize this operation?  An unrecognized one gets
/// the fixed response of `invalid_response` and needs no cache access at
/// all, so a caller may test this before loading any snapshot.
pub fn operation_recognized(operation: &str) -> (r: bool)
    ensures
        r == (operation@ == "get"@ || operation@ == "set"@),
{
    str_eq(operation, "get") || str_eq(operation, "set")
}

/// The fixed response to an unrecognized or malformed request.
pub fn invalid_response() -> (r: Response)
    ensures
        r.value@ == "null"@,
        r.msg@ == "Invalid command! Valid commands are get, set"@,
{
    Response {
        value: "null".to_owned(),
        msg: "Invalid command! Valid commands are get, set".to_owned(),
    }
}

/// Applies one operation to the cache and builds the response.
pub fn dispatch(cache: &mut Cache, req: &Request) -> (r: (Response, bool))
    requires
        old(cache).wf(),
    ensures
        final(cache).wf(),
        final(cache).cap() == old(cache).cap(),
        r.1 == (req.operation@ == "get"@ || req.operation@ == "set"@),
        req.operation@ == "get"@ ==> {
            &&& final(cache)@ == spec_get(old(cache)@, req.key@)
            &&& match spec_lookup(old(cache)@, req.key@) {
                Some(v) => r.0.value@ == v && r.0.msg@ == "Successfuly got value!"@,
                None => r.0.value@ == "null"@ && r.0.msg@ == "Key not in cache"@,
            }
        },
        req.operation@ != "get"@ && req.operation@ == "set"@ ==> {
            &&& final(cache)@ == spec_put(old(cache)@, old(cache).cap(), req.key@, req.value@)
            &&& r.0.value@ == req.value@
            &&& r.0.msg@ == "Successfuly set value!"@
        },
        req.operation@ != "get"@ && req.operation@ != "set"@ ==> {
            &&& final(cache)@ == old(cache)@
            &&& r.0.value@ == "null"@
            &&& r.0.msg@ == "Invalid command! Valid commands are get, set"@
        },
{
    if str_eq(req.operation.as_str(), "get") {
        match cache.get(req.key.as_str()) {
            Some(v) => (Response { value: v, msg: "Successfuly got value!".to_owned() }, true),
            None => (
                Response { value: "null".to_owned(), msg: "Key not in cache".to_owned() },
                true,
            ),
        }
    } else if str_eq(req.operation.as_str(), "set") {
        cache.put(req.key.as_str(), req.value.clone());
        (Response { value: req.value.clone(), msg: "Successfuly set value!".to_owned() }, true)
    } else {
        (invalid_response(), false)
    }
}

} // verus!
