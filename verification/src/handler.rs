//! Handler kinds: the dispatch key distinguishing raw-protocol, WebSocket,
//! and per-HTTP-verb handlers at a single matched path.

use vstd::prelude::*;
use vstd::string::*;
use crate::paths::str_eq;

verus! {

/// The dispatch key for one handler stored at a matched path.
#[derive(Debug)]
pub enum HandlerType {
    Asgi,
    Websocket,
    HttpGet,
    HttpPost,
    HttpDelete,
    HttpPatch,
    HttpPut,
    HttpHead,
    HttpOther(String),
}

/// Ghost form of a handler kind; a nonstandard verb is its character sequence.
pub enum KindV {
    Asgi,
    Websocket,
    HttpGet,
    HttpPost,
    HttpDelete,
    HttpPatch,
    HttpPut,
    HttpHead,
    HttpOther(Seq<char>),
}

impl View for HandlerType {
    type V = KindV;

    open spec fn view(&self) -> KindV {
        match self {
            HandlerType::Asgi => KindV::Asgi,
            HandlerType::Websocket => KindV::Websocket,
            HandlerType::HttpGet => KindV::HttpGet,
            HandlerType::HttpPost => KindV::HttpPost,
            HandlerType::HttpDelete => KindV::HttpDelete,
            HandlerType::HttpPatch => KindV::HttpPatch,
            HandlerType::HttpPut => KindV::HttpPut,
            HandlerType::HttpHead => KindV::HttpHead,
            HandlerType::HttpOther(s) => KindV::HttpOther(s@),
        }
    }
}

/// The kind an HTTP verb dispatches to: the fixed verbs map to their own
/// fast-path variants, anything else is kept by name.
pub open spec fn method_kind(m: Seq<char>) -> KindV {
    if m == "GET"@ {
        KindV::HttpGet
    } else if m == "POST"@ {
        KindV::HttpPost
    } else if m == "DELETE"@ {
        KindV::HttpDelete
    } else if m == "PATCH"@ {
        KindV::HttpPatch
    } else if m == "PUT"@ {
        KindV::HttpPut
    } else if m == "HEAD"@ {
        KindV::HttpHead
    } else {
        KindV::HttpOther(m)
    }
}

impl HandlerType {
    /// Classifies an HTTP verb, as `method_kind` states.
    pub fn from_http_method(method: &str) -> (r: HandlerType)
        ensures
            r@ == method_kind(method@),
    {
        if str_eq(method, "GET") {
            HandlerType::HttpGet
        } else if str_eq(method, "POST") {
            HandlerType::HttpPost
        } else if str_eq(method, "DELETE") {
            HandlerType::HttpDelete
        } else if str_eq(method, "PATCH") {
            HandlerType::HttpPatch
        } else if str_eq(method, "PUT") {
            HandlerType::HttpPut
        } else if str_eq(method, "HEAD") {
            HandlerType::HttpHead
        } else {
            HandlerType::HttpOther(String::from_str(method))
        }
    }

    /// Equality of handler kinds, decided over their ghost forms.
    pub fn kind_equals(&self, other: &HandlerType) -> (r: bool)
        ensures
            r == (self@ == other@),
    {
        match (self, other) {
            (HandlerType::Asgi, HandlerType::Asgi) => true,
            (HandlerType::Websocket, HandlerType::Websocket) => true,
            (HandlerType::HttpGet, HandlerType::HttpGet) => true,
            (HandlerType::HttpPost, HandlerType::HttpPost) => true,
            (HandlerType::HttpDelete, HandlerType::HttpDelete) => true,
            (HandlerType::HttpPatch, HandlerType::HttpPatch) => true,
            (HandlerType::HttpPut, HandlerType::HttpPut) => true,
            (HandlerType::HttpHead, HandlerType::HttpHead) => true,
            (HandlerType::HttpOther(a), HandlerType::HttpOther(b)) => str_eq(a.as_str(), b.as_str()),
            _ => false,
        }
    }
}

} // verus!
