//! Pico: a small HTTP application server core.
//!
//! The crate turns a declarative route table into live endpoints: a wire
//! reader frames HTTP/1.1 requests from raw bytes, a prefix tree resolves
//! paths to handlers while extracting positional parameters, a session codec
//! carries signed claims through a cookie, and a request pipeline stitches
//! body parsing, parameter resolution, scripted hooks and content negotiation
//! into a response.

pub mod hooks;
pub mod html;
pub mod http;
pub mod json;
pub mod pipeline;
pub mod route;
pub mod session;
pub mod staticfiles;
pub mod text;
pub mod wire;

use vstd::prelude::*;

verus! {

pub use http::Body;
pub use http::HttpRequest;
pub use http::ManualRequest;
pub use http::PicoHeader;
pub use http::PicoResponse;
pub use http::ResponseCode;
pub use json::JsonValue;
pub use pipeline::PicoService;
pub use pipeline::Sproc;
pub use route::Method;
pub use route::Route;
pub use route::RouteHandler;
pub use route::RouteTree;
pub use staticfiles::get_mime_type;
pub use wire::PicoRequest;

} // verus!
