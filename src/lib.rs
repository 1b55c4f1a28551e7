//! A static file server core: a binary package format that flattens a
//! directory tree into one blob, an in-memory store over such a package, a
//! `Range` header parser, and the request resolution that turns a request and
//! what the store knows of its path into a response.
pub mod codec;
mod collab;
pub mod fs;
mod options;
mod range;
mod server;
mod text;

pub use options::{Options, OptionsBuilder};
pub use range::{Range, RangeError};
pub use server::{
    lemma_multipart_range_serves_whole, lemma_root_is_dir, request_path, resolve, Body,
    ContentRange, Method, PathInfo, Request, Response, StaticFileServer, Status,
    LAST_MODIFIED_DATE_FORMAT,
};
