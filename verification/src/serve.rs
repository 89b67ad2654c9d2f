//! What the server answers to a request, as far as the codec decides it.
//!
//! A download is a `GET` of a locator. An upload is a `POST` to
//! `/upload/<filename>`: a path of two segments, of which the first is
//! `upload` and the second, which must not be empty, is the filename as it
//! stands in the path. The body of the request is what is counted.

use vstd::prelude::*;
use vstd::string::*;
use crate::locator::{
    decode_segments, locator_of, locator_path, path_segments, texts, url_path_segments,
    SERVER_BASE,
};
use crate::BitCounts;

verus! {

/// The first segment of the path of an upload.
pub const UPLOAD_SEGMENT: &'static str = "upload";

/// The method of a request.
#[derive(Clone, Copy, Debug, PartialEq, Eq, Structural)]
pub enum Method {
    Get,
    Post,
    Other,
}

/// The answer to a request.
#[derive(Clone, Debug, PartialEq, Eq)]
pub enum Reply {
    /// The request names nothing that the server has.
    NotFound,
    /// The stream of these counts, sent as an attachment.
    Attachment(BitCounts),
    /// The upload was counted; the locator of its counts is sent as the
    /// location of what was created.
    Created(String),
    /// The upload could not be counted.
    ServerError,
}

/// An answer with its location as a sequence of characters.
pub enum ReplyView {
    NotFound,
    Attachment(BitCounts),
    Created(Seq<char>),
    ServerError,
}

impl View for Reply {
    type V = ReplyView;

    open spec fn view(&self) -> ReplyView {
        match *self {
            Reply::NotFound => ReplyView::NotFound,
            Reply::Attachment(counts) => ReplyView::Attachment(counts),
            Reply::Created(location) => ReplyView::Created(location@),
            Reply::ServerError => ReplyView::ServerError,
        }
    }
}

/// The filename of the upload that a path of these segments asks for, where
/// it asks for one.
pub open spec fn upload_name(segments: Seq<Seq<char>>) -> Option<Seq<char>> {
    if segments.len() == 2 && segments[0] == UPLOAD_SEGMENT@ && segments[1].len() > 0 {
        Some(segments[1])
    } else {
        None
    }
}

/// The answer to a request with this method for a path of these segments,
/// where its address has any; `counted` is what counting the request's body
/// gave, `None` where that failed.
///
/// A `GET` of a locator is answered with the stream of its counts. A `POST`
/// of an upload is answered with the locator of the counts of its body under
/// its filename, or with a server error where the body could not be counted.
/// Nothing else is found.
pub open spec fn reply_of(
    method: Method,
    segments: Option<Seq<Seq<char>>>,
    counted: Option<BitCounts>,
) -> ReplyView {
    match (method, segments) {
        (Method::Get, Some(segments)) => match locator_of(segments) {
            Some((counts, _)) => ReplyView::Attachment(counts),
            None => ReplyView::NotFound,
        },
        (Method::Post, Some(segments)) => match (upload_name(segments), counted) {
            (Some(filename), Some(counts)) => ReplyView::Created(locator_path(counts, filename)),
            (Some(_), None) => ReplyView::ServerError,
            (None, _) => ReplyView::NotFound,
        },
        _ => ReplyView::NotFound,
    }
}

/// Answers a request for a path of these segments; see `reply_of`.
pub fn respond(method: Method, segments: &Option<Vec<String>>, counted: Option<BitCounts>) -> (reply:
    Reply)
    ensures
        reply@ == reply_of(
            method,
            match *segments {
                Some(v) => Some(texts(v@)),
                None => None,
            },
            counted,
        ),
{
    let segments = match segments {
        Some(segments) => segments,
        None => {
            return Reply::NotFound;
        },
    };
    match method {
        Method::Get => match decode_segments(segments) {
            Some((counts, _)) => Reply::Attachment(counts),
            None => Reply::NotFound,
        },
        Method::Post => {
            if segments.len() != 2 {
                return Reply::NotFound;
            }
            let upload = String::from_str(UPLOAD_SEGMENT);
            if segments[0] != upload || segments[1].as_str().is_empty() {
                return Reply::NotFound;
            }
            match counted {
                Some(counts) => Reply::Created(counts.to_url(segments[1].as_str())),
                None => Reply::ServerError,
            }
        },
        Method::Other => Reply::NotFound,
    }
}

/// Answers a request for `uri`, which is resolved against `SERVER_BASE`;
/// `counted` is what counting the request's body gave, `None` where that
/// failed. It is looked at for an upload only.
pub fn handler(method: Method, uri: &str, counted: Option<BitCounts>) -> (reply: Reply)
    ensures
        reply@ == reply_of(method, url_path_segments(SERVER_BASE@, uri@), counted),
{
    let segments = path_segments(SERVER_BASE, uri);
    respond(method, &segments, counted)
}

} // verus!
