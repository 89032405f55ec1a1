//! What the HTTP layer answers: which requests are refused, and how embedded
//! files are served.

use crate::text::text_eq;
use vstd::prelude::*;

verus! {

/// A range of slots, both ends taken in.
#[derive(Debug, Clone)]
pub struct ContentionQuery {
    pub from: u64,
    pub to: u64,
}

/// A mint and the name of an interval.
#[derive(Debug, Clone)]
pub struct OhlcvQuery {
    pub mint: String,
    pub interval: String,
}

/// A reply of plain text.
#[derive(Debug, Clone)]
pub struct TextReply {
    pub status: u16,
    pub text: String,
}

/// The seconds of a named interval.
pub open spec fn interval_named(name: Seq<char>) -> Option<i32> {
    if name == "1m"@ {
        Some(60)
    } else if name == "5m"@ {
        Some(300)
    } else {
        None
    }
}

/// The seconds of the interval that a request names, or the refusal.
pub fn requested_interval(query: &OhlcvQuery) -> (interval: Result<i32, TextReply>)
    ensures
        match interval {
            Ok(seconds) => interval_named(query.interval@) == Some(seconds),
            Err(reply) => {
                &&& interval_named(query.interval@) is None
                &&& reply.status == 400
                &&& reply.text@ == "interval must be 1m or 5m"@
            },
        },
{
    let name = query.interval.as_str();
    if text_eq(name, "1m") {
        Ok(60)
    } else if text_eq(name, "5m") {
        Ok(300)
    } else {
        Err(TextReply { status: 400, text: "interval must be 1m or 5m".to_owned() })
    }
}

/// The reply where the database failed.
pub fn query_failed(error: String) -> (reply: TextReply)
    ensures
        reply.status == 500,
        reply.text@ == error@,
{
    TextReply { status: 500, text: error }
}

/// What `mime_guess` guesses of a path, or `application/octet-stream`.
pub uninterp spec fn guessed_type(path: Seq<char>) -> Seq<char>;

/// Whether a path reads the same on every platform: forward slashes only, no
/// drive, no host.
pub open spec fn is_plain_path(path: Seq<char>) -> bool {
    &&& !path.contains('\\')
    &&& !path.contains(':')
    &&& !(path.len() >= 2 && path[0] == '/' && path[1] == '/')
}

/// `mime_guess::from_path` and `MimeGuess::first_or_octet_stream`: a guess by
/// the extension of the path alone, so without a dot there is none. What counts
/// as the extension is up to the platform where the path has its own kind of
/// separators or prefixes; of such paths nothing is claimed.
#[verifier::external_body]
fn guess_type(path: &str) -> (content_type: String)
    ensures
        is_plain_path(path@) ==> content_type@ == guessed_type(path@),
        !path@.contains('.') ==> content_type@ == "application/octet-stream"@,
{
    mime_guess::from_path(path).first_or_octet_stream().as_ref().to_string()
}

/// A reply to a request for a file.
#[derive(Debug, Clone)]
pub enum FileReply {
    Found { content_type: String, data: Vec<u8> },
    Missing(TextReply),
}

/// The file that is served for the root.
pub const INDEX_FILE: &'static str = "index.html";

/// The reply where a path holds no file.
pub fn file_missing() -> (reply: TextReply)
    ensures
        reply.status == 404,
        reply.text@ == "not found"@,
{
    TextReply { status: 404, text: "not found".to_owned() }
}

/// Serves the file that was found under a path, with the type that its name
/// suggests.
pub fn serve_embedded(path: &str, content: Option<Vec<u8>>) -> (reply: FileReply)
    ensures
        match reply {
            FileReply::Found { content_type, data } => {
                &&& content == Some(data)
                &&& is_plain_path(path@) ==> content_type@ == guessed_type(path@)
                &&& !path@.contains('.') ==> content_type@ == "application/octet-stream"@
            },
            FileReply::Missing(missing) => {
                &&& content is None
                &&& missing.status == 404
                &&& missing.text@ == "not found"@
            },
        },
{
    match content {
        Some(data) => FileReply::Found { content_type: guess_type(path), data },
        None => FileReply::Missing(file_missing()),
    }
}

/// The intervals that are served are `1m`, a minute, and `5m`, five minutes,
/// and no other name.
pub proof fn law_served_intervals(name: Seq<char>)
    ensures
        name == seq!['1', 'm'] ==> interval_named(name) == Some(60i32),
        name == seq!['5', 'm'] ==> interval_named(name) == Some(300i32),
        name != seq!['1', 'm'] && name != seq!['5', 'm'] ==> interval_named(name) is None,
{
    reveal_strlit("1m");
    reveal_strlit("5m");
    assert("1m"@ =~= seq!['1', 'm']);
    assert("5m"@ =~= seq!['5', 'm']);
    assert(seq!['1', 'm'][0] != seq!['5', 'm'][0]);
}

} // verus!
