//! From the text of a master playlist to what is shown of it: the reordered
//! manifest, a line diff against the text given, or a dump of the playlist.

use vstd::prelude::*;
use vstd::utf8::{decode_utf8, valid_utf8};
use m3u8_rs::playlist::MasterPlaylist;
use crate::error::ReorderError;
use crate::playlist::{reorder_playlist, reorder_playlist_outcome};

verus! {

/// `std::io::Error`: nothing inside it is seen here.
#[verifier::external_type_specification]
#[verifier::external_body]
pub struct ExIoError(std::io::Error);

/// `std::string::FromUtf8Error`: nothing inside it is seen here.
#[verifier::external_type_specification]
#[verifier::external_body]
pub struct ExFromUtf8Error(std::string::FromUtf8Error);

/// What to show of the reordered playlist.
#[derive(Debug, Clone, Copy, PartialEq, Eq, Structural)]
pub enum Output {
    /// The playlist as manifest text.
    M3U8,
    /// A line diff between the text given and the manifest text of the
    /// reordered playlist.
    Diff,
    /// A dump of the playlist's structure.
    Debug,
}

/// Why nothing can be shown.
#[derive(Debug)]
pub enum RenderError {
    /// The text is no master playlist; the parser's own account of it.
    Parse(String),
    /// The variant list could not be reordered.
    Reorder(ReorderError),
    /// The playlist could not be written as manifest text.
    Write,
    /// The manifest text written is not UTF-8.
    Encoding,
}

/// A [`RenderError`] with its text as a sequence of characters.
pub enum RenderFailure {
    Parse(Seq<char>),
    Reorder(ReorderError),
    Write,
    Encoding,
}

impl View for RenderError {
    type V = RenderFailure;

    open spec fn view(&self) -> RenderFailure {
        match self {
            RenderError::Parse(detail) => RenderFailure::Parse(detail@),
            RenderError::Reorder(e) => RenderFailure::Reorder(*e),
            RenderError::Write => RenderFailure::Write,
            RenderError::Encoding => RenderFailure::Encoding,
        }
    }
}

/// What `m3u8_rs` makes of the text of a manifest: the master playlist, or
/// the parser's account of the failure.
pub uninterp spec fn parsed_manifest(body: Seq<char>) -> Result<MasterPlaylist, Seq<char>>;

/// The bytes that `m3u8_rs` writes for a master playlist, if it can write it.
pub uninterp spec fn manifest_bytes(playlist: MasterPlaylist) -> Option<Seq<u8>>;

/// The pretty-printed `Debug` form of a master playlist.
pub uninterp spec fn debug_text(playlist: MasterPlaylist) -> Seq<char>;

/// The line diff that `prettydiff` shows between two texts.
pub uninterp spec fn line_diff(old_text: Seq<char>, new_text: Seq<char>) -> Seq<char>;

/// Parses `body` as a master playlist (`m3u8_rs::parse_master_playlist` on
/// its bytes). Trusted: the outcome depends on the text alone. A failure is
/// handed on as the pretty-printed `Debug` form of the parser's error.
#[verifier::external_body]
fn parse_manifest(body: &str) -> (r: Result<MasterPlaylist, String>)
    ensures
        match r {
            Ok(playlist) => parsed_manifest(body@) == Ok::<MasterPlaylist, Seq<char>>(playlist),
            Err(detail) => parsed_manifest(body@) == Err::<MasterPlaylist, Seq<char>>(detail@),
        },
{
    match m3u8_rs::parse_master_playlist(body.as_bytes()) {
        Ok((_, playlist)) => Ok(playlist),
        Err(e) => Err(format!("{:#?}", e)),
    }
}

/// Writes `playlist` as manifest text into a buffer
/// (`MasterPlaylist::write_to`). Trusted: the bytes written depend on the
/// playlist alone.
#[verifier::external_body]
fn write_manifest(playlist: &MasterPlaylist) -> (r: Result<Vec<u8>, std::io::Error>)
    ensures
        match r {
            Ok(bytes) => manifest_bytes(*playlist) == Some(bytes@),
            Err(_) => manifest_bytes(*playlist) is None,
        },
{
    let mut buffer = Vec::new();
    match playlist.write_to(&mut buffer) {
        Ok(()) => Ok(buffer),
        Err(e) => Err(e),
    }
}

/// Turns bytes into a string (`String::from_utf8`). Trusted: this succeeds
/// on valid UTF-8 and on nothing else, and the string holds the characters
/// that the bytes encode.
#[verifier::external_body]
fn string_from_utf8(bytes: Vec<u8>) -> (r: Result<String, std::string::FromUtf8Error>)
    ensures
        r is Ok <==> valid_utf8(bytes@),
        r matches Ok(text) ==> text@ == decode_utf8(bytes@),
{
    String::from_utf8(bytes)
}

/// Dumps the structure of `playlist` (its `Debug` form, pretty-printed).
/// Trusted: the dump depends on the playlist alone.
#[verifier::external_body]
fn debug_dump(playlist: &MasterPlaylist) -> (r: String)
    ensures
        r@ == debug_text(*playlist),
{
    format!("{:#?}", playlist)
}

/// The line diff from `old_text` to `new_text` as `prettydiff` displays it
/// (`prettydiff::diff_lines`). Trusted: the diff depends on the two texts
/// alone.
#[verifier::external_body]
fn diff_lines(old_text: &str, new_text: &str) -> (r: String)
    ensures
        r@ == line_diff(old_text@, new_text@),
{
    format!("{}", prettydiff::diff_lines(old_text, new_text))
}

/// The manifest text of `playlist`, or why there is none.
pub open spec fn manifest_text(playlist: MasterPlaylist) -> Result<Seq<char>, RenderFailure> {
    match manifest_bytes(playlist) {
        None => Err(RenderFailure::Write),
        Some(bytes) => if valid_utf8(bytes) {
            Ok(decode_utf8(bytes))
        } else {
            Err(RenderFailure::Encoding)
        },
    }
}

/// What is shown of `playlist` in the mode `output`, where `body` is the
/// text that was parsed.
pub open spec fn presentation(
    playlist: MasterPlaylist,
    body: Seq<char>,
    output: Output,
) -> Result<Seq<char>, RenderFailure> {
    match output {
        Output::M3U8 => manifest_text(playlist),
        Output::Diff => match manifest_text(playlist) {
            Ok(text) => Ok(line_diff(body, text)),
            Err(e) => Err(e),
        },
        Output::Debug => Ok(debug_text(playlist)),
    }
}

/// What is shown for a parsed manifest: the parser's failure, the failure to
/// reorder, or the presentation of the reordered playlist.
pub open spec fn rendering_of(
    parsed: Result<MasterPlaylist, Seq<char>>,
    body: Seq<char>,
    output: Output,
) -> Result<Seq<char>, RenderFailure> {
    match parsed {
        Err(detail) => Err(RenderFailure::Parse(detail)),
        Ok(playlist) => match reorder_playlist_outcome(playlist) {
            Err(e) => Err(RenderFailure::Reorder(e)),
            Ok(sorted) => presentation(sorted, body, output),
        },
    }
}

/// What is shown for the manifest text `body` in the mode `output`.
pub open spec fn rendering(body: Seq<char>, output: Output) -> Result<Seq<char>, RenderFailure> {
    rendering_of(parsed_manifest(body), body, output)
}

/// `r` is `expected`, text for text and failure for failure.
pub open spec fn shows(
    r: Result<String, RenderError>,
    expected: Result<Seq<char>, RenderFailure>,
) -> bool {
    match r {
        Ok(text) => expected == Ok::<Seq<char>, RenderFailure>(text@),
        Err(e) => expected == Err::<Seq<char>, RenderFailure>(e@),
    }
}

/// The manifest text of `playlist`.
pub fn serialize(playlist: &MasterPlaylist) -> (r: Result<String, RenderError>)
    ensures
        shows(r, manifest_text(*playlist)),
{
    match write_manifest(playlist) {
        Ok(bytes) => match string_from_utf8(bytes) {
            Ok(text) => Ok(text),
            Err(_) => Err(RenderError::Encoding),
        },
        Err(_) => Err(RenderError::Write),
    }
}

/// Shows `playlist` in the mode `output`: as manifest text, as a line diff
/// from `body` to its manifest text, or as a dump of its structure.
pub fn present(
    playlist: &MasterPlaylist,
    body: &str,
    output: Output,
) -> (r: Result<String, RenderError>)
    ensures
        shows(r, presentation(*playlist, body@, output)),
{
    match output {
        Output::M3U8 => serialize(playlist),
        Output::Diff => match serialize(playlist) {
            Ok(text) => Ok(diff_lines(body, text.as_str())),
            Err(e) => Err(e),
        },
        Output::Debug => Ok(debug_dump(playlist)),
    }
}

/// Reorders and shows a parsed manifest, or hands on the parser's failure.
/// Nothing is shown of a playlist that cannot be reordered.
pub fn render_parsed(
    parsed: Result<MasterPlaylist, String>,
    body: &str,
    output: Output,
) -> (r: Result<String, RenderError>)
    ensures
        shows(
            r,
            rendering_of(
                match parsed {
                    Ok(playlist) => Ok(playlist),
                    Err(detail) => Err(detail@),
                },
                body@,
                output,
            ),
        ),
{
    match parsed {
        Ok(playlist) => match reorder_playlist(playlist) {
            Ok(sorted) => present(&sorted, body, output),
            Err(e) => Err(RenderError::Reorder(e)),
        },
        Err(detail) => Err(RenderError::Parse(detail)),
    }
}

/// Parses the manifest text `body`, reorders its variant list and shows the
/// result in the mode `output`. Any failure on the way is the result; then
/// nothing is shown.
pub fn render(body: &str, output: Output) -> (r: Result<String, RenderError>)
    ensures
        shows(r, rendering(body@, output)),
{
    render_parsed(parse_manifest(body), body, output)
}

} // verus!
