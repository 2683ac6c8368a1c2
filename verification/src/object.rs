//! The decisions of the object requests (PUT, GET, HEAD, DELETE): which key
//! and file a request addresses, how the outcome of a file lookup is
//! answered, the headers of a download, and the course of an upload, which
//! writes to a temporary file and renames it into place.

use vstd::prelude::*;

use crate::auth::{authorized, require_auth};
use crate::error::{
    is_invalid_key, is_not_found, is_server_error, is_unauthorized, not_found, server_error,
    ErrorResponse,
};
use crate::key::{
    decoded_key, is_valid_key, key_to_path, lemma_valid_key_stays_under_root, normalize_key,
    root_prefix,
};
use crate::state::{next_upload_id, AppState};
use crate::text::{decimal, is_suffix, lemma_decimal_digits, u64_to_decimal};

verus! {

/// The key an object request addresses and the file that holds the object.
#[derive(Debug)]
pub struct ObjectTarget {
    pub key: String,
    pub path: String,
}

/// Whether a request for `raw_key` is served: it is authorized and the
/// decoded key is valid.
pub open spec fn target_accepted(
    header: Option<&str>,
    state: AppState,
    raw_key: Seq<char>,
) -> bool {
    &&& authorized(header, *state.auth_token)
    &&& is_valid_key(decoded_key(raw_key))
}

/// Authorizes an object request and resolves its raw key to the object's key
/// and file, which lies under the storage root. A failed authorization is
/// answered 401; a key that breaks the key rules is answered 400.
pub fn object_target(header: Option<&str>, state: &AppState, raw_key: &str) -> (r: Result<
    ObjectTarget,
    ErrorResponse,
>)
    ensures
        r is Ok <==> target_accepted(header, *state, raw_key@),
        r matches Ok(t) ==> t.key@ == decoded_key(raw_key@) && t.path@ == root_prefix(
            (*state.storage_dir)@,
        ) + t.key@,
        r matches Err(e) ==> if authorized(header, *state.auth_token) {
            is_invalid_key(e)
        } else {
            is_unauthorized(e)
        },
{
    require_auth(header, state)?;
    let key = normalize_key(raw_key)?;
    proof {
        lemma_valid_key_stays_under_root((*state.storage_dir)@, key@);
    }
    let root: &String = &state.storage_dir;
    let path = key_to_path(root.as_str(), key.as_str())?;
    Ok(ObjectTarget { key, path })
}

/* ---------------- lookups and downloads ---------------- */

/// The outcome of looking up a file's metadata.
#[derive(Debug)]
pub enum MetadataResult {
    /// The file exists; its length in bytes.
    Found(u64),
    /// No such file.
    NotFound,
    /// The lookup failed otherwise; the error text.
    Failed(String),
}

/// The outcome of a lookup that found an entry: a regular file is an object
/// of its length; anything else (a directory) is no object.
pub fn found_entry(is_file: bool, len: u64) -> (r: MetadataResult)
    ensures
        if is_file {
            r matches MetadataResult::Found(n) && n == len
        } else {
            r is NotFound
        },
{
    if is_file {
        MetadataResult::Found(len)
    } else {
        MetadataResult::NotFound
    }
}

/// The size of the object, or the answer when the lookup did not find it
/// (404) or failed (500 with the error text).
pub fn object_size(meta: MetadataResult) -> (r: Result<u64, ErrorResponse>)
    ensures
        match meta {
            MetadataResult::Found(n) => r matches Ok(m) && m == n,
            MetadataResult::NotFound => r matches Err(e) && is_not_found(e),
            MetadataResult::Failed(msg) => r matches Err(e) && is_server_error(e, msg@),
        },
{
    match meta {
        MetadataResult::Found(n) => Ok(n),
        MetadataResult::NotFound => Err(not_found()),
        MetadataResult::Failed(msg) => Err(server_error(msg.as_str())),
    }
}

/// What `mime_guess` makes of a path: the first media type registered for
/// its extension, or `application/octet-stream`.
pub uninterp spec fn guessed_mime(path: Seq<char>) -> Seq<char>;

/// Guesses the media type of a path with
/// `mime_guess::from_path(..).first_or_octet_stream()`. Trusted: the result is
/// `guessed_mime(path)`, and a path without any `.` has no extension, for which
/// the crate answers `application/octet-stream`.
#[verifier::external_body]
pub(crate) fn guess_mime(path: &str) -> (r: String)
    ensures
        r@ == guessed_mime(path@),
        (forall|i: int| 0 <= i < path@.len() ==> path@[i] != '.') ==> r@
            == "application/octet-stream"@,
{
    mime_guess::from_path(path).first_or_octet_stream().to_string()
}

/// The headers of a download: the media type guessed from the key, and the length.
#[derive(Debug)]
pub struct ObjectHeaders {
    pub content_type: String,
    pub content_length: u64,
}

/// The headers of a GET answer for `key`, or the error answer of the lookup.
pub fn get_object_headers(key: &str, meta: MetadataResult) -> (r: Result<ObjectHeaders, ErrorResponse>)
    ensures
        match meta {
            MetadataResult::Found(n) => r matches Ok(h) && h.content_length == n
                && h.content_type@ == guessed_mime(key@),
            MetadataResult::NotFound => r matches Err(e) && is_not_found(e),
            MetadataResult::Failed(msg) => r matches Err(e) && is_server_error(e, msg@),
        },
{
    let len = object_size(meta)?;
    Ok(ObjectHeaders { content_type: guess_mime(key), content_length: len })
}

/* ---------------- uploads ---------------- */

/// What `Path::with_extension` makes of a path and an extension: the path
/// whose file name has its extension replaced by (or extended with) the new one.
pub uninterp spec fn with_extension_path(path: Seq<char>, extension: Seq<char>) -> Seq<char>;

/// A path that ends in a plain file name on every platform std supports:
/// its last character is neither `/` nor `.`, it holds no `\` and no `:`
/// (separators and drive or stream marks on Windows), and it does not start
/// with `//` (a network share on Windows).
pub open spec fn ends_in_file_name(path: Seq<char>) -> bool {
    &&& path.len() > 0
    &&& path.last() != '/'
    &&& path.last() != '.'
    &&& forall|i: int| 0 <= i < path.len() ==> path[i] != '\\' && path[i] != ':'
    &&& !(path.len() >= 2 && path[0] == '/' && path[1] == '/')
}

/// An extension that holds no path separator of any platform std supports.
pub open spec fn separator_free(extension: Seq<char>) -> bool {
    forall|i: int| 0 <= i < extension.len() ==> extension[i] != '/' && extension[i] != '\\'
}

/// Replaces the extension of a path with `std::path::Path::with_extension`,
/// which panics on an extension holding a path separator (`/`, and `\` on
/// Windows), hence the `requires`. Trusted: the result is
/// `with_extension_path(path, extension)`; when the path ends in a plain file
/// name and the extension is not empty, the result ends with `.` and the
/// extension, as std documents (the file name's extension is replaced by the
/// new one, used in its entirety).
#[verifier::external_body]
fn path_with_extension(path: &str, extension: &str) -> (r: String)
    requires
        separator_free(extension@),
    ensures
        r@ == with_extension_path(path@, extension@),
        ends_in_file_name(path@) && extension@.len() > 0 ==> is_suffix(seq!['.'] + extension@, r@),
{
    std::path::Path::new(path).with_extension(extension).to_string_lossy().into_owned()
}

/// The extension of the temporary file of upload number `id`: `<id>.uploading.tmp`.
pub open spec fn upload_extension(id: nat) -> Seq<char> {
    decimal(id) + ".uploading.tmp"@
}

/// The temporary file that upload number `upload_id` of `path` writes to.
pub fn upload_tmp_path(path: &str, upload_id: u64) -> (r: String)
    ensures
        r@ == with_extension_path(path@, upload_extension(upload_id as nat)),
        ends_in_file_name(path@) ==> is_suffix(".uploading.tmp"@, r@),
{
    let mut ext = u64_to_decimal(upload_id);
    ext.append(".uploading.tmp");
    proof {
        reveal_strlit(".uploading.tmp");
        lemma_decimal_digits(upload_id as nat);
        assert forall|i: int| 0 <= i < ext@.len() implies ext@[i] != '/' && ext@[i] != '\\' by {
            if i < decimal(upload_id as nat).len() {
                assert(ext@[i] == decimal(upload_id as nat)[i]);
            } else {
                assert(ext@[i] == ".uploading.tmp"@[i - decimal(upload_id as nat).len()]);
            }
        }
    }
    let r = path_with_extension(path, ext.as_str());
    proof {
        let e = upload_extension(upload_id as nat);
        let t = ".uploading.tmp"@;
        if ends_in_file_name(path@) {
            assert(e.len() > 0);
            let full = seq!['.'] + e;
            assert(is_suffix(full, r@));
            assert(full.skip(full.len() - t.len()) =~= t);
            assert(r@.skip(r@.len() - t.len()) =~= full.skip(full.len() - t.len()));
        }
    }
    r
}

/// An upload in progress: the target, its temporary file, and the number of
/// bytes received so far.
#[derive(Debug)]
pub struct PutUpload {
    pub key: String,
    pub path: String,
    pub tmp_path: String,
    pub size: u64,
}

/// The answer to a completed upload (status 201).
#[derive(Debug)]
pub struct PutResp {
    pub key: String,
    pub size: u64,
}

/// Begins an upload to `target`: draws a fresh upload number from the shared
/// counter (so concurrent uploads of one key write to distinct files) and
/// names the temporary file after it.
pub fn start_put(target: ObjectTarget, state: &AppState) -> (r: PutUpload)
    ensures
        r.key@ == target.key@,
        r.path@ == target.path@,
        r.size == 0,
        exists|id: u64| r.tmp_path@ == with_extension_path(
            target.path@,
            #[trigger] upload_extension(id as nat),
        ),
{
    let id = next_upload_id(state);
    let tmp_path = upload_tmp_path(target.path.as_str(), id);
    assert(tmp_path@ == with_extension_path(target.path@, upload_extension(id as nat)));
    PutUpload { key: target.key, path: target.path, tmp_path, size: 0 }
}

/// What happened in the course of an upload.
#[derive(Debug)]
pub enum PutEvent {
    /// The parent directories or the temporary file could not be created.
    SetupFailed(String),
    /// A chunk of this many bytes was received.
    Received(u64),
    /// Receiving the body failed.
    ReceiveFailed(String),
    /// Writing a chunk failed.
    WriteFailed(String),
    /// The body ended.
    Ended,
    /// Flushing the temporary file failed.
    FlushFailed(String),
    /// The temporary file was flushed.
    Flushed,
    /// Renaming the temporary file into place failed.
    RenameFailed(String),
    /// The temporary file now holds the object.
    Renamed,
}

/// What to do next in the course of an upload.
#[derive(Debug)]
pub enum PutAction {
    /// Write the chunk just received to the temporary file.
    Write,
    /// Flush the temporary file.
    Flush,
    /// Rename the temporary file to the object's file.
    Rename,
    /// Answer with the error; there is no temporary file to remove.
    Fail(ErrorResponse),
    /// Remove the temporary file, then answer with the error.
    Discard(ErrorResponse),
    /// Answer with the status and body of a completed upload.
    Created(u16, PutResp),
}

/// Decides the next step of an upload after an event. Every byte received is
/// counted; every failure once the temporary file exists removes it and
/// answers 500 with the error text; the rename answers 201 with the key and
/// the number of bytes received.
pub fn put_step(up: &mut PutUpload, ev: PutEvent) -> (a: PutAction)
    requires
        ev matches PutEvent::Received(n) ==> old(up).size + n <= u64::MAX,
    ensures
        final(up).key == old(up).key,
        final(up).path == old(up).path,
        final(up).tmp_path == old(up).tmp_path,
        match ev {
            PutEvent::Received(n) => final(up).size == old(up).size + n,
            _ => final(up).size == old(up).size,
        },
        match ev {
            PutEvent::SetupFailed(m) => a matches PutAction::Fail(e) && is_server_error(e, m@),
            PutEvent::Received(_) => a is Write,
            PutEvent::ReceiveFailed(m) => a matches PutAction::Discard(e) && is_server_error(
                e,
                m@,
            ),
            PutEvent::WriteFailed(m) => a matches PutAction::Discard(e) && is_server_error(e, m@),
            PutEvent::Ended => a is Flush,
            PutEvent::FlushFailed(m) => a matches PutAction::Discard(e) && is_server_error(e, m@),
            PutEvent::Flushed => a is Rename,
            PutEvent::RenameFailed(m) => a matches PutAction::Discard(e) && is_server_error(
                e,
                m@,
            ),
            PutEvent::Renamed => a matches PutAction::Created(status, body) && status == 201
                && body.key@ == old(up).key@ && body.size == old(up).size,
        },
{
    match ev {
        PutEvent::SetupFailed(m) => PutAction::Fail(server_error(m.as_str())),
        PutEvent::Received(n) => {
            up.size = up.size + n;
            PutAction::Write
        },
        PutEvent::ReceiveFailed(m) => PutAction::Discard(server_error(m.as_str())),
        PutEvent::WriteFailed(m) => PutAction::Discard(server_error(m.as_str())),
        PutEvent::Ended => PutAction::Flush,
        PutEvent::FlushFailed(m) => PutAction::Discard(server_error(m.as_str())),
        PutEvent::Flushed => PutAction::Rename,
        PutEvent::RenameFailed(m) => PutAction::Discard(server_error(m.as_str())),
        PutEvent::Renamed => PutAction::Created(
            201,
            PutResp { key: up.key.clone(), size: up.size },
        ),
    }
}

} // verus!
