//! The decisions of copying and moving an object from one key to another.

use vstd::prelude::*;

use crate::auth::{authorized, require_auth};
use crate::error::{
    conflict, is_conflict, is_invalid_key, is_not_found, is_server_error, is_unauthorized, server_error,
    ErrorResponse,
};
use crate::key::{
    decoded_key, is_valid_key, key_to_path, lemma_valid_key_stays_under_root, normalize_key,
    root_prefix,
};
use crate::object::{object_size, MetadataResult, ObjectTarget};
use crate::state::AppState;
use crate::text::str_eq;

verus! {

/// A copy or move request: source key, destination key, and whether an
/// existing destination may be replaced (default: yes).
#[derive(Debug)]
pub struct CopyMoveReq {
    pub src: String,
    pub dst: String,
    pub overwrite: Option<bool>,
}

/// The resolved copy or move: both objects and the overwrite choice.
#[derive(Debug)]
pub struct CopyMovePlan {
    pub src: ObjectTarget,
    pub dst: ObjectTarget,
    pub overwrite: bool,
}

/// The answer to a completed copy or move (status 200).
#[derive(Debug)]
pub struct CopyMoveResp {
    pub src: String,
    pub dst: String,
    pub size: u64,
}

/// A raw key is accepted: its decoded key is valid.
pub open spec fn key_accepted(raw: Seq<char>) -> bool {
    is_valid_key(decoded_key(raw))
}

/// Authorizes a copy or move and resolves both keys. A failed authorization
/// is answered 401; a key that breaks the key rules, 400.
pub fn copy_move_targets(header: Option<&str>, state: &AppState, req: &CopyMoveReq) -> (r: Result<
    CopyMovePlan,
    ErrorResponse,
>)
    ensures
        r is Ok <==> authorized(header, *state.auth_token) && key_accepted(req.src@) && key_accepted(
            req.dst@,
        ),
        r matches Ok(p) ==> {
            &&& p.src.key@ == decoded_key(req.src@)
            &&& p.src.path@ == root_prefix((*state.storage_dir)@) + p.src.key@
            &&& p.dst.key@ == decoded_key(req.dst@)
            &&& p.dst.path@ == root_prefix((*state.storage_dir)@) + p.dst.key@
            &&& p.overwrite == (req.overwrite matches Some(b) ==> b)
        },
        r matches Err(e) ==> if authorized(header, *state.auth_token) {
            is_invalid_key(e)
        } else {
            is_unauthorized(e)
        },
{
    require_auth(header, state)?;
    let overwrite = match req.overwrite {
        Some(b) => b,
        None => true,
    };
    let src_key = normalize_key(req.src.as_str())?;
    let dst_key = normalize_key(req.dst.as_str())?;
    proof {
        lemma_valid_key_stays_under_root((*state.storage_dir)@, src_key@);
        lemma_valid_key_stays_under_root((*state.storage_dir)@, dst_key@);
    }
    let root: &String = &state.storage_dir;
    let src_path = key_to_path(root.as_str(), src_key.as_str())?;
    let dst_path = key_to_path(root.as_str(), dst_key.as_str())?;
    Ok(CopyMovePlan {
        src: ObjectTarget { key: src_key, path: src_path },
        dst: ObjectTarget { key: dst_key, path: dst_path },
        overwrite,
    })
}

/// Refuses (409) to replace an existing destination when overwriting is off.
pub fn destination_check(overwrite: bool, dst_exists: bool) -> (r: Result<(), ErrorResponse>)
    ensures
        r is Err <==> !overwrite && dst_exists,
        r matches Err(e) ==> is_conflict(e, "destination exists"@),
{
    if !overwrite && dst_exists {
        Err(conflict("destination exists"))
    } else {
        Ok(())
    }
}

/// Whether the object is copied (the source stays) or moved.
#[derive(Debug)]
pub enum CopyMoveOp {
    Copy,
    Move,
}

/// A copy or move in progress: what is done, the resolved objects, and the
/// size of the source once found.
#[derive(Debug)]
pub struct CopyMoveFlow {
    pub op: CopyMoveOp,
    pub plan: CopyMovePlan,
    pub size: u64,
}

/// Begins a copy or move of the resolved objects.
pub fn start_copy_move(op: CopyMoveOp, plan: CopyMovePlan) -> (r: CopyMoveFlow)
    ensures
        r.op == op,
        r.plan == plan,
        r.size == 0,
{
    CopyMoveFlow { op, plan, size: 0 }
}

/// What happened in the course of a copy or move.
#[derive(Debug)]
pub enum CopyMoveEvent {
    /// The outcome of looking up the source.
    Source(MetadataResult),
    /// Whether the destination exists.
    DestinationChecked(bool),
    /// The destination was removed (or there was none to remove).
    DestinationRemoved,
    /// The destination's parent directories exist.
    DirsCreated,
    /// Creating the destination's parent directories failed.
    DirsFailed(String),
    /// The source was renamed to the destination.
    Renamed,
    /// Renaming failed (for instance across file systems).
    RenameFailed,
    /// The source was copied to the destination.
    Copied,
    /// Copying failed.
    CopyFailed(String),
    /// The source was removed after copying (whatever the outcome).
    SourceRemoved,
}

/// What to do next in the course of a copy or move.
#[derive(Debug)]
pub enum CopyMoveAction {
    /// Find out whether the destination exists.
    CheckDestination,
    /// Remove the destination, ignoring failure.
    RemoveDestination,
    /// Create the destination's parent directories.
    CreateDirs,
    /// Rename the source to the destination.
    Rename,
    /// Copy the source to the destination.
    Copy,
    /// Remove the source, ignoring failure.
    RemoveSource,
    /// Answer with the error.
    Fail(ErrorResponse),
    /// Answer with the status and body of the completed copy or move.
    Respond(u16, CopyMoveResp),
}

/// The answer body of a completed copy or move.
pub open spec fn is_done(flow: CopyMoveFlow, status: u16, body: CopyMoveResp) -> bool {
    &&& status == 200
    &&& body.src@ == flow.plan.src.key@
    &&& body.dst@ == flow.plan.dst.key@
    &&& body.size == flow.size
}

fn done(flow: &CopyMoveFlow) -> (a: CopyMoveAction)
    ensures
        a matches CopyMoveAction::Respond(status, body) && is_done(*flow, status, body),
{
    CopyMoveAction::Respond(
        200,
        CopyMoveResp {
            src: flow.plan.src.key.clone(),
            dst: flow.plan.dst.key.clone(),
            size: flow.size,
        },
    )
}

/// Decides the next step of a copy or move after an event. A missing source
/// is answered 404, a failed lookup 500; an existing destination is refused
/// (409) when overwriting is off, and otherwise a move first removes it
/// (unless it is the source itself); the parent directories are created; a
/// copy copies, a move renames and falls back to copying and removing the
/// source; the answer is 200 with both keys and the source's size.
pub fn copy_move_step(flow: &mut CopyMoveFlow, ev: CopyMoveEvent) -> (a: CopyMoveAction)
    ensures
        final(flow).op == old(flow).op,
        final(flow).plan == old(flow).plan,
        match ev {
            CopyMoveEvent::Source(MetadataResult::Found(n)) => final(flow).size == n,
            _ => final(flow).size == old(flow).size,
        },
        match ev {
            CopyMoveEvent::Source(MetadataResult::Found(_)) => if !old(flow).plan.overwrite {
                a is CheckDestination
            } else if old(flow).op is Move && old(flow).plan.src.path@
                != old(flow).plan.dst.path@ {
                a is RemoveDestination
            } else {
                a is CreateDirs
            },
            CopyMoveEvent::Source(MetadataResult::NotFound) => a matches CopyMoveAction::Fail(e)
                && is_not_found(e),
            CopyMoveEvent::Source(MetadataResult::Failed(m)) => a matches CopyMoveAction::Fail(e)
                && is_server_error(e, m@),
            CopyMoveEvent::DestinationChecked(exists) => if exists {
                a matches CopyMoveAction::Fail(e) && is_conflict(e, "destination exists"@)
            } else {
                a is CreateDirs
            },
            CopyMoveEvent::DestinationRemoved => a is CreateDirs,
            CopyMoveEvent::DirsCreated => if old(flow).op is Copy {
                a is Copy
            } else {
                a is Rename
            },
            CopyMoveEvent::DirsFailed(m) => a matches CopyMoveAction::Fail(e) && is_server_error(
                e,
                m@,
            ),
            CopyMoveEvent::Renamed => a matches CopyMoveAction::Respond(status, body) && is_done(
                *final(flow),
                status,
                body,
            ),
            CopyMoveEvent::RenameFailed => a is Copy,
            CopyMoveEvent::Copied => if old(flow).op is Copy {
                a matches CopyMoveAction::Respond(status, body) && is_done(
                    *final(flow),
                    status,
                    body,
                )
            } else {
                a is RemoveSource
            },
            CopyMoveEvent::CopyFailed(m) => a matches CopyMoveAction::Fail(e) && is_server_error(
                e,
                m@,
            ),
            CopyMoveEvent::SourceRemoved => a matches CopyMoveAction::Respond(status, body)
                && is_done(*final(flow), status, body),
        },
{
    match ev {
        CopyMoveEvent::Source(meta) => match object_size(meta) {
            Ok(n) => {
                flow.size = n;
                if !flow.plan.overwrite {
                    CopyMoveAction::CheckDestination
                } else if matches!(flow.op, CopyMoveOp::Move) && !str_eq(
                    flow.plan.src.path.as_str(),
                    flow.plan.dst.path.as_str(),
                ) {
                    CopyMoveAction::RemoveDestination
                } else {
                    CopyMoveAction::CreateDirs
                }
            },
            Err(e) => CopyMoveAction::Fail(e),
        },
        CopyMoveEvent::DestinationChecked(exists) => match destination_check(false, exists) {
            Ok(()) => CopyMoveAction::CreateDirs,
            Err(e) => CopyMoveAction::Fail(e),
        },
        CopyMoveEvent::DestinationRemoved => CopyMoveAction::CreateDirs,
        CopyMoveEvent::DirsCreated => match flow.op {
            CopyMoveOp::Copy => CopyMoveAction::Copy,
            CopyMoveOp::Move => CopyMoveAction::Rename,
        },
        CopyMoveEvent::DirsFailed(m) => CopyMoveAction::Fail(server_error(m.as_str())),
        CopyMoveEvent::Renamed => done(flow),
        CopyMoveEvent::RenameFailed => CopyMoveAction::Copy,
        CopyMoveEvent::Copied => match flow.op {
            CopyMoveOp::Copy => done(flow),
            CopyMoveOp::Move => CopyMoveAction::RemoveSource,
        },
        CopyMoveEvent::CopyFailed(m) => CopyMoveAction::Fail(server_error(m.as_str())),
        CopyMoveEvent::SourceRemoved => done(flow),
    }
}

} // verus!
