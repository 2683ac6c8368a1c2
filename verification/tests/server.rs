use std::sync::atomic::{AtomicU64, AtomicUsize, Ordering};
use std::sync::Arc;

use sobj::auth::{dec_in_flight, in_flight_after_finish, in_flight_after_start, inc_in_flight, require_auth};
use sobj::copy_move::{
    copy_move_step, copy_move_targets, destination_check, start_copy_move, CopyMoveAction, CopyMoveEvent, CopyMoveOp,
    CopyMoveReq,
};
use sobj::error::{conflict, error_resp, invalid_key, not_found, server_error, unauthorized};
use sobj::health::health;
use sobj::list::{list_request, ListQuery};
use sobj::object::{
    found_entry, get_object_headers, object_size, object_target, put_step, start_put, upload_tmp_path, MetadataResult,
    PutAction, PutEvent,
};
use sobj::state::AppState;

fn state(token: Option<&str>) -> AppState {
    AppState {
        storage_dir: Arc::new("/storage".to_string()),
        auth_token: Arc::new(token.map(|t| t.to_string())),
        in_flight: Arc::new(AtomicUsize::new(0)),
        upload_counter: Arc::new(AtomicU64::new(0)),
    }
}

#[test]
fn error_bodies() {
    let e = unauthorized();
    assert_eq!((e.status, e.body.error), (401, "Unauthorized"));
    assert_eq!(e.body.message.as_deref(), Some("invalid or missing Authorization header"));
    let e = not_found();
    assert_eq!((e.status, e.body.error), (404, "NotFound"));
    assert_eq!(e.body.message.as_deref(), Some("object not found"));
    let e = invalid_key();
    assert_eq!((e.status, e.body.error), (400, "InvalidKey"));
    let e = server_error("disk full");
    assert_eq!((e.status, e.body.error), (500, "InternalError"));
    assert_eq!(e.body.message.as_deref(), Some("disk full"));
    let e = conflict("destination exists");
    assert_eq!((e.status, e.body.error), (409, "Conflict"));
    let e = error_resp(418, "Teapot", None);
    assert_eq!(e.status, 418);
    assert!(e.body.message.is_none());
}

#[test]
fn auth_disabled_accepts_everything() {
    let s = state(None);
    assert!(require_auth(None, &s).is_ok());
    assert!(require_auth(Some("anything"), &s).is_ok());
}

#[test]
fn auth_requires_exact_token() {
    let s = state(Some("Bearer devtoken"));
    assert!(require_auth(Some("Bearer devtoken"), &s).is_ok());
    assert!(require_auth(Some("Bearer devtoken "), &s).is_err());
    assert!(require_auth(Some("bearer devtoken"), &s).is_err());
    let e = require_auth(None, &s).unwrap_err();
    assert_eq!(e.status, 401);
}

#[test]
fn in_flight_counts() {
    let s = state(None);
    assert_eq!(inc_in_flight(&s), 1);
    assert_eq!(inc_in_flight(&s), 2);
    assert_eq!(dec_in_flight(&s), 1);
    assert_eq!(dec_in_flight(&s), 0);
    assert_eq!(s.in_flight.load(Ordering::SeqCst), 0);
}

#[test]
fn in_flight_never_drops_below_zero() {
    let s = state(None);
    assert_eq!(dec_in_flight(&s), 0);
    assert_eq!(dec_in_flight(&s), 0);
    assert_eq!(s.in_flight.load(Ordering::SeqCst), 0);
    assert_eq!(inc_in_flight(&s), 1);
}

#[test]
fn in_flight_arithmetic() {
    assert_eq!(in_flight_after_start(0), 1);
    assert_eq!(in_flight_after_start(usize::MAX), 0);
    assert_eq!(in_flight_after_finish(5), 4);
    assert_eq!(in_flight_after_finish(0), 0);
}

#[test]
fn health_reports_in_flight() {
    let s = state(None);
    inc_in_flight(&s);
    let h = health(&s, "0.5.0");
    assert_eq!((h.app, h.version, h.status, h.in_flight), ("sobj-server", "0.5.0", "ok", 1));
}

#[test]
fn object_target_resolves_key_and_path() {
    let s = state(Some("t"));
    let t = object_target(Some("t"), &s, "images/a%20b.jpg").unwrap();
    assert_eq!(t.key, "images/a b.jpg");
    assert_eq!(t.path, "/storage/images/a b.jpg");
}

#[test]
fn object_target_checks_auth_before_key() {
    let s = state(Some("t"));
    assert_eq!(object_target(None, &s, "..").unwrap_err().status, 401);
    assert_eq!(object_target(Some("t"), &s, "..").unwrap_err().status, 400);
    assert_eq!(object_target(Some("t"), &s, "").unwrap_err().status, 400);
}

#[test]
fn lookups_are_answered() {
    assert_eq!(object_size(MetadataResult::Found(7)).unwrap(), 7);
    assert_eq!(object_size(MetadataResult::NotFound).unwrap_err().status, 404);
    let e = object_size(MetadataResult::Failed("boom".to_string())).unwrap_err();
    assert_eq!((e.status, e.body.message.as_deref()), (500, Some("boom")));
}

#[test]
fn download_headers() {
    let h = get_object_headers("doc/readme.json", MetadataResult::Found(12)).unwrap();
    assert_eq!(h.content_type, "application/json");
    assert_eq!(h.content_length, 12);
    let h = get_object_headers("noext", MetadataResult::Found(1)).unwrap();
    assert_eq!(h.content_type, "application/octet-stream");
    assert_eq!(get_object_headers("x", MetadataResult::NotFound).unwrap_err().status, 404);
}

#[test]
fn upload_temporary_names() {
    assert_eq!(upload_tmp_path("/storage/a.txt", 5), "/storage/a.5.uploading.tmp");
    assert_eq!(upload_tmp_path("/storage/dir/data", 42), "/storage/dir/data.42.uploading.tmp");
}

#[test]
fn uploads_draw_distinct_temporary_files() {
    let s = state(None);
    let t1 = object_target(None, &s, "k.bin").unwrap();
    let t2 = object_target(None, &s, "k.bin").unwrap();
    let u1 = start_put(t1, &s);
    let u2 = start_put(t2, &s);
    assert_eq!(u1.tmp_path, "/storage/k.0.uploading.tmp");
    assert_eq!(u2.tmp_path, "/storage/k.1.uploading.tmp");
    assert_eq!(u1.size, 0);
}

#[test]
fn upload_counts_bytes_and_completes() {
    let s = state(None);
    let mut up = start_put(object_target(None, &s, "f.txt").unwrap(), &s);
    assert!(matches!(put_step(&mut up, PutEvent::Received(3)), PutAction::Write));
    assert!(matches!(put_step(&mut up, PutEvent::Received(4)), PutAction::Write));
    assert!(matches!(put_step(&mut up, PutEvent::Ended), PutAction::Flush));
    assert!(matches!(put_step(&mut up, PutEvent::Flushed), PutAction::Rename));
    match put_step(&mut up, PutEvent::Renamed) {
        PutAction::Created(status, body) => {
            assert_eq!(status, 201);
            assert_eq!(body.key, "f.txt");
            assert_eq!(body.size, 7);
        }
        other => panic!("unexpected {:?}", other),
    }
}

#[test]
fn upload_failures_remove_the_temporary_file() {
    let s = state(None);
    let mut up = start_put(object_target(None, &s, "f.txt").unwrap(), &s);
    match put_step(&mut up, PutEvent::WriteFailed("no space".to_string())) {
        PutAction::Discard(e) => assert_eq!((e.status, e.body.message.as_deref()), (500, Some("no space"))),
        other => panic!("unexpected {:?}", other),
    }
    assert!(matches!(put_step(&mut up, PutEvent::RenameFailed("x".to_string())), PutAction::Discard(_)));
    assert!(matches!(put_step(&mut up, PutEvent::SetupFailed("x".to_string())), PutAction::Fail(_)));
}

#[test]
fn list_request_defaults() {
    let s = state(None);
    let r = list_request(None, &s, ListQuery { prefix: None, limit: None, cursor: None }).unwrap();
    assert_eq!((r.prefix.as_str(), r.cursor.as_str(), r.limit), ("", "", 1000));
    let r = list_request(
        None,
        &s,
        ListQuery { prefix: Some("img/".to_string()), limit: Some(50_000), cursor: Some("img/a".to_string()) },
    )
    .unwrap();
    assert_eq!((r.prefix.as_str(), r.cursor.as_str(), r.limit), ("img/", "img/a", 10_000));
    let s = state(Some("t"));
    assert_eq!(
        list_request(None, &s, ListQuery { prefix: None, limit: None, cursor: None }).unwrap_err().status,
        401
    );
}

#[test]
fn copy_move_plans() {
    let s = state(None);
    let req = CopyMoveReq { src: "a.txt".to_string(), dst: "b/c.txt".to_string(), overwrite: None };
    let plan = copy_move_targets(None, &s, &req).unwrap();
    assert_eq!(plan.src.path, "/storage/a.txt");
    assert_eq!(plan.dst.path, "/storage/b/c.txt");
    assert!(plan.overwrite);
    let bad = CopyMoveReq { src: "a.txt".to_string(), dst: "../x".to_string(), overwrite: Some(false) };
    assert_eq!(copy_move_targets(None, &s, &bad).unwrap_err().status, 400);
}

#[test]
fn destination_conflicts() {
    assert!(destination_check(true, true).is_ok());
    assert!(destination_check(false, false).is_ok());
    let e = destination_check(false, true).unwrap_err();
    assert_eq!((e.status, e.body.message.as_deref()), (409, Some("destination exists")));
}

fn plan(src: &str, dst: &str, overwrite: Option<bool>) -> sobj::copy_move::CopyMovePlan {
    let s = state(None);
    let req = CopyMoveReq { src: src.to_string(), dst: dst.to_string(), overwrite };
    copy_move_targets(None, &s, &req).unwrap()
}

#[test]
fn move_renames_after_removing_the_destination() {
    let mut flow = start_copy_move(CopyMoveOp::Move, plan("a.txt", "b/c.txt", None));
    assert!(matches!(copy_move_step(&mut flow, CopyMoveEvent::Source(MetadataResult::Found(9))), CopyMoveAction::RemoveDestination));
    assert!(matches!(copy_move_step(&mut flow, CopyMoveEvent::DestinationRemoved), CopyMoveAction::CreateDirs));
    assert!(matches!(copy_move_step(&mut flow, CopyMoveEvent::DirsCreated), CopyMoveAction::Rename));
    match copy_move_step(&mut flow, CopyMoveEvent::Renamed) {
        CopyMoveAction::Respond(status, body) => {
            assert_eq!(status, 200);
            assert_eq!((body.src.as_str(), body.dst.as_str(), body.size), ("a.txt", "b/c.txt", 9));
        }
        other => panic!("unexpected {:?}", other),
    }
}

#[test]
fn move_falls_back_to_copy_and_remove() {
    let mut flow = start_copy_move(CopyMoveOp::Move, plan("a.txt", "d.txt", None));
    copy_move_step(&mut flow, CopyMoveEvent::Source(MetadataResult::Found(4)));
    copy_move_step(&mut flow, CopyMoveEvent::DestinationRemoved);
    copy_move_step(&mut flow, CopyMoveEvent::DirsCreated);
    assert!(matches!(copy_move_step(&mut flow, CopyMoveEvent::RenameFailed), CopyMoveAction::Copy));
    assert!(matches!(copy_move_step(&mut flow, CopyMoveEvent::Copied), CopyMoveAction::RemoveSource));
    match copy_move_step(&mut flow, CopyMoveEvent::SourceRemoved) {
        CopyMoveAction::Respond(status, body) => assert_eq!((status, body.size), (200, 4)),
        other => panic!("unexpected {:?}", other),
    }
}

#[test]
fn move_onto_itself_keeps_the_object() {
    let mut flow = start_copy_move(CopyMoveOp::Move, plan("a.txt", "a.txt", Some(true)));
    assert!(matches!(copy_move_step(&mut flow, CopyMoveEvent::Source(MetadataResult::Found(3))), CopyMoveAction::CreateDirs));
}

#[test]
fn copy_copies_and_keeps_the_source() {
    let mut flow = start_copy_move(CopyMoveOp::Copy, plan("a.txt", "b.txt", None));
    assert!(matches!(copy_move_step(&mut flow, CopyMoveEvent::Source(MetadataResult::Found(5))), CopyMoveAction::CreateDirs));
    assert!(matches!(copy_move_step(&mut flow, CopyMoveEvent::DirsCreated), CopyMoveAction::Copy));
    match copy_move_step(&mut flow, CopyMoveEvent::Copied) {
        CopyMoveAction::Respond(status, body) => {
            assert_eq!((status, body.src.as_str(), body.dst.as_str(), body.size), (200, "a.txt", "b.txt", 5))
        }
        other => panic!("unexpected {:?}", other),
    }
}

#[test]
fn copy_move_refusals() {
    let mut flow = start_copy_move(CopyMoveOp::Copy, plan("a.txt", "b.txt", Some(false)));
    assert!(matches!(copy_move_step(&mut flow, CopyMoveEvent::Source(MetadataResult::Found(5))), CopyMoveAction::CheckDestination));
    match copy_move_step(&mut flow, CopyMoveEvent::DestinationChecked(true)) {
        CopyMoveAction::Fail(e) => assert_eq!((e.status, e.body.error), (409, "Conflict")),
        other => panic!("unexpected {:?}", other),
    }
    assert!(matches!(copy_move_step(&mut flow, CopyMoveEvent::DestinationChecked(false)), CopyMoveAction::CreateDirs));
    let mut flow = start_copy_move(CopyMoveOp::Move, plan("a.txt", "b.txt", None));
    match copy_move_step(&mut flow, CopyMoveEvent::Source(MetadataResult::NotFound)) {
        CopyMoveAction::Fail(e) => assert_eq!(e.status, 404),
        other => panic!("unexpected {:?}", other),
    }
    match copy_move_step(&mut flow, CopyMoveEvent::CopyFailed("disk".to_string())) {
        CopyMoveAction::Fail(e) => assert_eq!((e.status, e.body.message.as_deref()), (500, Some("disk"))),
        other => panic!("unexpected {:?}", other),
    }
    match copy_move_step(&mut flow, CopyMoveEvent::DirsFailed("ro".to_string())) {
        CopyMoveAction::Fail(e) => assert_eq!(e.status, 500),
        other => panic!("unexpected {:?}", other),
    }
}

#[test]
fn only_regular_files_are_objects() {
    assert!(matches!(found_entry(true, 12), MetadataResult::Found(12)));
    assert!(matches!(found_entry(false, 4096), MetadataResult::NotFound));
    assert_eq!(object_size(found_entry(false, 4096)).unwrap_err().status, 404);
}
