use yalt::project::{self, DiscoveredImage, ImageStatus, ProjectData};
use yalt::workspace::{self, HistoryAction, RecoveryStep};

const NOW: i64 = 1_700_000_000_000;

fn found(path: &str, width: u32, height: u32) -> DiscoveredImage {
    let file_name = path.rsplit('/').next().unwrap().to_owned();
    DiscoveredImage {
        relative_path: path.to_owned(),
        file_name,
        raw_width: width,
        raw_height: height,
        byte_size: 1000,
        modified_at_ms: 5,
        orientation: 1,
    }
}

fn project_with_image() -> (ProjectData, String) {
    let mut data = project::create("/data/set", "Delete test", "detection", None, NOW).expect("project");
    project::index_images(&mut data, vec![found("frame.jpg", 64, 48)], NOW).expect("index");
    let image_id = project::list_images(&data, 10, 0).expect("images")[0].id.clone();
    (data, image_id)
}

fn status_of(data: &ProjectData, image_id: &str) -> ImageStatus {
    data.images.iter().find(|row| row.id == image_id).expect("image").status
}

#[test]
fn delete_undo_redo_and_restore_are_recoverable() {
    let (mut data, image_id) = project_with_image();
    let occupied: Vec<String> = Vec::new();
    let pending = workspace::delete_image(&data, &image_id, &occupied).expect("delete");
    assert_eq!(pending.from_relative_path, "frame.jpg");
    assert_eq!(pending.to_relative_path, "deleted/frame.jpg");
    workspace::finalize_pending_move(&mut data, &pending, NOW + 1).expect("finalize");
    let deleted = project::summary(&data).expect("summary");
    assert_eq!(deleted.image_count, 0);
    assert_eq!(deleted.deleted_image_count, 1);
    assert!(workspace::history_state(&data).expect("history").can_undo);

    let undo = match workspace::undo(&mut data, NOW + 2).expect("undo") {
        HistoryAction::MoveImage(p) => p,
        _ => panic!("undo should move the image back"),
    };
    assert_eq!(undo.image_id, image_id);
    assert_eq!(undo.from_relative_path, "deleted/frame.jpg");
    assert_eq!(undo.to_relative_path, "frame.jpg");
    workspace::finalize_pending_move(&mut data, &undo, NOW + 3).expect("finalize undo");
    assert_eq!(status_of(&data, &image_id), ImageStatus::Active);
    assert!(workspace::history_state(&data).expect("history").can_redo);

    let redo = match workspace::redo(&mut data, NOW + 4).expect("redo") {
        HistoryAction::MoveImage(p) => p,
        _ => panic!("redo should move the image again"),
    };
    assert_eq!(redo.image_id, image_id);
    assert_eq!(redo.to_relative_path, "deleted/frame.jpg");
    workspace::finalize_pending_move(&mut data, &redo, NOW + 5).expect("finalize redo");
    assert_eq!(status_of(&data, &image_id), ImageStatus::Deleted);

    let restore = workspace::restore_image(&data, &image_id).expect("restore");
    assert_eq!(restore.to_relative_path, "frame.jpg");
    workspace::finalize_pending_move(&mut data, &restore, NOW + 6).expect("finalize restore");
    let restored = project::summary(&data).expect("summary");
    assert_eq!(restored.image_count, 1);
}

#[test]
fn reopen_finishes_a_move_interrupted_after_the_filesystem_step() {
    let (mut data, image_id) = project_with_image();
    let occupied: Vec<String> = Vec::new();
    let pending = workspace::delete_image(&data, &image_id, &occupied).expect("journal");
    // The file moved, then the process stopped: only the destination exists on reopening.
    let step = workspace::recovery_step(false, "/d/frame.jpg", "/d/deleted/frame.jpg", false, true).expect("recovery on reopen");
    assert_eq!(step, RecoveryStep::Finalize);
    workspace::finalize_pending_move(&mut data, &pending, NOW + 1).expect("finalize");
    let reopened = project::summary(&data).expect("summary");
    assert_eq!(reopened.deleted_image_count, 1);
    assert_eq!(project::list_images(&data, 10, 0).expect("images")[0].status, "deleted");
    assert!(workspace::history_state(&data).expect("history").can_undo);
}

#[test]
fn recovery_drops_an_unstarted_move_and_stops_on_ambiguity() {
    assert_eq!(workspace::recovery_step(false, "/d/a.jpg", "/d/deleted/a.jpg", true, false).expect("discard"), RecoveryStep::Discard);
    assert_eq!(
        workspace::recovery_step(false, "/d/a.jpg", "/d/deleted/a.jpg", true, true).err(),
        Some("Recovery stopped because both /d/a.jpg and /d/deleted/a.jpg exist.".to_owned())
    );
    assert_eq!(
        workspace::recovery_step(true, "/d/a.jpg", "/d/B/a.jpg", false, false).err(),
        Some("Classification recovery stopped because neither /d/a.jpg nor /d/B/a.jpg exists.".to_owned())
    );
}

#[test]
fn deleting_picks_a_suffixed_path_when_the_preferred_one_is_taken() {
    let mut data = project::create("/data/set", "Delete test", "detection", None, NOW).expect("project");
    project::index_images(&mut data, vec![found("birds/frame.jpg", 64, 48)], NOW).expect("index");
    let image_id = project::list_images(&data, 10, 0).expect("images")[0].id.clone();
    let occupied = vec!["deleted/birds/frame.jpg".to_owned()];
    let pending = workspace::delete_image(&data, &image_id, &occupied).expect("delete");
    assert_eq!(pending.to_relative_path, format!("deleted/birds/frame-deleted-{}.jpg", &image_id[..8]));
    let path = workspace::available_deleted_path("photo", "abcdefghij", &vec!["deleted/photo".to_owned()]).expect("path");
    assert_eq!(path, "deleted/photo-deleted-abcdefgh");
}

#[test]
fn only_active_images_can_be_deleted_and_only_deleted_ones_restored() {
    let (data, image_id) = project_with_image();
    assert!(workspace::restore_image(&data, &image_id).is_err());
    assert!(workspace::delete_image(&data, "unknown", &Vec::new()).is_err());
    assert!(workspace::available_deleted_path("../escape.jpg", "id", &Vec::new()).is_err());
}

#[test]
fn undo_and_redo_with_no_history_do_nothing() {
    let (mut data, _) = project_with_image();
    assert!(matches!(workspace::undo(&mut data, NOW).expect("undo"), HistoryAction::Nothing));
    assert!(matches!(workspace::redo(&mut data, NOW).expect("redo"), HistoryAction::Nothing));
    let state = workspace::history_state(&data).expect("history");
    assert!(!state.can_undo);
    assert!(!state.can_redo);
}

#[test]
fn the_current_image_is_remembered_and_cleared_when_deleted() {
    let (mut data, image_id) = project_with_image();
    assert!(workspace::set_current_image(&mut data, "missing", NOW).is_err());
    workspace::set_current_image(&mut data, &image_id, NOW + 1).expect("current");
    assert_eq!(data.project.last_image_id.as_deref(), Some(image_id.as_str()));
    let pending = workspace::delete_image(&data, &image_id, &Vec::new()).expect("delete");
    workspace::finalize_pending_move(&mut data, &pending, NOW + 2).expect("finalize");
    assert_eq!(data.project.last_image_id, None);
}

#[test]
fn relative_paths_are_checked() {
    assert_eq!(yalt::paths::relative_path("a/b.jpg").expect("valid"), "a/b.jpg");
    assert!(yalt::paths::relative_path("/etc/passwd").is_err());
    assert!(yalt::paths::relative_path("./a.jpg").is_err());
    assert!(yalt::paths::relative_path("a/../b.jpg").is_err());
    assert!(yalt::paths::relative_path("..").is_err());
    assert!(yalt::paths::relative_path("a..b/c").is_ok());
}

#[test]
fn images_with_annotations_are_not_moved_to_deleted() {
    let (mut data, image_id) = project_with_image();
    let class = yalt::detection::create_class(&mut data, "person", NOW).expect("class");
    let geometry = "{\"x\":1,\"y\":1,\"width\":5,\"height\":5}";
    let a = yalt::detection::create_annotation(&mut data, &image_id, &class.id, geometry, NOW).expect("box");
    let refused = workspace::delete_image(&data, &image_id, &Vec::new());
    assert_eq!(refused.err(), Some("Remove the image's annotations before moving it to deleted.".to_owned()));
    assert_eq!(status_of(&data, &image_id), ImageStatus::Active);
    yalt::detection::delete_annotation(&mut data, &a.id, NOW + 1).expect("remove box");
    assert!(workspace::delete_image(&data, &image_id, &Vec::new()).is_ok());
}

#[test]
fn history_flags_read_applied_then_undone() {
    let (mut data, image_id) = project_with_image();
    let class = yalt::detection::create_class(&mut data, "person", NOW).expect("class");
    let geometry = "{\"x\":1,\"y\":1,\"width\":5,\"height\":5}";
    let first = yalt::detection::create_annotation(&mut data, &image_id, &class.id, geometry, NOW).expect("first");
    yalt::detection::create_annotation(&mut data, &image_id, &class.id, geometry, NOW).expect("second");
    let flags = |data: &ProjectData| data.history.iter().map(|e| e.applied).collect::<Vec<_>>();
    assert_eq!(flags(&data), vec![true, true]);
    workspace::undo(&mut data, NOW + 1).expect("undo");
    assert_eq!(flags(&data), vec![true, false]);
    workspace::undo(&mut data, NOW + 2).expect("undo again");
    assert_eq!(flags(&data), vec![false, false]);
    workspace::redo(&mut data, NOW + 3).expect("redo");
    assert_eq!(flags(&data), vec![true, false]);
    assert_eq!(yalt::detection::list_annotations(&data, &image_id).expect("list").len(), 1);
    assert_eq!(yalt::detection::list_annotations(&data, &image_id).expect("list")[0].id, first.id);
    // A new edit drops the undone entry.
    yalt::detection::create_annotation(&mut data, &image_id, &class.id, geometry, NOW + 4).expect("third");
    assert_eq!(flags(&data), vec![true, true]);
    assert_eq!(data.history.len(), 2);
}

#[test]
fn ids_that_cannot_be_cut_after_eight_bytes_move_where_no_suffix_is_needed() {
    let mut data = project::create("/data/set", "Ids", "detection", None, NOW).expect("project");
    let odd = "aaaaaaa\u{e9}-rest".to_owned();
    project::index_images_with_ids(&mut data, vec![found("frame.jpg", 4, 4)], vec![odd.clone()], NOW).expect("index");
    assert!(!workspace::deletion_slices_id_exec(&data, &odd, &Vec::new()));
    let pending = workspace::delete_image(&data, &odd, &Vec::new()).expect("delete");
    assert_eq!(pending.to_relative_path, "deleted/frame.jpg");
    assert!(workspace::deletion_slices_id_exec(&data, &odd, &vec!["deleted/frame.jpg".to_owned()]));
}
