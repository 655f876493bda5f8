use yalt::classification::{
    self, ClassificationStep, CsvRowRequest,
};
use yalt::detection;
use yalt::project::{self, DiscoveredImage, ProjectData};
use yalt::workspace::{self, HistoryAction};

const NOW: i64 = 1_700_000_000_000;

fn found(path: &str) -> DiscoveredImage {
    let file_name = path.rsplit('/').next().unwrap().to_owned();
    DiscoveredImage {
        relative_path: path.to_owned(),
        file_name,
        raw_width: 20,
        raw_height: 12,
        byte_size: 100,
        modified_at_ms: 1,
        orientation: 1,
    }
}

fn classification_project(mode: &str) -> (ProjectData, String) {
    let mut data = project::create("/data/set", "Classification", "classification", Some(mode), NOW).expect("project");
    project::index_images(&mut data, vec![found("bird, one.jpg")], NOW).expect("index");
    let image_id = project::list_images(&data, 10, 0).expect("images")[0].id.clone();
    (data, image_id)
}

fn path_of(data: &ProjectData, image_id: &str) -> String {
    data.images.iter().find(|row| row.id == image_id).expect("image").relative_path.clone()
}

#[test]
fn single_label_moves_and_history_restores_the_image() {
    let (mut data, image_id) = classification_project("single");
    let class = detection::create_class(&mut data, "Birds", NOW).expect("class");
    let occupied: Vec<String> = Vec::new();
    let pending = match classification::set_image_classes(&mut data, &image_id, vec![class.id.clone()], &occupied, NOW)
        .expect("classify")
    {
        ClassificationStep::Move(p) => p,
        ClassificationStep::Done(_) => panic!("single-label mode moves the file"),
    };
    assert_eq!(pending.operation.to_relative_path, "Birds/bird, one.jpg");
    classification::finalize_pending(&mut data, pending, NOW + 1).expect("finalize");
    assert_eq!(path_of(&data, &image_id), "Birds/bird, one.jpg");
    assert_eq!(classification::image_class_ids(&data, &image_id), vec![class.id.clone()]);

    match workspace::undo(&mut data, NOW + 2).expect("undo") {
        HistoryAction::MoveClassified(p) => {
            assert_eq!(p.operation.image_id, image_id);
            classification::finalize_pending(&mut data, p, NOW + 3).expect("finalize undo");
        },
        _ => panic!("undo should move the file back"),
    }
    assert_eq!(path_of(&data, &image_id), "bird, one.jpg");
    assert!(classification::image_class_ids(&data, &image_id).is_empty());

    match workspace::redo(&mut data, NOW + 4).expect("redo") {
        HistoryAction::MoveClassified(p) => {
            assert_eq!(p.operation.image_id, image_id);
            classification::finalize_pending(&mut data, p, NOW + 5).expect("finalize redo");
        },
        _ => panic!("redo should move the file again"),
    }
    assert_eq!(path_of(&data, &image_id), "Birds/bird, one.jpg");
}

#[test]
fn reopen_finishes_a_classification_move_interrupted_after_the_filesystem_step() {
    let (mut data, image_id) = classification_project("single");
    let class = detection::create_class(&mut data, "Birds", NOW).expect("class");
    let pending = match classification::set_image_classes(&mut data, &image_id, vec![class.id.clone()], &Vec::new(), NOW)
        .expect("journal")
    {
        ClassificationStep::Move(p) => p,
        ClassificationStep::Done(_) => panic!("the file moves"),
    };
    assert_eq!(pending.operation.from_relative_path, "bird, one.jpg");
    assert_eq!(pending.operation.to_relative_path, "Birds/bird, one.jpg");
    // The file moved, then the process stopped: on reopening only the destination exists.
    assert_eq!(workspace::recovery_step(true, "/d/a.jpg", "/d/B/a.jpg", false, true).expect("recovery on reopen"), workspace::RecoveryStep::Finalize);
    classification::finalize_pending(&mut data, pending, NOW + 1).expect("finalize");
    assert_eq!(path_of(&data, &image_id), "Birds/bird, one.jpg");
    let state = classification::state(&data, Some(&image_id)).expect("state");
    assert_eq!(state.image_class_ids, vec![class.id]);
    assert!(workspace::history_state(&data).expect("history").can_undo);
}

#[test]
fn multi_label_stays_in_place_and_csv_quotes_paths() {
    let (mut data, image_id) = classification_project("multi");
    let bird = detection::create_class(&mut data, "Bird", NOW).expect("bird");
    let sky = detection::create_class(&mut data, "Blue sky", NOW).expect("sky");
    match classification::set_image_classes(&mut data, &image_id, vec![sky.id, bird.id], &Vec::new(), NOW).expect("classify") {
        ClassificationStep::Done(state) => assert_eq!(state.image_class_ids.len(), 2),
        ClassificationStep::Move(_) => panic!("multi-label mode keeps files in place"),
    }
    assert_eq!(path_of(&data, &image_id), "bird, one.jpg");
    let (text, report) = classification::export_csv(&data).expect("export");
    assert!(text.contains("\"bird, one.jpg\",Bird,Blue sky"));
    assert_eq!(report.assignments, 2);
    assert_eq!(report.matched_images, 1);
    assert_eq!(report.message, "Exported labels for 1 images to CSV.");
    assert_eq!(classification::parse_csv(&text).expect("parse")[1][0], "bird, one.jpg");
}

#[test]
fn csv_import_matches_a_quoted_path_and_creates_classes() {
    let (mut data, image_id) = classification_project("multi");
    let text = "relative_path,class_name_1,class_name_2\n\"bird, one.jpg\",Bird,Cloudy\n";
    let rows = classification::parse_csv(text).expect("parse");
    let mut matched = 0;
    for (index, row) in rows.iter().enumerate() {
        match classification::csv_row_request(&data, row, index) {
            CsvRowRequest::Assign { image_id: id, names } => {
                let ids = classification::ensure_classes(&mut data, &names, NOW).expect("classes");
                classification::set_image_classes(&mut data, &id, ids, &Vec::new(), NOW).expect("classify");
                matched += 1;
            },
            CsvRowRequest::Ignore | CsvRowRequest::Unmatched => {},
        }
    }
    assert_eq!(matched, 1);
    let loaded = classification::state(&data, Some(&image_id)).expect("state");
    assert_eq!(loaded.image_class_ids.len(), 2);
    assert_eq!(loaded.classes.len(), 2);
}

#[test]
fn duplicate_destination_names_get_a_stable_suffix() {
    let (mut data, image_id) = classification_project("single");
    let occupied = vec!["Birds/bird, one.jpg".to_owned()];
    let class = detection::create_class(&mut data, "Birds", NOW).expect("class");
    let pending = match classification::set_image_classes(&mut data, &image_id, vec![class.id], &occupied, NOW).expect("classify") {
        ClassificationStep::Move(p) => p,
        ClassificationStep::Done(_) => panic!("the file moves"),
    };
    let short = &image_id[..8];
    assert_eq!(pending.operation.to_relative_path, format!("Birds/bird, one-{short}.jpg"));
}

#[test]
fn imports_an_existing_class_directory_layout_without_moving_files() {
    let mut data = project::create("/data/set", "Folders", "classification", Some("single"), NOW).expect("project");
    project::index_images(&mut data, vec![found("Otters/swimming.png")], NOW).expect("index");
    let image_id = project::list_images(&data, 10, 0).expect("images")[0].id.clone();
    assert!(classification::class_folder_accepted("Otters"));
    let ids = classification::ensure_classes(&mut data, &vec!["Otters".to_owned()], NOW).expect("class");
    let key = classification::normalize_path("Otters/swimming.png");
    assert!(classification::supported_image(&key));
    let found_id = classification::resolve_image(&data, &key).expect("image");
    assert_eq!(found_id, image_id);
    match classification::set_image_classes(&mut data, &found_id, ids, &Vec::new(), NOW).expect("classify") {
        ClassificationStep::Done(_) => {},
        ClassificationStep::Move(_) => panic!("an image already in its class directory stays"),
    }
    assert_eq!(path_of(&data, &image_id), "Otters/swimming.png");
    let loaded = classification::state(&data, Some(&image_id)).expect("state");
    assert_eq!(loaded.image_class_ids.len(), 1);
    assert_eq!(loaded.classes[0].name, "Otters");
}

#[test]
fn malformed_csv_is_reported_without_changing_labels() {
    let (data, image_id) = classification_project("multi");
    let error = classification::parse_csv("relative_path,class_name\n\"bird, one.jpg,Bird\n").expect_err("malformed CSV");
    assert!(error.contains("unterminated quoted field"));
    assert!(classification::state(&data, Some(&image_id)).expect("state").image_class_ids.is_empty());
}

#[test]
fn csv_fields_round_trip() {
    assert_eq!(classification::csv_field("plain"), "plain");
    assert_eq!(classification::csv_field("a,b"), "\"a,b\"");
    assert_eq!(classification::csv_field("say \"hi\""), "\"say \"\"hi\"\"\"");
    let fields = vec!["x\r\ny".to_owned(), "".to_owned(), "q\"".to_owned()];
    let mut text = classification::csv_line_text(&fields);
    text.push('\n');
    let rows = classification::parse_csv(&text).expect("parse");
    assert_eq!(rows, vec![fields]);
    assert_eq!(classification::parse_csv("a,b\r\nc").expect("parse"), vec![vec!["a".to_owned(), "b".to_owned()], vec!["c".to_owned()]]);
}

#[test]
fn single_label_projects_take_one_class_and_other_tasks_refuse() {
    let (mut data, image_id) = classification_project("single");
    let a = detection::create_class(&mut data, "A", NOW).expect("a");
    let b = detection::create_class(&mut data, "B", NOW).expect("b");
    assert!(classification::set_image_classes(&mut data, &image_id, vec![a.id.clone(), b.id], &Vec::new(), NOW).is_err());
    assert!(classification::set_image_classes(&mut data, &image_id, vec!["nope".to_owned()], &Vec::new(), NOW).is_err());
    let mut other = project::create("/data/set", "Boxes", "detection", None, NOW).expect("project");
    assert!(classification::state(&other, None).is_err());
    assert!(classification::set_image_classes(&mut other, &image_id, vec![a.id], &Vec::new(), NOW).is_err());
}

#[test]
fn class_directory_names_are_sanitized() {
    assert_eq!(classification::class_directory_name(" a/b:c ").expect("name"), "a_b_c");
    assert_eq!(classification::class_directory_name("..Birds..").expect("name"), "Birds");
    assert!(classification::class_directory_name("Deleted").is_err());
    assert!(classification::class_directory_name(" . ").is_err());
    assert_eq!(classification::class_directory_name(" ..yalt").expect("name"), "yalt");
    assert_eq!(classification::class_directory_name(".yalt").expect("name"), "yalt");
}

#[test]
fn exported_copies_get_a_suffix_when_the_name_is_taken() {
    assert_eq!(classification::available_external_path("a.jpg", "0123456789", &Vec::new()), "a.jpg");
    assert_eq!(classification::available_external_path("a.jpg", "0123456789", &vec!["a.jpg".to_owned()]), "a-01234567.jpg");
    assert_eq!(classification::file_name("dir/pic.png"), "pic.png");
    assert_eq!(classification::file_name(".."), "..");
}

#[test]
fn import_reports_count_distinct_class_names() {
    let report = classification::import_report(3, 2, 1, &vec!["Bird".to_owned(), "bird".to_owned(), "Sky".to_owned()], "done".to_owned());
    assert_eq!(report.classes, 2);
    assert_eq!(report.assignments, 3);
    assert_eq!(report.skipped, 1);
}

#[test]
fn class_directory_export_copies_each_label() {
    let (mut data, image_id) = classification_project("multi");
    project::index_images(&mut data, vec![found("bird, one.jpg"), found("plain.jpg")], NOW).expect("index");
    let bird = detection::create_class(&mut data, "Bird", NOW).expect("class");
    let sky = detection::create_class(&mut data, "sky", NOW).expect("class");
    classification::set_image_classes(&mut data, &image_id, vec![sky.id.clone(), bird.id.clone()], &Vec::new(), NOW)
        .expect("classify");
    let (copies, report) = classification::class_directory_export(&data).expect("export");
    assert_eq!(copies.len(), 2);
    assert_eq!(copies[0].class_name, "Bird");
    assert_eq!(copies[1].class_name, "sky");
    assert_eq!(copies[0].image_id, image_id);
    assert_eq!(copies[0].file_name, "bird, one.jpg");
    assert_eq!(report.assignments, 2);
    assert_eq!(report.matched_images, 1);
    assert_eq!(report.classes, 2);
    assert_eq!(report.message, "Exported 2 labeled image copies into class directories.");
}

#[test]
fn class_directory_import_needs_a_single_label_project() {
    let (single, _) = classification_project("single");
    assert!(classification::require_single_label(&single).is_ok());
    let (multi, _) = classification_project("multi");
    assert!(classification::require_single_label(&multi).is_err());
    let boxes = project::create("/d", "Boxes", "detection", None, NOW).expect("project");
    assert!(classification::require_single_label(&boxes).is_err());
    assert!(classification::class_directory_export(&boxes).is_err());
}

#[test]
fn ensuring_known_classes_changes_nothing() {
    let mut data = project::create("/data/set", "Known", "classification", Some("multi"), NOW).expect("project");
    let first = classification::ensure_classes(&mut data, &vec!["Otters".to_owned(), "Seals".to_owned()], NOW)
        .expect("classes");
    assert_eq!(first.len(), 2);
    let again = classification::ensure_classes(&mut data, &vec!["otters".to_owned(), "  ".to_owned(), "Seals".to_owned()], NOW + 1)
        .expect("known classes");
    assert_eq!(again, first);
    assert_eq!(data.classes.len(), 2);
    assert_eq!(data.project.updated_at_ms, NOW);
}

#[test]
fn refusals_of_labels_and_csv_are_named() {
    let (mut data, image_id) = classification_project("single");
    let ids = classification::ensure_classes(&mut data, &vec!["Bird".to_owned(), "Fish".to_owned()], NOW).expect("classes");
    assert_eq!(
        classification::set_image_classes(&mut data, &image_id, ids, &Vec::new(), NOW).err(),
        Some("Single-label projects allow one class per image.".to_owned())
    );
    assert_eq!(
        classification::parse_csv("relative_path,class_name\n\"bird, one.jpg,Bird\n").err(),
        Some("The classification CSV has an unterminated quoted field.".to_owned())
    );
}

#[test]
fn import_tallies_report_their_counts() {
    let mut tally = classification::ImportTally::new();
    tally.assign(vec!["Bird".to_owned(), "Fish".to_owned()]);
    tally.skip();
    tally.assign(vec!["bird".to_owned()]);
    let report = tally.csv_report();
    assert_eq!((report.assignments, report.matched_images, report.skipped, report.classes), (3, 2, 1, 2));
    assert_eq!(report.message, "Imported 3 assignments for 2 images; skipped 1.");

    let mut folders = classification::ImportTally::new();
    folders.meet_class("Otters".to_owned());
    folders.assign(Vec::new());
    folders.skip();
    let report = folders.directory_report();
    assert_eq!((report.assignments, report.matched_images, report.skipped, report.classes), (1, 1, 1, 1));
    assert_eq!(report.message, "Imported 1 class-directory assignments; skipped 1.");
}

#[test]
fn rows_and_files_resolve_against_a_snapshot_of_the_images() {
    let (data, image_id) = classification_project("multi");
    let snapshot: Vec<project::ImageRow> = data.images.iter().map(project::copy_row).collect();
    assert_eq!(classification::resolve_in(&snapshot, "./Bird, One.JPG"), Some(image_id.clone()));
    assert_eq!(classification::resolve_in(&Vec::new(), "bird, one.jpg"), None);
    let row = vec!["bird, one.jpg".to_owned(), " Bird ".to_owned()];
    match classification::csv_row_request_in(&snapshot, &row, 1) {
        CsvRowRequest::Assign { image_id: id, names } => {
            assert_eq!(id, image_id);
            assert_eq!(names, vec!["Bird".to_owned()]);
        }
        _ => panic!("the row names the image"),
    }
}

#[test]
fn setting_the_same_classes_again_changes_nothing() {
    let (mut data, image_id) = classification_project("multi");
    let ids = classification::ensure_classes(&mut data, &vec!["Bird".to_owned(), "Fish".to_owned()], NOW).expect("classes");
    match classification::set_image_classes(&mut data, &image_id, ids.clone(), &Vec::new(), NOW + 1).expect("first") {
        ClassificationStep::Done(st) => assert_eq!(st.image_class_ids.len(), 2),
        ClassificationStep::Move(_) => panic!("multi-label labels move no file"),
    }
    let history = data.history.len();
    let links = data.image_classes.len();
    match classification::set_image_classes(&mut data, &image_id, ids, &Vec::new(), NOW + 2).expect("again") {
        ClassificationStep::Done(st) => assert_eq!(st.image_class_ids.len(), 2),
        ClassificationStep::Move(_) => panic!("nothing to move"),
    }
    assert_eq!(data.history.len(), history);
    assert_eq!(data.image_classes.len(), links);
    assert_eq!(data.project.updated_at_ms, NOW + 1);
}

#[test]
fn ensuring_classes_with_given_ids_creates_the_missing_ones() {
    let (mut data, image_id) = classification_project("multi");
    let names = vec!["Bird".to_owned(), " bird ".to_owned(), "Cloudy".to_owned()];
    let new_ids = vec!["bird-id".to_owned(), "unused".to_owned(), "cloudy-id".to_owned()];
    let ids = classification::ensure_classes_with_ids(&mut data, &names, &new_ids, NOW).expect("classes");
    assert_eq!(ids, vec!["bird-id".to_owned(), "cloudy-id".to_owned()]);
    assert_eq!(data.classes.len(), 2);
    assert_eq!((data.classes[1].name.as_str(), data.classes[1].position), ("Cloudy", 1));
    assert_eq!(data.active_class_id, Some("bird-id".to_owned()));
    match classification::set_image_classes(&mut data, &image_id, ids, &Vec::new(), NOW + 1).expect("labels") {
        ClassificationStep::Done(st) => assert_eq!(st.image_class_ids.len(), 2),
        ClassificationStep::Move(_) => panic!("multi-label labels move no file"),
    }

    // The second new class would take an id in use: the first new one stays.
    let more = vec!["Fish".to_owned(), "Eel".to_owned()];
    let refused = classification::ensure_classes_with_ids(&mut data, &more, &vec!["fish-id".to_owned(), "fish-id".to_owned()], NOW + 2);
    assert!(refused.is_err());
    assert_eq!(data.classes.len(), 3);
    assert_eq!(data.classes[2].id, "fish-id");
}

#[test]
fn ensuring_one_new_class_among_known_ones_succeeds() {
    let (mut data, _image_id) = classification_project("multi");
    classification::ensure_classes_with_ids(&mut data, &vec!["Bird".to_owned()], &vec!["bird-id".to_owned()], NOW).expect("bird");
    let names = vec!["bird".to_owned(), "Otters".to_owned(), " otters ".to_owned()];
    let ids = classification::ensure_classes(&mut data, &names, NOW + 1).expect("one new class");
    assert_eq!(ids.len(), 2);
    assert_eq!(ids[0], "bird-id");
    assert_eq!(ids[1].len(), 36);
    assert_eq!(data.classes.len(), 2);
    assert_eq!(data.classes[1].name, "Otters");
}
