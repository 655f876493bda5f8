use yalt::detection::{self, AnnotationKind, AnnotationRow, DraftInput, ImportBatch, ImportFormat};
use yalt::project::{self, DiscoveredImage, ProjectData};
use yalt::workspace::{self, HistoryAction};

const NOW: i64 = 1_700_000_000_000;

fn found(path: &str, width: u32, height: u32) -> DiscoveredImage {
    let file_name = path.rsplit('/').next().unwrap().to_owned();
    DiscoveredImage {
        relative_path: path.to_owned(),
        file_name,
        raw_width: width,
        raw_height: height,
        byte_size: 1000,
        modified_at_ms: 5,
        orientation: 1,
    }
}

fn project_with_image() -> (ProjectData, String) {
    let mut data = project::create("/data/detection", "Detection", "detection", None, NOW).expect("project");
    project::index_images(&mut data, vec![found("frame.jpg", 200, 100)], NOW).expect("index");
    let image_id = project::list_images(&data, 10, 0).expect("images")[0].id.clone();
    (data, image_id)
}

fn bbox(x: f64, y: f64, width: f64, height: f64) -> String {
    format!("{{\"x\":{x},\"y\":{y},\"width\":{width},\"height\":{height}}}")
}

fn row(image_id: &str, class_id: &str, geometry: &str) -> AnnotationRow {
    AnnotationRow {
        id: format!("import-{image_id}-{class_id}"),
        image_id: image_id.to_owned(),
        class_id: class_id.to_owned(),
        kind: AnnotationKind::Bbox,
        geometry_json: geometry.to_owned(),
        is_visible: true,
        created_at_ms: NOW,
        updated_at_ms: NOW,
    }
}

#[test]
fn annotations_round_trip_and_undo() {
    let (mut data, image_id) = project_with_image();
    let class = detection::create_class(&mut data, "person", NOW).expect("class");
    let geometry = bbox(20.0, 10.0, 60.0, 40.0);
    let annotation =
        detection::create_annotation(&mut data, &image_id, &class.id, &geometry, NOW + 1).expect("annotation");
    assert_eq!(detection::list_annotations(&data, &image_id).expect("list")[0].geometry_json, geometry);
    match workspace::undo(&mut data, NOW + 2).expect("undo") {
        HistoryAction::Applied(touched) => assert_eq!(touched, Some(image_id.clone())),
        _ => panic!("undo of an annotation applies in the database"),
    }
    assert!(detection::list_annotations(&data, &image_id).expect("list").is_empty());
    match workspace::redo(&mut data, NOW + 3).expect("redo") {
        HistoryAction::Applied(touched) => assert_eq!(touched, Some(image_id.clone())),
        _ => panic!("redo of an annotation applies in the database"),
    }
    assert_eq!(detection::list_annotations(&data, &image_id).expect("list")[0].id, annotation.id);
}

#[test]
fn draft_and_active_class_survive_reopen() {
    let (mut data, image_id) = project_with_image();
    let class = detection::create_class(&mut data, "animal", NOW).expect("class");
    detection::set_active_class(&mut data, &class.id).expect("active");
    let payload = format!("{{\"image_id\":\"{image_id}\",\"class_id\":\"{}\",\"x\":15.0,\"y\":18.0}}", class.id);
    let draft = DraftInput {
        image_id: image_id.clone(),
        class_id: class.id.clone(),
        payload_json: payload.clone(),
        target_annotation_id: None,
    };
    detection::save_draft(&mut data, Some(draft), &image_id).expect("draft");
    assert_eq!(detection::state(&data).expect("state").active_class_id, Some(class.id));
    assert_eq!(detection::load_draft(&data, &image_id), Some(payload));
}

#[test]
fn malformed_yolo_rows_are_counted_in_the_import_report() {
    let (mut data, image_id) = project_with_image();
    detection::create_class(&mut data, "vehicle", NOW).expect("class");
    // The only row of frame.txt could not be read, so the batch for the image is empty.
    let batches = vec![ImportBatch { image_id: image_id.clone(), rows: Vec::new() }];
    let report = detection::import_annotations(&mut data, AnnotationKind::Bbox, ImportFormat::Yolo, batches, 1, NOW)
        .expect("import report");
    assert_eq!(report.skipped, 1);
    assert!(report.message.contains("skipped 1"));
    assert!(detection::list_annotations(&data, &image_id).expect("annotations").is_empty());
}

#[test]
fn imported_rows_replace_the_image_rows_and_undo_restores_them() {
    let (mut data, image_id) = project_with_image();
    let class = detection::create_class(&mut data, "vehicle", NOW).expect("class");
    let original = bbox(1.0, 2.0, 3.0, 4.0);
    detection::create_annotation(&mut data, &image_id, &class.id, &original, NOW).expect("annotation");
    let imported = bbox(24.0, 12.0, 80.0, 50.0);
    let batches = vec![ImportBatch { image_id: image_id.clone(), rows: vec![row(&image_id, &class.id, &imported)] }];
    let report = detection::import_annotations(&mut data, AnnotationKind::Bbox, ImportFormat::Yolo, batches, 0, NOW + 1)
        .expect("import");
    assert_eq!(report.annotations, 1);
    assert_eq!(report.matched_images, 1);
    assert_eq!(report.skipped, 0);
    let rows = detection::list_annotations(&data, &image_id).expect("list");
    assert_eq!(rows.len(), 1);
    assert_eq!(rows[0].geometry_json, imported);
    workspace::undo(&mut data, NOW + 2).expect("undo");
    let rows = detection::list_annotations(&data, &image_id).expect("list");
    assert_eq!(rows.len(), 1);
    assert_eq!(rows[0].geometry_json, original);
}

#[test]
fn import_refuses_a_row_with_an_unknown_class() {
    let (mut data, image_id) = project_with_image();
    let batches = vec![ImportBatch { image_id: image_id.clone(), rows: vec![row(&image_id, "missing", &bbox(1.0, 1.0, 2.0, 2.0))] }];
    assert!(detection::import_annotations(&mut data, AnnotationKind::Bbox, ImportFormat::Coco, batches, 0, NOW).is_err());
    assert!(detection::list_annotations(&data, &image_id).expect("list").is_empty());
}

#[test]
fn import_message_names_the_format_and_counts() {
    let message = detection::import_message_text(AnnotationKind::Bbox, ImportFormat::Coco, 3, 2, 1);
    assert_eq!(message, "Imported 3 COCO boxes for 2 images; skipped 1.");
}

#[test]
fn class_names_are_trimmed_and_blank_names_refused() {
    assert_eq!(detection::valid_class_name("  person \t").expect("name"), "person");
    assert!(detection::valid_class_name("   ").is_err());
}

#[test]
fn duplicate_class_names_are_refused_ignoring_case() {
    let (mut data, _image_id) = project_with_image();
    detection::create_class(&mut data, "Person", NOW).expect("class");
    assert!(detection::create_class(&mut data, "person", NOW).is_err());
    assert_eq!(detection::state(&data).expect("state").classes.len(), 1);
}

#[test]
fn shortcuts_number_the_first_ten_classes() {
    assert_eq!(detection::shortcut_for(0), Some("1".to_owned()));
    assert_eq!(detection::shortcut_for(8), Some("9".to_owned()));
    assert_eq!(detection::shortcut_for(9), Some("0".to_owned()));
    assert_eq!(detection::shortcut_for(10), None);
    assert_eq!(detection::shortcut_for(-1), None);
}

#[test]
fn colors_cycle_through_the_spectrum() {
    assert_eq!(detection::spectrum_color(0), "#9B6CFF");
    assert_eq!(detection::spectrum_color(11), "#A95AC8");
    assert_eq!(detection::spectrum_color(12), "#9B6CFF");
}

#[test]
fn classes_keep_positions_after_a_delete() {
    let (mut data, _image_id) = project_with_image();
    let first = detection::create_class(&mut data, "a", NOW).expect("a");
    detection::create_class(&mut data, "b", NOW).expect("b");
    detection::create_class(&mut data, "c", NOW).expect("c");
    detection::delete_class(&mut data, &first.id, NOW).expect("delete");
    let classes = detection::state(&data).expect("state").classes;
    assert_eq!(classes.len(), 2);
    assert_eq!(classes[0].name, "b");
    assert_eq!(classes[0].position, 0);
    assert_eq!(classes[1].position, 1);
    assert_eq!(classes[0].shortcut, Some("1".to_owned()));
}

#[test]
fn rename_keeps_the_class_id() {
    let (mut data, _image_id) = project_with_image();
    let class = detection::create_class(&mut data, "car", NOW).expect("class");
    assert_eq!(class.id.len(), 36);
    assert_eq!(class.id.chars().nth(8), Some('-'));
    detection::rename_class(&mut data, &class.id, " truck ", NOW).expect("rename");
    let classes = detection::state(&data).expect("state").classes;
    assert_eq!(classes[0].id, class.id);
    assert_eq!(classes[0].name, "truck");
}

#[test]
fn label_files_list_one_class_per_line() {
    let names = detection::label_names("\u{feff}cat\n\n dog \r\nbird\n").expect("names");
    assert_eq!(names, vec!["cat".to_owned(), "dog".to_owned(), "bird".to_owned()]);
    assert!(detection::label_names("cat\nCAT\n").is_err());
    assert!(detection::label_names("\n  \n").is_err());
}

#[test]
fn import_labels_creates_the_listed_classes_in_order() {
    let (mut data, _image_id) = project_with_image();
    let st = detection::import_labels(&mut data, "cat\ndog\n", NOW).expect("labels");
    assert_eq!(st.classes.len(), 2);
    assert_eq!(st.classes[0].name, "cat");
    assert_eq!(st.classes[1].name, "dog");
    assert_eq!(st.active_class_id, Some(st.classes[0].id.clone()));
}

#[test]
fn delete_annotation_is_undoable() {
    let (mut data, image_id) = project_with_image();
    let class = detection::create_class(&mut data, "person", NOW).expect("class");
    let a = detection::create_annotation(&mut data, &image_id, &class.id, &bbox(1.0, 1.0, 5.0, 5.0), NOW)
        .expect("annotation");
    detection::delete_annotation(&mut data, &a.id, NOW + 1).expect("delete");
    assert!(detection::list_annotations(&data, &image_id).expect("list").is_empty());
    workspace::undo(&mut data, NOW + 2).expect("undo");
    assert_eq!(detection::list_annotations(&data, &image_id).expect("list")[0].id, a.id);
    assert!(detection::delete_annotation(&mut data, "no such annotation", NOW).is_err());
}

#[test]
fn update_annotation_changes_geometry_and_visibility() {
    let (mut data, image_id) = project_with_image();
    let class = detection::create_class(&mut data, "person", NOW).expect("class");
    let a = detection::create_annotation(&mut data, &image_id, &class.id, &bbox(1.0, 1.0, 5.0, 5.0), NOW)
        .expect("annotation");
    let moved = bbox(2.0, 2.0, 5.0, 5.0);
    let updated = detection::update_annotation(&mut data, &a.id, &class.id, &moved, false, NOW + 1).expect("update");
    assert_eq!(updated.geometry_json, moved);
    assert!(!updated.is_visible);
    assert_eq!(updated.created_at_ms, a.created_at_ms);
    workspace::undo(&mut data, NOW + 2).expect("undo");
    let rows = detection::list_annotations(&data, &image_id).expect("list");
    assert!(rows[0].is_visible);
}

#[test]
fn annotations_need_an_active_image_and_a_known_class() {
    let (mut data, image_id) = project_with_image();
    assert!(detection::create_annotation(&mut data, &image_id, "nope", &bbox(1.0, 1.0, 1.0, 1.0), NOW).is_err());
    let class = detection::create_class(&mut data, "person", NOW).expect("class");
    assert!(detection::create_annotation(&mut data, "missing", &class.id, &bbox(1.0, 1.0, 1.0, 1.0), NOW).is_err());
}

#[test]
fn label_files_and_coco_names_find_their_images() {
    let mut data = project::create("/data/match", "Match", "detection", None, NOW).expect("project");
    project::index_images(&mut data, vec![found("nested/frame.jpg", 30, 20), found("other.png", 10, 10)], NOW)
        .expect("index");
    let by_label = detection::match_label_file(&data, "nested/frame.txt").expect("label match");
    assert_eq!(by_label.width, 30);
    assert_eq!(by_label.height, 20);
    let by_stem = detection::match_label_file(&data, "frame.txt").expect("stem match");
    assert_eq!(by_stem.image_id, by_label.image_id);
    let by_name = detection::match_coco_image(&data, "other.png").expect("coco match");
    assert_eq!(by_name.width, 10);
    assert!(detection::match_coco_image(&data, "absent.png").is_none());
}

#[test]
fn coco_categories_reuse_or_create_classes() {
    let (mut data, _image_id) = project_with_image();
    let existing = detection::create_class(&mut data, "person", NOW).expect("class");
    assert_eq!(detection::category_class(&mut data, "Person", NOW).expect("reuse"), existing.id);
    let created = detection::category_class(&mut data, "dog", NOW).expect("create");
    assert_ne!(created, existing.id);
    assert_eq!(detection::state(&data).expect("state").classes.len(), 2);
}

#[test]
fn detection_calls_refuse_a_classification_project() {
    let mut data = project::create("/data/c", "Classes", "classification", Some("single"), NOW).expect("project");
    assert!(detection::list_annotations(&data, "any").is_err());
    assert!(detection::save_draft(&mut data, None, "any").is_err());
}

#[test]
fn export_groups_list_every_active_image_with_its_boxes() {
    let mut data = project::create("/data/export", "Export", "detection", None, NOW).expect("project");
    project::index_images(&mut data, vec![found("frame.jpg", 200, 100), found("without-box.jpg", 200, 100)], NOW)
        .expect("index");
    let frame = project::list_images(&data, 10, 0).expect("images")[0].id.clone();
    let vehicle = detection::create_class(&mut data, "vehicle", NOW).expect("class");
    let person = detection::create_class(&mut data, "person", NOW).expect("class");
    detection::create_annotation(&mut data, &frame, &person.id, &bbox(10.0, 10.0, 20.0, 20.0), NOW).expect("box");
    detection::create_annotation(&mut data, &frame, &vehicle.id, &bbox(1.0, 1.0, 2.0, 2.0), NOW + 1).expect("box");
    let plan = detection::export_groups(&data, AnnotationKind::Bbox).expect("plan");
    assert_eq!(plan.groups.len(), 2);
    assert_eq!(plan.groups[0].image.file_name, "frame.jpg");
    assert_eq!(plan.groups[0].rows.len(), 2);
    assert_eq!(plan.groups[0].rows[0].class_index, Some(1));
    assert_eq!(plan.groups[0].rows[1].class_index, Some(0));
    assert!(plan.groups[1].rows.is_empty());
    assert_eq!(plan.annotations, 2);
    assert_eq!(plan.annotated_images, 1);

    let yolo = detection::export_report(&data, AnnotationKind::Bbox, ImportFormat::Yolo, &plan, 0, 0);
    assert_eq!(yolo.matched_images, 1);
    assert_eq!(yolo.message, "Exported 2 boxes for 1 annotated images.");
    let coco = detection::export_report(&data, AnnotationKind::Bbox, ImportFormat::Coco, &plan, 0, 0);
    assert_eq!(coco.matched_images, 2);
    assert_eq!(coco.classes, 2);
    assert_eq!(coco.message, "Exported 2 COCO boxes.");
    assert_eq!(detection::labels_file_text(&data, AnnotationKind::Bbox).expect("labels"), "vehicle\nperson\n");
}

#[test]
fn polygon_export_reports_rows_and_split_objects() {
    let data = project::create("/data/p", "Polygons", "segmentation", None, NOW).expect("project");
    let plan = detection::export_groups(&data, AnnotationKind::Polygon).expect("plan");
    assert!(detection::export_groups(&data, AnnotationKind::Bbox).is_err());
    let report = detection::export_report(&data, AnnotationKind::Polygon, ImportFormat::Yolo, &plan, 3, 1);
    assert_eq!(
        report.message,
        "Exported 0 objects as 3 YOLO polygon rows for 0 annotated images. 1 multi-island objects became separate YOLO rows because TXT does not store shared instance IDs."
    );
    assert!(detection::labels_file_text(&data, AnnotationKind::Polygon).is_err());
    assert!(detection::require_import_classes(&data, AnnotationKind::Polygon).is_err());
}

#[test]
fn yolo_rows_name_classes_by_position() {
    let (mut data, _image_id) = project_with_image();
    let class = detection::create_class(&mut data, "vehicle", NOW).expect("class");
    assert!(detection::require_import_classes(&data, AnnotationKind::Bbox).is_ok());
    assert_eq!(detection::yolo_class_id(&data, 0).expect("class"), class.id);
    assert!(detection::yolo_class_id(&data, 1).is_err());
    assert!(detection::is_yolo_label_file("frame.TXT"));
    assert!(!detection::is_yolo_label_file("Labels.txt"));
    assert!(!detection::is_yolo_label_file("classes.txt"));
    assert!(!detection::is_yolo_label_file("frame.json"));
}

#[test]
fn import_leaves_the_annotations_of_other_images() {
    let mut data = project::create("/data/two", "Two", "detection", None, NOW).expect("project");
    project::index_images(&mut data, vec![found("a.jpg", 100, 100), found("b.jpg", 100, 100)], NOW).expect("index");
    let images = project::list_images(&data, 10, 0).expect("images");
    let (a, b) = (images[0].id.clone(), images[1].id.clone());
    let class = detection::create_class(&mut data, "car", NOW).expect("class");
    let kept = detection::create_annotation(&mut data, &b, &class.id, &bbox(1.0, 1.0, 9.0, 9.0), NOW).expect("box");
    let batches = vec![ImportBatch { image_id: a.clone(), rows: vec![row(&a, &class.id, &bbox(5.0, 5.0, 10.0, 10.0))] }];
    detection::import_annotations(&mut data, AnnotationKind::Bbox, ImportFormat::Yolo, batches, 0, NOW + 1).expect("import");
    let rows_b = detection::list_annotations(&data, &b).expect("list");
    assert_eq!(rows_b.len(), 1);
    assert_eq!(rows_b[0].id, kept.id);
    assert_eq!(rows_b[0].geometry_json, kept.geometry_json);
    assert_eq!(detection::list_annotations(&data, &a).expect("list").len(), 1);
}

#[test]
fn yolo_export_omits_empty_image_label_files() {
    let mut data = project::create("/data/export", "Detection", "detection", None, NOW).expect("project");
    project::index_images(&mut data, vec![found("frame.jpg", 200, 100), found("without-box.jpg", 200, 100)], NOW)
        .expect("images");
    let image_id = project::list_images(&data, 10, 0)
        .expect("images")
        .into_iter()
        .find(|image| image.file_name == "frame.jpg")
        .expect("frame")
        .id;
    let class = detection::create_class(&mut data, "vehicle", NOW).expect("class");
    detection::create_annotation(&mut data, &image_id, &class.id, &bbox(10.0, 10.0, 20.0, 20.0), NOW).expect("box");
    let plan = detection::export_groups(&data, AnnotationKind::Bbox).expect("export");
    let written: Vec<&str> = plan
        .groups
        .iter()
        .filter(|group| !group.rows.is_empty())
        .map(|group| group.image.file_name.as_str())
        .collect();
    assert_eq!(written, vec!["frame.jpg"]);
    let report = detection::export_report(&data, AnnotationKind::Bbox, ImportFormat::Yolo, &plan, 0, 0);
    assert_eq!(report.matched_images, 1);
}

#[test]
fn loading_labels_gives_new_classes_the_given_ids() {
    let (mut data, _image_id) = project_with_image();
    let cat = detection::create_class(&mut data, "cat", NOW).expect("class");
    assert_eq!(cat.id.len(), 36);
    let names = vec!["kitten".to_owned(), "dog".to_owned()];
    let st = detection::load_labels(&mut data, &names, &vec!["dog-id".to_owned()], NOW + 1).expect("labels");
    assert_eq!(st.classes.len(), 2);
    assert_eq!((st.classes[0].id.as_str(), st.classes[0].name.as_str()), (cat.id.as_str(), "kitten"));
    assert_eq!((st.classes[1].id.as_str(), st.classes[1].name.as_str(), st.classes[1].position), ("dog-id", "dog", 1));
    assert_eq!(st.active_class_id, Some(cat.id.clone()));

    // The new class would take an id already in use.
    let more = vec!["kitten".to_owned(), "dog".to_owned(), "bird".to_owned()];
    let refused = detection::load_labels(&mut data, &more, &vec![cat.id.clone()], NOW + 2);
    assert_eq!(refused.err(), Some("Could not add a class: its new id is already in use.".to_owned()));
    assert_eq!(data.classes.len(), 2);
    // Two names equal without ASCII case.
    let twice = vec!["Owl".to_owned(), "owl".to_owned(), "bird".to_owned()];
    assert!(detection::load_labels(&mut data, &twice, &vec!["bird-id".to_owned()], NOW + 2).is_err());
    assert_eq!(data.classes[0].name, "kitten");
}

#[test]
fn importing_labels_for_existing_positions_only_renames() {
    let (mut data, _image_id) = project_with_image();
    let st = detection::import_labels(&mut data, "cat\ndog\n", NOW).expect("labels");
    assert!(st.classes.iter().all(|c| c.id.len() == 36));
    let renamed = detection::import_labels(&mut data, "lion\n", NOW + 1).expect("rename");
    assert_eq!(renamed.classes.len(), 2);
    assert_eq!(renamed.classes[0].id, st.classes[0].id);
    assert_eq!(renamed.classes[0].name, "lion");
    assert_eq!(renamed.classes[1].name, "dog");
}

#[test]
fn refusals_name_what_is_missing_or_in_use() {
    let (mut data, image_id) = project_with_image();
    assert_eq!(detection::delete_class(&mut data, "gone", NOW).err(), Some("The class no longer exists.".to_owned()));
    assert_eq!(detection::set_active_class(&mut data, "gone").err(), Some("The class no longer exists.".to_owned()));
    assert_eq!(detection::delete_annotation(&mut data, "gone", NOW).err(), Some("The box no longer exists.".to_owned()));
    let class = detection::create_class(&mut data, "person", NOW).expect("class");
    detection::create_annotation(&mut data, &image_id, &class.id, &bbox(1.0, 1.0, 5.0, 5.0), NOW).expect("box");
    assert_eq!(
        detection::delete_class(&mut data, &class.id, NOW).err(),
        Some("This class is used by annotations. Relabel or delete them first.".to_owned())
    );
}

#[test]
fn coco_ids_map_to_their_last_entry_and_rows_join_their_image_batch() {
    let mut index = detection::CocoIndex::new();
    index.add_category(1, "cat-class".to_owned());
    index.add_category(2, "dog-class".to_owned());
    index.add_category(1, "lion-class".to_owned());
    index.add_image(7, detection::MatchedImage { image_id: "img-a".to_owned(), width: 10, height: 20 });
    assert_eq!(index.category(1), Some("lion-class".to_owned()));
    assert_eq!(index.category(2), Some("dog-class".to_owned()));
    assert_eq!(index.category(3), None);
    let image = index.image(7).expect("image");
    assert_eq!((image.image_id.as_str(), image.width, image.height), ("img-a", 10, 20));
    assert!(index.image(8).is_none());

    let mut batches: Vec<ImportBatch> = Vec::new();
    detection::add_to_batches(&mut batches, row("img-a", "c", "{}"));
    detection::add_to_batches(&mut batches, row("img-b", "c", "{}"));
    detection::add_to_batches(&mut batches, row("img-a", "d", "{}"));
    assert_eq!(batches.len(), 2);
    assert_eq!(batches[0].image_id, "img-a");
    assert_eq!(batches[0].rows.len(), 2);
    assert_eq!(batches[0].rows[1].class_id, "d");
    assert_eq!(batches[1].image_id, "img-b");
    assert_eq!(batches[1].rows.len(), 1);
}

#[test]
fn yolo_exports_write_label_files_only_for_annotated_images() {
    let mut data = project::create("/data/detection", "Detection", "detection", None, NOW).expect("project");
    project::index_images(&mut data, vec![found("a/frame.jpg", 200, 100), found("b/empty.png", 200, 100)], NOW).expect("index");
    let image_id = project::list_images(&data, 10, 0).expect("images")[0].id.clone();
    let class = detection::create_class(&mut data, "person", NOW).expect("class");
    detection::create_annotation(&mut data, &image_id, &class.id, &bbox(1.0, 1.0, 5.0, 5.0), NOW).expect("box");
    let plan = detection::export_groups(&data, AnnotationKind::Bbox).expect("plan");
    assert_eq!(plan.groups.len(), 2);
    let files = detection::yolo_files(&plan);
    assert_eq!(files, vec![(0, "a/frame.txt".to_owned())]);
}

#[test]
fn coco_categories_find_or_create_their_class() {
    let (mut data, _image_id) = project_with_image();
    let cat = detection::category_class(&mut data, "Cat", NOW).expect("new class");
    assert_eq!(cat.len(), 36);
    assert_eq!(detection::category_class(&mut data, "cat", NOW).expect("found"), cat);
    assert!(detection::category_class(&mut data, "  ", NOW).is_err());
    assert_eq!(data.classes.len(), 1);
}
