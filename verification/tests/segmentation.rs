use yalt::detection::{self, AnnotationKind, AnnotationRow, DraftInput, ImportBatch, ImportFormat};
use yalt::project::{self, DiscoveredImage, ProjectData};
use yalt::segmentation;
use yalt::workspace::{self, HistoryAction};

const NOW: i64 = 1_700_000_000_000;

fn project_with_image() -> (ProjectData, String) {
    let mut data = project::create("/data/polygons", "Polygons", "segmentation", None, NOW).expect("project");
    let image = DiscoveredImage {
        relative_path: "frame.jpg".to_owned(),
        file_name: "frame.jpg".to_owned(),
        raw_width: 200,
        raw_height: 100,
        byte_size: 1000,
        modified_at_ms: 5,
        orientation: 1,
    };
    project::index_images(&mut data, vec![image], NOW).expect("index");
    let image_id = project::list_images(&data, 10, 0).expect("images")[0].id.clone();
    (data, image_id)
}

fn polygons(contours: &[&[(f64, f64)]]) -> String {
    let parts: Vec<String> = contours
        .iter()
        .map(|c| {
            let points: Vec<String> = c.iter().map(|(x, y)| format!("{{\"x\":{x},\"y\":{y}}}")).collect();
            format!("[{}]", points.join(","))
        })
        .collect();
    format!("{{\"polygons\":[{}]}}", parts.join(","))
}

fn touched_image(action: HistoryAction) -> Option<String> {
    match action {
        HistoryAction::Applied(touched) => touched,
        _ => panic!("a polygon edit is replayed in the database"),
    }
}

#[test]
fn annotations_drafts_and_history_round_trip() {
    let (mut data, image_id) = project_with_image();
    let class = detection::create_class(&mut data, "person", NOW).expect("class");
    let draft_payload = format!(
        "{{\"image_id\":\"{image_id}\",\"class_id\":\"{}\",\"points\":[{{\"x\":10,\"y\":10}},{{\"x\":60,\"y\":10}}],\"annotation_id\":null}}",
        class.id
    );
    let draft = DraftInput {
        image_id: image_id.clone(),
        class_id: class.id.clone(),
        payload_json: draft_payload.clone(),
        target_annotation_id: None,
    };
    segmentation::save_draft(&mut data, Some(draft), &image_id).expect("save draft");
    assert_eq!(segmentation::load_draft(&data, &image_id).expect("load draft"), Some(draft_payload));

    let geometry = polygons(&[&[(10.0, 10.0), (60.0, 10.0), (30.0, 50.0)]]);
    let created = segmentation::create_annotation(&mut data, &image_id, &class.id, &geometry, NOW + 1).expect("create");
    assert!(segmentation::load_draft(&data, &image_id).expect("cleared").is_none());
    assert_eq!(segmentation::list_annotations(&data, &image_id).expect("list")[0].geometry_json, geometry);
    assert_eq!(touched_image(workspace::undo(&mut data, NOW + 2).expect("undo")), Some(image_id.clone()));
    assert!(segmentation::list_annotations(&data, &image_id).expect("empty").is_empty());
    assert_eq!(touched_image(workspace::redo(&mut data, NOW + 3).expect("redo")), Some(image_id.clone()));
    assert_eq!(segmentation::list_annotations(&data, &image_id).expect("restored")[0].id, created.id);

    let island_payload = format!(
        "{{\"image_id\":\"{image_id}\",\"class_id\":\"{}\",\"points\":[{{\"x\":80,\"y\":20}},{{\"x\":100,\"y\":20}},{{\"x\":90,\"y\":40}}],\"annotation_id\":\"{}\"}}",
        class.id, created.id
    );
    let island_draft = DraftInput {
        image_id: image_id.clone(),
        class_id: class.id.clone(),
        payload_json: island_payload,
        target_annotation_id: Some(created.id.clone()),
    };
    segmentation::save_draft(&mut data, Some(island_draft), &image_id).expect("island draft");
    let joined = polygons(&[&[(10.0, 10.0), (60.0, 10.0), (30.0, 50.0)], &[(80.0, 20.0), (100.0, 20.0), (90.0, 40.0)]]);
    let updated = segmentation::append_island(&mut data, &created.id, &joined, NOW + 4).expect("append island");
    assert_eq!(updated.geometry_json, joined);
    assert_eq!(updated.class_id, class.id);
    assert!(segmentation::load_draft(&data, &image_id).expect("draft cleared").is_none());
    assert_eq!(touched_image(workspace::undo(&mut data, NOW + 5).expect("undo island")), Some(image_id.clone()));
    assert_eq!(segmentation::list_annotations(&data, &image_id).expect("one contour")[0].geometry_json, geometry);
}

#[test]
fn append_island_needs_an_existing_polygon() {
    let (mut data, _image_id) = project_with_image();
    assert!(segmentation::append_island(&mut data, "missing", "{\"polygons\":[]}", NOW).is_err());
}

#[test]
fn polygon_calls_refuse_a_box_project() {
    let mut data = project::create("/data/boxes", "Boxes", "detection", None, NOW).expect("project");
    assert!(segmentation::list_annotations(&data, "any").is_err());
    assert!(segmentation::load_draft(&data, "any").is_err());
    assert!(segmentation::delete_annotation(&mut data, "any", NOW).is_err());
}

#[test]
fn deleting_a_polygon_is_undoable() {
    let (mut data, image_id) = project_with_image();
    let class = detection::create_class(&mut data, "person", NOW).expect("class");
    let geometry = polygons(&[&[(0.0, 0.0), (10.0, 0.0), (10.0, 10.0)]]);
    let created = segmentation::create_annotation(&mut data, &image_id, &class.id, &geometry, NOW).expect("create");
    segmentation::delete_annotation(&mut data, &created.id, NOW + 1).expect("delete");
    assert!(segmentation::list_annotations(&data, &image_id).expect("list").is_empty());
    workspace::undo(&mut data, NOW + 2).expect("undo");
    assert_eq!(segmentation::list_annotations(&data, &image_id).expect("list")[0].id, created.id);
}

#[test]
fn malformed_coco_polygons_are_counted_in_the_import_report() {
    let (mut data, image_id) = project_with_image();
    let image = detection::match_coco_image(&data, "frame.jpg").expect("image");
    assert_eq!(image.image_id, image_id);
    detection::category_class(&mut data, "person", NOW).expect("category");
    // The only annotation has a segmentation of three numbers, which is no polygon.
    let report = detection::import_annotations(&mut data, AnnotationKind::Polygon, ImportFormat::Coco, Vec::new(), 1, NOW)
        .expect("import report");
    assert_eq!(report.skipped, 1);
    assert!(report.message.contains("skipped 1"));
    assert!(segmentation::list_annotations(&data, &image_id).expect("annotations").is_empty());
}

#[test]
fn yolo_export_and_import_normalize_each_island_as_a_row() {
    let (mut data, image_id) = project_with_image();
    let class = detection::create_class(&mut data, "person", NOW).expect("class");
    let two_islands = polygons(&[&[(20.0, 10.0), (100.0, 10.0), (60.0, 40.0)], &[(120.0, 10.0), (180.0, 10.0), (150.0, 40.0)]]);
    segmentation::create_annotation(&mut data, &image_id, &class.id, &two_islands, NOW).expect("polygon");
    let plan = detection::export_groups(&data, AnnotationKind::Polygon).expect("plan");
    assert_eq!(plan.groups[0].rows[0].class_index, Some(0));
    let report = detection::export_report(&data, AnnotationKind::Polygon, ImportFormat::Yolo, &plan, 2, 1);
    assert_eq!(report.annotations, 1);
    assert!(report.message.contains("separate YOLO rows"));

    let existing = segmentation::list_annotations(&data, &image_id).expect("existing polygons");
    segmentation::delete_annotation(&mut data, &existing[0].id, NOW + 1).expect("delete existing polygon");
    let matched = detection::match_label_file(&data, "frame.txt").expect("label file");
    let rows = vec![
        island_row(&matched.image_id, &class.id, "a", &polygons(&[&[(20.0, 10.0), (100.0, 10.0), (60.0, 40.0)]])),
        island_row(&matched.image_id, &class.id, "b", &polygons(&[&[(120.0, 10.0), (180.0, 10.0), (150.0, 40.0)]])),
    ];
    let batches = vec![ImportBatch { image_id: matched.image_id.clone(), rows }];
    let imported = detection::import_annotations(&mut data, AnnotationKind::Polygon, ImportFormat::Yolo, batches, 0, NOW + 2)
        .expect("YOLO import");
    assert_eq!(imported.annotations, 2);
    assert_eq!(imported.skipped, 0);
    assert_eq!(segmentation::list_annotations(&data, &image_id).expect("polygons").len(), 2);
}

fn island_row(image_id: &str, class_id: &str, suffix: &str, geometry: &str) -> AnnotationRow {
    AnnotationRow {
        id: format!("island-{suffix}"),
        image_id: image_id.to_owned(),
        class_id: class_id.to_owned(),
        kind: AnnotationKind::Polygon,
        geometry_json: geometry.to_owned(),
        is_visible: true,
        created_at_ms: NOW,
        updated_at_ms: NOW,
    }
}
