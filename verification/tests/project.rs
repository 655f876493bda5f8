use yalt::imaging;
use yalt::migrations::{self, CURRENT_SCHEMA_VERSION};
use yalt::project::{self, DiscoveredImage, DisplayEncoding, ImageStatus, ProjectDirectory, Transform};

const NOW: i64 = 1_700_000_000_000;

fn found(path: &str, width: u32, height: u32) -> DiscoveredImage {
    let file_name = path.rsplit('/').next().unwrap().to_owned();
    DiscoveredImage {
        relative_path: path.to_owned(),
        file_name,
        raw_width: width,
        raw_height: height,
        byte_size: 100,
        modified_at_ms: 7,
        orientation: 1,
    }
}

#[test]
fn creates_indexes_and_reopens_a_project() {
    let mut data = project::create("/data/wildlife", "Wildlife", "detection", None, NOW).expect("project creation");
    project::index_images(&mut data, vec![found("one.jpg", 80, 60), found("nested/two.png", 20, 10)], NOW)
        .expect("index");
    let created = project::summary(&data).expect("summary");
    assert_eq!(created.name, "Wildlife");
    assert_eq!(created.image_count, 2);
    assert_eq!(project::project_database_path(true, false), ".yalt/project.sqlite");

    // one.jpg was removed from the dataset before reopening.
    let (reopened, _stale) = project::rescan(&mut data, vec![found("nested/two.png", 20, 10)], NOW + 1)
        .expect("project reopen");
    assert_eq!(reopened.image_count, 1);
    assert_eq!(reopened.missing_image_count, 1);
    assert_eq!(migrations::migration_plan(CURRENT_SCHEMA_VERSION).expect("plan").steps, Vec::<i64>::new());
}

#[test]
fn opens_projects_created_under_the_legacy_directory_name() {
    assert_eq!(project::project_directory_for_root(false, true), ProjectDirectory::Legacy);
    assert_eq!(project::project_database_path(false, true), ".labeler/project.sqlite");
    assert_eq!(project::project_directory_for_root(true, true), ProjectDirectory::Current);
    let mut data = project::create("/data/legacy", "Legacy", "detection", None, NOW).expect("project creation");
    let (reopened, _) = project::rescan(&mut data, vec![found("one.jpg", 80, 60)], NOW).expect("legacy project reopen");
    assert_eq!(reopened.name, "Legacy");
    assert_eq!(reopened.image_count, 1);
}

#[test]
fn skips_deleted_and_hidden_directories() {
    assert!(!project::should_visit(true, "deleted", 1));
    assert!(!project::should_visit(true, ".hidden", 1));
    assert!(!project::should_visit(true, ".yalt", 1));
    assert!(project::should_visit(true, "nested", 1));
    assert!(project::should_visit(false, "visible.png", 1));
    assert!(project::is_supported_image("visible.png"));

    let mut data = project::create("/data/c", "Classification", "classification", Some("single"), NOW)
        .expect("project creation");
    project::index_images(&mut data, vec![found("visible.png", 10, 10)], NOW).expect("index");
    assert_eq!(project::summary(&data).expect("summary").image_count, 1);
}

fn png_bytes(width: u32, height: u32) -> Vec<u8> {
    let image = image::DynamicImage::new_rgb8(width, height);
    let mut bytes = Vec::new();
    image.write_to(&mut std::io::Cursor::new(&mut bytes), image::ImageFormat::Png).expect("png");
    bytes
}

#[test]
fn applies_exif_rotation_to_display_dimensions() {
    let shown = imaging::display_image("turned.png", png_bytes(120, 80), 6).expect("display");
    let decoded = image::load_from_memory(&shown).expect("decoded");
    assert_eq!((decoded.width(), decoded.height()), (80, 120));
    assert_eq!(project::orientation_transforms(6), vec![Transform::Rotate90]);
    let mut data = project::create("/data/r", "Rotated", "detection", None, NOW).expect("project");
    let mut image = found("turned.jpg", 120, 80);
    image.orientation = 6;
    project::index_images(&mut data, vec![image], NOW).expect("index");
    let listed = project::list_images(&data, 10, 0).expect("images");
    assert_eq!((listed[0].width, listed[0].height), (80, 120));
    assert_eq!(listed[0].orientation, 6);
}

#[test]
fn indexes_and_decodes_webp_and_tiff_images() {
    assert!(project::is_supported_image("frame.webp"));
    assert!(project::is_supported_image("scan.tiff"));
    let mut data = project::create("/data/f", "More formats", "detection", None, NOW).expect("project");
    project::index_images(&mut data, vec![found("frame.webp", 31, 17), found("scan.tiff", 19, 23)], NOW)
        .expect("index");
    assert_eq!(project::summary(&data).expect("summary").image_count, 2);
    assert_eq!(project::display_encoding("frame.webp", 1), DisplayEncoding::Original);
    assert_eq!(project::display_encoding("scan.tiff", 1), DisplayEncoding::Png);
}

#[test]
fn upgrades_a_phase_one_database_and_keeps_a_backup() {
    let plan = migrations::migration_plan(1).expect("phase two migration");
    assert!(plan.backup);
    assert_eq!(plan.steps, vec![2, 3, 4]);
    assert_eq!(CURRENT_SCHEMA_VERSION, 4);
}

#[test]
fn a_new_database_takes_every_migration_without_a_backup() {
    let plan = migrations::migration_plan(0).expect("plan");
    assert!(!plan.backup);
    assert_eq!(plan.steps, vec![1, 2, 3, 4]);
    assert_eq!(
        migrations::migration_plan(5).err(),
        Some("This project uses schema version 5, but this app supports up to 4.".to_owned())
    );
}

#[test]
fn project_options_are_checked() {
    assert!(project::validate_project_options("Name", "detection", None).is_ok());
    assert!(project::validate_project_options("  ", "detection", None).is_err());
    assert!(project::validate_project_options("Name", "tracking", None).is_err());
    assert!(project::validate_project_options("Name", "classification", Some("several")).is_err());
    assert!(project::validate_project_options("Name", "classification", None).is_ok());
    let data = project::create("/r", "  Trimmed  ", "segmentation", Some("multi"), NOW).expect("create");
    assert_eq!(data.project.name, "Trimmed");
    assert_eq!(data.project.classification_mode, None);
}

#[test]
fn images_list_in_path_order_with_paging() {
    let mut data = project::create("/data/p", "Paging", "detection", None, NOW).expect("project");
    project::index_images(&mut data, vec![found("c.jpg", 1, 1), found("a.jpg", 1, 1), found("b/z.jpg", 1, 1)], NOW)
        .expect("index");
    let page = project::list_images(&data, 2, 1).expect("page");
    let paths: Vec<&str> = page.iter().map(|i| i.relative_path.as_str()).collect();
    assert_eq!(paths, vec!["b/z.jpg", "c.jpg"]);
    assert_eq!(page[0].status, "active");
    assert_eq!(project::first_active_image_id(&data), Some(project::list_images(&data, 1, 0).expect("first")[0].id.clone()));
}

#[test]
fn reindexing_keeps_ids_and_reports_stale_thumbnails() {
    let mut data = project::create("/data/s", "Stale", "detection", None, NOW).expect("project");
    project::index_images(&mut data, vec![found("a.jpg", 10, 10)], NOW).expect("index");
    let id = project::list_images(&data, 1, 0).expect("list")[0].id.clone();
    let mut changed = found("a.jpg", 10, 10);
    changed.byte_size = 999;
    let stale = project::index_images(&mut data, vec![changed], NOW + 1).expect("reindex");
    assert_eq!(stale, vec![id.clone()]);
    assert_eq!(project::list_images(&data, 1, 0).expect("list")[0].id, id);
    assert_eq!(data.images[0].status, ImageStatus::Active);
}

#[test]
fn thumbnails_are_jpeg_data_urls() {
    assert_eq!(project::thumbnail_data_url(&vec![0, 1, 2]), "data:image/jpeg;base64,AAEC");
    assert_eq!(project::thumbnail_data_url(&vec![]), "data:image/jpeg;base64,");
}

#[test]
fn exif_orientation_applies_to_jpeg_files_only() {
    assert_eq!(project::exif_orientation(true, Some(6)), 6);
    assert_eq!(project::exif_orientation(true, Some(9)), 1);
    assert_eq!(project::exif_orientation(true, None), 1);
    assert_eq!(project::exif_orientation(false, Some(6)), 1);
    assert!(project::is_jpeg("photo.JPEG"));
    assert!(!project::is_jpeg("photo.png"));
}

#[test]
fn database_checks_report_failures() {
    assert!(project::require_project_database(true).is_ok());
    assert!(project::require_project_database(false).is_err());
    assert!(project::verify_integrity("ok").is_ok());
    assert!(project::verify_integrity("*** in database main ***").is_err());
}

#[test]
fn relative_paths_are_normalized() {
    assert_eq!(project::normalize_relative_path("./a//b/./c.jpg"), "a/b/c.jpg");
}

#[test]
fn rescanning_keeps_ids_and_marks_missing_files() {
    let mut data = project::create("/data/m", "Missing", "detection", None, NOW).expect("project");
    project::index_images(&mut data, vec![found("a.jpg", 4, 4), found("b.jpg", 4, 4)], NOW).expect("index");
    let id_a = data.images.iter().find(|r| r.relative_path == "a.jpg").expect("a").id.clone();
    project::rescan(&mut data, vec![found("b.jpg", 4, 4)], NOW + 1).expect("rescan");
    let row = data.images.iter().find(|r| r.relative_path == "a.jpg").expect("a kept");
    assert_eq!(row.id, id_a);
    assert_eq!(row.status, ImageStatus::Missing);
    project::rescan(&mut data, vec![found("a.jpg", 4, 4), found("b.jpg", 4, 4)], NOW + 2).expect("rescan");
    let row = data.images.iter().find(|r| r.relative_path == "a.jpg").expect("a found");
    assert_eq!(row.id, id_a);
    assert_eq!(row.status, ImageStatus::Active);
}

/// A JPEG that holds only an EXIF block whose orientation is `value`.
fn jpeg_with_orientation(value: u8) -> Vec<u8> {
    let mut bytes = vec![0xFF, 0xD8, 0xFF, 0xE1, 0x00, 0x22];
    bytes.extend_from_slice(b"Exif\0\0");
    bytes.extend_from_slice(&[0x49, 0x49, 0x2A, 0x00, 0x08, 0x00, 0x00, 0x00]);
    bytes.extend_from_slice(&[0x01, 0x00, 0x12, 0x01, 0x03, 0x00, 0x01, 0x00, 0x00, 0x00, value, 0x00, 0x00, 0x00]);
    bytes.extend_from_slice(&[0x00, 0x00, 0x00, 0x00, 0xFF, 0xD9]);
    bytes
}

#[test]
fn the_exif_orientation_of_jpeg_files_is_read() {
    assert_eq!(imaging::file_orientation("photo.jpg", &jpeg_with_orientation(6)), 6);
    assert_eq!(imaging::file_orientation("photo.JPEG", &jpeg_with_orientation(8)), 8);
    assert_eq!(imaging::file_orientation("photo.jpg", &jpeg_with_orientation(9)), 1);
    assert_eq!(imaging::file_orientation("photo.png", &jpeg_with_orientation(6)), 1);
    assert_eq!(imaging::file_orientation("photo.jpg", &Vec::new()), 1);
}

#[test]
fn upright_files_are_shown_as_they_are_and_others_decoded() {
    let bytes = vec![1, 2, 3];
    assert_eq!(imaging::display_image("frame.webp", bytes.clone(), 1).expect("as is"), bytes);
    let error = imaging::display_image("scan.tiff", bytes, 1).err().expect("not a tiff");
    assert!(error.starts_with("Could not decode scan.tiff"));
    let tiff = imaging::display_image("scan.png", png_bytes(19, 23), 3).expect("turned");
    assert_eq!(image::load_from_memory(&tiff).expect("jpeg").width(), 19);
}

#[test]
fn thumbnails_are_jpeg_images() {
    let thumbnail = imaging::thumbnail_jpeg("large.png", &png_bytes(960, 640), 1).expect("thumbnail");
    assert_eq!(&thumbnail[..2], &[0xFF, 0xD8]);
    let decoded = image::load_from_memory(&thumbnail).expect("decoded");
    assert_eq!((decoded.width(), decoded.height()), (480, 320));
}

#[test]
fn indexing_with_given_ids_hands_them_out_in_path_order() {
    let mut data = project::create("/data/ids", "Ids", "detection", None, NOW).expect("project");
    let ids = vec!["first-id".to_owned(), "second-id".to_owned()];
    let stale = project::index_images_with_ids(&mut data, vec![found("b.jpg", 4, 4), found("a.jpg", 4, 4)], ids, NOW)
        .expect("index");
    assert!(stale.is_empty());
    assert_eq!(data.images.len(), 2);
    assert_eq!((data.images[0].relative_path.as_str(), data.images[0].id.as_str()), ("a.jpg", "first-id"));
    assert_eq!((data.images[1].relative_path.as_str(), data.images[1].id.as_str()), ("b.jpg", "second-id"));

    // a.jpg is found again and draws no id; c.jpg would take an id already in use.
    let refused = project::index_images_with_ids(
        &mut data,
        vec![found("a.jpg", 4, 4), found("c.jpg", 4, 4)],
        vec!["unused".to_owned(), "second-id".to_owned()],
        NOW + 1,
    );
    assert_eq!(refused, Err("Could not index an image: its new id is already in use.".to_owned()));
    assert_eq!(data.images.len(), 2);
    assert_eq!(data.images[0].updated_at_ms, NOW);

    // Two new files given the same id.
    let twice = project::index_images_with_ids(
        &mut data,
        vec![found("d.jpg", 4, 4), found("e.jpg", 4, 4)],
        vec!["same".to_owned(), "same".to_owned()],
        NOW + 1,
    );
    assert!(twice.is_err());
    assert_eq!(data.images.len(), 2);
}

#[test]
fn rescanning_with_given_ids_adds_and_counts_images() {
    let mut data = project::create("/data/ids", "Ids", "detection", None, NOW).expect("project");
    project::index_images_with_ids(&mut data, vec![found("a.jpg", 4, 4)], vec!["a-id".to_owned()], NOW).expect("index");
    let (summary, _) = project::rescan_with_ids(
        &mut data,
        vec![found("z.jpg", 4, 4), found("b.jpg", 4, 4)],
        vec!["z-id".to_owned(), "b-id".to_owned()],
        NOW + 1,
    )
    .expect("rescan");
    assert_eq!((summary.image_count, summary.missing_image_count, summary.deleted_image_count), (2, 1, 0));
    assert_eq!(summary.updated_at_ms, NOW + 1);
    assert_eq!(data.images[0].id, "a-id");
    assert_eq!((data.images[1].relative_path.as_str(), data.images[1].id.as_str()), ("b.jpg", "z-id"));
    assert_eq!((data.images[2].relative_path.as_str(), data.images[2].id.as_str()), ("z.jpg", "b-id"));
    let refused = project::rescan_with_ids(&mut data, vec![found("new.jpg", 4, 4)], vec!["a-id".to_owned()], NOW + 2);
    assert!(refused.is_err());
    assert_eq!(data.images.len(), 3);
}

#[test]
fn rescanning_known_files_draws_no_new_image() {
    let mut data = project::create("/data/ids", "Ids", "detection", None, NOW).expect("project");
    project::index_images(&mut data, vec![found("a.jpg", 4, 4), found("b.jpg", 4, 4)], NOW).expect("index");
    let ids: Vec<String> = data.images.iter().map(|r| r.id.clone()).collect();
    assert!(ids.iter().all(|id| id.len() == 36));
    let (summary, _) = project::rescan(&mut data, vec![found("b.jpg", 4, 4), found("a.jpg", 4, 4)], NOW + 1).expect("rescan");
    assert_eq!(summary.image_count, 2);
    assert_eq!(data.images.iter().map(|r| r.id.clone()).collect::<Vec<_>>(), ids);
}

#[test]
fn undecodable_thumbnails_name_the_file() {
    let error = imaging::thumbnail_jpeg("broken.png", &vec![1, 2, 3], 1).err().expect("not a png");
    assert!(error.starts_with("Could not decode broken.png: "));
    let error = imaging::display_image("notes.txt", vec![1, 2, 3], 6).err().expect("no image format");
    let unknown_extension = image::ImageFormat::from_path("notes.txt").err().expect("unknown").to_string();
    assert_eq!(error, format!("Could not decode notes.txt: {unknown_extension}"));
}

#[test]
fn upright_images_come_back_unchanged() {
    let image = image::DynamicImage::new_rgb8(30, 10);
    let same = imaging::upright(image.clone(), 1);
    assert_eq!(same, image);
    let turned = imaging::upright(image.clone(), 8);
    assert_eq!((turned.width(), turned.height()), (10, 30));
    let decoded = imaging::decode("frame.png", &png_bytes(7, 5)).expect("decoded");
    assert_eq!((decoded.width(), decoded.height()), (7, 5));
}

#[test]
fn upright_applies_the_steps_of_each_orientation() {
    let mut buffer = image::RgbImage::new(3, 2);
    for (x, y, pixel) in buffer.enumerate_pixels_mut() {
        *pixel = image::Rgb([(x * 40) as u8, (y * 90) as u8, (x + 3 * y) as u8]);
    }
    let image = image::DynamicImage::ImageRgb8(buffer);
    assert_eq!(imaging::upright(image.clone(), 2), image.fliph());
    assert_eq!(imaging::upright(image.clone(), 3), image.rotate180());
    assert_eq!(imaging::upright(image.clone(), 4), image.flipv());
    assert_eq!(imaging::upright(image.clone(), 5), image.rotate90().fliph());
    assert_eq!(imaging::upright(image.clone(), 6), image.rotate90());
    assert_eq!(imaging::upright(image.clone(), 7), image.rotate270().fliph());
    assert_eq!(imaging::upright(image.clone(), 8), image.rotate270());
    assert_ne!(imaging::upright(image.clone(), 6), imaging::upright(image.clone(), 8));
}

#[test]
fn displayed_and_thumbnail_bytes_are_the_encoded_upright_image() {
    let image = image::DynamicImage::new_rgb8(40, 20);
    let shown = imaging::display_image("wide.png", png_bytes(40, 20), 6).expect("display");
    let mut expected = Vec::new();
    image.rotate90().write_to(&mut std::io::Cursor::new(&mut expected), image::ImageFormat::Jpeg).expect("jpeg");
    assert_eq!(shown, expected);
    let thumbnail = imaging::thumbnail_jpeg("wide.png", &png_bytes(40, 20), 1).expect("thumbnail");
    let mut expected = Vec::new();
    image.thumbnail(480, 320).write_to(&mut std::io::Cursor::new(&mut expected), image::ImageFormat::Jpeg).expect("jpeg");
    assert_eq!(thumbnail, expected);
}

#[test]
fn data_urls_pad_the_last_base64_group() {
    assert_eq!(project::thumbnail_data_url(&vec![0xff]), "data:image/jpeg;base64,/w==");
    assert_eq!(project::thumbnail_data_url(&vec![0xfb, 0xff]), "data:image/jpeg;base64,+/8=");
    assert_eq!(project::thumbnail_data_url(&b"Man".to_vec()), "data:image/jpeg;base64,TWFu");
}

#[test]
fn image_formats_follow_the_extension_without_case() {
    assert!(imaging::decode("shots/FRAME.PNG", &png_bytes(3, 2)).is_ok());
    let error = imaging::decode("shots/frame", &png_bytes(3, 2)).err().expect("no extension");
    assert_eq!(error, "Could not decode shots/frame: The image format could not be determined");
    let error = imaging::decode(".png", &png_bytes(3, 2)).err().expect("a hidden file has no extension");
    assert_eq!(error, "Could not decode .png: The image format could not be determined");
    let error = imaging::decode("shots/frame.", &png_bytes(3, 2)).err().expect("an empty extension");
    assert_eq!(error, "Could not decode shots/frame.: The image format could not be determined");
}

#[test]
fn one_new_file_is_indexed_where_no_image_id_looks_drawn() {
    let mut data = project::create("/data/ids", "Ids", "detection", None, NOW).expect("project");
    project::index_images_with_ids(&mut data, vec![found("a.jpg", 4, 4)], vec!["a-id".to_owned()], NOW).expect("index");
    let stale = project::index_images(&mut data, vec![found("a.jpg", 4, 4), found("b.jpg", 4, 4), found("b.jpg", 4, 4)], NOW + 1)
        .expect("one new file");
    assert!(stale.is_empty());
    assert_eq!(data.images.len(), 2);
    assert_eq!(data.images[0].id, "a-id");
    assert_eq!(data.images[1].id.len(), 36);
}
