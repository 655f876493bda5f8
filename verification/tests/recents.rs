use yalt::project::ProjectSummary;
use yalt::recents::{self, RecentProject, RecentSource, MAX_RECENT_PROJECTS};

fn recent(name: &str, root: &str, opened: i64) -> RecentProject {
    RecentProject {
        name: name.to_owned(),
        root_path: root.to_owned(),
        task_type: "detection".to_owned(),
        last_opened_at_ms: opened,
        available: true,
        preview_image_id: None,
    }
}

fn summary(name: &str, root: &str, updated: i64) -> ProjectSummary {
    ProjectSummary {
        id: "id".to_owned(),
        name: name.to_owned(),
        task_type: "classification".to_owned(),
        classification_mode: Some("single".to_owned()),
        root_path: root.to_owned(),
        created_at_ms: 1,
        updated_at_ms: updated,
        image_count: 0,
        missing_image_count: 0,
        deleted_image_count: 0,
        last_image_id: None,
    }
}

#[test]
fn reads_pre_release_recents_when_yalt_storage_is_empty() {
    // Only the list of the earlier release exists.
    assert_eq!(recents::recent_source(false, true), RecentSource::Legacy);
    let projects = recents::sort_recent(&vec![recent("Wildlife", "/missing", 1)]);
    assert_eq!(projects.len(), 1);
    assert_eq!(projects[0].name, "Wildlife");
}

#[test]
fn the_current_list_wins_over_the_legacy_one() {
    assert_eq!(recents::recent_source(true, true), RecentSource::Current);
    assert_eq!(recents::recent_source(false, false), RecentSource::Nothing);
}

#[test]
fn recents_are_sorted_newest_first_and_stable() {
    let sorted = recents::sort_recent(&vec![recent("a", "/a", 1), recent("b", "/b", 3), recent("c", "/c", 1)]);
    let names: Vec<&str> = sorted.iter().map(|p| p.name.as_str()).collect();
    assert_eq!(names, vec!["b", "a", "c"]);
}

#[test]
fn remembering_moves_the_project_first_without_duplicates() {
    let list = vec![recent("a", "/a", 5), recent("b", "/b", 4)];
    let updated = recents::remember(&list, &summary("B again", "/b", 9), Some("img".to_owned()));
    assert_eq!(updated.len(), 2);
    assert_eq!(updated[0].name, "B again");
    assert_eq!(updated[0].last_opened_at_ms, 9);
    assert_eq!(updated[0].task_type, "classification");
    assert_eq!(updated[0].preview_image_id, Some("img".to_owned()));
    assert!(updated[0].available);
    assert_eq!(updated[1].name, "a");
}

#[test]
fn the_list_keeps_at_most_twelve_projects() {
    let list: Vec<RecentProject> = (0..20).map(|i| recent(&format!("p{i}"), &format!("/p{i}"), 100 - i)).collect();
    let updated = recents::remember(&list, &summary("new", "/new", 200), None);
    assert_eq!(updated.len(), MAX_RECENT_PROJECTS);
    assert_eq!(updated[0].name, "new");
    assert_eq!(updated[11].name, "p10");
}
