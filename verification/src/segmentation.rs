//! Polygon segmentation: polygon annotations share the annotation table and the history with
//! boxes; their geometry is kept as the JSON text the table stores.
use vstd::prelude::*;
use crate::detection::{
    add_annotation, added_annotation, ann_lookup, annotations_for_image, change_annotation,
    changed_annotation, created_before, draft_for, draft_ok, draft_payload, drafted, drafts_without,
    find_annotation, on_image, opt_view, remove_annotation, removed_annotation, store_draft,
    AnnotationKind, AnnotationRow, DraftInput,
};
use crate::text::owned;
use crate::project::{ProjectData, TaskType};

verus! {

/// Deletes the polygon `annotation_id` of a segmentation project, as an undoable edit.
pub fn delete_annotation(data: &mut ProjectData, annotation_id: &str, now: i64) -> (r: Result<(), String>)
    requires
        old(data).wf(),
    ensures
        final(data).wf(),
        removed_annotation(old(data), final(data), AnnotationKind::Polygon, annotation_id@, now, r),
{
    remove_annotation(data, AnnotationKind::Polygon, annotation_id, now)
}


/// Adds the polygon object with class `class_id` and geometry `geometry_json` (checked by the
/// caller) to the active image `image_id`, as an undoable edit, and clears its draft.
pub fn create_annotation(data: &mut ProjectData, image_id: &str, class_id: &str, geometry_json: &str, now: i64) -> (r: Result<
    AnnotationRow,
    String,
>)
    requires
        old(data).wf(),
    ensures
        final(data).wf(),
        added_annotation(old(data), final(data), AnnotationKind::Polygon, image_id@, class_id@, geometry_json@, now, r),
{
    add_annotation(data, AnnotationKind::Polygon, image_id, class_id, geometry_json, now)
}

/// Edits the class, geometry and visibility of the polygon object `annotation_id`.
pub fn update_annotation(
    data: &mut ProjectData,
    annotation_id: &str,
    class_id: &str,
    geometry_json: &str,
    is_visible: bool,
    now: i64,
) -> (r: Result<AnnotationRow, String>)
    requires
        old(data).wf(),
    ensures
        final(data).wf(),
        changed_annotation(old(data), final(data), AnnotationKind::Polygon, annotation_id@, class_id@, geometry_json@, is_visible, false, now, r),
{
    change_annotation(data, AnnotationKind::Polygon, annotation_id, class_id, geometry_json, is_visible, false, now)
}

/// Gives the polygon object `annotation_id` the geometry `geometry_json`, its contours with one
/// more island (joined by the caller), keeping its class and visibility, and clears the draft of
/// its image.
pub fn append_island(data: &mut ProjectData, annotation_id: &str, geometry_json: &str, now: i64) -> (r: Result<
    AnnotationRow,
    String,
>)
    requires
        old(data).wf(),
    ensures
        final(data).wf(),
        old(data).project.task_type != TaskType::Segmentation || !(exists|i: int| 0 <= i < old(data).annotations.len()
            && (#[trigger] old(data).annotations@[i]).id@ == annotation_id@ && old(data).annotations@[i].kind
            == AnnotationKind::Polygon) ==> r is Err && *final(data) == *old(data),
        old(data).project.task_type == TaskType::Segmentation && (exists|i: int| 0 <= i < old(data).annotations.len()
            && (#[trigger] old(data).annotations@[i]).id@ == annotation_id@ && old(data).annotations@[i].kind
            == AnnotationKind::Polygon) ==> changed_annotation(
            old(data),
            final(data),
            AnnotationKind::Polygon,
            annotation_id@,
            ann_lookup(old(data).annotations@, annotation_id@)->0.class_id@,
            geometry_json@,
            ann_lookup(old(data).annotations@, annotation_id@)->0.is_visible,
            true,
            now,
            r,
        ),
{
    if data.project.task_type != TaskType::Segmentation {
        return Err(owned("This operation is only available in a polygon segmentation project."));
    }
    let i = match find_annotation(&data.annotations, annotation_id, AnnotationKind::Polygon) {
        None => return Err(owned("The polygon receiving this island no longer exists.")),
        Some(i) => i,
    };
    proof {
        crate::detection::lemma_index_unique(data.annotations@, annotation_id@, i as int);
        crate::detection::lemma_lookup_some(data.annotations@, annotation_id@);
    }
    let class_id = data.annotations[i].class_id.clone();
    let visible = data.annotations[i].is_visible;
    change_annotation(data, AnnotationKind::Polygon, annotation_id, class_id.as_str(), geometry_json, visible, true, now)
}

/// The polygon objects of image `image_id`, ordered by creation time.
pub fn list_annotations(data: &ProjectData, image_id: &str) -> (r: Result<Vec<AnnotationRow>, String>)
    ensures
        r is Ok <==> data.project.task_type == TaskType::Segmentation,
        r matches Ok(rows) ==> rows@ == crate::text::stable_sorted(
            data.annotations@.filter(on_image(image_id@, AnnotationKind::Polygon)),
            created_before(),
        ),
{
    annotations_for_image(data, AnnotationKind::Polygon, image_id)
}

/// Saves the polygon draft of image `image_id` (its points checked by the caller), or clears it.
pub fn save_draft(data: &mut ProjectData, draft: Option<DraftInput>, image_id: &str) -> (r: Result<(), String>)
    requires
        old(data).wf(),
    ensures
        final(data).wf(),
        r is Err ==> *final(data) == *old(data),
        r is Ok <==> old(data).project.task_type == TaskType::Segmentation && match draft {
            Some(d) => draft_ok(old(data), AnnotationKind::Polygon, image_id@, d),
            None => true,
        },
        r is Ok ==> final(data).drafts@ == match draft {
            Some(d) => drafted(
                old(data).drafts@,
                crate::project::DraftRow {
                    image_id: d.image_id,
                    kind: AnnotationKind::Polygon,
                    class_id: Some(d.class_id),
                    payload_json: d.payload_json,
                },
            ),
            None => drafts_without(old(data).drafts@, image_id@, AnnotationKind::Polygon),
        },
{
    store_draft(data, AnnotationKind::Polygon, image_id, draft)
}

/// The payload of the polygon draft saved for image `image_id`.
pub fn load_draft(data: &ProjectData, image_id: &str) -> (r: Result<Option<String>, String>)
    ensures
        r is Ok <==> data.project.task_type == TaskType::Segmentation,
        r matches Ok(p) ==> opt_view(p) == draft_payload(data.drafts@, image_id@, AnnotationKind::Polygon),
{
    if data.project.task_type != TaskType::Segmentation {
        return Err(owned("This operation is only available in a polygon segmentation project."));
    }
    Ok(draft_for(data, AnnotationKind::Polygon, image_id))
}

} // verus!
