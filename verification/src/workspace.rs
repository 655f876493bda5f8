//! Moving images into `deleted/` and back, and the undo/redo history shared by every task.
use vstd::prelude::*;
use crate::classification::ClassificationOperation;
use crate::detection::AnnotationRow;
use crate::project::{ImageRow, ImageStatus, ProjectData};
use crate::text::owned;

verus! {

/// A recorded move of an image file, with the statuses it takes.
pub struct ImageMove {
    pub image_id: String,
    pub from_relative_path: String,
    pub to_relative_path: String,
    pub from_status: ImageStatus,
    pub to_status: ImageStatus,
}

/// The annotation rows an edit replaced and the rows it left.
pub struct AnnotationChange {
    pub before: Vec<AnnotationRow>,
    pub after: Vec<AnnotationRow>,
}

/// One undoable operation.
pub enum Operation {
    ImageMove(ImageMove),
    Annotation(AnnotationChange),
    PolygonAnnotation(AnnotationChange),
    Classification(ClassificationOperation),
}

/// A row of the `operation_history` table.
pub struct HistoryEntry {
    pub sequence: i64,
    pub operation: Operation,
    pub applied: bool,
}

/// Whether undo and redo have something to do.
#[derive(Debug, Clone, PartialEq)]
pub struct HistoryState {
    pub can_undo: bool,
    pub can_redo: bool,
}


/// The number of history entries that are applied: under `history_wf`, the applied entries are
/// exactly the first ones.
pub open spec fn applied_len(h: Seq<HistoryEntry>) -> int
    decreases h.len(),
{
    if h.len() == 0 {
        0
    } else if h.last().applied {
        h.len() as int
    } else {
        applied_len(h.drop_last())
    }
}

pub proof fn lemma_applied_len(h: Seq<HistoryEntry>, next: i64)
    requires
        crate::project::history_wf(h, next),
    ensures
        0 <= applied_len(h) <= h.len(),
        forall|i: int| 0 <= i < h.len() ==> (#[trigger] h[i].applied <==> i < applied_len(h)),
    decreases h.len(),
{
    if h.len() > 0 {
        let d = h.drop_last();
        assert(crate::project::history_wf(d, next));
        lemma_applied_len(d, next);
        if h.last().applied {
            assert forall|i: int| 0 <= i < h.len() implies #[trigger] h[i].applied by {
                if i < h.len() - 1 {
                    assert(h[h.len() - 1].applied);
                }
            }
        } else {
            assert forall|i: int| 0 <= i < h.len() implies (#[trigger] h[i].applied <==> i
                < applied_len(h)) by {
                if i < h.len() - 1 {
                    assert(d[i] == h[i]);
                }
            }
        }
    }
}

/// The number of applied history entries.
pub fn applied_count(data: &ProjectData) -> (r: usize)
    requires
        data.wf(),
    ensures
        r == applied_len(data.history@),
        r <= data.history.len(),
{
    proof {
        lemma_applied_len(data.history@, data.next_sequence);
    }
    let mut k = data.history.len();
    while k > 0 && !data.history[k - 1].applied
        invariant
            k <= data.history.len(),
            applied_len(data.history@) <= k,
            forall|i: int| 0 <= i < data.history.len() ==> (#[trigger] data.history@[i].applied <==> i
                < applied_len(data.history@)),
        decreases k,
    {
        k = k - 1;
    }
    k
}

/// The tables other than the history, and the project row.
pub open spec fn same_except_history(a: &ProjectData, b: &ProjectData) -> bool {
    &&& a.project == b.project
    &&& a.classes == b.classes
    &&& a.images == b.images
    &&& a.image_classes == b.image_classes
    &&& a.annotations == b.annotations
    &&& a.drafts == b.drafts
    &&& a.active_class_id == b.active_class_id
}

/// The history after a new operation: what was undone is dropped and the operation is appended
/// as applied.
pub open spec fn recorded(h: Seq<HistoryEntry>, next: i64, op: Operation) -> Seq<HistoryEntry> {
    h.take(applied_len(h)).push(HistoryEntry { sequence: next, operation: op, applied: true })
}

/// Records a new operation in the history.
pub fn record_operation(data: &mut ProjectData, op: Operation) -> (r: Result<(), String>)
    requires
        old(data).wf(),
    ensures
        final(data).wf(),
        r is Ok <==> old(data).next_sequence < i64::MAX,
        r is Err ==> *final(data) == *old(data),
        r is Ok ==> {
            &&& final(data).history@ == recorded(old(data).history@, old(data).next_sequence, op)
            &&& final(data).next_sequence == old(data).next_sequence + 1
            &&& same_except_history(old(data), final(data))
        },
{
    if data.next_sequence == i64::MAX {
        return Err(owned("Could not record operation history."));
    }
    let k = applied_count(data);
    let ghost h = data.history@;
    data.history.truncate(k);
    assert(data.history@ == h.take(k as int));
    let entry = HistoryEntry { sequence: data.next_sequence, operation: op, applied: true };
    data.history.push(entry);
    data.next_sequence = data.next_sequence + 1;
    proof {
        lemma_applied_len(h, old(data).next_sequence);
    }
    Ok(())
}

/// Sets the applied flag of the history entry at `index`.
pub fn set_applied(data: &mut ProjectData, index: usize, applied: bool)
    requires
        old(data).wf(),
        index < old(data).history.len(),
        applied ==> index == 0 || old(data).history@[index - 1].applied,
        !applied ==> index == old(data).history.len() - 1 || !old(data).history@[index + 1].applied,
    ensures
        final(data).wf(),
        final(data).history@ == old(data).history@.update(
            index as int,
            HistoryEntry { applied: applied, ..old(data).history@[index as int] },
        ),
        final(data).next_sequence == old(data).next_sequence,
        same_except_history(old(data), final(data)),
{
    let ghost h = data.history@;
    proof {
        lemma_applied_len(h, data.next_sequence);
    }
    let mut entry = data.history.remove(index);
    entry.applied = applied;
    data.history.insert(index, entry);
    assert(data.history@ =~= h.update(index as int, HistoryEntry { applied: applied, ..h[index as int] }));
    proof {
        let n = data.history@;
        assert forall|i: int, j: int| 0 <= i < j < n.len() && n[j].applied implies n[i].applied by {
            if j == index {
                if i < index - 1 {
                    assert(h[index - 1].applied);
                }
            } else if i == index {
                assert(h[j].applied);
            } else {
                assert(h[j].applied);
            }
        }
    }
}

/// Whether there is something to undo and something to redo.
pub fn history_state(data: &ProjectData) -> (r: Result<HistoryState, String>)
    ensures
        r matches Ok(st) && st.can_undo == (exists|i: int|
            0 <= i < data.history.len() && (#[trigger] data.history@[i]).applied) && st.can_redo
            == (exists|i: int| 0 <= i < data.history.len() && !(#[trigger] data.history@[i]).applied),
{
    let mut can_undo = false;
    let mut can_redo = false;
    for i in 0..data.history.len()
        invariant
            can_undo == (exists|k: int| 0 <= k < i && (#[trigger] data.history@[k]).applied),
            can_redo == (exists|k: int| 0 <= k < i && !(#[trigger] data.history@[k]).applied),
    {
        if data.history[i].applied {
            can_undo = true;
        } else {
            can_redo = true;
        }
    }
    Ok(HistoryState { can_undo, can_redo })
}


/// Whether `path` is among the occupied paths.
pub open spec fn is_taken(occupied: Seq<String>, path: Seq<char>) -> bool {
    exists|i: int| 0 <= i < occupied.len() && (#[trigger] occupied[i])@ == path
}

/// Whether `path` is among the occupied paths.
pub fn taken(occupied: &Vec<String>, path: &str) -> (r: bool)
    ensures
        r == is_taken(occupied@, path@),
{
    let key = owned(path);
    for i in 0..occupied.len()
        invariant
            key@ == path@,
            forall|k: int| 0 <= k < i ==> occupied@[k]@ != path@,
    {
        if occupied[i] == key {
            return true;
        }
    }
    false
}

/// `deleted/`
pub open spec fn deleted_dir() -> Seq<char> {
    seq!['d', 'e', 'l', 'e', 't', 'e', 'd', '/']
}

/// `-deleted-`
pub open spec fn deleted_infix() -> Seq<char> {
    seq!['-', 'd', 'e', 'l', 'e', 't', 'e', 'd', '-']
}

/// Where an image at `original` goes when it is deleted: `deleted/{original}`, or, where that is
/// taken, `{stem}-deleted-{first 8 bytes of the id}.{extension}` in the same directory under
/// `deleted/`.
pub open spec fn deleted_path_spec(original: Seq<char>, image_id: Seq<char>, occupied: Seq<String>) -> Seq<
    char,
> {
    let preferred = deleted_dir() + original;
    if !is_taken(occupied, preferred) {
        preferred
    } else {
        deleted_dir() + crate::paths::sibling_path(
            original,
            crate::paths::suffixed_name(
                original,
                deleted_infix() + crate::paths::byte_prefix(image_id, 8),
            ),
        )
    }
}

/// Whether deleting the image at `original` needs a name that holds the first bytes of its id:
/// `deleted/{original}` is a valid path that is taken.
pub open spec fn deletion_needs_suffix(original: Seq<char>, occupied: Seq<String>) -> bool {
    crate::paths::is_valid_relative(deleted_dir() + original) && is_taken(occupied, deleted_dir() + original)
}

/// Whether `delete_image` would move the image `image_id` under a name that holds the first bytes
/// of its id: it is active, has no annotation of the project's kind, and its path under `deleted/`
/// is taken.
pub open spec fn deletion_slices_id(data: ProjectData, image_id: Seq<char>, occupied: Seq<String>) -> bool {
    &&& crate::project::has_image_with_status(data.images@, image_id, ImageStatus::Active)
    &&& !has_spatial_annotation(data, image_id)
    &&& deletion_needs_suffix(
        data.images@[crate::project::image_index(data.images@, image_id)].relative_path@,
        occupied,
    )
}

/// Whether `delete_image` would move the image `image_id` under a name that holds the first bytes
/// of its id.
pub fn deletion_slices_id_exec(data: &ProjectData, image_id: &str, occupied: &Vec<String>) -> (r: bool)
    requires
        data.wf(),
    ensures
        r == deletion_slices_id(*data, image_id@, occupied@),
{
    let i = match crate::project::find_image(&data.images, image_id) {
        Some(i) => i,
        None => return false,
    };
    proof {
        assert(data.images@[i as int].id@ == image_id@);
        assert(crate::project::image_index(data.images@, image_id@) == i as int);
    }
    if data.images[i].status != ImageStatus::Active || spatial_annotation_on(data, image_id) {
        return false;
    }
    let mut path = owned("deleted/");
    crate::text::push_all(&mut path, data.images[i].relative_path.as_str());
    assert(path@ =~= deleted_dir() + data.images@[i as int].relative_path@) by {
        reveal_strlit("deleted/");
    }
    match crate::paths::relative_path(path.as_str()) {
        Err(_) => false,
        Ok(_) => taken(occupied, path.as_str()),
    }
}

/// The free path under `deleted/` for the image at `original`; `occupied` lists the paths that
/// exist on disk.
pub fn available_deleted_path(original: &str, image_id: &str, occupied: &Vec<String>) -> (r: Result<
    String,
    String,
>)
    requires
        deletion_needs_suffix(original@, occupied@) ==> crate::paths::prefix_on_boundary(image_id@, 8),
    ensures
        match r {
            Ok(p) => crate::paths::is_valid_relative(deleted_dir() + original@) && p@
                == deleted_path_spec(original@, image_id@, occupied@),
            Err(_) => !crate::paths::is_valid_relative(deleted_dir() + original@),
        },
{
    let mut preferred: Vec<char> = vec!['d', 'e', 'l', 'e', 't', 'e', 'd', '/'];
    assert(preferred@ =~= deleted_dir());
    let orig = crate::text::chars_of(original);
    let mut k: usize = 0;
    let ghost start = preferred@;
    while k < orig.len()
        invariant
            k <= orig.len(),
            orig@ == original@,
            preferred@ == start + orig@.take(k as int),
        decreases orig.len() - k,
    {
        preferred.push(orig[k]);
        assert(orig@.take(k + 1) == orig@.take(k as int).push(orig@[k as int]));
        k = k + 1;
    }
    assert(orig@.take(orig.len() as int) =~= orig@);
    let preferred_text = crate::text::string_of(&preferred);
    assert(preferred_text@ =~= deleted_dir() + original@);
    match crate::paths::relative_path(preferred_text.as_str()) {
        Err(e) => return Err(e),
        Ok(_) => {},
    }
    if !taken(occupied, preferred_text.as_str()) {
        return Ok(preferred_text);
    }
    let prefix = crate::paths::prefix_bytes(image_id, 8);
    let mut suffix: Vec<char> = vec!['-', 'd', 'e', 'l', 'e', 't', 'e', 'd', '-'];
    assert(suffix@ =~= deleted_infix());
    let pv = crate::text::chars_of(prefix.as_str());
    let ghost s0 = suffix@;
    for j in 0..pv.len()
        invariant
            suffix@ == s0 + pv@.take(j as int),
    {
        suffix.push(pv[j]);
        assert(pv@.take(j + 1) == pv@.take(j as int).push(pv@[j as int]));
    }
    assert(pv@.take(pv.len() as int) =~= pv@);
    let name = crate::paths::suffixed_name_of(&orig, &suffix);
    let sibling = crate::paths::sibling_of(&orig, name);
    let mut out: Vec<char> = vec!['d', 'e', 'l', 'e', 't', 'e', 'd', '/'];
    assert(out@ =~= deleted_dir());
    let ghost o0 = out@;
    for j in 0..sibling.len()
        invariant
            out@ == o0 + sibling@.take(j as int),
    {
        out.push(sibling[j]);
        assert(sibling@.take(j + 1) == sibling@.take(j as int).push(sibling@[j as int]));
    }
    assert(sibling@.take(sibling.len() as int) =~= sibling@);
    Ok(crate::text::string_of(&out))
}

impl ImageMove {
    /// A copy of this move.
    pub fn duplicate(&self) -> (r: ImageMove)
        ensures
            r == *self,
    {
        ImageMove {
            image_id: self.image_id.clone(),
            from_relative_path: self.from_relative_path.clone(),
            to_relative_path: self.to_relative_path.clone(),
            from_status: self.from_status,
            to_status: self.to_status,
        }
    }
}

/// A move of an image file that is journaled before the file moves and finalized after it.
pub struct PendingMove {
    pub id: String,
    pub image_id: String,
    pub from_relative_path: String,
    pub to_relative_path: String,
    pub target_status: ImageStatus,
    pub operation: ImageMove,
    /// The history entry that an undo or redo replays; `None` for a new operation.
    pub history_sequence: Option<i64>,
    pub desired_applied: Option<bool>,
}

/// The kind of annotation a project of task `t` draws, if it draws any.
pub open spec fn spatial_kind(t: crate::project::TaskType) -> Option<crate::detection::AnnotationKind> {
    match t {
        crate::project::TaskType::Detection => Some(crate::detection::AnnotationKind::Bbox),
        crate::project::TaskType::Segmentation => Some(crate::detection::AnnotationKind::Polygon),
        crate::project::TaskType::Classification => None,
    }
}

/// Whether an annotation of the kind the project draws lies on image `image_id`.
pub open spec fn has_spatial_annotation(data: ProjectData, image_id: Seq<char>) -> bool {
    exists|i: int|
        0 <= i < data.annotations.len() && (#[trigger] data.annotations@[i]).image_id@ == image_id
            && spatial_kind(data.project.task_type) == Some(data.annotations@[i].kind)
}

fn spatial_annotation_on(data: &ProjectData, image_id: &str) -> (r: bool)
    ensures
        r == has_spatial_annotation(*data, image_id@),
{
    let kind = match data.project.task_type {
        crate::project::TaskType::Detection => crate::detection::AnnotationKind::Bbox,
        crate::project::TaskType::Segmentation => crate::detection::AnnotationKind::Polygon,
        crate::project::TaskType::Classification => return false,
    };
    let key = owned(image_id);
    for i in 0..data.annotations.len()
        invariant
            key@ == image_id@,
            spatial_kind(data.project.task_type) == Some(kind),
            forall|j: int| 0 <= j < i ==> !((#[trigger] data.annotations@[j]).image_id@ == image_id@
                && data.annotations@[j].kind == kind),
    {
        if data.annotations[i].image_id == key && data.annotations[i].kind == kind {
            return true;
        }
    }
    false
}

/// The message of an image that still has annotations.
pub open spec fn annotated_image_message() -> Seq<char> {
    "Remove the image's annotations before moving it to deleted."@
}

/// The move that takes the active image `image_id` into `deleted/`. In a detection or
/// segmentation project the image must have no annotation left.
pub fn delete_image(data: &ProjectData, image_id: &str, occupied: &Vec<String>) -> (r: Result<
    PendingMove,
    String,
>)
    requires
        data.wf(),
        deletion_slices_id(*data, image_id@, occupied@) ==> crate::paths::prefix_on_boundary(image_id@, 8),
    ensures
        !crate::project::has_image_with_status(data.images@, image_id@, ImageStatus::Active) ==> r is Err,
        crate::project::has_image_with_status(data.images@, image_id@, ImageStatus::Active) ==> {
            let row = data.images@[crate::project::image_index(data.images@, image_id@)];
            &&& r is Ok <==> !has_spatial_annotation(*data, image_id@)
                && crate::paths::is_valid_relative(deleted_dir() + row.relative_path@)
            &&& has_spatial_annotation(*data, image_id@) ==> (r matches Err(m) && m@ == annotated_image_message())
            &&& r matches Ok(p) ==> {
                &&& p.id@.len() == 36
                &&& p.image_id@ == image_id@
                &&& p.from_relative_path == row.relative_path
                &&& p.to_relative_path@ == deleted_path_spec(row.relative_path@, image_id@, occupied@)
                &&& p.target_status == ImageStatus::Deleted
                &&& p.operation == (ImageMove {
                    image_id: p.image_id,
                    from_relative_path: p.from_relative_path,
                    to_relative_path: p.to_relative_path,
                    from_status: ImageStatus::Active,
                    to_status: ImageStatus::Deleted,
                })
                &&& p.history_sequence is None
                &&& p.desired_applied is None
            }
        },
{
    let i = match crate::project::find_image(&data.images, image_id) {
        Some(i) => i,
        None => return Err(owned("Only an available image can be moved to deleted.")),
    };
    proof {
        let j = crate::project::image_index(data.images@, image_id@);
        assert(data.images@[i as int].id@ == image_id@);
        assert(j == i as int);
    }
    if data.images[i].status != ImageStatus::Active {
        return Err(owned("Only an available image can be moved to deleted."));
    }
    if spatial_annotation_on(data, image_id) {
        return Err(owned("Remove the image's annotations before moving it to deleted."));
    }
    let row = &data.images[i];
    let to = match available_deleted_path(row.relative_path.as_str(), image_id, occupied) {
        Ok(p) => p,
        Err(e) => return Err(e),
    };
    let operation = ImageMove {
        image_id: owned(image_id),
        from_relative_path: row.relative_path.clone(),
        to_relative_path: to,
        from_status: ImageStatus::Active,
        to_status: ImageStatus::Deleted,
    };
    Ok(PendingMove {
        id: crate::project::new_id(),
        image_id: operation.image_id.clone(),
        from_relative_path: operation.from_relative_path.clone(),
        to_relative_path: operation.to_relative_path.clone(),
        target_status: ImageStatus::Deleted,
        operation,
        history_sequence: None,
        desired_applied: None,
    })
}

/// The move that takes the deleted image `image_id` back to where it was.
pub fn restore_image(data: &ProjectData, image_id: &str) -> (r: Result<PendingMove, String>)
    requires
        data.wf(),
    ensures
        (r is Ok) <== (crate::project::has_image_with_status(data.images@, image_id@, ImageStatus::Deleted)
            && data.images@[crate::project::image_index(data.images@, image_id@)].deleted_relative_path is Some),
        r matches Ok(p) ==> {
            let row = data.images@[crate::project::image_index(data.images@, image_id@)];
            &&& crate::project::has_image_with_status(data.images@, image_id@, ImageStatus::Deleted)
            &&& row.deleted_relative_path == Some(p.from_relative_path)
            &&& p.id@.len() == 36
            &&& p.image_id@ == image_id@
            &&& p.to_relative_path == row.relative_path
            &&& p.target_status == ImageStatus::Active
            &&& p.operation == (ImageMove {
                image_id: p.image_id,
                from_relative_path: p.from_relative_path,
                to_relative_path: p.to_relative_path,
                from_status: ImageStatus::Deleted,
                to_status: ImageStatus::Active,
            })
            &&& p.history_sequence is None
            &&& p.desired_applied is None
        },
{
    let i = match crate::project::find_image(&data.images, image_id) {
        Some(i) => i,
        None => return Err(owned("Only a deleted image can be restored.")),
    };
    proof {
        let j = crate::project::image_index(data.images@, image_id@);
        assert(data.images@[i as int].id@ == image_id@);
        assert(j == i as int);
    }
    let row = &data.images[i];
    if row.status != ImageStatus::Deleted {
        return Err(owned("Only a deleted image can be restored."));
    }
    let from = match &row.deleted_relative_path {
        Some(p) => p.clone(),
        None => return Err(owned("Only a deleted image can be restored.")),
    };
    let operation = ImageMove {
        image_id: owned(image_id),
        from_relative_path: from,
        to_relative_path: row.relative_path.clone(),
        from_status: ImageStatus::Deleted,
        to_status: ImageStatus::Active,
    };
    Ok(PendingMove {
        id: crate::project::new_id(),
        image_id: operation.image_id.clone(),
        from_relative_path: operation.from_relative_path.clone(),
        to_relative_path: operation.to_relative_path.clone(),
        target_status: ImageStatus::Active,
        operation,
        history_sequence: None,
        desired_applied: None,
    })
}


/// The image row once the move `p` is finalized.
pub open spec fn moved_row(r: ImageRow, p: PendingMove, now: i64) -> ImageRow {
    ImageRow {
        status: p.target_status,
        deleted_relative_path: if p.target_status == ImageStatus::Deleted {
            Some(p.to_relative_path)
        } else {
            None
        },
        updated_at_ms: now,
        ..r
    }
}

/// The images once the move `p` is finalized: the row of the moved image takes its new status.
pub open spec fn moved_images(images: Seq<ImageRow>, p: PendingMove, now: i64) -> Seq<ImageRow> {
    images.map_values(|r: ImageRow| if r.id@ == p.image_id@ { moved_row(r, p, now) } else { r })
}

/// The index of the history entry with sequence `s`, looked up from the end, or -1.
pub open spec fn sequence_index(h: Seq<HistoryEntry>, s: i64) -> int
    decreases h.len(),
{
    if h.len() == 0 {
        -1
    } else if h.last().sequence == s {
        h.len() - 1
    } else {
        sequence_index(h.drop_last(), s)
    }
}

proof fn lemma_sequence_index(h: Seq<HistoryEntry>, s: i64)
    ensures
        -1 <= sequence_index(h, s) < h.len(),
        sequence_index(h, s) >= 0 ==> h[sequence_index(h, s)].sequence == s,
        sequence_index(h, s) < 0 ==> forall|i: int| 0 <= i < h.len() ==> h[i].sequence != s,
    decreases h.len(),
{
    if h.len() > 0 {
        lemma_sequence_index(h.drop_last(), s);
        if h.last().sequence != s {
            assert forall|i: int| 0 <= i < h.len() - 1 implies h[i] == h.drop_last()[i] by {}
        }
    }
}

/// The index of the history entry with sequence `s`.
pub fn find_sequence(h: &Vec<HistoryEntry>, s: i64) -> (r: Option<usize>)
    ensures
        match r {
            Some(k) => k as int == sequence_index(h@, s) && k < h.len(),
            None => sequence_index(h@, s) == -1,
        },
{
    let mut k = h.len();
    assert(h@.take(k as int) =~= h@);
    while k > 0 && h[k - 1].sequence != s
        invariant
            k <= h.len(),
            sequence_index(h@, s) == sequence_index(h@.take(k as int), s),
        decreases k,
    {
        assert(h@.take(k as int).drop_last() =~= h@.take(k - 1));
        k = k - 1;
    }
    if k == 0 {
        None
    } else {
        assert(h@.take(k as int).last() == h@[k - 1]);
        Some(k - 1)
    }
}

/// The applied flag that a replay sets: `desired_applied`, `true` where it is missing.
pub open spec fn desired_flag(p: PendingMove) -> bool {
    match p.desired_applied {
        Some(b) => b,
        None => true,
    }
}

/// Whether setting the entry at `k` to `applied` keeps the applied entries in front.
pub open spec fn replay_consistent(h: Seq<HistoryEntry>, k: int, applied: bool) -> bool {
    if applied {
        k <= applied_len(h)
    } else {
        k + 1 >= applied_len(h)
    }
}

/// Whether the history can take the move `p`.
pub open spec fn move_history_ok(h: Seq<HistoryEntry>, next: i64, p: PendingMove) -> bool {
    match p.history_sequence {
        None => next < i64::MAX,
        Some(s) => sequence_index(h, s) < 0 || replay_consistent(h, sequence_index(h, s), desired_flag(p)),
    }
}

/// The history once the move `p` is finalized: a new operation is recorded, a replayed one takes
/// its applied flag.
pub open spec fn finalized_history(h: Seq<HistoryEntry>, next: i64, p: PendingMove) -> Seq<HistoryEntry> {
    match p.history_sequence {
        None => recorded(h, next, Operation::ImageMove(p.operation)),
        Some(s) => if sequence_index(h, s) >= 0 {
            h.update(
                sequence_index(h, s),
                HistoryEntry { applied: desired_flag(p), ..h[sequence_index(h, s)] },
            )
        } else {
            h
        },
    }
}

/// The image the workspace shows once the move `p` is finalized: cleared when it was deleted.
pub open spec fn finalized_last_image(last: Option<String>, p: PendingMove) -> Option<String> {
    match last {
        Some(l) if l@ == p.image_id@ && p.target_status == ImageStatus::Deleted => None,
        _ => last,
    }
}

/// A copy of an image row with a new status, deleted path and time stamp.
fn image_row_with(r: &ImageRow, status: ImageStatus, deleted: Option<String>, now: i64) -> (out: ImageRow)
    ensures
        out == (ImageRow { status: status, deleted_relative_path: deleted, updated_at_ms: now, ..*r }),
{
    ImageRow {
        id: r.id.clone(),
        relative_path: r.relative_path.clone(),
        file_name: r.file_name.clone(),
        width: r.width,
        height: r.height,
        byte_size: r.byte_size,
        modified_at_ms: r.modified_at_ms,
        status,
        sort_order: r.sort_order,
        orientation: r.orientation,
        deleted_relative_path: deleted,
        classification_original_path: crate::detection::clone_opt_text(&r.classification_original_path),
        created_at_ms: r.created_at_ms,
        updated_at_ms: now,
    }
}

/// Records in the project that the file of `pending` has moved: the image takes its new status,
/// the history records or replays the operation, and the project's time stamp moves.
pub fn finalize_pending_move(data: &mut ProjectData, pending: &PendingMove, now: i64) -> (r: Result<
    (),
    String,
>)
    requires
        old(data).wf(),
    ensures
        final(data).wf(),
        r is Ok <==> move_history_ok(old(data).history@, old(data).next_sequence, *pending),
        r is Err ==> *final(data) == *old(data),
        r is Ok ==> {
            &&& final(data).images@ == moved_images(old(data).images@, *pending, now)
            &&& final(data).history@ == finalized_history(
                old(data).history@,
                old(data).next_sequence,
                *pending,
            )
            &&& final(data).next_sequence == if pending.history_sequence is None {
                old(data).next_sequence + 1
            } else {
                old(data).next_sequence as int
            }
            &&& final(data).project.updated_at_ms == now
            &&& final(data).project.last_image_id == finalized_last_image(
                old(data).project.last_image_id,
                *pending,
            )
            &&& final(data).project.id == old(data).project.id
            &&& final(data).project.name == old(data).project.name
            &&& final(data).project.task_type == old(data).project.task_type
            &&& final(data).project.classification_mode == old(data).project.classification_mode
            &&& final(data).project.root_path == old(data).project.root_path
            &&& final(data).project.created_at_ms == old(data).project.created_at_ms
            &&& final(data).classes == old(data).classes
            &&& final(data).image_classes == old(data).image_classes
            &&& final(data).annotations == old(data).annotations
            &&& final(data).drafts == old(data).drafts
            &&& final(data).active_class_id == old(data).active_class_id
        },
{
    proof {
        lemma_applied_len(data.history@, data.next_sequence);
    }
    let replay: Option<Option<usize>> = match pending.history_sequence {
        None => {
            if data.next_sequence == i64::MAX {
                return Err(owned("Could not record operation history."));
            }
            None
        },
        Some(s) => {
            let found = find_sequence(&data.history, s);
            match found {
                None => Some(None),
                Some(k) => {
                    let applied = match pending.desired_applied {
                        Some(b) => b,
                        None => true,
                    };
                    let boundary = applied_count(data);
                    if applied && k > boundary {
                        return Err(owned("Could not update operation history: it no longer matches the move."));
                    }
                    if !applied && k + 1 < boundary {
                        return Err(owned("Could not update operation history: it no longer matches the move."));
                    }
                    Some(Some(k))
                },
            }
        },
    };
    // The image row.
    let ghost imgs = data.images@;
    match crate::project::find_image(&data.images, pending.image_id.as_str()) {
        Some(i) => {
            let deleted = if pending.target_status == ImageStatus::Deleted {
                Some(pending.to_relative_path.clone())
            } else {
                None
            };
            let row = image_row_with(&data.images[i], pending.target_status, deleted, now);
            data.images.set(i, row);
            assert(data.images@ =~= moved_images(imgs, *pending, now)) by {
                assert forall|k: int| 0 <= k < imgs.len() && k != i implies imgs[k].id@ != pending.image_id@ by {
                    assert(imgs[k].id@ != imgs[i as int].id@);
                }
            }
        },
        None => {
            assert(data.images@ =~= moved_images(imgs, *pending, now));
        },
    }
    assert(crate::project::images_wf(data.images@));
    // The history.
    match replay {
        None => {
            let op = Operation::ImageMove(pending.operation.duplicate());
            let recorded_ok = record_operation(data, op);
            assert(recorded_ok is Ok);
        },
        Some(None) => {},
        Some(Some(k)) => {
            let applied = match pending.desired_applied {
                Some(b) => b,
                None => true,
            };
            proof {
                lemma_sequence_index(data.history@, pending.history_sequence->0);
            }
            set_applied(data, k, applied);
        },
    }
    // The project row.
    let clear = match &data.project.last_image_id {
        Some(l) => pending.target_status == ImageStatus::Deleted && *l == pending.image_id,
        None => false,
    };
    if clear {
        data.project.last_image_id = None;
    }
    data.project.updated_at_ms = now;
    Ok(())
}


/// Whether the history can take `op`: as a new operation (`sequence` is `None`), or as the replay
/// of the entry with that sequence setting its applied flag to `applied`.
pub open spec fn history_write_ok(h: Seq<HistoryEntry>, next: i64, sequence: Option<i64>, applied: bool) -> bool {
    match sequence {
        None => next < i64::MAX,
        Some(s) => sequence_index(h, s) < 0 || replay_consistent(h, sequence_index(h, s), applied),
    }
}

/// The history once `op` is recorded as new, or its entry replayed.
pub open spec fn history_written(
    h: Seq<HistoryEntry>,
    next: i64,
    op: Operation,
    sequence: Option<i64>,
    applied: bool,
) -> Seq<HistoryEntry> {
    match sequence {
        None => recorded(h, next, op),
        Some(s) => if sequence_index(h, s) >= 0 {
            h.update(sequence_index(h, s), HistoryEntry { applied: applied, ..h[sequence_index(h, s)] })
        } else {
            h
        },
    }
}

/// Records `op` as a new operation, or sets the applied flag of the entry with sequence `sequence`.
pub fn write_history(data: &mut ProjectData, op: Operation, sequence: Option<i64>, applied: bool) -> (r: Result<
    (),
    String,
>)
    requires
        old(data).wf(),
    ensures
        final(data).wf(),
        r is Ok <==> history_write_ok(old(data).history@, old(data).next_sequence, sequence, applied),
        r is Err ==> *final(data) == *old(data),
        r is Ok ==> {
            &&& final(data).history@ == history_written(
                old(data).history@,
                old(data).next_sequence,
                op,
                sequence,
                applied,
            )
            &&& final(data).next_sequence == if sequence is None {
                old(data).next_sequence + 1
            } else {
                old(data).next_sequence as int
            }
            &&& same_except_history(old(data), final(data))
        },
{
    proof {
        lemma_applied_len(data.history@, data.next_sequence);
    }
    match sequence {
        None => record_operation(data, op),
        Some(s) => {
            match find_sequence(&data.history, s) {
                None => Ok(()),
                Some(k) => {
                    let boundary = applied_count(data);
                    if applied && k > boundary {
                        return Err(owned("Could not update operation history: it no longer matches the operation."));
                    }
                    if !applied && k + 1 < boundary {
                        return Err(owned("Could not update operation history: it no longer matches the operation."));
                    }
                    proof {
                        lemma_sequence_index(data.history@, s);
                    }
                    set_applied(data, k, applied);
                    Ok(())
                },
            }
        },
    }
}


/// The image an operation touched: the image of a move or a classification, else the image of
/// the first annotation row before the edit, then after it.
pub open spec fn affected_image(op: Operation) -> Option<Seq<char>> {
    match op {
        Operation::ImageMove(m) => Some(m.image_id@),
        Operation::Classification(c) => Some(c.image_id@),
        Operation::Annotation(c) => change_image(c),
        Operation::PolygonAnnotation(c) => change_image(c),
    }
}

/// The image of the first annotation row before an edit, then after it.
pub open spec fn change_image(c: AnnotationChange) -> Option<Seq<char>> {
    if c.before.len() > 0 {
        Some(c.before@[0].image_id@)
    } else if c.after.len() > 0 {
        Some(c.after@[0].image_id@)
    } else {
        None
    }
}

fn change_image_exec(c: &AnnotationChange) -> (r: Option<String>)
    ensures
        crate::detection::opt_view(r) == change_image(*c),
{
    if c.before.len() > 0 {
        Some(c.before[0].image_id.clone())
    } else if c.after.len() > 0 {
        Some(c.after[0].image_id.clone())
    } else {
        None
    }
}

/// What an undo or a redo leads to.
pub enum HistoryAction {
    /// There was nothing to undo or redo.
    Nothing,
    /// The project is up to date; the image the operation touched.
    Applied(Option<String>),
    /// An image file has to move first; the move to journal, perform and finalize.
    MoveImage(PendingMove),
    /// A classified image file has to move first.
    MoveClassified(crate::classification::PendingClassificationMove),
}

/// The move that replays the image move `m`, recorded with sequence `sequence`: backwards for an
/// undo.
pub open spec fn replayed_move(p: PendingMove, m: ImageMove, sequence: i64, undo: bool) -> bool {
    &&& p.id@.len() == 36
    &&& p.image_id == m.image_id
    &&& p.from_relative_path == if undo { m.to_relative_path } else { m.from_relative_path }
    &&& p.to_relative_path == if undo { m.from_relative_path } else { m.to_relative_path }
    &&& p.target_status == if undo { m.from_status } else { m.to_status }
    &&& p.operation == m
    &&& p.history_sequence == Some(sequence)
    &&& p.desired_applied == Some(!undo)
}

/// The entry an undo replays (the last applied one) or a redo replays (the first undone one).
pub open spec fn replay_index(h: Seq<HistoryEntry>, undo: bool) -> int {
    if undo {
        applied_len(h) - 1
    } else {
        applied_len(h)
    }
}

/// What an undo (`undo`) or a redo did, from `old` to `new`, when it returned `r`: nothing where
/// there is nothing to replay; an image move to make; a classification move to make, or its labels
/// written; an annotation edit reverted or applied again.
pub open spec fn replayed(old: ProjectData, new: ProjectData, r: Result<HistoryAction, String>, undo: bool, now: i64) -> bool {
            let h = old.history@;
            let k = replay_index(h, undo);
            if !(0 <= k < h.len()) {
                r matches Ok(HistoryAction::Nothing) && new == old
            } else {
                match h[k].operation {
                    Operation::ImageMove(m) => r matches Ok(HistoryAction::MoveImage(p)) && new
                        == old && replayed_move(p, m, h[k].sequence, undo),
                    Operation::Classification(c) => {
                        let from = if undo { c.to_relative_path@ } else { c.from_relative_path@ };
                        let to = if undo { c.from_relative_path@ } else { c.to_relative_path@ };
                        let ids = if undo { c.before_class_ids@ } else { c.after_class_ids@ };
                        &&& from != to ==> (r matches Ok(HistoryAction::MoveClassified(p)) && new == old
                            && p.history_sequence == Some(h[k].sequence) && p.desired_applied == Some(!undo)
                            && p.operation.image_id@ == c.image_id@
                            && p.operation.from_relative_path@ == from && p.operation.to_relative_path@ == to
                            && crate::classification::texts(p.target_class_ids@) == crate::classification::texts(ids))
                        &&& from == to ==> (r matches Ok(HistoryAction::Applied(id)) && crate::detection::opt_view(id) == Some(c.image_id@)
                            && new.history@ == h.update(k, HistoryEntry { applied: !undo, ..h[k] })
                            && crate::classification::link_views(new.image_classes@) == crate::classification::relabeled_links(
                                old.image_classes@,
                                c.image_id@,
                                crate::classification::texts(ids),
                                now,
                            )
                            && crate::classification::refiled_images(old.images@, new.images@, c.image_id@, to,
                                crate::detection::opt_view(c.original_relative_path), now)
                            && new.classes == old.classes && new.annotations == old.annotations && new.drafts == old.drafts
                            && new.active_class_id == old.active_class_id)
                    },
                    _ => {
                        let (kind, before, after) = crate::detection::annotation_parts(h[k].operation)->0;
                        let desired = if undo { before } else { after };
                        let removed = if undo { after } else { before };
                        &&& r is Ok <==> crate::detection::refs_ok(&old, desired)
                        &&& r matches Ok(a) ==> {
                            &&& a matches HistoryAction::Applied(id) && crate::detection::opt_view(id) == affected_image(h[k].operation)
                            &&& new.annotations@ == crate::detection::upsert_all(
                                crate::detection::remove_all(old.annotations@, removed),
                                desired,
                                kind,
                            )
                            &&& new.history@ == h.update(k, HistoryEntry { applied: !undo, ..h[k] })
                            &&& new.next_sequence == old.next_sequence
                            &&& crate::detection::touched(&old, &new, now)
                            &&& new.classes == old.classes
                            &&& new.images == old.images
                            &&& new.image_classes == old.image_classes
                            &&& new.drafts == old.drafts
                            &&& new.active_class_id == old.active_class_id
                        }
                    },
                }
            }
        }

fn apply_history(data: &mut ProjectData, undo: bool, now: i64) -> (r: Result<HistoryAction, String>)
    requires
        old(data).wf(),
    ensures
        final(data).wf(),
        r is Err ==> *final(data) == *old(data),
        replayed(*old(data), *final(data), r, undo, now),
{
    proof {
        lemma_applied_len(data.history@, data.next_sequence);
    }
    let k = applied_count(data);
    let index = if undo {
        if k == 0 {
            return Ok(HistoryAction::Nothing);
        }
        k - 1
    } else {
        if k == data.history.len() {
            return Ok(HistoryAction::Nothing);
        }
        k
    };
    let sequence = data.history[index].sequence;
    match &data.history[index].operation {
        Operation::ImageMove(m) => {
            let (from, to, target) = if undo {
                (m.to_relative_path.clone(), m.from_relative_path.clone(), m.from_status)
            } else {
                (m.from_relative_path.clone(), m.to_relative_path.clone(), m.to_status)
            };
            Ok(HistoryAction::MoveImage(PendingMove {
                id: crate::project::new_id(),
                image_id: m.image_id.clone(),
                from_relative_path: from,
                to_relative_path: to,
                target_status: target,
                operation: m.duplicate(),
                history_sequence: Some(sequence),
                desired_applied: Some(!undo),
            }))
        },
        Operation::Classification(c) => {
            let op = crate::classification::copy_operation(c);
            let image = c.image_id.clone();
            let ghost h = data.history@;
            proof {
                lemma_sequence_index_unique(h, data.next_sequence, index as int);
            }
            match crate::classification::apply_history(data, &op, sequence, undo, now) {
                Err(e) => Err(e),
                Ok(crate::classification::ReplayStep::Done) => Ok(HistoryAction::Applied(Some(image))),
                Ok(crate::classification::ReplayStep::Move(p)) => Ok(HistoryAction::MoveClassified(p)),
            }
        },
        Operation::Annotation(c) => {
            let image = change_image_exec(c);
            match crate::detection::apply_annotation_history(data, index, undo, now) {
                Err(e) => Err(e),
                Ok(()) => Ok(HistoryAction::Applied(image)),
            }
        },
        Operation::PolygonAnnotation(c) => {
            let image = change_image_exec(c);
            match crate::detection::apply_annotation_history(data, index, undo, now) {
                Err(e) => Err(e),
                Ok(()) => Ok(HistoryAction::Applied(image)),
            }
        },
    }
}

/// Under increasing sequences, the entry found for the sequence of entry `k` is entry `k`.
proof fn lemma_sequence_index_unique(h: Seq<HistoryEntry>, next: i64, k: int)
    requires
        crate::project::history_wf(h, next),
        0 <= k < h.len(),
    ensures
        sequence_index(h, h[k].sequence) == k,
    decreases h.len(),
{
    if k < h.len() - 1 {
        assert(h.last().sequence != h[k].sequence) by {
            assert(h[k].sequence < h[h.len() - 1].sequence);
        }
        let d = h.drop_last();
        assert(crate::project::history_wf(d, next));
        assert(d[k] == h[k]);
        lemma_sequence_index_unique(d, next, k);
    }
}

/// Undoes the last applied operation.
pub fn undo(data: &mut ProjectData, now: i64) -> (r: Result<HistoryAction, String>)
    requires
        old(data).wf(),
    ensures
        final(data).wf(),
        r is Err ==> *final(data) == *old(data),
        replayed(*old(data), *final(data), r, true, now),
{
    apply_history(data, true, now)
}

/// Redoes the first undone operation.
pub fn redo(data: &mut ProjectData, now: i64) -> (r: Result<HistoryAction, String>)
    requires
        old(data).wf(),
    ensures
        final(data).wf(),
        r is Err ==> *final(data) == *old(data),
        replayed(*old(data), *final(data), r, false, now),
{
    apply_history(data, false, now)
}


/// A new operation is the one an undo replays; once undone it is the one a redo replays, and the
/// redo gives back the history the operation left.
pub proof fn law_undo_redo_history(h: Seq<HistoryEntry>, next: i64, op: Operation)
    requires
        crate::project::history_wf(h, next),
    ensures
        ({
            let h1 = recorded(h, next, op);
            let k = replay_index(h1, true);
            let h2 = h1.update(k, HistoryEntry { applied: false, ..h1[k] });
            &&& 0 <= k < h1.len()
            &&& h1[k].operation == op
            &&& h1[k].sequence == next
            &&& replay_index(h2, false) == k
            &&& h2.update(k, HistoryEntry { applied: true, ..h2[k] }) == h1
        }),
{
    lemma_applied_len(h, next);
    let a = applied_len(h);
    let h1 = recorded(h, next, op);
    assert(h1.last().applied);
    assert(applied_len(h1) == h1.len());
    let k = replay_index(h1, true);
    assert(k == a);
    let h2 = h1.update(k, HistoryEntry { applied: false, ..h1[k] });
    assert(!h2.last().applied);
    assert(h2.drop_last() =~= h.take(a));
    if a > 0 {
        assert(h.take(a).last() == h[a - 1]);
        assert(h[a - 1].applied);
        assert(applied_len(h.take(a)) == a);
    } else {
        assert(applied_len(h.take(a)) == 0);
    }
    assert(applied_len(h2) == k);
    assert(h2.update(k, HistoryEntry { applied: true, ..h2[k] }) =~= h1);
}

/// The applied flags read applied entries, then undone ones, and every step keeps them so: an undo
/// clears the flag of the last applied entry (all after it are undone), a redo sets the flag of the
/// first undone entry (all before it are applied), and a new operation drops every undone entry
/// and is appended as applied.
pub proof fn law_history_flags(h: Seq<HistoryEntry>, next: i64, op: Operation)
    requires
        crate::project::history_wf(h, next),
    ensures
        ({
            let u = replay_index(h, true);
            0 <= u ==> {
                &&& u < h.len() && h[u].applied
                &&& forall|j: int| u < j < h.len() ==> !(#[trigger] h[j]).applied
                &&& crate::project::history_wf(h.update(u, HistoryEntry { applied: false, ..h[u] }), next)
            }
        }),
        ({
            let d = replay_index(h, false);
            d < h.len() ==> {
                &&& 0 <= d && !h[d].applied
                &&& forall|j: int| 0 <= j < d ==> (#[trigger] h[j]).applied
                &&& crate::project::history_wf(h.update(d, HistoryEntry { applied: true, ..h[d] }), next)
            }
        }),
        recorded(h, next, op) == h.filter(|e: HistoryEntry| e.applied).push(
            HistoryEntry { sequence: next, operation: op, applied: true },
        ),
        next < i64::MAX ==> crate::project::history_wf(recorded(h, next, op), (next + 1) as i64),
{
    lemma_applied_len(h, next);
    let a = applied_len(h);
    let u = a - 1;
    if 0 <= u {
        let n = h.update(u, HistoryEntry { applied: false, ..h[u] });
        assert forall|i: int, j: int| 0 <= i < j < n.len() && n[j].applied implies n[i].applied by {
            assert(h[j].applied);
        }
    }
    if a < h.len() {
        let n = h.update(a, HistoryEntry { applied: true, ..h[a] });
        assert forall|i: int, j: int| 0 <= i < j < n.len() && n[j].applied implies n[i].applied by {
            if j != a {
                assert(h[j].applied);
            }
        }
    }
    let pred = |e: HistoryEntry| e.applied;
    assert(h.take(a) =~= h.filter(pred)) by {
        lemma_applied_prefix_filter(h, next);
    }
    let r = recorded(h, next, op);
    if next < i64::MAX {
        assert forall|i: int, j: int| 0 <= i < j < r.len() implies r[i].sequence < r[j].sequence by {
            if j < r.len() - 1 {
                assert(r[i] == h[i] && r[j] == h[j]);
            } else {
                assert(r[i] == h[i]);
            }
        }
        assert forall|i: int| 0 <= i < r.len() implies #[trigger] r[i].sequence < next + 1 by {
            if i < r.len() - 1 {
                assert(r[i] == h[i]);
            }
        }
        assert forall|i: int, j: int| 0 <= i < j < r.len() && r[j].applied implies r[i].applied by {
            assert(r[i] == h[i]);
        }
    }
}

/// Under `history_wf`, the applied entries are the first `applied_len` ones.
proof fn lemma_applied_prefix_filter(h: Seq<HistoryEntry>, next: i64)
    requires
        crate::project::history_wf(h, next),
    ensures
        h.filter(|e: HistoryEntry| e.applied) == h.take(applied_len(h)),
    decreases h.len(),
{
    let pred = |e: HistoryEntry| e.applied;
    if h.len() > 0 {
        let d = h.drop_last();
        assert(crate::project::history_wf(d, next));
        lemma_applied_prefix_filter(d, next);
        crate::detection::lemma_filter_push(d, h.last(), pred);
        assert(d.push(h.last()) =~= h);
        lemma_applied_len(h, next);
        lemma_applied_len(d, next);
        if h.last().applied {
            assert(applied_len(d) == d.len()) by {
                assert forall|i: int| 0 <= i < d.len() implies #[trigger] d[i].applied by {
                    assert(d[i] == h[i]);
                }
                if applied_len(d) < d.len() {
                    assert(!d[applied_len(d)].applied);
                }
            }
            assert(d.take(d.len() as int) =~= d);
            assert(h.take(h.len() as int) =~= h);
        } else {
            assert(d.take(applied_len(d)) =~= h.take(applied_len(h)));
        }
    } else {
        assert(h.filter(pred) =~= h.take(0));
    }
}

/// Undo then redo gives back what the undo took away, for every kind of entry: the undo clears the
/// flag of the last applied entry, the redo then replays that same entry forwards and sets its flag
/// again, giving back the history; an image move ends where the redo puts it whatever the undo
/// did; a relabeling gives the labels the operation gave; an annotation edit gives every id the row
/// the edit gave it.
pub proof fn law_undo_then_redo(h: Seq<HistoryEntry>, next: i64)
    requires
        crate::project::history_wf(h, next),
        0 <= replay_index(h, true),
    ensures
        ({
            let k = replay_index(h, true);
            let h2 = h.update(k, HistoryEntry { applied: false, ..h[k] });
            &&& crate::project::history_wf(h2, next)
            &&& replay_index(h2, false) == k
            &&& h2[k].operation == h[k].operation
            &&& h2[k].sequence == h[k].sequence
            &&& h2.update(k, HistoryEntry { applied: true, ..h2[k] }) == h
            &&& match h[k].operation {
                Operation::ImageMove(m) => forall|r: ImageRow, p: PendingMove, q: PendingMove, t1: i64, t2: i64|
                    replayed_move(p, m, h[k].sequence, true) && replayed_move(q, m, h[k].sequence, false)
                        ==> #[trigger] moved_row(moved_row(r, p, t1), q, t2) == moved_row(r, q, t2)
                        && q.target_status == m.to_status && q.to_relative_path == m.to_relative_path,
                Operation::Classification(c) => forall|links: Seq<crate::project::ImageClassRow>,
                    undone: Seq<crate::project::ImageClassRow>, t1: i64, t2: i64|
                    crate::classification::link_views(undone) == #[trigger] crate::classification::relabeled_links(
                        links,
                        c.image_id@,
                        crate::classification::texts(c.before_class_ids@),
                        t1,
                    ) ==> #[trigger] crate::classification::relabeled_links(
                        undone,
                        c.image_id@,
                        crate::classification::texts(c.after_class_ids@),
                        t2,
                    ) == crate::classification::relabeled_links(
                        links,
                        c.image_id@,
                        crate::classification::texts(c.after_class_ids@),
                        t2,
                    ),
                _ => {
                    let (kind, before, after) = crate::detection::annotation_parts(h[k].operation)->0;
                    forall|anns: Seq<AnnotationRow>, x: Seq<char>|
                        crate::detection::annotations_unique(anns) && crate::detection::rows_unique(before)
                            && crate::detection::rows_unique(after) && crate::detection::rows_present(anns, before, kind)
                            && crate::detection::rows_fresh(anns, before, after) ==> #[trigger] crate::detection::ann_lookup(
                            crate::detection::edited(
                                crate::detection::edited(crate::detection::edited(anns, before, after, kind), after, before, kind),
                                before,
                                after,
                                kind,
                            ),
                            x,
                        ) == crate::detection::ann_lookup(crate::detection::edited(anns, before, after, kind), x)
                },
            }
        }),
{
    lemma_applied_len(h, next);
    let k = replay_index(h, true);
    let h2 = h.update(k, HistoryEntry { applied: false, ..h[k] });
    law_history_flags(h, next, h[k].operation);
    assert(crate::project::history_wf(h2, next));
    lemma_applied_len(h2, next);
    assert(!h2[k].applied);
    if applied_len(h2) != k {
        if applied_len(h2) < k {
            assert(h[applied_len(h2)].applied);
            assert(h2[applied_len(h2)] == h[applied_len(h2)]);
        } else {
            assert(h2[k].applied);
        }
    }
    assert(h2.update(k, HistoryEntry { applied: true, ..h2[k] }) =~= h);
    match h[k].operation {
        Operation::ImageMove(m) => {},
        Operation::Classification(c) => {
            assert forall|links: Seq<crate::project::ImageClassRow>,
                undone: Seq<crate::project::ImageClassRow>, t1: i64, t2: i64|
                crate::classification::link_views(undone) == #[trigger] crate::classification::relabeled_links(
                    links,
                    c.image_id@,
                    crate::classification::texts(c.before_class_ids@),
                    t1,
                ) implies #[trigger] crate::classification::relabeled_links(
                    undone,
                    c.image_id@,
                    crate::classification::texts(c.after_class_ids@),
                    t2,
                ) == crate::classification::relabeled_links(
                    links,
                    c.image_id@,
                    crate::classification::texts(c.after_class_ids@),
                    t2,
                ) by {
                crate::classification::lemma_relabel_twice(
                    links,
                    undone,
                    c.image_id@,
                    crate::classification::texts(c.before_class_ids@),
                    crate::classification::texts(c.after_class_ids@),
                    t1,
                    t2,
                );
            }
        },
        _ => {
            let (kind, before, after) = crate::detection::annotation_parts(h[k].operation)->0;
            assert forall|anns: Seq<AnnotationRow>, x: Seq<char>|
                crate::detection::annotations_unique(anns) && crate::detection::rows_unique(before)
                    && crate::detection::rows_unique(after) && crate::detection::rows_present(anns, before, kind)
                    && crate::detection::rows_fresh(anns, before, after) implies #[trigger] crate::detection::ann_lookup(
                    crate::detection::edited(
                        crate::detection::edited(crate::detection::edited(anns, before, after, kind), after, before, kind),
                        before,
                        after,
                        kind,
                    ),
                    x,
                ) == crate::detection::ann_lookup(crate::detection::edited(anns, before, after, kind), x) by {
                crate::detection::law_redo_reapplies_annotations(anns, before, after, kind, x);
            }
        },
    }
}

/// There is something to undo exactly when some entry is applied, and something to redo exactly
/// when some entry is undone.
pub proof fn law_history_state(h: Seq<HistoryEntry>, next: i64)
    requires
        crate::project::history_wf(h, next),
    ensures
        (exists|i: int| 0 <= i < h.len() && (#[trigger] h[i]).applied) <==> 0 <= replay_index(h, true),
        (exists|i: int| 0 <= i < h.len() && !(#[trigger] h[i]).applied) <==> replay_index(h, false) < h.len(),
{
    lemma_applied_len(h, next);
    if applied_len(h) > 0 {
        assert(h[0].applied);
    }
    if applied_len(h) < h.len() {
        assert(!h[applied_len(h)].applied);
    }
}

/// Undoing the deletion of an active image makes it active again at its path, with no deleted
/// path.
pub proof fn law_undo_delete_restores_image(row: ImageRow, delete: PendingMove, undo: PendingMove, t1: i64, t2: i64)
    requires
        row.status == ImageStatus::Active,
        delete.target_status == ImageStatus::Deleted,
        delete.operation.from_status == ImageStatus::Active,
        replayed_move(undo, delete.operation, undo.history_sequence->0, true),
    ensures
        moved_row(moved_row(row, delete, t1), undo, t2).status == ImageStatus::Active,
        moved_row(moved_row(row, delete, t1), undo, t2).deleted_relative_path is None,
        moved_row(moved_row(row, delete, t1), undo, t2).relative_path == row.relative_path,
        moved_row(moved_row(row, delete, t1), undo, t2).id == row.id,
{
}


/// What reopening a project does with a journaled file move, by which of its two paths exist.
#[derive(Clone, Copy, Debug, PartialEq, Eq, Structural)]
pub enum RecoveryStep {
    /// The file never moved: the journal entry is dropped.
    Discard,
    /// The file moved but the project was not updated: the move is finalized.
    Finalize,
}

/// The message that stops recovery of a journaled move from `source` to `destination`, where both
/// exist (`both`) or neither does; a classification move says so.
pub open spec fn recovery_message(classification: bool, both: bool, source: Seq<char>, destination: Seq<char>) -> Seq<char> {
    let lead = if classification { "Classification recovery stopped because "@ } else { "Recovery stopped because "@ };
    if both {
        lead + "both "@ + source + " and "@ + destination + " exist."@
    } else {
        lead + "neither "@ + source + " nor "@ + destination + " exists."@
    }
}

/// The step for a journaled move from `source` to `destination` (as the file system shows them),
/// by which of the two exist; recovery stops, naming both, where both or neither exist.
pub fn recovery_step(classification: bool, source: &str, destination: &str, source_exists: bool, destination_exists: bool) -> (r: Result<RecoveryStep, String>)
    ensures
        match r {
            Ok(RecoveryStep::Discard) => source_exists && !destination_exists,
            Ok(RecoveryStep::Finalize) => !source_exists && destination_exists,
            Err(m) => source_exists == destination_exists
                && m@ == recovery_message(classification, source_exists, source@, destination@),
        },
{
    if source_exists && !destination_exists {
        return Ok(RecoveryStep::Discard);
    } else if !source_exists && destination_exists {
        return Ok(RecoveryStep::Finalize);
    }
    let mut m = if classification {
        owned("Classification recovery stopped because ")
    } else {
        owned("Recovery stopped because ")
    };
    if source_exists {
        crate::text::push_all(&mut m, "both ");
        crate::text::push_all(&mut m, source);
        crate::text::push_all(&mut m, " and ");
        crate::text::push_all(&mut m, destination);
        crate::text::push_all(&mut m, " exist.");
    } else {
        crate::text::push_all(&mut m, "neither ");
        crate::text::push_all(&mut m, source);
        crate::text::push_all(&mut m, " nor ");
        crate::text::push_all(&mut m, destination);
        crate::text::push_all(&mut m, " exists.");
    }
    Err(m)
}

/// Remembers `image_id` as the image the workspace shows.
pub fn set_current_image(data: &mut ProjectData, image_id: &str, now: i64) -> (r: Result<(), String>)
    requires
        old(data).wf(),
    ensures
        final(data).wf(),
        r is Ok <==> crate::project::has_image(old(data).images@, image_id@),
        r is Err ==> *final(data) == *old(data),
        r is Ok ==> {
            &&& crate::detection::opt_view(final(data).project.last_image_id) == Some(image_id@)
            &&& final(data).project.updated_at_ms == now
            &&& final(data).project.id == old(data).project.id
            &&& final(data).project.name == old(data).project.name
            &&& final(data).project.task_type == old(data).project.task_type
            &&& final(data).project.classification_mode == old(data).project.classification_mode
            &&& final(data).project.root_path == old(data).project.root_path
            &&& final(data).project.created_at_ms == old(data).project.created_at_ms
            &&& same_except_project(old(data), final(data))
        },
{
    if crate::project::find_image(&data.images, image_id).is_none() {
        return Err(owned("The current image is no longer in this project."));
    }
    data.project.last_image_id = Some(owned(image_id));
    data.project.updated_at_ms = now;
    Ok(())
}

/// Every table but the project row.
pub open spec fn same_except_project(a: &ProjectData, b: &ProjectData) -> bool {
    &&& a.classes == b.classes
    &&& a.images == b.images
    &&& a.image_classes == b.image_classes
    &&& a.annotations == b.annotations
    &&& a.drafts == b.drafts
    &&& a.active_class_id == b.active_class_id
    &&& a.history == b.history
    &&& a.next_sequence == b.next_sequence
}

} // verus!
