//! The project database as plain values: one struct per table row, and the whole project.
use vstd::prelude::*;
use crate::detection::{AnnotationRow, ClassRecord};
use crate::workspace::HistoryEntry;
use base64::Engine;

verus! {

/// The task of a project.
#[derive(Clone, Copy, Debug, PartialEq, Eq, Structural)]
pub enum TaskType {
    Detection,
    Segmentation,
    Classification,
}

/// How many classes an image of a classification project may carry.
#[derive(Clone, Copy, Debug, PartialEq, Eq, Structural)]
pub enum ClassificationMode {
    Single,
    Multi,
}

/// Whether an indexed image is on disk, gone, or moved into `deleted/`.
#[derive(Clone, Copy, Debug, PartialEq, Eq, Structural)]
pub enum ImageStatus {
    Active,
    Missing,
    Deleted,
}

/// The row of the `project` table.
pub struct ProjectRecord {
    pub id: String,
    pub name: String,
    pub task_type: TaskType,
    pub classification_mode: Option<ClassificationMode>,
    pub root_path: String,
    pub created_at_ms: i64,
    pub updated_at_ms: i64,
    pub last_image_id: Option<String>,
}

/// A row of the `images` table.
pub struct ImageRow {
    pub id: String,
    pub relative_path: String,
    pub file_name: String,
    pub width: u32,
    pub height: u32,
    pub byte_size: i64,
    pub modified_at_ms: i64,
    pub status: ImageStatus,
    pub sort_order: i64,
    pub orientation: u16,
    pub deleted_relative_path: Option<String>,
    pub classification_original_path: Option<String>,
    pub created_at_ms: i64,
    pub updated_at_ms: i64,
}

/// A row of the `image_classes` table: one class given to one image.
pub struct ImageClassRow {
    pub image_id: String,
    pub class_id: String,
    pub created_at_ms: i64,
}

/// A row of the `drafts` table; `class_id` is the `classId` its payload names.
pub struct DraftRow {
    pub image_id: String,
    pub kind: crate::detection::AnnotationKind,
    pub class_id: Option<String>,
    pub payload_json: String,
}

/// The whole project database.
pub struct ProjectData {
    pub project: ProjectRecord,
    /// Ordered by position.
    pub classes: Vec<ClassRecord>,
    pub images: Vec<ImageRow>,
    pub image_classes: Vec<ImageClassRow>,
    pub annotations: Vec<AnnotationRow>,
    pub drafts: Vec<DraftRow>,
    /// The `active_class_id` setting.
    pub active_class_id: Option<String>,
    /// The operation history, ordered by sequence.
    pub history: Vec<HistoryEntry>,
    /// The sequence the next history entry receives.
    pub next_sequence: i64,
}

/// The summary of a project that the workspace shows.
#[derive(Debug, Clone, PartialEq)]
pub struct ProjectSummary {
    pub id: String,
    pub name: String,
    pub task_type: String,
    pub classification_mode: Option<String>,
    pub root_path: String,
    pub created_at_ms: i64,
    pub updated_at_ms: i64,
    pub image_count: i64,
    pub missing_image_count: i64,
    pub deleted_image_count: i64,
    pub last_image_id: Option<String>,
}

/// An image as the image list shows it.
#[derive(Debug, Clone)]
pub struct ImageRecord {
    pub id: String,
    pub relative_path: String,
    pub file_name: String,
    pub width: u32,
    pub height: u32,
    pub status: String,
    pub orientation: u16,
}

/// Classes sit at positions 0, 1, ... in order, with distinct ids.
pub open spec fn classes_wf(classes: Seq<ClassRecord>) -> bool {
    &&& forall|i: int| 0 <= i < classes.len() ==> #[trigger] classes[i].position == i
    &&& forall|i: int, j: int|
        0 <= i < classes.len() && 0 <= j < classes.len() && i != j ==> classes[i].id@
            != classes[j].id@
}

/// Image ids are distinct.
pub open spec fn images_wf(images: Seq<ImageRow>) -> bool {
    forall|i: int, j: int|
        0 <= i < images.len() && 0 <= j < images.len() && i != j ==> images[i].id@
            != images[j].id@
}

/// Annotation ids are distinct.
pub open spec fn annotations_wf(annotations: Seq<AnnotationRow>) -> bool {
    forall|i: int, j: int|
        0 <= i < annotations.len() && 0 <= j < annotations.len() && i != j
            ==> annotations[i].id@ != annotations[j].id@
}

/// History entries have increasing sequences below `next`, and every applied entry comes
/// before every entry that was undone.
pub open spec fn history_wf(history: Seq<HistoryEntry>, next: i64) -> bool {
    &&& forall|i: int, j: int|
        0 <= i < j < history.len() ==> history[i].sequence < history[j].sequence
    &&& forall|i: int| 0 <= i < history.len() ==> #[trigger] history[i].sequence < next
    &&& forall|i: int, j: int|
        0 <= i < j < history.len() && history[j].applied ==> history[i].applied
}

impl ProjectData {
    /// The invariants that every operation keeps.
    pub open spec fn wf(&self) -> bool {
        &&& classes_wf(self.classes@)
        &&& images_wf(self.images@)
        &&& annotations_wf(self.annotations@)
        &&& history_wf(self.history@, self.next_sequence)
    }
}

fn distinct_image_ids(images: &Vec<ImageRow>) -> (r: bool)
    ensures
        r == images_wf(images@),
{
    for i in 0..images.len()
        invariant
            forall|a: int, b: int| 0 <= a < i && 0 <= b < i && a != b ==> images@[a].id@ != images@[b].id@,
    {
        for j in 0..i
            invariant
                i < images.len(),
                forall|b: int| 0 <= b < j ==> images@[b].id@ != images@[i as int].id@,
        {
            if images[j].id == images[i].id {
                assert(images@[j as int].id@ == images@[i as int].id@);
                return false;
            }
        }
    }
    true
}

fn distinct_annotation_ids(annotations: &Vec<AnnotationRow>) -> (r: bool)
    ensures
        r == annotations_wf(annotations@),
{
    for i in 0..annotations.len()
        invariant
            forall|a: int, b: int| 0 <= a < i && 0 <= b < i && a != b ==> annotations@[a].id@ != annotations@[b].id@,
    {
        for j in 0..i
            invariant
                i < annotations.len(),
                forall|b: int| 0 <= b < j ==> annotations@[b].id@ != annotations@[i as int].id@,
        {
            if annotations[j].id == annotations[i].id {
                assert(annotations@[j as int].id@ == annotations@[i as int].id@);
                return false;
            }
        }
    }
    true
}

fn classes_in_order(classes: &Vec<ClassRecord>) -> (r: bool)
    ensures
        r == classes_wf(classes@),
{
    for i in 0..classes.len()
        invariant
            forall|a: int| 0 <= a < i ==> #[trigger] classes@[a].position == a,
            forall|a: int, b: int| 0 <= a < i && 0 <= b < i && a != b ==> classes@[a].id@ != classes@[b].id@,
    {
        if classes[i].position < 0 || classes[i].position as u64 != i as u64 {
            return false;
        }
        for j in 0..i
            invariant
                i < classes.len(),
                forall|b: int| 0 <= b < j ==> classes@[b].id@ != classes@[i as int].id@,
        {
            if classes[j].id == classes[i].id {
                assert(classes@[j as int].id@ == classes@[i as int].id@);
                return false;
            }
        }
    }
    true
}

fn history_in_order(history: &Vec<HistoryEntry>, next: i64) -> (r: bool)
    ensures
        r == history_wf(history@, next),
{
    let mut undone_seen = false;
    for i in 0..history.len()
        invariant
            forall|a: int, b: int| 0 <= a < b < i ==> history@[a].sequence < history@[b].sequence,
            forall|a: int| 0 <= a < i ==> #[trigger] history@[a].sequence < next,
            forall|a: int, b: int| 0 <= a < b < i && history@[b].applied ==> history@[a].applied,
            undone_seen == exists|a: int| 0 <= a < i && !(#[trigger] history@[a].applied),
    {
        if history[i].sequence >= next {
            return false;
        }
        if i > 0 && history[i - 1].sequence >= history[i].sequence {
            assert(!(history@[i - 1].sequence < history@[i as int].sequence));
            return false;
        }
        if undone_seen && history[i].applied {
            let ghost a = choose|a: int| 0 <= a < i && !(#[trigger] history@[a].applied);
            assert(!(history@[a].applied) && history@[i as int].applied);
            return false;
        }
        if !history[i].applied {
            undone_seen = true;
        }
    }
    true
}

/// Whether the data read from a project database keeps the invariants of this library.
pub fn is_well_formed(data: &ProjectData) -> (r: bool)
    ensures
        r == data.wf(),
{
    classes_in_order(&data.classes) && distinct_image_ids(&data.images) && distinct_annotation_ids(&data.annotations)
        && history_in_order(&data.history, data.next_sequence)
}

/// Calls `uuid::Uuid::new_v4` and formats it with `to_string`, the hyphenated lower-case form:
/// 36 characters, lower-case hexadecimal digits with `-` at positions 8, 13, 18 and 23. The
/// digits are random, so nothing more is stated of them.
#[verifier::external_body]
pub(crate) fn new_id() -> (r: String)
    ensures
        r@.len() == 36,
        forall|i: int| 0 <= i < 36 ==> if i == 8 || i == 13 || i == 18 || i == 23 {
            #[trigger] r@[i] == '-'
        } else {
            ('0' <= r@[i] <= '9') || ('a' <= r@[i] <= 'f')
        },
{
    uuid::Uuid::new_v4().to_string()
}


/// Whether an image with id `id` is indexed.
pub open spec fn has_image(images: Seq<ImageRow>, id: Seq<char>) -> bool {
    exists|i: int| 0 <= i < images.len() && (#[trigger] images[i]).id@ == id
}

/// The index of the image with id `id`.
pub fn find_image(images: &Vec<ImageRow>, id: &str) -> (r: Option<usize>)
    ensures
        match r {
            Some(i) => i < images.len() && images@[i as int].id@ == id@,
            None => !has_image(images@, id@),
        },
{
    let key = crate::text::owned(id);
    for i in 0..images.len()
        invariant
            key@ == id@,
            forall|k: int| 0 <= k < i ==> images@[k].id@ != id@,
    {
        if images[i].id == key {
            return Some(i);
        }
    }
    None
}


/// Whether an image with id `id` is indexed with status `status`.
pub open spec fn has_image_with_status(images: Seq<ImageRow>, id: Seq<char>, status: ImageStatus) -> bool {
    exists|i: int| 0 <= i < images.len() && (#[trigger] images[i]).id@ == id && images[i].status == status
}

/// The index of the image with id `id`, where there is one.
pub open spec fn image_index(images: Seq<ImageRow>, id: Seq<char>) -> int {
    choose|i: int| 0 <= i < images.len() && (#[trigger] images[i]).id@ == id
}

/// The images with status `status`.
pub open spec fn status_count(images: Seq<ImageRow>, status: ImageStatus) -> int
    decreases images.len(),
{
    if images.len() == 0 {
        0
    } else {
        status_count(images.drop_last(), status) + if images.last().status == status {
            1int
        } else {
            0int
        }
    }
}

proof fn lemma_status_count_bound(images: Seq<ImageRow>, status: ImageStatus)
    ensures
        0 <= status_count(images, status) <= images.len(),
    decreases images.len(),
{
    if images.len() > 0 {
        lemma_status_count_bound(images.drop_last(), status);
    }
}

/// How many images have status `status`.
pub fn count_status(images: &Vec<ImageRow>, status: ImageStatus) -> (r: usize)
    ensures
        r == status_count(images@, status),
{
    let mut n: usize = 0;
    for i in 0..images.len()
        invariant
            n == status_count(images@.take(i as int), status),
            n <= i,
    {
        assert(images@.take(i + 1).drop_last() =~= images@.take(i as int));
        if images[i].status == status {
            n = n + 1;
        }
    }
    assert(images@.take(images.len() as int) =~= images@);
    n
}

/// The stored name of a task.
pub open spec fn task_type_name(t: TaskType) -> Seq<char> {
    match t {
        TaskType::Detection => seq!['d', 'e', 't', 'e', 'c', 't', 'i', 'o', 'n'],
        TaskType::Segmentation => seq!['s', 'e', 'g', 'm', 'e', 'n', 't', 'a', 't', 'i', 'o', 'n'],
        TaskType::Classification => seq![
            'c', 'l', 'a', 's', 's', 'i', 'f', 'i', 'c', 'a', 't', 'i', 'o', 'n'
        ],
    }
}

/// The stored name of a classification mode.
pub open spec fn mode_name(m: ClassificationMode) -> Seq<char> {
    match m {
        ClassificationMode::Single => seq!['s', 'i', 'n', 'g', 'l', 'e'],
        ClassificationMode::Multi => seq!['m', 'u', 'l', 't', 'i'],
    }
}

fn chars_to_string(v: Vec<char>) -> (r: String)
    ensures
        r@ == v@,
{
    crate::text::string_of(&v)
}

/// The stored name of a task.
pub fn task_type_text(t: TaskType) -> (r: String)
    ensures
        r@ == task_type_name(t),
{
    let v: Vec<char> = match t {
        TaskType::Detection => vec!['d', 'e', 't', 'e', 'c', 't', 'i', 'o', 'n'],
        TaskType::Segmentation => vec!['s', 'e', 'g', 'm', 'e', 'n', 't', 'a', 't', 'i', 'o', 'n'],
        TaskType::Classification => vec![
            'c', 'l', 'a', 's', 's', 'i', 'f', 'i', 'c', 'a', 't', 'i', 'o', 'n'
        ],
    };
    assert(v@ =~= task_type_name(t));
    chars_to_string(v)
}

/// The stored name of a classification mode.
pub fn mode_text(m: ClassificationMode) -> (r: String)
    ensures
        r@ == mode_name(m),
{
    let v: Vec<char> = match m {
        ClassificationMode::Single => vec!['s', 'i', 'n', 'g', 'l', 'e'],
        ClassificationMode::Multi => vec!['m', 'u', 'l', 't', 'i'],
    };
    assert(v@ =~= mode_name(m));
    chars_to_string(v)
}

/// The project row and how many images are active, missing and deleted.
pub fn summary(data: &ProjectData) -> (r: Result<ProjectSummary, String>)
    requires
        data.images.len() <= i64::MAX,
    ensures
        r matches Ok(s) && {
            &&& s.id == data.project.id
            &&& s.name == data.project.name
            &&& s.task_type@ == task_type_name(data.project.task_type)
            &&& crate::detection::opt_view(s.classification_mode) == match data.project.classification_mode {
                Some(m) => Some(mode_name(m)),
                None => None,
            }
            &&& s.root_path == data.project.root_path
            &&& s.created_at_ms == data.project.created_at_ms
            &&& s.updated_at_ms == data.project.updated_at_ms
            &&& s.image_count == status_count(data.images@, ImageStatus::Active)
            &&& s.missing_image_count == status_count(data.images@, ImageStatus::Missing)
            &&& s.deleted_image_count == status_count(data.images@, ImageStatus::Deleted)
            &&& s.last_image_id == data.project.last_image_id
        },
{
    proof {
        lemma_status_count_bound(data.images@, ImageStatus::Active);
        lemma_status_count_bound(data.images@, ImageStatus::Missing);
        lemma_status_count_bound(data.images@, ImageStatus::Deleted);
    }
    let active = count_status(&data.images, ImageStatus::Active);
    let missing = count_status(&data.images, ImageStatus::Missing);
    let deleted = count_status(&data.images, ImageStatus::Deleted);
    let mode = match data.project.classification_mode {
        Some(m) => Some(mode_text(m)),
        None => None,
    };
    Ok(ProjectSummary {
        id: data.project.id.clone(),
        name: data.project.name.clone(),
        task_type: task_type_text(data.project.task_type),
        classification_mode: mode,
        root_path: data.project.root_path.clone(),
        created_at_ms: data.project.created_at_ms,
        updated_at_ms: data.project.updated_at_ms,
        image_count: active as i64,
        missing_image_count: missing as i64,
        deleted_image_count: deleted as i64,
        last_image_id: crate::detection::clone_opt_text(&data.project.last_image_id),
    })
}


/// An image file found on disk, before it is indexed.
pub struct DiscoveredImage {
    /// Relative to the dataset root, with `/` separators.
    pub relative_path: String,
    pub file_name: String,
    /// The stored pixel size, before the EXIF orientation is applied.
    pub raw_width: u32,
    pub raw_height: u32,
    pub byte_size: i64,
    pub modified_at_ms: i64,
    pub orientation: u16,
}

/// Files are indexed in the order of their lower-cased relative paths.
pub open spec fn path_before() -> spec_fn(DiscoveredImage, DiscoveredImage) -> bool {
    |a: DiscoveredImage, b: DiscoveredImage|
        crate::text::text_less(
            crate::text::unicode_lowercase(a.relative_path@),
            crate::text::unicode_lowercase(b.relative_path@),
        )
}

/// The files found, sorted stably by lower-cased relative path.
pub fn sort_discovered(discovered: Vec<DiscoveredImage>) -> (r: Vec<DiscoveredImage>)
    ensures
        r@ == crate::text::stable_sorted(discovered@, path_before()),
{
    let ghost all = discovered@;
    assert(all.len() == discovered.len());
    let mut rest = discovered;
    let mut items: Vec<DiscoveredImage> = Vec::new();
    let mut keys: Vec<Vec<char>> = Vec::new();
    let mut i: usize = 0;
    while rest.len() > 0
        invariant
            all.len() <= usize::MAX,
            i + rest.len() == all.len(),
            rest@ == all.subrange(i as int, all.len() as int),
            items@ == crate::text::stable_sorted(all.take(i as int), path_before()),
            keys.len() == items.len(),
            forall|j: int| 0 <= j < keys.len() ==> (#[trigger] keys@[j])@ == crate::text::unicode_lowercase(items@[j].relative_path@),
        decreases rest.len(),
    {
        assert(i < all.len());
        let x = rest.remove(0);
        let key_text = crate::text::lowercase(x.relative_path.as_str());
        let key = crate::text::chars_of(key_text.as_str());
        let ghost p = items@;
        let mut j: usize = 0;
        proof {
            assert(p.subrange(0, p.len() as int) =~= p);
        }
        while j < items.len() && !crate::text::text_lt(&key, &keys[j])
            invariant
                j <= items.len(),
                items@ == p,
                keys.len() == items.len(),
                key@ == crate::text::unicode_lowercase(x.relative_path@),
                forall|m: int| 0 <= m < keys.len() ==> (#[trigger] keys@[m])@ == crate::text::unicode_lowercase(items@[m].relative_path@),
                crate::text::insert_pos(p, x, path_before()) == j + crate::text::insert_pos(p.subrange(j as int, p.len() as int), x, path_before()),
            decreases items.len() - j,
        {
            proof {
                crate::text::lemma_insert_pos_step(p, x, path_before(), j as int);
            }
            j = j + 1;
        }
        proof {
            if j < items.len() {
                assert(p.subrange(j as int, p.len() as int)[0] == p[j as int]);
            }
            assert(all.take(i + 1).drop_last() =~= all.take(i as int));
            assert(all.take(i + 1).last() == x);
        }
        let ghost kv = keys@;
        items.insert(j, x);
        keys.insert(j, key);
        proof {
            assert forall|m: int| 0 <= m < keys.len() implies (#[trigger] keys@[m])@ == crate::text::unicode_lowercase(items@[m].relative_path@) by {
                if m < j {
                    assert(keys@[m] == kv[m]);
                } else if m > j {
                    assert(keys@[m] == kv[m - 1]);
                }
            }
        }
        i = i + 1;
    }
    assert(all.take(all.len() as int) =~= all);
    items
}

/// The pixel size an image shows: width and height swap for the EXIF orientations that turn it
/// by a quarter.
pub open spec fn display_size(d: DiscoveredImage) -> (u32, u32) {
    if 5 <= d.orientation <= 8 {
        (d.raw_height, d.raw_width)
    } else {
        (d.raw_width, d.raw_height)
    }
}

/// The index of the image at `path`, looked up from the end, or -1.
pub open spec fn path_index(images: Seq<ImageRow>, path: Seq<char>) -> int
    decreases images.len(),
{
    if images.len() == 0 {
        -1
    } else if images.last().relative_path@ == path {
        images.len() - 1
    } else {
        path_index(images.drop_last(), path)
    }
}

proof fn lemma_path_index(images: Seq<ImageRow>, path: Seq<char>)
    ensures
        -1 <= path_index(images, path) < images.len(),
        path_index(images, path) >= 0 ==> images[path_index(images, path)].relative_path@ == path,
        path_index(images, path) < 0 ==> forall|i: int| 0 <= i < images.len() ==> images[i].relative_path@ != path,
    decreases images.len(),
{
    if images.len() > 0 {
        lemma_path_index(images.drop_last(), path);
        if images.last().relative_path@ != path {
            assert forall|i: int| 0 <= i < images.len() - 1 implies images[i] == images.drop_last()[i] by {}
        }
    }
}

/// The images once indexing begins: every active image counts as missing until it is found.
pub open spec fn marked_missing(images: Seq<ImageRow>, now: i64) -> Seq<ImageRow> {
    images.map_values(
        |r: ImageRow|
            if r.status == ImageStatus::Active {
                ImageRow { status: ImageStatus::Missing, updated_at_ms: now, ..r }
            } else {
                r
            },
    )
}

/// An indexed image found again: it takes the file's metadata and position, and is active unless
/// it was deleted.
pub open spec fn refreshed_row(r: ImageRow, d: DiscoveredImage, order: int, now: i64) -> ImageRow {
    ImageRow {
        file_name: d.file_name,
        width: display_size(d).0,
        height: display_size(d).1,
        byte_size: d.byte_size,
        modified_at_ms: d.modified_at_ms,
        orientation: d.orientation,
        status: if r.status == ImageStatus::Deleted {
            ImageStatus::Deleted
        } else {
            ImageStatus::Active
        },
        sort_order: order as i64,
        updated_at_ms: now,
        ..r
    }
}

/// A newly found image with id `id`.
pub open spec fn new_row(id: String, d: DiscoveredImage, order: int, now: i64) -> ImageRow {
    ImageRow {
        id: id,
        relative_path: d.relative_path,
        file_name: d.file_name,
        width: display_size(d).0,
        height: display_size(d).1,
        byte_size: d.byte_size,
        modified_at_ms: d.modified_at_ms,
        status: ImageStatus::Active,
        sort_order: order as i64,
        orientation: d.orientation,
        deleted_relative_path: None,
        classification_original_path: None,
        created_at_ms: now,
        updated_at_ms: now,
    }
}

/// The images once the found files `items` are indexed in order, a new image taking id `ids[k]`
/// (`INSERT ... ON CONFLICT(relative_path) DO UPDATE`).
pub open spec fn indexed(images: Seq<ImageRow>, items: Seq<DiscoveredImage>, ids: Seq<String>, now: i64) -> Seq<ImageRow>
    decreases items.len(),
{
    if items.len() == 0 {
        images
    } else {
        let k = items.len() - 1;
        let prev = indexed(images, items.drop_last(), ids, now);
        let d = items.last();
        let i = path_index(prev, d.relative_path@);
        if i >= 0 {
            prev.update(i, refreshed_row(prev[i], d, k, now))
        } else {
            prev.push(new_row(ids[k], d, k, now))
        }
    }
}

/// The ids of images whose cached thumbnails are stale: found again with another size or
/// modification time.
pub open spec fn stale_thumbnails(images: Seq<ImageRow>, items: Seq<DiscoveredImage>) -> Seq<Seq<char>>
    decreases items.len(),
{
    if items.len() == 0 {
        seq![]
    } else {
        let prev = stale_thumbnails(images, items.drop_last());
        let d = items.last();
        let i = path_index(images, d.relative_path@);
        if i >= 0 && (images[i].byte_size != d.byte_size || images[i].modified_at_ms != d.modified_at_ms) {
            prev.push(images[i].id@)
        } else {
            prev
        }
    }
}

fn path_position(images: &Vec<ImageRow>, path: &String) -> (r: Option<usize>)
    ensures
        match r {
            Some(i) => i as int == path_index(images@, path@) && i < images.len(),
            None => path_index(images@, path@) == -1,
        },
{
    let mut k = images.len();
    assert(images@.take(k as int) =~= images@);
    while k > 0 && images[k - 1].relative_path != *path
        invariant
            k <= images.len(),
            path_index(images@, path@) == path_index(images@.take(k as int), path@),
        decreases k,
    {
        assert(images@.take(k as int).drop_last() =~= images@.take(k - 1));
        k = k - 1;
    }
    if k == 0 {
        None
    } else {
        assert(images@.take(k as int).last() == images@[k - 1]);
        Some(k - 1)
    }
}

pub fn copy_row(r: &ImageRow) -> (out: ImageRow)
    ensures
        out == *r,
{
    ImageRow {
        id: r.id.clone(),
        relative_path: r.relative_path.clone(),
        file_name: r.file_name.clone(),
        width: r.width,
        height: r.height,
        byte_size: r.byte_size,
        modified_at_ms: r.modified_at_ms,
        status: r.status,
        sort_order: r.sort_order,
        orientation: r.orientation,
        deleted_relative_path: crate::detection::clone_opt_text(&r.deleted_relative_path),
        classification_original_path: crate::detection::clone_opt_text(&r.classification_original_path),
        created_at_ms: r.created_at_ms,
        updated_at_ms: r.updated_at_ms,
    }
}

fn mark_missing(images: &Vec<ImageRow>, now: i64) -> (r: Vec<ImageRow>)
    ensures
        r@ == marked_missing(images@, now),
{
    let mut out: Vec<ImageRow> = Vec::new();
    for i in 0..images.len()
        invariant
            out@ == marked_missing(images@.take(i as int), now),
    {
        let mut row = copy_row(&images[i]);
        if row.status == ImageStatus::Active {
            row.status = ImageStatus::Missing;
            row.updated_at_ms = now;
        }
        let ghost before = out@;
        out.push(row);
        assert(out@ =~= marked_missing(images@.take(i + 1), now)) by {
            assert(images@.take(i + 1) =~= images@.take(i as int).push(images@[i as int]));
        }
    }
    assert(images@.take(images.len() as int) =~= images@);
    out
}

fn display_size_exec(d: &DiscoveredImage) -> (r: (u32, u32))
    ensures
        r == display_size(*d),
{
    if 5 <= d.orientation && d.orientation <= 8 {
        (d.raw_height, d.raw_width)
    } else {
        (d.raw_width, d.raw_height)
    }
}

/// Whether the ids `ids` are fresh where indexing `items` adds an image: the file at position `k`
/// that finds no indexed image takes `ids[k]`, which no image indexed before it has.
pub open spec fn ids_fresh(images: Seq<ImageRow>, items: Seq<DiscoveredImage>, ids: Seq<String>, now: i64) -> bool
    decreases items.len(),
{
    if items.len() == 0 {
        true
    } else {
        let prev = indexed(images, items.drop_last(), ids, now);
        &&& ids_fresh(images, items.drop_last(), ids, now)
        &&& (path_index(prev, items.last().relative_path@) >= 0
            || !has_image(prev, ids[items.len() - 1]@))
    }
}

proof fn lemma_ids_fresh_prefix(images: Seq<ImageRow>, items: Seq<DiscoveredImage>, ids: Seq<String>, now: i64, j: int)
    requires
        0 <= j <= items.len(),
        ids_fresh(images, items, ids, now),
    ensures
        ids_fresh(images, items.take(j), ids, now),
    decreases items.len(),
{
    if j == items.len() {
        assert(items.take(j) =~= items);
    } else {
        lemma_ids_fresh_prefix(images, items.drop_last(), ids, now, j);
        assert(items.drop_last().take(j) =~= items.take(j));
    }
}

/// Indexes the image files found on disk: every active image is first counted missing, then each
/// file, in the order of its lower-cased path, refreshes its image or adds a new one, the file at
/// position `k` of that order taking `new_ids[k]`. Fails, changing nothing, where a new image's id
/// is already in use. Returns the ids of images whose cached thumbnails are stale.
pub fn index_images_with_ids(data: &mut ProjectData, discovered: Vec<DiscoveredImage>, new_ids: Vec<String>, now: i64) -> (r: Result<
    Vec<String>,
    String,
>)
    requires
        old(data).wf(),
        discovered.len() <= i64::MAX,
        new_ids.len() == discovered.len(),
    ensures
        final(data).wf(),
        r is Ok <==> ids_fresh(
            marked_missing(old(data).images@, now),
            crate::text::stable_sorted(discovered@, path_before()),
            new_ids@,
            now,
        ),
        r is Err ==> *final(data) == *old(data),
        r matches Ok(stale) ==> {
            let items = crate::text::stable_sorted(discovered@, path_before());
            let marked = marked_missing(old(data).images@, now);
            &&& final(data).images@ == indexed(marked, items, new_ids@, now)
            &&& crate::classification::texts(stale@) == stale_thumbnails(marked, items)
            &&& crate::detection::touched(old(data), final(data), now)
            &&& final(data).classes == old(data).classes
            &&& final(data).image_classes == old(data).image_classes
            &&& final(data).annotations == old(data).annotations
            &&& final(data).drafts == old(data).drafts
            &&& final(data).active_class_id == old(data).active_class_id
            &&& final(data).history == old(data).history
            &&& final(data).next_sequence == old(data).next_sequence
        },
{
    let items = sort_discovered(discovered);
    proof {
        crate::text::lemma_stable_sorted_len(discovered@, path_before());
    }
    let mut rows = mark_missing(&data.images, now);
    let ghost marked = rows@;
    assert(images_wf(marked)) by {
        assert forall|a: int, b: int| 0 <= a < marked.len() && 0 <= b < marked.len() && a != b implies marked[a].id@ != marked[b].id@ by {
            assert(marked[a].id == data.images@[a].id);
            assert(marked[b].id == data.images@[b].id);
        }
    }
    let mut stale: Vec<String> = Vec::new();
    assert(items@.take(0) =~= Seq::<DiscoveredImage>::empty());
    for k in 0..items.len()
        invariant
            items.len() <= i64::MAX,
            new_ids.len() == items.len(),
            items@ == crate::text::stable_sorted(discovered@, path_before()),
            marked == marked_missing(old(data).images@, now),
            images_wf(rows@),
            rows@ == indexed(marked, items@.take(k as int), new_ids@, now),
            ids_fresh(marked, items@.take(k as int), new_ids@, now),
            crate::classification::texts(stale@) == stale_thumbnails(marked, items@.take(k as int)),
            *data == *old(data),
            data.wf(),
    {
        let d = &items[k];
        let ghost prev = rows@;
        assert(items@.take(k + 1).drop_last() =~= items@.take(k as int));
        assert(items@.take(k + 1).last() == *d);
        // The stale thumbnail of a file found again with other metadata.
        match path_position(&data.images, &d.relative_path) {
            Some(i) => {
                proof {
                    assert(path_index(marked, d.relative_path@) == path_index(data.images@, d.relative_path@)) by {
                        lemma_path_index_map(data.images@, d.relative_path@, now);
                    }
                }
                if data.images[i].byte_size != d.byte_size || data.images[i].modified_at_ms != d.modified_at_ms {
                    let ghost before = stale@;
                    stale.push(data.images[i].id.clone());
                    assert(crate::classification::texts(stale@) =~= crate::classification::texts(before).push(marked[i as int].id@));
                }
            },
            None => {
                proof {
                    lemma_path_index_map(data.images@, d.relative_path@, now);
                }
            },
        }
        let (w, h) = display_size_exec(d);
        match path_position(&rows, &d.relative_path) {
            Some(i) => {
                let r = &rows[i];
                let row = ImageRow {
                    id: r.id.clone(),
                    relative_path: r.relative_path.clone(),
                    file_name: d.file_name.clone(),
                    width: w,
                    height: h,
                    byte_size: d.byte_size,
                    modified_at_ms: d.modified_at_ms,
                    status: if r.status == ImageStatus::Deleted {
                        ImageStatus::Deleted
                    } else {
                        ImageStatus::Active
                    },
                    sort_order: k as i64,
                    orientation: d.orientation,
                    deleted_relative_path: crate::detection::clone_opt_text(&r.deleted_relative_path),
                    classification_original_path: crate::detection::clone_opt_text(&r.classification_original_path),
                    created_at_ms: r.created_at_ms,
                    updated_at_ms: now,
                };
                rows.set(i, row);
                proof {
                    assert(rows@ =~= indexed(marked, items@.take(k + 1), new_ids@, now));
                    assert forall|a: int, b: int| 0 <= a < rows@.len() && 0 <= b < rows@.len() && a != b implies rows@[a].id@ != rows@[b].id@ by {
                        assert(rows@[a].id == prev[a].id);
                        assert(rows@[b].id == prev[b].id);
                    }
                }
            },
            None => {
                let id = new_ids[k].clone();
                let found = find_image(&rows, id.as_str());
                if found.is_some() {
                    proof {
                        let j = found.unwrap() as int;
                        assert(prev[j].id@ == new_ids@[k as int]@);
                        assert(has_image(prev, new_ids@[k as int]@));
                        assert(!ids_fresh(marked, items@.take(k + 1), new_ids@, now));
                        if ids_fresh(marked, items@, new_ids@, now) {
                            lemma_ids_fresh_prefix(marked, items@, new_ids@, now, k + 1);
                        }
                    }
                    return Err(crate::text::owned("Could not index an image: its new id is already in use."));
                }
                let row = ImageRow {
                    id: id.clone(),
                    relative_path: d.relative_path.clone(),
                    file_name: d.file_name.clone(),
                    width: w,
                    height: h,
                    byte_size: d.byte_size,
                    modified_at_ms: d.modified_at_ms,
                    status: ImageStatus::Active,
                    sort_order: k as i64,
                    orientation: d.orientation,
                    deleted_relative_path: None,
                    classification_original_path: None,
                    created_at_ms: now,
                    updated_at_ms: now,
                };
                rows.push(row);
                proof {
                    assert(rows@ =~= indexed(marked, items@.take(k + 1), new_ids@, now));
                    assert forall|a: int, b: int| 0 <= a < rows@.len() && 0 <= b < rows@.len() && a != b implies rows@[a].id@ != rows@[b].id@ by {
                        if a < prev.len() && b < prev.len() {
                            assert(rows@[a] == prev[a] && rows@[b] == prev[b]);
                        } else if a < prev.len() {
                            assert(rows@[a] == prev[a]);
                        } else {
                            assert(rows@[b] == prev[b]);
                        }
                    }
                }
            },
        }
    }
    assert(items@.take(items.len() as int) =~= items@);
    data.images = rows;
    data.project.updated_at_ms = now;
    Ok(stale)
}

/// Whether every found file is already indexed under its relative path.
pub open spec fn files_indexed(images: Seq<ImageRow>, found: Seq<DiscoveredImage>) -> bool {
    forall|k: int| 0 <= k < found.len() ==> path_index(images, (#[trigger] found[k]).relative_path@) >= 0
}

proof fn lemma_indexed_ids_fresh(base: Seq<ImageRow>, items: Seq<DiscoveredImage>, ids: Seq<String>, now: i64)
    requires
        files_indexed(base, items),
    ensures
        ids_fresh(base, items, ids, now),
    decreases items.len(),
{
    if items.len() > 0 {
        let d = items.drop_last();
        assert forall|k: int| 0 <= k < d.len() implies path_index(base, (#[trigger] d[k]).relative_path@) >= 0 by {
            assert(d[k] == items[k]);
        }
        lemma_indexed_ids_fresh(base, d, ids, now);
        let p = items.last().relative_path@;
        assert(path_index(base, items[items.len() - 1].relative_path@) >= 0);
        let i = path_index(base, p);
        lemma_path_index(base, p);
        lemma_indexed_keeps(base, d, ids, now, i);
        let prev = indexed(base, d, ids, now);
        lemma_path_index(prev, p);
        assert(prev[i].relative_path@ == p);
    }
}

/// Where every found file is already indexed, indexing adds no image, whatever the new ids.
proof fn lemma_known_files_fresh(images: Seq<ImageRow>, found: Seq<DiscoveredImage>, ids: Seq<String>, now: i64)
    requires
        files_indexed(images, found),
    ensures
        ids_fresh(marked_missing(images, now), crate::text::stable_sorted(found, path_before()), ids, now),
{
    let items = crate::text::stable_sorted(found, path_before());
    let marked = marked_missing(images, now);
    crate::text::lemma_stable_sorted_len(found, path_before());
    assert forall|k: int| 0 <= k < items.len() implies path_index(marked, (#[trigger] items[k]).relative_path@) >= 0 by {
        crate::text::lemma_stable_sorted_member(found, path_before(), k);
        let m = choose|m: int| 0 <= m < found.len() && items[k] == found[m];
        assert(path_index(images, found[m].relative_path@) >= 0);
        lemma_path_index_map(images, items[k].relative_path@, now);
    }
    lemma_indexed_ids_fresh(marked, items, ids, now);
}

/// Whether no image id has the 36 characters of a drawn random id.
pub open spec fn no_uuid_image_ids(images: Seq<ImageRow>) -> bool {
    forall|i: int| 0 <= i < images.len() ==> (#[trigger] images[i]).id@.len() != 36
}

/// Whether the found files that are not indexed yet all share one path, so that indexing adds at
/// most one image.
pub open spec fn one_new_path(images: Seq<ImageRow>, found: Seq<DiscoveredImage>) -> bool {
    forall|a: int, b: int|
        #![trigger found[a], found[b]]
        0 <= a < found.len() && 0 <= b < found.len() && path_index(images, found[a].relative_path@) < 0
            && path_index(images, found[b].relative_path@) < 0 ==> found[a].relative_path@ == found[b].relative_path@
}

/// One step of indexing keeps every path and id of the images indexed before it, and adds at most
/// one image.
proof fn lemma_indexed_step(base: Seq<ImageRow>, items: Seq<DiscoveredImage>, ids: Seq<String>, now: i64)
    requires
        items.len() > 0,
    ensures
        ({
            let prev = indexed(base, items.drop_last(), ids, now);
            let next = indexed(base, items, ids, now);
            &&& next.len() >= prev.len()
            &&& forall|i: int| 0 <= i < prev.len() ==> (#[trigger] next[i]).relative_path == prev[i].relative_path
                && next[i].id == prev[i].id
            &&& path_index(prev, items.last().relative_path@) >= 0 ==> next.len() == prev.len()
            &&& path_index(next, items.last().relative_path@) >= 0
        }),
{
    let prev = indexed(base, items.drop_last(), ids, now);
    let next = indexed(base, items, ids, now);
    let p = items.last().relative_path@;
    lemma_path_index(prev, p);
    lemma_path_index(next, p);
    if path_index(prev, p) < 0 {
        assert(next[next.len() - 1].relative_path@ == p);
    } else {
        assert(next[path_index(prev, p)].relative_path@ == p);
    }
}

/// Where no image id has 36 characters, the new ids have 36, and the files not yet indexed share
/// one path, the new ids are fresh; what indexing gives either keeps every id of `base` (and adds
/// nothing) or holds an image for a file that was not indexed.
proof fn lemma_single_new_fresh(base: Seq<ImageRow>, items: Seq<DiscoveredImage>, ids: Seq<String>, now: i64)
    requires
        no_uuid_image_ids(base),
        ids.len() >= items.len(),
        forall|j: int| 0 <= j < items.len() ==> (#[trigger] ids[j])@.len() == 36,
        one_new_path(base, items),
    ensures
        ids_fresh(base, items, ids, now),
        ({
            let n = indexed(base, items, ids, now);
            ||| n.len() == base.len() && forall|i: int| 0 <= i < n.len() ==> (#[trigger] n[i]).id == base[i].id
            ||| exists|k: int| 0 <= k < items.len() && path_index(base, (#[trigger] items[k]).relative_path@) < 0
                && path_index(n, items[k].relative_path@) >= 0
        }),
    decreases items.len(),
{
    if items.len() > 0 {
        let d = items.drop_last();
        assert forall|a: int, b: int|
            #![trigger d[a], d[b]]
            0 <= a < d.len() && 0 <= b < d.len() && path_index(base, d[a].relative_path@) < 0
                && path_index(base, d[b].relative_path@) < 0 implies d[a].relative_path@ == d[b].relative_path@ by {
            assert(d[a] == items[a] && d[b] == items[b]);
        }
        assert forall|j: int| 0 <= j < d.len() implies (#[trigger] ids[j])@.len() == 36 by {
            assert(items[j] == d[j]);
        }
        lemma_single_new_fresh(base, d, ids, now);
        lemma_indexed_step(base, items, ids, now);
        let prev = indexed(base, d, ids, now);
        let n = indexed(base, items, ids, now);
        let last = items.last();
        let p = last.relative_path@;
        let j = items.len() - 1;
        assert(items[j] == last);
        // prev keeps the paths of base.
        assert forall|i: int| 0 <= i < base.len() implies i < prev.len() && (#[trigger] prev[i]).relative_path == base[i].relative_path by {
            lemma_indexed_keeps(base, d, ids, now, i);
        }
        if path_index(prev, p) < 0 {
            lemma_path_index(prev, p);
            lemma_path_index(base, p);
            if path_index(base, p) >= 0 {
                assert(prev[path_index(base, p)].relative_path@ == p);
            }
            // prev kept every id of base: no earlier file was new.
            if exists|k: int| 0 <= k < d.len() && path_index(base, (#[trigger] d[k]).relative_path@) < 0
                && path_index(prev, d[k].relative_path@) >= 0 {
                let k = choose|k: int| 0 <= k < d.len() && path_index(base, (#[trigger] d[k]).relative_path@) < 0
                    && path_index(prev, d[k].relative_path@) >= 0;
                assert(d[k] == items[k]);
                assert(items[k].relative_path@ == items[j].relative_path@);
                assert(false);
            }
            assert(!has_image(prev, ids[j]@)) by {
                if has_image(prev, ids[j]@) {
                    let i = choose|i: int| 0 <= i < prev.len() && (#[trigger] prev[i]).id@ == ids[j]@;
                    assert(prev[i].id == base[i].id);
                }
            }
            assert(path_index(base, items[j].relative_path@) < 0 && path_index(n, items[j].relative_path@) >= 0);
        } else {
            if prev.len() == base.len() && forall|i: int| 0 <= i < prev.len() ==> (#[trigger] prev[i]).id == base[i].id {
                assert forall|i: int| 0 <= i < n.len() implies (#[trigger] n[i]).id == base[i].id by {
                    assert(n[i].id == prev[i].id);
                }
            } else {
                let k = choose|k: int| 0 <= k < d.len() && path_index(base, (#[trigger] d[k]).relative_path@) < 0
                    && path_index(prev, d[k].relative_path@) >= 0;
                assert(d[k] == items[k]);
                let q = d[k].relative_path@;
                lemma_path_index(prev, q);
                lemma_path_index(n, q);
                assert(n[path_index(prev, q)].relative_path@ == q);
            }
        }
    }
}

/// Where no image id has 36 characters and the files not yet indexed share one path, indexing
/// with drawn ids of 36 characters adds at most one image, whose id is fresh.
proof fn lemma_one_new_fresh(images: Seq<ImageRow>, found: Seq<DiscoveredImage>, ids: Seq<String>, now: i64)
    requires
        no_uuid_image_ids(images),
        one_new_path(images, found),
        ids.len() == found.len(),
        forall|j: int| 0 <= j < ids.len() ==> (#[trigger] ids[j])@.len() == 36,
    ensures
        ids_fresh(marked_missing(images, now), crate::text::stable_sorted(found, path_before()), ids, now),
{
    let items = crate::text::stable_sorted(found, path_before());
    let marked = marked_missing(images, now);
    crate::text::lemma_stable_sorted_len(found, path_before());
    assert forall|i: int| 0 <= i < marked.len() implies (#[trigger] marked[i]).id@.len() != 36 by {
        assert(marked[i].id == images[i].id);
    }
    assert forall|a: int, b: int|
        #![trigger items[a], items[b]]
        0 <= a < items.len() && 0 <= b < items.len() && path_index(marked, items[a].relative_path@) < 0
            && path_index(marked, items[b].relative_path@) < 0 implies items[a].relative_path@ == items[b].relative_path@ by {
        crate::text::lemma_stable_sorted_member(found, path_before(), a);
        crate::text::lemma_stable_sorted_member(found, path_before(), b);
        let ma = choose|m: int| 0 <= m < found.len() && items[a] == found[m];
        let mb = choose|m: int| 0 <= m < found.len() && items[b] == found[m];
        lemma_path_index_map(images, items[a].relative_path@, now);
        lemma_path_index_map(images, items[b].relative_path@, now);
        assert(found[ma] == items[a] && found[mb] == items[b]);
    }
    lemma_single_new_fresh(marked, items, ids, now);
}

/// `n` new random ids, one for each file that indexing may add as an image.
pub(crate) fn random_ids(n: usize) -> (r: Vec<String>)
    ensures
        r.len() == n,
        forall|j: int| 0 <= j < n ==> (#[trigger] r@[j])@.len() == 36,
{
    let mut ids: Vec<String> = Vec::new();
    for k in 0..n
        invariant
            ids.len() == k,
            forall|j: int| 0 <= j < k ==> (#[trigger] ids@[j])@.len() == 36,
    {
        ids.push(new_id());
    }
    ids
}

/// Indexes the image files found on disk as `index_images_with_ids` does, each file drawing a
/// new random id for the image it may add.
pub fn index_images(data: &mut ProjectData, discovered: Vec<DiscoveredImage>, now: i64) -> (r: Result<
    Vec<String>,
    String,
>)
    requires
        old(data).wf(),
        discovered.len() <= i64::MAX,
    ensures
        final(data).wf(),
        files_indexed(old(data).images@, discovered@) ==> r is Ok,
        no_uuid_image_ids(old(data).images@) && one_new_path(old(data).images@, discovered@) ==> r is Ok,
        r is Err ==> *final(data) == *old(data),
        r matches Ok(stale) ==> {
            let items = crate::text::stable_sorted(discovered@, path_before());
            let marked = marked_missing(old(data).images@, now);
            &&& exists|ids: Seq<String>| final(data).images@ == #[trigger] indexed(marked, items, ids, now)
            &&& crate::classification::texts(stale@) == stale_thumbnails(marked, items)
            &&& crate::detection::touched(old(data), final(data), now)
            &&& final(data).classes == old(data).classes
            &&& final(data).image_classes == old(data).image_classes
            &&& final(data).annotations == old(data).annotations
            &&& final(data).drafts == old(data).drafts
            &&& final(data).active_class_id == old(data).active_class_id
            &&& final(data).history == old(data).history
            &&& final(data).next_sequence == old(data).next_sequence
        },
{
    let new_ids = random_ids(discovered.len());
    let ghost ids = new_ids@;
    proof {
        if files_indexed(data.images@, discovered@) {
            lemma_known_files_fresh(data.images@, discovered@, ids, now);
        }
        if no_uuid_image_ids(data.images@) && one_new_path(data.images@, discovered@) {
            lemma_one_new_fresh(data.images@, discovered@, ids, now);
        }
    }
    let r = index_images_with_ids(data, discovered, new_ids, now);
    proof {
        if r is Ok {
            let items = crate::text::stable_sorted(discovered@, path_before());
            let marked = marked_missing(old(data).images@, now);
            assert(data.images@ == indexed(marked, items, ids, now));
        }
    }
    r
}

proof fn lemma_path_index_map(images: Seq<ImageRow>, path: Seq<char>, now: i64)
    ensures
        path_index(marked_missing(images, now), path) == path_index(images, path),
        path_index(images, path) >= 0 ==> marked_missing(images, now)[path_index(images, path)].id == images[path_index(images, path)].id
            && marked_missing(images, now)[path_index(images, path)].byte_size == images[path_index(images, path)].byte_size
            && marked_missing(images, now)[path_index(images, path)].modified_at_ms == images[path_index(images, path)].modified_at_ms,
    decreases images.len(),
{
    lemma_path_index(images, path);
    if images.len() > 0 {
        assert(marked_missing(images, now).drop_last() =~= marked_missing(images.drop_last(), now));
        lemma_path_index_map(images.drop_last(), path, now);
    }
}

/// The name the image list shows for a status.
pub open spec fn status_name(s: ImageStatus) -> Seq<char> {
    match s {
        ImageStatus::Active => seq!['a', 'c', 't', 'i', 'v', 'e'],
        ImageStatus::Missing => seq!['m', 'i', 's', 's', 'i', 'n', 'g'],
        ImageStatus::Deleted => seq!['d', 'e', 'l', 'e', 't', 'e', 'd'],
    }
}

/// The name the image list shows for a status.
pub fn status_text(s: ImageStatus) -> (r: String)
    ensures
        r@ == status_name(s),
{
    let v: Vec<char> = match s {
        ImageStatus::Active => vec!['a', 'c', 't', 'i', 'v', 'e'],
        ImageStatus::Missing => vec!['m', 'i', 's', 's', 'i', 'n', 'g'],
        ImageStatus::Deleted => vec!['d', 'e', 'l', 'e', 't', 'e', 'd'],
    };
    assert(v@ =~= status_name(s));
    chars_to_string(v)
}

/// Active images come first in the list, then missing ones, then deleted ones.
pub open spec fn status_rank(s: ImageStatus) -> int {
    match s {
        ImageStatus::Active => 0,
        ImageStatus::Missing => 1,
        ImageStatus::Deleted => 2,
    }
}

/// The order of the image list: by status, then by position.
pub open spec fn list_before() -> spec_fn(ImageRow, ImageRow) -> bool {
    |a: ImageRow, b: ImageRow|
        status_rank(a.status) < status_rank(b.status) || (status_rank(a.status) == status_rank(b.status)
            && a.sort_order < b.sort_order)
}

/// The image list shows active images first, then missing ones, then deleted ones: in the sorted
/// list no active image comes after an image that is not active, and no missing image after a
/// deleted one; and so in every page of it.
pub proof fn law_list_status_order(images: Seq<ImageRow>)
    ensures
        ({
            let sorted = crate::text::stable_sorted(images, list_before());
            forall|i: int, j: int|
                0 <= i < j < sorted.len() ==> {
                    &&& (#[trigger] sorted[j]).status == ImageStatus::Active ==> (#[trigger] sorted[i]).status == ImageStatus::Active
                    &&& sorted[j].status == ImageStatus::Missing ==> sorted[i].status != ImageStatus::Deleted
                }
        }),
{
    let before = list_before();
    assert forall|a: ImageRow, b: ImageRow| #[trigger] before(a, b) implies !before(b, a) by {}
    assert forall|a: ImageRow, b: ImageRow, c: ImageRow| #[trigger] before(a, b) && #[trigger] before(b, c) implies before(a, c) by {}
    crate::text::lemma_stable_sorted_sorted(images, before);
    let sorted = crate::text::stable_sorted(images, before);
    assert forall|i: int, j: int| 0 <= i < j < sorted.len() implies {
        &&& (#[trigger] sorted[j]).status == ImageStatus::Active ==> (#[trigger] sorted[i]).status == ImageStatus::Active
        &&& sorted[j].status == ImageStatus::Missing ==> sorted[i].status != ImageStatus::Deleted
    } by {
        assert(!before(sorted[j], sorted[i]));
    }
}

/// In every page of the image list, no active image comes after one that is not active, and no
/// missing image after a deleted one.
pub proof fn law_page_status_order(images: Seq<ImageRow>, start: int, page: Seq<ImageRecord>)
    requires
        0 <= start,
        start + page.len() <= crate::text::stable_sorted(images, list_before()).len(),
        forall|i: int| 0 <= i < page.len() ==> record_of(crate::text::stable_sorted(images, list_before())[start + i], #[trigger] page[i]),
    ensures
        forall|i: int, j: int|
            0 <= i < j < page.len() ==> {
                &&& (#[trigger] page[j]).status@ == status_name(ImageStatus::Active) ==> (#[trigger] page[i]).status@ == status_name(ImageStatus::Active)
                &&& page[j].status@ == status_name(ImageStatus::Missing) ==> page[i].status@ != status_name(ImageStatus::Deleted)
            },
{
    law_list_status_order(images);
    let sorted = crate::text::stable_sorted(images, list_before());
    assert forall|i: int, j: int| 0 <= i < j < page.len() implies {
        &&& (#[trigger] page[j]).status@ == status_name(ImageStatus::Active) ==> (#[trigger] page[i]).status@ == status_name(ImageStatus::Active)
        &&& page[j].status@ == status_name(ImageStatus::Missing) ==> page[i].status@ != status_name(ImageStatus::Deleted)
    } by {
        let a = sorted[start + i];
        let b = sorted[start + j];
        assert(record_of(a, page[i]) && record_of(b, page[j]));
        assert(status_name(ImageStatus::Active) != status_name(ImageStatus::Missing)) by {
            assert(status_name(ImageStatus::Active)[0] != status_name(ImageStatus::Missing)[0]);
        }
        assert(status_name(ImageStatus::Active) != status_name(ImageStatus::Deleted)) by {
            assert(status_name(ImageStatus::Active)[0] != status_name(ImageStatus::Deleted)[0]);
        }
        assert(status_name(ImageStatus::Missing) != status_name(ImageStatus::Deleted)) by {
            assert(status_name(ImageStatus::Missing)[0] != status_name(ImageStatus::Deleted)[0]);
        }
    }
}

/// The list entry of an image.
pub open spec fn record_of(r: ImageRow, rec: ImageRecord) -> bool {
    &&& rec.id == r.id
    &&& rec.relative_path == r.relative_path
    &&& rec.file_name == r.file_name
    &&& rec.width == r.width
    &&& rec.height == r.height
    &&& rec.status@ == status_name(r.status)
    &&& rec.orientation == r.orientation
}

fn rank_exec(s: ImageStatus) -> (r: u8)
    ensures
        r == status_rank(s),
{
    match s {
        ImageStatus::Active => 0,
        ImageStatus::Missing => 1,
        ImageStatus::Deleted => 2,
    }
}

/// The images in list order.
pub fn sort_for_list(images: &Vec<ImageRow>) -> (r: Vec<ImageRow>)
    ensures
        r@ == crate::text::stable_sorted(images@, list_before()),
{
    let mut items: Vec<ImageRow> = Vec::new();
    for i in 0..images.len()
        invariant
            items@ == crate::text::stable_sorted(images@.take(i as int), list_before()),
    {
        let x = copy_row(&images[i]);
        let ghost p = items@;
        let mut j: usize = 0;
        proof {
            assert(p.subrange(0, p.len() as int) =~= p);
        }
        while j < items.len() && !(rank_exec(x.status) < rank_exec(items[j].status) || (rank_exec(x.status) == rank_exec(items[j].status) && x.sort_order < items[j].sort_order))
            invariant
                j <= items.len(),
                items@ == p,
                crate::text::insert_pos(p, x, list_before()) == j + crate::text::insert_pos(p.subrange(j as int, p.len() as int), x, list_before()),
            decreases items.len() - j,
        {
            proof {
                crate::text::lemma_insert_pos_step(p, x, list_before(), j as int);
            }
            j = j + 1;
        }
        proof {
            if j < items.len() {
                assert(p.subrange(j as int, p.len() as int)[0] == p[j as int]);
            }
            assert(images@.take(i + 1).drop_last() =~= images@.take(i as int));
            assert(images@.take(i + 1).last() == images@[i as int]);
        }
        items.insert(j, x);
    }
    assert(images@.take(images.len() as int) =~= images@);
    items
}

/// A page of the image list: the images in list order from `offset`, at most `limit` of them and
/// never more than a thousand.
pub fn list_images(data: &ProjectData, limit: u32, offset: u32) -> (r: Result<Vec<ImageRecord>, String>)
    ensures
        r matches Ok(page) && {
            let sorted = crate::text::stable_sorted(data.images@, list_before());
            let n = if limit < 1000 { limit as int } else { 1000 };
            let start = if offset < sorted.len() { offset as int } else { sorted.len() as int };
            let end = if start + n < sorted.len() { start + n } else { sorted.len() as int };
            &&& page.len() == end - start
            &&& forall|i: int| 0 <= i < page.len() ==> record_of(sorted[start + i], #[trigger] page@[i])
        },
{
    let sorted = sort_for_list(&data.images);
    let n: usize = if limit < 1000 { limit as usize } else { 1000 };
    let start: usize = if (offset as usize) < sorted.len() { offset as usize } else { sorted.len() };
    let end: usize = if n <= sorted.len() - start { start + n } else { sorted.len() };
    let mut page: Vec<ImageRecord> = Vec::new();
    let mut i = start;
    while i < end
        invariant
            start <= i <= end <= sorted.len(),
            page.len() == i - start,
            forall|m: int| 0 <= m < page.len() ==> record_of(sorted@[start + m], #[trigger] page@[m]),
        decreases end - i,
    {
        let r = &sorted[i];
        page.push(ImageRecord {
            id: r.id.clone(),
            relative_path: r.relative_path.clone(),
            file_name: r.file_name.clone(),
            width: r.width,
            height: r.height,
            status: status_text(r.status),
            orientation: r.orientation,
        });
        i = i + 1;
    }
    Ok(page)
}

/// The index of the first active image by position, the earliest among equals.
pub open spec fn first_active(images: Seq<ImageRow>) -> Option<int>
    decreases images.len(),
{
    if images.len() == 0 {
        None
    } else {
        let p = first_active(images.drop_last());
        if images.last().status != ImageStatus::Active {
            p
        } else {
            match p {
                None => Some(images.len() - 1),
                Some(i) => if images.last().sort_order < images[i].sort_order {
                    Some(images.len() - 1)
                } else {
                    Some(i)
                },
            }
        }
    }
}

proof fn lemma_first_active(images: Seq<ImageRow>)
    ensures
        first_active(images) matches Some(i) ==> 0 <= i < images.len() && images[i].status == ImageStatus::Active,
    decreases images.len(),
{
    if images.len() > 0 {
        lemma_first_active(images.drop_last());
    }
}

/// The id of the first active image, which the recent-projects list shows as a preview.
pub fn first_active_image_id(data: &ProjectData) -> (r: Option<String>)
    ensures
        match first_active(data.images@) {
            Some(i) => r == Some(data.images@[i].id),
            None => r is None,
        },
{
    let mut best: Option<usize> = None;
    for i in 0..data.images.len()
        invariant
            match best {
                Some(b) => first_active(data.images@.take(i as int)) == Some(b as int) && b < i,
                None => first_active(data.images@.take(i as int)) is None,
            },
    {
        proof {
            assert(data.images@.take(i + 1).drop_last() =~= data.images@.take(i as int));
            lemma_first_active(data.images@.take(i as int));
        }
        if data.images[i].status == ImageStatus::Active {
            match best {
                None => {
                    best = Some(i);
                },
                Some(b) => {
                    assert(data.images@.take(i as int)[b as int] == data.images@[b as int]);
                    if data.images[i].sort_order < data.images[b].sort_order {
                        best = Some(i);
                    }
                },
            }
        }
    }
    assert(data.images@.take(data.images.len() as int) =~= data.images@);
    match best {
        Some(b) => Some(data.images[b].id.clone()),
        None => None,
    }
}


/// Whether `s` holds exactly the characters `v`.
pub fn is_text(s: &str, v: Vec<char>) -> (r: bool)
    ensures
        r == (s@ == v@),
{
    crate::text::chars_eq(&crate::text::chars_of(s), &v)
}

/// The task a stored name names.
pub open spec fn parse_task_spec(t: Seq<char>) -> Option<TaskType> {
    if t == task_type_name(TaskType::Detection) {
        Some(TaskType::Detection)
    } else if t == task_type_name(TaskType::Segmentation) {
        Some(TaskType::Segmentation)
    } else if t == task_type_name(TaskType::Classification) {
        Some(TaskType::Classification)
    } else {
        None
    }
}

/// The task a stored name names.
pub fn parse_task_type(t: &str) -> (r: Option<TaskType>)
    ensures
        r == parse_task_spec(t@),
{
    let d = vec!['d', 'e', 't', 'e', 'c', 't', 'i', 'o', 'n'];
    let s = vec!['s', 'e', 'g', 'm', 'e', 'n', 't', 'a', 't', 'i', 'o', 'n'];
    let c = vec!['c', 'l', 'a', 's', 's', 'i', 'f', 'i', 'c', 'a', 't', 'i', 'o', 'n'];
    assert(d@ =~= task_type_name(TaskType::Detection));
    assert(s@ =~= task_type_name(TaskType::Segmentation));
    assert(c@ =~= task_type_name(TaskType::Classification));
    if is_text(t, d) {
        Some(TaskType::Detection)
    } else if is_text(t, s) {
        Some(TaskType::Segmentation)
    } else if is_text(t, c) {
        Some(TaskType::Classification)
    } else {
        None
    }
}

/// The classification mode a stored name names.
pub open spec fn parse_mode_spec(m: Seq<char>) -> Option<ClassificationMode> {
    if m == mode_name(ClassificationMode::Single) {
        Some(ClassificationMode::Single)
    } else if m == mode_name(ClassificationMode::Multi) {
        Some(ClassificationMode::Multi)
    } else {
        None
    }
}

/// The classification mode a stored name names.
pub fn parse_mode(m: &str) -> (r: Option<ClassificationMode>)
    ensures
        r == parse_mode_spec(m@),
{
    let s = vec!['s', 'i', 'n', 'g', 'l', 'e'];
    let u = vec!['m', 'u', 'l', 't', 'i'];
    assert(s@ =~= mode_name(ClassificationMode::Single));
    assert(u@ =~= mode_name(ClassificationMode::Multi));
    if is_text(m, s) {
        Some(ClassificationMode::Single)
    } else if is_text(m, u) {
        Some(ClassificationMode::Multi)
    } else {
        None
    }
}

/// The mode a new project takes: the requested one, single where none is given.
pub open spec fn requested_mode(mode: Option<Seq<char>>) -> Option<ClassificationMode> {
    match mode {
        Some(m) => parse_mode_spec(m),
        None => Some(ClassificationMode::Single),
    }
}

/// Whether a new project may take these options: a name that is not blank, a known task, and
/// for classification a known mode.
pub open spec fn project_options_ok(name: Seq<char>, task: Seq<char>, mode: Option<Seq<char>>) -> bool {
    &&& crate::text::trimmed(name).len() > 0
    &&& parse_task_spec(task) is Some
    &&& parse_task_spec(task) == Some(TaskType::Classification) ==> requested_mode(mode) is Some
}

/// Checks the options of a new project.
pub fn validate_project_options(name: &str, task_type: &str, classification_mode: Option<&str>) -> (r: Result<
    (),
    String,
>)
    ensures
        r is Ok <==> project_options_ok(
            name@,
            task_type@,
            match classification_mode {
                Some(m) => Some(m@),
                None => None,
            },
        ),
{
    let trimmed = crate::text::trim_chars(&crate::text::chars_of(name));
    if trimmed.len() == 0 {
        return Err(crate::text::owned("Project name cannot be empty."));
    }
    let task = match parse_task_type(task_type) {
        Some(t) => t,
        None => return Err(crate::text::owned("Choose detection, segmentation, or classification.")),
    };
    if task == TaskType::Classification {
        let mode = match classification_mode {
            Some(m) => parse_mode(m),
            None => Some(ClassificationMode::Single),
        };
        if mode.is_none() {
            return Err(crate::text::owned("Classification mode must be single or multi."));
        }
    }
    Ok(())
}

/// Creates the data of a new project at `root_path` with no images yet.
pub fn create(root_path: &str, name: &str, task_type: &str, classification_mode: Option<&str>, now: i64) -> (r: Result<
    ProjectData,
    String,
>)
    ensures
        ({
            let mode = match classification_mode {
                Some(m) => Some(m@),
                None => None,
            };
            &&& r is Ok <==> project_options_ok(name@, task_type@, mode)
            &&& r matches Ok(data) ==> {
                &&& data.wf()
                &&& data.project.id@.len() == 36
                &&& data.project.name@ == crate::text::trimmed(name@)
                &&& Some(data.project.task_type) == parse_task_spec(task_type@)
                &&& data.project.classification_mode == if data.project.task_type == TaskType::Classification {
                    requested_mode(mode)
                } else {
                    None
                }
                &&& data.project.root_path@ == root_path@
                &&& data.project.created_at_ms == now
                &&& data.project.updated_at_ms == now
                &&& data.project.last_image_id is None
                &&& data.classes.len() == 0
                &&& data.images.len() == 0
                &&& data.image_classes.len() == 0
                &&& data.annotations.len() == 0
                &&& data.drafts.len() == 0
                &&& data.active_class_id is None
                &&& data.history.len() == 0
                &&& data.next_sequence == 1
            }
        }),
{
    match validate_project_options(name, task_type, classification_mode) {
        Err(e) => return Err(e),
        Ok(()) => {},
    }
    let task = match parse_task_type(task_type) {
        Some(t) => t,
        None => return Err(crate::text::owned("Choose detection, segmentation, or classification.")),
    };
    let mode = if task == TaskType::Classification {
        match classification_mode {
            Some(m) => parse_mode(m),
            None => Some(ClassificationMode::Single),
        }
    } else {
        None
    };
    let data = ProjectData {
        project: ProjectRecord {
            id: new_id(),
            name: crate::text::trim(name),
            task_type: task,
            classification_mode: mode,
            root_path: crate::text::owned(root_path),
            created_at_ms: now,
            updated_at_ms: now,
            last_image_id: None,
        },
        classes: Vec::new(),
        images: Vec::new(),
        image_classes: Vec::new(),
        annotations: Vec::new(),
        drafts: Vec::new(),
        active_class_id: None,
        history: Vec::new(),
        next_sequence: 1,
    };
    Ok(data)
}

/// Which directory of the dataset holds the project.
#[derive(Clone, Copy, Debug, PartialEq, Eq, Structural)]
pub enum ProjectDirectory {
    /// `.yalt`
    Current,
    /// `.labeler`, the directory of earlier releases.
    Legacy,
}

/// The project directory: `.yalt` where it holds a database, else `.labeler` where that one does,
/// else `.yalt` for a new project.
pub fn project_directory_for_root(current_has_database: bool, legacy_has_database: bool) -> (r: ProjectDirectory)
    ensures
        r == if !current_has_database && legacy_has_database {
            ProjectDirectory::Legacy
        } else {
            ProjectDirectory::Current
        },
{
    if current_has_database {
        return ProjectDirectory::Current;
    }
    if legacy_has_database {
        return ProjectDirectory::Legacy;
    }
    ProjectDirectory::Current
}

/// The path of the project database below the dataset root.
pub open spec fn database_path_spec(d: ProjectDirectory) -> Seq<char> {
    match d {
        ProjectDirectory::Current => seq!['.', 'y', 'a', 'l', 't', '/', 'p', 'r', 'o', 'j', 'e', 'c', 't', '.', 's', 'q', 'l', 'i', 't', 'e'],
        ProjectDirectory::Legacy => seq!['.', 'l', 'a', 'b', 'e', 'l', 'e', 'r', '/', 'p', 'r', 'o', 'j', 'e', 'c', 't', '.', 's', 'q', 'l', 'i', 't', 'e'],
    }
}

/// The path of the project database below the dataset root.
pub fn project_database_path(current_has_database: bool, legacy_has_database: bool) -> (r: String)
    ensures
        r@ == database_path_spec(
            if !current_has_database && legacy_has_database {
                ProjectDirectory::Legacy
            } else {
                ProjectDirectory::Current
            },
        ),
{
    let v: Vec<char> = match project_directory_for_root(current_has_database, legacy_has_database) {
        ProjectDirectory::Current => vec!['.', 'y', 'a', 'l', 't', '/', 'p', 'r', 'o', 'j', 'e', 'c', 't', '.', 's', 'q', 'l', 'i', 't', 'e'],
        ProjectDirectory::Legacy => vec!['.', 'l', 'a', 'b', 'e', 'l', 'e', 'r', '/', 'p', 'r', 'o', 'j', 'e', 'c', 't', '.', 's', 'q', 'l', 'i', 't', 'e'],
    };
    proof {
        let d = if !current_has_database && legacy_has_database {
            ProjectDirectory::Legacy
        } else {
            ProjectDirectory::Current
        };
        assert(v@ =~= database_path_spec(d));
    }
    chars_to_string(v)
}

/// Refuses to work without a project database.
pub fn require_project_database(database_is_file: bool) -> (r: Result<(), String>)
    ensures
        r is Ok <==> database_is_file,
{
    if database_is_file {
        Ok(())
    } else {
        Err(crate::text::owned("No yalt project was found in this folder."))
    }
}

/// Refuses a database whose integrity check did not answer `ok`.
pub fn verify_integrity(check_result: &str) -> (r: Result<(), String>)
    ensures
        r is Ok <==> check_result@ == seq!['o', 'k'],
{
    let ok = vec!['o', 'k'];
    assert(ok@ =~= seq!['o', 'k']);
    if is_text(check_result, ok) {
        Ok(())
    } else {
        Err(crate::text::owned("The project database failed its integrity check."))
    }
}


/// The lower-cased extensions of image files: `jpg`, `jpeg`, `png`, `webp`, `tif`, `tiff`.
pub open spec fn image_extension(e: Seq<char>) -> bool {
    let l = crate::text::ascii_lowercase_spec(e);
    ||| l == seq!['j', 'p', 'g']
    ||| l == seq!['j', 'p', 'e', 'g']
    ||| l == seq!['p', 'n', 'g']
    ||| l == seq!['w', 'e', 'b', 'p']
    ||| l == seq!['t', 'i', 'f']
    ||| l == seq!['t', 'i', 'f', 'f']
}

/// Whether the file at `path` is an image the project indexes, by its extension.
pub open spec fn supported_image_spec(path: Seq<char>) -> bool {
    crate::paths::extension_spec(path) matches Some(e) && image_extension(e)
}

/// Indexing takes exactly the files whose extension, ignoring ASCII case, is `jpg`, `jpeg`, `png`,
/// `webp`, `tif` or `tiff`; a file without an extension is never taken.
pub proof fn law_supported_extensions(path: Seq<char>)
    ensures
        supported_image_spec(path) <==> (crate::paths::extension_spec(path) matches Some(e) && {
            let l = crate::text::ascii_lowercase_spec(e);
            ||| l == "jpg"@
            ||| l == "jpeg"@
            ||| l == "png"@
            ||| l == "webp"@
            ||| l == "tif"@
            ||| l == "tiff"@
        }),
{
    reveal_strlit("jpg");
    reveal_strlit("jpeg");
    reveal_strlit("png");
    reveal_strlit("webp");
    reveal_strlit("tif");
    reveal_strlit("tiff");
    assert("jpg"@ =~= seq!['j', 'p', 'g']);
    assert("jpeg"@ =~= seq!['j', 'p', 'e', 'g']);
    assert("png"@ =~= seq!['p', 'n', 'g']);
    assert("webp"@ =~= seq!['w', 'e', 'b', 'p']);
    assert("tif"@ =~= seq!['t', 'i', 'f']);
    assert("tiff"@ =~= seq!['t', 'i', 'f', 'f']);
}

fn lowered_extension(path: &str) -> (r: Option<Vec<char>>)
    ensures
        match crate::paths::extension_spec(path@) {
            Some(e) => r matches Some(l) && l@ == crate::text::ascii_lowercase_spec(e),
            None => r is None,
        },
{
    match crate::paths::extension_of(&crate::text::chars_of(path)) {
        Some(e) => Some(crate::text::ascii_lowercase(&e)),
        None => None,
    }
}

/// Whether the file at `path` is an image the project indexes.
pub fn is_supported_image(path: &str) -> (r: bool)
    ensures
        r == supported_image_spec(path@),
{
    match lowered_extension(path) {
        None => false,
        Some(l) => {
            let a = vec!['j', 'p', 'g'];
            let b = vec!['j', 'p', 'e', 'g'];
            let c = vec!['p', 'n', 'g'];
            let d = vec!['w', 'e', 'b', 'p'];
            let e = vec!['t', 'i', 'f'];
            let f = vec!['t', 'i', 'f', 'f'];
            assert(a@ =~= seq!['j', 'p', 'g']);
            assert(b@ =~= seq!['j', 'p', 'e', 'g']);
            assert(c@ =~= seq!['p', 'n', 'g']);
            assert(d@ =~= seq!['w', 'e', 'b', 'p']);
            assert(e@ =~= seq!['t', 'i', 'f']);
            assert(f@ =~= seq!['t', 'i', 'f', 'f']);
            crate::text::chars_eq(&l, &a) || crate::text::chars_eq(&l, &b) || crate::text::chars_eq(&l, &c)
                || crate::text::chars_eq(&l, &d) || crate::text::chars_eq(&l, &e) || crate::text::chars_eq(&l, &f)
        },
    }
}

/// Whether a JPEG file, by its extension: the files that carry an EXIF orientation.
pub open spec fn is_jpeg_spec(path: Seq<char>) -> bool {
    crate::paths::extension_spec(path) matches Some(e) && (crate::text::ascii_lowercase_spec(e) == seq!['j', 'p', 'g']
        || crate::text::ascii_lowercase_spec(e) == seq!['j', 'p', 'e', 'g'])
}

/// Whether the file at `path` is a JPEG file.
pub fn is_jpeg(path: &str) -> (r: bool)
    ensures
        r == is_jpeg_spec(path@),
{
    match lowered_extension(path) {
        None => false,
        Some(l) => {
            let a = vec!['j', 'p', 'g'];
            let b = vec!['j', 'p', 'e', 'g'];
            assert(a@ =~= seq!['j', 'p', 'g']);
            assert(b@ =~= seq!['j', 'p', 'e', 'g']);
            crate::text::chars_eq(&l, &a) || crate::text::chars_eq(&l, &b)
        },
    }
}

/// The orientation an image is indexed with: the EXIF value of a JPEG file when it is one of the
/// eight orientations, else 1.
pub fn exif_orientation(jpeg: bool, value: Option<u32>) -> (r: u16)
    ensures
        r == match value {
            Some(v) if jpeg && 1 <= v <= 8 => v as u16,
            _ => 1u16,
        },
{
    if !jpeg {
        return 1;
    }
    match value {
        Some(v) => {
            if 1 <= v && v <= 8 {
                v as u16
            } else {
                1
            }
        },
        None => 1,
    }
}

/// Whether the walk into the dataset enters an entry: files always; not the project directories
/// nor `deleted`; hidden directories only at the root.
pub open spec fn should_visit_spec(is_dir: bool, name: Seq<char>, depth: int) -> bool {
    if !is_dir {
        true
    } else if name == crate::classification::project_directory_name() || name
        == crate::classification::legacy_directory_name() || crate::text::eq_ignore_ascii_case_spec(
        name,
        crate::classification::deleted_name(),
    ) {
        false
    } else {
        depth == 0 || !(name.len() > 0 && name[0] == '.')
    }
}

/// Whether the walk into the dataset enters the entry `name` at `depth`.
pub fn should_visit(is_dir: bool, name: &str, depth: usize) -> (r: bool)
    ensures
        r == should_visit_spec(is_dir, name@, depth as int),
{
    if !is_dir {
        return true;
    }
    let v = crate::text::chars_of(name);
    let current = vec!['.', 'y', 'a', 'l', 't'];
    let legacy = vec!['.', 'l', 'a', 'b', 'e', 'l', 'e', 'r'];
    let deleted = vec!['d', 'e', 'l', 'e', 't', 'e', 'd'];
    assert(current@ =~= crate::classification::project_directory_name());
    assert(legacy@ =~= crate::classification::legacy_directory_name());
    assert(deleted@ =~= crate::classification::deleted_name());
    if crate::text::chars_eq(&v, &current) || crate::text::chars_eq(&v, &legacy) || crate::text::eq_ignore_ascii_case(&v, &deleted) {
        return false;
    }
    depth == 0 || !(v.len() > 0 && v[0] == '.')
}

/// One step that turns a decoded image upright.
#[derive(Clone, Copy, Debug, PartialEq, Eq, Structural)]
pub enum Transform {
    FlipHorizontal,
    FlipVertical,
    Rotate90,
    Rotate180,
    Rotate270,
}

/// The steps that turn an image with EXIF orientation `o` upright.
pub open spec fn orientation_steps(o: u16) -> Seq<Transform> {
    if o == 2 {
        seq![Transform::FlipHorizontal]
    } else if o == 3 {
        seq![Transform::Rotate180]
    } else if o == 4 {
        seq![Transform::FlipVertical]
    } else if o == 5 {
        seq![Transform::Rotate90, Transform::FlipHorizontal]
    } else if o == 6 {
        seq![Transform::Rotate90]
    } else if o == 7 {
        seq![Transform::Rotate270, Transform::FlipHorizontal]
    } else if o == 8 {
        seq![Transform::Rotate270]
    } else {
        seq![]
    }
}

/// The steps that turn an image with EXIF orientation `orientation` upright.
pub fn orientation_transforms(orientation: u16) -> (r: Vec<Transform>)
    ensures
        r@ == orientation_steps(orientation),
{
    let v = if orientation == 2 {
        vec![Transform::FlipHorizontal]
    } else if orientation == 3 {
        vec![Transform::Rotate180]
    } else if orientation == 4 {
        vec![Transform::FlipVertical]
    } else if orientation == 5 {
        vec![Transform::Rotate90, Transform::FlipHorizontal]
    } else if orientation == 6 {
        vec![Transform::Rotate90]
    } else if orientation == 7 {
        vec![Transform::Rotate270, Transform::FlipHorizontal]
    } else if orientation == 8 {
        vec![Transform::Rotate270]
    } else {
        Vec::new()
    };
    assert(v@ =~= orientation_steps(orientation));
    v
}

/// How the workspace gets the bytes of an image.
#[derive(Clone, Copy, Debug, PartialEq, Eq, Structural)]
pub enum DisplayEncoding {
    /// The file as it is.
    Original,
    /// Decoded, turned upright and written as PNG.
    Png,
    /// Decoded, turned upright and written as JPEG.
    Jpeg,
}

/// Upright JPEG, PNG and WebP files are shown as they are; others are turned upright and written
/// as PNG (TIFF) or JPEG.
pub open spec fn display_encoding_spec(path: Seq<char>, orientation: u16) -> DisplayEncoding {
    let e = match crate::paths::extension_spec(path) {
        Some(e) => crate::text::ascii_lowercase_spec(e),
        None => seq![],
    };
    if orientation == 1 && (e == seq!['j', 'p', 'g'] || e == seq!['j', 'p', 'e', 'g'] || e == seq!['p', 'n', 'g']
        || e == seq!['w', 'e', 'b', 'p']) {
        DisplayEncoding::Original
    } else if e == seq!['t', 'i', 'f'] || e == seq!['t', 'i', 'f', 'f'] {
        DisplayEncoding::Png
    } else {
        DisplayEncoding::Jpeg
    }
}

/// How the workspace gets the bytes of the image at `path`.
pub fn display_encoding(path: &str, orientation: u16) -> (r: DisplayEncoding)
    ensures
        r == display_encoding_spec(path@, orientation),
{
    let e = match lowered_extension(path) {
        Some(l) => l,
        None => Vec::new(),
    };
    let a = vec!['j', 'p', 'g'];
    let b = vec!['j', 'p', 'e', 'g'];
    let c = vec!['p', 'n', 'g'];
    let d = vec!['w', 'e', 'b', 'p'];
    let t1 = vec!['t', 'i', 'f'];
    let t2 = vec!['t', 'i', 'f', 'f'];
    assert(a@ =~= seq!['j', 'p', 'g']);
    assert(b@ =~= seq!['j', 'p', 'e', 'g']);
    assert(c@ =~= seq!['p', 'n', 'g']);
    assert(d@ =~= seq!['w', 'e', 'b', 'p']);
    assert(t1@ =~= seq!['t', 'i', 'f']);
    assert(t2@ =~= seq!['t', 'i', 'f', 'f']);
    if orientation == 1 && (crate::text::chars_eq(&e, &a) || crate::text::chars_eq(&e, &b) || crate::text::chars_eq(&e, &c)
        || crate::text::chars_eq(&e, &d)) {
        DisplayEncoding::Original
    } else if crate::text::chars_eq(&e, &t1) || crate::text::chars_eq(&e, &t2) {
        DisplayEncoding::Png
    } else {
        DisplayEncoding::Jpeg
    }
}

/// The character of the standard base64 alphabet for the six-bit value `v`.
pub open spec fn base64_digit(v: int) -> char {
    if v < 26 {
        (65 + v) as char
    } else if v < 52 {
        (97 + v - 26) as char
    } else if v < 62 {
        (48 + v - 52) as char
    } else if v == 62 {
        '+'
    } else {
        '/'
    }
}

/// `bytes` in standard base64 with `=` padding: every three bytes become four characters of the
/// alphabet `A`–`Z`, `a`–`z`, `0`–`9`, `+`, `/`, and a last group of one or two bytes is padded.
pub open spec fn base64_standard(bytes: Seq<u8>) -> Seq<char>
    decreases bytes.len(),
{
    if bytes.len() == 0 {
        seq![]
    } else if bytes.len() == 1 {
        let b0 = bytes[0] as int;
        seq![base64_digit(b0 / 4), base64_digit((b0 % 4) * 16), '=', '=']
    } else if bytes.len() == 2 {
        let b0 = bytes[0] as int;
        let b1 = bytes[1] as int;
        seq![base64_digit(b0 / 4), base64_digit((b0 % 4) * 16 + b1 / 16), base64_digit((b1 % 16) * 4), '=']
    } else {
        let b0 = bytes[0] as int;
        let b1 = bytes[1] as int;
        let b2 = bytes[2] as int;
        seq![
            base64_digit(b0 / 4),
            base64_digit((b0 % 4) * 16 + b1 / 16),
            base64_digit((b1 % 16) * 4 + b2 / 64),
            base64_digit(b2 % 64),
        ] + base64_standard(bytes.subrange(3, bytes.len() as int))
    }
}

/// Calls `base64::engine::general_purpose::STANDARD.encode`: the bytes in standard base64 with
/// padding (the engine's `STANDARD` alphabet and `PAD` configuration).
#[verifier::external_body]
fn base64_encode(bytes: &Vec<u8>) -> (r: String)
    ensures
        r@ == base64_standard(bytes@),
{
    base64::engine::general_purpose::STANDARD.encode(bytes)
}

/// `data:image/jpeg;base64,`
pub open spec fn jpeg_data_prefix() -> Seq<char> {
    seq!['d', 'a', 't', 'a', ':', 'i', 'm', 'a', 'g', 'e', '/', 'j', 'p', 'e', 'g', ';', 'b', 'a', 's', 'e', '6', '4', ',']
}

/// The data URL of a JPEG thumbnail.
pub fn thumbnail_data_url(jpeg: &Vec<u8>) -> (r: String)
    ensures
        r@ == jpeg_data_prefix() + base64_standard(jpeg@),
{
    let v = vec!['d', 'a', 't', 'a', ':', 'i', 'm', 'a', 'g', 'e', '/', 'j', 'p', 'e', 'g', ';', 'b', 'a', 's', 'e', '6', '4', ','];
    assert(v@ =~= jpeg_data_prefix());
    let mut out = chars_to_string(v);
    let encoded = base64_encode(jpeg);
    crate::text::push_all(&mut out, encoded.as_str());
    out
}

/// The normal components of a path joined with `/`: the form the index stores.
pub fn normalize_relative_path(path: &str) -> (r: String)
    ensures
        r@ == crate::paths::normalized_spec(path@),
{
    crate::text::string_of(&crate::paths::normalize(&crate::text::chars_of(path)))
}

proof fn lemma_indexed_keeps(base: Seq<ImageRow>, items: Seq<DiscoveredImage>, ids: Seq<String>, now: i64, i: int)
    requires
        0 <= i < base.len(),
    ensures
        ({
            let after = indexed(base, items, ids, now);
            &&& i < after.len()
            &&& after[i].id == base[i].id
            &&& after[i].relative_path == base[i].relative_path
            &&& (forall|k: int| 0 <= k < items.len() ==> (#[trigger] items[k]).relative_path@ != base[i].relative_path@)
                ==> after[i] == base[i]
        }),
    decreases items.len(),
{
    if items.len() > 0 {
        let d = items.drop_last();
        lemma_indexed_keeps(base, d, ids, now, i);
        let prev = indexed(base, d, ids, now);
        let item = items.last();
        lemma_path_index(prev, item.relative_path@);
        if forall|k: int| 0 <= k < items.len() ==> (#[trigger] items[k]).relative_path@ != base[i].relative_path@ {
            assert forall|k: int| 0 <= k < d.len() implies (#[trigger] d[k]).relative_path@ != base[i].relative_path@ by {
                assert(d[k] == items[k]);
            }
            assert(items[items.len() - 1].relative_path@ != base[i].relative_path@);
        }
    }
}

/// No two images share a relative path (the `UNIQUE` constraint of the `images` table).
pub open spec fn paths_unique(images: Seq<ImageRow>) -> bool {
    forall|a: int, b: int|
        0 <= a < images.len() && 0 <= b < images.len() && a != b ==> images[a].relative_path@ != images[b].relative_path@
}

proof fn lemma_path_index_unique(images: Seq<ImageRow>, i: int)
    requires
        paths_unique(images),
        0 <= i < images.len(),
    ensures
        path_index(images, images[i].relative_path@) == i,
{
    lemma_path_index(images, images[i].relative_path@);
}

proof fn lemma_indexed_found(base: Seq<ImageRow>, items: Seq<DiscoveredImage>, ids: Seq<String>, now: i64, i: int)
    requires
        paths_unique(base),
        0 <= i < base.len(),
    ensures
        ({
            let after = indexed(base, items, ids, now);
            &&& paths_unique(after)
            &&& i < after.len()
            &&& after[i].relative_path == base[i].relative_path
            &&& (after[i].status == ImageStatus::Deleted) == (base[i].status == ImageStatus::Deleted)
            &&& (exists|k: int| 0 <= k < items.len() && (#[trigger] items[k]).relative_path@ == base[i].relative_path@)
                ==> after[i].status == if base[i].status == ImageStatus::Deleted {
                    ImageStatus::Deleted
                } else {
                    ImageStatus::Active
                }
        }),
    decreases items.len(),
{
    if items.len() > 0 {
        let d = items.drop_last();
        lemma_indexed_found(base, d, ids, now, i);
        let prev = indexed(base, d, ids, now);
        let item = items.last();
        let idx = path_index(prev, item.relative_path@);
        lemma_path_index(prev, item.relative_path@);
        let after = indexed(base, items, ids, now);
        if idx >= 0 {
            assert forall|a: int, b: int| 0 <= a < after.len() && 0 <= b < after.len() && a != b
                implies after[a].relative_path@ != after[b].relative_path@ by {
                assert(after[a].relative_path == prev[a].relative_path);
                assert(after[b].relative_path == prev[b].relative_path);
            }
            if item.relative_path@ == base[i].relative_path@ {
                lemma_path_index_unique(prev, i);
            }
        } else {
            assert forall|a: int, b: int| 0 <= a < after.len() && 0 <= b < after.len() && a != b
                implies after[a].relative_path@ != after[b].relative_path@ by {
                if a < prev.len() && b < prev.len() {
                    assert(after[a] == prev[a] && after[b] == prev[b]);
                } else if a < prev.len() {
                    assert(after[a] == prev[a]);
                } else {
                    assert(after[b] == prev[b]);
                }
            }
        }
        if exists|k: int| 0 <= k < items.len() && (#[trigger] items[k]).relative_path@ == base[i].relative_path@ {
            if item.relative_path@ != base[i].relative_path@ {
                let k = choose|k: int| 0 <= k < items.len() && (#[trigger] items[k]).relative_path@ == base[i].relative_path@;
                assert(k < items.len() - 1);
                assert(d[k] == items[k]);
            }
        }
    }
}

/// Indexing again finds an image whose file is still there: it is active again, unless it was
/// deleted, where paths are unique.
pub proof fn law_rescan_finds_images(images: Seq<ImageRow>, items: Seq<DiscoveredImage>, ids: Seq<String>, now: i64, i: int)
    requires
        paths_unique(images),
        0 <= i < images.len(),
        exists|k: int| 0 <= k < items.len() && (#[trigger] items[k]).relative_path@ == images[i].relative_path@,
    ensures
        ({
            let after = indexed(marked_missing(images, now), items, ids, now);
            &&& i < after.len()
            &&& after[i].status == if images[i].status == ImageStatus::Deleted {
                ImageStatus::Deleted
            } else {
                ImageStatus::Active
            }
        }),
{
    let base = marked_missing(images, now);
    assert(paths_unique(base)) by {
        assert forall|a: int, b: int| 0 <= a < base.len() && 0 <= b < base.len() && a != b
            implies base[a].relative_path@ != base[b].relative_path@ by {
            assert(base[a].relative_path == images[a].relative_path);
            assert(base[b].relative_path == images[b].relative_path);
        }
    }
    assert(base[i].relative_path == images[i].relative_path);
    assert((base[i].status == ImageStatus::Deleted) == (images[i].status == ImageStatus::Deleted));
    lemma_indexed_found(base, items, ids, now, i);
}

/// Indexing again never forgets an image: every indexed image keeps its id and its path, and an
/// active image whose file is not found again becomes missing while any other keeps its status.
pub proof fn law_rescan_keeps_images(images: Seq<ImageRow>, items: Seq<DiscoveredImage>, ids: Seq<String>, now: i64, i: int)
    requires
        0 <= i < images.len(),
    ensures
        ({
            let after = indexed(marked_missing(images, now), items, ids, now);
            &&& i < after.len()
            &&& after[i].id == images[i].id
            &&& after[i].relative_path == images[i].relative_path
            &&& (forall|k: int| 0 <= k < items.len() ==> (#[trigger] items[k]).relative_path@ != images[i].relative_path@)
                ==> after[i].status == if images[i].status == ImageStatus::Active {
                    ImageStatus::Missing
                } else {
                    images[i].status
                }
        }),
{
    let base = marked_missing(images, now);
    assert(base[i].id == images[i].id && base[i].relative_path == images[i].relative_path);
    lemma_indexed_keeps(base, items, ids, now, i);
}

proof fn lemma_indexed_len(images: Seq<ImageRow>, items: Seq<DiscoveredImage>, ids: Seq<String>, now: i64)
    ensures
        indexed(images, items, ids, now).len() <= images.len() + items.len(),
    decreases items.len(),
{
    if items.len() > 0 {
        lemma_indexed_len(images, items.drop_last(), ids, now);
        lemma_path_index(indexed(images, items.drop_last(), ids, now), items.last().relative_path@);
    }
}

/// Indexes the files found on disk again as `index_images_with_ids` does, the file at position
/// `k` of the sorted order taking `new_ids[k]` where it adds an image, and summarizes the
/// project; also returns the ids of images whose cached thumbnails are stale.
pub fn rescan_with_ids(data: &mut ProjectData, discovered: Vec<DiscoveredImage>, new_ids: Vec<String>, now: i64) -> (r: Result<
    (ProjectSummary, Vec<String>),
    String,
>)
    requires
        old(data).wf(),
        old(data).images.len() + discovered.len() <= i64::MAX,
        new_ids.len() == discovered.len(),
    ensures
        final(data).wf(),
        r is Ok <==> ids_fresh(
            marked_missing(old(data).images@, now),
            crate::text::stable_sorted(discovered@, path_before()),
            new_ids@,
            now,
        ),
        r is Err ==> *final(data) == *old(data),
        r matches Ok((s, stale)) ==> {
            let items = crate::text::stable_sorted(discovered@, path_before());
            let marked = marked_missing(old(data).images@, now);
            &&& final(data).images@ == indexed(marked, items, new_ids@, now)
            &&& crate::classification::texts(stale@) == stale_thumbnails(marked, items)
            &&& s.image_count == status_count(final(data).images@, ImageStatus::Active)
            &&& s.missing_image_count == status_count(final(data).images@, ImageStatus::Missing)
            &&& s.deleted_image_count == status_count(final(data).images@, ImageStatus::Deleted)
            &&& s.updated_at_ms == now
            &&& s.id == old(data).project.id
        },
{
    let ghost before = data.images@;
    let ghost ids = new_ids@;
    let stale = match index_images_with_ids(data, discovered, new_ids, now) {
        Ok(s) => s,
        Err(e) => return Err(e),
    };
    proof {
        let items = crate::text::stable_sorted(discovered@, path_before());
        crate::text::lemma_stable_sorted_len(discovered@, path_before());
        lemma_indexed_len(marked_missing(before, now), items, ids, now);
    }
    match summary(data) {
        Ok(s) => Ok((s, stale)),
        Err(e) => Err(e),
    }
}

/// Indexes the files found on disk again and summarizes the project as `rescan_with_ids` does,
/// each file drawing a new random id for the image it may add.
pub fn rescan(data: &mut ProjectData, discovered: Vec<DiscoveredImage>, now: i64) -> (r: Result<
    (ProjectSummary, Vec<String>),
    String,
>)
    requires
        old(data).wf(),
        old(data).images.len() + discovered.len() <= i64::MAX,
    ensures
        final(data).wf(),
        files_indexed(old(data).images@, discovered@) ==> r is Ok,
        no_uuid_image_ids(old(data).images@) && one_new_path(old(data).images@, discovered@) ==> r is Ok,
        r is Err ==> *final(data) == *old(data),
        r matches Ok((s, stale)) ==> {
            let items = crate::text::stable_sorted(discovered@, path_before());
            let marked = marked_missing(old(data).images@, now);
            &&& exists|ids: Seq<String>| final(data).images@ == #[trigger] indexed(marked, items, ids, now)
            &&& crate::classification::texts(stale@) == stale_thumbnails(marked, items)
            &&& s.image_count == status_count(final(data).images@, ImageStatus::Active)
            &&& s.missing_image_count == status_count(final(data).images@, ImageStatus::Missing)
            &&& s.deleted_image_count == status_count(final(data).images@, ImageStatus::Deleted)
            &&& s.updated_at_ms == now
            &&& s.id == old(data).project.id
        },
{
    let new_ids = random_ids(discovered.len());
    let ghost ids = new_ids@;
    proof {
        if files_indexed(data.images@, discovered@) {
            lemma_known_files_fresh(data.images@, discovered@, ids, now);
        }
        if no_uuid_image_ids(data.images@) && one_new_path(data.images@, discovered@) {
            lemma_one_new_fresh(data.images@, discovered@, ids, now);
        }
    }
    let r = rescan_with_ids(data, discovered, new_ids, now);
    proof {
        if r is Ok {
            let items = crate::text::stable_sorted(discovered@, path_before());
            let marked = marked_missing(old(data).images@, now);
            assert(data.images@ == indexed(marked, items, ids, now));
        }
    }
    r
}

} // verus!
