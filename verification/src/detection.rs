//! Classes, bounding-box annotations and their history.
use vstd::prelude::*;
use crate::project::{ProjectData, TaskType};
use crate::workspace::{
    applied_len, lemma_applied_len, recorded, record_operation, set_applied, AnnotationChange,
    HistoryEntry, Operation,
};
use crate::text::{
    chars_of, eq_ignore_ascii_case, eq_ignore_ascii_case_spec, owned, string_of, trim_chars,
    trimmed,
};

verus! {

/// A class, at its position in the class list.
#[derive(Debug, Clone, PartialEq)]
pub struct ClassRecord {
    pub id: String,
    pub name: String,
    pub position: i64,
    pub color: String,
    pub shortcut: Option<String>,
}

/// The kind of an annotation row.
#[derive(Clone, Copy, Debug, PartialEq, Eq, Structural)]
pub enum AnnotationKind {
    Bbox,
    Polygon,
}

/// A row of the `annotations` table; the geometry is kept as the JSON text that the table stores.
pub struct AnnotationRow {
    pub id: String,
    pub image_id: String,
    pub class_id: String,
    pub kind: AnnotationKind,
    pub geometry_json: String,
    pub is_visible: bool,
    pub created_at_ms: i64,
    pub updated_at_ms: i64,
}

/// The classes of a spatial project and the class that new annotations take.
#[derive(Debug, Clone)]
pub struct DetectionState {
    pub classes: Vec<ClassRecord>,
    pub active_class_id: Option<String>,
}

/// What an import or export did.
#[derive(Debug, Clone)]
pub struct ImportReport {
    pub annotations: usize,
    pub matched_images: usize,
    pub skipped: usize,
    pub classes: usize,
    pub message: String,
}

pub fn clone_text(s: &String) -> (r: String)
    ensures
        r == *s,
{
    s.clone()
}

pub fn clone_opt_text(s: &Option<String>) -> (r: Option<String>)
    ensures
        r == *s,
{
    match s {
        Some(t) => Some(t.clone()),
        None => None,
    }
}

impl ClassRecord {
    /// A copy of this record.
    pub fn duplicate(&self) -> (r: ClassRecord)
        ensures
            r == *self,
    {
        ClassRecord {
            id: self.id.clone(),
            name: self.name.clone(),
            position: self.position,
            color: self.color.clone(),
            shortcut: clone_opt_text(&self.shortcut),
        }
    }
}

impl AnnotationRow {
    /// A copy of this row.
    pub fn duplicate(&self) -> (r: AnnotationRow)
        ensures
            r == *self,
    {
        AnnotationRow {
            id: self.id.clone(),
            image_id: self.image_id.clone(),
            class_id: self.class_id.clone(),
            kind: self.kind,
            geometry_json: self.geometry_json.clone(),
            is_visible: self.is_visible,
            created_at_ms: self.created_at_ms,
            updated_at_ms: self.updated_at_ms,
        }
    }
}

/// A copy of a class list.
pub fn clone_classes(v: &Vec<ClassRecord>) -> (r: Vec<ClassRecord>)
    ensures
        r@ == v@,
{
    let mut r: Vec<ClassRecord> = Vec::new();
    for i in 0..v.len()
        invariant
            r@ == v@.take(i as int),
    {
        r.push(v[i].duplicate());
        assert(v@.take(i + 1) == v@.take(i as int).push(v@[i as int]));
    }
    assert(v@.take(v.len() as int) == v@);
    r
}

/// Bytes that `c` takes in UTF-8.
pub open spec fn char_utf8_len(c: char) -> int {
    let n = c as u32;
    if n < 0x80 {
        1
    } else if n < 0x800 {
        2
    } else if n < 0x10000 {
        3
    } else {
        4
    }
}

/// Bytes that `s` takes in UTF-8 (`str::len`).
pub open spec fn utf8_len(s: Seq<char>) -> int
    decreases s.len(),
{
    if s.len() == 0 {
        0
    } else {
        utf8_len(s.drop_last()) + char_utf8_len(s.last())
    }
}

/// The name a class takes from `name`, or `None` where `name` is refused: trimmed, 1 to 100 bytes,
/// on one line.
pub open spec fn valid_class_name_spec(name: Seq<char>) -> Option<Seq<char>> {
    let t = trimmed(name);
    if t.len() == 0 || utf8_len(t) > 100 || t.contains('\n') || t.contains('\r') {
        None
    } else {
        Some(t)
    }
}

proof fn lemma_utf8_len_mono(s: Seq<char>, i: int)
    requires
        0 <= i <= s.len(),
    ensures
        utf8_len(s.take(i)) <= utf8_len(s),
        utf8_len(s) >= 0,
    decreases s.len() - i,
{
    if i < s.len() {
        lemma_utf8_len_mono(s, i + 1);
        assert(s.take(i + 1).drop_last() =~= s.take(i));
    } else {
        assert(s.take(i) =~= s);
    }
    lemma_utf8_len_nonneg(s);
}

proof fn lemma_utf8_len_nonneg(s: Seq<char>)
    ensures
        utf8_len(s) >= 0,
    decreases s.len(),
{
    if s.len() > 0 {
        lemma_utf8_len_nonneg(s.drop_last());
    }
}

/// The trimmed class name, or the message that refuses it.
pub fn valid_class_name(name: &str) -> (r: Result<String, String>)
    ensures
        match r {
            Ok(n) => valid_class_name_spec(name@) == Some(n@),
            Err(_) => valid_class_name_spec(name@) is None,
        },
{
    let t = trim_chars(&chars_of(name));
    let mut bytes: usize = 0;
    let mut i: usize = 0;
    let mut bad = t.len() == 0;
    while i < t.len() && !bad
        invariant
            i <= t.len(),
            !bad ==> bytes == utf8_len(t@.take(i as int)),
            bad ==> t@.len() == 0 || utf8_len(t@) > 100 || t@.contains('\n') || t@.contains('\r'),
            !bad ==> bytes <= 100,
            !bad ==> t@.len() > 0,
            !bad ==> forall|k: int| 0 <= k < i ==> t@[k] != '\n' && t@[k] != '\r',
        decreases t.len() - i + if bad { 0int } else { 1int },
    {
        let c = t[i];
        let n = c as u32;
        let w: usize = if n < 0x80 {
            1
        } else if n < 0x800 {
            2
        } else if n < 0x10000 {
            3
        } else {
            4
        };
        assert(t@.take(i + 1).drop_last() =~= t@.take(i as int));
        if c == '\n' || c == '\r' {
            bad = true;
        } else if bytes + w > 100 {
            proof {
                lemma_utf8_len_mono(t@, i + 1);
            }
            bad = true;
        } else {
            bytes = bytes + w;
            i = i + 1;
        }
    }
    if bad {
        Err(owned("Class names must contain 1–100 characters on one line."))
    } else {
        assert(t@.take(t.len() as int) =~= t@);
        assert(t@ == trimmed(name@));
        assert(utf8_len(t@) <= 100);
        assert(t@.len() > 0);
        assert(!t@.contains('\n') && !t@.contains('\r')) by {
            if t@.contains('\n') {
                let k = choose|k: int| 0 <= k < t@.len() && t@[k] == '\n';
                assert(t@[k] != '\n');
            }
            if t@.contains('\r') {
                let k = choose|k: int| 0 <= k < t@.len() && t@[k] == '\r';
                assert(t@[k] != '\r');
            }
        }
        Ok(string_of(&t))
    }
}

/// The visible shortcut of the class at `position`: `1` to `9`, then `0`.
pub open spec fn shortcut_spec(position: int) -> Option<Seq<char>> {
    if 0 <= position <= 8 {
        Some(seq![((position + 49) as u8) as char])
    } else if position == 9 {
        Some(seq!['0'])
    } else {
        None
    }
}

/// The visible shortcut of the class at `position`.
pub fn shortcut_for(position: i64) -> (r: Option<String>)
    ensures
        match r {
            Some(s) => shortcut_spec(position as int) == Some(s@),
            None => shortcut_spec(position as int) is None,
        },
{
    if 0 <= position && position <= 8 {
        let d: u8 = (position as u8) + 49;
        let mut s = String::new();
        s.push(d as char);
        Some(s)
    } else if position == 9 {
        let mut s = String::new();
        s.push('0');
        Some(s)
    } else {
        None
    }
}

/// The color of the class at `position`: twelve spectrum colors in turn.
pub open spec fn spectrum_color_spec(position: int) -> Seq<char> {
    let k = position % 12;
    if k == 0 {
        "#9B6CFF"@
    } else if k == 1 {
        "#657BFF"@
    } else if k == 2 {
        "#3E9DEB"@
    } else if k == 3 {
        "#35C9D0"@
    } else if k == 4 {
        "#43CE87"@
    } else if k == 5 {
        "#8FCB55"@
    } else if k == 6 {
        "#D4C84E"@
    } else if k == 7 {
        "#E8A245"@
    } else if k == 8 {
        "#ED7354"@
    } else if k == 9 {
        "#E65362"@
    } else if k == 10 {
        "#D54D9A"@
    } else {
        "#A95AC8"@
    }
}

/// The color of the class at `position`.
pub fn spectrum_color(position: usize) -> (r: String)
    ensures
        r@ == spectrum_color_spec(position as int),
{
    let k = position % 12;
    if k == 0 {
        owned("#9B6CFF")
    } else if k == 1 {
        owned("#657BFF")
    } else if k == 2 {
        owned("#3E9DEB")
    } else if k == 3 {
        owned("#35C9D0")
    } else if k == 4 {
        owned("#43CE87")
    } else if k == 5 {
        owned("#8FCB55")
    } else if k == 6 {
        owned("#D4C84E")
    } else if k == 7 {
        owned("#E8A245")
    } else if k == 8 {
        owned("#ED7354")
    } else if k == 9 {
        owned("#E65362")
    } else if k == 10 {
        owned("#D54D9A")
    } else {
        owned("#A95AC8")
    }
}


/// The view of an optional text.
pub open spec fn opt_view(o: Option<String>) -> Option<Seq<char>> {
    match o {
        Some(s) => Some(s@),
        None => None,
    }
}

/// Whether a class with id `id` exists.
pub open spec fn has_class(classes: Seq<ClassRecord>, id: Seq<char>) -> bool {
    exists|i: int| 0 <= i < classes.len() && (#[trigger] classes[i]).id@ == id
}

/// Whether a class other than the one at index `except` has `name`, ASCII case ignored
/// (the unique `NOCASE` index on class names).
pub open spec fn name_taken(classes: Seq<ClassRecord>, name: Seq<char>, except: int) -> bool {
    exists|i: int|
        0 <= i < classes.len() && i != except && eq_ignore_ascii_case_spec(
            (#[trigger] classes[i]).name@,
            name,
        )
}

/// Under distinct ids, the class chosen for `id` is the one at `i`.
pub proof fn lemma_class_unique(classes: Seq<ClassRecord>, id: Seq<char>, i: int)
    requires
        crate::project::classes_wf(classes),
        0 <= i < classes.len(),
        classes[i].id@ == id,
    ensures
        (choose|j: int| 0 <= j < classes.len() && (#[trigger] classes[j]).id@ == id) == i,
{
    assert(0 <= i < classes.len() && classes[i].id@ == id);
}

/// The index of the class with id `id`.
pub fn find_class(classes: &Vec<ClassRecord>, id: &str) -> (r: Option<usize>)
    ensures
        match r {
            Some(i) => i < classes.len() && classes@[i as int].id@ == id@,
            None => !has_class(classes@, id@),
        },
{
    let key = owned(id);
    for i in 0..classes.len()
        invariant
            key@ == id@,
            forall|k: int| 0 <= k < i ==> classes@[k].id@ != id@,
    {
        if classes[i].id == key {
            return Some(i);
        }
    }
    None
}

/// Whether a class other than the one at `except` has `name`, ASCII case ignored.
pub fn find_name(classes: &Vec<ClassRecord>, name: &Vec<char>, except: Option<usize>) -> (r: bool)
    ensures
        r == name_taken(
            classes@,
            name@,
            match except {
                Some(e) => e as int,
                None => -1,
            },
        ),
{
    let ghost ex: int = match except {
        Some(e) => e as int,
        None => -1,
    };
    for i in 0..classes.len()
        invariant
            ex == match except {
                Some(e) => e as int,
                None => -1,
            },
            forall|k: int|
                0 <= k < i && k != ex ==> !eq_ignore_ascii_case_spec(classes@[k].name@, name@),
    {
        let skip = match except {
            Some(e) => e == i,
            None => false,
        };
        if !skip && eq_ignore_ascii_case(&chars_of(classes[i].name.as_str()), name) {
            return true;
        }
    }
    false
}

/// The class that new annotations take: the stored one while it exists, else the first class.
pub open spec fn active_class_spec(classes: Seq<ClassRecord>, stored: Option<String>) -> Option<
    Seq<char>,
> {
    match stored {
        Some(id) if has_class(classes, id@) => Some(id@),
        _ => if classes.len() > 0 {
            Some(classes[0].id@)
        } else {
            None
        },
    }
}

/// The classes of a spatial project and its active class.
pub fn state(data: &ProjectData) -> (r: Result<DetectionState, String>)
    ensures
        r matches Ok(st) && st.classes@ == data.classes@ && opt_view(st.active_class_id)
            == active_class_spec(data.classes@, data.active_class_id),
{
    let classes = clone_classes(&data.classes);
    let active = match &data.active_class_id {
        Some(id) => match find_class(&classes, id.as_str()) {
            Some(_) => Some(id.clone()),
            None => if classes.len() > 0 {
                Some(classes[0].id.clone())
            } else {
                None
            },
        },
        None => if classes.len() > 0 {
            Some(classes[0].id.clone())
        } else {
            None
        },
    };
    Ok(DetectionState { classes, active_class_id: active })
}

/// The tables that class edits leave alone.
pub open spec fn same_content(a: &ProjectData, b: &ProjectData) -> bool {
    &&& a.images == b.images
    &&& a.image_classes == b.image_classes
    &&& a.annotations == b.annotations
    &&& a.drafts == b.drafts
    &&& a.history == b.history
    &&& a.next_sequence == b.next_sequence
}

/// The project row with `updated_at_ms` set to `now`.
pub open spec fn touched(a: &ProjectData, b: &ProjectData, now: i64) -> bool {
    &&& b.project.id == a.project.id
    &&& b.project.name == a.project.name
    &&& b.project.task_type == a.project.task_type
    &&& b.project.classification_mode == a.project.classification_mode
    &&& b.project.root_path == a.project.root_path
    &&& b.project.created_at_ms == a.project.created_at_ms
    &&& b.project.last_image_id == a.project.last_image_id
    &&& b.project.updated_at_ms == now
}

/// Adds a class named `name` with id `id` at the end of the class list; it becomes the active
/// class when none was stored.
pub fn create_class_with_id(data: &mut ProjectData, name: &str, id: String, now: i64) -> (r: Result<
    ClassRecord,
    String,
>)
    requires
        old(data).wf(),
    ensures
        final(data).wf(),
        r is Ok <==> valid_class_name_spec(name@) is Some && !name_taken(
            old(data).classes@,
            valid_class_name_spec(name@)->0,
            -1,
        ) && !has_class(old(data).classes@, id@) && old(data).classes.len() < i64::MAX,
        r is Err ==> *final(data) == *old(data),
        r matches Ok(rec) ==> {
            &&& rec.id == id
            &&& Some(rec.name@) == valid_class_name_spec(name@)
            &&& rec.position == old(data).classes.len()
            &&& rec.color@ == spectrum_color_spec(rec.position as int)
            &&& opt_view(rec.shortcut) == shortcut_spec(rec.position as int)
            &&& final(data).classes@ == old(data).classes@.push(rec)
            &&& final(data).active_class_id == if old(data).active_class_id is None {
                Some(id)
            } else {
                old(data).active_class_id
            }
            &&& touched(old(data), final(data), now)
            &&& same_content(old(data), final(data))
        },
{
    let name = match valid_class_name(name) {
        Ok(n) => n,
        Err(e) => return Err(e),
    };
    let name_chars = chars_of(name.as_str());
    if find_name(&data.classes, &name_chars, None) {
        return Err(owned("Could not add the class: a class with this name already exists."));
    }
    if find_class(&data.classes, id.as_str()).is_some() {
        return Err(owned("Could not add the class: its id is already in use."));
    }
    if data.classes.len() as u64 >= 0x7fff_ffff_ffff_ffff {
        return Err(owned("Could not place the class."));
    }
    let position = data.classes.len() as i64;
    let record = ClassRecord {
        id: id.clone(),
        name,
        position,
        color: spectrum_color(data.classes.len()),
        shortcut: shortcut_for(position),
    };
    let ghost before = data.classes@;
    data.classes.push(record.duplicate());
    if data.active_class_id.is_none() {
        data.active_class_id = Some(id);
    }
    data.project.updated_at_ms = now;
    assert(data.classes@ == before.push(record));
    Ok(record)
}


/// Whether no class id has the 36 characters of a drawn random id, so that no drawn id can be in
/// use.
pub open spec fn no_uuid_class_ids(classes: Seq<ClassRecord>) -> bool {
    forall|i: int| 0 <= i < classes.len() ==> (#[trigger] classes[i]).id@.len() != 36
}

/// Adds a class named `name` at the end of the class list, with a fresh random id.
pub fn create_class(data: &mut ProjectData, name: &str, now: i64) -> (r: Result<ClassRecord, String>)
    requires
        old(data).wf(),
    ensures
        final(data).wf(),
        valid_class_name_spec(name@) is None || name_taken(
            old(data).classes@,
            valid_class_name_spec(name@)->0,
            -1,
        ) ==> r is Err,
        old(data).classes.len() >= i64::MAX ==> r is Err,
        valid_class_name_spec(name@) is Some && !name_taken(old(data).classes@, valid_class_name_spec(name@)->0, -1)
            && old(data).classes.len() < i64::MAX && no_uuid_class_ids(old(data).classes@) ==> r is Ok,
        r is Err ==> *final(data) == *old(data),
        r matches Ok(rec) ==> {
            &&& !has_class(old(data).classes@, rec.id@)
            &&& rec.id@.len() == 36
            &&& Some(rec.name@) == valid_class_name_spec(name@)
            &&& rec.position == old(data).classes.len()
            &&& rec.color@ == spectrum_color_spec(rec.position as int)
            &&& opt_view(rec.shortcut) == shortcut_spec(rec.position as int)
            &&& final(data).classes@ == old(data).classes@.push(rec)
            &&& final(data).active_class_id == if old(data).active_class_id is None {
                Some(rec.id)
            } else {
                old(data).active_class_id
            }
            &&& touched(old(data), final(data), now)
            &&& same_content(old(data), final(data))
        },
{
    let id = crate::project::new_id();
    create_class_with_id(data, name, id, now)
}

/// Renames the class `class_id`. The project's time stamp moves even when the class is gone.
pub fn rename_class(data: &mut ProjectData, class_id: &str, name: &str, now: i64) -> (r: Result<
    ClassRecord,
    String,
>)
    requires
        old(data).wf(),
    ensures
        final(data).wf(),
        valid_class_name_spec(name@) is None ==> r is Err && *final(data) == *old(data),
        valid_class_name_spec(name@) matches Some(n) ==> {
            if !has_class(old(data).classes@, class_id@) {
                &&& r is Err
                &&& final(data).classes == old(data).classes
                &&& final(data).active_class_id == old(data).active_class_id
                &&& touched(old(data), final(data), now)
                &&& same_content(old(data), final(data))
            } else {
                let i = choose|i: int|
                    0 <= i < old(data).classes.len() && (#[trigger] old(data).classes@[i]).id@
                        == class_id@;
                if name_taken(old(data).classes@, n, i) {
                    r is Err && *final(data) == *old(data)
                } else {
                    &&& r matches Ok(rec) && rec == final(data).classes@[i]
                    &&& final(data).classes@[i].name@ == n
                    &&& final(data).classes@[i].id == old(data).classes@[i].id
                    &&& final(data).classes@[i].position == old(data).classes@[i].position
                    &&& final(data).classes@[i].color == old(data).classes@[i].color
                    &&& final(data).classes@[i].shortcut == old(data).classes@[i].shortcut
                    &&& final(data).classes@ == old(data).classes@.update(
                        i,
                        final(data).classes@[i],
                    )
                    &&& final(data).active_class_id == old(data).active_class_id
                    &&& touched(old(data), final(data), now)
                    &&& same_content(old(data), final(data))
                }
            }
        },
{
    let name = match valid_class_name(name) {
        Ok(n) => n,
        Err(e) => return Err(e),
    };
    match find_class(&data.classes, class_id) {
        None => {
            data.project.updated_at_ms = now;
            Err(owned("The class no longer exists."))
        },
        Some(i) => {
            let name_chars = chars_of(name.as_str());
            if find_name(&data.classes, &name_chars, Some(i)) {
                return Err(owned("Could not rename the class: a class with this name already exists."));
            }
            let mut rec = data.classes[i].duplicate();
            rec.name = name;
            data.classes.set(i, rec.duplicate());
            data.project.updated_at_ms = now;
            Ok(rec)
        },
    }
}

/// Whether an annotation, a draft or an image label refers to class `id`.
pub open spec fn class_in_use(data: &ProjectData, id: Seq<char>) -> bool {
    ||| exists|i: int|
        0 <= i < data.annotations.len() && (#[trigger] data.annotations@[i]).class_id@ == id
    ||| exists|i: int|
        0 <= i < data.drafts.len() && opt_view((#[trigger] data.drafts@[i]).class_id) == Some(id)
    ||| exists|i: int|
        0 <= i < data.image_classes.len() && (#[trigger] data.image_classes@[i]).class_id@ == id
}

fn class_in_use_exec(data: &ProjectData, id: &str) -> (r: bool)
    ensures
        r == class_in_use(data, id@),
{
    let key = owned(id);
    for i in 0..data.annotations.len()
        invariant
            key@ == id@,
            forall|k: int| 0 <= k < i ==> data.annotations@[k].class_id@ != id@,
    {
        if data.annotations[i].class_id == key {
            return true;
        }
    }
    for i in 0..data.drafts.len()
        invariant
            key@ == id@,
            forall|k: int| 0 <= k < data.annotations.len() ==> data.annotations@[k].class_id@ != id@,
            forall|k: int| 0 <= k < i ==> opt_view(data.drafts@[k].class_id) != Some(id@),
    {
        match &data.drafts[i].class_id {
            Some(c) => {
                if *c == key {
                    return true;
                }
            },
            None => {},
        }
    }
    for i in 0..data.image_classes.len()
        invariant
            key@ == id@,
            forall|k: int| 0 <= k < data.annotations.len() ==> data.annotations@[k].class_id@ != id@,
            forall|k: int| 0 <= k < data.drafts.len() ==> opt_view(data.drafts@[k].class_id) != Some(id@),
            forall|k: int| 0 <= k < i ==> data.image_classes@[k].class_id@ != id@,
    {
        if data.image_classes[i].class_id == key {
            return true;
        }
    }
    false
}

/// The classes after the one at index `k` is removed, renumbered from 0 with their shortcuts.
pub open spec fn compacted_after_removal(
    old_classes: Seq<ClassRecord>,
    k: int,
    new_classes: Seq<ClassRecord>,
) -> bool {
    let kept = old_classes.remove(k);
    &&& new_classes.len() == kept.len()
    &&& forall|i: int|
        0 <= i < kept.len() ==> {
            &&& (#[trigger] new_classes[i]).id == kept[i].id
            &&& new_classes[i].name == kept[i].name
            &&& new_classes[i].color == kept[i].color
            &&& new_classes[i].position == i
            &&& opt_view(new_classes[i].shortcut) == shortcut_spec(i)
        }
}

/// Removes the unused class `class_id`, renumbers the rest and keeps an active class.
pub fn delete_class(data: &mut ProjectData, class_id: &str, now: i64) -> (r: Result<
    DetectionState,
    String,
>)
    requires
        old(data).wf(),
    ensures
        final(data).wf(),
        r is Err <==> class_in_use(old(data), class_id@) || !has_class(
            old(data).classes@,
            class_id@,
        ),
        r is Err ==> *final(data) == *old(data),
        class_in_use(old(data), class_id@)
            ==> (r matches Err(m) && m@ == "This class is used by annotations. Relabel or delete them first."@),
        !class_in_use(old(data), class_id@) && !has_class(old(data).classes@, class_id@)
            ==> (r matches Err(m) && m@ == "The class no longer exists."@),
        r matches Ok(st) ==> {
            let k = choose|k: int|
                0 <= k < old(data).classes.len() && (#[trigger] old(data).classes@[k]).id@
                    == class_id@;
            &&& compacted_after_removal(old(data).classes@, k, final(data).classes@)
            &&& opt_view(final(data).active_class_id) == match old(data).active_class_id {
                Some(p) if p@ != class_id@ => Some(p@),
                _ => if final(data).classes.len() > 0 {
                    Some(final(data).classes@[0].id@)
                } else {
                    None
                },
            }
            &&& touched(old(data), final(data), now)
            &&& same_content(old(data), final(data))
            &&& st.classes@ == final(data).classes@
            &&& opt_view(st.active_class_id) == active_class_spec(
                final(data).classes@,
                final(data).active_class_id,
            )
        },
{
    if class_in_use_exec(data, class_id) {
        return Err(owned("This class is used by annotations. Relabel or delete them first."));
    }
    let k = match find_class(&data.classes, class_id) {
        None => return Err(owned("The class no longer exists.")),
        Some(k) => k,
    };
    let ghost old_classes = data.classes@;
    proof {
        assert(old_classes[k as int].id@ == class_id@);
    }
    let mut kept: Vec<ClassRecord> = Vec::new();
    let n = data.classes.len();
    let mut i: usize = 0;
    while i < n
        invariant
            n == data.classes.len(),
            data.classes@ == old_classes,
            crate::project::classes_wf(old_classes),
            k < n,
            i <= n,
            kept.len() == if i <= k { i as int } else { i - 1 },
            forall|j: int|
                0 <= j < kept.len() ==> {
                    &&& (#[trigger] kept@[j]).id == old_classes.remove(k as int)[j].id
                    &&& kept@[j].name == old_classes.remove(k as int)[j].name
                    &&& kept@[j].color == old_classes.remove(k as int)[j].color
                    &&& kept@[j].position == j
                    &&& opt_view(kept@[j].shortcut) == shortcut_spec(j)
                },
        decreases n - i,
    {
        if i != k {
            let position = kept.len();
            assert(old_classes.remove(k as int)[position as int] == old_classes[i as int]);
            assert(old_classes[i as int].position == i);
            let c = &data.classes[i];
            let rec = ClassRecord {
                id: c.id.clone(),
                name: c.name.clone(),
                position: position as i64,
                color: c.color.clone(),
                shortcut: shortcut_for(position as i64),
            };
            kept.push(rec);
        }
        i = i + 1;
    }
    let ghost removed = old_classes.remove(k as int);
    assert(kept@.len() == removed.len());
    data.classes = kept;
    proof {
        assert forall|a: int, b: int|
            0 <= a < data.classes.len() && 0 <= b < data.classes.len() && a != b implies
                data.classes@[a].id@ != data.classes@[b].id@ by {
            let oa = if a < k { a } else { a + 1 };
            let ob = if b < k { b } else { b + 1 };
            assert(removed[a] == old_classes[oa]);
            assert(removed[b] == old_classes[ob]);
        }
    }
    let next_active = match &data.active_class_id {
        Some(p) => {
            if p.as_str().to_owned() != owned(class_id) {
                Some(p.clone())
            } else if data.classes.len() > 0 {
                Some(data.classes[0].id.clone())
            } else {
                None
            }
        },
        None => if data.classes.len() > 0 {
            Some(data.classes[0].id.clone())
        } else {
            None
        },
    };
    data.active_class_id = next_active;
    data.project.updated_at_ms = now;
    state(data)
}

/// Stores `class_id` as the active class, if that class exists.
pub fn set_active_class(data: &mut ProjectData, class_id: &str) -> (r: Result<(), String>)
    requires
        old(data).wf(),
    ensures
        final(data).wf(),
        r is Ok <==> has_class(old(data).classes@, class_id@),
        r is Err ==> *final(data) == *old(data),
        r matches Err(m) ==> m@ == "The class no longer exists."@,
        r is Ok ==> {
            &&& opt_view(final(data).active_class_id) == Some(class_id@)
            &&& final(data).classes == old(data).classes
            &&& final(data).project == old(data).project
            &&& same_content(old(data), final(data))
        },
{
    if find_class(&data.classes, class_id).is_none() {
        return Err(owned("The class no longer exists."));
    }
    data.active_class_id = Some(owned(class_id));
    Ok(())
}


/// The row that the table holds for `id`, looked up from the end.
pub open spec fn ann_lookup(anns: Seq<AnnotationRow>, id: Seq<char>) -> Option<AnnotationRow>
    decreases anns.len(),
{
    if anns.len() == 0 {
        None
    } else if anns.last().id@ == id {
        Some(anns.last())
    } else {
        ann_lookup(anns.drop_last(), id)
    }
}

/// Index of the row for `id`, looked up from the end, or -1.
pub open spec fn ann_index(anns: Seq<AnnotationRow>, id: Seq<char>) -> int
    decreases anns.len(),
{
    if anns.len() == 0 {
        -1
    } else if anns.last().id@ == id {
        anns.len() - 1
    } else {
        ann_index(anns.drop_last(), id)
    }
}

/// `DELETE FROM annotations WHERE id = ?`.
pub open spec fn without_id(anns: Seq<AnnotationRow>, id: Seq<char>) -> Seq<AnnotationRow>
    decreases anns.len(),
{
    if anns.len() == 0 {
        anns
    } else {
        let p = without_id(anns.drop_last(), id);
        if anns.last().id@ == id {
            p
        } else {
            p.push(anns.last())
        }
    }
}

/// A new row as an insert stores it, with the kind of the table it goes to.
pub open spec fn inserted(r: AnnotationRow, kind: AnnotationKind) -> AnnotationRow {
    AnnotationRow { kind: kind, ..r }
}

/// A stored row once an upsert of `r` has updated it: it keeps its creation time.
pub open spec fn merged(o: AnnotationRow, r: AnnotationRow, kind: AnnotationKind) -> AnnotationRow {
    AnnotationRow { kind: kind, created_at_ms: o.created_at_ms, ..r }
}

/// `INSERT ... ON CONFLICT(id) DO UPDATE`: updates the row for `r.id` in place, or appends `r`.
pub open spec fn upserted(anns: Seq<AnnotationRow>, r: AnnotationRow, kind: AnnotationKind) -> Seq<
    AnnotationRow,
> {
    let i = ann_index(anns, r.id@);
    if i >= 0 {
        anns.update(i, merged(anns[i], r, kind))
    } else {
        anns.push(inserted(r, kind))
    }
}

/// Deletes the rows with the ids of `rows`, in order.
pub open spec fn remove_all(anns: Seq<AnnotationRow>, rows: Seq<AnnotationRow>) -> Seq<AnnotationRow>
    decreases rows.len(),
{
    if rows.len() == 0 {
        anns
    } else {
        without_id(remove_all(anns, rows.drop_last()), rows.last().id@)
    }
}

/// Upserts `rows`, in order.
pub open spec fn upsert_all(
    anns: Seq<AnnotationRow>,
    rows: Seq<AnnotationRow>,
    kind: AnnotationKind,
) -> Seq<AnnotationRow>
    decreases rows.len(),
{
    if rows.len() == 0 {
        anns
    } else {
        upserted(upsert_all(anns, rows.drop_last(), kind), rows.last(), kind)
    }
}

/// Whether some row of `rows` has id `id`.
pub open spec fn has_row_id(rows: Seq<AnnotationRow>, id: Seq<char>) -> bool {
    exists|i: int| 0 <= i < rows.len() && (#[trigger] rows[i]).id@ == id
}

/// The row of `rows` with id `id`, looked up from the end.
pub open spec fn row_with_id(rows: Seq<AnnotationRow>, id: Seq<char>) -> AnnotationRow {
    ann_lookup(rows, id)->0
}

pub proof fn lemma_lookup_some(anns: Seq<AnnotationRow>, id: Seq<char>)
    ensures
        ann_lookup(anns, id) is Some <==> has_row_id(anns, id),
        ann_lookup(anns, id) is Some ==> 0 <= ann_index(anns, id) < anns.len() && anns[ann_index(
            anns,
            id,
        )] == ann_lookup(anns, id)->0 && ann_lookup(anns, id)->0.id@ == id,
        ann_lookup(anns, id) is None ==> ann_index(anns, id) == -1,
    decreases anns.len(),
{
    if anns.len() > 0 {
        lemma_lookup_some(anns.drop_last(), id);
        if anns.last().id@ != id {
            if has_row_id(anns, id) {
                let i = choose|i: int| 0 <= i < anns.len() && (#[trigger] anns[i]).id@ == id;
                assert(anns.drop_last()[i].id@ == id);
            }
            if has_row_id(anns.drop_last(), id) {
                let i = choose|i: int|
                    0 <= i < anns.drop_last().len() && (#[trigger] anns.drop_last()[i]).id@ == id;
                assert(anns[i].id@ == id);
            }
        } else {
            assert(anns[anns.len() - 1].id@ == id);
        }
    }
}

pub proof fn lemma_without_id(anns: Seq<AnnotationRow>, id: Seq<char>, x: Seq<char>)
    ensures
        ann_lookup(without_id(anns, id), x) == if x == id {
            None
        } else {
            ann_lookup(anns, x)
        },
    decreases anns.len(),
{
    if anns.len() > 0 {
        lemma_without_id(anns.drop_last(), id, x);
        let p = without_id(anns.drop_last(), id);
        if anns.last().id@ != id {
            assert(p.push(anns.last()).drop_last() =~= p);
        }
    }
}

/// The rows of `without_id(anns, id)` are rows of `anns`.
pub proof fn lemma_without_id_from(anns: Seq<AnnotationRow>, id: Seq<char>)
    ensures
        forall|i: int|
            0 <= i < without_id(anns, id).len() ==> exists|j: int|
                0 <= j < anns.len() && anns[j] == #[trigger] without_id(anns, id)[i],
        annotations_unique(anns) ==> annotations_unique(without_id(anns, id)),
    decreases anns.len(),
{
    if anns.len() > 0 {
        let d = anns.drop_last();
        lemma_without_id_from(d, id);
        let p = without_id(d, id);
        assert forall|i: int| 0 <= i < without_id(anns, id).len() implies exists|j: int|
            0 <= j < anns.len() && anns[j] == #[trigger] without_id(anns, id)[i] by {
            if i < p.len() {
                let j = choose|j: int| 0 <= j < d.len() && d[j] == p[i];
                assert(anns[j] == d[j]);
            } else {
                assert(anns[anns.len() - 1] == without_id(anns, id)[i]);
            }
        }
        if annotations_unique(anns) && anns.last().id@ != id {
            assert(annotations_unique(d));
            assert forall|a: int, b: int|
                0 <= a < p.len() + 1 && 0 <= b < p.len() + 1 && a != b implies p.push(
                    anns.last(),
                )[a].id@ != p.push(anns.last())[b].id@ by {
                if a < p.len() && b < p.len() {
                } else if a < p.len() {
                    let j = choose|j: int| 0 <= j < d.len() && d[j] == p[a];
                    assert(anns[j] == d[j]);
                } else {
                    let j = choose|j: int| 0 <= j < d.len() && d[j] == p[b];
                    assert(anns[j] == d[j]);
                }
            }
        }
    }
}

/// Distinct ids, as a predicate on a row sequence.
pub open spec fn annotations_unique(anns: Seq<AnnotationRow>) -> bool {
    forall|i: int, j: int|
        0 <= i < anns.len() && 0 <= j < anns.len() && i != j ==> anns[i].id@ != anns[j].id@
}

pub proof fn lemma_index_unique(anns: Seq<AnnotationRow>, id: Seq<char>, i: int)
    requires
        annotations_unique(anns),
        0 <= i < anns.len(),
        anns[i].id@ == id,
    ensures
        ann_index(anns, id) == i,
    decreases anns.len(),
{
    if i < anns.len() - 1 {
        assert(anns.last().id@ != id);
        assert(anns.drop_last()[i] == anns[i]);
        lemma_index_unique(anns.drop_last(), id, i);
    }
}

pub proof fn lemma_upserted(anns: Seq<AnnotationRow>, r: AnnotationRow, kind: AnnotationKind, x: Seq<char>)
    requires
        annotations_unique(anns),
    ensures
        annotations_unique(upserted(anns, r, kind)),
        ann_lookup(upserted(anns, r, kind), x) == if x == r.id@ {
            Some(
                match ann_lookup(anns, x) {
                    Some(o) => merged(o, r, kind),
                    None => inserted(r, kind),
                },
            )
        } else {
            ann_lookup(anns, x)
        },
{
    lemma_lookup_some(anns, r.id@);
    lemma_lookup_some(anns, x);
    let i = ann_index(anns, r.id@);
    let u = upserted(anns, r, kind);
    if i >= 0 {
        assert forall|a: int, b: int| 0 <= a < u.len() && 0 <= b < u.len() && a != b implies u[a].id@
            != u[b].id@ by {
            if a != i && b != i {
                assert(u[a] == anns[a] && u[b] == anns[b]);
            }
        }
        lemma_lookup_some(u, x);
        if x == r.id@ {
            lemma_index_unique(u, x, i);
        } else if ann_lookup(anns, x) is Some {
            let j = ann_index(anns, x);
            assert(j != i);
            assert(u[j] == anns[j]);
            lemma_index_unique(u, x, j);
        } else {
            if has_row_id(u, x) {
                let j = choose|j: int| 0 <= j < u.len() && (#[trigger] u[j]).id@ == x;
                assert(j != i);
                assert(anns[j].id@ == x);
            }
        }
    } else {
        assert(u.drop_last() =~= anns);
        assert forall|a: int, b: int| 0 <= a < u.len() && 0 <= b < u.len() && a != b implies u[a].id@
            != u[b].id@ by {
            if a < anns.len() && b < anns.len() {
                assert(u[a] == anns[a] && u[b] == anns[b]);
            } else if a < anns.len() {
                assert(anns[a].id@ == u[a].id@);
            } else {
                assert(anns[b].id@ == u[b].id@);
            }
        }
    }
}


/// Distinct ids among `rows`.
pub open spec fn rows_unique(rows: Seq<AnnotationRow>) -> bool {
    annotations_unique(rows)
}

/// What an upsert of `r` leaves for its id, given the row stored before.
pub open spec fn after_upsert(o: Option<AnnotationRow>, r: AnnotationRow, kind: AnnotationKind) -> AnnotationRow {
    match o {
        Some(old_row) => merged(old_row, r, kind),
        None => inserted(r, kind),
    }
}

pub proof fn lemma_remove_all(anns: Seq<AnnotationRow>, rows: Seq<AnnotationRow>, x: Seq<char>)
    ensures
        ann_lookup(remove_all(anns, rows), x) == if has_row_id(rows, x) {
            None
        } else {
            ann_lookup(anns, x)
        },
        annotations_unique(anns) ==> annotations_unique(remove_all(anns, rows)),
    decreases rows.len(),
{
    if rows.len() > 0 {
        let d = rows.drop_last();
        lemma_remove_all(anns, d, x);
        lemma_without_id(remove_all(anns, d), rows.last().id@, x);
        lemma_without_id_from(remove_all(anns, d), rows.last().id@);
        if has_row_id(rows, x) && rows.last().id@ != x {
            let i = choose|i: int| 0 <= i < rows.len() && (#[trigger] rows[i]).id@ == x;
            assert(d[i].id@ == x);
        }
        if has_row_id(d, x) {
            let i = choose|i: int| 0 <= i < d.len() && (#[trigger] d[i]).id@ == x;
            assert(rows[i].id@ == x);
        }
        if rows.last().id@ == x {
            assert(rows[rows.len() - 1].id@ == x);
        }
    }
}

pub proof fn lemma_upsert_all(anns: Seq<AnnotationRow>, rows: Seq<AnnotationRow>, kind: AnnotationKind, x: Seq<char>)
    requires
        annotations_unique(anns),
        rows_unique(rows),
    ensures
        annotations_unique(upsert_all(anns, rows, kind)),
        ann_lookup(upsert_all(anns, rows, kind), x) == if has_row_id(rows, x) {
            Some(after_upsert(ann_lookup(anns, x), row_with_id(rows, x), kind))
        } else {
            ann_lookup(anns, x)
        },
    decreases rows.len(),
{
    if rows.len() > 0 {
        let d = rows.drop_last();
        let l = rows.last();
        assert(rows_unique(d));
        lemma_upsert_all(anns, d, kind, x);
        lemma_upserted(upsert_all(anns, d, kind), l, kind, x);
        if l.id@ == x {
            if has_row_id(d, x) {
                let i = choose|i: int| 0 <= i < d.len() && (#[trigger] d[i]).id@ == x;
                assert(rows[i].id@ == x);
                assert(rows[rows.len() - 1].id@ == x);
            }
            assert(rows[rows.len() - 1].id@ == x);
        } else {
            if has_row_id(rows, x) {
                let i = choose|i: int| 0 <= i < rows.len() && (#[trigger] rows[i]).id@ == x;
                assert(d[i].id@ == x);
            }
            if has_row_id(d, x) {
                let i = choose|i: int| 0 <= i < d.len() && (#[trigger] d[i]).id@ == x;
                assert(rows[i].id@ == x);
            }
        }
    }
}

/// The rows of `anns` without the row for `id`.
pub fn without_id_exec(anns: &Vec<AnnotationRow>, id: &String) -> (r: Vec<AnnotationRow>)
    ensures
        r@ == without_id(anns@, id@),
{
    let mut r: Vec<AnnotationRow> = Vec::new();
    for j in 0..anns.len()
        invariant
            r@ == without_id(anns@.take(j as int), id@),
    {
        assert(anns@.take(j + 1).drop_last() =~= anns@.take(j as int));
        if anns[j].id != *id {
            r.push(anns[j].duplicate());
        }
    }
    assert(anns@.take(anns.len() as int) =~= anns@);
    r
}

/// Upserts `row` into the rows of a table of `kind`.
pub fn upsert_exec(anns: &mut Vec<AnnotationRow>, row: &AnnotationRow, kind: AnnotationKind)
    ensures
        final(anns)@ == upserted(old(anns)@, *row, kind),
{
    let mut j = anns.len();
    let ghost a = anns@;
    assert(a.take(j as int) =~= a);
    while j > 0 && anns[j - 1].id != row.id
        invariant
            anns@ == a,
            j <= a.len(),
            ann_index(a, row.id@) == ann_index(a.take(j as int), row.id@),
        decreases j,
    {
        assert(a.take(j as int).drop_last() =~= a.take(j - 1));
        j = j - 1;
    }
    if j > 0 {
        assert(a.take(j as int).last() == a[j - 1]);
        assert(ann_index(a, row.id@) == j - 1);
        let o = &anns[j - 1];
        let m = AnnotationRow {
            id: row.id.clone(),
            image_id: row.image_id.clone(),
            class_id: row.class_id.clone(),
            kind: kind,
            geometry_json: row.geometry_json.clone(),
            is_visible: row.is_visible,
            created_at_ms: o.created_at_ms,
            updated_at_ms: row.updated_at_ms,
        };
        anns.set(j - 1, m);
    } else {
        assert(ann_index(a, row.id@) == -1);
        let m = AnnotationRow {
            id: row.id.clone(),
            image_id: row.image_id.clone(),
            class_id: row.class_id.clone(),
            kind: kind,
            geometry_json: row.geometry_json.clone(),
            is_visible: row.is_visible,
            created_at_ms: row.created_at_ms,
            updated_at_ms: row.updated_at_ms,
        };
        anns.push(m);
    }
}

/// Deletes the rows with the ids of `rows`, then upserts `desired`.
pub fn replace_rows(
    anns: &mut Vec<AnnotationRow>,
    rows: &Vec<AnnotationRow>,
    desired: &Vec<AnnotationRow>,
    kind: AnnotationKind,
)
    ensures
        final(anns)@ == upsert_all(remove_all(old(anns)@, rows@), desired@, kind),
{
    let ghost a = anns@;
    for i in 0..rows.len()
        invariant
            anns@ == remove_all(a, rows@.take(i as int)),
    {
        assert(rows@.take(i + 1).drop_last() =~= rows@.take(i as int));
        let next = without_id_exec(anns, &rows[i].id);
        *anns = next;
    }
    assert(rows@.take(rows.len() as int) =~= rows@);
    let ghost b = anns@;
    for i in 0..desired.len()
        invariant
            anns@ == upsert_all(b, desired@.take(i as int), kind),
    {
        assert(desired@.take(i + 1).drop_last() =~= desired@.take(i as int));
        upsert_exec(anns, &desired[i], kind);
    }
    assert(desired@.take(desired.len() as int) =~= desired@);
}

/// Whether the image and the class that each row names exist (the table's foreign keys).
pub open spec fn refs_ok(data: &ProjectData, rows: Seq<AnnotationRow>) -> bool {
    forall|i: int|
        0 <= i < rows.len() ==> {
            &&& crate::project::has_image(data.images@, (#[trigger] rows[i]).image_id@)
            &&& has_class(data.classes@, rows[i].class_id@)
        }
}

pub fn refs_ok_exec(data: &ProjectData, rows: &Vec<AnnotationRow>) -> (r: bool)
    ensures
        r == refs_ok(data, rows@),
{
    for i in 0..rows.len()
        invariant
            forall|k: int|
                0 <= k < i ==> {
                    &&& crate::project::has_image(data.images@, (#[trigger] rows@[k]).image_id@)
                    &&& has_class(data.classes@, rows@[k].class_id@)
                },
    {
        if crate::project::find_image(&data.images, rows[i].image_id.as_str()).is_none() {
            return false;
        }
        if find_class(&data.classes, rows[i].class_id.as_str()).is_none() {
            return false;
        }
    }
    true
}


pub proof fn lemma_upsert_all_unique(anns: Seq<AnnotationRow>, rows: Seq<AnnotationRow>, kind: AnnotationKind)
    requires
        annotations_unique(anns),
    ensures
        annotations_unique(upsert_all(anns, rows, kind)),
    decreases rows.len(),
{
    if rows.len() > 0 {
        lemma_upsert_all_unique(anns, rows.drop_last(), kind);
        lemma_upserted(upsert_all(anns, rows.drop_last(), kind), rows.last(), kind, rows.last().id@);
    }
}

/// The history operation of an annotation edit in a table of `kind`.
pub open spec fn annotation_operation(
    kind: AnnotationKind,
    before: Vec<AnnotationRow>,
    after: Vec<AnnotationRow>,
) -> Operation {
    match kind {
        AnnotationKind::Bbox => Operation::Annotation(AnnotationChange { before, after }),
        AnnotationKind::Polygon => Operation::PolygonAnnotation(AnnotationChange { before, after }),
    }
}

/// The drafts without the draft of `kind` for image `image_id`.
pub open spec fn drafts_without(
    drafts: Seq<crate::project::DraftRow>,
    image_id: Seq<char>,
    kind: AnnotationKind,
) -> Seq<crate::project::DraftRow> {
    drafts.filter(draft_kept(image_id, kind))
}

/// Whether a draft is not the draft of `kind` for image `image_id`.
pub open spec fn draft_kept(image_id: Seq<char>, kind: AnnotationKind) -> spec_fn(
    crate::project::DraftRow,
) -> bool {
    |d: crate::project::DraftRow| !(d.image_id@ == image_id && d.kind == kind)
}

/// Filtering a sequence with one more element.
pub proof fn lemma_filter_push<A>(s: Seq<A>, x: A, p: spec_fn(A) -> bool)
    ensures
        s.push(x).filter(p) == if p(x) {
            s.filter(p).push(x)
        } else {
            s.filter(p)
        },
{
    reveal(Seq::filter);
    assert(s.push(x).drop_last() =~= s);
}

/// Every element of `s.filter(p)` is an element of `s` that `p` keeps.
pub proof fn lemma_filter_member<A>(s: Seq<A>, p: spec_fn(A) -> bool, i: int)
    requires
        0 <= i < s.filter(p).len(),
    ensures
        exists|m: int| 0 <= m < s.len() && s[m] == s.filter(p)[i] && p(s[m]),
    decreases s.len(),
{
    s.lemma_filter_len(p);
    let d = s.drop_last();
    assert(d.push(s.last()) =~= s);
    lemma_filter_push(d, s.last(), p);
    if p(s.last()) && i == d.filter(p).len() {
        assert(s[s.len() - 1] == s.filter(p)[i]);
    } else {
        lemma_filter_member(d, p, i);
        let m = choose|m: int| 0 <= m < d.len() && d[m] == d.filter(p)[i] && p(d[m]);
        assert(s[m] == d[m]);
    }
}

/// Removes the draft of `kind` for image `image_id`.
pub fn clear_draft_rows(data: &mut ProjectData, image_id: &str, kind: AnnotationKind)
    ensures
        final(data).drafts@ == drafts_without(old(data).drafts@, image_id@, kind),
        final(data).project == old(data).project,
        final(data).classes == old(data).classes,
        final(data).images == old(data).images,
        final(data).image_classes == old(data).image_classes,
        final(data).annotations == old(data).annotations,
        final(data).active_class_id == old(data).active_class_id,
        final(data).history == old(data).history,
        final(data).next_sequence == old(data).next_sequence,
{
    let key = owned(image_id);
    let mut kept: Vec<crate::project::DraftRow> = Vec::new();
    let ghost pred = draft_kept(image_id@, kind);
    let n = data.drafts.len();
    for i in 0..n
        invariant
            n == data.drafts.len(),
            key@ == image_id@,
            pred == draft_kept(image_id@, kind),
            kept@ == data.drafts@.take(i as int).filter(pred),
    {
        assert(data.drafts@.take(i + 1) =~= data.drafts@.take(i as int).push(data.drafts@[i as int]));
        proof {
            lemma_filter_push(data.drafts@.take(i as int), data.drafts@[i as int], pred);
        }
        let d = &data.drafts[i];
        if !(d.image_id == key && d.kind == kind) {
            let copy = crate::project::DraftRow {
                image_id: clone_text(&d.image_id),
                kind: d.kind,
                class_id: clone_opt_text(&d.class_id),
                payload_json: clone_text(&d.payload_json),
            };
            assert(copy == data.drafts@[i as int]);
            kept.push(copy);
        }
    }
    assert(data.drafts@.take(n as int) =~= data.drafts@);
    data.drafts = kept;
}

/// Saves an annotation edit: deletes the rows of `before`, upserts `after` into the table of
/// `kind`, records the edit in the history, and clears the draft of `draft_image_id` if given.
pub fn commit_annotation_change(
    data: &mut ProjectData,
    kind: AnnotationKind,
    before: Vec<AnnotationRow>,
    after: Vec<AnnotationRow>,
    draft_image_id: Option<String>,
    now: i64,
) -> (r: Result<(), String>)
    requires
        old(data).wf(),
    ensures
        final(data).wf(),
        r is Ok <==> refs_ok(old(data), after@) && old(data).next_sequence < i64::MAX,
        r is Err ==> *final(data) == *old(data),
        r is Ok ==> {
            &&& final(data).annotations@ == upsert_all(
                remove_all(old(data).annotations@, before@),
                after@,
                kind,
            )
            &&& final(data).history@ == recorded(
                old(data).history@,
                old(data).next_sequence,
                annotation_operation(kind, before, after),
            )
            &&& final(data).next_sequence == old(data).next_sequence + 1
            &&& final(data).drafts@ == match draft_image_id {
                Some(img) => drafts_without(old(data).drafts@, img@, kind),
                None => old(data).drafts@,
            }
            &&& touched(old(data), final(data), now)
            &&& final(data).classes == old(data).classes
            &&& final(data).images == old(data).images
            &&& final(data).image_classes == old(data).image_classes
            &&& final(data).active_class_id == old(data).active_class_id
        },
{
    if !refs_ok_exec(data, &after) {
        return Err(owned("Could not save an annotation: its image or class does not exist."));
    }
    if data.next_sequence == i64::MAX {
        return Err(owned("Could not record annotation history."));
    }
    let ghost old_anns = data.annotations@;
    replace_rows(&mut data.annotations, &before, &after, kind);
    proof {
        lemma_remove_all(old_anns, before@, seq![]);
        lemma_upsert_all_unique(remove_all(old_anns, before@), after@, kind);
    }
    let op = match kind {
        AnnotationKind::Bbox => Operation::Annotation(AnnotationChange { before, after }),
        AnnotationKind::Polygon => Operation::PolygonAnnotation(AnnotationChange { before, after }),
    };
    let recorded_ok = record_operation(data, op);
    match draft_image_id {
        Some(img) => clear_draft_rows(data, img.as_str(), kind),
        None => {},
    }
    data.project.updated_at_ms = now;
    recorded_ok
}

/// The kind, the rows before and the rows after of an annotation operation.
pub open spec fn annotation_parts(op: Operation) -> Option<(AnnotationKind, Seq<AnnotationRow>, Seq<AnnotationRow>)> {
    match op {
        Operation::Annotation(c) => Some((AnnotationKind::Bbox, c.before@, c.after@)),
        Operation::PolygonAnnotation(c) => Some((AnnotationKind::Polygon, c.before@, c.after@)),
        _ => None,
    }
}

/// `new_history` is `old_history` with what was undone dropped and, appended as applied with
/// sequence `next`, the annotation edit of `kind` that replaced `before` by `after`.
pub open spec fn records_change(
    old_history: Seq<HistoryEntry>,
    next: i64,
    new_history: Seq<HistoryEntry>,
    kind: AnnotationKind,
    before: Seq<AnnotationRow>,
    after: Seq<AnnotationRow>,
) -> bool {
    &&& new_history.len() == applied_len(old_history) + 1
    &&& new_history.drop_last() == old_history.take(applied_len(old_history))
    &&& new_history.last().sequence == next
    &&& new_history.last().applied
    &&& annotation_parts(new_history.last().operation) == Some((kind, before, after))
}

/// Undoes (`undo`) or redoes the annotation operation at `index` of the history: restores the
/// rows it replaced, or applies it again.
pub fn apply_annotation_history(data: &mut ProjectData, index: usize, undo: bool, now: i64) -> (r: Result<
    (),
    String,
>)
    requires
        old(data).wf(),
        index < old(data).history.len(),
        annotation_parts(old(data).history@[index as int].operation) is Some,
        undo ==> index == applied_len(old(data).history@) - 1,
        !undo ==> index == applied_len(old(data).history@),
    ensures
        final(data).wf(),
        ({
            let (kind, before, after) = annotation_parts(old(data).history@[index as int].operation)->0;
            let desired = if undo { before } else { after };
            let removed = if undo { after } else { before };
            &&& r is Ok <==> refs_ok(old(data), desired)
            &&& r is Err ==> *final(data) == *old(data)
            &&& r is Ok ==> {
                &&& final(data).annotations@ == upsert_all(
                    remove_all(old(data).annotations@, removed),
                    desired,
                    kind,
                )
                &&& final(data).history@ == old(data).history@.update(
                    index as int,
                    HistoryEntry { applied: !undo, ..old(data).history@[index as int] },
                )
                &&& final(data).next_sequence == old(data).next_sequence
                &&& touched(old(data), final(data), now)
                &&& final(data).classes == old(data).classes
                &&& final(data).images == old(data).images
                &&& final(data).image_classes == old(data).image_classes
                &&& final(data).drafts == old(data).drafts
                &&& final(data).active_class_id == old(data).active_class_id
            }
        }),
{
    proof {
        lemma_applied_len(data.history@, data.next_sequence);
    }
    let (kind, change) = match &data.history[index].operation {
        Operation::Annotation(c) => (AnnotationKind::Bbox, c),
        Operation::PolygonAnnotation(c) => (AnnotationKind::Polygon, c),
        _ => {
            assert(false);
            return Err(owned("Could not understand annotation history."));
        },
    };
    let (desired, removed) = if undo {
        (clone_rows(&change.before), clone_rows(&change.after))
    } else {
        (clone_rows(&change.after), clone_rows(&change.before))
    };
    if !refs_ok_exec(data, &desired) {
        return Err(owned("Could not restore an annotation: its image or class does not exist."));
    }
    let ghost old_anns = data.annotations@;
    replace_rows(&mut data.annotations, &removed, &desired, kind);
    proof {
        lemma_remove_all(old_anns, removed@, seq![]);
        lemma_upsert_all_unique(remove_all(old_anns, removed@), desired@, kind);
    }
    set_applied(data, index, !undo);
    data.project.updated_at_ms = now;
    Ok(())
}

/// A copy of a row list.
pub fn clone_rows(v: &Vec<AnnotationRow>) -> (r: Vec<AnnotationRow>)
    ensures
        r@ == v@,
{
    let mut r: Vec<AnnotationRow> = Vec::new();
    for i in 0..v.len()
        invariant
            r@ == v@.take(i as int),
    {
        r.push(v[i].duplicate());
        assert(v@.take(i + 1) == v@.take(i as int).push(v@[i as int]));
    }
    assert(v@.take(v.len() as int) == v@);
    r
}

/// The row with id `id` in the table of `kind`.
pub fn find_annotation(anns: &Vec<AnnotationRow>, id: &str, kind: AnnotationKind) -> (r: Option<usize>)
    ensures
        match r {
            Some(i) => i < anns.len() && anns@[i as int].id@ == id@ && anns@[i as int].kind == kind,
            None => !(exists|i: int| 0 <= i < anns.len() && (#[trigger] anns@[i]).id@ == id@ && anns@[i].kind == kind),
        },
{
    let key = owned(id);
    for i in 0..anns.len()
        invariant
            key@ == id@,
            forall|k: int| 0 <= k < i ==> !(anns@[k].id@ == id@ && anns@[k].kind == kind),
    {
        if anns[i].id == key && anns[i].kind == kind {
            return Some(i);
        }
    }
    None
}

/// The task whose projects draw annotations of `kind`.
pub open spec fn task_of(kind: AnnotationKind) -> TaskType {
    match kind {
        AnnotationKind::Bbox => TaskType::Detection,
        AnnotationKind::Polygon => TaskType::Segmentation,
    }
}

/// Refuses a project whose task does not draw annotations of `kind`.
pub fn require_task(data: &ProjectData, kind: AnnotationKind) -> (r: Result<(), String>)
    ensures
        r is Ok <==> data.project.task_type == task_of(kind),
        r matches Err(m) ==> m@ == wrong_task_message(kind),
{
    match kind {
        AnnotationKind::Bbox => if data.project.task_type != TaskType::Detection {
            return Err(owned("This operation is only available in an object detection project."));
        },
        AnnotationKind::Polygon => if data.project.task_type != TaskType::Segmentation {
            return Err(owned("This operation is only available in a polygon segmentation project."));
        },
    }
    Ok(())
}

/// Deletes the box `annotation_id` of a detection project, as an undoable edit.
pub fn delete_annotation(data: &mut ProjectData, annotation_id: &str, now: i64) -> (r: Result<(), String>)
    requires
        old(data).wf(),
    ensures
        final(data).wf(),
        removed_annotation(old(data), final(data), AnnotationKind::Bbox, annotation_id@, now, r),
{
    remove_annotation(data, AnnotationKind::Bbox, annotation_id, now)
}

/// The refusal of an operation on annotations of `kind` in a project of another task.
pub open spec fn wrong_task_message(kind: AnnotationKind) -> Seq<char> {
    match kind {
        AnnotationKind::Bbox => "This operation is only available in an object detection project."@,
        AnnotationKind::Polygon => "This operation is only available in a polygon segmentation project."@,
    }
}

/// The refusal of an operation on an annotation of `kind` that is gone.
pub open spec fn missing_annotation_message(kind: AnnotationKind) -> Seq<char> {
    match kind {
        AnnotationKind::Bbox => "The box no longer exists."@,
        AnnotationKind::Polygon => "The polygon no longer exists."@,
    }
}

/// What deleting the annotation `id` of `kind` did, from `old` to `new`, when it returned `r`.
pub open spec fn removed_annotation(old: &ProjectData, new: &ProjectData, kind: AnnotationKind, id: Seq<char>, now: i64, r: Result<(), String>) -> bool {
    &&& (r is Err ==> new == old)
    &&& (old.project.task_type != task_of(kind) ==> (r matches Err(m) && m@ == wrong_task_message(kind)))
    &&& (old.project.task_type == task_of(kind) && !(exists|i: int|
            0 <= i < old.annotations.len() && (#[trigger] old.annotations@[i]).id@
                == id && old.annotations@[i].kind == kind)
            ==> (r matches Err(m) && m@ == missing_annotation_message(kind)))
    &&& (!(exists|i: int|
            0 <= i < old.annotations.len() && (#[trigger] old.annotations@[i]).id@
                == id && old.annotations@[i].kind == kind)
            ==> r is Err)
    &&& (old.project.task_type == task_of(kind) && old.next_sequence < i64::MAX
            && (exists|i: int|
            0 <= i < old.annotations.len() && (#[trigger] old.annotations@[i]).id@
                == id && old.annotations@[i].kind == kind) ==> r is Ok)
    &&& (r is Ok ==> {
            let row = ann_lookup(old.annotations@, id)->0;
            &&& ann_lookup(old.annotations@, id) is Some
            &&& row.kind == kind
            &&& new.annotations@ == without_id(old.annotations@, id)
            &&& records_change(
                old.history@,
                old.next_sequence,
                new.history@,
                kind,
                seq![row],
                seq![],
            )
            &&& new.next_sequence == old.next_sequence + 1
            &&& touched(old, new, now)
            &&& new.classes == old.classes
            &&& new.images == old.images
            &&& new.image_classes == old.image_classes
            &&& new.drafts@ == old.drafts@
            &&& new.active_class_id == old.active_class_id
        })
}

/// Deletes the annotation `annotation_id` of `kind`, as an undoable edit, in a project of the task
/// that draws that kind.
pub fn remove_annotation(data: &mut ProjectData, kind: AnnotationKind, annotation_id: &str, now: i64) -> (r: Result<(), String>)
    requires
        old(data).wf(),
    ensures
        final(data).wf(),
        removed_annotation(old(data), final(data), kind, annotation_id@, now, r),
{
    match require_task(data, kind) {
        Err(e) => return Err(e),
        Ok(()) => {},
    }
    let i = match find_annotation(&data.annotations, annotation_id, kind) {
        None => return Err(match kind {
            AnnotationKind::Bbox => owned("The box no longer exists."),
            AnnotationKind::Polygon => owned("The polygon no longer exists."),
        }),
        Some(i) => i,
    };
    proof {
        lemma_index_unique(data.annotations@, annotation_id@, i as int);
        lemma_lookup_some(data.annotations@, annotation_id@);
    }
    let row = data.annotations[i].duplicate();
    let ghost anns = data.annotations@;
    let mut before: Vec<AnnotationRow> = Vec::new();
    before.push(row.duplicate());
    assert(before@ =~= seq![row]);
    assert(remove_all(anns, before@) == without_id(anns, annotation_id@)) by {
        assert(before@.drop_last() =~= Seq::<AnnotationRow>::empty());
        assert(remove_all(anns, before@.drop_last()) == anns);
        assert(before@.last().id@ == annotation_id@);
    }
    let after: Vec<AnnotationRow> = Vec::new();
    assert(after@ =~= Seq::<AnnotationRow>::empty());
    assert(upsert_all(without_id(old(data).annotations@, annotation_id@), after@, kind) == without_id(old(data).annotations@, annotation_id@));
    let ghost h = data.history@;
    let ghost next = data.next_sequence;
    proof {
        lemma_applied_len(h, next);
    }
    let r = commit_annotation_change(data, kind, before, after, None, now);
    proof {
        if r is Ok {
            let op = annotation_operation(kind, before, after);
            assert(annotation_parts(op) == Some((kind, seq![row], Seq::<AnnotationRow>::empty())));
            assert(recorded(h, next, op).drop_last() =~= h.take(applied_len(h)));
        }
    }
    r
}


/// The rows of `before` are the rows the table holds for their ids, in a table of `kind`.
pub open spec fn rows_present(anns: Seq<AnnotationRow>, before: Seq<AnnotationRow>, kind: AnnotationKind) -> bool {
    forall|i: int|
        0 <= i < before.len() ==> ann_lookup(anns, (#[trigger] before[i]).id@) == Some(before[i])
            && before[i].kind == kind
}

/// Each row of `after` replaces a row of `before` or has an id the table does not hold.
pub open spec fn rows_fresh(anns: Seq<AnnotationRow>, before: Seq<AnnotationRow>, after: Seq<AnnotationRow>) -> bool {
    forall|i: int|
        0 <= i < after.len() ==> has_row_id(before, (#[trigger] after[i]).id@) || ann_lookup(
            anns,
            after[i].id@,
        ) is None
}

/// The table after an annotation edit that replaced `before` by `after`.
pub open spec fn edited(anns: Seq<AnnotationRow>, before: Seq<AnnotationRow>, after: Seq<AnnotationRow>, kind: AnnotationKind) -> Seq<AnnotationRow> {
    upsert_all(remove_all(anns, before), after, kind)
}

proof fn lemma_row_with_id(rows: Seq<AnnotationRow>, i: int)
    requires
        rows_unique(rows),
        0 <= i < rows.len(),
    ensures
        row_with_id(rows, rows[i].id@) == rows[i],
{
    lemma_index_unique(rows, rows[i].id@, i);
    lemma_lookup_some(rows, rows[i].id@);
}

/// Undoing an annotation edit gives every id back the row it had before the edit: the edit
/// replaced rows that the table held (`before`) by rows that are new or replace them (`after`),
/// and the undo replaces `after` by `before` again.
pub proof fn law_undo_restores_annotations(
    anns: Seq<AnnotationRow>,
    before: Seq<AnnotationRow>,
    after: Seq<AnnotationRow>,
    kind: AnnotationKind,
    x: Seq<char>,
)
    requires
        annotations_unique(anns),
        rows_unique(before),
        rows_unique(after),
        rows_present(anns, before, kind),
        rows_fresh(anns, before, after),
    ensures
        ann_lookup(edited(edited(anns, before, after, kind), after, before, kind), x) == ann_lookup(anns, x),
{
    let removed = remove_all(anns, before);
    let done = edited(anns, before, after, kind);
    lemma_remove_all(anns, before, x);
    lemma_remove_all(anns, before, seq![]);
    lemma_upsert_all(removed, after, kind, x);
    lemma_upsert_all(removed, after, kind, seq![]);
    let back = remove_all(done, after);
    lemma_remove_all(done, after, x);
    lemma_remove_all(done, after, seq![]);
    lemma_upsert_all(back, before, kind, x);
    if has_row_id(before, x) {
        let i = choose|i: int| 0 <= i < before.len() && (#[trigger] before[i]).id@ == x;
        lemma_row_with_id(before, i);
        assert(ann_lookup(anns, x) == Some(before[i]));
        assert(inserted(before[i], kind) == before[i]);
    } else if has_row_id(after, x) {
        let i = choose|i: int| 0 <= i < after.len() && (#[trigger] after[i]).id@ == x;
        assert(ann_lookup(anns, after[i].id@) is None);
    }
}

/// Redoing an undone annotation edit gives every id the row the edit had given it.
pub proof fn law_redo_reapplies_annotations(
    anns: Seq<AnnotationRow>,
    before: Seq<AnnotationRow>,
    after: Seq<AnnotationRow>,
    kind: AnnotationKind,
    x: Seq<char>,
)
    requires
        annotations_unique(anns),
        rows_unique(before),
        rows_unique(after),
        rows_present(anns, before, kind),
        rows_fresh(anns, before, after),
    ensures
        ann_lookup(
            edited(edited(edited(anns, before, after, kind), after, before, kind), before, after, kind),
            x,
        ) == ann_lookup(edited(anns, before, after, kind), x),
{
    let done = edited(anns, before, after, kind);
    let undone = edited(done, after, before, kind);
    lemma_remove_all(anns, before, seq![]);
    lemma_upsert_all(remove_all(anns, before), after, kind, seq![]);
    lemma_remove_all(done, after, seq![]);
    lemma_upsert_all(remove_all(done, after), before, kind, seq![]);
    lemma_remove_all(undone, before, x);
    lemma_upsert_all(remove_all(undone, before), after, kind, x);
    lemma_remove_all(anns, before, x);
    lemma_upsert_all(remove_all(anns, before), after, kind, x);
    law_undo_restores_annotations(anns, before, after, kind, x);
}


/// Deleting an annotation and then undoing: the delete leaves the table without the row and every
/// other id as it was, records an edit that there is something to undo and nothing to redo for,
/// whose undo names the row's image; and the undo gives every id back the row it had.
pub proof fn law_delete_then_undo_annotation(
    h: Seq<HistoryEntry>,
    next: i64,
    h1: Seq<HistoryEntry>,
    anns: Seq<AnnotationRow>,
    row: AnnotationRow,
    kind: AnnotationKind,
    x: Seq<char>,
)
    requires
        crate::project::history_wf(h, next),
        annotations_unique(anns),
        ann_lookup(anns, row.id@) == Some(row),
        row.kind == kind,
        records_change(h, next, h1, kind, seq![row], seq![]),
    ensures
        ann_lookup(without_id(anns, row.id@), x) == if x == row.id@ {
            None
        } else {
            ann_lookup(anns, x)
        },
        crate::workspace::replay_index(h1, true) == h1.len() - 1,
        crate::workspace::replay_index(h1, false) == h1.len(),
        annotation_parts(h1[h1.len() - 1].operation) == Some((kind, seq![row], Seq::<AnnotationRow>::empty())),
        crate::workspace::affected_image(h1[h1.len() - 1].operation) == Some(row.image_id@),
        ann_lookup(upsert_all(remove_all(without_id(anns, row.id@), seq![]), seq![row], kind), x) == ann_lookup(anns, x),
{
    lemma_without_id(anns, row.id@, x);
    let before = seq![row];
    let after = Seq::<AnnotationRow>::empty();
    assert(remove_all(anns, before) == without_id(anns, row.id@)) by {
        assert(before.drop_last() =~= Seq::<AnnotationRow>::empty());
        assert(remove_all(anns, before.drop_last()) == anns);
    }
    assert(h1.last() == h1[h1.len() - 1]);
    match h1[h1.len() - 1].operation {
        Operation::Annotation(c) => {
            assert(c.before@ == before);
            assert(c.before@[0] == row);
        },
        Operation::PolygonAnnotation(c) => {
            assert(c.before@ == before);
            assert(c.before@[0] == row);
        },
        _ => {},
    }
    assert(rows_present(anns, before, kind));
    assert(rows_unique(before));
    assert(rows_fresh(anns, before, after));
    law_undo_restores_annotations(anns, before, after, kind, x);
    assert(edited(anns, before, after, kind) == without_id(anns, row.id@));
}

/// Whether a new annotation may go on image `image_id` with class `class_id`: the project draws
/// `kind`, the class exists and the image is active.
pub open spec fn annotation_target_ok(data: &ProjectData, kind: AnnotationKind, image_id: Seq<char>, class_id: Seq<char>) -> bool {
    &&& data.project.task_type == task_of(kind)
    &&& has_class(data.classes@, class_id)
    &&& crate::project::has_image_with_status(data.images@, image_id, crate::project::ImageStatus::Active)
}

/// Checks that annotations may use class `class_id` on the active image `image_id`.
fn validate_target(data: &ProjectData, kind: AnnotationKind, image_id: &str, class_id: &str) -> (r: Result<(), String>)
    requires
        data.project.task_type == task_of(kind),
        data.wf(),
    ensures
        r is Ok <==> annotation_target_ok(data, kind, image_id@, class_id@),
{
    if find_class(&data.classes, class_id).is_none() {
        return Err(match kind {
            AnnotationKind::Bbox => owned("Choose a valid class before drawing a box."),
            AnnotationKind::Polygon => owned("Choose a valid class before drawing a polygon."),
        });
    }
    match active_image_index(data, image_id) {
        Some(_) => Ok(()),
        None => Err(owned("The image is not available for annotation.")),
    }
}

/// The index of the active image `image_id`.
pub fn active_image_index(data: &ProjectData, image_id: &str) -> (r: Option<usize>)
    requires
        crate::project::images_wf(data.images@),
    ensures
        match r {
            Some(i) => i < data.images.len() && data.images@[i as int].id@ == image_id@
                && data.images@[i as int].status == crate::project::ImageStatus::Active
                && i as int == crate::project::image_index(data.images@, image_id@),
            None => !crate::project::has_image_with_status(data.images@, image_id@, crate::project::ImageStatus::Active),
        },
{
    match crate::project::find_image(&data.images, image_id) {
        None => None,
        Some(i) => {
            proof {
                assert(data.images@[i as int].id@ == image_id@);
                assert(crate::project::image_index(data.images@, image_id@) == i as int);
            }
            if data.images[i].status == crate::project::ImageStatus::Active {
                Some(i)
            } else {
                None
            }
        },
    }
}

/// The width and height of the active image `image_id`, which geometry must stay inside.
pub fn active_image_size(data: &ProjectData, image_id: &str) -> (r: Option<(u32, u32)>)
    requires
        crate::project::images_wf(data.images@),
    ensures
        match r {
            Some((w, h)) => crate::project::has_image_with_status(data.images@, image_id@, crate::project::ImageStatus::Active)
                && w == data.images@[crate::project::image_index(data.images@, image_id@)].width
                && h == data.images@[crate::project::image_index(data.images@, image_id@)].height,
            None => !crate::project::has_image_with_status(data.images@, image_id@, crate::project::ImageStatus::Active),
        },
{
    match active_image_index(data, image_id) {
        Some(i) => Some((data.images[i].width, data.images[i].height)),
        None => None,
    }
}

/// What adding an annotation did, from `old` to `new`, when it returned `r`.
pub open spec fn added_annotation(
    old: &ProjectData,
    new: &ProjectData,
    kind: AnnotationKind,
    image_id: Seq<char>,
    class_id: Seq<char>,
    geometry_json: Seq<char>,
    now: i64,
    r: Result<AnnotationRow, String>,
) -> bool {
    &&& r is Ok <==> annotation_target_ok(old, kind, image_id, class_id) && old.next_sequence < i64::MAX
    &&& r is Err ==> new == old
    &&& r matches Ok(rec) ==> {
        &&& rec.id@.len() == 36
        &&& rec.image_id@ == image_id
        &&& rec.class_id@ == class_id
        &&& rec.kind == kind
        &&& rec.geometry_json@ == geometry_json
        &&& rec.is_visible
        &&& rec.created_at_ms == now
        &&& rec.updated_at_ms == now
        &&& new.annotations@ == edited(old.annotations@, seq![], seq![rec], kind)
        &&& records_change(old.history@, old.next_sequence, new.history@, kind, seq![], seq![rec])
        &&& new.next_sequence == old.next_sequence + 1
        &&& new.drafts@ == drafts_without(old.drafts@, image_id, kind)
        &&& touched(old, new, now)
        &&& new.classes == old.classes
        &&& new.images == old.images
        &&& new.image_classes == old.image_classes
        &&& new.active_class_id == old.active_class_id
    }
}

proof fn lemma_records_change(h: Seq<HistoryEntry>, next: i64, kind: AnnotationKind, before: Vec<AnnotationRow>, after: Vec<AnnotationRow>)
    requires
        crate::project::history_wf(h, next),
    ensures
        records_change(h, next, recorded(h, next, annotation_operation(kind, before, after)), kind, before@, after@),
{
    lemma_applied_len(h, next);
    let r = recorded(h, next, annotation_operation(kind, before, after));
    assert(r.drop_last() =~= h.take(applied_len(h)));
}

/// Adds an annotation of `kind` with class `class_id` and geometry `geometry_json` (checked to
/// lie inside the image by the caller) to the active image `image_id`, as an undoable edit, and
/// clears the draft of that image.
pub fn add_annotation(
    data: &mut ProjectData,
    kind: AnnotationKind,
    image_id: &str,
    class_id: &str,
    geometry_json: &str,
    now: i64,
) -> (r: Result<AnnotationRow, String>)
    requires
        old(data).wf(),
    ensures
        final(data).wf(),
        added_annotation(old(data), final(data), kind, image_id@, class_id@, geometry_json@, now, r),
{
    match require_task(data, kind) {
        Err(e) => return Err(e),
        Ok(()) => {},
    }
    match validate_target(data, kind, image_id, class_id) {
        Err(e) => return Err(e),
        Ok(()) => {},
    }
    let record = AnnotationRow {
        id: crate::project::new_id(),
        image_id: owned(image_id),
        class_id: owned(class_id),
        kind,
        geometry_json: owned(geometry_json),
        is_visible: true,
        created_at_ms: now,
        updated_at_ms: now,
    };
    let mut after: Vec<AnnotationRow> = Vec::new();
    after.push(record.duplicate());
    let before: Vec<AnnotationRow> = Vec::new();
    assert(after@ =~= seq![record]);
    assert(before@ =~= Seq::<AnnotationRow>::empty());
    proof {
        lemma_records_change(data.history@, data.next_sequence, kind, before, after);
        assert(refs_ok(data, after@)) by {
            assert(crate::project::has_image(data.images@, record.image_id@)) by {
                let i = choose|i: int| 0 <= i < data.images.len() && (#[trigger] data.images@[i]).id@ == image_id@
                    && data.images@[i].status == crate::project::ImageStatus::Active;
                assert(data.images@[i].id@ == image_id@);
            }
        }
    }
    match commit_annotation_change(data, kind, before, after, Some(owned(image_id)), now) {
        Err(e) => Err(e),
        Ok(()) => Ok(record),
    }
}

/// The row that an edit of `before` leaves: the new class, geometry and visibility, stamped `now`.
pub open spec fn edited_row(before: AnnotationRow, class_id: Seq<char>, geometry_json: Seq<char>, is_visible: bool, now: i64, after: AnnotationRow) -> bool {
    &&& after == AnnotationRow {
        class_id: after.class_id,
        geometry_json: after.geometry_json,
        is_visible: is_visible,
        updated_at_ms: now,
        ..before
    }
    &&& after.class_id@ == class_id
    &&& after.geometry_json@ == geometry_json
}

/// What editing an annotation did, from `old` to `new`, when it returned `r`.
pub open spec fn changed_annotation(
    old: &ProjectData,
    new: &ProjectData,
    kind: AnnotationKind,
    id: Seq<char>,
    class_id: Seq<char>,
    geometry_json: Seq<char>,
    is_visible: bool,
    clear_draft: bool,
    now: i64,
    r: Result<AnnotationRow, String>,
) -> bool {
    let found = exists|i: int| 0 <= i < old.annotations.len() && (#[trigger] old.annotations@[i]).id@ == id && old.annotations@[i].kind == kind;
    let before = ann_lookup(old.annotations@, id)->0;
    &&& r is Ok <==> old.project.task_type == task_of(kind) && found && annotation_target_ok(old, kind, before.image_id@, class_id)
        && old.next_sequence < i64::MAX
    &&& r is Err ==> new == old
    &&& r matches Ok(after) ==> {
        &&& ann_lookup(old.annotations@, id) is Some
        &&& before.kind == kind
        &&& edited_row(before, class_id, geometry_json, is_visible, now, after)
        &&& new.annotations@ == edited(old.annotations@, seq![before], seq![after], kind)
        &&& records_change(old.history@, old.next_sequence, new.history@, kind, seq![before], seq![after])
        &&& new.next_sequence == old.next_sequence + 1
        &&& new.drafts@ == if clear_draft { drafts_without(old.drafts@, before.image_id@, kind) } else { old.drafts@ }
        &&& touched(old, new, now)
        &&& new.classes == old.classes
        &&& new.images == old.images
        &&& new.image_classes == old.image_classes
        &&& new.active_class_id == old.active_class_id
    }
}

/// Edits the annotation `annotation_id` of `kind`: its class, geometry (checked by the caller)
/// and visibility, as an undoable edit; `clear_draft` also clears the draft of its image.
pub fn change_annotation(
    data: &mut ProjectData,
    kind: AnnotationKind,
    annotation_id: &str,
    class_id: &str,
    geometry_json: &str,
    is_visible: bool,
    clear_draft: bool,
    now: i64,
) -> (r: Result<AnnotationRow, String>)
    requires
        old(data).wf(),
    ensures
        final(data).wf(),
        changed_annotation(old(data), final(data), kind, annotation_id@, class_id@, geometry_json@, is_visible, clear_draft, now, r),
{
    match require_task(data, kind) {
        Err(e) => return Err(e),
        Ok(()) => {},
    }
    let i = match find_annotation(&data.annotations, annotation_id, kind) {
        None => return Err(match kind {
            AnnotationKind::Bbox => owned("The box no longer exists."),
            AnnotationKind::Polygon => owned("The polygon no longer exists."),
        }),
        Some(i) => i,
    };
    proof {
        lemma_index_unique(data.annotations@, annotation_id@, i as int);
        lemma_lookup_some(data.annotations@, annotation_id@);
    }
    let before_row = data.annotations[i].duplicate();
    match validate_target(data, kind, before_row.image_id.as_str(), class_id) {
        Err(e) => return Err(e),
        Ok(()) => {},
    }
    let after_row = AnnotationRow {
        id: before_row.id.clone(),
        image_id: before_row.image_id.clone(),
        class_id: owned(class_id),
        kind: before_row.kind,
        geometry_json: owned(geometry_json),
        is_visible,
        created_at_ms: before_row.created_at_ms,
        updated_at_ms: now,
    };
    let mut before: Vec<AnnotationRow> = Vec::new();
    before.push(before_row.duplicate());
    let mut after: Vec<AnnotationRow> = Vec::new();
    after.push(after_row.duplicate());
    assert(before@ =~= seq![before_row]);
    assert(after@ =~= seq![after_row]);
    proof {
        lemma_records_change(data.history@, data.next_sequence, kind, before, after);
        assert(refs_ok(data, after@)) by {
            assert(crate::project::has_image(data.images@, after_row.image_id@)) by {
                let j = choose|j: int| 0 <= j < data.images.len() && (#[trigger] data.images@[j]).id@ == before_row.image_id@
                    && data.images@[j].status == crate::project::ImageStatus::Active;
                assert(data.images@[j].id@ == after_row.image_id@);
            }
        }
    }
    let draft = if clear_draft {
        Some(before_row.image_id.clone())
    } else {
        None
    };
    match commit_annotation_change(data, kind, before, after, draft, now) {
        Err(e) => Err(e),
        Ok(()) => Ok(after_row),
    }
}

/// Adds the box with class `class_id` and geometry `geometry_json` (checked by the caller to lie
/// inside the image) to the active image `image_id`, as an undoable edit, and clears its draft.
pub fn create_annotation(data: &mut ProjectData, image_id: &str, class_id: &str, geometry_json: &str, now: i64) -> (r: Result<
    AnnotationRow,
    String,
>)
    requires
        old(data).wf(),
    ensures
        final(data).wf(),
        added_annotation(old(data), final(data), AnnotationKind::Bbox, image_id@, class_id@, geometry_json@, now, r),
{
    add_annotation(data, AnnotationKind::Bbox, image_id, class_id, geometry_json, now)
}

/// Edits the class, geometry and visibility of the box `annotation_id`, as an undoable edit.
pub fn update_annotation(
    data: &mut ProjectData,
    annotation_id: &str,
    class_id: &str,
    geometry_json: &str,
    is_visible: bool,
    now: i64,
) -> (r: Result<AnnotationRow, String>)
    requires
        old(data).wf(),
    ensures
        final(data).wf(),
        changed_annotation(old(data), final(data), AnnotationKind::Bbox, annotation_id@, class_id@, geometry_json@, is_visible, false, now, r),
{
    change_annotation(data, AnnotationKind::Bbox, annotation_id, class_id, geometry_json, is_visible, false, now)
}

/// Annotation rows ordered by creation time; rows created together keep their table order.
pub open spec fn created_before() -> spec_fn(AnnotationRow, AnnotationRow) -> bool {
    |a: AnnotationRow, b: AnnotationRow| a.created_at_ms < b.created_at_ms
}

/// Whether a row is an annotation of `kind` on image `image_id`.
pub open spec fn on_image(image_id: Seq<char>, kind: AnnotationKind) -> spec_fn(AnnotationRow) -> bool {
    |a: AnnotationRow| a.image_id@ == image_id && a.kind == kind
}

/// The annotations of `kind` on image `image_id`, ordered by creation time.
pub fn annotations_for_image(data: &ProjectData, kind: AnnotationKind, image_id: &str) -> (r: Result<
    Vec<AnnotationRow>,
    String,
>)
    ensures
        r is Ok <==> data.project.task_type == task_of(kind),
        r matches Ok(rows) ==> rows@ == crate::text::stable_sorted(
            data.annotations@.filter(on_image(image_id@, kind)),
            created_before(),
        ),
{
    match require_task(data, kind) {
        Err(e) => return Err(e),
        Ok(()) => {},
    }
    let key = owned(image_id);
    let ghost pred = on_image(image_id@, kind);
    let mut picked: Vec<AnnotationRow> = Vec::new();
    for i in 0..data.annotations.len()
        invariant
            key@ == image_id@,
            pred == on_image(image_id@, kind),
            picked@ == data.annotations@.take(i as int).filter(pred),
    {
        assert(data.annotations@.take(i + 1) =~= data.annotations@.take(i as int).push(data.annotations@[i as int]));
        proof {
            lemma_filter_push(data.annotations@.take(i as int), data.annotations@[i as int], pred);
        }
        if data.annotations[i].image_id == key && data.annotations[i].kind == kind {
            picked.push(data.annotations[i].duplicate());
        }
    }
    assert(data.annotations@.take(data.annotations.len() as int) =~= data.annotations@);
    let mut items: Vec<AnnotationRow> = Vec::new();
    for i in 0..picked.len()
        invariant
            items@ == crate::text::stable_sorted(picked@.take(i as int), created_before()),
    {
        let x = picked[i].duplicate();
        let ghost p = items@;
        let mut j: usize = 0;
        proof {
            assert(p.subrange(0, p.len() as int) =~= p);
        }
        while j < items.len() && !(x.created_at_ms < items[j].created_at_ms)
            invariant
                j <= items.len(),
                items@ == p,
                crate::text::insert_pos(p, x, created_before()) == j + crate::text::insert_pos(p.subrange(j as int, p.len() as int), x, created_before()),
            decreases items.len() - j,
        {
            proof {
                crate::text::lemma_insert_pos_step(p, x, created_before(), j as int);
            }
            j = j + 1;
        }
        proof {
            if j < items.len() {
                assert(p.subrange(j as int, p.len() as int)[0] == p[j as int]);
            }
            assert(picked@.take(i + 1).drop_last() =~= picked@.take(i as int));
            assert(picked@.take(i + 1).last() == picked@[i as int]);
        }
        items.insert(j, x);
    }
    assert(picked@.take(picked.len() as int) =~= picked@);
    Ok(items)
}

/// The boxes of image `image_id`, ordered by creation time.
pub fn list_annotations(data: &ProjectData, image_id: &str) -> (r: Result<Vec<AnnotationRow>, String>)
    ensures
        r is Ok <==> data.project.task_type == TaskType::Detection,
        r matches Ok(rows) ==> rows@ == crate::text::stable_sorted(
            data.annotations@.filter(on_image(image_id@, AnnotationKind::Bbox)),
            created_before(),
        ),
{
    annotations_for_image(data, AnnotationKind::Bbox, image_id)
}


/// A draft as the workspace autosaves it: its image, class and payload, and for a polygon island
/// the polygon it is to join.
pub struct DraftInput {
    pub image_id: String,
    pub class_id: String,
    pub payload_json: String,
    pub target_annotation_id: Option<String>,
}

/// The index of the draft of image `image_id`, looked up from the end, or -1.
pub open spec fn draft_index(drafts: Seq<crate::project::DraftRow>, image_id: Seq<char>) -> int
    decreases drafts.len(),
{
    if drafts.len() == 0 {
        -1
    } else if drafts.last().image_id@ == image_id {
        drafts.len() - 1
    } else {
        draft_index(drafts.drop_last(), image_id)
    }
}

proof fn lemma_draft_index(drafts: Seq<crate::project::DraftRow>, image_id: Seq<char>)
    ensures
        -1 <= draft_index(drafts, image_id) < drafts.len(),
        draft_index(drafts, image_id) >= 0 ==> drafts[draft_index(drafts, image_id)].image_id@ == image_id,
    decreases drafts.len(),
{
    if drafts.len() > 0 {
        lemma_draft_index(drafts.drop_last(), image_id);
    }
}

/// The drafts once `row` is saved: it replaces the draft of its image, or is added.
pub open spec fn drafted(drafts: Seq<crate::project::DraftRow>, row: crate::project::DraftRow) -> Seq<crate::project::DraftRow> {
    let i = draft_index(drafts, row.image_id@);
    if i >= 0 {
        drafts.update(i, row)
    } else {
        drafts.push(row)
    }
}

fn draft_position(drafts: &Vec<crate::project::DraftRow>, image_id: &String) -> (r: Option<usize>)
    ensures
        match r {
            Some(i) => i as int == draft_index(drafts@, image_id@) && i < drafts.len(),
            None => draft_index(drafts@, image_id@) == -1,
        },
{
    let mut k = drafts.len();
    assert(drafts@.take(k as int) =~= drafts@);
    while k > 0 && drafts[k - 1].image_id != *image_id
        invariant
            k <= drafts.len(),
            draft_index(drafts@, image_id@) == draft_index(drafts@.take(k as int), image_id@),
        decreases k,
    {
        assert(drafts@.take(k as int).drop_last() =~= drafts@.take(k - 1));
        k = k - 1;
    }
    if k == 0 {
        None
    } else {
        assert(drafts@.take(k as int).last() == drafts@[k - 1]);
        Some(k - 1)
    }
}

/// Whether a draft may be saved for image `image_id`: it names that image and an existing class,
/// and the image is indexed; a polygon draft also needs an active image, and a polygon it is to
/// join must exist on that image with the same class.
pub open spec fn draft_ok(data: &ProjectData, kind: AnnotationKind, image_id: Seq<char>, d: DraftInput) -> bool {
    &&& d.image_id@ == image_id
    &&& has_class(data.classes@, d.class_id@)
    &&& kind == AnnotationKind::Polygon ==> crate::project::has_image_with_status(data.images@, image_id, crate::project::ImageStatus::Active)
    &&& kind == AnnotationKind::Polygon ==> match d.target_annotation_id {
        Some(t) => {
            &&& exists|i: int| 0 <= i < data.annotations.len() && (#[trigger] data.annotations@[i]).id@ == t@ && data.annotations@[i].kind == kind
            &&& ann_lookup(data.annotations@, t@)->0.image_id@ == image_id
            &&& ann_lookup(data.annotations@, t@)->0.class_id@ == d.class_id@
        },
        None => true,
    }
    &&& crate::project::has_image(data.images@, image_id)
}

/// Saves the draft of image `image_id` (its coordinates checked by the caller), or clears it.
pub fn store_draft(data: &mut ProjectData, kind: AnnotationKind, image_id: &str, draft: Option<DraftInput>) -> (r: Result<
    (),
    String,
>)
    requires
        old(data).wf(),
    ensures
        final(data).wf(),
        r is Err ==> *final(data) == *old(data),
        r is Ok <==> old(data).project.task_type == task_of(kind) && match draft {
            Some(d) => draft_ok(old(data), kind, image_id@, d),
            None => true,
        },
        r is Ok ==> {
            &&& final(data).drafts@ == match draft {
                Some(d) => drafted(
                    old(data).drafts@,
                    crate::project::DraftRow {
                        image_id: d.image_id,
                        kind: kind,
                        class_id: Some(d.class_id),
                        payload_json: d.payload_json,
                    },
                ),
                None => drafts_without(old(data).drafts@, image_id@, kind),
            }
            &&& final(data).project == old(data).project
            &&& final(data).classes == old(data).classes
            &&& final(data).images == old(data).images
            &&& final(data).image_classes == old(data).image_classes
            &&& final(data).annotations == old(data).annotations
            &&& final(data).active_class_id == old(data).active_class_id
            &&& final(data).history == old(data).history
            &&& final(data).next_sequence == old(data).next_sequence
        },
{
    match require_task(data, kind) {
        Err(e) => return Err(e),
        Ok(()) => {},
    }
    let d = match draft {
        None => {
            clear_draft_rows(data, image_id, kind);
            return Ok(());
        },
        Some(d) => d,
    };
    let invalid = match kind {
        AnnotationKind::Bbox => "The box draft is invalid.",
        AnnotationKind::Polygon => "The polygon draft is invalid.",
    };
    if d.image_id.as_str().to_owned() != owned(image_id) || find_class(&data.classes, d.class_id.as_str()).is_none() {
        return Err(owned(invalid));
    }
    if kind == AnnotationKind::Polygon {
        if active_image_index(data, image_id).is_none() {
            return Err(owned("The image is not available for annotation."));
        }
        match &d.target_annotation_id {
            None => {},
            Some(t) => {
                let i = match find_annotation(&data.annotations, t.as_str(), kind) {
                    None => return Err(owned("The polygon receiving this island no longer exists.")),
                    Some(i) => i,
                };
                proof {
                    lemma_index_unique(data.annotations@, t@, i as int);
                    lemma_lookup_some(data.annotations@, t@);
                }
                if data.annotations[i].image_id != d.image_id || data.annotations[i].class_id != d.class_id {
                    return Err(owned("An island must belong to the selected polygon object."));
                }
            },
        }
    }
    if crate::project::find_image(&data.images, image_id).is_none() {
        return Err(owned("Could not autosave the draft: its image is not indexed."));
    }
    let row = crate::project::DraftRow {
        image_id: d.image_id,
        kind,
        class_id: Some(d.class_id),
        payload_json: d.payload_json,
    };
    match draft_position(&data.drafts, &row.image_id) {
        Some(i) => {
            data.drafts.set(i, row);
        },
        None => {
            data.drafts.push(row);
        },
    }
    Ok(())
}

/// The payload of the draft of `kind` saved for image `image_id`.
pub open spec fn draft_payload(drafts: Seq<crate::project::DraftRow>, image_id: Seq<char>, kind: AnnotationKind) -> Option<Seq<char>> {
    let i = draft_index(drafts, image_id);
    if i >= 0 && drafts[i].kind == kind {
        Some(drafts[i].payload_json@)
    } else {
        None
    }
}

/// The payload of the draft of `kind` saved for image `image_id`.
pub fn draft_for(data: &ProjectData, kind: AnnotationKind, image_id: &str) -> (r: Option<String>)
    ensures
        opt_view(r) == draft_payload(data.drafts@, image_id@, kind),
{
    let key = owned(image_id);
    proof {
        lemma_draft_index(data.drafts@, image_id@);
    }
    match draft_position(&data.drafts, &key) {
        Some(i) => if data.drafts[i].kind == kind {
            Some(data.drafts[i].payload_json.clone())
        } else {
            None
        },
        None => None,
    }
}

/// Saves the box draft of image `image_id`, or clears it.
pub fn save_draft(data: &mut ProjectData, draft: Option<DraftInput>, image_id: &str) -> (r: Result<(), String>)
    requires
        old(data).wf(),
    ensures
        final(data).wf(),
        r is Err ==> *final(data) == *old(data),
        r is Ok <==> old(data).project.task_type == TaskType::Detection && match draft {
            Some(d) => draft_ok(old(data), AnnotationKind::Bbox, image_id@, d),
            None => true,
        },
        r is Ok ==> final(data).drafts@ == match draft {
            Some(d) => drafted(
                old(data).drafts@,
                crate::project::DraftRow {
                    image_id: d.image_id,
                    kind: AnnotationKind::Bbox,
                    class_id: Some(d.class_id),
                    payload_json: d.payload_json,
                },
            ),
            None => drafts_without(old(data).drafts@, image_id@, AnnotationKind::Bbox),
        },
{
    store_draft(data, AnnotationKind::Bbox, image_id, draft)
}

/// The payload of the box draft saved for image `image_id`.
pub fn load_draft(data: &ProjectData, image_id: &str) -> (r: Option<String>)
    ensures
        opt_view(r) == draft_payload(data.drafts@, image_id@, AnnotationKind::Bbox),
{
    draft_for(data, AnnotationKind::Bbox, image_id)
}


/// The non-blank lines of a labels file, trimmed and without byte order marks.
pub open spec fn label_lines(text: Seq<char>) -> Seq<Seq<char>> {
    crate::text::lines_spec(text).map_values(|l: Seq<char>| crate::text::without_bom(trimmed(l))).filter(
        |l: Seq<char>| l.len() > 0,
    )
}

/// Reading a labels file keeps its last line whether or not a line feed ends it: a text gives
/// the same non-blank lines, and so the same class names, as the text with a line feed appended.
pub proof fn law_labels_last_line(text: Seq<char>)
    ensures
        label_lines(text.push('\n')) == label_lines(text),
        label_names_spec(text.push('\n')) == label_names_spec(text),
{
    let f = crate::text::line_fold(text);
    crate::text::law_lines_final_line_feed(text);
    let g = |l: Seq<char>| crate::text::without_bom(trimmed(l));
    let keep = |l: Seq<char>| l.len() > 0;
    crate::text::lemma_trimmed_without_cr(f.1);
    assert(f.0.push(without_cr_of(f.1)).map_values(g) =~= f.0.map_values(g).push(g(without_cr_of(f.1))));
    lemma_filter_push(f.0.map_values(g), g(without_cr_of(f.1)), keep);
    if f.1.len() > 0 {
        assert(f.0.push(f.1).map_values(g) =~= f.0.map_values(g).push(g(f.1)));
        lemma_filter_push(f.0.map_values(g), g(f.1), keep);
    } else {
        assert(trimmed(Seq::<char>::empty()) =~= Seq::<char>::empty()) by {
            assert(crate::text::trim_start_spec(Seq::<char>::empty(), crate::text::TrimSet::Whitespace) == Seq::<char>::empty());
        }
        assert(crate::text::without_bom(Seq::<char>::empty()) == Seq::<char>::empty());
    }
}

/// A line up to its carriage return.
spec fn without_cr_of(l: Seq<char>) -> Seq<char> {
    crate::text::without_cr(l)
}

/// Every trimmed class name on one line of 1 to 100 UTF-8 bytes is taken as it is, and any longer
/// one, or one that is empty or spans lines, is refused.
pub proof fn law_class_name_bounds(name: Seq<char>)
    ensures
        ({
            let t = trimmed(name);
            &&& (t.len() > 0 && utf8_len(t) <= 100 && !t.contains('\n') && !t.contains('\r'))
                ==> valid_class_name_spec(name) == Some(t)
            &&& (t.len() == 0 || utf8_len(t) > 100 || t.contains('\n') || t.contains('\r'))
                ==> valid_class_name_spec(name) is None
        }),
{
}

/// Renaming needs only that no other class holds the new name ignoring ASCII case: the class
/// being renamed never blocks its own new name, so a class can take a case variant of its own
/// name.
pub proof fn law_rename_checks_other_classes(classes: Seq<ClassRecord>, i: int, name: Seq<char>)
    requires
        0 <= i < classes.len(),
        forall|j: int| 0 <= j < classes.len() && j != i ==> !eq_ignore_ascii_case_spec(#[trigger] classes[j].name@, name),
    ensures
        !name_taken(classes, name, i),
{
}

/// The class names a labels file lists, one per non-blank line, or `None` where a name is
/// invalid, the file lists none, or two names have the same lower case.
pub open spec fn label_names_spec(text: Seq<char>) -> Option<Seq<Seq<char>>> {
    let ls = label_lines(text);
    if exists|i: int| 0 <= i < ls.len() && valid_class_name_spec(#[trigger] ls[i]) is None {
        None
    } else {
        let ns = ls.map_values(|l: Seq<char>| valid_class_name_spec(l)->0);
        if ns.len() == 0 {
            None
        } else if exists|i: int, j: int|
            0 <= i < j < ns.len() && crate::text::unicode_lowercase(#[trigger] ns[i])
                == crate::text::unicode_lowercase(#[trigger] ns[j]) {
            None
        } else {
            Some(ns)
        }
    }
}

/// The class names a labels file lists.
pub fn label_names(text: &str) -> (r: Result<Vec<String>, String>)
    ensures
        match r {
            Ok(names) => label_names_spec(text@) == Some(crate::classification::texts(names@)),
            Err(_) => label_names_spec(text@) is None,
        },
{
    let lines = crate::text::lines_of(text);
    let ghost all = crate::paths::views(lines@);
    let ghost f = |l: Seq<char>| crate::text::without_bom(trimmed(l));
    let ghost keep = |l: Seq<char>| l.len() > 0;
    let mut kept: Vec<Vec<char>> = Vec::new();
    for i in 0..lines.len()
        invariant
            all == crate::paths::views(lines@),
            all == crate::text::lines_spec(text@),
            f == (|l: Seq<char>| crate::text::without_bom(trimmed(l))),
            keep == (|l: Seq<char>| l.len() > 0),
            crate::paths::views(kept@) == all.take(i as int).map_values(f).filter(keep),
    {
        let t = crate::text::strip_bom(&trim_chars(&lines[i]));
        assert(all.take(i + 1).map_values(f) =~= all.take(i as int).map_values(f).push(f(all[i as int])));
        proof {
            lemma_filter_push(all.take(i as int).map_values(f), f(all[i as int]), keep);
        }
        if t.len() > 0 {
            let ghost before = kept@;
            kept.push(t);
            assert(crate::paths::views(kept@) =~= crate::paths::views(before).push(f(all[i as int])));
        }
    }
    assert(all.take(lines.len() as int) =~= all);
    let ghost ls = crate::paths::views(kept@);
    assert(ls == label_lines(text@));
    let mut names: Vec<String> = Vec::new();
    for i in 0..kept.len()
        invariant
            ls == crate::paths::views(kept@),
            ls == label_lines(text@),
            names.len() == i,
            forall|k: int| 0 <= k < i ==> valid_class_name_spec(ls[k]) == Some((#[trigger] names@[k])@),
    {
        let line = crate::text::string_of(&kept[i]);
        assert(line@ == ls[i as int]);
        match valid_class_name(line.as_str()) {
            Ok(n) => {
                names.push(n);
            },
            Err(e) => {
                return Err(e);
            },
        }
    }
    let ghost ns = ls.map_values(|l: Seq<char>| valid_class_name_spec(l)->0);
    assert(crate::classification::texts(names@) =~= ns);
    assert(!(exists|i: int| 0 <= i < ls.len() && valid_class_name_spec(#[trigger] ls[i]) is None)) by {
        if exists|i: int| 0 <= i < ls.len() && valid_class_name_spec(#[trigger] ls[i]) is None {
            let i = choose|i: int| 0 <= i < ls.len() && valid_class_name_spec(#[trigger] ls[i]) is None;
            assert(valid_class_name_spec(ls[i]) == Some(names@[i]@));
        }
    }
    if names.len() == 0 {
        return Err(owned("The labels file is empty."));
    }
    let mut lowered: Vec<String> = Vec::new();
    for i in 0..names.len()
        invariant
            lowered.len() == i,
            forall|k: int| 0 <= k < i ==> (#[trigger] lowered@[k])@ == crate::text::unicode_lowercase(names@[k]@),
    {
        lowered.push(crate::text::lowercase(names[i].as_str()));
    }
    for j in 0..names.len()
        invariant
            lowered.len() == names.len(),
            forall|k: int| 0 <= k < names.len() ==> (#[trigger] lowered@[k])@ == crate::text::unicode_lowercase(names@[k]@),
            ns == crate::classification::texts(names@),
            ls == label_lines(text@),
            ns == ls.map_values(|l: Seq<char>| valid_class_name_spec(l)->0),
            !(exists|i: int| 0 <= i < ls.len() && valid_class_name_spec(#[trigger] ls[i]) is None),
            ns.len() > 0,
            forall|a: int, b: int| 0 <= a < b < j ==> crate::text::unicode_lowercase(#[trigger] ns[a]) != crate::text::unicode_lowercase(#[trigger] ns[b]),
    {
        for i in 0..j
            invariant
                j < names.len(),
                lowered.len() == names.len(),
                forall|k: int| 0 <= k < names.len() ==> (#[trigger] lowered@[k])@ == crate::text::unicode_lowercase(names@[k]@),
                ns == crate::classification::texts(names@),
                ls == label_lines(text@),
                ns == ls.map_values(|l: Seq<char>| valid_class_name_spec(l)->0),
                !(exists|i: int| 0 <= i < ls.len() && valid_class_name_spec(#[trigger] ls[i]) is None),
                ns.len() > 0,
                forall|a: int, b: int| 0 <= a < b < j ==> crate::text::unicode_lowercase(#[trigger] ns[a]) != crate::text::unicode_lowercase(#[trigger] ns[b]),
                forall|a: int| 0 <= a < i ==> crate::text::unicode_lowercase(#[trigger] ns[a]) != crate::text::unicode_lowercase(ns[j as int]),
        {
            if lowered[i] == lowered[j] {
                assert(crate::text::unicode_lowercase(ns[i as int]) == crate::text::unicode_lowercase(ns[j as int]));
                return Err(owned("The labels file contains duplicate class names."));
            }
        }
    }
    Ok(names)
}


/// Whether loading `names` would give two classes names equal without ASCII case (the unique
/// `NOCASE` index): two of the names, or a name and a class past the end of the list.
pub open spec fn labels_conflict(classes: Seq<ClassRecord>, names: Seq<Seq<char>>) -> bool {
    ||| exists|a: int, b: int|
        0 <= a < b < names.len() && eq_ignore_ascii_case_spec(#[trigger] names[a], #[trigger] names[b])
    ||| exists|p: int, q: int|
        names.len() <= p < classes.len() && 0 <= q < names.len() && eq_ignore_ascii_case_spec(
            (#[trigger] classes[p]).name@,
            #[trigger] names[q],
        )
}

/// The classes after loading `names`: the class at each position takes the name listed there,
/// positions past the old list get new classes, and classes past the new list stay.
pub open spec fn labels_loaded(old_classes: Seq<ClassRecord>, names: Seq<Seq<char>>, new_classes: Seq<ClassRecord>) -> bool {
    &&& new_classes.len() == if names.len() > old_classes.len() { names.len() } else { old_classes.len() }
    &&& forall|p: int|
        0 <= p < new_classes.len() ==> if p < names.len() {
            &&& (#[trigger] new_classes[p]).name@ == names[p]
            &&& if p < old_classes.len() {
                new_classes[p] == ClassRecord { name: new_classes[p].name, ..old_classes[p] }
            } else {
                &&& new_classes[p].position == p
                &&& new_classes[p].color@ == spectrum_color_spec(p)
                &&& opt_view(new_classes[p].shortcut) == shortcut_spec(p)
            }
        } else {
            new_classes[p] == old_classes[p]
        }
}

/// Whether `names` can be loaded over `classes`, the new class at each position past the old
/// list taking the next of `ids`: no two classes would have names equal without ASCII case, no
/// new id is in use or given twice, and every new position fits in an `i64`.
pub open spec fn labels_placeable(classes: Seq<ClassRecord>, names: Seq<Seq<char>>, ids: Seq<Seq<char>>) -> bool {
    &&& !labels_conflict(classes, names)
    &&& forall|j: int| 0 <= j < ids.len() ==> !has_class(classes, #[trigger] ids[j])
    &&& forall|a: int, b: int| 0 <= a < b < ids.len() ==> #[trigger] ids[a] != #[trigger] ids[b]
    &&& (names.len() <= classes.len() || names.len() <= 0x7fff_ffff_ffff_ffff)
}

/// Loads class names: each name goes to the class at its position, and the class at position
/// `p` past the end of the old list is new, with id `new_ids[p - m]` where `m` classes were
/// there; the first class becomes active where none is. Fails, changing nothing, where the names
/// cannot be placed.
pub fn load_labels(data: &mut ProjectData, names: &Vec<String>, new_ids: &Vec<String>, now: i64) -> (r: Result<DetectionState, String>)
    requires
        old(data).wf(),
        new_ids.len() == if names.len() > old(data).classes.len() {
            names.len() - old(data).classes.len()
        } else {
            0
        },
    ensures
        final(data).wf(),
        r is Ok <==> labels_placeable(
            old(data).classes@,
            crate::classification::texts(names@),
            crate::classification::texts(new_ids@),
        ),
        r is Err ==> *final(data) == *old(data),
        r matches Ok(st) ==> {
            let ns = crate::classification::texts(names@);
            &&& labels_loaded(old(data).classes@, ns, final(data).classes@)
            &&& forall|p: int|
                old(data).classes.len() <= p < final(data).classes.len() ==> (#[trigger] final(data).classes@[p]).id
                    == new_ids@[p - old(data).classes.len()]
            &&& final(data).active_class_id == if old(data).active_class_id is None && final(data).classes.len() > 0 {
                Some(final(data).classes@[0].id)
            } else {
                old(data).active_class_id
            }
            &&& touched(old(data), final(data), now)
            &&& same_content(old(data), final(data))
            &&& st.classes@ == final(data).classes@
            &&& opt_view(st.active_class_id) == active_class_spec(final(data).classes@, final(data).active_class_id)
        },
{
    let ghost ns = crate::classification::texts(names@);
    let n = names.len();
    let m = data.classes.len();
    // Two listed names equal without ASCII case.
    for b in 0..n
        invariant
            data.wf(),
            *data == *old(data),
            n == names.len(),
            ns == crate::classification::texts(names@),
            forall|x: int, y: int| 0 <= x < y < b ==> !eq_ignore_ascii_case_spec(#[trigger] ns[x], #[trigger] ns[y]),
    {
        let vb = crate::text::chars_of(names[b].as_str());
        for a in 0..b
            invariant
                data.wf(),
                *data == *old(data),
                b < n,
                n == names.len(),
                ns == crate::classification::texts(names@),
                vb@ == ns[b as int],
                forall|x: int, y: int| 0 <= x < y < b ==> !eq_ignore_ascii_case_spec(#[trigger] ns[x], #[trigger] ns[y]),
                forall|x: int| 0 <= x < a ==> !eq_ignore_ascii_case_spec(#[trigger] ns[x], ns[b as int]),
        {
            if eq_ignore_ascii_case(&crate::text::chars_of(names[a].as_str()), &vb) {
                proof {
                    assert(eq_ignore_ascii_case_spec(ns[a as int], ns[b as int]));
                    assert(labels_conflict(data.classes@, ns));
                }
                return Err(owned("The labels file contains duplicate class names."));
            }
        }
    }
    // A listed name equal to a class past the end of the list.
    let mut p = n;
    while p < m
        invariant
            data.wf(),
            *data == *old(data),
            n == names.len(),
            m == data.classes.len(),
            n <= p || m <= p,
            ns == crate::classification::texts(names@),
            forall|pp: int, q: int| n <= pp < p && pp < m && 0 <= q < n ==> !eq_ignore_ascii_case_spec((#[trigger] data.classes@[pp]).name@, #[trigger] ns[q]),
        decreases m - p,
    {
        let vp = crate::text::chars_of(data.classes[p].name.as_str());
        for q in 0..n
            invariant
                data.wf(),
                *data == *old(data),
                p < m,
                n <= p,
                n == names.len(),
                m == data.classes.len(),
                ns == crate::classification::texts(names@),
                vp@ == data.classes@[p as int].name@,
                forall|pp: int, qq: int| n <= pp < p && pp < m && 0 <= qq < n ==> !eq_ignore_ascii_case_spec((#[trigger] data.classes@[pp]).name@, #[trigger] ns[qq]),
                forall|qq: int| 0 <= qq < q ==> !eq_ignore_ascii_case_spec(data.classes@[p as int].name@, #[trigger] ns[qq]),
        {
            if eq_ignore_ascii_case(&vp, &crate::text::chars_of(names[q].as_str())) {
                proof {
                    assert(eq_ignore_ascii_case_spec(data.classes@[p as int].name@, ns[q as int]));
                    assert(labels_conflict(data.classes@, ns));
                }
                return Err(owned("The labels file conflicts with an existing class. Rename or remove that extra class first."));
            }
        }
        p = p + 1;
    }
    assert(!labels_conflict(data.classes@, ns));
    // The new class list.
    let ghost old_classes = data.classes@;
    let mut classes: Vec<ClassRecord> = Vec::new();
    let total = if n > m { n } else { m };
    let mut k: usize = 0;
    while k < total
        invariant
            data.wf(),
            *data == *old(data),
            n == names.len(),
            m == data.classes.len(),
            total == if n > m { n } else { m },
            k <= total,
            old_classes == data.classes@,
            crate::project::classes_wf(old_classes),
            ns == crate::classification::texts(names@),
            !labels_conflict(old_classes, ns),
            new_ids.len() == if n > m { n - m } else { 0 },
            forall|x: int| m <= x < k ==> (#[trigger] classes@[x]).id == new_ids@[x - m],
            m < k ==> k <= 0x7fff_ffff_ffff_ffff,
            classes.len() == k,
            forall|x: int| 0 <= x < k ==> (#[trigger] classes@[x]).position == x,
            forall|x: int, y: int| 0 <= x < k && 0 <= y < k && x != y ==> classes@[x].id@ != classes@[y].id@,
            forall|x: int| 0 <= x < k && x < m ==> classes@[x].id == old_classes[x].id,
            forall|x: int| 0 <= x < k && x >= m ==> !has_class(old_classes, (#[trigger] classes@[x]).id@),
            forall|p: int|
                0 <= p < k ==> if p < n {
                    &&& (#[trigger] classes@[p]).name@ == ns[p]
                    &&& if p < m {
                        classes@[p] == ClassRecord { name: classes@[p].name, ..old_classes[p] }
                    } else {
                        &&& classes@[p].position == p
                        &&& classes@[p].color@ == spectrum_color_spec(p)
                        &&& opt_view(classes@[p].shortcut) == shortcut_spec(p)
                    }
                } else {
                    classes@[p] == old_classes[p]
                },
        decreases total - k,
    {
        if k < m {
            let mut rec = data.classes[k].duplicate();
            if k < n {
                rec.name = names[k].clone();
            }
            classes.push(rec);
        } else {
            let id = new_ids[k - m].clone();
            let ghost ids = crate::classification::texts(new_ids@);
            assert(ids[k - m] == id@);
            let mut clash = false;
            for x in 0..classes.len()
                invariant
                    data.wf(),
                    *data == *old(data),
                    !clash ==> forall|y: int| 0 <= y < x ==> classes@[y].id@ != id@,
                    clash ==> exists|y: int| 0 <= y < x && classes@[y].id@ == id@,
            {
                if classes[x].id == id {
                    clash = true;
                }
            }
            if clash {
                proof {
                    let y = choose|y: int| 0 <= y < k && classes@[y].id@ == id@;
                    if y < m {
                        assert(old_classes[y].id@ == id@);
                        assert(has_class(old_classes, ids[k - m]));
                    } else {
                        assert(ids[y - m] == classes@[y].id@);
                        assert(ids[y - m] == ids[k - m]);
                    }
                }
                return Err(owned("Could not add a class: its new id is already in use."));
            }
            if find_class(&data.classes, id.as_str()).is_some() {
                proof {
                    assert(has_class(old_classes, ids[k - m]));
                }
                return Err(owned("Could not add a class: its new id is already in use."));
            }
            if k as u64 >= 0x7fff_ffff_ffff_ffff {
                return Err(owned("Could not place the class."));
            }
            let rec = ClassRecord {
                id,
                name: names[k].clone(),
                position: k as i64,
                color: spectrum_color(k),
                shortcut: shortcut_for(k as i64),
            };
            classes.push(rec);
        }
        proof {
            assert forall|x: int, y: int| 0 <= x < k + 1 && 0 <= y < k + 1 && x != y implies classes@[x].id@ != classes@[y].id@ by {
                if x < m && y < m {
                    assert(old_classes[x].id@ != old_classes[y].id@);
                } else if x >= m && y < m {
                    if x == k {
                    } else {
                        assert(!has_class(old_classes, classes@[x].id@));
                        assert(old_classes[y].id@ == classes@[y].id@);
                    }
                } else if x < m && y >= m {
                    if y == k {
                    } else {
                        assert(!has_class(old_classes, classes@[y].id@));
                        assert(old_classes[x].id@ == classes@[x].id@);
                    }
                }
            }
        }
        k = k + 1;
    }
    proof {
        let ids = crate::classification::texts(new_ids@);
        assert forall|j: int| 0 <= j < ids.len() implies !has_class(old_classes, #[trigger] ids[j]) by {
            assert(classes@[j + m].id == new_ids@[j]);
        }
        assert forall|a: int, b: int| 0 <= a < b < ids.len() implies #[trigger] ids[a] != #[trigger] ids[b] by {
            assert(classes@[a + m].id == new_ids@[a]);
            assert(classes@[b + m].id == new_ids@[b]);
        }
    }
    data.classes = classes;
    if data.active_class_id.is_none() && data.classes.len() > 0 {
        data.active_class_id = Some(data.classes[0].id.clone());
    }
    data.project.updated_at_ms = now;
    state(data)
}


/// Loads the class names of a labels file: each listed name goes to the class at its position,
/// new classes are added past the end, and the first class becomes active where none is.
pub fn import_labels(data: &mut ProjectData, text: &str, now: i64) -> (r: Result<DetectionState, String>)
    requires
        old(data).wf(),
    ensures
        final(data).wf(),
        r is Err ==> *final(data) == *old(data),
        label_names_spec(text@) is None ==> r is Err,
        label_names_spec(text@) matches Some(ns) && labels_conflict(old(data).classes@, ns) ==> r is Err,
        label_names_spec(text@) matches Some(ns) && !labels_conflict(old(data).classes@, ns)
            && ns.len() <= old(data).classes.len() ==> r is Ok,
        r matches Ok(st) ==> {
            &&& label_names_spec(text@) matches Some(ns) && !labels_conflict(old(data).classes@, ns)
                && labels_loaded(old(data).classes@, ns, final(data).classes@)
            &&& forall|p: int|
                old(data).classes.len() <= p < final(data).classes.len() ==> (#[trigger] final(data).classes@[p]).id@.len() == 36
            &&& final(data).active_class_id == if old(data).active_class_id is None && final(data).classes.len() > 0 {
                Some(final(data).classes@[0].id)
            } else {
                old(data).active_class_id
            }
            &&& touched(old(data), final(data), now)
            &&& same_content(old(data), final(data))
            &&& st.classes@ == final(data).classes@
            &&& opt_view(st.active_class_id) == active_class_spec(final(data).classes@, final(data).active_class_id)
        },
{
    let names = match label_names(text) {
        Ok(n) => n,
        Err(e) => return Err(e),
    };
    let m = data.classes.len();
    let extra = if names.len() > m { names.len() - m } else { 0 };
    let new_ids = crate::project::random_ids(extra);
    load_labels(data, &names, &new_ids, now)
}

/// The annotations read from one label file or document for one image.
pub struct ImportBatch {
    pub image_id: String,
    pub rows: Vec<AnnotationRow>,
}

/// The value of the last entry for `key`: what a map that each entry is inserted into holds.
pub open spec fn last_entry<V>(entries: Seq<(i64, V)>, key: i64) -> Option<V>
    decreases entries.len(),
{
    if entries.len() == 0 {
        None
    } else if entries.last().0 == key {
        Some(entries.last().1)
    } else {
        last_entry(entries.drop_last(), key)
    }
}

/// The categories and images of a COCO document that an import uses, keyed by their COCO ids:
/// each category with the class it names, each image with the project image it matches.
pub struct CocoIndex {
    pub categories: Vec<(i64, String)>,
    pub images: Vec<(i64, MatchedImage)>,
}

impl CocoIndex {
    /// No category and no image yet.
    pub fn new() -> (r: CocoIndex)
        ensures
            r.categories@ == Seq::<(i64, String)>::empty(),
            r.images@ == Seq::<(i64, MatchedImage)>::empty(),
    {
        CocoIndex { categories: Vec::new(), images: Vec::new() }
    }

    /// The category `key` names the class `class_id`; it replaces an earlier entry for `key`.
    pub fn add_category(&mut self, key: i64, class_id: String)
        ensures
            final(self).categories@ == old(self).categories@.push((key, class_id)),
            final(self).images == old(self).images,
    {
        self.categories.push((key, class_id));
    }

    /// The image `key` is the project image `image`; it replaces an earlier entry for `key`.
    pub fn add_image(&mut self, key: i64, image: MatchedImage)
        ensures
            final(self).images@ == old(self).images@.push((key, image)),
            final(self).categories == old(self).categories,
    {
        self.images.push((key, image));
    }

    /// The class of the category `key`, if the document defines it.
    pub fn category(&self, key: i64) -> (r: Option<String>)
        ensures
            r == last_entry(self.categories@, key),
    {
        let mut k = self.categories.len();
        assert(self.categories@.take(k as int) =~= self.categories@);
        while k > 0
            invariant
                k <= self.categories.len(),
                last_entry(self.categories@, key) == last_entry(self.categories@.take(k as int), key),
            decreases k,
        {
            assert(self.categories@.take(k as int).drop_last() =~= self.categories@.take(k - 1));
            if self.categories[k - 1].0 == key {
                return Some(self.categories[k - 1].1.clone());
            }
            k = k - 1;
        }
        None
    }

    /// The project image of the COCO image `key`, if the document lists it and it matched.
    pub fn image(&self, key: i64) -> (r: Option<MatchedImage>)
        ensures
            r == last_entry(self.images@, key),
    {
        let mut k = self.images.len();
        assert(self.images@.take(k as int) =~= self.images@);
        while k > 0
            invariant
                k <= self.images.len(),
                last_entry(self.images@, key) == last_entry(self.images@.take(k as int), key),
            decreases k,
        {
            assert(self.images@.take(k as int).drop_last() =~= self.images@.take(k - 1));
            let entry = &self.images[k - 1];
            if entry.0 == key {
                return Some(MatchedImage { image_id: entry.1.image_id.clone(), width: entry.1.width, height: entry.1.height });
            }
            k = k - 1;
        }
        None
    }
}

/// The index of the first batch for image `image_id`, or -1.
pub open spec fn first_batch(batches: Seq<ImportBatch>, image_id: Seq<char>) -> int
    decreases batches.len(),
{
    if batches.len() == 0 {
        -1
    } else if first_batch(batches.drop_last(), image_id) >= 0 {
        first_batch(batches.drop_last(), image_id)
    } else if batches.last().image_id@ == image_id {
        batches.len() - 1
    } else {
        -1
    }
}

proof fn lemma_first_batch(batches: Seq<ImportBatch>, image_id: Seq<char>)
    ensures
        -1 <= first_batch(batches, image_id) < batches.len(),
        first_batch(batches, image_id) >= 0 ==> batches[first_batch(batches, image_id)].image_id@ == image_id,
        forall|j: int| 0 <= j < batches.len() && (first_batch(batches, image_id) < 0 || j < first_batch(batches, image_id))
            ==> (#[trigger] batches[j]).image_id@ != image_id,
    decreases batches.len(),
{
    if batches.len() > 0 {
        let d = batches.drop_last();
        lemma_first_batch(d, image_id);
        let f = first_batch(batches, image_id);
        assert forall|j: int| 0 <= j < batches.len() && (f < 0 || j < f) implies (#[trigger] batches[j]).image_id@ != image_id by {
            if j < batches.len() - 1 {
                assert(batches[j] == d[j]);
            }
        }
    }
}

/// Puts the imported `row` into the first batch for its image, or into a new batch at the end.
pub fn add_to_batches(batches: &mut Vec<ImportBatch>, row: AnnotationRow)
    ensures
        ({
            let i = first_batch(old(batches)@, row.image_id@);
            if i >= 0 {
                &&& final(batches).len() == old(batches).len()
                &&& forall|j: int| 0 <= j < old(batches).len() && j != i ==> #[trigger] final(batches)@[j] == old(batches)@[j]
                &&& final(batches)@[i].image_id == old(batches)@[i].image_id
                &&& final(batches)@[i].rows@ == old(batches)@[i].rows@.push(row)
            } else {
                &&& final(batches).len() == old(batches).len() + 1
                &&& forall|j: int| 0 <= j < old(batches).len() ==> #[trigger] final(batches)@[j] == old(batches)@[j]
                &&& final(batches)@[old(batches).len() as int].image_id == row.image_id
                &&& final(batches)@[old(batches).len() as int].rows@ == seq![row]
            }
        }),
{
    proof {
        lemma_first_batch(batches@, row.image_id@);
    }
    let ghost start = batches@;
    let mut i: usize = 0;
    while i < batches.len()
        invariant
            batches@ == start,
            start == old(batches)@,
            i <= batches.len(),
            forall|j: int| 0 <= j < i ==> (#[trigger] batches@[j]).image_id@ != row.image_id@,
            -1 <= first_batch(start, row.image_id@) < start.len(),
            first_batch(start, row.image_id@) >= 0 ==> start[first_batch(start, row.image_id@)].image_id@ == row.image_id@,
            forall|j: int| 0 <= j < start.len() && (first_batch(start, row.image_id@) < 0 || j < first_batch(start, row.image_id@))
                ==> (#[trigger] start[j]).image_id@ != row.image_id@,
        decreases batches.len() - i,
    {
        if batches[i].image_id == row.image_id {
            assert(first_batch(start, row.image_id@) == i as int);
            let mut batch = batches.remove(i);
            batch.rows.push(row);
            batches.insert(i, batch);
            assert(batches@ =~= start.update(i as int, batch));
            return;
        }
        i = i + 1;
    }
    let image_id = row.image_id.clone();
    let mut rows: Vec<AnnotationRow> = Vec::new();
    rows.push(row);
    batches.push(ImportBatch { image_id, rows });
}

/// The label format an import reads.
#[derive(Clone, Copy, Debug, PartialEq, Eq, Structural)]
pub enum ImportFormat {
    Yolo,
    Coco,
}

/// The batches that count: a later batch for an image replaces an earlier one.
pub open spec fn latest_batches(b: Seq<ImportBatch>) -> Seq<ImportBatch>
    decreases b.len(),
{
    if b.len() == 0 {
        seq![]
    } else {
        latest_batches(b.drop_last()).filter(|x: ImportBatch| x.image_id@ != b.last().image_id@).push(b.last())
    }
}

/// The rows the imported images have, image after image.
pub open spec fn batch_before(anns: Seq<AnnotationRow>, kept: Seq<ImportBatch>, kind: AnnotationKind) -> Seq<AnnotationRow>
    decreases kept.len(),
{
    if kept.len() == 0 {
        seq![]
    } else {
        batch_before(anns, kept.drop_last(), kind) + crate::text::stable_sorted(
            anns.filter(on_image(kept.last().image_id@, kind)),
            created_before(),
        )
    }
}

/// The imported rows, image after image.
pub open spec fn batch_after(kept: Seq<ImportBatch>) -> Seq<AnnotationRow>
    decreases kept.len(),
{
    if kept.len() == 0 {
        seq![]
    } else {
        batch_after(kept.drop_last()) + kept.last().rows@
    }
}

/// The message of an import report.
pub open spec fn import_message(kind: AnnotationKind, format: ImportFormat, annotations: nat, images: nat, skipped: nat) -> Seq<char> {
    let middle = match (kind, format) {
        (AnnotationKind::Bbox, ImportFormat::Yolo) => " boxes for "@,
        (AnnotationKind::Bbox, ImportFormat::Coco) => " COCO boxes for "@,
        (AnnotationKind::Polygon, ImportFormat::Yolo) => " YOLO polygon objects for "@,
        (AnnotationKind::Polygon, ImportFormat::Coco) => " COCO polygon objects for "@,
    };
    let end = match format {
        ImportFormat::Yolo => " malformed or unmatched rows."@,
        ImportFormat::Coco => "."@,
    };
    "Imported "@ + crate::classification::decimal(annotations) + middle + crate::classification::decimal(images)
        + " images; skipped "@ + crate::classification::decimal(skipped) + end
}

fn push_chars(s: &mut String, v: &Vec<char>)
    ensures
        final(s)@ == old(s)@ + v@,
{
    let ghost start = s@;
    for i in 0..v.len()
        invariant
            s@ == start + v@.take(i as int),
    {
        s.push(v[i]);
        assert(v@.take(i + 1) == v@.take(i as int).push(v@[i as int]));
    }
    assert(v@.take(v.len() as int) =~= v@);
}

/// The message of an import report.
pub fn import_message_text(kind: AnnotationKind, format: ImportFormat, annotations: usize, images: usize, skipped: usize) -> (r: String)
    ensures
        r@ == import_message(kind, format, annotations as nat, images as nat, skipped as nat),
{
    let mut out = String::new();
    crate::text::push_all(&mut out, "Imported ");
    push_chars(&mut out, &crate::classification::decimal_text(annotations));
    match (kind, format) {
        (AnnotationKind::Bbox, ImportFormat::Yolo) => crate::text::push_all(&mut out, " boxes for "),
        (AnnotationKind::Bbox, ImportFormat::Coco) => crate::text::push_all(&mut out, " COCO boxes for "),
        (AnnotationKind::Polygon, ImportFormat::Yolo) => crate::text::push_all(&mut out, " YOLO polygon objects for "),
        (AnnotationKind::Polygon, ImportFormat::Coco) => crate::text::push_all(&mut out, " COCO polygon objects for "),
    }
    push_chars(&mut out, &crate::classification::decimal_text(images));
    crate::text::push_all(&mut out, " images; skipped ");
    push_chars(&mut out, &crate::classification::decimal_text(skipped));
    match format {
        ImportFormat::Yolo => crate::text::push_all(&mut out, " malformed or unmatched rows."),
        ImportFormat::Coco => crate::text::push_all(&mut out, "."),
    }
    assert(out@ =~= import_message(kind, format, annotations as nat, images as nat, skipped as nat));
    out
}

/// Imports annotations of `kind`: the rows of each imported image replace the rows it had, in
/// one undoable edit (none where nothing changes); `skipped` counts the rows and files that could
/// not be read or matched.
pub fn import_annotations(
    data: &mut ProjectData,
    kind: AnnotationKind,
    format: ImportFormat,
    batches: Vec<ImportBatch>,
    skipped: usize,
    now: i64,
) -> (r: Result<ImportReport, String>)
    requires
        old(data).wf(),
    ensures
        final(data).wf(),
        r is Err ==> *final(data) == *old(data),
        ({
            let kept = latest_batches(batches@);
            let before = batch_before(old(data).annotations@, kept, kind);
            let after = batch_after(kept);
            &&& r is Ok <==> old(data).project.task_type == task_of(kind) && ((before.len() == 0 && after.len() == 0)
                || (refs_ok(old(data), after) && old(data).next_sequence < i64::MAX))
            &&& r matches Ok(report) ==> {
                &&& report.annotations == after.len()
                &&& report.matched_images == kept.len()
                &&& report.skipped == skipped
                &&& report.classes == old(data).classes.len()
                &&& report.message@ == import_message(kind, format, after.len(), kept.len(), skipped as nat)
                &&& if before.len() == 0 && after.len() == 0 {
                    *final(data) == *old(data)
                } else {
                    &&& final(data).annotations@ == edited(old(data).annotations@, before, after, kind)
                    &&& records_change(old(data).history@, old(data).next_sequence, final(data).history@, kind, before, after)
                    &&& final(data).next_sequence == old(data).next_sequence + 1
                    &&& touched(old(data), final(data), now)
                    &&& final(data).classes == old(data).classes
                    &&& final(data).images == old(data).images
                    &&& final(data).image_classes == old(data).image_classes
                    &&& final(data).drafts@ == old(data).drafts@
                    &&& final(data).active_class_id == old(data).active_class_id
                }
            }
        }),
{
    match require_task(data, kind) {
        Err(e) => return Err(e),
        Ok(()) => {},
    }
    // A later batch for an image replaces an earlier one.
    let ghost all = batches@;
    let mut rest = batches;
    let mut kept: Vec<ImportBatch> = Vec::new();
    let mut i: usize = 0;
    assert(all.len() == rest.len());
    while rest.len() > 0
        invariant
            all.len() <= usize::MAX,
            i + rest.len() == all.len(),
            rest@ == all.subrange(i as int, all.len() as int),
            kept@ == latest_batches(all.take(i as int)),
        decreases rest.len(),
    {
        assert(i < all.len());
        let b = rest.remove(0);
        let ghost pred = |x: ImportBatch| x.image_id@ != b.image_id@;
        let mut filtered: Vec<ImportBatch> = Vec::new();
        let ghost k0 = kept@;
        let mut moved = kept;
        let mut j: usize = 0;
        
        assert(k0.len() == moved.len());
        while moved.len() > 0
            invariant
                k0.len() <= usize::MAX,
                j + moved.len() == k0.len(),
                moved@ == k0.subrange(j as int, k0.len() as int),
                pred == (|x: ImportBatch| x.image_id@ != b.image_id@),
                filtered@ == k0.take(j as int).filter(pred),
            decreases moved.len(),
        {
            assert(j < k0.len());
            let x = moved.remove(0);
            assert(k0.take(j + 1) =~= k0.take(j as int).push(x));
            proof {
                lemma_filter_push(k0.take(j as int), x, pred);
            }
            if x.image_id != b.image_id {
                filtered.push(x);
            }
            j = j + 1;
        }
        assert(k0.take(j as int) =~= k0);
        assert(all.take(i + 1).drop_last() =~= all.take(i as int));
        assert(all.take(i + 1).last() == b);
        filtered.push(b);
        kept = filtered;
        i = i + 1;
    }
    assert(all.take(i as int) =~= all);
    // The rows the imported images have, and the imported rows.
    let mut before: Vec<AnnotationRow> = Vec::new();
    let mut after: Vec<AnnotationRow> = Vec::new();
    for k in 0..kept.len()
        invariant
            data.wf(),
            *data == *old(data),
            data.project.task_type == task_of(kind),
            before@ == batch_before(data.annotations@, kept@.take(k as int), kind),
            after@ == batch_after(kept@.take(k as int)),
    {
        assert(kept@.take(k + 1).drop_last() =~= kept@.take(k as int));
        assert(kept@.take(k + 1).last() == kept@[k as int]);
        let rows = match annotations_for_image(data, kind, kept[k].image_id.as_str()) {
            Ok(rows) => rows,
            Err(e) => return Err(e),
        };
        let ghost b0 = before@;
        for x in 0..rows.len()
            invariant
                before@ == b0 + rows@.take(x as int),
        {
            before.push(rows[x].duplicate());
            assert(rows@.take(x + 1) == rows@.take(x as int).push(rows@[x as int]));
        }
        assert(rows@.take(rows.len() as int) =~= rows@);
        let ghost a0 = after@;
        let batch_rows = &kept[k].rows;
        for x in 0..batch_rows.len()
            invariant
                after@ == a0 + batch_rows@.take(x as int),
        {
            after.push(batch_rows[x].duplicate());
            assert(batch_rows@.take(x + 1) == batch_rows@.take(x as int).push(batch_rows@[x as int]));
        }
        assert(batch_rows@.take(batch_rows.len() as int) =~= batch_rows@);
    }
    assert(kept@.take(kept.len() as int) =~= kept@);
    let annotations = after.len();
    let matched = kept.len();
    if before.len() > 0 || after.len() > 0 {
        proof {
            lemma_records_change(data.history@, data.next_sequence, kind, before, after);
        }
        match commit_annotation_change(data, kind, before, after, None, now) {
            Err(e) => return Err(e),
            Ok(()) => {},
        }
    }
    Ok(ImportReport {
        annotations,
        matched_images: matched,
        skipped,
        classes: data.classes.len(),
        message: import_message_text(kind, format, annotations, matched, skipped),
    })
}


/// Active images before others, by position: the images that imports match against.
pub open spec fn position_before() -> spec_fn(crate::project::ImageRow, crate::project::ImageRow) -> bool {
    |a: crate::project::ImageRow, b: crate::project::ImageRow| a.sort_order < b.sort_order
}

/// Whether an image is active.
pub open spec fn is_active() -> spec_fn(crate::project::ImageRow) -> bool {
    |r: crate::project::ImageRow| r.status == crate::project::ImageStatus::Active
}

/// The active images ordered by position.
pub open spec fn lookup_images(images: Seq<crate::project::ImageRow>) -> Seq<crate::project::ImageRow> {
    crate::text::stable_sorted(images.filter(is_active()), position_before())
}

/// The active images ordered by position.
pub fn image_lookup(data: &ProjectData) -> (r: Vec<crate::project::ImageRow>)
    ensures
        r@ == lookup_images(data.images@),
{
    lookup_of(&data.images)
}

/// The active images of `images` ordered by position.
pub fn lookup_of(images: &Vec<crate::project::ImageRow>) -> (r: Vec<crate::project::ImageRow>)
    ensures
        r@ == lookup_images(images@),
{
    let ghost pred = is_active();
    let mut active: Vec<crate::project::ImageRow> = Vec::new();
    for i in 0..images.len()
        invariant
            pred == is_active(),
            active@ == images@.take(i as int).filter(pred),
    {
        assert(images@.take(i + 1) =~= images@.take(i as int).push(images@[i as int]));
        proof {
            lemma_filter_push(images@.take(i as int), images@[i as int], pred);
        }
        if images[i].status == crate::project::ImageStatus::Active {
            active.push(crate::project::copy_row(&images[i]));
        }
    }
    assert(images@.take(images.len() as int) =~= images@);
    let mut items: Vec<crate::project::ImageRow> = Vec::new();
    for i in 0..active.len()
        invariant
            items@ == crate::text::stable_sorted(active@.take(i as int), position_before()),
    {
        let x = crate::project::copy_row(&active[i]);
        let ghost p = items@;
        let mut j: usize = 0;
        proof {
            assert(p.subrange(0, p.len() as int) =~= p);
        }
        while j < items.len() && !(x.sort_order < items[j].sort_order)
            invariant
                j <= items.len(),
                items@ == p,
                crate::text::insert_pos(p, x, position_before()) == j + crate::text::insert_pos(p.subrange(j as int, p.len() as int), x, position_before()),
            decreases items.len() - j,
        {
            proof {
                crate::text::lemma_insert_pos_step(p, x, position_before(), j as int);
            }
            j = j + 1;
        }
        proof {
            if j < items.len() {
                assert(p.subrange(j as int, p.len() as int)[0] == p[j as int]);
            }
            assert(active@.take(i + 1).drop_last() =~= active@.take(i as int));
            assert(active@.take(i + 1).last() == active@[i as int]);
        }
        items.insert(j, x);
    }
    assert(active@.take(active.len() as int) =~= active@);
    items
}

/// The index of the last image of `s` whose key is `key`, or -1.
pub open spec fn last_keyed(s: Seq<crate::project::ImageRow>, key_of: spec_fn(crate::project::ImageRow) -> Seq<char>, key: Seq<char>) -> int
    decreases s.len(),
{
    if s.len() == 0 {
        -1
    } else if key_of(s.last()) == key {
        s.len() - 1
    } else {
        last_keyed(s.drop_last(), key_of, key)
    }
}

/// The image `s` holds exactly one of with key `key`, or -1.
pub open spec fn only_keyed(s: Seq<crate::project::ImageRow>, key_of: spec_fn(crate::project::ImageRow) -> Seq<char>, key: Seq<char>) -> int {
    let matching = s.filter(|r: crate::project::ImageRow| key_of(r) == key);
    if matching.len() == 1 {
        last_keyed(s, key_of, key)
    } else {
        -1
    }
}

/// The label file key of an image: its path with a `.txt` extension, lower-cased.
pub open spec fn label_key() -> spec_fn(crate::project::ImageRow) -> Seq<char> {
    |r: crate::project::ImageRow| crate::text::unicode_lowercase(crate::paths::with_txt_spec(r.relative_path@))
}

/// The stem key of an image: the stem of its file name (or the file name), lower-cased.
pub open spec fn stem_key() -> spec_fn(crate::project::ImageRow) -> Seq<char> {
    |r: crate::project::ImageRow| crate::text::unicode_lowercase(
        match crate::paths::file_stem_spec(r.file_name@) {
            Some(s) => s,
            None => r.file_name@,
        },
    )
}

/// The lower-cased relative path of an image.
pub open spec fn path_key() -> spec_fn(crate::project::ImageRow) -> Seq<char> {
    |r: crate::project::ImageRow| crate::text::unicode_lowercase(r.relative_path@)
}

/// The lower-cased file name of an image.
pub open spec fn name_key() -> spec_fn(crate::project::ImageRow) -> Seq<char> {
    |r: crate::project::ImageRow| crate::text::unicode_lowercase(r.file_name@)
}

pub proof fn lemma_last_keyed(s: Seq<crate::project::ImageRow>, key_of: spec_fn(crate::project::ImageRow) -> Seq<char>, key: Seq<char>)
    ensures
        -1 <= last_keyed(s, key_of, key) < s.len(),
        last_keyed(s, key_of, key) >= 0 ==> key_of(s[last_keyed(s, key_of, key)]) == key,
    decreases s.len(),
{
    if s.len() > 0 {
        lemma_last_keyed(s.drop_last(), key_of, key);
    }
}

/// Finds the image keyed `key`: the last one with it, or, where `unique` is set, the only one.
pub fn find_keyed(
    images: &Vec<crate::project::ImageRow>,
    keys: &Vec<String>,
    key: &String,
    unique: bool,
    key_of: Ghost<spec_fn(crate::project::ImageRow) -> Seq<char>>,
) -> (r: Option<usize>)
    requires
        keys.len() == images.len(),
        forall|i: int| 0 <= i < keys.len() ==> (#[trigger] keys@[i])@ == key_of@(images@[i]),
    ensures
        match r {
            Some(i) => i < images.len() && i as int == if unique {
                only_keyed(images@, key_of@, key@)
            } else {
                last_keyed(images@, key_of@, key@)
            },
            None => (if unique { only_keyed(images@, key_of@, key@) } else { last_keyed(images@, key_of@, key@) }) == -1,
        },
{
    let ghost kf = key_of@;
    let ghost pred = |r: crate::project::ImageRow| kf(r) == key@;
    let mut count: usize = 0;
    let mut last: Option<usize> = None;
    for i in 0..images.len()
        invariant
            keys.len() == images.len(),
            forall|m: int| 0 <= m < keys.len() ==> (#[trigger] keys@[m])@ == kf(images@[m]),
            pred == (|r: crate::project::ImageRow| kf(r) == key@),
            count == images@.take(i as int).filter(pred).len(),
            count <= i,
            match last {
                Some(l) => l < i && l as int == last_keyed(images@.take(i as int), kf, key@),
                None => last_keyed(images@.take(i as int), kf, key@) == -1,
            },
    {
        assert(images@.take(i + 1) =~= images@.take(i as int).push(images@[i as int]));
        assert(images@.take(i + 1).drop_last() =~= images@.take(i as int));
        proof {
            lemma_filter_push(images@.take(i as int), images@[i as int], pred);
        }
        if keys[i] == *key {
            count = count + 1;
            last = Some(i);
        }
    }
    assert(images@.take(images.len() as int) =~= images@);
    if unique && count != 1 {
        return None;
    }
    last
}

fn keys_of_label(images: &Vec<crate::project::ImageRow>) -> (r: Vec<String>)
    ensures
        r.len() == images.len(),
        forall|i: int| 0 <= i < r.len() ==> (#[trigger] r@[i])@ == label_key()(images@[i]),
{
    let mut keys: Vec<String> = Vec::new();
    for i in 0..images.len()
        invariant
            keys.len() == i,
            forall|m: int| 0 <= m < i ==> (#[trigger] keys@[m])@ == label_key()(images@[m]),
    {
        let t = crate::paths::with_txt_extension(images[i].relative_path.as_str());
        keys.push(crate::text::lowercase(t.as_str()));
    }
    keys
}

fn keys_of_stem(images: &Vec<crate::project::ImageRow>) -> (r: Vec<String>)
    ensures
        r.len() == images.len(),
        forall|i: int| 0 <= i < r.len() ==> (#[trigger] r@[i])@ == stem_key()(images@[i]),
{
    let mut keys: Vec<String> = Vec::new();
    for i in 0..images.len()
        invariant
            keys.len() == i,
            forall|m: int| 0 <= m < i ==> (#[trigger] keys@[m])@ == stem_key()(images@[m]),
    {
        let v = crate::text::chars_of(images[i].file_name.as_str());
        let stem = match crate::paths::file_stem_of(&v) {
            Some(s) => crate::text::string_of(&s),
            None => images[i].file_name.clone(),
        };
        keys.push(crate::text::lowercase(stem.as_str()));
    }
    keys
}

pub fn keys_of_path(images: &Vec<crate::project::ImageRow>) -> (r: Vec<String>)
    ensures
        r.len() == images.len(),
        forall|i: int| 0 <= i < r.len() ==> (#[trigger] r@[i])@ == path_key()(images@[i]),
{
    let mut keys: Vec<String> = Vec::new();
    for i in 0..images.len()
        invariant
            keys.len() == i,
            forall|m: int| 0 <= m < i ==> (#[trigger] keys@[m])@ == path_key()(images@[m]),
    {
        keys.push(crate::text::lowercase(images[i].relative_path.as_str()));
    }
    keys
}

pub fn keys_of_name(images: &Vec<crate::project::ImageRow>) -> (r: Vec<String>)
    ensures
        r.len() == images.len(),
        forall|i: int| 0 <= i < r.len() ==> (#[trigger] r@[i])@ == name_key()(images@[i]),
{
    let mut keys: Vec<String> = Vec::new();
    for i in 0..images.len()
        invariant
            keys.len() == i,
            forall|m: int| 0 <= m < i ==> (#[trigger] keys@[m])@ == name_key()(images@[m]),
    {
        keys.push(crate::text::lowercase(images[i].file_name.as_str()));
    }
    keys
}

/// An image an import matched: its id and pixel size.
pub struct MatchedImage {
    pub image_id: String,
    pub width: u32,
    pub height: u32,
}

/// The image a match found at index `i` of the lookup.
pub open spec fn matched_at(images: Seq<crate::project::ImageRow>, i: int, m: MatchedImage) -> bool {
    &&& m.image_id == images[i].id
    &&& m.width == images[i].width
    &&& m.height == images[i].height
}

/// The image a YOLO label file at `relative` (below the folder it was chosen in) belongs to: the
/// image whose path with a `.txt` extension matches, ignoring case; else the only image whose
/// file stem matches the file's stem.
pub open spec fn label_file_match(images: Seq<crate::project::ImageRow>, relative: Seq<char>) -> int {
    let lookup = lookup_images(images);
    let exact = last_keyed(lookup, label_key(), crate::text::unicode_lowercase(crate::paths::forward_slashes(relative)));
    if exact >= 0 {
        exact
    } else {
        match crate::paths::file_stem_spec(relative) {
            Some(stem) => only_keyed(lookup, stem_key(), crate::text::unicode_lowercase(stem)),
            None => -1,
        }
    }
}

/// The image a YOLO label file at `relative` belongs to.
pub fn match_label_file(data: &ProjectData, relative: &str) -> (r: Option<MatchedImage>)
    ensures
        ({
            let i = label_file_match(data.images@, relative@);
            match r {
                Some(m) => i >= 0 && matched_at(lookup_images(data.images@), i, m),
                None => i < 0,
            }
        }),
{
    let lookup = image_lookup(data);
    let v = crate::text::chars_of(relative);
    let key = crate::text::lowercase(crate::text::string_of(&crate::paths::to_forward_slashes(&v)).as_str());
    let labels = keys_of_label(&lookup);
    let found = match find_keyed(&lookup, &labels, &key, false, Ghost(label_key())) {
        Some(i) => Some(i),
        None => match crate::paths::file_stem_of(&v) {
            None => None,
            Some(stem) => {
                let stem_key_text = crate::text::lowercase(crate::text::string_of(&stem).as_str());
                let stems = keys_of_stem(&lookup);
                find_keyed(&lookup, &stems, &stem_key_text, true, Ghost(stem_key()))
            },
        },
    };
    proof {
        lemma_last_keyed(lookup@, label_key(), key@);
    }
    match found {
        Some(i) => Some(MatchedImage { image_id: lookup[i].id.clone(), width: lookup[i].width, height: lookup[i].height }),
        None => None,
    }
}

/// The image a COCO image entry named `file_name` is: the image whose path matches, ignoring
/// case; else the only image whose file name matches the entry's file name.
pub open spec fn coco_image_match(images: Seq<crate::project::ImageRow>, file_name: Seq<char>) -> int {
    let lookup = lookup_images(images);
    let name = crate::paths::forward_slashes(file_name);
    let exact = last_keyed(lookup, path_key(), crate::text::unicode_lowercase(name));
    if exact >= 0 {
        exact
    } else {
        match crate::paths::file_name_spec(name) {
            Some(base) => only_keyed(lookup, name_key(), crate::text::unicode_lowercase(base)),
            None => -1,
        }
    }
}

/// The image a COCO image entry named `file_name` is.
pub fn match_coco_image(data: &ProjectData, file_name: &str) -> (r: Option<MatchedImage>)
    ensures
        ({
            let i = coco_image_match(data.images@, file_name@);
            match r {
                Some(m) => i >= 0 && matched_at(lookup_images(data.images@), i, m),
                None => i < 0,
            }
        }),
{
    let lookup = image_lookup(data);
    let name = crate::paths::to_forward_slashes(&crate::text::chars_of(file_name));
    let key = crate::text::lowercase(crate::text::string_of(&name).as_str());
    let paths = keys_of_path(&lookup);
    let found = match find_keyed(&lookup, &paths, &key, false, Ghost(path_key())) {
        Some(i) => Some(i),
        None => match crate::paths::file_name_of(&name) {
            None => None,
            Some(base) => {
                let base_key = crate::text::lowercase(crate::text::string_of(&base).as_str());
                let names = keys_of_name(&lookup);
                find_keyed(&lookup, &names, &base_key, true, Ghost(name_key()))
            },
        },
    };
    proof {
        lemma_last_keyed(lookup@, path_key(), key@);
    }
    match found {
        Some(i) => Some(MatchedImage { image_id: lookup[i].id.clone(), width: lookup[i].width, height: lookup[i].height }),
        None => None,
    }
}

/// Whether some class is named `name`, ASCII case ignored; the first such class.
pub open spec fn class_named(classes: Seq<ClassRecord>, name: Seq<char>) -> int
    decreases classes.len(),
{
    if classes.len() == 0 {
        -1
    } else {
        let p = class_named(classes.drop_last(), name);
        if p >= 0 {
            p
        } else if eq_ignore_ascii_case_spec(classes.last().name@, name) {
            classes.len() - 1
        } else {
            -1
        }
    }
}

/// The class a COCO category named `name` maps to: the class with that name, ASCII case ignored,
/// or a new class.
pub fn category_class(data: &mut ProjectData, name: &str, now: i64) -> (r: Result<String, String>)
    requires
        old(data).wf(),
    ensures
        final(data).wf(),
        r is Err ==> *final(data) == *old(data),
        class_named(old(data).classes@, name@) >= 0 ==> r == Ok::<String, String>(old(data).classes@[class_named(old(data).classes@, name@)].id)
            && *final(data) == *old(data),
        class_named(old(data).classes@, name@) < 0 ==> (r is Ok ==> final(data).classes@.len() == old(data).classes@.len() + 1
            && r == Ok::<String, String>(final(data).classes@.last().id)
            && Some(final(data).classes@.last().name@) == valid_class_name_spec(name@)),
        class_named(old(data).classes@, name@) < 0 && valid_class_name_spec(name@) is None ==> r is Err,
        class_named(old(data).classes@, name@) < 0 && valid_class_name_spec(name@) is Some
            && !name_taken(old(data).classes@, valid_class_name_spec(name@)->0, -1)
            && old(data).classes.len() < i64::MAX && no_uuid_class_ids(old(data).classes@) ==> r is Ok,
{
    let v = crate::text::chars_of(name);
    let mut k: usize = 0;
    while k < data.classes.len()
        invariant
            k <= data.classes.len(),
            v@ == name@,
            data.wf(),
            *data == *old(data),
            class_named(data.classes@.take(k as int), name@) == -1,
        decreases data.classes.len() - k,
    {
        assert(data.classes@.take(k + 1).drop_last() =~= data.classes@.take(k as int));
        if eq_ignore_ascii_case(&crate::text::chars_of(data.classes[k].name.as_str()), &v) {
            proof {
                lemma_class_named_prefix(data.classes@, name@, k as int);
            }
            return Ok(data.classes[k].id.clone());
        }
        k = k + 1;
    }
    assert(data.classes@.take(k as int) =~= data.classes@);
    match create_class(data, name, now) {
        Ok(rec) => Ok(rec.id),
        Err(e) => Err(e),
    }
}

proof fn lemma_class_named_prefix(classes: Seq<ClassRecord>, name: Seq<char>, k: int)
    requires
        0 <= k < classes.len(),
        class_named(classes.take(k), name) == -1,
        eq_ignore_ascii_case_spec(classes[k].name@, name),
    ensures
        class_named(classes, name) == k,
    decreases classes.len(),
{
    if k < classes.len() - 1 {
        assert(classes.drop_last().take(k) =~= classes.take(k));
        assert(classes.drop_last()[k] == classes[k]);
        lemma_class_named_prefix(classes.drop_last(), name, k);
    } else {
        assert(classes.take(k) =~= classes.drop_last());
    }
}


/// The position of the class with id `id` in the class list, looked up from the front.
pub open spec fn class_index(classes: Seq<ClassRecord>, id: Seq<char>) -> Option<int>
    decreases classes.len(),
{
    if classes.len() == 0 {
        None
    } else {
        match class_index(classes.drop_last(), id) {
            Some(k) => Some(k),
            None => if classes.last().id@ == id {
                Some(classes.len() - 1)
            } else {
                None
            },
        }
    }
}

/// The position of the class with id `id`.
pub fn class_index_of(classes: &Vec<ClassRecord>, id: &String) -> (r: Option<usize>)
    ensures
        match r {
            Some(k) => class_index(classes@, id@) == Some(k as int),
            None => class_index(classes@, id@) is None,
        },
{
    let mut found: Option<usize> = None;
    for k in 0..classes.len()
        invariant
            match found {
                Some(x) => class_index(classes@.take(k as int), id@) == Some(x as int),
                None => class_index(classes@.take(k as int), id@) is None,
            },
    {
        assert(classes@.take(k + 1).drop_last() =~= classes@.take(k as int));
        if found.is_none() && classes[k].id == *id {
            found = Some(k);
        }
    }
    assert(classes@.take(classes.len() as int) =~= classes@);
    found
}

/// An annotation an export writes, with the position of its class (none where the class is gone).
pub struct ExportRow {
    pub class_index: Option<usize>,
    pub annotation: AnnotationRow,
}

/// An active image of an export with its annotations, oldest first.
pub struct ExportGroup {
    pub image: crate::project::ImageRow,
    pub rows: Vec<ExportRow>,
}

/// What an export writes: every active image in position order with its annotations, the number
/// of annotations, and the number of images that have any.
pub struct ExportPlan {
    pub groups: Vec<ExportGroup>,
    pub annotations: usize,
    pub annotated_images: usize,
}

/// The optional position as an integer.
pub open spec fn opt_int(o: Option<usize>) -> Option<int> {
    match o {
        Some(k) => Some(k as int),
        None => None,
    }
}

/// Whether `g` holds the annotations of `kind` on its image, oldest first, with their class
/// positions.
pub open spec fn group_rows(data: &ProjectData, kind: AnnotationKind, g: ExportGroup) -> bool {
    let sorted = crate::text::stable_sorted(data.annotations@.filter(on_image(g.image.id@, kind)), created_before());
    &&& g.rows.len() == sorted.len()
    &&& forall|j: int| 0 <= j < sorted.len() ==> (#[trigger] g.rows@[j]).annotation == sorted[j]
        && opt_int(g.rows@[j].class_index) == class_index(data.classes@, sorted[j].class_id@)
}

/// How many annotations the groups hold.
pub open spec fn total_rows(groups: Seq<ExportGroup>) -> int
    decreases groups.len(),
{
    if groups.len() == 0 {
        0
    } else {
        total_rows(groups.drop_last()) + groups.last().rows.len()
    }
}

/// How many of the groups hold an annotation.
pub open spec fn annotated_groups(groups: Seq<ExportGroup>) -> int
    decreases groups.len(),
{
    if groups.len() == 0 {
        0
    } else {
        annotated_groups(groups.drop_last()) + if groups.last().rows.len() > 0 {
            1int
        } else {
            0int
        }
    }
}

/// How many annotations of `kind` the images hold together.
pub open spec fn export_total(data: &ProjectData, kind: AnnotationKind, images: Seq<crate::project::ImageRow>) -> int
    decreases images.len(),
{
    if images.len() == 0 {
        0
    } else {
        export_total(data, kind, images.drop_last()) + data.annotations@.filter(on_image(images.last().id@, kind)).len()
    }
}

proof fn lemma_export_total_prefix(data: &ProjectData, kind: AnnotationKind, images: Seq<crate::project::ImageRow>, j: int)
    requires
        0 <= j <= images.len(),
    ensures
        export_total(data, kind, images.take(j)) <= export_total(data, kind, images),
    decreases images.len(),
{
    if j < images.len() {
        lemma_export_total_prefix(data, kind, images.drop_last(), j);
        assert(images.drop_last().take(j) =~= images.take(j));
    } else {
        assert(images.take(j) =~= images);
    }
}

/// The annotations of `kind` that an export writes, image by image.
pub fn export_groups(data: &ProjectData, kind: AnnotationKind) -> (r: Result<ExportPlan, String>)
    ensures
        r is Ok <==> data.project.task_type == task_of(kind) && export_total(data, kind, lookup_images(data.images@))
            <= usize::MAX,
        data.project.task_type == task_of(kind) && export_total(data, kind, lookup_images(data.images@)) > usize::MAX
            ==> (r matches Err(m) && m@ == "The project is too large to export."@),
        r matches Ok(plan) ==> {
            let images = lookup_images(data.images@);
            &&& plan.groups.len() == images.len()
            &&& forall|i: int| 0 <= i < images.len() ==> (#[trigger] plan.groups@[i]).image == images[i]
                && group_rows(data, kind, plan.groups@[i])
            &&& plan.annotations == total_rows(plan.groups@)
            &&& plan.annotated_images == annotated_groups(plan.groups@)
        },
{
    match require_task(data, kind) {
        Err(e) => return Err(e),
        Ok(()) => {},
    }
    let lookup = image_lookup(data);
    proof {
        crate::text::lemma_stable_sorted_len(data.images@.filter(is_active()), position_before());
        data.images@.lemma_filter_len(is_active());
    }
    let mut groups: Vec<ExportGroup> = Vec::new();
    let mut total: usize = 0;
    let mut annotated: usize = 0;
    for i in 0..lookup.len()
        invariant
            lookup@ == lookup_images(data.images@),
            lookup.len() <= data.images.len(),
            data.project.task_type == task_of(kind),
            groups.len() == i,
            forall|x: int| 0 <= x < i ==> (#[trigger] groups@[x]).image == lookup@[x] && group_rows(data, kind, groups@[x]),
            total == total_rows(groups@),
            annotated == annotated_groups(groups@),
            annotated <= i,
            total == export_total(data, kind, lookup@.take(i as int)),
    {
        let image = crate::project::copy_row(&lookup[i]);
        let found = annotations_for_image(data, kind, image.id.as_str());
        let sorted = match found {
            Ok(rows) => rows,
            Err(_) => Vec::new(),
        };
        let ghost expected = crate::text::stable_sorted(data.annotations@.filter(on_image(image.id@, kind)), created_before());
        assert(sorted@ == expected);
        proof {
            crate::text::lemma_stable_sorted_len(data.annotations@.filter(on_image(image.id@, kind)), created_before());
            data.annotations@.lemma_filter_len(on_image(image.id@, kind));
        }
        let mut rows: Vec<ExportRow> = Vec::new();
        for j in 0..sorted.len()
            invariant
                sorted@ == expected,
                rows.len() == j,
                forall|y: int| 0 <= y < j ==> (#[trigger] rows@[y]).annotation == expected[y]
                    && opt_int(rows@[y].class_index) == class_index(data.classes@, expected[y].class_id@),
        {
            let k = class_index_of(&data.classes, &sorted[j].class_id);
            rows.push(ExportRow { class_index: k, annotation: sorted[j].duplicate() });
        }
        let n = rows.len();
        let ghost before = groups@;
        assert(lookup@.take(i + 1).drop_last() =~= lookup@.take(i as int));
        let sum = match total.checked_add(n) {
            Some(v) => v,
            None => {
                proof {
                    lemma_export_total_prefix(data, kind, lookup@, i + 1);
                }
                return Err(owned("The project is too large to export."));
            },
        };
        groups.push(ExportGroup { image, rows });
        assert(groups@.drop_last() =~= before);
        assert(group_rows(data, kind, groups@[i as int]));
        total = sum;
        if n > 0 {
            annotated = annotated + 1;
        }
    }
    assert(lookup@.take(lookup.len() as int) =~= lookup@);
    Ok(ExportPlan { groups, annotations: total, annotated_images: annotated })
}

/// The `labels.txt` of an export: each class name on a line of its own, in class order.
pub open spec fn labels_text(classes: Seq<ClassRecord>) -> Seq<char>
    decreases classes.len(),
{
    if classes.len() == 0 {
        seq![]
    } else {
        labels_text(classes.drop_last()) + classes.last().name@ + seq!['\n']
    }
}

/// The `labels.txt` a YOLO export writes; an export needs at least one class.
pub fn labels_file_text(data: &ProjectData, kind: AnnotationKind) -> (r: Result<String, String>)
    ensures
        r is Ok <==> data.classes.len() > 0,
        r matches Ok(t) ==> t@ == labels_text(data.classes@),
{
    if data.classes.len() == 0 {
        return match kind {
            AnnotationKind::Bbox => Err(owned("Add at least one class before exporting YOLO labels.")),
            AnnotationKind::Polygon => Err(owned("Add at least one class before exporting YOLO polygons.")),
        };
    }
    let mut out = String::new();
    for i in 0..data.classes.len()
        invariant
            out@ == labels_text(data.classes@.take(i as int)),
    {
        assert(data.classes@.take(i + 1).drop_last() =~= data.classes@.take(i as int));
        crate::text::push_all(&mut out, data.classes[i].name.as_str());
        out.push('\n');
    }
    assert(data.classes@.take(data.classes.len() as int) =~= data.classes@);
    Ok(out)
}

/// The message of an export report; a polygon YOLO export also counts the rows its contours
/// became and the objects of several islands.
pub open spec fn export_message(kind: AnnotationKind, format: ImportFormat, annotations: nat, images: nat, polygon_rows: nat, split_objects: nat) -> Seq<char> {
    let d = |n: nat| crate::classification::decimal(n);
    match (kind, format) {
        (AnnotationKind::Bbox, ImportFormat::Yolo) => "Exported "@ + d(annotations) + " boxes for "@ + d(images) + " annotated images."@,
        (AnnotationKind::Bbox, ImportFormat::Coco) => "Exported "@ + d(annotations) + " COCO boxes."@,
        (AnnotationKind::Polygon, ImportFormat::Coco) => "Exported "@ + d(annotations) + " COCO polygon objects."@,
        (AnnotationKind::Polygon, ImportFormat::Yolo) => "Exported "@ + d(annotations) + " objects as "@ + d(polygon_rows)
            + " YOLO polygon rows for "@ + d(images) + " annotated images."@ + if split_objects > 0 {
            " "@ + d(split_objects) + " multi-island objects became separate YOLO rows because TXT does not store shared instance IDs."@
        } else {
            seq![]
        },
    }
}

/// The label files a YOLO export writes: for each image that has an annotation, in order, the
/// index of its group and the path of its `.txt` file. An image without annotations gets no file.
pub open spec fn yolo_files_spec(groups: Seq<ExportGroup>) -> Seq<(int, Seq<char>)>
    decreases groups.len(),
{
    if groups.len() == 0 {
        seq![]
    } else {
        let prev = yolo_files_spec(groups.drop_last());
        if groups.last().rows.len() > 0 {
            prev.push((groups.len() - 1, crate::paths::with_txt_spec(groups.last().image.relative_path@)))
        } else {
            prev
        }
    }
}

/// A list of label files as plain values.
pub open spec fn file_views(files: Seq<(usize, String)>) -> Seq<(int, Seq<char>)> {
    files.map_values(|f: (usize, String)| (f.0 as int, f.1@))
}

/// The label files a YOLO export of `plan` writes.
pub fn yolo_files(plan: &ExportPlan) -> (r: Vec<(usize, String)>)
    ensures
        file_views(r@) == yolo_files_spec(plan.groups@),
{
    let mut out: Vec<(usize, String)> = Vec::new();
    for i in 0..plan.groups.len()
        invariant
            file_views(out@) == yolo_files_spec(plan.groups@.take(i as int)),
    {
        assert(plan.groups@.take(i + 1).drop_last() =~= plan.groups@.take(i as int));
        assert(plan.groups@.take(i + 1).last() == plan.groups@[i as int]);
        if plan.groups[i].rows.len() > 0 {
            let path = crate::paths::with_txt_extension(plan.groups[i].image.relative_path.as_str());
            let ghost before = out@;
            out.push((i, path));
            assert(file_views(out@) =~= file_views(before).push((i as int, path@)));
        }
    }
    assert(plan.groups@.take(plan.groups.len() as int) =~= plan.groups@);
    out
}

/// The report of an export once its files are written: YOLO counts the images with annotations,
/// COCO every active image.
pub fn export_report(
    data: &ProjectData,
    kind: AnnotationKind,
    format: ImportFormat,
    plan: &ExportPlan,
    polygon_rows: usize,
    split_objects: usize,
) -> (r: ImportReport)
    ensures
        r.annotations == plan.annotations,
        r.matched_images == match format {
            ImportFormat::Yolo => plan.annotated_images,
            ImportFormat::Coco => plan.groups.len(),
        },
        r.skipped == 0,
        r.classes == data.classes.len(),
        r.message@ == export_message(kind, format, plan.annotations as nat, r.matched_images as nat, polygon_rows as nat, split_objects as nat),
{
    let images = match format {
        ImportFormat::Yolo => plan.annotated_images,
        ImportFormat::Coco => plan.groups.len(),
    };
    let mut m = String::new();
    crate::text::push_all(&mut m, "Exported ");
    push_chars(&mut m, &crate::classification::decimal_text(plan.annotations));
    match (kind, format) {
        (AnnotationKind::Bbox, ImportFormat::Yolo) => {
            crate::text::push_all(&mut m, " boxes for ");
            push_chars(&mut m, &crate::classification::decimal_text(images));
            crate::text::push_all(&mut m, " annotated images.");
        },
        (AnnotationKind::Bbox, ImportFormat::Coco) => crate::text::push_all(&mut m, " COCO boxes."),
        (AnnotationKind::Polygon, ImportFormat::Coco) => crate::text::push_all(&mut m, " COCO polygon objects."),
        (AnnotationKind::Polygon, ImportFormat::Yolo) => {
            crate::text::push_all(&mut m, " objects as ");
            push_chars(&mut m, &crate::classification::decimal_text(polygon_rows));
            crate::text::push_all(&mut m, " YOLO polygon rows for ");
            push_chars(&mut m, &crate::classification::decimal_text(images));
            crate::text::push_all(&mut m, " annotated images.");
            if split_objects > 0 {
                crate::text::push_all(&mut m, " ");
                push_chars(&mut m, &crate::classification::decimal_text(split_objects));
                crate::text::push_all(
                    &mut m,
                    " multi-island objects became separate YOLO rows because TXT does not store shared instance IDs.",
                );
            }
        },
    }
    assert(m@ =~= export_message(kind, format, plan.annotations as nat, images as nat, polygon_rows as nat, split_objects as nat));
    ImportReport { annotations: plan.annotations, matched_images: images, skipped: 0, classes: data.classes.len(), message: m }
}

/// A YOLO import maps class indices through the class list, so it needs at least one class.
pub fn require_import_classes(data: &ProjectData, kind: AnnotationKind) -> (r: Result<(), String>)
    ensures
        r is Ok <==> data.classes.len() > 0,
{
    if data.classes.len() > 0 {
        Ok(())
    } else {
        match kind {
            AnnotationKind::Bbox => Err(owned("Load labels.txt or create classes before importing YOLO boxes.")),
            AnnotationKind::Polygon => Err(owned("Load labels.txt or create classes before importing YOLO polygons.")),
        }
    }
}

/// The id of the class at YOLO class index `index`, or the refusal of the row.
pub fn yolo_class_id(data: &ProjectData, index: usize) -> (r: Result<String, String>)
    ensures
        r is Ok <==> index < data.classes.len(),
        r matches Ok(id) ==> id == data.classes@[index as int].id,
{
    if index < data.classes.len() {
        Ok(clone_text(&data.classes[index].id))
    } else {
        Err(owned("YOLO class index is outside labels.txt."))
    }
}

/// Whether a file of a YOLO labels folder holds annotations: a `.txt` file other than
/// `labels.txt` and `classes.txt` (ignoring ASCII case).
pub open spec fn yolo_label_file_spec(file_name: Seq<char>) -> bool {
    &&& crate::paths::extension_spec(file_name) matches Some(e) && eq_ignore_ascii_case_spec(e, "txt"@)
    &&& !eq_ignore_ascii_case_spec(file_name, "labels.txt"@)
    &&& !eq_ignore_ascii_case_spec(file_name, "classes.txt"@)
}

/// Whether the file `file_name` of a YOLO labels folder holds annotations.
pub fn is_yolo_label_file(file_name: &str) -> (r: bool)
    ensures
        r == yolo_label_file_spec(file_name@),
{
    let v = chars_of(file_name);
    let txt = chars_of("txt");
    let labels = chars_of("labels.txt");
    let classes = chars_of("classes.txt");
    let is_txt = match crate::paths::extension_of(&v) {
        Some(e) => eq_ignore_ascii_case(&e, &txt),
        None => false,
    };
    is_txt && !eq_ignore_ascii_case(&v, &labels) && !eq_ignore_ascii_case(&v, &classes)
}

/// Every batch that counts is one of the batches read.
proof fn lemma_latest_batch_member(b: Seq<ImportBatch>, j: int)
    requires
        0 <= j < latest_batches(b).len(),
    ensures
        exists|k: int| 0 <= k < b.len() && b[k] == latest_batches(b)[j],
    decreases b.len(),
{
    let d = b.drop_last();
    let q = |x: ImportBatch| x.image_id@ != b.last().image_id@;
    let f = latest_batches(d).filter(q);
    if j == f.len() {
        assert(latest_batches(b)[j] == b[b.len() - 1]);
    } else {
        lemma_filter_member(latest_batches(d), q, j);
        let m = choose|m: int| 0 <= m < latest_batches(d).len() && latest_batches(d)[m] == f[j] && q(latest_batches(d)[m]);
        lemma_latest_batch_member(d, m);
        let k = choose|k: int| 0 <= k < d.len() && d[k] == latest_batches(d)[m];
        assert(b[k] == d[k]);
    }
}

/// Every row an import replaces is a row of `anns` on one of the imported images, of `kind`.
proof fn lemma_batch_before_member(anns: Seq<AnnotationRow>, kept: Seq<ImportBatch>, kind: AnnotationKind, i: int)
    requires
        0 <= i < batch_before(anns, kept, kind).len(),
    ensures
        exists|j: int, m: int|
            0 <= j < kept.len() && 0 <= m < anns.len() && batch_before(anns, kept, kind)[i] == anns[m]
                && anns[m].image_id@ == kept[j].image_id@ && anns[m].kind == kind,
    decreases kept.len(),
{
    if kept.len() > 0 {
        let d = kept.drop_last();
        let prev = batch_before(anns, d, kind);
        let keep = on_image(kept.last().image_id@, kind);
        let f = anns.filter(keep);
        crate::text::lemma_stable_sorted_len(f, created_before());
        if i < prev.len() {
            lemma_batch_before_member(anns, d, kind, i);
            let (j, m) = choose|j: int, m: int|
                0 <= j < d.len() && 0 <= m < anns.len() && prev[i] == anns[m] && anns[m].image_id@ == d[j].image_id@
                    && anns[m].kind == kind;
            assert(kept[j] == d[j]);
            assert(batch_before(anns, kept, kind)[i] == prev[i]);
        } else {
            let t = i - prev.len();
            crate::text::lemma_stable_sorted_member(f, created_before(), t);
            let q = choose|q: int| 0 <= q < f.len() && crate::text::stable_sorted(f, created_before())[t] == f[q];
            lemma_filter_member(anns, keep, q);
            let m = choose|m: int| 0 <= m < anns.len() && anns[m] == f[q] && keep(anns[m]);
            assert(batch_before(anns, kept, kind)[i] == crate::text::stable_sorted(f, created_before())[t]);
            assert(kept[kept.len() - 1].image_id@ == anns[m].image_id@);
        }
    }
}

/// An import changes only the annotations of the images it read: an annotation of another image,
/// or of the other kind, keeps its row, where no imported row takes its id.
pub proof fn law_import_keeps_other_images(anns: Seq<AnnotationRow>, batches: Seq<ImportBatch>, kind: AnnotationKind, a: AnnotationRow)
    requires
        annotations_unique(anns),
        rows_unique(batch_after(latest_batches(batches))),
        anns.contains(a),
        a.kind != kind || forall|k: int| 0 <= k < batches.len() ==> (#[trigger] batches[k]).image_id@ != a.image_id@,
        !has_row_id(batch_after(latest_batches(batches)), a.id@),
    ensures
        ann_lookup(
            edited(anns, batch_before(anns, latest_batches(batches), kind), batch_after(latest_batches(batches)), kind),
            a.id@,
        ) == Some(a),
{
    let kept = latest_batches(batches);
    let before = batch_before(anns, kept, kind);
    let after = batch_after(kept);
    let x = a.id@;
    let n = choose|n: int| 0 <= n < anns.len() && anns[n] == a;
    lemma_index_unique(anns, x, n);
    lemma_lookup_some(anns, x);
    assert(ann_lookup(anns, x) == Some(a));
    if has_row_id(before, x) {
        let i = choose|i: int| 0 <= i < before.len() && (#[trigger] before[i]).id@ == x;
        lemma_batch_before_member(anns, kept, kind, i);
        let (j, m) = choose|j: int, m: int|
            0 <= j < kept.len() && 0 <= m < anns.len() && before[i] == anns[m]
                && anns[m].image_id@ == kept[j].image_id@ && anns[m].kind == kind;
        assert(m == n);
        lemma_latest_batch_member(batches, j);
        let k = choose|k: int| 0 <= k < batches.len() && batches[k] == kept[j];
        assert(batches[k].image_id@ == a.image_id@);
    }
    lemma_remove_all(anns, before, x);
    lemma_upsert_all(remove_all(anns, before), after, kind, x);
}

} // verus!
