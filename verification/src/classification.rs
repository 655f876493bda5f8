//! Image classification: labels per image, single-label class directories, and CSV exchange.
use vstd::prelude::*;
use crate::detection::{clone_classes, clone_text, find_class, has_class, ClassRecord};
use crate::project::{ClassificationMode, ImageClassRow, ProjectData, TaskType};
use crate::text::owned;

verus! {

/// A change of the classes of one image, with the move of its file that single-label mode makes.
pub struct ClassificationOperation {
    pub image_id: String,
    pub before_class_ids: Vec<String>,
    pub after_class_ids: Vec<String>,
    pub from_relative_path: String,
    pub to_relative_path: String,
    pub original_relative_path: Option<String>,
}

/// The classes of a classification project, the classes of one image, and how many images
/// carry a class.
#[derive(Debug, Clone, PartialEq)]
pub struct ClassificationState {
    pub classes: Vec<ClassRecord>,
    pub image_class_ids: Vec<String>,
    pub labeled_image_count: i64,
}

/// What an import or export of labels did.
#[derive(Debug, Clone, PartialEq)]
pub struct ClassificationReport {
    pub assignments: usize,
    pub matched_images: usize,
    pub skipped: usize,
    pub classes: usize,
    pub message: String,
}

/// The mode of a classification project (single where none is stored), or the refusal for
/// another task.
pub open spec fn classification_mode_of(data: &ProjectData) -> Option<ClassificationMode> {
    if data.project.task_type == TaskType::Classification {
        Some(
            match data.project.classification_mode {
                Some(m) => m,
                None => ClassificationMode::Single,
            },
        )
    } else {
        None
    }
}

/// The mode of a classification project.
pub fn require_classification(data: &ProjectData) -> (r: Result<ClassificationMode, String>)
    ensures
        match r {
            Ok(m) => classification_mode_of(data) == Some(m),
            Err(_) => classification_mode_of(data) is None,
        },
{
    if data.project.task_type != TaskType::Classification {
        return Err(owned("This operation is only available in a classification project."));
    }
    match data.project.classification_mode {
        Some(m) => Ok(m),
        None => Ok(ClassificationMode::Single),
    }
}

/// Whether image `image_id` carries class `class_id`.
pub open spec fn is_assigned(links: Seq<ImageClassRow>, image_id: Seq<char>, class_id: Seq<char>) -> bool {
    exists|i: int|
        0 <= i < links.len() && (#[trigger] links[i]).image_id@ == image_id && links[i].class_id@
            == class_id
}

/// The ids of `classes` that `keep` selects, in class order.
pub open spec fn ids_where(classes: Seq<ClassRecord>, keep: spec_fn(Seq<char>) -> bool) -> Seq<Seq<char>>
    decreases classes.len(),
{
    if classes.len() == 0 {
        seq![]
    } else {
        let prev = ids_where(classes.drop_last(), keep);
        if keep(classes.last().id@) {
            prev.push(classes.last().id@)
        } else {
            prev
        }
    }
}

/// The ids that `ids_where` selects are class ids that `keep` accepts, each once.
pub proof fn lemma_ids_where(classes: Seq<ClassRecord>, keep: spec_fn(Seq<char>) -> bool)
    ensures
        ids_where(classes, keep).len() <= classes.len(),
        forall|i: int|
            0 <= i < ids_where(classes, keep).len() ==> has_class(classes, #[trigger] ids_where(classes, keep)[i])
                && keep(ids_where(classes, keep)[i]),
    decreases classes.len(),
{
    if classes.len() > 0 {
        let d = classes.drop_last();
        lemma_ids_where(d, keep);
        let prev = ids_where(d, keep);
        assert forall|i: int| 0 <= i < ids_where(classes, keep).len() implies has_class(classes, #[trigger] ids_where(classes, keep)[i])
            && keep(ids_where(classes, keep)[i]) by {
            if i < prev.len() {
                assert(ids_where(classes, keep)[i] == prev[i]);
                assert(has_class(d, prev[i]));
                let j = choose|j: int| 0 <= j < d.len() && (#[trigger] d[j]).id@ == prev[i];
                assert(classes[j] == d[j]);
            } else {
                assert(classes[classes.len() - 1].id@ == ids_where(classes, keep)[i]);
            }
        }
    }
}

/// The classes of image `image_id`, in class order.
pub open spec fn image_class_ids_spec(data: &ProjectData, image_id: Seq<char>) -> Seq<Seq<char>> {
    ids_where(data.classes@, |c: Seq<char>| is_assigned(data.image_classes@, image_id, c))
}

/// The texts of a list of strings.
pub open spec fn texts(v: Seq<String>) -> Seq<Seq<char>> {
    v.map_values(|s: String| s@)
}

fn assigned(links: &Vec<ImageClassRow>, image_id: &String, class_id: &String) -> (r: bool)
    ensures
        r == is_assigned(links@, image_id@, class_id@),
{
    for i in 0..links.len()
        invariant
            forall|k: int|
                0 <= k < i ==> !(links@[k].image_id@ == image_id@ && links@[k].class_id@
                    == class_id@),
    {
        if links[i].image_id == *image_id && links[i].class_id == *class_id {
            return true;
        }
    }
    false
}

/// The classes of image `image_id`, in class order.
pub fn image_class_ids(data: &ProjectData, image_id: &str) -> (r: Vec<String>)
    ensures
        texts(r@) == image_class_ids_spec(data, image_id@),
{
    let key = owned(image_id);
    let ghost keep = |c: Seq<char>| is_assigned(data.image_classes@, image_id@, c);
    let mut out: Vec<String> = Vec::new();
    for i in 0..data.classes.len()
        invariant
            key@ == image_id@,
            keep == (|c: Seq<char>| is_assigned(data.image_classes@, image_id@, c)),
            texts(out@) == ids_where(data.classes@.take(i as int), keep),
    {
        assert(data.classes@.take(i + 1).drop_last() =~= data.classes@.take(i as int));
        if assigned(&data.image_classes, &key, &data.classes[i].id) {
            let ghost before = out@;
            out.push(clone_text(&data.classes[i].id));
            assert(texts(out@) =~= texts(before).push(data.classes@[i as int].id@));
        }
    }
    assert(data.classes@.take(data.classes.len() as int) =~= data.classes@);
    out
}

/// How many distinct texts `s` holds.
pub open spec fn distinct_count(s: Seq<Seq<char>>) -> int
    decreases s.len(),
{
    if s.len() == 0 {
        0
    } else {
        distinct_count(s.drop_last()) + if s.drop_last().contains(s.last()) {
            0int
        } else {
            1int
        }
    }
}

/// The image ids of the image labels.
pub open spec fn link_images(links: Seq<ImageClassRow>) -> Seq<Seq<char>> {
    links.map_values(|l: ImageClassRow| l.image_id@)
}

proof fn lemma_distinct_count_bound(s: Seq<Seq<char>>)
    ensures
        0 <= distinct_count(s) <= s.len(),
    decreases s.len(),
{
    if s.len() > 0 {
        lemma_distinct_count_bound(s.drop_last());
    }
}

/// How many images carry at least one class.
pub fn labeled_image_count(data: &ProjectData) -> (r: usize)
    ensures
        r == distinct_count(link_images(data.image_classes@)),
{
    let links = &data.image_classes;
    let mut n: usize = 0;
    for i in 0..links.len()
        invariant
            n == distinct_count(link_images(links@.take(i as int))),
            n <= i,
    {
        let ghost prev = link_images(links@.take(i as int));
        assert(link_images(links@.take(i + 1)) =~= prev.push(links@[i as int].image_id@));
        assert(link_images(links@.take(i + 1)).drop_last() =~= prev);
        let mut seen = false;
        for j in 0..i
            invariant
                i < links.len(),
                prev == link_images(links@.take(i as int)),
                seen == exists|k: int| 0 <= k < j && prev[k] == links@[i as int].image_id@,
        {
            assert(prev[j as int] == links@[j as int].image_id@);
            if links[j].image_id == links[i].image_id {
                seen = true;
            }
            assert(seen == exists|k: int| 0 <= k < j + 1 && prev[k] == links@[i as int].image_id@) by {
                if exists|k: int| 0 <= k < j + 1 && prev[k] == links@[i as int].image_id@ {
                    let k = choose|k: int| 0 <= k < j + 1 && prev[k] == links@[i as int].image_id@;
                    if k < j {
                    }
                }
            }
        }
        proof {
            lemma_distinct_count_bound(prev);
            if prev.contains(links@[i as int].image_id@) {
                let k = choose|k: int| 0 <= k < prev.len() && prev[k] == links@[i as int].image_id@;
                assert(seen);
            }
        }
        if !seen {
            n = n + 1;
        }
    }
    assert(links@.take(links.len() as int) =~= links@);
    n
}

/// The classes, the classes of `image_id` if one is given, and how many images are labeled.
pub fn state(data: &ProjectData, image_id: Option<&str>) -> (r: Result<ClassificationState, String>)
    requires
        data.image_classes.len() <= i64::MAX,
    ensures
        r is Ok <==> classification_mode_of(data) is Some,
        r matches Ok(st) ==> {
            &&& st.classes@ == data.classes@
            &&& texts(st.image_class_ids@) == match image_id {
                Some(id) => image_class_ids_spec(data, id@),
                None => Seq::<Seq<char>>::empty(),
            }
            &&& st.labeled_image_count == distinct_count(link_images(data.image_classes@))
        },
{
    match require_classification(data) {
        Err(e) => return Err(e),
        Ok(_) => {},
    }
    let classes = clone_classes(&data.classes);
    let ids = match image_id {
        Some(id) => image_class_ids(data, id),
        None => {
            let v: Vec<String> = Vec::new();
            assert(texts(v@) =~= Seq::<Seq<char>>::empty());
            v
        },
    };
    let count = labeled_image_count(data);
    proof {
        lemma_distinct_count_bound(link_images(data.image_classes@));
    }
    Ok(ClassificationState { classes, image_class_ids: ids, labeled_image_count: count as i64 })
}


/// Whether `id` is one of `ids`.
pub open spec fn lists(ids: Seq<String>, id: Seq<char>) -> bool {
    exists|i: int| 0 <= i < ids.len() && (#[trigger] ids[i])@ == id
}

fn lists_exec(ids: &Vec<String>, id: &String) -> (r: bool)
    ensures
        r == lists(ids@, id@),
{
    for i in 0..ids.len()
        invariant
            forall|k: int| 0 <= k < i ==> ids@[k]@ != id@,
    {
        if ids[i] == *id {
            return true;
        }
    }
    false
}

/// The requested class ids without repeats, in class order, or the refusal when one of them is
/// not a class.
pub fn validate_class_ids(data: &ProjectData, class_ids: Vec<String>) -> (r: Result<Vec<String>, String>)
    ensures
        r is Ok <==> forall|i: int| 0 <= i < class_ids.len() ==> has_class(data.classes@, (#[trigger] class_ids@[i])@),
        r matches Ok(ids) ==> texts(ids@) == ids_where(data.classes@, |c: Seq<char>| lists(class_ids@, c)),
{
    for i in 0..class_ids.len()
        invariant
            forall|k: int| 0 <= k < i ==> has_class(data.classes@, (#[trigger] class_ids@[k])@),
    {
        if find_class(&data.classes, class_ids[i].as_str()).is_none() {
            return Err(owned("One of the selected classes no longer exists."));
        }
    }
    let ghost keep = |c: Seq<char>| lists(class_ids@, c);
    let mut out: Vec<String> = Vec::new();
    for i in 0..data.classes.len()
        invariant
            keep == (|c: Seq<char>| lists(class_ids@, c)),
            texts(out@) == ids_where(data.classes@.take(i as int), keep),
    {
        assert(data.classes@.take(i + 1).drop_last() =~= data.classes@.take(i as int));
        if lists_exec(&class_ids, &data.classes[i].id) {
            let ghost before = out@;
            out.push(clone_text(&data.classes[i].id));
            assert(texts(out@) =~= texts(before).push(data.classes@[i as int].id@));
        }
    }
    assert(data.classes@.take(data.classes.len() as int) =~= data.classes@);
    Ok(out)
}

/// `Path::new(path).file_name()`, or the whole path where it has none.
pub open spec fn file_name_or_path(path: Seq<char>) -> Seq<char> {
    match crate::paths::file_name_spec(path) {
        Some(n) => n,
        None => path,
    }
}

/// The file name of `path`, or `path` where it has none.
pub fn file_name(path: &str) -> (r: String)
    ensures
        r@ == file_name_or_path(path@),
{
    let v = crate::text::chars_of(path);
    match crate::paths::file_name_of(&v) {
        Some(n) => crate::text::string_of(&n),
        None => owned(path),
    }
}

/// A character that a directory name cannot hold: a control character, `/`, `\` or `:`.
pub open spec fn unsafe_in_directory(c: char) -> bool {
    crate::text::is_control_spec(c) || c == '/' || c == '\\' || c == ':'
}

/// `name` with each unsafe character replaced by `_`, trimmed of whitespace and dots.
pub open spec fn sanitized_directory(name: Seq<char>) -> Seq<char> {
    let mapped = name.map_values(|c: char| if unsafe_in_directory(c) { '_' } else { c });
    crate::text::trimmed(
        crate::text::trim_spec(crate::text::trimmed(mapped), crate::text::TrimSet::Dot),
    )
}

/// `.yalt`, the project directory.
pub open spec fn project_directory_name() -> Seq<char> {
    seq!['.', 'y', 'a', 'l', 't']
}

/// `.labeler`, the project directory of earlier releases.
pub open spec fn legacy_directory_name() -> Seq<char> {
    seq!['.', 'l', 'a', 'b', 'e', 'l', 'e', 'r']
}

/// `deleted`, where deleted images go.
pub open spec fn deleted_name() -> Seq<char> {
    seq!['d', 'e', 'l', 'e', 't', 'e', 'd']
}

/// The directory name of a class, or `None` where it is empty or names a reserved directory.
pub open spec fn class_directory_spec(name: Seq<char>) -> Option<Seq<char>> {
    let t = sanitized_directory(name);
    if t.len() == 0 || crate::text::eq_ignore_ascii_case_spec(t, deleted_name()) || t
        == project_directory_name() || t == legacy_directory_name() {
        None
    } else {
        Some(t)
    }
}

/// The directory that single-label mode files the images of class `name` in.
pub fn class_directory_name(name: &str) -> (r: Result<String, String>)
    ensures
        match r {
            Ok(d) => class_directory_spec(name@) == Some(d@),
            Err(_) => class_directory_spec(name@) is None,
        },
{
    let v = crate::text::chars_of(name);
    let mut mapped: Vec<char> = Vec::new();
    for i in 0..v.len()
        invariant
            v@ == name@,
            mapped@ == v@.take(i as int).map_values(|c: char| if unsafe_in_directory(c) { '_' } else { c }),
    {
        let c = v[i];
        let m = if crate::text::is_control(c) || c == '/' || c == '\\' || c == ':' {
            '_'
        } else {
            c
        };
        mapped.push(m);
        assert(v@.take(i + 1).map_values(|c: char| if unsafe_in_directory(c) { '_' } else { c }) =~= v@.take(i as int).map_values(|c: char| if unsafe_in_directory(c) { '_' } else { c }).push(m));
    }
    assert(v@.take(v.len() as int) =~= v@);
    let a = crate::text::trim_chars(&mapped);
    let (lo, hi) = crate::text::trim_bounds(&a, crate::text::TrimSet::Dot);
    let b = crate::text::slice_of(&a, lo, hi);
    let t = crate::text::trim_chars(&b);
    let deleted: Vec<char> = vec!['d', 'e', 'l', 'e', 't', 'e', 'd'];
    let current: Vec<char> = vec!['.', 'y', 'a', 'l', 't'];
    let legacy: Vec<char> = vec!['.', 'l', 'a', 'b', 'e', 'l', 'e', 'r'];
    assert(deleted@ =~= deleted_name());
    assert(current@ =~= project_directory_name());
    assert(legacy@ =~= legacy_directory_name());
    if t.len() == 0 || crate::text::eq_ignore_ascii_case(&t, &deleted) || crate::text::chars_eq(&t, &current)
        || crate::text::chars_eq(&t, &legacy) {
        return Err(owned("This name cannot be used as a class directory name."));
    }
    Ok(crate::text::string_of(&t))
}

/// The decimal digits of `n`.
pub open spec fn decimal(n: nat) -> Seq<char>
    decreases n,
{
    if n < 10 {
        seq![((n + 48) as u8) as char]
    } else {
        decimal(n / 10) + seq![(((n % 10) + 48) as u8) as char]
    }
}

/// The decimal digits of `n`.
pub fn decimal_text(n: usize) -> (r: Vec<char>)
    ensures
        r@ == decimal(n as nat),
    decreases n,
{
    if n < 10 {
        let d = (n as u8) + 48;
        let mut r: Vec<char> = Vec::new();
        r.push(d as char);
        assert(r@ =~= decimal(n as nat));
        r
    } else {
        let mut r = decimal_text(n / 10);
        let d = ((n % 10) as u8) + 48;
        let ghost before = r@;
        r.push(d as char);
        assert(r@ =~= decimal(n as nat));
        r
    }
}

/// The decimal digits of `n`.
pub fn decimal_text_u64(n: u64) -> (r: Vec<char>)
    ensures
        r@ == decimal(n as nat),
    decreases n,
{
    if n < 10 {
        let d = (n as u8) + 48;
        let mut r: Vec<char> = Vec::new();
        r.push(d as char);
        assert(r@ =~= decimal(n as nat));
        r
    } else {
        let mut r = decimal_text_u64(n / 10);
        let d = ((n % 10) as u8) + 48;
        r.push(d as char);
        assert(r@ =~= decimal(n as nat));
        r
    }
}


/// The path single-label mode prefers for an image at `current` (first filed at `original`):
/// `{class directory}/{file name}`, or the original path when the image loses its class.
pub open spec fn preferred_destination(current: Seq<char>, original: Option<Seq<char>>, directory: Option<
    Seq<char>,
>) -> Seq<char> {
    let base = match original {
        Some(o) => o,
        None => current,
    };
    match directory {
        Some(d) => d + seq!['/'] + file_name_or_path(base),
        None => base,
    }
}

/// The suffix of the `k`-th alternative name: `-{short}`, then `-{short}-{k}`.
pub open spec fn candidate_suffix(short: Seq<char>, k: nat) -> Seq<char> {
    if k == 0 {
        seq!['-'] + short
    } else {
        seq!['-'] + short + seq!['-'] + decimal(k)
    }
}

/// The `k`-th alternative to `preferred`, in the same directory.
pub open spec fn candidate(preferred: Seq<char>, short: Seq<char>, k: nat) -> Seq<char> {
    crate::paths::normalized_spec(
        crate::paths::sibling_path(
            preferred,
            crate::paths::suffixed_name(preferred, candidate_suffix(short, k)),
        ),
    )
}

/// The first free alternative from the `k`-th on, trying ten thousand; `None` where one is not a
/// valid path or all are taken.
pub open spec fn destination_from(preferred: Seq<char>, short: Seq<char>, occupied: Seq<String>, k: nat) -> Option<
    Seq<char>,
>
    decreases 10000 - k,
{
    if k >= 10000 {
        None
    } else {
        let c = candidate(preferred, short, k);
        if !crate::paths::is_valid_relative(c) {
            None
        } else if !crate::workspace::is_taken(occupied, c) {
            Some(c)
        } else {
            destination_from(preferred, short, occupied, k + 1)
        }
    }
}

/// Where an image goes: the preferred path where it is the current one or free, else the first
/// free alternative.
pub open spec fn destination_spec(current: Seq<char>, preferred: Seq<char>, short: Seq<char>, occupied: Seq<
    String,
>) -> Option<Seq<char>> {
    if preferred == current {
        Some(preferred)
    } else if !crate::paths::is_valid_relative(preferred) {
        None
    } else if !crate::workspace::is_taken(occupied, preferred) {
        Some(preferred)
    } else {
        destination_from(preferred, short, occupied, 0)
    }
}

fn candidate_exec(preferred: &Vec<char>, short: &Vec<char>, k: usize) -> (r: Vec<char>)
    ensures
        r@ == candidate(preferred@, short@, k as nat),
{
    let mut suffix: Vec<char> = Vec::new();
    suffix.push('-');
    let ghost s0 = suffix@;
    for j in 0..short.len()
        invariant
            suffix@ == s0 + short@.take(j as int),
    {
        suffix.push(short[j]);
        assert(short@.take(j + 1) == short@.take(j as int).push(short@[j as int]));
    }
    assert(short@.take(short.len() as int) =~= short@);
    if k > 0 {
        suffix.push('-');
        let digits = decimal_text(k);
        let ghost s1 = suffix@;
        for j in 0..digits.len()
            invariant
                suffix@ == s1 + digits@.take(j as int),
        {
            suffix.push(digits[j]);
            assert(digits@.take(j + 1) == digits@.take(j as int).push(digits@[j as int]));
        }
        assert(digits@.take(digits.len() as int) =~= digits@);
    }
    assert(suffix@ =~= candidate_suffix(short@, k as nat));
    let name = crate::paths::suffixed_name_of(preferred, &suffix);
    let sibling = crate::paths::sibling_of(preferred, name);
    crate::paths::normalize(&sibling)
}

/// Whether filing an image at `current` under the directory of `class_name` (or back at its
/// original path) needs a name that holds the first bytes of its id: the preferred path is another,
/// valid path that is taken.
pub open spec fn destination_slices_id(
    current: Seq<char>,
    original: Option<Seq<char>>,
    class_name: Option<Seq<char>>,
    occupied: Seq<String>,
) -> bool {
    let directory = match class_name {
        Some(n) => class_directory_spec(n),
        None => None,
    };
    let preferred = preferred_destination(current, original, match class_name {
        Some(n) => directory,
        None => None,
    });
    &&& (class_name is None || directory is Some)
    &&& preferred != current
    &&& crate::paths::is_valid_relative(preferred)
    &&& crate::workspace::is_taken(occupied, preferred)
}

/// The path single-label mode would rather file an image at: `{class directory}/{file name}`, or
/// the original (else current) path where it has no class; fails where the class name makes no
/// directory name.
fn preferred_path(current: &str, original: Option<&str>, class_name: Option<&str>) -> (r: Result<Vec<char>, String>)
    ensures
        match class_name {
            Some(n) if class_directory_spec(n@) is None => r is Err,
            _ => r matches Ok(p) && p@ == preferred_destination(current@, match original {
                Some(o) => Some(o@),
                None => None,
            }, match class_name {
                Some(n) => Some(class_directory_spec(n@)->0),
                None => None,
            }),
        },
{
    let base: &str = match original {
        Some(o) => o,
        None => current,
    };
    match class_name {
        Some(n) => {
            let d = match class_directory_name(n) {
                Ok(d) => d,
                Err(e) => return Err(e),
            };
            let mut p = crate::text::chars_of(d.as_str());
            p.push('/');
            let f = file_name(base);
            let fv = crate::text::chars_of(f.as_str());
            let ghost p0 = p@;
            for j in 0..fv.len()
                invariant
                    p@ == p0 + fv@.take(j as int),
            {
                p.push(fv[j]);
                assert(fv@.take(j + 1) == fv@.take(j as int).push(fv@[j as int]));
            }
            assert(fv@.take(fv.len() as int) =~= fv@);
            assert(p@ =~= d@ + seq!['/'] + file_name_or_path(base@));
            Ok(p)
        },
        None => Ok(crate::text::chars_of(base)),
    }
}

/// Whether filing an image at `current` under the directory of `class_name` (or back at its
/// original path) needs a name that holds the first bytes of its id.
pub fn destination_slices_id_exec(current: &str, original: Option<&str>, class_name: Option<&str>, occupied: &Vec<String>) -> (r: bool)
    ensures
        r == destination_slices_id(current@, match original {
            Some(o) => Some(o@),
            None => None,
        }, match class_name {
            Some(n) => Some(n@),
            None => None,
        }, occupied@),
{
    let preferred = match preferred_path(current, original, class_name) {
        Ok(p) => p,
        Err(_) => return false,
    };
    if crate::text::chars_eq(&preferred, &crate::text::chars_of(current)) {
        return false;
    }
    let text = crate::text::string_of(&preferred);
    match crate::paths::relative_path(text.as_str()) {
        Err(_) => false,
        Ok(_) => crate::workspace::taken(occupied, text.as_str()),
    }
}

/// Where single-label mode files the image `image_id` at `current`: under the directory of
/// `class_name`, or back at its original path when it has no class; `occupied` lists the paths
/// that exist on disk.
pub fn classification_destination(
    current: &str,
    original: Option<&str>,
    class_name: Option<&str>,
    image_id: &str,
    occupied: &Vec<String>,
) -> (r: Result<String, String>)
    requires
        destination_slices_id(current@, match original {
            Some(o) => Some(o@),
            None => None,
        }, match class_name {
            Some(n) => Some(n@),
            None => None,
        }, occupied@) ==> crate::paths::prefix_on_boundary(image_id@, 8),
    ensures
        ({
            let base = match original {
                Some(o) => o@,
                None => current@,
            };
            match class_name {
                Some(n) if class_directory_spec(n@) is None => r is Err,
                _ => {
                    let directory = match class_name {
                        Some(n) => Some(class_directory_spec(n@)->0),
                        None => None,
                    };
                    let preferred = preferred_destination(current@, match original {
                        Some(o) => Some(o@),
                        None => None,
                    }, directory);
                    match r {
                        Ok(p) => destination_spec(current@, preferred, crate::paths::byte_prefix(image_id@, 8), occupied@)
                            == Some(p@),
                        Err(_) => destination_spec(current@, preferred, crate::paths::byte_prefix(image_id@, 8), occupied@) is None,
                    }
                },
            }
        }),
{
    let ghost orig_view: Option<Seq<char>> = match original {
        Some(o) => Some(o@),
        None => None,
    };
    let ghost directory: Option<Seq<char>> = match class_name {
        Some(n) => Some(class_directory_spec(n@)->0),
        None => None,
    };
    let preferred: Vec<char> = match preferred_path(current, original, class_name) {
        Ok(p) => p,
        Err(e) => return Err(e),
    };
    let ghost pref = preferred@;
    assert(pref == preferred_destination(current@, orig_view, directory));
    assert(class_name matches Some(n) ==> class_directory_spec(n@) is Some);
    let cur = crate::text::chars_of(current);
    let preferred_text = crate::text::string_of(&preferred);
    if crate::text::chars_eq(&preferred, &cur) {
        return Ok(preferred_text);
    }
    assert(pref != current@);
    match crate::paths::relative_path(preferred_text.as_str()) {
        Err(e) => return Err(e),
        Ok(_) => {},
    }
    if !crate::workspace::taken(occupied, preferred_text.as_str()) {
        return Ok(preferred_text);
    }
    let short_text = crate::paths::prefix_bytes(image_id, 8);
    let short = crate::text::chars_of(short_text.as_str());
    let mut k: usize = 0;
    while k < 10000
        invariant
            k <= 10000,
            preferred@ == pref,
            short@ == crate::paths::byte_prefix(image_id@, 8),
            destination_from(pref, short@, occupied@, 0) == destination_from(pref, short@, occupied@, k as nat),
            pref == preferred_destination(current@, orig_view, directory),
            orig_view == match original {
                Some(o) => Some(o@),
                None => None::<Seq<char>>,
            },
            directory == match class_name {
                Some(n) => Some(class_directory_spec(n@)->0),
                None => None::<Seq<char>>,
            },
            class_name matches Some(n) ==> class_directory_spec(n@) is Some,
            pref != current@,
            crate::paths::is_valid_relative(pref),
            crate::workspace::is_taken(occupied@, pref),
        decreases 10000 - k,
    {
        let c = candidate_exec(&preferred, &short, k);
        let ct = crate::text::string_of(&c);
        match crate::paths::relative_path(ct.as_str()) {
            Err(e) => return Err(e),
            Ok(_) => {},
        }
        if !crate::workspace::taken(occupied, ct.as_str()) {
            return Ok(ct);
        }
        k = k + 1;
    }
    Err(owned("Could not find an available file name in the class directory."))
}


/// An image label as plain values: image id, class id, time stamp.
pub open spec fn link_view(l: ImageClassRow) -> (Seq<char>, Seq<char>, i64) {
    (l.image_id@, l.class_id@, l.created_at_ms)
}

/// The image labels as plain values.
pub open spec fn link_views(links: Seq<ImageClassRow>) -> Seq<(Seq<char>, Seq<char>, i64)> {
    links.map_values(|l: ImageClassRow| link_view(l))
}

/// Whether a label belongs to an image other than `image_id`.
pub open spec fn other_image(image_id: Seq<char>) -> spec_fn((Seq<char>, Seq<char>, i64)) -> bool {
    |v: (Seq<char>, Seq<char>, i64)| v.0 != image_id
}

/// The image labels once the labels of `image_id` are replaced by `ids`, stamped `now`.
pub open spec fn relabeled_links(
    links: Seq<ImageClassRow>,
    image_id: Seq<char>,
    ids: Seq<Seq<char>>,
    now: i64,
) -> Seq<(Seq<char>, Seq<char>, i64)> {
    link_views(links).filter(other_image(image_id)) + ids.map_values(
        |id: Seq<char>| (image_id, id, now),
    )
}

/// The images once the image `image_id` is filed at `path`, first filed at `original`.
pub open spec fn refiled_images(
    before: Seq<crate::project::ImageRow>,
    after: Seq<crate::project::ImageRow>,
    image_id: Seq<char>,
    path: Seq<char>,
    original: Option<Seq<char>>,
    now: i64,
) -> bool {
    &&& after.len() == before.len()
    &&& forall|i: int|
        0 <= i < before.len() ==> if (#[trigger] before[i]).id@ == image_id {
            &&& after[i] == (crate::project::ImageRow {
                relative_path: after[i].relative_path,
                file_name: after[i].file_name,
                classification_original_path: after[i].classification_original_path,
                updated_at_ms: now,
                ..before[i]
            })
            &&& after[i].relative_path@ == path
            &&& after[i].file_name@ == file_name_or_path(path)
            &&& crate::detection::opt_view(after[i].classification_original_path) == original
        } else {
            after[i] == before[i]
        }
}

fn clone_ids(v: &Vec<String>) -> (r: Vec<String>)
    ensures
        r@ == v@,
{
    let mut r: Vec<String> = Vec::new();
    for i in 0..v.len()
        invariant
            r@ == v@.take(i as int),
    {
        r.push(clone_text(&v[i]));
        assert(v@.take(i + 1) == v@.take(i as int).push(v@[i as int]));
    }
    assert(v@.take(v.len() as int) == v@);
    r
}

/// Replaces the labels of `image_id` by `ids`.
fn replace_assignments(data: &mut ProjectData, image_id: &String, ids: &Vec<String>, now: i64)
    ensures
        link_views(final(data).image_classes@) == relabeled_links(old(data).image_classes@, image_id@, texts(ids@), now),
        final(data).project == old(data).project,
        final(data).classes == old(data).classes,
        final(data).images == old(data).images,
        final(data).annotations == old(data).annotations,
        final(data).drafts == old(data).drafts,
        final(data).active_class_id == old(data).active_class_id,
        final(data).history == old(data).history,
        final(data).next_sequence == old(data).next_sequence,
{
    let ghost pred = other_image(image_id@);
    let ghost all = link_views(data.image_classes@);
    let mut kept: Vec<ImageClassRow> = Vec::new();
    let n = data.image_classes.len();
    for i in 0..n
        invariant
            n == data.image_classes.len(),
            pred == other_image(image_id@),
            all == link_views(data.image_classes@),
            link_views(kept@) == all.take(i as int).filter(pred),
    {
        assert(all.take(i + 1) =~= all.take(i as int).push(all[i as int]));
        proof {
            crate::detection::lemma_filter_push(all.take(i as int), all[i as int], pred);
        }
        let l = &data.image_classes[i];
        if l.image_id != *image_id {
            let copy = ImageClassRow {
                image_id: clone_text(&l.image_id),
                class_id: clone_text(&l.class_id),
                created_at_ms: l.created_at_ms,
            };
            let ghost before = kept@;
            kept.push(copy);
            assert(link_views(kept@) =~= link_views(before).push(all[i as int]));
        }
    }
    assert(all.take(n as int) =~= all);
    let ghost base = link_views(kept@);
    let ghost f = |id: Seq<char>| (image_id@, id, now);
    for j in 0..ids.len()
        invariant
            f == (|id: Seq<char>| (image_id@, id, now)),
            link_views(kept@) == base + texts(ids@.take(j as int)).map_values(f),
    {
        let ghost before = kept@;
        kept.push(ImageClassRow { image_id: clone_text(image_id), class_id: clone_text(&ids[j]), created_at_ms: now });
        assert(link_views(kept@) =~= link_views(before).push(f(ids@[j as int]@)));
        assert(texts(ids@.take(j + 1)).map_values(f) =~= texts(ids@.take(j as int)).map_values(f).push(f(ids@[j as int]@)));
    }
    assert(ids@.take(ids.len() as int) =~= ids@);
    data.image_classes = kept;
}

/// Files the image `image_id` at `path`, first filed at `original`.
fn refile_image(data: &mut ProjectData, image_id: &String, path: &String, original: &Option<String>, now: i64)
    requires
        old(data).wf(),
    ensures
        final(data).wf(),
        refiled_images(old(data).images@, final(data).images@, image_id@, path@, crate::detection::opt_view(*original), now),
        final(data).project == old(data).project,
        final(data).classes == old(data).classes,
        final(data).image_classes == old(data).image_classes,
        final(data).annotations == old(data).annotations,
        final(data).drafts == old(data).drafts,
        final(data).active_class_id == old(data).active_class_id,
        final(data).history == old(data).history,
        final(data).next_sequence == old(data).next_sequence,
{
    let ghost imgs = data.images@;
    match crate::project::find_image(&data.images, image_id.as_str()) {
        None => {},
        Some(i) => {
            let r = &data.images[i];
            let row = crate::project::ImageRow {
                id: clone_text(&r.id),
                relative_path: clone_text(path),
                file_name: file_name(path.as_str()),
                width: r.width,
                height: r.height,
                byte_size: r.byte_size,
                modified_at_ms: r.modified_at_ms,
                status: r.status,
                sort_order: r.sort_order,
                orientation: r.orientation,
                deleted_relative_path: crate::detection::clone_opt_text(&r.deleted_relative_path),
                classification_original_path: crate::detection::clone_opt_text(original),
                created_at_ms: r.created_at_ms,
                updated_at_ms: now,
            };
            data.images.set(i, row);
            assert forall|k: int| 0 <= k < imgs.len() && k != i implies imgs[k].id@ != image_id@ by {
                assert(imgs[k].id@ != imgs[i as int].id@);
            }
        },
    }
    assert(crate::project::images_wf(data.images@));
}

/// The class ids, the path and the history flag that an operation takes its image to: the state
/// after it (`forward`) or before it.
pub open spec fn operation_target(op: ClassificationOperation, forward: bool) -> (Seq<String>, String) {
    if forward {
        (op.after_class_ids@, op.to_relative_path)
    } else {
        (op.before_class_ids@, op.from_relative_path)
    }
}

/// Writes a classification change that moves no file: the labels and path of the image, and the
/// history (a new entry, or the replay of entry `sequence`).
pub fn apply_database_operation(
    data: &mut ProjectData,
    operation: ClassificationOperation,
    forward: bool,
    sequence: Option<i64>,
    now: i64,
) -> (r: Result<(), String>)
    requires
        old(data).wf(),
    ensures
        final(data).wf(),
        r is Ok <==> crate::workspace::history_write_ok(old(data).history@, old(data).next_sequence, sequence, forward),
        r is Err ==> *final(data) == *old(data),
        r is Ok ==> {
            let (ids, path) = operation_target(operation, forward);
            &&& link_views(final(data).image_classes@) == relabeled_links(old(data).image_classes@, operation.image_id@, texts(ids), now)
            &&& refiled_images(old(data).images@, final(data).images@, operation.image_id@, path@, crate::detection::opt_view(operation.original_relative_path), now)
            &&& final(data).history@ == crate::workspace::history_written(
                old(data).history@,
                old(data).next_sequence,
                crate::workspace::Operation::Classification(operation),
                sequence,
                forward,
            )
            &&& final(data).next_sequence == if sequence is None { old(data).next_sequence + 1 } else { old(data).next_sequence as int }
            &&& crate::detection::touched(old(data), final(data), now)
            &&& final(data).classes == old(data).classes
            &&& final(data).annotations == old(data).annotations
            &&& final(data).drafts == old(data).drafts
            &&& final(data).active_class_id == old(data).active_class_id
        },
{
    let image_id = clone_text(&operation.image_id);
    let original = crate::detection::clone_opt_text(&operation.original_relative_path);
    let (ids, path) = if forward {
        (clone_ids(&operation.after_class_ids), clone_text(&operation.to_relative_path))
    } else {
        (clone_ids(&operation.before_class_ids), clone_text(&operation.from_relative_path))
    };
    let op = crate::workspace::Operation::Classification(operation);
    match crate::workspace::write_history(data, op, sequence, forward) {
        Err(e) => return Err(e),
        Ok(()) => {},
    }
    replace_assignments(data, &image_id, &ids, now);
    refile_image(data, &image_id, &path, &original, now);
    data.project.updated_at_ms = now;
    Ok(())
}

/// A single-label move of an image file, journaled before the file moves and finalized after.
pub struct PendingClassificationMove {
    pub id: String,
    /// The operation, with `from`/`to` the direction this move takes.
    pub operation: ClassificationOperation,
    pub target_class_ids: Vec<String>,
    pub history_sequence: Option<i64>,
    pub desired_applied: Option<bool>,
}

/// The applied flag a replay sets: `desired_applied`, `true` where it is missing.
pub open spec fn desired_of(p: PendingClassificationMove) -> bool {
    match p.desired_applied {
        Some(b) => b,
        None => true,
    }
}

/// Records that the file of `pending` has moved: the image takes its labels and path, and the
/// history records or replays the operation.
pub fn finalize_pending(data: &mut ProjectData, pending: PendingClassificationMove, now: i64) -> (r: Result<
    (),
    String,
>)
    requires
        old(data).wf(),
    ensures
        final(data).wf(),
        r is Ok <==> crate::workspace::history_write_ok(old(data).history@, old(data).next_sequence, pending.history_sequence, desired_of(pending)),
        r is Err ==> *final(data) == *old(data),
        r is Ok ==> {
            &&& link_views(final(data).image_classes@) == relabeled_links(old(data).image_classes@, pending.operation.image_id@, texts(pending.target_class_ids@), now)
            &&& refiled_images(old(data).images@, final(data).images@, pending.operation.image_id@, pending.operation.to_relative_path@, crate::detection::opt_view(pending.operation.original_relative_path), now)
            &&& final(data).history@ == crate::workspace::history_written(
                old(data).history@,
                old(data).next_sequence,
                crate::workspace::Operation::Classification(pending.operation),
                pending.history_sequence,
                desired_of(pending),
            )
            &&& crate::detection::touched(old(data), final(data), now)
            &&& final(data).classes == old(data).classes
            &&& final(data).annotations == old(data).annotations
            &&& final(data).drafts == old(data).drafts
            &&& final(data).active_class_id == old(data).active_class_id
        },
{
    let applied = match pending.desired_applied {
        Some(b) => b,
        None => true,
    };
    let image_id = clone_text(&pending.operation.image_id);
    let original = crate::detection::clone_opt_text(&pending.operation.original_relative_path);
    let path = clone_text(&pending.operation.to_relative_path);
    let op = crate::workspace::Operation::Classification(pending.operation);
    match crate::workspace::write_history(data, op, pending.history_sequence, applied) {
        Err(e) => return Err(e),
        Ok(()) => {},
    }
    replace_assignments(data, &image_id, &pending.target_class_ids, now);
    refile_image(data, &image_id, &path, &original, now);
    data.project.updated_at_ms = now;
    Ok(())
}


/// The name of the class with id `id`.
pub open spec fn class_name_of(classes: Seq<ClassRecord>, id: Seq<char>) -> Seq<char> {
    classes[choose|i: int| 0 <= i < classes.len() && (#[trigger] classes[i]).id@ == id].name@
}

/// Where single-label mode files an image at `current`, first filed at `original`, whose class is
/// now `first` (or none): `None` where no path is available.
pub open spec fn filed_destination(
    classes: Seq<ClassRecord>,
    current: Seq<char>,
    original: Seq<char>,
    first: Option<Seq<char>>,
    image_id: Seq<char>,
    occupied: Seq<String>,
) -> Option<Seq<char>> {
    match first {
        Some(id) => match class_directory_spec(class_name_of(classes, id)) {
            None => None,
            Some(d) => destination_spec(
                current,
                preferred_destination(current, Some(original), Some(d)),
                crate::paths::byte_prefix(image_id, 8),
                occupied,
            ),
        },
        None => destination_spec(
            current,
            preferred_destination(current, Some(original), None),
            crate::paths::byte_prefix(image_id, 8),
            occupied,
        ),
    }
}

/// What setting the classes of an image leads to.
pub enum ClassificationStep {
    /// The project is up to date; the state it shows.
    Done(ClassificationState),
    /// The image file has to move first; the move to journal, perform and finalize.
    Move(PendingClassificationMove),
}

/// Whether `op` is the change of `image_id` from `before` to `after`, moving its file from `from`
/// to `to`, first filed at `original`.
pub open spec fn describes(
    op: ClassificationOperation,
    image_id: Seq<char>,
    before: Seq<Seq<char>>,
    after: Seq<Seq<char>>,
    from: String,
    to: Seq<char>,
    original: Option<String>,
) -> bool {
    &&& op.image_id@ == image_id
    &&& texts(op.before_class_ids@) == before
    &&& texts(op.after_class_ids@) == after
    &&& op.from_relative_path == from
    &&& op.to_relative_path@ == to
    &&& op.original_relative_path == original
}

/// `new_h` is `old_h` with what was undone dropped and one applied entry appended with sequence
/// `next`.
pub open spec fn appended_entry(old_h: Seq<crate::workspace::HistoryEntry>, next: i64, new_h: Seq<crate::workspace::HistoryEntry>) -> bool {
    &&& new_h.len() == crate::workspace::applied_len(old_h) + 1
    &&& new_h.drop_last() == old_h.take(crate::workspace::applied_len(old_h))
    &&& new_h.last().sequence == next
    &&& new_h.last().applied
}

fn first_class_name(data: &ProjectData, ids: &Vec<String>) -> (r: Option<String>)
    requires
        data.wf(),
        forall|i: int| 0 <= i < ids.len() ==> has_class(data.classes@, (#[trigger] ids@[i])@),
    ensures
        ids.len() == 0 ==> r is None,
        ids.len() > 0 ==> (r matches Some(n) && n@ == class_name_of(data.classes@, ids@[0]@)),
{
    if ids.len() == 0 {
        return None;
    }
    assert(has_class(data.classes@, ids@[0]@));
    match find_class(&data.classes, ids[0].as_str()) {
        Some(i) => {
            proof {
                crate::detection::lemma_class_unique(data.classes@, ids@[0]@, i as int);
            }
            Some(clone_text(&data.classes[i].name))
        },
        None => None,
    }
}

/// Whether `set_image_classes` would file the image `image_id` under a name that holds the first
/// bytes of its id: a single-label project, known classes and at most one, an active image whose
/// classes change, and a preferred path that is another, valid path that is taken.
pub open spec fn filing_slices_id(data: &ProjectData, image_id: Seq<char>, class_ids: Seq<String>, occupied: Seq<String>) -> bool {
    let requested = ids_where(data.classes@, |c: Seq<char>| lists(class_ids, c));
    let row = data.images@[crate::project::image_index(data.images@, image_id)];
    let original = match row.classification_original_path {
        Some(o) => o@,
        None => row.relative_path@,
    };
    &&& classification_mode_of(data) == Some(ClassificationMode::Single)
    &&& forall|i: int| 0 <= i < class_ids.len() ==> has_class(data.classes@, (#[trigger] class_ids[i])@)
    &&& requested.len() <= 1
    &&& crate::project::has_image_with_status(data.images@, image_id, crate::project::ImageStatus::Active)
    &&& image_class_ids_spec(data, image_id) != requested
    &&& destination_slices_id(
        row.relative_path@,
        Some(original),
        if requested.len() > 0 { Some(class_name_of(data.classes@, requested[0])) } else { None },
        occupied,
    )
}

/// Whether `set_image_classes` would file the image `image_id` under a name that holds the first
/// bytes of its id.
pub fn filing_slices_id_exec(data: &ProjectData, image_id: &str, class_ids: &Vec<String>, occupied: &Vec<String>) -> (r: bool)
    requires
        data.wf(),
    ensures
        r == filing_slices_id(data, image_id@, class_ids@, occupied@),
{
    let mode = match require_classification(data) {
        Ok(m) => m,
        Err(_) => return false,
    };
    if mode != ClassificationMode::Single {
        return false;
    }
    let ids = match validate_class_ids(data, clone_ids(class_ids)) {
        Ok(ids) => ids,
        Err(_) => return false,
    };
    let ghost requested = texts(ids@);
    proof {
        lemma_ids_where(data.classes@, |c: Seq<char>| lists(class_ids@, c));
        assert forall|k: int| 0 <= k < ids.len() implies has_class(data.classes@, (#[trigger] ids@[k])@) by {
            assert(ids@[k]@ == requested[k]);
        }
    }
    if ids.len() > 1 {
        return false;
    }
    let i = match crate::project::find_image(&data.images, image_id) {
        Some(i) => i,
        None => return false,
    };
    proof {
        assert(data.images@[i as int].id@ == image_id@);
        assert(crate::project::image_index(data.images@, image_id@) == i as int);
    }
    if data.images[i].status != crate::project::ImageStatus::Active {
        return false;
    }
    let before = image_class_ids(data, image_id);
    if strings_equal(&before, &ids) {
        return false;
    }
    let current = clone_text(&data.images[i].relative_path);
    let orig_text = match &data.images[i].classification_original_path {
        Some(o) => clone_text(o),
        None => clone_text(&current),
    };
    let name = first_class_name(data, &ids);
    match &name {
        Some(n) => destination_slices_id_exec(current.as_str(), Some(orig_text.as_str()), Some(n.as_str()), occupied),
        None => destination_slices_id_exec(current.as_str(), Some(orig_text.as_str()), None, occupied),
    }
}

/// Sets the classes of the active image `image_id`. In single-label mode the image file moves to
/// the directory of its class; `occupied` lists the paths that exist on disk.
pub fn set_image_classes(
    data: &mut ProjectData,
    image_id: &str,
    class_ids: Vec<String>,
    occupied: &Vec<String>,
    now: i64,
) -> (r: Result<ClassificationStep, String>)
    requires
        old(data).wf(),
        filing_slices_id(old(data), image_id@, class_ids@, occupied@) ==> crate::paths::prefix_on_boundary(image_id@, 8),
        old(data).image_classes.len() + old(data).classes.len() <= i64::MAX,
    ensures
        final(data).wf(),
        r is Err ==> *final(data) == *old(data),
        classification_mode_of(old(data)) is None ==> r is Err,
        !(forall|i: int| 0 <= i < class_ids.len() ==> has_class(old(data).classes@, (#[trigger] class_ids@[i])@)) ==> r is Err,
        !crate::project::has_image_with_status(old(data).images@, image_id@, crate::project::ImageStatus::Active) ==> r is Err,
        ({
            let requested = ids_where(old(data).classes@, |c: Seq<char>| lists(class_ids@, c));
            let before = image_class_ids_spec(old(data), image_id@);
            let row = old(data).images@[crate::project::image_index(old(data).images@, image_id@)];
            let single = classification_mode_of(old(data)) == Some(ClassificationMode::Single);
            let original = match row.classification_original_path {
                Some(o) => o,
                None => row.relative_path,
            };
            let destination = filed_destination(
                old(data).classes@,
                row.relative_path@,
                original@,
                if requested.len() > 0 { Some(requested[0]) } else { None },
                image_id@,
                occupied@,
            );
            &&& single && requested.len() > 1 ==> r is Err
            &&& (forall|i: int| 0 <= i < class_ids.len() ==> has_class(old(data).classes@, (#[trigger] class_ids@[i])@))
                && single && requested.len() > 1
                ==> (r matches Err(m) && m@ == "Single-label projects allow one class per image."@)
            &&& r is Ok && before != requested && single ==> destination is Some
            &&& classification_mode_of(old(data)) is Some
                && (forall|i: int| 0 <= i < class_ids.len() ==> has_class(old(data).classes@, (#[trigger] class_ids@[i])@))
                && crate::project::has_image_with_status(old(data).images@, image_id@, crate::project::ImageStatus::Active)
                && !(single && requested.len() > 1)
                && (before == requested || !single || destination is Some)
                && old(data).next_sequence < i64::MAX ==> r is Ok
            &&& single && destination is None && before != requested ==> r is Err
            &&& r matches Ok(step) ==> {
                &&& classification_mode_of(old(data)) is Some
                &&& crate::project::has_image_with_status(old(data).images@, image_id@, crate::project::ImageStatus::Active)
                &&& if before == requested {
                    &&& *final(data) == *old(data)
                    &&& step is Done
                } else {
                    let to = if single { destination->0 } else { row.relative_path@ };
                    let orig = if single { Some(original) } else { row.classification_original_path };
                    match step {
                        ClassificationStep::Done(_) => {
                            &&& to == row.relative_path@
                            &&& link_views(final(data).image_classes@) == relabeled_links(old(data).image_classes@, image_id@, requested, now)
                            &&& refiled_images(old(data).images@, final(data).images@, image_id@, row.relative_path@, crate::detection::opt_view(orig), now)
                            &&& appended_entry(old(data).history@, old(data).next_sequence, final(data).history@)
                            &&& (final(data).history@.last().operation matches crate::workspace::Operation::Classification(op)
                                && describes(op, image_id@, before, requested, row.relative_path, to, orig))
                            &&& final(data).next_sequence == old(data).next_sequence + 1
                            &&& crate::detection::touched(old(data), final(data), now)
                            &&& final(data).classes == old(data).classes
                            &&& final(data).annotations == old(data).annotations
                            &&& final(data).drafts == old(data).drafts
                            &&& final(data).active_class_id == old(data).active_class_id
                        },
                        ClassificationStep::Move(p) => {
                            &&& *final(data) == *old(data)
                            &&& single
                            &&& to != row.relative_path@
                            &&& describes(p.operation, image_id@, before, requested, row.relative_path, to, orig)
                            &&& texts(p.target_class_ids@) == requested
                            &&& p.id@.len() == 36
                            &&& p.history_sequence is None
                            &&& p.desired_applied is None
                        },
                    }
                }
            }
            &&& r matches Ok(ClassificationStep::Done(st)) ==> {
                &&& st.classes@ == final(data).classes@
                &&& texts(st.image_class_ids@) == image_class_ids_spec(final(data), image_id@)
                &&& st.labeled_image_count == distinct_count(link_images(final(data).image_classes@))
            }
        }),
{
    let mode = match require_classification(data) {
        Ok(m) => m,
        Err(e) => return Err(e),
    };
    let ids = match validate_class_ids(data, class_ids) {
        Ok(ids) => ids,
        Err(e) => return Err(e),
    };
    let ghost requested = texts(ids@);
    proof {
        lemma_ids_where(data.classes@, |c: Seq<char>| lists(class_ids@, c));
        assert forall|k: int| 0 <= k < ids.len() implies has_class(data.classes@, (#[trigger] ids@[k])@) by {
            assert(ids@[k]@ == requested[k]);
        }
    }
    if mode == ClassificationMode::Single && ids.len() > 1 {
        return Err(owned("Single-label projects allow one class per image."));
    }
    let i = match crate::project::find_image(&data.images, image_id) {
        Some(i) => i,
        None => return Err(owned("Only an available image can be classified.")),
    };
    proof {
        assert(data.images@[i as int].id@ == image_id@);
        assert(crate::project::image_index(data.images@, image_id@) == i as int);
    }
    if data.images[i].status != crate::project::ImageStatus::Active {
        return Err(owned("Only an available image can be classified."));
    }
    let current = clone_text(&data.images[i].relative_path);
    let before = image_class_ids(data, image_id);
    if strings_equal(&before, &ids) {
        let st = state(data, Some(image_id));
        return match st {
            Ok(st) => Ok(ClassificationStep::Done(st)),
            Err(e) => Err(e),
        };
    }
    let mut original = crate::detection::clone_opt_text(&data.images[i].classification_original_path);
    let mut to = clone_text(&current);
    if mode == ClassificationMode::Single {
        if original.is_none() {
            original = Some(clone_text(&current));
        }
        let name = first_class_name(data, &ids);
        let orig_text = match &original {
            Some(o) => clone_text(o),
            None => clone_text(&current),
        };
        let found = match &name {
            Some(n) => classification_destination(current.as_str(), Some(orig_text.as_str()), Some(n.as_str()), image_id, occupied),
            None => classification_destination(current.as_str(), Some(orig_text.as_str()), None, image_id, occupied),
        };
        to = match found {
            Ok(p) => p,
            Err(e) => return Err(e),
        };
    }
    let operation = ClassificationOperation {
        image_id: owned(image_id),
        before_class_ids: before,
        after_class_ids: clone_ids(&ids),
        from_relative_path: clone_text(&current),
        to_relative_path: clone_text(&to),
        original_relative_path: original,
    };
    if current == to {
        let ghost h = data.history@;
        let ghost next = data.next_sequence;
        let ghost links = data.image_classes@;
        proof {
            crate::workspace::lemma_applied_len(h, next);
        }
        match apply_database_operation(data, operation, true, None, now) {
            Err(e) => return Err(e),
            Ok(()) => {},
        }
        proof {
            assert(data.history@.drop_last() =~= h.take(crate::workspace::applied_len(h)));
            links.map_values(|l: ImageClassRow| link_view(l)).lemma_filter_len(other_image(image_id@));
            assert(link_views(data.image_classes@).len() == data.image_classes@.len());
        }
        match state(data, Some(image_id)) {
            Ok(st) => Ok(ClassificationStep::Done(st)),
            Err(e) => Err(e),
        }
    } else {
        Ok(ClassificationStep::Move(PendingClassificationMove {
            id: crate::project::new_id(),
            operation,
            target_class_ids: ids,
            history_sequence: None,
            desired_applied: None,
        }))
    }
}

/// Whether two lists of strings hold the same texts.
pub fn strings_equal(a: &Vec<String>, b: &Vec<String>) -> (r: bool)
    ensures
        r == (texts(a@) == texts(b@)),
{
    if a.len() != b.len() {
        assert(texts(a@).len() != texts(b@).len());
        return false;
    }
    for i in 0..a.len()
        invariant
            a.len() == b.len(),
            forall|k: int| 0 <= k < i ==> a@[k]@ == b@[k]@,
    {
        if a[i] != b[i] {
            assert(texts(a@)[i as int] != texts(b@)[i as int]);
            return false;
        }
    }
    assert(texts(a@) =~= texts(b@));
    true
}


pub fn copy_operation(op: &ClassificationOperation) -> (r: ClassificationOperation)
    ensures
        r.image_id == op.image_id,
        r.before_class_ids@ == op.before_class_ids@,
        r.after_class_ids@ == op.after_class_ids@,
        r.from_relative_path == op.from_relative_path,
        r.to_relative_path == op.to_relative_path,
        r.original_relative_path == op.original_relative_path,
{
    ClassificationOperation {
        image_id: clone_text(&op.image_id),
        before_class_ids: clone_ids(&op.before_class_ids),
        after_class_ids: clone_ids(&op.after_class_ids),
        from_relative_path: clone_text(&op.from_relative_path),
        to_relative_path: clone_text(&op.to_relative_path),
        original_relative_path: crate::detection::clone_opt_text(&op.original_relative_path),
    }
}

/// What undoing (`undo`) or redoing a classification operation leads to.
pub enum ReplayStep {
    /// The project is up to date.
    Done,
    /// The image file has to move first.
    Move(PendingClassificationMove),
}

/// Undoes (`undo`) or redoes the classification operation `op`, recorded with sequence
/// `sequence`: where the file stays, the labels and history are written; else the move to make.
pub fn apply_history(
    data: &mut ProjectData,
    op: &ClassificationOperation,
    sequence: i64,
    undo: bool,
    now: i64,
) -> (r: Result<ReplayStep, String>)
    requires
        old(data).wf(),
    ensures
        final(data).wf(),
        r is Err ==> *final(data) == *old(data),
        ({
            let from = if undo { op.to_relative_path@ } else { op.from_relative_path@ };
            let to = if undo { op.from_relative_path@ } else { op.to_relative_path@ };
            let ids = if undo { op.before_class_ids@ } else { op.after_class_ids@ };
            if from == to {
                &&& r is Ok <==> crate::workspace::history_write_ok(old(data).history@, old(data).next_sequence, Some(sequence), !undo)
                &&& r matches Ok(step) ==> {
                    &&& step is Done
                    &&& link_views(final(data).image_classes@) == relabeled_links(old(data).image_classes@, op.image_id@, texts(ids), now)
                    &&& refiled_images(old(data).images@, final(data).images@, op.image_id@, to, crate::detection::opt_view(op.original_relative_path), now)
                    &&& final(data).history@ == crate::workspace::history_written(
                        old(data).history@,
                        old(data).next_sequence,
                        crate::workspace::Operation::Classification(*op),
                        Some(sequence),
                        !undo,
                    )
                    &&& final(data).next_sequence == old(data).next_sequence
                    &&& crate::detection::touched(old(data), final(data), now)
                    &&& final(data).classes == old(data).classes
                    &&& final(data).annotations == old(data).annotations
                    &&& final(data).drafts == old(data).drafts
                    &&& final(data).active_class_id == old(data).active_class_id
                }
            } else {
                r matches Ok(ReplayStep::Move(p)) && {
                    &&& *final(data) == *old(data)
                    &&& p.operation.image_id@ == op.image_id@
                    &&& texts(p.operation.before_class_ids@) == texts(op.before_class_ids@)
                    &&& texts(p.operation.after_class_ids@) == texts(op.after_class_ids@)
                    &&& p.operation.from_relative_path@ == from
                    &&& p.operation.to_relative_path@ == to
                    &&& crate::detection::opt_view(p.operation.original_relative_path) == crate::detection::opt_view(op.original_relative_path)
                    &&& texts(p.target_class_ids@) == texts(ids)
                    &&& p.id@.len() == 36
                    &&& p.history_sequence == Some(sequence)
                    &&& p.desired_applied == Some(!undo)
                }
            }
        }),
{
    let (from, to) = if undo {
        (&op.to_relative_path, &op.from_relative_path)
    } else {
        (&op.from_relative_path, &op.to_relative_path)
    };
    if *from == *to {
        let copy = copy_operation(op);
        let ghost hist = data.history@;
        let ghost next = data.next_sequence;
        match apply_database_operation(data, copy, !undo, Some(sequence), now) {
            Err(e) => return Err(e),
            Ok(()) => {},
        }
        assert(crate::workspace::history_written(hist, next, crate::workspace::Operation::Classification(copy), Some(sequence), !undo)
            == crate::workspace::history_written(hist, next, crate::workspace::Operation::Classification(*op), Some(sequence), !undo));
        return Ok(ReplayStep::Done);
    }
    let target = if undo {
        clone_ids(&op.before_class_ids)
    } else {
        clone_ids(&op.after_class_ids)
    };
    let replay = ClassificationOperation {
        image_id: clone_text(&op.image_id),
        before_class_ids: clone_ids(&op.before_class_ids),
        after_class_ids: clone_ids(&op.after_class_ids),
        from_relative_path: clone_text(from),
        to_relative_path: clone_text(to),
        original_relative_path: crate::detection::clone_opt_text(&op.original_relative_path),
    };
    Ok(ReplayStep::Move(PendingClassificationMove {
        id: crate::project::new_id(),
        operation: replay,
        target_class_ids: target,
        history_sequence: Some(sequence),
        desired_applied: Some(!undo),
    }))
}


/// The reading state of the CSV parser: the finished rows, the fields of the current row, the
/// current field, and whether it is inside quotes.
pub type CsvState = (Seq<Seq<Seq<char>>>, Seq<Seq<char>>, Seq<char>, bool);

/// Reads `text` from index `i` on, from state `st`: `""` inside quotes is a quote, a quote toggles
/// quoting, a comma outside quotes ends the field, a line feed outside quotes ends the row, a
/// carriage return before a line feed outside quotes is dropped, and every other character joins
/// the field.
pub open spec fn csv_from(text: Seq<char>, i: int, st: CsvState) -> CsvState
    decreases text.len() - i,
{
    if i < 0 || i >= text.len() {
        st
    } else {
        let (rows, row, field, quoted) = st;
        let c = text[i];
        let next_is = |x: char| i + 1 < text.len() && text[i + 1] == x;
        if c == '"' && quoted && next_is('"') {
            csv_from(text, i + 2, (rows, row, field.push('"'), quoted))
        } else if c == '"' {
            csv_from(text, i + 1, (rows, row, field, !quoted))
        } else if c == ',' && !quoted {
            csv_from(text, i + 1, (rows, row.push(field), seq![], quoted))
        } else if c == '\n' && !quoted {
            csv_from(text, i + 1, (rows.push(row.push(field)), seq![], seq![], quoted))
        } else if c == '\r' && !quoted && next_is('\n') {
            csv_from(text, i + 1, st)
        } else {
            csv_from(text, i + 1, (rows, row, field.push(c), quoted))
        }
    }
}

/// The rows and fields of a CSV text, or `None` where a quoted field is not closed.
pub open spec fn parse_csv_spec(text: Seq<char>) -> Option<Seq<Seq<Seq<char>>>> {
    let (rows, row, field, quoted) = csv_from(text, 0, (seq![], seq![], seq![], false));
    if quoted {
        None
    } else if field.len() > 0 || row.len() > 0 {
        Some(rows.push(row.push(field)))
    } else {
        Some(rows)
    }
}

/// The texts of rows of strings.
pub open spec fn rows_view(rows: Seq<Vec<String>>) -> Seq<Seq<Seq<char>>> {
    rows.map_values(|r: Vec<String>| texts(r@))
}

/// Reads a CSV text into rows of fields.
pub fn parse_csv(text: &str) -> (r: Result<Vec<Vec<String>>, String>)
    ensures
        match r {
            Ok(rows) => parse_csv_spec(text@) == Some(rows_view(rows@)),
            Err(m) => parse_csv_spec(text@) is None && m@ == "The classification CSV has an unterminated quoted field."@,
        },
{
    let t = crate::text::chars_of(text);
    let n = t.len();
    let mut rows: Vec<Vec<String>> = Vec::new();
    let mut row: Vec<String> = Vec::new();
    let mut field: Vec<char> = Vec::new();
    let mut quoted = false;
    let mut i: usize = 0;
    assert(rows_view(rows@) =~= Seq::<Seq<Seq<char>>>::empty());
    assert(texts(row@) =~= Seq::<Seq<char>>::empty());
    assert(field@ =~= Seq::<char>::empty());
    while i < n
        invariant
            n == t.len(),
            t@ == text@,
            i <= n,
            csv_from(t@, 0, (seq![], seq![], seq![], false)) == csv_from(t@, i as int, (rows_view(rows@), texts(row@), field@, quoted)),
        decreases n - i,
    {
        let c = t[i];
        let next_quote = i + 1 < n && t[i + 1] == '"';
        let next_lf = i + 1 < n && t[i + 1] == '\n';
        if c == '"' && quoted && next_quote {
            field.push('"');
            i = i + 2;
        } else if c == '"' {
            quoted = !quoted;
            i = i + 1;
        } else if c == ',' && !quoted {
            let ghost before = row@;
            row.push(crate::text::string_of(&field));
            assert(texts(row@) =~= texts(before).push(field@));
            field = Vec::new();
            i = i + 1;
        } else if c == '\n' && !quoted {
            let ghost rb = row@;
            let ghost before = rows@;
            row.push(crate::text::string_of(&field));
            assert(texts(row@) =~= texts(rb).push(field@));
            let finished = row;
            rows.push(finished);
            assert(rows_view(rows@) =~= rows_view(before).push(texts(rb).push(field@)));
            row = Vec::new();
            assert(texts(row@) =~= Seq::<Seq<char>>::empty());
            field = Vec::new();
            i = i + 1;
        } else if c == '\r' && !quoted && next_lf {
            i = i + 1;
        } else {
            field.push(c);
            i = i + 1;
        }
    }
    if quoted {
        return Err(crate::text::owned("The classification CSV has an unterminated quoted field."));
    }
    if field.len() > 0 || row.len() > 0 {
        let ghost rb = row@;
        let ghost before = rows@;
        row.push(crate::text::string_of(&field));
        assert(texts(row@) =~= texts(rb).push(field@));
        rows.push(row);
        assert(rows_view(rows@) =~= rows_view(before).push(texts(rb).push(field@)));
    }
    Ok(rows)
}

/// Whether a field must be quoted: it holds a comma, a quote, a line feed or a carriage return.
pub open spec fn needs_quotes(f: Seq<char>) -> bool {
    f.contains(',') || f.contains('"') || f.contains('\n') || f.contains('\r')
}

/// `f` with each quote doubled.
pub open spec fn escape_quotes(f: Seq<char>) -> Seq<char>
    decreases f.len(),
{
    if f.len() == 0 {
        seq![]
    } else {
        escape_quotes(f.drop_last()) + if f.last() == '"' {
            seq!['"', '"']
        } else {
            seq![f.last()]
        }
    }
}

/// A CSV field: quoted, with its quotes doubled, where it needs quotes; else as it is.
pub open spec fn csv_field_spec(f: Seq<char>) -> Seq<char> {
    if needs_quotes(f) {
        seq!['"'] + escape_quotes(f) + seq!['"']
    } else {
        f
    }
}

/// Writes `value` as a CSV field.
pub fn csv_field(value: &str) -> (r: String)
    ensures
        r@ == csv_field_spec(value@),
{
    let v = crate::text::chars_of(value);
    let special = crate::text::contains_char(&v, ',') || crate::text::contains_char(&v, '"')
        || crate::text::contains_char(&v, '\n') || crate::text::contains_char(&v, '\r');
    if !special {
        return crate::text::owned(value);
    }
    let mut out = String::new();
    out.push('"');
    for i in 0..v.len()
        invariant
            v@ == value@,
            out@ == seq!['"'] + escape_quotes(v@.take(i as int)),
    {
        assert(v@.take(i + 1).drop_last() =~= v@.take(i as int));
        let ghost before = out@;
        if v[i] == '"' {
            out.push('"');
            out.push('"');
        } else {
            out.push(v[i]);
        }
        assert(out@ =~= seq!['"'] + escape_quotes(v@.take(i + 1)));
    }
    assert(v@.take(v.len() as int) =~= v@);
    out.push('"');
    out
}


/// A CSV line: the fields written with `csv_field` and joined with commas.
pub open spec fn csv_line(fields: Seq<Seq<char>>) -> Seq<char>
    decreases fields.len(),
{
    if fields.len() == 0 {
        seq![]
    } else if fields.len() == 1 {
        csv_field_spec(fields[0])
    } else {
        csv_line(fields.drop_last()) + seq![','] + csv_field_spec(fields.last())
    }
}

/// A CSV text: each row as a line ended by a line feed.
pub open spec fn csv_text(rows: Seq<Seq<Seq<char>>>) -> Seq<char>
    decreases rows.len(),
{
    if rows.len() == 0 {
        seq![]
    } else {
        csv_text(rows.drop_last()) + csv_line(rows.last()) + seq!['\n']
    }
}

proof fn lemma_escape_concat(a: Seq<char>, b: Seq<char>)
    ensures
        escape_quotes(a + b) == escape_quotes(a) + escape_quotes(b),
    decreases b.len(),
{
    if b.len() == 0 {
        assert(a + b =~= a);
        assert(escape_quotes(a) + escape_quotes(b) =~= escape_quotes(a));
    } else {
        assert((a + b).drop_last() =~= a + b.drop_last());
        assert((a + b).last() == b.last());
        lemma_escape_concat(a, b.drop_last());
    }
}

proof fn lemma_plain_field(t: Seq<char>, i: int, f: Seq<char>, st: CsvState)
    requires
        0 <= i,
        i + f.len() <= t.len(),
        t.subrange(i, i + f.len()) == f,
        !needs_quotes(f),
        !st.3,
    ensures
        csv_from(t, i, st) == csv_from(t, i + f.len(), (st.0, st.1, st.2 + f, false)),
    decreases f.len(),
{
    if f.len() == 0 {
        assert(st.2 + f =~= st.2);
    } else {
        let c = f[0];
        assert(t[i] == t.subrange(i, i + f.len())[0]);
        assert(f.contains(c));
        let rest = f.drop_first();
        assert(!rest.contains(',') && !rest.contains('"') && !rest.contains('\n') && !rest.contains('\r')) by {
            if rest.contains(',') { let k = choose|k: int| 0 <= k < rest.len() && rest[k] == ','; assert(f[k + 1] == ','); }
            if rest.contains('"') { let k = choose|k: int| 0 <= k < rest.len() && rest[k] == '"'; assert(f[k + 1] == '"'); }
            if rest.contains('\n') { let k = choose|k: int| 0 <= k < rest.len() && rest[k] == '\n'; assert(f[k + 1] == '\n'); }
            if rest.contains('\r') { let k = choose|k: int| 0 <= k < rest.len() && rest[k] == '\r'; assert(f[k + 1] == '\r'); }
        }
        assert(t.subrange(i + 1, i + 1 + rest.len()) =~= rest);
        lemma_plain_field(t, i + 1, rest, (st.0, st.1, st.2.push(c), false));
        assert(st.2.push(c) + rest =~= st.2 + f);
    }
}

proof fn lemma_quoted_body(t: Seq<char>, i: int, f: Seq<char>, st: CsvState, k: int)
    requires
        0 <= i,
        0 <= k <= f.len(),
        i + escape_quotes(f).len() <= t.len(),
        t.subrange(i, i + escape_quotes(f).len()) == escape_quotes(f),
        st.3,
    ensures
        csv_from(t, i, st) == csv_from(
            t,
            i + escape_quotes(f.take(k)).len(),
            (st.0, st.1, st.2 + f.take(k), true),
        ),
    decreases k,
{
    if k == 0 {
        assert(f.take(0) =~= Seq::<char>::empty());
        assert(escape_quotes(f.take(0)) =~= Seq::<char>::empty());
        assert(st.2 + f.take(0) =~= st.2);
    } else {
        lemma_quoted_body(t, i, f, st, k - 1);
        let a = f.take(k - 1);
        let c = f[k - 1];
        assert(f.take(k).drop_last() =~= a);
        let p = i + escape_quotes(a).len();
        assert(f =~= f.take(k) + f.skip(k));
        lemma_escape_concat(f.take(k), f.skip(k));
        assert(escape_quotes(f.take(k)) == escape_quotes(a) + escape_quotes(f.take(k)).subrange(escape_quotes(a).len() as int, escape_quotes(f.take(k)).len() as int));
        let e = escape_quotes(f.take(k));
        assert(e.len() <= escape_quotes(f).len());
        assert forall|j: int| 0 <= j < e.len() implies t[i + j] == e[j] by {
            assert(t[i + j] == t.subrange(i, i + escape_quotes(f).len())[j]);
            assert(escape_quotes(f)[j] == e[j]);
        }
        if c == '"' {
            assert(e =~= escape_quotes(a) + seq!['"', '"']);
            assert(t[p] == e[escape_quotes(a).len() as int]);
            assert(t[p + 1] == e[escape_quotes(a).len() as int + 1]);
        } else {
            assert(e =~= escape_quotes(a) + seq![c]);
            assert(t[p] == e[escape_quotes(a).len() as int]);
        }
        assert((st.2 + a).push(c) =~= st.2 + f.take(k));
    }
}

proof fn lemma_field(t: Seq<char>, i: int, f: Seq<char>, st: CsvState)
    requires
        0 <= i,
        i + csv_field_spec(f).len() < t.len(),
        t.subrange(i, i + csv_field_spec(f).len()) == csv_field_spec(f),
        t[i + csv_field_spec(f).len()] == ',' || t[i + csv_field_spec(f).len()] == '\n',
        !st.3,
        st.2.len() == 0,
    ensures
        csv_from(t, i, st) == csv_from(t, i + csv_field_spec(f).len(), (st.0, st.1, f, false)),
{
    if !needs_quotes(f) {
        lemma_plain_field(t, i, f, st);
        assert(st.2 + f =~= f);
    } else {
        let e = escape_quotes(f);
        let cf = csv_field_spec(f);
        assert(cf =~= seq!['"'] + e + seq!['"']);
        assert(t[i] == cf[0]);
        assert(t.subrange(i + 1, i + 1 + e.len()) =~= e) by {
            assert forall|j: int| 0 <= j < e.len() implies t.subrange(i + 1, i + 1 + e.len())[j] == e[j] by {
                assert(t[i + 1 + j] == t.subrange(i, i + cf.len())[1 + j]);
                assert(cf[1 + j] == e[j]);
            }
        }
        let st1 = (st.0, st.1, st.2, true);
        lemma_quoted_body(t, i + 1, f, st1, f.len() as int);
        assert(f.take(f.len() as int) =~= f);
        let q = i + 1 + e.len();
        assert(t[q] == cf[cf.len() - 1]);
        assert(t[q + 1] != '"');
        assert(st.2 + f =~= f);
    }
}

proof fn lemma_line(t: Seq<char>, i: int, fields: Seq<Seq<char>>, rows: Seq<Seq<Seq<char>>>)
    requires
        0 <= i,
        fields.len() > 0,
        i + csv_line(fields).len() < t.len(),
        t.subrange(i, i + csv_line(fields).len()) == csv_line(fields),
        t[i + csv_line(fields).len()] == ',' || t[i + csv_line(fields).len()] == '\n',
    ensures
        csv_from(t, i, (rows, seq![], seq![], false)) == csv_from(
            t,
            i + csv_line(fields).len(),
            (rows, fields.drop_last(), fields.last(), false),
        ),
    decreases fields.len(),
{
    if fields.len() == 1 {
        lemma_field(t, i, fields[0], (rows, seq![], seq![], false));
        assert(fields.drop_last() =~= Seq::<Seq<char>>::empty());
    } else {
        let d = fields.drop_last();
        let ld = csv_line(d);
        let cf = csv_field_spec(fields.last());
        assert(csv_line(fields) == ld + seq![','] + cf);
        assert(t.subrange(i, i + ld.len()) =~= ld) by {
            assert forall|j: int| 0 <= j < ld.len() implies t.subrange(i, i + ld.len())[j] == ld[j] by {
                assert(t[i + j] == t.subrange(i, i + csv_line(fields).len())[j]);
            }
        }
        let p = i + ld.len();
        assert(t[p] == csv_line(fields)[ld.len() as int]);
        lemma_line(t, i, d, rows);
        assert(t.subrange(p + 1, p + 1 + cf.len()) =~= cf) by {
            assert forall|j: int| 0 <= j < cf.len() implies t.subrange(p + 1, p + 1 + cf.len())[j] == cf[j] by {
                assert(t[p + 1 + j] == t.subrange(i, i + csv_line(fields).len())[ld.len() + 1 + j]);
            }
        }
        assert(d.drop_last().push(d.last()) =~= d);
        lemma_field(t, p + 1, fields.last(), (rows, d, seq![], false));
    }
}

proof fn lemma_text(t: Seq<char>, rows: Seq<Seq<Seq<char>>>)
    requires
        forall|k: int| 0 <= k < rows.len() ==> (#[trigger] rows[k]).len() > 0,
        csv_text(rows).len() <= t.len(),
        t.subrange(0, csv_text(rows).len() as int) == csv_text(rows),
    ensures
        csv_from(t, 0, (seq![], seq![], seq![], false)) == csv_from(
            t,
            csv_text(rows).len() as int,
            (rows, seq![], seq![], false),
        ),
    decreases rows.len(),
{
    if rows.len() == 0 {
        assert(rows =~= Seq::<Seq<Seq<char>>>::empty());
    } else {
        let d = rows.drop_last();
        let pd = csv_text(d);
        let line = csv_line(rows.last());
        assert(csv_text(rows) == pd + line + seq!['\n']);
        assert(t.subrange(0, pd.len() as int) =~= pd) by {
            assert forall|j: int| 0 <= j < pd.len() implies t.subrange(0, pd.len() as int)[j] == pd[j] by {
                assert(t[j] == t.subrange(0, csv_text(rows).len() as int)[j]);
            }
        }
        assert forall|k: int| 0 <= k < d.len() implies (#[trigger] d[k]).len() > 0 by {
            assert(d[k] == rows[k]);
        }
        lemma_text(t, d);
        let p = pd.len() as int;
        assert(t.subrange(p, p + line.len()) =~= line) by {
            assert forall|j: int| 0 <= j < line.len() implies t.subrange(p, p + line.len())[j] == line[j] by {
                assert(t[p + j] == t.subrange(0, csv_text(rows).len() as int)[p + j]);
            }
        }
        assert(t[p + line.len()] == t.subrange(0, csv_text(rows).len() as int)[p + line.len()]);
        assert(rows[rows.len() - 1].len() > 0);
        lemma_line(t, p, rows.last(), d);
        assert(rows.last().drop_last().push(rows.last().last()) =~= rows.last());
        assert(d.push(rows.last()) =~= rows);
    }
}

/// Reading a CSV text that was written from rows of fields, each row with at least one field,
/// gives those rows back.
pub proof fn law_csv_round_trip(rows: Seq<Seq<Seq<char>>>)
    requires
        forall|k: int| 0 <= k < rows.len() ==> (#[trigger] rows[k]).len() > 0,
    ensures
        parse_csv_spec(csv_text(rows)) == Some(rows),
{
    let t = csv_text(rows);
    assert(t.subrange(0, t.len() as int) =~= t);
    lemma_text(t, rows);
}


/// A CSV line of `fields`.
pub fn csv_line_text(fields: &Vec<String>) -> (r: String)
    ensures
        r@ == csv_line(texts(fields@)),
{
    let mut out = String::new();
    for i in 0..fields.len()
        invariant
            out@ == csv_line(texts(fields@.take(i as int))),
    {
        let f = csv_field(fields[i].as_str());
        assert(texts(fields@.take(i + 1)).drop_last() =~= texts(fields@.take(i as int)));
        assert(texts(fields@.take(i + 1)).last() == fields@[i as int]@);
        if i > 0 {
            out.push(',');
        } else {
            assert(texts(fields@.take(0)) =~= Seq::<Seq<char>>::empty());
            assert(out@ =~= Seq::<char>::empty());
        }
        crate::text::push_all(&mut out, f.as_str());
        if i == 0 {
            assert(out@ =~= csv_line(texts(fields@.take(1))));
        }
    }
    assert(fields@.take(fields.len() as int) =~= fields@);
    out
}

/// The names of the classes of image `image_id`, in class order.
pub open spec fn image_class_names(data: &ProjectData, image_id: Seq<char>) -> Seq<Seq<char>>
    decreases data.classes@.len(),
{
    names_where(data.classes@, |c: Seq<char>| is_assigned(data.image_classes@, image_id, c))
}

/// The names of the classes that `keep` selects by id, in class order.
pub open spec fn names_where(classes: Seq<ClassRecord>, keep: spec_fn(Seq<char>) -> bool) -> Seq<Seq<char>>
    decreases classes.len(),
{
    if classes.len() == 0 {
        seq![]
    } else {
        let prev = names_where(classes.drop_last(), keep);
        if keep(classes.last().id@) {
            prev.push(classes.last().name@)
        } else {
            prev
        }
    }
}

/// The rows of a CSV export: each active image with classes, in position order, as its path and
/// its class names.
pub open spec fn export_rows_from(data: &ProjectData, images: Seq<crate::project::ImageRow>) -> Seq<Seq<Seq<char>>>
    decreases images.len(),
{
    if images.len() == 0 {
        seq![]
    } else {
        let prev = export_rows_from(data, images.drop_last());
        let names = image_class_names(data, images.last().id@);
        if names.len() > 0 {
            prev.push(seq![images.last().relative_path@] + names)
        } else {
            prev
        }
    }
}

/// The header line of a CSV export.
pub open spec fn csv_header() -> Seq<Seq<char>> {
    seq!["relative_path"@, "class_name_1"@, "class_name_2"@]
}

/// How many labels the rows of an export hold.
pub open spec fn label_count(rows: Seq<Seq<Seq<char>>>) -> int
    decreases rows.len(),
{
    if rows.len() == 0 {
        0
    } else {
        label_count(rows.drop_last()) + rows.last().len() - 1
    }
}

fn class_names_of(data: &ProjectData, image_id: &String) -> (r: Vec<String>)
    ensures
        texts(r@) == image_class_names(data, image_id@),
        r.len() <= data.classes.len(),
{
    let ghost keep = |c: Seq<char>| is_assigned(data.image_classes@, image_id@, c);
    let mut out: Vec<String> = Vec::new();
    for i in 0..data.classes.len()
        invariant
            keep == (|c: Seq<char>| is_assigned(data.image_classes@, image_id@, c)),
            texts(out@) == names_where(data.classes@.take(i as int), keep),
            out.len() <= i,
    {
        assert(data.classes@.take(i + 1).drop_last() =~= data.classes@.take(i as int));
        if assigned(&data.image_classes, image_id, &data.classes[i].id) {
            let ghost before = out@;
            out.push(clone_text(&data.classes[i].name));
            assert(texts(out@) =~= texts(before).push(data.classes@[i as int].name@));
        }
    }
    assert(data.classes@.take(data.classes.len() as int) =~= data.classes@);
    out
}

/// The labels of the first `j` images are no more than those of all of them.
proof fn lemma_label_count_prefix(data: &ProjectData, images: Seq<crate::project::ImageRow>, j: int)
    requires
        0 <= j <= images.len(),
    ensures
        label_count(export_rows_from(data, images.take(j))) <= label_count(export_rows_from(data, images)),
    decreases images.len(),
{
    if j < images.len() {
        lemma_label_count_prefix(data, images.drop_last(), j);
        assert(images.drop_last().take(j) =~= images.take(j));
        let prev = export_rows_from(data, images.drop_last());
        let names = image_class_names(data, images.last().id@);
        if names.len() > 0 {
            let row = seq![images.last().relative_path@] + names;
            assert(prev.push(row).drop_last() =~= prev);
        }
    } else {
        assert(images.take(j) =~= images);
    }
}

/// The CSV text of the labels of a classification project, and the report of the export.
pub fn export_csv(data: &ProjectData) -> (r: Result<(String, ClassificationReport), String>)
    ensures
        r is Ok <==> classification_mode_of(data) is Some
            && label_count(export_rows_from(data, crate::detection::lookup_images(data.images@))) <= usize::MAX,
        classification_mode_of(data) is Some
            && label_count(export_rows_from(data, crate::detection::lookup_images(data.images@))) > usize::MAX
            ==> (r matches Err(m) && m@ == "The project is too large to export."@),
        r matches Ok((text, report)) ==> {
            let rows = export_rows_from(data, crate::detection::lookup_images(data.images@));
            &&& text@ == csv_text(seq![csv_header()] + rows)
            &&& report.assignments == label_count(rows)
            &&& report.matched_images == rows.len()
            &&& report.skipped == 0
            &&& report.classes == data.classes.len()
            &&& report.message@ == "Exported labels for "@ + decimal(rows.len()) + " images to CSV."@
        },
{
    match require_classification(data) {
        Err(e) => return Err(e),
        Ok(_) => {},
    }
    let lookup = crate::detection::image_lookup(data);
    proof {
        crate::text::lemma_stable_sorted_len(data.images@.filter(crate::detection::is_active()), crate::detection::position_before());
        data.images@.lemma_filter_len(crate::detection::is_active());
    }
    let mut header: Vec<String> = Vec::new();
    header.push(owned("relative_path"));
    header.push(owned("class_name_1"));
    header.push(owned("class_name_2"));
    assert(texts(header@) =~= csv_header());
    let mut text = csv_line_text(&header);
    text.push('\n');
    assert(text@ =~= csv_text(seq![csv_header()])) by {
        let hs = seq![csv_header()];
        assert(hs.drop_last() =~= Seq::<Seq<Seq<char>>>::empty());
        assert(hs.last() == csv_header());
        assert(csv_text(hs.drop_last()) =~= Seq::<char>::empty());
        assert(csv_text(hs) == csv_text(hs.drop_last()) + csv_line(hs.last()) + seq!['\n']);
    }
    let mut assignments: usize = 0;
    let mut matched: usize = 0;
    let ghost m = data.classes.len();
    for i in 0..lookup.len()
        invariant
            lookup@ == crate::detection::lookup_images(data.images@),
            lookup.len() <= data.images.len(),
            text@ == csv_text(seq![csv_header()] + export_rows_from(data, lookup@.take(i as int))),
            assignments == label_count(export_rows_from(data, lookup@.take(i as int))),
            matched == export_rows_from(data, lookup@.take(i as int)).len(),
            matched <= i,
    {
        let ghost prev = export_rows_from(data, lookup@.take(i as int));
        assert(lookup@.take(i + 1).drop_last() =~= lookup@.take(i as int));
        assert(lookup@.take(i + 1).last() == lookup@[i as int]);
        let names = class_names_of(data, &lookup[i].id);
        if names.len() > 0 {
            let mut fields: Vec<String> = Vec::new();
            fields.push(clone_text(&lookup[i].relative_path));
            let ghost f0 = fields@;
            for k in 0..names.len()
                invariant
                    fields@ == f0 + names@.take(k as int),
            {
                fields.push(clone_text(&names[k]));
                assert(names@.take(k + 1) == names@.take(k as int).push(names@[k as int]));
            }
            assert(names@.take(names.len() as int) =~= names@);
            let ghost row = seq![lookup@[i as int].relative_path@] + image_class_names(data, lookup@[i as int].id@);
            assert(texts(fields@) =~= row);
            let line = csv_line_text(&fields);
            crate::text::push_all(&mut text, line.as_str());
            text.push('\n');
            assert((seq![csv_header()] + prev.push(row)).drop_last() =~= seq![csv_header()] + prev);
            assert(text@ =~= csv_text(seq![csv_header()] + prev.push(row)));
            assert(prev.push(row).drop_last() =~= prev);
            assert(label_count(prev.push(row)) == label_count(prev) + names.len());
            assignments = match assignments.checked_add(names.len()) {
                Some(v) => v,
                None => {
                    proof {
                        lemma_label_count_prefix(data, lookup@, i + 1);
                    }
                    return Err(owned("The project is too large to export."));
                },
            };
            matched = matched + 1;
        }
    }
    assert(lookup@.take(lookup.len() as int) =~= lookup@);
    let mut message = owned("Exported labels for ");
    let digits = decimal_text(matched);
    let ds = crate::text::string_of(&digits);
    crate::text::push_all(&mut message, ds.as_str());
    crate::text::push_all(&mut message, " images to CSV.");
    Ok((text, ClassificationReport {
        assignments,
        matched_images: matched,
        skipped: 0,
        classes: data.classes.len(),
        message,
    }))
}


/// One labeled image copy of a class-directory export: the image, and the class whose directory
/// receives the copy.
pub struct ClassCopy {
    pub image_id: String,
    pub relative_path: String,
    pub file_name: String,
    pub class_name: String,
}

/// The image id, path, file name and class name of a copy.
pub open spec fn copy_view(c: ClassCopy) -> (Seq<char>, Seq<char>, Seq<char>, Seq<char>) {
    (c.image_id@, c.relative_path@, c.file_name@, c.class_name@)
}

/// The copies of a class-directory export: for each active image in position order, one per class
/// it has, in class order.
pub open spec fn export_copies_from(data: &ProjectData, images: Seq<crate::project::ImageRow>) -> Seq<
    (Seq<char>, Seq<char>, Seq<char>, Seq<char>),
>
    decreases images.len(),
{
    if images.len() == 0 {
        seq![]
    } else {
        let r = images.last();
        export_copies_from(data, images.drop_last()) + image_class_names(data, r.id@).map_values(
            |n: Seq<char>| (r.id@, r.relative_path@, r.file_name@, n),
        )
    }
}

/// The class names of the copies.
pub open spec fn copy_class_names(copies: Seq<ClassCopy>) -> Seq<String> {
    copies.map_values(|c: ClassCopy| c.class_name)
}

/// The copies a class-directory export makes, and its report once every copy is made.
pub fn class_directory_export(data: &ProjectData) -> (r: Result<(Vec<ClassCopy>, ClassificationReport), String>)
    ensures
        r is Ok <==> classification_mode_of(data) is Some,
        r matches Ok((copies, report)) ==> {
            let images = crate::detection::lookup_images(data.images@);
            &&& copies@.map_values(|c: ClassCopy| copy_view(c)) == export_copies_from(data, images)
            &&& report.assignments == copies.len()
            &&& report.matched_images == export_rows_from(data, images).len()
            &&& report.skipped == 0
            &&& report.classes == distinct_lower(copy_class_names(copies@))
            &&& report.message@ == "Exported "@ + decimal(copies.len() as nat)
                + " labeled image copies into class directories."@
        },
{
    match require_classification(data) {
        Err(e) => return Err(e),
        Ok(_) => {},
    }
    let lookup = crate::detection::image_lookup(data);
    proof {
        crate::text::lemma_stable_sorted_len(data.images@.filter(crate::detection::is_active()), crate::detection::position_before());
        data.images@.lemma_filter_len(crate::detection::is_active());
    }
    let mut copies: Vec<ClassCopy> = Vec::new();
    let mut names_all: Vec<String> = Vec::new();
    let mut matched: usize = 0;
    for i in 0..lookup.len()
        invariant
            lookup@ == crate::detection::lookup_images(data.images@),
            lookup.len() <= data.images.len(),
            copies@.map_values(|c: ClassCopy| copy_view(c)) == export_copies_from(data, lookup@.take(i as int)),
            names_all@ == copy_class_names(copies@),
            matched == export_rows_from(data, lookup@.take(i as int)).len(),
            matched <= i,
    {
        let ghost prev = copies@;
        let ghost r = lookup@[i as int];
        assert(lookup@.take(i + 1).drop_last() =~= lookup@.take(i as int));
        assert(lookup@.take(i + 1).last() == r);
        let names = class_names_of(data, &lookup[i].id);
        let ghost f = |n: Seq<char>| (r.id@, r.relative_path@, r.file_name@, n);
        for k in 0..names.len()
            invariant
                copies.len() == prev.len() + k,
                k <= names.len(),
                texts(names@) == image_class_names(data, r.id@),
                f == (|n: Seq<char>| (r.id@, r.relative_path@, r.file_name@, n)),
                r == lookup@[i as int],
                i < lookup.len(),
                copies@.take(prev.len() as int) == prev,
                copies@.skip(prev.len() as int).map_values(|c: ClassCopy| copy_view(c))
                    == texts(names@).take(k as int).map_values(f),
                names_all@ == copy_class_names(copies@),
        {
            let ghost before = copies@;
            copies.push(ClassCopy {
                image_id: clone_text(&lookup[i].id),
                relative_path: clone_text(&lookup[i].relative_path),
                file_name: clone_text(&lookup[i].file_name),
                class_name: clone_text(&names[k]),
            });
            names_all.push(clone_text(&names[k]));
            assert(copies@.take(prev.len() as int) =~= before.take(prev.len() as int));
            assert(copies@.skip(prev.len() as int) =~= before.skip(prev.len() as int).push(copies@.last()));
            assert(texts(names@).take(k + 1) =~= texts(names@).take(k as int).push(texts(names@)[k as int]));
            assert(texts(names@)[k as int] == names@[k as int]@);
            assert(copy_view(copies@.last()) == f(texts(names@)[k as int]));
            assert(before.skip(prev.len() as int).push(copies@.last()).map_values(|c: ClassCopy| copy_view(c))
                =~= before.skip(prev.len() as int).map_values(|c: ClassCopy| copy_view(c)).push(copy_view(copies@.last())));
            assert(copies@.skip(prev.len() as int).map_values(|c: ClassCopy| copy_view(c)) =~= texts(names@).take(k + 1).map_values(f));
            assert(names_all@ =~= copy_class_names(copies@));
        }
        proof {
            assert(texts(names@).take(names.len() as int) =~= texts(names@));
            assert(copies@ =~= prev + copies@.skip(prev.len() as int));
            assert(copies@.map_values(|c: ClassCopy| copy_view(c)) =~= prev.map_values(|c: ClassCopy| copy_view(c))
                + copies@.skip(prev.len() as int).map_values(|c: ClassCopy| copy_view(c)));
            assert(image_class_names(data, r.id@).map_values(f) == image_class_names(data, r.id@).map_values(
                |n: Seq<char>| (r.id@, r.relative_path@, r.file_name@, n)));
            let rows = export_rows_from(data, lookup@.take(i as int));
            if names.len() > 0 {
                assert(export_rows_from(data, lookup@.take(i + 1)) == rows.push(seq![r.relative_path@] + image_class_names(data, r.id@)));
            }
        }
        if names.len() > 0 {
            matched = matched + 1;
        }
    }
    assert(lookup@.take(lookup.len() as int) =~= lookup@);
    let mut message = owned("Exported ");
    let digits = decimal_text(copies.len());
    let ds = crate::text::string_of(&digits);
    crate::text::push_all(&mut message, ds.as_str());
    crate::text::push_all(&mut message, " labeled image copies into class directories.");
    let report = import_report(copies.len(), matched, 0, &names_all, message);
    Ok((copies, report))
}


/// `s` without its leading `./` (`trim_start_matches("./")`).
pub open spec fn without_dot_slash(s: Seq<char>) -> Seq<char>
    decreases s.len(),
{
    if s.len() >= 2 && s[0] == '.' && s[1] == '/' {
        without_dot_slash(s.skip(2))
    } else {
        s
    }
}

fn strip_dot_slash(v: &Vec<char>) -> (r: Vec<char>)
    ensures
        r@ == without_dot_slash(v@),
{
    let mut i: usize = 0;
    assert(v@.subrange(0, v@.len() as int) =~= v@);
    while v.len() - i >= 2 && v[i] == '.' && v[i + 1] == '/'
        invariant
            i <= v.len(),
            without_dot_slash(v@) == without_dot_slash(v@.subrange(i as int, v@.len() as int)),
        decreases v.len() - i,
    {
        assert(v@.subrange(i as int, v@.len() as int).skip(2) =~= v@.subrange(i + 2, v@.len() as int));
        i = i + 2;
    }
    crate::text::slice_of(v, i, v.len())
}

/// The image a CSV row names by `path`: the active image whose path matches, ignoring case, `\\`
/// read as `/` and leading `./` dropped; else the only active image whose file name matches the
/// file name of `path`.
pub open spec fn csv_image_match(images: Seq<crate::project::ImageRow>, path: Seq<char>) -> int {
    let lookup = crate::detection::lookup_images(images);
    let key = crate::text::unicode_lowercase(without_dot_slash(crate::paths::forward_slashes(path)));
    let exact = crate::detection::last_keyed(lookup, crate::detection::path_key(), key);
    if exact >= 0 {
        exact
    } else {
        match crate::paths::file_name_spec(path) {
            Some(name) => crate::detection::only_keyed(lookup, crate::detection::name_key(), crate::text::unicode_lowercase(name)),
            None => -1,
        }
    }
}

/// The id of the image a CSV row or an image file names by `path`.
pub fn resolve_image(data: &ProjectData, path: &str) -> (r: Option<String>)
    ensures
        ({
            let i = csv_image_match(data.images@, path@);
            match r {
                Some(id) => i >= 0 && id == crate::detection::lookup_images(data.images@)[i].id,
                None => i < 0,
            }
        }),
{
    resolve_in(&data.images, path)
}

/// The id of the image among `images` that a CSV row or an image file names by `path`.
pub fn resolve_in(images: &Vec<crate::project::ImageRow>, path: &str) -> (r: Option<String>)
    ensures
        ({
            let i = csv_image_match(images@, path@);
            match r {
                Some(id) => i >= 0 && id == crate::detection::lookup_images(images@)[i].id,
                None => i < 0,
            }
        }),
{
    let lookup = crate::detection::lookup_of(images);
    let v = crate::text::chars_of(path);
    let normalized = strip_dot_slash(&crate::paths::to_forward_slashes(&v));
    let key = crate::text::lowercase(crate::text::string_of(&normalized).as_str());
    let paths = crate::detection::keys_of_path(&lookup);
    let found = match crate::detection::find_keyed(&lookup, &paths, &key, false, Ghost(crate::detection::path_key())) {
        Some(i) => Some(i),
        None => match crate::paths::file_name_of(&v) {
            None => None,
            Some(name) => {
                let name_key_text = crate::text::lowercase(crate::text::string_of(&name).as_str());
                let names = crate::detection::keys_of_name(&lookup);
                crate::detection::find_keyed(&lookup, &names, &name_key_text, true, Ghost(crate::detection::name_key()))
            },
        },
    };
    proof {
        crate::detection::lemma_last_keyed(lookup@, crate::detection::path_key(), key@);
    }
    match found {
        Some(i) => Some(lookup[i].id.clone()),
        None => None,
    }
}

/// Whether the class `c` is the one `ensure_classes` finds for the (trimmed, non-blank) name `n`:
/// its name has the same lower case.
pub open spec fn names_class(c: ClassRecord, n: Seq<char>) -> bool {
    crate::text::unicode_lowercase(c.name@) == crate::text::unicode_lowercase(crate::text::trimmed(n))
}

/// Whether one of `ids` is the id of a class that names `n`.
pub open spec fn covered(classes: Seq<ClassRecord>, ids: Seq<String>, n: Seq<char>) -> bool {
    exists|j: int, c: int|
        0 <= j < ids.len() && 0 <= c < classes.len() && classes[c].id@ == ids[j]@ && names_class(classes[c], n)
}

/// Whether `id` is the id of a class that a non-blank name of `names` names.
pub open spec fn named_by(classes: Seq<ClassRecord>, names: Seq<String>, id: Seq<char>) -> bool {
    exists|q: int, c: int|
        0 <= q < names.len() && 0 <= c < classes.len() && crate::text::trimmed(#[trigger] names[q]@).len() > 0
            && (#[trigger] classes[c]).id@ == id && names_class(classes[c], names[q]@)
}

/// Whether every non-blank name of `names` names a class of `classes`, so that no class is made.
pub open spec fn names_known(classes: Seq<ClassRecord>, names: Seq<String>) -> bool {
    forall|k: int| 0 <= k < names.len() && crate::text::trimmed((#[trigger] names[k])@).len() > 0
        ==> exists|c: int| 0 <= c < classes.len() && names_class(#[trigger] classes[c], names[k]@)
}

/// Whether one of `names` names the class `c`.
pub open spec fn listed_name(names: Seq<String>, c: ClassRecord) -> bool {
    exists|q: int| 0 <= q < names.len() && names_class(c, #[trigger] names[q]@)
}

proof fn lemma_named_by_grow(classes: Seq<ClassRecord>, more: Seq<ClassRecord>, names: Seq<String>, k: int, id: Seq<char>)
    requires
        0 <= k < names.len(),
        more.len() >= classes.len(),
        forall|i: int| 0 <= i < classes.len() ==> #[trigger] more[i] == classes[i],
        named_by(classes, names.take(k), id),
    ensures
        named_by(more, names.take(k + 1), id),
{
    let (q, c) = choose|q: int, c: int|
        0 <= q < names.take(k).len() && 0 <= c < classes.len() && crate::text::trimmed(#[trigger] names.take(k)[q]@).len() > 0
            && (#[trigger] classes[c]).id@ == id && names_class(classes[c], names.take(k)[q]@);
    assert(names.take(k + 1)[q] == names.take(k)[q]);
    assert(more[c] == classes[c]);
}

proof fn lemma_listed_name_grow(names: Seq<String>, k: int, c: ClassRecord)
    requires
        0 <= k < names.len(),
        listed_name(names.take(k), c),
    ensures
        listed_name(names.take(k + 1), c),
{
    let q = choose|q: int| 0 <= q < names.take(k).len() && names_class(c, #[trigger] names.take(k)[q]@);
    assert(names.take(k + 1)[q] == names.take(k)[q]);
}

/// A class as plain values: id, name, position, color and shortcut.
pub open spec fn class_view(c: ClassRecord) -> (Seq<char>, Seq<char>, i64, Seq<char>, Option<Seq<char>>) {
    (c.id@, c.name@, c.position, c.color@, crate::detection::opt_view(c.shortcut))
}

/// The classes as plain values.
pub open spec fn class_views(cs: Seq<ClassRecord>) -> Seq<(Seq<char>, Seq<char>, i64, Seq<char>, Option<Seq<char>>)> {
    cs.map_values(|c: ClassRecord| class_view(c))
}

/// The index of the last class whose lower-cased name is `key`, or -1.
pub open spec fn last_named(cs: Seq<(Seq<char>, Seq<char>, i64, Seq<char>, Option<Seq<char>>)>, key: Seq<char>) -> int
    decreases cs.len(),
{
    if cs.len() == 0 {
        -1
    } else if crate::text::unicode_lowercase(cs.last().1) == key {
        cs.len() - 1
    } else {
        last_named(cs.drop_last(), key)
    }
}

/// `ids` with `id` appended, unless it is there already.
pub open spec fn with_id(ids: Seq<Seq<char>>, id: Seq<char>) -> Seq<Seq<char>> {
    if ids.contains(id) {
        ids
    } else {
        ids.push(id)
    }
}

/// One step of making sure of classes: from the state `prev` (whether all went through, the
/// classes, the ids found), the name `name` with the id `id` for a new class. A blank name is
/// skipped; a name whose trimmed lower case is that of a class takes the last such class; any other
/// name adds a class with id `id`, which fails, stopping there, where the name is not valid, a class
/// has it ignoring ASCII case, the id is in use or the list is full.
#[verifier::opaque]
pub open spec fn ensure_step(
    prev: (bool, Seq<(Seq<char>, Seq<char>, i64, Seq<char>, Option<Seq<char>>)>, Seq<Seq<char>>),
    name: Seq<char>,
    id: Seq<char>,
) -> (bool, Seq<(Seq<char>, Seq<char>, i64, Seq<char>, Option<Seq<char>>)>, Seq<Seq<char>>) {
    let t = crate::text::trimmed(name);
    if !prev.0 || t.len() == 0 {
        prev
    } else {
        let c0 = prev.1;
        let f = last_named(c0, crate::text::unicode_lowercase(t));
        if f >= 0 {
            (true, c0, with_id(prev.2, c0[f].0))
        } else {
            match crate::detection::valid_class_name_spec(name) {
                None => (false, c0, prev.2),
                Some(n) => {
                    if (exists|i: int| 0 <= i < c0.len() && crate::text::eq_ignore_ascii_case_spec((#[trigger] c0[i]).1, n))
                        || (exists|i: int| 0 <= i < c0.len() && (#[trigger] c0[i]).0 == id) || c0.len() >= i64::MAX {
                        (false, c0, prev.2)
                    } else {
                        (
                            true,
                            c0.push((id, n, c0.len() as i64, crate::detection::spectrum_color_spec(c0.len() as int),
                                crate::detection::shortcut_spec(c0.len() as int))),
                            with_id(prev.2, id),
                        )
                    }
                },
            }
        }
    }
}

/// What making sure of the classes `names` gives, from the classes `cs`: whether every name went
/// through, the classes, and the ids found, each once; the name at position `k` gives a new class
/// the id `new_ids[k]` (see `ensure_step`).
pub open spec fn ensured(
    cs: Seq<(Seq<char>, Seq<char>, i64, Seq<char>, Option<Seq<char>>)>,
    names: Seq<String>,
    new_ids: Seq<String>,
) -> (bool, Seq<(Seq<char>, Seq<char>, i64, Seq<char>, Option<Seq<char>>)>, Seq<Seq<char>>)
    decreases names.len(),
{
    if names.len() == 0 {
        (true, cs, seq![])
    } else {
        ensure_step(ensured(cs, names.drop_last(), new_ids), names.last()@, new_ids[names.len() - 1]@)
    }
}

/// A failed state stays failed.
pub proof fn lemma_step_failed(
    prev: (bool, Seq<(Seq<char>, Seq<char>, i64, Seq<char>, Option<Seq<char>>)>, Seq<Seq<char>>),
    name: Seq<char>,
    id: Seq<char>,
)
    requires
        !prev.0,
    ensures
        ensure_step(prev, name, id) == prev,
{
    reveal(ensure_step);
}

/// A blank name changes nothing.
pub proof fn lemma_step_blank(
    prev: (bool, Seq<(Seq<char>, Seq<char>, i64, Seq<char>, Option<Seq<char>>)>, Seq<Seq<char>>),
    name: Seq<char>,
    id: Seq<char>,
)
    requires
        crate::text::trimmed(name).len() == 0,
    ensures
        ensure_step(prev, name, id) == prev,
{
    reveal(ensure_step);
}

/// A name that a class answers gives that class's id.
pub proof fn lemma_step_found(
    c: Seq<(Seq<char>, Seq<char>, i64, Seq<char>, Option<Seq<char>>)>,
    ids: Seq<Seq<char>>,
    name: Seq<char>,
    id: Seq<char>,
)
    requires
        crate::text::trimmed(name).len() > 0,
        last_named(c, crate::text::unicode_lowercase(crate::text::trimmed(name))) >= 0,
    ensures
        ensure_step((true, c, ids), name, id) == (true, c, with_id(ids, c[last_named(c, crate::text::unicode_lowercase(crate::text::trimmed(name)))].0)),
{
    reveal(ensure_step);
}

/// A name that no class answers adds a class, or fails.
pub proof fn lemma_step_new(
    c: Seq<(Seq<char>, Seq<char>, i64, Seq<char>, Option<Seq<char>>)>,
    ids: Seq<Seq<char>>,
    name: Seq<char>,
    id: Seq<char>,
)
    requires
        crate::text::trimmed(name).len() > 0,
        last_named(c, crate::text::unicode_lowercase(crate::text::trimmed(name))) < 0,
    ensures
        ({
            let ok = crate::detection::valid_class_name_spec(name) is Some
                && !(exists|i: int| 0 <= i < c.len() && crate::text::eq_ignore_ascii_case_spec((#[trigger] c[i]).1,
                    crate::detection::valid_class_name_spec(name)->0))
                && !(exists|i: int| 0 <= i < c.len() && (#[trigger] c[i]).0 == id) && c.len() < i64::MAX;
            &&& ok ==> ensure_step((true, c, ids), name, id) == (
                true,
                c.push((id, crate::detection::valid_class_name_spec(name)->0, c.len() as i64,
                    crate::detection::spectrum_color_spec(c.len() as int), crate::detection::shortcut_spec(c.len() as int))),
                with_id(ids, id),
            )
            &&& !ok ==> ensure_step((true, c, ids), name, id) == (false, c, ids)
        }),
{
    reveal(ensure_step);
}

/// Making sure of the first `k + 1` names is one step past the first `k`.
pub proof fn lemma_ensured_take(
    cs: Seq<(Seq<char>, Seq<char>, i64, Seq<char>, Option<Seq<char>>)>,
    names: Seq<String>,
    new_ids: Seq<String>,
    k: int,
)
    requires
        0 <= k < names.len(),
    ensures
        ensured(cs, names.take(k + 1), new_ids) == ensure_step(ensured(cs, names.take(k), new_ids), names[k]@, new_ids[k]@),
{
    assert(names.take(k + 1).drop_last() =~= names.take(k));
    assert(names.take(k + 1).last() == names[k]);
}

proof fn lemma_ensured_failed(
    cs: Seq<(Seq<char>, Seq<char>, i64, Seq<char>, Option<Seq<char>>)>,
    names: Seq<String>,
    new_ids: Seq<String>,
    j: int,
)
    requires
        0 <= j <= names.len(),
        !ensured(cs, names.take(j), new_ids).0,
    ensures
        ensured(cs, names, new_ids) == ensured(cs, names.take(j), new_ids),
    decreases names.len(),
{
    if j < names.len() {
        assert(names.drop_last().take(j) =~= names.take(j));
        lemma_ensured_failed(cs, names.drop_last(), new_ids, j);
        lemma_step_failed(ensured(cs, names.drop_last(), new_ids), names.last()@, new_ids[names.len() - 1]@);
    } else {
        assert(names.take(j) =~= names);
    }
}

proof fn lemma_last_named(cs: Seq<ClassRecord>, key: Seq<char>, x: int)
    requires
        -1 <= x < cs.len(),
        x >= 0 ==> crate::text::unicode_lowercase(cs[x].name@) == key,
        forall|y: int| x < y < cs.len() ==> crate::text::unicode_lowercase((#[trigger] cs[y]).name@) != key,
    ensures
        last_named(class_views(cs), key) == x,
    decreases cs.len(),
{
    if cs.len() > 0 {
        assert(class_views(cs).drop_last() =~= class_views(cs.drop_last()));
        if x < cs.len() - 1 {
            assert(crate::text::unicode_lowercase(cs[cs.len() - 1].name@) != key);
            lemma_last_named(cs.drop_last(), key, x);
        }
    }
}

/// The ids of the classes named `names`, creating the classes that do not exist yet, the name at
/// position `k` giving a new class the id `new_ids[k]`; blank names are skipped and each id is
/// listed once. A failure stops there: the classes made before it stay.
pub fn ensure_classes_with_ids(data: &mut ProjectData, names: &Vec<String>, new_ids: &Vec<String>, now: i64) -> (r: Result<Vec<String>, String>)
    requires
        old(data).wf(),
        new_ids.len() == names.len(),
    ensures
        final(data).wf(),
        r is Ok <==> ensured(class_views(old(data).classes@), names@, new_ids@).0,
        class_views(final(data).classes@) == ensured(class_views(old(data).classes@), names@, new_ids@).1,
        r matches Ok(ids) ==> texts(ids@) == ensured(class_views(old(data).classes@), names@, new_ids@).2,
        final(data).active_class_id == if old(data).active_class_id is None && final(data).classes.len() > old(data).classes.len() {
            Some(final(data).classes@[old(data).classes.len() as int].id)
        } else {
            old(data).active_class_id
        },
        final(data).classes@.len() >= old(data).classes@.len(),
        forall|i: int| 0 <= i < old(data).classes.len() ==> #[trigger] final(data).classes@[i] == old(data).classes@[i],
        final(data).images == old(data).images,
        final(data).image_classes == old(data).image_classes,
        final(data).annotations == old(data).annotations,
        final(data).history == old(data).history,
        r matches Ok(ids) ==> {
            &&& forall|a: int, b: int| 0 <= a < b < ids.len() ==> (#[trigger] ids@[a])@ != (#[trigger] ids@[b])@
            &&& forall|k: int| 0 <= k < ids.len() ==> has_class(final(data).classes@, (#[trigger] ids@[k])@)
            &&& forall|k: int| 0 <= k < names.len() && crate::text::trimmed((#[trigger] names@[k])@).len() > 0 ==> covered(final(data).classes@, ids@, names@[k]@)
            &&& forall|x: int| 0 <= x < ids.len() ==> named_by(final(data).classes@, names@, (#[trigger] ids@[x])@)
        },
        forall|c: int| old(data).classes.len() <= c < final(data).classes.len() ==> listed_name(names@, #[trigger] final(data).classes@[c]),
        names_known(old(data).classes@, names@) ==> r is Ok && *final(data) == *old(data),
{
    let mut ids: Vec<String> = Vec::new();
    let ghost start = data.classes@;
    let ghost all_known = names_known(old(data).classes@, names@);
    for k in 0..names.len()
        invariant
            data.wf(),
            data.classes@.len() >= start.len(),
            forall|i: int| 0 <= i < start.len() ==> #[trigger] data.classes@[i] == start[i],
            start == old(data).classes@,
            data.images == old(data).images,
            data.image_classes == old(data).image_classes,
            data.annotations == old(data).annotations,
            data.history == old(data).history,
            forall|a: int, b: int| 0 <= a < b < ids.len() ==> (#[trigger] ids@[a])@ != (#[trigger] ids@[b])@,
            forall|x: int| 0 <= x < ids.len() ==> has_class(data.classes@, (#[trigger] ids@[x])@),
            forall|q: int| 0 <= q < k && crate::text::trimmed((#[trigger] names@[q])@).len() > 0 ==> covered(data.classes@, ids@, names@[q]@),
            forall|x: int| 0 <= x < ids.len() ==> named_by(data.classes@, names@.take(k as int), (#[trigger] ids@[x])@),
            forall|c: int| start.len() <= c < data.classes.len() ==> listed_name(names@.take(k as int), #[trigger] data.classes@[c]),
            all_known == names_known(old(data).classes@, names@),
            all_known ==> *data == *old(data),
            new_ids.len() == names.len(),
            ensured(class_views(start), names@.take(k as int), new_ids@) == (true, class_views(data.classes@), texts(ids@)),
            data.active_class_id == if old(data).active_class_id is None && data.classes.len() > start.len() {
                Some(data.classes@[start.len() as int].id)
            } else {
                old(data).active_class_id
            },
    {
        assert(names@.take(k + 1).drop_last() =~= names@.take(k as int));
        assert(names@.take(k + 1)[k as int] == names@[k as int]);
        proof {
            lemma_ensured_take(class_views(start), names@, new_ids@, k as int);
        }
        let ghost classes_at_start = data.classes@;
        let ghost ids_at_start = ids@;
        proof {
            assert forall|x: int| 0 <= x < ids.len() implies named_by(data.classes@, names@.take(k + 1), (#[trigger] ids@[x])@) by {
                lemma_named_by_grow(data.classes@, data.classes@, names@, k as int, ids@[x]@);
            }
            assert forall|c: int| start.len() <= c < data.classes.len() implies listed_name(names@.take(k + 1), #[trigger] data.classes@[c]) by {
                lemma_listed_name_grow(names@, k as int, data.classes@[c]);
            }
        }
        let trimmed = crate::text::trim(names[k].as_str());
        let tv = crate::text::chars_of(trimmed.as_str());
        if tv.len() > 0 {
            let key = crate::text::lowercase(trimmed.as_str());
            assert(key@ == crate::text::unicode_lowercase(crate::text::trimmed(names@[k as int]@)));
            // The last class whose lower-cased name is the key.
            let mut found: Option<usize> = None;
            for c in 0..data.classes.len()
                invariant
                    found matches Some(x) ==> x < c && crate::text::unicode_lowercase(data.classes@[x as int].name@) == key@
                        && forall|y: int| x < y < c ==> crate::text::unicode_lowercase((#[trigger] data.classes@[y]).name@) != key@,
                    found is None ==> forall|y: int| 0 <= y < c ==> crate::text::unicode_lowercase((#[trigger] data.classes@[y]).name@) != key@,
            {
                let lower = crate::text::lowercase(data.classes[c].name.as_str());
                if lower == key {
                    found = Some(c);
                }
            }
            let ghost classes_before = data.classes@;
            let ghost ids_before = ids@;
            proof {
                match found {
                    Some(x) => {
                        lemma_last_named(data.classes@, key@, x as int);
                        lemma_step_found(class_views(data.classes@), texts(ids@), names@[k as int]@, new_ids@[k as int]@);
                    },
                    None => {
                        lemma_last_named(data.classes@, key@, -1);
                        lemma_step_new(class_views(data.classes@), texts(ids@), names@[k as int]@, new_ids@[k as int]@);
                    },
                }
            }
            let ghost mut cix: int = 0;
            let id = match found {
                Some(c) => {
                    proof {
                        cix = c as int;
                    }
                    data.classes[c].id.clone()
                },
                None => {
                    proof {
                        if all_known {
                            let cc = choose|cc: int| 0 <= cc < old(data).classes.len() && names_class(#[trigger] old(data).classes@[cc], names@[k as int]@);
                            assert(crate::text::unicode_lowercase(data.classes@[cc].name@) == key@);
                        }
                    }
                    proof {
                        lemma_class_views_taken(data.classes@, crate::detection::valid_class_name_spec(names@[k as int]@)->0, new_ids@[k as int]@);
                    }
                    match crate::detection::create_class_with_id(data, names[k].as_str(), new_ids[k].clone(), now) {
                        Ok(rec) => {
                            proof {
                                cix = data.classes.len() - 1;
                                assert(class_views(data.classes@) =~= class_views(classes_before).push(class_view(rec)));
                            }
                            rec.id
                        },
                        Err(e) => {
                            proof {
                                lemma_ensured_failed(class_views(start), names@, new_ids@, k + 1);
                            }
                            return Err(e);
                        },
                    }
                },
            };
            assert(0 <= cix < data.classes.len() && data.classes@[cix].id@ == id@ && names_class(data.classes@[cix], names@[k as int]@));
            let mut present: Option<usize> = None;
            for x in 0..ids.len()
                invariant
                    match present {
                        Some(y) => y < ids.len() && ids@[y as int]@ == id@,
                        None => forall|y: int| 0 <= y < x ==> (#[trigger] ids@[y])@ != id@,
                    },
            {
                if present.is_none() && ids[x] == id {
                    present = Some(x);
                }
            }
            let ghost jix: int = match present {
                Some(y) => y as int,
                None => ids.len() as int,
            };
            let ghost idv = id@;
            if present.is_none() {
                ids.push(id);
            }
            proof {
                if present is Some {
                    assert(texts(ids_before).contains(idv)) by {
                        assert(texts(ids_before)[jix] == idv);
                    }
                    assert(texts(ids@) == with_id(texts(ids_before), idv));
                } else {
                    assert(!texts(ids_before).contains(idv)) by {
                        if texts(ids_before).contains(idv) {
                            let y = choose|y: int| 0 <= y < texts(ids_before).len() && texts(ids_before)[y] == idv;
                            assert(ids_before[y]@ == idv);
                        }
                    }
                    assert(texts(ids@) =~= with_id(texts(ids_before), idv));
                }
            }
            proof {
                assert(names@.take(k + 1)[k as int] == names@[k as int]);
                assert forall|x: int| 0 <= x < ids.len() implies named_by(data.classes@, names@.take(k + 1), (#[trigger] ids@[x])@) by {
                    if x < ids_before.len() {
                        assert(ids@[x] == ids_before[x]);
                        lemma_named_by_grow(classes_at_start, data.classes@, names@, k as int, ids_before[x]@);
                    } else {
                        assert(crate::text::trimmed(names@.take(k + 1)[k as int]@).len() > 0);
                        assert(data.classes@[cix].id@ == ids@[x]@);
                    }
                }
                assert forall|c: int| start.len() <= c < data.classes.len() implies listed_name(names@.take(k + 1), #[trigger] data.classes@[c]) by {
                    if c < classes_before.len() {
                        assert(data.classes@[c] == classes_before[c]);
                        lemma_listed_name_grow(names@, k as int, classes_at_start[c]);
                    } else {
                        assert(c == cix);
                        assert(names_class(data.classes@[c], names@.take(k + 1)[k as int]@));
                    }
                }
                assert(0 <= jix < ids.len() && data.classes@[cix].id@ == ids@[jix]@);
                assert forall|x: int| 0 <= x < ids.len() implies has_class(data.classes@, (#[trigger] ids@[x])@) by {
                    if x < ids_before.len() {
                        assert(ids@[x] == ids_before[x]);
                        assert(has_class(classes_before, ids_before[x]@));
                        let i = choose|i: int| 0 <= i < classes_before.len() && (#[trigger] classes_before[i]).id@ == ids_before[x]@;
                        assert(data.classes@[i] == classes_before[i]);
                    } else {
                        assert(data.classes@[cix].id@ == ids@[x]@);
                    }
                }
                assert forall|q: int| 0 <= q < k + 1 && crate::text::trimmed((#[trigger] names@[q])@).len() > 0 implies covered(data.classes@, ids@, names@[q]@) by {
                    if q < k {
                        assert(covered(classes_before, ids_before, names@[q]@));
                        let (j, c) = choose|j: int, c: int| 0 <= j < ids_before.len() && 0 <= c < classes_before.len() && classes_before[c].id@ == ids_before[j]@
                            && names_class(classes_before[c], names@[q]@);
                        assert(0 <= j < ids.len() && 0 <= c < data.classes.len() && data.classes@[c].id@ == ids@[j]@ && names_class(data.classes@[c], names@[q]@));
                        assert(data.classes@[c] == classes_before[c]);
                        assert(ids@[j] == ids_before[j]);
                    }
                    if q == k {
                        assert(0 <= jix < ids.len() && 0 <= cix < data.classes.len() && data.classes@[cix].id@ == ids@[jix]@
                            && names_class(data.classes@[cix], names@[q]@));
                    }
                }
            }
        } else {
            proof {
                lemma_step_blank(ensured(class_views(start), names@.take(k as int), new_ids@), names@[k as int]@, new_ids@[k as int]@);
            }
        }
    }
    assert(names@.take(names.len() as int) =~= names@);
    Ok(ids)
}


/// Whether a class of `cs` has `name` ignoring ASCII case, or the id `id`, read from its classes.
proof fn lemma_class_views_taken(cs: Seq<ClassRecord>, name: Seq<char>, id: Seq<char>)
    ensures
        (exists|i: int| 0 <= i < class_views(cs).len() && crate::text::eq_ignore_ascii_case_spec((#[trigger] class_views(cs)[i]).1, name))
            == crate::detection::name_taken(cs, name, -1),
        (exists|i: int| 0 <= i < class_views(cs).len() && (#[trigger] class_views(cs)[i]).0 == id) == has_class(cs, id),
{
    if crate::detection::name_taken(cs, name, -1) {
        let i = choose|i: int| 0 <= i < cs.len() && i != -1 && crate::text::eq_ignore_ascii_case_spec((#[trigger] cs[i]).name@, name);
        assert(class_views(cs)[i].1 == cs[i].name@);
    }
    if has_class(cs, id) {
        let i = choose|i: int| 0 <= i < cs.len() && (#[trigger] cs[i]).id@ == id;
        assert(class_views(cs)[i].0 == cs[i].id@);
    }
}

/// The lower-cased, trimmed name by which `ensure_classes` looks a class up.
pub open spec fn name_key(name: Seq<char>) -> Seq<char> {
    crate::text::unicode_lowercase(crate::text::trimmed(name))
}

/// Whether making sure of `names` over `cs` needs at most one new class, and can make it: the
/// non-blank names that no class answers all have one key, and each is a valid name that no class
/// has ignoring ASCII case, with room for one more class.
pub open spec fn one_new_class(cs: Seq<ClassRecord>, names: Seq<String>) -> bool {
    &&& forall|a: int, b: int|
        #![trigger names[a], names[b]]
        0 <= a < names.len() && 0 <= b < names.len() && crate::text::trimmed(names[a]@).len() > 0
            && crate::text::trimmed(names[b]@).len() > 0 && last_named(class_views(cs), name_key(names[a]@)) < 0
            && last_named(class_views(cs), name_key(names[b]@)) < 0 ==> name_key(names[a]@) == name_key(names[b]@)
    &&& forall|a: int|
        0 <= a < names.len() && crate::text::trimmed((#[trigger] names[a])@).len() > 0
            && last_named(class_views(cs), name_key(names[a]@)) < 0 ==> {
            &&& crate::detection::valid_class_name_spec(names[a]@) is Some
            &&& !crate::detection::name_taken(cs, crate::detection::valid_class_name_spec(names[a]@)->0, -1)
            &&& cs.len() < i64::MAX
        }
}

proof fn lemma_one_new_class(cs: Seq<ClassRecord>, names: Seq<String>, ids: Seq<String>)
    requires
        crate::detection::no_uuid_class_ids(cs),
        one_new_class(cs, names),
        ids.len() >= names.len(),
        forall|j: int| 0 <= j < names.len() ==> (#[trigger] ids[j])@.len() == 36,
    ensures
        ensured(class_views(cs), names, ids).0,
        ({
            let c = ensured(class_views(cs), names, ids).1;
            ||| c == class_views(cs)
            ||| exists|a: int| 0 <= a < names.len() && crate::text::trimmed((#[trigger] names[a])@).len() > 0
                && last_named(class_views(cs), name_key(names[a]@)) < 0
                && c == class_views(cs).push((ids[a]@, crate::text::trimmed(names[a]@), cs.len() as i64,
                    crate::detection::spectrum_color_spec(cs.len() as int), crate::detection::shortcut_spec(cs.len() as int)))
        }),
    decreases names.len(),
{
    if names.len() > 0 {
        let d = names.drop_last();
        let views = class_views(cs);
        assert forall|a: int, b: int|
            #![trigger d[a], d[b]]
            0 <= a < d.len() && 0 <= b < d.len() && crate::text::trimmed(d[a]@).len() > 0
                && crate::text::trimmed(d[b]@).len() > 0 && last_named(views, name_key(d[a]@)) < 0
                && last_named(views, name_key(d[b]@)) < 0 implies name_key(d[a]@) == name_key(d[b]@) by {
            assert(d[a] == names[a] && d[b] == names[b]);
        }
        assert forall|a: int|
            0 <= a < d.len() && crate::text::trimmed((#[trigger] d[a])@).len() > 0
                && last_named(views, name_key(d[a]@)) < 0 implies {
                &&& crate::detection::valid_class_name_spec(d[a]@) is Some
                &&& !crate::detection::name_taken(cs, crate::detection::valid_class_name_spec(d[a]@)->0, -1)
                &&& cs.len() < i64::MAX
            } by {
            assert(d[a] == names[a]);
        }
        assert forall|j: int| 0 <= j < d.len() implies (#[trigger] ids[j])@.len() == 36 by {
            assert(d[j] == names[j]);
        }
        lemma_one_new_class(cs, d, ids);
        let k = names.len() - 1;
        assert(names[k] == names.last());
        let prev = ensured(views, d, ids);
        let t = crate::text::trimmed(names[k]@);
        let key = crate::text::unicode_lowercase(t);
        assert(ensured(views, names, ids) == ensure_step(prev, names[k]@, ids[k]@));
        if t.len() == 0 {
            lemma_step_blank(prev, names[k]@, ids[k]@);
        } else {
            if last_named(prev.1, key) >= 0 {
                lemma_step_found(prev.1, prev.2, names[k]@, ids[k]@);
            } else {
                lemma_step_new(prev.1, prev.2, names[k]@, ids[k]@);
            }
            if prev.1 == views {
                if last_named(views, key) < 0 {
                    let n = crate::detection::valid_class_name_spec(names[k]@)->0;
                    assert(n == t);
                    lemma_class_views_taken(cs, n, ids[k]@);
                    assert(!(exists|i: int| 0 <= i < views.len() && (#[trigger] views[i]).0 == ids[k]@)) by {
                        if exists|i: int| 0 <= i < views.len() && (#[trigger] views[i]).0 == ids[k]@ {
                            let i = choose|i: int| 0 <= i < views.len() && (#[trigger] views[i]).0 == ids[k]@;
                            assert(views[i].0 == cs[i].id@);
                        }
                    }
                }
            } else {
                let a = choose|a: int| 0 <= a < d.len() && crate::text::trimmed((#[trigger] d[a])@).len() > 0
                    && last_named(views, name_key(d[a]@)) < 0
                    && prev.1 == views.push((ids[a]@, crate::text::trimmed(d[a]@), cs.len() as i64,
                        crate::detection::spectrum_color_spec(cs.len() as int), crate::detection::shortcut_spec(cs.len() as int)));
                assert(d[a] == names[a]);
                let pushed = prev.1;
                assert(pushed.drop_last() =~= views);
                if last_named(views, key) < 0 {
                    assert(name_key(names[a]@) == name_key(names[k]@));
                    assert(last_named(pushed, key) == pushed.len() - 1);
                }
            }
        }
    }
}

/// The ids of the classes named `names`, creating the classes that do not exist yet, each with a
/// new random id, as `ensure_classes_with_ids` does; blank names are skipped and each id is listed
/// once.
pub fn ensure_classes(data: &mut ProjectData, names: &Vec<String>, now: i64) -> (r: Result<Vec<String>, String>)
    requires
        old(data).wf(),
    ensures
        final(data).wf(),
        final(data).classes@.len() >= old(data).classes@.len(),
        forall|i: int| 0 <= i < old(data).classes.len() ==> #[trigger] final(data).classes@[i] == old(data).classes@[i],
        final(data).images == old(data).images,
        final(data).image_classes == old(data).image_classes,
        final(data).annotations == old(data).annotations,
        final(data).history == old(data).history,
        r matches Ok(ids) ==> {
            &&& forall|a: int, b: int| 0 <= a < b < ids.len() ==> (#[trigger] ids@[a])@ != (#[trigger] ids@[b])@
            &&& forall|k: int| 0 <= k < ids.len() ==> has_class(final(data).classes@, (#[trigger] ids@[k])@)
            &&& forall|k: int| 0 <= k < names.len() && crate::text::trimmed((#[trigger] names@[k])@).len() > 0 ==> covered(final(data).classes@, ids@, names@[k]@)
            &&& forall|x: int| 0 <= x < ids.len() ==> named_by(final(data).classes@, names@, (#[trigger] ids@[x])@)
        },
        forall|c: int| old(data).classes.len() <= c < final(data).classes.len() ==> listed_name(names@, #[trigger] final(data).classes@[c]),
        names_known(old(data).classes@, names@) ==> r is Ok && *final(data) == *old(data),
        crate::detection::no_uuid_class_ids(old(data).classes@) && one_new_class(old(data).classes@, names@) ==> r is Ok,
        exists|drawn: Seq<String>| drawn.len() == names.len()
            && (forall|j: int| 0 <= j < drawn.len() ==> (#[trigger] drawn[j])@.len() == 36)
            && (r is Ok <==> ensured(class_views(old(data).classes@), names@, drawn).0)
            && class_views(final(data).classes@) == #[trigger] ensured(class_views(old(data).classes@), names@, drawn).1
            && (r matches Ok(ids) ==> texts(ids@) == ensured(class_views(old(data).classes@), names@, drawn).2),
{
    let new_ids = crate::project::random_ids(names.len());
    let ghost drawn = new_ids@;
    proof {
        if crate::detection::no_uuid_class_ids(data.classes@) && one_new_class(data.classes@, names@) {
            lemma_one_new_class(data.classes@, names@, drawn);
        }
    }
    let r = ensure_classes_with_ids(data, names, &new_ids, now);
    assert(drawn.len() == names.len());
    r
}

/// The file name an exported copy of image `image_id` takes in a class directory: its own name,
/// or `{stem}-{first 8 bytes of the id}.{extension}` where that is taken; `occupied` lists the
/// names the directory holds.
pub fn available_external_path(file_name: &str, image_id: &str, occupied: &Vec<String>) -> (r: String)
    requires
        crate::workspace::is_taken(occupied@, file_name@) ==> crate::paths::prefix_on_boundary(image_id@, 8),
    ensures
        r@ == if !crate::workspace::is_taken(occupied@, file_name@) {
            file_name@
        } else {
            crate::paths::suffixed_name(file_name@, seq!['-'] + crate::paths::byte_prefix(image_id@, 8))
        },
{
    if !crate::workspace::taken(occupied, file_name) {
        return owned(file_name);
    }
    let prefix = crate::paths::prefix_bytes(image_id, 8);
    let mut suffix: Vec<char> = Vec::new();
    suffix.push('-');
    let pv = crate::text::chars_of(prefix.as_str());
    let ghost s0 = suffix@;
    for j in 0..pv.len()
        invariant
            suffix@ == s0 + pv@.take(j as int),
    {
        suffix.push(pv[j]);
        assert(pv@.take(j + 1) == pv@.take(j as int).push(pv@[j as int]));
    }
    assert(pv@.take(pv.len() as int) =~= pv@);
    assert(suffix@ =~= seq!['-'] + crate::paths::byte_prefix(image_id@, 8));
    crate::text::string_of(&crate::paths::suffixed_name_of(&crate::text::chars_of(file_name), &suffix))
}

/// Whether the file at `path` is an image a class directory import takes.
pub fn supported_image(path: &str) -> (r: bool)
    ensures
        r == crate::project::supported_image_spec(path@),
{
    crate::project::is_supported_image(path)
}

/// The normal components of a path joined with `/`.
pub fn normalize_path(path: &str) -> (r: String)
    ensures
        r@ == crate::paths::normalized_spec(path@),
{
    crate::project::normalize_relative_path(path)
}

/// A class-directory import reads into a single-label classification project only.
pub fn require_single_label(data: &ProjectData) -> (r: Result<(), String>)
    ensures
        r is Ok <==> classification_mode_of(data) == Some(ClassificationMode::Single),
{
    match require_classification(data) {
        Err(e) => Err(e),
        Ok(ClassificationMode::Single) => Ok(()),
        Ok(ClassificationMode::Multi) => Err(owned("Class-directory import is only available for single-label projects.")),
    }
}

/// Whether a folder of a class-directory layout names a class: not hidden, not `deleted`.
pub fn class_folder_accepted(name: &str) -> (r: bool)
    ensures
        r == !((name@.len() > 0 && name@[0] == '.') || crate::text::eq_ignore_ascii_case_spec(name@, deleted_name())),
{
    let v = crate::text::chars_of(name);
    let deleted = vec!['d', 'e', 'l', 'e', 't', 'e', 'd'];
    assert(deleted@ =~= deleted_name());
    !((v.len() > 0 && v[0] == '.') || crate::text::eq_ignore_ascii_case(&v, &deleted))
}

/// What one row of an imported CSV asks for.
pub enum CsvRowRequest {
    /// A blank row or the header.
    Ignore,
    /// A row whose path names no active image.
    Unmatched,
    /// The image and the non-blank class names the row gives it.
    Assign { image_id: String, names: Vec<String> },
}

/// The header names a first CSV row may start with.
pub open spec fn header_name(f: Seq<char>) -> bool {
    let l = crate::text::ascii_lowercase_spec(crate::text::trimmed(f));
    l == "relative_path"@ || l == "path"@ || l == "file"@
}

/// The non-blank fields after the first, trimmed.
pub open spec fn row_names(row: Seq<Seq<char>>) -> Seq<Seq<char>> {
    row.skip(1).map_values(|f: Seq<char>| crate::text::trimmed(f)).filter(|f: Seq<char>| f.len() > 0)
}

/// Reads the `index`-th row of an imported CSV.
pub fn csv_row_request(data: &ProjectData, row: &Vec<String>, index: usize) -> (r: CsvRowRequest)
    ensures
        ({
            let fields = texts(row@);
            if row.len() == 0 || (forall|i: int| 0 <= i < fields.len() ==> crate::text::trimmed(#[trigger] fields[i]).len() == 0) {
                r is Ignore
            } else if index == 0 && header_name(fields[0]) {
                r is Ignore
            } else {
                let m = csv_image_match(data.images@, crate::text::trimmed(fields[0]));
                match r {
                    CsvRowRequest::Unmatched => m < 0,
                    CsvRowRequest::Assign { image_id, names } => m >= 0 && image_id == crate::detection::lookup_images(data.images@)[m].id
                        && texts(names@) == row_names(fields),
                    CsvRowRequest::Ignore => false,
                }
            }
        }),
{
    csv_row_request_in(&data.images, row, index)
}

/// Reads the `index`-th row of an imported CSV, naming images among `images`.
pub fn csv_row_request_in(images: &Vec<crate::project::ImageRow>, row: &Vec<String>, index: usize) -> (r: CsvRowRequest)
    ensures
        ({
            let fields = texts(row@);
            if row.len() == 0 || (forall|i: int| 0 <= i < fields.len() ==> crate::text::trimmed(#[trigger] fields[i]).len() == 0) {
                r is Ignore
            } else if index == 0 && header_name(fields[0]) {
                r is Ignore
            } else {
                let m = csv_image_match(images@, crate::text::trimmed(fields[0]));
                match r {
                    CsvRowRequest::Unmatched => m < 0,
                    CsvRowRequest::Assign { image_id, names } => m >= 0 && image_id == crate::detection::lookup_images(images@)[m].id
                        && texts(names@) == row_names(fields),
                    CsvRowRequest::Ignore => false,
                }
            }
        }),
{
    let ghost fields = texts(row@);
    if row.len() == 0 {
        return CsvRowRequest::Ignore;
    }
    let mut blank = true;
    for i in 0..row.len()
        invariant
            fields == texts(row@),
            blank == forall|k: int| 0 <= k < i ==> crate::text::trimmed(#[trigger] fields[k]).len() == 0,
    {
        let t = crate::text::trim_chars(&crate::text::chars_of(row[i].as_str()));
        if t.len() > 0 {
            assert(crate::text::trimmed(fields[i as int]).len() > 0);
            blank = false;
        }
    }
    if blank {
        return CsvRowRequest::Ignore;
    }
    let first = crate::text::trim(row[0].as_str());
    if index == 0 {
        let l = crate::text::ascii_lowercase(&crate::text::chars_of(first.as_str()));
        let a = crate::text::chars_of("relative_path");
        let b = crate::text::chars_of("path");
        let c = crate::text::chars_of("file");
        if crate::text::chars_eq(&l, &a) || crate::text::chars_eq(&l, &b) || crate::text::chars_eq(&l, &c) {
            return CsvRowRequest::Ignore;
        }
    }
    match resolve_in(images, first.as_str()) {
        None => CsvRowRequest::Unmatched,
        Some(image_id) => {
            let ghost rest = fields.skip(1);
            let ghost f = |x: Seq<char>| crate::text::trimmed(x);
            let ghost keep = |x: Seq<char>| x.len() > 0;
            let mut names: Vec<String> = Vec::new();
            let mut i: usize = 1;
            while i < row.len()
                invariant
                    1 <= i <= row.len(),
                    fields == texts(row@),
                    rest == fields.skip(1),
                    f == (|x: Seq<char>| crate::text::trimmed(x)),
                    keep == (|x: Seq<char>| x.len() > 0),
                    texts(names@) == rest.take(i - 1).map_values(f).filter(keep),
                decreases row.len() - i,
            {
                let t = crate::text::trim(row[i].as_str());
                assert(rest[i - 1] == fields[i as int]);
                assert(rest.take(i as int).map_values(f) =~= rest.take(i - 1).map_values(f).push(f(rest[i - 1])));
                proof {
                    crate::detection::lemma_filter_push(rest.take(i - 1).map_values(f), f(rest[i - 1]), keep);
                }
                let tv = crate::text::chars_of(t.as_str());
                if tv.len() > 0 {
                    let ghost before = names@;
                    names.push(t);
                    assert(texts(names@) =~= texts(before).push(f(rest[i - 1])));
                }
                i = i + 1;
            }
            assert(rest.take(rest.len() as int) =~= rest);
            CsvRowRequest::Assign { image_id, names }
        },
    }
}

/// How many distinct texts `v` holds once each is lower-cased.
pub open spec fn distinct_lower(v: Seq<String>) -> int {
    distinct_count(v.map_values(|s: String| crate::text::unicode_lowercase(s@)))
}

/// The report of a label import: `assignments` labels for `matched` images, `skipped` rows or
/// files, and how many distinct class names (ignoring case) `class_names` holds.
pub fn import_report(assignments: usize, matched: usize, skipped: usize, class_names: &Vec<String>, message: String) -> (r: ClassificationReport)
    ensures
        r.assignments == assignments,
        r.matched_images == matched,
        r.skipped == skipped,
        r.classes == distinct_lower(class_names@),
        r.message == message,
{
    let ghost lowered = class_names@.map_values(|s: String| crate::text::unicode_lowercase(s@));
    let mut lows: Vec<String> = Vec::new();
    for i in 0..class_names.len()
        invariant
            lows.len() == i,
            lowered == class_names@.map_values(|s: String| crate::text::unicode_lowercase(s@)),
            forall|k: int| 0 <= k < i ==> (#[trigger] lows@[k])@ == lowered[k],
    {
        lows.push(crate::text::lowercase(class_names[i].as_str()));
    }
    let mut n: usize = 0;
    for i in 0..lows.len()
        invariant
            lows.len() == class_names.len(),
            lowered.len() == class_names.len(),
            forall|k: int| 0 <= k < lows.len() ==> (#[trigger] lows@[k])@ == lowered[k],
            n == distinct_count(lowered.take(i as int)),
            n <= i,
    {
        let ghost prev = lowered.take(i as int);
        assert(lowered.take(i + 1).drop_last() =~= prev);
        assert(lowered.take(i + 1).last() == lowered[i as int]);
        let mut seen = false;
        for j in 0..i
            invariant
                i < lows.len(),
                lows.len() == lowered.len(),
                forall|k: int| 0 <= k < lows.len() ==> (#[trigger] lows@[k])@ == lowered[k],
                prev == lowered.take(i as int),
                seen == exists|k: int| 0 <= k < j && prev[k] == lowered[i as int],
        {
            assert(prev[j as int] == lowered[j as int]);
            if lows[j] == lows[i] {
                seen = true;
            }
            assert(seen == exists|k: int| 0 <= k < j + 1 && prev[k] == lowered[i as int]) by {
                if exists|k: int| 0 <= k < j + 1 && prev[k] == lowered[i as int] {
                    let k = choose|k: int| 0 <= k < j + 1 && prev[k] == lowered[i as int];
                    if k < j {
                    }
                }
            }
        }
        proof {
            lemma_distinct_count_bound(prev);
            if prev.contains(lowered[i as int]) {
                let k = choose|k: int| 0 <= k < prev.len() && prev[k] == lowered[i as int];
                assert(seen);
            }
        }
        if !seen {
            n = n + 1;
        }
    }
    assert(lowered.take(lowered.len() as int) =~= lowered);
    ClassificationReport { assignments, matched_images: matched, skipped, classes: n, message }
}

/// The running counts of a label import: labels applied, images matched, rows or files skipped,
/// and the class names met.
pub struct ImportTally {
    pub assignments: usize,
    pub matched: usize,
    pub skipped: usize,
    pub class_names: Vec<String>,
}

/// The message of a CSV import.
pub open spec fn csv_import_message(assignments: nat, matched: nat, skipped: nat) -> Seq<char> {
    "Imported "@ + decimal(assignments) + " assignments for "@ + decimal(matched) + " images; skipped "@
        + decimal(skipped) + "."@
}

/// The message of a class-directory import.
pub open spec fn directory_import_message(matched: nat, skipped: nat) -> Seq<char> {
    "Imported "@ + decimal(matched) + " class-directory assignments; skipped "@ + decimal(skipped) + "."@
}

impl ImportTally {
    /// Nothing counted yet.
    pub fn new() -> (r: ImportTally)
        ensures
            r.assignments == 0,
            r.matched == 0,
            r.skipped == 0,
            r.class_names@ == Seq::<String>::empty(),
    {
        ImportTally { assignments: 0, matched: 0, skipped: 0, class_names: Vec::new() }
    }

    /// A row or file that found no image, or whose labels could not be applied.
    pub fn skip(&mut self)
        requires
            old(self).skipped < usize::MAX,
        ensures
            final(self).skipped == old(self).skipped + 1,
            final(self).assignments == old(self).assignments,
            final(self).matched == old(self).matched,
            final(self).class_names == old(self).class_names,
    {
        self.skipped = self.skipped + 1;
    }

    /// A class name met, whether or not an image takes it.
    pub fn meet_class(&mut self, name: String)
        ensures
            final(self).class_names@ == old(self).class_names@.push(name),
            final(self).assignments == old(self).assignments,
            final(self).matched == old(self).matched,
            final(self).skipped == old(self).skipped,
    {
        self.class_names.push(name);
    }

    /// An image that took the labels `names`; each name is met.
    pub fn assign(&mut self, names: Vec<String>)
        requires
            old(self).matched < usize::MAX,
            old(self).assignments + names.len() <= usize::MAX,
        ensures
            final(self).matched == old(self).matched + 1,
            final(self).assignments == old(self).assignments + names.len(),
            final(self).skipped == old(self).skipped,
            final(self).class_names@ == old(self).class_names@ + names@,
    {
        self.matched = self.matched + 1;
        self.assignments = self.assignments + names.len();
        let ghost start = self.class_names@;
        for i in 0..names.len()
            invariant
                self.class_names@ == start + names@.take(i as int),
                start == old(self).class_names@,
                self.matched == old(self).matched + 1,
                self.assignments == old(self).assignments + names.len(),
                self.skipped == old(self).skipped,
        {
            self.class_names.push(names[i].clone());
            assert(names@.take(i + 1) =~= names@.take(i as int).push(names@[i as int]));
            assert(self.class_names@ =~= start + names@.take(i + 1));
        }
        assert(names@.take(names.len() as int) =~= names@);
    }

    /// The report of a CSV import.
    pub fn csv_report(&self) -> (r: ClassificationReport)
        ensures
            r.assignments == self.assignments,
            r.matched_images == self.matched,
            r.skipped == self.skipped,
            r.classes == distinct_lower(self.class_names@),
            r.message@ == csv_import_message(self.assignments as nat, self.matched as nat, self.skipped as nat),
    {
        let mut message = owned("Imported ");
        crate::text::push_all(&mut message, crate::text::string_of(&decimal_text(self.assignments)).as_str());
        crate::text::push_all(&mut message, " assignments for ");
        crate::text::push_all(&mut message, crate::text::string_of(&decimal_text(self.matched)).as_str());
        crate::text::push_all(&mut message, " images; skipped ");
        crate::text::push_all(&mut message, crate::text::string_of(&decimal_text(self.skipped)).as_str());
        crate::text::push_all(&mut message, ".");
        import_report(self.assignments, self.matched, self.skipped, &self.class_names, message)
    }

    /// The report of a class-directory import: each matched image is one assignment.
    pub fn directory_report(&self) -> (r: ClassificationReport)
        ensures
            r.assignments == self.matched,
            r.matched_images == self.matched,
            r.skipped == self.skipped,
            r.classes == distinct_lower(self.class_names@),
            r.message@ == directory_import_message(self.matched as nat, self.skipped as nat),
    {
        let mut message = owned("Imported ");
        crate::text::push_all(&mut message, crate::text::string_of(&decimal_text(self.matched)).as_str());
        crate::text::push_all(&mut message, " class-directory assignments; skipped ");
        crate::text::push_all(&mut message, crate::text::string_of(&decimal_text(self.skipped)).as_str());
        crate::text::push_all(&mut message, ".");
        import_report(self.matched, self.matched, self.skipped, &self.class_names, message)
    }
}


proof fn lemma_ids_where_ext(classes: Seq<ClassRecord>, k1: spec_fn(Seq<char>) -> bool, k2: spec_fn(Seq<char>) -> bool)
    requires
        forall|i: int| 0 <= i < classes.len() ==> k1((#[trigger] classes[i]).id@) == k2(classes[i].id@),
    ensures
        ids_where(classes, k1) == ids_where(classes, k2),
    decreases classes.len(),
{
    if classes.len() > 0 {
        let d = classes.drop_last();
        assert forall|i: int| 0 <= i < d.len() implies k1((#[trigger] d[i]).id@) == k2(d[i].id@) by {
            assert(d[i] == classes[i]);
        }
        lemma_ids_where_ext(d, k1, k2);
        assert(k1(classes[classes.len() - 1].id@) == k2(classes[classes.len() - 1].id@));
    }
}

proof fn lemma_ids_where_member(classes: Seq<ClassRecord>, keep: spec_fn(Seq<char>) -> bool, i: int)
    requires
        crate::project::classes_wf(classes),
        0 <= i < classes.len(),
    ensures
        ids_where(classes, keep).contains(classes[i].id@) <==> keep(classes[i].id@),
    decreases classes.len(),
{
    let d = classes.drop_last();
    assert(crate::project::classes_wf(d)) by {
        assert forall|x: int| 0 <= x < d.len() implies #[trigger] d[x].position == x by {
            assert(d[x] == classes[x]);
        }
    }
    lemma_ids_where(d, keep);
    let prev = ids_where(d, keep);
    if i < classes.len() - 1 {
        assert(d[i] == classes[i]);
        lemma_ids_where_member(d, keep, i);
        if keep(classes.last().id@) {
            assert(classes.last().id@ != classes[i].id@);
            if prev.push(classes.last().id@).contains(classes[i].id@) {
                let k = choose|k: int| 0 <= k < prev.len() + 1 && prev.push(classes.last().id@)[k] == classes[i].id@;
                assert(k < prev.len());
                assert(prev.contains(classes[i].id@));
            }
            if prev.contains(classes[i].id@) {
                let k = choose|k: int| 0 <= k < prev.len() && prev[k] == classes[i].id@;
                assert(prev.push(classes.last().id@)[k] == classes[i].id@);
            }
        }
    } else {
        if prev.contains(classes[i].id@) {
            let k = choose|k: int| 0 <= k < prev.len() && prev[k] == classes[i].id@;
            assert(has_class(d, prev[k]));
            let j = choose|j: int| 0 <= j < d.len() && (#[trigger] d[j]).id@ == prev[k];
            assert(classes[j].id@ == classes[i].id@);
        }
        if keep(classes[i].id@) {
            assert(ids_where(classes, keep)[prev.len() as int] == classes[i].id@);
        }
    }
}

proof fn lemma_assigned_views(links: Seq<ImageClassRow>, image_id: Seq<char>, c: Seq<char>)
    ensures
        is_assigned(links, image_id, c) <==> exists|k: int| 0 <= k < link_views(links).len() && (#[trigger] link_views(links)[k]).0 == image_id && link_views(links)[k].1 == c,
{
    if is_assigned(links, image_id, c) {
        let i = choose|i: int| 0 <= i < links.len() && (#[trigger] links[i]).image_id@ == image_id && links[i].class_id@ == c;
        assert(link_views(links)[i].0 == image_id && link_views(links)[i].1 == c);
    }
    if exists|k: int| 0 <= k < link_views(links).len() && (#[trigger] link_views(links)[k]).0 == image_id && link_views(links)[k].1 == c {
        let k = choose|k: int| 0 <= k < link_views(links).len() && (#[trigger] link_views(links)[k]).0 == image_id && link_views(links)[k].1 == c;
        assert(links[k].image_id@ == image_id && links[k].class_id@ == c);
    }
}

proof fn lemma_relabeled_assigned(links: Seq<ImageClassRow>, after: Seq<ImageClassRow>, image_id: Seq<char>, ids: Seq<Seq<char>>, now: i64, c: Seq<char>)
    requires
        link_views(after) == relabeled_links(links, image_id, ids, now),
    ensures
        is_assigned(after, image_id, c) <==> ids.contains(c),
{
    lemma_assigned_views(after, image_id, c);
    let kept = link_views(links).filter(other_image(image_id));
    let added = ids.map_values(|id: Seq<char>| (image_id, id, now));
    let v = link_views(after);
    if exists|k: int| 0 <= k < v.len() && (#[trigger] v[k]).0 == image_id && v[k].1 == c {
        let k = choose|k: int| 0 <= k < v.len() && (#[trigger] v[k]).0 == image_id && v[k].1 == c;
        if k < kept.len() {
            assert(v[k] == kept[k]);
            link_views(links).lemma_filter_pred(other_image(image_id), k);
            assert(false);
        } else {
            assert(v[k] == added[k - kept.len()]);
            assert(ids[k - kept.len()] == c);
        }
    }
    if ids.contains(c) {
        let j = choose|j: int| 0 <= j < ids.len() && ids[j] == c;
        assert(v[kept.len() + j] == added[j]);
        assert(v[kept.len() + j].0 == image_id && v[kept.len() + j].1 == c);
    }
}

proof fn lemma_filter_twice<A>(s: Seq<A>, p: spec_fn(A) -> bool)
    ensures
        s.filter(p).filter(p) == s.filter(p),
    decreases s.len(),
{
    if s.len() > 0 {
        lemma_filter_twice(s.drop_last(), p);
        crate::detection::lemma_filter_push(s.drop_last(), s.last(), p);
        assert(s.drop_last().push(s.last()) =~= s);
        if p(s.last()) {
            crate::detection::lemma_filter_push(s.drop_last().filter(p), s.last(), p);
        }
    }
}

proof fn lemma_ids_where_picks(classes: Seq<ClassRecord>, keep: spec_fn(Seq<char>) -> bool, i: int)
    requires
        0 <= i < classes.len(),
        keep(classes[i].id@),
    ensures
        exists|k: int| 0 <= k < ids_where(classes, keep).len() && #[trigger] ids_where(classes, keep)[k] == classes[i].id@,
    decreases classes.len(),
{
    let d = classes.drop_last();
    let prev = ids_where(d, keep);
    if i < classes.len() - 1 {
        assert(d[i] == classes[i]);
        lemma_ids_where_picks(d, keep, i);
        let k = choose|k: int| 0 <= k < prev.len() && #[trigger] prev[k] == d[i].id@;
        if keep(classes.last().id@) {
            assert(ids_where(classes, keep)[k] == prev[k]);
        } else {
            assert(ids_where(classes, keep) == prev);
            assert(ids_where(classes, keep)[k] == prev[k]);
        }
    } else {
        assert(ids_where(classes, keep)[prev.len() as int] == classes[i].id@);
    }
}

/// Relabeling an image gives it exactly the classes asked for: once the labels of `image_id` are
/// replaced by the class ids that `class_ids` lists, the classes of the image are those ids, in
/// class order. So asking for the same classes again finds nothing to change.
pub proof fn law_relabel_sets_classes(
    classes: Seq<ClassRecord>,
    links: Seq<ImageClassRow>,
    new_links: Seq<ImageClassRow>,
    image_id: Seq<char>,
    class_ids: Seq<String>,
    now: i64,
)
    requires
        link_views(new_links) == relabeled_links(
            links,
            image_id,
            ids_where(classes, |c: Seq<char>| lists(class_ids, c)),
            now,
        ),
    ensures
        ids_where(classes, |c: Seq<char>| is_assigned(new_links, image_id, c))
            == ids_where(classes, |c: Seq<char>| lists(class_ids, c)),
{
    let asked = |c: Seq<char>| lists(class_ids, c);
    let held = |c: Seq<char>| is_assigned(new_links, image_id, c);
    let requested = ids_where(classes, asked);
    let others = link_views(links).filter(other_image(image_id));
    let tail = requested.map_values(|id: Seq<char>| (image_id, id, now));
    lemma_ids_where(classes, asked);
    assert(link_views(new_links).len() == new_links.len());
    assert forall|i: int| 0 <= i < classes.len() implies held((#[trigger] classes[i]).id@) == asked(classes[i].id@) by {
        let c = classes[i].id@;
        if held(c) {
            let j = choose|j: int| 0 <= j < new_links.len() && (#[trigger] new_links[j]).image_id@ == image_id
                && new_links[j].class_id@ == c;
            assert(link_views(new_links)[j] == link_view(new_links[j]));
            if j < others.len() {
                crate::detection::lemma_filter_member(link_views(links), other_image(image_id), j);
                assert((others + tail)[j] == others[j]);
            } else {
                let k = j - others.len();
                assert((others + tail)[j] == tail[k]);
                assert(requested[k] == c);
                assert(asked(requested[k]));
            }
        }
        if asked(c) {
            lemma_ids_where_picks(classes, asked, i);
            let k = choose|k: int| 0 <= k < requested.len() && #[trigger] requested[k] == c;
            let j = others.len() + k;
            assert((others + tail)[j] == tail[k]);
            assert(link_views(new_links)[j] == link_view(new_links[j]));
            assert(new_links[j].image_id@ == image_id && new_links[j].class_id@ == c);
        }
    }
    lemma_ids_where_ext(classes, held, asked);
}

/// Asking again for the classes an image was just given finds nothing to change: once its labels
/// are replaced by the classes that `class_ids` lists, the classes `set_image_classes` reads for
/// the image are exactly the ones it is asked for, so a second call with `class_ids` returns
/// `Done` and leaves the project as it is.
pub proof fn law_set_same_classes_again(old: ProjectData, new: ProjectData, image_id: Seq<char>, class_ids: Seq<String>, now: i64)
    requires
        new.classes == old.classes,
        link_views(new.image_classes@) == relabeled_links(
            old.image_classes@,
            image_id,
            ids_where(old.classes@, |c: Seq<char>| lists(class_ids, c)),
            now,
        ),
    ensures
        image_class_ids_spec(&new, image_id) == ids_where(new.classes@, |c: Seq<char>| lists(class_ids, c)),
{
    law_relabel_sets_classes(old.classes@, old.image_classes@, new.image_classes@, image_id, class_ids, now);
}

/// Single-label filing and its return: an image whose first path was `original` goes, when it
/// takes the class `class_id`, to `{class directory}/{file name of original}` wherever it sits now
/// (also in another class's directory), that path being free; and when it later loses its class it
/// goes back to `original`, that path being free.
pub proof fn law_single_label_filing(
    classes: Seq<ClassRecord>,
    current: Seq<char>,
    original: Seq<char>,
    class_id: Seq<char>,
    image_id: Seq<char>,
    occupied: Seq<String>,
    later: Seq<char>,
    later_occupied: Seq<String>,
)
    requires
        class_directory_spec(class_name_of(classes, class_id)) is Some,
        ({
            let p = class_directory_spec(class_name_of(classes, class_id))->0 + seq!['/'] + file_name_or_path(original);
            p != current ==> crate::paths::is_valid_relative(p) && !crate::workspace::is_taken(occupied, p)
        }),
        original != later ==> crate::paths::is_valid_relative(original) && !crate::workspace::is_taken(later_occupied, original),
    ensures
        filed_destination(classes, current, original, Some(class_id), image_id, occupied) == Some(
            class_directory_spec(class_name_of(classes, class_id))->0 + seq!['/'] + file_name_or_path(original),
        ),
        filed_destination(classes, later, original, None, image_id, later_occupied) == Some(original),
{
}

/// Relabeling an image again, after its labels were replaced once, gives the labels that relabeling
/// the first table would have given: the first replacement leaves no trace.
pub proof fn lemma_relabel_twice(
    links: Seq<ImageClassRow>,
    between: Seq<ImageClassRow>,
    image_id: Seq<char>,
    first: Seq<Seq<char>>,
    second: Seq<Seq<char>>,
    t1: i64,
    t2: i64,
)
    requires
        link_views(between) == relabeled_links(links, image_id, first, t1),
    ensures
        relabeled_links(between, image_id, second, t2) == relabeled_links(links, image_id, second, t2),
{
    let p = other_image(image_id);
    let kept = link_views(links).filter(p);
    let tail = first.map_values(|id: Seq<char>| (image_id, id, t1));
    Seq::filter_distributes_over_add(kept, tail, p);
    lemma_filter_twice(link_views(links), p);
    assert(tail.all(|x: (Seq<char>, Seq<char>, i64)| !p(x))) by {
        assert forall|i: int| 0 <= i < tail.len() implies !p(#[trigger] tail[i]) by {}
    }
    tail.lemma_all_neg_filter_empty(p);
    assert(tail.filter(p) =~= Seq::<(Seq<char>, Seq<char>, i64)>::empty());
    assert(link_views(between).filter(p) =~= kept);
}

/// Undoing a change of the classes of an image gives it back the classes it had, and leaves the
/// labels of every other image as they were: the change replaced its labels by `after`, the undo
/// replaces them by the ones it had before.
pub proof fn law_relabel_undo(
    classes: Seq<ClassRecord>,
    links: Seq<ImageClassRow>,
    changed: Seq<ImageClassRow>,
    restored: Seq<ImageClassRow>,
    image_id: Seq<char>,
    after: Seq<Seq<char>>,
    t1: i64,
    t2: i64,
)
    requires
        crate::project::classes_wf(classes),
        link_views(changed) == relabeled_links(links, image_id, after, t1),
        link_views(restored) == relabeled_links(
            changed,
            image_id,
            ids_where(classes, |c: Seq<char>| is_assigned(links, image_id, c)),
            t2,
        ),
    ensures
        ids_where(classes, |c: Seq<char>| is_assigned(restored, image_id, c)) == ids_where(
            classes,
            |c: Seq<char>| is_assigned(links, image_id, c),
        ),
        link_views(restored).filter(other_image(image_id)) == link_views(links).filter(other_image(image_id)),
{
    let before = ids_where(classes, |c: Seq<char>| is_assigned(links, image_id, c));
    assert forall|i: int| 0 <= i < classes.len() implies (|c: Seq<char>| is_assigned(restored, image_id, c))((#[trigger] classes[i]).id@)
        == (|c: Seq<char>| is_assigned(links, image_id, c))(classes[i].id@) by {
        lemma_relabeled_assigned(changed, restored, image_id, before, t2, classes[i].id@);
        lemma_ids_where_member(classes, |c: Seq<char>| is_assigned(links, image_id, c), i);
    }
    lemma_ids_where_ext(classes, |c: Seq<char>| is_assigned(restored, image_id, c), |c: Seq<char>| is_assigned(links, image_id, c));
    let p = other_image(image_id);
    let m1 = after.map_values(|id: Seq<char>| (image_id, id, t1));
    let m2 = before.map_values(|id: Seq<char>| (image_id, id, t2));
    Seq::filter_distributes_over_add(link_views(links).filter(p), m1, p);
    Seq::filter_distributes_over_add(link_views(changed).filter(p), m2, p);
    lemma_filter_twice(link_views(links), p);
    lemma_filter_twice(link_views(changed), p);
    assert(m1.filter(p).len() == 0) by {
        m1.lemma_all_neg_filter_empty(p);
    }
    assert(m2.filter(p).len() == 0) by {
        m2.lemma_all_neg_filter_empty(p);
    }
    assert(link_views(changed).filter(p) =~= link_views(links).filter(p));
    assert(link_views(restored).filter(p) =~= link_views(changed).filter(p));
}

} // verus!
