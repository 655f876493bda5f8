//! The list of recently opened projects.
use vstd::prelude::*;
use crate::detection::clone_opt_text;
use crate::project::ProjectSummary;

verus! {

/// A project in the list of recent projects.
#[derive(Debug, Clone)]
pub struct RecentProject {
    pub name: String,
    pub root_path: String,
    pub task_type: String,
    pub last_opened_at_ms: i64,
    pub available: bool,
    pub preview_image_id: Option<String>,
}

/// The list holds at most this many projects.
pub const MAX_RECENT_PROJECTS: usize = 12;

/// Newer projects first; projects opened at the same time keep their order.
pub open spec fn opened_later() -> spec_fn(RecentProject, RecentProject) -> bool {
    |a: RecentProject, b: RecentProject| a.last_opened_at_ms > b.last_opened_at_ms
}

fn copy_recent(r: &RecentProject) -> (out: RecentProject)
    ensures
        out == *r,
{
    RecentProject {
        name: r.name.clone(),
        root_path: r.root_path.clone(),
        task_type: r.task_type.clone(),
        last_opened_at_ms: r.last_opened_at_ms,
        available: r.available,
        preview_image_id: clone_opt_text(&r.preview_image_id),
    }
}

/// The recent projects, most recently opened first.
pub fn sort_recent(projects: &Vec<RecentProject>) -> (r: Vec<RecentProject>)
    ensures
        r@ == crate::text::stable_sorted(projects@, opened_later()),
{
    let mut items: Vec<RecentProject> = Vec::new();
    for i in 0..projects.len()
        invariant
            items@ == crate::text::stable_sorted(projects@.take(i as int), opened_later()),
    {
        let x = copy_recent(&projects[i]);
        let ghost p = items@;
        let mut j: usize = 0;
        proof {
            assert(p.subrange(0, p.len() as int) =~= p);
        }
        while j < items.len() && !(x.last_opened_at_ms > items[j].last_opened_at_ms)
            invariant
                j <= items.len(),
                items@ == p,
                crate::text::insert_pos(p, x, opened_later()) == j + crate::text::insert_pos(
                    p.subrange(j as int, p.len() as int),
                    x,
                    opened_later(),
                ),
            decreases items.len() - j,
        {
            proof {
                crate::text::lemma_insert_pos_step(p, x, opened_later(), j as int);
            }
            j = j + 1;
        }
        proof {
            if j < items.len() {
                assert(p.subrange(j as int, p.len() as int)[0] == p[j as int]);
            }
            assert(projects@.take(i + 1).drop_last() =~= projects@.take(i as int));
            assert(projects@.take(i + 1).last() == projects@[i as int]);
        }
        items.insert(j, x);
    }
    assert(projects@.take(projects.len() as int) =~= projects@);
    items
}

/// Whether a listed project is at another root than `root`.
pub open spec fn other_root(root: Seq<char>) -> spec_fn(RecentProject) -> bool {
    |r: RecentProject| r.root_path@ != root
}

/// The entry a project gets when it is opened.
pub open spec fn entry_for(r: RecentProject, project: ProjectSummary, preview: Option<String>) -> bool {
    &&& r.name == project.name
    &&& r.root_path == project.root_path
    &&& r.task_type == project.task_type
    &&& r.last_opened_at_ms == project.updated_at_ms
    &&& r.available
    &&& r.preview_image_id == preview
}

/// The list once `project` is opened: its entry first, the other projects after it in their
/// order, at most twelve in all.
pub fn remember(projects: &Vec<RecentProject>, project: &ProjectSummary, preview_image_id: Option<String>) -> (r: Vec<RecentProject>)
    ensures
        ({
            let others = projects@.filter(other_root(project.root_path@));
            &&& r.len() == if others.len() + 1 < MAX_RECENT_PROJECTS { (others.len() + 1) as int } else { MAX_RECENT_PROJECTS as int }
            &&& entry_for(r@[0], *project, preview_image_id)
            &&& forall|i: int| 1 <= i < r.len() ==> #[trigger] r@[i] == others[i - 1]
        }),
{
    let ghost pred = other_root(project.root_path@);
    let mut out: Vec<RecentProject> = Vec::new();
    out.push(RecentProject {
        name: project.name.clone(),
        root_path: project.root_path.clone(),
        task_type: project.task_type.clone(),
        last_opened_at_ms: project.updated_at_ms,
        available: true,
        preview_image_id,
    });
    let ghost first = out@[0];
    let mut i: usize = 0;
    while i < projects.len()
        invariant
            i <= projects.len(),
            pred == other_root(project.root_path@),
            out.len() >= 1,
            out@[0] == first,
            out@.skip(1) == projects@.take(i as int).filter(pred),
        decreases projects.len() - i,
    {
        assert(projects@.take(i + 1) =~= projects@.take(i as int).push(projects@[i as int]));
        proof {
            crate::detection::lemma_filter_push(projects@.take(i as int), projects@[i as int], pred);
        }
        if projects[i].root_path != project.root_path {
            let ghost before = out@;
            out.push(copy_recent(&projects[i]));
            assert(out@.skip(1) =~= before.skip(1).push(projects@[i as int]));
        }
        i = i + 1;
    }
    assert(projects@.take(projects.len() as int) =~= projects@);
    let ghost full = out@;
    out.truncate(MAX_RECENT_PROJECTS);
    proof {
        assert forall|k: int| 1 <= k < out.len() implies #[trigger] out@[k] == projects@.filter(pred)[k - 1] by {
            assert(out@[k] == full[k]);
            assert(full.skip(1)[k - 1] == full[k]);
        }
    }
    out
}

/// Where the list of recent projects is read from.
#[derive(Clone, Copy, Debug, PartialEq, Eq, Structural)]
pub enum RecentSource {
    /// The list of this application.
    Current,
    /// The list an earlier release kept, when this application has none yet.
    Legacy,
    /// No list yet.
    Nothing,
}

/// Where the list of recent projects is read from, given which files exist.
pub fn recent_source(current_exists: bool, legacy_exists: bool) -> (r: RecentSource)
    ensures
        r == if current_exists {
            RecentSource::Current
        } else if legacy_exists {
            RecentSource::Legacy
        } else {
            RecentSource::Nothing
        },
{
    if current_exists {
        RecentSource::Current
    } else if legacy_exists {
        RecentSource::Legacy
    } else {
        RecentSource::Nothing
    }
}

} // verus!
