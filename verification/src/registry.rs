//! Per-workspace state shared across editors:
//!
//! - the comment store holds the workspace's comment threads;
//! - [`ChangeTracker`] holds the currently-active [`ChangeId`] resolved by
//!   the configured code-review provider; the editor uses it to filter
//!   which threads render.

use std::collections::HashMap;
use vstd::prelude::*;
#[allow(unused_imports)]
use crate::comment;
use crate::comment::{ChangeId, same_change};
use crate::comment_store::WorkspaceId;

verus! {

/// One handle for each workspace.
#[verifier::reject_recursive_types(H)]
pub struct WorkspaceTable<H> {
    handles: HashMap<i64, H>,
}

impl<H> View for WorkspaceTable<H> {
    type V = Map<i64, H>;

    closed spec fn view(&self) -> Map<i64, H> {
        self.handles@
    }
}

/// Whether a table kept a workspace's handle, or got it from `create` on first
/// use.
pub open spec fn keeps_handle<H, F: FnOnce(WorkspaceId) -> H>(
    before: Map<i64, H>,
    after: Map<i64, H>,
    id: WorkspaceId,
    create: F,
    handle: H,
) -> bool {
    if before.contains_key(id.0) {
        after == before && handle == before[id.0]
    } else {
        create.ensures((id,), handle) && after == before.insert(id.0, handle)
    }
}

/// Whether a table gave the handle of a workspace that has a database id; one
/// without has none.
pub open spec fn gives_handle<H, F: FnOnce(WorkspaceId) -> H>(
    before: Map<i64, H>,
    after: Map<i64, H>,
    database_id: Option<WorkspaceId>,
    create: F,
    handle: Option<&H>,
) -> bool {
    match database_id {
        Some(id) => handle is Some && keeps_handle(before, after, id, create, *handle->0),
        None => handle is None && after == before,
    }
}

impl<H> WorkspaceTable<H> {
    /// A table without handles.
    pub fn new() -> (r: Self)
        ensures
            r@ == Map::<i64, H>::empty(),
    {
        WorkspaceTable { handles: HashMap::new() }
    }

    /// The handle of a workspace, created and kept on first use.
    pub fn get_or_create<F>(&mut self, id: WorkspaceId, create: F) -> (r: &H) where
        F: FnOnce(WorkspaceId) -> H,

        requires
            !old(self)@.contains_key(id.0) ==> create.requires((id,)),
        ensures
            keeps_handle(old(self)@, final(self)@, id, create, *r),
    {
        broadcast use vstd::std_specs::hash::group_hash_axioms;

        if !self.handles.contains_key(&id.0) {
            let handle = create(id);
            self.handles.insert(id.0, handle);
        }
        self.handles.get(&id.0).unwrap()
    }
}

/// Returns the handle of the comment store of a workspace, creating and
/// caching it on first use. Returns `None` for workspaces with no database id
/// (e.g. ones that were never persisted), since comments are workspace-local.
pub fn comment_store<'a, H, F>(
    stores: &'a mut WorkspaceTable<H>,
    database_id: Option<WorkspaceId>,
    create: F,
) -> (r: Option<&'a H>) where F: FnOnce(WorkspaceId) -> H,
    requires
        database_id matches Some(id) ==> !old(stores)@.contains_key(id.0) ==> create.requires(
            (id,),
        ),
    ensures
        gives_handle(old(stores)@, final(stores)@, database_id, create, r),
{
    match database_id {
        Some(id) => Some(stores.get_or_create(id, create)),
        None => None,
    }
}

/// Returns the handle of the [`ChangeTracker`] of a workspace, creating and
/// caching it on first use. Returns `None` for workspaces with no database id,
/// matching the [`comment_store`] scoping.
pub fn change_tracker<'a, H, F>(
    trackers: &'a mut WorkspaceTable<H>,
    database_id: Option<WorkspaceId>,
    create: F,
) -> (r: Option<&'a H>) where F: FnOnce(WorkspaceId) -> H,
    requires
        database_id matches Some(id) ==> !old(trackers)@.contains_key(id.0) ==> create.requires(
            (id,),
        ),
    ensures
        gives_handle(old(trackers)@, final(trackers)@, database_id, create, r),
{
    match database_id {
        Some(id) => Some(trackers.get_or_create(id, create)),
        None => None,
    }
}

/// The code-review change currently under review in a worktree. Editors
/// observe it and re-render when the active change changes (e.g. on branch
/// switch).
pub struct ChangeTracker {
    current_change_id: Option<ChangeId>,
}

impl View for ChangeTracker {
    type V = Option<Seq<char>>;

    closed spec fn view(&self) -> Option<Seq<char>> {
        comment::change_text(self.current_change_id)
    }
}

/// Emitted whenever the active change changes. Observers re-read
/// `ChangeTracker::current_change_id` to get the new value.
#[derive(Clone, Copy, PartialEq, Eq, Structural, Debug)]
pub struct CurrentChangeChanged;

impl ChangeTracker {
    /// A tracker without an active change.
    pub fn new() -> (r: Self)
        ensures
            r@ is None,
    {
        ChangeTracker { current_change_id: None }
    }

    pub fn current_change_id(&self) -> (r: Option<&ChangeId>)
        ensures
            match r {
                Some(id) => self@ == Some(id@),
                None => self@ is None,
            },
    {
        match &self.current_change_id {
            Some(id) => Some(id),
            None => None,
        }
    }

    /// Updates the tracked change id and emits [`CurrentChangeChanged`] when
    /// the value actually moves.
    pub fn set_current_change_id(&mut self, change_id: Option<ChangeId>) -> (event: Option<
        CurrentChangeChanged,
    >)
        ensures
            final(self)@ == comment::change_text(change_id),
            event == (if old(self)@ == comment::change_text(change_id) {
                None
            } else {
                Some(CurrentChangeChanged)
            }),
    {
        if same_change(&self.current_change_id, &change_id) {
            return None;
        }
        self.current_change_id = change_id;
        Some(CurrentChangeChanged)
    }
}

/// What to do about the active change of a workspace.
#[derive(Clone, Copy, PartialEq, Eq, Structural, Debug)]
pub enum ChangeDetection {
    /// No provider is registered: no change is active.
    Clear,
    /// The workspace has no worktree: leave the active change as it is.
    Leave,
    /// Ask the provider.
    Ask,
}

/// Decides how the active change of a workspace is found out.
pub fn plan_detection(has_provider: bool, has_worktree: bool) -> (r: ChangeDetection)
    ensures
        r == (if !has_provider {
            ChangeDetection::Clear
        } else if !has_worktree {
            ChangeDetection::Leave
        } else {
            ChangeDetection::Ask
        }),
{
    if !has_provider {
        ChangeDetection::Clear
    } else if !has_worktree {
        ChangeDetection::Leave
    } else {
        ChangeDetection::Ask
    }
}

/// The change that is active after a provider was asked. A provider that
/// failed or found none leaves no change active.
pub fn detected_change(reply: Result<Option<ChangeId>, ()>) -> (r: Option<ChangeId>)
    ensures
        comment::change_text(r) == (match reply {
            Ok(change) => comment::change_text(change),
            Err(_) => None,
        }),
{
    match reply {
        Ok(change) => change,
        Err(_) => None,
    }
}

} // verus!
