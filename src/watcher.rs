use vstd::prelude::*;

use crate::paths::{beneath, is_beneath};
use crate::store::texts;

verus! {

/// A filesystem change notification, with the paths it names.
pub enum Notification {
    Create(Vec<String>),
    Remove(Vec<String>),
    Modify(Vec<String>),
    /// Any other kind of change.
    Other,
    /// The subscription failed to deliver a notification.
    Failed,
}

/// The life of one vault's watcher.
#[derive(Debug, Clone, Copy, PartialEq, Eq, Structural)]
pub enum WatcherState {
    Starting,
    Watching,
    Stopped,
}

/// What the watcher does with one notification.
pub enum WatchAction {
    /// Apply the single-path reconciliation rule to each path, in order.
    Reconcile(Vec<String>),
    /// Delete the records at these paths, and everything beneath them.
    Delete(Vec<String>),
    Nothing,
    /// Stop watching the vault.
    Stop,
}

/// The paths strictly beneath `root`.
pub open spec fn inside(root: Seq<char>) -> spec_fn(Seq<char>) -> bool {
    |p: Seq<char>| beneath(root, p)
}

/// The paths that lie strictly beneath `root`, in order.
pub fn paths_inside(root: &str, paths: &Vec<String>) -> (r: Vec<String>)
    ensures
        texts(r@) == texts(paths@).filter(inside(root@)),
{
    let ghost ps = texts(paths@);
    let mut out: Vec<String> = Vec::new();
    let mut i: usize = 0;
    while i < paths.len()
        invariant
            i <= paths@.len(),
            ps == texts(paths@),
            texts(out@) == ps.take(i as int).filter(inside(root@)),
        decreases paths@.len() - i,
    {
        proof {
            assert(ps.take(i + 1) =~= ps.take(i as int).push(ps[i as int]));
            ps.take(i as int).lemma_filter_push(ps[i as int], inside(root@));
        }
        if is_beneath(root, paths[i].as_str()) {
            let ghost before = out@;
            out.push(paths[i].clone());
            assert(texts(out@) =~= texts(before).push(ps[i as int]));
        }
        i = i + 1;
    }
    assert(ps.take(paths@.len() as int) =~= ps);
    out
}

/// The state a watcher enters once setup is over: watching where the subscription to
/// the vault's root succeeded, stopped where it did not.
pub fn started(subscribed: bool) -> (r: WatcherState)
    ensures
        r == (if subscribed {
            WatcherState::Watching
        } else {
            WatcherState::Stopped
        }),
{
    if subscribed {
        WatcherState::Watching
    } else {
        WatcherState::Stopped
    }
}

/// The watcher's decision on one notification for the vault rooted at `root`. Only
/// paths strictly beneath the root are handled; creation and modification go through
/// the reconciliation rule, removal deletes, a delivery failure stops the watcher for
/// good.
pub fn next_action(state: WatcherState, root: &str, n: &Notification) -> (r: (WatcherState, WatchAction))
    ensures
        state == WatcherState::Starting ==> r.0 == WatcherState::Starting && r.1 is Nothing,
        state == WatcherState::Stopped ==> r.0 == WatcherState::Stopped && r.1 is Stop,
        state == WatcherState::Watching ==> match n {
            Notification::Create(ps) => r.0 == WatcherState::Watching && r.1 is Reconcile && texts(
                r.1->Reconcile_0@,
            ) == texts(ps@).filter(inside(root@)),
            Notification::Modify(ps) => r.0 == WatcherState::Watching && r.1 is Reconcile && texts(
                r.1->Reconcile_0@,
            ) == texts(ps@).filter(inside(root@)),
            Notification::Remove(ps) => r.0 == WatcherState::Watching && r.1 is Delete && texts(
                r.1->Delete_0@,
            ) == texts(ps@).filter(inside(root@)),
            Notification::Other => r.0 == WatcherState::Watching && r.1 is Nothing,
            Notification::Failed => r.0 == WatcherState::Stopped && r.1 is Stop,
        },
{
    match state {
        WatcherState::Starting => (WatcherState::Starting, WatchAction::Nothing),
        WatcherState::Stopped => (WatcherState::Stopped, WatchAction::Stop),
        WatcherState::Watching => match n {
            Notification::Create(ps) => (
                WatcherState::Watching,
                WatchAction::Reconcile(paths_inside(root, ps)),
            ),
            Notification::Modify(ps) => (
                WatcherState::Watching,
                WatchAction::Reconcile(paths_inside(root, ps)),
            ),
            Notification::Remove(ps) => (
                WatcherState::Watching,
                WatchAction::Delete(paths_inside(root, ps)),
            ),
            Notification::Other => (WatcherState::Watching, WatchAction::Nothing),
            Notification::Failed => (WatcherState::Stopped, WatchAction::Stop),
        },
    }
}

} // verus!
