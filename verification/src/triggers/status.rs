//! Trigger activity as transitions of a package's installation state.

use vstd::prelude::*;
use crate::dpkg_db::{InstallStatus, InstallView};

verus! {

/// `installed` becomes `triggers-pending`; other states are kept.
pub open spec fn mark_pending_spec(s: InstallView) -> InstallView {
    if s is Installed {
        InstallView::TriggersPending
    } else {
        s
    }
}

/// `installed` becomes `triggers-awaited`; other states are kept.
pub open spec fn mark_awaited_spec(s: InstallView) -> InstallView {
    if s is Installed {
        InstallView::TriggersAwaited
    } else {
        s
    }
}

/// `triggers-pending` and `triggers-awaited` return to `installed`; other
/// states are kept.
pub open spec fn clear_spec(s: InstallView) -> InstallView {
    if s is TriggersPending || s is TriggersAwaited {
        InstallView::Installed
    } else {
        s
    }
}

/// Marks a package as having pending triggers to process.
pub fn mark_pending(status: InstallStatus) -> (r: InstallStatus)
    ensures
        r@ == mark_pending_spec(status@),
{
    match status {
        InstallStatus::Installed => InstallStatus::TriggersPending,
        other => other,
    }
}

/// Marks a package as awaiting triggers from another package.
pub fn mark_awaited(status: InstallStatus) -> (r: InstallStatus)
    ensures
        r@ == mark_awaited_spec(status@),
{
    match status {
        InstallStatus::Installed => InstallStatus::TriggersAwaited,
        other => other,
    }
}

/// Clears trigger state, returning the package to `installed`.
pub fn clear(status: InstallStatus) -> (r: InstallStatus)
    ensures
        r@ == clear_spec(status@),
{
    match status {
        InstallStatus::TriggersPending | InstallStatus::TriggersAwaited => InstallStatus::Installed,
        other => other,
    }
}

/// Marking a package pending or awaited and then clearing gives back its
/// state, unless it was already in a trigger state.
pub proof fn lemma_clear_undoes_marks(s: InstallView)
    requires
        !(s is TriggersPending),
        !(s is TriggersAwaited),
    ensures
        clear_spec(mark_pending_spec(s)) == s,
        clear_spec(mark_awaited_spec(s)) == s,
{
}

} // verus!
