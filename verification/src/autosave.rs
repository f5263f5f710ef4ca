//! When edited notes are written out, and when the vault is checked for
//! changes made by other programs. The caller measures the time and does the
//! writing and scanning; these functions decide.

use vstd::prelude::*;

verus! {

/// Quiet time after the last edit before edited notes are saved.
pub const SAVE_DEBOUNCE_MS: u64 = 500;

/// Time between two scans of the vault for outside changes.
pub const EXTERNAL_SYNC_INTERVAL_MS: u64 = 2000;

/// What to do about unsaved edits on this frame.
#[derive(Clone, Copy, Debug, PartialEq, Eq, Structural)]
pub enum SaveStep {
    /// Nothing to save, or saving waits for a conflict to be settled.
    Idle,
    /// Save the edited notes now.
    Flush,
    /// Check again after this many milliseconds.
    RepaintAfter(u64),
}

/// Saving waits until no edit has happened for `SAVE_DEBOUNCE_MS`, and
/// never happens while files changed outside the widget are unresolved.
pub fn save_step(external_conflict: bool, since_last_edit_ms: Option<u64>) -> (step: SaveStep)
    ensures
        external_conflict ==> step == SaveStep::Idle,
        since_last_edit_ms is None ==> step == SaveStep::Idle,
        !external_conflict && since_last_edit_ms is Some && since_last_edit_ms->0 >= SAVE_DEBOUNCE_MS
            ==> step == SaveStep::Flush,
        !external_conflict && since_last_edit_ms is Some && since_last_edit_ms->0 < SAVE_DEBOUNCE_MS
            ==> step == SaveStep::RepaintAfter((SAVE_DEBOUNCE_MS - since_last_edit_ms->0) as u64),
{
    if external_conflict {
        return SaveStep::Idle;
    }
    match since_last_edit_ms {
        None => SaveStep::Idle,
        Some(elapsed) => {
            if elapsed >= SAVE_DEBOUNCE_MS {
                SaveStep::Flush
            } else {
                SaveStep::RepaintAfter(SAVE_DEBOUNCE_MS - elapsed)
            }
        },
    }
}

/// Whether to scan the vault on this frame.
#[derive(Clone, Copy, Debug, PartialEq, Eq, Structural)]
pub enum SyncStep {
    /// Scan the vault now, then check again after the interval.
    Scan,
    /// Check again after this many milliseconds.
    RepaintAfter(u64),
}

/// The vault is scanned once `EXTERNAL_SYNC_INTERVAL_MS` have passed since
/// the last scan.
pub fn sync_step(since_last_sync_ms: u64) -> (step: SyncStep)
    ensures
        since_last_sync_ms >= EXTERNAL_SYNC_INTERVAL_MS ==> step == SyncStep::Scan,
        since_last_sync_ms < EXTERNAL_SYNC_INTERVAL_MS ==> step == SyncStep::RepaintAfter(
            (EXTERNAL_SYNC_INTERVAL_MS - since_last_sync_ms) as u64,
        ),
{
    if since_last_sync_ms >= EXTERNAL_SYNC_INTERVAL_MS {
        SyncStep::Scan
    } else {
        SyncStep::RepaintAfter(EXTERNAL_SYNC_INTERVAL_MS - since_last_sync_ms)
    }
}

/// What a scan that found the vault as it was, or changed, leads to.
#[derive(Clone, Copy, Debug, PartialEq, Eq, Structural)]
pub enum SyncOutcome {
    /// Nothing changed on disk.
    Unchanged,
    /// Files changed and nothing is unsaved: load the vault again.
    Reload,
    /// Files changed while edits are unsaved: ask the user.
    Conflict,
}

/// A change on disk reloads the vault, unless edits are unsaved, which
/// makes it a conflict for the user to settle.
pub fn sync_outcome(vault_changed: bool, has_unsaved_edits: bool) -> (outcome: SyncOutcome)
    ensures
        !vault_changed ==> outcome == SyncOutcome::Unchanged,
        vault_changed && !has_unsaved_edits ==> outcome == SyncOutcome::Reload,
        vault_changed && has_unsaved_edits ==> outcome == SyncOutcome::Conflict,
{
    if !vault_changed {
        SyncOutcome::Unchanged
    } else if has_unsaved_edits {
        SyncOutcome::Conflict
    } else {
        SyncOutcome::Reload
    }
}

} // verus!
