use lilo::autosave::{save_step, sync_outcome, sync_step, SaveStep, SyncOutcome, SyncStep};

#[test]
fn edits_are_saved_after_a_quiet_half_second() {
    assert_eq!(save_step(false, None), SaveStep::Idle);
    assert_eq!(save_step(false, Some(120)), SaveStep::RepaintAfter(380));
    assert_eq!(save_step(false, Some(500)), SaveStep::Flush);
    assert_eq!(save_step(false, Some(9000)), SaveStep::Flush);
}

#[test]
fn a_conflict_holds_back_saving() {
    assert_eq!(save_step(true, Some(9000)), SaveStep::Idle);
}

#[test]
fn the_vault_is_scanned_every_two_seconds() {
    assert_eq!(sync_step(0), SyncStep::RepaintAfter(2000));
    assert_eq!(sync_step(1500), SyncStep::RepaintAfter(500));
    assert_eq!(sync_step(2000), SyncStep::Scan);
}

#[test]
fn outside_changes_reload_or_conflict() {
    assert_eq!(sync_outcome(false, true), SyncOutcome::Unchanged);
    assert_eq!(sync_outcome(true, false), SyncOutcome::Reload);
    assert_eq!(sync_outcome(true, true), SyncOutcome::Conflict);
}
