use tileink::bounds::Bounds;
use tileink::damage_history::{DamageHistory, ResolvedDamage, MAX_STEPS};
use tileink::retained::RetainedNodeId;

fn damage(x: i32, owner: u64) -> ResolvedDamage {
    ResolvedDamage {
        bounds: vec![Bounds::new(x, 0, x + 1, 1)],
        dirty_backdrops: vec![RetainedNodeId::for_owner(owner)],
    }
}

#[test]
fn skipped_updates_union_resolved_output_without_replaying_it() {
    let history = DamageHistory::initial(true, 1)
        .advance(true, 1, 2, Some(damage(16, 10)))
        .advance(true, 2, 3, Some(damage(32, 11)));
    let result = history.resolve(1, 3).unwrap().unwrap();
    assert_eq!(
        result.bounds.as_slice(),
        &[Bounds::new(32, 0, 33, 1), Bounds::new(16, 0, 17, 1)]
    );
    assert_eq!(result.dirty_backdrops.len(), 2);
    assert_eq!(
        history.resolve(2, 3).unwrap().unwrap().bounds.as_slice(),
        &[Bounds::new(32, 0, 33, 1)]
    );
}

#[test]
fn event_epochs_preserve_the_immediate_partial_path() {
    let mut history = DamageHistory::initial(true, 1);
    for from in 1..=u64::from(MAX_STEPS) + 1 {
        history = history.advance(true, from, from + 1, Some(damage(from as i32, 10)));
        assert!(history.resolve(from, from + 1).unwrap().is_some());
    }
    assert!(history.resolve(1, u64::from(MAX_STEPS) + 2).is_err());
}

#[test]
fn domain_exit_and_incomplete_steps_require_recovery_only_across_the_boundary() {
    let history = DamageHistory::initial(true, 1).advance(true, 1, 2, None);
    assert!(history.resolve(1, 2).is_err());
    let history = history.advance(true, 2, 3, Some(damage(0, 10)));
    assert!(history.resolve(2, 3).unwrap().is_some());
    let history = history
        .advance(false, 3, 4, None)
        .advance(false, 4, 5, None);
    assert!(history.resolve(3, 5).is_err());
    assert!(history.resolve(4, 5).unwrap().is_none());
}

#[test]
fn invisible_output_keeps_its_dirty_backdrop_event() {
    let history = DamageHistory::initial(true, 1).advance(
        true,
        1,
        2,
        Some(ResolvedDamage {
            bounds: Vec::new(),
            dirty_backdrops: vec![RetainedNodeId::for_owner(10)],
        }),
    );
    let result = history.resolve(1, 2).unwrap().unwrap();
    assert!(result.bounds.is_empty());
    assert_eq!(result.dirty_backdrops.len(), 1);
}

#[test]
fn resolved_events_outlive_history_updates_and_forks() {
    let first = DamageHistory::initial(true, 1).advance(true, 1, 2, Some(damage(16, 10)));
    let held = (*first.resolve(1, 2).unwrap().unwrap()).clone();
    let left = first.advance(true, 2, 3, Some(damage(32, 11)));
    let right = first.advance(true, 2, 3, Some(damage(48, 12)));
    drop(first);
    let left_event = (*left.resolve(2, 3).unwrap().unwrap()).clone();
    let right_event = (*right.resolve(2, 3).unwrap().unwrap()).clone();
    drop(left);
    drop(right);
    assert_eq!(&held.bounds[..], &[Bounds::new(16, 0, 17, 1)]);
    assert_eq!(&left_event.bounds[..], &[Bounds::new(32, 0, 33, 1)]);
    assert_eq!(&right_event.bounds[..], &[Bounds::new(48, 0, 49, 1)]);
    assert_eq!(
        held.dirty_backdrops.as_slice(),
        &[RetainedNodeId::for_owner(10)]
    );
    assert_eq!(
        left_event.dirty_backdrops.as_slice(),
        &[RetainedNodeId::for_owner(11)]
    );
    assert_eq!(
        right_event.dirty_backdrops.as_slice(),
        &[RetainedNodeId::for_owner(12)]
    );
}

#[test]
fn immediate_resolution_shares_event_bounds() {
    let history = DamageHistory::initial(true, 1).advance(true, 1, 2, Some(damage(16, 10)));
    let recorded = history.latest_event().unwrap().bounds.as_ptr();
    let resolved = history.resolve(1, 2).unwrap().unwrap();
    assert_eq!(resolved.bounds.as_ptr(), recorded);
    let unchanged = history.resolve(2, 2).unwrap().unwrap();
    assert!(unchanged.bounds.is_empty());
    assert!(unchanged.dirty_backdrops.is_empty());
}

#[test]
fn resolving_across_a_fork_keeps_each_branch_separate() {
    let base = DamageHistory::initial(true, 1).advance(true, 1, 2, Some(damage(16, 10)));
    let branch = base.advance(true, 2, 3, Some(damage(32, 10)));
    let merged = branch.resolve(1, 3).unwrap().unwrap();
    assert_eq!(
        merged.bounds.as_slice(),
        &[Bounds::new(32, 0, 33, 1), Bounds::new(16, 0, 17, 1)]
    );
    // The same backdrop dirtied twice is reported once.
    assert_eq!(merged.dirty_backdrops.as_slice(), &[RetainedNodeId::for_owner(10)]);
    assert!(base.resolve(1, 3).is_err());
}

#[test]
fn resolving_before_the_floor_or_backwards_requires_recovery() {
    let history = DamageHistory::initial(true, 5);
    assert!(history.resolve(4, 5).is_err());
    assert!(history.resolve(6, 5).is_err());
    assert!(history.resolve(5, 5).unwrap().unwrap().bounds.is_empty());
    let unscoped = DamageHistory::default();
    assert!(!unscoped.is_scoped());
    assert!(unscoped.resolve(0, 3).unwrap().is_none());
}

#[test]
fn resolving_a_version_no_event_reaches_requires_recovery() {
    let history = DamageHistory::initial(true, 1)
        .advance(true, 1, 2, Some(damage(16, 10)))
        .advance(true, 2, 3, Some(damage(32, 11)));
    assert!(history.resolve(1, 4).is_err());
    assert!(history.resolve(1, 2).is_err());
}

#[test]
fn resolving_across_several_steps_keeps_newest_first_and_merges_backdrops() {
    let history = DamageHistory::initial(true, 0)
        .advance(true, 0, 1, Some(damage(1, 10)))
        .advance(true, 1, 2, Some(damage(2, 11)))
        .advance(true, 2, 3, Some(damage(3, 10)));
    let all = history.resolve(0, 3).unwrap().unwrap();
    assert_eq!(
        all.bounds.as_slice(),
        &[Bounds::new(3, 0, 4, 1), Bounds::new(2, 0, 3, 1), Bounds::new(1, 0, 2, 1)]
    );
    assert_eq!(all.dirty_backdrops.len(), 2);
    assert!(all.dirty_backdrops.contains(&RetainedNodeId::for_owner(10)));
    assert!(all.dirty_backdrops.contains(&RetainedNodeId::for_owner(11)));
    let tail = history.resolve(1, 3).unwrap().unwrap();
    assert_eq!(tail.bounds.as_slice(), &[Bounds::new(3, 0, 4, 1), Bounds::new(2, 0, 3, 1)]);
    let last = history.resolve(2, 3).unwrap().unwrap();
    assert_eq!(last.bounds.as_slice(), &[Bounds::new(3, 0, 4, 1)]);
    assert_eq!(last.dirty_backdrops, vec![RetainedNodeId::for_owner(10)]);
}
