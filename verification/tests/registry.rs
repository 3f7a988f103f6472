//! Rule and marker registries keep their priority order.

use replicon::command_markers::{CommandMarker, CommandMarkers};
use replicon::rules::{ReplicationRule, ReplicationRules};
use replicon::tick::RepliconTick;

#[test]
fn replication_rules_sorting() {
    let mut rules = ReplicationRules::new();
    rules.insert(ReplicationRule::new(vec![(1, 1)]));
    rules.insert(ReplicationRule::new(vec![(2, 2)]));
    rules.insert(ReplicationRule::new(vec![(1, 1), (2, 2)]));
    rules.insert(ReplicationRule::new(vec![(2, 2), (3, 3)]));
    rules.insert(ReplicationRule::new(vec![(3, 3)]));
    rules.insert(ReplicationRule::new(vec![(4, 4)]));

    let lens = rules.priorities();
    assert_eq!(lens, [2, 2, 1, 1, 1, 1]);
}

#[test]
fn command_markers_sorting() {
    let mut markers = CommandMarkers::new();
    markers.insert(CommandMarker { component_id: 1, priority: 0 });
    markers.insert(CommandMarker { component_id: 2, priority: 2 });
    markers.insert(CommandMarker { component_id: 3, priority: 1 });
    markers.insert(CommandMarker { component_id: 4, priority: 0 });

    let priorities = markers.priorities();
    assert_eq!(priorities, [2, 1, 0, 0]);
}

#[test]
fn marker_lookup_and_presence() {
    let mut markers = CommandMarkers::new();
    markers.insert(CommandMarker { component_id: 10, priority: 1 });
    markers.insert(CommandMarker { component_id: 20, priority: 5 });

    let idx = markers.marker_id(10).expect("a registered marker is found");
    assert_eq!(idx.index, 1);
    assert!(markers.marker_id(30).is_none());

    let presence = markers.iter_contains(&vec![10, 99]);
    assert_eq!(presence, vec![false, true]);
}

#[test]
fn rule_matching() {
    let rule = ReplicationRule::new(vec![(1, 1), (2, 2)]);
    assert_eq!(rule.priority, 2);
    assert!(rule.matches(&vec![1, 2, 3]));
    assert!(!rule.matches(&vec![1, 3]));

    // The rule matched before the removal and lost one component to it.
    assert!(rule.matches_removals(&vec![2], &vec![1]));
    // Nothing of the rule was removed.
    assert!(!rule.matches_removals(&vec![1, 2], &vec![3]));
    // A rule component is neither present nor among the removed.
    assert!(!rule.matches_removals(&vec![1], &vec![3]));
}

#[test]
fn tick_ordering_examples() {
    // Advancing by any step below half the counter range keeps order,
    // even across the wraparound.
    let near_wrap = RepliconTick::new(u32::MAX - 1);
    let wrapped = near_wrap.wrapping_add(10);
    assert_eq!(wrapped.get(), 8);
    assert!(wrapped > near_wrap);
    assert!(near_wrap < wrapped);
    // At exactly half the range the comparison resolves to older.
    let half = RepliconTick::new(0).wrapping_add(0x8000_0000);
    assert!(!(half > RepliconTick::new(0)));
}
