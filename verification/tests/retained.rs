use tileink::bounds::Bounds;
use tileink::retained::{
    push_unique_damage, NodeGeneration, PersistentLayerKey, RetainedDamage, RetainedNodeId,
    RetainedNodeKind, RetainedNodePatch, RetainedNodeState, RetainedSurfaceId,
};

fn state(bounds: Bounds) -> RetainedNodeState {
    RetainedNodeState {
        id: RetainedNodeId::new(7, 1),
        revision: NodeGeneration::new(3),
        bounds,
        order: 0,
        kind: RetainedNodeKind::Scene,
        placement_bits: None,
    }
}

#[test]
fn identities_are_built_from_their_parts() {
    assert_eq!(RetainedNodeId::for_owner(9), RetainedNodeId { owner: 9, slot: 0 });
    assert_eq!(RetainedNodeId::new(9, 4).slot, 4);
    assert_eq!(NodeGeneration::from(12), NodeGeneration::new(12));
    let key = PersistentLayerKey::new(RetainedNodeId::for_owner(1), NodeGeneration::new(2));
    assert_eq!(key.revision, NodeGeneration(2));
    let surface = RetainedSurfaceId::new(RetainedNodeId::for_owner(1), 5);
    assert_eq!(surface.slot, 5);
}

#[test]
fn moved_node_damages_old_and_new_bounds() {
    let patch = RetainedNodePatch {
        old: Some(state(Bounds::new(0, 0, 10, 10))),
        new: Some(state(Bounds::new(20, 0, 30, 10))),
        damage: None,
    };
    assert_eq!(
        patch.damage_regions(),
        vec![Bounds::new(0, 0, 10, 10), Bounds::new(20, 0, 30, 10)]
    );
    assert_eq!(patch.damage_bounds(), Some(Bounds::new(0, 0, 30, 10)));
}

#[test]
fn unchanged_bounds_and_repeated_damage_are_reported_once() {
    let b = Bounds::new(0, 0, 10, 10);
    let patch = RetainedNodePatch {
        old: Some(state(b)),
        new: Some(state(b)),
        damage: Some(b),
    };
    assert_eq!(patch.damage_regions(), vec![b]);
    let explicit = RetainedNodePatch {
        old: None,
        new: Some(state(b)),
        damage: Some(Bounds::new(-4, -4, 2, 2)),
    };
    assert_eq!(
        explicit.damage_regions(),
        vec![b, Bounds::new(-4, -4, 2, 2)]
    );
    assert_eq!(explicit.damage_bounds(), Some(Bounds::new(-4, -4, 10, 10)));
}

#[test]
fn patch_without_states_damages_nothing() {
    let patch = RetainedNodePatch { old: None, new: None, damage: None };
    assert!(patch.damage_regions().is_empty());
    assert_eq!(patch.damage_bounds(), None);
}

#[test]
fn node_damage_accumulates_as_a_union() {
    let id = RetainedNodeId::for_owner(4);
    let mut damage = RetainedDamage::new();
    damage.add_node(id, Bounds::new(0, 0, 4, 4));
    damage.add_node(id, Bounds::new(8, 8, 9, 9));
    damage.add_node(id, Bounds::new(50, 50, 50, 60));
    damage.add_node(RetainedNodeId::for_owner(5), Bounds::new(1, 1, 1, 1));
    assert_eq!(damage.node_bounds(id), Some(Bounds::new(0, 0, 9, 9)));
    assert_eq!(damage.node_bounds(RetainedNodeId::for_owner(5)), None);
}

#[test]
fn unattributed_damage_is_kept_once_and_never_empty() {
    let mut damage = RetainedDamage::new();
    damage.add_unattributed(Bounds::new(0, 0, 1, 1));
    damage.add_unattributed(Bounds::new(0, 0, 1, 1));
    damage.add_unattributed(Bounds::new(3, 3, 3, 3));
    damage.add_unattributed(Bounds::new(2, 0, 3, 1));
    assert_eq!(
        damage.unattributed(),
        &[Bounds::new(0, 0, 1, 1), Bounds::new(2, 0, 3, 1)]
    );
    let mut list = vec![Bounds::new(1, 1, 2, 2)];
    push_unique_damage(&mut list, Bounds::new(1, 1, 2, 2));
    push_unique_damage(&mut list, Bounds::new(0, 0, 5, 5));
    assert_eq!(list, vec![Bounds::new(1, 1, 2, 2), Bounds::new(0, 0, 5, 5)]);
}
