use tileink::bounds::Bounds;
use tileink::commands::{CommandTree, LayerKind, LayerTag};
use tileink::damage_buffer::DamageBuffer;
use tileink::propagate::{
    affected_output, propagate_damage, propagate_filter_damage, propagate_list_damage,
    DependencyReach, FilterDependency,
};
use tileink::retained::{RetainedDamage, RetainedNodeId};

fn region() -> Bounds {
    Bounds::new(16, 16, 48, 48)
}

#[test]
fn outset_dependency_damages_neighbouring_output_pixels() {
    let dep = FilterDependency {
        input: region(),
        output: region(),
        reach: DependencyReach::Outset { left: 1, top: 1, right: 1, bottom: 1 },
    };
    let mut damage = DamageBuffer::new(&[Bounds::new(32, 24, 33, 25)]);
    assert!(propagate_filter_damage(dep, &mut damage));
    assert!(damage.current().contains(&Bounds::new(31, 23, 34, 26)));
}

#[test]
fn whole_dependency_damages_the_output_and_ignores_outside_input() {
    let dep = FilterDependency { input: region(), output: region(), reach: DependencyReach::Whole };
    let mut damage = DamageBuffer::new(&[Bounds::new(47, 24, 48, 25)]);
    assert!(propagate_filter_damage(dep, &mut damage));
    assert!(damage.current().contains(&region()));
    assert!(damage.current().iter().all(|b| *b == b.intersect(region())));
    let mut outside = DamageBuffer::new(&[Bounds::new(96, 96, 97, 97)]);
    assert!(!propagate_filter_damage(dep, &mut outside));
    assert_eq!(outside.current(), &[Bounds::new(96, 96, 97, 97)]);
    assert!(affected_output(dep, Bounds::new(96, 96, 97, 97)).is_empty());
}

#[test]
fn off_canvas_damage_survives_until_the_outer_filter_samples_it() {
    let mut tree = CommandTree::new();
    tree.push_layer_command(0, LayerTag::Filter, LayerKind::Filter);
    tree.push_layer_command(1, LayerTag::Filter, LayerKind::Filter);
    tree.pop_layer();
    tree.pop_layer();
    let wrap = FilterDependency {
        input: Bounds::new(-16, 0, 48, 64),
        output: Bounds::new(-16, 0, 48, 64),
        reach: DependencyReach::Whole,
    };
    let offset = FilterDependency {
        input: Bounds::new(-32, 0, -31, 64),
        output: Bounds::new(-16, 0, -15, 64),
        reach: DependencyReach::Outset { left: -16, top: 0, right: 16, bottom: 0 },
    };
    let mut pending = RetainedDamage::new();
    pending.add_unattributed(Bounds::new(-32, 0, -31, 64));
    let (bounds, dirty) = propagate_damage(&tree, &pending, &[wrap, offset], 64, 64);
    assert!(bounds.iter().any(|b| !b.intersect(Bounds::new(47, 0, 48, 64)).is_empty()));
    assert!(bounds.iter().all(|b| *b == b.intersect(Bounds::canvas(64, 64))));
    assert!(dirty.is_empty());
}

#[test]
fn isolated_layers_keep_outside_damage_out_and_merge_their_own() {
    let mut tree = CommandTree::new();
    tree.push_layer_command(0, LayerTag::Isolate, LayerKind::Isolate);
    tree.pop_layer();
    let node = RetainedNodeId::new(5, 0);
    let mut pending = RetainedDamage::new();
    pending.add_node(node, Bounds::new(0, 0, 2, 2));
    let mut damage = DamageBuffer::new(&[Bounds::new(8, 8, 9, 9)]);
    let mut dirty = Vec::new();
    propagate_list_damage(&tree, 0, &pending, &[], &mut damage, &mut dirty, None);
    assert_eq!(damage.current(), &[Bounds::new(8, 8, 9, 9)]);
}

#[test]
fn backdrops_over_changed_pixels_are_marked_dirty_once() {
    let mut tree = CommandTree::new();
    tree.push_layer_command(0, LayerTag::Backdrop, LayerKind::Backdrop);
    tree.pop_layer();
    tree.push_layer_command(0, LayerTag::Backdrop, LayerKind::Backdrop);
    tree.pop_layer();
    let node = RetainedNodeId::new(3, 0);
    let dep = FilterDependency {
        input: Bounds::new(0, 0, 10, 10),
        output: Bounds::new(0, 0, 10, 10),
        reach: DependencyReach::Outset { left: 0, top: 0, right: 0, bottom: 0 },
    };
    let pending = RetainedDamage::new();
    let mut damage = DamageBuffer::new(&[Bounds::new(1, 1, 2, 2)]);
    let mut dirty = Vec::new();
    propagate_list_damage(&tree, 0, &pending, &[dep], &mut damage, &mut dirty, Some(node));
    assert_eq!(dirty, vec![node]);
    let mut clean = DamageBuffer::new(&[Bounds::new(20, 20, 21, 21)]);
    let mut none = Vec::new();
    propagate_list_damage(&tree, 0, &pending, &[dep], &mut clean, &mut none, Some(node));
    assert!(none.is_empty());
}
