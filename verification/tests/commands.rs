use tileink::commands::{BlendMode, Command, CommandTree, LayerKind, LayerTag};

const SCREEN: BlendMode = BlendMode { mix: 2, compose: 3 };

#[test]
fn layers_nest_their_content_in_child_lists() {
    let mut tree = CommandTree::new();
    tree.push_draw_command(0);
    tree.push_layer_command(1, LayerTag::Clip, LayerKind::Clip);
    assert_eq!(tree.current_command_list_id(), 1);
    tree.push_draw_command(2);
    assert_eq!(tree.pop_layer(), Some(LayerKind::Clip));
    assert_eq!(tree.current_command_list_id(), 0);
    assert_eq!(tree.list_count(), 2);
    assert_eq!(tree.commands(1), &[Command::Draw(2)]);
    assert_eq!(
        tree.commands(0),
        &[
            Command::Draw(0),
            Command::Layer { retained: None, draw: 1, layer: LayerTag::Clip, children: 1 }
        ]
    );
}

#[test]
fn popping_without_an_open_layer_keeps_the_root() {
    let mut tree = CommandTree::new();
    assert_eq!(tree.pop_layer(), None);
    assert_eq!(tree.current_command_list_id(), 0);
    tree.ensure_command_root();
    assert_eq!(tree.list_count(), 1);
}

#[test]
fn opacity_groups_fuse_only_without_offscreen_children() {
    let mut tree = CommandTree::new();
    tree.push_layer_command(0, LayerTag::Opacity, LayerKind::Opacity);
    tree.push_draw_command(1);
    tree.pop_layer();
    assert!(!tree.command_list_contains_offscreen(0));
    assert!(tree.can_fuse(LayerTag::Opacity, 1));
    tree.push_layer_command(2, LayerTag::Blend(SCREEN), LayerKind::Blend(SCREEN));
    tree.push_layer_command(0, LayerTag::Filter, LayerKind::Filter);
    tree.pop_layer();
    tree.pop_layer();
    assert!(tree.command_list_contains_offscreen(0));
    assert!(!tree.can_fuse(LayerTag::Blend(SCREEN), 2));
    assert!(tree.can_fuse(LayerTag::Clip, 2));
    assert!(!tree.can_fuse(LayerTag::Isolate, 1));
}

#[test]
fn mask_layers_are_always_offscreen() {
    let mut tree = CommandTree::new();
    let mask = tree.push_child_command_list();
    tree.push_draw_command(0);
    tree.push_mask_command(mask);
    assert_eq!(tree.current_command_list_id(), 2);
    assert_eq!(tree.pop_layer(), Some(LayerKind::Mask));
    assert!(tree.command_list_contains_offscreen(0));
    assert!(!tree.command_list_contains_offscreen(mask));
}

#[test]
fn reset_leaves_an_empty_open_root() {
    let mut tree = CommandTree::new();
    tree.push_draw_command(0);
    tree.push_layer_command(1, LayerTag::Isolate, LayerKind::Isolate);
    tree.push_draw_command(2);
    tree.reset();
    assert_eq!(tree.list_count(), 1);
    assert!(tree.commands(0).is_empty());
    assert_eq!(tree.current_command_list_id(), 0);
    assert_eq!(tree.pop_layer(), None);
}
