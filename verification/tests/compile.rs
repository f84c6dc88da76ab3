use tileink::commands::{BlendMode, CommandTree, LayerKind, LayerTag};
use tileink::compile::{
    exec_ops_contain_owner, CompileOwners, ExecOp, ExecPlan, LayerStackEntry, RetainedBatchBranch,
    RetainedBatchOwner, SurfaceSlots,
};
use tileink::retained::{RetainedNodeId, RetainedSurfaceId};

const DARKEN: BlendMode = BlendMode { mix: 4, compose: 3 };

fn compile(tree: &CommandTree, owners: CompileOwners) -> (Vec<ExecOp>, ExecPlan) {
    let mut ops = Vec::new();
    let mut plan = ExecPlan { ops: Vec::new(), layer_stack_data: Vec::new() };
    let mut stack = Vec::new();
    let mut slots = SurfaceSlots::new();
    tree.compile_into(0, &mut ops, &mut plan, &mut stack, owners, &mut slots);
    assert!(stack.is_empty());
    (ops, plan)
}

fn no_owners() -> CompileOwners {
    CompileOwners { retained: None, batch: None }
}

fn batch(op: &ExecOp) -> (Vec<usize>, Vec<RetainedBatchOwner>, usize, usize) {
    match op {
        ExecOp::DrawBatch { draws, batch_id, owners, layer_start, layer_end } => {
            assert_eq!(*batch_id, u32::MAX);
            (draws.clone(), owners.clone(), *layer_start, *layer_end)
        }
        other => panic!("expected a draw batch, found {other:?}"),
    }
}

fn all_draws(ops: &[ExecOp], out: &mut Vec<usize>) {
    for op in ops {
        match op {
            ExecOp::DrawBatch { draws, .. } => out.extend_from_slice(draws),
            ExecOp::OffscreenLayer { children, .. } => all_draws(children, out),
            ExecOp::OffscreenMaskLayer { content, mask, .. } => {
                all_draws(content, out);
                all_draws(mask, out);
            }
            _ => {}
        }
    }
}

#[test]
fn consecutive_draws_form_one_batch() {
    let mut tree = CommandTree::new();
    tree.push_draw_command(0);
    tree.push_draw_command(1);
    let (ops, plan) = compile(&tree, no_owners());
    assert_eq!(ops.len(), 1);
    assert_eq!(batch(&ops[0]), (vec![0, 1], vec![], 0, 0));
    assert!(plan.layer_stack_data.is_empty());
}

#[test]
fn clip_layers_fuse_and_record_their_stack() {
    let mut tree = CommandTree::new();
    tree.push_draw_command(0);
    tree.push_layer_command(5, LayerTag::Clip, LayerKind::Clip);
    tree.push_draw_command(1);
    tree.pop_layer();
    tree.push_draw_command(2);
    let (ops, plan) = compile(&tree, no_owners());
    assert_eq!(ops.len(), 5);
    assert_eq!(batch(&ops[0]), (vec![0], vec![], 0, 0));
    assert!(matches!(ops[1], ExecOp::BeginClip));
    assert_eq!(batch(&ops[2]), (vec![1], vec![], 0, 1));
    assert!(matches!(ops[3], ExecOp::EndClip));
    assert_eq!(batch(&ops[4]), (vec![2], vec![], 1, 1));
    assert_eq!(plan.layer_stack_data, vec![LayerStackEntry::Clip { draw: 5 }]);
}

#[test]
fn nested_fused_groups_stack_outermost_first() {
    let mut tree = CommandTree::new();
    tree.push_layer_command(3, LayerTag::Opacity, LayerKind::Opacity);
    tree.push_layer_command(4, LayerTag::Blend(DARKEN), LayerKind::Blend(DARKEN));
    tree.push_draw_command(7);
    tree.pop_layer();
    tree.pop_layer();
    let (ops, plan) = compile(&tree, no_owners());
    assert_eq!(ops.len(), 5);
    assert!(matches!(ops[0], ExecOp::BeginOpacity));
    assert!(matches!(ops[1], ExecOp::BeginBlend));
    assert_eq!(batch(&ops[2]), (vec![7], vec![], 0, 2));
    assert!(matches!(ops[3], ExecOp::EndBlend));
    assert!(matches!(ops[4], ExecOp::EndOpacity));
    assert_eq!(
        plan.layer_stack_data,
        vec![LayerStackEntry::Opacity { draw: 3 }, LayerStackEntry::Blend { draw: 4, mode: DARKEN }]
    );
}

#[test]
fn isolated_layers_compile_offscreen_with_their_own_ops() {
    let mut tree = CommandTree::new();
    tree.push_layer_command(2, LayerTag::Clip, LayerKind::Clip);
    tree.push_layer_command(9, LayerTag::Isolate, LayerKind::Isolate);
    tree.push_draw_command(1);
    tree.pop_layer();
    tree.pop_layer();
    let (ops, plan) = compile(&tree, no_owners());
    assert_eq!(ops.len(), 3);
    assert!(matches!(ops[0], ExecOp::BeginClip));
    match &ops[1] {
        ExecOp::OffscreenLayer { retained_id, draw, layer, outer_start, outer_end, children } => {
            assert_eq!(*retained_id, None);
            assert_eq!(*draw, 9);
            assert_eq!(*layer, LayerTag::Isolate);
            assert_eq!((*outer_start, *outer_end), (0, 1));
            assert_eq!(children.len(), 1);
            // An isolated input starts with no open groups.
            assert_eq!(batch(&children[0]), (vec![1], vec![], 1, 1));
        }
        other => panic!("expected an offscreen layer, found {other:?}"),
    }
    assert!(matches!(ops[2], ExecOp::EndClip));
    assert_eq!(plan.layer_stack_data, vec![LayerStackEntry::Clip { draw: 2 }]);
}

#[test]
fn backdrop_children_keep_the_outer_groups() {
    let mut tree = CommandTree::new();
    tree.push_layer_command(2, LayerTag::Clip, LayerKind::Clip);
    tree.push_layer_command(6, LayerTag::Backdrop, LayerKind::Backdrop);
    tree.push_draw_command(1);
    tree.pop_layer();
    tree.pop_layer();
    let (ops, plan) = compile(&tree, no_owners());
    match &ops[1] {
        ExecOp::OffscreenLayer { children, .. } => {
            assert_eq!(batch(&children[0]), (vec![1], vec![], 1, 2));
        }
        other => panic!("expected an offscreen layer, found {other:?}"),
    }
    assert_eq!(
        plan.layer_stack_data,
        vec![LayerStackEntry::Clip { draw: 2 }, LayerStackEntry::Clip { draw: 2 }]
    );
}

#[test]
fn opacity_over_an_offscreen_child_goes_offscreen_too() {
    let mut tree = CommandTree::new();
    tree.push_layer_command(3, LayerTag::Opacity, LayerKind::Opacity);
    tree.push_layer_command(4, LayerTag::Filter, LayerKind::Filter);
    tree.push_draw_command(0);
    tree.pop_layer();
    tree.pop_layer();
    let (ops, _) = compile(&tree, no_owners());
    assert_eq!(ops.len(), 1);
    match &ops[0] {
        ExecOp::OffscreenLayer { layer, children, .. } => {
            assert_eq!(*layer, LayerTag::Opacity);
            assert!(matches!(children[0], ExecOp::OffscreenLayer { layer: LayerTag::Filter, .. }));
        }
        other => panic!("expected an offscreen layer, found {other:?}"),
    }
}

#[test]
fn mask_layers_compile_content_then_mask() {
    let mut tree = CommandTree::new();
    let mask = tree.push_child_command_list();
    tree.push_mask_command(mask);
    tree.push_draw_command(4);
    tree.pop_layer();
    let (ops, _) = compile(&tree, no_owners());
    assert_eq!(ops.len(), 1);
    match &ops[0] {
        ExecOp::OffscreenMaskLayer { retained_id, content, mask, .. } => {
            assert_eq!(*retained_id, None);
            assert_eq!(content.len(), 1);
            assert_eq!(batch(&content[0]).0, vec![4]);
            assert!(mask.is_empty());
        }
        other => panic!("expected an offscreen mask layer, found {other:?}"),
    }
}

#[test]
fn retained_owner_numbers_its_surfaces() {
    let node = RetainedNodeId::new(7, 0);
    let mut tree = CommandTree::new();
    tree.push_layer_command(0, LayerTag::Isolate, LayerKind::Isolate);
    tree.pop_layer();
    tree.push_layer_command(1, LayerTag::Filter, LayerKind::Filter);
    tree.pop_layer();
    let (ops, _) = compile(&tree, CompileOwners { retained: Some(node), batch: None });
    let ids: Vec<_> = ops
        .iter()
        .map(|op| match op {
            ExecOp::OffscreenLayer { retained_id, .. } => *retained_id,
            other => panic!("expected an offscreen layer, found {other:?}"),
        })
        .collect();
    assert_eq!(
        ids,
        vec![Some(RetainedSurfaceId::new(node, 0)), Some(RetainedSurfaceId::new(node, 1))]
    );
}

#[test]
fn batch_owner_without_draws_gets_an_empty_batch() {
    let owner =
        RetainedBatchOwner { node: RetainedNodeId::new(3, 1), branch: RetainedBatchBranch::Content };
    let tree = CommandTree::new();
    let (ops, _) = compile(&tree, CompileOwners { retained: None, batch: Some(owner) });
    assert_eq!(ops.len(), 1);
    assert_eq!(batch(&ops[0]), (vec![], vec![owner], 0, 0));
}

#[test]
fn batch_owner_with_draws_needs_no_extra_batch() {
    let owner =
        RetainedBatchOwner { node: RetainedNodeId::new(3, 1), branch: RetainedBatchBranch::Mask };
    let mut tree = CommandTree::new();
    tree.push_draw_command(2);
    let (ops, _) = compile(&tree, CompileOwners { retained: None, batch: Some(owner) });
    assert_eq!(ops.len(), 1);
    assert_eq!(batch(&ops[0]), (vec![2], vec![owner], 0, 0));
    assert!(exec_ops_contain_owner(&ops, owner));
    let other =
        RetainedBatchOwner { node: RetainedNodeId::new(3, 1), branch: RetainedBatchBranch::Content };
    assert!(!exec_ops_contain_owner(&ops, other));
}

#[test]
fn owners_are_found_inside_offscreen_layers() {
    let owner =
        RetainedBatchOwner { node: RetainedNodeId::new(9, 0), branch: RetainedBatchBranch::Content };
    let mut tree = CommandTree::new();
    tree.push_layer_command(0, LayerTag::Isolate, LayerKind::Isolate);
    tree.push_draw_command(1);
    tree.pop_layer();
    let (ops, _) = compile(&tree, CompileOwners { retained: None, batch: Some(owner) });
    assert_eq!(ops.len(), 1);
    assert!(exec_ops_contain_owner(&ops, owner));
}

#[test]
fn compiled_draws_keep_painter_order() {
    let mut tree = CommandTree::new();
    tree.push_draw_command(0);
    tree.push_layer_command(10, LayerTag::Opacity, LayerKind::Opacity);
    tree.push_draw_command(1);
    tree.push_layer_command(11, LayerTag::Isolate, LayerKind::Isolate);
    tree.push_draw_command(2);
    tree.pop_layer();
    tree.push_draw_command(3);
    tree.pop_layer();
    tree.push_layer_command(12, LayerTag::Clip, LayerKind::Clip);
    tree.push_draw_command(4);
    tree.pop_layer();
    tree.push_draw_command(5);
    let (ops, _) = compile(&tree, no_owners());
    let mut draws = Vec::new();
    all_draws(&ops, &mut draws);
    assert_eq!(draws, vec![0, 1, 2, 3, 4, 5]);
}
