use std::collections::HashMap;
use std::rc::Rc;

use tileink::bounds::Bounds;
use tileink::frame::{RetainedFrame, RetainedFrameDelta};
use tileink::retained::{
    NodeGeneration, RetainedNodeId, RetainedNodeKind, RetainedNodePatch, RetainedNodeState,
};

fn state(owner: u64, revision: u64) -> RetainedNodeState {
    RetainedNodeState {
        id: RetainedNodeId::new(owner, 0),
        revision: NodeGeneration::new(revision),
        bounds: Bounds::new(0, 0, 4, 4),
        order: owner as u32,
        kind: RetainedNodeKind::Scene,
        placement_bits: None,
    }
}

fn id(owner: u64) -> RetainedNodeId {
    RetainedNodeId::new(owner, 0)
}

fn base_frame() -> RetainedFrame {
    RetainedFrame {
        root: id(0),
        nodes: vec![state(0, 1), state(1, 1), state(2, 1)],
        node_index: vec![(id(0), 0), (id(1), 1), (id(2), 2)],
        state_pages: HashMap::new(),
        version: Some(1),
        delta: None,
    }
}

#[test]
fn base_table_answers_without_a_journal() {
    let frame = base_frame();
    assert_eq!(frame.node_state(id(1)), Some(state(1, 1)));
    assert_eq!(frame.node_state(id(9)), None);
    assert_eq!(frame.node_revision(id(2)), Some(NodeGeneration::new(1)));
}

#[test]
fn copied_pages_override_the_node_table() {
    let mut frame = base_frame();
    let mut page = vec![state(0, 1), state(1, 5), state(2, 1)];
    page.resize(256, state(0, 0));
    frame.state_pages.insert(0, page);
    assert_eq!(frame.node_state(id(1)), Some(state(1, 5)));
    assert_eq!(frame.node_revision(id(0)), Some(NodeGeneration::new(1)));
}

#[test]
fn newest_delta_patch_wins_and_removal_hides_the_base() {
    let older = RetainedFrameDelta {
        from_version: 1,
        to_version: 2,
        patches: vec![
            RetainedNodePatch { old: Some(state(1, 1)), new: Some(state(1, 2)), damage: None },
            RetainedNodePatch { old: Some(state(2, 1)), new: Some(state(2, 2)), damage: None },
        ],
        previous: None,
        depth: 1,
        damage: vec![(id(1), Bounds::new(0, 0, 4, 4))],
        dirty_backdrops: Vec::new(),
        backdrop_damage_complete: true,
        index: vec![(id(1), 0), (id(2), 1)],
    };
    let newer = RetainedFrameDelta {
        from_version: 2,
        to_version: 3,
        patches: vec![RetainedNodePatch { old: Some(state(1, 2)), new: None, damage: None }],
        previous: Some(Rc::new(older)),
        depth: 2,
        damage: Vec::new(),
        dirty_backdrops: vec![id(2)],
        backdrop_damage_complete: false,
        index: vec![(id(1), 0)],
    };
    let mut frame = base_frame();
    frame.delta = Some(Rc::new(newer));
    frame.version = Some(3);
    assert_eq!(frame.node_state(id(1)), None);
    assert_eq!(frame.node_state(id(2)), Some(state(2, 2)));
    assert_eq!(frame.node_revision(id(2)), Some(NodeGeneration::new(2)));
    assert_eq!(frame.node_state(id(0)), Some(state(0, 1)));
}
