use tileink::bounds::Bounds;
use tileink::damage_buffer::DamageBuffer;

fn bounds(x: i32) -> Bounds {
    Bounds::new(x, 0, x + 1, 1)
}

#[test]
fn isolated_inputs_hide_parent_and_sibling_damage() {
    let mut buffer = DamageBuffer::new(&[bounds(1)]);
    let content = buffer.enter_scope(&[bounds(-4)]);
    assert_eq!(buffer.current(), &[bounds(-4)]);
    buffer.push_unique(bounds(2));
    buffer.finish_scope(content);
    let mask = buffer.enter_scope(&[bounds(-4)]);
    assert_eq!(buffer.current(), &[bounds(-4)]);
    buffer.push_unique(bounds(3));
    buffer.finish_scope(mask);
    assert_eq!(
        buffer.into_vec(),
        vec![bounds(1), bounds(-4), bounds(2), bounds(3)]
    );
}

#[test]
fn nested_scopes_merge_unique_damage_in_painter_order() {
    let mut buffer = DamageBuffer::new(&[bounds(1)]);
    let outer = buffer.enter_scope(&[]);
    buffer.push_unique(bounds(2));
    let inner = buffer.enter_scope(&[bounds(2), bounds(2)]);
    buffer.push_unique(bounds(1));
    buffer.push_unique(Bounds::new(0, 0, 0, 0));
    buffer.push_unique(bounds(3));
    buffer.finish_scope(inner);
    assert_eq!(buffer.current(), &[bounds(2), bounds(1), bounds(3)]);
    buffer.finish_scope(outer);
    assert_eq!(buffer.into_vec(), vec![bounds(1), bounds(2), bounds(3)]);
}

#[test]
fn empty_scopes_leave_parent_unchanged() {
    let mut buffer = DamageBuffer::new(&[bounds(1)]);
    let outer = buffer.enter_scope(&[]);
    let inner = buffer.enter_scope(&[]);
    buffer.finish_scope(inner);
    assert!(buffer.current().is_empty());
    buffer.finish_scope(outer);
    assert_eq!(buffer.into_vec(), vec![bounds(1)]);
}

#[test]
fn push_unique_ignores_empty_and_repeated_rectangles() {
    let mut buffer = DamageBuffer::new(&[bounds(1)]);
    buffer.push_unique(bounds(1));
    buffer.push_unique(Bounds::new(5, 5, 5, 9));
    buffer.push_unique(bounds(2));
    assert_eq!(buffer.current(), &[bounds(1), bounds(2)]);
}

#[test]
fn finished_scope_drops_what_the_parent_already_holds() {
    let mut buffer = DamageBuffer::new(&[bounds(1), bounds(2)]);
    let scope = buffer.enter_scope(&[bounds(2), bounds(7), Bounds::new(3, 3, 2, 4), bounds(7)]);
    buffer.finish_scope(scope);
    assert_eq!(buffer.into_vec(), vec![bounds(1), bounds(2), bounds(7)]);
}

#[test]
fn sibling_scopes_after_growth_leave_the_same_damage() {
    let mut buffer = DamageBuffer::new(&[bounds(-1)]);
    let outer = buffer.enter_scope(&[]);
    let inner = buffer.enter_scope(&[]);
    for x in 0..1024 {
        buffer.push_unique(bounds(x));
    }
    buffer.finish_scope(inner);
    buffer.finish_scope(outer);
    let expected = buffer.current().to_vec();
    assert_eq!(expected.len(), 1025);
    for _ in 0..4 {
        let sibling = buffer.enter_scope(&[]);
        for x in 0..1024 {
            buffer.push_unique(bounds(x));
        }
        buffer.finish_scope(sibling);
        assert_eq!(buffer.current(), expected.as_slice());
    }
}
