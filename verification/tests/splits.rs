use notetaker::editor_common::geometry::Viewport;
use notetaker::editor_core::split_tree::SplitMode;
use notetaker::editor_core::splits::buffer::Buffer;
use notetaker::editor_core::splits::workspace::Workspace;
use std::cell::{Cell, RefCell};

type Area = (u32, u32, u32, u32);

fn whole(v: Viewport) -> Area {
    (0, 0, v.width, v.height)
}

#[test]
fn splits_buffer_new_and_quit() {
    let mut b = Buffer::new(7);
    assert_eq!(b.id, 7);
    b.quit();
    assert_eq!(b, Buffer::new(7));
}

#[test]
fn split_active_halves_the_active_view_once() {
    let seen: RefCell<Vec<(Area, SplitMode)>> = RefCell::new(Vec::new());
    let split = |a: Area, m: SplitMode| {
        seen.borrow_mut().push((a, m));
        ((a.0, a.1, a.2 / 2, a.3), (a.0 + a.2 / 2, a.1, a.2 / 2, a.3))
    };
    let mut w = Workspace::new(800, 600, &whole);
    w.split_active(SplitMode::Horizontal, &split);
    assert_eq!(*seen.borrow(), vec![((0, 0, 800, 600), SplitMode::Horizontal)]);
    // the new active view is the second half, which is split next
    w.split_active(SplitMode::Vertical, &split);
    assert_eq!(seen.borrow()[1], ((400, 0, 400, 600), SplitMode::Vertical));
}

#[test]
fn add_buffer_splits_vertically() {
    let modes: RefCell<Vec<SplitMode>> = RefCell::new(Vec::new());
    let split = |a: Area, m: SplitMode| {
        modes.borrow_mut().push(m);
        (a, a)
    };
    let mut w = Workspace::new(800, 600, &whole);
    w.add_buffer(800, 600, &whole, &split);
    assert_eq!(*modes.borrow(), vec![SplitMode::Vertical]);
}

#[test]
fn delete_after_split_lays_out_parent_as_a_view() {
    let calls = Cell::new(0u32);
    let split = |a: Area, _m: SplitMode| {
        calls.set(calls.get() + 1);
        (a, a)
    };
    let mut w = Workspace::new(800, 600, &whole);
    w.split_active(SplitMode::Vertical, &split);
    assert_eq!(calls.get(), 1);
    // the parent takes the place of the remaining view: no split is laid out
    w.delete_active(&split);
    assert_eq!(calls.get(), 1);
}

#[test]
fn delete_after_nested_splits() {
    let calls = Cell::new(0u32);
    let split = |a: Area, _m: SplitMode| {
        calls.set(calls.get() + 1);
        (a, a)
    };
    let mut w = Workspace::new(800, 600, &whole);
    w.split_active(SplitMode::Vertical, &split);
    w.split_active(SplitMode::Horizontal, &split);
    assert_eq!(calls.get(), 2);
    w.delete_active(&split);
    assert_eq!(calls.get(), 2);
}
