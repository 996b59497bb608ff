use notetaker::editor_common::geometry::Viewport;
use notetaker::editor_core::split_tree::SplitMode;
use notetaker::editor_core::workspace::{Workspace, WorkspaceError};
use notetaker::editor_core::workspace_event::{WorkspaceCommand, WorkspaceEvent};

#[derive(Debug, Clone, Copy, PartialEq)]
struct Rect {
    x: f32,
    y: f32,
    width: f32,
    height: f32,
}

fn whole(v: Viewport) -> Rect {
    Rect { x: 0.0, y: 0.0, width: v.width as f32, height: v.height as f32 }
}

fn split(r: Rect, mode: SplitMode) -> (Rect, Rect) {
    match mode {
        SplitMode::Vertical => (
            Rect { width: r.width * 0.5, ..r },
            Rect { x: r.x + r.width * 0.5, width: r.width * 0.5, ..r },
        ),
        SplitMode::Horizontal => (
            Rect { height: r.height * 0.5, ..r },
            Rect { y: r.y + r.height * 0.5, height: r.height * 0.5, ..r },
        ),
    }
}

fn viewport(width: u32, height: u32) -> Viewport {
    Viewport { width, height }
}

fn surfaces(w: &Workspace<Rect>) -> Vec<Rect> {
    let mut rs: Vec<Rect> = w.render().into_iter().map(|(r, _)| r).collect();
    rs.sort_by(|a, b| (a.x, a.y).partial_cmp(&(b.x, b.y)).unwrap());
    rs
}

#[test]
fn new_workspace_shows_one_empty_view() {
    let w = Workspace::new(viewport(800, 600), &whole).unwrap();
    let cmds = w.render();
    assert_eq!(cmds.len(), 1);
    assert_eq!(cmds[0].0, Rect { x: 0.0, y: 0.0, width: 800.0, height: 600.0 });
    assert_eq!(cmds[0].1, "");
}

#[test]
fn vertical_split_halves_the_view() {
    let mut w = Workspace::new(viewport(800, 600), &whole).unwrap();
    let r = w.handle_command(WorkspaceCommand::SplitBuffer { mode: SplitMode::Vertical }, &whole, &split);
    assert_eq!(r.unwrap(), Some(WorkspaceEvent::BufferOpened));
    assert_eq!(
        surfaces(&w),
        vec![
            Rect { x: 0.0, y: 0.0, width: 400.0, height: 600.0 },
            Rect { x: 400.0, y: 0.0, width: 400.0, height: 600.0 },
        ]
    );
}

#[test]
fn open_buffer_splits_active_vertically() {
    let mut w = Workspace::new(viewport(800, 600), &whole).unwrap();
    let r = w.handle_command(WorkspaceCommand::OpenBuffer { viewport: viewport(1, 1) }, &whole, &split);
    assert_eq!(r.unwrap(), Some(WorkspaceEvent::BufferOpened));
    assert_eq!(surfaces(&w).len(), 2);
    assert_eq!(surfaces(&w)[1], Rect { x: 400.0, y: 0.0, width: 400.0, height: 600.0 });
}

#[test]
fn quit_after_split_restores_the_view() {
    let mut w = Workspace::new(viewport(800, 600), &whole).unwrap();
    w.handle_command(WorkspaceCommand::SplitBuffer { mode: SplitMode::Horizontal }, &whole, &split)
        .unwrap();
    let r = w.handle_command(WorkspaceCommand::QuitBuffer, &whole, &split);
    assert_eq!(r.unwrap(), Some(WorkspaceEvent::BufferQuit));
    assert_eq!(surfaces(&w), vec![Rect { x: 0.0, y: 0.0, width: 800.0, height: 600.0 }]);
}

#[test]
fn quit_in_nested_split_gives_area_to_sibling_subtree() {
    let mut w = Workspace::new(viewport(800, 600), &whole).unwrap();
    w.handle_command(WorkspaceCommand::SplitBuffer { mode: SplitMode::Vertical }, &whole, &split)
        .unwrap();
    // split the right half, then close the bottom right quarter
    w.handle_command(WorkspaceCommand::SplitBuffer { mode: SplitMode::Horizontal }, &whole, &split)
        .unwrap();
    assert_eq!(surfaces(&w).len(), 3);
    w.handle_command(WorkspaceCommand::QuitBuffer, &whole, &split).unwrap();
    assert_eq!(
        surfaces(&w),
        vec![
            Rect { x: 0.0, y: 0.0, width: 400.0, height: 600.0 },
            Rect { x: 400.0, y: 0.0, width: 400.0, height: 600.0 },
        ]
    );
}

#[test]
fn quitting_the_last_view_empties_the_workspace() {
    let mut w = Workspace::new(viewport(800, 600), &whole).unwrap();
    w.handle_command(WorkspaceCommand::QuitBuffer, &whole, &split).unwrap();
    assert!(w.render().is_empty());
    let r = w.handle_command(WorkspaceCommand::QuitBuffer, &whole, &split);
    assert!(matches!(r, Err(WorkspaceError::NullActive)));
    let r = w.handle_command(WorkspaceCommand::SplitBuffer { mode: SplitMode::Vertical }, &whole, &split);
    assert!(matches!(r, Err(WorkspaceError::NullActive)));
    assert!(matches!(
        w.adapt_to_viewport(viewport(10, 10), &whole, &split),
        Err(WorkspaceError::NullRoot)
    ));
}

#[test]
fn open_buffer_in_empty_workspace_opens_root_view() {
    let mut w = Workspace::new(viewport(800, 600), &whole).unwrap();
    w.handle_command(WorkspaceCommand::QuitBuffer, &whole, &split).unwrap();
    let r = w.handle_command(WorkspaceCommand::OpenBuffer { viewport: viewport(320, 200) }, &whole, &split);
    assert_eq!(r.unwrap(), Some(WorkspaceEvent::BufferOpened));
    assert_eq!(surfaces(&w), vec![Rect { x: 0.0, y: 0.0, width: 320.0, height: 200.0 }]);
}

#[test]
fn adapt_to_viewport_lays_out_again() {
    let mut w = Workspace::new(viewport(800, 600), &whole).unwrap();
    w.handle_command(WorkspaceCommand::SplitBuffer { mode: SplitMode::Vertical }, &whole, &split)
        .unwrap();
    w.adapt_to_viewport(viewport(200, 100), &whole, &split).unwrap();
    assert_eq!(
        surfaces(&w),
        vec![
            Rect { x: 0.0, y: 0.0, width: 100.0, height: 100.0 },
            Rect { x: 100.0, y: 0.0, width: 100.0, height: 100.0 },
        ]
    );
}
