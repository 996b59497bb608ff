use notetaker::editor_common::geometry::Viewport;
use notetaker::editor_renderer::state::{resize, set_viewport, SurfaceSize};

#[test]
fn resize_takes_new_size() {
    let mut c = SurfaceSize { width: 800, height: 600 };
    assert!(resize(&mut c, 1024, 768));
    assert_eq!(c, SurfaceSize { width: 1024, height: 768 });
}

#[test]
fn resize_to_zero_keeps_size() {
    let mut c = SurfaceSize { width: 800, height: 600 };
    assert!(!resize(&mut c, 0, 768));
    assert!(!resize(&mut c, 1024, 0));
    assert_eq!(c, SurfaceSize { width: 800, height: 600 });
}

#[test]
fn set_viewport_follows_resize() {
    let mut c = SurfaceSize { width: 1, height: 1 };
    assert!(set_viewport(&mut c, Viewport { width: 5, height: 6 }));
    assert_eq!(c, SurfaceSize { width: 5, height: 6 });
    assert!(!set_viewport(&mut c, Viewport { width: 0, height: 0 }));
    assert_eq!(c, SurfaceSize { width: 5, height: 6 });
}
