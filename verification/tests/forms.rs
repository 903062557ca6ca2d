//! Which forms the ink scan enters.

use pdf_crop_dual::forms::{FormGuard, MAX_FORM_DEPTH};

#[test]
fn form_entered_once_per_page() {
    let mut g = FormGuard::new();
    assert!(g.enter((5, 0), 0));
    assert!(!g.enter((5, 0), 0));
    assert!(!g.enter((5, 0), 3));
    // another generation or number is another form
    assert!(g.enter((5, 1), 1));
    assert!(g.enter((6, 0), 1));
}

#[test]
fn form_depth_limit() {
    let mut g = FormGuard::new();
    assert_eq!(MAX_FORM_DEPTH, 8);
    assert!(g.enter((1, 0), 7));
    assert!(!g.enter((2, 0), 8));
    assert!(!g.enter((3, 0), 100));
    // refused for depth: not counted as entered
    assert!(g.enter((2, 0), 0));
}

#[test]
fn form_ids_do_not_collide() {
    let mut g = FormGuard::new();
    assert!(g.enter((1, 0), 0));
    assert!(g.enter((0, 1), 0));
    assert!(g.enter((0, 65535), 0));
    assert!(g.enter((u32::MAX, 65535), 0));
    assert!(g.enter((65536, 0), 0));
    assert!(!g.enter((0, 65535), 0));
}
