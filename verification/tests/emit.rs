//! How the rewrite assembles its output.

use pdf_crop_dual::emit::{Assembly, Side};

type Asm = Assembly<&'static str, (i32, i32)>;

#[test]
fn emitted_operations_keep_order() {
    let mut a = Asm::new();
    a.emit("q");
    a.emit("cm");
    a.emit("Q");
    assert_eq!(a.finish(), Some(vec!["q", "cm", "Q"]));
}

#[test]
fn text_block_placed_whole_at_et() {
    let mut a = Asm::new();
    a.emit("q");
    a.begin_text("BT");
    assert!(a.in_text);
    a.push_block("Tf");
    a.push_block("Td");
    a.push_block("Tj");
    // held until ET
    assert_eq!(a.out, vec!["q", "BT"]);
    a.end_text("ET");
    assert!(!a.in_text);
    assert!(a.block.is_empty());
    a.emit("Q");
    assert_eq!(a.finish(), Some(vec!["q", "BT", "Tf", "Td", "Tj", "ET", "Q"]));
}

#[test]
fn unclosed_text_block_is_refused() {
    let mut a = Asm::new();
    a.begin_text("BT");
    a.push_block("Tj");
    assert_eq!(a.finish(), None);
}

#[test]
fn begin_text_drops_an_old_block() {
    let mut a = Asm::new();
    a.begin_text("BT");
    a.push_block("Tj");
    a.begin_text("BT2");
    a.end_text("ET");
    assert_eq!(a.finish(), Some(vec!["BT", "BT2", "ET"]));
}

#[test]
fn path_left_of_band_kept_in_place() {
    let mut a = Asm::new();
    a.start_subpath(vec![(1, 1)], "m");
    a.extend_subpath(vec![(2, 2)], "l");
    a.start_subpath(vec![(3, 3)], "re");
    a.close_current();
    assert_eq!(a.subpaths.len(), 2);
    let plan = a.take_path(&vec![Side::Left, Side::Empty], false);
    assert_eq!(plan, Some(vec![("m", false), ("l", false), ("re", false)]));
    assert!(a.subpaths.is_empty() && a.preamble.is_empty());
}

#[test]
fn path_right_of_band_marked_for_shift() {
    let mut a = Asm::new();
    a.extend_subpath(vec![], "h");
    a.start_subpath(vec![(1, 1)], "m");
    a.extend_subpath(vec![(2, 2), (3, 3), (4, 4)], "c");
    a.start_subpath(vec![(9, 9)], "re");
    a.close_current();
    let plan = a.take_path(&vec![Side::Left, Side::Right], true);
    assert_eq!(
        plan,
        Some(vec![("h", false), ("m", false), ("c", false), ("re", true)])
    );
}

#[test]
fn path_right_of_band_without_shift_is_refused() {
    let mut a = Asm::new();
    a.start_subpath(vec![(9, 9)], "re");
    a.close_current();
    assert_eq!(a.take_path(&vec![Side::Right], false), None);
    // refused: nothing taken
    assert_eq!(a.subpaths.len(), 1);
}

#[test]
fn path_crossing_band_is_refused() {
    let mut a = Asm::new();
    a.start_subpath(vec![(1, 1)], "m");
    a.start_subpath(vec![(5, 5)], "re");
    a.close_current();
    assert_eq!(a.take_path(&vec![Side::Left, Side::Cross], true), None);
    assert_eq!(a.subpaths.len(), 2);
}

#[test]
fn subpath_collects_points() {
    let mut a = Asm::new();
    a.start_subpath(vec![(1, 2)], "m");
    a.extend_subpath(vec![(3, 4)], "l");
    a.extend_subpath(vec![], "h");
    let cur = a.cur.as_ref().unwrap();
    assert_eq!(cur.pts, vec![(1, 2), (3, 4)]);
    assert_eq!(cur.ops, vec!["m", "l", "h"]);
}

#[test]
fn leftover_path_construction_passes_unchanged() {
    let mut a = Asm::new();
    a.emit("q");
    a.extend_subpath(vec![], "h");
    a.start_subpath(vec![(1, 1)], "m");
    a.start_subpath(vec![(2, 2)], "m");
    a.extend_subpath(vec![(3, 3)], "l");
    assert_eq!(a.finish(), Some(vec!["q", "h", "m", "m", "l"]));
}
