//! Operator tables: how the ink scan and the rewrite classify operators, path
//! coordinates, character codes and width entries.

use pdf_crop_dual::ops::{char_codes, coord_pairs, rewrite_op, walk_op, width_index, RewriteOp, WalkOp};

#[test]
fn walk_op_classes() {
    let cases: &[(&str, WalkOp)] = &[
        ("BI", WalkOp::InlineImage),
        ("q", WalkOp::State),
        ("Q", WalkOp::State),
        ("cm", WalkOp::State),
        ("re", WalkOp::PathBuild),
        ("m", WalkOp::PathBuild),
        ("l", WalkOp::PathBuild),
        ("c", WalkOp::PathBuild),
        ("v", WalkOp::PathBuild),
        ("y", WalkOp::PathBuild),
        ("S", WalkOp::PathPaint),
        ("s", WalkOp::PathPaint),
        ("f", WalkOp::PathPaint),
        ("F", WalkOp::PathPaint),
        ("f*", WalkOp::PathPaint),
        ("B", WalkOp::PathPaint),
        ("B*", WalkOp::PathPaint),
        ("b", WalkOp::PathPaint),
        ("b*", WalkOp::PathPaint),
        ("W", WalkOp::PathEnd),
        ("W*", WalkOp::PathEnd),
        ("n", WalkOp::PathEnd),
        ("BT", WalkOp::TextObject),
        ("ET", WalkOp::TextObject),
        ("Tm", WalkOp::TextMove),
        ("Td", WalkOp::TextMove),
        ("TD", WalkOp::TextMove),
        ("T*", WalkOp::TextMove),
        ("Tj", WalkOp::TextShow),
        ("TJ", WalkOp::TextShow),
        ("'", WalkOp::TextShow),
        ("\"", WalkOp::TextShow),
        ("TL", WalkOp::TextState),
        ("Tw", WalkOp::TextState),
        ("Tc", WalkOp::TextState),
        ("Tz", WalkOp::TextState),
        ("Tf", WalkOp::TextState),
        ("Do", WalkOp::Draw),
        ("h", WalkOp::Ignored),
        ("g", WalkOp::Ignored),
        ("sh", WalkOp::Ignored),
        ("", WalkOp::Ignored),
        ("qq", WalkOp::Ignored),
        ("do", WalkOp::Ignored),
    ];
    for (op, want) in cases {
        assert_eq!(walk_op(op.as_bytes()), *want, "operator {op:?}");
    }
}

#[test]
fn rewrite_op_outside_text() {
    let cases: &[(&str, RewriteOp)] = &[
        ("q", RewriteOp::State),
        ("Q", RewriteOp::State),
        ("cm", RewriteOp::State),
        ("re", RewriteOp::Path),
        ("h", RewriteOp::Path),
        ("f*", RewriteOp::Path),
        ("W*", RewriteOp::Path),
        ("n", RewriteOp::Path),
        ("BT", RewriteOp::BeginText),
        ("Tf", RewriteOp::TextState),
        ("TL", RewriteOp::TextState),
        ("Tm", RewriteOp::TextOutside),
        ("Tj", RewriteOp::TextOutside),
        ("'", RewriteOp::TextOutside),
        ("Do", RewriteOp::Draw),
        ("gs", RewriteOp::Keep),
        ("scn", RewriteOp::Keep),
        ("BMC", RewriteOp::Keep),
        ("EMC", RewriteOp::Keep),
        ("d", RewriteOp::Keep),
        // colour operators outside a text block, shading, inline images and
        // `ET` without `BT` make the page fall back
        ("g", RewriteOp::Unsupported),
        ("rg", RewriteOp::Unsupported),
        ("sh", RewriteOp::Unsupported),
        ("BI", RewriteOp::Unsupported),
        ("ET", RewriteOp::Unsupported),
        ("Tr", RewriteOp::Unsupported),
    ];
    for (op, want) in cases {
        assert_eq!(rewrite_op(op.as_bytes(), false), *want, "operator {op:?}");
    }
}

#[test]
fn rewrite_op_inside_text() {
    let cases: &[(&str, RewriteOp)] = &[
        ("ET", RewriteOp::BlockText),
        ("Tm", RewriteOp::BlockText),
        ("T*", RewriteOp::BlockText),
        ("TJ", RewriteOp::BlockText),
        ("\"", RewriteOp::BlockText),
        ("Tz", RewriteOp::BlockText),
        ("g", RewriteOp::BlockKeep),
        ("RG", RewriteOp::BlockKeep),
        ("k", RewriteOp::BlockKeep),
        ("Tr", RewriteOp::BlockKeep),
        ("Ts", RewriteOp::BlockKeep),
        ("gs", RewriteOp::BlockKeep),
        ("BMC", RewriteOp::BlockKeep),
        // graphics state, paths and nested text objects inside a block fall back
        ("q", RewriteOp::Unsupported),
        ("cm", RewriteOp::Unsupported),
        ("re", RewriteOp::Unsupported),
        ("BT", RewriteOp::Unsupported),
        ("Do", RewriteOp::Unsupported),
    ];
    for (op, want) in cases {
        assert_eq!(rewrite_op(op.as_bytes(), true), *want, "operator {op:?}");
    }
}

#[test]
fn text_block_passthrough_list() {
    let list = [
        "g", "G", "rg", "RG", "k", "K", "sc", "SC", "scn", "SCN", "cs", "CS", "gs", "w", "J", "j",
        "M", "d", "ri", "i", "Tr", "Ts", "MP", "BMC", "EMC",
    ];
    for op in list {
        assert_eq!(rewrite_op(op.as_bytes(), true), RewriteOp::BlockKeep, "operator {op:?}");
    }
}

#[test]
fn fallback_operators() {
    // inline images, shading, marked content with a property list, and
    // graphics state changes inside a text block make the page fall back
    for op in ["BI", "sh", "BDC", "DP", "d0", "d1"] {
        assert_eq!(rewrite_op(op.as_bytes(), false), RewriteOp::Unsupported, "operator {op:?}");
    }
    for op in ["q", "Q", "cm", "BI"] {
        assert_eq!(rewrite_op(op.as_bytes(), true), RewriteOp::Unsupported, "operator {op:?}");
    }
}

#[test]
fn kept_operators_draw_nothing_example() {
    for op in ["gs", "w", "BMC", "MP", "cs", "SCN", "ri", "i"] {
        assert_eq!(rewrite_op(op.as_bytes(), false), RewriteOp::Keep);
        assert_eq!(walk_op(op.as_bytes()), WalkOp::Ignored);
    }
    for op in ["g", "K", "Tr"] {
        assert_eq!(rewrite_op(op.as_bytes(), true), RewriteOp::BlockKeep);
        assert_eq!(walk_op(op.as_bytes()), WalkOp::Ignored);
    }
}

#[test]
fn scanned_operators_are_handled_example() {
    for op in ["q", "cm", "re", "c", "S", "n", "BT", "Td", "TJ", "Tf", "Do"] {
        assert_ne!(walk_op(op.as_bytes()), WalkOp::Ignored);
        assert_ne!(rewrite_op(op.as_bytes(), false), RewriteOp::Unsupported);
    }
}

#[test]
fn coord_pairs_of_path_operators() {
    assert_eq!(coord_pairs(b"m"), vec![(0, 1)]);
    assert_eq!(coord_pairs(b"l"), vec![(0, 1)]);
    assert_eq!(coord_pairs(b"re"), vec![(0, 1)]);
    assert_eq!(coord_pairs(b"c"), vec![(0, 1), (2, 3), (4, 5)]);
    assert_eq!(coord_pairs(b"v"), vec![(0, 1), (2, 3)]);
    assert_eq!(coord_pairs(b"y"), vec![(0, 1), (2, 3)]);
    assert!(coord_pairs(b"h").is_empty());
    assert!(coord_pairs(b"f").is_empty());
    assert!(coord_pairs(b"cm").is_empty());
}

#[test]
fn char_codes_single_byte() {
    assert_eq!(char_codes(b"Ab ", false), vec![65, 98, 32]);
    assert_eq!(char_codes(&[0xFF, 0x00], false), vec![255, 0]);
    assert!(char_codes(b"", false).is_empty());
}

#[test]
fn char_codes_two_byte_drops_odd_tail() {
    assert_eq!(char_codes(&[0x01, 0x02, 0xFF, 0xFE], true), vec![0x0102, 0xFFFE]);
    assert_eq!(char_codes(&[0x00, 0x41, 0x7F], true), vec![0x0041]);
    assert!(char_codes(&[0x12], true).is_empty());
}

#[test]
fn width_index_in_and_out_of_table() {
    assert_eq!(width_index(32, 3, 32), Some(0));
    assert_eq!(width_index(32, 3, 34), Some(2));
    assert_eq!(width_index(32, 3, 35), None);
    assert_eq!(width_index(32, 3, 31), None);
    assert_eq!(width_index(0, 0, 0), None);
    assert_eq!(width_index(-5, 10, 0), Some(5));
}
