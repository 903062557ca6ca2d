//! Operator tables of the content stream: how the ink scan and the rewrite treat
//! each operator, which operands of a path operator are coordinates, how a
//! string's bytes become character codes, and which width entry a code takes.
use vstd::prelude::*;

verus! {

pub const DQUOTE: u8 = 0x22;
pub const QUOTE: u8 = 0x27;
pub const STAR: u8 = 0x2A;
pub const B_: u8 = 0x42;
pub const C_: u8 = 0x43;
pub const D_: u8 = 0x44;
pub const E_: u8 = 0x45;
pub const F_: u8 = 0x46;
pub const G_: u8 = 0x47;
pub const I_: u8 = 0x49;
pub const J_: u8 = 0x4A;
pub const K_: u8 = 0x4B;
pub const L_: u8 = 0x4C;
pub const M_: u8 = 0x4D;
pub const N_: u8 = 0x4E;
pub const P_: u8 = 0x50;
pub const Q_: u8 = 0x51;
pub const R_: u8 = 0x52;
pub const S_: u8 = 0x53;
pub const T_: u8 = 0x54;
pub const W_: u8 = 0x57;
pub const B: u8 = 0x62;
pub const C: u8 = 0x63;
pub const D: u8 = 0x64;
pub const E: u8 = 0x65;
pub const F: u8 = 0x66;
pub const G: u8 = 0x67;
pub const H: u8 = 0x68;
pub const I: u8 = 0x69;
pub const J: u8 = 0x6A;
pub const K: u8 = 0x6B;
pub const L: u8 = 0x6C;
pub const M: u8 = 0x6D;
pub const N: u8 = 0x6E;
pub const O: u8 = 0x6F;
pub const Q: u8 = 0x71;
pub const R: u8 = 0x72;
pub const S: u8 = 0x73;
pub const T: u8 = 0x74;
pub const V: u8 = 0x76;
pub const W: u8 = 0x77;
pub const Y: u8 = 0x79;
pub const Z: u8 = 0x7A;

fn is1(op: &[u8], a: u8) -> (r: bool)
    ensures
        r == (op@ == seq![a]),
{
    let r = op.len() == 1 && op[0] == a;
    if r {
        assert(op@ =~= seq![a]);
    }
    r
}

fn is2(op: &[u8], a: u8, b: u8) -> (r: bool)
    ensures
        r == (op@ == seq![a, b]),
{
    let r = op.len() == 2 && op[0] == a && op[1] == b;
    if r {
        assert(op@ =~= seq![a, b]);
    }
    r
}

fn is3(op: &[u8], a: u8, b: u8, c: u8) -> (r: bool)
    ensures
        r == (op@ == seq![a, b, c]),
{
    let r = op.len() == 3 && op[0] == a && op[1] == b && op[2] == c;
    if r {
        assert(op@ =~= seq![a, b, c]);
    }
    r
}

// ----- operator groups -----

/// `q`, `Q`, `cm`: graphics state save, restore and transform.
pub open spec fn is_state_op(op: Seq<u8>) -> bool {
    op == seq![Q] || op == seq![Q_] || op == seq![C, M]
}

/// `re`, `m`, `l`, `c`, `v`, `y`: path construction with coordinates.
pub open spec fn is_path_build_op(op: Seq<u8>) -> bool {
    op == seq![R, E] || op == seq![M] || op == seq![L] || op == seq![C] || op == seq![V] || op
        == seq![Y]
}

/// `S s f F f* B B* b b*`: path painting.
pub open spec fn is_path_paint_op(op: Seq<u8>) -> bool {
    op == seq![S_] || op == seq![S] || op == seq![F] || op == seq![F_] || op == seq![F, STAR]
        || op == seq![B_] || op == seq![B_, STAR] || op == seq![B] || op == seq![B, STAR]
}

/// `W W* n`: clipping and ending a path without paint.
pub open spec fn is_path_end_op(op: Seq<u8>) -> bool {
    op == seq![W_] || op == seq![W_, STAR] || op == seq![N]
}

/// `Tm Td TD T*`: text positioning.
pub open spec fn is_text_move_op(op: Seq<u8>) -> bool {
    op == seq![T_, M] || op == seq![T_, D] || op == seq![T_, D_] || op == seq![T_, STAR]
}

/// `Tj TJ ' "`: text showing.
pub open spec fn is_text_show_op(op: Seq<u8>) -> bool {
    op == seq![T_, J] || op == seq![T_, J_] || op == seq![QUOTE] || op == seq![DQUOTE]
}

/// `TL Tw Tc Tz Tf`: text state.
pub open spec fn is_text_state_op(op: Seq<u8>) -> bool {
    op == seq![T_, L_] || op == seq![T_, W] || op == seq![T_, C] || op == seq![T_, Z] || op
        == seq![T_, F]
}

/// `w J j M d ri i gs CS cs SC sc SCN scn MP BMC EMC`: state and marked-content
/// operators that draw nothing.
pub open spec fn is_inkless_op(op: Seq<u8>) -> bool {
    op == seq![W] || op == seq![J_] || op == seq![J] || op == seq![M_] || op == seq![D] || op
        == seq![R, I] || op == seq![I] || op == seq![G, S] || op == seq![C_, S_] || op == seq![
        C,
        S,
    ] || op == seq![S_, C_] || op == seq![S, C] || op == seq![S_, C_, N_] || op == seq![S, C, N]
        || op == seq![M_, P_] || op == seq![B_, M_, C_] || op == seq![E_, M_, C_]
}

/// `g G rg RG k K Tr Ts`: colour and text appearance operators that a text
/// block may hold besides its text operators.
pub open spec fn is_text_appearance_op(op: Seq<u8>) -> bool {
    op == seq![G] || op == seq![G_] || op == seq![R, G] || op == seq![R_, G_] || op == seq![K]
        || op == seq![K_] || op == seq![T_, R] || op == seq![T_, S]
}

/// How the ink scan treats an operator.
#[derive(PartialEq, Eq, Structural, Debug, Clone, Copy)]
pub enum WalkOp {
    /// `BI`: an inline image, skipped in the stream.
    InlineImage,
    /// `q Q cm`.
    State,
    /// `re m l c v y`.
    PathBuild,
    /// `S s f F f* B B* b b*`: the path becomes ink.
    PathPaint,
    /// `W W* n`: the path is dropped.
    PathEnd,
    /// `BT ET`.
    TextObject,
    /// `Tm Td TD T*`.
    TextMove,
    /// `Tj TJ ' "`.
    TextShow,
    /// `TL Tw Tc Tz Tf`.
    TextState,
    /// `Do`.
    Draw,
    /// Everything else has no effect on the scan.
    Ignored,
}

pub open spec fn spec_walk_op(op: Seq<u8>) -> WalkOp {
    if op == seq![B_, I_] {
        WalkOp::InlineImage
    } else if is_state_op(op) {
        WalkOp::State
    } else if is_path_build_op(op) {
        WalkOp::PathBuild
    } else if is_path_paint_op(op) {
        WalkOp::PathPaint
    } else if is_path_end_op(op) {
        WalkOp::PathEnd
    } else if op == seq![B_, T_] || op == seq![E_, T_] {
        WalkOp::TextObject
    } else if is_text_move_op(op) {
        WalkOp::TextMove
    } else if is_text_show_op(op) {
        WalkOp::TextShow
    } else if is_text_state_op(op) {
        WalkOp::TextState
    } else if op == seq![D_, O] {
        WalkOp::Draw
    } else {
        WalkOp::Ignored
    }
}

/// How the rewrite treats an operator.
#[derive(PartialEq, Eq, Structural, Debug, Clone, Copy)]
pub enum RewriteOp {
    /// Inside a text block: `ET` and the text move, show and state operators.
    BlockText,
    /// Inside a text block: colour, appearance, state and marked-content
    /// operators, kept in the block unchanged.
    BlockKeep,
    /// Outside a text block: `q Q cm`.
    State,
    /// Outside a text block: path construction, painting, clipping, `h`.
    Path,
    /// Outside a text block: `BT`.
    BeginText,
    /// Outside a text block: `TL Tw Tc Tz Tf`.
    TextState,
    /// Outside a text block: text moves and shows, which take no effect there
    /// and pass unchanged.
    TextOutside,
    /// Outside a text block: `Do`.
    Draw,
    /// Outside a text block: state and marked-content operators passed
    /// unchanged.
    Keep,
    /// Any other operator: its ink cannot be placed, so the page falls back.
    Unsupported,
}

pub open spec fn spec_rewrite_op(op: Seq<u8>, in_text: bool) -> RewriteOp {
    if in_text {
        if op == seq![E_, T_] || is_text_move_op(op) || is_text_state_op(op) || is_text_show_op(
            op,
        ) {
            RewriteOp::BlockText
        } else if is_text_appearance_op(op) || is_inkless_op(op) {
            RewriteOp::BlockKeep
        } else {
            RewriteOp::Unsupported
        }
    } else if is_state_op(op) {
        RewriteOp::State
    } else if is_path_build_op(op) || op == seq![H] || is_path_paint_op(op) || is_path_end_op(
        op,
    ) {
        RewriteOp::Path
    } else if op == seq![B_, T_] {
        RewriteOp::BeginText
    } else if is_text_state_op(op) {
        RewriteOp::TextState
    } else if is_text_move_op(op) || is_text_show_op(op) {
        RewriteOp::TextOutside
    } else if op == seq![D_, O] {
        RewriteOp::Draw
    } else if is_inkless_op(op) {
        RewriteOp::Keep
    } else {
        RewriteOp::Unsupported
    }
}

fn state_op(op: &[u8]) -> (r: bool)
    ensures
        r == is_state_op(op@),
{
    is1(op, Q) || is1(op, Q_) || is2(op, C, M)
}

fn path_build_op(op: &[u8]) -> (r: bool)
    ensures
        r == is_path_build_op(op@),
{
    is2(op, R, E) || is1(op, M) || is1(op, L) || is1(op, C) || is1(op, V) || is1(op, Y)
}

fn path_paint_op(op: &[u8]) -> (r: bool)
    ensures
        r == is_path_paint_op(op@),
{
    is1(op, S_) || is1(op, S) || is1(op, F) || is1(op, F_) || is2(op, F, STAR) || is1(op, B_)
        || is2(op, B_, STAR) || is1(op, B) || is2(op, B, STAR)
}

fn path_end_op(op: &[u8]) -> (r: bool)
    ensures
        r == is_path_end_op(op@),
{
    is1(op, W_) || is2(op, W_, STAR) || is1(op, N)
}

fn text_move_op(op: &[u8]) -> (r: bool)
    ensures
        r == is_text_move_op(op@),
{
    is2(op, T_, M) || is2(op, T_, D) || is2(op, T_, D_) || is2(op, T_, STAR)
}

fn text_show_op(op: &[u8]) -> (r: bool)
    ensures
        r == is_text_show_op(op@),
{
    is2(op, T_, J) || is2(op, T_, J_) || is1(op, QUOTE) || is1(op, DQUOTE)
}

fn text_state_op(op: &[u8]) -> (r: bool)
    ensures
        r == is_text_state_op(op@),
{
    is2(op, T_, L_) || is2(op, T_, W) || is2(op, T_, C) || is2(op, T_, Z) || is2(op, T_, F)
}

fn inkless_op(op: &[u8]) -> (r: bool)
    ensures
        r == is_inkless_op(op@),
{
    is1(op, W) || is1(op, J_) || is1(op, J) || is1(op, M_) || is1(op, D) || is2(op, R, I) || is1(
        op,
        I,
    ) || is2(op, G, S) || is2(op, C_, S_) || is2(op, C, S) || is2(op, S_, C_) || is2(op, S, C)
        || is3(op, S_, C_, N_) || is3(op, S, C, N) || is2(op, M_, P_) || is3(op, B_, M_, C_)
        || is3(op, E_, M_, C_)
}

fn text_appearance_op(op: &[u8]) -> (r: bool)
    ensures
        r == is_text_appearance_op(op@),
{
    is1(op, G) || is1(op, G_) || is2(op, R, G) || is2(op, R_, G_) || is1(op, K) || is1(op, K_)
        || is2(op, T_, R) || is2(op, T_, S)
}

/// How the ink scan treats the operator `op`.
pub fn walk_op(op: &[u8]) -> (r: WalkOp)
    ensures
        r == spec_walk_op(op@),
{
    if is2(op, B_, I_) {
        WalkOp::InlineImage
    } else if state_op(op) {
        WalkOp::State
    } else if path_build_op(op) {
        WalkOp::PathBuild
    } else if path_paint_op(op) {
        WalkOp::PathPaint
    } else if path_end_op(op) {
        WalkOp::PathEnd
    } else if is2(op, B_, T_) || is2(op, E_, T_) {
        WalkOp::TextObject
    } else if text_move_op(op) {
        WalkOp::TextMove
    } else if text_show_op(op) {
        WalkOp::TextShow
    } else if text_state_op(op) {
        WalkOp::TextState
    } else if is2(op, D_, O) {
        WalkOp::Draw
    } else {
        WalkOp::Ignored
    }
}

/// How the rewrite treats the operator `op`, inside a text block or not.
pub fn rewrite_op(op: &[u8], in_text: bool) -> (r: RewriteOp)
    ensures
        r == spec_rewrite_op(op@, in_text),
{
    if in_text {
        if is2(op, E_, T_) || text_move_op(op) || text_state_op(op) || text_show_op(op) {
            RewriteOp::BlockText
        } else if text_appearance_op(op) || inkless_op(op) {
            RewriteOp::BlockKeep
        } else {
            RewriteOp::Unsupported
        }
    } else if state_op(op) {
        RewriteOp::State
    } else if path_build_op(op) || is1(op, H) || path_paint_op(op) || path_end_op(op) {
        RewriteOp::Path
    } else if is2(op, B_, T_) {
        RewriteOp::BeginText
    } else if text_state_op(op) {
        RewriteOp::TextState
    } else if text_move_op(op) || text_show_op(op) {
        RewriteOp::TextOutside
    } else if is2(op, D_, O) {
        RewriteOp::Draw
    } else if inkless_op(op) {
        RewriteOp::Keep
    } else {
        RewriteOp::Unsupported
    }
}


// ----- laws of the operator tables -----

/// What the rewrite copies unchanged draws nothing: an operator that the
/// rewrite keeps as it is, in a text block or outside one, is one the ink scan
/// ignores.
pub proof fn law_kept_operators_draw_nothing(op: Seq<u8>, in_text: bool)
    requires
        spec_rewrite_op(op, in_text) == RewriteOp::Keep || spec_rewrite_op(op, in_text)
            == RewriteOp::BlockKeep,
    ensures
        spec_walk_op(op) == WalkOp::Ignored,
{
    if op.len() > 0 {
        let a = op[0];
        if op.len() > 1 {
            let b = op[1];
            if op.len() > 2 {
                let c = op[2];
            }
        }
    }
}

/// Every operator that the ink scan acts on, other than `ET` and `BI`, is one
/// the rewrite handles outside a text block: none of them makes a page fall
/// back there.
pub proof fn law_scanned_operators_are_handled(op: Seq<u8>)
    requires
        spec_walk_op(op) != WalkOp::Ignored,
        op != seq![E_, T_],
        op != seq![B_, I_],
    ensures
        spec_rewrite_op(op, false) != RewriteOp::Unsupported,
{
}

/// Text is rewritten where the ink scan measures it: inside a text block, `ET`
/// and every operator that the ink scan treats as a text move, a text show or
/// a text state change is handled as text of the block, never as a fallback.
pub proof fn law_text_operators_rewritten_in_block(op: Seq<u8>)
    requires
        op == seq![E_, T_] || spec_walk_op(op) == WalkOp::TextMove || spec_walk_op(op)
            == WalkOp::TextShow || spec_walk_op(op) == WalkOp::TextState,
    ensures
        spec_rewrite_op(op, true) == RewriteOp::BlockText,
{
}

/// The text operators, written out byte by byte: `ET`, `Tm Td TD T*`,
/// `Tj TJ ' "` and `TL Tw Tc Tz Tf` are text of the block inside a text block,
/// and the scan sees the moves, shows and state changes among them as such.
pub proof fn law_text_operator_bytes(op: Seq<u8>)
    requires
        op == seq![0x45u8, 0x54u8] || op == seq![0x54u8, 0x6Du8] || op == seq![0x54u8, 0x64u8]
            || op == seq![0x54u8, 0x44u8] || op == seq![0x54u8, 0x2Au8] || op == seq![
            0x54u8,
            0x6Au8,
        ] || op == seq![0x54u8, 0x4Au8] || op == seq![0x27u8] || op == seq![0x22u8] || op
            == seq![0x54u8, 0x4Cu8] || op == seq![0x54u8, 0x77u8] || op == seq![0x54u8, 0x63u8]
            || op == seq![0x54u8, 0x7Au8] || op == seq![0x54u8, 0x66u8],
    ensures
        spec_rewrite_op(op, true) == RewriteOp::BlockText,
        op != seq![0x45u8, 0x54u8] ==> spec_walk_op(op) != WalkOp::Ignored,
{
}

/// Outside a text block, a text move or show passes unchanged and a text state
/// change updates the state: none of them makes the page fall back.
pub proof fn law_text_operators_outside_block(op: Seq<u8>)
    ensures
        spec_walk_op(op) == WalkOp::TextMove || spec_walk_op(op) == WalkOp::TextShow
            ==> spec_rewrite_op(op, false) == RewriteOp::TextOutside,
        spec_walk_op(op) == WalkOp::TextState ==> spec_rewrite_op(op, false)
            == RewriteOp::TextState,
{
    if op.len() > 0 {
        let a = op[0];
        if op.len() > 1 {
            let b = op[1];
            if op.len() > 2 {
                let c = op[2];
            }
        }
    }
}

// ----- coordinates of path operators -----

/// Operand index pairs `(x, y)` that are coordinates of a path construction
/// operator: one point for `m l re`, three for `c`, two for `v y`, none else.
pub open spec fn spec_coord_pairs(op: Seq<u8>) -> Seq<(usize, usize)> {
    if op == seq![M] || op == seq![L] || op == seq![R, E] {
        seq![(0usize, 1usize)]
    } else if op == seq![C] {
        seq![(0usize, 1usize), (2usize, 3usize), (4usize, 5usize)]
    } else if op == seq![V] || op == seq![Y] {
        seq![(0usize, 1usize), (2usize, 3usize)]
    } else {
        Seq::empty()
    }
}

/// The operand index pairs that hold the coordinates of a path operator.
pub fn coord_pairs(op: &[u8]) -> (r: Vec<(usize, usize)>)
    ensures
        r@ == spec_coord_pairs(op@),
{
    let mut r: Vec<(usize, usize)> = Vec::new();
    if is1(op, M) || is1(op, L) || is2(op, R, E) {
        r.push((0, 1));
    } else if is1(op, C) {
        r.push((0, 1));
        r.push((2, 3));
        r.push((4, 5));
    } else if is1(op, V) || is1(op, Y) {
        r.push((0, 1));
        r.push((2, 3));
    }
    assert(r@ =~= spec_coord_pairs(op@));
    r
}

// ----- character codes and widths -----

/// Character codes of a string: big-endian byte pairs for a two-byte (CID)
/// font, a trailing odd byte dropped; single bytes otherwise.
pub open spec fn spec_char_codes(s: Seq<u8>, two_byte: bool) -> Seq<u32> {
    if two_byte {
        Seq::new(s.len() / 2, |i: int| (s[2 * i] * 256 + s[2 * i + 1]) as u32)
    } else {
        Seq::new(s.len(), |i: int| s[i] as u32)
    }
}

/// The character codes of the string `s`.
pub fn char_codes(s: &[u8], two_byte: bool) -> (r: Vec<u32>)
    ensures
        r@ == spec_char_codes(s@, two_byte),
{
    let mut r: Vec<u32> = Vec::new();
    if two_byte {
        let n = s.len() / 2;
        let mut i: usize = 0;
        while i < n
            invariant
                n == s@.len() / 2,
                s@.len() <= usize::MAX,
                i <= n,
                r@ =~= spec_char_codes(s@, true).take(i as int),
            decreases n - i,
        {
            let hi = s[2 * i] as u32;
            let lo = s[2 * i + 1] as u32;
            r.push(hi * 256 + lo);
            i += 1;
        }
    } else {
        let mut i: usize = 0;
        while i < s.len()
            invariant
                i <= s@.len(),
                r@ =~= spec_char_codes(s@, false).take(i as int),
            decreases s@.len() - i,
        {
            r.push(s[i] as u32);
            i += 1;
        }
    }
    r
}

/// Index of the width entry of `code` in a simple font whose width table
/// starts at code `first` and has `count` entries; `None` outside the table.
pub open spec fn spec_width_index(first: i64, count: usize, code: u32) -> Option<usize> {
    let i = code - first;
    if 0 <= i < count {
        Some(i as usize)
    } else {
        None
    }
}

/// The width entry of `code`, if the table covers it.
pub fn width_index(first: i64, count: usize, code: u32) -> (r: Option<usize>)
    requires
        code - first <= i64::MAX,
    ensures
        r == spec_width_index(first, count, code),
{
    let i = code as i64 - first;
    if i >= 0 && (i as u64) < (count as u64) {
        Some(i as usize)
    } else {
        None
    }
}

} // verus!
