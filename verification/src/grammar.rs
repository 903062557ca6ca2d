//! The content-stream grammar as mathematical functions over byte sequences.
//!
//! Each function takes the whole stream `s` and a position `p`, and says what the
//! lexer finds there and where it stops. The executable lexer in `lexer.rs` is
//! proved to compute exactly these functions.
use vstd::prelude::*;

verus! {

// ----- byte constants -----
pub const NUL: u8 = 0x00;
pub const HT: u8 = 0x09;
pub const LF: u8 = 0x0A;
pub const FF: u8 = 0x0C;
pub const CR: u8 = 0x0D;
pub const SP: u8 = 0x20;
pub const HASH: u8 = 0x23;
pub const PERCENT: u8 = 0x25;
pub const LPAREN: u8 = 0x28;
pub const RPAREN: u8 = 0x29;
pub const PLUS: u8 = 0x2B;
pub const MINUS: u8 = 0x2D;
pub const DOT: u8 = 0x2E;
pub const SLASH: u8 = 0x2F;
pub const DIGIT0: u8 = 0x30;
pub const DIGIT7: u8 = 0x37;
pub const DIGIT9: u8 = 0x39;
pub const LT: u8 = 0x3C;
pub const GT: u8 = 0x3E;
pub const UPPER_A: u8 = 0x41;
pub const UPPER_D: u8 = 0x44;
pub const UPPER_E: u8 = 0x45;
pub const UPPER_F: u8 = 0x46;
pub const UPPER_I: u8 = 0x49;
pub const UPPER_L: u8 = 0x4C;
pub const LBRACKET: u8 = 0x5B;
pub const BACKSLASH: u8 = 0x5C;
pub const RBRACKET: u8 = 0x5D;
pub const LOWER_A: u8 = 0x61;
pub const LOWER_B: u8 = 0x62;
pub const LOWER_E: u8 = 0x65;
pub const LOWER_F: u8 = 0x66;
pub const LOWER_G: u8 = 0x67;
pub const LOWER_H: u8 = 0x68;
pub const LOWER_N: u8 = 0x6E;
pub const LOWER_R: u8 = 0x72;
pub const LOWER_T: u8 = 0x74;
pub const LBRACE: u8 = 0x7B;
pub const RBRACE: u8 = 0x7D;
pub const BS: u8 = 0x08;

// ----- character classes -----

/// White space: space, tab, CR, LF, form feed and NUL.
pub open spec fn spec_is_ws(b: u8) -> bool {
    b == SP || b == HT || b == CR || b == LF || b == FF || b == NUL
}

/// Delimiters: `( ) < > [ ] { } / %`.
pub open spec fn spec_is_delim(b: u8) -> bool {
    b == LPAREN || b == RPAREN || b == LT || b == GT || b == LBRACKET || b == RBRACKET
        || b == LBRACE || b == RBRACE || b == SLASH || b == PERCENT
}

/// A regular byte belongs to a bare word or a name.
pub open spec fn spec_is_regular(b: u8) -> bool {
    !spec_is_ws(b) && !spec_is_delim(b)
}

pub open spec fn spec_is_digit(b: u8) -> bool {
    DIGIT0 <= b <= DIGIT9
}

pub open spec fn spec_is_octal(b: u8) -> bool {
    DIGIT0 <= b <= DIGIT7
}

pub open spec fn spec_is_hex(b: u8) -> bool {
    spec_is_digit(b) || (LOWER_A <= b <= LOWER_F) || (UPPER_A <= b <= UPPER_F)
}

/// Value of a hexadecimal digit.
pub open spec fn spec_hex_val(b: u8) -> int {
    if spec_is_digit(b) {
        b - DIGIT0
    } else if LOWER_A <= b <= LOWER_F {
        b - LOWER_A + 10
    } else {
        b - UPPER_A + 10
    }
}

/// A byte that may begin a number: digit, sign or point.
pub open spec fn spec_num_start(b: u8) -> bool {
    spec_is_digit(b) || b == PLUS || b == MINUS || b == DOT
}

/// A byte that continues a number: digit or point.
pub open spec fn spec_num_char(b: u8) -> bool {
    spec_is_digit(b) || b == DOT
}

// ----- white space and comments -----

/// Position after the white space and `%` comments that start at `p`.
pub open spec fn skip_ws(s: Seq<u8>, p: int) -> int
    decreases s.len() - p, 0int,
{
    if 0 <= p < s.len() && spec_is_ws(s[p]) {
        skip_ws(s, p + 1)
    } else if 0 <= p < s.len() && s[p] == PERCENT {
        skip_comment(s, p + 1)
    } else {
        p
    }
}

/// Inside a comment at `p`: the comment runs up to the next CR or LF, then the
/// white space skipping goes on.
pub open spec fn skip_comment(s: Seq<u8>, p: int) -> int
    decreases s.len() - p, 1int,
{
    if p < 0 || p >= s.len() || s[p] == LF || s[p] == CR {
        skip_ws(s, p)
    } else {
        skip_comment(s, p + 1)
    }
}

// ----- bare words -----

/// End of the run of regular bytes that starts at `p`.
pub open spec fn word_end(s: Seq<u8>, p: int) -> int
    decreases s.len() - p,
{
    if 0 <= p < s.len() && spec_is_regular(s[p]) {
        word_end(s, p + 1)
    } else {
        p
    }
}

// ----- names -----

/// Whether a `#xx` escape of a name starts at `p`.
pub open spec fn name_hex_escape_at(s: Seq<u8>, p: int) -> bool {
    0 <= p && p + 2 < s.len() && s[p] == HASH && spec_is_hex(s[p + 1]) && spec_is_hex(s[p + 2])
}

/// Decoded bytes of the name body starting at `p` (after `/`), and where it ends.
pub open spec fn name(s: Seq<u8>, p: int) -> (Seq<u8>, int)
    decreases s.len() - p,
{
    if p < 0 || p >= s.len() || !spec_is_regular(s[p]) {
        (Seq::empty(), p)
    } else if name_hex_escape_at(s, p) {
        let rest = name(s, p + 3);
        (seq![(spec_hex_val(s[p + 1]) * 16 + spec_hex_val(s[p + 2])) as u8] + rest.0, rest.1)
    } else {
        let rest = name(s, p + 1);
        (seq![s[p]] + rest.0, rest.1)
    }
}

// ----- numbers -----

pub open spec fn sign_len(s: Seq<u8>, p: int) -> int {
    if 0 <= p < s.len() && (s[p] == PLUS || s[p] == MINUS) {
        1
    } else {
        0
    }
}

/// End of the run of digits and points that starts at `p`.
pub open spec fn digits_end(s: Seq<u8>, p: int) -> int
    decreases s.len() - p,
{
    if 0 <= p < s.len() && spec_num_char(s[p]) {
        digits_end(s, p + 1)
    } else {
        p
    }
}

/// End of the number text at `p`: an optional sign, then digits and points.
pub open spec fn num_end(s: Seq<u8>, p: int) -> int {
    digits_end(s, p + sign_len(s, p))
}

/// Number of points in `t`.
pub open spec fn count_dots(t: Seq<u8>) -> nat
    decreases t.len(),
{
    if t.len() == 0 {
        0
    } else {
        count_dots(t.drop_last()) + if t.last() == DOT {
            1nat
        } else {
            0nat
        }
    }
}

/// Whether `t` holds a decimal digit.
pub open spec fn has_digit(t: Seq<u8>) -> bool {
    exists|i: int| 0 <= i < t.len() && spec_is_digit(t[i])
}

/// The body of a number (after its sign) is a decimal number when it has at most
/// one point and at least one digit.
pub open spec fn decimal_body(t: Seq<u8>) -> bool {
    count_dots(t) <= 1 && has_digit(t)
}

/// Whether the number text at `p` is a number; then its text is `s[p..num_end]`.
pub open spec fn num_ok(s: Seq<u8>, p: int) -> bool {
    decimal_body(s.subrange(p + sign_len(s, p), num_end(s, p)))
}

// ----- literal strings -----

/// Prepends `b` to a string result that may have failed.
pub open spec fn cons_str(b: u8, r: (Option<Seq<u8>>, int)) -> (Option<Seq<u8>>, int) {
    match r.0 {
        Some(t) => (Some(seq![b] + t), r.1),
        None => (None, r.1),
    }
}

/// Value of up to three octal digits starting at `p`, with the position after them.
pub open spec fn octal(s: Seq<u8>, p: int, v: int, n: int) -> (int, int)
    decreases 3 - n,
{
    if n < 3 && 0 <= p < s.len() && spec_is_octal(s[p]) {
        octal(s, p + 1, v * 8 + (s[p] - DIGIT0), n + 1)
    } else {
        (v, p)
    }
}

/// The escape after a backslash at `p`: `None` at the end of the data; else the
/// byte it stands for (`None` for a line continuation) and the position after it.
pub open spec fn escape(s: Seq<u8>, p: int) -> Option<(Option<u8>, int)> {
    if p < 0 || p >= s.len() {
        None
    } else {
        let c = s[p];
        if c == LOWER_N {
            Some((Some(LF), p + 1))
        } else if c == LOWER_R {
            Some((Some(CR), p + 1))
        } else if c == LOWER_T {
            Some((Some(HT), p + 1))
        } else if c == LOWER_B {
            Some((Some(BS), p + 1))
        } else if c == LOWER_F {
            Some((Some(FF), p + 1))
        } else if c == CR {
            if p + 1 < s.len() && s[p + 1] == LF {
                Some((None, p + 2))
            } else {
                Some((None, p + 1))
            }
        } else if c == LF {
            Some((None, p + 1))
        } else if spec_is_octal(c) {
            let r = octal(s, p, 0, 0);
            Some((Some((r.0 % 256) as u8), r.1))
        } else {
            Some((Some(c), p + 1))
        }
    }
}

/// Body of a literal string from `p` (after the opening parenthesis) at nesting
/// `depth`: the bytes it stands for, or `None` when the data ends first; and the
/// position where the lexer stops.
pub open spec fn lit(s: Seq<u8>, p: int, depth: nat) -> (Option<Seq<u8>>, int)
    decreases s.len() - p,
{
    if p < 0 || p >= s.len() {
        (None, p)
    } else {
        let b = s[p];
        if b == LPAREN {
            cons_str(b, lit(s, p + 1, depth + 1))
        } else if b == RPAREN {
            if depth <= 1 {
                (Some(Seq::empty()), p + 1)
            } else {
                cons_str(b, lit(s, p + 1, (depth - 1) as nat))
            }
        } else if b == BACKSLASH {
            match escape(s, p + 1) {
                None => (None, p + 1),
                Some((c, q)) => {
                    proof {
                        lemma_escape_advances(s, p + 1);
                    }
                    match c {
                        Some(x) => cons_str(x, lit(s, q, depth)),
                        None => lit(s, q, depth),
                    }
                },
            }
        } else {
            cons_str(b, lit(s, p + 1, depth))
        }
    }
}

// ----- hexadecimal strings -----

/// Hex digits of a hexadecimal string from `p` (after `<`), or `None` at a byte
/// that is neither a hex digit, white space nor `>`; and the position where the
/// lexer stops.
pub open spec fn hex_scan(s: Seq<u8>, p: int) -> (Option<Seq<u8>>, int)
    decreases s.len() - p,
{
    if p < 0 || p >= s.len() {
        (Some(Seq::empty()), p)
    } else if s[p] == GT {
        (Some(Seq::empty()), p + 1)
    } else if spec_is_ws(s[p]) {
        hex_scan(s, p + 1)
    } else if spec_is_hex(s[p]) {
        cons_str(s[p], hex_scan(s, p + 1))
    } else {
        (None, p)
    }
}

/// Hex digits padded with `0` to an even count.
pub open spec fn hex_padded(d: Seq<u8>) -> Seq<u8> {
    if d.len() % 2 == 1 {
        d.push(DIGIT0)
    } else {
        d
    }
}

/// Bytes that a sequence of hex digits stands for: each pair is one byte, and a
/// lone last digit is read as followed by `0`.
pub open spec fn hex_bytes(d: Seq<u8>) -> Seq<u8> {
    let e = hex_padded(d);
    Seq::new(
        e.len() / 2,
        |i: int| (spec_hex_val(e[2 * i]) * 16 + spec_hex_val(e[2 * i + 1])) as u8,
    )
}

/// Whether a hexadecimal string from `p` (after `<`) is closed by `>` before
/// the data ends and before any byte that is neither a hex digit nor white
/// space.
pub open spec fn hex_closed(s: Seq<u8>, p: int) -> bool
    decreases s.len() - p,
{
    if p < 0 || p >= s.len() {
        false
    } else if s[p] == GT {
        true
    } else if spec_is_ws(s[p]) || spec_is_hex(s[p]) {
        hex_closed(s, p + 1)
    } else {
        false
    }
}

// ----- values -----

/// Whether the lexer moved forward from `p` to `e` within the data. A loop or a
/// recursion of the lexer that does not move reads the same bytes again forever.
pub open spec fn moved(s: Seq<u8>, p: int, e: int) -> bool {
    p < e <= s.len()
}

/// A value of the content stream.
pub enum SVal {
    /// A number, by its text (sign, digits and at most one point).
    Num(Seq<u8>),
    /// A name, decoded.
    Name(Seq<u8>),
    /// A literal or hexadecimal string, decoded.
    Str(Seq<u8>),
    /// An array of values.
    Arr(Seq<SVal>),
}

/// What one value read gives.
pub enum ParsedS {
    Val(SVal),
    Word(Seq<u8>),
    Dict,
    Fail,
    /// The lexer never returns: it keeps reading at a position without moving.
    Stall,
}

/// What the rest of an array gives.
pub enum ArrS {
    Done(Seq<SVal>, int),
    Fail(int),
    Stall,
}

/// What skipping a dictionary or a dictionary value gives.
pub enum SkipS {
    Done(int),
    Fail(int),
    Stall,
}

/// What the next item of the stream is.
pub enum ItemS {
    Op(Seq<u8>),
    Val(SVal),
}

pub enum NextS {
    Item(ItemS, int),
    End(int),
    Stall,
}

/// One value read at `p`, and the position after it.
pub open spec fn parse_val(s: Seq<u8>, p: int) -> (ParsedS, int)
    decreases s.len() - p, 0int,
{
    let q = skip_ws(s, p);
    proof {
        lemma_skip_ws_ge(s, p);
    }
    if q < 0 || q >= s.len() {
        (ParsedS::Fail, q)
    } else {
        let b = s[q];
        if b == SLASH {
            let r = name(s, q + 1);
            (ParsedS::Val(SVal::Name(r.0)), r.1)
        } else if b == LPAREN {
            let r = lit(s, q + 1, 1);
            match r.0 {
                Some(t) => (ParsedS::Val(SVal::Str(t)), r.1),
                None => (ParsedS::Fail, r.1),
            }
        } else if b == LT {
            if q + 1 < s.len() && s[q + 1] == LT {
                match skip_dict(s, q + 2) {
                    SkipS::Done(e) => (ParsedS::Dict, e),
                    SkipS::Fail(e) => (ParsedS::Fail, e),
                    SkipS::Stall => (ParsedS::Stall, q),
                }
            } else {
                let r = hex_scan(s, q + 1);
                match r.0 {
                    Some(d) => (ParsedS::Val(SVal::Str(hex_bytes(d))), r.1),
                    None => (ParsedS::Fail, r.1),
                }
            }
        } else if b == LBRACKET {
            match arr(s, q + 1) {
                ArrS::Done(items, e) => (ParsedS::Val(SVal::Arr(items)), e),
                ArrS::Fail(e) => (ParsedS::Fail, e),
                ArrS::Stall => (ParsedS::Stall, q),
            }
        } else if spec_num_start(b) {
            let e = num_end(s, q);
            if num_ok(s, q) {
                (ParsedS::Val(SVal::Num(s.subrange(q, e))), e)
            } else {
                (ParsedS::Fail, e)
            }
        } else {
            let e = word_end(s, q);
            (ParsedS::Word(s.subrange(q, e)), e)
        }
    }
}

/// The rest of an array from `p` (after `[` or after an element): its elements
/// and the position after `]`. Bare words and dictionaries inside are dropped.
pub open spec fn arr(s: Seq<u8>, p: int) -> ArrS
    decreases s.len() - p, 1int,
{
    let q = skip_ws(s, p);
    proof {
        lemma_skip_ws_ge(s, p);
    }
    if q < 0 || q >= s.len() {
        ArrS::Fail(q)
    } else if s[q] == RBRACKET {
        ArrS::Done(Seq::empty(), q + 1)
    } else {
        let r = parse_val(s, q);
        if !moved(s, p, r.1) {
            ArrS::Stall
        } else {
            match r.0 {
                ParsedS::Val(v) => match arr(s, r.1) {
                    ArrS::Done(rest, e) => ArrS::Done(seq![v] + rest, e),
                    other => other,
                },
                ParsedS::Word(_) => arr(s, r.1),
                ParsedS::Dict => arr(s, r.1),
                ParsedS::Fail => ArrS::Fail(r.1),
                ParsedS::Stall => ArrS::Stall,
            }
        }
    }
}

/// A bracketed array skipped by balancing `[` and `]` from `p` at nesting
/// `depth`: whether its brackets balance before the data ends, and the position
/// after the closing `]` (or the end of the data).
pub open spec fn bracket_end(s: Seq<u8>, p: int, depth: nat) -> (bool, int)
    decreases s.len() - p,
{
    if p < 0 || p >= s.len() {
        (false, p)
    } else if s[p] == LBRACKET {
        bracket_end(s, p + 1, depth + 1)
    } else if s[p] == RBRACKET {
        if depth <= 1 {
            (true, p + 1)
        } else {
            bracket_end(s, p + 1, (depth - 1) as nat)
        }
    } else {
        bracket_end(s, p + 1, depth)
    }
}

/// End of a dictionary key at `q`: a name, or else a bare word.
pub open spec fn key_end(s: Seq<u8>, q: int) -> int {
    if 0 <= q < s.len() && s[q] == SLASH {
        name(s, q + 1).1
    } else {
        word_end(s, q)
    }
}

/// Skips the entries of a dictionary from `p` (after `<<`) up to and with `>>`.
pub open spec fn skip_dict(s: Seq<u8>, p: int) -> SkipS
    decreases s.len() - p, 1int,
{
    let q = skip_ws(s, p);
    proof {
        lemma_skip_ws_ge(s, p);
    }
    if q < 0 || q >= s.len() {
        SkipS::Fail(q)
    } else if s[q] == GT && q + 1 < s.len() && s[q + 1] == GT {
        SkipS::Done(q + 2)
    } else {
        let k = key_end(s, q);
        proof {
            lemma_key_end_ge(s, q);
        }
        match skip_value(s, k) {
            SkipS::Done(e) => if !moved(s, p, e) {
                SkipS::Stall
            } else {
                skip_dict(s, e)
            },
            SkipS::Fail(e) => SkipS::Fail(e),
            SkipS::Stall => SkipS::Stall,
        }
    }
}

/// Skips one dictionary value at `p`: an array by brackets, a string, a nested
/// dictionary, a number that may be the start of `n n R`, a name or a bare word.
/// It fails at the end of the data, and when an array, a string or a nested
/// dictionary is not closed.
pub open spec fn skip_value(s: Seq<u8>, p: int) -> SkipS
    decreases s.len() - p, 0int,
{
    let q = skip_ws(s, p);
    proof {
        lemma_skip_ws_ge(s, p);
    }
    if q < 0 || q >= s.len() {
        SkipS::Fail(q)
    } else {
        let b = s[q];
        if b == LBRACKET {
            let r = bracket_end(s, q + 1, 1);
            if r.0 {
                SkipS::Done(r.1)
            } else {
                SkipS::Fail(r.1)
            }
        } else if b == LPAREN {
            let r = lit(s, q + 1, 1);
            if r.0 is Some {
                SkipS::Done(r.1)
            } else {
                SkipS::Fail(r.1)
            }
        } else if b == LT {
            if q + 1 < s.len() && s[q + 1] == LT {
                skip_dict(s, q + 2)
            } else if hex_closed(s, q + 1) {
                SkipS::Done(hex_scan(s, q + 1).1)
            } else {
                SkipS::Fail(hex_scan(s, q + 1).1)
            }
        } else if spec_num_start(b) {
            let q2 = skip_ws(s, num_end(s, q));
            if 0 <= q2 < s.len() && spec_num_start(s[q2]) {
                let q3 = skip_ws(s, num_end(s, q2));
                if 0 <= q3 < s.len() && spec_is_regular(s[q3]) {
                    SkipS::Done(word_end(s, q3))
                } else {
                    SkipS::Done(q3)
                }
            } else {
                SkipS::Done(q2)
            }
        } else if b == SLASH {
            SkipS::Done(name(s, q + 1).1)
        } else {
            SkipS::Done(word_end(s, q))
        }
    }
}

/// The next item at `p`: values come as values, non-empty bare words as
/// operators; dictionaries and empty words are passed over.
pub open spec fn next(s: Seq<u8>, p: int) -> NextS
    decreases s.len() - p,
{
    let r = parse_val(s, p);
    match r.0 {
        ParsedS::Val(v) => NextS::Item(ItemS::Val(v), r.1),
        ParsedS::Word(w) => if w.len() > 0 {
            NextS::Item(ItemS::Op(w), r.1)
        } else if !moved(s, p, r.1) {
            NextS::Stall
        } else {
            next(s, r.1)
        },
        ParsedS::Dict => if !moved(s, p, r.1) {
            NextS::Stall
        } else {
            next(s, r.1)
        },
        ParsedS::Fail => NextS::End(r.1),
        ParsedS::Stall => NextS::Stall,
    }
}

// ----- inline images -----

/// The key `Length`.
pub open spec fn length_key() -> Seq<u8> {
    seq![UPPER_L, LOWER_E, LOWER_N, LOWER_G, LOWER_T, LOWER_H]
}

/// What reading an inline image dictionary gives.
pub enum DictLenS {
    /// The dictionary ended; the text of the last numeric `Length` value, if any.
    Done(Option<Seq<u8>>, int),
    Fail(int),
    Stall,
}

/// Reads the entries of an inline image dictionary from `p` (after `<<`), keeping
/// `acc`, the text of the last numeric `Length` value seen so far.
pub open spec fn image_dict(s: Seq<u8>, p: int, acc: Option<Seq<u8>>) -> DictLenS
    decreases s.len() - p,
{
    let q = skip_ws(s, p);
    proof {
        lemma_skip_ws_ge(s, p);
    }
    if q < 0 || q >= s.len() {
        DictLenS::Fail(q)
    } else if s[q] == GT && q + 1 < s.len() && s[q + 1] == GT {
        DictLenS::Done(acc, q + 2)
    } else {
        let key = if s[q] == SLASH {
            name(s, q + 1)
        } else {
            (s.subrange(q, word_end(s, q)), word_end(s, q))
        };
        let r = parse_val(s, skip_ws(s, key.1));
        match r.0 {
            ParsedS::Stall => DictLenS::Stall,
            _ => {
                let acc2 = match r.0 {
                    ParsedS::Val(SVal::Num(t)) => if key.0 == length_key() {
                        Some(t)
                    } else {
                        acc
                    },
                    _ => acc,
                };
                if !moved(s, p, r.1) {
                    DictLenS::Stall
                } else {
                    image_dict(s, r.1, acc2)
                }
            },
        }
    }
}

/// Whether `<<` opens at `q`.
pub open spec fn dict_open_at(s: Seq<u8>, q: int) -> bool {
    0 <= q && q + 1 < s.len() && s[q] == LT && s[q + 1] == LT
}

/// Reading the dictionary of an inline image from `p` (after the `BI` operator).
pub open spec fn image_header(s: Seq<u8>, p: int) -> DictLenS {
    let q = skip_ws(s, p);
    if dict_open_at(s, q) {
        image_dict(s, q + 2, None)
    } else {
        DictLenS::Fail(q)
    }
}

/// The word `ID`.
pub open spec fn id_word() -> Seq<u8> {
    seq![UPPER_I, UPPER_D]
}

/// The word `EI`.
pub open spec fn ei_word() -> Seq<u8> {
    seq![UPPER_E, UPPER_I]
}

/// Position of the `ID` word after an inline image dictionary ending at `p`.
pub open spec fn id_at(s: Seq<u8>, p: int) -> int {
    skip_ws(s, p)
}

/// Start of the image data: after `ID` and one end of line (CR LF, CR or LF).
pub open spec fn image_data_start(s: Seq<u8>, p: int) -> int {
    let r = word_end(s, id_at(s, p));
    if 0 <= r < s.len() && s[r] == CR {
        if r + 1 < s.len() && s[r + 1] == LF {
            r + 2
        } else {
            r + 1
        }
    } else if 0 <= r < s.len() && s[r] == LF {
        r + 1
    } else {
        r
    }
}

/// The outcome of reading an inline image's data of `length` bytes and its `EI`
/// from `p`: whether it succeeds, and where the lexer stops.
pub open spec fn image_tail(s: Seq<u8>, p: int, length: int) -> (bool, int) {
    let q = id_at(s, p);
    if !(0 <= q < s.len() && s[q] == UPPER_I) {
        (false, q)
    } else if s.subrange(q, word_end(s, q)) != id_word() {
        (false, word_end(s, q))
    } else {
        let r = image_data_start(s, p);
        if r + length > s.len() {
            (false, r)
        } else {
            let q2 = skip_ws(s, r + length);
            if !(0 <= q2 < s.len() && s[q2] == UPPER_E) {
                (false, q2)
            } else {
                (s.subrange(q2, word_end(s, q2)) == ei_word(), word_end(s, q2))
            }
        }
    }
}

// ----- positions only move forward -----

pub proof fn lemma_skip_ws_ge(s: Seq<u8>, p: int)
    ensures
        skip_ws(s, p) >= p,
        0 <= p <= s.len() ==> skip_ws(s, p) <= s.len(),
    decreases s.len() - p, 0int,
{
    if 0 <= p < s.len() && spec_is_ws(s[p]) {
        lemma_skip_ws_ge(s, p + 1);
    } else if 0 <= p < s.len() && s[p] == PERCENT {
        lemma_skip_comment_ge(s, p + 1);
    }
}

pub proof fn lemma_skip_comment_ge(s: Seq<u8>, p: int)
    ensures
        skip_comment(s, p) >= p,
        0 <= p <= s.len() ==> skip_comment(s, p) <= s.len(),
    decreases s.len() - p, 1int,
{
    if p < 0 || p >= s.len() || s[p] == LF || s[p] == CR {
        lemma_skip_ws_ge(s, p);
    } else {
        lemma_skip_comment_ge(s, p + 1);
    }
}

pub proof fn lemma_word_end_ge(s: Seq<u8>, p: int)
    ensures
        word_end(s, p) >= p,
        0 <= p <= s.len() ==> word_end(s, p) <= s.len(),
        forall|i: int| p <= i < word_end(s, p) ==> spec_is_regular(#[trigger] s[i]),
    decreases s.len() - p,
{
    if 0 <= p < s.len() && spec_is_regular(s[p]) {
        lemma_word_end_ge(s, p + 1);
    }
}

pub proof fn lemma_name_ge(s: Seq<u8>, p: int)
    ensures
        name(s, p).1 >= p,
        0 <= p <= s.len() ==> name(s, p).1 <= s.len(),
    decreases s.len() - p,
{
    if p < 0 || p >= s.len() || !spec_is_regular(s[p]) {
    } else if name_hex_escape_at(s, p) {
        lemma_name_ge(s, p + 3);
    } else {
        lemma_name_ge(s, p + 1);
    }
}

pub proof fn lemma_digits_end_bounds(s: Seq<u8>, p: int)
    ensures
        digits_end(s, p) >= p,
        0 <= p <= s.len() ==> digits_end(s, p) <= s.len(),
    decreases s.len() - p,
{
    if 0 <= p < s.len() && spec_num_char(s[p]) {
        lemma_digits_end_bounds(s, p + 1);
    }
}

pub proof fn lemma_num_end_bounds(s: Seq<u8>, p: int)
    ensures
        num_end(s, p) >= p,
        0 <= p <= s.len() ==> num_end(s, p) <= s.len(),
{
    lemma_digits_end_bounds(s, p + sign_len(s, p));
}

pub proof fn lemma_lit_bounds(s: Seq<u8>, p: int, depth: nat)
    ensures
        0 <= p <= s.len() ==> p <= lit(s, p, depth).1 <= s.len(),
    decreases s.len() - p,
{
    if 0 <= p < s.len() {
        let b = s[p];
        if b == LPAREN {
            lemma_lit_bounds(s, p + 1, depth + 1);
        } else if b == RPAREN {
            if depth > 1 {
                lemma_lit_bounds(s, p + 1, (depth - 1) as nat);
            }
        } else if b == BACKSLASH {
            lemma_escape_advances(s, p + 1);
            if let Some((c, q)) = escape(s, p + 1) {
                lemma_lit_bounds(s, q, depth);
            }
        } else {
            lemma_lit_bounds(s, p + 1, depth);
        }
    }
}

pub proof fn lemma_hex_scan_bounds(s: Seq<u8>, p: int)
    ensures
        0 <= p <= s.len() ==> p <= hex_scan(s, p).1 <= s.len(),
    decreases s.len() - p,
{
    if 0 <= p < s.len() && s[p] != GT && (spec_is_ws(s[p]) || spec_is_hex(s[p])) {
        lemma_hex_scan_bounds(s, p + 1);
    }
}

pub proof fn lemma_key_end_ge(s: Seq<u8>, q: int)
    ensures
        key_end(s, q) >= q,
        0 <= q <= s.len() ==> key_end(s, q) <= s.len(),
{
    lemma_word_end_ge(s, q);
    if 0 <= q < s.len() {
        lemma_name_ge(s, q + 1);
    }
}

pub proof fn lemma_octal_ge(s: Seq<u8>, p: int, v: int, n: int)
    ensures
        octal(s, p, v, n).1 >= p,
        0 <= p <= s.len() ==> octal(s, p, v, n).1 <= s.len(),
    decreases 3 - n,
{
    if n < 3 && 0 <= p < s.len() && spec_is_octal(s[p]) {
        lemma_octal_ge(s, p + 1, v * 8 + (s[p] - DIGIT0), n + 1);
    }
}

pub proof fn lemma_escape_advances(s: Seq<u8>, p: int)
    ensures
        escape(s, p) matches Some((_, q)) ==> p < q && (0 <= p ==> q <= s.len()),
{
    if 0 <= p < s.len() && spec_is_octal(s[p]) {
        lemma_octal_ge(s, p + 1, (s[p] - DIGIT0) as int, 1);
    }
}


pub proof fn lemma_bracket_end_bounds(s: Seq<u8>, p: int, depth: nat)
    ensures
        0 <= p <= s.len() ==> p <= bracket_end(s, p, depth).1 <= s.len(),
    decreases s.len() - p,
{
    if 0 <= p < s.len() {
        if s[p] == LBRACKET {
            lemma_bracket_end_bounds(s, p + 1, depth + 1);
        } else if s[p] == RBRACKET {
            if depth > 1 {
                lemma_bracket_end_bounds(s, p + 1, (depth - 1) as nat);
            }
        } else {
            lemma_bracket_end_bounds(s, p + 1, depth);
        }
    }
}

/// A decimal number has a digit, so its text is not empty.
pub proof fn lemma_num_ok_moves(s: Seq<u8>, p: int)
    requires
        0 <= p <= s.len(),
        num_ok(s, p),
    ensures
        p < num_end(s, p) <= s.len(),
{
    lemma_digits_end_bounds(s, p + sign_len(s, p));
    let t = s.subrange(p + sign_len(s, p), num_end(s, p));
    let i = choose|i: int| 0 <= i < t.len() && spec_is_digit(t[i]);
}

/// Positions of one value read: within the data, and past the start for a
/// value, a non-empty word or a skipped dictionary.
pub proof fn lemma_parse_val_bounds(s: Seq<u8>, p: int)
    requires
        0 <= p <= s.len(),
    ensures
        match parse_val(s, p).0 {
            ParsedS::Stall => true,
            ParsedS::Val(_) => p < parse_val(s, p).1 <= s.len(),
            ParsedS::Dict => p < parse_val(s, p).1 <= s.len(),
            ParsedS::Word(w) => p <= parse_val(s, p).1 <= s.len() && (w.len() > 0 ==> p
                < parse_val(s, p).1),
            ParsedS::Fail => p <= parse_val(s, p).1 <= s.len(),
        },
    decreases s.len() - p, 0int,
{
    let q = skip_ws(s, p);
    lemma_skip_ws_ge(s, p);
    if q < s.len() {
        let b = s[q];
        if b == SLASH {
            lemma_name_ge(s, q + 1);
        } else if b == LPAREN {
            lemma_lit_bounds(s, q + 1, 1);
        } else if b == LT {
            if q + 1 < s.len() && s[q + 1] == LT {
                lemma_skip_dict_bounds(s, q + 2);
            } else {
                lemma_hex_scan_bounds(s, q + 1);
            }
        } else if b == LBRACKET {
            lemma_arr_bounds(s, q + 1);
        } else if spec_num_start(b) {
            lemma_num_end_bounds(s, q);
            if num_ok(s, q) {
                lemma_num_ok_moves(s, q);
            }
        } else {
            lemma_word_end_ge(s, q);
        }
    }
}

pub proof fn lemma_arr_bounds(s: Seq<u8>, p: int)
    requires
        0 <= p <= s.len(),
    ensures
        match arr(s, p) {
            ArrS::Done(_, e) => p < e <= s.len(),
            ArrS::Fail(e) => p <= e <= s.len(),
            ArrS::Stall => true,
        },
    decreases s.len() - p, 1int,
{
    let q = skip_ws(s, p);
    lemma_skip_ws_ge(s, p);
    if q < s.len() && s[q] != RBRACKET {
        let r = parse_val(s, q);
        lemma_parse_val_bounds(s, q);
        if moved(s, p, r.1) {
            lemma_arr_bounds(s, r.1);
        }
    }
}

pub proof fn lemma_skip_dict_bounds(s: Seq<u8>, p: int)
    requires
        0 <= p <= s.len(),
    ensures
        match skip_dict(s, p) {
            SkipS::Done(e) => p < e <= s.len(),
            SkipS::Fail(e) => p <= e <= s.len(),
            SkipS::Stall => true,
        },
    decreases s.len() - p, 1int,
{
    let q = skip_ws(s, p);
    lemma_skip_ws_ge(s, p);
    if q < s.len() && !(s[q] == GT && q + 1 < s.len() && s[q + 1] == GT) {
        let k = key_end(s, q);
        lemma_key_end_ge(s, q);
        lemma_skip_value_bounds(s, k);
        if let SkipS::Done(e) = skip_value(s, k) {
            if moved(s, p, e) {
                lemma_skip_dict_bounds(s, e);
            }
        }
    }
}

pub proof fn lemma_skip_value_bounds(s: Seq<u8>, p: int)
    requires
        0 <= p <= s.len(),
    ensures
        match skip_value(s, p) {
            SkipS::Done(e) => p <= e <= s.len(),
            SkipS::Fail(e) => p <= e <= s.len(),
            SkipS::Stall => true,
        },
    decreases s.len() - p, 0int,
{
    let q = skip_ws(s, p);
    lemma_skip_ws_ge(s, p);
    if q < s.len() {
        let b = s[q];
        if b == LBRACKET {
            lemma_bracket_end_bounds(s, q + 1, 1);
        } else if b == LPAREN {
            lemma_lit_bounds(s, q + 1, 1);
        } else if b == LT {
            if q + 1 < s.len() && s[q + 1] == LT {
                lemma_skip_dict_bounds(s, q + 2);
            } else {
                lemma_hex_scan_bounds(s, q + 1);
            }
        } else if spec_num_start(b) {
            lemma_num_end_bounds(s, q);
            let q2 = skip_ws(s, num_end(s, q));
            lemma_skip_ws_ge(s, num_end(s, q));
            if 0 <= q2 < s.len() && spec_num_start(s[q2]) {
                lemma_num_end_bounds(s, q2);
                lemma_skip_ws_ge(s, num_end(s, q2));
                lemma_word_end_ge(s, skip_ws(s, num_end(s, q2)));
            }
        } else if b == SLASH {
            lemma_name_ge(s, q + 1);
        } else {
            lemma_word_end_ge(s, q);
        }
    }
}

// ----- laws of the lexer -----

/// Every item read moves the lexer forward within the data, and the end of the
/// items leaves it within the data: a loop that reads items one after the
/// other comes to an end.
pub proof fn law_next_moves_forward(s: Seq<u8>, p: int)
    requires
        0 <= p <= s.len(),
    ensures
        next(s, p) matches NextS::Item(_, e) ==> p < e <= s.len(),
        next(s, p) matches NextS::End(e) ==> p <= e <= s.len(),
    decreases s.len() - p,
{
    let r = parse_val(s, p);
    lemma_parse_val_bounds(s, p);
    match r.0 {
        ParsedS::Word(w) => {
            if w.len() == 0 && moved(s, p, r.1) {
                law_next_moves_forward(s, r.1);
            }
        },
        ParsedS::Dict => {
            if moved(s, p, r.1) {
                law_next_moves_forward(s, r.1);
            }
        },
        _ => {},
    }
}

/// Where the white space and comments skipping stops, there is neither.
pub proof fn lemma_skip_ws_stops(s: Seq<u8>, p: int)
    requires
        0 <= p <= s.len(),
    ensures
        skip_ws(s, p) < s.len() ==> !spec_is_ws(s[skip_ws(s, p)]) && s[skip_ws(s, p)] != PERCENT,
        skip_ws(s, skip_ws(s, p)) == skip_ws(s, p),
    decreases s.len() - p, 0int,
{
    if 0 <= p < s.len() && spec_is_ws(s[p]) {
        lemma_skip_ws_stops(s, p + 1);
    } else if 0 <= p < s.len() && s[p] == PERCENT {
        lemma_skip_comment_stops(s, p + 1);
    }
}

pub proof fn lemma_skip_comment_stops(s: Seq<u8>, p: int)
    requires
        0 <= p <= s.len(),
    ensures
        skip_comment(s, p) < s.len() ==> !spec_is_ws(s[skip_comment(s, p)]) && s[skip_comment(
            s,
            p,
        )] != PERCENT,
        skip_ws(s, skip_comment(s, p)) == skip_comment(s, p),
    decreases s.len() - p, 1int,
{
    if p >= s.len() || s[p] == LF || s[p] == CR {
        lemma_skip_ws_stops(s, p);
    } else {
        lemma_skip_comment_stops(s, p + 1);
    }
}

/// White space and comments before an item do not change the item read, nor
/// where the lexer stops after it.
pub proof fn law_leading_space_ignored(s: Seq<u8>, p: int)
    requires
        0 <= p <= s.len(),
    ensures
        next(s, p) == next(s, skip_ws(s, p)),
{
    let q = skip_ws(s, p);
    lemma_skip_ws_stops(s, p);
    lemma_skip_ws_ge(s, p);
    assert(parse_val(s, p) == parse_val(s, q));
    let r = parse_val(s, q);
    lemma_parse_val_bounds(s, q);
    if let ParsedS::Word(w) = r.0 {
        if w.len() == 0 {
            assert(r.1 == q);
        }
    }
}

/// Every value element of an array is kept, in order, whatever byte it starts
/// with: when the element read after the white space at `p` is a value `v` and
/// reading it moved the lexer, the array from `p` is `v` followed by the
/// elements read after `v`, and ends where they end.
pub proof fn law_array_keeps_values(s: Seq<u8>, p: int, v: SVal)
    requires
        0 <= p <= s.len(),
        skip_ws(s, p) < s.len(),
        s[skip_ws(s, p)] != RBRACKET,
        parse_val(s, skip_ws(s, p)).0 == ParsedS::Val(v),
        p < parse_val(s, skip_ws(s, p)).1,
    ensures
        ({
            let after = parse_val(s, skip_ws(s, p)).1;
            &&& arr(s, p) is Done <==> arr(s, after) is Done
            &&& arr(s, after) matches ArrS::Done(rest, e) ==> arr(s, p) == ArrS::Done(
                seq![v] + rest,
                e,
            )
            &&& arr(s, p) matches ArrS::Done(items, e) ==> items.len() >= 1 && items[0] == v
                && arr(s, after) == ArrS::Done(items.skip(1), e)
        }),
{
    let q = skip_ws(s, p);
    lemma_skip_ws_ge(s, p);
    lemma_parse_val_bounds(s, q);
    let after = parse_val(s, q).1;
    assert(moved(s, p, after));
    if let ArrS::Done(r2, e2) = arr(s, after) {
        assert((seq![v] + r2).skip(1) =~= r2);
    }
}

/// The data of an inline image starts right after `ID` and one end of line:
/// for any data bytes at all (white space, NUL, `EI` among them), `ID`, an end
/// of line (LF, or CR LF), the data and then white space and `EI` is read as a
/// whole when the length is that of the data, and the lexer stops after `EI`.
pub proof fn law_image_data_taken_verbatim(data: Seq<u8>, crlf: bool)
    ensures
        ({
            let eol = if crlf {
                seq![CR, LF]
            } else {
                seq![LF]
            };
            let s = seq![UPPER_I, UPPER_D] + eol + data + seq![LF, UPPER_E, UPPER_I];
            image_tail(s, 0, data.len() as int) == (true, s.len() as int)
        }),
{
    let eol = if crlf {
        seq![CR, LF]
    } else {
        seq![LF]
    };
    let s = seq![UPPER_I, UPPER_D] + eol + data + seq![LF, UPPER_E, UPPER_I];
    let k = eol.len() as int;
    let n = data.len() as int;
    assert(s.len() == 2 + k + n + 3);
    assert(s[0] == UPPER_I);
    assert(s[1] == UPPER_D);
    assert(s[2] == eol[0]);
    if crlf {
        assert(s[3] == LF);
    }
    assert(s[2 + k + n] == LF);
    assert(s[3 + k + n] == UPPER_E);
    assert(s[4 + k + n] == UPPER_I);
    // `ID` at the start, ending before the end of line
    assert(skip_ws(s, 0) == 0);
    assert(word_end(s, 2) == 2);
    assert(word_end(s, 1) == 2);
    assert(word_end(s, 0) == 2);
    assert(s.subrange(0, 2) =~= id_word());
    assert(image_data_start(s, 0) == 2 + k);
    // white space, then `EI` up to the end
    let q2 = 2 + k + n;
    assert(skip_ws(s, q2 + 1) == q2 + 1);
    assert(skip_ws(s, q2) == q2 + 1);
    assert(word_end(s, q2 + 3) == q2 + 3);
    assert(word_end(s, q2 + 2) == q2 + 3);
    assert(word_end(s, q2 + 1) == q2 + 3);
    assert(s.subrange(q2 + 1, q2 + 3) =~= ei_word());
}

/// With a lone CR after `ID`, the data starts right after the CR: any
/// non-empty data that does not itself begin with LF is read whole, and the
/// lexer stops after `EI`.
pub proof fn law_image_data_after_lone_cr(data: Seq<u8>)
    requires
        data.len() > 0,
        data[0] != LF,
    ensures
        ({
            let s = seq![UPPER_I, UPPER_D, CR] + data + seq![LF, UPPER_E, UPPER_I];
            image_tail(s, 0, data.len() as int) == (true, s.len() as int)
        }),
{
    let s = seq![UPPER_I, UPPER_D, CR] + data + seq![LF, UPPER_E, UPPER_I];
    let n = data.len() as int;
    assert(s[0] == UPPER_I);
    assert(s[1] == UPPER_D);
    assert(s[2] == CR);
    assert(s[3] == data[0]);
    assert(s[3 + n] == LF);
    assert(s[4 + n] == UPPER_E);
    assert(s[5 + n] == UPPER_I);
    assert(skip_ws(s, 0) == 0);
    assert(word_end(s, 2) == 2);
    assert(word_end(s, 1) == 2);
    assert(word_end(s, 0) == 2);
    assert(s.subrange(0, 2) =~= id_word());
    assert(image_data_start(s, 0) == 3);
    let q2 = 3 + n;
    assert(skip_ws(s, q2 + 1) == q2 + 1);
    assert(skip_ws(s, q2) == q2 + 1);
    assert(word_end(s, q2 + 3) == q2 + 3);
    assert(word_end(s, q2 + 2) == q2 + 3);
    assert(word_end(s, q2 + 1) == q2 + 3);
    assert(s.subrange(q2 + 1, q2 + 3) =~= ei_word());
}

/// A dictionary value that is a bare word (such as `true`, `false` or `null`)
/// is skipped whole: the value ends where the word ends, past its first byte.
pub proof fn law_bare_word_value_skipped(s: Seq<u8>, p: int)
    requires
        0 <= p <= s.len(),
        skip_ws(s, p) < s.len(),
        !spec_is_ws(s[skip_ws(s, p)]),
        !spec_is_delim(s[skip_ws(s, p)]),
        !(DIGIT0 <= s[skip_ws(s, p)] <= DIGIT9),
        s[skip_ws(s, p)] != PLUS,
        s[skip_ws(s, p)] != MINUS,
        s[skip_ws(s, p)] != DOT,
    ensures
        skip_value(s, p) == SkipS::Done(word_end(s, skip_ws(s, p))),
        skip_ws(s, p) < word_end(s, skip_ws(s, p)),
{
    lemma_skip_ws_ge(s, p);
    lemma_word_end_ge(s, skip_ws(s, p) + 1);
}

/// A `#` followed by two hexadecimal digits, upper or lower case, in a name
/// stands for the byte they spell: the name read from `p` starts with that
/// byte, and goes on with the name read after the three bytes.
pub proof fn law_name_hex_escape(s: Seq<u8>, p: int)
    requires
        0 <= p,
        p + 2 < s.len(),
        s[p] == HASH,
        (0x30 <= s[p + 1] <= 0x39) || (0x61 <= s[p + 1] <= 0x66) || (0x41 <= s[p + 1] <= 0x46),
        (0x30 <= s[p + 2] <= 0x39) || (0x61 <= s[p + 2] <= 0x66) || (0x41 <= s[p + 2] <= 0x46),
    ensures
        ({
            let h = s[p + 1];
            let l = s[p + 2];
            let hv: int = if h <= 0x39 {
                h - 0x30
            } else if h >= 0x61 {
                h - 0x61 + 10
            } else {
                h - 0x41 + 10
            };
            let lv: int = if l <= 0x39 {
                l - 0x30
            } else if l >= 0x61 {
                l - 0x61 + 10
            } else {
                l - 0x41 + 10
            };
            name(s, p) == (seq![(hv * 16 + lv) as u8] + name(s, p + 3).0, name(s, p + 3).1)
        }),
{
}

} // verus!
