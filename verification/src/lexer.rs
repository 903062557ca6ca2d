//! The content-stream lexer: values, operators, skipped dictionaries and inline
//! images, read from a byte slice at a position.
use vstd::prelude::*;
use crate::grammar::{
    NUL,
    HT,
    LF,
    FF,
    CR,
    SP,
    HASH,
    PERCENT,
    LPAREN,
    RPAREN,
    PLUS,
    MINUS,
    DOT,
    SLASH,
    DIGIT0,
    DIGIT7,
    DIGIT9,
    LT,
    GT,
    UPPER_A,
    UPPER_D,
    UPPER_E,
    UPPER_F,
    UPPER_I,
    UPPER_L,
    LBRACKET,
    BACKSLASH,
    RBRACKET,
    LOWER_A,
    LOWER_B,
    LOWER_E,
    LOWER_F,
    LOWER_G,
    LOWER_H,
    LOWER_N,
    LOWER_R,
    LOWER_T,
    LBRACE,
    RBRACE,
    BS,
    spec_is_ws,
    spec_is_delim,
    spec_is_digit,
    spec_is_hex,
    spec_hex_val,
    spec_num_start,
    skip_ws,
    skip_comment,
    word_end,
    name,
    sign_len,
    digits_end,
    num_end,
    count_dots,
    has_digit,
    num_ok,
    cons_str,
    octal,
    escape,
    lit,
    hex_scan,
    hex_padded,
    hex_bytes,
    hex_closed,
    SVal,
    ParsedS,
    ArrS,
    SkipS,
    ItemS,
    NextS,
    parse_val,
    arr,
    bracket_end,
    skip_dict,
    skip_value,
    next,
    length_key,
    DictLenS,
    image_dict,
    image_header,
    image_tail,
    lemma_skip_ws_ge,
    lemma_word_end_ge,
    lemma_name_ge,
    lemma_num_end_bounds,
    lemma_lit_bounds,
    lemma_hex_scan_bounds,
    lemma_key_end_ge,
    lemma_escape_advances,
};

verus! {

/// White space of the content stream.
pub fn is_ws(b: u8) -> (r: bool)
    ensures
        r == spec_is_ws(b),
{
    b == SP || b == HT || b == CR || b == LF || b == FF || b == NUL
}

/// Delimiters of the content stream.
pub fn is_delim(b: u8) -> (r: bool)
    ensures
        r == spec_is_delim(b),
{
    b == LPAREN || b == RPAREN || b == LT || b == GT || b == LBRACKET || b == RBRACKET || b
        == LBRACE || b == RBRACE || b == SLASH || b == PERCENT
}

fn is_digit(b: u8) -> (r: bool)
    ensures
        r == spec_is_digit(b),
{
    DIGIT0 <= b && b <= DIGIT9
}

fn is_num_start(b: u8) -> (r: bool)
    ensures
        r == spec_num_start(b),
{
    is_digit(b) || b == PLUS || b == MINUS || b == DOT
}

/// Value of a hexadecimal digit, `None` for any other byte.
fn hex_digit(b: u8) -> (r: Option<u8>)
    ensures
        r is Some <==> spec_is_hex(b),
        r matches Some(v) ==> v == spec_hex_val(b) && v < 16,
{
    if is_digit(b) {
        Some(b - DIGIT0)
    } else if LOWER_A <= b && b <= LOWER_F {
        Some(b - LOWER_A + 10)
    } else if UPPER_A <= b && b <= UPPER_F {
        Some(b - UPPER_A + 10)
    } else {
        None
    }
}

/// A value of the content stream. A number is held by its text; its value is
/// what the caller reads from that text as a decimal number.
#[derive(Debug)]
pub enum Val {
    Num(Vec<u8>),
    Name(Vec<u8>),
    Str(Vec<u8>),
    Arr(Vec<Val>),
}

impl View for Val {
    type V = SVal;

    open spec fn view(&self) -> SVal
        decreases self,
    {
        match self {
            Val::Num(t) => SVal::Num(t@),
            Val::Name(t) => SVal::Name(t@),
            Val::Str(t) => SVal::Str(t@),
            Val::Arr(a) => SVal::Arr(
                Seq::new(
                    a@.len(),
                    |i: int|
                        if 0 <= i < a@.len() {
                            a@[i].view()
                        } else {
                            SVal::Num(Seq::empty())
                        },
                ),
            ),
        }
    }
}

/// Views of a sequence of values.
pub open spec fn vals_view(a: Seq<Val>) -> Seq<SVal> {
    Seq::new(a.len(), |i: int| a[i]@)
}

/// An item of the content stream: an operator or an operand.
pub enum Item {
    Op(String),
    Val(Val),
}

/// What reading one value gives: a value, a bare word, a dictionary that was
/// skipped, or a failure.
pub enum Parsed {
    Val(Val),
    Word(Vec<u8>),
    DictSkipped,
    Fail,
}

impl View for Parsed {
    type V = ParsedS;

    open spec fn view(&self) -> ParsedS {
        match self {
            Parsed::Val(v) => ParsedS::Val(v@),
            Parsed::Word(w) => ParsedS::Word(w@),
            Parsed::DictSkipped => ParsedS::Dict,
            Parsed::Fail => ParsedS::Fail,
        }
    }
}

/// A string result seen through a prefix already read.
pub open spec fn with_prefix(pre: Seq<u8>, r: (Option<Seq<u8>>, int)) -> (Option<Seq<u8>>, int) {
    match r.0 {
        Some(t) => (Some(pre + t), r.1),
        None => (None, r.1),
    }
}

pub open spec fn opt_bytes(o: Option<Vec<u8>>) -> Option<Seq<u8>> {
    match o {
        Some(v) => Some(v@),
        None => None,
    }
}

proof fn lemma_with_prefix_cons(pre: Seq<u8>, b: u8, r: (Option<Seq<u8>>, int))
    ensures
        with_prefix(pre.push(b), r) == with_prefix(pre, cons_str(b, r)),
{
    if let Some(t) = r.0 {
        assert(pre.push(b) + t =~= pre + (seq![b] + t));
    }
}


/// An array result seen through the elements already read.
pub open spec fn arr_with_prefix(pre: Seq<SVal>, a: ArrS) -> ArrS {
    match a {
        ArrS::Done(items, e) => ArrS::Done(pre + items, e),
        other => other,
    }
}

proof fn lemma_vals_view_push(a: Seq<Val>, v: Val)
    ensures
        vals_view(a.push(v)) == vals_view(a).push(v@),
{
    assert(vals_view(a.push(v)) =~= vals_view(a).push(v@));
}

proof fn lemma_arr_view(a: Vec<Val>)
    ensures
        Val::Arr(a)@ == SVal::Arr(vals_view(a@)),
{
    let v = Val::Arr(a)@;
    if let SVal::Arr(x) = v {
        assert(x.len() == a@.len());
        assert forall|i: int| 0 <= i < x.len() implies x[i] == vals_view(a@)[i] by {}
        assert(x =~= vals_view(a@));
    }
}

/// Whether `w` is the key `Length`.
fn is_length_key(w: &Vec<u8>) -> (r: bool)
    ensures
        r == (w@ == length_key()),
{
    let r = w.len() == 6 && w[0] == UPPER_L && w[1] == LOWER_E && w[2] == LOWER_N && w[3]
        == LOWER_G && w[4] == LOWER_T && w[5] == LOWER_H;
    if r {
        assert(w@ =~= length_key());
    }
    r
}

/// Whether `w` is the two-byte word `a b`.
fn is_word2(w: &Vec<u8>, a: u8, b: u8) -> (r: bool)
    ensures
        r == (w@ == seq![a, b]),
{
    let r = w.len() == 2 && w[0] == a && w[1] == b;
    if r {
        assert(w@ =~= seq![a, b]);
    }
    r
}

/// Name for what `String::from_utf8_lossy` makes of a byte sequence.
pub uninterp spec fn utf8_lossy(bytes: Seq<u8>) -> Seq<char>;

/// The text of an operator word, by `String::from_utf8_lossy`: invalid UTF-8 is
/// replaced by U+FFFD. Its contract claims that the result is the named
/// conversion of the bytes, and that ASCII bytes come out as the same
/// characters (ASCII is valid UTF-8, which the conversion keeps unchanged).
#[verifier::external_body]
fn op_text(w: &[u8]) -> (r: String)
    ensures
        r@ == utf8_lossy(w@),
        (forall|i: int| 0 <= i < w@.len() ==> w@[i] < 128) ==> r@ == Seq::new(
            w@.len(),
            |i: int| w@[i] as char,
        ),
{
    String::from_utf8_lossy(w).into_owned()
}

/// The lexer: a byte slice and the position of the next byte to read.
pub struct Tok<'a> {
    pub data: &'a [u8],
    pub pos: usize,
}

impl<'a> Tok<'a> {
    /// The position lies within the data (or at its end).
    pub open spec fn wf(&self) -> bool {
        self.pos <= self.data@.len()
    }

    /// Skips white space and comments.
    pub fn skip_ws_comments(&mut self)
        requires
            old(self).wf(),
        ensures
            final(self).data == old(self).data,
            final(self).pos == skip_ws(old(self).data@, old(self).pos as int),
    {
        let ghost s = self.data@;
        let ghost target = skip_ws(s, self.pos as int);
        let len = self.data.len();
        loop
            invariant
                self.data@ == s,
                len == s.len(),
                self.pos <= len,
                skip_ws(s, self.pos as int) == target,
            ensures
                self.data@ == s,
                self.pos == target,
            decreases len - self.pos,
        {
            let ghost top = self.pos;
            while self.pos < len && is_ws(self.data[self.pos])
                invariant
                    self.data@ == s,
                    len == s.len(),
                    top <= self.pos <= len,
                    skip_ws(s, self.pos as int) == target,
                decreases len - self.pos,
            {
                self.pos += 1;
            }
            if self.pos < len && self.data[self.pos] == PERCENT {
                let ghost start = self.pos;
                assert(skip_comment(s, self.pos as int) == skip_comment(s, self.pos + 1));
                while self.pos < len && !(self.data[self.pos] == LF || self.data[self.pos] == CR)
                    invariant
                        self.data@ == s,
                        len == s.len(),
                        start <= self.pos <= len,
                        skip_comment(s, self.pos as int) == target,
                    decreases len - self.pos,
                {
                    self.pos += 1;
                }
                assert(skip_comment(s, self.pos as int) == skip_ws(s, self.pos as int));
                assert(self.pos > start);
            } else {
                break;
            }
        }
    }

    /// The byte at the position.
    pub fn peek(&self) -> (r: Option<u8>)
        ensures
            r == (if self.pos < self.data@.len() {
                Some(self.data@[self.pos as int])
            } else {
                None::<u8>
            }),
    {
        if self.pos < self.data.len() {
            Some(self.data[self.pos])
        } else {
            None
        }
    }

    /// The byte after the position.
    pub fn peek2(&self) -> (r: Option<u8>)
        ensures
            r == (if self.pos + 1 < self.data@.len() {
                Some(self.data@[self.pos + 1])
            } else {
                None::<u8>
            }),
    {
        if self.pos < self.data.len() && self.data.len() - self.pos > 1 {
            Some(self.data[self.pos + 1])
        } else {
            None
        }
    }

    /// Reads a bare word: the run of regular bytes at the position.
    pub fn read_word(&mut self) -> (r: Vec<u8>)
        requires
            old(self).wf(),
        ensures
            final(self).data == old(self).data,
            final(self).pos == word_end(old(self).data@, old(self).pos as int),
            r@ == old(self).data@.subrange(
                old(self).pos as int,
                word_end(old(self).data@, old(self).pos as int),
            ),
    {
        let ghost s = self.data@;
        let start = self.pos;
        let len = self.data.len();
        while self.pos < len && !is_ws(self.data[self.pos]) && !is_delim(self.data[self.pos])
            invariant
                self.data@ == s,
                len == s.len(),
                start <= self.pos <= len,
                word_end(s, self.pos as int) == word_end(s, start as int),
            decreases len - self.pos,
        {
            self.pos += 1;
        }
        vstd::slice::slice_to_vec(&self.data[start..self.pos])
    }

    /// Reads a name body (after `/`), decoding `#xx` escapes.
    pub fn parse_name(&mut self) -> (r: Vec<u8>)
        requires
            old(self).wf(),
        ensures
            final(self).data == old(self).data,
            final(self).pos == name(old(self).data@, old(self).pos as int).1,
            r@ == name(old(self).data@, old(self).pos as int).0,
    {
        let ghost s = self.data@;
        let ghost target = name(s, self.pos as int);
        let len = self.data.len();
        let mut out: Vec<u8> = Vec::new();
        loop
            invariant
                self.data@ == s,
                len == s.len(),
                self.pos <= len,
                out@ + name(s, self.pos as int).0 == target.0,
                name(s, self.pos as int).1 == target.1,
            ensures
                self.data@ == s,
                self.pos == target.1,
                out@ == target.0,
            decreases len - self.pos,
        {
            if self.pos >= len {
                assert(out@ + Seq::<u8>::empty() =~= out@);
                break;
            }
            let b = self.data[self.pos];
            if is_ws(b) || is_delim(b) {
                assert(out@ + Seq::<u8>::empty() =~= out@);
                break;
            }
            if b == HASH && len - self.pos > 2 {
                let h = hex_digit(self.data[self.pos + 1]);
                let l = hex_digit(self.data[self.pos + 2]);
                if let (Some(h), Some(l)) = (h, l) {
                    let ghost rest = name(s, self.pos + 3);
                    let v = h * 16 + l;
                    assert(out@.push(v) + rest.0 =~= out@ + (seq![v] + rest.0));
                    out.push(v);
                    self.pos += 3;
                    continue;
                }
            }
            let ghost rest = name(s, self.pos + 1);
            assert(out@.push(b) + rest.0 =~= out@ + (seq![b] + rest.0));
            out.push(b);
            self.pos += 1;
        }
        out
    }

    /// Reads the text of a number: an optional sign, then digits and points.
    /// The text is returned when it is a decimal number (at most one point, at
    /// least one digit).
    pub fn parse_num(&mut self) -> (r: Option<Vec<u8>>)
        requires
            old(self).wf(),
        ensures
            final(self).data == old(self).data,
            final(self).pos == num_end(old(self).data@, old(self).pos as int),
            r is Some <==> num_ok(old(self).data@, old(self).pos as int),
            r matches Some(t) ==> t@ == old(self).data@.subrange(
                old(self).pos as int,
                num_end(old(self).data@, old(self).pos as int),
            ),
    {
        let ghost s = self.data@;
        let start = self.pos;
        let len = self.data.len();
        if self.pos < len && (self.data[self.pos] == PLUS || self.data[self.pos] == MINUS) {
            self.pos += 1;
        }
        let body = self.pos;
        assert(body == start + sign_len(s, start as int));
        let mut dots: usize = 0;
        let mut digit = false;
        assert(s.subrange(body as int, body as int) =~= Seq::<u8>::empty());
        while self.pos < len && (is_digit(self.data[self.pos]) || self.data[self.pos] == DOT)
            invariant
                self.data@ == s,
                len == s.len(),
                body <= self.pos <= len,
                digits_end(s, self.pos as int) == digits_end(s, body as int),
                dots as nat == count_dots(s.subrange(body as int, self.pos as int)),
                dots <= self.pos - body,
                digit == has_digit(s.subrange(body as int, self.pos as int)),
            decreases len - self.pos,
        {
            let b = self.data[self.pos];
            let ghost t = s.subrange(body as int, self.pos as int);
            let ghost t2 = s.subrange(body as int, self.pos + 1);
            assert(t2.drop_last() =~= t);
            assert(t2.last() == b);
            if b == DOT {
                dots += 1;
            } else {
                digit = true;
                assert(t2[t2.len() - 1] == b);
            }
            proof {
                if has_digit(t) {
                    let i = choose|i: int| 0 <= i < t.len() && spec_is_digit(t[i]);
                    assert(t2[i] == t[i]);
                }
                if has_digit(t2) && b == DOT {
                    let i = choose|i: int| 0 <= i < t2.len() && spec_is_digit(t2[i]);
                    assert(i < t.len());
                    assert(t2[i] == t[i]);
                }
            }
            self.pos += 1;
        }
        if dots <= 1 && digit {
            Some(vstd::slice::slice_to_vec(&self.data[start..self.pos]))
        } else {
            None
        }
    }

    /// Reads the escape after a backslash. `None` at the end of the data; else
    /// the byte it stands for, or `None` for a line continuation.
    pub fn parse_escape(&mut self) -> (r: Option<Option<u8>>)
        requires
            old(self).wf(),
        ensures
            final(self).data == old(self).data,
            escape(old(self).data@, old(self).pos as int) matches Some((c, q)) ==> r == Some(c)
                && final(self).pos == q,
            escape(old(self).data@, old(self).pos as int) is None ==> r is None && final(self).pos
                == old(self).pos,
    {
        let ghost s = self.data@;
        let len = self.data.len();
        if self.pos >= len {
            return None;
        }
        let c = self.data[self.pos];
        if c == LOWER_N {
            self.pos += 1;
            Some(Some(LF))
        } else if c == LOWER_R {
            self.pos += 1;
            Some(Some(CR))
        } else if c == LOWER_T {
            self.pos += 1;
            Some(Some(HT))
        } else if c == LOWER_B {
            self.pos += 1;
            Some(Some(BS))
        } else if c == LOWER_F {
            self.pos += 1;
            Some(Some(FF))
        } else if c == CR {
            self.pos += 1;
            if self.pos < len && self.data[self.pos] == LF {
                self.pos += 1;
            }
            Some(None)
        } else if c == LF {
            self.pos += 1;
            Some(None)
        } else if DIGIT0 <= c && c <= DIGIT7 {
            let ghost q0 = self.pos as int;
            let mut v: u32 = 0;
            let mut n: u32 = 0;
            while n < 3 && self.pos < len && DIGIT0 <= self.data[self.pos] && self.data[self.pos]
                <= DIGIT7
                invariant
                    self.data@ == s,
                    len == s.len(),
                    q0 <= self.pos <= len,
                    n <= 3,
                    v < 512,
                    n == 0 ==> v == 0,
                    n == 1 ==> v < 8,
                    n == 2 ==> v < 64,
                    octal(s, self.pos as int, v as int, n as int) == octal(s, q0, 0, 0),
                decreases 3 - n,
            {
                let d = self.data[self.pos];
                v = v * 8 + (d - DIGIT0) as u32;
                self.pos += 1;
                n += 1;
            }
            Some(Some((v % 256) as u8))
        } else {
            self.pos += 1;
            Some(Some(c))
        }
    }

    /// Reads a literal string; the position is at its `(`. `None` when the data
    /// ends before the string closes (at the end of the data the position
    /// stays there).
    pub fn parse_lit_string(&mut self) -> (r: Option<Vec<u8>>)
        requires
            old(self).wf(),
        ensures
            final(self).data == old(self).data,
            final(self).wf(),
            opt_bytes(r) == lit(old(self).data@, old(self).pos + 1, 1).0,
            old(self).pos < old(self).data@.len() ==> final(self).pos == lit(
                old(self).data@,
                old(self).pos + 1,
                1,
            ).1,
            old(self).pos == old(self).data@.len() ==> final(self).pos == old(self).pos,
    {
        if self.pos >= self.data.len() {
            return None;
        }
        let ghost s = self.data@;
        let ghost target = lit(s, self.pos + 1, 1);
        let len = self.data.len();
        self.pos += 1;
        let ghost start = self.pos;
        let mut out: Vec<u8> = Vec::new();
        let mut depth: usize = 1;
        assert(Seq::<u8>::empty() + Seq::<u8>::empty() =~= Seq::<u8>::empty());
        assert(with_prefix(out@, lit(s, self.pos as int, depth as nat)) =~~= target) by {
            if let Some(t) = target.0 {
                assert(Seq::<u8>::empty() + t =~= t);
            }
        }
        loop
            invariant
                self.data@ == s,
                self.data == old(self).data,
                s == old(self).data@,
                target == lit(old(self).data@, old(self).pos + 1, 1),
                len == s.len(),
                1 <= start <= self.pos <= len,
                1 <= depth <= self.pos - start + 1,
                with_prefix(out@, lit(s, self.pos as int, depth as nat)) == target,
            decreases len - self.pos,
        {
            if self.pos >= len {
                return None;
            }
            let b = self.data[self.pos];
            if b == LPAREN {
                proof {
                    lemma_with_prefix_cons(out@, b, lit(s, self.pos + 1, (depth + 1) as nat));
                }
                depth += 1;
                out.push(b);
                self.pos += 1;
            } else if b == RPAREN {
                self.pos += 1;
                if depth == 1 {
                    assert(out@ + Seq::<u8>::empty() =~= out@);
                    return Some(out);
                }
                proof {
                    lemma_with_prefix_cons(out@, b, lit(s, self.pos as int, (depth - 1) as nat));
                }
                depth -= 1;
                out.push(b);
            } else if b == BACKSLASH {
                self.pos += 1;
                proof {
                    lemma_escape_advances(s, self.pos as int);
                }
                let e = self.parse_escape();
                match e {
                    None => {
                        return None;
                    },
                    Some(Some(c)) => {
                        proof {
                            lemma_with_prefix_cons(out@, c, lit(s, self.pos as int, depth as nat));
                        }
                        out.push(c);
                    },
                    Some(None) => {},
                }
            } else {
                proof {
                    lemma_with_prefix_cons(out@, b, lit(s, self.pos + 1, depth as nat));
                }
                out.push(b);
                self.pos += 1;
            }
        }
    }

    /// Reads a hexadecimal string; the position is at its `<`. `None` at a byte
    /// that is neither a hex digit, white space nor `>`; the digits read so far
    /// when the data ends first (none at the end of the data, where the
    /// position stays).
    pub fn parse_hex_string(&mut self) -> (r: Option<Vec<u8>>)
        requires
            old(self).wf(),
        ensures
            final(self).data == old(self).data,
            final(self).wf(),
            old(self).pos < old(self).data@.len() ==> final(self).pos == hex_scan(
                old(self).data@,
                old(self).pos + 1,
            ).1,
            old(self).pos == old(self).data@.len() ==> final(self).pos == old(self).pos,
            hex_scan(old(self).data@, old(self).pos + 1).0 matches Some(d) ==> r matches Some(
                v,
            ) && v@ == hex_bytes(d),
            hex_scan(old(self).data@, old(self).pos + 1).0 is None ==> r is None,
    {
        if self.pos >= self.data.len() {
            let r: Vec<u8> = Vec::new();
            assert(r@ =~= hex_bytes(Seq::<u8>::empty()));
            return Some(r);
        }
        let ghost s = self.data@;
        let ghost target = hex_scan(s, self.pos + 1);
        let len = self.data.len();
        self.pos += 1;
        let mut hex: Vec<u8> = Vec::new();
        assert(with_prefix(hex@, hex_scan(s, self.pos as int)) =~~= target) by {
            if let Some(t) = target.0 {
                assert(Seq::<u8>::empty() + t =~= t);
            }
        }
        loop
            invariant_except_break
                with_prefix(hex@, hex_scan(s, self.pos as int)) == target,
            invariant
                self.data@ == s,
                self.data == old(self).data,
                s == old(self).data@,
                target == hex_scan(old(self).data@, old(self).pos + 1),
                len == s.len(),
                self.pos <= len,
                forall|i: int| 0 <= i < hex@.len() ==> spec_is_hex(#[trigger] hex@[i]),
            ensures
                self.data@ == s,
                self.pos == target.1,
                target.0 is Some,
                target.0 matches Some(d) ==> d == hex@,
                forall|i: int| 0 <= i < hex@.len() ==> spec_is_hex(#[trigger] hex@[i]),
            decreases len - self.pos,
        {
            if self.pos >= len {
                assert(hex@ + Seq::<u8>::empty() =~= hex@);
                break;
            }
            let b = self.data[self.pos];
            if b == GT {
                self.pos += 1;
                assert(hex@ + Seq::<u8>::empty() =~= hex@);
                break;
            }
            if is_ws(b) {
                self.pos += 1;
                continue;
            }
            if hex_digit(b).is_some() {
                proof {
                    lemma_with_prefix_cons(hex@, b, hex_scan(s, self.pos + 1));
                }
                hex.push(b);
                self.pos += 1;
            } else {
                return None;
            }
        }
        let ghost d = hex@;
        if hex.len() % 2 == 1 {
            hex.push(DIGIT0);
        }
        assert(hex@ == hex_padded(d));
        let mut out: Vec<u8> = Vec::new();
        let mut i: usize = 0;
        while i < hex.len()
            invariant
                hex@ == hex_padded(d),
                hex@.len() % 2 == 0,
                i % 2 == 0,
                i <= hex@.len(),
                forall|k: int| 0 <= k < hex@.len() ==> spec_is_hex(#[trigger] hex@[k]),
                out@ =~= hex_bytes(d).take(i as int / 2),
            decreases hex@.len() - i,
        {
            let h = hex_digit(hex[i]).unwrap();
            let l = hex_digit(hex[i + 1]).unwrap();
            out.push(h * 16 + l);
            i += 2;
        }
        Some(out)
    }

    /// Reads one value, or `None` where the lexer would never return (a bare
    /// delimiter it cannot move past inside an array or a dictionary).
    fn read_val(&mut self) -> (r: Option<Parsed>)
        requires
            old(self).wf(),
        ensures
            final(self).data == old(self).data,
            final(self).wf(),
            match parse_val(old(self).data@, old(self).pos as int).0 {
                ParsedS::Stall => r is None,
                other => r matches Some(x) && x@ == other && final(self).pos == parse_val(
                    old(self).data@,
                    old(self).pos as int,
                ).1,
            },
        decreases old(self).data@.len() - old(self).pos, 0int,
    {
        let ghost s = self.data@;
        let ghost p = self.pos as int;
        let _len = self.data.len();
        proof {
            lemma_skip_ws_ge(s, p);
        }
        self.skip_ws_comments();
        let b = match self.peek() {
            Some(b) => b,
            None => return Some(Parsed::Fail),
        };
        if b == SLASH {
            self.pos += 1;
            proof {
                lemma_name_ge(s, self.pos as int);
            }
            Some(Parsed::Val(Val::Name(self.parse_name())))
        } else if b == LPAREN {
            proof {
                lemma_lit_bounds(s, self.pos + 1, 1);
            }
            match self.parse_lit_string() {
                Some(t) => Some(Parsed::Val(Val::Str(t))),
                None => Some(Parsed::Fail),
            }
        } else if b == LT {
            if self.peek2() == Some(LT) {
                self.pos += 2;
                match self.skip_entries() {
                    Some(true) => Some(Parsed::DictSkipped),
                    Some(false) => Some(Parsed::Fail),
                    None => None,
                }
            } else {
                proof {
                    lemma_hex_scan_bounds(s, self.pos + 1);
                }
                match self.parse_hex_string() {
                    Some(t) => Some(Parsed::Val(Val::Str(t))),
                    None => Some(Parsed::Fail),
                }
            }
        } else if b == LBRACKET {
            match self.read_array() {
                Some(Some(a)) => {
                    proof {
                        lemma_arr_view(a);
                    }
                    Some(Parsed::Val(Val::Arr(a)))
                },
                Some(None) => Some(Parsed::Fail),
                None => None,
            }
        } else if is_num_start(b) {
            proof {
                lemma_num_end_bounds(s, self.pos as int);
            }
            match self.parse_num() {
                Some(t) => Some(Parsed::Val(Val::Num(t))),
                None => Some(Parsed::Fail),
            }
        } else {
            proof {
                lemma_word_end_ge(s, self.pos as int);
            }
            Some(Parsed::Word(self.read_word()))
        }
    }

    /// Reads one value. A bare word comes back as a word; a dictionary is
    /// skipped whole.
    pub fn parse_val(&mut self) -> (r: Parsed)
        requires
            old(self).wf(),
            !(parse_val(old(self).data@, old(self).pos as int).0 is Stall),
        ensures
            final(self).data == old(self).data,
            final(self).wf(),
            final(self).pos == parse_val(old(self).data@, old(self).pos as int).1,
            r@ == parse_val(old(self).data@, old(self).pos as int).0,
    {
        match self.read_val() {
            Some(r) => r,
            None => Parsed::Fail,
        }
    }

    /// Reads an array (the position at its `[`): `None` where the lexer would
    /// never return, else `None` inside when the data ends or an element fails.
    fn read_array(&mut self) -> (r: Option<Option<Vec<Val>>>)
        requires
            old(self).wf(),
            old(self).pos < old(self).data@.len(),
        ensures
            final(self).data == old(self).data,
            final(self).wf(),
            match arr(old(self).data@, old(self).pos + 1) {
                ArrS::Done(items, e) => r matches Some(Some(a)) && vals_view(a@) == items
                    && final(self).pos == e,
                ArrS::Fail(e) => r matches Some(None) && final(self).pos == e,
                ArrS::Stall => r is None,
            },
        decreases old(self).data@.len() - old(self).pos - 1, 1int,
    {
        let ghost s = self.data@;
        let ghost target = arr(s, self.pos + 1);
        let len = self.data.len();
        self.pos += 1;
        let ghost start = self.pos;
        let mut out: Vec<Val> = Vec::new();
        assert(arr_with_prefix(vals_view(out@), arr(s, self.pos as int)) == target) by {
            if let ArrS::Done(items, e) = target {
                assert(vals_view(out@) + items =~= items);
            }
        }
        loop
            invariant
                self.data@ == s,
                self.data == old(self).data,
                s == old(self).data@,
                target == arr(old(self).data@, old(self).pos + 1),
                start == old(self).pos + 1,
                len == s.len(),
                start <= self.pos <= len,
                arr_with_prefix(vals_view(out@), arr(s, self.pos as int)) == target,
            decreases len - self.pos,
        {
            let top = self.pos;
            proof {
                lemma_skip_ws_ge(s, top as int);
            }
            self.skip_ws_comments();
            match self.peek() {
                None => {
                    return Some(None);
                },
                Some(b) => {
                    if b == RBRACKET {
                        self.pos += 1;
                        assert(vals_view(out@) + Seq::<SVal>::empty() =~= vals_view(out@));
                        return Some(Some(out));
                    }
                },
            }
            let ghost q = self.pos as int;
            let ghost rest = parse_val(s, q);
            let v = self.read_val();
            if self.pos <= top {
                return None;
            }
            match v {
                Some(Parsed::Val(x)) => {
                    proof {
                        lemma_vals_view_push(out@, x);
                        if let ArrS::Done(items, e) = arr(s, rest.1) {
                            assert(vals_view(out@).push(x@) + items =~= vals_view(out@) + (seq![
                                x@,
                            ] + items));
                        }
                    }
                    out.push(x);
                },
                Some(Parsed::Word(_)) => {},
                Some(Parsed::DictSkipped) => {},
                Some(Parsed::Fail) => {
                    return Some(None);
                },
                None => {
                    return None;
                },
            }
        }
    }

    /// Reads an array; the position is at its `[`. Bare words and dictionaries
    /// inside are dropped. `None` when the data ends or an element fails.
    pub fn parse_array(&mut self) -> (r: Option<Vec<Val>>)
        requires
            old(self).wf(),
            old(self).pos < old(self).data@.len(),
            !(arr(old(self).data@, old(self).pos + 1) is Stall),
        ensures
            final(self).data == old(self).data,
            final(self).wf(),
            match arr(old(self).data@, old(self).pos + 1) {
                ArrS::Done(items, e) => r matches Some(a) && vals_view(a@) == items
                    && final(self).pos == e,
                ArrS::Fail(e) => r is None && final(self).pos == e,
                ArrS::Stall => false,
            },
    {
        match self.read_array() {
            Some(r) => r,
            None => None,
        }
    }

    /// Skips dictionary entries up to and with `>>` (the `<<` is already read):
    /// `None` where the lexer would never return, else whether it succeeded.
    fn skip_entries(&mut self) -> (r: Option<bool>)
        requires
            old(self).wf(),
        ensures
            final(self).data == old(self).data,
            final(self).wf(),
            match skip_dict(old(self).data@, old(self).pos as int) {
                SkipS::Done(e) => r == Some(true) && final(self).pos == e,
                SkipS::Fail(e) => r == Some(false) && final(self).pos == e,
                SkipS::Stall => r is None,
            },
        decreases old(self).data@.len() - old(self).pos, 1int,
    {
        let ghost s = self.data@;
        let ghost target = skip_dict(s, self.pos as int);
        let ghost start = self.pos as int;
        let len = self.data.len();
        loop
            invariant
                self.data@ == s,
                self.data == old(self).data,
                s == old(self).data@,
                target == skip_dict(old(self).data@, old(self).pos as int),
                start == old(self).pos,
                len == s.len(),
                start <= self.pos <= len,
                skip_dict(s, self.pos as int) == target,
            decreases len - self.pos,
        {
            let top = self.pos;
            proof {
                lemma_skip_ws_ge(s, top as int);
            }
            self.skip_ws_comments();
            let ghost q = self.pos as int;
            match self.peek() {
                None => {
                    return Some(false);
                },
                Some(b) => {
                    if b == GT && self.peek2() == Some(GT) {
                        self.pos += 2;
                        return Some(true);
                    }
                    proof {
                        lemma_key_end_ge(s, q);
                    }
                    if b == SLASH {
                        self.pos += 1;
                        self.parse_name();
                    } else {
                        self.read_word();
                    }
                },
            }
            match self.skip_one_value() {
                Some(true) => {
                    if self.pos <= top {
                        return None;
                    }
                },
                Some(false) => {
                    return Some(false);
                },
                None => {
                    return None;
                },
            }
        }
    }

    /// Skips the entries of a dictionary up to and with `>>`; the `<<` is already
    /// read. `false` when the data ends first or a value cannot be skipped.
    pub fn skip_dict(&mut self) -> (r: bool)
        requires
            old(self).wf(),
            !(skip_dict(old(self).data@, old(self).pos as int) is Stall),
        ensures
            final(self).data == old(self).data,
            final(self).wf(),
            match skip_dict(old(self).data@, old(self).pos as int) {
                SkipS::Done(e) => r && final(self).pos == e,
                SkipS::Fail(e) => !r && final(self).pos == e,
                SkipS::Stall => false,
            },
    {
        match self.skip_entries() {
            Some(r) => r,
            None => false,
        }
    }

    /// Passes over a hexadecimal string; the position is at its `<`. `true`
    /// when `>` closes it, `false` at a byte that is neither a hex digit nor
    /// white space or when the data ends first.
    fn skip_hex_string(&mut self) -> (r: bool)
        requires
            old(self).wf(),
            old(self).pos < old(self).data@.len(),
        ensures
            final(self).data == old(self).data,
            final(self).wf(),
            r == hex_closed(old(self).data@, old(self).pos + 1),
            final(self).pos == hex_scan(old(self).data@, old(self).pos + 1).1,
    {
        let ghost s = self.data@;
        let ghost start = self.pos + 1;
        let len = self.data.len();
        self.pos += 1;
        while self.pos < len
            invariant
                self.data@ == s,
                self.data == old(self).data,
                s == old(self).data@,
                len == s.len(),
                start == old(self).pos + 1,
                self.pos <= len,
                hex_closed(s, self.pos as int) == hex_closed(s, start),
                hex_scan(s, self.pos as int).1 == hex_scan(s, start).1,
            decreases len - self.pos,
        {
            let b = self.data[self.pos];
            if b == GT {
                self.pos += 1;
                return true;
            }
            if is_ws(b) || hex_digit(b).is_some() {
                self.pos += 1;
            } else {
                return false;
            }
        }
        false
    }

    /// Skips one dictionary value: `None` where the lexer would never return,
    /// else whether it succeeded.
    fn skip_one_value(&mut self) -> (r: Option<bool>)
        requires
            old(self).wf(),
        ensures
            final(self).data == old(self).data,
            final(self).wf(),
            match skip_value(old(self).data@, old(self).pos as int) {
                SkipS::Done(e) => r == Some(true) && final(self).pos == e,
                SkipS::Fail(e) => r == Some(false) && final(self).pos == e,
                SkipS::Stall => r is None,
            },
        decreases old(self).data@.len() - old(self).pos, 0int,
    {
        let ghost s = self.data@;
        let ghost p = self.pos as int;
        let len = self.data.len();
        proof {
            lemma_skip_ws_ge(s, p);
        }
        self.skip_ws_comments();
        let b = match self.peek() {
            Some(b) => b,
            None => return Some(false),
        };
        if b == LBRACKET {
            self.pos += 1;
            let ghost start = self.pos as int;
            let ghost target = bracket_end(s, start, 1);
            let mut depth: usize = 1;
            let mut closed = false;
            while self.pos < len
                invariant_except_break
                    bracket_end(s, self.pos as int, depth as nat) == target,
                    1 <= depth <= self.pos - start + 1,
                    !closed,
                invariant
                    self.data@ == s,
                    len == s.len(),
                    1 <= start <= self.pos <= len,
                ensures
                    self.pos == target.1,
                    closed == target.0,
                decreases len - self.pos,
            {
                let c = self.data[self.pos];
                self.pos += 1;
                if c == LBRACKET {
                    depth += 1;
                }
                if c == RBRACKET {
                    depth -= 1;
                    if depth == 0 {
                        closed = true;
                        break;
                    }
                }
            }
            return Some(closed);
        } else if b == LPAREN {
            proof {
                lemma_lit_bounds(s, self.pos + 1, 1);
            }
            return Some(self.parse_lit_string().is_some());
        } else if b == LT {
            if self.peek2() == Some(LT) {
                self.pos += 2;
                return self.skip_entries();
            } else {
                proof {
                    lemma_hex_scan_bounds(s, self.pos + 1);
                }
                return Some(self.skip_hex_string());
            }
        } else if is_num_start(b) {
            proof {
                lemma_num_end_bounds(s, self.pos as int);
            }
            let _ = self.parse_num();
            proof {
                lemma_skip_ws_ge(s, self.pos as int);
            }
            self.skip_ws_comments();
            if let Some(c) = self.peek() {
                if is_num_start(c) {
                    proof {
                        lemma_num_end_bounds(s, self.pos as int);
                    }
                    let _ = self.parse_num();
                    proof {
                        lemma_skip_ws_ge(s, self.pos as int);
                    }
                    self.skip_ws_comments();
                    if let Some(d) = self.peek() {
                        if !is_ws(d) && !is_delim(d) {
                            proof {
                                lemma_word_end_ge(s, self.pos as int);
                            }
                            self.read_word();
                        }
                    }
                }
            }
        } else if b == SLASH {
            self.pos += 1;
            proof {
                lemma_name_ge(s, self.pos as int);
            }
            self.parse_name();
        } else {
            proof {
                lemma_word_end_ge(s, self.pos as int);
            }
            self.read_word();
        }
        Some(true)
    }

    /// Skips one dictionary value: an array by balancing brackets, a string, a
    /// nested dictionary, a number that may begin an `n n R` reference, a name
    /// or a bare word. `false` at the end of the data, and when an array, a
    /// string or a nested dictionary is not closed.
    pub fn skip_value(&mut self) -> (r: bool)
        requires
            old(self).wf(),
            !(skip_value(old(self).data@, old(self).pos as int) is Stall),
        ensures
            final(self).data == old(self).data,
            final(self).wf(),
            match skip_value(old(self).data@, old(self).pos as int) {
                SkipS::Done(e) => r && final(self).pos == e,
                SkipS::Fail(e) => !r && final(self).pos == e,
                SkipS::Stall => false,
            },
    {
        match self.skip_one_value() {
            Some(r) => r,
            None => false,
        }
    }

    /// The next item, or `None` where the lexer would never return (a bare
    /// closing delimiter it cannot move past).
    pub fn try_next_item(&mut self) -> (r: Option<Option<Item>>)
        requires
            old(self).wf(),
        ensures
            final(self).data == old(self).data,
            final(self).wf(),
            match next(old(self).data@, old(self).pos as int) {
                NextS::Item(ItemS::Op(w), e) => r matches Some(Some(Item::Op(t))) && t@
                    == utf8_lossy(w) && final(self).pos == e,
                NextS::Item(ItemS::Val(v), e) => r matches Some(Some(Item::Val(x))) && x@ == v
                    && final(self).pos == e,
                NextS::End(e) => r matches Some(None) && final(self).pos == e,
                NextS::Stall => r is None,
            },
        decreases old(self).data@.len() - old(self).pos,
    {
        let top = self.pos;
        match self.read_val() {
            Some(Parsed::Val(v)) => Some(Some(Item::Val(v))),
            Some(Parsed::Word(w)) => {
                if w.len() > 0 {
                    Some(Some(Item::Op(op_text(w.as_slice()))))
                } else if self.pos <= top {
                    None
                } else {
                    self.try_next_item()
                }
            },
            Some(Parsed::DictSkipped) => {
                if self.pos <= top {
                    None
                } else {
                    self.try_next_item()
                }
            },
            Some(Parsed::Fail) => Some(None),
            None => None,
        }
    }

    /// The next item: a value, or a non-empty bare word as an operator.
    /// Dictionaries and empty words are passed over; `None` when no item can be
    /// read (the data ends, or a value is malformed).
    pub fn next_item(&mut self) -> (r: Option<Item>)
        requires
            old(self).wf(),
            !(next(old(self).data@, old(self).pos as int) is Stall),
        ensures
            final(self).data == old(self).data,
            final(self).wf(),
            match next(old(self).data@, old(self).pos as int) {
                NextS::Item(ItemS::Op(w), e) => r matches Some(Item::Op(t)) && t@ == utf8_lossy(w)
                    && final(self).pos == e,
                NextS::Item(ItemS::Val(v), e) => r matches Some(Item::Val(x)) && x@ == v
                    && final(self).pos == e,
                NextS::End(e) => r is None && final(self).pos == e,
                NextS::Stall => false,
            },
    {
        match self.try_next_item() {
            Some(r) => r,
            None => None,
        }
    }

    /// Reads the dictionary of an inline image after `BI` (`<<`, its entries and
    /// `>>`): `None` where the lexer would never return; else the text of the
    /// last numeric `Length` value, `None` inside when the dictionary is missing
    /// or malformed or has no numeric `Length`.
    pub fn try_inline_image_header(&mut self) -> (r: Option<Option<Vec<u8>>>)
        requires
            old(self).wf(),
        ensures
            final(self).data == old(self).data,
            final(self).wf(),
            match image_header(old(self).data@, old(self).pos as int) {
                DictLenS::Done(acc, e) => r matches Some(x) && opt_bytes(x) == acc
                    && final(self).pos == e,
                DictLenS::Fail(e) => r matches Some(None) && final(self).pos == e,
                DictLenS::Stall => r is None,
            },
    {
        let ghost s = self.data@;
        let _len = self.data.len();
        proof {
            lemma_skip_ws_ge(s, self.pos as int);
        }
        self.skip_ws_comments();
        if self.peek() != Some(LT) || self.peek2() != Some(LT) {
            return Some(None);
        }
        self.pos += 2;
        self.read_image_dict()
    }

    /// Reads the dictionary of an inline image after `BI`: `<<`, its entries and
    /// `>>`. Gives the text of the last numeric `Length` value; `None` when the
    /// dictionary is missing or malformed, or has no numeric `Length`.
    pub fn inline_image_header(&mut self) -> (r: Option<Vec<u8>>)
        requires
            old(self).wf(),
            !(image_header(old(self).data@, old(self).pos as int) is Stall),
        ensures
            final(self).data == old(self).data,
            final(self).wf(),
            match image_header(old(self).data@, old(self).pos as int) {
                DictLenS::Done(acc, e) => opt_bytes(r) == acc && final(self).pos == e,
                DictLenS::Fail(e) => r is None && final(self).pos == e,
                DictLenS::Stall => false,
            },
    {
        match self.try_inline_image_header() {
            Some(r) => r,
            None => None,
        }
    }

    /// Skips an inline image after `BI`: its dictionary, then `ID`, one end of
    /// line, the image data and `EI`. The data length is what `length_of`
    /// makes of the text of the dictionary's last numeric `Length` value.
    /// `false` when the dictionary is missing, malformed or has no numeric
    /// `Length`, or when a later part is missing or the data is too short.
    pub fn handle_inline_image<F: Fn(&[u8]) -> usize>(&mut self, length_of: F) -> (r: bool)
        requires
            old(self).wf(),
            !(image_header(old(self).data@, old(self).pos as int) is Stall),
            forall|t: &[u8]| #[trigger] length_of.requires((t,)),
        ensures
            final(self).data == old(self).data,
            match image_header(old(self).data@, old(self).pos as int) {
                DictLenS::Done(Some(t), e) => exists|x: &[u8], n: usize|
                    #![trigger length_of.ensures((x,), n)]
                    x@ == t && length_of.ensures((x,), n) && (r, final(self).pos as int)
                        == image_tail(old(self).data@, e, n as int),
                DictLenS::Done(None, e) => !r && final(self).pos == e,
                DictLenS::Fail(e) => !r && final(self).pos == e,
                DictLenS::Stall => false,
            },
    {
        match self.inline_image_header() {
            Some(t) => {
                let x = t.as_slice();
                let n = length_of(x);
                self.finish_inline_image(n)
            },
            None => false,
        }
    }

    /// Reads inline image dictionary entries up to and with `>>`: `None` where
    /// the lexer would never return, else the last numeric `Length` text.
    fn read_image_dict(&mut self) -> (r: Option<Option<Vec<u8>>>)
        requires
            old(self).wf(),
        ensures
            final(self).data == old(self).data,
            final(self).wf(),
            match image_dict(old(self).data@, old(self).pos as int, None) {
                DictLenS::Done(acc, e) => r matches Some(x) && opt_bytes(x) == acc
                    && final(self).pos == e,
                DictLenS::Fail(e) => r matches Some(None) && final(self).pos == e,
                DictLenS::Stall => r is None,
            },
    {
        let ghost s = self.data@;
        let ghost target = image_dict(s, self.pos as int, None);
        let len = self.data.len();
        let mut length: Option<Vec<u8>> = None;
        loop
            invariant
                self.data@ == s,
                self.data == old(self).data,
                s == old(self).data@,
                target == image_dict(old(self).data@, old(self).pos as int, None),
                len == s.len(),
                self.pos <= len,
                image_dict(s, self.pos as int, opt_bytes(length)) == target,
            decreases len - self.pos,
        {
            let top = self.pos;
            proof {
                lemma_skip_ws_ge(s, top as int);
            }
            self.skip_ws_comments();
            let ghost q = self.pos as int;
            match self.peek() {
                None => {
                    return Some(None);
                },
                Some(b) => {
                    if b == GT && self.peek2() == Some(GT) {
                        self.pos += 2;
                        return Some(length);
                    }
                },
            }
            proof {
                lemma_word_end_ge(s, q);
                lemma_name_ge(s, q + 1);
            }
            let key = if self.data[self.pos] == SLASH {
                self.pos += 1;
                self.parse_name()
            } else {
                self.read_word()
            };
            proof {
                lemma_skip_ws_ge(s, self.pos as int);
            }
            self.skip_ws_comments();
            let v = self.read_val();
            match v {
                None => {
                    return None;
                },
                Some(x) => {
                    if is_length_key(&key) {
                        if let Parsed::Val(Val::Num(n)) = x {
                            length = Some(n);
                        }
                    }
                },
            }
            if self.pos <= top {
                return None;
            }
        }
    }

    /// Reads the entries of an inline image dictionary up to and with `>>` (the
    /// `<<` is already read). Gives the text of the last numeric `Length` value;
    /// `None` when the data ends first or no numeric `Length` was seen.
    pub fn inline_image_length(&mut self) -> (r: Option<Vec<u8>>)
        requires
            old(self).wf(),
            !(image_dict(old(self).data@, old(self).pos as int, None) is Stall),
        ensures
            final(self).data == old(self).data,
            final(self).wf(),
            match image_dict(old(self).data@, old(self).pos as int, None) {
                DictLenS::Done(acc, e) => opt_bytes(r) == acc && final(self).pos == e,
                DictLenS::Fail(e) => r is None && final(self).pos == e,
                DictLenS::Stall => false,
            },
    {
        match self.read_image_dict() {
            Some(r) => r,
            None => None,
        }
    }

    /// Reads the rest of an inline image after its dictionary: the word `ID`,
    /// one end of line, `length` bytes of image data and the word `EI`.
    /// `false` when any of these is missing or the data is too short.
    pub fn finish_inline_image(&mut self, length: usize) -> (r: bool)
        requires
            old(self).wf(),
        ensures
            final(self).data == old(self).data,
            (r, final(self).pos as int) == image_tail(
                old(self).data@,
                old(self).pos as int,
                length as int,
            ),
    {
        let ghost s = self.data@;
        let len = self.data.len();
        self.skip_ws_comments();
        proof {
            lemma_skip_ws_ge(s, old(self).pos as int);
        }
        if self.peek() != Some(UPPER_I) {
            return false;
        }
        proof {
            lemma_word_end_ge(s, self.pos as int);
        }
        let w = self.read_word();
        if !is_word2(&w, UPPER_I, UPPER_D) {
            return false;
        }
        if self.peek() == Some(CR) {
            self.pos += 1;
            if self.peek() == Some(LF) {
                self.pos += 1;
            }
        } else if self.peek() == Some(LF) {
            self.pos += 1;
        }
        if length > len - self.pos {
            return false;
        }
        self.pos += length;
        proof {
            lemma_skip_ws_ge(s, self.pos as int);
        }
        self.skip_ws_comments();
        if self.peek() != Some(UPPER_E) {
            return false;
        }
        proof {
            lemma_word_end_ge(s, self.pos as int);
        }
        let w2 = self.read_word();
        is_word2(&w2, UPPER_E, UPPER_I)
    }
}

} // verus!
