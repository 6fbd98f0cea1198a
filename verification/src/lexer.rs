//! The executable scanner: a `Cursor` that turns a position in a byte buffer
//! into the next raw token, and a `Lexer` that classifies raw tokens into
//! keywords and parsed numeric values.

use vstd::prelude::*;

use crate::scan::alnum_end;
use crate::scan::digits_val;
use crate::scan::is_alnum;
use crate::scan::is_alpha;
use crate::scan::is_digit;
use crate::scan::is_ws;
use crate::scan::lemma_alnum_end_pin;
use crate::scan::lemma_digit_end_pin;
use crate::scan::lemma_digits_val_extend;
use crate::scan::lemma_number_shape;
use crate::scan::lemma_scan_to_bounds;
use crate::scan::lemma_scan_to_pin;
use crate::scan::lemma_next_raw_bounds;
use crate::scan::lemma_next_token_bounds;
use crate::scan::lemma_ws_end_pin;
use crate::scan::scan_to;
use crate::scan::kw_else;
use crate::scan::kw_false;
use crate::scan::kw_fn;
use crate::scan::kw_if;
use crate::scan::kw_let;
use crate::scan::kw_return;
use crate::scan::kw_true;
use crate::scan::spec_bump;
use crate::scan::spec_keyword;
use crate::scan::spec_next_raw;
use crate::scan::spec_next_token;
use crate::scan::spec_number;
use crate::scan::spec_token_stream;
use crate::scan::spec_parse_i64;
use crate::scan::template_rest;
use crate::scan::token_in_window;
use crate::scan::TplState;
use crate::scan::until_end;
use crate::token::Interp;
use crate::token::InterpModel;
use crate::token::Num;
use crate::token::Token;
use crate::token::TokenModel;

verus! {

/// Whitespace byte, as the scanner classifies bytes.
fn is_ws_byte(b: u8) -> (r: bool)
    ensures
        r == is_ws(b),
{
    b == 0x20 || (0x09 <= b && b <= 0x0d)
}

/// Decimal digit byte.
fn is_digit_byte(b: u8) -> (r: bool)
    ensures
        r == is_digit(b),
{
    0x30 <= b && b <= 0x39
}

/// Letter byte.
fn is_alpha_byte(b: u8) -> (r: bool)
    ensures
        r == is_alpha(b),
{
    (0x41 <= b && b <= 0x5a) || (0x61 <= b && b <= 0x7a)
}

/// Letter or digit byte.
fn is_alnum_byte(b: u8) -> (r: bool)
    ensures
        r == is_alnum(b),
{
    (0x41 <= b && b <= 0x5a) || (0x61 <= b && b <= 0x7a) || (0x30 <= b && b <= 0x39)
}

/// Parses the digit string `[begin, end)` of `buf` as a signed 64-bit
/// integer: its value when the range is non-empty and the value fits,
/// nothing on an empty range or on overflow.
fn parse_digits(buf: &Vec<u8>, begin: usize, end: usize) -> (r: Option<i64>)
    requires
        begin <= end <= buf@.len(),
        forall|i: int| begin <= i < end ==> is_digit(buf@[i]),
    ensures
        r == spec_parse_i64(buf@.subrange(begin as int, end as int)),
{
    let ghost s = buf@.subrange(begin as int, end as int);
    proof {
        assert forall|i: int| 0 <= i < s.len() implies is_digit(s[i]) by {
            assert(s[i] == buf@[begin + i]);
        }
    }
    if begin == end {
        return None;
    }
    let mut acc: i64 = 0;
    let mut j: usize = begin;
    while j < end
        invariant
            begin <= j <= end <= buf@.len(),
            s == buf@.subrange(begin as int, end as int),
            forall|i: int| 0 <= i < s.len() ==> is_digit(s[i]),
            forall|i: int| begin <= i < end ==> is_digit(buf@[i]),
            0 <= acc,
            acc == digits_val(buf@.subrange(begin as int, j as int)),
        decreases end - j,
    {
        let d = buf[j] - 0x30;
        proof {
            assert(buf@.subrange(begin as int, j + 1).drop_last() =~= buf@.subrange(
                begin as int,
                j as int,
            ));
            assert(buf@.subrange(begin as int, j + 1).last() == buf@[j as int]);
        }
        if acc > 922337203685477580 || (acc == 922337203685477580 && d > 7) {
            proof {
                assert(digits_val(buf@.subrange(begin as int, j + 1)) > i64::MAX);
                assert(s.take(j + 1 - begin) =~= buf@.subrange(begin as int, j + 1));
                lemma_digits_val_extend(s, j + 1 - begin);
            }
            return None;
        }
        acc = acc * 10 + d as i64;
        j = j + 1;
    }
    proof {
        assert(buf@.subrange(begin as int, end as int) == s);
    }
    Some(acc)
}

/// Resolves an identifier span of `buf` against the fixed, case-sensitive
/// keyword table.
fn keyword_token(buf: &Vec<u8>, begin: usize, end: usize) -> (r: Option<Token>)
    requires
        begin <= end <= buf@.len(),
    ensures
        match r {
            Some(k) => spec_keyword(buf@.subrange(begin as int, end as int)) == Some(k@),
            None => spec_keyword(buf@.subrange(begin as int, end as int)) is None,
        },
{
    let ghost w = buf@.subrange(begin as int, end as int);
    let n = end - begin;
    if n == 2 && buf[begin] == 0x66 && buf[begin + 1] == 0x6e {
        proof {
            assert(w =~= kw_fn());
        }
        Some(Token::FUNCTION)
    } else if n == 3 && buf[begin] == 0x6c && buf[begin + 1] == 0x65 && buf[begin + 2] == 0x74 {
        proof {
            assert(w =~= kw_let());
        }
        Some(Token::LET)
    } else if n == 4 && buf[begin] == 0x74 && buf[begin + 1] == 0x72 && buf[begin + 2] == 0x75
        && buf[begin + 3] == 0x65 {
        proof {
            assert(w =~= kw_true());
        }
        Some(Token::TRUE)
    } else if n == 5 && buf[begin] == 0x66 && buf[begin + 1] == 0x61 && buf[begin + 2] == 0x6c
        && buf[begin + 3] == 0x73 && buf[begin + 4] == 0x65 {
        proof {
            assert(w =~= kw_false());
        }
        Some(Token::FALSE)
    } else if n == 2 && buf[begin] == 0x69 && buf[begin + 1] == 0x66 {
        proof {
            assert(w =~= kw_if());
        }
        Some(Token::IF)
    } else if n == 4 && buf[begin] == 0x65 && buf[begin + 1] == 0x6c && buf[begin + 2] == 0x73
        && buf[begin + 3] == 0x65 {
        proof {
            assert(w =~= kw_else());
        }
        Some(Token::ELSE)
    } else if n == 6 && buf[begin] == 0x72 && buf[begin + 1] == 0x65 && buf[begin + 2] == 0x74
        && buf[begin + 3] == 0x75 && buf[begin + 4] == 0x72 && buf[begin + 5] == 0x6e {
        proof {
            assert(w =~= kw_return());
        }
        Some(Token::RETURN)
    } else {
        proof {
            assert(w.len() == n);
            assert forall|i: int| 0 <= i < n implies w[i] == buf@[begin + i] by {}
            if w == kw_fn() {
                assert(false);
            }
            if w == kw_let() {
                assert(false);
            }
            if w == kw_true() {
                assert(false);
            }
            if w == kw_false() {
                assert(false);
            }
            if w == kw_if() {
                assert(false);
            }
            if w == kw_else() {
                assert(false);
            }
            if w == kw_return() {
                assert(false);
            }
        }
        None
    }
}

/// State of the executable template-string scanner between two bytes; its
/// view is the `TplState` of the scanning model.
#[derive(Clone, Copy)]
enum ScanState {
    Scan,
    Dollar { ibegin: usize },
    Var { ibegin: usize },
    Blk { ibegin: usize, depth: usize },
}

impl View for ScanState {
    type V = TplState;

    closed spec fn view(&self) -> TplState {
        match *self {
            ScanState::Scan => TplState::Scan,
            ScanState::Dollar { ibegin } => TplState::Dollar { ibegin: ibegin as int },
            ScanState::Var { ibegin } => TplState::Var { ibegin: ibegin as int },
            ScanState::Blk { ibegin, depth } => TplState::Blk {
                ibegin: ibegin as int,
                depth: depth as int,
            },
        }
    }
}

/// Abstract state of a cursor or lexer: the immutable input buffer and the
/// current scan offset.
pub struct CursorView {
    pub buf: Seq<u8>,
    pub pos: int,
}

/// Lowest-level character scanner. It owns the input buffer and the current
/// scan offset, and produces one position-tagged raw token per call.
pub struct Cursor {
    buf: Vec<u8>,
    pos: usize,
}

impl View for Cursor {
    type V = CursorView;

    closed spec fn view(&self) -> CursorView {
        CursorView { buf: self.buf@, pos: self.pos as int }
    }
}

impl Cursor {
    /// The scan offset never runs past the end of the buffer.
    pub open spec fn wf(&self) -> bool {
        self@.pos <= self@.buf.len()
    }

    /// A cursor starts at the beginning of its buffer.
    pub fn new(input: Vec<u8>) -> (c: Cursor)
        ensures
            c@.buf == input@,
            c@.pos == 0,
            c.wf(),
    {
        Cursor { buf: input, pos: 0 }
    }

    /// Current byte position. Monotonically non-decreasing over the cursor's
    /// lifetime: no operation ever rewinds it.
    pub fn offset(&self) -> (r: usize)
        ensures
            r == self@.pos,
    {
        self.pos
    }

    /// The next byte without consuming it; the sentinel `0` at the end of
    /// the input.
    pub fn peek(&mut self) -> (r: u8)
        requires
            old(self).wf(),
        ensures
            *final(self) == *old(self),
            r == spec_bump(old(self)@.buf, old(self)@.pos).0,
    {
        if self.pos < self.buf.len() {
            self.buf[self.pos]
        } else {
            0
        }
    }

    /// Consumes and returns the next byte; the sentinel `0`, with the
    /// position unmoved, at the end of the input.
    pub fn bump(&mut self) -> (r: u8)
        requires
            old(self).wf(),
        ensures
            final(self).wf(),
            final(self)@.buf == old(self)@.buf,
            r == spec_bump(old(self)@.buf, old(self)@.pos).0,
            final(self)@.pos == spec_bump(old(self)@.buf, old(self)@.pos).1,
    {
        if self.pos < self.buf.len() {
            let c = self.buf[self.pos];
            self.pos = self.pos + 1;
            c
        } else {
            0
        }
    }

    /// Whether any input is left.
    pub fn not_empty(&self) -> (r: bool)
        ensures
            r == (self@.pos < self@.buf.len()),
            self@.buf.len() <= usize::MAX,
    {
        self.pos < self.buf.len()
    }

    /// Consumes the maximal run of bytes satisfying `pred`, stopping at the
    /// first byte that fails it or at the end of the input.
    pub fn eat_while<F: Fn(u8) -> bool>(&mut self, pred: F)
        requires
            old(self).wf(),
            forall|b: u8| #[trigger] pred.requires((b,)),
        ensures
            final(self).wf(),
            final(self)@.buf == old(self)@.buf,
            old(self)@.pos <= final(self)@.pos <= final(self)@.buf.len(),
            forall|i: int|
                old(self)@.pos <= i < final(self)@.pos ==> pred.ensures(
                    (final(self)@.buf[i],),
                    true,
                ),
            final(self)@.pos < final(self)@.buf.len() ==> pred.ensures(
                (final(self)@.buf[final(self)@.pos],),
                false,
            ),
    {
        loop
            invariant
                self.wf(),
                self@.buf == old(self)@.buf,
                old(self)@.pos <= self@.pos <= self@.buf.len(),
                forall|b: u8| #[trigger] pred.requires((b,)),
                forall|i: int|
                    old(self)@.pos <= i < self@.pos ==> pred.ensures((self@.buf[i],), true),
            ensures
                self.wf(),
                self@.buf == old(self)@.buf,
                old(self)@.pos <= self@.pos <= self@.buf.len(),
                forall|i: int|
                    old(self)@.pos <= i < self@.pos ==> pred.ensures((self@.buf[i],), true),
                self@.pos < self@.buf.len() ==> pred.ensures((self@.buf[self@.pos],), false),
            decreases self@.buf.len() - self@.pos,
        {
            let c = self.peek();
            if !pred(c) {
                break;
            }
            if !self.not_empty() {
                break;
            }
            self.pos = self.pos + 1;
        }
    }

    /// Consumes a maximal run of bytes satisfying `pred` and then one more
    /// byte — the terminator — so that closing delimiters are included in a
    /// token's span. If the input is exhausted before the terminator
    /// appears, scanning silently stops.
    pub fn eat_until<F: Fn(u8) -> bool>(&mut self, pred: F)
        requires
            old(self).wf(),
            forall|b: u8| #[trigger] pred.requires((b,)),
        ensures
            final(self).wf(),
            final(self)@.buf == old(self)@.buf,
            old(self)@.pos <= final(self)@.pos <= final(self)@.buf.len(),
            forall|i: int|
                old(self)@.pos <= i < final(self)@.pos - 1 ==> pred.ensures(
                    (final(self)@.buf[i],),
                    true,
                ),
            final(self)@.pos < final(self)@.buf.len() ==> old(self)@.pos < final(self)@.pos
                && pred.ensures((final(self)@.buf[final(self)@.pos - 1],), false),
    {
        self.eat_while(pred);
        self.bump();
    }

    /// Scans the rest of an identifier whose first letter was just consumed:
    /// the maximal alphanumeric run, returned as a raw span. Keyword
    /// classification happens one layer up.
    pub fn identifier(&mut self) -> (t: Token)
        requires
            old(self).wf(),
            old(self)@.pos >= 1,
        ensures
            final(self).wf(),
            final(self)@.buf == old(self)@.buf,
            final(self)@.pos == alnum_end(old(self)@.buf, old(self)@.pos),
            t@ == (TokenModel::IDENT {
                begin: old(self)@.pos - 1,
                end: alnum_end(old(self)@.buf, old(self)@.pos),
            }),
    {
        let begin = self.offset() - 1;
        let pred = |b: u8| -> (r: bool)
            ensures
                r == is_alnum(b),
            { is_alnum_byte(b) };
        self.eat_while(pred);
        let end = self.offset();
        proof {
            let buf = self@.buf;
            let p0 = old(self)@.pos;
            let p1 = self@.pos;
            assert forall|i: int| p0 <= i < p1 implies is_alnum(buf[i]) by {
                assert(pred.ensures((buf[i],), true));
            }
            if p1 < buf.len() {
                assert(pred.ensures((buf[p1],), false));
            }
            lemma_alnum_end_pin(buf, p0, p1);
        }
        Token::IDENT { begin, end }
    }

    /// Scans the rest of a numeric literal whose first digit was just
    /// consumed: the maximal digit run, then the byte after it selects the
    /// provisional sub-kind (`.` float, `/` rational, anything else
    /// integer), consuming a further digit run for float and rational. The
    /// trailing run may be empty; parsing failures surface one layer up.
    pub fn number(&mut self) -> (t: Token)
        requires
            old(self).wf(),
            old(self)@.pos >= 1,
        ensures
            final(self).wf(),
            final(self)@.buf == old(self)@.buf,
            final(self)@.pos == spec_number(
                old(self)@.buf,
                old(self)@.pos - 1,
                old(self)@.pos,
            ).1,
            t@ == spec_number(old(self)@.buf, old(self)@.pos - 1, old(self)@.pos).0,
    {
        let begin = self.offset() - 1;
        let pred = |b: u8| -> (r: bool)
            ensures
                r == is_digit(b),
            { is_digit_byte(b) };
        self.eat_while(pred);
        proof {
            let buf = self@.buf;
            let p0 = old(self)@.pos;
            let p1 = self@.pos;
            assert forall|i: int| p0 <= i < p1 implies is_digit(buf[i]) by {
                assert(pred.ensures((buf[i],), true));
            }
            if p1 < buf.len() {
                assert(pred.ensures((buf[p1],), false));
            }
            lemma_digit_end_pin(buf, p0, p1);
        }
        let c = self.peek();
        if c == 0x2e {
            self.bump();
            let ghost d = self@.pos - 1;
            let pred2 = |b: u8| -> (r: bool)
                ensures
                    r == is_digit(b),
                { is_digit_byte(b) };
            self.eat_while(pred2);
            let end = self.offset();
            proof {
                let buf = self@.buf;
                let p2 = self@.pos;
                assert forall|i: int| d + 1 <= i < p2 implies is_digit(buf[i]) by {
                    assert(pred2.ensures((buf[i],), true));
                }
                if p2 < buf.len() {
                    assert(pred2.ensures((buf[p2],), false));
                }
                lemma_digit_end_pin(buf, d + 1, p2);
            }
            Token::NUMBER { begin, end, kind: Num::Float }
        } else if c == 0x2f {
            self.bump();
            let ghost d = self@.pos - 1;
            let pred2 = |b: u8| -> (r: bool)
                ensures
                    r == is_digit(b),
                { is_digit_byte(b) };
            self.eat_while(pred2);
            let end = self.offset();
            proof {
                let buf = self@.buf;
                let p2 = self@.pos;
                assert forall|i: int| d + 1 <= i < p2 implies is_digit(buf[i]) by {
                    assert(pred2.ensures((buf[i],), true));
                }
                if p2 < buf.len() {
                    assert(pred2.ensures((buf[p2],), false));
                }
                lemma_digit_end_pin(buf, d + 1, p2);
            }
            Token::NUMBER { begin, end, kind: Num::Rat }
        } else {
            let end = self.offset();
            Token::NUMBER { begin, end, kind: Num::Int }
        }
    }

    /// Scans the rest of a double-quoted string whose opening quote was just
    /// consumed, up to and including the closing quote. There is no
    /// escape-sequence handling; an unterminated string silently stops at
    /// the end of the input.
    pub fn double_quote_string(&mut self) -> (t: Token)
        requires
            old(self).wf(),
            old(self)@.pos >= 1,
        ensures
            final(self).wf(),
            final(self)@.buf == old(self)@.buf,
            final(self)@.pos == until_end(old(self)@.buf, old(self)@.pos, 0x22),
            t@ == (TokenModel::STRING {
                begin: old(self)@.pos - 1,
                end: until_end(old(self)@.buf, old(self)@.pos, 0x22),
            }),
    {
        let begin = self.offset() - 1;
        let pred = |b: u8| -> (r: bool)
            ensures
                r == (b != 0x22),
            { b != 0x22 };
        self.eat_until(pred);
        let end = self.offset();
        proof {
            let buf = self@.buf;
            let p0 = old(self)@.pos;
            let fp = self@.pos;
            let q: u8 = 0x22;
            assert forall|i: int| p0 <= i < fp - 1 implies buf[i] != q by {
                assert(pred.ensures((buf[i],), true));
            }
            if fp < buf.len() {
                assert(pred.ensures((buf[fp - 1],), false));
                lemma_scan_to_pin(buf, p0, fp - 1, q);
            } else {
                lemma_scan_to_bounds(buf, p0, q);
                if scan_to(buf, p0, q) < fp - 1 {
                    assert(buf[scan_to(buf, p0, q)] != q);
                    assert(false);
                }
            }
        }
        Token::STRING { begin, end }
    }

    /// As `double_quote_string`, for a single-quoted string.
    pub fn single_quote_string(&mut self) -> (t: Token)
        requires
            old(self).wf(),
            old(self)@.pos >= 1,
        ensures
            final(self).wf(),
            final(self)@.buf == old(self)@.buf,
            final(self)@.pos == until_end(old(self)@.buf, old(self)@.pos, 0x27),
            t@ == (TokenModel::STRING {
                begin: old(self)@.pos - 1,
                end: until_end(old(self)@.buf, old(self)@.pos, 0x27),
            }),
    {
        let begin = self.offset() - 1;
        let pred = |b: u8| -> (r: bool)
            ensures
                r == (b != 0x27),
            { b != 0x27 };
        self.eat_until(pred);
        let end = self.offset();
        proof {
            let buf = self@.buf;
            let p0 = old(self)@.pos;
            let fp = self@.pos;
            let q: u8 = 0x27;
            assert forall|i: int| p0 <= i < fp - 1 implies buf[i] != q by {
                assert(pred.ensures((buf[i],), true));
            }
            if fp < buf.len() {
                assert(pred.ensures((buf[fp - 1],), false));
                lemma_scan_to_pin(buf, p0, fp - 1, q);
            } else {
                lemma_scan_to_bounds(buf, p0, q);
                if scan_to(buf, p0, q) < fp - 1 {
                    assert(buf[scan_to(buf, p0, q)] != q);
                    assert(false);
                }
            }
        }
        Token::STRING { begin, end }
    }

    /// Scans the rest of a template string whose opening backtick was just
    /// consumed, collecting interpolations in order of appearance. A `$`
    /// followed by neither a letter nor `{` collapses the whole token to the
    /// illegal marker, as does a buffer that ends inside `$...`; a buffer
    /// that ends in plain template text yields an unterminated template
    /// token reaching the end of the input.
    pub fn template_string(&mut self) -> (t: Token)
        requires
            old(self).wf(),
            old(self)@.pos >= 1,
        ensures
            final(self).wf(),
            final(self)@.buf == old(self)@.buf,
            final(self)@.pos == template_rest(
                old(self)@.buf,
                old(self)@.pos,
                old(self)@.pos - 1,
                TplState::Scan,
                Seq::empty(),
            ).1,
            t@ == template_rest(
                old(self)@.buf,
                old(self)@.pos,
                old(self)@.pos - 1,
                TplState::Scan,
                Seq::empty(),
            ).0,
    {
        let begin = self.offset() - 1;
        let mut interps: Vec<Interp> = Vec::new();
        let mut st = ScanState::Scan;
        let ghost buf = self@.buf;
        let ghost p0 = self@.pos;
        proof {
            assert(interps.deep_view() =~= Seq::<InterpModel>::empty());
        }
        loop
            invariant
                self.wf(),
                self@.buf == buf,
                buf == old(self)@.buf,
                p0 == old(self)@.pos,
                1 <= p0 <= self@.pos,
                begin == p0 - 1,
                st@ matches TplState::Blk { ibegin, depth } ==> 1 <= depth <= self@.pos,
                template_rest(buf, p0, p0 - 1, TplState::Scan, Seq::empty()) == template_rest(
                    buf,
                    self@.pos,
                    p0 - 1,
                    st@,
                    interps.deep_view(),
                ),
            decreases self@.buf.len() - self@.pos, crate::scan::tpl_rank(st@),
        {
            match st {
                ScanState::Scan => {
                    if !self.not_empty() {
                        let end = self.offset();
                        return Token::TEMPLATE { begin, end, interps };
                    }
                    let c = self.bump();
                    if c == 0x60 {
                        let end = self.offset();
                        return Token::TEMPLATE { begin, end, interps };
                    } else if c == 0x24 {
                        st = ScanState::Dollar { ibegin: self.offset() - 1 };
                    }
                }
                ScanState::Dollar { ibegin } => {
                    if !self.not_empty() {
                        return Token::ILLEGAL;
                    }
                    let c = self.peek();
                    if is_alpha_byte(c) {
                        self.bump();
                        st = ScanState::Var { ibegin };
                    } else if c == 0x7b {
                        self.bump();
                        st = ScanState::Blk { ibegin, depth: 1 };
                    } else {
                        return Token::ILLEGAL;
                    }
                }
                ScanState::Var { ibegin } => {
                    let more = self.not_empty();
                    let c = self.peek();
                    if more && is_alnum_byte(c) {
                        self.bump();
                    } else {
                        let ghost prev = interps.deep_view();
                        let end = self.offset();
                        interps.push(Interp::Variable { begin: ibegin, end });
                        proof {
                            assert(interps.deep_view() =~= prev.push(
                                InterpModel::Variable { begin: ibegin as int, end: self@.pos },
                            ));
                        }
                        st = ScanState::Scan;
                    }
                }
                ScanState::Blk { ibegin, depth } => {
                    if !self.not_empty() {
                        return Token::ILLEGAL;
                    }
                    let c = self.bump();
                    if c == 0x7d {
                        if depth == 1 {
                            let ghost prev = interps.deep_view();
                            let end = self.offset();
                            interps.push(Interp::Block { begin: ibegin, end });
                            proof {
                                assert(interps.deep_view() =~= prev.push(
                                    InterpModel::Block { begin: ibegin as int, end: self@.pos },
                                ));
                            }
                            st = ScanState::Scan;
                        } else {
                            st = ScanState::Blk { ibegin, depth: depth - 1 };
                        }
                    } else if c == 0x7b {
                        st = ScanState::Blk { ibegin, depth: depth + 1 };
                    }
                }
            }
        }
    }

    /// The dispatch entry point: consumes one byte; if it is whitespace,
    /// consumes the whitespace run and re-reads the next significant byte;
    /// then dispatches on its class to the matching sub-scanner or
    /// single-byte token. Spans only move forward: the cursor never rewinds.
    pub fn next_token(&mut self) -> (t: Token)
        requires
            old(self).wf(),
        ensures
            final(self).wf(),
            final(self)@.buf == old(self)@.buf,
            final(self)@.pos == spec_next_raw(old(self)@.buf, old(self)@.pos).1,
            t@ == spec_next_raw(old(self)@.buf, old(self)@.pos).0,
            old(self)@.pos <= final(self)@.pos,
            token_in_window(t@, old(self)@.pos, final(self)@.pos),
    {
        proof {
            lemma_next_raw_bounds(old(self)@.buf, old(self)@.pos);
        }
        let mut first = self.bump();
        if is_ws_byte(first) {
            let pred = |b: u8| -> (r: bool)
                ensures
                    r == is_ws(b),
                { is_ws_byte(b) };
            let ghost p1 = self@.pos;
            self.eat_while(pred);
            proof {
                let buf = self@.buf;
                let p2 = self@.pos;
                assert forall|i: int| p1 <= i < p2 implies is_ws(buf[i]) by {
                    assert(pred.ensures((buf[i],), true));
                }
                if p2 < buf.len() {
                    assert(pred.ensures((buf[p2],), false));
                }
                lemma_ws_end_pin(buf, p1, p2);
            }
            first = self.bump();
        }
        if first == 0 {
            Token::EOF
        } else if first == 0x3d {
            Token::ASSIGN
        } else if first == 0x2b {
            Token::PLUS
        } else if first == 0x28 {
            Token::LPAREN
        } else if first == 0x29 {
            Token::RPAREN
        } else if first == 0x7b {
            Token::LBRACE
        } else if first == 0x7d {
            Token::RBRACE
        } else if first == 0x2c {
            Token::COMMA
        } else if first == 0x3b {
            Token::SEMICOLON
        } else if first == 0x22 {
            self.double_quote_string()
        } else if first == 0x27 {
            self.single_quote_string()
        } else if first == 0x60 {
            self.template_string()
        } else if is_alpha_byte(first) {
            self.identifier()
        } else if is_digit_byte(first) {
            self.number()
        } else {
            Token::ILLEGAL
        }
    }
}

/// Classification layer over a `Cursor`: resolves raw identifier spans
/// against the keyword table and parses raw numeric spans into values.
pub struct Lexer {
    cursor: Cursor,
}

impl View for Lexer {
    type V = CursorView;

    closed spec fn view(&self) -> CursorView {
        self.cursor@
    }
}

impl Lexer {
    /// The scan offset never runs past the end of the buffer.
    pub open spec fn wf(&self) -> bool {
        self@.pos <= self@.buf.len()
    }

    /// A lexer starts at the beginning of its buffer.
    pub fn new(input: Vec<u8>) -> (l: Lexer)
        ensures
            l@.buf == input@,
            l@.pos == 0,
            l.wf(),
    {
        Lexer { cursor: Cursor::new(input) }
    }

    /// Pulls exactly one raw token from the cursor and classifies it: an
    /// identifier span is resolved against the keyword table, a numeric
    /// span is parsed per its sub-kind (any parse failure yields the
    /// illegal marker), and every other token passes through unchanged.
    pub fn next_token(&mut self) -> (t: Token)
        requires
            old(self).wf(),
        ensures
            final(self).wf(),
            final(self)@.buf == old(self)@.buf,
            final(self)@.pos == spec_next_token(old(self)@.buf, old(self)@.pos).1,
            t@ == spec_next_token(old(self)@.buf, old(self)@.pos).0,
            old(self)@.pos <= final(self)@.pos,
            token_in_window(t@, old(self)@.pos, final(self)@.pos),
    {
        proof {
            lemma_next_raw_bounds(old(self)@.buf, old(self)@.pos);
            lemma_number_shape(old(self)@.buf, old(self)@.pos);
        }
        let tok = self.cursor.next_token();
        match tok {
            Token::IDENT { begin, end } => {
                match keyword_token(&self.cursor.buf, begin, end) {
                    Some(k) => k,
                    None => Token::IDENT { begin, end },
                }
            }
            Token::NUMBER { begin, end, kind } => {
                match kind {
                    Num::Int => {
                        match parse_digits(&self.cursor.buf, begin, end) {
                            Some(n) => Token::INTEGER(n),
                            None => Token::ILLEGAL,
                        }
                    }
                    Num::Float => Token::FLOAT { begin, end },
                    Num::Rat => {
                        let ghost buf = self@.buf;
                        let mut sl = begin;
                        while sl < end && self.cursor.buf[sl] != 0x2f
                            invariant
                                begin <= sl <= end <= self.cursor.buf@.len(),
                                self.cursor.buf@ == buf,
                                forall|i: int| begin <= i < sl ==> buf[i] != 0x2f,
                            decreases end - sl,
                        {
                            sl = sl + 1;
                        }
                        if sl == end {
                            proof {
                                lemma_scan_to_bounds(buf, begin as int, 0x2f);
                            }
                            Token::ILLEGAL
                        } else {
                            proof {
                                lemma_scan_to_pin(buf, begin as int, sl as int, 0x2f);
                            }
                            let num = parse_digits(&self.cursor.buf, begin, sl);
                            let den = parse_digits(&self.cursor.buf, sl + 1, end);
                            match (num, den) {
                                (Some(n), Some(d)) => Token::RATIONAL { num: n, denom: d },
                                _ => Token::ILLEGAL,
                            }
                        }
                    }
                }
            }
            other => other,
        }
    }
}

/// Drives a fresh lexer over the whole buffer and collects every token, the
/// final end-of-input token included: the executable counterpart of the
/// buffer's token stream. Lexing the same buffer twice therefore yields
/// equal sequences.
#[verifier::loop_isolation(false)]
pub fn tokenize(input: Vec<u8>) -> (tokens: Vec<Token>)
    ensures
        tokens.deep_view() == spec_token_stream(input@, 0),
{
    let ghost buf = input@;
    let mut lexer = Lexer::new(input);
    let mut out: Vec<Token> = Vec::new();
    proof {
        assert(out.deep_view() =~= Seq::<TokenModel>::empty());
    }
    loop
        invariant
            lexer.wf(),
            lexer@.buf == buf,
            spec_token_stream(buf, 0) == out.deep_view() + spec_token_stream(buf, lexer@.pos),
            0 <= lexer@.pos <= buf.len(),
        decreases buf.len() - lexer@.pos,
    {
        proof {
            lemma_next_token_bounds(buf, lexer@.pos);
        }
        let ghost pos0 = lexer@.pos;
        let tok = lexer.next_token();
        let is_eof = matches!(tok, Token::EOF);
        let ghost tm = tok@;
        let ghost prev = out.deep_view();
        out.push(tok);
        proof {
            assert(out.deep_view() =~= prev.push(tm));
        }
        if is_eof {
            proof {
                assert(tm is EOF);
                assert(spec_token_stream(buf, pos0) =~= seq![tm]);
                assert(prev.push(tm) =~= prev + seq![tm]);
                assert(out.deep_view() =~= spec_token_stream(buf, 0));
            }
            return out;
        }
        proof {
            assert(spec_token_stream(buf, pos0) == seq![tm] + spec_token_stream(buf, lexer@.pos));
            assert((prev + (seq![tm] + spec_token_stream(buf, lexer@.pos))) =~= (prev.push(tm)
                + spec_token_stream(buf, lexer@.pos)));
        }
    }
}

} // verus!
