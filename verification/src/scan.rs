//! Mathematical model of the scanner: byte classes, maximal runs, the
//! template-string state machine, and the function that maps a buffer and a
//! scan position to the next raw token. The executable cursor in
//! `crate::lexer` is proved to compute exactly these functions.

use vstd::prelude::*;

use crate::token::{InterpModel, Num, TokenModel};

verus! {

// ---------------------------------------------------------------------------
// Byte classes (ASCII)
// ---------------------------------------------------------------------------

/// Whitespace: space, tab, line feed, vertical tab, form feed, carriage return.
pub open spec fn is_ws(b: u8) -> bool {
    b == 0x20 || (0x09 <= b && b <= 0x0d)
}

/// Decimal digit.
pub open spec fn is_digit(b: u8) -> bool {
    0x30 <= b && b <= 0x39
}

/// Letter.
pub open spec fn is_alpha(b: u8) -> bool {
    (0x41 <= b && b <= 0x5a) || (0x61 <= b && b <= 0x7a)
}

/// Letter or decimal digit.
pub open spec fn is_alnum(b: u8) -> bool {
    is_alpha(b) || is_digit(b)
}

// ---------------------------------------------------------------------------
// Maximal runs and delimiter search
// ---------------------------------------------------------------------------

/// Position after the maximal run of whitespace bytes starting at `pos`.
pub open spec fn ws_end(buf: Seq<u8>, pos: int) -> int
    decreases buf.len() - pos,
{
    if 0 <= pos < buf.len() && is_ws(buf[pos]) {
        ws_end(buf, pos + 1)
    } else {
        pos
    }
}

/// Position after the maximal run of alphanumeric bytes starting at `pos`.
pub open spec fn alnum_end(buf: Seq<u8>, pos: int) -> int
    decreases buf.len() - pos,
{
    if 0 <= pos < buf.len() && is_alnum(buf[pos]) {
        alnum_end(buf, pos + 1)
    } else {
        pos
    }
}

/// Position after the maximal run of digit bytes starting at `pos`.
pub open spec fn digit_end(buf: Seq<u8>, pos: int) -> int
    decreases buf.len() - pos,
{
    if 0 <= pos < buf.len() && is_digit(buf[pos]) {
        digit_end(buf, pos + 1)
    } else {
        pos
    }
}

/// Position of the first occurrence of `q` at or after `pos`, or the buffer
/// length when `q` does not occur there.
pub open spec fn scan_to(buf: Seq<u8>, pos: int, q: u8) -> int
    decreases buf.len() - pos,
{
    if pos < 0 || pos >= buf.len() {
        buf.len() as int
    } else if buf[pos] == q {
        pos
    } else {
        scan_to(buf, pos + 1, q)
    }
}

/// Position after scanning up to and including the first occurrence of `q`
/// at or after `pos`; scanning silently stops at the buffer's end when `q`
/// does not occur, so the terminator is then not part of the consumed text.
pub open spec fn until_end(buf: Seq<u8>, pos: int, q: u8) -> int {
    if scan_to(buf, pos, q) < buf.len() {
        scan_to(buf, pos, q) + 1
    } else {
        buf.len() as int
    }
}

/// `ws_end` is the end of the maximal whitespace run: it is pinned down by
/// the run being whitespace and the stopping byte (if any) not being so.
pub proof fn lemma_ws_end_pin(buf: Seq<u8>, pos: int, fin: int)
    requires
        0 <= pos <= fin <= buf.len(),
        forall|i: int| pos <= i < fin ==> is_ws(buf[i]),
        fin < buf.len() ==> !is_ws(buf[fin]),
    ensures
        ws_end(buf, pos) == fin,
    decreases fin - pos,
{
    if pos < fin {
        lemma_ws_end_pin(buf, pos + 1, fin);
    }
}

/// Bounds and content of the maximal whitespace run.
pub proof fn lemma_ws_end_bounds(buf: Seq<u8>, pos: int)
    requires
        0 <= pos <= buf.len(),
    ensures
        pos <= ws_end(buf, pos) <= buf.len(),
        forall|i: int| pos <= i < ws_end(buf, pos) ==> is_ws(buf[i]),
        ws_end(buf, pos) < buf.len() ==> !is_ws(buf[ws_end(buf, pos)]),
    decreases buf.len() - pos,
{
    if pos < buf.len() && is_ws(buf[pos]) {
        lemma_ws_end_bounds(buf, pos + 1);
    }
}

/// `alnum_end` is the end of the maximal alphanumeric run.
pub proof fn lemma_alnum_end_pin(buf: Seq<u8>, pos: int, fin: int)
    requires
        0 <= pos <= fin <= buf.len(),
        forall|i: int| pos <= i < fin ==> is_alnum(buf[i]),
        fin < buf.len() ==> !is_alnum(buf[fin]),
    ensures
        alnum_end(buf, pos) == fin,
    decreases fin - pos,
{
    if pos < fin {
        lemma_alnum_end_pin(buf, pos + 1, fin);
    }
}

/// Bounds and content of the maximal alphanumeric run.
pub proof fn lemma_alnum_end_bounds(buf: Seq<u8>, pos: int)
    requires
        0 <= pos <= buf.len(),
    ensures
        pos <= alnum_end(buf, pos) <= buf.len(),
        forall|i: int| pos <= i < alnum_end(buf, pos) ==> is_alnum(buf[i]),
        alnum_end(buf, pos) < buf.len() ==> !is_alnum(buf[alnum_end(buf, pos)]),
    decreases buf.len() - pos,
{
    if pos < buf.len() && is_alnum(buf[pos]) {
        lemma_alnum_end_bounds(buf, pos + 1);
    }
}

/// `digit_end` is the end of the maximal digit run.
pub proof fn lemma_digit_end_pin(buf: Seq<u8>, pos: int, fin: int)
    requires
        0 <= pos <= fin <= buf.len(),
        forall|i: int| pos <= i < fin ==> is_digit(buf[i]),
        fin < buf.len() ==> !is_digit(buf[fin]),
    ensures
        digit_end(buf, pos) == fin,
    decreases fin - pos,
{
    if pos < fin {
        lemma_digit_end_pin(buf, pos + 1, fin);
    }
}

/// Bounds and content of the maximal digit run.
pub proof fn lemma_digit_end_bounds(buf: Seq<u8>, pos: int)
    requires
        0 <= pos <= buf.len(),
    ensures
        pos <= digit_end(buf, pos) <= buf.len(),
        forall|i: int| pos <= i < digit_end(buf, pos) ==> is_digit(buf[i]),
        digit_end(buf, pos) < buf.len() ==> !is_digit(buf[digit_end(buf, pos)]),
    decreases buf.len() - pos,
{
    if pos < buf.len() && is_digit(buf[pos]) {
        lemma_digit_end_bounds(buf, pos + 1);
    }
}

/// `scan_to` is the first occurrence of `q`: pinned down by the bytes before
/// it differing from `q` and (when in bounds) the byte there being `q`.
pub proof fn lemma_scan_to_pin(buf: Seq<u8>, pos: int, fin: int, q: u8)
    requires
        0 <= pos <= fin <= buf.len(),
        forall|i: int| pos <= i < fin ==> buf[i] != q,
        if fin < buf.len() {
            buf[fin] == q
        } else {
            true
        },
    ensures
        if fin < buf.len() {
            scan_to(buf, pos, q) == fin
        } else {
            scan_to(buf, pos, q) == buf.len()
        },
    decreases fin - pos,
{
    if pos < fin {
        lemma_scan_to_pin(buf, pos + 1, fin, q);
    }
}

/// Bounds and content around the first occurrence of `q`.
pub proof fn lemma_scan_to_bounds(buf: Seq<u8>, pos: int, q: u8)
    requires
        0 <= pos <= buf.len(),
    ensures
        pos <= scan_to(buf, pos, q) <= buf.len(),
        forall|i: int| pos <= i < scan_to(buf, pos, q) ==> buf[i] != q,
        scan_to(buf, pos, q) < buf.len() ==> buf[scan_to(buf, pos, q)] == q,
    decreases buf.len() - pos,
{
    if 0 <= pos < buf.len() && buf[pos] != q {
        lemma_scan_to_bounds(buf, pos + 1, q);
    }
}

// ---------------------------------------------------------------------------
// Template strings
// ---------------------------------------------------------------------------

/// State of the template-string scanner between two bytes.
pub enum TplState {
    /// Plain template text.
    Scan,
    /// A `$` was just consumed at `ibegin`; the next byte selects the
    /// interpolation form.
    Dollar { ibegin: int },
    /// Inside `$name`: `ibegin` is the position of the `$`.
    Var { ibegin: int },
    /// Inside `${...}`: `ibegin` is the position of the `$` and `depth`
    /// counts the braces opened and not yet closed.
    Blk { ibegin: int, depth: int },
}

/// Rank used by the termination measure of `template_rest`: leaving the
/// variable form re-reads the current byte in the `Scan` state.
pub open spec fn tpl_rank(st: TplState) -> int {
    match st {
        TplState::Scan => 0,
        TplState::Dollar { .. } => 1,
        TplState::Var { .. } => 1,
        TplState::Blk { .. } => 1,
    }
}

/// Remainder of a template-string scan from `pos`, with the opening backtick
/// already consumed at `begin` and the interpolations found so far in `acc`.
/// Yields the finished token and the scan position after it. A `$` followed
/// by neither a letter nor `{` collapses the whole token to the illegal
/// marker, as does a buffer that ends inside `$...`; a buffer that ends in
/// plain template text silently stops, and the unterminated token's span
/// then reaches the end of the buffer.
pub open spec fn template_rest(
    buf: Seq<u8>,
    pos: int,
    begin: int,
    st: TplState,
    acc: Seq<InterpModel>,
) -> (TokenModel, int)
    decreases buf.len() - pos, tpl_rank(st),
{
    match st {
        TplState::Scan => {
            if pos < 0 || pos >= buf.len() {
                (TokenModel::TEMPLATE { begin, end: buf.len() as int, interps: acc },
                    buf.len() as int)
            } else if buf[pos] == 0x60 {
                (TokenModel::TEMPLATE { begin, end: pos + 1, interps: acc }, pos + 1)
            } else if buf[pos] == 0x24 {
                template_rest(buf, pos + 1, begin, TplState::Dollar { ibegin: pos }, acc)
            } else {
                template_rest(buf, pos + 1, begin, TplState::Scan, acc)
            }
        }
        TplState::Dollar { ibegin } => {
            if pos < 0 || pos >= buf.len() {
                (TokenModel::ILLEGAL, buf.len() as int)
            } else if is_alpha(buf[pos]) {
                template_rest(buf, pos + 1, begin, TplState::Var { ibegin }, acc)
            } else if buf[pos] == 0x7b {
                template_rest(buf, pos + 1, begin, TplState::Blk { ibegin, depth: 1 }, acc)
            } else {
                (TokenModel::ILLEGAL, pos)
            }
        }
        TplState::Var { ibegin } => {
            if 0 <= pos < buf.len() && is_alnum(buf[pos]) {
                template_rest(buf, pos + 1, begin, TplState::Var { ibegin }, acc)
            } else {
                template_rest(buf, pos, begin, TplState::Scan,
                    acc.push(InterpModel::Variable { begin: ibegin, end: pos }))
            }
        }
        TplState::Blk { ibegin, depth } => {
            if pos < 0 || pos >= buf.len() {
                (TokenModel::ILLEGAL, buf.len() as int)
            } else if buf[pos] == 0x7d && depth == 1 {
                template_rest(buf, pos + 1, begin, TplState::Scan,
                    acc.push(InterpModel::Block { begin: ibegin, end: pos + 1 }))
            } else if buf[pos] == 0x7d {
                template_rest(buf, pos + 1, begin, TplState::Blk { ibegin, depth: depth - 1 },
                    acc)
            } else if buf[pos] == 0x7b {
                template_rest(buf, pos + 1, begin, TplState::Blk { ibegin, depth: depth + 1 },
                    acc)
            } else {
                template_rest(buf, pos + 1, begin, TplState::Blk { ibegin, depth }, acc)
            }
        }
    }
}

// ---------------------------------------------------------------------------
// The next raw token
// ---------------------------------------------------------------------------

/// Consuming one byte: the byte at `pos` and the position after it, or the
/// sentinel `0` with an unmoved position at the end of the buffer.
pub open spec fn spec_bump(buf: Seq<u8>, pos: int) -> (u8, int) {
    if 0 <= pos < buf.len() {
        (buf[pos], pos + 1)
    } else {
        (0u8, pos)
    }
}

/// A raw numeric token whose leading digit was consumed at `begin == pos - 1`:
/// the digit run is extended, then the byte after it selects the sub-kind
/// (`.` for float, `/` for rational, anything else leaves an integer) and,
/// for float and rational, a further digit run is consumed. The trailing run
/// may be empty; malformed trailing syntax is accepted structurally and only
/// fails during classification.
pub open spec fn spec_number(buf: Seq<u8>, begin: int, pos: int) -> (TokenModel, int) {
    let d = digit_end(buf, pos);
    if d < buf.len() && buf[d] == 0x2e {
        let e = digit_end(buf, d + 1);
        (TokenModel::NUMBER { begin, end: e, kind: Num::Float }, e)
    } else if d < buf.len() && buf[d] == 0x2f {
        let e = digit_end(buf, d + 1);
        (TokenModel::NUMBER { begin, end: e, kind: Num::Rat }, e)
    } else {
        (TokenModel::NUMBER { begin, end: d, kind: Num::Int }, d)
    }
}

/// Dispatch on the first significant byte `c`, already consumed, with the
/// scan position `pos` now just after it.
pub open spec fn spec_dispatch(buf: Seq<u8>, c: u8, pos: int) -> (TokenModel, int) {
    if c == 0 {
        (TokenModel::EOF, pos)
    } else if c == 0x3d {
        (TokenModel::ASSIGN, pos)
    } else if c == 0x2b {
        (TokenModel::PLUS, pos)
    } else if c == 0x28 {
        (TokenModel::LPAREN, pos)
    } else if c == 0x29 {
        (TokenModel::RPAREN, pos)
    } else if c == 0x7b {
        (TokenModel::LBRACE, pos)
    } else if c == 0x7d {
        (TokenModel::RBRACE, pos)
    } else if c == 0x2c {
        (TokenModel::COMMA, pos)
    } else if c == 0x3b {
        (TokenModel::SEMICOLON, pos)
    } else if c == 0x22 {
        (TokenModel::STRING { begin: pos - 1, end: until_end(buf, pos, 0x22) },
            until_end(buf, pos, 0x22))
    } else if c == 0x27 {
        (TokenModel::STRING { begin: pos - 1, end: until_end(buf, pos, 0x27) },
            until_end(buf, pos, 0x27))
    } else if c == 0x60 {
        template_rest(buf, pos, pos - 1, TplState::Scan, Seq::empty())
    } else if is_alpha(c) {
        (TokenModel::IDENT { begin: pos - 1, end: alnum_end(buf, pos) }, alnum_end(buf, pos))
    } else if is_digit(c) {
        spec_number(buf, pos - 1, pos)
    } else {
        (TokenModel::ILLEGAL, pos)
    }
}

/// The next raw token from `pos`: one byte is consumed; if it is whitespace,
/// the whitespace run is consumed and the next significant byte is read
/// before dispatching.
pub open spec fn spec_next_raw(buf: Seq<u8>, pos: int) -> (TokenModel, int) {
    let first = spec_bump(buf, pos);
    if is_ws(first.0) {
        let rest = spec_bump(buf, ws_end(buf, first.1));
        spec_dispatch(buf, rest.0, rest.1)
    } else {
        spec_dispatch(buf, first.0, first.1)
    }
}

// ---------------------------------------------------------------------------
// Classification: keywords and numeric values
// ---------------------------------------------------------------------------

/// Value of a digit string read in base ten.
pub open spec fn digits_val(s: Seq<u8>) -> int
    decreases s.len(),
{
    if s.len() == 0 {
        0
    } else {
        digits_val(s.drop_last()) * 10 + (s.last() as int - 0x30)
    }
}

/// What parsing a digit string as a signed 64-bit integer yields: the
/// value when the string is non-empty and the value fits, nothing otherwise.
/// The strings handled here come from the scanner and carry no sign.
pub open spec fn spec_parse_i64(s: Seq<u8>) -> Option<i64> {
    if s.len() > 0 && digits_val(s) <= i64::MAX {
        Some(digits_val(s) as i64)
    } else {
        None
    }
}

pub open spec fn kw_fn() -> Seq<u8> {
    seq![0x66, 0x6e]
}

pub open spec fn kw_let() -> Seq<u8> {
    seq![0x6c, 0x65, 0x74]
}

pub open spec fn kw_true() -> Seq<u8> {
    seq![0x74, 0x72, 0x75, 0x65]
}

pub open spec fn kw_false() -> Seq<u8> {
    seq![0x66, 0x61, 0x6c, 0x73, 0x65]
}

pub open spec fn kw_if() -> Seq<u8> {
    seq![0x69, 0x66]
}

pub open spec fn kw_else() -> Seq<u8> {
    seq![0x65, 0x6c, 0x73, 0x65]
}

pub open spec fn kw_return() -> Seq<u8> {
    seq![0x72, 0x65, 0x74, 0x75, 0x72, 0x6e]
}

/// The fixed, case-sensitive keyword table: the dedicated token for `w`, or
/// nothing when `w` is not a keyword.
pub open spec fn spec_keyword(w: Seq<u8>) -> Option<TokenModel> {
    if w == kw_fn() {
        Some(TokenModel::FUNCTION)
    } else if w == kw_let() {
        Some(TokenModel::LET)
    } else if w == kw_true() {
        Some(TokenModel::TRUE)
    } else if w == kw_false() {
        Some(TokenModel::FALSE)
    } else if w == kw_if() {
        Some(TokenModel::IF)
    } else if w == kw_else() {
        Some(TokenModel::ELSE)
    } else if w == kw_return() {
        Some(TokenModel::RETURN)
    } else {
        None
    }
}

/// Classification of a raw token. An identifier span is resolved against the
/// keyword table; a numeric span is parsed per its sub-kind, any parse
/// failure yielding the illegal marker; every other token passes through
/// unchanged.
pub open spec fn spec_classify(buf: Seq<u8>, t: TokenModel) -> TokenModel {
    match t {
        TokenModel::IDENT { begin, end } => {
            match spec_keyword(buf.subrange(begin, end)) {
                Some(k) => k,
                None => t,
            }
        }
        TokenModel::NUMBER { begin, end, kind } => {
            match kind {
                Num::Int => {
                    match spec_parse_i64(buf.subrange(begin, end)) {
                        Some(v) => TokenModel::INTEGER(v),
                        None => TokenModel::ILLEGAL,
                    }
                }
                Num::Float => TokenModel::FLOAT { begin, end },
                Num::Rat => {
                    let s = scan_to(buf, begin, 0x2f);
                    if s >= end {
                        TokenModel::ILLEGAL
                    } else {
                        match (spec_parse_i64(buf.subrange(begin, s)),
                            spec_parse_i64(buf.subrange(s + 1, end))) {
                            (Some(num), Some(denom)) => TokenModel::RATIONAL { num, denom },
                            _ => TokenModel::ILLEGAL,
                        }
                    }
                }
            }
        }
        _ => t,
    }
}

/// The next classified token from `pos`, and the scan position after it.
pub open spec fn spec_next_token(buf: Seq<u8>, pos: int) -> (TokenModel, int) {
    let raw = spec_next_raw(buf, pos);
    (spec_classify(buf, raw.0), raw.1)
}

/// Every span the token carries lies between the scan positions before and
/// after the call that produced it, with `begin <= end`.
pub open spec fn token_in_window(t: TokenModel, lo: int, hi: int) -> bool {
    match t {
        TokenModel::IDENT { begin, end } => lo <= begin <= end <= hi,
        TokenModel::STRING { begin, end } => lo <= begin <= end <= hi,
        TokenModel::TEMPLATE { begin, end, interps } => lo <= begin <= end <= hi,
        TokenModel::NUMBER { begin, end, kind } => lo <= begin <= end <= hi,
        TokenModel::FLOAT { begin, end } => lo <= begin <= end <= hi,
        _ => true,
    }
}

// ---------------------------------------------------------------------------
// Bounds: spans sit inside the consumed window and the cursor never rewinds
// ---------------------------------------------------------------------------

/// A template scan only moves forward, ends inside the buffer, and yields a
/// template token whose span ends exactly at the final scan position, or the
/// illegal marker.
pub proof fn lemma_template_bounds(
    buf: Seq<u8>,
    pos: int,
    begin: int,
    st: TplState,
    acc: Seq<InterpModel>,
)
    requires
        0 <= pos <= buf.len(),
    ensures
        pos <= template_rest(buf, pos, begin, st, acc).1 <= buf.len(),
        template_rest(buf, pos, begin, st, acc).0 matches TokenModel::TEMPLATE {
            begin: b,
            end: e,
            interps,
        } ==> b == begin && e == template_rest(buf, pos, begin, st, acc).1,
        template_rest(buf, pos, begin, st, acc).0 is TEMPLATE || template_rest(
            buf,
            pos,
            begin,
            st,
            acc,
        ).0 is ILLEGAL,
    decreases buf.len() - pos, tpl_rank(st),
{
    match st {
        TplState::Scan => {
            if pos < buf.len() && buf[pos] == 0x24 {
                lemma_template_bounds(buf, pos + 1, begin, TplState::Dollar { ibegin: pos }, acc);
            } else if pos < buf.len() && buf[pos] != 0x60 {
                lemma_template_bounds(buf, pos + 1, begin, TplState::Scan, acc);
            }
        }
        TplState::Dollar { ibegin } => {
            if pos < buf.len() && is_alpha(buf[pos]) {
                lemma_template_bounds(buf, pos + 1, begin, TplState::Var { ibegin }, acc);
            } else if pos < buf.len() && buf[pos] == 0x7b {
                lemma_template_bounds(buf, pos + 1, begin, TplState::Blk { ibegin, depth: 1 },
                    acc);
            }
        }
        TplState::Var { ibegin } => {
            if pos < buf.len() && is_alnum(buf[pos]) {
                lemma_template_bounds(buf, pos + 1, begin, TplState::Var { ibegin }, acc);
            } else {
                lemma_template_bounds(buf, pos, begin, TplState::Scan,
                    acc.push(InterpModel::Variable { begin: ibegin, end: pos }));
            }
        }
        TplState::Blk { ibegin, depth } => {
            if pos < buf.len() {
                if buf[pos] == 0x7d && depth == 1 {
                    lemma_template_bounds(buf, pos + 1, begin, TplState::Scan,
                        acc.push(InterpModel::Block { begin: ibegin, end: pos + 1 }));
                } else if buf[pos] == 0x7d {
                    lemma_template_bounds(buf, pos + 1, begin,
                        TplState::Blk { ibegin, depth: depth - 1 }, acc);
                } else if buf[pos] == 0x7b {
                    lemma_template_bounds(buf, pos + 1, begin,
                        TplState::Blk { ibegin, depth: depth + 1 }, acc);
                } else {
                    lemma_template_bounds(buf, pos + 1, begin, TplState::Blk { ibegin, depth },
                        acc);
                }
            }
        }
    }
}

/// Dispatching on a consumed byte `c` (at `p - 1` unless `c` is the
/// sentinel) only moves forward, and the token's spans sit between the
/// position of `c` and the final scan position.
pub proof fn lemma_dispatch_bounds(buf: Seq<u8>, c: u8, p: int)
    requires
        0 <= p <= buf.len(),
        c != 0 ==> p >= 1,
    ensures
        p <= spec_dispatch(buf, c, p).1 <= buf.len(),
        c == 0 ==> spec_dispatch(buf, c, p).0 is EOF && spec_dispatch(buf, c, p).1 == p,
        c != 0 ==> token_in_window(spec_dispatch(buf, c, p).0, p - 1, spec_dispatch(buf, c, p).1),
        c != 0 ==> !(spec_dispatch(buf, c, p).0 is EOF),
{
    if c == 0x22 {
        lemma_scan_to_bounds(buf, p, 0x22);
    } else if c == 0x27 {
        lemma_scan_to_bounds(buf, p, 0x27);
    } else if c == 0x60 {
        lemma_template_bounds(buf, p, p - 1, TplState::Scan, Seq::empty());
    } else if is_alpha(c) {
        lemma_alnum_end_bounds(buf, p);
    } else if is_digit(c) {
        lemma_digit_end_bounds(buf, p);
        let d = digit_end(buf, p);
        if d < buf.len() && (buf[d] == 0x2e || buf[d] == 0x2f) {
            lemma_digit_end_bounds(buf, d + 1);
        }
    }
}

/// The raw scan never rewinds, every token's spans sit inside the window of
/// positions the call consumed, and every token but end-of-input consumes at
/// least one byte.
pub proof fn lemma_next_raw_bounds(buf: Seq<u8>, pos: int)
    requires
        0 <= pos <= buf.len(),
    ensures
        pos <= spec_next_raw(buf, pos).1 <= buf.len(),
        token_in_window(spec_next_raw(buf, pos).0, pos, spec_next_raw(buf, pos).1),
        !(spec_next_raw(buf, pos).0 is EOF) ==> spec_next_raw(buf, pos).1 > pos,
{
    let first = spec_bump(buf, pos);
    if is_ws(first.0) {
        lemma_ws_end_bounds(buf, first.1);
        let rest = spec_bump(buf, ws_end(buf, first.1));
        lemma_dispatch_bounds(buf, rest.0, rest.1);
    } else {
        lemma_dispatch_bounds(buf, first.0, first.1);
    }
}

/// As `lemma_next_raw_bounds`, for the classified token: classification
/// keeps spans, does not move the scan position, and maps end-of-input to
/// itself and nothing else to it.
pub proof fn lemma_next_token_bounds(buf: Seq<u8>, pos: int)
    requires
        0 <= pos <= buf.len(),
    ensures
        pos <= spec_next_token(buf, pos).1 <= buf.len(),
        token_in_window(spec_next_token(buf, pos).0, pos, spec_next_token(buf, pos).1),
        !(spec_next_token(buf, pos).0 is EOF) ==> spec_next_token(buf, pos).1 > pos,
{
    lemma_next_raw_bounds(buf, pos);
}

// ---------------------------------------------------------------------------
// Round trip: spans reproduce the matched lexical item
// ---------------------------------------------------------------------------

/// Start of an interpolation span.
pub open spec fn interp_begin(ip: InterpModel) -> int {
    match ip {
        InterpModel::Variable { begin, end } => begin,
        InterpModel::Block { begin, end } => begin,
    }
}

/// End of an interpolation span.
pub open spec fn interp_end(ip: InterpModel) -> int {
    match ip {
        InterpModel::Variable { begin, end } => end,
        InterpModel::Block { begin, end } => end,
    }
}

/// An interpolation span covers exactly its marker in `buf`: `$` and then a
/// maximal `name` run for the variable form; `$`, `{`, and a final `}` for
/// the block form.
pub open spec fn interp_wf(buf: Seq<u8>, ip: InterpModel) -> bool {
    match ip {
        InterpModel::Variable { begin, end } => {
            &&& 0 <= begin
            &&& begin + 2 <= end <= buf.len()
            &&& buf[begin] == 0x24
            &&& is_alpha(buf[begin + 1])
            &&& forall|i: int| begin + 1 <= i < end ==> is_alnum(buf[i])
            &&& end < buf.len() ==> !is_alnum(buf[end])
        }
        InterpModel::Block { begin, end } => {
            &&& 0 <= begin
            &&& begin + 3 <= end <= buf.len()
            &&& buf[begin] == 0x24
            &&& buf[begin + 1] == 0x7b
            &&& buf[end - 1] == 0x7d
        }
    }
}

/// The interpolations of a finished template token are the accumulated ones
/// followed by those of the remaining text: each covers its marker, sits
/// strictly inside the token, and they appear in left-to-right order
/// without overlap.
proof fn lemma_template_shape(
    buf: Seq<u8>,
    pos: int,
    begin: int,
    st: TplState,
    acc: Seq<InterpModel>,
)
    requires
        0 <= pos <= buf.len(),
        0 <= begin < pos,
        buf[begin] == 0x60,
        forall|k: int|
            0 <= k < acc.len() ==> interp_wf(buf, #[trigger] acc[k]) && begin < interp_begin(
                acc[k],
            ) && interp_end(acc[k]) <= pos,
        forall|k: int, j: int|
            0 <= k < j < acc.len() ==> interp_end(#[trigger] acc[k]) <= interp_begin(
                #[trigger] acc[j],
            ),
        match st {
            TplState::Scan => true,
            TplState::Dollar { ibegin } => {
                &&& ibegin == pos - 1
                &&& begin < ibegin
                &&& buf[ibegin] == 0x24
                &&& forall|k: int| 0 <= k < acc.len() ==> interp_end(#[trigger] acc[k]) <= ibegin
            }
            TplState::Var { ibegin } => {
                &&& begin < ibegin
                &&& ibegin + 2 <= pos
                &&& buf[ibegin] == 0x24
                &&& is_alpha(buf[ibegin + 1])
                &&& (forall|i: int| ibegin + 1 <= i < pos ==> is_alnum(buf[i]))
                &&& forall|k: int| 0 <= k < acc.len() ==> interp_end(#[trigger] acc[k]) <= ibegin
            }
            TplState::Blk { ibegin, depth } => {
                &&& begin < ibegin
                &&& ibegin + 2 <= pos
                &&& buf[ibegin] == 0x24
                &&& buf[ibegin + 1] == 0x7b
                &&& forall|k: int| 0 <= k < acc.len() ==> interp_end(#[trigger] acc[k]) <= ibegin
            }
        },
    ensures
        template_rest(buf, pos, begin, st, acc).0 matches TokenModel::TEMPLATE {
            begin: b2,
            end: e2,
            interps: ints,
        } ==> {
            &&& b2 == begin
            &&& begin < e2 <= buf.len()
            &&& e2 == buf.len() || buf[e2 - 1] == 0x60
            &&& forall|k: int|
                0 <= k < ints.len() ==> interp_wf(buf, #[trigger] ints[k]) && begin < interp_begin(
                    ints[k],
                ) && interp_end(ints[k]) <= e2
            &&& forall|k: int, j: int|
                0 <= k < j < ints.len() ==> interp_end(#[trigger] ints[k]) <= interp_begin(
                    #[trigger] ints[j],
                )
        },
    decreases buf.len() - pos, tpl_rank(st),
{
    match st {
        TplState::Scan => {
            if pos < buf.len() && buf[pos] == 0x24 {
                lemma_template_shape(buf, pos + 1, begin, TplState::Dollar { ibegin: pos }, acc);
            } else if pos < buf.len() && buf[pos] != 0x60 {
                lemma_template_shape(buf, pos + 1, begin, TplState::Scan, acc);
            }
        }
        TplState::Dollar { ibegin } => {
            if pos < buf.len() && is_alpha(buf[pos]) {
                lemma_template_shape(buf, pos + 1, begin, TplState::Var { ibegin }, acc);
            } else if pos < buf.len() && buf[pos] == 0x7b {
                lemma_template_shape(buf, pos + 1, begin, TplState::Blk { ibegin, depth: 1 },
                    acc);
            }
        }
        TplState::Var { ibegin } => {
            if pos < buf.len() && is_alnum(buf[pos]) {
                lemma_template_shape(buf, pos + 1, begin, TplState::Var { ibegin }, acc);
            } else {
                let pushed = acc.push(InterpModel::Variable { begin: ibegin, end: pos });
                assert(interp_wf(buf, InterpModel::Variable { begin: ibegin, end: pos }));
                lemma_template_shape(buf, pos, begin, TplState::Scan, pushed);
            }
        }
        TplState::Blk { ibegin, depth } => {
            if pos < buf.len() {
                if buf[pos] == 0x7d && depth == 1 {
                    let pushed = acc.push(InterpModel::Block { begin: ibegin, end: pos + 1 });
                    assert(interp_wf(buf, InterpModel::Block { begin: ibegin, end: pos + 1 }));
                    lemma_template_shape(buf, pos + 1, begin, TplState::Scan, pushed);
                } else if buf[pos] == 0x7d {
                    lemma_template_shape(buf, pos + 1, begin,
                        TplState::Blk { ibegin, depth: depth - 1 }, acc);
                } else if buf[pos] == 0x7b {
                    lemma_template_shape(buf, pos + 1, begin,
                        TplState::Blk { ibegin, depth: depth + 1 }, acc);
                } else {
                    lemma_template_shape(buf, pos + 1, begin, TplState::Blk { ibegin, depth },
                        acc);
                }
            }
        }
    }
}

/// As `lemma_template_shape`, from the dispatch byte.
proof fn lemma_dispatch_round_trip(buf: Seq<u8>, c: u8, p: int)
    requires
        0 <= p <= buf.len(),
        c != 0 ==> p >= 1 && buf[p - 1] == c,
    ensures
        spec_dispatch(buf, c, p).0 matches TokenModel::IDENT { begin, end } ==> {
            &&& 0 <= begin < end <= buf.len()
            &&& is_alpha(buf[begin])
            &&& (forall|i: int| begin <= i < end ==> is_alnum(buf[i]))
            &&& end < buf.len() ==> !is_alnum(buf[end])
        },
        spec_dispatch(buf, c, p).0 matches TokenModel::STRING { begin, end } ==> {
            let q = buf[begin];
            &&& 0 <= begin < end <= buf.len()
            &&& (q == 0x22 || q == 0x27)
            &&& if end < buf.len() || (end >= begin + 2 && buf[end - 1] == q) {
                end >= begin + 2 && buf[end - 1] == q && forall|i: int|
                    begin < i < end - 1 ==> buf[i] != q
            } else {
                end == buf.len() && forall|i: int| begin < i < end ==> buf[i] != q
            }
        },
        spec_dispatch(buf, c, p).0 matches TokenModel::TEMPLATE {
            begin,
            end,
            interps: ints,
        } ==> {
            &&& 0 <= begin < end <= buf.len()
            &&& buf[begin] == 0x60
            &&& end == buf.len() || buf[end - 1] == 0x60
            &&& forall|k: int|
                0 <= k < ints.len() ==> interp_wf(buf, #[trigger] ints[k]) && begin < interp_begin(
                    ints[k],
                ) && interp_end(ints[k]) <= end
            &&& forall|k: int, j: int|
                0 <= k < j < ints.len() ==> interp_end(#[trigger] ints[k]) <= interp_begin(
                    #[trigger] ints[j],
                )
        },
{
    if c == 0x22 || c == 0x27 {
        lemma_scan_to_bounds(buf, p, c);
    } else if c == 0x60 {
        lemma_template_bounds(buf, p, p - 1, TplState::Scan, Seq::empty());
        lemma_template_shape(buf, p, p - 1, TplState::Scan, Seq::empty());
    } else if is_alpha(c) {
        lemma_alnum_end_bounds(buf, p);
    }
}

/// Round trip: the source slice `[begin, end)` of an identifier, string, or
/// template-string token reproduces exactly the matched lexical item,
/// delimiters included. An identifier span is a maximal alphanumeric run
/// opened by a letter; a string span is opened by its quote, closed by the
/// first repetition of it (or by the buffer's end), and holds no earlier
/// one; a template span is opened by a backtick and closed by one unless
/// the buffer ran out, and its interpolations cover exactly their markers,
/// inside the token, in left-to-right order, without overlap.
pub proof fn lemma_round_trip(buf: Seq<u8>, pos: int)
    requires
        0 <= pos <= buf.len(),
    ensures
        spec_next_raw(buf, pos).0 matches TokenModel::IDENT { begin, end } ==> {
            &&& 0 <= begin < end <= buf.len()
            &&& is_alpha(buf[begin])
            &&& (forall|i: int| begin <= i < end ==> is_alnum(buf[i]))
            &&& end < buf.len() ==> !is_alnum(buf[end])
        },
        spec_next_raw(buf, pos).0 matches TokenModel::STRING { begin, end } ==> {
            let q = buf[begin];
            &&& 0 <= begin < end <= buf.len()
            &&& (q == 0x22 || q == 0x27)
            &&& if end < buf.len() || (end >= begin + 2 && buf[end - 1] == q) {
                end >= begin + 2 && buf[end - 1] == q && forall|i: int|
                    begin < i < end - 1 ==> buf[i] != q
            } else {
                end == buf.len() && forall|i: int| begin < i < end ==> buf[i] != q
            }
        },
        spec_next_raw(buf, pos).0 matches TokenModel::TEMPLATE {
            begin,
            end,
            interps: ints,
        } ==> {
            &&& 0 <= begin < end <= buf.len()
            &&& buf[begin] == 0x60
            &&& end == buf.len() || buf[end - 1] == 0x60
            &&& forall|k: int|
                0 <= k < ints.len() ==> interp_wf(buf, #[trigger] ints[k]) && begin < interp_begin(
                    ints[k],
                ) && interp_end(ints[k]) <= end
            &&& forall|k: int, j: int|
                0 <= k < j < ints.len() ==> interp_end(#[trigger] ints[k]) <= interp_begin(
                    #[trigger] ints[j],
                )
        },
{
    let first = spec_bump(buf, pos);
    if is_ws(first.0) {
        lemma_ws_end_bounds(buf, first.1);
        let rest = spec_bump(buf, ws_end(buf, first.1));
        lemma_dispatch_round_trip(buf, rest.0, rest.1);
    } else {
        lemma_dispatch_round_trip(buf, first.0, first.1);
    }
}

/// A digit string's value is non-negative.
pub proof fn lemma_digits_val_nonneg(s: Seq<u8>)
    requires
        forall|i: int| 0 <= i < s.len() ==> is_digit(s[i]),
    ensures
        digits_val(s) >= 0,
    decreases s.len(),
{
    if s.len() > 0 {
        lemma_digits_val_nonneg(s.drop_last());
    }
}

/// Extending a digit string on the right never decreases its value.
pub proof fn lemma_digits_val_extend(s: Seq<u8>, k: int)
    requires
        0 <= k <= s.len(),
        forall|i: int| 0 <= i < s.len() ==> is_digit(s[i]),
    ensures
        digits_val(s) >= digits_val(s.take(k)),
    decreases s.len() - k,
{
    if k < s.len() {
        assert forall|i: int| 0 <= i < s.take(k).len() implies is_digit(s.take(k)[i]) by {
            assert(s.take(k)[i] == s[i]);
        }
        lemma_digits_val_nonneg(s.take(k));
        assert(s.take(k + 1).drop_last() =~= s.take(k));
        assert(digits_val(s.take(k + 1)) == digits_val(s.take(k)) * 10 + (s[k] as int - 0x30));
        lemma_digits_val_extend(s, k + 1);
    } else {
        assert(s.take(k) =~= s);
    }
}

/// Shape of a raw numeric token: where its digit runs and its delimiter
/// stand in the buffer. This is what lets the classification layer parse
/// the span it is handed.
proof fn lemma_dispatch_number_shape(buf: Seq<u8>, c: u8, p: int)
    requires
        0 <= p <= buf.len(),
        c != 0 ==> p >= 1 && buf[p - 1] == c,
    ensures
        spec_dispatch(buf, c, p).0 matches TokenModel::NUMBER { begin, end, kind } ==> {
            let d = digit_end(buf, begin + 1);
            &&& begin == p - 1
            &&& is_digit(buf[begin])
            &&& begin + 1 <= d <= buf.len()
            &&& (forall|i: int| begin <= i < d ==> is_digit(buf[i]))
            &&& match kind {
                Num::Int => end == d,
                Num::Float => d < buf.len() && buf[d] == 0x2e && end == digit_end(buf, d + 1)
                    && d + 1 <= end && (forall|i: int| d + 1 <= i < end ==> is_digit(buf[i])),
                Num::Rat => d < buf.len() && buf[d] == 0x2f && end == digit_end(buf, d + 1)
                    && scan_to(buf, begin, 0x2f) == d && d + 1 <= end && (forall|i: int|
                    d + 1 <= i < end ==> is_digit(buf[i])),
            }
        },
{
    if c == 0x60 {
        lemma_template_bounds(buf, p, p - 1, TplState::Scan, Seq::empty());
    } else if is_digit(c) {
        lemma_digit_end_bounds(buf, p);
        let d = digit_end(buf, p);
        if d < buf.len() && (buf[d] == 0x2e || buf[d] == 0x2f) {
            lemma_digit_end_bounds(buf, d + 1);
            if buf[d] == 0x2f {
                lemma_scan_to_pin(buf, p - 1, d, 0x2f);
            }
        }
    }
}

/// As `lemma_dispatch_number_shape`, for the next raw token of a scan
/// position.
pub proof fn lemma_number_shape(buf: Seq<u8>, pos: int)
    requires
        0 <= pos <= buf.len(),
    ensures
        spec_next_raw(buf, pos).0 matches TokenModel::NUMBER { begin, end, kind } ==> {
            let d = digit_end(buf, begin + 1);
            &&& 0 <= begin < buf.len()
            &&& is_digit(buf[begin])
            &&& begin + 1 <= d <= buf.len()
            &&& (forall|i: int| begin <= i < d ==> is_digit(buf[i]))
            &&& match kind {
                Num::Int => end == d,
                Num::Float => d < buf.len() && buf[d] == 0x2e && end == digit_end(buf, d + 1)
                    && d + 1 <= end && (forall|i: int| d + 1 <= i < end ==> is_digit(buf[i])),
                Num::Rat => d < buf.len() && buf[d] == 0x2f && end == digit_end(buf, d + 1)
                    && scan_to(buf, begin, 0x2f) == d && d + 1 <= end && (forall|i: int|
                    d + 1 <= i < end ==> is_digit(buf[i])),
            }
        },
{
    let first = spec_bump(buf, pos);
    if is_ws(first.0) {
        lemma_ws_end_bounds(buf, first.1);
        let rest = spec_bump(buf, ws_end(buf, first.1));
        lemma_dispatch_number_shape(buf, rest.0, rest.1);
    } else {
        lemma_dispatch_number_shape(buf, first.0, first.1);
    }
}

// ---------------------------------------------------------------------------
// The token stream of a whole buffer
// ---------------------------------------------------------------------------

/// All classified tokens of `buf` from `pos` on, ending with the
/// end-of-input token. A deterministic function of the buffer alone.
pub open spec fn spec_token_stream(buf: Seq<u8>, pos: int) -> Seq<TokenModel>
    decreases buf.len() - pos,
{
    if 0 <= pos <= buf.len() {
        let r = spec_next_token(buf, pos);
        if r.0 is EOF {
            seq![r.0]
        } else {
            proof {
                lemma_next_token_bounds(buf, pos);
            }
            seq![r.0] + spec_token_stream(buf, r.1)
        }
    } else {
        Seq::empty()
    }
}

/// Idempotence of classification: re-lexing the same buffer from scratch
/// yields an identical token sequence, because the stream is a function of
/// the buffer alone and each call's outcome is pinned to it.
pub proof fn lemma_relex_idempotent(buf1: Seq<u8>, buf2: Seq<u8>)
    requires
        buf1 == buf2,
    ensures
        spec_token_stream(buf1, 0) == spec_token_stream(buf2, 0),
{
}

} // verus!
