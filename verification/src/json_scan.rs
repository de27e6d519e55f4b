//! The lexical layer of the options parser: a JSON reader that also skips
//! `//` and `/* */` comments and takes bare identifiers as member names.
//! Positions are byte offsets; errors carry the offset they point at (and
//! a second offset with details), which `line_column_at` turns into a line
//! and a column.
use vstd::prelude::*;

verus! {

/// What went wrong while reading the options.
#[derive(Clone, Copy, Debug, PartialEq, Eq, Structural)]
pub enum ParseMessage {
    MissingMemberName,
    UnexpectedToken,
    InvalidNumber,
    InvalidLiteral,
    ExtraData,
    ValueExpected,
    MissingColon,
    MissingCommaOrBrace,
    BadEscape,
    BadUnicodeEscape,
    BadSurrogatePair,
    NotANumber,
}

/// A parse error: the message, the offset it points at and, for escape
/// errors, the offset of the detail.
#[derive(Clone, Copy, Debug, PartialEq, Eq, Structural)]
pub struct ParseError {
    pub message: ParseMessage,
    pub pos: usize,
    pub detail: Option<usize>,
}

/// A reader over `bytes`, at offset `pos`.
pub struct Parser<'a> {
    pub bytes: &'a [u8],
    pub pos: usize,
}

/// Whether `c` is skipped as white space.
pub open spec fn is_space(c: u8) -> bool {
    c == 0x20 || c == 0x0A || c == 0x0D || c == 0x09
}

/// The end of the run of white space at `p`.
pub open spec fn space_end(b: Seq<u8>, p: int) -> int
    decreases b.len() - p,
{
    if 0 <= p < b.len() && is_space(b[p]) { space_end(b, p + 1) } else { p }
}

/// The first line break (or the end) from `p` on.
pub open spec fn line_end(b: Seq<u8>, p: int) -> int
    decreases b.len() - p,
{
    if 0 <= p < b.len() && b[p] != 0x0A && b[p] != 0x0D { line_end(b, p + 1) } else { p }
}

/// Whether the two bytes at `p` are `x` and `y`.
pub open spec fn pair_at(b: Seq<u8>, p: int, x: u8, y: u8) -> bool {
    0 <= p && p + 2 <= b.len() && b[p] == x && b[p + 1] == y
}

/// The start of the first `*/` from `p` on, if there is one.
pub open spec fn block_end(b: Seq<u8>, p: int) -> Option<int>
    decreases b.len() - p,
{
    if p < 0 || p >= b.len() {
        None
    } else if pair_at(b, p, 0x2A, 0x2F) {
        Some(p)
    } else {
        block_end(b, p + 1)
    }
}

/// The end of the white space and comments at `p`: a `//` comment runs to
/// the end of its line, a `/* */` comment to its closing `*/` (or, left
/// open, to the end of the input).
pub open spec fn ws_end(b: Seq<u8>, p: int) -> int
    decreases b.len() - p, 1int,
{
    let q = space_end(b, p);
    if p < 0 || p > b.len() {
        p
    } else if pair_at(b, q, 0x2F, 0x2F) {
        proof {
            lemma_space_end_bounds(b, p);
            lemma_line_end_bounds(b, q + 2);
        }
        ws_end(b, line_end(b, q + 2))
    } else if pair_at(b, q, 0x2F, 0x2A) {
        proof {
            lemma_space_end_bounds(b, p);
            lemma_block_end_bounds(b, q + 2);
        }
        match block_end(b, q + 2) {
            Some(e) => ws_end(b, e + 2),
            None => b.len() as int,
        }
    } else {
        q
    }
}

/// The end of the run of decimal digits at `p`.
pub open spec fn digits_end(b: Seq<u8>, p: int) -> int
    decreases b.len() - p,
{
    if 0 <= p < b.len() && 0x30 <= b[p] <= 0x39 { digits_end(b, p + 1) } else { p }
}

/// Whether `c` may continue an identifier.
pub open spec fn is_ident(c: u8) -> bool {
    (0x61 <= c <= 0x7A) || (0x41 <= c <= 0x5A) || (0x30 <= c <= 0x39) || c == 0x5F
}

/// The end of the identifier characters at `p`.
pub open spec fn ident_end(b: Seq<u8>, p: int) -> int
    decreases b.len() - p,
{
    if 0 <= p < b.len() && is_ident(b[p]) { ident_end(b, p + 1) } else { p }
}

/// The value of hexadecimal digit `c`, if it is one.
pub open spec fn hex_value(c: u8) -> Option<u32> {
    if 0x30 <= c <= 0x39 {
        Some((c - 0x30) as u32)
    } else if 0x61 <= c <= 0x66 {
        Some((c - 0x61 + 10) as u32)
    } else if 0x41 <= c <= 0x46 {
        Some((c - 0x41 + 10) as u32)
    } else {
        None
    }
}

/// The value of the first `n` hexadecimal digits at `p`, with the offset
/// of the first byte that is not one (or the end) when they are not all
/// there.
pub open spec fn hex_run(b: Seq<u8>, p: int, n: nat) -> Result<u32, int>
    decreases n,
{
    if n == 0 {
        Ok(0u32)
    } else {
        match hex_run(b, p, (n - 1) as nat) {
            Err(e) => Err(e),
            Ok(v) => {
                let i = p + n - 1;
                if 0 <= i < b.len() && hex_value(b[i]) is Some {
                    Ok((v * 16 + hex_value(b[i])->0) as u32)
                } else {
                    Err(if 0 <= i < b.len() { i + 1 } else { i })
                }
            },
        }
    }
}

/// The bound on the value of `n <= 4` hexadecimal digits.
pub open spec fn hex_cap(n: int) -> int {
    if n <= 0 { 1 } else if n == 1 { 16 } else if n == 2 { 256 } else if n == 3 { 4096 } else { 65536 }
}

/// Line and start of line after scanning `b` from `i` up to `stop`, from
/// `line` and `start`: each `\n`, `\r` or `\r\n` ends a line.
pub open spec fn line_scan(b: Seq<u8>, stop: int, i: int, line: int, start: int) -> (int, int)
    decreases b.len() - i,
{
    if i >= stop || i < 0 || i >= b.len() {
        (line, start)
    } else if b[i] == 0x0A {
        line_scan(b, stop, i + 1, line + 1, i + 1)
    } else if b[i] == 0x0D {
        if i + 1 < b.len() && b[i + 1] == 0x0A {
            line_scan(b, stop, i + 2, line + 1, i + 2)
        } else {
            line_scan(b, stop, i + 1, line + 1, i + 1)
        }
    } else {
        line_scan(b, stop, i + 1, line, start)
    }
}

/// The offset where the line and column of `pos` are counted up to.
pub open spec fn scan_stop(b: Seq<u8>, pos: int) -> int {
    if pos < b.len() { pos } else { b.len() as int }
}

/// Line and column (both from 1) of offset `pos`.
pub open spec fn line_column_spec(b: Seq<u8>, pos: int) -> (int, int) {
    let stop = scan_stop(b, pos);
    let (line, start) = line_scan(b, stop, 0, 1, 0);
    (line, stop - start + 1)
}

/// Whether `c` may continue an identifier.
fn is_ident_byte(c: u8) -> (r: bool)
    ensures
        r == is_ident(c),
{
    (0x61 <= c && c <= 0x7A) || (0x41 <= c && c <= 0x5A) || (0x30 <= c && c <= 0x39) || c == 0x5F
}


/// A number as the reader finds it: a lone `-` (read as zero), or the span
/// of its text (a leading-dot number such as `-.5` is read as `-0.5`).
#[derive(Clone, Copy, Debug, PartialEq, Eq, Structural)]
pub enum NumberScan {
    Zero,
    Span { start: usize, end: usize, leading_dot: bool },
}

/// Whether `c` is a decimal digit.
pub open spec fn is_digit(c: u8) -> bool {
    0x30 <= c <= 0x39
}

/// The byte at `p`, if any.
pub open spec fn byte_at(b: Seq<u8>, p: int) -> Option<u8> {
    if 0 <= p < b.len() { Some(b[p]) } else { None }
}

/// The end of a number after its integer part (ending at `q`): a fraction
/// (unless the number started with a dot) and an exponent.
pub open spec fn number_tail(b: Seq<u8>, start: int, q: int, leading_dot: bool) -> (Result<NumberScan, ParseError>, int) {
    let q1 = if !leading_dot && byte_at(b, q) == Some(0x2Eu8) { digits_end(b, q + 1) } else { q };
    if byte_at(b, q1) == Some(0x65u8) || byte_at(b, q1) == Some(0x45u8) {
        let q2 = q1 + 1;
        let q3 = if byte_at(b, q2) == Some(0x2Bu8) || byte_at(b, q2) == Some(0x2Du8) { q2 + 1 } else { q2 };
        let q4 = digits_end(b, q3);
        if q4 == q3 {
            (Err(ParseError { message: ParseMessage::NotANumber, pos: start as usize, detail: Some(q4 as usize) }), q4)
        } else {
            (Ok(NumberScan::Span { start: start as usize, end: q4 as usize, leading_dot }), q4)
        }
    } else {
        (Ok(NumberScan::Span { start: start as usize, end: q1 as usize, leading_dot }), q1)
    }
}

/// The number at `p` and the offset after it. A bad number's error points
/// at its start, with its detail at the end of its text.
pub open spec fn number_spec(b: Seq<u8>, p: int) -> (Result<NumberScan, ParseError>, int) {
    let neg = byte_at(b, p) == Some(0x2Du8);
    let p1 = if neg { p + 1 } else { p };
    if byte_at(b, p1) matches Some(c) && is_digit(c) {
        number_tail(b, p, digits_end(b, p1 + 1), false)
    } else if neg && byte_at(b, p1) == Some(0x2Eu8) {
        let p2 = digits_end(b, p1 + 1);
        if p2 == p1 + 1 {
            (Err(ParseError { message: ParseMessage::NotANumber, pos: p as usize, detail: Some(p2 as usize) }), p2)
        } else {
            number_tail(b, p, p2, true)
        }
    } else if neg {
        (Ok(NumberScan::Zero), p1)
    } else {
        (Err(ParseError { message: ParseMessage::InvalidNumber, pos: p1 as usize, detail: None }), p1)
    }
}

/// The code point a surrogate pair stands for.
pub open spec fn pair_code(high: int, low: int) -> int {
    0x10000 + (high - 0xd800) * 1024 + (low - 0xdc00)
}

/// The code point of the escape whose letter is at `p` (a `\u` escape
/// decoded, a lone low surrogate as U+FFFD), with the offset after it.
pub open spec fn escape_spec(b: Seq<u8>, p: int, start: int) -> Result<(u32, int), ParseError> {
    let bad = ParseError { message: ParseMessage::BadEscape, pos: start as usize, detail: Some((if 0 <= p < b.len() { p + 1 } else { p }) as usize) };
    match byte_at(b, p) {
        Some(c) => {
            if c == 0x22 { Ok((0x22u32, p + 1)) }
            else if c == 0x5C { Ok((0x5Cu32, p + 1)) }
            else if c == 0x2F { Ok((0x2Fu32, p + 1)) }
            else if c == 0x62 { Ok((0x08u32, p + 1)) }
            else if c == 0x66 { Ok((0x0Cu32, p + 1)) }
            else if c == 0x6E { Ok((0x0Au32, p + 1)) }
            else if c == 0x72 { Ok((0x0Du32, p + 1)) }
            else if c == 0x74 { Ok((0x09u32, p + 1)) }
            else if c == 0x75 {
                match hex_run(b, p + 1, 4) {
                    Err(e) => Err(ParseError { message: ParseMessage::BadUnicodeEscape, pos: start as usize, detail: Some(e as usize) }),
                    Ok(code) => {
                        let q = p + 5;
                        if 0xd800 <= code <= 0xdbff {
                            let pair = ParseError { message: ParseMessage::BadSurrogatePair, pos: start as usize, detail: Some(q as usize) };
                            if byte_at(b, q) != Some(0x5Cu8) || byte_at(b, q + 1) != Some(0x75u8) {
                                Err(pair)
                            } else {
                                match hex_run(b, q + 2, 4) {
                                    Err(e) => Err(ParseError { message: ParseMessage::BadUnicodeEscape, pos: start as usize, detail: Some(e as usize) }),
                                    Ok(low) => if 0xdc00 <= low <= 0xdfff { Ok((pair_code(code as int, low as int) as u32, q + 6)) } else { Err(pair) },
                                }
                            }
                        } else if 0xdc00 <= code <= 0xdfff {
                            Ok((0xFFFDu32, q))
                        } else {
                            Ok((code, q))
                        }
                    },
                }
            } else {
                Err(bad)
            }
        },
        None => Err(bad),
    }
}

/// The UTF-8 encoding of code point `c`.
pub open spec fn utf8_spec(c: u32) -> Seq<u8> {
    if c < 0x80 {
        seq![c as u8]
    } else if c < 0x800 {
        seq![(0xC0 + c / 64) as u8, (0x80 + c % 64) as u8]
    } else if c < 0x10000 {
        seq![(0xE0 + c / 4096) as u8, (0x80 + (c / 64) % 64) as u8, (0x80 + c % 64) as u8]
    } else {
        seq![(0xF0 + c / 262144) as u8, (0x80 + (c / 4096) % 64) as u8, (0x80 + (c / 64) % 64) as u8, (0x80 + c % 64) as u8]
    }
}

/// The content of the string whose body starts at `p` (its opening quote
/// at `start`), escapes decoded to UTF-8, after the bytes `acc`; with the
/// offset after its closing quote. An unclosed string is an error at its
/// start.
pub open spec fn string_from(b: Seq<u8>, p: int, start: int, acc: Seq<u8>) -> Result<(Seq<u8>, int), ParseError>
    decreases b.len() - p,
{
    if p < 0 || p >= b.len() {
        Err(ParseError { message: ParseMessage::ValueExpected, pos: start as usize, detail: None })
    } else if b[p] == 0x22 {
        Ok((acc, p + 1))
    } else if b[p] == 0x5C {
        match escape_spec(b, p + 1, start) {
            Err(e) => Err(e),
            Ok((code, q)) => if q > p { string_from(b, q, start, acc + utf8_spec(code)) } else { Err(ParseError { message: ParseMessage::ValueExpected, pos: start as usize, detail: None }) },
        }
    } else {
        string_from(b, p + 1, start, acc.push(b[p]))
    }
}

impl<'a> Parser<'a> {
    /// A reader at the start of `bytes`.
    pub fn new(bytes: &'a [u8]) -> (r: Self)
        ensures
            r.bytes == bytes,
            r.pos == 0,
    {
        Parser { bytes, pos: 0 }
    }

    /// Whether the whole input has been read.
    pub fn finished(&self) -> (r: bool)
        ensures
            r == (self.pos == self.bytes@.len()),
    {
        self.pos == self.bytes.len()
    }

    /// The byte at the reading position, if any.
    pub fn peek(&self) -> (r: Option<u8>)
        ensures
            r == (if self.pos < self.bytes@.len() { Some(self.bytes@[self.pos as int]) } else { None::<u8> }),
    {
        if self.pos < self.bytes.len() {
            Some(self.bytes[self.pos])
        } else {
            None
        }
    }

    /// Reads one byte, if any.
    pub fn next(&mut self) -> (r: Option<u8>)
        ensures
            final(self).bytes == old(self).bytes,
            r == (if old(self).pos < old(self).bytes@.len() { Some(old(self).bytes@[old(self).pos as int]) } else { None::<u8> }),
            final(self).pos == (if old(self).pos < old(self).bytes@.len() { old(self).pos + 1 } else { old(self).pos as int }),
    {
        if self.pos < self.bytes.len() {
            let b = self.bytes[self.pos];
            self.pos = self.pos + 1;
            Some(b)
        } else {
            None
        }
    }

    /// Skips white space.
    pub fn skip_space(&mut self)
        requires
            old(self).pos <= old(self).bytes@.len(),
        ensures
            final(self).bytes == old(self).bytes,
            final(self).pos == space_end(old(self).bytes@, old(self).pos as int),
    {
        let len = self.bytes.len();
        while self.pos < len && (self.bytes[self.pos] == 0x20 || self.bytes[self.pos] == 0x0A || self.bytes[self.pos] == 0x0D
            || self.bytes[self.pos] == 0x09)
            invariant
                len == self.bytes@.len(),
                self.bytes == old(self).bytes,
                old(self).pos <= self.pos <= len,
                space_end(old(self).bytes@, old(self).pos as int) == space_end(self.bytes@, self.pos as int),
            decreases len - self.pos,
        {
            self.pos = self.pos + 1;
        }
    }

    /// Whether the two bytes at the reading position are `x` and `y`.
    fn at_pair(&self, x: u8, y: u8) -> (r: bool)
        requires
            self.pos <= self.bytes@.len(),
        ensures
            r == pair_at(self.bytes@, self.pos as int, x, y),
    {
        let len = self.bytes.len();
        self.pos < len && len - self.pos >= 2 && self.bytes[self.pos] == x && self.bytes[self.pos + 1] == y
    }

    /// Skips to the next line break (or the end).
    fn skip_line(&mut self)
        requires
            old(self).pos <= old(self).bytes@.len(),
        ensures
            final(self).bytes == old(self).bytes,
            final(self).pos == line_end(old(self).bytes@, old(self).pos as int),
    {
        let len = self.bytes.len();
        while self.pos < len && self.bytes[self.pos] != 0x0A && self.bytes[self.pos] != 0x0D
            invariant
                len == self.bytes@.len(),
                self.bytes == old(self).bytes,
                old(self).pos <= self.pos <= len,
                line_end(old(self).bytes@, old(self).pos as int) == line_end(self.bytes@, self.pos as int),
            decreases len - self.pos,
        {
            self.pos = self.pos + 1;
        }
    }

    /// Skips to the closing `*/` of a comment, returning whether there is
    /// one (the reading position is then at it, else at the end).
    fn skip_block(&mut self) -> (r: bool)
        requires
            old(self).pos <= old(self).bytes@.len(),
        ensures
            final(self).bytes == old(self).bytes,
            r == (block_end(old(self).bytes@, old(self).pos as int) is Some),
            r ==> final(self).pos == block_end(old(self).bytes@, old(self).pos as int)->0,
            !r ==> final(self).pos == old(self).bytes@.len(),
    {
        let len = self.bytes.len();
        while !self.at_pair(0x2A, 0x2F)
            invariant
                len == self.bytes@.len(),
                self.bytes == old(self).bytes,
                old(self).pos <= self.pos <= len,
                block_end(old(self).bytes@, old(self).pos as int) == block_end(self.bytes@, self.pos as int),
            decreases len - self.pos,
        {
            if self.pos >= len {
                return false;
            }
            self.pos = self.pos + 1;
        }
        true
    }

    /// Skips white space and comments.
    pub fn skip_ws(&mut self)
        requires
            old(self).pos <= old(self).bytes@.len(),
        ensures
            final(self).bytes == old(self).bytes,
            final(self).pos == ws_end(old(self).bytes@, old(self).pos as int),
    {
        let len = self.bytes.len();
        loop
            invariant
                len == self.bytes@.len(),
                self.bytes == old(self).bytes,
                old(self).pos <= self.pos <= len,
                ws_end(old(self).bytes@, old(self).pos as int) == ws_end(self.bytes@, self.pos as int),
            decreases len - self.pos,
        {
            let ghost p = self.pos as int;
            proof {
                lemma_space_end_bounds(self.bytes@, p);
            }
            self.skip_space();
            if self.at_pair(0x2F, 0x2F) {
                self.pos = self.pos + 2;
                proof {
                    lemma_line_end_bounds(self.bytes@, self.pos as int);
                }
                self.skip_line();
            } else if self.at_pair(0x2F, 0x2A) {
                self.pos = self.pos + 2;
                proof {
                    lemma_block_end_bounds(self.bytes@, self.pos as int);
                }
                if !self.skip_block() {
                    return;
                }
                self.pos = self.pos + 2;
            } else {
                return;
            }
        }
    }

    /// Reads `expected` if it is next.
    pub fn consume(&mut self, expected: u8) -> (r: bool)
        ensures
            final(self).bytes == old(self).bytes,
            r == (old(self).pos < old(self).bytes@.len() && old(self).bytes@[old(self).pos as int] == expected),
            final(self).pos == (if r { old(self).pos + 1 } else { old(self).pos as int }),
    {
        if self.pos < self.bytes.len() && self.bytes[self.pos] == expected {
            self.pos = self.pos + 1;
            true
        } else {
            false
        }
    }

    /// Reads `expected`, or fails with an unexpected token.
    pub fn expect(&mut self, expected: u8) -> (r: Result<(), ParseError>)
        ensures
            final(self).bytes == old(self).bytes,
            ({
                let ok = old(self).pos < old(self).bytes@.len() && old(self).bytes@[old(self).pos as int] == expected;
                &&& ok ==> r is Ok && final(self).pos == old(self).pos + 1
                &&& !ok ==> r == Err::<(), ParseError>(ParseError { message: ParseMessage::UnexpectedToken, pos: old(self).pos, detail: None })
                    && final(self).pos == old(self).pos
            }),
    {
        if self.consume(expected) {
            Ok(())
        } else {
            Err(ParseError { message: ParseMessage::UnexpectedToken, pos: self.pos, detail: None })
        }
    }

    /// Reads a run of decimal digits; returns whether there was one.
    pub fn consume_digits(&mut self) -> (r: bool)
        requires
            old(self).pos <= old(self).bytes@.len(),
        ensures
            final(self).bytes == old(self).bytes,
            final(self).pos == digits_end(old(self).bytes@, old(self).pos as int),
            r == (final(self).pos != old(self).pos),
            old(self).pos <= final(self).pos <= old(self).bytes@.len(),
    {
        let start = self.pos;
        let len = self.bytes.len();
        while self.pos < len && 0x30 <= self.bytes[self.pos] && self.bytes[self.pos] <= 0x39
            invariant
                len == self.bytes@.len(),
                self.bytes == old(self).bytes,
                start == old(self).pos,
                old(self).pos <= self.pos <= len,
                digits_end(old(self).bytes@, old(self).pos as int) == digits_end(self.bytes@, self.pos as int),
            decreases len - self.pos,
        {
            self.pos = self.pos + 1;
        }
        self.pos != start
    }

    /// Reads a bare member name (a letter or `_`, then letters, digits and
    /// `_`); returns its span.
    pub fn identifier(&mut self) -> (r: Result<(usize, usize), ParseError>)
        requires
            old(self).pos <= old(self).bytes@.len(),
        ensures
            final(self).bytes == old(self).bytes,
            ({
                let b = old(self).bytes@;
                let p = old(self).pos as int;
                let first = p < b.len() && is_ident(b[p]) && !(0x30 <= b[p] <= 0x39);
                &&& first ==> r == Ok::<(usize, usize), ParseError>((old(self).pos, ident_end(b, p + 1) as usize))
                    && final(self).pos == ident_end(b, p + 1)
                &&& !first ==> r == Err::<(usize, usize), ParseError>(ParseError { message: ParseMessage::MissingMemberName, pos: old(self).pos, detail: None })
                    && final(self).pos == p
            }),
    {
        let start = self.pos;
        let len = self.bytes.len();
        if self.pos < len {
            let c = self.bytes[self.pos];
            if (0x61 <= c && c <= 0x7A) || (0x41 <= c && c <= 0x5A) || c == 0x5F {
                self.pos = self.pos + 1;
                while self.pos < len && is_ident_byte(self.bytes[self.pos])
                    invariant
                        len == self.bytes@.len(),
                        self.bytes == old(self).bytes,
                        start == old(self).pos,
                        start < self.pos <= len,
                        ident_end(old(self).bytes@, start + 1) == ident_end(self.bytes@, self.pos as int),
                    decreases len - self.pos,
                {
                    self.pos = self.pos + 1;
                }
                return Ok((start, self.pos));
            }
        }
        Err(ParseError { message: ParseMessage::MissingMemberName, pos: self.pos, detail: None })
    }

    /// Reads the four hexadecimal digits of a `\u` escape; an error points
    /// at the string's start, with its detail just past the first byte
    /// that is not a digit.
    pub fn unicode_escape(&mut self, string_start: usize) -> (r: Result<u32, ParseError>)
        requires
            old(self).pos <= old(self).bytes@.len(),
            old(self).bytes@.len() < usize::MAX,
        ensures
            final(self).bytes == old(self).bytes,
            match hex_run(old(self).bytes@, old(self).pos as int, 4) {
                Ok(v) => r == Ok::<u32, ParseError>(v) && final(self).pos == old(self).pos + 4,
                Err(e) => r == Err::<u32, ParseError>(ParseError { message: ParseMessage::BadUnicodeEscape, pos: string_start, detail: Some(e as usize) })
                    && final(self).pos == e,
            },
    {
        let ghost p = self.pos as int;
        let mut code: u32 = 0;
        let mut n: usize = 0;
        while n < 4
            invariant
                0 <= n <= 4,
                self.bytes == old(self).bytes,
                self.bytes@.len() < usize::MAX,
                p == old(self).pos,
                self.pos == p + n,
                self.pos <= self.bytes@.len(),
                hex_run(self.bytes@, p, n as nat) == Ok::<u32, int>(code),
                code < hex_cap(n as int),
            decreases 4 - n,
        {
            let before = self.pos;
            let digit: Option<u32> = match self.next() {
                Some(c) => {
                    if 0x30 <= c && c <= 0x39 {
                        Some((c - 0x30) as u32)
                    } else if 0x61 <= c && c <= 0x66 {
                        Some((c - 0x61 + 10) as u32)
                    } else if 0x41 <= c && c <= 0x46 {
                        Some((c - 0x41 + 10) as u32)
                    } else {
                        None
                    }
                },
                None => None,
            };
            match digit {
                Some(d) => {
                    proof {
                        assert(hex_run(self.bytes@, p, (n + 1) as nat) == Ok::<u32, int>((code * 16 + d) as u32));
                    }
                    code = code * 16 + d;
                },
                None => {
                    proof {
                        assert(hex_run(self.bytes@, p, (n + 1) as nat) == Err::<u32, int>(self.pos as int));
                        lemma_hex_run_err_stays(self.bytes@, p, (n + 1) as nat, 4);
                    }
                    return Err(ParseError { message: ParseMessage::BadUnicodeEscape, pos: string_start, detail: Some(self.pos) });
                },
            }
            n = n + 1;
        }
        Ok(code)
    }

    /// Line and column of offset `pos` (counted up to the end of the
    /// input).
    pub fn line_column_at(&self, pos: usize) -> (r: (usize, usize))
        requires
            self.bytes@.len() < usize::MAX,
            ({
                let stop = scan_stop(self.bytes@, pos as int);
                line_scan(self.bytes@, stop, 0, 1, 0).1 <= stop
            }),
        ensures
            (r.0 as int, r.1 as int) == line_column_spec(self.bytes@, pos as int),
    {
        let len = self.bytes.len();
        let stop = if pos < len { pos } else { len };
        let mut line: usize = 1;
        let mut line_start: usize = 0;
        let mut index: usize = 0;
        while index < stop
            invariant
                len == self.bytes@.len(),
                len < usize::MAX,
                stop == scan_stop(self.bytes@, pos as int),
                stop <= len,
                index <= len,
                line <= index + 1,
                line_start <= index,
                line_scan(self.bytes@, stop as int, index as int, line as int, line_start as int) == line_scan(self.bytes@, stop as int, 0, 1, 0),
            decreases len - index,
        {
            let c = self.bytes[index];
            if c == 0x0A {
                line = line + 1;
                line_start = index + 1;
            } else if c == 0x0D {
                line = line + 1;
                if index + 1 < len && self.bytes[index + 1] == 0x0A {
                    index = index + 1;
                    line_start = index + 1;
                } else {
                    line_start = index + 1;
                }
            }
            index = index + 1;
        }
        assert(line_scan(self.bytes@, stop as int, index as int, line as int, line_start as int) == (line as int, line_start as int));
        (line, stop - line_start + 1)
    }

    /// Skips white space before an object member; a comment there is an
    /// error (pointing past it and the spaces after it).
    pub fn skip_member_space(&mut self) -> (r: Result<(), ParseError>)
        requires
            old(self).pos <= old(self).bytes@.len(),
        ensures
            final(self).bytes == old(self).bytes,
            ({
                let b = old(self).bytes@;
                let q = space_end(b, old(self).pos as int);
                let missing = |at: int| Err::<(), ParseError>(ParseError { message: ParseMessage::MissingMemberName, pos: at as usize, detail: None });
                if pair_at(b, q, 0x2F, 0x2F) {
                    let e = space_end(b, line_end(b, q + 2));
                    r == missing(e) && final(self).pos == e
                } else if pair_at(b, q, 0x2F, 0x2A) {
                    match block_end(b, q + 2) {
                        None => r == missing(b.len() as int) && final(self).pos == b.len(),
                        Some(e) => r == missing(space_end(b, e + 2)) && final(self).pos == space_end(b, e + 2),
                    }
                } else {
                    r is Ok && final(self).pos == q
                }
            }),
    {
        let len = self.bytes.len();
        proof {
            lemma_space_end_bounds(self.bytes@, self.pos as int);
        }
        self.skip_space();
        if self.at_pair(0x2F, 0x2F) {
            self.pos = self.pos + 2;
            proof {
                lemma_line_end_bounds(self.bytes@, self.pos as int);
            }
            self.skip_line();
            proof {
                lemma_space_end_bounds(self.bytes@, self.pos as int);
            }
            self.skip_space();
            return Err(ParseError { message: ParseMessage::MissingMemberName, pos: self.pos, detail: None });
        }
        if self.at_pair(0x2F, 0x2A) {
            self.pos = self.pos + 2;
            proof {
                lemma_block_end_bounds(self.bytes@, self.pos as int);
            }
            if !self.skip_block() {
                return Err(ParseError { message: ParseMessage::MissingMemberName, pos: self.pos, detail: None });
            }
            self.pos = self.pos + 2;
            proof {
                lemma_space_end_bounds(self.bytes@, self.pos as int);
            }
            self.skip_space();
            return Err(ParseError { message: ParseMessage::MissingMemberName, pos: self.pos, detail: None });
        }
        Ok(())
    }

    /// Reads the bytes of `lit` if they come next.
    pub fn literal(&mut self, lit: &[u8]) -> (r: Result<(), ParseError>)
        requires
            old(self).pos <= old(self).bytes@.len(),
        ensures
            final(self).bytes == old(self).bytes,
            ({
                let p = old(self).pos as int;
                let b = old(self).bytes@;
                let ok = p + lit@.len() <= b.len() && b.subrange(p, p + lit@.len()) == lit@;
                &&& ok ==> r is Ok && final(self).pos == p + lit@.len()
                &&& !ok ==> r == Err::<(), ParseError>(ParseError { message: ParseMessage::InvalidLiteral, pos: old(self).pos, detail: None })
                    && final(self).pos == p
            }),
    {
        let len = self.bytes.len();
        let n = lit.len();
        if n > len - self.pos {
            return Err(ParseError { message: ParseMessage::InvalidLiteral, pos: self.pos, detail: None });
        }
        let mut i: usize = 0;
        while i < n
            invariant
                len == self.bytes@.len(),
                n == lit@.len(),
                self.pos + n <= len,
                self.bytes == old(self).bytes,
                self.pos == old(self).pos,
                0 <= i <= n,
                forall|k: int| 0 <= k < i ==> #[trigger] lit@[k] == self.bytes@[self.pos + k],
            decreases n - i,
        {
            if self.bytes[self.pos + i] != lit[i] {
                assert(self.bytes@.subrange(self.pos as int, self.pos + n)[i as int] != lit@[i as int]);
                return Err(ParseError { message: ParseMessage::InvalidLiteral, pos: self.pos, detail: None });
            }
            i = i + 1;
        }
        assert(self.bytes@.subrange(self.pos as int, self.pos + n) =~= lit@);
        self.pos = self.pos + n;
        Ok(())
    }

    /// Reads a number (see `number_spec`).
    pub fn number(&mut self) -> (r: Result<NumberScan, ParseError>)
        requires
            old(self).pos <= old(self).bytes@.len(),
            old(self).bytes@.len() < usize::MAX,
        ensures
            final(self).bytes == old(self).bytes,
            (r, final(self).pos as int) == number_spec(old(self).bytes@, old(self).pos as int),
            r is Ok ==> old(self).pos < final(self).pos <= old(self).bytes@.len(),
    {
        let len = self.bytes.len();
        let start = self.pos;
        let negative = self.consume(0x2D);
        let leading_dot;
        if self.pos < len && 0x30 <= self.bytes[self.pos] && self.bytes[self.pos] <= 0x39 {
            self.pos = self.pos + 1;
            self.consume_digits();
            leading_dot = false;
        } else if negative && self.consume(0x2E) {
            if !self.consume_digits() {
                return Err(ParseError { message: ParseMessage::NotANumber, pos: start, detail: Some(self.pos) });
            }
            leading_dot = true;
        } else if negative {
            return Ok(NumberScan::Zero);
        } else {
            return Err(ParseError { message: ParseMessage::InvalidNumber, pos: self.pos, detail: None });
        }
        proof {
            lemma_digits_end_bounds(self.bytes@, start as int);
        }
        if !leading_dot && self.consume(0x2E) {
            self.consume_digits();
        }
        if self.consume(0x65) || self.consume(0x45) {
            if !self.consume(0x2B) {
                self.consume(0x2D);
            }
            if !self.consume_digits() {
                return Err(ParseError { message: ParseMessage::NotANumber, pos: start, detail: Some(self.pos) });
            }
        }
        Ok(NumberScan::Span { start, end: self.pos, leading_dot })
    }

    /// Reads the second half of a surrogate pair (a `\u` escape of a low
    /// surrogate) after the high one; returns the pair's code point.
    pub fn surrogate_pair(&mut self, string_start: usize, high: u32) -> (r: Result<u32, ParseError>)
        requires
            old(self).pos <= old(self).bytes@.len(),
            old(self).bytes@.len() < usize::MAX,
            0xd800 <= high <= 0xdbff,
        ensures
            final(self).bytes == old(self).bytes,
            ({
                let b = old(self).bytes@;
                let q = old(self).pos as int;
                let pair = ParseError { message: ParseMessage::BadSurrogatePair, pos: string_start, detail: Some(q as usize) };
                if byte_at(b, q) != Some(0x5Cu8) || byte_at(b, q + 1) != Some(0x75u8) {
                    r == Err::<u32, ParseError>(pair)
                } else {
                    match hex_run(b, q + 2, 4) {
                        Err(e) => r == Err::<u32, ParseError>(ParseError { message: ParseMessage::BadUnicodeEscape, pos: string_start, detail: Some(e as usize) }),
                        Ok(low) => if 0xdc00 <= low <= 0xdfff {
                            r == Ok::<u32, ParseError>(pair_code(high as int, low as int) as u32) && final(self).pos == q + 6
                        } else {
                            r == Err::<u32, ParseError>(pair)
                        },
                    }
                }
            }),
    {
        let detail_pos = self.pos;
        if self.next() != Some(0x5Cu8) || self.next() != Some(0x75u8) {
            return Err(ParseError { message: ParseMessage::BadSurrogatePair, pos: string_start, detail: Some(detail_pos) });
        }
        let low = self.unicode_escape(string_start)?;
        if !(0xdc00 <= low && low <= 0xdfff) {
            return Err(ParseError { message: ParseMessage::BadSurrogatePair, pos: string_start, detail: Some(detail_pos) });
        }
        let hi: u32 = high - 0xd800;
        assert(hi << 10u32 == hi * 1024) by (bit_vector)
            requires
                hi <= 0x3ff,
        ;
        Ok(0x10000 + (hi << 10u32) + (low - 0xdc00))
    }

    /// The code point of a `\u` escape's value: a high surrogate takes the
    /// low one that must follow; a lone low surrogate stands for U+FFFD.
    pub fn escaped_unicode(&mut self, string_start: usize, code: u32) -> (r: Result<u32, ParseError>)
        requires
            old(self).pos <= old(self).bytes@.len(),
            old(self).bytes@.len() < usize::MAX,
            code < 0x10000,
        ensures
            final(self).bytes == old(self).bytes,
            !(0xd800 <= code <= 0xdfff) ==> r == Ok::<u32, ParseError>(code) && final(self).pos == old(self).pos,
            0xdc00 <= code <= 0xdfff ==> r == Ok::<u32, ParseError>(0xFFFDu32) && final(self).pos == old(self).pos,
            0xd800 <= code <= 0xdbff ==> ({
                let b = old(self).bytes@;
                let q = old(self).pos as int;
                let pair = ParseError { message: ParseMessage::BadSurrogatePair, pos: string_start, detail: Some(q as usize) };
                if byte_at(b, q) != Some(0x5Cu8) || byte_at(b, q + 1) != Some(0x75u8) {
                    r == Err::<u32, ParseError>(pair)
                } else {
                    match hex_run(b, q + 2, 4) {
                        Err(e) => r == Err::<u32, ParseError>(ParseError { message: ParseMessage::BadUnicodeEscape, pos: string_start, detail: Some(e as usize) }),
                        Ok(low) => if 0xdc00 <= low <= 0xdfff {
                            r == Ok::<u32, ParseError>(pair_code(code as int, low as int) as u32) && final(self).pos == q + 6
                        } else {
                            r == Err::<u32, ParseError>(pair)
                        },
                    }
                }
            }),
    {
        if 0xd800 <= code && code <= 0xdbff {
            self.surrogate_pair(string_start, code)
        } else if 0xdc00 <= code && code <= 0xdfff {
            Ok(0xFFFD)
        } else {
            Ok(code)
        }
    }

    /// Reads the escape whose letter is next (after a backslash); returns
    /// its code point (see `escape_spec`).
    pub fn escape(&mut self, string_start: usize) -> (r: Result<u32, ParseError>)
        requires
            old(self).pos <= old(self).bytes@.len(),
            old(self).bytes@.len() < usize::MAX,
        ensures
            final(self).bytes == old(self).bytes,
            match escape_spec(old(self).bytes@, old(self).pos as int, string_start as int) {
                Ok((code, q)) => r == Ok::<u32, ParseError>(code) && final(self).pos == q,
                Err(e) => r == Err::<u32, ParseError>(e),
            },
    {
        match self.next() {
            Some(c) => {
                if c == 0x22 {
                    Ok(0x22)
                } else if c == 0x5C {
                    Ok(0x5C)
                } else if c == 0x2F {
                    Ok(0x2F)
                } else if c == 0x62 {
                    Ok(0x08)
                } else if c == 0x66 {
                    Ok(0x0C)
                } else if c == 0x6E {
                    Ok(0x0A)
                } else if c == 0x72 {
                    Ok(0x0D)
                } else if c == 0x74 {
                    Ok(0x09)
                } else if c == 0x75 {
                    let code = self.unicode_escape(string_start)?;
                    proof {
                        lemma_hex_run_bound(self.bytes@, old(self).pos + 1, 4);
                    }
                    self.escaped_unicode(string_start, code)
                } else {
                    Err(ParseError { message: ParseMessage::BadEscape, pos: string_start, detail: Some(self.pos) })
                }
            },
            None => Err(ParseError { message: ParseMessage::BadEscape, pos: string_start, detail: Some(self.pos) }),
        }
    }

    /// Reads a string (from its opening quote); returns its content with
    /// escapes decoded to UTF-8.
    pub fn string(&mut self) -> (r: Result<Vec<u8>, ParseError>)
        requires
            old(self).pos <= old(self).bytes@.len(),
            old(self).bytes@.len() < usize::MAX,
        ensures
            final(self).bytes == old(self).bytes,
            ({
                let b = old(self).bytes@;
                let p = old(self).pos as int;
                if byte_at(b, p) != Some(0x22u8) {
                    r == Err::<Vec<u8>, ParseError>(ParseError { message: ParseMessage::UnexpectedToken, pos: old(self).pos, detail: None })
                } else {
                    match string_from(b, p + 1, p, Seq::empty()) {
                        Ok((content, q)) => r matches Ok(v) && v@ == content && final(self).pos == q,
                        Err(e) => r == Err::<Vec<u8>, ParseError>(e),
                    }
                }
            }),
    {
        let start = self.pos;
        let len = self.bytes.len();
        self.expect(0x22)?;
        let mut bytes: Vec<u8> = Vec::new();
        loop
            invariant
                len == self.bytes@.len(),
                len < usize::MAX,
                self.bytes == old(self).bytes,
                start == old(self).pos,
                start < self.pos <= len,
                byte_at(self.bytes@, start as int) == Some(0x22u8),
                string_from(self.bytes@, self.pos as int, start as int, bytes@) == string_from(self.bytes@, start + 1, start as int, Seq::empty()),
            decreases len - self.pos,
        {
            let ghost p = self.pos as int;
            match self.next() {
                None => {
                    return Err(ParseError { message: ParseMessage::ValueExpected, pos: start, detail: None });
                },
                Some(c) => {
                    if c == 0x22 {
                        return Ok(bytes);
                    } else if c == 0x5C {
                        let code = self.escape(start)?;
                        proof {
                            lemma_escape_advances(self.bytes@, p + 1, start as int);
                        }
                        let enc = utf8_encode(code);
                        let ghost before = bytes@;
                        let mut k: usize = 0;
                        while k < enc.len()
                            invariant
                                0 <= k <= enc@.len(),
                                enc@.len() <= 4,
                                bytes@ == before + enc@.subrange(0, k as int),
                            decreases enc@.len() - k,
                        {
                            bytes.push(enc[k]);
                            proof {
                                assert(bytes@ =~= before + enc@.subrange(0, k + 1));
                            }
                            k = k + 1;
                        }
                        assert(enc@.subrange(0, enc@.len() as int) =~= enc@);
                    } else {
                        bytes.push(c);
                    }
                },
            }
        }
    }
}

/// The run of spaces never ends before it starts.
pub proof fn lemma_space_end_bounds(b: Seq<u8>, p: int)
    requires
        0 <= p <= b.len(),
    ensures
        p <= space_end(b, p) <= b.len(),
    decreases b.len() - p,
{
    if p < b.len() && is_space(b[p]) {
        lemma_space_end_bounds(b, p + 1);
    }
}

/// A line runs from its start to at most the end.
pub proof fn lemma_line_end_bounds(b: Seq<u8>, p: int)
    requires
        0 <= p <= b.len(),
    ensures
        p <= line_end(b, p) <= b.len(),
    decreases b.len() - p,
{
    if p < b.len() && b[p] != 0x0A && b[p] != 0x0D {
        lemma_line_end_bounds(b, p + 1);
    }
}

/// A closing `*/` lies at or after the search start, two bytes before the
/// end at the latest.
pub proof fn lemma_block_end_bounds(b: Seq<u8>, p: int)
    requires
        0 <= p,
    ensures
        block_end(b, p) matches Some(e) ==> p <= e && e + 2 <= b.len(),
    decreases b.len() - p,
{
    if p < b.len() && !pair_at(b, p, 0x2A, 0x2F) {
        lemma_block_end_bounds(b, p + 1);
    }
}

/// Once a run of hexadecimal digits breaks off, longer runs break off at
/// the same place.
pub proof fn lemma_hex_run_err_stays(b: Seq<u8>, p: int, n: nat, m: nat)
    requires
        n <= m,
        hex_run(b, p, n) is Err,
    ensures
        hex_run(b, p, m) == hex_run(b, p, n),
    decreases m - n,
{
    if n < m {
        lemma_hex_run_err_stays(b, p, n, (m - 1) as nat);
    }
}


/// The UTF-8 encoding of code point `c` (below 0x110000).
pub fn utf8_encode(c: u32) -> (r: Vec<u8>)
    requires
        c < 0x110000,
    ensures
        r@ == utf8_spec(c),
        r@.len() <= 4,
{
    let mut v: Vec<u8> = Vec::new();
    if c < 0x80 {
        v.push(c as u8);
    } else if c < 0x800 {
        v.push((0xC0 + c / 64) as u8);
        v.push((0x80 + c % 64) as u8);
    } else if c < 0x10000 {
        v.push((0xE0 + c / 4096) as u8);
        v.push((0x80 + (c / 64) % 64) as u8);
        v.push((0x80 + c % 64) as u8);
    } else {
        v.push((0xF0 + c / 262144) as u8);
        v.push((0x80 + (c / 4096) % 64) as u8);
        v.push((0x80 + (c / 64) % 64) as u8);
        v.push((0x80 + c % 64) as u8);
    }
    assert(v@ =~= utf8_spec(c));
    v
}

/// A run of digits ends at or after its start.
pub proof fn lemma_digits_end_bounds(b: Seq<u8>, p: int)
    requires
        0 <= p <= b.len(),
    ensures
        p <= digits_end(b, p) <= b.len(),
    decreases b.len() - p,
{
    if p < b.len() && 0x30 <= b[p] <= 0x39 {
        lemma_digits_end_bounds(b, p + 1);
    }
}

/// White space and comments end at or after where they start, and inside
/// the input when they start inside it.
pub proof fn lemma_ws_end_bounds(b: Seq<u8>, p: int)
    ensures
        ws_end(b, p) >= p,
        0 <= p <= b.len() ==> ws_end(b, p) <= b.len(),
        (p < 0 || p > b.len()) ==> ws_end(b, p) == p,
    decreases b.len() - p,
{
    if 0 <= p <= b.len() {
        let q = space_end(b, p);
        lemma_space_end_bounds(b, p);
        if pair_at(b, q, 0x2F, 0x2F) {
            lemma_line_end_bounds(b, q + 2);
            lemma_ws_end_bounds(b, line_end(b, q + 2));
        } else if pair_at(b, q, 0x2F, 0x2A) {
            lemma_block_end_bounds(b, q + 2);
            match block_end(b, q + 2) {
                Some(e) => lemma_ws_end_bounds(b, e + 2),
                None => {},
            }
        }
    }
}

/// Identifier characters end at or after where they start.
pub proof fn lemma_ident_end_bounds(b: Seq<u8>, p: int)
    requires
        0 <= p <= b.len(),
    ensures
        p <= ident_end(b, p) <= b.len(),
    decreases b.len() - p,
{
    if p < b.len() && is_ident(b[p]) {
        lemma_ident_end_bounds(b, p + 1);
    }
}

/// A string read from `p` ends after `p`, inside the input.
pub proof fn lemma_string_from_end(b: Seq<u8>, p: int, start: int, acc: Seq<u8>)
    ensures
        string_from(b, p, start, acc) matches Ok((s, e)) ==> p < e <= b.len(),
    decreases b.len() - p,
{
    if 0 <= p < b.len() {
        if b[p] == 0x22 {
        } else if b[p] == 0x5C {
            lemma_escape_advances(b, p + 1, start);
            match escape_spec(b, p + 1, start) {
                Ok((code, q)) => {
                    if q > p {
                        lemma_string_from_end(b, q, start, acc + utf8_spec(code));
                    }
                },
                Err(_) => {},
            }
        } else {
            lemma_string_from_end(b, p + 1, start, acc.push(b[p]));
        }
    }
}

/// The value of `n` hexadecimal digits is below `16^n`.
pub proof fn lemma_hex_run_bound(b: Seq<u8>, p: int, n: nat)
    requires
        n <= 4,
    ensures
        hex_run(b, p, n) matches Ok(v) ==> v < hex_cap(n as int),
    decreases n,
{
    if n > 0 {
        lemma_hex_run_bound(b, p, (n - 1) as nat);
    }
}

/// An escape moves the reader forward, and its code point is a scalar
/// value.
pub proof fn lemma_escape_advances(b: Seq<u8>, p: int, start: int)
    requires
        0 <= p,
    ensures
        escape_spec(b, p, start) matches Ok((code, q)) ==> q > p && code < 0x110000,
{
    lemma_hex_run_bound(b, p + 1, 4);
    lemma_hex_run_bound(b, p + 7, 4);
}

} // verus!
