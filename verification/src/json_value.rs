//! The value layer of the options reader. A value is read as the events a
//! walk of its tree meets: a start for each object and array, a key before
//! each member's value, a string, number or literal at each leaf, and an
//! end after each object and array.
use vstd::prelude::*;
use crate::json_scan::{
    ParseError, ParseMessage, Parser, NumberScan, byte_at, is_digit, is_ident, ident_end,
    space_end, line_end, block_end, pair_at, ws_end, string_from, number_spec,
    lemma_ws_end_bounds, lemma_ident_end_bounds, lemma_string_from_end, lemma_space_end_bounds,
    lemma_line_end_bounds, lemma_block_end_bounds,
};

verus! {

/// One step of the walk over a value's tree.
#[derive(Clone, Debug, PartialEq, Eq)]
pub enum Event {
    ObjectStart,
    Key(Vec<u8>),
    ArrayStart,
    End,
    String(Vec<u8>),
    Number(NumberScan),
    Bool(bool),
    Null,
}

/// An event with the bytes of its key or string as a sequence.
pub enum EventView {
    ObjectStart,
    Key(Seq<u8>),
    ArrayStart,
    End,
    String(Seq<u8>),
    Number(NumberScan),
    Bool(bool),
    Null,
}

impl View for Event {
    type V = EventView;

    open spec fn view(&self) -> EventView {
        match self {
            Event::ObjectStart => EventView::ObjectStart,
            Event::Key(k) => EventView::Key(k@),
            Event::ArrayStart => EventView::ArrayStart,
            Event::End => EventView::End,
            Event::String(s) => EventView::String(s@),
            Event::Number(n) => EventView::Number(*n),
            Event::Bool(v) => EventView::Bool(*v),
            Event::Null => EventView::Null,
        }
    }
}

/// The views of a run of events.
pub open spec fn events_view(s: Seq<Event>) -> Seq<EventView> {
    s.map_values(|e: Event| e@)
}

/// An error with no detail.
pub open spec fn error_at(message: ParseMessage, p: int) -> ParseError {
    ParseError { message, pos: p as usize, detail: None }
}

/// `r` with the events `pre` in front of its events.
pub open spec fn after_events(pre: Seq<EventView>, r: Result<(Seq<EventView>, int), ParseError>) -> Result<(Seq<EventView>, int), ParseError> {
    match r {
        Ok((s, e)) => Ok((pre + s, e)),
        Err(x) => Err(x),
    }
}

/// The white space before an object member, with the offset after it; a
/// comment there is an error pointing past it and the spaces after it.
pub open spec fn member_space_spec(b: Seq<u8>, p: int) -> Result<int, ParseError> {
    let q = space_end(b, p);
    if pair_at(b, q, 0x2F, 0x2F) {
        Err(error_at(ParseMessage::MissingMemberName, space_end(b, line_end(b, q + 2))))
    } else if pair_at(b, q, 0x2F, 0x2A) {
        match block_end(b, q + 2) {
            None => Err(error_at(ParseMessage::MissingMemberName, b.len() as int)),
            Some(e) => Err(error_at(ParseMessage::MissingMemberName, space_end(b, e + 2))),
        }
    } else {
        Ok(q)
    }
}

/// The member name at `q` (a string, or a bare identifier), with the
/// offset after it.
pub open spec fn key_spec(b: Seq<u8>, q: int) -> Result<(Seq<u8>, int), ParseError> {
    if byte_at(b, q) == Some(0x22u8) {
        string_from(b, q + 1, q, Seq::empty())
    } else if 0 <= q < b.len() && is_ident(b[q]) && !is_digit(b[q]) {
        Ok((b.subrange(q, ident_end(b, q + 1)), ident_end(b, q + 1)))
    } else {
        Err(error_at(ParseMessage::MissingMemberName, q))
    }
}

/// Whether the bytes of `lit` come at `p`.
pub open spec fn literal_at(b: Seq<u8>, p: int, lit: Seq<u8>) -> bool {
    0 <= p && p + lit.len() <= b.len() && b.subrange(p, p + lit.len()) == lit
}

/// The literal `lit` at `p`, read as `ev`.
pub open spec fn literal_spec(b: Seq<u8>, p: int, lit: Seq<u8>, ev: EventView) -> Result<(Seq<EventView>, int), ParseError> {
    if literal_at(b, p, lit) {
        Ok((seq![ev], p + lit.len()))
    } else {
        Err(error_at(ParseMessage::InvalidLiteral, p))
    }
}

/// The bytes of `true`, `false` and `null`.
pub open spec fn true_bytes() -> Seq<u8> {
    seq![0x74u8, 0x72u8, 0x75u8, 0x65u8]
}

pub open spec fn false_bytes() -> Seq<u8> {
    seq![0x66u8, 0x61u8, 0x6Cu8, 0x73u8, 0x65u8]
}

pub open spec fn null_bytes() -> Seq<u8> {
    seq![0x6Eu8, 0x75u8, 0x6Cu8, 0x6Cu8]
}

/// The string, number or literal whose first byte `c` is at `q`.
pub open spec fn scalar_spec(b: Seq<u8>, q: int, c: u8) -> Result<(Seq<EventView>, int), ParseError> {
    if c == 0x22 {
        match string_from(b, q + 1, q, Seq::empty()) {
            Ok((s, e)) => Ok((seq![EventView::String(s)], e)),
            Err(x) => Err(x),
        }
    } else if c == 0x2D || is_digit(c) {
        match number_spec(b, q) {
            (Ok(n), e) => Ok((seq![EventView::Number(n)], e)),
            (Err(x), _) => Err(x),
        }
    } else if c == 0x74 {
        literal_spec(b, q, true_bytes(), EventView::Bool(true))
    } else if c == 0x66 {
        literal_spec(b, q, false_bytes(), EventView::Bool(false))
    } else if c == 0x6E {
        literal_spec(b, q, null_bytes(), EventView::Null)
    } else {
        Err(error_at(ParseMessage::ValueExpected, q))
    }
}

/// The value after the white space and comments at `p`: its events and
/// the offset after it.
pub open spec fn value_spec(b: Seq<u8>, p: int) -> Result<(Seq<EventView>, int), ParseError>
    decreases b.len() - p, 0int,
{
    let q = ws_end(b, p);
    proof {
        lemma_ws_end_bounds(b, p);
    }
    match byte_at(b, q) {
        None => Err(error_at(ParseMessage::ValueExpected, q)),
        Some(c) => {
            if c == 0x7B {
                object_spec(b, q + 1)
            } else if c == 0x5B {
                array_spec(b, q + 1)
            } else {
                scalar_spec(b, q, c)
            }
        },
    }
}

/// The object whose `{` ends just before `p`.
pub open spec fn object_spec(b: Seq<u8>, p: int) -> Result<(Seq<EventView>, int), ParseError>
    decreases b.len() - p, 1int,
{
    let q = ws_end(b, p);
    proof {
        lemma_ws_end_bounds(b, p);
    }
    if byte_at(b, q) == Some(0x7Du8) {
        Ok((seq![EventView::ObjectStart, EventView::End], q + 1))
    } else {
        after_events(seq![EventView::ObjectStart], members_spec(b, q))
    }
}

/// The members of an object from the one at `p` on, with the object's
/// end. (A value never ends before it starts; the test on `g` only lets
/// the recursion be seen to end.)
pub open spec fn members_spec(b: Seq<u8>, p: int) -> Result<(Seq<EventView>, int), ParseError>
    decreases b.len() - p, 0int,
{
    match member_space_spec(b, p) {
        Err(x) => Err(x),
        Ok(q) => match key_spec(b, q) {
            Err(x) => Err(x),
            Ok((k, e)) => {
                let c = ws_end(b, e);
                proof {
                    if 0 <= p <= b.len() {
                        lemma_space_end_bounds(b, p);
                    }
                    if 0 <= q < b.len() {
                        lemma_ident_end_bounds(b, q + 1);
                    }
                    lemma_string_from_end(b, q + 1, q, Seq::empty());
                    lemma_ws_end_bounds(b, e);
                }
                if byte_at(b, c) != Some(0x3Au8) {
                    Err(error_at(ParseMessage::MissingColon, c))
                } else {
                    match value_spec(b, c + 1) {
                        Err(x) => Err(x),
                        Ok((v, f)) => {
                            let g = ws_end(b, f);
                            let head = seq![EventView::Key(k)] + v;
                            if byte_at(b, g) == Some(0x7Du8) {
                                Ok((head + seq![EventView::End], g + 1))
                            } else if byte_at(b, g) == Some(0x2Cu8) && g >= p {
                                after_events(head, members_spec(b, g + 1))
                            } else {
                                Err(error_at(ParseMessage::MissingCommaOrBrace, g))
                            }
                        },
                    }
                }
            },
        },
    }
}

/// The array whose `[` ends just before `p`.
pub open spec fn array_spec(b: Seq<u8>, p: int) -> Result<(Seq<EventView>, int), ParseError>
    decreases b.len() - p, 2int,
{
    let q = ws_end(b, p);
    proof {
        lemma_ws_end_bounds(b, p);
    }
    if byte_at(b, q) == Some(0x5Du8) {
        Ok((seq![EventView::ArrayStart, EventView::End], q + 1))
    } else {
        after_events(seq![EventView::ArrayStart], elements_spec(b, q))
    }
}

/// The elements of an array from the one at `p` on, with the array's end.
/// (As in `members_spec`, the test on `g` only lets the recursion be seen
/// to end.)
pub open spec fn elements_spec(b: Seq<u8>, p: int) -> Result<(Seq<EventView>, int), ParseError>
    decreases b.len() - p, 1int,
{
    match value_spec(b, p) {
        Err(x) => Err(x),
        Ok((v, f)) => {
            let g = ws_end(b, f);
            if byte_at(b, g) == Some(0x5Du8) {
                Ok((v + seq![EventView::End], g + 1))
            } else if byte_at(b, g) == Some(0x2Cu8) && g >= p {
                after_events(v, elements_spec(b, g + 1))
            } else {
                Err(error_at(ParseMessage::UnexpectedToken, g))
            }
        },
    }
}

/// The events of the whole input: one value between white space and
/// comments; anything after a value that is not an object is an error.
pub open spec fn parse_spec(b: Seq<u8>) -> Result<Seq<EventView>, ParseError> {
    match value_spec(b, ws_end(b, 0)) {
        Err(x) => Err(x),
        Ok((evs, e)) => {
            let f = ws_end(b, e);
            if f == b.len() || (evs.len() > 0 && evs[0] == EventView::ObjectStart) {
                Ok(evs)
            } else {
                Err(error_at(ParseMessage::ExtraData, f))
            }
        },
    }
}


/// Whether reading gave what `spec` says: on success the events were added
/// to `before` and the reader stands at the spec's end offset; otherwise
/// the spec's error.
pub open spec fn read_matches(
    spec: Result<(Seq<EventView>, int), ParseError>,
    r: Result<(), ParseError>,
    before: Seq<Event>,
    after: Seq<Event>,
    pos: int,
) -> bool {
    match spec {
        Ok((evs, e)) => r is Ok && pos == e && events_view(after) == events_view(before) + evs,
        Err(x) => r == Err::<(), ParseError>(x),
    }
}

/// Adding an event adds its view.
proof fn lemma_events_view_push(s: Seq<Event>, e: Event)
    ensures
        events_view(s.push(e)) == events_view(s) + seq![e@],
{
    assert(events_view(s.push(e)) =~= events_view(s) + seq![e@]);
}

/// Reading `pre`'s events into `mid` and then the rest as `spec` says
/// reads `after_events(pre, spec)` from `before`.
proof fn lemma_read_after(
    pre: Seq<EventView>,
    spec: Result<(Seq<EventView>, int), ParseError>,
    r: Result<(), ParseError>,
    before: Seq<Event>,
    mid: Seq<Event>,
    after: Seq<Event>,
    pos: int,
)
    requires
        events_view(mid) == events_view(before) + pre,
        read_matches(spec, r, mid, after, pos),
    ensures
        read_matches(after_events(pre, spec), r, before, after, pos),
{
    match spec {
        Ok((s, e)) => {
            assert(events_view(after) =~= events_view(before) + (pre + s));
        },
        Err(_) => {},
    }
}

/// The bytes of `bytes` from `start` up to `end`.
fn copy_span(bytes: &[u8], start: usize, end: usize) -> (r: Vec<u8>)
    requires
        start <= end <= bytes@.len(),
    ensures
        r@ == bytes@.subrange(start as int, end as int),
{
    let mut r: Vec<u8> = Vec::new();
    let mut i = start;
    while i < end
        invariant
            start <= i <= end,
            end <= bytes@.len(),
            r@ == bytes@.subrange(start as int, i as int),
        decreases end - i,
    {
        r.push(bytes[i]);
        assert(r@ =~= bytes@.subrange(start as int, i + 1));
        i = i + 1;
    }
    r
}

impl<'a> Parser<'a> {
    /// Reads the literal `lit` and adds `ev` for it.
    fn literal_event(&mut self, lit: &[u8], ev: Event, out: &mut Vec<Event>) -> (r: Result<(), ParseError>)
        requires
            old(self).pos <= old(self).bytes@.len(),
            lit@.len() > 0,
        ensures
            final(self).bytes == old(self).bytes,
            read_matches(literal_spec(old(self).bytes@, old(self).pos as int, lit@, ev@), r, old(out)@, final(out)@, final(self).pos as int),
            r is Ok ==> old(self).pos < final(self).pos <= old(self).bytes@.len(),
    {
        let ghost before = out@;
        self.literal(lit)?;
        out.push(ev);
        proof {
            lemma_events_view_push(before, ev);
        }
        Ok(())
    }

    /// Reads the string, number or literal whose first byte `c` is next
    /// (see `scalar_spec`).
    fn scalar(&mut self, c: u8, out: &mut Vec<Event>) -> (r: Result<(), ParseError>)
        requires
            old(self).pos < old(self).bytes@.len(),
            old(self).bytes@.len() < usize::MAX,
            old(self).bytes@[old(self).pos as int] == c,
        ensures
            final(self).bytes == old(self).bytes,
            read_matches(scalar_spec(old(self).bytes@, old(self).pos as int, c), r, old(out)@, final(out)@, final(self).pos as int),
            r is Ok ==> old(self).pos < final(self).pos <= old(self).bytes@.len(),
    {
        let ghost b = self.bytes@;
        let ghost q = self.pos as int;
        let ghost before = out@;
        if c == 0x22 {
            proof {
                lemma_string_from_end(b, q + 1, q, Seq::empty());
            }
            let s = self.string()?;
            let ev = Event::String(s);
            out.push(ev);
            proof {
                lemma_events_view_push(before, ev);
            }
            Ok(())
        } else if c == 0x2D || (0x30 <= c && c <= 0x39) {
            let n = self.number()?;
            let ev = Event::Number(n);
            out.push(ev);
            proof {
                lemma_events_view_push(before, ev);
            }
            Ok(())
        } else if c == 0x74 {
            let lit: [u8; 4] = [0x74, 0x72, 0x75, 0x65];
            assert(lit@ =~= true_bytes());
            self.literal_event(lit.as_slice(), Event::Bool(true), out)
        } else if c == 0x66 {
            let lit: [u8; 5] = [0x66, 0x61, 0x6C, 0x73, 0x65];
            assert(lit@ =~= false_bytes());
            self.literal_event(lit.as_slice(), Event::Bool(false), out)
        } else if c == 0x6E {
            let lit: [u8; 4] = [0x6E, 0x75, 0x6C, 0x6C];
            assert(lit@ =~= null_bytes());
            self.literal_event(lit.as_slice(), Event::Null, out)
        } else {
            Err(ParseError { message: ParseMessage::ValueExpected, pos: self.pos, detail: None })
        }
    }

    /// Reads a value after white space and comments, and adds its events
    /// to `out` (see `value_spec`).
    pub fn value(&mut self, out: &mut Vec<Event>) -> (r: Result<(), ParseError>)
        requires
            old(self).pos <= old(self).bytes@.len(),
            old(self).bytes@.len() < usize::MAX,
        ensures
            final(self).bytes == old(self).bytes,
            read_matches(value_spec(old(self).bytes@, old(self).pos as int), r, old(out)@, final(out)@, final(self).pos as int),
            r is Ok ==> old(self).pos < final(self).pos <= old(self).bytes@.len(),
        decreases old(self).bytes@.len() - old(self).pos, 1int,
    {
        proof {
            lemma_ws_end_bounds(self.bytes@, self.pos as int);
        }
        self.skip_ws();
        match self.peek() {
            None => Err(ParseError { message: ParseMessage::ValueExpected, pos: self.pos, detail: None }),
            Some(c) => {
                if c == 0x7B {
                    self.object(out)
                } else if c == 0x5B {
                    self.array(out)
                } else {
                    self.scalar(c, out)
                }
            },
        }
    }

    /// Reads an object, whose `{` is next (see `object_spec`).
    fn object(&mut self, out: &mut Vec<Event>) -> (r: Result<(), ParseError>)
        requires
            old(self).pos < old(self).bytes@.len(),
            old(self).bytes@.len() < usize::MAX,
            old(self).bytes@[old(self).pos as int] == 0x7B,
        ensures
            final(self).bytes == old(self).bytes,
            read_matches(object_spec(old(self).bytes@, old(self).pos + 1), r, old(out)@, final(out)@, final(self).pos as int),
            r is Ok ==> old(self).pos < final(self).pos <= old(self).bytes@.len(),
        decreases old(self).bytes@.len() - old(self).pos, 0int,
    {
        let ghost before = out@;
        self.pos = self.pos + 1;
        proof {
            lemma_ws_end_bounds(self.bytes@, self.pos as int);
        }
        self.skip_ws();
        if self.consume(0x7D) {
            out.push(Event::ObjectStart);
            proof {
                lemma_events_view_push(before, Event::ObjectStart);
            }
            let ghost mid = out@;
            out.push(Event::End);
            proof {
                lemma_events_view_push(mid, Event::End);
                assert(events_view(out@) =~= events_view(before) + seq![EventView::ObjectStart, EventView::End]);
            }
            return Ok(());
        }
        out.push(Event::ObjectStart);
        proof {
            lemma_events_view_push(before, Event::ObjectStart);
        }
        let ghost mid = out@;
        let ghost q = self.pos as int;
        let r = self.members(out);
        proof {
            lemma_read_after(seq![EventView::ObjectStart], members_spec(self.bytes@, q), r, before, mid, out@, self.pos as int);
        }
        r
    }

    /// Reads the members of an object from the one at the reading position
    /// on, and the object's end (see `members_spec`).
    #[verifier::spinoff_prover]
    fn members(&mut self, out: &mut Vec<Event>) -> (r: Result<(), ParseError>)
        requires
            old(self).pos <= old(self).bytes@.len(),
            old(self).bytes@.len() < usize::MAX,
        ensures
            final(self).bytes == old(self).bytes,
            read_matches(members_spec(old(self).bytes@, old(self).pos as int), r, old(out)@, final(out)@, final(self).pos as int),
            r is Ok ==> old(self).pos < final(self).pos <= old(self).bytes@.len(),
        decreases old(self).bytes@.len() - old(self).pos, 0int,
    {
        let ghost b = self.bytes@;
        let ghost p = self.pos as int;
        let ghost before = out@;
        proof {
            lemma_space_end_bounds(b, p);
        }
        self.skip_member_space()?;
        let ghost q = self.pos as int;
        proof {
            lemma_string_from_end(b, q + 1, q, Seq::empty());
            if q < b.len() {
                lemma_ident_end_bounds(b, q + 1);
            }
        }
        let key = if self.peek() == Some(0x22u8) {
            self.string()?
        } else {
            let (s, e) = self.identifier()?;
            copy_span(self.bytes, s, e)
        };
        let ghost e = self.pos as int;
        assert(key_spec(b, q) == Ok::<(Seq<u8>, int), ParseError>((key@, e)));
        proof {
            lemma_ws_end_bounds(b, e);
        }
        self.skip_ws();
        if !self.consume(0x3A) {
            return Err(ParseError { message: ParseMessage::MissingColon, pos: self.pos, detail: None });
        }
        let ghost k = key@;
        let ev = Event::Key(key);
        out.push(ev);
        proof {
            lemma_events_view_push(before, ev);
        }
        let ghost with_key = out@;
        let ghost c1 = self.pos as int;
        let rv = self.value(out);
        proof {
            if rv is Ok {
                match value_spec(b, c1) {
                    Ok((v, f)) => {
                        assert(events_view(out@) =~= events_view(before) + (seq![EventView::Key(k)] + v));
                    },
                    Err(_) => {},
                }
            }
        }
        rv?;
        let ghost with_value = out@;
        let ghost f = self.pos as int;
        proof {
            lemma_ws_end_bounds(b, f);
        }
        self.skip_ws();
        if self.consume(0x7D) {
            out.push(Event::End);
            proof {
                lemma_events_view_push(with_value, Event::End);
                match value_spec(b, c1) {
                    Ok((v, f)) => {
                        assert(events_view(out@) =~= events_view(before) + (seq![EventView::Key(k)] + v + seq![EventView::End]));
                    },
                    Err(_) => {},
                }
            }
            return Ok(());
        }
        if !self.consume(0x2C) {
            return Err(ParseError { message: ParseMessage::MissingCommaOrBrace, pos: self.pos, detail: None });
        }
        let ghost g1 = self.pos as int;
        let r = self.members(out);
        proof {
            match value_spec(b, c1) {
                Ok((v, f)) => {
                    lemma_read_after(seq![EventView::Key(k)] + v, members_spec(b, g1), r, before, with_value, out@, self.pos as int);
                },
                Err(_) => {},
            }
        }
        r
    }

    /// Reads an array, whose `[` is next (see `array_spec`).
    fn array(&mut self, out: &mut Vec<Event>) -> (r: Result<(), ParseError>)
        requires
            old(self).pos < old(self).bytes@.len(),
            old(self).bytes@.len() < usize::MAX,
            old(self).bytes@[old(self).pos as int] == 0x5B,
        ensures
            final(self).bytes == old(self).bytes,
            read_matches(array_spec(old(self).bytes@, old(self).pos + 1), r, old(out)@, final(out)@, final(self).pos as int),
            r is Ok ==> old(self).pos < final(self).pos <= old(self).bytes@.len(),
        decreases old(self).bytes@.len() - old(self).pos, 0int,
    {
        let ghost before = out@;
        self.pos = self.pos + 1;
        proof {
            lemma_ws_end_bounds(self.bytes@, self.pos as int);
        }
        self.skip_ws();
        if self.consume(0x5D) {
            out.push(Event::ArrayStart);
            proof {
                lemma_events_view_push(before, Event::ArrayStart);
            }
            let ghost mid = out@;
            out.push(Event::End);
            proof {
                lemma_events_view_push(mid, Event::End);
                assert(events_view(out@) =~= events_view(before) + seq![EventView::ArrayStart, EventView::End]);
            }
            return Ok(());
        }
        out.push(Event::ArrayStart);
        proof {
            lemma_events_view_push(before, Event::ArrayStart);
        }
        let ghost mid = out@;
        let ghost q = self.pos as int;
        let r = self.elements(out);
        proof {
            lemma_read_after(seq![EventView::ArrayStart], elements_spec(self.bytes@, q), r, before, mid, out@, self.pos as int);
        }
        r
    }

    /// Reads the elements of an array from the one at the reading position
    /// on, and the array's end (see `elements_spec`).
    #[verifier::spinoff_prover]
    fn elements(&mut self, out: &mut Vec<Event>) -> (r: Result<(), ParseError>)
        requires
            old(self).pos <= old(self).bytes@.len(),
            old(self).bytes@.len() < usize::MAX,
        ensures
            final(self).bytes == old(self).bytes,
            read_matches(elements_spec(old(self).bytes@, old(self).pos as int), r, old(out)@, final(out)@, final(self).pos as int),
            r is Ok ==> old(self).pos < final(self).pos <= old(self).bytes@.len(),
        decreases old(self).bytes@.len() - old(self).pos, 2int,
    {
        let ghost b = self.bytes@;
        let ghost p = self.pos as int;
        let ghost before = out@;
        self.value(out)?;
        let ghost with_value = out@;
        let ghost f = self.pos as int;
        proof {
            lemma_ws_end_bounds(b, f);
        }
        self.skip_ws();
        if self.consume(0x5D) {
            out.push(Event::End);
            proof {
                lemma_events_view_push(with_value, Event::End);
                match value_spec(b, p) {
                    Ok((v, f)) => {
                        assert(events_view(out@) =~= events_view(before) + (v + seq![EventView::End]));
                    },
                    Err(_) => {},
                }
            }
            return Ok(());
        }
        self.expect(0x2C)?;
        let ghost g1 = self.pos as int;
        let r = self.elements(out);
        proof {
            match value_spec(b, p) {
                Ok((v, f)) => {
                    lemma_read_after(v, elements_spec(b, g1), r, before, with_value, out@, self.pos as int);
                },
                Err(_) => {},
            }
        }
        r
    }
}

/// Reads the whole of `input` (see `parse_spec`): its events, or where and
/// why it is not a value.
pub fn parse(input: &[u8]) -> (r: Result<Vec<Event>, ParseError>)
    requires
        input@.len() < usize::MAX,
    ensures
        match parse_spec(input@) {
            Ok(evs) => r matches Ok(v) && events_view(v@) == evs,
            Err(x) => r == Err::<Vec<Event>, ParseError>(x),
        },
{
    let mut parser = Parser::new(input);
    proof {
        lemma_ws_end_bounds(input@, 0);
    }
    parser.skip_ws();
    let mut out: Vec<Event> = Vec::new();
    proof {
        assert(events_view(out@) =~= Seq::<EventView>::empty());
    }
    parser.value(&mut out)?;
    proof {
        assert(events_view(out@) =~= Seq::<EventView>::empty() + events_view(out@));
        lemma_ws_end_bounds(input@, parser.pos as int);
    }
    parser.skip_ws();
    let object = out.len() > 0 && match out[0] {
        Event::ObjectStart => true,
        _ => false,
    };
    if parser.finished() || object {
        Ok(out)
    } else {
        Err(ParseError { message: ParseMessage::ExtraData, pos: parser.pos, detail: None })
    }
}

} // verus!
