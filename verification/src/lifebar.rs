//! The life-bar mini-format: the player's remaining life over time.
//!
//! The text is pipe-separated.  The first token, when it parses as an
//! unsigned integer, is the optional base time; tokens of the shape `v,u`
//! (life fraction, time in milliseconds) are events; the trailing `1,` token
//! is the terminator of the canonical form, not an event, and tokens that
//! fit no shape are skipped.  Serializing writes the base time when it is
//! not zero, the events pipe-joined, and the `1,` terminator; an empty
//! timeline serializes to the empty string.

use vstd::prelude::*;

use crate::decimal::spec_parse_decimal;
use crate::decimal::spec_print_decimal;
use crate::decimal::Decimal;
use crate::error::Error;
use crate::numtext::spec_parse_u32;
use crate::numtext::spec_print_nat;
use crate::split::spec_split;
use crate::split::split_bytes;

verus! {

/// One sample of the life bar: the life fraction `v` at time `u`.
#[derive(Clone, Copy, Debug, PartialEq, Eq, Structural)]
pub struct LifeBarEvent {
    /// Time in milliseconds into the session.
    pub u: u32,
    /// Life fraction at that time, from zero (empty) to one (full).
    pub v: Decimal,
}

/// The canonical text of one event: `v,u`.
pub open spec fn spec_print_event(e: LifeBarEvent) -> Seq<u8> {
    spec_print_decimal(e.v.units as int) + seq![44u8] + spec_print_nat(e.u as nat)
}

/// The event a token stands for, if any: exactly two comma-separated
/// fields, a fraction then a time, both parsing.
pub open spec fn spec_parse_event_token(t: Seq<u8>) -> Option<LifeBarEvent> {
    let fields = spec_split(t, 44);
    if fields.len() == 2 {
        match spec_parse_u32(fields[1]) {
            Some(u) => match spec_parse_decimal(fields[0]) {
                Some(v) => Some(LifeBarEvent { u, v }),
                None => None,
            },
            None => None,
        }
    } else {
        None
    }
}

impl LifeBarEvent {
    /// The zero event: empty life at time zero.
    pub fn new() -> (r: Self)
        ensures
            r.u == 0,
            r.v.units == 0,
    {
        LifeBarEvent { u: 0, v: Decimal { units: 0 } }
    }

    /// Parse one `v,u` event token.
    pub fn parse(s: &str) -> (r: Result<LifeBarEvent, Error>)
        ensures
            ({
                let fields = spec_split(vstd::utf8::encode_utf8(s@), 44);
                if fields.len() != 2 {
                    r == Err::<LifeBarEvent, Error>(Error::InvalidStringFrameFormat)
                } else if spec_parse_u32(fields[1]) is None || spec_parse_decimal(fields[0])
                    is None {
                    r == Err::<LifeBarEvent, Error>(Error::CantParseFrameValue)
                } else {
                    r == Ok::<LifeBarEvent, Error>(
                        LifeBarEvent {
                            u: spec_parse_u32(fields[1]).unwrap(),
                            v: spec_parse_decimal(fields[0]).unwrap(),
                        },
                    )
                }
            }),
    {
        let bytes = s.as_bytes_vec();
        let fields = split_bytes(&bytes, 44u8);
        proof {
            assert(fields@.len() == fields.deep_view().len());
        }
        if fields.len() != 2 {
            return Err(Error::InvalidStringFrameFormat);
        }
        assert(fields@[0]@ == spec_split(bytes@, 44)[0]);
        assert(fields@[1]@ == spec_split(bytes@, 44)[1]);
        let u = match crate::numtext::parse_u32_token(&fields[1]) {
            Some(u) => u,
            None => {
                return Err(Error::CantParseFrameValue);
            },
        };
        let v = match crate::decimal::parse_decimal_token(&fields[0]) {
            Some(v) => v,
            None => {
                return Err(Error::CantParseFrameValue);
            },
        };
        Ok(LifeBarEvent { u, v })
    }

    /// The canonical `v,u` text of this event.
    pub fn serialize(&self) -> (r: String)
        ensures
            vstd::utf8::encode_utf8(r@) == spec_print_event(*self),
    {
        let mut out: Vec<u8> = Vec::new();
        crate::decimal::push_decimal(&self.v, &mut out);
        out.push(44u8);
        crate::numtext::push_decimal_u32(self.u, &mut out);
        assert(out@ =~= spec_print_event(*self));
        let ghost bv = out@;
        proof {
            lemma_print_event_ascii(*self);
            crate::reader::lemma_ascii_bytes_utf8(bv);
        }
        match crate::reader::string_from_utf8(out) {
            Ok(s) => {
                proof {
                    vstd::utf8::decode_utf8_encode_utf8(bv);
                }
                s
            },
            Err(_) => vstd::pervasive::unreached(),
        }
    }
}

impl Default for LifeBarEvent {
    /// The zero event.
    fn default() -> (r: Self)
        ensures
            r.u == 0,
            r.v.units == 0,
    {
        LifeBarEvent { u: 0, v: Decimal { units: 0 } }
    }
}

/// The events the token list carries, in order.
pub open spec fn spec_collect_events(toks: Seq<Seq<u8>>) -> Seq<LifeBarEvent>
    decreases toks.len(),
{
    if toks.len() == 0 {
        Seq::empty()
    } else {
        let rest = spec_collect_events(toks.drop_first());
        if toks[0].len() > 0 && toks[0].contains(44u8) {
            match spec_parse_event_token(toks[0]) {
                Some(e) => seq![e] + rest,
                None => rest,
            }
        } else {
            rest
        }
    }
}

/// What a life-bar text parses to: the base time of the first token (zero
/// when it does not parse) and the events of all tokens.
pub open spec fn spec_parse_lifebar(b: Seq<u8>) -> (u32, Seq<LifeBarEvent>) {
    let toks = spec_split(b, 124);
    let base = match spec_parse_u32(toks[0]) {
        Some(v) => v,
        None => 0u32,
    };
    (base, spec_collect_events(toks))
}

/// The serialized events: each preceded by a pipe.
pub open spec fn spec_ser_events(events: Seq<LifeBarEvent>) -> Seq<u8>
    decreases events.len(),
{
    if events.len() == 0 {
        Seq::empty()
    } else {
        spec_ser_events(events.drop_last()) + seq![124u8] + spec_print_event(events.last())
    }
}

/// The canonical life-bar text: empty for an empty timeline; otherwise the
/// base time when it is not zero, the events, and the `1,` terminator.
pub open spec fn spec_ser_lifebar(base: u32, events: Seq<LifeBarEvent>) -> Seq<u8> {
    if events.len() == 0 {
        Seq::empty()
    } else {
        (if base > 0 {
            spec_print_nat(base as nat)
        } else {
            Seq::<u8>::empty()
        }) + spec_ser_events(events) + seq![124u8, 49u8, 44u8]
    }
}

/// Parsed data of the life bar graph.
#[derive(Clone, Debug)]
pub struct LifeBar {
    /// The base time the timeline starts from, zero when absent.
    pub base_time: u32,
    /// The timeline's events, in order.
    pub events: Vec<LifeBarEvent>,
}

impl LifeBar {
    /// The events of the timeline, in order.
    pub open spec fn spec_events(&self) -> Seq<LifeBarEvent> {
        self.events@
    }

    /// An empty timeline.
    pub fn new() -> (r: Self)
        ensures
            r.base_time == 0,
            r.spec_events() == Seq::<LifeBarEvent>::empty(),
    {
        LifeBar { base_time: 0, events: Vec::new() }
    }

    /// The events of the timeline.
    pub fn events(&self) -> (r: &Vec<LifeBarEvent>)
        ensures
            r@ == self.spec_events(),
    {
        &self.events
    }

    /// Append one event to the timeline.
    pub fn push_event(&mut self, e: LifeBarEvent)
        ensures
            final(self).base_time == old(self).base_time,
            final(self).spec_events() == old(self).spec_events().push(e),
    {
        self.events.push(e);
    }

    /// Empty the timeline and drop its base time.
    pub fn delete_bar_data(&mut self)
        ensures
            final(self).base_time == 0,
            final(self).spec_events() == Seq::<LifeBarEvent>::empty(),
    {
        self.base_time = 0;
        self.events = Vec::new();
    }

    /// Parse a life-bar string.  Tokens that fit no shape are skipped, so
    /// parsing never fails; the `Result` mirrors the signature callers
    /// expect around fallible codecs.
    pub fn parse(s: &str) -> (r: Result<LifeBar, Error>)
        ensures
            r is Ok,
            ({
                let (base, events) = spec_parse_lifebar(vstd::utf8::encode_utf8(s@));
                r matches Ok(lb) && lb.base_time == base && lb.spec_events() == events
            }),
    {
        let bytes = s.as_bytes_vec();
        let tokens = split_bytes(&bytes, 124u8);
        let ghost toks = spec_split(bytes@, 124u8);
        proof {
            assert(tokens@[0]@ == toks[0]);
        }
        let base_time = match crate::numtext::parse_u32_token(&tokens[0]) {
            Some(v) => v,
            None => 0u32,
        };
        let mut events: Vec<LifeBarEvent> = Vec::new();
        let mut i: usize = 0;
        proof {
            assert(toks.skip(0) =~~= toks);
            assert(events@ + spec_collect_events(toks) =~= spec_collect_events(toks));
        }
        while i < tokens.len()
            invariant
                i <= tokens@.len(),
                tokens.deep_view() == toks,
                tokens@.len() == toks.len(),
                spec_collect_events(toks) == events@ + spec_collect_events(toks.skip(i as int)),
            decreases tokens@.len() - i,
        {
            let ghost rest = toks.skip(i as int);
            proof {
                assert(rest[0] == toks[i as int]);
                assert(rest.drop_first() =~~= toks.skip(i + 1));
                assert(tokens@[i as int]@ == toks[i as int]);
            }
            let tok = &tokens[i];
            if tok.len() > 0 && crate::split::contains_byte(tok, 44u8) {
                let fields = split_bytes(tok, 44u8);
                proof {
                    assert(fields@.len() == fields.deep_view().len());
                }
                // The canonical terminator `1,` has an empty second field:
                // it closes the timeline and is no event.
                if fields.len() == 2 && fields[1].len() == 0 {
                    proof {
                        assert(fields@[1]@ == spec_split(tok@, 44)[1]);
                        assert(spec_parse_u32(spec_split(tok@, 44)[1]) is None);
                        assert(spec_parse_event_token(tok@) is None);
                    }
                } else {
                    if fields.len() == 2 {
                        assert(fields@[0]@ == spec_split(tok@, 44)[0]);
                        assert(fields@[1]@ == spec_split(tok@, 44)[1]);
                        let u = crate::numtext::parse_u32_token(&fields[1]);
                        let v = crate::decimal::parse_decimal_token(&fields[0]);
                        match u {
                            Some(uv) => match v {
                                Some(vv) => {
                                    let ghost before = events@;
                                    events.push(LifeBarEvent { u: uv, v: vv });
                                    proof {
                                        let e = LifeBarEvent { u: uv, v: vv };
                                        assert(spec_parse_event_token(rest[0]) == Some(e));
                                        assert(before + (seq![e] + spec_collect_events(
                                            toks.skip(i + 1),
                                        )) =~= events@ + spec_collect_events(toks.skip(i + 1)));
                                    }
                                },
                                None => {},
                            },
                            None => {},
                        }
                    } else {
                        proof {
                            assert(spec_parse_event_token(rest[0]) is None);
                        }
                    }
                }
            }
            i = i + 1;
        }
        proof {
            assert(toks.skip(i as int).len() == 0);
            assert(spec_collect_events(toks.skip(i as int)) =~= Seq::<LifeBarEvent>::empty());
            assert(events@ + Seq::<LifeBarEvent>::empty() =~= events@);
        }
        Ok(LifeBar { base_time, events })
    }

    /// The canonical text of the timeline.
    pub fn serialize(&self) -> (r: String)
        ensures
            vstd::utf8::encode_utf8(r@) == spec_ser_lifebar(self.base_time, self.spec_events()),
    {
        let mut out: Vec<u8> = Vec::new();
        if self.events.len() == 0 {
            assert(out@ =~= spec_ser_lifebar(self.base_time, self.spec_events()));
        } else {
            if self.base_time > 0 {
                crate::numtext::push_decimal_u32(self.base_time, &mut out);
            }
            let ghost bp = out@;
            let mut i: usize = 0;
            assert(self.spec_events().take(0) =~= Seq::<LifeBarEvent>::empty());
            while i < self.events.len()
                invariant
                    i <= self.spec_events().len(),
                    self.spec_events() == self.events@,
                    out@ == bp + spec_ser_events(self.spec_events().take(i as int)),
                decreases self.events@.len() - i,
            {
                out.push(124u8);
                let e = self.events[i];
                crate::decimal::push_decimal(&e.v, &mut out);
                out.push(44u8);
                crate::numtext::push_decimal_u32(e.u, &mut out);
                proof {
                    let t1 = self.spec_events().take(i + 1);
                    assert(t1.drop_last() =~= self.spec_events().take(i as int));
                    assert(t1.last() == self.spec_events()[i as int]);
                    assert(out@ =~= bp + (spec_ser_events(t1.drop_last()) + seq![124u8]
                        + spec_print_event(t1.last())));
                }
                i = i + 1;
            }
            assert(self.spec_events().take(i as int) =~= self.spec_events());
            out.push(124u8);
            out.push(49u8);
            out.push(44u8);
            assert(out@ =~= spec_ser_lifebar(self.base_time, self.spec_events()));
        }
        let ghost bv = out@;
        proof {
            lemma_ser_lifebar_ascii(self.base_time, self.spec_events());
            crate::reader::lemma_ascii_bytes_utf8(bv);
        }
        match crate::reader::string_from_utf8(out) {
            Ok(s) => {
                proof {
                    vstd::utf8::decode_utf8_encode_utf8(bv);
                }
                s
            },
            Err(_) => vstd::pervasive::unreached(),
        }
    }
}

/// The serialized events, peeled from the front instead.
proof fn lemma_ser_events_head(events: Seq<LifeBarEvent>)
    requires
        events.len() > 0,
    ensures
        spec_ser_events(events) == seq![124u8] + spec_print_event(events[0]) + spec_ser_events(
            events.drop_first(),
        ),
    decreases events.len(),
{
    if events.len() == 1 {
        assert(events.drop_last() =~= Seq::<LifeBarEvent>::empty());
        assert(events.drop_first() =~= Seq::<LifeBarEvent>::empty());
        assert(events.last() == events[0]);
        assert(spec_ser_events(events) =~= seq![124u8] + spec_print_event(events[0])
            + spec_ser_events(events.drop_first()));
    } else {
        let dl = events.drop_last();
        lemma_ser_events_head(dl);
        assert(dl[0] == events[0]);
        assert(dl.drop_first() =~= events.drop_first().drop_last());
        assert(events.drop_first().last() == events.last());
        assert(spec_ser_events(events.drop_first()) == spec_ser_events(
            events.drop_first().drop_last(),
        ) + seq![124u8] + spec_print_event(events.last()));
        assert(spec_ser_events(events) =~= seq![124u8] + spec_print_event(events[0])
            + spec_ser_events(events.drop_first()));
    }
}

/// The serialized events with the terminator, from the first pipe on.
spec fn tail_text(events: Seq<LifeBarEvent>) -> Seq<u8>
    decreases events.len(),
{
    if events.len() == 0 {
        seq![49u8, 44u8]
    } else {
        spec_print_event(events[0]) + seq![124u8] + tail_text(events.drop_first())
    }
}

/// The serialized events and terminator regrouped around the pipes.
proof fn lemma_tail_eq(events: Seq<LifeBarEvent>)
    ensures
        spec_ser_events(events) + seq![124u8, 49u8, 44u8] == seq![124u8] + tail_text(events),
    decreases events.len(),
{
    if events.len() == 0 {
        assert(spec_ser_events(events) + seq![124u8, 49u8, 44u8] =~= seq![124u8] + tail_text(
            events,
        ));
    } else {
        let pe0 = spec_print_event(events[0]);
        let df = events.drop_first();
        lemma_tail_eq(df);
        lemma_ser_events_head(events);
        assert(spec_ser_events(events) + seq![124u8, 49u8, 44u8] =~= seq![124u8] + pe0 + (
        spec_ser_events(df) + seq![124u8, 49u8, 44u8]));
        assert(seq![124u8] + pe0 + (seq![124u8] + tail_text(df)) =~= seq![124u8] + tail_text(
            events,
        ));
    }
}

/// The canonical text of one event holds no pipe.
proof fn lemma_print_event_no_pipe(e: LifeBarEvent)
    ensures
        !spec_print_event(e).contains(124u8),
{
    crate::decimal::lemma_print_decimal_no_byte(e.v.units as int, 124u8);
    crate::numtext::lemma_print_nat_no_byte(e.u as nat, 124u8);
    let comma: Seq<u8> = seq![44u8];
    assert(!comma.contains(124u8));
    crate::split::lemma_concat_not_contains(
        spec_print_decimal(e.v.units as int),
        comma,
        124u8,
    );
    crate::split::lemma_concat_not_contains(
        spec_print_decimal(e.v.units as int) + comma,
        spec_print_nat(e.u as nat),
        124u8,
    );
}

/// One canonical event token parses back to its event.
proof fn lemma_event_token_round_trip(e: LifeBarEvent)
    ensures
        spec_parse_event_token(spec_print_event(e)) == Some(e),
        spec_print_event(e).len() > 0,
        spec_print_event(e).contains(44u8),
{
    let pv = spec_print_decimal(e.v.units as int);
    let pu = spec_print_nat(e.u as nat);
    let t = spec_print_event(e);
    crate::decimal::lemma_print_decimal_no_byte(e.v.units as int, 44u8);
    crate::numtext::lemma_print_nat_no_byte(e.u as nat, 44u8);
    assert(t =~= pv + seq![44u8] + pu);
    crate::split::lemma_split_append(pv, 44u8, pu);
    crate::split::lemma_split_no_delim(pu, 44u8);
    let fields = spec_split(t, 44u8);
    assert(fields == seq![pv] + seq![pu]);
    assert(fields.len() == 2);
    assert(fields[0] == pv && fields[1] == pu);
    crate::numtext::lemma_print_parse_u32(e.u);
    crate::decimal::lemma_decimal_print_parse(e.v);
    assert(t[pv.len() as int] == 44u8);
}

/// The tail of the serialized text parses back to exactly its events.
proof fn lemma_tail_parse(events: Seq<LifeBarEvent>)
    ensures
        spec_collect_events(spec_split(tail_text(events), 124u8)) == events,
    decreases events.len(),
{
    if events.len() == 0 {
        let t: Seq<u8> = seq![49u8, 44u8];
        let one: Seq<u8> = seq![49u8];
        assert(t =~= one + seq![44u8] + Seq::<u8>::empty());
        assert(!t.contains(124u8)) by {
            if t.contains(124u8) {
                let i = choose|i: int| 0 <= i < 2 && t[i] == 124u8;
            }
        }
        crate::split::lemma_split_no_delim(t, 124u8);
        let toks = spec_split(t, 124u8);
        assert(toks == seq![t]);
        crate::split::lemma_split_append(one, 44u8, Seq::<u8>::empty());
        let fields = spec_split(t, 44u8);
        assert(fields == seq![one] + spec_split(Seq::<u8>::empty(), 44u8));
        assert(fields.len() == 2);
        assert(fields[1] =~= Seq::<u8>::empty());
        assert(spec_parse_u32(fields[1]) is None);
        assert(spec_parse_event_token(t) is None);
        assert(toks.drop_first() =~~= Seq::<Seq<u8>>::empty());
        assert(spec_collect_events(Seq::<Seq<u8>>::empty()) =~= Seq::<LifeBarEvent>::empty());
        assert(events =~= Seq::<LifeBarEvent>::empty());
        assert(spec_collect_events(toks) =~= events);
    } else {
        let e0 = events[0];
        let rest = events.drop_first();
        lemma_tail_parse(rest);
        lemma_event_token_round_trip(e0);
        lemma_print_event_no_pipe(e0);
        let t = tail_text(events);
        assert(t =~= spec_print_event(e0) + seq![124u8] + tail_text(rest));
        crate::split::lemma_split_append(spec_print_event(e0), 124u8, tail_text(rest));
        let toks = spec_split(t, 124u8);
        assert(toks == seq![spec_print_event(e0)] + spec_split(tail_text(rest), 124u8));
        assert(toks[0] == spec_print_event(e0));
        assert(toks.drop_first() =~~= spec_split(tail_text(rest), 124u8));
        assert(toks[0].len() > 0);
        assert(toks[0].contains(44u8));
        assert(spec_parse_event_token(toks[0]) == Some(e0));
        assert(spec_collect_events(toks.drop_first()) == rest);
        assert(spec_collect_events(toks) == seq![e0] + rest);
        assert(seq![e0] + rest =~= events);
    }
}

/// Parsing the serialized text of any timeline yields the base time and
/// the events unchanged, provided a timeline without events carries no
/// base time (an empty timeline serializes to the empty string, which
/// cannot hold one).
pub proof fn lemma_lifebar_round_trip(base: u32, events: Seq<LifeBarEvent>)
    requires
        events.len() == 0 ==> base == 0,
    ensures
        spec_parse_lifebar(spec_ser_lifebar(base, events)) == (base, events),
{
    let text = spec_ser_lifebar(base, events);
    if events.len() == 0 {
        assert(text =~= Seq::<u8>::empty());
        let toks = spec_split(text, 124u8);
        assert(toks =~~= seq![Seq::<u8>::empty()]);
        assert(spec_parse_u32(toks[0]) is None);
        assert(toks.drop_first() =~~= Seq::<Seq<u8>>::empty());
        assert(spec_collect_events(Seq::<Seq<u8>>::empty()) =~= Seq::<LifeBarEvent>::empty());
        assert(events =~= Seq::<LifeBarEvent>::empty());
        assert(spec_collect_events(toks) =~= events);
    } else {
        let bp: Seq<u8> = if base > 0 {
            spec_print_nat(base as nat)
        } else {
            Seq::<u8>::empty()
        };
        lemma_tail_eq(events);
        assert(text =~= bp + (spec_ser_events(events) + seq![124u8, 49u8, 44u8]));
        assert(text =~= bp + seq![124u8] + tail_text(events));
        crate::numtext::lemma_print_nat(base as nat);
        crate::numtext::lemma_print_nat_no_byte(base as nat, 124u8);
        crate::numtext::lemma_print_nat_no_byte(base as nat, 44u8);
        assert(!bp.contains(124u8));
        crate::split::lemma_split_append(bp, 124u8, tail_text(events));
        let toks = spec_split(text, 124u8);
        assert(toks == seq![bp] + spec_split(tail_text(events), 124u8));
        assert(toks[0] == bp);
        if base > 0 {
            crate::numtext::lemma_print_parse_u32(base);
        } else {
            assert(spec_parse_u32(bp) is None);
        }
        assert(!bp.contains(44u8));
        lemma_tail_parse(events);
        assert(toks.drop_first() =~~= spec_split(tail_text(events), 124u8));
        assert(toks.len() > 0);
        assert(!(toks[0].len() > 0 && toks[0].contains(44u8)));
        assert(spec_collect_events(toks.drop_first()) == events);
        assert(spec_collect_events(toks) == events);
    }
}

/// The canonical text of one event stays within the ASCII range.
proof fn lemma_print_event_ascii(e: LifeBarEvent)
    ensures
        forall|i: int|
            0 <= i < spec_print_event(e).len() ==> (#[trigger] spec_print_event(e)[i]) < 128,
{
    let pv = spec_print_decimal(e.v.units as int);
    let pu = spec_print_nat(e.u as nat);
    crate::decimal::lemma_print_decimal_bytes(e.v.units as int);
    crate::numtext::lemma_print_nat(e.u as nat);
    let s = spec_print_event(e);
    assert forall|i: int| 0 <= i < s.len() implies (#[trigger] s[i]) < 128 by {
        if i < pv.len() {
            assert(s[i] == pv[i]);
            assert(crate::numtext::is_digit(pv[i]) || pv[i] == 45u8 || pv[i] == 46u8);
        } else if i == pv.len() {
            assert(s[i] == 44u8);
        } else {
            assert(s[i] == pu[i - pv.len() - 1]);
            assert(crate::numtext::is_digit(pu[i - pv.len() - 1]));
        }
    }
}

/// The whole serialized life-bar text stays within the ASCII range.
proof fn lemma_ser_lifebar_ascii(base: u32, events: Seq<LifeBarEvent>)
    ensures
        forall|i: int|
            0 <= i < spec_ser_lifebar(base, events).len() ==> (
            #[trigger] spec_ser_lifebar(base, events)[i]) < 128,
{
    if events.len() > 0 {
        lemma_ser_events_ascii(events);
        crate::numtext::lemma_print_nat(base as nat);
        let bp: Seq<u8> = if base > 0 {
            spec_print_nat(base as nat)
        } else {
            Seq::<u8>::empty()
        };
        let se = spec_ser_events(events);
        let s = spec_ser_lifebar(base, events);
        assert(s == bp + se + seq![124u8, 49u8, 44u8]);
        assert forall|i: int| 0 <= i < s.len() implies (#[trigger] s[i]) < 128 by {
            if i < bp.len() {
                assert(s[i] == bp[i]);
                assert(crate::numtext::is_digit(bp[i]));
            } else if i < bp.len() + se.len() {
                assert(s[i] == se[i - bp.len()]);
            } else {
                assert(s[i] == seq![124u8, 49u8, 44u8][i - bp.len() - se.len()]);
            }
        }
    }
}

/// The serialized events stay within the ASCII range.
proof fn lemma_ser_events_ascii(events: Seq<LifeBarEvent>)
    ensures
        forall|i: int|
            0 <= i < spec_ser_events(events).len() ==> (#[trigger] spec_ser_events(events)[i])
                < 128,
    decreases events.len(),
{
    if events.len() > 0 {
        lemma_ser_events_ascii(events.drop_last());
        lemma_print_event_ascii(events.last());
        let a = spec_ser_events(events.drop_last());
        let p = spec_print_event(events.last());
        let s = spec_ser_events(events);
        assert forall|i: int| 0 <= i < s.len() implies (#[trigger] s[i]) < 128 by {
            if i < a.len() {
                assert(s[i] == a[i]);
            } else if i == a.len() {
                assert(s[i] == 124u8);
            } else {
                assert(s[i] == p[i - a.len() - 1]);
            }
        }
    }
}

} // verus!
