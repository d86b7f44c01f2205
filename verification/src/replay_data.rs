//! The frame stream: the decompressed text of input events.
//!
//! The text is comma-separated; each record has four pipe-separated fields
//! `w|x|y|z` (time delta, cursor x, cursor y, key bits).  A record whose text
//! starts with the sentinel prefix `-12345|0|0|` carries the session's RNG
//! seed in its fourth field and terminates the stream.  An ordinary record
//! that does not parse is skipped, never fatal; a sentinel record whose seed
//! does not parse is fatal.  Serializing writes every frame, a trailing comma
//! after each, then the sentinel record when a seed is present.

use vstd::prelude::*;

use crate::decimal::spec_parse_decimal;
use crate::decimal::spec_print_decimal;
use crate::decimal::Decimal;
use crate::error::Error;
use crate::numtext::spec_parse_i64;
use crate::numtext::spec_parse_u32;
use crate::numtext::spec_print_int;
use crate::numtext::spec_print_nat;
use crate::split::spec_split;
use crate::split::split_bytes;
use crate::types::Keys;
use crate::types::Long;

verus! {

/// Largest cursor `x` in fixed-point units: 512 whole units.
pub const MAX_X_UNITS: i64 = 5_120_000_000;

/// Largest cursor `y` in fixed-point units: 384 whole units.
pub const MAX_Y_UNITS: i64 = 3_840_000_000;

/// One input sample of the replay.
#[derive(Clone, Copy, Debug, PartialEq, Eq, Structural)]
pub struct ReplayFrame {
    /// Time in milliseconds since the previous frame.
    pub w: Long,
    /// Cursor x, in `[-512, 512]` whole units.
    pub x: Decimal,
    /// Cursor y, in `[-384, 384]` whole units.
    pub y: Decimal,
    /// Keys and mouse buttons held during the sample.
    pub z: Keys,
}

/// The coordinate bounds a frame must satisfy: both closed intervals.
pub open spec fn frame_in_bounds(f: ReplayFrame) -> bool {
    &&& -MAX_X_UNITS <= f.x.units <= MAX_X_UNITS
    &&& -MAX_Y_UNITS <= f.y.units <= MAX_Y_UNITS
}

/// Whether the frame's first three fields would print as the sentinel
/// prefix; such a frame cannot travel as an ordinary record.
pub open spec fn frame_collides_with_sentinel(f: ReplayFrame) -> bool {
    f.w == -12345 && f.x.units == 0 && f.y.units == 0
}

impl ReplayFrame {
    /// Build a frame, rejecting out-of-range coordinates: `x` must lie in
    /// `[-512, 512]` and `y` in `[-384, 384]`, both ends included.
    pub fn new(w: Long, x: Decimal, y: Decimal, z: Keys) -> (r: Result<ReplayFrame, Error>)
        ensures
            ({
                let f = ReplayFrame { w, x, y, z };
                if !(-MAX_X_UNITS <= x.units <= MAX_X_UNITS) {
                    r == Err::<ReplayFrame, Error>(Error::InvalidFrameValueX)
                } else if !(-MAX_Y_UNITS <= y.units <= MAX_Y_UNITS) {
                    r == Err::<ReplayFrame, Error>(Error::InvalidFrameValueY)
                } else {
                    r == Ok::<ReplayFrame, Error>(f) && frame_in_bounds(f)
                }
            }),
    {
        if x.units < -MAX_X_UNITS || x.units > MAX_X_UNITS {
            Err(Error::InvalidFrameValueX)
        } else if y.units < -MAX_Y_UNITS || y.units > MAX_Y_UNITS {
            Err(Error::InvalidFrameValueY)
        } else {
            Ok(ReplayFrame { w, x, y, z })
        }
    }

    /// Mirror the cursor's `y` about the playfield's vertical center.
    fn reverse(&mut self)
        requires
            -MAX_Y_UNITS <= old(self).y.units <= MAX_Y_UNITS,
        ensures
            final(self).w == old(self).w,
            final(self).x == old(self).x,
            final(self).z == old(self).z,
            final(self).y.units == MAX_Y_UNITS - old(self).y.units,
    {
        self.y = Decimal { units: MAX_Y_UNITS - self.y.units };
    }
}

/// The canonical text of one frame: `w|x|y|z`.
pub open spec fn spec_print_frame(f: ReplayFrame) -> Seq<u8> {
    spec_print_int(f.w as int) + seq![124u8] + spec_print_decimal(f.x.units as int) + seq![124u8]
        + spec_print_decimal(f.y.units as int) + seq![124u8] + spec_print_nat(f.z.bits as nat)
}

/// The frame an ordinary record token stands for, if any: four fields, all
/// parsing, coordinates in range, and not the shape the sentinel prefix
/// takes — a token failing any of these is skipped.
pub open spec fn spec_parse_frame_token(t: Seq<u8>) -> Option<ReplayFrame> {
    let fields = spec_split(t, 124);
    if fields.len() == 4 {
        match spec_parse_i64(fields[0]) {
            Some(w) => match spec_parse_decimal(fields[1]) {
                Some(x) => match spec_parse_decimal(fields[2]) {
                    Some(y) => match spec_parse_u32(fields[3]) {
                        Some(z) => {
                            let f = ReplayFrame { w, x, y, z: Keys { bits: z } };
                            if frame_in_bounds(f) && !frame_collides_with_sentinel(f) {
                                Some(f)
                            } else {
                                None
                            }
                        },
                        None => None,
                    },
                    None => None,
                },
                None => None,
            },
            None => None,
        }
    } else {
        None
    }
}

/// The sentinel prefix `-12345|0|0|`.
pub open spec fn sentinel_prefix() -> Seq<u8> {
    seq![45u8, 49u8, 50u8, 51u8, 52u8, 53u8, 124u8, 48u8, 124u8, 48u8, 124u8]
}

/// Whether a token starts with the sentinel prefix.
pub open spec fn spec_is_seed_token(t: Seq<u8>) -> bool {
    t.len() >= 11 && t.take(11) == sentinel_prefix()
}

/// The seed a sentinel token carries: its fourth pipe-separated field.
pub open spec fn spec_seed_of(t: Seq<u8>) -> Option<u32> {
    let fields = spec_split(t, 124);
    if fields.len() >= 4 {
        spec_parse_u32(fields[3])
    } else {
        None
    }
}

/// What a token list decodes to: the frames in order and the seed, stopping
/// at the first sentinel token.
pub open spec fn spec_parse_frames(toks: Seq<Seq<u8>>) -> Result<
    (Seq<ReplayFrame>, Option<u32>),
    Error,
>
    decreases toks.len(),
{
    if toks.len() == 0 {
        Ok((Seq::empty(), None))
    } else if spec_is_seed_token(toks[0]) {
        match spec_seed_of(toks[0]) {
            Some(s) => Ok((Seq::empty(), Some(s))),
            None => Err(Error::FrameParseFailure),
        }
    } else {
        match spec_parse_frames(toks.drop_first()) {
            Ok((fs, sd)) => match spec_parse_frame_token(toks[0]) {
                Some(f) => Ok((seq![f] + fs, sd)),
                None => Ok((fs, sd)),
            },
            Err(e) => Err(e),
        }
    }
}

/// What the whole decompressed text decodes to.
pub open spec fn spec_parse_replay_data(text: Seq<u8>) -> Result<
    (Seq<ReplayFrame>, Option<u32>),
    Error,
> {
    spec_parse_frames(spec_split(text, 44))
}

/// What a token list decodes to under strict parsing: as
/// `spec_parse_frames`, except that a non-empty ordinary token that would
/// be skipped is an error instead.  Empty tokens, which the trailing
/// comma of every record produces, stay harmless.
pub open spec fn spec_parse_frames_strict(toks: Seq<Seq<u8>>) -> Result<
    (Seq<ReplayFrame>, Option<u32>),
    Error,
>
    decreases toks.len(),
{
    if toks.len() == 0 {
        Ok((Seq::empty(), None))
    } else if spec_is_seed_token(toks[0]) {
        match spec_seed_of(toks[0]) {
            Some(s) => Ok((Seq::empty(), Some(s))),
            None => Err(Error::FrameParseFailure),
        }
    } else {
        match spec_parse_frames_strict(toks.drop_first()) {
            Ok((fs, sd)) => if toks[0].len() == 0 {
                Ok((fs, sd))
            } else {
                match spec_parse_frame_token(toks[0]) {
                    Some(f) => Ok((seq![f] + fs, sd)),
                    None => Err(Error::FrameParseFailure),
                }
            },
            Err(e) => Err(e),
        }
    }
}

/// The text of a frame list: each frame followed by a comma.
pub open spec fn spec_ser_frame_list(frames: Seq<ReplayFrame>) -> Seq<u8>
    decreases frames.len(),
{
    if frames.len() == 0 {
        Seq::empty()
    } else {
        spec_ser_frame_list(frames.drop_last()) + spec_print_frame(frames.last()) + seq![44u8]
    }
}

/// The serialized text of frames and seed: the frames, then the sentinel
/// record when a seed is present, nothing when it is absent.
pub open spec fn spec_ser_replay_data(frames: Seq<ReplayFrame>, seed: Option<u32>) -> Seq<u8> {
    spec_ser_frame_list(frames) + match seed {
        Some(s) => sentinel_prefix() + spec_print_nat(s as nat) + seq![44u8],
        None => Seq::<u8>::empty(),
    }
}

/// The decompressed and parsed contents of a replay's frame block.
#[derive(Clone, Debug)]
pub struct ReplayData {
    /// Parsed frames of the replay, in stream order.
    pub frames: Vec<ReplayFrame>,
    /// RNG seed of the session; present only in newer stream revisions,
    /// where the sentinel record carries it.
    pub seed: Option<u32>,
}

impl ReplayData {
    /// An empty frame stream without a seed.
    pub fn new() -> (r: Self)
        ensures
            r.frames@ == Seq::<ReplayFrame>::empty(),
            r.seed is None,
    {
        ReplayData { frames: Vec::new(), seed: None }
    }

    /// Mirror every frame's `y` about the playfield's vertical center, as
    /// the hard-rock modifier does; a pure, order-preserving transform.
    pub fn to_hardrock(&mut self)
        requires
            forall|i: int|
                0 <= i < old(self).frames@.len() ==> -MAX_Y_UNITS <= (
                #[trigger] old(self).frames@[i]).y.units <= MAX_Y_UNITS,
        ensures
            final(self).seed == old(self).seed,
            final(self).frames@.len() == old(self).frames@.len(),
            forall|i: int|
                0 <= i < old(self).frames@.len() ==> {
                    let f = #[trigger] final(self).frames@[i];
                    let g = old(self).frames@[i];
                    f.w == g.w && f.x == g.x && f.z == g.z && f.y.units == MAX_Y_UNITS
                        - g.y.units
                },
    {
        let n = self.frames.len();
        let mut i: usize = 0;
        while i < n
            invariant
                i <= n,
                n == self.frames@.len(),
                self.seed == old(self).seed,
                n == old(self).frames@.len(),
                forall|j: int|
                    0 <= j < n ==> -MAX_Y_UNITS <= (#[trigger] old(self).frames@[j]).y.units
                        <= MAX_Y_UNITS,
                forall|j: int|
                    i <= j < n ==> #[trigger] self.frames@[j] == old(self).frames@[j],
                forall|j: int|
                    0 <= j < i ==> {
                        let f = #[trigger] self.frames@[j];
                        let g = old(self).frames@[j];
                        f.w == g.w && f.x == g.x && f.z == g.z && f.y.units == MAX_Y_UNITS
                            - g.y.units
                    },
            decreases n - i,
        {
            let mut f = self.frames[i];
            f.reverse();
            self.frames.set(i, f);
            i = i + 1;
        }
    }
}

/// Whether `tok` starts with the sentinel prefix.
fn is_seed_token(tok: &Vec<u8>) -> (r: bool)
    ensures
        r == spec_is_seed_token(tok@),
{
    let r = tok.len() >= 11 && tok[0] == 45u8 && tok[1] == 49u8 && tok[2] == 50u8 && tok[3] == 51u8
        && tok[4] == 52u8 && tok[5] == 53u8 && tok[6] == 124u8 && tok[7] == 48u8 && tok[8] == 124u8
        && tok[9] == 48u8 && tok[10] == 124u8;
    proof {
        if tok@.len() >= 11 {
            if r {
                assert(tok@.take(11) =~= sentinel_prefix());
            } else {
                if tok@.take(11) == sentinel_prefix() {
                    assert(tok@[0] == 45u8 && tok@[1] == 49u8 && tok@[2] == 50u8 && tok@[3] == 51u8
                        && tok@[4] == 52u8 && tok@[5] == 53u8 && tok@[6] == 124u8 && tok@[7]
                        == 48u8 && tok@[8] == 124u8 && tok@[9] == 48u8 && tok@[10] == 124u8) by {
                        assert(forall|i: int|
                            0 <= i < 11 ==> tok@[i] == #[trigger] tok@.take(11)[i]);
                    }
                }
            }
        }
    }
    r
}

/// Parse one ordinary record token; `None` means the token is skipped.
fn parse_frame_token(tok: &Vec<u8>) -> (r: Option<ReplayFrame>)
    ensures
        r == spec_parse_frame_token(tok@),
{
    let fields = split_bytes(tok, 124u8);
    proof {
        assert(fields.deep_view() == spec_split(tok@, 124u8));
        assert(fields@.len() == fields.deep_view().len());
    }
    if fields.len() != 4 {
        return None;
    }
    assert(fields@[0]@ == spec_split(tok@, 124u8)[0]);
    assert(fields@[1]@ == spec_split(tok@, 124u8)[1]);
    assert(fields@[2]@ == spec_split(tok@, 124u8)[2]);
    assert(fields@[3]@ == spec_split(tok@, 124u8)[3]);
    let w = match crate::numtext::parse_i64_token(&fields[0]) {
        Some(v) => v,
        None => {
            return None;
        },
    };
    let x = match crate::decimal::parse_decimal_token(&fields[1]) {
        Some(v) => v,
        None => {
            return None;
        },
    };
    let y = match crate::decimal::parse_decimal_token(&fields[2]) {
        Some(v) => v,
        None => {
            return None;
        },
    };
    let z = match crate::numtext::parse_u32_token(&fields[3]) {
        Some(v) => v,
        None => {
            return None;
        },
    };
    let f = ReplayFrame { w, x, y, z: Keys { bits: z } };
    if x.units < -MAX_X_UNITS || x.units > MAX_X_UNITS || y.units < -MAX_Y_UNITS || y.units
        > MAX_Y_UNITS {
        return None;
    }
    if w == -12345i64 && x.units == 0i64 && y.units == 0i64 {
        return None;
    }
    Some(f)
}

/// `r` with the frames of `acc` put before its own.
pub open spec fn prepend_frames(
    acc: Seq<ReplayFrame>,
    r: Result<(Seq<ReplayFrame>, Option<u32>), Error>,
) -> Result<(Seq<ReplayFrame>, Option<u32>), Error> {
    match r {
        Ok((fs, sd)) => Ok((acc + fs, sd)),
        Err(e) => Err(e),
    }
}

impl ReplayData {
    /// Decode the decompressed frame text.
    pub fn from_text(text: &Vec<u8>) -> (r: Result<ReplayData, Error>)
        ensures
            match r {
                Ok(d) => spec_parse_replay_data(text@) == Ok::<_, Error>((d.frames@, d.seed)),
                Err(e) => spec_parse_replay_data(text@) == Err::<
                    (Seq<ReplayFrame>, Option<u32>),
                    _,
                >(e),
            },
    {
        let tokens = split_bytes(text, 44u8);
        let ghost toks = spec_split(text@, 44u8);
        let mut frames: Vec<ReplayFrame> = Vec::new();
        let mut i: usize = 0;
        proof {
            assert(toks.skip(0) =~~= toks);
            assert(frames@ + Seq::<ReplayFrame>::empty() =~= frames@);
        }
        while i < tokens.len()
            invariant
                i <= tokens@.len(),
                tokens.deep_view() == toks,
                toks == spec_split(text@, 44u8),
                tokens@.len() == toks.len(),
                spec_parse_frames(toks) == prepend_frames(
                    frames@,
                    spec_parse_frames(toks.skip(i as int)),
                ),
            decreases tokens@.len() - i,
        {
            let ghost rest = toks.skip(i as int);
            proof {
                assert(rest[0] == toks[i as int]);
                assert(rest.drop_first() =~~= toks.skip(i + 1));
                assert(tokens@[i as int]@ == toks[i as int]);
            }
            let tok = &tokens[i];
            if is_seed_token(tok) {
                let fields = split_bytes(tok, 124u8);
                proof {
                    lemma_seed_token_fields(tok@);
                    assert(fields.deep_view() == spec_split(tok@, 124u8));
                    assert(fields@.len() >= 4);
                    assert(fields@[3]@ == spec_split(tok@, 124u8)[3]);
                }
                match crate::numtext::parse_u32_token(&fields[3]) {
                    Some(sv) => {
                        proof {
                            assert(spec_parse_frames(rest) == Ok::<_, Error>(
                                (Seq::<ReplayFrame>::empty(), Some(sv)),
                            ));
                            assert(frames@ + Seq::<ReplayFrame>::empty() =~= frames@);
                        }
                        return Ok(ReplayData { frames, seed: Some(sv) });
                    },
                    None => {
                        proof {
                            assert(spec_parse_frames(rest) == Err::<
                                (Seq<ReplayFrame>, Option<u32>),
                                _,
                            >(Error::FrameParseFailure));
                        }
                        return Err(Error::FrameParseFailure);
                    },
                }
            }
            match parse_frame_token(tok) {
                Some(f) => {
                    let ghost before = frames@;
                    frames.push(f);
                    proof {
                        match spec_parse_frames(toks.skip(i + 1)) {
                            Ok((fs, sd)) => {
                                assert(before + (seq![f] + fs) =~= frames@ + fs);
                            },
                            Err(_) => {},
                        }
                    }
                },
                None => {},
            }
            i = i + 1;
        }
        proof {
            assert(toks.skip(i as int).len() == 0);
            assert(spec_parse_frames(toks.skip(i as int)) == Ok::<_, Error>(
                (Seq::<ReplayFrame>::empty(), None::<u32>),
            ));
            assert(frames@ + Seq::<ReplayFrame>::empty() =~= frames@);
        }
        Ok(ReplayData { frames, seed: None })
    }
}

impl ReplayData {
    /// Decode the decompressed frame text, rejecting what the lenient
    /// decoder would skip: any non-empty record before the sentinel that
    /// does not parse as a frame is an error.  The lenient policy of
    /// `from_text` matches the wire's best-effort convention; this strict
    /// one is for callers that want malformed records surfaced.
    pub fn from_text_strict(text: &Vec<u8>) -> (r: Result<ReplayData, Error>)
        ensures
            match r {
                Ok(d) => spec_parse_frames_strict(spec_split(text@, 44u8)) == Ok::<_, Error>(
                    (d.frames@, d.seed),
                ),
                Err(e) => spec_parse_frames_strict(spec_split(text@, 44u8)) == Err::<
                    (Seq<ReplayFrame>, Option<u32>),
                    _,
                >(e),
            },
    {
        let tokens = split_bytes(text, 44u8);
        let ghost toks = spec_split(text@, 44u8);
        let mut frames: Vec<ReplayFrame> = Vec::new();
        let mut i: usize = 0;
        proof {
            assert(toks.skip(0) =~~= toks);
            assert(frames@ + Seq::<ReplayFrame>::empty() =~= frames@);
        }
        while i < tokens.len()
            invariant
                i <= tokens@.len(),
                tokens.deep_view() == toks,
                toks == spec_split(text@, 44u8),
                tokens@.len() == toks.len(),
                spec_parse_frames_strict(toks) == prepend_frames(
                    frames@,
                    spec_parse_frames_strict(toks.skip(i as int)),
                ),
            decreases tokens@.len() - i,
        {
            let ghost rest = toks.skip(i as int);
            proof {
                assert(rest[0] == toks[i as int]);
                assert(rest.drop_first() =~~= toks.skip(i + 1));
                assert(tokens@[i as int]@ == toks[i as int]);
            }
            let tok = &tokens[i];
            if is_seed_token(tok) {
                let fields = split_bytes(tok, 124u8);
                proof {
                    lemma_seed_token_fields(tok@);
                    assert(fields.deep_view() == spec_split(tok@, 124u8));
                    assert(fields@.len() >= 4);
                    assert(fields@[3]@ == spec_split(tok@, 124u8)[3]);
                }
                match crate::numtext::parse_u32_token(&fields[3]) {
                    Some(sv) => {
                        proof {
                            assert(spec_parse_frames_strict(rest) == Ok::<_, Error>(
                                (Seq::<ReplayFrame>::empty(), Some(sv)),
                            ));
                            assert(frames@ + Seq::<ReplayFrame>::empty() =~= frames@);
                        }
                        return Ok(ReplayData { frames, seed: Some(sv) });
                    },
                    None => {
                        return Err(Error::FrameParseFailure);
                    },
                }
            }
            if tok.len() > 0 {
                match parse_frame_token(tok) {
                    Some(f) => {
                        let ghost before = frames@;
                        frames.push(f);
                        proof {
                            match spec_parse_frames_strict(toks.skip(i + 1)) {
                                Ok((fs, sd)) => {
                                    assert(before + (seq![f] + fs) =~= frames@ + fs);
                                },
                                Err(_) => {},
                            }
                        }
                    },
                    None => {
                        proof {
                            lemma_strict_err_is_parse_failure(toks.skip(i + 1));
                        }
                        return Err(Error::FrameParseFailure);
                    },
                }
            }
            i = i + 1;
        }
        proof {
            assert(toks.skip(i as int).len() == 0);
            assert(spec_parse_frames_strict(toks.skip(i as int)) == Ok::<_, Error>(
                (Seq::<ReplayFrame>::empty(), None::<u32>),
            ));
            assert(frames@ + Seq::<ReplayFrame>::empty() =~= frames@);
        }
        Ok(ReplayData { frames, seed: None })
    }

    /// Decode a frame-stream string under strict parsing.
    pub fn parse_strict(s: &str) -> (r: Result<ReplayData, Error>)
        ensures
            match r {
                Ok(d) => spec_parse_frames_strict(
                    spec_split(vstd::utf8::encode_utf8(s@), 44u8),
                ) == Ok::<_, Error>((d.frames@, d.seed)),
                Err(e) => spec_parse_frames_strict(
                    spec_split(vstd::utf8::encode_utf8(s@), 44u8),
                ) == Err::<(Seq<ReplayFrame>, Option<u32>), _>(e),
            },
    {
        let bytes = s.as_bytes_vec();
        ReplayData::from_text_strict(&bytes)
    }

    /// Decode a frame-stream string, as it stands after decompression.
    pub fn parse(s: &str) -> (r: Result<ReplayData, Error>)
        ensures
            match r {
                Ok(d) => spec_parse_replay_data(vstd::utf8::encode_utf8(s@)) == Ok::<_, Error>(
                    (d.frames@, d.seed),
                ),
                Err(e) => spec_parse_replay_data(vstd::utf8::encode_utf8(s@)) == Err::<
                    (Seq<ReplayFrame>, Option<u32>),
                    _,
                >(e),
            },
    {
        let bytes = s.as_bytes_vec();
        ReplayData::from_text(&bytes)
    }

    /// The serialized frame text, as raw bytes.
    pub fn to_text(&self) -> (r: Vec<u8>)
        ensures
            r@ == spec_ser_replay_data(self.frames@, self.seed),
    {
        let mut out: Vec<u8> = Vec::new();
        let mut i: usize = 0;
        assert(self.frames@.take(0) =~= Seq::<ReplayFrame>::empty());
        while i < self.frames.len()
            invariant
                i <= self.frames@.len(),
                out@ == spec_ser_frame_list(self.frames@.take(i as int)),
            decreases self.frames@.len() - i,
        {
            push_frame(&self.frames[i], &mut out);
            out.push(44u8);
            proof {
                let t1 = self.frames@.take(i + 1);
                assert(t1.drop_last() =~= self.frames@.take(i as int));
                assert(t1.last() == self.frames@[i as int]);
                assert(out@ =~= spec_ser_frame_list(t1.drop_last()) + spec_print_frame(t1.last())
                    + seq![44u8]);
            }
            i = i + 1;
        }
        assert(self.frames@.take(i as int) =~= self.frames@);
        match self.seed {
            Some(s) => {
                let ghost before = out@;
                out.push(45u8);
                out.push(49u8);
                out.push(50u8);
                out.push(51u8);
                out.push(52u8);
                out.push(53u8);
                out.push(124u8);
                out.push(48u8);
                out.push(124u8);
                out.push(48u8);
                out.push(124u8);
                assert(out@ =~= before + sentinel_prefix());
                crate::numtext::push_decimal_u32(s, &mut out);
                out.push(44u8);
                assert(out@ =~= spec_ser_replay_data(self.frames@, self.seed));
                out
            },
            None => {
                assert(out@ =~= spec_ser_replay_data(self.frames@, self.seed));
                out
            },
        }
    }

    /// The serialized frame text compressed for the wire, as the record
    /// encoder embeds it.  Compression always succeeds; the block is the
    /// compressor's output for the serialized text and inflates back to
    /// that text.
    pub fn to_compressed(&self) -> (r: Result<Vec<u8>, Error>)
        ensures
            r matches Ok(c) && c@ == crate::lzma::lzma_deflate(
                spec_ser_replay_data(self.frames@, self.seed),
            ) && crate::lzma::lzma_inflate(c@) == Some(
                spec_ser_replay_data(self.frames@, self.seed),
            ),
    {
        let text = self.to_text();
        crate::lzma::compress_replay_data(&text)
    }

    /// The serialized frame text, as a string.
    pub fn serialize(&self) -> (r: String)
        ensures
            vstd::utf8::encode_utf8(r@) == spec_ser_replay_data(self.frames@, self.seed),
    {
        let bytes = self.to_text();
        let ghost bv = bytes@;
        proof {
            lemma_ser_replay_data_ascii(self.frames@, self.seed);
            crate::reader::lemma_ascii_bytes_utf8(bv);
        }
        match crate::reader::string_from_utf8(bytes) {
            Ok(s) => {
                proof {
                    vstd::utf8::decode_utf8_encode_utf8(bv);
                }
                s
            },
            Err(_) => vstd::pervasive::unreached(),
        }
    }
}

/// Append the canonical text of one frame.
fn push_frame(f: &ReplayFrame, out: &mut Vec<u8>)
    ensures
        final(out)@ == old(out)@ + spec_print_frame(*f),
{
    crate::numtext::push_decimal_i64(f.w, out);
    out.push(124u8);
    crate::decimal::push_decimal(&f.x, out);
    out.push(124u8);
    crate::decimal::push_decimal(&f.y, out);
    out.push(124u8);
    crate::numtext::push_decimal_u32(f.z.bits, out);
    assert(out@ =~= old(out)@ + spec_print_frame(*f));
}

/// The canonical text of one frame stays within the ASCII range.
proof fn lemma_print_frame_ascii(f: ReplayFrame)
    ensures
        forall|i: int|
            0 <= i < spec_print_frame(f).len() ==> (#[trigger] spec_print_frame(f)[i]) < 128,
{
    let pw = spec_print_int(f.w as int);
    let px = spec_print_decimal(f.x.units as int);
    let py = spec_print_decimal(f.y.units as int);
    let pz = spec_print_nat(f.z.bits as nat);
    crate::numtext::lemma_print_nat(f.z.bits as nat);
    lemma_print_int_ascii(f.w as int);
    crate::decimal::lemma_print_decimal_bytes(f.x.units as int);
    crate::decimal::lemma_print_decimal_bytes(f.y.units as int);
    let s = spec_print_frame(f);
    assert(s == pw + seq![124u8] + px + seq![124u8] + py + seq![124u8] + pz);
    assert forall|i: int| 0 <= i < s.len() implies (#[trigger] s[i]) < 128 by {
        let a = pw.len() as int;
        let b = a + 1 + px.len();
        let c = b + 1 + py.len();
        if i < a {
            assert(s[i] == pw[i]);
        } else if i == a {
            assert(s[i] == 124u8);
        } else if i < b {
            assert(s[i] == px[i - a - 1]);
            assert(crate::numtext::is_digit(px[i - a - 1]) || px[i - a - 1] == 45u8 || px[i - a
                - 1] == 46u8);
        } else if i == b {
            assert(s[i] == 124u8);
        } else if i < c {
            assert(s[i] == py[i - b - 1]);
            assert(crate::numtext::is_digit(py[i - b - 1]) || py[i - b - 1] == 45u8 || py[i - b
                - 1] == 46u8);
        } else if i == c {
            assert(s[i] == 124u8);
        } else {
            assert(s[i] == pz[i - c - 1]);
            assert(crate::numtext::is_digit(pz[i - c - 1]));
        }
    }
}

/// Canonical signed text stays within the ASCII range.
proof fn lemma_print_int_ascii(n: int)
    ensures
        forall|i: int|
            0 <= i < spec_print_int(n).len() ==> (#[trigger] spec_print_int(n)[i]) < 128,
{
    let s = spec_print_int(n);
    if n >= 0 {
        crate::numtext::lemma_print_nat(n as nat);
    } else {
        crate::numtext::lemma_print_nat((-n) as nat);
        assert forall|i: int| 0 <= i < s.len() implies (#[trigger] s[i]) < 128 by {
            if i > 0 {
                assert(s[i] == spec_print_nat((-n) as nat)[i - 1]);
            }
        }
    }
}

/// The whole serialized frame text stays within the ASCII range.
pub proof fn lemma_ser_replay_data_ascii(frames: Seq<ReplayFrame>, seed: Option<u32>)
    ensures
        forall|i: int|
            0 <= i < spec_ser_replay_data(frames, seed).len() ==> (
            #[trigger] spec_ser_replay_data(frames, seed)[i]) < 128,
{
    lemma_ser_frame_list_ascii(frames);
    let s = spec_ser_replay_data(frames, seed);
    let fl = spec_ser_frame_list(frames);
    match seed {
        Some(v) => {
            crate::numtext::lemma_print_nat(v as nat);
            let pn = spec_print_nat(v as nat);
            assert(s == fl + (sentinel_prefix() + pn + seq![44u8]));
            assert forall|i: int| 0 <= i < s.len() implies (#[trigger] s[i]) < 128 by {
                let a = fl.len() as int;
                let b = a + 11;
                let c = b + pn.len();
                if i < a {
                    assert(s[i] == fl[i]);
                } else if i < b {
                    assert(s[i] == sentinel_prefix()[i - a]);
                } else if i < c {
                    assert(s[i] == pn[i - b]);
                } else {
                    assert(s[i] == 44u8);
                }
            }
        },
        None => {
            assert(s =~= fl);
        },
    }
}

/// The serialized frame list stays within the ASCII range.
proof fn lemma_ser_frame_list_ascii(frames: Seq<ReplayFrame>)
    ensures
        forall|i: int|
            0 <= i < spec_ser_frame_list(frames).len() ==> (
            #[trigger] spec_ser_frame_list(frames)[i]) < 128,
    decreases frames.len(),
{
    if frames.len() > 0 {
        lemma_ser_frame_list_ascii(frames.drop_last());
        lemma_print_frame_ascii(frames.last());
        let s = spec_ser_frame_list(frames);
        let a = spec_ser_frame_list(frames.drop_last());
        let p = spec_print_frame(frames.last());
        assert forall|i: int| 0 <= i < s.len() implies (#[trigger] s[i]) < 128 by {
            if i < a.len() {
                assert(s[i] == a[i]);
            } else if i < a.len() + p.len() {
                assert(s[i] == p[i - a.len()]);
            } else {
                assert(s[i] == 44u8);
            }
        }
    }
}

/// The canonical text of a frame list, peeled from the front instead.
proof fn lemma_ser_frame_list_head(frames: Seq<ReplayFrame>)
    requires
        frames.len() > 0,
    ensures
        spec_ser_frame_list(frames) == spec_print_frame(frames[0]) + seq![44u8]
            + spec_ser_frame_list(frames.drop_first()),
    decreases frames.len(),
{
    if frames.len() == 1 {
        assert(frames.drop_last() =~= Seq::<ReplayFrame>::empty());
        assert(frames.drop_first() =~= Seq::<ReplayFrame>::empty());
        assert(frames.last() == frames[0]);
        assert(spec_ser_frame_list(frames) =~= spec_print_frame(frames[0]) + seq![44u8]
            + spec_ser_frame_list(frames.drop_first()));
    } else {
        let dl = frames.drop_last();
        lemma_ser_frame_list_head(dl);
        assert(dl[0] == frames[0]);
        assert(dl.drop_first() =~= frames.drop_first().drop_last());
        assert(frames.drop_first().last() == frames.last());
        assert(spec_ser_frame_list(frames.drop_first()) == spec_ser_frame_list(
            frames.drop_first().drop_last(),
        ) + spec_print_frame(frames.last()) + seq![44u8]);
        assert(spec_ser_frame_list(frames) =~= spec_print_frame(frames[0]) + seq![44u8]
            + spec_ser_frame_list(frames.drop_first()));
    }
}

/// The canonical text of one frame holds no comma.
proof fn lemma_print_frame_no_comma(f: ReplayFrame)
    ensures
        !spec_print_frame(f).contains(44u8),
{
    let pw = spec_print_int(f.w as int);
    let px = spec_print_decimal(f.x.units as int);
    let py = spec_print_decimal(f.y.units as int);
    let pz = spec_print_nat(f.z.bits as nat);
    crate::numtext::lemma_print_int_no_byte(f.w as int, 44u8);
    crate::decimal::lemma_print_decimal_no_byte(f.x.units as int, 44u8);
    crate::decimal::lemma_print_decimal_no_byte(f.y.units as int, 44u8);
    crate::numtext::lemma_print_nat_no_byte(f.z.bits as nat, 44u8);
    let pipe: Seq<u8> = seq![124u8];
    assert(!pipe.contains(44u8));
    crate::split::lemma_concat_not_contains(pw, pipe, 44u8);
    crate::split::lemma_concat_not_contains(pw + pipe, px, 44u8);
    crate::split::lemma_concat_not_contains(pw + pipe + px, pipe, 44u8);
    crate::split::lemma_concat_not_contains(pw + pipe + px + pipe, py, 44u8);
    crate::split::lemma_concat_not_contains(pw + pipe + px + pipe + py, pipe, 44u8);
    crate::split::lemma_concat_not_contains(pw + pipe + px + pipe + py + pipe, pz, 44u8);
}

/// The canonical text of one in-range, non-colliding frame splits into its
/// four fields, parses back to the same frame, and is no sentinel token.
proof fn lemma_frame_token_round_trip(f: ReplayFrame)
    requires
        frame_in_bounds(f),
        !frame_collides_with_sentinel(f),
    ensures
        spec_parse_frame_token(spec_print_frame(f)) == Some(f),
        !spec_is_seed_token(spec_print_frame(f)),
{
    let d = 124u8;
    let pw = spec_print_int(f.w as int);
    let px = spec_print_decimal(f.x.units as int);
    let py = spec_print_decimal(f.y.units as int);
    let pz = spec_print_nat(f.z.bits as nat);
    let t = spec_print_frame(f);
    crate::numtext::lemma_print_int_no_byte(f.w as int, d);
    crate::decimal::lemma_print_decimal_no_byte(f.x.units as int, d);
    crate::decimal::lemma_print_decimal_no_byte(f.y.units as int, d);
    crate::numtext::lemma_print_nat_no_byte(f.z.bits as nat, d);
    assert(t =~= pw + seq![d] + (px + seq![d] + (py + seq![d] + pz)));
    crate::split::lemma_split_append(pw, d, px + seq![d] + (py + seq![d] + pz));
    crate::split::lemma_split_append(px, d, py + seq![d] + pz);
    crate::split::lemma_split_append(py, d, pz);
    crate::split::lemma_split_no_delim(pz, d);
    let fields = spec_split(t, d);
    assert(fields == seq![pw] + (seq![px] + (seq![py] + seq![pz])));
    assert(fields.len() == 4);
    assert(fields[0] == pw && fields[1] == px && fields[2] == py && fields[3] == pz);
    crate::numtext::lemma_print_parse_i64(f.w);
    crate::decimal::lemma_decimal_print_parse(f.x);
    crate::decimal::lemma_decimal_print_parse(f.y);
    crate::numtext::lemma_print_parse_u32(f.z.bits);
    assert(spec_parse_frame_token(t) == Some(f));
    // Were it a sentinel token, the frame's values would be the sentinel's.
    if spec_is_seed_token(t) {
        let p = sentinel_prefix();
        assert(forall|i: int| 0 <= i < 11 ==> t[i] == #[trigger] p[i]) by {
            assert(forall|i: int| 0 <= i < 11 ==> t.take(11)[i] == #[trigger] p[i]);
        }
        crate::numtext::lemma_print_nat(if f.w as int >= 0 {
            f.w as nat
        } else {
            (-(f.w as int)) as nat
        });
        // The first pipe of the text sits at the length of the first field,
        // the prefix's first pipe at index six: the fields must line up.
        if pw.len() < 6 {
            assert(t[pw.len() as int] == d);
            assert(crate::numtext::is_digit(p[pw.len() as int]) || p[pw.len() as int] == 45u8);
        } else if pw.len() > 6 {
            assert(t[6] == pw[6]);
            assert(pw.contains(d)) by {
                if pw[6] != d {
                }
            }
        } else {
            assert(pw =~= seq![45u8, 49u8, 50u8, 51u8, 52u8, 53u8]) by {
                assert(forall|i: int| 0 <= i < 6 ==> pw[i] == #[trigger] t[i]);
            }
            lemma_minus_12345_text(f.w);
            // x prints as the single digit zero.
            assert(t[7] == px[0]);
            assert(t[8] == if px.len() == 1 {
                d
            } else {
                px[1]
            });
            crate::decimal::lemma_print_decimal_no_byte(f.x.units as int, d);
            assert(px.len() >= 1) by {
                crate::numtext::lemma_print_nat(dec_mag(f.x.units as int) / 10_000_000);
            }
            if px.len() > 1 {
                assert(px.contains(d)) by {
                    assert(px[1] == t[8]);
                }
            }
            assert(px =~= seq![48u8]);
            lemma_zero_decimal_text(f.x);
            assert(t[9] == py[0]);
            if py.len() > 1 {
                assert(py.contains(d)) by {
                    assert(py[1] == t[10]);
                }
            }
            assert(py =~= seq![48u8]);
            lemma_zero_decimal_text(f.y);
            assert(frame_collides_with_sentinel(f));
        }
    }
}

/// The magnitude a signed value prints.
spec fn dec_mag(units: int) -> nat {
    if units >= 0 {
        units as nat
    } else {
        (-units) as nat
    }
}

/// Only -12345 prints as the six bytes `-12345`.
proof fn lemma_minus_12345_text(w: i64)
    requires
        spec_print_int(w as int) == seq![45u8, 49u8, 50u8, 51u8, 52u8, 53u8],
    ensures
        w == -12345,
{
    crate::numtext::lemma_print_parse_i64(w);
    let s: Seq<u8> = seq![45u8, 49u8, 50u8, 51u8, 52u8, 53u8];
    let m5: Seq<u8> = seq![49u8, 50u8, 51u8, 52u8, 53u8];
    let m4: Seq<u8> = seq![49u8, 50u8, 51u8, 52u8];
    let m3: Seq<u8> = seq![49u8, 50u8, 51u8];
    let m2: Seq<u8> = seq![49u8, 50u8];
    let m1: Seq<u8> = seq![49u8];
    assert(s.skip(1) =~= m5);
    assert(crate::numtext::all_digits(m5));
    assert(crate::numtext::digits_val(Seq::<u8>::empty()) == 0);
    assert(m1.drop_last() =~= Seq::<u8>::empty());
    assert(crate::numtext::digits_val(m1) == 1);
    assert(m2.drop_last() =~= m1);
    assert(crate::numtext::digits_val(m2) == 12);
    assert(m3.drop_last() =~= m2);
    assert(crate::numtext::digits_val(m3) == 123);
    assert(m4.drop_last() =~= m3);
    assert(crate::numtext::digits_val(m4) == 1234);
    assert(m5.drop_last() =~= m4);
    assert(crate::numtext::digits_val(m5) == 12345);
    assert(crate::numtext::spec_parse_i64(s) == Some(-12345i64));
}

/// Only zero prints as the single byte `0`.
proof fn lemma_zero_decimal_text(x: Decimal)
    requires
        spec_print_decimal(x.units as int) == seq![48u8],
    ensures
        x.units == 0,
{
    crate::decimal::lemma_decimal_print_parse(x);
    let s: Seq<u8> = seq![48u8];
    assert(s.drop_first() =~= Seq::<u8>::empty());
    assert(crate::decimal::first_dot(Seq::<u8>::empty()) == 0);
    assert(crate::decimal::first_dot(s) == 1);
    assert(s.take(1) =~= s);
    assert(s.skip(1) =~= Seq::<u8>::empty());
    assert(crate::numtext::all_digits(s));
    assert(s.drop_last() =~= Seq::<u8>::empty());
    assert(crate::numtext::digits_val(Seq::<u8>::empty()) == 0);
    assert(crate::numtext::digits_val(s) == 0);
    assert(crate::decimal::spec_token_units(s, Seq::<u8>::empty()) == 0) by {
        assert(crate::numtext::digits_val(Seq::<u8>::empty()) * crate::decimal::pow10(7) == 0)
            by (nonlinear_arith);
    }
    assert(crate::decimal::spec_parse_decimal(s) == Some(Decimal { units: 0i64 }));
}

/// Decoding the serialized text of any well-formed frame list and seed
/// yields the frames and the seed unchanged: frames in range whose values
/// do not collide with the sentinel survive the round trip exactly, and
/// the seed's presence or absence is preserved.
#[verifier::rlimit(100)]
pub proof fn lemma_replay_data_round_trip(frames: Seq<ReplayFrame>, seed: Option<u32>)
    requires
        forall|i: int| 0 <= i < frames.len() ==> frame_in_bounds(#[trigger] frames[i]),
        forall|i: int|
            0 <= i < frames.len() ==> !frame_collides_with_sentinel(#[trigger] frames[i]),
    ensures
        spec_parse_replay_data(spec_ser_replay_data(frames, seed)) == Ok::<_, Error>(
            (frames, seed),
        ),
    decreases frames.len(),
{
    let text = spec_ser_replay_data(frames, seed);
    if frames.len() == 0 {
        assert(frames =~= Seq::<ReplayFrame>::empty());
        match seed {
            None => {
                assert(text =~= Seq::<u8>::empty());
                let toks = spec_split(text, 44u8);
                assert(toks =~~= seq![Seq::<u8>::empty()]);
                assert(!spec_is_seed_token(toks[0]));
                assert(toks.drop_first() =~~= Seq::<Seq<u8>>::empty());
                assert(spec_split(toks[0], 124u8) =~~= seq![Seq::<u8>::empty()]);
                assert(spec_parse_frame_token(toks[0]) is None);
                assert(spec_parse_frames(Seq::<Seq<u8>>::empty()) == Ok::<_, Error>(
                    (Seq::<ReplayFrame>::empty(), None::<u32>),
                ));
                assert(spec_parse_frames(toks) == Ok::<_, Error>(
                    (Seq::<ReplayFrame>::empty(), None::<u32>),
                ));
            },
            Some(v) => {
                let pn = spec_print_nat(v as nat);
                let t0 = sentinel_prefix() + pn;
                assert(text =~= t0 + seq![44u8] + Seq::<u8>::empty());
                crate::numtext::lemma_print_nat(v as nat);
                crate::numtext::lemma_print_nat_no_byte(v as nat, 44u8);
                assert(!t0.contains(44u8)) by {
                    assert(!sentinel_prefix().contains(44u8)) by {
                        if sentinel_prefix().contains(44u8) {
                            let i = choose|i: int|
                                0 <= i < 11 && sentinel_prefix()[i] == 44u8;
                        }
                    }
                    crate::split::lemma_concat_not_contains(sentinel_prefix(), pn, 44u8);
                }
                crate::split::lemma_split_append(t0, 44u8, Seq::<u8>::empty());
                let toks = spec_split(text, 44u8);
                assert(toks == seq![t0] + spec_split(Seq::<u8>::empty(), 44u8));
                assert(toks[0] == t0);
                assert(spec_is_seed_token(t0)) by {
                    assert(t0.take(11) =~= sentinel_prefix());
                }
                assert(t0.skip(11) =~= pn);
                lemma_seed_token_fields(t0);
                crate::numtext::lemma_print_nat_no_byte(v as nat, 124u8);
                crate::split::lemma_split_no_delim(pn, 124u8);
                assert(spec_seed_of(t0) == crate::numtext::spec_parse_u32(pn));
                crate::numtext::lemma_print_parse_u32(v);
                assert(spec_parse_frames(toks) == Ok::<_, Error>(
                    (Seq::<ReplayFrame>::empty(), Some(v)),
                ));
            },
        }
    } else {
        let f0 = frames[0];
        let rest = frames.drop_first();
        lemma_replay_data_round_trip(rest, seed);
        lemma_ser_frame_list_head(frames);
        let rest_text = spec_ser_replay_data(rest, seed);
        assert(text =~= spec_print_frame(f0) + seq![44u8] + rest_text);
        lemma_print_frame_no_comma(f0);
        crate::split::lemma_split_append(spec_print_frame(f0), 44u8, rest_text);
        let toks = spec_split(text, 44u8);
        assert(toks == seq![spec_print_frame(f0)] + spec_split(rest_text, 44u8));
        lemma_frame_token_round_trip(f0);
        assert(toks[0] == spec_print_frame(f0));
        assert(toks.drop_first() =~~= spec_split(rest_text, 44u8));
        assert(spec_parse_frames(toks.drop_first()) == Ok::<_, Error>((rest, seed)));
        assert(seq![f0] + rest =~= frames);
        assert(spec_parse_frames(toks) == Ok::<_, Error>((frames, seed)));
    }
}

/// The only error strict parsing reports is the parse failure itself.
proof fn lemma_strict_err_is_parse_failure(toks: Seq<Seq<u8>>)
    ensures
        spec_parse_frames_strict(toks) is Err ==> spec_parse_frames_strict(toks) == Err::<
            (Seq<ReplayFrame>, Option<u32>),
            Error,
        >(Error::FrameParseFailure),
    decreases toks.len(),
{
    if toks.len() > 0 && !spec_is_seed_token(toks[0]) {
        lemma_strict_err_is_parse_failure(toks.drop_first());
    }
}

/// Every frame a token list decodes to is in range and clear of the
/// sentinel's values: the parser admits no other.
pub proof fn lemma_parse_frames_wf(toks: Seq<Seq<u8>>)
    ensures
        match spec_parse_frames(toks) {
            Ok((fs, sd)) => forall|i: int|
                0 <= i < fs.len() ==> frame_in_bounds(#[trigger] fs[i])
                    && !frame_collides_with_sentinel(fs[i]),
            Err(_) => true,
        },
    decreases toks.len(),
{
    if toks.len() == 0 {
    } else if spec_is_seed_token(toks[0]) {
    } else {
        lemma_parse_frames_wf(toks.drop_first());
        match spec_parse_frames(toks.drop_first()) {
            Ok((fs, sd)) => {
                match spec_parse_frame_token(toks[0]) {
                    Some(f) => {
                        assert(frame_in_bounds(f) && !frame_collides_with_sentinel(f));
                        assert forall|i: int| 0 <= i < (seq![f] + fs).len() implies frame_in_bounds(
                            #[trigger] (seq![f] + fs)[i],
                        ) && !frame_collides_with_sentinel((seq![f] + fs)[i]) by {
                            if i > 0 {
                                assert((seq![f] + fs)[i] == fs[i - 1]);
                            }
                        }
                    },
                    None => {},
                }
            },
            Err(_) => {},
        }
    }
}

/// A sentinel token splits into at least four fields, the fourth being
/// whatever follows the prefix up to the next pipe.
proof fn lemma_seed_token_fields(t: Seq<u8>)
    requires
        spec_is_seed_token(t),
    ensures
        spec_split(t, 124u8).len() >= 4,
        spec_split(t, 124u8)[3] == spec_split(t.skip(11), 124u8)[0],
{
    let d = 124u8;
    let rest = t.skip(11);
    let p1: Seq<u8> = seq![45u8, 49u8, 50u8, 51u8, 52u8, 53u8];
    let p2: Seq<u8> = seq![48u8];
    assert(t =~= p1 + seq![d] + (p2 + seq![d] + (p2 + seq![d] + rest)));
    assert(!p1.contains(d));
    assert(!p2.contains(d));
    crate::split::lemma_split_append(p1, d, p2 + seq![d] + (p2 + seq![d] + rest));
    crate::split::lemma_split_append(p2, d, p2 + seq![d] + rest);
    crate::split::lemma_split_append(p2, d, rest);
    crate::split::lemma_split_len(rest, d);
    assert(spec_split(t, d) == seq![p1] + (seq![p2] + (seq![p2] + spec_split(rest, d))));
    assert(spec_split(t, d)[3] == spec_split(rest, d)[0]);
}

} // verus!
