//! The replay record and its end-to-end codec.
//!
//! Decode reads the fixed field order off one byte cursor: game mode,
//! game version, three hashes, six hit counts, total score, combo,
//! full-combo flag, modifiers, life bar, play date (ticks), the
//! length-prefixed compressed frame block, and the online score id.  The
//! first malformed field is fatal; no partial record is returned.  Encode
//! writes the mirror sequence.

use vstd::prelude::*;

use crate::error::Error;
use crate::lzma::lzma_inflate;
use crate::reader::opt_string_view;
use crate::reader::spec_write_string;
use crate::reader::stake_bytes;
use crate::reader::stake_string;
use crate::reader::stake_u16;
use crate::reader::stake_u32;
use crate::reader::stake_u64;
use crate::reader::stake_u8;
use crate::replay_data::frame_collides_with_sentinel;
use crate::replay_data::frame_in_bounds;
use crate::replay_data::spec_parse_replay_data;
use crate::replay_data::spec_ser_replay_data;
use crate::replay_data::ReplayData;
use crate::replay_data::ReplayFrame;
use crate::timeconv::spec_secs_in_tick_range;
use crate::timeconv::spec_secs_to_ticks;
use crate::timeconv::spec_ticks_to_secs;
use crate::types::Gamemode;
use crate::types::Integer;
use crate::types::Mods;
use crate::types::Short;

verus! {

/// Structure of a replay containing parsed values.
///
/// A string field is `None` when the wire holds the absence marker and
/// `Some` otherwise; an absent string and an empty present one are
/// distinct on the wire and stay distinct here.
#[derive(Clone, Debug)]
pub struct Replay {
    /// Game mode of the replay.
    pub gamemode: Gamemode,
    /// Version of the game when the replay was created.
    pub game_version: Integer,
    /// Beatmap MD5 hash.
    pub map_hash: Option<String>,
    pub player_name: Option<String>,
    /// Replay MD5 hash.
    pub replay_hash: Option<String>,
    pub number_300s: Short,
    pub number_100s: Short,
    pub number_50s: Short,
    pub number_gekis: Short,
    pub number_katus: Short,
    pub number_misses: Short,
    /// Total score displayed on the score report.
    pub total_score: Integer,
    /// Greatest combo displayed on the score report.
    pub greatest_combo: Short,
    /// Whether the score is a perfect/full combo.
    pub is_full_combo: bool,
    /// Modifier bits used, kept verbatim.
    pub mods: Mods,
    /// Life bar graph, raw; see the life-bar codec for its shape.
    pub life_bar_graph: Option<String>,
    /// When the session was played, as Unix seconds.
    pub play_date: i64,
    /// Decompressed and parsed frame stream.
    pub replay_data: ReplayData,
    /// Online score id.
    pub score_id: u64,
}

/// The mathematical shape of a replay record.
pub ghost struct ReplayView {
    pub gamemode: Gamemode,
    pub game_version: u32,
    pub map_hash: Option<Seq<char>>,
    pub player_name: Option<Seq<char>>,
    pub replay_hash: Option<Seq<char>>,
    pub number_300s: u16,
    pub number_100s: u16,
    pub number_50s: u16,
    pub number_gekis: u16,
    pub number_katus: u16,
    pub number_misses: u16,
    pub total_score: u32,
    pub greatest_combo: u16,
    pub is_full_combo: bool,
    pub mods: Mods,
    pub life_bar_graph: Option<Seq<char>>,
    pub play_date: i64,
    pub frames: Seq<ReplayFrame>,
    pub seed: Option<u32>,
    pub score_id: u64,
}

impl View for Replay {
    type V = ReplayView;

    open spec fn view(&self) -> ReplayView {
        ReplayView {
            gamemode: self.gamemode,
            game_version: self.game_version,
            map_hash: opt_string_view(self.map_hash),
            player_name: opt_string_view(self.player_name),
            replay_hash: opt_string_view(self.replay_hash),
            number_300s: self.number_300s,
            number_100s: self.number_100s,
            number_50s: self.number_50s,
            number_gekis: self.number_gekis,
            number_katus: self.number_katus,
            number_misses: self.number_misses,
            total_score: self.total_score,
            greatest_combo: self.greatest_combo,
            is_full_combo: self.is_full_combo,
            mods: self.mods,
            life_bar_graph: opt_string_view(self.life_bar_graph),
            play_date: self.play_date,
            frames: self.replay_data.frames@,
            seed: self.replay_data.seed,
            score_id: self.score_id,
        }
    }
}

/// Whether an optional string fits its one-byte wire length.
pub open spec fn opt_fits_byte(s: Option<Seq<char>>) -> bool {
    match s {
        Some(cs) => vstd::utf8::encode_utf8(cs).len() <= 255,
        None => true,
    }
}

impl ReplayView {
    /// Whether every string fits its length byte.
    pub open spec fn strings_fit(self) -> bool {
        &&& opt_fits_byte(self.map_hash)
        &&& opt_fits_byte(self.player_name)
        &&& opt_fits_byte(self.replay_hash)
        &&& opt_fits_byte(self.life_bar_graph)
    }

    /// A well-formed record: strings fit their length byte, the play date
    /// is representable as 64-bit ticks, and every frame is in range and
    /// clear of the sentinel's values.
    pub open spec fn wf(self) -> bool {
        &&& self.strings_fit()
        &&& spec_secs_in_tick_range(self.play_date as int)
        &&& forall|i: int| 0 <= i < self.frames.len() ==> frame_in_bounds(#[trigger] self.frames[i])
        &&& forall|i: int|
            0 <= i < self.frames.len() ==> !frame_collides_with_sentinel(#[trigger] self.frames[i])
    }
}

/// The game-mode byte off the front of `b`.
pub open spec fn stake_mode(b: Seq<u8>) -> Result<(Gamemode, Seq<u8>), Error> {
    match stake_u8(b) {
        Ok((v, rest)) => match Gamemode::spec_from_byte(v) {
            Ok(g) => Ok((g, rest)),
            Err(e) => Err(e),
        },
        Err(e) => Err(e),
    }
}

/// The full-combo byte off the front of `b`: exactly 0x00 or 0x01.
pub open spec fn stake_full_combo(b: Seq<u8>) -> Result<(bool, Seq<u8>), Error> {
    match stake_u8(b) {
        Ok((v, rest)) => if v == 0u8 {
            Ok((false, rest))
        } else if v == 1u8 {
            Ok((true, rest))
        } else {
            Err(Error::InvalidFullComboByte)
        },
        Err(e) => Err(e),
    }
}

/// The six hit counts off the front of `b`.
pub open spec fn stake_counts(b: Seq<u8>) -> Result<
    ((u16, u16, u16, u16, u16, u16), Seq<u8>),
    Error,
> {
    match stake_u16(b) {
        Ok((n300, b1)) => match stake_u16(b1) {
            Ok((n100, b2)) => match stake_u16(b2) {
                Ok((n50, b3)) => match stake_u16(b3) {
                    Ok((ngeki, b4)) => match stake_u16(b4) {
                        Ok((nkatu, b5)) => match stake_u16(b5) {
                            Ok((nmiss, b6)) => Ok(((n300, n100, n50, ngeki, nkatu, nmiss), b6)),
                            Err(e) => Err(e),
                        },
                        Err(e) => Err(e),
                    },
                    Err(e) => Err(e),
                },
                Err(e) => Err(e),
            },
            Err(e) => Err(e),
        },
        Err(e) => Err(e),
    }
}

/// What the buffer decodes to, with the decompressor abstracted: `inflate`
/// answers for the extracted block.  The fixed field order is read off the
/// front; the first malformed field decides the error.
pub open spec fn spec_decode_given(
    bytes: Seq<u8>,
    inflate: spec_fn(Seq<u8>) -> Option<Seq<u8>>,
) -> Result<ReplayView, Error> {
    match stake_mode(bytes) {
        Err(e) => Err(e),
        Ok((gamemode, b1)) => match stake_u32(b1) {
            Err(e) => Err(e),
            Ok((game_version, b2)) => match stake_string(b2) {
                Err(e) => Err(e),
                Ok((map_hash, b3)) => match stake_string(b3) {
                    Err(e) => Err(e),
                    Ok((player_name, b4)) => match stake_string(b4) {
                        Err(e) => Err(e),
                        Ok((replay_hash, b5)) => match stake_counts(b5) {
                            Err(e) => Err(e),
                            Ok((counts, b6)) => match stake_u32(b6) {
                                Err(e) => Err(e),
                                Ok((total_score, b7)) => match stake_u16(b7) {
                                    Err(e) => Err(e),
                                    Ok((greatest_combo, b8)) => match stake_full_combo(b8) {
                                        Err(e) => Err(e),
                                        Ok((is_full_combo, b9)) => match stake_u32(b9) {
                                            Err(e) => Err(e),
                                            Ok((mods, b10)) => match stake_string(b10) {
                                                Err(e) => Err(e),
                                                Ok((life_bar_graph, b11)) => spec_decode_tail(
                                                    ReplayView {
                                                        gamemode,
                                                        game_version,
                                                        map_hash,
                                                        player_name,
                                                        replay_hash,
                                                        number_300s: counts.0,
                                                        number_100s: counts.1,
                                                        number_50s: counts.2,
                                                        number_gekis: counts.3,
                                                        number_katus: counts.4,
                                                        number_misses: counts.5,
                                                        total_score,
                                                        greatest_combo,
                                                        is_full_combo,
                                                        mods: Mods { bits: mods },
                                                        life_bar_graph,
                                                        play_date: 0,
                                                        frames: Seq::empty(),
                                                        seed: None,
                                                        score_id: 0,
                                                    },
                                                    b11,
                                                    inflate,
                                                ),
                                            },
                                        },
                                    },
                                },
                            },
                        },
                    },
                },
            },
        },
    }
}

/// The tail of the decode: play date, compressed block, frames, score id.
pub open spec fn spec_decode_tail(
    head: ReplayView,
    b: Seq<u8>,
    inflate: spec_fn(Seq<u8>) -> Option<Seq<u8>>,
) -> Result<ReplayView, Error> {
    match stake_u64(b) {
        Err(e) => Err(e),
        Ok((ticks, b12)) => match stake_u32(b12) {
            Err(e) => Err(e),
            Ok((block_len, b13)) => match stake_bytes(b13, block_len as int) {
                Err(e) => Err(e),
                Ok((block, b14)) => match inflate(block) {
                    None => Err(Error::DecompressionFailure),
                    Some(text) => match spec_parse_replay_data(text) {
                        Err(e) => Err(e),
                        Ok((frames, seed)) => match stake_u64(b14) {
                            Err(e) => Err(e),
                            Ok((score_id, _b15)) => Ok(
                                ReplayView {
                                    play_date: spec_ticks_to_secs(ticks) as i64,
                                    frames,
                                    seed,
                                    score_id,
                                    ..head
                                },
                            ),
                        },
                    },
                },
            },
        },
    }
}

/// What the buffer decodes to with the real decompressor answering.
pub open spec fn spec_decode(bytes: Seq<u8>) -> Result<ReplayView, Error> {
    spec_decode_given(bytes, (|b: Seq<u8>| lzma_inflate(b)))
}

/// The encoded bytes of the fields before the play date.
pub open spec fn spec_encode_head(r: ReplayView) -> Seq<u8>
    recommends
        r.strings_fit(),
{
    seq![r.gamemode.spec_byte()] + vstd::bytes::spec_u32_to_le_bytes(r.game_version)
        + spec_write_string(r.map_hash) + spec_write_string(r.player_name) + spec_write_string(
        r.replay_hash,
    ) + vstd::bytes::spec_u16_to_le_bytes(r.number_300s) + vstd::bytes::spec_u16_to_le_bytes(
        r.number_100s,
    ) + vstd::bytes::spec_u16_to_le_bytes(r.number_50s) + vstd::bytes::spec_u16_to_le_bytes(
        r.number_gekis,
    ) + vstd::bytes::spec_u16_to_le_bytes(r.number_katus) + vstd::bytes::spec_u16_to_le_bytes(
        r.number_misses,
    ) + vstd::bytes::spec_u32_to_le_bytes(r.total_score) + vstd::bytes::spec_u16_to_le_bytes(
        r.greatest_combo,
    ) + seq![
        if r.is_full_combo {
            1u8
        } else {
            0u8
        },
    ] + vstd::bytes::spec_u32_to_le_bytes(r.mods.bits) + spec_write_string(r.life_bar_graph)
}

/// The encoded bytes of the play date, the compressed block with its
/// length prefix, and the score id.
pub open spec fn spec_encode_tail(r: ReplayView, block: Seq<u8>) -> Seq<u8>
    recommends
        spec_secs_in_tick_range(r.play_date as int),
        block.len() <= u32::MAX,
{
    vstd::bytes::spec_u64_to_le_bytes(spec_secs_to_ticks(r.play_date as int) as u64)
        + vstd::bytes::spec_u32_to_le_bytes(block.len() as u32) + block
        + vstd::bytes::spec_u64_to_le_bytes(r.score_id)
}

/// The encoded bytes of a record around a given compressed block.
pub open spec fn spec_encode_given(r: ReplayView, block: Seq<u8>) -> Seq<u8>
    recommends
        r.wf(),
        block.len() <= u32::MAX,
{
    spec_encode_head(r) + spec_encode_tail(r, block)
}

/// The record before its tail fields are read: the head fields of `r`
/// with the tail fields still at their rest values.
pub open spec fn head_view(r: ReplayView) -> ReplayView {
    ReplayView { play_date: 0, frames: Seq::empty(), seed: None, score_id: 0, ..r }
}

/// The compressed block the encoder embeds for a record: the compressor's
/// output for the serialized frame text.
pub open spec fn spec_block_of(r: ReplayView) -> Seq<u8> {
    crate::lzma::lzma_deflate(spec_ser_replay_data(r.frames, r.seed))
}

impl Replay {
    /// An empty record: standard mode, zero scores, no strings, no
    /// frames, played at the Unix epoch.
    pub fn new() -> (r: Self)
        ensures
            r@.gamemode == Gamemode::STD,
            r@.game_version == 0,
            r@.map_hash is None,
            r@.player_name is None,
            r@.replay_hash is None,
            r@.number_300s == 0,
            r@.number_100s == 0,
            r@.number_50s == 0,
            r@.number_gekis == 0,
            r@.number_katus == 0,
            r@.number_misses == 0,
            r@.total_score == 0,
            r@.greatest_combo == 0,
            !r@.is_full_combo,
            r@.mods.bits == 0,
            r@.life_bar_graph is None,
            r@.play_date == 0,
            r@.frames == Seq::<ReplayFrame>::empty(),
            r@.seed is None,
            r@.score_id == 0,
            r@.wf(),
    {
        Replay {
            gamemode: Gamemode::STD,
            game_version: 0,
            map_hash: None,
            player_name: None,
            replay_hash: None,
            number_300s: 0,
            number_100s: 0,
            number_50s: 0,
            number_gekis: 0,
            number_katus: 0,
            number_misses: 0,
            total_score: 0,
            greatest_combo: 0,
            is_full_combo: false,
            mods: Mods { bits: 0 },
            life_bar_graph: None,
            play_date: 0,
            replay_data: ReplayData::new(),
            score_id: 0,
        }
    }
}

impl Replay {
    /// Decode a raw replay buffer into a record.
    ///
    /// Reads the fixed field order off the buffer and fails fast at the
    /// first malformed field.  The result — record or error — is exactly
    /// what `spec_decode` says of the bytes, so decoding is a function of
    /// the buffer alone, each error comes exactly on the inputs that
    /// cause it, and no partial record is ever returned.
    #[verifier::rlimit(100)]
    pub fn decode(bytes: &Vec<u8>) -> (r: Result<Replay, Error>)
        ensures
            match r {
                Ok(rep) => spec_decode(bytes@) == Ok::<ReplayView, Error>(rep@) && rep@.wf(),
                Err(e) => spec_decode(bytes@) == Err::<ReplayView, Error>(e),
            },
    {
        let mut pos: usize = 0;
        proof {
            assert(bytes@.skip(0) =~= bytes@);
        }
        let ghost r0 = bytes@;
        let mode_byte = match crate::reader::read_byte(bytes, &mut pos) {
            Ok(v) => v,
            Err(e) => {
                return Err(e);
            },
        };
        let gamemode = match Gamemode::from_byte(mode_byte) {
            Ok(g) => g,
            Err(e) => {
                return Err(e);
            },
        };
        let ghost r1 = bytes@.skip(pos as int);
        let game_version = match crate::reader::read_integer(bytes, &mut pos) {
            Ok(v) => v,
            Err(e) => {
                return Err(e);
            },
        };
        let ghost r2 = bytes@.skip(pos as int);
        let map_hash = match crate::reader::read_string(bytes, &mut pos) {
            Ok(v) => v,
            Err(e) => {
                return Err(e);
            },
        };
        let ghost r3 = bytes@.skip(pos as int);
        let player_name = match crate::reader::read_string(bytes, &mut pos) {
            Ok(v) => v,
            Err(e) => {
                return Err(e);
            },
        };
        let ghost r4 = bytes@.skip(pos as int);
        let replay_hash = match crate::reader::read_string(bytes, &mut pos) {
            Ok(v) => v,
            Err(e) => {
                return Err(e);
            },
        };
        let ghost r5 = bytes@.skip(pos as int);
        let number_300s = match crate::reader::read_short(bytes, &mut pos) {
            Ok(v) => v,
            Err(e) => {
                return Err(e);
            },
        };
        let number_100s = match crate::reader::read_short(bytes, &mut pos) {
            Ok(v) => v,
            Err(e) => {
                return Err(e);
            },
        };
        let number_50s = match crate::reader::read_short(bytes, &mut pos) {
            Ok(v) => v,
            Err(e) => {
                return Err(e);
            },
        };
        let number_gekis = match crate::reader::read_short(bytes, &mut pos) {
            Ok(v) => v,
            Err(e) => {
                return Err(e);
            },
        };
        let number_katus = match crate::reader::read_short(bytes, &mut pos) {
            Ok(v) => v,
            Err(e) => {
                return Err(e);
            },
        };
        let number_misses = match crate::reader::read_short(bytes, &mut pos) {
            Ok(v) => v,
            Err(e) => {
                return Err(e);
            },
        };
        let ghost r6 = bytes@.skip(pos as int);
        proof {
            assert(stake_counts(r5) == Ok::<_, Error>(
                ((number_300s, number_100s, number_50s, number_gekis, number_katus, number_misses),
                r6),
            ));
        }
        let total_score = match crate::reader::read_integer(bytes, &mut pos) {
            Ok(v) => v,
            Err(e) => {
                return Err(e);
            },
        };
        let ghost r7 = bytes@.skip(pos as int);
        let greatest_combo = match crate::reader::read_short(bytes, &mut pos) {
            Ok(v) => v,
            Err(e) => {
                return Err(e);
            },
        };
        let ghost r8 = bytes@.skip(pos as int);
        let fc_byte = match crate::reader::read_byte(bytes, &mut pos) {
            Ok(v) => v,
            Err(e) => {
                return Err(e);
            },
        };
        let is_full_combo = match fc_byte {
            0u8 => false,
            1u8 => true,
            _ => {
                return Err(Error::InvalidFullComboByte);
            },
        };
        let ghost r9 = bytes@.skip(pos as int);
        let mods_bits = match crate::reader::read_integer(bytes, &mut pos) {
            Ok(v) => v,
            Err(e) => {
                return Err(e);
            },
        };
        let ghost r10 = bytes@.skip(pos as int);
        let life_bar_graph = match crate::reader::read_string(bytes, &mut pos) {
            Ok(v) => v,
            Err(e) => {
                return Err(e);
            },
        };
        let ghost r11 = bytes@.skip(pos as int);
        let ticks = match crate::reader::read_long(bytes, &mut pos) {
            Ok(v) => v,
            Err(e) => {
                return Err(e);
            },
        };
        let play_date = crate::timeconv::ticks_to_unix_seconds(ticks);
        let ghost r12 = bytes@.skip(pos as int);
        let block_len = match crate::reader::read_integer(bytes, &mut pos) {
            Ok(v) => v,
            Err(e) => {
                return Err(e);
            },
        };
        let ghost r13 = bytes@.skip(pos as int);
        let block = match crate::reader::read_bytes(bytes, &mut pos, block_len as usize) {
            Ok(v) => v,
            Err(e) => {
                return Err(e);
            },
        };
        let ghost r14 = bytes@.skip(pos as int);
        let text = match crate::lzma::decompress_replay_data(&block) {
            Ok(v) => v,
            Err(e) => {
                return Err(e);
            },
        };
        let replay_data = match ReplayData::from_text(&text) {
            Ok(v) => v,
            Err(e) => {
                return Err(e);
            },
        };
        let score_id = match crate::reader::read_long(bytes, &mut pos) {
            Ok(v) => v,
            Err(e) => {
                return Err(e);
            },
        };
        let rep = Replay {
            gamemode,
            game_version,
            map_hash,
            player_name,
            replay_hash,
            number_300s,
            number_100s,
            number_50s,
            number_gekis,
            number_katus,
            number_misses,
            total_score,
            greatest_combo,
            is_full_combo,
            mods: Mods { bits: mods_bits },
            life_bar_graph,
            play_date,
            replay_data,
            score_id,
        };
        proof {
            assert(spec_decode(bytes@) == Ok::<ReplayView, Error>(rep@));
            lemma_decoded_strings_fit(r2);
            lemma_decoded_strings_fit(r3);
            lemma_decoded_strings_fit(r4);
            lemma_decoded_strings_fit(r10);
            crate::replay_data::lemma_parse_frames_wf(crate::split::spec_split(text@, 44u8));
        }
        Ok(rep)
    }
}

impl Replay {
    /// Encode the record into a raw replay buffer.
    ///
    /// Writes the mirror of the decode order.  Exactly three things can
    /// refuse a record, each on its own inputs: a string field longer
    /// than its length byte admits, a play date outside the tick range,
    /// and a compressed frame block too large for its length field.  On
    /// every other record the buffer is produced: the fixed layout around
    /// the compressor's block, which inflates to the serialized frame
    /// text.
    #[verifier::rlimit(100)]
    pub fn encode(&self) -> (r: Result<Vec<u8>, Error>)
        ensures
            !self@.strings_fit() ==> r == Err::<Vec<u8>, Error>(Error::StringTooLong),
            self@.strings_fit() && !spec_secs_in_tick_range(self@.play_date as int) ==> r
                == Err::<Vec<u8>, Error>(Error::InvalidTimestamp),
            (self@.strings_fit() && spec_secs_in_tick_range(self@.play_date as int)
                && spec_block_of(self@).len() > u32::MAX ==> r == Err::<Vec<u8>, Error>(
                Error::CompressionFailure,
            )),
            (self@.strings_fit() && spec_secs_in_tick_range(self@.play_date as int)
                && spec_block_of(self@).len() <= u32::MAX ==> r is Ok && (match r {
                Ok(out) => out@ == spec_encode_given(self@, spec_block_of(self@)) && lzma_inflate(
                    spec_block_of(self@),
                ) == Some(spec_ser_replay_data(self@.frames, self@.seed)),
                Err(_) => true,
            })),
    {
        let mut buffer: Vec<u8> = Vec::new();
        buffer.push(self.gamemode.as_byte());
        crate::reader::write_integer(self.game_version, &mut buffer);
        let mh: Option<&str> = match &self.map_hash {
            Some(s) => Some(s.as_str()),
            None => None,
        };
        match crate::reader::write_string(&mh, &mut buffer) {
            Ok(_) => {},
            Err(e) => {
                return Err(e);
            },
        }
        let pn: Option<&str> = match &self.player_name {
            Some(s) => Some(s.as_str()),
            None => None,
        };
        match crate::reader::write_string(&pn, &mut buffer) {
            Ok(_) => {},
            Err(e) => {
                return Err(e);
            },
        }
        let rh: Option<&str> = match &self.replay_hash {
            Some(s) => Some(s.as_str()),
            None => None,
        };
        match crate::reader::write_string(&rh, &mut buffer) {
            Ok(_) => {},
            Err(e) => {
                return Err(e);
            },
        }
        crate::reader::write_short(self.number_300s, &mut buffer);
        crate::reader::write_short(self.number_100s, &mut buffer);
        crate::reader::write_short(self.number_50s, &mut buffer);
        crate::reader::write_short(self.number_gekis, &mut buffer);
        crate::reader::write_short(self.number_katus, &mut buffer);
        crate::reader::write_short(self.number_misses, &mut buffer);
        crate::reader::write_integer(self.total_score, &mut buffer);
        crate::reader::write_short(self.greatest_combo, &mut buffer);
        if self.is_full_combo {
            buffer.push(1u8);
        } else {
            buffer.push(0u8);
        }
        crate::reader::write_integer(self.mods.bits(), &mut buffer);
        let lb: Option<&str> = match &self.life_bar_graph {
            Some(s) => Some(s.as_str()),
            None => None,
        };
        match crate::reader::write_string(&lb, &mut buffer) {
            Ok(_) => {},
            Err(e) => {
                return Err(e);
            },
        }
        let ticks = match crate::timeconv::unix_seconds_to_ticks(self.play_date) {
            Some(t) => t,
            None => {
                return Err(Error::InvalidTimestamp);
            },
        };
        crate::reader::write_long(ticks, &mut buffer);
        let text = self.replay_data.to_text();
        let mut compressed = match crate::lzma::compress_replay_data(&text) {
            Ok(c) => c,
            Err(e) => {
                return Err(e);
            },
        };
        assert(compressed@ == spec_block_of(self@));
        if compressed.len() as u64 > u32::MAX as u64 {
            return Err(Error::CompressionFailure);
        }
        let ghost block = compressed@;
        crate::reader::write_integer(compressed.len() as u32, &mut buffer);
        buffer.append(&mut compressed);
        crate::reader::write_long(self.score_id, &mut buffer);
        proof {
            assert(buffer@ =~= spec_encode_given(self@, block));
            assert(lzma_inflate(block) == Some(
                spec_ser_replay_data(self@.frames, self@.seed),
            ));
        }
        Ok(buffer)
    }
}

/// Reading the encoded head fields back off any continuation yields the
/// head fields unchanged and hands the continuation to the tail decoder.
#[verifier::rlimit(100)]
#[verifier::spinoff_prover]
proof fn lemma_decode_of_encode_head(
    r: ReplayView,
    rest: Seq<u8>,
    inflate: spec_fn(Seq<u8>) -> Option<Seq<u8>>,
)
    requires
        r.strings_fit(),
    ensures
        spec_decode_given(spec_encode_head(r) + rest, inflate) == spec_decode_tail(
            head_view(r),
            rest,
            inflate,
        ),
{
    let p0: Seq<u8> = seq![r.gamemode.spec_byte()];
    let p1 = vstd::bytes::spec_u32_to_le_bytes(r.game_version);
    let p2 = spec_write_string(r.map_hash);
    let p3 = spec_write_string(r.player_name);
    let p4 = spec_write_string(r.replay_hash);
    let p5 = vstd::bytes::spec_u16_to_le_bytes(r.number_300s);
    let p6 = vstd::bytes::spec_u16_to_le_bytes(r.number_100s);
    let p7 = vstd::bytes::spec_u16_to_le_bytes(r.number_50s);
    let p8 = vstd::bytes::spec_u16_to_le_bytes(r.number_gekis);
    let p9 = vstd::bytes::spec_u16_to_le_bytes(r.number_katus);
    let p10 = vstd::bytes::spec_u16_to_le_bytes(r.number_misses);
    let p11 = vstd::bytes::spec_u32_to_le_bytes(r.total_score);
    let p12 = vstd::bytes::spec_u16_to_le_bytes(r.greatest_combo);
    let p13: Seq<u8> = seq![
        if r.is_full_combo {
            1u8
        } else {
            0u8
        },
    ];
    let p14 = vstd::bytes::spec_u32_to_le_bytes(r.mods.bits);
    let p15 = spec_write_string(r.life_bar_graph);
    let s16 = p15 + rest;
    let s15 = p14 + s16;
    let s14 = p13 + s15;
    let s13 = p12 + s14;
    let s12 = p11 + s13;
    let s11 = p10 + s12;
    let s10 = p9 + s11;
    let s9 = p8 + s10;
    let s8 = p7 + s9;
    let s7 = p6 + s8;
    let s6 = p5 + s7;
    let s5 = p4 + s6;
    let s4 = p3 + s5;
    let s3 = p2 + s4;
    let s2 = p1 + s3;
    let s1 = p0 + s2;
    let l1 = p0 + p1;
    let l2 = l1 + p2;
    let l3 = l2 + p3;
    let l4 = l3 + p4;
    let l5 = l4 + p5;
    let l6 = l5 + p6;
    let l7 = l6 + p7;
    let l8 = l7 + p8;
    let l9 = l8 + p9;
    let l10 = l9 + p10;
    let l11 = l10 + p11;
    let l12 = l11 + p12;
    let l13 = l12 + p13;
    let l14 = l13 + p14;
    assert(spec_encode_head(r) == l14 + p15);
    crate::split::lemma_add_assoc(l14, p15, rest);
    crate::split::lemma_add_assoc(l13, p14, s16);
    crate::split::lemma_add_assoc(l12, p13, s15);
    crate::split::lemma_add_assoc(l11, p12, s14);
    crate::split::lemma_add_assoc(l10, p11, s13);
    crate::split::lemma_add_assoc(l9, p10, s12);
    crate::split::lemma_add_assoc(l8, p9, s11);
    crate::split::lemma_add_assoc(l7, p8, s10);
    crate::split::lemma_add_assoc(l6, p7, s9);
    crate::split::lemma_add_assoc(l5, p6, s8);
    crate::split::lemma_add_assoc(l4, p5, s7);
    crate::split::lemma_add_assoc(l3, p4, s6);
    crate::split::lemma_add_assoc(l2, p3, s5);
    crate::split::lemma_add_assoc(l1, p2, s4);
    crate::split::lemma_add_assoc(p0, p1, s3);
    assert(spec_encode_head(r) + rest == s1);
    crate::reader::lemma_stake_u8_of(r.gamemode.spec_byte(), s2);
    assert(Gamemode::spec_from_byte(r.gamemode.spec_byte()) == Ok::<Gamemode, Error>(
        r.gamemode,
    )) by {
        match r.gamemode {
            Gamemode::STD => {},
            Gamemode::TAIKO => {},
            Gamemode::CTB => {},
            Gamemode::MANIA => {},
        }
    }
    assert(stake_mode(s1) == Ok::<_, Error>((r.gamemode, s2)));
    crate::reader::lemma_stake_u32_of(r.game_version, s3);
    crate::reader::lemma_string_marker_round_trip(r.map_hash, s4);
    crate::reader::lemma_string_marker_round_trip(r.player_name, s5);
    crate::reader::lemma_string_marker_round_trip(r.replay_hash, s6);
    crate::reader::lemma_stake_u16_of(r.number_300s, s7);
    crate::reader::lemma_stake_u16_of(r.number_100s, s8);
    crate::reader::lemma_stake_u16_of(r.number_50s, s9);
    crate::reader::lemma_stake_u16_of(r.number_gekis, s10);
    crate::reader::lemma_stake_u16_of(r.number_katus, s11);
    crate::reader::lemma_stake_u16_of(r.number_misses, s12);
    assert(stake_counts(s6) == Ok::<_, Error>(
        (
            (
                r.number_300s,
                r.number_100s,
                r.number_50s,
                r.number_gekis,
                r.number_katus,
                r.number_misses,
            ),
            s12,
        ),
    ));
    crate::reader::lemma_stake_u32_of(r.total_score, s13);
    crate::reader::lemma_stake_u16_of(r.greatest_combo, s14);
    crate::reader::lemma_stake_u8_of(
        if r.is_full_combo {
            1u8
        } else {
            0u8
        },
        s15,
    );
    assert(stake_full_combo(s14) == Ok::<_, Error>((r.is_full_combo, s15)));
    crate::reader::lemma_stake_u32_of(r.mods.bits, s16);
    crate::reader::lemma_string_marker_round_trip(r.life_bar_graph, rest);
    assert(Mods { bits: r.mods.bits } == r.mods);
}

/// Reading the encoded tail fields back yields the whole record, given
/// that the decompressor inflates the block to the serialized frames.
#[verifier::rlimit(100)]
proof fn lemma_decode_of_encode_tail(
    r: ReplayView,
    block: Seq<u8>,
    inflate: spec_fn(Seq<u8>) -> Option<Seq<u8>>,
)
    requires
        r.wf(),
        block.len() <= u32::MAX,
        inflate(block) == Some(spec_ser_replay_data(r.frames, r.seed)),
    ensures
        spec_decode_tail(head_view(r), spec_encode_tail(r, block), inflate) == Ok::<
            ReplayView,
            Error,
        >(r),
{
    let ticks = spec_secs_to_ticks(r.play_date as int) as u64;
    let p16 = vstd::bytes::spec_u64_to_le_bytes(ticks);
    let p17 = vstd::bytes::spec_u32_to_le_bytes(block.len() as u32);
    let p19 = vstd::bytes::spec_u64_to_le_bytes(r.score_id);
    let s19 = p19;
    let s18 = block + s19;
    let s17 = p17 + s18;
    let s16 = p16 + s17;
    let l1 = p16 + p17;
    let l2 = l1 + block;
    assert(spec_encode_tail(r, block) == l2 + p19);
    crate::split::lemma_add_assoc(l1, block, s19);
    crate::split::lemma_add_assoc(p16, p17, s18);
    assert(spec_encode_tail(r, block) == s16);
    crate::reader::lemma_stake_u64_of(ticks, s17);
    crate::timeconv::lemma_tick_conversion_round_trip(r.play_date as int);
    assert(spec_ticks_to_secs(ticks) == r.play_date as int);
    crate::reader::lemma_stake_u32_of(block.len() as u32, s18);
    crate::reader::lemma_stake_bytes_of(block, s19);
    assert((block.len() as u32) as int == block.len());
    crate::replay_data::lemma_replay_data_round_trip(r.frames, r.seed);
    assert(s19 =~= p19 + Seq::<u8>::empty());
    crate::reader::lemma_stake_u64_of(r.score_id, Seq::<u8>::empty());
    assert(stake_u64(s19) == Ok::<_, Error>((r.score_id, Seq::<u8>::empty())));
    assert(spec_decode_tail(head_view(r), s16, inflate) == Ok::<ReplayView, Error>(r));
}

/// Decoding an encoding of any well-formed record yields the record
/// unchanged in every field, whatever compressed block the encoder\'s
/// compressor produced: the decompressor is abstracted as `inflate`, held
/// only to return the serialized frame text for that block, which is what
/// the compressor guarantees.  The block bytes themselves need not match
/// any other encoding of the same record.
pub proof fn lemma_replay_round_trip(
    r: ReplayView,
    block: Seq<u8>,
    inflate: spec_fn(Seq<u8>) -> Option<Seq<u8>>,
)
    requires
        r.wf(),
        block.len() <= u32::MAX,
        inflate(block) == Some(spec_ser_replay_data(r.frames, r.seed)),
    ensures
        spec_decode_given(spec_encode_given(r, block), inflate) == Ok::<ReplayView, Error>(r),
{
    lemma_decode_of_encode_head(r, spec_encode_tail(r, block), inflate);
    lemma_decode_of_encode_tail(r, block, inflate);
}


/// A string the cursor decodes always fits its one-byte length again.
proof fn lemma_decoded_strings_fit(b: Seq<u8>)
    ensures
        match stake_string(b) {
            Ok((os, _)) => opt_fits_byte(os),
            Err(_) => true,
        },
{
    broadcast use vstd::utf8::decode_utf8_encode_utf8;

    match stake_string(b) {
        Ok((os, _)) => {
            match os {
                Some(cs) => {
                    let n = b[1] as int;
                    let payload = b.subrange(2, 2 + n);
                    assert(vstd::utf8::valid_utf8(payload));
                    assert(cs == vstd::utf8::decode_utf8(payload));
                    assert(vstd::utf8::encode_utf8(cs) == payload);
                },
                None => {},
            }
        },
        Err(_) => {},
    }
}

} // verus!
