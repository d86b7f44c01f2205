use vstd::prelude::*;

verus! {

/// Everything that can go wrong while decoding or encoding a replay buffer.
///
/// Every decode error is fatal to the decode call that reports it: no partial
/// record is ever returned.  A malformed ordinary frame token is *not* an
/// error (it is skipped), but a malformed sentinel-seed token is
/// (`FrameParseFailure`).
#[derive(Clone, Copy, Debug, PartialEq, Eq, Structural)]
pub enum Error {
    /// The buffer holds fewer bytes than the next field requires.
    TruncatedInput,
    /// The game-mode byte is not one of the four known values.
    InvalidGameMode,
    /// A string field starts with a marker byte other than 0x00 or 0x0b.
    MalformedStringMarker,
    /// A string field's payload is not valid UTF-8.
    InvalidStringEncoding,
    /// The full-combo byte is neither 0x00 nor 0x01.
    InvalidFullComboByte,
    /// The compressed frame block cannot be inflated.
    DecompressionFailure,
    /// The sentinel-seed token's numeric field does not parse.
    FrameParseFailure,
    /// The frame block could not be compressed on encode.
    CompressionFailure,
    /// A string field exceeds 255 bytes and cannot be length-prefixed.
    StringTooLong,
    /// The play date lies outside the tick-representable range.
    InvalidTimestamp,
    /// A frame's `x` coordinate lies outside [-512, 512].
    InvalidFrameValueX,
    /// A frame's `y` coordinate lies outside [-384, 384].
    InvalidFrameValueY,
    /// A life-bar event token does not have its two comma-separated fields.
    InvalidStringFrameFormat,
    /// A life-bar event token's numeric field does not parse.
    CantParseFrameValue,
    /// The given path has no file extension at all.
    NotAFile,
    /// The given path has an extension other than the replay one.
    NotAReplayFile,
}

impl Error {
    /// A short human-readable description of the error.
    pub fn message(&self) -> &'static str {
        match self {
            Error::TruncatedInput => "buffer ends before the field is complete",
            Error::InvalidGameMode => "unrecognized game mode byte",
            Error::MalformedStringMarker => "unexpected string marker byte",
            Error::InvalidStringEncoding => "string payload is not valid UTF-8",
            Error::InvalidFullComboByte => "unexpected byte for the full-combo flag",
            Error::DecompressionFailure => "replay data block cannot be decompressed",
            Error::FrameParseFailure => "seed value of the sentinel record cannot be parsed",
            Error::CompressionFailure => "replay data block cannot be compressed",
            Error::StringTooLong => "string field exceeds 255 bytes",
            Error::InvalidTimestamp => "play date cannot be represented as ticks",
            Error::InvalidFrameValueX => "frame value 'x' is not in the valid range -512 - 512",
            Error::InvalidFrameValueY => "frame value 'y' is not in the valid range -384 - 384",
            Error::InvalidStringFrameFormat => "invalid event string format",
            Error::CantParseFrameValue => "error while parsing an event value",
            Error::NotAFile => "given path is not a file",
            Error::NotAReplayFile => "given file is not a replay file (.osr)",
        }
    }
}

} // verus!
