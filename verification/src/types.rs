use vstd::prelude::*;

use crate::error::Error;

verus! {

/// Time in milliseconds since the previous frame.
pub type Long = i64;

/// A 32-bit field of the container (scores, versions, raw bit-sets).
pub type Integer = u32;

/// A 16-bit field of the container (hit counts, combo).
pub type Short = u16;

/// A single byte of the container.
pub type Byte = u8;

/// Game mode the replay was recorded in.
#[derive(Clone, Copy, Debug, PartialEq, Eq, Structural)]
pub enum Gamemode {
    STD,
    TAIKO,
    CTB,
    MANIA,
}

impl Gamemode {
    /// The byte that stands for this mode on the wire.
    pub open spec fn spec_byte(self) -> u8 {
        match self {
            Gamemode::STD => 0,
            Gamemode::TAIKO => 1,
            Gamemode::CTB => 2,
            Gamemode::MANIA => 3,
        }
    }

    /// The mode a wire byte stands for; bytes 0x00..0x03 each name one mode,
    /// every other byte is rejected.
    pub open spec fn spec_from_byte(value: u8) -> Result<Gamemode, Error> {
        if value == 0 {
            Ok(Gamemode::STD)
        } else if value == 1 {
            Ok(Gamemode::TAIKO)
        } else if value == 2 {
            Ok(Gamemode::CTB)
        } else if value == 3 {
            Ok(Gamemode::MANIA)
        } else {
            Err(Error::InvalidGameMode)
        }
    }

    /// Encode this mode as its wire byte.
    pub fn as_byte(&self) -> (r: u8)
        ensures
            r == self.spec_byte(),
    {
        match self {
            Gamemode::STD => 0,
            Gamemode::TAIKO => 1,
            Gamemode::CTB => 2,
            Gamemode::MANIA => 3,
        }
    }

    /// Decode a wire byte into a mode; exactly the bytes 0 through 3 succeed.
    pub fn from_byte(value: u8) -> (r: Result<Gamemode, Error>)
        ensures
            r == Gamemode::spec_from_byte(value),
            r is Ok <==> value < 4,
    {
        match value {
            0 => Ok(Gamemode::STD),
            1 => Ok(Gamemode::TAIKO),
            2 => Ok(Gamemode::CTB),
            3 => Ok(Gamemode::MANIA),
            _ => Err(Error::InvalidGameMode),
        }
    }
}

impl Default for Gamemode {
    /// The default mode is the standard one, as on the wire byte 0.
    fn default() -> (r: Self)
        ensures
            r == Gamemode::STD,
    {
        Gamemode::STD
    }
}

/// No modifier at all.
pub const MOD_NONE: u32 = 0;

pub const MOD_NO_FAIL: u32 = 1;

pub const MOD_EASY: u32 = 2;

pub const MOD_TOUCH_DEVICE: u32 = 4;

pub const MOD_HIDDEN: u32 = 8;

pub const MOD_HARDROCK: u32 = 16;

pub const MOD_SUDDEN_DEATH: u32 = 32;

pub const MOD_DOUBLETIME: u32 = 64;

pub const MOD_RELAX: u32 = 128;

pub const MOD_HALFTIME: u32 = 256;

/// Only set along with `MOD_DOUBLETIME`: nightcore alone reads 576.
pub const MOD_NIGHTCORE: u32 = 512;

pub const MOD_FLASHLIGHT: u32 = 1024;

pub const MOD_AUTOPLAY: u32 = 2048;

pub const MOD_SPUN_OUT: u32 = 4096;

/// Autopilot.
pub const MOD_RELAX2: u32 = 8192;

/// Only set along with `MOD_SUDDEN_DEATH`: perfect alone reads 16416.
pub const MOD_PERFECT: u32 = 16384;

pub const MOD_KEY4: u32 = 32768;

pub const MOD_KEY5: u32 = 65536;

pub const MOD_KEY6: u32 = 131072;

pub const MOD_KEY7: u32 = 262144;

pub const MOD_KEY8: u32 = 524288;

pub const MOD_FADE_IN: u32 = 1048576;

pub const MOD_RANDOM: u32 = 2097152;

pub const MOD_CINEMA: u32 = 4194304;

pub const MOD_TARGET: u32 = 8388608;

pub const MOD_KEY9: u32 = 16777216;

pub const MOD_KEY_COOP: u32 = 33554432;

pub const MOD_KEY1: u32 = 67108864;

pub const MOD_KEY3: u32 = 134217728;

pub const MOD_KEY2: u32 = 268435456;

pub const MOD_SCORE_V2: u32 = 536870912;

pub const MOD_MIRROR: u32 = 1073741824;

/// The modifier bit-set of a replay.
///
/// The raw integer read from the wire is kept verbatim, so unknown bits
/// survive a decode/encode round trip; the `MOD_*` constants name the
/// documented bits and `contains` reads them.
#[derive(Clone, Copy, Debug, PartialEq, Eq, Structural)]
pub struct Mods {
    pub bits: u32,
}

impl Mods {
    /// Wrap a raw wire value, keeping every bit as it is.
    pub fn from_bits(value: u32) -> (r: Mods)
        ensures
            r.bits == value,
    {
        Mods { bits: value }
    }

    /// The raw wire value.
    pub fn bits(&self) -> (r: u32)
        ensures
            r == self.bits,
    {
        self.bits
    }

    /// Whether every bit of `mask` is set.
    pub fn contains(&self, mask: u32) -> (r: bool)
        ensures
            r == ((self.bits & mask) == mask),
    {
        (self.bits & mask) == mask
    }
}

impl Default for Mods {
    /// No modifier bit set.
    fn default() -> (r: Self)
        ensures
            r.bits == 0,
    {
        Mods { bits: 0 }
    }
}

pub const KEY_M1: u32 = 1;

pub const KEY_M2: u32 = 2;

/// By convention pressed together with `KEY_M1` (1 + 4 = 5 on the wire).
pub const KEY_K1: u32 = 4;

/// By convention pressed together with `KEY_M2` (2 + 8 = 10 on the wire).
pub const KEY_K2: u32 = 8;

pub const KEY_SMOKE: u32 = 16;

/// The key/mouse-button bit-set of one input frame.
///
/// As with [`Mods`], the raw integer is kept verbatim; the `KEY_*` constants
/// name the documented bits.
#[derive(Clone, Copy, Debug, PartialEq, Eq, Structural)]
pub struct Keys {
    pub bits: u32,
}

impl Keys {
    /// Wrap a raw wire value, keeping every bit as it is.
    pub fn from_bits(value: u32) -> (r: Keys)
        ensures
            r.bits == value,
    {
        Keys { bits: value }
    }

    /// The raw wire value.
    pub fn bits(&self) -> (r: u32)
        ensures
            r == self.bits,
    {
        self.bits
    }

    /// Whether every bit of `mask` is set.
    pub fn contains(&self, mask: u32) -> (r: bool)
        ensures
            r == ((self.bits & mask) == mask),
    {
        (self.bits & mask) == mask
    }
}

impl Default for Keys {
    /// No key pressed.
    fn default() -> (r: Self)
        ensures
            r.bits == 0,
    {
        Keys { bits: 0 }
    }
}

} // verus!
