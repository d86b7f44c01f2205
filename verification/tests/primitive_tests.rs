use osr_codec::error::Error;
use osr_codec::fileext::ensure_replay_file;
use osr_codec::reader::read_byte;
use osr_codec::reader::read_integer;
use osr_codec::reader::read_long;
use osr_codec::reader::read_short;
use osr_codec::reader::read_string;
use osr_codec::reader::write_integer;
use osr_codec::reader::write_long;
use osr_codec::reader::write_short;
use osr_codec::reader::write_string;
use osr_codec::types::Gamemode;
use osr_codec::types::Keys;
use osr_codec::types::Mods;
use osr_codec::types::KEY_K1;
use osr_codec::types::KEY_M1;
use osr_codec::types::KEY_M2;
use osr_codec::types::MOD_HARDROCK;
use osr_codec::types::MOD_HIDDEN;

#[test]
fn little_endian_layout_is_exact() {
    let mut buf: Vec<u8> = Vec::new();
    write_short(0x1234, &mut buf);
    assert_eq!(buf, vec![0x34, 0x12]);
    write_integer(0x12345678, &mut buf);
    assert_eq!(&buf[2..], &[0x78, 0x56, 0x34, 0x12]);
    write_long(0x0102030405060708, &mut buf);
    assert_eq!(&buf[6..], &[0x08, 0x07, 0x06, 0x05, 0x04, 0x03, 0x02, 0x01]);

    let mut pos = 0usize;
    assert_eq!(read_short(&buf, &mut pos).unwrap(), 0x1234);
    assert_eq!(read_integer(&buf, &mut pos).unwrap(), 0x12345678);
    assert_eq!(read_long(&buf, &mut pos).unwrap(), 0x0102030405060708);
    assert_eq!(pos, buf.len());
}

#[test]
fn reads_past_the_end_are_truncated_input() {
    let buf: Vec<u8> = vec![1];
    let mut pos = 0usize;
    assert_eq!(read_byte(&buf, &mut pos).unwrap(), 1);
    assert!(matches!(read_byte(&buf, &mut pos), Err(Error::TruncatedInput)));
    let mut pos2 = 0usize;
    assert!(matches!(read_short(&buf, &mut pos2), Err(Error::TruncatedInput)));
    assert!(matches!(read_integer(&buf, &mut pos2), Err(Error::TruncatedInput)));
    assert!(matches!(read_long(&buf, &mut pos2), Err(Error::TruncatedInput)));
}

#[test]
fn string_marker_round_trip_none() {
    let mut buf: Vec<u8> = Vec::new();
    write_string(&None, &mut buf).unwrap();
    assert_eq!(buf, vec![0x00]);
    let mut pos = 0usize;
    assert_eq!(read_string(&buf, &mut pos).unwrap(), None);
}

#[test]
fn string_marker_round_trip_empty_and_nonempty() {
    let mut buf: Vec<u8> = Vec::new();
    write_string(&Some(""), &mut buf).unwrap();
    write_string(&Some("abc"), &mut buf).unwrap();
    assert_eq!(buf, vec![0x0b, 0, 0x0b, 3, b'a', b'b', b'c']);
    let mut pos = 0usize;
    assert_eq!(read_string(&buf, &mut pos).unwrap(), Some(String::new()));
    assert_eq!(read_string(&buf, &mut pos).unwrap(), Some("abc".to_string()));
}

#[test]
fn string_marker_errors() {
    let mut pos = 0usize;
    assert!(matches!(
        read_string(&vec![0x07], &mut pos),
        Err(Error::MalformedStringMarker)
    ));
    let mut pos2 = 0usize;
    assert!(matches!(
        read_string(&vec![0x0b, 4, b'a'], &mut pos2),
        Err(Error::TruncatedInput)
    ));
    let mut pos3 = 0usize;
    assert!(matches!(
        read_string(&vec![0x0b, 1, 0xff], &mut pos3),
        Err(Error::InvalidStringEncoding)
    ));
}

#[test]
fn overlong_string_is_refused_on_write() {
    let long = "x".repeat(256);
    let mut buf: Vec<u8> = Vec::new();
    let r = write_string(&Some(long.as_str()), &mut buf);
    assert!(matches!(r, Err(Error::StringTooLong)));
    assert!(buf.is_empty());
    let edge = "x".repeat(255);
    assert!(write_string(&Some(edge.as_str()), &mut buf).is_ok());
}

#[test]
fn gamemode_bytes_are_exhaustive() {
    assert_eq!(Gamemode::from_byte(0).unwrap(), Gamemode::STD);
    assert_eq!(Gamemode::from_byte(1).unwrap(), Gamemode::TAIKO);
    assert_eq!(Gamemode::from_byte(2).unwrap(), Gamemode::CTB);
    assert_eq!(Gamemode::from_byte(3).unwrap(), Gamemode::MANIA);
    for b in 4..=255u8 {
        assert!(matches!(Gamemode::from_byte(b), Err(Error::InvalidGameMode)));
    }
    for b in 0..4u8 {
        assert_eq!(Gamemode::from_byte(b).unwrap().as_byte(), b);
    }
    assert_eq!(Gamemode::default(), Gamemode::STD);
}

#[test]
fn mod_and_key_bits_are_kept_verbatim() {
    let mods = Mods::from_bits(0x8000_0008);
    assert_eq!(mods.bits(), 0x8000_0008);
    assert!(mods.contains(MOD_HIDDEN));
    assert!(!mods.contains(MOD_HARDROCK));
    let keys = Keys::from_bits(5);
    assert!(keys.contains(KEY_M1 | KEY_K1));
    assert!(!keys.contains(KEY_M2));
    assert_eq!(keys.bits(), 5);
}

#[test]
fn replay_file_extension_is_checked() {
    assert!(ensure_replay_file("replay.osr").is_ok());
    assert!(ensure_replay_file("some/dir/replay.osr").is_ok());
    assert!(ensure_replay_file("a.b.osr").is_ok());
    assert!(matches!(
        ensure_replay_file("replay.txt"),
        Err(Error::NotAReplayFile)
    ));
    assert!(matches!(
        ensure_replay_file("replay."),
        Err(Error::NotAReplayFile)
    ));
    assert!(matches!(ensure_replay_file("replay"), Err(Error::NotAFile)));
    assert!(matches!(ensure_replay_file("dir/.hidden"), Err(Error::NotAFile)));
    assert!(matches!(ensure_replay_file(".."), Err(Error::NotAFile)));
}

#[test]
fn error_messages_name_the_failure() {
    assert!(Error::TruncatedInput.message().contains("buffer"));
    assert!(Error::InvalidFrameValueX.message().contains("512"));
    assert!(Error::InvalidFrameValueY.message().contains("384"));
}
