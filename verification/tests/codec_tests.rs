use osr_codec::decimal::Decimal;
use osr_codec::error::Error;
use osr_codec::lzma::compress_replay_data;
use osr_codec::reader::write_integer;
use osr_codec::reader::write_long;
use osr_codec::reader::write_short;
use osr_codec::reader::write_string;
use osr_codec::lzma::decompress_replay_data;
use osr_codec::replay::Replay;
use osr_codec::replay_data::ReplayData;
use osr_codec::replay_data::ReplayFrame;
use osr_codec::types::Gamemode;
use osr_codec::types::Keys;
use osr_codec::types::Mods;

fn sample_replay() -> Replay {
    let mut replay = Replay::new();
    replay.gamemode = Gamemode::TAIKO;
    replay.game_version = 20210520;
    replay.map_hash = Some("400751ddba867c309b16487d546dcfdd".to_string());
    replay.player_name = Some("Sailor SnoW \u{00e9}\u{2606}".to_string());
    replay.replay_hash = Some(String::new());
    replay.number_300s = 592;
    replay.number_100s = 2;
    replay.number_gekis = 140;
    replay.number_katus = 2;
    replay.total_score = 13392443;
    replay.greatest_combo = 852;
    replay.is_full_combo = true;
    // One known bit and one unknown high bit: both must survive.
    replay.mods = Mods::from_bits(0x8000_0008);
    replay.life_bar_graph = Some("256|1,2657|1,10213|1,".to_string());
    replay.play_date = 1633538369;
    replay.replay_data.frames.push(
        ReplayFrame::new(0, Decimal::from_int(1), Decimal::from_int(2), Keys::from_bits(5))
            .unwrap(),
    );
    replay.replay_data.frames.push(
        ReplayFrame::new(
            -12,
            Decimal::from_units(15_000_000),
            Decimal::from_units(-3_840_000_000),
            Keys::from_bits(0),
        )
        .unwrap(),
    );
    replay.replay_data.seed = Some(19290764);
    replay.score_id = 3760034870;
    replay
}

#[test]
fn replay_round_trip_preserves_every_field() {
    let replay = sample_replay();
    let bytes = replay.encode().unwrap();
    let back = Replay::decode(&bytes).unwrap();

    assert_eq!(back.gamemode, replay.gamemode);
    assert_eq!(back.game_version, replay.game_version);
    assert_eq!(back.map_hash, replay.map_hash);
    assert_eq!(back.player_name, replay.player_name);
    assert_eq!(back.replay_hash, replay.replay_hash);
    assert_eq!(back.number_300s, replay.number_300s);
    assert_eq!(back.number_100s, replay.number_100s);
    assert_eq!(back.number_50s, replay.number_50s);
    assert_eq!(back.number_gekis, replay.number_gekis);
    assert_eq!(back.number_katus, replay.number_katus);
    assert_eq!(back.number_misses, replay.number_misses);
    assert_eq!(back.total_score, replay.total_score);
    assert_eq!(back.greatest_combo, replay.greatest_combo);
    assert_eq!(back.is_full_combo, replay.is_full_combo);
    assert_eq!(back.mods.bits(), replay.mods.bits());
    assert_eq!(back.life_bar_graph, replay.life_bar_graph);
    assert_eq!(back.play_date, replay.play_date);
    assert_eq!(back.replay_data.frames, replay.replay_data.frames);
    assert_eq!(back.replay_data.seed, replay.replay_data.seed);
    assert_eq!(back.score_id, replay.score_id);
}

#[test]
fn absent_and_empty_strings_stay_distinct() {
    let mut replay = Replay::new();
    replay.map_hash = None;
    replay.replay_hash = Some(String::new());
    let bytes = replay.encode().unwrap();
    let back = Replay::decode(&bytes).unwrap();
    assert_eq!(back.map_hash, None);
    assert_eq!(back.replay_hash, Some(String::new()));
}

#[test]
fn frame_stream_sentinel_extraction() {
    let data = ReplayData::parse("0|1.0|2.0|0,-12345|0|0|12345,").unwrap();
    assert_eq!(data.frames.len(), 1);
    assert_eq!(data.frames[0].w, 0);
    assert_eq!(data.frames[0].x, Decimal::from_int(1));
    assert_eq!(data.frames[0].y, Decimal::from_int(2));
    assert_eq!(data.frames[0].z.bits(), 0);
    assert_eq!(data.seed, Some(12345));
}

#[test]
fn malformed_frame_token_is_skipped_not_fatal() {
    let data = ReplayData::parse("bad|token,0|1.0|2.0|0,").unwrap();
    assert_eq!(data.frames.len(), 1);
    assert_eq!(data.frames[0].x, Decimal::from_int(1));
    assert_eq!(data.frames[0].y, Decimal::from_int(2));
    assert_eq!(data.seed, None);
}

#[test]
fn frames_after_the_sentinel_are_ignored() {
    let data = ReplayData::parse("-12345|0|0|7,1|1.0|1.0|0,").unwrap();
    assert!(data.frames.is_empty());
    assert_eq!(data.seed, Some(7));
}

#[test]
fn malformed_sentinel_seed_is_fatal() {
    let r = ReplayData::parse("0|1.0|2.0|0,-12345|0|0|oops,");
    assert!(matches!(r, Err(Error::FrameParseFailure)));
}

#[test]
fn replay_data_serialize_matches_the_wire_text() {
    let mut data = ReplayData::new();
    data.frames.push(
        ReplayFrame::new(0, Decimal::from_int(1), Decimal::from_int(2), Keys::from_bits(0))
            .unwrap(),
    );
    data.seed = Some(12345);
    assert_eq!(data.serialize(), "0|1|2|0,-12345|0|0|12345,");
    data.seed = None;
    assert_eq!(data.serialize(), "0|1|2|0,");
}

#[test]
fn coordinate_bound_validation() {
    let z = Keys::from_bits(0);
    let bad_x = ReplayFrame::new(0, Decimal::from_int(600), Decimal::from_int(0), z);
    assert!(matches!(bad_x, Err(Error::InvalidFrameValueX)));
    assert!(ReplayFrame::new(0, Decimal::from_int(-512), Decimal::from_int(0), z).is_ok());
    assert!(ReplayFrame::new(0, Decimal::from_int(512), Decimal::from_int(0), z).is_ok());
    let bad_y = ReplayFrame::new(0, Decimal::from_int(0), Decimal::from_int(385), z);
    assert!(matches!(bad_y, Err(Error::InvalidFrameValueY)));
    assert!(ReplayFrame::new(0, Decimal::from_int(0), Decimal::from_int(-384), z).is_ok());
}

#[test]
fn hardrock_mirrors_y_about_the_center() {
    let mut data = ReplayData::new();
    data.frames.push(
        ReplayFrame::new(5, Decimal::from_int(10), Decimal::from_int(2), Keys::from_bits(1))
            .unwrap(),
    );
    data.frames.push(
        ReplayFrame::new(6, Decimal::from_int(20), Decimal::from_int(192), Keys::from_bits(2))
            .unwrap(),
    );
    data.to_hardrock();
    assert_eq!(data.frames[0].y, Decimal::from_int(382));
    assert_eq!(data.frames[1].y, Decimal::from_int(192));
    assert_eq!(data.frames[0].w, 5);
    assert_eq!(data.frames[0].x, Decimal::from_int(10));
    assert_eq!(data.frames[0].z.bits(), 1);
}

#[test]
fn compression_round_trip() {
    let text: Vec<u8> = b"0|1|2|0,-12345|0|0|12345,".to_vec();
    let compressed = compress_replay_data(&text).unwrap();
    assert_ne!(compressed, text);
    let back = decompress_replay_data(&compressed).unwrap();
    assert_eq!(back, text);
}

#[test]
fn garbage_block_fails_decompression() {
    let garbage: Vec<u8> = vec![1, 2, 3, 4, 5];
    assert!(matches!(
        decompress_replay_data(&garbage),
        Err(Error::DecompressionFailure)
    ));
}

#[test]
fn decode_of_an_empty_buffer_is_truncated_input() {
    let r = Replay::decode(&Vec::new());
    assert!(matches!(r, Err(Error::TruncatedInput)));
}

#[test]
fn decode_rejects_unknown_game_mode() {
    let r = Replay::decode(&vec![9]);
    assert!(matches!(r, Err(Error::InvalidGameMode)));
}

#[test]
fn decode_rejects_bad_string_marker() {
    let mut bytes = sample_replay().encode().unwrap();
    // The map-hash marker sits right after the mode byte and the version.
    bytes[5] = 0x03;
    assert!(matches!(
        Replay::decode(&bytes),
        Err(Error::MalformedStringMarker)
    ));
}

#[test]
fn decode_rejects_bad_full_combo_byte() {
    let mut replay = Replay::new();
    replay.map_hash = None;
    replay.player_name = None;
    replay.replay_hash = None;
    replay.life_bar_graph = None;
    let mut bytes = replay.encode().unwrap();
    // Mode (1) + version (4) + three absent strings (3) + six counts (12)
    // + total score (4) + combo (2) put the full-combo byte at offset 26.
    assert_eq!(bytes[26], 0);
    bytes[26] = 7;
    assert!(matches!(
        Replay::decode(&bytes),
        Err(Error::InvalidFullComboByte)
    ));
}

#[test]
fn decode_rejects_invalid_utf8_payload() {
    let mut replay = Replay::new();
    replay.map_hash = Some("ab".to_string());
    let mut bytes = replay.encode().unwrap();
    // The marker at 5, the length at 6, the payload at 7 and 8.
    assert_eq!(bytes[6], 2);
    bytes[7] = 0xff;
    assert!(matches!(
        Replay::decode(&bytes),
        Err(Error::InvalidStringEncoding)
    ));
}

#[test]
fn decode_reports_a_corrupt_frame_block() {
    let mut bytes: Vec<u8> = Vec::new();
    bytes.push(0); // game mode
    write_integer(0, &mut bytes); // game version
    write_string(&None, &mut bytes).unwrap(); // map hash
    write_string(&None, &mut bytes).unwrap(); // player name
    write_string(&None, &mut bytes).unwrap(); // replay hash
    for _ in 0..6 {
        write_short(0, &mut bytes); // hit counts
    }
    write_integer(0, &mut bytes); // total score
    write_short(0, &mut bytes); // greatest combo
    bytes.push(0); // full combo
    write_integer(0, &mut bytes); // mods
    write_string(&None, &mut bytes).unwrap(); // life bar
    write_long(0, &mut bytes); // play date ticks
    write_integer(3, &mut bytes); // block length
    bytes.push(1); // a block that is no LZMA stream
    bytes.push(2);
    bytes.push(3);
    write_long(0, &mut bytes); // score id
    assert!(matches!(
        Replay::decode(&bytes),
        Err(Error::DecompressionFailure)
    ));
}

#[test]
fn truncated_buffer_is_rejected() {
    let bytes = sample_replay().encode().unwrap();
    let cut: Vec<u8> = bytes[..bytes.len() - 4].to_vec();
    assert!(matches!(Replay::decode(&cut), Err(Error::TruncatedInput)));
}

#[test]
fn encode_refuses_an_overlong_string_field() {
    let mut replay = Replay::new();
    replay.player_name = Some("x".repeat(256));
    assert!(matches!(replay.encode(), Err(Error::StringTooLong)));
}

#[test]
fn encode_refuses_an_unrepresentable_play_date() {
    let mut replay = Replay::new();
    replay.play_date = i64::MAX;
    assert!(matches!(replay.encode(), Err(Error::InvalidTimestamp)));
    let mut early = Replay::new();
    early.play_date = -62_135_596_801;
    assert!(matches!(early.encode(), Err(Error::InvalidTimestamp)));
}

#[test]
fn out_of_range_frame_tokens_are_skipped_on_decode() {
    let data = ReplayData::parse("0|600.0|0|0,0|1.0|2.0|0,").unwrap();
    assert_eq!(data.frames.len(), 1);
    assert_eq!(data.frames[0].x, Decimal::from_int(1));
}

#[test]
fn strict_parsing_rejects_what_lenient_skips() {
    let strict = ReplayData::parse_strict("bad|token,0|1.0|2.0|0,");
    assert!(matches!(strict, Err(Error::FrameParseFailure)));
    let ok = ReplayData::parse_strict("0|1.0|2.0|0,-12345|0|0|12345,").unwrap();
    assert_eq!(ok.frames.len(), 1);
    assert_eq!(ok.seed, Some(12345));
    let empty = ReplayData::parse_strict("").unwrap();
    assert!(empty.frames.is_empty());
    assert_eq!(empty.seed, None);
}
