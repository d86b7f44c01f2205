use osr_codec::decimal::Decimal;
use osr_codec::error::Error;
use osr_codec::lifebar::LifeBar;
use osr_codec::lifebar::LifeBarEvent;

// Life Bar Event

#[test]
fn parse_event() {
    let valid_event_str = "1,2249";

    let event = LifeBarEvent::parse(valid_event_str).unwrap();

    assert_eq!(event.u, 2249_u32);
    assert_eq!(event.v, Decimal::from_int(1));
}

#[test]
fn serialize_event() {
    let event = LifeBarEvent {
        u: 2249,
        v: Decimal::from_int(1),
    };

    let serialized_event: String = event.serialize();

    assert_eq!(serialized_event, "1,2249");
}

// Life Bar

#[test]
fn parse_lifebar() {
    let valid_events = "256|1,2657|1,10213|1,";

    let life_bar = LifeBar::parse(valid_events).unwrap();

    assert_eq!(life_bar.base_time, 256);

    assert_eq!(life_bar.events()[0].u, 2657);
    assert_eq!(life_bar.events()[0].v, Decimal::from_int(1));
    assert_eq!(life_bar.events()[1].u, 10213);
    assert_eq!(life_bar.events()[1].v, Decimal::from_int(1));
}

#[test]
fn serialize_lifebar() {
    let mut life_bar = LifeBar::new();
    life_bar.base_time = 256;
    life_bar.events.push(LifeBarEvent {
        u: 2657,
        v: Decimal::from_int(1),
    });
    life_bar.events.push(LifeBarEvent {
        u: 10213,
        v: Decimal::from_int(1),
    });

    let serialized_lifebar = life_bar.serialize();

    assert_eq!(serialized_lifebar, "256|1,2657|1,10213|1,");
}

// Round trips and edge cases of the mini-format

#[test]
fn lifebar_round_trip_through_text() {
    let text = "256|1,2657|0.5,10213|1,";
    let life_bar = LifeBar::parse(text).unwrap();
    assert_eq!(life_bar.events()[1].v, Decimal::from_units(5_000_000));
    assert_eq!(life_bar.serialize(), text);
}

#[test]
fn empty_lifebar_serializes_to_empty_string() {
    let life_bar = LifeBar::new();
    assert_eq!(life_bar.serialize(), "");
    let back = LifeBar::parse("").unwrap();
    assert_eq!(back.base_time, 0);
    assert!(back.events().is_empty());
}

#[test]
fn lifebar_trailing_terminator_is_not_an_event() {
    let life_bar = LifeBar::parse("1,100|1,").unwrap();
    assert_eq!(life_bar.events().len(), 1);
    assert_eq!(life_bar.events()[0].u, 100);
}

#[test]
fn delete_bar_data_clears_the_timeline() {
    let mut life_bar = LifeBar::parse("256|1,2657|1,").unwrap();
    life_bar.delete_bar_data();
    assert_eq!(life_bar.base_time, 0);
    assert!(life_bar.events().is_empty());
}

#[test]
fn event_parse_rejects_bad_shapes() {
    assert!(matches!(
        LifeBarEvent::parse("1"),
        Err(Error::InvalidStringFrameFormat)
    ));
    assert!(matches!(
        LifeBarEvent::parse("1,2,3"),
        Err(Error::InvalidStringFrameFormat)
    ));
    assert!(matches!(
        LifeBarEvent::parse("x,10"),
        Err(Error::CantParseFrameValue)
    ));
    assert!(matches!(
        LifeBarEvent::parse("1,x"),
        Err(Error::CantParseFrameValue)
    ));
    assert!(matches!(
        LifeBarEvent::parse("1e3,10"),
        Err(Error::CantParseFrameValue)
    ));
    assert!(matches!(
        LifeBarEvent::parse("inf,10"),
        Err(Error::CantParseFrameValue)
    ));
}

#[test]
fn event_parse_reads_decimal_fractions() {
    assert_eq!(
        LifeBarEvent::parse("1.5,10").unwrap().v,
        Decimal::from_units(15_000_000)
    );
    assert_eq!(
        LifeBarEvent::parse(".5,10").unwrap().v,
        Decimal::from_units(5_000_000)
    );
    assert_eq!(
        LifeBarEvent::parse("1.,10").unwrap().v,
        Decimal::from_int(1)
    );
    assert_eq!(
        LifeBarEvent::parse("-0.25,10").unwrap().v,
        Decimal::from_units(-2_500_000)
    );
    // Digits beyond the seventh fractional place are read but truncated.
    assert_eq!(
        LifeBarEvent::parse("0.123456789,10").unwrap().v,
        Decimal::from_units(1_234_567)
    );
}

#[test]
fn event_serialize_strips_trailing_zeros() {
    let half = LifeBarEvent {
        u: 7,
        v: Decimal::from_units(5_000_000),
    };
    assert_eq!(half.serialize(), "0.5,7");
    let neg = LifeBarEvent {
        u: 9,
        v: Decimal::from_units(-2_500_000),
    };
    assert_eq!(neg.serialize(), "-0.25,9");
}
