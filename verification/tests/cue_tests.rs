use subbub::cue::{Cue, Timestamp, MAX_TIMESTAMP_MILLIS};
use subbub::merge::top_marker_string;

#[test]
fn timestamps_convert_to_total_milliseconds() {
    assert_eq!(Timestamp::new(0, 0, 1, 200).milliseconds, 1_200);
    assert_eq!(Timestamp::new(0, 1, 10, 314).milliseconds, 70_314);
    assert_eq!(Timestamp::new(1, 0, 0, 0).milliseconds, 3_600_000);
    assert_eq!(
        Timestamp::new(255, 59, 59, 999).milliseconds,
        MAX_TIMESTAMP_MILLIS
    );
}

#[test]
fn timestamps_decompose_back_into_fields() {
    let t = Timestamp::new(2, 3, 4, 567);
    assert_eq!(t.get(), (2, 3, 4, 567));
    let m = Timestamp::from_milliseconds(70_314);
    assert_eq!(m.get(), (0, 1, 10, 314));
    let zero = Timestamp::from_milliseconds(0);
    assert_eq!(zero.get(), (0, 0, 0, 0));
}

#[test]
fn cues_keep_their_fields() {
    let c = Cue::new(
        3,
        Timestamp::from_milliseconds(100),
        Timestamp::from_milliseconds(200),
        "hello".to_string(),
    );
    assert_eq!(c.num, 3);
    assert_eq!(c.start_time.milliseconds, 100);
    assert_eq!(c.end_time.milliseconds, 200);
    assert_eq!(c.text, "hello");

    let d = c.clone();
    assert_eq!(d.num, c.num);
    assert_eq!(d.text, c.text);
}

#[test]
fn the_positioning_marker_is_the_top_override() {
    assert_eq!(top_marker_string(), "{\\an8}");
}
