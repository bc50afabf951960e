use subbub::cue::{Cue, Timestamp};
use subbub::modify::{
    clean_subtitles, remove_bracketed_info, remove_bracketed_info_from_string, shift_seconds,
    strip_html,
};

fn cue(num: usize, start: u32, end: u32, text: &str) -> Cue {
    Cue::new(
        num,
        Timestamp::from_milliseconds(start),
        Timestamp::from_milliseconds(end),
        text.to_string(),
    )
}

/// Splits a fractional number of seconds the way the command layer does:
/// whole seconds, then the millisecond remainder.
fn decompose(seconds: f32) -> (i64, i64) {
    let whole = seconds as i64;
    let millis = ((seconds - whole as f32) * 1000.0) as i64;
    (whole, millis)
}

#[test]
fn shift_back_one_and_a_half_seconds() {
    // Shifting 00:00:10,000 -> 00:00:12,000 by -1.5 seconds gives
    // 00:00:08,500 -> 00:00:10,500.
    let subs = vec![cue(0, 10_000, 12_000, "text")];
    let (sec, ms) = decompose(-1.5);
    assert_eq!((sec, ms), (-1, -500));
    let shifted = shift_seconds(&subs, sec, ms);

    assert_eq!(shifted.len(), 1);
    assert_eq!(shifted[0].start_time.milliseconds, 8_500);
    assert_eq!(shifted[0].end_time.milliseconds, 10_500);
    assert_eq!(shifted[0].num, 0);
    assert_eq!(shifted[0].text, "text");
}

#[test]
fn shift_then_inverse_restores_timing() {
    let subs = vec![cue(0, 4_000, 6_000, "a"), cue(1, 7_250, 9_000, "b")];
    let there = shift_seconds(&subs, 2, 500);
    let back = shift_seconds(&there, -2, -500);

    for (orig, round) in subs.iter().zip(back.iter()) {
        assert_eq!(orig.start_time.milliseconds, round.start_time.milliseconds);
        assert_eq!(orig.end_time.milliseconds, round.end_time.milliseconds);
        assert_eq!(orig.text, round.text);
        assert_eq!(orig.num, round.num);
    }
}

#[test]
fn shift_twice_equals_shift_by_sum() {
    let subs = vec![cue(0, 30_000, 31_000, "x")];
    let stepwise = shift_seconds(&shift_seconds(&subs, 3, 250), -1, -750);
    let at_once = shift_seconds(&subs, 2, -500);

    assert_eq!(
        stepwise[0].start_time.milliseconds,
        at_once[0].start_time.milliseconds
    );
    assert_eq!(
        stepwise[0].end_time.milliseconds,
        at_once[0].end_time.milliseconds
    );
    assert_eq!(stepwise[0].start_time.milliseconds, 31_500);
}

#[test]
fn shift_forward_whole_seconds() {
    let subs = vec![cue(3, 0, 500, "start")];
    let shifted = shift_seconds(&subs, 10, 0);
    assert_eq!(shifted[0].start_time.milliseconds, 10_000);
    assert_eq!(shifted[0].end_time.milliseconds, 10_500);
}

#[test]
fn remove_brackets_from_string_drops_bracketed_spans() {
    assert_eq!(remove_bracketed_info_from_string("He[llo] wor{l}d"), "He word");
    assert_eq!(
        remove_bracketed_info_from_string("<i>styled</i> plain"),
        "styled plain"
    );
    assert_eq!(remove_bracketed_info_from_string("nothing here"), "nothing here");
    assert_eq!(remove_bracketed_info_from_string(""), "");
}

#[test]
fn remove_brackets_handles_unbalanced_input() {
    // A closing bracket with nothing open is dropped; an unclosed opening
    // bracket swallows the rest.
    assert_eq!(remove_bracketed_info_from_string("a]b"), "ab");
    assert_eq!(remove_bracketed_info_from_string("a<b"), "a");
    assert_eq!(remove_bracketed_info_from_string("[[x]]y"), "y");
}

#[test]
fn strip_html_removes_tags_from_cues() {
    let mut subs = vec![cue(0, 0, 1000, "<i>Hello</i> world")];
    strip_html(&mut subs);
    assert_eq!(subs[0].text, "Hello world");
    assert_eq!(subs[0].start_time.milliseconds, 0);
    assert_eq!(subs[0].end_time.milliseconds, 1000);
    assert_eq!(subs[0].num, 0);
}

#[test]
fn strip_html_keeps_plain_text() {
    let mut subs = vec![cue(1, 500, 900, "no markup at all")];
    strip_html(&mut subs);
    assert_eq!(subs[0].text, "no markup at all");
}

#[test]
fn remove_bracketed_info_cleans_every_cue() {
    let mut subs = vec![
        cue(0, 0, 100, "[music] Hi"),
        cue(1, 200, 300, "Bye {note}"),
    ];
    remove_bracketed_info(&mut subs);
    assert_eq!(subs[0].text, " Hi");
    assert_eq!(subs[1].text, "Bye ");
}

#[test]
fn clean_subtitles_strips_html_then_brackets() {
    let mut subs = vec![cue(0, 0, 100, "<b>Hi [loud]</b>")];
    clean_subtitles(&mut subs);
    assert_eq!(subs[0].text, "Hi ");
}
