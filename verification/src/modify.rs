//! Transforms over whole cue sequences: shifting every cue's timing by a
//! fixed offset, and stripping markup from every cue's text.
use vstd::prelude::*;

use crate::cue::{Cue, CueModel, MAX_TIMESTAMP_MILLIS, Timestamp, seq_view};
use crate::text::push_char;
use vstd::string::StrSliceExecFns;

verus! {

broadcast use
    crate::cue::lemma_seq_view_len,
    crate::cue::lemma_seq_view_index,
    crate::cue::lemma_seq_view_push,
;

/// A cue moved `delta` milliseconds forward in time (backward when negative).
pub open spec fn shift_model(m: CueModel, delta: int) -> CueModel {
    CueModel { start: m.start + delta, end: m.end + delta, ..m }
}

/// A cue sequence with every cue moved `delta` milliseconds.
pub open spec fn shift_spec(s: Seq<CueModel>, delta: int) -> Seq<CueModel> {
    s.map_values(|m: CueModel| shift_model(m, delta))
}

/// Every timestamp of every cue stays representable when moved by `sec`
/// whole seconds and then by `ms` milliseconds more. The two parts are
/// applied one after the other, so the intermediate value must be in range
/// as well.
pub open spec fn shift_in_range(s: Seq<CueModel>, sec: int, ms: int) -> bool {
    forall|i: int|
        0 <= i < s.len() ==> {
            let c = #[trigger] s[i];
            &&& 0 <= c.start + sec * 1000 <= MAX_TIMESTAMP_MILLIS
            &&& 0 <= c.start + sec * 1000 + ms <= MAX_TIMESTAMP_MILLIS
            &&& 0 <= c.end + sec * 1000 <= MAX_TIMESTAMP_MILLIS
            &&& 0 <= c.end + sec * 1000 + ms <= MAX_TIMESTAMP_MILLIS
        }
}

/// Produces a new cue sequence in which every cue's start and end time are
/// moved by `seconds` whole seconds plus `milliseconds` milliseconds. The
/// offset is signed in both parts; a caller shifting earlier passes negated
/// values. Length, cue order, numbering and text are unchanged.
///
/// A shift that would take any timestamp outside the representable range
/// (below zero or past the largest timecode) is excluded by precondition;
/// timestamps are never clamped.
pub fn shift_seconds(subtitles: &Vec<Cue>, seconds: i64, milliseconds: i64) -> (r: Vec<Cue>)
    requires
        shift_in_range(seq_view(subtitles@), seconds as int, milliseconds as int),
    ensures
        seq_view(r@) == shift_spec(seq_view(subtitles@), seconds * 1000 + milliseconds),
{
    let ghost sv = seq_view(subtitles@);
    let ghost delta = seconds * 1000 + milliseconds;
    let mut result: Vec<Cue> = Vec::new();
    let mut i: usize = 0;
    while i < subtitles.len()
        invariant
            i <= subtitles.len(),
            sv == seq_view(subtitles@),
            delta == seconds * 1000 + milliseconds,
            shift_in_range(sv, seconds as int, milliseconds as int),
            seq_view(result@) =~= shift_spec(sv, delta).take(i as int),
        decreases subtitles.len() - i,
    {
        let c = &subtitles[i];
        proof {
            assert(sv[i as int] == c@);
        }
        let whole: i64 = seconds * 1000;
        let start_moved: i64 = c.start_time.milliseconds as i64 + whole + milliseconds;
        let end_moved: i64 = c.end_time.milliseconds as i64 + whole + milliseconds;
        let shifted = Cue::new(
            c.num,
            Timestamp::from_milliseconds(start_moved as u32),
            Timestamp::from_milliseconds(end_moved as u32),
            c.text.clone(),
        );
        result.push(shifted);
        proof {
            assert(shift_spec(sv, delta)[i as int] == shift_model(sv[i as int], delta));
            assert(0 <= start_moved as int <= MAX_TIMESTAMP_MILLIS);
            assert(shifted@ == shift_model(sv[i as int], delta));
            assert(seq_view(result@) =~= shift_spec(sv, delta).take(i + 1 as int));
        }
        i = i + 1;
    }
    proof {
        assert(shift_spec(sv, delta).take(sv.len() as int) =~= shift_spec(sv, delta));
    }
    result
}

/// Shifting a sequence by an offset and then by its negation returns every
/// cue's timestamps to their original values.
pub proof fn lemma_shift_inverse(s: Seq<CueModel>, delta: int)
    ensures
        shift_spec(shift_spec(s, delta), -delta) == s,
{
    assert(shift_spec(shift_spec(s, delta), -delta) =~= s);
}

/// Shifting a sequence by `a` and then by `b` equals shifting it once by
/// `a + b`.
pub proof fn lemma_shift_linear(s: Seq<CueModel>, a: int, b: int)
    ensures
        shift_spec(shift_spec(s, a), b) == shift_spec(s, a + b),
{
    assert(shift_spec(shift_spec(s, a), b) =~= shift_spec(s, a + b));
}

/// Whether a character opens a bracketed span of markup.
pub open spec fn opens_bracket(c: char) -> bool {
    c == '<' || c == '{' || c == '['
}

/// Whether a character closes a bracketed span of markup.
pub open spec fn closes_bracket(c: char) -> bool {
    c == '>' || c == '}' || c == ']'
}

/// The text with every bracketed span removed: characters are kept only
/// while no opened bracket (angle, curly or square) is pending. A closing
/// character with no pending open bracket is dropped and the depth stays at
/// zero.
pub open spec fn debracket(s: Seq<char>, depth: nat) -> Seq<char>
    decreases s.len(),
{
    if s.len() == 0 {
        Seq::empty()
    } else {
        let c = s[0];
        let rest = s.drop_first();
        if opens_bracket(c) {
            debracket(rest, depth + 1)
        } else if closes_bracket(c) {
            debracket(rest, if depth > 0 { (depth - 1) as nat } else { 0 })
        } else if depth == 0 {
            seq![c] + debracket(rest, 0)
        } else {
            debracket(rest, depth)
        }
    }
}

/// Removes bracketed spans (angle, curly and square brackets and whatever
/// stands between them) from a string, keeping everything outside them.
pub fn remove_bracketed_info_from_string(string: &str) -> (r: String)
    ensures
        r@ == debracket(string@, 0),
{
    let mut result = String::new();
    let mut skip: usize = 0;
    let n = string.unicode_len();
    let mut i: usize = 0;
    proof {
        assert(string@.skip(0) =~= string@);
        assert(result@ + debracket(string@, 0) =~= debracket(string@, 0));
    }
    while i < n
        invariant
            n == string@.len(),
            i <= n,
            skip <= i,
            debracket(string@, 0) == result@ + debracket(string@.skip(i as int), skip as nat),
        decreases n - i,
    {
        let c = string.get_char(i);
        let ghost rest = string@.skip(i as int);
        proof {
            assert(rest[0] == c);
            assert(rest.drop_first() =~= string@.skip(i + 1 as int));
        }
        if c == '<' || c == '{' || c == '[' {
            skip = skip + 1;
        } else if c == '>' || c == '}' || c == ']' {
            if skip > 0 {
                skip = skip - 1;
            }
        } else {
            if skip == 0 {
                push_char(&mut result, c);
                proof {
                    assert(result@ + debracket(string@.skip(i + 1 as int), 0) =~= result@.drop_last()
                        + (seq![c] + debracket(string@.skip(i + 1 as int), 0)));
                }
            }
        }
        i = i + 1;
    }
    proof {
        assert(string@.skip(n as int) =~= Seq::<char>::empty());
        assert(result@ =~= result@ + Seq::<char>::empty());
    }
    result
}

/// What scraper's fragment parser leaves of a string once every HTML tag is
/// removed: the concatenated text content. The result depends on the input
/// characters alone.
pub uninterp spec fn html_text_of(s: Seq<char>) -> Seq<char>;

/// Relies on scraper::Html::parse_fragment: parses the string as an HTML
/// fragment and concatenates the text nodes of the resulting tree, removing
/// tags and anything else that is not text.
#[verifier::external_body]
fn strip_html_string(string: &str) -> (r: String)
    ensures
        r@ == html_text_of(string@),
{
    let mut strings = Vec::new();
    let fragment = scraper::Html::parse_fragment(string);
    for node in fragment.tree {
        if let scraper::node::Node::Text(text) = node {
            strings.push(text.text.to_string());
        }
    }
    strings.join("")
}

/// Strips HTML tags from every cue's text, removing custom fonts, sizes and
/// colors. Timing and numbering are unchanged.
pub fn strip_html(subs: &mut Vec<Cue>)
    ensures
        final(subs)@.len() == old(subs)@.len(),
        forall|i: int|
            0 <= i < old(subs)@.len() ==> #[trigger] final(subs)@[i]@ == (CueModel {
                text: html_text_of(old(subs)@[i]@.text),
                ..old(subs)@[i]@
            }),
{
    let mut i: usize = 0;
    while i < subs.len()
        invariant
            subs@.len() == old(subs)@.len(),
            i <= subs@.len(),
            forall|m: int|
                i <= m < subs@.len() ==> #[trigger] subs@[m]@ == old(subs)@[m]@,
            forall|m: int|
                0 <= m < i ==> #[trigger] subs@[m]@ == (CueModel {
                    text: html_text_of(old(subs)@[m]@.text),
                    ..old(subs)@[m]@
                }),
        decreases subs@.len() - i,
    {
        let ghost prev = subs@;
        let stripped = strip_html_string(subs[i].text.as_str());
        subs[i].text = stripped;
        proof {
            assert forall|m: int| 0 <= m < i + 1 implies #[trigger] subs@[m]@ == (CueModel {
                text: html_text_of(old(subs)@[m]@.text),
                ..old(subs)@[m]@
            }) by {
                if m < i {
                    assert(subs@[m] == prev[m]);
                    assert(prev[m]@ == (CueModel {
                        text: html_text_of(old(subs)@[m]@.text),
                        ..old(subs)@[m]@
                    }));
                } else {
                    assert(prev[m]@ == old(subs)@[m]@);
                }
            }
            assert forall|m: int| i + 1 <= m < subs@.len() implies #[trigger] subs@[m]@ == old(
                subs,
            )@[m]@ by {
                assert(subs@[m] == prev[m]);
                assert(prev[m]@ == old(subs)@[m]@);
            }
        }
        i = i + 1;
    }
}

/// Removes bracketed spans from every cue's text. Timing and numbering are
/// unchanged.
pub fn remove_bracketed_info(subs: &mut Vec<Cue>)
    ensures
        final(subs)@.len() == old(subs)@.len(),
        forall|i: int|
            0 <= i < old(subs)@.len() ==> #[trigger] final(subs)@[i]@ == (CueModel {
                text: debracket(old(subs)@[i]@.text, 0),
                ..old(subs)@[i]@
            }),
{
    let mut i: usize = 0;
    while i < subs.len()
        invariant
            subs@.len() == old(subs)@.len(),
            i <= subs@.len(),
            forall|m: int|
                i <= m < subs@.len() ==> #[trigger] subs@[m]@ == old(subs)@[m]@,
            forall|m: int|
                0 <= m < i ==> #[trigger] subs@[m]@ == (CueModel {
                    text: debracket(old(subs)@[m]@.text, 0),
                    ..old(subs)@[m]@
                }),
        decreases subs@.len() - i,
    {
        let ghost prev = subs@;
        let stripped = remove_bracketed_info_from_string(subs[i].text.as_str());
        subs[i].text = stripped;
        proof {
            assert forall|m: int| 0 <= m < i + 1 implies #[trigger] subs@[m]@ == (CueModel {
                text: debracket(old(subs)@[m]@.text, 0),
                ..old(subs)@[m]@
            }) by {
                if m < i {
                    assert(subs@[m] == prev[m]);
                    assert(prev[m]@ == (CueModel {
                        text: debracket(old(subs)@[m]@.text, 0),
                        ..old(subs)@[m]@
                    }));
                } else {
                    assert(prev[m]@ == old(subs)@[m]@);
                }
            }
            assert forall|m: int| i + 1 <= m < subs@.len() implies #[trigger] subs@[m]@ == old(
                subs,
            )@[m]@ by {
                assert(subs@[m] == prev[m]);
                assert(prev[m]@ == old(subs)@[m]@);
            }
        }
        i = i + 1;
    }
}

/// Cleans every cue's text: first strips HTML tags, then removes bracketed
/// spans. Timing and numbering are unchanged.
pub fn clean_subtitles(subs: &mut Vec<Cue>)
    ensures
        final(subs)@.len() == old(subs)@.len(),
        forall|i: int|
            0 <= i < old(subs)@.len() ==> #[trigger] final(subs)@[i]@ == (CueModel {
                text: debracket(html_text_of(old(subs)@[i]@.text), 0),
                ..old(subs)@[i]@
            }),
{
    strip_html(subs);
    remove_bracketed_info(subs);
}

} // verus!
