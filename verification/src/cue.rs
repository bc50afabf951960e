//! The cue model: a timed subtitle event and its timestamp.
use vstd::prelude::*;

verus! {

/// The largest representable timestamp, 255:59:59,999, in milliseconds.
pub const MAX_TIMESTAMP_MILLIS: u32 = 255 * 3600000 + 59 * 60000 + 59 * 1000 + 999;

/// A timestamp with millisecond resolution, following the timecode format
/// hours:minutes:seconds,milliseconds. Stored as a total count of
/// milliseconds; the greatest representable value is 255:59:59,999.
#[derive(Clone, Copy, PartialEq, Eq, Structural, Debug)]
pub struct Timestamp {
    pub milliseconds: u32,
}

impl Timestamp {
    /// A timestamp is well formed when it does not exceed the timecode range.
    pub open spec fn wf(self) -> bool {
        self.milliseconds <= MAX_TIMESTAMP_MILLIS
    }

    /// Converts hours, minutes, seconds and milliseconds to total milliseconds.
    pub open spec fn spec_total_millis(hours: u8, minutes: u8, seconds: u8, milliseconds: u16) -> int {
        ((hours as int * 60 + minutes as int) * 60 + seconds as int) * 1000 + milliseconds as int
    }

    /// Constructs a timestamp from the four timecode fields.
    pub fn new(hours: u8, minutes: u8, seconds: u8, milliseconds: u16) -> (r: Timestamp)
        requires
            minutes < 60,
            seconds < 60,
            milliseconds < 1000,
        ensures
            r.milliseconds == Self::spec_total_millis(hours, minutes, seconds, milliseconds),
            r.wf(),
    {
        let total: u32 = ((hours as u32 * 60 + minutes as u32) * 60 + seconds as u32) * 1000
            + milliseconds as u32;
        Timestamp { milliseconds: total }
    }

    /// Constructs a timestamp directly from a count of milliseconds.
    pub fn from_milliseconds(millis: u32) -> (r: Timestamp)
        ensures
            r.milliseconds == millis,
    {
        Timestamp { milliseconds: millis }
    }

    /// Returns the timestamp as (hours, minutes, seconds, milliseconds).
    pub fn get(&self) -> (r: (u8, u8, u8, u16))
        requires
            self.wf(),
        ensures
            Self::spec_total_millis(r.0, r.1, r.2, r.3) == self.milliseconds,
            r.1 < 60,
            r.2 < 60,
            r.3 < 1000,
    {
        let hours: u32 = self.milliseconds / 3600000;
        let rest: u32 = self.milliseconds % 3600000;
        let minutes: u32 = rest / 60000;
        let rest2: u32 = rest % 60000;
        let seconds: u32 = rest2 / 1000;
        let millis: u32 = rest2 % 1000;
        (hours as u8, minutes as u8, seconds as u8, millis as u16)
    }
}

/// The mathematical value of a cue: its number, its start and end in
/// milliseconds, and its text as a sequence of characters.
pub ghost struct CueModel {
    pub num: int,
    pub start: int,
    pub end: int,
    pub text: Seq<char>,
}

/// One timed subtitle event: a numeric counter used for display order, the
/// time range during which it is shown, and its text.
#[derive(Debug)]
pub struct Cue {
    pub num: usize,
    pub start_time: Timestamp,
    pub end_time: Timestamp,
    pub text: String,
}

impl View for Cue {
    type V = CueModel;

    open spec fn view(&self) -> CueModel {
        CueModel {
            num: self.num as int,
            start: self.start_time.milliseconds as int,
            end: self.end_time.milliseconds as int,
            text: self.text@,
        }
    }
}

impl Cue {
    /// Constructs a new cue.
    pub fn new(num: usize, start_time: Timestamp, end_time: Timestamp, text: String) -> (r: Cue)
        ensures
            r@ == (CueModel {
                num: num as int,
                start: start_time.milliseconds as int,
                end: end_time.milliseconds as int,
                text: text@,
            }),
    {
        Cue { num, start_time, end_time, text }
    }
}

impl Clone for Cue {
    fn clone(&self) -> (r: Cue)
        ensures
            r@ == self@,
    {
        Cue {
            num: self.num,
            start_time: self.start_time,
            end_time: self.end_time,
            text: self.text.clone(),
        }
    }
}

/// The mathematical value of a cue sequence.
pub open spec fn seq_view(s: Seq<Cue>) -> Seq<CueModel> {
    s.map_values(|c: Cue| c@)
}

pub broadcast proof fn lemma_seq_view_len(s: Seq<Cue>)
    ensures
        #[trigger] seq_view(s).len() == s.len(),
{
}

pub broadcast proof fn lemma_seq_view_index(s: Seq<Cue>, i: int)
    requires
        0 <= i < s.len(),
    ensures
        #[trigger] seq_view(s)[i] == s[i]@,
{
}

pub broadcast proof fn lemma_seq_view_push(s: Seq<Cue>, c: Cue)
    ensures
        #[trigger] seq_view(s.push(c)) =~= seq_view(s).push(c@),
{
    assert forall|m: int| 0 <= m < s.len() + 1 implies seq_view(s.push(c))[m] == seq_view(s).push(
        c@,
    )[m] by {
        if m < s.len() {
            assert(s.push(c)[m] == s[m]);
        } else {
            assert(s.push(c)[m] == c);
        }
    }
}

} // verus!
