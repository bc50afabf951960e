//! Classification of file paths and of subtitle/video sources, and small
//! helpers shared by the surrounding command layer.
use vstd::prelude::*;

use crate::text::push_char;
use vstd::string::StrSliceExecFns;
use vstd::string::StringExecFns;

verus! {

/// The position right after the last '/' of a path: where its final segment
/// (the file name) begins. Zero when the path has no '/'.
pub open spec fn file_name_start(p: Seq<char>) -> int
    decreases p.len(),
{
    if p.len() == 0 {
        0
    } else if p.last() == '/' {
        p.len() as int
    } else {
        file_name_start(p.drop_last())
    }
}

/// The index within a file name of the last '.' that is not its first
/// character, or -1 when there is none. A leading '.' alone (as in a hidden
/// file) does not begin an extension.
pub open spec fn last_dot(name: Seq<char>) -> int
    decreases name.len(),
{
    if name.len() <= 1 {
        -1
    } else if name.last() == '.' {
        name.len() - 1
    } else {
        last_dot(name.drop_last())
    }
}

/// The extension of a path: the characters after the last '.' of its final
/// segment, or nothing when that segment has no '.' past its first
/// character.
pub open spec fn spec_extension(p: Seq<char>) -> Option<Seq<char>> {
    let name = p.skip(file_name_start(p));
    let d = last_dot(name);
    if d == -1 {
        None
    } else {
        Some(name.skip(d + 1))
    }
}

proof fn lemma_last_dot_bounds(name: Seq<char>)
    ensures
        -1 <= last_dot(name) < name.len(),
    decreases name.len(),
{
    if name.len() > 1 && name.last() != '.' {
        lemma_last_dot_bounds(name.drop_last());
    }
}

/// Returns the extension of the path, if it has one: the characters after
/// the last '.' of its final path segment.
pub fn extension_of(path: &str) -> (r: Option<String>)
    ensures
        match r {
            Some(e) => spec_extension(path@) == Some(e@),
            None => spec_extension(path@) is None,
        },
{
    let n = path.unicode_len();
    let mut fs: usize = 0;
    let mut i: usize = 0;
    proof {
        assert(path@.take(0) =~= Seq::<char>::empty());
    }
    while i < n
        invariant
            n == path@.len(),
            i <= n,
            fs <= i,
            fs == file_name_start(path@.take(i as int)),
        decreases n - i,
    {
        let c = path.get_char(i);
        proof {
            assert(path@.take(i + 1 as int).drop_last() =~= path@.take(i as int));
            assert(path@.take(i + 1 as int).last() == c);
        }
        if c == '/' {
            fs = i + 1;
        }
        i = i + 1;
    }
    proof {
        assert(path@.take(n as int) =~= path@);
    }
    let ghost name = path@.skip(fs as int);

    // Scan the file name for the last '.' beyond its first character,
    // keeping the index shifted up by one so that zero means "none".
    let mut dot_next: usize = 0;
    let mut j: usize = 0;
    proof {
        assert(name.take(0) =~= Seq::<char>::empty());
        assert(last_dot(name.take(0)) == -1);
    }
    while j < n - fs
        invariant
            n == path@.len(),
            fs <= n,
            name == path@.skip(fs as int),
            j <= n - fs,
            dot_next <= j,
            dot_next as int - 1 == last_dot(name.take(j as int)),
        decreases n - fs - j,
    {
        let c = path.get_char(fs + j);
        proof {
            assert(name[j as int] == path@[fs + j]);
            assert(name.take(j + 1 as int).drop_last() =~= name.take(j as int));
            assert(name.take(j + 1 as int).last() == name[j as int]);
        }
        if j >= 1 && c == '.' {
            dot_next = j + 1;
        }
        j = j + 1;
    }
    proof {
        assert(name.take((n - fs) as int) =~= name);
    }

    if dot_next == 0 {
        None
    } else {
        proof {
            lemma_last_dot_bounds(name);
            assert(name.skip(dot_next as int) =~= path@.subrange(fs + dot_next, n as int));
        }
        let ext = path.substring_char(fs + dot_next, n);
        Some(ext.to_owned())
    }
}

/// The file extensions of the subtitle formats the tool works with.
pub open spec fn subtitle_extensions() -> Set<Seq<char>> {
    set![seq!['a', 's', 's'], seq!['s', 's', 'a'], seq!['s', 'r', 't']]
}

/// The file extensions of the video containers the tool works with.
pub open spec fn video_extensions() -> Set<Seq<char>> {
    set![seq!['m', 'k', 'v'], seq!['m', 'p', '4'], seq!['a', 'v', 'i']]
}

/// Whether a path names a subtitle file: its extension is one of the
/// subtitle formats.
pub open spec fn is_subtitle_path(p: Seq<char>) -> bool {
    match spec_extension(p) {
        Some(e) => subtitle_extensions().contains(e),
        None => false,
    }
}

/// Whether a path names a video file: its extension is one of the video
/// containers.
pub open spec fn is_video_path(p: Seq<char>) -> bool {
    match spec_extension(p) {
        Some(e) => video_extensions().contains(e),
        None => false,
    }
}

/// Whether the string is exactly the three given characters.
fn str_is3(s: &str, a: char, b: char, c: char) -> (r: bool)
    ensures
        r == (s@ == seq![a, b, c]),
{
    if s.unicode_len() != 3 {
        proof {
            assert(s@ != seq![a, b, c]);
        }
        return false;
    }
    let r = s.get_char(0) == a && s.get_char(1) == b && s.get_char(2) == c;
    proof {
        if r {
            assert(s@ =~= seq![a, b, c]);
        }
    }
    r
}

/// Decides whether the path names a subtitle file, by its extension.
pub fn is_subtitle_file(path: &str) -> (r: bool)
    ensures
        r == is_subtitle_path(path@),
{
    match extension_of(path) {
        Some(e) => {
            let s = e.as_str();
            str_is3(s, 'a', 's', 's') || str_is3(s, 's', 's', 'a') || str_is3(s, 's', 'r', 't')
        },
        None => false,
    }
}

/// Decides whether the path names a video file, by its extension.
pub fn is_video_file(path: &str) -> (r: bool)
    ensures
        r == is_video_path(path@),
{
    match extension_of(path) {
        Some(e) => {
            let s = e.as_str();
            str_is3(s, 'm', 'k', 'v') || str_is3(s, 'm', 'p', '4') || str_is3(s, 'a', 'v', 'i')
        },
        None => false,
    }
}

/// Keeps the paths that name video files, in order.
pub fn list_video_files(entries: &Vec<String>) -> (r: Vec<String>)
    ensures
        r@ == entries@.filter(|s: String| is_video_path(s@)),
{
    let mut r: Vec<String> = Vec::new();
    let mut i: usize = 0;
    proof {
        assert(entries@.take(0) =~= Seq::<String>::empty());
        assert(Seq::<String>::empty().filter(|s: String| is_video_path(s@)) =~= Seq::<
            String,
        >::empty());
    }
    while i < entries.len()
        invariant
            i <= entries@.len(),
            r@ == entries@.take(i as int).filter(|s: String| is_video_path(s@)),
        decreases entries@.len() - i,
    {
        let p = &entries[i];
        proof {
            assert(entries@.take(i + 1 as int) =~= entries@.take(i as int).push(entries@[i as int]));
            entries@.take(i as int).lemma_filter_push(
                entries@[i as int],
                |s: String| is_video_path(s@),
            );
        }
        if is_video_file(p.as_str()) {
            r.push(p.clone());
        }
        i = i + 1;
    }
    proof {
        assert(entries@.take(entries@.len() as int) =~= entries@);
    }
    r
}

/// Keeps the paths that name subtitle files, in order.
pub fn list_subtitles_files(entries: &Vec<String>) -> (r: Vec<String>)
    ensures
        r@ == entries@.filter(|s: String| is_subtitle_path(s@)),
{
    let mut r: Vec<String> = Vec::new();
    let mut i: usize = 0;
    proof {
        assert(entries@.take(0) =~= Seq::<String>::empty());
        assert(Seq::<String>::empty().filter(|s: String| is_subtitle_path(s@)) =~= Seq::<
            String,
        >::empty());
    }
    while i < entries.len()
        invariant
            i <= entries@.len(),
            r@ == entries@.take(i as int).filter(|s: String| is_subtitle_path(s@)),
        decreases entries@.len() - i,
    {
        let p = &entries[i];
        proof {
            assert(entries@.take(i + 1 as int) =~= entries@.take(i as int).push(entries@[i as int]));
            entries@.take(i as int).lemma_filter_push(
                entries@[i as int],
                |s: String| is_subtitle_path(s@),
            );
        }
        if is_subtitle_file(p.as_str()) {
            r.push(p.clone());
        }
        i = i + 1;
    }
    proof {
        assert(entries@.take(entries@.len() as int) =~= entries@);
    }
    r
}

/// Whether a character is a decimal digit.
pub open spec fn is_ascii_digit(c: char) -> bool {
    '0' as int <= c as int <= '9' as int
}

/// Whether every character of the sequence is a decimal digit.
pub open spec fn all_digits(s: Seq<char>) -> bool {
    forall|i: int| 0 <= i < s.len() ==> is_ascii_digit(#[trigger] s[i])
}

/// The number the digit characters denote, read in base ten.
pub open spec fn digits_value(s: Seq<char>) -> int
    decreases s.len(),
{
    if s.len() == 0 {
        0
    } else {
        digits_value(s.drop_last()) * 10 + (s.last() as int - '0' as int)
    }
}

/// How an unsigned number is read from a string: an optional leading '+',
/// then one or more decimal digits whose value fits; anything else is
/// rejected.
pub open spec fn spec_parse_u32(s: Seq<char>) -> Option<u32> {
    let ds = if s.len() > 0 && s[0] == '+' {
        s.drop_first()
    } else {
        s
    };
    if ds.len() > 0 && all_digits(ds) && digits_value(ds) <= u32::MAX {
        Some(digits_value(ds) as u32)
    } else {
        None
    }
}

proof fn lemma_digits_value_nonneg(s: Seq<char>)
    requires
        all_digits(s),
    ensures
        digits_value(s) >= 0,
    decreases s.len(),
{
    if s.len() > 0 {
        assert(all_digits(s.drop_last())) by {
            assert(forall|i: int| 0 <= i < s.len() - 1 ==> s.drop_last()[i] == s[i]);
        }
        lemma_digits_value_nonneg(s.drop_last());
        assert(is_ascii_digit(s.last()));
    }
}

proof fn lemma_digits_value_monotone(s: Seq<char>, k: int)
    requires
        all_digits(s),
        0 <= k <= s.len(),
    ensures
        digits_value(s) >= digits_value(s.take(k)),
    decreases s.len() - k,
{
    if k == s.len() {
        assert(s.take(k) =~= s);
    } else {
        lemma_digits_value_monotone(s, k + 1);
        assert(s.take(k + 1).drop_last() =~= s.take(k));
        assert(all_digits(s.take(k))) by {
            assert(forall|i: int| 0 <= i < k ==> s.take(k)[i] == s[i]);
        }
        lemma_digits_value_nonneg(s.take(k));
        assert(is_ascii_digit(s.take(k + 1).last()));
    }
}

/// Reads an unsigned number from a string: an optional leading '+', then one
/// or more decimal digits. Returns nothing when the string has any other
/// shape or the value does not fit.
pub fn parse_u32(s: &str) -> (r: Option<u32>)
    ensures
        r == spec_parse_u32(s@),
{
    let n = s.unicode_len();
    let mut start: usize = 0;
    if n > 0 && s.get_char(0) == '+' {
        start = 1;
    }
    let ghost ds = if s@.len() > 0 && s@[0] == '+' {
        s@.drop_first()
    } else {
        s@
    };
    proof {
        assert(ds =~= s@.skip(start as int));
    }
    if start >= n {
        // No digits at all.
        return None;
    }
    let mut acc: u64 = 0;
    let mut j: usize = start;
    proof {
        assert(ds.take(0) =~= Seq::<char>::empty());
    }
    while j < n
        invariant
            n == s@.len(),
            start <= j <= n,
            ds == s@.skip(start as int),
            ds == (if s@.len() > 0 && s@[0] == '+' {
                s@.drop_first()
            } else {
                s@
            }),
            acc <= u32::MAX,
            all_digits(ds.take(j - start)),
            acc == digits_value(ds.take(j - start)),
        decreases n - j,
    {
        let c = s.get_char(j);
        let ghost k = j - start;
        proof {
            assert(ds[k as int] == s@[j as int]);
            assert(ds.take(k + 1 as int).drop_last() =~= ds.take(k as int));
            assert(ds.take(k + 1 as int).last() == ds[k as int]);
        }
        let d = c as u32;
        if d < '0' as u32 || d > '9' as u32 {
            proof {
                assert(!is_ascii_digit(ds[k as int]));
                assert(!all_digits(ds));
            }
            return None;
        }
        acc = acc * 10 + (d - '0' as u32) as u64;
        proof {
            assert(acc == digits_value(ds.take(k + 1 as int)));
        }
        if acc > u32::MAX as u64 {
            proof {
                if all_digits(ds) {
                    lemma_digits_value_monotone(ds, k + 1);
                }
            }
            return None;
        }
        j = j + 1;
    }
    proof {
        assert(ds.take((n - start) as int) =~= ds);
    }
    Some(acc as u32)
}

/// The character denoting one decimal digit.
pub open spec fn digit_char(d: int) -> char {
    if d == 0 {
        '0'
    } else if d == 1 {
        '1'
    } else if d == 2 {
        '2'
    } else if d == 3 {
        '3'
    } else if d == 4 {
        '4'
    } else if d == 5 {
        '5'
    } else if d == 6 {
        '6'
    } else if d == 7 {
        '7'
    } else if d == 8 {
        '8'
    } else {
        '9'
    }
}

/// The decimal digits of a non-negative number, most significant first;
/// empty for zero.
pub open spec fn decimal_digits(n: int) -> Seq<char>
    decreases n,
{
    if n <= 0 {
        Seq::empty()
    } else {
        decimal_digits(n / 10).push(digit_char(n % 10))
    }
}

/// A number written in decimal: its digits, or "0" for zero.
pub open spec fn spec_u32_string(n: int) -> Seq<char> {
    if n == 0 {
        seq!['0']
    } else {
        decimal_digits(n)
    }
}

fn digit_char_exec(d: u32) -> (r: char)
    requires
        d < 10,
    ensures
        r == digit_char(d as int),
{
    if d == 0 {
        '0'
    } else if d == 1 {
        '1'
    } else if d == 2 {
        '2'
    } else if d == 3 {
        '3'
    } else if d == 4 {
        '4'
    } else if d == 5 {
        '5'
    } else if d == 6 {
        '6'
    } else if d == 7 {
        '7'
    } else if d == 8 {
        '8'
    } else {
        '9'
    }
}

fn u32_digits_into(x: u32, out: &mut String)
    ensures
        final(out)@ == old(out)@ + decimal_digits(x as int),
    decreases x,
{
    if x == 0 {
        proof {
            assert(old(out)@ + decimal_digits(0) =~= old(out)@);
        }
    } else {
        u32_digits_into(x / 10, out);
        let d = digit_char_exec(x % 10);
        push_char(out, d);
        proof {
            assert((old(out)@ + decimal_digits(x as int / 10)).push(d) =~= old(out)@
                + decimal_digits(x as int / 10).push(d));
        }
    }
}

/// Writes a number in decimal.
pub fn u32_string(x: u32) -> (r: String)
    ensures
        r@ == spec_u32_string(x as int),
{
    let mut r = String::new();
    if x == 0 {
        push_char(&mut r, '0');
        proof {
            assert(r@ =~= seq!['0']);
        }
        return r;
    }
    u32_digits_into(x, &mut r);
    proof {
        assert(Seq::<char>::empty() + decimal_digits(x as int) =~= decimal_digits(x as int));
    }
    r
}

/// How often a character occurs in a sequence.
pub open spec fn count_char(s: Seq<char>, c: char) -> int
    decreases s.len(),
{
    if s.len() == 0 {
        0
    } else {
        count_char(s.drop_last(), c) + (if s.last() == c {
            1int
        } else {
            0int
        })
    }
}

/// The index of the first occurrence of a character, or the sequence's
/// length when it does not occur.
pub open spec fn first_index_of(s: Seq<char>, c: char) -> int
    decreases s.len(),
{
    if s.len() == 0 {
        0
    } else if s[0] == c {
        0
    } else {
        1 + first_index_of(s.drop_first(), c)
    }
}

proof fn lemma_first_index_from_scan(s: Seq<char>, c: char, i: int)
    requires
        0 <= i <= s.len(),
        forall|m: int| 0 <= m < i ==> s[m] != c,
        i < s.len() ==> s[i] == c,
    ensures
        first_index_of(s, c) == i,
    decreases s.len(),
{
    if s.len() == 0 {
    } else if s[0] == c {
        assert(i == 0);
    } else {
        let rest = s.drop_first();
        assert(forall|m: int| 0 <= m < i - 1 ==> rest[m] == s[m + 1] && s[m + 1] != c);
        assert(i - 1 < rest.len() ==> rest[i - 1] == s[i]);
        lemma_first_index_from_scan(rest, c, i - 1);
    }
}

/// A place subtitles can come from: a subtitle file, one subtitle track of a
/// video file, or a directory of subtitle files.
pub enum SubtitleSource {
    File(String),
    VideoTrack { video_file: String, subtitle_track: u32 },
    Directory(String),
}

/// Why a subtitle source specification was rejected.
#[derive(Clone, Copy, PartialEq, Eq, Structural, Debug)]
pub enum SubtitleSourceError {
    /// A track specification has more than one ':' separator.
    BadTrackFormat,
    /// What follows the ':' of a track specification is not a track number.
    BadTrackNumber,
    /// The named path does not exist.
    MissingPath,
    /// The named path exists but is neither a file nor a directory.
    UnknownSource,
}

impl SubtitleSource {
    /// Classifies a subtitle source specification. A string with a ':' names
    /// one subtitle track of a video file; any other string names a subtitle
    /// file or a directory of them, decided by what is on disk, which the
    /// caller reports through `exists`, `is_file` and `is_dir`.
    pub fn classify(s: &str, exists: bool, is_file: bool, is_dir: bool) -> (r: Result<
        SubtitleSource,
        SubtitleSourceError,
    >)
        ensures
            ({
                let cc = count_char(s@, ':');
                let ci = first_index_of(s@, ':');
                &&& cc == 1 ==> (match spec_parse_u32(s@.skip(ci + 1)) {
                    Some(t) => r matches Ok(
                        SubtitleSource::VideoTrack { video_file, subtitle_track },
                    ) && video_file@ == s@.take(ci) && subtitle_track == t,
                    None => r == Err::<SubtitleSource, _>(SubtitleSourceError::BadTrackNumber),
                })
                &&& cc >= 2 ==> r == Err::<SubtitleSource, _>(SubtitleSourceError::BadTrackFormat)
                &&& cc == 0 ==> (if !exists {
                    r == Err::<SubtitleSource, _>(SubtitleSourceError::MissingPath)
                } else if is_file && is_subtitle_path(s@) {
                    r matches Ok(SubtitleSource::File(p)) && p@ == s@
                } else if is_dir {
                    r matches Ok(SubtitleSource::Directory(p)) && p@ == s@
                } else if is_file {
                    r matches Ok(SubtitleSource::File(p)) && p@ == s@
                } else {
                    r == Err::<SubtitleSource, _>(SubtitleSourceError::UnknownSource)
                })
            }),
    {
        let n = s.unicode_len();
        let mut count: usize = 0;
        let mut first: usize = n;
        let mut i: usize = 0;
        proof {
            assert(s@.take(0) =~= Seq::<char>::empty());
        }
        while i < n
            invariant
                n == s@.len(),
                i <= n,
                count <= i,
                count == count_char(s@.take(i as int), ':'),
                first <= n,
                count == 0 ==> first == n,
                count > 0 ==> first < i && s@[first as int] == ':',
                forall|m: int| 0 <= m < i && m < first ==> s@[m] != ':',
            decreases n - i,
        {
            let c = s.get_char(i);
            proof {
                assert(s@.take(i + 1 as int).drop_last() =~= s@.take(i as int));
                assert(s@.take(i + 1 as int).last() == s@[i as int]);
            }
            if c == ':' {
                if count == 0 {
                    first = i;
                }
                count = count + 1;
            }
            i = i + 1;
        }
        proof {
            assert(s@.take(n as int) =~= s@);
            lemma_first_index_from_scan(s@, ':', first as int);
        }

        if count == 0 {
            if !exists {
                Err(SubtitleSourceError::MissingPath)
            } else if is_file && is_subtitle_file(s) {
                Ok(SubtitleSource::File(s.to_owned()))
            } else if is_dir {
                Ok(SubtitleSource::Directory(s.to_owned()))
            } else if is_file {
                Ok(SubtitleSource::File(s.to_owned()))
            } else {
                Err(SubtitleSourceError::UnknownSource)
            }
        } else if count >= 2 {
            Err(SubtitleSourceError::BadTrackFormat)
        } else {
            proof {
                assert(s@.subrange(first + 1, n as int) =~= s@.skip(first + 1));
                assert(s@.subrange(0, first as int) =~= s@.take(first as int));
            }
            let track_str = s.substring_char(first + 1, n);
            match parse_u32(track_str) {
                Some(t) => {
                    let video = s.substring_char(0, first);
                    Ok(
                        SubtitleSource::VideoTrack {
                            video_file: video.to_owned(),
                            subtitle_track: t,
                        },
                    )
                },
                None => Err(SubtitleSourceError::BadTrackNumber),
            }
        }
    }

    /// Writes the source back in the form it was specified in: the path, or
    /// "path:track" for a video track.
    pub fn source_string(&self) -> (r: String)
        ensures
            match self {
                SubtitleSource::File(p) => r@ == p@,
                SubtitleSource::Directory(p) => r@ == p@,
                SubtitleSource::VideoTrack { video_file, subtitle_track } => r@ == video_file@
                    + seq![':'] + spec_u32_string(*subtitle_track as int),
            },
    {
        match self {
            SubtitleSource::File(p) => p.clone(),
            SubtitleSource::Directory(p) => p.clone(),
            SubtitleSource::VideoTrack { video_file, subtitle_track } => {
                let mut r = video_file.clone();
                push_char(&mut r, ':');
                let t = u32_string(*subtitle_track);
                r.append(t.as_str());
                proof {
                    assert(video_file@.push(':') =~= video_file@ + seq![':']);
                }
                r
            },
        }
    }
}

/// A place video files can come from: one file, or a directory of them.
pub enum VideoSource {
    File(String),
    Directory(String),
}

/// Why a video source was rejected.
#[derive(Clone, Copy, PartialEq, Eq, Structural, Debug)]
pub enum VideoSourceError {
    /// The path is neither a directory nor an existing video file.
    InvalidSource,
    /// The file does not exist or is not a video file.
    InvalidVideoFile,
    /// The directory does not exist.
    MissingDirectory,
}

impl VideoSource {
    /// Classifies a path as a video source: a directory, or an existing
    /// video file. The caller reports what is on disk through `is_file` and
    /// `is_dir`.
    pub fn classify(path: &str, is_file: bool, is_dir: bool) -> (r: Result<
        VideoSource,
        VideoSourceError,
    >)
        ensures
            is_dir ==> (r matches Ok(VideoSource::Directory(p)) && p@ == path@),
            !is_dir && is_file && is_video_path(path@) ==> (r matches Ok(VideoSource::File(p))
                && p@ == path@),
            !is_dir && !(is_file && is_video_path(path@)) ==> r == Err::<VideoSource, _>(
                VideoSourceError::InvalidSource,
            ),
    {
        if is_dir {
            Ok(VideoSource::Directory(path.to_owned()))
        } else if is_file && is_video_file(path) {
            Ok(VideoSource::File(path.to_owned()))
        } else {
            Err(VideoSourceError::InvalidSource)
        }
    }

    /// Resolves the source to the video files it names: the single file, or
    /// every video file among the directory's entries. The caller reports
    /// what is on disk through `exists` and `is_dir`, and hands over the
    /// directory's entries (unused for a file source).
    pub fn to_videos(&self, exists: bool, is_dir: bool, entries: &Vec<String>) -> (r: Result<
        Vec<String>,
        VideoSourceError,
    >)
        ensures
            match self {
                VideoSource::File(p) => {
                    if exists && is_video_path(p@) {
                        r matches Ok(v) && v@.len() == 1 && v@[0]@ == p@
                    } else {
                        r == Err::<Vec<String>, _>(VideoSourceError::InvalidVideoFile)
                    }
                },
                VideoSource::Directory(_) => {
                    if exists && is_dir {
                        r matches Ok(v) && v@ == entries@.filter(|s: String| is_video_path(s@))
                    } else {
                        r == Err::<Vec<String>, _>(VideoSourceError::MissingDirectory)
                    }
                },
            },
    {
        match self {
            VideoSource::File(p) => {
                if exists && is_video_file(p.as_str()) {
                    let mut v: Vec<String> = Vec::new();
                    v.push(p.clone());
                    Ok(v)
                } else {
                    Err(VideoSourceError::InvalidVideoFile)
                }
            },
            VideoSource::Directory(_) => {
                if exists && is_dir {
                    Ok(list_video_files(entries))
                } else {
                    Err(VideoSourceError::MissingDirectory)
                }
            },
        }
    }
}

/// The tools available for timing synchronization.
#[allow(non_camel_case_types)]
#[derive(Clone, Copy, PartialEq, Eq, Structural, Debug)]
pub enum SyncTool {
    FFSUBSYNC,
}

/// Which way a timing shift moves the cues.
#[allow(non_camel_case_types)]
#[derive(Clone, Copy, PartialEq, Eq, Structural, Debug)]
pub enum ShiftDirection {
    EARLIER,
    LATER,
}

impl ShiftDirection {
    /// Turns a shift magnitude into the signed offset the shift transform
    /// takes: shifting earlier negates both parts, shifting later keeps
    /// them.
    pub fn signed_offset(self, seconds: i64, milliseconds: i64) -> (r: (i64, i64))
        requires
            seconds > i64::MIN,
            milliseconds > i64::MIN,
        ensures
            self is EARLIER ==> r.0 == -seconds && r.1 == -milliseconds,
            self is LATER ==> r.0 == seconds && r.1 == milliseconds,
    {
        match self {
            ShiftDirection::EARLIER => (-seconds, -milliseconds),
            ShiftDirection::LATER => (seconds, milliseconds),
        }
    }
}

/// The digest an unseeded standard hasher gives a string. The result depends
/// on the string's characters alone.
pub uninterp spec fn hash_of(s: Seq<char>) -> u64;

/// Relies on std's DefaultHasher: hashers made by `DefaultHasher::new` all
/// use the same fixed keys, so hashing a string gives a digest that depends
/// on the string alone.
#[verifier::external_body]
pub fn hash_string(s: &str) -> (r: u64)
    ensures
        r == hash_of(s@),
{
    let mut h = std::hash::DefaultHasher::new();
    std::hash::Hash::hash(s, &mut h);
    std::hash::Hasher::finish(&h)
}

} // verus!
