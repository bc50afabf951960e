use subbub::data::{
    ShiftDirection, SubtitleSource, SubtitleSourceError, SyncTool, VideoSource, VideoSourceError,
    extension_of, hash_string, is_subtitle_file, is_video_file, list_subtitles_files,
    list_video_files, parse_u32, u32_string,
};

#[test]
fn extensions_are_read_from_the_final_segment() {
    assert_eq!(extension_of("a/b/movie.mkv"), Some("mkv".to_string()));
    assert_eq!(extension_of("archive.tar.gz"), Some("gz".to_string()));
    assert_eq!(extension_of("plain"), None);
    assert_eq!(extension_of(".gitignore"), None);
    assert_eq!(extension_of("dir.d/file"), None);
    assert_eq!(extension_of("trailing."), Some("".to_string()));
}

#[test]
fn extensions_survive_multibyte_characters() {
    assert_eq!(extension_of("päth/ünïcode.srt"), Some("srt".to_string()));
    assert!(is_subtitle_file("päth/ünïcode.srt"));
}

#[test]
fn subtitle_files_are_recognized_by_extension() {
    assert!(is_subtitle_file("episode.srt"));
    assert!(is_subtitle_file("show/episode.ass"));
    assert!(is_subtitle_file("episode.ssa"));
    assert!(!is_subtitle_file("episode.mkv"));
    assert!(!is_subtitle_file("srt"));
    assert!(!is_subtitle_file("episode.SRT"));
}

#[test]
fn video_files_are_recognized_by_extension() {
    assert!(is_video_file("movie.mkv"));
    assert!(is_video_file("movie.mp4"));
    assert!(is_video_file("dir/movie.avi"));
    assert!(!is_video_file("movie.srt"));
    assert!(!is_video_file("movie"));
}

#[test]
fn listing_keeps_only_matching_files_in_order() {
    let entries = vec![
        "a.mkv".to_string(),
        "b.srt".to_string(),
        "c.mp4".to_string(),
        "notes.txt".to_string(),
        "d.ass".to_string(),
    ];
    assert_eq!(
        list_video_files(&entries),
        vec!["a.mkv".to_string(), "c.mp4".to_string()]
    );
    assert_eq!(
        list_subtitles_files(&entries),
        vec!["b.srt".to_string(), "d.ass".to_string()]
    );
}

#[test]
fn parse_u32_accepts_digits_and_a_plus_sign() {
    assert_eq!(parse_u32("42"), Some(42));
    assert_eq!(parse_u32("+7"), Some(7));
    assert_eq!(parse_u32("0"), Some(0));
    assert_eq!(parse_u32("4294967295"), Some(u32::MAX));
}

#[test]
fn parse_u32_rejects_everything_else() {
    assert_eq!(parse_u32(""), None);
    assert_eq!(parse_u32("+"), None);
    assert_eq!(parse_u32("-3"), None);
    assert_eq!(parse_u32("12a"), None);
    assert_eq!(parse_u32("4294967296"), None);
    assert_eq!(parse_u32("1 2"), None);
}

#[test]
fn u32_string_writes_decimal() {
    assert_eq!(u32_string(0), "0");
    assert_eq!(u32_string(7), "7");
    assert_eq!(u32_string(105), "105");
    assert_eq!(u32_string(u32::MAX), "4294967295");
}

#[test]
fn classify_subtitle_source_with_track() {
    let r = SubtitleSource::classify("video.mkv:2", false, false, false);
    match r {
        Ok(SubtitleSource::VideoTrack {
            video_file,
            subtitle_track,
        }) => {
            assert_eq!(video_file, "video.mkv");
            assert_eq!(subtitle_track, 2);
        }
        _ => panic!("expected a video track source"),
    }
}

#[test]
fn classify_subtitle_source_errors() {
    assert_eq!(
        SubtitleSource::classify("video.mkv:abc", false, false, false).err(),
        Some(SubtitleSourceError::BadTrackNumber)
    );
    assert_eq!(
        SubtitleSource::classify("a:b:c", false, false, false).err(),
        Some(SubtitleSourceError::BadTrackFormat)
    );
    assert_eq!(
        SubtitleSource::classify("missing.srt", false, false, false).err(),
        Some(SubtitleSourceError::MissingPath)
    );
    assert_eq!(
        SubtitleSource::classify("odd", true, false, false).err(),
        Some(SubtitleSourceError::UnknownSource)
    );
}

#[test]
fn classify_subtitle_source_files_and_directories() {
    match SubtitleSource::classify("subs.srt", true, true, false) {
        Ok(SubtitleSource::File(p)) => assert_eq!(p, "subs.srt"),
        _ => panic!("expected a file source"),
    }
    match SubtitleSource::classify("subs", true, false, true) {
        Ok(SubtitleSource::Directory(p)) => assert_eq!(p, "subs"),
        _ => panic!("expected a directory source"),
    }
    // A file that is not named like a subtitle file is still a file source.
    match SubtitleSource::classify("subs.txt", true, true, false) {
        Ok(SubtitleSource::File(p)) => assert_eq!(p, "subs.txt"),
        _ => panic!("expected a file source"),
    }
}

#[test]
fn subtitle_source_writes_itself_back() {
    let file = SubtitleSource::File("subs.srt".to_string());
    assert_eq!(file.source_string(), "subs.srt");
    let track = SubtitleSource::VideoTrack {
        video_file: "video.mkv".to_string(),
        subtitle_track: 2,
    };
    assert_eq!(track.source_string(), "video.mkv:2");
    let zero = SubtitleSource::VideoTrack {
        video_file: "v.mkv".to_string(),
        subtitle_track: 0,
    };
    assert_eq!(zero.source_string(), "v.mkv:0");
}

#[test]
fn classify_video_source() {
    match VideoSource::classify("movies", false, true) {
        Ok(VideoSource::Directory(p)) => assert_eq!(p, "movies"),
        _ => panic!("expected a directory source"),
    }
    match VideoSource::classify("movie.mkv", true, false) {
        Ok(VideoSource::File(p)) => assert_eq!(p, "movie.mkv"),
        _ => panic!("expected a file source"),
    }
    assert_eq!(
        VideoSource::classify("movie.srt", true, false).err(),
        Some(VideoSourceError::InvalidSource)
    );
}

#[test]
fn to_videos_resolves_files_and_directories() {
    let file = VideoSource::File("movie.mkv".to_string());
    let none: Vec<String> = vec![];
    assert_eq!(file.to_videos(true, false, &none), Ok(vec!["movie.mkv".to_string()]));
    assert_eq!(
        file.to_videos(false, false, &none),
        Err(VideoSourceError::InvalidVideoFile)
    );

    let not_video = VideoSource::File("movie.txt".to_string());
    assert_eq!(
        not_video.to_videos(true, false, &none),
        Err(VideoSourceError::InvalidVideoFile)
    );

    let dir = VideoSource::Directory("movies".to_string());
    let entries = vec![
        "one.mkv".to_string(),
        "skip.srt".to_string(),
        "two.avi".to_string(),
    ];
    assert_eq!(
        dir.to_videos(true, true, &entries),
        Ok(vec!["one.mkv".to_string(), "two.avi".to_string()])
    );
    assert_eq!(
        dir.to_videos(true, false, &entries),
        Err(VideoSourceError::MissingDirectory)
    );
}

#[test]
fn hash_string_depends_on_the_string_alone() {
    assert_eq!(hash_string("abc"), hash_string("abc"));
    assert_eq!(hash_string(""), hash_string(""));
    assert_ne!(hash_string("abc"), hash_string("abd"));
}

#[test]
fn shift_direction_signs_the_offset() {
    assert_eq!(ShiftDirection::EARLIER.signed_offset(2, 500), (-2, -500));
    assert_eq!(ShiftDirection::LATER.signed_offset(2, 500), (2, 500));
}

#[test]
fn sync_tool_is_comparable() {
    assert_eq!(SyncTool::FFSUBSYNC, SyncTool::FFSUBSYNC);
}
