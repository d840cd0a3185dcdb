use videoscribe::audio::{
    duration_fields_of, extract_audio_outcome, ffmpeg_extract_args, get_ffmpeg_path,
    is_supported_video, is_video_extension, wav_sample_scale, SampleScale, ToolRun, WavFormat,
};
use videoscribe::models::{
    check_model, check_model_status, select_existing_model, DirEntry, default_model_path, default_model_path_in, download_temp_path,
    is_turbo_model_name, model_search, model_search_in, models_dir, models_dir_in, DownloadCounter,
    ModelFile,
};
use videoscribe::paths::{
    path_extension, path_file_name, path_file_stem, path_join, path_parent, path_with_extension,
};
use videoscribe::plan::{output_paths, plan_transcription, validate_video};
use videoscribe::text::{split_char, trim_str};
use videoscribe::timestamp::{format_display_timestamp, format_srt_timestamp};
use videoscribe::transcript::{
    chunk_schedule, completion_message, format_srt_entry, format_txt_line, SegmentNumbering,
    CHUNK_SAMPLES, OVERLAP_SAMPLES,
};

fn some(s: &str) -> Option<String> {
    Some(s.to_string())
}

#[test]
fn srt_timestamps() {
    assert_eq!(format_srt_timestamp(0), "00:00:00,000");
    assert_eq!(format_srt_timestamp(3_723_004), "01:02:03,004");
    assert_eq!(format_srt_timestamp(59_999), "00:00:59,999");
    assert_eq!(format_srt_timestamp(360_000_000), "100:00:00,000");
}

#[test]
fn display_timestamps() {
    assert_eq!(format_display_timestamp(0), "00:00:00.000");
    assert_eq!(format_display_timestamp(3_723_004), "01:02:03.004");
    assert_eq!(format_display_timestamp(90_500), "00:01:30.500");
}

#[test]
fn srt_and_display_differ_only_in_separator() {
    for ms in [0u64, 1, 999, 1_000, 61_001, 3_599_999, 3_600_000, 123_456_789] {
        let srt = format_srt_timestamp(ms);
        let disp = format_display_timestamp(ms);
        assert_eq!(srt.replace(',', "."), disp);
        assert_eq!(srt.len(), disp.len());
    }
}

#[test]
fn timestamp_fields_add_up() {
    let ms: u64 = 7_384_256;
    let s = format_srt_timestamp(ms);
    let (hms, milli) = s.split_once(',').unwrap();
    let parts: Vec<u64> = hms.split(':').map(|p| p.parse().unwrap()).collect();
    let total = parts[0] * 3_600_000 + parts[1] * 60_000 + parts[2] * 1_000 + milli.parse::<u64>().unwrap();
    assert_eq!(total, ms);
    assert!(parts[1] < 60 && parts[2] < 60);
}

#[test]
fn distinct_times_print_differently() {
    assert_ne!(format_srt_timestamp(1_000), format_srt_timestamp(1_001));
    assert_ne!(format_srt_timestamp(59_000), format_srt_timestamp(60_000));
}

#[test]
fn trimming_white_space() {
    assert_eq!(trim_str("  hello world \n"), "hello world");
    assert_eq!(trim_str("\u{3000}text\u{a0}"), "text");
    assert_eq!(trim_str(" \t "), "");
    assert_eq!(trim_str(""), "");
}

#[test]
fn splitting_at_a_character() {
    assert_eq!(split_char("a:b:c", ':'), vec!["a", "b", "c"]);
    assert_eq!(split_char("a:", ':'), vec!["a", ""]);
    assert_eq!(split_char("", ':'), vec![""]);
}

#[test]
fn chunks_of_short_audio() {
    assert!(chunk_schedule(0).is_empty());
    assert_eq!(chunk_schedule(100), vec![(0, 100)]);
    assert_eq!(chunk_schedule(480_000), vec![(0, 480_000)]);
    assert_eq!(chunk_schedule(480_001), vec![(0, 480_000), (464_000, 480_001)]);
}

#[test]
fn chunks_cover_long_audio() {
    assert_eq!(
        chunk_schedule(1_000_000),
        vec![(0, 480_000), (464_000, 944_000), (928_000, 1_000_000)]
    );
    let total = 5_123_457;
    let chunks = chunk_schedule(total);
    assert_eq!(chunks[0].0, 0);
    assert_eq!(chunks[chunks.len() - 1].1, total);
    for w in chunks.windows(2) {
        assert_eq!(w[1].0 + OVERLAP_SAMPLES, w[0].1);
        assert!(w[0].0 < w[1].0);
    }
    for c in &chunks {
        assert!(c.0 < c.1 && c.1 - c.0 <= CHUNK_SAMPLES);
    }
}

#[test]
fn srt_entry_and_txt_line() {
    assert_eq!(
        format_srt_entry(3, 1_500, 3_000, "Hello"),
        "3\n00:00:01,500 --> 00:00:03,000\nHello\n\n"
    );
    assert_eq!(format_txt_line(1_500, 3_000, "Hello"), "[00:00:01.500 --> 00:00:03.000] Hello\n");
}

#[test]
fn segments_numbered_and_blanks_skipped() {
    let mut numbering = SegmentNumbering::new();
    assert_eq!(numbering.count(), 0);
    assert!(numbering.accept("   ", 0, 1_000).is_none());
    assert_eq!(numbering.count(), 0);
    let first = numbering.accept(" 你好 ", 1_000, 2_500).unwrap();
    assert_eq!(first.index, 1);
    assert_eq!(first.text, "你好");
    assert_eq!(first.srt_entry, "1\n00:00:01,000 --> 00:00:02,500\n你好\n\n");
    assert_eq!(first.txt_line, "[00:00:01.000 --> 00:00:02.500] 你好\n");
    assert_eq!(first.progress_message, "已转录 1 段");
    assert!(numbering.accept("\n", 2_500, 3_000).is_none());
    let second = numbering.accept("world", 3_000, 4_000).unwrap();
    assert_eq!(second.index, 2);
    assert_eq!(numbering.count(), 2);
    assert_eq!(completion_message(numbering.count()), "转录完成！共 2 段");
}

#[test]
fn file_names_and_extensions() {
    assert_eq!(path_file_name("a/b.tar.gz"), some("b.tar.gz"));
    assert_eq!(path_extension("a/b.tar.gz"), some("gz"));
    assert_eq!(path_file_stem("a/b.tar.gz"), some("b.tar"));
    assert_eq!(path_extension(".bashrc"), None);
    assert_eq!(path_file_stem(".bashrc"), some(".bashrc"));
    assert_eq!(path_extension("a/b."), some(""));
    assert_eq!(path_file_name("a/.."), None);
    assert_eq!(path_file_name("/"), None);
    assert_eq!(path_file_name("a//b.mp4/"), some("b.mp4"));
    assert_eq!(path_file_name("a/./"), some("a"));
    assert_eq!(path_file_stem("noext"), some("noext"));
    assert_eq!(path_extension("noext"), None);
}

#[test]
fn parents() {
    assert_eq!(path_parent("a/b.mp4"), some("a"));
    assert_eq!(path_parent("a//b.mp4/"), some("a"));
    assert_eq!(path_parent("b.mp4"), some(""));
    assert_eq!(path_parent("/b.mp4"), some("/"));
    assert_eq!(path_parent("./b.mp4"), some("."));
    assert_eq!(path_parent("/"), None);
    assert_eq!(path_parent(""), None);
    assert_eq!(path_parent("."), some(""));
    assert_eq!(path_parent("a/./b"), some("a"));
}

#[test]
fn joins_and_extensions() {
    assert_eq!(path_join("a", "b"), "a/b");
    assert_eq!(path_join("a/", "b"), "a/b");
    assert_eq!(path_join("", "b"), "b");
    assert_eq!(path_join("a", "/b"), "/b");
    assert_eq!(path_with_extension("m/x.bin", "bin.downloading"), "m/x.bin.downloading");
    assert_eq!(path_with_extension("m/x", "y"), "m/x.y");
    assert_eq!(path_with_extension("m/x.txt", ""), "m/x");
    assert_eq!(path_with_extension("/", "y"), "/");
}

#[test]
fn supported_videos() {
    assert!(is_supported_video("/movies/clip.mp4"));
    assert!(is_supported_video("clip.MKV"));
    assert!(is_supported_video("show.Mts"));
    assert!(!is_supported_video("notes.txt"));
    assert!(!is_supported_video("mp4"));
    assert!(!is_supported_video(".mp4"));
    assert!(is_supported_video("dir.mp4/"));
    assert!(is_video_extension("webm"));
    assert!(!is_video_extension("WEBM"));
}

#[test]
fn supported_video_case_of_ascii_letters_does_not_matter() {
    for name in ["movie.mp4", "Movie.Webm", "talk.m4v", "notes.txt", "archive.tar.gz", "README"] {
        assert_eq!(is_supported_video(&name.to_ascii_uppercase()), is_supported_video(name));
        assert_eq!(is_supported_video(&name.to_ascii_lowercase()), is_supported_video(name));
    }
    assert!(is_supported_video("MOVIE.WEBM"));
    assert!(!is_supported_video("NOTES.TXT"));
}

#[test]
fn ffmpeg_command() {
    assert_eq!(get_ffmpeg_path("/opt/ffmpeg", true), "/opt/ffmpeg");
    assert_eq!(get_ffmpeg_path("/opt/ffmpeg", false), "ffmpeg");
    assert_eq!(
        ffmpeg_extract_args("in.mp4", "/tmp/out.wav"),
        vec!["-y", "-i", "in.mp4", "-vn", "-acodec", "pcm_s16le", "-ar", "16000", "-ac", "1", "/tmp/out.wav"]
    );
}

#[test]
fn ffmpeg_outcomes() {
    assert!(extract_audio_outcome("ffmpeg", ToolRun::Finished { success: true, stderr: String::new() }).is_ok());
    assert_eq!(
        extract_audio_outcome("ffmpeg", ToolRun::Finished { success: false, stderr: "bad input".to_string() }),
        Err("FFmpeg failed: bad input".to_string())
    );
    assert_eq!(
        extract_audio_outcome("ffmpeg", ToolRun::NotStarted("No such file".to_string())),
        Err("FFmpeg not found: No such file. Command was: ffmpeg".to_string())
    );
}

#[test]
fn duration_from_ffmpeg_report() {
    let report = "Input #0, mov,mp4\n  Duration: 00:03:45.12, start: 0.000000, bitrate: 1205 kb/s\n";
    assert_eq!(
        duration_fields_of(report),
        Some(("00".to_string(), "03".to_string(), "45.12".to_string()))
    );
    assert_eq!(duration_fields_of("Duration:  1:02:03 ,"), Some(("1".to_string(), "02".to_string(), "03".to_string())));
    assert_eq!(duration_fields_of("no duration here"), None);
    assert_eq!(duration_fields_of("Duration: 00:03:45.12"), None);
    assert_eq!(duration_fields_of("Duration: N/A, start"), None);
}

#[test]
fn wav_scaling() {
    let stereo = WavFormat { channels: 2, bits_per_sample: 16, float_samples: false };
    match wav_sample_scale(&stereo) {
        Err(msg) => assert_eq!(msg, "Expected mono audio, got 2 channels"),
        Ok(_) => panic!("stereo accepted"),
    }
    let float = WavFormat { channels: 1, bits_per_sample: 32, float_samples: true };
    assert!(matches!(wav_sample_scale(&float), Ok(SampleScale::Clamped)));
    let pcm16 = WavFormat { channels: 1, bits_per_sample: 16, float_samples: false };
    assert!(matches!(wav_sample_scale(&pcm16), Ok(SampleScale::DivideBy(32768))));
    let pcm8 = WavFormat { channels: 1, bits_per_sample: 8, float_samples: false };
    assert!(matches!(wav_sample_scale(&pcm8), Ok(SampleScale::DivideBy(128))));
    let pcm32 = WavFormat { channels: 1, bits_per_sample: 32, float_samples: false };
    assert!(matches!(wav_sample_scale(&pcm32), Ok(SampleScale::DivideBy(2_147_483_648))));
    match wav_sample_scale(&pcm32) {
        Ok(SampleScale::DivideBy(d)) => {
            assert_eq!(1_073_741_824f64 / d as f64, 0.5);
            assert_eq!(-2_147_483_648f64 / d as f64, -1.0);
        }
        _ => panic!("integer samples not scaled"),
    }
}

#[test]
fn scaled_samples_stay_in_unit_range() {
    for bits in [8u16, 16, 24, 32] {
        let format = WavFormat { channels: 1, bits_per_sample: bits, float_samples: false };
        let scale = match wav_sample_scale(&format) {
            Ok(SampleScale::DivideBy(d)) => d as f64,
            _ => panic!("integer samples not scaled"),
        };
        let half = (1i64 << (bits - 1)) as f64;
        for sample in [-half, -1.0, 0.0, 1.0, half - 1.0] {
            let x = sample / scale;
            assert!((-1.0..=1.0).contains(&x));
            assert_eq!(x < 0.0, sample < 0.0);
        }
    }
}

#[test]
fn model_locations() {
    assert_eq!(
        models_dir_in(Some("/Users/u/Library/Application Support")),
        "/Users/u/Library/Application Support/com.videoscribe.app"
    );
    assert_eq!(models_dir_in(Some("/home/u/.local/share")), "/home/u/.local/share/com.videoscribe.app");
    assert_eq!(models_dir_in(None), "./com.videoscribe.app");
    assert_eq!(
        default_model_path_in(Some("/data/")),
        "/data/com.videoscribe.app/ggml-large-v3-turbo.bin"
    );
    assert!(models_dir().ends_with("/com.videoscribe.app"));
    assert!(default_model_path().ends_with("/com.videoscribe.app/ggml-large-v3-turbo.bin"));
}

#[test]
fn model_search_places() {
    let search = model_search_in("/home/u");
    assert_eq!(
        search.files,
        vec![
            "/home/u/.cache/whisper/ggml-large-v3-turbo.bin",
            "/home/u/whisper.cpp/models/ggml-large-v3-turbo.bin",
            "/home/u/.local/share/whisper/ggml-large-v3-turbo.bin",
        ]
    );
    assert_eq!(
        search.dirs,
        vec!["/home/u/.cache/whisper", "/home/u/whisper.cpp/models", "/home/u/.local/share/whisper"]
    );
    if let Some(s) = model_search() {
        assert_eq!(s.files.len(), 3);
        assert!(s.dirs[0].ends_with(".cache/whisper"));
    }
    assert!(is_turbo_model_name("ggml-large-v3-turbo-q5_0.bin"));
    assert!(!is_turbo_model_name("ggml-large-v3.bin"));
    assert!(!is_turbo_model_name("turbo.bin.part"));
    assert!(is_turbo_model_name("turbo.bin"));
}

#[test]
fn model_reports() {
    let present = check_model("/m/x.bin".to_string(), true, Some(1_048_576));
    assert!(present.exists);
    assert_eq!(present.size_bytes, 1_048_576);
    assert_eq!(present.name, "Whisper Large V3 Turbo");
    let unreadable = check_model("/m/x.bin".to_string(), true, None);
    assert_eq!(unreadable.size_bytes, 0);
    let absent = check_model("/m/x.bin".to_string(), false, Some(5));
    assert!(!absent.exists);
    assert_eq!(absent.size_bytes, 0);
    assert_eq!(absent.path, "/m/x.bin");

    let fallback = check_model("/default.bin".to_string(), false, None);
    let found = check_model_status(
        Some(ModelFile { path: "/home/u/.cache/whisper/m.bin".to_string(), size_bytes: Some(42) }),
        check_model("/default.bin".to_string(), false, None),
    );
    assert!(found.exists);
    assert_eq!(found.path, "/home/u/.cache/whisper/m.bin");
    assert_eq!(found.size_bytes, 42);
    let none = check_model_status(None, fallback);
    assert!(!none.exists);
    assert_eq!(none.path, "/default.bin");
}

#[test]
fn download_bookkeeping() {
    assert_eq!(
        download_temp_path("/data/com.videoscribe.app/ggml-large-v3-turbo.bin"),
        "/data/com.videoscribe.app/ggml-large-v3-turbo.bin.downloading"
    );
    let mut counter = DownloadCounter::new(1_000);
    counter.record_chunk(300);
    counter.record_chunk(700);
    assert_eq!(counter.downloaded, 1_000);
    assert_eq!(counter.total, 1_000);
}

#[test]
fn video_validation() {
    assert_eq!(validate_video("/v/a.mp4", false), Err("Video file not found: /v/a.mp4".to_string()));
    assert_eq!(validate_video("/v/a.doc", true), Err("Unsupported video format".to_string()));
    assert_eq!(validate_video("/v/a.MOV", true), Ok(()));
}

#[test]
fn output_files_next_to_video() {
    assert_eq!(output_paths("/v/clip.mp4"), ("/v/clip.srt".to_string(), "/v/clip.txt".to_string()));
    assert_eq!(output_paths("clip.final.mkv"), ("clip.final.srt".to_string(), "clip.final.txt".to_string()));
    assert_eq!(output_paths("/"), ("./transcription.srt".to_string(), "./transcription.txt".to_string()));
    let (srt, txt) = output_paths("/home/u/Movies/talk.webm");
    assert_eq!(path_parent(&srt), some("/home/u/Movies"));
    assert_eq!(path_extension(&srt), some("srt"));
    assert_eq!(path_file_stem(&txt), some("talk"));
}

#[test]
fn transcription_plans() {
    match plan_transcription("/v/clip.mp4", None, "/tmp") {
        Err(msg) => assert_eq!(msg, "Whisper model not found. Please download the model first."),
        Ok(_) => panic!("planned without a model"),
    }
    let plan = plan_transcription("/v/clip.mp4", some("/m/model.bin"), "/tmp").ok().unwrap();
    assert_eq!(plan.model_path, "/m/model.bin");
    assert_eq!(plan.srt_path, "/v/clip.srt");
    assert_eq!(plan.txt_path, "/v/clip.txt");
    assert_eq!(plan.work_dir, "/tmp/videoscribe");
    assert_eq!(plan.wav_path, "/tmp/videoscribe/audio.wav");
}

fn entry(name: &str, path: &str) -> DirEntry {
    DirEntry { name: name.to_string(), path: path.to_string() }
}

#[test]
fn model_selection_order() {
    let files = vec!["/h/a.bin".to_string(), "/h/b.bin".to_string(), "/h/c.bin".to_string()];
    let entries = vec![entry("notes.txt", "/h/d/notes.txt"), entry("x-turbo.bin", "/h/d/x-turbo.bin")];
    assert_eq!(
        select_existing_model("/m/default.bin", true, &files, &vec![true, true, true], &entries),
        some("/m/default.bin")
    );
    assert_eq!(
        select_existing_model("/m/default.bin", false, &files, &vec![false, true, true], &entries),
        some("/h/b.bin")
    );
    assert_eq!(
        select_existing_model("/m/default.bin", false, &files, &vec![false, false, false], &entries),
        some("/h/d/x-turbo.bin")
    );
    assert_eq!(
        select_existing_model("/m/default.bin", false, &files, &vec![false, false, false], &vec![entry("a.bin", "/h/d/a.bin")]),
        None
    );
    assert_eq!(select_existing_model("/m/default.bin", false, &vec![], &vec![], &vec![]), None);
}

#[test]
fn chunk_counts() {
    assert_eq!(chunk_schedule(1).len(), 1);
    assert_eq!(chunk_schedule(944_000).len(), 2);
    assert_eq!(chunk_schedule(944_001).len(), 3);
    let n: usize = 10_000_000;
    assert_eq!(chunk_schedule(n).len(), 1 + (n - 480_000 + 463_999) / 464_000);
}

#[test]
fn timestamps_below_100_hours_have_twelve_characters() {
    for ms in [0u64, 1, 59_999, 3_599_999, 359_999_999] {
        let t = format_srt_timestamp(ms);
        assert_eq!(t.len(), 12);
        assert_eq!(t.matches(',').count(), 1);
        assert_eq!(t.replacen(',', ".", 1), format_display_timestamp(ms));
    }
}

#[test]
fn a_run_of_segments_makes_the_documents() {
    let raws = [(" one ", 0u64, 1_000u64), ("  ", 1_000, 2_000), ("two", 2_000, 3_500), ("\t", 3_500, 4_000)];
    let mut numbering = SegmentNumbering::new();
    let mut srt = String::new();
    let mut txt = String::new();
    for (text, start, end) in raws {
        if let Some(e) = numbering.accept(text, start, end) {
            srt.push_str(&e.srt_entry);
            txt.push_str(&e.txt_line);
        }
    }
    assert_eq!(
        srt,
        "1\n00:00:00,000 --> 00:00:01,000\none\n\n2\n00:00:02,000 --> 00:00:03,500\ntwo\n\n"
    );
    assert_eq!(txt, "[00:00:00.000 --> 00:00:01.000] one\n[00:00:02.000 --> 00:00:03.500] two\n");
    assert_eq!(numbering.count(), 2);
}

#[test]
fn directory_does_not_change_support() {
    for name in ["clip.mp4", "clip.MOV", "notes.txt", "noext"] {
        for dir in ["", "/", "a", "a/b/", "./x"] {
            assert_eq!(is_supported_video(&format!("{dir}/{name}")), is_supported_video(name));
        }
    }
}
