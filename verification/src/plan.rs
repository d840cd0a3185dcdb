//! What a transcription request needs before any work starts: a video that
//! exists and is supported, a model, and where the results and the
//! intermediate audio go.

use vstd::prelude::*;
use crate::audio::{supported_video, is_supported_video};
use crate::paths::{
    file_stem, file_name, extension, parent, join, path_file_stem, path_parent, path_join,
    plain_name, stable_dir, last_dot, last_char_before, body_start,
    file_name_of_join, parent_of_join, parent_is_stable, lemma_file_name_shape,
    lemma_last_char_before_bounds,
};

verus! {

/// The error for a video path that does not exist.
pub open spec fn video_not_found_message(video_path: Seq<char>) -> Seq<char> {
    "Video file not found: "@ + video_path
}

/// The error for a file that is not a supported video.
pub open spec fn unsupported_video_message() -> Seq<char> {
    "Unsupported video format"@
}

/// The error when no model is available.
pub open spec fn model_missing_message() -> Seq<char> {
    "Whisper model not found. Please download the model first."@
}

/// The stem the output files are named after: the video's file stem, or
/// "transcription" when it has none.
pub open spec fn output_stem(video_path: Seq<char>) -> Seq<char> {
    match file_stem(video_path) {
        Some(s) => s,
        None => "transcription"@,
    }
}

/// The directory the output files go to: the video's parent, or "." when it has none.
pub open spec fn output_dir(video_path: Seq<char>) -> Seq<char> {
    match parent(video_path) {
        Some(p) => p,
        None => "."@,
    }
}

/// The subtitle file written next to the video.
pub open spec fn srt_path_for(video_path: Seq<char>) -> Seq<char> {
    join(output_dir(video_path), output_stem(video_path) + ".srt"@)
}

/// The plain-text transcript written next to the video.
pub open spec fn txt_path_for(video_path: Seq<char>) -> Seq<char> {
    join(output_dir(video_path), output_stem(video_path) + ".txt"@)
}

/// The working directory under the system's temporary directory.
pub open spec fn work_dir_for(temp_root: Seq<char>) -> Seq<char> {
    join(temp_root, "videoscribe"@)
}

/// The intermediate WAV file in the working directory.
pub open spec fn wav_path_for(temp_root: Seq<char>) -> Seq<char> {
    join(work_dir_for(temp_root), "audio.wav"@)
}

/// Checks that the video to transcribe exists and is of a supported format.
pub fn validate_video(video_path: &str, video_exists: bool) -> (r: Result<(), String>)
    ensures
        !video_exists ==> (r matches Err(m) && m@ == video_not_found_message(video_path@)),
        video_exists && !supported_video(video_path@) ==> (r matches Err(m) && m@ == unsupported_video_message()),
        video_exists && supported_video(video_path@) ==> r is Ok,
{
    if !video_exists {
        let mut m = String::from_str("Video file not found: ");
        m.append(video_path);
        return Err(m);
    }
    if !is_supported_video(video_path) {
        return Err(String::from_str("Unsupported video format"));
    }
    Ok(())
}

/// Everything a transcription needs to know before it starts.
pub struct TranscriptionPlan {
    /// The model to load.
    pub model_path: String,
    /// The subtitle file to write.
    pub srt_path: String,
    /// The plain-text transcript to write.
    pub txt_path: String,
    /// The working directory to create.
    pub work_dir: String,
    /// The intermediate WAV file.
    pub wav_path: String,
}

/// Output paths for `video_path`: `(srt, txt)`.
pub fn output_paths(video_path: &str) -> (r: (String, String))
    ensures
        r.0@ == srt_path_for(video_path@),
        r.1@ == txt_path_for(video_path@),
{
    let stem = match path_file_stem(video_path) {
        Some(s) => s,
        None => String::from_str("transcription"),
    };
    let dir = match path_parent(video_path) {
        Some(p) => p,
        None => String::from_str("."),
    };
    let srt_name = stem.clone().concat(".srt");
    let txt_name = stem.concat(".txt");
    let srt = path_join(dir.as_str(), srt_name.as_str());
    let txt = path_join(dir.as_str(), txt_name.as_str());
    (srt, txt)
}

/// The plan for transcribing `video_path` with the model found, if any,
/// using `temp_root` for intermediate files: an error when there is no model.
pub fn plan_transcription(video_path: &str, model_path: Option<String>, temp_root: &str) -> (r: Result<
    TranscriptionPlan,
    String,
>)
    ensures
        model_path is None ==> (r matches Err(m) && m@ == model_missing_message()),
        model_path matches Some(mp) ==> (r matches Ok(p) && {
            &&& p.model_path@ == mp@
            &&& p.srt_path@ == srt_path_for(video_path@)
            &&& p.txt_path@ == txt_path_for(video_path@)
            &&& p.work_dir@ == work_dir_for(temp_root@)
            &&& p.wav_path@ == wav_path_for(temp_root@)
        }),
{
    let model_path = match model_path {
        Some(m) => m,
        None => return Err(String::from_str("Whisper model not found. Please download the model first.")),
    };
    let (srt_path, txt_path) = output_paths(video_path);
    let work_dir = path_join(temp_root, "videoscribe");
    let wav_path = path_join(work_dir.as_str(), "audio.wav");
    Ok(TranscriptionPlan { model_path, srt_path, txt_path, work_dir, wav_path })
}


proof fn lemma_output_stem_plain(v: Seq<char>)
    ensures
        output_stem(v).len() > 0,
        !output_stem(v).contains('/'),
{
    lemma_file_name_shape(v);
    match file_name(v) {
        Some(name) => {
            let stem = output_stem(v);
            if last_dot(name) > 0 {
                lemma_last_char_before_bounds(name, '.', name.len() as int);
                assert(stem == name.subrange(0, last_dot(name)));
                if stem.contains('/') {
                    let j = choose|j: int| 0 <= j < stem.len() && stem[j] == '/';
                    assert(name[j] == '/');
                    assert(name.contains(name[j]));
                }
            }
        },
        None => {
            reveal_strlit("transcription");
            let t = "transcription"@;
            if t.contains('/') {
                let j = choose|j: int| 0 <= j < t.len() && t[j] == '/';
            }
        },
    }
}

/// The output file name `stem` + "." + `ext` for a three-letter extension
/// without '.' or '/': a plain name whose stem and extension are the parts.
proof fn lemma_output_name(stem: Seq<char>, suffix: Seq<char>, ext: Seq<char>)
    requires
        stem.len() > 0,
        !stem.contains('/'),
        suffix == seq!['.'] + ext,
        ext.len() == 3,
        !ext.contains('.'),
        !ext.contains('/'),
    ensures
        plain_name(stem + suffix),
        last_dot(stem + suffix) == stem.len(),
{
    let n = stem + suffix;
    if n.contains('/') {
        let j = choose|j: int| 0 <= j < n.len() && n[j] == '/';
        if j < stem.len() {
            assert(stem[j] == '/');
            assert(stem.contains(stem[j]));
        } else if j > stem.len() {
            assert(ext[j - stem.len() - 1] == '/');
            assert(ext.contains(ext[j - stem.len() - 1]));
        }
    }
    let k = stem.len() as int;
    assert(n[k] == '.');
    assert(n[k + 1] == ext[0] && n[k + 2] == ext[1] && n[k + 3] == ext[2]);
    assert(ext.contains(ext[0]) && ext.contains(ext[1]) && ext.contains(ext[2]));
    assert(last_char_before(n, '.', k + 1) == k);
    assert(last_char_before(n, '.', k + 2) == k);
    assert(last_char_before(n, '.', k + 3) == k);
    assert(last_char_before(n, '.', k + 4) == k);
}

proof fn lemma_output_file(v: Seq<char>, suffix: Seq<char>, ext: Seq<char>)
    requires
        suffix == seq!['.'] + ext,
        ext.len() == 3,
        !ext.contains('.'),
        !ext.contains('/'),
    ensures
        ({
            let path = join(output_dir(v), output_stem(v) + suffix);
            &&& parent(path) == Some(output_dir(v))
            &&& file_name(path) == Some(output_stem(v) + suffix)
            &&& file_stem(path) == Some(output_stem(v))
            &&& extension(path) == Some(ext)
        }),
{
    let stem = output_stem(v);
    let name = stem + suffix;
    lemma_output_stem_plain(v);
    lemma_output_name(stem, suffix, ext);
    parent_is_stable(v);
    assert(stable_dir(output_dir(v))) by {
        if parent(v) is None {
            reveal_strlit(".");
            assert(output_dir(v) =~= seq!['.']);
            assert(body_start(seq!['.']) == 1);
        }
    }
    parent_of_join(output_dir(v), name);
    file_name_of_join(output_dir(v), name);
    assert(name.subrange(0, stem.len() as int) =~= stem);
    assert(name.subrange(stem.len() as int + 1, name.len() as int) =~= ext);
}

/// Law: the subtitle and text files are written in the video's directory
/// (or "." when the video path has none) and are named after the video:
/// their parent is that directory, their stem the video's stem (or
/// "transcription"), and their extensions "srt" and "txt".
pub proof fn outputs_next_to_video(video_path: Seq<char>)
    ensures
        parent(srt_path_for(video_path)) == Some(output_dir(video_path)),
        parent(txt_path_for(video_path)) == Some(output_dir(video_path)),
        file_stem(srt_path_for(video_path)) == Some(output_stem(video_path)),
        file_stem(txt_path_for(video_path)) == Some(output_stem(video_path)),
        extension(srt_path_for(video_path)) == Some("srt"@),
        extension(txt_path_for(video_path)) == Some("txt"@),
        parent(video_path) matches Some(d) ==> output_dir(video_path) == d,
        file_stem(video_path) matches Some(s) ==> output_stem(video_path) == s,
{
    reveal_strlit(".srt");
    reveal_strlit(".txt");
    reveal_strlit("srt");
    reveal_strlit("txt");
    let srt = "srt"@;
    let txt = "txt"@;
    assert(".srt"@ =~= seq!['.'] + srt);
    assert(".txt"@ =~= seq!['.'] + txt);
    assert(!srt.contains('.') && !srt.contains('/')) by {
        if srt.contains('.') || srt.contains('/') {
            let j = choose|j: int| 0 <= j < srt.len() && (srt[j] == '.' || srt[j] == '/');
        }
    }
    assert(!txt.contains('.') && !txt.contains('/')) by {
        if txt.contains('.') || txt.contains('/') {
            let j = choose|j: int| 0 <= j < txt.len() && (txt[j] == '.' || txt[j] == '/');
        }
    }
    lemma_output_file(video_path, ".srt"@, srt);
    lemma_output_file(video_path, ".txt"@, txt);
}

} // verus!
