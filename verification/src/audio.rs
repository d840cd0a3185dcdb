//! Audio side: which files count as videos, how FFmpeg is invoked and what
//! its answers mean, and how the samples of a WAV file are to be scaled.

use vstd::prelude::*;
use crate::paths::{
    extension, path_extension, plain_name, join, file_name_of_join, file_name_after_separator,
    last_dot, last_char_before, lemma_last_char_before_bounds,
};
use crate::text::{
    chars_of, views, decimal, push_decimal, trim, trim_str, find, find_from_exec, split_on,
    push_chars, lemma_find_from_first, lemma_find_from_skip, split_char, occurs_at,
    is_white_space, lemma_find_from_is, lemma_find_char_after, lemma_split_on_cons,
    lemma_split_on_single, lemma_trim_unchanged,
};

verus! {

/// The lowercase form of a string under Unicode's case mapping, as
/// `str::to_lowercase` computes it.
pub uninterp spec fn lowercase(s: Seq<char>) -> Seq<char>;

/// Every character is ASCII (below U+0080).
pub open spec fn all_ascii(s: Seq<char>) -> bool {
    forall|i: int| 0 <= i < s.len() ==> (s[i] as u32) < 128
}

/// 'A'..='Z' become 'a'..='z'; every other character stays.
pub open spec fn ascii_lower_char(c: char) -> char {
    if 65 <= (c as u32) <= 90 { ((c as u32) + 32) as char } else { c }
}

/// 'a'..='z' become 'A'..='Z'; every other character stays.
pub open spec fn ascii_upper_char(c: char) -> char {
    if 97 <= (c as u32) <= 122 { ((c as u32) - 32) as char } else { c }
}

/// The string with its ASCII letters in lowercase (`str::to_ascii_lowercase`).
pub open spec fn ascii_lower(s: Seq<char>) -> Seq<char> {
    s.map_values(|c: char| ascii_lower_char(c))
}

/// The string with its ASCII letters in uppercase (`str::to_ascii_uppercase`).
pub open spec fn ascii_upper(s: Seq<char>) -> Seq<char> {
    s.map_values(|c: char| ascii_upper_char(c))
}

/// Calls `str::to_lowercase`. The contract claims that the result is the
/// Unicode lowercase form of the argument, which depends on nothing else,
/// and, as std's documentation shows ("HELLO" gives "hello"; ASCII letters
/// are lowercased as `to_ascii_lowercase` does), that an ASCII string comes
/// back with its letters 'A'..='Z' lowered and the rest unchanged. Of other
/// strings it claims nothing more.
#[verifier::external_body]
fn to_lowercase(s: &str) -> (r: String)
    ensures
        r@ == lowercase(s@),
        all_ascii(s@) ==> r@ == ascii_lower(s@),
{
    s.to_lowercase()
}

/// The file extensions, in lowercase, of the video formats that are accepted.
pub open spec fn video_extensions() -> Seq<Seq<char>> {
    seq!["mp4"@, "mkv"@, "avi"@, "mov"@, "wmv"@, "flv"@, "webm"@, "m4v"@, "ts"@, "mts"@]
}

/// Whether an extension, already in lowercase, is one of the accepted video formats.
pub fn is_video_extension(lowered: &str) -> (r: bool)
    ensures
        r == video_extensions().contains(lowered@),
{
    let e = String::from_str(lowered);
    let known = [
        String::from_str("mp4"),
        String::from_str("mkv"),
        String::from_str("avi"),
        String::from_str("mov"),
        String::from_str("wmv"),
        String::from_str("flv"),
        String::from_str("webm"),
        String::from_str("m4v"),
        String::from_str("ts"),
        String::from_str("mts"),
    ];
    let mut i: usize = 0;
    while i < 10
        invariant
            i <= 10,
            e@ == lowered@,
            forall|k: int| 0 <= k < 10 ==> known@[k]@ == #[trigger] video_extensions()[k],
            forall|k: int| 0 <= k < i ==> video_extensions()[k] != lowered@,
        decreases 10 - i,
    {
        if known[i] == e {
            assert(video_extensions()[i as int] == lowered@);
            return true;
        }
        i = i + 1;
    }
    assert forall|k: int| 0 <= k < video_extensions().len() implies video_extensions()[k] != lowered@ by {}
    false
}

/// The lowercase form of an extension: its ASCII letters lowered where it is
/// ASCII, its Unicode lowercase form otherwise.
pub open spec fn lowered(ext: Seq<char>) -> Seq<char> {
    if all_ascii(ext) { ascii_lower(ext) } else { lowercase(ext) }
}

/// A path is a supported video when its file name has an extension whose
/// lowercase form is one of the accepted video formats.
pub open spec fn supported_video(path: Seq<char>) -> bool {
    match extension(path) {
        Some(ext) => video_extensions().contains(lowered(ext)),
        None => false,
    }
}

/// Whether `path` looks like a supported video file, judged by its extension
/// regardless of case.
pub fn is_supported_video(path: &str) -> (r: bool)
    ensures
        r == supported_video(path@),
{
    match path_extension(path) {
        Some(ext) => {
            let lowered = to_lowercase(ext.as_str());
            is_video_extension(lowered.as_str())
        },
        None => false,
    }
}


/// The FFmpeg to run: the copy at `local_path` when it exists, otherwise
/// plain "ffmpeg" from the search path.
pub fn get_ffmpeg_path(local_path: &str, local_exists: bool) -> (cmd: String)
    ensures
        cmd@ == if local_exists { local_path@ } else { "ffmpeg"@ },
{
    if local_exists {
        String::from_str(local_path)
    } else {
        String::from_str("ffmpeg")
    }
}

/// Arguments that make FFmpeg write the audio of `video_path` to
/// `output_path` as a 16 kHz mono 16-bit PCM WAV file, replacing it if it
/// exists.
pub open spec fn extract_args(video_path: Seq<char>, output_path: Seq<char>) -> Seq<Seq<char>> {
    seq![
        "-y"@, "-i"@, video_path, "-vn"@, "-acodec"@, "pcm_s16le"@, "-ar"@, "16000"@, "-ac"@, "1"@,
        output_path,
    ]
}

/// The FFmpeg arguments that extract the audio of a video for transcription.
pub fn ffmpeg_extract_args(video_path: &str, output_path: &str) -> (args: Vec<String>)
    ensures
        views(args@) == extract_args(video_path@, output_path@),
{
    let args = vec![
        String::from_str("-y"),
        String::from_str("-i"),
        String::from_str(video_path),
        String::from_str("-vn"),
        String::from_str("-acodec"),
        String::from_str("pcm_s16le"),
        String::from_str("-ar"),
        String::from_str("16000"),
        String::from_str("-ac"),
        String::from_str("1"),
        String::from_str(output_path),
    ];
    assert(views(args@) =~= extract_args(video_path@, output_path@));
    args
}

/// How a run of an external tool ended.
pub enum ToolRun {
    /// The tool could not be started; the system's error message.
    NotStarted(String),
    /// The tool ran to its end.
    Finished {
        /// It exited with success.
        success: bool,
        /// What it wrote to standard error, decoded as UTF-8 with
        /// replacement characters.
        stderr: String,
    },
}

/// The error when FFmpeg could not be started.
pub open spec fn ffmpeg_not_found_message(error: Seq<char>, command: Seq<char>) -> Seq<char> {
    "FFmpeg not found: "@ + error + ". Command was: "@ + command
}

/// The error when FFmpeg failed.
pub open spec fn ffmpeg_failed_message(stderr: Seq<char>) -> Seq<char> {
    "FFmpeg failed: "@ + stderr
}

/// What an audio extraction with FFmpeg run as `command` comes to: done if
/// FFmpeg exited with success, otherwise an error that says why.
pub fn extract_audio_outcome(command: &str, run: ToolRun) -> (r: Result<(), String>)
    ensures
        match run {
            ToolRun::NotStarted(e) => r matches Err(msg) && msg@ == ffmpeg_not_found_message(e@, command@),
            ToolRun::Finished { success, stderr } => if success {
                r is Ok
            } else {
                r matches Err(msg) && msg@ == ffmpeg_failed_message(stderr@)
            },
        },
{
    match run {
        ToolRun::NotStarted(e) => {
            let mut msg = String::from_str("FFmpeg not found: ");
            msg.append(e.as_str());
            msg.append(". Command was: ");
            msg.append(command);
            assert(msg@ =~= ffmpeg_not_found_message(e@, command@));
            Err(msg)
        },
        ToolRun::Finished { success, stderr } => {
            if success {
                Ok(())
            } else {
                let mut msg = String::from_str("FFmpeg failed: ");
                msg.append(stderr.as_str());
                Err(msg)
            }
        },
    }
}

/// The three fields of the duration FFmpeg reports, `HH`, `MM` and `SS.ss`:
/// the text between the first "Duration: " and the next ',', trimmed and cut
/// at each ':', if that gives exactly three pieces.
pub open spec fn duration_fields(report: Seq<char>) -> Option<(Seq<char>, Seq<char>, Seq<char>)> {
    match find(report, "Duration: "@) {
        Some(i) => {
            let rest = report.skip(i + "Duration: "@.len());
            match find(rest, seq![',']) {
                Some(c) => {
                    let parts = split_on(trim(rest.take(c)), ':');
                    if parts.len() == 3 { Some((parts[0], parts[1], parts[2])) } else { None }
                },
                None => None,
            }
        },
        None => None,
    }
}


/// Picks the duration fields out of what `ffmpeg -i` writes to standard
/// error, the three pieces of "Duration: HH:MM:SS.ss,".
pub fn duration_fields_of(report: &str) -> (r: Option<(String, String, String)>)
    ensures
        match r {
            Some((h, m, s)) => duration_fields(report@) == Some((h@, m@, s@)),
            None => duration_fields(report@) is None,
        },
{
    let v = chars_of(report);
    let marker = chars_of("Duration: ");
    let i = match find_from_exec(&v, &marker, 0) {
        Some(i) => i,
        None => return None,
    };
    proof {
        lemma_find_from_first(v@, marker@, 0);
    }
    let vlen = v.len();
    assert(occurs_at(v@, marker@, i as int));
    assert(i + marker@.len() <= vlen);
    let start = i + marker.len();
    let comma: Vec<char> = vec![','];
    assert(comma@ =~= seq![',']);
    proof {
        lemma_find_from_skip(v@, seq![','], start as int, 0);
        lemma_find_from_first(v@, seq![','], start as int);
    }
    let c = match find_from_exec(&v, &comma, start) {
        Some(c) => c,
        None => return None,
    };
    let mut span = String::new();
    push_chars(&mut span, &v, start, c);
    let ghost rest = report@.skip(start as int);
    assert(rest.take(c - start) =~= v@.subrange(start as int, c as int));
    let time = trim_str(span.as_str());
    let parts = split_char(time.as_str(), ':');
    proof {
        assert(parts@.map_values(|p: String| p@).len() == parts@.len());
    }
    if parts.len() == 3 {
        let h = parts[0].clone();
        let m = parts[1].clone();
        let s = parts[2].clone();
        proof {
            assert(parts@.map_values(|p: String| p@)[0] == parts@[0]@);
            assert(parts@.map_values(|p: String| p@)[1] == parts@[1]@);
            assert(parts@.map_values(|p: String| p@)[2] == parts@[2]@);
        }
        Some((h, m, s))
    } else {
        None
    }
}


/// What a WAV file's header says of its samples.
pub struct WavFormat {
    /// Number of interleaved channels.
    pub channels: u16,
    /// Bits per sample.
    pub bits_per_sample: u16,
    /// The samples are floating point rather than integers.
    pub float_samples: bool,
}

/// How the samples of a WAV file are brought into [-1.0, 1.0].
pub enum SampleScale {
    /// Floating-point samples are already on that scale; any that lie
    /// outside it are clamped to -1.0 or 1.0.
    Clamped,
    /// Integer samples are divided by this value.
    DivideBy(i64),
}

/// `2` raised to the power `k`.
pub open spec fn pow2(k: nat) -> nat
    decreases k,
{
    if k == 0 { 1 } else { 2 * pow2((k - 1) as nat) }
}

/// `2^(bits - 1)`: half the range of a `bits`-bit signed sample, the value
/// its samples are divided by to bring them into [-1, 1].
pub open spec fn int_full_scale(bits: nat) -> int {
    pow2((bits - 1) as nat) as int
}

/// The error for audio that is not mono.
pub open spec fn not_mono_message(channels: nat) -> Seq<char> {
    "Expected mono audio, got "@ + decimal(channels) + " channels"@
}

/// How to scale the samples of a WAV file with the given header, or the
/// error if it is not mono. Integer samples of `bits` bits are divided by
/// `1 << (bits - 1)`, so a header with integer samples must give 1 to 32 bits.
pub fn wav_sample_scale(format: &WavFormat) -> (r: Result<SampleScale, String>)
    requires
        format.channels == 1 && !format.float_samples ==> 1 <= format.bits_per_sample <= 32,
    ensures
        format.channels != 1 ==> (r matches Err(msg) && msg@ == not_mono_message(format.channels as nat)),
        format.channels == 1 && format.float_samples ==> r matches Ok(SampleScale::Clamped),
        format.channels == 1 && !format.float_samples ==> (r matches Ok(SampleScale::DivideBy(d))
            && d == int_full_scale(format.bits_per_sample as nat)),
{
    if format.channels != 1 {
        let mut msg = String::from_str("Expected mono audio, got ");
        push_decimal(&mut msg, format.channels as u64);
        msg.append(" channels");
        assert(msg@ =~= not_mono_message(format.channels as nat));
        return Err(msg);
    }
    if format.float_samples {
        return Ok(SampleScale::Clamped);
    }
    let bits = format.bits_per_sample;
    let mut scale: i64 = 1;
    let mut k: u16 = 1;
    proof {
        reveal_with_fuel(pow2, 32);
        assert(pow2(30) == 0x4000_0000);
    }
    while k < bits
        invariant
            1 <= k <= bits <= 32,
            scale as int == pow2((k - 1) as nat),
            pow2(30) == 0x4000_0000,
        decreases bits - k,
    {
        proof {
            lemma_pow2_bound((k - 1) as nat, 30);
        }
        assert(pow2(k as nat) == 2 * pow2((k - 1) as nat));
        scale = scale * 2;
        k = k + 1;
    }
    Ok(SampleScale::DivideBy(scale))
}

proof fn lemma_pow2_bound(k: nat, m: nat)
    requires
        k <= m,
    ensures
        pow2(k) <= pow2(m),
    decreases m,
{
    if k < m {
        lemma_pow2_bound(k, (m - 1) as nat);
    }
}


/// Law: the duration line that FFmpeg prints, "Duration: HH:MM:SS.ss,",
/// gives back its three fields. Here `before` is everything FFmpeg wrote
/// before that line and `after` everything after the ','; the fields hold
/// no ':' or ',', and the first does not start, nor the last end, with
/// white space. The marker must not occur earlier in the report.
pub proof fn duration_line_gives_fields(
    before: Seq<char>,
    hours: Seq<char>,
    minutes: Seq<char>,
    seconds: Seq<char>,
    after: Seq<char>,
)
    requires
        !hours.contains(':') && !hours.contains(','),
        !minutes.contains(':') && !minutes.contains(','),
        !seconds.contains(':') && !seconds.contains(','),
        hours.len() > 0 ==> !is_white_space(hours[0]),
        seconds.len() > 0 ==> !is_white_space(seconds.last()),
        forall|p: int| 0 <= p < before.len() ==> !#[trigger] occurs_at(
            before + "Duration: "@ + hours + seq![':'] + minutes + seq![':'] + seconds + seq![','] + after,
            "Duration: "@,
            p,
        ),
    ensures
        duration_fields(
            before + "Duration: "@ + hours + seq![':'] + minutes + seq![':'] + seconds + seq![','] + after,
        ) == Some((hours, minutes, seconds)),
{
    let marker = "Duration: "@;
    let time = hours + seq![':'] + minutes + seq![':'] + seconds;
    let report = before + marker + hours + seq![':'] + minutes + seq![':'] + seconds + seq![','] + after;
    let at = before.len() as int;
    assert(report.subrange(at, at + marker.len()) =~= marker);
    lemma_find_from_is(report, marker, 0, at);
    let rest = report.skip(at + marker.len());
    assert(rest =~= time + seq![','] + after);
    assert(!time.contains(',')) by {
        if time.contains(',') {
            let j = choose|j: int| 0 <= j < time.len() && time[j] == ',';
            if j < hours.len() {
                assert(hours[j] == ',');
            } else if j == hours.len() {
            } else if j < hours.len() + 1 + minutes.len() {
                assert(minutes[j - hours.len() - 1] == ',');
            } else if j == hours.len() + 1 + minutes.len() {
            } else {
                assert(seconds[j - hours.len() - 2 - minutes.len()] == ',');
            }
        }
    }
    lemma_find_char_after(time, ',', after);
    assert(rest.take(time.len() as int) =~= time);
    assert(time.len() > 0 ==> !is_white_space(time[0]) && !is_white_space(time.last())) by {
        if hours.len() > 0 {
            assert(time[0] == hours[0]);
        } else {
            assert(time[0] == ':');
        }
        if seconds.len() > 0 {
            assert(time.last() == seconds.last());
        } else {
            assert(time.last() == ':');
        }
    }
    lemma_trim_unchanged(time);
    let tail = minutes + seq![':'] + seconds;
    assert(time =~= hours + seq![':'] + tail);
    lemma_split_on_cons(hours, ':', tail);
    lemma_split_on_cons(minutes, ':', seconds);
    lemma_split_on_single(seconds, ':');
    assert(split_on(time, ':') =~= seq![hours, minutes, seconds]);
}


/// Law: dividing by the scale brings every sample into [-1, 1] and keeps its
/// sign: the scale is positive and bounds every `bits`-bit signed sample,
/// and the most negative sample becomes exactly -1.
pub proof fn wav_scale_bounds_samples(bits: nat, sample: int)
    requires
        1 <= bits <= 32,
        -(pow2((bits - 1) as nat) as int) <= sample < pow2((bits - 1) as nat),
    ensures
        int_full_scale(bits) > 0,
        -int_full_scale(bits) <= sample < int_full_scale(bits),
        -int_full_scale(bits) >= i32::MIN,
        int_full_scale(bits) <= i32::MAX + 1,
{
    reveal_with_fuel(pow2, 32);
    assert(pow2(31) == 0x8000_0000);
    lemma_pow2_positive((bits - 1) as nat);
    lemma_pow2_bound((bits - 1) as nat, 31);
}

proof fn lemma_pow2_positive(k: nat)
    ensures
        pow2(k) >= 1,
    decreases k,
{
    if k > 0 {
        lemma_pow2_positive((k - 1) as nat);
    }
}


/// Law: whether a file is a supported video depends on its name alone, not
/// on the directory it is in.
pub proof fn supported_video_ignores_directory(dir: Seq<char>, name: Seq<char>)
    requires
        plain_name(name),
    ensures
        supported_video(dir + seq!['/'] + name) == supported_video(name),
{
    file_name_after_separator(dir, name);
    file_name_of_join(Seq::empty(), name);
    assert(join(Seq::empty(), name) =~= name) by {
        if name.len() > 0 && name[0] == '/' {
            assert(name.contains(name[0]));
        }
    }
}

/// Upper- and lowercase letters of one ASCII character map as expected:
/// lowering an uppered character lowers it, and '/' and '.' are kept.
proof fn lemma_ascii_case_char(c: char)
    requires
        (c as u32) < 128,
    ensures
        (ascii_upper_char(c) as u32) < 128,
        ascii_lower_char(ascii_upper_char(c)) == ascii_lower_char(c),
        ascii_upper_char(c) == '/' <==> c == '/',
        ascii_upper_char(c) == '.' <==> c == '.',
{
    if 97 <= (c as u32) <= 122 {
        let u = ((c as u32) - 32) as char;
        assert(u as u32 == (c as u32) - 32);
        assert(((u as u32) + 32) as char == c);
    } else if 65 <= (c as u32) <= 90 {
    }
}

/// Two names with their dots in the same places have their last dot in
/// the same place.
proof fn lemma_last_dot_same(s: Seq<char>, t: Seq<char>, n: int)
    requires
        s.len() == t.len(),
        n <= s.len(),
        forall|i: int| 0 <= i < s.len() ==> (s[i] == '.' <==> t[i] == '.'),
    ensures
        last_char_before(s, '.', n) == last_char_before(t, '.', n),
    decreases n,
{
    if n > 0 {
        lemma_last_dot_same(s, t, n - 1);
    }
}

/// Law: only the extension is judged, and regardless of the case of its
/// ASCII letters: a file name written with its ASCII letters in uppercase
/// is a supported video exactly when the name itself is, for every name
/// whose extension is ASCII.
pub proof fn supported_video_ignores_ascii_case(name: Seq<char>)
    requires
        plain_name(name),
        extension(name) matches Some(e) ==> all_ascii(e),
    ensures
        supported_video(ascii_upper(name)) == supported_video(name),
{
    let up = ascii_upper(name);
    assert forall|i: int| 0 <= i < name.len() implies (up[i] == '.' <==> name[i] == '.')
        && (up[i] == '/' <==> name[i] == '/') by {
        let c = name[i];
        if !(97 <= (c as u32) <= 122) {
            assert(up[i] == c);
        } else {
            lemma_ascii_case_char(c);
        }
    }
    assert(plain_name(up)) by {
        if up.contains('/') {
            let j = choose|j: int| 0 <= j < up.len() && up[j] == '/';
            assert(name.contains(name[j]));
        }
    }
    file_name_of_join(Seq::empty(), name);
    file_name_of_join(Seq::empty(), up);
    assert(join(Seq::empty(), name) =~= name) by {
        if name.len() > 0 && name[0] == '/' {
            assert(name.contains(name[0]));
        }
    }
    assert(join(Seq::empty(), up) =~= up) by {
        if up.len() > 0 && up[0] == '/' {
            assert(up.contains(up[0]));
        }
    }
    lemma_last_dot_same(name, up, name.len() as int);
    lemma_last_char_before_bounds(name, '.', name.len() as int);
    let d = last_dot(name);
    if d > 0 {
        let e = name.subrange(d + 1, name.len() as int);
        assert(up.subrange(d + 1, up.len() as int) =~= ascii_upper(e));
        assert forall|i: int| 0 <= i < e.len() implies (ascii_upper(e)[i] as u32) < 128
            && ascii_lower_char(ascii_upper(e)[i]) == ascii_lower_char(e[i]) by {
            lemma_ascii_case_char(e[i]);
        }
        assert(ascii_lower(ascii_upper(e)) =~= ascii_lower(e));
    }
}

/// The ten documented video extensions, as literals.
pub open spec fn documented_video_extensions() -> Seq<Seq<char>> {
    seq!["mp4"@, "mkv"@, "avi"@, "mov"@, "wmv"@, "flv"@, "webm"@, "m4v"@, "ts"@, "mts"@]
}

/// A lowercase ASCII letter or a digit.
pub open spec fn lower_alnum(c: char) -> bool {
    ('a' <= c && c <= 'z') || ('0' <= c && c <= '9')
}

/// A word of lowercase letters and digits has no '/' or '.', stays as it is
/// when lowered, and comes back to itself when uppered and lowered again.
proof fn lemma_lower_alnum_word(e: Seq<char>)
    requires
        forall|i: int| 0 <= i < e.len() ==> lower_alnum(#[trigger] e[i]),
    ensures
        !e.contains('/'),
        !e.contains('.'),
        all_ascii(e),
        ascii_lower(e) == e,
        !ascii_upper(e).contains('/'),
        !ascii_upper(e).contains('.'),
        all_ascii(ascii_upper(e)),
        ascii_lower(ascii_upper(e)) == e,
{
    assert forall|i: int| 0 <= i < e.len() implies (e[i] as u32) < 128 && ascii_lower_char(e[i]) == e[i]
        && e[i] != '/' && e[i] != '.' by {
        assert(lower_alnum(e[i]));
    }
    assert(ascii_lower(e) =~= e);
    let u = ascii_upper(e);
    assert forall|i: int| 0 <= i < e.len() implies (u[i] as u32) < 128 && ascii_lower_char(u[i]) == e[i]
        && u[i] != '/' && u[i] != '.' by {
        lemma_ascii_case_char(e[i]);
    }
    assert(ascii_lower(u) =~= e);
    if e.contains('/') {
        let j = choose|j: int| 0 <= j < e.len() && e[j] == '/';
        assert(e[j] != '/');
    }
    if e.contains('.') {
        let j = choose|j: int| 0 <= j < e.len() && e[j] == '.';
        assert(e[j] != '.');
    }
    if u.contains('/') {
        let j = choose|j: int| 0 <= j < u.len() && u[j] == '/';
        assert(u[j] != '/');
    }
    if u.contains('.') {
        let j = choose|j: int| 0 <= j < u.len() && u[j] == '.';
        assert(u[j] != '.');
    }
}

/// The last `c` before `n` is at `k` when `s[k]` is `c` and none follows it.
proof fn lemma_last_char_at(s: Seq<char>, c: char, k: int, n: int)
    requires
        0 <= k < n <= s.len(),
        s[k] == c,
        forall|j: int| k < j < n ==> s[j] != c,
    ensures
        last_char_before(s, c, n) == k,
    decreases n,
{
    if s[n - 1] != c {
        lemma_last_char_at(s, c, k, n - 1);
    }
}

/// A name made of a non-empty stem, '.' and an extension without '.' or
/// '/' has exactly that extension.
proof fn lemma_extension_of_dotted(stem: Seq<char>, x: Seq<char>)
    requires
        stem.len() > 0,
        x.len() > 0,
        !stem.contains('/'),
        !x.contains('/'),
        !x.contains('.'),
    ensures
        extension(stem + seq!['.'] + x) == Some(x),
{
    let name = stem + seq!['.'] + x;
    let d = stem.len() as int;
    assert(name[d] == '.');
    assert forall|j: int| 0 <= j < name.len() implies name[j] != '/' by {
        if j < d {
            assert(name[j] == stem[j]);
            if stem[j] == '/' {
                assert(stem.contains(stem[j]));
            }
        } else if j > d {
            assert(name[j] == x[j - d - 1]);
            if x[j - d - 1] == '/' {
                assert(x.contains(x[j - d - 1]));
            }
        }
    }
    assert(!name.contains('/'));
    assert forall|j: int| d < j < name.len() implies name[j] != '.' by {
        assert(name[j] == x[j - d - 1]);
        if x[j - d - 1] == '.' {
            assert(x.contains(x[j - d - 1]));
        }
    }
    assert(plain_name(name));
    file_name_of_join(Seq::empty(), name);
    assert(join(Seq::empty(), name) =~= name);
    lemma_last_char_at(name, '.', d, name.len() as int);
    assert(name.subrange(d + 1, name.len() as int) =~= x);
}

/// Law: the accepted video formats are exactly the ten documented ones,
/// mp4, mkv, avi, mov, wmv, flv, webm, m4v, ts and mts; a file named
/// `stem.ext` with one of them is a supported video, in lowercase and in
/// uppercase alike, and a supported video has one of them as its extension
/// once lowered.
pub proof fn documented_video_formats(stem: Seq<char>, e: Seq<char>, path: Seq<char>)
    requires
        stem.len() > 0,
        !stem.contains('/'),
        documented_video_extensions().contains(e),
    ensures
        video_extensions() == documented_video_extensions(),
        supported_video(stem + seq!['.'] + e),
        supported_video(stem + seq!['.'] + ascii_upper(e)),
        supported_video(path) <==> (extension(path) matches Some(x)
            && documented_video_extensions().contains(lowered(x))),
{
    reveal_strlit("mp4");
    reveal_strlit("mkv");
    reveal_strlit("avi");
    reveal_strlit("mov");
    reveal_strlit("wmv");
    reveal_strlit("flv");
    reveal_strlit("webm");
    reveal_strlit("m4v");
    reveal_strlit("ts");
    reveal_strlit("mts");
    let k = choose|k: int| 0 <= k < documented_video_extensions().len()
        && documented_video_extensions()[k] == e;
    assert(e.len() > 0);
    assert forall|i: int| 0 <= i < e.len() implies lower_alnum(#[trigger] e[i]) by {
        assert(0 <= k < 10);
    }
    lemma_lower_alnum_word(e);
    lemma_extension_of_dotted(stem, e);
    lemma_extension_of_dotted(stem, ascii_upper(e));
    assert(lowered(e) == e);
    assert(lowered(ascii_upper(e)) == e);
}

/// Law: FFmpeg is handed the video path and the output path exactly as
/// given, whatever characters they hold, as the third and the last of
/// eleven arguments; the other nine are fixed flags that do not depend on
/// the paths: `-y -i <video> -vn -acodec pcm_s16le -ar 16000 -ac 1 <output>`.
pub proof fn extract_args_pass_paths_unchanged(
    video_path: Seq<char>,
    output_path: Seq<char>,
    other_video: Seq<char>,
    other_output: Seq<char>,
)
    ensures
        extract_args(video_path, output_path).len() == 11,
        extract_args(video_path, output_path)[2] == video_path,
        extract_args(video_path, output_path)[10] == output_path,
        forall|k: int| 0 <= k < 11 && k != 2 && k != 10 ==>
            #[trigger] extract_args(video_path, output_path)[k] == extract_args(other_video, other_output)[k],
        extract_args(video_path, output_path) == seq![
            "-y"@, "-i"@, video_path, "-vn"@, "-acodec"@, "pcm_s16le"@, "-ar"@, "16000"@, "-ac"@, "1"@,
            output_path,
        ],
{
}

} // verus!
