//! Transcription bookkeeping: how the audio is cut into overlapping chunks,
//! and how recognised segments become numbered SRT entries and text lines.

use vstd::prelude::*;
use crate::text::{
    decimal, trim, trim_str, push_decimal, push_char, lemma_trim_idempotent, digits_value, is_digit,
    lemma_decimal_value, lemma_decimal_digits,
};
use crate::timestamp::{srt_timestamp, display_timestamp, push_timestamp, reads_as_time, timestamp_reads_back};

verus! {

/// Samples per second of the audio handed to the recogniser.
pub const SAMPLE_RATE: usize = 16000;

/// Samples per chunk: thirty seconds.
pub const CHUNK_SAMPLES: usize = 480000;

/// Samples shared by consecutive chunks: one second, so that no word is cut.
pub const OVERLAP_SAMPLES: usize = 16000;

/// End (exclusive) of the chunk that starts at `start`.
pub open spec fn chunk_end_of(start: nat, total: nat) -> nat {
    if start + CHUNK_SAMPLES <= total {
        (start + CHUNK_SAMPLES) as nat
    } else {
        total
    }
}

/// Start of the chunk after the one that starts at `start`: one second
/// before its end, or `total` once the end of the audio is reached.
pub open spec fn next_chunk_start(start: nat, total: nat) -> nat {
    let end = chunk_end_of(start, total);
    if end >= total {
        total
    } else {
        (end - OVERLAP_SAMPLES) as nat
    }
}

/// The chunks, as `(start, end)` sample ranges, from `start` to the end of the audio.
pub open spec fn chunks_from(start: nat, total: nat) -> Seq<(nat, nat)>
    decreases total - start,
{
    if start >= total {
        Seq::empty()
    } else {
        seq![(start, chunk_end_of(start, total))] + chunks_from(next_chunk_start(start, total), total)
    }
}

/// All chunks of an audio of `total` samples.
pub open spec fn chunks_of(total: nat) -> Seq<(nat, nat)> {
    chunks_from(0, total)
}

/// The chunk ranges as natural numbers.
pub open spec fn chunk_ranges(v: Seq<(usize, usize)>) -> Seq<(nat, nat)> {
    v.map_values(|c: (usize, usize)| (c.0 as nat, c.1 as nat))
}

/// The sample ranges `(start, end)` in which an audio of `total_samples`
/// samples is transcribed, in order: thirty seconds each, the next starting
/// one second before the previous one ends, the last ending with the audio.
pub fn chunk_schedule(total_samples: usize) -> (chunks: Vec<(usize, usize)>)
    ensures
        chunk_ranges(chunks@) == chunks_of(total_samples as nat),
{
    let mut chunks: Vec<(usize, usize)> = Vec::new();
    let mut start: usize = 0;
    while start < total_samples
        invariant
            start <= total_samples,
            chunk_ranges(chunks@) + chunks_from(start as nat, total_samples as nat)
                == chunks_of(total_samples as nat),
        decreases total_samples - start,
    {
        let end = if total_samples - start <= CHUNK_SAMPLES {
            total_samples
        } else {
            start + CHUNK_SAMPLES
        };
        let ghost old_chunks = chunks@;
        chunks.push((start, end));
        let next = if end >= total_samples {
            total_samples
        } else {
            end - OVERLAP_SAMPLES
        };
        proof {
            assert(chunk_ranges(chunks@) =~= chunk_ranges(old_chunks) + seq![(start as nat, end as nat)]);
            assert(chunks_from(start as nat, total_samples as nat) =~= seq![(start as nat, end as nat)]
                + chunks_from(next as nat, total_samples as nat));
            assert(chunk_ranges(chunks@) + chunks_from(next as nat, total_samples as nat)
                =~= chunk_ranges(old_chunks) + chunks_from(start as nat, total_samples as nat));
        }
        start = next;
    }
    proof {
        assert(chunks_from(start as nat, total_samples as nat) =~= Seq::<(nat, nat)>::empty());
        assert(chunk_ranges(chunks@) =~= chunk_ranges(chunks@) + chunks_from(start as nat, total_samples as nat));
    }
    chunks
}


/// Sample `s` lies in one of the ranges `c`.
pub open spec fn sample_covered(c: Seq<(nat, nat)>, s: nat) -> bool {
    exists|i: int| 0 <= i < c.len() && #[trigger] c[i].0 <= s < c[i].1
}

/// What holds of the chunks from `start` on.
proof fn lemma_chunks_from(start: nat, total: nat)
    requires
        start <= total,
    ensures
        ({
            let c = chunks_from(start, total);
            &&& (c.len() > 0 <==> start < total)
            &&& c.len() > 0 ==> c[0].0 == start && c[c.len() - 1].1 == total
            &&& forall|i: int| 0 <= i < c.len() ==> start <= #[trigger] c[i].0 < c[i].1 <= total
                && c[i].1 - c[i].0 <= CHUNK_SAMPLES
            &&& forall|i: int| 0 <= i < c.len() - 1 ==> #[trigger] c[i + 1].0 + OVERLAP_SAMPLES == c[i].1
                && c[i].1 < total
            &&& forall|s: nat| start <= s < total ==> #[trigger] sample_covered(c, s)
        }),
{
    lemma_chunks_shape(start, total);
    lemma_chunks_cover(start, total);
}

#[verifier::spinoff_prover]
proof fn lemma_chunks_shape(start: nat, total: nat)
    requires
        start <= total,
    ensures
        ({
            let c = chunks_from(start, total);
            &&& (c.len() > 0 <==> start < total)
            &&& c.len() > 0 ==> c[0].0 == start && c[c.len() - 1].1 == total
            &&& forall|i: int| 0 <= i < c.len() ==> start <= #[trigger] c[i].0 < c[i].1 <= total
                && c[i].1 - c[i].0 <= CHUNK_SAMPLES
            &&& forall|i: int| 0 <= i < c.len() - 1 ==> #[trigger] c[i + 1].0 + OVERLAP_SAMPLES == c[i].1
                && c[i].1 < total
        }),
    decreases total - start,
{
    if start < total {
        let end = chunk_end_of(start, total);
        let next = next_chunk_start(start, total);
        lemma_chunks_shape(next, total);
        let c = chunks_from(start, total);
        let rest = chunks_from(next, total);
        assert(c =~= seq![(start, end)] + rest);
        assert forall|i: int| 0 <= i < c.len() - 1 implies #[trigger] c[i + 1].0 + OVERLAP_SAMPLES == c[i].1
            && c[i].1 < total by {
            if i > 0 {
                assert(c[i + 1] == rest[i]);
                assert(c[i] == rest[i - 1]);
                assert(rest[(i - 1) + 1].0 + OVERLAP_SAMPLES == rest[i - 1].1);
            } else {
                assert(c[1] == rest[0]);
                assert(rest.len() > 0);
                assert(next < total);
                assert(end < total);
                assert(rest[0].0 == next);
            }
        }
        assert forall|i: int| 0 <= i < c.len() implies start <= #[trigger] c[i].0 < c[i].1 <= total
            && c[i].1 - c[i].0 <= CHUNK_SAMPLES by {
            if i > 0 {
                assert(c[i] == rest[i - 1]);
            }
        }
        if rest.len() > 0 {
            assert(c[c.len() - 1] == rest[rest.len() - 1]);
        }
    } else {
        assert(chunks_from(start, total) =~= Seq::<(nat, nat)>::empty());
    }
}

#[verifier::spinoff_prover]
proof fn lemma_chunks_cover(start: nat, total: nat)
    requires
        start <= total,
    ensures
        forall|s: nat| start <= s < total ==> #[trigger] sample_covered(chunks_from(start, total), s),
    decreases total - start,
{
    if start < total {
        let end = chunk_end_of(start, total);
        let next = next_chunk_start(start, total);
        lemma_chunks_cover(next, total);
        let c = chunks_from(start, total);
        let rest = chunks_from(next, total);
        assert(c =~= seq![(start, end)] + rest);
        assert forall|s: nat| start <= s < total implies #[trigger] sample_covered(c, s) by {
            if s < end {
                assert(c[0].0 <= s < c[0].1);
            } else {
                assert(sample_covered(rest, s));
                let j = choose|j: int| 0 <= j < rest.len() && #[trigger] rest[j].0 <= s < rest[j].1;
                assert(c[j + 1] == rest[j]);
                assert(c[j + 1].0 <= s < c[j + 1].1);
            }
        }
    }
}

/// Law: the chunks cover the whole audio. There is a chunk exactly when
/// there is audio; the first starts at sample 0 and the last ends at the
/// last sample; every sample lies in some chunk; no chunk is empty or
/// longer than thirty seconds; and each chunk after the first starts one
/// second before the previous one ends, so consecutive chunks overlap by
/// exactly one second and the starts strictly increase.
pub proof fn chunk_schedule_covers_audio(total: nat)
    ensures
        ({
            let c = chunks_of(total);
            &&& (c.len() > 0 <==> total > 0)
            &&& c.len() > 0 ==> c[0].0 == 0 && c[c.len() - 1].1 == total
            &&& forall|i: int| 0 <= i < c.len() ==> #[trigger] c[i].0 < c[i].1 <= total
                && c[i].1 - c[i].0 <= CHUNK_SAMPLES
            &&& forall|i: int| 0 <= i < c.len() - 1 ==> #[trigger] c[i + 1].0 + OVERLAP_SAMPLES == c[i].1
            &&& forall|i: int| 0 <= i < c.len() - 1 ==> #[trigger] c[i].0 < c[i + 1].0
            &&& forall|s: nat| s < total ==> #[trigger] sample_covered(c, s)
        }),
{
    lemma_chunks_from(0, total);
    let c = chunks_of(total);
    assert forall|i: int| 0 <= i < c.len() - 1 implies #[trigger] c[i].0 < c[i + 1].0 by {
        assert(c[i + 1].0 + OVERLAP_SAMPLES == c[i].1);
        assert(c[i].1 < total);
        // a chunk that is not the last one is a full thirty seconds long
        assert(c[i].1 == c[i].0 + CHUNK_SAMPLES) by {
            lemma_full_chunk(c, i, total);
        }
    }
}

/// Number of chunks of `r` samples of audio: none for no audio, one up to
/// thirty seconds, and one more for every further 29 s started.
pub open spec fn chunk_count(r: nat) -> nat {
    if r == 0 {
        0
    } else if r <= CHUNK_SAMPLES {
        1
    } else {
        (1 + (r - CHUNK_SAMPLES + (CHUNK_SAMPLES - OVERLAP_SAMPLES) - 1) / (CHUNK_SAMPLES - OVERLAP_SAMPLES as int)) as nat
    }
}

proof fn lemma_chunks_from_len(start: nat, total: nat)
    requires
        start <= total,
    ensures
        chunks_from(start, total).len() == chunk_count((total - start) as nat),
    decreases total - start,
{
    if start < total {
        let next = next_chunk_start(start, total);
        assert(chunks_from(start, total) =~= seq![(start, chunk_end_of(start, total))] + chunks_from(next, total));
        lemma_chunks_from_len(next, total);
        let r = (total - start) as int;
        if r > CHUNK_SAMPLES {
            assert(total - next == r - 464000);
            let q = r - 464000;
            if q > CHUNK_SAMPLES {
                assert((q - 16001) / 464000 + 1 == (r - 16001) / 464000);
            } else {
                assert((r - 16001) / 464000 == 1);
            }
        }
    }
}

/// Law: the audio is cut into `chunk_count` chunks: none for no audio, one
/// for up to thirty seconds, otherwise 1 + ceil((N - 480000) / 464000).
pub proof fn chunk_schedule_count(total: nat)
    ensures
        chunks_of(total).len() == chunk_count(total),
        total == 0 ==> chunks_of(total).len() == 0,
        0 < total <= CHUNK_SAMPLES ==> chunks_of(total).len() == 1,
        total > CHUNK_SAMPLES ==> chunks_of(total).len() == 1 + (total - CHUNK_SAMPLES + 463999) / 464000,
{
    lemma_chunks_from_len(0, total);
}

proof fn lemma_full_chunk(c: Seq<(nat, nat)>, i: int, total: nat)
    requires
        c == chunks_of(total),
        0 <= i < c.len() - 1,
        c[i].1 < total,
    ensures
        c[i].1 == c[i].0 + CHUNK_SAMPLES,
{
    lemma_chunk_is_step(0, total, i);
}

proof fn lemma_chunk_is_step(start: nat, total: nat, i: int)
    requires
        start <= total,
        0 <= i < chunks_from(start, total).len(),
    ensures
        chunks_from(start, total)[i].1 == chunk_end_of(chunks_from(start, total)[i].0, total),
    decreases total - start,
{
    if start < total {
        let rest = chunks_from(next_chunk_start(start, total), total);
        assert(chunks_from(start, total) =~= seq![(start, chunk_end_of(start, total))] + rest);
        if i > 0 {
            lemma_chunk_is_step(next_chunk_start(start, total), total, i - 1);
        }
    }
}


/// The SRT entry of a segment: its number, the line `start --> end`, the
/// text, and a blank line.
pub open spec fn srt_entry(index: nat, start_ms: nat, end_ms: nat, text: Seq<char>) -> Seq<char> {
    decimal(index) + seq!['\n'] + srt_timestamp(start_ms) + " --> "@ + srt_timestamp(end_ms) + seq!['\n']
        + text + seq!['\n', '\n']
}

/// The plain-text line of a segment: `[start --> end] text`.
pub open spec fn txt_line(start_ms: nat, end_ms: nat, text: Seq<char>) -> Seq<char> {
    seq!['['] + display_timestamp(start_ms) + " --> "@ + display_timestamp(end_ms) + "] "@ + text
        + seq!['\n']
}

/// Progress message after `count` segments.
pub open spec fn progress_message(count: nat) -> Seq<char> {
    "已转录 "@ + decimal(count) + " 段"@
}

/// Message once the transcription is done with `count` segments.
pub open spec fn completion_message_text(count: nat) -> Seq<char> {
    "转录完成！共 "@ + decimal(count) + " 段"@
}

/// Builds the SRT entry of a segment.
pub fn format_srt_entry(index: usize, start_ms: u64, end_ms: u64, text: &str) -> (s: String)
    ensures
        s@ == srt_entry(index as nat, start_ms as nat, end_ms as nat, text@),
{
    let mut s = String::new();
    push_decimal(&mut s, index as u64);
    push_char(&mut s, '\n');
    push_timestamp(&mut s, start_ms, ',');
    s.append(" --> ");
    push_timestamp(&mut s, end_ms, ',');
    push_char(&mut s, '\n');
    s.append(text);
    push_char(&mut s, '\n');
    push_char(&mut s, '\n');
    assert(s@ =~= srt_entry(index as nat, start_ms as nat, end_ms as nat, text@));
    s
}

/// Builds the plain-text line of a segment.
pub fn format_txt_line(start_ms: u64, end_ms: u64, text: &str) -> (s: String)
    ensures
        s@ == txt_line(start_ms as nat, end_ms as nat, text@),
{
    let mut s = String::new();
    push_char(&mut s, '[');
    push_timestamp(&mut s, start_ms, '.');
    s.append(" --> ");
    push_timestamp(&mut s, end_ms, '.');
    s.append("] ");
    s.append(text);
    push_char(&mut s, '\n');
    assert(s@ =~= txt_line(start_ms as nat, end_ms as nat, text@));
    s
}

/// The progress message after `count` segments.
pub fn format_progress_message(count: usize) -> (s: String)
    ensures
        s@ == progress_message(count as nat),
{
    let mut s = String::from_str("已转录 ");
    push_decimal(&mut s, count as u64);
    s.append(" 段");
    assert(s@ =~= progress_message(count as nat));
    s
}

/// The message once the transcription is done with `count` segments.
pub fn completion_message(count: usize) -> (s: String)
    ensures
        s@ == completion_message_text(count as nat),
{
    let mut s = String::from_str("转录完成！共 ");
    push_decimal(&mut s, count as u64);
    s.append(" 段");
    assert(s@ =~= completion_message_text(count as nat));
    s
}

/// What a recognised segment becomes once accepted.
pub struct SegmentEntry {
    /// Its number, counting from 1.
    pub index: usize,
    /// Its text, trimmed.
    pub text: String,
    /// Its entry in the SRT file.
    pub srt_entry: String,
    /// Its line in the plain-text file.
    pub txt_line: String,
    /// The progress message to show.
    pub progress_message: String,
}

/// Numbers the segments of a transcription as they arrive.
pub struct SegmentNumbering {
    /// How many segments have been accepted so far.
    count: usize,
    /// Every segment offered so far: raw text, start and end.
    offered: Ghost<Seq<(Seq<char>, nat, nat)>>,
}

impl SegmentNumbering {
    #[verifier::type_invariant]
    spec fn counts_kept(self) -> bool {
        self.count == kept_segments(self.offered@).len()
    }

    /// How many segments have been accepted so far.
    pub closed spec fn accepted(self) -> nat {
        self.count as nat
    }

    /// Every segment offered so far, in order: raw text, start and end in
    /// milliseconds.
    pub closed spec fn offered(self) -> Seq<(Seq<char>, nat, nat)> {
        self.offered@
    }

    /// A numbering with no segment yet.
    pub fn new() -> (n: Self)
        ensures
            n.accepted() == 0,
            n.offered() == Seq::<(Seq<char>, nat, nat)>::empty(),
    {
        SegmentNumbering { count: 0, offered: Ghost(Seq::empty()) }
    }

    /// How many segments have been accepted so far: the number of offered
    /// segments whose text is not blank.
    pub fn count(&self) -> (c: usize)
        ensures
            c == self.accepted(),
            c == kept_segments(self.offered()).len(),
    {
        proof {
            use_type_invariant(self);
        }
        self.count
    }

    /// Takes the next recognised segment, with its raw text and its start and
    /// end in milliseconds. A segment whose text is blank is skipped: nothing
    /// comes back and the count stays. Any other segment gets the next number
    /// and comes back with its trimmed text, SRT entry, text line and
    /// progress message. Over the whole run, what comes back makes up
    /// `run_srt` and `run_txt` of the segments offered.
    pub fn accept(&mut self, raw_text: &str, start_ms: u64, end_ms: u64) -> (entry: Option<SegmentEntry>)
        requires
            old(self).accepted() < usize::MAX,
        ensures
            final(self).offered() == old(self).offered().push((raw_text@, start_ms as nat, end_ms as nat)),
            final(self).accepted() == kept_segments(final(self).offered()).len(),
            trim(raw_text@).len() == 0 ==> entry is None && final(self).accepted() == old(self).accepted(),
            trim(raw_text@).len() > 0 ==> entry is Some && final(self).accepted() == old(self).accepted() + 1,
            entry matches Some(e) ==> {
                &&& e.index == final(self).accepted()
                &&& e.text@ == trim(raw_text@)
                &&& e.srt_entry@ == srt_entry(e.index as nat, start_ms as nat, end_ms as nat, e.text@)
                &&& e.txt_line@ == txt_line(start_ms as nat, end_ms as nat, e.text@)
                &&& e.progress_message@ == progress_message(e.index as nat)
            },
            run_srt(0, final(self).offered()) == run_srt(0, old(self).offered()) + match entry {
                Some(e) => e.srt_entry@,
                None => Seq::<char>::empty(),
            },
            run_txt(final(self).offered()) == run_txt(old(self).offered()) + match entry {
                Some(e) => e.txt_line@,
                None => Seq::<char>::empty(),
            },
    {
        proof {
            use_type_invariant(&*self);
        }
        let ghost before = self.offered@;
        let ghost seg = (raw_text@, start_ms as nat, end_ms as nat);
        proof {
            lemma_run_push(0, before, seg);
        }
        let text = trim_str(raw_text);
        if text.as_str().is_empty() {
            *self = SegmentNumbering { count: self.count, offered: Ghost(before.push(seg)) };
            return None;
        }
        let index = self.count + 1;
        let srt = format_srt_entry(index, start_ms, end_ms, text.as_str());
        let txt = format_txt_line(start_ms, end_ms, text.as_str());
        let message = format_progress_message(index);
        *self = SegmentNumbering { count: index, offered: Ghost(before.push(seg)) };
        Some(SegmentEntry { index, text, srt_entry: srt, txt_line: txt, progress_message: message })
    }
}

/// Offering one more segment adds its own outcome at the end of a run.
proof fn lemma_run_push(count: nat, raws: Seq<(Seq<char>, nat, nat)>, seg: (Seq<char>, nat, nat))
    ensures
        kept_segments(raws.push(seg)).len() == kept_segments(raws).len() + (if trim(seg.0).len() == 0 { 0nat } else { 1nat }),
        run_srt(count, raws.push(seg)) == run_srt(count, raws) + (if trim(seg.0).len() == 0 {
            Seq::<char>::empty()
        } else {
            srt_entry(count + kept_segments(raws).len() + 1, seg.1, seg.2, trim(seg.0))
        }),
        run_txt(raws.push(seg)) == run_txt(raws) + (if trim(seg.0).len() == 0 {
            Seq::<char>::empty()
        } else {
            txt_line(seg.1, seg.2, trim(seg.0))
        }),
{
    lemma_kept_push(raws, seg);
    lemma_run_srt_push(count, raws, seg);
    lemma_run_txt_push(raws, seg);
}

proof fn lemma_push_parts(raws: Seq<(Seq<char>, nat, nat)>, seg: (Seq<char>, nat, nat))
    ensures
        raws.len() == 0 ==> raws.push(seg).drop_first() == Seq::<(Seq<char>, nat, nat)>::empty()
            && raws.push(seg)[0] == seg,
        raws.len() > 0 ==> raws.push(seg).drop_first() == raws.drop_first().push(seg)
            && raws.push(seg)[0] == raws[0],
{
    if raws.len() == 0 {
        assert(raws.push(seg).drop_first() =~= Seq::<(Seq<char>, nat, nat)>::empty());
    } else {
        assert(raws.push(seg).drop_first() =~= raws.drop_first().push(seg));
    }
}

proof fn lemma_kept_push(raws: Seq<(Seq<char>, nat, nat)>, seg: (Seq<char>, nat, nat))
    ensures
        kept_segments(raws.push(seg)).len() == kept_segments(raws).len() + (if trim(seg.0).len() == 0 { 0nat } else { 1nat }),
    decreases raws.len(),
{
    lemma_push_parts(raws, seg);
    let all = raws.push(seg);
    if raws.len() > 0 {
        lemma_kept_push(raws.drop_first(), seg);
        assert(kept_segments(all).len() == kept_segments(all.drop_first()).len() + (if trim(raws[0].0).len() == 0 { 0nat } else { 1nat }));
        assert(kept_segments(raws).len() == kept_segments(raws.drop_first()).len() + (if trim(raws[0].0).len() == 0 { 0nat } else { 1nat }));
    } else {
        assert(kept_segments(all.drop_first()).len() == 0);
        assert(kept_segments(raws).len() == 0);
    }
}

proof fn lemma_run_srt_push(count: nat, raws: Seq<(Seq<char>, nat, nat)>, seg: (Seq<char>, nat, nat))
    ensures
        run_srt(count, raws.push(seg)) == run_srt(count, raws) + (if trim(seg.0).len() == 0 {
            Seq::<char>::empty()
        } else {
            srt_entry(count + kept_segments(raws).len() + 1, seg.1, seg.2, trim(seg.0))
        }),
    decreases raws.len(),
{
    lemma_push_parts(raws, seg);
    if raws.len() == 0 {
        assert(run_srt(count, raws) == Seq::<char>::empty());
        assert(kept_segments(raws).len() == 0);
        assert(run_srt(count, raws.push(seg).drop_first()) == Seq::<char>::empty());
        assert(run_srt(count + 1, raws.push(seg).drop_first()) == Seq::<char>::empty());
        if trim(seg.0).len() > 0 {
            assert(run_srt(count, raws.push(seg)) =~= srt_entry(count + 1, seg.1, seg.2, trim(seg.0)));
        }
    } else {
        let t = trim(raws[0].0);
        if t.len() == 0 {
            lemma_run_srt_push(count, raws.drop_first(), seg);
        } else {
            lemma_run_srt_push(count + 1, raws.drop_first(), seg);
            assert(kept_segments(raws).len() == kept_segments(raws.drop_first()).len() + 1);
        }
        assert(run_srt(count, raws.push(seg)) =~= run_srt(count, raws) + (if trim(seg.0).len() == 0 {
            Seq::<char>::empty()
        } else {
            srt_entry(count + kept_segments(raws).len() + 1, seg.1, seg.2, trim(seg.0))
        }));
    }
}

proof fn lemma_run_txt_push(raws: Seq<(Seq<char>, nat, nat)>, seg: (Seq<char>, nat, nat))
    ensures
        run_txt(raws.push(seg)) == run_txt(raws) + (if trim(seg.0).len() == 0 {
            Seq::<char>::empty()
        } else {
            txt_line(seg.1, seg.2, trim(seg.0))
        }),
    decreases raws.len(),
{
    lemma_push_parts(raws, seg);
    if raws.len() == 0 {
        assert(run_txt(raws.push(seg).drop_first()) == Seq::<char>::empty());
        if trim(seg.0).len() > 0 {
            assert(run_txt(raws.push(seg)) =~= txt_line(seg.1, seg.2, trim(seg.0)));
        }
        assert(run_txt(raws.push(seg)) =~= run_txt(raws) + (if trim(seg.0).len() == 0 {
            Seq::<char>::empty()
        } else {
            txt_line(seg.1, seg.2, trim(seg.0))
        }));
    } else {
        lemma_run_txt_push(raws.drop_first(), seg);
        assert(run_txt(raws.push(seg)) =~= run_txt(raws) + (if trim(seg.0).len() == 0 {
            Seq::<char>::empty()
        } else {
            txt_line(seg.1, seg.2, trim(seg.0))
        }));
    }
}

/// The segments that a run keeps, in order: those whose text is not blank,
/// with their text trimmed. A segment is its raw text and its start and end
/// in milliseconds.
pub open spec fn kept_segments(raws: Seq<(Seq<char>, nat, nat)>) -> Seq<(Seq<char>, nat, nat)>
    decreases raws.len(),
{
    if raws.len() == 0 {
        Seq::empty()
    } else {
        let rest = kept_segments(raws.drop_first());
        let t = trim(raws[0].0);
        if t.len() == 0 { rest } else { seq![(t, raws[0].1, raws[0].2)] + rest }
    }
}

/// What successive `accept` calls hand out as SRT entries, from a numbering
/// that already counted `count` segments: each non-blank segment's entry
/// with the next number, in order.
pub open spec fn run_srt(count: nat, raws: Seq<(Seq<char>, nat, nat)>) -> Seq<char>
    decreases raws.len(),
{
    if raws.len() == 0 {
        Seq::empty()
    } else {
        let t = trim(raws[0].0);
        if t.len() == 0 {
            run_srt(count, raws.drop_first())
        } else {
            srt_entry(count + 1, raws[0].1, raws[0].2, t) + run_srt(count + 1, raws.drop_first())
        }
    }
}

/// What successive `accept` calls hand out as text lines.
pub open spec fn run_txt(raws: Seq<(Seq<char>, nat, nat)>) -> Seq<char>
    decreases raws.len(),
{
    if raws.len() == 0 {
        Seq::empty()
    } else {
        let t = trim(raws[0].0);
        if t.len() == 0 {
            run_txt(raws.drop_first())
        } else {
            txt_line(raws[0].1, raws[0].2, t) + run_txt(raws.drop_first())
        }
    }
}

/// The SRT document of `segs`, numbered from `first`.
pub open spec fn srt_document(first: nat, segs: Seq<(Seq<char>, nat, nat)>) -> Seq<char>
    decreases segs.len(),
{
    if segs.len() == 0 {
        Seq::empty()
    } else {
        srt_entry(first, segs[0].1, segs[0].2, segs[0].0) + srt_document(first + 1, segs.drop_first())
    }
}

/// The plain-text document of `segs`.
pub open spec fn txt_document(segs: Seq<(Seq<char>, nat, nat)>) -> Seq<char>
    decreases segs.len(),
{
    if segs.len() == 0 {
        Seq::empty()
    } else {
        txt_line(segs[0].1, segs[0].2, segs[0].0) + txt_document(segs.drop_first())
    }
}

/// Law: over a whole run of `accept` calls on a fresh numbering, the SRT
/// entries handed out make up the SRT document of the kept segments,
/// numbered 1, 2, ... in order, and the text lines make up their text
/// document; the count ends at the number of kept segments; every kept text
/// is non-empty and trimmed. Nothing is merged, dropped or reordered but the
/// blank segments.
pub proof fn segment_run_documents(raws: Seq<(Seq<char>, nat, nat)>)
    ensures
        run_srt(0, raws) == srt_document(1, kept_segments(raws)),
        run_txt(raws) == txt_document(kept_segments(raws)),
        forall|i: int| 0 <= i < kept_segments(raws).len() ==> {
            let t = #[trigger] kept_segments(raws)[i].0;
            t.len() > 0 && trim(t) == t
        },
{
    lemma_segment_run(0, raws);
}

proof fn lemma_segment_run(count: nat, raws: Seq<(Seq<char>, nat, nat)>)
    ensures
        run_srt(count, raws) == srt_document(count + 1, kept_segments(raws)),
        run_txt(raws) == txt_document(kept_segments(raws)),
        forall|i: int| 0 <= i < kept_segments(raws).len() ==> {
            let t = #[trigger] kept_segments(raws)[i].0;
            t.len() > 0 && trim(t) == t
        },
    decreases raws.len(),
{
    if raws.len() > 0 {
        let t = trim(raws[0].0);
        let rest = raws.drop_first();
        lemma_trim_idempotent(raws[0].0);
        let k = kept_segments(raws);
        let kr = kept_segments(rest);
        if t.len() == 0 {
            lemma_segment_run(count, rest);
        } else {
            lemma_segment_run(count + 1, rest);
            assert(k.drop_first() =~= kr);
            assert forall|i: int| 0 <= i < k.len() implies {
                let u = #[trigger] k[i].0;
                u.len() > 0 && trim(u) == u
            } by {
                if i > 0 {
                    assert(k[i] == kr[i - 1]);
                }
            }
        }
    }
}

/// Law: an SRT entry is the segment's number on a line of its own, written
/// in full in decimal digits that read back as that number, then the line
/// `start --> end` whose timestamps read back as the segment's own start and
/// end, then the text and a blank line.
pub proof fn srt_entry_shows_number_and_times(index: nat, start_ms: nat, end_ms: nat, text: Seq<char>)
    ensures
        exists|d: Seq<char>, a: Seq<char>, b: Seq<char>|
            #![trigger digits_value(d), reads_as_time(a, start_ms, ','), reads_as_time(b, end_ms, ',')]
            {
                &&& srt_entry(index, start_ms, end_ms, text) == d + seq!['\n'] + a + " --> "@ + b + seq!['\n']
                    + text + seq!['\n', '\n']
                &&& d.len() >= 1
                &&& forall|j: int| 0 <= j < d.len() ==> is_digit(#[trigger] d[j])
                &&& digits_value(d) == index
                &&& reads_as_time(a, start_ms, ',')
                &&& reads_as_time(b, end_ms, ',')
            },
{
    lemma_decimal_value(index);
    lemma_decimal_digits(index);
    timestamp_reads_back(start_ms, ',');
    timestamp_reads_back(end_ms, ',');
    let d = decimal(index);
    let a = srt_timestamp(start_ms);
    let b = srt_timestamp(end_ms);
    assert(digits_value(d) == index);
    assert(reads_as_time(a, start_ms, ','));
    assert(reads_as_time(b, end_ms, ','));
}

/// Law: the plain-text line of a segment is `[start --> end] text` whose two
/// timestamps read back as the segment's own start and end.
pub proof fn txt_line_shows_times(start_ms: nat, end_ms: nat, text: Seq<char>)
    ensures
        exists|a: Seq<char>, b: Seq<char>|
            #![trigger reads_as_time(a, start_ms, '.'), reads_as_time(b, end_ms, '.')]
            {
                &&& txt_line(start_ms, end_ms, text) == seq!['['] + a + " --> "@ + b + "] "@ + text
                    + seq!['\n']
                &&& reads_as_time(a, start_ms, '.')
                &&& reads_as_time(b, end_ms, '.')
            },
{
    timestamp_reads_back(start_ms, '.');
    timestamp_reads_back(end_ms, '.');
    let a = display_timestamp(start_ms);
    let b = display_timestamp(end_ms);
    assert(reads_as_time(a, start_ms, '.'));
    assert(reads_as_time(b, end_ms, '.'));
}

} // verus!
