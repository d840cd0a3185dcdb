//! Subtitle (SRT) and display timestamps, `HH:MM:SS,mmm` and `HH:MM:SS.mmm`.

use vstd::prelude::*;
use crate::text::{
    zero_padded, push_char, push_zero_padded, pow10,
    lemma_zero_padded_value, lemma_zero_padded_len, is_digit, lemma_zero_padded_digits,
    lemma_decimal_len_ge, digits_value,
};
use vstd::arithmetic::div_mod::lemma_fundamental_div_mod_converse_mod;

verus! {

/// Whole hours in a duration of `total_ms` milliseconds.
pub open spec fn hours_of(total_ms: nat) -> nat {
    total_ms / 3_600_000
}

/// Minutes past the hour.
pub open spec fn minutes_of(total_ms: nat) -> nat {
    (total_ms % 3_600_000) / 60_000
}

/// Seconds past the minute.
pub open spec fn seconds_of(total_ms: nat) -> nat {
    (total_ms % 60_000) / 1_000
}

/// Milliseconds past the second.
pub open spec fn millis_of(total_ms: nat) -> nat {
    total_ms % 1_000
}

/// `HH:MM:SS<sep>mmm`: hours padded to at least two digits, minutes and
/// seconds to two, milliseconds to three.
pub open spec fn timestamp_text(total_ms: nat, sep: char) -> Seq<char> {
    zero_padded(hours_of(total_ms), 2) + seq![':'] + zero_padded(minutes_of(total_ms), 2) + seq![':']
        + zero_padded(seconds_of(total_ms), 2) + seq![sep] + zero_padded(millis_of(total_ms), 3)
}

/// The SRT form, `HH:MM:SS,mmm`.
pub open spec fn srt_timestamp(total_ms: nat) -> Seq<char> {
    timestamp_text(total_ms, ',')
}

/// The display form, `HH:MM:SS.mmm`.
pub open spec fn display_timestamp(total_ms: nat) -> Seq<char> {
    timestamp_text(total_ms, '.')
}

pub(crate) fn push_timestamp(out: &mut String, total_ms: u64, sep: char)
    ensures
        final(out)@ == old(out)@ + timestamp_text(total_ms as nat, sep),
{
    let hrs = total_ms / 3_600_000;
    let mins = (total_ms % 3_600_000) / 60_000;
    let secs = (total_ms % 60_000) / 1_000;
    let ms = total_ms % 1_000;
    push_zero_padded(out, hrs, 2);
    push_char(out, ':');
    push_zero_padded(out, mins, 2);
    push_char(out, ':');
    push_zero_padded(out, secs, 2);
    push_char(out, sep);
    push_zero_padded(out, ms, 3);
    assert(out@ =~= old(out)@ + timestamp_text(total_ms as nat, sep));
}

/// Formats a time given in whole milliseconds as an SRT timestamp, `HH:MM:SS,mmm`.
pub fn format_srt_timestamp(total_ms: u64) -> (s: String)
    ensures
        s@ == srt_timestamp(total_ms as nat),
{
    let mut s = String::new();
    push_timestamp(&mut s, total_ms, ',');
    assert(s@ =~= srt_timestamp(total_ms as nat));
    s
}

/// Formats a time given in whole milliseconds as a display timestamp, `HH:MM:SS.mmm`.
pub fn format_display_timestamp(total_ms: u64) -> (s: String)
    ensures
        s@ == display_timestamp(total_ms as nat),
{
    let mut s = String::new();
    push_timestamp(&mut s, total_ms, '.');
    assert(s@ =~= display_timestamp(total_ms as nat));
    s
}


/// Law: minutes and seconds are below 60, milliseconds below 1000, and the
/// four fields of a timestamp add back up to the duration it was made from.
pub proof fn timestamp_fields_recompose(total_ms: nat)
    ensures
        minutes_of(total_ms) < 60,
        seconds_of(total_ms) < 60,
        millis_of(total_ms) < 1000,
        hours_of(total_ms) * 3_600_000 + minutes_of(total_ms) * 60_000 + seconds_of(total_ms) * 1_000
            + millis_of(total_ms) == total_ms,
{
    let t = total_ms as int;
    let h = t / 3_600_000;
    let r1 = t % 3_600_000;
    let m = r1 / 60_000;
    let r2 = r1 % 60_000;
    assert(t == h * 3_600_000 + r1);
    assert(r1 == m * 60_000 + r2);
    assert(t == (h * 60 + m) * 60_000 + r2);
    lemma_fundamental_div_mod_converse_mod(t, 60_000, h * 60 + m, r2);
    let s = r2 / 1_000;
    let r3 = r2 % 1_000;
    assert(r2 == s * 1_000 + r3);
    assert(t == ((h * 60 + m) * 60 + s) * 1_000 + r3);
    lemma_fundamental_div_mod_converse_mod(t, 1_000, (h * 60 + m) * 60 + s, r3);
}

proof fn lemma_timestamp_shape(total_ms: nat, sep: char)
    ensures
        ({
            let p = zero_padded(hours_of(total_ms), 2);
            let ts = timestamp_text(total_ms, sep);
            let n = p.len() as int;
            &&& ts.len() == n + 10
            &&& ts.subrange(0, n) == p
            &&& ts[n] == ':'
            &&& ts.subrange(n + 1, n + 3) == zero_padded(minutes_of(total_ms), 2)
            &&& ts[n + 3] == ':'
            &&& ts.subrange(n + 4, n + 6) == zero_padded(seconds_of(total_ms), 2)
            &&& ts[n + 6] == sep
            &&& ts.subrange(n + 7, n + 10) == zero_padded(millis_of(total_ms), 3)
        }),
{
    timestamp_fields_recompose(total_ms);
    reveal_with_fuel(pow10, 4);
    lemma_zero_padded_len(minutes_of(total_ms), 2);
    lemma_zero_padded_len(seconds_of(total_ms), 2);
    lemma_zero_padded_len(millis_of(total_ms), 3);
    let p = zero_padded(hours_of(total_ms), 2);
    let ts = timestamp_text(total_ms, sep);
    let n = p.len() as int;
    assert(ts.subrange(0, n) =~= p);
    assert(ts.subrange(n + 1, n + 3) =~= zero_padded(minutes_of(total_ms), 2));
    assert(ts.subrange(n + 4, n + 6) =~= zero_padded(seconds_of(total_ms), 2));
    assert(ts.subrange(n + 7, n + 10) =~= zero_padded(millis_of(total_ms), 3));
}

/// A timestamp is digits, except for the two ':' and the separator before
/// the milliseconds; this holds at any number of hours.
proof fn lemma_timestamp_chars(total_ms: nat, sep: char)
    ensures
        ({
            let ts = timestamp_text(total_ms, sep);
            let n = ts.len() - 10;
            &&& n >= 2
            &&& forall|j: int| 0 <= j < ts.len() && j != n && j != n + 3 && j != n + 6
                ==> is_digit(#[trigger] ts[j])
        }),
{
    lemma_timestamp_shape(total_ms, sep);
    lemma_zero_padded_value(hours_of(total_ms), 2);
    let p = zero_padded(hours_of(total_ms), 2);
    let ts = timestamp_text(total_ms, sep);
    let n = p.len() as int;
    lemma_zero_padded_digits(hours_of(total_ms), 2);
    lemma_zero_padded_digits(minutes_of(total_ms), 2);
    lemma_zero_padded_digits(seconds_of(total_ms), 2);
    lemma_zero_padded_digits(millis_of(total_ms), 3);
    assert forall|j: int| 0 <= j < ts.len() && j != n && j != n + 3 && j != n + 6 implies is_digit(#[trigger] ts[j]) by {
        if j < n {
            assert(ts[j] == ts.subrange(0, n)[j]);
        } else if j < n + 3 {
            assert(ts[j] == ts.subrange(n + 1, n + 3)[j - n - 1]);
        } else if j < n + 6 {
            assert(ts[j] == ts.subrange(n + 4, n + 6)[j - n - 4]);
        } else {
            assert(ts[j] == ts.subrange(n + 7, n + 10)[j - n - 7]);
        }
    }
}

/// Law: below one hundred hours a timestamp is the twelve characters
/// `HH:MM:SS<sep>mmm`, all ASCII digits but the two ':' and the separator.
pub proof fn timestamp_shape_below_100_hours(total_ms: nat, sep: char)
    requires
        total_ms < 360_000_000,
    ensures
        ({
            let ts = timestamp_text(total_ms, sep);
            &&& ts.len() == 12
            &&& ts[2] == ':' && ts[5] == ':' && ts[8] == sep
            &&& forall|j: int| 0 <= j < 12 && j != 2 && j != 5 && j != 8 ==> is_digit(#[trigger] ts[j])
        }),
{
    reveal_with_fuel(pow10, 3);
    lemma_zero_padded_len(hours_of(total_ms), 2);
    lemma_timestamp_shape(total_ms, sep);
    lemma_timestamp_chars(total_ms, sep);
}

/// Law: from one hundred hours on, the hour field has three digits or more,
/// so the timestamp is longer than twelve characters.
pub proof fn hours_widen_from_100_hours(total_ms: nat, sep: char)
    requires
        total_ms >= 360_000_000,
    ensures
        zero_padded(hours_of(total_ms), 2).len() >= 3,
        timestamp_text(total_ms, sep).len() >= 13,
{
    reveal_with_fuel(pow10, 3);
    assert(hours_of(total_ms) >= 100);
    lemma_decimal_len_ge(hours_of(total_ms), 2);
    lemma_timestamp_shape(total_ms, sep);
}

/// Law: the separator before the milliseconds is the only ',' of an SRT
/// timestamp, so the display form is the SRT form with its first ','
/// replaced by '.'.
pub proof fn srt_timestamp_single_comma(total_ms: nat)
    ensures
        ({
            let ts = srt_timestamp(total_ms);
            &&& ts[ts.len() - 4] == ','
            &&& forall|j: int| 0 <= j < ts.len() && j != ts.len() - 4 ==> #[trigger] ts[j] != ','
            &&& display_timestamp(total_ms) == ts.update(ts.len() - 4, '.')
        }),
{
    lemma_timestamp_shape(total_ms, ',');
    lemma_timestamp_chars(total_ms, ',');
    srt_and_display_timestamps_agree(total_ms);
}

/// Law: the SRT and the display form of a time differ only in the character
/// before the milliseconds, ',' in the one and '.' in the other.
pub proof fn srt_and_display_timestamps_agree(total_ms: nat)
    ensures
        srt_timestamp(total_ms).len() == display_timestamp(total_ms).len(),
        srt_timestamp(total_ms).len() >= 12,
        srt_timestamp(total_ms)[srt_timestamp(total_ms).len() - 4] == ',',
        display_timestamp(total_ms) == srt_timestamp(total_ms).update(
            srt_timestamp(total_ms).len() - 4,
            '.',
        ),
{
    lemma_timestamp_shape(total_ms, ',');
    lemma_timestamp_shape(total_ms, '.');
    lemma_zero_padded_value(hours_of(total_ms), 2);
    assert(display_timestamp(total_ms) =~= srt_timestamp(total_ms).update(
        srt_timestamp(total_ms).len() - 4,
        '.',
    ));
}

proof fn lemma_timestamp_text_injective(a: nat, b: nat, sep: char)
    requires
        timestamp_text(a, sep) == timestamp_text(b, sep),
    ensures
        a == b,
{
    lemma_timestamp_shape(a, sep);
    lemma_timestamp_shape(b, sep);
    let pa = zero_padded(hours_of(a), 2);
    let pb = zero_padded(hours_of(b), 2);
    let ts = timestamp_text(a, sep);
    assert(pa.len() == pb.len());
    assert(pa == ts.subrange(0, pa.len() as int));
    lemma_zero_padded_value(hours_of(a), 2);
    lemma_zero_padded_value(hours_of(b), 2);
    lemma_zero_padded_value(minutes_of(a), 2);
    lemma_zero_padded_value(minutes_of(b), 2);
    lemma_zero_padded_value(seconds_of(a), 2);
    lemma_zero_padded_value(seconds_of(b), 2);
    lemma_zero_padded_value(millis_of(a), 3);
    lemma_zero_padded_value(millis_of(b), 3);
    assert(hours_of(a) == hours_of(b));
    assert(minutes_of(a) == minutes_of(b));
    assert(seconds_of(a) == seconds_of(b));
    assert(millis_of(a) == millis_of(b));
    timestamp_fields_recompose(a);
    timestamp_fields_recompose(b);
}

/// Law: an SRT timestamp determines the time it was made from; two
/// different times never print alike.
pub proof fn srt_timestamp_injective(a: nat, b: nat)
    requires
        srt_timestamp(a) == srt_timestamp(b),
    ensures
        a == b,
{
    lemma_timestamp_text_injective(a, b, ',');
}

/// Law: a display timestamp determines the time it was made from.
pub proof fn display_timestamp_injective(a: nat, b: nat)
    requires
        display_timestamp(a) == display_timestamp(b),
    ensures
        a == b,
{
    lemma_timestamp_text_injective(a, b, '.');
}

/// `ts` is written `H..H:MM:SS<sep>mmm`, with at least two hour digits and
/// digits everywhere but the two ':' and the separator, and its fields,
/// read as decimal numbers, give `ms` milliseconds, minutes and seconds
/// below 60.
#[verifier::opaque]
pub open spec fn reads_as_time(ts: Seq<char>, ms: nat, sep: char) -> bool {
    let n = ts.len() - 10;
    &&& n >= 2
    &&& ts[n] == ':' && ts[n + 3] == ':' && ts[n + 6] == sep
    &&& forall|j: int| 0 <= j < ts.len() && j != n && j != n + 3 && j != n + 6 ==> is_digit(#[trigger] ts[j])
    &&& digits_value(ts.subrange(n + 1, n + 3)) < 60
    &&& digits_value(ts.subrange(n + 4, n + 6)) < 60
    &&& digits_value(ts.subrange(0, n)) * 3_600_000 + digits_value(ts.subrange(n + 1, n + 3)) * 60_000
        + digits_value(ts.subrange(n + 4, n + 6)) * 1_000 + digits_value(ts.subrange(n + 7, n + 10)) == ms
}

/// Law: a timestamp reads back as the time it was made from: its hours,
/// minutes, seconds and milliseconds, taken as decimal numbers, add up to it.
pub proof fn timestamp_reads_back(total_ms: nat, sep: char)
    ensures
        reads_as_time(timestamp_text(total_ms, sep), total_ms, sep),
        reads_as_time(srt_timestamp(total_ms), total_ms, ','),
        reads_as_time(display_timestamp(total_ms), total_ms, '.'),
{
    lemma_reads_back(total_ms, sep);
    lemma_reads_back(total_ms, ',');
    lemma_reads_back(total_ms, '.');
}

proof fn lemma_reads_back(total_ms: nat, sep: char)
    ensures
        reads_as_time(timestamp_text(total_ms, sep), total_ms, sep),
{
    reveal(reads_as_time);
    lemma_timestamp_shape(total_ms, sep);
    lemma_timestamp_chars(total_ms, sep);
    lemma_zero_padded_value(hours_of(total_ms), 2);
    lemma_zero_padded_value(minutes_of(total_ms), 2);
    lemma_zero_padded_value(seconds_of(total_ms), 2);
    lemma_zero_padded_value(millis_of(total_ms), 3);
    timestamp_fields_recompose(total_ms);
}

} // verus!
