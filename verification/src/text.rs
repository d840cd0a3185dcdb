//! Character-level text utilities: decimal formatting, whitespace trimming.

use vstd::prelude::*;

verus! {

/// The contents of a list of strings.
pub open spec fn views(v: Seq<String>) -> Seq<Seq<char>> {
    v.map_values(|s: String| s@)
}

/// Appends one character to a string (`String::push`).
#[verifier::external_body]
pub(crate) fn push_char(s: &mut String, c: char)
    ensures
        final(s)@ == old(s)@.push(c),
{
    s.push(c);
}

/// The characters of a string slice, in order.
pub fn chars_of(s: &str) -> (v: Vec<char>)
    ensures
        v@ == s@,
{
    let mut v: Vec<char> = Vec::new();
    for c in it: s.chars()
        invariant
            v@ == it.seq().take(it.index() as int),
    {
        v.push(c);
    }
    v
}


/// The character of a decimal digit.
pub open spec fn digit_char(d: nat) -> char {
    if d == 0 { '0' }
    else if d == 1 { '1' }
    else if d == 2 { '2' }
    else if d == 3 { '3' }
    else if d == 4 { '4' }
    else if d == 5 { '5' }
    else if d == 6 { '6' }
    else if d == 7 { '7' }
    else if d == 8 { '8' }
    else { '9' }
}

/// The decimal notation of `n`, without sign or leading zeros (`0` is "0").
pub open spec fn decimal(n: nat) -> Seq<char>
    decreases n,
{
    if n < 10 {
        seq![digit_char(n)]
    } else {
        decimal(n / 10).push(digit_char(n % 10))
    }
}

/// The decimal notation of `n`, padded on the left with '0' to at least `width` characters.
pub open spec fn zero_padded(n: nat, width: nat) -> Seq<char> {
    let d = decimal(n);
    if d.len() < width {
        Seq::new((width - d.len()) as nat, |i: int| '0') + d
    } else {
        d
    }
}

fn digit_to_char(d: u64) -> (c: char)
    requires
        d < 10,
    ensures
        c == digit_char(d as nat),
{
    if d == 0 { '0' }
    else if d == 1 { '1' }
    else if d == 2 { '2' }
    else if d == 3 { '3' }
    else if d == 4 { '4' }
    else if d == 5 { '5' }
    else if d == 6 { '6' }
    else if d == 7 { '7' }
    else if d == 8 { '8' }
    else { '9' }
}

/// Appends the decimal notation of `n`.
pub fn push_decimal(out: &mut String, n: u64)
    ensures
        final(out)@ == old(out)@ + decimal(n as nat),
    decreases n,
{
    if n >= 10 {
        push_decimal(out, n / 10);
    }
    push_char(out, digit_to_char(n % 10));
    proof {
        if n >= 10 {
            assert(old(out)@ + decimal(n as nat) =~= old(out)@ + decimal((n / 10) as nat) + seq![digit_char((n % 10) as nat)]);
        } else {
            assert(old(out)@ + decimal(n as nat) =~= old(out)@ + seq![digit_char((n % 10) as nat)]);
        }
    }
}

/// Number of characters in the decimal notation of `n`.
pub fn decimal_len(n: u64) -> (len: usize)
    ensures
        len == decimal(n as nat).len(),
        1 <= len <= 20,
    decreases n,
{
    if n >= 10 {
        let l = decimal_len(n / 10);
        proof {
            reveal_with_fuel(pow10, 20);
            lemma_decimal_len_le((n / 10) as nat, 19);
        }
        l + 1
    } else {
        1
    }
}

proof fn lemma_pow10_div(k: nat)
    ensures
        pow10(k + 1) == pow10(k) * 10,
{
}

/// `10` raised to the power `k`.
pub open spec fn pow10(k: nat) -> nat
    decreases k,
{
    if k == 0 { 1 } else { 10 * pow10((k - 1) as nat) }
}

/// Appends `n` in decimal, left-padded with '0' to at least `width` characters.
pub fn push_zero_padded(out: &mut String, n: u64, width: usize)
    ensures
        final(out)@ == old(out)@ + zero_padded(n as nat, width as nat),
{
    let len = decimal_len(n);
    let mut i = len;
    while i < width
        invariant
            len == decimal(n as nat).len(),
            len <= i,
            i == len || i <= width,
            out@ == old(out)@ + Seq::new((i - len) as nat, |j: int| '0'),
        decreases width - i,
    {
        push_char(out, '0');
        assert(out@ =~= old(out)@ + Seq::new((i + 1 - len) as nat, |j: int| '0'));
        i = i + 1;
    }
    let ghost pad = out@;
    push_decimal(out, n);
    proof {
        if len < width {
            assert(i == width);
        } else {
            assert(i == len);
            assert(pad =~= old(out)@);
        }
        assert(out@ =~= old(out)@ + zero_padded(n as nat, width as nat));
    }
}


/// An ASCII decimal digit.
pub open spec fn is_digit(c: char) -> bool {
    '0' <= c <= '9'
}

/// A decimal notation consists of digits.
pub proof fn lemma_decimal_digits(n: nat)
    ensures
        forall|i: int| 0 <= i < decimal(n).len() ==> is_digit(#[trigger] decimal(n)[i]),
    decreases n,
{
    if n >= 10 {
        lemma_decimal_digits(n / 10);
        assert forall|i: int| 0 <= i < decimal(n).len() implies is_digit(#[trigger] decimal(n)[i]) by {
            if i < decimal(n / 10).len() {
                assert(decimal(n)[i] == decimal(n / 10)[i]);
            }
        }
    }
}

/// A zero-padded notation consists of digits.
pub proof fn lemma_zero_padded_digits(n: nat, width: nat)
    ensures
        forall|i: int| 0 <= i < zero_padded(n, width).len() ==> is_digit(#[trigger] zero_padded(n, width)[i]),
{
    lemma_decimal_digits(n);
    let d = decimal(n);
    if d.len() < width {
        let z = Seq::new((width - d.len()) as nat, |i: int| '0');
        assert forall|i: int| 0 <= i < zero_padded(n, width).len() implies is_digit(#[trigger] zero_padded(n, width)[i]) by {
            if i >= z.len() {
                assert(zero_padded(n, width)[i] == d[i - z.len()]);
            }
        }
    }
}

/// Numeric value of a decimal digit character (0 for anything else).
pub open spec fn digit_value(c: char) -> nat {
    if c == '1' { 1 }
    else if c == '2' { 2 }
    else if c == '3' { 3 }
    else if c == '4' { 4 }
    else if c == '5' { 5 }
    else if c == '6' { 6 }
    else if c == '7' { 7 }
    else if c == '8' { 8 }
    else if c == '9' { 9 }
    else { 0 }
}

/// Value of a string of decimal digits, read most significant first.
pub open spec fn digits_value(s: Seq<char>) -> nat
    decreases s.len(),
{
    if s.len() == 0 {
        0
    } else {
        digits_value(s.drop_last()) * 10 + digit_value(s.last())
    }
}

proof fn lemma_digit_roundtrip(d: nat)
    requires
        d < 10,
    ensures
        digit_value(digit_char(d)) == d,
{
}

/// Reading back a decimal notation gives the number.
pub proof fn lemma_decimal_value(n: nat)
    ensures
        digits_value(decimal(n)) == n,
        decimal(n).len() >= 1,
    decreases n,
{
    lemma_digit_roundtrip(n % 10);
    if n >= 10 {
        lemma_decimal_value(n / 10);
        assert(decimal(n).drop_last() =~= decimal(n / 10));
        assert(decimal(n).last() == digit_char(n % 10));
        assert(digits_value(decimal(n)) == (n / 10) * 10 + n % 10);
    } else {
        assert(seq![digit_char(n)].drop_last() =~= Seq::<char>::empty());
        assert(digits_value(Seq::<char>::empty()) == 0);
        assert(decimal(n).last() == digit_char(n));
        assert(digits_value(decimal(n)) == digits_value(decimal(n).drop_last()) * 10 + digit_value(decimal(n).last()));
    }
}

/// Leading zeros do not change the value of a digit string.
pub proof fn lemma_leading_zeros_value(k: nat, d: Seq<char>)
    ensures
        digits_value(Seq::new(k, |i: int| '0') + d) == digits_value(d),
    decreases d.len(),
{
    let z = Seq::new(k, |i: int| '0');
    if d.len() == 0 {
        assert(z + d =~= z);
        lemma_zeros_value(k);
    } else {
        assert((z + d).drop_last() =~= z + d.drop_last());
        lemma_leading_zeros_value(k, d.drop_last());
    }
}

proof fn lemma_zeros_value(k: nat)
    ensures
        digits_value(Seq::new(k, |i: int| '0')) == 0,
    decreases k,
{
    if k > 0 {
        assert(Seq::new(k, |i: int| '0').drop_last() =~= Seq::new((k - 1) as nat, |i: int| '0'));
        lemma_zeros_value((k - 1) as nat);
    }
}

/// Reading back a zero-padded notation gives the number.
pub proof fn lemma_zero_padded_value(n: nat, width: nat)
    ensures
        digits_value(zero_padded(n, width)) == n,
        zero_padded(n, width).len() >= width,
        zero_padded(n, width).len() >= 1,
{
    lemma_decimal_value(n);
    if decimal(n).len() < width {
        lemma_leading_zeros_value((width - decimal(n).len()) as nat, decimal(n));
    }
}

/// A number below `10^k` has at most `k` digits (and at least one).
pub proof fn lemma_decimal_len_le(n: nat, k: nat)
    requires
        1 <= k,
        n < pow10(k),
    ensures
        decimal(n).len() <= k,
    decreases n,
{
    if n >= 10 {
        assert(k >= 2) by {
            reveal_with_fuel(pow10, 2);
        }
        lemma_pow10_div((k - 1) as nat);
        assert(n / 10 < pow10((k - 1) as nat)) by (nonlinear_arith)
            requires n < pow10(k), pow10(k) == pow10((k - 1) as nat) * 10;
        lemma_decimal_len_le(n / 10, (k - 1) as nat);
    }
}

/// A number of at least `10^k` has more than `k` digits.
pub proof fn lemma_decimal_len_ge(n: nat, k: nat)
    requires
        n >= pow10(k),
    ensures
        decimal(n).len() >= k + 1,
    decreases k,
{
    lemma_decimal_value(n);
    if k > 0 {
        lemma_pow10_div((k - 1) as nat);
        assert(pow10((k - 1) as nat) >= 1) by {
            lemma_pow10_positive((k - 1) as nat);
        }
        assert(n / 10 >= pow10((k - 1) as nat)) by (nonlinear_arith)
            requires n >= pow10(k), pow10(k) == pow10((k - 1) as nat) * 10;
        assert(n >= 10);
        lemma_decimal_len_ge(n / 10, (k - 1) as nat);
    }
}

proof fn lemma_pow10_positive(k: nat)
    ensures
        pow10(k) >= 1,
    decreases k,
{
    if k > 0 {
        lemma_pow10_positive((k - 1) as nat);
    }
}

/// A zero-padded number below `10^width` takes exactly `width` characters.
pub proof fn lemma_zero_padded_len(n: nat, width: nat)
    requires
        1 <= width,
        n < pow10(width),
    ensures
        zero_padded(n, width).len() == width,
{
    lemma_decimal_len_le(n, width);
}


/// Unicode `White_Space`, the characters that `char::is_whitespace` accepts:
/// U+0009 to U+000D, U+0020, U+0085, U+00A0, U+1680, U+2000 to U+200A,
/// U+2028, U+2029, U+202F, U+205F and U+3000.
pub open spec fn is_white_space(c: char) -> bool {
    ||| '\u{9}' <= c <= '\u{d}'
    ||| c == ' '
    ||| c == '\u{85}'
    ||| c == '\u{a0}'
    ||| c == '\u{1680}'
    ||| '\u{2000}' <= c <= '\u{200a}'
    ||| c == '\u{2028}'
    ||| c == '\u{2029}'
    ||| c == '\u{202f}'
    ||| c == '\u{205f}'
    ||| c == '\u{3000}'
}

/// Whether `c` is Unicode white space.
pub fn is_whitespace_char(c: char) -> (b: bool)
    ensures
        b == is_white_space(c),
{
    ('\u{9}' <= c && c <= '\u{d}') || c == ' ' || c == '\u{85}' || c == '\u{a0}' || c == '\u{1680}'
        || ('\u{2000}' <= c && c <= '\u{200a}') || c == '\u{2028}' || c == '\u{2029}' || c == '\u{202f}'
        || c == '\u{205f}' || c == '\u{3000}'
}

/// `s` without its leading white space.
pub open spec fn trim_start(s: Seq<char>) -> Seq<char>
    decreases s.len(),
{
    if s.len() > 0 && is_white_space(s[0]) {
        trim_start(s.drop_first())
    } else {
        s
    }
}

/// `s` without its trailing white space.
pub open spec fn trim_end(s: Seq<char>) -> Seq<char>
    decreases s.len(),
{
    if s.len() > 0 && is_white_space(s.last()) {
        trim_end(s.drop_last())
    } else {
        s
    }
}

/// `s` without leading and trailing white space (`str::trim`).
pub open spec fn trim(s: Seq<char>) -> Seq<char> {
    trim_end(trim_start(s))
}

proof fn lemma_trim_start_at(s: Seq<char>, i: int)
    requires
        0 <= i <= s.len(),
        forall|k: int| 0 <= k < i ==> is_white_space(#[trigger] s[k]),
        i == s.len() || !is_white_space(s[i]),
    ensures
        trim_start(s) == s.skip(i),
    decreases i,
{
    if i > 0 {
        assert forall|k: int| 0 <= k < i - 1 implies is_white_space(#[trigger] s.drop_first()[k]) by {
            assert(s.drop_first()[k] == s[k + 1]);
        }
        if i < s.len() {
            assert(s.drop_first()[i - 1] == s[i]);
        }
        lemma_trim_start_at(s.drop_first(), i - 1);
        assert(s.drop_first().skip(i - 1) =~= s.skip(i));
    } else {
        assert(s.skip(0) =~= s);
    }
}

proof fn lemma_trim_end_at(s: Seq<char>, m: int)
    requires
        0 <= m <= s.len(),
        forall|k: int| m <= k < s.len() ==> is_white_space(#[trigger] s[k]),
        m == 0 || !is_white_space(s[m - 1]),
    ensures
        trim_end(s) == s.take(m),
    decreases s.len(),
{
    if s.len() > m {
        assert(is_white_space(s[s.len() - 1]));
        assert forall|k: int| m <= k < s.drop_last().len() implies is_white_space(#[trigger] s.drop_last()[k]) by {
            assert(s.drop_last()[k] == s[k]);
        }
        if m > 0 {
            assert(s.drop_last()[m - 1] == s[m - 1]);
        }
        lemma_trim_end_at(s.drop_last(), m);
        assert(s.drop_last().take(m) =~= s.take(m));
    } else {
        assert(s.take(m) =~= s);
        if s.len() > 0 {
            assert(s.last() == s[m - 1]);
        }
    }
}

/// Appends `v[from..to]`.
pub(crate) fn push_chars(out: &mut String, v: &Vec<char>, from: usize, to: usize)
    requires
        from <= to <= v@.len(),
    ensures
        final(out)@ == old(out)@ + v@.subrange(from as int, to as int),
{
    let mut k = from;
    while k < to
        invariant
            from <= k <= to,
            to <= v@.len(),
            out@ == old(out)@ + v@.subrange(from as int, k as int),
        decreases to - k,
    {
        push_char(out, v[k]);
        assert(v@.subrange(from as int, k + 1) =~= v@.subrange(from as int, k as int).push(v@[k as int]));
        k = k + 1;
    }
}

/// `s` with leading and trailing white space removed, as `str::trim` gives it.
pub fn trim_str(s: &str) -> (t: String)
    ensures
        t@ == trim(s@),
{
    let v = chars_of(s);
    let n = v.len();
    let mut i: usize = 0;
    while i < n && is_whitespace_char(v[i])
        invariant
            i <= n,
            n == v@.len(),
            forall|k: int| 0 <= k < i ==> is_white_space(#[trigger] v@[k]),
        decreases n - i,
    {
        i = i + 1;
    }
    let mut j: usize = n;
    while j > i && is_whitespace_char(v[j - 1])
        invariant
            i <= j <= n,
            n == v@.len(),
            forall|k: int| j <= k < n ==> is_white_space(#[trigger] v@[k]),
        decreases j - i,
    {
        j = j - 1;
    }
    let mut t = String::new();
    push_chars(&mut t, &v, i, j);
    proof {
        lemma_trim_start_at(v@, i as int);
        let rest = v@.skip(i as int);
        assert forall|k: int| (j - i) <= k < rest.len() implies is_white_space(#[trigger] rest[k]) by {
            assert(rest[k] == v@[k + i]);
        }
        if j > i {
            assert(rest[j - i - 1] == v@[j - 1]);
        }
        lemma_trim_end_at(rest, j - i);
        assert(rest.take(j - i) =~= v@.subrange(i as int, j as int));
        assert(t@ =~= v@.subrange(i as int, j as int));
    }
    t
}


/// `pat` occurs in `s` at index `i`.
pub open spec fn occurs_at(s: Seq<char>, pat: Seq<char>, i: int) -> bool {
    0 <= i && i + pat.len() <= s.len() && s.subrange(i, i + pat.len()) == pat
}

/// First index at or after `k` where `pat` occurs in `s`.
pub open spec fn find_from(s: Seq<char>, pat: Seq<char>, k: int) -> Option<int>
    decreases s.len() + 1 - k,
{
    if k < 0 || k + pat.len() > s.len() {
        None
    } else if occurs_at(s, pat, k) {
        Some(k)
    } else {
        find_from(s, pat, k + 1)
    }
}

/// First index where `pat` occurs in `s` (`str::find`, counted in characters).
pub open spec fn find(s: Seq<char>, pat: Seq<char>) -> Option<int> {
    find_from(s, pat, 0)
}

/// `pat` occurs somewhere in `s` (`str::contains`).
pub open spec fn contains_seq(s: Seq<char>, pat: Seq<char>) -> bool {
    exists|i: int| #[trigger] occurs_at(s, pat, i)
}

/// `s` ends with `pat` (`str::ends_with`).
pub open spec fn ends_with(s: Seq<char>, pat: Seq<char>) -> bool {
    pat.len() <= s.len() && s.subrange(s.len() - pat.len(), s.len() as int) == pat
}

/// The pieces of `s` between occurrences of `c` (`str::split` with a
/// character): one more piece than there are `c`s, empty pieces included.
pub open spec fn split_on(s: Seq<char>, c: char) -> Seq<Seq<char>>
    decreases s.len(),
{
    match find(s, seq![c]) {
        Some(k) => {
            if 0 <= k < s.len() {
                seq![s.take(k)] + split_on(s.skip(k + 1), c)
            } else {
                seq![s]
            }
        },
        None => seq![s],
    }
}

proof fn lemma_trim_start_first(s: Seq<char>)
    ensures
        trim_start(s).len() > 0 ==> !is_white_space(trim_start(s)[0]),
    decreases s.len(),
{
    if s.len() > 0 && is_white_space(s[0]) {
        lemma_trim_start_first(s.drop_first());
    }
}

proof fn lemma_trim_end_last(s: Seq<char>)
    ensures
        trim_end(s).len() > 0 ==> !is_white_space(trim_end(s).last()),
    decreases s.len(),
{
    if s.len() > 0 && is_white_space(s.last()) {
        lemma_trim_end_last(s.drop_last());
    }
}

proof fn lemma_trim_end_keeps_first(s: Seq<char>)
    requires
        s.len() > 0,
        !is_white_space(s[0]),
    ensures
        trim_end(s).len() > 0,
        trim_end(s)[0] == s[0],
    decreases s.len(),
{
    if is_white_space(s.last()) {
        assert(s.len() > 1);
        assert(s.drop_last()[0] == s[0]);
        lemma_trim_end_keeps_first(s.drop_last());
    }
}

/// Trimmed text neither starts nor ends with white space, so trimming it
/// again changes nothing.
pub proof fn lemma_trim_idempotent(s: Seq<char>)
    ensures
        trim(s).len() > 0 ==> !is_white_space(trim(s)[0]) && !is_white_space(trim(s).last()),
        trim(trim(s)) == trim(s),
{
    let t = trim_start(s);
    lemma_trim_start_first(s);
    lemma_trim_end_last(t);
    if t.len() > 0 {
        lemma_trim_end_keeps_first(t);
    } else {
        assert(trim_end(t) == t);
    }
    lemma_trim_unchanged(trim(s));
}

/// Whether `pat` occurs in `v` at index `i`.
pub fn occurs_at_exec(v: &Vec<char>, pat: &Vec<char>, i: usize) -> (r: bool)
    ensures
        r == occurs_at(v@, pat@, i as int),
{
    if pat.len() > v.len() || i > v.len() - pat.len() {
        return false;
    }
    let vlen = v.len();
    let mut k: usize = 0;
    while k < pat.len()
        invariant
            vlen == v@.len(),
            k <= pat@.len(),
            i + pat@.len() <= v@.len(),
            forall|j: int| 0 <= j < k ==> v@[i + j] == #[trigger] pat@[j],
        decreases pat@.len() - k,
    {
        assert(i + k < v@.len());
        if v[i + k] != pat[k] {
            assert(v@.subrange(i as int, i + pat@.len())[k as int] != pat@[k as int]);
            return false;
        }
        k = k + 1;
    }
    assert(v@.subrange(i as int, i + pat@.len()) =~= pat@);
    true
}

/// First index at or after `k` where `pat` occurs in `v`.
pub fn find_from_exec(v: &Vec<char>, pat: &Vec<char>, k: usize) -> (r: Option<usize>)
    ensures
        match r {
            Some(i) => find_from(v@, pat@, k as int) == Some(i as int),
            None => find_from(v@, pat@, k as int) is None,
        },
{
    if k > v.len() {
        return None;
    }
    let mut i = k;
    while pat.len() <= v.len() - i
        invariant
            k <= i <= v@.len(),
            find_from(v@, pat@, i as int) == find_from(v@, pat@, k as int),
        decreases v@.len() - i,
    {
        if occurs_at_exec(v, pat, i) {
            return Some(i);
        }
        if i == v.len() {
            assert(v@.subrange(i as int, i as int) =~= pat@);
            return None;
        }
        i = i + 1;
    }
    None
}

/// Whether `pat` occurs in `v`.
pub fn contains_exec(v: &Vec<char>, pat: &Vec<char>) -> (r: bool)
    ensures
        r == contains_seq(v@, pat@),
{
    let f = find_from_exec(v, pat, 0);
    proof {
        lemma_find_from_first(v@, pat@, 0);
    }
    f.is_some()
}

/// `find_from` finds an occurrence, and there is none between `k` and it.
pub proof fn lemma_find_from_first(s: Seq<char>, pat: Seq<char>, k: int)
    requires
        k >= 0,
    ensures
        match find_from(s, pat, k) {
            Some(i) => k <= i && occurs_at(s, pat, i) && forall|j: int| k <= j < i ==> !#[trigger] occurs_at(s, pat, j),
            None => forall|j: int| k <= j ==> !#[trigger] occurs_at(s, pat, j),
        },
    decreases s.len() + 1 - k,
{
    if k + pat.len() <= s.len() && !occurs_at(s, pat, k) {
        lemma_find_from_first(s, pat, k + 1);
    }
}

/// Whether `v` ends with `pat`.
pub fn ends_with_exec(v: &Vec<char>, pat: &Vec<char>) -> (r: bool)
    ensures
        r == ends_with(v@, pat@),
{
    if pat.len() > v.len() {
        false
    } else {
        occurs_at_exec(v, pat, v.len() - pat.len())
    }
}


/// Searching a suffix of `s` is searching `s` from further on.
pub proof fn lemma_find_from_skip(s: Seq<char>, pat: Seq<char>, a: int, k: int)
    requires
        0 <= a <= s.len(),
        k >= 0,
    ensures
        find_from(s.skip(a), pat, k) == match find_from(s, pat, a + k) {
            Some(i) => Some(i - a),
            None => None,
        },
    decreases s.len() + 1 - (a + k),
{
    let t = s.skip(a);
    if k + pat.len() <= t.len() {
        assert(t.subrange(k, k + pat.len()) =~= s.subrange(a + k, a + k + pat.len()));
        if !occurs_at(t, pat, k) {
            lemma_find_from_skip(s, pat, a, k + 1);
        }
    }
}

/// Splits `s` at each `c`, as `str::split` with a character does.
pub fn split_char(s: &str, c: char) -> (pieces: Vec<String>)
    ensures
        views(pieces@) == split_on(s@, c),
{
    let v = chars_of(s);
    let pat: Vec<char> = vec![c];
    assert(pat@ =~= seq![c]);
    let mut pieces: Vec<String> = Vec::new();
    let mut pos: usize = 0;
    let vlen = v.len();
    assert(pieces@.map_values(|p: String| p@) =~= Seq::<Seq<char>>::empty());
    assert(v@.skip(0) =~= v@);
    loop
        invariant
            vlen == v@.len(),
            pos <= v@.len(),
            pat@ == seq![c],
            v@ == s@,
            pieces@.map_values(|p: String| p@) + split_on(v@.skip(pos as int), c) == split_on(v@, c),
        decreases v@.len() - pos,
    {
        let ghost before = pieces@;
        let ghost rest = v@.skip(pos as int);
        proof {
            lemma_find_from_skip(v@, seq![c], pos as int, 0);
            lemma_find_from_first(v@, seq![c], pos as int);
        }
        match find_from_exec(&v, &pat, pos) {
            Some(k) => {
                let mut piece = String::new();
                push_chars(&mut piece, &v, pos, k);
                pieces.push(piece);
                proof {
                    assert(occurs_at(v@, seq![c], k as int));
                    assert(k < v@.len());
                    assert(find(rest, seq![c]) == Some(k - pos));
                    assert(rest.take(k - pos) =~= v@.subrange(pos as int, k as int));
                    assert(rest.skip(k - pos + 1) =~= v@.skip(k + 1));
                    assert(split_on(rest, c) == seq![rest.take(k - pos)] + split_on(rest.skip(k - pos + 1), c));
                    assert(pieces@.map_values(|p: String| p@) =~= before.map_values(|p: String| p@) + seq![v@.subrange(pos as int, k as int)]);
                    assert(pieces@.map_values(|p: String| p@) + split_on(v@.skip(k + 1), c)
                        =~= before.map_values(|p: String| p@) + split_on(rest, c));
                }
                pos = k + 1;
            },
            None => {
                let mut piece = String::new();
                push_chars(&mut piece, &v, pos, v.len());
                pieces.push(piece);
                proof {
                    assert(find(rest, seq![c]) is None);
                    assert(split_on(rest, c) == seq![rest]);
                    assert(rest =~= v@.subrange(pos as int, v@.len() as int));
                    assert(pieces@.map_values(|p: String| p@) =~= before.map_values(|p: String| p@) + seq![rest]);
                }
                return pieces;
            },
        }
    }
}


/// A search from `k` finds `i` when `pat` occurs at `i` and nowhere between.
pub proof fn lemma_find_from_is(s: Seq<char>, pat: Seq<char>, k: int, i: int)
    requires
        0 <= k <= i,
        occurs_at(s, pat, i),
        forall|j: int| k <= j < i ==> !#[trigger] occurs_at(s, pat, j),
    ensures
        find_from(s, pat, k) == Some(i),
    decreases i - k,
{
    if k < i {
        assert(!occurs_at(s, pat, k));
        lemma_find_from_is(s, pat, k + 1, i);
    }
}

/// A one-character pattern occurs exactly where that character stands.
pub proof fn lemma_occurs_char(s: Seq<char>, c: char, j: int)
    ensures
        occurs_at(s, seq![c], j) <==> (0 <= j < s.len() && s[j] == c),
{
    if 0 <= j < s.len() {
        if s[j] == c {
            assert(s.subrange(j, j + 1) =~= seq![c]);
        } else {
            assert(s.subrange(j, j + 1)[0] != seq![c][0]);
        }
    }
}

/// The first `c` in `a + seq![c] + b`, when `a` has none, is right after `a`.
pub proof fn lemma_find_char_after(a: Seq<char>, c: char, b: Seq<char>)
    requires
        !a.contains(c),
    ensures
        find(a + seq![c] + b, seq![c]) == Some(a.len() as int),
{
    let s = a + seq![c] + b;
    lemma_occurs_char(s, c, a.len() as int);
    assert forall|j: int| 0 <= j < a.len() implies !#[trigger] occurs_at(s, seq![c], j) by {
        lemma_occurs_char(s, c, j);
        assert(s[j] == a[j]);
    }
    lemma_find_from_is(s, seq![c], 0, a.len() as int);
}

/// Splitting a piece without `c`, followed by `c` and the rest.
pub proof fn lemma_split_on_cons(a: Seq<char>, c: char, b: Seq<char>)
    requires
        !a.contains(c),
    ensures
        split_on(a + seq![c] + b, c) == seq![a] + split_on(b, c),
{
    let s = a + seq![c] + b;
    lemma_find_char_after(a, c, b);
    assert(s.take(a.len() as int) =~= a);
    assert(s.skip(a.len() as int + 1) =~= b);
}

/// Splitting a piece without `c` gives that piece alone.
pub proof fn lemma_split_on_single(a: Seq<char>, c: char)
    requires
        !a.contains(c),
    ensures
        split_on(a, c) == seq![a],
{
    lemma_find_from_first(a, seq![c], 0);
    match find(a, seq![c]) {
        Some(k) => {
            lemma_occurs_char(a, c, k);
            assert(a.contains(a[k]));
        },
        None => {},
    }
}

/// A string that neither starts nor ends with white space is its own trim.
pub proof fn lemma_trim_unchanged(s: Seq<char>)
    requires
        s.len() > 0 ==> !is_white_space(s[0]) && !is_white_space(s.last()),
    ensures
        trim(s) == s,
{
    lemma_trim_start_at(s, 0);
    assert(s.skip(0) =~= s);
    lemma_trim_end_at(s, s.len() as int);
    assert(s.take(s.len() as int) =~= s);
}

} // verus!
