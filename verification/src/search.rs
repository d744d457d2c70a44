//! Searching the files of a walk: which way a search is answered, the size and date
//! filters and their text forms, matching lines of a file's content, and putting the
//! result together.

use vstd::prelude::*;
use vstd::utf8::{decode_utf8, encode_utf8, is_char_boundary};

use crate::duplicates::{ReadMethod, MMAP_THRESHOLD};
use crate::index::{extract_trigrams_from_glob, glob_trigram_keys, lowered_bytes};
use crate::scanner::{FileInfo, ScanMode};
use crate::text::{
    all_digits, capped, contains_text, decimal_u64, digits_value, ends_with, is_digit,
    lemma_digits_value_grows, lines, lines_of, lossy_text, lowercase_of, occurs_in, parse_u64,
    strip_suffix, to_lowercase, to_uppercase, trim, trimmed, uppercase_of, utf8_lossy,
    without_plus,
};
use crate::time::Timestamp;
use vstd::string::StrSliceExecFns;

verus! {

/// The position of the first `.` among the bytes, or their number where there is none.
pub open spec fn dot_position(bytes: Seq<u8>) -> int
    decreases bytes.len(),
{
    if bytes.len() == 0 {
        0
    } else if bytes[0] == 0x2e {
        0
    } else {
        1 + dot_position(bytes.skip(1))
    }
}

/// The digits before the first `.`.
pub open spec fn whole_digits(bytes: Seq<u8>) -> Seq<u8> {
    bytes.take(dot_position(bytes))
}

/// The digits after the first `.`; none where there is no `.`.
pub open spec fn fraction_digits(bytes: Seq<u8>) -> Seq<u8> {
    if dot_position(bytes) < bytes.len() {
        bytes.skip(dot_position(bytes) + 1)
    } else {
        Seq::empty()
    }
}

/// The first `places` digits of a fraction, with zeros where it has fewer.
pub open spec fn padded(fraction: Seq<u8>, places: nat) -> Seq<u8> {
    Seq::new(
        places,
        |i: int|
            if i < fraction.len() {
                fraction[i]
            } else {
                0x30u8
            },
    )
}

/// A decimal number times ten to the power `places`, rounded down: the number
/// written by its whole digits followed by its first `places` fraction digits. The
/// text is an optional `+`, digits, and optionally a `.` and more digits, with at
/// least one digit in all; everything else is no number.
pub open spec fn scaled_decimal(bytes: Seq<u8>, places: nat) -> Option<nat> {
    let body = without_plus(bytes);
    let whole = whole_digits(body);
    let fraction = fraction_digits(body);
    if all_digits(whole) && all_digits(fraction) && whole.len() + fraction.len() > 0 {
        Some(digits_value(whole + padded(fraction, places)))
    } else {
        None
    }
}

/// The number part and the decimal places of the unit that a size text ends with:
/// `GB` has 9, `MB` 6, `KB` 3 and `B` none.
pub open spec fn unit_of(text: Seq<char>) -> Option<(Seq<char>, nat)> {
    if ends_with(text, "GB"@) {
        Some((text.take(text.len() - "GB"@.len()), 9nat))
    } else if ends_with(text, "MB"@) {
        Some((text.take(text.len() - "MB"@.len()), 6nat))
    } else if ends_with(text, "KB"@) {
        Some((text.take(text.len() - "KB"@.len()), 3nat))
    } else if ends_with(text, "B"@) {
        Some((text.take(text.len() - "B"@.len()), 0nat))
    } else {
        None
    }
}

/// The byte count that a trimmed, uppercased size text stands for: a plain integer,
/// or a decimal number before one of the units `B`, `KB`, `MB`, `GB`, which count
/// in powers of 1000. The product is rounded down and reported as `u64::MAX` where
/// it is larger.
pub open spec fn size_value(text: Seq<char>) -> Option<u64> {
    match decimal_u64(encode_utf8(text)) {
        Some(n) => Some(n),
        None => match unit_of(text) {
            Some((number, places)) => match scaled_decimal(
                encode_utf8(trimmed(number)),
                places,
            ) {
                Some(value) => Some(capped(value)),
                None => None,
            },
            None => None,
        },
    }
}

/// Finds the first `.` from position `from` on.
fn find_dot(bytes: &[u8], from: usize) -> (at: usize)
    requires
        from <= bytes@.len(),
    ensures
        at == from + dot_position(bytes@.skip(from as int)),
        from <= at <= bytes@.len(),
{
    let mut at = from;
    while at < bytes.len() && bytes[at] != 0x2e
        invariant
            from <= at <= bytes@.len(),
            from + dot_position(bytes@.skip(from as int)) == at + dot_position(
                bytes@.skip(at as int),
            ),
        decreases bytes.len() - at,
    {
        assert(bytes@.skip(at as int).skip(1) =~= bytes@.skip(at + 1));
        at += 1;
    }
    proof {
        if at < bytes@.len() {
            assert(bytes@.skip(at as int)[0] == 0x2e);
        }
    }
    at
}

/// Whether the bytes from `from` up to `to` are all digits.
fn digits_only(bytes: &[u8], from: usize, to: usize) -> (ok: bool)
    requires
        from <= to <= bytes@.len(),
    ensures
        ok == all_digits(bytes@.subrange(from as int, to as int)),
{
    let mut i = from;
    while i < to
        invariant
            from <= i <= to <= bytes@.len(),
            all_digits(bytes@.subrange(from as int, i as int)),
        decreases to - i,
    {
        if bytes[i] < 0x30 || bytes[i] > 0x39 {
            assert(!is_digit(bytes@.subrange(from as int, to as int)[i - from]));
            return false;
        }
        assert forall|k: int| 0 <= k < i + 1 - from implies is_digit(
            #[trigger] bytes@.subrange(from as int, i + 1)[k],
        ) by {
            if k < i - from {
                assert(bytes@.subrange(from as int, i as int)[k] == bytes@.subrange(
                    from as int,
                    i + 1,
                )[k]);
            }
        }
        i += 1;
    }
    true
}

/// Appending a digit to a run of digits multiplies its value by ten and adds the
/// digit.
proof fn lemma_digits_value_push(digits: Seq<u8>, digit: u8)
    ensures
        digits_value(digits.push(digit)) == digits_value(digits) * 10 + (digit - 0x30) as nat,
{
    assert(digits.push(digit).drop_last() =~= digits);
}

/// Reads a decimal number and multiplies it by ten to the power `places`.
pub fn parse_scaled(text: &[u8], places: usize) -> (value: Option<u64>)
    ensures
        value == match scaled_decimal(text@, places as nat) {
            Some(v) => Some(capped(v)),
            None => None,
        },
{
    let n = text.len();
    let start: usize = if n > 0 && text[0] == 0x2b {
        1
    } else {
        0
    };
    let ghost body = without_plus(text@);
    assert(body == text@.skip(start as int));
    let dot = find_dot(text, start);
    let frac_start: usize = if dot < n {
        dot + 1
    } else {
        n
    };
    let ghost whole = whole_digits(body);
    let ghost fraction = fraction_digits(body);
    proof {
        assert(whole =~= text@.subrange(start as int, dot as int));
        assert(fraction =~= text@.subrange(frac_start as int, n as int));
    }
    if !digits_only(text, start, dot) || !digits_only(text, frac_start, n) {
        return None;
    }
    if (dot - start) + (n - frac_start) == 0 {
        return None;
    }
    let ghost all = whole + padded(fraction, places as nat);
    proof {
        assert forall|k: int| 0 <= k < all.len() implies is_digit(#[trigger] all[k]) by {
            if k < whole.len() {
                assert(all[k] == whole[k]);
            } else if k - whole.len() < fraction.len() {
                assert(all[k] == fraction[k - whole.len()]);
            }
        }
    }
    let mut total: u64 = 0;
    let mut over = false;
    let mut i: usize = start;
    assert(all.take(0) =~= Seq::<u8>::empty());
    while i < dot
        invariant
            start <= i <= dot <= n,
            n == text@.len(),
            whole == text@.subrange(start as int, dot as int),
            all == whole + padded(fraction, places as nat),
            all_digits(all),
            !over ==> total == digits_value(all.take(i - start)),
            over ==> digits_value(all) > u64::MAX,
        decreases dot - i,
    {
        let digit = text[i];
        proof {
            assert(all[i - start] == digit);
            assert(is_digit(all[i - start]));
            assert(all.take(i - start + 1) =~= all.take(i - start).push(digit));
            lemma_digits_value_push(all.take(i - start), digit);
            lemma_digits_value_grows(all, i - start + 1);
        }
        if !over {
            let next = match total.checked_mul(10) {
                Some(scaled) => scaled.checked_add((digit - 0x30) as u64),
                None => None,
            };
            match next {
                Some(sum) => {
                    total = sum;
                },
                None => {
                    over = true;
                },
            }
        }
        i += 1;
    }
    let mut p: usize = 0;
    while p < places
        invariant
            p <= places,
            dot - start == whole.len(),
            frac_start <= n,
            n == text@.len(),
            fraction == text@.subrange(frac_start as int, n as int),
            all == whole + padded(fraction, places as nat),
            all_digits(all),
            !over ==> total == digits_value(all.take(whole.len() + p)),
            over ==> digits_value(all) > u64::MAX,
        decreases places - p,
    {
        let digit: u8 = if p < n - frac_start {
            text[frac_start + p]
        } else {
            0x30
        };
        proof {
            assert(all[whole.len() + p] == digit);
            assert(is_digit(all[whole.len() + p]));
            assert(all.take(whole.len() + p + 1) =~= all.take(whole.len() + p).push(digit));
            lemma_digits_value_push(all.take(whole.len() + p), digit);
            lemma_digits_value_grows(all, whole.len() + p + 1);
        }
        if !over {
            let next = match total.checked_mul(10) {
                Some(scaled) => scaled.checked_add((digit - 0x30) as u64),
                None => None,
            };
            match next {
                Some(sum) => {
                    total = sum;
                },
                None => {
                    over = true;
                },
            }
        }
        p += 1;
    }
    assert(all.take(whole.len() + places) =~= all);
    if over {
        Some(u64::MAX)
    } else {
        Some(total)
    }
}

/// Reads the byte count of a size text that is already trimmed and uppercased.
pub fn size_from_text(text: &str) -> (size: Option<u64>)
    ensures
        size == size_value(text@),
{
    match parse_u64(text.as_bytes()) {
        Some(n) => {
            return Some(n);
        },
        None => {},
    }
    let (number, places): (&str, usize) = match strip_suffix(text, "GB") {
        Some(rest) => (rest, 9),
        None => match strip_suffix(text, "MB") {
            Some(rest) => (rest, 6),
            None => match strip_suffix(text, "KB") {
                Some(rest) => (rest, 3),
                None => match strip_suffix(text, "B") {
                    Some(rest) => (rest, 0),
                    None => {
                        return None;
                    },
                },
            },
        },
    };
    parse_scaled(trim(number).as_bytes(), places)
}

/// Reads a size such as `42`, `1KB`, `10MB` or `1.5GB`: surrounding whitespace and
/// letter case do not matter, and units count in powers of 1000. `None` stands for a
/// text that is no size.
pub fn parse_size(s: &str) -> (size: Option<u64>)
    ensures
        size == size_value(uppercase_of(trimmed(s@))),
{
    let upper = to_uppercase(trim(s));
    size_from_text(upper.as_str())
}

/// The seconds from the Unix epoch to a time of day in UTC on the day that a text
/// writes in a format, as `chrono` reads the text; `None` where it reads no day or
/// the day has no such time.
pub uninterp spec fn utc_timestamp(
    date: Seq<char>,
    format: Seq<char>,
    hour: u32,
    minute: u32,
    second: u32,
) -> Option<i64>;

/// Reads a day with `chrono::NaiveDate::parse_from_str` and takes the instant of a
/// time of that day in UTC with `NaiveDate::and_hms_opt`, `NaiveDateTime::and_utc`
/// and `DateTime::timestamp`. The result is taken on trust to be the value that
/// `utc_timestamp` names; nothing else is claimed about it.
#[verifier::external_body]
fn timestamp_on(date: &str, format: &str, hour: u32, minute: u32, second: u32) -> (secs: Option<
    i64,
>)
    ensures
        secs == utc_timestamp(date@, format@, hour, minute, second),
{
    let day = chrono::NaiveDate::parse_from_str(date, format).ok()?;
    Some(day.and_hms_opt(hour, minute, second)?.and_utc().timestamp())
}

/// The seconds from the Unix epoch to midnight UTC on a day written as `YYYY-MM-DD`.
pub open spec fn midnight_utc(date: Seq<char>) -> Option<i64> {
    utc_timestamp(date, "%Y-%m-%d"@, 0, 0, 0)
}

/// Whether a trimmed text has the shape of a date: ten bytes with `-` as the fifth
/// character.
pub open spec fn date_shaped(text: Seq<char>) -> bool {
    encode_utf8(text).len() == 10 && text.len() > 4 && text[4] == '-'
}

/// The number part and the seconds of the unit that a relative time ends with:
/// `d` for days, `h` for hours, `m` for minutes.
pub open spec fn span_unit(text: Seq<char>) -> Option<(Seq<char>, u64)> {
    if ends_with(text, "d"@) {
        Some((text.take(text.len() - "d"@.len()), 86400u64))
    } else if ends_with(text, "h"@) {
        Some((text.take(text.len() - "h"@.len()), 3600u64))
    } else if ends_with(text, "m"@) {
        Some((text.take(text.len() - "m"@.len()), 60u64))
    } else {
        None
    }
}

/// The instant that a relative time stands for: `now` less the number of units,
/// where the number is a `u64`, its seconds fit a `u64` and the instant is in range.
pub open spec fn relative_time(text: Seq<char>, now: Timestamp) -> Option<Timestamp> {
    match span_unit(text) {
        Some((number, unit)) => match decimal_u64(encode_utf8(trimmed(number))) {
            Some(count) => if count * unit <= u64::MAX && now.secs - count * unit >= i64::MIN {
                Some(Timestamp { secs: (now.secs - count * unit) as i64, nanos: now.nanos })
            } else {
                None
            },
            None => None,
        },
        None => None,
    }
}

/// The instant that a trimmed time text stands for. A text with the shape of a date
/// that `chrono` reads stands for that day's midnight in UTC, or for nothing where
/// the day lies before 1970; every other text is read as a relative time.
pub open spec fn time_value(text: Seq<char>, now: Timestamp) -> Option<Timestamp> {
    if date_shaped(text) && midnight_utc(text).is_some() {
        if midnight_utc(text).unwrap() < 0 {
            None
        } else {
            Some(Timestamp { secs: midnight_utc(text).unwrap(), nanos: 0 })
        }
    } else {
        relative_time(text, now)
    }
}

/// Reads the instant of a time text that is already trimmed.
pub fn time_from_text(text: &str, now: Timestamp) -> (time: Option<Timestamp>)
    ensures
        time == time_value(text@, now),
{
    if text.as_bytes().len() == 10 && text.unicode_len() > 4 && text.get_char(4) == '-' {
        match timestamp_on(text, "%Y-%m-%d", 0, 0, 0) {
            Some(secs) => {
                if secs < 0 {
                    return None;
                }
                return Some(Timestamp { secs, nanos: 0 });
            },
            None => {},
        }
    }
    let (number, unit): (&str, u64) = match strip_suffix(text, "d") {
        Some(rest) => (rest, 86400),
        None => match strip_suffix(text, "h") {
            Some(rest) => (rest, 3600),
            None => match strip_suffix(text, "m") {
                Some(rest) => (rest, 60),
                None => {
                    return None;
                },
            },
        },
    };
    let count = match parse_u64(trim(number).as_bytes()) {
        Some(count) => count,
        None => {
            return None;
        },
    };
    match count.checked_mul(unit) {
        Some(secs) => now.checked_sub_secs(secs),
        None => None,
    }
}

/// Reads a time: a date `YYYY-MM-DD`, which stands for its midnight in UTC, or a
/// span such as `7d`, `24h` or `30m`, which stands for that long before `now`.
/// `None` stands for a text that is no time.
pub fn parse_time(s: &str, now: Timestamp) -> (time: Option<Timestamp>)
    ensures
        time == time_value(trimmed(s@), now),
{
    time_from_text(trim(s), now)
}

/// The number of matching lines that are reported for one file.
pub const MAX_LINE_MATCHES: usize = 10;

/// The length in bytes beyond which a reported line is cut.
pub const MAX_LINE_BYTES: usize = 200;

/// One matching line of a file.
#[derive(Debug)]
pub struct ContentMatch {
    /// The number of the line, counted from 1.
    pub line_number: usize,
    /// The line, cut where it is long.
    pub line: String,
}

/// What a `ContentMatch` holds, with its text as a sequence of characters.
pub struct MatchView {
    pub line_number: nat,
    pub line: Seq<char>,
}

impl View for ContentMatch {
    type V = MatchView;

    open spec fn view(&self) -> MatchView {
        MatchView { line_number: self.line_number as nat, line: self.line@ }
    }
}

/// The views of a list of line matches, in the same order.
pub open spec fn match_views(matches: Seq<ContentMatch>) -> Seq<MatchView> {
    matches.map_values(|m: ContentMatch| m@)
}

/// The last character boundary of a text at or before byte `at`.
pub open spec fn floor_boundary(bytes: Seq<u8>, at: int) -> int
    decreases at,
{
    if at <= 0 || is_char_boundary(bytes, at) {
        at
    } else {
        floor_boundary(bytes, at - 1)
    }
}

/// A line as it is reported: whole where it has at most `MAX_LINE_BYTES` bytes,
/// else cut at the last character boundary within them and followed by `...`.
pub open spec fn shown(line: Seq<char>) -> Seq<char> {
    let bytes = encode_utf8(line);
    if bytes.len() > MAX_LINE_BYTES {
        decode_utf8(bytes.take(floor_boundary(bytes, MAX_LINE_BYTES as int))) + "..."@
    } else {
        line
    }
}

/// Whether a line holds the query, letter case aside.
pub open spec fn line_matches(line: Seq<char>, query: Seq<char>) -> bool {
    occurs_in(lowercase_of(query), lowercase_of(line))
}

/// The matches among the first `n` lines: every matching line with its number, up
/// to `MAX_LINE_MATCHES` of them.
pub open spec fn matches_below(lines: Seq<Seq<char>>, query: Seq<char>, n: nat) -> Seq<MatchView>
    decreases n,
{
    if n == 0 {
        Seq::empty()
    } else {
        let earlier = matches_below(lines, query, (n - 1) as nat);
        if earlier.len() < MAX_LINE_MATCHES && line_matches(lines[n - 1], query) {
            earlier.push(MatchView { line_number: n, line: shown(lines[n - 1]) })
        } else {
            earlier
        }
    }
}

/// The matches of a text: those among all its lines, or `None` where no line
/// matches.
pub open spec fn text_matches(text: Seq<char>, query: Seq<char>) -> Option<Seq<MatchView>> {
    let found = matches_below(lines_of(text), query, lines_of(text).len());
    if found.len() == 0 {
        None
    } else {
        Some(found)
    }
}

/// Once the limit is reached, further lines add nothing.
proof fn lemma_matches_full(lines: Seq<Seq<char>>, query: Seq<char>, m: nat, n: nat)
    requires
        m <= n,
        matches_below(lines, query, m).len() >= MAX_LINE_MATCHES,
    ensures
        matches_below(lines, query, n) == matches_below(lines, query, m),
    decreases n,
{
    if n > m {
        lemma_matches_full(lines, query, m, (n - 1) as nat);
    }
}

/// Cuts a line for reporting.
pub fn show_line(line: &str) -> (text: String)
    ensures
        text@ == shown(line@),
{
    let ghost bytes = encode_utf8(line@);
    proof {
        vstd::utf8::encode_utf8_valid_utf8(line@);
    }
    if line.as_bytes().len() <= MAX_LINE_BYTES {
        return line.to_owned();
    }
    let mut end: usize = MAX_LINE_BYTES;
    while end > 0 && !line.is_char_boundary(end)
        invariant
            end <= MAX_LINE_BYTES,
            bytes == encode_utf8(line@),
            floor_boundary(bytes, MAX_LINE_BYTES as int) == floor_boundary(bytes, end as int),
        decreases end,
    {
        end -= 1;
    }
    proof {
        vstd::utf8::is_char_boundary_start_end_of_seq(bytes);
        assert(is_char_boundary(bytes, end as int));
        assert(floor_boundary(bytes, end as int) == end);
    }
    let (head, _) = line.split_at(end);
    proof {
        vstd::utf8::encode_utf8_decode_utf8(head@);
        assert(encode_utf8(head@) =~= bytes.take(end as int));
    }
    let mut text = head.to_owned();
    text.append("...");
    text
}

/// Finds the lines of a text that hold the query, letter case aside: at most
/// `MAX_LINE_MATCHES` of them, each with its line number and cut for reporting.
pub fn matching_lines(text: &str, query: &str) -> (found: Option<Vec<ContentMatch>>)
    ensures
        match found {
            Some(matches) => text_matches(text@, query@) == Some(match_views(matches@)),
            None => text_matches(text@, query@).is_none(),
        },
{
    let query_lower = to_lowercase(query);
    let all = lines(text);
    let ghost wanted = lines_of(text@);
    let mut matches: Vec<ContentMatch> = Vec::new();
    let mut i: usize = 0;
    assert(match_views(matches@) =~= matches_below(wanted, query@, 0));
    while i < all.len() && matches.len() < MAX_LINE_MATCHES
        invariant
            i <= all@.len(),
            all@.len() == wanted.len(),
            forall|k: int| 0 <= k < all@.len() ==> (#[trigger] all@[k])@ == wanted[k],
            query_lower@ == lowercase_of(query@),
            match_views(matches@) == matches_below(wanted, query@, i as nat),
        decreases all.len() - i,
    {
        let line = all[i];
        let lower = to_lowercase(line);
        if contains_text(lower.as_str(), query_lower.as_str()) {
            let ghost before = match_views(matches@);
            let entry = ContentMatch { line_number: i + 1, line: show_line(line) };
            matches.push(entry);
            assert(match_views(matches@) =~= before.push(entry@));
        }
        i += 1;
    }
    proof {
        if i < all@.len() {
            lemma_matches_full(wanted, query@, i as nat, wanted.len());
        }
    }
    if matches.len() == 0 {
        None
    } else {
        Some(matches)
    }
}

/// Chooses how the content of a file is obtained for searching: files of
/// `MMAP_THRESHOLD` bytes or more are memory-mapped, shorter ones are read whole.
pub fn content_read_method(size: u64) -> (method: ReadMethod)
    ensures
        method == if size >= MMAP_THRESHOLD {
            ReadMethod::Mapped
        } else {
            ReadMethod::Whole
        },
{
    if size >= MMAP_THRESHOLD {
        ReadMethod::Mapped
    } else {
        ReadMethod::Whole
    }
}

/// The matches of a file from its content, which is read as text as far as it goes,
/// with every invalid sequence replaced; a content that could not be read has none.
pub open spec fn content_matches(content: Option<Seq<u8>>, query: Seq<char>) -> Option<
    Seq<MatchView>,
> {
    match content {
        Some(bytes) => text_matches(lossy_text(bytes), query),
        None => None,
    }
}

/// Searches the content of a file for the query. `content` is `None` where the file
/// could not be read.
pub fn search_content(content: Option<&[u8]>, query: &str) -> (found: Option<Vec<ContentMatch>>)
    ensures
        match found {
            Some(matches) => content_matches(
                match content {
                    Some(bytes) => Some(bytes@),
                    None => None,
                },
                query@,
            ) == Some(match_views(matches@)),
            None => content_matches(
                match content {
                    Some(bytes) => Some(bytes@),
                    None => None,
                },
                query@,
            ).is_none(),
        },
{
    match content {
        Some(bytes) => {
            let text = utf8_lossy(bytes);
            matching_lines(text.as_str(), query)
        },
        None => None,
    }
}

/// What a search is asked for. The size and time filters are given as texts.
#[derive(Debug, Clone, Copy)]
pub struct SearchParams<'a> {
    pub directory: &'a str,
    pub name_pattern: Option<&'a str>,
    pub content_query: Option<&'a str>,
    pub min_size: Option<&'a str>,
    pub max_size: Option<&'a str>,
    pub newer: Option<&'a str>,
    pub older: Option<&'a str>,
    pub recursive: bool,
}

/// The way a search is answered.
#[derive(Debug, Clone, Copy, PartialEq, Eq, Structural)]
pub enum SearchPlan {
    /// From the trigram index of the directory.
    Indexed,
    /// By a walk that reads no metadata.
    NamesOnly,
    /// By a walk that reads the metadata of the files whose name passes.
    Filtered,
}

/// Whether a search looks at sizes, dates or contents.
pub open spec fn wants_metadata(params: SearchParams) -> bool {
    params.min_size.is_some() || params.max_size.is_some() || params.newer.is_some()
        || params.older.is_some() || params.content_query.is_some()
}

/// Whether a name pattern can be answered from an index: the search is recursive and
/// the pattern yields a trigram.
pub open spec fn index_serves(pattern: Seq<char>, recursive: bool) -> bool {
    recursive && glob_trigram_keys(lowered_bytes(pattern)).len() > 0
}

/// Decides whether a name pattern can be answered from an index.
pub fn index_usable(name_pattern: &str, recursive: bool) -> (usable: bool)
    ensures
        usable == index_serves(name_pattern@, recursive),
{
    if !recursive {
        return false;
    }
    let trigrams = extract_trigrams_from_glob(name_pattern);
    assert(trigrams@.len() == crate::index::trigram_keys(trigrams@).len());
    trigrams.len() > 0
}

/// Chooses how a search is answered: from the index where only a name is asked for
/// and the index can serve it; by a walk with metadata where sizes, dates or
/// contents are asked for; else by a walk of names.
pub fn plan_search(params: &SearchParams) -> (plan: SearchPlan)
    ensures
        plan == if wants_metadata(*params) {
            SearchPlan::Filtered
        } else if params.name_pattern.is_some() && index_serves(
            params.name_pattern.unwrap()@,
            params.recursive,
        ) {
            SearchPlan::Indexed
        } else {
            SearchPlan::NamesOnly
        },
{
    if params.min_size.is_some() || params.max_size.is_some() || params.newer.is_some()
        || params.older.is_some() || params.content_query.is_some() {
        return SearchPlan::Filtered;
    }
    match params.name_pattern {
        Some(pattern) => if index_usable(pattern, params.recursive) {
            SearchPlan::Indexed
        } else {
            SearchPlan::NamesOnly
        },
        None => SearchPlan::NamesOnly,
    }
}

/// The mode of the walk that answers a search where the index does not: with
/// metadata where sizes, dates or contents are asked for, the name pattern pushed
/// into the walk where there is one; else names only.
pub fn walk_mode(params: &SearchParams) -> (mode: ScanMode)
    ensures
        mode.pattern() == match params.name_pattern {
            Some(pattern) => Some(pattern@),
            None => None,
        },
        mode.names_only() == !wants_metadata(*params),
        wants_metadata(*params) && params.name_pattern.is_none() ==> mode is Full,
{
    let metadata = params.min_size.is_some() || params.max_size.is_some()
        || params.newer.is_some() || params.older.is_some() || params.content_query.is_some();
    match params.name_pattern {
        Some(pattern) => if metadata {
            ScanMode::Filtered(pattern.to_owned())
        } else {
            ScanMode::NamesOnly(Some(pattern.to_owned()))
        },
        None => if metadata {
            ScanMode::Full
        } else {
            ScanMode::NamesOnly(None)
        },
    }
}

/// The size and date bounds of a search. A bound that is `None` filters nothing.
#[derive(Debug, Clone, Copy)]
pub struct Filters {
    pub min_bytes: Option<u64>,
    pub max_bytes: Option<u64>,
    pub newer: Option<Timestamp>,
    pub older: Option<Timestamp>,
}

/// The bound that an optional size text sets; a text that is no size sets none.
pub open spec fn size_bound(text: Option<&str>) -> Option<u64> {
    match text {
        Some(t) => size_value(uppercase_of(trimmed(t@))),
        None => None,
    }
}

/// The bound that an optional time text sets; a text that is no time sets none.
pub open spec fn time_bound(text: Option<&str>, now: Timestamp) -> Option<Timestamp> {
    match text {
        Some(t) => time_value(trimmed(t@), now),
        None => None,
    }
}

/// The bounds that the filter texts of a search set.
pub open spec fn filters_of(params: SearchParams, now: Timestamp) -> Filters {
    Filters {
        min_bytes: size_bound(params.min_size),
        max_bytes: size_bound(params.max_size),
        newer: time_bound(params.newer, now),
        older: time_bound(params.older, now),
    }
}

/// Reads the filter texts of a search. A text that cannot be read sets no bound.
pub fn parse_filters(params: &SearchParams, now: Timestamp) -> (filters: Filters)
    ensures
        filters == filters_of(*params, now),
{
    Filters {
        min_bytes: match params.min_size {
            Some(t) => parse_size(t),
            None => None,
        },
        max_bytes: match params.max_size {
            Some(t) => parse_size(t),
            None => None,
        },
        newer: match params.newer {
            Some(t) => parse_time(t, now),
            None => None,
        },
        older: match params.older {
            Some(t) => parse_time(t, now),
            None => None,
        },
    }
}

/// Whether a file lies within the bounds: its size is neither below the minimum nor
/// above the maximum, and its modification time is known and neither before
/// `newer` nor after `older`, as far as these are set.
pub open spec fn within(file: FileInfo, filters: Filters) -> bool {
    &&& filters.min_bytes matches Some(min) ==> file.size >= min
    &&& filters.max_bytes matches Some(max) ==> file.size <= max
    &&& filters.newer matches Some(bound) ==> file.modified.is_some() && bound.at_or_before(
        file.modified.unwrap(),
    )
    &&& filters.older matches Some(bound) ==> file.modified.is_some()
        && file.modified.unwrap().at_or_before(bound)
}

/// Holds a file against the bounds, the size first.
pub fn passes_filters(file: &FileInfo, filters: &Filters) -> (pass: bool)
    ensures
        pass == within(*file, *filters),
{
    match filters.min_bytes {
        Some(min) => if file.size < min {
            return false;
        },
        None => {},
    }
    match filters.max_bytes {
        Some(max) => if file.size > max {
            return false;
        },
        None => {},
    }
    match filters.newer {
        Some(bound) => match file.modified {
            Some(modified) => if !bound.is_at_or_before(&modified) {
                return false;
            },
            None => {
                return false;
            },
        },
        None => {},
    }
    match filters.older {
        Some(bound) => match file.modified {
            Some(modified) => if !modified.is_at_or_before(&bound) {
                return false;
            },
            None => {
                return false;
            },
        },
        None => {},
    }
    true
}

/// The positions before `n` of the files within the bounds, ascending.
pub open spec fn selected_below(files: Seq<FileInfo>, filters: Filters, n: nat) -> Seq<usize>
    decreases n,
{
    if n == 0 {
        Seq::empty()
    } else {
        let earlier = selected_below(files, filters, (n - 1) as nat);
        if within(files[n - 1], filters) {
            earlier.push((n - 1) as usize)
        } else {
            earlier
        }
    }
}

/// The positions of the files within the bounds, ascending.
pub fn select_files(files: &Vec<FileInfo>, filters: &Filters) -> (selected: Vec<usize>)
    ensures
        selected@ == selected_below(files@, *filters, files@.len()),
        forall|k: int| 0 <= k < selected@.len() ==> (#[trigger] selected@[k]) < files@.len(),
{
    let mut selected: Vec<usize> = Vec::new();
    let mut i: usize = 0;
    while i < files.len()
        invariant
            i <= files@.len(),
            selected@ == selected_below(files@, *filters, i as nat),
            forall|k: int| 0 <= k < selected@.len() ==> (#[trigger] selected@[k]) < i,
        decreases files.len() - i,
    {
        if passes_filters(&files[i], filters) {
            selected.push(i);
        }
        i += 1;
    }
    selected
}

/// One file of a search result.
#[derive(Debug)]
pub struct SearchMatch {
    pub path: String,
    pub size: u64,
    /// The matching lines, where a content query was given.
    pub content_matches: Option<Vec<ContentMatch>>,
}

/// What a `SearchMatch` holds, with its texts as sequences of characters.
pub struct SearchMatchView {
    pub path: Seq<char>,
    pub size: u64,
    pub content_matches: Option<Seq<MatchView>>,
}

impl View for SearchMatch {
    type V = SearchMatchView;

    open spec fn view(&self) -> SearchMatchView {
        SearchMatchView {
            path: self.path@,
            size: self.size,
            content_matches: match self.content_matches {
                Some(matches) => Some(match_views(matches@)),
                None => None,
            },
        }
    }
}

/// The outcome of a search.
#[derive(Debug)]
pub struct SearchResult {
    pub matches: Vec<SearchMatch>,
    pub total_matches: usize,
    pub files_scanned: usize,
}

/// The views of a list of search matches, in the same order.
pub open spec fn search_views(matches: Seq<SearchMatch>) -> Seq<SearchMatchView> {
    matches.map_values(|m: SearchMatch| m@)
}

/// The matching lines found in a file, as far as they were handed in.
pub open spec fn found_at(found: Seq<Option<Vec<ContentMatch>>>, k: int) -> Option<Seq<MatchView>> {
    if k < found.len() {
        match found[k] {
            Some(matches) => Some(match_views(matches@)),
            None => None,
        }
    } else {
        None
    }
}

/// The result entries for the first `n` selected files. Without a content query
/// every selected file has an entry; with one, only the files in which matching
/// lines were found.
pub open spec fn entries_below(
    files: Seq<FileInfo>,
    selected: Seq<usize>,
    with_content: bool,
    found: Seq<Option<Vec<ContentMatch>>>,
    n: nat,
) -> Seq<SearchMatchView>
    decreases n,
{
    if n == 0 {
        Seq::empty()
    } else {
        let earlier = entries_below(files, selected, with_content, found, (n - 1) as nat);
        let file = files[selected[n - 1] as int];
        if !with_content {
            earlier.push(SearchMatchView { path: file.path@, size: file.size, content_matches: None })
        } else if found_at(found, n - 1).is_some() {
            earlier.push(
                SearchMatchView {
                    path: file.path@,
                    size: file.size,
                    content_matches: found_at(found, n - 1),
                },
            )
        } else {
            earlier
        }
    }
}

/// Puts the result of a search by walk together. `files` are the files that the walk
/// found; they are held against the size and date bounds of `params`. Where a
/// content query was given, `found` holds for every file within the bounds, in
/// order, the matching lines of its content (see `select_files` and
/// `search_content`), and only the files with matching lines are reported.
pub fn run_search(
    files: &Vec<FileInfo>,
    params: &SearchParams,
    now: Timestamp,
    found: Vec<Option<Vec<ContentMatch>>>,
) -> (result: SearchResult)
    ensures
        result.files_scanned == files@.len(),
        result.total_matches == result.matches@.len(),
        search_views(result.matches@) == entries_below(
            files@,
            selected_below(files@, filters_of(*params, now), files@.len()),
            params.content_query.is_some(),
            found@,
            selected_below(files@, filters_of(*params, now), files@.len()).len(),
        ),
{
    let filters = parse_filters(params, now);
    let selected = select_files(files, &filters);
    let with_content = params.content_query.is_some();
    let ghost given = found@;
    let mut found = found;
    let mut matches: Vec<SearchMatch> = Vec::new();
    let mut k: usize = 0;
    assert(search_views(matches@) =~= entries_below(files@, selected@, with_content, given, 0));
    while k < selected.len()
        invariant
            k <= selected@.len(),
            forall|q: int| 0 <= q < selected@.len() ==> (#[trigger] selected@[q]) < files@.len(),
            found@.len() == given.len(),
            forall|q: int| k <= q < found@.len() ==> #[trigger] found@[q] == given[q],
            search_views(matches@) == entries_below(
                files@,
                selected@,
                with_content,
                given,
                k as nat,
            ),
        decreases selected.len() - k,
    {
        let file = &files[selected[k]];
        let ghost before = search_views(matches@);
        if !with_content {
            let entry = SearchMatch {
                path: file.path.clone(),
                size: file.size,
                content_matches: None,
            };
            matches.push(entry);
            assert(search_views(matches@) =~= before.push(entry@));
        } else if k < found.len() {
            match found[k].take() {
                Some(lines) => {
                    let entry = SearchMatch {
                        path: file.path.clone(),
                        size: file.size,
                        content_matches: Some(lines),
                    };
                    matches.push(entry);
                    assert(search_views(matches@) =~= before.push(entry@));
                },
                None => {},
            }
        }
        k += 1;
    }
    let total_matches = matches.len();
    SearchResult { matches, total_matches, files_scanned: files.len() }
}

} // verus!
