//! Text primitives shared by the rest of the library.

use vstd::prelude::*;
use vstd::string::StrSliceExecFns;
use vstd::utf8::{encode_utf8, valid_utf8};

verus! {

/// The Unicode lowercase form of a string, as `str::to_lowercase` computes it.
pub uninterp spec fn lowercase_of(s: Seq<char>) -> Seq<char>;

/// Lowercases a string with `str::to_lowercase`. The result is taken on trust to be
/// the value that `lowercase_of` names; nothing else is claimed about it.
#[verifier::external_body]
pub(crate) fn to_lowercase(s: &str) -> (lowered: String)
    ensures
        lowered@ == lowercase_of(s@),
{
    s.to_lowercase()
}

/// The Unicode uppercase form of a string, as `str::to_uppercase` computes it.
pub uninterp spec fn uppercase_of(s: Seq<char>) -> Seq<char>;

/// Uppercases a string with `str::to_uppercase`. The result is taken on trust to be
/// the value that `uppercase_of` names; nothing else is claimed about it.
#[verifier::external_body]
pub(crate) fn to_uppercase(s: &str) -> (raised: String)
    ensures
        raised@ == uppercase_of(s@),
{
    s.to_uppercase()
}

/// Whether a character is whitespace: one of the characters with the Unicode
/// property White_Space, which are the tab, the line feed and the three controls
/// after it, the space, the next-line control, the no-break space, the Ogham space
/// mark, the spaces from the en quad to the hair space, the line and paragraph
/// separators, the narrow no-break space, the medium mathematical space and the
/// ideographic space.
pub open spec fn white_space(c: char) -> bool {
    let code = c as u32;
    (0x09 <= code <= 0x0d) || code == 0x20 || code == 0x85 || code == 0xa0 || code == 0x1680 || (
    0x2000 <= code <= 0x200a) || code == 0x2028 || code == 0x2029 || code == 0x202f || code
        == 0x205f || code == 0x3000
}

/// Tells whether a character is whitespace.
pub fn is_whitespace(c: char) -> (white: bool)
    ensures
        white == white_space(c),
{
    let code = c as u32;
    (0x09 <= code && code <= 0x0d) || code == 0x20 || code == 0x85 || code == 0xa0 || code
        == 0x1680 || (0x2000 <= code && code <= 0x200a) || code == 0x2028 || code == 0x2029
        || code == 0x202f || code == 0x205f || code == 0x3000
}

/// The number of whitespace characters that a text begins with.
pub open spec fn leading_white(s: Seq<char>) -> nat
    decreases s.len(),
{
    if s.len() > 0 && white_space(s[0]) {
        1 + leading_white(s.skip(1))
    } else {
        0
    }
}

/// The number of whitespace characters that a text ends with.
pub open spec fn trailing_white(s: Seq<char>) -> nat
    decreases s.len(),
{
    if s.len() > 0 && white_space(s.last()) {
        1 + trailing_white(s.drop_last())
    } else {
        0
    }
}

/// A text without its leading and trailing whitespace.
pub open spec fn trimmed(s: Seq<char>) -> Seq<char> {
    if leading_white(s) >= s.len() {
        Seq::empty()
    } else {
        s.subrange(leading_white(s) as int, s.len() - trailing_white(s))
    }
}

/// A text that begins with `a` whitespace characters and then another character
/// begins with `a` whitespace characters in all.
proof fn lemma_leading(s: Seq<char>, a: int)
    requires
        0 <= a <= s.len(),
        forall|i: int| 0 <= i < a ==> white_space(#[trigger] s[i]),
        a < s.len() ==> !white_space(s[a]),
    ensures
        leading_white(s) == a,
    decreases a,
{
    if a > 0 {
        let rest = s.skip(1);
        assert forall|i: int| 0 <= i < a - 1 implies white_space(#[trigger] rest[i]) by {
            assert(rest[i] == s[i + 1]);
        }
        if a < s.len() {
            assert(rest[a - 1] == s[a]);
        }
        lemma_leading(rest, a - 1);
    }
}

/// A text that ends with `k` whitespace characters after another character ends
/// with `k` whitespace characters in all.
proof fn lemma_trailing(s: Seq<char>, k: int)
    requires
        0 <= k < s.len(),
        forall|i: int| s.len() - k <= i < s.len() ==> white_space(#[trigger] s[i]),
        !white_space(s[s.len() - k - 1]),
    ensures
        trailing_white(s) == k,
    decreases k,
{
    if k > 0 {
        let rest = s.drop_last();
        assert forall|i: int| rest.len() - (k - 1) <= i < rest.len() implies white_space(
            #[trigger] rest[i],
        ) by {
            assert(rest[i] == s[i]);
        }
        assert(rest[rest.len() - (k - 1) - 1] == s[s.len() - k - 1]);
        lemma_trailing(rest, k - 1);
    }
}

/// Removes the whitespace that a text begins and ends with.
pub fn trim(s: &str) -> (inner: &str)
    ensures
        inner@ == trimmed(s@),
{
    let n = s.unicode_len();
    let mut a: usize = 0;
    while a < n && is_whitespace(s.get_char(a))
        invariant
            a <= n,
            n == s@.len(),
            forall|i: int| 0 <= i < a ==> white_space(#[trigger] s@[i]),
        decreases n - a,
    {
        a += 1;
    }
    proof {
        lemma_leading(s@, a as int);
    }
    if a == n {
        let nothing = s.substring_char(n, n);
        assert(nothing@ =~= Seq::<char>::empty());
        return nothing;
    }
    let mut b: usize = n;
    while b > a + 1 && is_whitespace(s.get_char(b - 1))
        invariant
            a < b <= n,
            n == s@.len(),
            !white_space(s@[a as int]),
            forall|i: int| b <= i < n ==> white_space(#[trigger] s@[i]),
        decreases b,
    {
        b -= 1;
    }
    proof {
        lemma_trailing(s@, n - b);
    }
    s.substring_char(a, b)
}

/// Whether `text` ends with `suffix`.
pub open spec fn ends_with(text: Seq<char>, suffix: Seq<char>) -> bool {
    suffix.len() <= text.len() && text.subrange(text.len() - suffix.len(), text.len() as int)
        == suffix
}

/// Removes a suffix with `str::strip_suffix`: `Some` exactly where the text ends
/// with the suffix, and then the text before it.
#[verifier::external_body]
pub(crate) fn strip_suffix<'a>(text: &'a str, suffix: &str) -> (rest: Option<&'a str>)
    ensures
        rest.is_some() == ends_with(text@, suffix@),
        rest matches Some(r) ==> r@ == text@.take(text@.len() - suffix@.len()),
{
    text.strip_suffix(suffix)
}

/// Whether `needle` occurs in `text` as a run of consecutive characters.
pub open spec fn occurs_in(needle: Seq<char>, text: Seq<char>) -> bool {
    exists|i: int|
        0 <= i && i + needle.len() <= text.len() && #[trigger] text.subrange(
            i,
            i + needle.len(),
        ) == needle
}

/// Searches a text with `str::contains`: whether the needle occurs in it.
#[verifier::external_body]
pub(crate) fn contains_text(text: &str, needle: &str) -> (found: bool)
    ensures
        found == occurs_in(needle@, text@),
{
    text.contains(needle)
}

/// The position of the first line feed of a text, or its length where it has none.
pub open spec fn line_end(text: Seq<char>) -> int
    decreases text.len(),
{
    if text.len() == 0 || text[0] == '\n' {
        0
    } else {
        1 + line_end(text.skip(1))
    }
}

/// A line without the carriage return that it ends with, if it ends with one.
pub open spec fn without_cr(line: Seq<char>) -> Seq<char> {
    if line.len() > 0 && line.last() == '\r' {
        line.drop_last()
    } else {
        line
    }
}

/// The lines of a text: the text is split at every line feed. A line loses the
/// line feed that ends it and a carriage return just before that line feed. The
/// text after the last line feed is a line of its own unless it is empty.
pub open spec fn lines_of(text: Seq<char>) -> Seq<Seq<char>>
    decreases text.len(),
{
    if text.len() == 0 {
        Seq::empty()
    } else if 0 <= line_end(text) < text.len() {
        seq![without_cr(text.take(line_end(text)))] + lines_of(text.skip(line_end(text) + 1))
    } else {
        seq![text]
    }
}

/// Splits a text into its lines with `str::lines`, which splits at line feeds and
/// drops the line feed and a carriage return before it from every line.
#[verifier::external_body]
pub(crate) fn lines(text: &str) -> (all: Vec<&str>)
    ensures
        all@.len() == lines_of(text@).len(),
        forall|i: int| 0 <= i < all@.len() ==> (#[trigger] all@[i])@ == lines_of(text@)[i],
{
    text.lines().collect()
}

/// Bytes read as text with every invalid sequence replaced, as
/// `String::from_utf8_lossy` reads them.
pub uninterp spec fn lossy_text(bytes: Seq<u8>) -> Seq<char>;

/// Reads bytes as text with `String::from_utf8_lossy`. The result is taken on trust
/// to be the text that `lossy_text` names; nothing else is claimed about it.
#[verifier::external_body]
pub(crate) fn utf8_lossy(bytes: &[u8]) -> (text: String)
    ensures
        text@ == lossy_text(bytes@),
{
    String::from_utf8_lossy(bytes).into_owned()
}

/// Reads bytes as UTF-8 text with `std::str::from_utf8`: `Some` exactly where the
/// bytes are valid UTF-8, and then the text that encodes to those bytes.
#[verifier::external_body]
pub(crate) fn utf8_text(bytes: &[u8]) -> (text: Option<&str>)
    ensures
        text.is_some() == valid_utf8(bytes@),
        text matches Some(t) ==> encode_utf8(t@) == bytes@,
{
    std::str::from_utf8(bytes).ok()
}

/// Whether two texts hold the same characters.
pub fn same_text(a: &str, b: &str) -> (same: bool)
    ensures
        same == (a@ == b@),
{
    let left = a.as_bytes();
    let right = b.as_bytes();
    proof {
        vstd::utf8::encode_utf8_decode_utf8(a@);
        vstd::utf8::encode_utf8_decode_utf8(b@);
    }
    if left.len() != right.len() {
        return false;
    }
    let mut i: usize = 0;
    while i < left.len()
        invariant
            i <= left@.len(),
            left@.len() == right@.len(),
            left@ == encode_utf8(a@),
            right@ == encode_utf8(b@),
            forall|j: int| 0 <= j < i ==> left@[j] == right@[j],
        decreases left.len() - i,
    {
        if left[i] != right[i] {
            return false;
        }
        i += 1;
    }
    assert(left@ =~= right@);
    true
}

/// Whether a byte is one of the ASCII digits `0` to `9`.
pub open spec fn is_digit(b: u8) -> bool {
    0x30 <= b <= 0x39
}

/// Whether every byte is an ASCII digit.
pub open spec fn all_digits(bytes: Seq<u8>) -> bool {
    forall|i: int| 0 <= i < bytes.len() ==> is_digit(#[trigger] bytes[i])
}

/// The number that a run of ASCII digits writes in base ten.
pub open spec fn digits_value(digits: Seq<u8>) -> nat
    decreases digits.len(),
{
    if digits.len() == 0 {
        0
    } else {
        digits_value(digits.drop_last()) * 10 + (digits.last() - 0x30) as nat
    }
}

/// The text without one leading `+`.
pub open spec fn without_plus(bytes: Seq<u8>) -> Seq<u8> {
    if bytes.len() > 0 && bytes[0] == 0x2b {
        bytes.skip(1)
    } else {
        bytes
    }
}

/// The `u64` that a text writes in base ten: an optional `+`, then one or more ASCII
/// digits and nothing else, with a value that fits. Everything else is no number.
pub open spec fn decimal_u64(bytes: Seq<u8>) -> Option<u64> {
    let digits = without_plus(bytes);
    if digits.len() > 0 && all_digits(digits) && digits_value(digits) <= u64::MAX {
        Some(digits_value(digits) as u64)
    } else {
        None
    }
}

/// A run of digits writes a number no smaller than any of its prefixes does.
pub proof fn lemma_digits_value_grows(digits: Seq<u8>, k: int)
    requires
        0 <= k <= digits.len(),
        all_digits(digits),
    ensures
        digits_value(digits.take(k)) <= digits_value(digits),
    decreases digits.len() - k,
{
    if k < digits.len() {
        lemma_digits_value_grows(digits, k + 1);
        assert(digits.take(k + 1).drop_last() =~= digits.take(k));
        assert(is_digit(digits[k]));
    } else {
        assert(digits.take(k) =~= digits);
    }
}

/// Reads a `u64` written in base ten.
pub fn parse_u64(text: &[u8]) -> (value: Option<u64>)
    ensures
        value == decimal_u64(text@),
{
    let n = text.len();
    let start: usize = if n > 0 && text[0] == 0x2b {
        1
    } else {
        0
    };
    let ghost digits = without_plus(text@);
    if start == n {
        return None;
    }
    let mut total: u64 = 0;
    let mut i: usize = start;
    assert(digits.take(0) =~= Seq::<u8>::empty());
    while i < n
        invariant
            start <= i <= n,
            n == text@.len(),
            start <= 1,
            digits == text@.skip(start as int),
            digits == without_plus(text@),
            all_digits(digits.take(i - start)),
            total == digits_value(digits.take(i - start)),
        decreases n - i,
    {
        let b = text[i];
        assert(digits[i - start] == b);
        if b < 0x30 || b > 0x39 {
            assert(!is_digit(digits[i - start]));
            return None;
        }
        let ghost longer = digits.take(i - start + 1);
        proof {
            assert(longer.drop_last() =~= digits.take(i - start));
            assert(longer.last() == b);
            assert forall|j: int| 0 <= j < longer.len() implies is_digit(#[trigger] longer[j]) by {
                if j < i - start {
                    assert(digits.take(i - start)[j] == longer[j]);
                }
            }
        }
        let next = match total.checked_mul(10) {
            Some(scaled) => scaled.checked_add((b - 0x30) as u64),
            None => None,
        };
        match next {
            Some(sum) => {
                total = sum;
            },
            None => {
                proof {
                    assert(digits_value(longer) > u64::MAX);
                    if all_digits(digits) {
                        lemma_digits_value_grows(digits, i - start + 1);
                    }
                }
                return None;
            },
        }
        i += 1;
    }
    assert(digits.take(i - start) =~= digits);
    Some(total)
}

/// A count as it is reported: `u64::MAX` stands for every count beyond it.
pub open spec fn capped(bytes: nat) -> u64 {
    if bytes > u64::MAX {
        u64::MAX
    } else {
        bytes as u64
    }
}

/// Adds two counts, reporting `u64::MAX` for a sum beyond it.
pub fn add_capped(total: u64, more: u64) -> (sum: u64)
    ensures
        sum == capped((total + more) as nat),
{
    match total.checked_add(more) {
        Some(sum) => sum,
        None => u64::MAX,
    }
}

/// The character that writes a digit below sixteen: `0` to `9`, then `a` to `f`.
pub open spec fn digit_char(d: int) -> char {
    if d == 0 {
        '0'
    } else if d == 1 {
        '1'
    } else if d == 2 {
        '2'
    } else if d == 3 {
        '3'
    } else if d == 4 {
        '4'
    } else if d == 5 {
        '5'
    } else if d == 6 {
        '6'
    } else if d == 7 {
        '7'
    } else if d == 8 {
        '8'
    } else if d == 9 {
        '9'
    } else if d == 10 {
        'a'
    } else if d == 11 {
        'b'
    } else if d == 12 {
        'c'
    } else if d == 13 {
        'd'
    } else if d == 14 {
        'e'
    } else {
        'f'
    }
}

/// A number written in a base with exactly the given count of digits, the most
/// significant first; digits beyond the count are dropped.
pub open spec fn fixed_digits(value: int, base: int, count: nat) -> Seq<char>
    decreases count,
{
    if count == 0 {
        Seq::empty()
    } else {
        fixed_digits(value / base, base, (count - 1) as nat).push(digit_char(value % base))
    }
}

/// The number of decimal digits that a number is written with.
pub open spec fn decimal_width(value: int) -> nat
    decreases value,
{
    if value < 10 {
        1
    } else {
        1 + decimal_width(value / 10)
    }
}

/// A number written in base ten, without leading zeros.
pub open spec fn decimal_text(value: int) -> Seq<char> {
    fixed_digits(value, 10, decimal_width(value))
}

/// A number written in base ten with zeros in front up to a width.
pub open spec fn padded_decimal(value: int, width: nat) -> Seq<char> {
    if decimal_width(value) < width {
        fixed_digits(value, 10, width)
    } else {
        decimal_text(value)
    }
}

/// A number written with sixteen hexadecimal digits.
pub open spec fn hex_text(value: int, digits: nat) -> Seq<char> {
    fixed_digits(value, 16, digits)
}

fn digit_text(d: u64) -> (text: &'static str)
    requires
        d < 16,
    ensures
        text@ == seq![digit_char(d as int)],
{
    proof {
        reveal_strlit("0");
        reveal_strlit("1");
        reveal_strlit("2");
        reveal_strlit("3");
        reveal_strlit("4");
        reveal_strlit("5");
        reveal_strlit("6");
        reveal_strlit("7");
        reveal_strlit("8");
        reveal_strlit("9");
        reveal_strlit("a");
        reveal_strlit("b");
        reveal_strlit("c");
        reveal_strlit("d");
        reveal_strlit("e");
        reveal_strlit("f");
    }
    let text = if d == 0 {
        "0"
    } else if d == 1 {
        "1"
    } else if d == 2 {
        "2"
    } else if d == 3 {
        "3"
    } else if d == 4 {
        "4"
    } else if d == 5 {
        "5"
    } else if d == 6 {
        "6"
    } else if d == 7 {
        "7"
    } else if d == 8 {
        "8"
    } else if d == 9 {
        "9"
    } else if d == 10 {
        "a"
    } else if d == 11 {
        "b"
    } else if d == 12 {
        "c"
    } else if d == 13 {
        "d"
    } else if d == 14 {
        "e"
    } else {
        "f"
    };
    assert(text@ =~= seq![digit_char(d as int)]);
    text
}

/// The characters of the lowest `n` of the digits, the most significant of them
/// first. The digits are given from the least significant up.
pub open spec fn low_digits(digits: Seq<u64>, n: nat) -> Seq<char>
    decreases n,
{
    if n == 0 {
        Seq::empty()
    } else {
        seq![digit_char(digits[n - 1] as int)] + low_digits(digits, (n - 1) as nat)
    }
}

/// The characters of the lowest digits depend on those digits only.
proof fn lemma_low_digits_prefix(longer: Seq<u64>, shorter: Seq<u64>, n: nat)
    requires
        n <= shorter.len() <= longer.len(),
        forall|j: int| 0 <= j < shorter.len() ==> longer[j] == shorter[j],
    ensures
        low_digits(longer, n) == low_digits(shorter, n),
    decreases n,
{
    if n > 0 {
        lemma_low_digits_prefix(longer, shorter, (n - 1) as nat);
    }
}

/// Writes a number in a base with exactly `count` digits.
fn write_fixed(value: u64, base: u64, count: usize) -> (text: String)
    requires
        2 <= base <= 16,
    ensures
        text@ == fixed_digits(value as int, base as int, count as nat),
{
    // The digits from the least significant up.
    let mut digits: Vec<u64> = Vec::new();
    let mut rest = value;
    let mut k: usize = 0;
    assert(fixed_digits(value as int, base as int, count as nat) + low_digits(digits@, 0)
        =~= fixed_digits(value as int, base as int, count as nat));
    while k < count
        invariant
            k <= count,
            2 <= base <= 16,
            digits@.len() == k,
            forall|j: int| 0 <= j < k ==> (#[trigger] digits@[j]) < 16,
            fixed_digits(value as int, base as int, count as nat) == fixed_digits(
                rest as int,
                base as int,
                (count - k) as nat,
            ) + low_digits(digits@, k as nat),
        decreases count - k,
    {
        let ghost before = digits@;
        digits.push(rest % base);
        proof {
            lemma_low_digits_prefix(digits@, before, k as nat);
            let head = fixed_digits(rest as int / base as int, base as int, (count - k - 1) as nat);
            let digit = digit_char(rest as int % base as int);
            assert(fixed_digits(rest as int, base as int, (count - k) as nat) == head.push(digit));
            assert(low_digits(digits@, (k + 1) as nat) == seq![digit] + low_digits(before, k as nat));
            assert(head.push(digit) + low_digits(before, k as nat) =~= head + (seq![digit]
                + low_digits(before, k as nat)));
        }
        rest = rest / base;
        k += 1;
    }
    let mut text = String::new();
    let mut p: usize = count;
    assert(text@ + low_digits(digits@, p as nat) =~= low_digits(digits@, count as nat));
    while p > 0
        invariant
            p <= count,
            digits@.len() == count,
            forall|j: int| 0 <= j < count ==> (#[trigger] digits@[j]) < 16,
            text@ + low_digits(digits@, p as nat) == low_digits(digits@, count as nat),
        decreases p,
    {
        p -= 1;
        let ghost before = text@;
        text.append(digit_text(digits[p]));
        proof {
            let digit = seq![digit_char(digits@[p as int] as int)];
            assert(low_digits(digits@, (p + 1) as nat) == digit + low_digits(digits@, p as nat));
            assert((before + digit) + low_digits(digits@, p as nat) =~= before + (digit
                + low_digits(digits@, p as nat)));
        }
    }
    assert(text@ + low_digits(digits@, 0) =~= text@);
    assert(fixed_digits(rest as int, base as int, 0) + low_digits(digits@, count as nat)
        =~= low_digits(digits@, count as nat));
    text
}

/// Writes a number with sixteen hexadecimal digits.
pub fn hex16(value: u64) -> (text: String)
    ensures
        text@ == hex_text(value as int, 16),
{
    write_fixed(value, 16, 16)
}

/// Counts the decimal digits of a number.
fn width_of(value: u64) -> (width: usize)
    ensures
        width == decimal_width(value as int),
        1 <= width <= 20,
{
    let mut width: usize = 1;
    let mut rest = value;
    while rest >= 10
        invariant
            1 <= width,
            width + decimal_width(rest as int) == 1 + decimal_width(value as int),
            rest as int * pow10((width - 1) as nat) <= value,
            width <= 20,
        decreases rest,
    {
        proof {
            lemma_pow10_step(rest as int, (width - 1) as nat, value as int);
        }
        rest = rest / 10;
        width += 1;
    }
    width
}

/// Ten to the power `n`.
pub open spec fn pow10(n: nat) -> int
    decreases n,
{
    if n == 0 {
        1
    } else {
        10 * pow10((n - 1) as nat)
    }
}

/// A number of at least two digits above a power of ten keeps the count of digits
/// within that of a `u64`.
proof fn lemma_pow10_step(rest: int, n: nat, value: int)
    requires
        rest >= 10,
        rest * pow10(n) <= value,
        value <= u64::MAX,
    ensures
        (rest / 10) * pow10(n + 1) <= value,
        n + 2 <= 20,
{
    lemma_pow10_positive(n);
    assert((rest / 10) * pow10(n + 1) == (rest / 10) * 10 * pow10(n)) by (nonlinear_arith)
        requires
            pow10(n + 1) == 10 * pow10(n),
    ;
    assert((rest / 10) * 10 * pow10(n) <= rest * pow10(n)) by (nonlinear_arith)
        requires
            (rest / 10) * 10 <= rest,
            pow10(n) >= 0,
    ;
    lemma_pow10_positive(n);
    if n + 2 > 20 {
        lemma_pow10_grows(19, n);
        assert(pow10(19) == 10_000_000_000_000_000_000int) by {
            reveal_with_fuel(pow10, 20);
        }
        assert(rest * pow10(n) >= 10 * pow10(19)) by (nonlinear_arith)
            requires
                rest >= 10,
                pow10(n) >= pow10(19),
                pow10(19) > 0,
        ;
    }
}

proof fn lemma_pow10_positive(n: nat)
    ensures
        pow10(n) > 0,
    decreases n,
{
    if n > 0 {
        lemma_pow10_positive((n - 1) as nat);
    }
}

proof fn lemma_pow10_grows(m: nat, n: nat)
    requires
        m <= n,
    ensures
        pow10(m) <= pow10(n),
    decreases n,
{
    if n > m {
        lemma_pow10_grows(m, (n - 1) as nat);
        lemma_pow10_positive((n - 1) as nat);
    }
}

/// Writes a number in base ten.
pub fn to_decimal(value: u64) -> (text: String)
    ensures
        text@ == decimal_text(value as int),
{
    write_fixed(value, 10, width_of(value))
}

/// Writes a number in base ten with zeros in front up to a width.
pub fn to_padded_decimal(value: u64, width: usize) -> (text: String)
    ensures
        text@ == padded_decimal(value as int, width as nat),
{
    let needed = width_of(value);
    if needed < width {
        write_fixed(value, 10, width)
    } else {
        write_fixed(value, 10, needed)
    }
}

} // verus!
