//! Text primitives shared by the catalogue code: comparing and building
//! strings, reading and writing numbers, and trimming, each stated over the
//! sequence of characters a string holds.

use vstd::prelude::*;

verus! {

/// `str` comparison from std (`<str as PartialEq>::eq`): two strings compare
/// equal exactly when they hold the same characters.
pub assume_specification[ <str as PartialEq>::eq ](a: &str, b: &str) -> (r: bool)
    ensures
        r == (a@ == b@),
;

/// `String::push` from std: appends one character at the end.
pub assume_specification[ String::push ](s: &mut String, c: char)
    ensures
        final(s)@ == old(s)@.push(c),
;

/// Whether two strings hold the same text.
pub fn str_eq(a: &str, b: &str) -> (r: bool)
    ensures
        r == (a@ == b@),
{
    *a == *b
}

/// An owned copy of `s`.
pub fn owned(s: &str) -> (r: String)
    ensures
        r@ == s@,
{
    String::from_str(s)
}

/// The characters of `s`, in order.
pub fn chars_of(s: &str) -> (r: Vec<char>)
    ensures
        r@ == s@,
{
    let mut out: Vec<char> = Vec::new();
    for c in it: s.chars()
        invariant
            out@ == s@.take(it.index() as int),
            it.seq() == s@,
    {
        out.push(c);
    }
    assert(s@.take(s@.len() as int) == s@);
    out
}

/// The string holding exactly the characters `cs`.
pub fn string_of(cs: &[char]) -> (r: String)
    ensures
        r@ == cs@,
{
    let mut out = String::new();
    for i in 0..cs.len()
        invariant
            out@ == cs@.take(i as int),
    {
        out.push(cs[i]);
        assert(cs@.take(i as int).push(cs@[i as int]) == cs@.take(i + 1));
    }
    assert(cs@.take(cs@.len() as int) == cs@);
    out
}

/// An uppercase hexadecimal digit.
pub open spec fn hex_digit(n: int) -> char {
    if n == 0 {
        '0'
    } else if n == 1 {
        '1'
    } else if n == 2 {
        '2'
    } else if n == 3 {
        '3'
    } else if n == 4 {
        '4'
    } else if n == 5 {
        '5'
    } else if n == 6 {
        '6'
    } else if n == 7 {
        '7'
    } else if n == 8 {
        '8'
    } else if n == 9 {
        '9'
    } else if n == 10 {
        'A'
    } else if n == 11 {
        'B'
    } else if n == 12 {
        'C'
    } else if n == 13 {
        'D'
    } else if n == 14 {
        'E'
    } else {
        'F'
    }
}

/// The uppercase hexadecimal digit of a value below sixteen.
pub fn digit_char(n: u8) -> (r: char)
    requires
        n < 16,
    ensures
        r == hex_digit(n as int),
{
    match n {
        0 => '0',
        1 => '1',
        2 => '2',
        3 => '3',
        4 => '4',
        5 => '5',
        6 => '6',
        7 => '7',
        8 => '8',
        9 => '9',
        10 => 'A',
        11 => 'B',
        12 => 'C',
        13 => 'D',
        14 => 'E',
        _ => 'F',
    }
}

/// A byte as two uppercase hexadecimal digits.
pub open spec fn hex_pair(value: u8) -> Seq<char> {
    seq![hex_digit(value as int / 16), hex_digit(value as int % 16)]
}

/// A byte as `0x` and two uppercase hexadecimal digits.
pub fn byte_hex(value: u8) -> (r: String)
    ensures
        r@ == "0x"@ + hex_pair(value),
{
    let mut out = owned("0x");
    out.push(digit_char(value / 16));
    out.push(digit_char(value % 16));
    assert(out@ == "0x"@ + hex_pair(value));
    out
}

// ---------------------------------------------------------------------------
// Writing numbers
// ---------------------------------------------------------------------------

/// A natural number in decimal, without leading zeros.
pub open spec fn decimal(n: nat) -> Seq<char>
    decreases n,
{
    if n < 10 {
        seq![hex_digit(n as int)]
    } else {
        decimal(n / 10).push(hex_digit((n % 10) as int))
    }
}

/// An integer in decimal, with a minus sign where it is negative.
pub open spec fn signed_decimal(n: int) -> Seq<char> {
    if n < 0 {
        seq!['-'] + decimal((-n) as nat)
    } else {
        decimal(n as nat)
    }
}

/// Text padded on the left with zeros to at least `width` characters.
pub open spec fn zero_padded(text: Seq<char>, width: int) -> Seq<char>
    decreases width - text.len(),
{
    if text.len() >= width {
        text
    } else {
        zero_padded(seq!['0'] + text, width)
    }
}

/// Append a natural number in decimal.
pub fn push_decimal(out: &mut String, n: u128)
    ensures
        final(out)@ == old(out)@ + decimal(n as nat),
    decreases n,
{
    let ghost before = out@;
    if n >= 10 {
        push_decimal(out, n / 10);
    }
    out.push(digit_char((n % 10) as u8));
    assert(out@ == before + decimal(n as nat));
}

/// Append an integer in decimal.
pub fn push_signed(out: &mut String, n: i128)
    requires
        n > i128::MIN,
    ensures
        final(out)@ == old(out)@ + signed_decimal(n as int),
{
    let ghost before = out@;
    if n < 0 {
        out.push('-');
        push_decimal(out, (-n) as u128);
        assert(out@ == before + (seq!['-'] + decimal((-n) as nat)));
    } else {
        push_decimal(out, n as u128);
    }
}

/// How many digits a natural number has in decimal.
pub proof fn lemma_decimal_length(n: nat)
    ensures
        decimal(n).len() >= 1,
        n < 10 ==> decimal(n).len() == 1,
        10 <= n < 100 ==> decimal(n).len() == 2,
        100 <= n < 1000 ==> decimal(n).len() == 3,
        1000 <= n < 10000 ==> decimal(n).len() == 4,
        n >= 10000 ==> decimal(n).len() >= 5,
    decreases n,
{
    if n >= 10 {
        lemma_decimal_length(n / 10);
    }
}

/// Append a natural number in decimal, padded with zeros to two digits.
pub fn push_two_digits(out: &mut String, n: u128)
    ensures
        final(out)@ == old(out)@ + zero_padded(decimal(n as nat), 2),
{
    let ghost before = out@;
    proof {
        lemma_decimal_length(n as nat);
        reveal_with_fuel(zero_padded, 2);
    }
    if n < 10 {
        out.push('0');
    }
    push_decimal(out, n);
    assert(out@ == before + zero_padded(decimal(n as nat), 2));
}

/// A natural number in uppercase hexadecimal, without leading zeros.
pub open spec fn hexadecimal(n: nat) -> Seq<char>
    decreases n,
{
    if n < 16 {
        seq![hex_digit(n as int)]
    } else {
        hexadecimal(n / 16).push(hex_digit((n % 16) as int))
    }
}

/// Append a natural number in uppercase hexadecimal.
pub fn push_hexadecimal(out: &mut String, n: u128)
    ensures
        final(out)@ == old(out)@ + hexadecimal(n as nat),
    decreases n,
{
    let ghost before = out@;
    if n >= 16 {
        push_hexadecimal(out, n / 16);
    }
    out.push(digit_char((n % 16) as u8));
    assert(out@ == before + hexadecimal(n as nat));
}

/// Append text to a string.
pub fn push_text(out: &mut String, text: &str)
    ensures
        final(out)@ == old(out)@ + text@,
{
    out.append(text);
}

// ---------------------------------------------------------------------------
// Trimming and looking
// ---------------------------------------------------------------------------

/// Whether a character is white space: one of the Unicode property White_Space.
pub open spec fn is_space(c: char) -> bool {
    let n = c as u32;
    ||| 0x9 <= n <= 0xD
    ||| n == 0x20
    ||| n == 0x85
    ||| n == 0xA0
    ||| n == 0x1680
    ||| 0x2000 <= n <= 0x200A
    ||| n == 0x2028
    ||| n == 0x2029
    ||| n == 0x202F
    ||| n == 0x205F
    ||| n == 0x3000
}

fn char_is_space(c: char) -> (r: bool)
    ensures
        r == is_space(c),
{
    let n: u32 = c as u32;
    (0x9 <= n && n <= 0xD) || n == 0x20 || n == 0x85 || n == 0xA0 || n == 0x1680 || (0x2000 <= n
        && n <= 0x200A) || n == 0x2028 || n == 0x2029 || n == 0x202F || n == 0x205F || n == 0x3000
}

/// Text without leading white space.
pub open spec fn trimmed_start(s: Seq<char>) -> Seq<char>
    decreases s.len(),
{
    if s.len() > 0 && is_space(s[0]) {
        trimmed_start(s.skip(1))
    } else {
        s
    }
}

/// Text without trailing white space.
pub open spec fn trimmed_end(s: Seq<char>) -> Seq<char>
    decreases s.len(),
{
    if s.len() > 0 && is_space(s.last()) {
        trimmed_end(s.drop_last())
    } else {
        s
    }
}

/// Text without white space at either end.
pub open spec fn trimmed(s: Seq<char>) -> Seq<char> {
    trimmed_end(trimmed_start(s))
}

/// The characters without white space at either end.
pub fn trim_chars(s: &[char]) -> (r: Vec<char>)
    ensures
        r@ == trimmed(s@),
{
    let mut start: usize = 0;
    assert(s@.skip(0) == s@);
    while start < s.len() && char_is_space(s[start])
        invariant
            start <= s@.len(),
            trimmed_start(s@) == trimmed_start(s@.skip(start as int)),
        decreases s@.len() - start,
    {
        assert(s@.skip(start as int)[0] == s@[start as int]);
        assert(s@.skip(start as int).skip(1) == s@.skip(start + 1));
        start = start + 1;
    }
    let ghost front = s@.skip(start as int);
    assert(start < s@.len() ==> front[0] == s@[start as int]);
    assert(trimmed_start(s@) == front);
    let mut end: usize = s.len();
    assert(s@.subrange(start as int, end as int) == front);
    while end > start && char_is_space(s[end - 1])
        invariant
            start <= end <= s@.len(),
            trimmed_end(front) == trimmed_end(s@.subrange(start as int, end as int)),
        decreases end,
    {
        let ghost now = s@.subrange(start as int, end as int);
        assert(now.last() == s@[end - 1]);
        assert(now.drop_last() == s@.subrange(start as int, end - 1));
        end = end - 1;
    }
    assert(end > start ==> s@.subrange(start as int, end as int).last() == s@[end - 1]);
    let part = vstd::slice::slice_subrange(s, start, end);
    vstd::slice::slice_to_vec(part)
}

/// Whether the text starts with `prefix`.
pub open spec fn starts_with(s: Seq<char>, prefix: Seq<char>) -> bool {
    prefix.len() <= s.len() && s.take(prefix.len() as int) == prefix
}

/// The text after a `0x` or `0X`, if it starts with one.
pub open spec fn after_hex_prefix(s: Seq<char>) -> Option<Seq<char>> {
    if s.len() >= 2 && s[0] == '0' && (s[1] == 'x' || s[1] == 'X') {
        Some(s.skip(2))
    } else {
        None
    }
}

/// The characters after a `0x` or `0X`, if they start with one.
pub fn strip_hex_prefix(s: &[char]) -> (r: Option<Vec<char>>)
    ensures
        match r {
            Some(rest) => after_hex_prefix(s@) == Some(rest@),
            None => after_hex_prefix(s@) is None,
        },
{
    if s.len() >= 2 && s[0] == '0' && (s[1] == 'x' || s[1] == 'X') {
        let part = vstd::slice::slice_subrange(s, 2, s.len());
        assert(s@.subrange(2, s@.len() as int) == s@.skip(2));
        Some(vstd::slice::slice_to_vec(part))
    } else {
        None
    }
}

/// Whether a character is an ASCII digit.
pub open spec fn is_digit(c: char) -> bool {
    '0' <= c && c <= '9'
}

/// Whether a character is an ASCII letter.
pub open spec fn is_letter(c: char) -> bool {
    ('a' <= c && c <= 'z') || ('A' <= c && c <= 'Z')
}

/// Whether a character is an ASCII letter, an ASCII digit or an underscore.
pub open spec fn is_word(c: char) -> bool {
    is_letter(c) || is_digit(c) || c == '_'
}

/// Whether a character is an ASCII digit.
pub fn char_is_digit(c: char) -> (r: bool)
    ensures
        r == is_digit(c),
{
    '0' <= c && c <= '9'
}

/// Whether a character is an ASCII letter, an ASCII digit or an underscore.
pub fn char_is_word(c: char) -> (r: bool)
    ensures
        r == is_word(c),
{
    ('a' <= c && c <= 'z') || ('A' <= c && c <= 'Z') || ('0' <= c && c <= '9') || c == '_'
}

/// Whether a text is one or more ASCII digits.
pub open spec fn all_digits(s: Seq<char>) -> bool {
    s.len() > 0 && forall|i: int| 0 <= i < s.len() ==> is_digit(#[trigger] s[i])
}

/// Whether the characters are one or more ASCII digits.
pub fn are_digits(s: &[char]) -> (r: bool)
    ensures
        r == all_digits(s@),
{
    for i in 0..s.len()
        invariant
            forall|j: int| 0 <= j < i ==> is_digit(#[trigger] s@[j]),
    {
        if !char_is_digit(s[i]) {
            return false;
        }
    }
    s.len() > 0
}

/// Whether every character is an ASCII letter, digit or underscore.
pub open spec fn all_word(s: Seq<char>) -> bool {
    forall|i: int| 0 <= i < s.len() ==> is_word(#[trigger] s[i])
}

/// Whether every character is an ASCII letter, digit or underscore.
pub fn are_word(s: &[char]) -> (r: bool)
    ensures
        r == all_word(s@),
{
    for i in 0..s.len()
        invariant
            forall|j: int| 0 <= j < i ==> is_word(#[trigger] s@[j]),
    {
        if !char_is_word(s[i]) {
            return false;
        }
    }
    true
}

// ---------------------------------------------------------------------------
// Reading numbers
// ---------------------------------------------------------------------------

/// What a character counts for as a digit, 16 or more where it is none.
pub open spec fn digit_value(c: char) -> int {
    if '0' <= c && c <= '9' {
        c as int - '0' as int
    } else if 'a' <= c && c <= 'f' {
        c as int - 'a' as int + 10
    } else if 'A' <= c && c <= 'F' {
        c as int - 'A' as int + 10
    } else {
        16
    }
}

fn digit_of(c: char) -> (r: u8)
    ensures
        r == digit_value(c),
{
    if '0' <= c && c <= '9' {
        (c as u32 - '0' as u32) as u8
    } else if 'a' <= c && c <= 'f' {
        (c as u32 - 'a' as u32) as u8 + 10
    } else if 'A' <= c && c <= 'F' {
        (c as u32 - 'A' as u32) as u8 + 10
    } else {
        16
    }
}

/// Whether a text is one or more digits of the radix.
pub open spec fn is_numeral(s: Seq<char>, radix: int) -> bool {
    s.len() > 0 && forall|i: int| 0 <= i < s.len() ==> digit_value(#[trigger] s[i]) < radix
}

/// The number the digits spell.
pub open spec fn numeral_value(s: Seq<char>, radix: int) -> int
    decreases s.len(),
{
    if s.len() == 0 {
        0
    } else {
        numeral_value(s.drop_last(), radix) * radix + digit_value(s.last())
    }
}

/// The natural number a text spells, with an optional plus sign before it.
pub open spec fn natural(s: Seq<char>, radix: int) -> Option<int> {
    let digits = if s.len() > 0 && s[0] == '+' {
        s.skip(1)
    } else {
        s
    };
    if is_numeral(digits, radix) {
        Some(numeral_value(digits, radix))
    } else {
        None
    }
}

/// The integer a text spells, with an optional sign before it.
pub open spec fn integer(s: Seq<char>, radix: int) -> Option<int> {
    if s.len() > 0 && s[0] == '-' {
        if is_numeral(s.skip(1), radix) {
            Some(-numeral_value(s.skip(1), radix))
        } else {
            None
        }
    } else {
        natural(s, radix)
    }
}

/// A number, where it lies in a range.
pub open spec fn within(n: Option<int>, low: int, high: int) -> Option<int> {
    match n {
        Some(v) => if low <= v <= high {
            n
        } else {
            None
        },
        None => None,
    }
}

proof fn lemma_numeral_grows(s: Seq<char>, radix: int, k: int)
    requires
        2 <= radix <= 16,
        0 <= k <= s.len(),
        forall|i: int| 0 <= i < s.len() ==> digit_value(#[trigger] s[i]) < radix,
    ensures
        0 <= numeral_value(s.take(k), radix) <= numeral_value(s, radix),
    decreases s.len(),
{
    if k == s.len() {
        assert(s.take(k) == s);
        lemma_numeral_nonnegative(s, radix);
    } else {
        let front = s.drop_last();
        assert forall|i: int| 0 <= i < front.len() implies digit_value(#[trigger] front[i])
            < radix by {
            assert(front[i] == s[i]);
        }
        lemma_numeral_grows(front, radix, k);
        assert(front.take(k) == s.take(k));
        let v = numeral_value(front, radix);
        assert(v * radix >= v) by (nonlinear_arith)
            requires
                v >= 0,
                radix >= 2,
        ;
    }
}

proof fn lemma_numeral_nonnegative(s: Seq<char>, radix: int)
    requires
        radix >= 2,
    ensures
        numeral_value(s, radix) >= 0,
    decreases s.len(),
{
    if s.len() > 0 {
        lemma_numeral_nonnegative(s.drop_last(), radix);
        let v = numeral_value(s.drop_last(), radix);
        assert(v * radix >= 0) by (nonlinear_arith)
            requires
                v >= 0,
                radix >= 2,
        ;
    }
}

/// Whether the characters are digits of a base, at least one.
pub fn are_numeral(s: &[char], radix: u32) -> (r: bool)
    requires
        2 <= radix <= 16,
    ensures
        r == is_numeral(s@, radix as int),
{
    if s.len() == 0 {
        return false;
    }
    for i in 0..s.len()
        invariant
            s@.len() > 0,
            forall|j: int| 0 <= j < i ==> digit_value(#[trigger] s@[j]) < radix,
    {
        if digit_of(s[i]) as u32 >= radix {
            return false;
        }
    }
    true
}

/// The number the digits from `from` on spell, where it is at most `max`.
fn read_digits(s: &[char], from: usize, radix: u32, max: u128) -> (r: Option<u128>)
    requires
        2 <= radix <= 16,
        from <= s@.len(),
    ensures
        match r {
            Some(n) => is_numeral(s@.skip(from as int), radix as int) && n == numeral_value(
                s@.skip(from as int),
                radix as int,
            ) && n <= max,
            None => !is_numeral(s@.skip(from as int), radix as int) || numeral_value(
                s@.skip(from as int),
                radix as int,
            ) > max,
        },
{
    let ghost digits = s@.skip(from as int);
    if from == s.len() {
        return None;
    }
    let mut acc: u128 = 0;
    let mut i: usize = from;
    while i < s.len()
        invariant
            from <= i <= s@.len(),
            digits == s@.skip(from as int),
            2 <= radix <= 16,
            acc <= max,
            acc == numeral_value(digits.take(i - from), radix as int),
            forall|j: int|
                0 <= j < i - from ==> digit_value(#[trigger] digits[j]) < radix,
        decreases s@.len() - i,
    {
        let d: u8 = digit_of(s[i]);
        let ghost k = i - from;
        assert(digits[k] == s@[i as int]);
        if d as u32 >= radix {
            return None;
        }
        let ghost next = digits.take(k + 1);
        assert(next.drop_last() == digits.take(k));
        assert(next.last() == digits[k]);
        let radix_wide: u128 = radix as u128;
        let fits: bool = d as u128 <= max && acc <= (max - d as u128) / radix_wide;
        proof {
            if d as u128 <= max {
                let room = max - d;
                vstd::arithmetic::div_mod::lemma_fundamental_div_mod(room as int, radix as int);
                let q = room as int / radix as int;
                if acc <= q {
                    assert(acc * radix <= q * radix) by (nonlinear_arith)
                        requires
                            acc <= q,
                            radix >= 2,
                    ;
                    assert(radix * q == q * radix) by (nonlinear_arith);
                } else {
                    assert(acc * radix >= (q + 1) * radix) by (nonlinear_arith)
                        requires
                            acc >= q + 1,
                            radix >= 2,
                    ;
                    assert((q + 1) * radix == q * radix + radix) by (nonlinear_arith);
                    assert(radix * q == q * radix) by (nonlinear_arith);
                }
            } else {
                assert(acc * radix >= 0) by (nonlinear_arith)
                    requires
                        acc >= 0,
                        radix >= 2,
                ;
            }
        }
        if !fits {
            proof {
                assert(numeral_value(next, radix as int) > max);
                if is_numeral(digits, radix as int) {
                    lemma_numeral_grows(digits, radix as int, k + 1);
                }
            }
            return None;
        }
        acc = acc * radix_wide + d as u128;
        i = i + 1;
    }
    assert(digits.take(digits.len() as int) == digits);
    Some(acc)
}

/// The natural number the characters spell, where it is at most `max`.
pub fn parse_natural(s: &[char], radix: u32, max: u128) -> (r: Option<u128>)
    requires
        2 <= radix <= 16,
    ensures
        match r {
            Some(n) => within(natural(s@, radix as int), 0, max as int) == Some(n as int),
            None => within(natural(s@, radix as int), 0, max as int) is None,
        },
{
    if s.len() > 0 && s[0] == '+' {
        proof {
            lemma_numeral_nonnegative(s@.skip(1), radix as int);
        }
        read_digits(s, 1, radix, max)
    } else {
        assert(s@.skip(0) == s@);
        proof {
            lemma_numeral_nonnegative(s@, radix as int);
        }
        read_digits(s, 0, radix, max)
    }
}

/// The integer the characters spell, where it lies between `min` and `max`.
pub fn parse_integer(s: &[char], radix: u32, min: i128, max: i128) -> (r: Option<i128>)
    requires
        2 <= radix <= 16,
        min <= 0 <= max,
    ensures
        match r {
            Some(n) => within(integer(s@, radix as int), min as int, max as int) == Some(n as int),
            None => within(integer(s@, radix as int), min as int, max as int) is None,
        },
{
    if s.len() > 0 && s[0] == '-' {
        proof {
            lemma_numeral_nonnegative(s@.skip(1), radix as int);
        }
        let limit: u128 = if min == i128::MIN {
            0x8000_0000_0000_0000_0000_0000_0000_0000
        } else {
            (-min) as u128
        };
        match read_digits(s, 1, radix, limit) {
            Some(n) => if n == 0x8000_0000_0000_0000_0000_0000_0000_0000 {
                Some(i128::MIN)
            } else {
                Some(-(n as i128))
            },
            None => None,
        }
    } else {
        match parse_natural(s, radix, max as u128) {
            Some(n) => {
                proof {
                    lemma_natural_nonnegative(s@, radix as int);
                }
                Some(n as i128)
            },
            None => {
                proof {
                    lemma_natural_nonnegative(s@, radix as int);
                }
                None
            },
        }
    }
}

proof fn lemma_natural_nonnegative(s: Seq<char>, radix: int)
    requires
        radix >= 2,
    ensures
        natural(s, radix) matches Some(n) ==> n >= 0,
{
    lemma_numeral_nonnegative(s, radix);
    if s.len() > 0 {
        lemma_numeral_nonnegative(s.skip(1), radix);
    }
}

// ---------------------------------------------------------------------------
// Splitting and joining
// ---------------------------------------------------------------------------

/// The parts between the commas, one more than there are commas.
pub open spec fn comma_parts(s: Seq<char>) -> Seq<Seq<char>>
    decreases s.len(),
{
    if s.len() == 0 {
        seq![Seq::empty()]
    } else {
        let before = comma_parts(s.drop_last());
        if s.last() == ',' {
            before.push(Seq::empty())
        } else {
            before.drop_last().push(before.last().push(s.last()))
        }
    }
}

/// Lists of characters as sequences.
pub open spec fn char_lists(parts: Seq<Vec<char>>) -> Seq<Seq<char>> {
    parts.map_values(|p: Vec<char>| p@)
}

/// The parts between the commas.
pub fn split_commas(s: &[char]) -> (r: Vec<Vec<char>>)
    ensures
        char_lists(r@) == comma_parts(s@),
        r@.len() >= 1,
{
    let mut parts: Vec<Vec<char>> = Vec::new();
    let first: Vec<char> = Vec::new();
    parts.push(first);
    assert(char_lists(parts@) == seq![Seq::<char>::empty()]);
    for i in 0..s.len()
        invariant
            parts@.len() >= 1,
            char_lists(parts@) == comma_parts(s@.take(i as int)),
    {
        let ghost before = char_lists(parts@);
        assert(s@.take(i + 1).drop_last() == s@.take(i as int));
        assert(s@.take(i + 1).last() == s@[i as int]);
        if s[i] == ',' {
            let fresh: Vec<char> = Vec::new();
            parts.push(fresh);
            assert(char_lists(parts@) == before.push(Seq::<char>::empty()));
        } else {
            let last: usize = parts.len() - 1;
            parts[last].push(s[i]);
            assert(char_lists(parts@) == before.drop_last().push(before.last().push(s@[i as int])));
        }
    }
    assert(s@.take(s@.len() as int) == s@);
    parts
}

/// Texts joined by a comma and a space.
pub open spec fn joined(parts: Seq<Seq<char>>) -> Seq<char>
    decreases parts.len(),
{
    if parts.len() == 0 {
        Seq::empty()
    } else if parts.len() == 1 {
        parts[0]
    } else {
        joined(parts.drop_last()) + ", "@ + parts.last()
    }
}

/// Strings as sequences of characters.
pub open spec fn texts(parts: Seq<String>) -> Seq<Seq<char>> {
    parts.map_values(|p: String| p@)
}

/// The strings joined by a comma and a space.
pub fn join(parts: &[String]) -> (r: String)
    ensures
        r@ == joined(texts(parts@)),
{
    let ghost all = texts(parts@);
    let mut out = String::new();
    for i in 0..parts.len()
        invariant
            all == texts(parts@),
            out@ == joined(all.take(i as int)),
    {
        let ghost before = out@;
        assert(all.take(i + 1).drop_last() == all.take(i as int));
        assert(all.take(i + 1).last() == all[i as int]);
        if i > 0 {
            out.append(", ");
        }
        out.append(parts[i].as_str());
        assert(i == 0 ==> out@ == all[0]);
    }
    assert(all.take(all.len() as int) == all);
    out
}

/// Whether one of the strings holds the given text.
pub fn contains_text(list: &[String], text: &str) -> (r: bool)
    ensures
        r == texts(list@).contains(text@),
{
    let ghost all = texts(list@);
    for i in 0..list.len()
        invariant
            all == texts(list@),
            forall|j: int| 0 <= j < i ==> all[j] != text@,
    {
        if str_eq(list[i].as_str(), text) {
            assert(all[i as int] == text@);
            return true;
        }
    }
    false
}

/// Copies of the strings.
pub fn copy_texts(list: &[String]) -> (r: Vec<String>)
    ensures
        texts(r@) == texts(list@),
{
    let ghost all = texts(list@);
    let mut out: Vec<String> = Vec::new();
    for i in 0..list.len()
        invariant
            all == texts(list@),
            texts(out@) == all.take(i as int),
    {
        out.push(owned(list[i].as_str()));
        assert(texts(out@) == all.take(i as int).push(all[i as int]));
        assert(all.take(i + 1) == all.take(i as int).push(all[i as int]));
    }
    assert(all.take(all.len() as int) == all);
    out
}

// ---------------------------------------------------------------------------
// Order
// ---------------------------------------------------------------------------

/// Whether one text comes before another, by code point.
pub open spec fn text_before(a: Seq<char>, b: Seq<char>) -> bool
    decreases a.len(),
{
    if b.len() == 0 {
        false
    } else if a.len() == 0 {
        true
    } else if a[0] != b[0] {
        a[0] < b[0]
    } else {
        text_before(a.skip(1), b.skip(1))
    }
}

/// Whether one text comes before another, by code point.
pub fn is_text_before(a: &str, b: &str) -> (r: bool)
    ensures
        r == text_before(a@, b@),
{
    let x = chars_of(a);
    let y = chars_of(b);
    let mut i: usize = 0;
    assert(x@.skip(0) == x@ && y@.skip(0) == y@);
    while i < x.len() && i < y.len() && x[i] == y[i]
        invariant
            i <= x@.len(),
            i <= y@.len(),
            text_before(x@, y@) == text_before(x@.skip(i as int), y@.skip(i as int)),
        decreases x@.len() - i,
    {
        assert(x@.skip(i as int)[0] == x@[i as int]);
        assert(y@.skip(i as int)[0] == y@[i as int]);
        assert(x@.skip(i as int).skip(1) == x@.skip(i + 1));
        assert(y@.skip(i as int).skip(1) == y@.skip(i + 1));
        i = i + 1;
    }
    if i == y.len() {
        false
    } else if i == x.len() {
        true
    } else {
        assert(x@.skip(i as int)[0] == x@[i as int]);
        assert(y@.skip(i as int)[0] == y@[i as int]);
        x[i] < y[i]
    }
}

/// Of two texts that differ, one comes before the other.
pub proof fn lemma_text_order_is_total(a: Seq<char>, b: Seq<char>)
    ensures
        a != b ==> text_before(a, b) || text_before(b, a),
        !(text_before(a, b) && text_before(b, a)),
        !text_before(a, a),
    decreases a.len(),
{
    if a.len() > 0 {
        lemma_text_order_is_total(a.skip(1), a.skip(1));
    }
    if a.len() > 0 && b.len() > 0 {
        lemma_text_order_is_total(a.skip(1), b.skip(1));
        if a[0] == b[0] && a.skip(1) == b.skip(1) {
            assert(a == seq![a[0]] + a.skip(1));
            assert(b == seq![b[0]] + b.skip(1));
        }
    } else if a.len() == 0 && b.len() == 0 {
        assert(a == b);
    }
}

/// The order of texts is transitive.
pub proof fn lemma_text_order_is_transitive(a: Seq<char>, b: Seq<char>, c: Seq<char>)
    requires
        text_before(a, b),
        text_before(b, c),
    ensures
        text_before(a, c),
    decreases a.len(),
{
    if a.len() > 0 && a[0] == b[0] && b[0] == c[0] {
        lemma_text_order_is_transitive(a.skip(1), b.skip(1), c.skip(1));
    }
}

// ---------------------------------------------------------------------------
// Putting text together
// ---------------------------------------------------------------------------

/// Two texts, one after another.
pub fn cat2(a: &str, b: &str) -> (r: String)
    ensures
        r@ == a@ + b@,
{
    let mut out = owned(a);
    push_text(&mut out, b);
    out
}

/// Three texts, one after another.
pub fn cat3(a: &str, b: &str, c: &str) -> (r: String)
    ensures
        r@ == a@ + b@ + c@,
{
    let mut out = owned(a);
    push_text(&mut out, b);
    push_text(&mut out, c);
    out
}

/// Four texts, one after another.
pub fn cat4(a: &str, b: &str, c: &str, d: &str) -> (r: String)
    ensures
        r@ == a@ + b@ + c@ + d@,
{
    let mut out = owned(a);
    push_text(&mut out, b);
    push_text(&mut out, c);
    push_text(&mut out, d);
    out
}

/// Five texts, one after another.
pub fn cat5(a: &str, b: &str, c: &str, d: &str, e: &str) -> (r: String)
    ensures
        r@ == a@ + b@ + c@ + d@ + e@,
{
    let mut out = owned(a);
    push_text(&mut out, b);
    push_text(&mut out, c);
    push_text(&mut out, d);
    push_text(&mut out, e);
    out
}

/// An integer in decimal.
pub fn signed_string(n: i128) -> (r: String)
    requires
        n > i128::MIN,
    ensures
        r@ == signed_decimal(n as int),
{
    let mut out = String::new();
    push_signed(&mut out, n);
    assert(out@ == signed_decimal(n as int));
    out
}

/// How many bytes a character takes in UTF-8.
pub open spec fn char_bytes(c: char) -> int {
    if c <= '\u{7F}' {
        1
    } else if c <= '\u{7FF}' {
        2
    } else if c <= '\u{FFFF}' {
        3
    } else {
        4
    }
}

/// How many bytes a text takes in UTF-8.
pub open spec fn byte_length(s: Seq<char>) -> int
    decreases s.len(),
{
    if s.len() == 0 {
        0
    } else {
        byte_length(s.drop_last()) + char_bytes(s.last())
    }
}

/// How many bytes a text takes in UTF-8.
pub fn byte_count(s: &str) -> (r: u128)
    ensures
        r == byte_length(s@),
        r <= 4 * usize::MAX,
{
    let chars = chars_of(s);
    let mut n: u128 = 0;
    for i in 0..chars.len()
        invariant
            n == byte_length(chars@.take(i as int)),
            n <= 4 * i,
    {
        assert(chars@.take(i + 1).drop_last() == chars@.take(i as int));
        assert(chars@.take(i + 1).last() == chars@[i as int]);
        let c: char = chars[i];
        n = n + if c <= '\u{7F}' {
            1
        } else if c <= '\u{7FF}' {
            2
        } else if c <= '\u{FFFF}' {
            3
        } else {
            4
        };
    }
    assert(chars@.take(chars@.len() as int) == chars@);
    n
}

// ---------------------------------------------------------------------------
// Case
// ---------------------------------------------------------------------------

/// A character with an uppercase ASCII letter made lowercase.
pub open spec fn lower_char(c: char) -> char {
    if 'A' <= c <= 'Z' {
        (c as u32 + 32) as char
    } else {
        c
    }
}

/// A text with its uppercase ASCII letters made lowercase.
pub open spec fn lowered(s: Seq<char>) -> Seq<char> {
    s.map_values(|c: char| lower_char(c))
}

/// Whether a text is the given one, but for uppercase ASCII letters.
pub fn is_lowered(s: &str, lower: &str) -> (r: bool)
    ensures
        r == (lowered(s@) == lower@),
{
    let x = chars_of(s);
    let y = chars_of(lower);
    if x.len() != y.len() {
        assert(lowered(s@).len() != lower@.len());
        return false;
    }
    for i in 0..x.len()
        invariant
            x@ == s@,
            y@ == lower@,
            x@.len() == y@.len(),
            forall|j: int| 0 <= j < i ==> lower_char(x@[j]) == #[trigger] y@[j],
    {
        let c: char = if 'A' <= x[i] && x[i] <= 'Z' {
            (x[i] as u8 + 32) as char
        } else {
            x[i]
        };
        if c != y[i] {
            assert(lowered(s@)[i as int] != lower@[i as int]);
            return false;
        }
    }
    assert(lowered(s@) == lower@);
    true
}

// ---------------------------------------------------------------------------
// Laws
// ---------------------------------------------------------------------------

/// Trimming leaves nothing of a text if and only if all of it is white space; else what
/// it leaves starts and ends with what is none, and a text that does so stays as it is.
pub proof fn law_trimming_takes_the_white_space(s: Seq<char>)
    ensures
        trimmed(s).len() == 0 <==> forall|i: int| 0 <= i < s.len() ==> is_space(#[trigger] s[i]),
        trimmed(s).len() > 0 ==> !is_space(trimmed(s)[0]) && !is_space(trimmed(s).last()),
        s.len() > 0 && !is_space(s[0]) && !is_space(s.last()) ==> trimmed(s) == s,
        exists|a: int, b: int| 0 <= a <= b <= s.len() && #[trigger] s.subrange(a, b) == trimmed(s),
{
    lemma_trimmed_start(s);
    let t = trimmed_start(s);
    lemma_trimmed_end(t);
    let a = choose|a: int| 0 <= a <= s.len() && #[trigger] s.skip(a) == t && forall|i: int|
        0 <= i < a ==> is_space(#[trigger] s[i]);
    let n = choose|n: int| 0 <= n <= t.len() && #[trigger] t.take(n) == trimmed_end(t)
        && forall|i: int| n <= i < t.len() ==> is_space(#[trigger] t[i]);
    assert(s.subrange(a, a + n) =~= trimmed(s));
    if trimmed(s).len() == 0 {
        assert forall|i: int| 0 <= i < s.len() implies is_space(#[trigger] s[i]) by {
            if i >= a {
                assert(t[i - a] == s[i]);
            }
        }
    } else {
        assert(trimmed(s)[0] == t[0]);
        assert(s[a] == t[0]);
        if forall|i: int| 0 <= i < s.len() ==> is_space(#[trigger] s[i]) {
            assert(is_space(s[a]));
        }
    }
}

proof fn lemma_trimmed_start(s: Seq<char>)
    ensures
        trimmed_start(s).len() > 0 ==> !is_space(trimmed_start(s)[0]),
        exists|a: int|
            0 <= a <= s.len() && #[trigger] s.skip(a) == trimmed_start(s) && forall|i: int|
                0 <= i < a ==> is_space(#[trigger] s[i]),
    decreases s.len(),
{
    if s.len() > 0 && is_space(s[0]) {
        let rest = s.skip(1);
        lemma_trimmed_start(rest);
        let a = choose|a: int|
            0 <= a <= rest.len() && #[trigger] rest.skip(a) == trimmed_start(rest) && forall|i: int|
                0 <= i < a ==> is_space(#[trigger] rest[i]);
        assert(s.skip(a + 1) =~= rest.skip(a));
        assert forall|i: int| 0 <= i < a + 1 implies is_space(#[trigger] s[i]) by {
            if i > 0 {
                assert(rest[i - 1] == s[i]);
            }
        }
    } else {
        assert(s.skip(0) =~= s);
    }
}

proof fn lemma_trimmed_end(s: Seq<char>)
    ensures
        trimmed_end(s).len() > 0 ==> !is_space(trimmed_end(s).last()),
        s.len() > 0 && !is_space(s[0]) ==> trimmed_end(s).len() > 0 && trimmed_end(s)[0] == s[0],
        exists|n: int|
            0 <= n <= s.len() && #[trigger] s.take(n) == trimmed_end(s) && forall|i: int|
                n <= i < s.len() ==> is_space(#[trigger] s[i]),
    decreases s.len(),
{
    if s.len() > 0 && is_space(s.last()) {
        let front = s.drop_last();
        lemma_trimmed_end(front);
        let n = choose|n: int|
            0 <= n <= front.len() && #[trigger] front.take(n) == trimmed_end(front) && forall|i: int|
                n <= i < front.len() ==> is_space(#[trigger] front[i]);
        assert(s.take(n) =~= front.take(n));
        assert forall|i: int| n <= i < s.len() implies is_space(#[trigger] s[i]) by {
            if i < front.len() {
                assert(front[i] == s[i]);
            }
        }
    } else {
        assert(s.take(s.len() as int) =~= s);
    }
}

/// What a number is written as reads as that number: in decimal and in hexadecimal, and
/// negative ones with their sign.
pub proof fn law_written_numbers_read_back(n: nat)
    ensures
        is_numeral(decimal(n), 10),
        numeral_value(decimal(n), 10) == n,
        natural(decimal(n), 10) == Some(n as int),
        integer(signed_decimal(n as int), 10) == Some(n as int),
        integer(signed_decimal(-(n as int)), 10) == Some(-(n as int)),
        natural(hexadecimal(n), 16) == Some(n as int),
        natural(seq!['+'] + decimal(n), 10) == Some(n as int),
{
    lemma_decimal_reads(n);
    lemma_hexadecimal_reads(n);
    assert(decimal(n)[0] != '+' && decimal(n)[0] != '-') by {
        assert(digit_value(decimal(n)[0]) < 10);
    }
    assert(hexadecimal(n)[0] != '+') by {
        assert(digit_value(hexadecimal(n)[0]) < 16);
    }
    assert((seq!['-'] + decimal(n)).skip(1) =~= decimal(n));
    assert((seq!['+'] + decimal(n)).skip(1) =~= decimal(n));
}

proof fn lemma_decimal_reads(n: nat)
    ensures
        is_numeral(decimal(n), 10),
        numeral_value(decimal(n), 10) == n,
    decreases n,
{
    let now = decimal(n);
    reveal_with_fuel(numeral_value, 2);
    if n < 10 {
        assert(now.drop_last() =~= Seq::<char>::empty());
        assert(digit_value(hex_digit(n as int)) == n);
    } else {
        lemma_decimal_reads(n / 10);
        let front = decimal(n / 10);
        assert(now.drop_last() =~= front);
        assert(digit_value(hex_digit((n % 10) as int)) == n % 10);
        assert forall|i: int| 0 <= i < now.len() implies digit_value(#[trigger] now[i]) < 10 by {
            if i < front.len() {
                assert(now[i] == front[i]);
            }
        }
    }
}

proof fn lemma_hexadecimal_reads(n: nat)
    ensures
        is_numeral(hexadecimal(n), 16),
        numeral_value(hexadecimal(n), 16) == n,
    decreases n,
{
    let now = hexadecimal(n);
    reveal_with_fuel(numeral_value, 2);
    if n < 16 {
        assert(now.drop_last() =~= Seq::<char>::empty());
        assert(digit_value(hex_digit(n as int)) == n);
    } else {
        lemma_hexadecimal_reads(n / 16);
        let front = hexadecimal(n / 16);
        assert(now.drop_last() =~= front);
        assert(digit_value(hex_digit((n % 16) as int)) == n % 16);
        assert forall|i: int| 0 <= i < now.len() implies digit_value(#[trigger] now[i]) < 16 by {
            if i < front.len() {
                assert(now[i] == front[i]);
            }
        }
    }
}

/// The parts between the commas of a text hold none, and there is one part more than
/// there are commas: splitting two texts with a comma between them gives the parts of
/// the one and those of the other.
pub proof fn law_commas_part_a_text(a: Seq<char>, b: Seq<char>)
    ensures
        comma_parts(a).len() >= 1,
        comma_parts(a + seq![','] + b) == comma_parts(a) + comma_parts(b),
        (forall|i: int| 0 <= i < b.len() ==> (#[trigger] b[i]) != ',') ==> comma_parts(b) == seq![b],
    decreases b.len(),
{
    lemma_some_part(a);
    lemma_some_part(b);
    let whole = a + seq![','] + b;
    if b.len() == 0 {
        assert(whole.drop_last() =~= a);
        assert(comma_parts(whole) =~= comma_parts(a) + comma_parts(b));
        assert(b =~= Seq::empty());
    } else {
        let front = b.drop_last();
        law_commas_part_a_text(a, front);
        lemma_some_part(front);
        assert(whole.drop_last() =~= a + seq![','] + front);
        let before = comma_parts(a) + comma_parts(front);
        assert(before.last() == comma_parts(front).last());
        if b.last() != ',' {
            assert(before.drop_last() =~= comma_parts(a) + comma_parts(front).drop_last());
        }
        assert(comma_parts(whole) =~= comma_parts(a) + comma_parts(b));
        if forall|i: int| 0 <= i < b.len() ==> (#[trigger] b[i]) != ',' {
            assert forall|i: int| 0 <= i < front.len() implies (#[trigger] front[i]) != ',' by {
                assert(front[i] == b[i]);
            }
            assert(b[b.len() - 1] != ',');
            assert(front.push(b.last()) =~= b);
            assert(comma_parts(b) =~= seq![b]);
        }
    }
}

proof fn lemma_some_part(s: Seq<char>)
    ensures
        comma_parts(s).len() >= 1,
    decreases s.len(),
{
    if s.len() > 0 {
        lemma_some_part(s.drop_last());
    }
}

} // verus!
