//! Text as sequences of characters: trimming, splitting, decimal numbers,
//! case, replacement and ordering.

use vstd::prelude::*;
use vstd::string::*;

verus! {

// ---------------------------------------------------------------------------
// Standard-library calls.
// ---------------------------------------------------------------------------

/// Trusted: `String: FromIterator<char>`, which strings the characters
/// together in order.
#[verifier::external_body]
pub(crate) fn string_of(chars: &Vec<char>) -> (r: String)
    ensures
        r@ == chars@,
{
    chars.iter().collect::<String>()
}

/// What `str::to_uppercase` makes of a text.
pub uninterp spec fn uppercase(s: Seq<char>) -> Seq<char>;

/// Trusted: `str::to_uppercase`. The result is a function of the text, and a
/// text of ASCII characters has each of `a` to `z` raised and nothing else
/// changed.
#[verifier::external_body]
pub(crate) fn to_upper(s: &str) -> (r: String)
    ensures
        r@ == uppercase(s@),
        ascii(s@) ==> r@ == ascii_upper(s@),
{
    s.to_uppercase()
}

/// What `str::to_lowercase` makes of a text.
pub uninterp spec fn lowercase(s: Seq<char>) -> Seq<char>;

/// Trusted: `str::to_lowercase`. The result is a function of the text, and a
/// text of ASCII characters has each of `A` to `Z` lowered and nothing else
/// changed.
#[verifier::external_body]
pub(crate) fn to_lower(s: &str) -> (r: String)
    ensures
        r@ == lowercase(s@),
        ascii(s@) ==> r@ == ascii_lower(s@),
{
    s.to_lowercase()
}

// ---------------------------------------------------------------------------
// Characters.
// ---------------------------------------------------------------------------

/// Unicode's `White_Space` property.
pub open spec fn white_space(c: char) -> bool {
    let n = c as u32;
    ||| 0x09 <= n <= 0x0d
    ||| n == 0x20
    ||| n == 0x85
    ||| n == 0xa0
    ||| n == 0x1680
    ||| 0x2000 <= n <= 0x200a
    ||| n == 0x2028
    ||| n == 0x2029
    ||| n == 0x202f
    ||| n == 0x205f
    ||| n == 0x3000
}

fn is_white_space(c: char) -> (r: bool)
    ensures
        r == white_space(c),
{
    let n: u32 = c as u32;
    (0x09 <= n && n <= 0x0d) || n == 0x20 || n == 0x85 || n == 0xa0 || n == 0x1680 || (0x2000 <= n
        && n <= 0x200a) || n == 0x2028 || n == 0x2029 || n == 0x202f || n == 0x205f || n == 0x3000
}

/// Every character is in the ASCII range.
pub open spec fn ascii(s: Seq<char>) -> bool {
    forall|i: int| 0 <= i < s.len() ==> (#[trigger] s[i] as u32) < 128
}

pub open spec fn upper_char(c: char) -> char {
    if 'a' <= c <= 'z' {
        ((c as u32 - 32) as u32) as char
    } else {
        c
    }
}

pub open spec fn lower_char(c: char) -> char {
    if 'A' <= c <= 'Z' {
        ((c as u32 + 32) as u32) as char
    } else {
        c
    }
}

/// Each of `a` to `z` raised, every other character kept.
pub open spec fn ascii_upper(s: Seq<char>) -> Seq<char> {
    Seq::new(s.len(), |i: int| upper_char(s[i]))
}

/// Each of `A` to `Z` lowered, every other character kept.
pub open spec fn ascii_lower(s: Seq<char>) -> Seq<char> {
    Seq::new(s.len(), |i: int| lower_char(s[i]))
}

pub open spec fn ascii_letter(c: char) -> bool {
    'a' <= c <= 'z' || 'A' <= c <= 'Z'
}

pub(crate) fn is_ascii_letter(c: char) -> (r: bool)
    ensures
        r == ascii_letter(c),
{
    ('a' <= c && c <= 'z') || ('A' <= c && c <= 'Z')
}

/// The characters of a text.
pub(crate) fn chars_of(s: &str) -> (r: Vec<char>)
    ensures
        r@ == s@,
{
    let mut out: Vec<char> = Vec::new();
    for c in it: s.chars()
        invariant
            it.seq() == s@,
            out@ == s@.take(it.index() as int),
    {
        out.push(c);
    }
    assert(s@.take(s@.len() as int) =~= s@);
    out
}

/// Whether two texts are the same.
pub(crate) fn same_text(a: &str, b: &str) -> (r: bool)
    ensures
        r == (a@ == b@),
{
    a.to_owned() == b.to_owned()
}

/// Whether a text equals one of the two given letters, in either case.
pub(crate) fn is_letter_text(s: &Vec<char>, upper: char, lower: char) -> (r: bool)
    ensures
        r == (s@ == seq![upper] || s@ == seq![lower]),
{
    if s.len() == 1 && (s[0] == upper || s[0] == lower) {
        assert(s@ =~= seq![s@[0]]);
        true
    } else {
        assert(seq![upper].len() == 1 && seq![lower].len() == 1);
        assert(seq![upper][0] == upper && seq![lower][0] == lower);
        false
    }
}

/// The text with `a` to `z` raised.
pub(crate) fn raise_ascii(s: &Vec<char>) -> (r: Vec<char>)
    ensures
        r@ == ascii_upper(s@),
{
    let mut out: Vec<char> = Vec::new();
    let mut i: usize = 0;
    while i < s.len()
        invariant
            i <= s.len(),
            out@ =~= ascii_upper(s@).take(i as int),
        decreases s.len() - i,
    {
        let c = s[i];
        if 'a' <= c && c <= 'z' {
            let low: u8 = c as u8;
            out.push((low - 32) as char);
        } else {
            out.push(c);
        }
        i += 1;
    }
    out
}

/// Whether the text begins with the prefix.
pub(crate) fn begins_with(s: &Vec<char>, prefix: &Vec<char>) -> (r: bool)
    ensures
        r == prefix@.is_prefix_of(s@),
{
    if prefix.len() > s.len() {
        return false;
    }
    let mut i: usize = 0;
    while i < prefix.len()
        invariant
            i <= prefix.len() <= s.len(),
            forall|j: int| 0 <= j < i ==> s@[j] == prefix@[j],
        decreases prefix.len() - i,
    {
        if s[i] != prefix[i] {
            assert(s@.subrange(0, prefix@.len() as int)[i as int] == s@[i as int]);
            return false;
        }
        i += 1;
    }
    assert(prefix@ =~= s@.subrange(0, prefix@.len() as int));
    true
}

// ---------------------------------------------------------------------------
// Trimming.
// ---------------------------------------------------------------------------

/// The text without its leading white space.
pub open spec fn trim_start(s: Seq<char>) -> Seq<char>
    decreases s.len(),
{
    if s.len() > 0 && white_space(s[0]) {
        trim_start(s.drop_first())
    } else {
        s
    }
}

/// The text without its trailing white space.
pub open spec fn trim_end(s: Seq<char>) -> Seq<char>
    decreases s.len(),
{
    if s.len() > 0 && white_space(s.last()) {
        trim_end(s.drop_last())
    } else {
        s
    }
}

/// The text without the white space at either end.
pub open spec fn trimmed(s: Seq<char>) -> Seq<char> {
    trim_end(trim_start(s))
}

/// Trims a text.
pub(crate) fn trim(s: &Vec<char>) -> (r: Vec<char>)
    ensures
        r@ == trimmed(s@),
{
    let mut start: usize = 0;
    assert(s@.skip(0) =~= s@);
    while start < s.len() && is_white_space(s[start])
        invariant
            start <= s.len(),
            trim_start(s@) == trim_start(s@.skip(start as int)),
        decreases s.len() - start,
    {
        assert(s@.skip(start as int).drop_first() =~= s@.skip(start + 1));
        start += 1;
    }
    assert(trim_start(s@) == s@.skip(start as int));
    let mut end: usize = s.len();
    assert(s@.subrange(start as int, end as int) =~= s@.skip(start as int));
    while start < end && is_white_space(s[end - 1])
        invariant
            start <= end <= s.len(),
            trim_end(s@.skip(start as int)) == trim_end(s@.subrange(start as int, end as int)),
        decreases end,
    {
        assert(s@.subrange(start as int, end as int).drop_last() =~= s@.subrange(
            start as int,
            end - 1,
        ));
        end -= 1;
    }
    slice_of(s, start, end)
}

/// The characters from `start` up to `end`.
pub(crate) fn slice_of(s: &Vec<char>, start: usize, end: usize) -> (r: Vec<char>)
    requires
        start <= end <= s.len(),
    ensures
        r@ == s@.subrange(start as int, end as int),
{
    let mut out: Vec<char> = Vec::new();
    let mut i: usize = start;
    while i < end
        invariant
            start <= i <= end <= s.len(),
            out@ =~= s@.subrange(start as int, i as int),
        decreases end - i,
    {
        out.push(s[i]);
        i += 1;
    }
    out
}

// ---------------------------------------------------------------------------
// Decimal numbers.
// ---------------------------------------------------------------------------

pub open spec fn digit_char(d: int) -> char {
    (48 + d) as char
}

pub open spec fn digit(c: char) -> bool {
    '0' <= c <= '9'
}

/// The decimal numeral of `n`, without leading zeros.
pub open spec fn decimal(n: nat) -> Seq<char>
    decreases n,
{
    if n < 10 {
        seq![digit_char(n as int)]
    } else {
        decimal(n / 10).push(digit_char((n % 10) as int))
    }
}

pub open spec fn all_digits(s: Seq<char>) -> bool {
    forall|i: int| 0 <= i < s.len() ==> digit(#[trigger] s[i])
}

/// The number that a run of digits stands for.
pub open spec fn digits_value(s: Seq<char>) -> nat
    decreases s.len(),
{
    if s.len() == 0 {
        0
    } else {
        10 * digits_value(s.drop_last()) + (s.last() as nat - 48) as nat
    }
}

/// The digits of a numeral, which may begin with one plus sign.
pub open spec fn unsigned_digits(s: Seq<char>) -> Seq<char> {
    if s.len() > 0 && s[0] == '+' {
        s.drop_first()
    } else {
        s
    }
}

/// The 32-bit number that a text spells: digits, at least one, after an
/// optional plus sign.
pub open spec fn u32_of(s: Seq<char>) -> Option<u32> {
    let digits = unsigned_digits(s);
    if digits.len() > 0 && all_digits(digits) && digits_value(digits) <= u32::MAX {
        Some(digits_value(digits) as u32)
    } else {
        None
    }
}

/// A numeral is all digits, is not empty, and stands for its number.
pub proof fn decimal_stands_for_its_number(n: nat)
    ensures
        decimal(n).len() > 0,
        all_digits(decimal(n)),
        digits_value(decimal(n)) == n,
    decreases n,
{
    if n < 10 {
        let s = decimal(n);
        assert(s.drop_last() =~= Seq::<char>::empty());
        assert(digits_value(s.drop_last()) == 0);
    } else {
        decimal_stands_for_its_number(n / 10);
        let s = decimal(n);
        assert(s.drop_last() =~= decimal(n / 10));
        assert forall|i: int| 0 <= i < s.len() implies digit(#[trigger] s[i]) by {
            if i < s.len() - 1 {
                assert(s[i] == decimal(n / 10)[i]);
            }
        }
    }
}

/// Dropping a leading part only lowers the number, so a number that has
/// outgrown a bound stays past it.
proof fn digits_value_grows(s: Seq<char>, i: int)
    requires
        0 <= i <= s.len(),
        all_digits(s),
    ensures
        digits_value(s.take(i)) <= digits_value(s),
    decreases s.len() - i,
{
    if i < s.len() {
        digits_value_grows(s, i + 1);
        assert(s.take(i + 1).drop_last() =~= s.take(i));
        assert(digit(s[i]));
    } else {
        assert(s.take(i) =~= s);
    }
}

/// Reads a 32-bit number.
pub(crate) fn read_u32(s: &Vec<char>) -> (r: Option<u32>)
    ensures
        r == u32_of(s@),
{
    let start: usize = if s.len() > 0 && s[0] == '+' { 1 } else { 0 };
    let ghost digits = unsigned_digits(s@);
    assert(digits =~= s@.skip(start as int));
    if start == s.len() {
        return None;
    }
    let mut value: u32 = 0;
    let mut i: usize = start;
    while i < s.len()
        invariant
            start <= i <= s.len(),
            digits == s@.skip(start as int),
            digits == unsigned_digits(s@),
            forall|j: int| 0 <= j < i - start ==> digit(#[trigger] digits[j]),
            value == digits_value(digits.take(i - start)),
        decreases s.len() - i,
    {
        let c = s[i];
        assert(digits[i - start] == c);
        if !('0' <= c && c <= '9') {
            assert(!digit(digits[i - start]));
            return None;
        }
        let d: u32 = (c as u32) - 48;
        let ghost next = digits.take(i - start + 1);
        assert(next.drop_last() =~= digits.take(i - start));
        assert(digits_value(next) == 10 * value + d);
        if value > (u32::MAX - d) / 10 {
            proof {
                if all_digits(digits) {
                    digits_value_grows(digits, i - start + 1);
                }
            }
            return None;
        }
        value = value * 10 + d;
        i += 1;
    }
    assert(digits.take(digits.len() as int) =~= digits);
    Some(value)
}

/// Writes a number in decimal.
pub(crate) fn write_decimal(n: u64) -> (r: Vec<char>)
    ensures
        r@ == decimal(n as nat),
    decreases n,
{
    if n < 10 {
        let mut out: Vec<char> = Vec::new();
        let low: u8 = n as u8;
        out.push((48 + low) as char);
        assert(out@ =~= decimal(n as nat));
        out
    } else {
        let mut out = write_decimal(n / 10);
        let low: u8 = (n % 10) as u8;
        out.push((48 + low) as char);
        out
    }
}

/// The decimal numeral of a signed number.
pub open spec fn signed_decimal(n: int) -> Seq<char> {
    if n < 0 {
        seq!['-'] + decimal((-n) as nat)
    } else {
        decimal(n as nat)
    }
}

/// Writes a signed number in decimal.
pub(crate) fn write_signed(n: i64) -> (r: Vec<char>)
    ensures
        r@ == signed_decimal(n as int),
{
    if n < 0 {
        let magnitude: u64 = ((-(n as i128)) as u64);
        let digits = write_decimal(magnitude);
        let mut out: Vec<char> = Vec::new();
        out.push('-');
        let mut rest = digits;
        out.append(&mut rest);
        assert(out@ =~= seq!['-'] + decimal(magnitude as nat));
        out
    } else {
        write_decimal(n as u64)
    }
}

// ---------------------------------------------------------------------------
// Splitting and joining.
// ---------------------------------------------------------------------------

/// The pieces of a text between the separators, empty ones kept.
pub open spec fn pieces(s: Seq<char>, separator: char) -> Seq<Seq<char>>
    decreases s.len(),
{
    if s.len() == 0 {
        seq![Seq::empty()]
    } else {
        let before = pieces(s.drop_last(), separator);
        if s.last() == separator {
            before.push(Seq::empty())
        } else {
            before.update(before.len() - 1, before.last().push(s.last()))
        }
    }
}

pub proof fn pieces_not_empty(s: Seq<char>, separator: char)
    ensures
        pieces(s, separator).len() > 0,
    decreases s.len(),
{
    if s.len() > 0 {
        pieces_not_empty(s.drop_last(), separator);
    }
}

/// Splits a text at a separator.
pub(crate) fn split(s: &Vec<char>, separator: char) -> (r: Vec<Vec<char>>)
    ensures
        r@.len() == pieces(s@, separator).len(),
        forall|i: int| 0 <= i < r@.len() ==> (#[trigger] r@[i])@ == pieces(s@, separator)[i],
{
    let mut out: Vec<Vec<char>> = Vec::new();
    let mut piece: Vec<char> = Vec::new();
    let mut i: usize = 0;
    assert(s@.take(0) =~= Seq::<char>::empty());
    while i < s.len()
        invariant
            i <= s.len(),
            pieces(s@.take(i as int), separator).len() == out@.len() + 1,
            forall|j: int|
                0 <= j < out@.len() ==> (#[trigger] out@[j])@ == pieces(
                    s@.take(i as int),
                    separator,
                )[j],
            piece@ == pieces(s@.take(i as int), separator).last(),
        decreases s.len() - i,
    {
        assert(s@.take(i + 1).drop_last() =~= s@.take(i as int));
        let c = s[i];
        if c == separator {
            out.push(piece);
            piece = Vec::new();
            assert(piece@ =~= Seq::<char>::empty());
        } else {
            piece.push(c);
        }
        i += 1;
    }
    assert(s@.take(s@.len() as int) =~= s@);
    out.push(piece);
    out
}

/// The texts of a list, one after another, a separator between each two.
pub open spec fn joined(texts: Seq<Seq<char>>, separator: Seq<char>) -> Seq<char>
    decreases texts.len(),
{
    if texts.len() == 0 {
        Seq::empty()
    } else if texts.len() == 1 {
        texts[0]
    } else {
        joined(texts.drop_last(), separator) + separator + texts.last()
    }
}

/// The texts that a list of strings holds.
pub open spec fn texts_of(list: Seq<String>) -> Seq<Seq<char>> {
    list.map_values(|s: String| s@)
}

/// Joins a list of strings.
pub(crate) fn join(list: &Vec<String>, separator: &str) -> (r: String)
    ensures
        r@ == joined(texts_of(list@), separator@),
{
    let mut out = String::new();
    let mut i: usize = 0;
    while i < list.len()
        invariant
            i <= list.len(),
            out@ =~= joined(texts_of(list@).take(i as int), separator@),
        decreases list.len() - i,
    {
        assert(texts_of(list@).take(i + 1).drop_last() =~= texts_of(list@).take(i as int));
        if i > 0 {
            out.append(separator);
        }
        out.append(list[i].as_str());
        i += 1;
    }
    assert(texts_of(list@).take(list@.len() as int) =~= texts_of(list@));
    out
}

// ---------------------------------------------------------------------------
// Replacing.
// ---------------------------------------------------------------------------

/// The text with each occurrence of the pattern replaced, found from the left
/// and not overlapping.
pub open spec fn replaced(s: Seq<char>, pattern: Seq<char>, value: Seq<char>) -> Seq<char>
    decreases s.len(),
{
    if pattern.len() == 0 || s.len() < pattern.len() {
        s
    } else if s.take(pattern.len() as int) == pattern {
        value + replaced(s.skip(pattern.len() as int), pattern, value)
    } else {
        seq![s[0]] + replaced(s.drop_first(), pattern, value)
    }
}

/// Replaces each occurrence of a pattern.
pub(crate) fn replace(s: &Vec<char>, pattern: &Vec<char>, value: &Vec<char>) -> (r: Vec<char>)
    ensures
        r@ == replaced(s@, pattern@, value@),
{
    let mut out: Vec<char> = Vec::new();
    let mut i: usize = 0;
    assert(s@.skip(0) =~= s@);
    if pattern.len() == 0 {
        return slice_of(s, 0, s.len());
    }
    while i < s.len()
        invariant
            i <= s.len(),
            pattern@.len() > 0,
            out@ + replaced(s@.skip(i as int), pattern@, value@) =~= replaced(
                s@,
                pattern@,
                value@,
            ),
        decreases s.len() - i,
    {
        let ghost rest = s@.skip(i as int);
        let ghost before = out@;
        let matches_here = pattern.len() <= s.len() - i && matches_at(s, i, pattern);
        if matches_here {
            assert(rest.take(pattern@.len() as int) =~= pattern@);
            assert(rest.skip(pattern@.len() as int) =~= s@.skip(i + pattern@.len()));
            let mut copy = slice_of(value, 0, value.len());
            assert(copy@ =~= value@);
            out.append(&mut copy);
            assert(out@ =~= before + value@);
            i += pattern.len();
        } else {
            assert(rest.len() < pattern@.len() || rest.take(pattern@.len() as int) != pattern@);
            assert(rest.drop_first() =~= s@.skip(i + 1));
            proof {
                if rest.len() < pattern@.len() {
                    assert(replaced(rest.drop_first(), pattern@, value@) == rest.drop_first());
                    assert(rest =~= seq![rest[0]] + rest.drop_first());
                }
            }
            out.push(s[i]);
            assert(out@ =~= before + seq![rest[0]]);
            i += 1;
        }
    }
    assert(replaced(s@.skip(s@.len() as int), pattern@, value@) =~= Seq::<char>::empty());
    out
}

fn matches_at(s: &Vec<char>, at: usize, pattern: &Vec<char>) -> (r: bool)
    requires
        at + pattern.len() <= s.len(),
    ensures
        r == (s@.skip(at as int).take(pattern@.len() as int) == pattern@),
{
    let mut j: usize = 0;
    while j < pattern.len()
        invariant
            j <= pattern.len(),
            at + pattern.len() <= s.len(),
            forall|k: int| 0 <= k < j ==> s@[at + k] == pattern@[k],
        decreases pattern.len() - j,
    {
        if s[at + j] != pattern[j] {
            assert(s@.skip(at as int).take(pattern@.len() as int)[j as int] == s@[at + j]);
            return false;
        }
        j += 1;
    }
    assert(s@.skip(at as int).take(pattern@.len() as int) =~= pattern@);
    true
}

// ---------------------------------------------------------------------------
// Laws of texts.
// ---------------------------------------------------------------------------

/// Trimming takes white space from both ends and nothing else, and leaves none
/// there: what remains is a stretch of the text, from `ends.0` up to `ends.1`.
pub proof fn trimming_takes_white_space_from_the_ends(s: Seq<char>) -> (ends: (int, int))
    ensures
        0 <= ends.0 <= ends.1 <= s.len(),
        trimmed(s) == s.subrange(ends.0, ends.1),
        forall|i: int| 0 <= i < ends.0 ==> white_space(#[trigger] s[i]),
        forall|i: int| ends.1 <= i < s.len() ==> white_space(#[trigger] s[i]),
        ends.0 < ends.1 ==> !white_space(s[ends.0]) && !white_space(s[ends.1 - 1]),
{
    let from = start_of_text(s);
    let rest = trim_start(s);
    let len = end_of_text(rest);
    assert(trimmed(s) =~= s.subrange(from, from + len));
    assert forall|i: int| from + len <= i < s.len() implies white_space(#[trigger] s[i]) by {
        assert(rest[i - from] == s[i]);
    }
    if 0 < len {
        assert(rest[len - 1] == s[from + len - 1]);
        assert(rest[0] == s[from]);
    }
    (from, from + len)
}

proof fn start_of_text(s: Seq<char>) -> (from: int)
    ensures
        0 <= from <= s.len(),
        trim_start(s) == s.skip(from),
        forall|i: int| 0 <= i < from ==> white_space(#[trigger] s[i]),
        from < s.len() ==> !white_space(s[from]),
    decreases s.len(),
{
    if s.len() > 0 && white_space(s[0]) {
        let rest = s.drop_first();
        let from = start_of_text(rest);
        assert(rest.skip(from) =~= s.skip(from + 1));
        assert forall|i: int| 0 <= i < from + 1 implies white_space(#[trigger] s[i]) by {
            if i > 0 {
                assert(rest[i - 1] == s[i]);
            }
        }
        from + 1
    } else {
        assert(s.skip(0) =~= s);
        0
    }
}

proof fn end_of_text(s: Seq<char>) -> (len: int)
    ensures
        0 <= len <= s.len(),
        trim_end(s) == s.take(len),
        forall|i: int| len <= i < s.len() ==> white_space(#[trigger] s[i]),
        len > 0 ==> !white_space(s[len - 1]),
    decreases s.len(),
{
    if s.len() > 0 && white_space(s.last()) {
        let rest = s.drop_last();
        let len = end_of_text(rest);
        assert(rest.take(len) =~= s.take(len));
        assert forall|i: int| len <= i < s.len() implies white_space(#[trigger] s[i]) by {
            if i < s.len() - 1 {
                assert(rest[i] == s[i]);
            }
        }
        len
    } else {
        assert(s.take(s.len() as int) =~= s);
        s.len() as int
    }
}

/// The pieces of a text, with the separator between them, are the text again,
/// and the separator is in none of them.
pub proof fn pieces_join_to_the_text(s: Seq<char>, separator: char)
    ensures
        pieces(s, separator).len() > 0,
        joined(pieces(s, separator), seq![separator]) == s,
        forall|i: int|
            0 <= i < pieces(s, separator).len() ==> !(#[trigger] pieces(s, separator)[i]).contains(
                separator,
            ),
    decreases s.len(),
{
    let all = pieces(s, separator);
    if s.len() == 0 {
        assert(joined(all, seq![separator]) =~= s);
    } else {
        pieces_join_to_the_text(s.drop_last(), separator);
        let before = pieces(s.drop_last(), separator);
        if s.last() == separator {
            assert(all.drop_last() =~= before);
            assert(joined(all, seq![separator]) =~= s);
            assert(all.last().len() == 0);
        } else {
            let n = before.len() - 1;
            let one = seq![separator];
            let last = before.last().push(s.last());
            assert(all.len() == before.len() && all.last() == last);
            if before.len() > 1 {
                assert(all.drop_last() =~= before.drop_last());
                assert(joined(all, one) == joined(before.drop_last(), one) + one + last);
                assert(joined(before, one) == joined(before.drop_last(), one) + one
                    + before.last());
                assert(joined(all, one) =~= joined(before, one).push(s.last()));
            } else {
                assert(joined(all, one) == all[0]);
                assert(joined(before, one) == before[0]);
                assert(joined(all, one) =~= joined(before, one).push(s.last()));
            }
            assert(s.drop_last().push(s.last()) =~= s);
            assert(joined(all, seq![separator]) =~= s);
            assert(!all[n].contains(separator)) by {
                if all[n].contains(separator) {
                    let k = choose|k: int| 0 <= k < all[n].len() && all[n][k] == separator;
                    if k < before[n].len() {
                        assert(before[n][k] == separator);
                        assert(before[n].contains(separator));
                    }
                }
            }
        }
    }
}

/// Texts without the separator are the pieces of what they join to.
pub proof fn joined_texts_are_the_pieces(texts: Seq<Seq<char>>, separator: char)
    requires
        texts.len() > 0,
        forall|i: int| 0 <= i < texts.len() ==> !(#[trigger] texts[i]).contains(separator),
    ensures
        pieces(joined(texts, seq![separator]), separator) == texts,
    decreases texts.len(),
{
    let fewer = texts.drop_last();
    if texts.len() == 1 {
        assert(!texts[0].contains(separator));
        let nothing = Seq::<char>::empty();
        pieces_grow(nothing, texts[0], separator);
        assert(nothing + texts[0] =~= texts[0]);
        assert(pieces(nothing, separator).last() + texts[0] =~= texts[0]);
        assert(pieces(texts[0], separator) =~= texts);
    } else {
        assert forall|i: int| 0 <= i < fewer.len() implies !(#[trigger] fewer[i]).contains(
            separator,
        ) by {
            assert(fewer[i] == texts[i]);
        }
        joined_texts_are_the_pieces(fewer, separator);
        let first = joined(fewer, seq![separator]);
        let cut = first + seq![separator];
        assert(cut.drop_last() =~= first);
        assert(pieces(cut, separator) =~= fewer.push(Seq::empty()));
        assert(!texts[texts.len() - 1].contains(separator));
        pieces_grow(cut, texts.last(), separator);
        assert(pieces(cut, separator).last() + texts.last() =~= texts.last());
        assert(pieces(cut + texts.last(), separator) =~= texts);
    }
}

proof fn pieces_grow(s: Seq<char>, more: Seq<char>, separator: char)
    requires
        !more.contains(separator),
    ensures
        pieces(s, separator).len() > 0,
        pieces(s + more, separator) == pieces(s, separator).update(
            pieces(s, separator).len() - 1,
            pieces(s, separator).last() + more,
        ),
    decreases more.len(),
{
    pieces_not_empty(s, separator);
    let old_pieces = pieces(s, separator);
    let n = old_pieces.len() - 1;
    if more.len() == 0 {
        assert(s + more =~= s);
        assert(old_pieces.last() + more =~= old_pieces.last());
        assert(old_pieces.update(n, old_pieces.last() + more) =~= old_pieces);
    } else {
        let fewer = more.drop_last();
        assert(!fewer.contains(separator)) by {
            if fewer.contains(separator) {
                let k = choose|k: int| 0 <= k < fewer.len() && fewer[k] == separator;
                assert(more[k] == separator);
            }
        }
        assert(more.last() != separator) by {
            assert(more[more.len() - 1] == more.last());
        }
        pieces_grow(s, fewer, separator);
        assert((s + more).drop_last() =~= s + fewer);
        assert((old_pieces.last() + fewer).push(more.last()) =~= old_pieces.last() + more);
        assert(pieces(s + more, separator) =~= old_pieces.update(n, old_pieces.last() + more));
    }
}

/// The pattern stands in the text at `at`.
pub open spec fn occurs_at(s: Seq<char>, pattern: Seq<char>, at: int) -> bool {
    0 <= at && at + pattern.len() <= s.len() && s.subrange(at, at + pattern.len()) == pattern
}

/// A text in which the pattern does not occur stays as it is. At its first
/// place the pattern gives way to the value: what is before it stays, and what
/// is behind it is treated in the same way.
pub proof fn replacing_changes_the_pattern_alone(
    s: Seq<char>,
    pattern: Seq<char>,
    value: Seq<char>,
    at: int,
)
    requires
        pattern.len() > 0,
        0 <= at <= s.len(),
        forall|i: int| 0 <= i < at ==> !#[trigger] occurs_at(s, pattern, i),
    ensures
        occurs_at(s, pattern, at) ==> replaced(s, pattern, value) == s.take(at) + value + replaced(
            s.skip(at + pattern.len()),
            pattern,
            value,
        ),
        at == s.len() ==> replaced(s, pattern, value) == s,
    decreases s.len(),
{
    let n = pattern.len() as int;
    if at == 0 {
        if occurs_at(s, pattern, 0) {
            assert(s.take(n) =~= s.subrange(0, n));
            assert(s.take(0) + value =~= value);
        }
    } else {
        let rest = s.drop_first();
        if s.len() >= n {
            assert(!occurs_at(s, pattern, 0));
            assert(s.take(n) =~= s.subrange(0, n));
            assert forall|i: int| 0 <= i < at - 1 implies !#[trigger] occurs_at(
                rest,
                pattern,
                i,
            ) by {
                assert(!occurs_at(s, pattern, i + 1));
                if i + n <= rest.len() {
                    assert(rest.subrange(i, i + n) =~= s.subrange(i + 1, i + 1 + n));
                }
            }
            replacing_changes_the_pattern_alone(rest, pattern, value, at - 1);
            if occurs_at(s, pattern, at) {
                assert(rest.subrange(at - 1, at - 1 + n) =~= s.subrange(at, at + n));
                assert(occurs_at(rest, pattern, at - 1));
                assert(rest.skip(at - 1 + n) =~= s.skip(at + n));
                assert(seq![s[0]] + rest.take(at - 1) =~= s.take(at));
                assert(replaced(s, pattern, value) =~= s.take(at) + value + replaced(
                    s.skip(at + n),
                    pattern,
                    value,
                ));
            }
            if at == s.len() {
                assert(seq![s[0]] + rest =~= s);
            }
        }
    }
}

/// A number is written without needless noughts, in digits alone.
pub proof fn decimals_have_no_leading_nought(n: nat)
    ensures
        decimal(n).len() > 0,
        all_digits(decimal(n)),
        n > 0 ==> decimal(n)[0] != '0',
        n < 10 <==> decimal(n).len() == 1,
    decreases n,
{
    if n >= 10 {
        decimals_have_no_leading_nought(n / 10);
        let d = (n % 10) as int;
        assert(digit(digit_char(d)));
    } else {
        assert(digit(digit_char(n as int)));
    }
}

/// White space is these characters and no others: tab to carriage return, the
/// space, the next line, and the spaces of other scripts and widths.
pub proof fn white_space_is_these(c: char)
    ensures
        white_space(c) <==> seq![
            9u32, 10, 11, 12, 13, 32, 133, 160, 5760, 8192, 8193, 8194, 8195, 8196, 8197, 8198,
            8199, 8200, 8201, 8202, 8232, 8233, 8239, 8287, 12288,
        ].contains(c as u32),
{
    let all = seq![
        9u32, 10, 11, 12, 13, 32, 133, 160, 5760, 8192, 8193, 8194, 8195, 8196, 8197, 8198,
        8199, 8200, 8201, 8202, 8232, 8233, 8239, 8287, 12288,
    ];
    assert(all[0] == 9 && all[1] == 10 && all[2] == 11 && all[3] == 12 && all[4] == 13 && all[5]
        == 32 && all[6] == 133 && all[7] == 160 && all[8] == 5760 && all[9] == 8192 && all[10]
        == 8193 && all[11] == 8194 && all[12] == 8195 && all[13] == 8196 && all[14] == 8197
        && all[15] == 8198 && all[16] == 8199 && all[17] == 8200 && all[18] == 8201 && all[19]
        == 8202 && all[20] == 8232 && all[21] == 8233 && all[22] == 8239 && all[23] == 8287
        && all[24] == 12288);
}

/// A text is a number of 32 bits exactly if it is digits, with a plus before
/// them or not, and not too large; noughts in front do not count.
pub proof fn numbers_are_digits(digits: Seq<char>)
    requires
        digits.len() > 0,
        all_digits(digits),
        digits_value(digits) <= u32::MAX,
    ensures
        u32_of(digits) == Some(digits_value(digits) as u32),
        u32_of(seq!['+'] + digits) == u32_of(digits),
        u32_of(seq!['0'] + digits) == u32_of(digits),
        u32_of(seq!['-'] + digits) is None,
        u32_of(Seq::empty()) is None,
        u32_of(seq!['+']) is None,
{
    assert(digit(digits[0]));
    assert((seq!['+'] + digits).drop_first() =~= digits);
    let padded = seq!['0'] + digits;
    assert forall|i: int| 0 <= i < padded.len() implies digit(#[trigger] padded[i]) by {
        if i > 0 {
            assert(padded[i] == digits[i - 1]);
        }
    }
    noughts_in_front_do_not_count(digits);
    let minus = seq!['-'] + digits;
    assert(minus[0] == '-');
    assert(!digit(minus[0]));
    assert(seq!['+'].drop_first().len() == 0);
}

proof fn noughts_in_front_do_not_count(digits: Seq<char>)
    requires
        all_digits(digits),
    ensures
        digits_value(seq!['0'] + digits) == digits_value(digits),
    decreases digits.len(),
{
    let padded = seq!['0'] + digits;
    if digits.len() == 0 {
        assert(padded.drop_last() =~= Seq::<char>::empty());
        assert(digits_value(padded.drop_last()) == 0);
    } else {
        assert(padded.drop_last() =~= seq!['0'] + digits.drop_last());
        assert forall|i: int| 0 <= i < digits.drop_last().len() implies digit(
            #[trigger] digits.drop_last()[i],
        ) by {
            assert(digit(digits[i]));
        }
        noughts_in_front_do_not_count(digits.drop_last());
        assert(padded.last() == digits.last());
    }
}

} // verus!
