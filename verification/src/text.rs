//! Character-level helpers for the texts of a release table.

use vstd::prelude::*;

verus! {

/// Trusted, not proved: std's `String::push` leaves the string as it was, with
/// the one character `c` added at its end.
pub assume_specification[ String::push ](text: &mut String, c: char)
    ensures
        final(text)@ == old(text)@.push(c),
;

/// The characters of `text`, one by one.
pub fn chars_of(text: &str) -> (chars: Vec<char>)
    ensures
        chars@ == text@,
{
    let mut chars: Vec<char> = Vec::new();
    for c in it: text.chars()
        invariant
            it.seq() == text@,
            chars@ == text@.take(it.index() as int),
    {
        chars.push(c);
    }
    chars
}

/// The string made of `chars`.
pub fn string_of(chars: &Vec<char>) -> (text: String)
    ensures
        text@ == chars@,
{
    let mut text = String::new();
    let mut i: usize = 0;
    while i < chars.len()
        invariant
            i <= chars.len(),
            text@ == chars@.take(i as int),
        decreases chars.len() - i,
    {
        text.push(chars[i]);
        i += 1;
    }
    text
}

/// A class of characters that can be taken off the ends of a text.
#[derive(Clone, Copy, PartialEq, Eq, Structural, Debug)]
pub enum Padding {
    /// The characters that Unicode gives the property `White_Space`.
    Whitespace,
    /// The double quote, `"`.
    Quotes,
}

/// Whether `c` has the Unicode property `White_Space`.
pub open spec fn is_white_space(c: char) -> bool {
    let code = c as u32;
    ||| 0x09 <= code <= 0x0D
    ||| code == 0x20
    ||| code == 0x85
    ||| code == 0xA0
    ||| code == 0x1680
    ||| 0x2000 <= code <= 0x200A
    ||| code == 0x2028
    ||| code == 0x2029
    ||| code == 0x202F
    ||| code == 0x205F
    ||| code == 0x3000
}

impl Padding {
    /// Whether `c` belongs to this class.
    pub open spec fn covers(self, c: char) -> bool {
        match self {
            Padding::Whitespace => is_white_space(c),
            Padding::Quotes => c == '"',
        }
    }

    /// Whether `c` belongs to this class.
    pub fn has(&self, c: char) -> (answer: bool)
        ensures
            answer == self.covers(c),
    {
        match self {
            Padding::Whitespace => {
                let code: u32 = c as u32;
                (0x09 <= code && code <= 0x0D) || code == 0x20 || code == 0x85 || code == 0xA0
                    || code == 0x1680 || (0x2000 <= code && code <= 0x200A) || code == 0x2028
                    || code == 0x2029 || code == 0x202F || code == 0x205F || code == 0x3000
            },
            Padding::Quotes => c == '"',
        }
    }
}

/// `text` without the characters of `padding` it begins with.
pub open spec fn trim_front(text: Seq<char>, padding: Padding) -> Seq<char>
    decreases text.len(),
{
    if text.len() > 0 && padding.covers(text.first()) {
        trim_front(text.drop_first(), padding)
    } else {
        text
    }
}

/// `text` without the characters of `padding` it ends with.
pub open spec fn trim_back(text: Seq<char>, padding: Padding) -> Seq<char>
    decreases text.len(),
{
    if text.len() > 0 && padding.covers(text.last()) {
        trim_back(text.drop_last(), padding)
    } else {
        text
    }
}

/// `text` without the characters of `padding` at either end.
pub open spec fn trimmed(text: Seq<char>, padding: Padding) -> Seq<char> {
    trim_back(trim_front(text, padding), padding)
}

/// Where the padding at the front of `text` ends.
proof fn lemma_trim_front(text: Seq<char>, padding: Padding) -> (start: int)
    ensures
        0 <= start <= text.len(),
        trim_front(text, padding) == text.skip(start),
        forall|i: int| 0 <= i < start ==> padding.covers(#[trigger] text[i]),
        start < text.len() ==> !padding.covers(text[start]),
    decreases text.len(),
{
    if text.len() > 0 && padding.covers(text.first()) {
        let rest = text.drop_first();
        let start = lemma_trim_front(rest, padding);
        assert(rest.skip(start) =~= text.skip(start + 1));
        assert forall|i: int| 0 <= i < start + 1 implies padding.covers(#[trigger] text[i]) by {
            if i > 0 {
                assert(text[i] == rest[i - 1]);
            }
        }
        if start < rest.len() {
            assert(text[start + 1] == rest[start]);
        }
        start + 1
    } else {
        assert(text.skip(0) =~= text);
        0
    }
}

/// Where the padding at the back of `text` begins.
proof fn lemma_trim_back(text: Seq<char>, padding: Padding) -> (end: int)
    ensures
        0 <= end <= text.len(),
        trim_back(text, padding) == text.take(end),
        forall|i: int| end <= i < text.len() ==> padding.covers(#[trigger] text[i]),
        end > 0 ==> !padding.covers(text[end - 1]),
    decreases text.len(),
{
    if text.len() > 0 && padding.covers(text.last()) {
        let rest = text.drop_last();
        let end = lemma_trim_back(rest, padding);
        assert(rest.take(end) =~= text.take(end));
        assert forall|i: int| end <= i < text.len() implies padding.covers(#[trigger] text[i]) by {
            if i < rest.len() {
                assert(text[i] == rest[i]);
            }
        }
        if end > 0 {
            assert(text[end - 1] == rest[end - 1]);
        }
        end
    } else {
        assert(text.take(text.len() as int) =~= text);
        text.len() as int
    }
}

/// Trimming cuts as much as it may and no more: what it leaves is one stretch
/// of the text, all that stands before and after that stretch is padding, and
/// the stretch neither begins nor ends with padding. The stretch is returned.
pub proof fn lemma_trimmed_is_tight(text: Seq<char>, padding: Padding) -> (stretch: (int, int))
    ensures
        0 <= stretch.0 <= stretch.1 <= text.len(),
        trimmed(text, padding) == text.subrange(stretch.0, stretch.1),
        forall|i: int| 0 <= i < stretch.0 ==> padding.covers(#[trigger] text[i]),
        forall|i: int| stretch.1 <= i < text.len() ==> padding.covers(#[trigger] text[i]),
        stretch.0 < stretch.1 ==> !padding.covers(text[stretch.0]) && !padding.covers(
            text[stretch.1 - 1],
        ),
{
    let start = lemma_trim_front(text, padding);
    let front = text.skip(start);
    let length = lemma_trim_back(front, padding);
    let end = start + length;
    assert(front.take(length) =~= text.subrange(start, end));
    assert forall|i: int| end <= i < text.len() implies padding.covers(#[trigger] text[i]) by {
        assert(text[i] == front[i - start]);
    }
    if length > 0 {
        assert(front[length - 1] == text[end - 1]);
    }
    (start, end)
}

/// Takes the characters of `padding` off both ends of `text`.
pub fn trim<'a>(text: &'a str, padding: Padding) -> (kept: &'a str)
    ensures
        kept@ == trimmed(text@, padding),
{
    let chars = chars_of(text);
    let mut start: usize = 0;
    assert(chars@.skip(0) == chars@);
    while start < chars.len() && padding.has(chars[start])
        invariant
            start <= chars.len(),
            trim_front(chars@, padding) == trim_front(chars@.skip(start as int), padding),
        decreases chars.len() - start,
    {
        assert(chars@.skip(start as int).drop_first() == chars@.skip(start as int + 1));
        start += 1;
    }
    let ghost front = chars@.skip(start as int);
    assert(trim_front(chars@, padding) == front);
    let mut end: usize = chars.len();
    assert(chars@.subrange(start as int, end as int) == front);
    while end > start && padding.has(chars[end - 1])
        invariant
            start <= end <= chars.len(),
            front == chars@.skip(start as int),
            trim_back(front, padding) == trim_back(
                chars@.subrange(start as int, end as int),
                padding,
            ),
        decreases end - start,
    {
        assert(chars@.subrange(start as int, end as int).drop_last() == chars@.subrange(
            start as int,
            end as int - 1,
        ));
        end -= 1;
    }
    text.substring_char(start, end)
}

/// Whether two texts hold the same characters.
pub fn same_text(left: &Vec<char>, right: &Vec<char>) -> (answer: bool)
    ensures
        answer == (left@ == right@),
{
    if left.len() != right.len() {
        return false;
    }
    let mut i: usize = 0;
    while i < left.len()
        invariant
            i <= left.len(),
            left.len() == right.len(),
            left@.take(i as int) == right@.take(i as int),
        decreases left.len() - i,
    {
        if left[i] != right[i] {
            return false;
        }
        assert(left@.take(i as int + 1) == left@.take(i as int).push(left@[i as int]));
        assert(right@.take(i as int + 1) == right@.take(i as int).push(right@[i as int]));
        i += 1;
    }
    assert(left@.take(i as int) == left@);
    assert(right@.take(i as int) == right@);
    true
}

/// The parts of `text` between the occurrences of `separator`. A text without
/// the separator is one part; a separator at either end borders an empty part.
pub open spec fn split(text: Seq<char>, separator: char) -> Seq<Seq<char>>
    decreases text.len(),
{
    if text.len() == 0 {
        seq![Seq::empty()]
    } else {
        let parts = split(text.drop_last(), separator);
        if text.last() == separator {
            parts.push(Seq::empty())
        } else {
            parts.drop_last().push(parts.last().push(text.last()))
        }
    }
}

/// The parts put together again, with `separator` between neighbours.
pub open spec fn joined(parts: Seq<Seq<char>>, separator: char) -> Seq<char>
    decreases parts.len(),
{
    if parts.len() == 0 {
        Seq::empty()
    } else if parts.len() == 1 {
        parts[0]
    } else {
        joined(parts.drop_last(), separator).push(separator) + parts.last()
    }
}

/// Splitting loses nothing: there is at least one part, no part holds the
/// separator, and the parts joined by the separator are the text.
pub proof fn lemma_split_joins(text: Seq<char>, separator: char)
    ensures
        split(text, separator).len() >= 1,
        forall|i: int, j: int|
            0 <= i < split(text, separator).len() && 0 <= j < split(text, separator)[i].len()
                ==> (#[trigger] split(text, separator)[i][j]) != separator,
        joined(split(text, separator), separator) == text,
    decreases text.len(),
{
    if text.len() > 0 {
        let shorter = text.drop_last();
        let parts = split(shorter, separator);
        let grown = split(text, separator);
        lemma_split_joins(shorter, separator);
        if text.last() == separator {
            assert(grown.drop_last() =~= parts);
            assert(joined(grown, separator) =~= text);
            assert forall|i: int, j: int|
                0 <= i < grown.len() && 0 <= j < grown[i].len() implies (#[trigger] grown[i][j])
                != separator by {
                assert(grown[i] == parts[i]);
                assert(parts[i][j] != separator);
            }
        } else {
            let open = parts.last().push(text.last());
            assert(grown.last() == open);
            assert(grown.drop_last() =~= parts.drop_last());
            if parts.len() == 1 {
                assert(joined(grown, separator) =~= text);
            } else {
                let front = joined(parts.drop_last(), separator).push(separator);
                assert(joined(parts, separator) == front + parts.last());
                assert(joined(grown, separator) == front + open);
                assert(front + open =~= (front + parts.last()).push(text.last()));
                assert(text =~= shorter.push(text.last()));
            }
            assert forall|i: int, j: int|
                0 <= i < grown.len() && 0 <= j < grown[i].len() implies (#[trigger] grown[i][j])
                != separator by {
                if i < grown.len() - 1 {
                    assert(grown[i] == parts[i]);
                    assert(parts[i][j] != separator);
                } else if j < parts.last().len() {
                    assert(grown[i][j] == parts[parts.len() - 1][j]);
                }
            }
        }
    }
}

/// What a sequence of texts holds.
pub open spec fn texts_of(parts: Seq<Vec<char>>) -> Seq<Seq<char>> {
    parts.map_values(|part: Vec<char>| part@)
}

/// The character that writes the digit `digit`.
pub open spec fn digit_char(digit: int) -> char {
    if digit == 0 {
        '0'
    } else if digit == 1 {
        '1'
    } else if digit == 2 {
        '2'
    } else if digit == 3 {
        '3'
    } else if digit == 4 {
        '4'
    } else if digit == 5 {
        '5'
    } else if digit == 6 {
        '6'
    } else if digit == 7 {
        '7'
    } else if digit == 8 {
        '8'
    } else {
        '9'
    }
}

/// The digits of `number` in base ten, without leading zeros.
pub open spec fn decimal(number: nat) -> Seq<char>
    decreases number,
{
    if number < 10 {
        seq![digit_char(number as int)]
    } else {
        decimal(number / 10).push(digit_char((number % 10) as int))
    }
}

/// The digits of `number` in base ten, with zeros in front where they are
/// fewer than `width`.
pub open spec fn zero_padded(number: nat, width: nat) -> Seq<char> {
    let digits = decimal(number);
    if digits.len() < width {
        Seq::new((width - digits.len()) as nat, |i: int| '0') + digits
    } else {
        digits
    }
}

/// The character that writes a digit.
fn digit_to_char(digit: u32) -> (c: char)
    requires
        digit < 10,
    ensures
        c == digit_char(digit as int),
{
    if digit == 0 {
        '0'
    } else if digit == 1 {
        '1'
    } else if digit == 2 {
        '2'
    } else if digit == 3 {
        '3'
    } else if digit == 4 {
        '4'
    } else if digit == 5 {
        '5'
    } else if digit == 6 {
        '6'
    } else if digit == 7 {
        '7'
    } else if digit == 8 {
        '8'
    } else {
        '9'
    }
}

/// The number of digits that `number` has in base ten.
fn digit_count(number: u32) -> (count: usize)
    ensures
        count == decimal(number as nat).len(),
        1 <= count <= 10,
    decreases number,
{
    if number < 10 {
        1
    } else {
        let shorter = digit_count(number / 10);
        proof {
            lemma_decimal_length(number as nat);
        }
        shorter + 1
    }
}

/// A number below a power of ten has no more digits than that power has zeros.
proof fn lemma_decimal_length(number: nat)
    ensures
        decimal(number).len() >= 1,
        number < 10 ==> decimal(number).len() == 1,
        number < 100 ==> decimal(number).len() <= 2,
        number < 1000 ==> decimal(number).len() <= 3,
        number < 10000 ==> decimal(number).len() <= 4,
        number < 100000 ==> decimal(number).len() <= 5,
        number < 1000000 ==> decimal(number).len() <= 6,
        number < 10000000 ==> decimal(number).len() <= 7,
        number < 100000000 ==> decimal(number).len() <= 8,
        number < 1000000000 ==> decimal(number).len() <= 9,
        number < 10000000000 ==> decimal(number).len() <= 10,
    decreases number,
{
    if number >= 10 {
        lemma_decimal_length(number / 10);
    }
}

/// Appends the digits of `number` to `text`.
pub fn push_decimal(text: &mut String, number: u32)
    ensures
        final(text)@ == old(text)@ + decimal(number as nat),
    decreases number,
{
    if number >= 10 {
        push_decimal(text, number / 10);
    }
    text.push(digit_to_char(number % 10));
}

/// Appends the digits of `number` to `text`, after as many zeros as they are
/// fewer than `width`.
pub fn push_zero_padded(text: &mut String, number: u32, width: usize)
    ensures
        final(text)@ == old(text)@ + zero_padded(number as nat, width as nat),
{
    let digits = digit_count(number);
    let mut written: usize = digits;
    while written < width
        invariant
            digits <= written,
            written <= width || written == digits,
            text@ == old(text)@ + Seq::new((written - digits) as nat, |i: int| '0'),
        decreases width - written,
    {
        text.push('0');
        written += 1;
    }
    push_decimal(text, number);
}

} // verus!
