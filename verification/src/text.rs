//! The text forms that formulas are read from, as bytes: decimal numbers,
//! words between single spaces, and lines without the blanks around them.

use vstd::prelude::*;

verus! {

/// The byte of the space character.
pub const SPACE: u8 = 32;

/// Whether the byte is a decimal digit.
pub open spec fn is_digit(byte: u8) -> bool {
    48 <= byte <= 57
}

/// Whether every byte is a decimal digit.
pub open spec fn all_digits(text: Seq<u8>) -> bool {
    forall|i: int| 0 <= i < text.len() ==> is_digit(#[trigger] text[i])
}

/// The number that a sequence of digits writes.
pub open spec fn digits_value(digits: Seq<u8>) -> nat
    decreases digits.len(),
{
    if digits.len() == 0 {
        0
    } else {
        (digits_value(digits.drop_last()) * 10 + (digits.last() - 48)) as nat
    }
}

/// The number that a text writes: one or more digits, with or without a `+`
/// before them. `None` for any other text.
pub open spec fn number_of(text: Seq<u8>) -> Option<nat> {
    let digits = if text.len() > 0 && text[0] == 43 {
        text.skip(1)
    } else {
        text
    };
    if digits.len() > 0 && all_digits(digits) {
        Some(digits_value(digits))
    } else {
        None
    }
}

/// A longer sequence of digits writes a number that is no smaller than the
/// number that its start writes.
pub proof fn lemma_digits_grow(digits: Seq<u8>, shorter: int)
    requires
        0 <= shorter <= digits.len(),
        all_digits(digits),
    ensures
        digits_value(digits.take(shorter)) <= digits_value(digits),
    decreases digits.len() - shorter,
{
    if shorter < digits.len() {
        let front = digits.drop_last();
        assert(all_digits(front)) by {
            assert forall|i: int| 0 <= i < front.len() implies is_digit(#[trigger] front[i]) by {}
        }
        lemma_digits_grow(front, shorter);
        assert(front.take(shorter) =~= digits.take(shorter));
    } else {
        assert(digits.take(shorter) =~= digits);
    }
}

/// Reads the number that the bytes from `from` up to `to` write, where it
/// is one that fits.
pub fn parse_number(bytes: &[u8], from: usize, to: usize) -> (number: Option<usize>)
    requires
        from <= to <= bytes@.len(),
    ensures
        number == match number_of(bytes@.subrange(from as int, to as int)) {
            Some(value) => if value <= usize::MAX {
                Some(value as usize)
            } else {
                None
            },
            None => None,
        },
{
    let ghost text = bytes@.subrange(from as int, to as int);
    let start = if from < to && bytes[from] == 43 {
        from + 1
    } else {
        from
    };
    let ghost digits = bytes@.subrange(start as int, to as int);
    proof {
        if start > from {
            assert(digits =~= text.skip(1));
        }
    }
    if start == to {
        return None;
    }
    let mut value: usize = 0;
    let mut position: usize = start;
    while position < to
        invariant
            start <= position <= to,
            to <= bytes@.len(),
            digits == bytes@.subrange(start as int, to as int),
            all_digits(digits.take(position - start)),
            value == digits_value(digits.take(position - start)),
            number_of(bytes@.subrange(from as int, to as int)) == if digits.len() > 0
                && all_digits(digits) {
                Some(digits_value(digits))
            } else {
                None
            },
        decreases to - position,
    {
        let byte = bytes[position];
        let ghost read = digits.take(position - start);
        let ghost longer = digits.take(position - start + 1);
        proof {
            assert(digits[position - start] == byte);
            assert(longer.drop_last() =~= read);
        }
        if byte < 48 || byte > 57 {
            return None;
        }
        proof {
            assert forall|i: int| 0 <= i < longer.len() implies is_digit(#[trigger] longer[i]) by {}
        }
        let digit = (byte - 48) as usize;
        if value > (usize::MAX - digit) / 10 {
            proof {
                // The number is too large whatever follows.
                assert(digits_value(longer) > usize::MAX);
                if all_digits(digits) {
                    lemma_digits_grow(digits, position - start + 1);
                }
            }
            return None;
        }
        value = value * 10 + digit;
        position += 1;
    }
    proof {
        assert(digits.take(to - start) =~= digits);
    }
    Some(value)
}

/// The position of the first space of a text, or the length of the text
/// where it has none.
pub open spec fn first_space(text: Seq<u8>) -> int
    decreases text.len(),
{
    if text.len() == 0 || text[0] == SPACE {
        0
    } else {
        1 + first_space(text.skip(1))
    }
}

/// The words of a text: what stands before, between and after its spaces.
/// A text without spaces is one word, and so is the empty text.
pub open spec fn tokens(text: Seq<u8>) -> Seq<Seq<u8>>
    decreases text.len(),
{
    let space = first_space(text);
    if 0 <= space < text.len() {
        seq![text.take(space)] + tokens(text.skip(space + 1))
    } else {
        seq![text]
    }
}

/// Where no byte from `from` up to `upto` is a space and there is a space
/// at `upto` or the text ends there, `upto` is where the first space after
/// `from` is.
pub proof fn lemma_first_space(text: Seq<u8>, from: int, upto: int)
    requires
        0 <= from <= upto <= text.len(),
        forall|i: int| from <= i < upto ==> #[trigger] text[i] != SPACE,
        upto == text.len() || text[upto] == SPACE,
    ensures
        first_space(text.skip(from)) == upto - from,
    decreases upto - from,
{
    let rest = text.skip(from);
    if from < upto {
        lemma_first_space(text, from + 1, upto);
        assert(rest.skip(1) =~= text.skip(from + 1));
    }
}

/// Splits the bytes from `from` up to `to` at every space.
pub fn split(bytes: &[u8], from: usize, to: usize) -> (words: Vec<(usize, usize)>)
    requires
        from <= to <= bytes@.len(),
    ensures
        words@.len() == tokens(bytes@.subrange(from as int, to as int)).len(),
        words@.len() > 0,
        forall|k: int|
            0 <= k < words@.len() ==> {
                &&& from <= (#[trigger] words@[k]).0 <= words@[k].1 <= to
                &&& bytes@.subrange(words@[k].0 as int, words@[k].1 as int) == tokens(
                    bytes@.subrange(from as int, to as int),
                )[k]
            },
{
    let ghost text = bytes@.subrange(from as int, to as int);
    let mut words: Vec<(usize, usize)> = Vec::new();
    let mut start: usize = from;
    let mut position: usize = from;
    proof {
        assert(text.skip(0) =~= text);
    }
    while position < to
        invariant
            from <= start <= position <= to,
            to <= bytes@.len(),
            text == bytes@.subrange(from as int, to as int),
            forall|i: int| start <= i < position ==> #[trigger] bytes@[i] != SPACE,
            tokens(text).len() == words@.len() + tokens(text.skip(start - from)).len(),
            forall|k: int|
                0 <= k < words@.len() ==> {
                    &&& from <= (#[trigger] words@[k]).0 <= words@[k].1 <= to
                    &&& bytes@.subrange(words@[k].0 as int, words@[k].1 as int) == tokens(text)[k]
                },
            forall|j: int|
                words@.len() <= j < tokens(text).len() ==> #[trigger] tokens(text)[j] == tokens(
                    text.skip(start - from),
                )[j - words@.len()],
        decreases to - position,
    {
        if bytes[position] == SPACE {
            let ghost rest = text.skip(start - from);
            proof {
                assert forall|i: int| start - from <= i < position - from implies #[trigger] text[i]
                    != SPACE by {}
                lemma_first_space(text, start - from, position - from);
                assert(rest.skip(position - start + 1) =~= text.skip(position + 1 - from));
                assert forall|j: int|
                    words@.len() + 1 <= j < tokens(text).len() implies #[trigger] tokens(text)[j]
                    == tokens(text.skip(position + 1 - from))[j - words@.len() - 1] by {}
            }
            words.push((start, position));
            start = position + 1;
        }
        position += 1;
    }
    proof {
        let rest = text.skip(start - from);
        assert forall|i: int| start - from <= i < to - from implies #[trigger] text[i] != SPACE by {}
        lemma_first_space(text, start - from, to - from);
    }
    words.push((start, to));
    words
}

/// Whether the byte is a blank: a space, a tab, a line feed, a vertical
/// tab, a form feed or a carriage return.
pub open spec fn is_blank(byte: u8) -> bool {
    byte == SPACE || 9 <= byte <= 13
}

/// The number of blanks at the start of a text.
pub open spec fn leading_blanks(text: Seq<u8>) -> int
    decreases text.len(),
{
    if text.len() == 0 || !is_blank(text[0]) {
        0
    } else {
        1 + leading_blanks(text.skip(1))
    }
}

/// The number of blanks at the end of a text.
pub open spec fn trailing_blanks(text: Seq<u8>) -> int
    decreases text.len(),
{
    if text.len() == 0 || !is_blank(text.last()) {
        0
    } else {
        1 + trailing_blanks(text.drop_last())
    }
}

/// The text without the blanks at its start and at its end.
pub open spec fn trimmed(text: Seq<u8>) -> Seq<u8> {
    let rest = text.skip(leading_blanks(text));
    rest.take(rest.len() - trailing_blanks(rest))
}

/// The blanks at the start of a text are as many as the bytes that are all
/// blank and are followed by a byte that is none or by the end.
pub proof fn lemma_leading_blanks(text: Seq<u8>, count: int)
    requires
        0 <= count <= text.len(),
        forall|i: int| 0 <= i < count ==> is_blank(#[trigger] text[i]),
        count == text.len() || !is_blank(text[count]),
    ensures
        leading_blanks(text) == count,
    decreases count,
{
    if count > 0 {
        let rest = text.skip(1);
        assert forall|i: int| 0 <= i < count - 1 implies is_blank(#[trigger] rest[i]) by {}
        lemma_leading_blanks(rest, count - 1);
    }
}

/// The blanks at the end of a text are as many as the last bytes that are
/// all blank and come after a byte that is none or after the start.
pub proof fn lemma_trailing_blanks(text: Seq<u8>, count: int)
    requires
        0 <= count <= text.len(),
        forall|i: int| text.len() - count <= i < text.len() ==> is_blank(#[trigger] text[i]),
        count == text.len() || !is_blank(text[text.len() - count - 1]),
    ensures
        trailing_blanks(text) == count,
    decreases count,
{
    if count > 0 {
        let rest = text.drop_last();
        assert forall|i: int| rest.len() - (count - 1) <= i < rest.len() implies is_blank(
            #[trigger] rest[i],
        ) by {}
        lemma_trailing_blanks(rest, count - 1);
    }
}

/// Finds the part of the bytes that is left when the blanks at the start
/// and at the end are taken away.
pub fn trim(bytes: &[u8]) -> (range: (usize, usize))
    ensures
        range.0 <= range.1 <= bytes@.len(),
        bytes@.subrange(range.0 as int, range.1 as int) == trimmed(bytes@),
{
    let mut from: usize = 0;
    while from < bytes.len() && (bytes[from] == SPACE || (9 <= bytes[from] && bytes[from] <= 13))
        invariant
            from <= bytes@.len(),
            forall|i: int| 0 <= i < from ==> is_blank(#[trigger] bytes@[i]),
        decreases bytes@.len() - from,
    {
        from += 1;
    }
    let mut to: usize = bytes.len();
    while to > from && (bytes[to - 1] == SPACE || (9 <= bytes[to - 1] && bytes[to - 1] <= 13))
        invariant
            from <= to <= bytes@.len(),
            forall|i: int| to <= i < bytes@.len() ==> is_blank(#[trigger] bytes@[i]),
        decreases to,
    {
        to -= 1;
    }
    proof {
        lemma_leading_blanks(bytes@, from as int);
        let rest = bytes@.skip(from as int);
        assert forall|i: int| rest.len() - (bytes@.len() - to) <= i < rest.len() implies is_blank(
            #[trigger] rest[i],
        ) by {}
        lemma_trailing_blanks(rest, bytes@.len() - to);
    }
    (from, to)
}

/// The position of the first blank of a text, or the length of the text
/// where it has none.
pub open spec fn first_blank(text: Seq<u8>) -> int
    decreases text.len(),
{
    if text.len() == 0 || is_blank(text[0]) {
        0
    } else {
        1 + first_blank(text.skip(1))
    }
}

/// The fields of a text: the longest runs of bytes that are no blanks, in
/// order.
pub open spec fn fields(text: Seq<u8>) -> Seq<Seq<u8>>
    decreases text.len(),
{
    let start = leading_blanks(text);
    if 0 <= start < text.len() {
        let rest = text.skip(start);
        let end = first_blank(rest);
        if 0 < end <= rest.len() {
            seq![rest.take(end)] + fields(rest.skip(end))
        } else {
            Seq::empty()
        }
    } else {
        Seq::empty()
    }
}

/// Where no byte before `upto` is a blank and there is a blank at `upto` or
/// the text ends there, `upto` is where the first blank is.
pub proof fn lemma_first_blank(text: Seq<u8>, upto: int)
    requires
        0 <= upto <= text.len(),
        forall|i: int| 0 <= i < upto ==> !is_blank(#[trigger] text[i]),
        upto == text.len() || is_blank(text[upto]),
    ensures
        first_blank(text) == upto,
    decreases upto,
{
    if upto > 0 {
        let rest = text.skip(1);
        assert forall|i: int| 0 <= i < upto - 1 implies !is_blank(#[trigger] rest[i]) by {}
        lemma_first_blank(rest, upto - 1);
    }
}

/// The number of leading blanks is never negative and never more than the
/// length of the text.
pub proof fn lemma_leading_blanks_bound(text: Seq<u8>)
    ensures
        0 <= leading_blanks(text) <= text.len(),
    decreases text.len(),
{
    if text.len() > 0 && is_blank(text[0]) {
        lemma_leading_blanks_bound(text.skip(1));
    }
}

/// A blank at the start of a text changes nothing of its fields.
pub proof fn lemma_fields_skip_blank(text: Seq<u8>)
    requires
        text.len() > 0,
        is_blank(text[0]),
    ensures
        fields(text) == fields(text.skip(1)),
{
    let shorter = text.skip(1);
    lemma_leading_blanks_bound(shorter);
    let start = leading_blanks(shorter);
    if start < shorter.len() {
        assert(text.skip(start + 1) =~= shorter.skip(start));
    }
}

/// A text that starts with a byte that is no blank has as its first field
/// the bytes up to its first blank, and as its other fields the fields of
/// what follows.
pub proof fn lemma_fields_first(text: Seq<u8>, end: int)
    requires
        0 < end <= text.len(),
        forall|i: int| 0 <= i < end ==> !is_blank(#[trigger] text[i]),
        end == text.len() || is_blank(text[end]),
    ensures
        fields(text) == seq![text.take(end)] + fields(text.skip(end)),
{
    assert(text.skip(0) =~= text);
    lemma_first_blank(text, end);
}

/// Whether the byte is a blank.
pub fn is_blank_byte(byte: u8) -> (blank: bool)
    ensures
        blank == is_blank(byte),
{
    byte == SPACE || (9 <= byte && byte <= 13)
}

/// Splits the bytes from `from` up to `to` into fields.
pub fn split_blanks(bytes: &[u8], from: usize, to: usize) -> (words: Vec<(usize, usize)>)
    requires
        from <= to <= bytes@.len(),
    ensures
        words@.len() == fields(bytes@.subrange(from as int, to as int)).len(),
        forall|k: int|
            0 <= k < words@.len() ==> {
                &&& from <= (#[trigger] words@[k]).0 <= words@[k].1 <= to
                &&& bytes@.subrange(words@[k].0 as int, words@[k].1 as int) == fields(
                    bytes@.subrange(from as int, to as int),
                )[k]
            },
{
    let ghost text = bytes@.subrange(from as int, to as int);
    let mut words: Vec<(usize, usize)> = Vec::new();
    let mut position: usize = from;
    proof {
        assert(text.skip(0) =~= text);
    }
    while position < to
        invariant
            from <= position <= to,
            to <= bytes@.len(),
            text == bytes@.subrange(from as int, to as int),
            fields(text).len() == words@.len() + fields(text.skip(position - from)).len(),
            forall|k: int|
                0 <= k < words@.len() ==> {
                    &&& from <= (#[trigger] words@[k]).0 <= words@[k].1 <= to
                    &&& bytes@.subrange(words@[k].0 as int, words@[k].1 as int) == fields(text)[k]
                },
            forall|j: int|
                words@.len() <= j < fields(text).len() ==> #[trigger] fields(text)[j] == fields(
                    text.skip(position - from),
                )[j - words@.len()],
        decreases to - position,
    {
        let ghost rest = text.skip(position - from);
        if is_blank_byte(bytes[position]) {
            proof {
                lemma_fields_skip_blank(rest);
                assert(rest.skip(1) =~= text.skip(position + 1 - from));
            }
            position += 1;
        } else {
            let start = position;
            position += 1;
            while position < to && !is_blank_byte(bytes[position])
                invariant
                    from <= start < position <= to,
                    to <= bytes@.len(),
                    forall|i: int| start <= i < position ==> !is_blank(#[trigger] bytes@[i]),
                decreases to - position,
            {
                position += 1;
            }
            proof {
                let end = position - start;
                assert forall|i: int| 0 <= i < end implies !is_blank(#[trigger] rest[i]) by {}
                lemma_fields_first(rest, end);
                assert(rest.skip(end) =~= text.skip(position - from));
                assert forall|j: int|
                    words@.len() + 1 <= j < fields(text).len() implies #[trigger] fields(text)[j]
                    == fields(text.skip(position - from))[j - words@.len() - 1] by {}
            }
            words.push((start, position));
        }
    }
    words
}

/// Whether the bytes from `from` up to `to` are the bytes of `word`.
pub fn matches_word(bytes: &[u8], from: usize, to: usize, word: &[u8]) -> (same: bool)
    requires
        from <= to <= bytes@.len(),
    ensures
        same == (bytes@.subrange(from as int, to as int) == word@),
{
    if to - from != word.len() {
        return false;
    }
    let mut position: usize = 0;
    while position < word.len()
        invariant
            position <= word@.len(),
            from <= to <= bytes@.len(),
            to - from == word@.len(),
            forall|i: int| 0 <= i < position ==> bytes@[from + i] == #[trigger] word@[i],
        decreases word@.len() - position,
    {
        if bytes[from + position] != word[position] {
            return false;
        }
        position += 1;
    }
    proof {
        assert(bytes@.subrange(from as int, to as int) =~= word@);
    }
    true
}

} // verus!
