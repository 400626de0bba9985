use vstd::prelude::*;

verus! {

/// The byte that ends a line.
pub const NEWLINE: u8 = 10;

/// The byte that may stand before the end of a line and is not part of it.
pub const CARRIAGE_RETURN: u8 = 13;

/// The byte between the tokens of a line.
pub const SPACE: u8 = 32;

/// The byte that may stand before the digits of a number.
pub const PLUS: u8 = 43;

/// The byte is one of the ASCII digits `0` to `9`.
pub open spec fn is_digit(byte: u8) -> bool {
    48 <= byte <= 57
}

/// Every byte of the token is an ASCII digit.
pub open spec fn all_digits(token: Seq<u8>) -> bool {
    forall|i: int| 0 <= i < token.len() ==> is_digit(#[trigger] token[i])
}

/// The decimal digits of `n` in ASCII, most significant first, without
/// leading zeros.
pub open spec fn decimal(n: nat) -> Seq<u8>
    decreases n,
{
    if n < 10 {
        seq![(48 + n) as u8]
    } else {
        decimal(n / 10).push((48 + n % 10) as u8)
    }
}

/// The number that a sequence of ASCII digits denotes in base ten.
pub open spec fn decimal_value(digits: Seq<u8>) -> nat
    decreases digits.len(),
{
    if digits.len() == 0 {
        0
    } else {
        decimal_value(digits.drop_last()) * 10 + (digits.last() - 48) as nat
    }
}

/// The identifier that a token denotes: one or more decimal digits, with or
/// without a plus sign before them, whose value fits the machine word.
pub open spec fn parse_id(token: Seq<u8>) -> Option<usize> {
    let digits = if token.len() > 0 && token[0] == PLUS {
        token.drop_first()
    } else {
        token
    };
    if digits.len() > 0 && all_digits(digits) && decimal_value(digits) <= usize::MAX {
        Some(decimal_value(digits) as usize)
    } else {
        None
    }
}

/// Where `byte` first occurs in `text`, or the length of `text` if it does not.
pub open spec fn find(text: Seq<u8>, byte: u8) -> int
    decreases text.len(),
{
    if text.len() == 0 || text[0] == byte {
        0
    } else {
        1 + find(text.drop_first(), byte)
    }
}

/// The line without the carriage return at its end, if it has one.
pub open spec fn without_carriage_return(line: Seq<u8>) -> Seq<u8> {
    if line.len() > 0 && line.last() == CARRIAGE_RETURN {
        line.drop_last()
    } else {
        line
    }
}

/// The lines of a text. A line ends at a newline; a carriage return just
/// before that newline is not part of the line. What follows the last newline
/// is a line of its own unless it is empty.
pub open spec fn lines(text: Seq<u8>) -> Seq<Seq<u8>>
    decreases text.len(),
{
    if text.len() == 0 {
        Seq::empty()
    } else {
        let end = find(text, NEWLINE);
        if 0 <= end < text.len() {
            seq![without_carriage_return(text.take(end))] + lines(text.skip(end + 1))
        } else {
            seq![text]
        }
    }
}

/// `find` returns the one position before which `byte` does not occur and at
/// which, unless it is the end, `byte` stands.
pub proof fn lemma_find(text: Seq<u8>, byte: u8)
    ensures
        0 <= find(text, byte) <= text.len(),
        forall|i: int| 0 <= i < find(text, byte) ==> text[i] != byte,
        find(text, byte) < text.len() ==> text[find(text, byte)] == byte,
    decreases text.len(),
{
    if text.len() == 0 || text[0] == byte {
    } else {
        let rest = text.drop_first();
        lemma_find(rest, byte);
        assert forall|i: int| 0 <= i < find(text, byte) implies text[i] != byte by {
            if i > 0 {
                assert(text[i] == rest[i - 1]);
            }
        }
        if find(text, byte) < text.len() {
            assert(text[find(text, byte)] == rest[find(rest, byte)]);
        }
    }
}

/// A position with the two properties of `find` is what `find` returns.
pub proof fn lemma_find_is(text: Seq<u8>, byte: u8, at: int)
    requires
        0 <= at <= text.len(),
        forall|i: int| 0 <= i < at ==> text[i] != byte,
        at < text.len() ==> text[at] == byte,
    ensures
        find(text, byte) == at,
{
    lemma_find(text, byte);
    let found = find(text, byte);
    if found < at {
        assert(text[found] != byte);
    } else if at < found {
        assert(text[at] != byte);
    }
}

/// Digits only ever add to the value of what stands before them.
proof fn lemma_value_grows(digits: Seq<u8>, k: int)
    requires
        all_digits(digits),
        0 <= k <= digits.len(),
    ensures
        decimal_value(digits.take(k)) <= decimal_value(digits),
    decreases digits.len() - k,
{
    if k == digits.len() {
        assert(digits.take(k) =~= digits);
    } else {
        lemma_value_grows(digits, k + 1);
        assert(digits.take(k + 1).drop_last() =~= digits.take(k));
    }
}

/// The digits written for a number are digits, at least one, and denote
/// that number.
pub proof fn lemma_decimal(n: nat)
    ensures
        decimal(n).len() > 0,
        all_digits(decimal(n)),
        decimal_value(decimal(n)) == n,
    decreases n,
{
    if n < 10 {
        assert(decimal(n).drop_last() =~= Seq::<u8>::empty());
        assert(decimal_value(decimal(n).drop_last()) == 0);
    } else {
        lemma_decimal(n / 10);
        assert(decimal(n).drop_last() =~= decimal(n / 10));
    }
}

/// An identifier that is written and read back is the same identifier.
pub proof fn lemma_parse_decimal(id: usize)
    ensures
        parse_id(decimal(id as nat)) == Some(id),
{
    lemma_decimal(id as nat);
    assert(is_digit(decimal(id as nat)[0]));
}

/// In digits followed by a byte that is no digit, that byte is first found
/// where the digits end.
pub proof fn lemma_find_after_digits(digits: Seq<u8>, byte: u8, rest: Seq<u8>)
    requires
        all_digits(digits),
        !is_digit(byte),
    ensures
        find(digits, byte) == digits.len(),
        find(digits + seq![byte] + rest, byte) == digits.len(),
{
    lemma_find_is(digits, byte, digits.len() as int);
    lemma_find_is(digits + seq![byte] + rest, byte, digits.len() as int);
}

/// A line that holds no newline and does not end in a carriage return,
/// followed by a newline, is the first line of any text it begins.
pub proof fn lemma_lines_after_line(line: Seq<u8>, rest: Seq<u8>)
    requires
        forall|i: int| 0 <= i < line.len() ==> line[i] != NEWLINE,
        line.len() > 0 ==> line.last() != CARRIAGE_RETURN,
    ensures
        lines(line + seq![NEWLINE] + rest) == seq![line] + lines(rest),
{
    let text = line + seq![NEWLINE] + rest;
    lemma_find_is(text, NEWLINE, line.len() as int);
    assert(text.take(line.len() as int) =~= line);
    assert(text.skip(line.len() as int + 1) =~= rest);
}

/// Appends the decimal digits of `n` to `out`.
pub fn push_decimal(out: &mut Vec<u8>, n: usize)
    ensures
        final(out)@ == old(out)@ + decimal(n as nat),
    decreases n,
{
    if n >= 10 {
        push_decimal(out, n / 10);
    }
    out.push(48u8 + (n % 10) as u8);
}

/// Reads the identifier that the bytes from `start` up to `end` denote.
pub fn read_id(text: &[u8], start: usize, end: usize) -> (id: Option<usize>)
    requires
        start <= end <= text.len(),
    ensures
        id == parse_id(text@.subrange(start as int, end as int)),
{
    let ghost token = text@.subrange(start as int, end as int);
    let mut i: usize = start;
    if i < end && text[i] == PLUS {
        i += 1;
    }
    let first = i;
    let ghost digits = text@.subrange(first as int, end as int);
    assert(digits =~= if token.len() > 0 && token[0] == PLUS {
        token.drop_first()
    } else {
        token
    });
    if i == end {
        return None;
    }
    let mut value: usize = 0;
    while i < end
        invariant
            start <= first <= i <= end <= text.len(),
            token == text@.subrange(start as int, end as int),
            digits == text@.subrange(first as int, end as int),
            digits == if token.len() > 0 && token[0] == PLUS {
                token.drop_first()
            } else {
                token
            },
            all_digits(digits.take(i - first)),
            value == decimal_value(digits.take(i - first)),
        decreases end - i,
    {
        let byte = text[i];
        assert(byte == digits[i - first]);
        if byte < 48 || byte > 57 {
            return None;
        }
        let digit = (byte - 48) as usize;
        proof {
            assert(digits.take(i - first + 1).drop_last() =~= digits.take(i - first));
            assert(decimal_value(digits.take(i - first + 1)) == value * 10 + digit);
        }
        if value > (usize::MAX - digit) / 10 {
            proof {
                if all_digits(digits) {
                    lemma_value_grows(digits, i - first + 1);
                }
            }
            return None;
        }
        value = value * 10 + digit;
        i += 1;
    }
    assert(digits.take(i - first) =~= digits);
    Some(value)
}

/// Where `byte` first occurs between `start` and `end`, or `end`.
pub fn find_byte(text: &[u8], start: usize, end: usize, byte: u8) -> (at: usize)
    requires
        start <= end <= text.len(),
    ensures
        at == start + find(text@.subrange(start as int, end as int), byte),
        start <= at <= end,
{
    let ghost part = text@.subrange(start as int, end as int);
    let mut at: usize = start;
    while at < end && text[at] != byte
        invariant
            start <= at <= end <= text.len(),
            part == text@.subrange(start as int, end as int),
            forall|i: int| 0 <= i < at - start ==> part[i] != byte,
        decreases end - at,
    {
        at += 1;
    }
    proof {
        lemma_find_is(part, byte, at - start);
    }
    at
}

} // verus!
